use chunkstore::layout::chunk_path;
use chunkstore::ChunkStore;

#[test]
fn chunk_numbers_are_padded_to_nine_digits() {
    assert_eq!(chunk_path("/tmp", 0), "/tmp/outputs/chunks/chunk_000000000");
    assert_eq!(chunk_path("/tmp", 7), "/tmp/outputs/chunks/chunk_000000007");
    assert_eq!(chunk_path("/tmp", 10), "/tmp/outputs/chunks/chunk_000000010");
    assert_eq!(chunk_path("/tmp", 4_096), "/tmp/outputs/chunks/chunk_000004096");
    assert_eq!(chunk_path("/tmp", 99_999_999), "/tmp/outputs/chunks/chunk_099999999");
    assert_eq!(chunk_path("/tmp", 123_456_789), "/tmp/outputs/chunks/chunk_123456789");
    assert_eq!(chunk_path("/tmp", 999_999_999), "/tmp/outputs/chunks/chunk_999999999");
}

#[test]
fn larger_chunk_numbers_take_the_digits_they_need() {
    assert_eq!(chunk_path("/tmp", 1_000_000_000), "/tmp/outputs/chunks/chunk_1000000000");
    assert_eq!(chunk_path("/tmp", 4_294_967_295), "/tmp/outputs/chunks/chunk_4294967295");
    assert_eq!(
        chunk_path("", usize::MAX),
        format!("/outputs/chunks/chunk_{:09}", usize::MAX)
    );
}

#[test]
fn the_path_is_what_formatting_gives() {
    for dir in ["", "/", "/tmp/", "relative/dir", "/with space/ü"] {
        for id in [0usize, 1, 9, 10, 11, 99, 100, 12_345, 100_000_000, 999_999_999, 1_000_000_000] {
            assert_eq!(chunk_path(dir, id), format!("{}/outputs/chunks/chunk_{:09}", dir, id));
        }
    }
}

#[test]
fn a_store_names_its_files_below_its_work_directory() {
    let cks = ChunkStore::new("/tmp/".to_string());
    assert_eq!(cks.chunk_path(42), "/tmp//outputs/chunks/chunk_000000042");
}
