//! Where chunks are persisted: `<work_dir>/outputs/chunks/chunk_<number>`, the
//! number written in decimal and padded with zeros to nine digits.

use vstd::prelude::*;
use vstd::string::*;

verus! {

/// The least number of digits in a chunk file's number.
pub const CHUNK_DIGITS: usize = 9;

/// The decimal digit `d` as a character.
pub open spec fn digit_char(d: nat) -> char
    recommends
        d < 10,
{
    if d == 0 {
        '0'
    } else if d == 1 {
        '1'
    } else if d == 2 {
        '2'
    } else if d == 3 {
        '3'
    } else if d == 4 {
        '4'
    } else if d == 5 {
        '5'
    } else if d == 6 {
        '6'
    } else if d == 7 {
        '7'
    } else if d == 8 {
        '8'
    } else {
        '9'
    }
}

/// `n` in decimal, padded on the left with zeros to at least `width` digits
/// (and to at least one).
pub open spec fn zero_padded(n: nat, width: nat) -> Seq<char>
    decreases n, width,
{
    if n < 10 && width <= 1 {
        seq![digit_char(n)]
    } else {
        zero_padded(
            n / 10,
            if width > 0 {
                (width - 1) as nat
            } else {
                0
            },
        ).push(digit_char(n % 10))
    }
}

/// The directory of the chunk files below the work directory, and the part of
/// a file's name that stands before its number.
pub open spec fn chunk_prefix() -> Seq<char> {
    "/outputs/chunks/chunk_"@
}

/// The path of the file that holds chunk number `id`.
pub open spec fn chunk_path_spec(work_dir: Seq<char>, id: nat) -> Seq<char> {
    work_dir + chunk_prefix() + zero_padded(id, CHUNK_DIGITS as nat)
}

/// The characters of the digits `ds`, last digit first.
pub open spec fn digits_reversed(ds: Seq<u8>) -> Seq<char> {
    Seq::new(ds.len(), |j: int| digit_char(ds[ds.len() - 1 - j] as nat))
}

/// A padded number has at least one digit, and at least `width` of them.
pub proof fn lemma_zero_padded_len(n: nat, width: nat)
    ensures
        zero_padded(n, width).len() >= 1,
        zero_padded(n, width).len() >= width,
        !(n < 10 && width <= 1) ==> zero_padded(n, width).len() >= 2,
    decreases n, width,
{
    if !(n < 10 && width <= 1) {
        lemma_zero_padded_len(
            n / 10,
            if width > 0 {
                (width - 1) as nat
            } else {
                0
            },
        );
    }
}

/// Ten to the power `e`.
pub open spec fn pow10(e: nat) -> nat
    decreases e,
{
    if e == 0 {
        1
    } else {
        10 * pow10((e - 1) as nat)
    }
}

/// A number that can be written with `width` digits is padded to exactly
/// `width` digits: a chunk number below a thousand million takes nine.
pub proof fn lemma_zero_padded_width(n: nat, width: nat)
    requires
        width >= 1,
        n < pow10(width),
    ensures
        zero_padded(n, width).len() == width,
    decreases width,
{
    reveal_with_fuel(pow10, 2);
    if width > 1 {
        lemma_zero_padded_width(n / 10, (width - 1) as nat);
    }
}

/// Two numbers with the same padded form are the same number.
pub proof fn lemma_zero_padded_injective(a: nat, b: nat, width: nat)
    requires
        zero_padded(a, width) == zero_padded(b, width),
    ensures
        a == b,
    decreases a, width,
{
    let next = if width > 0 {
        (width - 1) as nat
    } else {
        0
    };
    lemma_zero_padded_len(a, width);
    lemma_zero_padded_len(b, width);
    if a < 10 && width <= 1 {
        assert(zero_padded(a, width)[0] == digit_char(a));
        assert(zero_padded(b, width)[0] == digit_char(b));
    } else {
        let pa = zero_padded(a / 10, next);
        let pb = zero_padded(b / 10, next);
        assert(zero_padded(a, width) == pa.push(digit_char(a % 10)));
        assert(zero_padded(b, width) == pb.push(digit_char(b % 10)));
        assert(pa.push(digit_char(a % 10)).last() == digit_char(a % 10));
        assert(pb.push(digit_char(b % 10)).last() == digit_char(b % 10));
        assert(pa.push(digit_char(a % 10)).drop_last() =~= pa);
        assert(pb.push(digit_char(b % 10)).drop_last() =~= pb);
        lemma_zero_padded_injective(a / 10, b / 10, next);
    }
}

/// Chunks with different numbers are kept in different files.
pub proof fn lemma_chunk_paths_distinct(work_dir: Seq<char>, a: nat, b: nat)
    requires
        a != b,
    ensures
        chunk_path_spec(work_dir, a) != chunk_path_spec(work_dir, b),
{
    let head = work_dir + chunk_prefix();
    let pa = zero_padded(a, CHUNK_DIGITS as nat);
    let pb = zero_padded(b, CHUNK_DIGITS as nat);
    if head + pa == head + pb {
        assert((head + pa).subrange(head.len() as int, (head + pa).len() as int) =~= pa);
        assert((head + pb).subrange(head.len() as int, (head + pb).len() as int) =~= pb);
        lemma_zero_padded_injective(a, b, CHUNK_DIGITS as nat);
    }
}

/// The one-character string of a decimal digit.
fn digit_str(d: u8) -> (s: &'static str)
    requires
        d < 10,
    ensures
        s@ == seq![digit_char(d as nat)],
{
    proof {
        reveal_strlit("0");
        reveal_strlit("1");
        reveal_strlit("2");
        reveal_strlit("3");
        reveal_strlit("4");
        reveal_strlit("5");
        reveal_strlit("6");
        reveal_strlit("7");
        reveal_strlit("8");
        reveal_strlit("9");
    }
    let s = match d {
        0 => "0",
        1 => "1",
        2 => "2",
        3 => "3",
        4 => "4",
        5 => "5",
        6 => "6",
        7 => "7",
        8 => "8",
        _ => "9",
    };
    assert(s@ =~= seq![digit_char(d as nat)]);
    s
}

/// The digits of `id` padded to nine, last digit first.
fn padded_digits(id: usize) -> (ds: Vec<u8>)
    ensures
        forall|j: int| 0 <= j < ds.len() ==> ds[j] < 10,
        digits_reversed(ds@) == zero_padded(id as nat, CHUNK_DIGITS as nat),
{
    let mut ds: Vec<u8> = Vec::new();
    let mut rest: usize = id;
    let ghost mut width: nat = CHUNK_DIGITS as nat;
    loop
        invariant_except_break
            forall|j: int| 0 <= j < ds.len() ==> ds[j] < 10,
            width == if ds.len() < CHUNK_DIGITS {
                (CHUNK_DIGITS - ds.len()) as nat
            } else {
                0
            },
            zero_padded(id as nat, CHUNK_DIGITS as nat) == zero_padded(rest as nat, width)
                + digits_reversed(ds@),
        ensures
            forall|j: int| 0 <= j < ds.len() ==> ds[j] < 10,
            digits_reversed(ds@) == zero_padded(id as nat, CHUNK_DIGITS as nat),
        decreases rest, width,
    {
        let ghost before = ds@;
        let d: u8 = (rest % 10) as u8;
        ds.push(d);
        proof {
            let c = digit_char(d as nat);
            assert(digits_reversed(ds@) =~= seq![c] + digits_reversed(before));
        }
        if rest < 10 && ds.len() >= CHUNK_DIGITS {
            proof {
                assert(zero_padded(rest as nat, width) == seq![digit_char(rest as nat)]);
            }
            break;
        }
        proof {
            let c = digit_char(d as nat);
            let next: nat = if width > 0 {
                (width - 1) as nat
            } else {
                0
            };
            let head = zero_padded((rest / 10) as nat, next);
            assert(zero_padded(rest as nat, width) == head.push(c));
            assert(head.push(c) + digits_reversed(before) =~= head + (seq![c] + digits_reversed(
                before,
            )));
            width = next;
        }
        rest = rest / 10;
    }
    ds
}

/// Builds the path of the file that holds chunk number `id` under `work_dir`.
pub fn chunk_path(work_dir: &str, id: usize) -> (path: String)
    ensures
        path@ == chunk_path_spec(work_dir@, id as nat),
{
    let ds = padded_digits(id);
    let mut path = String::from_str(work_dir);
    path.append("/outputs/chunks/chunk_");
    let ghost head = path@;
    let ghost all = digits_reversed(ds@);
    let mut i: usize = ds.len();
    while i > 0
        invariant
            i <= ds.len(),
            forall|j: int| 0 <= j < ds.len() ==> ds[j] < 10,
            all == digits_reversed(ds@),
            path@ == head + all.subrange(0, ds.len() - i),
        decreases i,
    {
        i = i - 1;
        let ghost before = path@;
        path.append(digit_str(ds[i]));
        proof {
            assert(all[ds.len() - 1 - i] == digit_char(ds[i as int] as nat));
            assert(all.subrange(0, ds.len() - i) =~= all.subrange(0, ds.len() - 1 - i).push(
                all[ds.len() - 1 - i],
            ));
            assert(path@ =~= head + all.subrange(0, ds.len() - i));
        }
    }
    proof {
        assert(all.subrange(0, ds.len() as int) =~= all);
    }
    path
}

} // verus!
