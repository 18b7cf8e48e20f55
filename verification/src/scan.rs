//! Byte-level scanning primitives shared by the report grammar: character
//! classes, maximal runs, first-occurrence search, numeric values of digit
//! runs, and whitespace trimming, each with an executable counterpart.

use vstd::prelude::*;

verus! {

/// Lowercase hexadecimal digit, as a header line's addresses use them.
pub open spec fn is_hex_digit(b: u8) -> bool {
    (48 <= b && b <= 57) || (97 <= b && b <= 102)
}

/// Numeric value of a lowercase hexadecimal digit.
pub open spec fn hex_digit_value(b: u8) -> nat
    recommends
        is_hex_digit(b),
{
    if 48 <= b && b <= 57 {
        (b - 48) as nat
    } else {
        (b - 87) as nat
    }
}

/// Decimal digit, as a statistic line's value uses them.
pub open spec fn is_dec_digit(b: u8) -> bool {
    48 <= b && b <= 57
}

/// Horizontal whitespace inside a line: space, tab, carriage return,
/// vertical tab, form feed. A line feed ends a line and is never skipped.
pub open spec fn is_space(b: u8) -> bool {
    b == 32 || b == 9 || b == 13 || b == 11 || b == 12
}

/// End of the maximal run of hexadecimal digits starting at `i`.
pub open spec fn hex_run_end(t: Seq<u8>, i: int) -> int
    recommends
        0 <= i <= t.len(),
    decreases t.len() - i,
{
    if i < t.len() && is_hex_digit(t[i]) {
        hex_run_end(t, i + 1)
    } else {
        i
    }
}

/// End of the maximal run of decimal digits starting at `i`.
pub open spec fn dec_run_end(t: Seq<u8>, i: int) -> int
    recommends
        0 <= i <= t.len(),
    decreases t.len() - i,
{
    if i < t.len() && is_dec_digit(t[i]) {
        dec_run_end(t, i + 1)
    } else {
        i
    }
}

/// End of the maximal run of horizontal whitespace starting at `i`.
pub open spec fn space_run_end(t: Seq<u8>, i: int) -> int
    recommends
        0 <= i <= t.len(),
    decreases t.len() - i,
{
    if i < t.len() && is_space(t[i]) {
        space_run_end(t, i + 1)
    } else {
        i
    }
}

/// Position of the first occurrence of `b` in `t[i..hi]`, or `hi` if absent.
pub open spec fn seek(t: Seq<u8>, i: int, hi: int, b: u8) -> int
    recommends
        0 <= i <= hi <= t.len(),
    decreases hi - i,
{
    if i < hi && t[i] != b {
        seek(t, i + 1, hi, b)
    } else {
        i
    }
}

/// Value of a sequence of hexadecimal digits, most significant first.
pub open spec fn hex_value(s: Seq<u8>) -> nat
    decreases s.len(),
{
    if s.len() == 0 {
        0
    } else {
        hex_value(s.drop_last()) * 16 + hex_digit_value(s.last())
    }
}

/// Value of a sequence of decimal digits, most significant first.
pub open spec fn dec_value(s: Seq<u8>) -> nat
    decreases s.len(),
{
    if s.len() == 0 {
        0
    } else {
        dec_value(s.drop_last()) * 10 + (if s.last() >= 48 {
            (s.last() - 48) as nat
        } else {
            0
        })
    }
}

/// The sequence with its leading whitespace removed.
pub open spec fn trim_left(s: Seq<u8>) -> Seq<u8>
    decreases s.len(),
{
    if s.len() > 0 && is_space(s[0]) {
        trim_left(s.drop_first())
    } else {
        s
    }
}

/// The sequence with its trailing whitespace removed.
pub open spec fn trim_right(s: Seq<u8>) -> Seq<u8>
    decreases s.len(),
{
    if s.len() > 0 && is_space(s.last()) {
        trim_right(s.drop_last())
    } else {
        s
    }
}

/// The sequence with whitespace removed from both ends.
pub open spec fn trimmed(s: Seq<u8>) -> Seq<u8> {
    trim_right(trim_left(s))
}

/// The run end lies between its start and the end of the text, and the run
/// consists of hexadecimal digits, stopped by a non-digit.
pub proof fn lemma_hex_run_end_props(t: Seq<u8>, i: int)
    requires
        0 <= i <= t.len(),
    ensures
        i <= hex_run_end(t, i) <= t.len(),
        forall|j: int| i <= j < hex_run_end(t, i) ==> is_hex_digit(t[j]),
        hex_run_end(t, i) < t.len() ==> !is_hex_digit(t[hex_run_end(t, i)]),
    decreases t.len() - i,
{
    if i < t.len() && is_hex_digit(t[i]) {
        lemma_hex_run_end_props(t, i + 1);
    }
}

/// The run end lies between its start and the end of the text, and the run
/// consists of decimal digits, stopped by a non-digit.
pub proof fn lemma_dec_run_end_props(t: Seq<u8>, i: int)
    requires
        0 <= i <= t.len(),
    ensures
        i <= dec_run_end(t, i) <= t.len(),
        forall|j: int| i <= j < dec_run_end(t, i) ==> is_dec_digit(t[j]),
        dec_run_end(t, i) < t.len() ==> !is_dec_digit(t[dec_run_end(t, i)]),
    decreases t.len() - i,
{
    if i < t.len() && is_dec_digit(t[i]) {
        lemma_dec_run_end_props(t, i + 1);
    }
}

/// The run end lies between its start and the end of the text, and the run
/// consists of whitespace, stopped by a non-whitespace byte.
pub proof fn lemma_space_run_end_props(t: Seq<u8>, i: int)
    requires
        0 <= i <= t.len(),
    ensures
        i <= space_run_end(t, i) <= t.len(),
        forall|j: int| i <= j < space_run_end(t, i) ==> is_space(t[j]),
        space_run_end(t, i) < t.len() ==> !is_space(t[space_run_end(t, i)]),
    decreases t.len() - i,
{
    if i < t.len() && is_space(t[i]) {
        lemma_space_run_end_props(t, i + 1);
    }
}

/// A digit run's value never shrinks as the run is extended to the right.
pub proof fn lemma_hex_value_prefix_le(t: Seq<u8>, lo: int, j: int, hi: int)
    requires
        0 <= lo <= j <= hi <= t.len(),
    ensures
        hex_value(t.subrange(lo, j)) <= hex_value(t.subrange(lo, hi)),
    decreases hi - j,
{
    if j < hi {
        assert(t.subrange(lo, j + 1).drop_last() =~= t.subrange(lo, j));
        lemma_hex_value_prefix_le(t, lo, j + 1, hi);
    }
}

/// A digit run's value never shrinks as the run is extended to the right.
pub proof fn lemma_dec_value_prefix_le(t: Seq<u8>, lo: int, j: int, hi: int)
    requires
        0 <= lo <= j <= hi <= t.len(),
    ensures
        dec_value(t.subrange(lo, j)) <= dec_value(t.subrange(lo, hi)),
    decreases hi - j,
{
    if j < hi {
        assert(t.subrange(lo, j + 1).drop_last() =~= t.subrange(lo, j));
        lemma_dec_value_prefix_le(t, lo, j + 1, hi);
    }
}

/// `seek` returns the first occurrence of the byte in the range, or the
/// range's end when the byte does not occur.
pub proof fn lemma_seek_props(t: Seq<u8>, i: int, hi: int, b: u8)
    requires
        0 <= i <= hi <= t.len(),
    ensures
        i <= seek(t, i, hi, b) <= hi,
        seek(t, i, hi, b) < hi ==> t[seek(t, i, hi, b)] == b,
        forall|j: int| i <= j < seek(t, i, hi, b) ==> t[j] != b,
    decreases hi - i,
{
    if i < hi && t[i] != b {
        lemma_seek_props(t, i + 1, hi, b);
    }
}

/// Executable counterpart of `seek`.
pub fn seek_byte(t: &[u8], i: usize, hi: usize, b: u8) -> (r: usize)
    requires
        i <= hi <= t@.len(),
    ensures
        r as int == seek(t@, i as int, hi as int, b),
{
    let mut j: usize = i;
    while j < hi && t[j] != b
        invariant
            i <= j <= hi <= t@.len(),
            seek(t@, i as int, hi as int, b) == seek(t@, j as int, hi as int, b),
        decreases hi - j,
    {
        j = j + 1;
    }
    j
}

/// Executable counterpart of `hex_run_end`.
pub fn scan_hex_run(t: &[u8], i: usize) -> (r: usize)
    requires
        i <= t@.len(),
    ensures
        r as int == hex_run_end(t@, i as int),
{
    let mut j: usize = i;
    while j < t.len() && 48 <= t[j] && t[j] <= 57 || j < t.len() && 97 <= t[j] && t[j] <= 102
        invariant
            i <= j <= t@.len(),
            hex_run_end(t@, i as int) == hex_run_end(t@, j as int),
        decreases t@.len() - j,
    {
        j = j + 1;
    }
    j
}

/// Executable counterpart of `dec_run_end`.
pub fn scan_dec_run(t: &[u8], i: usize) -> (r: usize)
    requires
        i <= t@.len(),
    ensures
        r as int == dec_run_end(t@, i as int),
{
    let mut j: usize = i;
    while j < t.len() && 48 <= t[j] && t[j] <= 57
        invariant
            i <= j <= t@.len(),
            dec_run_end(t@, i as int) == dec_run_end(t@, j as int),
        decreases t@.len() - j,
    {
        j = j + 1;
    }
    j
}

fn is_space_byte(b: u8) -> (r: bool)
    ensures
        r == is_space(b),
{
    b == 32 || b == 9 || b == 13 || b == 11 || b == 12
}

/// Executable counterpart of `space_run_end`.
pub fn scan_space_run(t: &[u8], i: usize) -> (r: usize)
    requires
        i <= t@.len(),
    ensures
        r as int == space_run_end(t@, i as int),
{
    let mut j: usize = i;
    while j < t.len() && is_space_byte(t[j])
        invariant
            i <= j <= t@.len(),
            space_run_end(t@, i as int) == space_run_end(t@, j as int),
        decreases t@.len() - j,
    {
        j = j + 1;
    }
    j
}

/// Value of the hexadecimal digit run `t[lo..hi]`, or `None` when the value
/// does not fit in a `usize`.
pub fn parse_hex_value(t: &[u8], lo: usize, hi: usize) -> (r: Option<usize>)
    requires
        lo <= hi <= t@.len(),
        forall|j: int| lo <= j < hi ==> is_hex_digit(t@[j]),
    ensures
        match r {
            Some(v) => v as nat == hex_value(t@.subrange(lo as int, hi as int)),
            None => hex_value(t@.subrange(lo as int, hi as int)) > usize::MAX,
        },
{
    let mut acc: usize = 0;
    let mut j: usize = lo;
    assert(t@.subrange(lo as int, lo as int) =~= Seq::<u8>::empty());
    while j < hi
        invariant
            lo <= j <= hi <= t@.len(),
            forall|k: int| lo <= k < hi ==> is_hex_digit(t@[k]),
            acc as nat == hex_value(t@.subrange(lo as int, j as int)),
        decreases hi - j,
    {
        let b = t[j];
        let d: usize = if b <= 57 {
            (b - 48) as usize
        } else {
            (b - 87) as usize
        };
        proof {
            assert(t@.subrange(lo as int, j + 1).drop_last() =~= t@.subrange(
                lo as int,
                j as int,
            ));
        }
        if acc > (usize::MAX - d) / 16 {
            proof {
                lemma_hex_value_prefix_le(t@, lo as int, j + 1, hi as int);
            }
            return None;
        }
        acc = acc * 16 + d;
        j = j + 1;
    }
    Some(acc)
}

/// Value of the decimal digit run `t[lo..hi]`, or `None` when the value
/// does not fit in a `usize`.
pub fn parse_dec_value(t: &[u8], lo: usize, hi: usize) -> (r: Option<usize>)
    requires
        lo <= hi <= t@.len(),
        forall|j: int| lo <= j < hi ==> is_dec_digit(t@[j]),
    ensures
        match r {
            Some(v) => v as nat == dec_value(t@.subrange(lo as int, hi as int)),
            None => dec_value(t@.subrange(lo as int, hi as int)) > usize::MAX,
        },
{
    let mut acc: usize = 0;
    let mut j: usize = lo;
    assert(t@.subrange(lo as int, lo as int) =~= Seq::<u8>::empty());
    while j < hi
        invariant
            lo <= j <= hi <= t@.len(),
            forall|k: int| lo <= k < hi ==> is_dec_digit(t@[k]),
            acc as nat == dec_value(t@.subrange(lo as int, j as int)),
        decreases hi - j,
    {
        let b = t[j];
        let d: usize = (b - 48) as usize;
        proof {
            assert(t@.subrange(lo as int, j + 1).drop_last() =~= t@.subrange(
                lo as int,
                j as int,
            ));
        }
        if acc > (usize::MAX - d) / 10 {
            proof {
                lemma_dec_value_prefix_le(t@, lo as int, j + 1, hi as int);
            }
            return None;
        }
        acc = acc * 10 + d;
        j = j + 1;
    }
    Some(acc)
}

/// Byte-for-byte equality of two slices.
pub fn bytes_eq(a: &[u8], b: &[u8]) -> (r: bool)
    ensures
        r == (a@ == b@),
{
    if a.len() != b.len() {
        proof {
            assert(a@.len() != b@.len());
        }
        return false;
    }
    let mut i: usize = 0;
    while i < a.len()
        invariant
            i <= a@.len(),
            a@.len() == b@.len(),
            forall|j: int| 0 <= j < i ==> a@[j] == b@[j],
        decreases a@.len() - i,
    {
        if a[i] != b[i] {
            return false;
        }
        i = i + 1;
    }
    proof {
        assert(a@ =~= b@);
    }
    true
}

/// The trimmed form of `t[lo..hi]`, as a fresh vector.
pub fn trimmed_copy(t: &[u8], lo: usize, hi: usize) -> (r: Vec<u8>)
    requires
        lo <= hi <= t@.len(),
    ensures
        r@ == trimmed(t@.subrange(lo as int, hi as int)),
{
    let ghost orig = t@.subrange(lo as int, hi as int);
    let mut a: usize = lo;
    while a < hi && is_space_byte(t[a])
        invariant
            lo <= a <= hi <= t@.len(),
            trim_left(orig) == trim_left(t@.subrange(a as int, hi as int)),
        decreases hi - a,
    {
        proof {
            assert(t@.subrange(a as int, hi as int).drop_first() =~= t@.subrange(
                a + 1,
                hi as int,
            ));
        }
        a = a + 1;
    }
    assert(trim_left(orig) == t@.subrange(a as int, hi as int));
    let mut b: usize = hi;
    while b > a && is_space_byte(t[b - 1])
        invariant
            lo <= a <= b <= hi <= t@.len(),
            trim_left(orig) == t@.subrange(a as int, hi as int),
            trim_right(t@.subrange(a as int, hi as int)) == trim_right(
                t@.subrange(a as int, b as int),
            ),
        decreases b - a,
    {
        proof {
            assert(t@.subrange(a as int, b as int).drop_last() =~= t@.subrange(
                a as int,
                b - 1,
            ));
        }
        b = b - 1;
    }
    assert(trimmed(orig) == t@.subrange(a as int, b as int));
    let mut r: Vec<u8> = Vec::new();
    let mut j: usize = a;
    while j < b
        invariant
            a <= j <= b <= t@.len(),
            r@ =~= t@.subrange(a as int, j as int),
        decreases b - j,
    {
        r.push(t[j]);
        proof {
            assert(t@.subrange(a as int, j + 1) =~= t@.subrange(a as int, j as int).push(
                t@[j as int],
            ));
        }
        j = j + 1;
    }
    proof {
        assert(r@ =~= trimmed(orig));
    }
    r
}

} // verus!
