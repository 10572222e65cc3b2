//! Character-sequence utilities: substring search, literal replacement,
//! and bounded integer parsing.  The glob translator and the resolver are
//! built on these.

use vstd::prelude::*;
use vstd::string::StrSliceExecFns;

verus! {

/// Whether `c` occurs anywhere in `s`.
pub open spec fn contains_char(s: Seq<char>, c: char) -> bool {
    exists|i: int| 0 <= i < s.len() && s[i] == c
}

/// Whether `c` occurs at an index in `[lo, hi)` of `s`.
pub open spec fn contains_char_in(s: Seq<char>, lo: int, hi: int, c: char) -> bool {
    exists|i: int| lo <= i < hi && i < s.len() && s[i] == c
}

pub fn vec_contains_char(s: &Vec<char>, c: char) -> (r: bool)
    ensures
        r == contains_char(s@, c),
{
    let mut i: usize = 0;
    while i < s.len()
        invariant
            i <= s.len(),
            forall|j: int| 0 <= j < i ==> s@[j] != c,
        decreases s.len() - i,
    {
        if s[i] == c {
            return true;
        }
        i += 1;
    }
    false
}

/// Whether `c` occurs in `s` at an index in `[lo, hi)`.
pub fn vec_contains_char_in(s: &Vec<char>, lo: usize, hi: usize, c: char) -> (r: bool)
    ensures
        r == contains_char_in(s@, lo as int, hi as int, c),
{
    let mut i: usize = lo;
    let stop: usize = if hi <= s.len() {
        hi
    } else {
        s.len()
    };
    while i < stop
        invariant
            lo <= i,
            stop <= hi,
            stop <= s.len(),
            hi > s.len() ==> stop == s.len(),
            hi <= s.len() ==> stop == hi,
            forall|j: int| lo <= j < i ==> j < s@.len() ==> s@[j] != c,
        decreases stop - i,
    {
        if s[i] == c {
            return true;
        }
        i += 1;
    }
    false
}

/// Whether `pat` occurs in `s` starting exactly at index `i`.
pub open spec fn match_at(s: Seq<char>, i: int, pat: Seq<char>) -> bool {
    0 <= i && i + pat.len() <= s.len() && s.subrange(i, i + pat.len()) == pat
}

pub fn starts_with_at(s: &Vec<char>, i: usize, pat: &Vec<char>) -> (r: bool)
    requires
        i <= s.len(),
    ensures
        r == match_at(s@, i as int, pat@),
{
    if s.len() - i < pat.len() {
        return false;
    }
    let mut j: usize = 0;
    while j < pat.len()
        invariant
            j <= pat.len(),
            i + pat.len() <= s.len(),
            forall|k: int| 0 <= k < j ==> s@[i + k] == pat@[k],
        decreases pat.len() - j,
    {
        if s[i + j] != pat[j] {
            assert(s@.subrange(i as int, i + pat@.len()) != pat@) by {
                assert(s@.subrange(i as int, i + pat@.len())[j as int] != pat@[j as int]);
            }
            return false;
        }
        j += 1;
    }
    assert(s@.subrange(i as int, i + pat@.len()) =~= pat@);
    true
}

/// Whether `pat` occurs as a contiguous run anywhere in `s`.
pub open spec fn contains_seq(s: Seq<char>, pat: Seq<char>) -> bool {
    exists|i: int| 0 <= i <= s.len() - pat.len() && match_at(s, i, pat)
}

pub fn vec_contains_seq(s: &Vec<char>, pat: &Vec<char>) -> (r: bool)
    ensures
        r == contains_seq(s@, pat@),
{
    if pat.len() > s.len() {
        assert(!contains_seq(s@, pat@));
        return false;
    }
    if pat.len() == 0 {
        assert(match_at(s@, 0, pat@)) by {
            assert(s@.subrange(0, 0) =~= pat@);
        }
        return true;
    }
    let mut i: usize = 0;
    while i <= s.len() - pat.len()
        invariant
            1 <= pat.len() <= s.len(),
            i <= s.len() - pat.len() + 1,
            forall|j: int| 0 <= j < i ==> !match_at(s@, j, pat@),
        decreases s.len() - i,
    {
        if starts_with_at(s, i, pat) {
            return true;
        }
        i += 1;
    }
    false
}

/// Left-to-right, non-overlapping replacement of every occurrence of
/// `pat` in `s` by `to` (the behaviour of `str::replace`).
pub open spec fn replace_spec(s: Seq<char>, pat: Seq<char>, to: Seq<char>) -> Seq<char>
    decreases s.len(),
{
    if pat.len() == 0 || s.len() < pat.len() {
        s
    } else if s.take(pat.len() as int) == pat {
        to + replace_spec(s.skip(pat.len() as int), pat, to)
    } else {
        seq![s[0]] + replace_spec(s.skip(1), pat, to)
    }
}

/// Append every element of `suffix` to `out`.
pub fn push_all(out: &mut Vec<char>, suffix: &Vec<char>)
    ensures
        final(out)@ == old(out)@ + suffix@,
{
    let ghost base = out@;
    let mut j: usize = 0;
    while j < suffix.len()
        invariant
            j <= suffix.len(),
            out@ == base + suffix@.take(j as int),
        decreases suffix.len() - j,
    {
        out.push(suffix[j]);
        assert(base + suffix@.take(j as int) + seq![suffix@[j as int]] =~= base + suffix@.take(
            j as int + 1,
        ));
        j += 1;
    }
    assert(base + suffix@.take(suffix@.len() as int) =~= base + suffix@);
}

/// Append the range `[lo, hi)` of `src` to `out`.
pub fn push_range(out: &mut Vec<char>, src: &Vec<char>, lo: usize, hi: usize)
    requires
        lo <= hi <= src.len(),
    ensures
        final(out)@ == old(out)@ + src@.subrange(lo as int, hi as int),
{
    let ghost base = out@;
    let mut j: usize = lo;
    while j < hi
        invariant
            lo <= j <= hi <= src.len(),
            out@ == base + src@.subrange(lo as int, j as int),
        decreases hi - j,
    {
        out.push(src[j]);
        assert(base + src@.subrange(lo as int, j as int) + seq![src@[j as int]] =~= base
            + src@.subrange(lo as int, j as int + 1));
        j += 1;
    }
}

pub fn replace_chars(s: &Vec<char>, pat: &Vec<char>, to: &Vec<char>) -> (r: Vec<char>)
    requires
        pat.len() >= 1,
    ensures
        r@ == replace_spec(s@, pat@, to@),
{
    let mut out: Vec<char> = Vec::new();
    let mut i: usize = 0;
    proof {
        assert(s@.skip(0) =~= s@);
        assert(out@ + replace_spec(s@, pat@, to@) =~= replace_spec(s@, pat@, to@));
    }
    while i < s.len()
        invariant
            i <= s.len(),
            pat@.len() >= 1,
            replace_spec(s@, pat@, to@) == out@ + replace_spec(s@.skip(i as int), pat@, to@),
        decreases s.len() - i,
    {
        let ghost rest = s@.skip(i as int);
        if starts_with_at(s, i, pat) {
            proof {
                assert(rest.take(pat@.len() as int) =~= s@.subrange(
                    i as int,
                    i + pat@.len(),
                ));
                assert(rest.skip(pat@.len() as int) =~= s@.skip(i + pat@.len()));
            }
            let ghost before = out@;
            push_all(&mut out, to);
            proof {
                assert(before + to@ + replace_spec(s@.skip(i + pat@.len()), pat@, to@) =~= before
                    + (to@ + replace_spec(s@.skip(i + pat@.len()), pat@, to@)));
            }
            i += pat.len();
        } else {
            proof {
                if rest.len() >= pat@.len() {
                    assert(rest.take(pat@.len() as int) =~= s@.subrange(
                        i as int,
                        i + pat@.len(),
                    ));
                }
                assert(rest.skip(1) =~= s@.skip(i as int + 1));
                assert(rest[0] == s@[i as int]);
            }
            let ghost before = out@;
            out.push(s[i]);
            proof {
                assert(before + seq![s@[i as int]] + replace_spec(s@.skip(i as int + 1), pat@, to@)
                    =~= before + (seq![s@[i as int]] + replace_spec(
                    s@.skip(i as int + 1),
                    pat@,
                    to@,
                )));
            }
            i += 1;
        }
    }
    proof {
        assert(s@.skip(i as int) =~= Seq::<char>::empty());
        assert(out@ + Seq::<char>::empty() =~= out@);
    }
    out
}

/// Whether `c` is a decimal digit.
pub open spec fn is_digit(c: char) -> bool {
    '0' <= c && c <= '9'
}

pub open spec fn all_digits(s: Seq<char>) -> bool {
    forall|i: int| 0 <= i < s.len() ==> is_digit(s[i])
}

/// Value of a most-significant-first decimal digit string.
pub open spec fn digits_val(s: Seq<char>) -> int
    decreases s.len(),
{
    if s.len() == 0 {
        0
    } else {
        digits_val(s.drop_last()) * 10 + (s.last() as int - '0' as int)
    }
}

/// The integer denoted by `s` as an optionally `-`-signed decimal numeral,
/// or `None` when `s` is not such a numeral or its value does not fit in
/// an `i32` (the behaviour of `str::parse::<i32>` on sign-or-digit input).
pub open spec fn parse_i32_spec(s: Seq<char>) -> Option<int> {
    if s.len() > 0 && s[0] == '-' {
        let d = s.skip(1);
        if d.len() > 0 && all_digits(d) && -digits_val(d) >= i32::MIN {
            Some(-digits_val(d))
        } else {
            None
        }
    } else if s.len() > 0 && all_digits(s) && digits_val(s) <= i32::MAX {
        Some(digits_val(s))
    } else {
        None
    }
}

proof fn lemma_digits_val_nonneg(s: Seq<char>)
    requires
        all_digits(s),
    ensures
        digits_val(s) >= 0,
    decreases s.len(),
{
    if s.len() > 0 {
        assert(all_digits(s.drop_last()));
        lemma_digits_val_nonneg(s.drop_last());
    }
}

#[verifier::loop_isolation(false)]
pub fn parse_i32_chars(s: &Vec<char>, lo: usize, hi: usize) -> (r: Option<i32>)
    requires
        lo <= hi <= s.len(),
    ensures
        match r {
            Some(v) => parse_i32_spec(s@.subrange(lo as int, hi as int)) == Some(v as int),
            None => parse_i32_spec(s@.subrange(lo as int, hi as int)) is None,
        },
{
    let ghost whole = s@.subrange(lo as int, hi as int);
    if lo == hi {
        return None;
    }
    let neg = s[lo] == '-';
    let start: usize = if neg {
        lo + 1
    } else {
        lo
    };
    let ghost digits = s@.subrange(start as int, hi as int);
    proof {
        if neg {
            assert(whole[0] == '-');
            assert(digits =~= whole.skip(1));
        } else {
            assert(whole[0] != '-');
            assert(digits =~= whole);
        }
    }
    if start == hi {
        proof {
            lemma_digits_val_nonneg(digits);
        }
        return None;
    }
    let mut acc: i64 = 0;
    let mut j: usize = start;
    while j < hi
        invariant
            start <= j <= hi <= s.len(),
            digits == s@.subrange(start as int, hi as int),
            all_digits(s@.subrange(start as int, j as int)),
            acc == digits_val(s@.subrange(start as int, j as int)),
            0 <= acc <= 0x8000_0000,
        decreases hi - j,
    {
        let ghost sofar = s@.subrange(start as int, j as int);
        let c = s[j];
        if c < '0' || c > '9' {
            proof {
                assert(digits[j - start] == c);
                assert(!all_digits(digits));
            }
            return None;
        }
        let d: i64 = (c as u32 as i64) - ('0' as u32 as i64);
        proof {
            assert(sofar.push(c) =~= s@.subrange(start as int, j as int + 1));
            assert(sofar.push(c).drop_last() =~= sofar);
        }
        if acc * 10 + d > 0x8000_0000 {
            // the numeral exceeds every i32: longer digit strings only grow
            proof {
                let k = j + 1 - start;
                assert(digits.take(k) =~= s@.subrange(start as int, j as int + 1));
                assert(digits.take(k) =~= sofar.push(c));
                assert(digits_val(sofar.push(c)) == digits_val(sofar) * 10 + (c as int
                    - '0' as int));
                assert(digits_val(digits.take(k)) == acc * 10 + d);
                lemma_digits_exceed(digits, k);
                if all_digits(digits) {
                    assert(digits_val(digits) > 0x8000_0000);
                    if neg {
                        assert(-digits_val(digits) < i32::MIN);
                        assert(parse_i32_spec(whole) is None);
                    } else {
                        assert(digits_val(digits) > i32::MAX);
                        assert(parse_i32_spec(whole) is None);
                    }
                } else {
                    assert(parse_i32_spec(whole) is None);
                }
            }
            return None;
        }
        acc = acc * 10 + d;
        j += 1;
    }
    proof {
        assert(s@.subrange(start as int, j as int) =~= digits);
    }
    if neg {
        if acc <= 0x8000_0000 {
            proof {
                assert(-digits_val(digits) >= i32::MIN);
            }
            return Some((-acc) as i32);
        }
        return None;
    }
    if acc <= 0x7FFF_FFFF {
        return Some(acc as i32);
    }
    proof {
        assert(digits_val(digits) > i32::MAX);
    }
    None
}

/// A digit string whose prefix of length `k` already exceeds `0x8000_0000`
/// denotes a value out of `i32` range, whatever follows.
proof fn lemma_digits_exceed(s: Seq<char>, k: int)
    requires
        0 < k <= s.len(),
        all_digits(s.take(k)),
        digits_val(s.take(k)) > 0x8000_0000,
    ensures
        !all_digits(s) || digits_val(s) > 0x8000_0000,
    decreases s.len() - k,
{
    if k == s.len() {
        assert(s.take(k) =~= s);
    } else {
        if all_digits(s) {
            assert(is_digit(s[k]));
            assert(s.take(k + 1).drop_last() =~= s.take(k));
            assert(s.take(k + 1).last() == s[k]);
            assert(digits_val(s.take(k + 1)) == digits_val(s.take(k)) * 10 + (s[k] as int
                - '0' as int));
            assert(forall|i: int| 0 <= i < k + 1 ==> is_digit(#[trigger] s.take(k + 1)[i]));
            lemma_digits_exceed(s, k + 1);
        }
    }
}

/// The characters of `s` as a vector.
pub fn str_chars(s: &str) -> (r: Vec<char>)
    ensures
        r@ == s@,
{
    let n = s.unicode_len();
    let mut out: Vec<char> = Vec::new();
    let mut i: usize = 0;
    while i < n
        invariant
            i <= n,
            n == s@.len(),
            out@ == s@.take(i as int),
        decreases n - i,
    {
        out.push(s.get_char(i));
        proof {
            assert(s@.take(i as int).push(s@[i as int]) =~= s@.take(i as int + 1));
        }
        i += 1;
    }
    proof {
        assert(s@.take(n as int) =~= s@);
    }
    out
}

/// Whether two strings hold the same characters.
pub fn str_eq(a: &str, b: &str) -> (r: bool)
    ensures
        r == (a@ == b@),
{
    let av = str_chars(a);
    let bv = str_chars(b);
    if av.len() != bv.len() {
        return false;
    }
    let mut i: usize = 0;
    while i < av.len()
        invariant
            i <= av.len(),
            av@ == a@,
            bv@ == b@,
            av@.len() == bv@.len(),
            forall|j: int| 0 <= j < i ==> av@[j] == bv@[j],
        decreases av.len() - i,
    {
        if av[i] != bv[i] {
            return false;
        }
        i += 1;
    }
    proof {
        assert(a@ =~= b@);
    }
    true
}

/// Relies on String::from_iter: collecting characters yields a string
/// of exactly those characters.
#[verifier::external_body]
pub(crate) fn chars_to_string(v: &Vec<char>) -> (s: String)
    ensures
        s@ == v@,
{
    v.iter().collect()
}

} // verus!
