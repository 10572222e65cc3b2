//! Translation of the glob dialect used in section headers into a regular
//! expression, and matching of candidate paths against it.
//!
//! The dialect supports `*` (any run of non-slash characters), `**` (any
//! run of any characters), `?` (one non-slash character), bracket classes
//! with `[!` negation, brace alternation with nesting, and numeric ranges
//! `{N..M}`.  The translation is performed step by step on character
//! vectors and each step is verified against a specification function;
//! only the final automaton run is delegated to the `regex` crate.

use vstd::prelude::*;
use crate::text::{
    contains_char, contains_char_in, match_at, contains_seq, replace_spec, is_digit,
    parse_i32_spec, vec_contains_char, vec_contains_char_in, vec_contains_seq, starts_with_at,
    push_all, push_range, replace_chars, parse_i32_chars, str_chars,
};

verus! {

// ---------------------------------------------------------------------
// index finders
// ---------------------------------------------------------------------
/// Smallest index `i` in `[lo, hi)` (clipped to `s`) with `s[i] == c`,
/// or `-1` when there is none.
pub open spec fn first_at(s: Seq<char>, lo: int, hi: int, c: char) -> int
    decreases hi - lo,
{
    if lo < 0 || lo >= hi || lo >= s.len() {
        -1
    } else if s[lo] == c {
        lo
    } else {
        first_at(s, lo + 1, hi, c)
    }
}

/// Largest index `i` in `[lo, hi)` (clipped to `s`) with `s[i] == c`,
/// or `-1` when there is none.
pub open spec fn last_at(s: Seq<char>, lo: int, hi: int, c: char) -> int
    decreases hi - lo,
{
    if hi <= lo || hi <= 0 || hi > s.len() || lo < 0 {
        -1
    } else if s[hi - 1] == c {
        hi - 1
    } else {
        last_at(s, lo, hi - 1, c)
    }
}

pub proof fn lemma_first_at(s: Seq<char>, lo: int, hi: int, c: char)
    requires
        0 <= lo <= hi <= s.len(),
    ensures
        ({
            let r = first_at(s, lo, hi, c);
            &&& (r == -1 ==> forall|j: int|
                lo <= j < hi && 0 <= j < s.len() ==> s[j] != c)
            &&& (r != -1 ==> lo <= r < hi && 0 <= r < s.len() && s[r] == c && forall|j: int|
                lo <= j < r ==> s[j] != c)
        }),
    decreases hi - lo,
{
    if !(lo < 0 || lo >= hi || lo >= s.len()) && s[lo] != c {
        lemma_first_at(s, lo + 1, hi, c);
    }
}

pub proof fn lemma_last_at(s: Seq<char>, lo: int, hi: int, c: char)
    requires
        0 <= lo <= hi <= s.len(),
    ensures
        ({
            let r = last_at(s, lo, hi, c);
            &&& (r == -1 ==> forall|j: int|
                lo <= j < hi && 0 <= j < s.len() ==> s[j] != c)
            &&& (r != -1 ==> lo <= r < hi && 0 <= r < s.len() && s[r] == c && forall|j: int|
                r < j < hi && j < s.len() ==> s[j] != c)
        }),
    decreases hi - lo,
{
    if !(hi <= lo || hi <= 0 || hi > s.len() || lo < 0) && s[hi - 1] != c {
        lemma_last_at(s, lo, hi - 1, c);
    }
}

/// Executable counterpart of `first_at`.
pub fn find_first(s: &Vec<char>, lo: usize, hi: usize, c: char) -> (r: Option<usize>)
    requires
        lo <= hi <= s.len(),
    ensures
        match r {
            Some(k) => first_at(s@, lo as int, hi as int, c) == k,
            None => first_at(s@, lo as int, hi as int, c) == -1,
        },
{
    let mut i: usize = lo;
    while i < hi
        invariant
            lo <= i <= hi <= s.len(),
            first_at(s@, lo as int, hi as int, c) == first_at(s@, i as int, hi as int, c),
        decreases hi - i,
    {
        if s[i] == c {
            return Some(i);
        }
        i += 1;
    }
    None
}

/// Executable counterpart of `last_at`.
pub fn find_last(s: &Vec<char>, lo: usize, hi: usize, c: char) -> (r: Option<usize>)
    requires
        lo <= hi <= s.len(),
    ensures
        match r {
            Some(k) => last_at(s@, lo as int, hi as int, c) == k,
            None => last_at(s@, lo as int, hi as int, c) == -1,
        },
{
    let mut i: usize = hi;
    while i > lo
        invariant
            lo <= i <= hi <= s.len(),
            last_at(s@, lo as int, hi as int, c) == last_at(s@, lo as int, i as int, c),
        decreases i,
    {
        if s[i - 1] == c {
            return Some(i - 1);
        }
        i -= 1;
    }
    None
}

// ---------------------------------------------------------------------
// metacharacter escaping: what the dialect leaves literal
// ---------------------------------------------------------------------
/// Escape the regex metacharacters (`.`, `(`, `)`, `+`, `^`, `$`) that are
/// not operators of the glob dialect, each in its own left-to-right pass.
pub open spec fn escape_metachars(s: Seq<char>) -> Seq<char> {
    let a = replace_spec(s, seq!['.'], seq!['\\', '.']);
    let b = replace_spec(a, seq!['('], seq!['\\', '(']);
    let c = replace_spec(b, seq![')'], seq!['\\', ')']);
    let d = replace_spec(c, seq!['+'], seq!['\\', '+']);
    let e = replace_spec(d, seq!['^'], seq!['\\', '^']);
    replace_spec(e, seq!['$'], seq!['\\', '$'])
}

fn lit1(c: char) -> (r: Vec<char>)
    ensures
        r@ =~= seq![c],
{
    let mut v: Vec<char> = Vec::new();
    v.push(c);
    v
}

fn lit2(a: char, b: char) -> (r: Vec<char>)
    ensures
        r@ =~= seq![a, b],
{
    let mut v: Vec<char> = Vec::new();
    v.push(a);
    v.push(b);
    v
}

fn escape_metachars_exec(s: &Vec<char>) -> (r: Vec<char>)
    ensures
        r@ == escape_metachars(s@),
{
    let a = replace_chars(s, &lit1('.'), &lit2('\\', '.'));
    let b = replace_chars(&a, &lit1('('), &lit2('\\', '('));
    let c = replace_chars(&b, &lit1(')'), &lit2('\\', ')'));
    let d = replace_chars(&c, &lit1('+'), &lit2('\\', '+'));
    let e = replace_chars(&d, &lit1('^'), &lit2('\\', '^'));
    replace_chars(&e, &lit1('$'), &lit2('\\', '$'))
}

// ---------------------------------------------------------------------
// closing an unterminated bracket expression
// ---------------------------------------------------------------------
/// Escape the first `[` that is not followed by any `]` before the end of
/// the string, so that a stray opener cannot leave the expression invalid.
pub open spec fn close_stray_spec(s: Seq<char>) -> Seq<char>
    decreases s.len(),
{
    if s.len() == 0 {
        s
    } else if s[0] == '[' && !contains_char(s.skip(1), ']') {
        seq!['\\'] + s
    } else {
        seq![s[0]] + close_stray_spec(s.skip(1))
    }
}

proof fn lemma_contains_shift(s: Seq<char>, lo: int, c: char)
    requires
        0 <= lo <= s.len(),
    ensures
        contains_char(s.skip(lo), c) == contains_char_in(s, lo, s.len() as int, c),
{
    if contains_char(s.skip(lo), c) {
        let i = choose|i: int| 0 <= i < s.skip(lo).len() && s.skip(lo)[i] == c;
        assert(s[lo + i] == c);
        assert(contains_char_in(s, lo, s.len() as int, c));
    }
    if contains_char_in(s, lo, s.len() as int, c) {
        let i = choose|i: int| lo <= i < s.len() && s[i] == c;
        assert(s.skip(lo)[i - lo] == c);
        assert(contains_char(s.skip(lo), c));
    }
}

#[verifier::loop_isolation(false)]
fn close_stray_bracket(s: &Vec<char>) -> (r: Vec<char>)
    ensures
        r@ == close_stray_spec(s@),
{
    let mut out: Vec<char> = Vec::new();
    let mut i: usize = 0;
    proof {
        assert(s@.skip(0) =~= s@);
    }
    while i < s.len()
        invariant
            i <= s.len(),
            close_stray_spec(s@) == out@ + close_stray_spec(s@.skip(i as int)),
        decreases s.len() - i,
    {
        let ghost rest = s@.skip(i as int);
        proof {
            assert(rest[0] == s@[i as int]);
            assert(rest.skip(1) =~= s@.skip(i as int + 1));
        }
        if s[i] == '[' && !vec_contains_char_in(s, i + 1, s.len(), ']') {
            proof {
                lemma_contains_shift(s@, i as int + 1, ']');
                assert(!contains_char(rest.skip(1), ']'));
                assert(close_stray_spec(rest) == seq!['\\'] + rest);
            }
            let ghost before = out@;
            out.push('\\');
            push_range(&mut out, s, i, s.len());
            proof {
                assert(rest =~= s@.subrange(i as int, s@.len() as int));
                assert(out@ =~= before + (seq!['\\'] + rest));
            }
            return out;
        }
        proof {
            if i + 1 <= s.len() && s@[i as int] == '[' {
                lemma_contains_shift(s@, i as int + 1, ']');
            }
            assert(close_stray_spec(rest) == seq![rest[0]] + close_stray_spec(rest.skip(1)));
        }
        let ghost before = out@;
        out.push(s[i]);
        proof {
            assert(before + (seq![s@[i as int]] + close_stray_spec(s@.skip(i as int + 1)))
                =~= before + seq![s@[i as int]] + close_stray_spec(s@.skip(i as int + 1)));
        }
        i += 1;
    }
    proof {
        assert(s@.skip(s@.len() as int) =~= Seq::<char>::empty());
        assert(out@ + Seq::<char>::empty() =~= out@);
    }
    out
}

// ---------------------------------------------------------------------
// shared scanning helpers
// ---------------------------------------------------------------------
/// First `'\n'` at or after `i`, or the length: the boundary that a
/// single rewrite may not cross.
pub open spec fn nl_bound(s: Seq<char>, i: int) -> int {
    let n = first_at(s, i, s.len() as int, '\n');
    if n == -1 {
        s.len() as int
    } else {
        n
    }
}

/// Copy of the range `[lo, hi)` of `s`.
fn copy_range(s: &Vec<char>, lo: usize, hi: usize) -> (r: Vec<char>)
    requires
        lo <= hi <= s.len(),
    ensures
        r@ == s@.subrange(lo as int, hi as int),
{
    let mut out: Vec<char> = Vec::new();
    push_range(&mut out, s, lo, hi);
    proof {
        assert(Seq::<char>::empty() + s@.subrange(lo as int, hi as int) =~= s@.subrange(
            lo as int,
            hi as int,
        ));
    }
    out
}

// ---------------------------------------------------------------------
// numeric ranges `{N..M}` (dots already escaped) become a
// signed-integer capture group; the bounds are kept aside
// ---------------------------------------------------------------------
/// Index of the first non-digit at or after `i`.
pub open spec fn digits_end(s: Seq<char>, i: int) -> int
    decreases s.len() - i when 0 <= i <= s.len()
{
    if i >= s.len() {
        i
    } else if is_digit(s[i]) {
        digits_end(s, i + 1)
    } else {
        i
    }
}

/// The capture group that replaces a numeric range: an optionally
/// negated decimal integer without leading zeroes.
pub open spec fn num_range_rep() -> Seq<char> {
    seq!['(', '0', '|', '-', '?', '[', '1', '-', '9', ']', '\\', 'd', '*', ')']
}

/// The numeric-range construct starting at `pos` — `{`, an optionally
/// `-`-signed numeral, `\.\.`, a second such numeral, `}` — as
/// (min numeral, max numeral, index one past the closing brace).
pub open spec fn num_range_at(s: Seq<char>, pos: int) -> Option<(Seq<char>, Seq<char>, int)> {
    if !(0 <= pos < s.len() && s[pos] == '{') {
        None
    } else {
        let a = pos + 1;
        let d1 = if a < s.len() && s[a] == '-' {
            a + 1
        } else {
            a
        };
        let e1 = digits_end(s, d1);
        let b = e1 + 4;
        let d2 = if b < s.len() && s[b] == '-' {
            b + 1
        } else {
            b
        };
        let e2 = digits_end(s, d2);
        if e1 > d1 && e1 + 3 < s.len() && s[e1] == '\\' && s[e1 + 1] == '.' && s[e1 + 2] == '\\'
            && s[e1 + 3] == '.' && e2 > d2 && e2 < s.len() && s[e2] == '}' {
            Some((s.subrange(a, e1), s.subrange(b, e2), e2 + 1))
        } else {
            None
        }
    }
}

/// Left-to-right, non-overlapping extraction of every numeric range:
/// the rewritten string paired with the bounds in pattern order.
pub open spec fn extract_ranges_from(s: Seq<char>, pos: int) -> (Seq<char>, Seq<
    (Seq<char>, Seq<char>),
>)
    decreases s.len() - pos when 0 <= pos
{
    if pos >= s.len() {
        (Seq::<char>::empty(), Seq::<(Seq<char>, Seq<char>)>::empty())
    } else {
        match num_range_at(s, pos) {
            Some((mn, mx, end)) => {
                if end > pos && end <= s.len() {
                    let r = extract_ranges_from(s, end);
                    (num_range_rep() + r.0, seq![(mn, mx)] + r.1)
                } else {
                    let r = extract_ranges_from(s, pos + 1);
                    (seq![s[pos]] + r.0, r.1)
                }
            },
            None => {
                let r = extract_ranges_from(s, pos + 1);
                (seq![s[pos]] + r.0, r.1)
            },
        }
    }
}

/// View of collected range bounds as sequences of numerals.
pub open spec fn ranges_view(v: Seq<(Vec<char>, Vec<char>)>) -> Seq<(Seq<char>, Seq<char>)> {
    Seq::new(v.len(), |i: int| (v[i].0@, v[i].1@))
}

/// Executable counterpart of `digits_end`.
fn digits_run_end(s: &Vec<char>, i: usize) -> (r: usize)
    requires
        i <= s.len(),
    ensures
        r == digits_end(s@, i as int),
        i <= r <= s.len(),
{
    let mut j: usize = i;
    while j < s.len() && s[j] >= '0' && s[j] <= '9'
        invariant
            i <= j <= s.len(),
            digits_end(s@, i as int) == digits_end(s@, j as int),
        decreases s.len() - j,
    {
        j += 1;
    }
    j
}

/// Executable counterpart of `num_range_at`: the bound numerals are
/// reported as index pairs (min `[a, e1)`, max `[b, e2)`, end).
fn num_range_parse(s: &Vec<char>, pos: usize) -> (r: Option<(usize, usize, usize, usize, usize)>)
    requires
        pos < s.len(),
    ensures
        match r {
            Some(ix) => {
                &&& pos < ix.0 <= ix.1 <= ix.2 <= ix.3 <= s@.len()
                &&& ix.4 == ix.3 + 1 <= s@.len()
                &&& num_range_at(s@, pos as int) == Some(
                    (
                        s@.subrange(ix.0 as int, ix.1 as int),
                        s@.subrange(ix.2 as int, ix.3 as int),
                        ix.4 as int,
                    ),
                )
            },
            None => num_range_at(s@, pos as int) is None,
        },
{
    if s[pos] != '{' {
        return None;
    }
    let a = pos + 1;
    let d1: usize = if a < s.len() && s[a] == '-' {
        a + 1
    } else {
        a
    };
    let e1 = digits_run_end(s, d1);
    if !(e1 > d1 && s.len() >= 4 && e1 < s.len() - 3 && s[e1] == '\\' && s[e1 + 1] == '.'
        && s[e1 + 2] == '\\' && s[e1 + 3] == '.') {
        return None;
    }
    let b = e1 + 4;
    let d2: usize = if b < s.len() && s[b] == '-' {
        b + 1
    } else {
        b
    };
    let e2 = digits_run_end(s, d2);
    if !(e2 > d2 && e2 < s.len() && s[e2] == '}') {
        return None;
    }
    Some((a, e1, b, e2, e2 + 1))
}

#[verifier::loop_isolation(false)]
fn extract_ranges(s: &Vec<char>) -> (r: (Vec<char>, Vec<(Vec<char>, Vec<char>)>))
    ensures
        r.0@ == extract_ranges_from(s@, 0).0,
        ranges_view(r.1@) == extract_ranges_from(s@, 0).1,
{
    let mut out: Vec<char> = Vec::new();
    let mut ranges: Vec<(Vec<char>, Vec<char>)> = Vec::new();
    let mut pos: usize = 0;
    proof {
        assert(ranges_view(ranges@) =~= Seq::<(Seq<char>, Seq<char>)>::empty());
    }
    while pos < s.len()
        invariant
            pos <= s.len(),
            extract_ranges_from(s@, 0).0 == out@ + extract_ranges_from(s@, pos as int).0,
            extract_ranges_from(s@, 0).1 == ranges_view(ranges@) + extract_ranges_from(
                s@,
                pos as int,
            ).1,
        decreases s.len() - pos,
    {
        match num_range_parse(s, pos) {
            Some(ix) => {
                let (a, e1, b, e2, end) = ix;
                let mn = copy_range(s, a, e1);
                let mx = copy_range(s, b, e2);
                let ghost before = out@;
                let ghost rbefore = ranges@;
                out.push('(');
                out.push('0');
                out.push('|');
                out.push('-');
                out.push('?');
                out.push('[');
                out.push('1');
                out.push('-');
                out.push('9');
                out.push(']');
                out.push('\\');
                out.push('d');
                out.push('*');
                out.push(')');
                ranges.push((mn, mx));
                proof {
                    assert(out@ =~= before + num_range_rep());
                    assert(ranges_view(ranges@) =~= ranges_view(rbefore) + seq![
                        (s@.subrange(a as int, e1 as int), s@.subrange(b as int, e2 as int)),
                    ]);
                    assert(before + num_range_rep() + extract_ranges_from(s@, end as int).0
                        =~= before + (num_range_rep() + extract_ranges_from(s@, end as int).0));
                    assert(ranges_view(rbefore) + seq![
                        (s@.subrange(a as int, e1 as int), s@.subrange(b as int, e2 as int)),
                    ] + extract_ranges_from(s@, end as int).1 =~= ranges_view(rbefore) + (seq![
                        (s@.subrange(a as int, e1 as int), s@.subrange(b as int, e2 as int)),
                    ] + extract_ranges_from(s@, end as int).1));
                }
                pos = end;
            },
            None => {
                out.push(s[pos]);
                proof {
                    assert(out@.drop_last() + (seq![s@[pos as int]] + extract_ranges_from(
                        s@,
                        pos as int + 1,
                    ).0) =~= out@ + extract_ranges_from(s@, pos as int + 1).0);
                }
                pos = pos + 1;
            },
        }
    }
    proof {
        assert(out@ + Seq::<char>::empty() =~= out@);
        assert(ranges_view(ranges@) + Seq::<(Seq<char>, Seq<char>)>::empty() =~= ranges_view(
            ranges@,
        ));
    }
    (out, ranges)
}

// ---------------------------------------------------------------------
// brace groups without a comma are literal brace pairs
// ---------------------------------------------------------------------
/// Escape, left to right, every `{` followed by a non-empty comma-free
/// run and a `}` (the widest such run): such a group offers no
/// alternative and is literal text.
pub open spec fn fake_alt_from(s: Seq<char>, pos: int) -> Seq<char>
    decreases s.len() - pos when 0 <= pos
{
    if pos >= s.len() {
        Seq::<char>::empty()
    } else if s[pos] == '{' {
        let cw = {
            let c = first_at(s, pos + 1, s.len() as int, ',');
            if c == -1 {
                s.len() as int
            } else {
                c
            }
        };
        let q = last_at(s, pos + 2, cw, '}');
        if q >= pos + 2 && q < s.len() {
            seq!['\\', '{'] + s.subrange(pos + 1, q) + seq!['\\', '}'] + fake_alt_from(s, q + 1)
        } else {
            seq![s[pos]] + fake_alt_from(s, pos + 1)
        }
    } else {
        seq![s[pos]] + fake_alt_from(s, pos + 1)
    }
}

#[verifier::loop_isolation(false)]
fn fake_alt_fix(s: &Vec<char>) -> (r: Vec<char>)
    ensures
        r@ == fake_alt_from(s@, 0),
{
    let mut out: Vec<char> = Vec::new();
    let mut pos: usize = 0;
    while pos < s.len()
        invariant
            pos <= s.len(),
            fake_alt_from(s@, 0) == out@ + fake_alt_from(s@, pos as int),
        decreases s.len() - pos,
    {
        let mut plain = true;
        if s[pos] == '{' {
            let cw: usize = match find_first(s, pos + 1, s.len(), ',') {
                Some(c) => {
                    proof {
                        lemma_first_at(s@, pos as int + 1, s@.len() as int, ',');
                    }
                    c
                },
                None => s.len(),
            };
            if cw >= 2 && pos <= cw - 2 {
                match find_last(s, pos + 2, cw, '}') {
                    Some(q) => {
                        proof {
                            lemma_last_at(s@, pos as int + 2, cw as int, '}');
                        }
                        let ghost before = out@;
                        out.push('\\');
                        out.push('{');
                        push_range(&mut out, s, pos + 1, q);
                        out.push('\\');
                        out.push('}');
                        proof {
                            assert(out@ =~= before + (seq!['\\', '{'] + s@.subrange(
                                pos as int + 1,
                                q as int,
                            ) + seq!['\\', '}']));
                        }
                        pos = q + 1;
                        plain = false;
                    },
                    None => {
                    },
                }
            } else {
                proof {
                    assert(last_at(s@, pos as int + 2, cw as int, '}') == -1);
                }
            }
        }
        if plain {
            out.push(s[pos]);
            proof {
                assert(out@.drop_last() + (seq![s@[pos as int]] + fake_alt_from(
                    s@,
                    pos as int + 1,
                )) =~= out@ + fake_alt_from(s@, pos as int + 1));
            }
            pos = pos + 1;
        }
    }
    proof {
        assert(out@ + Seq::<char>::empty() =~= out@);
    }
    out
}

// ---------------------------------------------------------------------
// brace bookkeeping used by the alternation rewrite
// ---------------------------------------------------------------------
/// `s` with every escaped brace (`\{` or `\}`) removed, left to right.
pub open spec fn strip_esc_braces(s: Seq<char>) -> Seq<char>
    decreases s.len(),
{
    if s.len() == 0 {
        s
    } else if s.len() >= 2 && s[0] == '\\' && (s[1] == '{' || s[1] == '}') {
        strip_esc_braces(s.skip(2))
    } else {
        seq![s[0]] + strip_esc_braces(s.skip(1))
    }
}

/// Depth counting from `i` with open depth `depth`: true when a `}`
/// closes more than was opened, or opens stay unclosed at the end.
pub open spec fn depth_bad(s: Seq<char>, i: int, depth: int) -> bool
    decreases s.len() - i when 0 <= i
{
    if i >= s.len() {
        depth != 0
    } else if s[i] == '{' {
        depth_bad(s, i + 1, depth + 1)
    } else if s[i] == '}' {
        if depth <= 0 {
            true
        } else {
            depth_bad(s, i + 1, depth - 1)
        }
    } else {
        depth_bad(s, i + 1, depth)
    }
}

/// Whether the unescaped braces of `s` are imbalanced.
pub open spec fn has_imbalanced_braces_spec(s: Seq<char>) -> bool {
    depth_bad(strip_esc_braces(s), 0, 0)
}

fn strip_escaped_braces(s: &Vec<char>) -> (r: Vec<char>)
    ensures
        r@ == strip_esc_braces(s@),
{
    let mut out: Vec<char> = Vec::new();
    let mut i: usize = 0;
    proof {
        assert(s@.skip(0) =~= s@);
        assert(out@ + strip_esc_braces(s@) =~= strip_esc_braces(s@));
    }
    while i < s.len()
        invariant
            i <= s.len(),
            strip_esc_braces(s@) == out@ + strip_esc_braces(s@.skip(i as int)),
        decreases s.len() - i,
    {
        let ghost rest = s@.skip(i as int);
        proof {
            assert(rest[0] == s@[i as int]);
            if rest.len() >= 2 {
                assert(rest[1] == s@[i as int + 1]);
            }
            assert(rest.skip(1) =~= s@.skip(i as int + 1));
            if i + 2 <= s.len() {
                assert(rest.skip(2) =~= s@.skip(i as int + 2));
            }
        }
        if s[i] == '\\' && i + 1 < s.len() && (s[i + 1] == '{' || s[i + 1] == '}') {
            i = i + 2;
        } else {
            let ghost before = out@;
            out.push(s[i]);
            proof {
                assert(before + (seq![s@[i as int]] + strip_esc_braces(s@.skip(i as int + 1)))
                    =~= before + seq![s@[i as int]] + strip_esc_braces(s@.skip(i as int + 1)));
            }
            i = i + 1;
        }
    }
    proof {
        assert(s@.skip(s@.len() as int) =~= Seq::<char>::empty());
        assert(out@ + Seq::<char>::empty() =~= out@);
    }
    out
}

/// Whether the braces of `text` are imbalanced once escaped braces are
/// disregarded.  A brace group whose content is imbalanced is not
/// rewritten into an alternation.
pub fn has_imbalanced_braces(text: &Vec<char>) -> (r: bool)
    ensures
        r == has_imbalanced_braces_spec(text@),
{
    let t = strip_escaped_braces(text);
    let mut depth: usize = 0;
    let mut i: usize = 0;
    while i < t.len()
        invariant
            i <= t.len(),
            depth <= i,
            has_imbalanced_braces_spec(text@) == depth_bad(t@, i as int, depth as int),
        decreases t.len() - i,
    {
        if t[i] == '{' {
            depth = depth + 1;
        } else if t[i] == '}' {
            if depth == 0 {
                return true;
            }
            depth = depth - 1;
        }
        i += 1;
    }
    depth != 0
}

// ---------------------------------------------------------------------
// rewriting one alternation group
// ---------------------------------------------------------------------
/// Restore, left to right, each `\|` that follows a non-backslash (or
/// starts the string) to a comma: it stems from a comma the pattern
/// author escaped.
pub open spec fn rc_tail(s: Seq<char>) -> Seq<char>
    decreases s.len(),
{
    if s.len() >= 3 && s[0] != '\\' && s[1] == '\\' && s[2] == '|' {
        seq![s[0], ','] + rc_tail(s.skip(3))
    } else if s.len() >= 1 {
        seq![s[0]] + rc_tail(s.skip(1))
    } else {
        s
    }
}

pub open spec fn restore_commas(s: Seq<char>) -> Seq<char> {
    if s.len() >= 2 && s[0] == '\\' && s[1] == '|' {
        seq![','] + rc_tail(s.skip(2))
    } else {
        rc_tail(s)
    }
}

#[verifier::rlimit(50)]
#[verifier::loop_isolation(false)]
fn restore_commas_exec(s: &Vec<char>) -> (r: Vec<char>)
    ensures
        r@ == restore_commas(s@),
{
    let mut out: Vec<char> = Vec::new();
    let mut i: usize = 0;
    if s.len() >= 2 && s[0] == '\\' && s[1] == '|' {
        out.push(',');
        i = 2;
        proof {
            assert(restore_commas(s@) == seq![','] + rc_tail(s@.skip(2)));
            assert(out@ =~= seq![',']);
        }
    } else {
        proof {
            assert(restore_commas(s@) == rc_tail(s@));
            assert(s@.skip(0) =~= s@);
            assert(out@ + rc_tail(s@) =~= rc_tail(s@));
        }
    }
    while i < s.len()
        invariant
            i <= s.len(),
            restore_commas(s@) == out@ + rc_tail(s@.skip(i as int)),
        decreases s.len() - i,
    {
        let ghost rest = s@.skip(i as int);
        proof {
            assert(rest[0] == s@[i as int]);
            if rest.len() >= 2 {
                assert(rest[1] == s@[i as int + 1]);
            }
            if rest.len() >= 3 {
                assert(rest[2] == s@[i as int + 2]);
            }
            assert(rest.skip(1) =~= s@.skip(i as int + 1));
            if i + 3 <= s.len() {
                assert(rest.skip(3) =~= s@.skip(i as int + 3));
            }
        }
        let ghost before = out@;
        if s.len() - i > 2 && s[i] != '\\' && s[i + 1] == '\\' && s[i + 2] == '|' {
            out.push(s[i]);
            out.push(',');
            proof {
                assert(out@ =~= before + seq![s@[i as int], ',']);
                assert(before + seq![s@[i as int], ','] + rc_tail(s@.skip(i as int + 3)) =~= before
                    + (seq![s@[i as int], ','] + rc_tail(s@.skip(i as int + 3))));
            }
            i = i + 3;
        } else {
            out.push(s[i]);
            proof {
                assert(before + seq![s@[i as int]] + rc_tail(s@.skip(i as int + 1)) =~= before + (
                seq![s@[i as int]] + rc_tail(s@.skip(i as int + 1))));
            }
            i = i + 1;
        }
    }
    proof {
        assert(s@.skip(s@.len() as int) =~= Seq::<char>::empty());
        assert(out@ + Seq::<char>::empty() =~= out@);
    }
    out
}

/// `s` with every brace escaped, the opening pass before the closing one.
pub open spec fn escape_braces(s: Seq<char>) -> Seq<char> {
    replace_spec(replace_spec(s, seq!['{'], seq!['\\', '{']), seq!['}'], seq!['\\', '}'])
}

/// The rewrite of one brace group's content.  Imbalanced content keeps
/// its braces as literal text; otherwise the comma-separated (or, after
/// an inner rewrite, pipe-separated) cases become a non-capturing
/// alternation, optional when an empty alternative was present.
pub open spec fn translate_alt_spec(c: Seq<char>) -> Seq<char> {
    if has_imbalanced_braces_spec(c) {
        seq!['{'] + escape_braces(c) + seq!['}']
    } else {
        let padded = seq![','] + c + seq![','];
        let quant: Seq<char> = if contains_seq(padded, seq![',', ',']) {
            seq!['?']
        } else {
            Seq::<char>::empty()
        };
        let cases = restore_commas(replace_spec(c, seq![','], seq!['|']));
        seq!['(', '?', ':'] + cases + seq![')'] + quant
    }
}

/// Executable counterpart of `translate_alt_spec`.
pub fn translate_alternation(content: &Vec<char>) -> (r: Vec<char>)
    ensures
        r@ == translate_alt_spec(content@),
{
    if has_imbalanced_braces(content) {
        let inner = replace_chars(
            &replace_chars(content, &lit1('{'), &lit2('\\', '{')),
            &lit1('}'),
            &lit2('\\', '}'),
        );
        let mut out: Vec<char> = Vec::new();
        out.push('{');
        push_all(&mut out, &inner);
        out.push('}');
        proof {
            assert(out@ =~= seq!['{'] + escape_braces(content@) + seq!['}']);
        }
        out
    } else {
        let mut padded: Vec<char> = Vec::new();
        padded.push(',');
        push_all(&mut padded, content);
        padded.push(',');
        proof {
            assert(padded@ =~= seq![','] + content@ + seq![',']);
        }
        let opt = vec_contains_seq(&padded, &lit2(',', ','));
        let cases = restore_commas_exec(&replace_chars(content, &lit1(','), &lit1('|')));
        let mut out: Vec<char> = Vec::new();
        out.push('(');
        out.push('?');
        out.push(':');
        push_all(&mut out, &cases);
        out.push(')');
        if opt {
            out.push('?');
            proof {
                assert(out@ =~= seq!['(', '?', ':'] + cases@ + seq![')'] + seq!['?']);
            }
        } else {
            proof {
                assert(out@ =~= seq!['(', '?', ':'] + cases@ + seq![')']
                    + Seq::<char>::empty());
            }
        }
        out
    }
}

// ---------------------------------------------------------------------
// iterated alternation rewriting
// ---------------------------------------------------------------------
/// A closing position for a group whose separator sits at `k`: a `}`
/// either immediately after the separator or preceded (on the same line)
/// by a case that does not end in a backslash.
pub open spec fn close_ok(s: Seq<char>, k: int, q: int) -> bool {
    0 <= k && k < q && q < s.len() && s[q] == '}' && (q == k + 1 || (q - 1 <= nl_bound(s, k + 1)
        && s[q - 1] != '\\'))
}

/// The widest closing position at or below `q`, or `-1`.
pub open spec fn close_search(s: Seq<char>, k: int, q: int) -> int
    decreases q - k,
{
    if q <= k {
        -1
    } else if close_ok(s, k, q) {
        q
    } else {
        close_search(s, k, q - 1)
    }
}

/// A separator position for a group opened at `i` whose first case is
/// non-empty: a `,` or `|` preceded by a case that starts with no `}`
/// and stays on one line.
pub open spec fn sep_ok(s: Seq<char>, i: int, k: int) -> bool {
    0 <= i && i + 1 < s.len() && k < s.len() && k >= i + 2 && (s[k] == ',' || s[k] == '|') && s[i
        + 1] != '}' && k <= nl_bound(s, i + 2)
}

/// The widest workable separator at or below `k` paired with its closing
/// position, or `(-1, -1)`.
pub open spec fn sep_search(s: Seq<char>, i: int, k: int) -> (int, int)
    decreases k - i,
{
    if k <= i + 1 {
        (-1, -1)
    } else if sep_ok(s, i, k) {
        let q = close_search(s, k, s.len() - 1);
        if q != -1 {
            (k, q)
        } else {
            sep_search(s, i, k - 1)
        }
    } else {
        sep_search(s, i, k - 1)
    }
}

/// The closing brace of the alternation group opened at `i`, preferring
/// a non-empty first case, or `-1` when the shape does not match.
pub open spec fn alt_match_at(s: Seq<char>, i: int) -> int {
    let kq = sep_search(s, i, s.len() - 1);
    if kq.0 != -1 {
        kq.1
    } else if i + 1 < s.len() && (s[i + 1] == ',' || s[i + 1] == '|') {
        close_search(s, i + 1, s.len() - 1)
    } else {
        -1
    }
}

fn nl_bound_exec(s: &Vec<char>, i: usize) -> (r: usize)
    requires
        i <= s.len(),
    ensures
        r == nl_bound(s@, i as int),
        i <= r <= s.len(),
{
    match find_first(s, i, s.len(), '\n') {
        Some(n) => {
            proof {
                lemma_first_at(s@, i as int, s@.len() as int, '\n');
            }
            n
        },
        None => s.len(),
    }
}

/// Executable counterpart of `close_search` started from the top.
fn alt_close_find(s: &Vec<char>, k: usize) -> (r: Option<usize>)
    requires
        k < s.len(),
    ensures
        match r {
            Some(q) => close_search(s@, k as int, s@.len() - 1) == q && k < q < s@.len(),
            None => close_search(s@, k as int, s@.len() - 1) == -1,
        },
{
    let nl = nl_bound_exec(s, k + 1);
    let mut q: usize = s.len() - 1;
    while q > k
        invariant
            k <= q <= s.len() - 1,
            nl == nl_bound(s@, k as int + 1),
            close_search(s@, k as int, s@.len() - 1) == close_search(s@, k as int, q as int),
        decreases q,
    {
        if s[q] == '}' && (q == k + 1 || (q - 1 <= nl && s[q - 1] != '\\')) {
            assert(close_ok(s@, k as int, q as int));
            return Some(q);
        }
        assert(!close_ok(s@, k as int, q as int));
        q -= 1;
    }
    None
}

/// Executable counterpart of `sep_search` started from the top.
#[verifier::loop_isolation(false)]
fn alt_sep_find(s: &Vec<char>, i: usize) -> (r: Option<(usize, usize)>)
    requires
        i < s.len(),
    ensures
        match r {
            Some(kq) => sep_search(s@, i as int, s@.len() - 1) == (kq.0 as int, kq.1 as int) && i
                < kq.0 < kq.1 < s@.len(),
            None => sep_search(s@, i as int, s@.len() - 1) == (-1int, -1int),
        },
{
    let mut k: usize = s.len() - 1;
    while k > i + 1
        invariant
            i <= k <= s.len() - 1,
            sep_search(s@, i as int, s@.len() - 1) == sep_search(s@, i as int, k as int),
        decreases k,
    {
        let nl3 = nl_bound_exec(s, i + 2);
        let sep_here = (s[k] == ',' || s[k] == '|') && s[i + 1] != '}' && k <= nl3;
        assert(sep_here == sep_ok(s@, i as int, k as int));
        if sep_here {
            match alt_close_find(s, k) {
                Some(q) => {
                    return Some((k, q));
                },
                None => {
                },
            }
        }
        k -= 1;
    }
    None
}

/// Executable counterpart of `alt_match_at` for a brace at `i`.
fn alt_match_find(s: &Vec<char>, i: usize) -> (r: Option<usize>)
    requires
        i < s.len(),
        s@[i as int] == '{',
    ensures
        match r {
            Some(q) => alt_match_at(s@, i as int) == q && i + 1 <= q < s@.len(),
            None => alt_match_at(s@, i as int) == -1,
        },
{
    match alt_sep_find(s, i) {
        Some(kq) => Some(kq.1),
        None => {
            if i + 1 < s.len() && (s[i + 1] == ',' || s[i + 1] == '|') {
                match alt_close_find(s, i + 1) {
                    Some(q) => Some(q),
                    None => None,
                }
            } else {
                None
            }
        },
    }
}

/// One `replace_all` pass of the alternation rewrite.
pub open spec fn alt_pass_from(s: Seq<char>, pos: int) -> Seq<char>
    decreases s.len() - pos when 0 <= pos
{
    if pos >= s.len() {
        Seq::<char>::empty()
    } else if s[pos] == '{' {
        let q = alt_match_at(s, pos);
        if q >= pos + 1 && q < s.len() {
            translate_alt_spec(s.subrange(pos + 1, q)) + alt_pass_from(s, q + 1)
        } else {
            seq![s[pos]] + alt_pass_from(s, pos + 1)
        }
    } else {
        seq![s[pos]] + alt_pass_from(s, pos + 1)
    }
}

/// Whether a pass would rewrite anything at or after `pos`.
pub open spec fn alt_has_match(s: Seq<char>, pos: int) -> bool
    decreases s.len() - pos when 0 <= pos
{
    if pos >= s.len() {
        false
    } else if s[pos] == '{' && {
        let q = alt_match_at(s, pos);
        q >= pos + 1 && q < s.len()
    } {
        true
    } else {
        alt_has_match(s, pos + 1)
    }
}

/// Passes are repeated until none applies, so that nested groups are
/// rewritten outside in.  `None` when `fuel` passes did not suffice:
/// such a pattern is treated as matching nothing.
pub open spec fn alt_fixpoint(s: Seq<char>, fuel: nat) -> Option<Seq<char>>
    decreases fuel,
{
    if !alt_has_match(s, 0) {
        Some(s)
    } else if fuel == 0 {
        None
    } else {
        alt_fixpoint(alt_pass_from(s, 0), (fuel - 1) as nat)
    }
}

#[verifier::loop_isolation(false)]
fn alt_pass(s: &Vec<char>) -> (r: Vec<char>)
    ensures
        r@ == alt_pass_from(s@, 0),
{
    let mut out: Vec<char> = Vec::new();
    let mut pos: usize = 0;
    while pos < s.len()
        invariant
            pos <= s.len(),
            alt_pass_from(s@, 0) == out@ + alt_pass_from(s@, pos as int),
        decreases s.len() - pos,
    {
        let mut plain = true;
        if s[pos] == '{' {
            match alt_match_find(s, pos) {
                Some(q) => {
                    let content = copy_range(s, pos + 1, q);
                    let piece = translate_alternation(&content);
                    let ghost before = out@;
                    push_all(&mut out, &piece);
                    proof {
                        assert(before + piece@ + alt_pass_from(s@, q as int + 1) =~= before + (
                        piece@ + alt_pass_from(s@, q as int + 1)));
                    }
                    pos = q + 1;
                    plain = false;
                },
                None => {
                },
            }
        }
        if plain {
            out.push(s[pos]);
            proof {
                assert(out@.drop_last() + (seq![s@[pos as int]] + alt_pass_from(
                    s@,
                    pos as int + 1,
                )) =~= out@ + alt_pass_from(s@, pos as int + 1));
            }
            pos = pos + 1;
        }
    }
    proof {
        assert(out@ + Seq::<char>::empty() =~= out@);
    }
    out
}

fn alt_any_match(s: &Vec<char>) -> (r: bool)
    ensures
        r == alt_has_match(s@, 0),
{
    let mut pos: usize = 0;
    while pos < s.len()
        invariant
            pos <= s.len(),
            alt_has_match(s@, 0) == alt_has_match(s@, pos as int),
        decreases s.len() - pos,
    {
        if s[pos] == '{' {
            match alt_match_find(s, pos) {
                Some(_q) => {
                    return true;
                },
                None => {
                },
            }
        }
        pos += 1;
    }
    false
}

/// Iterate alternation passes, giving up (`None`) after as many passes
/// as the string has characters: nesting can never need more, so only a
/// pathological pattern is refused, and it is then treated as matching
/// nothing.
#[verifier::loop_isolation(false)]
fn alt_fix(s: Vec<char>) -> (r: Option<Vec<char>>)
    ensures
        match r {
            Some(v) => alt_fixpoint(s@, s@.len() as nat) == Some(v@),
            None => alt_fixpoint(s@, s@.len() as nat) is None,
        },
{
    let mut cur = s;
    let mut fuel: usize = cur.len();
    let ghost s0 = cur@;
    loop
        invariant
            alt_fixpoint(s0, s0.len() as nat) == alt_fixpoint(cur@, fuel as nat),
        decreases fuel,
    {
        if !alt_any_match(&cur) {
            return Some(cur);
        }
        if fuel == 0 {
            return None;
        }
        cur = alt_pass(&cur);
        fuel -= 1;
    }
}

// ---------------------------------------------------------------------
// escaping every remaining unescaped brace (two passes, so that
// adjacent braces hidden by the first pass are caught by the second)
// ---------------------------------------------------------------------
pub open spec fn bp_tail(s: Seq<char>) -> Seq<char>
    decreases s.len(),
{
    if s.len() >= 2 && s[0] != '\\' && (s[1] == '{' || s[1] == '}') {
        seq![s[0], '\\', s[1]] + bp_tail(s.skip(2))
    } else if s.len() >= 1 {
        seq![s[0]] + bp_tail(s.skip(1))
    } else {
        s
    }
}

pub open spec fn escape_unescaped_braces(s: Seq<char>) -> Seq<char> {
    if s.len() >= 1 && (s[0] == '{' || s[0] == '}') {
        seq!['\\', s[0]] + bp_tail(s.skip(1))
    } else {
        bp_tail(s)
    }
}

#[verifier::rlimit(50)]
#[verifier::loop_isolation(false)]
fn escape_unescaped_braces_exec(s: &Vec<char>) -> (r: Vec<char>)
    ensures
        r@ == escape_unescaped_braces(s@),
{
    let mut out: Vec<char> = Vec::new();
    let mut i: usize = 0;
    if s.len() >= 1 && (s[0] == '{' || s[0] == '}') {
        out.push('\\');
        out.push(s[0]);
        i = 1;
        proof {
            assert(out@ =~= seq!['\\', s@[0]]);
            assert(escape_unescaped_braces(s@) == seq!['\\', s@[0]] + bp_tail(s@.skip(1)));
        }
    } else {
        proof {
            assert(escape_unescaped_braces(s@) == bp_tail(s@));
            assert(s@.skip(0) =~= s@);
            assert(out@ + bp_tail(s@) =~= bp_tail(s@));
        }
    }
    while i < s.len()
        invariant
            i <= s.len(),
            escape_unescaped_braces(s@) == out@ + bp_tail(s@.skip(i as int)),
        decreases s.len() - i,
    {
        let ghost rest = s@.skip(i as int);
        proof {
            assert(rest[0] == s@[i as int]);
            if rest.len() >= 2 {
                assert(rest[1] == s@[i as int + 1]);
            }
            assert(rest.skip(1) =~= s@.skip(i as int + 1));
            if i + 2 <= s.len() {
                assert(rest.skip(2) =~= s@.skip(i as int + 2));
            }
        }
        let ghost before = out@;
        if s.len() - i > 1 && s[i] != '\\' && (s[i + 1] == '{' || s[i + 1] == '}') {
            out.push(s[i]);
            out.push('\\');
            out.push(s[i + 1]);
            proof {
                assert(out@ =~= before + seq![s@[i as int], '\\', s@[i as int + 1]]);
                assert(before + seq![s@[i as int], '\\', s@[i as int + 1]] + bp_tail(
                    s@.skip(i as int + 2),
                ) =~= before + (seq![s@[i as int], '\\', s@[i as int + 1]] + bp_tail(
                    s@.skip(i as int + 2),
                )));
            }
            i = i + 2;
        } else {
            out.push(s[i]);
            proof {
                assert(before + seq![s@[i as int]] + bp_tail(s@.skip(i as int + 1)) =~= before + (
                seq![s@[i as int]] + bp_tail(s@.skip(i as int + 1))));
            }
            i = i + 1;
        }
    }
    proof {
        assert(s@.skip(s@.len() as int) =~= Seq::<char>::empty());
        assert(out@ + Seq::<char>::empty() =~= out@);
    }
    out
}

// ---------------------------------------------------------------------
// the whole translation
// ---------------------------------------------------------------------
/// The optional any-depth prefix placed before a pattern that names no
/// directory.
pub open spec fn depth_prefix() -> Seq<char> {
    seq!['(', '?', ':', '.', '*', '?', '/', ')', '?']
}

/// The translated expression body and range bounds, before anchoring;
/// `None` when alternation rewriting gave up on a pathological pattern.
pub open spec fn glob_regex_body(p: Seq<char>) -> Option<(Seq<char>, Seq<(Seq<char>, Seq<char>)>)> {
    let s1 = close_stray_spec(escape_metachars(p));
    let s2 = replace_spec(s1, seq!['?'], seq!['[', '^', '/', ']']);
    let s3 = replace_spec(s2, seq!['*'], seq!['[', '^', '/', ']', '*']);
    let s4 = replace_spec(
        s3,
        seq!['[', '^', '/', ']', '*', '[', '^', '/', ']', '*'],
        seq!['.', '*'],
    );
    let er = extract_ranges_from(s4, 0);
    let s5 = replace_spec(
        er.0,
        seq!['/', '.', '*', '/'],
        seq!['(', '?', ':', '/', '.', '*', ')', '?', '/'],
    );
    let s6 = replace_spec(s5, seq!['[', '!'], seq!['[', '^']);
    let s7 = fake_alt_from(s6, 0);
    match alt_fixpoint(s7, s7.len() as nat) {
        None => None,
        Some(s8) => {
            let s9 = if s8.len() > 0 && s8[0] == '/' {
                seq!['^'] + s8.skip(1)
            } else {
                s8
            };
            let s10 = escape_unescaped_braces(escape_unescaped_braces(s9));
            let s11 = replace_spec(
                replace_spec(
                    replace_spec(s10, seq!['|', '|'], seq!['|']),
                    seq!['(', '?', ':', '|'],
                    seq!['(', '?', ':'],
                ),
                seq!['|', ')'],
                seq![')'],
            );
            Some((s11, er.1))
        },
    }
}

/// The anchored expression a pattern compiles to, with its numeric-range
/// bounds: anchored at both ends, and behind an optional any-depth
/// prefix when the pattern names no directory.
pub open spec fn glob_regex_core(p: Seq<char>) -> Option<(Seq<char>, Seq<(Seq<char>, Seq<char>)>)> {
    match glob_regex_body(p) {
        None => None,
        Some(body) => {
            let prefix: Seq<char> = if contains_char(p, '/') {
                Seq::<char>::empty()
            } else {
                depth_prefix()
            };
            Some((seq!['^'] + prefix + body.0 + seq!['$'], body.1))
        },
    }
}

fn depth_prefix_exec() -> (r: Vec<char>)
    ensures
        r@ =~= depth_prefix(),
{
    let mut v: Vec<char> = Vec::new();
    v.push('(');
    v.push('?');
    v.push(':');
    v.push('.');
    v.push('*');
    v.push('?');
    v.push('/');
    v.push(')');
    v.push('?');
    v
}

fn star_rep_base() -> (r: Vec<char>)
    ensures
        r@ =~= seq!['[', '^', '/', ']'],
{
    let mut v: Vec<char> = Vec::new();
    v.push('[');
    v.push('^');
    v.push('/');
    v.push(']');
    v
}

fn star_rep() -> (r: Vec<char>)
    ensures
        r@ =~= seq!['[', '^', '/', ']', '*'],
{
    let mut v: Vec<char> = Vec::new();
    v.push('[');
    v.push('^');
    v.push('/');
    v.push(']');
    v.push('*');
    v
}

fn opt_dir_rep() -> (r: Vec<char>)
    ensures
        r@ =~= seq!['(', '?', ':', '/', '.', '*', ')', '?', '/'],
{
    let mut v: Vec<char> = Vec::new();
    v.push('(');
    v.push('?');
    v.push(':');
    v.push('/');
    v.push('.');
    v.push('*');
    v.push(')');
    v.push('?');
    v.push('/');
    v
}

/// Executable counterpart of `glob_regex_core`.
pub fn glob_translate(pattern: &Vec<char>) -> (r: Option<(Vec<char>, Vec<(Vec<char>, Vec<char>)>)>)
    ensures
        match r {
            Some(t) => glob_regex_core(pattern@) == Some((t.0@, ranges_view(t.1@))),
            None => glob_regex_core(pattern@) is None,
        },
{
    let had_slash = vec_contains_char(pattern, '/');
    let s1 = close_stray_bracket(&escape_metachars_exec(pattern));
    let qrep = star_rep_base();
    let s2 = replace_chars(&s1, &lit1('?'), &qrep);
    let star = star_rep();
    let s3 = replace_chars(&s2, &lit1('*'), &star);
    let mut star2: Vec<char> = Vec::new();
    push_all(&mut star2, &star);
    push_all(&mut star2, &star);
    proof {
        assert(star2@ =~= seq!['[', '^', '/', ']', '*', '[', '^', '/', ']', '*']);
    }
    let s4 = replace_chars(&s3, &star2, &lit2('.', '*'));
    let (s5, ranges) = extract_ranges(&s4);
    let mut slashstar: Vec<char> = Vec::new();
    slashstar.push('/');
    slashstar.push('.');
    slashstar.push('*');
    slashstar.push('/');
    proof {
        assert(slashstar@ =~= seq!['/', '.', '*', '/']);
    }
    let s6 = replace_chars(&s5, &slashstar, &opt_dir_rep());
    let s7 = replace_chars(&s6, &lit2('[', '!'), &lit2('[', '^'));
    let s8 = fake_alt_fix(&s7);
    let mut s9 = match alt_fix(s8) {
        Some(v) => v,
        None => {
            return None;
        },
    };
    let ghost s9v = s9@;
    if s9.len() > 0 && s9[0] == '/' {
        s9.set(0, '^');
        proof {
            assert(s9@ =~= seq!['^'] + s9v.skip(1));
        }
    }
    let s10 = escape_unescaped_braces_exec(&escape_unescaped_braces_exec(&s9));
    let mut pipe2: Vec<char> = Vec::new();
    pipe2.push('|');
    pipe2.push('|');
    let mut altopen: Vec<char> = Vec::new();
    altopen.push('(');
    altopen.push('?');
    altopen.push(':');
    altopen.push('|');
    let mut altopen_to: Vec<char> = Vec::new();
    altopen_to.push('(');
    altopen_to.push('?');
    altopen_to.push(':');
    proof {
        assert(pipe2@ =~= seq!['|', '|']);
        assert(altopen@ =~= seq!['(', '?', ':', '|']);
        assert(altopen_to@ =~= seq!['(', '?', ':']);
    }
    let s11 = replace_chars(
        &replace_chars(&replace_chars(&s10, &pipe2, &lit1('|')), &altopen, &altopen_to),
        &lit2('|', ')'),
        &lit1(')'),
    );
    let mut rx: Vec<char> = Vec::new();
    rx.push('^');
    if !had_slash {
        let d = depth_prefix_exec();
        push_all(&mut rx, &d);
    }
    push_all(&mut rx, &s11);
    rx.push('$');
    proof {
        if had_slash {
            assert(rx@ =~= seq!['^'] + Seq::<char>::empty() + s11@ + seq!['$']);
        } else {
            assert(rx@ =~= seq!['^'] + depth_prefix() + s11@ + seq!['$']);
        }
    }
    Some((rx, ranges))
}

// ---------------------------------------------------------------------
// the regex engine, behind named results
// ---------------------------------------------------------------------
/// Whether `pattern` is a valid regular expression: what
/// `regex::Regex::new` decides from the pattern alone.
pub uninterp spec fn regex_ok(pattern: Seq<char>) -> bool;

/// Whether the expression `pattern` matches somewhere in `text`: what
/// `regex::Regex::is_match` computes from the two strings alone.
pub uninterp spec fn regex_accepts(pattern: Seq<char>, text: Seq<char>) -> bool;

/// The capture groups (index 1 upward) of the leftmost match of
/// `pattern` in `text`; a group that took no part is `None`.
pub uninterp spec fn regex_groups(pattern: Seq<char>, text: Seq<char>) -> Seq<Option<Seq<char>>>;

/// Relies on regex::Regex::new and regex::Regex::is_match: whether the
/// pattern compiles, and whether it matches the text, depend on the two
/// strings alone.  A pattern that does not compile matches nothing.
#[verifier::external_body]
fn regex_is_match(pattern: &Vec<char>, text: &Vec<char>) -> (r: bool)
    ensures
        regex_ok(pattern@) ==> r == regex_accepts(pattern@, text@),
        !regex_ok(pattern@) ==> !r,
{
    let p: String = pattern.iter().collect();
    let t: String = text.iter().collect();
    match regex::Regex::new(&p) {
        Ok(re) => re.is_match(&t),
        Err(_) => false,
    }
}

/// Relies on regex::Regex::captures: the capture groups of the leftmost
/// match depend on the two strings alone, and exist whenever the
/// expression matches the text.
#[verifier::external_body]
fn regex_capture_groups(pattern: &Vec<char>, text: &Vec<char>) -> (r: Vec<Option<Vec<char>>>)
    ensures
        regex_ok(pattern@) && regex_accepts(pattern@, text@) ==> r.deep_view() == regex_groups(
            pattern@,
            text@,
        ),
{
    let p: String = pattern.iter().collect();
    let t: String = text.iter().collect();
    let re = match regex::Regex::new(&p) {
        Ok(re) => re,
        Err(_) => return Vec::new(),
    };
    match re.captures(&t) {
        Some(caps) => (1..caps.len()).map(
            |g| caps.get(g).map(|m| m.as_str().chars().collect()),
        ).collect(),
        None => Vec::new(),
    }
}

// ---------------------------------------------------------------------
// matching
// ---------------------------------------------------------------------
/// Whether capture `i` of `groups` lies within the `i`th recorded range:
/// it must exist, and the bounds and the capture must all denote `i32`
/// values with the capture between them inclusively.
pub open spec fn range_sat_at(
    bounds: Seq<(Seq<char>, Seq<char>)>,
    groups: Seq<Option<Seq<char>>>,
    i: int,
) -> bool {
    let g = if 0 <= i < groups.len() {
        groups[i]
    } else {
        None
    };
    match g {
        None => false,
        Some(t) => match (parse_i32_spec(bounds[i].0), parse_i32_spec(bounds[i].1), parse_i32_spec(
            t,
        )) {
            (Some(mn), Some(mx), Some(v)) => mn <= v && v <= mx,
            _ => false,
        },
    }
}

pub open spec fn ranges_sat(
    bounds: Seq<(Seq<char>, Seq<char>)>,
    groups: Seq<Option<Seq<char>>>,
) -> bool {
    forall|i: int| 0 <= i < bounds.len() ==> #[trigger] range_sat_at(bounds, groups, i)
}

/// Whether the glob `p` accepts the path `c`: its compiled expression
/// must be valid and match, and every numeric-range capture must lie
/// within its declared bounds.
pub open spec fn glob_matches(p: Seq<char>, c: Seq<char>) -> bool {
    match glob_regex_core(p) {
        None => false,
        Some(t) => regex_ok(t.0) && regex_accepts(t.0, c) && ranges_sat(t.1, regex_groups(t.0, c)),
    }
}

/// Match one glob pattern against one candidate path given as character
/// vectors.
#[verifier::loop_isolation(false)]
pub fn glob_match_chars(pattern: &Vec<char>, candidate: &Vec<char>) -> (r: bool)
    ensures
        r == glob_matches(pattern@, candidate@),
{
    let t = match glob_translate(pattern) {
        Some(t) => t,
        None => {
            return false;
        },
    };
    let (rx, ranges) = t;
    if !regex_is_match(&rx, candidate) {
        return false;
    }
    let groups = regex_capture_groups(&rx, candidate);
    let ghost bv = ranges_view(ranges@);
    let ghost gv = regex_groups(rx@, candidate@);
    let mut idx: usize = 0;
    while idx < ranges.len()
        invariant
            idx <= ranges.len(),
            bv == ranges_view(ranges@),
            gv == regex_groups(rx@, candidate@),
            groups.deep_view() == gv,
            forall|j: int| 0 <= j < idx ==> #[trigger] range_sat_at(bv, gv, j),
        decreases ranges.len() - idx,
    {
        let pair = &ranges[idx];
        let mut sat = false;
        if idx < groups.len() {
            match &groups[idx] {
                Some(g) => {
                    proof {
                        assert(groups.deep_view()[idx as int] == groups@[idx as int].deep_view());
                        assert(gv[idx as int] == Some(g@));
                        assert(g@.subrange(0, g@.len() as int) =~= g@);
                        assert(pair.0@.subrange(0, pair.0@.len() as int) =~= pair.0@);
                        assert(pair.1@.subrange(0, pair.1@.len() as int) =~= pair.1@);
                    }
                    let mn = parse_i32_chars(&pair.0, 0, pair.0.len());
                    let mx = parse_i32_chars(&pair.1, 0, pair.1.len());
                    let v = parse_i32_chars(g, 0, g.len());
                    match (mn, mx, v) {
                        (Some(mn), Some(mx), Some(v)) => {
                            sat = mn <= v && v <= mx;
                        },
                        _ => {
                            sat = false;
                        },
                    }
                },
                None => {
                    proof {
                        assert(groups.deep_view()[idx as int] == groups@[idx as int].deep_view());
                        assert(gv[idx as int] is None);
                    }
                    sat = false;
                },
            }
        }
        proof {
            assert(bv[idx as int] == (ranges@[idx as int].0@, ranges@[idx as int].1@));
        }
        if !sat {
            assert(!range_sat_at(bv, gv, idx as int));
            return false;
        }
        assert(range_sat_at(bv, gv, idx as int));
        idx += 1;
    }
    true
}

/// Match one glob pattern against one candidate path.  The candidate is
/// the target's path relative to the directory of the configuration
/// file, with forward slashes.
pub fn glob_match(pattern: &str, candidate: &str) -> (r: bool)
    ensures
        r == glob_matches(pattern@, candidate@),
{
    let p = str_chars(pattern);
    let c = str_chars(candidate);
    glob_match_chars(&p, &c)
}

// ---------------------------------------------------------------------
// anchoring laws
// ---------------------------------------------------------------------
/// A pattern that names no directory is tried at every depth: its
/// compiled expression opens with the optional any-depth prefix and is
/// anchored at both ends.
pub proof fn lemma_no_slash_any_depth(p: Seq<char>)
    requires
        !contains_char(p, '/'),
    ensures
        match glob_regex_core(p) {
            Some(t) => exists|body: Seq<char>|
                t.0 == seq!['^'] + depth_prefix() + body + seq!['$'],
            None => true,
        },
{
    match glob_regex_body(p) {
        Some(body) => {
            let witness = body.0;
            assert(glob_regex_core(p)->Some_0.0 == seq!['^'] + depth_prefix() + witness
                + seq!['$']);
        },
        None => {
        },
    }
}

/// A pattern that names a directory is anchored from the very start: no
/// any-depth prefix is inserted before its expression.
pub proof fn lemma_slash_anchored(p: Seq<char>)
    requires
        contains_char(p, '/'),
    ensures
        match glob_regex_core(p) {
            Some(t) => exists|body: Seq<char>| t.0 == seq!['^'] + body + seq!['$'],
            None => true,
        },
{
    match glob_regex_body(p) {
        Some(body) => {
            let witness = body.0;
            assert(seq!['^'] + Seq::<char>::empty() + witness =~= seq!['^'] + witness);
            assert(glob_regex_core(p)->Some_0.0 == seq!['^'] + witness + seq!['$']);
        },
        None => {
        },
    }
}

} // verus!
