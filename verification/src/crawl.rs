//! Candidate configuration-file locations for a target path: for the
//! target's own directory and every ancestor up to the root, the sibling
//! path with the final component replaced by the configuration file
//! name, nearest first.  Nothing here touches a filesystem: existence
//! filtering is the caller's concern.

use vstd::prelude::*;
use crate::text::{str_chars, push_all, chars_to_string};

verus! {

/// The `/`-separated components of a path.
pub open spec fn split_slash_from(s: Seq<char>, i: int, start: int) -> Seq<Seq<char>>
    decreases s.len() - i,
{
    if i < 0 || start < 0 || start > i {
        Seq::<Seq<char>>::empty()
    } else if i >= s.len() {
        seq![s.subrange(start, s.len() as int)]
    } else if s[i] == '/' {
        seq![s.subrange(start, i)] + split_slash_from(s, i + 1, i + 1)
    } else {
        split_slash_from(s, i + 1, start)
    }
}

pub open spec fn split_slash(s: Seq<char>) -> Seq<Seq<char>> {
    split_slash_from(s, 0, 0)
}

/// Components joined with `/` between them.
pub open spec fn join_slash(parts: Seq<Seq<char>>) -> Seq<char>
    decreases parts.len(),
{
    if parts.len() == 0 {
        Seq::<char>::empty()
    } else if parts.len() == 1 {
        parts[0]
    } else {
        parts[0] + seq!['/'] + join_slash(parts.skip(1))
    }
}

/// Whether a path is absolute: its first component is empty because the
/// path opens with a `/`.
pub open spec fn is_absolute(comps: Seq<Seq<char>>) -> bool {
    comps.len() > 0 && comps[0].len() == 0
}

/// The candidate whose directory keeps the first `ell` components.
pub open spec fn candidate_at(comps: Seq<Seq<char>>, conffile: Seq<char>, ell: int) -> Seq<char> {
    if ell <= 0 {
        conffile
    } else {
        join_slash(comps.take(ell)) + seq!['/'] + conffile
    }
}

/// How many candidates a path yields: one per ancestor directory, the
/// filesystem root included for an absolute path.
pub open spec fn crawl_count(comps: Seq<Seq<char>>) -> int {
    if is_absolute(comps) {
        comps.len() - 1
    } else {
        comps.len() as int
    }
}

/// The candidate locations, nearest first.
pub open spec fn crawl_spec(path: Seq<char>, conffile: Seq<char>) -> Seq<Seq<char>> {
    let comps = split_slash(path);
    Seq::new(crawl_count(comps) as nat, |j: int| candidate_at(comps, conffile, comps.len() - 1 - j))
}

/// The target path relative to the directory of candidate `j`: the last
/// `j + 1` components joined.
pub open spec fn rel_target_at(path: Seq<char>, j: int) -> Seq<char> {
    let comps = split_slash(path);
    join_slash(comps.skip(comps.len() - 1 - j))
}

pub open spec fn parts_view(v: Seq<Vec<char>>) -> Seq<Seq<char>> {
    Seq::new(v.len(), |i: int| v[i]@)
}

/// Split a character vector at every `/`.
#[verifier::loop_isolation(false)]
fn split_slash_exec(s: &Vec<char>) -> (r: Vec<Vec<char>>)
    ensures
        parts_view(r@) == split_slash(s@),
        r@.len() >= 1,
{
    let mut out: Vec<Vec<char>> = Vec::new();
    let mut cur: Vec<char> = Vec::new();
    let mut start: usize = 0;
    let mut i: usize = 0;
    while i < s.len()
        invariant
            start <= i <= s.len(),
            cur@ == s@.subrange(start as int, i as int),
            split_slash(s@) == parts_view(out@) + split_slash_from(s@, i as int, start as int),
        decreases s.len() - i,
    {
        if s[i] == '/' {
            let ghost before = out@;
            out.push(cur);
            cur = Vec::new();
            proof {
                assert(parts_view(out@) =~= parts_view(before).push(
                    s@.subrange(start as int, i as int),
                ));
                assert(parts_view(before).push(s@.subrange(start as int, i as int))
                    + split_slash_from(s@, i as int + 1, i as int + 1) =~= parts_view(before) + (
                seq![s@.subrange(start as int, i as int)] + split_slash_from(
                    s@,
                    i as int + 1,
                    i as int + 1,
                )));
                assert(cur@ =~= s@.subrange(i as int + 1, i as int + 1));
            }
            start = i + 1;
        } else {
            cur.push(s[i]);
            proof {
                assert(cur@ =~= s@.subrange(start as int, i as int + 1));
            }
        }
        i += 1;
    }
    let ghost before = out@;
    out.push(cur);
    proof {
        assert(s@.subrange(start as int, s@.len() as int) == cur@);
        assert(parts_view(out@) =~= parts_view(before).push(cur@));
        assert(parts_view(before).push(cur@) =~= parts_view(before) + seq![cur@]);
    }
    out
}

/// Appending one more component appends a slash and it.
proof fn lemma_join_push(u: Seq<Seq<char>>, x: Seq<char>)
    requires
        u.len() >= 1,
    ensures
        join_slash(u.push(x)) == join_slash(u) + seq!['/'] + x,
    decreases u.len(),
{
    if u.len() == 1 {
        assert(u.push(x).skip(1) =~= seq![x]);
        assert(join_slash(seq![x]) == x);
        assert(u.push(x)[0] == u[0]);
        assert(join_slash(u.push(x)) == u[0] + seq!['/'] + join_slash(u.push(x).skip(1)));
        assert(join_slash(u.push(x)) == u[0] + seq!['/'] + x);
    } else {
        assert(u.push(x).skip(1) =~= u.skip(1).push(x));
        lemma_join_push(u.skip(1), x);
        assert(u.push(x)[0] == u[0]);
        assert(join_slash(u.push(x)) == u[0] + seq!['/'] + (join_slash(u.skip(1)) + seq!['/']
            + x));
        assert(u[0] + seq!['/'] + (join_slash(u.skip(1)) + seq!['/'] + x) =~= (u[0] + seq!['/']
            + join_slash(u.skip(1))) + seq!['/'] + x);
    }
}

/// Join components `[0, ell)` with slashes.
#[verifier::loop_isolation(false)]
fn join_prefix(parts: &Vec<Vec<char>>, ell: usize) -> (r: Vec<char>)
    requires
        1 <= ell <= parts.len(),
    ensures
        r@ == join_slash(parts_view(parts@).take(ell as int)),
{
    let ghost whole = parts_view(parts@).take(ell as int);
    let mut out: Vec<char> = Vec::new();
    push_all(&mut out, &parts[0]);
    proof {
        assert(Seq::<char>::empty() + parts[0 as int]@ =~= whole[0]);
        assert(whole.take(1).len() == 1);
        assert(whole.take(1)[0] == whole[0]);
        assert(out@ == join_slash(whole.take(1)));
    }
    let mut k: usize = 1;
    while k < ell
        invariant
            1 <= k <= ell,
            out@ == join_slash(whole.take(k as int)),
        decreases ell - k,
    {
        out.push('/');
        push_all(&mut out, &parts[k]);
        proof {
            lemma_join_push(whole.take(k as int), whole[k as int]);
            assert(whole.take(k as int).push(whole[k as int]) =~= whole.take(k as int + 1));
            assert(out@ =~= join_slash(whole.take(k as int)) + seq!['/'] + whole[k as int]);
        }
        k += 1;
    }
    proof {
        assert(whole.take(ell as int) =~= whole);
    }
    out
}

/// All possible configuration-file locations for `path`, from the
/// target's own directory up to and including the filesystem root,
/// nearest first.  The caller decides which of them exist.
#[verifier::loop_isolation(false)]
pub fn crawl_paths(path: &str, conffile: &str) -> (r: Vec<String>)
    ensures
        r.deep_view() == crawl_spec(path@, conffile@),
{
    let pv = str_chars(path);
    let cv = str_chars(conffile);
    let parts = split_slash_exec(&pv);
    let ghost comps = split_slash(pv@);
    let n = parts.len();
    let count: usize = if parts[0].len() == 0 {
        n - 1
    } else {
        n
    };
    proof {
        assert(comps[0] == parts@[0]@);
        assert(count == crawl_count(comps));
    }
    let mut out: Vec<String> = Vec::new();
    let mut j: usize = 0;
    while j < count
        invariant
            j <= count,
            count == crawl_count(comps),
            count <= n == parts@.len(),
            comps == parts_view(parts@),
            pv@ == path@,
            cv@ == conffile@,
            out.deep_view() == crawl_spec(path@, conffile@).take(j as int),
        decreases count - j,
    {
        let ell = n - 1 - j;
        let mut cand: Vec<char> = if ell == 0 {
            Vec::new()
        } else {
            let mut c = join_prefix(&parts, ell);
            c.push('/');
            c
        };
        push_all(&mut cand, &cv);
        proof {
            if ell == 0 {
                assert(cand@ =~= candidate_at(comps, conffile@, 0));
            } else {
                assert(cand@ =~= join_slash(comps.take(ell as int)) + seq!['/'] + conffile@);
            }
        }
        let ghost before = out.deep_view();
        out.push(chars_to_string(&cand));
        proof {
            assert(out.deep_view() =~= before.push(cand@));
            assert(crawl_spec(path@, conffile@).take(j as int).push(
                crawl_spec(path@, conffile@)[j as int],
            ) =~= crawl_spec(path@, conffile@).take(j as int + 1));
        }
        j += 1;
    }
    proof {
        assert(crawl_spec(path@, conffile@).take(crawl_count(comps)) =~= crawl_spec(
            path@,
            conffile@,
        ));
    }
    out
}

/// The target path relative to each candidate's directory, nearest
/// first: entry `j` belongs with candidate `j` of `crawl_paths`.
#[verifier::loop_isolation(false)]
pub fn relative_targets(path: &str) -> (r: Vec<String>)
    ensures
        r.deep_view().len() == crawl_count(split_slash(path@)),
        forall|j: int|
            0 <= j < r.deep_view().len() ==> r.deep_view()[j] == rel_target_at(path@, j),
{
    let pv = str_chars(path);
    let parts = split_slash_exec(&pv);
    let ghost comps = split_slash(pv@);
    let n = parts.len();
    let count: usize = if parts[0].len() == 0 {
        n - 1
    } else {
        n
    };
    proof {
        assert(comps[0] == parts@[0]@);
        assert(count == crawl_count(comps));
    }
    let mut out: Vec<String> = Vec::new();
    let mut j: usize = 0;
    while j < count
        invariant
            j <= count,
            count == crawl_count(comps),
            count <= n == parts@.len(),
            comps == parts_view(parts@),
            pv@ == path@,
            out.deep_view().len() == j,
            forall|i: int| 0 <= i < j ==> out.deep_view()[i] == rel_target_at(path@, i),
        decreases count - j,
    {
        let ell = n - 1 - j;
        let mut rel: Vec<char> = Vec::new();
        push_all(&mut rel, &parts[n - 1]);
        proof {
            assert(Seq::<char>::empty() + parts@[n - 1]@ =~= comps[n - 1]);
            assert(comps.skip(n - 1).len() == 1);
            assert(comps.skip(n - 1)[0] == comps[n - 1]);
            assert(rel@ == join_slash(comps.skip(n - 1)));
        }
        let mut k: usize = n - 1;
        while k > ell
            invariant
                ell <= k <= n - 1,
                n == parts@.len(),
                comps == parts_view(parts@),
                rel@ == join_slash(comps.skip(k as int)),
            decreases k,
        {
            let mut piece: Vec<char> = Vec::new();
            push_all(&mut piece, &parts[k - 1]);
            piece.push('/');
            push_all(&mut piece, &rel);
            proof {
                let rest = comps.skip(k as int - 1);
                assert(rest[0] == comps[k as int - 1]);
                assert(rest.skip(1) =~= comps.skip(k as int));
                assert(rest.len() >= 2);
                assert(piece@ =~= comps[k as int - 1] + seq!['/'] + join_slash(
                    comps.skip(k as int),
                ));
            }
            rel = piece;
            k -= 1;
        }
        proof {
            assert(rel@ == rel_target_at(path@, j as int));
        }
        let ghost before = out.deep_view();
        out.push(chars_to_string(&rel));
        proof {
            assert(out.deep_view() =~= before.push(rel@));
        }
        j += 1;
    }
    out
}

} // verus!
