//! Key normalization and the closest-wins cascade merge.

use vstd::prelude::*;
use vstd::string::StrSliceExecFns;
use vstd::string::StringExecFns;
use ordermap::OrderMap;
use crate::omap::{
    omap_entries, omap_new, omap_insert, omap_contains, omap_get, omap_pairs, entry_index,
    entries_has_key, entries_insert, value_of, pairs_view, lemma_entry_index,
    lemma_entry_index_push,
};
use crate::text::str_eq;
use crate::section::{ConfSections, resolve_layer, layer_spec};
use crate::crawl::{crawl_count, split_slash, rel_target_at, relative_targets};

verus! {

/// What `str::to_lowercase` returns: a function of the characters alone.
pub uninterp spec fn lower_of(s: Seq<char>) -> Seq<char>;

/// Relies on str::to_lowercase: the result depends on the characters of
/// the input alone.
#[verifier::external_body]
pub(crate) fn lowercase(s: &str) -> (r: String)
    ensures
        r@ == lower_of(s@),
{
    s.to_lowercase()
}

/// The option names whose values are case-normalized.
pub open spec fn is_known_key_spec(k: Seq<char>) -> bool {
    ||| k == "indent_style"@
    ||| k == "indent_size"@
    ||| k == "tab_width"@
    ||| k == "end_of_line"@
    ||| k == "charset"@
    ||| k == "trim_trailing_whitespace"@
    ||| k == "insert_final_newline"@
}

/// Whether `key` is one of the fixed set of recognized option names.
pub fn is_known_key(key: &str) -> (r: bool)
    ensures
        r == is_known_key_spec(key@),
{
    str_eq(key, "indent_style") || str_eq(key, "indent_size") || str_eq(key, "tab_width")
        || str_eq(key, "end_of_line") || str_eq(key, "charset") || str_eq(
        key,
        "trim_trailing_whitespace",
    ) || str_eq(key, "insert_final_newline")
}

/// One layer pair as the merge sees it: the key lowercased, the value
/// lowercased too when the key is recognized.
pub open spec fn normalize_pair(k: Seq<char>, v: Seq<char>) -> (Seq<char>, Seq<char>) {
    let lk = lower_of(k);
    (lk, if is_known_key_spec(lk) {
        lower_of(v)
    } else {
        v
    })
}

/// Merge one layer into already-resolved entries: each pair is
/// normalized; a pair is dropped when its key exceeds 50 characters or
/// its value 255, when its key is `root`, or when a nearer layer already
/// set the key; the remainder are appended in layer order.
pub open spec fn merge_entries(
    acc: Seq<(Seq<char>, Seq<char>)>,
    layer: Seq<(Seq<char>, Seq<char>)>,
) -> Seq<(Seq<char>, Seq<char>)>
    decreases layer.len(),
{
    if layer.len() == 0 {
        acc
    } else {
        let p = normalize_pair(layer[0].0, layer[0].1);
        let acc2 = if p.0.len() > 50 || p.1.len() > 255 || p.0 == "root"@ || entries_has_key(
            acc,
            p.0,
        ) {
            acc
        } else {
            acc.push(p)
        };
        merge_entries(acc2, layer.skip(1))
    }
}

/// Whether a layer carries the root marker: a `root` entry whose value
/// lowercases to `true`.
pub open spec fn layer_is_root(layer: Seq<(Seq<char>, Seq<char>)>) -> bool {
    match value_of(layer, "root"@) {
        Some(v) => lower_of(v) == "true"@,
        None => false,
    }
}

/// Fold one layer into the result map with closest-wins precedence and
/// report whether the cascade must stop at this layer.
#[verifier::loop_isolation(false)]
pub fn merge_layer(result: &mut OrderMap<String, String>, layer: &OrderMap<String, String>) -> (stop:
    bool)
    ensures
        omap_entries(*final(result)) == merge_entries(
            omap_entries(*old(result)),
            omap_entries(*layer),
        ),
        stop == layer_is_root(omap_entries(*layer)),
{
    let pairs = omap_pairs(layer);
    let ghost lv = omap_entries(*layer);
    let mut i: usize = 0;
    proof {
        assert(lv.skip(0) =~= lv);
    }
    while i < pairs.len()
        invariant
            i <= pairs.len(),
            pairs_view(pairs@) == lv,
            merge_entries(omap_entries(*old(result)), lv) == merge_entries(
                omap_entries(*result),
                lv.skip(i as int),
            ),
        decreases pairs.len() - i,
    {
        let ghost rest = lv.skip(i as int);
        proof {
            assert(rest[0] == lv[i as int]);
            assert(rest.skip(1) =~= lv.skip(i as int + 1));
        }
        let k = &pairs[i].0;
        let v = &pairs[i].1;
        let lk = lowercase(k.as_str());
        let lv2: String = if is_known_key(lk.as_str()) {
            lowercase(v.as_str())
        } else {
            v.clone()
        };
        proof {
            assert((lk@, lv2@) == normalize_pair(lv[i as int].0, lv[i as int].1));
        }
        let keep = lk.as_str().unicode_len() <= 50 && lv2.as_str().unicode_len() <= 255 && !str_eq(
            lk.as_str(),
            "root",
        ) && !omap_contains(result, lk.as_str());
        if keep {
            let ghost before = omap_entries(*result);
            proof {
                lemma_entry_index(before, lk@);
            }
            omap_insert(result, lk, lv2);
            proof {
                assert(omap_entries(*result) == before.push((lk@, lv2@)));
            }
        }
        i += 1;
    }
    proof {
        assert(lv.skip(lv.len() as int) =~= Seq::<(Seq<char>, Seq<char>)>::empty());
    }
    let stop = match omap_get(layer, "root") {
        Some(v) => {
            let lr = lowercase(v.as_str());
            str_eq(lr.as_str(), "true")
        },
        None => false,
    };
    stop
}

/// Views of a candidate list: `None` where no file exists.
pub open spec fn files_view(v: Seq<Option<ConfSections>>) -> Seq<
    Option<(Seq<(Seq<char>, Seq<char>)>, Seq<(Seq<char>, Seq<(Seq<char>, Seq<char>)>)>)>,
> {
    Seq::new(
        v.len(),
        |i: int|
            match v[i] {
                Some(c) => Some(c@),
                None => None,
            },
    )
}

/// The cascade from candidate `j` on: each existing file's layer is
/// merged with closest-wins precedence, and a layer that carries the
/// root marker ends the walk.
pub open spec fn resolve_fold(
    acc: Seq<(Seq<char>, Seq<char>)>,
    path: Seq<char>,
    files: Seq<Option<(Seq<(Seq<char>, Seq<char>)>, Seq<(Seq<char>, Seq<(Seq<char>, Seq<char>)>)>)>>,
    j: int,
) -> Seq<(Seq<char>, Seq<char>)>
    decreases files.len() - j,
{
    if j < 0 || j >= files.len() {
        acc
    } else {
        match files[j] {
            None => resolve_fold(acc, path, files, j + 1),
            Some(f) => {
                let layer = layer_spec(f, rel_target_at(path, j));
                let acc2 = merge_entries(acc, layer);
                if layer_is_root(layer) {
                    acc2
                } else {
                    resolve_fold(acc2, path, files, j + 1)
                }
            },
        }
    }
}

/// The resolved options for `path`, given the parsed data of each
/// candidate configuration file (nearest first, `None` for an absent
/// one): an empty candidate list resolves to an empty mapping.
pub open spec fn resolve_spec(
    path: Seq<char>,
    files: Seq<Option<(Seq<(Seq<char>, Seq<char>)>, Seq<(Seq<char>, Seq<(Seq<char>, Seq<char>)>)>)>>,
) -> Seq<(Seq<char>, Seq<char>)> {
    resolve_fold(Seq::<(Seq<char>, Seq<char>)>::empty(), path, files, 0)
}

/// Resolve the configuration for `path` from already-parsed candidate
/// files, one entry per candidate of `crawl_paths`, nearest first.
#[verifier::loop_isolation(false)]
pub fn resolve_parsed(path: &str, files: &Vec<Option<ConfSections>>) -> (r: OrderMap<
    String,
    String,
>)
    requires
        files@.len() == crawl_count(split_slash(path@)),
    ensures
        omap_entries(r) == resolve_spec(path@, files_view(files@)),
{
    let ghost fv = files_view(files@);
    let rels = relative_targets(path);
    let mut m = omap_new();
    let mut j: usize = 0;
    while j < files.len()
        invariant
            j <= files@.len(),
            resolve_spec(path@, fv) == resolve_fold(omap_entries(m), path@, fv, j as int),
        decreases files@.len() - j,
    {
        match &files[j] {
            Some(f) => {
                proof {
                    assert(fv[j as int] == Some(f@));
                    assert(rels.deep_view()[j as int] == rel_target_at(path@, j as int));
                }
                let layer = resolve_layer(f, rels[j].as_str());
                let stop = merge_layer(&mut m, &layer);
                if stop {
                    return m;
                }
            },
            None => {
                proof {
                    assert(fv[j as int] is None);
                }
            },
        }
        j += 1;
    }
    m
}

// ---------------------------------------------------------------------
// laws of the merge
// ---------------------------------------------------------------------
/// A key set by a nearer layer keeps its value through every farther
/// merge: the nearest assignment is authoritative.
pub proof fn lemma_closest_wins(
    acc: Seq<(Seq<char>, Seq<char>)>,
    layer: Seq<(Seq<char>, Seq<char>)>,
    k: Seq<char>,
)
    requires
        entries_has_key(acc, k),
    ensures
        value_of(merge_entries(acc, layer), k) == value_of(acc, k),
        entries_has_key(merge_entries(acc, layer), k),
    decreases layer.len(),
{
    if layer.len() > 0 {
        let p = normalize_pair(layer[0].0, layer[0].1);
        if !(p.0.len() > 50 || p.1.len() > 255 || p.0 == "root"@ || entries_has_key(acc, p.0)) {
            assert(p.0 != k);
            lemma_entry_index(acc, k);
            lemma_entry_index_push(acc, p, k);
            assert(value_of(acc.push(p), k) == value_of(acc, k));
            assert(entries_has_key(acc.push(p), k)) by {
                let i = choose|i: int| 0 <= i < acc.len() && acc[i].0 == k;
                assert(acc.push(p)[i].0 == k);
            }
            lemma_closest_wins(acc.push(p), layer.skip(1), k);
        } else {
            lemma_closest_wins(acc, layer.skip(1), k);
        }
    }
}

/// Where a merged entry can come from: it was already resolved by a
/// nearer layer (and keeps its place), or it is a pair of this layer
/// with its key lowercased, its value lowercased when the key is
/// recognized, the key at most 50 and the value at most 255 characters,
/// and the key not `root`.
pub open spec fn merge_entry_ok(
    acc: Seq<(Seq<char>, Seq<char>)>,
    layer: Seq<(Seq<char>, Seq<char>)>,
    n: int,
) -> bool {
    let e = merge_entries(acc, layer)[n];
    (0 <= n < acc.len() && acc[n] == e) || (exists|i: int|
        0 <= i < layer.len() && e == normalize_pair(layer[i].0, layer[i].1) && e.0.len() <= 50
            && e.1.len() <= 255 && e.0 != "root"@)
}

pub proof fn lemma_merge_provenance(
    acc: Seq<(Seq<char>, Seq<char>)>,
    layer: Seq<(Seq<char>, Seq<char>)>,
)
    ensures
        forall|n: int|
            0 <= n < merge_entries(acc, layer).len() ==> #[trigger] merge_entry_ok(acc, layer, n),
    decreases layer.len(),
{
    if layer.len() == 0 {
        assert forall|n: int|
            0 <= n < merge_entries(acc, layer).len() implies #[trigger] merge_entry_ok(
            acc,
            layer,
            n,
        ) by {
            assert(merge_entries(acc, layer) == acc);
        }
    } else {
        let p = normalize_pair(layer[0].0, layer[0].1);
        let keep = !(p.0.len() > 50 || p.1.len() > 255 || p.0 == "root"@ || entries_has_key(
            acc,
            p.0,
        ));
        let acc2 = if keep {
            acc.push(p)
        } else {
            acc
        };
        lemma_merge_provenance(acc2, layer.skip(1));
        assert forall|n: int|
            0 <= n < merge_entries(acc, layer).len() implies #[trigger] merge_entry_ok(
            acc,
            layer,
            n,
        ) by {
            assert(merge_entries(acc, layer) == merge_entries(acc2, layer.skip(1)));
            assert(merge_entry_ok(acc2, layer.skip(1), n));
            let e = merge_entries(acc2, layer.skip(1))[n];
            if 0 <= n < acc2.len() && acc2[n] == e {
                if keep && n == acc.len() {
                    assert(e == normalize_pair(layer[0].0, layer[0].1));
                    assert(e.0.len() <= 50 && e.1.len() <= 255 && e.0 != "root"@);
                } else {
                    assert(0 <= n < acc.len() && acc[n] == e);
                }
            } else {
                let i = choose|i: int|
                    0 <= i < layer.skip(1).len() && e == normalize_pair(
                        layer.skip(1)[i].0,
                        layer.skip(1)[i].1,
                    ) && e.0.len() <= 50 && e.1.len() <= 255 && e.0 != "root"@;
                assert(layer.skip(1)[i] == layer[i + 1]);
                assert(e == normalize_pair(layer[i + 1].0, layer[i + 1].1) && e.0.len() <= 50
                    && e.1.len() <= 255 && e.0 != "root"@);
            }
        }
    }
}

/// A candidate chain without a single existing file resolves to the
/// empty mapping: absence of configuration is not an error.
pub proof fn lemma_absent_chain_is_empty(
    path: Seq<char>,
    files: Seq<Option<(Seq<(Seq<char>, Seq<char>)>, Seq<(Seq<char>, Seq<(Seq<char>, Seq<char>)>)>)>>,
)
    requires
        forall|i: int| 0 <= i < files.len() ==> files[i] is None,
    ensures
        resolve_spec(path, files) == Seq::<(Seq<char>, Seq<char>)>::empty(),
{
    lemma_absent_fold(path, files, 0);
}

proof fn lemma_absent_fold(
    path: Seq<char>,
    files: Seq<Option<(Seq<(Seq<char>, Seq<char>)>, Seq<(Seq<char>, Seq<(Seq<char>, Seq<char>)>)>)>>,
    j: int,
)
    requires
        forall|i: int| 0 <= i < files.len() ==> files[i] is None,
        j >= 0,
    ensures
        resolve_fold(Seq::<(Seq<char>, Seq<char>)>::empty(), path, files, j) == Seq::<
            (Seq<char>, Seq<char>),
        >::empty(),
    decreases files.len() - j,
{
    if j < files.len() {
        lemma_absent_fold(path, files, j + 1);
    }
}

/// A key resolved from a nearer layer keeps its value through the whole
/// remaining cascade, whatever farther files contribute.
pub proof fn lemma_cascade_closest_wins(
    acc: Seq<(Seq<char>, Seq<char>)>,
    path: Seq<char>,
    files: Seq<Option<(Seq<(Seq<char>, Seq<char>)>, Seq<(Seq<char>, Seq<(Seq<char>, Seq<char>)>)>)>>,
    j: int,
    k: Seq<char>,
)
    requires
        entries_has_key(acc, k),
        j >= 0,
    ensures
        value_of(resolve_fold(acc, path, files, j), k) == value_of(acc, k),
    decreases files.len() - j,
{
    if j < files.len() {
        match files[j] {
            None => {
                lemma_cascade_closest_wins(acc, path, files, j + 1, k);
            },
            Some(f) => {
                let layer = layer_spec(f, rel_target_at(path, j));
                lemma_closest_wins(acc, layer, k);
                if !layer_is_root(layer) {
                    lemma_cascade_closest_wins(merge_entries(acc, layer), path, files, j + 1, k);
                }
            },
        }
    }
}

/// A layer that carries the root marker settles the cascade: no farther
/// candidate is consulted.
pub proof fn lemma_root_stops_cascade(
    acc: Seq<(Seq<char>, Seq<char>)>,
    path: Seq<char>,
    files: Seq<Option<(Seq<(Seq<char>, Seq<char>)>, Seq<(Seq<char>, Seq<(Seq<char>, Seq<char>)>)>)>>,
    j: int,
)
    requires
        0 <= j < files.len(),
        files[j] is Some,
        layer_is_root(layer_spec(files[j]->Some_0, rel_target_at(path, j))),
    ensures
        resolve_fold(acc, path, files, j) == merge_entries(
            acc,
            layer_spec(files[j]->Some_0, rel_target_at(path, j)),
        ),
{
}

} // verus!
