//! From one configuration file's parsed sections to the layer it
//! contributes for a target path: glob-matched sections are folded in
//! file order, the preamble's root marker is recorded, and the derived
//! indentation keys are inferred.

use vstd::prelude::*;
use vstd::string::StrSliceExecFns;
use vstd::string::StringExecFns;
use ordermap::OrderMap;
use crate::glob::{glob_matches, glob_match};
use crate::merge::{lower_of, lowercase};
use crate::omap::{
    omap_entries, omap_new, omap_insert, omap_contains, omap_get, entry_index, entries_has_key,
    entries_insert, value_of, lemma_entry_index, lemma_entry_index_push,
};
use crate::text::str_eq;

verus! {

/// One `key = value` line of a configuration file.
pub struct Pair {
    pub key: String,
    pub value: String,
}

impl View for Pair {
    type V = (Seq<char>, Seq<char>);

    open spec fn view(&self) -> Self::V {
        (self.key@, self.value@)
    }
}

pub open spec fn pairs_seq(v: Seq<Pair>) -> Seq<(Seq<char>, Seq<char>)> {
    Seq::new(v.len(), |i: int| v[i]@)
}

/// One `[pattern]` section with its lines in file order.
pub struct Section {
    pub pattern: String,
    pub pairs: Vec<Pair>,
}

impl View for Section {
    type V = (Seq<char>, Seq<(Seq<char>, Seq<char>)>);

    open spec fn view(&self) -> Self::V {
        (self.pattern@, pairs_seq(self.pairs@))
    }
}

pub open spec fn sections_seq(v: Seq<Section>) -> Seq<(Seq<char>, Seq<(Seq<char>, Seq<char>)>)> {
    Seq::new(v.len(), |i: int| v[i]@)
}

/// One parsed configuration file: the unscoped preamble and the
/// sections, both in file order.
pub struct ConfSections {
    pub preamble: Vec<Pair>,
    pub sections: Vec<Section>,
}

impl View for ConfSections {
    type V = (Seq<(Seq<char>, Seq<char>)>, Seq<(Seq<char>, Seq<(Seq<char>, Seq<char>)>)>);

    open spec fn view(&self) -> Self::V {
        (pairs_seq(self.preamble@), sections_seq(self.sections@))
    }
}

/// Whether the preamble declares `root` (first occurrence) with a value
/// that lowercases to `true`.
pub open spec fn preamble_root(pre: Seq<(Seq<char>, Seq<char>)>) -> bool {
    match value_of(pre, "root"@) {
        Some(v) => lower_of(v) == "true"@,
        None => false,
    }
}

/// The entries a root marker seeds the layer with.
pub open spec fn root_seed(pre: Seq<(Seq<char>, Seq<char>)>) -> Seq<(Seq<char>, Seq<char>)> {
    if preamble_root(pre) {
        seq![("root"@, "true"@)]
    } else {
        Seq::<(Seq<char>, Seq<char>)>::empty()
    }
}

/// Insert the pairs of one matching section, later lines overriding
/// earlier ones for the same key while keeping its place.
pub open spec fn insert_pairs(
    es: Seq<(Seq<char>, Seq<char>)>,
    ps: Seq<(Seq<char>, Seq<char>)>,
) -> Seq<(Seq<char>, Seq<char>)>
    decreases ps.len(),
{
    if ps.len() == 0 {
        es
    } else {
        insert_pairs(entries_insert(es, ps[0].0, ps[0].1), ps.skip(1))
    }
}

/// Fold the sections in file order: one whose pattern is at most 4096
/// characters and matches the target contributes all its pairs.
pub open spec fn sections_fold(
    es: Seq<(Seq<char>, Seq<char>)>,
    secs: Seq<(Seq<char>, Seq<(Seq<char>, Seq<char>)>)>,
    rel: Seq<char>,
) -> Seq<(Seq<char>, Seq<char>)>
    decreases secs.len(),
{
    if secs.len() == 0 {
        es
    } else {
        let es2 = if secs[0].0.len() <= 4096 && glob_matches(secs[0].0, rel) {
            insert_pairs(es, secs[0].1)
        } else {
            es
        };
        sections_fold(es2, secs.skip(1), rel)
    }
}

/// The three derived-key rules, in order, each over the state the
/// previous one left: a tab indent style implies a tab indent size; a
/// non-tab indent size supplies a missing tab width; a tab indent size
/// takes the declared tab width.
pub open spec fn derive_keys(es: Seq<(Seq<char>, Seq<char>)>) -> Seq<(Seq<char>, Seq<char>)> {
    let es1 = if value_of(es, "indent_style"@) == Some("tab"@) && !entries_has_key(
        es,
        "indent_size"@,
    ) {
        entries_insert(es, "indent_size"@, "tab"@)
    } else {
        es
    };
    match value_of(es1, "indent_size"@) {
        Some(sz) => {
            if sz != "tab"@ {
                if !entries_has_key(es1, "tab_width"@) {
                    entries_insert(es1, "tab_width"@, sz)
                } else {
                    es1
                }
            } else {
                match value_of(es1, "tab_width"@) {
                    Some(tw) => entries_insert(es1, "indent_size"@, tw),
                    None => es1,
                }
            }
        },
        None => es1,
    }
}

/// The layer one file contributes for one relative target path.
pub open spec fn layer_spec(
    file: (Seq<(Seq<char>, Seq<char>)>, Seq<(Seq<char>, Seq<(Seq<char>, Seq<char>)>)>),
    rel: Seq<char>,
) -> Seq<(Seq<char>, Seq<char>)> {
    derive_keys(sections_fold(root_seed(file.0), file.1, rel))
}

/// First value under `k` among parsed pairs.
fn pairs_find<'a>(ps: &'a Vec<Pair>, k: &str) -> (r: Option<&'a String>)
    ensures
        match r {
            Some(v) => value_of(pairs_seq(ps@), k@) == Some(v@),
            None => value_of(pairs_seq(ps@), k@) is None,
        },
{
    let ghost es = pairs_seq(ps@);
    let mut i: usize = 0;
    while i < ps.len()
        invariant
            i <= ps.len(),
            es == pairs_seq(ps@),
            forall|j: int| 0 <= j < i ==> es[j].0 != k@,
        decreases ps.len() - i,
    {
        if str_eq(ps[i].key.as_str(), k) {
            proof {
                lemma_entry_index(es, k@);
                assert(es[i as int].0 == k@);
                assert(entry_index(es, k@) == i);
            }
            return Some(&ps[i].value);
        }
        i += 1;
    }
    proof {
        lemma_entry_index(es, k@);
    }
    None
}

/// Resolve the layer of one parsed file against the target's path
/// relative to the file's directory.
#[verifier::loop_isolation(false)]
pub fn resolve_layer(file: &ConfSections, rel_target: &str) -> (r: OrderMap<String, String>)
    ensures
        omap_entries(r) == layer_spec(file@, rel_target@),
{
    let mut m = omap_new();
    let is_root = match pairs_find(&file.preamble, "root") {
        Some(v) => {
            let lr = lowercase(v.as_str());
            str_eq(lr.as_str(), "true")
        },
        None => false,
    };
    if is_root {
        let ghost before = omap_entries(m);
        proof {
            lemma_entry_index(before, "root"@);
        }
        omap_insert(&mut m, String::from_str("root"), String::from_str("true"));
        proof {
            assert(omap_entries(m) =~= root_seed(pairs_seq(file.preamble@)));
        }
    } else {
        proof {
            assert(omap_entries(m) =~= root_seed(pairs_seq(file.preamble@)));
        }
    }
    let ghost secs = sections_seq(file.sections@);
    let mut i: usize = 0;
    proof {
        assert(secs.skip(0) =~= secs);
    }
    while i < file.sections.len()
        invariant
            i <= file.sections.len(),
            secs == sections_seq(file.sections@),
            sections_fold(root_seed(pairs_seq(file.preamble@)), secs, rel_target@)
                == sections_fold(omap_entries(m), secs.skip(i as int), rel_target@),
        decreases file.sections.len() - i,
    {
        let ghost rest = secs.skip(i as int);
        proof {
            assert(rest[0] == secs[i as int]);
            assert(rest.skip(1) =~= secs.skip(i as int + 1));
        }
        let sec = &file.sections[i];
        if sec.pattern.as_str().unicode_len() <= 4096 && glob_match(
            sec.pattern.as_str(),
            rel_target,
        ) {
            let ghost ps = pairs_seq(sec.pairs@);
            let mut j: usize = 0;
            proof {
                assert(ps.skip(0) =~= ps);
            }
            while j < sec.pairs.len()
                invariant
                    j <= sec.pairs.len(),
                    ps == pairs_seq(sec.pairs@),
                    sections_fold(root_seed(pairs_seq(file.preamble@)), secs, rel_target@)
                        == sections_fold(
                        insert_pairs(omap_entries(m), ps.skip(j as int)),
                        secs.skip(i as int + 1),
                        rel_target@,
                    ),
                decreases sec.pairs.len() - j,
            {
                proof {
                    assert(ps.skip(j as int)[0] == ps[j as int]);
                    assert(ps.skip(j as int).skip(1) =~= ps.skip(j as int + 1));
                }
                let p = &sec.pairs[j];
                omap_insert(&mut m, p.key.clone(), p.value.clone());
                j += 1;
            }
            proof {
                assert(ps.skip(ps.len() as int) =~= Seq::<(Seq<char>, Seq<char>)>::empty());
            }
        }
        i += 1;
    }
    proof {
        assert(secs.skip(secs.len() as int) =~= Seq::<
            (Seq<char>, Seq<(Seq<char>, Seq<char>)>),
        >::empty());
    }
    // derived keys, each rule over the state the previous one left
    let style_is_tab = match omap_get(&m, "indent_style") {
        Some(v) => str_eq(v.as_str(), "tab"),
        None => false,
    };
    if style_is_tab && !omap_contains(&m, "indent_size") {
        omap_insert(&mut m, String::from_str("indent_size"), String::from_str("tab"));
    }
    let size_opt: Option<String> = match omap_get(&m, "indent_size") {
        Some(v) => Some(v.clone()),
        None => None,
    };
    match size_opt {
        Some(sz) => {
            if !str_eq(sz.as_str(), "tab") {
                if !omap_contains(&m, "tab_width") {
                    omap_insert(&mut m, String::from_str("tab_width"), sz);
                }
            } else {
                let tw: Option<String> = match omap_get(&m, "tab_width") {
                    Some(v) => Some(v.clone()),
                    None => None,
                };
                match tw {
                    Some(tw) => {
                        omap_insert(&mut m, String::from_str("indent_size"), tw);
                    },
                    None => {},
                }
            }
        },
        None => {},
    }
    m
}

/// A layer that sets `indent_style` to `tab` and neither `indent_size`
/// nor `tab_width` gains `indent_size = tab` from the derivation rules.
/// (With a `tab_width` present, the third rule would hand that width on
/// to `indent_size` instead.)
pub proof fn lemma_tab_style_derives_tab_size(es: Seq<(Seq<char>, Seq<char>)>)
    requires
        value_of(es, "indent_style"@) == Some("tab"@),
        !entries_has_key(es, "indent_size"@),
        !entries_has_key(es, "tab_width"@),
    ensures
        value_of(derive_keys(es), "indent_size"@) == Some("tab"@),
{
    reveal_strlit("indent_size");
    reveal_strlit("tab_width");
    assert(("indent_size"@).len() == 11);
    assert(("tab_width"@).len() == 9);
    let p = ("indent_size"@, "tab"@);
    lemma_entry_index(es, "indent_size"@);
    assert(entry_index(es, "indent_size"@) == -1);
    let es1 = es.push(p);
    assert(entries_insert(es, "indent_size"@, "tab"@) == es1);
    lemma_entry_index_push(es, p, "indent_size"@);
    assert(entry_index(es1, "indent_size"@) == es.len());
    assert(es1[es.len() as int] == p);
    assert(value_of(es1, "indent_size"@) == Some("tab"@));
    lemma_entry_index(es, "tab_width"@);
    assert(entry_index(es, "tab_width"@) == -1);
    lemma_entry_index_push(es, p, "tab_width"@);
    assert(entry_index(es1, "tab_width"@) == -1);
    assert(value_of(es1, "tab_width"@) is None);
    assert(derive_keys(es) == es1);
}

} // verus!
