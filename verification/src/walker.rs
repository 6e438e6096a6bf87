//! Diagnostic tree walker: flattens one probe's recursive diagnostic tree
//! into per-diagnostic records, classifying every span on the way, and
//! feeds the run's implicated-file set and file back-reference index.

use vstd::prelude::*;

use crate::classify::classify;
use crate::classify::Classification;
use crate::classify::Environment;
use crate::classify::EnvironmentModel;
use crate::diag::code_view;
use crate::diag::dedup_pairs;
use crate::diag::dedup_pairs_rec;
use crate::diag::emits_record;
use crate::diag::explanation_view;
use crate::diag::implicated_of;
use crate::diag::opt_view;
use crate::diag::pair_views;
use crate::diag::primary_loc;
use crate::diag::primary_loc_of;
use crate::diag::code_text;
use crate::diag::explanation_text;
use crate::diag::node_model;
use crate::diag::node_models;
use crate::diag::record_views;
use crate::diag::NodeModel;
use crate::diag::span_pair;
use crate::diag::span_pair_of;
use crate::diag::span_views;
use crate::diag::tp_pairs;
use crate::diag::tp_paths;
use crate::diag::DisplayableDiagnostic;
use crate::diag::RecordModel;
use crate::diag::RustcDiagnosticData;
use crate::diag::SpanModel;
use crate::text::contains_string;
use crate::text::is_blank;
use crate::text::str_eq;
use crate::text::string_views;
use crate::text::trim_end;

verus! {

/// One back-reference: the diagnostic occurrence, with its configuration,
/// that implicated a third-party file.
pub struct DiagnosticOriginInfo {
    pub level: String,
    pub code: Option<String>,
    pub originating_diagnostic_span_location: String,
    pub feature_set_desc: String,
}

pub struct OriginModel {
    pub level: Seq<char>,
    pub code: Option<Seq<char>>,
    pub location: Seq<char>,
    pub feature_set_desc: Seq<char>,
}

impl View for DiagnosticOriginInfo {
    type V = OriginModel;

    open spec fn view(&self) -> OriginModel {
        OriginModel {
            level: self.level@,
            code: opt_view(self.code),
            location: self.originating_diagnostic_span_location@,
            feature_set_desc: self.feature_set_desc@,
        }
    }
}

/// The origin views of an origin vector.
pub open spec fn origin_views(v: Seq<DiagnosticOriginInfo>) -> Seq<OriginModel> {
    v.map_values(|o: DiagnosticOriginInfo| o@)
}

/// The elements of a sequence, as a set: concatenation unions them.
pub proof fn lemma_concat_to_set<A>(a: Seq<A>, b: Seq<A>)
    ensures
        (a + b).to_set() == a.to_set().union(b.to_set()),
{
    assert forall|x: A| (a + b).to_set().contains(x) <==> a.to_set().union(b.to_set()).contains(
        x,
    ) by {
        if (a + b).contains(x) {
            let w = choose|w: int| 0 <= w < (a + b).len() && (a + b)[w] == x;
            if w < a.len() {
                assert(a[w] == x);
            } else {
                assert(b[w - a.len()] == x);
            }
        }
        if a.contains(x) {
            let w = choose|w: int| 0 <= w < a.len() && a[w] == x;
            assert((a + b)[w] == x);
        }
        if b.contains(x) {
            let w = choose|w: int| 0 <= w < b.len() && b[w] == x;
            assert((a + b)[a.len() + w] == x);
        }
    }
    assert((a + b).to_set() =~= a.to_set().union(b.to_set()));
}

/// A sequence is its first element plus the rest.
pub proof fn lemma_cons_to_set<A>(s: Seq<A>)
    requires
        s.len() > 0,
    ensures
        s.to_set() == s.drop_first().to_set().insert(s[0]),
{
    assert(s =~= seq![s[0]] + s.drop_first());
    lemma_concat_to_set(seq![s[0]], s.drop_first());
    assert forall|x: A| seq![s[0]].to_set().contains(x) <==> x == s[0] by {
        if seq![s[0]].contains(x) {
            let w = choose|w: int| 0 <= w < 1 && seq![s[0]][w] == x;
            assert(x == s[0]);
        }
        if x == s[0] {
            assert(seq![s[0]][0] == x);
        }
    }
    assert(s.to_set() =~= s.drop_first().to_set().insert(s[0]));
}

/// Deduplication keeps exactly the elements not already seen.
pub proof fn lemma_dedup_pairs_set(
    ps: Seq<(Seq<char>, Seq<char>)>,
    seen: Set<(Seq<char>, Seq<char>)>,
)
    ensures
        dedup_pairs_rec(ps, seen).to_set() == ps.to_set().difference(seen),
    decreases ps.len(),
{
    if ps.len() == 0 {
        assert(dedup_pairs_rec(ps, seen).to_set() =~= ps.to_set().difference(seen));
    } else {
        lemma_cons_to_set(ps);
        if seen.contains(ps[0]) {
            lemma_dedup_pairs_set(ps.drop_first(), seen);
            assert(dedup_pairs_rec(ps, seen).to_set() =~= ps.to_set().difference(seen));
        } else {
            lemma_dedup_pairs_set(ps.drop_first(), seen.insert(ps[0]));
            lemma_concat_to_set(seq![ps[0]], dedup_pairs_rec(ps.drop_first(), seen.insert(ps[0])));
            assert forall|x: (Seq<char>, Seq<char>)| seq![ps[0]].to_set().contains(x) <==> x
                == ps[0] by {
                if seq![ps[0]].contains(x) {
                    let w = choose|w: int| 0 <= w < 1 && seq![ps[0]][w] == x;
                    assert(x == ps[0]);
                }
                if x == ps[0] {
                    assert(seq![ps[0]][0] == x);
                }
            }
            assert(dedup_pairs_rec(ps, seen).to_set() =~= ps.to_set().difference(seen));
        }
    }
}

/// Deduplication leaves no pair twice, and none that was already seen.
pub proof fn lemma_dedup_pairs_distinct(
    ps: Seq<(Seq<char>, Seq<char>)>,
    seen: Set<(Seq<char>, Seq<char>)>,
)
    ensures
        dedup_pairs_rec(ps, seen).no_duplicates(),
        forall|i: int|
            0 <= i < dedup_pairs_rec(ps, seen).len() ==> !seen.contains(
                #[trigger] dedup_pairs_rec(ps, seen)[i],
            ),
    decreases ps.len(),
{
    if ps.len() == 0 {
    } else if seen.contains(ps[0]) {
        lemma_dedup_pairs_distinct(ps.drop_first(), seen);
        assert(dedup_pairs_rec(ps, seen) == dedup_pairs_rec(ps.drop_first(), seen));
        let d = dedup_pairs_rec(ps, seen);
        let rest = dedup_pairs_rec(ps.drop_first(), seen);
        assert forall|i: int| 0 <= i < d.len() implies !seen.contains(#[trigger] d[i]) by {
            assert(d[i] == rest[i]);
        }
    } else {
        let seen2 = seen.insert(ps[0]);
        lemma_dedup_pairs_distinct(ps.drop_first(), seen2);
        let d = dedup_pairs_rec(ps, seen);
        let rest = dedup_pairs_rec(ps.drop_first(), seen2);
        assert forall|i: int| 0 <= i < d.len() implies !seen.contains(#[trigger] d[i]) by {
            if i > 0 {
                assert(d[i] == rest[i - 1]);
                assert(!seen2.contains(rest[i - 1]));
            }
        }
        assert forall|i: int, j: int| 0 <= i < j < d.len() implies #[trigger] d[i] != #[trigger] d[j] by {
            if i == 0 {
                assert(d[j] == rest[j - 1]);
                assert(!seen2.contains(rest[j - 1]));
            } else {
                assert(d[i] == rest[i - 1]);
                assert(d[j] == rest[j - 1]);
            }
        }
    }
}

/// The implicated list of a span list is sorted and free of duplicates.
pub proof fn lemma_implicated_of_wf(spans: Seq<SpanModel>, env: EnvironmentModel)
    ensures
        vstd::relations::sorted_by(implicated_of(spans, env), crate::diag::pair_leq()),
        implicated_of(spans, env).no_duplicates(),
{
    let d = dedup_pairs(tp_pairs(spans, env));
    let sorted = d.sort_by(crate::diag::pair_leq());
    lemma_dedup_pairs_distinct(tp_pairs(spans, env), Set::empty());
    crate::diag::lemma_pair_total_ordering();
    d.lemma_sort_by_ensures(crate::diag::pair_leq());
    d.lemma_multiset_has_no_duplicates();
    assert forall|x: (Seq<char>, Seq<char>)| sorted.to_multiset().contains(x) implies
        sorted.to_multiset().count(x) == 1 by {
        assert(sorted.to_multiset() == d.to_multiset());
    }
    sorted.lemma_multiset_has_no_duplicates_conv();
}

/// One pair per fact: a pair stands in the implicated list exactly when
/// some third-party span of the node produced it.
pub proof fn lemma_implicated_membership(
    spans: Seq<SpanModel>,
    env: EnvironmentModel,
    q: (Seq<char>, Seq<char>),
)
    ensures
        implicated_of(spans, env).contains(q) <==> tp_pairs(spans, env).contains(q),
{
    let ps = tp_pairs(spans, env);
    let d = dedup_pairs(ps);
    let sorted = d.sort_by(crate::diag::pair_leq());
    lemma_dedup_pairs_set(ps, Set::empty());
    assert(d.to_set().contains(q) <==> ps.contains(q));
    crate::diag::lemma_pair_total_ordering();
    d.lemma_sort_by_ensures(crate::diag::pair_leq());
    broadcast use vstd::seq_lib::group_to_multiset_ensures;

    assert(sorted.contains(q) <==> sorted.to_multiset().count(q) > 0);
    assert(d.contains(q) <==> d.to_multiset().count(q) > 0);
    assert(sorted.to_multiset() == d.to_multiset());
}

/// Two sorted, duplicate-free implicated lists holding the same set of
/// pairs are the same list.
pub proof fn lemma_sorted_distinct_set_equal(
    a: Seq<(Seq<char>, Seq<char>)>,
    b: Seq<(Seq<char>, Seq<char>)>,
)
    requires
        vstd::relations::sorted_by(a, crate::diag::pair_leq()),
        vstd::relations::sorted_by(b, crate::diag::pair_leq()),
        a.no_duplicates(),
        b.no_duplicates(),
        a.to_set() == b.to_set(),
    ensures
        a == b,
{
    a.lemma_multiset_has_no_duplicates();
    b.lemma_multiset_has_no_duplicates();
    broadcast use vstd::seq_lib::group_to_multiset_ensures;

    assert forall|x: (Seq<char>, Seq<char>)| a.to_multiset().count(x) == b.to_multiset().count(
        x,
    ) by {
        assert(a.contains(x) <==> a.to_set().contains(x));
        assert(b.contains(x) <==> b.to_set().contains(x));
        assert(a.contains(x) <==> a.to_multiset().count(x) > 0);
        assert(b.contains(x) <==> b.to_multiset().count(x) > 0);
    }
    assert(a.to_multiset() =~= b.to_multiset());
    crate::diag::lemma_pair_total_ordering();
    vstd::seq_lib::lemma_sorted_unique(a, b, crate::diag::pair_leq());
}

/// Appending an element to the input extends the deduplicated output
/// exactly when the element is new.
pub proof fn lemma_dedup_pairs_push(
    ps: Seq<(Seq<char>, Seq<char>)>,
    q: (Seq<char>, Seq<char>),
    seen: Set<(Seq<char>, Seq<char>)>,
)
    ensures
        dedup_pairs_rec(ps.push(q), seen) == dedup_pairs_rec(ps, seen) + (if seen.union(
            ps.to_set(),
        ).contains(q) {
            Seq::<(Seq<char>, Seq<char>)>::empty()
        } else {
            seq![q]
        }),
    decreases ps.len(),
{
    let tail: Seq<(Seq<char>, Seq<char>)> = if seen.union(ps.to_set()).contains(q) {
        Seq::empty()
    } else {
        seq![q]
    };
    if ps.len() == 0 {
        assert(ps.push(q)[0] == q);
        assert(ps.push(q).drop_first() =~= ps);
        assert(ps.to_set() =~= Set::<(Seq<char>, Seq<char>)>::empty());
        assert(seen.union(ps.to_set()) =~= seen);
        assert(dedup_pairs_rec(ps, seen) == Seq::<(Seq<char>, Seq<char>)>::empty());
        if seen.contains(q) {
            assert(dedup_pairs_rec(ps.push(q), seen) == dedup_pairs_rec(ps, seen));
            assert(dedup_pairs_rec(ps.push(q), seen) =~= dedup_pairs_rec(ps, seen) + tail);
        } else {
            assert(dedup_pairs_rec(ps.push(q), seen) == seq![q] + dedup_pairs_rec(
                ps,
                seen.insert(q),
            ));
            assert(dedup_pairs_rec(ps, seen.insert(q)) == Seq::<(Seq<char>, Seq<char>)>::empty());
            assert(dedup_pairs_rec(ps.push(q), seen) =~= dedup_pairs_rec(ps, seen) + tail);
        }
    } else {
        lemma_cons_to_set(ps);
        assert(ps.push(q)[0] == ps[0]);
        assert(ps.push(q).drop_first() =~= ps.drop_first().push(q));
        if seen.contains(ps[0]) {
            lemma_dedup_pairs_push(ps.drop_first(), q, seen);
            assert(seen.union(ps.drop_first().to_set()) =~= seen.union(ps.to_set()));
            assert(dedup_pairs_rec(ps.push(q), seen) =~= dedup_pairs_rec(ps, seen) + tail);
        } else {
            lemma_dedup_pairs_push(ps.drop_first(), q, seen.insert(ps[0]));
            assert(seen.insert(ps[0]).union(ps.drop_first().to_set()) =~= seen.union(
                ps.to_set(),
            ));
            assert(dedup_pairs_rec(ps, seen) == seq![ps[0]] + dedup_pairs_rec(
                ps.drop_first(),
                seen.insert(ps[0]),
            ));
            assert(seq![ps[0]] + (dedup_pairs_rec(ps.drop_first(), seen.insert(ps[0])) + tail)
                =~= (seq![ps[0]] + dedup_pairs_rec(ps.drop_first(), seen.insert(ps[0]))) + tail);
        }
    }
}

/// Folds a path sequence into a path set.
pub open spec fn add_paths(s: Set<Seq<char>>, ps: Seq<Seq<char>>) -> Set<Seq<char>>
    decreases ps.len(),
{
    if ps.len() == 0 {
        s
    } else {
        add_paths(s.insert(ps[0]), ps.drop_first())
    }
}

pub proof fn lemma_add_paths_concat(s: Set<Seq<char>>, a: Seq<Seq<char>>, b: Seq<Seq<char>>)
    ensures
        add_paths(s, a + b) == add_paths(add_paths(s, a), b),
    decreases a.len(),
{
    if a.len() == 0 {
        assert(a + b =~= b);
    } else {
        assert((a + b)[0] == a[0]);
        assert((a + b).drop_first() =~= a.drop_first() + b);
        lemma_add_paths_concat(s.insert(a[0]), a.drop_first(), b);
    }
}

/// The global file set only grows: folding a probe's paths in never
/// removes a path already present.
pub proof fn lemma_add_paths_grows(s: Set<Seq<char>>, ps: Seq<Seq<char>>)
    ensures
        s.subset_of(add_paths(s, ps)),
    decreases ps.len(),
{
    if ps.len() > 0 {
        lemma_add_paths_grows(s.insert(ps[0]), ps.drop_first());
    }
}

/// One back-reference added under one path.
pub open spec fn add_origin(
    m: Map<Seq<char>, Set<OriginModel>>,
    p: Seq<char>,
    o: OriginModel,
) -> Map<Seq<char>, Set<OriginModel>> {
    m.insert(
        p,
        (if m.dom().contains(p) {
            m[p]
        } else {
            Set::empty()
        }).insert(o),
    )
}

/// Folds path–origin pairs into the back-reference map.
pub open spec fn add_origins(
    m: Map<Seq<char>, Set<OriginModel>>,
    ps: Seq<(Seq<char>, OriginModel)>,
) -> Map<Seq<char>, Set<OriginModel>>
    decreases ps.len(),
{
    if ps.len() == 0 {
        m
    } else {
        add_origins(add_origin(m, ps[0].0, ps[0].1), ps.drop_first())
    }
}

pub proof fn lemma_add_origins_concat(
    m: Map<Seq<char>, Set<OriginModel>>,
    a: Seq<(Seq<char>, OriginModel)>,
    b: Seq<(Seq<char>, OriginModel)>,
)
    ensures
        add_origins(m, a + b) == add_origins(add_origins(m, a), b),
    decreases a.len(),
{
    if a.len() == 0 {
        assert(a + b =~= b);
    } else {
        assert((a + b)[0] == a[0]);
        assert((a + b).drop_first() =~= a.drop_first() + b);
        lemma_add_origins_concat(add_origin(m, a[0].0, a[0].1), a.drop_first(), b);
    }
}

/// The back-reference index only grows: folding a probe's origins in
/// never removes a file, and never removes an origin already recorded
/// for a file.
pub proof fn lemma_add_origins_grows(
    m: Map<Seq<char>, Set<OriginModel>>,
    ps: Seq<(Seq<char>, OriginModel)>,
)
    ensures
        m.dom().subset_of(add_origins(m, ps).dom()),
        forall|p: Seq<char>|
            #[trigger] m.dom().contains(p) ==> m[p].subset_of(add_origins(m, ps)[p]),
    decreases ps.len(),
{
    if ps.len() > 0 {
        let m1 = add_origin(m, ps[0].0, ps[0].1);
        lemma_add_origins_grows(m1, ps.drop_first());
        assert forall|p: Seq<char>| #[trigger] m.dom().contains(p) implies m[p].subset_of(
            add_origins(m, ps)[p],
        ) by {
            assert(m1.dom().contains(p));
            assert(m[p].subset_of(m1[p]));
            assert(m1[p].subset_of(add_origins(m1, ps.drop_first())[p]));
        }
    }
}

/// The set of third-party canonical paths a run has implicated so far.
pub struct ImplicatedFileSet {
    pub paths: Vec<String>,
}

impl ImplicatedFileSet {
    /// No path is held twice.
    pub open spec fn wf(&self) -> bool {
        forall|i: int, j: int|
            0 <= i < j < self.paths@.len() ==> (#[trigger] self.paths@[i])@ != (
            #[trigger] self.paths@[j])@
    }

    pub open spec fn model(&self) -> Set<Seq<char>> {
        string_views(self.paths@).to_set()
    }

    pub fn new() -> (r: ImplicatedFileSet)
        ensures
            r.wf(),
            r.model() == Set::<Seq<char>>::empty(),
    {
        let r = ImplicatedFileSet { paths: Vec::new() };
        proof {
            assert(string_views(r.paths@) =~= Seq::<Seq<char>>::empty());
            assert(r.model() =~= Set::<Seq<char>>::empty());
        }
        r
    }

    /// Adds one canonical path.
    pub fn insert(&mut self, p: &String)
        requires
            old(self).wf(),
        ensures
            final(self).wf(),
            final(self).model() == old(self).model().insert(p@),
    {
        let present = contains_string(&self.paths, p.as_str());
        if present {
            proof {
                assert(self.model().contains(p@));
                assert(self.model() =~= self.model().insert(p@));
            }
        } else {
            let ghost old_paths = self.paths@;
            self.paths.push(p.clone());
            proof {
                assert(string_views(self.paths@) =~= string_views(old_paths).push(p@));
                lemma_concat_to_set(string_views(old_paths), seq![p@]);
                assert(string_views(old_paths) + seq![p@] =~= string_views(old_paths).push(p@));
                assert forall|x: Seq<char>| seq![p@].to_set().contains(x) <==> x == p@ by {
                    if seq![p@].contains(x) {
                        let w = choose|w: int| 0 <= w < 1 && seq![p@][w] == x;
                        assert(x == p@);
                    }
                    if x == p@ {
                        assert(seq![p@][0] == x);
                    }
                }
                assert(final(self).model() =~= old(self).model().insert(p@));
                assert forall|i: int, j: int| 0 <= i < j < self.paths@.len() implies (
                #[trigger] self.paths@[i])@ != (#[trigger] self.paths@[j])@ by {
                    if j == self.paths@.len() - 1 {
                        assert(!string_views(old_paths).contains(p@));
                        if old_paths[i]@ == p@ {
                            assert(string_views(old_paths)[i] == p@);
                        }
                    }
                }
            }
        }
    }
}

/// A sequence is the rest plus its last element.
pub proof fn lemma_snoc_to_set<A>(s: Seq<A>)
    requires
        s.len() > 0,
    ensures
        s.to_set() == s.drop_last().to_set().insert(s.last()),
{
    assert(s =~= s.drop_last() + seq![s.last()]);
    lemma_concat_to_set(s.drop_last(), seq![s.last()]);
    assert forall|x: A| seq![s.last()].to_set().contains(x) <==> x == s.last() by {
        if seq![s.last()].contains(x) {
            let w = choose|w: int| 0 <= w < 1 && seq![s.last()][w] == x;
            assert(x == s.last());
        }
        if x == s.last() {
            assert(seq![s.last()][0] == x);
        }
    }
    assert(s.to_set() =~= s.drop_last().to_set().insert(s.last()));
}

/// No origin is held twice.
pub open spec fn distinct_origins(v: Seq<DiagnosticOriginInfo>) -> bool {
    forall|i: int, j: int|
        0 <= i < j < v.len() ==> (#[trigger] v[i])@ != (#[trigger] v[j])@
}

/// The path texts of the index entries.
pub open spec fn entry_paths(entries: Seq<(String, Vec<DiagnosticOriginInfo>)>) -> Seq<
    Seq<char>,
> {
    entries.map_values(|e: (String, Vec<DiagnosticOriginInfo>)| e.0@)
}

/// The back-reference map an entry list denotes.
pub open spec fn backref_model(entries: Seq<(String, Vec<DiagnosticOriginInfo>)>) -> Map<
    Seq<char>,
    Set<OriginModel>,
>
    decreases entries.len(),
{
    if entries.len() == 0 {
        Map::empty()
    } else {
        backref_model(entries.drop_last()).insert(
            entries.last().0@,
            origin_views(entries.last().1@).to_set(),
        )
    }
}

pub proof fn lemma_backref_dom(entries: Seq<(String, Vec<DiagnosticOriginInfo>)>)
    ensures
        backref_model(entries).dom() == entry_paths(entries).to_set(),
    decreases entries.len(),
{
    if entries.len() == 0 {
        assert(backref_model(entries).dom() =~= entry_paths(entries).to_set());
    } else {
        lemma_backref_dom(entries.drop_last());
        assert(entry_paths(entries).len() > 0);
        lemma_snoc_to_set(entry_paths(entries));
        assert(entry_paths(entries).drop_last() =~= entry_paths(entries.drop_last()));
        assert(entry_paths(entries).last() == entries.last().0@);
        assert(backref_model(entries).dom() =~= entry_paths(entries).to_set());
    }
}

/// With unique paths, the map holds, under each entry's path, exactly
/// that entry's origins.
pub proof fn lemma_backref_at(entries: Seq<(String, Vec<DiagnosticOriginInfo>)>, k: int)
    requires
        0 <= k < entries.len(),
        forall|i: int, j: int|
            0 <= i < j < entries.len() ==> (#[trigger] entries[i]).0@ != (
            #[trigger] entries[j]).0@,
    ensures
        backref_model(entries).dom().contains(entries[k].0@),
        backref_model(entries)[entries[k].0@] == origin_views(entries[k].1@).to_set(),
    decreases entries.len(),
{
    if k == entries.len() - 1 {
    } else {
        lemma_backref_at(entries.drop_last(), k);
        assert(entries.drop_last()[k] == entries[k]);
        assert(entries.last().0@ != entries[k].0@);
    }
}

/// Replacing one entry, path kept, replaces exactly that path's origins.
pub proof fn lemma_backref_update(
    entries: Seq<(String, Vec<DiagnosticOriginInfo>)>,
    k: int,
    nv: (String, Vec<DiagnosticOriginInfo>),
)
    requires
        0 <= k < entries.len(),
        nv.0@ == entries[k].0@,
        forall|i: int, j: int|
            0 <= i < j < entries.len() ==> (#[trigger] entries[i]).0@ != (
            #[trigger] entries[j]).0@,
    ensures
        backref_model(entries.update(k, nv)) == backref_model(entries).insert(
            nv.0@,
            origin_views(nv.1@).to_set(),
        ),
    decreases entries.len(),
{
    let u = entries.update(k, nv);
    if k == entries.len() - 1 {
        assert(u.drop_last() =~= entries.drop_last());
        assert(u.last() == nv);
        assert(backref_model(u) =~= backref_model(entries).insert(
            nv.0@,
            origin_views(nv.1@).to_set(),
        ));
    } else {
        assert(u.last() == entries.last());
        assert(u.drop_last() =~= entries.drop_last().update(k, nv));
        assert(entries.drop_last()[k] == entries[k]);
        lemma_backref_update(entries.drop_last(), k, nv);
        assert(entries.last().0@ != nv.0@);
        assert(backref_model(u) =~= backref_model(entries).insert(
            nv.0@,
            origin_views(nv.1@).to_set(),
        ));
    }
}

/// Tests two origin records for equality of their texts.
pub fn origin_eq(a: &DiagnosticOriginInfo, b: &DiagnosticOriginInfo) -> (r: bool)
    ensures
        r == (a@ == b@),
{
    let level_eq = str_eq(a.level.as_str(), b.level.as_str());
    let code_eq = match (&a.code, &b.code) {
        (Option::Some(ca), Option::Some(cb)) => str_eq(ca.as_str(), cb.as_str()),
        (Option::None, Option::None) => true,
        _ => false,
    };
    let loc_eq = str_eq(
        a.originating_diagnostic_span_location.as_str(),
        b.originating_diagnostic_span_location.as_str(),
    );
    let desc_eq = str_eq(a.feature_set_desc.as_str(), b.feature_set_desc.as_str());
    let r = level_eq && code_eq && loc_eq && desc_eq;
    proof {
        if r {
            assert(a@ == b@);
        } else {
            assert(a@ != b@);
        }
    }
    r
}

/// Tests whether some entry of `v` is the origin `o`.
fn contains_origin(v: &Vec<DiagnosticOriginInfo>, o: &DiagnosticOriginInfo) -> (r: bool)
    ensures
        r == origin_views(v@).contains(o@),
{
    let mut j: usize = 0;
    while j < v.len()
        invariant
            0 <= j <= v@.len(),
            forall|k: int| 0 <= k < j ==> (#[trigger] v@[k])@ != o@,
        decreases v@.len() - j,
    {
        if origin_eq(&v[j], o) {
            proof {
                assert(origin_views(v@)[j as int] == o@);
            }
            return true;
        }
        j = j + 1;
    }
    proof {
        assert forall|i: int| 0 <= i < origin_views(v@).len() implies #[trigger] origin_views(
            v@,
        )[i] != o@ by {
            assert(v@[i]@ != o@);
        }
    }
    false
}

/// The back-reference index: for every implicated third-party file, the
/// set of diagnostic occurrences that named it.
pub struct BackrefIndex {
    pub entries: Vec<(String, Vec<DiagnosticOriginInfo>)>,
}

impl BackrefIndex {
    /// Paths are unique, and no entry holds an origin twice.
    pub open spec fn wf(&self) -> bool {
        &&& forall|i: int, j: int|
            0 <= i < j < self.entries@.len() ==> (#[trigger] self.entries@[i]).0@ != (
            #[trigger] self.entries@[j]).0@
        &&& forall|k: int|
            0 <= k < self.entries@.len() ==> distinct_origins(
                (#[trigger] self.entries@[k]).1@,
            )
    }

    pub open spec fn model(&self) -> Map<Seq<char>, Set<OriginModel>> {
        backref_model(self.entries@)
    }

    pub fn new() -> (r: BackrefIndex)
        ensures
            r.wf(),
            r.model() == Map::<Seq<char>, Set<OriginModel>>::empty(),
    {
        BackrefIndex { entries: Vec::new() }
    }

    /// Finds the entry recorded for `path`.
    fn find_entry(&self, path: &String) -> (r: Option<usize>)
        ensures
            match r {
                Option::Some(k) => 0 <= k < self.entries@.len() && self.entries@[k as int].0@
                    == path@,
                Option::None => forall|i: int|
                    0 <= i < self.entries@.len() ==> (#[trigger] self.entries@[i]).0@ != path@,
            },
    {
        let mut k: usize = 0;
        while k < self.entries.len()
            invariant
                0 <= k <= self.entries@.len(),
                forall|i: int| 0 <= i < k ==> (#[trigger] self.entries@[i]).0@ != path@,
            decreases self.entries@.len() - k,
        {
            if str_eq(self.entries[k].0.as_str(), path.as_str()) {
                return Option::Some(k);
            }
            k = k + 1;
        }
        Option::None
    }

    /// Records that the diagnostic occurrence `origin` implicated `path`.
    pub fn insert_origin(&mut self, path: &String, origin: DiagnosticOriginInfo)
        requires
            old(self).wf(),
        ensures
            final(self).wf(),
            final(self).model() == add_origin(old(self).model(), path@, origin@),
    {
        let found = self.find_entry(path);
        match found {
            Option::None => {
                proof {
                    lemma_backref_dom(self.entries@);
                    if entry_paths(self.entries@).contains(path@) {
                        let w = choose|w: int|
                            0 <= w < entry_paths(self.entries@).len() && entry_paths(
                                self.entries@,
                            )[w] == path@;
                        assert(self.entries@[w].0@ == path@);
                    }
                    assert(!self.model().dom().contains(path@));
                }
                let ghost old_entries = self.entries@;
                let mut ov: Vec<DiagnosticOriginInfo> = Vec::new();
                ov.push(origin);
                self.entries.push((path.clone(), ov));
                proof {
                    assert(self.entries@.drop_last() =~= old_entries);
                    assert(origin_views(self.entries@.last().1@) =~= seq![origin@]);
                    assert forall|x: OriginModel| seq![origin@].to_set().contains(x) <==> x
                        == origin@ by {
                        if seq![origin@].contains(x) {
                            let w = choose|w: int| 0 <= w < 1 && seq![origin@][w] == x;
                            assert(x == origin@);
                        }
                        if x == origin@ {
                            assert(seq![origin@][0] == x);
                        }
                    }
                    assert(seq![origin@].to_set() =~= Set::<OriginModel>::empty().insert(
                        origin@,
                    ));
                    assert(final(self).model() =~= add_origin(
                        old(self).model(),
                        path@,
                        origin@,
                    ));
                    assert forall|i: int, j: int|
                        0 <= i < j < self.entries@.len() implies (
                    #[trigger] self.entries@[i]).0@ != (#[trigger] self.entries@[j]).0@ by {
                        if j < self.entries@.len() - 1 {
                            assert(self.entries@[i] == old_entries[i]);
                            assert(self.entries@[j] == old_entries[j]);
                        } else {
                            assert(self.entries@[i] == old_entries[i]);
                        }
                    }
                    assert forall|k: int| 0 <= k < self.entries@.len() implies distinct_origins(
                        (#[trigger] self.entries@[k]).1@,
                    ) by {
                        if k < self.entries@.len() - 1 {
                            assert(self.entries@[k] == old_entries[k]);
                        }
                    }
                }
            },
            Option::Some(k) => {
                let ghost old_entries = self.entries@;
                proof {
                    lemma_backref_at(self.entries@, k as int);
                }
                let present = contains_origin(&self.entries[k].1, &origin);
                if present {
                    proof {
                        let m = old(self).model();
                        let s = origin_views(old_entries[k as int].1@).to_set();
                        assert(s.contains(origin@));
                        assert(s.insert(origin@) =~= s);
                        assert(add_origin(m, path@, origin@) =~= m);
                    }
                } else {
                    let mut e = self.entries.remove(k);
                    let ghost old_ov = e.1@;
                    e.1.push(origin);
                    self.entries.insert(k, e);
                    proof {
                        assert(self.entries@ =~= old_entries.update(
                            k as int,
                            self.entries@[k as int],
                        ));
                        let nv = self.entries@[k as int];
                        assert(nv.0@ == path@);
                        assert(nv.1@ =~= old_ov.push(origin));
                        lemma_backref_update(old_entries, k as int, nv);
                        assert(origin_views(nv.1@) =~= origin_views(old_ov).push(origin@));
                        lemma_snoc_to_set(origin_views(old_ov).push(origin@));
                        assert(origin_views(old_ov).push(origin@).drop_last() =~= origin_views(
                            old_ov,
                        ));
                        assert(origin_views(nv.1@).to_set() =~= origin_views(
                            old_ov,
                        ).to_set().insert(origin@));
                        assert(old_ov =~= old_entries[k as int].1@);
                        assert(final(self).model() =~= add_origin(
                            old(self).model(),
                            path@,
                            origin@,
                        ));
                        assert forall|i: int, j: int|
                            0 <= i < j < self.entries@.len() implies (
                        #[trigger] self.entries@[i]).0@ != (#[trigger] self.entries@[j]).0@ by {
                            assert(self.entries@[i].0@ == old_entries[i].0@);
                            assert(self.entries@[j].0@ == old_entries[j].0@);
                        }
                        assert forall|q: int|
                            0 <= q < self.entries@.len() implies distinct_origins(
                            (#[trigger] self.entries@[q]).1@,
                        ) by {
                            if q != k {
                                assert(self.entries@[q] == old_entries[q]);
                            } else {
                                assert(!origin_views(old_ov).contains(origin@));
                                assert forall|i: int, j: int|
                                    0 <= i < j < nv.1@.len() implies (#[trigger] nv.1@[i])@ != (
                                #[trigger] nv.1@[j])@ by {
                                    if j < nv.1@.len() - 1 {
                                        assert(nv.1@[i] == old_ov[i]);
                                        assert(nv.1@[j] == old_ov[j]);
                                        assert(distinct_origins(old_ov));
                                    } else {
                                        assert(nv.1@[i] == old_ov[i]);
                                        if old_ov[i]@ == origin@ {
                                            assert(origin_views(old_ov)[i] == origin@);
                                        }
                                    }
                                }
                            }
                        }
                    }
                }
            },
        }
    }
}

/// A pair strictly below `b` is below everything `b` is below.
pub proof fn lemma_pair_lt_le_trans(
    a: (Seq<char>, Seq<char>),
    b: (Seq<char>, Seq<char>),
    c: (Seq<char>, Seq<char>),
)
    requires
        crate::diag::pair_lt(a, b),
        crate::diag::pair_le(b, c),
    ensures
        crate::diag::pair_le(a, c),
{
    if crate::text::lex_lt(a.0, b.0) {
        if crate::text::lex_lt(b.0, c.0) {
            crate::text::lemma_lex_lt_transitive(a.0, b.0, c.0);
        }
    } else {
        if b.0 == c.0 {
            crate::text::lemma_lex_lt_leq_transitive(a.1, b.1, c.1);
        }
    }
}

/// What does not lie strictly above lies at or below.
pub proof fn lemma_pair_not_lt(x: (Seq<char>, Seq<char>), y: (Seq<char>, Seq<char>))
    requires
        !crate::diag::pair_lt(x, y),
    ensures
        crate::diag::pair_le(y, x),
{
    crate::text::lemma_lex_lt_connected(x.0, y.0);
    if x.0 == y.0 {
        crate::text::lemma_lex_lt_connected(x.1, y.1);
    }
}

pub proof fn lemma_sorted_insert_pair(
    s: Seq<(Seq<char>, Seq<char>)>,
    j: int,
    x: (Seq<char>, Seq<char>),
)
    requires
        vstd::relations::sorted_by(s, crate::diag::pair_leq()),
        0 <= j <= s.len(),
        forall|k: int| 0 <= k < j ==> crate::diag::pair_le(#[trigger] s[k], x),
        j < s.len() ==> crate::diag::pair_lt(x, s[j]),
    ensures
        vstd::relations::sorted_by(s.insert(j, x), crate::diag::pair_leq()),
{
    let leq = crate::diag::pair_leq();
    let t = s.insert(j, x);
    assert forall|p: int, q: int| 0 <= p < q < t.len() implies leq(t[p], t[q]) by {
        let tp = if p < j {
            s[p]
        } else if p == j {
            x
        } else {
            s[p - 1]
        };
        let tq = if q < j {
            s[q]
        } else if q == j {
            x
        } else {
            s[q - 1]
        };
        assert(t[p] == tp);
        assert(t[q] == tq);
        if q < j || p > j {
        } else if p < j && q == j {
        } else if p < j && q > j {
            if p < q - 1 {
                assert(leq(s[p], s[q - 1]));
            }
        } else if p == j && q > j {
            if q - 1 == j {
            } else {
                assert(leq(s[j], s[q - 1]));
                lemma_pair_lt_le_trans(x, s[j], s[q - 1]);
            }
        }
    }
}

/// Tests whether pair `a` sorts strictly before pair `b`.
fn pair_lt_exec(a: &(String, String), b: &(String, String)) -> (r: bool)
    ensures
        r == crate::diag::pair_lt((a.0@, a.1@), (b.0@, b.1@)),
{
    if crate::text::str_lt(a.0.as_str(), b.0.as_str()) {
        true
    } else if str_eq(a.0.as_str(), b.0.as_str()) {
        crate::text::str_lt(a.1.as_str(), b.1.as_str())
    } else {
        false
    }
}

/// Tests whether one implicated list sorts strictly before another.
pub fn pairs_lt_exec(a: &Vec<(String, String)>, b: &Vec<(String, String)>) -> (r: bool)
    ensures
        r == crate::diag::pairs_lt(pair_views(a@), pair_views(b@)),
{
    let ghost av = pair_views(a@);
    let ghost bv = pair_views(b@);
    let a_len = a.len();
    let b_len = b.len();
    let mut i: usize = 0;
    proof {
        assert(av.skip(0) =~= av);
        assert(bv.skip(0) =~= bv);
    }
    loop
        invariant
            i <= a_len,
            i <= b_len,
            av == pair_views(a@),
            bv == pair_views(b@),
            a_len == av.len(),
            b_len == bv.len(),
            crate::diag::pairs_lt(av, bv) == crate::diag::pairs_lt(
                av.skip(i as int),
                bv.skip(i as int),
            ),
        decreases a_len - i,
    {
        if i == b_len {
            return false;
        }
        if i == a_len {
            return true;
        }
        proof {
            assert(av.skip(i as int)[0] == av[i as int]);
            assert(bv.skip(i as int)[0] == bv[i as int]);
            assert(av[i as int] == (a@[i as int].0@, a@[i as int].1@));
            assert(bv[i as int] == (b@[i as int].0@, b@[i as int].1@));
        }
        let heads_eq = str_eq(a[i].0.as_str(), b[i].0.as_str()) && str_eq(
            a[i].1.as_str(),
            b[i].1.as_str(),
        );
        if !heads_eq {
            return pair_lt_exec(&a[i], &b[i]);
        }
        proof {
            assert(av[i as int] == bv[i as int]);
            assert(av.skip(i as int).drop_first() =~= av.skip(i + 1));
            assert(bv.skip(i as int).drop_first() =~= bv.skip(i + 1));
        }
        i = i + 1;
    }
}

/// Finds the first position of the sorted pair vector whose entry is
/// strictly greater than `x`.
fn insertion_point_pairs(out: &Vec<(String, String)>, x: &(String, String)) -> (j: usize)
    ensures
        0 <= j <= out@.len(),
        forall|k: int|
            0 <= k < j ==> !crate::diag::pair_lt(
                (x.0@, x.1@),
                ((#[trigger] out@[k]).0@, out@[k].1@),
            ),
        j < out@.len() ==> crate::diag::pair_lt(
            (x.0@, x.1@),
            (out@[j as int].0@, out@[j as int].1@),
        ),
{
    let mut j: usize = 0;
    while j < out.len()
        invariant
            0 <= j <= out@.len(),
            forall|k: int|
                0 <= k < j ==> !crate::diag::pair_lt(
                    (x.0@, x.1@),
                    ((#[trigger] out@[k]).0@, out@[k].1@),
                ),
        decreases out@.len() - j,
    {
        if pair_lt_exec(x, &out[j]) {
            return j;
        }
        j = j + 1;
    }
    j
}

/// Sorts implicated pairs by path, then detail.
#[verifier::rlimit(50)]
pub fn sort_pairs(input: &Vec<(String, String)>) -> (r: Vec<(String, String)>)
    ensures
        pair_views(r@) == pair_views(input@).sort_by(crate::diag::pair_leq()),
{
    let ghost ivs = pair_views(input@);
    let mut out: Vec<(String, String)> = Vec::new();
    let mut idx: usize = 0;
    proof {
        assert(pair_views(out@) =~= Seq::<(Seq<char>, Seq<char>)>::empty());
        assert(ivs.subrange(0, 0) =~= Seq::<(Seq<char>, Seq<char>)>::empty());
        assert(pair_views(out@).to_multiset() =~= ivs.subrange(0, 0).to_multiset());
    }
    while idx < input.len()
        invariant
            0 <= idx <= input@.len(),
            ivs == pair_views(input@),
            vstd::relations::sorted_by(pair_views(out@), crate::diag::pair_leq()),
            pair_views(out@).to_multiset() == ivs.subrange(0, idx as int).to_multiset(),
        decreases input@.len() - idx,
    {
        let ghost old_seq = out@;
        let ghost old_views = pair_views(out@);
        let x = (input[idx].0.clone(), input[idx].1.clone());
        let ghost xv = (x.0@, x.1@);
        proof {
            assert(xv == ivs[idx as int]);
        }
        let j = insertion_point_pairs(&out, &x);
        proof {
            assert forall|k: int| 0 <= k < j implies crate::diag::pair_le(
                #[trigger] old_views[k],
                xv,
            ) by {
                assert(old_views[k] == (old_seq[k].0@, old_seq[k].1@));
                lemma_pair_not_lt(xv, old_views[k]);
            }
            if j < old_seq.len() {
                assert(old_views[j as int] == (old_seq[j as int].0@, old_seq[j as int].1@));
            }
            lemma_sorted_insert_pair(old_views, j as int, xv);
        }
        out.insert(j, x);
        proof {
            old_seq.insert_ensures(j as int, x);
            old_views.insert_ensures(j as int, xv);
            assert forall|i: int| 0 <= i < out@.len() implies ((#[trigger] out@[i]).0@,
            out@[i].1@) == old_views.insert(j as int, xv)[i] by {
                if i < j {
                    assert(out@[i] == old_seq[i]);
                    assert(old_views[i] == (old_seq[i].0@, old_seq[i].1@));
                } else if i == j {
                    assert(out@[i] == x);
                } else {
                    assert(out@[i] == old_seq[i - 1]);
                    assert(old_views[i - 1] == (old_seq[i - 1].0@, old_seq[i - 1].1@));
                }
            }
            assert(pair_views(out@) =~= old_views.insert(j as int, xv));
            broadcast use vstd::seq_lib::to_multiset_insert;
            broadcast use vstd::seq_lib::group_to_multiset_ensures;

            assert(old_views.insert(j as int, xv).to_multiset() == old_views.to_multiset().insert(
                xv,
            ));
            assert(ivs.subrange(0, idx + 1) =~= ivs.subrange(0, idx as int).push(ivs[idx as int]));
            assert(ivs.subrange(0, idx as int).push(ivs[idx as int]).to_multiset()
                =~= ivs.subrange(0, idx as int).to_multiset().insert(ivs[idx as int]));
        }
        idx = idx + 1;
    }
    proof {
        assert(ivs.subrange(0, ivs.len() as int) =~= ivs);
        crate::diag::lemma_pair_total_ordering();
        ivs.lemma_sort_by_ensures(crate::diag::pair_leq());
        vstd::seq_lib::lemma_sorted_unique(
            pair_views(out@),
            ivs.sort_by(crate::diag::pair_leq()),
            crate::diag::pair_leq(),
        );
    }
    out
}

/// The origin record a node stamps on every file it implicates: the
/// node's level and code, the node's own primary location, and the
/// configuration descriptor of the probe.
pub open spec fn node_origin(n: NodeModel, env: EnvironmentModel, desc: Seq<char>) -> OriginModel {
    OriginModel {
        level: n.level,
        code: code_text(n.code),
        location: primary_loc(n.spans, env.project_root),
        feature_set_desc: desc,
    }
}

/// The standalone record of one node: one record when the node is a
/// reportable error or warning, none otherwise.
pub open spec fn own_records(n: NodeModel, env: EnvironmentModel) -> Seq<RecordModel> {
    if emits_record(n.level, n.rendered) {
        seq![
            RecordModel {
                level: n.level,
                code: code_text(n.code),
                code_explanation: explanation_text(n.code),
                rendered: match n.rendered {
                    Option::Some(r) => crate::text::trim_end_text(r),
                    Option::None => Seq::empty(),
                },
                primary_location: primary_loc(n.spans, env.project_root),
                implicated: implicated_of(n.spans, env),
            },
        ]
    } else {
        Seq::empty()
    }
}

/// Every record of a tree, in walk order: the node's own record, if any,
/// then its children's records in order. Each node contributes its own
/// record at most once.
pub open spec fn walk_records(n: NodeModel, env: EnvironmentModel) -> Seq<RecordModel>
    decreases n,
{
    own_records(n, env) + walk_records_seq(n.children, env)
}

pub open spec fn walk_records_seq(s: Seq<NodeModel>, env: EnvironmentModel) -> Seq<RecordModel>
    decreases s,
{
    if s.len() == 0 {
        Seq::empty()
    } else {
        walk_records(s[0], env) + walk_records_seq(s.drop_first(), env)
    }
}

/// Every third-party canonical path a tree implicates, in walk order,
/// duplicates kept.
pub open spec fn walk_paths(n: NodeModel, env: EnvironmentModel) -> Seq<Seq<char>>
    decreases n,
{
    tp_paths(n.spans, env) + walk_paths_seq(n.children, env)
}

pub open spec fn walk_paths_seq(s: Seq<NodeModel>, env: EnvironmentModel) -> Seq<Seq<char>>
    decreases s,
{
    if s.len() == 0 {
        Seq::empty()
    } else {
        walk_paths(s[0], env) + walk_paths_seq(s.drop_first(), env)
    }
}

/// Each path paired with the origin that implicated it.
pub open spec fn span_origin_pairs(ps: Seq<Seq<char>>, o: OriginModel) -> Seq<
    (Seq<char>, OriginModel),
> {
    ps.map_values(|p: Seq<char>| (p, o))
}

/// Every back-reference a tree generates, in walk order: each node stamps
/// its own origin on each of its third-party spans.
pub open spec fn walk_origins(
    n: NodeModel,
    env: EnvironmentModel,
    desc: Seq<char>,
) -> Seq<(Seq<char>, OriginModel)>
    decreases n,
{
    span_origin_pairs(tp_paths(n.spans, env), node_origin(n, env, desc)) + walk_origins_seq(
        n.children,
        env,
        desc,
    )
}

pub open spec fn walk_origins_seq(
    s: Seq<NodeModel>,
    env: EnvironmentModel,
    desc: Seq<char>,
) -> Seq<(Seq<char>, OriginModel)>
    decreases s,
{
    if s.len() == 0 {
        Seq::empty()
    } else {
        walk_origins(s[0], env, desc) + walk_origins_seq(s.drop_first(), env, desc)
    }
}

pub proof fn lemma_walk_seq_push(
    s: Seq<NodeModel>,
    x: NodeModel,
    env: EnvironmentModel,
    desc: Seq<char>,
)
    ensures
        walk_records_seq(s.push(x), env) == walk_records_seq(s, env) + walk_records(x, env),
        walk_paths_seq(s.push(x), env) == walk_paths_seq(s, env) + walk_paths(x, env),
        walk_origins_seq(s.push(x), env, desc) == walk_origins_seq(s, env, desc) + walk_origins(
            x,
            env,
            desc,
        ),
    decreases s.len(),
{
    if s.len() == 0 {
        assert(s.push(x)[0] == x);
        assert(s.push(x).drop_first() =~= s);
        assert(walk_records_seq(s.push(x), env) =~= walk_records_seq(s, env) + walk_records(
            x,
            env,
        ));
        assert(walk_paths_seq(s.push(x), env) =~= walk_paths_seq(s, env) + walk_paths(x, env));
        assert(walk_origins_seq(s.push(x), env, desc) =~= walk_origins_seq(s, env, desc)
            + walk_origins(x, env, desc));
    } else {
        lemma_walk_seq_push(s.drop_first(), x, env, desc);
        assert(s.push(x)[0] == s[0]);
        assert(s.push(x).drop_first() =~= s.drop_first().push(x));
        assert(walk_records_seq(s.push(x), env) =~= walk_records_seq(s, env) + walk_records(
            x,
            env,
        ));
        assert(walk_paths_seq(s.push(x), env) =~= walk_paths_seq(s, env) + walk_paths(x, env));
        assert(walk_origins_seq(s.push(x), env, desc) =~= walk_origins_seq(s, env, desc)
            + walk_origins(x, env, desc));
    }
}

/// How many nodes of a tree are reportable errors or warnings.
pub open spec fn reportable_count(n: NodeModel, env: EnvironmentModel) -> nat
    decreases n,
{
    (if emits_record(n.level, n.rendered) {
        1nat
    } else {
        0nat
    }) + reportable_count_seq(n.children, env)
}

pub open spec fn reportable_count_seq(s: Seq<NodeModel>, env: EnvironmentModel) -> nat
    decreases s,
{
    if s.len() == 0 {
        0nat
    } else {
        reportable_count(s[0], env) + reportable_count_seq(s.drop_first(), env)
    }
}

/// The walker emits one record per reportable node: every node is visited
/// exactly once, and no ancestor's record reappears under a descendant.
pub proof fn lemma_walker_visits_once(n: NodeModel, env: EnvironmentModel)
    ensures
        walk_records(n, env).len() == reportable_count(n, env),
    decreases n,
{
    lemma_walker_visits_once_seq(n.children, env);
}

pub proof fn lemma_walker_visits_once_seq(s: Seq<NodeModel>, env: EnvironmentModel)
    ensures
        walk_records_seq(s, env).len() == reportable_count_seq(s, env),
    decreases s,
{
    if s.len() > 0 {
        lemma_walker_visits_once(s[0], env);
        lemma_walker_visits_once_seq(s.drop_first(), env);
    }
}

/// Copies an optional code's identifier.
fn clone_code(c: &Option<crate::diag::RustcErrorCode>) -> (r: Option<String>)
    ensures
        opt_view(r) == code_view(*c),
{
    match c {
        Option::Some(cc) => Option::Some(cc.code.clone()),
        Option::None => Option::None,
    }
}

/// Copies an optional code's explanation.
fn clone_explanation(c: &Option<crate::diag::RustcErrorCode>) -> (r: Option<String>)
    ensures
        opt_view(r) == explanation_view(*c),
{
    match c {
        Option::Some(cc) => match &cc.explanation {
            Option::Some(e) => Option::Some(e.clone()),
            Option::None => Option::None,
        },
        Option::None => Option::None,
    }
}

/// Builds the origin record of the node at hand.
fn make_origin(
    diag_data: &RustcDiagnosticData,
    loc: &String,
    feature_desc: &str,
) -> (o: DiagnosticOriginInfo)
    ensures
        o@ == (OriginModel {
            level: diag_data.level@,
            code: code_view(diag_data.code),
            location: loc@,
            feature_set_desc: feature_desc@,
        }),
{
    DiagnosticOriginInfo {
        level: diag_data.level.clone(),
        code: clone_code(&diag_data.code),
        originating_diagnostic_span_location: loc.clone(),
        feature_set_desc: String::from_str(feature_desc),
    }
}

/// Tests whether some entry of `v` is the pair `p`.
fn contains_pair(v: &Vec<(String, String)>, p: &(String, String)) -> (r: bool)
    ensures
        r == pair_views(v@).contains((p.0@, p.1@)),
{
    let mut j: usize = 0;
    while j < v.len()
        invariant
            0 <= j <= v@.len(),
            forall|k: int| 0 <= k < j ==> ((#[trigger] v@[k]).0@, v@[k].1@) != (p.0@, p.1@),
        decreases v@.len() - j,
    {
        if str_eq(v[j].0.as_str(), p.0.as_str()) && str_eq(v[j].1.as_str(), p.1.as_str()) {
            proof {
                assert(pair_views(v@)[j as int] == (p.0@, p.1@));
            }
            return true;
        }
        proof {
            if (v@[j as int].0@, v@[j as int].1@) == (p.0@, p.1@) {
                assert(v@[j as int].0@ == p.0@ && v@[j as int].1@ == p.1@);
            }
        }
        j = j + 1;
    }
    proof {
        assert forall|i: int| 0 <= i < pair_views(v@).len() implies #[trigger] pair_views(v@)[i]
            != (p.0@, p.1@) by {
            assert(pair_views(v@)[i] == (v@[i].0@, v@[i].1@));
        }
    }
    false
}

/// Walks one diagnostic tree: classifies every span of every node,
/// extends the run's implicated-file set and back-reference index, and
/// appends one record for every reportable node, the node's own record
/// before its children's.
pub fn process_single_diagnostic_data(
    diag_data: &RustcDiagnosticData,
    displayable_diagnostics: &mut Vec<DisplayableDiagnostic>,
    implicated_files: &mut ImplicatedFileSet,
    referencers: &mut BackrefIndex,
    env: &Environment,
    feature_desc: &str,
)
    requires
        old(implicated_files).wf(),
        old(referencers).wf(),
    ensures
        final(implicated_files).wf(),
        final(referencers).wf(),
        record_views(final(displayable_diagnostics)@) == record_views(
            old(displayable_diagnostics)@,
        ) + walk_records(node_model(*diag_data), env@),
        final(implicated_files).model() == add_paths(
            old(implicated_files).model(),
            walk_paths(node_model(*diag_data), env@),
        ),
        final(referencers).model() == add_origins(
            old(referencers).model(),
            walk_origins(node_model(*diag_data), env@, feature_desc@),
        ),
    decreases *diag_data,
{
    let ghost nm = node_model(*diag_data);
    let ghost env_v = env@;
    let ghost svs = span_views(diag_data.spans@);
    let ghost o_model = node_origin(nm, env@, feature_desc@);
    proof {
        assert(nm.spans == svs);
        assert(nm.level == diag_data.level@);
        assert(nm.rendered == opt_view(diag_data.rendered));
        assert(code_text(nm.code) == code_view(diag_data.code));
        assert(explanation_text(nm.code) == explanation_view(diag_data.code));
        assert(nm.children == node_models(diag_data.children@));
    }
    let ghost recs0 = displayable_diagnostics@;
    let ghost m0_files = implicated_files.model();
    let ghost m0_refs = referencers.model();

    let final_primary_loc = primary_loc_of(&diag_data.spans, env.project_root.as_str());

    let mut pairs: Vec<(String, String)> = Vec::new();
    let mut si: usize = 0;
    proof {
        assert(svs.subrange(0, 0) =~= Seq::<SpanModel>::empty());
        assert(pair_views(pairs@) =~= Seq::<(Seq<char>, Seq<char>)>::empty());
        assert(tp_pairs(svs.subrange(0, 0), env_v) == Seq::<(Seq<char>, Seq<char>)>::empty());
        assert(tp_paths(svs.subrange(0, 0), env_v) == Seq::<Seq<char>>::empty());
        assert(dedup_pairs(tp_pairs(svs.subrange(0, 0), env_v)) == Seq::<
            (Seq<char>, Seq<char>),
        >::empty());
        assert(pair_views(pairs@).to_set() =~= tp_pairs(svs.subrange(0, 0), env_v).to_set());
        assert(span_origin_pairs(tp_paths(svs.subrange(0, 0), env_v), o_model) =~= Seq::<
            (Seq<char>, OriginModel),
        >::empty());
    }
    while si < diag_data.spans.len()
        invariant
            0 <= si <= diag_data.spans@.len(),
            env_v == env@,
            svs == span_views(diag_data.spans@),
            nm == node_model(*diag_data),
            o_model == node_origin(nm, env@, feature_desc@),
            final_primary_loc@ == primary_loc(svs, env_v.project_root),
            displayable_diagnostics@ == recs0,
            implicated_files.wf(),
            referencers.wf(),
            pair_views(pairs@) == dedup_pairs(tp_pairs(svs.subrange(0, si as int), env_v)),
            pair_views(pairs@).to_set() == tp_pairs(svs.subrange(0, si as int), env_v).to_set(),
            implicated_files.model() == add_paths(
                m0_files,
                tp_paths(svs.subrange(0, si as int), env_v),
            ),
            referencers.model() == add_origins(
                m0_refs,
                span_origin_pairs(tp_paths(svs.subrange(0, si as int), env_v), o_model),
            ),
        decreases diag_data.spans@.len() - si,
    {
        let ghost prefix = svs.subrange(0, si as int);
        let ghost prefix_pairs = tp_pairs(prefix, env_v);
        let ghost prefix_paths = tp_paths(prefix, env_v);
        proof {
            assert(svs.subrange(0, si + 1) =~= prefix.push(svs[si as int]));
            crate::diag::lemma_tp_pairs_push(prefix, svs[si as int], env_v);
        }
        let span = &diag_data.spans[si];
        proof {
            assert(span@ == svs[si as int]);
        }
        let cls = classify(env, span.file_name.as_str());
        match cls {
            Classification::ThirdParty(canonical) => {
                let ghost cv = canonical@;
                let ghost q = span_pair(cv, svs[si as int].line_start);
                let pr = span_pair_of(&canonical, span.line_start);
                proof {
                    assert((pr.0@, pr.1@) == q);
                    assert(tp_pairs(svs.subrange(0, si + 1), env_v) == prefix_pairs + seq![q]);
                    assert(tp_paths(svs.subrange(0, si + 1), env_v) == prefix_paths + seq![cv]);
                    lemma_dedup_pairs_push(prefix_pairs, q, Set::empty());
                    assert(Set::<(Seq<char>, Seq<char>)>::empty().union(prefix_pairs.to_set())
                        =~= prefix_pairs.to_set());
                    assert(prefix_pairs + seq![q] =~= prefix_pairs.push(q));
                }
                let already = contains_pair(&pairs, &pr);
                proof {
                    assert(already == pair_views(pairs@).contains(q));
                    assert(already == prefix_pairs.to_set().contains(q));
                }
                if !already {
                    let ghost old_pairs = pairs@;
                    pairs.push(pr);
                    proof {
                        assert forall|i: int| 0 <= i < pairs@.len() implies ((
                        #[trigger] pairs@[i]).0@, pairs@[i].1@) == dedup_pairs(
                            tp_pairs(svs.subrange(0, si + 1), env_v),
                        )[i] by {
                            assert(dedup_pairs(tp_pairs(svs.subrange(0, si + 1), env_v))
                                == dedup_pairs(prefix_pairs) + seq![q]);
                            if i < pairs@.len() - 1 {
                                assert(pairs@[i] == old_pairs[i]);
                                assert(pair_views(old_pairs)[i] == (old_pairs[i].0@,
                                old_pairs[i].1@));
                            } else {
                                assert(pairs@[i] == pr);
                            }
                        }
                        assert(pair_views(pairs@) =~= dedup_pairs(
                            tp_pairs(svs.subrange(0, si + 1), env_v),
                        ));
                        assert(pair_views(pairs@) =~= pair_views(old_pairs).push(q));
                        lemma_snoc_to_set(pair_views(old_pairs).push(q));
                        assert(pair_views(old_pairs).push(q).drop_last() =~= pair_views(
                            old_pairs,
                        ));
                        lemma_snoc_to_set(prefix_pairs.push(q));
                        assert(prefix_pairs.push(q).drop_last() =~= prefix_pairs);
                        assert(pair_views(pairs@).to_set() =~= tp_pairs(
                            svs.subrange(0, si + 1),
                            env_v,
                        ).to_set());
                    }
                } else {
                    proof {
                        assert(dedup_pairs(tp_pairs(svs.subrange(0, si + 1), env_v))
                            == dedup_pairs(prefix_pairs) + Seq::<(Seq<char>, Seq<char>)>::empty());
                        assert(dedup_pairs(prefix_pairs) + Seq::<(Seq<char>, Seq<char>)>::empty()
                            =~= dedup_pairs(prefix_pairs));
                        lemma_snoc_to_set(prefix_pairs.push(q));
                        assert(prefix_pairs.push(q).drop_last() =~= prefix_pairs);
                        assert(prefix_pairs.to_set().insert(q) =~= prefix_pairs.to_set());
                        assert(pair_views(pairs@).to_set() =~= tp_pairs(
                            svs.subrange(0, si + 1),
                            env_v,
                        ).to_set());
                    }
                }
                implicated_files.insert(&canonical);
                proof {
                    lemma_add_paths_concat(m0_files, prefix_paths, seq![cv]);
                    assert(add_paths(add_paths(m0_files, prefix_paths), seq![cv]) == add_paths(
                        add_paths(m0_files, prefix_paths).insert(cv),
                        seq![cv].drop_first(),
                    ));
                    assert(seq![cv].drop_first() =~= Seq::<Seq<char>>::empty());
                    assert(implicated_files.model() == add_paths(
                        m0_files,
                        tp_paths(svs.subrange(0, si + 1), env_v),
                    ));
                }
                let origin = make_origin(diag_data, &final_primary_loc, feature_desc);
                proof {
                    assert(origin@ == o_model);
                }
                referencers.insert_origin(&canonical, origin);
                proof {
                    let ghost pref_origins = span_origin_pairs(prefix_paths, o_model);
                    assert(span_origin_pairs(tp_paths(svs.subrange(0, si + 1), env_v), o_model)
                        =~= pref_origins + seq![(cv, o_model)]);
                    lemma_add_origins_concat(m0_refs, pref_origins, seq![(cv, o_model)]);
                    assert(seq![(cv, o_model)].drop_first() =~= Seq::<
                        (Seq<char>, OriginModel),
                    >::empty());
                    let m1 = add_origins(m0_refs, pref_origins);
                    assert(seq![(cv, o_model)][0] == (cv, o_model));
                    assert(add_origins(m1, seq![(cv, o_model)]) == add_origins(
                        add_origin(m1, cv, o_model),
                        seq![(cv, o_model)].drop_first(),
                    ));
                    assert(add_origins(
                        add_origin(m1, cv, o_model),
                        Seq::<(Seq<char>, OriginModel)>::empty(),
                    ) == add_origin(m1, cv, o_model));
                    assert(referencers.model() == add_origins(
                        m0_refs,
                        span_origin_pairs(tp_paths(svs.subrange(0, si + 1), env_v), o_model),
                    ));
                }
            },
            _ => {
                proof {
                    assert(tp_pairs(svs.subrange(0, si + 1), env_v) =~= prefix_pairs);
                    assert(tp_paths(svs.subrange(0, si + 1), env_v) =~= prefix_paths);
                }
            },
        }
        si = si + 1;
    }
    proof {
        assert(svs.subrange(0, diag_data.spans@.len() as int) =~= svs);
    }
    let sorted_pairs = sort_pairs(&pairs);
    proof {
        assert(pair_views(sorted_pairs@) == implicated_of(svs, env_v));
    }
    let is_reportable = str_eq(diag_data.level.as_str(), "error") || str_eq(
        diag_data.level.as_str(),
        "warning",
    );
    let mut pushed = false;
    if is_reportable {
        match &diag_data.rendered {
            Option::Some(r) => {
                if !is_blank(r.as_str()) {
                    let rec = DisplayableDiagnostic {
                        level: diag_data.level.clone(),
                        code: clone_code(&diag_data.code),
                        code_explanation: clone_explanation(&diag_data.code),
                        rendered: trim_end(r.as_str()),
                        primary_location_of_diagnostic: final_primary_loc.clone(),
                        implicated_third_party_files_details: sorted_pairs,
                    };
                    proof {
                        assert(emits_record(nm.level, nm.rendered));
                        assert(rec@ == own_records(nm, env_v)[0]);
                    }
                    displayable_diagnostics.push(rec);
                    pushed = true;
                    proof {
                        assert(record_views(displayable_diagnostics@) =~= record_views(recs0)
                            + own_records(nm, env_v));
                    }
                }
            },
            Option::None => {},
        }
    }
    proof {
        if !pushed {
            assert(!emits_record(nm.level, nm.rendered));
            assert(own_records(nm, env_v) == Seq::<RecordModel>::empty());
            assert(record_views(displayable_diagnostics@) =~= record_views(recs0) + own_records(
                nm,
                env_v,
            ));
        }
    }
    let ghost m1_files = implicated_files.model();
    let ghost m1_refs = referencers.model();
    let ghost recs1 = displayable_diagnostics@;
    let mut ci: usize = 0;
    proof {
        crate::diag::lemma_node_models_index(diag_data.children@);
        assert(nm.children.len() == diag_data.children@.len());
        assert(nm.children.subrange(0, 0) =~= Seq::<NodeModel>::empty());
        assert(record_views(recs1) =~= record_views(recs1) + walk_records_seq(
            nm.children.subrange(0, 0),
            env_v,
        ));
        assert(m1_files == add_paths(m1_files, walk_paths_seq(nm.children.subrange(0, 0), env_v)));
        assert(m1_refs == add_origins(
            m1_refs,
            walk_origins_seq(nm.children.subrange(0, 0), env_v, feature_desc@),
        ));
    }
    while ci < diag_data.children.len()
        invariant
            0 <= ci <= diag_data.children@.len(),
            env_v == env@,
            nm == node_model(*diag_data),
            nm.children.len() == diag_data.children@.len(),
            implicated_files.wf(),
            referencers.wf(),
            record_views(displayable_diagnostics@) == record_views(recs1) + walk_records_seq(
                nm.children.subrange(0, ci as int),
                env_v,
            ),
            implicated_files.model() == add_paths(
                m1_files,
                walk_paths_seq(nm.children.subrange(0, ci as int), env_v),
            ),
            referencers.model() == add_origins(
                m1_refs,
                walk_origins_seq(nm.children.subrange(0, ci as int), env_v, feature_desc@),
            ),
        decreases diag_data.children@.len() - ci,
    {
        let ghost cpref = nm.children.subrange(0, ci as int);
        proof {
            assert(decreases_to!(*diag_data => diag_data.children@[ci as int]));
        }
        process_single_diagnostic_data(
            &diag_data.children[ci],
            displayable_diagnostics,
            implicated_files,
            referencers,
            env,
            feature_desc,
        );
        proof {
            crate::diag::lemma_node_models_index(diag_data.children@);
            let child = node_model(diag_data.children@[ci as int]);
            assert(nm.children[ci as int] == child);
            lemma_walk_seq_push(cpref, child, env_v, feature_desc@);
            assert(nm.children.subrange(0, ci + 1) =~= cpref.push(child));
            assert(record_views(displayable_diagnostics@) =~= record_views(recs1)
                + walk_records_seq(nm.children.subrange(0, ci + 1), env_v));
            lemma_add_paths_concat(m1_files, walk_paths_seq(cpref, env_v), walk_paths(
                child,
                env_v,
            ));
            lemma_add_origins_concat(
                m1_refs,
                walk_origins_seq(cpref, env_v, feature_desc@),
                walk_origins(child, env_v, feature_desc@),
            );
        }
        ci = ci + 1;
    }
    proof {
        assert(nm.children.subrange(0, nm.children.len() as int) =~= nm.children);
        assert(record_views(displayable_diagnostics@) =~= record_views(recs0) + walk_records(
            nm,
            env_v,
        ));
        lemma_add_paths_concat(m0_files, tp_paths(svs, env_v), walk_paths_seq(
            nm.children,
            env_v,
        ));
        lemma_add_origins_concat(
            m0_refs,
            span_origin_pairs(tp_paths(svs, env_v), o_model),
            walk_origins_seq(nm.children, env_v, feature_desc@),
        );
    }
}

/// The raw span file names of a span list, in order.
pub open spec fn span_files(spans: Seq<SpanModel>) -> Seq<Seq<char>>
    decreases spans.len(),
{
    if spans.len() == 0 {
        Seq::empty()
    } else {
        seq![spans[0].file_name] + span_files(spans.drop_first())
    }
}

/// Every raw span file name of a tree, in walk order, duplicates kept.
pub open spec fn tree_files(n: NodeModel) -> Seq<Seq<char>>
    decreases n,
{
    span_files(n.spans) + tree_files_seq(n.children)
}

pub open spec fn tree_files_seq(s: Seq<NodeModel>) -> Seq<Seq<char>>
    decreases s,
{
    if s.len() == 0 {
        Seq::empty()
    } else {
        tree_files(s[0]) + tree_files_seq(s.drop_first())
    }
}

pub proof fn lemma_span_files_push(spans: Seq<SpanModel>, x: SpanModel)
    ensures
        span_files(spans.push(x)) == span_files(spans).push(x.file_name),
    decreases spans.len(),
{
    if spans.len() == 0 {
        assert(spans.push(x)[0] == x);
        assert(spans.push(x).drop_first() =~= spans);
        assert(span_files(spans.push(x)) =~= span_files(spans).push(x.file_name));
    } else {
        lemma_span_files_push(spans.drop_first(), x);
        assert(spans.push(x)[0] == spans[0]);
        assert(spans.push(x).drop_first() =~= spans.drop_first().push(x));
        assert(span_files(spans.push(x)) =~= span_files(spans).push(x.file_name));
    }
}

pub proof fn lemma_tree_files_push(s: Seq<NodeModel>, x: NodeModel)
    ensures
        tree_files_seq(s.push(x)) == tree_files_seq(s) + tree_files(x),
    decreases s.len(),
{
    if s.len() == 0 {
        assert(s.push(x)[0] == x);
        assert(s.push(x).drop_first() =~= s);
        assert(tree_files_seq(s.push(x)) =~= tree_files_seq(s) + tree_files(x));
    } else {
        lemma_tree_files_push(s.drop_first(), x);
        assert(s.push(x)[0] == s[0]);
        assert(s.push(x).drop_first() =~= s.drop_first().push(x));
        assert(tree_files_seq(s.push(x)) =~= tree_files_seq(s) + tree_files(x));
    }
}

/// Gathers the raw span file names of one tree.
fn collect_node_paths(n: &RustcDiagnosticData, out: &mut Vec<String>)
    ensures
        string_views(final(out)@) == string_views(old(out)@) + tree_files(node_model(*n)),
    decreases *n,
{
    let ghost nm = node_model(*n);
    let ghost svs = span_views(n.spans@);
    let ghost out0 = out@;
    proof {
        assert(nm.spans == svs);
        assert(nm.children == node_models(n.children@));
    }
    let mut si: usize = 0;
    proof {
        assert(svs.subrange(0, 0) =~= Seq::<SpanModel>::empty());
        assert(string_views(out@) =~= string_views(out0) + span_files(svs.subrange(0, 0)));
    }
    while si < n.spans.len()
        invariant
            0 <= si <= n.spans@.len(),
            svs == span_views(n.spans@),
            string_views(out@) == string_views(out0) + span_files(svs.subrange(0, si as int)),
        decreases n.spans@.len() - si,
    {
        let ghost before = out@;
        out.push(n.spans[si].file_name.clone());
        proof {
            lemma_span_files_push(svs.subrange(0, si as int), svs[si as int]);
            assert(svs.subrange(0, si + 1) =~= svs.subrange(0, si as int).push(svs[si as int]));
            assert(string_views(out@) =~= string_views(before).push(svs[si as int].file_name));
            assert(string_views(out@) =~= string_views(out0) + span_files(
                svs.subrange(0, si + 1),
            ));
        }
        si = si + 1;
    }
    proof {
        assert(svs.subrange(0, n.spans@.len() as int) =~= svs);
    }
    let ghost out1 = out@;
    let mut ci: usize = 0;
    proof {
        crate::diag::lemma_node_models_index(n.children@);
        assert(nm.children.len() == n.children@.len());
        assert(nm.children.subrange(0, 0) =~= Seq::<NodeModel>::empty());
        assert(string_views(out@) =~= string_views(out1) + tree_files_seq(
            nm.children.subrange(0, 0),
        ));
    }
    while ci < n.children.len()
        invariant
            0 <= ci <= n.children@.len(),
            nm == node_model(*n),
            nm.children.len() == n.children@.len(),
            string_views(out@) == string_views(out1) + tree_files_seq(
                nm.children.subrange(0, ci as int),
            ),
        decreases n.children@.len() - ci,
    {
        let ghost cpref = nm.children.subrange(0, ci as int);
        proof {
            assert(decreases_to!(*n => n.children@[ci as int]));
        }
        collect_node_paths(&n.children[ci], out);
        proof {
            crate::diag::lemma_node_models_index(n.children@);
            let child = node_model(n.children@[ci as int]);
            assert(nm.children[ci as int] == child);
            lemma_tree_files_push(cpref, child);
            assert(nm.children.subrange(0, ci + 1) =~= cpref.push(child));
            assert(string_views(out@) =~= string_views(out1) + tree_files_seq(
                nm.children.subrange(0, ci + 1),
            ));
        }
        ci = ci + 1;
    }
    proof {
        assert(nm.children.subrange(0, nm.children.len() as int) =~= nm.children);
        assert(string_views(out@) =~= string_views(out0) + tree_files(nm));
    }
}

/// Gathers every raw span file name of one probe's trees, so that the
/// caller can resolve them against the file system before the walk.
pub fn collect_span_paths(trees: &Vec<RustcDiagnosticData>) -> (r: Vec<String>)
    ensures
        string_views(r@) == tree_files_seq(node_models(trees@)),
{
    let ghost tms = node_models(trees@);
    let mut out: Vec<String> = Vec::new();
    let mut i: usize = 0;
    proof {
        crate::diag::lemma_node_models_index(trees@);
        assert(tms.subrange(0, 0) =~= Seq::<NodeModel>::empty());
        assert(string_views(out@) =~= tree_files_seq(tms.subrange(0, 0)));
    }
    while i < trees.len()
        invariant
            0 <= i <= trees@.len(),
            tms == node_models(trees@),
            tms.len() == trees@.len(),
            string_views(out@) == tree_files_seq(tms.subrange(0, i as int)),
        decreases trees@.len() - i,
    {
        let ghost tpref = tms.subrange(0, i as int);
        collect_node_paths(&trees[i], &mut out);
        proof {
            crate::diag::lemma_node_models_index(trees@);
            let tree = node_model(trees@[i as int]);
            assert(tms[i as int] == tree);
            lemma_tree_files_push(tpref, tree);
            assert(tms.subrange(0, i + 1) =~= tpref.push(tree));
        }
        i = i + 1;
    }
    proof {
        assert(tms.subrange(0, tms.len() as int) =~= tms);
    }
    out
}

/// Walks every diagnostic tree of one probe, in stream order.
pub fn walk_probe(
    trees: &Vec<RustcDiagnosticData>,
    displayable_diagnostics: &mut Vec<DisplayableDiagnostic>,
    implicated_files: &mut ImplicatedFileSet,
    referencers: &mut BackrefIndex,
    env: &Environment,
    feature_desc: &str,
)
    requires
        old(implicated_files).wf(),
        old(referencers).wf(),
    ensures
        final(implicated_files).wf(),
        final(referencers).wf(),
        record_views(final(displayable_diagnostics)@) == record_views(
            old(displayable_diagnostics)@,
        ) + walk_records_seq(node_models(trees@), env@),
        final(implicated_files).model() == add_paths(
            old(implicated_files).model(),
            walk_paths_seq(node_models(trees@), env@),
        ),
        final(referencers).model() == add_origins(
            old(referencers).model(),
            walk_origins_seq(node_models(trees@), env@, feature_desc@),
        ),
{
    let ghost tms = node_models(trees@);
    let ghost env_v = env@;
    let ghost recs0 = displayable_diagnostics@;
    let ghost m0_files = implicated_files.model();
    let ghost m0_refs = referencers.model();
    let mut i: usize = 0;
    proof {
        crate::diag::lemma_node_models_index(trees@);
        assert(tms.subrange(0, 0) =~= Seq::<NodeModel>::empty());
        assert(record_views(recs0) =~= record_views(recs0) + walk_records_seq(
            tms.subrange(0, 0),
            env_v,
        ));
        assert(m0_files == add_paths(m0_files, walk_paths_seq(tms.subrange(0, 0), env_v)));
        assert(m0_refs == add_origins(
            m0_refs,
            walk_origins_seq(tms.subrange(0, 0), env_v, feature_desc@),
        ));
    }
    while i < trees.len()
        invariant
            0 <= i <= trees@.len(),
            tms == node_models(trees@),
            tms.len() == trees@.len(),
            env_v == env@,
            implicated_files.wf(),
            referencers.wf(),
            record_views(displayable_diagnostics@) == record_views(recs0) + walk_records_seq(
                tms.subrange(0, i as int),
                env_v,
            ),
            implicated_files.model() == add_paths(
                m0_files,
                walk_paths_seq(tms.subrange(0, i as int), env_v),
            ),
            referencers.model() == add_origins(
                m0_refs,
                walk_origins_seq(tms.subrange(0, i as int), env_v, feature_desc@),
            ),
        decreases trees@.len() - i,
    {
        let ghost tpref = tms.subrange(0, i as int);
        process_single_diagnostic_data(
            &trees[i],
            displayable_diagnostics,
            implicated_files,
            referencers,
            env,
            feature_desc,
        );
        proof {
            crate::diag::lemma_node_models_index(trees@);
            let tree = node_model(trees@[i as int]);
            assert(tms[i as int] == tree);
            lemma_walk_seq_push(tpref, tree, env_v, feature_desc@);
            assert(tms.subrange(0, i + 1) =~= tpref.push(tree));
            assert(record_views(displayable_diagnostics@) =~= record_views(recs0)
                + walk_records_seq(tms.subrange(0, i + 1), env_v));
            lemma_add_paths_concat(m0_files, walk_paths_seq(tpref, env_v), walk_paths(
                tree,
                env_v,
            ));
            lemma_add_origins_concat(
                m0_refs,
                walk_origins_seq(tpref, env_v, feature_desc@),
                walk_origins(tree, env_v, feature_desc@),
            );
        }
        i = i + 1;
    }
    proof {
        assert(tms.subrange(0, tms.len() as int) =~= tms);
    }
}

} // verus!
