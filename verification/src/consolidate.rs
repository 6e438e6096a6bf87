//! Cross-run consolidator: merges every probe's records into deduplicated
//! aggregated diagnostics keyed by their identity — level, code, primary
//! location, rendered text and implicated-file list — collects the first
//! non-empty explanation per error code, and orders the final data set
//! deterministically.

use vstd::prelude::*;

use crate::classify::Environment;
use crate::diag::opt_view;
use crate::diag::pair_views;
use crate::diag::DisplayableDiagnostic;
use crate::diag::RecordModel;
use crate::text::contains_string;
use crate::text::is_blank;
use crate::text::lex_lt;
use crate::text::str_eq;
use crate::text::string_views;
use crate::walker::lemma_snoc_to_set;

verus! {

/// The identity of a logical diagnostic: the fields whose equality merges
/// two occurrences. The implicated-file list takes part structurally, so
/// identical text with different implicated files never merges, and
/// values containing a separator character cannot collide.
pub struct KeyModel {
    pub level: Seq<char>,
    pub code: Option<Seq<char>>,
    pub primary_location: Seq<char>,
    pub rendered_message: Seq<char>,
    pub implicated: Seq<(Seq<char>, Seq<char>)>,
}

pub open spec fn record_key(r: RecordModel) -> KeyModel {
    KeyModel {
        level: r.level,
        code: r.code,
        primary_location: r.primary_location,
        rendered_message: r.rendered,
        implicated: r.implicated,
    }
}

/// One logical diagnostic merged across configurations: the identity
/// fields are fixed at first insertion; the descriptor set only grows.
pub struct AggregatedDiagnosticInstance {
    pub level: String,
    pub code: Option<String>,
    pub rendered_message: String,
    pub primary_location: String,
    pub implicated_third_party_files_details: Vec<(String, String)>,
    pub feature_set_descriptors: Vec<String>,
}

pub struct AggregatedModel {
    pub level: Seq<char>,
    pub code: Option<Seq<char>>,
    pub rendered_message: Seq<char>,
    pub primary_location: Seq<char>,
    pub implicated: Seq<(Seq<char>, Seq<char>)>,
    pub feature_set_descriptors: Set<Seq<char>>,
}

impl View for AggregatedDiagnosticInstance {
    type V = AggregatedModel;

    open spec fn view(&self) -> AggregatedModel {
        AggregatedModel {
            level: self.level@,
            code: opt_view(self.code),
            rendered_message: self.rendered_message@,
            primary_location: self.primary_location@,
            implicated: pair_views(self.implicated_third_party_files_details@),
            feature_set_descriptors: string_views(self.feature_set_descriptors@).to_set(),
        }
    }
}

pub open spec fn agg_key(a: AggregatedModel) -> KeyModel {
    KeyModel {
        level: a.level,
        code: a.code,
        primary_location: a.primary_location,
        rendered_message: a.rendered_message,
        implicated: a.implicated,
    }
}

/// The aggregate views of an aggregate vector.
pub open spec fn agg_views(v: Seq<AggregatedDiagnosticInstance>) -> Seq<AggregatedModel> {
    v.map_values(|a: AggregatedDiagnosticInstance| a@)
}

/// A fresh aggregate made from one record under one configuration.
pub open spec fn agg_of_record(r: RecordModel, d: Seq<char>) -> AggregatedModel {
    AggregatedModel {
        level: r.level,
        code: r.code,
        rendered_message: r.rendered,
        primary_location: r.primary_location,
        implicated: r.implicated,
        feature_set_descriptors: Set::empty().insert(d),
    }
}

/// An aggregate with one more configuration descriptor.
pub open spec fn agg_with_desc(a: AggregatedModel, d: Seq<char>) -> AggregatedModel {
    AggregatedModel { feature_set_descriptors: a.feature_set_descriptors.insert(d), ..a }
}

/// The first aggregate with the given key, or the length when none
/// matches.
pub open spec fn find_key(aggs: Seq<AggregatedModel>, k: KeyModel) -> int
    decreases aggs.len(),
{
    if aggs.len() == 0 {
        0
    } else if agg_key(aggs[0]) == k {
        0
    } else {
        1 + find_key(aggs.drop_first(), k)
    }
}

pub proof fn lemma_find_key(aggs: Seq<AggregatedModel>, k: KeyModel)
    ensures
        0 <= find_key(aggs, k) <= aggs.len(),
        forall|j: int| 0 <= j < find_key(aggs, k) ==> agg_key(#[trigger] aggs[j]) != k,
        find_key(aggs, k) < aggs.len() ==> agg_key(aggs[find_key(aggs, k)]) == k,
    decreases aggs.len(),
{
    if aggs.len() > 0 && agg_key(aggs[0]) != k {
        lemma_find_key(aggs.drop_first(), k);
        assert forall|j: int| 0 <= j < find_key(aggs, k) implies agg_key(#[trigger] aggs[j])
            != k by {
            if j > 0 {
                assert(aggs[j] == aggs.drop_first()[j - 1]);
            }
        }
        if find_key(aggs, k) < aggs.len() {
            assert(aggs[find_key(aggs, k)] == aggs.drop_first()[find_key(aggs.drop_first(), k)]);
        }
    }
}

/// Folding one record into the aggregates: the matching aggregate gains
/// the configuration descriptor; a record with a new identity opens a
/// fresh aggregate carrying it.
pub open spec fn consolidate_spec(
    aggs: Seq<AggregatedModel>,
    r: RecordModel,
    d: Seq<char>,
) -> Seq<AggregatedModel> {
    let i = find_key(aggs, record_key(r));
    if i < aggs.len() {
        aggs.update(i, agg_with_desc(aggs[i], d))
    } else {
        aggs.push(agg_of_record(r, d))
    }
}

/// No two aggregates share an identity key.
pub open spec fn unique_keys(aggs: Seq<AggregatedModel>) -> bool {
    forall|i: int, j: int|
        0 <= i < j < aggs.len() ==> agg_key(#[trigger] aggs[i]) != agg_key(#[trigger] aggs[j])
}

/// Consolidation keeps identity keys unique, never drops an aggregate,
/// and leaves every aggregate's identity unchanged.
pub proof fn lemma_consolidate_keys(aggs: Seq<AggregatedModel>, r: RecordModel, d: Seq<char>)
    requires
        unique_keys(aggs),
    ensures
        unique_keys(consolidate_spec(aggs, r, d)),
        consolidate_spec(aggs, r, d).len() >= aggs.len(),
        forall|i: int|
            0 <= i < consolidate_spec(aggs, r, d).len() ==> (if i < aggs.len() {
                agg_key(#[trigger] consolidate_spec(aggs, r, d)[i]) == agg_key(aggs[i])
            } else {
                agg_key(consolidate_spec(aggs, r, d)[i]) == record_key(r)
            }),
{
    lemma_find_key(aggs, record_key(r));
}

/// Descriptor sets are append-only and never empty: consolidation keeps
/// every descriptor an aggregate already carries, and every aggregate
/// carries at least one.
pub proof fn lemma_descriptors_grow(aggs: Seq<AggregatedModel>, r: RecordModel, d: Seq<char>)
    requires
        forall|i: int|
            0 <= i < aggs.len() ==> (#[trigger] aggs[i]).feature_set_descriptors != Set::<
                Seq<char>,
            >::empty(),
    ensures
        consolidate_spec(aggs, r, d).len() >= aggs.len(),
        forall|i: int|
            0 <= i < aggs.len() ==> (#[trigger] aggs[i]).feature_set_descriptors.subset_of(
                consolidate_spec(aggs, r, d)[i].feature_set_descriptors,
            ),
        forall|i: int|
            0 <= i < consolidate_spec(aggs, r, d).len() ==> (#[trigger] consolidate_spec(
                aggs,
                r,
                d,
            )[i]).feature_set_descriptors != Set::<Seq<char>>::empty(),
{
    lemma_find_key(aggs, record_key(r));
    let out = consolidate_spec(aggs, r, d);
    assert forall|i: int| 0 <= i < out.len() implies (
    #[trigger] out[i]).feature_set_descriptors != Set::<Seq<char>>::empty() by {
        assert(out[i].feature_set_descriptors.contains(d) || out[i].feature_set_descriptors
            == aggs[i].feature_set_descriptors);
        if out[i].feature_set_descriptors.contains(d) {
            assert(!Set::<Seq<char>>::empty().contains(d));
        }
    }
}

/// The first non-empty explanation seen for each code.
pub open spec fn expl_model(entries: Seq<(String, String)>) -> Map<Seq<char>, Seq<char>>
    decreases entries.len(),
{
    if entries.len() == 0 {
        Map::empty()
    } else {
        expl_model(entries.drop_last()).insert(entries.last().0@, entries.last().1@)
    }
}

/// The code texts of the explanation entries.
pub open spec fn expl_codes(entries: Seq<(String, String)>) -> Seq<Seq<char>> {
    entries.map_values(|e: (String, String)| e.0@)
}

pub proof fn lemma_expl_dom(entries: Seq<(String, String)>)
    ensures
        expl_model(entries).dom() == expl_codes(entries).to_set(),
    decreases entries.len(),
{
    if entries.len() == 0 {
        assert(expl_model(entries).dom() =~= expl_codes(entries).to_set());
    } else {
        lemma_expl_dom(entries.drop_last());
        assert(expl_codes(entries).len() > 0);
        lemma_snoc_to_set(expl_codes(entries));
        assert(expl_codes(entries).drop_last() =~= expl_codes(entries.drop_last()));
        assert(expl_codes(entries).last() == entries.last().0@);
        assert(expl_model(entries).dom() =~= expl_codes(entries).to_set());
    }
}

/// Registering one record's explanation: the first non-blank explanation
/// for a code is kept, later ones are ignored.
pub open spec fn register_expl_spec(
    m: Map<Seq<char>, Seq<char>>,
    code: Option<Seq<char>>,
    expl: Option<Seq<char>>,
) -> Map<Seq<char>, Seq<char>> {
    match (code, expl) {
        (Option::Some(c), Option::Some(e)) => if !crate::text::is_blank_text(e)
            && !m.dom().contains(c) {
            m.insert(c, e)
        } else {
            m
        },
        _ => m,
    }
}

/// Tests two optional strings for equality of their texts.
fn opt_str_eq(a: &Option<String>, b: &Option<String>) -> (r: bool)
    ensures
        r == (opt_view(*a) == opt_view(*b)),
{
    match (a, b) {
        (Option::Some(x), Option::Some(y)) => str_eq(x.as_str(), y.as_str()),
        (Option::None, Option::None) => true,
        _ => false,
    }
}

/// Tests two pair vectors for equality of their texts.
fn pairs_eq(a: &Vec<(String, String)>, b: &Vec<(String, String)>) -> (r: bool)
    ensures
        r == (pair_views(a@) == pair_views(b@)),
{
    if a.len() != b.len() {
        proof {
            assert(pair_views(a@).len() != pair_views(b@).len());
        }
        return false;
    }
    let mut i: usize = 0;
    while i < a.len()
        invariant
            0 <= i <= a@.len(),
            a@.len() == b@.len(),
            forall|k: int|
                0 <= k < i ==> ((#[trigger] a@[k]).0@, a@[k].1@) == ((b@[k]).0@, (b@[k]).1@),
        decreases a@.len() - i,
    {
        if !str_eq(a[i].0.as_str(), b[i].0.as_str()) || !str_eq(a[i].1.as_str(), b[i].1.as_str())
        {
            proof {
                assert(pair_views(a@)[i as int] != pair_views(b@)[i as int]);
            }
            return false;
        }
        i = i + 1;
    }
    proof {
        assert forall|k: int| 0 <= k < pair_views(a@).len() implies #[trigger] pair_views(a@)[k]
            == pair_views(b@)[k] by {
            assert(pair_views(a@)[k] == (a@[k].0@, a@[k].1@));
            assert(pair_views(b@)[k] == (b@[k].0@, b@[k].1@));
        }
        assert(pair_views(a@) =~= pair_views(b@));
    }
    true
}

/// Tests whether a record's identity matches an aggregate's.
fn record_matches_agg(rec: &DisplayableDiagnostic, agg: &AggregatedDiagnosticInstance) -> (r:
    bool)
    ensures
        r == (record_key(rec@) == agg_key(agg@)),
{
    let r = str_eq(rec.level.as_str(), agg.level.as_str()) && opt_str_eq(&rec.code, &agg.code)
        && str_eq(
        rec.primary_location_of_diagnostic.as_str(),
        agg.primary_location.as_str(),
    ) && str_eq(rec.rendered.as_str(), agg.rendered_message.as_str()) && pairs_eq(
        &rec.implicated_third_party_files_details,
        &agg.implicated_third_party_files_details,
    );
    proof {
        if r {
            assert(record_key(rec@) == agg_key(agg@));
        } else {
            assert(record_key(rec@) != agg_key(agg@));
        }
    }
    r
}

/// Copies a pair vector.
fn clone_pairs(v: &Vec<(String, String)>) -> (r: Vec<(String, String)>)
    ensures
        pair_views(r@) == pair_views(v@),
{
    let mut r: Vec<(String, String)> = Vec::new();
    let mut i: usize = 0;
    while i < v.len()
        invariant
            0 <= i <= v@.len(),
            r@.len() == i,
            forall|k: int|
                0 <= k < i ==> ((#[trigger] r@[k]).0@, r@[k].1@) == ((v@[k]).0@, (v@[k]).1@),
        decreases v@.len() - i,
    {
        r.push((v[i].0.clone(), v[i].1.clone()));
        i = i + 1;
    }
    proof {
        assert forall|k: int| 0 <= k < pair_views(r@).len() implies #[trigger] pair_views(r@)[k]
            == pair_views(v@)[k] by {
            assert(pair_views(r@)[k] == (r@[k].0@, r@[k].1@));
            assert(pair_views(v@)[k] == (v@[k].0@, v@[k].1@));
        }
        assert(pair_views(r@) =~= pair_views(v@));
    }
    r
}

impl AggregatedDiagnosticInstance {
    /// No configuration descriptor is held twice.
    pub open spec fn wf(&self) -> bool {
        forall|i: int, j: int|
            0 <= i < j < self.feature_set_descriptors@.len() ==> (
            #[trigger] self.feature_set_descriptors@[i])@ != (
            #[trigger] self.feature_set_descriptors@[j])@
    }

    /// Opens a fresh aggregate from one record under one configuration.
    pub fn new(diag_disp: &DisplayableDiagnostic, feature_desc: &str) -> (r: Self)
        ensures
            r@ == agg_of_record(diag_disp@, feature_desc@),
            r.wf(),
    {
        let mut descs: Vec<String> = Vec::new();
        descs.push(String::from_str(feature_desc));
        let r = AggregatedDiagnosticInstance {
            level: diag_disp.level.clone(),
            code: match &diag_disp.code {
                Option::Some(c) => Option::Some(c.clone()),
                Option::None => Option::None,
            },
            rendered_message: diag_disp.rendered.clone(),
            primary_location: diag_disp.primary_location_of_diagnostic.clone(),
            implicated_third_party_files_details: clone_pairs(
                &diag_disp.implicated_third_party_files_details,
            ),
            feature_set_descriptors: descs,
        };
        proof {
            assert(string_views(r.feature_set_descriptors@) =~= seq![feature_desc@]);
            assert forall|x: Seq<char>| seq![feature_desc@].to_set().contains(x) <==> x
                == feature_desc@ by {
                if seq![feature_desc@].contains(x) {
                    let w = choose|w: int| 0 <= w < 1 && seq![feature_desc@][w] == x;
                    assert(x == feature_desc@);
                }
                if x == feature_desc@ {
                    assert(seq![feature_desc@][0] == x);
                }
            }
            assert(string_views(r.feature_set_descriptors@).to_set() =~= Set::<
                Seq<char>,
            >::empty().insert(feature_desc@));
        }
        r
    }
}

/// The synthetic record standing in for a probe that could not run or
/// whose output could not be decoded at all.
pub open spec fn tool_error_model(desc: Seq<char>, err: Seq<char>) -> RecordModel {
    RecordModel {
        level: "TOOL_ERROR"@,
        code: Option::None,
        code_explanation: Option::None,
        rendered: "Error running cargo check with configuration '"@ + desc + "': "@ + err,
        primary_location: "N/A"@,
        implicated: Seq::empty(),
    }
}

/// Builds the synthetic record of a failed probe.
pub fn tool_error_diagnostic(feature_desc: &str, error_text: &str) -> (r: DisplayableDiagnostic)
    ensures
        r@ == tool_error_model(feature_desc@, error_text@),
{
    let mut rendered = String::from_str("Error running cargo check with configuration '");
    rendered.append(feature_desc);
    rendered.append("': ");
    rendered.append(error_text);
    let r = DisplayableDiagnostic {
        level: String::from_str("TOOL_ERROR"),
        code: Option::None,
        code_explanation: Option::None,
        rendered,
        primary_location_of_diagnostic: String::from_str("N/A"),
        implicated_third_party_files_details: Vec::new(),
    };
    proof {
        assert(pair_views(r.implicated_third_party_files_details@) =~= Seq::<
            (Seq<char>, Seq<char>),
        >::empty());
        assert(r@.rendered =~= tool_error_model(feature_desc@, error_text@).rendered);
    }
    r
}

/// The session-wide accumulators that survive across probes: the
/// consolidated diagnostics, the first explanation per code, the global
/// implicated-file set and the file back-reference index.
pub struct SessionState {
    pub consolidated: Vec<AggregatedDiagnosticInstance>,
    pub unique_explanations: Vec<(String, String)>,
    pub global_files: crate::walker::ImplicatedFileSet,
    pub referencers: crate::walker::BackrefIndex,
}

impl SessionState {
    pub open spec fn wf(&self) -> bool {
        &&& unique_keys(agg_views(self.consolidated@))
        &&& forall|k: int|
            0 <= k < self.consolidated@.len() ==> (#[trigger] self.consolidated@[k]).wf()
        &&& forall|i: int, j: int|
            0 <= i < j < self.unique_explanations@.len() ==> (
            #[trigger] self.unique_explanations@[i]).0@ != (
            #[trigger] self.unique_explanations@[j]).0@
        &&& self.global_files.wf()
        &&& self.referencers.wf()
    }

    pub fn new() -> (r: SessionState)
        ensures
            r.wf(),
            agg_views(r.consolidated@) == Seq::<AggregatedModel>::empty(),
            expl_model(r.unique_explanations@) == Map::<Seq<char>, Seq<char>>::empty(),
            r.global_files.model() == Set::<Seq<char>>::empty(),
            r.referencers.model() == Map::<Seq<char>, Set<crate::walker::OriginModel>>::empty(),
    {
        let r = SessionState {
            consolidated: Vec::new(),
            unique_explanations: Vec::new(),
            global_files: crate::walker::ImplicatedFileSet::new(),
            referencers: crate::walker::BackrefIndex::new(),
        };
        proof {
            assert(agg_views(r.consolidated@) =~= Seq::<AggregatedModel>::empty());
        }
        r
    }

    /// Folds one record from one probe into the session: the explanation
    /// table keeps the first non-blank explanation per code, and the
    /// record merges into the aggregate of its identity.
    pub fn consolidate_record(&mut self, diag_disp: &DisplayableDiagnostic, feature_desc: &str)
        requires
            old(self).wf(),
        ensures
            final(self).wf(),
            agg_views(final(self).consolidated@) == consolidate_spec(
                agg_views(old(self).consolidated@),
                diag_disp@,
                feature_desc@,
            ),
            expl_model(final(self).unique_explanations@) == register_expl_spec(
                expl_model(old(self).unique_explanations@),
                diag_disp@.code,
                diag_disp@.code_explanation,
            ),
            final(self).global_files == old(self).global_files,
            final(self).referencers == old(self).referencers,
    {
        self.register_explanation(diag_disp);
        let ghost mid_state = *self;
        let ghost avs = agg_views(self.consolidated@);
        let ghost key = record_key(diag_disp@);
        proof {
            lemma_find_key(avs, key);
        }
        let mut k: usize = 0;
        let n = self.consolidated.len();
        let mut found = false;
        while k < n && !found
            invariant
                0 <= k <= n,
                *self == mid_state,
                self.wf(),
                n == self.consolidated@.len(),
                avs == agg_views(self.consolidated@),
                key == record_key(diag_disp@),
                !found ==> forall|j: int| 0 <= j < k ==> agg_key(#[trigger] avs[j]) != key,
                found ==> k < n && agg_key(avs[k as int]) == key && forall|j: int|
                    0 <= j < k ==> agg_key(#[trigger] avs[j]) != key,
            decreases n - k + (if found {
                0int
            } else {
                1int
            }),
        {
            proof {
                assert(avs[k as int] == self.consolidated@[k as int]@);
            }
            if record_matches_agg(diag_disp, &self.consolidated[k]) {
                found = true;
            } else {
                k = k + 1;
            }
        }
        if found {
            proof {
                if find_key(avs, key) < k {
                    assert(agg_key(avs[find_key(avs, key)]) != key);
                }
                assert(find_key(avs, key) == k as int);
            }
            let ghost old_entries = self.consolidated@;
            let mut a = self.consolidated.remove(k);
            let ghost a0 = a;
            let present = contains_string(&a.feature_set_descriptors, feature_desc);
            if !present {
                let ghost old_descs = a.feature_set_descriptors@;
                a.feature_set_descriptors.push(String::from_str(feature_desc));
                proof {
                    assert(string_views(a.feature_set_descriptors@) =~= string_views(
                        old_descs,
                    ).push(feature_desc@));
                    lemma_snoc_to_set(string_views(old_descs).push(feature_desc@));
                    assert(string_views(old_descs).push(feature_desc@).drop_last()
                        =~= string_views(old_descs));
                    assert forall|i: int, j: int|
                        0 <= i < j < a.feature_set_descriptors@.len() implies (
                    #[trigger] a.feature_set_descriptors@[i])@ != (
                    #[trigger] a.feature_set_descriptors@[j])@ by {
                        if j < a.feature_set_descriptors@.len() - 1 {
                            assert(a.feature_set_descriptors@[i] == old_descs[i]);
                            assert(a.feature_set_descriptors@[j] == old_descs[j]);
                        } else {
                            assert(a.feature_set_descriptors@[i] == old_descs[i]);
                            if old_descs[i]@ == feature_desc@ {
                                assert(string_views(old_descs)[i] == feature_desc@);
                            }
                        }
                    }
                }
            } else {
                proof {
                    assert(string_views(a0.feature_set_descriptors@).to_set().contains(
                        feature_desc@,
                    ));
                    assert(string_views(a0.feature_set_descriptors@).to_set().insert(
                        feature_desc@,
                    ) =~= string_views(a0.feature_set_descriptors@).to_set());
                }
            }
            self.consolidated.insert(k, a);
            proof {
                assert(self.consolidated@ =~= old_entries.update(
                    k as int,
                    self.consolidated@[k as int],
                ));
                assert(self.consolidated@[k as int]@ == agg_with_desc(
                    old_entries[k as int]@,
                    feature_desc@,
                ));
                assert forall|i: int| 0 <= i < self.consolidated@.len() implies (
                #[trigger] self.consolidated@[i])@ == consolidate_spec(
                    avs,
                    diag_disp@,
                    feature_desc@,
                )[i] by {
                    assert(consolidate_spec(avs, diag_disp@, feature_desc@) == avs.update(
                        k as int,
                        agg_with_desc(avs[k as int], feature_desc@),
                    ));
                    if i != k {
                        assert(self.consolidated@[i] == old_entries[i]);
                        assert(avs[i] == old_entries[i]@);
                    } else {
                        assert(avs[i] == old_entries[i]@);
                    }
                }
                assert(agg_views(self.consolidated@) =~= consolidate_spec(
                    avs,
                    diag_disp@,
                    feature_desc@,
                ));
                assert forall|i: int, j: int|
                    0 <= i < j < agg_views(self.consolidated@).len() implies agg_key(
                    #[trigger] agg_views(self.consolidated@)[i],
                ) != agg_key(#[trigger] agg_views(self.consolidated@)[j]) by {
                    assert(agg_views(self.consolidated@)[i] == self.consolidated@[i]@);
                    assert(agg_views(self.consolidated@)[j] == self.consolidated@[j]@);
                    assert(avs[i] == old_entries[i]@);
                    assert(avs[j] == old_entries[j]@);
                    assert(agg_key(avs[i]) != agg_key(avs[j]));
                }
                assert forall|q: int| 0 <= q < self.consolidated@.len() implies (
                #[trigger] self.consolidated@[q]).wf() by {
                    if q != k {
                        assert(self.consolidated@[q] == old_entries[q]);
                    }
                }
            }
        } else {
            proof {
                if find_key(avs, key) < avs.len() {
                    assert(agg_key(avs[find_key(avs, key)]) != key);
                }
                assert(find_key(avs, key) == avs.len());
            }
            let ghost old_entries = self.consolidated@;
            let fresh = AggregatedDiagnosticInstance::new(diag_disp, feature_desc);
            self.consolidated.push(fresh);
            proof {
                assert forall|i: int| 0 <= i < self.consolidated@.len() implies (
                #[trigger] self.consolidated@[i])@ == consolidate_spec(
                    avs,
                    diag_disp@,
                    feature_desc@,
                )[i] by {
                    assert(consolidate_spec(avs, diag_disp@, feature_desc@) == avs.push(
                        agg_of_record(diag_disp@, feature_desc@),
                    ));
                    if i < self.consolidated@.len() - 1 {
                        assert(self.consolidated@[i] == old_entries[i]);
                        assert(avs[i] == old_entries[i]@);
                    }
                }
                assert(agg_views(self.consolidated@) =~= consolidate_spec(
                    avs,
                    diag_disp@,
                    feature_desc@,
                ));
                assert forall|i: int, j: int|
                    0 <= i < j < agg_views(self.consolidated@).len() implies agg_key(
                    #[trigger] agg_views(self.consolidated@)[i],
                ) != agg_key(#[trigger] agg_views(self.consolidated@)[j]) by {
                    assert(agg_views(self.consolidated@)[i] == self.consolidated@[i]@);
                    assert(agg_views(self.consolidated@)[j] == self.consolidated@[j]@);
                    if j < self.consolidated@.len() - 1 {
                        assert(avs[i] == old_entries[i]@);
                        assert(avs[j] == old_entries[j]@);
                        assert(agg_key(avs[i]) != agg_key(avs[j]));
                    } else {
                        assert(avs[i] == old_entries[i]@);
                        assert(agg_key(avs[i]) != key);
                        assert(agg_key(agg_of_record(diag_disp@, feature_desc@)) == key);
                    }
                }
                assert forall|q: int| 0 <= q < self.consolidated@.len() implies (
                #[trigger] self.consolidated@[q]).wf() by {
                    if q < self.consolidated@.len() - 1 {
                        assert(self.consolidated@[q] == old_entries[q]);
                    }
                }
            }
        }
    }

    /// Keeps the first non-blank explanation seen for the record's code.
    fn register_explanation(&mut self, diag_disp: &DisplayableDiagnostic)
        requires
            old(self).wf(),
        ensures
            final(self).wf(),
            final(self).consolidated == old(self).consolidated,
            final(self).global_files == old(self).global_files,
            final(self).referencers == old(self).referencers,
            expl_model(final(self).unique_explanations@) == register_expl_spec(
                expl_model(old(self).unique_explanations@),
                diag_disp@.code,
                diag_disp@.code_explanation,
            ),
    {
        match (&diag_disp.code, &diag_disp.code_explanation) {
            (Option::Some(code), Option::Some(expl)) => {
                if !is_blank(expl.as_str()) {
                    let mut j: usize = 0;
                    let n = self.unique_explanations.len();
                    while j < n
                        invariant
                            0 <= j <= n,
                            *self == *old(self),
                            old(self).wf(),
                            diag_disp@.code == Option::Some(code@),
                            n == self.unique_explanations@.len(),
                            forall|i: int|
                                0 <= i < j ==> (#[trigger] self.unique_explanations@[i]).0@
                                    != code@,
                        decreases n - j,
                    {
                        if str_eq(self.unique_explanations[j].0.as_str(), code.as_str()) {
                            proof {
                                lemma_expl_dom(self.unique_explanations@);
                                assert(expl_codes(self.unique_explanations@)[j as int] == code@);
                                assert(expl_model(self.unique_explanations@).dom().contains(
                                    code@,
                                ));
                            }
                            return ;
                        }
                        j = j + 1;
                    }
                    proof {
                        lemma_expl_dom(self.unique_explanations@);
                        if expl_codes(self.unique_explanations@).contains(code@) {
                            let w = choose|w: int|
                                0 <= w < expl_codes(self.unique_explanations@).len()
                                    && expl_codes(self.unique_explanations@)[w] == code@;
                            assert(self.unique_explanations@[w].0@ == code@);
                        }
                        assert(!expl_model(self.unique_explanations@).dom().contains(code@));
                    }
                    let ghost old_entries = self.unique_explanations@;
                    self.unique_explanations.push((code.clone(), expl.clone()));
                    proof {
                        assert(self.unique_explanations@.drop_last() =~= old_entries);
                        assert forall|i: int, j2: int|
                            0 <= i < j2 < self.unique_explanations@.len() implies (
                        #[trigger] self.unique_explanations@[i]).0@ != (
                        #[trigger] self.unique_explanations@[j2]).0@ by {
                            if j2 < self.unique_explanations@.len() - 1 {
                                assert(self.unique_explanations@[i] == old_entries[i]);
                                assert(self.unique_explanations@[j2] == old_entries[j2]);
                            } else {
                                assert(self.unique_explanations@[i] == old_entries[i]);
                            }
                        }
                    }
                }
            },
            _ => {},
        }
    }
}

/// Folding a whole probe's records into the aggregates, in order.
pub open spec fn consolidate_all(
    aggs: Seq<AggregatedModel>,
    rs: Seq<RecordModel>,
    d: Seq<char>,
) -> Seq<AggregatedModel>
    decreases rs.len(),
{
    if rs.len() == 0 {
        aggs
    } else {
        consolidate_all(consolidate_spec(aggs, rs[0], d), rs.drop_first(), d)
    }
}

/// Registering a whole probe's explanations, in order.
pub open spec fn register_all(m: Map<Seq<char>, Seq<char>>, rs: Seq<RecordModel>) -> Map<
    Seq<char>,
    Seq<char>,
>
    decreases rs.len(),
{
    if rs.len() == 0 {
        m
    } else {
        register_all(register_expl_spec(m, rs[0].code, rs[0].code_explanation), rs.drop_first())
    }
}

impl SessionState {
    /// Folds every record of one probe into the session.
    pub fn consolidate_records(
        &mut self,
        records: &Vec<DisplayableDiagnostic>,
        feature_desc: &str,
    )
        requires
            old(self).wf(),
        ensures
            final(self).wf(),
            agg_views(final(self).consolidated@) == consolidate_all(
                agg_views(old(self).consolidated@),
                crate::diag::record_views(records@),
                feature_desc@,
            ),
            expl_model(final(self).unique_explanations@) == register_all(
                expl_model(old(self).unique_explanations@),
                crate::diag::record_views(records@),
            ),
            final(self).global_files == old(self).global_files,
            final(self).referencers == old(self).referencers,
    {
        let ghost rvs = crate::diag::record_views(records@);
        let ghost a0 = agg_views(self.consolidated@);
        let ghost e0 = expl_model(self.unique_explanations@);
        let mut i: usize = 0;
        proof {
            assert(rvs.skip(0) =~= rvs);
        }
        while i < records.len()
            invariant
                0 <= i <= records@.len(),
                rvs == crate::diag::record_views(records@),
                self.wf(),
                self.global_files == old(self).global_files,
                self.referencers == old(self).referencers,
                consolidate_all(a0, rvs, feature_desc@) == consolidate_all(
                    agg_views(self.consolidated@),
                    rvs.skip(i as int),
                    feature_desc@,
                ),
                register_all(e0, rvs) == register_all(
                    expl_model(self.unique_explanations@),
                    rvs.skip(i as int),
                ),
            decreases records@.len() - i,
        {
            proof {
                assert(rvs.skip(i as int)[0] == rvs[i as int]);
                assert(rvs[i as int] == records@[i as int]@);
                assert(rvs.skip(i as int).drop_first() =~= rvs.skip(i + 1));
            }
            self.consolidate_record(&records[i], feature_desc);
            i = i + 1;
        }
        proof {
            assert(rvs.skip(records@.len() as int) =~= Seq::<RecordModel>::empty());
        }
    }

    /// Decodes one probe's output and folds it whole into the session:
    /// the stream's lines decode to their diagnostic trees, every tree is
    /// walked, the global file set and back-reference index grow by the
    /// probe's third-party spans, and every emitted record is
    /// consolidated under the probe's configuration descriptor.
    pub fn absorb_probe_output(&mut self, stdout: &str, env: &Environment, feature_desc: &str)
        requires
            old(self).wf(),
        ensures
            final(self).wf(),
            final(self).global_files.model() == crate::walker::add_paths(
                old(self).global_files.model(),
                crate::walker::walk_paths_seq(
                    crate::probe::decoded_lines(crate::text::split_lines_text(stdout@)),
                    env@,
                ),
            ),
            final(self).referencers.model() == crate::walker::add_origins(
                old(self).referencers.model(),
                crate::walker::walk_origins_seq(
                    crate::probe::decoded_lines(crate::text::split_lines_text(stdout@)),
                    env@,
                    feature_desc@,
                ),
            ),
            agg_views(final(self).consolidated@) == consolidate_all(
                agg_views(old(self).consolidated@),
                crate::walker::walk_records_seq(
                    crate::probe::decoded_lines(crate::text::split_lines_text(stdout@)),
                    env@,
                ),
                feature_desc@,
            ),
            expl_model(final(self).unique_explanations@) == register_all(
                expl_model(old(self).unique_explanations@),
                crate::walker::walk_records_seq(
                    crate::probe::decoded_lines(crate::text::split_lines_text(stdout@)),
                    env@,
                ),
            ),
    {
        let ghost decoded = crate::probe::decoded_lines(crate::text::split_lines_text(stdout@));
        let trees = crate::probe::decode_probe_output(stdout);
        proof {
            assert(crate::diag::node_models(trees@) == decoded);
        }
        let mut records: Vec<DisplayableDiagnostic> = Vec::new();
        crate::walker::walk_probe(
            &trees,
            &mut records,
            &mut self.global_files,
            &mut self.referencers,
            env,
            feature_desc,
        );
        proof {
            assert(crate::diag::record_views(records@) =~= Seq::<RecordModel>::empty()
                + crate::walker::walk_records_seq(decoded, env@));
            assert(crate::diag::record_views(records@) =~= crate::walker::walk_records_seq(
                decoded,
                env@,
            ));
        }
        self.consolidate_records(&records, feature_desc);
    }

    /// Records a probe that could not run at all: one synthetic record is
    /// consolidated in its place, and the session continues.
    pub fn record_probe_failure(&mut self, feature_desc: &str, error_text: &str)
        requires
            old(self).wf(),
        ensures
            final(self).wf(),
            agg_views(final(self).consolidated@) == consolidate_spec(
                agg_views(old(self).consolidated@),
                tool_error_model(feature_desc@, error_text@),
                feature_desc@,
            ),
            final(self).global_files == old(self).global_files,
            final(self).referencers == old(self).referencers,
    {
        let rec = tool_error_diagnostic(feature_desc, error_text);
        self.consolidate_record(&rec, feature_desc);
    }
}

/// Order on optional codes: a codeless diagnostic sorts first.
pub open spec fn opt_lt(a: Option<Seq<char>>, b: Option<Seq<char>>) -> bool {
    match (a, b) {
        (Option::None, Option::Some(_)) => true,
        (Option::Some(x), Option::Some(y)) => lex_lt(x, y),
        _ => false,
    }
}

/// Strict presentation order on aggregates: by primary location, then
/// code, then rendered text; ties broken by level and the implicated
/// list, so two distinct aggregates never tie and the final order is
/// independent of probe order.
pub open spec fn agg_lt(a: AggregatedModel, b: AggregatedModel) -> bool {
    ||| lex_lt(a.primary_location, b.primary_location)
    ||| (a.primary_location == b.primary_location && opt_lt(a.code, b.code))
    ||| (a.primary_location == b.primary_location && a.code == b.code && lex_lt(
        a.rendered_message,
        b.rendered_message,
    ))
    ||| (a.primary_location == b.primary_location && a.code == b.code && a.rendered_message
        == b.rendered_message && lex_lt(a.level, b.level))
    ||| (a.primary_location == b.primary_location && a.code == b.code && a.rendered_message
        == b.rendered_message && a.level == b.level && crate::diag::pairs_lt(
        a.implicated,
        b.implicated,
    ))
}

/// Non-strict presentation order on aggregates.
pub open spec fn agg_le(a: AggregatedModel, b: AggregatedModel) -> bool {
    agg_lt(a, b) || (a.primary_location == b.primary_location && a.code == b.code
        && a.rendered_message == b.rendered_message && a.level == b.level && a.implicated
        == b.implicated)
}

/// The presentation ordering used for the final data set.
pub open spec fn agg_leq() -> spec_fn(AggregatedModel, AggregatedModel) -> bool {
    |a: AggregatedModel, b: AggregatedModel| agg_le(a, b)
}

pub proof fn lemma_agg_not_lt(x: AggregatedModel, y: AggregatedModel)
    requires
        !agg_lt(x, y),
    ensures
        agg_le(y, x),
{
    crate::text::lemma_lex_lt_connected(x.primary_location, y.primary_location);
    if x.primary_location == y.primary_location {
        match (x.code, y.code) {
            (Option::Some(cx), Option::Some(cy)) => {
                crate::text::lemma_lex_lt_connected(cx, cy);
            },
            _ => {},
        }
        if x.code == y.code {
            crate::text::lemma_lex_lt_connected(x.rendered_message, y.rendered_message);
            if x.rendered_message == y.rendered_message {
                crate::text::lemma_lex_lt_connected(x.level, y.level);
                if x.level == y.level {
                    crate::diag::lemma_pairs_lt_connected(x.implicated, y.implicated);
                }
            }
        }
    }
}

pub proof fn lemma_agg_lt_le_trans(a: AggregatedModel, b: AggregatedModel, c: AggregatedModel)
    requires
        agg_lt(a, b),
        agg_le(b, c),
    ensures
        agg_le(a, c),
{
    if lex_lt(a.primary_location, b.primary_location) {
        if lex_lt(b.primary_location, c.primary_location) {
            crate::text::lemma_lex_lt_transitive(
                a.primary_location,
                b.primary_location,
                c.primary_location,
            );
        }
    } else if opt_lt(a.code, b.code) {
        match (a.code, b.code, c.code) {
            (Option::Some(ca), Option::Some(cb), Option::Some(cc)) => {
                if lex_lt(cb, cc) {
                    crate::text::lemma_lex_lt_transitive(ca, cb, cc);
                }
            },
            _ => {},
        }
    } else if lex_lt(a.rendered_message, b.rendered_message) {
        if b.primary_location == c.primary_location && b.code == c.code {
            if lex_lt(b.rendered_message, c.rendered_message) {
                crate::text::lemma_lex_lt_transitive(
                    a.rendered_message,
                    b.rendered_message,
                    c.rendered_message,
                );
            }
        }
    } else if a.rendered_message == b.rendered_message && lex_lt(a.level, b.level) {
        if b.primary_location == c.primary_location && b.code == c.code && b.rendered_message
            == c.rendered_message {
            if lex_lt(b.level, c.level) {
                crate::text::lemma_lex_lt_transitive(a.level, b.level, c.level);
            }
        }
    } else {
        if b.primary_location == c.primary_location && b.code == c.code && b.rendered_message
            == c.rendered_message && b.level == c.level {
            if crate::diag::pairs_lt(b.implicated, c.implicated) {
                crate::diag::lemma_pairs_lt_transitive(a.implicated, b.implicated, c.implicated);
            }
        }
    }
}

pub proof fn lemma_sorted_insert_agg(s: Seq<AggregatedModel>, j: int, x: AggregatedModel)
    requires
        vstd::relations::sorted_by(s, agg_leq()),
        0 <= j <= s.len(),
        forall|k: int| 0 <= k < j ==> agg_le(#[trigger] s[k], x),
        j < s.len() ==> agg_lt(x, s[j]),
    ensures
        vstd::relations::sorted_by(s.insert(j, x), agg_leq()),
{
    let leq = agg_leq();
    let t = s.insert(j, x);
    assert forall|p: int, q: int| 0 <= p < q < t.len() implies leq(t[p], t[q]) by {
        let tp = if p < j {
            s[p]
        } else if p == j {
            x
        } else {
            s[p - 1]
        };
        let tq = if q < j {
            s[q]
        } else if q == j {
            x
        } else {
            s[q - 1]
        };
        assert(t[p] == tp);
        assert(t[q] == tq);
        if q < j || p > j {
        } else if p < j && q == j {
        } else if p < j && q > j {
            if p < q - 1 {
                assert(leq(s[p], s[q - 1]));
            }
        } else if p == j && q > j {
            if q - 1 == j {
            } else {
                assert(leq(s[j], s[q - 1]));
                lemma_agg_lt_le_trans(x, s[j], s[q - 1]);
            }
        }
    }
}

/// Tests whether an optional code sorts strictly before another.
fn opt_lt_exec(a: &Option<String>, b: &Option<String>) -> (r: bool)
    ensures
        r == opt_lt(opt_view(*a), opt_view(*b)),
{
    match (a, b) {
        (Option::None, Option::Some(_)) => true,
        (Option::Some(x), Option::Some(y)) => crate::text::str_lt(x.as_str(), y.as_str()),
        _ => false,
    }
}

/// Tests whether an aggregate sorts strictly before another.
fn agg_lt_exec(a: &AggregatedDiagnosticInstance, b: &AggregatedDiagnosticInstance) -> (r: bool)
    ensures
        r == agg_lt(a@, b@),
{
    if crate::text::str_lt(a.primary_location.as_str(), b.primary_location.as_str()) {
        return true;
    }
    if !str_eq(a.primary_location.as_str(), b.primary_location.as_str()) {
        return false;
    }
    if opt_lt_exec(&a.code, &b.code) {
        return true;
    }
    if !opt_str_eq(&a.code, &b.code) {
        return false;
    }
    if crate::text::str_lt(a.rendered_message.as_str(), b.rendered_message.as_str()) {
        return true;
    }
    if !str_eq(a.rendered_message.as_str(), b.rendered_message.as_str()) {
        return false;
    }
    if crate::text::str_lt(a.level.as_str(), b.level.as_str()) {
        return true;
    }
    if !str_eq(a.level.as_str(), b.level.as_str()) {
        return false;
    }
    crate::walker::pairs_lt_exec(
        &a.implicated_third_party_files_details,
        &b.implicated_third_party_files_details,
    )
}

/// Copies one aggregate.
fn clone_agg(a: &AggregatedDiagnosticInstance) -> (r: AggregatedDiagnosticInstance)
    ensures
        r@ == a@,
        a.wf() ==> r.wf(),
{
    let r = AggregatedDiagnosticInstance {
        level: a.level.clone(),
        code: match &a.code {
            Option::Some(c) => Option::Some(c.clone()),
            Option::None => Option::None,
        },
        rendered_message: a.rendered_message.clone(),
        primary_location: a.primary_location.clone(),
        implicated_third_party_files_details: clone_pairs(
            &a.implicated_third_party_files_details,
        ),
        feature_set_descriptors: crate::text::clone_string_vec(&a.feature_set_descriptors),
    };
    r
}

/// Finds the first position of the sorted vector whose entry sorts
/// strictly after `x`.
fn insertion_point_agg(out: &Vec<AggregatedDiagnosticInstance>, x: &AggregatedDiagnosticInstance)
    -> (j: usize)
    ensures
        0 <= j <= out@.len(),
        forall|k: int| 0 <= k < j ==> !agg_lt(x@, (#[trigger] out@[k])@),
        j < out@.len() ==> agg_lt(x@, out@[j as int]@),
{
    let mut j: usize = 0;
    while j < out.len()
        invariant
            0 <= j <= out@.len(),
            forall|k: int| 0 <= k < j ==> !agg_lt(x@, (#[trigger] out@[k])@),
        decreases out@.len() - j,
    {
        if agg_lt_exec(x, &out[j]) {
            return j;
        }
        j = j + 1;
    }
    j
}

impl SessionState {
    /// The final presentation order: the aggregates sorted ascending by
    /// primary location, code and rendered text, ties broken by level and
    /// implicated list, so the order is independent of probe order.
    pub fn sorted_diagnostics(&self) -> (r: Vec<AggregatedDiagnosticInstance>)
        requires
            self.wf(),
        ensures
            agg_views(r@).to_multiset() == agg_views(self.consolidated@).to_multiset(),
            vstd::relations::sorted_by(agg_views(r@), agg_leq()),
            forall|k: int| 0 <= k < r@.len() ==> (#[trigger] r@[k]).wf(),
    {
        let ghost ivs = agg_views(self.consolidated@);
        let mut out: Vec<AggregatedDiagnosticInstance> = Vec::new();
        let mut idx: usize = 0;
        proof {
            assert(agg_views(out@) =~= Seq::<AggregatedModel>::empty());
            assert(ivs.subrange(0, 0) =~= Seq::<AggregatedModel>::empty());
            assert(agg_views(out@).to_multiset() =~= ivs.subrange(0, 0).to_multiset());
        }
        while idx < self.consolidated.len()
            invariant
                0 <= idx <= self.consolidated@.len(),
                self.wf(),
                ivs == agg_views(self.consolidated@),
                vstd::relations::sorted_by(agg_views(out@), agg_leq()),
                agg_views(out@).to_multiset() == ivs.subrange(0, idx as int).to_multiset(),
                forall|k: int| 0 <= k < out@.len() ==> (#[trigger] out@[k]).wf(),
            decreases self.consolidated@.len() - idx,
        {
            let ghost old_seq = out@;
            let ghost old_views = agg_views(out@);
            proof {
                assert((#[trigger] self.consolidated@[idx as int]).wf());
            }
            let x = clone_agg(&self.consolidated[idx]);
            proof {
                assert(x@ == ivs[idx as int]);
            }
            let j = insertion_point_agg(&out, &x);
            proof {
                assert forall|k: int| 0 <= k < j implies agg_le(#[trigger] old_views[k], x@) by {
                    assert(old_views[k] == old_seq[k]@);
                    lemma_agg_not_lt(x@, old_views[k]);
                }
                if j < old_seq.len() {
                    assert(old_views[j as int] == old_seq[j as int]@);
                }
                lemma_sorted_insert_agg(old_views, j as int, x@);
            }
            out.insert(j, x);
            proof {
                old_seq.insert_ensures(j as int, x);
                old_views.insert_ensures(j as int, x@);
                assert forall|i: int| 0 <= i < out@.len() implies (#[trigger] out@[i])@
                    == old_views.insert(j as int, x@)[i] by {
                    if i < j {
                        assert(out@[i] == old_seq[i]);
                        assert(old_views[i] == old_seq[i]@);
                    } else if i == j {
                        assert(out@[i] == x);
                    } else {
                        assert(out@[i] == old_seq[i - 1]);
                        assert(old_views[i - 1] == old_seq[i - 1]@);
                    }
                }
                assert(agg_views(out@) =~= old_views.insert(j as int, x@));
                broadcast use vstd::seq_lib::to_multiset_insert;
                broadcast use vstd::seq_lib::group_to_multiset_ensures;

                assert(old_views.insert(j as int, x@).to_multiset()
                    == old_views.to_multiset().insert(x@));
                assert(ivs.subrange(0, idx + 1) =~= ivs.subrange(0, idx as int).push(
                    ivs[idx as int],
                ));
                assert(ivs.subrange(0, idx as int).push(ivs[idx as int]).to_multiset()
                    =~= ivs.subrange(0, idx as int).to_multiset().insert(ivs[idx as int]));
                assert forall|k: int| 0 <= k < out@.len() implies (#[trigger] out@[k]).wf() by {
                    if k < j {
                        assert(out@[k] == old_seq[k]);
                    } else if k > j {
                        assert(out@[k] == old_seq[k - 1]);
                    }
                }
            }
            idx = idx + 1;
        }
        proof {
            assert(ivs.subrange(0, ivs.len() as int) =~= ivs);
        }
        out
    }
}

/// Two probes whose records carry the same identity — in particular two
/// configurations producing identical diagnostic trees — leave exactly
/// one aggregate of that identity, and its descriptor set holds both
/// configurations.
pub proof fn lemma_identical_records_merge(
    aggs: Seq<AggregatedModel>,
    r1: RecordModel,
    r2: RecordModel,
    d1: Seq<char>,
    d2: Seq<char>,
)
    requires
        unique_keys(aggs),
        record_key(r1) == record_key(r2),
    ensures
        unique_keys(consolidate_spec(consolidate_spec(aggs, r1, d1), r2, d2)),
        exists|i: int|
            {
                &&& 0 <= i < consolidate_spec(consolidate_spec(aggs, r1, d1), r2, d2).len()
                &&& agg_key(
                    #[trigger] consolidate_spec(consolidate_spec(aggs, r1, d1), r2, d2)[i],
                ) == record_key(r1)
                &&& consolidate_spec(
                    consolidate_spec(aggs, r1, d1),
                    r2,
                    d2,
                )[i].feature_set_descriptors.contains(d1)
                &&& consolidate_spec(
                    consolidate_spec(aggs, r1, d1),
                    r2,
                    d2,
                )[i].feature_set_descriptors.contains(d2)
            },
{
    let k = record_key(r1);
    let s1 = consolidate_spec(aggs, r1, d1);
    let s2 = consolidate_spec(s1, r2, d2);
    lemma_consolidate_keys(aggs, r1, d1);
    lemma_consolidate_keys(s1, r2, d2);
    lemma_find_key(aggs, k);
    lemma_find_key(s1, k);
    let i1 = find_key(aggs, k);
    let j = find_key(s1, k);
    if i1 < aggs.len() {
        assert(s1[i1] == agg_with_desc(aggs[i1], d1));
        assert(agg_key(s1[i1]) == k);
        if j < i1 {
            assert(agg_key(s1[j]) != k);
        }
        assert(j == i1);
        assert(s2[j] == agg_with_desc(s1[j], d2));
        assert(s2[j].feature_set_descriptors.contains(d1));
        assert(s2[j].feature_set_descriptors.contains(d2));
    } else {
        assert(s1 == aggs.push(agg_of_record(r1, d1)));
        assert(agg_key(s1[aggs.len() as int]) == k);
        if j < aggs.len() {
            assert(s1[j] == aggs[j]);
            assert(agg_key(aggs[j]) != k);
        }
        assert(j == aggs.len());
        assert(s2[j] == agg_with_desc(s1[j], d2));
        assert(s2[j].feature_set_descriptors.contains(d1));
        assert(s2[j].feature_set_descriptors.contains(d2));
    }
}

/// Identity is blind to how a node's spans were ordered or repeated: two
/// records equal in level, code, location and text whose implicated
/// lists are sorted, duplicate-free and hold the same pairs — as every
/// list the walker emits is — carry the same identity and the same
/// signature, and so merge into one aggregate.
pub proof fn lemma_set_equal_identities(r1: RecordModel, r2: RecordModel)
    requires
        r1.level == r2.level,
        r1.code == r2.code,
        r1.primary_location == r2.primary_location,
        r1.rendered == r2.rendered,
        vstd::relations::sorted_by(r1.implicated, crate::diag::pair_leq()),
        vstd::relations::sorted_by(r2.implicated, crate::diag::pair_leq()),
        r1.implicated.no_duplicates(),
        r2.implicated.no_duplicates(),
        r1.implicated.to_set() == r2.implicated.to_set(),
    ensures
        record_key(r1) == record_key(r2),
        crate::diag::signature_text(r1.implicated) == crate::diag::signature_text(r2.implicated),
{
    crate::walker::lemma_sorted_distinct_set_equal(r1.implicated, r2.implicated);
}

/// A record's implicated-file list takes part in its identity: records
/// equal in level, code, location and text but with different implicated
/// lists have different identities, and consolidating both yields two
/// distinct aggregates.
pub proof fn lemma_distinct_implicated_stay_apart(
    aggs: Seq<AggregatedModel>,
    r1: RecordModel,
    r2: RecordModel,
    d: Seq<char>,
)
    requires
        unique_keys(aggs),
        r1.implicated != r2.implicated,
    ensures
        record_key(r1) != record_key(r2),
        exists|i: int, j: int|
            {
                &&& 0 <= i < consolidate_spec(consolidate_spec(aggs, r1, d), r2, d).len()
                &&& 0 <= j < consolidate_spec(consolidate_spec(aggs, r1, d), r2, d).len()
                &&& i != j
                &&& agg_key(
                    #[trigger] consolidate_spec(consolidate_spec(aggs, r1, d), r2, d)[i],
                ) == record_key(r1)
                &&& agg_key(
                    #[trigger] consolidate_spec(consolidate_spec(aggs, r1, d), r2, d)[j],
                ) == record_key(r2)
            },
{
    let k1 = record_key(r1);
    let k2 = record_key(r2);
    assert(k1.implicated == r1.implicated && k2.implicated == r2.implicated);
    let s1 = consolidate_spec(aggs, r1, d);
    let s = consolidate_spec(s1, r2, d);
    lemma_consolidate_keys(aggs, r1, d);
    lemma_consolidate_keys(s1, r2, d);
    lemma_find_key(aggs, k1);
    lemma_find_key(s1, k1);
    lemma_find_key(s1, k2);
    let i1 = find_key(aggs, k1);
    let witness1: int = if i1 < aggs.len() {
        i1
    } else {
        aggs.len() as int
    };
    assert(agg_key(s1[witness1]) == k1);
    assert(witness1 < s1.len());
    let j2 = find_key(s1, k2);
    let witness2: int = if j2 < s1.len() {
        j2
    } else {
        s1.len() as int
    };
    assert(agg_key(s[witness2]) == k2);
    assert(agg_key(s[witness1]) == agg_key(s1[witness1]));
    assert(witness1 != witness2);
    assert(witness1 < s.len() && witness2 < s.len());
}

} // verus!
