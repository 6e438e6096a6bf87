//! The diagnostic data model: the recursive tree the build collaborator
//! reports, and the flattened per-diagnostic records the walker emits,
//! together with the span-level logic shared by them — primary-location
//! selection, third-party span classification, and the deduplicated,
//! sorted implicated-file list.

use vstd::prelude::*;

use crate::classify::classify;
use crate::classify::classify_spec;
use crate::classify::ClassificationModel;
use crate::classify::path_under;
use crate::classify::EnvironmentModel;
use crate::text::after_last;
use crate::text::dec_digits;
use crate::text::lex_leq;
use crate::text::lex_lt;
use crate::text::lemma_lex_lt_asymmetric;
use crate::text::lemma_lex_lt_connected;
use crate::text::lemma_lex_lt_transitive;
use crate::text::str_eq;
use crate::text::text_after_last;
use crate::text::u64_to_string;

verus! {

/// One source span of a diagnostic.
pub struct RustcSpan {
    pub file_name: String,
    pub is_primary: bool,
    pub line_start: u64,
}

pub struct SpanModel {
    pub file_name: Seq<char>,
    pub is_primary: bool,
    pub line_start: u64,
}

impl View for RustcSpan {
    type V = SpanModel;

    open spec fn view(&self) -> SpanModel {
        SpanModel {
            file_name: self.file_name@,
            is_primary: self.is_primary,
            line_start: self.line_start,
        }
    }
}

/// A diagnostic's machine-readable code with its optional long
/// explanation.
pub struct RustcErrorCode {
    pub code: String,
    pub explanation: Option<String>,
}

pub struct CodeModel {
    pub code: Seq<char>,
    pub explanation: Option<Seq<char>>,
}

impl View for RustcErrorCode {
    type V = CodeModel;

    open spec fn view(&self) -> CodeModel {
        CodeModel {
            code: self.code@,
            explanation: match self.explanation {
                Option::Some(e) => Option::Some(e@),
                Option::None => Option::None,
            },
        }
    }
}

/// One node of the recursive diagnostic tree the build collaborator
/// reports: nested notes and helps are children of the same shape.
pub struct RustcDiagnosticData {
    pub level: String,
    pub code: Option<RustcErrorCode>,
    pub spans: Vec<RustcSpan>,
    pub children: Vec<RustcDiagnosticData>,
    pub rendered: Option<String>,
}

/// The mathematical image of one diagnostic tree node.
pub struct NodeModel {
    pub level: Seq<char>,
    pub code: Option<CodeModel>,
    pub spans: Seq<SpanModel>,
    pub children: Seq<NodeModel>,
    pub rendered: Option<Seq<char>>,
}

/// The model of one diagnostic tree.
pub open spec fn node_model(n: RustcDiagnosticData) -> NodeModel
    decreases n,
{
    NodeModel {
        level: n.level@,
        code: match n.code {
            Option::Some(c) => Option::Some(c@),
            Option::None => Option::None,
        },
        spans: span_views(n.spans@),
        children: node_models(n.children@),
        rendered: opt_view(n.rendered),
    }
}

/// The models of a sequence of diagnostic trees.
pub open spec fn node_models(s: Seq<RustcDiagnosticData>) -> Seq<NodeModel>
    decreases s,
{
    if s.len() == 0 {
        Seq::empty()
    } else {
        seq![node_model(s[0])] + node_models(s.drop_first())
    }
}

pub proof fn lemma_node_models_index(s: Seq<RustcDiagnosticData>)
    ensures
        node_models(s).len() == s.len(),
        forall|i: int| 0 <= i < s.len() ==> node_models(s)[i] == node_model(#[trigger] s[i]),
    decreases s,
{
    if s.len() > 0 {
        lemma_node_models_index(s.drop_first());
        assert forall|i: int| 0 <= i < s.len() implies node_models(s)[i] == node_model(
            #[trigger] s[i],
        ) by {
            if i > 0 {
                assert(s[i] == s.drop_first()[i - 1]);
                assert(node_models(s)[i] == node_models(s.drop_first())[i - 1]);
            }
        }
    }
}

pub proof fn lemma_node_models_push(s: Seq<RustcDiagnosticData>, x: RustcDiagnosticData)
    ensures
        node_models(s.push(x)) == node_models(s).push(node_model(x)),
    decreases s,
{
    if s.len() == 0 {
        assert(s.push(x)[0] == x);
        assert(s.push(x).drop_first() =~= s);
        assert(node_models(s.push(x)) =~= node_models(s).push(node_model(x)));
    } else {
        lemma_node_models_push(s.drop_first(), x);
        assert(s.push(x)[0] == s[0]);
        assert(s.push(x).drop_first() =~= s.drop_first().push(x));
        assert(node_models(s.push(x)) =~= node_models(s).push(node_model(x)));
    }
}

/// The code text of a node model's optional code.
pub open spec fn code_text(code: Option<CodeModel>) -> Option<Seq<char>> {
    match code {
        Option::Some(c) => Option::Some(c.code),
        Option::None => Option::None,
    }
}

/// The explanation text of a node model's optional code.
pub open spec fn explanation_text(code: Option<CodeModel>) -> Option<Seq<char>> {
    match code {
        Option::Some(c) => c.explanation,
        Option::None => Option::None,
    }
}

/// The sequences of span models of a span vector.
pub open spec fn span_views(spans: Seq<RustcSpan>) -> Seq<SpanModel> {
    spans.map_values(|s: RustcSpan| s@)
}

/// The code text of an optional code.
pub open spec fn code_view(code: Option<RustcErrorCode>) -> Option<Seq<char>> {
    match code {
        Option::Some(c) => Option::Some(c.code@),
        Option::None => Option::None,
    }
}

/// The explanation text of an optional code.
pub open spec fn explanation_view(code: Option<RustcErrorCode>) -> Option<Seq<char>> {
    match code {
        Option::Some(c) => match c.explanation {
            Option::Some(e) => Option::Some(e@),
            Option::None => Option::None,
        },
        Option::None => Option::None,
    }
}

/// The display form of a span path: a path under the project root is
/// shown relative to it, any other path as it came.
pub open spec fn display_path(p: Seq<char>, root: Seq<char>) -> Seq<char> {
    if p == root {
        Seq::empty()
    } else if path_under(p, root) {
        p.subrange(root.len() as int + 1, p.len() as int)
    } else {
        p
    }
}

/// Computes the display form of a span path.
pub fn display_path_of(p: &str, root: &str) -> (r: String)
    ensures
        r@ == display_path(p@, root@),
{
    if str_eq(p, root) {
        return String::new();
    }
    let under = crate::classify::is_path_under(p, root);
    if under {
        let p_len = p.unicode_len();
        let root_len = root.unicode_len();
        String::from_str(p.substring_char(root_len + 1, p_len))
    } else {
        String::from_str(p)
    }
}

/// A location line: the display path, a colon, the line number.
pub open spec fn loc_text(path: Seq<char>, line: u64) -> Seq<char> {
    path + ":"@ + dec_digits(line as int)
}

/// Renders a location line.
pub fn loc_text_of(path: &str, line: u64) -> (r: String)
    ensures
        r@ == loc_text(path@, line),
{
    let mut r = String::from_str(path);
    r.append(":");
    let digits = u64_to_string(line);
    r.append(digits.as_str());
    proof {
        assert(r@ =~= loc_text(path@, line));
    }
    r
}

/// The position of the first primary span, or the span count when none is
/// primary.
pub open spec fn first_primary(spans: Seq<SpanModel>) -> int
    decreases spans.len(),
{
    if spans.len() == 0 {
        0
    } else if spans[0].is_primary {
        0
    } else {
        1 + first_primary(spans.drop_first())
    }
}

pub proof fn lemma_first_primary(spans: Seq<SpanModel>)
    ensures
        0 <= first_primary(spans) <= spans.len(),
        forall|j: int| 0 <= j < first_primary(spans) ==> !(#[trigger] spans[j]).is_primary,
        first_primary(spans) < spans.len() ==> spans[first_primary(spans)].is_primary,
    decreases spans.len(),
{
    if spans.len() > 0 && !spans[0].is_primary {
        lemma_first_primary(spans.drop_first());
        assert forall|j: int| 0 <= j < first_primary(spans) implies !(
        #[trigger] spans[j]).is_primary by {
            if j > 0 {
                assert(spans[j] == spans.drop_first()[j - 1]);
            }
        }
        if first_primary(spans) < spans.len() {
            assert(spans[first_primary(spans)] == spans.drop_first()[first_primary(
                spans.drop_first(),
            )]);
        }
    }
}

/// A diagnostic's own primary location: the first primary span, else the
/// first span marked as non-primary, else a fixed phrase.
pub open spec fn primary_loc(spans: Seq<SpanModel>, root: Seq<char>) -> Seq<char> {
    let i = first_primary(spans);
    if 0 <= i < spans.len() {
        loc_text(display_path(spans[i].file_name, root), spans[i].line_start)
    } else if spans.len() > 0 {
        loc_text(display_path(spans[0].file_name, root), spans[0].line_start) + " (non-primary)"@
    } else {
        "Unknown diagnostic location"@
    }
}

/// Computes a diagnostic's own primary location.
pub fn primary_loc_of(spans: &Vec<RustcSpan>, root: &str) -> (r: String)
    ensures
        r@ == primary_loc(span_views(spans@), root@),
{
    let ghost svs = span_views(spans@);
    proof {
        lemma_first_primary(svs);
    }
    let n = spans.len();
    let mut i: usize = 0;
    while i < n
        invariant
            0 <= i <= n,
            n == spans@.len(),
            svs == span_views(spans@),
            forall|j: int| 0 <= j < i ==> !(#[trigger] svs[j]).is_primary,
            0 <= first_primary(svs) <= svs.len(),
            forall|j: int| 0 <= j < first_primary(svs) ==> !(#[trigger] svs[j]).is_primary,
            first_primary(svs) < svs.len() ==> svs[first_primary(svs)].is_primary,
        decreases n - i,
    {
        if spans[i].is_primary {
            proof {
                assert(svs[i as int].is_primary);
                if first_primary(svs) < i {
                    assert(!svs[first_primary(svs)].is_primary);
                }
                assert(first_primary(svs) == i);
            }
            let dp = display_path_of(spans[i].file_name.as_str(), root);
            return loc_text_of(dp.as_str(), spans[i].line_start);
        }
        i = i + 1;
    }
    proof {
        if first_primary(svs) < svs.len() {
            assert(!svs[first_primary(svs)].is_primary);
        }
    }
    if n > 0 {
        let dp = display_path_of(spans[0].file_name.as_str(), root);
        let mut r = loc_text_of(dp.as_str(), spans[0].line_start);
        r.append(" (non-primary)");
        proof {
            assert(r@ =~= primary_loc(svs, root@));
        }
        r
    } else {
        String::from_str("Unknown diagnostic location")
    }
}

/// The implicated-file pair of one third-party span: the canonical path,
/// and the file's own name with the span's line.
pub open spec fn span_pair(c: Seq<char>, line: u64) -> (Seq<char>, Seq<char>) {
    (c, after_last(c, '/') + ":"@ + dec_digits(line as int))
}

/// Builds the implicated-file pair of one third-party span.
pub fn span_pair_of(c: &String, line: u64) -> (r: (String, String))
    ensures
        (r.0@, r.1@) == span_pair(c@, line),
{
    let name = text_after_last(c.as_str(), '/');
    let mut detail = name;
    detail.append(":");
    let digits = u64_to_string(line);
    detail.append(digits.as_str());
    proof {
        assert(detail@ =~= span_pair(c@, line).1);
    }
    (c.clone(), detail)
}

/// The implicated pairs of a span list, one per third-party span, in span
/// order, duplicates kept.
pub open spec fn tp_pairs(spans: Seq<SpanModel>, env: EnvironmentModel) -> Seq<
    (Seq<char>, Seq<char>),
>
    decreases spans.len(),
{
    if spans.len() == 0 {
        Seq::empty()
    } else {
        (match classify_spec(env, spans[0].file_name) {
            ClassificationModel::ThirdParty(c) => seq![span_pair(c, spans[0].line_start)],
            _ => Seq::empty(),
        }) + tp_pairs(spans.drop_first(), env)
    }
}

/// The canonical third-party paths of a span list, in span order,
/// duplicates kept.
pub open spec fn tp_paths(spans: Seq<SpanModel>, env: EnvironmentModel) -> Seq<Seq<char>>
    decreases spans.len(),
{
    if spans.len() == 0 {
        Seq::empty()
    } else {
        (match classify_spec(env, spans[0].file_name) {
            ClassificationModel::ThirdParty(c) => seq![c],
            _ => Seq::empty(),
        }) + tp_paths(spans.drop_first(), env)
    }
}

pub proof fn lemma_tp_pairs_push(spans: Seq<SpanModel>, s: SpanModel, env: EnvironmentModel)
    ensures
        tp_pairs(spans.push(s), env) == tp_pairs(spans, env) + (match classify_spec(
            env,
            s.file_name,
        ) {
            ClassificationModel::ThirdParty(c) => seq![span_pair(c, s.line_start)],
            _ => Seq::empty(),
        }),
        tp_paths(spans.push(s), env) == tp_paths(spans, env) + (match classify_spec(
            env,
            s.file_name,
        ) {
            ClassificationModel::ThirdParty(c) => seq![c],
            _ => Seq::empty(),
        }),
    decreases spans.len(),
{
    let tailp: Seq<(Seq<char>, Seq<char>)> = match classify_spec(env, s.file_name) {
        ClassificationModel::ThirdParty(c) => seq![span_pair(c, s.line_start)],
        _ => Seq::empty(),
    };
    let tailf: Seq<Seq<char>> = match classify_spec(env, s.file_name) {
        ClassificationModel::ThirdParty(c) => seq![c],
        _ => Seq::empty(),
    };
    if spans.len() == 0 {
        assert(spans.push(s)[0] == s);
        assert(spans.push(s).drop_first() =~= spans);
        assert(tp_pairs(spans.push(s), env) =~= tp_pairs(spans, env) + tailp);
        assert(tp_paths(spans.push(s), env) =~= tp_paths(spans, env) + tailf);
    } else {
        lemma_tp_pairs_push(spans.drop_first(), s, env);
        assert(spans.push(s).drop_first() =~= spans.drop_first().push(s));
        assert(spans.push(s)[0] == spans[0]);
        let headp: Seq<(Seq<char>, Seq<char>)> = match classify_spec(env, spans[0].file_name) {
            ClassificationModel::ThirdParty(c) => seq![span_pair(c, spans[0].line_start)],
            _ => Seq::empty(),
        };
        assert(tp_pairs(spans.push(s), env) == headp + tp_pairs(spans.drop_first().push(s), env));
        assert(headp + (tp_pairs(spans.drop_first(), env) + tailp) =~= (headp + tp_pairs(
            spans.drop_first(),
            env,
        )) + tailp);
        assert(tp_paths(spans.push(s), env) =~= tp_paths(spans, env) + tailf);
    }
}

/// A span that does not classify as third-party — an unknown path, a
/// failed canonicalization, a missing regular file, or a path outside
/// every recognized root — is silently dropped from every set: removing
/// it changes neither the implicated pairs nor the implicated paths.
pub proof fn lemma_non_third_party_span_dropped(
    spans: Seq<SpanModel>,
    env: EnvironmentModel,
    i: int,
)
    requires
        0 <= i < spans.len(),
        !(classify_spec(env, spans[i].file_name) matches ClassificationModel::ThirdParty(_)),
    ensures
        tp_pairs(spans, env) == tp_pairs(spans.remove(i), env),
        tp_paths(spans, env) == tp_paths(spans.remove(i), env),
    decreases spans.len(),
{
    if i == 0 {
        assert(spans.remove(0) =~= spans.drop_first());
        match classify_spec(env, spans[0].file_name) {
            ClassificationModel::ThirdParty(_) => {},
            _ => {
                assert(tp_pairs(spans, env) =~= tp_pairs(spans.drop_first(), env));
                assert(tp_paths(spans, env) =~= tp_paths(spans.drop_first(), env));
            },
        }
    } else {
        lemma_non_third_party_span_dropped(spans.drop_first(), env, i - 1);
        assert(spans.drop_first()[i - 1] == spans[i]);
        assert(spans.remove(i).drop_first() =~= spans.drop_first().remove(i - 1));
        assert(spans.remove(i)[0] == spans[0]);
        assert(tp_pairs(spans, env) =~= tp_pairs(spans.remove(i), env));
        assert(tp_paths(spans, env) =~= tp_paths(spans.remove(i), env));
    }
}

/// The text pairs of a vector of string pairs.
pub open spec fn pair_views(v: Seq<(String, String)>) -> Seq<(Seq<char>, Seq<char>)> {
    v.map_values(|p: (String, String)| (p.0@, p.1@))
}

/// The text of an optional string.
pub open spec fn opt_view(o: Option<String>) -> Option<Seq<char>> {
    match o {
        Option::Some(s) => Option::Some(s@),
        Option::None => Option::None,
    }
}

/// Order on implicated pairs: by path, then by detail.
pub open spec fn pair_le(a: (Seq<char>, Seq<char>), b: (Seq<char>, Seq<char>)) -> bool {
    lex_lt(a.0, b.0) || (a.0 == b.0 && lex_leq(a.1, b.1))
}

/// Strict order on implicated pairs.
pub open spec fn pair_lt(a: (Seq<char>, Seq<char>), b: (Seq<char>, Seq<char>)) -> bool {
    lex_lt(a.0, b.0) || (a.0 == b.0 && lex_lt(a.1, b.1))
}

/// The pair ordering used wherever implicated lists are sorted.
pub open spec fn pair_leq() -> spec_fn((Seq<char>, Seq<char>), (Seq<char>, Seq<char>)) -> bool {
    |a: (Seq<char>, Seq<char>), b: (Seq<char>, Seq<char>)| pair_le(a, b)
}

/// `pair_le` orders implicated pairs totally.
pub proof fn lemma_pair_total_ordering()
    ensures
        vstd::relations::total_ordering(pair_leq()),
{
    let leq = pair_leq();
    assert forall|a: (Seq<char>, Seq<char>), b: (Seq<char>, Seq<char>)|
        #[trigger] leq(a, b) || #[trigger] leq(b, a) by {
        lemma_lex_lt_connected(a.0, b.0);
        if a.0 == b.0 {
            lemma_lex_lt_connected(a.1, b.1);
        }
    }
    assert forall|a: (Seq<char>, Seq<char>), b: (Seq<char>, Seq<char>)|
        #[trigger] leq(a, b) && #[trigger] leq(b, a) implies a == b by {
        lemma_lex_lt_asymmetric(a.0, b.0);
        lemma_lex_lt_asymmetric(a.1, b.1);
        assert(a.0 == b.0 && a.1 == b.1);
        assert(a == (a.0, a.1) && b == (b.0, b.1));
    }
    assert forall|a: (Seq<char>, Seq<char>), b: (Seq<char>, Seq<char>), c: (Seq<char>, Seq<char>)|
        #[trigger] leq(a, b) && #[trigger] leq(b, c) implies leq(a, c) by {
        if lex_lt(a.0, b.0) && lex_lt(b.0, c.0) {
            lemma_lex_lt_transitive(a.0, b.0, c.0);
        }
        if a.0 == b.0 && b.0 == c.0 && lex_lt(a.1, b.1) && lex_lt(b.1, c.1) {
            lemma_lex_lt_transitive(a.1, b.1, c.1);
        }
    }
}

pub proof fn lemma_pair_lt_asymmetric(a: (Seq<char>, Seq<char>), b: (Seq<char>, Seq<char>))
    ensures
        !(pair_lt(a, b) && pair_lt(b, a)),
{
    lemma_lex_lt_asymmetric(a.0, b.0);
    if a.0 == b.0 {
        lemma_lex_lt_asymmetric(a.1, b.1);
    }
}

pub proof fn lemma_pair_lt_transitive(
    a: (Seq<char>, Seq<char>),
    b: (Seq<char>, Seq<char>),
    c: (Seq<char>, Seq<char>),
)
    requires
        pair_lt(a, b),
        pair_lt(b, c),
    ensures
        pair_lt(a, c),
{
    if lex_lt(a.0, b.0) && lex_lt(b.0, c.0) {
        lemma_lex_lt_transitive(a.0, b.0, c.0);
    }
    if a.0 == b.0 && b.0 == c.0 {
        lemma_lex_lt_asymmetric(a.0, b.0);
        lemma_lex_lt_asymmetric(b.0, c.0);
        lemma_lex_lt_transitive(a.1, b.1, c.1);
    }
}

pub proof fn lemma_pair_lt_connected(a: (Seq<char>, Seq<char>), b: (Seq<char>, Seq<char>))
    ensures
        pair_lt(a, b) || pair_lt(b, a) || a == b,
{
    lemma_lex_lt_connected(a.0, b.0);
    if a.0 == b.0 {
        lemma_lex_lt_connected(a.1, b.1);
        if a.1 == b.1 {
            assert(a == (a.0, a.1) && b == (b.0, b.1));
        }
    }
}

/// Strict order on whole implicated lists: pair by pair, a proper prefix
/// first.
pub open spec fn pairs_lt(
    a: Seq<(Seq<char>, Seq<char>)>,
    b: Seq<(Seq<char>, Seq<char>)>,
) -> bool
    decreases a.len(),
{
    if b.len() == 0 {
        false
    } else if a.len() == 0 {
        true
    } else if a[0] != b[0] {
        pair_lt(a[0], b[0])
    } else {
        pairs_lt(a.drop_first(), b.drop_first())
    }
}

pub proof fn lemma_pairs_lt_connected(
    a: Seq<(Seq<char>, Seq<char>)>,
    b: Seq<(Seq<char>, Seq<char>)>,
)
    ensures
        pairs_lt(a, b) || pairs_lt(b, a) || a == b,
    decreases a.len(),
{
    if b.len() == 0 {
        if a.len() == 0 {
            assert(a =~= b);
        }
    } else if a.len() == 0 {
    } else if a[0] == b[0] {
        lemma_pairs_lt_connected(a.drop_first(), b.drop_first());
        if a.drop_first() == b.drop_first() {
            assert(a.drop_first().len() == b.drop_first().len());
            assert(a.len() == b.len());
            assert forall|i: int| 0 <= i < a.len() implies a[i] == b[i] by {
                if i > 0 {
                    assert(a[i] == a.drop_first()[i - 1]);
                    assert(b[i] == b.drop_first()[i - 1]);
                }
            }
            assert(a =~= b);
        }
    } else {
        lemma_pair_lt_connected(a[0], b[0]);
    }
}

pub proof fn lemma_pairs_lt_asymmetric(
    a: Seq<(Seq<char>, Seq<char>)>,
    b: Seq<(Seq<char>, Seq<char>)>,
)
    ensures
        !(pairs_lt(a, b) && pairs_lt(b, a)),
    decreases a.len(),
{
    if a.len() > 0 && b.len() > 0 {
        if a[0] == b[0] {
            lemma_pairs_lt_asymmetric(a.drop_first(), b.drop_first());
        } else {
            lemma_pair_lt_asymmetric(a[0], b[0]);
        }
    }
}

pub proof fn lemma_pairs_lt_transitive(
    a: Seq<(Seq<char>, Seq<char>)>,
    b: Seq<(Seq<char>, Seq<char>)>,
    c: Seq<(Seq<char>, Seq<char>)>,
)
    requires
        pairs_lt(a, b),
        pairs_lt(b, c),
    ensures
        pairs_lt(a, c),
    decreases a.len(),
{
    if a.len() > 0 && b.len() > 0 && c.len() > 0 {
        if a[0] == b[0] && b[0] == c[0] {
            lemma_pairs_lt_transitive(a.drop_first(), b.drop_first(), c.drop_first());
        } else if a[0] != b[0] && b[0] != c[0] {
            lemma_pair_lt_transitive(a[0], b[0], c[0]);
            lemma_pair_lt_asymmetric(a[0], b[0]);
            if a[0] == c[0] {
                assert(pair_lt(a[0], b[0]) && pair_lt(b[0], a[0]));
            }
        } else if a[0] != b[0] {
            if a[0] == c[0] {
                assert(pair_lt(a[0], b[0]) && b[0] == c[0]);
                lemma_pair_lt_asymmetric(a[0], b[0]);
                assert(false);
            }
        } else {
            if a[0] == c[0] {
                lemma_pair_lt_asymmetric(b[0], c[0]);
                assert(false);
            }
        }
    }
}

/// Keeps the first occurrence of every pair, in order.
pub open spec fn dedup_pairs_rec(
    ps: Seq<(Seq<char>, Seq<char>)>,
    seen: Set<(Seq<char>, Seq<char>)>,
) -> Seq<(Seq<char>, Seq<char>)>
    decreases ps.len(),
{
    if ps.len() == 0 {
        Seq::empty()
    } else if seen.contains(ps[0]) {
        dedup_pairs_rec(ps.drop_first(), seen)
    } else {
        seq![ps[0]] + dedup_pairs_rec(ps.drop_first(), seen.insert(ps[0]))
    }
}

pub open spec fn dedup_pairs(ps: Seq<(Seq<char>, Seq<char>)>) -> Seq<(Seq<char>, Seq<char>)> {
    dedup_pairs_rec(ps, Set::empty())
}

/// The implicated-file list of one diagnostic: its third-party span
/// pairs, first occurrences kept, sorted by path then detail.
pub open spec fn implicated_of(spans: Seq<SpanModel>, env: EnvironmentModel) -> Seq<
    (Seq<char>, Seq<char>),
> {
    dedup_pairs(tp_pairs(spans, env)).sort_by(pair_leq())
}

/// Whether a node emits a standalone record: an error or warning whose
/// rendered text is non-empty after trimming.
pub open spec fn emits_record(level: Seq<char>, rendered: Option<Seq<char>>) -> bool {
    (level == "error"@ || level == "warning"@) && match rendered {
        Option::Some(r) => !crate::text::is_blank_text(r),
        Option::None => false,
    }
}

/// One flattened diagnostic record, as the walker emits it for every
/// reportable node.
pub struct DisplayableDiagnostic {
    pub level: String,
    pub code: Option<String>,
    pub code_explanation: Option<String>,
    pub rendered: String,
    pub primary_location_of_diagnostic: String,
    pub implicated_third_party_files_details: Vec<(String, String)>,
}

pub struct RecordModel {
    pub level: Seq<char>,
    pub code: Option<Seq<char>>,
    pub code_explanation: Option<Seq<char>>,
    pub rendered: Seq<char>,
    pub primary_location: Seq<char>,
    pub implicated: Seq<(Seq<char>, Seq<char>)>,
}

impl View for DisplayableDiagnostic {
    type V = RecordModel;

    open spec fn view(&self) -> RecordModel {
        RecordModel {
            level: self.level@,
            code: opt_view(self.code),
            code_explanation: opt_view(self.code_explanation),
            rendered: self.rendered@,
            primary_location: self.primary_location_of_diagnostic@,
            implicated: pair_views(self.implicated_third_party_files_details@),
        }
    }
}

/// The record views of a record vector.
pub open spec fn record_views(v: Seq<DisplayableDiagnostic>) -> Seq<RecordModel> {
    v.map_values(|d: DisplayableDiagnostic| d@)
}

/// The signature text of one implicated pair.
pub open spec fn pair_sig(p: (Seq<char>, Seq<char>)) -> Seq<char> {
    p.0 + ":"@ + p.1
}

/// The signature texts of an implicated list.
pub open spec fn pair_sigs(ps: Seq<(Seq<char>, Seq<char>)>) -> Seq<Seq<char>> {
    ps.map_values(|p: (Seq<char>, Seq<char>)| pair_sig(p))
}

/// The implicated-file signature: every pair rendered as path, colon,
/// detail; the renderings sorted and joined by semicolons.
pub open spec fn signature_text(ps: Seq<(Seq<char>, Seq<char>)>) -> Seq<char> {
    crate::text::join_text(pair_sigs(ps).sort_by(crate::text::seq_leq()), ";"@)
}

impl DisplayableDiagnostic {
    /// A stable string signature of the implicated third-party files.
    pub fn get_implicated_files_signature(&self) -> (r: String)
        ensures
            r@ == signature_text(self@.implicated),
    {
        let ghost pvs = pair_views(self.implicated_third_party_files_details@);
        let mut parts: Vec<String> = Vec::new();
        let mut i: usize = 0;
        while i < self.implicated_third_party_files_details.len()
            invariant
                0 <= i <= self.implicated_third_party_files_details@.len(),
                pvs == pair_views(self.implicated_third_party_files_details@),
                crate::text::string_views(parts@) == pair_sigs(pvs.subrange(0, i as int)),
            decreases self.implicated_third_party_files_details@.len() - i,
        {
            let ghost old_parts = parts@;
            let pair = &self.implicated_third_party_files_details[i];
            let mut part = pair.0.clone();
            part.append(":");
            part.append(pair.1.as_str());
            parts.push(part);
            proof {
                assert(pvs.subrange(0, i + 1) =~= pvs.subrange(0, i as int).push(pvs[i as int]));
                assert(part@ =~= pair_sig(pvs[i as int]));
                assert(crate::text::string_views(old_parts).len() == old_parts.len());
                assert(old_parts.len() == i as int);
                assert forall|k: int| 0 <= k < parts@.len() implies #[trigger] parts@[k]@
                    == pair_sigs(pvs.subrange(0, i + 1))[k] by {
                    if k < i {
                        assert(parts@[k] == old_parts[k]);
                        assert(crate::text::string_views(old_parts)[k] == pair_sigs(
                            pvs.subrange(0, i as int),
                        )[k]);
                    }
                }
                assert(crate::text::string_views(parts@) =~= pair_sigs(pvs.subrange(0, i + 1)));
            }
            i = i + 1;
        }
        proof {
            assert(pvs.subrange(0, pvs.len() as int) =~= pvs);
        }
        let sorted = crate::text::sort_strings(&parts);
        crate::text::join_strings(&sorted, ";")
    }
}

} // verus!
