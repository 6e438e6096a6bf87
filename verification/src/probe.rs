//! Probe stream decoding: turns the build collaborator's line-delimited
//! structured output into diagnostic trees. Lines that are not
//! well-formed structured messages are skipped silently, and only
//! messages carrying a compiler diagnostic are kept.
//!
//! JSON parsing is done by serde_json behind trusted wrappers. A parsed
//! value is opaque here, but every accessor result is a function of the
//! value alone, so each carries a name; the decoders below are specified
//! exactly over those names, and `decode_probe_output`'s contract pins
//! its trees to the per-line decodes of the stream.

use vstd::prelude::*;

use crate::diag::node_model;
use crate::diag::node_models;
use crate::diag::CodeModel;
use crate::diag::NodeModel;
use crate::diag::RustcDiagnosticData;
use crate::diag::RustcErrorCode;
use crate::diag::RustcSpan;
use crate::diag::SpanModel;
use crate::text::is_text_prefix;
use crate::text::split_lines;
use crate::text::split_lines_text;
use crate::text::str_eq;
use crate::text::str_starts_with;
use crate::text::string_views;

verus! {

#[verifier::external_type_specification]
#[verifier::external_body]
pub struct ExJsonValue(serde_json::Value);

#[verifier::external_type_specification]
#[verifier::external_body]
pub struct ExJsonError(serde_json::Error);

/// The JSON value a text parses to, or nothing when it does not parse:
/// a function of the text alone.
pub uninterp spec fn json_parse_of(s: Seq<char>) -> Option<serde_json::Value>;

/// The member a JSON value holds under a key, when the value is an
/// object with that key.
pub uninterp spec fn json_get_of(v: serde_json::Value, key: Seq<char>) -> Option<
    serde_json::Value,
>;

/// The text a JSON string holds.
pub uninterp spec fn json_as_str_of(v: serde_json::Value) -> Option<Seq<char>>;

/// The number a JSON unsigned integer holds.
pub uninterp spec fn json_as_u64_of(v: serde_json::Value) -> Option<u64>;

/// The truth value a JSON boolean holds.
pub uninterp spec fn json_as_bool_of(v: serde_json::Value) -> Option<bool>;

/// The elements a JSON array holds.
pub uninterp spec fn json_as_array_of(v: serde_json::Value) -> Option<Seq<serde_json::Value>>;

/// Whether a JSON value is null.
pub uninterp spec fn json_is_null_of(v: serde_json::Value) -> bool;

/// Relies on serde_json::from_str: parses one line as a JSON value.
#[verifier::external_body]
fn json_parse(s: &str) -> (r: Result<serde_json::Value, serde_json::Error>)
    ensures
        match r {
            Result::Ok(v) => json_parse_of(s@) == Option::Some(v),
            Result::Err(_) => json_parse_of(s@) == Option::None::<serde_json::Value>,
        },
{
    serde_json::from_str::<serde_json::Value>(s)
}

/// Relies on serde_json::Value::get: looks up one key of a JSON object.
#[verifier::external_body]
fn json_get<'a>(v: &'a serde_json::Value, key: &str) -> (r: Option<&'a serde_json::Value>)
    ensures
        match r {
            Option::Some(m) => json_get_of(*v, key@) == Option::Some(*m),
            Option::None => json_get_of(*v, key@) == Option::None::<serde_json::Value>,
        },
{
    v.get(key)
}

/// Relies on serde_json::Value::as_str: the string a JSON string holds.
#[verifier::external_body]
fn json_as_str<'a>(v: &'a serde_json::Value) -> (r: Option<&'a str>)
    ensures
        match r {
            Option::Some(s) => json_as_str_of(*v) == Option::Some(s@),
            Option::None => json_as_str_of(*v) == Option::None::<Seq<char>>,
        },
{
    v.as_str()
}

/// Relies on serde_json::Value::as_u64: the value of a JSON integer.
#[verifier::external_body]
fn json_as_u64(v: &serde_json::Value) -> (r: Option<u64>)
    ensures
        r == json_as_u64_of(*v),
{
    v.as_u64()
}

/// Relies on serde_json::Value::as_bool: the value of a JSON boolean.
#[verifier::external_body]
fn json_as_bool(v: &serde_json::Value) -> (r: Option<bool>)
    ensures
        r == json_as_bool_of(*v),
{
    v.as_bool()
}

/// Relies on serde_json::Value::as_array: the elements of a JSON array.
#[verifier::external_body]
fn json_as_array<'a>(v: &'a serde_json::Value) -> (r: Option<&'a Vec<serde_json::Value>>)
    ensures
        match r {
            Option::Some(a) => json_as_array_of(*v) == Option::Some(a@),
            Option::None => json_as_array_of(*v) == Option::None::<Seq<serde_json::Value>>,
        },
{
    v.as_array()
}

/// Relies on serde_json::Value::is_null: whether the value is JSON null.
#[verifier::external_body]
fn json_is_null(v: &serde_json::Value) -> (r: bool)
    ensures
        r == json_is_null_of(*v),
{
    v.is_null()
}

/// The span one span object decodes to: `file_name`, `is_primary` and
/// `line_start` are all required; anything malformed rejects the line.
pub open spec fn spec_decode_span(v: serde_json::Value) -> Option<SpanModel> {
    match json_get_of(v, "file_name"@) {
        Option::None => Option::None,
        Option::Some(f) => match json_as_str_of(f) {
            Option::None => Option::None,
            Option::Some(file_name) => match json_get_of(v, "is_primary"@) {
                Option::None => Option::None,
                Option::Some(b) => match json_as_bool_of(b) {
                    Option::None => Option::None,
                    Option::Some(is_primary) => match json_get_of(v, "line_start"@) {
                        Option::None => Option::None,
                        Option::Some(n) => match json_as_u64_of(n) {
                            Option::None => Option::None,
                            Option::Some(line_start) => Option::Some(
                                SpanModel { file_name, is_primary, line_start },
                            ),
                        },
                    },
                },
            },
        },
    }
}

/// The code one code object decodes to: `code` is required,
/// `explanation` optional and possibly null.
pub open spec fn spec_decode_code(v: serde_json::Value) -> Option<CodeModel> {
    match json_get_of(v, "code"@) {
        Option::None => Option::None,
        Option::Some(c) => match json_as_str_of(c) {
            Option::None => Option::None,
            Option::Some(code) => match json_get_of(v, "explanation"@) {
                Option::None => Option::Some(CodeModel { code, explanation: Option::None }),
                Option::Some(e) => if json_is_null_of(e) {
                    Option::Some(CodeModel { code, explanation: Option::None })
                } else {
                    match json_as_str_of(e) {
                        Option::None => Option::None,
                        Option::Some(expl) => Option::Some(
                            CodeModel { code, explanation: Option::Some(expl) },
                        ),
                    }
                },
            },
        },
    }
}

/// The spans a span array decodes to, element by element; one malformed
/// element rejects the whole array.
pub open spec fn spec_decode_spans(vs: Seq<serde_json::Value>) -> Option<Seq<SpanModel>>
    decreases vs.len(),
{
    if vs.len() == 0 {
        Option::Some(Seq::empty())
    } else {
        match spec_decode_span(vs[0]) {
            Option::None => Option::None,
            Option::Some(m) => match spec_decode_spans(vs.drop_first()) {
                Option::None => Option::None,
                Option::Some(rest) => Option::Some(seq![m] + rest),
            },
        }
    }
}

/// The tree one diagnostic object decodes to: `level`, `spans` and
/// `children` are required; `code` and `rendered` optional and possibly
/// null. `fuel` bounds the nesting depth.
pub open spec fn spec_decode_node(v: serde_json::Value, fuel: nat) -> Option<NodeModel>
    decreases fuel, 0nat,
{
    if fuel == 0 {
        Option::None
    } else {
        match json_get_of(v, "level"@) {
            Option::None => Option::None,
            Option::Some(l) => match json_as_str_of(l) {
                Option::None => Option::None,
                Option::Some(level) => {
                    let code = match json_get_of(v, "code"@) {
                        Option::None => Option::Some(Option::None::<CodeModel>),
                        Option::Some(c) => if json_is_null_of(c) {
                            Option::Some(Option::None::<CodeModel>)
                        } else {
                            match spec_decode_code(c) {
                                Option::None => Option::None,
                                Option::Some(cc) => Option::Some(Option::Some(cc)),
                            }
                        },
                    };
                    let rendered = match json_get_of(v, "rendered"@) {
                        Option::None => Option::Some(Option::None::<Seq<char>>),
                        Option::Some(r) => if json_is_null_of(r) {
                            Option::Some(Option::None::<Seq<char>>)
                        } else {
                            match json_as_str_of(r) {
                                Option::None => Option::None,
                                Option::Some(s) => Option::Some(Option::Some(s)),
                            }
                        },
                    };
                    match (code, rendered) {
                        (Option::Some(code), Option::Some(rendered)) => match json_get_of(
                            v,
                            "spans"@,
                        ) {
                            Option::None => Option::None,
                            Option::Some(sv) => match json_as_array_of(sv) {
                                Option::None => Option::None,
                                Option::Some(sarr) => match spec_decode_spans(sarr) {
                                    Option::None => Option::None,
                                    Option::Some(spans) => match json_get_of(v, "children"@) {
                                        Option::None => Option::None,
                                        Option::Some(cv) => match json_as_array_of(cv) {
                                            Option::None => Option::None,
                                            Option::Some(carr) => match spec_decode_nodes(
                                                carr,
                                                (fuel - 1) as nat,
                                            ) {
                                                Option::None => Option::None,
                                                Option::Some(children) => Option::Some(
                                                    NodeModel {
                                                        level,
                                                        code,
                                                        spans,
                                                        children,
                                                        rendered,
                                                    },
                                                ),
                                            },
                                        },
                                    },
                                },
                            },
                        },
                        _ => Option::None,
                    }
                },
            },
        }
    }
}

/// The trees a child array decodes to, element by element.
pub open spec fn spec_decode_nodes(vs: Seq<serde_json::Value>, fuel: nat) -> Option<
    Seq<NodeModel>,
>
    decreases fuel, vs.len(),
{
    if vs.len() == 0 {
        Option::Some(Seq::empty())
    } else {
        match spec_decode_node(vs[0], fuel) {
            Option::None => Option::None,
            Option::Some(m) => match spec_decode_nodes(vs.drop_first(), fuel) {
                Option::None => Option::None,
                Option::Some(rest) => Option::Some(seq![m] + rest),
            },
        }
    }
}

pub proof fn lemma_spec_decode_spans_push(vs: Seq<serde_json::Value>, x: serde_json::Value)
    ensures
        spec_decode_spans(vs.push(x)) == (match (spec_decode_spans(vs), spec_decode_span(x)) {
            (Option::Some(ms), Option::Some(m)) => Option::Some(ms.push(m)),
            _ => Option::None::<Seq<SpanModel>>,
        }),
    decreases vs.len(),
{
    if vs.len() == 0 {
        assert(vs.push(x)[0] == x);
        assert(vs.push(x).drop_first() =~= vs);
        match spec_decode_span(x) {
            Option::Some(m) => {
                assert(seq![m] + Seq::<SpanModel>::empty() =~= Seq::<SpanModel>::empty().push(
                    m,
                ));
            },
            Option::None => {},
        }
    } else {
        lemma_spec_decode_spans_push(vs.drop_first(), x);
        assert(vs.push(x)[0] == vs[0]);
        assert(vs.push(x).drop_first() =~= vs.drop_first().push(x));
        match (spec_decode_span(vs[0]), spec_decode_spans(vs.drop_first()), spec_decode_span(x)) {
            (Option::Some(m0), Option::Some(rest), Option::Some(m)) => {
                assert(seq![m0] + rest.push(m) =~= (seq![m0] + rest).push(m));
            },
            _ => {},
        }
    }
}

pub proof fn lemma_spec_decode_spans_none(vs: Seq<serde_json::Value>, i: int)
    requires
        0 <= i < vs.len(),
        spec_decode_span(vs[i]) == Option::None::<SpanModel>,
    ensures
        spec_decode_spans(vs) == Option::None::<Seq<SpanModel>>,
    decreases vs.len(),
{
    if i > 0 {
        lemma_spec_decode_spans_none(vs.drop_first(), i - 1);
        assert(vs.drop_first()[i - 1] == vs[i]);
    }
}

pub proof fn lemma_spec_decode_nodes_push(
    vs: Seq<serde_json::Value>,
    x: serde_json::Value,
    fuel: nat,
)
    ensures
        spec_decode_nodes(vs.push(x), fuel) == (match (
            spec_decode_nodes(vs, fuel),
            spec_decode_node(x, fuel),
        ) {
            (Option::Some(ms), Option::Some(m)) => Option::Some(ms.push(m)),
            _ => Option::None::<Seq<NodeModel>>,
        }),
    decreases vs.len(),
{
    if vs.len() == 0 {
        assert(vs.push(x)[0] == x);
        assert(vs.push(x).drop_first() =~= vs);
        match spec_decode_node(x, fuel) {
            Option::Some(m) => {
                assert(seq![m] + Seq::<NodeModel>::empty() =~= Seq::<NodeModel>::empty().push(m));
            },
            Option::None => {},
        }
    } else {
        lemma_spec_decode_nodes_push(vs.drop_first(), x, fuel);
        assert(vs.push(x)[0] == vs[0]);
        assert(vs.push(x).drop_first() =~= vs.drop_first().push(x));
        match (
            spec_decode_node(vs[0], fuel),
            spec_decode_nodes(vs.drop_first(), fuel),
            spec_decode_node(x, fuel),
        ) {
            (Option::Some(m0), Option::Some(rest), Option::Some(m)) => {
                assert(seq![m0] + rest.push(m) =~= (seq![m0] + rest).push(m));
            },
            _ => {},
        }
    }
}

pub proof fn lemma_spec_decode_nodes_none(vs: Seq<serde_json::Value>, i: int, fuel: nat)
    requires
        0 <= i < vs.len(),
        spec_decode_node(vs[i], fuel) == Option::None::<NodeModel>,
    ensures
        spec_decode_nodes(vs, fuel) == Option::None::<Seq<NodeModel>>,
    decreases vs.len(),
{
    if i > 0 {
        lemma_spec_decode_nodes_none(vs.drop_first(), i - 1, fuel);
        assert(vs.drop_first()[i - 1] == vs[i]);
    }
}

/// Decodes one span object.
fn decode_span(v: &serde_json::Value) -> (r: Option<RustcSpan>)
    ensures
        match r {
            Option::Some(s) => spec_decode_span(*v) == Option::Some(s@),
            Option::None => spec_decode_span(*v) == Option::None::<SpanModel>,
        },
{
    let file_name = match json_get(v, "file_name") {
        Option::Some(f) => match json_as_str(f) {
            Option::Some(s) => String::from_str(s),
            Option::None => {
                return Option::None;
            },
        },
        Option::None => {
            return Option::None;
        },
    };
    let is_primary = match json_get(v, "is_primary") {
        Option::Some(b) => match json_as_bool(b) {
            Option::Some(x) => x,
            Option::None => {
                return Option::None;
            },
        },
        Option::None => {
            return Option::None;
        },
    };
    let line_start = match json_get(v, "line_start") {
        Option::Some(n) => match json_as_u64(n) {
            Option::Some(x) => x,
            Option::None => {
                return Option::None;
            },
        },
        Option::None => {
            return Option::None;
        },
    };
    Option::Some(RustcSpan { file_name, is_primary, line_start })
}

/// Decodes a diagnostic code object.
fn decode_code(v: &serde_json::Value) -> (r: Option<RustcErrorCode>)
    ensures
        match r {
            Option::Some(c) => spec_decode_code(*v) == Option::Some(c@),
            Option::None => spec_decode_code(*v) == Option::None::<CodeModel>,
        },
{
    let code = match json_get(v, "code") {
        Option::Some(c) => match json_as_str(c) {
            Option::Some(s) => String::from_str(s),
            Option::None => {
                return Option::None;
            },
        },
        Option::None => {
            return Option::None;
        },
    };
    let explanation = match json_get(v, "explanation") {
        Option::Some(e) => {
            if json_is_null(e) {
                Option::None
            } else {
                match json_as_str(e) {
                    Option::Some(s) => Option::Some(String::from_str(s)),
                    Option::None => {
                        return Option::None;
                    },
                }
            }
        },
        Option::None => Option::None,
    };
    Option::Some(RustcErrorCode { code, explanation })
}

/// Decodes one diagnostic node. `fuel` bounds the nesting depth; a line
/// nested deeper than its own length is treated as malformed and
/// skipped.
fn decode_node(v: &serde_json::Value, fuel: usize) -> (r: Option<RustcDiagnosticData>)
    ensures
        match r {
            Option::Some(n) => spec_decode_node(*v, fuel as nat) == Option::Some(node_model(n)),
            Option::None => spec_decode_node(*v, fuel as nat) == Option::None::<NodeModel>,
        },
    decreases fuel,
{
    if fuel == 0 {
        return Option::None;
    }
    let level = match json_get(v, "level") {
        Option::Some(l) => match json_as_str(l) {
            Option::Some(s) => String::from_str(s),
            Option::None => {
                return Option::None;
            },
        },
        Option::None => {
            return Option::None;
        },
    };
    let code = match json_get(v, "code") {
        Option::Some(c) => {
            if json_is_null(c) {
                Option::None
            } else {
                match decode_code(c) {
                    Option::Some(cc) => Option::Some(cc),
                    Option::None => {
                        return Option::None;
                    },
                }
            }
        },
        Option::None => Option::None,
    };
    let rendered = match json_get(v, "rendered") {
        Option::Some(r) => {
            if json_is_null(r) {
                Option::None
            } else {
                match json_as_str(r) {
                    Option::Some(s) => Option::Some(String::from_str(s)),
                    Option::None => {
                        return Option::None;
                    },
                }
            }
        },
        Option::None => Option::None,
    };
    let mut spans: Vec<RustcSpan> = Vec::new();
    let ghost sarr: Seq<serde_json::Value>;
    match json_get(v, "spans") {
        Option::Some(sv) => match json_as_array(sv) {
            Option::Some(arr) => {
                proof {
                    sarr = arr@;
                    assert(sarr.subrange(0, 0) =~= Seq::<serde_json::Value>::empty());
                    assert(crate::diag::span_views(spans@) =~= Seq::<SpanModel>::empty());
                }
                let mut i: usize = 0;
                let mut bad = false;
                while i < arr.len() && !bad
                    invariant
                        0 <= i <= arr@.len(),
                        sarr == arr@,
                        bad ==> spec_decode_spans(sarr) == Option::None::<Seq<SpanModel>>,
                        !bad ==> spec_decode_spans(sarr.subrange(0, i as int)) == Option::Some(
                            crate::diag::span_views(spans@),
                        ),
                    decreases arr@.len() - i + (if bad {
                        0int
                    } else {
                        1int
                    }),
                {
                    let ghost spans_before = spans@;
                    match decode_span(&arr[i]) {
                        Option::Some(s) => {
                            spans.push(s);
                            proof {
                                lemma_spec_decode_spans_push(
                                    sarr.subrange(0, i as int),
                                    sarr[i as int],
                                );
                                assert(sarr.subrange(0, i + 1) =~= sarr.subrange(
                                    0,
                                    i as int,
                                ).push(sarr[i as int]));
                                assert(crate::diag::span_views(spans@) =~= crate::diag::span_views(
                                    spans_before,
                                ).push(spans@.last()@));
                            }
                            i = i + 1;
                        },
                        Option::None => {
                            proof {
                                lemma_spec_decode_spans_none(sarr, i as int);
                            }
                            bad = true;
                        },
                    }
                }
                if bad {
                    return Option::None;
                }
                proof {
                    assert(sarr.subrange(0, sarr.len() as int) =~= sarr);
                }
            },
            Option::None => {
                return Option::None;
            },
        },
        Option::None => {
            return Option::None;
        },
    }
    let mut children: Vec<RustcDiagnosticData> = Vec::new();
    let ghost carr: Seq<serde_json::Value>;
    match json_get(v, "children") {
        Option::Some(cv) => match json_as_array(cv) {
            Option::Some(arr) => {
                proof {
                    carr = arr@;
                    assert(carr.subrange(0, 0) =~= Seq::<serde_json::Value>::empty());
                    assert(node_models(children@) =~= Seq::<NodeModel>::empty());
                }
                let mut i: usize = 0;
                let mut bad = false;
                while i < arr.len() && !bad
                    invariant
                        0 <= i <= arr@.len(),
                        fuel >= 1,
                        carr == arr@,
                        bad ==> spec_decode_nodes(carr, (fuel - 1) as nat) == Option::None::<
                            Seq<NodeModel>,
                        >,
                        !bad ==> spec_decode_nodes(carr.subrange(0, i as int), (fuel - 1) as nat)
                            == Option::Some(node_models(children@)),
                    decreases arr@.len() - i + (if bad {
                        0int
                    } else {
                        1int
                    }),
                {
                    let ghost children_before = children@;
                    match decode_node(&arr[i], fuel - 1) {
                        Option::Some(c) => {
                            children.push(c);
                            proof {
                                lemma_spec_decode_nodes_push(
                                    carr.subrange(0, i as int),
                                    carr[i as int],
                                    (fuel - 1) as nat,
                                );
                                assert(carr.subrange(0, i + 1) =~= carr.subrange(
                                    0,
                                    i as int,
                                ).push(carr[i as int]));
                                crate::diag::lemma_node_models_push(
                                    children_before,
                                    children@.last(),
                                );
                                assert(children@ =~= children_before.push(children@.last()));
                            }
                            i = i + 1;
                        },
                        Option::None => {
                            proof {
                                lemma_spec_decode_nodes_none(carr, i as int, (fuel - 1) as nat);
                            }
                            bad = true;
                        },
                    }
                }
                if bad {
                    return Option::None;
                }
                proof {
                    assert(carr.subrange(0, carr.len() as int) =~= carr);
                }
            },
            Option::None => {
                return Option::None;
            },
        },
        Option::None => {
            return Option::None;
        },
    }
    let node = RustcDiagnosticData { level, code, spans, children, rendered };
    proof {
        assert(node_model(node).spans == crate::diag::span_views(node.spans@));
        assert(node_model(node).children == node_models(node.children@));
        assert(spec_decode_node(*v, fuel as nat) == Option::Some(node_model(node)));
    }
    Option::Some(node)
}

/// The tree one stream line decodes to: a line that does not open a JSON
/// object, does not parse, is not tagged `compiler-message`, or carries
/// no well-formed diagnostic payload yields nothing.
pub open spec fn spec_decode_line(line: Seq<char>) -> Option<NodeModel> {
    if !is_text_prefix("{"@, line) {
        Option::None
    } else {
        match json_parse_of(line) {
            Option::None => Option::None,
            Option::Some(v) => {
                let reason_ok = match json_get_of(v, "reason"@) {
                    Option::Some(r) => match json_as_str_of(r) {
                        Option::Some(s) => s == "compiler-message"@,
                        Option::None => false,
                    },
                    Option::None => false,
                };
                if !reason_ok {
                    Option::None
                } else {
                    match json_get_of(v, "message"@) {
                        Option::None => Option::None,
                        Option::Some(m) => if json_is_null_of(m) {
                            Option::None
                        } else {
                            spec_decode_node(m, line.len())
                        },
                    }
                }
            },
        }
    }
}

/// Decodes one stream line: a well-formed message whose kind is
/// `compiler-message` yields its diagnostic tree; anything else yields
/// nothing.
pub fn decode_compiler_message_line(line: &str) -> (r: Option<RustcDiagnosticData>)
    ensures
        match r {
            Option::Some(n) => spec_decode_line(line@) == Option::Some(node_model(n)),
            Option::None => spec_decode_line(line@) == Option::None::<NodeModel>,
        },
{
    if !str_starts_with(line, "{") {
        return Option::None;
    }
    let parsed = match json_parse(line) {
        Result::Ok(v) => v,
        Result::Err(_) => {
            return Option::None;
        },
    };
    let reason_ok = match json_get(&parsed, "reason") {
        Option::Some(r) => match json_as_str(r) {
            Option::Some(s) => str_eq(s, "compiler-message"),
            Option::None => false,
        },
        Option::None => false,
    };
    if !reason_ok {
        return Option::None;
    }
    match json_get(&parsed, "message") {
        Option::Some(m) => {
            if json_is_null(m) {
                Option::None
            } else {
                decode_node(m, line.unicode_len())
            }
        },
        Option::None => Option::None,
    }
}

/// The trees one probe's stream decodes to: each line's tree, when it
/// has one, in stream order; every other line contributes nothing.
pub open spec fn decoded_lines(lines: Seq<Seq<char>>) -> Seq<NodeModel>
    decreases lines.len(),
{
    if lines.len() == 0 {
        Seq::empty()
    } else {
        (match spec_decode_line(lines[0]) {
            Option::Some(t) => seq![t],
            Option::None => Seq::empty(),
        }) + decoded_lines(lines.drop_first())
    }
}

pub proof fn lemma_decoded_lines_push(lines: Seq<Seq<char>>, l: Seq<char>)
    ensures
        decoded_lines(lines.push(l)) == decoded_lines(lines) + (match spec_decode_line(l) {
            Option::Some(t) => seq![t],
            Option::None => Seq::<NodeModel>::empty(),
        }),
    decreases lines.len(),
{
    let tail: Seq<NodeModel> = match spec_decode_line(l) {
        Option::Some(t) => seq![t],
        Option::None => Seq::empty(),
    };
    if lines.len() == 0 {
        assert(lines.push(l)[0] == l);
        assert(lines.push(l).drop_first() =~= lines);
        assert(decoded_lines(lines.push(l)) =~= decoded_lines(lines) + tail);
    } else {
        lemma_decoded_lines_push(lines.drop_first(), l);
        assert(lines.push(l)[0] == lines[0]);
        assert(lines.push(l).drop_first() =~= lines.drop_first().push(l));
        assert(decoded_lines(lines.push(l)) =~= decoded_lines(lines) + tail);
    }
}

/// Decodes one probe's whole output stream: the trees are exactly the
/// per-line decodes of the stream's lines that yield one, in stream
/// order; all other lines are skipped silently.
pub fn decode_probe_output(stdout: &str) -> (r: Vec<RustcDiagnosticData>)
    ensures
        node_models(r@) == decoded_lines(split_lines_text(stdout@)),
{
    let lines = split_lines(stdout);
    let ghost lvs = string_views(lines@);
    let mut trees: Vec<RustcDiagnosticData> = Vec::new();
    let mut i: usize = 0;
    proof {
        assert(lvs.subrange(0, 0) =~= Seq::<Seq<char>>::empty());
        assert(node_models(trees@) =~= decoded_lines(lvs.subrange(0, 0)));
    }
    while i < lines.len()
        invariant
            0 <= i <= lines@.len(),
            lvs == string_views(lines@),
            node_models(trees@) == decoded_lines(lvs.subrange(0, i as int)),
        decreases lines@.len() - i,
    {
        let ghost trees_before = trees@;
        proof {
            assert(lvs[i as int] == lines@[i as int]@);
            lemma_decoded_lines_push(lvs.subrange(0, i as int), lvs[i as int]);
            assert(lvs.subrange(0, i + 1) =~= lvs.subrange(0, i as int).push(lvs[i as int]));
        }
        match decode_compiler_message_line(lines[i].as_str()) {
            Option::Some(t) => {
                trees.push(t);
                proof {
                    crate::diag::lemma_node_models_push(trees_before, trees@.last());
                    assert(trees@ =~= trees_before.push(trees@.last()));
                    assert(node_models(trees@) =~= decoded_lines(lvs.subrange(0, i as int))
                        + seq![node_model(trees@.last())]);
                }
            },
            Option::None => {},
        }
        i = i + 1;
    }
    proof {
        assert(lvs.subrange(0, lvs.len() as int) =~= lvs);
    }
    trees
}

} // verus!
