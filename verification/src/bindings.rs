//! Input bindings: what a binding such as `previous_output`, `var:NAME` or
//! `node:ID.parsedOutput.PATH` names, and the items a parallel batch reads
//! from its binding.

use vstd::prelude::*;

use crate::counters::key_lookup;
use crate::results::{find_result, result_of, results_view, NodeResult};
use crate::skip::lookup_output;
use crate::text::{
    chars_of, contains_chars, contains_seq, ends_with, ends_with_chars, pairs_view, slice_chars, starts_with,
    starts_with_chars, str_eq, string_of, trim_str, trim_ws,
};
use vstd::string::StringSliceAdditionalSpecFns;

verus! {

/// What a JSON text holds, as far as a batch reads it.
pub enum JsonShape {
    /// The text is not JSON.
    Invalid,
    /// An array: each element as the compact JSON text `serde_json` writes.
    Array(Vec<String>),
    /// A string: its content.
    Str(String),
    /// Any other JSON value.
    Other,
}

pub enum JsonShapeView {
    Invalid,
    Array(Seq<Seq<char>>),
    Str(Seq<char>),
    Other,
}

impl View for JsonShape {
    type V = JsonShapeView;

    open spec fn view(&self) -> JsonShapeView {
        match self {
            JsonShape::Invalid => JsonShapeView::Invalid,
            JsonShape::Array(v) => JsonShapeView::Array(v.deep_view()),
            JsonShape::Str(s) => JsonShapeView::Str(s@),
            JsonShape::Other => JsonShapeView::Other,
        }
    }
}

/// What `serde_json::from_str::<serde_json::Value>` reads from `text`, told
/// apart by variant.
pub uninterp spec fn json_shape(text: Seq<char>) -> JsonShapeView;

/// `serde_json::from_str` into a `serde_json::Value`; an array is handed on
/// as its elements' compact texts (`Value`'s `Display`), a string as its
/// content. Which texts parse, and to what, is left to the crate.
#[verifier::external_body]
fn read_json_shape(text: &str) -> (r: JsonShape)
    ensures
        r@ == json_shape(text@),
{
    match serde_json::from_str::<serde_json::Value>(text) {
        Err(_) => JsonShape::Invalid,
        Ok(serde_json::Value::Array(items)) => JsonShape::Array(items.iter().map(|v| v.to_string()).collect()),
        Ok(serde_json::Value::String(s)) => JsonShape::Str(s),
        Ok(_) => JsonShape::Other,
    }
}

/// The value a binding names: plain text, or the compact JSON text of a
/// value taken from a parsed output.
#[derive(Debug, PartialEq, Eq)]
pub enum BindingValue {
    Text(String),
    Json(String),
}

pub enum BindingValueView {
    Text(Seq<char>),
    Json(Seq<char>),
}

impl View for BindingValue {
    type V = BindingValueView;

    open spec fn view(&self) -> BindingValueView {
        match self {
            BindingValue::Text(s) => BindingValueView::Text(s@),
            BindingValue::Json(s) => BindingValueView::Json(s@),
        }
    }
}

/// What a binding reads besides the run's results and variables.
#[derive(Debug)]
pub struct BindingContext {
    pub last_output: String,
    pub last_branch_origin_id: Option<String>,
    pub last_branch_choice: Option<String>,
    /// For each binding of the form `node:ID.parsedOutput.PATH` or
    /// `node:ID.output.PATH` (written as the binding is, trimmed): the
    /// compact JSON text of the field it reaches. A field binding without an
    /// entry names nothing (no result, no JSON, or no such field).
    pub fields: Vec<(String, String)>,
}

pub open spec fn or_empty(o: Option<Seq<char>>) -> Seq<char> {
    match o {
        Some(t) => t,
        None => Seq::empty(),
    }
}

pub open spec fn as_text(o: Option<Seq<char>>) -> Option<BindingValueView> {
    match o {
        Some(t) => Some(BindingValueView::Text(t)),
        None => None,
    }
}

pub open spec fn as_json(o: Option<Seq<char>>) -> Option<BindingValueView> {
    match o {
        Some(t) => Some(BindingValueView::Json(t)),
        None => None,
    }
}

/// What the binding `rest` of a `node:` binding names.
pub open spec fn node_binding(
    rest: Seq<char>,
    source: Seq<char>,
    rs: Seq<crate::results::NodeResultView>,
    fields: Seq<(Seq<char>, Seq<char>)>,
) -> Option<BindingValueView> {
    if contains_seq(rest, ".parsedOutput."@) {
        as_json(key_lookup(fields, source))
    } else if ends_with(rest, ".parsedOutput"@) {
        let id = rest.take(rest.len() - 13);
        match result_of(rs, id) {
            Some(r) => as_json(r.parsed_output),
            None => None,
        }
    } else if contains_seq(rest, ".output."@) {
        as_json(key_lookup(fields, source))
    } else {
        let id = if ends_with(rest, ".output"@) {
            rest.take(rest.len() - 7)
        } else {
            rest
        };
        match result_of(rs, id) {
            Some(r) => Some(BindingValueView::Text(r.output)),
            None => None,
        }
    }
}

/// What a binding names once trimmed: the cursor's previous output or last
/// branch, a variable (`var:NAME`), a node's output, parsed output or one of
/// their fields (`node:ID...`), else a variable or a node output of that
/// name.
pub open spec fn binding_value(
    binding: Seq<char>,
    rs: Seq<crate::results::NodeResultView>,
    vars: Seq<(Seq<char>, Seq<char>)>,
    last_output: Seq<char>,
    origin: Option<Seq<char>>,
    choice: Option<Seq<char>>,
    fields: Seq<(Seq<char>, Seq<char>)>,
) -> Option<BindingValueView> {
    let source = trim_ws(binding);
    if source == "previous_output"@ {
        Some(BindingValueView::Text(last_output))
    } else if source == "branch_origin"@ {
        Some(BindingValueView::Text(or_empty(origin)))
    } else if source == "branch_choice"@ {
        Some(BindingValueView::Text(or_empty(choice)))
    } else if starts_with(source, "var:"@) {
        as_text(key_lookup(vars, source.skip(4)))
    } else if starts_with(source, "node:"@) {
        node_binding(source.skip(5), source, rs, fields)
    } else {
        match key_lookup(vars, source) {
            Some(v) => Some(BindingValueView::Text(v)),
            None => match result_of(rs, source) {
                Some(r) => Some(BindingValueView::Text(r.output)),
                None => None,
            },
        }
    }
}

pub open spec fn opt_value(o: Option<BindingValue>) -> Option<BindingValueView> {
    match o {
        Some(v) => Some(v@),
        None => None,
    }
}

fn text_value(o: Option<String>) -> (r: Option<BindingValue>)
    ensures
        opt_value(r) == as_text(o.deep_view()),
{
    match o {
        Some(t) => Some(BindingValue::Text(t)),
        None => None,
    }
}

fn json_value(o: Option<String>) -> (r: Option<BindingValue>)
    ensures
        opt_value(r) == as_json(o.deep_view()),
{
    match o {
        Some(t) => Some(BindingValue::Json(t)),
        None => None,
    }
}

fn output_of(results: &Vec<NodeResult>, id: &str) -> (r: Option<BindingValue>)
    ensures
        opt_value(r) == match result_of(results_view(results@), id@) {
            Some(x) => Some(BindingValueView::Text(x.output)),
            None => None,
        },
{
    match find_result(results, id) {
        Some(k) => Some(BindingValue::Text(results[k].output.clone())),
        None => None,
    }
}

/// What a binding names (see `binding_value`).
pub fn resolve_input_binding_value(
    binding: &str,
    results: &Vec<NodeResult>,
    var_map: &Vec<(String, String)>,
    ctx: &BindingContext,
) -> (r: Option<BindingValue>)
    ensures
        opt_value(r) == binding_value(
            binding@,
            results_view(results@),
            pairs_view(var_map@),
            ctx.last_output@,
            ctx.last_branch_origin_id.deep_view(),
            ctx.last_branch_choice.deep_view(),
            pairs_view(ctx.fields@),
        ),
{
    proof {
        reveal_strlit("previous_output");
        reveal_strlit("branch_origin");
        reveal_strlit("branch_choice");
        reveal_strlit("var:");
        reveal_strlit("node:");
        reveal_strlit(".parsedOutput.");
        reveal_strlit(".parsedOutput");
        reveal_strlit(".output.");
        reveal_strlit(".output");
    }
    let source = trim_str(binding);
    let sv = chars_of(source.as_str());
    if str_eq(source.as_str(), "previous_output") {
        return Some(BindingValue::Text(ctx.last_output.clone()));
    }
    if str_eq(source.as_str(), "branch_origin") {
        return Some(
            BindingValue::Text(
                match &ctx.last_branch_origin_id {
                    Some(o) => o.clone(),
                    None => String::new(),
                },
            ),
        );
    }
    if str_eq(source.as_str(), "branch_choice") {
        return Some(
            BindingValue::Text(
                match &ctx.last_branch_choice {
                    Some(o) => o.clone(),
                    None => String::new(),
                },
            ),
        );
    }
    let var_prefix = chars_of("var:");
    if starts_with_chars(sv.as_slice(), var_prefix.as_slice()) {
        let name = string_of(slice_chars(sv.as_slice(), 4, sv.len()).as_slice());
        assert(name@ =~= sv@.skip(4));
        return text_value(lookup_output(var_map, name.as_str()));
    }
    let node_prefix = chars_of("node:");
    if starts_with_chars(sv.as_slice(), node_prefix.as_slice()) {
        let rest = slice_chars(sv.as_slice(), 5, sv.len());
        assert(rest@ =~= sv@.skip(5));
        let field_dot = chars_of(".parsedOutput.");
        if contains_chars(rest.as_slice(), field_dot.as_slice()) {
            return json_value(lookup_output(&ctx.fields, source.as_str()));
        }
        let parsed = chars_of(".parsedOutput");
        if ends_with_chars(rest.as_slice(), parsed.as_slice()) {
            let id = string_of(slice_chars(rest.as_slice(), 0, rest.len() - 13).as_slice());
            assert(id@ =~= rest@.take(rest@.len() - 13));
            return match find_result(results, id.as_str()) {
                Some(k) => json_value(crate::graph::clone_opt_string(&results[k].parsed_output)),
                None => None,
            };
        }
        let output_dot = chars_of(".output.");
        if contains_chars(rest.as_slice(), output_dot.as_slice()) {
            return json_value(lookup_output(&ctx.fields, source.as_str()));
        }
        let output = chars_of(".output");
        let id = if ends_with_chars(rest.as_slice(), output.as_slice()) {
            let t = slice_chars(rest.as_slice(), 0, rest.len() - 7);
            assert(t@ =~= rest@.take(rest@.len() - 7));
            string_of(t.as_slice())
        } else {
            string_of(rest.as_slice())
        };
        return output_of(results, id.as_str());
    }
    match lookup_output(var_map, source.as_str()) {
        Some(v) => Some(BindingValue::Text(v)),
        None => output_of(results, source.as_str()),
    }
}

/// Why a batch could not read its items.
#[derive(Debug, Clone, Copy, PartialEq, Eq, Structural)]
pub enum BatchItemsError {
    /// The binding names nothing.
    NotSet,
    /// What the binding names is not a JSON array.
    NotAnArray,
}

/// The items of a text that should hold a JSON array.
pub open spec fn array_in_text(t: Seq<char>) -> Result<Seq<Seq<char>>, BatchItemsError> {
    match json_shape(t) {
        JsonShapeView::Array(items) => Ok(items),
        _ => Err(BatchItemsError::NotAnArray),
    }
}

/// The items a batch reads from its binding (trimmed): the parsed output
/// of the node of that id when it is an array; else what the binding names
/// (`NotSet` when nothing): an array value is taken as it is, a string (or
/// plain text) is read as JSON and must hold an array, anything else is
/// `NotAnArray`. Each item is the compact JSON text of an element.
pub open spec fn batch_items(
    binding: Seq<char>,
    rs: Seq<crate::results::NodeResultView>,
    vars: Seq<(Seq<char>, Seq<char>)>,
    last_output: Seq<char>,
    origin: Option<Seq<char>>,
    choice: Option<Seq<char>>,
    fields: Seq<(Seq<char>, Seq<char>)>,
) -> Result<Seq<Seq<char>>, BatchItemsError> {
    let b = trim_ws(binding);
    let direct = match result_of(rs, b) {
        Some(r) => match r.parsed_output {
            Some(p) => match json_shape(p) {
                JsonShapeView::Array(items) => Some(items),
                _ => None,
            },
            None => None,
        },
        None => None,
    };
    match direct {
        Some(items) => Ok(items),
        None => match binding_value(binding, rs, vars, last_output, origin, choice, fields) {
            None => Err(BatchItemsError::NotSet),
            Some(BindingValueView::Text(t)) => array_in_text(t),
            Some(BindingValueView::Json(j)) => match json_shape(j) {
                JsonShapeView::Array(items) => Ok(items),
                JsonShapeView::Str(raw) => array_in_text(raw),
                _ => Err(BatchItemsError::NotAnArray),
            },
        },
    }
}

fn read_array(text: &str) -> (r: Result<Vec<String>, BatchItemsError>)
    ensures
        match r {
            Ok(v) => array_in_text(text@) == Ok::<Seq<Seq<char>>, BatchItemsError>(v.deep_view()),
            Err(e) => array_in_text(text@) == Err::<Seq<Seq<char>>, BatchItemsError>(e),
        },
{
    match read_json_shape(text) {
        JsonShape::Array(items) => Ok(items),
        _ => Err(BatchItemsError::NotAnArray),
    }
}

/// Reads the items of a parallel batch from its binding (see
/// `batch_items`).
pub fn read_batch_items(
    binding: &str,
    results: &Vec<NodeResult>,
    var_map: &Vec<(String, String)>,
    ctx: &BindingContext,
) -> (r: Result<Vec<String>, BatchItemsError>)
    ensures
        match r {
            Ok(v) => batch_items(
                binding@,
                results_view(results@),
                pairs_view(var_map@),
                ctx.last_output@,
                ctx.last_branch_origin_id.deep_view(),
                ctx.last_branch_choice.deep_view(),
                pairs_view(ctx.fields@),
            ) == Ok::<Seq<Seq<char>>, BatchItemsError>(v.deep_view()),
            Err(e) => batch_items(
                binding@,
                results_view(results@),
                pairs_view(var_map@),
                ctx.last_output@,
                ctx.last_branch_origin_id.deep_view(),
                ctx.last_branch_choice.deep_view(),
                pairs_view(ctx.fields@),
            ) == Err::<Seq<Seq<char>>, BatchItemsError>(e),
        },
{
    let b = trim_str(binding);
    match find_result(results, b.as_str()) {
        Some(k) => match &results[k].parsed_output {
            Some(p) => match read_json_shape(p.as_str()) {
                JsonShape::Array(items) => {
                    return Ok(items);
                },
                _ => {},
            },
            None => {},
        },
        None => {},
    }
    match resolve_input_binding_value(binding, results, var_map, ctx) {
        None => Err(BatchItemsError::NotSet),
        Some(BindingValue::Text(t)) => read_array(t.as_str()),
        Some(BindingValue::Json(j)) => match read_json_shape(j.as_str()) {
            JsonShape::Array(items) => Ok(items),
            JsonShape::Str(raw) => read_array(raw.as_str()),
            _ => Err(BatchItemsError::NotAnArray),
        },
    }
}

} // verus!
