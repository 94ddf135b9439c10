//! What a node task decides around its outside steps (the orchestrator's
//! refinement, the agent attempts, the JSON reading of the reply): which
//! prompt the agent gets, whether a failed attempt is retried, which agent
//! session is resumed, and what the structured output is.

use vstd::prelude::*;

use crate::decide::{structured_text, structured_text_exec};
use crate::results::{find_result, result_of, results_view, NodeResult, NodeResultView};
use crate::text::str_eq;

verus! {

/// `serde_json::Value`, carried through as an opaque value.
#[verifier::external_type_specification]
#[verifier::external_body]
pub struct ExJsonValue(serde_json::Value);

/// What `serde_json` reads from `text`: the value `text` holds, as the
/// compact JSON text `serde_json` writes for it, or the message of the
/// error it reports when `text` is not one JSON value.
pub uninterp spec fn json_reading(text: Seq<char>) -> Result<Seq<char>, Seq<char>>;

/// `serde_json::from_str` into a `serde_json::Value`, handed on as the
/// compact text `Value` displays as; on failure the error's `Display` text.
/// Which texts parse, and the text and message that come out, are left to
/// the crate.
#[verifier::external_body]
fn parse_json_value(text: &str) -> (r: Result<String, String>)
    ensures
        match r {
            Ok(v) => json_reading(text@) == Ok::<Seq<char>, Seq<char>>(v@),
            Err(e) => json_reading(text@) == Err::<Seq<char>, Seq<char>>(e@),
        },
{
    serde_json::from_str::<serde_json::Value>(text).map(|v| v.to_string()).map_err(|e| e.to_string())
}

/// The output of an agent run as far as its JSON reading goes; the parsed
/// output is kept as compact JSON text.
#[derive(Debug)]
pub struct StructuredOutput {
    pub output: String,
    pub raw_output: Option<String>,
    pub parsed_output: Option<String>,
    pub parse_error: Option<String>,
}

/// Keeps the raw output (the output itself when none was kept) and, for a
/// node that answers in JSON and has no parsed output yet, parses the
/// trimmed output (the body of its markdown fence when it has one): its
/// value becomes the parsed output, or its error the parse error.
pub fn parse_structured_output(json_response: bool, result: &mut StructuredOutput)
    ensures
        final(result).output@ == old(result).output@,
        final(result).raw_output.deep_view() == (match old(result).raw_output {
            Some(r) => Some(r@),
            None => Some(old(result).output@),
        }),
        !json_response || old(result).parsed_output is Some ==> final(result).parsed_output.deep_view()
            == old(result).parsed_output.deep_view() && final(result).parse_error.deep_view() == old(
            result,
        ).parse_error.deep_view(),
        json_response && old(result).parsed_output is None ==> match json_reading(
            structured_text(old(result).output@),
        ) {
            Ok(v) => final(result).parsed_output.deep_view() == Some(v) && final(result).parse_error.deep_view()
                == old(result).parse_error.deep_view(),
            Err(e) => final(result).parsed_output is None && final(result).parse_error.deep_view()
                == Some(e),
        },
{
    if result.raw_output.is_none() {
        result.raw_output = Some(result.output.clone());
    }
    if !json_response || result.parsed_output.is_some() {
        return;
    }
    let text = structured_text_exec(result.output.as_str());
    match parse_json_value(text.as_str()) {
        Ok(value) => {
            result.parsed_output = Some(value);
        },
        Err(message) => {
            result.parse_error = Some(message);
        },
    }
}

/// The orchestrator refines a node's prompt only when it is on and the
/// cursor carries an output from an earlier node.
pub fn should_refine(use_orchestrator: bool, last_output: &str) -> (r: bool)
    ensures
        r == (use_orchestrator && last_output@.len() > 0),
{
    use_orchestrator && !last_output.is_empty()
}

/// The prompt refinement that is used: the orchestrator's output when it
/// succeeded with a non-empty output; none otherwise (an orchestrator error
/// counts as no success), and the agent keeps the resolved prompt.
pub fn accepted_refinement(success: bool, output: String) -> (r: Option<String>)
    ensures
        r.deep_view() == (if success && output@.len() > 0 {
            Some(output@)
        } else {
            None
        }),
{
    if success && !output.as_str().is_empty() {
        Some(output)
    } else {
        None
    }
}

/// The seconds to wait before retrying an agent attempt, or `None` when
/// attempt number `attempts` (counting from one) ends the task: it
/// succeeded or no attempt is left. The delay defaults to two seconds.
pub fn retry_delay(success: bool, attempts: u32, max_attempts: u32, configured_delay: Option<u64>) -> (r:
    Option<u64>)
    ensures
        r == (if success || attempts >= max_attempts {
            None
        } else {
            Some(
                match configured_delay {
                    Some(d) => d,
                    None => 2u64,
                },
            )
        }),
{
    if success || attempts >= max_attempts {
        None
    } else {
        match configured_delay {
            Some(d) => Some(d),
            None => Some(2),
        }
    }
}

/// Source `id` has a result, and it is preserved from an earlier run.
pub open spec fn is_stale_source(rs: Seq<NodeResultView>) -> spec_fn(Seq<char>) -> bool {
    |id: Seq<char>|
        match result_of(rs, id) {
            Some(r) => r.stale,
            None => false,
        }
}

/// How many of a node's inbound sources have a result preserved from an
/// earlier run (the node then warns that it reads such outputs).
pub fn stale_predecessor_count(sources: &Vec<String>, results: &Vec<NodeResult>) -> (r: usize)
    ensures
        r == sources.deep_view().filter(is_stale_source(results_view(results@))).len(),
{
    let ghost sv = sources.deep_view();
    let ghost p = is_stale_source(results_view(results@));
    let mut count: usize = 0;
    let mut i: usize = 0;
    while i < sources.len()
        invariant
            i <= sources.len(),
            sv == sources.deep_view(),
            p == is_stale_source(results_view(results@)),
            count == sv.take(i as int).filter(p).len(),
            count <= i,
        decreases sources.len() - i,
    {
        proof {
            crate::seqs::lemma_filter_take_step(sv, p, i as int);
        }
        match find_result(results, sources[i].as_str()) {
            Some(k) => {
                if results[k].stale {
                    count += 1;
                }
            },
            None => {},
        }
        i += 1;
    }
    proof {
        crate::seqs::lemma_take_full(sv);
    }
    count
}

/// The agent session a node resumes: that of the result of the node it
/// continues the session of, when both exist.
pub open spec fn resumed_session(continue_from: Option<Seq<char>>, rs: Seq<NodeResultView>) -> Option<
    Seq<char>,
> {
    match continue_from {
        None => None,
        Some(source) => match result_of(rs, source) {
            Some(r) => r.agent_session_id,
            None => None,
        },
    }
}

/// The agent session to resume for a node that continues the session of
/// node `continue_from`, given the recorded results.
pub fn resume_session_id(continue_from: &Option<String>, results: &Vec<NodeResult>) -> (r: Option<
    String,
>)
    ensures
        r.deep_view() == resumed_session(
            continue_from.deep_view(),
            results_view(results@),
        ),
{
    let source = match continue_from {
        Some(s) => s,
        None => {
            return None;
        },
    };
    match find_result(results, source.as_str()) {
        Some(k) => crate::graph::clone_opt_string(&results[k].agent_session_id),
        None => None,
    }
}

/// The instruction added to the prompt of a node that answers in JSON.
pub open spec fn json_instruction() -> Seq<char> {
    "\n\nIMPORTANT: You MUST respond with valid JSON only. No markdown, no explanation — just a single JSON object."@
}

/// The prompt a node that answers in JSON sends, when the agent does not
/// enforce the schema itself: the prompt, the JSON instruction, then the
/// description of the node's output schema when it is not empty.
pub open spec fn json_wrapped(
    json_response: bool,
    native_schema: bool,
    prompt: Seq<char>,
    schema_hint: Option<Seq<char>>,
) -> Seq<char> {
    if !json_response || native_schema {
        prompt
    } else {
        match schema_hint {
            Some(h) => if h.len() > 0 {
                prompt + json_instruction() + h
            } else {
                prompt + json_instruction()
            },
            None => prompt + json_instruction(),
        }
    }
}

/// Adds the JSON instructions to a prompt (see `json_wrapped`);
/// `schema_hint` is the description of the node's output schema, when it
/// has one.
pub fn wrap_prompt_for_json(
    json_response: bool,
    resolved_prompt: String,
    native_json_schema: &Option<serde_json::Value>,
    schema_hint: Option<String>,
) -> (r: String)
    ensures
        r@ == json_wrapped(
            json_response,
            native_json_schema is Some,
            resolved_prompt@,
            schema_hint.deep_view(),
        ),
{
    if !json_response || native_json_schema.is_some() {
        return resolved_prompt;
    }
    let mut text: Vec<char> = Vec::new();
    crate::text::extend_str(&mut text, resolved_prompt.as_str());
    crate::text::extend_str(
        &mut text,
        "\n\nIMPORTANT: You MUST respond with valid JSON only. No markdown, no explanation — just a single JSON object.",
    );
    match &schema_hint {
        Some(h) => {
            if !h.as_str().is_empty() {
                crate::text::extend_str(&mut text, h.as_str());
            }
        },
        None => {},
    }
    crate::text::string_of(text.as_slice())
}

} // verus!
