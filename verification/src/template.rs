//! Filling a node's prompt template: run variables, node outputs, context
//! sources, the cursor's previous output and last branch, and the outputs
//! of the node's predecessors.

use vstd::prelude::*;

use crate::counters::{key_lookup, key_pred};
use crate::graph::WorkflowNode;
use crate::records::NodeTestContext;
use crate::results::{find_result, result_of, results_view, NodeResult, NodeResultView};
use crate::routing::{lemma_first_idx, lemma_first_idx_is};
use crate::text::{
    chars_of, clone_pairs, extend_str, join_strings, join_with, pairs_view, replace_chars, replaced, str_eq,
    string_of,
};

verus! {

pub open spec fn var_placeholder(name: Seq<char>) -> Seq<char> {
    "{{var:"@ + name + "}}"@
}

pub open spec fn id_placeholder(id: Seq<char>) -> Seq<char> {
    "{{"@ + id + "}}"@
}

pub open spec fn output_placeholder(id: Seq<char>) -> Seq<char> {
    "{{node:"@ + id + ".output}}"@
}

pub open spec fn context_placeholder(name: Seq<char>) -> Seq<char> {
    "{{context:"@ + name + "}}"@
}

/// Each `{{var:NAME}}` replaced by the variable's value, variable by
/// variable in the order given.
pub open spec fn apply_vars(s: Seq<char>, vars: Seq<(Seq<char>, Seq<char>)>) -> Seq<char>
    decreases vars.len(),
{
    if vars.len() == 0 {
        s
    } else {
        replaced(apply_vars(s, vars.drop_last()), var_placeholder(vars.last().0), vars.last().1)
    }
}

/// Each `{{ID}}`, then each `{{node:ID.output}}`, replaced by the output
/// recorded for node `ID`, result by result in the order given.
pub open spec fn apply_outputs(s: Seq<char>, rs: Seq<NodeResultView>) -> Seq<char>
    decreases rs.len(),
{
    if rs.len() == 0 {
        s
    } else {
        let r = rs.last();
        replaced(
            replaced(apply_outputs(s, rs.drop_last()), id_placeholder(r.node_id), r.output),
            output_placeholder(r.node_id),
            r.output,
        )
    }
}

/// Each `{{context:NAME}}` of a context source (name, node) replaced by the
/// output of its node, when that node has a result.
pub open spec fn apply_context(
    s: Seq<char>,
    sources: Seq<(Seq<char>, Seq<char>)>,
    rs: Seq<NodeResultView>,
) -> Seq<char>
    decreases sources.len(),
{
    if sources.len() == 0 {
        s
    } else {
        let prev = apply_context(s, sources.drop_last(), rs);
        let c = sources.last();
        match result_of(rs, c.1) {
            Some(r) => replaced(prev, context_placeholder(c.0), r.output),
            None => prev,
        }
    }
}

/// What a predecessor contributes to `{{all_predecessors}}`: its non-empty
/// output, marked when preserved from an earlier run.
pub open spec fn predecessor_text(rs: Seq<NodeResultView>, id: Seq<char>) -> Option<Seq<char>> {
    match result_of(rs, id) {
        None => None,
        Some(r) => if r.output.len() == 0 {
            None
        } else if r.stale {
            Some("[preserved from prior run]\n"@ + r.output)
        } else {
            Some(r.output)
        },
    }
}

pub open spec fn predecessor_texts(rs: Seq<NodeResultView>, srcs: Seq<Seq<char>>) -> Seq<Seq<char>>
    decreases srcs.len(),
{
    if srcs.len() == 0 {
        Seq::empty()
    } else {
        let prev = predecessor_texts(rs, srcs.drop_last());
        match predecessor_text(rs, srcs.last()) {
            Some(t) => prev.push(t),
            None => prev,
        }
    }
}

pub open spec fn text_or_empty(o: Option<Seq<char>>) -> Seq<char> {
    match o {
        Some(t) => t,
        None => Seq::empty(),
    }
}

pub open spec fn inbound_view(m: Seq<(String, Vec<String>)>) -> Seq<(Seq<char>, Seq<Seq<char>>)> {
    m.map_values(|e: (String, Vec<String>)| (e.0@, e.1.deep_view()))
}


/// Where a run of the characters of a field placeholder ends, from `j` on:
/// at the first `}` (or, for a node id, the first `.`), else at the end.
pub open spec fn run_end(s: Seq<char>, j: int, in_id: bool) -> int
    decreases s.len() - j,
{
    if j >= s.len() {
        s.len() as int
    } else if s[j] == '}' || (in_id && s[j] == '.') {
        j
    } else {
        run_end(s, j + 1, in_id)
    }
}

/// The field placeholder `{{node:ID` + `kind` + `PATH}}` that starts at
/// position `i` of `s`, if one does (`kind` is `.output.` or
/// `.parsedOutput.`): where it ends, its node id and its path. The id runs
/// up to the first `.` or `}`, the path up to the first `}`; neither is
/// empty.
pub open spec fn field_at(s: Seq<char>, i: int, kind: Seq<char>) -> Option<(int, Seq<char>, Seq<char>)> {
    let a = i + 7;
    if crate::text::occurs_at(s, "{{node:"@, i) {
        let ie = run_end(s, a, true);
        let b = ie + kind.len();
        if ie > a && crate::text::occurs_at(s, kind, ie) {
            let pe = run_end(s, b, false);
            if pe > b && pe + 2 <= s.len() && s[pe + 1] == '}' {
                Some((pe + 2, s.subrange(a, ie), s.subrange(b, pe)))
            } else {
                None
            }
        } else {
            None
        }
    } else {
        None
    }
}

/// The text recorded for the field `path` of node `id` (its first entry),
/// or nothing when none is recorded.
pub open spec fn field_value(fs: Seq<(Seq<char>, Seq<char>, Seq<char>)>, id: Seq<char>, path: Seq<char>) -> Seq<
    char,
> {
    let k = crate::routing::first_idx(|j: int| fs[j].0 == id && fs[j].1 == path, 0, fs.len() as int);
    if k >= 0 {
        fs[k].2
    } else {
        Seq::empty()
    }
}

/// `s` from position `i` on, each field placeholder of `kind` replaced by
/// its recorded value (nothing when none is recorded), scanning from the
/// left without overlaps.
pub open spec fn fill_from(s: Seq<char>, i: int, kind: Seq<char>, fs: Seq<(Seq<char>, Seq<char>, Seq<char>)>) -> Seq<
    char,
>
    decreases s.len() - i,
{
    if i < 0 || i >= s.len() {
        Seq::empty()
    } else {
        match field_at(s, i, kind) {
            Some((e, id, path)) => if e > i {
                field_value(fs, id, path) + fill_from(s, e, kind, fs)
            } else {
                seq![s[i]] + fill_from(s, i + 1, kind, fs)
            },
            None => seq![s[i]] + fill_from(s, i + 1, kind, fs),
        }
    }
}

/// The values of the field placeholders of one kind, by (node id, path,
/// value).
pub open spec fn fields_view(fs: Seq<(String, String, String)>) -> Seq<(Seq<char>, Seq<char>, Seq<char>)> {
    fs.map_values(|f: (String, String, String)| (f.0@, f.1@, f.2@))
}

/// `run_end` computed.
fn run_end_exec(v: &Vec<char>, j: usize, in_id: bool) -> (r: usize)
    requires
        j <= v.len(),
    ensures
        r as int == run_end(v@, j as int, in_id),
        j <= r <= v.len(),
{
    let mut k = j;
    while k < v.len()
        invariant
            j <= k <= v.len(),
            run_end(v@, k as int, in_id) == run_end(v@, j as int, in_id),
        decreases v.len() - k,
    {
        if v[k] == '}' || (in_id && v[k] == '.') {
            return k;
        }
        k += 1;
    }
    k
}

/// The field placeholder of `kind` at position `i`: its end, and where its
/// id and path lie.
fn field_at_exec(v: &Vec<char>, i: usize, kind: &Vec<char>) -> (r: Option<(usize, usize, usize, usize, usize)>)
    requires
        i < v.len(),
    ensures
        match r {
            None => field_at(v@, i as int, kind@) is None,
            Some((e, a, ie, b, pe)) => {
                &&& a <= ie <= b <= pe < e && i < e <= v.len()
                &&& field_at(v@, i as int, kind@) == Some(
                    (e as int, v@.subrange(a as int, ie as int), v@.subrange(b as int, pe as int)),
                )
            },
        },
{
    proof {
        reveal_strlit("{{node:");
    }
    let prefix = chars_of("{{node:");
    if !crate::text::occurs_at_exec(v.as_slice(), prefix.as_slice(), i) {
        return None;
    }
    let a = i + 7;
    let ie = run_end_exec(v, a, true);
    if ie <= a || !crate::text::occurs_at_exec(v.as_slice(), kind.as_slice(), ie) {
        return None;
    }
    let b = ie + kind.len();
    let pe = run_end_exec(v, b, false);
    if pe > b && pe < v.len() && v.len() - pe >= 2 && v[pe + 1] == '}' {
        Some((pe + 2, a, ie, b, pe))
    } else {
        None
    }
}

/// `field_value` computed.
fn field_value_exec(fs: &Vec<(String, String, String)>, id: &Vec<char>, path: &Vec<char>) -> (r: Vec<char>)
    ensures
        r@ == field_value(fields_view(fs@), id@, path@),
{
    let ghost fv = fields_view(fs@);
    let ghost p = |j: int| fv[j].0 == id@ && fv[j].1 == path@;
    let mut k: usize = 0;
    while k < fs.len()
        invariant
            k <= fs.len(),
            fv == fields_view(fs@),
            p == (|j: int| fv[j].0 == id@ && fv[j].1 == path@),
            forall|j: int| 0 <= j < k ==> !#[trigger] p(j),
        decreases fs.len() - k,
    {
        let fid = chars_of(fs[k].0.as_str());
        let fpath = chars_of(fs[k].1.as_str());
        if crate::text::chars_eq(fid.as_slice(), id.as_slice()) && crate::text::chars_eq(
            fpath.as_slice(),
            path.as_slice(),
        ) {
            proof {
                assert(p(k as int));
                lemma_first_idx_is(p, fv.len() as int, k as int);
            }
            return chars_of(fs[k].2.as_str());
        }
        k += 1;
    }
    proof {
        lemma_first_idx(p, 0, fv.len() as int);
    }
    Vec::new()
}

/// Replaces each field placeholder of `kind` in `v` by its recorded value.
fn fill_fields(v: &Vec<char>, kind: &Vec<char>, fs: &Vec<(String, String, String)>) -> (r: Vec<char>)
    ensures
        r@ == fill_from(v@, 0, kind@, fields_view(fs@)),
{
    let ghost fv = fields_view(fs@);
    let mut out: Vec<char> = Vec::new();
    let mut i: usize = 0;
    while i < v.len()
        invariant
            i <= v.len(),
            fv == fields_view(fs@),
            out@ + fill_from(v@, i as int, kind@, fv) == fill_from(v@, 0, kind@, fv),
        decreases v.len() - i,
    {
        let ghost before = out@;
        match field_at_exec(v, i, kind) {
            Some((e, a, ie, b, pe)) => {
                let id = crate::text::slice_chars(v.as_slice(), a, ie);
                let path = crate::text::slice_chars(v.as_slice(), b, pe);
                let value = field_value_exec(fs, &id, &path);
                crate::text::extend_chars(&mut out, value.as_slice());
                proof {
                    assert(fill_from(v@, i as int, kind@, fv) == value@ + fill_from(v@, e as int, kind@, fv));
                    assert(before + (value@ + fill_from(v@, e as int, kind@, fv)) =~= out@ + fill_from(
                        v@,
                        e as int,
                        kind@,
                        fv,
                    ));
                }
                i = e;
            },
            None => {
                out.push(v[i]);
                proof {
                    assert(fill_from(v@, i as int, kind@, fv) == seq![v@[i as int]] + fill_from(
                        v@,
                        i + 1,
                        kind@,
                        fv,
                    ));
                    assert(before + (seq![v@[i as int]] + fill_from(v@, i + 1, kind@, fv)) =~= out@
                        + fill_from(v@, i + 1, kind@, fv));
                }
                i += 1;
            },
        }
    }
    assert(out@ + fill_from(v@, i as int, kind@, fv) =~= out@);
    out
}

/// The prompt once its placeholders are filled, in this order: variables,
/// node outputs, field paths into node outputs (`{{node:ID.output.PATH}}`)
/// and into parsed outputs (`{{node:ID.parsedOutput.PATH}}`), each by the
/// value recorded for it or by nothing, context sources, `{{previous_output}}`,
/// `{{branch_origin}}`, `{{branch_choice}}` (empty when there was no
/// branch) and `{{all_predecessors}}`, the texts of the current node's
/// predecessors joined by `\n---\n`.
pub open spec fn filled_template(
    prompt: Seq<char>,
    current_node_id: Seq<char>,
    sources: Seq<(Seq<char>, Seq<char>)>,
    rs: Seq<NodeResultView>,
    last_output: Seq<char>,
    vars: Seq<(Seq<char>, Seq<char>)>,
    inbound: Seq<(Seq<char>, Seq<Seq<char>>)>,
    branch_origin: Option<Seq<char>>,
    branch_choice: Option<Seq<char>>,
    output_fields: Seq<(Seq<char>, Seq<char>, Seq<char>)>,
    parsed_fields: Seq<(Seq<char>, Seq<char>, Seq<char>)>,
) -> Seq<char> {
    let s2 = fill_from(
        fill_from(apply_outputs(apply_vars(prompt, vars), rs), 0, ".output."@, output_fields),
        0,
        ".parsedOutput."@,
        parsed_fields,
    );
    let s3 = apply_context(s2, sources, rs);
    let s4 = replaced(s3, "{{previous_output}}"@, last_output);
    let s5 = replaced(s4, "{{branch_origin}}"@, text_or_empty(branch_origin));
    let s6 = replaced(s5, "{{branch_choice}}"@, text_or_empty(branch_choice));
    let srcs = match key_lookup(inbound, current_node_id) {
        Some(v) => v,
        None => Seq::empty(),
    };
    replaced(s6, "{{all_predecessors}}"@, join_with(predecessor_texts(rs, srcs), "\n---\n"@))
}

/// `prefix`, `name` and `suffix` one after the other.
fn wrapped(prefix: &str, name: &str, suffix: &str) -> (r: Vec<char>)
    ensures
        r@ == prefix@ + name@ + suffix@,
{
    let mut v: Vec<char> = Vec::new();
    extend_str(&mut v, prefix);
    extend_str(&mut v, name);
    extend_str(&mut v, suffix);
    assert(v@ =~= prefix@ + name@ + suffix@);
    v
}

/// `s` with `pat` replaced by the text `rep`.
fn replace_with(s: &Vec<char>, pat: &Vec<char>, rep: &str) -> (r: Vec<char>)
    requires
        pat@.len() > 0,
    ensures
        r@ == replaced(s@, pat@, rep@),
{
    let rv = chars_of(rep);
    replace_chars(s.as_slice(), pat.as_slice(), rv.as_slice())
}

/// The inbound sources recorded for node `id`.
fn sources_of(inbound: &Vec<(String, Vec<String>)>, id: &str) -> (r: Vec<String>)
    ensures
        r.deep_view() == (match key_lookup(inbound_view(inbound@), id@) {
            Some(v) => v,
            None => Seq::empty(),
        }),
{
    let ghost ev = inbound_view(inbound@);
    let ghost p = key_pred(ev, id@);
    let mut i: usize = 0;
    while i < inbound.len()
        invariant
            i <= inbound.len(),
            ev == inbound_view(inbound@),
            p == key_pred(ev, id@),
            forall|j: int| 0 <= j < i ==> !#[trigger] p(j),
        decreases inbound.len() - i,
    {
        if str_eq(inbound[i].0.as_str(), id) {
            proof {
                assert(p(i as int));
                lemma_first_idx_is(p, ev.len() as int, i as int);
            }
            return crate::cursor::clone_strings(&inbound[i].1);
        }
        i += 1;
    }
    proof {
        lemma_first_idx(p, 0, ev.len() as int);
    }
    Vec::new()
}

/// The texts of the predecessors `srcs`, in order.
fn predecessor_parts(results: &Vec<NodeResult>, srcs: &Vec<String>) -> (r: Vec<String>)
    ensures
        r.deep_view() == predecessor_texts(results_view(results@), srcs.deep_view()),
{
    let ghost rs = results_view(results@);
    let ghost sv = srcs.deep_view();
    let mut parts: Vec<String> = Vec::new();
    let mut i: usize = 0;
    while i < srcs.len()
        invariant
            i <= srcs.len(),
            rs == results_view(results@),
            sv == srcs.deep_view(),
            parts.deep_view() == predecessor_texts(rs, sv.take(i as int)),
        decreases srcs.len() - i,
    {
        let ghost before = parts.deep_view();
        assert(sv.take(i + 1).drop_last() =~= sv.take(i as int));
        assert(sv.take(i + 1).last() == sv[i as int]);
        match find_result(results, srcs[i].as_str()) {
            Some(k) => {
                let r = &results[k];
                if r.output.as_str().is_empty() {
                } else if r.stale {
                    let mut text: Vec<char> = Vec::new();
                    extend_str(&mut text, "[preserved from prior run]\n");
                    extend_str(&mut text, r.output.as_str());
                    parts.push(string_of(text.as_slice()));
                    assert(parts.deep_view() =~= before.push(
                        "[preserved from prior run]\n"@ + r.output@,
                    ));
                } else {
                    parts.push(r.output.clone());
                    assert(parts.deep_view() =~= before.push(r.output@));
                }
            },
            None => {},
        }
        i += 1;
    }
    proof {
        crate::seqs::lemma_take_full(sv);
    }
    parts
}

/// What a prompt template is filled from.
#[derive(Debug)]
pub struct TemplateContext {
    pub current_node_id: String,
    /// The node's context sources: (placeholder name, node id).
    pub context_sources: Vec<(String, String)>,
    /// The recorded results, by node id.
    pub results: Vec<NodeResult>,
    pub last_output: String,
    pub var_map: Vec<(String, String)>,
    /// Each node's inbound sources.
    pub inbound_map: Vec<(String, Vec<String>)>,
    pub last_branch_origin_id: Option<String>,
    pub last_branch_choice: Option<String>,
    /// What each `{{node:ID.output.PATH}}` reads, as (node id, path, text):
    /// the field at `PATH` of the JSON in node `ID`'s output, written as a
    /// template value. A placeholder without an entry reads as nothing (the
    /// node has no result, its output is not JSON, or it has no such field).
    pub output_fields: Vec<(String, String, String)>,
    /// What each `{{node:ID.parsedOutput.PATH}}` reads, the same way, from
    /// node `ID`'s parsed output.
    pub parsed_fields: Vec<(String, String, String)>,
}

/// The template filled from `ctx`, with the variables `vars`.
pub open spec fn filled_from(prompt: Seq<char>, ctx: TemplateContext, vars: Seq<(Seq<char>, Seq<char>)>) -> Seq<
    char,
> {
    filled_template(
        prompt,
        ctx.current_node_id@,
        pairs_view(ctx.context_sources@),
        results_view(ctx.results@),
        ctx.last_output@,
        vars,
        inbound_view(ctx.inbound_map@),
        ctx.last_branch_origin_id.deep_view(),
        ctx.last_branch_choice.deep_view(),
        fields_view(ctx.output_fields@),
        fields_view(ctx.parsed_fields@),
    )
}

fn fill(prompt: &str, ctx: &TemplateContext, var_map: &Vec<(String, String)>) -> (r: String)
    ensures
        r@ == filled_from(prompt@, *ctx, pairs_view(var_map@)),
{
    proof {
        reveal_strlit("}}");
        reveal_strlit(".output}}");
    }
    let results = &ctx.results;
    let context_sources = &ctx.context_sources;
    let ghost vv = pairs_view(var_map@);
    let ghost rs = results_view(results@);
    let ghost cs = pairs_view(context_sources@);
    let mut cur = chars_of(prompt);
    let mut i: usize = 0;
    while i < var_map.len()
        invariant
            i <= var_map.len(),
            vv == pairs_view(var_map@),
            "}}"@.len() == 2,
            cur@ == apply_vars(prompt@, vv.take(i as int)),
        decreases var_map.len() - i,
    {
        assert(vv.take(i + 1).drop_last() =~= vv.take(i as int));
        assert(vv.take(i + 1).last() == vv[i as int]);
        let pat = wrapped("{{var:", var_map[i].0.as_str(), "}}");
        cur = replace_with(&cur, &pat, var_map[i].1.as_str());
        i += 1;
    }
    proof {
        crate::seqs::lemma_take_full(vv);
    }
    let mut i: usize = 0;
    while i < results.len()
        invariant
            i <= results.len(),
            vv == pairs_view(var_map@),
            rs == results_view(results@),
            "}}"@.len() == 2,
            ".output}}"@.len() == 9,
            cur@ == apply_outputs(apply_vars(prompt@, vv), rs.take(i as int)),
        decreases results.len() - i,
    {
        assert(rs.take(i + 1).drop_last() =~= rs.take(i as int));
        assert(rs.take(i + 1).last() == rs[i as int]);
        let id_pat = wrapped("{{", results[i].node_id.as_str(), "}}");
        cur = replace_with(&cur, &id_pat, results[i].output.as_str());
        let out_pat = wrapped("{{node:", results[i].node_id.as_str(), ".output}}");
        cur = replace_with(&cur, &out_pat, results[i].output.as_str());
        i += 1;
    }
    proof {
        crate::seqs::lemma_take_full(rs);
    }
    let output_kind = chars_of(".output.");
    cur = fill_fields(&cur, &output_kind, &ctx.output_fields);
    let parsed_kind = chars_of(".parsedOutput.");
    cur = fill_fields(&cur, &parsed_kind, &ctx.parsed_fields);
    let ghost s2 = cur@;
    let mut i: usize = 0;
    while i < context_sources.len()
        invariant
            i <= context_sources.len(),
            vv == pairs_view(var_map@),
            rs == results_view(results@),
            cs == pairs_view(context_sources@),
            "}}"@.len() == 2,
            cur@ == apply_context(s2, cs.take(i as int), rs),
        decreases context_sources.len() - i,
    {
        assert(cs.take(i + 1).drop_last() =~= cs.take(i as int));
        assert(cs.take(i + 1).last() == cs[i as int]);
        match find_result(results, context_sources[i].1.as_str()) {
            Some(k) => {
                let pat = wrapped("{{context:", context_sources[i].0.as_str(), "}}");
                cur = replace_with(&cur, &pat, results[k].output.as_str());
            },
            None => {},
        }
        i += 1;
    }
    proof {
        crate::seqs::lemma_take_full(cs);
        reveal_strlit("{{previous_output}}");
        reveal_strlit("{{branch_origin}}");
        reveal_strlit("{{branch_choice}}");
        reveal_strlit("{{all_predecessors}}");
        reveal_strlit("");
    }
    let p = chars_of("{{previous_output}}");
    cur = replace_with(&cur, &p, ctx.last_output.as_str());
    let origin = match &ctx.last_branch_origin_id {
        Some(o) => o.as_str(),
        None => "",
    };
    assert(origin@ == text_or_empty(ctx.last_branch_origin_id.deep_view()));
    let p = chars_of("{{branch_origin}}");
    cur = replace_with(&cur, &p, origin);
    let choice = match &ctx.last_branch_choice {
        Some(c) => c.as_str(),
        None => "",
    };
    assert(choice@ == text_or_empty(ctx.last_branch_choice.deep_view()));
    let p = chars_of("{{branch_choice}}");
    cur = replace_with(&cur, &p, choice);
    let srcs = sources_of(&ctx.inbound_map, ctx.current_node_id.as_str());
    let parts = predecessor_parts(results, &srcs);
    let joined = join_strings(&parts, "\n---\n");
    let p = chars_of("{{all_predecessors}}");
    cur = replace_with(&cur, &p, joined.as_str());
    string_of(cur.as_slice())
}

/// Fills the placeholders of a prompt template from `ctx` (see
/// `filled_template`); field paths into node outputs read the values that
/// `ctx` records for them.
pub fn resolve_template_vars(prompt: &str, ctx: &TemplateContext) -> (r: String)
    ensures
        r@ == filled_from(prompt@, *ctx, pairs_view(ctx.var_map@)),
{
    fill(prompt, ctx, &ctx.var_map)
}

/// The results a node preview reads: each mocked output as a fresh result.
pub open spec fn mock_results(outputs: Seq<(Seq<char>, Seq<char>)>) -> Seq<NodeResultView> {
    outputs.map_values(
        |o: (Seq<char>, Seq<char>)|
            NodeResultView {
                node_id: o.0,
                output: o.1,
                stale: false,
                preserved_from_run_id: None,
                agent_session_id: None,
                parsed_output: None,
            },
    )
}

fn clone_fields(fs: &Vec<(String, String, String)>) -> (r: Vec<(String, String, String)>)
    ensures
        fields_view(r@) == fields_view(fs@),
{
    let mut out: Vec<(String, String, String)> = Vec::new();
    let mut i: usize = 0;
    while i < fs.len()
        invariant
            i <= fs.len(),
            fields_view(out@) == fields_view(fs@).take(i as int),
        decreases fs.len() - i,
    {
        let ghost before = fields_view(out@);
        out.push((fs[i].0.clone(), fs[i].1.clone(), fs[i].2.clone()));
        assert(fields_view(out@) =~= before.push(fields_view(fs@)[i as int]));
        assert(fields_view(fs@).take(i + 1) =~= fields_view(fs@).take(i as int).push(fields_view(fs@)[i as int]));
        i += 1;
    }
    assert(fields_view(fs@).take(fs.len() as int) =~= fields_view(fs@));
    out
}

/// The prompt a node preview sends: the node's template filled from the
/// mocked context (its outputs as results, no predecessors, no parsed
/// outputs; `output_fields` are the fields read from the mocked outputs),
/// then the JSON instructions when the node answers in JSON (see
/// `json_wrapped`).
pub fn preview_prompt(
    node: &WorkflowNode,
    context_sources: &Vec<(String, String)>,
    mock: &NodeTestContext,
    output_fields: &Vec<(String, String, String)>,
    json_response: bool,
    schema_hint: Option<String>,
) -> (r: String)
    ensures
        r@ == crate::task::json_wrapped(
            json_response,
            false,
            filled_template(
                node@.prompt,
                node@.id,
                pairs_view(context_sources@),
                mock_results(pairs_view(mock.node_outputs@)),
                mock.previous_output@,
                pairs_view(mock.variables@),
                Seq::empty(),
                mock.branch_origin.deep_view(),
                mock.branch_choice.deep_view(),
                fields_view(output_fields@),
                Seq::empty(),
            ),
            schema_hint.deep_view(),
        ),
{
    let ghost outs = pairs_view(mock.node_outputs@);
    let mut results: Vec<NodeResult> = Vec::new();
    let mut i: usize = 0;
    while i < mock.node_outputs.len()
        invariant
            i <= mock.node_outputs.len(),
            outs == pairs_view(mock.node_outputs@),
            results_view(results@) == mock_results(outs.take(i as int)),
        decreases mock.node_outputs.len() - i,
    {
        let ghost before = results_view(results@);
        results.push(
            NodeResult {
                node_id: mock.node_outputs[i].0.clone(),
                output: mock.node_outputs[i].1.clone(),
                stale: false,
                preserved_from_run_id: None,
                agent_session_id: None,
                parsed_output: None,
            },
        );
        assert(results_view(results@) =~= before.push(mock_results(outs)[i as int]));
        assert(mock_results(outs.take(i + 1)) =~= mock_results(outs.take(i as int)).push(
            mock_results(outs)[i as int],
        ));
        i += 1;
    }
    proof {
        crate::seqs::lemma_take_full(outs);
    }
    let ctx = TemplateContext {
        current_node_id: node.id.clone(),
        context_sources: clone_pairs(context_sources),
        results,
        last_output: mock.previous_output.clone(),
        var_map: clone_pairs(&mock.variables),
        inbound_map: Vec::new(),
        last_branch_origin_id: crate::graph::clone_opt_string(&mock.branch_origin),
        last_branch_choice: crate::graph::clone_opt_string(&mock.branch_choice),
        output_fields: clone_fields(output_fields),
        parsed_fields: Vec::new(),
    };
    assert(inbound_view(ctx.inbound_map@) =~= Seq::<(Seq<char>, Seq<Seq<char>>)>::empty());
    assert(fields_view(ctx.parsed_fields@) =~= Seq::<(Seq<char>, Seq<char>, Seq<char>)>::empty());
    let filled = resolve_template_vars(node.prompt.as_str(), &ctx);
    crate::task::wrap_prompt_for_json(json_response, filled, &None, schema_hint)
}

/// `s` with `k` set to `v`: the first entry for `k` takes the value, else
/// the pair is appended.
pub open spec fn set_entry(s: Seq<(Seq<char>, Seq<char>)>, k: Seq<char>, v: Seq<char>) -> Seq<
    (Seq<char>, Seq<char>),
> {
    let i = crate::counters::first_key_index(s, k);
    if i >= 0 {
        s.update(i, (k, v))
    } else {
        s.push((k, v))
    }
}

/// The variables with the bindings set over them, binding by binding.
pub open spec fn with_bindings(vars: Seq<(Seq<char>, Seq<char>)>, bs: Seq<(Seq<char>, Seq<char>)>) -> Seq<
    (Seq<char>, Seq<char>),
>
    decreases bs.len(),
{
    if bs.len() == 0 {
        vars
    } else {
        set_entry(with_bindings(vars, bs.drop_last()), bs.last().0, bs.last().1)
    }
}

/// Each `{{NAME}}` of a binding replaced by its value, binding by binding.
pub open spec fn apply_bindings(s: Seq<char>, bs: Seq<(Seq<char>, Seq<char>)>) -> Seq<char>
    decreases bs.len(),
{
    if bs.len() == 0 {
        s
    } else {
        replaced(apply_bindings(s, bs.drop_last()), id_placeholder(bs.last().0), bs.last().1)
    }
}

pub(crate) fn set_entry_exec(out: &mut Vec<(String, String)>, k: &String, v: &String)
    ensures
        pairs_view(final(out)@) == set_entry(pairs_view(old(out)@), k@, v@),
{
    let ghost ov = pairs_view(out@);
    let ghost p = key_pred(ov, k@);
    let mut i: usize = 0;
    while i < out.len()
        invariant
            i <= out.len(),
            ov == pairs_view(out@),
            out@ == old(out)@,
            p == key_pred(ov, k@),
            forall|j: int| 0 <= j < i ==> !#[trigger] p(j),
        decreases out.len() - i,
    {
        if str_eq(out[i].0.as_str(), k.as_str()) {
            proof {
                assert(p(i as int));
                lemma_first_idx_is(p, ov.len() as int, i as int);
            }
            out.set(i, (k.clone(), v.clone()));
            assert(pairs_view(out@) =~= ov.update(i as int, (k@, v@)));
            return ;
        }
        i += 1;
    }
    proof {
        lemma_first_idx(p, 0, ov.len() as int);
    }
    out.push((k.clone(), v.clone()));
    assert(pairs_view(out@) =~= ov.push((k@, v@)));
}

/// The prompt of a decide node: its template filled with the bindings set
/// over the run's variables, each `{{NAME}}` of a binding replaced by its
/// value, the instruction to choose one of `outcomes`, then the JSON
/// instructions (see `json_wrapped`; `schema_hint` describes the schema of
/// an `outcome` object).
pub fn render_decide_prompt(
    prompt: &str,
    ctx: &TemplateContext,
    bindings: &Vec<(String, String)>,
    outcomes: &Vec<String>,
    schema_hint: Option<String>,
) -> (r: String)
    ensures
        r@ == crate::task::json_wrapped(
            true,
            false,
            apply_bindings(
                filled_from(prompt@, *ctx, with_bindings(pairs_view(ctx.var_map@), pairs_view(bindings@))),
                pairs_view(bindings@),
            ) + crate::decide::decide_instruction(outcomes.deep_view()),
            schema_hint.deep_view(),
        ),
{
    proof {
        reveal_strlit("}}");
    }
    let ghost bv = pairs_view(bindings@);
    let mut vars = clone_pairs(&ctx.var_map);
    let mut i: usize = 0;
    while i < bindings.len()
        invariant
            i <= bindings.len(),
            bv == pairs_view(bindings@),
            pairs_view(vars@) == with_bindings(pairs_view(ctx.var_map@), bv.take(i as int)),
        decreases bindings.len() - i,
    {
        assert(bv.take(i + 1).drop_last() =~= bv.take(i as int));
        assert(bv.take(i + 1).last() == bv[i as int]);
        set_entry_exec(&mut vars, &bindings[i].0, &bindings[i].1);
        i += 1;
    }
    proof {
        crate::seqs::lemma_take_full(bv);
    }
    let filled = fill(prompt, ctx, &vars);
    let mut cur = chars_of(filled.as_str());
    let mut i: usize = 0;
    while i < bindings.len()
        invariant
            i <= bindings.len(),
            bv == pairs_view(bindings@),
            "}}"@.len() == 2,
            cur@ == apply_bindings(filled@, bv.take(i as int)),
        decreases bindings.len() - i,
    {
        assert(bv.take(i + 1).drop_last() =~= bv.take(i as int));
        assert(bv.take(i + 1).last() == bv[i as int]);
        let pat = wrapped("{{", bindings[i].0.as_str(), "}}");
        cur = replace_with(&cur, &pat, bindings[i].1.as_str());
        i += 1;
    }
    let instruction = crate::decide::decide_instruction_text(outcomes);
    extend_str(&mut cur, instruction.as_str());
    crate::task::wrap_prompt_for_json(true, string_of(cur.as_slice()), &None, schema_hint)
}

/// Replacing a pattern that does not occur changes nothing.
proof fn lemma_replaced_absent(s: Seq<char>, pat: Seq<char>, rep: Seq<char>)
    requires
        pat.len() > 0,
        !crate::text::contains_seq(s, pat),
    ensures
        replaced(s, pat, rep) == s,
    decreases s.len(),
{
    if s.len() >= pat.len() {
        assert(!crate::text::occurs_at(s, pat, 0));
        assert(s.subrange(0, pat.len() as int) != pat);
        let t = s.drop_first();
        assert forall|i: int| !crate::text::occurs_at(t, pat, i) by {
            if crate::text::occurs_at(t, pat, i) {
                assert(s.subrange(i + 1, i + 1 + pat.len()) =~= t.subrange(i, i + pat.len()));
                assert(crate::text::occurs_at(s, pat, i + 1));
            }
        }
        lemma_replaced_absent(t, pat, rep);
        assert(seq![s[0]] + t =~= s);
    }
}

/// A text without `{{` holds no pattern that starts with `{{`.
proof fn lemma_no_brace_pattern(s: Seq<char>, pat: Seq<char>)
    requires
        !crate::text::contains_seq(s, "{{"@),
        pat.len() >= 2,
        pat.subrange(0, 2) == "{{"@,
    ensures
        !crate::text::contains_seq(s, pat),
{
    assert forall|i: int| !crate::text::occurs_at(s, pat, i) by {
        if crate::text::occurs_at(s, pat, i) {
            assert(s.subrange(i, i + 2) =~= pat.subrange(0, 2));
            assert(crate::text::occurs_at(s, "{{"@, i));
        }
    }
}

/// Replacing a `{{…` pattern in a text without `{{` changes nothing.
proof fn lemma_plain_replace(s: Seq<char>, prefix: Seq<char>, middle: Seq<char>, suffix: Seq<char>, rep: Seq<char>)
    requires
        !crate::text::contains_seq(s, "{{"@),
        prefix.len() >= 2,
        prefix.subrange(0, 2) == "{{"@,
    ensures
        replaced(s, prefix + middle + suffix, rep) == s,
{
    let pat = prefix + middle + suffix;
    assert(pat.subrange(0, 2) =~= prefix.subrange(0, 2));
    lemma_no_brace_pattern(s, pat);
    lemma_replaced_absent(s, pat, rep);
}

proof fn lemma_plain_vars(s: Seq<char>, vars: Seq<(Seq<char>, Seq<char>)>)
    requires
        !crate::text::contains_seq(s, "{{"@),
    ensures
        apply_vars(s, vars) == s,
    decreases vars.len(),
{
    reveal_strlit("{{var:");
    reveal_strlit("{{");
    if vars.len() > 0 {
        lemma_plain_vars(s, vars.drop_last());
        assert("{{var:"@.subrange(0, 2) =~= "{{"@);
        lemma_plain_replace(s, "{{var:"@, vars.last().0, "}}"@, vars.last().1);
    }
}

proof fn lemma_plain_outputs(s: Seq<char>, rs: Seq<NodeResultView>)
    requires
        !crate::text::contains_seq(s, "{{"@),
    ensures
        apply_outputs(s, rs) == s,
    decreases rs.len(),
{
    reveal_strlit("{{node:");
    reveal_strlit("{{");
    if rs.len() > 0 {
        let r = rs.last();
        lemma_plain_outputs(s, rs.drop_last());
        assert("{{"@.subrange(0, 2) =~= "{{"@);
        assert("{{node:"@.subrange(0, 2) =~= "{{"@);
        lemma_plain_replace(s, "{{"@, r.node_id, "}}"@, r.output);
        lemma_plain_replace(s, "{{node:"@, r.node_id, ".output}}"@, r.output);
    }
}

proof fn lemma_plain_context(s: Seq<char>, sources: Seq<(Seq<char>, Seq<char>)>, rs: Seq<NodeResultView>)
    requires
        !crate::text::contains_seq(s, "{{"@),
    ensures
        apply_context(s, sources, rs) == s,
    decreases sources.len(),
{
    reveal_strlit("{{context:");
    reveal_strlit("{{");
    if sources.len() > 0 {
        lemma_plain_context(s, sources.drop_last(), rs);
        let c = sources.last();
        assert("{{context:"@.subrange(0, 2) =~= "{{"@);
        match result_of(rs, c.1) {
            Some(r) => lemma_plain_replace(s, "{{context:"@, c.0, "}}"@, r.output),
            None => {},
        }
    }
}

/// A text without `{{` holds no field placeholder: scanning it from `i`
/// copies it.
proof fn lemma_plain_fields(s: Seq<char>, i: int, kind: Seq<char>, fs: Seq<(Seq<char>, Seq<char>, Seq<char>)>)
    requires
        !crate::text::contains_seq(s, "{{"@),
        0 <= i <= s.len(),
    ensures
        fill_from(s, i, kind, fs) == s.subrange(i, s.len() as int),
    decreases s.len() - i,
{
    if i < s.len() {
        reveal_strlit("{{node:");
        reveal_strlit("{{");
        if crate::text::occurs_at(s, "{{node:"@, i) {
            assert(s.subrange(i, i + 2) =~= "{{node:"@.subrange(0, 2));
            assert("{{node:"@.subrange(0, 2) =~= "{{"@);
            assert(crate::text::occurs_at(s, "{{"@, i));
        }
        lemma_plain_fields(s, i + 1, kind, fs);
        assert(seq![s[i]] + s.subrange(i + 1, s.len() as int) =~= s.subrange(i, s.len() as int));
    } else {
        assert(s.subrange(i, s.len() as int) =~= Seq::<char>::empty());
    }
}

/// A prompt without `{{` holds no placeholder and comes back unchanged,
/// whatever it is filled from.
pub proof fn lemma_plain_prompt_unchanged(
    prompt: Seq<char>,
    current_node_id: Seq<char>,
    sources: Seq<(Seq<char>, Seq<char>)>,
    rs: Seq<NodeResultView>,
    last_output: Seq<char>,
    vars: Seq<(Seq<char>, Seq<char>)>,
    inbound: Seq<(Seq<char>, Seq<Seq<char>>)>,
    branch_origin: Option<Seq<char>>,
    branch_choice: Option<Seq<char>>,
    output_fields: Seq<(Seq<char>, Seq<char>, Seq<char>)>,
    parsed_fields: Seq<(Seq<char>, Seq<char>, Seq<char>)>,
)
    requires
        !crate::text::contains_seq(prompt, "{{"@),
    ensures
        filled_template(
            prompt,
            current_node_id,
            sources,
            rs,
            last_output,
            vars,
            inbound,
            branch_origin,
            branch_choice,
            output_fields,
            parsed_fields,
        ) == prompt,
{
    reveal_strlit("{{");
    reveal_strlit("{{previous_output}}");
    reveal_strlit("{{branch_origin}}");
    reveal_strlit("{{branch_choice}}");
    reveal_strlit("{{all_predecessors}}");
    lemma_plain_vars(prompt, vars);
    lemma_plain_outputs(prompt, rs);
    lemma_plain_fields(prompt, 0, ".output."@, output_fields);
    assert(prompt.subrange(0, prompt.len() as int) =~= prompt);
    lemma_plain_fields(prompt, 0, ".parsedOutput."@, parsed_fields);
    lemma_plain_context(prompt, sources, rs);
    let e = Seq::<char>::empty();
    assert("{{previous_output}}"@ =~= "{{"@ + "previous_output}}"@) by {
        reveal_strlit("previous_output}}");
    }
    assert("{{branch_origin}}"@ =~= "{{"@ + "branch_origin}}"@) by {
        reveal_strlit("branch_origin}}");
    }
    assert("{{branch_choice}}"@ =~= "{{"@ + "branch_choice}}"@) by {
        reveal_strlit("branch_choice}}");
    }
    assert("{{all_predecessors}}"@ =~= "{{"@ + "all_predecessors}}"@) by {
        reveal_strlit("all_predecessors}}");
    }
    assert("{{"@ + "previous_output}}"@ =~= "{{"@ + "previous_output}}"@ + e);
    assert("{{"@ + "branch_origin}}"@ =~= "{{"@ + "branch_origin}}"@ + e);
    assert("{{"@ + "branch_choice}}"@ =~= "{{"@ + "branch_choice}}"@ + e);
    assert("{{"@ + "all_predecessors}}"@ =~= "{{"@ + "all_predecessors}}"@ + e);
    assert("{{"@.subrange(0, 2) =~= "{{"@);
    lemma_plain_replace(prompt, "{{"@, "previous_output}}"@, e, last_output);
    lemma_plain_replace(prompt, "{{"@, "branch_origin}}"@, e, text_or_empty(branch_origin));
    lemma_plain_replace(prompt, "{{"@, "branch_choice}}"@, e, text_or_empty(branch_choice));
    let srcs = match key_lookup(inbound, current_node_id) {
        Some(v) => v,
        None => Seq::empty(),
    };
    lemma_plain_replace(
        prompt,
        "{{"@,
        "all_predecessors}}"@,
        e,
        join_with(predecessor_texts(rs, srcs), "\n---\n"@),
    );
}

} // verus!
