//! Decide nodes: which outcome label an agent's reply selects, from a
//! structured `outcome` field when the reply carries one, else from the text.

use vstd::prelude::*;

use crate::text::{
    chars_of, ends_with, ends_with_chars, extend_chars, extend_str, join_strings, join_with,
    lines_chars, lines_of, starts_with, starts_with_chars, string_of, trim_by, trim_chars, trim_ws,
    Strip, clone_pairs, pairs_view,
};

verus! {

/// The value of an `outcome` field in a structured reply.
#[derive(Debug)]
pub enum OutcomeField {
    Str(String),
    /// A JSON number, as it is written back out.
    Number(String),
    Bool,
    Array,
    Object,
    Null,
}

pub enum OutcomeFieldView {
    Str(Seq<char>),
    Number(Seq<char>),
    Bool,
    Array,
    Object,
    Null,
}

impl View for OutcomeField {
    type V = OutcomeFieldView;

    open spec fn view(&self) -> OutcomeFieldView {
        match self {
            OutcomeField::Str(s) => OutcomeFieldView::Str(s@),
            OutcomeField::Number(s) => OutcomeFieldView::Number(s@),
            OutcomeField::Bool => OutcomeFieldView::Bool,
            OutcomeField::Array => OutcomeFieldView::Array,
            OutcomeField::Object => OutcomeFieldView::Object,
            OutcomeField::Null => OutcomeFieldView::Null,
        }
    }
}

/// Why no outcome was selected.
#[derive(Debug, Clone, PartialEq, Eq)]
pub enum DecideOutcomeFailure {
    Unmatched,
    StructuredLabelMismatch,
    StructuredNonScalar { json_type: &'static str },
}

#[derive(Debug, Clone, PartialEq, Eq)]
pub enum DecideOutcomeSelection {
    Matched(String),
    Failed(DecideOutcomeFailure),
}

pub enum FailureView {
    Unmatched,
    StructuredLabelMismatch,
    StructuredNonScalar { json_type: Seq<char> },
}

pub enum SelectionView {
    Matched(Seq<char>),
    Failed(FailureView),
}

impl View for DecideOutcomeFailure {
    type V = FailureView;

    open spec fn view(&self) -> FailureView {
        match self {
            DecideOutcomeFailure::Unmatched => FailureView::Unmatched,
            DecideOutcomeFailure::StructuredLabelMismatch => FailureView::StructuredLabelMismatch,
            DecideOutcomeFailure::StructuredNonScalar { json_type } => FailureView::StructuredNonScalar {
                json_type: json_type@,
            },
        }
    }
}

impl View for DecideOutcomeSelection {
    type V = SelectionView;

    open spec fn view(&self) -> SelectionView {
        match self {
            DecideOutcomeSelection::Matched(s) => SelectionView::Matched(s@),
            DecideOutcomeSelection::Failed(f) => SelectionView::Failed(f@),
        }
    }
}

/// A scalar outcome as a label; other JSON types are named instead.
pub open spec fn coerce_outcome(f: OutcomeFieldView) -> Result<Seq<char>, Seq<char>> {
    match f {
        OutcomeFieldView::Str(s) => Ok(s),
        OutcomeFieldView::Number(n) => Ok(n),
        OutcomeFieldView::Bool => Err("boolean"@),
        OutcomeFieldView::Array => Err("array"@),
        OutcomeFieldView::Object => Err("object"@),
        OutcomeFieldView::Null => Err("null"@),
    }
}

/// The label an `outcome` value gives: a string or number as text, else the name of its
/// JSON type.
pub fn coerce_decide_outcome_scalar(outcome_value: &OutcomeField) -> (r: Result<String, &'static str>)
    ensures
        match r {
            Ok(s) => coerce_outcome(outcome_value@) == Ok::<Seq<char>, Seq<char>>(s@),
            Err(t) => coerce_outcome(outcome_value@) == Err::<Seq<char>, Seq<char>>(t@),
        },
{
    match outcome_value {
        OutcomeField::Str(label) => Ok(label.clone()),
        OutcomeField::Number(n) => Ok(n.clone()),
        OutcomeField::Bool => Err("boolean"),
        OutcomeField::Array => Err("array"),
        OutcomeField::Object => Err("object"),
        OutcomeField::Null => Err("null"),
    }
}

/// The stderr text of a failed decide selection.
pub open spec fn failure_stderr(failure: FailureView, outcomes: Seq<Seq<char>>) -> Seq<char> {
    let labels = join_with(outcomes, ", "@);
    match failure {
        FailureView::StructuredNonScalar { json_type } => "decide agent emitted a non-string outcome (got "@
            + json_type + "); expected one of: "@ + labels,
        _ => "LLM response did not match any decide outcome: "@ + labels,
    }
}

/// The error text a failed outcome selection records.
pub fn decide_outcome_failure_stderr(failure: DecideOutcomeFailure, outcomes: &Vec<String>) -> (r:
    String)
    ensures
        r@ == failure_stderr(failure@, outcomes.deep_view()),
{
    let labels = join_strings(outcomes, ", ");
    let label_chars = chars_of(labels.as_str());
    let mut out: Vec<char> = Vec::new();
    match failure {
        DecideOutcomeFailure::StructuredNonScalar { json_type } => {
            extend_str(&mut out, "decide agent emitted a non-string outcome (got ");
            extend_str(&mut out, json_type);
            extend_str(&mut out, "); expected one of: ");
            extend_chars(&mut out, label_chars.as_slice());
        },
        _ => {
            extend_str(&mut out, "LLM response did not match any decide outcome: ");
            extend_chars(&mut out, label_chars.as_slice());
        },
    }
    string_of(out.as_slice())
}

/// Bytes that a character takes in UTF-8.
pub open spec fn utf8_width(c: char) -> int {
    let u = c as u32;
    if u < 0x80 {
        1
    } else if u < 0x800 {
        2
    } else if u < 0x10000 {
        3
    } else {
        4
    }
}

/// Byte length of `s` in UTF-8 (`str::len`).
pub open spec fn utf8_len(s: Seq<char>) -> int
    decreases s.len(),
{
    if s.len() == 0 {
        0
    } else {
        utf8_len(s.drop_last()) + utf8_width(s.last())
    }
}

/// The length of `s` in UTF-8 bytes.
pub fn utf8_len_exec(s: &str) -> (r: u128)
    ensures
        r as int == utf8_len(s@),
{
    let v = chars_of(s);
    let mut total: u128 = 0;
    let mut i: usize = 0;
    while i < v.len()
        invariant
            i <= v.len(),
            v@ == s@,
            total as int == utf8_len(v@.take(i as int)),
            total <= 4 * i,
        decreases v.len() - i,
    {
        let u = v[i] as u32;
        let w: u128 = if u < 0x80 {
            1
        } else if u < 0x800 {
            2
        } else if u < 0x10000 {
            3
        } else {
            4
        };
        assert(v@.take(i + 1).drop_last() =~= v@.take(i as int));
        total = total + w;
        i += 1;
    }
    assert(v@.take(v.len() as int) =~= v@);
    total
}

/// The characters with a meaning in a regular expression.
pub open spec fn is_regex_meta(c: char) -> bool {
    c == '\\' || c == '.' || c == '+' || c == '*' || c == '?' || c == '(' || c == ')' || c == '|' || c
        == '[' || c == ']' || c == '{' || c == '}' || c == '^' || c == '$' || c == '#' || c == '&' || c
        == '-' || c == '~'
}

/// `s` with a backslash put before each meta character.
pub open spec fn regex_escaped(s: Seq<char>) -> Seq<char>
    decreases s.len(),
{
    if s.len() == 0 {
        s
    } else {
        let c = s.last();
        regex_escaped(s.drop_last()) + if is_regex_meta(c) {
            seq!['\\', c]
        } else {
            seq![c]
        }
    }
}

/// The start offsets (in bytes) of the successive non-overlapping matches of
/// `pattern` in `haystack`, or `None` when `pattern` does not compile.
pub uninterp spec fn regex_match_starts(pattern: Seq<char>, haystack: Seq<char>) -> Option<
    Seq<usize>,
>;

/// `regex::escape`: each of the meta characters (a backslash and
/// `. + * ? ( ) | [ ] { } ^ $ # & - ~`) gets a backslash before it, every other character is kept.
#[verifier::external_body]
fn regex_escape(s: &str) -> (r: String)
    ensures
        r@ == regex_escaped(s@),
{
    regex::escape(s)
}

/// `regex::Regex::new` followed by `Regex::find_iter`: the start offsets of
/// the matches, in order; `None` when the pattern does not compile.
#[verifier::external_body]
pub(crate) fn regex_find_starts(pattern: &str, haystack: &str) -> (r: Option<Vec<usize>>)
    ensures
        match r {
            Some(v) => regex_match_starts(pattern@, haystack@) == Some(v@),
            None => regex_match_starts(pattern@, haystack@) is None,
        },
{
    match regex::Regex::new(pattern) {
        Ok(re) => Some(re.find_iter(haystack).map(|m| m.start()).collect()),
        Err(_) => None,
    }
}

/// The pattern that finds `label` as a whole word.
pub open spec fn word_pattern(label: Seq<char>) -> Seq<char> {
    "\\b"@ + regex_escaped(label) + "\\b"@
}

/// A match of an outcome label in the reply: offset, byte length, label.
pub struct WordMatch {
    pub offset: int,
    pub len: int,
    pub label: Seq<char>,
}

pub open spec fn label_matches(label: Seq<char>, response: Seq<char>) -> Seq<WordMatch> {
    match regex_match_starts(word_pattern(label), response) {
        Some(starts) => starts.map_values(
            |o: usize| WordMatch { offset: o as int, len: utf8_len(label), label },
        ),
        None => seq![],
    }
}

/// Every whole-word match of every outcome, outcome by outcome.
pub open spec fn all_matches(outcomes: Seq<Seq<char>>, response: Seq<char>) -> Seq<WordMatch>
    decreases outcomes.len(),
{
    if outcomes.len() == 0 {
        seq![]
    } else {
        all_matches(outcomes.drop_last(), response) + label_matches(outcomes.last(), response)
    }
}

/// `m` wins over `n`: it starts earlier, or at the same offset it is longer.
pub open spec fn beats(m: WordMatch, n: WordMatch) -> bool {
    m.offset < n.offset || (m.offset == n.offset && m.len > n.len)
}

/// `ms[i]` wins over every other match.
pub open spec fn unique_best(ms: Seq<WordMatch>, i: int) -> bool {
    &&& 0 <= i < ms.len()
    &&& forall|j: int| 0 <= j < ms.len() && j != i ==> beats(ms[i], #[trigger] ms[j])
}

/// The reply with whitespace, then double quotes, single quotes and
/// backticks, then whitespace again trimmed from both ends.
pub open spec fn trimmed_reply(response: Seq<char>) -> Seq<char> {
    trim_ws(
        trim_by(
            trim_by(trim_by(trim_ws(response), Strip::Char('"')), Strip::Char('\'')),
            Strip::Char('`'),
        ),
    )
}

/// The outcome that a textual reply selects: the trimmed reply when it is an
/// outcome label, else the label whose whole-word match wins over all others.
pub open spec fn text_selection(outcomes: Seq<Seq<char>>, response: Seq<char>) -> Option<Seq<char>> {
    let t = trimmed_reply(response);
    let ms = all_matches(outcomes, response);
    if outcomes.contains(t) {
        Some(t)
    } else if exists|i: int| unique_best(ms, i) {
        Some(ms[choose|i: int| unique_best(ms, i)].label)
    } else {
        None
    }
}

/// The outcome selection for a reply with an optional structured `outcome`.
pub open spec fn decide_selection(
    outcomes: Seq<Seq<char>>,
    response: Seq<char>,
    structured: Option<OutcomeFieldView>,
) -> SelectionView {
    match structured {
        Some(f) => match coerce_outcome(f) {
            Ok(label) => if outcomes.contains(label) {
                SelectionView::Matched(label)
            } else {
                SelectionView::Failed(FailureView::StructuredLabelMismatch)
            },
            Err(t) => SelectionView::Failed(FailureView::StructuredNonScalar { json_type: t }),
        },
        None => match text_selection(outcomes, response) {
            Some(l) => SelectionView::Matched(l),
            None => SelectionView::Failed(FailureView::Unmatched),
        },
    }
}

fn find_label(outcomes: &Vec<String>, label: &str) -> (r: Option<usize>)
    ensures
        match r {
            Some(k) => k < outcomes.len() && outcomes.deep_view()[k as int] == label@,
            None => !outcomes.deep_view().contains(label@),
        },
{
    let mut i: usize = 0;
    while i < outcomes.len()
        invariant
            i <= outcomes.len(),
            forall|j: int| 0 <= j < i ==> outcomes.deep_view()[j] != label@,
        decreases outcomes.len() - i,
    {
        if crate::text::str_eq(outcomes[i].as_str(), label) {
            return Some(i);
        }
        i += 1;
    }
    None
}

fn trimmed_reply_exec(response: &str) -> (r: String)
    ensures
        r@ == trimmed_reply(response@),
{
    let v = chars_of(response);
    let a = trim_chars(v.as_slice(), Strip::Whitespace);
    let b = trim_chars(a.as_slice(), Strip::Char('"'));
    let c = trim_chars(b.as_slice(), Strip::Char('\''));
    let d = trim_chars(c.as_slice(), Strip::Char('`'));
    let e = trim_chars(d.as_slice(), Strip::Whitespace);
    string_of(e.as_slice())
}

fn word_pattern_exec(label: &str) -> (r: String)
    ensures
        r@ == word_pattern(label@),
{
    let escaped = regex_escape(label);
    let mut out: Vec<char> = Vec::new();
    extend_str(&mut out, "\\b");
    extend_str(&mut out, escaped.as_str());
    extend_str(&mut out, "\\b");
    string_of(out.as_slice())
}

/// The view of a collected match: offset, byte length, index of its label.
pub open spec fn match_view(m: (usize, u128, usize), outcomes: Seq<Seq<char>>) -> WordMatch {
    WordMatch { offset: m.0 as int, len: m.1 as int, label: outcomes[m.2 as int] }
}

pub open spec fn matches_view(ms: Seq<(usize, u128, usize)>, outcomes: Seq<Seq<char>>) -> Seq<
    WordMatch,
> {
    ms.map_values(|m: (usize, u128, usize)| match_view(m, outcomes))
}

fn collect_matches(outcomes: &Vec<String>, response: &str) -> (r: Vec<(usize, u128, usize)>)
    ensures
        matches_view(r@, outcomes.deep_view()) == all_matches(outcomes.deep_view(), response@),
        forall|i: int| 0 <= i < r@.len() ==> (#[trigger] r@[i]).2 < outcomes.len(),
{
    let ghost os = outcomes.deep_view();
    let mut ms: Vec<(usize, u128, usize)> = Vec::new();
    let mut k: usize = 0;
    while k < outcomes.len()
        invariant
            os == outcomes.deep_view(),
            k <= outcomes.len(),
            matches_view(ms@, os) == all_matches(os.take(k as int), response@),
            forall|i: int| 0 <= i < ms@.len() ==> (#[trigger] ms@[i]).2 < outcomes.len(),
        decreases outcomes.len() - k,
    {
        let label = outcomes[k].as_str();
        let pattern = word_pattern_exec(label);
        let len = utf8_len_exec(label);
        let ghost before = ms@;
        proof {
            assert(os.take(k + 1).drop_last() =~= os.take(k as int));
            assert(os.take(k + 1).last() == os[k as int]);
        }
        match regex_find_starts(pattern.as_str(), response) {
            Some(starts) => {
                let mut j: usize = 0;
                while j < starts.len()
                    invariant
                        os == outcomes.deep_view(),
                        k < outcomes.len(),
                        j <= starts.len(),
                        regex_match_starts(word_pattern(os[k as int]), response@) == Some(starts@),
                        len as int == utf8_len(os[k as int]),
                        ms@.len() == before.len() + j,
                        forall|i: int| 0 <= i < before.len() ==> ms@[i] == before[i],
                        forall|i: int|
                            0 <= i < j ==> #[trigger] ms@[before.len() + i] == (starts@[i], len, k),
                        forall|i: int| 0 <= i < ms@.len() ==> (#[trigger] ms@[i]).2 < outcomes.len(),
                    decreases starts.len() - j,
                {
                    ms.push((starts[j], len, k));
                    j += 1;
                }
                proof {
                    let lm = label_matches(os[k as int], response@);
                    let lhs = matches_view(ms@, os);
                    let rhs = matches_view(before, os) + lm;
                    assert(lm.len() == starts@.len());
                    assert(lhs.len() == rhs.len());
                    assert forall|i: int| 0 <= i < lhs.len() implies lhs[i] == rhs[i] by {
                        if i >= before.len() {
                            let t = i - before.len();
                            assert(ms@[before.len() + t] == (starts@[t], len, k));
                            assert(lm[t] == WordMatch {
                                offset: starts@[t] as int,
                                len: utf8_len(os[k as int]),
                                label: os[k as int],
                            });
                        }
                    }
                    assert(lhs =~= rhs);
                }
            },
            None => {
                proof {
                    assert(matches_view(ms@, os) =~= matches_view(before, os) + label_matches(
                        os[k as int],
                        response@,
                    ));
                }
            },
        }
        k += 1;
    }
    assert(os.take(outcomes.len() as int) =~= os);
    ms
}

fn beats_exec(m: (usize, u128, usize), n: (usize, u128, usize)) -> (r: bool)
    ensures
        r == (m.0 < n.0 || (m.0 == n.0 && m.1 > n.1)),
{
    m.0 < n.0 || (m.0 == n.0 && m.1 > n.1)
}

/// The label that the reply selects by whole-word matching, if one match
/// wins over all others.
fn select_by_word_match(outcomes: &Vec<String>, response: &str) -> (r: Option<String>)
    ensures
        match r {
            Some(l) => exists|i: int|
                unique_best(all_matches(outcomes.deep_view(), response@), i) && all_matches(
                    outcomes.deep_view(),
                    response@,
                )[i].label == l@,
            None => !exists|i: int| unique_best(all_matches(outcomes.deep_view(), response@), i),
        },
{
    let ms = collect_matches(outcomes, response);
    let ghost os = outcomes.deep_view();
    let ghost mv = matches_view(ms@, os);
    if ms.len() == 0 {
        return None;
    }
    let mut b: usize = 0;
    let mut j: usize = 1;
    while j < ms.len()
        invariant
            0 <= b < ms.len(),
            1 <= j <= ms.len(),
            mv == matches_view(ms@, os),
            forall|i: int| 0 <= i < j ==> !beats(#[trigger] mv[i], mv[b as int]),
        decreases ms.len() - j,
    {
        if beats_exec(ms[j], ms[b]) {
            b = j;
        }
        j += 1;
    }
    let mut tied = false;
    let mut k: usize = 0;
    let ghost mut other: int = -1;
    while k < ms.len()
        invariant
            0 <= b < ms.len(),
            k <= ms.len(),
            mv == matches_view(ms@, os),
            forall|i: int| 0 <= i < ms.len() ==> !beats(#[trigger] mv[i], mv[b as int]),
            tied ==> (0 <= other < ms.len() && other != b && mv[other].offset == mv[
                b as int
            ].offset && mv[other].len == mv[b as int].len),
            !tied ==> forall|i: int|
                0 <= i < k && i != b ==> !(mv[i].offset == mv[b as int].offset && mv[i].len
                    == mv[b as int].len),
        decreases ms.len() - k,
    {
        if k != b && ms[k].0 == ms[b].0 && ms[k].1 == ms[b].1 {
            proof {
                other = k as int;
            }
            tied = true;
        }
        k += 1;
    }
    if !tied {
        proof {
            assert forall|i: int| 0 <= i < mv.len() && i != b implies beats(
                mv[b as int],
                #[trigger] mv[i],
            ) by {
                assert(!beats(mv[i], mv[b as int]));
            }
            assert(unique_best(mv, b as int));
        }
        Some(outcomes[ms[b].2].clone())
    } else {
        proof {
            assert forall|i: int| !unique_best(mv, i) by {
                if unique_best(mv, i) {
                    if i == b {
                        assert(beats(mv[b as int], mv[other]));
                    } else {
                        assert(beats(mv[i], mv[b as int]));
                    }
                }
            }
        }
        None
    }
}

/// The outcome label that a decide reply selects.
pub fn select_decide_outcome(
    outcomes: &Vec<String>,
    response: &str,
    structured_outcome: Option<&OutcomeField>,
) -> (r: DecideOutcomeSelection)
    ensures
        r@ == decide_selection(
            outcomes.deep_view(),
            response@,
            match structured_outcome {
                Some(f) => Some(f@),
                None => None,
            },
        ),
{
    if let Some(outcome_value) = structured_outcome {
        return match coerce_decide_outcome_scalar(outcome_value) {
            Ok(outcome_label) => match find_label(outcomes, outcome_label.as_str()) {
                Some(k) => DecideOutcomeSelection::Matched(outcomes[k].clone()),
                None => DecideOutcomeSelection::Failed(DecideOutcomeFailure::StructuredLabelMismatch),
            },
            Err(json_type) => DecideOutcomeSelection::Failed(
                DecideOutcomeFailure::StructuredNonScalar { json_type },
            ),
        };
    }
    let trimmed = trimmed_reply_exec(response);
    if let Some(k) = find_label(outcomes, trimmed.as_str()) {
        return DecideOutcomeSelection::Matched(outcomes[k].clone());
    }
    match select_by_word_match(outcomes, response) {
        Some(l) => DecideOutcomeSelection::Matched(l),
        None => DecideOutcomeSelection::Failed(DecideOutcomeFailure::Unmatched),
    }
}

/// The body of a reply fenced as a markdown code block: the lines between
/// the first and the last, when the trimmed text starts and ends with three
/// backticks and has at least three lines.
pub open spec fn fence_stripped(text: Seq<char>) -> Option<Seq<char>> {
    let t = trim_ws(text);
    let lines = lines_of(t);
    if starts_with(t, "```"@) && ends_with(t, "```"@) && lines.len() >= 3 {
        Some(join_with(lines.subrange(1, lines.len() - 1), "\n"@))
    } else {
        None
    }
}

/// The body of a reply fenced as a markdown code block (see `fence_stripped`).
pub fn strip_markdown_json_fence(text: &str) -> (r: Option<String>)
    ensures
        match r {
            Some(s) => fence_stripped(text@) == Some(s@),
            None => fence_stripped(text@) is None,
        },
{
    let chars = chars_of(text);
    let trimmed = trim_chars(chars.as_slice(), Strip::Whitespace);
    let fence = chars_of("```");
    if !starts_with_chars(trimmed.as_slice(), fence.as_slice()) || !ends_with_chars(
        trimmed.as_slice(),
        fence.as_slice(),
    ) {
        return None;
    }
    let lines = lines_chars(trimmed.as_slice());
    let ghost lv = lines@.map_values(|l: Vec<char>| l@);
    if lines.len() < 3 {
        return None;
    }
    let mut inner: Vec<String> = Vec::new();
    let mut i: usize = 1;
    while i < lines.len() - 1
        invariant
            1 <= i <= lines.len() - 1,
            lv == lines@.map_values(|l: Vec<char>| l@),
            inner.deep_view() == lv.subrange(1, i as int),
        decreases lines.len() - 1 - i,
    {
        let ghost before = inner.deep_view();
        let line = string_of(lines[i].as_slice());
        assert(lv[i as int] == lines@[i as int]@);
        inner.push(line);
        assert(inner.deep_view() =~= before.push(lv[i as int]));
        assert(inner.deep_view() =~= lv.subrange(1, i + 1));
        i += 1;
    }
    Some(join_strings(&inner, "\n"))
}

/// The text that a structured reply is parsed from: the trimmed output, or
/// the body of its markdown fence when it has one.
pub open spec fn structured_text(output: Seq<char>) -> Seq<char> {
    match fence_stripped(trim_ws(output)) {
        Some(body) => body,
        None => trim_ws(output),
    }
}

/// The text a structured reply is parsed from (see `structured_text`).
pub fn structured_text_exec(output: &str) -> (r: String)
    ensures
        r@ == structured_text(output@),
{
    let trimmed = crate::text::trim_str(output);
    match strip_markdown_json_fence(trimmed.as_str()) {
        Some(body) => body,
        None => trimmed,
    }
}

/// What a JSON reading of a reply finds under its `outcome` key.
pub enum JsonOutcome {
    /// The text is not JSON.
    Invalid,
    /// The text is JSON without an `outcome` key (or not an object).
    NoOutcome,
    Outcome(OutcomeField),
}

pub enum JsonOutcomeView {
    Invalid,
    NoOutcome,
    Outcome(OutcomeFieldView),
}

impl View for JsonOutcome {
    type V = JsonOutcomeView;

    open spec fn view(&self) -> JsonOutcomeView {
        match self {
            JsonOutcome::Invalid => JsonOutcomeView::Invalid,
            JsonOutcome::NoOutcome => JsonOutcomeView::NoOutcome,
            JsonOutcome::Outcome(f) => JsonOutcomeView::Outcome(f@),
        }
    }
}

/// What `serde_json::from_str::<serde_json::Value>` followed by
/// `Value::get("outcome")` finds in `text`.
pub uninterp spec fn json_outcome_of(text: Seq<char>) -> JsonOutcomeView;

/// `serde_json::from_str` into a `serde_json::Value`, then `Value::get` of
/// the key `outcome`; the value found is converted variant by variant (a
/// number by `Number::to_string`). Which texts parse, and to what, is left to
/// the crate.
#[verifier::external_body]
fn read_json_outcome(text: &str) -> (r: JsonOutcome)
    ensures
        r@ == json_outcome_of(text@),
{
    match serde_json::from_str::<serde_json::Value>(text) {
        Err(_) => JsonOutcome::Invalid,
        Ok(value) => match value.get("outcome") {
            None => JsonOutcome::NoOutcome,
            Some(serde_json::Value::String(s)) => JsonOutcome::Outcome(OutcomeField::Str(s.clone())),
            Some(serde_json::Value::Number(n)) => JsonOutcome::Outcome(
                OutcomeField::Number(n.to_string()),
            ),
            Some(serde_json::Value::Bool(_)) => JsonOutcome::Outcome(OutcomeField::Bool),
            Some(serde_json::Value::Array(_)) => JsonOutcome::Outcome(OutcomeField::Array),
            Some(serde_json::Value::Object(_)) => JsonOutcome::Outcome(OutcomeField::Object),
            Some(serde_json::Value::Null) => JsonOutcome::Outcome(OutcomeField::Null),
        },
    }
}

/// The `outcome` field of a decide reply read as JSON (after trimming and
/// removing a markdown fence), when it has one.
pub fn parse_decide_structured_response(response: &str) -> (r: Option<OutcomeField>)
    ensures
        match json_outcome_of(structured_text(response@)) {
            JsonOutcomeView::Outcome(f) => r is Some && r.unwrap()@ == f,
            _ => r is None,
        },
{
    let text = structured_text_exec(response);
    match read_json_outcome(text.as_str()) {
        JsonOutcome::Outcome(f) => Some(f),
        _ => None,
    }
}

/// The structured `outcome` a reply carries, if any.
pub open spec fn structured_outcome(response: Seq<char>) -> Option<OutcomeFieldView> {
    match json_outcome_of(structured_text(response)) {
        JsonOutcomeView::Outcome(f) => Some(f),
        _ => None,
    }
}

/// What a decide node records as its parsed output: the selected outcome
/// (none when none was selected), the agent's reply and the node's input
/// bindings. (The agent's name goes with it where it is written out.)
#[derive(Debug)]
pub struct DecideRecord {
    pub outcome: Option<String>,
    pub response: String,
    pub inputs: Vec<(String, String)>,
}

pub struct DecideRecordView {
    pub outcome: Option<Seq<char>>,
    pub response: Seq<char>,
    pub inputs: Seq<(Seq<char>, Seq<char>)>,
}

impl View for DecideRecord {
    type V = DecideRecordView;

    open spec fn view(&self) -> DecideRecordView {
        DecideRecordView {
            outcome: self.outcome.deep_view(),
            response: self.response@,
            inputs: pairs_view(self.inputs@),
        }
    }
}

/// A decide node's result once its reply is routed.
#[derive(Debug)]
pub struct DecideResult {
    pub success: bool,
    pub output: String,
    pub stderr: String,
    pub exit_code: i32,
    /// The selected outcome label, when one was selected.
    pub outcome: Option<String>,
    /// The raw output kept with the result.
    pub raw_output: Option<String>,
    /// The parsed output recorded for the node.
    pub record: DecideRecord,
}

pub struct DecideResultView {
    pub success: bool,
    pub output: Seq<char>,
    pub stderr: Seq<char>,
    pub exit_code: i32,
    pub outcome: Option<Seq<char>>,
    pub raw_output: Option<Seq<char>>,
    pub record: DecideRecordView,
}

impl View for DecideResult {
    type V = DecideResultView;

    open spec fn view(&self) -> DecideResultView {
        DecideResultView {
            success: self.success,
            output: self.output@,
            stderr: self.stderr@,
            exit_code: self.exit_code,
            outcome: self.outcome.deep_view(),
            raw_output: self.raw_output.deep_view(),
            record: self.record@,
        }
    }
}

/// The result of a decide node: a failed agent run stays as it is, with no
/// outcome; otherwise the reply selects an outcome, which becomes the output
/// (exit code 0, no stderr), or the run fails with the selection's stderr
/// and exit code 1, and the reply is kept as the raw output when none was.
/// Either way the node records the outcome, the reply and its inputs.
pub open spec fn decide_result(
    success: bool,
    output: Seq<char>,
    stderr: Seq<char>,
    exit_code: i32,
    raw_output: Option<Seq<char>>,
    inputs: Seq<(Seq<char>, Seq<char>)>,
    outcomes: Seq<Seq<char>>,
) -> DecideResultView {
    let kept = match raw_output {
        Some(r) => Some(r),
        None => Some(output),
    };
    if !success {
        DecideResultView {
            success,
            output,
            stderr,
            exit_code,
            outcome: None,
            raw_output,
            record: DecideRecordView { outcome: None, response: output, inputs },
        }
    } else {
        match decide_selection(outcomes, output, structured_outcome(output)) {
            SelectionView::Matched(l) => DecideResultView {
                success: true,
                output: l,
                stderr: Seq::empty(),
                exit_code: 0,
                outcome: Some(l),
                raw_output: kept,
                record: DecideRecordView { outcome: Some(l), response: output, inputs },
            },
            SelectionView::Failed(f) => DecideResultView {
                success: false,
                output,
                stderr: failure_stderr(f, outcomes),
                exit_code: 1,
                outcome: None,
                raw_output: kept,
                record: DecideRecordView { outcome: None, response: output, inputs },
            },
        }
    }
}

/// A decide node's result from its agent run: a failed run stays as it is; otherwise the
/// selected outcome becomes the output, or the selection failure the error.
pub fn apply_decide_outcome(
    success: bool,
    output: String,
    stderr: String,
    exit_code: i32,
    raw_output: Option<String>,
    bindings: &Vec<(String, String)>,
    outcomes: &Vec<String>,
) -> (r: DecideResult)
    ensures
        r@ == decide_result(
            success,
            output@,
            stderr@,
            exit_code,
            raw_output.deep_view(),
            pairs_view(bindings@),
            outcomes.deep_view(),
        ),
{
    let inputs = clone_pairs(bindings);
    if !success {
        let record = DecideRecord { outcome: None, response: output.clone(), inputs };
        return DecideResult { success, output, stderr, exit_code, outcome: None, raw_output, record };
    }
    let kept = match raw_output {
        Some(r) => Some(r),
        None => Some(output.clone()),
    };
    let parsed = parse_decide_structured_response(output.as_str());
    let ghost so = structured_outcome(output@);
    proof {
        if parsed is Some {
            assert(so == Some(parsed.unwrap()@));
        } else {
            assert(so is None);
        }
    }
    let selection = select_decide_outcome(outcomes, output.as_str(), parsed.as_ref());
    match selection {
        DecideOutcomeSelection::Matched(selected) => {
            let label = selected.clone();
            let record = DecideRecord { outcome: Some(selected.clone()), response: output, inputs };
            DecideResult {
                success: true,
                output: selected,
                stderr: String::new(),
                exit_code: 0,
                outcome: Some(label),
                raw_output: kept,
                record,
            }
        },
        DecideOutcomeSelection::Failed(failure) => {
            let stderr = decide_outcome_failure_stderr(failure, outcomes);
            let record = DecideRecord { outcome: None, response: output.clone(), inputs };
            DecideResult { success: false, output, stderr, exit_code: 1, outcome: None, raw_output: kept, record }
        },
    }
}

/// A digit of base sixteen, in lower case.
pub open spec fn hex_digit(n: nat) -> char {
    if n < 10 {
        (n + 48) as char
    } else {
        (n + 87) as char
    }
}

/// How a character is written inside a JSON string: a quote and a
/// backslash escaped by a backslash, the control characters by their short
/// escapes (`\b \t \n \f \r`) or as `\u00XX` (lower-case hex), everything
/// else as itself.
pub open spec fn json_char_escape(c: char) -> Seq<char> {
    let u = c as u32;
    if c == '"' {
        seq!['\\', '"']
    } else if c == '\\' {
        seq!['\\', '\\']
    } else if u == 8 {
        seq!['\\', 'b']
    } else if u == 9 {
        seq!['\\', 't']
    } else if u == 10 {
        seq!['\\', 'n']
    } else if u == 12 {
        seq!['\\', 'f']
    } else if u == 13 {
        seq!['\\', 'r']
    } else if u < 32 {
        seq!['\\', 'u', '0', '0', hex_digit((u / 16) as nat), hex_digit((u % 16) as nat)]
    } else {
        seq![c]
    }
}

/// The characters of `s`, each written as inside a JSON string.
pub open spec fn json_escaped(s: Seq<char>) -> Seq<char>
    decreases s.len(),
{
    if s.len() == 0 {
        s
    } else {
        json_escaped(s.drop_last()) + json_char_escape(s.last())
    }
}

/// The JSON string literal `serde_json::to_string` writes for `s`: the
/// escaped characters between double quotes.
pub open spec fn json_quoted(s: Seq<char>) -> Seq<char> {
    seq!['"'] + json_escaped(s) + seq!['"']
}

/// `serde_json::to_string` of a string: the string as a JSON string literal,
/// quoted and escaped (see `json_quoted`). Serializing a `&str` cannot fail.
#[verifier::external_body]
fn json_quote(s: &str) -> (r: String)
    ensures
        r@ == json_quoted(s@),
{
    serde_json::to_string(s).unwrap_or_default()
}

/// The outcomes as the decide prompt lists them: JSON string literals
/// joined by `, `.
pub open spec fn outcomes_for_prompt(outcomes: Seq<Seq<char>>) -> Seq<char> {
    join_with(outcomes.map_values(|o: Seq<char>| json_quoted(o)), ", "@)
}

/// The outcomes as the decide prompt lists them (see `outcomes_for_prompt`).
pub fn format_decide_outcomes_for_prompt(outcomes: &Vec<String>) -> (r: String)
    ensures
        r@ == outcomes_for_prompt(outcomes.deep_view()),
{
    let mut quoted: Vec<String> = Vec::new();
    let mut i: usize = 0;
    while i < outcomes.len()
        invariant
            i <= outcomes.len(),
            quoted.deep_view() == outcomes.deep_view().take(i as int).map_values(|o: Seq<char>| json_quoted(o)),
        decreases outcomes.len() - i,
    {
        let ghost before = quoted.deep_view();
        quoted.push(json_quote(outcomes[i].as_str()));
        proof {
            assert(quoted.deep_view() =~= before.push(json_quoted(outcomes.deep_view()[i as int])));
            assert(outcomes.deep_view().take(i + 1).map_values(|o: Seq<char>| json_quoted(o)) =~= outcomes.deep_view().take(
                i as int,
            ).map_values(|o: Seq<char>| json_quoted(o)).push(json_quoted(outcomes.deep_view()[i as int])));
        }
        i += 1;
    }
    assert(outcomes.deep_view().take(outcomes.len() as int) =~= outcomes.deep_view());
    join_strings(&quoted, ", ")
}

/// The instruction a decide prompt ends with.
pub open spec fn decide_instruction(outcomes: Seq<Seq<char>>) -> Seq<char> {
    "\n\nChoose exactly one outcome. Emit a single JSON object in this exact shape: {\"outcome\":\"<label>\"}. The outcome value must exactly match one of: "@
        + outcomes_for_prompt(outcomes) + "."@
}

/// The instruction a decide prompt ends with (see `decide_instruction`).
pub fn decide_instruction_text(outcomes: &Vec<String>) -> (r: String)
    ensures
        r@ == decide_instruction(outcomes.deep_view()),
{
    let mut v: Vec<char> = Vec::new();
    extend_str(
        &mut v,
        "\n\nChoose exactly one outcome. Emit a single JSON object in this exact shape: {\"outcome\":\"<label>\"}. The outcome value must exactly match one of: ",
    );
    let listed = format_decide_outcomes_for_prompt(outcomes);
    extend_str(&mut v, listed.as_str());
    extend_str(&mut v, ".");
    let r = string_of(v.as_slice());
    assert(r@ =~= decide_instruction(outcomes.deep_view()));
    r
}

} // verus!
