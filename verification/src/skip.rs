//! Skip conditions: a node may be skipped when the text it looks at (the
//! previous output, or a named node's output) contains, lacks, or matches a
//! value.

use vstd::prelude::*;

use crate::decide::{regex_find_starts, regex_match_starts};
use crate::text::{chars_of, contains_chars, contains_seq, str_eq};

verus! {

/// A node's skip condition: where to look, how, and for what.
#[derive(Debug, Clone)]
pub struct SkipCondition {
    pub source: String,
    pub kind: String,
    pub value: String,
}

pub struct SkipView {
    pub source: Seq<char>,
    pub kind: Seq<char>,
    pub value: Seq<char>,
}

impl View for SkipCondition {
    type V = SkipView;

    open spec fn view(&self) -> SkipView {
        SkipView { source: self.source@, kind: self.kind@, value: self.value@ }
    }
}

/// Why a skip condition could not be evaluated.
#[derive(Debug, Clone, Copy, PartialEq, Eq, Structural)]
pub enum SkipError {
    /// A `regex` condition whose pattern does not compile.
    InvalidRegex,
}

/// The text a condition looks at: the cursor's previous output for the
/// source `previous_output`, else the output recorded for the node it
/// names (empty when there is none).
pub open spec fn skip_source_text(
    cond: SkipView,
    previous_output: Seq<char>,
    results: Seq<(Seq<char>, Seq<char>)>,
) -> Seq<char> {
    if cond.source == "previous_output"@ {
        previous_output
    } else {
        match crate::counters::key_lookup(results, cond.source) {
            Some(o) => o,
            None => Seq::empty(),
        }
    }
}

/// Whether a condition skips a node looking at `text`.
pub open spec fn skips(cond: SkipView, text: Seq<char>) -> Result<bool, SkipError> {
    if cond.kind == "contains"@ {
        Ok(contains_seq(text, cond.value))
    } else if cond.kind == "not_contains"@ {
        Ok(!contains_seq(text, cond.value))
    } else if cond.kind == "regex"@ {
        match regex_match_starts(cond.value, text) {
            Some(starts) => Ok(starts.len() > 0),
            None => Err(SkipError::InvalidRegex),
        }
    } else {
        Ok(false)
    }
}

/// The value stored under `key` in an association list of strings.
pub(crate) fn lookup_output(results: &Vec<(String, String)>, key: &str) -> (r: Option<String>)
    ensures
        r.deep_view() == crate::counters::key_lookup(
            results@.map_values(|e: (String, String)| (e.0@, e.1@)),
            key@,
        ),
{
    let ghost rv = results@.map_values(|e: (String, String)| (e.0@, e.1@));
    let ghost p = crate::counters::key_pred(rv, key@);
    let mut i: usize = 0;
    while i < results.len()
        invariant
            i <= results.len(),
            rv == results@.map_values(|e: (String, String)| (e.0@, e.1@)),
            p == crate::counters::key_pred(rv, key@),
            forall|j: int| 0 <= j < i ==> !#[trigger] p(j),
        decreases results.len() - i,
    {
        if str_eq(results[i].0.as_str(), key) {
            proof {
                assert(p(i as int));
                crate::routing::lemma_first_idx_is(p, rv.len() as int, i as int);
            }
            return Some(results[i].1.clone());
        }
        i += 1;
    }
    proof {
        crate::routing::lemma_first_idx(p, 0, rv.len() as int);
    }
    None
}

/// Decides whether a node with the condition `cond` is skipped, given the
/// cursor's previous output and the recorded node outputs (by node id).
pub fn should_skip_node(
    cond: Option<&SkipCondition>,
    previous_output: &str,
    results: &Vec<(String, String)>,
) -> (r: Result<bool, SkipError>)
    ensures
        r == match cond {
            Some(c) => skips(
                c@,
                skip_source_text(c@, previous_output@, results@.map_values(|e: (String, String)| (e.0@, e.1@))),
            ),
            None => Ok(false),
        },
{
    let c = match cond {
        Some(c) => c,
        None => return Ok(false),
    };
    let text: String = if str_eq(c.source.as_str(), "previous_output") {
        previous_output.to_owned()
    } else {
        match lookup_output(results, c.source.as_str()) {
            Some(o) => o,
            None => String::new(),
        }
    };
    if str_eq(c.kind.as_str(), "contains") || str_eq(c.kind.as_str(), "not_contains") {
        let hay = chars_of(text.as_str());
        let needle = chars_of(c.value.as_str());
        let found = contains_chars(hay.as_slice(), needle.as_slice());
        if str_eq(c.kind.as_str(), "contains") {
            return Ok(found);
        }
        proof {
            reveal_strlit("contains");
            reveal_strlit("not_contains");
            assert(c.kind@ != "contains"@);
        }
        return Ok(!found);
    }
    if str_eq(c.kind.as_str(), "regex") {
        proof {
            reveal_strlit("contains");
            reveal_strlit("not_contains");
            reveal_strlit("regex");
        }
        return match regex_find_starts(c.value.as_str(), text.as_str()) {
            Some(starts) => Ok(starts.len() > 0),
            None => Err(SkipError::InvalidRegex),
        };
    }
    Ok(false)
}

/// The first condition among `conds` that is a `regex` whose pattern does
/// not compile: a workflow with one cannot start.
pub open spec fn invalid_regex_at(conds: Seq<Option<SkipView>>, i: int) -> bool {
    conds[i] is Some && conds[i].unwrap().kind == "regex"@ && regex_match_starts(
        conds[i].unwrap().value,
        Seq::empty(),
    ) is None
}

/// The first node whose regex skip condition does not compile.
pub fn first_invalid_skip_regex(conds: &Vec<Option<SkipCondition>>) -> (r: Option<usize>)
    ensures
        ({
            let cv = conds@.map_values(|c: Option<SkipCondition>| match c {
                Some(x) => Some(x@),
                None => None,
            });
            match r {
                Some(i) => i < cv.len() && invalid_regex_at(cv, i as int) && forall|j: int|
                    0 <= j < i ==> !#[trigger] invalid_regex_at(cv, j),
                None => forall|j: int| 0 <= j < cv.len() ==> !#[trigger] invalid_regex_at(cv, j),
            }
        }),
{
    let ghost cv = conds@.map_values(|c: Option<SkipCondition>| match c {
        Some(x) => Some(x@),
        None => None,
    });
    let mut i: usize = 0;
    while i < conds.len()
        invariant
            i <= conds.len(),
            cv == conds@.map_values(|c: Option<SkipCondition>| match c {
                Some(x) => Some(x@),
                None => None,
            }),
            forall|j: int| 0 <= j < i ==> !#[trigger] invalid_regex_at(cv, j),
        decreases conds.len() - i,
    {
        if let Some(c) = &conds[i] {
            if str_eq(c.kind.as_str(), "regex") && regex_find_starts(c.value.as_str(), "").is_none() {
                proof {
                    assert(cv[i as int] == Some(c@));
                    reveal_strlit("");
                    assert(""@ =~= Seq::<char>::empty());
                }
                return Some(i);
            }
            proof {
                assert(cv[i as int] == Some(c@));
                reveal_strlit("");
                assert(""@ =~= Seq::<char>::empty());
            }
        }
        i += 1;
    }
    None
}

} // verus!
