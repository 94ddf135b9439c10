//! Names derived from a run: the id of its execution log, which is also a
//! file name, and the working directory a (sub)workflow runs in.

use vstd::prelude::*;

use crate::text::{chars_of, string_of};

verus! {

/// Characters kept as they are in a file-name slug.
pub open spec fn slug_keeps(c: char) -> bool {
    ('a' <= c && c <= 'z') || ('A' <= c && c <= 'Z') || ('0' <= c && c <= '9') || c == ' ' || c == '-'
        || c == '_'
}

/// `name` with every character that is not an ASCII letter or digit, a
/// space, `-` or `_` replaced by `_`.
pub open spec fn slug(name: Seq<char>) -> Seq<char> {
    name.map_values(|c: char| if slug_keeps(c) { c } else { '_' })
}

/// The name with every character but ASCII letters, digits, space, `-` and `_` replaced by
/// `_` (see `slug`).
pub fn slugify_filename(name: &str) -> (r: String)
    ensures
        r@ == slug(name@),
{
    let cs = chars_of(name);
    let mut out: Vec<char> = Vec::new();
    let mut i: usize = 0;
    while i < cs.len()
        invariant
            i <= cs.len(),
            cs@ == name@,
            out@ == slug(name@).take(i as int),
        decreases cs.len() - i,
    {
        let c = cs[i];
        let keep = ('a' <= c && c <= 'z') || ('A' <= c && c <= 'Z') || ('0' <= c && c <= '9') || c == ' '
            || c == '-' || c == '_';
        out.push(if keep { c } else { '_' });
        assert(out@ =~= slug(name@).take(i + 1));
        i += 1;
    }
    assert(slug(name@).take(cs.len() as int) =~= slug(name@));
    string_of(out.as_slice())
}

/// `s` without any number of leading `prefix`es (`str::trim_start_matches`).
pub open spec fn trim_prefixes(s: Seq<char>, prefix: Seq<char>) -> Seq<char>
    decreases s.len(),
{
    if prefix.len() > 0 && prefix.len() <= s.len() && s.take(prefix.len() as int) == prefix {
        trim_prefixes(s.skip(prefix.len() as int), prefix)
    } else {
        s
    }
}

fn trim_prefix_chars(s: &[char], prefix: &[char]) -> (r: Vec<char>)
    ensures
        r@ == trim_prefixes(s@, prefix@),
{
    let mut start: usize = 0;
    assert(s@.skip(0) =~= s@);
    while prefix.len() > 0 && prefix.len() <= s.len() - start && crate::text::occurs_at_exec(s, prefix, start)
        invariant
            start <= s.len(),
            trim_prefixes(s@.skip(start as int), prefix@) == trim_prefixes(s@, prefix@),
        decreases s.len() - start,
    {
        proof {
            let rest = s@.skip(start as int);
            assert(rest.take(prefix@.len() as int) =~= prefix@);
            assert(rest.skip(prefix@.len() as int) =~= s@.skip(start + prefix@.len()));
        }
        start = start + prefix.len();
    }
    proof {
        let rest = s@.skip(start as int);
        assert(s@.subrange(start as int, s@.len() as int) =~= rest);
        if prefix@.len() > 0 && prefix@.len() <= rest.len() && rest.take(prefix@.len() as int) == prefix@ {
            assert(s@.subrange(start as int, start + prefix@.len()) =~= rest.take(prefix@.len() as int));
            assert(crate::text::occurs_at(s@, prefix@, start as int));
        }
    }
    crate::text::slice_chars(s, start, s.len())
}

/// The id of a run's execution log: the workflow name as a slug, `_`, and
/// the run id without its `run_` prefixes.
pub open spec fn log_id(workflow_name: Seq<char>, run_id: Seq<char>) -> Seq<char> {
    slug(workflow_name) + "_"@ + trim_prefixes(run_id, "run_"@)
}

/// The id of a run's execution log (see `log_id`).
pub fn build_log_id(workflow_name: &str, run_id: &str) -> (r: String)
    ensures
        r@ == log_id(workflow_name@, run_id@),
{
    let slug_text = slugify_filename(workflow_name);
    let mut v = chars_of(slug_text.as_str());
    v.push('_');
    let run = chars_of(run_id);
    let prefix = chars_of("run_");
    let rest = trim_prefix_chars(run.as_slice(), prefix.as_slice());
    crate::text::extend_chars(&mut v, rest.as_slice());
    let r = string_of(v.as_slice());
    proof {
        reveal_strlit("_");
        assert(r@ =~= log_id(workflow_name@, run_id@));
    }
    r
}

/// Why a name cannot be used as a file name.
#[derive(Debug, Clone, Copy, PartialEq, Eq, Structural)]
pub enum NameError {
    Empty,
    DotName,
    Separator,
}

/// The result of checking a name as a single path component.
pub open spec fn name_check(name: Seq<char>) -> Result<(), NameError> {
    if name.len() == 0 {
        Err(NameError::Empty)
    } else if name == "."@ || name == ".."@ {
        Err(NameError::DotName)
    } else if exists|i: int| 0 <= i < name.len() && (name[i] == '/' || name[i] == '\\' || name[i] == '\0') {
        Err(NameError::Separator)
    } else {
        Ok(())
    }
}

/// Checks that `name` is one path component: not empty, not `.` or `..`,
/// and free of `/`, `\` and NUL.
pub fn safe_name(name: &str) -> (r: Result<(), NameError>)
    ensures
        r == name_check(name@),
{
    let cs = chars_of(name);
    if cs.len() == 0 {
        return Err(NameError::Empty);
    }
    proof {
        reveal_strlit(".");
        reveal_strlit("..");
    }
    if (cs.len() == 1 && cs[0] == '.') || (cs.len() == 2 && cs[0] == '.' && cs[1] == '.') {
        assert(cs@ =~= "."@ || cs@ =~= ".."@);
        return Err(NameError::DotName);
    }
    assert(name@ != "."@ && name@ != ".."@) by {
        if name@ == "."@ {
            assert(name@[0] == '.');
        }
        if name@ == ".."@ {
            assert(name@[0] == '.' && name@[1] == '.');
        }
    }
    let mut i: usize = 0;
    while i < cs.len()
        invariant
            i <= cs.len(),
            cs@ == name@,
            name@.len() > 0,
            name@ != "."@ && name@ != ".."@,
            forall|j: int| 0 <= j < i ==> !(name@[j] == '/' || name@[j] == '\\' || name@[j] == '\0'),
        decreases cs.len() - i,
    {
        if cs[i] == '/' || cs[i] == '\\' || cs[i] == '\0' {
            assert(name@[i as int] == cs@[i as int]);
            return Err(NameError::Separator);
        }
        i += 1;
    }
    Ok(())
}

/// The working directory of a workflow: its own when it sets one, else the
/// run's.
pub fn scoped_workflow_cwd(workflow_cwd: &str, root_cwd: &str) -> (r: String)
    ensures
        r@ == (if workflow_cwd@.len() == 0 {
            root_cwd@
        } else {
            workflow_cwd@
        }),
{
    if workflow_cwd.is_empty() {
        root_cwd.to_owned()
    } else {
        workflow_cwd.to_owned()
    }
}

/// A log id is always usable as a file name, whatever the workflow is
/// called, as long as the run id holds no path separator or NUL.
pub proof fn lemma_log_id_is_safe_name(workflow_name: Seq<char>, run_id: Seq<char>)
    requires
        forall|i: int| 0 <= i < run_id.len() ==> run_id[i] != '/' && run_id[i] != '\\' && run_id[i] != '\0',
    ensures
        name_check(log_id(workflow_name, run_id)) == Ok::<(), NameError>(()),
{
    reveal_strlit("_");
    reveal_strlit("run_");
    reveal_strlit(".");
    reveal_strlit("..");
    let sl = slug(workflow_name);
    let rest = trim_prefixes(run_id, "run_"@);
    lemma_trim_prefixes_suffix(run_id, "run_"@);
    let id = log_id(workflow_name, run_id);
    assert(id == sl + "_"@ + rest);
    assert(id[sl.len() as int] == '_');
    assert(id != "."@) by {
        if id == "."@ {
            assert(id[sl.len() as int] == "."@[sl.len() as int]);
        }
    }
    assert(id != ".."@) by {
        if id == ".."@ {
            assert(id[sl.len() as int] == ".."@[sl.len() as int]);
        }
    }
    assert forall|i: int| 0 <= i < id.len() implies !(id[i] == '/' || id[i] == '\\' || id[i] == '\0') by {
        if i < sl.len() {
            assert(id[i] == sl[i]);
        } else if i == sl.len() {
        } else {
            let j = i - sl.len() - 1;
            assert(id[i] == rest[j]);
            assert(rest[j] == run_id[run_id.len() - rest.len() + j]);
        }
    }
}

/// What is left after trimming prefixes is a suffix of the text.
pub proof fn lemma_trim_prefixes_suffix(s: Seq<char>, prefix: Seq<char>)
    ensures
        trim_prefixes(s, prefix).len() <= s.len(),
        trim_prefixes(s, prefix) == s.skip(s.len() - trim_prefixes(s, prefix).len()),
    decreases s.len(),
{
    if prefix.len() > 0 && prefix.len() <= s.len() && s.take(prefix.len() as int) == prefix {
        let t = s.skip(prefix.len() as int);
        lemma_trim_prefixes_suffix(t, prefix);
        let r = trim_prefixes(t, prefix);
        assert(t.skip(t.len() - r.len()) =~= s.skip(s.len() - r.len()));
    } else {
        assert(s.skip(0) =~= s);
    }
}

} // verus!
