//! Fresh identifiers for runs, cursors, call frames, split families,
//! sessions and event streams, made from UUIDs.

use vstd::prelude::*;

use uuid::Uuid;

use crate::text::{extend_str, string_of};

verus! {

/// A lower-case hex digit.
pub open spec fn is_lower_hex(c: char) -> bool {
    (48 <= c as u32 <= 57) || (97 <= c as u32 <= 102)
}

/// A UUID of `version` as its `Display` writes it: 32 lower-case hex digits
/// in groups of 8, 4, 4, 4 and 12 joined by hyphens, the version digit
/// first in the third group.
pub open spec fn hyphenated_uuid(s: Seq<char>, version: char) -> bool {
    &&& s.len() == 36
    &&& s[14] == version
    &&& forall|i: int|
        0 <= i < 36 ==> if i == 8 || i == 13 || i == 18 || i == 23 {
            s[i] == '-'
        } else {
            is_lower_hex(#[trigger] s[i])
        }
}

/// `Uuid::now_v7`, written with the UUID's `Display` (hyphenated, lower-case
/// hex). The value rests on the clock and on chance: only its form is
/// stated.
#[verifier::external_body]
fn uuid_v7_text() -> (r: String)
    ensures
        hyphenated_uuid(r@, '7'),
{
    format!("{}", Uuid::now_v7())
}

/// `Uuid::new_v4().simple()` as text: 32 lower-case hex digits, the
/// version digit `4` the thirteenth. The value rests on chance: only its
/// form is stated.
#[verifier::external_body]
pub fn new_stream_token() -> (r: String)
    ensures
        r@.len() == 32,
        r@[12] == '4',
        forall|i: int| 0 <= i < 32 ==> is_lower_hex(#[trigger] r@[i]),
{
    Uuid::new_v4().simple().to_string()
}

/// `Uuid::new_v4`, written with the UUID's `Display` (hyphenated,
/// lower-case hex): a fresh session id. The value rests on chance: only its
/// form is stated.
#[verifier::external_body]
pub(crate) fn new_session_id() -> (r: String)
    ensures
        hyphenated_uuid(r@, '4'),
{
    Uuid::new_v4().to_string()
}

/// `prefix` followed by a fresh time-ordered UUID.
pub open spec fn prefixed_id(prefix: Seq<char>, r: Seq<char>) -> bool {
    &&& r.len() == prefix.len() + 36
    &&& r.take(prefix.len() as int) == prefix
    &&& hyphenated_uuid(r.skip(prefix.len() as int), '7')
}

fn prefixed_uuid(prefix: &str) -> (r: String)
    ensures
        prefixed_id(prefix@, r@),
{
    let mut v: Vec<char> = Vec::new();
    extend_str(&mut v, prefix);
    let u = uuid_v7_text();
    extend_str(&mut v, u.as_str());
    let r = string_of(v.as_slice());
    assert(r@.take(prefix@.len() as int) =~= prefix@);
    assert(r@.skip(prefix@.len() as int) =~= u@);
    r
}

/// A fresh cursor id: `cursor_` and a time-ordered UUID.
pub fn new_cursor_id() -> (r: String)
    ensures
        prefixed_id("cursor_"@, r@),
{
    prefixed_uuid("cursor_")
}

/// A fresh call frame id: `frame_` and a time-ordered UUID.
pub fn new_call_frame_id() -> (r: String)
    ensures
        prefixed_id("frame_"@, r@),
{
    prefixed_uuid("frame_")
}

/// A fresh run id: `run_` and a time-ordered UUID.
pub fn new_run_id() -> (r: String)
    ensures
        prefixed_id("run_"@, r@),
{
    prefixed_uuid("run_")
}

/// A fresh split family id: `family_` and a time-ordered UUID.
pub fn new_split_family_id() -> (r: String)
    ensures
        prefixed_id("family_"@, r@),
{
    prefixed_uuid("family_")
}

} // verus!
