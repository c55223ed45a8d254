//! What the user has set, and what it means where nothing is set.

use vstd::prelude::*;
use vstd::string::*;
use crate::json;
use crate::text;

verus! {

/// A stored value without the quotation marks at its ends.
pub open spec fn unquoted(s: Seq<char>) -> Seq<char> {
    text::strip_back(text::strip_front(s, '"'), '"')
}

/// The value of a setting as it is read from the record.
pub fn get_setting(stored: Option<String>) -> (out: Option<String>)
    ensures
        text::opt_view(out) == match text::opt_view(stored) {
            Some(s) => Some(unquoted(s)),
            None => None,
        },
{
    match stored {
        Some(s) => {
            let front: String = text::trim_start_matches(s.as_str(), '"');
            Some(text::trim_end_matches(front.as_str(), '"'))
        },
        None => None,
    }
}

/// The number in a stored value or an answer of a page: without white space and quotation marks
/// at its ends.
pub fn number_text(stored: &str) -> (out: String)
    ensures
        out@ == unquoted(text::trimmed(stored@)),
{
    let trimmed: String = text::trim(stored);
    let front: String = text::trim_start_matches(trimmed.as_str(), '"');
    text::trim_end_matches(front.as_str(), '"')
}

/// Whether a setting is switched on; it is off where nothing is set.
pub fn is_on(setting: &Option<String>) -> (out: bool)
    ensures
        out == (text::opt_view(*setting) == Some("true"@)),
{
    match setting {
        Some(s) => text::same(s.as_str(), "true"),
        None => false,
    }
}

/// Whether a setting is not switched off; it is on where nothing is set.
pub fn is_not_off(setting: &Option<String>) -> (out: bool)
    ensures
        out == (text::opt_view(*setting) != Some("false"@)),
{
    match setting {
        Some(s) => !text::same(s.as_str(), "false"),
        None => true,
    }
}

/// A switch as it is put on record.
pub fn switch_text(on: bool) -> (out: &'static str)
    ensures
        out@ == if on {
            "true"@
        } else {
            "false"@
        },
{
    if on {
        "true"
    } else {
        "false"
    }
}

/// Under which name the magnification of a site is kept; that of no site is not kept.
pub fn zoom_key(host: &str) -> (out: Option<String>)
    ensures
        text::opt_view(out) == if host@.len() == 0 {
            None
        } else {
            Some("zoom:"@ + host@)
        },
{
    if host.is_empty() {
        None
    } else {
        Some(text::concat2("zoom:", host))
    }
}

/// The size in bytes above which the log is begun anew.
pub const LOG_LIMIT: u64 = 5_242_880;

/// Whether the log is begun anew.
pub fn log_is_full(len: u64) -> (out: bool)
    ensures
        out == (len > LOG_LIMIT),
        out <==> len > 5 * 1024 * 1024,
{
    len > LOG_LIMIT
}

/// Whether the program looks for updates by itself: only where the user has agreed.
pub fn checks_for_updates(setting: &Option<String>) -> (out: bool)
    ensures
        out == (text::opt_view(*setting) == Some("true"@)),
{
    is_on(setting)
}

/// Whether the program can update itself.
pub fn updater_enabled() -> (out: bool)
    ensures
        out,
{
    true
}

/// A value of the record as JSON: itself where it is JSON, else the string that it is.
pub open spec fn value_of(stored: Seq<char>) -> Seq<char> {
    if json::is_json(stored) {
        stored
    } else {
        json::quoted(stored)
    }
}

/// A value of the record as JSON.
pub fn settings_get(stored: &str) -> (out: String)
    ensures
        out@ == value_of(stored@),
        json::is_json(out@),
{
    if json::parses(stored) {
        stored.to_owned()
    } else {
        json::quote(stored)
    }
}

/// What is put on record for each of a number of values: a string as it is, anything else as
/// JSON.
pub open spec fn stored_rows(
    members: Seq<(Seq<char>, Option<Seq<char>>, Seq<char>)>,
) -> Seq<(Seq<char>, Seq<char>)> {
    members.map_values(
        |m: (Seq<char>, Option<Seq<char>>, Seq<char>)|
            (
                m.0,
                match m.1 {
                    Some(s) => s,
                    None => m.2,
                },
            ),
    )
}

/// The view of a list of pairs.
pub open spec fn row_views(v: Seq<(String, String)>) -> Seq<(Seq<char>, Seq<char>)> {
    v.map_values(|r: (String, String)| (r.0@, r.1@))
}

/// What is put on record for each of a number of values.
pub fn rows_for(members: &Vec<(String, Option<String>, String)>) -> (out: Vec<(String, String)>)
    ensures
        row_views(out@) == stored_rows(json::member_views(members@)),
{
    let mut out: Vec<(String, String)> = Vec::new();
    let ghost want = stored_rows(json::member_views(members@));
    for i in 0..members.len()
        invariant
            want == stored_rows(json::member_views(members@)),
            want.len() == members@.len(),
            row_views(out@) == want.take(i as int),
    {
        let row: (String, String) = (
            members[i].0.clone(),
            match &members[i].1 {
                Some(s) => s.clone(),
                None => members[i].2.clone(),
            },
        );
        proof {
            assert(json::member_views(members@)[i as int] == (
                members@[i as int].0@,
                text::opt_view(members@[i as int].1),
                members@[i as int].2@,
            ));
            assert(want[i as int] == (row.0@, row.1@));
            assert(row_views(out@.push(row)) =~= row_views(out@).push((row.0@, row.1@)));
            assert(want.take(i + 1) =~= want.take(i as int).push(want[i as int]));
        }
        out.push(row);
    }
    assert(want.take(members@.len() as int) =~= want);
    out
}

/// Whether a value is read back from the record as it was given: whatever is not a string is, and
/// so is a string that is not JSON by itself.
pub open spec fn reads_back(member: (Seq<char>, Option<Seq<char>>, Seq<char>), row: (
    Seq<char>,
    Seq<char>,
)) -> bool {
    &&& row.0 == member.0
    &&& match member.1 {
        None => value_of(row.1) == member.2,
        Some(s) => !json::is_json(s) ==> value_of(row.1) == json::quoted(s),
    }
}

/// The rows that a number of settings, given as a JSON object, is put on record with. What is
/// read from them again is what was given, but for strings that are JSON by themselves.
pub fn settings_set(patch: &str) -> (out: Result<Vec<(String, String)>, String>)
    ensures
        match (json::members(patch@), out) {
            (Some(members), Ok(rows)) => {
                &&& row_views(rows@) == stored_rows(members)
                &&& forall|i: int|
                    0 <= i < members.len() ==> reads_back(
                        #[trigger] members[i],
                        row_views(rows@)[i],
                    )
            },
            (None, Err(e)) => e@ == "patch must be an object"@,
            _ => false,
        },
{
    match json::read_members(patch) {
        Some(members) => {
            let rows: Vec<(String, String)> = rows_for(&members);
            proof {
                let v = json::member_views(members@);
                assert forall|i: int| 0 <= i < v.len() implies reads_back(
                    #[trigger] v[i],
                    row_views(rows@)[i],
                ) by {
                    assert(v[i] == (
                        members@[i].0@,
                        text::opt_view(members@[i].1),
                        members@[i].2@,
                    ));
                    assert(stored_rows(v)[i].0 == v[i].0);
                }
            }
            Ok(rows)
        },
        None => Err("patch must be an object".to_owned()),
    }
}

/// The quotation marks at the ends of a stored value are taken off, all of them and nothing else.
pub proof fn law_unquoted(m: nat, s: Seq<char>, n: nat)
    requires
        s.len() > 0,
        s[0] != '"',
        s.last() != '"',
    ensures
        unquoted(Seq::new(m, |i: int| '"') + s + Seq::new(n, |i: int| '"')) == s,
        unquoted(s) == s,
{
    let front = Seq::new(m, |i: int| '"');
    let back = Seq::new(n, |i: int| '"');
    assert(front + s + back =~= front + (s + back));
    assert((s + back)[0] == s[0]);
    text::law_strip_front(m, s + back, '"');
    text::law_strip_back(s, n, '"');
    let none = Seq::new(0, |i: int| '"');
    assert(none + s =~= s);
    assert(s + none =~= s);
    text::law_strip_front(0, s, '"');
    text::law_strip_back(s, 0, '"');
}

/// A string is put on record as it is, anything else as JSON, each under its own name and in the
/// order in which they were given. Read again, JSON stays as it is, and every other value is the
/// string that it is.
pub proof fn law_rows(members: Seq<(Seq<char>, Option<Seq<char>>, Seq<char>)>, i: int)
    requires
        0 <= i < members.len(),
    ensures
        stored_rows(members).len() == members.len(),
        stored_rows(members)[i].0 == members[i].0,
        members[i].1 is Some ==> stored_rows(members)[i].1 == members[i].1->0,
        members[i].1 is None ==> stored_rows(members)[i].1 == members[i].2,
        members[i].1 is None && json::is_json(members[i].2) ==> value_of(stored_rows(members)[i].1)
            == members[i].2,
        members[i].1 is Some && !json::is_json(members[i].1->0) ==> value_of(
            stored_rows(members)[i].1,
        ) == json::quoted(members[i].1->0),
{
}

} // verus!
