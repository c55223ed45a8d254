//! Addresses that come from outside: from the command line and from `jello://` links.

use vstd::prelude::*;
use vstd::string::*;
use crate::search;
use crate::search::SearchEngine;
use crate::text;

verus! {

/// `char::from_u32`: the character with the given number, if there is one. Numbers above
/// 0x10FFFF and those of surrogates have none.
pub assume_specification[ char::from_u32 ](i: u32) -> (out: Option<char>)
    ensures
        match out {
            Some(c) => c as int == i,
            None => i > 0x10FFFF || 0xD800 <= i <= 0xDFFF,
        },
;

// ---- 16-bit text ----

/// A character in units of sixteen bits: itself, or a pair of surrogates.
pub open spec fn units(c: char) -> Seq<u16> {
    let n = c as int;
    if n < 0x10000 {
        seq![n as u16]
    } else {
        seq![(0xD800 + (n - 0x10000) / 0x400) as u16, (0xDC00 + (n - 0x10000) % 0x400) as u16]
    }
}

/// A text in units of sixteen bits.
pub open spec fn utf16(s: Seq<char>) -> Seq<u16>
    decreases s.len(),
{
    if s.len() == 0 {
        seq![]
    } else {
        units(s[0]) + utf16(s.skip(1))
    }
}

/// The text that a row of units stands for; none where a surrogate stands alone.
pub open spec fn from_utf16(u: Seq<u16>) -> Option<Seq<char>>
    decreases u.len(),
{
    if u.len() == 0 {
        Some(seq![])
    } else if u[0] < 0xD800 || 0xDFFF < u[0] {
        match from_utf16(u.skip(1)) {
            Some(rest) => Some(seq![u[0] as char] + rest),
            None => None,
        }
    } else if u[0] < 0xDC00 && u.len() >= 2 && 0xDC00 <= u[1] <= 0xDFFF {
        match from_utf16(u.skip(2)) {
            Some(rest) => Some(
                seq![(0x10000 + (u[0] - 0xD800) * 0x400 + (u[1] - 0xDC00)) as char] + rest,
            ),
            None => None,
        }
    } else {
        None
    }
}

/// What stands before the first zero.
pub open spec fn before_zero(u: Seq<u16>) -> Seq<u16>
    decreases u.len(),
{
    if u.len() == 0 || u[0] == 0 {
        seq![]
    } else {
        seq![u[0]] + before_zero(u.skip(1))
    }
}

/// Bytes in pairs as units, the lower byte first; a single last byte is passed over.
pub open spec fn paired(b: Seq<u8>) -> Seq<u16> {
    Seq::new((b.len() / 2) as nat, |i: int| (b[2 * i] + 256 * b[2 * i + 1]) as u16)
}

fn push_units(out: &mut Vec<u16>, c: char)
    ensures
        final(out)@ == old(out)@ + units(c),
{
    if c <= '\u{ffff}' {
        out.push(c as u16);
        assert(out@ =~= old(out)@ + units(c));
    } else {
        let n: u32 = c as u32 - 0x10000;
        out.push((0xD800 + n / 0x400) as u16);
        out.push((0xDC00 + n % 0x400) as u16);
        assert(out@ =~= old(out)@ + units(c));
    }
}

/// A text in units of sixteen bits with a zero behind it.
pub fn to_utf16(s: &str) -> (out: Vec<u16>)
    ensures
        out@ == utf16(s@).push(0),
{
    let x: Vec<char> = text::chars_of(s);
    let mut out: Vec<u16> = Vec::new();
    assert(s@.skip(0) =~= s@);
    assert(out@ + utf16(s@) =~= utf16(s@));
    for i in 0..x.len()
        invariant
            x@ == s@,
            out@ + utf16(s@.skip(i as int)) == utf16(s@),
    {
        let ghost before = out@;
        let ghost rest = utf16(s@.skip(i + 1));
        assert(s@.skip(i as int).skip(1) =~= s@.skip(i + 1));
        push_units(&mut out, x[i]);
        assert(out@ + rest =~= before + (units(x@[i as int]) + rest));
    }
    assert(s@.skip(x@.len() as int) =~= Seq::empty());
    assert(out@ + utf16(Seq::empty()) =~= out@);
    out.push(0);
    out
}

/// The text that a value of the registry holds, given its bytes: what stands before the first
/// zero. It may be no text at all.
pub fn registry_text(bytes: &Vec<u8>) -> (out: Option<String>)
    ensures
        text::opt_view(out) == from_utf16(before_zero(paired(bytes@))),
{
    let n: usize = bytes.len() / 2;
    let ghost u = paired(bytes@);
    let mut units: Vec<u16> = Vec::new();
    let mut i: usize = 0;
    assert(u.skip(0) =~= u);
    assert(units@ + before_zero(u) =~= before_zero(u));
    while i < n
        invariant
            n == bytes.len() / 2,
            i <= n,
            u == paired(bytes@),
            units@ + before_zero(u.skip(i as int)) == before_zero(u),
        decreases n - i,
    {
        let unit: u16 = bytes[2 * i] as u16 + 256 * bytes[2 * i + 1] as u16;
        assert(u.skip(i as int)[0] == unit);
        if unit == 0 {
            assert(units@ + before_zero(u.skip(i as int)) =~= units@);
            return decode(&units);
        }
        let ghost before = units@;
        units.push(unit);
        i = i + 1;
        proof {
            assert(u.skip(i - 1).skip(1) =~= u.skip(i as int));
            assert(units@ + before_zero(u.skip(i as int)) =~= before + (seq![unit] + before_zero(
                u.skip(i as int),
            )));
        }
    }
    assert(u.skip(i as int) =~= Seq::empty());
    assert(units@ + before_zero(u.skip(i as int)) =~= units@);
    decode(&units)
}

fn decode(u: &Vec<u16>) -> (out: Option<String>)
    ensures
        text::opt_view(out) == from_utf16(u@),
{
    let mut out: String = String::new();
    let mut i: usize = 0;
    let ghost whole = from_utf16(u@);
    assert(u@.skip(0) =~= u@);
    while i < u.len()
        invariant
            i <= u@.len(),
            whole == from_utf16(u@),
            match from_utf16(u@.skip(i as int)) {
                Some(rest) => whole == Some(out@ + rest),
                None => whole is None,
            },
        decreases u@.len() - i,
    {
        let ghost tail = u@.skip(i as int);
        let ghost before = out@;
        let a: u16 = u[i];
        assert(tail[0] == a);
        if a < 0xD800 || 0xDFFF < a {
            assert(tail.skip(1) =~= u@.skip(i + 1));
            match char::from_u32(a as u32) {
                Some(c) => {
                    out.push(c);
                    proof {
                        if let Some(rest) = from_utf16(u@.skip(i + 1)) {
                            assert(out@ + rest =~= before + (seq![c] + rest));
                        }
                    }
                },
                None => {
                    return None;
                },
            }
            i = i + 1;
        } else if a < 0xDC00 && i + 1 < u.len() && 0xDC00 <= u[i + 1] && u[i + 1] <= 0xDFFF {
            assert(tail.skip(2) =~= u@.skip(i + 2));
            assert(tail[1] == u@[i + 1]);
            let n: u32 = 0x10000 + (a as u32 - 0xD800) * 0x400 + (u[i + 1] as u32 - 0xDC00);
            match char::from_u32(n) {
                Some(c) => {
                    out.push(c);
                    proof {
                        if let Some(rest) = from_utf16(u@.skip(i + 2)) {
                            assert(out@ + rest =~= before + (seq![c] + rest));
                        }
                    }
                },
                None => {
                    return None;
                },
            }
            i = i + 2;
        } else {
            proof {
                if tail.len() >= 2 {
                    assert(tail[1] == u@[i + 1]);
                }
            }
            return None;
        }
    }
    assert(u@.skip(i as int) =~= Seq::empty());
    assert(out@ + Seq::<char>::empty() =~= out@);
    Some(out)
}

/// A text without zeros is read back from its units as it was.
pub proof fn law_utf16_round_trip(s: Seq<char>)
    requires
        forall|i: int| 0 <= i < s.len() ==> s[i] != '\0',
    ensures
        from_utf16(utf16(s)) == Some(s),
        from_utf16(before_zero(utf16(s).push(0))) == Some(s),
{
    lemma_decode_utf16(s);
    lemma_before_zero(s);
}

proof fn lemma_decode_utf16(s: Seq<char>)
    ensures
        from_utf16(utf16(s)) == Some(s),
    decreases s.len(),
{
    if s.len() == 0 {
        assert(from_utf16(utf16(s)) == Some(s)) by {
            assert(s =~= seq![]);
        }
    } else {
        let c = s[0];
        let rest = s.skip(1);
        lemma_decode_utf16(rest);
        let u = utf16(s);
        lemma_units(c);
        assert(seq![c] + rest =~= s);
        if c as int <= 0xFFFF {
            assert(u.skip(1) =~= utf16(rest));
        } else {
            assert(u.skip(2) =~= utf16(rest));
        }
    }
}

proof fn lemma_units(c: char)
    ensures
        c as int <= 0xFFFF ==> units(c).len() == 1 && units(c)[0] as int == c as int && (
        units(c)[0] < 0xD800 || 0xDFFF < units(c)[0]),
        c as int > 0xFFFF ==> units(c).len() == 2 && 0xD800 <= units(c)[0] < 0xDC00 && 0xDC00
            <= units(c)[1] <= 0xDFFF && 0x10000 + (units(c)[0] - 0xD800) * 0x400 + (units(c)[1]
            - 0xDC00) == c as int,
        c != '\0' ==> units(c)[0] != 0,
{
}

proof fn lemma_before_zero(s: Seq<char>)
    requires
        forall|i: int| 0 <= i < s.len() ==> s[i] != '\0',
    ensures
        before_zero(utf16(s).push(0)) == utf16(s),
    decreases s.len(),
{
    if s.len() == 0 {
        assert(before_zero(utf16(s).push(0)) =~= utf16(s));
    } else {
        let c = s[0];
        let rest = s.skip(1);
        lemma_units(c);
        lemma_before_zero(rest);
        let u = utf16(s).push(0);
        let v = utf16(rest).push(0);
        if c as int <= 0xFFFF {
            assert(u.skip(1) =~= v);
            assert(before_zero(u) =~= utf16(s));
        } else {
            assert(u.skip(1).skip(1) =~= v);
            assert(before_zero(u.skip(1)) =~= seq![units(c)[1]] + utf16(rest));
            assert(before_zero(u) =~= utf16(s));
        }
    }
}

// ---- registering for links ----

/// A value to be written to the registry of the user.
pub struct RegistryWrite {
    pub subkey: &'static str,
    pub name: &'static str,
    pub value: String,
}

/// The command that opens a link with the program.
pub open spec fn open_command(exe: Seq<char>) -> Seq<char> {
    "\""@ + exe + "\" \"%1\""@
}

/// What is to be written so that links open with the program; nothing where its command is on
/// record already.
pub fn register_jello_protocol(exe: &str, current: Option<String>) -> (out: Vec<RegistryWrite>)
    ensures
        current matches Some(c) && c@ == open_command(exe@) ==> out@.len() == 0,
        !(current matches Some(c) && c@ == open_command(exe@)) ==> {
            &&& out@.len() == 3
            &&& out@[0].subkey@ == "Software\\Classes\\jello"@
            &&& out@[0].name@ == ""@
            &&& out@[0].value@ == "URL:Jello Protocol"@
            &&& out@[1].subkey@ == "Software\\Classes\\jello"@
            &&& out@[1].name@ == "URL Protocol"@
            &&& out@[1].value@ == ""@
            &&& out@[2].subkey@ == "Software\\Classes\\jello\\shell\\open\\command"@
            &&& out@[2].name@ == ""@
            &&& out@[2].value@ == open_command(exe@)
        },
{
    let command: String = text::concat3("\"", exe, "\" \"%1\"");
    let mut out: Vec<RegistryWrite> = Vec::new();
    if let Some(c) = current {
        if text::same(c.as_str(), command.as_str()) {
            return out;
        }
    }
    out.push(
        RegistryWrite {
            subkey: "Software\\Classes\\jello",
            name: "",
            value: "URL:Jello Protocol".to_owned(),
        },
    );
    out.push(
        RegistryWrite {
            subkey: "Software\\Classes\\jello",
            name: "URL Protocol",
            value: "".to_owned(),
        },
    );
    out.push(
        RegistryWrite {
            subkey: "Software\\Classes\\jello\\shell\\open\\command",
            name: "",
            value: command,
        },
    );
    out
}

// ---- opening what was handed over ----

/// What opening an argument asks for.
pub enum OpenPlan {
    /// Nothing was handed over.
    Nothing,
    /// One of the program's own views.
    View(String),
    /// An address on this machine, which the user has not allowed.
    Refused,
    /// The tab in front goes to the address.
    Navigate { tab_id: i32, url: String },
    /// A tab is made for the address.
    Create { url: String },
}

/// The names of the program's own views.
pub open spec fn is_view(s: Seq<char>) -> bool {
    s == "settings"@ || s == "history"@ || s == "bookmarks"@ || s == "downloads"@
}

/// An argument without white space at its ends and without the program's own scheme.
pub open spec fn bare_target(arg: Seq<char>) -> Seq<char> {
    let s = text::trimmed(arg);
    if text::begins(s, "jello://"@) {
        s.skip(8)
    } else {
        s
    }
}

/// The template that an argument is searched with where it is no address.
pub open spec fn link_template(setting: Option<Seq<char>>) -> Seq<char> {
    match setting {
        Some(s) => s,
        None => "https://duckduckgo.com/?q=%s"@,
    }
}

/// What opening an argument asks for. `file_setting` says whether addresses on this machine are
/// allowed, `search_setting` where to search; `active` is the tab in front.
pub fn handle_open_argument(
    arg: &str,
    file_setting: Option<String>,
    engines: &[SearchEngine],
    search_setting: Option<String>,
    active: Option<i32>,
) -> (out: OpenPlan)
    ensures
        ({
            let empty = text::trimmed(arg@).len() == 0;
            let target = bare_target(arg@);
            let refused = text::begins(target, "file://"@) && text::opt_view(file_setting) != Some(
                "true"@,
            );
            let address = search::address_for(
                target,
                engines@,
                link_template(text::opt_view(search_setting)),
            );
            match out {
                OpenPlan::Nothing => empty,
                OpenPlan::View(v) => !empty && is_view(target) && v@ == target,
                OpenPlan::Refused => !empty && !is_view(target) && refused,
                OpenPlan::Navigate { tab_id, url } => {
                    &&& !empty && !is_view(target) && !refused
                    &&& active == Some(tab_id)
                    &&& url@ == address
                },
                OpenPlan::Create { url } => {
                    &&& !empty && !is_view(target) && !refused
                    &&& active is None
                    &&& url@ == address
                },
            }
        }),
{
    let trimmed: String = text::trim(arg);
    if trimmed.as_str().is_empty() {
        return OpenPlan::Nothing;
    }
    proof {
        reveal_strlit("jello://");
    }
    let target: String = if text::starts_with(trimmed.as_str(), "jello://") {
        text::skip(trimmed.as_str(), 8)
    } else {
        trimmed
    };
    let t: &str = target.as_str();
    if text::same(t, "settings") || text::same(t, "history") || text::same(t, "bookmarks")
        || text::same(t, "downloads") {
        return OpenPlan::View(target);
    }
    if text::starts_with(t, "file://") {
        let allowed: bool = match file_setting {
            Some(v) => text::same(v.as_str(), "true"),
            None => false,
        };
        if !allowed {
            return OpenPlan::Refused;
        }
    }
    let template: String = match search_setting {
        Some(s) => s,
        None => "https://duckduckgo.com/?q=%s".to_owned(),
    };
    let url: String = search::resolve_input(t, engines, template.as_str());
    match active {
        Some(tab_id) => OpenPlan::Navigate { tab_id, url },
        None => OpenPlan::Create { url },
    }
}

// ---- what these amount to ----

proof fn lemma_before_first_zero(u: Seq<u16>, rest: Seq<u16>)
    ensures
        before_zero(u.push(0) + rest) == before_zero(u.push(0)),
    decreases u.len(),
{
    let a = u.push(0) + rest;
    if u.len() == 0 {
        assert(a[0] == 0);
        assert(before_zero(a) =~= before_zero(u.push(0)));
    } else {
        lemma_before_first_zero(u.skip(1), rest);
        assert(a.skip(1) =~= u.skip(1).push(0) + rest);
        assert(u.push(0).skip(1) =~= u.skip(1).push(0));
        assert(a[0] == u[0] && u.push(0)[0] == u[0]);
    }
}

/// A text without zeros that was put on record as bytes, the lower one of each unit first and a
/// zero behind it, is read from them again, whatever follows.
pub proof fn law_registry_text_read_back(s: Seq<char>, bytes: Seq<u8>)
    requires
        forall|i: int| 0 <= i < s.len() ==> s[i] != '\0',
        bytes.len() >= 2 * utf16(s).len() + 2,
        forall|i: int|
            0 <= i < utf16(s).len() ==> #[trigger] utf16(s)[i] == bytes[2 * i] + 256 * bytes[2 * i
                + 1],
        bytes[2 * utf16(s).len() as int] == 0,
        bytes[2 * utf16(s).len() + 1int] == 0,
    ensures
        from_utf16(before_zero(paired(bytes))) == Some(s),
{
    let u = utf16(s);
    let p = paired(bytes);
    let n = u.len() as int;
    assert forall|i: int| 0 <= i <= n implies #[trigger] p[i] == u.push(0)[i] by {
        if i < n {
            assert(u[i] == bytes[2 * i] + 256 * bytes[2 * i + 1]);
        }
    }
    assert(p =~= u.push(0) + p.skip(n + 1));
    lemma_before_first_zero(u, p.skip(n + 1));
    law_utf16_round_trip(s);
}

/// The command holds the program's path between quotation marks, and the link between others.
pub proof fn law_open_command(exe: Seq<char>)
    ensures
        open_command(exe).len() == exe.len() + 7,
        open_command(exe)[0] == '"',
        open_command(exe).subrange(1, exe.len() + 1int) == exe,
        open_command(exe).skip(exe.len() + 1int) == seq!['"', ' ', '"', '%', '1', '"'],
{
    reveal_strlit("\"");
    reveal_strlit("\" \"%1\"");
    assert(open_command(exe).subrange(1, exe.len() + 1int) =~= exe);
    assert(open_command(exe).skip(exe.len() + 1int) =~= seq!['"', ' ', '"', '%', '1', '"']);
}

/// The program's own scheme and the white space around an argument are taken off, and nothing else:
/// what is opened is the rest as it was handed over.
pub proof fn law_bare_target(pre: Seq<char>, target: Seq<char>, post: Seq<char>)
    requires
        text::all_white(pre),
        text::all_white(post),
        target.len() > 0,
        !text::is_white(target[0]),
        !text::is_white(target.last()),
    ensures
        bare_target(pre + ("jello://"@ + target) + post) == target,
        !text::begins(target, "jello://"@) ==> bare_target(pre + target + post) == target,
{
    reveal_strlit("jello://");
    let link = "jello://"@ + target;
    assert(link[0] == 'j');
    assert(link.last() == target.last());
    text::law_trimmed(pre, link, post);
    assert(link.subrange(0, 8) =~= "jello://"@);
    assert(link.skip(8) =~= target);
    text::law_trimmed(pre, target, post);
}

/// The program has four views of its own; no address is taken for one.
pub proof fn law_views(s: Seq<char>)
    ensures
        is_view("settings"@) && is_view("history"@) && is_view("bookmarks"@) && is_view(
            "downloads"@,
        ),
        is_view(s) ==> 7 <= s.len() <= 9 && forall|i: int|
            0 <= i < s.len() ==> 'a' <= #[trigger] s[i] <= 'z',
        is_view(s) ==> s[0] == 's' || s[0] == 'h' || s[0] == 'b' || s[0] == 'd',
{
    reveal_strlit("settings");
    reveal_strlit("history");
    reveal_strlit("bookmarks");
    reveal_strlit("downloads");
}

/// An argument is searched for where the user has set, whatever that is, else at DuckDuckGo.
pub proof fn law_link_template(setting: Seq<char>)
    ensures
        link_template(Some(setting)) == setting,
        link_template(None) == search::default_template(None),
{
}

} // verus!
