//! Browser extensions: where they come from, what they are called and which of them are loaded.

use vstd::prelude::*;
use vstd::string::*;
use sha2::{Digest, Sha256};
use crate::deeplink;
use crate::ipc_types::Extension;
use crate::json;
use crate::text;

verus! {

// ---- package files ----

/// Four bytes as a number, the lowest first.
pub open spec fn le32(b: Seq<u8>, i: int) -> int {
    b[i] + 256 * b[i + 1] + 65536 * b[i + 2] + 16777216 * b[i + 3]
}

/// The bytes `Cr24`, with which a package begins.
pub open spec fn has_magic(b: Seq<u8>) -> bool {
    b.len() >= 4 && b[0] == 0x43 && b[1] == 0x72 && b[2] == 0x32 && b[3] == 0x34
}

/// What is wrong with a package, if anything.
pub open spec fn package_fault(b: Seq<u8>) -> Option<Seq<char>> {
    if b.len() < 12 {
        Some("Invalid CRX file: too short"@)
    } else if !has_magic(b) {
        Some("Invalid CRX file: missing magic Cr24 header"@)
    } else if le32(b, 4) != 3 {
        Some("Unsupported CRX version: "@ + text::decimal(le32(b, 4) as nat))
    } else if b.len() < 12 + le32(b, 8) {
        Some("Invalid CRX file: truncated header"@)
    } else {
        None
    }
}

fn read_le32(b: &[u8], i: usize) -> (out: u32)
    requires
        i + 4 <= b@.len(),
        i < 100,
    ensures
        out == le32(b@, i as int),
{
    b[i] as u32 + 256 * b[i + 1] as u32 + 65536 * b[i + 2] as u32 + 16777216 * b[i + 3] as u32
}

fn starts_with_magic(b: &[u8]) -> (out: bool)
    ensures
        out == has_magic(b@),
{
    b.len() >= 4 && b[0] == 0x43 && b[1] == 0x72 && b[2] == 0x32 && b[3] == 0x34
}

/// The archive in a package: what stands behind the header.
pub fn strip_crx3_header(crx_bytes: &[u8]) -> (out: Result<Vec<u8>, String>)
    ensures
        match out {
            Ok(zip) => package_fault(crx_bytes@) is None && zip@ == crx_bytes@.skip(
                12 + le32(crx_bytes@, 8),
            ),
            Err(e) => package_fault(crx_bytes@) == Some(e@),
        },
{
    if crx_bytes.len() < 12 {
        return Err("Invalid CRX file: too short".to_owned());
    }
    if !starts_with_magic(crx_bytes) {
        return Err("Invalid CRX file: missing magic Cr24 header".to_owned());
    }
    let version: u32 = read_le32(crx_bytes, 4);
    if version != 3 {
        return Err(
            text::concat2("Unsupported CRX version: ", text::dec_u64(version as u64).as_str()),
        );
    }
    let header_len: u32 = read_le32(crx_bytes, 8);
    let start: u64 = 12 + header_len as u64;
    if (crx_bytes.len() as u64) < start {
        return Err("Invalid CRX file: truncated header".to_owned());
    }
    let from: usize = start as usize;
    let mut out: Vec<u8> = Vec::new();
    let ghost rest = crx_bytes@.skip(from as int);
    for i in from..crx_bytes.len()
        invariant
            from <= i <= crx_bytes@.len(),
            rest == crx_bytes@.skip(from as int),
            out@ == rest.take(i - from),
    {
        out.push(crx_bytes[i]);
        assert(rest.take(i - from + 1) =~= rest.take(i - from).push(crx_bytes@[i as int]));
    }
    assert(rest.take(crx_bytes@.len() - from) =~= rest);
    Ok(out)
}

/// The archive in a file that holds a package or is an archive itself.
pub fn archive_part(bytes: Vec<u8>) -> (out: Result<Vec<u8>, String>)
    ensures
        !has_magic(bytes@) ==> out == Ok::<Vec<u8>, String>(bytes),
        has_magic(bytes@) ==> match out {
            Ok(zip) => package_fault(bytes@) is None && zip@ == bytes@.skip(12 + le32(bytes@, 8)),
            Err(e) => package_fault(bytes@) == Some(e@),
        },
{
    if starts_with_magic(bytes.as_slice()) {
        strip_crx3_header(bytes.as_slice())
    } else {
        Ok(bytes)
    }
}

// ---- numbers of extensions ----

/// The number of an extension: 32 letters from `a` to `p`.
pub open spec fn is_id(s: Seq<char>) -> bool {
    s.len() == 32 && forall|i: int| 0 <= i < s.len() ==> 'a' <= #[trigger] s[i] <= 'p'
}

/// Whether a text is the number of an extension.
pub fn is_ext_id(s: &str) -> (out: bool)
    ensures
        out == is_id(s@),
{
    let x: Vec<char> = text::chars_of(s);
    if x.len() != 32 {
        return false;
    }
    for i in 0..x.len()
        invariant
            x@ == s@,
            forall|j: int| 0 <= j < i ==> 'a' <= #[trigger] s@[j] <= 'p',
    {
        if x[i] < 'a' || 'p' < x[i] {
            assert(!('a' <= s@[i as int] <= 'p'));
            return false;
        }
    }
    true
}

/// What stands before the query and the fragment of an address.
pub open spec fn path_part(s: Seq<char>) -> Seq<char>
    decreases s.len(),
{
    if s.len() == 0 || s[0] == '?' || s[0] == '#' {
        seq![]
    } else {
        seq![s[0]] + path_part(s.skip(1))
    }
}

/// A text with its ASCII letters small.
pub open spec fn small(s: Seq<char>) -> Seq<char> {
    s.map_values(|c: char| text::ascii_lower(c))
}

/// The first piece, from `i` on, that is the number of an extension but for the case of its
/// letters.
pub open spec fn id_piece(pieces: Seq<Seq<char>>, i: int) -> Option<Seq<char>>
    decreases pieces.len() - i,
{
    if i >= pieces.len() {
        None
    } else if is_id(small(pieces[i])) {
        Some(small(pieces[i]))
    } else {
        id_piece(pieces, i + 1)
    }
}

/// The number of the extension that an input stands for: the input itself or a part of the path
/// of the address that it is.
pub open spec fn id_in(input: Seq<char>) -> Option<Seq<char>> {
    let s = text::trimmed(input);
    if is_id(s) {
        Some(s)
    } else {
        id_piece(text::pieces(path_part(s), '/'), 0)
    }
}

fn take_path(s: &str) -> (out: String)
    ensures
        out@ == path_part(s@),
{
    let x: Vec<char> = text::chars_of(s);
    let mut out: String = String::new();
    assert(s@.skip(0) =~= s@);
    assert(out@ + path_part(s@) =~= path_part(s@));
    for i in 0..x.len()
        invariant
            x@ == s@,
            out@ + path_part(s@.skip(i as int)) == path_part(s@),
    {
        let ghost before = out@;
        let ghost rest = s@.skip(i as int);
        assert(rest[0] == x@[i as int]);
        if x[i] == '?' || x[i] == '#' {
            assert(out@ + path_part(rest) =~= out@);
            return out;
        }
        out.push(x[i]);
        assert(rest.skip(1) =~= s@.skip(i + 1));
        assert(out@ + path_part(s@.skip(i + 1)) =~= before + (seq![rest[0]] + path_part(
            s@.skip(i + 1),
        )));
    }
    assert(s@.skip(x@.len() as int) =~= Seq::empty());
    assert(out@ + path_part(s@.skip(x@.len() as int)) =~= out@);
    out
}

fn lower(s: &str) -> (out: String)
    ensures
        out@ == small(s@),
{
    let x: Vec<char> = text::chars_of(s);
    let mut out: String = String::new();
    for i in 0..x.len()
        invariant
            x@ == s@,
            out@ == small(s@).take(i as int),
    {
        out.push(text::lower_char(x[i]));
        assert(small(s@).take(i + 1) =~= small(s@).take(i as int).push(small(s@)[i as int]));
    }
    assert(small(s@).take(x@.len() as int) =~= small(s@));
    out
}

/// The number of the extension that an input stands for.
pub fn resolve_ext_id(crx_id_or_url: &str) -> (out: Result<String, String>)
    ensures
        match out {
            Ok(id) => id_in(crx_id_or_url@) == Some(id@),
            Err(e) => id_in(crx_id_or_url@) is None && e@
                == "Could not find a 32-character extension ID in that value or URL."@,
        },
{
    let trimmed: String = text::trim(crx_id_or_url);
    if is_ext_id(trimmed.as_str()) {
        return Ok(trimmed);
    }
    let path: String = take_path(trimmed.as_str());
    let parts: Vec<String> = text::split(path.as_str(), '/');
    let ghost v = text::pieces(path@, '/');
    for i in 0..parts.len()
        invariant
            v == text::views(parts@),
            id_in(crx_id_or_url@) == id_piece(v, i as int),
    {
        assert(v[i as int] == parts@[i as int]@);
        let id: String = lower(parts[i].as_str());
        if is_ext_id(id.as_str()) {
            return Ok(id);
        }
    }
    Err("Could not find a 32-character extension ID in that value or URL.".to_owned())
}

/// What is found is always the number of an extension.
pub proof fn law_found_id(input: Seq<char>)
    ensures
        id_in(input) matches Some(id) ==> is_id(id),
{
    let s = text::trimmed(input);
    if !is_id(s) {
        lemma_id_piece(text::pieces(path_part(s), '/'), 0);
    }
}

proof fn lemma_id_piece(pieces: Seq<Seq<char>>, i: int)
    ensures
        id_piece(pieces, i) matches Some(id) ==> is_id(id),
    decreases pieces.len() - i,
{
    if i < pieces.len() && !is_id(small(pieces[i])) {
        lemma_id_piece(pieces, i + 1);
    }
}

/// The SHA-256 digest of a row of bytes.
pub uninterp spec fn sha256(bytes: Seq<u8>) -> Seq<u8>;

/// `sha2::Sha256::digest`: the SHA-256 digest, which is 32 bytes long and depends on the bytes
/// alone.
#[verifier::external_body]
fn digest(bytes: &[u8]) -> (out: Vec<u8>)
    ensures
        out@ == sha256(bytes@),
        out@.len() == 32,
{
    Sha256::digest(bytes).to_vec()
}

/// Half a byte as a letter from `a` to `p`.
pub open spec fn half_letter(n: int) -> char {
    ('a' as int + n) as char
}

/// The first `n` bytes as letters, two for each.
pub open spec fn half_letters(hash: Seq<u8>, n: int) -> Seq<char>
    decreases n,
{
    if n <= 0 {
        seq![]
    } else {
        half_letters(hash, n - 1).push(half_letter(hash[n - 1] as int / 16)).push(
            half_letter(hash[n - 1] as int % 16),
        )
    }
}

/// The number of an extension that is made from the digest of the given bytes.
pub open spec fn id_from(bytes: Seq<u8>) -> Seq<char> {
    half_letters(sha256(bytes), 16)
}

/// The number of an extension in a digest.
pub fn digest_letters(hash: &Vec<u8>) -> (out: String)
    requires
        hash@.len() >= 16,
    ensures
        out@ == half_letters(hash@, 16),
        is_id(out@),
{
    let mut out: String = String::new();
    for i in 0..16
        invariant
            hash@.len() >= 16,
            out@ == half_letters(hash@, i as int),
            out@.len() == 2 * i,
            forall|j: int| 0 <= j < out@.len() ==> 'a' <= #[trigger] out@[j] <= 'p',
    {
        let b: u8 = hash[i];
        out.push((97u8 + b / 16) as char);
        out.push((97u8 + b % 16) as char);
    }
    out
}

/// The number of an extension that has none of its own, made from a name for it.
pub fn slug_id_from(seed: &str) -> (out: String)
    ensures
        out@ == id_from(vstd::utf8::encode_utf8(seed@)),
        is_id(out@),
{
    let hash: Vec<u8> = digest(seed.as_bytes());
    digest_letters(&hash)
}

/// Units of sixteen bits as bytes, the lower one first.
pub open spec fn unit_bytes(u: Seq<u16>) -> Seq<u8>
    decreases u.len(),
{
    if u.len() == 0 {
        seq![]
    } else {
        unit_bytes(u.drop_last()).push((u.last() as int % 256) as u8).push(
            (u.last() as int / 256) as u8,
        )
    }
}

/// The number under which an extension runs that is loaded from a directory, made from the path
/// of the directory.
pub fn chromium_unpacked_id(abs_path: &str) -> (out: String)
    ensures
        out@ == id_from(unit_bytes(deeplink::utf16(abs_path@))),
        is_id(out@),
{
    let u: Vec<u16> = deeplink::to_utf16(abs_path);
    let n: usize = u.len() - 1;
    let ghost path = deeplink::utf16(abs_path@);
    let mut bytes: Vec<u8> = Vec::new();
    assert(path.take(0) =~= Seq::empty());
    for i in 0..n
        invariant
            u@ == path.push(0),
            n == path.len(),
            bytes@ == unit_bytes(path.take(i as int)),
    {
        assert(path.take(i + 1).drop_last() =~= path.take(i as int));
        assert(u@[i as int] == path[i as int]);
        bytes.push((u[i] % 256) as u8);
        bytes.push((u[i] / 256) as u8);
    }
    assert(path.take(n as int) =~= path);
    let hash: Vec<u8> = digest(bytes.as_slice());
    digest_letters(&hash)
}

// ---- downloads ----

/// Where packages come from.
#[derive(Clone, Copy, PartialEq, Eq, Debug, Structural)]
pub enum Store {
    Google,
    Edge,
}

/// What an address begins with that a package is fetched from.
pub open spec fn store_prefix(store: Store) -> Seq<char> {
    match store {
        Store::Google => "https://clients2.google.com/service/update2/crx?response=redirect&acceptformat=crx2,crx3&prodversion=131.0.6778.86&x=id%3D"@,
        Store::Edge => "https://edge.microsoft.com/extensionwebstorebase/v1/crx?response=redirect&x=id%3D"@,
    }
}

/// The address that a package is fetched from.
pub fn crx_url(store: Store, ext_id: &str) -> (out: String)
    ensures
        out@ == store_prefix(store) + ext_id@ + "%26installsource%3Dondemand%26uc"@,
{
    let prefix: &str = match store {
        Store::Google => "https://clients2.google.com/service/update2/crx?response=redirect&acceptformat=crx2,crx3&prodversion=131.0.6778.86&x=id%3D",
        Store::Edge => "https://edge.microsoft.com/extensionwebstorebase/v1/crx?response=redirect&x=id%3D",
    };
    text::concat3(prefix, ext_id, "%26installsource%3Dondemand%26uc")
}

/// Whether an input is an address of the Edge store, which is then asked first.
pub fn prefers_edge(crx_id_or_url: &str) -> (out: bool)
    ensures
        out == text::has(crx_id_or_url@, "microsoftedge.microsoft.com"@),
{
    text::contains(crx_id_or_url, "microsoftedge.microsoft.com")
}

/// What a store answered: the bytes of a package, or why there are none.
pub fn check_download(ok: bool, status: &str, bytes: Vec<u8>) -> (out: Result<Vec<u8>, String>)
    ensures
        match out {
            Ok(b) => ok && bytes@.len() >= 16 && b == bytes,
            Err(e) => if !ok {
                e@ == "HTTP "@ + status@
            } else {
                bytes@.len() < 16 && e@ == "empty or truncated"@
            },
        },
{
    if !ok {
        Err(text::concat2("HTTP ", status))
    } else if bytes.len() < 16 {
        Err("empty or truncated".to_owned())
    } else {
        Ok(bytes)
    }
}

/// What to do after a store has answered.
pub enum Download {
    /// Ask the store next.
    Ask(Store),
    Done(Vec<u8>),
    Failed(String),
}

/// The store that is asked first.
pub open spec fn first_store(prefer_edge: bool) -> Store {
    if prefer_edge {
        Store::Edge
    } else {
        Store::Google
    }
}

/// The store that is asked where the first one has no package.
pub open spec fn second_store(prefer_edge: bool) -> Store {
    first_store(!prefer_edge)
}

/// The next move of a download, given what the stores asked so far have answered, the first one
/// first.
pub fn download_crx(
    prefer_edge: bool,
    first: Option<Result<Vec<u8>, String>>,
    second: Option<Result<Vec<u8>, String>>,
) -> (out: Download)
    ensures
        match (first, second) {
            (None, _) => out == Download::Ask(first_store(prefer_edge)),
            (Some(Ok(b)), _) => out == Download::Done(b),
            (Some(Err(_)), None) => out == Download::Ask(second_store(prefer_edge)),
            (Some(Err(_)), Some(Ok(b))) => out == Download::Done(b),
            (Some(Err(e1)), Some(Err(e2))) => out matches Download::Failed(why) && why@ == if prefer_edge {
                "Download failed (edge: "@ + e1@ + "; google: "@ + e2@ + ")"@
            } else {
                "Download failed (google: "@ + e1@ + "; edge: "@ + e2@ + ")"@
            },
        },
{
    match first {
        None => if prefer_edge {
            Download::Ask(Store::Edge)
        } else {
            Download::Ask(Store::Google)
        },
        Some(Ok(b)) => Download::Done(b),
        Some(Err(e1)) => match second {
            None => if prefer_edge {
                Download::Ask(Store::Google)
            } else {
                Download::Ask(Store::Edge)
            },
            Some(Ok(b)) => Download::Done(b),
            Some(Err(e2)) => {
                let (head, mid): (&str, &str) = if prefer_edge {
                    ("Download failed (edge: ", "; google: ")
                } else {
                    ("Download failed (google: ", "; edge: ")
                };
                let front: String = text::concat3(head, e1.as_str(), mid);
                Download::Failed(text::concat3(front.as_str(), e2.as_str(), ")"))
            },
        },
    }
}

/// The first row, from `i` on, whose name ends as wanted and that has an address.
pub open spec fn asset_from(
    rows: Seq<(Option<Seq<char>>, Option<Seq<char>>)>,
    i: int,
) -> Option<Seq<char>>
    decreases rows.len() - i,
{
    if i >= rows.len() {
        None
    } else {
        match rows[i] {
            (Some(name), Some(url)) if text::ends(name, ".chromium.zip"@) => Some(url),
            _ => asset_from(rows, i + 1),
        }
    }
}

/// The address of the archive among the files of a release, each with its name and its address.
pub fn chromium_asset(rows: &Vec<(Option<String>, Option<String>)>) -> (out: Option<String>)
    ensures
        text::opt_view(out) == asset_from(json::pair_views(rows@), 0),
{
    let ghost v = json::pair_views(rows@);
    for i in 0..rows.len()
        invariant
            v == json::pair_views(rows@),
            asset_from(v, 0) == asset_from(v, i as int),
    {
        assert(v[i as int] == (text::opt_view(rows@[i as int].0), text::opt_view(
            rows@[i as int].1,
        )));
        if let (Some(name), Some(url)) = (&rows[i].0, &rows[i].1) {
            if text::ends_with(name.as_str(), ".chromium.zip") {
                return Some(url.clone());
            }
        }
    }
    None
}

/// The address of the archive in the description of a release.
pub fn release_asset(body: &str) -> (out: Result<String, String>)
    ensures
        !json::is_json(body@) ==> (out matches Err(e) && e@ == "bad release json: "@
            + json::complaint(body@)),
        json::is_json(body@) ==> match json::table(
            body@,
            "assets"@,
            "name"@,
            "browser_download_url"@,
        ) {
            Some(rows) => match asset_from(rows, 0) {
                Some(url) => out matches Ok(u) && u@ == url,
                None => out matches Err(e) && e@ == "no uBO chromium.zip asset found"@,
            },
            None => false,
        },
{
    match json::read_table(body, "assets", "name", "browser_download_url") {
        Err(e) => Err(text::concat2("bad release json: ", e.as_str())),
        Ok(rows) => match chromium_asset(&rows) {
            Some(url) => Ok(url),
            None => Err("no uBO chromium.zip asset found".to_owned()),
        },
    }
}

// ---- names and pages ----

/// The key that a name stands for which is given in several languages: what stands between
/// `__MSG_` and `__`.
pub open spec fn message_key(raw: Seq<char>) -> Option<Seq<char>> {
    if text::begins(raw, "__MSG_"@) && text::ends(raw.skip(6), "__"@) {
        Some(raw.skip(6).take(raw.len() - 8))
    } else {
        None
    }
}

/// The key that a name stands for which is given in several languages.
pub fn localized_key(raw_name: &str) -> (out: Option<String>)
    ensures
        text::opt_view(out) == message_key(raw_name@),
{
    proof {
        reveal_strlit("__MSG_");
        reveal_strlit("__");
    }
    if !text::starts_with(raw_name, "__MSG_") {
        return None;
    }
    let rest: String = text::skip(raw_name, 6);
    if !text::ends_with(rest.as_str(), "__") {
        return None;
    }
    let n: usize = rest.as_str().unicode_len();
    Some(text::take(rest.as_str(), n - 2))
}

/// The first key, from `i` on, that differs from the given one at most in case.
pub open spec fn similar_key(keys: Seq<Seq<char>>, key: Seq<char>, i: int) -> Option<Seq<char>>
    decreases keys.len() - i,
{
    if i >= keys.len() {
        None
    } else if text::same_letters(keys[i], key) {
        Some(keys[i])
    } else {
        similar_key(keys, key, i + 1)
    }
}

/// The key under which a message is looked up: the given one where there is one, else one that
/// differs from it in case alone.
pub open spec fn chosen_key(keys: Seq<Seq<char>>, key: Seq<char>) -> Option<Seq<char>> {
    if keys.contains(key) {
        Some(key)
    } else {
        similar_key(keys, key, 0)
    }
}

/// The key under which a message is looked up.
pub fn choose_key(keys: &Vec<String>, key: &str) -> (out: Option<String>)
    ensures
        text::opt_view(out) == chosen_key(text::views(keys@), key@),
{
    if text::lists(keys, key) {
        return Some(key.to_owned());
    }
    let ghost v = text::views(keys@);
    for i in 0..keys.len()
        invariant
            v == text::views(keys@),
            !v.contains(key@),
            similar_key(v, key@, 0) == similar_key(v, key@, i as int),
    {
        assert(v[i as int] == keys@[i as int]@);
        if text::eq_ignore_ascii_case(keys[i].as_str(), key) {
            return Some(keys[i].clone());
        }
    }
    None
}

/// The message for a key in a file of messages.
pub fn localized_message(messages: &str, key: &str) -> (out: Option<String>)
    ensures
        text::opt_view(out) == match json::keys(messages@) {
            Some(keys) => match chosen_key(keys, key@) {
                Some(k) => json::inner_member(messages@, k, "message"@),
                None => None,
            },
            None => None,
        },
{
    match json::read_keys(messages) {
        Some(keys) => match choose_key(&keys, key) {
            Some(k) => json::read_inner_member(messages, k.as_str(), "message"),
            None => None,
        },
        None => None,
    }
}

/// The name that an extension is shown under: its own, or the message that stands for it, or its
/// number where there is no such message.
pub fn display_name(raw_name: &str, message: Option<String>, ext_id: &str) -> (out: String)
    ensures
        out@ == if text::begins(raw_name@, "__MSG_"@) {
            match text::opt_view(message) {
                Some(m) => m,
                None => ext_id@,
            }
        } else {
            raw_name@
        },
{
    if text::starts_with(raw_name, "__MSG_") {
        match message {
            Some(m) => m,
            None => ext_id.to_owned(),
        }
    } else {
        raw_name.to_owned()
    }
}

/// The page of settings that an extension names in its manifest, if any.
pub open spec fn options_page(manifest: Seq<char>) -> Option<Seq<char>> {
    match json::member(manifest, "options_page"@) {
        Some(page) => Some(page),
        None => json::inner_member(manifest, "options_ui"@, "page"@),
    }
}

/// The page of settings that an extension names in its manifest, if any.
pub fn read_options_page(manifest: &str) -> (out: Option<String>)
    ensures
        text::opt_view(out) == options_page(manifest@),
{
    match json::read_member(manifest, "options_page") {
        Some(page) => Some(page),
        None => json::read_inner_member(manifest, "options_ui", "page"),
    }
}

/// The address of a page of an extension.
pub open spec fn extension_address(runtime_id: Seq<char>, page: Seq<char>) -> Seq<char> {
    "chrome-extension://"@ + runtime_id + "/"@ + text::strip_front(page, '/')
}

/// The address of a page of an extension.
pub fn extension_url(runtime_id: &str, page: &str) -> (out: String)
    ensures
        out@ == extension_address(runtime_id@, page@),
{
    let front: String = text::concat3("chrome-extension://", runtime_id, "/");
    let rest: String = text::trim_start_matches(page, '/');
    text::concat2(front.as_str(), rest.as_str())
}

/// The first `k` characters of a text take up `n` bytes in UTF-8.
pub open spec fn ends_at_byte(s: Seq<char>, k: int, n: int) -> bool {
    0 <= k <= s.len() && vstd::utf8::encode_utf8(s.take(k)).len() == n
}

/// The bytes of a text with one more character are those of the text and of the character.
proof fn lemma_bytes_push(s: Seq<char>, c: char)
    ensures
        vstd::utf8::encode_utf8(s.push(c)) == vstd::utf8::encode_utf8(s)
            + vstd::utf8::encode_scalar(c as u32),
    decreases s.len(),
{
    let all = s.push(c);
    let bytes = vstd::utf8::encode_scalar(c as u32);
    if s.len() == 0 {
        assert(all.drop_first() =~= Seq::<char>::empty());
        assert(vstd::utf8::encode_utf8(all.drop_first()) =~= Seq::<u8>::empty());
        assert(vstd::utf8::encode_utf8(all) =~= bytes);
        assert(vstd::utf8::encode_utf8(s) + bytes =~= bytes);
    } else {
        lemma_bytes_push(s.drop_first(), c);
        assert(all.drop_first() =~= s.drop_first().push(c));
        assert(vstd::utf8::encode_utf8(all) =~= vstd::utf8::encode_utf8(s) + bytes);
    }
}

/// A longer front of a text takes up more bytes.
proof fn lemma_bytes_grow(s: Seq<char>, i: int, k: int)
    requires
        0 <= i < k <= s.len(),
    ensures
        vstd::utf8::encode_utf8(s.take(i)).len() < vstd::utf8::encode_utf8(s.take(k)).len(),
    decreases k - i,
{
    assert(s.take(k) =~= s.take(k - 1).push(s[k - 1]));
    lemma_bytes_push(s.take(k - 1), s[k - 1]);
    if i < k - 1 {
        lemma_bytes_grow(s, i, k - 1);
    }
}

/// No two fronts of a text take up the same number of bytes.
pub proof fn law_one_front(s: Seq<char>, i: int, k: int, n: int)
    requires
        ends_at_byte(s, i, n),
        ends_at_byte(s, k, n),
    ensures
        i == k,
{
    if i < k {
        lemma_bytes_grow(s, i, k);
    } else if k < i {
        lemma_bytes_grow(s, k, i);
    }
}

/// How many bytes a character takes up in UTF-8.
fn byte_width(c: char) -> (out: usize)
    ensures
        out == vstd::utf8::encode_scalar(c as u32).len(),
        out >= 1,
{
    let n: u32 = c as u32;
    if n <= 0x7F {
        1
    } else if n <= 0x7FF {
        2
    } else if n <= 0xFFFF {
        3
    } else {
        4
    }
}

/// The name of the window that shows the settings of an extension: by the first eight bytes of
/// its number.
pub fn options_label(runtime_id: &str) -> (out: String)
    requires
        exists|k: int| ends_at_byte(runtime_id@, k, 8),
    ensures
        exists|k: int| #[trigger]
            ends_at_byte(runtime_id@, k, 8) && out@ == "ext_"@ + runtime_id@.take(k),
{
    let ghost s = runtime_id@;
    let ghost k = choose|k: int| ends_at_byte(s, k, 8);
    let x: Vec<char> = text::chars_of(runtime_id);
    let mut i: usize = 0;
    let mut count: usize = 0;
    assert(s.take(0) =~= Seq::<char>::empty());
    while count != 8
        invariant
            s == runtime_id@,
            x@ == s,
            ends_at_byte(s, k, 8),
            i <= k,
            count == vstd::utf8::encode_utf8(s.take(i as int)).len(),
            count <= 8,
        decreases k - i,
    {
        proof {
            if i < k {
                assert(s.take(i + 1) =~= s.take(i as int).push(s[i as int]));
                lemma_bytes_push(s.take(i as int), s[i as int]);
                if i + 1 < k {
                    lemma_bytes_grow(s, i + 1, k);
                }
            }
        }
        assert(i < x.len());
        count = count + byte_width(x[i]);
        i = i + 1;
    }
    let head: String = text::take(runtime_id, i);
    assert(ends_at_byte(s, i as int, 8));
    text::concat2("ext_", head.as_str())
}

/// Whether a window shows a page of the extension already.
pub fn shows_extension(url: &str, runtime_id: &str) -> (out: bool)
    ensures
        out == text::begins(url@, "chrome-extension://"@ + runtime_id@ + "/"@),
{
    let prefix: String = text::concat3("chrome-extension://", runtime_id, "/");
    text::starts_with(url, prefix.as_str())
}

/// The permissions of an extension as they are listed for the user.
pub open spec fn permission_list(perms: Seq<Seq<char>>) -> Seq<char> {
    if perms.len() == 0 {
        "None"@
    } else {
        "\n- "@ + text::joined(perms, "\n- "@)
    }
}

/// What the user is asked before an extension is installed.
pub fn consent_message(name: &str, version: &str, perms: &Vec<String>) -> (out: String)
    ensures
        out@ == "Do you want to install '"@ + name@ + "' ("@ + version@
            + ")?\n\nIt requires the following permissions:"@ + permission_list(
            text::views(perms@),
        ),
{
    let list: String = if perms.len() == 0 {
        "None".to_owned()
    } else {
        let all: String = text::join(perms, "\n- ");
        text::concat2("\n- ", all.as_str())
    };
    let mut out: String = text::concat3("Do you want to install '", name, "' (");
    out.append(version);
    out.append(")?\n\nIt requires the following permissions:");
    out.append(list.as_str());
    out
}

/// The name from which the number of an extension is made that comes from a file.
pub fn file_seed(name: &str, version: &str) -> (out: String)
    ensures
        out@ == name@ + "::"@ + version@,
{
    text::concat3(name, "::", version)
}

/// Whether the one directory in an unpacked archive is to be taken away, so that its contents
/// stand in its place: there is no manifest, nothing else beside the directory, and a manifest in
/// it.
pub fn flatten_single_root(
    has_manifest: bool,
    count: usize,
    is_dir: bool,
    inner_manifest: bool,
) -> (out: bool)
    ensures
        out == (!has_manifest && count == 1 && is_dir && inner_manifest),
{
    !has_manifest && count == 1 && is_dir && inner_manifest
}

// ---- what is loaded ----

/// What is known of the extensions while the program runs.
pub struct ExtensionCaches {
    /// Those that are switched on.
    pub enabled: Vec<Extension>,
    /// The numbers of those that have been loaded, or are being loaded.
    pub loaded: Vec<String>,
    /// The number of an extension and the one under which it runs.
    pub runtime: Vec<(String, String)>,
}

/// The extensions that are switched on, in their order.
pub open spec fn switched_on(exts: Seq<Extension>) -> Seq<Extension> {
    exts.filter(|e: Extension| e.enabled)
}

/// The extensions that are switched on.
pub fn enabled_only(exts: &Vec<Extension>) -> (out: Vec<Extension>)
    ensures
        out@ == switched_on(exts@),
{
    let mut out: Vec<Extension> = Vec::new();
    assert(switched_on(exts@.take(0)) =~= Seq::empty()) by {
        reveal(Seq::filter);
    }
    for i in 0..exts.len()
        invariant
            out@ == switched_on(exts@.take(i as int)),
    {
        proof {
            reveal(Seq::filter);
            assert(exts@.take(i + 1).drop_last() =~= exts@.take(i as int));
        }
        if exts[i].enabled {
            out.push(exts[i].copy());
        }
    }
    assert(exts@.take(exts@.len() as int) =~= exts@);
    out
}

/// The number under which an extension runs: that of the first pair, from `i` on, with its own.
pub open spec fn runs_under(pairs: Seq<(String, String)>, id: Seq<char>, i: int) -> Option<int>
    decreases pairs.len() - i,
{
    if i >= pairs.len() {
        None
    } else if pairs[i].0@ == id {
        Some(i)
    } else {
        runs_under(pairs, id, i + 1)
    }
}

fn find_pair(pairs: &Vec<(String, String)>, id: &str) -> (out: Option<usize>)
    ensures
        match out {
            Some(i) => i < pairs@.len() && runs_under(pairs@, id@, 0) == Some(i as int),
            None => runs_under(pairs@, id@, 0) is None,
        },
{
    for i in 0..pairs.len()
        invariant
            runs_under(pairs@, id@, 0) == runs_under(pairs@, id@, i as int),
    {
        if text::same(pairs[i].0.as_str(), id) {
            return Some(i);
        }
    }
    None
}

impl ExtensionCaches {
    /// Nothing is known yet.
    pub fn new() -> (out: Self)
        ensures
            out.enabled@.len() == 0,
            out.loaded@.len() == 0,
            out.runtime@.len() == 0,
    {
        ExtensionCaches { enabled: Vec::new(), loaded: Vec::new(), runtime: Vec::new() }
    }
}

/// Notes which extensions are switched on.
pub fn set_enabled_cache(caches: &mut ExtensionCaches, exts: Vec<Extension>)
    ensures
        final(caches).enabled == exts,
        final(caches).loaded == old(caches).loaded,
        final(caches).runtime == old(caches).runtime,
{
    caches.enabled = exts;
}

/// The number under which an extension runs, once it has been loaded.
pub fn runtime_id_for(caches: &ExtensionCaches, store_id: &str) -> (out: Option<String>)
    ensures
        out == match runs_under(caches.runtime@, store_id@, 0) {
            Some(i) => Some(caches.runtime@[i].1),
            None => None,
        },
{
    match find_pair(&caches.runtime, store_id) {
        Some(i) => Some(caches.runtime[i].1.clone()),
        None => None,
    }
}

/// Notes the number under which an extension runs; an empty one is no number.
pub fn note_runtime_id(caches: &mut ExtensionCaches, store_id: String, runtime_id: String)
    ensures
        final(caches).enabled == old(caches).enabled,
        final(caches).loaded == old(caches).loaded,
        final(caches).runtime@ == if runtime_id@.len() == 0 {
            old(caches).runtime@
        } else {
            match runs_under(old(caches).runtime@, store_id@, 0) {
                Some(i) => old(caches).runtime@.update(
                    i,
                    (old(caches).runtime@[i].0, runtime_id),
                ),
                None => old(caches).runtime@.push((store_id, runtime_id)),
            }
        },
{
    if runtime_id.as_str().is_empty() {
        return;
    }
    match find_pair(&caches.runtime, store_id.as_str()) {
        Some(i) => {
            caches.runtime[i].1 = runtime_id;
        },
        None => {
            caches.runtime.push((store_id, runtime_id));
        },
    }
}

/// After noting the number under which an extension runs, looking it up gives that number.
pub proof fn law_runtime_id_read_back(
    pairs: Seq<(String, String)>,
    store_id: String,
    runtime_id: String,
)
    ensures
        match runs_under(pairs, store_id@, 0) {
            Some(i) => {
                let after = pairs.update(i, (pairs[i].0, runtime_id));
                runs_under(after, store_id@, 0) == Some(i) && after[i].1 == runtime_id
            },
            None => {
                let after = pairs.push((store_id, runtime_id));
                runs_under(after, store_id@, 0) == Some(pairs.len() as int) && after[pairs.len()
                    as int].1 == runtime_id
            },
        },
{
    lemma_runs_under(pairs, store_id@, 0);
    match runs_under(pairs, store_id@, 0) {
        Some(i) => {
            let after = pairs.update(i, (pairs[i].0, runtime_id));
            lemma_runs_under_at(after, store_id@, 0, i);
        },
        None => {
            let after = pairs.push((store_id, runtime_id));
            lemma_runs_under_at(after, store_id@, 0, pairs.len() as int);
        },
    }
}

proof fn lemma_runs_under(pairs: Seq<(String, String)>, id: Seq<char>, i: int)
    requires
        0 <= i <= pairs.len(),
    ensures
        match runs_under(pairs, id, i) {
            Some(k) => i <= k < pairs.len() && pairs[k].0@ == id && forall|j: int|
                i <= j < k ==> (#[trigger] pairs[j]).0@ != id,
            None => forall|j: int| i <= j < pairs.len() ==> (#[trigger] pairs[j]).0@ != id,
        },
    decreases pairs.len() - i,
{
    if i < pairs.len() && pairs[i].0@ != id {
        lemma_runs_under(pairs, id, i + 1);
    }
}

proof fn lemma_runs_under_at(pairs: Seq<(String, String)>, id: Seq<char>, i: int, k: int)
    requires
        0 <= i <= k < pairs.len(),
        pairs[k].0@ == id,
        forall|j: int| i <= j < k ==> (#[trigger] pairs[j]).0@ != id,
    ensures
        runs_under(pairs, id, i) == Some(k),
    decreases k - i,
{
    if i < k {
        lemma_runs_under_at(pairs, id, i + 1, k);
    }
}

/// The numbers, of the first `n` extensions that are switched on, that are to be loaded: those
/// that have not been loaded, each once, and whose files are in place.
pub open spec fn to_load(
    enabled: Seq<Extension>,
    n: int,
    loaded: Seq<Seq<char>>,
    present: Seq<Seq<char>>,
) -> Seq<Seq<char>>
    decreases n,
{
    if n <= 0 {
        seq![]
    } else {
        let front = to_load(enabled, n - 1, loaded, present);
        let id = enabled[n - 1].id@;
        if !loaded.contains(id) && !front.contains(id) && present.contains(id) {
            front.push(id)
        } else {
            front
        }
    }
}

/// The extensions that are to be loaded into a page now, which then count as loaded. `present`
/// are those whose files are in place.
pub fn load_all_enabled(caches: &mut ExtensionCaches, present: &Vec<String>) -> (out: Vec<String>)
    ensures
        text::views(out@) == to_load(
            old(caches).enabled@,
            old(caches).enabled@.len() as int,
            text::views(old(caches).loaded@),
            text::views(present@),
        ),
        final(caches).loaded@ == old(caches).loaded@ + out@,
        final(caches).enabled == old(caches).enabled,
        final(caches).runtime == old(caches).runtime,
{
    let mut out: Vec<String> = Vec::new();
    let ghost loaded = text::views(caches.loaded@);
    let ghost there = text::views(present@);
    assert(text::views(out@) =~= to_load(caches.enabled@, 0, loaded, there));
    for i in 0..caches.enabled.len()
        invariant
            loaded == text::views(caches.loaded@),
            there == text::views(present@),
            caches.loaded == old(caches).loaded,
            caches.enabled == old(caches).enabled,
            caches.runtime == old(caches).runtime,
            text::views(out@) == to_load(caches.enabled@, i as int, loaded, there),
    {
        let id: String = caches.enabled[i].id.clone();
        if !text::lists(&caches.loaded, id.as_str()) && !text::lists(
            &out,
            id.as_str(),
        ) && text::lists(present, id.as_str()) {
            assert(text::views(out@.push(id)) =~= text::views(out@).push(id@));
            out.push(id);
        }
    }
    let ghost before = caches.loaded@;
    for i in 0..out.len()
        invariant
            caches.loaded@ == before + out@.take(i as int),
            caches.enabled == old(caches).enabled,
            caches.runtime == old(caches).runtime,
    {
        caches.loaded.push(out[i].clone());
        assert(out@.take(i + 1) =~= out@.take(i as int).push(out@[i as int]));
        assert(caches.loaded@ =~= before + out@.take(i + 1));
    }
    assert(out@.take(out@.len() as int) =~= out@);
    out
}

/// The strings of a list that are not the given one.
pub open spec fn not_named(v: Seq<String>, id: Seq<char>) -> Seq<String> {
    v.filter(|s: String| s@ != id)
}

/// Notes that an extension could not be loaded after all.
pub fn load_failed(caches: &mut ExtensionCaches, store_id: &str)
    ensures
        final(caches).loaded@ == not_named(old(caches).loaded@, store_id@),
        final(caches).enabled == old(caches).enabled,
        final(caches).runtime == old(caches).runtime,
{
    let mut kept: Vec<String> = Vec::new();
    assert(not_named(caches.loaded@.take(0), store_id@) =~= Seq::empty()) by {
        reveal(Seq::filter);
    }
    for i in 0..caches.loaded.len()
        invariant
            kept@ == not_named(caches.loaded@.take(i as int), store_id@),
    {
        proof {
            reveal(Seq::filter);
            assert(caches.loaded@.take(i + 1).drop_last() =~= caches.loaded@.take(i as int));
        }
        if !text::same(caches.loaded[i].as_str(), store_id) {
            kept.push(caches.loaded[i].clone());
        }
    }
    assert(caches.loaded@.take(caches.loaded@.len() as int) =~= caches.loaded@);
    caches.loaded = kept;
}

/// No extension is loaded twice: what is to be loaded has not been loaded, and is named once.
pub proof fn law_loaded_once(
    enabled: Seq<Extension>,
    n: int,
    loaded: Seq<Seq<char>>,
    present: Seq<Seq<char>>,
)
    ensures
        to_load(enabled, n, loaded, present).no_duplicates(),
        forall|i: int|
            0 <= i < to_load(enabled, n, loaded, present).len() ==> !loaded.contains(
                #[trigger] to_load(enabled, n, loaded, present)[i],
            ),
    decreases n,
{
    if n > 0 {
        law_loaded_once(enabled, n - 1, loaded, present);
        let front = to_load(enabled, n - 1, loaded, present);
        let all = to_load(enabled, n, loaded, present);
        if all.len() > front.len() {
            assert forall|a: int, b: int| 0 <= a < b < all.len() implies all[a] != all[b] by {
                assert(front.contains(all[a])) by {
                    assert(front[a] == all[a]);
                }
            }
        }
    }
}

/// Every extension that is switched on and whose files are in place is loaded already or is to be
/// loaded now.
pub proof fn law_none_left_out(
    enabled: Seq<Extension>,
    n: int,
    loaded: Seq<Seq<char>>,
    present: Seq<Seq<char>>,
)
    ensures
        forall|i: int|
            0 <= i < n && present.contains((#[trigger] enabled[i]).id@) ==> loaded.contains(
                enabled[i].id@,
            ) || to_load(enabled, n, loaded, present).contains(enabled[i].id@),
    decreases n,
{
    if n > 0 {
        law_none_left_out(enabled, n - 1, loaded, present);
        let front = to_load(enabled, n - 1, loaded, present);
        let all = to_load(enabled, n, loaded, present);
        assert forall|i: int|
            0 <= i < n && present.contains((#[trigger] enabled[i]).id@) && !loaded.contains(
                enabled[i].id@,
            ) implies all.contains(enabled[i].id@) by {
            if front.contains(enabled[i].id@) {
                let k = front.index_of(enabled[i].id@);
                assert(all[k] == front[k]);
            } else {
                assert(i == n - 1);
                assert(all[all.len() - 1] == enabled[i].id@);
            }
        }
    }
}

// ---- blockers ----

/// The numbers of blockers that are of no use beside the full one.
pub open spec fn is_redundant(id: Seq<char>) -> bool {
    id == "ddkjiahejlhfcafbddmgiahcphecmpfh"@ || id == "bgnkhhnnamicmpeenaelnjfhikgbkllg"@
}

/// Whether the full blocker is switched on.
pub open spec fn full_blocker(exts: Seq<Extension>) -> bool {
    exists|i: int|
        0 <= i < exts.len() && (#[trigger] exts[i]).enabled && exts[i].name@ == "uBlock Origin"@
}

/// The extensions that are switched on and of no use beside the full blocker, in their order.
pub open spec fn redundant(exts: Seq<Extension>) -> Seq<Extension> {
    exts.filter(|e: Extension| e.enabled && is_redundant(e.id@))
}

/// The extensions that are to be switched off, so that no page is filtered twice.
pub fn dedupe_ad_blockers(exts: &Vec<Extension>) -> (out: Vec<Extension>)
    ensures
        out@ == if full_blocker(exts@) {
            redundant(exts@)
        } else {
            Seq::<Extension>::empty()
        },
{
    let mut full: bool = false;
    for i in 0..exts.len()
        invariant
            full == exists|j: int|
                0 <= j < i && (#[trigger] exts@[j]).enabled && exts@[j].name@ == "uBlock Origin"@,
    {
        if exts[i].enabled && text::same(exts[i].name.as_str(), "uBlock Origin") {
            assert(exts@[i as int].enabled);
            full = true;
        }
    }
    let mut out: Vec<Extension> = Vec::new();
    if !full {
        return out;
    }
    assert(redundant(exts@.take(0)) =~= Seq::empty()) by {
        reveal(Seq::filter);
    }
    for i in 0..exts.len()
        invariant
            out@ == redundant(exts@.take(i as int)),
    {
        proof {
            reveal(Seq::filter);
            assert(exts@.take(i + 1).drop_last() =~= exts@.take(i as int));
        }
        let id: &str = exts[i].id.as_str();
        if exts[i].enabled && (text::same(id, "ddkjiahejlhfcafbddmgiahcphecmpfh") || text::same(
            id,
            "bgnkhhnnamicmpeenaelnjfhikgbkllg",
        )) {
            out.push(exts[i].copy());
        }
    }
    assert(exts@.take(exts@.len() as int) =~= exts@);
    out
}

// ---- what these amount to ----

/// A package with any header and any archive in it is in order, and what stands behind the header
/// is the archive.
pub proof fn law_package_opened(
    length: (u8, u8, u8, u8),
    header: Seq<u8>,
    archive: Seq<u8>,
)
    requires
        header.len() == length.0 + 256 * length.1 + 65536 * length.2 + 16777216 * length.3,
    ensures
        ({
            let b = seq![
                0x43u8,
                0x72,
                0x32,
                0x34,
                3,
                0,
                0,
                0,
                length.0,
                length.1,
                length.2,
                length.3,
            ] + header + archive;
            &&& has_magic(b)
            &&& package_fault(b) is None
            &&& b.skip(12 + le32(b, 8)) == archive
        }),
{
    let head = seq![
        0x43u8,
        0x72,
        0x32,
        0x34,
        3,
        0,
        0,
        0,
        length.0,
        length.1,
        length.2,
        length.3,
    ];
    let b = head + header + archive;
    assert(forall|i: int| 0 <= i < 12 ==> b[i] == head[i]);
    assert(b[0] == head[0] && b[1] == head[1] && b[2] == head[2] && b[3] == head[3]);
    assert(b[4] == head[4] && b[5] == head[5] && b[6] == head[6] && b[7] == head[7]);
    assert(b[8] == head[8] && b[9] == head[9] && b[10] == head[10] && b[11] == head[11]);
    assert(le32(b, 8) == header.len());
    assert(b.skip(12int + header.len()) =~= archive);
}

/// A file that is too short, does not begin as a package does, has another version or ends within
/// its header is refused.
pub proof fn law_package_refused(b: Seq<u8>)
    ensures
        b.len() < 12 ==> package_fault(b) is Some,
        b.len() >= 12 && (b[0] != 0x43 || b[1] != 0x72 || b[2] != 0x32 || b[3] != 0x34)
            ==> package_fault(b) is Some && !has_magic(b),
        b.len() >= 12 && (b[4] != 3 || b[5] != 0 || b[6] != 0 || b[7] != 0) ==> package_fault(
            b,
        ) is Some,
        12 <= b.len() < 12 + b[8] + 256 * b[9] + 65536 * b[10] + 16777216 * b[11] ==> package_fault(
            b,
        ) is Some,
{
}

/// A text that is the number of an extension but for the case of its letters.
pub open spec fn is_id_in_any_case(s: Seq<char>) -> bool {
    s.len() == 32 && forall|i: int|
        0 <= i < s.len() ==> 'a' <= #[trigger] s[i] <= 'p' || 'A' <= s[i] <= 'P'
}

proof fn lemma_small_id(s: Seq<char>)
    ensures
        is_id(small(s)) <==> is_id_in_any_case(s),
        is_id(s) ==> small(s) == s,
{
    let t = small(s);
    assert forall|i: int| 0 <= i < s.len() implies #[trigger] t[i] == text::ascii_lower(s[i]) by {}
    if is_id(t) {
        assert forall|i: int| 0 <= i < s.len() implies 'a' <= #[trigger] s[i] <= 'p' || 'A' <= s[i]
            <= 'P' by {
            assert('a' <= t[i] <= 'p');
        }
    }
    if is_id_in_any_case(s) {
        assert forall|i: int| 0 <= i < t.len() implies 'a' <= #[trigger] t[i] <= 'p' by {
            assert(t[i] == text::ascii_lower(s[i]));
            assert('a' <= s[i] <= 'p' || 'A' <= s[i] <= 'P');
        }
    }
    if is_id(s) {
        assert(t =~= s) by {
            assert forall|i: int| 0 <= i < s.len() implies t[i] == s[i] by {
                assert('a' <= s[i] <= 'p');
            }
        }
    }
}

proof fn lemma_path_part(a: Seq<char>, tail: Seq<char>)
    requires
        !a.contains('?'),
        !a.contains('#'),
        tail.len() == 0 || tail[0] == '?' || tail[0] == '#',
    ensures
        path_part(a + tail) == a,
    decreases a.len(),
{
    let s = a + tail;
    if a.len() == 0 {
        assert(s =~= tail);
        assert(path_part(s) =~= a);
    } else {
        let rest = a.skip(1);
        assert(!rest.contains('?') && !rest.contains('#')) by {
            assert forall|j: int| 0 <= j < rest.len() implies rest[j] != '?' && rest[j] != '#' by {
                assert(rest[j] == a[j + 1]);
            }
        }
        lemma_path_part(rest, tail);
        assert(s.skip(1) =~= rest + tail);
        assert(s[0] == a[0]);
        assert(a[0] != '?' && a[0] != '#');
        assert(seq![a[0]] + rest =~= a);
    }
}

proof fn lemma_id_piece_found(pieces: Seq<Seq<char>>, from: int, i: int)
    requires
        0 <= from <= i <= pieces.len(),
        forall|j: int| from <= j < i ==> !is_id_in_any_case(#[trigger] pieces[j]),
        i < pieces.len() ==> is_id_in_any_case(pieces[i]),
    ensures
        id_piece(pieces, from) == if i < pieces.len() {
            Some(small(pieces[i]))
        } else {
            None
        },
    decreases i - from,
{
    if from < i {
        lemma_small_id(pieces[from]);
        lemma_id_piece_found(pieces, from + 1, i);
    } else if i < pieces.len() {
        lemma_small_id(pieces[i]);
    }
}

/// In an address the number of an extension is found in whichever part of the path it stands,
/// whatever stands in the query, with its letters made small; the first one where there are
/// several, and nothing where there is none.
pub proof fn law_id_in_address(parts: Seq<Seq<char>>, tail: Seq<char>, i: int)
    requires
        parts.len() > 1,
        forall|j: int|
            0 <= j < parts.len() ==> !(#[trigger] parts[j]).contains('/') && !parts[j].contains('?')
                && !parts[j].contains('#') && text::no_white(parts[j]),
        tail.len() == 0 || tail[0] == '?' || tail[0] == '#',
        text::no_white(tail),
        0 <= i <= parts.len(),
        forall|j: int| 0 <= j < i ==> !is_id_in_any_case(#[trigger] parts[j]),
        i < parts.len() ==> is_id_in_any_case(parts[i]),
    ensures
        id_in(text::joined(parts, seq!['/']) + tail) == if i < parts.len() {
            Some(parts[i].map_values(|c: char| text::ascii_lower(c)))
        } else {
            None
        },
{
    let path = text::joined(parts, seq!['/']);
    let s = path + tail;
    let ok = |c: char| c != '?' && c != '#' && !text::is_white(c);
    assert forall|a: int, b: int| 0 <= a < parts.len() && 0 <= b < parts[a].len() implies ok(
        #[trigger] parts[a][b],
    ) by {
        let c = parts[a][b];
        assert(!parts[a].contains('?') && !parts[a].contains('#') && text::no_white(parts[a]));
        assert(parts[a].contains(c));
    }
    text::lemma_joined_all(parts, seq!['/'], ok);
    assert forall|k: int| 0 <= k < s.len() implies !text::is_white(#[trigger] s[k]) by {
        if k < path.len() {
            assert(ok(path[k]));
        } else {
            assert(s[k] == tail[k - path.len()]);
        }
    }
    text::law_trimmed_stays(s);
    assert(!path.contains('?') && !path.contains('#')) by {
        assert forall|k: int| 0 <= k < path.len() implies path[k] != '?' && path[k] != '#' by {
            assert(ok(path[k]));
        }
    }
    lemma_path_part(path, tail);
    text::law_joined_pieces(parts, '/');
    assert(!is_id(s)) by {
        let front = text::joined(parts.drop_last(), seq!['/']);
        assert(path[front.len() as int] == '/');
        assert(s[front.len() as int] == '/');
    }
    lemma_id_piece_found(parts, 0, i);
}

/// The number of an extension stands for itself, whatever white space is around it.
pub proof fn law_id_by_itself(pre: Seq<char>, id: Seq<char>, post: Seq<char>)
    requires
        text::all_white(pre),
        text::all_white(post),
        id.len() == 32,
        forall|i: int| 0 <= i < 32 ==> 'a' <= #[trigger] id[i] <= 'p',
    ensures
        id_in(pre + id + post) == Some(id),
{
    assert('a' <= id[0] <= 'p' && 'a' <= id[31] <= 'p');
    text::law_trimmed(pre, id, post);
}

/// A number that is made of a digest tells its first bytes: two letters for each, the upper half
/// first.
pub proof fn law_letters_tell_bytes(hash: Seq<u8>, n: int, i: int)
    requires
        0 <= i < n <= hash.len(),
    ensures
        half_letters(hash, n).len() == 2 * n,
        'a' <= half_letters(hash, n)[2 * i] <= 'p',
        'a' <= half_letters(hash, n)[2 * i + 1] <= 'p',
        16 * (half_letters(hash, n)[2 * i] as int - 'a' as int) + (half_letters(
            hash,
            n,
        )[2 * i + 1] as int - 'a' as int) == hash[i],
    decreases n,
{
    lemma_letters_length(hash, n - 1);
    let b = hash[n - 1] as int;
    assert(half_letter(b / 16) as int == 'a' as int + b / 16);
    assert(half_letter(b % 16) as int == 'a' as int + b % 16);
    if i < n - 1 {
        law_letters_tell_bytes(hash, n - 1, i);
    }
}

proof fn lemma_letters_length(hash: Seq<u8>, n: int)
    requires
        0 <= n,
    ensures
        half_letters(hash, n).len() == 2 * n,
    decreases n,
{
    if n > 0 {
        lemma_letters_length(hash, n - 1);
    }
}

/// Units that are written as bytes are read from them again.
pub proof fn law_unit_bytes_read_back(u: Seq<u16>)
    ensures
        unit_bytes(u).len() == 2 * u.len(),
        deeplink::paired(unit_bytes(u)) == u,
    decreases u.len(),
{
    let b = unit_bytes(u);
    if u.len() > 0 {
        let front = u.drop_last();
        law_unit_bytes_read_back(front);
        let c = unit_bytes(front);
        let x = u.last() as int;
        assert((x % 256) as u8 as int == x % 256);
        assert((x / 256) as u8 as int == x / 256);
        assert forall|i: int| 0 <= i < u.len() implies #[trigger] deeplink::paired(b)[i] == u[i] by {
            if i < front.len() {
                assert(b[2 * i] == c[2 * i] && b[2 * i + 1] == c[2 * i + 1]);
                assert(deeplink::paired(c)[i] == front[i]);
            } else {
                assert(b[2 * i] == (x % 256) as u8 && b[2 * i + 1] == (x / 256) as u8);
            }
        }
    }
    assert(deeplink::paired(b) =~= u);
}

/// Both stores are asked, the Edge store first where it is preferred; their packages come from
/// different hosts.
pub proof fn law_stores(prefer_edge: bool)
    ensures
        first_store(prefer_edge) != second_store(prefer_edge),
        first_store(true) == Store::Edge,
        first_store(false) == Store::Google,
        text::begins(store_prefix(Store::Google), "https://clients2.google.com/"@),
        text::begins(store_prefix(Store::Edge), "https://edge.microsoft.com/"@),
        text::ends(store_prefix(Store::Google), "&x=id%3D"@),
        text::ends(store_prefix(Store::Edge), "&x=id%3D"@),
{
    reveal_strlit("https://clients2.google.com/");
    reveal_strlit("https://edge.microsoft.com/");
    reveal_strlit("&x=id%3D");
    reveal_strlit(
        "https://clients2.google.com/service/update2/crx?response=redirect&acceptformat=crx2,crx3&prodversion=131.0.6778.86&x=id%3D",
    );
    reveal_strlit(
        "https://edge.microsoft.com/extensionwebstorebase/v1/crx?response=redirect&x=id%3D",
    );
    let g = store_prefix(Store::Google);
    let e = store_prefix(Store::Edge);
    assert(g.subrange(0, 28) =~= "https://clients2.google.com/"@);
    assert(e.subrange(0, 27) =~= "https://edge.microsoft.com/"@);
    assert(g.subrange(g.len() - 8, g.len() as int) =~= "&x=id%3D"@);
    assert(e.subrange(e.len() - 8, e.len() as int) =~= "&x=id%3D"@);
}

/// A file of a release that is the archive and has an address.
pub open spec fn is_asset(row: (Option<Seq<char>>, Option<Seq<char>>)) -> bool {
    row.0 is Some && row.1 is Some && text::ends(row.0->0, ".chromium.zip"@)
}

/// Of the files of a release the first is taken whose name ends in `.chromium.zip` and that has an
/// address; its address is given as it is.
pub proof fn law_first_asset(rows: Seq<(Option<Seq<char>>, Option<Seq<char>>)>, from: int, i: int)
    requires
        0 <= from <= i <= rows.len(),
        forall|j: int| from <= j < i ==> !is_asset(#[trigger] rows[j]),
        i < rows.len() ==> is_asset(rows[i]),
    ensures
        asset_from(rows, from) == if i < rows.len() {
            rows[i].1
        } else {
            None
        },
    decreases i - from,
{
    if from < i {
        assert(!is_asset(rows[from]));
        law_first_asset(rows, from + 1, i);
    }
}

/// A name that stands for a message names its key; every other name is a name.
pub proof fn law_message_key(key: Seq<char>, name: Seq<char>)
    ensures
        message_key("__MSG_"@ + key + "__"@) == Some(key),
        name.len() < 6 || name[0] != '_' || name[1] != '_' || name[2] != 'M' || name[3] != 'S'
            || name[4] != 'G' || name[5] != '_' ==> message_key(name) is None,
        name.len() >= 8 && name.last() != '_' ==> message_key(name) is None,
{
    reveal_strlit("__MSG_");
    reveal_strlit("__");
    let raw = "__MSG_"@ + key + "__"@;
    assert(raw.subrange(0, 6) =~= "__MSG_"@);
    let rest = raw.skip(6);
    assert(rest =~= key + "__"@);
    assert(rest.subrange(rest.len() - 2, rest.len() as int) =~= "__"@);
    assert(rest.take(raw.len() - 8) =~= key);
    if text::begins(name, "__MSG_"@) {
        let cut = name.subrange(0, 6);
        assert(name[0] == cut[0] && name[1] == cut[1] && name[2] == cut[2] && name[3] == cut[3]
            && name[4] == cut[4] && name[5] == cut[5]);
        if text::ends(name.skip(6), "__"@) {
            let t = name.skip(6);
            assert(t.subrange(t.len() - 2, t.len() as int)[1] == '_');
            assert(name.last() == '_');
        }
    }
}

proof fn lemma_similar_key(keys: Seq<Seq<char>>, key: Seq<char>, from: int)
    requires
        0 <= from <= keys.len(),
    ensures
        match similar_key(keys, key, from) {
            Some(k) => exists|i: int|
                from <= i < keys.len() && #[trigger] keys[i] == k && text::same_letters(k, key)
                    && forall|j: int| from <= j < i ==> !text::same_letters(#[trigger] keys[j], key),
            None => forall|j: int|
                from <= j < keys.len() ==> !text::same_letters(#[trigger] keys[j], key),
        },
    decreases keys.len() - from,
{
    if from < keys.len() {
        if text::same_letters(keys[from], key) {
            assert(keys[from] == similar_key(keys, key, from)->0);
        } else {
            lemma_similar_key(keys, key, from + 1);
        }
    }
}

/// A message is looked up under its own key where there is one; else under the first that differs
/// from it in the case of letters alone; else nowhere.
pub proof fn law_chosen_key(keys: Seq<Seq<char>>, key: Seq<char>)
    ensures
        keys.contains(key) ==> chosen_key(keys, key) == Some(key),
        chosen_key(keys, key) matches Some(k) ==> keys.contains(k) && text::same_letters(k, key),
        chosen_key(keys, key) is None ==> forall|j: int|
            0 <= j < keys.len() ==> !text::same_letters(#[trigger] keys[j], key),
{
    lemma_similar_key(keys, key, 0);
}

/// The page of an extension stands behind its number, without the slashes in front of it; a window
/// at that address shows the extension.
pub proof fn law_extension_address(id: Seq<char>, slashes: nat, page: Seq<char>)
    requires
        page.len() == 0 || page[0] != '/',
    ensures
        extension_address(id, Seq::new(slashes, |i: int| '/') + page) == "chrome-extension://"@ + id
            + "/"@ + page,
        text::begins(extension_address(id, page), "chrome-extension://"@ + id + "/"@),
{
    text::law_strip_front(slashes, page, '/');
    text::law_strip_front(0, page, '/');
    assert(Seq::new(0, |i: int| '/') + page =~= page);
    let front = "chrome-extension://"@ + id + "/"@;
    let all = extension_address(id, page);
    assert(all.subrange(0, front.len() as int) =~= front);
}

/// Each permission stands in a line of its own, in the order in which they are given.
pub proof fn law_permission_list(a: Seq<Seq<char>>, b: Seq<Seq<char>>, perm: Seq<char>)
    requires
        a.len() > 0,
        b.len() > 0,
    ensures
        permission_list(a + b) == permission_list(a) + permission_list(b),
        permission_list(seq![perm]) == "\n- "@ + perm,
        permission_list(seq![]) == "None"@,
{
    text::law_joined_apart(a, b, "\n- "@);
    assert(permission_list(a + b) =~= permission_list(a) + permission_list(b));
}

/// What is switched on of two lists is what is of the first and what is of the second: nothing else
/// is listed, nothing is left out, and the order stays.
pub proof fn law_switched_on(a: Seq<Extension>, b: Seq<Extension>, e: Extension)
    ensures
        switched_on(a + b) == switched_on(a) + switched_on(b),
        e.enabled ==> switched_on(seq![e]) == seq![e],
        !e.enabled ==> switched_on(seq![e]).len() == 0,
        switched_on(seq![]).len() == 0,
{
    let keep = |e: Extension| e.enabled;
    text::lemma_filter_apart(a, b, keep);
    text::lemma_filter_front(seq![e], keep);
    assert(seq![e].skip(1) =~= Seq::empty());
    assert(Seq::<Extension>::empty().filter(keep) =~= Seq::empty()) by {
        reveal(Seq::filter);
    }
    assert(seq![e] + Seq::<Extension>::empty() =~= seq![e]);
}

/// Noting the number under which an extension runs changes nothing for the others.
pub proof fn law_other_runtime_ids_kept(
    pairs: Seq<(String, String)>,
    store_id: String,
    runtime_id: String,
    other: Seq<char>,
)
    requires
        other != store_id@,
    ensures
        ({
            let after = match runs_under(pairs, store_id@, 0) {
                Some(i) => pairs.update(i, (pairs[i].0, runtime_id)),
                None => pairs.push((store_id, runtime_id)),
            };
            &&& runs_under(after, other, 0) == runs_under(pairs, other, 0)
            &&& runs_under(pairs, other, 0) matches Some(k) ==> after[k].1 == pairs[k].1
        }),
{
    let after = match runs_under(pairs, store_id@, 0) {
        Some(i) => pairs.update(i, (pairs[i].0, runtime_id)),
        None => pairs.push((store_id, runtime_id)),
    };
    lemma_runs_under(pairs, store_id@, 0);
    lemma_runs_under(pairs, other, 0);
    lemma_runs_under(after, other, 0);
    assert forall|j: int| 0 <= j < pairs.len() implies (#[trigger] after[j]).0@ == pairs[j].0@ by {}
    match runs_under(pairs, other, 0) {
        Some(k) => {
            assert forall|j: int| 0 <= j < k implies (#[trigger] after[j]).0@ != other by {
                assert(pairs[j].0@ != other);
            }
            lemma_runs_under_at(after, other, 0, k);
        },
        None => {
            if runs_under(after, other, 0) is Some {
                let k = runs_under(after, other, 0)->0;
                if k < pairs.len() {
                    assert(pairs[k].0@ != other);
                }
            }
        },
    }
}

/// Nothing is loaded but what is switched on and whose files are in place.
pub proof fn law_only_enabled_loaded(
    enabled: Seq<Extension>,
    n: int,
    loaded: Seq<Seq<char>>,
    present: Seq<Seq<char>>,
    k: int,
)
    requires
        0 <= n <= enabled.len(),
        0 <= k < to_load(enabled, n, loaded, present).len(),
    ensures
        present.contains(to_load(enabled, n, loaded, present)[k]),
        exists|i: int|
            0 <= i < n && (#[trigger] enabled[i]).id@ == to_load(enabled, n, loaded, present)[k],
    decreases n,
{
    let front = to_load(enabled, n - 1, loaded, present);
    if k < front.len() {
        law_only_enabled_loaded(enabled, n - 1, loaded, present, k);
    } else {
        assert(enabled[n - 1].id@ == to_load(enabled, n, loaded, present)[k]);
    }
}

/// What could not be loaded is taken off the list, and nothing else is.
pub proof fn law_not_named(a: Seq<String>, b: Seq<String>, name: String, id: Seq<char>)
    ensures
        not_named(a + b, id) == not_named(a, id) + not_named(b, id),
        name@ == id ==> not_named(seq![name], id).len() == 0,
        name@ != id ==> not_named(seq![name], id) == seq![name],
        not_named(seq![], id).len() == 0,
{
    reveal(Seq::filter);
    text::lemma_filter_apart(a, b, |s: String| s@ != id);
    let one = seq![name];
    let none = one.drop_last();
    assert(none =~= Seq::empty());
    assert(not_named(none, id).len() == 0);
    assert(one.last() == name);
    assert(not_named(one, id) =~= if name@ != id {
        not_named(none, id).push(name)
    } else {
        not_named(none, id)
    });
    assert(not_named(none, id) =~= none);
}

/// Beside the full blocker those are switched off that are switched on and are one of the two that
/// it makes needless; every one of them and nothing else, in their order.
pub proof fn law_redundant(a: Seq<Extension>, b: Seq<Extension>, e: Extension)
    ensures
        redundant(a + b) == redundant(a) + redundant(b),
        e.enabled && (e.id@ == "ddkjiahejlhfcafbddmgiahcphecmpfh"@ || e.id@
            == "bgnkhhnnamicmpeenaelnjfhikgbkllg"@) ==> redundant(seq![e]) == seq![e],
        !e.enabled ==> redundant(seq![e]).len() == 0,
        e.id@ != "ddkjiahejlhfcafbddmgiahcphecmpfh"@ && e.id@ != "bgnkhhnnamicmpeenaelnjfhikgbkllg"@
            ==> redundant(seq![e]).len() == 0,
{
    let keep = |e: Extension| e.enabled && is_redundant(e.id@);
    text::lemma_filter_apart(a, b, keep);
    text::lemma_filter_front(seq![e], keep);
    assert(seq![e].skip(1) =~= Seq::empty());
    assert(Seq::<Extension>::empty().filter(keep) =~= Seq::empty()) by {
        reveal(Seq::filter);
    }
    assert(seq![e] + Seq::<Extension>::empty() =~= seq![e]);
}

/// The full blocker is found wherever it stands, if it is switched on.
pub proof fn law_full_blocker(a: Seq<Extension>, b: Seq<Extension>, e: Extension)
    ensures
        e.enabled && e.name@ == "uBlock Origin"@ ==> full_blocker(a.push(e) + b),
        !e.enabled || e.name@ != "uBlock Origin"@ ==> (full_blocker(a.push(e)) <==> full_blocker(a)),
        !full_blocker(seq![]),
{
    let all = a.push(e) + b;
    assert(all[a.len() as int] == e);
    if full_blocker(a) {
        let i = choose|i: int|
            0 <= i < a.len() && (#[trigger] a[i]).enabled && a[i].name@ == "uBlock Origin"@;
        assert(a.push(e)[i].enabled);
    }
    if full_blocker(a.push(e)) {
        let i = choose|i: int|
            0 <= i < a.push(e).len() && (#[trigger] a.push(e)[i]).enabled && a.push(e)[i].name@
                == "uBlock Origin"@;
        if i < a.len() {
            assert(a[i].enabled);
        }
    }
}

/// The number that is made for an extension is one: 32 letters, which tell the first sixteen bytes
/// of the digest, so that digests that differ there give different numbers.
pub proof fn law_made_number(bytes: Seq<u8>, other: Seq<u8>, i: int)
    requires
        sha256(bytes).len() == 32,
        sha256(other).len() == 32,
    ensures
        is_id(id_from(bytes)),
        0 <= i < 16 && sha256(bytes)[i] != sha256(other)[i] ==> id_from(bytes) != id_from(other),
{
    let s = id_from(bytes);
    lemma_letters_length(sha256(bytes), 16);
    assert forall|k: int| 0 <= k < s.len() implies 'a' <= #[trigger] s[k] <= 'p' by {
        law_letters_tell_bytes(sha256(bytes), 16, k / 2);
        assert(k == 2 * (k / 2) || k == 2 * (k / 2) + 1);
    }
    if 0 <= i < 16 {
        law_letters_tell_bytes(sha256(bytes), 16, i);
        law_letters_tell_bytes(sha256(other), 16, i);
    }
}

} // verus!
