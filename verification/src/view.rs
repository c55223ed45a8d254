//! A page: what it reports, which keys it leaves to the program, and what it downloads.

use vstd::prelude::*;
use vstd::string::*;
use crate::incognito;
use crate::ipc_types::Tab;
use crate::json;
use crate::text;

verus! {

/// A part of a window, in points.
#[derive(Clone, Copy, PartialEq, Eq, Debug, Structural)]
pub struct Rect {
    pub x: i32,
    pub y: i32,
    pub width: i32,
    pub height: i32,
}

/// What is known of a page while it runs.
#[derive(Debug, Clone)]
pub struct TabRuntimeState {
    pub url: String,
    pub title: String,
    pub favicon_url: String,
    /// How far the page is scrolled: the bits of a 64-bit floating-point number.
    pub scroll_y: u64,
    pub can_go_back: bool,
    pub can_go_forward: bool,
}

// ---- keys ----

/// The view of a name that may be absent.
pub open spec fn name_view(s: Option<&'static str>) -> Option<Seq<char>> {
    match s {
        Some(t) => Some(t@),
        None => None,
    }
}

/// What a key pressed with the control key stands for.
pub open spec fn ctrl_key(vk: u32) -> Option<Seq<char>> {
    if vk == 0x54 {
        Some("Ctrl+T"@)
    } else if vk == 0x57 {
        Some("Ctrl+W"@)
    } else if vk == 0x4E {
        Some("Ctrl+N"@)
    } else if vk == 0x4C {
        Some("Ctrl+L"@)
    } else if vk == 0x09 {
        Some("Ctrl+Tab"@)
    } else if 0x31 <= vk && vk <= 0x39 {
        Some("Ctrl+Num"@)
    } else if vk == 0x46 {
        Some("Ctrl+F"@)
    } else if vk == 0x52 {
        Some("Ctrl+R"@)
    } else if vk == 0x4A {
        Some("Ctrl+J"@)
    } else if vk == 0x44 {
        Some("Ctrl+D"@)
    } else if vk == 0x48 {
        Some("Ctrl+H"@)
    } else if vk == 0xBB || vk == 0x6B {
        Some("Ctrl+ZoomIn"@)
    } else if vk == 0xBD || vk == 0x6D {
        Some("Ctrl+ZoomOut"@)
    } else if vk == 0x30 || vk == 0x60 {
        Some("Ctrl+ZoomReset"@)
    } else if vk == 0x4D {
        Some("Ctrl+M"@)
    } else if vk == 0x51 {
        Some("Ctrl+Q"@)
    } else {
        None
    }
}

/// What a key pressed with the control and shift keys stands for.
pub open spec fn ctrl_shift_key(vk: u32) -> Option<Seq<char>> {
    if vk == 0x55 {
        Some("Ctrl+Shift+U"@)
    } else if vk == 0x54 {
        Some("Ctrl+Shift+T"@)
    } else if vk == 0x57 {
        Some("Ctrl+Shift+W"@)
    } else if vk == 0x4E {
        Some("Ctrl+Shift+N"@)
    } else if vk == 0x09 {
        Some("Ctrl+Shift+Tab"@)
    } else if vk == 0x52 {
        Some("Ctrl+Shift+R"@)
    } else if vk == 0x45 {
        Some("Ctrl+Shift+E"@)
    } else if vk == 0x4F {
        Some("Ctrl+Shift+O"@)
    } else if vk == 0x43 {
        Some("Ctrl+Shift+C"@)
    } else if vk == 0x56 {
        Some("Ctrl+Shift+V"@)
    } else {
        None
    }
}

/// What a key pressed by itself stands for.
pub open spec fn bare_key(vk: u32) -> Option<Seq<char>> {
    if vk == 0x75 {
        Some("F6"@)
    } else if vk == 0x74 {
        Some("F5"@)
    } else if vk == 0x7A {
        Some("F11"@)
    } else if vk == 0x1B {
        Some("Esc"@)
    } else {
        None
    }
}

/// What a key pressed with the alt key stands for.
pub open spec fn alt_key(vk: u32) -> Option<Seq<char>> {
    if vk == 0x25 {
        Some("Tab+Prev"@)
    } else if vk == 0x27 {
        Some("Tab+Next"@)
    } else {
        None
    }
}

/// What a key stands for that the program takes for itself while a page has the keyboard. The keys
/// for going back and forward do so whatever is held down with them.
pub open spec fn shortcut_name(vk: u32, ctrl: bool, shift: bool, alt: bool) -> Option<Seq<char>> {
    if vk == 0xA6 {
        Some("Nav+Back"@)
    } else if vk == 0xA7 {
        Some("Nav+Forward"@)
    } else if ctrl && !shift && !alt {
        ctrl_key(vk)
    } else if ctrl && shift && !alt {
        ctrl_shift_key(vk)
    } else if !ctrl && !shift && !alt {
        bare_key(vk)
    } else if !ctrl && !shift && alt {
        alt_key(vk)
    } else {
        None
    }
}

fn find_ctrl_key(vk: u32) -> (out: Option<&'static str>)
    ensures
        name_view(out) == ctrl_key(vk),
{
    if vk == 0x54 {
        Some("Ctrl+T")
    } else if vk == 0x57 {
        Some("Ctrl+W")
    } else if vk == 0x4E {
        Some("Ctrl+N")
    } else if vk == 0x4C {
        Some("Ctrl+L")
    } else if vk == 0x09 {
        Some("Ctrl+Tab")
    } else if 0x31 <= vk && vk <= 0x39 {
        Some("Ctrl+Num")
    } else if vk == 0x46 {
        Some("Ctrl+F")
    } else if vk == 0x52 {
        Some("Ctrl+R")
    } else if vk == 0x4A {
        Some("Ctrl+J")
    } else if vk == 0x44 {
        Some("Ctrl+D")
    } else if vk == 0x48 {
        Some("Ctrl+H")
    } else if vk == 0xBB || vk == 0x6B {
        Some("Ctrl+ZoomIn")
    } else if vk == 0xBD || vk == 0x6D {
        Some("Ctrl+ZoomOut")
    } else if vk == 0x30 || vk == 0x60 {
        Some("Ctrl+ZoomReset")
    } else if vk == 0x4D {
        Some("Ctrl+M")
    } else if vk == 0x51 {
        Some("Ctrl+Q")
    } else {
        None
    }
}

fn find_ctrl_shift_key(vk: u32) -> (out: Option<&'static str>)
    ensures
        name_view(out) == ctrl_shift_key(vk),
{
    if vk == 0x55 {
        Some("Ctrl+Shift+U")
    } else if vk == 0x54 {
        Some("Ctrl+Shift+T")
    } else if vk == 0x57 {
        Some("Ctrl+Shift+W")
    } else if vk == 0x4E {
        Some("Ctrl+Shift+N")
    } else if vk == 0x09 {
        Some("Ctrl+Shift+Tab")
    } else if vk == 0x52 {
        Some("Ctrl+Shift+R")
    } else if vk == 0x45 {
        Some("Ctrl+Shift+E")
    } else if vk == 0x4F {
        Some("Ctrl+Shift+O")
    } else if vk == 0x43 {
        Some("Ctrl+Shift+C")
    } else if vk == 0x56 {
        Some("Ctrl+Shift+V")
    } else {
        None
    }
}

fn find_bare_key(vk: u32) -> (out: Option<&'static str>)
    ensures
        name_view(out) == bare_key(vk),
{
    if vk == 0x75 {
        Some("F6")
    } else if vk == 0x74 {
        Some("F5")
    } else if vk == 0x7A {
        Some("F11")
    } else if vk == 0x1B {
        Some("Esc")
    } else {
        None
    }
}

fn find_alt_key(vk: u32) -> (out: Option<&'static str>)
    ensures
        name_view(out) == alt_key(vk),
{
    if vk == 0x25 {
        Some("Tab+Prev")
    } else if vk == 0x27 {
        Some("Tab+Next")
    } else {
        None
    }
}

/// What a key stands for that the program takes for itself while a page has the keyboard.
pub fn is_in_window_shortcut(vk: u32, ctrl: bool, shift: bool, alt: bool) -> (out: Option<
    &'static str,
>)
    ensures
        name_view(out) == shortcut_name(vk, ctrl, shift, alt),
{
    if vk == 0xA6 {
        Some("Nav+Back")
    } else if vk == 0xA7 {
        Some("Nav+Forward")
    } else if ctrl && !shift && !alt {
        find_ctrl_key(vk)
    } else if ctrl && shift && !alt {
        find_ctrl_shift_key(vk)
    } else if !ctrl && !shift && !alt {
        find_bare_key(vk)
    } else if !ctrl && !shift && alt {
        find_alt_key(vk)
    } else {
        None
    }
}

/// What is told of a key that the program takes: the name of a number key names the number; the
/// escape key goes to the page unless a panel is open.
pub open spec fn accelerator_detail(
    vk: u32,
    ctrl: bool,
    shift: bool,
    alt: bool,
    panel_open: bool,
) -> Option<Seq<char>> {
    match shortcut_name(vk, ctrl, shift, alt) {
        Some(name) => if name == "Esc"@ && !panel_open {
            None
        } else if name == "Ctrl+Num"@ {
            Some("Ctrl+"@ + text::decimal((vk - 0x30) as nat))
        } else {
            Some(name)
        },
        None => None,
    }
}

/// A key that is named after a number is one of the number keys.
proof fn lemma_number_key(vk: u32, ctrl: bool, shift: bool, alt: bool)
    requires
        shortcut_name(vk, ctrl, shift, alt) == Some("Ctrl+Num"@),
    ensures
        0x31 <= vk <= 0x39,
{
    reveal_strlit("Ctrl+Num");
    reveal_strlit("Nav+Back");
    reveal_strlit("Nav+Forward");
    reveal_strlit("Ctrl+Shift+U");
    reveal_strlit("Ctrl+T");
    reveal_strlit("Ctrl+Shift+T");
    reveal_strlit("Ctrl+W");
    reveal_strlit("Ctrl+Shift+W");
    reveal_strlit("Ctrl+N");
    reveal_strlit("Ctrl+Shift+N");
    reveal_strlit("Ctrl+L");
    reveal_strlit("F6");
    reveal_strlit("Ctrl+Tab");
    reveal_strlit("Ctrl+Shift+Tab");
    reveal_strlit("Ctrl+F");
    reveal_strlit("Ctrl+R");
    reveal_strlit("F5");
    reveal_strlit("Ctrl+Shift+R");
    reveal_strlit("Ctrl+Shift+E");
    reveal_strlit("Ctrl+J");
    reveal_strlit("Ctrl+D");
    reveal_strlit("Ctrl+H");
    reveal_strlit("Ctrl+Shift+O");
    reveal_strlit("Ctrl+ZoomIn");
    reveal_strlit("Ctrl+ZoomOut");
    reveal_strlit("Ctrl+ZoomReset");
    reveal_strlit("Ctrl+Shift+C");
    reveal_strlit("Ctrl+Shift+V");
    reveal_strlit("Ctrl+M");
    reveal_strlit("Ctrl+Q");
    reveal_strlit("Tab+Prev");
    reveal_strlit("Tab+Next");
    reveal_strlit("F11");
    reveal_strlit("Esc");
    let n = "Ctrl+Num"@;
    assert("Nav+Back"@[0] != n[0]);
    assert("Nav+Forward"@.len() != n.len());
    assert("Ctrl+Shift+U"@.len() != n.len());
    assert("Ctrl+T"@.len() != n.len());
    assert("Ctrl+Shift+T"@.len() != n.len());
    assert("Ctrl+W"@.len() != n.len());
    assert("Ctrl+Shift+W"@.len() != n.len());
    assert("Ctrl+N"@.len() != n.len());
    assert("Ctrl+Shift+N"@.len() != n.len());
    assert("Ctrl+L"@.len() != n.len());
    assert("F6"@.len() != n.len());
    assert("Ctrl+Tab"@[5] != n[5]);
    assert("Ctrl+Shift+Tab"@.len() != n.len());
    assert("Ctrl+F"@.len() != n.len());
    assert("Ctrl+R"@.len() != n.len());
    assert("F5"@.len() != n.len());
    assert("Ctrl+Shift+R"@.len() != n.len());
    assert("Ctrl+Shift+E"@.len() != n.len());
    assert("Ctrl+J"@.len() != n.len());
    assert("Ctrl+D"@.len() != n.len());
    assert("Ctrl+H"@.len() != n.len());
    assert("Ctrl+Shift+O"@.len() != n.len());
    assert("Ctrl+ZoomIn"@.len() != n.len());
    assert("Ctrl+ZoomOut"@.len() != n.len());
    assert("Ctrl+ZoomReset"@.len() != n.len());
    assert("Ctrl+Shift+C"@.len() != n.len());
    assert("Ctrl+Shift+V"@.len() != n.len());
    assert("Ctrl+M"@.len() != n.len());
    assert("Ctrl+Q"@.len() != n.len());
    assert("Tab+Prev"@[0] != n[0]);
    assert("Tab+Next"@[0] != n[0]);
    assert("F11"@.len() != n.len());
    assert("Esc"@.len() != n.len());
}

/// What is told of a key that a page has seen, if the program takes it.
pub fn accelerator_pressed(
    vk: u32,
    ctrl: bool,
    shift: bool,
    alt: bool,
    panel_open: bool,
) -> (out: Option<String>)
    ensures
        text::opt_view(out) == accelerator_detail(vk, ctrl, shift, alt, panel_open),
{
    match is_in_window_shortcut(vk, ctrl, shift, alt) {
        Some(name) => if text::same(name, "Esc") && !panel_open {
            None
        } else if text::same(name, "Ctrl+Num") {
            proof {
                lemma_number_key(vk, ctrl, shift, alt);
            }
            let number: String = text::dec_u64((vk - 0x30) as u64);
            Some(text::concat2("Ctrl+", number.as_str()))
        } else {
            Some(name.to_owned())
        },
        None => None,
    }
}

// ---- what a page reports ----

/// Pages from which extensions can be installed.
pub open spec fn offers_extension(url: Seq<char>) -> bool {
    ||| text::has(url, "chromewebstore.google.com/detail/"@)
    ||| text::has(url, "chrome.google.com/webstore/detail/"@)
    ||| text::has(url, "microsoftedge.microsoft.com/addons/detail/"@)
}

/// Whether an extension can be installed from a page.
pub fn is_store_page(url: &str) -> (out: bool)
    ensures
        out == offers_extension(url@),
{
    text::contains(url, "chromewebstore.google.com/detail/") || text::contains(
        url,
        "chrome.google.com/webstore/detail/",
    ) || text::contains(url, "microsoftedge.microsoft.com/addons/detail/")
}

/// A tab after its page has reported something, and whether that is a visit to be noted.
pub struct PageChange {
    pub tab: Tab,
    pub visited: bool,
}

/// A page of the web.
pub open spec fn is_web_page(url: Seq<char>) -> bool {
    text::begins(url, "http://"@) || text::begins(url, "https://"@)
}

/// Whether what a page reports is a visit: it is at another address than before, on the web.
pub open spec fn is_visit(tab: Tab, url: Option<String>) -> bool {
    match url {
        Some(u) => tab.url@ != u@ && is_web_page(u@),
        None => false,
    }
}

/// Whether a report is noted as a visit: it is one, and the tab is not held in memory alone.
pub open spec fn noted_visit(tab: Tab, url: Option<String>) -> bool {
    tab.id >= 0 && is_visit(tab, url)
}

/// The tab after its page has reported an address, a title or both. An empty title changes
/// nothing.
pub open spec fn reported(tab: Tab, url: Option<String>, title: Option<String>) -> Tab {
    Tab {
        url: match url {
            Some(u) => u,
            None => tab.url,
        },
        title: match title {
            Some(t) if t@.len() > 0 => Some(t),
            _ => tab.title,
        },
        ..tab
    }
}

/// Takes what a page has reported into the record of its tab. A tab that is held in memory alone
/// makes no visits.
pub fn persist_tab_meta(tab: Tab, url: Option<String>, title: Option<String>) -> (out: PageChange)
    ensures
        out.tab == reported(tab, url, title),
        out.visited == noted_visit(tab, url),
{
    let mut t: Tab = tab;
    let mut visited: bool = false;
    if let Some(u) = url {
        visited = !incognito::is_private(t.id) && !text::same(t.url.as_str(), u.as_str()) && (
        text::starts_with(u.as_str(), "http://") || text::starts_with(u.as_str(), "https://"));
        t.url = u;
    }
    if let Some(ti) = title {
        if !ti.as_str().is_empty() {
            t.title = Some(ti);
        }
    }
    PageChange { tab: t, visited }
}

/// No page of a tab that leaves no trace is ever noted as visited, wherever it goes: neither while
/// the tab is as it is nor after any reports of its page.
pub proof fn law_no_visit_is_noted(
    tabs: Seq<Tab>,
    i: int,
    url: Option<String>,
    title: Option<String>,
    next: Option<String>,
)
    requires
        incognito::sound(tabs),
        0 <= i < tabs.len(),
    ensures
        !noted_visit(tabs[i], url),
        !noted_visit(reported(tabs[i], url, title), next),
        incognito::sound(tabs.update(i, reported(tabs[i], url, title))),
{
    assert(tabs[i].id < 0);
    let after = tabs.update(i, reported(tabs[i], url, title));
    assert forall|k: int| 0 <= k < after.len() implies (#[trigger] after[k]).id == tabs[k].id by {}
    assert forall|k: int| 0 <= k < after.len() implies (#[trigger] after[k]).id < 0 by {
        assert(tabs[k].id < 0);
    }
    assert forall|k: int, l: int| 0 <= k < l < after.len() implies (#[trigger] after[k]).id != (
    #[trigger] after[l]).id by {
        assert(tabs[k].id != tabs[l].id);
    }
}

/// Whether a window that a page asks for is opened as a tab in the background: it is for a page
/// of the web.
pub fn opens_tab(url: &str) -> (out: bool)
    ensures
        out == text::begins(url@, "http"@),
{
    text::starts_with(url, "http")
}

/// What looking after a page comes to, each time.
#[derive(Clone, Copy, PartialEq, Eq, Debug, Structural)]
pub enum PollStep {
    /// The page is gone, and so is the need to look after it.
    Stop,
    /// There is nothing to see.
    Skip,
    /// How far it is scrolled is read.
    ReadScroll,
}

/// What looking after a page comes to.
pub fn poll_step(alive: bool, visible: bool, suspended: bool) -> (out: PollStep)
    ensures
        out == if !alive {
            PollStep::Stop
        } else if !visible || suspended {
            PollStep::Skip
        } else {
            PollStep::ReadScroll
        },
{
    if !alive {
        PollStep::Stop
    } else if !visible || suspended {
        PollStep::Skip
    } else {
        PollStep::ReadScroll
    }
}

/// The script that looks for a text in a page. The text stands in it as a string of JSON.
pub fn find_script(needle: &str, forward: bool) -> (out: String)
    ensures
        out@ == "window.find("@ + json::quoted(needle@) + ", false, "@ + if forward {
            "false"@
        } else {
            "true"@
        } + ", true, false, false, false)"@,
{
    let quoted: String = json::quote(needle);
    let backward: &str = if forward {
        "false"
    } else {
        "true"
    };
    let front: String = text::concat3("window.find(", quoted.as_str(), ", false, ");
    text::concat3(front.as_str(), backward, ", true, false, false, false)")
}

// ---- downloads ----

/// What stands behind the last slash or backslash of a path.
pub open spec fn last_part(path: Seq<char>) -> Seq<char>
    decreases path.len(),
{
    if path.len() == 0 || path.last() == '/' || path.last() == '\\' {
        seq![]
    } else {
        last_part(path.drop_last()).push(path.last())
    }
}

/// The name of the file at a path.
pub fn download_file_name(path: &str) -> (out: String)
    ensures
        out@ == last_part(path@),
{
    let x: Vec<char> = text::chars_of(path);
    let mut n: usize = x.len();
    assert(path@.take(n as int) =~= path@);
    assert(path@.skip(n as int) =~= Seq::empty());
    assert(last_part(path@) + path@.skip(n as int) =~= last_part(path@));
    while n > 0 && x[n - 1] != '/' && x[n - 1] != '\\'
        invariant
            x@ == path@,
            n <= x@.len(),
            last_part(path@) == last_part(path@.take(n as int)) + path@.skip(n as int),
        decreases n,
    {
        proof {
            let front = path@.take(n as int);
            assert(front.drop_last() =~= path@.take(n - 1));
            assert(front.last() == path@[n - 1]);
            assert(last_part(front) + path@.skip(n as int) =~= last_part(path@.take(n - 1))
                + path@.skip(n - 1));
        }
        n = n - 1;
    }
    proof {
        if n > 0 {
            assert(path@.take(n as int).last() == path@[n - 1]);
        }
        assert(last_part(path@.take(n as int)) =~= Seq::empty());
        assert(last_part(path@) =~= path@.skip(n as int));
    }
    text::skip(path, n)
}

/// The name of a download that begins at the given time, in milliseconds since 1970.
pub fn download_id(millis: u64) -> (out: String)
    ensures
        out@ == text::decimal(millis as nat),
{
    text::dec_u64(millis)
}

/// How long, in milliseconds, nothing is told of downloads after something was.
pub const PROGRESS_PAUSE: u64 = 250;

/// When something was last told of downloads.
pub struct ProgressClock {
    pub last: u64,
}

/// Whether something is told of downloads now.
pub fn progress_due(clock: &mut ProgressClock, now: u64) -> (out: bool)
    ensures
        out == (now - old(clock).last >= PROGRESS_PAUSE),
        out <==> old(clock).last + 250 <= now,
        final(clock).last == if out {
            now
        } else {
            old(clock).last
        },
{
    if now >= clock.last && now - clock.last >= PROGRESS_PAUSE {
        clock.last = now;
        true
    } else {
        false
    }
}

/// How a download stands.
#[derive(Clone, Copy, PartialEq, Eq, Debug, Structural)]
pub enum DownloadState {
    InProgress,
    Interrupted,
    Completed,
}

/// The word for how a download stands.
pub open spec fn state_name(s: DownloadState) -> Seq<char> {
    match s {
        DownloadState::Completed => "completed"@,
        DownloadState::Interrupted => "interrupted"@,
        DownloadState::InProgress => "inprogress"@,
    }
}

/// The word for how a download stands, and whether it is over.
pub fn download_state(s: DownloadState) -> (out: (&'static str, bool))
    ensures
        out.0@ == state_name(s),
        out.1 == (s != DownloadState::InProgress),
{
    match s {
        DownloadState::Completed => ("completed", true),
        DownloadState::Interrupted => ("interrupted", true),
        DownloadState::InProgress => ("inprogress", false),
    }
}

/// The position of the download with the given name among those that are not over.
pub open spec fn download_at(ids: Seq<Seq<char>>, id: Seq<char>, i: int) -> Option<int>
    decreases ids.len() - i,
{
    if i >= ids.len() {
        None
    } else if ids[i] == id {
        Some(i)
    } else {
        download_at(ids, id, i + 1)
    }
}

/// The position of the download with the given name, for telling it something.
pub fn download_action(ids: &Vec<String>, id: &str) -> (out: Result<usize, String>)
    ensures
        match out {
            Ok(i) => i < ids@.len() && download_at(text::views(ids@), id@, 0) == Some(i as int),
            Err(e) => download_at(text::views(ids@), id@, 0) is None && e@
                == "download not found (already finished?)"@,
        },
{
    let ghost v = text::views(ids@);
    for i in 0..ids.len()
        invariant
            v == text::views(ids@),
            download_at(v, id@, 0) == download_at(v, id@, i as int),
    {
        assert(v[i as int] == ids@[i as int]@);
        if text::same(ids[i].as_str(), id) {
            return Ok(i);
        }
    }
    Err("download not found (already finished?)".to_owned())
}

// ---- what these amount to ----

/// Under the control key a letter that the program takes is told by its name: those of the words
/// below, and no others.
pub proof fn law_ctrl_letters(vk: u32)
    requires
        0x41 <= vk <= 0x5A,
    ensures
        match ctrl_key(vk) {
            Some(name) => name == "Ctrl+"@ + seq![vk as char] && "DFHJLMNQRTW"@.contains(vk as char),
            None => !"DFHJLMNQRTW"@.contains(vk as char),
        },
        match ctrl_shift_key(vk) {
            Some(name) => name == "Ctrl+Shift+"@ + seq![vk as char] && "CENORTUVW"@.contains(
                vk as char,
            ),
            None => !"CENORTUVW"@.contains(vk as char),
        },
        bare_key(vk) is None,
        alt_key(vk) is None,
{
    reveal_strlit("Ctrl+");
    reveal_strlit("Ctrl+Shift+");
    reveal_strlit("DFHJLMNQRTW");
    reveal_strlit("CENORTUVW");
    let c = vk as char;
    let a = "DFHJLMNQRTW"@;
    let b = "CENORTUVW"@;
    assert(a.contains(c) <==> (c == 'D' || c == 'F' || c == 'H' || c == 'J' || c == 'L' || c == 'M'
        || c == 'N' || c == 'Q' || c == 'R' || c == 'T' || c == 'W')) by {
        assert(a =~= seq!['D', 'F', 'H', 'J', 'L', 'M', 'N', 'Q', 'R', 'T', 'W']);
        assert(a[0] == 'D' && a[1] == 'F' && a[2] == 'H' && a[3] == 'J' && a[4] == 'L' && a[5]
            == 'M' && a[6] == 'N' && a[7] == 'Q' && a[8] == 'R' && a[9] == 'T' && a[10] == 'W');
    }
    assert(b.contains(c) <==> (c == 'C' || c == 'E' || c == 'N' || c == 'O' || c == 'R' || c == 'T'
        || c == 'U' || c == 'V' || c == 'W')) by {
        assert(b =~= seq!['C', 'E', 'N', 'O', 'R', 'T', 'U', 'V', 'W']);
        assert(b[0] == 'C' && b[1] == 'E' && b[2] == 'N' && b[3] == 'O' && b[4] == 'R' && b[5]
            == 'T' && b[6] == 'U' && b[7] == 'V' && b[8] == 'W');
    }
    reveal_strlit("Ctrl+T");
    reveal_strlit("Ctrl+W");
    reveal_strlit("Ctrl+N");
    reveal_strlit("Ctrl+L");
    reveal_strlit("Ctrl+F");
    reveal_strlit("Ctrl+R");
    reveal_strlit("Ctrl+J");
    reveal_strlit("Ctrl+D");
    reveal_strlit("Ctrl+H");
    reveal_strlit("Ctrl+M");
    reveal_strlit("Ctrl+Q");
    reveal_strlit("Ctrl+Shift+U");
    reveal_strlit("Ctrl+Shift+T");
    reveal_strlit("Ctrl+Shift+W");
    reveal_strlit("Ctrl+Shift+N");
    reveal_strlit("Ctrl+Shift+R");
    reveal_strlit("Ctrl+Shift+E");
    reveal_strlit("Ctrl+Shift+O");
    reveal_strlit("Ctrl+Shift+C");
    reveal_strlit("Ctrl+Shift+V");
    if ctrl_key(vk) is Some {
        assert(ctrl_key(vk)->0 =~= "Ctrl+"@ + seq![c]);
    }
    if ctrl_shift_key(vk) is Some {
        assert(ctrl_shift_key(vk)->0 =~= "Ctrl+Shift+"@ + seq![c]);
    }
}

/// A number key under the control key is told by its number, whether or not a panel is open.
pub proof fn law_number_keys(vk: u32, panel_open: bool)
    requires
        0x31 <= vk <= 0x39,
    ensures
        accelerator_detail(vk, true, false, false, panel_open) == Some("Ctrl+"@ + seq![vk as char]),
        ctrl_shift_key(vk) is None,
        bare_key(vk) is None,
{
    reveal_strlit("Ctrl+Num");
    reveal_strlit("Esc");
    assert("Ctrl+Num"@.len() != "Esc"@.len());
    assert(text::decimal((vk - 0x30) as nat) =~= seq![vk as char]);
}

/// The keys for zooming do the same on both parts of the keyboard, and each another thing.
pub proof fn law_zoom_keys()
    ensures
        ctrl_key(0xBB) == ctrl_key(0x6B) && ctrl_key(0xBB) == Some("Ctrl+ZoomIn"@),
        ctrl_key(0xBD) == ctrl_key(0x6D) && ctrl_key(0xBD) == Some("Ctrl+ZoomOut"@),
        ctrl_key(0x30) == ctrl_key(0x60) && ctrl_key(0x30) == Some("Ctrl+ZoomReset"@),
{
}

/// Of the keys with nothing held down the program takes the escape key and the fifth, sixth and
/// eleventh function key, which are told by their names.
pub proof fn law_bare_keys(vk: u32)
    ensures
        bare_key(vk) is Some <==> vk == 0x1B || vk == 0x74 || vk == 0x75 || vk == 0x7A,
        0x70 <= vk <= 0x7B && bare_key(vk) is Some ==> bare_key(vk) == Some(
            "F"@ + text::decimal((vk - 0x6F) as nat),
        ),
        bare_key(0x1B) == Some("Esc"@),
{
    reveal_strlit("F");
    reveal_strlit("F5");
    reveal_strlit("F6");
    reveal_strlit("F11");
    reveal_with_fuel(text::decimal, 2);
    if 0x70 <= vk <= 0x7B && bare_key(vk) is Some {
        assert(bare_key(vk)->0 =~= "F"@ + text::decimal((vk - 0x6F) as nat));
    }
}

/// The keys for going back and forward are taken whatever is held down with them. No other key is
/// taken with control and alt, or with shift alone; the arrows to the sides are, with alt alone.
pub proof fn law_held_keys(vk: u32, ctrl: bool, shift: bool, alt: bool)
    ensures
        shortcut_name(0xA6, ctrl, shift, alt) == Some("Nav+Back"@),
        shortcut_name(0xA7, ctrl, shift, alt) == Some("Nav+Forward"@),
        vk != 0xA6 && vk != 0xA7 && ((alt && (ctrl || shift)) || (shift && !ctrl)) ==> shortcut_name(
            vk,
            ctrl,
            shift,
            alt,
        ) is None,
        shortcut_name(0x25, false, false, true) == Some("Tab+Prev"@),
        shortcut_name(0x27, false, false, true) == Some("Tab+Next"@),
        shortcut_name(0x09, true, false, false) == Some("Ctrl+Tab"@),
        shortcut_name(0x09, true, true, false) == Some("Ctrl+Shift+Tab"@),
        alt_key(vk) is Some ==> vk == 0x25 || vk == 0x27,
{
}

/// The escape key goes to the page unless a panel is open; no other key depends on that.
pub proof fn law_escape_key(vk: u32, ctrl: bool, shift: bool, alt: bool)
    ensures
        accelerator_detail(0x1B, false, false, false, true) == Some("Esc"@),
        accelerator_detail(0x1B, false, false, false, false) is None,
        vk != 0x1B ==> accelerator_detail(vk, ctrl, shift, alt, true) == accelerator_detail(
            vk,
            ctrl,
            shift,
            alt,
            false,
        ),
        accelerator_detail(vk, ctrl, shift, alt, true) is Some <==> shortcut_name(
            vk,
            ctrl,
            shift,
            alt,
        ) is Some,
{
    reveal_strlit("Esc");
    reveal_strlit("Ctrl+Num");
    assert("Ctrl+Num"@.len() != "Esc"@.len());
    if vk != 0x1B && shortcut_name(vk, ctrl, shift, alt) == Some("Esc"@) {
        lemma_not_escape(vk, ctrl, shift, alt);
    }
}

proof fn lemma_not_escape(vk: u32, ctrl: bool, shift: bool, alt: bool)
    requires
        vk != 0x1B,
    ensures
        shortcut_name(vk, ctrl, shift, alt) != Some("Esc"@),
{
    reveal_strlit("Ctrl+Num");
    reveal_strlit("Nav+Back");
    reveal_strlit("Nav+Forward");
    reveal_strlit("Ctrl+Shift+U");
    reveal_strlit("Ctrl+T");
    reveal_strlit("Ctrl+Shift+T");
    reveal_strlit("Ctrl+W");
    reveal_strlit("Ctrl+Shift+W");
    reveal_strlit("Ctrl+N");
    reveal_strlit("Ctrl+Shift+N");
    reveal_strlit("Ctrl+L");
    reveal_strlit("F6");
    reveal_strlit("Ctrl+Tab");
    reveal_strlit("Ctrl+Shift+Tab");
    reveal_strlit("Ctrl+F");
    reveal_strlit("Ctrl+R");
    reveal_strlit("F5");
    reveal_strlit("Ctrl+Shift+R");
    reveal_strlit("Ctrl+Shift+E");
    reveal_strlit("Ctrl+J");
    reveal_strlit("Ctrl+D");
    reveal_strlit("Ctrl+H");
    reveal_strlit("Ctrl+Shift+O");
    reveal_strlit("Ctrl+ZoomIn");
    reveal_strlit("Ctrl+ZoomOut");
    reveal_strlit("Ctrl+ZoomReset");
    reveal_strlit("Ctrl+Shift+C");
    reveal_strlit("Ctrl+Shift+V");
    reveal_strlit("Ctrl+M");
    reveal_strlit("Ctrl+Q");
    reveal_strlit("Tab+Prev");
    reveal_strlit("Tab+Next");
    reveal_strlit("F11");
    reveal_strlit("Esc");
    if shortcut_name(vk, ctrl, shift, alt) is Some {
        let s = shortcut_name(vk, ctrl, shift, alt)->0;
        assert(s[0] == 'C' || s[0] == 'N' || s[0] == 'F' || s[0] == 'T');
        assert("Esc"@[0] == 'E');
    }
}

/// A page of one of the stores is one from which an extension can be installed, whatever stands
/// around the store's address.
pub proof fn law_store_pages(pre: Seq<char>, post: Seq<char>)
    ensures
        offers_extension(pre + "chromewebstore.google.com/detail/"@ + post),
        offers_extension(pre + "chrome.google.com/webstore/detail/"@ + post),
        offers_extension(pre + "microsoftedge.microsoft.com/addons/detail/"@ + post),
        !pre.contains('/') ==> !offers_extension(pre),
{
    let a = "chromewebstore.google.com/detail/"@;
    let b = "chrome.google.com/webstore/detail/"@;
    let c = "microsoftedge.microsoft.com/addons/detail/"@;
    let n = pre.len() as int;
    assert((pre + a + post).subrange(n, n + a.len()) =~= a);
    assert((pre + b + post).subrange(n, n + b.len()) =~= b);
    assert((pre + c + post).subrange(n, n + c.len()) =~= c);
    assert(text::at(pre + a + post, a, n));
    assert(text::at(pre + b + post, b, n));
    assert(text::at(pre + c + post, c, n));
    reveal_strlit("chromewebstore.google.com/detail/");
    reveal_strlit("chrome.google.com/webstore/detail/");
    reveal_strlit("microsoftedge.microsoft.com/addons/detail/");
    if !pre.contains('/') && offers_extension(pre) {
        let w = if text::has(pre, a) {
            a
        } else if text::has(pre, b) {
            b
        } else {
            c
        };
        let i = choose|i: int| text::at(pre, w, i);
        assert(w.last() == '/');
        assert(pre.subrange(i, i + w.len())[w.len() - 1] == '/');
        assert(pre[i + w.len() - 1] == '/');
    }
}

/// A tab is where its page has last reported to be, under the last title that was not empty;
/// nothing else of it changes.
pub proof fn law_reported(tab: Tab, url: Option<String>, title: Option<String>)
    ensures
        ({
            let t = reported(tab, url, title);
            &&& url matches Some(u) ==> t.url == u
            &&& url is None ==> t.url == tab.url
            &&& title matches Some(n) ==> (n@.len() > 0 ==> t.title == title)
            &&& title matches Some(n) ==> (n@.len() == 0 ==> t.title == tab.title)
            &&& title is None ==> t.title == tab.title
            &&& t.id == tab.id && t.window_id == tab.window_id && t.favicon_id == tab.favicon_id
            &&& t.pinned == tab.pinned && t.muted == tab.muted && t.order_key == tab.order_key
            &&& t.scroll_y == tab.scroll_y && t.last_active == tab.last_active && t.created_at
                == tab.created_at
        }),
        reported(reported(tab, url, title), url, title) == reported(tab, url, title),
{
}

/// Going to another page of the web is a visit, staying there is none, and neither is a page that
/// is not of the web.
pub proof fn law_visits_noted(tab: Tab, url: String, title: Option<String>)
    ensures
        tab.id >= 0 && tab.url@ != url@ && (exists|rest: Seq<char>|
            url@ == #[trigger] ("http://"@ + rest) || url@ == "https://"@ + rest) ==> noted_visit(
            tab,
            Some(url),
        ),
        !noted_visit(reported(tab, Some(url), title), Some(url)),
        !noted_visit(tab, None),
        url@.len() > 0 && url@[0] != 'h' ==> !noted_visit(tab, Some(url)),
{
    reveal_strlit("http://");
    reveal_strlit("https://");
    if exists|rest: Seq<char>|
        url@ == #[trigger] ("http://"@ + rest) || url@ == "https://"@ + rest {
        let rest = choose|rest: Seq<char>|
            url@ == #[trigger] ("http://"@ + rest) || url@ == "https://"@ + rest;
        if url@ == "http://"@ + rest {
            assert(url@.subrange(0, 7) =~= "http://"@);
        } else {
            assert(url@.subrange(0, 8) =~= "https://"@);
        }
    }
    if url@.len() > 0 && is_web_page(url@) {
        if text::begins(url@, "http://"@) {
            assert(url@.subrange(0, 7)[0] == 'h');
        } else {
            assert(url@.subrange(0, 8)[0] == 'h');
        }
        assert(url@[0] == 'h');
    }
}

/// The name of a file is what stands behind the last slash or backslash of its path, all of it.
pub proof fn law_file_name(folder: Seq<char>, name: Seq<char>)
    requires
        forall|i: int| 0 <= i < name.len() ==> #[trigger] name[i] != '/' && name[i] != '\\',
    ensures
        last_part(name) == name,
        last_part(folder.push('/') + name) == name,
        last_part(folder.push('\\') + name) == name,
    decreases name.len(),
{
    let a = folder.push('/') + name;
    let b = folder.push('\\') + name;
    if name.len() == 0 {
        assert(a.last() == '/');
        assert(b.last() == '\\');
        assert(last_part(name) =~= name);
    } else {
        let front = name.drop_last();
        assert forall|i: int| 0 <= i < front.len() implies #[trigger] front[i] != '/' && front[i]
            != '\\' by {
            assert(front[i] == name[i]);
        }
        law_file_name(folder, front);
        assert(name[name.len() - 1] == name.last());
        assert(a.last() == name.last() && b.last() == name.last());
        assert(a.drop_last() =~= folder.push('/') + front);
        assert(b.drop_last() =~= folder.push('\\') + front);
        assert(front.push(name.last()) =~= name);
    }
}

/// How a download stands is told by three different words.
pub proof fn law_state_names(a: DownloadState, b: DownloadState)
    ensures
        state_name(a) == state_name(b) ==> a == b,
{
    reveal_strlit("completed");
    reveal_strlit("interrupted");
    reveal_strlit("inprogress");
    assert("completed"@.len() == 9 && "interrupted"@.len() == 11 && "inprogress"@.len() == 10);
}

proof fn lemma_download_at(ids: Seq<Seq<char>>, id: Seq<char>, i: int)
    requires
        0 <= i <= ids.len(),
    ensures
        match download_at(ids, id, i) {
            Some(k) => i <= k < ids.len() && ids[k] == id && forall|j: int|
                i <= j < k ==> #[trigger] ids[j] != id,
            None => forall|j: int| i <= j < ids.len() ==> #[trigger] ids[j] != id,
        },
    decreases ids.len() - i,
{
    if i < ids.len() && ids[i] != id {
        lemma_download_at(ids, id, i + 1);
    }
}

/// What is found of a download is the first with its name, and it is found where there is one.
pub proof fn law_download_found(ids: Seq<Seq<char>>, id: Seq<char>)
    ensures
        match download_at(ids, id, 0) {
            Some(k) => 0 <= k < ids.len() && ids[k] == id && forall|j: int|
                0 <= j < k ==> #[trigger] ids[j] != id,
            None => !ids.contains(id),
        },
{
    lemma_download_at(ids, id, 0);
}

} // verus!
