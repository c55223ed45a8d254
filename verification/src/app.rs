//! The program as a whole: starting, windows, the layer above the page, and the tray.

use vstd::prelude::*;
use vstd::string::*;
use crate::search;
use crate::search::SearchEngine;
use crate::settings;
use crate::text;
use crate::windows;

verus! {

// ---- starting ----

/// What was handed over on the command line and not yet opened.
pub struct StartupArgState(pub Option<String>);

/// The argument that is to be opened: the first one behind the name of the program, unless it is
/// an option.
pub open spec fn argument_of(args: Seq<Seq<char>>) -> Option<Seq<char>> {
    if args.len() > 1 && !text::begins(args[1], "--"@) {
        Some(args[1])
    } else {
        None
    }
}

/// The argument that is to be opened. Without one, the window just comes to the front.
pub fn startup_argument(args: &Vec<String>) -> (out: Option<String>)
    ensures
        text::opt_view(out) == argument_of(text::views(args@)),
{
    if args.len() > 1 {
        assert(text::views(args@)[1] == args@[1]@);
        if !text::starts_with(args[1].as_str(), "--") {
            return Some(args[1].clone());
        }
    }
    None
}

/// Takes what is still to be opened; it is opened once.
pub fn process_startup_arg(state: &mut StartupArgState) -> (out: Option<String>)
    ensures
        out == old(state).0,
        final(state).0 is None,
{
    state.0.take()
}

/// Whether the program starts without showing its window: by an option or by a setting.
pub open spec fn starts_hidden(args: Seq<Seq<char>>, setting: Option<Seq<char>>) -> bool {
    args.contains("--minimized"@) || setting == Some("true"@)
}

/// Whether the program shows its window when it starts.
pub fn should_show_on_startup(args: &Vec<String>, start_minimized: &Option<String>) -> (out: bool)
    ensures
        out == !starts_hidden(text::views(args@), text::opt_view(*start_minimized)),
{
    !text::lists(args, "--minimized") && !settings::is_on(start_minimized)
}

/// Whether a program that takes the same keys is running, by the list of running programs, where
/// there is one.
pub fn is_powertoys_run_active(tasks: &Option<String>) -> (out: bool)
    ensures
        out == match text::opt_view(*tasks) {
            Some(t) => text::has(t, "PowerToys.Run.exe"@),
            None => false,
        },
{
    match tasks {
        Some(t) => text::contains(t.as_str(), "PowerToys.Run.exe"),
        None => false,
    }
}

// ---- windows ----

/// What a button of the window does.
#[derive(Clone, Copy, PartialEq, Eq, Debug, Structural)]
pub enum ControlStep {
    Minimize,
    Maximize,
    Unmaximize,
    /// The window goes away and the program goes on.
    HideToTray,
    /// The program ends.
    Quit,
    Close,
}

/// What closing a window does: the first one goes away or ends the program, as the user has set;
/// any other is closed.
pub open spec fn closing(label: Seq<char>, setting: Option<Seq<char>>) -> ControlStep {
    if label != "main"@ {
        ControlStep::Close
    } else if setting != Some("false"@) {
        ControlStep::HideToTray
    } else {
        ControlStep::Quit
    }
}

/// What closing a window does.
pub fn close_requested(label: &str, minimize_to_tray: &Option<String>) -> (out: ControlStep)
    ensures
        out == closing(label@, text::opt_view(*minimize_to_tray)),
{
    if !text::same(label, "main") {
        ControlStep::Close
    } else if settings::is_not_off(minimize_to_tray) {
        ControlStep::HideToTray
    } else {
        ControlStep::Quit
    }
}

/// What a button of the window does, by its name.
pub fn window_controls(
    action: &str,
    label: &str,
    maximized: bool,
    minimize_to_tray: &Option<String>,
) -> (out: Result<ControlStep, String>)
    ensures
        match out {
            Ok(step) => {
                ||| action@ == "min"@ && step == ControlStep::Minimize
                ||| action@ == "max"@ && step == if maximized {
                    ControlStep::Unmaximize
                } else {
                    ControlStep::Maximize
                }
                ||| action@ == "close"@ && step == closing(
                    label@,
                    text::opt_view(*minimize_to_tray),
                )
            },
            Err(e) => {
                &&& action@ != "min"@
                &&& action@ != "max"@
                &&& action@ != "close"@
                &&& e@ == "Unknown window action: "@ + action@
            },
        },
{
    if text::same(action, "min") {
        Ok(ControlStep::Minimize)
    } else if text::same(action, "max") {
        if maximized {
            Ok(ControlStep::Unmaximize)
        } else {
            Ok(ControlStep::Maximize)
        }
    } else if text::same(action, "close") {
        Ok(close_requested(label, minimize_to_tray))
    } else {
        Err(text::concat2("Unknown window action: ", action))
    }
}

/// The number of the window without traces that was closed, by its name.
pub open spec fn closed_incognito(label: Seq<char>) -> Option<int> {
    if text::begins(label, "incognito_"@) {
        windows::number_in(label)
    } else {
        None
    }
}

/// The number of the window without traces that was closed.
pub fn incognito_window_closed(label: &str) -> (out: Option<i32>)
    ensures
        match out {
            Some(n) => closed_incognito(label@) == Some(n as int),
            None => closed_incognito(label@) is None,
        },
{
    if text::starts_with(label, "incognito_") {
        windows::label_number(label)
    } else {
        None
    }
}

/// The window that carries the name of a window without traces is told from it again.
pub proof fn law_incognito_name_read_back(id: int)
    requires
        i32::MIN <= id <= i32::MAX,
    ensures
        closed_incognito(windows::incognito_name(id)) == Some(id),
{
    windows::lemma_incognito_number(id);
    reveal_strlit("incognito_");
    let s = windows::incognito_name(id);
    assert(s.subrange(0, 10) =~= "incognito_"@);
}

/// The first of the files dropped on a window that can be installed, by the endings of their
/// names.
pub open spec fn installable(endings: Seq<Option<Seq<char>>>, i: int) -> Option<int>
    decreases endings.len() - i,
{
    if i >= endings.len() {
        None
    } else {
        match endings[i] {
            Some(e) if text::same_letters(e, "crx"@) || text::same_letters(e, "zip"@) => Some(i),
            _ => installable(endings, i + 1),
        }
    }
}

/// The views of a list of strings that may be absent.
pub open spec fn opt_list(v: Seq<Option<String>>) -> Seq<Option<Seq<char>>> {
    v.map_values(|s: Option<String>| text::opt_view(s))
}

/// The first of the files dropped on a window that can be installed.
pub fn dropped_extension(endings: &Vec<Option<String>>) -> (out: Option<usize>)
    ensures
        match out {
            Some(i) => i < endings@.len() && installable(opt_list(endings@), 0) == Some(i as int),
            None => installable(opt_list(endings@), 0) is None,
        },
{
    let ghost v = opt_list(endings@);
    for i in 0..endings.len()
        invariant
            v == opt_list(endings@),
            installable(v, 0) == installable(v, i as int),
    {
        assert(v[i as int] == text::opt_view(endings@[i as int]));
        if let Some(e) = &endings[i] {
            if text::eq_ignore_ascii_case(e.as_str(), "crx") || text::eq_ignore_ascii_case(
                e.as_str(),
                "zip",
            ) {
                return Some(i);
            }
        }
    }
    None
}

// ---- the layer above the page ----

/// A part of the window that takes clicks, in points.
#[derive(Clone, Copy, PartialEq, Eq, Debug, Structural)]
pub struct HitRect {
    pub x: i32,
    pub y: i32,
    pub width: i32,
    pub height: i32,
}

/// Where the layer above the page takes clicks.
pub enum OverlayRegion {
    Everywhere,
    /// In these parts, each from its upper left corner up to but not including its lower right
    /// one.
    Parts(Vec<(i32, i32, i64, i64)>),
}

/// The corners of the parts that are not empty, in their order.
pub open spec fn corners(rects: Seq<HitRect>) -> Seq<(int, int, int, int)>
    decreases rects.len(),
{
    if rects.len() == 0 {
        seq![]
    } else {
        let front = corners(rects.drop_last());
        let r = rects.last();
        if r.width > 0 && r.height > 0 {
            front.push((r.x as int, r.y as int, r.x + r.width, r.y + r.height))
        } else {
            front
        }
    }
}

/// Corners as plain numbers.
pub open spec fn corner_views(v: Seq<(i32, i32, i64, i64)>) -> Seq<(int, int, int, int)> {
    v.map_values(
        |c: (i32, i32, i64, i64)| (c.0 as int, c.1 as int, c.2 as int, c.3 as int),
    )
}

/// Where the layer above the page takes clicks: everywhere while it is in use or there is no page
/// below it; else in the parts that it has reported.
pub fn overlay_region(interactive: bool, has_content: bool, rects: &Vec<HitRect>) -> (out:
    OverlayRegion)
    ensures
        match out {
            OverlayRegion::Everywhere => interactive || !has_content,
            OverlayRegion::Parts(parts) => {
                &&& !interactive && has_content
                &&& corner_views(parts@) == corners(rects@)
            },
        },
{
    if interactive || !has_content {
        return OverlayRegion::Everywhere;
    }
    let mut parts: Vec<(i32, i32, i64, i64)> = Vec::new();
    assert(corner_views(parts@) =~= corners(rects@.take(0)));
    for i in 0..rects.len()
        invariant
            corner_views(parts@) == corners(rects@.take(i as int)),
    {
        let r: HitRect = rects[i];
        assert(rects@.take(i + 1).drop_last() =~= rects@.take(i as int));
        if r.width > 0 && r.height > 0 {
            let c: (i32, i32, i64, i64) = (
                r.x,
                r.y,
                r.x as i64 + r.width as i64,
                r.y as i64 + r.height as i64,
            );
            assert(corner_views(parts@.push(c)) =~= corner_views(parts@).push(
                (c.0 as int, c.1 as int, c.2 as int, c.3 as int),
            ));
            parts.push(c);
        }
    }
    assert(rects@.take(rects@.len() as int) =~= rects@);
    OverlayRegion::Parts(parts)
}

// ---- going somewhere ----

/// Where a line typed in a window leads.
pub struct NavPlan {
    pub url: String,
    /// The tab that goes there, if it still can; else a tab is made.
    pub tab_id: Option<i32>,
}

/// Where a line typed in a window leads. The number 0 stands for no tab.
pub fn nav_to(
    input: &str,
    tab_id: Option<i32>,
    engines: &[SearchEngine],
    search_setting: Option<String>,
) -> (out: NavPlan)
    ensures
        out.url@ == search::address_for(
            input@,
            engines@,
            search::default_template(text::opt_view(search_setting)),
        ),
        out.tab_id == if tab_id == Some(0i32) {
            None
        } else {
            tab_id
        },
{
    let template: String = search::default_search_url(search_setting);
    let url: String = search::resolve_input(input, engines, template.as_str());
    let tab: Option<i32> = match tab_id {
        Some(t) => if t == 0 {
            None
        } else {
            Some(t)
        },
        None => None,
    };
    NavPlan { url, tab_id: tab }
}

// ---- the tray ----

/// What a line of the tray's menu does.
#[derive(Clone, Copy, PartialEq, Eq, Debug, Structural)]
pub enum TrayAction {
    Summon,
    Palette,
    NewTab,
    Screenshot,
    Ocr,
    Quit,
    Nothing,
}

/// What a line of the tray's menu does, by its name.
pub open spec fn tray_named(id: Seq<char>) -> TrayAction {
    if id == "summon"@ {
        TrayAction::Summon
    } else if id == "palette"@ {
        TrayAction::Palette
    } else if id == "new_tab"@ {
        TrayAction::NewTab
    } else if id == "screenshot"@ {
        TrayAction::Screenshot
    } else if id == "ocr"@ {
        TrayAction::Ocr
    } else if id == "quit"@ {
        TrayAction::Quit
    } else {
        TrayAction::Nothing
    }
}

/// What a line of the tray's menu does.
pub fn tray_action(id: &str) -> (out: TrayAction)
    ensures
        out == tray_named(id@),
{
    if text::same(id, "summon") {
        TrayAction::Summon
    } else if text::same(id, "palette") {
        TrayAction::Palette
    } else if text::same(id, "new_tab") {
        TrayAction::NewTab
    } else if text::same(id, "screenshot") {
        TrayAction::Screenshot
    } else if text::same(id, "ocr") {
        TrayAction::Ocr
    } else if text::same(id, "quit") {
        TrayAction::Quit
    } else {
        TrayAction::Nothing
    }
}

// ---- what these amount to ----

/// The argument behind the name of the program is opened, whatever else follows, unless it begins
/// with two hyphens. Nothing is opened where there is none.
pub proof fn law_argument_opened(program: Seq<char>, arg: Seq<char>, more: Seq<Seq<char>>)
    requires
        arg.len() < 2 || arg[0] != '-' || arg[1] != '-',
    ensures
        argument_of(seq![program, arg] + more) == Some(arg),
        argument_of(seq![program, "--"@ + arg] + more) is None,
        argument_of(seq![program]) is None,
        argument_of(seq![]) is None,
{
    reveal_strlit("--");
    assert((seq![program, arg] + more)[1] == arg);
    assert((seq![program, "--"@ + arg] + more)[1] == "--"@ + arg);
    assert(("--"@ + arg).subrange(0, 2) =~= "--"@);
    if text::begins(arg, "--"@) {
        assert(arg.subrange(0, 2)[0] == '-' && arg.subrange(0, 2)[1] == '-');
    }
}

/// The window is not shown where the option stands anywhere among the arguments; without it, where
/// and only where the setting is `true`.
pub proof fn law_start_hidden(
    front: Seq<Seq<char>>,
    back: Seq<Seq<char>>,
    setting: Option<Seq<char>>,
)
    ensures
        starts_hidden(front.push("--minimized"@) + back, setting),
        !front.contains("--minimized"@) ==> (starts_hidden(front, setting) <==> setting == Some(
            "true"@,
        )),
{
    let all = front.push("--minimized"@) + back;
    assert(all[front.len() as int] == "--minimized"@);
}

/// Closing the first window keeps the program running unless the user has switched that off;
/// closing any other window closes it, whatever is set.
pub proof fn law_closing(label: Seq<char>, setting: Option<Seq<char>>)
    ensures
        label != "main"@ ==> closing(label, setting) == ControlStep::Close,
        closing("main"@, None) == ControlStep::HideToTray,
        closing("main"@, Some("true"@)) == ControlStep::HideToTray,
        closing("main"@, Some("false"@)) == ControlStep::Quit,
        closing("main"@, setting) == ControlStep::Quit ==> setting == Some("false"@),
{
    reveal_strlit("true");
    reveal_strlit("false");
    assert("true"@.len() != "false"@.len());
}

/// A file that can be installed: its name ends in `crx` or `zip`, in letters of either case.
pub open spec fn is_package_ending(e: Option<Seq<char>>) -> bool {
    match e {
        Some(s) => {
            ||| s.len() == 3 && (s[0] == 'c' || s[0] == 'C') && (s[1] == 'r' || s[1] == 'R') && (s[2]
                == 'x' || s[2] == 'X')
            ||| s.len() == 3 && (s[0] == 'z' || s[0] == 'Z') && (s[1] == 'i' || s[1] == 'I') && (s[2]
                == 'p' || s[2] == 'P')
        },
        None => false,
    }
}

proof fn lemma_installable(endings: Seq<Option<Seq<char>>>, i: int)
    requires
        0 <= i <= endings.len(),
    ensures
        match installable(endings, i) {
            Some(k) => i <= k < endings.len() && is_package_ending(endings[k]) && forall|j: int|
                i <= j < k ==> !is_package_ending(#[trigger] endings[j]),
            None => forall|j: int| i <= j < endings.len() ==> !is_package_ending(#[trigger] endings[j]),
        },
    decreases endings.len() - i,
{
    if i < endings.len() {
        lemma_installable(endings, i + 1);
        if endings[i] is Some {
            let e = endings[i]->0;
            reveal_strlit("crx");
            reveal_strlit("zip");
            text::law_same_letters(e, "crx"@);
            text::law_same_letters(e, "zip"@);
            if is_package_ending(endings[i]) {
                assert(text::same_letters(e, "crx"@) || text::same_letters(e, "zip"@));
            }
            if text::same_letters(e, "crx"@) {
                assert(e[0] as int >= 0 && e[1] as int >= 0 && e[2] as int >= 0);
                assert(is_package_ending(endings[i]));
            }
            if text::same_letters(e, "zip"@) {
                assert(e[0] as int >= 0 && e[1] as int >= 0 && e[2] as int >= 0);
                assert(is_package_ending(endings[i]));
            }
        }
    }
}

/// Of the files dropped on a window the first one is installed that can be, and none where none can
/// be.
pub proof fn law_first_package_installed(endings: Seq<Option<Seq<char>>>)
    ensures
        match installable(endings, 0) {
            Some(k) => 0 <= k < endings.len() && is_package_ending(endings[k]) && forall|j: int|
                0 <= j < k ==> !is_package_ending(#[trigger] endings[j]),
            None => forall|j: int| 0 <= j < endings.len() ==> !is_package_ending(#[trigger] endings[j]),
        },
{
    lemma_installable(endings, 0);
}

/// A place lies in a part of the window.
pub open spec fn in_rect(r: HitRect, x: int, y: int) -> bool {
    r.x <= x < r.x + r.width && r.y <= y < r.y + r.height
}

/// A place lies between two corners.
pub open spec fn in_corners(c: (int, int, int, int), x: int, y: int) -> bool {
    c.0 <= x < c.2 && c.1 <= y < c.3
}

/// The layer takes the clicks in the parts that were reported and nowhere else.
pub proof fn law_clicks_taken(rects: Seq<HitRect>, x: int, y: int)
    ensures
        (exists|i: int| 0 <= i < rects.len() && in_rect(#[trigger] rects[i], x, y)) <==> (exists|k: int|
            0 <= k < corners(rects).len() && in_corners(#[trigger] corners(rects)[k], x, y)),
    decreases rects.len(),
{
    if rects.len() > 0 {
        let front = rects.drop_last();
        let c = corners(rects);
        let d = corners(front);
        law_clicks_taken(front, x, y);
        if exists|i: int| 0 <= i < rects.len() && in_rect(#[trigger] rects[i], x, y) {
            let i = choose|i: int| 0 <= i < rects.len() && in_rect(#[trigger] rects[i], x, y);
            if i < front.len() {
                assert(in_rect(front[i], x, y));
                let k = choose|k: int| 0 <= k < d.len() && in_corners(#[trigger] d[k], x, y);
                assert(in_corners(c[k], x, y));
            } else {
                assert(in_corners(c[c.len() - 1], x, y));
            }
        }
        if exists|k: int| 0 <= k < c.len() && in_corners(#[trigger] c[k], x, y) {
            let k = choose|k: int| 0 <= k < c.len() && in_corners(#[trigger] c[k], x, y);
            if k < d.len() {
                assert(in_corners(d[k], x, y));
                let i = choose|i: int| 0 <= i < front.len() && in_rect(#[trigger] front[i], x, y);
                assert(in_rect(rects[i], x, y));
            } else {
                assert(in_rect(rects[rects.len() - 1], x, y));
            }
        }
    }
}

/// Every line of the tray's menu does something of its own, and nothing else does anything.
pub proof fn law_tray_lines(id: Seq<char>)
    ensures
        tray_named("summon"@) == TrayAction::Summon,
        tray_named("palette"@) == TrayAction::Palette,
        tray_named("new_tab"@) == TrayAction::NewTab,
        tray_named("screenshot"@) == TrayAction::Screenshot,
        tray_named("ocr"@) == TrayAction::Ocr,
        tray_named("quit"@) == TrayAction::Quit,
        tray_named(id) != TrayAction::Nothing ==> id == "summon"@ || id == "palette"@ || id
            == "new_tab"@ || id == "screenshot"@ || id == "ocr"@ || id == "quit"@,
{
    reveal_strlit("summon");
    reveal_strlit("palette");
    reveal_strlit("new_tab");
    reveal_strlit("screenshot");
    reveal_strlit("ocr");
    reveal_strlit("quit");
    assert("summon"@.len() == 6 && "screenshot"@.len() == 10 && "ocr"@.len() == 3 && "quit"@.len()
        == 4);
    assert("palette"@[0] == 'p' && "new_tab"@[0] == 'n');
    assert("palette"@.len() == 7 && "new_tab"@.len() == 7);
}

/// A window is told to be one without traces by its name alone: no further window is taken for one.
pub proof fn law_other_windows_kept(id: int)
    ensures
        closed_incognito(windows::main_name(id)) is None,
        closed_incognito("main"@) is None,
{
    reveal_strlit("incognito_");
    reveal_strlit("main_");
    reveal_strlit("main");
    let s = windows::main_name(id);
    if text::begins(s, "incognito_"@) {
        assert(s.subrange(0, 10)[0] == 'i');
        assert(s[0] == 'm');
    }
}

/// No part that takes clicks is empty, and no more of them are left than were reported; with those
/// that are empty left out, the reported ones are kept as they are and in their order.
pub proof fn law_no_empty_parts(rects: Seq<HitRect>)
    ensures
        corners(rects).len() <= rects.len(),
        forall|k: int|
            0 <= k < corners(rects).len() ==> (#[trigger] corners(rects)[k]).0 < corners(rects)[k].2
                && corners(rects)[k].1 < corners(rects)[k].3,
        (forall|i: int| 0 <= i < rects.len() ==> (#[trigger] rects[i]).width > 0 && rects[i].height > 0)
            ==> corners(rects).len() == rects.len() && forall|i: int|
            0 <= i < rects.len() ==> (#[trigger] corners(rects)[i]).0 == rects[i].x && corners(
                rects,
            )[i].1 == rects[i].y,
    decreases rects.len(),
{
    if rects.len() > 0 {
        let front = rects.drop_last();
        law_no_empty_parts(front);
        if forall|i: int| 0 <= i < rects.len() ==> (#[trigger] rects[i]).width > 0 && rects[i].height > 0 {
            assert forall|i: int| 0 <= i < front.len() implies (#[trigger] front[i]).width > 0
                && front[i].height > 0 by {
                assert(front[i] == rects[i]);
            }
            assert(rects[rects.len() - 1].width > 0);
            assert forall|i: int| 0 <= i < rects.len() implies (#[trigger] corners(rects)[i]).0
                == rects[i].x && corners(rects)[i].1 == rects[i].y by {
                if i < front.len() {
                    assert(corners(rects)[i] == corners(front)[i]);
                    assert(front[i] == rects[i]);
                }
            }
        }
    }
}

} // verus!
