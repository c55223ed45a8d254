//! Keys that work from anywhere: what they are bound to and what they do.

use vstd::prelude::*;
use vstd::string::*;
use crate::ipc_types::QuickLaunchItem;
use crate::text;

verus! {

/// An action and the combination of keys that it is bound to.
#[derive(Clone, Debug)]
pub struct HotkeyItem {
    pub action: String,
    pub shortcut: String,
}

impl HotkeyItem {
    /// The same binding once more.
    pub fn copy(&self) -> (out: HotkeyItem)
        ensures
            out == *self,
    {
        HotkeyItem { action: self.action.clone(), shortcut: self.shortcut.clone() }
    }
}

/// The bindings of a list.
pub open spec fn bindings(v: Seq<HotkeyItem>) -> Seq<(Seq<char>, Seq<char>)> {
    v.map_values(|h: HotkeyItem| (h.action@, h.shortcut@))
}

/// The bindings that the program comes with.
pub open spec fn preset() -> Seq<(Seq<char>, Seq<char>)> {
    seq![
        ("summon"@, "Ctrl+Shift+Space"@),
        ("palette"@, "Ctrl+Alt+Space"@),
        ("screenshot"@, "Ctrl+Alt+S"@),
        ("ocr"@, "Ctrl+Alt+T"@),
        ("incognito"@, "Ctrl+Alt+N"@),
        ("addressbar"@, "Ctrl+Alt+L"@),
        ("aichat"@, "Ctrl+Alt+A"@),
        ("leader"@, "Ctrl+Space"@),
    ]
}

fn binding(action: &str, shortcut: &str) -> (out: HotkeyItem)
    ensures
        out.action@ == action@,
        out.shortcut@ == shortcut@,
{
    HotkeyItem { action: action.to_owned(), shortcut: shortcut.to_owned() }
}

/// The bindings that the program comes with.
pub fn default_hotkeys() -> (out: Vec<HotkeyItem>)
    ensures
        bindings(out@) == preset(),
{
    let mut out: Vec<HotkeyItem> = Vec::new();
    out.push(binding("summon", "Ctrl+Shift+Space"));
    out.push(binding("palette", "Ctrl+Alt+Space"));
    out.push(binding("screenshot", "Ctrl+Alt+S"));
    out.push(binding("ocr", "Ctrl+Alt+T"));
    out.push(binding("incognito", "Ctrl+Alt+N"));
    out.push(binding("addressbar", "Ctrl+Alt+L"));
    out.push(binding("aichat", "Ctrl+Alt+A"));
    out.push(binding("leader", "Ctrl+Space"));
    assert(bindings(out@) =~= preset());
    out
}

/// The first position, from `i` on, of the action.
pub open spec fn action_at(
    b: Seq<(Seq<char>, Seq<char>)>,
    action: Seq<char>,
    i: int,
) -> Option<int>
    decreases b.len() - i,
{
    if i >= b.len() {
        None
    } else if b[i].0 == action {
        Some(i)
    } else {
        action_at(b, action, i + 1)
    }
}

/// The bindings with the action bound anew; an action that is not among them is put at the end.
pub open spec fn rebound(
    b: Seq<(Seq<char>, Seq<char>)>,
    action: Seq<char>,
    shortcut: Seq<char>,
) -> Seq<(Seq<char>, Seq<char>)> {
    match action_at(b, action, 0) {
        Some(i) => b.update(i, (b[i].0, shortcut)),
        None => b.push((action, shortcut)),
    }
}

/// The bindings with the first `n` that were saved laid over them. A binding without keys is
/// passed over.
pub open spec fn overlaid(
    b: Seq<(Seq<char>, Seq<char>)>,
    saved: Seq<(Seq<char>, Seq<char>)>,
    n: int,
) -> Seq<(Seq<char>, Seq<char>)>
    decreases n,
{
    if n <= 0 {
        b
    } else {
        let before = overlaid(b, saved, n - 1);
        let (action, shortcut) = saved[n - 1];
        if text::trimmed(shortcut).len() == 0 {
            before
        } else {
            rebound(before, action, shortcut)
        }
    }
}

fn rebind(list: &mut Vec<HotkeyItem>, action: String, shortcut: String)
    ensures
        bindings(final(list)@) == rebound(bindings(old(list)@), action@, shortcut@),
{
    let ghost b = bindings(list@);
    let n: usize = list.len();
    for i in 0..n
        invariant
            n == list@.len(),
            b == bindings(list@),
            list@ == old(list)@,
            action_at(b, action@, 0) == action_at(b, action@, i as int),
    {
        assert(b[i as int] == (list@[i as int].action@, list@[i as int].shortcut@));
        if text::same(list[i].action.as_str(), action.as_str()) {
            list[i].shortcut = shortcut;
            assert(bindings(list@) =~= b.update(i as int, (b[i as int].0, shortcut@)));
            return;
        }
    }
    let ghost item = (action@, shortcut@);
    list.push(HotkeyItem { action, shortcut });
    assert(bindings(list@) =~= b.push(item));
}

/// The bindings in use: those that the program comes with, and those that the user has saved laid
/// over them.
pub fn get_hotkeys_sync(saved: Option<Vec<HotkeyItem>>) -> (out: Vec<HotkeyItem>)
    ensures
        bindings(out@) == match saved {
            Some(s) => overlaid(preset(), bindings(s@), s@.len() as int),
            None => preset(),
        },
{
    let mut out: Vec<HotkeyItem> = default_hotkeys();
    if let Some(s) = saved {
        let ghost b = bindings(s@);
        for i in 0..s.len()
            invariant
                b == bindings(s@),
                bindings(out@) == overlaid(preset(), b, i as int),
        {
            assert(b[i as int] == (s@[i as int].action@, s@[i as int].shortcut@));
            let trimmed: String = text::trim(s[i].shortcut.as_str());
            if !trimmed.as_str().is_empty() {
                rebind(&mut out, s[i].action.clone(), s[i].shortcut.clone());
            }
        }
    }
    out
}

/// Every action of the program stays bound to some keys, whatever was saved.
pub proof fn law_actions_stay_bound(saved: Seq<(Seq<char>, Seq<char>)>, n: int)
    requires
        0 <= n <= saved.len(),
    ensures
        overlaid(preset(), saved, n).len() >= preset().len(),
        forall|i: int|
            0 <= i < preset().len() ==> (#[trigger] overlaid(preset(), saved, n)[i]).0
                == preset()[i].0,
        forall|i: int|
            0 <= i < overlaid(preset(), saved, n).len() ==> text::trimmed(
                (#[trigger] overlaid(preset(), saved, n)[i]).1,
            ).len() > 0,
    decreases n,
{
    if n > 0 {
        law_actions_stay_bound(saved, n - 1);
        let before = overlaid(preset(), saved, n - 1);
        lemma_action_at(before, saved[n - 1].0, 0);
        let after = overlaid(preset(), saved, n);
        assert forall|i: int| 0 <= i < after.len() implies text::trimmed(
            (#[trigger] after[i]).1,
        ).len() > 0 by {
            if i < before.len() {
                assert(text::trimmed(before[i].1).len() > 0);
            }
        }
        assert forall|i: int| 0 <= i < preset().len() implies (#[trigger] after[i]).0
            == preset()[i].0 by {
            assert(before[i].0 == preset()[i].0);
        }
    } else {
        lemma_preset();
    }
}

proof fn lemma_action_at(b: Seq<(Seq<char>, Seq<char>)>, action: Seq<char>, i: int)
    requires
        0 <= i <= b.len(),
    ensures
        action_at(b, action, i) matches Some(k) ==> i <= k < b.len() && b[k].0 == action,
        action_at(b, action, i) is None ==> forall|j: int|
            i <= j < b.len() ==> (#[trigger] b[j]).0 != action,
    decreases b.len() - i,
{
    if i < b.len() && b[i].0 != action {
        lemma_action_at(b, action, i + 1);
    }
}

/// A text that begins and ends in something other than white space is not changed by trimming.
proof fn lemma_trimmed_solid(s: Seq<char>)
    requires
        s.len() > 0,
        !text::is_white(s[0]),
        !text::is_white(s.last()),
    ensures
        text::trimmed(s) == s,
{
}

proof fn lemma_preset()
    ensures
        forall|i: int|
            0 <= i < preset().len() ==> text::trimmed((#[trigger] preset()[i]).1).len() > 0,
{
    reveal_strlit("Ctrl+Shift+Space");
    reveal_strlit("Ctrl+Alt+Space");
    reveal_strlit("Ctrl+Alt+S");
    reveal_strlit("Ctrl+Alt+T");
    reveal_strlit("Ctrl+Alt+N");
    reveal_strlit("Ctrl+Alt+L");
    reveal_strlit("Ctrl+Alt+A");
    reveal_strlit("Ctrl+Space");
    assert forall|i: int| 0 <= i < preset().len() implies text::trimmed(
        (#[trigger] preset()[i]).1,
    ).len() > 0 by {
        lemma_trimmed_solid(preset()[i].1);
    }
}

/// Whether a sequence is a single combination of keys, to be pressed without the leader key.
pub open spec fn is_plain(sequence: Seq<char>) -> bool {
    !sequence.contains(',')
}

/// Whether the combination is bound to another action.
pub open spec fn taken_by_action(
    b: Seq<(Seq<char>, Seq<char>)>,
    action: Seq<char>,
    shortcut: Seq<char>,
) -> bool {
    exists|i: int|
        0 <= i < b.len() && (#[trigger] b[i]).0 != action && text::same_letters(b[i].1, shortcut)
}

/// Whether the combination opens a slot.
pub open spec fn taken_by_slot(slots: Seq<QuickLaunchItem>, shortcut: Seq<char>) -> bool {
    exists|i: int|
        0 <= i < slots.len() && is_plain((#[trigger] slots[i]).sequence@) && text::same_letters(
            slots[i].sequence@,
            shortcut,
        )
}

/// Why an action cannot be bound to a combination, if it cannot.
pub open spec fn rebind_fault(
    valid: bool,
    b: Seq<(Seq<char>, Seq<char>)>,
    slots: Seq<QuickLaunchItem>,
    action: Seq<char>,
    shortcut: Seq<char>,
) -> Option<Seq<char>> {
    if !valid {
        Some("'"@ + shortcut + "' is not a valid shortcut"@)
    } else if taken_by_action(b, action, shortcut) {
        Some("combo '"@ + shortcut + "' is already in use"@)
    } else if taken_by_slot(slots, shortcut) {
        Some("combo '"@ + shortcut + "' is already in use by a quick-launch slot"@)
    } else {
        None
    }
}

/// Binds an action to a combination of keys. `valid` says whether the combination can be read as
/// one.
pub fn hotkey_rebind(
    action: String,
    shortcut: String,
    valid: bool,
    current: Vec<HotkeyItem>,
    slots: &Vec<QuickLaunchItem>,
) -> (out: Result<Vec<HotkeyItem>, String>)
    ensures
        match out {
            Ok(list) => {
                &&& rebind_fault(valid, bindings(current@), slots@, action@, shortcut@) is None
                &&& bindings(list@) == rebound(bindings(current@), action@, shortcut@)
            },
            Err(e) => rebind_fault(valid, bindings(current@), slots@, action@, shortcut@) == Some(
                e@,
            ),
        },
{
    if !valid {
        return Err(text::concat3("'", shortcut.as_str(), "' is not a valid shortcut"));
    }
    let ghost b = bindings(current@);
    for i in 0..current.len()
        invariant
            b == bindings(current@),
            forall|j: int|
                0 <= j < i ==> (#[trigger] b[j]).0 == action@ || !text::same_letters(
                    b[j].1,
                    shortcut@,
                ),
            valid,
    {
        assert(b[i as int] == (current@[i as int].action@, current@[i as int].shortcut@));
        if !text::same(current[i].action.as_str(), action.as_str()) && text::eq_ignore_ascii_case(
            current[i].shortcut.as_str(),
            shortcut.as_str(),
        ) {
            return Err(text::concat3("combo '", shortcut.as_str(), "' is already in use"));
        }
    }
    for i in 0..slots.len()
        invariant
            valid,
            !taken_by_action(b, action@, shortcut@),
            b == bindings(current@),
            forall|j: int|
                0 <= j < i ==> !is_plain((#[trigger] slots@[j]).sequence@) || !text::same_letters(
                    slots@[j].sequence@,
                    shortcut@,
                ),
    {
        if !text::contains_char(slots[i].sequence.as_str(), ',') && text::eq_ignore_ascii_case(
            slots[i].sequence.as_str(),
            shortcut.as_str(),
        ) {
            assert(is_plain(slots@[i as int].sequence@));
            return Err(
                text::concat3(
                    "combo '",
                    shortcut.as_str(),
                    "' is already in use by a quick-launch slot",
                ),
            );
        }
    }
    let mut list: Vec<HotkeyItem> = current;
    rebind(&mut list, action, shortcut);
    Ok(list)
}

/// No two different actions share a combination, letter case aside.
pub open spec fn distinct(b: Seq<(Seq<char>, Seq<char>)>) -> bool {
    forall|i: int, j: int|
        0 <= i < b.len() && 0 <= j < b.len() && (#[trigger] b[i]).0 != (#[trigger] b[j]).0
            ==> !text::same_letters(b[i].1, b[j].1)
}

/// Binding an action that may be bound never makes two actions share a combination.
pub proof fn law_rebind_keeps_distinct(
    b: Seq<(Seq<char>, Seq<char>)>,
    action: Seq<char>,
    shortcut: Seq<char>,
)
    requires
        distinct(b),
        !taken_by_action(b, action, shortcut),
    ensures
        distinct(rebound(b, action, shortcut)),
{
    lemma_action_at(b, action, 0);
    let r = rebound(b, action, shortcut);
    assert forall|i: int, j: int|
        0 <= i < r.len() && 0 <= j < r.len() && (#[trigger] r[i]).0 != (
        #[trigger] r[j]).0 implies !text::same_letters(r[i].1, r[j].1) by {
        if i < b.len() {
            assert(b[i].0 == r[i].0);
        }
        if j < b.len() {
            assert(b[j].0 == r[j].0);
        }
    }
}

// ---- registering ----

/// What became of registering a combination of keys.
#[derive(Clone, Copy, PartialEq, Eq, Debug, Structural)]
pub enum Registration {
    Registered,
    /// Another program has it.
    Refused,
    /// It cannot be read as one.
    Invalid,
}

/// The combinations that are to be registered: those of the actions, and the sequences of slots
/// that are single combinations.
pub open spec fn combos_of(hotkeys: Seq<HotkeyItem>, slots: Seq<QuickLaunchItem>) -> Seq<
    Seq<char>,
> {
    hotkeys.map_values(|h: HotkeyItem| h.shortcut@) + plain_sequences(slots)
}

/// The sequences of slots that are single combinations, in their order.
pub open spec fn plain_sequences(slots: Seq<QuickLaunchItem>) -> Seq<Seq<char>>
    decreases slots.len(),
{
    if slots.len() == 0 {
        seq![]
    } else {
        let front = plain_sequences(slots.drop_last());
        if is_plain(slots.last().sequence@) {
            front.push(slots.last().sequence@)
        } else {
            front
        }
    }
}

/// The combinations that are to be registered.
pub fn combos(hotkeys: &Vec<HotkeyItem>, slots: &Vec<QuickLaunchItem>) -> (out: Vec<String>)
    ensures
        text::views(out@) == combos_of(hotkeys@, slots@),
{
    let mut out: Vec<String> = Vec::new();
    let ghost first = hotkeys@.map_values(|h: HotkeyItem| h.shortcut@);
    for i in 0..hotkeys.len()
        invariant
            first == hotkeys@.map_values(|h: HotkeyItem| h.shortcut@),
            text::views(out@) == first.take(i as int),
    {
        let s: String = hotkeys[i].shortcut.clone();
        assert(text::views(out@.push(s)) =~= text::views(out@).push(s@));
        assert(first.take(i + 1) =~= first.take(i as int).push(first[i as int]));
        out.push(s);
    }
    assert(first.take(hotkeys@.len() as int) =~= first);
    assert(slots@.take(0) =~= Seq::empty());
    assert(first + plain_sequences(Seq::empty()) =~= first);
    for i in 0..slots.len()
        invariant
            text::views(out@) == first + plain_sequences(slots@.take(i as int)),
    {
        let ghost before = plain_sequences(slots@.take(i as int));
        assert(slots@.take(i + 1).drop_last() =~= slots@.take(i as int));
        if !text::contains_char(slots[i].sequence.as_str(), ',') {
            let s: String = slots[i].sequence.clone();
            assert(text::views(out@.push(s)) =~= text::views(out@).push(s@));
            assert((first + before).push(s@) =~= first + before.push(s@));
            out.push(s);
        }
    }
    assert(slots@.take(slots@.len() as int) =~= slots@);
    out
}

/// The combinations, of the first `n`, that could not be registered. Of the first `own` also
/// those count that cannot be read: they belong to actions, the others to slots.
pub open spec fn failures_of(
    results: Seq<(Seq<char>, Registration)>,
    own: int,
    n: int,
) -> Seq<Seq<char>>
    decreases n,
{
    if n <= 0 {
        seq![]
    } else {
        let front = failures_of(results, own, n - 1);
        let (combo, r) = results[n - 1];
        if r == Registration::Refused || (r == Registration::Invalid && n <= own) {
            front.push(combo)
        } else {
            front
        }
    }
}

/// The results of a list.
pub open spec fn result_views(v: Seq<(String, Registration)>) -> Seq<(Seq<char>, Registration)> {
    v.map_values(|r: (String, Registration)| (r.0@, r.1))
}

/// What the user is told of combinations that could not be registered; nothing where all could.
pub fn registration_message(results: &Vec<(String, Registration)>, own: usize) -> (out: Option<
    String,
>)
    ensures
        text::opt_view(out) == ({
            let failed = failures_of(result_views(results@), own as int, results@.len() as int);
            if failed.len() == 0 {
                None
            } else {
                Some(
                    "Hotkey "@ + text::joined(failed, ", "@)
                        + " couldn't be registered (in use by another app)"@,
                )
            }
        }),
{
    let mut failed: Vec<String> = Vec::new();
    let ghost v = result_views(results@);
    assert(text::views(failed@) =~= failures_of(v, own as int, 0));
    for i in 0..results.len()
        invariant
            v == result_views(results@),
            text::views(failed@) == failures_of(v, own as int, i as int),
    {
        assert(v[i as int] == (results@[i as int].0@, results@[i as int].1));
        let counts: bool = match results[i].1 {
            Registration::Refused => true,
            Registration::Invalid => i < own,
            Registration::Registered => false,
        };
        if counts {
            let s: String = results[i].0.clone();
            assert(text::views(failed@.push(s)) =~= text::views(failed@).push(s@));
            failed.push(s);
        }
    }
    if failed.len() == 0 {
        return None;
    }
    let all: String = text::join(&failed, ", ");
    Some(
        text::concat3("Hotkey ", all.as_str(), " couldn't be registered (in use by another app)"),
    )
}

// ---- pressing ----

/// What an action does.
#[derive(Clone, Copy, PartialEq, Eq, Debug, Structural)]
pub enum HotkeyAction {
    /// The window comes to the front or, if it is there, goes away.
    Summon,
    Palette,
    AddressBar,
    Screenshot,
    Ocr,
    Incognito,
    AiChat,
    /// A sequence of keys begins.
    Leader,
    Unknown,
}

/// What an action does, by its name.
pub open spec fn action_named(name: Seq<char>) -> HotkeyAction {
    if name == "summon"@ {
        HotkeyAction::Summon
    } else if name == "palette"@ {
        HotkeyAction::Palette
    } else if name == "addressbar"@ {
        HotkeyAction::AddressBar
    } else if name == "screenshot"@ {
        HotkeyAction::Screenshot
    } else if name == "ocr"@ {
        HotkeyAction::Ocr
    } else if name == "incognito"@ {
        HotkeyAction::Incognito
    } else if name == "aichat"@ {
        HotkeyAction::AiChat
    } else if name == "leader"@ {
        HotkeyAction::Leader
    } else {
        HotkeyAction::Unknown
    }
}

fn find_action(name: &str) -> (out: HotkeyAction)
    ensures
        out == action_named(name@),
{
    if text::same(name, "summon") {
        HotkeyAction::Summon
    } else if text::same(name, "palette") {
        HotkeyAction::Palette
    } else if text::same(name, "addressbar") {
        HotkeyAction::AddressBar
    } else if text::same(name, "screenshot") {
        HotkeyAction::Screenshot
    } else if text::same(name, "ocr") {
        HotkeyAction::Ocr
    } else if text::same(name, "incognito") {
        HotkeyAction::Incognito
    } else if text::same(name, "aichat") {
        HotkeyAction::AiChat
    } else if text::same(name, "leader") {
        HotkeyAction::Leader
    } else {
        HotkeyAction::Unknown
    }
}

/// What pressing a combination does.
pub enum Press {
    Action(HotkeyAction),
    Launch(QuickLaunchItem),
    Nothing,
}

/// The first position, from `i` on, at which the list says yes.
pub open spec fn first_yes(v: Seq<bool>, i: int) -> Option<int>
    decreases v.len() - i,
{
    if i >= v.len() {
        None
    } else if v[i] {
        Some(i)
    } else {
        first_yes(v, i + 1)
    }
}

/// The first position, from `i` on, of a slot that is a single combination and was pressed.
pub open spec fn pressed_slot(
    slots: Seq<QuickLaunchItem>,
    hits: Seq<bool>,
    i: int,
) -> Option<int>
    decreases slots.len() - i,
{
    if i >= slots.len() {
        None
    } else if is_plain(slots[i].sequence@) && hits[i] {
        Some(i)
    } else {
        pressed_slot(slots, hits, i + 1)
    }
}

/// What pressing a combination does. The two lists of answers say for each action and for each
/// slot whether the combination is its own. Actions come before slots.
pub fn hotkey_pressed(
    hotkeys: &Vec<HotkeyItem>,
    hits: &Vec<bool>,
    slots: &Vec<QuickLaunchItem>,
    slot_hits: &Vec<bool>,
) -> (out: Press)
    requires
        hits@.len() == hotkeys@.len(),
        slot_hits@.len() == slots@.len(),
    ensures
        match first_yes(hits@, 0) {
            Some(i) => out == Press::Action(action_named(hotkeys@[i].action@)),
            None => match pressed_slot(slots@, slot_hits@, 0) {
                Some(i) => out == Press::Launch(slots@[i]),
                None => out is Nothing,
            },
        },
{
    for i in 0..hits.len()
        invariant
            hits@.len() == hotkeys@.len(),
            first_yes(hits@, 0) == first_yes(hits@, i as int),
    {
        if hits[i] {
            return Press::Action(find_action(hotkeys[i].action.as_str()));
        }
    }
    for i in 0..slots.len()
        invariant
            slot_hits@.len() == slots@.len(),
            first_yes(hits@, 0) is None,
            pressed_slot(slots@, slot_hits@, 0) == pressed_slot(slots@, slot_hits@, i as int),
    {
        if !text::contains_char(slots[i].sequence.as_str(), ',') && slot_hits[i] {
            return Press::Launch(slots[i].copy());
        }
    }
    Press::Nothing
}

/// Whether pressing the key for the window sends it away: it is there, and in front.
pub fn summon_hides(visible: bool, focused: bool) -> (out: bool)
    ensures
        out == (visible && focused),
{
    visible && focused
}

/// The address of the chatbot: the one that the user has set, if it is one, without the place for
/// a question.
pub open spec fn chat_address(setting: Option<Seq<char>>) -> Seq<char> {
    text::replaced(
        match setting {
            Some(s) if text::begins(s, "http"@) => s,
            _ => "https://chatgpt.com/"@,
        },
        "%s"@,
        seq![],
    )
}

/// The address of the chatbot.
pub fn ai_chat_url(setting: Option<String>) -> (out: String)
    ensures
        out@ == chat_address(text::opt_view(setting)),
{
    proof {
        reveal_strlit("%s");
        reveal_strlit("");
        assert(""@ =~= Seq::empty());
    }
    let mut raw: String = "https://chatgpt.com/".to_owned();
    if let Some(s) = setting {
        if text::starts_with(s.as_str(), "http") {
            raw = s;
        }
    }
    text::replace(raw.as_str(), "%s", "")
}

// ---- what these amount to ----

/// No two of the actions that the program comes with share a combination, and each of them is
/// known by its name.
pub proof fn law_preset(i: int)
    requires
        0 <= i < preset().len(),
    ensures
        preset().len() == 8,
        distinct(preset()),
        action_named(preset()[i].0) != HotkeyAction::Unknown,
        forall|j: int| 0 <= j < 8 && #[trigger] preset()[j].0 == preset()[i].0 ==> j == i,
{
    reveal_strlit("summon");
    reveal_strlit("palette");
    reveal_strlit("screenshot");
    reveal_strlit("ocr");
    reveal_strlit("incognito");
    reveal_strlit("addressbar");
    reveal_strlit("aichat");
    reveal_strlit("leader");
    reveal_strlit("Ctrl+Shift+Space");
    reveal_strlit("Ctrl+Alt+Space");
    reveal_strlit("Ctrl+Alt+S");
    reveal_strlit("Ctrl+Alt+T");
    reveal_strlit("Ctrl+Alt+N");
    reveal_strlit("Ctrl+Alt+L");
    reveal_strlit("Ctrl+Alt+A");
    reveal_strlit("Ctrl+Space");
    let p = preset();
    assert("summon"@[1] == 'u' && "aichat"@[1] == 'i' && "leader"@[1] == 'e');
    assert("summon"@.len() == 6 && "aichat"@.len() == 6 && "leader"@.len() == 6);
    assert("palette"@.len() == 7 && "ocr"@.len() == 3 && "incognito"@.len() == 9);
    assert("screenshot"@[0] == 's' && "addressbar"@[0] == 'a');
    assert("screenshot"@.len() == 10 && "addressbar"@.len() == 10);
    assert forall|a: int, b: int|
        0 <= a < p.len() && 0 <= b < p.len() && (#[trigger] p[a]).0 != (
        #[trigger] p[b]).0 implies !text::same_letters(p[a].1, p[b].1) by {
        text::law_same_letters(p[a].1, p[b].1);
        assert(a != b);
        if text::same_letters(p[a].1, p[b].1) {
            assert(p[a].1.len() == p[b].1.len());
            assert(p[a].1[9] as int >= 0 && p[b].1[9] as int >= 0);
        }
    }
}

/// Once it has been bound, an action has the new combination, and every other one has what it had.
pub proof fn law_rebound(
    b: Seq<(Seq<char>, Seq<char>)>,
    action: Seq<char>,
    shortcut: Seq<char>,
    other: Seq<char>,
)
    ensures
        ({
            let r = rebound(b, action, shortcut);
            &&& action_at(r, action, 0) matches Some(k) && r[k] == (action, shortcut)
            &&& other != action ==> action_at(r, other, 0) == action_at(b, other, 0)
            &&& other != action ==> (action_at(b, other, 0) matches Some(k) ==> r[k] == b[k])
            &&& r.len() == b.len() || r.len() == b.len() + 1
        }),
{
    let r = rebound(b, action, shortcut);
    lemma_action_first(b, action, 0);
    lemma_action_first(b, other, 0);
    lemma_action_first(r, action, 0);
    lemma_action_first(r, other, 0);
    assert forall|j: int| 0 <= j < b.len() implies (#[trigger] r[j]).0 == b[j].0 by {}
    match action_at(b, action, 0) {
        Some(i) => {
            assert(r[i].0 == action);
            let k = action_at(r, action, 0)->0;
            if k < i {
                assert(b[k].0 == action);
            }
        },
        None => {
            assert(r[b.len() as int].0 == action);
            let k = action_at(r, action, 0)->0;
            if k < b.len() {
                assert(b[k].0 == action);
            }
        },
    }
    if other != action {
        if action_at(b, other, 0) is Some {
            let k = action_at(b, other, 0)->0;
            assert(r[k].0 == other);
            let l = action_at(r, other, 0)->0;
            if l < k {
                assert(b[l].0 == other);
            }
        } else if action_at(r, other, 0) is Some {
            let l = action_at(r, other, 0)->0;
            if l < b.len() {
                assert(b[l].0 == other);
            }
        }
    }
}

proof fn lemma_action_first(b: Seq<(Seq<char>, Seq<char>)>, action: Seq<char>, i: int)
    requires
        0 <= i <= b.len(),
    ensures
        match action_at(b, action, i) {
            Some(k) => i <= k < b.len() && b[k].0 == action && forall|j: int|
                i <= j < k ==> (#[trigger] b[j]).0 != action,
            None => forall|j: int| i <= j < b.len() ==> (#[trigger] b[j]).0 != action,
        },
    decreases b.len() - i,
{
    if i < b.len() && b[i].0 != action {
        lemma_action_first(b, action, i + 1);
    }
}

proof fn lemma_overlaid_front(
    b: Seq<(Seq<char>, Seq<char>)>,
    saved: Seq<(Seq<char>, Seq<char>)>,
    more: Seq<(Seq<char>, Seq<char>)>,
    n: int,
)
    requires
        0 <= n <= saved.len(),
        n <= more.len(),
        forall|i: int| 0 <= i < n ==> saved[i] == more[i],
    ensures
        overlaid(b, saved, n) == overlaid(b, more, n),
    decreases n,
{
    if n > 0 {
        lemma_overlaid_front(b, saved, more, n - 1);
    }
}

/// What was saved last of an action is what it is bound to, unless that is blank; then it changes
/// nothing. The other actions keep what they had.
pub proof fn law_saved_last(
    b: Seq<(Seq<char>, Seq<char>)>,
    saved: Seq<(Seq<char>, Seq<char>)>,
    action: Seq<char>,
    shortcut: Seq<char>,
    other: Seq<char>,
)
    ensures
        ({
            let before = overlaid(b, saved, saved.len() as int);
            let after = overlaid(b, saved.push((action, shortcut)), saved.len() + 1int);
            &&& text::all_white(shortcut) ==> after == before
            &&& !text::all_white(shortcut) ==> (action_at(after, action, 0) matches Some(k)
                && after[k].1 == shortcut)
            &&& other != action ==> action_at(after, other, 0) == action_at(before, other, 0)
            &&& other != action ==> (action_at(before, other, 0) matches Some(k) ==> after[k]
                == before[k])
        }),
{
    let more = saved.push((action, shortcut));
    let n = saved.len() as int;
    let before = overlaid(b, saved, n);
    lemma_overlaid_front(b, saved, more, n);
    assert(more[n] == (action, shortcut));
    law_rebound(before, action, shortcut, other);
    let (x, y) = text::law_trimmed_whole(shortcut);
    if text::all_white(shortcut) {
        let none = Seq::<char>::empty();
        assert(shortcut + none + none =~= shortcut);
        text::law_trimmed(shortcut, none, none);
    }
    if text::trimmed(shortcut).len() == 0 {
        assert forall|i: int| 0 <= i < shortcut.len() implies text::is_white(
            #[trigger] shortcut[i],
        ) by {
            if i < x.len() {
                assert(shortcut[i] == x[i]);
            } else {
                assert(shortcut[i] == y[i - x.len()]);
            }
        }
    }
}

/// An action may be bound to a combination where that can be read, no other action has it and no
/// slot is opened by it alone, letter case aside; and only there.
pub proof fn law_rebind_refused(
    b: Seq<(Seq<char>, Seq<char>)>,
    slots: Seq<QuickLaunchItem>,
    action: Seq<char>,
    shortcut: Seq<char>,
    i: int,
)
    ensures
        rebind_fault(false, b, slots, action, shortcut) is Some,
        0 <= i < b.len() && b[i].0 != action && text::same_letters(b[i].1, shortcut)
            ==> rebind_fault(true, b, slots, action, shortcut) is Some,
        0 <= i < slots.len() && !slots[i].sequence@.contains(',') && text::same_letters(
            slots[i].sequence@,
            shortcut,
        ) ==> rebind_fault(true, b, slots, action, shortcut) is Some,
        rebind_fault(true, b, slots, action, shortcut) is Some ==> (exists|j: int|
            0 <= j < b.len() && (#[trigger] b[j]).0 != action && text::same_letters(b[j].1, shortcut))
            || (exists|j: int|
            0 <= j < slots.len() && !(#[trigger] slots[j]).sequence@.contains(',')
                && text::same_letters(slots[j].sequence@, shortcut)),
        rebind_fault(false, b, slots, action, shortcut) == Some(
            "'"@ + shortcut + "' is not a valid shortcut"@,
        ),
        0 <= i < b.len() && b[i].0 != action && text::same_letters(b[i].1, shortcut)
            ==> rebind_fault(true, b, slots, action, shortcut) == Some(
            "combo '"@ + shortcut + "' is already in use"@,
        ),
        rebind_fault(true, b, slots, action, shortcut) is Some && (forall|j: int|
            0 <= j < b.len() ==> (#[trigger] b[j]).0 == action || !text::same_letters(
                b[j].1,
                shortcut,
            )) ==> rebind_fault(true, b, slots, action, shortcut) == Some(
            "combo '"@ + shortcut + "' is already in use by a quick-launch slot"@,
        ),
{
    if 0 <= i < slots.len() && !slots[i].sequence@.contains(',') {
        assert(is_plain(slots[i].sequence@));
    }
    if taken_by_slot(slots, shortcut) {
        let j = choose|j: int|
            0 <= j < slots.len() && is_plain((#[trigger] slots[j]).sequence@) && text::same_letters(
                slots[j].sequence@,
                shortcut,
            );
        assert(!slots[j].sequence@.contains(','));
    }
}

/// The combinations of all actions are registered, in their order, and then those of the slots
/// whose sequence is a single one, in theirs.
pub proof fn law_combos(
    hotkeys: Seq<HotkeyItem>,
    a: Seq<QuickLaunchItem>,
    b: Seq<QuickLaunchItem>,
    slot: QuickLaunchItem,
    i: int,
)
    requires
        0 <= i < hotkeys.len(),
    ensures
        combos_of(hotkeys, a)[i] == hotkeys[i].shortcut@,
        combos_of(hotkeys, a).skip(hotkeys.len() as int) == plain_sequences(a),
        plain_sequences(a + b) == plain_sequences(a) + plain_sequences(b),
        !slot.sequence@.contains(',') ==> plain_sequences(seq![slot]) == seq![slot.sequence@],
        slot.sequence@.contains(',') ==> plain_sequences(seq![slot]).len() == 0,
    decreases b.len(),
{
    assert(combos_of(hotkeys, a).skip(hotkeys.len() as int) =~= plain_sequences(a));
    let none = seq![slot].drop_last();
    assert(none =~= Seq::empty());
    assert(plain_sequences(none) =~= Seq::empty());
    assert(Seq::<Seq<char>>::empty().push(slot.sequence@) =~= seq![slot.sequence@]);
    if b.len() == 0 {
        assert(a + b =~= a);
        assert(plain_sequences(a) + plain_sequences(b) =~= plain_sequences(a));
    } else {
        law_combos(hotkeys, a, b.drop_last(), slot, i);
        assert((a + b).drop_last() =~= a + b.drop_last());
        assert((a + b).last() == b.last());
        assert(plain_sequences(a + b) =~= plain_sequences(a) + plain_sequences(b));
    }
}

/// A combination that the user is told of: another program has it, or it is an action's and cannot
/// be read.
pub open spec fn has_failed(
    results: Seq<(Seq<char>, Registration)>,
    own: int,
    i: int,
    combo: Seq<char>,
) -> bool {
    results[i].0 == combo && (results[i].1 == Registration::Refused || (i < own && results[i].1
        == Registration::Invalid))
}

/// The user is told of every combination that another program has, and of an action's that cannot
/// be read; of nothing else.
pub proof fn law_failures(
    results: Seq<(Seq<char>, Registration)>,
    own: int,
    n: int,
    combo: Seq<char>,
)
    requires
        0 <= n <= results.len(),
    ensures
        failures_of(results, own, n).contains(combo) <==> exists|i: int|
            0 <= i < n && has_failed(results, own, i, combo),
    decreases n,
{
    if n > 0 {
        law_failures(results, own, n - 1, combo);
        let front = failures_of(results, own, n - 1);
        let all = failures_of(results, own, n);
        if front.contains(combo) {
            let k = front.index_of(combo);
            assert(all[k] == combo);
        }
        if has_failed(results, own, n - 1, combo) {
            assert(all[all.len() - 1] == combo);
        }
        if all.contains(combo) {
            let k = all.index_of(combo);
            if k < front.len() {
                assert(front[k] == combo);
            } else {
                assert(has_failed(results, own, n - 1, combo));
            }
        }
    }
}

/// Each of the program's actions is known by one name, and no other name is known.
pub proof fn law_actions_named(a: Seq<char>, b: Seq<char>)
    ensures
        action_named("summon"@) == HotkeyAction::Summon,
        action_named("palette"@) == HotkeyAction::Palette,
        action_named("addressbar"@) == HotkeyAction::AddressBar,
        action_named("screenshot"@) == HotkeyAction::Screenshot,
        action_named("ocr"@) == HotkeyAction::Ocr,
        action_named("incognito"@) == HotkeyAction::Incognito,
        action_named("aichat"@) == HotkeyAction::AiChat,
        action_named("leader"@) == HotkeyAction::Leader,
        action_named(a) == action_named(b) && action_named(a) != HotkeyAction::Unknown ==> a == b,
{
    reveal_strlit("summon");
    reveal_strlit("palette");
    reveal_strlit("screenshot");
    reveal_strlit("ocr");
    reveal_strlit("incognito");
    reveal_strlit("addressbar");
    reveal_strlit("aichat");
    reveal_strlit("leader");
    assert("summon"@[1] == 'u' && "aichat"@[1] == 'i' && "leader"@[1] == 'e');
    assert("summon"@.len() == 6 && "aichat"@.len() == 6 && "leader"@.len() == 6);
    assert("palette"@.len() == 7 && "ocr"@.len() == 3 && "incognito"@.len() == 9);
    assert("screenshot"@[0] == 's' && "addressbar"@[0] == 'a');
    assert("screenshot"@.len() == 10 && "addressbar"@.len() == 10);
}

/// The first answer that is yes decides, and none where none is.
pub proof fn law_first_yes(v: Seq<bool>, from: int, i: int)
    requires
        0 <= from <= i <= v.len(),
        forall|j: int| from <= j < i ==> !#[trigger] v[j],
        i < v.len() ==> v[i],
    ensures
        first_yes(v, from) == if i < v.len() {
            Some(i)
        } else {
            None
        },
    decreases i - from,
{
    if from < i {
        law_first_yes(v, from + 1, i);
    }
}

/// Of the slots that were pressed the first decides whose sequence is a single combination, and
/// none where there is no such slot.
pub proof fn law_pressed_slot(slots: Seq<QuickLaunchItem>, hits: Seq<bool>, from: int, i: int)
    requires
        0 <= from <= i <= slots.len(),
        forall|j: int|
            from <= j < i ==> (#[trigger] slots[j]).sequence@.contains(',') || !hits[j],
        i < slots.len() ==> !slots[i].sequence@.contains(',') && hits[i],
    ensures
        pressed_slot(slots, hits, from) == if i < slots.len() {
            Some(i)
        } else {
            None
        },
    decreases i - from,
{
    if from < i {
        assert(slots[from].sequence@.contains(',') || !hits[from]);
        law_pressed_slot(slots, hits, from + 1, i);
    }
}

/// The chatbot's address is the one that was set, without the place for a question, where it is an
/// address of the web; else that of the program's own choice.
pub proof fn law_chat_address(front: Seq<char>, back: Seq<char>, other: Seq<char>)
    requires
        !front.contains('%'),
        !back.contains('%'),
        text::begins(front, "http"@),
        !text::begins(other, "http"@),
    ensures
        chat_address(Some(front + "%s"@ + back)) == front + back,
        chat_address(Some(front)) == front,
        chat_address(None) == "https://chatgpt.com/"@,
        chat_address(Some(other)) == chat_address(None),
{
    reveal_strlit("%s");
    reveal_strlit("http");
    reveal_strlit("https://chatgpt.com/");
    let none = Seq::<char>::empty();
    let t = front + "%s"@ + back;
    assert(t.subrange(0, 4) =~= front.subrange(0, 4));
    assert forall|i: int| 0 <= i < front.len() implies !#[trigger] text::at(t, "%s"@, i) by {
        if text::at(t, "%s"@, i) {
            assert(t.subrange(i, i + 2)[0] == '%');
            assert(front[i] == '%');
        }
    }
    text::law_replaced(front, back, "%s"@, none);
    lemma_no_place(back);
    lemma_no_place(front);
    lemma_no_place("https://chatgpt.com/"@);
    assert(front + none + back =~= front + back);
}

proof fn lemma_no_place(s: Seq<char>)
    requires
        !s.contains('%'),
    ensures
        text::replaced(s, "%s"@, seq![]) == s,
{
    reveal_strlit("%s");
    assert forall|i: int| !text::at(s, "%s"@, i) by {
        if text::at(s, "%s"@, i) {
            assert(s.subrange(i, i + 2)[0] == '%');
            assert(s[i] == '%');
        }
    }
    text::law_nothing_replaced(s, "%s"@, seq![]);
}

} // verus!
