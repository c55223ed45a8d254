//! Sequences of keys that open pages from anywhere.

use vstd::prelude::*;
use vstd::string::*;
use crate::ipc_types::{QuickLaunchItem, Tab};
use crate::tabs;
use crate::text;
use crate::windows;

verus! {

/// What is shown while a sequence is typed: the keys so far and what they may still lead to.
pub struct ChordHudPayload {
    pub keys: String,
    pub matching_slots: Vec<QuickLaunchItem>,
}

/// Keys that only modify others. They are never part of a sequence and do not end one.
pub open spec fn modifies(vk: u32) -> bool {
    ||| vk == 0x10 || vk == 0x11 || vk == 0x12
    ||| 0xA0 <= vk <= 0xA5
    ||| vk == 0x5B || vk == 0x5C
    ||| vk == 0x14 || vk == 0x90 || vk == 0x91
}

/// Whether a key only modifies others.
pub fn is_modifier_vk(vk: u32) -> (out: bool)
    ensures
        out == modifies(vk),
{
    vk == 0x10 || vk == 0x11 || vk == 0x12 || (0xA0 <= vk && vk <= 0xA5) || vk == 0x5B || vk == 0x5C
        || vk == 0x14 || vk == 0x90 || vk == 0x91
}

/// The name of a key that can be part of a sequence.
pub open spec fn key_name(vk: u32) -> Option<Seq<char>> {
    if vk == 0x1B {
        Some("Esc"@)
    } else if 0x30 <= vk <= 0x39 {
        Some(seq![vk as char])
    } else if 0x60 <= vk <= 0x69 {
        Some(seq![(vk - 0x30) as char])
    } else if 0x41 <= vk <= 0x5A {
        Some(seq![vk as char])
    } else if vk == 0x20 {
        Some("Space"@)
    } else {
        None
    }
}

fn letter_key(c: char) -> (out: String)
    ensures
        out@ == seq![c],
{
    let mut out: String = String::new();
    out.push(c);
    assert(out@ =~= seq![c]);
    out
}

/// The name of a key that can be part of a sequence.
pub fn vk_to_string(vk: u32) -> (out: Option<String>)
    ensures
        text::opt_view(out) == key_name(vk),
{
    if vk == 0x1B {
        Some("Esc".to_owned())
    } else if (0x30 <= vk && vk <= 0x39) || (0x41 <= vk && vk <= 0x5A) {
        Some(letter_key((vk as u8) as char))
    } else if 0x60 <= vk && vk <= 0x69 {
        Some(letter_key(((vk - 0x30) as u8) as char))
    } else if vk == 0x20 {
        Some("Space".to_owned())
    } else {
        None
    }
}

/// The state of typing a sequence.
pub struct ChordManager {
    /// The keys so far.
    pub sequence: Vec<String>,
    /// What sequences there are, as they were when this one began.
    pub slots: Vec<QuickLaunchItem>,
    /// Whether a sequence has begun.
    pub armed: bool,
    /// Whether there is someone to tell.
    pub attached: bool,
    /// Whether the time for the sequence is running.
    pub timer: bool,
    /// Whether the keyboard is being listened to.
    pub hook: bool,
}

/// What ending a sequence asks for.
#[derive(Clone, Copy, PartialEq, Eq, Debug, Structural)]
pub struct Disarm {
    pub cancel_timer: bool,
    pub unhook: bool,
    pub clear_hud: bool,
}

/// Sequences are compared without regard to case and spaces.
pub open spec fn normal(s: Seq<char>) -> Seq<char> {
    text::replaced(text::uppercase(s), " "@, seq![])
}

/// The keys so far as they stand in a sequence.
pub open spec fn typed(keys: Seq<Seq<char>>) -> Seq<char> {
    normal(text::joined(keys, ","@))
}

/// The slots whose sequence begins with what was typed, in their order.
pub open spec fn matching(slots: Seq<QuickLaunchItem>, typed: Seq<char>) -> Seq<QuickLaunchItem>
    decreases slots.len(),
{
    if slots.len() == 0 {
        slots
    } else {
        let front = matching(slots.drop_last(), typed);
        if text::begins(normal(slots.last().sequence@), typed) {
            front.push(slots.last())
        } else {
            front
        }
    }
}

/// The first slot, from `i` on, whose sequence is what was typed.
pub open spec fn complete(slots: Seq<QuickLaunchItem>, typed: Seq<char>, i: int) -> Option<int>
    decreases slots.len() - i,
{
    if i >= slots.len() {
        None
    } else if normal(slots[i].sequence@) == typed {
        Some(i)
    } else {
        complete(slots, typed, i + 1)
    }
}

/// The slot that what was typed opens: its sequence is complete, and no other one goes on from
/// there.
pub open spec fn opened(slots: Seq<QuickLaunchItem>, typed: Seq<char>) -> Option<QuickLaunchItem> {
    let m = matching(slots, typed);
    match complete(m, typed, 0) {
        Some(i) => if exists|j: int| 0 <= j < m.len() && (#[trigger] m[j]).id != m[i].id {
            None
        } else {
            Some(m[i])
        },
        None => None,
    }
}

/// What a key of a sequence does.
pub enum ChordStep {
    /// Nobody listens.
    Ignored,
    /// It leads nowhere: the sequence ends, and the key goes on to where it was meant for.
    Abandoned(Disarm),
    /// It completes the sequence of the slot.
    Launch(QuickLaunchItem, Disarm),
    /// The sequence goes on.
    Progress(ChordHudPayload),
}

fn normalize(s: &str) -> (out: String)
    ensures
        out@ == normal(s@),
{
    proof {
        reveal_strlit(" ");
        reveal_strlit("");
        assert(""@ =~= Seq::empty());
    }
    let upper: String = text::to_uppercase(s);
    text::replace(upper.as_str(), " ", "")
}

fn find_matching(slots: &Vec<QuickLaunchItem>, typed: &str) -> (out: Vec<QuickLaunchItem>)
    ensures
        out@ == matching(slots@, typed@),
{
    let mut out: Vec<QuickLaunchItem> = Vec::new();
    for i in 0..slots.len()
        invariant
            out@ == matching(slots@.take(i as int), typed@),
    {
        assert(slots@.take(i + 1).drop_last() =~= slots@.take(i as int));
        let seq: String = normalize(slots[i].sequence.as_str());
        if text::starts_with(seq.as_str(), typed) {
            out.push(slots[i].copy());
        }
    }
    assert(slots@.take(slots@.len() as int) =~= slots@);
    out
}

fn find_complete(slots: &Vec<QuickLaunchItem>, typed: &str) -> (out: Option<usize>)
    ensures
        match out {
            Some(i) => i < slots@.len() && complete(slots@, typed@, 0) == Some(i as int),
            None => complete(slots@, typed@, 0) is None,
        },
{
    for i in 0..slots.len()
        invariant
            complete(slots@, typed@, 0) == complete(slots@, typed@, i as int),
    {
        let seq: String = normalize(slots[i].sequence.as_str());
        if text::same(seq.as_str(), typed) {
            return Some(i);
        }
    }
    None
}

fn has_other(slots: &Vec<QuickLaunchItem>, id: i32) -> (out: bool)
    ensures
        out == exists|j: int| 0 <= j < slots@.len() && (#[trigger] slots@[j]).id != id,
{
    for i in 0..slots.len()
        invariant
            forall|j: int| 0 <= j < i ==> (#[trigger] slots@[j]).id == id,
    {
        if slots[i].id != id {
            assert(slots@[i as int].id != id);
            return true;
        }
    }
    false
}

/// The arrow between the keys of a sequence as it is shown.
pub const KEY_ARROW: &'static str = " \u{2794} ";

impl ChordManager {
    /// Nothing has been typed.
    pub fn new() -> (out: Self)
        ensures
            out.sequence@.len() == 0,
            out.slots@.len() == 0,
            !out.armed,
            !out.attached,
            !out.timer,
            !out.hook,
    {
        ChordManager {
            sequence: Vec::new(),
            slots: Vec::new(),
            armed: false,
            attached: false,
            timer: false,
            hook: false,
        }
    }

    /// The state once no sequence is being typed.
    pub open spec fn is_disarmed(&self) -> bool {
        &&& !self.armed
        &&& self.sequence@.len() == 0
        &&& self.slots@.len() == 0
        &&& !self.timer
        &&& !self.hook
        &&& !self.attached
    }

    /// Notes whether the keyboard can be listened to; if not, a sequence can be begun anew.
    pub fn hook_installed(&mut self, ok: bool)
        ensures
            ok ==> *final(self) == (ChordManager { hook: true, ..*old(self) }),
            !ok ==> *final(self) == (ChordManager { armed: false, timer: false, ..*old(self) }),
    {
        if ok {
            self.hook = true;
        } else {
            self.armed = false;
            self.timer = false;
        }
    }

    /// Takes one more key of the sequence.
    pub fn handle_chord_key(&mut self, key: String) -> (out: ChordStep)
        ensures
            ({
                let keys = text::views(old(self).sequence@).push(key@);
                let now = typed(keys);
                let m = matching(old(self).slots@, now);
                let bye = Disarm {
                    cancel_timer: old(self).timer,
                    unhook: old(self).hook,
                    clear_hud: old(self).attached,
                };
                match out {
                    ChordStep::Ignored => !old(self).attached && *final(self) == *old(self),
                    ChordStep::Abandoned(d) => {
                        &&& old(self).attached
                        &&& m.len() == 0
                        &&& d == bye
                        &&& final(self).is_disarmed()
                    },
                    ChordStep::Launch(slot, d) => {
                        &&& old(self).attached
                        &&& m.len() > 0
                        &&& opened(old(self).slots@, now) == Some(slot)
                        &&& d == bye
                        &&& final(self).is_disarmed()
                    },
                    ChordStep::Progress(hud) => {
                        &&& old(self).attached
                        &&& m.len() > 0
                        &&& opened(old(self).slots@, now) is None
                        &&& hud.keys@ == text::joined(keys, KEY_ARROW@)
                        &&& hud.matching_slots@ == m
                        &&& text::views(final(self).sequence@) == keys
                        &&& final(self).slots == old(self).slots
                        &&& final(self).armed == old(self).armed
                        &&& final(self).attached
                        &&& final(self).timer == old(self).timer
                        &&& final(self).hook == old(self).hook
                    },
                }
            }),
    {
        if !self.attached {
            return ChordStep::Ignored;
        }
        let ghost before = self.sequence@;
        let ghost k = key@;
        self.sequence.push(key);
        assert(text::views(self.sequence@) =~= text::views(before).push(k));
        let all: String = text::join(&self.sequence, ",");
        let now: String = normalize(all.as_str());
        let m: Vec<QuickLaunchItem> = find_matching(&self.slots, now.as_str());
        if m.len() == 0 {
            return ChordStep::Abandoned(disarm_chords(self));
        }
        if let Some(i) = find_complete(&m, now.as_str()) {
            if !has_other(&m, m[i].id) {
                let slot: QuickLaunchItem = m[i].copy();
                return ChordStep::Launch(slot, disarm_chords(self));
            }
        }
        let keys: String = text::join(&self.sequence, KEY_ARROW);
        ChordStep::Progress(ChordHudPayload { keys, matching_slots: m })
    }
}

/// Begins a sequence, unless one has begun already. The answer is what is to be shown.
pub fn arm_chords(manager: &mut ChordManager, slots: Vec<QuickLaunchItem>) -> (out: Option<
    ChordHudPayload,
>)
    ensures
        match out {
            None => old(manager).armed && *final(manager) == *old(manager),
            Some(hud) => {
                &&& !old(manager).armed
                &&& hud.keys@.len() == 0
                &&& hud.matching_slots@ == slots@
                &&& final(manager).armed
                &&& final(manager).attached
                &&& final(manager).timer
                &&& final(manager).hook == old(manager).hook
                &&& final(manager).sequence@.len() == 0
                &&& final(manager).slots@ == slots@
            },
        },
{
    if manager.armed {
        return None;
    }
    manager.armed = true;
    manager.attached = true;
    manager.timer = true;
    manager.sequence = Vec::new();
    let mut shown: Vec<QuickLaunchItem> = Vec::new();
    for i in 0..slots.len()
        invariant
            shown@ == slots@.take(i as int),
    {
        shown.push(slots[i].copy());
    }
    assert(shown@ =~= slots@);
    manager.slots = slots;
    Some(ChordHudPayload { keys: String::new(), matching_slots: shown })
}

/// Ends a sequence.
pub fn disarm_chords(manager: &mut ChordManager) -> (out: Disarm)
    ensures
        final(manager).is_disarmed(),
        out == (Disarm {
            cancel_timer: old(manager).timer,
            unhook: old(manager).hook,
            clear_hud: old(manager).attached,
        }),
{
    let out: Disarm = Disarm {
        cancel_timer: manager.timer,
        unhook: manager.hook,
        clear_hud: manager.attached,
    };
    manager.armed = false;
    manager.sequence = Vec::new();
    manager.slots = Vec::new();
    manager.timer = false;
    manager.hook = false;
    manager.attached = false;
    out
}

proof fn lemma_matching(slots: Seq<QuickLaunchItem>, typed: Seq<char>)
    ensures
        forall|j: int|
            0 <= j < matching(slots, typed).len() ==> slots.contains(
                #[trigger] matching(slots, typed)[j],
            ) && text::begins(normal(matching(slots, typed)[j].sequence@), typed),
        forall|i: int|
            0 <= i < slots.len() && text::begins(
                normal((#[trigger] slots[i]).sequence@),
                typed,
            ) ==> matching(slots, typed).contains(slots[i]),
    decreases slots.len(),
{
    if slots.len() > 0 {
        let front = slots.drop_last();
        lemma_matching(front, typed);
        let m = matching(slots, typed);
        let f = matching(front, typed);
        assert forall|j: int| 0 <= j < m.len() implies slots.contains(#[trigger] m[j])
            && text::begins(normal(m[j].sequence@), typed) by {
            if j < f.len() {
                assert(f[j] == m[j]);
                let k = front.index_of(f[j]);
                assert(slots[k] == m[j]);
            } else {
                assert(slots[slots.len() - 1] == m[j]);
            }
        }
        assert forall|i: int|
            0 <= i < slots.len() && text::begins(
                normal((#[trigger] slots[i]).sequence@),
                typed,
            ) implies m.contains(slots[i]) by {
            if i < slots.len() - 1 {
                assert(front[i] == slots[i]);
                let k = f.index_of(slots[i]);
                assert(m[k] == slots[i]);
            } else {
                assert(m[m.len() - 1] == slots[i]);
            }
        }
    }
}

proof fn lemma_complete(slots: Seq<QuickLaunchItem>, typed: Seq<char>, i: int, k: int)
    requires
        0 <= i <= k < slots.len(),
        normal(slots[k].sequence@) == typed,
    ensures
        complete(slots, typed, i) matches Some(j) && i <= j <= k && normal(slots[j].sequence@)
            == typed,
    decreases k - i,
{
    if normal(slots[i].sequence@) != typed {
        lemma_complete(slots, typed, i + 1, k);
    }
}

/// A sequence that no other one goes on from opens its slot as soon as it is typed.
pub proof fn law_sequence_opens(slots: Seq<QuickLaunchItem>, i: int)
    requires
        0 <= i < slots.len(),
        forall|j: int|
            0 <= j < slots.len() && text::begins(
                normal((#[trigger] slots[j]).sequence@),
                normal(slots[i].sequence@),
            ) ==> slots[j].id == slots[i].id,
    ensures
        opened(slots, normal(slots[i].sequence@)) matches Some(slot) && slot.id == slots[i].id,
{
    let t = normal(slots[i].sequence@);
    lemma_matching(slots, t);
    assert(t.subrange(0, t.len() as int) =~= t);
    assert(text::begins(t, t));
    let m = matching(slots, t);
    assert(m.contains(slots[i]));
    let k = m.index_of(slots[i]);
    lemma_complete(m, t, 0, k);
    assert forall|j: int| 0 <= j < m.len() implies (#[trigger] m[j]).id == slots[i].id by {
        let n = slots.index_of(m[j]);
        assert(slots.contains(m[j]));
        assert(slots[n] == m[j]);
    }
}

// ---- the keyboard ----

/// What becomes of a key that was pressed while a sequence is typed.
pub enum KeyFate {
    /// It goes on to where it was meant for.
    Pass,
    /// It ends the sequence and goes on to where it was meant for.
    PassAndDisarm(Disarm),
    /// It ends the sequence and is kept back.
    Cancel(Disarm),
    /// It is taken as a key of the sequence.
    Chord(ChordStep),
}

/// Whether the key is kept back: it ended the sequence by intent, or it is part of one.
pub open spec fn kept_back(fate: KeyFate) -> bool {
    match fate {
        KeyFate::Cancel(_) => true,
        KeyFate::Chord(step) => step is Launch || step is Progress,
        _ => false,
    }
}

/// Whether the key is kept back.
pub fn is_kept_back(fate: &KeyFate) -> (out: bool)
    ensures
        out == kept_back(*fate),
{
    match fate {
        KeyFate::Cancel(_) => true,
        KeyFate::Chord(ChordStep::Launch(_, _)) => true,
        KeyFate::Chord(ChordStep::Progress(_)) => true,
        _ => false,
    }
}

impl ChordManager {
    /// Takes a key that was pressed, by its code.
    pub fn key_down(&mut self, vk: u32) -> (out: KeyFate)
        ensures
            ({
                let bye = Disarm {
                    cancel_timer: old(self).timer,
                    unhook: old(self).hook,
                    clear_hud: old(self).attached,
                };
                if vk == 0x1B {
                    out == KeyFate::Cancel(bye) && final(self).is_disarmed()
                } else if modifies(vk) {
                    out is Pass && *final(self) == *old(self)
                } else if key_name(vk) is None {
                    out == KeyFate::PassAndDisarm(bye) && final(self).is_disarmed()
                } else {
                    let keys = text::views(old(self).sequence@).push(key_name(vk)->0);
                    let m = matching(old(self).slots@, typed(keys));
                    &&& out matches KeyFate::Chord(step)
                    &&& step is Ignored <==> !old(self).attached
                    &&& step is Abandoned <==> old(self).attached && m.len() == 0
                    &&& step is Launch ==> opened(old(self).slots@, typed(keys)) == Some(
                        step->Launch_0,
                    )
                    &&& step is Progress ==> opened(old(self).slots@, typed(keys)) is None
                        && text::views(final(self).sequence@) == keys && step->Progress_0.matching_slots@
                        == m && step->Progress_0.keys@ == text::joined(keys, KEY_ARROW@)
                    &&& step is Ignored ==> *final(self) == *old(self)
                    &&& step is Abandoned || step is Launch ==> final(self).is_disarmed()
                    &&& step matches ChordStep::Abandoned(d) ==> d == bye
                    &&& step matches ChordStep::Launch(_, d) ==> d == bye
                    &&& step is Progress ==> final(self).slots == old(self).slots
                        && final(self).armed == old(self).armed && final(self).attached
                        && final(self).timer == old(self).timer && final(self).hook == old(
                        self,
                    ).hook
                }
            }),
            kept_back(out) <==> vk == 0x1B || (!modifies(vk) && key_name(vk) is Some && old(
                self,
            ).attached && matching(
                old(self).slots@,
                typed(text::views(old(self).sequence@).push(key_name(vk)->0)),
            ).len() > 0),
    {
        if vk == 0x1B {
            return KeyFate::Cancel(disarm_chords(self));
        }
        if is_modifier_vk(vk) {
            return KeyFate::Pass;
        }
        match vk_to_string(vk) {
            Some(key) => KeyFate::Chord(self.handle_chord_key(key)),
            None => KeyFate::PassAndDisarm(disarm_chords(self)),
        }
    }
}

// ---- opening what a sequence stands for ----

/// What opening a slot asks for.
pub enum Launch {
    /// A tab that shows the page comes to the front, and its window with it.
    Focus { tab_id: i32, window_label: String },
    /// A tab is made in the window.
    Create { window_id: i32, url: String },
    /// A window is made, with the tab in it, which is put on record first.
    NewWindow { label: String, tab: Tab },
    /// A window that leaves no trace is made, with a tab in it.
    NewIncognito { window_id: i32, label: String, url: String },
    /// The way of opening is not known.
    Nothing,
}

/// The first tab, from `i` on, that shows the address.
pub open spec fn showing(tabs: Seq<Tab>, url: Seq<char>, i: int) -> Option<int>
    decreases tabs.len() - i,
{
    if i >= tabs.len() {
        None
    } else if tabs[i].url@ == url {
        Some(i)
    } else {
        showing(tabs, url, i + 1)
    }
}

fn find_showing(tabs: &Vec<Tab>, url: &str) -> (out: Option<usize>)
    ensures
        match out {
            Some(i) => i < tabs@.len() && showing(tabs@, url@, 0) == Some(i as int),
            None => showing(tabs@, url@, 0) is None,
        },
{
    for i in 0..tabs.len()
        invariant
            showing(tabs@, url@, 0) == showing(tabs@, url@, i as int),
    {
        if text::same(tabs[i].url.as_str(), url) {
            return Some(i);
        }
    }
    None
}

/// Whether opening a slot depends on the tabs on record.
pub fn asks_for_tabs(item: &QuickLaunchItem) -> (out: bool)
    ensures
        out == (item.disposition@ == "focus_or_open"@),
{
    text::same(item.disposition.as_str(), "focus_or_open")
}

/// What opening a slot asks for. `on_record` are the tabs on record, `open` the names of the open
/// windows, `focused` the names of those that have the keyboard; the time is given in
/// milliseconds and in seconds since 1970.
pub fn execute_quick_launch(
    item: QuickLaunchItem,
    on_record: &Vec<Tab>,
    open: &Vec<String>,
    focused: &Vec<String>,
    millis: u128,
    now: i64,
) -> (out: Launch)
    ensures
        ({
            let way = item.disposition@;
            let here = windows::first_number(text::views(focused@));
            let number = windows::number_at(millis as int);
            match out {
                Launch::Focus { tab_id, window_label } => {
                    &&& way == "focus_or_open"@
                    &&& showing(on_record@, item.target_url@, 0) is Some
                    &&& tab_id == on_record@[showing(on_record@, item.target_url@, 0)->0].id
                    &&& window_label@ == windows::window_name(
                        on_record@[showing(on_record@, item.target_url@, 0)->0].window_id as int,
                        text::views(open@),
                    )
                },
                Launch::Create { window_id, url } => {
                    &&& way == "new_tab"@ || (way == "focus_or_open"@ && showing(
                        on_record@,
                        item.target_url@,
                        0,
                    ) is None)
                    &&& window_id == here
                    &&& url == item.target_url
                },
                Launch::NewWindow { label, tab } => {
                    &&& way == "new_window"@
                    &&& label@ == windows::main_name(number)
                    &&& tabs::is_fresh(tab, number, item.target_url@, "a"@, Some(now), now)
                },
                Launch::NewIncognito { window_id, label, url } => {
                    &&& way == "new_incognito"@
                    &&& window_id == number
                    &&& label@ == windows::incognito_name(number)
                    &&& url == item.target_url
                },
                Launch::Nothing => {
                    &&& way != "focus_or_open"@
                    &&& way != "new_tab"@
                    &&& way != "new_window"@
                    &&& way != "new_incognito"@
                },
            }
        }),
{
    let way: &str = item.disposition.as_str();
    if text::same(way, "focus_or_open") {
        match find_showing(on_record, item.target_url.as_str()) {
            Some(i) => Launch::Focus {
                tab_id: on_record[i].id,
                window_label: windows::window_label(on_record[i].window_id, open),
            },
            None => Launch::Create {
                window_id: windows::focused_window_id(focused),
                url: item.target_url,
            },
        }
    } else if text::same(way, "new_tab") {
        Launch::Create { window_id: windows::focused_window_id(focused), url: item.target_url }
    } else if text::same(way, "new_window") {
        let number: i32 = windows::window_number(millis);
        Launch::NewWindow {
            label: windows::main_label(number),
            tab: tabs::first_tab(number, item.target_url, now),
        }
    } else if text::same(way, "new_incognito") {
        let number: i32 = windows::window_number(millis);
        Launch::NewIncognito {
            window_id: number,
            label: windows::incognito_label(number),
            url: item.target_url,
        }
    } else {
        Launch::Nothing
    }
}

// ---- what these amount to ----

/// Keys that only modify others have no name in a sequence. Letters and digits are named by
/// themselves, a digit alike on both parts of the keyboard; besides them only the space and the
/// escape key have a name.
pub proof fn law_key_names(vk: u32)
    ensures
        modifies(vk) ==> key_name(vk) is None,
        0x41 <= vk <= 0x5A || 0x30 <= vk <= 0x39 ==> key_name(vk) == Some(seq![vk as char]),
        0x60 <= vk <= 0x69 ==> key_name(vk) == key_name((vk - 0x30) as u32),
        key_name(0x20) == Some("Space"@),
        key_name(0x1B) == Some("Esc"@),
        key_name(vk) is Some ==> 0x41 <= vk <= 0x5A || 0x30 <= vk <= 0x39 || 0x60 <= vk <= 0x69 || vk
            == 0x20 || vk == 0x1B,
{
}

/// Shift, control and alt modify others on whichever side they are pressed, and so do the keys of
/// the system and those that lock.
pub proof fn law_modifiers(vk: u32)
    ensures
        modifies(0x10) && modifies(0xA0) && modifies(0xA1),
        modifies(0x11) && modifies(0xA2) && modifies(0xA3),
        modifies(0x12) && modifies(0xA4) && modifies(0xA5),
        modifies(0x5B) && modifies(0x5C),
        modifies(0x14) && modifies(0x90) && modifies(0x91),
        modifies(vk) ==> (0x10 <= vk <= 0x12 || 0xA0 <= vk <= 0xA5 || 0x5B <= vk <= 0x5C || vk == 0x14
            || 0x90 <= vk <= 0x91),
{
}

/// Spaces in a sequence do not count: it is compared as it is in capitals with the spaces taken
/// out, and nothing else.
pub proof fn law_spaces_do_not_count(s: Seq<char>)
    ensures
        normal(s) == text::uppercase(s).filter(|c: char| c != ' '),
        !normal(s).contains(' '),
{
    reveal_strlit(" ");
    assert(" "@ =~= seq![' ']);
    text::law_char_removed(text::uppercase(s), ' ');
}

/// Keys that were typed one after the other count as the sequence in which they stand with commas
/// between them.
pub proof fn law_typed(keys: Seq<Seq<char>>)
    ensures
        typed(keys) == normal(text::joined(keys, seq![','])),
        typed(seq![text::joined(keys, seq![','])]) == typed(keys),
{
    reveal_strlit(",");
    assert(","@ =~= seq![',']);
}

/// Shown are the slots whose sequence begins with what was typed, every one of them and no others,
/// in their order.
pub proof fn law_matching_slots(
    a: Seq<QuickLaunchItem>,
    b: Seq<QuickLaunchItem>,
    slot: QuickLaunchItem,
    typed: Seq<char>,
)
    ensures
        matching(a + b, typed) == matching(a, typed) + matching(b, typed),
        (exists|rest: Seq<char>| normal(slot.sequence@) == #[trigger] (typed + rest)) ==> matching(
            seq![slot],
            typed,
        ) == seq![slot],
        !(exists|rest: Seq<char>| normal(slot.sequence@) == #[trigger] (typed + rest)) ==> matching(
            seq![slot],
            typed,
        ).len() == 0,
    decreases b.len(),
{
    let s = normal(slot.sequence@);
    if exists|rest: Seq<char>| s == #[trigger] (typed + rest) {
        let rest = choose|rest: Seq<char>| s == #[trigger] (typed + rest);
        assert(s.subrange(0, typed.len() as int) =~= typed);
    }
    if text::begins(s, typed) {
        assert(s =~= typed + s.skip(typed.len() as int));
    }
    let none = seq![slot].drop_last();
    assert(none =~= Seq::empty());
    assert(matching(none, typed) =~= Seq::empty());
    assert(Seq::<QuickLaunchItem>::empty().push(slot) =~= seq![slot]);
    if b.len() == 0 {
        assert(a + b =~= a);
        assert(matching(a, typed) + matching(b, typed) =~= matching(a, typed));
    } else {
        law_matching_slots(a, b.drop_last(), slot, typed);
        assert((a + b).drop_last() =~= a + b.drop_last());
        assert((a + b).last() == b.last());
        assert(matching(a + b, typed) =~= matching(a, typed) + matching(b, typed));
    }
}

proof fn lemma_complete_found(slots: Seq<QuickLaunchItem>, typed: Seq<char>, i: int)
    requires
        0 <= i <= slots.len(),
    ensures
        complete(slots, typed, i) matches Some(k) ==> i <= k < slots.len() && normal(
            slots[k].sequence@,
        ) == typed,
    decreases slots.len() - i,
{
    if i < slots.len() && normal(slots[i].sequence@) != typed {
        lemma_complete_found(slots, typed, i + 1);
    }
}

/// A slot is opened only where its sequence is complete and no other slot's begins with it.
pub proof fn law_opened_is_complete(slots: Seq<QuickLaunchItem>, typed: Seq<char>, j: int)
    requires
        opened(slots, typed) is Some,
    ensures
        slots.contains(opened(slots, typed)->0),
        normal((opened(slots, typed)->0).sequence@) == typed,
        0 <= j < slots.len() && slots[j].id != (opened(slots, typed)->0).id ==> !text::begins(
            normal(slots[j].sequence@),
            typed,
        ),
{
    let m = matching(slots, typed);
    lemma_matching(slots, typed);
    lemma_complete_found(m, typed, 0);
    let i = complete(m, typed, 0)->0;
    assert(slots.contains(m[i]));
    if 0 <= j < slots.len() && slots[j].id != m[i].id && text::begins(
        normal(slots[j].sequence@),
        typed,
    ) {
        assert(m.contains(slots[j]));
        let k = m.index_of(slots[j]);
        assert(m[k].id != m[i].id);
    }
}

/// The key that completes a sequence or goes on with it is kept back, and so is the one that ends
/// it by intent; a key that leads nowhere goes on to where it was meant for.
pub proof fn law_kept_back(d: Disarm, slot: QuickLaunchItem, hud: ChordHudPayload)
    ensures
        kept_back(KeyFate::Cancel(d)),
        kept_back(KeyFate::Chord(ChordStep::Launch(slot, d))),
        kept_back(KeyFate::Chord(ChordStep::Progress(hud))),
        !kept_back(KeyFate::Pass),
        !kept_back(KeyFate::PassAndDisarm(d)),
        !kept_back(KeyFate::Chord(ChordStep::Abandoned(d))),
        !kept_back(KeyFate::Chord(ChordStep::Ignored)),
{
}

proof fn lemma_showing(tabs: Seq<Tab>, url: Seq<char>, i: int)
    requires
        0 <= i <= tabs.len(),
    ensures
        match showing(tabs, url, i) {
            Some(k) => i <= k < tabs.len() && tabs[k].url@ == url && forall|j: int|
                i <= j < k ==> (#[trigger] tabs[j]).url@ != url,
            None => forall|j: int| i <= j < tabs.len() ==> (#[trigger] tabs[j]).url@ != url,
        },
    decreases tabs.len() - i,
{
    if i < tabs.len() && tabs[i].url@ != url {
        lemma_showing(tabs, url, i + 1);
    }
}

/// The tab that comes to the front is the first that shows the address; a tab is made only where
/// none does.
pub proof fn law_showing(tabs: Seq<Tab>, url: Seq<char>)
    ensures
        match showing(tabs, url, 0) {
            Some(k) => 0 <= k < tabs.len() && tabs[k].url@ == url && forall|j: int|
                0 <= j < k ==> (#[trigger] tabs[j]).url@ != url,
            None => forall|j: int| 0 <= j < tabs.len() ==> (#[trigger] tabs[j]).url@ != url,
        },
{
    lemma_showing(tabs, url, 0);
}

} // verus!
