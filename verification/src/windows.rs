//! Windows by name and number.

use vstd::prelude::*;
use vstd::string::*;
use crate::text;

verus! {

/// The name of a further window.
pub open spec fn main_name(id: int) -> Seq<char> {
    "main_"@ + text::decimal_int(id)
}

/// The name of a window that leaves no trace.
pub open spec fn incognito_name(id: int) -> Seq<char> {
    "incognito_"@ + text::decimal_int(id)
}

/// The name of a further window.
pub fn main_label(id: i32) -> (out: String)
    ensures
        out@ == main_name(id as int),
{
    text::concat2("main_", text::dec_i64(id as i64).as_str())
}

/// The name of a window that leaves no trace.
pub fn incognito_label(id: i32) -> (out: String)
    ensures
        out@ == incognito_name(id as int),
{
    text::concat2("incognito_", text::dec_i64(id as i64).as_str())
}

/// The name of the window with the given number, where these windows are open: the first one is
/// `main`; any other is a further window if one of that number is open, else one that leaves no
/// trace.
pub open spec fn window_name(id: int, open: Seq<Seq<char>>) -> Seq<char> {
    if id == 1 {
        "main"@
    } else if open.contains(main_name(id)) {
        main_name(id)
    } else {
        incognito_name(id)
    }
}

/// The name of the window with the given number, where these windows are open.
pub fn window_label(id: i32, open: &Vec<String>) -> (out: String)
    ensures
        out@ == window_name(id as int, text::views(open@)),
{
    if id == 1 {
        return "main".to_owned();
    }
    let label: String = main_label(id);
    if text::lists(open, label.as_str()) {
        label
    } else {
        incognito_label(id)
    }
}

/// The number for a window that is made at the given time, in milliseconds since 1970: its lower
/// 31 bits.
pub open spec fn number_at(millis: int) -> int {
    millis % 0x8000_0000
}

/// The number for a window that is made at the given time, in milliseconds since 1970.
pub fn window_number(millis: u128) -> (out: i32)
    ensures
        out == number_at(millis as int),
{
    (millis % 0x8000_0000) as i32
}

/// The number in the name of a window: what stands behind the last underscore, if it is one.
pub open spec fn number_in(label: Seq<char>) -> Option<int> {
    if label == "main"@ {
        Some(1)
    } else {
        match text::last_index(label, '_') {
            Some(i) => match text::int_value(label.skip(i + 1)) {
                Some(n) if i32::MIN <= n <= i32::MAX => Some(n),
                _ => None,
            },
            None => None,
        }
    }
}

/// The first number in these names, or 1.
pub open spec fn first_number(labels: Seq<Seq<char>>) -> int
    decreases labels.len(),
{
    if labels.len() == 0 {
        1
    } else {
        match number_in(labels[0]) {
            Some(n) => n,
            None => first_number(labels.skip(1)),
        }
    }
}

/// The number in the name of a window.
pub fn label_number(label: &str) -> (out: Option<i32>)
    ensures
        match out {
            Some(n) => number_in(label@) == Some(n as int),
            None => number_in(label@) is None,
        },
{
    if text::same(label, "main") {
        return Some(1);
    }
    match text::rfind(label, '_') {
        Some(i) => {
            let number: String = text::skip(label, i + 1);
            match text::parse_i32(number.as_str()) {
                Ok(n) => Some(n),
                Err(_) => None,
            }
        },
        None => None,
    }
}

/// The number of the window that has the keyboard, given the names of those that do.
pub fn focused_window_id(labels: &Vec<String>) -> (out: i32)
    ensures
        out == first_number(text::views(labels@)),
{
    let ghost v = text::views(labels@);
    assert(v.skip(0) =~= v);
    for i in 0..labels.len()
        invariant
            v == text::views(labels@),
            first_number(v) == first_number(v.skip(i as int)),
    {
        assert(v.skip(i as int)[0] == labels@[i as int]@);
        assert(v.skip(i as int).skip(1) =~= v.skip(i + 1));
        if let Some(n) = label_number(labels[i].as_str()) {
            return n;
        }
    }
    1
}

/// A decimal number holds no underscore, is never empty, and is read back as it was written.
proof fn lemma_decimal(n: nat)
    ensures
        text::is_digits(text::decimal(n)),
        text::digits_value(text::decimal(n)) == n,
    decreases n,
{
    if n >= 10 {
        lemma_decimal(n / 10);
        let d = text::decimal(n);
        assert(d.drop_last() =~= text::decimal(n / 10));
        assert(d.last() == text::digit_char((n % 10) as int));
        assert forall|i: int| 0 <= i < d.len() implies '0' <= #[trigger] d[i] <= '9' by {
            if i < d.len() - 1 {
                assert(text::decimal(n / 10)[i] == d[i]);
            }
        }
    } else {
        let d = text::decimal(n);
        assert(d =~= seq![text::digit_char(n as int)]);
        assert(d.drop_last() =~= Seq::empty());
        assert(text::digits_value(Seq::empty()) == 0);
    }
}

/// A whole number is read back as it was written.
proof fn lemma_decimal_int(n: int)
    ensures
        text::int_value(text::decimal_int(n)) == Some(n),
        text::decimal_int(n).len() > 0,
        forall|i: int|
            0 <= i < text::decimal_int(n).len() ==> #[trigger] text::decimal_int(n)[i] != '_',
{
    if n < 0 {
        lemma_decimal((-n) as nat);
        let d = text::decimal((-n) as nat);
        let s = text::decimal_int(n);
        assert(s.skip(1) =~= d);
        assert forall|i: int| 0 <= i < s.len() implies #[trigger] s[i] != '_' by {
            if i > 0 {
                assert(s[i] == d[i - 1]);
                assert('0' <= d[i - 1] <= '9');
            }
        }
    } else {
        lemma_decimal(n as nat);
        let s = text::decimal_int(n);
        assert forall|i: int| 0 <= i < s.len() implies #[trigger] s[i] != '_' by {
            assert('0' <= s[i] <= '9');
        }
        assert('0' <= s[0] <= '9');
    }
}

/// Where the last underscore of a text with one in front of a tail without any stands.
proof fn lemma_last_underscore(head: Seq<char>, tail: Seq<char>)
    requires
        head.len() > 0,
        head.last() == '_',
        forall|i: int| 0 <= i < tail.len() ==> #[trigger] tail[i] != '_',
    ensures
        text::last_index(head + tail, '_') == Some(head.len() - 1),
    decreases tail.len(),
{
    let s = head + tail;
    if tail.len() == 0 {
        assert(s.last() == '_');
    } else {
        assert(s.last() == tail[tail.len() - 1]);
        assert(s.drop_last() =~= head + tail.drop_last());
        lemma_last_underscore(head, tail.drop_last());
    }
}

/// The number of a window without traces is read back from its name.
pub proof fn lemma_incognito_number(id: int)
    requires
        i32::MIN <= id <= i32::MAX,
    ensures
        number_in(incognito_name(id)) == Some(id),
{
    reveal_strlit("incognito_");
    reveal_strlit("main");
    lemma_decimal_int(id);
    let head = "incognito_"@;
    let tail = text::decimal_int(id);
    lemma_last_underscore(head, tail);
    assert(incognito_name(id).skip(10) =~= tail);
    assert(incognito_name(id)[0] == 'i');
    assert("main"@[0] == 'm');
}

/// The number of a further window is read back from its name.
pub proof fn law_main_number_read_back(id: int)
    requires
        i32::MIN <= id <= i32::MAX,
    ensures
        number_in(main_name(id)) == Some(id),
{
    reveal_strlit("main_");
    reveal_strlit("main");
    lemma_decimal_int(id);
    let head = "main_"@;
    let tail = text::decimal_int(id);
    lemma_last_underscore(head, tail);
    assert(main_name(id).skip(5) =~= tail);
    assert(main_name(id).len() > "main"@.len());
}

/// The number of a window that is made now can always be read back from its name.
pub proof fn law_number_fits(millis: int)
    requires
        0 <= millis,
    ensures
        0 <= number_at(millis) <= i32::MAX,
{
}

/// The window that the program started with, as the system knows it.
pub struct MainWindow {
    /// The system's number for it; 0 where it is not known.
    pub hwnd: isize,
}

/// Notes the system's number for the window.
pub fn set_main_hwnd(window: &mut MainWindow, hwnd: isize)
    ensures
        final(window).hwnd == hwnd,
{
    window.hwnd = hwnd;
}

/// The system's number for the window, if it is known.
pub fn main_hwnd(window: &MainWindow) -> (out: Option<isize>)
    ensures
        out == if window.hwnd == 0 {
            None
        } else {
            Some(window.hwnd)
        },
{
    if window.hwnd == 0 {
        None
    } else {
        Some(window.hwnd)
    }
}

/// What bringing the window back asks for, besides putting it in front.
#[derive(Clone, Copy, PartialEq, Eq, Debug, Structural)]
pub struct ShowSteps {
    pub restore: bool,
    pub show: bool,
}

/// What bringing the window back asks for.
pub fn force_show_main(iconic: bool, visible: bool) -> (out: ShowSteps)
    ensures
        out == (ShowSteps { restore: iconic, show: !visible }),
{
    ShowSteps { restore: iconic, show: !visible }
}

/// The address of the program's own page in a window that opens at a given address.
pub fn window_url(id: i32, initial_url: &str) -> (out: String)
    ensures
        out@ == "index.html?window_id="@ + text::decimal_int(id as int) + "&initial_url="@
            + crate::search::percent_encoded(initial_url@),
{
    let number: String = text::dec_i64(id as i64);
    let encoded: String = crate::search::percent_encode(initial_url);
    let front: String = text::concat3("index.html?window_id=", number.as_str(), "&initial_url=");
    text::concat2(front.as_str(), encoded.as_str())
}

// ---- what names and numbers amount to ----

/// Whatever stands before the last underscore of a name, the number behind it is read.
pub proof fn law_number_in(front: Seq<char>, n: int)
    requires
        i32::MIN <= n <= i32::MAX,
    ensures
        number_in(front.push('_') + text::decimal_int(n)) == Some(n),
        number_in("main"@) == Some(1int),
{
    let head = front.push('_');
    let tail = text::decimal_int(n);
    lemma_decimal_int(n);
    lemma_last_underscore(head, tail);
    assert((head + tail).skip(head.len() as int) =~= tail);
    reveal_strlit("main");
    if head + tail == "main"@ {
        assert((head + tail)[front.len() as int] == '_');
        assert("main"@[front.len() as int] != '_');
    }
}

/// A name without an underscore has no number, but for that of the first window.
pub proof fn law_no_number(label: Seq<char>)
    requires
        !label.contains('_'),
        label != "main"@,
    ensures
        number_in(label) is None,
{
    text::law_last_index(label, '_');
}

/// The name of a window tells its number, whichever windows are open; where a further window of
/// that number is open, it is that window's.
pub proof fn law_window_name(id: int, open: Seq<Seq<char>>)
    requires
        i32::MIN <= id <= i32::MAX,
    ensures
        number_in(window_name(id, open)) == Some(id),
        id != 1 && open.contains(main_name(id)) ==> window_name(id, open) == main_name(id),
        id != 1 && !open.contains(main_name(id)) ==> window_name(id, open) == incognito_name(id),
        window_name(1, open) == "main"@,
{
    law_main_number_read_back(id);
    lemma_incognito_number(id);
}

/// Windows that leave no trace and others never have the same name, and neither have two of one
/// kind with different numbers.
pub proof fn law_names_differ(a: int, b: int)
    requires
        i32::MIN <= a <= i32::MAX,
        i32::MIN <= b <= i32::MAX,
    ensures
        main_name(a) != incognito_name(b),
        a != b ==> main_name(a) != main_name(b),
        a != b ==> incognito_name(a) != incognito_name(b),
{
    reveal_strlit("main_");
    reveal_strlit("incognito_");
    assert(main_name(a)[0] == 'm');
    assert(incognito_name(b)[0] == 'i');
    law_main_number_read_back(a);
    law_main_number_read_back(b);
    lemma_incognito_number(a);
    lemma_incognito_number(b);
}

/// Windows that are made at different times, less than 24 days apart, get different numbers; a
/// millisecond later the number is the next one, unless it begins anew at 0.
pub proof fn law_numbers_differ(a: int, b: int)
    requires
        0 <= a < b,
        b - a < 0x8000_0000,
    ensures
        number_at(a) != number_at(b),
        number_at(a + 1) == number_at(a) + 1 || number_at(a + 1) == 0,
{
}

/// The window that has the keyboard is the first whose name has a number; without one it is the
/// first window.
pub proof fn law_first_number(labels: Seq<Seq<char>>, k: int)
    requires
        0 <= k <= labels.len(),
        forall|i: int| 0 <= i < k ==> number_in(#[trigger] labels[i]) is None,
        k < labels.len() ==> number_in(labels[k]) is Some,
    ensures
        k < labels.len() ==> Some(first_number(labels)) == number_in(labels[k]),
        k == labels.len() ==> first_number(labels) == 1,
    decreases labels.len(),
{
    if k > 0 {
        let rest = labels.skip(1);
        assert forall|i: int| 0 <= i < k - 1 implies number_in(#[trigger] rest[i]) is None by {
            assert(rest[i] == labels[i + 1]);
        }
        assert(number_in(labels[0]) is None);
        law_first_number(rest, k - 1);
    }
}

} // verus!
