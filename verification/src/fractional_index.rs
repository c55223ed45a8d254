//! Order keys: strings between which another string can always be put.

use vstd::prelude::*;
use vstd::string::*;
use crate::text;

verus! {

/// The place of a letter in the alphabet, counted from 0; meaningless for other characters.
pub open spec fn digit(c: char) -> int {
    c as int - 'a' as int
}

/// Whether the character is one of the letters that order keys are made of.
pub open spec fn is_digit(c: char) -> bool {
    0 <= digit(c) < 26
}

/// The letters of a key as numbers; everything else in it is passed over.
pub open spec fn digits(s: Seq<char>) -> Seq<int> {
    s.filter(|c: char| is_digit(c)).map_values(|c: char| digit(c))
}

/// The digit at position `i`, or `end` behind the last one.
pub open spec fn digit_at(d: Seq<int>, i: int, end: int) -> int {
    if 0 <= i < d.len() {
        d[i]
    } else {
        end
    }
}

/// The digits of the new key from position `i` on. At each position the key keeps the digit of
/// `left` until there is room for a digit strictly between the two bounds. Once the key is below
/// `right` (`free`), the upper bound is no longer `right`.
pub open spec fn between(left: Seq<int>, right: Seq<int>, i: int, free: bool) -> Seq<int>
    decreases left.len() + right.len() - i,
{
    let lo = digit_at(left, i, 0);
    let hi = if free {
        26
    } else {
        digit_at(right, i, 26)
    };
    if hi > lo + 1 {
        seq![lo + (hi - lo) / 2]
    } else if i >= left.len() + right.len() {
        seq![]
    } else {
        seq![lo] + between(
            left,
            right,
            i + 1,
            free || (i < right.len() && lo < digit_at(right, i, 26)),
        )
    }
}

/// Digits written as letters.
pub open spec fn letters(d: Seq<int>) -> Seq<char> {
    d.map_values(|v: int| (v + 'a' as int) as char)
}

/// The text of an optional bound; an absent bound is empty.
pub open spec fn bound(b: Option<Seq<char>>) -> Seq<char> {
    match b {
        Some(s) => s,
        None => seq![],
    }
}

/// The key that goes between `left` and `right`.
pub open spec fn key_between(left: Option<Seq<char>>, right: Option<Seq<char>>) -> Seq<char> {
    let l = bound(left);
    let r = bound(right);
    if l.len() == 0 && r.len() == 0 {
        seq!['m']
    } else {
        let base = letters(between(digits(l), digits(r), 0, false));
        let above = if left is Some && !text::precedes(l, base) {
            l.push('m')
        } else {
            base
        };
        if right is Some && !text::precedes(above, r) {
            if left is Some {
                l.push('m')
            } else {
                above.push('a')
            }
        } else {
            above
        }
    }
}

/// The view of an optional string.
pub open spec fn bound_view(b: Option<&str>) -> Option<Seq<char>> {
    match b {
        Some(s) => Some(s@),
        None => None,
    }
}

/// The letters of a key as numbers.
fn digits_of(s: &str) -> (out: Vec<i32>)
    ensures
        out@.len() == digits(s@).len(),
        forall|i: int| 0 <= i < out@.len() ==> out@[i] == #[trigger] digits(s@)[i],
        forall|i: int| 0 <= i < out@.len() ==> 0 <= #[trigger] out@[i] < 26,
{
    let cs: Vec<char> = text::chars_of(s);
    let mut out: Vec<i32> = Vec::new();
    let ghost f = |c: char| is_digit(c);
    for i in 0..cs.len()
        invariant
            cs@ == s@,
            f == (|c: char| is_digit(c)),
            out@.len() == s@.take(i as int).filter(f).len(),
            forall|j: int|
                0 <= j < out@.len() ==> #[trigger] out@[j] == digit(
                    s@.take(i as int).filter(f)[j],
                ) && 0 <= out@[j] < 26,
    {
        let c: char = cs[i];
        proof {
            assert(s@.take(i + 1) =~= s@.take(i as int).push(c));
            s@.take(i as int).lemma_filter_push(c, f);
        }
        assert(f(c) == is_digit(c));
        if 'a' <= c && c <= 'z' {
            out.push(c as i32 - 97);
        }
    }
    assert(s@.take(s@.len() as int) =~= s@);
    out
}

/// A digit as a letter.
fn letter(v: i32) -> (out: char)
    requires
        0 <= v < 26,
    ensures
        out == (v + 'a' as int) as char,
{
    ((v as u8) + 97u8) as char
}

/// A key that sorts between `left` and `right`; either bound may be absent.
pub fn generate_key_between(left: Option<&str>, right: Option<&str>) -> (key: String)
    ensures
        key@ == key_between(bound_view(left), bound_view(right)),
{
    let left_str: &str = match left {
        Some(l) => l,
        None => "",
    };
    let right_str: &str = match right {
        Some(r) => r,
        None => "",
    };
    proof {
        reveal_strlit("");
        assert(left_str@ =~= bound(bound_view(left)));
        assert(right_str@ =~= bound(bound_view(right)));
    }
    if left_str.is_empty() && right_str.is_empty() {
        let mut out: String = String::new();
        out.push('m');
        assert(out@ =~= seq!['m']);
        return out;
    }
    let lv: Vec<i32> = digits_of(left_str);
    let rv: Vec<i32> = digits_of(right_str);
    let ghost ld = digits(left_str@);
    let ghost rd = digits(right_str@);

    let mut key: String = String::new();
    let mut i: usize = 0;
    let mut free: bool = false;
    let ghost whole = between(ld, rd, 0, false);
    assert(key@ + letters(whole) =~= letters(whole));
    loop
        invariant_except_break
            key@ + letters(between(ld, rd, i as int, free)) == letters(whole),
        invariant
            lv@.len() == ld.len(),
            rv@.len() == rd.len(),
            forall|j: int| 0 <= j < lv@.len() ==> lv@[j] == #[trigger] ld[j],
            forall|j: int| 0 <= j < rv@.len() ==> rv@[j] == #[trigger] rd[j],
            forall|j: int| 0 <= j < lv@.len() ==> 0 <= #[trigger] lv@[j] < 26,
            forall|j: int| 0 <= j < rv@.len() ==> 0 <= #[trigger] rv@[j] < 26,
            i <= lv@.len() || i <= rv@.len(),
        ensures
            key@ == letters(whole),
        decreases lv@.len() + rv@.len() - i,
    {
        let lo: i32 = if i < lv.len() {
            lv[i]
        } else {
            0
        };
        let hi: i32 = if free {
            26
        } else if i < rv.len() {
            rv[i]
        } else {
            26
        };
        if i < lv.len() {
            assert(lo == ld[i as int]);
        }
        if !free && i < rv.len() {
            assert(hi == rd[i as int]);
        }
        assert(lo == digit_at(ld, i as int, 0));
        if hi > lo + 1 {
            let mid: i32 = lo + (hi - lo) / 2;
            let ghost before = key@;
            key.push(letter(mid));
            proof {
                assert(between(ld, rd, i as int, free) =~= seq![mid as int]);
                assert(before + letters(seq![mid as int]) =~= key@);
            }
            break;
        } else {
            let ghost before = key@;
            let next: bool = free || (i < rv.len() && lo < rv[i]);
            proof {
                if i < rv.len() {
                    assert(rv@[i as int] == rd[i as int]);
                }
                assert(i < ld.len() || i < rd.len());
                assert(between(ld, rd, i as int, free) == seq![lo as int] + between(
                    ld,
                    rd,
                    i + 1,
                    next,
                ));
                assert(letters(between(ld, rd, i as int, free)) =~= seq![
                    (lo + 'a' as int) as char,
                ] + letters(between(ld, rd, i + 1, next)));
            }
            key.push(letter(lo));
            free = next;
            assert(key@ + letters(between(ld, rd, i + 1, free)) =~= before + (seq![
                (lo + 'a' as int) as char,
            ] + letters(between(ld, rd, i + 1, next))));
            i = i + 1;
        }
    }
    if let Some(l) = left {
        if !text::less(l, key.as_str()) {
            key = l.to_owned();
            key.push('m');
        }
    }
    if let Some(r) = right {
        if !text::less(key.as_str(), r) {
            if let Some(l) = left {
                key = l.to_owned();
                key.push('m');
            } else {
                key.push('a');
            }
        }
    }
    key
}

/// A key made of letters only.
pub open spec fn is_key(s: Seq<char>) -> bool {
    forall|i: int| 0 <= i < s.len() ==> is_digit(#[trigger] s[i])
}

/// `right` is `left` followed by nothing but the letter `a`, once or more. No key of letters fits
/// between such a pair.
pub open spec fn touching(left: Seq<char>, right: Seq<char>) -> bool {
    &&& left.len() < right.len()
    &&& forall|i: int| 0 <= i < left.len() ==> left[i] == right[i]
    &&& forall|i: int| left.len() <= i < right.len() ==> right[i] == 'a'
}

/// The new key always comes after the left bound, whatever the bounds are.
pub proof fn law_after_left(left: Seq<char>, right: Option<Seq<char>>)
    ensures
        text::precedes(left, key_between(Some(left), right)),
{
    assert(text::below_at(left, left.push('m'), left.len() as int));
    assert(text::below_at(Seq::<char>::empty(), seq!['m'], 0));
    if left.len() == 0 {
        assert(left =~= Seq::<char>::empty());
    }
}

/// Between two keys of letters, the first before the second, the new key falls strictly between
/// them, except where the second is the first followed by the letter `a` alone.
pub proof fn law_strictly_between(left: Seq<char>, right: Seq<char>)
    requires
        is_key(left),
        is_key(right),
        text::precedes(left, right),
        !touching(left, right),
    ensures
        text::precedes(left, key_between(Some(left), Some(right))),
        text::precedes(key_between(Some(left), Some(right)), right),
{
    lemma_base_between(left, right);
    assert(right.len() > 0);
}

/// Before a key of letters that is not made of the letter `a` alone there is always room.
pub proof fn law_before_right(right: Seq<char>)
    requires
        is_key(right),
        !touching(Seq::empty(), right),
        right.len() > 0,
    ensures
        text::precedes(key_between(None, Some(right)), right),
{
    assert(text::below_at(Seq::<char>::empty(), right, 0));
    lemma_base_between(Seq::empty(), right);
}

/// A key as the library makes them: letters only, at least one, the last of them not `a`.
pub open spec fn tidy(s: Seq<char>) -> bool {
    is_key(s) && s.len() > 0 && s.last() != 'a'
}

/// Keys made by the library stay keys between which others can be put: between tidy bounds in
/// order, present or absent, the new key is tidy, after the left bound and before the right one.
pub proof fn law_tidy_keys(left: Option<Seq<char>>, right: Option<Seq<char>>)
    requires
        left matches Some(l) ==> tidy(l),
        right matches Some(r) ==> tidy(r),
        left is Some && right is Some ==> text::precedes(left->0, right->0),
    ensures
        tidy(key_between(left, right)),
        left matches Some(l) ==> text::precedes(l, key_between(left, right)),
        right matches Some(r) ==> text::precedes(key_between(left, right), r),
{
    match (left, right) {
        (Some(l), Some(r)) => {
            lemma_base_between(l, r);
        },
        (Some(l), None) => {
            lemma_base_after(l);
        },
        (None, Some(r)) => {
            assert(text::below_at(Seq::<char>::empty(), r, 0));
            lemma_base_between(Seq::empty(), r);
        },
        (None, None) => {},
    }
}

/// With no bound at all the key is the letter in the middle.
pub proof fn law_first_key()
    ensures
        key_between(None, None) == seq!['m'],
{
}

/// The digits of a key of letters are its letters, one for one.
proof fn lemma_digits_of_key(s: Seq<char>)
    requires
        is_key(s),
    ensures
        digits(s).len() == s.len(),
        forall|i: int| 0 <= i < s.len() ==> #[trigger] digits(s)[i] == digit(s[i]),
{
    lemma_filter_keeps(s);
}

proof fn lemma_filter_keeps(s: Seq<char>)
    requires
        is_key(s),
    ensures
        s.filter(|c: char| is_digit(c)) == s,
    decreases s.len(),
{
    let f = |c: char| is_digit(c);
    reveal(Seq::filter);
    if s.len() == 0 {
        assert(s.filter(f) =~= s);
    } else {
        assert forall|i: int| 0 <= i < s.drop_last().len() implies is_digit(
            #[trigger] s.drop_last()[i],
        ) by {
            assert(is_digit(s[i]));
        }
        lemma_filter_keeps(s.drop_last());
        assert(is_digit(s[s.len() - 1]));
        assert(f(s.last()));
        assert(s.filter(f) =~= s.drop_last().push(s.last()));
    }
}

/// The first position at or behind `from` at which `s` is not the letter `a`.
proof fn lemma_first_other(s: Seq<char>, from: int) -> (k: int)
    requires
        0 <= from <= s.len(),
        exists|i: int| from <= i < s.len() && s[i] != 'a',
    ensures
        from <= k < s.len(),
        s[k] != 'a',
        forall|i: int| from <= i < k ==> s[i] == 'a',
    decreases s.len() - from,
{
    if s[from] != 'a' {
        from
    } else {
        lemma_first_other(s, from + 1)
    }
}

/// What the digits of the new key are from position `i` on, where `k` is the first position at
/// which there is room above `left`.
proof fn lemma_between(left: Seq<int>, right: Seq<int>, i: int, free: bool, k: int)
    requires
        0 <= i <= left.len() + right.len(),
        forall|j: int| 0 <= j < left.len() ==> 0 <= #[trigger] left[j] < 26,
        forall|j: int| 0 <= j < right.len() ==> 0 <= #[trigger] right[j] < 26,
        !free && right.len() > 0 ==> 0 <= i <= k < right.len() && digit_at(left, k, 0) < right[k],
        !free && right.len() > 0 ==> forall|j: int|
            0 <= j < k ==> digit_at(left, j, 0) == #[trigger] right[j],
    ensures
        ({
            let b = between(left, right, i, free);
            let n = b.len() - 1;
            &&& n >= 0
            &&& forall|j: int| 0 <= j < n ==> #[trigger] b[j] == digit_at(left, i + j, 0)
            &&& digit_at(left, i + n, 0) < b[n] < 26
            &&& forall|j: int| 0 <= j <= n ==> 0 <= #[trigger] b[j] < 26
            &&& !free && right.len() > 0 ==> k - i <= n && b[k - i] < right[k]
        }),
    decreases left.len() + right.len() - i,
{
    let b = between(left, right, i, free);
    let lo = digit_at(left, i, 0);
    let hi = if free {
        26
    } else {
        digit_at(right, i, 26)
    };
    assert(0 <= lo < 26);
    if !free && right.len() > 0 && i < k {
        assert(right[i] == lo);
    }
    if hi > lo + 1 {
        assert(b =~= seq![lo + (hi - lo) / 2]);
    } else {
        let next = free || (i < right.len() && lo < digit_at(right, i, 26));
        lemma_between(left, right, i + 1, next, k);
        let rest = between(left, right, i + 1, next);
        assert(b == seq![lo] + rest);
        assert forall|j: int| 0 <= j < b.len() - 1 implies #[trigger] b[j] == digit_at(
            left,
            i + j,
            0,
        ) by {
            if j > 0 {
                assert(b[j] == rest[j - 1]);
            }
        }
        assert forall|j: int| 0 <= j < b.len() implies 0 <= #[trigger] b[j] < 26 by {
            if j > 0 {
                assert(b[j] == rest[j - 1]);
            }
        }
        assert(b[b.len() - 1] == rest[rest.len() - 1]);
        if !free && right.len() > 0 && i < k {
            assert(b[k - i] == rest[k - i - 1]);
        }
    }
}

/// The walk over the digits alone already gives a key strictly between the bounds.
proof fn lemma_base_between(left: Seq<char>, right: Seq<char>)
    requires
        is_key(left),
        is_key(right),
        text::precedes(left, right),
        !touching(left, right),
    ensures
        ({
            let base = letters(between(digits(left), digits(right), 0, false));
            &&& text::precedes(left, base)
            &&& text::precedes(base, right)
            &&& tidy(base)
        }),
{
    let l = digits(left);
    let r = digits(right);
    lemma_digits_of_key(left);
    lemma_digits_of_key(right);
    let m = choose|m: int| text::below_at(left, right, m);
    let k = if m < left.len() {
        m
    } else {
        assert(exists|i: int| left.len() <= i < right.len() && right[i] != 'a');
        lemma_first_other(right, left.len() as int)
    };
    assert forall|j: int| 0 <= j < l.len() implies 0 <= #[trigger] l[j] < 26 by {
        assert(is_digit(left[j]));
    }
    assert forall|j: int| 0 <= j < r.len() implies 0 <= #[trigger] r[j] < 26 by {
        assert(is_digit(right[j]));
    }
    assert forall|j: int| 0 <= j < k implies digit_at(l, j, 0) == #[trigger] r[j] by {
        if j < left.len() {
            assert(l[j] == digit(left[j]));
            assert(left[j] == right[j]);
        }
    }
    assert(is_digit(right[k]));
    if k < left.len() {
        assert(l[k] == digit(left[k]));
    }
    lemma_between(l, r, 0, false, k);
    let b = between(l, r, 0, false);
    let base = letters(b);
    let n = b.len() - 1;
    assert forall|j: int| 0 <= j < b.len() implies digit(#[trigger] base[j]) == b[j] by {
        assert(0 <= b[j] < 26);
    }
    if n < left.len() {
        assert forall|j: int| 0 <= j < n implies left[j] == base[j] by {
            assert(b[j] == digit_at(l, j, 0));
            assert(digit(base[j]) == b[j]);
        }
        assert(digit(base[n]) == b[n]);
        assert(text::below_at(left, base, n));
    } else {
        assert forall|j: int| 0 <= j < left.len() implies left[j] == base[j] by {
            if j < n {
                assert(b[j] == digit_at(l, j, 0));
            }
            assert(digit(base[j]) == b[j]);
        }
        assert(text::below_at(left, base, left.len() as int));
    }
    assert forall|j: int| 0 <= j < k implies base[j] == right[j] by {
        assert(b[j] == digit_at(l, j, 0));
        assert(digit(base[j]) == b[j]);
        assert(r[j] == digit(right[j]));
    }
    assert(digit(base[k]) == b[k]);
    assert(text::below_at(base, right, k));
    assert(digit(base[n]) == b[n]);
}

/// Without a right bound the walk gives a key after the left one.
proof fn lemma_base_after(left: Seq<char>)
    requires
        is_key(left),
    ensures
        ({
            let base = letters(between(digits(left), digits(Seq::empty()), 0, false));
            text::precedes(left, base) && tidy(base)
        }),
{
    let l = digits(left);
    lemma_digits_of_key(left);
    lemma_digits_of_key(Seq::empty());
    let r = digits(Seq::empty());
    assert forall|j: int| 0 <= j < l.len() implies 0 <= #[trigger] l[j] < 26 by {
        assert(is_digit(left[j]));
    }
    lemma_between(l, r, 0, false, 0);
    let b = between(l, r, 0, false);
    let base = letters(b);
    let n = b.len() - 1;
    assert forall|j: int| 0 <= j < b.len() implies digit(#[trigger] base[j]) == b[j] by {
        assert(0 <= b[j] < 26);
    }
    assert(digit(base[n]) == b[n]);
    let k = if n < left.len() {
        n
    } else {
        left.len() as int
    };
    assert forall|j: int| 0 <= j < k implies left[j] == base[j] by {
        assert(b[j] == digit_at(l, j, 0));
        assert(digit(base[j]) == b[j]);
    }
    assert(text::below_at(left, base, k));
}

// ---- where the new key stands ----

/// A digit written as a letter.
pub open spec fn letter_of(d: int) -> char {
    ('a' as int + d) as char
}

proof fn lemma_one_digit(d: int)
    requires
        0 <= d < 26,
    ensures
        is_key(seq![letter_of(d)]),
        digits(seq![letter_of(d)]) == seq![d],
        digits(Seq::<char>::empty()) == Seq::<int>::empty(),
{
    let s = seq![letter_of(d)];
    assert(digit(letter_of(d)) == d);
    assert(is_key(s));
    lemma_digits_of_key(s);
    assert(digits(s)[0] == d);
    assert(digits(s) =~= seq![d]);
    lemma_digits_of_key(Seq::empty());
    assert(digits(Seq::<char>::empty()) =~= Seq::<int>::empty());
}

/// Between two letters with another one between them the new key is the letter in the middle; an
/// absent bound lies before the first or behind the last letter.
pub proof fn law_middle_letter(a: int, b: int)
    requires
        0 <= a < 26,
        0 <= b < 26,
    ensures
        a + 2 <= b ==> key_between(Some(seq![letter_of(a)]), Some(seq![letter_of(b)])) == seq![
            letter_of(a + (b - a) / 2),
        ],
        a <= 24 ==> key_between(Some(seq![letter_of(a)]), None) == seq![
            letter_of(a + (26 - a) / 2),
        ],
        b >= 2 ==> key_between(None, Some(seq![letter_of(b)])) == seq![letter_of(b / 2)],
{
    lemma_one_digit(a);
    lemma_one_digit(b);
    let l = seq![letter_of(a)];
    let r = seq![letter_of(b)];
    let none = Seq::<char>::empty();
    if a + 2 <= b {
        let m = a + (b - a) / 2;
        let k = seq![letter_of(m)];
        assert(letters(between(seq![a], seq![b], 0, false)) =~= k);
        assert(text::below_at(l, k, 0));
        assert(text::below_at(k, r, 0));
    }
    if a <= 24 {
        let m = a + (26 - a) / 2;
        let k = seq![letter_of(m)];
        assert(letters(between(seq![a], seq![], 0, false)) =~= k);
        assert(text::below_at(l, k, 0));
        assert(bound(None) =~= none);
    }
    if b >= 2 {
        let k = seq![letter_of(b / 2)];
        assert(letters(between(seq![], seq![b], 0, false)) =~= k);
        assert(text::below_at(k, r, 0));
        assert(bound(None) =~= none);
    }
}

proof fn lemma_between_shift(
    p: Seq<int>,
    left: Seq<int>,
    right: Seq<int>,
    i: int,
    free: bool,
)
    requires
        0 <= i,
        forall|j: int| 0 <= j < left.len() ==> 0 <= #[trigger] left[j] < 26,
        forall|j: int| 0 <= j < right.len() ==> 0 <= #[trigger] right[j] < 26,
        i <= left.len() + right.len(),
    ensures
        between(p + left, p + right, p.len() + i, free) == between(left, right, i, free),
    decreases left.len() + right.len() - i,
{
    let n = p.len() as int;
    assert(digit_at(p + left, n + i, 0) == digit_at(left, i, 0));
    assert(digit_at(p + right, n + i, 26) == digit_at(right, i, 26));
    let lo = digit_at(left, i, 0);
    let hi = if free {
        26
    } else {
        digit_at(right, i, 26)
    };
    if hi <= lo + 1 {
        assert(i < left.len() || i < right.len());
        let next = free || (i < right.len() && lo < digit_at(right, i, 26));
        lemma_between_shift(p, left, right, i + 1, next);
    }
}

proof fn lemma_between_prefix(p: Seq<int>, left: Seq<int>, right: Seq<int>, i: int)
    requires
        0 <= i <= p.len(),
        forall|j: int| 0 <= j < left.len() ==> 0 <= #[trigger] left[j] < 26,
        forall|j: int| 0 <= j < right.len() ==> 0 <= #[trigger] right[j] < 26,
    ensures
        between(p + left, p + right, i, false) == p.skip(i) + between(left, right, 0, false),
    decreases p.len() - i,
{
    if i == p.len() {
        lemma_between_shift(p, left, right, 0, false);
        assert(p.skip(i) + between(left, right, 0, false) =~= between(left, right, 0, false));
    } else {
        lemma_between_prefix(p, left, right, i + 1);
        assert((p + left)[i] == p[i] && (p + right)[i] == p[i]);
        assert(seq![p[i]] + (p.skip(i + 1) + between(left, right, 0, false)) =~= p.skip(i) + between(
            left,
            right,
            0,
            false,
        ));
    }
}

/// What two keys begin with in common, the key between them begins with too; behind it stands the
/// key between what is left of them.
pub proof fn law_common_front(p: Seq<char>, left: Seq<char>, right: Seq<char>)
    requires
        is_key(p),
        is_key(left),
        is_key(right),
        text::precedes(left, right),
        !touching(left, right),
    ensures
        key_between(Some(p + left), Some(p + right)) == p + key_between(Some(left), Some(right)),
{
    let l = p + left;
    let r = p + right;
    assert(is_key(l)) by {
        assert forall|i: int| 0 <= i < l.len() implies is_digit(#[trigger] l[i]) by {
            if i < p.len() {
                assert(is_digit(p[i]));
            } else {
                assert(is_digit(left[i - p.len()]));
            }
        }
    }
    assert(is_key(r)) by {
        assert forall|i: int| 0 <= i < r.len() implies is_digit(#[trigger] r[i]) by {
            if i < p.len() {
                assert(is_digit(p[i]));
            } else {
                assert(is_digit(right[i - p.len()]));
            }
        }
    }
    let m = choose|m: int| text::below_at(left, right, m);
    assert(text::below_at(l, r, m + p.len())) by {
        assert forall|j: int| 0 <= j < m + p.len() implies l[j] == r[j] by {
            if j >= p.len() {
                assert(left[j - p.len()] == right[j - p.len()]);
            }
        }
    }
    assert(!touching(l, r)) by {
        if touching(l, r) {
            assert forall|i: int| 0 <= i < left.len() implies left[i] == right[i] by {
                assert(l[i + p.len()] == r[i + p.len()]);
            }
            assert forall|i: int| left.len() <= i < right.len() implies right[i] == 'a' by {
                assert(r[i + p.len()] == 'a');
            }
        }
    }
    lemma_base_between(left, right);
    lemma_base_between(l, r);
    lemma_digits_of_key(p);
    lemma_digits_of_key(left);
    lemma_digits_of_key(right);
    lemma_digits_of_key(l);
    lemma_digits_of_key(r);
    assert(digits(l) =~= digits(p) + digits(left)) by {
        assert forall|i: int| 0 <= i < l.len() implies digits(l)[i] == (digits(p) + digits(left))[i] by {
            assert(digits(l)[i] == digit(l[i]));
            if i < p.len() {
                assert(digits(p)[i] == digit(p[i]));
            } else {
                assert(digits(left)[i - p.len()] == digit(left[i - p.len()]));
            }
        }
    }
    assert(digits(r) =~= digits(p) + digits(right)) by {
        assert forall|i: int| 0 <= i < r.len() implies digits(r)[i] == (digits(p) + digits(right))[i] by {
            assert(digits(r)[i] == digit(r[i]));
            if i < p.len() {
                assert(digits(p)[i] == digit(p[i]));
            } else {
                assert(digits(right)[i - p.len()] == digit(right[i - p.len()]));
            }
        }
    }
    let dl = digits(left);
    let dr = digits(right);
    assert forall|j: int| 0 <= j < dl.len() implies 0 <= #[trigger] dl[j] < 26 by {
        assert(is_digit(left[j]));
    }
    assert forall|j: int| 0 <= j < dr.len() implies 0 <= #[trigger] dr[j] < 26 by {
        assert(is_digit(right[j]));
    }
    lemma_between_prefix(digits(p), dl, dr, 0);
    assert(digits(p).skip(0) =~= digits(p));
    let b = between(dl, dr, 0, false);
    assert(letters(digits(p) + b) =~= p + letters(b)) by {
        assert forall|i: int| 0 <= i < p.len() implies letters(digits(p) + b)[i] == p[i] by {
            assert(digits(p)[i] == digit(p[i]));
            assert(is_digit(p[i]));
        }
    }
    assert(right.len() > 0);
}

} // verus!
