//! Strings as sequences of characters: the searching, cutting and comparing that the rest of the
//! library is built on.

use vstd::prelude::*;
use vstd::string::*;

verus! {

/// `String::push`: appends one character at the end.
pub assume_specification[ String::push ](s: &mut String, ch: char)
    ensures
        final(s)@ == old(s)@.push(ch),
;

/// The characters of a string.
pub fn chars_of(s: &str) -> (out: Vec<char>)
    ensures
        out@ == s@,
{
    let mut out: Vec<char> = Vec::new();
    for c in it: s.chars()
        invariant
            out@ == it.seq().take(it.index()),
    {
        out.push(c);
    }
    out
}

/// The view of an optional string.
pub open spec fn opt_view(s: Option<String>) -> Option<Seq<char>> {
    match s {
        Some(s) => Some(s@),
        None => None,
    }
}

/// Whether two strings hold the same characters.
pub fn same(a: &str, b: &str) -> (out: bool)
    ensures
        out == (a@ == b@),
{
    let x: Vec<char> = chars_of(a);
    let y: Vec<char> = chars_of(b);
    if x.len() != y.len() {
        return false;
    }
    for i in 0..x.len()
        invariant
            x@ == a@,
            y@ == b@,
            x@.len() == y@.len(),
            a@.take(i as int) == b@.take(i as int),
    {
        if x[i] != y[i] {
            assert(a@[i as int] != b@[i as int]);
            return false;
        }
        assert(a@.take(i + 1) =~= a@.take(i as int).push(a@[i as int]));
        assert(b@.take(i + 1) =~= b@.take(i as int).push(b@[i as int]));
    }
    assert(a@ =~= a@.take(x@.len() as int));
    assert(b@ =~= b@.take(x@.len() as int));
    true
}

/// Two strings one after the other.
pub fn concat2(a: &str, b: &str) -> (out: String)
    ensures
        out@ == a@ + b@,
{
    let mut out: String = a.to_owned();
    out.append(b);
    out
}

/// Three strings one after the other.
pub fn concat3(a: &str, b: &str, c: &str) -> (out: String)
    ensures
        out@ == a@ + b@ + c@,
{
    let mut out: String = a.to_owned();
    out.append(b);
    out.append(c);
    out
}

// ---- order ----

/// `a` comes before `b` because of position `k`: they agree up to `k`, where either `a` ends or
/// its character is smaller.
pub open spec fn below_at(a: Seq<char>, b: Seq<char>, k: int) -> bool {
    &&& 0 <= k <= a.len()
    &&& k < b.len()
    &&& forall|j: int| 0 <= j < k ==> a[j] == b[j]
    &&& k == a.len() || a[k] < b[k]
}

/// The order of strings: by the first character in which they differ, a prefix before anything
/// longer.
pub open spec fn precedes(a: Seq<char>, b: Seq<char>) -> bool {
    exists|k: int| below_at(a, b, k)
}

/// Of two different strings exactly one comes before the other, and no string before itself.
pub proof fn lemma_order_total(a: Seq<char>, b: Seq<char>)
    ensures
        precedes(a, b) ==> !precedes(b, a) && a != b,
        precedes(b, a) ==> !precedes(a, b) && a != b,
        a != b ==> precedes(a, b) || precedes(b, a),
        !precedes(a, a),
{
    if precedes(a, b) && precedes(b, a) {
        let k = choose|k: int| below_at(a, b, k);
        let m = choose|m: int| below_at(b, a, m);
        if k < m {
            assert(a[k] == b[k]);
        } else if m < k {
            assert(a[m] == b[m]);
        }
        assert(false);
    }
    if precedes(a, b) {
        let k = choose|k: int| below_at(a, b, k);
        assert(a != b);
    }
    if precedes(b, a) {
        let k = choose|k: int| below_at(b, a, k);
        assert(a != b);
    }
    if precedes(a, a) {
        let k = choose|k: int| below_at(a, a, k);
        assert(false);
    }
    if a != b {
        lemma_first_difference(a, b, 0);
    }
}

/// Two different strings that agree on their first `k` characters are ordered one way or the
/// other.
proof fn lemma_first_difference(a: Seq<char>, b: Seq<char>, k: int)
    requires
        a != b,
        0 <= k <= a.len(),
        k <= b.len(),
        forall|j: int| 0 <= j < k ==> a[j] == b[j],
    ensures
        precedes(a, b) || precedes(b, a),
    decreases a.len() - k,
{
    if k == a.len() {
        if k == b.len() {
            assert(a =~= b);
        }
        assert(below_at(a, b, k));
    } else if k == b.len() {
        assert(below_at(b, a, k));
    } else if a[k] < b[k] {
        assert(below_at(a, b, k));
    } else if b[k] < a[k] {
        assert(below_at(b, a, k));
    } else {
        lemma_first_difference(a, b, k + 1);
    }
}

/// What comes before something that comes before a third comes before the third.
pub proof fn lemma_precedes_chain(a: Seq<char>, b: Seq<char>, c: Seq<char>)
    requires
        precedes(a, b),
        precedes(b, c),
    ensures
        precedes(a, c),
{
    let k = choose|k: int| below_at(a, b, k);
    let m = choose|m: int| below_at(b, c, m);
    if k <= m {
        assert(below_at(a, c, k));
    } else {
        assert(below_at(a, c, m));
    }
}

/// Whether `a` comes before `b` in the order of strings.
pub fn less(a: &str, b: &str) -> (out: bool)
    ensures
        out == precedes(a@, b@),
{
    let x: Vec<char> = chars_of(a);
    let y: Vec<char> = chars_of(b);
    let mut i: usize = 0;
    while i < x.len() && i < y.len()
        invariant
            x@ == a@,
            y@ == b@,
            i <= x@.len(),
            i <= y@.len(),
            forall|j: int| 0 <= j < i ==> a@[j] == b@[j],
        decreases x@.len() - i,
    {
        if x[i] < y[i] {
            assert(below_at(a@, b@, i as int));
            return true;
        }
        if y[i] < x[i] {
            assert(below_at(b@, a@, i as int));
            proof {
                lemma_order_total(a@, b@);
            }
            return false;
        }
        i = i + 1;
    }
    let out: bool = i < y.len();
    proof {
        lemma_order_total(a@, b@);
        if i < y@.len() {
            assert(below_at(a@, b@, i as int));
        } else if i < x@.len() {
            assert(below_at(b@, a@, i as int));
        } else {
            assert(a@ =~= b@);
        }
    }
    out
}

// ---- searching ----

/// `pat` stands in `s` at position `i`.
pub open spec fn at(s: Seq<char>, pat: Seq<char>, i: int) -> bool {
    0 <= i && i + pat.len() <= s.len() && s.subrange(i, i + pat.len()) == pat
}

/// The first position at or behind `from` at which `pat` stands in `s`.
pub open spec fn find_from(s: Seq<char>, pat: Seq<char>, from: int) -> Option<int>
    decreases s.len() - from + 1,
{
    if from + pat.len() > s.len() {
        None
    } else if at(s, pat, from) {
        Some(from)
    } else {
        find_from(s, pat, from + 1)
    }
}

/// The first position at which `pat` stands in `s`.
pub open spec fn find_in(s: Seq<char>, pat: Seq<char>) -> Option<int> {
    find_from(s, pat, 0)
}

/// Whether `pat` stands anywhere in `s`.
pub open spec fn has(s: Seq<char>, pat: Seq<char>) -> bool {
    exists|i: int| at(s, pat, i)
}

/// What is found is an occurrence, and no earlier one exists.
pub proof fn lemma_find_from(s: Seq<char>, pat: Seq<char>, from: int)
    requires
        0 <= from,
    ensures
        find_from(s, pat, from) matches Some(k) ==> from <= k && at(s, pat, k),
        find_from(s, pat, from) matches Some(k) ==> forall|j: int|
            from <= j < k ==> !#[trigger] at(s, pat, j),
        find_from(s, pat, from) is None ==> forall|j: int| from <= j ==> !#[trigger] at(s, pat, j),
    decreases s.len() - from + 1,
{
    if from + pat.len() > s.len() {
    } else if at(s, pat, from) {
    } else {
        lemma_find_from(s, pat, from + 1);
    }
}

/// Whether `pat` stands in `s` at position `i`.
pub fn is_at(s: &Vec<char>, pat: &Vec<char>, i: usize) -> (out: bool)
    ensures
        out == at(s@, pat@, i as int),
{
    if pat.len() > s.len() || i > s.len() - pat.len() {
        return false;
    }
    let ghost cut = s@.subrange(i as int, i + pat@.len());
    for k in 0..pat.len()
        invariant
            i + pat@.len() <= s.len(),
            cut == s@.subrange(i as int, i + pat@.len()),
            forall|j: int| 0 <= j < k ==> cut[j] == pat@[j],
    {
        if s[i + k] != pat[k] {
            assert(cut[k as int] != pat@[k as int]);
            return false;
        }
        assert(cut[k as int] == pat@[k as int]);
    }
    assert(cut =~= pat@);
    true
}

/// The first position, in characters, at which `pat` stands in `s`.
pub fn find(s: &str, pat: &str) -> (out: Option<usize>)
    ensures
        out is Some == find_in(s@, pat@) is Some,
        out matches Some(k) ==> k == find_in(s@, pat@)->0 && k + pat@.len() <= s@.len(),
        out matches Some(k) ==> k + pat@.len() <= usize::MAX,
{
    let x: Vec<char> = chars_of(s);
    let y: Vec<char> = chars_of(pat);
    if y.len() > x.len() {
        return None;
    }
    let last: usize = x.len() - y.len();
    let mut i: usize = 0;
    loop
        invariant
            x@ == s@,
            y@ == pat@,
            last == x.len() - y.len(),
            i <= last,
            find_from(s@, pat@, 0) == find_from(s@, pat@, i as int),
        decreases last - i,
    {
        if is_at(&x, &y, i) {
            return Some(i);
        }
        if i == last {
            assert(find_from(s@, pat@, i + 1) is None);
            return None;
        }
        i = i + 1;
    }
}

/// Whether `pat` stands anywhere in `s`.
pub fn contains(s: &str, pat: &str) -> (out: bool)
    ensures
        out == has(s@, pat@),
{
    proof {
        lemma_find_from(s@, pat@, 0);
        if find_in(s@, pat@) is None {
            assert forall|i: int| !at(s@, pat@, i) by {
                if 0 <= i {
                    assert(!at(s@, pat@, i));
                }
            }
        }
    }
    find(s, pat).is_some()
}

/// Whether the character stands anywhere in `s`.
pub fn contains_char(s: &str, c: char) -> (out: bool)
    ensures
        out == s@.contains(c),
{
    let x: Vec<char> = chars_of(s);
    for i in 0..x.len()
        invariant
            x@ == s@,
            forall|j: int| 0 <= j < i ==> s@[j] != c,
    {
        if x[i] == c {
            assert(s@[i as int] == c);
            return true;
        }
    }
    false
}

/// `s` begins with `pre`.
pub open spec fn begins(s: Seq<char>, pre: Seq<char>) -> bool {
    at(s, pre, 0)
}

/// `s` ends with `suf`.
pub open spec fn ends(s: Seq<char>, suf: Seq<char>) -> bool {
    at(s, suf, s.len() - suf.len())
}

/// Whether `s` begins with `pre`.
pub fn starts_with(s: &str, pre: &str) -> (out: bool)
    ensures
        out == begins(s@, pre@),
{
    is_at(&chars_of(s), &chars_of(pre), 0)
}

/// Whether `s` ends with `suf`.
pub fn ends_with(s: &str, suf: &str) -> (out: bool)
    ensures
        out == ends(s@, suf@),
{
    let x: Vec<char> = chars_of(s);
    let y: Vec<char> = chars_of(suf);
    if y.len() > x.len() {
        false
    } else {
        is_at(&x, &y, x.len() - y.len())
    }
}

/// The characters of `s` from `a` up to but not including `b`.
pub fn slice(s: &str, a: usize, b: usize) -> (out: String)
    requires
        a <= b <= s@.len(),
    ensures
        out@ == s@.subrange(a as int, b as int),
{
    s.substring_char(a, b).to_owned()
}

/// The characters of `s` from `a` on.
pub fn skip(s: &str, a: usize) -> (out: String)
    requires
        a <= s@.len(),
    ensures
        out@ == s@.skip(a as int),
{
    let n: usize = s.unicode_len();
    let out: String = slice(s, a, n);
    assert(out@ =~= s@.skip(a as int));
    out
}

/// The first `n` characters of `s`.
pub fn take(s: &str, n: usize) -> (out: String)
    requires
        n <= s@.len(),
    ensures
        out@ == s@.take(n as int),
{
    let out: String = slice(s, 0, n);
    assert(out@ =~= s@.take(n as int));
    out
}

/// The last position at which the character stands in `s`.
pub open spec fn last_index(s: Seq<char>, c: char) -> Option<int>
    decreases s.len(),
{
    if s.len() == 0 {
        None
    } else if s.last() == c {
        Some(s.len() - 1)
    } else {
        last_index(s.drop_last(), c)
    }
}

/// The last position, in characters, at which the character stands in `s`.
pub fn rfind(s: &str, c: char) -> (out: Option<usize>)
    ensures
        out is Some == last_index(s@, c) is Some,
        out matches Some(k) ==> k == last_index(s@, c)->0 && k < s@.len() && k < usize::MAX,
{
    let x: Vec<char> = chars_of(s);
    let mut n: usize = x.len();
    assert(s@.take(n as int) =~= s@);
    while n > 0
        invariant
            x@ == s@,
            n <= x@.len(),
            last_index(s@, c) == last_index(s@.take(n as int), c),
        decreases n,
    {
        assert(s@.take(n as int).drop_last() =~= s@.take(n - 1));
        if x[n - 1] == c {
            return Some(n - 1);
        }
        n = n - 1;
    }
    None
}

// ---- cutting ----

/// `s` without the run of `c` at its front.
pub open spec fn strip_front(s: Seq<char>, c: char) -> Seq<char>
    decreases s.len(),
{
    if s.len() > 0 && s[0] == c {
        strip_front(s.skip(1), c)
    } else {
        s
    }
}

/// `s` without the run of `c` at its back.
pub open spec fn strip_back(s: Seq<char>, c: char) -> Seq<char>
    decreases s.len(),
{
    if s.len() > 0 && s.last() == c {
        strip_back(s.drop_last(), c)
    } else {
        s
    }
}

/// `s` without the run of `c` at its front.
pub fn trim_start_matches(s: &str, c: char) -> (out: String)
    ensures
        out@ == strip_front(s@, c),
{
    let x: Vec<char> = chars_of(s);
    let mut a: usize = 0;
    assert(s@.skip(0) =~= s@);
    while a < x.len() && x[a] == c
        invariant
            x@ == s@,
            a <= x@.len(),
            strip_front(s@, c) == strip_front(s@.skip(a as int), c),
        decreases x@.len() - a,
    {
        assert(s@.skip(a as int).skip(1) =~= s@.skip(a + 1));
        a = a + 1;
    }
    skip(s, a)
}

/// `s` without the run of `c` at its back.
pub fn trim_end_matches(s: &str, c: char) -> (out: String)
    ensures
        out@ == strip_back(s@, c),
{
    let x: Vec<char> = chars_of(s);
    let mut b: usize = x.len();
    assert(s@.take(b as int) =~= s@);
    while b > 0 && x[b - 1] == c
        invariant
            x@ == s@,
            b <= x@.len(),
            strip_back(s@, c) == strip_back(s@.take(b as int), c),
        decreases b,
    {
        assert(s@.take(b as int).drop_last() =~= s@.take(b - 1));
        b = b - 1;
    }
    take(s, b)
}

/// The characters that count as white space: the Unicode property of that name.
pub open spec fn is_white(c: char) -> bool {
    let n = c as int;
    ||| 0x9 <= n <= 0xD
    ||| n == 0x20
    ||| n == 0x85
    ||| n == 0xA0
    ||| n == 0x1680
    ||| 0x2000 <= n <= 0x200A
    ||| n == 0x2028
    ||| n == 0x2029
    ||| n == 0x202F
    ||| n == 0x205F
    ||| n == 0x3000
}

/// Whether the character counts as white space.
pub fn is_space(c: char) -> (out: bool)
    ensures
        out == is_white(c),
{
    ('\u{9}' <= c && c <= '\u{d}') || c == ' ' || c == '\u{85}' || c == '\u{a0}' || c == '\u{1680}'
        || ('\u{2000}' <= c && c <= '\u{200a}') || c == '\u{2028}' || c == '\u{2029}' || c
        == '\u{202f}' || c == '\u{205f}' || c == '\u{3000}'
}

/// `s` without the white space at its front.
pub open spec fn trim_front(s: Seq<char>) -> Seq<char>
    decreases s.len(),
{
    if s.len() > 0 && is_white(s[0]) {
        trim_front(s.skip(1))
    } else {
        s
    }
}

/// `s` without the white space at its back.
pub open spec fn trim_back(s: Seq<char>) -> Seq<char>
    decreases s.len(),
{
    if s.len() > 0 && is_white(s.last()) {
        trim_back(s.drop_last())
    } else {
        s
    }
}

/// `s` without the white space at its ends.
pub open spec fn trimmed(s: Seq<char>) -> Seq<char> {
    trim_back(trim_front(s))
}

/// `s` without the white space at its ends.
pub fn trim(s: &str) -> (out: String)
    ensures
        out@ == trimmed(s@),
{
    let x: Vec<char> = chars_of(s);
    let mut a: usize = 0;
    assert(s@.skip(0) =~= s@);
    while a < x.len() && is_space(x[a])
        invariant
            x@ == s@,
            a <= x@.len(),
            trim_front(s@) == trim_front(s@.skip(a as int)),
        decreases x@.len() - a,
    {
        assert(s@.skip(a as int).skip(1) =~= s@.skip(a + 1));
        a = a + 1;
    }
    let ghost t = s@.skip(a as int);
    let mut b: usize = x.len();
    assert(t.take(b - a) =~= t);
    while b > a && is_space(x[b - 1])
        invariant
            x@ == s@,
            a <= b <= x@.len(),
            t == s@.skip(a as int),
            trim_back(t) == trim_back(t.take(b - a)),
        decreases b,
    {
        assert(t.take(b - a).last() == x@[b - 1]);
        assert(t.take(b - a).drop_last() =~= t.take(b - a - 1));
        b = b - 1;
    }
    assert(s@.subrange(a as int, b as int) =~= t.take(b - a));
    if b > a {
        assert(t.take(b - a).last() == x@[b - 1]);
    }
    slice(s, a, b)
}

/// The pieces of `s` between the separators; there is always at least one.
pub open spec fn pieces(s: Seq<char>, sep: char) -> Seq<Seq<char>>
    decreases s.len(),
{
    if s.len() == 0 {
        seq![s]
    } else {
        let front = pieces(s.drop_last(), sep);
        if s.last() == sep {
            front.push(seq![])
        } else {
            front.drop_last().push(front.last().push(s.last()))
        }
    }
}

/// The views of the strings of a list.
pub open spec fn views(v: Seq<String>) -> Seq<Seq<char>> {
    v.map_values(|s: String| s@)
}

/// The pieces of `s` between the separators.
pub fn split(s: &str, sep: char) -> (out: Vec<String>)
    ensures
        views(out@) == pieces(s@, sep),
        out@.len() >= 1,
{
    let x: Vec<char> = chars_of(s);
    let mut out: Vec<String> = Vec::new();
    let mut cur: String = String::new();
    assert(views(out@).push(cur@) =~= pieces(s@.take(0), sep)) by {
        assert(s@.take(0) =~= Seq::empty());
    }
    for i in 0..x.len()
        invariant
            x@ == s@,
            views(out@).push(cur@) == pieces(s@.take(i as int), sep),
    {
        let ghost front = pieces(s@.take(i as int), sep);
        proof {
            assert(s@.take(i + 1).drop_last() =~= s@.take(i as int));
            assert(s@.take(i + 1).last() == s@[i as int]);
            assert(front.last() == cur@);
            assert(front.drop_last() =~= views(out@));
        }
        if x[i] == sep {
            let ghost before = out@;
            out.push(cur);
            cur = String::new();
            assert(views(out@) =~= front);
            assert(views(out@).push(cur@) =~= front.push(Seq::empty()));
        } else {
            cur.push(x[i]);
        }
    }
    let ghost before = out@;
    let ghost last = cur@;
    out.push(cur);
    assert(views(out@) =~= views(before).push(last));
    assert(s@.take(s@.len() as int) =~= s@);
    out
}

/// `s` with every occurrence of `pat`, from left to right and without overlap, replaced by `by`.
pub open spec fn replaced(s: Seq<char>, pat: Seq<char>, by: Seq<char>) -> Seq<char>
    decreases s.len(),
{
    if s.len() == 0 {
        s
    } else if pat.len() > 0 && begins(s, pat) {
        by + replaced(s.skip(pat.len() as int), pat, by)
    } else {
        seq![s[0]] + replaced(s.skip(1), pat, by)
    }
}

/// `s` with every occurrence of `pat` replaced by `by`.
pub fn replace(s: &str, pat: &str, by: &str) -> (out: String)
    requires
        pat@.len() > 0,
    ensures
        out@ == replaced(s@, pat@, by@),
{
    let x: Vec<char> = chars_of(s);
    let y: Vec<char> = chars_of(pat);
    let mut out: String = String::new();
    let mut i: usize = 0;
    assert(s@.skip(0) =~= s@);
    assert(out@ + replaced(s@, pat@, by@) =~= replaced(s@, pat@, by@));
    while i < x.len()
        invariant
            x@ == s@,
            y@ == pat@,
            y@.len() > 0,
            i <= x@.len(),
            out@ + replaced(s@.skip(i as int), pat@, by@) == replaced(s@, pat@, by@),
        decreases x@.len() - i,
    {
        let ghost rest = s@.skip(i as int);
        let ghost before = out@;
        proof {
            if i + pat@.len() <= s@.len() {
                assert(rest.subrange(0, pat@.len() as int) =~= s@.subrange(
                    i as int,
                    i + pat@.len(),
                ));
            }
            assert(at(rest, pat@, 0) == at(s@, pat@, i as int));
        }
        if is_at(&x, &y, i) {
            out.append(by);
            proof {
                assert(rest.skip(pat@.len() as int) =~= s@.skip(i + pat@.len()));
                assert(out@ + replaced(s@.skip(i + pat@.len()), pat@, by@) =~= before + (by@
                    + replaced(s@.skip(i + pat@.len()), pat@, by@)));
            }
            i = i + y.len();
        } else {
            out.push(x[i]);
            proof {
                assert(rest.skip(1) =~= s@.skip(i + 1));
                assert(out@ + replaced(s@.skip(i + 1), pat@, by@) =~= before + (seq![rest[0]]
                    + replaced(s@.skip(i + 1), pat@, by@)));
            }
            i = i + 1;
        }
    }
    assert(s@.skip(i as int) =~= Seq::empty());
    assert(out@ + replaced(s@.skip(i as int), pat@, by@) =~= out@);
    out
}

/// Whether one of the strings is the given one.
pub fn lists(names: &Vec<String>, name: &str) -> (out: bool)
    ensures
        out == views(names@).contains(name@),
{
    for i in 0..names.len()
        invariant
            forall|j: int| 0 <= j < i ==> names@[j]@ != name@,
    {
        if same(names[i].as_str(), name) {
            assert(views(names@)[i as int] == name@);
            return true;
        }
    }
    assert forall|j: int| 0 <= j < views(names@).len() implies views(names@)[j]
        != name@ by {
        assert(names@[j]@ != name@);
    }
    false
}

/// The strings one after the other with the separator between them.
pub open spec fn joined(parts: Seq<Seq<char>>, sep: Seq<char>) -> Seq<char>
    decreases parts.len(),
{
    if parts.len() == 0 {
        seq![]
    } else if parts.len() == 1 {
        parts[0]
    } else {
        joined(parts.drop_last(), sep) + sep + parts.last()
    }
}

/// The strings one after the other with the separator between them.
pub fn join(parts: &Vec<String>, sep: &str) -> (out: String)
    ensures
        out@ == joined(views(parts@), sep@),
{
    let ghost v = views(parts@);
    let mut out: String = String::new();
    assert(out@ =~= joined(v.take(0), sep@));
    for i in 0..parts.len()
        invariant
            v == views(parts@),
            out@ == joined(v.take(i as int), sep@),
    {
        let ghost before = out@;
        assert(v.take(i + 1).drop_last() =~= v.take(i as int));
        assert(v.take(i + 1).last() == parts@[i as int]@);
        if i > 0 {
            out.append(sep);
        }
        out.append(parts[i].as_str());
        if i == 0 {
            assert(v.take(0) =~= Seq::empty());
            assert(out@ =~= v.take(1)[0]);
        }
    }
    assert(v.take(parts@.len() as int) =~= v);
    out
}

// ---- letter case ----

/// An ASCII capital as its small letter; any other character as it is.
pub open spec fn ascii_lower(c: char) -> char {
    if 'A' <= c <= 'Z' {
        (c as int + 32) as char
    } else {
        c
    }
}

/// An ASCII small letter as its capital; any other character as it is.
pub open spec fn ascii_upper(c: char) -> char {
    if 'a' <= c <= 'z' {
        (c as int - 32) as char
    } else {
        c
    }
}

/// Whether all characters are ASCII.
pub open spec fn all_ascii(s: Seq<char>) -> bool {
    forall|i: int| 0 <= i < s.len() ==> (#[trigger] s[i]) as int <= 127
}

/// What `str::to_uppercase` makes of a string.
pub uninterp spec fn uppercase(s: Seq<char>) -> Seq<char>;

/// `str::to_uppercase`: the uppercase equivalent by Unicode's rules. Of a string of ASCII
/// characters it changes the small letters alone, each to its capital.
#[verifier::external_body]
pub(crate) fn to_uppercase(s: &str) -> (out: String)
    ensures
        out@ == uppercase(s@),
        all_ascii(s@) ==> out@ == s@.map_values(|c: char| ascii_upper(c)),
{
    s.to_uppercase()
}

/// An ASCII capital as its small letter; any other character as it is.
pub fn lower_char(c: char) -> (out: char)
    ensures
        out == ascii_lower(c),
{
    if 'A' <= c && c <= 'Z' {
        ((c as u8) + 32u8) as char
    } else {
        c
    }
}

/// Two strings that differ at most in the case of ASCII letters.
pub open spec fn same_letters(a: Seq<char>, b: Seq<char>) -> bool {
    a.map_values(|c: char| ascii_lower(c)) == b.map_values(|c: char| ascii_lower(c))
}

/// Whether two strings differ at most in the case of ASCII letters.
pub fn eq_ignore_ascii_case(a: &str, b: &str) -> (out: bool)
    ensures
        out == same_letters(a@, b@),
{
    let x: Vec<char> = chars_of(a);
    let y: Vec<char> = chars_of(b);
    let ghost la = a@.map_values(|c: char| ascii_lower(c));
    let ghost lb = b@.map_values(|c: char| ascii_lower(c));
    if x.len() != y.len() {
        assert(la.len() != lb.len());
        return false;
    }
    for i in 0..x.len()
        invariant
            x@ == a@,
            y@ == b@,
            la == a@.map_values(|c: char| ascii_lower(c)),
            lb == b@.map_values(|c: char| ascii_lower(c)),
            x@.len() == y@.len(),
            forall|j: int| 0 <= j < i ==> la[j] == lb[j],
    {
        if lower_char(x[i]) != lower_char(y[i]) {
            assert(la[i as int] != lb[i as int]);
            return false;
        }
    }
    assert(la =~= lb);
    true
}

// ---- numbers ----

/// A number below ten as a character.
pub open spec fn digit_char(n: int) -> char {
    ('0' as int + n) as char
}

/// A number written in decimal.
pub open spec fn decimal(n: nat) -> Seq<char>
    decreases n,
{
    if n < 10 {
        seq![digit_char(n as int)]
    } else {
        decimal(n / 10).push(digit_char((n % 10) as int))
    }
}

/// A number written in decimal, with a sign where it is negative.
pub open spec fn decimal_int(n: int) -> Seq<char> {
    if n < 0 {
        seq!['-'] + decimal((-n) as nat)
    } else {
        decimal(n as nat)
    }
}

/// A number below ten as a character.
fn digit_of(n: u64) -> (out: char)
    requires
        n < 10,
    ensures
        out == digit_char(n as int),
{
    ((n as u8) + 48u8) as char
}

/// A number written in decimal.
pub fn dec_u64(n: u64) -> (out: String)
    ensures
        out@ == decimal(n as nat),
    decreases n,
{
    let mut out: String = if n < 10 {
        String::new()
    } else {
        dec_u64(n / 10)
    };
    out.push(digit_of(n % 10));
    assert(n < 10 ==> out@ =~= seq![digit_char(n as int)]);
    out
}

/// A number written in decimal, with a sign where it is negative.
pub fn dec_i64(n: i64) -> (out: String)
    ensures
        out@ == decimal_int(n as int),
{
    if n < 0 {
        let m: u64 = if n == i64::MIN {
            0x8000_0000_0000_0000u64
        } else {
            (-n) as u64
        };
        proof {
            reveal_strlit("-");
            assert("-"@ =~= seq!['-']);
        }
        concat2("-", dec_u64(m).as_str())
    } else {
        dec_u64(n as u64)
    }
}

/// The number that a row of decimal digits stands for.
pub open spec fn digits_value(s: Seq<char>) -> nat
    decreases s.len(),
{
    if s.len() == 0 {
        0
    } else {
        digits_value(s.drop_last()) * 10 + (s.last() as int - '0' as int) as nat
    }
}

/// A row of decimal digits, at least one.
pub open spec fn is_digits(s: Seq<char>) -> bool {
    s.len() > 0 && forall|i: int| 0 <= i < s.len() ==> '0' <= #[trigger] s[i] <= '9'
}

/// The number that a text stands for: decimal digits behind at most one sign.
pub open spec fn int_value(s: Seq<char>) -> Option<int> {
    if s.len() > 0 && s[0] == '-' {
        if is_digits(s.skip(1)) {
            Some(-(digits_value(s.skip(1)) as int))
        } else {
            None
        }
    } else if s.len() > 0 && s[0] == '+' {
        if is_digits(s.skip(1)) {
            Some(digits_value(s.skip(1)) as int)
        } else {
            None
        }
    } else if is_digits(s) {
        Some(digits_value(s) as int)
    } else {
        None
    }
}

/// What `str::parse::<i32>` has to say against a text.
pub uninterp spec fn parse_complaint(s: Seq<char>) -> Seq<char>;

/// `str::parse::<i32>`: the number that a text of decimal digits behind at most one sign stands
/// for, where it fits; else the complaint as its error prints it, which is left unsaid here.
#[verifier::external_body]
pub(crate) fn parse_i32(s: &str) -> (out: Result<i32, String>)
    ensures
        match out {
            Ok(n) => int_value(s@) == Some(n as int),
            Err(e) => e@ == parse_complaint(s@) && (int_value(s@) matches Some(n) ==> !(i32::MIN
                <= n <= i32::MAX)),
        },
{
    s.parse::<i32>().map_err(|e| e.to_string())
}

// ---- what the pieces amount to ----

/// All characters are white space.
pub open spec fn all_white(s: Seq<char>) -> bool {
    forall|i: int| 0 <= i < s.len() ==> is_white(#[trigger] s[i])
}

/// No character is white space.
pub open spec fn no_white(s: Seq<char>) -> bool {
    forall|i: int| 0 <= i < s.len() ==> !is_white(#[trigger] s[i])
}

/// Of the ASCII characters the space and those from the tab to the carriage return are white
/// space.
pub proof fn law_white(c: char)
    requires
        c as int <= 127,
    ensures
        is_white(c) <==> (c == ' ' || '\t' <= c <= '\r'),
{
}

proof fn lemma_trim_front(pre: Seq<char>, s: Seq<char>)
    requires
        all_white(pre),
        s.len() == 0 || !is_white(s[0]),
    ensures
        trim_front(pre + s) == s,
    decreases pre.len(),
{
    if pre.len() == 0 {
        assert(pre + s =~= s);
    } else {
        let rest = pre.skip(1);
        assert forall|i: int| 0 <= i < rest.len() implies is_white(#[trigger] rest[i]) by {
            assert(rest[i] == pre[i + 1]);
        }
        lemma_trim_front(rest, s);
        assert((pre + s)[0] == pre[0]);
        assert((pre + s).skip(1) =~= rest + s);
    }
}

proof fn lemma_trim_back(s: Seq<char>, post: Seq<char>)
    requires
        all_white(post),
        s.len() == 0 || !is_white(s.last()),
    ensures
        trim_back(s + post) == s,
    decreases post.len(),
{
    if post.len() == 0 {
        assert(s + post =~= s);
    } else {
        let rest = post.drop_last();
        assert forall|i: int| 0 <= i < rest.len() implies is_white(#[trigger] rest[i]) by {
            assert(rest[i] == post[i]);
        }
        lemma_trim_back(s, rest);
        assert((s + post).last() == post[post.len() - 1]);
        assert((s + post).drop_last() =~= s + rest);
    }
}

/// Trimming takes the white space away that stands at the ends of a text, all of it and nothing
/// else.
pub proof fn law_trimmed(pre: Seq<char>, s: Seq<char>, post: Seq<char>)
    requires
        all_white(pre),
        all_white(post),
        s.len() == 0 || (!is_white(s[0]) && !is_white(s.last())),
    ensures
        trimmed(pre + s + post) == s,
{
    if s.len() == 0 {
        let all = pre + s + post;
        assert forall|i: int| 0 <= i < all.len() implies is_white(#[trigger] all[i]) by {
            if i < pre.len() {
                assert(all[i] == pre[i]);
            } else {
                assert(all[i] == post[i - pre.len()]);
            }
        }
        lemma_trim_front(all, seq![]);
        assert(all + seq![] =~= all);
        assert(trimmed(all) =~= s);
    } else {
        assert(pre + s + post =~= pre + (s + post));
        assert((s + post)[0] == s[0]);
        lemma_trim_front(pre, s + post);
        lemma_trim_back(s, post);
    }
}

/// Every text is what trimming leaves of it with white space around.
pub proof fn law_trimmed_whole(s: Seq<char>) -> (ends: (Seq<char>, Seq<char>))
    ensures
        s == ends.0 + trimmed(s) + ends.1,
        all_white(ends.0),
        all_white(ends.1),
        trimmed(s).len() > 0 ==> !is_white(trimmed(s)[0]) && !is_white(trimmed(s).last()),
    decreases s.len(),
{
    if s.len() == 0 {
        law_trimmed(s, s, s);
        assert(s + s + s =~= s);
        (s, s)
    } else if is_white(s[0]) {
        let (a, b) = law_trimmed_whole(s.skip(1));
        assert(trimmed(s) == trimmed(s.skip(1)));
        let pre = seq![s[0]] + a;
        assert(s =~= pre + trimmed(s) + b) by {
            assert(s =~= seq![s[0]] + s.skip(1));
        }
        (pre, b)
    } else if is_white(s.last()) {
        let front = s.drop_last();
        let (a, b) = law_trimmed_whole(front);
        assert(front[0] == s[0]);
        assert(trim_front(front) == front);
        assert(trim_front(s) == s);
        let post = b.push(s.last());
        assert(s =~= a + trimmed(s) + post) by {
            assert(s =~= front.push(s.last()));
        }
        (a, post)
    } else {
        assert(s =~= Seq::<char>::empty() + s + Seq::<char>::empty());
        (Seq::empty(), Seq::empty())
    }
}

/// A text without white space at its ends stays as it is.
pub proof fn law_trimmed_stays(s: Seq<char>)
    requires
        s.len() == 0 || (!is_white(s[0]) && !is_white(s.last())),
    ensures
        trimmed(s) == s,
{
    assert(Seq::<char>::empty() + s + Seq::<char>::empty() =~= s);
    law_trimmed(Seq::empty(), s, Seq::empty());
}

/// Joining the pieces of a text with the separator gives the text back, and no piece holds the
/// separator.
pub proof fn law_pieces(s: Seq<char>, sep: char)
    ensures
        pieces(s, sep).len() > 0,
        joined(pieces(s, sep), seq![sep]) == s,
        forall|i: int| 0 <= i < pieces(s, sep).len() ==> !(#[trigger] pieces(s, sep)[i]).contains(sep),
    decreases s.len(),
{
    let p = pieces(s, sep);
    if s.len() > 0 {
        let c = s.last();
        let front = pieces(s.drop_last(), sep);
        law_pieces(s.drop_last(), sep);
        assert(s =~= s.drop_last().push(c));
        if c == sep {
            assert(p.drop_last() =~= front);
            assert(joined(p, seq![sep]) =~= s);
        } else {
            assert(p.drop_last() =~= front.drop_last());
            assert(p.last() =~= front.last().push(c));
            if front.len() == 1 {
                assert(joined(p, seq![sep]) =~= s);
            } else {
                assert(joined(p, seq![sep]) =~= joined(front, seq![sep]).push(c));
            }
        }
        assert forall|i: int| 0 <= i < p.len() implies !(#[trigger] p[i]).contains(sep) by {
            if c != sep && i == p.len() - 1 {
                let last = front[front.len() - 1];
                assert(!last.contains(sep));
                assert forall|j: int| 0 <= j < p[i].len() implies p[i][j] != sep by {
                    if j < last.len() {
                        assert(p[i][j] == last[j]);
                    }
                }
            } else if i < front.len() {
                assert(p[i] == front[i]);
            }
        }
    }
}

/// A text without the separator is a single piece.
pub proof fn lemma_one_piece(s: Seq<char>, sep: char)
    requires
        !s.contains(sep),
    ensures
        pieces(s, sep) == seq![s],
    decreases s.len(),
{
    if s.len() > 0 {
        let front = s.drop_last();
        assert forall|j: int| 0 <= j < front.len() implies front[j] != sep by {
            assert(front[j] == s[j]);
        }
        assert(s[s.len() - 1] == s.last());
        lemma_one_piece(front, sep);
        assert(front.push(s.last()) =~= s);
        assert(pieces(s, sep) =~= seq![s]);
    }
}

/// The pieces of two texts with a separator between them are those of the first and those of the
/// second.
pub proof fn law_pieces_apart(a: Seq<char>, b: Seq<char>, sep: char)
    ensures
        pieces(a.push(sep) + b, sep) == pieces(a, sep) + pieces(b, sep),
    decreases b.len(),
{
    let s = a.push(sep) + b;
    if b.len() == 0 {
        assert(s =~= a.push(sep));
        assert(s.drop_last() =~= a);
        assert(b =~= Seq::empty());
        assert(pieces(s, sep) =~= pieces(a, sep) + pieces(b, sep));
    } else {
        law_pieces_apart(a, b.drop_last(), sep);
        law_pieces(b.drop_last(), sep);
        assert(s.drop_last() =~= a.push(sep) + b.drop_last());
        assert(s.last() == b.last());
        let f = pieces(b.drop_last(), sep);
        assert((pieces(a, sep) + f).last() == f.last());
        assert((pieces(a, sep) + f).drop_last() =~= pieces(a, sep) + f.drop_last());
        assert(pieces(s, sep) =~= pieces(a, sep) + pieces(b, sep));
    }
}

/// Texts none of which holds the separator are the pieces of what joining them gives.
pub proof fn law_joined_pieces(parts: Seq<Seq<char>>, sep: char)
    requires
        parts.len() > 0,
        forall|i: int| 0 <= i < parts.len() ==> !(#[trigger] parts[i]).contains(sep),
    ensures
        pieces(joined(parts, seq![sep]), sep) == parts,
    decreases parts.len(),
{
    if parts.len() == 1 {
        lemma_one_piece(parts[0], sep);
        assert(parts =~= seq![parts[0]]);
    } else {
        let front = parts.drop_last();
        assert forall|i: int| 0 <= i < front.len() implies !(#[trigger] front[i]).contains(sep) by {
            assert(front[i] == parts[i]);
        }
        law_joined_pieces(front, sep);
        let a = joined(front, seq![sep]);
        let b = parts[parts.len() - 1];
        assert(joined(parts, seq![sep]) =~= a.push(sep) + b);
        law_pieces_apart(a, b, sep);
        lemma_one_piece(b, sep);
        assert(parts =~= front + seq![b]);
    }
}

/// Joining two lists is joining each of them, with the separator between.
pub proof fn law_joined_apart(a: Seq<Seq<char>>, b: Seq<Seq<char>>, sep: Seq<char>)
    requires
        a.len() > 0,
        b.len() > 0,
    ensures
        joined(a + b, sep) == joined(a, sep) + sep + joined(b, sep),
        b.len() == 1 ==> joined(b, sep) == b[0],
    decreases b.len(),
{
    assert((a + b).last() == b.last());
    if b.len() == 1 {
        assert((a + b).drop_last() =~= a);
    } else {
        law_joined_apart(a, b.drop_last(), sep);
        assert((a + b).drop_last() =~= a + b.drop_last());
        assert(joined(a + b, sep) =~= joined(a, sep) + sep + joined(b, sep));
    }
}

/// A text in which the pattern does not stand stays as it is.
pub proof fn law_nothing_replaced(s: Seq<char>, pat: Seq<char>, by: Seq<char>)
    requires
        pat.len() > 0,
        !(has(s, pat)),
    ensures
        replaced(s, pat, by) == s,
    decreases s.len(),
{
    if s.len() > 0 {
        assert(!at(s, pat, 0));
        let rest = s.skip(1);
        assert forall|i: int| !at(rest, pat, i) by {
            if at(rest, pat, i) {
                assert(s.subrange(i + 1, i + 1 + pat.len()) =~= rest.subrange(i, i + pat.len()));
                assert(at(s, pat, i + 1));
            }
        }
        law_nothing_replaced(rest, pat, by);
        assert(seq![s[0]] + rest =~= s);
    }
}

/// The first occurrence of the pattern is replaced, what stands before it stays as it is, and what
/// stands behind it is treated alike.
pub proof fn law_replaced(a: Seq<char>, b: Seq<char>, pat: Seq<char>, by: Seq<char>)
    requires
        pat.len() > 0,
        forall|i: int| 0 <= i < a.len() ==> !#[trigger] at(a + pat + b, pat, i),
    ensures
        replaced(a + pat + b, pat, by) == a + by + replaced(b, pat, by),
    decreases a.len(),
{
    let s = a + pat + b;
    if a.len() == 0 {
        assert(s.subrange(0, pat.len() as int) =~= pat);
        assert(s.skip(pat.len() as int) =~= b);
        assert(a + by + replaced(b, pat, by) =~= by + replaced(b, pat, by));
    } else {
        let rest = a.skip(1) + pat + b;
        assert(s.skip(1) =~= rest);
        assert(!at(s, pat, 0));
        assert forall|i: int| 0 <= i < a.skip(1).len() implies !#[trigger] at(rest, pat, i) by {
            if at(rest, pat, i) {
                assert(s.subrange(i + 1, i + 1 + pat.len()) =~= rest.subrange(i, i + pat.len()));
                assert(at(s, pat, i + 1));
            }
        }
        law_replaced(a.skip(1), b, pat, by);
        assert(a =~= seq![a[0]] + a.skip(1));
        assert(seq![a[0]] + (a.skip(1) + by + replaced(b, pat, by)) =~= a + by + replaced(
            b,
            pat,
            by,
        ));
    }
}

/// What the last index names is an occurrence of the character, and none stands behind it.
pub proof fn law_last_index(s: Seq<char>, c: char)
    ensures
        match last_index(s, c) {
            Some(k) => 0 <= k < s.len() && s[k] == c && forall|j: int|
                k < j < s.len() ==> #[trigger] s[j] != c,
            None => !s.contains(c),
        },
    decreases s.len(),
{
    if s.len() > 0 && s.last() != c {
        law_last_index(s.drop_last(), c);
        if last_index(s.drop_last(), c) is None {
            assert forall|j: int| 0 <= j < s.len() implies s[j] != c by {
                if j < s.len() - 1 {
                    assert(s.drop_last()[j] == s[j]);
                }
            }
        } else {
            let k = last_index(s.drop_last(), c)->0;
            assert forall|j: int| k < j < s.len() implies #[trigger] s[j] != c by {
                if j < s.len() - 1 {
                    assert(s.drop_last()[j] == s[j]);
                }
            }
        }
    }
}

/// Stripping the front of a text takes the characters away that it begins with and nothing else.
pub proof fn law_strip_front(n: nat, s: Seq<char>, c: char)
    requires
        s.len() == 0 || s[0] != c,
    ensures
        strip_front(Seq::new(n, |i: int| c) + s, c) == s,
    decreases n,
{
    let all = Seq::new(n, |i: int| c) + s;
    if n == 0 {
        assert(all =~= s);
    } else {
        law_strip_front((n - 1) as nat, s, c);
        assert(all.skip(1) =~= Seq::new((n - 1) as nat, |i: int| c) + s);
    }
}

/// Stripping the back of a text takes the characters away that it ends with and nothing else.
pub proof fn law_strip_back(s: Seq<char>, n: nat, c: char)
    requires
        s.len() == 0 || s.last() != c,
    ensures
        strip_back(s + Seq::new(n, |i: int| c), c) == s,
    decreases n,
{
    let all = s + Seq::new(n, |i: int| c);
    if n == 0 {
        assert(all =~= s);
    } else {
        law_strip_back(s, (n - 1) as nat, c);
        assert(all.drop_last() =~= s + Seq::new((n - 1) as nat, |i: int| c));
    }
}

/// A number that is written down and read again is the same number; it is written in digits, with
/// none in front that could be left out, and with a sign where it is negative.
pub proof fn law_number_read_back(n: int)
    ensures
        int_value(decimal_int(n)) == Some(n),
        n >= 0 ==> is_digits(decimal_int(n)) && digits_value(decimal_int(n)) == n,
        n > 0 ==> decimal_int(n)[0] != '0',
        n < 0 ==> decimal_int(n)[0] == '-' && decimal_int(n)[1] != '0',
{
    let m: nat = if n < 0 {
        (-n) as nat
    } else {
        n as nat
    };
    lemma_decimal(m);
    if n < 0 {
        assert(decimal_int(n).skip(1) =~= decimal(m));
    } else {
        assert('0' <= decimal(m)[0] <= '9');
    }
}

proof fn lemma_decimal(n: nat)
    ensures
        is_digits(decimal(n)),
        digits_value(decimal(n)) == n,
        n > 0 ==> decimal(n)[0] != '0',
    decreases n,
{
    if n < 10 {
        let d = digit_char(n as int);
        assert(decimal(n).drop_last() =~= Seq::empty());
        assert(digits_value(Seq::<char>::empty()) == 0);
        assert(d as int == '0' as int + n);
    } else {
        lemma_decimal(n / 10);
        let d = digit_char((n % 10) as int);
        let front = decimal(n / 10);
        assert(decimal(n).drop_last() =~= front);
        assert(d as int == '0' as int + n % 10);
        assert forall|i: int| 0 <= i < decimal(n).len() implies '0' <= #[trigger] decimal(n)[i]
            <= '9' by {
            if i < front.len() {
                assert(decimal(n)[i] == front[i]);
            }
        }
        assert(decimal(n)[0] == front[0]);
    }
}

/// Letters that differ in case alone are the same, and nothing else is: two texts have the same
/// letters where they are equally long and every two characters are equal, or the capital and the
/// small form of one ASCII letter.
pub proof fn law_same_letters(a: Seq<char>, b: Seq<char>)
    ensures
        same_letters(a, b) <==> (a.len() == b.len() && forall|i: int|
            #![trigger a[i]]
            #![trigger b[i]]
            0 <= i < a.len() ==> (a[i] == b[i] || ('A' <= a[i] <= 'Z' && b[i] as int == a[i] as int
                + 32) || ('A' <= b[i] <= 'Z' && a[i] as int == b[i] as int + 32))),
{
    let x = a.map_values(|c: char| ascii_lower(c));
    let y = b.map_values(|c: char| ascii_lower(c));
    if same_letters(a, b) {
        assert(x.len() == y.len());
        assert forall|i: int|
            #![trigger a[i]]
            #![trigger b[i]]
            0 <= i < a.len() implies (a[i] == b[i] || ('A' <= a[i] <= 'Z' && b[i] as int
            == a[i] as int + 32) || ('A' <= b[i] <= 'Z' && a[i] as int == b[i] as int + 32)) by {
            assert(x[i] == ascii_lower(a[i]) && y[i] == ascii_lower(b[i]));
        }
    }
    if a.len() == b.len() && forall|i: int|
        #![trigger a[i]]
        #![trigger b[i]]
        0 <= i < a.len() ==> (a[i] == b[i] || ('A' <= a[i] <= 'Z' && b[i] as int == a[i] as int
            + 32) || ('A' <= b[i] <= 'Z' && a[i] as int == b[i] as int + 32)) {
        assert forall|i: int| 0 <= i < x.len() implies x[i] == y[i] by {
            assert(x[i] == ascii_lower(a[i]) && y[i] == ascii_lower(b[i]));
        }
        assert(x =~= y);
    }
}

/// Replacing a single character by another one changes each occurrence of it where it stands.
pub proof fn law_replaced_char(s: Seq<char>, c: char, d: char)
    ensures
        replaced(s, seq![c], seq![d]).len() == s.len(),
        forall|i: int|
            0 <= i < s.len() ==> #[trigger] replaced(s, seq![c], seq![d])[i] == if s[i] == c {
                d
            } else {
                s[i]
            },
    decreases s.len(),
{
    if s.len() > 0 {
        law_replaced_char(s.skip(1), c, d);
        assert(begins(s, seq![c]) == (s[0] == c)) by {
            assert(s.subrange(0, 1) =~= seq![s[0]]);
            assert(seq![s[0]][0] == s[0] && seq![c][0] == c);
        }
        let r = replaced(s, seq![c], seq![d]);
        let q = replaced(s.skip(1), seq![c], seq![d]);
        assert forall|i: int| 0 <= i < s.len() implies #[trigger] r[i] == if s[i] == c {
            d
        } else {
            s[i]
        } by {
            if i > 0 {
                assert(r[i] == q[i - 1]);
                assert(s.skip(1)[i - 1] == s[i]);
            }
        }
    }
}

/// What holds of the separator and of all characters of the parts holds of all characters of what
/// joining them gives.
pub proof fn lemma_joined_all(parts: Seq<Seq<char>>, sep: Seq<char>, ok: spec_fn(char) -> bool)
    requires
        forall|j: int| 0 <= j < sep.len() ==> ok(#[trigger] sep[j]),
        forall|i: int, j: int| 0 <= i < parts.len() && 0 <= j < parts[i].len() ==> ok(#[trigger] parts[i][j]),
    ensures
        forall|j: int| 0 <= j < joined(parts, sep).len() ==> ok(#[trigger] joined(parts, sep)[j]),
    decreases parts.len(),
{
    if parts.len() == 1 {
        assert forall|j: int| 0 <= j < joined(parts, sep).len() implies ok(
            #[trigger] joined(parts, sep)[j],
        ) by {
            assert(joined(parts, sep)[j] == parts[0][j]);
        }
    } else if parts.len() > 1 {
        let front = parts.drop_last();
        assert forall|i: int, j: int| 0 <= i < front.len() && 0 <= j < front[i].len() implies ok(
            #[trigger] front[i][j],
        ) by {
            assert(front[i][j] == parts[i][j]);
        }
        lemma_joined_all(front, sep, ok);
        let a = joined(front, sep);
        let last = parts[parts.len() - 1];
        assert forall|j: int| 0 <= j < joined(parts, sep).len() implies ok(
            #[trigger] joined(parts, sep)[j],
        ) by {
            if j < a.len() {
                assert(joined(parts, sep)[j] == a[j]);
            } else if j < a.len() + sep.len() {
                assert(joined(parts, sep)[j] == sep[j - a.len()]);
            } else {
                assert(joined(parts, sep)[j] == parts[parts.len() - 1][j - a.len() - sep.len()]);
            }
        }
    }
}

/// What stands before the first separator is the first piece.
pub proof fn law_first_piece(a: Seq<char>, rest: Seq<char>, sep: char)
    requires
        !a.contains(sep),
        rest.len() == 0 || rest[0] == sep,
    ensures
        pieces(a + rest, sep)[0] == a,
{
    lemma_one_piece(a, sep);
    if rest.len() == 0 {
        assert(a + rest =~= a);
    } else {
        let tail = rest.skip(1);
        assert(a + rest =~= a.push(sep) + tail);
        law_pieces_apart(a, tail, sep);
        assert((pieces(a, sep) + pieces(tail, sep))[0] == a);
    }
}

/// Replacing a single character by nothing takes it out wherever it stands and leaves the others in
/// their order.
pub proof fn law_char_removed(s: Seq<char>, c: char)
    ensures
        replaced(s, seq![c], seq![]) == s.filter(|x: char| x != c),
        !replaced(s, seq![c], seq![]).contains(c),
    decreases s.len(),
{
    let keep = |x: char| x != c;
    let none = Seq::<char>::empty();
    if s.len() == 0 {
        assert(s.filter(keep) =~= s) by {
            reveal(Seq::filter);
        }
    } else {
        let rest = s.skip(1);
        law_char_removed(rest, c);
        lemma_filter_front(s, keep);
        assert(begins(s, seq![c]) == (s[0] == c)) by {
            assert(s.subrange(0, 1) =~= seq![s[0]]);
            assert(seq![s[0]][0] == s[0] && seq![c][0] == c);
        }
        let q = replaced(rest, seq![c], none);
        if s[0] == c {
            assert(none + q =~= q);
        } else {
            let r = seq![s[0]] + q;
            assert forall|j: int| 0 <= j < r.len() implies r[j] != c by {
                if j > 0 {
                    assert(r[j] == q[j - 1]);
                }
            }
        }
    }
}

/// What is kept of a list is its first item, if it is kept, and what is kept of the rest.
pub proof fn lemma_filter_front<A>(s: Seq<A>, keep: spec_fn(A) -> bool)
    requires
        s.len() > 0,
    ensures
        s.filter(keep) == if keep(s[0]) {
            seq![s[0]] + s.skip(1).filter(keep)
        } else {
            s.skip(1).filter(keep)
        },
    decreases s.len(),
{
    reveal(Seq::filter);
    if s.len() == 1 {
        assert(s.drop_last() =~= Seq::empty());
        assert(s.skip(1) =~= Seq::empty());
        assert(s.drop_last().filter(keep) =~= Seq::empty());
        assert(s.skip(1).filter(keep) =~= Seq::empty());
        assert(s.filter(keep) =~= if keep(s[0]) {
            seq![s[0]] + s.skip(1).filter(keep)
        } else {
            s.skip(1).filter(keep)
        });
    } else {
        let front = s.drop_last();
        lemma_filter_front(front, keep);
        assert(front.skip(1) =~= s.skip(1).drop_last());
        assert(s.skip(1).last() == s.last());
        assert(front[0] == s[0]);
        assert(s.filter(keep) =~= if keep(s[0]) {
            seq![s[0]] + s.skip(1).filter(keep)
        } else {
            s.skip(1).filter(keep)
        });
    }
}

/// What is kept of two lists is what is kept of the first and what is kept of the second.
pub proof fn lemma_filter_apart<A>(a: Seq<A>, b: Seq<A>, keep: spec_fn(A) -> bool)
    ensures
        (a + b).filter(keep) == a.filter(keep) + b.filter(keep),
    decreases a.len(),
{
    if a.len() == 0 {
        assert(a + b =~= b);
        assert(a.filter(keep) =~= Seq::empty()) by {
            reveal(Seq::filter);
        }
        assert(a.filter(keep) + b.filter(keep) =~= b.filter(keep));
    } else {
        lemma_filter_front(a, keep);
        lemma_filter_front(a + b, keep);
        assert((a + b).skip(1) =~= a.skip(1) + b);
        assert((a + b)[0] == a[0]);
        lemma_filter_apart(a.skip(1), b, keep);
        assert((a + b).filter(keep) =~= a.filter(keep) + b.filter(keep));
    }
}

/// What is looked for is found at the first place where it stands, and nowhere only where it
/// stands nowhere.
pub proof fn law_found(s: Seq<char>, pat: Seq<char>, k: int)
    ensures
        find_in(s, pat) == Some(k) <==> {
            &&& 0 <= k <= s.len() - pat.len()
            &&& s.subrange(k, k + pat.len()) == pat
            &&& forall|j: int|
                0 <= j < k ==> #[trigger] s.subrange(j, j + pat.len()) != pat
        },
        find_in(s, pat) is None <==> forall|j: int|
            0 <= j <= s.len() - pat.len() ==> #[trigger] s.subrange(j, j + pat.len()) != pat,
        has(s, pat) <==> find_in(s, pat) is Some,
{
    lemma_find_from(s, pat, 0);
    assert forall|j: int| 0 <= j <= s.len() - pat.len() implies at(s, pat, j) == (
    #[trigger] s.subrange(j, j + pat.len()) == pat) by {}
    if find_in(s, pat) is Some {
        let i = find_in(s, pat)->0;
        assert(at(s, pat, i));
        assert(s.subrange(i, i + pat.len()) == pat);
        assert forall|j: int| 0 <= j < i implies #[trigger] s.subrange(j, j + pat.len()) != pat by {
            assert(!at(s, pat, j));
        }
    } else {
        assert forall|j: int| 0 <= j <= s.len() - pat.len() implies #[trigger] s.subrange(
            j,
            j + pat.len(),
        ) != pat by {
            assert(!at(s, pat, j));
        }
    }
}

/// Behind the ASCII characters white space is what ends a line or a paragraph, the spaces of fixed
/// widths, and those that keep a line together.
pub proof fn law_wide_white(c: char)
    requires
        c as int > 127,
    ensures
        is_white(c) <==> c == '\u{85}' || c == '\u{a0}' || c == '\u{1680}' || '\u{2000}' <= c
            <= '\u{200a}' || c == '\u{2028}' || c == '\u{2029}' || c == '\u{202f}' || c == '\u{205f}'
            || c == '\u{3000}',
{
}

} // verus!
