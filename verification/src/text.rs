//! Text helpers with exact contracts over sequences of characters.
use vstd::prelude::*;

verus! {

/// Unicode's `White_Space` property.
pub open spec fn is_white_space(c: char) -> bool {
    ||| '\u{9}' <= c <= '\u{d}'
    ||| c == '\u{20}'
    ||| c == '\u{85}'
    ||| c == '\u{a0}'
    ||| c == '\u{1680}'
    ||| '\u{2000}' <= c <= '\u{200a}'
    ||| c == '\u{2028}'
    ||| c == '\u{2029}'
    ||| c == '\u{202f}'
    ||| c == '\u{205f}'
    ||| c == '\u{3000}'
}

/// `s` without its leading white space.
pub open spec fn trimmed_start(s: Seq<char>) -> Seq<char>
    decreases s.len(),
{
    if s.len() > 0 && is_white_space(s[0]) {
        trimmed_start(s.drop_first())
    } else {
        s
    }
}

/// `s` without its trailing white space.
pub open spec fn trimmed_end(s: Seq<char>) -> Seq<char>
    decreases s.len(),
{
    if s.len() > 0 && is_white_space(s.last()) {
        trimmed_end(s.drop_last())
    } else {
        s
    }
}

/// `s` without white space at either end.
pub open spec fn trimmed(s: Seq<char>) -> Seq<char> {
    trimmed_end(trimmed_start(s))
}

/// The part of `s` before the first `separator`, or all of `s` where there is none.
pub open spec fn before_first(s: Seq<char>, separator: char) -> Seq<char>
    decreases s.len(),
{
    if s.len() == 0 || s[0] == separator {
        Seq::empty()
    } else {
        seq![s[0]] + before_first(s.drop_first(), separator)
    }
}

/// `n` in base ten, without leading zeros.
pub open spec fn decimal_digits(n: nat) -> Seq<char>
    decreases n,
{
    if n < 10 {
        seq![digit_char(n)]
    } else {
        decimal_digits(n / 10).push(digit_char(n % 10))
    }
}

/// The character of a digit below ten.
pub open spec fn digit_char(d: nat) -> char {
    (('0' as nat) + d) as char
}

/// `parts` one after the other, with `separator` between neighbours.
pub open spec fn joined(parts: Seq<Seq<char>>, separator: Seq<char>) -> Seq<char>
    decreases parts.len(),
{
    if parts.len() == 0 {
        Seq::empty()
    } else if parts.len() == 1 {
        parts[0]
    } else {
        joined(parts.drop_last(), separator) + separator + parts.last()
    }
}

/// The character sequences of a list of strings.
pub open spec fn texts(strings: Seq<String>) -> Seq<Seq<char>> {
    strings.map_values(|s: String| s@)
}

/// The characters of a text that may be missing.
pub open spec fn optional(s: Option<&str>) -> Option<Seq<char>> {
    match s {
        Some(t) => Some(t@),
        None => None,
    }
}

/// Whether `c` has Unicode's `White_Space` property.
pub fn white_space(c: char) -> (b: bool)
    ensures
        b == is_white_space(c),
{
    ('\u{9}' <= c && c <= '\u{d}') || c == '\u{20}' || c == '\u{85}' || c == '\u{a0}' || c
        == '\u{1680}' || ('\u{2000}' <= c && c <= '\u{200a}') || c == '\u{2028}' || c == '\u{2029}'
        || c == '\u{202f}' || c == '\u{205f}' || c == '\u{3000}'
}

/// The characters of `s`, in order.
pub fn chars_of(s: &str) -> (v: Vec<char>)
    ensures
        v@ == s@,
{
    let mut v: Vec<char> = Vec::new();
    for c in it: s.chars()
        invariant
            v@ == it.seq().take(it.index() as int),
            it.seq() == s@,
    {
        v.push(c);
    }
    v
}

/// Trimming the front of `s` leaves `s` from its first character that is no white space on.
proof fn lemma_trimmed_start(s: Seq<char>, from: int)
    requires
        0 <= from <= s.len(),
        forall|i: int| 0 <= i < from ==> is_white_space(s[i]),
        from < s.len() ==> !is_white_space(s[from]),
    ensures
        trimmed_start(s) == s.skip(from),
    decreases s.len(),
{
    if from == 0 {
        assert(s.skip(0) == s);
    } else {
        lemma_trimmed_start(s.drop_first(), from - 1);
        assert(s.drop_first().skip(from - 1) == s.skip(from));
    }
}

/// Trimming the back of `s` leaves `s` up to its last character that is no white space.
proof fn lemma_trimmed_end(s: Seq<char>, to: int)
    requires
        0 <= to <= s.len(),
        forall|i: int| to <= i < s.len() ==> is_white_space(s[i]),
        to > 0 ==> !is_white_space(s[to - 1]),
    ensures
        trimmed_end(s) == s.take(to),
    decreases s.len(),
{
    if to == s.len() {
        assert(s.take(to) == s);
    } else {
        lemma_trimmed_end(s.drop_last(), to);
        assert(s.drop_last().take(to) == s.take(to));
    }
}

/// The part of `s` before a separator that no earlier position holds.
proof fn lemma_before_first(s: Seq<char>, separator: char, to: int)
    requires
        0 <= to <= s.len(),
        forall|i: int| 0 <= i < to ==> s[i] != separator,
        to < s.len() ==> s[to] == separator,
    ensures
        before_first(s, separator) == s.take(to),
    decreases s.len(),
{
    if to > 0 {
        lemma_before_first(s.drop_first(), separator, to - 1);
        assert(seq![s[0]] + s.drop_first().take(to - 1) == s.take(to));
    }
}

/// `s` without white space at either end.
pub fn trim(s: &str) -> (r: &str)
    ensures
        r@ == trimmed(s@),
{
    let cs = chars_of(s);
    let mut from: usize = 0;
    while from < cs.len() && white_space(cs[from])
        invariant
            from <= cs.len(),
            forall|i: int| 0 <= i < from ==> is_white_space(cs[i]),
        decreases cs.len() - from,
    {
        from = from + 1;
    }
    let mut to: usize = cs.len();
    while from < to && white_space(cs[to - 1])
        invariant
            from <= to <= cs.len(),
            forall|i: int| to <= i < cs.len() ==> is_white_space(cs[i]),
        decreases to - from,
    {
        to = to - 1;
    }
    proof {
        lemma_trimmed_start(s@, from as int);
        lemma_trimmed_end(s@.skip(from as int), to - from);
        assert(s@.skip(from as int).take(to - from) == s@.subrange(from as int, to as int));
    }
    s.substring_char(from, to)
}

/// The part of `s` before its first `separator`, or all of it.
pub fn segment_before(s: &str, separator: char) -> (r: &str)
    ensures
        r@ == before_first(s@, separator),
{
    let cs = chars_of(s);
    let mut to: usize = 0;
    while to < cs.len() && cs[to] != separator
        invariant
            to <= cs.len(),
            forall|i: int| 0 <= i < to ==> cs[i] != separator,
        decreases cs.len() - to,
    {
        to = to + 1;
    }
    proof {
        lemma_before_first(s@, separator, to as int);
        assert(s@.take(to as int) == s@.subrange(0, to as int));
    }
    s.substring_char(0, to)
}

/// Whether `s` begins with `prefix`.
pub fn starts_with(s: &str, prefix: &str) -> (b: bool)
    ensures
        b == prefix@.is_prefix_of(s@),
{
    let cs = chars_of(s);
    let ps = chars_of(prefix);
    if ps.len() > cs.len() {
        return false;
    }
    let mut i: usize = 0;
    while i < ps.len()
        invariant
            cs@ == s@,
            ps@ == prefix@,
            i <= ps.len() <= cs.len(),
            forall|j: int| 0 <= j < i ==> ps[j] == cs[j],
        decreases ps.len() - i,
    {
        if cs[i] != ps[i] {
            assert(prefix@[i as int] != s@.subrange(0, prefix@.len() as int)[i as int]);
            return false;
        }
        i = i + 1;
    }
    assert(prefix@ == s@.subrange(0, prefix@.len() as int));
    true
}

/// Whether `a` and `b` hold the same characters.
pub fn same(a: &str, b: &str) -> (r: bool)
    ensures
        r == (a@ == b@),
{
    a.to_owned() == b.to_owned()
}

/// The digit `d` as text.
fn digit(d: usize) -> (r: &'static str)
    requires
        d < 10,
    ensures
        r@ == seq![digit_char(d as nat)],
{
    proof {
        reveal_strlit("0");
        reveal_strlit("1");
        reveal_strlit("2");
        reveal_strlit("3");
        reveal_strlit("4");
        reveal_strlit("5");
        reveal_strlit("6");
        reveal_strlit("7");
        reveal_strlit("8");
        reveal_strlit("9");
    }
    match d {
        0 => "0",
        1 => "1",
        2 => "2",
        3 => "3",
        4 => "4",
        5 => "5",
        6 => "6",
        7 => "7",
        8 => "8",
        _ => "9",
    }
}

/// `n` in base ten.
pub fn decimal(n: usize) -> (r: String)
    ensures
        r@ == decimal_digits(n as nat),
    decreases n,
{
    if n < 10 {
        digit(n).to_owned()
    } else {
        let mut r = decimal(n / 10);
        r.append(digit(n % 10));
        assert(r@ == decimal_digits(n as nat));
        r
    }
}

/// `parts` one after the other, with `separator` between neighbours.
pub fn join(parts: &Vec<String>, separator: &str) -> (r: String)
    ensures
        r@ == joined(texts(parts@), separator@),
{
    let ghost all = texts(parts@);
    let mut r = String::new();
    let mut i: usize = 0;
    while i < parts.len()
        invariant
            i <= parts.len(),
            all == texts(parts@),
            r@ == joined(all.take(i as int), separator@),
        decreases parts.len() - i,
    {
        assert(all.take(i + 1).drop_last() == all.take(i as int));
        assert(all.take(i + 1).last() == parts[i as int]@);
        if i > 0 {
            r.append(separator);
        }
        r.append(parts[i].as_str());
        assert(r@ == joined(all.take(i + 1), separator@));
        i = i + 1;
    }
    assert(all.take(i as int) == all);
    r
}

/// The number that digits spell in base ten.
pub open spec fn decimal_value(digits: Seq<char>) -> nat
    decreases digits.len(),
{
    if digits.len() == 0 {
        0
    } else {
        decimal_value(digits.drop_last()) * 10 + (digits.last() as nat - '0' as nat) as nat
    }
}

/// Whether `digits` are `n` as one writes it in base ten: digits only, no leading zero but in
/// zero itself, and read together they give `n`.
pub open spec fn is_decimal(digits: Seq<char>, n: nat) -> bool {
    &&& digits.len() > 0
    &&& forall|i: int| 0 <= i < digits.len() ==> '0' <= #[trigger] digits[i] <= '9'
    &&& digits.len() > 1 ==> digits[0] != '0'
    &&& decimal_value(digits) == n
}

/// Every number has digits that read back as it.
pub proof fn law_digits_read_back(n: nat)
    ensures
        is_decimal(decimal_digits(n), n),
    decreases n,
{
    reveal_with_fuel(decimal_value, 2);
    let digits = decimal_digits(n);
    if n < 10 {
        assert(digits.drop_last() == Seq::<char>::empty());
        assert(digits.last() == digit_char(n));
        assert(decimal_value(digits) == n);
    } else {
        law_digits_read_back(n / 10);
        let front = decimal_digits(n / 10);
        assert(digits.drop_last() == front);
        assert(digits.last() == digit_char(n % 10));
        assert(digits[0] == front[0]);
        if front.len() == 1 {
            assert(front.drop_last() == Seq::<char>::empty());
            assert(decimal_value(front) == (front.last() as nat - '0' as nat) as nat);
            assert(front[0] != '0');
        }
    }
}

/// Digits that do not begin with a zero do not spell zero.
proof fn lemma_value_is_positive(digits: Seq<char>)
    requires
        digits.len() > 0,
        forall|i: int| 0 <= i < digits.len() ==> '0' <= #[trigger] digits[i] <= '9',
        digits[0] != '0',
    ensures
        decimal_value(digits) > 0,
    decreases digits.len(),
{
    if digits.len() == 1 {
        assert(digits.drop_last() == Seq::<char>::empty());
    } else {
        lemma_value_is_positive(digits.drop_last());
    }
}

/// A number is written in base ten in one way only.
pub proof fn law_digits_are_unique(digits: Seq<char>, n: nat)
    requires
        is_decimal(digits, n),
    ensures
        digits == decimal_digits(n),
    decreases digits.len(),
{
    let front = digits.drop_last();
    let d = (digits.last() as nat - '0' as nat) as nat;
    assert('0' <= digits[digits.len() - 1] <= '9');
    assert(digits.last() == digit_char(d));
    if digits.len() == 1 {
        assert(front == Seq::<char>::empty());
        assert(digits == seq![digits[0]]);
    } else {
        lemma_value_is_positive(front);
        assert(n / 10 == decimal_value(front));
        assert(n % 10 == d);
        law_digits_are_unique(front, n / 10);
        assert(digits == front.push(digits.last()));
    }
}

/// What `decimal` gives reads back as the number.
pub proof fn law_decimal_reads_back(n: usize, digits: String)
    requires
        call_ensures(decimal, (n,), digits),
    ensures
        is_decimal(digits@, n as nat),
{
    law_digits_read_back(n as nat);
}

/// White space is made of these characters and no others.
pub proof fn law_white_space(c: char, white: bool)
    requires
        call_ensures(white_space, (c,), white),
    ensures
        white == is_white_space(c),
        white == seq![
            0x9u32,
            0xa,
            0xb,
            0xc,
            0xd,
            0x20,
            0x85,
            0xa0,
            0x1680,
            0x2000,
            0x2001,
            0x2002,
            0x2003,
            0x2004,
            0x2005,
            0x2006,
            0x2007,
            0x2008,
            0x2009,
            0x200a,
            0x2028,
            0x2029,
            0x202f,
            0x205f,
            0x3000,
        ].contains(c as u32),
{
    let list = seq![
        0x9u32,
        0xa,
        0xb,
        0xc,
        0xd,
        0x20,
        0x85,
        0xa0,
        0x1680,
        0x2000,
        0x2001,
        0x2002,
        0x2003,
        0x2004,
        0x2005,
        0x2006,
        0x2007,
        0x2008,
        0x2009,
        0x200a,
        0x2028,
        0x2029,
        0x202f,
        0x205f,
        0x3000,
    ];
    if is_white_space(c) {
        let k: int = if c <= '\u{d}' {
            c as int - 9
        } else if c == '\u{20}' {
            5
        } else if c == '\u{85}' {
            6
        } else if c == '\u{a0}' {
            7
        } else if c == '\u{1680}' {
            8
        } else if c <= '\u{200a}' {
            9 + (c as int - 0x2000)
        } else if c == '\u{2028}' {
            20
        } else if c == '\u{2029}' {
            21
        } else if c == '\u{202f}' {
            22
        } else if c == '\u{205f}' {
            23
        } else {
            24
        };
        assert(list[k] == c as u32);
    }
}

/// Whether `inner` is `outer` without the white space around it: a stretch of it with nothing
/// but white space before and behind, and none at its own ends.
pub open spec fn is_core(inner: Seq<char>, outer: Seq<char>) -> bool {
    exists|from: int|
        0 <= from <= from + inner.len() <= outer.len() && inner == #[trigger] outer.subrange(
            from,
            from + inner.len(),
        ) && (forall|i: int| 0 <= i < from ==> is_white_space(#[trigger] outer[i])) && (forall|
            i: int,
        |
            from + inner.len() <= i < outer.len() ==> is_white_space(#[trigger] outer[i])) && (
        inner.len() > 0 ==> !is_white_space(inner[0]) && !is_white_space(inner[inner.len() - 1]))
}

/// Trimming the front takes off white space only, and all of it.
proof fn lemma_front(s: Seq<char>) -> (from: int)
    ensures
        0 <= from <= s.len(),
        trimmed_start(s) == s.skip(from),
        forall|i: int| 0 <= i < from ==> is_white_space(#[trigger] s[i]),
        from < s.len() ==> !is_white_space(s[from]),
    decreases s.len(),
{
    if s.len() > 0 && is_white_space(s[0]) {
        let rest = s.drop_first();
        let from = lemma_front(rest) + 1;
        assert(rest.skip(from - 1) == s.skip(from));
        assert forall|i: int| 0 <= i < from implies is_white_space(#[trigger] s[i]) by {
            if i > 0 {
                assert(s[i] == rest[i - 1]);
            }
        }
        from
    } else {
        assert(s.skip(0) == s);
        0
    }
}

/// Trimming the back takes off white space only, and all of it.
proof fn lemma_back(s: Seq<char>) -> (to: int)
    ensures
        0 <= to <= s.len(),
        trimmed_end(s) == s.take(to),
        forall|i: int| to <= i < s.len() ==> is_white_space(#[trigger] s[i]),
        to > 0 ==> !is_white_space(s[to - 1]),
    decreases s.len(),
{
    if s.len() > 0 && is_white_space(s.last()) {
        let rest = s.drop_last();
        let to = lemma_back(rest);
        assert(rest.take(to) == s.take(to));
        assert forall|i: int| to <= i < s.len() implies is_white_space(#[trigger] s[i]) by {
            if i < s.len() - 1 {
                assert(s[i] == rest[i]);
            }
        }
        to
    } else {
        assert(s.take(s.len() as int) == s);
        s.len() as int
    }
}

/// Trimmed text is the core of the text.
pub proof fn law_trimmed_is_the_core(s: Seq<char>)
    ensures
        is_core(trimmed(s), s),
{
    let from = lemma_front(s);
    let middle = s.skip(from);
    let to = lemma_back(middle);
    let inner = trimmed(s);
    assert(inner == s.subrange(from, from + inner.len()));
    assert forall|i: int| from + inner.len() <= i < s.len() implies is_white_space(
        #[trigger] s[i],
    ) by {
        assert(s[i] == middle[i - from]);
    }
    if inner.len() > 0 {
        assert(inner[0] == s[from]);
        assert(inner[inner.len() - 1] == middle[to - 1]);
    }
}

/// `trim` gives the core of a text.
pub proof fn law_trim(s: &str, r: &str)
    requires
        call_ensures(trim, (s,), r),
    ensures
        is_core(r@, s@),
{
    law_trimmed_is_the_core(s@);
}

/// What stands before the first separator is the longest beginning without one.
pub proof fn law_before_first(s: Seq<char>, separator: char)
    ensures
        before_first(s, separator).is_prefix_of(s),
        !before_first(s, separator).contains(separator),
        before_first(s, separator).len() < s.len() ==> s[before_first(s, separator).len() as int]
            == separator,
    decreases s.len(),
{
    if s.len() > 0 && s[0] != separator {
        let rest = s.drop_first();
        let head = before_first(s, separator);
        let tail = before_first(rest, separator);
        law_before_first(rest, separator);
        assert forall|i: int| 0 <= i < head.len() implies head[i] == s[i] && head[i]
            != separator by {
            if i > 0 {
                assert(head[i] == tail[i - 1]);
                assert(tail.contains(tail[i - 1]));
                assert(tail[i - 1] == rest.subrange(0, tail.len() as int)[i - 1]);
            }
        }
        assert(head == s.subrange(0, head.len() as int));
    } else {
        assert(Seq::<char>::empty() == s.subrange(0, 0));
    }
}

/// `segment_before` gives the longest beginning without the separator.
pub proof fn law_segment_before(s: &str, separator: char, r: &str)
    requires
        call_ensures(segment_before, (s, separator), r),
    ensures
        r@.is_prefix_of(s@),
        !r@.contains(separator),
        r@.len() < s@.len() ==> s@[r@.len() as int] == separator,
{
    law_before_first(s@, separator);
}

/// A text starts with another exactly when it has the other's characters in the first places.
pub proof fn law_starts_with(s: &str, prefix: &str, b: bool)
    requires
        call_ensures(starts_with, (s, prefix), b),
    ensures
        b <==> (prefix@.len() <= s@.len() && forall|i: int|
            0 <= i < prefix@.len() ==> #[trigger] prefix@[i] == s@[i]),
{
    if prefix@.len() <= s@.len() {
        let front = s@.subrange(0, prefix@.len() as int);
        assert forall|i: int| 0 <= i < prefix@.len() && b implies #[trigger] prefix@[i]
            == s@[i] by {
            assert(front[i] == s@[i]);
        }
        if forall|i: int| 0 <= i < prefix@.len() ==> #[trigger] prefix@[i] == s@[i] {
            assert(prefix@ == front);
        }
    }
}

/// Two texts are the same exactly when they agree in length and in every character.
pub proof fn law_same(a: &str, b: &str, r: bool)
    requires
        call_ensures(same, (a, b), r),
    ensures
        r <==> (a@.len() == b@.len() && forall|i: int| 0 <= i < a@.len() ==> a@[i] == b@[i]),
{
    if a@.len() == b@.len() && (forall|i: int| 0 <= i < a@.len() ==> a@[i] == b@[i]) {
        assert(a@ =~= b@);
    }
}

/// A list joined is its two parts joined, with the separator between them.
pub proof fn law_joined_splits(a: Seq<Seq<char>>, b: Seq<Seq<char>>, separator: Seq<char>)
    requires
        a.len() > 0,
        b.len() > 0,
    ensures
        joined(a + b, separator) == joined(a, separator) + separator + joined(b, separator),
    decreases b.len(),
{
    let whole = a + b;
    assert(whole.last() == b.last());
    if b.len() == 1 {
        assert(whole.drop_last() == a);
    } else {
        assert(whole.drop_last() == a + b.drop_last());
        law_joined_splits(a, b.drop_last(), separator);
        assert(joined(whole, separator) == joined(a, separator) + separator + (joined(
            b.drop_last(),
            separator,
        ) + separator + b.last()));
    }
}

/// No text joined is empty, one is itself, and a longer list is its two parts joined, with the
/// separator between them.
pub proof fn law_join(
    first: &Vec<String>,
    second: &Vec<String>,
    whole: &Vec<String>,
    separator: &str,
    first_joined: String,
    second_joined: String,
    whole_joined: String,
)
    requires
        call_ensures(join, (first, separator), first_joined),
        call_ensures(join, (second, separator), second_joined),
        call_ensures(join, (whole, separator), whole_joined),
        whole@ == first@ + second@,
    ensures
        whole.len() == 0 ==> whole_joined@.len() == 0,
        whole.len() == 1 ==> whole_joined@ == whole[0]@,
        first.len() > 0 && second.len() > 0 ==> whole_joined@ == first_joined@ + separator@
            + second_joined@,
{
    assert(texts(whole@) == texts(first@) + texts(second@));
    if first.len() > 0 && second.len() > 0 {
        law_joined_splits(texts(first@), texts(second@), separator@);
    }
}

} // verus!
