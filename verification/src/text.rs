//! Characters of a string as a sequence, with the searches, trims and number readings
//! that the rest of the library is built on.

use vstd::prelude::*;
use vstd::string::*;

verus! {

/// The text `p` stands in `s` at position `i`.
pub open spec fn stands_at(s: Seq<char>, p: Seq<char>, i: int) -> bool {
    &&& 0 <= i
    &&& i + p.len() <= s.len()
    &&& s.subrange(i, i + p.len()) == p
}

/// The first position at or after `from` where `p` stands in `s`.
pub open spec fn find_from(s: Seq<char>, p: Seq<char>, from: int) -> Option<int>
    decreases s.len() - from + 1,
{
    if from < 0 || from + p.len() > s.len() {
        None
    } else if stands_at(s, p, from) {
        Some(from)
    } else {
        find_from(s, p, from + 1)
    }
}

/// The first position where `p` stands in `s`.
pub open spec fn find(s: Seq<char>, p: Seq<char>) -> Option<int> {
    find_from(s, p, 0)
}

/// The last position of the character `c` in `s`.
pub open spec fn find_last(s: Seq<char>, c: char) -> Option<int>
    decreases s.len(),
{
    if s.len() == 0 {
        None
    } else if s.last() == c {
        Some(s.len() - 1)
    } else {
        find_last(s.drop_last(), c)
    }
}

/// The character `c` does not occur in `s`.
pub open spec fn lacks(s: Seq<char>, c: char) -> bool {
    forall|i: int| 0 <= i < s.len() ==> #[trigger] s[i] != c
}

/// What comes before the first `p` in `s`: all of `s` when `p` does not occur.
pub open spec fn before(s: Seq<char>, p: Seq<char>) -> Seq<char> {
    match find(s, p) {
        Some(i) => s.take(i),
        None => s,
    }
}

/// The characters with the Unicode property `White_Space`.
pub open spec fn white(c: char) -> bool {
    ||| '\u{9}' <= c <= '\u{d}'
    ||| c == '\u{20}'
    ||| c == '\u{85}'
    ||| c == '\u{a0}'
    ||| c == '\u{1680}'
    ||| '\u{2000}' <= c <= '\u{200a}'
    ||| c == '\u{2028}'
    ||| c == '\u{2029}'
    ||| c == '\u{202f}'
    ||| c == '\u{205f}'
    ||| c == '\u{3000}'
}

/// `s` without the white space it begins with.
pub open spec fn trim_start(s: Seq<char>) -> Seq<char>
    decreases s.len(),
{
    if s.len() > 0 && white(s[0]) {
        trim_start(s.drop_first())
    } else {
        s
    }
}

/// `s` without the white space it ends with.
pub open spec fn trim_end(s: Seq<char>) -> Seq<char>
    decreases s.len(),
{
    if s.len() > 0 && white(s.last()) {
        trim_end(s.drop_last())
    } else {
        s
    }
}

/// `s` without the white space at its two ends.
pub open spec fn trim(s: Seq<char>) -> Seq<char> {
    trim_end(trim_start(s))
}

/// The character with `A` to `Z` replaced by `a` to `z`.
pub open spec fn lower(c: char) -> char {
    if 'A' <= c <= 'Z' {
        ((c as u32 + 32) as u32) as char
    } else {
        c
    }
}

/// `s` with `A` to `Z` replaced by `a` to `z`.
pub open spec fn to_lower(s: Seq<char>) -> Seq<char> {
    Seq::new(s.len(), |i: int| lower(s[i]))
}

pub open spec fn digit(c: char) -> bool {
    '0' <= c <= '9'
}

/// At least one character, and none but decimal digits.
pub open spec fn digits(s: Seq<char>) -> bool {
    s.len() > 0 && forall|i: int| 0 <= i < s.len() ==> digit(#[trigger] s[i])
}

/// The value of a text of decimal digits.
pub open spec fn decimal(s: Seq<char>) -> int
    decreases s.len(),
{
    if s.len() == 0 {
        0
    } else {
        decimal(s.drop_last()) * 10 + (s.last() as int - '0' as int)
    }
}

/// The number that `s` writes, with a leading `+` allowed, when it is at most `max`.
pub open spec fn unsigned(s: Seq<char>, max: int) -> Option<int> {
    let body = if s.len() > 0 && s[0] == '+' {
        s.drop_first()
    } else {
        s
    };
    if digits(body) && decimal(body) <= max {
        Some(decimal(body))
    } else {
        None
    }
}

/// The number that `s` writes, with a leading `+` or `-` allowed, when an `i64` holds it.
pub open spec fn signed(s: Seq<char>) -> Option<int> {
    if s.len() > 0 && s[0] == '-' {
        if digits(s.drop_first()) && -decimal(s.drop_first()) >= i64::MIN {
            Some(-decimal(s.drop_first()))
        } else {
            None
        }
    } else {
        unsigned(s, i64::MAX as int)
    }
}

/// A position that is found holds the text, and no position before it does.
pub proof fn lemma_find_stands(s: Seq<char>, p: Seq<char>, from: int)
    ensures
        find_from(s, p, from) matches Some(i) ==> {
            &&& from <= i
            &&& stands_at(s, p, i)
            &&& forall|j: int| from <= j < i ==> !stands_at(s, p, j)
        },
        find_from(s, p, from) is None && from >= 0 ==> forall|j: int|
            from <= j ==> !stands_at(s, p, j),
    decreases s.len() - from + 1,
{
    if from < 0 || from + p.len() > s.len() {
    } else if stands_at(s, p, from) {
    } else {
        lemma_find_stands(s, p, from + 1);
    }
}

/// The first position that holds the text is the one that is found.
pub proof fn lemma_find_first(s: Seq<char>, p: Seq<char>, from: int, i: int)
    requires
        0 <= from <= i,
        stands_at(s, p, i),
        forall|j: int| from <= j < i ==> !stands_at(s, p, j),
    ensures
        find_from(s, p, from) == Some(i),
    decreases i - from,
{
    if from < i {
        lemma_find_first(s, p, from + 1, i);
    }
}

/// A text is found in the tail of `s` that begins at `cut` where it is found in `s`.
pub proof fn lemma_find_in_tail(s: Seq<char>, p: Seq<char>, cut: int, from: int)
    requires
        0 <= cut <= from,
        cut <= s.len(),
    ensures
        find_from(s.skip(cut), p, from - cut) == (match find_from(s, p, from) {
            Some(i) => Some(i - cut),
            None => None,
        }),
    decreases s.len() - from + 1,
{
    if from + p.len() <= s.len() {
        assert(s.skip(cut).subrange(from - cut, from - cut + p.len()) =~= s.subrange(
            from,
            from + p.len(),
        ));
        lemma_find_in_tail(s, p, cut, from + 1);
    }
}

proof fn lemma_trim_start_ends(s: Seq<char>)
    ensures
        trim_start(s).len() > 0 ==> !white(trim_start(s)[0]) && trim_start(s).last() == s.last(),
        trim_start(s).len() <= s.len(),
    decreases s.len(),
{
    if s.len() > 0 && white(s[0]) {
        lemma_trim_start_ends(s.drop_first());
    }
}

proof fn lemma_trim_end_ends(s: Seq<char>)
    ensures
        trim_end(s).len() > 0 ==> !white(trim_end(s).last()) && trim_end(s)[0] == s[0],
        trim_end(s).len() <= s.len(),
    decreases s.len(),
{
    if s.len() > 0 && white(s.last()) {
        lemma_trim_end_ends(s.drop_last());
    }
}

/// A text that was trimmed has no white space at its ends, and trimming it again does nothing.
pub proof fn law_trim_is_settled(s: Seq<char>)
    ensures
        trim(s).len() > 0 ==> !white(trim(s)[0]) && !white(trim(s).last()),
        trim(trim(s)) == trim(s),
{
    lemma_trim_start_ends(s);
    lemma_trim_end_ends(trim_start(s));
}

/// Nothing but white space.
pub open spec fn blank(s: Seq<char>) -> bool {
    forall|i: int| 0 <= i < s.len() ==> white(#[trigger] s[i])
}

/// At least one character, and no white space at either end.
pub open spec fn settled(s: Seq<char>) -> bool {
    s.len() > 0 && !white(s[0]) && !white(s.last())
}

/// Trimming takes away the white space around a text and nothing else.
pub proof fn law_trim_leaves_the_text(front: Seq<char>, s: Seq<char>, back: Seq<char>)
    requires
        blank(front),
        blank(back),
        settled(s),
    ensures
        trim(front + s + back) == s,
    decreases front.len() + back.len(),
{
    let all = front + s + back;
    if front.len() > 0 {
        assert(all[0] == front[0]);
        assert(all.drop_first() =~= front.drop_first() + s + back);
        assert(blank(front.drop_first()));
        law_trim_leaves_the_text(front.drop_first(), s, back);
    } else {
        assert(all[0] == s[0]);
        assert(trim_start(all) == all);
        if back.len() > 0 {
            assert(all.last() == back.last());
            assert(all.drop_last() =~= front + s + back.drop_last());
            assert(blank(back.drop_last()));
            law_trim_leaves_the_text(front, s, back.drop_last());
            assert(all.drop_last()[0] == s[0]);
            assert(trim_start(all.drop_last()) == all.drop_last());
        } else {
            assert(all =~= s);
        }
    }
}

/// The decimal digits of `n`.
pub open spec fn digits_of(n: nat) -> Seq<char>
    decreases n,
{
    if n < 10 {
        seq![(48 + n) as u8 as char]
    } else {
        digits_of(n / 10).push((48 + n % 10) as u8 as char)
    }
}

/// A number comes back from its digits.
pub proof fn law_number_comes_back(n: nat, max: int)
    requires
        n <= max,
    ensures
        digits(digits_of(n)),
        decimal(digits_of(n)) == n,
        unsigned(digits_of(n), max) == Some(n as int),
    decreases n,
{
    let s = digits_of(n);
    if n < 10 {
        assert(s.drop_last() =~= Seq::<char>::empty());
        reveal_with_fuel(decimal, 2);
    } else {
        law_number_comes_back(n / 10, max);
        assert(s.drop_last() =~= digits_of(n / 10));
        assert forall|i: int| 0 <= i < s.len() implies digit(#[trigger] s[i]) by {
            if i < s.len() - 1 {
                assert(s[i] == digits_of(n / 10)[i]);
            }
        }
    }
    assert(digit(s[0]));
}

/// A character that does not occur in `s` is not found in it.
pub proof fn lemma_find_last_none(s: Seq<char>, c: char)
    requires
        forall|i: int| 0 <= i < s.len() ==> #[trigger] s[i] != c,
    ensures
        find_last(s, c) is None,
    decreases s.len(),
{
    if s.len() > 0 {
        lemma_find_last_none(s.drop_last(), c);
    }
}

/// The last place of a character is found.
pub proof fn lemma_find_last_at(s: Seq<char>, c: char, i: int)
    requires
        0 <= i < s.len(),
        s[i] == c,
        forall|j: int| i < j < s.len() ==> #[trigger] s[j] != c,
    ensures
        find_last(s, c) == Some(i),
    decreases s.len(),
{
    if i < s.len() - 1 {
        assert(s.last() != c);
        lemma_find_last_at(s.drop_last(), c, i);
    }
}

/// The characters of `s`.
pub(crate) fn chars_of(s: &str) -> (out: Vec<char>)
    ensures
        out@ == s@,
{
    let mut out: Vec<char> = Vec::new();
    for c in it: s.chars()
        invariant
            it.seq() == s@,
            out@ == s@.take(it.index()),
    {
        out.push(c);
        assert(s@.take(it.index() + 1) == s@.take(it.index()).push(c));
    }
    assert(s@.take(s@.len() as int) == s@);
    out
}

/// The characters `from..to` of `s`.
pub(crate) fn slice(s: &str, from: usize, to: usize) -> (out: String)
    requires
        from <= to <= s@.len(),
    ensures
        out@ == s@.subrange(from as int, to as int),
{
    s.substring_char(from, to).to_owned()
}

pub(crate) fn is_white(c: char) -> (b: bool)
    ensures
        b == white(c),
{
    ('\u{9}' <= c && c <= '\u{d}') || c == '\u{20}' || c == '\u{85}' || c == '\u{a0}'
        || c == '\u{1680}' || ('\u{2000}' <= c && c <= '\u{200a}') || c == '\u{2028}'
        || c == '\u{2029}' || c == '\u{202f}' || c == '\u{205f}' || c == '\u{3000}'
}

fn equals_at(s: &Vec<char>, p: &Vec<char>, i: usize) -> (b: bool)
    requires
        i + p@.len() <= s@.len(),
    ensures
        b == stands_at(s@, p@, i as int),
{
    let mut k: usize = 0;
    let len: usize = s.len();
    while k < p.len()
        invariant
            k <= p@.len(),
            i + p@.len() <= s@.len() == len,
            forall|j: int| 0 <= j < k ==> s@[i + j] == #[trigger] p@[j],
        decreases p@.len() - k,
    {
        if s[i + k] != p[k] {
            assert(s@.subrange(i as int, i + p@.len())[k as int] != p@[k as int]);
            return false;
        }
        k = k + 1;
    }
    assert(s@.subrange(i as int, i + p@.len()) =~= p@);
    true
}

/// `p` stands at the beginning of `s`.
pub(crate) fn begins_with(s: &Vec<char>, p: &str) -> (b: bool)
    ensures
        b == stands_at(s@, p@, 0),
{
    let pat: Vec<char> = chars_of(p);
    pat.len() <= s.len() && equals_at(s, &pat, 0)
}

/// The character `c` does not occur among the characters `from..to` of `s`.
pub(crate) fn lacks_in(s: &Vec<char>, c: char, from: usize, to: usize) -> (b: bool)
    requires
        from <= to <= s@.len(),
    ensures
        b == lacks(s@.subrange(from as int, to as int), c),
{
    let mut i: usize = from;
    while i < to
        invariant
            from <= i <= to <= s@.len(),
            forall|k: int| from <= k < i ==> #[trigger] s@[k] != c,
        decreases to - i,
    {
        if s[i] == c {
            assert(s@.subrange(from as int, to as int)[i - from] == c);
            return false;
        }
        i = i + 1;
    }
    true
}

/// The characters `from..to` of `s`.
pub(crate) fn part(s: &Vec<char>, from: usize, to: usize) -> (out: Vec<char>)
    requires
        from <= to <= s@.len(),
    ensures
        out@ == s@.subrange(from as int, to as int),
{
    vstd::slice::slice_to_vec(vstd::slice::slice_subrange(s.as_slice(), from, to))
}

/// The first position at or after `from` where `p` stands in `s`.
pub(crate) fn find_in(s: &Vec<char>, p: &str, from: usize) -> (r: Option<usize>)
    requires
        from <= s@.len(),
    ensures
        match r {
            Some(i) => find_from(s@, p@, from as int) == Some(i as int),
            None => find_from(s@, p@, from as int) is None,
        },
{
    let pat: Vec<char> = chars_of(p);
    let mut i: usize = from;
    while pat.len() <= s.len() - i
        invariant
            pat@ == p@,
            from <= i <= s@.len(),
            find_from(s@, p@, from as int) == find_from(s@, p@, i as int),
        decreases s@.len() - i,
    {
        if equals_at(s, &pat, i) {
            return Some(i);
        }
        if i == s.len() {
            assert(s@.subrange(i as int, i as int) =~= p@);
        }
        i = i + 1;
    }
    None
}

/// The last position of `c` in `s`, among the characters `from..to`, counted from `from`.
pub(crate) fn find_last_in(s: &Vec<char>, c: char, from: usize, to: usize) -> (r: Option<usize>)
    requires
        from <= to <= s@.len(),
    ensures
        match r {
            Some(i) => find_last(s@.subrange(from as int, to as int), c) == Some(i as int),
            None => find_last(s@.subrange(from as int, to as int), c) is None,
        },
        r matches Some(i) ==> from + i < to && s@[from + i] == c,
{
    let mut end: usize = to;
    while end > from
        invariant
            from <= end <= to <= s@.len(),
            find_last(s@.subrange(from as int, to as int), c) == find_last(
                s@.subrange(from as int, end as int),
                c,
            ),
        decreases end,
    {
        let ghost rest = s@.subrange(from as int, end as int);
        assert(rest.last() == s@[end - 1]);
        assert(rest.drop_last() =~= s@.subrange(from as int, end - 1));
        if s[end - 1] == c {
            return Some(end - 1 - from);
        }
        end = end - 1;
    }
    None
}

/// The bounds of the characters `from..to` of `s` once trimmed.
pub(crate) fn trim_bounds(s: &Vec<char>, from: usize, to: usize) -> (r: (usize, usize))
    requires
        from <= to <= s@.len(),
    ensures
        from <= r.0 <= r.1 <= to,
        s@.subrange(r.0 as int, r.1 as int) == trim(s@.subrange(from as int, to as int)),
{
    let mut a: usize = from;
    while a < to && is_white(s[a])
        invariant
            from <= a <= to <= s@.len(),
            trim_start(s@.subrange(from as int, to as int)) == trim_start(
                s@.subrange(a as int, to as int),
            ),
        decreases to - a,
    {
        assert(s@.subrange(a as int, to as int).drop_first() =~= s@.subrange(a + 1, to as int));
        a = a + 1;
    }
    let mut b: usize = to;
    while b > a && is_white(s[b - 1])
        invariant
            from <= a <= b <= to <= s@.len(),
            trim_end(s@.subrange(a as int, to as int)) == trim_end(
                s@.subrange(a as int, b as int),
            ),
        decreases b,
    {
        assert(s@.subrange(a as int, b as int).drop_last() =~= s@.subrange(a as int, b - 1));
        b = b - 1;
    }
    (a, b)
}

/// `s` without the white space at its two ends.
pub(crate) fn trimmed(s: &str) -> (out: String)
    ensures
        out@ == trim(s@),
{
    let chars: Vec<char> = chars_of(s);
    let (a, b) = trim_bounds(&chars, 0, chars.len());
    assert(s@.subrange(0, s@.len() as int) =~= s@);
    slice(s, a, b)
}

/// The characters of `s` are those of `p`.
pub(crate) fn same_text(s: &str, p: &str) -> (b: bool)
    ensures
        b == (s@ == p@),
{
    let a: Vec<char> = chars_of(s);
    let c: Vec<char> = chars_of(p);
    if a.len() != c.len() {
        return false;
    }
    let b: bool = equals_at(&a, &c, 0);
    assert(s@.subrange(0, s@.len() as int) =~= s@);
    b
}

pub(crate) fn lower_of(c: char) -> (r: char)
    ensures
        r == lower(c),
{
    if 'A' <= c && c <= 'Z' {
        (c as u8 + 32) as char
    } else {
        c
    }
}

/// The characters `from..to` of `s`, in lower case, are those of `p`.
pub(crate) fn same_lower(s: &Vec<char>, from: usize, to: usize, p: &str) -> (b: bool)
    requires
        from <= to <= s@.len(),
    ensures
        b == (to_lower(s@.subrange(from as int, to as int)) == p@),
{
    let want: Vec<char> = chars_of(p);
    let ghost low = to_lower(s@.subrange(from as int, to as int));
    if want.len() != to - from {
        assert(low.len() != p@.len());
        return false;
    }
    let mut k: usize = 0;
    while k < want.len()
        invariant
            k <= want@.len(),
            want@ == p@,
            from + want@.len() == to <= s@.len(),
            low == to_lower(s@.subrange(from as int, to as int)),
            forall|j: int| 0 <= j < k ==> low[j] == #[trigger] p@[j],
        decreases want@.len() - k,
    {
        if lower_of(s[from + k]) != want[k] {
            assert(low[k as int] != p@[k as int]);
            return false;
        }
        k = k + 1;
    }
    assert(low =~= p@);
    true
}

/// A text of digits is worth at least what a first part of it is.
pub proof fn lemma_decimal_grows(s: Seq<char>, i: int)
    requires
        0 <= i <= s.len(),
        forall|k: int| 0 <= k < s.len() ==> digit(#[trigger] s[k]),
    ensures
        0 <= decimal(s.take(i)) <= decimal(s),
    decreases s.len(),
{
    if s.len() == 0 {
        assert(s.take(i) =~= s);
    } else {
        let front = s.drop_last();
        assert(digit(s.last()));
        if i == s.len() {
            assert(s.take(i) =~= s);
            lemma_decimal_grows(front, front.len() as int);
            assert(front.take(front.len() as int) =~= front);
        } else {
            lemma_decimal_grows(front, i);
            assert(front.take(i) =~= s.take(i));
        }
    }
}

/// The value of the characters `from..to` of `s` when they are digits worth at most `max`.
fn read_digits(s: &Vec<char>, from: usize, to: usize, max: u64) -> (r: Option<u64>)
    requires
        from <= to <= s@.len(),
    ensures
        match r {
            Some(v) => {
                let t = s@.subrange(from as int, to as int);
                digits(t) && decimal(t) == v && v <= max
            },
            None => {
                let t = s@.subrange(from as int, to as int);
                !digits(t) || decimal(t) > max
            },
        },
{
    let ghost t = s@.subrange(from as int, to as int);
    if from == to {
        return None;
    }
    let mut v: u64 = 0;
    let mut i: usize = from;
    assert(t.take(0) =~= Seq::<char>::empty());
    while i < to
        invariant
            from <= i <= to <= s@.len(),
            from < to,
            t == s@.subrange(from as int, to as int),
            forall|k: int| 0 <= k < i - from ==> digit(#[trigger] t[k]),
            v == decimal(t.take(i - from)),
            v <= max,
        decreases to - i,
    {
        let c: char = s[i];
        assert(t[i - from] == c);
        if !('0' <= c && c <= '9') {
            return None;
        }
        let d: u64 = c as u64 - 48;
        assert(t.take(i + 1 - from).drop_last() =~= t.take(i - from));
        assert(decimal(t.take(i + 1 - from)) == v * 10 + d);
        if d > max || v > (max - d) / 10 {
            proof {
                assert(v * 10 + d > max);
                if digits(t) {
                    lemma_decimal_grows(t, i + 1 - from);
                }
            }
            return None;
        }
        v = v * 10 + d;
        i = i + 1;
    }
    assert(t.take(to - from) =~= t);
    Some(v)
}

/// The number that the characters `from..to` of `s` write, when it is at most `max`.
pub(crate) fn read_unsigned(s: &Vec<char>, from: usize, to: usize, max: u64) -> (r: Option<u64>)
    requires
        from <= to <= s@.len(),
    ensures
        match r {
            Some(v) => unsigned(s@.subrange(from as int, to as int), max as int) == Some(v as int),
            None => unsigned(s@.subrange(from as int, to as int), max as int) is None,
        },
{
    let ghost t = s@.subrange(from as int, to as int);
    if from < to && s[from] == '+' {
        assert(t.drop_first() =~= s@.subrange(from + 1, to as int));
        read_digits(s, from + 1, to, max)
    } else {
        read_digits(s, from, to, max)
    }
}

/// The number that the characters `from..to` of `s` write, when an `i64` holds it.
pub(crate) fn read_signed(s: &Vec<char>, from: usize, to: usize) -> (r: Option<i64>)
    requires
        from <= to <= s@.len(),
    ensures
        match r {
            Some(v) => signed(s@.subrange(from as int, to as int)) == Some(v as int),
            None => signed(s@.subrange(from as int, to as int)) is None,
        },
{
    let ghost t = s@.subrange(from as int, to as int);
    if from < to && s[from] == '-' {
        assert(t.drop_first() =~= s@.subrange(from + 1, to as int));
        match read_digits(s, from + 1, to, 0x8000_0000_0000_0000) {
            Some(v) => {
                if v == 0x8000_0000_0000_0000 {
                    Some(i64::MIN)
                } else {
                    Some(-(v as i64))
                }
            },
            None => None,
        }
    } else {
        match read_unsigned(s, from, to, 0x7fff_ffff_ffff_ffff) {
            Some(v) => Some(v as i64),
            None => None,
        }
    }
}

/// A text stands at a place when its characters do, one after the other.
pub proof fn law_text_stands_by_its_characters(s: Seq<char>, p: Seq<char>, i: int)
    ensures
        stands_at(s, p, i) <==> {
            &&& 0 <= i <= s.len() - p.len()
            &&& forall|k: int| 0 <= k < p.len() ==> s[i + k] == #[trigger] p[k]
        },
{
    if 0 <= i <= s.len() - p.len() {
        let part = s.subrange(i, i + p.len());
        if stands_at(s, p, i) {
            assert forall|k: int| 0 <= k < p.len() implies s[i + k] == #[trigger] p[k] by {
                assert(part[k] == s[i + k]);
            }
        } else if forall|k: int| 0 <= k < p.len() ==> s[i + k] == #[trigger] p[k] {
            assert(part =~= p);
        }
    }
}

/// What is found is the first place where all characters of `p` follow one another in `s`: at
/// any place `j` before it, and at any place at all when nothing is found, a character differs.
pub proof fn law_first_place_is_found(s: Seq<char>, p: Seq<char>, j: int)
    ensures
        match find(s, p) {
            Some(i) => {
                &&& 0 <= i <= s.len() - p.len()
                &&& forall|k: int| 0 <= k < p.len() ==> s[i + k] == #[trigger] p[k]
                &&& 0 <= j < i ==> exists|k: int| 0 <= k < p.len() && s[j + k] != #[trigger] p[k]
            },
            None => 0 <= j <= s.len() - p.len() ==> exists|k: int|
                0 <= k < p.len() && s[j + k] != #[trigger] p[k],
        },
{
    lemma_find_stands(s, p, 0);
    law_text_stands_by_its_characters(s, p, j);
    if let Some(i) = find(s, p) {
        law_text_stands_by_its_characters(s, p, i);
    }
}

/// The last place of a character is a place of it with none after it; when there is none, the
/// character does not occur.
pub proof fn law_last_place_is_found(s: Seq<char>, c: char)
    ensures
        match find_last(s, c) {
            Some(i) => {
                &&& 0 <= i < s.len()
                &&& s[i] == c
                &&& forall|j: int| i < j < s.len() ==> #[trigger] s[j] != c
            },
            None => !s.contains(c),
        },
        lacks(s, c) <==> !s.contains(c),
    decreases s.len(),
{
    if s.len() > 0 {
        let shorter = s.drop_last();
        law_last_place_is_found(shorter, c);
        if s.last() != c {
            assert forall|j: int| 0 <= j < s.len() - 1 implies #[trigger] s[j] == shorter[j] by {}
            if find_last(shorter, c) is None {
                assert forall|j: int| 0 <= j < s.len() implies #[trigger] s[j] != c by {
                    if j < s.len() - 1 {
                        assert(shorter.contains(shorter[j]));
                    }
                }
            }
        }
    }
    if !lacks(s, c) {
        let i = choose|i: int| 0 <= i < s.len() && #[trigger] s[i] == c;
        assert(s.contains(s[i]));
    }
}

/// What comes before `p` is a first part of `s`, up to the first place of `p`, or all of `s`.
pub proof fn law_what_comes_before(s: Seq<char>, p: Seq<char>, j: int)
    ensures
        before(s, p).len() <= s.len(),
        before(s, p) == s.take(before(s, p).len() as int),
        before(s, p).len() < s.len() ==> {
            &&& before(s, p).len() + p.len() <= s.len()
            &&& forall|k: int|
                0 <= k < p.len() ==> s[before(s, p).len() + k] == #[trigger] p[k]
        },
        0 <= j < before(s, p).len() && j + p.len() <= s.len() ==> exists|k: int|
            0 <= k < p.len() && s[j + k] != #[trigger] p[k],
{
    law_first_place_is_found(s, p, j);
    assert(s.take(s.len() as int) =~= s);
}

/// White space is what Unicode calls so, by its code points.
pub proof fn law_white_space_by_code_point(c: char)
    ensures
        white(c) <==> {
            let n = c as int;
            9 <= n < 14 || n == 32 || n == 0x85 || n == 0xa0 || n == 0x1680 || 0x2000 <= n
                < 0x200b || n == 0x2028 || n == 0x2029 || n == 0x202f || n == 0x205f || n == 0x3000
        },
{
}

proof fn lemma_trim_start_part(s: Seq<char>) -> (a: int)
    ensures
        0 <= a <= s.len(),
        trim_start(s) == s.skip(a),
        forall|i: int| 0 <= i < a ==> white(#[trigger] s[i]),
        a < s.len() ==> !white(s[a]),
    decreases s.len(),
{
    if s.len() > 0 && white(s[0]) {
        let rest = s.drop_first();
        let a = lemma_trim_start_part(rest);
        assert(s.skip(a + 1) =~= rest.skip(a));
        assert forall|i: int| 0 <= i < a + 1 implies white(#[trigger] s[i]) by {
            if i > 0 {
                assert(s[i] == rest[i - 1]);
            }
        }
        if a < rest.len() {
            assert(s[a + 1] == rest[a]);
        }
        a + 1
    } else {
        assert(s.skip(0) =~= s);
        0
    }
}

proof fn lemma_trim_end_part(s: Seq<char>) -> (b: int)
    ensures
        0 <= b <= s.len(),
        trim_end(s) == s.take(b),
        forall|i: int| b <= i < s.len() ==> white(#[trigger] s[i]),
        b > 0 ==> !white(s[b - 1]),
    decreases s.len(),
{
    if s.len() > 0 && white(s.last()) {
        let rest = s.drop_last();
        let b = lemma_trim_end_part(rest);
        assert(s.take(b) =~= rest.take(b));
        assert forall|i: int| b <= i < s.len() implies white(#[trigger] s[i]) by {
            if i < rest.len() {
                assert(s[i] == rest[i]);
            }
        }
        if b > 0 {
            assert(s[b - 1] == rest[b - 1]);
        }
        b
    } else {
        assert(s.take(s.len() as int) =~= s);
        s.len() as int
    }
}

/// Trimming keeps one part of a text: before it and after it is nothing but white space, and
/// its first and last characters are none. Nothing is kept only of a text that is blank.
pub proof fn law_trim_keeps_what_is_between(s: Seq<char>) -> (ab: (int, int))
    ensures
        0 <= ab.0 <= ab.1 <= s.len(),
        trim(s) == s.subrange(ab.0, ab.1),
        forall|i: int| 0 <= i < ab.0 ==> white(#[trigger] s[i]),
        forall|i: int| ab.1 <= i < s.len() ==> white(#[trigger] s[i]),
        ab.0 < ab.1 ==> !white(s[ab.0]) && !white(s[ab.1 - 1]),
        trim(s).len() == 0 <==> forall|i: int| 0 <= i < s.len() ==> white(#[trigger] s[i]),
{
    let a = lemma_trim_start_part(s);
    let rest = s.skip(a);
    let n = lemma_trim_end_part(rest);
    let b = a + n;
    assert(trim(s) =~= s.subrange(a, b));
    assert forall|i: int| b <= i < s.len() implies white(#[trigger] s[i]) by {
        assert(s[i] == rest[i - a]);
    }
    if n > 0 {
        assert(s[b - 1] == rest[n - 1]);
    } else {
        assert forall|i: int| 0 <= i < s.len() implies white(#[trigger] s[i]) by {
            if i >= a {
                assert(s[i] == rest[i - a]);
            }
        }
    }
    (a, b)
}

/// Lower case changes the 26 letters from `A` on, each to the letter 32 code points later, and
/// no other character.
pub proof fn law_lower_case_changes_letters_only(s: Seq<char>, i: int)
    requires
        0 <= i < s.len(),
    ensures
        to_lower(s).len() == s.len(),
        65 <= s[i] as int <= 90 ==> to_lower(s)[i] as int == s[i] as int + 32,
        !(65 <= s[i] as int <= 90) ==> to_lower(s)[i] == s[i],
{
}

/// Only the characters `0` to `9`, and at least one.
pub open spec fn number_text(s: Seq<char>) -> bool {
    s.len() > 0 && forall|i: int| 0 <= i < s.len() ==> 48 <= (#[trigger] s[i]) as int <= 57
}

/// The value of a text of digits is positional: a further digit counts once, and what was there
/// ten times as much.
pub proof fn law_digits_are_positional(s: Seq<char>, c: char)
    ensures
        decimal(Seq::<char>::empty()) == 0,
        decimal(s.push(c)) == 10 * decimal(s) + (c as int - 48),
{
    assert(s.push(c).drop_last() =~= s);
}

/// An unsigned number is written in digits, with or without a `+` before them, and counts when
/// it is at most `max`; nothing else is a number.
pub proof fn law_unsigned_numbers(s: Seq<char>, max: int)
    ensures
        number_text(s) && decimal(s) <= max ==> {
            &&& unsigned(s, max) == Some(decimal(s))
            &&& unsigned(seq!['+'] + s, max) == Some(decimal(s))
        },
        number_text(s) && decimal(s) > max ==> {
            &&& unsigned(s, max) is None
            &&& unsigned(seq!['+'] + s, max) is None
        },
        !number_text(s) ==> {
            &&& unsigned(seq!['+'] + s, max) is None
            &&& s.len() == 0 || s[0] != '+' ==> unsigned(s, max) is None
        },
{
    assert((seq!['+'] + s).drop_first() =~= s);
    assert(number_text(s) <==> digits(s)) by {
        if number_text(s) {
            assert forall|i: int| 0 <= i < s.len() implies digit(#[trigger] s[i]) by {}
        }
        if digits(s) {
            assert forall|i: int| 0 <= i < s.len() implies 48 <= (#[trigger] s[i]) as int <= 57 by {
                assert(digit(s[i]));
            }
        }
    }
}

/// A number that is read is not negative, and at most `max`.
pub proof fn lemma_unsigned_is_within(s: Seq<char>, max: int)
    ensures
        unsigned(s, max) matches Some(n) ==> 0 <= n <= max,
{
    let body = if s.len() > 0 && s[0] == '+' {
        s.drop_first()
    } else {
        s
    };
    if digits(body) {
        lemma_decimal_grows(body, 0);
        assert(body.take(0) =~= Seq::<char>::empty());
    }
}

/// A signed number is an unsigned one that an `i64` holds, or digits after a `-` whose negative
/// value an `i64` holds.
pub proof fn law_signed_numbers(s: Seq<char>)
    ensures
        s.len() == 0 || s[0] != '-' ==> signed(s) == unsigned(s, 0x7fff_ffff_ffff_ffff),
        number_text(s) && decimal(s) <= 0x8000_0000_0000_0000 ==> signed(seq!['-'] + s) == Some(
            -decimal(s),
        ),
        !number_text(s) || decimal(s) > 0x8000_0000_0000_0000 ==> signed(seq!['-'] + s) is None,
{
    law_unsigned_numbers(s, 0);
    assert((seq!['-'] + s).drop_first() =~= s);
    assert(number_text(s) <==> digits(s)) by {
        if number_text(s) {
            assert forall|i: int| 0 <= i < s.len() implies digit(#[trigger] s[i]) by {}
        }
        if digits(s) {
            assert forall|i: int| 0 <= i < s.len() implies 48 <= (#[trigger] s[i]) as int <= 57 by {
                assert(digit(s[i]));
            }
        }
    }
}

/// White space around a text does not matter to what it is once trimmed.
pub proof fn law_white_space_around_does_not_matter(
    front: Seq<char>,
    s: Seq<char>,
    back: Seq<char>,
)
    requires
        blank(front),
        blank(back),
    ensures
        trim(front + s + back) == trim(s),
{
    let ab = law_trim_keeps_what_is_between(s);
    let all = front + s + back;
    if ab.0 < ab.1 {
        let kept = s.subrange(ab.0, ab.1);
        let left = front + s.take(ab.0);
        let right = s.skip(ab.1) + back;
        assert forall|i: int| 0 <= i < left.len() implies white(#[trigger] left[i]) by {
            if i >= front.len() {
                assert(left[i] == s[i - front.len()]);
            }
        }
        assert forall|i: int| 0 <= i < right.len() implies white(#[trigger] right[i]) by {
            if i < s.len() - ab.1 {
                assert(right[i] == s[ab.1 + i]);
            }
        }
        assert(all =~= left + kept + right);
        law_trim_leaves_the_text(left, kept, right);
    } else {
        let whole = law_trim_keeps_what_is_between(all);
        assert(trim(s) =~= Seq::<char>::empty());
        assert forall|i: int| 0 <= i < all.len() implies white(#[trigger] all[i]) by {
            if front.len() <= i < front.len() + s.len() {
                assert(all[i] == s[i - front.len()]);
            }
        }
        assert(trim(all) =~= Seq::<char>::empty());
    }
}

} // verus!
