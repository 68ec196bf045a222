//! Text as the proxy handles it: paths, base URLs, header values and the
//! lines of a narinfo, all as sequences of characters.
use vstd::arithmetic::power::{lemma_pow0, lemma_pow1, lemma_pow_adds, pow};
use vstd::prelude::*;
use vstd::string::*;

verus! {

/// Characters with the Unicode property `White_Space`.
pub open spec fn is_white_space(c: char) -> bool {
    let u = c as u32;
    ||| 0x09 <= u <= 0x0D
    ||| u == 0x20
    ||| u == 0x85
    ||| u == 0xA0
    ||| u == 0x1680
    ||| 0x2000 <= u <= 0x200A
    ||| u == 0x2028
    ||| u == 0x2029
    ||| u == 0x202F
    ||| u == 0x205F
    ||| u == 0x3000
}

pub open spec fn is_slash(c: char) -> bool {
    c == '/'
}

pub open spec fn is_digit(c: char) -> bool {
    '0' <= c <= '9'
}

/// `s` without the longest run of characters satisfying `p` at its start.
pub open spec fn drop_leading(s: Seq<char>, p: spec_fn(char) -> bool) -> Seq<char>
    decreases s.len(),
{
    if s.len() > 0 && p(s.first()) {
        drop_leading(s.drop_first(), p)
    } else {
        s
    }
}

/// `s` without the longest run of characters satisfying `p` at its end.
pub open spec fn drop_trailing(s: Seq<char>, p: spec_fn(char) -> bool) -> Seq<char>
    decreases s.len(),
{
    if s.len() > 0 && p(s.last()) {
        drop_trailing(s.drop_last(), p)
    } else {
        s
    }
}

/// A path without its leading slashes.
pub open spec fn without_leading_slashes(s: Seq<char>) -> Seq<char> {
    drop_leading(s, |c: char| is_slash(c))
}

/// A base URL without its trailing slashes.
pub open spec fn without_trailing_slashes(s: Seq<char>) -> Seq<char> {
    drop_trailing(s, |c: char| is_slash(c))
}

/// `s` without white space at either end.
pub open spec fn trimmed(s: Seq<char>) -> Seq<char> {
    drop_trailing(drop_leading(s, |c: char| is_white_space(c)), |c: char| is_white_space(c))
}

/// The number that a run of decimal digits spells.
pub open spec fn digits_value(s: Seq<char>) -> nat
    decreases s.len(),
{
    if s.len() == 0 {
        0
    } else {
        digits_value(s.drop_last()) * 10 + (s.last() as nat - '0' as nat) as nat
    }
}

pub open spec fn all_digits(s: Seq<char>) -> bool {
    forall|i: int| 0 <= i < s.len() ==> is_digit(#[trigger] s[i])
}

/// The count that a header value spells: decimal digits, at least one, after
/// an optional plus sign, and no more than the machine can address.
pub open spec fn count_value(s: Seq<char>) -> Option<usize> {
    let digits = if s.len() > 0 && s.first() == '+' {
        s.drop_first()
    } else {
        s
    };
    if digits.len() > 0 && all_digits(digits) && digits_value(digits) <= usize::MAX {
        Some(digits_value(digits) as usize)
    } else {
        None
    }
}

/// The digit characters, by value.
pub open spec fn digit_char(d: nat) -> char {
    (d + '0' as nat) as char
}

/// A number in decimal, without leading zeros.
pub open spec fn decimal_text(n: nat) -> Seq<char>
    decreases n,
{
    if n < 10 {
        seq![digit_char(n)]
    } else {
        decimal_text(n / 10).push(digit_char(n % 10))
    }
}

proof fn lemma_drop_leading(s: Seq<char>, p: spec_fn(char) -> bool, n: int)
    requires
        0 <= n <= s.len(),
        forall|i: int| 0 <= i < n ==> p(#[trigger] s[i]),
        n == s.len() || !p(s[n]),
    ensures
        drop_leading(s, p) == s.skip(n),
    decreases n,
{
    if n == 0 {
        assert(s.skip(0) == s);
    } else {
        let rest = s.drop_first();
        assert forall|i: int| 0 <= i < n - 1 implies p(#[trigger] rest[i]) by {
            assert(rest[i] == s[i + 1]);
        }
        lemma_drop_leading(rest, p, n - 1);
        assert(rest.skip(n - 1) == s.skip(n));
        assert(p(s[0]));
    }
}

proof fn lemma_drop_trailing(s: Seq<char>, p: spec_fn(char) -> bool, n: int)
    requires
        0 <= n <= s.len(),
        forall|i: int| n <= i < s.len() ==> p(#[trigger] s[i]),
        n == 0 || !p(s[n - 1]),
    ensures
        drop_trailing(s, p) == s.take(n),
    decreases s.len() - n,
{
    if n == s.len() {
        assert(s.take(n) == s);
        if n > 0 {
            assert(s.last() == s[n - 1]);
        }
    } else {
        let rest = s.drop_last();
        assert forall|i: int| n <= i < rest.len() implies p(#[trigger] rest[i]) by {
            assert(rest[i] == s[i]);
        }
        lemma_drop_trailing(rest, p, n);
        assert(rest.take(n) == s.take(n));
        assert(p(s[s.len() - 1]));
    }
}

/// The characters of a string.
pub fn chars_of(s: &str) -> (v: Vec<char>)
    ensures
        v@ == s@,
{
    let mut v: Vec<char> = Vec::new();
    for c in it: s.chars()
        invariant
            v@ == it.seq().take(it.index() as int),
            it.seq() == s@,
    {
        v.push(c);
    }
    assert(s@.take(s@.len() as int) == s@);
    v
}

/// Whether two strings hold the same characters.
pub fn same_text(a: &str, b: &str) -> (r: bool)
    ensures
        r == (a@ == b@),
{
    let a_chars = chars_of(a);
    let b_chars = chars_of(b);
    if a_chars.len() != b_chars.len() {
        return false;
    }
    assert(a@.subrange(0, a@.len() as int) == a@);
    has_at(&a_chars, 0, &b_chars)
}

/// Whether `part` stands in `whole` at position `at`.
pub fn has_at(whole: &Vec<char>, at: usize, part: &Vec<char>) -> (r: bool)
    requires
        at + part@.len() <= whole@.len(),
    ensures
        r == (whole@.subrange(at as int, at + part@.len()) == part@),
{
    let ghost window = whole@.subrange(at as int, at + part@.len());
    let end: usize = whole.len();
    let mut i: usize = 0;
    while i < part.len()
        invariant
            i <= part@.len(),
            at + part@.len() <= whole@.len() == end,
            window == whole@.subrange(at as int, at + part@.len()),
            forall|j: int| 0 <= j < i ==> window[j] == part@[j],
        decreases part@.len() - i,
    {
        if whole[at + i] != part[i] {
            assert(window[i as int] != part@[i as int]);
            return false;
        }
        i = i + 1;
    }
    assert(window == part@);
    true
}

/// Whether `s` begins with `prefix`.
pub fn starts_with(s: &str, prefix: &str) -> (r: bool)
    ensures
        r == prefix@.is_prefix_of(s@),
{
    let s_chars = chars_of(s);
    let part = chars_of(prefix);
    if part.len() > s_chars.len() {
        return false;
    }
    has_at(&s_chars, 0, &part)
}

/// Whether `s` ends with `suffix`.
pub fn ends_with(s: &str, suffix: &str) -> (r: bool)
    ensures
        r == suffix@.is_suffix_of(s@),
{
    let s_chars = chars_of(s);
    let part = chars_of(suffix);
    if part.len() > s_chars.len() {
        return false;
    }
    has_at(&s_chars, s_chars.len() - part.len(), &part)
}

/// Drops the slashes at the start of a path.
pub fn trim_leading_slashes(s: &str) -> (r: &str)
    ensures
        r@ == without_leading_slashes(s@),
{
    let chars = chars_of(s);
    let mut n: usize = 0;
    while n < chars.len() && chars[n] == '/'
        invariant
            n <= chars@.len(),
            forall|i: int| 0 <= i < n ==> is_slash(#[trigger] chars@[i]),
        decreases chars@.len() - n,
    {
        n = n + 1;
    }
    proof {
        lemma_drop_leading(s@, |c: char| is_slash(c), n as int);
        assert(s@.subrange(n as int, chars@.len() as int) == s@.skip(n as int));
    }
    s.substring_char(n, chars.len())
}

/// Drops the slashes at the end of a base URL.
pub fn trim_trailing_slashes(s: &str) -> (r: &str)
    ensures
        r@ == without_trailing_slashes(s@),
{
    let chars = chars_of(s);
    let mut n: usize = chars.len();
    while n > 0 && chars[n - 1] == '/'
        invariant
            n <= chars@.len(),
            forall|i: int| n <= i < chars@.len() ==> is_slash(#[trigger] chars@[i]),
        decreases n,
    {
        n = n - 1;
    }
    proof {
        lemma_drop_trailing(s@, |c: char| is_slash(c), n as int);
        assert(s@.subrange(0, n as int) == s@.take(n as int));
    }
    s.substring_char(0, n)
}

/// Whether a character is white space.
pub fn white_space(c: char) -> (r: bool)
    ensures
        r == is_white_space(c),
{
    let u: u32 = c as u32;
    (0x09 <= u && u <= 0x0D) || u == 0x20 || u == 0x85 || u == 0xA0 || u == 0x1680 || (0x2000 <= u
        && u <= 0x200A) || u == 0x2028 || u == 0x2029 || u == 0x202F || u == 0x205F || u == 0x3000
}

/// The bounds, within `chars[from..to]`, of what is left without white space
/// at either end.
pub fn trim_bounds(chars: &Vec<char>, from: usize, to: usize) -> (r: (usize, usize))
    requires
        from <= to <= chars@.len(),
    ensures
        from <= r.0 <= r.1 <= to,
        chars@.subrange(r.0 as int, r.1 as int) == trimmed(
            chars@.subrange(from as int, to as int),
        ),
{
    let mut a: usize = from;
    while a < to && white_space(chars[a])
        invariant
            from <= a <= to <= chars@.len(),
            forall|i: int| from <= i < a ==> is_white_space(#[trigger] chars@[i]),
        decreases to - a,
    {
        a = a + 1;
    }
    let ghost whole = chars@.subrange(from as int, to as int);
    let ghost tail = chars@.subrange(a as int, to as int);
    proof {
        lemma_drop_leading(whole, |c: char| is_white_space(c), a - from);
        assert(whole.skip(a - from) == tail);
    }
    let mut b: usize = to;
    while b > a && white_space(chars[b - 1])
        invariant
            a <= b <= to <= chars@.len(),
            forall|i: int| b <= i < to ==> is_white_space(#[trigger] chars@[i]),
        decreases b,
    {
        b = b - 1;
    }
    proof {
        lemma_drop_trailing(tail, |c: char| is_white_space(c), b - a);
        assert(tail.take(b - a) == chars@.subrange(a as int, b as int));
    }
    (a, b)
}

/// Joins two strings.
pub fn joined(a: &str, b: &str) -> (r: String)
    ensures
        r@ == a@ + b@,
{
    let mut r = a.to_owned();
    r.append(b);
    r
}

proof fn lemma_digits_value_grows(s: Seq<char>, n: int)
    requires
        0 <= n <= s.len(),
    ensures
        digits_value(s.take(n)) <= digits_value(s),
    decreases s.len() - n,
{
    if n == s.len() {
        assert(s.take(n) == s);
    } else {
        assert(s.take(n + 1).drop_last() == s.take(n));
        lemma_digits_value_grows(s, n + 1);
    }
}

/// Reads a count off a header value.
pub fn parse_count(s: &str) -> (r: Option<usize>)
    ensures
        r == count_value(s@),
{
    let chars = chars_of(s);
    let from: usize = if chars.len() > 0 && chars[0] == '+' {
        1
    } else {
        0
    };
    let ghost digits = if s@.len() > 0 && s@.first() == '+' {
        s@.drop_first()
    } else {
        s@
    };
    assert(digits == s@.skip(from as int));
    if from == chars.len() {
        return None;
    }
    let mut value: usize = 0;
    let mut i: usize = from;
    while i < chars.len()
        invariant
            from <= i <= chars@.len(),
            chars@ == s@,
            digits == s@.skip(from as int),
            value == digits_value(digits.take(i - from)),
            forall|j: int| 0 <= j < i - from ==> is_digit(#[trigger] digits[j]),
            count_value(s@) == (if digits.len() > 0 && all_digits(digits) && digits_value(digits)
                <= usize::MAX {
                Some(digits_value(digits) as usize)
            } else {
                None
            }),
        decreases chars@.len() - i,
    {
        let c = chars[i];
        assert(c == digits[i - from]);
        if !('0' <= c && c <= '9') {
            return None;
        }
        let d: usize = (c as u32 - '0' as u32) as usize;
        proof {
            assert(digits.take(i - from + 1).drop_last() == digits.take(i - from));
            lemma_digits_value_grows(digits, i - from + 1);
        }
        match value.checked_mul(10) {
            None => {
                return None;
            },
            Some(shifted) => {
                match shifted.checked_add(d) {
                    None => {
                        return None;
                    },
                    Some(next) => {
                        value = next;
                    },
                }
            },
        }
        i = i + 1;
    }
    assert(digits.take(digits.len() as int) == digits);
    Some(value)
}

/// The character for one decimal digit.
fn digit_text(d: usize) -> (r: &'static str)
    requires
        d < 10,
    ensures
        r@ == seq![digit_char(d as nat)],
{
    proof {
        reveal_strlit("0");
        reveal_strlit("1");
        reveal_strlit("2");
        reveal_strlit("3");
        reveal_strlit("4");
        reveal_strlit("5");
        reveal_strlit("6");
        reveal_strlit("7");
        reveal_strlit("8");
        reveal_strlit("9");
    }
    match d {
        0 => "0",
        1 => "1",
        2 => "2",
        3 => "3",
        4 => "4",
        5 => "5",
        6 => "6",
        7 => "7",
        8 => "8",
        _ => "9",
    }
}

/// Writes a number in decimal.
pub fn decimal(n: usize) -> (r: String)
    ensures
        r@ == decimal_text(n as nat),
    decreases n,
{
    if n < 10 {
        digit_text(n).to_owned()
    } else {
        let mut r = decimal(n / 10);
        r.append(digit_text(n % 10));
        r
    }
}

/// White space is, within ASCII, the space and what lies from tab to carriage
/// return, and beyond it the separators of Unicode; no letter, digit or mark is.
pub proof fn law_white_space(c: char, r: bool)
    requires
        call_ensures(white_space, (c,), r),
    ensures
        (c as u32) < 0x80 ==> (r <==> c == ' ' || 0x09 <= c as u32 <= 0x0D),
        (c as u32) >= 0x80 ==> (r <==> seq![
            0x85u32,
            0xA0,
            0x1680,
            0x2000,
            0x2001,
            0x2002,
            0x2003,
            0x2004,
            0x2005,
            0x2006,
            0x2007,
            0x2008,
            0x2009,
            0x200A,
            0x2028,
            0x2029,
            0x202F,
            0x205F,
            0x3000,
        ].contains(c as u32)),
        r == is_white_space(c),
{
    let all = seq![
        0x85u32,
        0xA0,
        0x1680,
        0x2000,
        0x2001,
        0x2002,
        0x2003,
        0x2004,
        0x2005,
        0x2006,
        0x2007,
        0x2008,
        0x2009,
        0x200A,
        0x2028,
        0x2029,
        0x202F,
        0x205F,
        0x3000,
    ];
    assert(all.len() == 19);
    let u = c as u32;
    if u >= 0x80 && r {
        assert(all[0] == 0x85 && all[1] == 0xA0 && all[2] == 0x1680);
        assert(all[14] == 0x2028 && all[15] == 0x2029 && all[16] == 0x202F);
        assert(all[17] == 0x205F && all[18] == 0x3000);
        if 0x2000 <= u <= 0x200A {
            assert(all[u - 0x2000 + 3] == u);
        }
    }
}

/// What is left without the longest run at the start: the rest of `s`, after
/// characters that all satisfy `p`, and it does not begin with such a one.
proof fn lemma_drop_leading_splits(s: Seq<char>, p: spec_fn(char) -> bool) -> (n: int)
    ensures
        0 <= n <= s.len(),
        drop_leading(s, p) == s.skip(n),
        forall|i: int| 0 <= i < n ==> p(#[trigger] s[i]),
        n < s.len() ==> !p(s[n]),
    decreases s.len(),
{
    if s.len() > 0 && p(s.first()) {
        let rest = s.drop_first();
        let n = lemma_drop_leading_splits(rest, p);
        assert(rest.skip(n) == s.skip(n + 1));
        assert forall|i: int| 0 <= i < n + 1 implies p(#[trigger] s[i]) by {
            if i > 0 {
                assert(rest[i - 1] == s[i]);
            }
        }
        if n < rest.len() {
            assert(rest[n] == s[n + 1]);
        }
        n + 1
    } else {
        assert(s.skip(0) == s);
        0
    }
}

/// What is left without the longest run at the end.
proof fn lemma_drop_trailing_splits(s: Seq<char>, p: spec_fn(char) -> bool) -> (n: int)
    ensures
        0 <= n <= s.len(),
        drop_trailing(s, p) == s.take(n),
        forall|i: int| n <= i < s.len() ==> p(#[trigger] s[i]),
        n > 0 ==> !p(s[n - 1]),
    decreases s.len(),
{
    if s.len() > 0 && p(s.last()) {
        let rest = s.drop_last();
        let n = lemma_drop_trailing_splits(rest, p);
        assert(rest.take(n) == s.take(n));
        assert forall|i: int| n <= i < s.len() implies p(#[trigger] s[i]) by {
            if i < rest.len() {
                assert(rest[i] == s[i]);
            }
        }
        if n > 0 {
            assert(rest[n - 1] == s[n - 1]);
        }
        n
    } else {
        assert(s.take(s.len() as int) == s);
        s.len() as int
    }
}

/// Trimming removes white space only, and all of it, from both ends: what is cut
/// off is white space, and what is left neither begins nor ends with any.
pub proof fn law_trimming_removes_white_space_only(
    chars: &Vec<char>,
    from: usize,
    to: usize,
    r: (usize, usize),
)
    requires
        from <= to <= chars@.len(),
        call_ensures(trim_bounds, (chars, from, to), r),
    ensures
        from <= r.0 <= r.1 <= to,
        ({
            let kept = chars@.subrange(r.0 as int, r.1 as int);
            let whole = chars@.subrange(from as int, to as int);
            exists|a: int, b: int|
                #![trigger whole.subrange(a, b)]
                {
                    &&& 0 <= a <= b <= whole.len()
                    &&& kept == whole.subrange(a, b)
                    &&& forall|i: int| 0 <= i < a ==> is_white_space(#[trigger] whole[i])
                    &&& forall|i: int| b <= i < whole.len() ==> is_white_space(#[trigger] whole[i])
                    &&& a < b ==> !is_white_space(whole[a]) && !is_white_space(whole[b - 1])
                }
        }),
{
    law_trimmed_splits(chars@.subrange(from as int, to as int));
}

/// Trimmed text is the text without white space around it: white space, then
/// the result, then white space, and the result has none at either end.
pub proof fn law_trimmed_splits(s: Seq<char>)
    ensures
        exists|a: int, b: int|
            #![trigger s.subrange(a, b)]
            {
                &&& 0 <= a <= b <= s.len()
                &&& trimmed(s) == s.subrange(a, b)
                &&& forall|i: int| 0 <= i < a ==> is_white_space(#[trigger] s[i])
                &&& forall|i: int| b <= i < s.len() ==> is_white_space(#[trigger] s[i])
                &&& a < b ==> !is_white_space(s[a]) && !is_white_space(s[b - 1])
            },
{
    let p = |c: char| is_white_space(c);
    let a = lemma_drop_leading_splits(s, p);
    let tail = s.skip(a);
    let n = lemma_drop_trailing_splits(tail, p);
    let b = a + n;
    assert(tail.take(n) == s.subrange(a, b));
    assert forall|i: int| 0 <= i < a implies is_white_space(#[trigger] s[i]) by {
        assert(p(s[i]));
    }
    assert forall|i: int| b <= i < s.len() implies is_white_space(#[trigger] s[i]) by {
        assert(p(tail[i - a]));
        assert(tail[i - a] == s[i]);
    }
    if a < b {
        assert(!p(s[a]));
        assert(!p(tail[n - 1]));
        assert(tail[n - 1] == s[b - 1]);
    }
}

/// White space around a text makes no difference to what it is without it, and a
/// text without white space at its ends comes out as it is.
pub proof fn law_trimming_undoes_padding(left: Seq<char>, inner: Seq<char>, right: Seq<char>)
    requires
        forall|i: int| 0 <= i < left.len() ==> is_white_space(#[trigger] left[i]),
        forall|i: int| 0 <= i < right.len() ==> is_white_space(#[trigger] right[i]),
        inner.len() > 0 ==> !is_white_space(inner.first()) && !is_white_space(inner.last()),
    ensures
        trimmed(left + inner + right) == inner,
        trimmed(inner) == inner,
{
    let s = left + inner + right;
    lemma_unpadded(left, inner, right);
    lemma_unpadded(Seq::empty(), inner, Seq::empty());
    assert(Seq::<char>::empty() + inner + Seq::<char>::empty() == inner);
}

proof fn lemma_unpadded(left: Seq<char>, inner: Seq<char>, right: Seq<char>)
    requires
        forall|i: int| 0 <= i < left.len() ==> is_white_space(#[trigger] left[i]),
        forall|i: int| 0 <= i < right.len() ==> is_white_space(#[trigger] right[i]),
        inner.len() > 0 ==> !is_white_space(inner.first()) && !is_white_space(inner.last()),
    ensures
        trimmed(left + inner + right) == inner,
{
    let s = left + inner + right;
    law_trimmed_splits(s);
    let (a, b) = choose|a: int, b: int|
        #![trigger s.subrange(a, b)]
        {
            &&& 0 <= a <= b <= s.len()
            &&& trimmed(s) == s.subrange(a, b)
            &&& forall|i: int| 0 <= i < a ==> is_white_space(#[trigger] s[i])
            &&& forall|i: int| b <= i < s.len() ==> is_white_space(#[trigger] s[i])
            &&& a < b ==> !is_white_space(s[a]) && !is_white_space(s[b - 1])
        };
    let x = left.len() as int;
    let y = x + inner.len();
    assert forall|i: int| 0 <= i < x implies is_white_space(#[trigger] s[i]) by {
        assert(s[i] == left[i]);
    }
    assert forall|i: int| y <= i < s.len() implies is_white_space(#[trigger] s[i]) by {
        assert(s[i] == right[i - y]);
    }
    if x < y {
        assert(s[x] == inner.first());
        assert(s[y - 1] == inner.last());
        assert(a == x);
        assert(b == y);
        assert(s.subrange(x, y) == inner);
    } else {
        assert(a >= b);
        assert(s.subrange(a, b) == inner);
    }
}

/// Leading slashes go, all of them and nothing else.
pub proof fn law_leading_slashes_go(s: &str, r: &str, slashes: Seq<char>, rest: Seq<char>)
    requires
        call_ensures(trim_leading_slashes, (s,), r),
        s@ == slashes + rest,
        forall|i: int| 0 <= i < slashes.len() ==> #[trigger] slashes[i] == '/',
        rest.len() > 0 ==> rest[0] != '/',
    ensures
        r@ == rest,
{
    lemma_without_leading_slashes(s@, slashes, rest);
}

/// Trailing slashes go, all of them and nothing else.
pub proof fn law_trailing_slashes_go(s: &str, r: &str, rest: Seq<char>, slashes: Seq<char>)
    requires
        call_ensures(trim_trailing_slashes, (s,), r),
        s@ == rest + slashes,
        forall|i: int| 0 <= i < slashes.len() ==> #[trigger] slashes[i] == '/',
        rest.len() > 0 ==> rest.last() != '/',
    ensures
        r@ == rest,
{
    lemma_without_trailing_slashes(s@, rest, slashes);
}

pub proof fn lemma_without_trailing_slashes(s: Seq<char>, rest: Seq<char>, slashes: Seq<char>)
    requires
        s == rest + slashes,
        forall|i: int| 0 <= i < slashes.len() ==> #[trigger] slashes[i] == '/',
        rest.len() > 0 ==> rest.last() != '/',
    ensures
        without_trailing_slashes(s) == rest,
{
    let p = |c: char| is_slash(c);
    let n = lemma_drop_trailing_splits(s, p);
    let k = rest.len() as int;
    if n > k {
        assert(s[n - 1] == slashes[n - 1 - k]);
        assert(p(s[n - 1]));
    }
    if n < k {
        assert(p(s[k - 1]));
        assert(s[k - 1] == rest.last());
    }
    assert(s.take(k) == rest);
}

pub proof fn lemma_without_leading_slashes(s: Seq<char>, slashes: Seq<char>, rest: Seq<char>)
    requires
        s == slashes + rest,
        forall|i: int| 0 <= i < slashes.len() ==> #[trigger] slashes[i] == '/',
        rest.len() > 0 ==> rest[0] != '/',
    ensures
        without_leading_slashes(s) == rest,
{
    let p = |c: char| is_slash(c);
    let n = lemma_drop_leading_splits(s, p);
    let k = slashes.len() as int;
    if n < k {
        assert(s[n] == slashes[n]);
        assert(p(s[n]));
    }
    if n > k {
        assert(p(s[k]));
        assert(s[k] == rest[0]);
    }
    assert(s.skip(k) == rest);
}

/// A text begins with another exactly if it is that other and something more,
/// ends with it exactly if it is something and then that other, and is the same
/// exactly if it has the same characters at the same places.
pub proof fn law_text_tests(s: &str, part: &str, begins: bool, ends: bool, same: bool)
    requires
        call_ensures(starts_with, (s, part), begins),
        call_ensures(ends_with, (s, part), ends),
        call_ensures(same_text, (s, part), same),
    ensures
        begins <==> exists|rest: Seq<char>| s@ == #[trigger] (part@ + rest),
        ends <==> exists|rest: Seq<char>| s@ == #[trigger] (rest + part@),
        same <==> s@.len() == part@.len() && forall|i: int|
            0 <= i < s@.len() ==> s@[i] == part@[i],
{
    if begins {
        assert(s@ == part@ + s@.skip(part@.len() as int));
    }
    if exists|rest: Seq<char>| s@ == #[trigger] (part@ + rest) {
        assert(s@.subrange(0, part@.len() as int) == part@);
    }
    let k = s@.len() - part@.len();
    if ends {
        assert(s@ == s@.take(k) + part@);
    }
    if exists|rest: Seq<char>| s@ == #[trigger] (rest + part@) {
        let rest = choose|rest: Seq<char>| s@ == #[trigger] (rest + part@);
        assert(rest.len() == k);
        assert(s@.subrange(k, s@.len() as int) == part@);
    }
    if s@.len() == part@.len() && forall|i: int| 0 <= i < s@.len() ==> s@[i] == part@[i] {
        assert(s@ == part@);
    }
}

/// Joining two texts gives both, the first in front.
pub proof fn law_joined_holds_both(a: &str, b: &str, r: String)
    requires
        call_ensures(joined, (a, b), r),
    ensures
        r@.len() == a@.len() + b@.len(),
        forall|i: int| 0 <= i < a@.len() ==> #[trigger] r@[i] == a@[i],
        forall|i: int| 0 <= i < b@.len() ==> r@[a@.len() + i] == #[trigger] b@[i],
{
}

/// What a run of digits spells, by the weight of each place: the first counts
/// for ten to the number of digits behind it.
pub open spec fn place_value(s: Seq<char>) -> int
    decreases s.len(),
{
    if s.len() == 0 {
        0
    } else {
        (s[0] as int - 48) * pow(10, (s.len() - 1) as nat) + place_value(s.drop_first())
    }
}

/// One more digit at the end moves all others up a place.
proof fn lemma_place_value_push(s: Seq<char>, c: char)
    ensures
        place_value(s.push(c)) == place_value(s) * 10 + (c as int - 48),
    decreases s.len(),
{
    let all = s.push(c);
    if s.len() == 0 {
        lemma_pow0(10);
        assert(all.drop_first().len() == 0);
        assert(place_value(all.drop_first()) == 0);
        assert(place_value(s) == 0);
        assert(all[0] == c);
        assert((c as int - 48) * 1 == c as int - 48);
    } else {
        let rest = s.drop_first();
        assert(all.drop_first() == rest.push(c));
        lemma_place_value_push(rest, c);
        let d = s[0] as int - 48;
        let w = pow(10, (s.len() - 1) as nat);
        lemma_pow_adds(10, (s.len() - 1) as nat, 1);
        lemma_pow1(10);
        assert(pow(10, s.len()) == w * 10);
        assert(d * (w * 10) == (d * w) * 10) by (nonlinear_arith);
        assert(all[0] == s[0]);
    }
}

proof fn lemma_digits_value_is_place_value(s: Seq<char>)
    requires
        forall|i: int| 0 <= i < s.len() ==> '0' <= #[trigger] s[i] <= '9',
    ensures
        digits_value(s) == place_value(s),
    decreases s.len(),
{
    if s.len() > 0 {
        let rest = s.drop_last();
        assert(rest.push(s.last()) == s);
        assert('0' <= s[s.len() - 1] <= '9');
        assert forall|i: int| 0 <= i < rest.len() implies '0' <= #[trigger] rest[i] <= '9' by {
            assert(rest[i] == s[i]);
        }
        lemma_digits_value_is_place_value(rest);
        lemma_place_value_push(rest, s.last());
    }
}

/// A count is read exactly where there are digits, at least one and nothing but
/// digits after at most one plus sign, and what they spell can be addressed; and
/// then it is what they spell.
pub proof fn law_count_is_what_the_digits_spell(s: &str, r: Option<usize>, digits: Seq<char>)
    requires
        call_ensures(parse_count, (s,), r),
        s@ == digits && (digits.len() > 0 ==> digits[0] != '+') || s@ == seq!['+'] + digits,
    ensures
        r is Some <==> {
            &&& digits.len() > 0
            &&& forall|i: int| 0 <= i < digits.len() ==> '0' <= #[trigger] digits[i] <= '9'
            &&& place_value(digits) <= usize::MAX
        },
        r matches Some(n) ==> n == place_value(digits),
{
    law_count_value_is_what_the_digits_spell(s@, digits);
}

/// The same of the count that a header value spells.
pub proof fn law_count_value_is_what_the_digits_spell(s: Seq<char>, digits: Seq<char>)
    requires
        s == digits && (digits.len() > 0 ==> digits[0] != '+') || s == seq!['+'] + digits,
    ensures
        count_value(s) is Some <==> {
            &&& digits.len() > 0
            &&& forall|i: int| 0 <= i < digits.len() ==> '0' <= #[trigger] digits[i] <= '9'
            &&& place_value(digits) <= usize::MAX
        },
        count_value(s) matches Some(n) ==> n == place_value(digits),
{
    if s == seq!['+'] + digits {
        assert(s.drop_first() == digits);
    }
    if forall|i: int| 0 <= i < digits.len() ==> '0' <= #[trigger] digits[i] <= '9' {
        lemma_digits_value_is_place_value(digits);
        assert(all_digits(digits));
    } else {
        let i = choose|i: int| 0 <= i < digits.len() && !('0' <= #[trigger] digits[i] <= '9');
        assert(!is_digit(digits[i]));
    }
}

/// A number in decimal: digits only, the first not a zero unless it is alone,
/// and they spell the number.
pub proof fn law_decimal_spells_the_number(n: usize, r: String)
    requires
        call_ensures(decimal, (n,), r),
    ensures
        r@.len() > 0,
        forall|i: int| 0 <= i < r@.len() ==> '0' <= #[trigger] r@[i] <= '9',
        r@.len() > 1 ==> r@[0] != '0',
        place_value(r@) == n,
{
    law_decimal_text_spells_the_number(n as nat);
}

/// The same of the text itself.
pub proof fn law_decimal_text_spells_the_number(n: nat)
    ensures
        decimal_text(n).len() > 0,
        forall|i: int| 0 <= i < decimal_text(n).len() ==> '0' <= #[trigger] decimal_text(n)[i] <= '9',
        decimal_text(n).len() > 1 ==> decimal_text(n)[0] != '0',
        n > 0 ==> decimal_text(n)[0] != '0',
        place_value(decimal_text(n)) == n,
    decreases n,
{
    let text = decimal_text(n);
    if n < 10 {
        lemma_place_value_push(Seq::empty(), digit_char(n));
        assert(Seq::<char>::empty().push(digit_char(n)) == text);
        assert(place_value(Seq::<char>::empty()) == 0);
    } else {
        let front = decimal_text(n / 10);
        law_decimal_text_spells_the_number(n / 10);
        lemma_place_value_push(front, digit_char(n % 10));
        assert(text[0] == front[0]);
        assert forall|i: int| 0 <= i < text.len() implies '0' <= #[trigger] text[i] <= '9' by {
            if i < front.len() {
                assert(text[i] == front[i]);
            }
        }
    }
}

} // verus!
