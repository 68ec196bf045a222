//! The one thing read off a narinfo body: the NAR path in its `URL:` field.
use crate::text::{
    chars_of, has_at, is_white_space, law_trimming_undoes_padding, trim_bounds, trimmed,
};
use vstd::prelude::*;
use vstd::string::*;
use vstd::utf8::*;

verus! {

/// The lines of a text. A line feed ends a line; a carriage return before it
/// stays with the line, where trimming removes it like any white space.
pub open spec fn lines(text: Seq<char>) -> Seq<Seq<char>>
    decreases text.len(),
{
    if text.len() == 0 {
        seq![Seq::empty()]
    } else {
        let before = lines(text.drop_last());
        if text.last() == '\n' {
            before.push(Seq::empty())
        } else {
            before.drop_last().push(before.last().push(text.last()))
        }
    }
}

pub open spec fn is_url_line(line: Seq<char>) -> bool {
    "URL:"@.is_prefix_of(line)
}

/// The value of the first `URL:` line among `ls`, without white space around
/// it.
pub open spec fn first_url(ls: Seq<Seq<char>>) -> Option<Seq<char>>
    decreases ls.len(),
{
    if ls.len() == 0 {
        None
    } else if is_url_line(ls.first()) {
        Some(trimmed(ls.first().skip("URL:"@.len() as int)))
    } else {
        first_url(ls.drop_first())
    }
}

/// The NAR path that a narinfo body names, if the body is text and has one.
pub open spec fn named_nar(body: Seq<u8>) -> Option<Seq<char>> {
    if valid_utf8(body) {
        first_url(lines(decode_utf8(body)))
    } else {
        None
    }
}

/// `std::str::from_utf8`: text exactly when the bytes are valid UTF-8, and
/// then the characters that they encode.
#[verifier::external_body]
fn text_of(body: &[u8]) -> (r: Option<&str>)
    ensures
        r is Some <==> valid_utf8(body@),
        r matches Some(text) ==> text@ == decode_utf8(body@),
{
    std::str::from_utf8(body).ok()
}

proof fn lemma_lines_not_empty(text: Seq<char>)
    ensures
        lines(text).len() > 0,
{
    if text.len() > 0 {
        assert(lines(text).len() > 0);
    }
}

/// Lines without a `URL:` line add nothing in front.
proof fn lemma_first_url_after(front: Seq<Seq<char>>, back: Seq<Seq<char>>)
    requires
        forall|i: int| 0 <= i < front.len() ==> !is_url_line(#[trigger] front[i]),
    ensures
        first_url(front + back) == first_url(back),
    decreases front.len(),
{
    if front.len() == 0 {
        assert(front + back == back);
    } else {
        assert((front + back).drop_first() == front.drop_first() + back);
        assert(!is_url_line(front[0]));
        assert forall|i: int| 0 <= i < front.drop_first().len() implies !is_url_line(
            #[trigger] front.drop_first()[i],
        ) by {
            assert(front.drop_first()[i] == front[i + 1]);
        }
        lemma_first_url_after(front.drop_first(), back);
    }
}

/// A line feed separates: the lines of what stands before it come first, then
/// those of what follows.
proof fn lemma_lines_split(a: Seq<char>, b: Seq<char>)
    ensures
        lines(a.push('\n') + b) == lines(a) + lines(b),
    decreases b.len(),
{
    let whole = a.push('\n') + b;
    if b.len() == 0 {
        assert(whole == a.push('\n'));
        assert(whole.drop_last() == a);
        assert(lines(whole) == lines(a) + lines(b));
    } else {
        assert(whole.drop_last() == a.push('\n') + b.drop_last());
        lemma_lines_split(a, b.drop_last());
        lemma_lines_not_empty(b.drop_last());
        let before = lines(b.drop_last());
        assert(lines(whole.drop_last()).drop_last() == lines(a) + before.drop_last());
        assert(lines(whole) == lines(a) + lines(b));
    }
}

/// A text without a line feed is one line.
proof fn lemma_one_line(text: Seq<char>)
    requires
        !text.contains('\n'),
    ensures
        lines(text) == seq![text],
    decreases text.len(),
{
    if text.len() > 0 {
        let rest = text.drop_last();
        assert(text.last() != '\n') by {
            assert(text.contains(text[text.len() - 1]));
        }
        assert(!rest.contains('\n')) by {
            if rest.contains('\n') {
                let i = choose|i: int| 0 <= i < rest.len() && rest[i] == '\n';
                assert(text[i] == '\n');
            }
        }
        lemma_one_line(rest);
        assert(rest.push(text.last()) == text);
        assert(lines(text) == seq![text]);
    } else {
        assert(text == Seq::<char>::empty());
        assert(lines(text) == seq![text]);
    }
}

/// The value of one line if it is a `URL:` line.
fn url_on_line(text: &str, chars: &Vec<char>, start: usize, end: usize) -> (r: Option<String>)
    requires
        chars@ == text@,
        start <= end <= chars@.len(),
    ensures
        r is Some <==> is_url_line(text@.subrange(start as int, end as int)),
        r matches Some(value) ==> value@ == trimmed(
            text@.subrange(start as int, end as int).skip("URL:"@.len() as int),
        ),
{
    let tag = chars_of("URL:");
    proof {
        reveal_strlit("URL:");
    }
    let ghost line = text@.subrange(start as int, end as int);
    if end - start < tag.len() {
        return None;
    }
    assert(line.subrange(0, 4) == text@.subrange(start as int, start + 4));
    if !has_at(chars, start, &tag) {
        return None;
    }
    let (a, b) = trim_bounds(chars, start + tag.len(), end);
    assert(line.skip(4) == text@.subrange(start + 4, end as int));
    Some(text.substring_char(a, b).to_owned())
}

/// Extracts the `URL:` field, the NAR path a client will fetch next, from a
/// narinfo body.
pub fn narinfo_url_field(body: &[u8]) -> (r: Option<String>)
    ensures
        r is Some <==> named_nar(body@) is Some,
        r matches Some(path) ==> named_nar(body@) == Some(path@),
{
    let text = match text_of(body) {
        None => {
            return None;
        },
        Some(text) => text,
    };
    let chars = chars_of(text);
    let ghost mut done: Seq<Seq<char>> = Seq::empty();
    let mut start: usize = 0;
    let mut i: usize = 0;
    proof {
        assert(text@.take(0) == Seq::<char>::empty());
        assert(lines(text@.take(0)) == done.push(text@.subrange(0, 0)));
    }
    while i < chars.len()
        invariant
            start <= i <= chars@.len(),
            chars@ == text@,
            text@ == decode_utf8(body@),
            valid_utf8(body@),
            lines(text@.take(i as int)) == done.push(text@.subrange(start as int, i as int)),
            forall|j: int| 0 <= j < done.len() ==> !is_url_line(#[trigger] done[j]),
        decreases chars@.len() - i,
    {
        let ghost line = text@.subrange(start as int, i as int);
        let ghost head = text@.take(i as int);
        assert(text@.take(i + 1).drop_last() == head);
        if chars[i] == '\n' {
            let found = url_on_line(text, &chars, start, i);
            if found.is_some() {
                proof {
                    let rest = text@.skip(i + 1);
                    assert(text@ == head.push('\n') + rest);
                    lemma_lines_split(head, rest);
                    let back = seq![line] + lines(rest);
                    assert(lines(text@) == done + back);
                    lemma_first_url_after(done, back);
                    assert(back.first() == line);
                }
                return found;
            }
            proof {
                done = done.push(line);
                assert(text@.subrange(i + 1, i + 1) == Seq::<char>::empty());
            }
            start = i + 1;
        } else {
            assert(text@.subrange(start as int, i + 1) == line.push(chars@[i as int]));
            assert(done.push(line).drop_last() == done);
        }
        i = i + 1;
    }
    proof {
        assert(text@.take(i as int) == text@);
        let line = text@.subrange(start as int, i as int);
        assert(done.push(line) == done + seq![line]);
        lemma_first_url_after(done, seq![line]);
        assert(seq![line].drop_first() == Seq::<Seq<char>>::empty());
        reveal_with_fuel(first_url, 2);
    }
    url_on_line(text, &chars, start, i)
}

/// A `URL:` line is found wherever it stands (in front, in the middle, at the
/// end with or without a line feed), if no `URL:` line stands before it, and
/// its value comes out without the white space around it.
pub proof fn law_url_line_is_found(before: Seq<char>, value: Seq<char>, after: Seq<char>)
    requires
        first_url(lines(before)) is None,
        !value.contains('\n'),
    ensures
        first_url(lines("URL:"@ + value)) == Some(trimmed(value)),
        first_url(lines(("URL:"@ + value).push('\n') + after)) == Some(trimmed(value)),
        first_url(lines(before.push('\n') + ("URL:"@ + value))) == Some(trimmed(value)),
        first_url(lines(before.push('\n') + (("URL:"@ + value).push('\n') + after))) == Some(
            trimmed(value),
        ),
{
    reveal_strlit("URL:");
    let line = "URL:"@ + value;
    let tail = line.push('\n') + after;
    lemma_lines_split(before, line);
    lemma_lines_split(before, tail);
    lemma_lines_split(line, after);
    assert(!line.contains('\n')) by {
        if line.contains('\n') {
            let i = choose|i: int| 0 <= i < line.len() && line[i] == '\n';
            assert(value[i - 4] == '\n');
        }
    }
    lemma_one_line(line);
    lemma_first_url_none(lines(before));
    lemma_first_url_after(lines(before), lines(tail));
    lemma_first_url_after(lines(before), lines(line));
    assert(lines(tail).first() == line);
    assert(lines(line).first() == line);
    assert(line.subrange(0, 4) == "URL:"@);
    assert(line.skip(4) == value);
}

proof fn lemma_first_url_none(ls: Seq<Seq<char>>)
    requires
        first_url(ls) is None,
    ensures
        forall|i: int| 0 <= i < ls.len() ==> !is_url_line(#[trigger] ls[i]),
    decreases ls.len(),
{
    if ls.len() > 0 {
        lemma_first_url_none(ls.drop_first());
        assert forall|i: int| 0 <= i < ls.len() implies !is_url_line(#[trigger] ls[i]) by {
            if i > 0 {
                assert(ls.drop_first()[i - 1] == ls[i]);
            }
        }
    }
}

/// Whether a line of `text` begins with `URL:` at position `i`.
pub open spec fn url_line_at(text: Seq<char>, i: int) -> bool {
    &&& 0 <= i
    &&& i + 4 <= text.len()
    &&& i == 0 || text[i - 1] == '\n'
    &&& text[i] == 'U'
    &&& text[i + 1] == 'R'
    &&& text[i + 2] == 'L'
    &&& text[i + 3] == ':'
}

proof fn lemma_is_url_line(line: Seq<char>)
    ensures
        is_url_line(line) <==> url_line_at(line, 0),
{
    reveal_strlit("URL:");
    if url_line_at(line, 0) {
        assert(line.subrange(0, 4) == "URL:"@);
    }
    if is_url_line(line) {
        let tag = "URL:"@;
        assert(line.subrange(0, 4) == tag);
        assert(line[0] == line.subrange(0, 4)[0]);
        assert(line[1] == line.subrange(0, 4)[1]);
        assert(line[2] == line.subrange(0, 4)[2]);
        assert(line[3] == line.subrange(0, 4)[3]);
    }
}

/// Where the last line of a text begins.
proof fn lemma_last_line(text: Seq<char>) -> (n: int)
    ensures
        0 <= n <= text.len(),
        n == 0 || text[n - 1] == '\n',
        forall|i: int| n <= i < text.len() ==> #[trigger] text[i] != '\n',
    decreases text.len(),
{
    if text.len() == 0 || text.last() == '\n' {
        text.len() as int
    } else {
        let rest = text.drop_last();
        let n = lemma_last_line(rest);
        if n > 0 {
            assert(rest[n - 1] == text[n - 1]);
        }
        assert forall|i: int| n <= i < text.len() implies #[trigger] text[i] != '\n' by {
            if i < rest.len() {
                assert(rest[i] == text[i]);
            }
        }
        n
    }
}

/// A text has a `URL:` line exactly if one begins somewhere in it.
proof fn lemma_url_lines(text: Seq<char>)
    ensures
        first_url(lines(text)) is None <==> forall|i: int| !#[trigger] url_line_at(text, i),
    decreases text.len(),
{
    let n = lemma_last_line(text);
    let line = text.skip(n);
    assert(!line.contains('\n')) by {
        if line.contains('\n') {
            let i = choose|i: int| 0 <= i < line.len() && line[i] == '\n';
            assert(text[i + n] == '\n');
        }
    }
    lemma_one_line(line);
    lemma_is_url_line(line);
    assert(url_line_at(line, 0) <==> url_line_at(text, n)) by {
        if line.len() >= 4 {
            assert(line[0] == text[n] && line[1] == text[n + 1] && line[2] == text[n + 2] && line[3]
                == text[n + 3]);
        }
    }
    reveal_with_fuel(first_url, 2);
    let one = seq![line];
    assert(one.first() == line);
    assert(one.drop_first() == Seq::<Seq<char>>::empty());
    if n == 0 {
        assert(line == text);
        assert forall|i: int| #[trigger] url_line_at(text, i) implies i == 0 by {
            if i > 0 {
                assert(text[i - 1] != '\n');
            }
        }
        if url_line_at(text, 0) {
            assert(first_url(lines(text)) is Some);
        }
    } else {
        let head = text.take(n - 1);
        assert(text == head.push('\n') + line);
        lemma_lines_split(head, line);
        lemma_url_lines(head);
        let front = lines(head);
        assert forall|i: int| i < n implies (#[trigger] url_line_at(text, i) <==> url_line_at(
            head,
            i,
        )) by {
            if url_line_at(text, i) {
                assert(i + 4 <= n - 1) by {
                    if i + 4 > n - 1 {
                        let k = n - 1 - i;
                        assert(0 <= k <= 3);
                        assert(text[i + k] == '\n');
                    }
                }
                if i > 0 {
                    assert(head[i - 1] == text[i - 1]);
                }
                assert(head[i] == text[i] && head[i + 1] == text[i + 1] && head[i + 2] == text[i + 2]
                    && head[i + 3] == text[i + 3]);
            }
            if url_line_at(head, i) {
                if i > 0 {
                    assert(head[i - 1] == text[i - 1]);
                }
                assert(head[i] == text[i] && head[i + 1] == text[i + 1] && head[i + 2] == text[i + 2]
                    && head[i + 3] == text[i + 3]);
            }
        }
        assert forall|i: int| i > n implies !#[trigger] url_line_at(text, i) by {
            if url_line_at(text, i) {
                assert(text[i - 1] != '\n');
            }
        }
        if first_url(front) is None {
            lemma_first_url_none(front);
            lemma_first_url_after(front, one);
            assert forall|i: int| i < n implies !#[trigger] url_line_at(text, i) by {
                assert(!url_line_at(head, i));
            }
        } else {
            lemma_first_url_kept(front, one);
            let i = choose|i: int| url_line_at(head, i);
            assert(i < n);
            assert(url_line_at(text, i));
        }
    }
}

/// Lines that follow a `URL:` line make no difference.
proof fn lemma_first_url_kept(front: Seq<Seq<char>>, back: Seq<Seq<char>>)
    requires
        first_url(front) is Some,
    ensures
        first_url(front + back) == first_url(front),
    decreases front.len(),
{
    assert((front + back).first() == front.first());
    assert((front + back).drop_first() == front.drop_first() + back);
    if !is_url_line(front.first()) {
        lemma_first_url_kept(front.drop_first(), back);
    }
}

/// A narinfo names no NAR exactly if it is not text or no line of it begins with
/// `URL:`.
pub proof fn law_no_url_field(body: &[u8], r: Option<String>)
    requires
        call_ensures(narinfo_url_field, (body,), r),
    ensures
        r is None <==> !valid_utf8(body@) || forall|i: int|
            !#[trigger] url_line_at(decode_utf8(body@), i),
{
    lemma_url_lines(decode_utf8(body@));
}

/// The NAR path that a narinfo names is all that its first `URL:` line holds
/// behind the tag, without the white space around it: nothing more is cut off,
/// and what other lines hold makes no difference.
pub proof fn law_url_field_is_the_whole_path(
    body: &[u8],
    r: Option<String>,
    before: Seq<char>,
    left: Seq<char>,
    path: Seq<char>,
    right: Seq<char>,
    after: Seq<char>,
)
    requires
        call_ensures(narinfo_url_field, (body,), r),
        valid_utf8(body@),
        decode_utf8(body@) == before + (seq!['U', 'R', 'L', ':'] + (left + path + right)) + after,
        before.len() > 0 ==> before.last() == '\n',
        forall|i: int| i < before.len() ==> !#[trigger] url_line_at(decode_utf8(body@), i),
        after.len() > 0 ==> after[0] == '\n',
        !(left + path + right).contains('\n'),
        forall|i: int| 0 <= i < left.len() ==> is_white_space(#[trigger] left[i]),
        forall|i: int| 0 <= i < right.len() ==> is_white_space(#[trigger] right[i]),
        path.len() > 0 ==> !is_white_space(path.first()) && !is_white_space(path.last()),
    ensures
        r is Some,
        r->0@ == path,
{
    law_named_nar_is_the_whole_path(body@, before, left, path, right, after);
}

/// The same of the path that a body names.
pub proof fn law_named_nar_is_the_whole_path(
    body: Seq<u8>,
    before: Seq<char>,
    left: Seq<char>,
    path: Seq<char>,
    right: Seq<char>,
    after: Seq<char>,
)
    requires
        valid_utf8(body),
        decode_utf8(body) == before + (seq!['U', 'R', 'L', ':'] + (left + path + right)) + after,
        before.len() > 0 ==> before.last() == '\n',
        forall|i: int| i < before.len() ==> !#[trigger] url_line_at(decode_utf8(body), i),
        after.len() > 0 ==> after[0] == '\n',
        !(left + path + right).contains('\n'),
        forall|i: int| 0 <= i < left.len() ==> is_white_space(#[trigger] left[i]),
        forall|i: int| 0 <= i < right.len() ==> is_white_space(#[trigger] right[i]),
        path.len() > 0 ==> !is_white_space(path.first()) && !is_white_space(path.last()),
    ensures
        named_nar(body) == Some(path),
{
    let text = decode_utf8(body);
    let value = left + path + right;
    let tag = seq!['U', 'R', 'L', ':'];
    reveal_strlit("URL:");
    assert("URL:"@ == tag);
    law_trimming_undoes_padding(left, path, right);
    let line = tag + value;
    let rest = if after.len() > 0 {
        after.drop_first()
    } else {
        after
    };
    let tail = line.push('\n') + rest;
    if before.len() == 0 {
        lemma_url_lines(Seq::empty());
        law_url_line_is_found(Seq::empty(), value, rest);
        if after.len() == 0 {
            assert(text == line);
        } else {
            assert(text == tail);
        }
    } else {
        let head = before.drop_last();
        assert forall|i: int| !#[trigger] url_line_at(head, i) by {
            if url_line_at(head, i) {
                assert(head[i] == text[i] && head[i + 1] == text[i + 1] && head[i + 2] == text[i + 2]
                    && head[i + 3] == text[i + 3]);
                if i > 0 {
                    assert(head[i - 1] == text[i - 1]);
                }
                assert(url_line_at(text, i));
            }
        }
        lemma_url_lines(head);
        law_url_line_is_found(head, value, rest);
        assert(before == head.push('\n'));
        if after.len() == 0 {
            assert(text == head.push('\n') + line);
        } else {
            assert(text == head.push('\n') + tail);
        }
    }
}

} // verus!
