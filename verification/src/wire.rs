//! The framing of messages: one line of text for each.
use vstd::prelude::*;
use vstd::string::{StrSliceExecFns, StringExecFns};

verus! {

/// Whether `c` has the Unicode property `White_Space`.
pub open spec fn white_space(c: char) -> bool {
    ||| '\u{9}' <= c <= '\u{d}'
    ||| c == '\u{20}'
    ||| c == '\u{85}'
    ||| c == '\u{a0}'
    ||| c == '\u{1680}'
    ||| '\u{2000}' <= c <= '\u{200a}'
    ||| c == '\u{2028}'
    ||| c == '\u{2029}'
    ||| c == '\u{202f}'
    ||| c == '\u{205f}'
    ||| c == '\u{3000}'
}

/// `s` from its first character on that is no white space.
pub open spec fn without_leading(s: Seq<char>) -> Seq<char>
    decreases s.len(),
{
    if s.len() > 0 && white_space(s[0]) {
        without_leading(s.drop_first())
    } else {
        s
    }
}

/// `s` up to its last character that is no white space.
pub open spec fn without_trailing(s: Seq<char>) -> Seq<char>
    decreases s.len(),
{
    if s.len() > 0 && white_space(s.last()) {
        without_trailing(s.drop_last())
    } else {
        s
    }
}

/// `s` without the white space around it.
pub open spec fn trimmed(s: Seq<char>) -> Seq<char> {
    without_trailing(without_leading(s))
}

/// The line that carries `text`.
pub open spec fn framed(text: Seq<char>) -> Seq<char> {
    text.push('\n')
}

/// The text that `line` carries, if it is not blank.
pub open spec fn carried(line: Seq<char>) -> Option<Seq<char>> {
    if trimmed(line).len() == 0 {
        None
    } else {
        Some(trimmed(line))
    }
}

/// A stream to which the lines of the texts were written, one after the other.
pub open spec fn written(texts: Seq<Seq<char>>) -> Seq<char>
    decreases texts.len(),
{
    if texts.len() == 0 {
        seq![]
    } else {
        framed(texts[0]) + written(texts.drop_first())
    }
}

/// The first line of a stream, with its line break; what is left where there is none.
pub open spec fn first_line(stream: Seq<char>) -> Seq<char>
    decreases stream.len(),
{
    if stream.len() == 0 {
        seq![]
    } else if stream[0] == '\n' {
        seq!['\n']
    } else {
        seq![stream[0]] + first_line(stream.drop_first())
    }
}

/// What `count` reads of a line each get from the stream, in turn.
pub open spec fn received(stream: Seq<char>, count: nat) -> Seq<Option<Seq<char>>>
    decreases count,
{
    if count == 0 {
        seq![]
    } else {
        let line = first_line(stream);
        seq![carried(line)] + received(stream.skip(line.len() as int), (count - 1) as nat)
    }
}

/// Whether `text` can be sent as it is: it holds no line break, and neither begins nor ends
/// with white space.
pub open spec fn one_line(text: Seq<char>) -> bool {
    &&& text.len() > 0
    &&& !text.contains('\n')
    &&& !white_space(text[0])
    &&& !white_space(text.last())
}

/// Whether `c` is white space.
pub fn is_white_space(c: char) -> (r: bool)
    ensures
        r == white_space(c),
{
    ('\u{9}' <= c && c <= '\u{d}') || c == '\u{20}' || c == '\u{85}' || c == '\u{a0}' || c
        == '\u{1680}' || ('\u{2000}' <= c && c <= '\u{200a}') || c == '\u{2028}' || c == '\u{2029}'
        || c == '\u{202f}' || c == '\u{205f}' || c == '\u{3000}'
}

/// `line` without the white space around it.
pub fn trim_line(line: &str) -> (r: &str)
    ensures
        r@ == trimmed(line@),
{
    let len: usize = line.unicode_len();
    let mut from: usize = 0;
    assert(line@.skip(0) =~= line@);
    while from < len && is_white_space(line.get_char(from))
        invariant
            from <= len,
            len == line@.len(),
            without_leading(line@) == without_leading(line@.skip(from as int)),
        ensures
            from <= len,
            len == line@.len(),
            without_leading(line@) == line@.skip(from as int),
        decreases len - from,
    {
        assert(line@.skip(from as int).drop_first() =~= line@.skip(from + 1));
        from = from + 1;
    }
    let mut to: usize = len;
    assert(line@.subrange(from as int, len as int) =~= line@.skip(from as int));
    while to > from && is_white_space(line.get_char(to - 1))
        invariant
            from <= to <= len,
            len == line@.len(),
            trimmed(line@) == without_trailing(line@.subrange(from as int, to as int)),
        ensures
            from <= to <= len,
            trimmed(line@) == line@.subrange(from as int, to as int),
        decreases to,
    {
        assert(line@.subrange(from as int, to as int).drop_last() =~= line@.subrange(
            from as int,
            to - 1,
        ));
        to = to - 1;
    }
    line.substring_char(from, to)
}

/// The line that carries `text`.
pub fn frame(text: String) -> (line: String)
    ensures
        line@ == text@.push('\n'),
        line@ == framed(text@),
{
    proof {
        reveal_strlit("\n");
    }
    let line = text.concat("\n");
    assert(line@ =~= text@.push('\n'));
    line
}

/// The text that a line carries which was read with `bytes_read` bytes: nothing where the
/// stream has ended, and nothing where the line is blank.
pub fn unframe(bytes_read: usize, line: &str) -> (text: Option<&str>)
    ensures
        match text {
            Some(t) => bytes_read != 0 && carried(line@) == Some(t@),
            None => bytes_read == 0 || carried(line@) is None,
        },
        match text {
            Some(t) => bytes_read != 0 && t@.len() > 0 && t@ == trimmed(line@),
            None => bytes_read == 0 || trimmed(line@).len() == 0,
        },
{
    if bytes_read == 0 {
        return None;
    }
    let text = trim_line(line);
    if text.is_empty() {
        None
    } else {
        Some(text)
    }
}

/// White space at the end of a line changes nothing about what is left of its start.
proof fn lemma_leading_before_trailing(s: Seq<char>, c: char)
    requires
        white_space(c),
    ensures
        trimmed(s.push(c)) == trimmed(s),
    decreases s.len(),
{
    let longer = s.push(c);
    if s.len() == 0 {
        assert(longer.drop_first() =~= s);
        assert(longer[0] == c);
    } else if white_space(s[0]) {
        assert(longer[0] == s[0]);
        assert(longer.drop_first() =~= s.drop_first().push(c));
        lemma_leading_before_trailing(s.drop_first(), c);
    } else {
        assert(longer[0] == s[0]);
        assert(longer.drop_last() =~= s);
    }
}

/// A line gives back the text that it was framed with, but for white space around it: a
/// text without any comes back as it was, and a blank text does not come back.
pub proof fn law_unframing_undoes_framing(text: Seq<char>)
    ensures
        carried(framed(text)) == carried(text),
        text.len() > 0 && !white_space(text[0]) && !white_space(text.last()) ==> carried(
            framed(text),
        ) == Some(text),
{
    lemma_leading_before_trailing(text, '\n');
}

/// The first line of a stream that begins with a line.
proof fn lemma_first_line(text: Seq<char>, rest: Seq<char>)
    requires
        !text.contains('\n'),
    ensures
        first_line(framed(text) + rest) == framed(text),
    decreases text.len(),
{
    let stream = framed(text) + rest;
    if text.len() == 0 {
        assert(stream[0] == '\n');
        assert(framed(text) =~= seq!['\n']);
    } else {
        let shorter = text.drop_first();
        assert(stream[0] == text[0]);
        assert(text.contains(text[0]));
        assert(!shorter.contains('\n')) by {
            if shorter.contains('\n') {
                let i = choose|i: int| 0 <= i < shorter.len() && shorter[i] == '\n';
                assert(text[i + 1] == '\n');
            }
        }
        lemma_first_line(shorter, rest);
        assert(stream.drop_first() =~= framed(shorter) + rest);
        assert(framed(text) =~= seq![text[0]] + framed(shorter));
    }
}

/// Texts that were written to a stream, a line each, are read from it in the order in which
/// they were written; then the stream has ended.
pub proof fn law_texts_come_back_in_order(texts: Seq<Seq<char>>)
    requires
        forall|i: int| 0 <= i < texts.len() ==> one_line(#[trigger] texts[i]),
    ensures
        received(written(texts), texts.len() + 1) == texts.map_values(
            |text: Seq<char>| Some(text),
        ).push(None),
    decreases texts.len(),
{
    let stream = written(texts);
    let expected = texts.map_values(|text: Seq<char>| Some(text)).push(None);
    reveal_with_fuel(received, 2);
    if texts.len() == 0 {
        assert(received(stream, 1) =~= expected);
    } else {
        let others = texts.drop_first();
        assert forall|i: int| 0 <= i < others.len() implies one_line(#[trigger] others[i]) by {
            assert(others[i] == texts[i + 1]);
        }
        law_texts_come_back_in_order(others);
        assert(one_line(texts[0]));
        lemma_first_line(texts[0], written(others));
        law_unframing_undoes_framing(texts[0]);
        assert(stream.skip(framed(texts[0]).len() as int) =~= written(others));
        assert(received(stream, texts.len() + 1) =~= expected);
    }
}

/// Messages come back in the order in which they were written, each as it was, and then the
/// stream has ended. What `encode` makes of a message must be a text of one line from which
/// `decode` gives the message back.
pub proof fn law_messages_come_back_in_order<M>(
    messages: Seq<M>,
    encode: spec_fn(M) -> Seq<char>,
    decode: spec_fn(Seq<char>) -> Option<M>,
)
    requires
        forall|i: int|
            0 <= i < messages.len() ==> one_line(encode(#[trigger] messages[i])) && decode(
                encode(messages[i]),
            ) == Some(messages[i]),
    ensures
        ({
            let read = received(written(messages.map_values(encode)), messages.len() + 1);
            &&& read.len() == messages.len() + 1
            &&& forall|i: int|
                0 <= i < messages.len() ==> (#[trigger] read[i]) is Some && decode(read[i]->0)
                    == Some(messages[i])
            &&& read.last() is None
        }),
{
    law_texts_come_back_in_order(messages.map_values(encode));
}

/// What is left of a line after its start was trimmed is the end of it.
proof fn lemma_leading(s: Seq<char>) -> (i: int)
    ensures
        0 <= i <= s.len(),
        without_leading(s) == s.skip(i),
        forall|k: int| 0 <= k < i ==> white_space(#[trigger] s[k]),
        i < s.len() ==> !white_space(s[i]),
    decreases s.len(),
{
    if s.len() > 0 && white_space(s[0]) {
        let rest = s.drop_first();
        let i = lemma_leading(rest);
        assert(rest.skip(i) =~= s.skip(i + 1));
        assert forall|k: int| 0 <= k < i + 1 implies white_space(#[trigger] s[k]) by {
            if k > 0 {
                assert(rest[k - 1] == s[k]);
            }
        }
        i + 1
    } else {
        assert(s.skip(0) =~= s);
        0
    }
}

/// What is left of a line after its end was trimmed is the start of it.
proof fn lemma_trailing(s: Seq<char>) -> (j: int)
    ensures
        0 <= j <= s.len(),
        without_trailing(s) == s.take(j),
        forall|k: int| j <= k < s.len() ==> white_space(#[trigger] s[k]),
        j > 0 ==> !white_space(s[j - 1]),
    decreases s.len(),
{
    if s.len() > 0 && white_space(s.last()) {
        let rest = s.drop_last();
        let j = lemma_trailing(rest);
        assert(rest.take(j) =~= s.take(j));
        assert forall|k: int| j <= k < s.len() implies white_space(#[trigger] s[k]) by {
            if k < rest.len() {
                assert(rest[k] == s[k]);
            }
        }
        j
    } else {
        assert(s.take(s.len() as int) =~= s);
        s.len() as int
    }
}

/// Trimming takes white space from both ends and nothing else, and leaves none there.
pub proof fn law_trimming_takes_outer_white_space(s: Seq<char>)
    ensures
        exists|i: int, j: int|
            0 <= i <= j <= s.len() && trimmed(s) == #[trigger] s.subrange(i, j) && (forall|k: int|
                0 <= k < i || j <= k < s.len() ==> white_space(#[trigger] s[k])),
        trimmed(s).len() > 0 ==> !white_space(trimmed(s)[0]) && !white_space(trimmed(s).last()),
{
    let i = lemma_leading(s);
    let middle = s.skip(i);
    let j = lemma_trailing(middle);
    assert(middle.take(j) =~= s.subrange(i, i + j));
    assert forall|k: int| 0 <= k < i || i + j <= k < s.len() implies white_space(
        #[trigger] s[k],
    ) by {
        if k >= i + j {
            assert(middle[k - i] == s[k]);
        }
    }
    if j > 0 {
        assert(middle[j - 1] == trimmed(s).last());
        assert(trimmed(s)[0] == s[i]);
    }
}

/// A line is its text and a line break. It carries its text without the white space around
/// it, and a blank line carries nothing.
pub proof fn law_line_ends_with_its_break(text: Seq<char>, line: Seq<char>)
    ensures
        framed(text).len() == text.len() + 1,
        framed(text).take(text.len() as int) == text,
        framed(text).last() == '\n',
        carried(line) is None <==> forall|k: int|
            0 <= k < line.len() ==> white_space(#[trigger] line[k]),
        carried(line) matches Some(t) ==> t == trimmed(line),
{
    assert(framed(text).take(text.len() as int) =~= text);
    law_trimming_takes_outer_white_space(line);
    let (i, j) = choose|i: int, j: int|
        0 <= i <= j <= line.len() && trimmed(line) == #[trigger] line.subrange(i, j) && (forall|
            k: int,
        |
            0 <= k < i || j <= k < line.len() ==> white_space(#[trigger] line[k]));
    if i < j {
        assert(trimmed(line)[0] == line[i]);
    }
}

} // verus!
