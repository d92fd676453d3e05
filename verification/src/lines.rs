//! The lines of a text and their line endings.

use crate::text::{find_char, first_index, lemma_first_index, lemma_first_index_is, push_char};
use vstd::prelude::*;

verus! {

/// The line ending: carriage return and line feed, or line feed alone.
pub open spec fn eol(crlf: bool) -> Seq<char> {
    if crlf {
        seq!['\r', '\n']
    } else {
        seq!['\n']
    }
}

/// A line without one carriage return at its end, if it has one there.
pub open spec fn strip_cr(line: Seq<char>) -> Seq<char> {
    if line.len() > 0 && line.last() == '\r' {
        line.drop_last()
    } else {
        line
    }
}

/// The lines of a text. A line ends at a line feed; the line feed, and one
/// carriage return before it, are not part of the line. Text after the last
/// line feed is a line of its own, unless it is empty.
pub open spec fn lines_of(text: Seq<char>) -> Seq<Seq<char>>
    decreases text.len(),
{
    if text.len() == 0 {
        Seq::empty()
    } else {
        let i = first_index(text, '\n');
        if 0 <= i < text.len() {
            seq![strip_cr(text.take(i))] + lines_of(text.skip(i + 1))
        } else {
            seq![text]
        }
    }
}

/// The text made of the given lines, each followed by the line ending.
pub open spec fn join_lines(lines: Seq<Seq<char>>, crlf: bool) -> Seq<char>
    decreases lines.len(),
{
    if lines.len() == 0 {
        Seq::empty()
    } else {
        lines[0] + eol(crlf) + join_lines(lines.drop_first(), crlf)
    }
}

/// Whether a text holds no line feed, as every line does.
pub open spec fn no_line_feed(line: Seq<char>) -> bool {
    forall|i: int| 0 <= i < line.len() ==> line[i] != '\n'
}

/// Whether none of the lines holds a line feed.
pub open spec fn plain_lines(lines: Seq<Seq<char>>) -> bool {
    forall|i: int| 0 <= i < lines.len() ==> no_line_feed(#[trigger] lines[i])
}

/// Whether a line ends in a carriage return.
pub open spec fn ends_in_cr(line: Seq<char>) -> bool {
    line.len() > 0 && line.last() == '\r'
}

/// Whether a carriage return directly followed by a line feed occurs in `text`.
pub open spec fn has_crlf(text: Seq<char>) -> bool {
    exists|i: int| 0 < i < text.len() && text[i - 1] == '\r' && #[trigger] text[i] == '\n'
}

/// The bounds of the line that starts at `pos`: the line is
/// `text[pos..end]`, and the next line, if any, starts at `next`.
pub fn next_line(text: &[char], pos: usize) -> (r: (usize, usize))
    requires
        pos < text@.len(),
    ensures
        pos <= r.0 <= r.1 <= text@.len(),
        pos < r.1,
        no_line_feed(text@.subrange(pos as int, r.0 as int)),
        lines_of(text@.skip(pos as int)) == seq![text@.subrange(pos as int, r.0 as int)]
            + lines_of(text@.skip(r.1 as int)),
{
    let ghost rest = text@.skip(pos as int);
    let i = find_char(text, pos, '\n');
    proof {
        lemma_first_index(rest, '\n');
    }
    if i >= text.len() {
        assert(rest == text@.subrange(pos as int, text@.len() as int));
        assert(text@.skip(text@.len() as int).len() == 0);
        assert(seq![rest] + Seq::<Seq<char>>::empty() == seq![rest]);
        (i, i)
    } else {
        let end = if i > pos && text[i - 1] == '\r' {
            i - 1
        } else {
            i
        };
        proof {
            let head = rest.take(i - pos);
            assert(head == text@.subrange(pos as int, i as int));
            assert(strip_cr(head) == text@.subrange(pos as int, end as int));
            assert(rest.skip(i - pos + 1) == text@.skip(i + 1));
        }
        (end, i + 1)
    }
}

/// Whether the text holds a carriage return directly followed by a line feed.
pub fn contains_crlf(text: &[char]) -> (r: bool)
    ensures
        r == has_crlf(text@),
{
    let mut i: usize = 1;
    while i < text.len()
        invariant
            1 <= i,
            forall|j: int| 0 < j < i && j < text@.len() ==> !(text@[j - 1] == '\r' && #[trigger] text@[j] == '\n'),
        decreases text.len() - i,
    {
        if text[i - 1] == '\r' && text[i] == '\n' {
            assert(text@[i - 1] == '\r' && text@[i as int] == '\n');
            return true;
        }
        i += 1;
    }
    false
}

/// Appends the line ending to a string.
pub fn push_eol(s: &mut String, crlf: bool)
    ensures
        final(s)@ == old(s)@ + eol(crlf),
{
    if crlf {
        push_char(s, '\r');
    }
    push_char(s, '\n');
    assert(s@ == old(s)@ + eol(crlf));
}

/// A line added at the end of the lines is added at the end of their text.
pub proof fn lemma_join_push(lines: Seq<Seq<char>>, line: Seq<char>, crlf: bool)
    ensures
        join_lines(lines.push(line), crlf) == join_lines(lines, crlf) + line + eol(crlf),
    decreases lines.len(),
{
    let all = lines.push(line);
    if lines.len() == 0 {
        assert(all.drop_first() == Seq::<Seq<char>>::empty());
        assert(join_lines(all.drop_first(), crlf) == Seq::<char>::empty());
        assert(join_lines(lines, crlf) == Seq::<char>::empty());
        assert(join_lines(all, crlf) =~= line + eol(crlf));
        assert(join_lines(lines, crlf) + line + eol(crlf) =~= line + eol(crlf));
    } else {
        assert(all.drop_first() == lines.drop_first().push(line));
        lemma_join_push(lines.drop_first(), line, crlf);
        assert(join_lines(all, crlf) =~= join_lines(lines, crlf) + line + eol(crlf));
    }
}

/// The text of two lists of lines, one behind the other, is the text of the
/// first followed by the text of the second.
pub proof fn lemma_join_append(a: Seq<Seq<char>>, b: Seq<Seq<char>>, crlf: bool)
    ensures
        join_lines(a + b, crlf) == join_lines(a, crlf) + join_lines(b, crlf),
    decreases a.len(),
{
    if a.len() == 0 {
        assert(a + b =~= b);
        assert(join_lines(a, crlf) + join_lines(b, crlf) =~= join_lines(b, crlf));
    } else {
        assert((a + b).drop_first() =~= a.drop_first() + b);
        lemma_join_append(a.drop_first(), b, crlf);
        assert(join_lines(a + b, crlf) =~= join_lines(a, crlf) + join_lines(b, crlf));
    }
}

/// The lines of a text that starts with a line and its line ending are that
/// line and the lines of the rest. With a line feed as the line ending this
/// holds only of a line that does not end in a carriage return.
pub proof fn lemma_lines_cons(line: Seq<char>, crlf: bool, rest: Seq<char>)
    requires
        no_line_feed(line),
        crlf || !ends_in_cr(line),
    ensures
        lines_of(line + eol(crlf) + rest) == seq![line] + lines_of(rest),
{
    let text = line + eol(crlf) + rest;
    let at: int = if crlf {
        line.len() as int + 1
    } else {
        line.len() as int
    };
    assert(text[at] == '\n');
    assert forall|j: int| 0 <= j < at implies text[j] != '\n' by {
        if j < line.len() {
            assert(text[j] == line[j]);
        } else {
            assert(text[j] == '\r');
        }
    }
    lemma_first_index_is(text, '\n', at);
    assert(text.skip(at + 1) =~= rest);
    if crlf {
        assert(text.take(at) =~= line.push('\r'));
        assert(line.push('\r').drop_last() =~= line);
    } else {
        assert(text.take(at) =~= line);
    }
}

/// Lines that are joined and split again are the same lines. With a line
/// feed as the line ending this holds only of lines that do not end in a
/// carriage return.
pub proof fn lemma_lines_of_join(lines: Seq<Seq<char>>, crlf: bool)
    requires
        plain_lines(lines),
        crlf || forall|i: int| 0 <= i < lines.len() ==> !ends_in_cr(#[trigger] lines[i]),
    ensures
        lines_of(join_lines(lines, crlf)) == lines,
    decreases lines.len(),
{
    if lines.len() > 0 {
        let rest = lines.drop_first();
        assert(forall|i: int| 0 <= i < rest.len() ==> rest[i] == lines[i + 1]);
        lemma_lines_of_join(rest, crlf);
        lemma_lines_cons(lines[0], crlf, join_lines(rest, crlf));
        assert(seq![lines[0]] + rest =~= lines);
    }
}

/// No line of a text holds a line feed, and every character of a line is a
/// character of the text.
pub proof fn lemma_lines_plain(text: Seq<char>)
    ensures
        plain_lines(lines_of(text)),
        forall|i: int, c: char|
            0 <= i < lines_of(text).len() && (#[trigger] lines_of(text)[i]).contains(c)
                ==> #[trigger] text.contains(c),
    decreases text.len(),
{
    if text.len() > 0 {
        lemma_first_index(text, '\n');
        let at = first_index(text, '\n');
        let lines = lines_of(text);
        if at < text.len() {
            let first = strip_cr(text.take(at));
            let rest = text.skip(at + 1);
            lemma_lines_plain(rest);
            assert forall|i: int| 0 <= i < lines.len() implies no_line_feed(
                #[trigger] lines[i],
            ) by {
                if i > 0 {
                    assert(lines[i] == lines_of(rest)[i - 1]);
                }
            }
            assert forall|i: int, c: char|
                0 <= i < lines.len() && (#[trigger] lines[i]).contains(c) implies #[trigger] text.contains(
                c,
            ) by {
                if i == 0 {
                    let k = choose|k: int| 0 <= k < first.len() && first[k] == c;
                    assert(text[k] == c);
                } else {
                    assert(lines[i] == lines_of(rest)[i - 1]);
                    assert(rest.contains(c));
                    let k = choose|k: int| 0 <= k < rest.len() && rest[k] == c;
                    assert(text[k + at + 1] == c);
                }
            }
        } else {
            assert(lines[0] == text);
        }
    }
}

/// In the text of lines that end in carriage return and line feed, every
/// line feed stands directly behind a carriage return.
pub proof fn lemma_join_pairs(lines: Seq<Seq<char>>)
    requires
        plain_lines(lines),
    ensures
        forall|i: int|
            0 <= i < join_lines(lines, true).len() && #[trigger] join_lines(lines, true)[i]
                == '\n' ==> i > 0 && join_lines(lines, true)[i - 1] == '\r',
    decreases lines.len(),
{
    if lines.len() > 0 {
        let rest = lines.drop_first();
        assert(forall|i: int| 0 <= i < rest.len() ==> rest[i] == lines[i + 1]);
        lemma_join_pairs(rest);
        let text = join_lines(lines, true);
        let tail = join_lines(rest, true);
        let first = lines[0];
        assert forall|i: int| 0 <= i < text.len() && #[trigger] text[i] == '\n' implies i > 0
            && text[i - 1] == '\r' by {
            if i < first.len() {
                assert(text[i] == first[i]);
            } else if i == first.len() {
                assert(text[i] == '\r');
            } else if i == first.len() + 1 {
                assert(text[i - 1] == '\r');
            } else {
                let k = i - first.len() - 2;
                assert(text[i] == tail[k]);
                if k > 0 {
                    assert(text[i - 1] == tail[k - 1]);
                }
            }
        }
    }
}

/// Where a line ends in a carriage return and every line is followed by a
/// line feed, the joined text holds the pair of the two.
pub proof fn lemma_join_cr(lines: Seq<Seq<char>>, at: int)
    requires
        0 <= at < lines.len(),
        ends_in_cr(lines[at]),
    ensures
        has_crlf(join_lines(lines, false)),
    decreases lines.len(),
{
    let text = join_lines(lines, false);
    let first = lines[0];
    let rest = lines.drop_first();
    let tail = join_lines(rest, false);
    if at == 0 {
        assert(text[first.len() as int] == '\n');
        assert(text[first.len() - 1] == first.last());
    } else {
        assert(rest[at - 1] == lines[at]);
        lemma_join_cr(rest, at - 1);
        let i = choose|i: int| 0 < i < tail.len() && tail[i - 1] == '\r' && #[trigger] tail[i] == '\n';
        let j = i + first.len() + 1;
        assert(text[j] == tail[i]);
        assert(text[j - 1] == tail[i - 1]);
    }
}

/// Where every line is followed by a line feed and the joined text holds a
/// carriage return directly before a line feed, a line ends in a carriage
/// return.
pub proof fn lemma_join_crlf(lines: Seq<Seq<char>>)
    requires
        plain_lines(lines),
        has_crlf(join_lines(lines, false)),
    ensures
        exists|k: int| 0 <= k < lines.len() && ends_in_cr(#[trigger] lines[k]),
    decreases lines.len(),
{
    let text = join_lines(lines, false);
    let i = choose|i: int| 0 < i < text.len() && text[i - 1] == '\r' && #[trigger] text[i] == '\n';
    if lines.len() > 0 {
        let first = lines[0];
        let rest = lines.drop_first();
        let tail = join_lines(rest, false);
        assert(forall|k: int| 0 <= k < rest.len() ==> rest[k] == lines[k + 1]);
        if i < first.len() {
            assert(text[i] == first[i]);
        } else if i == first.len() {
            assert(text[i - 1] == first[i - 1]);
            assert(ends_in_cr(lines[0]));
        } else {
            let j = i - first.len() - 1;
            assert(text[i] == tail[j]);
            if j == 0 {
                assert(text[i - 1] == '\n');
            } else {
                assert(text[i - 1] == tail[j - 1]);
                lemma_join_crlf(rest);
                let k = choose|k: int| 0 <= k < rest.len() && ends_in_cr(#[trigger] rest[k]);
                assert(ends_in_cr(lines[k + 1]));
            }
        }
    }
}

/// Every character of a joined text is a character of one of its lines or
/// of the line ending.
pub proof fn lemma_join_chars(lines: Seq<Seq<char>>, crlf: bool, c: char)
    requires
        join_lines(lines, crlf).contains(c),
    ensures
        eol(crlf).contains(c) || exists|k: int| 0 <= k < lines.len() && (#[trigger] lines[k]).contains(c),
    decreases lines.len(),
{
    let text = join_lines(lines, crlf);
    if lines.len() > 0 {
        let first = lines[0];
        let rest = lines.drop_first();
        let tail = join_lines(rest, crlf);
        let i = choose|i: int| 0 <= i < text.len() && text[i] == c;
        if i < first.len() {
            assert(first[i] == c);
            assert(lines[0].contains(c));
        } else if i < first.len() + eol(crlf).len() {
            assert(eol(crlf)[i - first.len()] == c);
        } else {
            assert(tail[i - first.len() - eol(crlf).len()] == c);
            lemma_join_chars(rest, crlf, c);
            if !eol(crlf).contains(c) {
                let k = choose|k: int| 0 <= k < rest.len() && (#[trigger] rest[k]).contains(c);
                assert(lines[k + 1].contains(c));
            }
        }
    }
}

} // verus!
