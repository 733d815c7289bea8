//! The mathematical model of a text: a sequence of lines, each a sequence of
//! bytes, with the operations that cut texts apart and join them.

use vstd::prelude::*;
use vstd::utf8::{is_char_boundary, is_continuation_byte, valid_utf8};
use crate::measure::Measure;

verus! {

/// The lines of a text, without their terminators.
pub type Lines = Seq<Seq<u8>>;

/// A text has at least one line, and each line is UTF-8.
pub open spec fn is_text(t: Lines) -> bool {
    &&& t.len() >= 1
    &&& forall|i: int| 0 <= i < t.len() ==> valid_utf8(#[trigger] t[i])
}

/// No line of `t` is longer than the machine can count, nor are its lines
/// more than it can count.
pub open spec fn is_bounded(t: Lines) -> bool {
    &&& t.len() <= usize::MAX
    &&& forall|i: int| 0 <= i < t.len() ==> (#[trigger] t[i]).len() <= usize::MAX
}

/// The text that holds nothing: one empty line.
pub open spec fn empty() -> Lines {
    seq![Seq::<u8>::empty()]
}

/// The distance from the start of `t` to its end.
pub open spec fn extent(t: Lines) -> Measure {
    Measure { lines: t.len() - 1, bytes: t.last().len() as int }
}

/// `p` names a place in `t`: an existing line, and an offset into it that
/// does not fall inside the encoding of a character.
pub open spec fn is_position(t: Lines, p: Measure) -> bool {
    &&& 0 <= p.lines < t.len()
    &&& 0 <= p.bytes <= t[p.lines].len()
    &&& is_char_boundary(t[p.lines], p.bytes)
}

/// `a` with `b` after it: the last line of `a` and the first line of `b`
/// become one line.
pub open spec fn concat(a: Lines, b: Lines) -> Lines {
    a.drop_last().push(a.last() + b.first()) + b.drop_first()
}

/// What `t` holds before the position `p`.
pub open spec fn prefix(t: Lines, p: Measure) -> Lines {
    t.subrange(0, p.lines).push(t[p.lines].subrange(0, p.bytes))
}

/// What `t` holds from the position `p` on.
pub open spec fn suffix(t: Lines, p: Measure) -> Lines {
    seq![t[p.lines].subrange(p.bytes, t[p.lines].len() as int)] + t.subrange(
        p.lines + 1,
        t.len() as int,
    )
}

/// What `t` holds between the positions `p` and `q`: part of one line where
/// both are on the same line; otherwise the rest of the line of `p`, the
/// lines in between, and the line of `q` up to `q`.
pub open spec fn slice(t: Lines, p: Measure, q: Measure) -> Lines {
    if p.lines == q.lines {
        seq![t[p.lines].subrange(p.bytes, q.bytes)]
    } else {
        seq![t[p.lines].subrange(p.bytes, t[p.lines].len() as int)] + t.subrange(
            p.lines + 1,
            q.lines,
        ) + seq![t[q.lines].subrange(0, q.bytes)]
    }
}

/// `t` with `x` put in at the position `p`.
pub open spec fn insert(t: Lines, p: Measure, x: Lines) -> Lines {
    concat(concat(prefix(t, p), x), suffix(t, p))
}

/// `t` without what lies between the position `p` and the position `l`
/// after it.
pub open spec fn delete(t: Lines, p: Measure, l: Measure) -> Lines {
    concat(prefix(t, p), suffix(t, p.plus(l)))
}

/// Putting in, line by line: a text of one line goes into the line of the
/// position; of a longer text, the first line continues what that line
/// holds before the position, the last line is continued by what it holds
/// from the position on, and these lines, with those between them, take the
/// place of the one line.
pub proof fn lemma_insert_by_lines(t: Lines, p: Measure, x: Lines)
    requires
        0 <= p.lines < t.len(),
        0 <= p.bytes <= t[p.lines].len(),
        x.len() >= 1,
    ensures
        ({
            let line = t[p.lines];
            let before = line.subrange(0, p.bytes);
            let after = line.subrange(p.bytes, line.len() as int);
            insert(t, p, x) == if x.len() == 1 {
                t.update(p.lines, before + x[0] + after)
            } else {
                t.subrange(0, p.lines) + seq![before + x[0]] + x.subrange(1, x.len() - 1) + seq![
                    x.last() + after,
                ] + t.subrange(p.lines + 1, t.len() as int)
            }
        }),
{
    let line = t[p.lines];
    let before = line.subrange(0, p.bytes);
    let after = line.subrange(p.bytes, line.len() as int);
    if x.len() == 1 {
        assert(insert(t, p, x) =~~= t.update(p.lines, before + x[0] + after));
    } else {
        assert(insert(t, p, x) =~~= t.subrange(0, p.lines) + seq![before + x[0]] + x.subrange(
            1,
            x.len() - 1,
        ) + seq![x.last() + after] + t.subrange(p.lines + 1, t.len() as int));
    }
}

/// Removing, line by line: what the line of the start holds before the
/// start and what the line of the end holds from the end on become one
/// line, which takes the place of these lines and of those between them.
pub proof fn lemma_delete_by_lines(t: Lines, p: Measure, l: Measure)
    requires
        0 <= p.lines < t.len(),
        0 <= p.bytes <= t[p.lines].len(),
        l.nonneg(),
        p.plus(l).lines < t.len(),
        p.plus(l).bytes <= t[p.plus(l).lines].len(),
    ensures
        ({
            let q = p.plus(l);
            let before = t[p.lines].subrange(0, p.bytes);
            let after = t[q.lines].subrange(q.bytes, t[q.lines].len() as int);
            delete(t, p, l) == t.subrange(0, p.lines) + seq![before + after] + t.subrange(
                q.lines + 1,
                t.len() as int,
            )
        }),
{
    let q = p.plus(l);
    let before = t[p.lines].subrange(0, p.bytes);
    let after = t[q.lines].subrange(q.bytes, t[q.lines].len() as int);
    assert(delete(t, p, l) =~~= t.subrange(0, p.lines) + seq![before + after] + t.subrange(
        q.lines + 1,
        t.len() as int,
    ));
}

/// In a UTF-8 line the character boundaries are its end and every byte that
/// does not continue a character.
pub proof fn lemma_boundary(line: Seq<u8>, i: int)
    requires
        valid_utf8(line),
    ensures
        is_char_boundary(line, i) <==> (0 <= i <= line.len() && (i == line.len()
            || !is_continuation_byte(line[i]))),
{
    vstd::utf8::is_char_boundary_start_end_of_seq(line);
    if 0 <= i < line.len() {
        vstd::utf8::is_char_boundary_iff_not_is_continuation_byte(line, i);
    } else if i != line.len() {
        if i != 0 {
            assert(!is_char_boundary(line, i));
        }
    }
}

/// The start and the end of a text are positions in it.
pub proof fn lemma_ends_are_positions(t: Lines)
    requires
        is_text(t),
    ensures
        is_position(t, Measure::zero()),
        is_position(t, extent(t)),
{
    lemma_boundary(t[0], 0);
    lemma_boundary(t.last(), t.last().len() as int);
}

/// Cutting a text at its start or at its end leaves the text on one side and
/// nothing on the other.
pub proof fn lemma_cut_at_ends(t: Lines)
    requires
        is_text(t),
    ensures
        prefix(t, Measure::zero()) == empty(),
        suffix(t, Measure::zero()) == t,
        prefix(t, extent(t)) == t,
        suffix(t, extent(t)) == empty(),
{
    assert(prefix(t, Measure::zero()) =~~= empty());
    assert(suffix(t, Measure::zero()) =~~= t);
    assert(prefix(t, extent(t)) =~~= t);
    assert(suffix(t, extent(t)) =~~= empty());
}

/// Joining two texts gives a text, as long as both together.
pub proof fn lemma_concat(a: Lines, b: Lines)
    requires
        is_text(a),
        is_text(b),
    ensures
        is_text(concat(a, b)),
        extent(concat(a, b)) == extent(a).plus(extent(b)),
{
    let c = concat(a, b);
    assert forall|i: int| 0 <= i < c.len() implies valid_utf8(#[trigger] c[i]) by {
        if i < a.len() - 1 {
            assert(c[i] == a[i]);
        } else if i == a.len() - 1 {
            vstd::utf8::valid_utf8_concat(a.last(), b.first());
        } else {
            assert(c[i] == b[i - a.len() + 1]);
        }
    }
}

/// The text that holds nothing is the unit of joining.
pub proof fn lemma_concat_empty(t: Lines)
    requires
        is_text(t),
    ensures
        is_text(empty()),
        extent(empty()) == Measure::zero(),
        concat(empty(), t) == t,
        concat(t, empty()) == t,
{
    assert(concat(empty(), t) =~~= t);
    assert(concat(t, empty()) =~~= t);
    assert(valid_utf8(Seq::<u8>::empty()));
}

/// Joining is associative.
pub proof fn lemma_concat_assoc(a: Lines, b: Lines, c: Lines)
    requires
        a.len() >= 1,
        b.len() >= 1,
        c.len() >= 1,
    ensures
        concat(concat(a, b), c) == concat(a, concat(b, c)),
{
    assert(concat(concat(a, b), c) =~~= concat(a, concat(b, c)));
}

/// Cutting a text at a position gives two texts that, joined, are the text
/// again; the first is as long as the position is far from the start.
pub proof fn lemma_split(t: Lines, p: Measure)
    requires
        is_text(t),
        is_position(t, p),
    ensures
        is_text(prefix(t, p)),
        is_text(suffix(t, p)),
        concat(prefix(t, p), suffix(t, p)) == t,
        extent(prefix(t, p)) == p,
        extent(suffix(t, p)) == extent(t).minus(p),
{
    let line = t[p.lines];
    vstd::utf8::valid_utf8_split(line, p.bytes);
    assert(concat(prefix(t, p), suffix(t, p)) =~~= t);
}

/// A position in the second of two joined texts is a position in the whole,
/// further on by the length of the first; cutting there cuts the second.
pub proof fn lemma_position_right(a: Lines, b: Lines, p: Measure)
    requires
        is_text(a),
        is_text(b),
        is_position(b, p),
    ensures
        is_position(concat(a, b), extent(a).plus(p)),
        prefix(concat(a, b), extent(a).plus(p)) == concat(a, prefix(b, p)),
        suffix(concat(a, b), extent(a).plus(p)) == suffix(b, p),
{
    let c = concat(a, b);
    let q = extent(a).plus(p);
    lemma_concat(a, b);
    lemma_boundary(b[p.lines], p.bytes);
    lemma_boundary(c[q.lines], q.bytes);
    assert(prefix(c, q) =~~= concat(a, prefix(b, p)));
    assert(suffix(c, q) =~~= suffix(b, p));
}

/// A position in the first of two joined texts is a position in the whole;
/// cutting there cuts the first.
pub proof fn lemma_position_left(a: Lines, b: Lines, p: Measure)
    requires
        is_text(a),
        is_text(b),
        is_position(a, p),
    ensures
        is_position(concat(a, b), p),
        prefix(concat(a, b), p) == prefix(a, p),
        suffix(concat(a, b), p) == concat(suffix(a, p), b),
{
    let c = concat(a, b);
    lemma_concat(a, b);
    lemma_boundary(a[p.lines], p.bytes);
    lemma_boundary(c[p.lines], p.bytes);
    lemma_boundary(b[0], 0);
    assert(prefix(c, p) =~~= prefix(a, p));
    assert(suffix(c, p) =~~= concat(suffix(a, p), b));
}

/// A position in two joined texts lies in the first or in the second of
/// them, as it comes before or after the place where they were joined.
pub proof fn lemma_position_of_concat(a: Lines, b: Lines, p: Measure)
    requires
        is_text(a),
        is_text(b),
        is_position(concat(a, b), p),
    ensures
        p.le(extent(a)) ==> is_position(a, p),
        extent(a).le(p) ==> is_position(b, p.minus(extent(a))) && extent(a).plus(
            p.minus(extent(a)),
        ) == p,
{
    let c = concat(a, b);
    lemma_concat(a, b);
    lemma_boundary(c[p.lines], p.bytes);
    if p.le(extent(a)) {
        lemma_boundary(a[p.lines], p.bytes);
    }
    if extent(a).le(p) {
        let q = p.minus(extent(a));
        lemma_boundary(b[q.lines], q.bytes);
    }
}

/// What lies between two positions is what is left of the text from the
/// first on, cut at their distance.
pub proof fn lemma_slice(t: Lines, p: Measure, q: Measure)
    requires
        is_text(t),
        is_position(t, p),
        is_position(t, q),
        p.le(q),
    ensures
        is_position(suffix(t, p), q.minus(p)),
        slice(t, p, q) == prefix(suffix(t, p), q.minus(p)),
        is_text(slice(t, p, q)),
        extent(slice(t, p, q)) == q.minus(p),
{
    lemma_split(t, p);
    let s = suffix(t, p);
    let d = q.minus(p);
    lemma_boundary(t[q.lines], q.bytes);
    lemma_boundary(s[d.lines], d.bytes);
    assert(is_position(s, d));
    assert(slice(t, p, q) =~~= prefix(s, d));
    lemma_split(s, d);
}

/// The offset of the first line feed in `s`, or the length of `s` where it
/// holds none.
pub open spec fn first_line_feed(s: Seq<u8>) -> int
    decreases s.len(),
{
    if s.len() == 0 || s[0] == 10 {
        0
    } else {
        1 + first_line_feed(s.drop_first())
    }
}

/// `line` without the carriage return at its end, if it has one there.
pub open spec fn without_carriage_return(line: Seq<u8>) -> Seq<u8> {
    if line.len() > 0 && line.last() == 13 {
        line.drop_last()
    } else {
        line
    }
}

/// The lines of the string `s`. A line ends at a line feed, or at a carriage
/// return followed by one; neither belongs to the line. What follows the
/// last line feed is a line if it is not empty.
pub open spec fn split_lines(s: Seq<u8>) -> Lines
    decreases s.len(),
{
    let k = first_line_feed(s);
    if s.len() == 0 {
        Seq::empty()
    } else if 0 <= k < s.len() {
        seq![without_carriage_return(s.subrange(0, k))] + split_lines(
            s.subrange(k + 1, s.len() as int),
        )
    } else {
        seq![s]
    }
}

/// The text that the string `s` holds: its lines, or one empty line where it
/// has none.
pub open spec fn text_of(s: Seq<u8>) -> Lines {
    if s.len() == 0 {
        empty()
    } else {
        split_lines(s)
    }
}

/// The lines of `t` written one after the other, with a line feed after
/// each but the last.
pub open spec fn written(t: Lines) -> Seq<u8>
    decreases t.len(),
{
    if t.len() == 0 {
        Seq::empty()
    } else if t.len() == 1 {
        t[0]
    } else {
        t[0] + seq![10u8] + written(t.drop_first())
    }
}

/// The text can be written and read again: no line holds a line feed, no
/// line before the last ends in a carriage return, and the last line holds
/// something unless it is the only one.
pub open spec fn is_plain(t: Lines) -> bool {
    &&& t.len() >= 1
    &&& forall|i: int, k: int| 0 <= i < t.len() && 0 <= k < t[i].len() ==> #[trigger] t[i][k] != 10
    &&& forall|i: int| 0 <= i < t.len() - 1 ==> without_carriage_return(#[trigger] t[i]) == t[i]
    &&& t.len() == 1 || t.last().len() > 0
}

/// The first line feed of `s` is at `k` if there is one at `k` and none
/// before it; where `k` is the length of `s`, there is none.
pub proof fn lemma_first_line_feed(s: Seq<u8>, k: int)
    requires
        0 <= k <= s.len(),
        forall|j: int| 0 <= j < k ==> s[j] != 10,
        k < s.len() ==> s[k] == 10,
    ensures
        first_line_feed(s) == k,
    decreases s.len(),
{
    if k > 0 {
        lemma_first_line_feed(s.drop_first(), k - 1);
    }
}

/// In a UTF-8 line, what follows a byte that is a character by itself
/// starts on a character boundary.
pub proof fn lemma_boundary_after_ascii(line: Seq<u8>, i: int)
    requires
        valid_utf8(line),
        0 <= i < line.len(),
        line[i] < 128,
    ensures
        is_char_boundary(line, i),
        is_char_boundary(line, i + 1),
    decreases line.len(),
{
    lemma_boundary(line, i);
    let k = vstd::utf8::length_of_first_scalar(line);
    let rest = vstd::utf8::pop_first_scalar(line);
    if i == 0 {
        assert(k == 1);
        assert(is_char_boundary(rest, 0));
        assert(is_char_boundary(line, 1));
    } else {
        assert(is_char_boundary(line, i) == is_char_boundary(rest, i - k));
        if i - k < 0 {
            assert(!is_char_boundary(rest, i - k));
        }
        assert(rest[i - k] == line[i]);
        lemma_boundary_after_ascii(rest, i - k);
        assert(is_char_boundary(line, i + 1) == is_char_boundary(rest, i + 1 - k));
    }
}

} // verus!
