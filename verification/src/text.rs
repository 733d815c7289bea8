//! The text buffer: lines held as strings, and the operations that cut
//! them, join them and carry out an edit script on them.

use vstd::prelude::*;
use vstd::string::{StringExecFns, StringSliceAdditionalSpecFns};
use vstd::utf8::{encode_utf8, valid_utf8};
use crate::diff::{Diff, Operation};
use crate::edit::{apply, lemma_apply_is_text, valid};
use crate::length::Length;
use crate::line::{byte_len, cut, join, join3, part};
use crate::lines::{
    concat, delete, empty, extent, insert, is_bounded, is_position, is_text, lemma_boundary,
    lemma_boundary_after_ascii, lemma_concat, lemma_concat_assoc, lemma_concat_empty,
    lemma_cut_at_ends, lemma_delete_by_lines, lemma_ends_are_positions, lemma_first_line_feed,
    lemma_insert_by_lines, lemma_position_right, lemma_split, prefix, slice, split_lines, suffix,
    text_of, Lines,
};
use crate::measure::Measure;
use crate::point::Point;
use crate::range::Range;
use std::ops::AddAssign;

verus! {

/// The bytes of each of the strings `lines`.
pub open spec fn bytes_of(lines: Seq<String>) -> Lines {
    Seq::new(lines.len(), |i: int| encode_utf8(lines[i]@))
}

/// The bytes of `line` are no more than the machine can count.
spec fn fits(line: String) -> bool {
    encode_utf8(line@).len() <= usize::MAX
}

/// There is a line, and every line fits.
spec fn fit(lines: Seq<String>) -> bool {
    lines.len() >= 1 && forall|i: int| 0 <= i < lines.len() ==> fits(#[trigger] lines[i])
}

/// A text buffer: one string for each line, without line terminators.
#[derive(Debug, Hash)]
pub struct Text {
    lines: Vec<String>,
}

impl View for Text {
    type V = Lines;

    /// A text is modelled by the bytes of its lines.
    closed spec fn view(&self) -> Lines {
        bytes_of(self.lines@)
    }
}

impl Text {
    /// A text always has a line, and its lines are within the machine's
    /// limits.
    pub open spec fn wf(&self) -> bool {
        is_text(self@) && is_bounded(self@)
    }

    /// What the lines have to be like for the text to be well-formed.
    proof fn lemma_wf(&self)
        ensures
            self.wf() <==> fit(self.lines@),
            self@.len() == self.lines@.len(),
            forall|i: int|
                0 <= i < self.lines@.len() ==> #[trigger] self@[i] == encode_utf8(
                    self.lines@[i]@,
                ),
    {
        assert forall|i: int| 0 <= i < self@.len() implies valid_utf8(#[trigger] self@[i]) by {
            vstd::utf8::encode_utf8_valid_utf8(self.lines@[i]@);
        }
        assert(self.lines.len() == self.lines@.len());
        if fit(self.lines@) {
            assert forall|i: int| 0 <= i < self@.len() implies (#[trigger] self@[i]).len()
                <= usize::MAX by {
                assert(fits(self.lines@[i]));
            }
        }
        if self.wf() {
            assert forall|i: int| 0 <= i < self.lines@.len() implies fits(
                #[trigger] self.lines@[i],
            ) by {
                assert(self@[i] == encode_utf8(self.lines@[i]@));
            }
        }
    }

    /// The text that holds nothing: one empty line.
    pub fn new() -> (text: Self)
        ensures
            text.wf(),
            text@ == empty(),
    {
        let mut lines: Vec<String> = Vec::new();
        lines.push(String::new());
        let text = Text { lines };
        proof {
            text.lemma_wf();
            assert(encode_utf8(Seq::<char>::empty()) =~= Seq::<u8>::empty());
            assert(text@ =~~= empty());
        }
        text
    }

    /// Whether the text holds nothing.
    pub fn is_empty(&self) -> (is_empty: bool)
        requires
            self.wf(),
        ensures
            is_empty == (self@ == empty()),
            is_empty == (extent(self@) == Measure::zero()),
    {
        let length = self.length();
        proof {
            if extent(self@) == Measure::zero() {
                assert(self@ =~~= empty());
            }
        }
        length == Length::default()
    }

    /// The distance from the start of the text to its end.
    pub fn length(&self) -> (length: Length)
        requires
            self.wf(),
        ensures
            length@ == extent(self@),
    {
        proof {
            self.lemma_wf();
        }
        let n = self.lines.len();
        Length::new(n - 1, byte_len(self.lines[n - 1].as_str()))
    }

    /// A new text that holds what lies in `range`.
    pub fn slice(&self, range: Range) -> (text: Text)
        requires
            self.wf(),
            range.wf(),
            is_position(self@, range.start@),
            is_position(self@, range.end@),
        ensures
            text.wf(),
            text@ == slice(self@, range.start@, range.end@),
    {
        proof {
            self.lemma_wf();
        }
        let mut lines: Vec<String> = Vec::new();
        if range.start.line == range.end.line {
            let line = self.lines[range.start.line].as_str();
            lines.push(String::from_str(part(line, range.start.byte, range.end.byte)));
        } else {
            let first = self.lines[range.start.line].as_str();
            lines.push(String::from_str(cut(first, range.start.byte).1));
            let mut i: usize = range.start.line + 1;
            while i < range.end.line
                invariant
                    range.start.line < i <= range.end.line < self.lines@.len(),
                    lines@.len() == i - range.start.line,
                    encode_utf8(lines@[0]@) == self@[range.start.line as int].subrange(
                        range.start.byte as int,
                        self@[range.start.line as int].len() as int,
                    ),
                    is_position(self@, range.start@),
                    forall|k: int|
                        1 <= k < lines@.len() ==> #[trigger] lines@[k] == self.lines@[k
                            + range.start.line],
                decreases range.end.line - i,
            {
                lines.push(self.lines[i].clone());
                i += 1;
            }
            let last = self.lines[range.end.line].as_str();
            lines.push(String::from_str(cut(last, range.end.byte).0));
        }
        let text = Text { lines };
        proof {
            text.lemma_wf();
            let s = slice(self@, range.start@, range.end@);
            assert(text@.len() == s.len());
            assert forall|j: int| 0 <= j < s.len() implies #[trigger] text@[j] == s[j] by {
                if range.start.line != range.end.line && 0 < j < s.len() - 1 {
                    assert(text.lines@[j] == self.lines@[j + range.start.line]);
                }
            }
            assert(text@ =~= s);
            assert forall|j: int| 0 <= j < text.lines@.len() implies fits(
                #[trigger] text.lines@[j],
            ) by {
                assert(text@[j] == s[j]);
            }
        }
        text
    }

    /// Takes what lies before the position `length` out of the text, and
    /// returns it as a text of its own.
    pub fn take(&mut self, length: Length) -> (taken: Self)
        requires
            old(self).wf(),
            is_position(old(self)@, length@),
        ensures
            final(self).wf(),
            taken.wf(),
            taken@ == prefix(old(self)@, length@),
            final(self)@ == suffix(old(self)@, length@),
    {
        proof {
            self.lemma_wf();
        }
        let mut rest = self.lines.split_off(length.lines);
        let (head, tail) = cut(rest[0].as_str(), length.bytes);
        let head = String::from_str(head);
        let tail = String::from_str(tail);
        rest.set(0, tail);
        self.lines.push(head);
        std::mem::swap(&mut self.lines, &mut rest);
        let taken = Text { lines: rest };
        proof {
            self.lemma_wf();
            taken.lemma_wf();
            let p = prefix(old(self)@, length@);
            let s = suffix(old(self)@, length@);
            assert(taken@ =~~= p);
            assert(self@ =~~= s);
            assert forall|j: int| 0 <= j < taken.lines@.len() implies fits(
                #[trigger] taken.lines@[j],
            ) by {
                assert(taken@[j] == p[j]);
                if j < length.lines {
                    assert(taken.lines@[j] == old(self).lines@[j]);
                }
            }
            assert forall|j: int| 0 <= j < self.lines@.len() implies fits(
                #[trigger] self.lines@[j],
            ) by {
                assert(self@[j] == s[j]);
                if j > 0 {
                    assert(self.lines@[j] == old(self).lines@[j + length.lines]);
                }
            }
        }
        taken
    }

    /// Drops what lies before the position `length` from the text.
    pub fn skip(&mut self, length: Length)
        requires
            old(self).wf(),
            is_position(old(self)@, length@),
        ensures
            final(self).wf(),
            final(self)@ == suffix(old(self)@, length@),
    {
        proof {
            self.lemma_wf();
        }
        let mut rest = self.lines.split_off(length.lines);
        let tail = String::from_str(cut(rest[0].as_str(), length.bytes).1);
        rest.set(0, tail);
        std::mem::swap(&mut self.lines, &mut rest);
        proof {
            self.lemma_wf();
            let s = suffix(old(self)@, length@);
            assert(self@ =~~= s);
            assert forall|j: int| 0 <= j < self.lines@.len() implies fits(
                #[trigger] self.lines@[j],
            ) by {
                assert(self@[j] == s[j]);
                if j > 0 {
                    assert(self.lines@[j] == old(self).lines@[j + length.lines]);
                }
            }
        }
    }

    /// Puts `text` into the text at the position `point`.
    pub fn insert(&mut self, point: Point, text: Self)
        requires
            old(self).wf(),
            text.wf(),
            is_position(old(self)@, point@),
        ensures
            final(self).wf(),
            final(self)@ == insert(old(self)@, point@, text@),
    {
        proof {
            self.lemma_wf();
            text.lemma_wf();
        }
        let mut tail = self.lines.split_off(point.line + 1);
        let line = self.lines.pop().unwrap();
        let (left, right) = cut(line.as_str(), point.byte);
        let mut middle = text.lines;
        let n = middle.len();
        if n == 1 {
            let joined = join3(left, middle[0].as_str(), right);
            self.lines.push(joined);
        } else {
            let first = join(left, middle[0].as_str());
            let last = join(middle[n - 1].as_str(), right);
            middle.set(0, first);
            middle.set(n - 1, last);
            self.lines.append(&mut middle);
        }
        self.lines.append(&mut tail);
        proof {
            self.lemma_wf();
            let r = insert(old(self)@, point@, text@);
            lemma_insert_by_lines(old(self)@, point@, text@);
            assert(self@.len() == r.len());
            assert forall|j: int| 0 <= j < r.len() implies #[trigger] self@[j] == r[j] by {
                if j < point.line {
                    assert(self.lines@[j] == old(self).lines@[j]);
                } else if j >= point.line + n {
                    assert(self.lines@[j] == old(self).lines@[j - n + 1]);
                } else if point.line < j < point.line + n - 1 {
                    assert(self.lines@[j] == text.lines@[j - point.line]);
                } else {
                    assert(self@[j] =~= r[j]);
                }
            }
            assert(self@ =~= r);
            assert forall|j: int| 0 <= j < self.lines@.len() implies fits(
                #[trigger] self.lines@[j],
            ) by {
                if j < point.line {
                    assert(self.lines@[j] == old(self).lines@[j]);
                } else if j >= point.line + n {
                    assert(self.lines@[j] == old(self).lines@[j - n + 1]);
                } else if point.line < j < point.line + n - 1 {
                    assert(self.lines@[j] == text.lines@[j - point.line]);
                }
            }
        }
    }

    /// Removes from the text what lies between the position `start` and
    /// the position `length` after it.
    pub fn delete(&mut self, start: Point, length: Length)
        requires
            old(self).wf(),
            is_position(old(self)@, start@),
            is_position(old(self)@, start@.plus(length@)),
        ensures
            final(self).wf(),
            final(self)@ == delete(old(self)@, start@, length@),
    {
        proof {
            self.lemma_wf();
            assert(self.lines.len() == self.lines@.len());
        }
        let mut tail = self.lines.split_off(start.line + length.lines + 1);
        let last = self.lines.pop().unwrap();
        let joined;
        if length.lines == 0 {
            let (left, rest) = cut(last.as_str(), start.byte);
            proof {
                let line = old(self)@[start.line as int];
                vstd::utf8::encode_utf8_valid_utf8(last@);
                vstd::utf8::encode_utf8_valid_utf8(rest@);
                lemma_boundary(line, start.byte + length.bytes);
                lemma_boundary(rest.spec_bytes(), length.bytes as int);
            }
            let (_, right) = cut(rest, length.bytes);
            joined = join(left, right);
        } else {
            self.lines.truncate(start.line + 1);
            let first = self.lines.pop().unwrap();
            let (left, _) = cut(first.as_str(), start.byte);
            let (_, right) = cut(last.as_str(), length.bytes);
            joined = join(left, right);
        }
        self.lines.push(joined);
        self.lines.append(&mut tail);
        proof {
            self.lemma_wf();
            let r = delete(old(self)@, start@, length@);
            lemma_delete_by_lines(old(self)@, start@, length@);
            assert(self@.len() == r.len());
            assert forall|j: int| 0 <= j < r.len() implies #[trigger] self@[j] == r[j] by {
                if j < start.line {
                    assert(self.lines@[j] == old(self).lines@[j]);
                } else if j > start.line {
                    assert(self.lines@[j] == old(self).lines@[j + length.lines]);
                } else {
                    assert(self@[j] =~= r[j]);
                }
            }
            assert(self@ =~= r);
            assert forall|j: int| 0 <= j < self.lines@.len() implies fits(
                #[trigger] self.lines@[j],
            ) by {
                if j < start.line {
                    assert(self.lines@[j] == old(self).lines@[j]);
                } else if j > start.line {
                    assert(self.lines@[j] == old(self).lines@[j + length.lines]);
                }
            }
        }
    }

    /// Carries out the edit script `diff` on the text.
    pub fn apply_diff(&mut self, diff: Diff)
        requires
            old(self).wf(),
            diff.wf(),
            valid(diff@, old(self)@),
        ensures
            final(self).wf(),
            final(self)@ == apply(diff@, old(self)@),
    {
        let mut point = Point::default();
        let mut operations = diff.into_iter();
        let ghost mut done: Lines = empty();
        let ghost mut rest: Lines = self@;
        proof {
            lemma_concat_empty(self@);
            lemma_apply_is_text(diff@, self@);
        }
        loop
            invariant
                self.wf(),
                operations.wf(),
                is_text(done),
                is_text(rest),
                self@ == concat(done, rest),
                point@ == extent(done),
                valid(operations@, rest),
                apply(diff@, old(self)@) == concat(done, apply(operations@, rest)),
            ensures
                self.wf(),
                self@ == apply(diff@, old(self)@),
            decreases operations@.len(),
        {
            let ghost ops = operations@;
            let ghost whole = self@;
            proof {
                lemma_ends_are_positions(rest);
                lemma_cut_at_ends(rest);
                lemma_concat_empty(done);
                lemma_position_right(done, rest, Measure::zero());
            }
            match operations.next() {
                None => {
                    break ;
                },
                Some(Operation::Delete(length)) => {
                    proof {
                        lemma_position_right(done, rest, length@);
                        lemma_split(rest, length@);
                    }
                    self.delete(point, length);
                    proof {
                        rest = suffix(rest, length@);
                    }
                },
                Some(Operation::Retain(length)) => {
                    proof {
                        let kept = prefix(rest, length@);
                        let left = suffix(rest, length@);
                        lemma_position_right(done, rest, length@);
                        lemma_split(rest, length@);
                        lemma_concat(done, kept);
                        lemma_concat_assoc(done, kept, left);
                        lemma_apply_is_text(ops.drop_first(), left);
                        lemma_concat_assoc(done, kept, apply(ops.drop_first(), left));
                        assert(whole[point@.plus(length@).lines].len() <= usize::MAX);
                        done = concat(done, kept);
                        rest = left;
                    }
                    point = point + length;
                },
                Some(Operation::Insert(text)) => {
                    assert(ops[0].fits());
                    let length = text.length();
                    self.insert(point, text);
                    proof {
                        lemma_concat(done, text@);
                        lemma_apply_is_text(ops.drop_first(), rest);
                        lemma_concat_assoc(done, text@, apply(ops.drop_first(), rest));
                        done = concat(done, text@);
                        lemma_ends_are_positions(rest);
                        lemma_position_right(done, rest, Measure::zero());
                        assert(self@[point@.plus(length@).lines].len() <= usize::MAX);
                    }
                    point = point + length;
                },
            }
        }
    }

    /// The lines of the text.
    pub fn as_lines(&self) -> (lines: &[String])
        ensures
            bytes_of(lines@) == self@,
    {
        self.lines.as_slice()
    }

    /// The lines of the text.
    pub fn into_lines(self) -> (lines: Vec<String>)
        ensures
            bytes_of(lines@) == self@,
    {
        self.lines
    }
}

impl Default for Text {
    fn default() -> (text: Self)
        ensures
            text.wf(),
            text@ == empty(),
    {
        Text::new()
    }
}

impl Clone for Text {
    fn clone(&self) -> (text: Self)
        ensures
            text@ == self@,
            self.wf() ==> text.wf(),
    {
        let mut lines: Vec<String> = Vec::new();
        let mut i: usize = 0;
        while i < self.lines.len()
            invariant
                i <= self.lines.len(),
                lines@ == self.lines@.subrange(0, i as int),
            decreases self.lines.len() - i,
        {
            lines.push(self.lines[i].clone());
            i += 1;
            assert(lines@ =~= self.lines@.subrange(0, i as int));
        }
        assert(lines@ =~= self.lines@);
        Text { lines }
    }
}

impl PartialEq for Text {
    fn eq(&self, other: &Self) -> (equal: bool) {
        proof {
            self.lemma_wf();
            other.lemma_wf();
        }
        if self.lines.len() != other.lines.len() {
            return false;
        }
        let mut i: usize = 0;
        while i < self.lines.len()
            invariant
                i <= self.lines@.len() == other.lines@.len(),
                self@.len() == self.lines@.len(),
                other@.len() == other.lines@.len(),
                forall|j: int|
                    0 <= j < self.lines@.len() ==> #[trigger] self@[j] == encode_utf8(
                        self.lines@[j]@,
                    ),
                forall|j: int|
                    0 <= j < other.lines@.len() ==> #[trigger] other@[j] == encode_utf8(
                        other.lines@[j]@,
                    ),
                forall|j: int| 0 <= j < i ==> self@[j] == other@[j],
            decreases self.lines.len() - i,
        {
            if !(self.lines[i] == other.lines[i]) {
                proof {
                    if self@[i as int] == other@[i as int] {
                        crate::line::lemma_encode_injective(
                            self.lines@[i as int]@,
                            other.lines@[i as int]@,
                        );
                    }
                }
                return false;
            }
            i += 1;
        }
        assert(self@ =~= other@);
        true
    }
}

impl vstd::std_specs::cmp::PartialEqSpecImpl for Text {
    open spec fn obeys_eq_spec() -> bool {
        true
    }

    /// Two texts are equal if they hold the same lines.
    open spec fn eq_spec(&self, other: &Self) -> bool {
        self@ == other@
    }
}

impl Eq for Text {

}

impl AddAssign for Text {
    /// Puts `other` after the text: the last line of the text and the first
    /// line of `other` become one line.
    fn add_assign(&mut self, other: Self)
        requires
            old(self).wf(),
            other.wf(),
        ensures
            final(self).wf(),
            final(self)@ == concat(old(self)@, other@),
    {
        proof {
            self.lemma_wf();
            other.lemma_wf();
        }
        let mut rest = other.lines;
        let last = self.lines.pop().unwrap();
        let joined = join(last.as_str(), rest[0].as_str());
        rest.set(0, joined);
        self.lines.append(&mut rest);
        proof {
            self.lemma_wf();
            assert(self.wf()) by {
                assert forall|i: int| 0 <= i < self.lines@.len() implies fits(
                    #[trigger] self.lines@[i],
                ) by {
                    let n = old(self).lines@.len() - 1;
                    if i < n {
                        assert(self.lines@[i] == old(self).lines@[i]);
                    } else if i > n {
                        assert(self.lines@[i] == other.lines@[i - n]);
                    }
                }
            }
            assert(self@ =~~= concat(old(self)@, other@));
        }
    }
}

impl vstd::std_specs::convert::FromSpecImpl<&str> for Text {
    /// A text is known by its view, which `from` states itself.
    open spec fn obeys_from_spec() -> bool {
        false
    }

    open spec fn from_spec(string: &str) -> Self {
        arbitrary()
    }
}

impl From<&str> for Text {
    /// The text that `string` holds, line by line.
    fn from(string: &str) -> (text: Self)
        ensures
            text.wf(),
            text@ == text_of(string.spec_bytes()),
    {
        let bytes = string.as_bytes();
        let n = bytes.len();
        let ghost all = string.spec_bytes();
        proof {
            vstd::utf8::encode_utf8_valid_utf8(string@);
            lemma_boundary(all, 0);
            lemma_boundary(all, n as int);
            assert(all.subrange(0, n as int) =~= all);
        }
        let mut lines: Vec<String> = Vec::new();
        let mut start: usize = 0;
        let mut i: usize = 0;
        while i < n
            invariant
                start <= i <= n,
                n == all.len(),
                bytes@ == all,
                all == string.spec_bytes(),
                valid_utf8(all),
                vstd::utf8::is_char_boundary(all, start as int),
                vstd::utf8::is_char_boundary(all, n as int),
                forall|j: int| start <= j < i ==> all[j] != 10,
                split_lines(all) == bytes_of(lines@) + split_lines(
                    all.subrange(start as int, n as int),
                ),
                forall|j: int| 0 <= j < lines@.len() ==> fits(#[trigger] lines@[j]),
                start < n ==> lines@.len() > 0 || start == 0,
                n > 0 && start == n ==> lines@.len() > 0,
            decreases n - i,
        {
            if bytes[i] == 10 {
                let mut end = i;
                if end > start && bytes[end - 1] == 13 {
                    end = end - 1;
                }
                proof {
                    lemma_boundary_after_ascii(all, i as int);
                    if end < i {
                        lemma_boundary_after_ascii(all, end as int);
                    }
                }
                let line = String::from_str(part(string, start, end));
                proof {
                    let s = all.subrange(start as int, n as int);
                    lemma_first_line_feed(s, i - start);
                    assert(s.subrange(0, i - start) =~= all.subrange(start as int, i as int));
                    assert(s.subrange(i - start + 1, s.len() as int) =~= all.subrange(
                        i + 1,
                        n as int,
                    ));
                    assert(encode_utf8(line@) =~= crate::lines::without_carriage_return(
                        all.subrange(start as int, i as int),
                    ));
                    assert(bytes_of(lines@.push(line)) =~= bytes_of(lines@) + seq![
                        encode_utf8(line@),
                    ]);
                }
                lines.push(line);
                start = i + 1;
            }
            i += 1;
        }
        if start < n {
            let line = String::from_str(part(string, start, n));
            proof {
                let s = all.subrange(start as int, n as int);
                lemma_first_line_feed(s, s.len() as int);
                assert(split_lines(s.subrange(s.len() as int, s.len() as int)) =~= Seq::empty());
                assert(bytes_of(lines@.push(line)) =~= bytes_of(lines@) + seq![encode_utf8(line@)]);
            }
            lines.push(line);
        } else if n == 0 {
            lines.push(String::new());
            proof {
                assert(encode_utf8(Seq::<char>::empty()) =~= Seq::<u8>::empty());
                assert(bytes_of(lines@) =~= empty());
            }
        }
        let text = Text { lines };
        proof {
            text.lemma_wf();
            assert(text@ =~= text_of(all));
        }
        text
    }
}

} // verus!
