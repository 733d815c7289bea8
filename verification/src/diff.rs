//! Edit scripts: the operations they are made of, the builder that keeps
//! them in canonical form, and inverting and composing them.

use vstd::prelude::*;
use crate::edit::{
    all_fit, canonical, composable, composed, cuts_well, finished, inverse, inverted, is_canonical,
    is_finished, lemma_finished, lemma_merge_nothing, lemma_next_fits, lemma_push_canonical,
    lengths_fit, merge, push, push_delete, push_insert, push_retain, rest_of, valid, Edit, Script,
};
use crate::length::Length;
use crate::lines::{
    empty, is_position, lemma_position_right, lemma_slice, lemma_split, prefix, suffix,
};
use crate::measure::{lemma_minus_plus, Measure};
use crate::point::Point;
use crate::range::Range;
use crate::text::Text;
use std::ops::AddAssign;

verus! {

/// One operation of an edit script.
#[derive(Debug, Hash)]
pub enum Operation {
    /// Remove the given length of the text.
    Delete(Length),
    /// Pass over the given length of the text.
    Retain(Length),
    /// Put in the given text.
    Insert(Text),
}

impl View for Operation {
    type V = Edit;

    open spec fn view(&self) -> Edit {
        match *self {
            Operation::Delete(length) => Edit::Delete(length@),
            Operation::Retain(length) => Edit::Retain(length@),
            Operation::Insert(text) => Edit::Insert(text@),
        }
    }
}

impl Operation {
    /// A text that is put in is well-formed.
    pub open spec fn wf(&self) -> bool {
        self@.fits()
    }
}

impl Clone for Operation {
    fn clone(&self) -> (operation: Self)
        ensures
            operation@ == self@,
    {
        match self {
            Operation::Delete(length) => Operation::Delete(*length),
            Operation::Retain(length) => Operation::Retain(*length),
            Operation::Insert(text) => Operation::Insert(text.clone()),
        }
    }
}

impl PartialEq for Operation {
    fn eq(&self, other: &Self) -> (equal: bool) {
        match (self, other) {
            (Operation::Delete(length), Operation::Delete(other_length)) => *length
                == *other_length,
            (Operation::Retain(length), Operation::Retain(other_length)) => *length
                == *other_length,
            (Operation::Insert(text), Operation::Insert(other_text)) => text == other_text,
            _ => false,
        }
    }
}

impl vstd::std_specs::cmp::PartialEqSpecImpl for Operation {
    open spec fn obeys_eq_spec() -> bool {
        true
    }

    /// Two operations are equal if they are of one kind and have the same
    /// length or the same text.
    open spec fn eq_spec(&self, other: &Self) -> bool {
        self@ == other@
    }
}

impl Eq for Operation {

}

/// Whether the two lists hold equal operations in the same order.
fn same_operations(left: &Vec<Operation>, right: &Vec<Operation>) -> (same: bool)
    ensures
        same == (script_of(left@) == script_of(right@)),
{
    if left.len() != right.len() {
        assert(script_of(left@).len() != script_of(right@).len());
        return false;
    }
    let mut i: usize = 0;
    while i < left.len()
        invariant
            i <= left@.len() == right@.len(),
            forall|j: int| 0 <= j < i ==> left@[j]@ == right@[j]@,
        decreases left.len() - i,
    {
        if !(left[i] == right[i]) {
            assert(script_of(left@)[i as int] != script_of(right@)[i as int]);
            return false;
        }
        i += 1;
    }
    assert(script_of(left@) =~= script_of(right@));
    true
}

/// The model of each of the operations `ops`.
pub open spec fn script_of(ops: Seq<Operation>) -> Script {
    Seq::new(ops.len(), |i: int| ops[i]@)
}

/// Builds an edit script operation by operation, keeping it in canonical
/// form.
#[derive(Debug)]
pub struct Builder {
    operations: Vec<Operation>,
}

impl View for Builder {
    type V = Script;

    closed spec fn view(&self) -> Script {
        script_of(self.operations@)
    }
}

impl Builder {
    /// The script built so far is canonical, and the machine can hold it.
    pub open spec fn wf(&self) -> bool {
        is_canonical(self@) && all_fit(self@)
    }

    /// A builder that holds the empty script.
    pub fn new() -> (builder: Self)
        ensures
            builder@ == Script::empty(),
            builder.wf(),
    {
        let builder = Builder { operations: Vec::new() };
        assert(builder@ =~= Script::empty());
        builder
    }

    /// Adds the removal of `length`. Removing nothing adds nothing. After a
    /// removal the two become one, also where one insertion stands between
    /// them; after an insertion with no removal before it, the removal is
    /// put before the insertion.
    pub fn delete(&mut self, length: Length)
        requires
            old(self).wf(),
            lengths_fit(push_delete(old(self)@, length@)),
        ensures
            final(self)@ == push_delete(old(self)@, length@),
            final(self).wf(),
    {
        proof {
            lemma_push_canonical(self@, Edit::Delete(length@));
        }
        if length == Length::default() {
            return ;
        }
        let n = self.operations.len();
        let ghost before = self@;
        if n >= 1 {
            match &self.operations[n - 1] {
                Operation::Delete(last_length) => {
                    assert(before[n - 1] == Edit::Delete(last_length@));
                    assert(push_delete(before, length@)[n - 1].length().fits());
                    let sum = *last_length + length;
                    self.operations.set(n - 1, Operation::Delete(sum));
                    assert(self@ =~= push_delete(before, length@));
                    return ;
                },
                Operation::Insert(_) => {
                    assert(before[n - 1] is Insert);
                    if n >= 2 {
                        if let Operation::Delete(second_last_length) = &self.operations[n - 2] {
                            assert(before[n - 2] == Edit::Delete(second_last_length@));
                            assert(push_delete(before, length@)[n - 2].length().fits());
                            let sum = *second_last_length + length;
                            self.operations.set(n - 2, Operation::Delete(sum));
                            assert(self@ =~= push_delete(before, length@));
                            return ;
                        }
                        assert(!(before[n - 2] is Delete));
                    }
                    let last = self.operations.pop().unwrap();
                    self.operations.push(Operation::Delete(length));
                    self.operations.push(last);
                    assert(self@ =~= push_delete(before, length@));
                    return ;
                },
                _ => {
                    assert(before[n - 1] is Retain);
                },
            }
        }
        self.operations.push(Operation::Delete(length));
        assert(self@ =~= push_delete(before, length@));
    }

    /// Adds passing over `length`. Passing over nothing adds nothing; after
    /// another passing over, the two become one.
    pub fn retain(&mut self, length: Length)
        requires
            old(self).wf(),
            lengths_fit(push_retain(old(self)@, length@)),
        ensures
            final(self)@ == push_retain(old(self)@, length@),
            final(self).wf(),
    {
        proof {
            lemma_push_canonical(self@, Edit::Retain(length@));
        }
        if length == Length::default() {
            return ;
        }
        let n = self.operations.len();
        let ghost before = self@;
        if n >= 1 {
            if let Operation::Retain(last_length) = &self.operations[n - 1] {
                assert(before[n - 1] == Edit::Retain(last_length@));
                assert(push_retain(before, length@)[n - 1].length().fits());
                let sum = *last_length + length;
                self.operations.set(n - 1, Operation::Retain(sum));
                assert(self@ =~= push_retain(before, length@));
                return ;
            }
            assert(!(before[n - 1] is Retain));
        }
        self.operations.push(Operation::Retain(length));
        assert(self@ =~= push_retain(before, length@));
    }

    /// Adds putting in `text`. Putting in nothing adds nothing; after
    /// another insertion, `text` continues the text of that insertion.
    pub fn insert(&mut self, text: Text)
        requires
            old(self).wf(),
            text.wf(),
        ensures
            final(self)@ == push_insert(old(self)@, text@),
            final(self).wf(),
    {
        proof {
            lemma_push_canonical(self@, Edit::Insert(text@));
        }
        if text.is_empty() {
            return ;
        }
        let ghost before = self@;
        let n = self.operations.len();
        if n >= 1 {
            assert(before[n - 1].fits());
            let last = self.operations.pop().unwrap();
            match last {
                Operation::Insert(mut last_text) => {
                    last_text.add_assign(text);
                    self.operations.push(Operation::Insert(last_text));
                    assert(self@ =~= push_insert(before, text@));
                    return ;
                },
                _ => {
                    self.operations.push(last);
                    assert(self.operations@ =~= old(self).operations@);
                },
            }
        }
        self.operations.push(Operation::Insert(text));
        assert(self@ =~= push_insert(before, text@));
    }

    /// Adds `operation`, by the rule for its kind.
    fn push(&mut self, operation: Operation)
        requires
            old(self).wf(),
            operation.wf(),
            lengths_fit(push(old(self)@, operation@)),
        ensures
            final(self)@ == push(old(self)@, operation@),
            final(self).wf(),
    {
        match operation {
            Operation::Delete(length) => self.delete(length),
            Operation::Retain(length) => self.retain(length),
            Operation::Insert(text) => self.insert(text),
        }
    }

    /// The finished script: the one built, without a last operation that
    /// only passes over text.
    pub fn finish(self) -> (diff: Diff)
        requires
            self.wf(),
        ensures
            diff@ == finished(self@),
            diff.wf(),
    {
        let mut operations = self.operations;
        let n = operations.len();
        proof {
            lemma_finished(self@);
        }
        if n >= 1 {
            if let Operation::Retain(_) = &operations[n - 1] {
                assert(self@[n - 1] is Retain);
                operations.pop();
            } else {
                assert(!(self@[n - 1] is Retain));
            }
        }
        let diff = Diff { operations };
        assert(diff@ =~= finished(self@));
        diff
    }
}

impl Default for Builder {
    fn default() -> (builder: Self)
        ensures
            builder@ == Script::empty(),
            builder.wf(),
    {
        Builder::new()
    }
}

impl Clone for Builder {
    fn clone(&self) -> (builder: Self)
        ensures
            builder@ == self@,
    {
        Builder { operations: clone_operations(&self.operations) }
    }
}

/// A copy of each of the operations.
fn clone_operations(operations: &Vec<Operation>) -> (copy: Vec<Operation>)
    ensures
        script_of(copy@) == script_of(operations@),
{
    let mut copy: Vec<Operation> = Vec::new();
    let mut i: usize = 0;
    while i < operations.len()
        invariant
            i <= operations.len(),
            copy@.len() == i,
            forall|j: int| 0 <= j < i ==> (#[trigger] copy@[j])@ == operations@[j]@,
        decreases operations.len() - i,
    {
        copy.push(operations[i].clone());
        i += 1;
    }
    assert(script_of(copy@) =~= script_of(operations@));
    copy
}

/// An edit script: what to pass over, what to remove and what to put in,
/// from the start of a text on, in canonical form.
#[derive(Debug, Hash)]
pub struct Diff {
    operations: Vec<Operation>,
}

impl View for Diff {
    type V = Script;

    closed spec fn view(&self) -> Script {
        script_of(self.operations@)
    }
}

impl Diff {
    /// The script is finished, and the machine can hold it.
    pub open spec fn wf(&self) -> bool {
        is_finished(self@) && all_fit(self@)
    }

    /// The script that changes nothing.
    pub fn new() -> (diff: Self)
        ensures
            diff@ == Script::empty(),
            diff.wf(),
    {
        let diff = Diff { operations: Vec::new() };
        assert(diff@ =~= Script::empty());
        diff
    }

    /// Whether the script has no operation.
    pub fn is_empty(&self) -> (is_empty: bool)
        ensures
            is_empty == (self@.len() == 0),
    {
        self.operations.is_empty()
    }

    /// The number of operations.
    pub fn len(&self) -> (len: usize)
        ensures
            len == self@.len(),
    {
        self.operations.len()
    }

    /// The operations of the script, from the first on.
    pub fn iter(&self) -> (iter: Iter<'_>)
        ensures
            iter@ == self@,
            self.wf() ==> iter.wf(),
    {
        let iter = Iter { operations: self.operations.as_slice(), position: 0 };
        assert(iter.operations@.subrange(0, iter.operations@.len() as int) =~= self.operations@);
        iter
    }

    /// The operations of the script, from the first on, handed out one by
    /// one.
    pub fn into_iter(self) -> (iter: IntoIter)
        ensures
            iter@ == self@,
            self.wf() ==> iter.wf(),
    {
        let mut operations = self.operations;
        let mut reversed: Vec<Operation> = Vec::new();
        let ghost all = operations@;
        while operations.len() > 0
            invariant
                reversed@.len() + operations@.len() == all.len(),
                forall|j: int| 0 <= j < operations@.len() ==> operations@[j] == all[j],
                forall|j: int|
                    0 <= j < reversed@.len() ==> reversed@[j] == all[all.len() - 1 - j],
            decreases operations.len(),
        {
            let operation = operations.pop().unwrap();
            reversed.push(operation);
        }
        assert(all =~= reversed@.reverse());
        IntoIter { reversed }
    }
}

/// How a builder that inverts a finished script ends after the operation
/// `last` of that script: in a retention after a retention, in an insertion
/// with no deletion before it after a deletion, and not in a retention
/// after an insertion.
spec fn ends_like(built: Script, last: Edit) -> bool {
    let n = built.len() as int;
    match last {
        Edit::Retain(_) => n > 0 && built[n - 1] is Retain,
        Edit::Delete(_) => n > 0 && built[n - 1] is Insert && (n > 1 ==> !(built[n - 2] is Delete)),
        Edit::Insert(_) => n > 0 && !(built[n - 1] is Retain),
    }
}

/// The operation that undoes an operation of the kind of `e` is of the
/// kind of `undo`.
spec fn undoes(undo: Edit, e: Edit) -> bool {
    match e {
        Edit::Retain(_) => undo is Retain,
        Edit::Delete(_) => undo is Insert,
        Edit::Insert(_) => undo is Delete,
    }
}

/// Inverting a finished script never makes two operations into one: the
/// operation that undoes the operation `k` of the script is put at the end
/// of what was built, or before a last insertion.
proof fn lemma_invert_push(all: Script, k: int, built: Script, undo: Edit)
    requires
        is_finished(all),
        0 <= k < all.len(),
        all_fit(built),
        k == 0 ==> built.len() == 0,
        k > 0 ==> ends_like(built, all[k - 1]),
        undoes(undo, all[k]),
        undo.fits(),
        !undo.is_idle(),
    ensures
        all_fit(push(built, undo)),
        lengths_fit(push(built, undo)),
        ends_like(push(built, undo), all[k]),
{
    let n = built.len() as int;
    let r = push(built, undo);
    if k > 0 {
        assert(all[k - 1].admits(all[k]));
    }
    if undo is Delete && n > 0 && built[n - 1] is Insert {
        assert(r =~= built.drop_last().push(undo).push(built[n - 1]));
        assert forall|i: int| 0 <= i < r.len() implies (#[trigger] r[i]).fits() by {
            if i < n - 1 {
                assert(r[i] == built[i]);
            }
        }
    } else {
        assert(r =~= built.push(undo));
        assert forall|i: int| 0 <= i < r.len() implies (#[trigger] r[i]).fits() by {
            if i < n {
                assert(r[i] == built[i]);
            }
        }
    }
    assert forall|i: int| 0 <= i < r.len() && !(#[trigger] r[i] is Insert) implies r[i].length()
        .fits() by {
        assert(r[i].fits());
    }
}

/// The canonical form of a script with one more operation, and the script
/// as the beginning of a longer one.
proof fn lemma_one_more(raw: Script, e: Edit, tail: Script)
    ensures
        canonical(raw.push(e)) == push(canonical(raw), e),
        raw + (seq![e] + tail) == raw.push(e) + tail,
{
    assert(raw.push(e).drop_last() =~= raw);
    assert(raw + (seq![e] + tail) =~= raw.push(e) + tail);
}

impl Diff {
    /// The script that undoes this one, which was made for `text`: carried
    /// out on what this script makes of `text`, it gives `text` again
    /// ([`crate::laws::law_invert_round_trip`]). What this script passes
    /// over is passed over, what it puts in is removed, and what it removes
    /// is put in again, taken from `text`.
    pub fn invert(self, text: &Text) -> (diff: Diff)
        requires
            self.wf(),
            text.wf(),
            valid(self@, text@),
        ensures
            diff.wf(),
            diff@ == inverted(self@, text@),
    {
        let ghost all = self@;
        let ghost mut raw: Script = Seq::empty();
        let ghost mut k: int = 0;
        let mut builder = Builder::new();
        let mut point = Point::default();
        let mut operations = self.into_iter();
        proof {
            crate::lines::lemma_ends_are_positions(text@);
            crate::lines::lemma_cut_at_ends(text@);
            assert(all.subrange(0, all.len() as int) =~= all);
        }
        loop
            invariant
                text.wf(),
                is_finished(all),
                operations.wf(),
                0 <= k <= all.len(),
                operations@ == all.subrange(k, all.len() as int),
                builder.wf(),
                builder@ == canonical(raw),
                is_position(text@, point@),
                valid(operations@, suffix(text@, point@)),
                inverse(all, text@) == raw + inverse(operations@, suffix(text@, point@)),
                k == 0 ==> builder@.len() == 0,
                k > 0 ==> ends_like(builder@, all[k - 1]),
            ensures
                builder.wf(),
                builder@ == canonical(inverse(all, text@)),
            decreases operations@.len(),
        {
            let ghost ops = operations@;
            let ghost rest = suffix(text@, point@);
            proof {
                lemma_split(text@, point@);
                if k < all.len() {
                    assert(ops[0] == all[k]);
                    assert(all[k].wf() && !all[k].is_idle());
                    assert(ops.drop_first() =~= all.subrange(k + 1, all.len() as int));
                }
            }
            match operations.next() {
                None => {
                    assert(raw + Script::empty() =~= raw);
                    break ;
                },
                Some(Operation::Retain(length)) => {
                    proof {
                        let undo = Edit::Retain(length@);
                        lemma_position_right(prefix(text@, point@), rest, length@);
                        assert(text@[point@.plus(length@).lines].len() <= usize::MAX);
                        lemma_invert_push(all, k, builder@, undo);
                        lemma_one_more(raw, undo, inverse(ops.drop_first(), suffix(rest, length@)));
                        raw = raw.push(undo);
                        k = k + 1;
                    }
                    builder.retain(length);
                    point = point + length;
                },
                Some(Operation::Insert(inserted)) => {
                    assert(ops[0].fits());
                    let length = inserted.length();
                    proof {
                        let undo = Edit::Delete(length@);
                        if length@ == Measure::zero() {
                            assert(inserted@ =~~= empty());
                        }
                        lemma_invert_push(all, k, builder@, undo);
                        lemma_one_more(raw, undo, inverse(ops.drop_first(), rest));
                        raw = raw.push(undo);
                        k = k + 1;
                    }
                    builder.delete(length);
                },
                Some(Operation::Delete(length)) => {
                    proof {
                        lemma_position_right(prefix(text@, point@), rest, length@);
                        lemma_minus_plus(point@, length@);
                        assert(text@[point@.plus(length@).lines].len() <= usize::MAX);
                        lemma_slice(text@, point@, point@.plus(length@));
                    }
                    let next_point = point + length;
                    let removed = text.slice(Range::new(point, next_point));
                    proof {
                        let undo = Edit::Insert(removed@);
                        assert(removed@ == prefix(rest, length@));
                        assert(removed@ != empty());
                        lemma_invert_push(all, k, builder@, undo);
                        lemma_one_more(raw, undo, inverse(ops.drop_first(), suffix(rest, length@)));
                        raw = raw.push(undo);
                        k = k + 1;
                    }
                    builder.insert(removed);
                    point = next_point;
                },
            }
        }
        builder.finish()
    }
}

/// The operations that are still to be merged: the one in hand, if there
/// is one, and those that have not been taken up yet.
spec fn pending(head: Option<Operation>, rest: Script) -> Script {
    match head {
        Some(operation) => seq![operation@] + rest,
        None => rest,
    }
}

impl Diff {
    /// The script that does at once what this script and then `other` do,
    /// where `other` was made for the text that this script results in. The
    /// two scripts are merged from their starts on: of the two operations at
    /// hand the shorter is used up, and as much of the other, and what the
    /// two come to over that length is added to the result.
    ///
    /// `other` has to be mergeable into this script, which it is whenever it
    /// can be carried out on the result of this script on a text within the
    /// machine's limits ([`crate::laws::law_composable`]). The result then
    /// does on that text what the two do in turn
    /// ([`crate::laws::law_compose`]).
    #[verifier::rlimit(30)]
    pub fn compose(self, other: Self) -> (diff: Self)
        requires
            self.wf(),
            other.wf(),
            composable(self@, other@),
        ensures
            diff.wf(),
            diff@ == composed(self@, other@),
    {
        let ghost all = merge(self@, other@);
        let ghost mut raw: Script = Seq::empty();
        let mut builder = Builder::new();
        let mut rest_0 = self.into_iter();
        let mut rest_1 = other.into_iter();
        proof {
            if self@.len() > 0 {
                assert(seq![self@[0]] + self@.drop_first() =~= self@);
            }
            if other@.len() > 0 {
                assert(seq![other@[0]] + other@.drop_first() =~= other@);
            }
            assert(raw + all =~= all);
        }
        let mut head_0 = rest_0.next();
        let mut head_1 = rest_1.next();
        loop
            invariant
                rest_0.wf(),
                rest_1.wf(),
                head_0 is Some ==> head_0->0.wf(),
                head_1 is Some ==> head_1->0.wf(),
                head_0 is None ==> rest_0@.len() == 0,
                head_1 is None ==> rest_1@.len() == 0,
                builder.wf(),
                builder@ == canonical(raw),
                all == raw + merge(pending(head_0, rest_0@), pending(head_1, rest_1@)),
                cuts_well(pending(head_0, rest_0@), pending(head_1, rest_1@)),
                forall|k: int|
                    0 <= k <= all.len() ==> lengths_fit(canonical(#[trigger] all.take(k))),
            ensures
                builder.wf(),
                builder@ == canonical(all),
            decreases pending(head_0, rest_0@).len() + pending(head_1, rest_1@).len(),
        {
            let ghost a = pending(head_0, rest_0@);
            let ghost b = pending(head_1, rest_1@);
            let ghost ra = rest_0@;
            let ghost rb = rest_1@;
            proof {
                if head_0 is Some {
                    assert(a.drop_first() =~= ra);
                }
                if head_1 is Some {
                    assert(b.drop_first() =~= rb);
                }
                lemma_merge_nothing(a);
                lemma_merge_nothing(b);
                lemma_merge_nothing(ra);
                lemma_merge_nothing(rb);
                if ra.len() > 0 {
                    assert(seq![ra[0]] + ra.drop_first() =~= ra);
                }
                if rb.len() > 0 {
                    assert(seq![rb[0]] + rb.drop_first() =~= rb);
                }
            }
            match head_0 {
                None => {
                    match head_1 {
                        None => {
                            assert(raw + Script::empty() =~= raw);
                            break ;
                        },
                        Some(operation) => {
                            proof {
                                lemma_next_fits(all, raw, operation@, rb);
                                raw = raw.push(operation@);
                            }
                            builder.push(operation);
                            head_0 = None;
                            head_1 = rest_1.next();
                        },
                    }
                },
                Some(Operation::Delete(length)) => {
                    proof {
                        lemma_next_fits(all, raw, Edit::Delete(length@), merge(ra, b));
                        raw = raw.push(Edit::Delete(length@));
                    }
                    builder.delete(length);
                    head_0 = rest_0.next();
                },
                Some(Operation::Retain(length_0)) => {
                    match head_1 {
                        None => {
                            proof {
                                lemma_next_fits(all, raw, Edit::Retain(length_0@), ra);
                                raw = raw.push(Edit::Retain(length_0@));
                            }
                            builder.retain(length_0);
                            head_0 = rest_0.next();
                            head_1 = None;
                        },
                        Some(Operation::Insert(text)) => {
                            proof {
                                lemma_next_fits(all, raw, Edit::Insert(text@), merge(a, rb));
                                raw = raw.push(Edit::Insert(text@));
                            }
                            builder.insert(text);
                            head_0 = Some(Operation::Retain(length_0));
                            head_1 = rest_1.next();
                        },
                        Some(Operation::Retain(length_1)) => {
                            if length_0 == length_1 {
                                proof {
                                    lemma_next_fits(
                                        all,
                                        raw,
                                        Edit::Retain(length_0@),
                                        merge(ra, rb),
                                    );
                                    raw = raw.push(Edit::Retain(length_0@));
                                }
                                builder.retain(length_0);
                                head_0 = rest_0.next();
                                head_1 = rest_1.next();
                            } else if length_0 < length_1 {
                                proof {
                                    lemma_next_fits(
                                        all,
                                        raw,
                                        Edit::Retain(length_0@),
                                        merge(ra, seq![rest_of(b[0], length_0@)] + rb),
                                    );
                                    raw = raw.push(Edit::Retain(length_0@));
                                }
                                builder.retain(length_0);
                                head_0 = rest_0.next();
                                head_1 = Some(Operation::Retain(length_1 - length_0));
                            } else {
                                proof {
                                    lemma_next_fits(
                                        all,
                                        raw,
                                        Edit::Retain(length_1@),
                                        merge(seq![rest_of(a[0], length_1@)] + ra, rb),
                                    );
                                    raw = raw.push(Edit::Retain(length_1@));
                                }
                                builder.retain(length_1);
                                head_0 = Some(Operation::Retain(length_0 - length_1));
                                head_1 = rest_1.next();
                            }
                        },
                        Some(Operation::Delete(length_1)) => {
                            if length_0 == length_1 {
                                proof {
                                    lemma_next_fits(
                                        all,
                                        raw,
                                        Edit::Delete(length_0@),
                                        merge(ra, rb),
                                    );
                                    raw = raw.push(Edit::Delete(length_0@));
                                }
                                builder.delete(length_0);
                                head_0 = rest_0.next();
                                head_1 = rest_1.next();
                            } else if length_0 < length_1 {
                                proof {
                                    lemma_next_fits(
                                        all,
                                        raw,
                                        Edit::Delete(length_0@),
                                        merge(ra, seq![rest_of(b[0], length_0@)] + rb),
                                    );
                                    raw = raw.push(Edit::Delete(length_0@));
                                }
                                builder.delete(length_0);
                                head_0 = rest_0.next();
                                head_1 = Some(Operation::Delete(length_1 - length_0));
                            } else {
                                proof {
                                    lemma_next_fits(
                                        all,
                                        raw,
                                        Edit::Delete(length_1@),
                                        merge(seq![rest_of(a[0], length_1@)] + ra, rb),
                                    );
                                    raw = raw.push(Edit::Delete(length_1@));
                                }
                                builder.delete(length_1);
                                head_0 = Some(Operation::Retain(length_0 - length_1));
                                head_1 = rest_1.next();
                            }
                        },
                    }
                },
                Some(Operation::Insert(text_0)) => {
                    let mut text_0 = text_0;
                    match head_1 {
                        None => {
                            proof {
                                lemma_next_fits(all, raw, Edit::Insert(text_0@), ra);
                                raw = raw.push(Edit::Insert(text_0@));
                            }
                            builder.insert(text_0);
                            head_0 = rest_0.next();
                            head_1 = None;
                        },
                        Some(Operation::Insert(text_1)) => {
                            proof {
                                lemma_next_fits(all, raw, Edit::Insert(text_1@), merge(a, rb));
                                raw = raw.push(Edit::Insert(text_1@));
                            }
                            builder.insert(text_1);
                            head_0 = Some(Operation::Insert(text_0));
                            head_1 = rest_1.next();
                        },
                        Some(Operation::Retain(length_1)) => {
                            let length_0 = text_0.length();
                            proof {
                                crate::lines::lemma_cut_at_ends(text_0@);
                            }
                            if length_0 == length_1 {
                                proof {
                                    lemma_next_fits(
                                        all,
                                        raw,
                                        Edit::Insert(text_0@),
                                        merge(ra, rb),
                                    );
                                    raw = raw.push(Edit::Insert(text_0@));
                                }
                                builder.insert(text_0);
                                head_0 = rest_0.next();
                                head_1 = rest_1.next();
                            } else if length_0 < length_1 {
                                proof {
                                    lemma_next_fits(
                                        all,
                                        raw,
                                        Edit::Insert(text_0@),
                                        merge(ra, seq![rest_of(b[0], length_0@)] + rb),
                                    );
                                    raw = raw.push(Edit::Insert(text_0@));
                                }
                                builder.insert(text_0);
                                head_0 = rest_0.next();
                                head_1 = Some(Operation::Retain(length_1 - length_0));
                            } else {
                                let taken = text_0.take(length_1);
                                proof {
                                    lemma_next_fits(
                                        all,
                                        raw,
                                        Edit::Insert(taken@),
                                        merge(seq![rest_of(a[0], length_1@)] + ra, rb),
                                    );
                                    raw = raw.push(Edit::Insert(taken@));
                                }
                                builder.insert(taken);
                                head_0 = Some(Operation::Insert(text_0));
                                head_1 = rest_1.next();
                            }
                        },
                        Some(Operation::Delete(length_1)) => {
                            let length_0 = text_0.length();
                            if length_0 == length_1 {
                                proof {
                                    assert(Script::empty() + merge(ra, rb) =~= merge(ra, rb));
                                }
                                head_0 = rest_0.next();
                                head_1 = rest_1.next();
                            } else if length_0 < length_1 {
                                proof {
                                    let tail = merge(ra, seq![rest_of(b[0], length_0@)] + rb);
                                    assert(Script::empty() + tail =~= tail);
                                }
                                head_0 = rest_0.next();
                                head_1 = Some(Operation::Delete(length_1 - length_0));
                            } else {
                                proof {
                                    let tail = merge(seq![rest_of(a[0], length_1@)] + ra, rb);
                                    assert(Script::empty() + tail =~= tail);
                                }
                                text_0.skip(length_1);
                                head_0 = Some(Operation::Insert(text_0));
                                head_1 = rest_1.next();
                            }
                        },
                    }
                },
            }
        }
        builder.finish()
    }
}

impl Default for Diff {
    fn default() -> (diff: Self)
        ensures
            diff@ == Script::empty(),
            diff.wf(),
    {
        Diff::new()
    }
}

impl PartialEq for Diff {
    fn eq(&self, other: &Self) -> (equal: bool) {
        same_operations(&self.operations, &other.operations)
    }
}

impl vstd::std_specs::cmp::PartialEqSpecImpl for Diff {
    open spec fn obeys_eq_spec() -> bool {
        true
    }

    /// Two scripts are equal if they hold the same operations in the same
    /// order.
    open spec fn eq_spec(&self, other: &Self) -> bool {
        self@ == other@
    }
}

impl Eq for Diff {

}

impl Clone for Diff {
    fn clone(&self) -> (diff: Self)
        ensures
            diff@ == self@,
    {
        Diff { operations: clone_operations(&self.operations) }
    }
}

/// Walks over the operations of a script.
#[derive(Debug)]
pub struct Iter<'a> {
    operations: &'a [Operation],
    position: usize,
}

impl<'a> Clone for Iter<'a> {
    fn clone(&self) -> (iter: Self)
        ensures
            iter@ == self@,
            self.wf() ==> iter.wf(),
    {
        Iter { operations: self.operations, position: self.position }
    }
}

impl<'a> View for Iter<'a> {
    type V = Script;

    /// The operations that are still to come.
    closed spec fn view(&self) -> Script {
        if self.position <= self.operations@.len() {
            script_of(
                self.operations@.subrange(self.position as int, self.operations@.len() as int),
            )
        } else {
            Script::empty()
        }
    }
}

impl<'a> Iter<'a> {
    /// The machine can hold what is still to come.
    pub open spec fn wf(&self) -> bool {
        all_fit(self@)
    }

    /// The next operation, if there is one.
    pub fn next(&mut self) -> (next: Option<&'a Operation>)
        ensures
            old(self)@.len() == 0 ==> next is None && final(self)@ == old(self)@,
            old(self)@.len() > 0 ==> next is Some && next->0@ == old(self)@[0] && final(self)@
                == old(self)@.drop_first(),
            old(self).wf() ==> final(self).wf() && (next is Some ==> next->0.wf()),
    {
        if self.position < self.operations.len() {
            let operation = &self.operations[self.position];
            self.position = self.position + 1;
            assert(self@ =~= old(self)@.drop_first());
            proof {
                if old(self).wf() {
                    assert(old(self)@[0].fits());
                    assert forall|i: int| 0 <= i < self@.len() implies (#[trigger] self@[i]).fits() by {
                        assert(self@[i] == old(self)@[i + 1]);
                    }
                }
            }
            Some(operation)
        } else {
            None
        }
    }
}

/// Hands out the operations of a script.
#[derive(Debug)]
pub struct IntoIter {
    reversed: Vec<Operation>,
}

impl Clone for IntoIter {
    fn clone(&self) -> (iter: Self)
        ensures
            iter@ == self@,
    {
        let reversed = clone_operations(&self.reversed);
        proof {
            assert(script_of(reversed@.reverse()) =~= script_of(self.reversed@.reverse())) by {
                assert(reversed@.len() == script_of(reversed@).len());
                assert(self.reversed@.len() == script_of(self.reversed@).len());
                assert forall|i: int| 0 <= i < reversed@.len() implies #[trigger] reversed@.reverse()[i]@
                    == self.reversed@.reverse()[i]@ by {
                    let j = reversed@.len() - 1 - i;
                    assert(script_of(reversed@)[j] == script_of(self.reversed@)[j]);
                }
            }
        }
        IntoIter { reversed }
    }
}

impl View for IntoIter {
    type V = Script;

    /// The operations that are still to come.
    closed spec fn view(&self) -> Script {
        script_of(self.reversed@.reverse())
    }
}

impl IntoIter {
    /// The machine can hold what is still to come.
    pub open spec fn wf(&self) -> bool {
        all_fit(self@)
    }

    /// The next operation, if there is one.
    pub fn next(&mut self) -> (next: Option<Operation>)
        ensures
            old(self)@.len() == 0 ==> next is None && final(self)@ == old(self)@,
            old(self)@.len() > 0 ==> next is Some && next->0@ == old(self)@[0] && final(self)@
                == old(self)@.drop_first(),
            old(self).wf() ==> final(self).wf() && (next is Some ==> next->0.wf()),
    {
        let next = self.reversed.pop();
        assert(self@ =~= if old(self)@.len() > 0 {
            old(self)@.drop_first()
        } else {
            old(self)@
        });
        proof {
            if old(self).wf() && old(self)@.len() > 0 {
                assert(old(self)@[0].fits());
                assert forall|i: int| 0 <= i < self@.len() implies (#[trigger] self@[i]).fits() by {
                    assert(self@[i] == old(self)@[i + 1]);
                }
            }
        }
        next
    }

}

} // verus!
