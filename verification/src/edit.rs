//! The mathematical model of an edit script: what its operations are, what
//! they do to a text, and how scripts are brought into canonical form,
//! inverted and composed.

use vstd::prelude::*;
use crate::lines::{concat, empty, extent, is_bounded, is_position, is_text, prefix, suffix, Lines};
use crate::measure::Measure;

verus! {

/// One operation of an edit script, read against the text that has not been
/// consumed yet.
pub enum Edit {
    /// Drop what lies before the position.
    Delete(Measure),
    /// Keep what lies before the position.
    Retain(Measure),
    /// Put in new content.
    Insert(Lines),
}

/// An edit script: operations to be carried out from the start of a text on.
pub type Script = Seq<Edit>;

impl Edit {
    /// The length of text that the operation speaks of: what it keeps, what
    /// it drops, or what it puts in.
    pub open spec fn length(self) -> Measure {
        match self {
            Edit::Delete(l) => l,
            Edit::Retain(l) => l,
            Edit::Insert(x) => extent(x),
        }
    }

    /// What the operation puts in: nothing, unless it is an insertion.
    pub open spec fn content(self) -> Lines {
        match self {
            Edit::Insert(x) => x,
            _ => empty(),
        }
    }

    /// A length is a distance forward, and what is put in is a text.
    pub open spec fn wf(self) -> bool {
        match self {
            Edit::Delete(l) => l.nonneg(),
            Edit::Retain(l) => l.nonneg(),
            Edit::Insert(x) => is_text(x),
        }
    }

    /// The operation can be held in the machine: its length fits, or the
    /// text that it puts in is within the limits.
    pub open spec fn fits(self) -> bool {
        match self {
            Edit::Delete(l) => l.fits(),
            Edit::Retain(l) => l.fits(),
            Edit::Insert(x) => is_text(x) && is_bounded(x),
        }
    }

    /// The operation does nothing at all.
    pub open spec fn is_idle(self) -> bool {
        match self {
            Edit::Delete(l) => l == Measure::zero(),
            Edit::Retain(l) => l == Measure::zero(),
            Edit::Insert(x) => x == empty(),
        }
    }

    /// In a canonical script `next` may come directly after `self`: it is of
    /// another kind, and it is not a deletion after an insertion.
    pub open spec fn admits(self, next: Edit) -> bool {
        match self {
            Edit::Delete(_) => !(next is Delete),
            Edit::Retain(_) => !(next is Retain),
            Edit::Insert(_) => next is Retain,
        }
    }
}

/// Every operation of the script is well-formed.
pub open spec fn is_script(ops: Script) -> bool {
    forall|i: int| 0 <= i < ops.len() ==> (#[trigger] ops[i]).wf()
}

/// Every operation of the script can be held in the machine.
pub open spec fn all_fit(ops: Script) -> bool {
    forall|i: int| 0 <= i < ops.len() ==> (#[trigger] ops[i]).fits()
}

/// Every length that the script keeps or drops can be held in the machine.
pub open spec fn lengths_fit(ops: Script) -> bool {
    forall|i: int| 0 <= i < ops.len() && !(#[trigger] ops[i] is Insert) ==> ops[i].length().fits()
}

/// The script can be carried out on `t`: every length that it keeps or drops
/// ends at a position of what is left of `t`. What lies after its last
/// operation is kept.
pub open spec fn valid(ops: Script, t: Lines) -> bool
    decreases ops.len(),
{
    if ops.len() == 0 {
        true
    } else {
        match ops[0] {
            Edit::Delete(l) => is_position(t, l) && valid(ops.drop_first(), suffix(t, l)),
            Edit::Retain(l) => is_position(t, l) && valid(ops.drop_first(), suffix(t, l)),
            Edit::Insert(x) => is_text(x) && valid(ops.drop_first(), t),
        }
    }
}

/// The text that results from carrying the script out on `t`.
pub open spec fn apply(ops: Script, t: Lines) -> Lines
    decreases ops.len(),
{
    if ops.len() == 0 {
        t
    } else {
        match ops[0] {
            Edit::Delete(l) => apply(ops.drop_first(), suffix(t, l)),
            Edit::Retain(l) => concat(prefix(t, l), apply(ops.drop_first(), suffix(t, l))),
            Edit::Insert(x) => concat(x, apply(ops.drop_first(), t)),
        }
    }
}

/// The script with a retention of `l` added at its end: nothing for an
/// empty length; a retention at the end grows by `l`.
pub open spec fn push_retain(ops: Script, l: Measure) -> Script {
    if l == Measure::zero() {
        ops
    } else if ops.len() > 0 && ops.last() is Retain {
        ops.drop_last().push(Edit::Retain(ops.last().length().plus(l)))
    } else {
        ops.push(Edit::Retain(l))
    }
}

/// The script with a deletion of `l` added at its end: nothing for an empty
/// length; a deletion at the end grows by `l`, and so does one that is
/// followed by the last insertion only; before a last insertion with no
/// deletion in front of it, the deletion is put in.
pub open spec fn push_delete(ops: Script, l: Measure) -> Script {
    let n = ops.len() as int;
    if l == Measure::zero() {
        ops
    } else if n > 0 && ops[n - 1] is Delete {
        ops.update(n - 1, Edit::Delete(ops[n - 1].length().plus(l)))
    } else if n > 1 && ops[n - 2] is Delete && ops[n - 1] is Insert {
        ops.update(n - 2, Edit::Delete(ops[n - 2].length().plus(l)))
    } else if n > 0 && ops[n - 1] is Insert {
        ops.drop_last().push(Edit::Delete(l)).push(ops[n - 1])
    } else {
        ops.push(Edit::Delete(l))
    }
}

/// The script with an insertion of `x` added at its end: nothing for an
/// empty text; an insertion at the end is continued by `x`.
pub open spec fn push_insert(ops: Script, x: Lines) -> Script {
    if x == empty() {
        ops
    } else if ops.len() > 0 && ops.last() is Insert {
        ops.drop_last().push(Edit::Insert(concat(ops.last().content(), x)))
    } else {
        ops.push(Edit::Insert(x))
    }
}

/// The script with `e` added at its end, by the rule for its kind.
pub open spec fn push(ops: Script, e: Edit) -> Script {
    match e {
        Edit::Delete(l) => push_delete(ops, l),
        Edit::Retain(l) => push_retain(ops, l),
        Edit::Insert(x) => push_insert(ops, x),
    }
}

/// The script without the retention at its end, if it has one there.
pub open spec fn finished(ops: Script) -> Script {
    if ops.len() > 0 && ops.last() is Retain {
        ops.drop_last()
    } else {
        ops
    }
}

/// The canonical form of `raw`, short of finishing it: its operations added
/// one after another to the empty script.
pub open spec fn canonical(raw: Script) -> Script
    decreases raw.len(),
{
    if raw.len() == 0 {
        Seq::empty()
    } else {
        push(canonical(raw.drop_last()), raw.last())
    }
}

/// No operation does nothing, no two of a kind are neighbours, and no
/// deletion comes directly after an insertion.
pub open spec fn is_canonical(ops: Script) -> bool {
    &&& forall|i: int| 0 <= i < ops.len() ==> (#[trigger] ops[i]).wf() && !ops[i].is_idle()
    &&& forall|i: int| 0 <= i < ops.len() - 1 ==> (#[trigger] ops[i]).admits(ops[i + 1])
}

/// The script is canonical and does not end in a retention.
pub open spec fn is_finished(ops: Script) -> bool {
    is_canonical(ops) && !(ops.len() > 0 && ops.last() is Retain)
}

/// The script that undoes `ops`, which is carried out on `t`: what was kept
/// is kept, what was put in is dropped, and what was dropped is put in
/// again, taken from `t`.
pub open spec fn inverse(ops: Script, t: Lines) -> Script
    decreases ops.len(),
{
    if ops.len() == 0 {
        Seq::empty()
    } else {
        match ops[0] {
            Edit::Delete(l) => seq![Edit::Insert(prefix(t, l))] + inverse(
                ops.drop_first(),
                suffix(t, l),
            ),
            Edit::Retain(l) => seq![Edit::Retain(l)] + inverse(ops.drop_first(), suffix(t, l)),
            Edit::Insert(x) => seq![Edit::Delete(extent(x))] + inverse(ops.drop_first(), t),
        }
    }
}

/// The finished canonical script that undoes `ops` on `t`.
pub open spec fn inverted(ops: Script, t: Lines) -> Script {
    finished(canonical(inverse(ops, t)))
}

/// What is left of the operation `e` after the length `l` of it is used up.
pub open spec fn rest_of(e: Edit, l: Measure) -> Edit {
    match e {
        Edit::Delete(m) => Edit::Delete(m.minus(l)),
        Edit::Retain(m) => Edit::Retain(m.minus(l)),
        Edit::Insert(x) => Edit::Insert(suffix(x, l)),
    }
}

/// What the first script's operation `first`, met by the second script's
/// operation `second`, comes to over the length `l`, which neither exceeds:
/// what both keep is kept, what the second drops of what the first keeps is
/// dropped, what the second keeps of what the first puts in is put in, and
/// what the second drops of it never appears.
pub open spec fn meet(first: Edit, second: Edit, l: Measure) -> Script {
    match (first, second) {
        (Edit::Retain(_), Edit::Retain(_)) => seq![Edit::Retain(l)],
        (Edit::Retain(_), Edit::Delete(_)) => seq![Edit::Delete(l)],
        (Edit::Insert(x), Edit::Retain(_)) => seq![Edit::Insert(prefix(x, l))],
        _ => Seq::empty(),
    }
}

/// The operations of `a` and of `b`, which is carried out on the result of
/// `a`, merged into one script on the text that `a` is carried out on. What
/// `a` drops never reaches `b`, and what `b` puts in was never in `a`: both
/// pass. Otherwise the shorter of the two first operations is used up, and
/// as much of the other.
pub open spec fn merge(a: Script, b: Script) -> Script
    decreases a.len() + b.len(),
{
    if a.len() == 0 {
        b
    } else if a[0] is Delete {
        seq![a[0]] + merge(a.drop_first(), b)
    } else if b.len() == 0 {
        a
    } else if b[0] is Insert {
        seq![b[0]] + merge(a, b.drop_first())
    } else if a[0].length() == b[0].length() {
        meet(a[0], b[0], a[0].length()) + merge(a.drop_first(), b.drop_first())
    } else if a[0].length().lt(b[0].length()) {
        meet(a[0], b[0], a[0].length()) + merge(
            a.drop_first(),
            seq![rest_of(b[0], a[0].length())] + b.drop_first(),
        )
    } else {
        meet(a[0], b[0], b[0].length()) + merge(
            seq![rest_of(a[0], b[0].length())] + a.drop_first(),
            b.drop_first(),
        )
    }
}

/// Wherever `b` uses up only a part of a text that `a` puts in, that part
/// ends at a position of the text.
pub open spec fn cuts_well(a: Script, b: Script) -> bool
    decreases a.len() + b.len(),
{
    if a.len() == 0 || b.len() == 0 {
        true
    } else if a[0] is Delete {
        cuts_well(a.drop_first(), b)
    } else if b[0] is Insert {
        cuts_well(a, b.drop_first())
    } else if a[0].length() == b[0].length() {
        cuts_well(a.drop_first(), b.drop_first())
    } else if a[0].length().lt(b[0].length()) {
        cuts_well(a.drop_first(), seq![rest_of(b[0], a[0].length())] + b.drop_first())
    } else {
        &&& a[0] is Insert ==> is_position(a[0].content(), b[0].length())
        &&& cuts_well(seq![rest_of(a[0], b[0].length())] + a.drop_first(), b.drop_first())
    }
}

/// `b` can be merged into `a`: it cuts the texts that `a` puts in at their
/// positions only, and the machine can hold the lengths of the canonical
/// form of the merged script at each step of its making.
pub open spec fn composable(a: Script, b: Script) -> bool {
    &&& cuts_well(a, b)
    &&& forall|k: int|
        0 <= k <= merge(a, b).len() ==> lengths_fit(canonical(#[trigger] merge(a, b).take(k)))
}

/// The finished canonical script that does at once what `a` and then `b` do.
pub open spec fn composed(a: Script, b: Script) -> Script {
    finished(canonical(merge(a, b)))
}

/// Joining a text that holds something to another gives a text that holds
/// something.
pub proof fn lemma_concat_not_empty(a: Lines, b: Lines)
    requires
        is_text(a),
        is_text(b),
        concat(a, b) == empty(),
    ensures
        a == empty(),
        b == empty(),
{
    assert(concat(a, b).len() == a.len() + b.len() - 1);
    assert(concat(a, b)[0] == a[0] + b[0]);
    assert(a[0].len() == 0 && b[0].len() == 0);
    assert(a =~~= empty());
    assert(b =~~= empty());
}

/// Adding a well-formed operation to a canonical script gives a canonical
/// script.
pub proof fn lemma_push_canonical(ops: Script, e: Edit)
    requires
        is_canonical(ops),
        e.wf(),
    ensures
        is_canonical(push(ops, e)),
{
    let n = ops.len() as int;
    let r = push(ops, e);
    if e.is_idle() {
    } else {
        match e {
            Edit::Insert(x) => {
                if n > 0 && ops.last() is Insert {
                    crate::lines::lemma_concat(ops.last().content(), x);
                    if concat(ops.last().content(), x) == empty() {
                        lemma_concat_not_empty(ops.last().content(), x);
                    }
                    assert forall|i: int| 0 <= i < r.len() - 1 implies (#[trigger] r[i]).admits(
                        r[i + 1],
                    ) by {
                        assert(r[i] == ops[i]);
                        assert(ops[i].admits(ops[i + 1]));
                    }
                } else {
                    assert forall|i: int| 0 <= i < r.len() - 1 implies (#[trigger] r[i]).admits(
                        r[i + 1],
                    ) by {
                        assert(r[i] == ops[i]);
                        if i < n - 1 {
                            assert(ops[i].admits(ops[i + 1]));
                        }
                    }
                }
            },
            Edit::Retain(l) => {
                assert forall|i: int| 0 <= i < r.len() - 1 implies (#[trigger] r[i]).admits(
                    r[i + 1],
                ) by {
                    assert(r[i] == ops[i]);
                    if i < n - 1 {
                        assert(ops[i].admits(ops[i + 1]));
                    }
                }
            },
            Edit::Delete(l) => {
                assert forall|i: int| 0 <= i < r.len() - 1 implies (#[trigger] r[i]).admits(
                    r[i + 1],
                ) by {
                    if i < n - 1 {
                        assert(ops[i].admits(ops[i + 1]));
                    }
                    if 0 < i && i - 1 < n - 1 {
                        assert(ops[i - 1].admits(ops[i]));
                    }
                }
                assert forall|i: int| 0 <= i < r.len() implies (#[trigger] r[i]).wf()
                    && !r[i].is_idle() by {
                    if i < n {
                        assert(ops[i].wf() && !ops[i].is_idle());
                    }
                    if 0 < i {
                        assert(ops[i - 1].wf() && !ops[i - 1].is_idle());
                    }
                }
            },
        }
    }
}

/// The canonical form of a well-formed script is canonical.
pub proof fn lemma_canonical(raw: Script)
    requires
        is_script(raw),
    ensures
        is_canonical(canonical(raw)),
    decreases raw.len(),
{
    if raw.len() > 0 {
        lemma_canonical(raw.drop_last());
        lemma_push_canonical(canonical(raw.drop_last()), raw.last());
    }
}

/// Finishing a canonical script gives a finished one.
pub proof fn lemma_finished(ops: Script)
    requires
        is_canonical(ops),
    ensures
        is_finished(finished(ops)),
{
    let n = ops.len() as int;
    if n > 0 && ops.last() is Retain {
        let r = finished(ops);
        assert forall|i: int| 0 <= i < r.len() - 1 implies (#[trigger] r[i]).admits(r[i + 1]) by {
            assert(ops[i].admits(ops[i + 1]));
        }
        if n > 1 {
            assert(ops[n - 2].admits(ops[n - 1]));
        }
    }
}

/// Carrying a script out on a text gives a text.
pub proof fn lemma_apply_is_text(ops: Script, t: Lines)
    requires
        is_text(t),
        valid(ops, t),
    ensures
        is_text(apply(ops, t)),
    decreases ops.len(),
{
    if ops.len() > 0 {
        match ops[0] {
            Edit::Delete(l) => {
                crate::lines::lemma_split(t, l);
                lemma_apply_is_text(ops.drop_first(), suffix(t, l));
            },
            Edit::Retain(l) => {
                crate::lines::lemma_split(t, l);
                lemma_apply_is_text(ops.drop_first(), suffix(t, l));
                crate::lines::lemma_concat(prefix(t, l), apply(ops.drop_first(), suffix(t, l)));
            },
            Edit::Insert(x) => {
                lemma_apply_is_text(ops.drop_first(), t);
                crate::lines::lemma_concat(x, apply(ops.drop_first(), t));
            },
        }
    }
}

/// Merging no operations into a script leaves the script as it is.
pub proof fn lemma_merge_nothing(a: Script)
    ensures
        merge(a, Script::empty()) == a,
        merge(Script::empty(), a) == a,
    decreases a.len(),
{
    if a.len() > 0 {
        lemma_merge_nothing(a.drop_first());
        assert(seq![a[0]] + a.drop_first() =~= a);
    }
}

/// Where the machine can hold the lengths of the canonical form of every
/// beginning of `all`, it can hold those that come of adding the operation
/// that follows the beginning `raw`.
pub proof fn lemma_next_fits(all: Script, raw: Script, e: Edit, tail: Script)
    requires
        all == raw + (seq![e] + tail),
        forall|k: int| 0 <= k <= all.len() ==> lengths_fit(canonical(#[trigger] all.take(k))),
    ensures
        all == raw.push(e) + tail,
        canonical(raw.push(e)) == push(canonical(raw), e),
        lengths_fit(push(canonical(raw), e)),
{
    assert(all =~= raw.push(e) + tail);
    assert(raw.push(e).drop_last() =~= raw);
    assert(all.take(raw.len() as int + 1) =~= raw.push(e));
}

} // verus!
