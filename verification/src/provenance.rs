//! Where the symbols of a result come from. A text is taken as the row of
//! its symbols, bytes and line breaks; the trail of a script says of each
//! symbol of the result which symbol of the source it is, or that the
//! script put it in. Trails tell scripts apart that results cannot.

use vstd::prelude::*;
use crate::edit::{apply, lemma_apply_is_text, valid, Edit, Script};
use crate::lines::{concat, empty, is_position, is_text, lemma_split, prefix, suffix, Lines};
use crate::measure::Measure;

verus! {

/// A symbol of a result, by where it comes from.
pub enum Item {
    /// The symbol of the source with this number.
    From(int),
    /// A symbol that was put in: a byte, or 256 for a line break.
    Put(int),
}

/// The symbols of a result, each by where it comes from.
pub type Trail = Seq<Item>;

/// The bytes of a line as symbols.
pub open spec fn symbols(line: Seq<u8>) -> Seq<int> {
    Seq::new(line.len(), |k: int| line[k] as int)
}

/// The symbols of a text: its bytes, with 256 for each line break.
pub open spec fn flat(x: Lines) -> Seq<int>
    decreases x.len(),
{
    if x.len() == 0 {
        Seq::empty()
    } else if x.len() == 1 {
        symbols(x[0])
    } else {
        flat(x.drop_last()) + seq![256int] + symbols(x.last())
    }
}

/// The number of symbols of a text.
pub open spec fn size(x: Lines) -> int {
    flat(x).len() as int
}

/// The `n` symbols of the source from the symbol `i` on.
pub open spec fn kept(i: int, n: int) -> Trail {
    Seq::new(n as nat, |k: int| Item::From(i + k))
}

/// The symbols of the text `x`, put in.
pub open spec fn put(x: Lines) -> Trail {
    Seq::new(flat(x).len(), |k: int| Item::Put(flat(x)[k]))
}

/// The trail of the script on the text `t`, whose first symbol is the
/// symbol `i` of the source.
pub open spec fn trail(ops: Script, t: Lines, i: int) -> Trail
    decreases ops.len(),
{
    if ops.len() == 0 {
        kept(i, size(t))
    } else {
        match ops[0] {
            Edit::Delete(l) => trail(ops.drop_first(), suffix(t, l), i + size(prefix(t, l))),
            Edit::Retain(l) => kept(i, size(prefix(t, l))) + trail(
                ops.drop_first(),
                suffix(t, l),
                i + size(prefix(t, l)),
            ),
            Edit::Insert(x) => put(x) + trail(ops.drop_first(), t, i),
        }
    }
}

/// The trail `second`, which speaks of the symbols of a text with the trail
/// `first`, in terms of the source of `first`.
pub open spec fn through(first: Trail, second: Trail) -> Trail {
    Seq::new(
        second.len(),
        |k: int|
            match second[k] {
                Item::From(j) => first[j],
                Item::Put(s) => Item::Put(s),
            },
    )
}

/// Every symbol of the source that the trail speaks of has a number from
/// `low` on and below `high`.
pub open spec fn in_scope(trail: Trail, low: int, high: int) -> bool {
    forall|k: int|
        0 <= k < trail.len() ==> (#[trigger] trail[k] matches Item::From(j) ==> low <= j < high)
}

/// The symbols of two joined texts are the symbols of the first followed by
/// the symbols of the second.
pub proof fn lemma_flat_concat(a: Lines, b: Lines)
    requires
        a.len() >= 1,
        b.len() >= 1,
    ensures
        flat(concat(a, b)) == flat(a) + flat(b),
        size(concat(a, b)) == size(a) + size(b),
        put(concat(a, b)) == put(a) + put(b),
    decreases b.len(),
{
    let c = concat(a, b);
    if b.len() == 1 {
        assert(c =~= a.drop_last().push(a.last() + b[0]));
        assert(symbols(a.last() + b[0]) =~= symbols(a.last()) + symbols(b[0]));
        if a.len() == 1 {
            assert(flat(c) =~= flat(a) + flat(b));
        } else {
            assert(c.drop_last() =~= a.drop_last());
            assert(flat(c) =~= flat(a) + flat(b));
        }
    } else {
        lemma_flat_concat(a, b.drop_last());
        assert(c.drop_last() =~= concat(a, b.drop_last()));
        assert(c.last() == b.last());
        assert(flat(c) =~= flat(a) + flat(b));
    }
    assert(put(c) =~= put(a) + put(b));
}

/// The text that holds nothing has no symbol, and it alone.
pub proof fn lemma_size_zero(x: Lines)
    requires
        x.len() >= 1,
    ensures
        size(x) >= 0,
        size(x) == 0 <==> x == empty(),
        size(empty()) == 0,
{
    assert(flat(empty()) =~= Seq::<int>::empty());
    if x.len() == 1 {
        if size(x) == 0 {
            assert(x =~~= empty());
        }
    }
}

/// Cutting a text at a position parts its symbols.
pub proof fn lemma_size_split(t: Lines, p: Measure)
    requires
        is_text(t),
        is_position(t, p),
    ensures
        size(t) == size(prefix(t, p)) + size(suffix(t, p)),
        size(prefix(t, p)) >= 0,
        size(suffix(t, p)) >= 0,
        size(prefix(t, p)) == 0 <==> p == Measure::zero(),
{
    lemma_split(t, p);
    lemma_flat_concat(prefix(t, p), suffix(t, p));
    lemma_size_zero(prefix(t, p));
    lemma_size_zero(suffix(t, p));
    if p == Measure::zero() {
        crate::lines::lemma_cut_at_ends(t);
    }
}

/// Keeping symbols in two steps is keeping them in one.
pub proof fn lemma_kept_add(i: int, n: int, m: int)
    requires
        n >= 0,
        m >= 0,
    ensures
        kept(i, n + m) == kept(i, n) + kept(i + n, m),
{
    assert(kept(i, n + m) =~= kept(i, n) + kept(i + n, m));
}

/// A trail of two parts is taken through another part by part.
pub proof fn lemma_through_add(first: Trail, x: Trail, y: Trail)
    ensures
        through(first, x + y) == through(first, x) + through(first, y),
{
    assert(through(first, x + y) =~= through(first, x) + through(first, y));
}

/// Symbols that are kept stand for what the other trail has in their
/// places; symbols that are put in stay as they are.
pub proof fn lemma_through_kept(first: Trail, j: int, n: int)
    requires
        0 <= j,
        0 <= n,
        j + n <= first.len(),
    ensures
        through(first, kept(j, n)) == first.subrange(j, j + n),
{
    assert(through(first, kept(j, n)) =~= first.subrange(j, j + n));
}

/// Symbols that are put in stay as they are.
pub proof fn lemma_through_put(first: Trail, x: Lines)
    ensures
        through(first, put(x)) == put(x),
{
    assert(through(first, put(x)) =~= put(x));
}

/// Taking a trail through two others, one after the other, is taking it
/// through the second of them taken through the first.
pub proof fn lemma_through_assoc(a: Trail, b: Trail, c: Trail)
    requires
        in_scope(c, 0, b.len() as int),
    ensures
        through(through(a, b), c) == through(a, through(b, c)),
{
    assert forall|k: int| 0 <= k < c.len() implies through(through(a, b), c)[k] == through(
        a,
        through(b, c),
    )[k] by {
        match c[k] {
            Item::From(j) => {
                assert(0 <= j < b.len());
            },
            Item::Put(s) => {},
        }
    }
    assert(through(through(a, b), c) =~= through(a, through(b, c)));
}

/// The trail of a script has a symbol for each symbol of the result, and
/// speaks of the source from its first symbol on only.
pub proof fn lemma_trail(ops: Script, t: Lines, i: int)
    requires
        is_text(t),
        valid(ops, t),
    ensures
        trail(ops, t, i).len() == size(apply(ops, t)),
        in_scope(trail(ops, t, i), i, i + size(t)),
    decreases ops.len(),
{
    lemma_size_zero(t);
    if ops.len() > 0 {
        let r = ops.drop_first();
        match ops[0] {
            Edit::Delete(l) => {
                lemma_split(t, l);
                lemma_size_split(t, l);
                lemma_trail(r, suffix(t, l), i + size(prefix(t, l)));
            },
            Edit::Retain(l) => {
                lemma_split(t, l);
                lemma_size_split(t, l);
                lemma_trail(r, suffix(t, l), i + size(prefix(t, l)));
                lemma_apply_is_text(r, suffix(t, l));
                lemma_flat_concat(prefix(t, l), apply(r, suffix(t, l)));
            },
            Edit::Insert(x) => {
                lemma_trail(r, t, i);
                lemma_apply_is_text(r, t);
                lemma_flat_concat(x, apply(r, t));
            },
        }
    }
}

} // verus!
