//! Composing in a chain: the trail of a composed script is the trail of the
//! second script taken through the trail of the first.

use vstd::prelude::*;
use crate::edit::{apply, lemma_apply_is_text, meet, merge, rest_of, valid, Edit, Script};
use crate::lines::{concat, is_text, lemma_concat, prefix, suffix, Lines};
use crate::measure::Measure;
use crate::merging::{
    behind, front, lemma_first, lemma_shape_equal, lemma_shape_longer, lemma_shape_shorter,
};
use crate::provenance::{
    kept, lemma_flat_concat, lemma_kept_add, lemma_size_split, lemma_size_zero, lemma_through_add,
    lemma_through_kept, lemma_through_put, lemma_trail, put, size, through, trail, Trail,
};

verus! {

/// The trail `part` stands in the trail `whole` from the place `j` on.
pub open spec fn sits(part: Trail, whole: Trail, j: int) -> bool {
    &&& 0 <= j
    &&& j + part.len() <= whole.len()
    &&& whole.subrange(j, j + part.len()) == part
}

/// Where a trail of two parts stands, its second part stands behind its
/// first.
proof fn lemma_sits_add(head: Trail, tail: Trail, whole: Trail, j: int)
    requires
        sits(head + tail, whole, j),
    ensures
        sits(head, whole, j),
        sits(tail, whole, j + head.len()),
{
    let n = head.len() as int;
    assert(whole.subrange(j, j + n) =~= (head + tail).subrange(0, n));
    assert((head + tail).subrange(0, n) =~= head);
    assert(whole.subrange(j + n, j + n + tail.len()) =~= (head + tail).subrange(
        n,
        n + tail.len(),
    ));
    assert((head + tail).subrange(n, n + tail.len()) =~= tail);
}

/// The number of the source symbol at which the operations after the
/// first begin, where the script begins at the symbol `i`.
pub open spec fn beyond(e: Edit, t: Lines, i: int) -> int {
    if e is Insert {
        i
    } else {
        i + size(prefix(t, e.length()))
    }
}

/// The trail of a script, by its first operation.
proof fn lemma_trail_first(ops: Script, t: Lines, i: int)
    requires
        is_text(t),
        valid(ops, t),
        ops.len() > 0,
    ensures
        ({
            let n = size(front(ops[0], t));
            let used = if ops[0] is Insert {
                0
            } else {
                size(prefix(t, ops[0].length()))
            };
            let head = if ops[0] is Retain {
                kept(i, n)
            } else {
                put(front(ops[0], t))
            };
            &&& n >= 0
            &&& used >= 0
            &&& head.len() == n
            &&& trail(ops, t, i) == head + trail(ops.drop_first(), behind(ops[0], t), i + used)
        }),
{
    lemma_first(ops, t);
    lemma_size_zero(front(ops[0], t));
    if !(ops[0] is Insert) {
        lemma_size_split(t, ops[0].length());
    }
    if ops[0] is Delete {
        let rest = trail(ops.drop_first(), behind(ops[0], t), i + size(prefix(t, ops[0].length())));
        assert(put(front(ops[0], t)) + rest =~= rest);
    }
}

/// The trail of the operations `m` with what `first` and `second` come to
/// over `l` before them.
proof fn lemma_meet_trail(first: Edit, second: Edit, l: Measure, m: Script, t: Lines, i: int)
    requires
        is_text(t),
        !(first is Delete),
        !(second is Insert),
    ensures
        trail(meet(first, second, l) + m, t, i) == if first is Retain {
            if second is Retain {
                kept(i, size(prefix(t, l))) + trail(m, suffix(t, l), i + size(prefix(t, l)))
            } else {
                trail(m, suffix(t, l), i + size(prefix(t, l)))
            }
        } else {
            if second is Retain {
                put(prefix(first.content(), l)) + trail(m, t, i)
            } else {
                trail(m, t, i)
            }
        },
{
    let whole = meet(first, second, l) + m;
    if first is Insert && second is Delete {
        assert(whole =~= m);
    } else {
        assert(whole.drop_first() =~= m);
        assert(whole[0] == meet(first, second, l)[0]);
    }
}

/// The trail of a script on a text, placed in another trail, is the trail
/// of the script on the text where that trail has the text's symbols.
proof fn lemma_trail_placed(b: Script, t: Lines, i: int, x: Trail, j: int)
    requires
        is_text(t),
        valid(b, t),
        sits(kept(i, size(t)), x, j),
    ensures
        trail(b, t, i) == through(x, trail(b, t, j)),
    decreases b.len(),
{
    lemma_size_zero(t);
    if b.len() == 0 {
        lemma_through_kept(x, j, size(t));
    } else {
        let r = b.drop_first();
        lemma_first(b, t);
        match b[0] {
            Edit::Insert(z) => {
                lemma_trail_placed(r, t, i, x, j);
                lemma_through_add(x, put(z), trail(r, t, j));
                lemma_through_put(x, z);
            },
            _ => {
                let l = b[0].length();
                let n = size(prefix(t, l));
                let t1 = suffix(t, l);
                lemma_size_split(t, l);
                lemma_kept_add(i, n, size(t1));
                lemma_sits_add(kept(i, n), kept(i + n, size(t1)), x, j);
                lemma_trail_placed(r, t1, i + n, x, j + n);
                if b[0] is Retain {
                    lemma_through_add(x, kept(j, n), trail(r, t1, j + n));
                    lemma_through_kept(x, j, n);
                }
            },
        }
    }
}

/// Trails where the first operations of both scripts have the same length.
proof fn lemma_trail_equal(a: Script, b: Script, t: Lines, i: int, x: Trail, j: int)
    requires
        is_text(t),
        valid(a, t),
        valid(b, apply(a, t)),
        a.len() > 0,
        b.len() > 0,
        !(a[0] is Delete),
        !(b[0] is Insert),
        a[0].length() == b[0].length(),
        sits(trail(a, t, i), x, j),
    ensures
        ({
            let t0 = behind(a[0], t);
            let n = size(front(a[0], t));
            let i0 = beyond(a[0], t, i);
            let m = merge(a.drop_first(), b.drop_first());
            &&& sits(trail(a.drop_first(), t0, i0), x, j + n)
            &&& trail(m, t0, i0) == through(
                x,
                trail(b.drop_first(), apply(a.drop_first(), t0), j + n),
            ) ==> trail(merge(a, b), t, i) == through(x, trail(b, apply(a, t), j))
        }),
{
    let l = a[0].length();
    let h = front(a[0], t);
    let t0 = behind(a[0], t);
    let u = apply(a.drop_first(), t0);
    let n = size(h);
    let i0 = beyond(a[0], t, i);
    let m = merge(a.drop_first(), b.drop_first());
    let head = if a[0] is Retain {
        kept(i, n)
    } else {
        put(h)
    };
    let rest = trail(b.drop_first(), u, j + n);
    lemma_shape_equal(a, b, t);
    lemma_trail_first(a, t, i);
    lemma_sits_add(head, trail(a.drop_first(), t0, i0), x, j);
    lemma_concat(h, u);
    lemma_trail_first(b, concat(h, u), j);
    if trail(m, t0, i0) == through(x, rest) {
        lemma_meet_trail(a[0], b[0], l, m, t, i);
        if b[0] is Retain {
            lemma_through_add(x, kept(j, n), rest);
            lemma_through_kept(x, j, n);
        }
    }
}

/// Trails where the first operation of the first script is the shorter.
proof fn lemma_trail_shorter(a: Script, b: Script, t: Lines, i: int, x: Trail, j: int)
    requires
        is_text(t),
        valid(a, t),
        valid(b, apply(a, t)),
        a.len() > 0,
        b.len() > 0,
        !(a[0] is Delete),
        !(b[0] is Insert),
        a[0].length().lt(b[0].length()),
        sits(trail(a, t, i), x, j),
    ensures
        ({
            let t0 = behind(a[0], t);
            let n = size(front(a[0], t));
            let i0 = beyond(a[0], t, i);
            let b1 = seq![rest_of(b[0], a[0].length())] + b.drop_first();
            let m = merge(a.drop_first(), b1);
            &&& sits(trail(a.drop_first(), t0, i0), x, j + n)
            &&& trail(m, t0, i0) == through(x, trail(b1, apply(a.drop_first(), t0), j + n))
                ==> trail(merge(a, b), t, i) == through(x, trail(b, apply(a, t), j))
        }),
{
    let la = a[0].length();
    let lb = b[0].length();
    let d = lb.minus(la);
    let h = front(a[0], t);
    let t0 = behind(a[0], t);
    let u = apply(a.drop_first(), t0);
    let n = size(h);
    let n1 = size(prefix(u, d));
    let i0 = beyond(a[0], t, i);
    let b1 = seq![rest_of(b[0], la)] + b.drop_first();
    let m = merge(a.drop_first(), b1);
    let head = if a[0] is Retain {
        kept(i, n)
    } else {
        put(h)
    };
    let rest = trail(b.drop_first(), suffix(u, d), j + n + n1);
    lemma_shape_shorter(a, b, t);
    lemma_trail_first(a, t, i);
    lemma_sits_add(head, trail(a.drop_first(), t0, i0), x, j);
    lemma_concat(h, u);
    lemma_trail_first(b, concat(h, u), j);
    lemma_trail_first(b1, u, j + n);
    lemma_flat_concat(h, prefix(u, d));
    lemma_size_split(u, d);
    lemma_trail(a.drop_first(), t0, i0);
    if trail(m, t0, i0) == through(x, trail(b1, u, j + n)) {
        lemma_meet_trail(a[0], b[0], la, m, t, i);
        if b[0] is Retain {
            lemma_kept_add(j, n, n1);
            lemma_through_add(x, kept(j, n + n1), rest);
            lemma_through_add(x, kept(j, n), kept(j + n, n1));
            lemma_through_add(x, kept(j + n, n1), rest);
            lemma_through_kept(x, j, n);
        }
    }
}

/// Trails where the first operation of the second script is the shorter.
proof fn lemma_trail_longer(a: Script, b: Script, t: Lines, i: int, x: Trail, j: int)
    requires
        is_text(t),
        valid(a, t),
        valid(b, apply(a, t)),
        a.len() > 0,
        b.len() > 0,
        !(a[0] is Delete),
        !(b[0] is Insert),
        b[0].length().lt(a[0].length()),
        sits(trail(a, t, i), x, j),
    ensures
        ({
            let lb = b[0].length();
            let a1 = seq![rest_of(a[0], lb)] + a.drop_first();
            let t1 = if a[0] is Retain {
                suffix(t, lb)
            } else {
                t
            };
            let n1 = size(prefix(front(a[0], t), lb));
            let i1 = if a[0] is Retain {
                i + n1
            } else {
                i
            };
            let m = merge(a1, b.drop_first());
            &&& sits(trail(a1, t1, i1), x, j + n1)
            &&& trail(m, t1, i1) == through(x, trail(b.drop_first(), apply(a1, t1), j + n1))
                ==> trail(merge(a, b), t, i) == through(x, trail(b, apply(a, t), j))
        }),
{
    let lb = b[0].length();
    let h = front(a[0], t);
    let t0 = behind(a[0], t);
    let u = apply(a.drop_first(), t0);
    let h1 = prefix(h, lb);
    let h2 = suffix(h, lb);
    let n1 = size(h1);
    let n2 = size(h2);
    let i0 = beyond(a[0], t, i);
    let a1 = seq![rest_of(a[0], lb)] + a.drop_first();
    let t1 = if a[0] is Retain {
        suffix(t, lb)
    } else {
        t
    };
    let i1 = if a[0] is Retain {
        i + n1
    } else {
        i
    };
    let m = merge(a1, b.drop_first());
    let first = if a[0] is Retain {
        kept(i, n1)
    } else {
        put(h1)
    };
    let second = if a[0] is Retain {
        kept(i + n1, n2)
    } else {
        put(h2)
    };
    let tail = trail(a.drop_first(), t0, i0);
    let rest = trail(b.drop_first(), concat(h2, u), j + n1);
    lemma_shape_longer(a, b, t);
    lemma_trail_first(a, t, i);
    lemma_trail_first(a1, t1, i1);
    lemma_flat_concat(h1, h2);
    lemma_size_zero(h1);
    lemma_size_zero(h2);
    if a[0] is Retain {
        lemma_kept_add(i, n1, n2);
    }
    assert(trail(a1, t1, i1) == second + tail);
    assert(trail(a, t, i) =~= first + (second + tail));
    lemma_sits_add(first, second + tail, x, j);
    lemma_concat(h, u);
    lemma_trail_first(b, concat(h, u), j);
    if trail(m, t1, i1) == through(x, rest) {
        lemma_meet_trail(a[0], b[0], lb, m, t, i);
        if b[0] is Retain {
            lemma_through_add(x, kept(j, n1), rest);
            lemma_through_kept(x, j, n1);
        }
    }
}

/// The trail of two merged scripts is the trail of the second, taken
/// through a trail in which the trail of the first stands at the place
/// where the second begins.
pub proof fn lemma_merge_trail(a: Script, b: Script, t: Lines, i: int, x: Trail, j: int)
    requires
        is_text(t),
        valid(a, t),
        valid(b, apply(a, t)),
        sits(trail(a, t, i), x, j),
    ensures
        trail(merge(a, b), t, i) == through(x, trail(b, apply(a, t), j)),
    decreases a.len() + b.len(),
{
    if a.len() == 0 {
        lemma_trail_placed(b, t, i, x, j);
    } else if a[0] is Delete {
        let m = merge(a.drop_first(), b);
        lemma_first(a, t);
        lemma_size_split(t, a[0].length());
        lemma_merge_trail(a.drop_first(), b, behind(a[0], t), beyond(a[0], t, i), x, j);
        let whole = seq![a[0]] + m;
        assert(whole[0] == a[0]);
        assert(whole.drop_first() =~= m);
    } else if b.len() == 0 {
        lemma_trail(a, t, i);
        lemma_through_kept(x, j, size(apply(a, t)));
    } else if b[0] is Insert {
        let m = merge(a, b.drop_first());
        lemma_apply_is_text(a, t);
        lemma_first(b, apply(a, t));
        lemma_merge_trail(a, b.drop_first(), t, i, x, j);
        let whole = seq![b[0]] + m;
        assert(whole[0] == b[0]);
        assert(whole.drop_first() =~= m);
        lemma_through_add(x, put(b[0].content()), trail(b.drop_first(), apply(a, t), j));
        lemma_through_put(x, b[0].content());
    } else if a[0].length() == b[0].length() {
        lemma_trail_equal(a, b, t, i, x, j);
        lemma_shape_equal(a, b, t);
        lemma_merge_trail(
            a.drop_first(),
            b.drop_first(),
            behind(a[0], t),
            beyond(a[0], t, i),
            x,
            j + size(front(a[0], t)),
        );
    } else if a[0].length().lt(b[0].length()) {
        lemma_trail_shorter(a, b, t, i, x, j);
        lemma_shape_shorter(a, b, t);
        lemma_merge_trail(
            a.drop_first(),
            seq![rest_of(b[0], a[0].length())] + b.drop_first(),
            behind(a[0], t),
            beyond(a[0], t, i),
            x,
            j + size(front(a[0], t)),
        );
    } else {
        lemma_trail_longer(a, b, t, i, x, j);
        lemma_shape_longer(a, b, t);
        let lb = b[0].length();
        let n1 = size(prefix(front(a[0], t), lb));
        let t1 = if a[0] is Retain {
            suffix(t, lb)
        } else {
            t
        };
        let i1 = if a[0] is Retain {
            i + n1
        } else {
            i
        };
        lemma_merge_trail(
            seq![rest_of(a[0], lb)] + a.drop_first(),
            b.drop_first(),
            t1,
            i1,
            x,
            j + n1,
        );
    }
}

} // verus!
