//! Merging two scripts, of which the second is made for the result of the
//! first: how the first operations of the two cut each other, and that the
//! merged script gives what the two give one after the other.

use vstd::prelude::*;
use crate::edit::{
    apply, cuts_well, is_script, lemma_apply_is_text, lengths_fit, meet, merge, rest_of, valid,
    Edit, Script,
};
use crate::lines::{
    concat, empty, extent, is_bounded, is_position, is_text, lemma_concat, lemma_concat_assoc,
    lemma_concat_empty, lemma_cut_at_ends, lemma_ends_are_positions, lemma_position_left,
    lemma_position_of_concat, lemma_position_right, lemma_split, prefix, suffix, Lines,
};
use crate::measure::{lemma_plus_zero, Measure};

verus! {

/// What the operation `e` puts in front of the result, on the text `t`.
pub open spec fn front(e: Edit, t: Lines) -> Lines {
    match e {
        Edit::Delete(l) => empty(),
        Edit::Retain(l) => prefix(t, l),
        Edit::Insert(x) => x,
    }
}

/// What the operation `e` leaves of the text `t`.
pub open spec fn behind(e: Edit, t: Lines) -> Lines {
    match e {
        Edit::Delete(l) => suffix(t, l),
        Edit::Retain(l) => suffix(t, l),
        Edit::Insert(x) => t,
    }
}

/// The result of a script is what its first operation puts in front,
/// followed by the result of the other operations on what the first leaves.
pub proof fn lemma_first(ops: Script, t: Lines)
    requires
        is_text(t),
        valid(ops, t),
        ops.len() > 0,
    ensures
        is_text(front(ops[0], t)),
        is_text(behind(ops[0], t)),
        valid(ops.drop_first(), behind(ops[0], t)),
        is_text(apply(ops.drop_first(), behind(ops[0], t))),
        apply(ops, t) == concat(front(ops[0], t), apply(ops.drop_first(), behind(ops[0], t))),
        !(ops[0] is Delete) ==> extent(front(ops[0], t)) == ops[0].length(),
        !(ops[0] is Insert) ==> is_position(t, ops[0].length()),
{
    let r = ops.drop_first();
    lemma_concat_empty(t);
    match ops[0] {
        Edit::Delete(l) => {
            lemma_split(t, l);
            lemma_apply_is_text(r, suffix(t, l));
            lemma_concat_empty(apply(r, suffix(t, l)));
        },
        Edit::Retain(l) => {
            lemma_split(t, l);
            lemma_apply_is_text(r, suffix(t, l));
        },
        Edit::Insert(x) => {
            lemma_apply_is_text(r, t);
        },
    }
}

/// A script that can be carried out has well-formed operations only.
pub proof fn lemma_valid_is_script(ops: Script, t: Lines)
    requires
        is_text(t),
        valid(ops, t),
    ensures
        is_script(ops),
    decreases ops.len(),
{
    if ops.len() > 0 {
        lemma_first(ops, t);
        lemma_valid_is_script(ops.drop_first(), behind(ops[0], t));
        assert forall|i: int| 0 <= i < ops.len() implies (#[trigger] ops[i]).wf() by {
            if i > 0 {
                assert(ops[i] == ops.drop_first()[i - 1]);
            }
        }
    }
}

/// The lengths of a script that can be carried out on a text within the
/// machine's limits are within those limits.
pub proof fn lemma_lengths_fit(ops: Script, t: Lines)
    requires
        is_text(t),
        is_bounded(t),
        valid(ops, t),
    ensures
        lengths_fit(ops),
    decreases ops.len(),
{
    if ops.len() > 0 {
        let r = ops.drop_first();
        let t1 = behind(ops[0], t);
        lemma_first(ops, t);
        if !(ops[0] is Insert) {
            let l = ops[0].length();
            assert(t[l.lines].len() <= usize::MAX);
            assert forall|i: int| 0 <= i < t1.len() implies (#[trigger] t1[i]).len()
                <= usize::MAX by {
                assert(t[i + l.lines].len() <= usize::MAX);
            }
        }
        lemma_lengths_fit(r, t1);
        assert forall|i: int| 0 <= i < ops.len() && !(#[trigger] ops[i] is Insert) implies ops[i]
            .length().fits() by {
            if i > 0 {
                assert(ops[i] == r[i - 1]);
            }
        }
    }
}

/// The result of the operations `m` with what `first` and `second` come to
/// over `l` before them.
pub proof fn lemma_meet(first: Edit, second: Edit, l: Measure, m: Script, t: Lines)
    requires
        is_text(t),
        !(first is Delete),
        !(second is Insert),
        first is Retain ==> is_position(t, l),
        first is Insert ==> is_position(first.content(), l) && is_text(first.content()),
        valid(m, if first is Retain {
            suffix(t, l)
        } else {
            t
        }),
    ensures
        valid(meet(first, second, l) + m, t),
        apply(meet(first, second, l) + m, t) == if first is Retain {
            if second is Retain {
                concat(prefix(t, l), apply(m, suffix(t, l)))
            } else {
                apply(m, suffix(t, l))
            }
        } else {
            if second is Retain {
                concat(prefix(first.content(), l), apply(m, t))
            } else {
                apply(m, t)
            }
        },
{
    let whole = meet(first, second, l) + m;
    if first is Insert && second is Delete {
        assert(whole =~= m);
    } else {
        assert(whole.drop_first() =~= m);
        assert(whole[0] == meet(first, second, l)[0]);
        if first is Insert {
            lemma_split(first.content(), l);
        }
    }
}

/// Where the first operations of both scripts have the same length: how
/// the result of the first script is cut by the second.
pub proof fn lemma_shape_equal(a: Script, b: Script, t: Lines)
    requires
        is_text(t),
        valid(a, t),
        valid(b, apply(a, t)),
        a.len() > 0,
        b.len() > 0,
        !(a[0] is Delete),
        !(b[0] is Insert),
        a[0].length() == b[0].length(),
    ensures
        ({
            let l = a[0].length();
            let h = front(a[0], t);
            let t0 = behind(a[0], t);
            let u = apply(a.drop_first(), t0);
            &&& is_text(h)
            &&& is_text(t0)
            &&& is_text(u)
            &&& apply(a, t) == concat(h, u)
            &&& prefix(concat(h, u), l) == h
            &&& suffix(concat(h, u), l) == u
            &&& valid(a.drop_first(), t0)
            &&& valid(b.drop_first(), u)
            &&& a[0] is Insert ==> prefix(h, l) == h
        }),
{
    let l = a[0].length();
    let h = front(a[0], t);
    let t0 = behind(a[0], t);
    let u = apply(a.drop_first(), t0);
    lemma_first(a, t);
    lemma_ends_are_positions(u);
    lemma_cut_at_ends(u);
    lemma_position_right(h, u, Measure::zero());
    lemma_plus_zero(l);
    lemma_concat_empty(h);
    lemma_concat(h, u);
    lemma_first(b, concat(h, u));
    if a[0] is Insert {
        lemma_cut_at_ends(h);
    }
}

/// Where the first operation of the first script is the shorter: how the
/// result of the first script is cut by the second.
pub proof fn lemma_shape_shorter(a: Script, b: Script, t: Lines)
    requires
        is_text(t),
        valid(a, t),
        valid(b, apply(a, t)),
        a.len() > 0,
        b.len() > 0,
        !(a[0] is Delete),
        !(b[0] is Insert),
        a[0].length().lt(b[0].length()),
    ensures
        ({
            let la = a[0].length();
            let lb = b[0].length();
            let d = lb.minus(la);
            let h = front(a[0], t);
            let t0 = behind(a[0], t);
            let u = apply(a.drop_first(), t0);
            let b1 = seq![rest_of(b[0], la)] + b.drop_first();
            &&& is_text(h)
            &&& is_text(t0)
            &&& is_text(u)
            &&& apply(a, t) == concat(h, u)
            &&& is_position(u, d)
            &&& is_text(prefix(u, d))
            &&& prefix(concat(h, u), lb) == concat(h, prefix(u, d))
            &&& suffix(concat(h, u), lb) == suffix(u, d)
            &&& valid(a.drop_first(), t0)
            &&& valid(b1, u)
            &&& b1[0] == rest_of(b[0], la)
            &&& b1.drop_first() == b.drop_first()
            &&& a[0] is Insert ==> prefix(h, la) == h
        }),
{
    let la = a[0].length();
    let lb = b[0].length();
    let d = lb.minus(la);
    let h = front(a[0], t);
    let t0 = behind(a[0], t);
    let u = apply(a.drop_first(), t0);
    let b1 = seq![rest_of(b[0], la)] + b.drop_first();
    lemma_first(a, t);
    lemma_concat(h, u);
    lemma_first(b, concat(h, u));
    lemma_position_of_concat(h, u, lb);
    lemma_position_right(h, u, d);
    assert(b1[0] == rest_of(b[0], la));
    assert(b1.drop_first() =~= b.drop_first());
    lemma_split(u, d);
    if a[0] is Insert {
        lemma_cut_at_ends(h);
    }
}

/// Where the first operation of the second script is the shorter: how the
/// first operation of the first script, and the text it is carried out on,
/// are cut by the second.
pub proof fn lemma_shape_longer(a: Script, b: Script, t: Lines)
    requires
        is_text(t),
        valid(a, t),
        valid(b, apply(a, t)),
        a.len() > 0,
        b.len() > 0,
        !(a[0] is Delete),
        !(b[0] is Insert),
        b[0].length().lt(a[0].length()),
    ensures
        ({
            let lb = b[0].length();
            let h = front(a[0], t);
            let t0 = behind(a[0], t);
            let u = apply(a.drop_first(), t0);
            let h1 = prefix(h, lb);
            let h2 = suffix(h, lb);
            let a1 = seq![rest_of(a[0], lb)] + a.drop_first();
            let t1 = if a[0] is Retain {
                suffix(t, lb)
            } else {
                t
            };
            &&& is_text(h)
            &&& is_text(h1)
            &&& is_text(h2)
            &&& is_text(t0)
            &&& is_text(t1)
            &&& is_text(u)
            &&& concat(h1, h2) == h
            &&& apply(a, t) == concat(h, u)
            &&& prefix(concat(h, u), lb) == h1
            &&& suffix(concat(h, u), lb) == concat(h2, u)
            &&& valid(a1, t1)
            &&& apply(a1, t1) == concat(h2, u)
            &&& valid(b.drop_first(), concat(h2, u))
            &&& a1[0] == rest_of(a[0], lb)
            &&& a1.drop_first() == a.drop_first()
            &&& front(a1[0], t1) == h2
            &&& behind(a1[0], t1) == t0
            &&& a[0] is Retain ==> is_position(t, lb) && prefix(t, lb) == h1
        }),
{
    let la = a[0].length();
    let lb = b[0].length();
    let h = front(a[0], t);
    let t0 = behind(a[0], t);
    let u = apply(a.drop_first(), t0);
    let a1 = seq![rest_of(a[0], lb)] + a.drop_first();
    let t1 = if a[0] is Retain {
        suffix(t, lb)
    } else {
        t
    };
    lemma_first(a, t);
    lemma_concat(h, u);
    lemma_first(b, concat(h, u));
    lemma_position_of_concat(h, u, lb);
    let h1 = prefix(h, lb);
    let h2 = suffix(h, lb);
    lemma_split(h, lb);
    lemma_position_left(h, u, lb);
    assert(a1[0] == rest_of(a[0], lb));
    assert(a1.drop_first() =~= a.drop_first());
    if a[0] is Retain {
        lemma_split(t, la);
        lemma_position_left(h, t0, lb);
        lemma_split(t, lb);
        lemma_position_of_concat(h1, t1, la);
        lemma_position_right(h1, t1, la.minus(lb));
        lemma_ends_are_positions(t0);
        lemma_cut_at_ends(t0);
        lemma_position_right(h2, t0, Measure::zero());
        lemma_plus_zero(extent(h2));
        lemma_concat_empty(h2);
        assert(prefix(t1, la.minus(lb)) == h2);
        assert(suffix(t1, la.minus(lb)) == t0);
    }
    lemma_first(a1, t1);
}

/// Merging where the first operations of both scripts have the same
/// length: what has to hold for the rest holds, and what holds of the
/// merged rest holds of the whole.
pub proof fn lemma_step_equal(a: Script, b: Script, t: Lines)
    requires
        is_text(t),
        valid(a, t),
        valid(b, apply(a, t)),
        a.len() > 0,
        b.len() > 0,
        !(a[0] is Delete),
        !(b[0] is Insert),
        a[0].length() == b[0].length(),
    ensures
        is_text(behind(a[0], t)),
        valid(a.drop_first(), behind(a[0], t)),
        valid(b.drop_first(), apply(a.drop_first(), behind(a[0], t))),
        ({
            let m = merge(a.drop_first(), b.drop_first());
            let t1 = behind(a[0], t);
            valid(m, t1) && apply(m, t1) == apply(b.drop_first(), apply(a.drop_first(), t1))
                ==> valid(merge(a, b), t) && apply(merge(a, b), t) == apply(b, apply(a, t))
        }),
{
    let l = a[0].length();
    let h = front(a[0], t);
    let t1 = behind(a[0], t);
    let u = apply(a.drop_first(), t1);
    let m = merge(a.drop_first(), b.drop_first());
    lemma_shape_equal(a, b, t);
    if valid(m, t1) && apply(m, t1) == apply(b.drop_first(), u) {
        lemma_first(a, t);
        lemma_concat(h, u);
        lemma_first(b, concat(h, u));
        if a[0] is Insert {
            lemma_ends_are_positions(h);
        }
        lemma_meet(a[0], b[0], l, m, t);
        lemma_apply_is_text(b.drop_first(), u);
        lemma_concat_empty(apply(b.drop_first(), u));
    }
}

/// Merging where the first operation of the first script is the shorter.
pub proof fn lemma_step_shorter(a: Script, b: Script, t: Lines)
    requires
        is_text(t),
        valid(a, t),
        valid(b, apply(a, t)),
        a.len() > 0,
        b.len() > 0,
        !(a[0] is Delete),
        !(b[0] is Insert),
        a[0].length().lt(b[0].length()),
    ensures
        is_text(behind(a[0], t)),
        valid(a.drop_first(), behind(a[0], t)),
        valid(
            seq![rest_of(b[0], a[0].length())] + b.drop_first(),
            apply(a.drop_first(), behind(a[0], t)),
        ),
        ({
            let b1 = seq![rest_of(b[0], a[0].length())] + b.drop_first();
            let m = merge(a.drop_first(), b1);
            let t1 = behind(a[0], t);
            valid(m, t1) && apply(m, t1) == apply(b1, apply(a.drop_first(), t1)) ==> valid(
                merge(a, b),
                t,
            ) && apply(merge(a, b), t) == apply(b, apply(a, t))
        }),
{
    let la = a[0].length();
    let d = b[0].length().minus(la);
    let h = front(a[0], t);
    let t1 = behind(a[0], t);
    let u = apply(a.drop_first(), t1);
    let b1 = seq![rest_of(b[0], la)] + b.drop_first();
    let m = merge(a.drop_first(), b1);
    lemma_shape_shorter(a, b, t);
    if valid(m, t1) && apply(m, t1) == apply(b1, u) {
        lemma_first(a, t);
        lemma_concat(h, u);
        lemma_first(b, concat(h, u));
        lemma_first(b1, u);
        if a[0] is Insert {
            lemma_ends_are_positions(h);
        }
        lemma_meet(a[0], b[0], la, m, t);
        let rest = apply(b.drop_first(), suffix(u, d));
        lemma_concat_empty(rest);
        if b[0] is Retain {
            lemma_concat_assoc(h, prefix(u, d), rest);
        }
    }
}

/// Merging where the first operation of the second script is the shorter.
pub proof fn lemma_step_longer(a: Script, b: Script, t: Lines)
    requires
        is_text(t),
        valid(a, t),
        valid(b, apply(a, t)),
        a.len() > 0,
        b.len() > 0,
        !(a[0] is Delete),
        !(b[0] is Insert),
        b[0].length().lt(a[0].length()),
    ensures
        a[0] is Insert ==> is_position(a[0].content(), b[0].length()),
        ({
            let a1 = seq![rest_of(a[0], b[0].length())] + a.drop_first();
            let m = merge(a1, b.drop_first());
            let t1 = if a[0] is Retain {
                suffix(t, b[0].length())
            } else {
                t
            };
            &&& is_text(t1)
            &&& valid(a1, t1)
            &&& valid(b.drop_first(), apply(a1, t1))
            &&& valid(m, t1) && apply(m, t1) == apply(b.drop_first(), apply(a1, t1)) ==> valid(
                merge(a, b),
                t,
            ) && apply(merge(a, b), t) == apply(b, apply(a, t))
        }),
{
    let lb = b[0].length();
    let h = front(a[0], t);
    let u = apply(a.drop_first(), behind(a[0], t));
    let h2 = suffix(h, lb);
    let a1 = seq![rest_of(a[0], lb)] + a.drop_first();
    let t1 = if a[0] is Retain {
        suffix(t, lb)
    } else {
        t
    };
    let m = merge(a1, b.drop_first());
    lemma_shape_longer(a, b, t);
    lemma_first(a, t);
    lemma_concat(h, u);
    lemma_first(b, concat(h, u));
    lemma_position_of_concat(h, u, lb);
    if valid(m, t1) && apply(m, t1) == apply(b.drop_first(), concat(h2, u)) {
        lemma_meet(a[0], b[0], lb, m, t);
        let rest = apply(b.drop_first(), concat(h2, u));
        lemma_concat(h2, u);
        lemma_apply_is_text(b.drop_first(), concat(h2, u));
        lemma_concat_empty(rest);
    }
}

/// The merged operations of two scripts, of which the second can be carried
/// out on the result of the first, can be carried out on the text of the
/// first, and give what the second gives on the result of the first.
pub proof fn lemma_merge(a: Script, b: Script, t: Lines)
    requires
        is_text(t),
        valid(a, t),
        valid(b, apply(a, t)),
    ensures
        valid(merge(a, b), t),
        apply(merge(a, b), t) == apply(b, apply(a, t)),
        cuts_well(a, b),
    decreases a.len() + b.len(),
{
    if a.len() == 0 {
    } else if a[0] is Delete {
        let m = merge(a.drop_first(), b);
        lemma_first(a, t);
        lemma_merge(a.drop_first(), b, behind(a[0], t));
        let whole = seq![a[0]] + m;
        assert(whole[0] == a[0]);
        assert(whole.drop_first() =~= m);
    } else if b.len() == 0 {
    } else if b[0] is Insert {
        let m = merge(a, b.drop_first());
        lemma_apply_is_text(a, t);
        lemma_first(b, apply(a, t));
        lemma_merge(a, b.drop_first(), t);
        let whole = seq![b[0]] + m;
        assert(whole[0] == b[0]);
        assert(whole.drop_first() =~= m);
    } else if a[0].length() == b[0].length() {
        lemma_step_equal(a, b, t);
        lemma_merge(a.drop_first(), b.drop_first(), behind(a[0], t));
    } else if a[0].length().lt(b[0].length()) {
        lemma_step_shorter(a, b, t);
        lemma_merge(
            a.drop_first(),
            seq![rest_of(b[0], a[0].length())] + b.drop_first(),
            behind(a[0], t),
        );
    } else {
        lemma_step_longer(a, b, t);
        lemma_first(a, t);
        lemma_apply_is_text(a, t);
        lemma_first(b, apply(a, t));
        let t1 = if a[0] is Retain {
            suffix(t, b[0].length())
        } else {
            t
        };
        lemma_merge(seq![rest_of(a[0], b[0].length())] + a.drop_first(), b.drop_first(), t1);
    }
}

} // verus!
