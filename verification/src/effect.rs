//! What a script does, in two parts: what it makes of the text that it goes
//! over, and what it leaves of the text after its last operation. With the
//! two, scripts can be compared piece by piece; this shows that bringing a
//! script into canonical form does not change what it does.

use vstd::prelude::*;
use crate::edit::{
    apply, canonical, finished, push, push_delete, push_insert, push_retain, valid, Edit, Script,
};
use crate::lines::{
    concat, empty, is_position, is_text, lemma_concat, lemma_concat_assoc, lemma_concat_empty,
    lemma_cut_at_ends, lemma_position_right, lemma_split, prefix, suffix, Lines,
};
use crate::measure::Measure;

verus! {

/// What is left of `t` after the last operation of the script.
pub open spec fn left(ops: Script, t: Lines) -> Lines
    decreases ops.len(),
{
    if ops.len() == 0 {
        t
    } else {
        match ops[0] {
            Edit::Delete(l) => left(ops.drop_first(), suffix(t, l)),
            Edit::Retain(l) => left(ops.drop_first(), suffix(t, l)),
            Edit::Insert(x) => left(ops.drop_first(), t),
        }
    }
}

/// What the script makes of the part of `t` that its operations go over.
pub open spec fn made(ops: Script, t: Lines) -> Lines
    decreases ops.len(),
{
    if ops.len() == 0 {
        empty()
    } else {
        match ops[0] {
            Edit::Delete(l) => made(ops.drop_first(), suffix(t, l)),
            Edit::Retain(l) => concat(prefix(t, l), made(ops.drop_first(), suffix(t, l))),
            Edit::Insert(x) => concat(x, made(ops.drop_first(), t)),
        }
    }
}

/// On the text `t`, the script `y` can stand for the script `x`: it can be
/// carried out, makes the same, and leaves the same.
pub open spec fn stands_for(y: Script, x: Script, t: Lines) -> bool {
    &&& valid(y, t)
    &&& made(y, t) == made(x, t)
    &&& left(y, t) == left(x, t)
}

/// The result of a script is what it makes, followed by what it leaves.
pub proof fn lemma_parts(ops: Script, t: Lines)
    requires
        is_text(t),
        valid(ops, t),
    ensures
        is_text(made(ops, t)),
        is_text(left(ops, t)),
        apply(ops, t) == concat(made(ops, t), left(ops, t)),
    decreases ops.len(),
{
    lemma_concat_empty(t);
    if ops.len() > 0 {
        let r = ops.drop_first();
        match ops[0] {
            Edit::Delete(l) => {
                lemma_split(t, l);
                lemma_parts(r, suffix(t, l));
            },
            Edit::Retain(l) => {
                lemma_split(t, l);
                lemma_parts(r, suffix(t, l));
                lemma_concat(prefix(t, l), made(r, suffix(t, l)));
                lemma_concat_assoc(prefix(t, l), made(r, suffix(t, l)), left(r, suffix(t, l)));
            },
            Edit::Insert(x) => {
                lemma_parts(r, t);
                lemma_concat(x, made(r, t));
                lemma_concat_assoc(x, made(r, t), left(r, t));
            },
        }
    }
}

/// A script made of two is carried out by carrying out the first, and the
/// second on what the first leaves.
pub proof fn lemma_append(x: Script, y: Script, t: Lines)
    requires
        is_text(t),
    ensures
        valid(x + y, t) <==> valid(x, t) && valid(y, left(x, t)),
        valid(x + y, t) ==> made(x + y, t) == concat(made(x, t), made(y, left(x, t))) && left(
            x + y,
            t,
        ) == left(y, left(x, t)),
    decreases x.len(),
{
    if x.len() == 0 {
        assert(x + y =~= y);
        if valid(y, t) {
            lemma_parts(y, t);
            lemma_concat_empty(made(y, t));
        }
    } else {
        let r = x.drop_first();
        assert((x + y).drop_first() =~= r + y);
        assert((x + y)[0] == x[0]);
        match x[0] {
            Edit::Delete(l) => {
                if is_position(t, l) {
                    lemma_split(t, l);
                    lemma_append(r, y, suffix(t, l));
                }
            },
            Edit::Retain(l) => {
                if is_position(t, l) {
                    lemma_split(t, l);
                    lemma_append(r, y, suffix(t, l));
                    if valid(x + y, t) {
                        lemma_parts(r, suffix(t, l));
                        lemma_parts(y, left(r, suffix(t, l)));
                        lemma_concat_assoc(
                            prefix(t, l),
                            made(r, suffix(t, l)),
                            made(y, left(r, suffix(t, l))),
                        );
                    }
                }
            },
            Edit::Insert(z) => {
                if is_text(z) {
                    lemma_append(r, y, t);
                    if valid(x + y, t) {
                        lemma_parts(r, t);
                        lemma_parts(y, left(r, t));
                        lemma_concat_assoc(z, made(r, t), made(y, left(r, t)));
                    }
                }
            },
        }
    }
}

/// Where the end `x` of a script can be replaced by `y` on what the
/// beginning `p` leaves, the script with `y` at its end can stand for the
/// script with `x` at its end.
pub proof fn lemma_replace_end(p: Script, x: Script, y: Script, t: Lines)
    requires
        is_text(t),
        valid(p + x, t),
        stands_for(y, x, left(p, t)),
    ensures
        stands_for(p + y, p + x, t),
{
    lemma_append(p, x, t);
    lemma_append(p, y, t);
}

/// What a script of one operation does.
pub proof fn lemma_single(e: Edit, t: Lines)
    requires
        is_text(t),
    ensures
        valid(seq![e], t) <==> match e {
            Edit::Delete(l) => is_position(t, l),
            Edit::Retain(l) => is_position(t, l),
            Edit::Insert(x) => is_text(x),
        },
        valid(seq![e], t) ==> made(seq![e], t) == match e {
            Edit::Delete(l) => empty(),
            Edit::Retain(l) => prefix(t, l),
            Edit::Insert(x) => x,
        },
        left(seq![e], t) == match e {
            Edit::Delete(l) => suffix(t, l),
            Edit::Retain(l) => suffix(t, l),
            Edit::Insert(x) => t,
        },
{
    let s = seq![e];
    assert(s[0] == e);
    assert(s.drop_first() =~= Script::empty());
    assert(s.drop_first().len() == 0);
    reveal_with_fuel(valid, 2);
    reveal_with_fuel(made, 2);
    reveal_with_fuel(left, 2);
    match e {
        Edit::Delete(l) => {},
        Edit::Retain(l) => {
            if is_position(t, l) {
                lemma_split(t, l);
                lemma_concat_empty(prefix(t, l));
            }
        },
        Edit::Insert(x) => {
            if is_text(x) {
                lemma_concat_empty(x);
            }
        },
    }
}

/// Two lengths gone over one after the other are one length gone over.
pub proof fn lemma_two_lengths(t: Lines, l0: Measure, l: Measure)
    requires
        is_text(t),
        is_position(t, l0),
        is_position(suffix(t, l0), l),
    ensures
        is_position(t, l0.plus(l)),
        prefix(t, l0.plus(l)) == concat(prefix(t, l0), prefix(suffix(t, l0), l)),
        suffix(t, l0.plus(l)) == suffix(suffix(t, l0), l),
        is_text(suffix(t, l0)),
        is_text(prefix(t, l0)),
{
    lemma_split(t, l0);
    lemma_position_right(prefix(t, l0), suffix(t, l0), l);
}

/// A script can stand for itself with an operation that does nothing at its
/// end.
proof fn lemma_idle(ops: Script, e: Edit, t: Lines)
    requires
        is_text(t),
        valid(ops.push(e), t),
        e.is_idle(),
    ensures
        stands_for(ops, ops.push(e), t),
{
    let x = seq![e];
    let y = Script::empty();
    assert(ops.push(e) =~= ops + x);
    assert(ops + y =~= ops);
    lemma_append(ops, x, t);
    lemma_parts(ops, t);
    let u = left(ops, t);
    lemma_single(e, u);
    lemma_cut_at_ends(u);
    lemma_replace_end(ops, x, y, t);
}

/// Adding a retention by the rule gives a script that can stand for the one
/// with the retention put at its end.
proof fn lemma_push_retain(ops: Script, l: Measure, t: Lines)
    requires
        is_text(t),
        valid(ops.push(Edit::Retain(l)), t),
    ensures
        stands_for(push_retain(ops, l), ops.push(Edit::Retain(l)), t),
{
    let e = Edit::Retain(l);
    if e.is_idle() {
        lemma_idle(ops, e, t);
    } else if ops.len() > 0 && ops.last() is Retain {
        let l0 = ops.last().length();
        let p = ops.drop_last();
        let x = seq![ops.last()] + seq![e];
        let y = seq![Edit::Retain(l0.plus(l))];
        assert(ops.push(e) =~= p + x);
        assert(push_retain(ops, l) =~= p + y);
        lemma_append(p, x, t);
        lemma_parts(p, t);
        let u = left(p, t);
        lemma_append(seq![ops.last()], seq![e], u);
        lemma_single(ops.last(), u);
        lemma_split(u, l0);
        lemma_single(e, suffix(u, l0));
        lemma_two_lengths(u, l0, l);
        lemma_single(y[0], u);
        lemma_replace_end(p, x, y, t);
    }
}

/// Adding an insertion by the rule gives a script that can stand for the
/// one with the insertion put at its end.
proof fn lemma_push_insert(ops: Script, z: Lines, t: Lines)
    requires
        is_text(t),
        valid(ops.push(Edit::Insert(z)), t),
    ensures
        stands_for(push_insert(ops, z), ops.push(Edit::Insert(z)), t),
{
    let e = Edit::Insert(z);
    if e.is_idle() {
        lemma_idle(ops, e, t);
    } else if ops.len() > 0 && ops.last() is Insert {
        let z0 = ops.last().content();
        let p = ops.drop_last();
        let x = seq![ops.last()] + seq![e];
        let y = seq![Edit::Insert(concat(z0, z))];
        assert(ops.push(e) =~= p + x);
        assert(push_insert(ops, z) =~= p + y);
        lemma_append(p, x, t);
        lemma_parts(p, t);
        let u = left(p, t);
        lemma_append(seq![ops.last()], seq![e], u);
        lemma_single(ops.last(), u);
        lemma_single(e, u);
        lemma_concat(z0, z);
        lemma_single(y[0], u);
        lemma_replace_end(p, x, y, t);
    }
}

/// Adding a deletion by the rule gives a script that can stand for the one
/// with the deletion put at its end.
proof fn lemma_push_delete(ops: Script, l: Measure, t: Lines)
    requires
        is_text(t),
        valid(ops.push(Edit::Delete(l)), t),
    ensures
        stands_for(push_delete(ops, l), ops.push(Edit::Delete(l)), t),
{
    let e = Edit::Delete(l);
    let n = ops.len() as int;
    if e.is_idle() {
        lemma_idle(ops, e, t);
    } else if n > 0 && ops[n - 1] is Delete {
        let l0 = ops[n - 1].length();
        let p = ops.drop_last();
        let x = seq![ops[n - 1]] + seq![e];
        let y = seq![Edit::Delete(l0.plus(l))];
        assert(ops.push(e) =~= p + x);
        assert(push_delete(ops, l) =~= p + y);
        lemma_append(p, x, t);
        lemma_parts(p, t);
        let u = left(p, t);
        lemma_append(seq![ops[n - 1]], seq![e], u);
        lemma_single(ops[n - 1], u);
        lemma_split(u, l0);
        lemma_single(e, suffix(u, l0));
        lemma_two_lengths(u, l0, l);
        lemma_single(y[0], u);
        lemma_concat_empty(empty());
        lemma_replace_end(p, x, y, t);
    } else if n > 1 && ops[n - 2] is Delete && ops[n - 1] is Insert {
        let l0 = ops[n - 2].length();
        let z = ops[n - 1].content();
        let p = ops.take(n - 2);
        let x = seq![ops[n - 2]] + (seq![ops[n - 1]] + seq![e]);
        let y = seq![Edit::Delete(l0.plus(l))] + seq![ops[n - 1]];
        assert(ops.push(e) =~= p + x);
        assert(push_delete(ops, l) =~= p + y);
        lemma_append(p, x, t);
        lemma_parts(p, t);
        let u = left(p, t);
        lemma_append(seq![ops[n - 2]], seq![ops[n - 1]] + seq![e], u);
        lemma_single(ops[n - 2], u);
        lemma_split(u, l0);
        let v = suffix(u, l0);
        lemma_append(seq![ops[n - 1]], seq![e], v);
        lemma_single(ops[n - 1], v);
        lemma_single(e, v);
        lemma_two_lengths(u, l0, l);
        lemma_append(seq![y[0]], seq![ops[n - 1]], u);
        lemma_single(y[0], u);
        lemma_split(v, l);
        lemma_single(ops[n - 1], suffix(u, l0.plus(l)));
        lemma_concat_empty(z);
        lemma_replace_end(p, x, y, t);
    } else if n > 0 && ops[n - 1] is Insert {
        let z = ops[n - 1].content();
        let p = ops.drop_last();
        let x = seq![ops[n - 1]] + seq![e];
        let y = seq![e] + seq![ops[n - 1]];
        assert(ops.push(e) =~= p + x);
        assert(push_delete(ops, l) =~= p + y);
        lemma_append(p, x, t);
        lemma_parts(p, t);
        let u = left(p, t);
        lemma_append(seq![ops[n - 1]], seq![e], u);
        lemma_single(ops[n - 1], u);
        lemma_single(e, u);
        lemma_append(seq![e], seq![ops[n - 1]], u);
        lemma_split(u, l);
        lemma_single(ops[n - 1], suffix(u, l));
        lemma_concat_empty(z);
        lemma_replace_end(p, x, y, t);
    }
}

/// Adding an operation by the rule for its kind gives a script that can
/// stand for the one with the operation put at its end.
pub proof fn lemma_push(ops: Script, e: Edit, t: Lines)
    requires
        is_text(t),
        valid(ops.push(e), t),
    ensures
        stands_for(push(ops, e), ops.push(e), t),
{
    match e {
        Edit::Delete(l) => lemma_push_delete(ops, l, t),
        Edit::Retain(l) => lemma_push_retain(ops, l, t),
        Edit::Insert(z) => lemma_push_insert(ops, z, t),
    }
}

/// The canonical form of a script can stand for the script.
pub proof fn lemma_canonical_stands(raw: Script, t: Lines)
    requires
        is_text(t),
        valid(raw, t),
    ensures
        stands_for(canonical(raw), raw, t),
    decreases raw.len(),
{
    if raw.len() > 0 {
        let r = raw.drop_last();
        let e = raw.last();
        let c = canonical(r);
        assert(raw =~= r + seq![e]);
        lemma_append(r, seq![e], t);
        lemma_canonical_stands(r, t);
        lemma_append(c, seq![e], t);
        assert(c.push(e) =~= c + seq![e]);
        lemma_push(c, e, t);
    }
}

/// Finishing a script does not change its result.
pub proof fn lemma_finished_result(ops: Script, t: Lines)
    requires
        is_text(t),
        valid(ops, t),
    ensures
        valid(finished(ops), t),
        apply(finished(ops), t) == apply(ops, t),
{
    if ops.len() > 0 && ops.last() is Retain {
        let p = ops.drop_last();
        let e = ops.last();
        assert(ops =~= p + seq![e]);
        lemma_append(p, seq![e], t);
        lemma_parts(p, t);
        lemma_parts(ops, t);
        let u = left(p, t);
        lemma_single(e, u);
        lemma_split(u, e.length());
        lemma_concat_assoc(made(p, t), prefix(u, e.length()), suffix(u, e.length()));
    }
}

/// The finished canonical form of a script has the result of the script.
pub proof fn lemma_canonical_result(raw: Script, t: Lines)
    requires
        is_text(t),
        valid(raw, t),
    ensures
        valid(finished(canonical(raw)), t),
        apply(finished(canonical(raw)), t) == apply(raw, t),
{
    lemma_canonical_stands(raw, t);
    lemma_parts(raw, t);
    lemma_parts(canonical(raw), t);
    lemma_finished_result(canonical(raw), t);
}

} // verus!
