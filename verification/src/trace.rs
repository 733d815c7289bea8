//! The trail of a script in two parts: the trace of its operations, and the
//! symbols that are kept after the last of them. With the two, the trails
//! of scripts can be compared piece by piece; this shows that bringing a
//! script into canonical form does not change its trail.

use vstd::prelude::*;
use crate::edit::{
    canonical, finished, push, push_delete, push_insert, push_retain, valid, Edit, Script,
};
use crate::effect::{
    left, lemma_append, lemma_canonical_stands, lemma_parts, lemma_single, lemma_two_lengths,
    stands_for,
};
use crate::lines::{
    concat, empty, is_text, lemma_concat, lemma_cut_at_ends, lemma_split, prefix, suffix, Lines,
};
use crate::measure::Measure;
use crate::provenance::{
    kept, lemma_flat_concat, lemma_kept_add, lemma_size_split, lemma_size_zero, put, size, trail,
    Trail,
};

verus! {

/// The number of symbols of `t` that the operations of the script go over.
pub open spec fn used(ops: Script, t: Lines) -> int
    decreases ops.len(),
{
    if ops.len() == 0 {
        0
    } else {
        match ops[0] {
            Edit::Delete(l) => size(prefix(t, l)) + used(ops.drop_first(), suffix(t, l)),
            Edit::Retain(l) => size(prefix(t, l)) + used(ops.drop_first(), suffix(t, l)),
            Edit::Insert(x) => used(ops.drop_first(), t),
        }
    }
}

/// The trail of what the operations of the script make, where the text `t`
/// begins at the symbol `i` of the source.
pub open spec fn trace(ops: Script, t: Lines, i: int) -> Trail
    decreases ops.len(),
{
    if ops.len() == 0 {
        Seq::empty()
    } else {
        match ops[0] {
            Edit::Delete(l) => trace(ops.drop_first(), suffix(t, l), i + size(prefix(t, l))),
            Edit::Retain(l) => kept(i, size(prefix(t, l))) + trace(
                ops.drop_first(),
                suffix(t, l),
                i + size(prefix(t, l)),
            ),
            Edit::Insert(x) => put(x) + trace(ops.drop_first(), t, i),
        }
    }
}

/// On the text `t`, which begins at the symbol `i` of the source, the
/// script `y` has the trace of the script `x` and goes over as much.
pub open spec fn traces_like(y: Script, x: Script, t: Lines, i: int) -> bool {
    &&& trace(y, t, i) == trace(x, t, i)
    &&& used(y, t) == used(x, t)
}

/// The trail of a script is the trace of its operations, followed by the
/// symbols that are left.
pub proof fn lemma_trace_parts(ops: Script, t: Lines, i: int)
    requires
        is_text(t),
        valid(ops, t),
    ensures
        used(ops, t) >= 0,
        trail(ops, t, i) == trace(ops, t, i) + kept(i + used(ops, t), size(left(ops, t))),
    decreases ops.len(),
{
    if ops.len() == 0 {
        assert(trail(ops, t, i) =~= trace(ops, t, i) + kept(i, size(t)));
    } else {
        let r = ops.drop_first();
        match ops[0] {
            Edit::Insert(x) => {
                lemma_trace_parts(r, t, i);
                assert(trail(ops, t, i) =~= trace(ops, t, i) + kept(
                    i + used(ops, t),
                    size(left(ops, t)),
                ));
            },
            _ => {
                let l = ops[0].length();
                lemma_split(t, l);
                lemma_size_split(t, l);
                lemma_trace_parts(r, suffix(t, l), i + size(prefix(t, l)));
                assert(trail(ops, t, i) =~= trace(ops, t, i) + kept(
                    i + used(ops, t),
                    size(left(ops, t)),
                ));
            },
        }
    }
}

/// The trace of a script made of two is the trace of the first, followed
/// by the trace of the second on what the first leaves.
pub proof fn lemma_trace_append(x: Script, y: Script, t: Lines, i: int)
    requires
        is_text(t),
        valid(x + y, t),
    ensures
        used(x, t) >= 0,
        trace(x + y, t, i) == trace(x, t, i) + trace(y, left(x, t), i + used(x, t)),
        used(x + y, t) == used(x, t) + used(y, left(x, t)),
    decreases x.len(),
{
    if x.len() == 0 {
        assert(x + y =~= y);
        assert(trace(x, t, i) + trace(y, t, i) =~= trace(y, t, i));
    } else {
        let r = x.drop_first();
        assert((x + y).drop_first() =~= r + y);
        assert((x + y)[0] == x[0]);
        match x[0] {
            Edit::Insert(z) => {
                lemma_trace_append(r, y, t, i);
                assert(trace(x + y, t, i) =~= trace(x, t, i) + trace(
                    y,
                    left(x, t),
                    i + used(x, t),
                ));
            },
            _ => {
                let l = x[0].length();
                lemma_split(t, l);
                lemma_size_split(t, l);
                lemma_trace_append(r, y, suffix(t, l), i + size(prefix(t, l)));
                assert(trace(x + y, t, i) =~= trace(x, t, i) + trace(
                    y,
                    left(x, t),
                    i + used(x, t),
                ));
            },
        }
    }
}

/// Where the end `x` of a script can be replaced by `y` on what the
/// beginning `p` leaves, with the same trace, the script with `y` at its
/// end has the trace of the script with `x` at its end.
proof fn lemma_trace_end(p: Script, x: Script, y: Script, t: Lines, i: int)
    requires
        is_text(t),
        valid(p + x, t),
        stands_for(y, x, left(p, t)),
        traces_like(y, x, left(p, t), i + used(p, t)),
    ensures
        traces_like(p + y, p + x, t, i),
{
    lemma_append(p, x, t);
    lemma_append(p, y, t);
    lemma_trace_append(p, x, t, i);
    lemma_trace_append(p, y, t, i);
}

/// The trace of a script of one operation.
proof fn lemma_trace_single(e: Edit, t: Lines, i: int)
    requires
        is_text(t),
        valid(seq![e], t),
    ensures
        trace(seq![e], t, i) == match e {
            Edit::Delete(l) => Trail::empty(),
            Edit::Retain(l) => kept(i, size(prefix(t, l))),
            Edit::Insert(x) => put(x),
        },
        used(seq![e], t) == match e {
            Edit::Delete(l) => size(prefix(t, l)),
            Edit::Retain(l) => size(prefix(t, l)),
            Edit::Insert(x) => 0,
        },
{
    let s = seq![e];
    assert(s[0] == e);
    assert(s.drop_first() =~= Script::empty());
    assert(s.drop_first().len() == 0);
    reveal_with_fuel(trace, 2);
    reveal_with_fuel(used, 2);
    match e {
        Edit::Delete(l) => {},
        Edit::Retain(l) => {
            assert(kept(i, size(prefix(t, l))) + Trail::empty() =~= kept(i, size(prefix(t, l))));
        },
        Edit::Insert(x) => {
            assert(put(x) + Trail::empty() =~= put(x));
        },
    }
}

/// The trace of a script of two operations.
proof fn lemma_trace_pair(e: Edit, f: Edit, t: Lines, i: int)
    requires
        is_text(t),
        valid(seq![e] + seq![f], t),
    ensures
        is_text(left(seq![e], t)),
        valid(seq![e], t),
        valid(seq![f], left(seq![e], t)),
        trace(seq![e] + seq![f], t, i) == trace(seq![e], t, i) + trace(
            seq![f],
            left(seq![e], t),
            i + used(seq![e], t),
        ),
        used(seq![e] + seq![f], t) == used(seq![e], t) + used(seq![f], left(seq![e], t)),
{
    lemma_append(seq![e], seq![f], t);
    lemma_parts(seq![e], t);
    lemma_trace_append(seq![e], seq![f], t, i);
}

/// Adding an operation that does nothing changes no trace.
proof fn lemma_trace_idle(ops: Script, e: Edit, t: Lines, i: int)
    requires
        is_text(t),
        valid(ops.push(e), t),
        e.is_idle(),
    ensures
        traces_like(ops, ops.push(e), t, i),
{
    let x = seq![e];
    assert(ops.push(e) =~= ops + x);
    lemma_append(ops, x, t);
    lemma_parts(ops, t);
    lemma_trace_append(ops, x, t, i);
    let u = left(ops, t);
    lemma_trace_single(e, u, i + used(ops, t));
    lemma_cut_at_ends(u);
    lemma_size_zero(empty());
    assert(put(empty()) =~= Trail::empty());
    assert(kept(i + used(ops, t), 0) =~= Trail::empty());
    assert(trace(ops, t, i) + Trail::empty() =~= trace(ops, t, i));
}

/// Adding a retention by the rule keeps the trace.
proof fn lemma_trace_retain(ops: Script, l: Measure, t: Lines, i: int)
    requires
        is_text(t),
        valid(ops.push(Edit::Retain(l)), t),
    ensures
        traces_like(push_retain(ops, l), ops.push(Edit::Retain(l)), t, i),
{
    let e = Edit::Retain(l);
    if e.is_idle() {
        lemma_trace_idle(ops, e, t, i);
    } else if ops.len() > 0 && ops.last() is Retain {
        let l0 = ops.last().length();
        let p = ops.drop_last();
        let x = seq![ops.last()] + seq![e];
        let y = seq![Edit::Retain(l0.plus(l))];
        assert(ops.push(e) =~= p + x);
        assert(push_retain(ops, l) =~= p + y);
        lemma_append(p, x, t);
        lemma_parts(p, t);
        let u = left(p, t);
        let k = i + used(p, t);
        lemma_trace_pair(ops.last(), e, u, k);
        lemma_single(ops.last(), u);
        lemma_trace_single(ops.last(), u, k);
        lemma_trace_single(e, suffix(u, l0), k + size(prefix(u, l0)));
        lemma_two_lengths(u, l0, l);
        lemma_split(suffix(u, l0), l);
        lemma_flat_concat(prefix(u, l0), prefix(suffix(u, l0), l));
        lemma_size_zero(prefix(u, l0));
        lemma_size_zero(prefix(suffix(u, l0), l));
        lemma_kept_add(k, size(prefix(u, l0)), size(prefix(suffix(u, l0), l)));
        lemma_single(y[0], u);
        lemma_trace_single(y[0], u, k);
        crate::effect::lemma_push(ops, e, t);
        assert(stands_for(y, x, u)) by {
            lemma_append(seq![ops.last()], seq![e], u);
            lemma_single(e, suffix(u, l0));
        }
        lemma_trace_end(p, x, y, t, i);
    }
}

/// Adding an insertion by the rule keeps the trace.
proof fn lemma_trace_insert(ops: Script, z: Lines, t: Lines, i: int)
    requires
        is_text(t),
        valid(ops.push(Edit::Insert(z)), t),
    ensures
        traces_like(push_insert(ops, z), ops.push(Edit::Insert(z)), t, i),
{
    let e = Edit::Insert(z);
    if e.is_idle() {
        lemma_trace_idle(ops, e, t, i);
    } else if ops.len() > 0 && ops.last() is Insert {
        let z0 = ops.last().content();
        let p = ops.drop_last();
        let x = seq![ops.last()] + seq![e];
        let y = seq![Edit::Insert(concat(z0, z))];
        assert(ops.push(e) =~= p + x);
        assert(push_insert(ops, z) =~= p + y);
        lemma_append(p, x, t);
        lemma_parts(p, t);
        let u = left(p, t);
        let k = i + used(p, t);
        lemma_trace_pair(ops.last(), e, u, k);
        lemma_single(ops.last(), u);
        lemma_single(e, u);
        lemma_trace_single(ops.last(), u, k);
        lemma_trace_single(e, u, k);
        lemma_concat(z0, z);
        lemma_flat_concat(z0, z);
        lemma_single(y[0], u);
        lemma_trace_single(y[0], u, k);
        assert(stands_for(y, x, u)) by {
            lemma_append(seq![ops.last()], seq![e], u);
        }
        lemma_trace_end(p, x, y, t, i);
    }
}

/// Adding a deletion by the rule keeps the trace.
proof fn lemma_trace_delete(ops: Script, l: Measure, t: Lines, i: int)
    requires
        is_text(t),
        valid(ops.push(Edit::Delete(l)), t),
    ensures
        traces_like(push_delete(ops, l), ops.push(Edit::Delete(l)), t, i),
{
    let e = Edit::Delete(l);
    let n = ops.len() as int;
    if e.is_idle() {
        lemma_trace_idle(ops, e, t, i);
    } else if n > 0 && ops[n - 1] is Delete {
        let l0 = ops[n - 1].length();
        let p = ops.drop_last();
        let x = seq![ops[n - 1]] + seq![e];
        let y = seq![Edit::Delete(l0.plus(l))];
        assert(ops.push(e) =~= p + x);
        assert(push_delete(ops, l) =~= p + y);
        lemma_append(p, x, t);
        lemma_parts(p, t);
        let u = left(p, t);
        let k = i + used(p, t);
        lemma_trace_pair(ops[n - 1], e, u, k);
        lemma_single(ops[n - 1], u);
        lemma_trace_single(ops[n - 1], u, k);
        lemma_single(e, suffix(u, l0));
        lemma_trace_single(e, suffix(u, l0), k + size(prefix(u, l0)));
        lemma_two_lengths(u, l0, l);
        lemma_split(suffix(u, l0), l);
        lemma_flat_concat(prefix(u, l0), prefix(suffix(u, l0), l));
        lemma_single(y[0], u);
        lemma_trace_single(y[0], u, k);
        assert(Trail::empty() + Trail::empty() =~= Trail::empty());
        assert(stands_for(y, x, u)) by {
            lemma_append(seq![ops[n - 1]], seq![e], u);
            crate::lines::lemma_concat_empty(empty());
        }
        lemma_trace_end(p, x, y, t, i);
    } else if n > 1 && ops[n - 2] is Delete && ops[n - 1] is Insert {
        let l0 = ops[n - 2].length();
        let z = ops[n - 1].content();
        let p = ops.take(n - 2);
        let x = seq![ops[n - 2]] + (seq![ops[n - 1]] + seq![e]);
        let y = seq![Edit::Delete(l0.plus(l))] + seq![ops[n - 1]];
        assert(ops.push(e) =~= p + x);
        assert(push_delete(ops, l) =~= p + y);
        lemma_append(p, x, t);
        lemma_parts(p, t);
        let u = left(p, t);
        let k = i + used(p, t);
        lemma_append(seq![ops[n - 2]], seq![ops[n - 1]] + seq![e], u);
        lemma_trace_append(seq![ops[n - 2]], seq![ops[n - 1]] + seq![e], u, k);
        lemma_single(ops[n - 2], u);
        lemma_trace_single(ops[n - 2], u, k);
        lemma_split(u, l0);
        let v = suffix(u, l0);
        let kv = k + size(prefix(u, l0));
        lemma_trace_pair(ops[n - 1], e, v, kv);
        lemma_single(ops[n - 1], v);
        lemma_single(e, v);
        lemma_trace_single(ops[n - 1], v, kv);
        lemma_trace_single(e, v, kv);
        lemma_two_lengths(u, l0, l);
        lemma_split(v, l);
        lemma_flat_concat(prefix(u, l0), prefix(v, l));
        crate::effect::lemma_push(ops, e, t);
        lemma_append(p, y, t);
        lemma_trace_pair(y[0], ops[n - 1], u, k);
        lemma_single(y[0], u);
        lemma_trace_single(y[0], u, k);
        let w = suffix(u, l0.plus(l));
        lemma_single(ops[n - 1], w);
        lemma_trace_single(ops[n - 1], w, k + size(prefix(u, l0.plus(l))));
        assert(Trail::empty() + put(z) =~= put(z));
        assert(put(z) + Trail::empty() =~= put(z));
        assert(stands_for(y, x, u)) by {
            lemma_append(seq![ops[n - 1]], seq![e], v);
            lemma_append(seq![y[0]], seq![ops[n - 1]], u);
            crate::lines::lemma_concat_empty(z);
        }
        lemma_trace_end(p, x, y, t, i);
    } else if n > 0 && ops[n - 1] is Insert {
        let z = ops[n - 1].content();
        let p = ops.drop_last();
        let x = seq![ops[n - 1]] + seq![e];
        let y = seq![e] + seq![ops[n - 1]];
        assert(ops.push(e) =~= p + x);
        assert(push_delete(ops, l) =~= p + y);
        lemma_append(p, x, t);
        lemma_parts(p, t);
        let u = left(p, t);
        let k = i + used(p, t);
        lemma_trace_pair(ops[n - 1], e, u, k);
        lemma_single(ops[n - 1], u);
        lemma_single(e, u);
        lemma_trace_single(ops[n - 1], u, k);
        lemma_trace_single(e, u, k);
        lemma_split(u, l);
        crate::effect::lemma_push(ops, e, t);
        lemma_append(p, y, t);
        lemma_trace_pair(e, ops[n - 1], u, k);
        lemma_single(ops[n - 1], suffix(u, l));
        lemma_trace_single(ops[n - 1], suffix(u, l), k + size(prefix(u, l)));
        assert(Trail::empty() + put(z) =~= put(z));
        assert(put(z) + Trail::empty() =~= put(z));
        assert(stands_for(y, x, u)) by {
            lemma_append(seq![ops[n - 1]], seq![e], u);
            lemma_append(seq![e], seq![ops[n - 1]], u);
            crate::lines::lemma_concat_empty(z);
        }
        lemma_trace_end(p, x, y, t, i);
    }
}

/// Adding an operation by the rule for its kind keeps the trace.
proof fn lemma_trace_push(ops: Script, e: Edit, t: Lines, i: int)
    requires
        is_text(t),
        valid(ops.push(e), t),
    ensures
        traces_like(push(ops, e), ops.push(e), t, i),
{
    match e {
        Edit::Delete(l) => lemma_trace_delete(ops, l, t, i),
        Edit::Retain(l) => lemma_trace_retain(ops, l, t, i),
        Edit::Insert(z) => lemma_trace_insert(ops, z, t, i),
    }
}

/// The canonical form of a script has the trace of the script.
pub proof fn lemma_canonical_trace(raw: Script, t: Lines, i: int)
    requires
        is_text(t),
        valid(raw, t),
    ensures
        traces_like(canonical(raw), raw, t, i),
    decreases raw.len(),
{
    if raw.len() > 0 {
        let r = raw.drop_last();
        let e = raw.last();
        let c = canonical(r);
        assert(raw =~= r + seq![e]);
        assert(c.push(e) =~= c + seq![e]);
        lemma_append(r, seq![e], t);
        lemma_canonical_stands(r, t);
        lemma_canonical_trace(r, t, i);
        lemma_append(c, seq![e], t);
        lemma_trace_append(r, seq![e], t, i);
        lemma_trace_append(c, seq![e], t, i);
        lemma_trace_push(c, e, t, i);
    }
}

/// The finished canonical form of a script has the trail of the script.
pub proof fn lemma_canonical_trail(raw: Script, t: Lines, i: int)
    requires
        is_text(t),
        valid(raw, t),
    ensures
        trail(finished(canonical(raw)), t, i) == trail(raw, t, i),
{
    let c = canonical(raw);
    let f = finished(c);
    lemma_canonical_stands(raw, t);
    lemma_canonical_trace(raw, t, i);
    lemma_trace_parts(raw, t, i);
    lemma_trace_parts(c, t, i);
    if c.len() > 0 && c.last() is Retain {
        let e = c.last();
        assert(c =~= f + seq![e]);
        lemma_append(f, seq![e], t);
        lemma_parts(f, t);
        lemma_trace_append(f, seq![e], t, i);
        lemma_trace_parts(f, t, i);
        let u = left(f, t);
        let k = i + used(f, t);
        lemma_single(e, u);
        lemma_trace_single(e, u, k);
        lemma_size_split(u, e.length());
        lemma_kept_add(k, size(prefix(u, e.length())), size(suffix(u, e.length())));
        assert(trail(f, t, i) =~= trail(c, t, i));
    }
}

} // verus!
