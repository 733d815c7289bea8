//! A finished script is known by its trail: two finished scripts with the
//! same trail on a text are one script.

use vstd::prelude::*;
use crate::edit::{is_finished, valid, Edit, Script};
use crate::effect::lemma_two_lengths;
use crate::lines::{is_position, is_text, lemma_slice, lemma_split, prefix, suffix, Lines};
use crate::measure::{lemma_plus_minus, lemma_plus_zero, Measure};
use crate::merging::{behind, lemma_first};
use crate::provenance::{
    flat, in_scope, kept, lemma_flat_concat, lemma_size_split, lemma_size_zero, lemma_trail, put,
    size, symbols, trail, Item, Trail,
};

verus! {

/// The number of the first symbol of the source that the trail speaks of,
/// or -1 where it speaks of none.
pub open spec fn first_kept(s: Trail) -> int
    decreases s.len(),
{
    if s.len() == 0 {
        -1
    } else {
        match s[0] {
            Item::From(j) => j,
            Item::Put(_) => first_kept(s.drop_first()),
        }
    }
}

/// The number of symbols put in with which the trail begins.
pub open spec fn puts_before(s: Trail) -> int
    decreases s.len(),
{
    if s.len() == 0 {
        0
    } else {
        match s[0] {
            Item::From(_) => 0,
            Item::Put(_) => 1 + puts_before(s.drop_first()),
        }
    }
}

/// The number of symbols of the source, from the symbol `k` on and one
/// after the other, with which the trail begins.
pub open spec fn kept_run(s: Trail, k: int) -> int
    decreases s.len(),
{
    if s.len() == 0 {
        0
    } else if s[0] == Item::From(k) {
        1 + kept_run(s.drop_first(), k + 1)
    } else {
        0
    }
}

/// A trail that begins with symbols put in, measured.
proof fn lemma_measure_put(p: Trail, s: Trail)
    requires
        forall|k: int| 0 <= k < p.len() ==> #[trigger] p[k] is Put,
    ensures
        first_kept(p + s) == first_kept(s),
        puts_before(p + s) == p.len() + puts_before(s),
    decreases p.len(),
{
    if p.len() == 0 {
        assert(p + s =~= s);
    } else {
        assert((p + s)[0] == p[0]);
        assert((p + s).drop_first() =~= p.drop_first() + s);
        lemma_measure_put(p.drop_first(), s);
    }
}

/// A trail that begins with symbols of the source, measured.
proof fn lemma_measure_kept(k: int, n: int, s: Trail)
    requires
        n >= 0,
    ensures
        kept_run(kept(k, n) + s, k) == n + kept_run(s, k + n),
        n > 0 ==> first_kept(kept(k, n) + s) == k,
        n > 0 ==> puts_before(kept(k, n) + s) == 0,
    decreases n,
{
    if n == 0 {
        assert(kept(k, n) + s =~= s);
    } else {
        assert((kept(k, n) + s)[0] == Item::From(k));
        assert((kept(k, n) + s).drop_first() =~= kept(k + 1, n - 1) + s);
        lemma_measure_kept(k + 1, n - 1, s);
    }
}

/// A trail that speaks of the source from the symbol `low` on only,
/// measured.
proof fn lemma_measure_scope(s: Trail, low: int, high: int)
    requires
        in_scope(s, low, high),
    ensures
        first_kept(s) == -1 || first_kept(s) >= low,
        forall|k: int| k < low ==> kept_run(s, k) == 0,
    decreases s.len(),
{
    if s.len() > 0 {
        assert forall|k: int| 0 <= k < s.drop_first().len() implies (
        #[trigger] s.drop_first()[k] matches Item::From(j) ==> low <= j < high) by {
            assert(s.drop_first()[k] == s[k + 1]);
        }
        lemma_measure_scope(s.drop_first(), low, high);
        match s[0] {
            Item::From(j) => {
                assert(low <= j);
            },
            Item::Put(_) => {},
        }
    }
}

/// Two positions of a text with as many symbols before them are one
/// position.
pub proof fn lemma_size_tells_position(t: Lines, p: Measure, q: Measure)
    requires
        is_text(t),
        is_position(t, p),
        is_position(t, q),
        size(prefix(t, p)) == size(prefix(t, q)),
    ensures
        p == q,
{
    if p.le(q) {
        lemma_later(t, p, q);
    } else {
        lemma_later(t, q, p);
    }
}

/// A later position of a text has as many symbols before it as an earlier
/// one only where it is the same.
proof fn lemma_later(t: Lines, p: Measure, q: Measure)
    requires
        is_text(t),
        is_position(t, p),
        is_position(t, q),
        p.le(q),
        size(prefix(t, p)) == size(prefix(t, q)),
    ensures
        p == q,
{
    let d = q.minus(p);
    lemma_slice(t, p, q);
    lemma_plus_minus(p, q);
    lemma_two_lengths(t, p, d);
    lemma_split(suffix(t, p), d);
    lemma_flat_concat(prefix(t, p), prefix(suffix(t, p), d));
    lemma_size_split(suffix(t, p), d);
    lemma_plus_zero(p);
}

/// Two texts with the same symbols are one text.
pub proof fn lemma_flat_tells_text(x: Lines, y: Lines)
    requires
        x.len() >= 1,
        y.len() >= 1,
        flat(x) == flat(y),
    ensures
        x == y,
    decreases x.len() + y.len(),
{
    if x.len() == 1 && y.len() == 1 {
        assert(x[0] =~= y[0]) by {
            assert(symbols(x[0]).len() == symbols(y[0]).len());
            assert forall|k: int| 0 <= k < x[0].len() implies x[0][k] == y[0][k] by {
                assert(symbols(x[0])[k] == symbols(y[0])[k]);
            }
        }
        assert(x =~= y);
    } else if x.len() == 1 {
        let fy = flat(y.drop_last());
        let sy = symbols(y.last());
        let wy = fy + seq![256int] + sy;
        let at = fy.len() as int;
        assert(wy[at] == 256);
        assert(flat(y) == wy);
        assert(flat(x) == symbols(x[0]));
        assert(symbols(x[0]).len() == wy.len());
        assert(symbols(x[0])[at] == x[0][at] as int);
    } else if y.len() == 1 {
        let fx = flat(x.drop_last());
        let sx = symbols(x.last());
        let wx = fx + seq![256int] + sx;
        let at = fx.len() as int;
        assert(wx[at] == 256);
        assert(flat(x) == wx);
        assert(flat(y) == symbols(y[0]));
        assert(symbols(y[0]).len() == wx.len());
        assert(symbols(y[0])[at] == y[0][at] as int);
    } else {
        let fx = flat(x.drop_last());
        let fy = flat(y.drop_last());
        let sx = symbols(x.last());
        let sy = symbols(y.last());
        let wx = fx + seq![256int] + sx;
        let wy = fy + seq![256int] + sy;
        assert(wx == wy);
        if sx.len() < sy.len() {
            let at = fx.len() as int;
            assert(wx[at] == 256);
            assert(wy[at] == sy[at - fy.len() - 1]);
            assert(sy[at - fy.len() - 1] == y.last()[at - fy.len() - 1] as int);
        } else if sy.len() < sx.len() {
            let at = fy.len() as int;
            assert(wy[at] == 256);
            assert(wx[at] == sx[at - fx.len() - 1]);
            assert(sx[at - fx.len() - 1] == x.last()[at - fx.len() - 1] as int);
        } else {
            assert(fx =~= wx.subrange(0, fx.len() as int));
            assert(fy =~= wy.subrange(0, fy.len() as int));
            assert(x.last() =~= y.last()) by {
                assert forall|k: int| 0 <= k < x.last().len() implies x.last()[k] == y.last()[k] by {
                    assert(sx[k] == wx[fx.len() + 1 + k]);
                    assert(sy[k] == wy[fy.len() + 1 + k]);
                }
            }
            lemma_flat_tells_text(x.drop_last(), y.drop_last());
            assert(x =~= x.drop_last().push(x.last()));
            assert(y =~= y.drop_last().push(y.last()));
        }
    }
}

/// What is left of a finished script after its first operation is a
/// finished script, which begins with an operation that may follow the
/// first.
proof fn lemma_finished_rest(w: Script)
    requires
        is_finished(w),
        w.len() > 0,
    ensures
        is_finished(w.drop_first()),
        w[0].wf(),
        !w[0].is_idle(),
        w.len() > 1 ==> w[0].admits(w[1]) && w.drop_first()[0] == w[1],
        w[0] is Retain ==> w.len() > 1,
{
    let r = w.drop_first();
    assert forall|i: int| 0 <= i < r.len() implies (#[trigger] r[i]).wf() && !r[i].is_idle() by {
        assert(r[i] == w[i + 1]);
    }
    assert forall|i: int| 0 <= i < r.len() - 1 implies (#[trigger] r[i]).admits(r[i + 1]) by {
        assert(r[i] == w[i + 1]);
        assert(w[i + 1].admits(w[i + 2]));
    }
    if r.len() > 0 {
        assert(r.last() == w.last());
    }
}

/// How the trail of a finished script begins, by the kind of its first
/// operation.
proof fn lemma_head(w: Script, u: Lines, k: int)
    requires
        is_text(u),
        valid(w, u),
        is_finished(w),
        k >= 0,
    ensures
        size(u) >= 0,
        w.len() == 0 ==> first_kept(trail(w, u, k)) == (if size(u) > 0 {
            k
        } else {
            -1
        }) && puts_before(trail(w, u, k)) == 0 && kept_run(trail(w, u, k), k) == size(u),
        w.len() > 0 && w[0] is Retain ==> size(prefix(u, w[0].length())) > 0 && first_kept(
            trail(w, u, k),
        ) == k && puts_before(trail(w, u, k)) == 0 && kept_run(trail(w, u, k), k) == size(
            prefix(u, w[0].length()),
        ),
        w.len() > 0 && w[0] is Insert ==> size(w[0].content()) > 0 && first_kept(trail(w, u, k))
            == (if size(u) > 0 {
            k
        } else {
            -1
        }) && puts_before(trail(w, u, k)) == size(w[0].content()) && kept_run(
            trail(w, u, k),
            k,
        ) == 0,
        w.len() > 0 && w[0] is Delete ==> size(prefix(u, w[0].length())) > 0 && first_kept(
            trail(w, u, k),
        ) == (if size(u) - size(prefix(u, w[0].length())) > 0 {
            k + size(prefix(u, w[0].length()))
        } else {
            -1
        }) && kept_run(trail(w, u, k), k) == 0,
    decreases w.len(),
{
    let s = trail(w, u, k);
    lemma_size_zero(u);
    if w.len() == 0 {
        assert(kept(k, size(u)) + Trail::empty() =~= kept(k, size(u)));
        lemma_measure_kept(k, size(u), Trail::empty());
    } else {
        let r = w.drop_first();
        lemma_finished_rest(w);
        lemma_first(w, u);
        match w[0] {
            Edit::Retain(l) => {
                let n = size(prefix(u, l));
                let v = suffix(u, l);
                lemma_size_split(u, l);
                lemma_head(r, v, k + n);
                lemma_measure_kept(k, n, trail(r, v, k + n));
            },
            Edit::Insert(z) => {
                lemma_size_zero(z);
                lemma_head(r, u, k);
                lemma_measure_put(put(z), trail(r, u, k));
                assert(s[0] == put(z)[0]);
            },
            Edit::Delete(l) => {
                let m = size(prefix(u, l));
                let v = suffix(u, l);
                lemma_size_split(u, l);
                lemma_head(r, v, k + m);
                lemma_trail(r, v, k + m);
                lemma_measure_scope(s, k + m, k + m + size(v));
            },
        }
    }
}

/// Two rows that are equal and begin with parts of the same length begin
/// with the same part and go on with the same part.
proof fn lemma_cancel(a: Trail, b: Trail, c: Trail, d: Trail)
    requires
        a + b == c + d,
        a.len() == c.len(),
    ensures
        a == c,
        b == d,
{
    let n = a.len() as int;
    assert(a =~= (a + b).subrange(0, n));
    assert(c =~= (c + d).subrange(0, n));
    assert(b =~= (a + b).subrange(n, (a + b).len() as int));
    assert(d =~= (c + d).subrange(n, (c + d).len() as int));
}

/// Two finished scripts that can be carried out on a text, with the same
/// trail, are one script.
pub proof fn lemma_trail_tells_script(x: Script, y: Script, t: Lines, i: int)
    requires
        is_text(t),
        valid(x, t),
        valid(y, t),
        is_finished(x),
        is_finished(y),
        i >= 0,
        trail(x, t, i) == trail(y, t, i),
    ensures
        x == y,
    decreases x.len() + y.len(),
{
    lemma_head(x, t, i);
    lemma_head(y, t, i);
    if x.len() == 0 && y.len() == 0 {
        assert(x =~= y);
    } else if x.len() > 0 && x[0] is Delete {
        lemma_finished_rest(x);
        lemma_first(x, t);
        lemma_size_split(t, x[0].length());
        if y.len() > 0 && y[0] is Delete {
            lemma_finished_rest(y);
            lemma_first(y, t);
            lemma_size_split(t, y[0].length());
            lemma_size_tells_position(t, x[0].length(), y[0].length());
            lemma_trail_tells_script(
                x.drop_first(),
                y.drop_first(),
                behind(x[0], t),
                i + size(prefix(t, x[0].length())),
            );
            assert(x =~= seq![x[0]] + x.drop_first());
            assert(y =~= seq![y[0]] + y.drop_first());
        } else if y.len() > 0 && y[0] is Retain {
            lemma_size_split(t, y[0].length());
        }
    } else if y.len() > 0 && y[0] is Delete {
        lemma_first(y, t);
        lemma_size_split(t, y[0].length());
        if x.len() > 0 && x[0] is Retain {
            lemma_first(x, t);
            lemma_size_split(t, x[0].length());
        }
    } else if x.len() > 0 && x[0] is Insert {
        if y.len() > 0 && y[0] is Insert {
            let zx = x[0].content();
            let zy = y[0].content();
            lemma_finished_rest(x);
            lemma_finished_rest(y);
            lemma_first(x, t);
            lemma_first(y, t);
            lemma_cancel(
                put(zx),
                trail(x.drop_first(), t, i),
                put(zy),
                trail(y.drop_first(), t, i),
            );
            assert(flat(zx) =~= flat(zy)) by {
                assert forall|k: int| 0 <= k < flat(zx).len() implies flat(zx)[k] == flat(
                    zy,
                )[k] by {
                    assert(put(zx)[k] == put(zy)[k]);
                }
            }
            lemma_flat_tells_text(zx, zy);
            lemma_trail_tells_script(x.drop_first(), y.drop_first(), t, i);
            assert(x =~= seq![x[0]] + x.drop_first());
            assert(y =~= seq![y[0]] + y.drop_first());
        }
    } else if y.len() > 0 && y[0] is Insert {
    } else if x.len() > 0 && y.len() > 0 {
        let n = size(prefix(t, x[0].length()));
        lemma_finished_rest(x);
        lemma_finished_rest(y);
        lemma_first(x, t);
        lemma_first(y, t);
        lemma_size_tells_position(t, x[0].length(), y[0].length());
        lemma_cancel(
            kept(i, n),
            trail(x.drop_first(), behind(x[0], t), i + n),
            kept(i, n),
            trail(y.drop_first(), behind(y[0], t), i + n),
        );
        lemma_trail_tells_script(x.drop_first(), y.drop_first(), behind(x[0], t), i + n);
        assert(x =~= seq![x[0]] + x.drop_first());
        assert(y =~= seq![y[0]] + y.drop_first());
    } else if x.len() > 0 {
        lemma_alone(x, t, i);
    } else {
        lemma_alone(y, t, i);
    }
}

/// A finished script that begins with a retention does not keep all of the
/// text and nothing else.
proof fn lemma_alone(w: Script, t: Lines, i: int)
    requires
        is_text(t),
        valid(w, t),
        is_finished(w),
        i >= 0,
        w.len() > 0,
        w[0] is Retain,
    ensures
        trail(w, t, i) != kept(i, size(t)),
{
    let l = w[0].length();
    let n = size(prefix(t, l));
    let v = suffix(t, l);
    let r = w.drop_first();
    lemma_finished_rest(w);
    lemma_first(w, t);
    lemma_size_split(t, l);
    lemma_head(w, t, i);
    lemma_head(r, v, i + n);
    lemma_trail(r, v, i + n);
    if trail(w, t, i) == kept(i, size(t)) {
        assert(kept(i, size(t)) + Trail::empty() =~= kept(i, size(t)));
        lemma_measure_kept(i, size(t), Trail::empty());
        assert(n == size(t));
        if r[0] is Delete {
            lemma_first(r, v);
            lemma_size_split(v, r[0].length());
        } else {
            lemma_size_zero(r[0].content());
            lemma_first(r, v);
            lemma_flat_concat(
                r[0].content(),
                crate::edit::apply(r.drop_first(), behind(r[0], v)),
            );
            lemma_size_zero(crate::edit::apply(r.drop_first(), behind(r[0], v)));
            assert(trail(w, t, i).len() == n + trail(r, v, i + n).len());
        }
    }
}

} // verus!
