//! What holds of the operations on texts and scripts taken together.

use vstd::prelude::*;
use vstd::std_specs::ops::{AddSpec, SubSpec};
use crate::chain::lemma_merge_trail;
use crate::edit::{
    apply, canonical, composable, composed, finished, inverse, inverted, is_finished, is_script,
    lemma_apply_is_text, lemma_canonical, lemma_finished, lengths_fit, merge, valid, Edit, Script,
};
use crate::effect::{lemma_append, lemma_canonical_result, lemma_canonical_stands};
use crate::lines::{
    empty, extent, is_bounded, is_plain, is_text, lemma_concat_empty, lemma_cut_at_ends,
    lemma_ends_are_positions, lemma_first_line_feed, lemma_position_right, lemma_split, prefix,
    split_lines, suffix, text_of, without_carriage_return, written, Lines,
};
use crate::measure::{lemma_plus_minus, Measure};
use crate::merging::{lemma_lengths_fit, lemma_merge, lemma_valid_is_script};
use crate::point::Point;
use crate::provenance::{lemma_through_assoc, lemma_trail, through, trail};
use crate::text::{bytes_of, Text};
use crate::trace::lemma_canonical_trail;
use crate::unique::lemma_trail_tells_script;

verus! {

/// Going on from a point by its distance to a later point arrives at the
/// later point.
pub proof fn law_point_round_trip(first: Point, second: Point)
    requires
        first@.le(second@),
    ensures
        second.sub_req(first),
        first.add_req(second.sub_spec(first)),
        first.add_spec(second.sub_spec(first)) == second,
{
    lemma_plus_minus(first@, second@);
}

/// A text made of the lines of another has the length of the other.
pub proof fn law_lines_keep_length(text: Text, lines: Seq<String>, again: Text)
    requires
        bytes_of(lines) == text@,
        again@ == bytes_of(lines),
    ensures
        again@ == text@,
        extent(again@) == extent(text@),
        text.wf() ==> again.wf(),
{
}

/// What is written of a text is at least as long as its last line.
proof fn lemma_written_length(t: Lines)
    requires
        t.len() >= 1,
    ensures
        written(t).len() >= t.last().len(),
    decreases t.len(),
{
    if t.len() > 1 {
        lemma_written_length(t.drop_first());
        assert(t.drop_first().last() == t.last());
    }
}

/// Reading what was written: a text whose lines are written one after the
/// other, with line feeds between them, is read from that string again,
/// with its length, if it can be written at all.
pub proof fn law_read_written(t: Lines)
    requires
        is_plain(t),
    ensures
        text_of(written(t)) == t,
        extent(text_of(written(t))) == extent(t),
    decreases t.len(),
{
    let s = written(t);
    if t.len() == 1 {
        if s.len() == 0 {
            assert(t =~~= empty());
        } else {
            lemma_first_line_feed(s, s.len() as int);
            assert(split_lines(s) =~= t);
        }
    } else {
        let rest = t.drop_first();
        let k = t[0].len() as int;
        assert(rest.last() == t.last());
        assert forall|i: int, j: int| 0 <= i < rest.len() && 0 <= j < rest[i].len() implies #[trigger] rest[i][j]
            != 10 by {
            assert(rest[i] == t[i + 1]);
            assert(t[i + 1][j] != 10);
        }
        assert forall|i: int| 0 <= i < rest.len() - 1 implies without_carriage_return(
            #[trigger] rest[i],
        ) == rest[i] by {
            assert(rest[i] == t[i + 1]);
        }
        law_read_written(rest);
        lemma_written_length(rest);
        assert forall|j: int| 0 <= j < k implies s[j] != 10 by {
            assert(s[j] == t[0][j]);
        }
        lemma_first_line_feed(s, k);
        assert(s.subrange(0, k) =~= t[0]);
        assert(s.subrange(k + 1, s.len() as int) =~= written(rest));
        assert(split_lines(s) =~= t);
    }
}

/// A script brought into canonical form and finished is a finished script.
pub proof fn law_canonical_form(raw: Script)
    requires
        is_script(raw),
    ensures
        is_finished(finished(canonical(raw))),
{
    lemma_canonical(raw);
    lemma_finished(canonical(raw));
}

/// The script that undoes `d`, operation for operation, can be carried out
/// on the result of `d`, and gives the text that `d` was carried out on.
pub proof fn lemma_inverse(d: Script, t: Lines)
    requires
        is_text(t),
        valid(d, t),
    ensures
        valid(inverse(d, t), apply(d, t)),
        apply(inverse(d, t), apply(d, t)) == t,
    decreases d.len(),
{
    if d.len() > 0 {
        let r = d.drop_first();
        match d[0] {
            Edit::Delete(l) => {
                let p = prefix(t, l);
                let s = suffix(t, l);
                let i = inverse(r, s);
                lemma_split(t, l);
                lemma_inverse(r, s);
                let whole = seq![Edit::Insert(p)] + i;
                assert(whole[0] == Edit::Insert(p));
                assert(whole.drop_first() =~= i);
            },
            Edit::Retain(l) => {
                let p = prefix(t, l);
                let s = suffix(t, l);
                let a = apply(r, s);
                let i = inverse(r, s);
                lemma_split(t, l);
                lemma_inverse(r, s);
                lemma_apply_is_text(r, s);
                lemma_ends_are_positions(a);
                lemma_cut_at_ends(a);
                lemma_position_right(p, a, Measure::zero());
                lemma_concat_empty(p);
                let whole = seq![Edit::Retain(l)] + i;
                assert(whole[0] == Edit::Retain(l));
                assert(whole.drop_first() =~= i);
            },
            Edit::Insert(x) => {
                let a = apply(r, t);
                let i = inverse(r, t);
                lemma_inverse(r, t);
                lemma_apply_is_text(r, t);
                lemma_ends_are_positions(a);
                lemma_cut_at_ends(a);
                lemma_position_right(x, a, Measure::zero());
                lemma_concat_empty(x);
                let whole = seq![Edit::Delete(extent(x))] + i;
                assert(whole[0] == Edit::Delete(extent(x)));
                assert(whole.drop_first() =~= i);
            },
        }
    }
}

/// Undoing: the inverse of a script, made with the text that the script was
/// carried out on, can be carried out on the result of the script, and
/// gives that text again.
pub proof fn law_invert_round_trip(d: Script, t: Lines)
    requires
        is_text(t),
        valid(d, t),
    ensures
        valid(inverted(d, t), apply(d, t)),
        apply(inverted(d, t), apply(d, t)) == t,
{
    lemma_inverse(d, t);
    lemma_apply_is_text(d, t);
    lemma_canonical_result(inverse(d, t), apply(d, t));
}

/// Composing: where `b` can be carried out on the result of `a`, the
/// composed script can be carried out on the text of `a`, and gives at once
/// what `a` and then `b` give.
pub proof fn law_compose(a: Script, b: Script, t: Lines)
    requires
        is_text(t),
        valid(a, t),
        valid(b, apply(a, t)),
    ensures
        valid(composed(a, b), t),
        apply(composed(a, b), t) == apply(b, apply(a, t)),
{
    lemma_merge(a, b, t);
    lemma_canonical_result(merge(a, b), t);
}

/// Where `b` can be carried out on the result of `a`, and `a` on a text
/// within the machine's limits, `b` can be merged into `a`.
pub proof fn law_composable(a: Script, b: Script, t: Lines)
    requires
        is_text(t),
        is_bounded(t),
        valid(a, t),
        valid(b, apply(a, t)),
    ensures
        composable(a, b),
{
    lemma_merge(a, b, t);
    let all = merge(a, b);
    assert forall|k: int| 0 <= k <= all.len() implies lengths_fit(
        canonical(#[trigger] all.take(k)),
    ) by {
        assert(all =~= all.take(k) + all.skip(k));
        lemma_append(all.take(k), all.skip(k), t);
        lemma_canonical_stands(all.take(k), t);
        lemma_lengths_fit(canonical(all.take(k)), t);
    }
}

/// Composing in a chain, either way: where `b` can be carried out on the
/// result of `a`, and `c` on the result of `b`, composing `a` with `b`
/// first and composing `b` with `c` first give scripts that can be carried
/// out on the text of `a`, with the same result.
pub proof fn law_compose_chain(a: Script, b: Script, c: Script, t: Lines)
    requires
        is_text(t),
        valid(a, t),
        valid(b, apply(a, t)),
        valid(c, apply(b, apply(a, t))),
    ensures
        valid(composed(composed(a, b), c), t),
        valid(composed(a, composed(b, c)), t),
        apply(composed(composed(a, b), c), t) == apply(c, apply(b, apply(a, t))),
        apply(composed(a, composed(b, c)), t) == apply(c, apply(b, apply(a, t))),
{
    lemma_apply_is_text(a, t);
    law_compose(a, b, t);
    law_compose(composed(a, b), c, t);
    law_compose(b, c, apply(a, t));
    law_compose(a, composed(b, c), t);
}

/// The composed script is finished, and its trail is the trail of the
/// second script taken through the trail of the first.
pub proof fn lemma_composed_trail(a: Script, b: Script, t: Lines)
    requires
        is_text(t),
        valid(a, t),
        valid(b, apply(a, t)),
    ensures
        is_finished(composed(a, b)),
        trail(composed(a, b), t, 0) == through(trail(a, t, 0), trail(b, apply(a, t), 0)),
{
    let own = trail(a, t, 0);
    lemma_merge(a, b, t);
    lemma_valid_is_script(merge(a, b), t);
    law_canonical_form(merge(a, b));
    lemma_canonical_trail(merge(a, b), t, 0);
    assert(own.subrange(0, own.len() as int) =~= own);
    lemma_merge_trail(a, b, t, 0, own, 0);
}

/// Composing is associative: where `b` can be carried out on the result of
/// `a`, and `c` on the result of `b`, composing `a` with `b` and then with
/// `c` gives the script that composing `a` with `b` composed with `c`
/// gives.
pub proof fn law_compose_associative(a: Script, b: Script, c: Script, t: Lines)
    requires
        is_text(t),
        valid(a, t),
        valid(b, apply(a, t)),
        valid(c, apply(b, apply(a, t))),
    ensures
        composed(composed(a, b), c) == composed(a, composed(b, c)),
{
    let t1 = apply(a, t);
    let t2 = apply(b, t1);
    lemma_apply_is_text(a, t);
    lemma_apply_is_text(b, t1);
    law_compose_chain(a, b, c, t);
    law_compose(a, b, t);
    law_compose(b, c, t1);
    lemma_composed_trail(a, b, t);
    lemma_composed_trail(b, c, t1);
    lemma_composed_trail(composed(a, b), c, t);
    lemma_composed_trail(a, composed(b, c), t);
    lemma_trail(b, t1, 0);
    lemma_trail(c, t2, 0);
    lemma_through_assoc(trail(a, t, 0), trail(b, t1, 0), trail(c, t2, 0));
    lemma_trail_tells_script(composed(composed(a, b), c), composed(a, composed(b, c)), t, 0);
}

} // verus!
