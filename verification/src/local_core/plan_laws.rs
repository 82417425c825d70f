//! Why the plus-batch planner finds the longest batch: no sequence of
//! candidate cards that may follow one another is longer than the plan, and
//! none of the same length has a larger penalty.

use vstd::prelude::*;
use super::cards::{Card, Color, IndexedPlusPlay};
use super::plus::{
    best_suffix, color_options, entry_with, finished_plan, path_penalty, penalty_of, plus_playable, scan_candidates, try_colors,
};

verus! {

/// The card of candidate `i`.
pub open spec fn cand_card(cands: Seq<IndexedPlusPlay>, i: int) -> Card {
    cands[i].play.card
}

/// `idx` names candidates played one after the other from the state where the
/// candidates marked in `used` are spent, `color` is active and `top` lies on
/// the pile: each is unspent and may follow, and `cols` gives the color each
/// leaves active (one of its `color_options`).
pub open spec fn valid_plan(
    cands: Seq<IndexedPlusPlay>,
    used: Seq<bool>,
    color: Color,
    top: Card,
    idx: Seq<int>,
    cols: Seq<Color>,
) -> bool
    decreases idx.len(),
{
    &&& idx.len() == cols.len()
    &&& idx.len() > 0 ==> {
        let i = idx[0];
        &&& used.len() == cands.len()
        &&& 0 <= i < cands.len()
        &&& !used[i]
        &&& plus_playable(color, top, cand_card(cands, i))
        &&& color_options(cand_card(cands, i)).contains(cols[0])
        &&& valid_plan(cands, used.update(i, true), cols[0], cand_card(cands, i), idx.drop_first(), cols.drop_first())
    }
}

/// The summed penalty of the candidates `idx` names.
pub open spec fn plan_penalty(cands: Seq<IndexedPlusPlay>, idx: Seq<int>) -> int
    decreases idx.len(),
{
    if idx.len() == 0 {
        0
    } else {
        penalty_of(cand_card(cands, idx[0])) + plan_penalty(cands, idx.drop_first())
    }
}

/// A plan of length `len` and penalty `penalty` is no better than `best`:
/// shorter, or as long with no larger penalty.
pub open spec fn dominated(len: int, penalty: int, best: Seq<IndexedPlusPlay>) -> bool {
    len < best.len() || (len == best.len() && penalty <= path_penalty(best))
}

/// The plan that starts with candidate `i` leaving `col` active.
pub open spec fn plan_from(cands: Seq<IndexedPlusPlay>, used: Seq<bool>, i: int, col: Color) -> Seq<IndexedPlusPlay> {
    seq![entry_with(cands[i], col)] + best_suffix(cands, used.update(i, true), col, cand_card(cands, i))
}

proof fn lemma_penalty_prepend(e: IndexedPlusPlay, rest: Seq<IndexedPlusPlay>)
    ensures
        path_penalty(seq![e] + rest) == penalty_of(e.play.card) + path_penalty(rest),
    decreases rest.len(),
{
    if rest.len() == 0 {
        assert(seq![e] + rest =~= seq![e]);
        assert(seq![e].drop_last() =~= Seq::<IndexedPlusPlay>::empty());
        assert(seq![e].last() == e);
        assert(path_penalty(Seq::<IndexedPlusPlay>::empty()) == 0);
        assert(path_penalty(rest) == 0);
    } else {
        lemma_penalty_prepend(e, rest.drop_last());
        assert((seq![e] + rest).drop_last() =~= seq![e] + rest.drop_last());
        assert((seq![e] + rest).last() == rest.last());
    }
}

proof fn lemma_penalty_nonnegative(path: Seq<IndexedPlusPlay>)
    ensures
        path_penalty(path) >= 0,
    decreases path.len(),
{
    if path.len() > 0 {
        lemma_penalty_nonnegative(path.drop_last());
    }
}

/// Trying the colors of candidate `i` from color `k` on keeps a plan no worse
/// than `best`, and no worse than each plan tried.
proof fn lemma_try_colors(
    cands: Seq<IndexedPlusPlay>,
    used: Seq<bool>,
    i: int,
    colors: Seq<Color>,
    k: int,
    best: Seq<IndexedPlusPlay>,
)
    requires
        0 <= i < cands.len(),
        used.len() == cands.len(),
        !used[i],
        0 <= k,
    ensures
        dominated(best.len() as int, path_penalty(best), try_colors(cands, used, i, colors, k, best)),
        forall|m: int|
            k <= m < colors.len() ==> {
                let p = plan_from(cands, used, i, #[trigger] colors[m]);
                dominated(p.len() as int, path_penalty(p), try_colors(cands, used, i, colors, k, best))
            },
    decreases colors.len() - k,
{
    if k < colors.len() {
        let entry = entry_with(cands[i], colors[k]);
        let path = seq![entry] + best_suffix(cands, used.update(i, true), colors[k], entry.play.card);
        assert(entry.play.card == cand_card(cands, i));
        assert(path == plan_from(cands, used, i, colors[k]));
        let kept = if super::plus::better_path(path, best) {
            path
        } else {
            best
        };
        lemma_try_colors(cands, used, i, colors, k + 1, kept);
        assert(try_colors(cands, used, i, colors, k, best) == try_colors(cands, used, i, colors, k + 1, kept));
    }
}

/// The plans the scan from candidate `i` on tries: each first unspent
/// candidate of a card not yet considered that may follow, with each color it
/// may leave; the scan's result is no worse than any of them, nor than `best`.
proof fn lemma_scan(
    cands: Seq<IndexedPlusPlay>,
    used: Seq<bool>,
    color: Color,
    top: Card,
    i: int,
    considered: Set<Card>,
    best: Seq<IndexedPlusPlay>,
)
    requires
        0 <= i,
        used.len() == cands.len(),
    ensures
        dominated(best.len() as int, path_penalty(best), scan_candidates(cands, used, color, top, i, considered, best)),
        forall|j: int, col: Color|
            i <= j < cands.len() && !used[j] && !considered.contains(cand_card(cands, j)) && plus_playable(
                color,
                top,
                cand_card(cands, j),
            ) && (forall|m: int| i <= m < j && !used[m] ==> cand_card(cands, m) != cand_card(cands, j))
                && color_options(cand_card(cands, j)).contains(col) ==> {
                let p = #[trigger] plan_from(cands, used, j, col);
                dominated(p.len() as int, path_penalty(p), scan_candidates(cands, used, color, top, i, considered, best))
            },
    decreases cands.len() - i,
{
    let r = scan_candidates(cands, used, color, top, i, considered, best);
    if i < cands.len() {
        let card = cand_card(cands, i);
        if used[i] || considered.contains(card) {
            lemma_scan(cands, used, color, top, i + 1, considered, best);
        } else if !plus_playable(color, top, card) {
            lemma_scan(cands, used, color, top, i + 1, considered.insert(card), best);
        } else {
            let opts = color_options(card);
            let tried = try_colors(cands, used, i, opts, 0, best);
            lemma_try_colors(cands, used, i, opts, 0, best);
            lemma_scan(cands, used, color, top, i + 1, considered.insert(card), tried);
            assert(r == scan_candidates(cands, used, color, top, i + 1, considered.insert(card), tried));
            assert forall|j: int, col: Color|
                i <= j < cands.len() && !used[j] && !considered.contains(cand_card(cands, j)) && plus_playable(
                    color,
                    top,
                    cand_card(cands, j),
                ) && (forall|m: int| i <= m < j && !used[m] ==> cand_card(cands, m) != cand_card(cands, j))
                    && color_options(cand_card(cands, j)).contains(col) implies {
                let p = #[trigger] plan_from(cands, used, j, col);
                dominated(p.len() as int, path_penalty(p), r)
            } by {
                if j == i {
                    let m = choose|m: int| 0 <= m < opts.len() && opts[m] == col;
                    assert(opts[m] == col);
                }
            }
        }
    }
}

/// The position `x` takes when positions `a` and `b` trade places.
pub open spec fn swapped(x: int, a: int, b: int) -> int {
    if x == a {
        b
    } else if x == b {
        a
    } else {
        x
    }
}

/// Two candidates with the same card can trade places in a plan.
proof fn lemma_swap_plan(
    cands: Seq<IndexedPlusPlay>,
    u: Seq<bool>,
    v: Seq<bool>,
    color: Color,
    top: Card,
    idx: Seq<int>,
    cols: Seq<Color>,
    a: int,
    b: int,
)
    requires
        valid_plan(cands, u, color, top, idx, cols),
        0 <= a < cands.len(),
        0 <= b < cands.len(),
        cand_card(cands, a) == cand_card(cands, b),
        u.len() == cands.len(),
        v.len() == cands.len(),
        forall|m: int| 0 <= m < cands.len() ==> #[trigger] v[m] == u[swapped(m, a, b)],
    ensures
        valid_plan(cands, v, color, top, idx.map_values(|x: int| swapped(x, a, b)), cols),
        plan_penalty(cands, idx.map_values(|x: int| swapped(x, a, b))) == plan_penalty(cands, idx),
        idx.map_values(|x: int| swapped(x, a, b)).len() == idx.len(),
    decreases idx.len(),
{
    let mapped = idx.map_values(|x: int| swapped(x, a, b));
    if idx.len() > 0 {
        let i = idx[0];
        let j = swapped(i, a, b);
        assert(mapped[0] == j);
        assert(cand_card(cands, j) == cand_card(cands, i));
        assert(v[j] == u[swapped(j, a, b)]);
        assert(swapped(j, a, b) == i);
        let u2 = u.update(i, true);
        let v2 = v.update(j, true);
        assert forall|m: int| 0 <= m < cands.len() implies #[trigger] v2[m] == u2[swapped(m, a, b)] by {
            assert(v[m] == u[swapped(m, a, b)]);
            if m == j {
            } else {
                assert(swapped(m, a, b) != i);
            }
        }
        lemma_swap_plan(cands, u2, v2, cols[0], cand_card(cands, i), idx.drop_first(), cols.drop_first(), a, b);
        assert(mapped.drop_first() =~= idx.drop_first().map_values(|x: int| swapped(x, a, b)));
    } else {
        assert(mapped.len() == 0);
    }
}

/// The first unspent candidate holding `card`, at or before `j`.
proof fn first_unspent(cands: Seq<IndexedPlusPlay>, used: Seq<bool>, card: Card, m: int, j: int) -> (first: int)
    requires
        0 <= m <= j < cands.len(),
        used.len() == cands.len(),
        !used[j],
        cand_card(cands, j) == card,
        forall|k: int| 0 <= k < m && !used[k] ==> cand_card(cands, k) != card,
    ensures
        0 <= first <= j,
        !used[first],
        cand_card(cands, first) == card,
        forall|k: int| 0 <= k < first && !used[k] ==> cand_card(cands, k) != card,
    decreases j - m,
{
    if m == j || (!used[m] && cand_card(cands, m) == card) {
        m
    } else {
        first_unspent(cands, used, card, m + 1, j)
    }
}

/// The planner's plan is the longest: any sequence of unspent candidates that
/// may follow one another from the same state is shorter than the plan, or as
/// long with no larger penalty.
pub proof fn law_plan_is_longest(
    cands: Seq<IndexedPlusPlay>,
    used: Seq<bool>,
    color: Color,
    top: Card,
    idx: Seq<int>,
    cols: Seq<Color>,
)
    requires
        used.len() == cands.len(),
        valid_plan(cands, used, color, top, idx, cols),
    ensures
        dominated(idx.len() as int, plan_penalty(cands, idx), best_suffix(cands, used, color, top)),
    decreases idx.len(),
{
    let best = best_suffix(cands, used, color, top);
    lemma_penalty_nonnegative(best);
    if idx.len() > 0 {
        let j = idx[0];
        let col = cols[0];
        let card = cand_card(cands, j);
        let j0 = first_unspent(cands, used, card, 0, j);
        let rest = idx.drop_first();
        let rest_cols = cols.drop_first();
        let after = used.update(j0, true);
        let (moved, moved_penalty) = if j0 == j {
            (rest, plan_penalty(cands, rest))
        } else {
            let u = used.update(j, true);
            assert forall|m: int| 0 <= m < cands.len() implies #[trigger] after[m] == u[swapped(m, j, j0)] by {}
            lemma_swap_plan(cands, u, after, col, card, rest, rest_cols, j, j0);
            let mapped = rest.map_values(|x: int| swapped(x, j, j0));
            (mapped, plan_penalty(cands, mapped))
        };
        assert(valid_plan(cands, after, col, card, moved, rest_cols));
        assert(moved.len() == rest.len());
        assert(moved_penalty == plan_penalty(cands, rest));
        law_plan_is_longest(cands, after, col, card, moved, rest_cols);
        let tail = best_suffix(cands, after, col, card);
        let p = plan_from(cands, used, j0, col);
        assert(entry_with(cands[j0], col).play.card == card);
        lemma_penalty_prepend(entry_with(cands[j0], col), tail);
        assert(p.len() == 1 + tail.len());
        assert(path_penalty(p) == penalty_of(card) + path_penalty(tail));
        lemma_scan(cands, used, color, top, 0, Set::empty(), Seq::empty());
        assert(best == scan_candidates(cands, used, color, top, 0, Set::empty(), Seq::empty()));
        assert(plus_playable(color, top, cand_card(cands, j0)));
        assert(dominated(p.len() as int, path_penalty(p), best));
    }
}


/// The plan `best_plus_batch` hands back plays the same cards as the plan the
/// search found (only a final Wild +16 leaves its color open), so it is as long
/// and carries the same penalty.
pub proof fn law_finished_plan_keeps_cards(best: Seq<IndexedPlusPlay>)
    ensures
        finished_plan(best).len() == best.len(),
        forall|i: int| 0 <= i < best.len() ==> (#[trigger] finished_plan(best)[i]).card == best[i].play.card,
{
}

} // verus!
