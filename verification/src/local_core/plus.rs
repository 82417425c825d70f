//! Plus batches: planning the best chain of +2, +8 and Wild +16 cards, and
//! playing a planned chain in one atomic step.

use vstd::prelude::*;
use super::cards::{
    Card, Color, EventKind, GameError, GameEvent, IndexedPlusPlay, PlayerId, PlusPlay, Rank, TurnPhase,
    HAND_BATCH_SIZE,
};
use super::game::{Game, advanced, copy_id, event_matches, gave_cards, lemma_advanced_add, same_seat_but_cards};
use super::hands::color_order;
use super::turns::{is_first_occurrence, position_of};

verus! {

/// The ranks a plus batch may hold.
pub open spec fn is_plus_rank(rank: Rank) -> bool {
    rank == Rank::DrawTwo || rank == Rank::DrawEight || rank == Rank::WildDrawSixteen
}

pub fn is_plus_batch_card(card: Card) -> (plus: bool)
    ensures
        plus == is_plus_rank(card.rank),
{
    match card.rank {
        Rank::DrawTwo | Rank::DrawEight | Rank::WildDrawSixteen => true,
        _ => false,
    }
}

/// A hand position and its card as a plan entry without a color choice.
pub fn indexed_plus_play(entry: (usize, Card)) -> (play: IndexedPlusPlay)
    ensures
        play == (IndexedPlusPlay { hand_index: entry.0, play: PlusPlay { card: entry.1, chosen_color: None } }),
{
    IndexedPlusPlay { hand_index: entry.0, play: PlusPlay { card: entry.1, chosen_color: None } }
}

/// The cards a plus card makes the next player draw.
pub open spec fn penalty_of(card: Card) -> int {
    match card.rank {
        Rank::DrawTwo => 2,
        Rank::DrawEight => 8,
        Rank::WildDrawSixteen => 16,
        _ => 0,
    }
}

pub fn plus_penalty(card: Card) -> (penalty: usize)
    ensures
        penalty as int == penalty_of(card),
{
    match card.rank {
        Rank::DrawTwo => 2,
        Rank::DrawEight => 8,
        Rank::WildDrawSixteen => 16,
        _ => 0,
    }
}

/// Whether a plus card may follow `top` under `active_color`: a Wild +16 always,
/// otherwise by color or by the rank of a colored top.
pub open spec fn plus_playable(active_color: Color, top: Card, card: Card) -> bool {
    card.rank == Rank::WildDrawSixteen || card.color == Some(active_color) || (!top.is_wild() && card.rank
        == top.rank)
}

pub fn plus_card_is_playable(active_color: Color, top: Card, card: Card) -> (playable: bool)
    ensures
        playable == plus_playable(active_color, top, card),
{
    card.rank == Rank::WildDrawSixteen || card.color == Some(active_color) || (!top.is_wild() && card.rank
        == top.rank)
}

/// The sum of the penalties along a plan.
pub open spec fn path_penalty(path: Seq<IndexedPlusPlay>) -> int
    decreases path.len(),
{
    if path.len() == 0 {
        0
    } else {
        path_penalty(path.drop_last()) + penalty_of(path.last().play.card)
    }
}

/// `a`'s hand positions come lexicographically before `b`'s.
pub open spec fn positions_before(a: Seq<IndexedPlusPlay>, b: Seq<IndexedPlusPlay>) -> bool
    decreases a.len(),
{
    if a.len() == 0 {
        b.len() > 0
    } else if b.len() == 0 {
        false
    } else if a[0].hand_index < b[0].hand_index {
        true
    } else if a[0].hand_index > b[0].hand_index {
        false
    } else {
        positions_before(a.drop_first(), b.drop_first())
    }
}

/// The plan order: longer first, then the larger penalty, then the earlier
/// hand positions.
pub open spec fn better_path(candidate: Seq<IndexedPlusPlay>, current: Seq<IndexedPlusPlay>) -> bool {
    ||| candidate.len() > current.len()
    ||| candidate.len() == current.len() && path_penalty(candidate) > path_penalty(current)
    ||| candidate.len() == current.len() && path_penalty(candidate) == path_penalty(current)
        && positions_before(candidate, current)
}

proof fn lemma_path_penalty_bound(path: Seq<IndexedPlusPlay>)
    ensures
        0 <= path_penalty(path) <= 16 * path.len(),
    decreases path.len(),
{
    if path.len() > 0 {
        lemma_path_penalty_bound(path.drop_last());
    }
}

fn penalty_sum(path: &[IndexedPlusPlay]) -> (sum: u128)
    ensures
        sum as int == path_penalty(path@),
{
    let mut sum: u128 = 0;
    let mut i: usize = 0;
    while i < path.len()
        invariant
            i <= path@.len(),
            sum as int == path_penalty(path@.take(i as int)),
            sum <= 16 * i,
        decreases path@.len() - i,
    {
        proof {
            assert(path@.take(i + 1).drop_last() =~= path@.take(i as int));
            lemma_path_penalty_bound(path@.take(i as int));
        }
        sum = sum + plus_penalty(path[i].play.card) as u128;
        i += 1;
    }
    proof {
        assert(path@.take(path@.len() as int) =~= path@);
    }
    sum
}

/// Whether `candidate` is a better plan than `current`; see `better_path`.
pub fn plus_path_is_better(candidate: &[IndexedPlusPlay], current: &[IndexedPlusPlay]) -> (better: bool)
    ensures
        better == better_path(candidate@, current@),
{
    let candidate_penalty = penalty_sum(candidate);
    let current_penalty = penalty_sum(current);
    if candidate.len() != current.len() {
        return candidate.len() > current.len();
    }
    if candidate_penalty != current_penalty {
        return candidate_penalty > current_penalty;
    }
    let mut i: usize = 0;
    proof {
        assert(candidate@.skip(0) =~= candidate@);
        assert(current@.skip(0) =~= current@);
    }
    while i < candidate.len()
        invariant
            i <= candidate@.len(),
            candidate@.len() == current@.len(),
            path_penalty(candidate@) == path_penalty(current@),
            positions_before(candidate@, current@) == positions_before(candidate@.skip(i as int), current@.skip(i as int)),
        decreases candidate@.len() - i,
    {
        proof {
            assert(candidate@.skip(i as int).drop_first() =~= candidate@.skip(i + 1));
            assert(current@.skip(i as int).drop_first() =~= current@.skip(i + 1));
            assert(candidate@.skip(i as int)[0] == candidate@[i as int]);
            assert(current@.skip(i as int)[0] == current@[i as int]);
        }
        if candidate[i].hand_index != current[i].hand_index {
            proof {
                let a = candidate@.skip(i as int);
                let b = current@.skip(i as int);
                assert(a.len() > 0 && b.len() > 0);
                assert(positions_before(a, b) == (a[0].hand_index < b[0].hand_index));
            }
            return candidate[i].hand_index < current[i].hand_index;
        }
        i += 1;
    }
    proof {
        assert(candidate@.skip(i as int).len() == 0);
        assert(current@.skip(i as int).len() == 0);
    }
    false
}

/// The colors a plus card may leave active: any for a Wild +16, else its own.
pub open spec fn color_options(card: Card) -> Seq<Color> {
    if card.rank == Rank::WildDrawSixteen {
        color_order()
    } else {
        seq![card.color.unwrap()]
    }
}

/// The number of candidates not used yet.
pub open spec fn unused_count(used: Seq<bool>) -> nat
    decreases used.len(),
{
    if used.len() == 0 {
        0
    } else {
        unused_count(used.drop_last()) + if used.last() {
            0nat
        } else {
            1nat
        }
    }
}

pub proof fn lemma_unused_update(used: Seq<bool>, i: int)
    requires
        0 <= i < used.len(),
        !used[i],
    ensures
        unused_count(used.update(i, true)) + 1 == unused_count(used),
    decreases used.len(),
{
    let updated = used.update(i, true);
    if i == used.len() - 1 {
        assert(updated.drop_last() =~= used.drop_last());
    } else {
        assert(updated.drop_last() =~= used.drop_last().update(i, true));
        lemma_unused_update(used.drop_last(), i);
    }
}

/// The entry that plays candidate `cand` leaving `chosen` active: a Wild +16
/// records the color choice.
pub open spec fn entry_with(cand: IndexedPlusPlay, chosen: Color) -> IndexedPlusPlay {
    if cand.play.card.rank == Rank::WildDrawSixteen {
        IndexedPlusPlay { hand_index: cand.hand_index, play: PlusPlay { card: cand.play.card, chosen_color: Some(chosen) } }
    } else {
        cand
    }
}

/// The best plan continuing from a state where the candidates marked in `used`
/// are spent, `color` is active and `top` lies on the pile: every unused,
/// playable candidate (the first of each distinct card only) with each color it
/// may leave, followed by the best plan after it, kept when `better_path` than
/// the best so far.
pub open spec fn best_suffix(cands: Seq<IndexedPlusPlay>, used: Seq<bool>, color: Color, top: Card) -> Seq<
    IndexedPlusPlay,
>
    decreases unused_count(used), 3nat, 0nat, 0nat,
{
    scan_candidates(cands, used, color, top, 0, Set::empty(), Seq::empty())
}

pub open spec fn scan_candidates(
    cands: Seq<IndexedPlusPlay>,
    used: Seq<bool>,
    color: Color,
    top: Card,
    i: int,
    considered: Set<Card>,
    best: Seq<IndexedPlusPlay>,
) -> Seq<IndexedPlusPlay>
    decreases unused_count(used), 2nat, (cands.len() - i) as nat, 0nat,
{
    if i < 0 || i >= cands.len() || used.len() != cands.len() {
        best
    } else {
        let card = cands[i].play.card;
        if used[i] || considered.contains(card) {
            scan_candidates(cands, used, color, top, i + 1, considered, best)
        } else if !plus_playable(color, top, card) {
            scan_candidates(cands, used, color, top, i + 1, considered.insert(card), best)
        } else {
            let tried = try_colors(cands, used, i, color_options(card), 0, best);
            scan_candidates(cands, used, color, top, i + 1, considered.insert(card), tried)
        }
    }
}

pub open spec fn try_colors(
    cands: Seq<IndexedPlusPlay>,
    used: Seq<bool>,
    i: int,
    colors: Seq<Color>,
    k: int,
    best: Seq<IndexedPlusPlay>,
) -> Seq<IndexedPlusPlay>
    decreases unused_count(used), 1nat, 0nat, (colors.len() - k) as nat,
{
    if k < 0 || k >= colors.len() || i < 0 || i >= cands.len() || used.len() != cands.len() || used[i] {
        best
    } else {
        proof {
            lemma_unused_update(used, i);
        }
        let entry = entry_with(cands[i], colors[k]);
        let path = seq![entry] + best_suffix(cands, used.update(i, true), colors[k], entry.play.card);
        let kept = if better_path(path, best) {
            path
        } else {
            best
        };
        try_colors(cands, used, i, colors, k + 1, kept)
    }
}


/// The candidates a bit mask marks as spent, among the first `len`.
pub open spec fn bits_of(mask: u64, len: nat) -> Seq<bool> {
    Seq::new(len, |j: int| (mask >> (j as u64)) & 1u64 == 1u64)
}

proof fn lemma_bit_test(mask: u64, i: u64)
    requires
        i < 64,
    ensures
        (mask & (1u64 << i) != 0) == ((mask >> i) & 1u64 == 1u64),
{
    assert((mask & (1u64 << i) != 0) == ((mask >> i) & 1u64 == 1u64)) by (bit_vector)
        requires
            i < 64,
    ;
}

proof fn lemma_bits_set(mask: u64, i: u64, len: nat)
    requires
        i < len <= 64,
    ensures
        bits_of(mask | (1u64 << i), len) == bits_of(mask, len).update(i as int, true),
{
    assert(bits_of(mask | (1u64 << i), len) =~= bits_of(mask, len).update(i as int, true)) by {
        assert forall|j: int| 0 <= j < len implies bits_of(mask | (1u64 << i), len)[j] == bits_of(mask, len).update(
            i as int,
            true,
        )[j] by {
            let ju = j as u64;
            assert((((mask | (1u64 << i)) >> ju) & 1u64 == 1u64) == (ju == i || (mask >> ju) & 1u64 == 1u64)) by (bit_vector)
                requires
                    i < 64,
                    ju < 64,
            ;
        }
    }
}

proof fn lemma_bits_empty(len: nat)
    requires
        len <= 64,
    ensures
        bits_of(0, len) == Seq::new(len, |j: int| false),
{
    assert forall|j: int| 0 <= j < len implies bits_of(0, len)[j] == false by {
        let ju = j as u64;
        assert(((0u64 >> ju) & 1u64 == 1u64) == false) by (bit_vector);
    }
    assert(bits_of(0, len) =~= Seq::new(len, |j: int| false));
}

/// A remembered plan: the best plan from a search state.
struct PlanMemo {
    used: u64,
    color: Color,
    top: Card,
    path: Vec<IndexedPlusPlay>,
}

/// Every remembered plan is the best plan of its state.
spec fn memo_ok(memo: Seq<PlanMemo>, cands: Seq<IndexedPlusPlay>) -> bool {
    forall|m: int|
        0 <= m < memo.len() ==> (#[trigger] memo[m]).path@ == best_suffix(
            cands,
            bits_of(memo[m].used, cands.len()),
            memo[m].color,
            memo[m].top,
        )
}

/// Every plus candidate can leave a color active: a Wild +16, or a colored card.
pub open spec fn candidates_colored(cands: Seq<IndexedPlusPlay>) -> bool {
    forall|i: int| 0 <= i < cands.len() ==> (#[trigger] cands[i]).play.card.rank == Rank::WildDrawSixteen
        || cands[i].play.card.color is Some
}

fn holds_card(cards: &Vec<Card>, card: Card) -> (held: bool)
    ensures
        held == cards@.contains(card),
{
    let mut i: usize = 0;
    while i < cards.len()
        invariant
            i <= cards@.len(),
            forall|k: int| 0 <= k < i ==> cards@[k] != card,
        decreases cards@.len() - i,
    {
        if cards[i] == card {
            proof {
                assert(cards@[i as int] == card);
            }
            return true;
        }
        i += 1;
    }
    false
}

/// The best plan from the state (`used`, `active_color`, `top`); see
/// `best_suffix`. Plans already worked out are looked up in `memo`.
fn best_plus_suffix(
    candidates: &Vec<IndexedPlusPlay>,
    used: u64,
    active_color: Color,
    top: Card,
    memo: &mut Vec<PlanMemo>,
) -> (best: Vec<IndexedPlusPlay>)
    requires
        candidates@.len() <= 63,
        candidates_colored(candidates@),
        memo_ok(old(memo)@, candidates@),
    ensures
        best@ == best_suffix(candidates@, bits_of(used, candidates@.len()), active_color, top),
        memo_ok(final(memo)@, candidates@),
    decreases unused_count(bits_of(used, candidates@.len())),
{
    let ghost len = candidates@.len();
    let mut m: usize = 0;
    while m < memo.len()
        invariant
            m <= memo@.len(),
            len == candidates@.len(),
            memo_ok(memo@, candidates@),
        decreases memo@.len() - m,
    {
        if memo[m].used == used && memo[m].color == active_color && memo[m].top == top {
            let cached = memo[m].path.clone();
            proof {
                assert(memo@[m as int].path@ == best_suffix(candidates@, bits_of(used, len), active_color, top));
                assert(cached@ =~= memo@[m as int].path@);
            }
            return cached;
        }
        m += 1;
    }
    let ghost used_seq = bits_of(used, len);
    let mut best: Vec<IndexedPlusPlay> = Vec::new();
    let mut considered: Vec<Card> = Vec::new();
    let ghost mut considered_set: Set<Card> = Set::empty();
    let mut i: usize = 0;
    while i < candidates.len()
        invariant
            i <= len,
            len == candidates@.len(),
            len <= 63,
            used_seq == bits_of(used, len),
            candidates_colored(candidates@),
            memo_ok(memo@, candidates@),
            forall|c: Card| considered_set.contains(c) <==> considered@.contains(c),
            scan_candidates(candidates@, used_seq, active_color, top, i as int, considered_set, best@)
                == best_suffix(candidates@, used_seq, active_color, top),
        decreases len - i,
    {
        let candidate = candidates[i];
        let card = candidate.play.card;
        let bit: u64 = 1u64 << (i as u64);
        proof {
            lemma_bit_test(used, i as u64);
            assert(used_seq[i as int] == ((used >> (i as u64)) & 1u64 == 1u64));
        }
        if used & bit != 0 {
            i += 1;
        } else if holds_card(&considered, card) {
            i += 1;
        } else if !plus_card_is_playable(active_color, top, card) {
            let ghost cprev = considered@;
            considered.push(card);
            proof {
                considered_set = considered_set.insert(card);
                assert forall|c: Card| considered_set.contains(c) <==> considered@.contains(c) by {
                    assert(considered@ == cprev.push(card));
                    if considered@.contains(c) && c != card {
                        let k = choose|k: int| 0 <= k < considered@.len() && considered@[k] == c;
                        assert(cprev[k] == c);
                    }
                    if c == card {
                        assert(considered@[considered@.len() - 1] == c);
                    }
                    if cprev.contains(c) {
                        let k = choose|k: int| 0 <= k < cprev.len() && cprev[k] == c;
                        assert(considered@[k] == c);
                    }
                }
            }
            i += 1;
        } else {
            let ghost cprev = considered@;
            considered.push(card);
            let ghost best_before = best@;
            let ghost considered_before = considered_set;
            proof {
                considered_set = considered_set.insert(card);
                assert forall|c: Card| considered_set.contains(c) <==> considered@.contains(c) by {
                    assert(considered@ == cprev.push(card));
                    if considered@.contains(c) && c != card {
                        let k = choose|k: int| 0 <= k < considered@.len() && considered@[k] == c;
                        assert(cprev[k] == c);
                    }
                    if c == card {
                        assert(considered@[considered@.len() - 1] == c);
                    }
                    if cprev.contains(c) {
                        let k = choose|k: int| 0 <= k < cprev.len() && cprev[k] == c;
                        assert(considered@[k] == c);
                    }
                }
                lemma_bits_set(used, i as u64, len);
                lemma_unused_update(used_seq, i as int);
            }
            let mut colors: Vec<Color> = Vec::new();
            if card.rank == Rank::WildDrawSixteen {
                colors.push(Color::Red);
                colors.push(Color::Yellow);
                colors.push(Color::Green);
                colors.push(Color::Blue);
            } else {
                colors.push(card.color.unwrap());
            }
            proof {
                assert(colors@ =~= color_options(card));
            }
            let mut k: usize = 0;
            while k < colors.len()
                invariant
                    i < len,
                    len == candidates@.len(),
                    len <= 63,
                    used_seq == bits_of(used, len),
                    !used_seq[i as int],
                    bits_of(used | bit, len) == used_seq.update(i as int, true),
                    unused_count(used_seq.update(i as int, true)) < unused_count(used_seq),
                    candidate == candidates@[i as int],
                    colors@ == color_options(card),
                    card == candidate.play.card,
                    candidates_colored(candidates@),
                    memo_ok(memo@, candidates@),
                    k <= colors@.len(),
                    try_colors(candidates@, used_seq, i as int, colors@, k as int, best@)
                        == try_colors(candidates@, used_seq, i as int, colors@, 0, best_before),
                decreases colors@.len() - k,
            {
                let chosen = colors[k];
                let entry = if card.rank == Rank::WildDrawSixteen {
                    IndexedPlusPlay {
                        hand_index: candidate.hand_index,
                        play: PlusPlay { card, chosen_color: Some(chosen) },
                    }
                } else {
                    candidate
                };
                let mut suffix = best_plus_suffix(candidates, used | bit, chosen, entry.play.card, memo);
                let mut path: Vec<IndexedPlusPlay> = Vec::new();
                path.push(entry);
                path.append(&mut suffix);
                proof {
                    assert(entry == entry_with(candidates@[i as int], colors@[k as int]));
                    assert(path@ =~= seq![entry] + best_suffix(
                        candidates@,
                        used_seq.update(i as int, true),
                        chosen,
                        entry.play.card,
                    ));
                }
                if plus_path_is_better(path.as_slice(), best.as_slice()) {
                    best = path;
                }
                k += 1;
            }
            proof {
                assert(scan_candidates(candidates@, used_seq, active_color, top, i as int, considered_before, best_before)
                    == scan_candidates(candidates@, used_seq, active_color, top, i + 1, considered_set, best@));
            }
            i += 1;
        }
    }
    let stored = best.clone();
    proof {
        assert(stored@ =~= best@);
    }
    let ghost memo_before = memo@;
    memo.push(PlanMemo { used, color: active_color, top, path: stored });
    proof {
        assert forall|m: int| 0 <= m < memo@.len() implies (#[trigger] memo@[m]).path@ == best_suffix(
            candidates@,
            bits_of(memo@[m].used, candidates@.len()),
            memo@[m].color,
            memo@[m].top,
        ) by {
            if m < memo@.len() - 1 {
                assert(memo@[m] == memo_before[m]);
            }
        }
    }
    best
}


/// The hand's cards as plan entries, by position.
pub open spec fn indexed_cards(hand: Seq<Card>) -> Seq<IndexedPlusPlay> {
    Seq::new(
        hand.len(),
        |i: int| IndexedPlusPlay { hand_index: i as usize, play: PlusPlay { card: hand[i], chosen_color: None } },
    )
}

pub open spec fn is_plus_entry() -> spec_fn(IndexedPlusPlay) -> bool {
    |e: IndexedPlusPlay| is_plus_rank(e.play.card.rank)
}

/// The first position of `card` in `cards`.
pub open spec fn first_position(cards: Seq<Card>, card: Card) -> int {
    choose|i: int| is_first_occurrence(cards, card, i)
}

proof fn lemma_first_position(cards: Seq<Card>, card: Card, i: int)
    requires
        is_first_occurrence(cards, card, i),
    ensures
        first_position(cards, card) == i,
{
    let j = first_position(cards, card);
    assert(is_first_occurrence(cards, card, j));
    if j < i {
        assert(cards[j] != card);
    }
    if i < j {
        assert(cards[i] != card);
    }
}

/// The plus cards a plan may use: every plus card of the hand, or after a draw
/// only the drawn card (at its first position) when it is a plus card.
pub open spec fn plus_candidates(phase: TurnPhase, hand: Seq<Card>) -> Seq<IndexedPlusPlay> {
    match phase {
        TurnPhase::AwaitingAction => indexed_cards(hand).filter(is_plus_entry()),
        TurnPhase::Drew(drawn) => if is_plus_rank(drawn.rank) && hand.contains(drawn) {
            seq![IndexedPlusPlay {
                hand_index: first_position(hand, drawn) as usize,
                play: PlusPlay { card: drawn, chosen_color: None },
            }]
        } else {
            Seq::<IndexedPlusPlay>::empty()
        },
    }
}

/// A plan as plays; a final Wild +16 leaves its color to be chosen.
pub open spec fn finished_plan(best: Seq<IndexedPlusPlay>) -> Seq<PlusPlay> {
    let plays = best.map_values(|e: IndexedPlusPlay| e.play);
    if best.len() > 0 && best.last().play.card.rank == Rank::WildDrawSixteen {
        plays.update(best.len() - 1, PlusPlay { card: best.last().play.card, chosen_color: None })
    } else {
        plays
    }
}

/// Every plus card of `hand` is a Wild +16 or carries a color.
pub open spec fn plus_cards_colored(hand: Seq<Card>) -> bool {
    forall|i: int| 0 <= i < hand.len() && is_plus_rank(#[trigger] hand[i].rank) ==> hand[i].rank
        == Rank::WildDrawSixteen || hand[i].color is Some
}

/// `cards` without the first copy of `card`.
pub open spec fn remove_first(cards: Seq<Card>, card: Card) -> Seq<Card> {
    cards.remove(first_position(cards, card))
}

/// Checks a planned batch against the cards in hand, the active color and the
/// top card, one play after the other: each must be a plus card that may follow,
/// be held (its first copy is spent), and name a color exactly when it is a
/// Wild +16. The unspent cards and the color left active, or the first error.
pub open spec fn batch_check(plays: Seq<PlusPlay>, remaining: Seq<Card>, color: Color, top: Card) -> Result<
    (Seq<Card>, Color),
    GameError,
>
    decreases plays.len(),
{
    if plays.len() == 0 {
        Ok((remaining, color))
    } else {
        let play = plays[0];
        let card = play.card;
        if !is_plus_rank(card.rank) || !plus_playable(color, top, card) {
            Err(GameError::InvalidPlusBatch)
        } else if !remaining.contains(card) {
            Err(GameError::CardNotOwned(card))
        } else if card.rank == Rank::WildDrawSixteen {
            match play.chosen_color {
                Some(chosen) => batch_check(plays.drop_first(), remove_first(remaining, card), chosen, card),
                None => Err(GameError::MissingColorChoice),
            }
        } else {
            match play.chosen_color {
                Some(_) => Err(GameError::UnexpectedColorChoice),
                None => batch_check(plays.drop_first(), remove_first(remaining, card), card.color.unwrap(), card),
            }
        }
    }
}

/// The penalty of a batch.
pub open spec fn plays_penalty(plays: Seq<PlusPlay>) -> int
    decreases plays.len(),
{
    if plays.len() == 0 {
        0
    } else {
        plays_penalty(plays.drop_last()) + penalty_of(plays.last().card)
    }
}

/// The error a batch of `plays` by the current seat is refused with, if any.
pub open spec fn batch_error(g: Game, plays: Seq<PlusPlay>) -> Option<GameError> {
    let hand = g.players@[g.current_index as int].hand@;
    if plays.len() == 0 {
        Some(GameError::EmptyPlusBatch)
    } else if g.phase matches TurnPhase::Drew(drawn) && (plays.len() != 1 || plays[0].card != drawn) {
        Some(GameError::InvalidPlusBatch)
    } else {
        match batch_check(plays, hand, g.active_color, g.top()) {
            Err(e) => Some(e),
            Ok(_) => None,
        }
    }
}

/// `new` is `old` after the current seat `player` played the valid batch
/// `plays`: the cards left the hand and went onto the discard pile in order, the
/// final color became active, the next seat drew the summed penalty and was
/// skipped, and `event` reports it; an emptied hand wins.
pub open spec fn batch_played(old: Game, new: Game, player: PlayerId, plays: Seq<PlusPlay>, event: GameEvent) -> bool {
    let a = old.current_index as int;
    let n = old.players@.len() as int;
    let t = advanced(a, n, old.direction, 1);
    let checked = batch_check(plays, old.players@[a].hand@, old.active_color, old.top());
    let rest = checked->Ok_0.0;
    let color = checked->Ok_0.1;
    let penalty = plays_penalty(plays);
    let cards = plays.map_values(|p: PlusPlay| p.card);
    let m = old.events@.len();
    let won = new.players@[a].total() == 0;
    &&& exists|mid: Game|
        #[trigger] gave_cards(mid, new, t, penalty) && {
            &&& mid.players@.len() == old.players@.len()
            &&& forall|k: int| 0 <= k < n && k != a ==> mid.players@[k] == old.players@[k]
            &&& same_seat_but_cards(mid.players@[a], old.players@[a])
            &&& mid.players@[a].hand@ == rest
            &&& mid.players@[a].virtual_len == old.players@[a].virtual_len
            &&& mid.players@[a].draw_state == old.players@[a].draw_state
            &&& mid.deck_variant == old.deck_variant
        }
    &&& new.discard_pile@ == old.discard_pile@ + cards
    &&& new.active_color == color
    &&& new.phase == TurnPhase::AwaitingAction
    &&& new.direction == old.direction
    &&& new.current_index == advanced(a, n, old.direction, 2)
    &&& new.deck_variant == old.deck_variant
    &&& new.house_rules == old.house_rules
    &&& new.refill_seed_source == old.refill_seed_source
    &&& event.sequence == m
    &&& event.kind matches EventKind::PlusBatchPlayed {
        player: p,
        cards: played,
        target,
        penalty: pen,
        drawn,
        final_color,
    } && p == player && played@ == cards && target == old.players@[t].id && pen == penalty && drawn == penalty
        && final_color == color
    &&& new.events@.subrange(0, m as int) == old.events@
    &&& event_matches(new.events@[m as int], event)
    &&& if won {
        &&& new.winner == Some(player)
        &&& new.events@.len() == m + 2
        &&& new.events@[m as int + 1] == (GameEvent { sequence: (m + 1) as u64, kind: EventKind::GameWon { player } })
    } else {
        &&& new.winner == old.winner
        &&& new.events@.len() == m + 1
    }
}

impl Game {
    /// The plus cards the current seat may plan with; see `plus_candidates`.
    fn collect_plus_candidates(&self) -> (cands: Vec<IndexedPlusPlay>)
        requires
            self.wf(),
        ensures
            cands@ == plus_candidates(self.phase, self.players@[self.current_index as int].hand@),
            forall|i: int| 0 <= i < cands@.len() ==> self.players@[self.current_index as int].hand@.contains(
                (#[trigger] cands@[i]).play.card,
            ) && is_plus_rank(cands@[i].play.card.rank),
    {
        let hand = &self.players[self.current_index].hand;
        let mut cands: Vec<IndexedPlusPlay> = Vec::new();
        match self.phase {
            TurnPhase::AwaitingAction => {
                let mut i: usize = 0;
                while i < hand.len()
                    invariant
                        i <= hand@.len(),
                        cands@ == indexed_cards(hand@).take(i as int).filter(is_plus_entry()),
                        forall|j: int| 0 <= j < cands@.len() ==> hand@.contains((#[trigger] cands@[j]).play.card)
                            && is_plus_rank(cands@[j].play.card.rank),
                    decreases hand@.len() - i,
                {
                    proof {
                        let prefix = indexed_cards(hand@).take(i + 1);
                        assert(prefix.drop_last() =~= indexed_cards(hand@).take(i as int));
                        assert(prefix.last() == indexed_cards(hand@)[i as int]);
                        reveal_with_fuel(Seq::filter, 1);
                    }
                    if is_plus_batch_card(hand[i]) {
                        cands.push(indexed_plus_play((i, hand[i])));
                        proof {
                            assert(hand@.contains(hand@[i as int]));
                        }
                    }
                    i += 1;
                }
                proof {
                    assert(indexed_cards(hand@).take(hand@.len() as int) =~= indexed_cards(hand@));
                }
            },
            TurnPhase::Drew(drawn) => {
                if is_plus_batch_card(drawn) {
                    match position_of(hand, drawn) {
                        Some(index) => {
                            proof {
                                lemma_first_position(hand@, drawn, index as int);
                                assert(hand@.contains(hand@[index as int]));
                            }
                            cands.push(indexed_plus_play((index, drawn)));
                        },
                        None => {},
                    }
                }
                proof {
                    assert(cands@ =~= plus_candidates(self.phase, hand@));
                }
            },
        }
        cands
    }

    /// Plans the longest batch of +2, +8 and Wild +16 cards `player` can play
    /// now (ties go to the larger penalty, then the earlier hand positions). A
    /// Wild +16 inside the plan carries the color its successor needs; a final
    /// one leaves the color to be chosen.
    pub fn best_plus_batch(&self, player: &PlayerId) -> (result: Result<Vec<PlusPlay>, GameError>)
        requires
            self.wf(),
            plus_cards_colored(self.players@[self.current_index as int].hand@),
        ensures
            self.seat_of(player.0@) == -1 ==> result == Err::<Vec<PlusPlay>, GameError>(GameError::UnknownPlayer(*player)),
            self.seat_of(player.0@) != -1 && !self.is_turn_of(player.0@) ==> result == Err::<Vec<PlusPlay>, GameError>(
                GameError::NotPlayerTurn(*player),
            ),
            self.is_turn_of(player.0@) && self.winner is Some ==> result == Err::<Vec<PlusPlay>, GameError>(
                GameError::GameAlreadyWon,
            ),
            self.is_turn_of(player.0@) && self.winner is None ==> {
                let cands = plus_candidates(self.phase, self.players@[self.current_index as int].hand@);
                if cands.len() > 63 {
                    result == Err::<Vec<PlusPlay>, GameError>(GameError::InvalidPlusBatch)
                } else {
                    result matches Ok(plan) && plan@ == finished_plan(
                        best_suffix(cands, Seq::new(cands.len(), |j: int| false), self.active_color, self.top()),
                    )
                }
            },
    {
        self.ensure_turn(player)?;
        if self.winner.is_some() {
            return Err(GameError::GameAlreadyWon);
        }
        let cands = self.collect_plus_candidates();
        if cands.len() > 63 {
            return Err(GameError::InvalidPlusBatch);
        }
        proof {
            broadcast use vstd::seq_lib::group_filter_ensures;
            let hand = self.players@[self.current_index as int].hand@;
            assert forall|i: int| 0 <= i < cands@.len() implies (#[trigger] cands@[i]).play.card.rank == Rank::WildDrawSixteen
                || cands@[i].play.card.color is Some by {
                let k = choose|k: int| 0 <= k < hand.len() && hand[k] == cands@[i].play.card;
                assert(is_plus_rank(hand[k].rank));
            }
            lemma_bits_empty(cands@.len());
        }
        let top = self.discard_pile[self.discard_pile.len() - 1];
        let mut memo: Vec<PlanMemo> = Vec::new();
        let best = best_plus_suffix(&cands, 0, self.active_color, top, &mut memo);
        let mut plan: Vec<PlusPlay> = Vec::new();
        let mut i: usize = 0;
        while i < best.len()
            invariant
                i <= best@.len(),
                plan@ == best@.take(i as int).map_values(|e: IndexedPlusPlay| e.play),
            decreases best@.len() - i,
        {
            plan.push(best[i].play);
            proof {
                assert(best@.take(i + 1).map_values(|e: IndexedPlusPlay| e.play) =~= plan@);
            }
            i += 1;
        }
        proof {
            assert(best@.take(best@.len() as int) =~= best@);
        }
        let count = plan.len();
        if count > 0 && plan[count - 1].card.rank == Rank::WildDrawSixteen {
            let card = plan[count - 1].card;
            plan.set(count - 1, PlusPlay { card, chosen_color: None });
        }
        proof {
            assert(plan@ =~= finished_plan(best@));
        }
        Ok(plan)
    }
}


/// Whether checking `plays` as `batch_check` does reaches a held, playable
/// plus card that is not a Wild +16, names no chosen color and has no color of
/// its own, so that no color could become active (decks make no such card).
pub open spec fn batch_hits_colorless(plays: Seq<PlusPlay>, remaining: Seq<Card>, color: Color, top: Card) -> bool
    decreases plays.len(),
{
    if plays.len() == 0 {
        false
    } else {
        let play = plays[0];
        let card = play.card;
        if !is_plus_rank(card.rank) || !plus_playable(color, top, card) || !remaining.contains(card) {
            false
        } else if card.rank == Rank::WildDrawSixteen {
            match play.chosen_color {
                Some(chosen) => batch_hits_colorless(plays.drop_first(), remove_first(remaining, card), chosen, card),
                None => false,
            }
        } else {
            match play.chosen_color {
                Some(_) => false,
                None => card.color is None || batch_hits_colorless(
                    plays.drop_first(),
                    remove_first(remaining, card),
                    card.color.unwrap(),
                    card,
                ),
            }
        }
    }
}

impl Game {
    /// Runs `batch_check` on the current seat's hand.
    fn check_plus_batch(&self, plays: &Vec<PlusPlay>) -> (result: Result<(Vec<Card>, Color), GameError>)
        requires
            self.wf(),
            !batch_hits_colorless(plays@, self.players@[self.current_index as int].hand@, self.active_color, self.top()),
        ensures
            match batch_check(plays@, self.players@[self.current_index as int].hand@, self.active_color, self.top()) {
                Err(e) => result == Err::<(Vec<Card>, Color), GameError>(e),
                Ok((rest, color)) => result matches Ok((r, c)) && r@ == rest && c == color,
            },
            result matches Ok((r, c)) ==> r@.len() + plays@.len() == self.players@[self.current_index as int].hand@.len(),
    {
        let actor = self.current_index;
        let ghost hand = self.players@[actor as int].hand@;
        let mut remaining = self.players[actor].hand.clone();
        proof {
            assert(remaining@ =~= hand);
        }
        let mut color = self.active_color;
        let mut top = self.discard_pile[self.discard_pile.len() - 1];
        let mut i: usize = 0;
        proof {
            assert(plays@.skip(0) =~= plays@);
        }
        while i < plays.len()
            invariant
                i <= plays@.len(),
                !batch_hits_colorless(plays@.skip(i as int), remaining@, color, top),
                hand == self.players@[self.current_index as int].hand@,
                remaining@.len() + i == hand.len(),
                batch_check(plays@, hand, self.active_color, self.top()) == batch_check(
                    plays@.skip(i as int),
                    remaining@,
                    color,
                    top,
                ),
            decreases plays@.len() - i,
        {
            let play = plays[i];
            proof {
                assert(plays@.skip(i as int)[0] == play);
                assert(plays@.skip(i as int).drop_first() =~= plays@.skip(i + 1));
            }
            if !is_plus_batch_card(play.card) || !plus_card_is_playable(color, top, play.card) {
                return Err(GameError::InvalidPlusBatch);
            }
            let owned = match position_of(&remaining, play.card) {
                Some(index) => index,
                None => return Err(GameError::CardNotOwned(play.card)),
            };
            proof {
                lemma_first_position(remaining@, play.card, owned as int);
                assert(remaining@.contains(play.card)) by {
                    assert(remaining@[owned as int] == play.card);
                }
            }
            remaining.remove(owned);
            if play.card.rank == Rank::WildDrawSixteen {
                match play.chosen_color {
                    Some(chosen) => {
                        color = chosen;
                    },
                    None => return Err(GameError::MissingColorChoice),
                }
            } else {
                match play.chosen_color {
                    Some(_) => return Err(GameError::UnexpectedColorChoice),
                    None => {
                        color = play.card.color.unwrap();
                    },
                }
            }
            top = play.card;
            i += 1;
        }
        proof {
            assert(plays@.skip(i as int).len() == 0);
        }
        Ok((remaining, color))
    }

    /// Plays a planned batch of plus cards for `player` atomically: refused as a
    /// whole with the first error of `batch_error` (nothing changes), otherwise
    /// see `batch_played`.
    #[verifier::rlimit(40)]
    pub fn apply_plus_batch(&mut self, player: &PlayerId, plays: Vec<PlusPlay>) -> (result: Result<GameEvent, GameError>)
        requires
            old(self).wf(),
            old(self).is_turn_of(player.0@) && old(self).winner is None && plays@.len() > 0 && !(old(self).phase matches TurnPhase::Drew(
                drawn,
            ) && (plays@.len() != 1 || plays@[0].card != drawn)) ==> !batch_hits_colorless(
                plays@,
                old(self).players@[old(self).current_index as int].hand@,
                old(self).active_color,
                old(self).top(),
            ),
        ensures
            final(self).wf(),
            old(self).seat_of(player.0@) == -1 ==> result == Err::<GameEvent, GameError>(GameError::UnknownPlayer(*player))
                && *final(self) == *old(self),
            old(self).seat_of(player.0@) != -1 && !old(self).is_turn_of(player.0@) ==> result == Err::<GameEvent, GameError>(
                GameError::NotPlayerTurn(*player),
            ) && *final(self) == *old(self),
            old(self).is_turn_of(player.0@) && old(self).winner is Some ==> result == Err::<GameEvent, GameError>(
                GameError::GameAlreadyWon,
            ) && *final(self) == *old(self),
            old(self).is_turn_of(player.0@) && old(self).winner is None ==> match batch_error(*old(self), plays@) {
                Some(e) => result == Err::<GameEvent, GameError>(e) && *final(self) == *old(self),
                None => result matches Ok(event) && batch_played(*old(self), *final(self), *player, plays@, event),
            },
    {
        self.ensure_turn(player)?;
        if self.winner.is_some() {
            return Err(GameError::GameAlreadyWon);
        }
        if plays.len() == 0 {
            return Err(GameError::EmptyPlusBatch);
        }
        if let TurnPhase::Drew(drawn) = self.phase {
            if plays.len() != 1 || plays[0].card != drawn {
                return Err(GameError::InvalidPlusBatch);
            }
        }
        let (remaining, color) = self.check_plus_batch(&plays)?;
        let actor = self.current_index;
        let ghost n = self.players@.len() as int;
        let ghost m = self.events@.len();
        proof {
            self.lemma_seat_unique(player.0@, actor as int);
        }
        self.players[actor].hand = remaining;
        let mut cards: Vec<Card> = Vec::new();
        let mut penalty: usize = 0;
        let ghost discard_before = self.discard_pile@;
        let ghost before_loop = *self;
        let mut i: usize = 0;
        while i < plays.len()
            invariant
                i <= plays@.len(),
                self.players == before_loop.players,
                self.draw_pile == before_loop.draw_pile,
                self.events == before_loop.events,
                self.winner == before_loop.winner,
                self.current_index == before_loop.current_index,
                self.direction == before_loop.direction,
                self.phase == before_loop.phase,
                self.active_color == before_loop.active_color,
                self.deck_variant == before_loop.deck_variant,
                self.house_rules == before_loop.house_rules,
                self.refill_seed_source == before_loop.refill_seed_source,
                discard_before.len() >= 1,
                plays@.len() <= HAND_BATCH_SIZE,
                cards@ == plays@.take(i as int).map_values(|p: PlusPlay| p.card),
                self.discard_pile@ == discard_before + cards@,
                penalty as int == plays_penalty(plays@.take(i as int)),
                penalty <= 16 * i,
            decreases plays@.len() - i,
        {
            proof {
                assert(plays@.take(i + 1).drop_last() =~= plays@.take(i as int));
            }
            cards.push(plays[i].card);
            self.discard_pile.push(plays[i].card);
            penalty = penalty + plus_penalty(plays[i].card);
            proof {
                assert(cards@ =~= plays@.take(i + 1).map_values(|p: PlusPlay| p.card));
            }
            i += 1;
        }
        proof {
            assert(plays@.take(plays@.len() as int) =~= plays@);
        }
        self.active_color = color;
        self.phase = TurnPhase::AwaitingAction;
        proof {
            assert forall|k: int| 0 <= k < self.players@.len() implies (#[trigger] self.players@[k]).hand@.len() <= HAND_BATCH_SIZE by {
                if k != actor {
                    assert(self.players@[k] == old(self).players@[k]);
                }
            }
            assert forall|k: int, j: int| 0 <= k < j < self.players@.len() implies self.players@[k].id.0@ != self.players@[j].id.0@ by {
                assert(self.players@[k].id == old(self).players@[k].id);
                assert(self.players@[j].id == old(self).players@[j].id);
            }
        }
        self.advance_turn(1);
        let target = copy_id(self.current_player());
        proof {
            self.lemma_seat_unique(target.0@, self.current_index as int);
        }
        let ghost mid = *self;
        let drawn = self.draw_available_cards_to_player(&target, penalty);
        self.advance_turn(1);
        proof {
            lemma_advanced_add(actor as int, n, self.direction, 1, 1);
            super::game::lemma_advanced_range(actor as int, n, self.direction, 1);
            assert(gave_cards(mid, *self, advanced(actor as int, n, old(self).direction, 1), penalty as int));
        }
        let won = self.players[actor].hand_len() == 0;
        let ghost before_events = self.events@;
        let event = self.push_event(
            EventKind::PlusBatchPlayed {
                player: copy_id(player),
                cards,
                target,
                penalty,
                drawn,
                final_color: color,
            },
        );
        if won {
            self.winner = Some(copy_id(player));
            self.push_event(EventKind::GameWon { player: copy_id(player) });
        }
        proof {
            assert(self.events@.subrange(0, m as int) =~= old(self).events@) by {
                if won {
                    assert(self.events@.subrange(0, m as int) =~= self.events@.subrange(0, m as int + 1).subrange(0, m as int));
                }
            }
            assert(self.events@.subrange(0, m as int + 1)[m as int] == self.events@[m as int]);
            assert(event_matches(self.events@[m as int], event));
            assert(penalty as int == plays_penalty(plays@));
            assert(gave_cards(mid, *self, advanced(actor as int, n, old(self).direction, 1), plays_penalty(plays@)));
            assert(mid.players@[actor as int].hand@ == batch_check(
                plays@,
                old(self).players@[actor as int].hand@,
                old(self).active_color,
                old(self).top(),
            )->Ok_0.0);
        }
        Ok(event)
    }
}

} // verus!
