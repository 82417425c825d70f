//! The hand-transforming effects of the Holiday wilds: redistribution by the
//! discard wilds, the factorial growth, and the square-root reduction.

use vstd::prelude::*;
use vstd::arithmetic::div_mod::{lemma_mod_add_multiples_vanish, lemma_small_mod};
use vstd::multiset::Multiset;
use super::cards::{Card, Direction, HandEffect, PlayerId, Rank, HAND_BATCH_SIZE, reversed};
use super::game::{
    Game, Player, advanced, copy_id, gave_cards, lemma_advanced_add, lemma_advanced_range,
    same_seat_but_cards,
};
use super::hands::{hands_rotated, hands_swapped, min_of, seat_of_player};
use super::random::shuffle;
use super::rules::isqrt;
use super::rules::{
    factorial_hand_size, factorial_hand_size_spec, generate_virtual_cards, generated_card_ok,
    sat_add, sat_sub,
};

verus! {

/// How many of the first `dealt` cards dealt round-robin to `recipients` seats go
/// to the seat at round-robin position `position`.
pub open spec fn dealt_to(dealt: nat, recipients: nat, position: nat) -> nat
    decreases dealt,
{
    if dealt == 0 {
        0
    } else {
        dealt_to((dealt - 1) as nat, recipients, position) + if ((dealt - 1) as int) % (recipients as int) == position {
            1nat
        } else {
            0nat
        }
    }
}

/// The round-robin position of seat `seat` among the seats after `actor` (the
/// next seat in clockwise order is position 0).
pub open spec fn recipient_position(actor: int, seat: int, seats: int) -> int {
    (seat - actor - 1) % seats
}

proof fn lemma_recipient_position(actor: int, offset: int, seats: int)
    requires
        seats >= 2,
        0 <= actor < seats,
        0 <= offset < seats - 1,
    ensures
        ({
            let seat = (actor + 1 + offset) % seats;
            &&& 0 <= seat < seats
            &&& seat != actor
            &&& recipient_position(actor, seat, seats) == offset
            &&& forall|other: int| 0 <= other < seats && other != actor && recipient_position(actor, other, seats) == offset ==> other == seat
        }),
{
    let seat = (actor + 1 + offset) % seats;
    if actor + 1 + offset < seats {
        lemma_small_mod((actor + 1 + offset) as nat, seats as nat);
        lemma_small_mod(offset as nat, seats as nat);
    } else {
        lemma_mod_add_multiples_vanish(actor + 1 + offset - seats, seats);
        lemma_small_mod((actor + 1 + offset - seats) as nat, seats as nat);
        assert(seat == actor + 1 + offset - seats);
        lemma_mod_add_multiples_vanish(offset - seats, seats);
        lemma_small_mod(offset as nat, seats as nat);
    }
    assert forall|other: int| 0 <= other < seats && other != actor && recipient_position(actor, other, seats) == offset implies other == seat by {
        if other > actor {
            lemma_small_mod((other - actor - 1) as nat, seats as nat);
        } else {
            lemma_mod_add_multiples_vanish(other - actor - 1, seats);
            lemma_small_mod((other - actor - 1 + seats) as nat, seats as nat);
        }
    }
}

proof fn lemma_recipient_position_range(actor: int, seat: int, seats: int)
    requires
        seats >= 2,
        0 <= actor < seats,
        0 <= seat < seats,
        seat != actor,
    ensures
        0 <= recipient_position(actor, seat, seats) < seats - 1,
{
    if seat > actor {
        lemma_small_mod((seat - actor - 1) as nat, seats as nat);
    } else {
        lemma_mod_add_multiples_vanish(seat - actor - 1, seats);
        lemma_small_mod((seat - actor - 1 + seats) as nat, seats as nat);
    }
}

/// The cards of `cards` dealt round-robin among `recipients` seats that go to
/// round-robin position `position`, in dealing order.
pub open spec fn dealt_cards(cards: Seq<Card>, recipients: nat, position: nat) -> Seq<Card>
    decreases cards.len(),
{
    if cards.len() == 0 {
        Seq::empty()
    } else {
        dealt_cards(cards.drop_last(), recipients, position) + if ((cards.len() - 1) as int) % (recipients as int)
            == position {
            seq![cards.last()]
        } else {
            Seq::<Card>::empty()
        }
    }
}

/// A held batch after `cards` are added one by one: each card goes to the end,
/// and when the batch is full its last identity first becomes a counted card.
pub open spec fn pushed_all(hand: Seq<Card>, cards: Seq<Card>) -> Seq<Card>
    decreases cards.len(),
{
    if cards.len() == 0 {
        hand
    } else {
        let before = pushed_all(hand, cards.drop_last());
        if before.len() < HAND_BATCH_SIZE {
            before.push(cards.last())
        } else {
            before.drop_last().push(cards.last())
        }
    }
}

/// Seats other than `actor` keep everything but their hands, and each receives
/// exactly the cards of `cards` dealt to it round-robin, in order, at the end
/// of its held batch (see `pushed_all`).
pub open spec fn recipients_dealt(old: Game, new: Game, actor: int, cards: Seq<Card>) -> bool {
    let seats = old.players@.len() as int;
    forall|s: int|
        0 <= s < seats && s != actor ==> {
            let p = old.players@[s];
            let q = #[trigger] new.players@[s];
            let position = recipient_position(actor, s, seats) as nat;
            &&& same_seat_but_cards(q, p)
            &&& q.draw_state == p.draw_state
            &&& q.total() == sat_add(p.total(), dealt_to(cards.len(), (seats - 1) as nat, position) as int)
            &&& q.hand@ == pushed_all(p.hand@, dealt_cards(cards, (seats - 1) as nat, position))
        }
}

/// The discard wild's effect on the table: the acting seat processes
/// `min(processed, total)` of its cards and deals up to `distributed` of them
/// round-robin to the other seats. When part of the hand is counted, the dealt
/// cards are generated identities under the actor's rule; otherwise they are
/// the actor's own cards, and the rest of the processed cards go under the
/// played wild, so that the kept, dealt and discarded cards are exactly the
/// actor's old hand.
pub open spec fn redistributed(old: Game, new: Game, processed: int, distributed: int) -> bool {
    let a = old.current_index as int;
    let p = old.players@[a];
    let q = new.players@[a];
    let taken = if processed < p.total() { processed } else { p.total() };
    let given = if distributed < taken { distributed } else { taken };
    &&& new.players@.len() == old.players@.len()
    &&& new.draw_pile == old.draw_pile
    &&& new.direction == old.direction
    &&& seat_of_player(q) == seat_of_player(p)
    &&& q.total() == p.total() - taken
    &&& q.hand@.to_multiset().subset_of(p.hand@.to_multiset())
    &&& if p.virtual_len > 0 {
        &&& new.discard_pile == old.discard_pile
        &&& q.hand_page == 0
        &&& q.materialized_received as int == sat_add(p.materialized_received as int, given)
        &&& exists|cards: Seq<Card>|
            #![trigger cards.len()]
            cards.len() == given && recipients_dealt(old, new, a, cards) && forall|k: int|
                0 <= k < given ==> generated_card_ok(
                    old.deck_variant,
                    match p.draw_state {
                        Some(state) => Some(state.rule),
                        None => None,
                    },
                    sat_add(p.materialized_received as int, k),
                    #[trigger] cards[k],
                )
    } else {
        &&& q.hand_page == p.hand_page
        &&& q.materialized_received == p.materialized_received
        &&& exists|dealt: Seq<Card>, rest: Seq<Card>|
            #![trigger dealt.len(), rest.len()]
            dealt.len() == given && rest.len() == taken - given && recipients_dealt(old, new, a, dealt)
            && new.discard_pile@ == old.discard_pile@.drop_last() + rest + seq![old.discard_pile@.last()]
            && (q.hand@ + dealt + rest).to_multiset() == p.hand@.to_multiset()
    }
}


proof fn lemma_sat_step(total: int, dealt: int)
    requires
        0 <= total <= usize::MAX,
        dealt >= 0,
    ensures
        sat_add(sat_add(total, dealt), 1) == sat_add(total, dealt + 1),
{
}

proof fn lemma_prefix_subset(s: Seq<Card>, k: int)
    requires
        0 <= k <= s.len(),
    ensures
        s.subrange(0, k).to_multiset().subset_of(s.to_multiset()),
{
    broadcast use vstd::seq_lib::lemma_multiset_commutative;
    broadcast use vstd::multiset::group_multiset_axioms;
    assert(s =~= s.subrange(0, k) + s.subrange(k, s.len() as int));
}

/// How many entries of `s` are below `bound`.
spec fn count_below(s: Seq<usize>, bound: int) -> nat
    decreases s.len(),
{
    if s.len() == 0 {
        0
    } else {
        count_below(s.drop_last(), bound) + if (s.last() as int) < bound {
            1nat
        } else {
            0nat
        }
    }
}

proof fn lemma_count_below_zero(s: Seq<usize>)
    ensures
        count_below(s, 0) == 0,
    decreases s.len(),
{
    if s.len() > 0 {
        lemma_count_below_zero(s.drop_last());
    }
}

proof fn lemma_count_below_step(s: Seq<usize>, bound: int)
    requires
        0 <= bound <= usize::MAX,
    ensures
        count_below(s, bound + 1) == count_below(s, bound) + s.to_multiset().count(bound as usize),
    decreases s.len(),
{
    broadcast use vstd::seq_lib::group_to_multiset_ensures;
    broadcast use vstd::multiset::group_multiset_axioms;
    if s.len() > 0 {
        lemma_count_below_step(s.drop_last(), bound);
        assert(s =~= s.drop_last().push(s.last()));
        assert(s.to_multiset() == s.drop_last().to_multiset().insert(s.last()));
    } else {
        assert(s.to_multiset() =~= Multiset::empty());
    }
}

proof fn lemma_count_below_all(s: Seq<usize>, bound: int)
    requires
        forall|k: int| 0 <= k < s.len() ==> (s[k] as int) < bound,
    ensures
        count_below(s, bound) == s.len(),
    decreases s.len(),
{
    if s.len() > 0 {
        lemma_count_below_all(s.drop_last(), bound);
    }
}

/// The positions `0..n`.
spec fn range_seq(n: nat) -> Seq<usize> {
    Seq::new(n, |i: int| i as usize)
}

proof fn lemma_range_counts(n: nat)
    requires
        n <= usize::MAX,
    ensures
        forall|v: usize| #[trigger] range_seq(n).to_multiset().count(v) == if (v as int) < n {
            1nat
        } else {
            0nat
        },
    decreases n,
{
    broadcast use vstd::seq_lib::group_to_multiset_ensures;
    broadcast use vstd::multiset::group_multiset_axioms;
    if n == 0 {
        assert(range_seq(0).to_multiset() =~= Multiset::empty());
    } else {
        lemma_range_counts((n - 1) as nat);
        assert(range_seq(n) =~= range_seq((n - 1) as nat).push((n - 1) as usize));
        assert(range_seq(n).to_multiset() == range_seq((n - 1) as nat).to_multiset().insert((n - 1) as usize));
    }
}

/// Removes `min(count, len)` cards from `cards` at positions picked by
/// shuffling the list of positions and keeping its first `count`; the rest
/// keep their order, and the removed cards come back in hand order.
fn take_random_cards(cards: &mut Vec<Card>, count: usize, rng: &mut rand::rngs::StdRng) -> (taken: Vec<Card>)
    ensures
        taken@.len() == if count < old(cards)@.len() { count as int } else { old(cards)@.len() as int },
        final(cards)@.len() == old(cards)@.len() - taken@.len(),
        (final(cards)@ + taken@).to_multiset() == old(cards)@.to_multiset(),
{
    broadcast use vstd::seq_lib::group_to_multiset_ensures;
    broadcast use vstd::seq_lib::lemma_multiset_commutative;
    broadcast use vstd::multiset::group_multiset_axioms;
    let n = cards.len();
    let mut indices: Vec<usize> = Vec::new();
    let mut i: usize = 0;
    while i < n
        invariant
            i <= n,
            indices@ =~= range_seq(i as nat),
        decreases n - i,
    {
        indices.push(i);
        i += 1;
    }
    shuffle(&mut indices, rng);
    proof {
        lemma_range_counts(n as nat);
    }
    let ghost shuffled = indices@;
    indices.truncate(count);
    let ghost sel = indices@;
    let t = indices.len();
    proof {
        let k = if (count as int) < shuffled.len() { count as int } else { shuffled.len() as int };
        assert(sel =~= shuffled.subrange(0, k));
        assert(shuffled =~= sel + shuffled.subrange(k, shuffled.len() as int));
        assert forall|v: usize| #[trigger] sel.to_multiset().count(v) <= (if (v as int) < n { 1nat } else { 0nat }) by {
            assert(shuffled.to_multiset().count(v) == range_seq(n as nat).to_multiset().count(v));
        }
        assert forall|m: int| 0 <= m < sel.len() implies (sel[m] as int) < n by {
            assert(sel.contains(sel[m]));
            assert(sel.to_multiset().count(sel[m]) > 0);
        }
    }
    let mut chosen: Vec<bool> = Vec::new();
    let mut v: usize = 0;
    while v < n
        invariant
            v <= n,
            chosen@.len() == v,
            forall|m: int| 0 <= m < v ==> !chosen@[m],
        decreases n - v,
    {
        chosen.push(false);
        v += 1;
    }
    let mut j: usize = 0;
    while j < t
        invariant
            t == sel.len(),
            indices@ == sel,
            j <= t,
            chosen@.len() == n,
            forall|m: int| 0 <= m < sel.len() ==> (sel[m] as int) < n,
            forall|w: int| 0 <= w < n ==> (chosen@[w] <==> exists|m: int| 0 <= m < j && sel[m] as int == w),
        decreases t - j,
    {
        let position = indices[j];
        chosen.set(position, true);
        proof {
            assert forall|w: int| 0 <= w < n implies (chosen@[w] <==> exists|m: int| 0 <= m < j + 1 && sel[m] as int == w) by {
                if w == position as int {
                    assert(sel[j as int] as int == w);
                }
            }
        }
        j += 1;
    }
    let mut kept: Vec<Card> = Vec::new();
    let mut taken: Vec<Card> = Vec::new();
    let mut i: usize = 0;
    proof {
        lemma_count_below_zero(sel);
        assert(kept@ + taken@ =~= cards@.take(0));
    }
    while i < n
        invariant
            n == old(cards)@.len(),
            cards@ == old(cards)@,
            i <= n,
            chosen@.len() == n,
            forall|m: int| 0 <= m < sel.len() ==> (sel[m] as int) < n,
            forall|w: int| 0 <= w < n ==> (chosen@[w] <==> exists|m: int| 0 <= m < sel.len() && sel[m] as int == w),
            forall|v: usize| #[trigger] sel.to_multiset().count(v) <= (if (v as int) < n { 1nat } else { 0nat }),
            taken@.len() == count_below(sel, i as int),
            kept@.len() + taken@.len() == i,
            (kept@ + taken@).to_multiset() == cards@.take(i as int).to_multiset(),
        decreases n - i,
    {
        let ghost before_kept = kept@;
        let ghost before_taken = taken@;
        let card = cards[i];
        proof {
            lemma_count_below_step(sel, i as int);
            if chosen@[i as int] {
                let m = choose|m: int| 0 <= m < sel.len() && sel[m] as int == i;
                assert(sel[m] == i);
                assert(sel.contains(i));
                vstd::seq_lib::to_multiset_contains(sel, i);
                assert(sel.to_multiset().count(i) <= 1);
                assert(sel.to_multiset().count(i) == 1);
            } else {
                if sel.to_multiset().count(i) > 0 {
                    vstd::seq_lib::to_multiset_contains(sel, i);
                    assert(sel.contains(i));
                    let m = choose|m: int| 0 <= m < sel.len() && sel[m] == i;
                    assert(sel[m] as int == i as int);
                }
            }
            assert(cards@.take(i + 1) =~= cards@.take(i as int).push(card));
            vstd::seq_lib::to_multiset_build(cards@.take(i as int), card);
        }
        if chosen[i] {
            taken.push(card);
            proof {
                assert(taken@ =~= before_taken.push(card));
                vstd::seq_lib::to_multiset_build(before_taken, card);
                assert(taken@.to_multiset() == before_taken.to_multiset().insert(card));
                vstd::seq_lib::lemma_multiset_commutative(kept@, taken@);
                vstd::seq_lib::lemma_multiset_commutative(before_kept, before_taken);
                assert((kept@ + taken@).to_multiset() =~= (before_kept + before_taken).to_multiset().insert(card));
            }
        } else {
            kept.push(card);
            proof {
                assert(kept@ =~= before_kept.push(card));
                vstd::seq_lib::to_multiset_build(before_kept, card);
                assert(kept@.to_multiset() == before_kept.to_multiset().insert(card));
                vstd::seq_lib::lemma_multiset_commutative(kept@, taken@);
                vstd::seq_lib::lemma_multiset_commutative(before_kept, before_taken);
                assert((kept@ + taken@).to_multiset() =~= (before_kept + before_taken).to_multiset().insert(card));
            }
        }
        i += 1;
    }
    proof {
        lemma_count_below_all(sel, n as int);
        assert(cards@.take(n as int) =~= cards@);
    }
    *cards = kept;
    taken
}

proof fn lemma_recipients_from(old: Game, mid: Game, new: Game, actor: int, cards: Seq<Card>)
    requires
        mid.players@.len() == old.players@.len(),
        forall|s: int| 0 <= s < old.players@.len() && s != actor ==> #[trigger] old.players@[s] == mid.players@[s],
        recipients_dealt(mid, new, actor, cards),
    ensures
        recipients_dealt(old, new, actor, cards),
{
    assert forall|s: int| 0 <= s < old.players@.len() && s != actor implies {
        let p = old.players@[s];
        let q = #[trigger] new.players@[s];
        let position = recipient_position(actor, s, old.players@.len() as int) as nat;
        &&& same_seat_but_cards(q, p)
        &&& q.draw_state == p.draw_state
        &&& q.total() == sat_add(p.total(), dealt_to(cards.len(), (old.players@.len() - 1) as nat, position) as int)
        &&& q.hand@ == pushed_all(p.hand@, dealt_cards(cards, (old.players@.len() - 1) as nat, position))
    } by {
        assert(old.players@[s] == mid.players@[s]);
    }
}

impl Game {
    /// Deals `cards` round-robin to the seats after `actor`, in turn order.
    fn deal_round_robin(&mut self, actor: usize, cards: &Vec<Card>)
        requires
            old(self).wf(),
            actor < old(self).players@.len(),
        ensures
            final(self).wf(),
            final(self).same_table(*old(self)),
            final(self).draw_pile == old(self).draw_pile,
            final(self).rng == old(self).rng,
            final(self).players@.len() == old(self).players@.len(),
            final(self).players@[actor as int] == old(self).players@[actor as int],
            recipients_dealt(*old(self), *final(self), actor as int, cards@),
    {
        let n = self.players.len();
        let r = n - 1;
        let mut k: usize = 0;
        proof {
            assert(cards@.take(0) =~= Seq::<Card>::empty());
        }
        while k < cards.len()
            invariant
                self.wf(),
                self.same_table(*old(self)),
                self.draw_pile == old(self).draw_pile,
                self.rng == old(self).rng,
                n == old(self).players@.len(),
                r == n - 1,
                actor < n,
                self.players@.len() == n,
                k <= cards@.len(),
                self.players@[actor as int] == old(self).players@[actor as int],
                recipients_dealt(*old(self), *self, actor as int, cards@.take(k as int)),
            decreases cards@.len() - k,
        {
            let offset = k % r;
            let seat = (actor + 1 + offset) % n;
            proof {
                lemma_recipient_position(actor as int, offset as int, n as int);
            }
            let ghost before = *self;
            let ghost sofar = cards@.take(k as int);
            let ghost next = cards@.take(k + 1);
            self.push_concrete_card(seat, cards[k]);
            proof {
                assert(next.drop_last() =~= sofar);
                assert(next.last() == cards@[k as int]);
                assert forall|s: int| 0 <= s < n && s != actor implies {
                    let p = old(self).players@[s];
                    let q = #[trigger] self.players@[s];
                    let position = recipient_position(actor as int, s, n as int) as nat;
                    &&& same_seat_but_cards(q, p)
                    &&& q.draw_state == p.draw_state
                    &&& q.total() == sat_add(p.total(), dealt_to(next.len(), (n - 1) as nat, position) as int)
                    &&& q.hand@ == pushed_all(p.hand@, dealt_cards(next, (n - 1) as nat, position))
                } by {
                    let position = recipient_position(actor as int, s, n as int);
                    lemma_recipient_position_range(actor as int, s, n as int);
                    assert(before.players@[s] == before.players@[s]);
                    let p = old(self).players@[s];
                    let d = dealt_to(k as nat, (n - 1) as nat, position as nat);
                    assert(sofar.len() == k);
                    assert(next.len() == k + 1);
                    assert(dealt_to((k + 1) as nat, (n - 1) as nat, position as nat) == d + if (k as int) % ((n - 1) as int) == position { 1nat } else { 0nat });
                    let prev = dealt_cards(sofar, (n - 1) as nat, position as nat);
                    if s == seat {
                        assert(position == offset);
                        lemma_sat_step(p.total(), d as int);
                        assert(dealt_cards(next, (n - 1) as nat, position as nat) =~= prev.push(cards@[k as int]));
                        assert(dealt_cards(next, (n - 1) as nat, position as nat).drop_last() =~= prev);
                    } else {
                        assert(position != offset);
                        assert(dealt_cards(next, (n - 1) as nat, position as nat) =~= prev);
                    }
                }
            }
            k += 1;
        }
        proof {
            assert(cards@.take(cards@.len() as int) =~= cards@);
        }
    }

    /// The discard wilds' effect: see `redistributed`.
    pub fn redistribute_and_discard(&mut self, processed_count: usize, distributed_count: usize)
        requires
            old(self).wf(),
            distributed_count <= processed_count,
            old(self).players@[old(self).current_index as int].virtual_len > 0
                || old(self).players@[old(self).current_index as int].total() >= distributed_count,
        ensures
            final(self).wf(),
            final(self).current_index == old(self).current_index,
            effect_frame(*old(self), *final(self)),
            redistributed(*old(self), *final(self), processed_count as int, distributed_count as int),
    {
        broadcast use vstd::seq_lib::group_to_multiset_ensures;
        broadcast use vstd::seq_lib::lemma_multiset_commutative;
        broadcast use vstd::multiset::group_multiset_axioms;
        let actor = self.current_index;
        if self.players[actor].virtual_len > 0 {
            let total = self.players[actor].hand_len();
            let processed = if processed_count < total { processed_count } else { total };
            let distributed = if distributed_count < processed { distributed_count } else { processed };
            let actor_total = total - processed;
            let ghost held = self.players@[actor as int].hand@;
            shuffle(&mut self.players[actor].hand, &mut self.rng);
            let ghost shuffled = self.players@[actor as int].hand@;
            let keep = if actor_total < HAND_BATCH_SIZE { actor_total } else { HAND_BATCH_SIZE };
            self.players[actor].hand.truncate(keep);
            proof {
                let k = if keep < shuffled.len() { keep as int } else { shuffled.len() as int };
                lemma_prefix_subset(shuffled, k);
                assert(self.players@[actor as int].hand@ =~= shuffled.subrange(0, k));
            }
            let held_now = self.players[actor].hand.len();
            self.players[actor].virtual_len = actor_total - held_now;
            self.players[actor].hand_page = 0;
            let rule = match self.players[actor].draw_state {
                Some(state) => Some(state.rule),
                None => None,
            };
            let start = self.players[actor].materialized_received;
            let cards = generate_virtual_cards(self.deck_variant, rule, start, distributed, &mut self.rng);
            self.players[actor].materialized_received = start.saturating_add(distributed);
            proof {
                assert forall|i: int| 0 <= i < self.players@.len() implies (#[trigger] self.players@[i]).hand@.len() <= HAND_BATCH_SIZE by {
                    if i != actor {
                        assert(self.players@[i] == old(self).players@[i]);
                    }
                }
                assert forall|i: int, j: int| 0 <= i < j < self.players@.len() implies self.players@[i].id.0@ != self.players@[j].id.0@ by {
                    assert(self.players@[i].id == old(self).players@[i].id);
                    assert(self.players@[j].id == old(self).players@[j].id);
                }
                assert forall|s: int| 0 <= s < self.players@.len() && s != actor implies self.players@[s] == old(self).players@[s] by {}
            }
            let ghost mid = *self;
            self.deal_round_robin(actor, &cards);
            proof {
                assert forall|s: int| 0 <= s < old(self).players@.len() && s != actor implies #[trigger] old(self).players@[s] == mid.players@[s] by {}
                lemma_recipients_from(*old(self), mid, *self, actor as int, cards@);
                let p = old(self).players@[actor as int];
                assert(rule == match p.draw_state {
                    Some(state) => Some(state.rule),
                    None => None,
                });
                assert(start == p.materialized_received);
                assert(cards@.len() == distributed && recipients_dealt(*old(self), *self, actor as int, cards@));
            }
        } else {
            let mut kept: Vec<Card> = Vec::new();
            std::mem::swap(&mut kept, &mut self.players[actor].hand);
            let ghost held = kept@;
            let mut processed = take_random_cards(&mut kept, processed_count, &mut self.rng);
            let ghost chosen = processed@;
            shuffle(&mut processed, &mut self.rng);
            let ghost shuffled = processed@;
            let mut rest = processed.split_off(distributed_count);
            let ghost given = processed@;
            let ghost rest_cards = rest@;
            proof {
                assert(shuffled =~= given + rest_cards);
                assert(chosen.to_multiset() == (given + rest_cards).to_multiset());
            }
            self.players[actor].hand = kept;
            proof {
                assert forall|i: int| 0 <= i < self.players@.len() implies (#[trigger] self.players@[i]).hand@.len() <= HAND_BATCH_SIZE by {
                    if i != actor {
                        assert(self.players@[i] == old(self).players@[i]);
                    }
                }
                assert forall|i: int, j: int| 0 <= i < j < self.players@.len() implies self.players@[i].id.0@ != self.players@[j].id.0@ by {
                    assert(self.players@[i].id == old(self).players@[i].id);
                    assert(self.players@[j].id == old(self).players@[j].id);
                }
            }
            let ghost mid = *self;
            self.deal_round_robin(actor, &processed);
            proof {
                assert forall|s: int| 0 <= s < old(self).players@.len() && s != actor implies #[trigger] old(self).players@[s] == mid.players@[s] by {}
                lemma_recipients_from(*old(self), mid, *self, actor as int, processed@);
            }
            let ghost discard_before = self.discard_pile@;
            let effect_card = match self.discard_pile.pop() {
                Some(card) => card,
                None => Card::wild(super::cards::Rank::Wild),
            };
            self.discard_pile.append(&mut rest);
            self.discard_pile.push(effect_card);
            proof {
                let q = self.players@[actor as int];
                assert(self.discard_pile@ =~= discard_before.drop_last() + rest_cards + seq![discard_before.last()]);
                assert((q.hand@ + rest_cards).to_multiset() =~= q.hand@.to_multiset().add(rest_cards.to_multiset()));
                assert((q.hand@ + chosen).to_multiset() == held.to_multiset());
                assert((given + rest_cards).to_multiset() =~= given.to_multiset().add(rest_cards.to_multiset()));
                assert((q.hand@ + chosen).to_multiset() =~= q.hand@.to_multiset().add(chosen.to_multiset()));
                assert((q.hand@ + rest_cards).to_multiset().subset_of(held.to_multiset()));
                assert(q.hand@.to_multiset().subset_of(held.to_multiset()));
                assert(rest_cards.len() == chosen.len() - distributed_count);
                assert((q.hand@ + given + rest_cards) =~= q.hand@ + (given + rest_cards));
                assert((q.hand@ + (given + rest_cards)).to_multiset() =~= q.hand@.to_multiset().add((given + rest_cards).to_multiset()));
                assert((q.hand@ + given + rest_cards).to_multiset() == held.to_multiset());
                assert(given.len() == distributed_count);
                assert(recipients_dealt(*old(self), *self, actor as int, given));
            }
        }
    }
}


/// What no card effect touches: the event log, the winner, the phase, the
/// active color, and the game's settings.
pub open spec fn effect_frame(old: Game, new: Game) -> bool {
    &&& new.events == old.events
    &&& new.winner == old.winner
    &&& new.phase == old.phase
    &&& new.active_color == old.active_color
    &&& new.deck_variant == old.deck_variant
    &&& new.house_rules == old.house_rules
    &&& new.refill_seed_source == old.refill_seed_source
}

/// Hands, piles and direction are as in `old`.
pub open spec fn table_unchanged(old: Game, new: Game) -> bool {
    &&& new.players == old.players
    &&& new.draw_pile == old.draw_pile
    &&& new.discard_pile == old.discard_pile
    &&& new.direction == old.direction
}

/// The next seat received `count` penalty cards and lost its turn.
pub open spec fn penalized(old: Game, new: Game, count: int) -> bool {
    let n = old.players@.len() as int;
    let a = old.current_index as int;
    &&& gave_cards(old, new, advanced(a, n, old.direction, 1), count)
    &&& new.discard_pile == old.discard_pile
    &&& new.direction == old.direction
    &&& new.current_index == advanced(a, n, old.direction, 2)
}

/// The factorial wild: the next seat's hand grows to the factorial size of its
/// `before` cards (never shrinking), the seat is skipped, and the effect reports
/// the seat with its sizes before and after.
pub open spec fn factorial_applied(old: Game, new: Game, effect: HandEffect) -> bool {
    let n = old.players@.len() as int;
    let a = old.current_index as int;
    let t = advanced(a, n, old.direction, 1);
    let before = old.players@[t].total();
    &&& gave_cards(old, new, t, sat_sub(factorial_hand_size_spec(before as nat), before))
    &&& new.discard_pile == old.discard_pile
    &&& new.direction == old.direction
    &&& new.current_index == advanced(a, n, old.direction, 2)
    &&& effect == HandEffect::Factorial {
        target: old.players@[t].id,
        before: before as usize,
        after: new.players@[t].total() as usize,
    }
}

/// The square-root wild on the acting seat: its hand is cut to `after` cards,
/// the floor of the square root of its size. When `after` does not exceed the
/// held identities, `after` of them (chosen at random) stay and the others go
/// under the played wild; otherwise all identities are replaced by a freshly
/// generated first page and the rest is counted. The page is reset.
pub open spec fn rooted(old: Game, new: Game, after: int) -> bool {
    let a = old.current_index as int;
    let p = old.players@[a];
    let q = new.players@[a];
    let rule = match p.draw_state {
        Some(state) => Some(state.rule),
        None => None,
    };
    &&& after * after <= p.total() < (after + 1) * (after + 1)
    &&& new.players@.len() == old.players@.len()
    &&& forall|k: int| 0 <= k < old.players@.len() && k != a ==> new.players@[k] == old.players@[k]
    &&& seat_of_player(q) == seat_of_player(p)
    &&& q.total() == after
    &&& q.hand_page == 0
    &&& new.draw_pile == old.draw_pile
    &&& new.direction == old.direction
    &&& if after <= p.hand@.len() {
        &&& q.virtual_len == 0
        &&& q.materialized_received == p.materialized_received
        &&& exists|rest: Seq<Card>|
            #![trigger rest.len()]
            rest.len() == p.hand@.len() - after
            && new.discard_pile@ == old.discard_pile@.drop_last() + rest + seq![old.discard_pile@.last()]
            && (q.hand@ + rest).to_multiset() == p.hand@.to_multiset()
    } else {
        &&& new.discard_pile@ == old.discard_pile@
        &&& q.hand@.len() == min_of(after, HAND_BATCH_SIZE as int)
        &&& q.materialized_received as int == sat_add(p.materialized_received as int, q.hand@.len() as int)
        &&& forall|k: int| 0 <= k < q.hand@.len() ==> generated_card_ok(
            old.deck_variant,
            rule,
            sat_add(p.materialized_received as int, k),
            #[trigger] q.hand@[k],
        )
    }
}

impl Game {
    /// Moves to the next seat, gives it `count` cards, and moves past it.
    fn penalize_next(&mut self, count: usize)
        requires
            old(self).wf(),
        ensures
            final(self).wf(),
            effect_frame(*old(self), *final(self)),
            penalized(*old(self), *final(self), count as int),
    {
        let ghost n = self.players@.len() as int;
        let ghost a = self.current_index as int;
        self.advance_turn(1);
        let target = copy_id(self.current_player());
        proof {
            self.lemma_seat_unique(target.0@, self.current_index as int);
        }
        self.draw_available_cards_to_player(&target, count);
        self.advance_turn(1);
        proof {
            lemma_advanced_add(a, n, self.direction, 1, 1);
        }
    }

    /// The factorial wild; see `factorial_applied`.
    fn apply_factorial(&mut self) -> (effect: HandEffect)
        requires
            old(self).wf(),
        ensures
            final(self).wf(),
            effect_frame(*old(self), *final(self)),
            factorial_applied(*old(self), *final(self), effect),
    {
        let ghost n = self.players@.len() as int;
        let ghost a = self.current_index as int;
        self.advance_turn(1);
        let target = copy_id(self.current_player());
        let t = self.current_index;
        proof {
            self.lemma_seat_unique(target.0@, t as int);
        }
        let before = self.players[t].hand_len();
        let goal = factorial_hand_size(before);
        self.draw_available_cards_to_player(&target, goal.saturating_sub(before));
        let after = self.players[t].hand_len();
        self.advance_turn(1);
        proof {
            lemma_advanced_add(a, n, self.direction, 1, 1);
        }
        HandEffect::Factorial { target, before, after }
    }

    /// The square-root wild; see `rooted`.
    fn apply_square_root(&mut self) -> (effect: HandEffect)
        requires
            old(self).wf(),
        ensures
            final(self).wf(),
            effect_frame(*old(self), *final(self)),
            ({
                let n = old(self).players@.len() as int;
                let a = old(self).current_index as int;
                let after = final(self).players@[a].total();
                &&& rooted(*old(self), *final(self), after)
                &&& final(self).current_index == advanced(a, n, old(self).direction, 2)
                &&& effect == HandEffect::SquareRoot {
                    target: old(self).players@[a].id,
                    before: old(self).players@[a].total() as usize,
                    after: after as usize,
                }
            }),
    {
        broadcast use vstd::seq_lib::group_to_multiset_ensures;
        let actor = self.current_index;
        let target = copy_id(&self.players[actor].id);
        let before = self.players[actor].hand_len();
        let after = isqrt(before);
        let ghost held = self.players@[actor as int].hand@;
        shuffle(&mut self.players[actor].hand, &mut self.rng);
        let ghost shuffled = self.players@[actor as int].hand@;
        let retained = if after < HAND_BATCH_SIZE { after } else { HAND_BATCH_SIZE };
        let concrete_retained = if retained < self.players[actor].hand.len() {
            retained
        } else {
            self.players[actor].hand.len()
        };
        let mut discarded = self.players[actor].hand.split_off(concrete_retained);
        let ghost rest = discarded@;
        let held_now = self.players[actor].hand.len();
        self.players[actor].virtual_len = after - held_now;
        self.players[actor].hand_page = 0;
        let ghost discard_before = self.discard_pile@;
        let effect_card = match self.discard_pile.pop() {
            Some(card) => card,
            None => Card::wild(Rank::WildSquareRoot),
        };
        self.discard_pile.append(&mut discarded);
        self.discard_pile.push(effect_card);
        proof {
            assert(shuffled =~= self.players@[actor as int].hand@ + rest);
            assert(self.discard_pile@ =~= discard_before.drop_last() + rest + seq![discard_before.last()]);
            assert forall|i: int| 0 <= i < self.players@.len() implies (#[trigger] self.players@[i]).hand@.len() <= HAND_BATCH_SIZE by {
                if i != actor {
                    assert(self.players@[i] == old(self).players@[i]);
                }
            }
            assert forall|i: int, j: int| 0 <= i < j < self.players@.len() implies self.players@[i].id.0@ != self.players@[j].id.0@ by {
                assert(self.players@[i].id == old(self).players@[i].id);
                assert(self.players@[j].id == old(self).players@[j].id);
            }
        }
        let ghost mid = *self;
        if after > held_now {
            proof {
                assert(rest.len() == 0);
                assert(self.discard_pile@ =~= old(self).discard_pile@);
            }
            self.materialize_page_at(actor, 0);
        }
        proof {
            let p = old(self).players@[actor as int];
            let q = self.players@[actor as int];
            assert(before as int == p.total());
            assert(seat_of_player(q) == seat_of_player(p));
            assert(q.total() == after);
            if after as int <= held.len() {
                assert(held_now == after);
                assert(q.virtual_len == 0);
                assert((q.hand@ + rest).to_multiset() == p.hand@.to_multiset());
                assert(rest.len() == p.hand@.len() - after);
            } else {
                assert(held_now == held.len());
                assert(mid.players@[actor as int].total() == after);
                assert(mid.players@[actor as int].pages() >= 1);
            }
        }
        self.advance_turn(2);
        HandEffect::SquareRoot { target, before, after }
    }
}


/// What playing `card` does once it lies on the discard pile (`old` is the table
/// at that moment), together with the hand effect the play reports. A seven
/// swaps with `swap_target`'s seat and a zero rotates every hand when the
/// seven-zero house rule is on; otherwise numbers and the plain wild just pass
/// the turn.
pub open spec fn effect_applied(
    old: Game,
    new: Game,
    card: Card,
    swap_target: Option<PlayerId>,
    effect: Option<HandEffect>,
) -> bool {
    let n = old.players@.len() as int;
    let a = old.current_index as int;
    let d = old.direction;
    let passes = table_unchanged(old, new) && new.current_index == advanced(a, n, d, 1) && effect is None;
    match card.rank {
        Rank::Reverse => {
            &&& new.players == old.players
            &&& new.draw_pile == old.draw_pile
            &&& new.discard_pile == old.discard_pile
            &&& new.direction == reversed(d)
            &&& new.current_index == advanced(a, n, reversed(d), if n == 2 { 2 } else { 1 })
            &&& effect is None
        },
        Rank::Skip => table_unchanged(old, new) && new.current_index == advanced(a, n, d, 2) && effect is None,
        Rank::DrawTwo => penalized(old, new, 2) && effect is None,
        Rank::DrawEight => penalized(old, new, 8) && effect is None,
        Rank::WildDrawFour => penalized(old, new, 4) && effect is None,
        Rank::WildDrawSixteen => penalized(old, new, 16) && effect is None,
        Rank::WildDiscardThirtyTwo => {
            &&& redistributed(old, new, 44, 12)
            &&& new.current_index == advanced(a, n, d, 2)
            &&& effect == Some(HandEffect::Redistribute { discarded: 32, distributed: 12 })
        },
        Rank::WildDiscardSixtyFour => {
            &&& redistributed(old, new, 88, 24)
            &&& new.current_index == advanced(a, n, d, 2)
            &&& effect == Some(HandEffect::Redistribute { discarded: 64, distributed: 24 })
        },
        Rank::WildFactorial => effect matches Some(e) && factorial_applied(old, new, e),
        Rank::WildSquareRoot => {
            let after = new.players@[a].total();
            &&& rooted(old, new, after)
            &&& new.current_index == advanced(a, n, d, 2)
            &&& effect == Some(HandEffect::SquareRoot {
                target: old.players@[a].id,
                before: old.players@[a].total() as usize,
                after: after as usize,
            })
        },
        Rank::Number(number) => {
            if number == 7 && old.house_rules.seven_zero {
                let target = swap_target.unwrap();
                &&& hands_swapped(old, new, a, old.seat_of(target.0@))
                &&& new.draw_pile == old.draw_pile
                &&& new.discard_pile == old.discard_pile
                &&& new.direction == d
                &&& new.current_index == advanced(a, n, d, 1)
                &&& effect == Some(HandEffect::Swap { target })
            } else if number == 0 && old.house_rules.seven_zero {
                &&& hands_rotated(old, new, d)
                &&& new.draw_pile == old.draw_pile
                &&& new.discard_pile == old.discard_pile
                &&& new.direction == d
                &&& new.current_index == advanced(a, n, d, 1)
                &&& effect == Some(HandEffect::Rotate { direction: d })
            } else {
                passes
            }
        },
        Rank::Wild => passes,
    }
}

/// What an effect needs of the table: a seven under the seven-zero rule names
/// another seated player, and a discard wild's actor can deal its share.
pub open spec fn effect_ready(g: Game, card: Card, swap_target: Option<PlayerId>) -> bool {
    let p = g.players@[g.current_index as int];
    &&& (card.rank == Rank::Number(7) && g.house_rules.seven_zero) ==> (swap_target matches Some(t)
        && g.seat_of(t.0@) != -1 && g.seat_of(t.0@) != g.current_index)
    &&& card.rank == Rank::WildDiscardThirtyTwo ==> (p.virtual_len > 0 || p.total() >= 12)
    &&& card.rank == Rank::WildDiscardSixtyFour ==> (p.virtual_len > 0 || p.total() >= 24)
}

impl Game {
    /// Carries out the effect of `card`'s rank after it was played; see
    /// `effect_applied`.
    pub fn apply_card_effect(&mut self, card: Card, swap_target: Option<PlayerId>) -> (effect: Option<HandEffect>)
        requires
            old(self).wf(),
            effect_ready(*old(self), card, swap_target),
        ensures
            final(self).wf(),
            effect_frame(*old(self), *final(self)),
            effect_applied(*old(self), *final(self), card, swap_target, effect),
    {
        let ghost n = self.players@.len() as int;
        let ghost a = self.current_index as int;
        match card.rank {
            Rank::Reverse => {
                self.direction.reverse();
                let steps = if self.players.len() == 2 { 2 } else { 1 };
                self.advance_turn(steps);
                None
            },
            Rank::Skip => {
                self.advance_turn(2);
                None
            },
            Rank::DrawTwo => {
                self.penalize_next(2);
                None
            },
            Rank::DrawEight => {
                self.penalize_next(8);
                None
            },
            Rank::WildDrawFour => {
                self.penalize_next(4);
                None
            },
            Rank::WildDrawSixteen => {
                self.penalize_next(16);
                None
            },
            Rank::WildDiscardThirtyTwo => {
                self.redistribute_and_discard(44, 12);
                self.advance_turn(2);
                Some(HandEffect::Redistribute { discarded: 32, distributed: 12 })
            },
            Rank::WildDiscardSixtyFour => {
                self.redistribute_and_discard(88, 24);
                self.advance_turn(2);
                Some(HandEffect::Redistribute { discarded: 64, distributed: 24 })
            },
            Rank::WildFactorial => Some(self.apply_factorial()),
            Rank::WildSquareRoot => Some(self.apply_square_root()),
            Rank::Number(number) => {
                if number == 7 && self.house_rules.seven_zero {
                    let target = swap_target.unwrap();
                    let target_index = self.player_index(&target).unwrap();
                    let actor = self.current_index;
                    self.swap_hands(actor, target_index);
                    self.advance_turn(1);
                    Some(HandEffect::Swap { target })
                } else if number == 0 && self.house_rules.seven_zero {
                    let direction = self.direction;
                    self.rotate_hands(direction);
                    self.advance_turn(1);
                    Some(HandEffect::Rotate { direction })
                } else {
                    self.advance_turn(1);
                    None
                }
            },
            Rank::Wild => {
                self.advance_turn(1);
                None
            },
        }
    }
}

} // verus!
