//! Operations on whole hands: playability, number batches, paging of large
//! hands, and the seven/zero exchanges.

use vstd::prelude::*;
use vstd::arithmetic::div_mod::{lemma_mod_add_multiples_vanish, lemma_mod_self_0, lemma_small_mod};
use super::cards::{Card, Color, DeckVariant, Direction, GameError, PlayerId, Rank, HAND_BATCH_SIZE};
use super::game::{Game, Player, same_seat_but_cards};
use super::rules::{generate_virtual_cards, generated_card_ok, sat_add, sat_sub};

verus! {

pub open spec fn color_index(color: Color) -> int {
    match color {
        Color::Red => 0,
        Color::Yellow => 1,
        Color::Green => 2,
        Color::Blue => 3,
    }
}

/// The colors present among `hand`'s cards of number `number`.
pub open spec fn has_number_color(hand: Seq<Card>, number: u8, color: Color) -> bool {
    exists|i: int| 0 <= i < hand.len() && #[trigger] hand[i].rank == Rank::Number(number) && hand[i].color == Some(color)
}

/// The four colors in their declared order.
pub open spec fn color_order() -> Seq<Color> {
    seq![Color::Red, Color::Yellow, Color::Green, Color::Blue]
}

/// The colors present among `hand`'s cards numbered `number`.
pub open spec fn present_in_batch(hand: Seq<Card>, number: u8) -> spec_fn(Color) -> bool {
    |c: Color| has_number_color(hand, number, c)
}

/// The distinct colors of the cards numbered `number` in `hand`, in color order.
pub fn number_batch_colors(hand: &[Card], number: u8) -> (colors: Vec<Color>)
    ensures
        colors@ == color_order().filter(present_in_batch(hand@, number)),
        forall|i: int, j: int| 0 <= i < j < colors@.len() ==> color_index(colors@[i]) < color_index(colors@[j]),
        forall|c: Color| colors@.contains(c) <==> has_number_color(hand@, number, c),
{
    let mut colors: Vec<Color> = Vec::new();
    let mut k: usize = 0;
    while k < 4
        invariant
            k <= 4,
            forall|i: int, j: int| 0 <= i < j < colors@.len() ==> color_index(colors@[i]) < color_index(colors@[j]),
            forall|i: int| 0 <= i < colors@.len() ==> color_index(#[trigger] colors@[i]) < k,
            forall|c: Color| colors@.contains(c) <==> (color_index(c) < k && has_number_color(hand@, number, c)),
            colors@ == color_order().take(k as int).filter(present_in_batch(hand@, number)),
        decreases 4 - k,
    {
        let color = Color::ALL[k];
        assert(color_index(color) == k);
        assert(color == color_order()[k as int]);
        let mut present = false;
        let mut i: usize = 0;
        while i < hand.len()
            invariant
                i <= hand@.len(),
                present <==> exists|j: int| 0 <= j < i && #[trigger] hand@[j].rank == Rank::Number(number) && hand@[j].color == Some(color),
            decreases hand@.len() - i,
        {
            if hand[i].rank == Rank::Number(number) && hand[i].color == Some(color) {
                present = true;
            }
            i += 1;
        }
        let ghost before = colors@;
        if present {
            colors.push(color);
        }
        proof {
            let prefix = color_order().take(k + 1);
            assert(prefix.drop_last() =~= color_order().take(k as int));
            assert(prefix.last() == color);
            reveal_with_fuel(Seq::filter, 1);
            assert(present == (present_in_batch(hand@, number))(color));
            assert forall|c: Color| colors@.contains(c) <==> (color_index(c) < k + 1 && has_number_color(hand@, number, c)) by {
                if colors@.contains(c) {
                    let j = choose|j: int| 0 <= j < colors@.len() && colors@[j] == c;
                    if j < before.len() {
                        assert(before.contains(c));
                    }
                }
                if color_index(c) < k + 1 && has_number_color(hand@, number, c) {
                    if color_index(c) < k {
                        assert(before.contains(c));
                        let j = choose|j: int| 0 <= j < before.len() && before[j] == c;
                        assert(colors@[j] == c);
                    } else {
                        assert(c == color);
                        assert(colors@[colors@.len() - 1] == c);
                    }
                }
            }
        }
        k += 1;
    }
    proof {
        assert(color_order().take(4) =~= color_order());
    }
    colors
}

impl Game {
    /// Whether `card` may be played now by a player holding the identities
    /// `hand` and `total` cards in all: discard wilds need 66 or 132 cards in
    /// hand, Wild Draw Four needs no held card of the active color, and the card
    /// must be wild, of the active color, or match the rank of a colored top card.
    pub open spec fn playable(self, hand: Seq<Card>, total: int, card: Card) -> bool {
        let minimum_ok = match card.rank {
            Rank::WildDiscardThirtyTwo => total >= 66,
            Rank::WildDiscardSixtyFour => total >= 132,
            _ => true,
        };
        let draw_four_ok = !(card.rank == Rank::WildDrawFour && exists|i: int|
            0 <= i < hand.len() && #[trigger] hand[i].color == Some(self.active_color));
        &&& minimum_ok
        &&& draw_four_ok
        &&& (card.is_wild() || card.color == Some(self.active_color) || (!self.top().is_wild()
            && card.rank == self.top().rank))
    }

    pub fn is_playable_for(&self, hand: &[Card], total_len: usize, card: Card) -> (playable: bool)
        requires
            self.wf(),
        ensures
            playable == self.playable(hand@, total_len as int, card),
    {
        let minimum_ok = match card.rank {
            Rank::WildDiscardThirtyTwo => total_len >= 66,
            Rank::WildDiscardSixtyFour => total_len >= 132,
            _ => true,
        };
        if !minimum_ok {
            return false;
        }
        if card.rank == Rank::WildDrawFour {
            let mut i: usize = 0;
            while i < hand.len()
                invariant
                    i <= hand@.len(),
                    card.rank == Rank::WildDrawFour,
                    forall|j: int| 0 <= j < i ==> (#[trigger] hand@[j]).color != Some(self.active_color),
                decreases hand@.len() - i,
            {
                if hand[i].color == Some(self.active_color) {
                    proof {
                        assert(hand@[i as int].color == Some(self.active_color));
                    }
                    return false;
                }
                i += 1;
            }
        }
        let top = self.discard_pile[self.discard_pile.len() - 1];
        card.is_wild() || card.color == Some(self.active_color) || (!top.is_wild() && card.rank == top.rank)
    }

    /// Exchanges the hands (identities, counted cards and page) of two seats.
    pub fn swap_hands(&mut self, first: usize, second: usize)
        requires
            old(self).wf(),
            first < old(self).players@.len(),
            second < old(self).players@.len(),
            first != second,
        ensures
            final(self).wf(),
            final(self).same_table(*old(self)),
            final(self).draw_pile == old(self).draw_pile,
            final(self).rng == old(self).rng,
            final(self).players@.len() == old(self).players@.len(),
            hands_swapped(*old(self), *final(self), first as int, second as int),
    {
        let mut hand_a: Vec<Card> = Vec::new();
        std::mem::swap(&mut hand_a, &mut self.players[first].hand);
        let mut hand_b: Vec<Card> = Vec::new();
        std::mem::swap(&mut hand_b, &mut self.players[second].hand);
        self.players[first].hand = hand_b;
        self.players[second].hand = hand_a;
        let virtual_a = self.players[first].virtual_len;
        let virtual_b = self.players[second].virtual_len;
        self.players[first].virtual_len = virtual_b;
        self.players[second].virtual_len = virtual_a;
        let page_a = self.players[first].hand_page;
        let page_b = self.players[second].hand_page;
        self.players[first].hand_page = page_b;
        self.players[second].hand_page = page_a;
        proof {
            assert forall|i: int| 0 <= i < self.players@.len() implies (#[trigger] self.players@[i]).hand@.len() <= HAND_BATCH_SIZE by {
                if i == first {
                    assert(self.players@[i].hand == old(self).players@[second as int].hand);
                } else if i == second {
                    assert(self.players@[i].hand == old(self).players@[first as int].hand);
                } else {
                    assert(self.players@[i] == old(self).players@[i]);
                }
            }
            assert forall|i: int, j: int| 0 <= i < j < self.players@.len() implies self.players@[i].id.0@ != self.players@[j].id.0@ by {
                assert(self.players@[i].id == old(self).players@[i].id);
                assert(self.players@[j].id == old(self).players@[j].id);
            }
        }
    }

    /// Passes every hand one seat along `direction` (the hand of seat `k` goes to
    /// the next seat in that direction).
    pub fn rotate_hands(&mut self, direction: Direction)
        requires
            old(self).wf(),
        ensures
            final(self).wf(),
            final(self).same_table(*old(self)),
            final(self).draw_pile == old(self).draw_pile,
            final(self).rng == old(self).rng,
            final(self).players@.len() == old(self).players@.len(),
            hands_rotated(*old(self), *final(self), direction),
    {
        let n = self.players.len();
        match direction {
            Direction::Clockwise => {
                let mut i: usize = n - 1;
                while i >= 1
                    invariant
                        self.wf(),
                        self.same_table(*old(self)),
                        self.draw_pile == old(self).draw_pile,
                        self.rng == old(self).rng,
                        n == old(self).players@.len(),
                        self.players@.len() == n,
                        i < n,
                        forall|p: int|
                            0 <= p < n ==> {
                                let source = if p < i { p } else if p == i { n - 1 } else { p - 1 };
                                &&& hand_of(#[trigger] self.players@[p]) == hand_of(old(self).players@[source])
                                &&& seat_of_player(self.players@[p]) == seat_of_player(old(self).players@[p])
                                &&& self.players@[p].materialized_received == old(self).players@[p].materialized_received
                            },
                    decreases i,
                {
                    self.swap_hands(i, i - 1);
                    i -= 1;
                }
                proof {
                    assert forall|k: int| 0 <= k < n implies hand_of(#[trigger] self.players@[k]) == hand_of(
                        old(self).players@[(k + n - 1) % (n as int)],
                    ) by {
                        if k == 0 {
                            lemma_small_mod((n - 1) as nat, n as nat);
                            assert((k + n - 1) % (n as int) == n - 1);
                        } else {
                            lemma_mod_add_multiples_vanish(k - 1, n as int);
                            lemma_small_mod((k - 1) as nat, n as nat);
                            assert((k + n - 1) % (n as int) == k - 1);
                        }
                    }
                }
            },
            Direction::CounterClockwise => {
                let mut i: usize = 0;
                while i < n - 1
                    invariant
                        self.wf(),
                        self.same_table(*old(self)),
                        self.draw_pile == old(self).draw_pile,
                        self.rng == old(self).rng,
                        n == old(self).players@.len(),
                        self.players@.len() == n,
                        i <= n - 1,
                        forall|p: int|
                            0 <= p < n ==> {
                                let source = if p < i { p + 1 } else if p == i { 0 } else { p };
                                &&& hand_of(#[trigger] self.players@[p]) == hand_of(old(self).players@[source])
                                &&& seat_of_player(self.players@[p]) == seat_of_player(old(self).players@[p])
                                &&& self.players@[p].materialized_received == old(self).players@[p].materialized_received
                            },
                    decreases n - 1 - i,
                {
                    self.swap_hands(i, i + 1);
                    i += 1;
                }
                proof {
                    assert forall|k: int| 0 <= k < n implies hand_of(#[trigger] self.players@[k]) == hand_of(
                        old(self).players@[(k + 1) % (n as int)],
                    ) by {
                        if k == n - 1 {
                            lemma_mod_self_0(n as int);
                            assert((k + 1) % (n as int) == 0);
                        } else {
                            lemma_small_mod((k + 1) as nat, n as nat);
                            assert((k + 1) % (n as int) == k + 1);
                        }
                    }
                }
            },
        }
    }

    /// Replaces the player's held identities with freshly generated ones for page
    /// `page` (clamped to the last page), keeping the total: the page's cards are
    /// generated as consecutive draws under the player's rule from the player's
    /// materialization cursor, without touching the shared pile.
    pub fn materialize_hand_page(&mut self, player: &PlayerId, page: usize) -> (result: Result<(), GameError>)
        requires
            old(self).wf(),
        ensures
            final(self).wf(),
            match result {
                Err(e) => old(self).seat_of(player.0@) == -1 && e == GameError::UnknownPlayer(*player)
                    && *final(self) == *old(self),
                Ok(()) => old(self).seat_of(player.0@) != -1 && paged(*old(self), *final(self), old(self).seat_of(player.0@), page as int),
            },
    {
        let index = self.player_index(player)?;
        self.materialize_page_at(index, page);
        Ok(())
    }

    pub fn materialize_page_at(&mut self, index: usize, page: usize)
        requires
            old(self).wf(),
            index < old(self).players@.len(),
        ensures
            final(self).wf(),
            paged(*old(self), *final(self), index as int, page as int),
    {
        let total = self.players[index].hand_len();
        let page_count = self.players[index].page_count();
        let page = if page < page_count { page } else { page_count - 1 };
        proof {
            assert(page * HAND_BATCH_SIZE <= total || total == 0) by (nonlinear_arith)
                requires
                    page < page_count,
                    total == 0 ==> page_count == 1,
                    total > 0 ==> page_count == (total + HAND_BATCH_SIZE - 1) / (HAND_BATCH_SIZE as int),
            ;
        }
        let offset = if total == 0 { 0 } else { page * HAND_BATCH_SIZE };
        let remaining = total - offset;
        let page_len = if remaining < HAND_BATCH_SIZE { remaining } else { HAND_BATCH_SIZE };
        let rule = match self.players[index].draw_state {
            Some(state) => Some(state.rule),
            None => None,
        };
        let received = self.players[index].materialized_received;
        let cards = generate_virtual_cards(self.deck_variant, rule, received, page_len, &mut self.rng);
        self.players[index].hand = cards;
        self.players[index].virtual_len = total - page_len;
        self.players[index].hand_page = page;
        self.players[index].materialized_received = received.saturating_add(page_len);
        proof {
            assert forall|i: int| 0 <= i < self.players@.len() implies (#[trigger] self.players@[i]).hand@.len() <= HAND_BATCH_SIZE by {
                if i != index {
                    assert(self.players@[i] == old(self).players@[i]);
                }
            }
            assert forall|i: int, j: int| 0 <= i < j < self.players@.len() implies self.players@[i].id.0@ != self.players@[j].id.0@ by {
                assert(self.players@[i].id == old(self).players@[i].id);
                assert(self.players@[j].id == old(self).players@[j].id);
            }
            let p = old(self).players@[index as int];
            let q = self.players@[index as int];
            assert(seat_of_player(q) == seat_of_player(p));
            assert(q.hand@.len() == page_len);
            assert(q.total() == p.total());
            assert(self.same_table(*old(self)));
            assert(page_len == min_of(sat_sub(p.total(), page * HAND_BATCH_SIZE), HAND_BATCH_SIZE as int));
        }
    }

    /// When the player's held batch is empty but the hand is not, loads the next
    /// page (wrapping to the first) and reports whether it did.
    pub fn materialize_next_batch_if_empty(&mut self, player: &PlayerId) -> (result: Result<bool, GameError>)
        requires
            old(self).wf(),
        ensures
            final(self).wf(),
            match result {
                Err(e) => old(self).seat_of(player.0@) == -1 && e == GameError::UnknownPlayer(*player)
                    && *final(self) == *old(self),
                Ok(loaded) => {
                    let seat = old(self).seat_of(player.0@);
                    let p = old(self).players@[seat];
                    &&& seat != -1
                    &&& loaded == (p.hand@.len() == 0 && p.total() > 0)
                    &&& !loaded ==> *final(self) == *old(self)
                    &&& loaded ==> paged(*old(self), *final(self), seat, ((if p.hand_page < p.pages() { p.hand_page as int } else { p.pages() - 1 }) + 1) % p.pages())
                },
            },
    {
        let index = self.player_index(player)?;
        let owner = &self.players[index];
        if !owner.hand.is_empty() || owner.hand_len() == 0 {
            return Ok(false);
        }
        let pages = owner.page_count();
        let current = if owner.hand_page < pages { owner.hand_page } else { pages - 1 };
        let next_page = (current + 1) % pages;
        self.materialize_page_at(index, next_page);
        Ok(true)
    }
}

/// Seats `first` and `second` have exchanged their hands; every seat keeps the
/// rest of what it has.
pub open spec fn hands_swapped(old: Game, new: Game, first: int, second: int) -> bool {
    &&& new.players@.len() == old.players@.len()
    &&& forall|k: int|
        0 <= k < old.players@.len() ==> {
            let source = if k == first { second } else if k == second { first } else { k };
            &&& hand_of(#[trigger] new.players@[k]) == hand_of(old.players@[source])
            &&& seat_of_player(new.players@[k]) == seat_of_player(old.players@[k])
            &&& new.players@[k].materialized_received == old.players@[k].materialized_received
        }
}

/// Every hand has moved one seat along `direction`; every seat keeps the rest of
/// what it has.
pub open spec fn hands_rotated(old: Game, new: Game, direction: Direction) -> bool {
    &&& new.players@.len() == old.players@.len()
    &&& forall|k: int|
        0 <= k < old.players@.len() ==> {
            let n = old.players@.len() as int;
            let source = match direction {
                Direction::Clockwise => (k + n - 1) % n,
                Direction::CounterClockwise => (k + 1) % n,
            };
            &&& hand_of(#[trigger] new.players@[k]) == hand_of(old.players@[source])
            &&& seat_of_player(new.players@[k]) == seat_of_player(old.players@[k])
            &&& new.players@[k].materialized_received == old.players@[k].materialized_received
        }
}

/// A seat's hand: its identities, its counted cards, and its page.
pub open spec fn hand_of(p: Player) -> (Vec<Card>, usize, usize) {
    (p.hand, p.virtual_len, p.hand_page)
}

/// Everything a seat has besides its hand.
pub open spec fn seat_of_player(p: Player) -> (PlayerId, String, Option<super::cards::PlayerDrawState>) {
    (p.id, p.name, p.draw_state)
}

/// `new` is `old` after seat `seat` loaded page `page` (clamped to its last
/// page): the page's card count of identities, generated from the seat's
/// materialization cursor under its rule, the rest counted; the total is kept.
pub open spec fn paged(old: Game, new: Game, seat: int, page: int) -> bool {
    let p = old.players@[seat];
    let q = new.players@[seat];
    let clamped = if page < p.pages() { page } else { p.pages() - 1 };
    let page_len = min_of(sat_sub(p.total(), clamped * HAND_BATCH_SIZE), HAND_BATCH_SIZE as int);
    let rule = match p.draw_state {
        Some(state) => Some(state.rule),
        None => None,
    };
    &&& 0 <= seat < old.players@.len()
    &&& new.same_table(old)
    &&& new.draw_pile == old.draw_pile
    &&& new.players@.len() == old.players@.len()
    &&& forall|k: int| 0 <= k < old.players@.len() && k != seat ==> new.players@[k] == old.players@[k]
    &&& seat_of_player(q) == seat_of_player(p)
    &&& q.hand@.len() == page_len
    &&& q.virtual_len == p.total() - page_len
    &&& q.hand_page == clamped
    &&& q.total() == p.total()
    &&& q.materialized_received as int == sat_add(p.materialized_received as int, page_len)
    &&& forall|k: int| 0 <= k < page_len ==> generated_card_ok(
        old.deck_variant,
        rule,
        sat_add(p.materialized_received as int, k),
        #[trigger] q.hand@[k],
    )
}

pub open spec fn min_of(a: int, b: int) -> int {
    if a <= b {
        a
    } else {
        b
    }
}

} // verus!
