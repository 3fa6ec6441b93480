//! The game-facing data the protocol works on: players, boards, hands, and
//! the publicly derivable per-slot possibility tables.
//!
//! The protocol only reads plain values out of these types; everything the
//! synchronization layer needs to know about the game is captured here.

use vstd::prelude::*;

verus! {

/// A seat at the table.
pub type Player = u32;

/// A card kind, identified by a number below the board's `num_card_kinds`.
pub type Card = u32;

/// A fully known hand: the card in each slot.
pub type Cards = Vec<Card>;

/// The shared board state every agent can observe.
#[derive(Clone, Copy, Debug, PartialEq, Eq, Structural)]
pub struct BoardState {
    pub num_players: u32,
    pub hand_size: u32,
    pub num_card_kinds: u32,
    /// The agent acting this round.
    pub player: Player,
}

impl BoardState {
    pub open spec fn wf(self) -> bool {
        &&& 1 <= self.num_players
        &&& 1 <= self.num_card_kinds
        &&& self.player < self.num_players
    }

    /// A hand fits this board: one card per slot, every card a known kind.
    pub open spec fn hand_wf(self, hand: Seq<u32>) -> bool {
        &&& hand.len() == self.hand_size
        &&& forall|i: int| 0 <= i < hand.len() ==> hand[i] < self.num_card_kinds
    }
}

/// How many entries of a weight sequence are still positive.
pub open spec fn count_positive(s: Seq<u32>) -> int
    decreases s.len(),
{
    if s.len() == 0 {
        0
    } else {
        count_positive(s.drop_last()) + if s.last() > 0 {
            1int
        } else {
            0int
        }
    }
}

/// How often `card` occurs in a card sequence.
pub open spec fn count_card(s: Seq<u32>, card: u32) -> int
    decreases s.len(),
{
    if s.len() == 0 {
        0
    } else {
        count_card(s.drop_last(), card) + if s.last() == card {
            1int
        } else {
            0int
        }
    }
}

/// `w - n`, floored at zero.
pub open spec fn saturating_minus(w: int, n: int) -> int {
    if w - n >= 0 {
        w - n
    } else {
        0
    }
}

/// All hands of a view laid out one after the other, in seat order.
pub open spec fn concat_hands(hands: Seq<Seq<u32>>) -> Seq<u32>
    decreases hands.len(),
{
    if hands.len() == 0 {
        Seq::empty()
    } else {
        concat_hands(hands.drop_last()) + hands.last()
    }
}

/// What is publicly known about one hand slot: a weight for every card kind.
/// A kind is still considered possible while its weight is positive.
#[derive(Debug, PartialEq, Eq)]
pub struct CardPossibilityTable {
    pub weights: Vec<u32>,
}

impl View for CardPossibilityTable {
    type V = Seq<u32>;

    open spec fn view(&self) -> Seq<u32> {
        self.weights@
    }
}

impl CardPossibilityTable {
    pub open spec fn wf(self, board: BoardState) -> bool {
        self@.len() == board.num_card_kinds
    }

    /// A table that still allows every kind, each with the same weight.
    pub fn uniform(num_card_kinds: u32, weight: u32) -> (r: Self)
        ensures
            r@.len() == num_card_kinds,
            forall|k: int| 0 <= k < num_card_kinds ==> r@[k] == weight,
    {
        let mut weights: Vec<u32> = Vec::new();
        let mut k: u32 = 0;
        while k < num_card_kinds
            invariant
                k <= num_card_kinds,
                weights@.len() == k,
                forall|i: int| 0 <= i < k ==> weights@[i] == weight,
            decreases num_card_kinds - k,
        {
            weights.push(weight);
            k = k + 1;
        }
        CardPossibilityTable { weights }
    }

    /// One observed copy of `card` is no longer available for this slot:
    /// its weight drops by one, unless it is already zero.
    pub fn decrement_weight_if_possible(&mut self, card: Card)
        requires
            (card as int) < old(self)@.len(),
        ensures
            final(self)@ == (if old(self)@[card as int] > 0 {
                old(self)@.update(card as int, (old(self)@[card as int] - 1) as u32)
            } else {
                old(self)@
            }),
    {
        let idx = card as usize;
        let w = self.weights[idx];
        if w > 0 {
            self.weights.set(idx, w - 1);
        }
    }

    /// How many kinds this slot can still hold.
    pub fn num_possible(&self) -> (n: usize)
        requires
            self@.len() <= usize::MAX,
        ensures
            n == count_positive(self@),
    {
        let mut n: usize = 0;
        let mut i: usize = 0;
        while i < self.weights.len()
            invariant
                i <= self@.len(),
                n <= i,
                n == count_positive(self@.take(i as int)),
            decreases self@.len() - i,
        {
            proof {
                assert(self@.take(i + 1).drop_last() =~= self@.take(i as int));
            }
            if self.weights[i] > 0 {
                n = n + 1;
            }
            i = i + 1;
        }
        proof {
            assert(self@.take(self@.len() as int) =~= self@);
        }
        n
    }

    /// An exact copy of the table.
    pub fn duplicate(&self) -> (r: Self)
        ensures
            r@ == self@,
    {
        let weights = self.weights.clone();
        proof {
            assert(weights@ =~= self.weights@);
        }
        CardPossibilityTable { weights }
    }
}

/// The publicly known information about one whole hand: one possibility
/// table per slot.
#[derive(Debug, PartialEq, Eq)]
pub struct HandInfo {
    pub slots: Vec<CardPossibilityTable>,
}

impl View for HandInfo {
    type V = Seq<Seq<u32>>;

    open spec fn view(&self) -> Seq<Seq<u32>> {
        self.slots@.map_values(|t: CardPossibilityTable| t@)
    }
}

impl HandInfo {
    pub open spec fn wf(self, board: BoardState) -> bool {
        &&& self@.len() == board.hand_size
        &&& forall|i: int| 0 <= i < self@.len() ==> (#[trigger] self@[i]).len() == board.num_card_kinds
    }

    /// Fresh public knowledge about a hand: every slot still allows every
    /// kind, each with the same weight.
    pub fn uniform(board: &BoardState, weight: u32) -> (r: Self)
        ensures
            r.wf(*board),
            forall|i: int, k: int|
                0 <= i < board.hand_size && 0 <= k < board.num_card_kinds
                    ==> #[trigger] r@[i][k] == weight,
    {
        let mut slots: Vec<CardPossibilityTable> = Vec::new();
        let mut i: u32 = 0;
        while i < board.hand_size
            invariant
                i <= board.hand_size,
                slots@.len() == i,
                forall|j: int|
                    0 <= j < i ==> (#[trigger] slots@[j]@).len() == board.num_card_kinds,
                forall|j: int, k: int|
                    0 <= j < i && 0 <= k < board.num_card_kinds ==> #[trigger] slots@[j]@[k] == weight,
            decreases board.hand_size - i,
        {
            slots.push(CardPossibilityTable::uniform(board.num_card_kinds, weight));
            i = i + 1;
        }
        let r = HandInfo { slots };
        proof {
            assert(forall|j: int| 0 <= j < r@.len() ==> r@[j] == slots@[j]@);
        }
        r
    }

    /// An exact copy of the hand information.
    pub fn duplicate(&self) -> (r: Self)
        ensures
            r@ == self@,
    {
        let mut slots: Vec<CardPossibilityTable> = Vec::new();
        let mut i: usize = 0;
        while i < self.slots.len()
            invariant
                i <= self.slots@.len(),
                slots@.len() == i,
                forall|j: int| 0 <= j < i ==> #[trigger] slots@[j]@ == self.slots@[j]@,
            decreases self.slots@.len() - i,
        {
            slots.push(self.slots[i].duplicate());
            i = i + 1;
        }
        let r = HandInfo { slots };
        proof {
            assert(r@ =~= self@);
        }
        r
    }
}

/// One agent's window on the game: its own seat, every other agent's actual
/// hand in seat order, and the shared board.
#[derive(Debug)]
pub struct OwnedGameView {
    pub player: Player,
    pub other_hands: Vec<(Player, Cards)>,
    pub board: BoardState,
}

impl OwnedGameView {
    /// The other agents, in the fixed seat order every agent agrees on.
    pub open spec fn others(self) -> Seq<Player> {
        self.other_hands@.map_values(|pc: (Player, Cards)| pc.0)
    }

    /// The other agents' hands, in the same order.
    pub open spec fn hands(self) -> Seq<Seq<u32>> {
        self.other_hands@.map_values(|pc: (Player, Cards)| pc.1@)
    }

    /// The seat-order position of `player` among the other agents.
    pub open spec fn index_of(self, player: Player) -> int {
        choose|i: int| 0 <= i < self.others().len() && self.others()[i] == player
    }

    /// The actual hand of another agent.
    pub open spec fn hand_of(self, player: Player) -> Seq<u32> {
        self.hands()[self.index_of(player)]
    }

    /// Every card of every other hand, in seat order.
    pub open spec fn all_other_cards(self) -> Seq<u32> {
        concat_hands(self.hands())
    }

    pub open spec fn wf(self) -> bool {
        &&& self.board.wf()
        &&& self.player < self.board.num_players
        &&& self.other_hands@.len() + 1 == self.board.num_players
        &&& forall|i: int|
            0 <= i < self.others().len() ==> #[trigger] self.others()[i] < self.board.num_players
        &&& forall|i: int| 0 <= i < self.others().len() ==> #[trigger] self.others()[i] != self.player
        &&& forall|i: int, j: int|
            0 <= i < self.others().len() && 0 <= j < self.others().len() && i != j
                ==> self.others()[i] != self.others()[j]
        &&& forall|i: int|
            0 <= i < self.hands().len() ==> self.board.hand_wf(#[trigger] self.hands()[i])
    }

    pub fn get_board(&self) -> (r: &BoardState)
        ensures
            r == self.board,
    {
        &self.board
    }

    /// The actual hand of another agent, looked up by seat.
    pub fn get_hand(&self, player: Player) -> (r: &Cards)
        requires
            self.wf(),
            self.others().contains(player),
        ensures
            r@ == self.hand_of(player),
            self.board.hand_wf(r@),
    {
        let mut i: usize = 0;
        while i < self.other_hands.len()
            invariant
                self.wf(),
                self.others().contains(player),
                i <= self.others().len(),
                forall|j: int| 0 <= j < i ==> #[trigger] self.others()[j] != player,
            decreases self.others().len() - i,
        {
            if self.other_hands[i].0 == player {
                proof {
                    assert(self.others()[i as int] == player);
                    let w = self.index_of(player);
                    assert(0 <= w < self.others().len() && self.others()[w] == player);
                    assert(w == i);
                }
                return &self.other_hands[i].1;
            }
            i = i + 1;
        }
        proof {
            let w = choose|j: int|
                0 <= j < self.others().len() && self.others()[j] == player;
            assert(self.others()[w] != player);
            assert(false);
        }
        vstd::pervasive::unreached()
    }

    /// The other agents in seat order, as an owned list.
    pub fn get_other_players(&self) -> (r: Vec<Player>)
        ensures
            r@ == self.others(),
    {
        let mut r: Vec<Player> = Vec::new();
        let mut i: usize = 0;
        while i < self.other_hands.len()
            invariant
                i <= self.others().len(),
                r@ =~= self.others().take(i as int),
            decreases self.others().len() - i,
        {
            r.push(self.other_hands[i].0);
            i = i + 1;
        }
        proof {
            assert(r@ =~= self.others());
        }
        r
    }

    /// Every card of every other hand, in seat order, as an owned list.
    pub fn other_cards(&self) -> (r: Vec<Card>)
        requires
            self.wf(),
        ensures
            r@ == self.all_other_cards(),
            forall|i: int| 0 <= i < r@.len() ==> #[trigger] r@[i] < self.board.num_card_kinds,
    {
        let mut r: Vec<Card> = Vec::new();
        let mut h: usize = 0;
        while h < self.other_hands.len()
            invariant
                self.wf(),
                h <= self.hands().len(),
                r@ =~= concat_hands(self.hands().take(h as int)),
                forall|i: int| 0 <= i < r@.len() ==> #[trigger] r@[i] < self.board.num_card_kinds,
            decreases self.hands().len() - h,
        {
            let hand = &self.other_hands[h].1;
            let ghost prefix = r@;
            let mut j: usize = 0;
            while j < hand.len()
                invariant
                    self.wf(),
                    h < self.hands().len(),
                    hand@ == self.hands()[h as int],
                    j <= hand@.len(),
                    r@ =~= prefix + hand@.take(j as int),
                    forall|i: int|
                        0 <= i < r@.len() ==> #[trigger] r@[i] < self.board.num_card_kinds,
                decreases hand@.len() - j,
            {
                r.push(hand[j]);
                j = j + 1;
            }
            proof {
                assert(self.hands().take(h + 1).drop_last() =~= self.hands().take(h as int));
                assert(hand@.take(hand@.len() as int) =~= hand@);
                assert(r@ =~= concat_hands(self.hands().take(h + 1)));
            }
            h = h + 1;
        }
        proof {
            assert(self.hands().take(self.hands().len() as int) =~= self.hands());
        }
        r
    }
}

} // verus!
