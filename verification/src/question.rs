//! Bounded probes of a hand.
//!
//! A [`Question`] is a deterministic function of a fully known hand with a
//! statically bounded answer range (`info_amount`), paired with an inverse
//! acknowledgment step that narrows the public possibility tables to the
//! hands consistent with the answer.  The protocol folds answers into a
//! single residue and, on the observing side, splits that residue back into
//! answers by re-deriving the same questions.

use vstd::prelude::*;

verus! {

use crate::model::{BoardState, CardPossibilityTable, Cards, HandInfo};
use crate::residue::ModulusInformation;

/// The closed set of probes a strategy can ask about a hand slot.
#[derive(Clone, Copy, Debug, PartialEq, Eq, Structural)]
pub enum Question {
    /// The remainder of the card kind in `slot`, taken modulo `base`.
    CardModulo { slot: usize, base: u32 },
    /// Whether the card kind in `slot` is at least `threshold`.
    CardAtLeast { slot: usize, threshold: u32 },
}

impl Question {
    pub open spec fn wf(self, board: BoardState) -> bool {
        match self {
            Question::CardModulo { slot, base } => slot < board.hand_size && 2 <= base,
            Question::CardAtLeast { slot, threshold } => slot < board.hand_size,
        }
    }

    /// The hand slot this question asks about.
    pub open spec fn spec_slot(self) -> int {
        match self {
            Question::CardModulo { slot, .. } => slot as int,
            Question::CardAtLeast { slot, .. } => slot as int,
        }
    }

    /// The size of the answer range.
    pub open spec fn spec_info_amount(self) -> int {
        match self {
            Question::CardModulo { base, .. } => base as int,
            Question::CardAtLeast { .. } => 2,
        }
    }

    /// The answer this question gives on a fully known hand.
    pub open spec fn spec_answer(self, hand: Seq<u32>, board: BoardState) -> int {
        match self {
            Question::CardModulo { slot, base } => hand[slot as int] as int % base as int,
            Question::CardAtLeast { slot, threshold } => if hand[slot as int] >= threshold {
                1int
            } else {
                0int
            },
        }
    }

    /// Whether card kind `k` in the questioned slot is consistent with the
    /// answer `value`.
    pub open spec fn consistent(self, k: int, value: int) -> bool {
        match self {
            Question::CardModulo { base, .. } => k % (base as int) == value,
            Question::CardAtLeast { threshold, .. } => (k >= threshold) <==> (value == 1),
        }
    }

    /// The effect of acknowledging answer `value`: the questioned slot keeps
    /// exactly the weights of the kinds consistent with the answer.
    pub open spec fn spec_acknowledge(self, value: int, info: Seq<Seq<u32>>) -> Seq<Seq<u32>> {
        let slot = self.spec_slot();
        info.update(
            slot,
            Seq::new(
                info[slot].len(),
                |k: int|
                    if self.consistent(k, value) {
                        info[slot][k]
                    } else {
                        0u32
                    },
            ),
        )
    }

    /// How much information this question asks for.
    pub fn info_amount(&self) -> (r: u32)
        ensures
            r == self.spec_info_amount(),
    {
        match *self {
            Question::CardModulo { base, .. } => base,
            Question::CardAtLeast { .. } => 2,
        }
    }

    /// The answer to this question, given the actual cards.  The actual card
    /// kind in the questioned slot is always consistent with the answer.
    pub fn answer(&self, hand: &Cards, board: &BoardState) -> (r: u32)
        requires
            self.wf(*board),
            board.hand_wf(hand@),
        ensures
            r == self.spec_answer(hand@, *board),
            0 <= r < self.spec_info_amount(),
            self.consistent(hand@[self.spec_slot()] as int, r as int),
    {
        match *self {
            Question::CardModulo { slot, base } => hand[slot] % base,
            Question::CardAtLeast { slot, threshold } => {
                if hand[slot] >= threshold {
                    1
                } else {
                    0
                }
            },
        }
    }

    /// Processes the answer, narrowing the public possibility tables of the
    /// questioned slot to the kinds consistent with it.
    pub fn acknowledge_answer(&self, value: u32, hand_info: &mut HandInfo, board: &BoardState)
        requires
            self.wf(*board),
            old(hand_info).wf(*board),
            value < self.spec_info_amount(),
        ensures
            final(hand_info)@ == self.spec_acknowledge(value as int, old(hand_info)@),
            final(hand_info).wf(*board),
    {
        let slot: usize = match *self {
            Question::CardModulo { slot, .. } => slot,
            Question::CardAtLeast { slot, .. } => slot,
        };
        let mut table = hand_info.slots[slot].duplicate();
        let num_kinds = table.weights.len();
        let mut k: usize = 0;
        while k < num_kinds
            invariant
                self.wf(*board),
                old(hand_info).wf(*board),
                slot == self.spec_slot(),
                slot < old(hand_info)@.len(),
                num_kinds == table@.len(),
                table@.len() == old(hand_info)@[slot as int].len(),
                k <= num_kinds,
                forall|j: int|
                    0 <= j < k ==> #[trigger] table@[j] == (if self.consistent(
                        j,
                        value as int,
                    ) {
                        old(hand_info)@[slot as int][j]
                    } else {
                        0u32
                    }),
                forall|j: int|
                    k <= j < num_kinds ==> #[trigger] table@[j] == old(hand_info)@[slot as int][j],
            decreases num_kinds - k,
        {
            let keep: bool = match *self {
                Question::CardModulo { base, .. } => (k as u32) % base == value,
                Question::CardAtLeast { threshold, .. } => ((k as u32) >= threshold) == (value
                    == 1),
            };
            if !keep {
                table.weights.set(k, 0);
            }
            k = k + 1;
        }
        hand_info.slots.set(slot, table);
        proof {
            let expected = self.spec_acknowledge(value as int, old(hand_info)@);
            assert forall|i: int| 0 <= i < hand_info@.len() implies hand_info@[i]
                == expected[i] by {
                if i == slot {
                    assert(hand_info@[i] =~= expected[i]);
                }
            }
            assert(hand_info@ =~~= expected);
        }
    }

    /// The answer packaged as a residue: modulus `info_amount`, value the
    /// answer itself.
    pub fn answer_info(&self, hand: &Cards, board: &BoardState) -> (r: ModulusInformation)
        requires
            self.wf(*board),
            board.hand_wf(hand@),
        ensures
            r.modulus == self.spec_info_amount(),
            r.value == self.spec_answer(hand@, *board),
            r.wf(),
    {
        ModulusInformation::new(self.info_amount(), self.answer(hand, board))
    }

    /// Acknowledges a residue-packaged answer; its modulus must be exactly
    /// this question's `info_amount`.
    pub fn acknowledge_answer_info(
        &self,
        answer: ModulusInformation,
        hand_info: &mut HandInfo,
        board: &BoardState,
    )
        requires
            self.wf(*board),
            old(hand_info).wf(*board),
            answer.wf(),
            answer.modulus == self.spec_info_amount(),
        ensures
            final(hand_info)@ == self.spec_acknowledge(answer.value as int, old(hand_info)@),
            final(hand_info).wf(*board),
    {
        self.acknowledge_answer(answer.value, hand_info, board)
    }
}

} // verus!
