//! A small reference strategy implementing [`PublicInformation`].
//!
//! [`BasicPublicInfo`] stores the board and one [`HandInfo`] per seat.  Its
//! question schedule walks the hand in slot order: it asks about the first
//! slot whose possibility table still allows at least two kinds, probing the
//! card's remainder modulo the largest base the remaining information budget
//! affords.  The schedule is a function of the published state alone, so
//! every agent re-derives it identically.

use vstd::prelude::*;

verus! {

use crate::model::{BoardState, CardPossibilityTable, HandInfo, Player, count_positive};
use crate::protocol::{PublicInformation, info_wf};
use crate::question::Question;

/// The first hand slot whose possibility table still allows at least two
/// kinds, searching from `i` on.
pub open spec fn first_unresolved(info: Seq<Seq<u32>>, i: int) -> Option<int>
    decreases info.len() - i,
{
    if i < 0 || i >= info.len() {
        None
    } else if count_positive(info[i]) >= 2 {
        Some(i)
    } else {
        first_unresolved(info, i + 1)
    }
}

/// No weight sequence has more positive entries than entries.
proof fn lemma_count_positive_le_len(s: Seq<u32>)
    ensures
        count_positive(s) <= s.len(),
    decreases s.len(),
{
    if s.len() > 0 {
        lemma_count_positive_le_len(s.drop_last());
    }
}

/// Exact comparison of two weight tables.
fn tables_equal(a: &CardPossibilityTable, b: &CardPossibilityTable) -> (r: bool)
    ensures
        r == (a@ == b@),
{
    if a.weights.len() != b.weights.len() {
        return false;
    }
    let mut i: usize = 0;
    while i < a.weights.len()
        invariant
            a@.len() == b@.len(),
            i <= a@.len(),
            forall|j: int| 0 <= j < i ==> a@[j] == b@[j],
        decreases a@.len() - i,
    {
        if a.weights[i] != b.weights[i] {
            return false;
        }
        i = i + 1;
    }
    proof {
        assert(a@ =~= b@);
    }
    true
}

/// Exact comparison of two hands' published information.
fn hand_infos_equal(a: &HandInfo, b: &HandInfo) -> (r: bool)
    ensures
        r == (a@ == b@),
{
    if a.slots.len() != b.slots.len() {
        return false;
    }
    let mut i: usize = 0;
    while i < a.slots.len()
        invariant
            a@.len() == b@.len(),
            i <= a@.len(),
            forall|j: int| 0 <= j < i ==> a@[j] == b@[j],
        decreases a@.len() - i,
    {
        if !tables_equal(&a.slots[i], &b.slots[i]) {
            proof {
                assert(a@[i as int] == a.slots@[i as int]@);
                assert(b@[i as int] == b.slots@[i as int]@);
            }
            return false;
        }
        proof {
            assert(a@[i as int] == a.slots@[i as int]@);
            assert(b@[i as int] == b.slots@[i as int]@);
        }
        i = i + 1;
    }
    proof {
        assert(a@ =~~= b@);
    }
    true
}

/// A common-knowledge snapshot holding the board and one published hand
/// information per seat.
#[derive(Debug)]
pub struct BasicPublicInfo {
    pub board: BoardState,
    pub infos: Vec<HandInfo>,
}

impl PublicInformation for BasicPublicInfo {
    open spec fn board_spec(&self) -> BoardState {
        self.board
    }

    open spec fn infos_spec(&self) -> Seq<Seq<Seq<u32>>> {
        self.infos@.map_values(|h: HandInfo| h@)
    }

    open spec fn wf(&self) -> bool {
        &&& self.board.wf()
        &&& self.infos@.len() == self.board.num_players
        &&& forall|p: int|
            0 <= p < self.infos@.len() ==> (#[trigger] self.infos@[p]).wf(self.board)
    }

    open spec fn question_spec(&self, player: int, info: Seq<Seq<u32>>, budget: int) -> Option<
        Question,
    > {
        if budget < 2 {
            None
        } else {
            match first_unresolved(info, 0) {
                None => None,
                Some(slot) => Some(
                    Question::CardModulo {
                        slot: slot as usize,
                        base: if budget <= self.board.num_card_kinds as int {
                            budget as u32
                        } else {
                            self.board.num_card_kinds
                        },
                    },
                ),
            }
        }
    }

    proof fn wf_facts(&self) {
        assert forall|p: int| 0 <= p < self.infos_spec().len() implies info_wf(
            #[trigger] self.infos_spec()[p],
            self.board_spec(),
        ) by {
            assert(self.infos_spec()[p] == self.infos@[p]@);
        }
    }

    fn get_player_info(&self, player: Player) -> (r: HandInfo) {
        let r = self.infos[player as usize].duplicate();
        proof {
            assert(self.infos_spec()[player as int] == self.infos@[player as int]@);
        }
        r
    }

    fn set_player_info(&mut self, player: Player, info: HandInfo) {
        self.infos.set(player as usize, info);
        proof {
            assert forall|p: int| 0 <= p < self.infos_spec().len() implies #[trigger] self.infos_spec()[p]
                == old(self).infos_spec().update(player as int, info@)[p] by {
                assert(self.infos_spec()[p] == self.infos@[p]@);
                if p != player as int {
                    assert(old(self).infos_spec()[p] == old(self).infos@[p]@);
                }
            }
            assert(self.infos_spec() =~~= old(self).infos_spec().update(player as int, info@));
        }
    }

    fn new(board: &BoardState) -> (r: Self) {
        let mut infos: Vec<HandInfo> = Vec::new();
        let mut p: u32 = 0;
        while p < board.num_players
            invariant
                p <= board.num_players,
                infos@.len() == p,
                forall|q: int| 0 <= q < p ==> (#[trigger] infos@[q]).wf(*board),
            decreases board.num_players - p,
        {
            infos.push(HandInfo::uniform(board, 1));
            p = p + 1;
        }
        BasicPublicInfo { board: *board, infos }
    }

    fn set_board(&mut self, board: &BoardState) {
        self.board = *board;
    }

    fn agrees_with(&self, other: Self) -> (r: bool) {
        let boards_equal = self.board.num_players == other.board.num_players
            && self.board.hand_size == other.board.hand_size
            && self.board.num_card_kinds == other.board.num_card_kinds
            && self.board.player == other.board.player;
        if !boards_equal {
            return false;
        }
        if self.infos.len() != other.infos.len() {
            return false;
        }
        let mut p: usize = 0;
        while p < self.infos.len()
            invariant
                self.infos_spec().len() == other.infos_spec().len(),
                self.infos@.len() == other.infos@.len(),
                p <= self.infos@.len(),
                forall|q: int| 0 <= q < p ==> self.infos_spec()[q] == other.infos_spec()[q],
            decreases self.infos@.len() - p,
        {
            if !hand_infos_equal(&self.infos[p], &other.infos[p]) {
                proof {
                    assert(self.infos_spec()[p as int] == self.infos@[p as int]@);
                    assert(other.infos_spec()[p as int] == other.infos@[p as int]@);
                }
                return false;
            }
            proof {
                assert(self.infos_spec()[p as int] == self.infos@[p as int]@);
                assert(other.infos_spec()[p as int] == other.infos@[p as int]@);
            }
            p = p + 1;
        }
        proof {
            assert(self.infos_spec() =~~= other.infos_spec());
        }
        true
    }

    fn next_question(&self, player: Player, hand_info: &HandInfo, budget: u32) -> (q: Option<
        Question,
    >) {
        if budget < 2 {
            proof {
                assert(self.question_spec(player as int, hand_info@, budget as int) is None);
            }
            return None;
        }
        let mut i: usize = 0;
        while i < hand_info.slots.len()
            invariant
                self.wf(),
                2 <= budget,
                hand_info.wf(self.board_spec()),
                i <= hand_info@.len(),
                first_unresolved(hand_info@, 0) == first_unresolved(hand_info@, i as int),
            decreases hand_info@.len() - i,
        {
            proof {
                assert(hand_info@[i as int] == hand_info.slots@[i as int]@);
            }
            if hand_info.slots[i].num_possible() >= 2 {
                proof {
                    assert(first_unresolved(hand_info@, i as int) == Some(i as int));
                    lemma_count_positive_le_len(hand_info@[i as int]);
                }
                let base = if budget <= self.board.num_card_kinds {
                    budget
                } else {
                    self.board.num_card_kinds
                };
                proof {
                    assert(self.question_spec(player as int, hand_info@, budget as int)
                        == Some(Question::CardModulo { slot: i, base }));
                }
                return Some(Question::CardModulo { slot: i, base });
            }
            i = i + 1;
        }
        proof {
            assert(first_unresolved(hand_info@, hand_info@.len() as int) is None);
            assert(self.question_spec(player as int, hand_info@, budget as int) is None);
        }
        None
    }

    fn clone_state(&self) -> (r: Self) {
        let mut infos: Vec<HandInfo> = Vec::new();
        let mut p: usize = 0;
        while p < self.infos.len()
            invariant
                p <= self.infos@.len(),
                infos@.len() == p,
                forall|q: int| 0 <= q < p ==> #[trigger] infos@[q]@ == self.infos@[q]@,
            decreases self.infos@.len() - p,
        {
            infos.push(self.infos[p].duplicate());
            p = p + 1;
        }
        let r = BasicPublicInfo { board: self.board, infos };
        proof {
            assert forall|q: int| 0 <= q < r.infos_spec().len() implies #[trigger] r.infos_spec()[q]
                == self.infos_spec()[q] by {
                assert(r.infos_spec()[q] == r.infos@[q]@);
                assert(self.infos_spec()[q] == self.infos@[q]@);
            }
            assert(r.infos_spec() =~~= self.infos_spec());
        }
        r
    }
}

} // verus!
