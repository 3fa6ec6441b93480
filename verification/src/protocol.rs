//! The belief-synchronization protocol.
//!
//! [`PublicInformation`] is the capability interface a concrete strategy
//! implements: per-seat storage of the published hand information, a
//! constructor from a board, and a deterministic question schedule.  On top
//! of those primitives the trait provides the protocol algorithms: folding a
//! hand's question answers into one residue (`get_hat_info_for_player`),
//! inverting that fold against an observed residue
//! (`update_from_hat_info_for_player`), aggregating all hidden hands into
//! one hat sum (`get_hat_sum`), and updating from an observed hat sum
//! (`update_from_hat_sum`).
//!
//! Every numeric mismatch an observer can detect — a communicated residue
//! that does not decompose to zero against the re-derived question schedule —
//! is reported as a [`HatError`] and leaves the snapshot untouched, so that
//! inconsistent belief state is never silently propagated.

use vstd::prelude::*;

verus! {

use vstd::arithmetic::div_mod::{
    lemma_basic_div,
    lemma_div_is_ordered,
    lemma_mod_division_less_than_divisor,
    lemma_fundamental_div_mod,
    lemma_fundamental_div_mod_converse_div,
    lemma_fundamental_div_mod_converse_mod,
    lemma_hoist_over_denominator,
    lemma_div_denominator,
    lemma_div_multiples_vanish,
    lemma_div_basics,
    lemma_add_mod_noop_right,
    lemma_mod_multiples_vanish,
};
use vstd::arithmetic::mul::{
    lemma_mul_left_inequality,
    lemma_mul_basics,
    lemma_mul_is_distributive_add,
    lemma_mul_is_associative,
    lemma_mul_is_commutative,
    lemma_mul_nonnegative,
};

use crate::model::{
    BoardState,
    HandInfo,
    OwnedGameView,
    Player,
    count_card,
    saturating_minus,
};
use crate::question::Question;
use crate::residue::ModulusInformation;

/// The single failure class of the protocol: a numeric contract violation
/// detected while decomposing a communicated residue.  It signals a bug in
/// the calling strategy layer (mismatched question schedules between the
/// encoding and decoding paths) and aborts the decision round.
#[derive(Clone, Copy, Debug, PartialEq, Eq, Structural)]
pub enum HatError {
    /// A residue was not fully consumed by the question schedule it was
    /// decomposed against.
    ResidueMismatch,
}

/// Well-formedness of one seat's published hand information, at the level of
/// plain values: one weight table per slot, one weight per card kind.
pub open spec fn info_wf(info: Seq<Seq<u32>>, board: BoardState) -> bool {
    &&& info.len() == board.hand_size
    &&& forall|i: int| 0 <= i < info.len() ==> (#[trigger] info[i]).len() == board.num_card_kinds
}

/// The capability interface of the belief-synchronization protocol.
///
/// A strategy supplies the primitives: per-seat lookup and replacement of
/// the published hand information, construction from a board, and the
/// question schedule.  The schedule is pinned to the spec function
/// `question_spec`, which makes it a deterministic function of the public
/// state — the invariant the whole scheme rests on, since every agent must
/// re-derive exactly the same questions.
pub trait PublicInformation: Sized {
    /// The board this common-knowledge snapshot was built from.
    spec fn board_spec(&self) -> BoardState;

    /// The published hand information, one entry per seat.
    spec fn infos_spec(&self) -> Seq<Seq<Seq<u32>>>;

    /// Validity of the snapshot.
    spec fn wf(&self) -> bool;

    /// Which question, if any, the strategy asks next about `player`'s hand,
    /// given the evolving hand information and the remaining information
    /// budget.
    spec fn question_spec(&self, player: int, info: Seq<Seq<u32>>, budget: int) -> Option<
        Question,
    >;

    /// A valid snapshot has one hand information per seat, each fitting the
    /// board.
    proof fn wf_facts(&self)
        requires
            self.wf(),
        ensures
            self.board_spec().wf(),
            self.infos_spec().len() == self.board_spec().num_players,
            forall|p: int|
                0 <= p < self.infos_spec().len() ==> info_wf(
                    #[trigger] self.infos_spec()[p],
                    self.board_spec(),
                ),
    ;

    fn get_player_info(&self, player: Player) -> (r: HandInfo)
        requires
            self.wf(),
            player < self.board_spec().num_players,
        ensures
            r@ == self.infos_spec()[player as int],
    ;

    fn set_player_info(&mut self, player: Player, info: HandInfo)
        requires
            old(self).wf(),
            player < old(self).board_spec().num_players,
            info.wf(old(self).board_spec()),
        ensures
            final(self).wf(),
            final(self).board_spec() == old(self).board_spec(),
            final(self).infos_spec() == old(self).infos_spec().update(player as int, info@),
    ;

    /// A fresh snapshot for the given board.
    fn new(board: &BoardState) -> (r: Self)
        requires
            board.wf(),
        ensures
            r.wf(),
            r.board_spec() == *board,
    ;

    /// Carries the snapshot over to the next round's board, keeping the
    /// published hand information.
    fn set_board(&mut self, board: &BoardState)
        requires
            old(self).wf(),
            board.wf(),
            board.num_players == old(self).board_spec().num_players,
            board.hand_size == old(self).board_spec().hand_size,
            board.num_card_kinds == old(self).board_spec().num_card_kinds,
        ensures
            final(self).wf(),
            final(self).board_spec() == *board,
            final(self).infos_spec() == old(self).infos_spec(),
    ;

    /// Whether two snapshots represent the same common knowledge.
    fn agrees_with(&self, other: Self) -> (r: bool)
        requires
            self.wf(),
            other.wf(),
        ensures
            r == (self.board_spec() == other.board_spec() && self.infos_spec()
                == other.infos_spec()),
    ;

    /// The next question of the deterministic schedule, or `None` when the
    /// schedule is exhausted.  A returned question always fits the board and
    /// asks for at least two and at most `budget` states, so the product of
    /// all `info_amount`s never exceeds the information budget.
    fn next_question(&self, player: Player, hand_info: &HandInfo, budget: u32) -> (q: Option<
        Question,
    >)
        requires
            self.wf(),
            player < self.board_spec().num_players,
            hand_info.wf(self.board_spec()),
            1 <= budget,
        ensures
            q == self.question_spec(player as int, hand_info@, budget as int),
            q matches Some(qq) ==> qq.wf(self.board_spec()) && 2 <= qq.spec_info_amount()
                <= budget,
    ;

    /// An exact copy of the snapshot: same board, same published hand
    /// information.
    fn clone_state(&self) -> (r: Self)
        requires
            self.wf(),
        ensures
            r.wf(),
            r.board_spec() == self.board_spec(),
            r.infos_spec() == self.infos_spec(),
            forall|p: int, qinfo: Seq<Seq<u32>>, b: int| #[trigger] r.question_spec(p, qinfo, b)
                == self.question_spec(p, qinfo, b),
    ;

    /// Hook for strategies that store derived state beyond the per-seat hand
    /// information: called after a batch of `set_player_info` updates.
    fn update_other_info(&mut self)
        requires
            old(self).wf(),
        ensures
            final(self).wf(),
            final(self).board_spec() == old(self).board_spec(),
            final(self).infos_spec() == old(self).infos_spec(),
    {
    }

    /// Replaces the published hand information of each listed seat, in
    /// order, then refreshes derived state.
    fn set_player_infos(&mut self, infos: Vec<(Player, HandInfo)>)
        requires
            old(self).wf(),
            forall|i: int|
                0 <= i < infos@.len() ==> (#[trigger] infos@[i]).0
                    < old(self).board_spec().num_players && infos@[i].1.wf(
                    old(self).board_spec(),
                ),
        ensures
            final(self).wf(),
            final(self).board_spec() == old(self).board_spec(),
            final(self).infos_spec() == spec_apply_infos(old(self).infos_spec(), infos@),
    {
        let mut i: usize = 0;
        while i < infos.len()
            invariant
                old(self).wf(),
                self.wf(),
                self.board_spec() == old(self).board_spec(),
                i <= infos@.len(),
                forall|j: int|
                    0 <= j < infos@.len() ==> (#[trigger] infos@[j]).0
                        < old(self).board_spec().num_players && infos@[j].1.wf(
                        old(self).board_spec(),
                    ),
                self.infos_spec() == spec_apply_infos(
                    old(self).infos_spec(),
                    infos@.take(i as int),
                ),
            decreases infos@.len() - i,
        {
            let player = infos[i].0;
            let info = infos[i].1.duplicate();
            proof {
                assert(info.wf(self.board_spec()));
                assert(infos@.take(i + 1).drop_last() =~= infos@.take(i as int));
                assert(infos@.take(i + 1).last() == infos@[i as int]);
            }
            self.set_player_info(player, info);
            i = i + 1;
        }
        proof {
            assert(infos@.take(infos@.len() as int) =~= infos@);
        }
        self.update_other_info();
    }

    /// Drives the question schedule against `player`'s actual hand (visible
    /// in `view` but not to `player` itself), folding every answer into one
    /// accumulated residue and acknowledging it into `hand_info` in place.
    /// The result is cast up to modulus exactly `total_info`.
    fn get_hat_info_for_player(
        &self,
        player: Player,
        hand_info: &mut HandInfo,
        total_info: u32,
        view: &OwnedGameView,
    ) -> (r: ModulusInformation)
        requires
            self.wf(),
            view.wf(),
            self.board_spec() == view.board,
            player != view.player,
            view.others().contains(player),
            player < self.board_spec().num_players,
            old(hand_info).wf(self.board_spec()),
            1 <= total_info,
        ensures
            r.wf(),
            r.modulus == total_info,
            final(hand_info).wf(self.board_spec()),
            ({
                let folded = spec_gather_schedule(
                    (|qinfo: Seq<Seq<u32>>, budget: int|
                        self.question_spec(player as int, qinfo, budget)),
                    self.board_spec(),
                    view.hand_of(player),
                    old(hand_info)@,
                    spec_identity(),
                    total_info as int,
                );
                r.value == folded.0.value && final(hand_info)@ == folded.1
            }),
    {
        let ghost sched: spec_fn(Seq<Seq<u32>>, int) -> Option<Question> = |qinfo: Seq<
            Seq<u32>,
        >, budget: int| self.question_spec(player as int, qinfo, budget);
        let mut answer_info = ModulusInformation::none();
        let mut remaining = answer_info.info_remaining(total_info);
        let hand = view.get_hand(player);
        proof {
            assert(answer_info == spec_identity());
        }
        loop
            invariant
                self.wf(),
                view.wf(),
                self.board_spec() == view.board,
                player != view.player,
                view.others().contains(player),
                player < self.board_spec().num_players,
                hand_info.wf(self.board_spec()),
                hand@ == view.hand_of(player),
                view.board.hand_wf(hand@),
                answer_info.wf(),
                1 <= answer_info.modulus <= total_info,
                answer_info.value < total_info,
                remaining == answer_info.spec_info_remaining(total_info as int),
                1 <= remaining,
                forall|qinfo: Seq<Seq<u32>>, budget: int| #[trigger] sched(qinfo, budget)
                    == self.question_spec(player as int, qinfo, budget),
                spec_gather_schedule(
                    sched,
                    self.board_spec(),
                    hand@,
                    hand_info@,
                    answer_info,
                    total_info as int,
                ) == spec_gather_schedule(
                    sched,
                    self.board_spec(),
                    hand@,
                    old(hand_info)@,
                    spec_identity(),
                    total_info as int,
                ),
            ensures
                answer_info.wf(),
                answer_info.modulus <= total_info,
                hand_info.wf(self.board_spec()),
                forall|qinfo: Seq<Seq<u32>>, budget: int| #[trigger] sched(qinfo, budget)
                    == self.question_spec(player as int, qinfo, budget),
                (answer_info, hand_info@) == spec_gather_schedule(
                    sched,
                    self.board_spec(),
                    hand@,
                    old(hand_info)@,
                    spec_identity(),
                    total_info as int,
                ),
            decreases total_info - answer_info.modulus,
        {
            let q_opt = self.next_question(player, hand_info, remaining);
            match q_opt {
                None => {
                    proof {
                        assert(spec_gather_schedule(
                            sched,
                            self.board_spec(),
                            hand@,
                            hand_info@,
                            answer_info,
                            total_info as int,
                        ) == (answer_info, hand_info@));
                    }
                    break;
                },
                Some(question) => {
                    let ghost prev_acc = answer_info;
                    let ghost prev_info = hand_info@;
                    let ghost prev_remaining = remaining;
                    let new_answer_info = question.answer_info(hand, &view.board);
                    question.acknowledge_answer_info(new_answer_info, hand_info, &view.board);
                    proof {
                        lemma_modulus_grows(answer_info, new_answer_info, total_info as int);
                    }
                    answer_info.combine(new_answer_info, total_info);
                    remaining = answer_info.info_remaining(total_info);
                    proof {
                        assert(sched(prev_info, prev_remaining as int) == Some(question));
                        assert(spec_gather_schedule(
                            sched,
                            self.board_spec(),
                            hand@,
                            prev_info,
                            prev_acc,
                            total_info as int,
                        ) == spec_gather_schedule(
                            sched,
                            self.board_spec(),
                            hand@,
                            hand_info@,
                            answer_info,
                            total_info as int,
                        ));
                    }
                },
            }
        }
        answer_info.cast_up(total_info);
        proof {
            let ensures_sched = |qinfo: Seq<Seq<u32>>, budget: int|
                self.question_spec(player as int, qinfo, budget);
            assert forall|qinfo: Seq<Seq<u32>>, budget: int| #[trigger] sched(qinfo, budget)
                == ensures_sched(qinfo, budget) by {}
            assert(sched =~= ensures_sched);
        }
        answer_info
    }

    /// The exact inverse of `get_hat_info_for_player`: re-derives the same
    /// question schedule, but answers each question by splitting the
    /// incoming residue instead of consulting a hand, acknowledging each
    /// piece into `hand_info` in place.  The residue must be fully consumed;
    /// a leftover means the caller supplied a residue of the wrong modulus
    /// for this schedule and aborts the round with [`HatError`].
    fn update_from_hat_info_for_player(
        &self,
        player: Player,
        hand_info: &mut HandInfo,
        board: &BoardState,
        info: ModulusInformation,
    ) -> (r: Result<(), HatError>)
        requires
            self.wf(),
            *board == self.board_spec(),
            player < self.board_spec().num_players,
            old(hand_info).wf(self.board_spec()),
            info.wf(),
        ensures
            final(hand_info).wf(self.board_spec()),
            info.modulus == 1 ==> r is Ok,
            ({
                let scattered = spec_scatter_schedule(
                    (|qinfo: Seq<Seq<u32>>, budget: int|
                        self.question_spec(player as int, qinfo, budget)),
                    self.board_spec(),
                    old(hand_info)@,
                    info,
                );
                final(hand_info)@ == scattered.1 && (r is Ok <==> scattered.0.value == 0)
            }),
    {
        let ghost sched: spec_fn(Seq<Seq<u32>>, int) -> Option<Question> = |qinfo: Seq<
            Seq<u32>,
        >, budget: int| self.question_spec(player as int, qinfo, budget);
        let mut inf = info;
        loop
            invariant
                self.wf(),
                *board == self.board_spec(),
                player < self.board_spec().num_players,
                hand_info.wf(self.board_spec()),
                inf.wf(),
                inf.modulus <= info.modulus,
                info.modulus == 1 ==> inf.value == 0,
                forall|qinfo: Seq<Seq<u32>>, budget: int| #[trigger] sched(qinfo, budget)
                    == self.question_spec(player as int, qinfo, budget),
                spec_scatter_schedule(sched, self.board_spec(), hand_info@, inf)
                    == spec_scatter_schedule(sched, self.board_spec(), old(hand_info)@, info),
            ensures
                hand_info.wf(self.board_spec()),
                inf.wf(),
                info.modulus == 1 ==> inf.value == 0,
                forall|qinfo: Seq<Seq<u32>>, budget: int| #[trigger] sched(qinfo, budget)
                    == self.question_spec(player as int, qinfo, budget),
                (inf, hand_info@) == spec_scatter_schedule(
                    sched,
                    self.board_spec(),
                    old(hand_info)@,
                    info,
                ),
            decreases inf.modulus,
        {
            let q_opt = self.next_question(player, hand_info, inf.modulus);
            match q_opt {
                None => {
                    proof {
                        assert(spec_scatter_schedule(sched, self.board_spec(), hand_info@, inf)
                            == (inf, hand_info@));
                    }
                    break;
                },
                Some(question) => {
                    let ghost prev_inf = inf;
                    let ghost prev_info = hand_info@;
                    let amount = question.info_amount();
                    proof {
                        lemma_split_shrinks(inf, amount as int);
                    }
                    let answer_info = inf.split(amount);
                    question.acknowledge_answer_info(answer_info, hand_info, board);
                    proof {
                        assert(sched(prev_info, prev_inf.modulus as int) == Some(question));
                        assert(spec_scatter_schedule(
                            sched,
                            self.board_spec(),
                            prev_info,
                            prev_inf,
                        ) == spec_scatter_schedule(sched, self.board_spec(), hand_info@, inf));
                    }
                },
            }
        }
        proof {
            let ensures_sched = |qinfo: Seq<Seq<u32>>, budget: int|
                self.question_spec(player as int, qinfo, budget);
            assert forall|qinfo: Seq<Seq<u32>>, budget: int| #[trigger] sched(qinfo, budget)
                == ensures_sched(qinfo, budget) by {}
            assert(sched =~= ensures_sched);
        }
        if inf.value == 0 {
            Ok(())
        } else {
            Err(HatError::ResidueMismatch)
        }
    }

    /// When deciding on a move with `total_info` distinguishable choices,
    /// computes the combined hat sum over every other agent's hidden hand
    /// and simultaneously updates the snapshot to simulate that sum becoming
    /// common knowledge.  With `total_info == 1` no information can be
    /// conveyed: the identity residue is returned and the snapshot is left
    /// completely untouched.
    fn get_hat_sum(&mut self, total_info: u32, view: &OwnedGameView) -> (r: ModulusInformation)
        requires
            old(self).wf(),
            view.wf(),
            old(self).board_spec() == view.board,
            1 <= total_info,
        ensures
            r.wf(),
            r.modulus == total_info,
            final(self).wf(),
            final(self).board_spec() == old(self).board_spec(),
            total_info == 1 ==> r.value == 0 && *final(self) == *old(self),
            total_info > 1 ==> (exists|contribs: Seq<int>|
                #![trigger spec_mod_fold(contribs, total_info as int)]
                {
                    &&& contribs.len() == view.others().len()
                    &&& (forall|j: int|
                        0 <= j < contribs.len() ==> #[trigger] contribs[j]
                            == spec_gather_schedule(
                            (|qinfo: Seq<Seq<u32>>, budget: int|
                                old(self).question_spec(
                                    view.others()[j] as int,
                                    qinfo,
                                    budget,
                                )),
                            old(self).board_spec(),
                            view.hand_of(view.others()[j]),
                            old(self).infos_spec()[view.others()[j] as int],
                            spec_identity(),
                            total_info as int,
                        ).0.value)
                    &&& r.value == spec_mod_fold(contribs, total_info as int)
                }),
            final(self).infos_spec().len() == old(self).infos_spec().len(),
            total_info > 1 ==> (forall|j: int|
                0 <= j < view.others().len() ==> final(self).infos_spec()[(
                #[trigger] view.others()[j]) as int] == spec_gather_schedule(
                    (|qinfo: Seq<Seq<u32>>, budget: int|
                        old(self).question_spec(view.others()[j] as int, qinfo, budget)),
                    old(self).board_spec(),
                    view.hand_of(view.others()[j]),
                    old(self).infos_spec()[view.others()[j] as int],
                    spec_identity(),
                    total_info as int,
                ).1),
            forall|p: int|
                0 <= p < old(self).infos_spec().len() && !view.others().contains(p as u32)
                    ==> #[trigger] final(self).infos_spec()[p] == old(self).infos_spec()[p],
    {
        if total_info == 1 {
            return ModulusInformation::none();
        }
        let others = view.get_other_players();
        let mut sum_info = ModulusInformation::new(total_info, 0);
        let mut updates: Vec<(Player, HandInfo)> = Vec::new();
        let ghost mut contribs: Seq<int> = Seq::empty();
        let mut i: usize = 0;
        while i < others.len()
            invariant
                *self == *old(self),
                self.wf(),
                view.wf(),
                self.board_spec() == view.board,
                others@ == view.others(),
                i <= others@.len(),
                sum_info.wf(),
                sum_info.modulus == total_info,
                1 <= total_info,
                forall|j: int|
                    0 <= j < updates@.len() ==> (#[trigger] updates@[j]).0
                        < self.board_spec().num_players && updates@[j].1.wf(self.board_spec()),
                contribs.len() == i,
                updates@.len() == i,
                forall|j: int| 0 <= j < i ==> (#[trigger] updates@[j]).0 == view.others()[j],
                forall|j: int|
                    0 <= j < i ==> (#[trigger] updates@[j]).1@ == spec_gather_schedule(
                        (|qinfo: Seq<Seq<u32>>, budget: int|
                            old(self).question_spec(view.others()[j] as int, qinfo, budget)),
                        old(self).board_spec(),
                        view.hand_of(view.others()[j]),
                        old(self).infos_spec()[view.others()[j] as int],
                        spec_identity(),
                        total_info as int,
                    ).1,
                forall|j: int|
                    0 <= j < contribs.len() ==> #[trigger] contribs[j] == spec_gather_schedule(
                        (|qinfo: Seq<Seq<u32>>, budget: int|
                            old(self).question_spec(view.others()[j] as int, qinfo, budget)),
                        old(self).board_spec(),
                        view.hand_of(view.others()[j]),
                        old(self).infos_spec()[view.others()[j] as int],
                        spec_identity(),
                        total_info as int,
                    ).0.value,
                sum_info.value == spec_mod_fold(contribs, total_info as int),
            decreases others@.len() - i,
        {
            let player = others[i];
            proof {
                assert(view.others()[i as int] == player);
                self.wf_facts();
            }
            let mut hand_info = self.get_player_info(player);
            let info = self.get_hat_info_for_player(player, &mut hand_info, total_info, view);
            sum_info.add(&info);
            updates.push((player, hand_info));
            proof {
                let lam_call = |qinfo: Seq<Seq<u32>>, budget: int|
                    self.question_spec(player as int, qinfo, budget);
                let lam_stated = |qinfo: Seq<Seq<u32>>, budget: int|
                    old(self).question_spec(view.others()[i as int] as int, qinfo, budget);
                assert forall|qinfo: Seq<Seq<u32>>, budget: int| #[trigger] lam_call(
                    qinfo,
                    budget,
                ) == lam_stated(qinfo, budget) by {}
                assert(lam_call =~= lam_stated);
                let ghost prev_contribs = contribs;
                contribs = contribs.push(info.value as int);
                assert(contribs.drop_last() =~= prev_contribs);
                assert(spec_mod_fold(contribs, total_info as int) == (spec_mod_fold(
                    prev_contribs,
                    total_info as int,
                ) + info.value) % (total_info as int));
            }
            i = i + 1;
        }
        proof {
            self.wf_facts();
        }
        self.set_player_infos(updates);
        proof {
            assert(contribs.len() == view.others().len());
            assert(sum_info.value == spec_mod_fold(contribs, total_info as int));
            lemma_apply_infos_effect(old(self).infos_spec(), updates@);
            assert forall|j: int| 0 <= j < view.others().len() implies self.infos_spec()[(
            #[trigger] view.others()[j]) as int] == spec_gather_schedule(
                (|qinfo: Seq<Seq<u32>>, budget: int|
                    old(self).question_spec(view.others()[j] as int, qinfo, budget)),
                old(self).board_spec(),
                view.hand_of(view.others()[j]),
                old(self).infos_spec()[view.others()[j] as int],
                spec_identity(),
                total_info as int,
            ).1 by {
                assert(updates@[j].0 == view.others()[j]);
                assert(self.infos_spec()[(updates@[j].0) as int] == updates@[j].1@);
            }
            assert forall|p: int|
                0 <= p < old(self).infos_spec().len() && !view.others().contains(
                    p as u32,
                ) implies #[trigger] self.infos_spec()[p] == old(self).infos_spec()[p] by {
                assert forall|j: int| 0 <= j < updates@.len() implies ((
                #[trigger] updates@[j]).0 as int) != p by {
                    if updates@[j].0 as int == p {
                        assert(view.others().contains(p as u32));
                    }
                }
            }
        }
        sum_info
    }

    /// When updating on a move, if the acting agent is inferred to have
    /// called `get_hat_sum` and obtained `info`, recomputes every other
    /// non-acting agent's contribution, subtracts each from `info`, and
    /// applies the leftover to the viewer's own hand information.  If the
    /// viewer is the actor the leftover must be exactly zero; any numeric
    /// mismatch aborts the round with [`HatError`] and leaves the snapshot
    /// untouched.  With modulus 1 the call is a no-op.
    fn update_from_hat_sum(&mut self, info: ModulusInformation, view: &OwnedGameView) -> (r:
        Result<(), HatError>)
        requires
            old(self).wf(),
            view.wf(),
            old(self).board_spec() == view.board,
            info.wf(),
        ensures
            final(self).wf(),
            final(self).board_spec() == old(self).board_spec(),
            info.modulus == 1 ==> r is Ok && *final(self) == *old(self),
            r is Err ==> *final(self) == *old(self),
            info.modulus > 1 ==> (exists|contribs: Seq<int>|
                #![trigger spec_mod_sub_fold(info.value as int, contribs, info.modulus as int)]
                {
                    &&& contribs.len() == view.others().len()
                    &&& (forall|j: int|
                        0 <= j < contribs.len() ==> #[trigger] contribs[j] == (
                        if view.others()[j] == view.board.player {
                            0int
                        } else {
                            spec_gather_schedule(
                                (|qinfo: Seq<Seq<u32>>, budget: int|
                                    old(self).question_spec(
                                        view.others()[j] as int,
                                        qinfo,
                                        budget,
                                    )),
                                old(self).board_spec(),
                                view.hand_of(view.others()[j]),
                                old(self).infos_spec()[view.others()[j] as int],
                                spec_identity(),
                                info.modulus as int,
                            ).0.value as int
                        }))
                    &&& ({
                        let leftover = spec_mod_sub_fold(
                            info.value as int,
                            contribs,
                            info.modulus as int,
                        );
                        if view.player == view.board.player {
                            r is Ok <==> leftover == 0
                        } else {
                            r is Ok <==> spec_scatter_schedule(
                                (|qinfo: Seq<Seq<u32>>, budget: int|
                                    old(self).question_spec(
                                        view.player as int,
                                        qinfo,
                                        budget,
                                    )),
                                old(self).board_spec(),
                                old(self).infos_spec()[view.player as int],
                                ModulusInformation {
                                    modulus: info.modulus,
                                    value: leftover as u32,
                                },
                            ).0.value == 0
                        }
                    })
                    &&& (r is Ok ==> ({
                        let leftover = spec_mod_sub_fold(
                            info.value as int,
                            contribs,
                            info.modulus as int,
                        );
                        &&& final(self).infos_spec().len() == old(self).infos_spec().len()
                        &&& (forall|j: int|
                            0 <= j < view.others().len() ==> final(self).infos_spec()[(
                            #[trigger] view.others()[j]) as int] == (if view.others()[j]
                                == view.board.player {
                                old(self).infos_spec()[view.others()[j] as int]
                            } else {
                                spec_gather_schedule(
                                    (|qinfo: Seq<Seq<u32>>, budget: int|
                                        old(self).question_spec(
                                            view.others()[j] as int,
                                            qinfo,
                                            budget,
                                        )),
                                    old(self).board_spec(),
                                    view.hand_of(view.others()[j]),
                                    old(self).infos_spec()[view.others()[j] as int],
                                    spec_identity(),
                                    info.modulus as int,
                                ).1
                            }))
                        &&& (view.player == view.board.player ==> final(self).infos_spec()[view.player as int]
                            == old(self).infos_spec()[view.player as int])
                        &&& (view.player != view.board.player ==> final(self).infos_spec()[view.player as int]
                            == spec_scatter_schedule(
                            (|qinfo: Seq<Seq<u32>>, budget: int|
                                old(self).question_spec(view.player as int, qinfo, budget)),
                            old(self).board_spec(),
                            old(self).infos_spec()[view.player as int],
                            ModulusInformation {
                                modulus: info.modulus,
                                value: leftover as u32,
                            },
                        ).1)
                    }))
                }),
    {
        if info.modulus == 1 {
            return Ok(());
        }
        let info_source = view.board.player;
        let mut inf = info;
        let others = view.get_other_players();
        let mut updates: Vec<(Player, HandInfo)> = Vec::new();
        let ghost mut contribs: Seq<int> = Seq::empty();
        let mut i: usize = 0;
        while i < others.len()
            invariant
                *self == *old(self),
                self.wf(),
                view.wf(),
                self.board_spec() == view.board,
                others@ == view.others(),
                i <= others@.len(),
                inf.wf(),
                inf.modulus == info.modulus,
                info.wf(),
                info_source == view.board.player,
                forall|j: int|
                    0 <= j < updates@.len() ==> (#[trigger] updates@[j]).0
                        < self.board_spec().num_players && updates@[j].1.wf(self.board_spec()),
                contribs.len() == i,
                updates@.len() == i,
                forall|j: int| 0 <= j < i ==> (#[trigger] updates@[j]).0 == view.others()[j],
                forall|j: int|
                    0 <= j < i ==> (#[trigger] updates@[j]).1@ == (if view.others()[j]
                        == view.board.player {
                        old(self).infos_spec()[view.others()[j] as int]
                    } else {
                        spec_gather_schedule(
                            (|qinfo: Seq<Seq<u32>>, budget: int|
                                old(self).question_spec(view.others()[j] as int, qinfo, budget)),
                            old(self).board_spec(),
                            view.hand_of(view.others()[j]),
                            old(self).infos_spec()[view.others()[j] as int],
                            spec_identity(),
                            info.modulus as int,
                        ).1
                    }),
                forall|j: int|
                    0 <= j < contribs.len() ==> #[trigger] contribs[j] == (
                    if view.others()[j] == view.board.player {
                        0int
                    } else {
                        spec_gather_schedule(
                            (|qinfo: Seq<Seq<u32>>, budget: int|
                                old(self).question_spec(view.others()[j] as int, qinfo, budget)),
                            old(self).board_spec(),
                            view.hand_of(view.others()[j]),
                            old(self).infos_spec()[view.others()[j] as int],
                            spec_identity(),
                            info.modulus as int,
                        ).0.value as int
                    }),
                inf.value == spec_mod_sub_fold(info.value as int, contribs, info.modulus as int),
            decreases others@.len() - i,
        {
            let player = others[i];
            if player != info_source {
                proof {
                    assert(view.others()[i as int] == player);
                    self.wf_facts();
                }
                let mut hand_info = self.get_player_info(player);
                let player_info = self.get_hat_info_for_player(
                    player,
                    &mut hand_info,
                    inf.modulus,
                    view,
                );
                inf.subtract(&player_info);
                updates.push((player, hand_info));
                proof {
                    let lam_call = |qinfo: Seq<Seq<u32>>, budget: int|
                        self.question_spec(player as int, qinfo, budget);
                    let lam_stated = |qinfo: Seq<Seq<u32>>, budget: int|
                        old(self).question_spec(view.others()[i as int] as int, qinfo, budget);
                    assert forall|qinfo: Seq<Seq<u32>>, budget: int| #[trigger] lam_call(
                        qinfo,
                        budget,
                    ) == lam_stated(qinfo, budget) by {}
                    assert(lam_call =~= lam_stated);
                    let ghost prev_contribs = contribs;
                    contribs = contribs.push(player_info.value as int);
                    assert(contribs.drop_last() =~= prev_contribs);
                }
            } else {
                proof {
                    assert(view.others()[i as int] == player);
                    self.wf_facts();
                }
                let hand_info = self.get_player_info(player);
                updates.push((player, hand_info));
                proof {
                    let ghost prev_contribs = contribs;
                    contribs = contribs.push(0int);
                    assert(contribs.drop_last() =~= prev_contribs);
                    vstd::arithmetic::div_mod::lemma_small_mod(
                        inf.value as nat,
                        info.modulus as nat,
                    );
                }
            }
            i = i + 1;
        }
        let me = view.player;
        proof {
            assert(contribs.len() == view.others().len());
        }
        if me == info_source {
            if inf.value != 0 {
                return Err(HatError::ResidueMismatch);
            }
            proof {
                self.wf_facts();
            }
            self.set_player_infos(updates);
            proof {
                lemma_apply_infos_effect(old(self).infos_spec(), updates@);
                assert forall|j: int| 0 <= j < view.others().len() implies self.infos_spec()[(
                #[trigger] view.others()[j]) as int] == (if view.others()[j]
                    == view.board.player {
                    old(self).infos_spec()[view.others()[j] as int]
                } else {
                    spec_gather_schedule(
                        (|qinfo: Seq<Seq<u32>>, budget: int|
                            old(self).question_spec(view.others()[j] as int, qinfo, budget)),
                        old(self).board_spec(),
                        view.hand_of(view.others()[j]),
                        old(self).infos_spec()[view.others()[j] as int],
                        spec_identity(),
                        info.modulus as int,
                    ).1
                }) by {
                    assert(updates@[j].0 == view.others()[j]);
                    assert(self.infos_spec()[(updates@[j].0) as int] == updates@[j].1@);
                }
                assert forall|j: int| 0 <= j < updates@.len() implies ((
                #[trigger] updates@[j]).0 as int) != me as int by {
                    assert(updates@[j].0 == view.others()[j]);
                }
                assert(self.infos_spec()[me as int] == old(self).infos_spec()[me as int]);
            }
            return Ok(());
        } else {
            proof {
                self.wf_facts();
            }
            let mut my_hand = self.get_player_info(me);
            let res = self.update_from_hat_info_for_player(me, &mut my_hand, &view.board, inf);
            proof {
                let lam_call = |qinfo: Seq<Seq<u32>>, budget: int|
                    self.question_spec(me as int, qinfo, budget);
                let lam_stated = |qinfo: Seq<Seq<u32>>, budget: int|
                    old(self).question_spec(view.player as int, qinfo, budget);
                assert forall|qinfo: Seq<Seq<u32>>, budget: int| #[trigger] lam_call(
                    qinfo,
                    budget,
                ) == lam_stated(qinfo, budget) by {}
                assert(lam_call =~= lam_stated);
                assert(inf == ModulusInformation {
                    modulus: info.modulus,
                    value: spec_mod_sub_fold(info.value as int, contribs, info.modulus as int)
                        as u32,
                });
            }
            match res {
                Ok(()) => {},
                Err(e) => {
                    return Err(e);
                },
            }
            updates.push((me, my_hand));
            proof {
                self.wf_facts();
            }
            self.set_player_infos(updates);
            proof {
                assert forall|j: int, k: int|
                    0 <= j < k < updates@.len() implies updates@[j].0 != updates@[k].0 by {
                    if k < updates@.len() - 1 {
                        assert(updates@[j].0 == view.others()[j]);
                        assert(updates@[k].0 == view.others()[k]);
                    } else {
                        assert(updates@[j].0 == view.others()[j]);
                        assert(updates@[k].0 == me);
                    }
                }
                lemma_apply_infos_effect(old(self).infos_spec(), updates@);
                assert forall|j: int| 0 <= j < view.others().len() implies self.infos_spec()[(
                #[trigger] view.others()[j]) as int] == (if view.others()[j]
                    == view.board.player {
                    old(self).infos_spec()[view.others()[j] as int]
                } else {
                    spec_gather_schedule(
                        (|qinfo: Seq<Seq<u32>>, budget: int|
                            old(self).question_spec(view.others()[j] as int, qinfo, budget)),
                        old(self).board_spec(),
                        view.hand_of(view.others()[j]),
                        old(self).infos_spec()[view.others()[j] as int],
                        spec_identity(),
                        info.modulus as int,
                    ).1
                }) by {
                    assert(updates@[j].0 == view.others()[j]);
                    assert(self.infos_spec()[(updates@[j].0) as int] == updates@[j].1@);
                }
                assert(updates@[updates@.len() - 1].0 == me);
                assert(self.infos_spec()[me as int] == my_hand@);
            }
        }
        Ok(())
    }

    /// What the viewing agent privately knows about its own hand: the public
    /// per-slot weights, with one copy subtracted (floored at zero) for
    /// every card the agent can see in the other agents' hands.
    fn get_private_info(&self, view: &OwnedGameView) -> (r: HandInfo)
        requires
            self.wf(),
            view.wf(),
            self.board_spec() == view.board,
        ensures
            r.wf(self.board_spec()),
            forall|s: int, k: int|
                0 <= s < r@.len() && 0 <= k < r@[s].len() ==> #[trigger] r@[s][k]
                    == saturating_minus(
                    self.infos_spec()[view.player as int][s][k] as int,
                    count_card(view.all_other_cards(), k as u32),
                ),
    {
        proof {
            self.wf_facts();
        }
        let mut info = self.get_player_info(view.player);
        let cards = view.other_cards();
        let ghost orig = self.infos_spec()[view.player as int];
        let mut s: usize = 0;
        while s < info.slots.len()
            invariant
                self.wf(),
                view.wf(),
                self.board_spec() == view.board,
                cards@ == view.all_other_cards(),
                forall|n: int|
                    0 <= n < cards@.len() ==> #[trigger] cards@[n]
                        < self.board_spec().num_card_kinds,
                orig == self.infos_spec()[view.player as int],
                info_wf(orig, self.board_spec()),
                info@.len() == orig.len(),
                s <= info@.len(),
                forall|j: int| s <= j < info@.len() ==> #[trigger] info@[j] == orig[j],
                forall|j: int, k: int|
                    0 <= j < s && 0 <= k < info@[j].len() ==> #[trigger] info@[j][k]
                        == saturating_minus(orig[j][k] as int, count_card(cards@, k as u32)),
                forall|j: int|
                    0 <= j < s ==> (#[trigger] info@[j]).len()
                        == self.board_spec().num_card_kinds,
            decreases info@.len() - s,
        {
            let mut table = info.slots[s].duplicate();
            proof {
                assert(info@[s as int] == info.slots@[s as int]@);
                assert(info@[s as int] == orig[s as int]);
                assert(orig[s as int].len() == self.board_spec().num_card_kinds);
                assert(cards@.take(0) =~= Seq::<u32>::empty());
            }
            let mut n: usize = 0;
            while n < cards.len()
                invariant
                    self.wf(),
                    cards@ == view.all_other_cards(),
                    forall|m: int|
                        0 <= m < cards@.len() ==> #[trigger] cards@[m]
                            < self.board_spec().num_card_kinds,
                    s < info@.len(),
                    info@.len() == orig.len(),
                    orig == self.infos_spec()[view.player as int],
                    info_wf(orig, self.board_spec()),
                    info@[s as int] == orig[s as int],
                    table@.len() == self.board_spec().num_card_kinds,
                    table@.len() == orig[s as int].len(),
                    n <= cards@.len(),
                    forall|k: int|
                        0 <= k < table@.len() ==> #[trigger] table@[k] == saturating_minus(
                            orig[s as int][k] as int,
                            count_card(cards@.take(n as int), k as u32),
                        ),
                decreases cards@.len() - n,
            {
                proof {
                    assert(cards@.take(n + 1).drop_last() =~= cards@.take(n as int));
                    assert(cards@.take(n + 1).last() == cards@[n as int]);
                }
                table.decrement_weight_if_possible(cards[n]);
                n = n + 1;
            }
            proof {
                assert(cards@.take(cards@.len() as int) =~= cards@);
            }
            let ghost prev = info@;
            info.slots.set(s, table);
            proof {
                assert forall|j: int| 0 <= j < info@.len() implies #[trigger] info@[j] == (
                if j == s as int {
                    table@
                } else {
                    prev[j]
                }) by {
                    assert(info@[j] == info.slots@[j]@);
                    if j != s as int {
                        assert(prev[j] == info.slots@[j]@);
                    }
                }
            }
            s = s + 1;
        }
        info
    }

    /// A one-shot signaling trick for an action only the acting agent knows
    /// to be possible: compute the hat sum over `num_states` without
    /// committing; exactly when it is zero, commit it (mutating the
    /// snapshot) and report that the action should be taken.  When the
    /// result is `false` the snapshot is left completely untouched, so an
    /// immediate second call decides the same way.
    fn decide_action_not_known_to_be_possible(
        &mut self,
        num_states: u32,
        view: &OwnedGameView,
    ) -> (r: bool)
        requires
            old(self).wf(),
            view.wf(),
            old(self).board_spec() == view.board,
            1 <= num_states,
        ensures
            final(self).wf(),
            final(self).board_spec() == old(self).board_spec(),
            !r ==> *final(self) == *old(self),
            num_states == 1 ==> r && *final(self) == *old(self),
            final(self).infos_spec().len() == old(self).infos_spec().len(),
            (r && num_states > 1) ==> (forall|j: int|
                0 <= j < view.others().len() ==> final(self).infos_spec()[(
                #[trigger] view.others()[j]) as int] == spec_gather_schedule(
                    (|qinfo: Seq<Seq<u32>>, budget: int|
                        old(self).question_spec(view.others()[j] as int, qinfo, budget)),
                    old(self).board_spec(),
                    view.hand_of(view.others()[j]),
                    old(self).infos_spec()[view.others()[j] as int],
                    spec_identity(),
                    num_states as int,
                ).1),
            forall|p: int|
                0 <= p < old(self).infos_spec().len() && !view.others().contains(p as u32)
                    ==> #[trigger] final(self).infos_spec()[p] == old(self).infos_spec()[p],
            num_states > 1 ==> (exists|contribs: Seq<int>|
                #![trigger spec_mod_fold(contribs, num_states as int)]
                {
                    &&& contribs.len() == view.others().len()
                    &&& (forall|j: int|
                        0 <= j < contribs.len() ==> #[trigger] contribs[j]
                            == spec_gather_schedule(
                            (|qinfo: Seq<Seq<u32>>, budget: int|
                                old(self).question_spec(
                                    view.others()[j] as int,
                                    qinfo,
                                    budget,
                                )),
                            old(self).board_spec(),
                            view.hand_of(view.others()[j]),
                            old(self).infos_spec()[view.others()[j] as int],
                            spec_identity(),
                            num_states as int,
                        ).0.value)
                    &&& (r <==> spec_mod_fold(contribs, num_states as int) == 0)
                }),
    {
        let mut probe = self.clone_state();
        let ghost probe0 = probe;
        let hat_sum = probe.get_hat_sum(num_states, view);
        proof {
            if num_states > 1 {
                let cs = choose|cs: Seq<int>|
                    #![trigger spec_mod_fold(cs, num_states as int)]
                    {
                        &&& cs.len() == view.others().len()
                        &&& (forall|j: int|
                            0 <= j < cs.len() ==> #[trigger] cs[j] == spec_gather_schedule(
                                (|qinfo: Seq<Seq<u32>>, budget: int|
                                    probe0.question_spec(
                                        view.others()[j] as int,
                                        qinfo,
                                        budget,
                                    )),
                                probe0.board_spec(),
                                view.hand_of(view.others()[j]),
                                probe0.infos_spec()[view.others()[j] as int],
                                spec_identity(),
                                num_states as int,
                            ).0.value)
                        &&& hat_sum.value == spec_mod_fold(cs, num_states as int)
                    };
                assert forall|j: int| 0 <= j < cs.len() implies #[trigger] cs[j]
                    == spec_gather_schedule(
                    (|qinfo: Seq<Seq<u32>>, budget: int|
                        old(self).question_spec(view.others()[j] as int, qinfo, budget)),
                    old(self).board_spec(),
                    view.hand_of(view.others()[j]),
                    old(self).infos_spec()[view.others()[j] as int],
                    spec_identity(),
                    num_states as int,
                ).0.value by {
                    let lam_probe = |qinfo: Seq<Seq<u32>>, budget: int|
                        probe0.question_spec(view.others()[j] as int, qinfo, budget);
                    let lam_self = |qinfo: Seq<Seq<u32>>, budget: int|
                        old(self).question_spec(view.others()[j] as int, qinfo, budget);
                    assert forall|qinfo: Seq<Seq<u32>>, budget: int| #[trigger] lam_probe(
                        qinfo,
                        budget,
                    ) == lam_self(qinfo, budget) by {}
                    assert(lam_probe =~= lam_self);
                }
            }
        }
        if hat_sum.value == 0 {
            let _committed = self.get_hat_sum(num_states, view);
            true
        } else {
            false
        }
    }

    /// Companion inversion: observing the action is equivalent to observing
    /// a hat sum of exactly zero over `num_states` states.
    fn update_from_action_not_known_to_be_possible(
        &mut self,
        num_states: u32,
        view: &OwnedGameView,
    ) -> (r: Result<(), HatError>)
        requires
            old(self).wf(),
            view.wf(),
            old(self).board_spec() == view.board,
            1 <= num_states,
        ensures
            final(self).wf(),
            final(self).board_spec() == old(self).board_spec(),
            num_states == 1 ==> r is Ok && *final(self) == *old(self),
            r is Err ==> *final(self) == *old(self),
            num_states > 1 ==> (exists|contribs: Seq<int>|
                #![trigger spec_mod_sub_fold(0, contribs, num_states as int)]
                {
                    &&& contribs.len() == view.others().len()
                    &&& (forall|j: int|
                        0 <= j < contribs.len() ==> #[trigger] contribs[j] == (
                        if view.others()[j] == view.board.player {
                            0int
                        } else {
                            spec_gather_schedule(
                                (|qinfo: Seq<Seq<u32>>, budget: int|
                                    old(self).question_spec(
                                        view.others()[j] as int,
                                        qinfo,
                                        budget,
                                    )),
                                old(self).board_spec(),
                                view.hand_of(view.others()[j]),
                                old(self).infos_spec()[view.others()[j] as int],
                                spec_identity(),
                                num_states as int,
                            ).0.value as int
                        }))
                    &&& ({
                        let leftover = spec_mod_sub_fold(0, contribs, num_states as int);
                        if view.player == view.board.player {
                            r is Ok <==> leftover == 0
                        } else {
                            r is Ok <==> spec_scatter_schedule(
                                (|qinfo: Seq<Seq<u32>>, budget: int|
                                    old(self).question_spec(
                                        view.player as int,
                                        qinfo,
                                        budget,
                                    )),
                                old(self).board_spec(),
                                old(self).infos_spec()[view.player as int],
                                ModulusInformation {
                                    modulus: num_states,
                                    value: leftover as u32,
                                },
                            ).0.value == 0
                        }
                    })
                    &&& (r is Ok ==> ({
                        let leftover = spec_mod_sub_fold(0, contribs, num_states as int);
                        &&& final(self).infos_spec().len() == old(self).infos_spec().len()
                        &&& (forall|j: int|
                            0 <= j < view.others().len() ==> final(self).infos_spec()[(
                            #[trigger] view.others()[j]) as int] == (if view.others()[j]
                                == view.board.player {
                                old(self).infos_spec()[view.others()[j] as int]
                            } else {
                                spec_gather_schedule(
                                    (|qinfo: Seq<Seq<u32>>, budget: int|
                                        old(self).question_spec(
                                            view.others()[j] as int,
                                            qinfo,
                                            budget,
                                        )),
                                    old(self).board_spec(),
                                    view.hand_of(view.others()[j]),
                                    old(self).infos_spec()[view.others()[j] as int],
                                    spec_identity(),
                                    num_states as int,
                                ).1
                            }))
                        &&& (view.player == view.board.player ==> final(self).infos_spec()[view.player as int]
                            == old(self).infos_spec()[view.player as int])
                        &&& (view.player != view.board.player ==> final(self).infos_spec()[view.player as int]
                            == spec_scatter_schedule(
                            (|qinfo: Seq<Seq<u32>>, budget: int|
                                old(self).question_spec(view.player as int, qinfo, budget)),
                            old(self).board_spec(),
                            old(self).infos_spec()[view.player as int],
                            ModulusInformation {
                                modulus: num_states,
                                value: leftover as u32,
                            },
                        ).1)
                    }))
                }),
    {
        let zero = ModulusInformation::new(num_states, 0);
        let r = self.update_from_hat_sum(zero, view);
        proof {
            if num_states > 1 {
                let cs = choose|cs: Seq<int>|
                    #![trigger spec_mod_sub_fold(zero.value as int, cs, zero.modulus as int)]
                    {
                        &&& cs.len() == view.others().len()
                        &&& (forall|j: int|
                            0 <= j < cs.len() ==> #[trigger] cs[j] == (
                            if view.others()[j] == view.board.player {
                                0int
                            } else {
                                spec_gather_schedule(
                                    (|qinfo: Seq<Seq<u32>>, budget: int|
                                        old(self).question_spec(
                                            view.others()[j] as int,
                                            qinfo,
                                            budget,
                                        )),
                                    old(self).board_spec(),
                                    view.hand_of(view.others()[j]),
                                    old(self).infos_spec()[view.others()[j] as int],
                                    spec_identity(),
                                    zero.modulus as int,
                                ).0.value as int
                            }))
                        &&& ({
                            let leftover = spec_mod_sub_fold(
                                zero.value as int,
                                cs,
                                zero.modulus as int,
                            );
                            if view.player == view.board.player {
                                r is Ok <==> leftover == 0
                            } else {
                                r is Ok <==> spec_scatter_schedule(
                                    (|qinfo: Seq<Seq<u32>>, budget: int|
                                        old(self).question_spec(
                                            view.player as int,
                                            qinfo,
                                            budget,
                                        )),
                                    old(self).board_spec(),
                                    old(self).infos_spec()[view.player as int],
                                    ModulusInformation {
                                        modulus: zero.modulus,
                                        value: leftover as u32,
                                    },
                                ).0.value == 0
                            }
                        })
                        &&& (r is Ok ==> ({
                            let leftover = spec_mod_sub_fold(
                                zero.value as int,
                                cs,
                                zero.modulus as int,
                            );
                            &&& self.infos_spec().len() == old(self).infos_spec().len()
                            &&& (forall|j: int|
                                0 <= j < view.others().len() ==> self.infos_spec()[(
                                #[trigger] view.others()[j]) as int] == (if view.others()[j]
                                    == view.board.player {
                                    old(self).infos_spec()[view.others()[j] as int]
                                } else {
                                    spec_gather_schedule(
                                        (|qinfo: Seq<Seq<u32>>, budget: int|
                                            old(self).question_spec(
                                                view.others()[j] as int,
                                                qinfo,
                                                budget,
                                            )),
                                        old(self).board_spec(),
                                        view.hand_of(view.others()[j]),
                                        old(self).infos_spec()[view.others()[j] as int],
                                        spec_identity(),
                                        zero.modulus as int,
                                    ).1
                                }))
                            &&& (view.player == view.board.player ==> self.infos_spec()[view.player as int]
                                == old(self).infos_spec()[view.player as int])
                            &&& (view.player != view.board.player ==> self.infos_spec()[view.player as int]
                                == spec_scatter_schedule(
                                (|qinfo: Seq<Seq<u32>>, budget: int|
                                    old(self).question_spec(view.player as int, qinfo, budget)),
                                old(self).board_spec(),
                                old(self).infos_spec()[view.player as int],
                                ModulusInformation {
                                    modulus: zero.modulus,
                                    value: leftover as u32,
                                },
                            ).1)
                        }))
                    };
                assert(spec_mod_sub_fold(0, cs, num_states as int) == spec_mod_sub_fold(
                    zero.value as int,
                    cs,
                    zero.modulus as int,
                ));
            }
        }
        r
    }
}

/// Replaying a list of per-seat replacements over a snapshot's hand
/// information, in order.
pub open spec fn spec_apply_infos(
    infos: Seq<Seq<Seq<u32>>>,
    ups: Seq<(Player, HandInfo)>,
) -> Seq<Seq<Seq<u32>>>
    decreases ups.len(),
{
    if ups.len() == 0 {
        infos
    } else {
        spec_apply_infos(infos, ups.drop_last()).update(ups.last().0 as int, ups.last().1@)
    }
}

/// Replaying replacements for pairwise distinct seats: each listed seat
/// ends at its listed value, every other seat keeps its old value.
proof fn lemma_apply_infos_effect(infos: Seq<Seq<Seq<u32>>>, ups: Seq<(Player, HandInfo)>)
    requires
        forall|j: int| 0 <= j < ups.len() ==> ((#[trigger] ups[j]).0 as int) < infos.len(),
        forall|j: int, k: int| 0 <= j < k < ups.len() ==> ups[j].0 != ups[k].0,
    ensures
        spec_apply_infos(infos, ups).len() == infos.len(),
        forall|j: int|
            0 <= j < ups.len() ==> spec_apply_infos(infos, ups)[(#[trigger] ups[j]).0 as int]
                == ups[j].1@,
        forall|p: int|
            0 <= p < infos.len() && (forall|j: int|
                0 <= j < ups.len() ==> ((#[trigger] ups[j]).0 as int) != p)
                ==> #[trigger] spec_apply_infos(infos, ups)[p] == infos[p],
    decreases ups.len(),
{
    if ups.len() > 0 {
        let front = ups.drop_last();
        let last = ups.last();
        lemma_apply_infos_effect(infos, front);
        assert forall|j: int| 0 <= j < ups.len() implies spec_apply_infos(infos, ups)[(
        #[trigger] ups[j]).0 as int] == ups[j].1@ by {
            if j < front.len() {
                assert(front[j] == ups[j]);
                assert(ups[j].0 != last.0);
            }
        }
    }
}

/// The no-information residue, as a spec value.
pub open spec fn spec_identity() -> ModulusInformation {
    ModulusInformation { modulus: 1, value: 0 }
}

/// Left-to-right modular summation of a list of contributions.
pub open spec fn spec_mod_fold(values: Seq<int>, c: int) -> int
    decreases values.len(),
{
    if values.len() == 0 {
        0
    } else {
        (spec_mod_fold(values.drop_last(), c) + values.last()) % c
    }
}

/// Left-to-right modular subtraction of a list of contributions from a
/// starting value.
pub open spec fn spec_mod_sub_fold(start: int, values: Seq<int>, c: int) -> int
    decreases values.len(),
{
    if values.len() == 0 {
        start
    } else {
        (spec_mod_sub_fold(start, values.drop_last(), c) - values.last()) % c
    }
}

/// A well-formed question's answer always lies in `[0, info_amount)`,
/// whatever the hand holds.
pub proof fn lemma_answer_in_range(q: Question, hand: Seq<u32>, board: BoardState)
    requires
        q.wf(board),
    ensures
        0 <= q.spec_answer(hand, board) < q.spec_info_amount(),
{
    match q {
        Question::CardModulo { slot, base } => {
            lemma_mod_division_less_than_divisor(hand[slot as int] as int, base as int);
        },
        Question::CardAtLeast { .. } => {},
    }
}

/// The residue and the narrowed hand information produced by folding the
/// question schedule over a hand, starting from the accumulator `acc` under
/// cap `c`: the deterministic meaning of `get_hat_info_for_player` before
/// its final widening.
pub open spec fn spec_gather_schedule(
    schedule: spec_fn(Seq<Seq<u32>>, int) -> Option<Question>,
    board: BoardState,
    hand: Seq<u32>,
    info: Seq<Seq<u32>>,
    acc: ModulusInformation,
    c: int,
) -> (ModulusInformation, Seq<Seq<u32>>)
    decreases c - acc.modulus,
    when acc.wf() && acc.modulus <= c && acc.value < c && c <= u32::MAX
    via spec_gather_schedule_decreases
{
    let remaining = acc.spec_info_remaining(c);
    match schedule(info, remaining) {
        Option::None => (acc, info),
        Option::Some(q) => {
            if q.wf(board) && 2 <= q.spec_info_amount() <= remaining {
                let ans = q.spec_answer(hand, board);
                let step = ModulusInformation {
                    modulus: q.spec_info_amount() as u32,
                    value: ans as u32,
                };
                let acc2 = ModulusInformation {
                    modulus: acc.spec_combined_modulus(step, c) as u32,
                    value: (acc.value + acc.modulus * ans) as u32,
                };
                spec_gather_schedule(schedule, board, hand, q.spec_acknowledge(ans, info), acc2, c)
            } else {
                (acc, info)
            }
        },
    }
}

#[via_fn]
proof fn spec_gather_schedule_decreases(
    schedule: spec_fn(Seq<Seq<u32>>, int) -> Option<Question>,
    board: BoardState,
    hand: Seq<u32>,
    info: Seq<Seq<u32>>,
    acc: ModulusInformation,
    c: int,
) {
    let remaining = acc.spec_info_remaining(c);
    match schedule(info, remaining) {
        Option::None => {},
        Option::Some(q) => {
            if q.wf(board) && 2 <= q.spec_info_amount() <= remaining {
                let ans = q.spec_answer(hand, board);
                lemma_answer_in_range(q, hand, board);
                let step = ModulusInformation {
                    modulus: q.spec_info_amount() as u32,
                    value: ans as u32,
                };
                lemma_modulus_grows(acc, step, c);
                crate::residue::lemma_combine_value_bound(acc, step, c);
            }
        },
    }
}



/// The leftover residue and the narrowed hand information produced by
/// splitting `inf` digit by digit along the question schedule: the
/// deterministic meaning of `update_from_hat_info_for_player`.
pub open spec fn spec_scatter_schedule(
    schedule: spec_fn(Seq<Seq<u32>>, int) -> Option<Question>,
    board: BoardState,
    info: Seq<Seq<u32>>,
    inf: ModulusInformation,
) -> (ModulusInformation, Seq<Seq<u32>>)
    decreases inf.modulus,
    when inf.wf()
    via spec_scatter_schedule_decreases
{
    match schedule(info, inf.modulus as int) {
        Option::None => (inf, info),
        Option::Some(q) => {
            if q.wf(board) && 2 <= q.spec_info_amount() <= inf.modulus {
                let amt = q.spec_info_amount();
                let low = inf.value as int % amt;
                let inf2 = ModulusInformation {
                    modulus: ((inf.modulus - low - 1) / amt + 1) as u32,
                    value: (inf.value as int / amt) as u32,
                };
                spec_scatter_schedule(schedule, board, q.spec_acknowledge(low, info), inf2)
            } else {
                (inf, info)
            }
        },
    }
}

#[via_fn]
proof fn spec_scatter_schedule_decreases(
    schedule: spec_fn(Seq<Seq<u32>>, int) -> Option<Question>,
    board: BoardState,
    info: Seq<Seq<u32>>,
    inf: ModulusInformation,
) {
    match schedule(info, inf.modulus as int) {
        Option::None => {},
        Option::Some(q) => {
            if q.wf(board) && 2 <= q.spec_info_amount() <= inf.modulus {
                let amt = q.spec_info_amount();
                lemma_split_shrinks(inf, amt);
                crate::residue::lemma_split_remainder_fits(
                    inf.value as int,
                    inf.modulus as int,
                    amt,
                );
                lemma_mod_division_less_than_divisor(inf.value as int, amt);
                vstd::arithmetic::div_mod::lemma_div_pos_is_pos(inf.value as int, amt);
                lemma_div_is_ordered(inf.value as int, inf.modulus as int, amt);
            }
        },
    }
}



/// Plain integer sum of a list of contributions.
pub open spec fn spec_sum(values: Seq<int>) -> int
    decreases values.len(),
{
    if values.len() == 0 {
        0
    } else {
        spec_sum(values.drop_last()) + values.last()
    }
}

/// The modular fold of contributions equals their plain sum, reduced once.
proof fn lemma_mod_fold_is_sum(values: Seq<int>, c: int)
    requires
        1 <= c,
    ensures
        spec_mod_fold(values, c) == spec_sum(values) % c,
    decreases values.len(),
{
    if values.len() == 0 {
        vstd::arithmetic::div_mod::lemma_small_mod(0nat, c as nat);
    } else {
        let front = values.drop_last();
        lemma_mod_fold_is_sum(front, c);
        lemma_add_mod_noop_right(values.last(), spec_sum(front), c);
    }
}

/// Folding modular subtractions equals subtracting the plain sum, reduced
/// once at the end.
proof fn lemma_mod_sub_fold_is_sub(start: int, values: Seq<int>, c: int)
    requires
        1 <= c,
        1 <= values.len(),
    ensures
        spec_mod_sub_fold(start, values, c) == (start - spec_sum(values)) % c,
    decreases values.len(),
{
    let front = values.drop_last();
    let last = values.last();
    if front.len() == 0 {
        assert(spec_mod_sub_fold(start, values, c) == (start - last) % c);
    } else {
        lemma_mod_sub_fold_is_sub(start, front, c);
        let a = start - spec_sum(front);
        let q = a / c;
        lemma_fundamental_div_mod(a, c);
        assert(a % c - last == c * (-q) + (a - last)) by {
            lemma_mul_basics(c);
            lemma_mul_is_distributive_add(c, q, -q);
        }
        lemma_mod_multiples_vanish(-q, a - last, c);
    }
}

/// Sum-inversion law of the protocol: subtracting every contribution, in
/// the order it was added, from the hat sum of those same contributions
/// leaves exactly zero.  An observer that recomputes all contributions of
/// an observed hat sum therefore always finds the residue fully consumed.
pub proof fn lemma_hat_sum_self_consistent(contribs: Seq<int>, c: int)
    requires
        1 <= c,
    ensures
        spec_mod_sub_fold(spec_mod_fold(contribs, c), contribs, c) == 0,
{
    if contribs.len() == 0 {
    } else {
        lemma_mod_fold_is_sum(contribs, c);
        lemma_mod_sub_fold_is_sub(spec_sum(contribs) % c, contribs, c);
        let total = spec_sum(contribs);
        let q = total / c;
        lemma_fundamental_div_mod(total, c);
        assert(total % c - total == c * (-q)) by {
            lemma_mul_basics(c);
            lemma_mul_is_distributive_add(c, q, -q);
        }
        lemma_mod_multiples_vanish(-q, 0, c);
        vstd::arithmetic::div_mod::lemma_small_mod(0nat, c as nat);
    }
}

/// Determinism law of the hidden-action decision: the decision is a
/// function of the published state and the question schedule alone.  Two
/// snapshots that agree on board, published hand information and schedule
/// decide identically — in particular, since a silent decision leaves the
/// snapshot untouched, an immediate second decision is the same as the
/// first.  The hypotheses on each `contribs` are exactly what
/// `decide_action_not_known_to_be_possible` ensures of its decision.
pub proof fn lemma_decide_action_deterministic<P: PublicInformation>(
    pi1: P,
    pi2: P,
    view: OwnedGameView,
    c: int,
    contribs1: Seq<int>,
    contribs2: Seq<int>,
    r1: bool,
    r2: bool,
)
    requires
        pi1.board_spec() == pi2.board_spec(),
        pi1.infos_spec() == pi2.infos_spec(),
        forall|p: int, qinfo: Seq<Seq<u32>>, b: int| #[trigger] pi1.question_spec(p, qinfo, b)
            == pi2.question_spec(p, qinfo, b),
        contribs1.len() == view.others().len(),
        contribs2.len() == view.others().len(),
        forall|j: int|
            0 <= j < contribs1.len() ==> #[trigger] contribs1[j] == spec_gather_schedule(
                (|qinfo: Seq<Seq<u32>>, budget: int|
                    pi1.question_spec(view.others()[j] as int, qinfo, budget)),
                pi1.board_spec(),
                view.hand_of(view.others()[j]),
                pi1.infos_spec()[view.others()[j] as int],
                spec_identity(),
                c,
            ).0.value,
        forall|j: int|
            0 <= j < contribs2.len() ==> #[trigger] contribs2[j] == spec_gather_schedule(
                (|qinfo: Seq<Seq<u32>>, budget: int|
                    pi2.question_spec(view.others()[j] as int, qinfo, budget)),
                pi2.board_spec(),
                view.hand_of(view.others()[j]),
                pi2.infos_spec()[view.others()[j] as int],
                spec_identity(),
                c,
            ).0.value,
        r1 <==> spec_mod_fold(contribs1, c) == 0,
        r2 <==> spec_mod_fold(contribs2, c) == 0,
    ensures
        r1 == r2,
{
    assert forall|j: int| 0 <= j < contribs1.len() implies #[trigger] contribs1[j]
        == contribs2[j] by {
        let lam1 = |qinfo: Seq<Seq<u32>>, budget: int|
            pi1.question_spec(view.others()[j] as int, qinfo, budget);
        let lam2 = |qinfo: Seq<Seq<u32>>, budget: int|
            pi2.question_spec(view.others()[j] as int, qinfo, budget);
        assert forall|qinfo: Seq<Seq<u32>>, budget: int| #[trigger] lam1(qinfo, budget) == lam2(
            qinfo,
            budget,
        ) by {}
        assert(lam1 =~= lam2);
    }
    assert(contribs1 =~= contribs2);
}

/// Round-trip law of the protocol, stated over arbitrary accumulators so it
/// can follow the recursion: folding the question schedule over a hand from
/// accumulator `acc` and then splitting the resulting digits (the part of
/// the final value above `acc`) along the same schedule consumes them
/// completely and narrows the hand information to exactly the same state.
///
/// The decomposition starts from modulus `info_remaining` — exactly the
/// budget the fold announced to the schedule — and the proof shows that the
/// recomputed modulus after each split again equals the fold's remaining
/// budget, capped and uncapped cases alike, which is why the two sides stay
/// in lockstep question by question.
pub proof fn lemma_gather_scatter_inverse(
    sched: spec_fn(Seq<Seq<u32>>, int) -> Option<Question>,
    board: BoardState,
    hand: Seq<u32>,
    info: Seq<Seq<u32>>,
    acc: ModulusInformation,
    c: int,
)
    requires
        acc.wf(),
        acc.modulus <= c,
        acc.value < c,
        c <= u32::MAX,
    ensures
        ({
            let folded = spec_gather_schedule(sched, board, hand, info, acc, c);
            let remaining = acc.spec_info_remaining(c);
            let x = (folded.0.value - acc.value) / (acc.modulus as int);
            &&& acc.value <= folded.0.value < c
            &&& folded.0.value == acc.value + acc.modulus * x
            &&& 0 <= x < remaining
            &&& spec_scatter_schedule(
                sched,
                board,
                info,
                ModulusInformation { modulus: remaining as u32, value: x as u32 },
            ).0.value == 0
            &&& spec_scatter_schedule(
                sched,
                board,
                info,
                ModulusInformation { modulus: remaining as u32, value: x as u32 },
            ).1 == folded.1
        }),
    decreases c - acc.modulus,
{
    let m = acc.modulus as int;
    let v = acc.value as int;
    let remaining = acc.spec_info_remaining(c);
    lemma_fundamental_div_mod(c - v - 1, m);
    lemma_mod_division_less_than_divisor(c - v - 1, m);
    match sched(info, remaining) {
        Option::None => {
            assert(spec_gather_schedule(sched, board, hand, info, acc, c) == (acc, info));
            lemma_div_basics(m);
            let inf = ModulusInformation { modulus: remaining as u32, value: 0u32 };
            assert(spec_scatter_schedule(sched, board, info, inf) == (inf, info));
        },
        Option::Some(q) => {
            let amt = q.spec_info_amount();
            if q.wf(board) && 2 <= amt <= remaining {
                let a = q.spec_answer(hand, board);
                lemma_answer_in_range(q, hand, board);
                let step = ModulusInformation { modulus: amt as u32, value: a as u32 };
                lemma_modulus_grows(acc, step, c);
                crate::residue::lemma_combine_value_bound(acc, step, c);
                let m2 = acc.spec_combined_modulus(step, c);
                let v2 = v + m * a;
                let acc2 = ModulusInformation { modulus: m2 as u32, value: v2 as u32 };
                let info2 = q.spec_acknowledge(a, info);
                assert(spec_gather_schedule(sched, board, hand, info, acc, c)
                    == spec_gather_schedule(sched, board, hand, info2, acc2, c));
                lemma_gather_scatter_inverse(sched, board, hand, info2, acc2, c);
                let folded = spec_gather_schedule(sched, board, hand, info2, acc2, c);
                let vf = folded.0.value as int;
                let r2 = acc2.spec_info_remaining(c);
                let x2 = (vf - v2) / m2;
                // the final value decomposes over the current answer digit
                if m * amt <= c {
                    assert(m2 == m * amt);
                    assert(vf == v + m * a + (m * amt) * x2);
                    assert((m * amt) * x2 == m * (amt * x2)) by {
                        lemma_mul_is_associative(m, amt, x2);
                    }
                    assert(m * a + m * (amt * x2) == m * (a + amt * x2)) by {
                        lemma_mul_is_distributive_add(m, a, amt * x2);
                    }
                    assert(vf == v + m * (a + amt * x2));
                } else {
                    assert(m2 == c);
                    assert(r2 == 1) by {
                        lemma_basic_div(c - v2 - 1, c);
                    }
                    assert(x2 == 0);
                    assert(vf == v2);
                    assert(amt * x2 == 0) by {
                        lemma_mul_is_commutative(amt, 0);
                    }
                    assert(vf == v + m * (a + amt * x2));
                }
                let x = a + amt * x2;
                lemma_mul_nonnegative(amt, x2);
                assert(x >= 0);
                assert((vf - v) == x * m) by {
                    lemma_mul_is_commutative(m, x);
                }
                lemma_fundamental_div_mod_converse_div(vf - v, m, x, 0);
                assert(x == (vf - v) / m);
                // x stays within the announced budget
                assert(x <= remaining - 1) by {
                    assert(m * x <= c - v - 1);
                    lemma_div_is_ordered(m * x, c - v - 1, m);
                    lemma_div_multiples_vanish(x, m);
                }
                // the split recovers the answer digit and the remainder
                assert(x == x2 * amt + a) by {
                    lemma_mul_is_commutative(amt, x2);
                }
                lemma_fundamental_div_mod_converse_mod(x, amt, x2, a);
                lemma_fundamental_div_mod_converse_div(x, amt, x2, a);
                assert(x % amt == a && x / amt == x2);
                // the recomputed modulus equals the fold's remaining budget
                assert(remaining - a - 1 == (c - v2 - 1) / m) by {
                    lemma_hoist_over_denominator(c - v - 1, -a, m as nat);
                    assert((-a) * m == -(m * a)) by {
                        lemma_mul_is_commutative(-a, m);
                        lemma_mul_basics(m);
                        lemma_mul_is_distributive_add(m, a, -a);
                    }
                }
                assert(((c - v2 - 1) / m) / amt == (c - v2 - 1) / (m * amt)) by {
                    lemma_div_denominator(c - v2 - 1, m, amt);
                }
                if m * amt <= c {
                    assert((remaining - a - 1) / amt + 1 == r2);
                } else {
                    assert((c - v2 - 1) / (m * amt) == 0) by {
                        lemma_basic_div(c - v2 - 1, m * amt);
                    }
                    assert((remaining - a - 1) / amt + 1 == 1);
                    assert((remaining - a - 1) / amt + 1 == r2);
                }
                // the two sides take the same step and the recursion closes it
                let inf = ModulusInformation { modulus: remaining as u32, value: x as u32 };
                let inf2 = ModulusInformation { modulus: r2 as u32, value: x2 as u32 };
                assert(spec_scatter_schedule(sched, board, info, inf)
                    == spec_scatter_schedule(sched, board, info2, inf2));
            } else {
                assert(spec_gather_schedule(sched, board, hand, info, acc, c) == (acc, info));
                lemma_div_basics(m);
                let inf = ModulusInformation { modulus: remaining as u32, value: 0u32 };
                assert(spec_scatter_schedule(sched, board, info, inf) == (inf, info));
            }
        },
    }
}

/// Protocol round-trip law: the residue produced by folding the question
/// schedule over a hand, widened to the full ceiling, is consumed completely
/// by the inverse decomposition along the same schedule, which narrows the
/// hand information to exactly the same state.  This is the invertibility
/// `get_hat_info_for_player` and `update_from_hat_info_for_player` rely on.
pub proof fn lemma_hat_round_trip(
    sched: spec_fn(Seq<Seq<u32>>, int) -> Option<Question>,
    board: BoardState,
    hand: Seq<u32>,
    info: Seq<Seq<u32>>,
    c: int,
)
    requires
        1 <= c <= u32::MAX,
    ensures
        ({
            let folded = spec_gather_schedule(sched, board, hand, info, spec_identity(), c);
            let widened = ModulusInformation { modulus: c as u32, value: folded.0.value };
            &&& folded.0.value < c
            &&& spec_scatter_schedule(sched, board, info, widened).0.value == 0
            &&& spec_scatter_schedule(sched, board, info, widened).1 == folded.1
        }),
{
    lemma_gather_scatter_inverse(sched, board, hand, info, spec_identity(), c);
    lemma_div_basics(c - 1);
    let folded = spec_gather_schedule(sched, board, hand, info, spec_identity(), c);
    lemma_div_basics(folded.0.value as int);
    assert(spec_identity().spec_info_remaining(c) == c);
}

/// Combining a question's answer (at least two states) strictly grows the
/// accumulated modulus, which bounds the question loop.
proof fn lemma_modulus_grows(a: ModulusInformation, b: ModulusInformation, c: int)
    requires
        a.wf(),
        b.wf(),
        a.value < c,
        a.modulus <= c,
        2 <= b.modulus <= a.spec_info_remaining(c),
    ensures
        a.modulus < a.spec_combined_modulus(b, c),
        a.spec_combined_modulus(b, c) <= c,
{
    let m = a.modulus as int;
    if m == c {
        lemma_basic_div(c - a.value - 1, m);
        assert(a.spec_info_remaining(c) == 1);
        assert(false);
    }
    assert(m * 2 <= m * b.modulus) by {
        lemma_mul_left_inequality(m, 2, b.modulus as int);
    }
}

/// Splitting off a question's answer (at least two states) strictly shrinks
/// the residue's modulus, which bounds the decomposition loop.
proof fn lemma_split_shrinks(a: ModulusInformation, s: int)
    requires
        a.wf(),
        2 <= s <= a.modulus,
    ensures
        (a.modulus - (a.value as int % s) - 1) / s + 1 < a.modulus,
{
    let big = a.modulus as int;
    let r = a.value as int % s;
    vstd::arithmetic::div_mod::lemma_mod_division_less_than_divisor(a.value as int, s);
    lemma_div_is_ordered(big - r - 1, big - 1, s);
    assert((big - 1) / s <= (big - 1) / 2) by {
        vstd::arithmetic::div_mod::lemma_div_is_ordered_by_denominator(big - 1, 2, s);
    }
    assert((big - 1) / 2 < big - 1 || big - 1 <= 1) by {
        if big - 1 > 1 {
            vstd::arithmetic::div_mod::lemma_div_is_strictly_smaller(big - 1, 2);
        }
    }
    if big - 1 <= 1 {
        lemma_basic_div(big - r - 1, s);
    }
}

} // verus!
