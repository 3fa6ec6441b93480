use hat_protocol::basic::BasicPublicInfo;
use hat_protocol::model::{BoardState, HandInfo, OwnedGameView};
use hat_protocol::protocol::{HatError, PublicInformation};
use hat_protocol::question::Question;
use hat_protocol::residue::ModulusInformation;

fn board(num_players: u32, hand_size: u32, num_card_kinds: u32, acting: u32) -> BoardState {
    BoardState { num_players, hand_size, num_card_kinds, player: acting }
}

fn view(player: u32, other_hands: Vec<(u32, Vec<u32>)>, board: BoardState) -> OwnedGameView {
    OwnedGameView { player, other_hands, board }
}

#[test]
fn test_question_card_modulo() {
    let b = board(2, 1, 6, 0);
    let q = Question::CardModulo { slot: 0, base: 3 };
    assert_eq!(q.info_amount(), 3);
    let hand: Vec<u32> = vec![5];
    let info = q.answer_info(&hand, &b);
    assert_eq!(info.modulus, 3);
    assert_eq!(info.value, 2);
    let mut hi = HandInfo::uniform(&b, 1);
    q.acknowledge_answer_info(info, &mut hi, &b);
    // kinds congruent to 2 mod 3 stay possible: 2 and 5
    assert_eq!(hi.slots[0].weights, vec![0, 0, 1, 0, 0, 1]);
}

#[test]
fn test_question_card_at_least() {
    let b = board(2, 2, 4, 0);
    let q = Question::CardAtLeast { slot: 1, threshold: 2 };
    assert_eq!(q.info_amount(), 2);
    let hand: Vec<u32> = vec![0, 3];
    assert_eq!(q.answer(&hand, &b), 1);
    let mut hi = HandInfo::uniform(&b, 1);
    q.acknowledge_answer(1, &mut hi, &b);
    // slot 0 untouched, slot 1 narrowed to kinds >= 2
    assert_eq!(hi.slots[0].weights, vec![1, 1, 1, 1]);
    assert_eq!(hi.slots[1].weights, vec![0, 0, 1, 1]);
}

#[test]
fn test_hat_sum_ceiling_one_is_identity() {
    let b = board(2, 2, 4, 0);
    let v0 = view(0, vec![(1, vec![2, 3])], b);
    let mut pi: BasicPublicInfo = PublicInformation::new(&b);
    let untouched = pi.clone_state();
    let sum = pi.get_hat_sum(1, &v0);
    assert_eq!(sum.modulus, 1);
    assert_eq!(sum.value, 0);
    assert!(pi.agrees_with(untouched));
}

#[test]
fn test_update_from_hat_sum_ceiling_one_is_noop() {
    let b = board(2, 2, 4, 0);
    let v1 = view(1, vec![(0, vec![0, 1])], b);
    let mut pi: BasicPublicInfo = PublicInformation::new(&b);
    let untouched = pi.clone_state();
    let r = pi.update_from_hat_sum(ModulusInformation::new(1, 0), &v1);
    assert!(r.is_ok());
    assert!(pi.agrees_with(untouched));
}

#[test]
fn test_hat_sum_exact_value() {
    let b = board(2, 2, 4, 0);
    let v0 = view(0, vec![(1, vec![2, 3])], b);
    let mut pi: BasicPublicInfo = PublicInformation::new(&b);
    let sum = pi.get_hat_sum(6, &v0);
    assert_eq!(sum.modulus, 6);
    // one question fits the budget: the card in the first unresolved slot
    // modulo min(6, 4) = 4, and hand1[0] == 2
    assert_eq!(sum.value, 2);
}

#[test]
fn test_end_to_end_convergence() {
    let b = board(2, 2, 4, 0);
    let hand1: Vec<u32> = vec![2, 3];
    let v0 = view(0, vec![(1, hand1)], b);
    let v1 = view(1, vec![(0, vec![0, 1])], b);

    // the acting agent computes the hat sum, updating its own snapshot
    let mut pi_actor: BasicPublicInfo = PublicInformation::new(&b);
    let sum = pi_actor.get_hat_sum(6, &v0);

    // the same residue computed directly for player 1
    let pi_direct: BasicPublicInfo = PublicInformation::new(&b);
    let mut expected_info = pi_direct.get_player_info(1);
    let direct = pi_direct.get_hat_info_for_player(1, &mut expected_info, 6, &v0);
    assert_eq!(direct.modulus, sum.modulus);
    assert_eq!(direct.value, sum.value);

    // an observer reconstructs the same belief about player 1's hand from
    // nothing but the communicated residue
    let mut pi_observer: BasicPublicInfo = PublicInformation::new(&b);
    let r = pi_observer.update_from_hat_sum(sum, &v1);
    assert!(r.is_ok());
    assert_eq!(pi_observer.get_player_info(1), expected_info);

    // and the actor's own snapshot reflects the same common knowledge
    assert_eq!(pi_actor.get_player_info(1), expected_info);
}

#[test]
fn test_update_from_hat_sum_detects_mismatch() {
    let b = board(2, 2, 4, 0);
    let v0 = view(0, vec![(1, vec![2, 3])], b);
    let mut probe: BasicPublicInfo = PublicInformation::new(&b);
    let sum = probe.get_hat_sum(6, &v0);

    // the actor re-derives the sum; a wrong residue leaves a non-zero
    // leftover and must abort without touching the snapshot
    let mut pi: BasicPublicInfo = PublicInformation::new(&b);
    let untouched = pi.clone_state();
    let wrong = ModulusInformation::new(6, (sum.value + 1) % 6);
    let r = pi.update_from_hat_sum(wrong, &v0);
    assert_eq!(r, Err(HatError::ResidueMismatch));
    assert!(pi.agrees_with(untouched));

    // the correct residue is accepted
    let mut pi_ok: BasicPublicInfo = PublicInformation::new(&b);
    let r_ok = pi_ok.update_from_hat_sum(sum, &v0);
    assert!(r_ok.is_ok());
}

#[test]
fn test_decide_action_idempotent_when_silent() {
    let b = board(2, 2, 4, 0);
    // hand1[0] % 4 == 2, so the hat sum over 4 states is non-zero
    let v0 = view(0, vec![(1, vec![2, 3])], b);
    let mut pi: BasicPublicInfo = PublicInformation::new(&b);
    let untouched = pi.clone_state();
    let first = pi.decide_action_not_known_to_be_possible(4, &v0);
    let second = pi.decide_action_not_known_to_be_possible(4, &v0);
    assert!(!first);
    assert!(!second);
    assert!(pi.agrees_with(untouched));
}

#[test]
fn test_decide_action_commits_on_zero_sum() {
    let b = board(2, 2, 4, 0);
    // hand1[0] % 4 == 0, so the hat sum over 4 states is zero
    let v0 = view(0, vec![(1, vec![0, 1])], b);
    let mut pi: BasicPublicInfo = PublicInformation::new(&b);
    let untouched = pi.clone_state();
    let committed = pi.decide_action_not_known_to_be_possible(4, &v0);
    assert!(committed);
    assert!(!pi.agrees_with(untouched));
}

#[test]
fn test_update_from_action_matches_zero_hat_sum() {
    let b = board(2, 2, 4, 0);
    let v1 = view(1, vec![(0, vec![0, 1])], b);
    let mut by_action: BasicPublicInfo = PublicInformation::new(&b);
    let r = by_action.update_from_action_not_known_to_be_possible(4, &v1);
    assert!(r.is_ok());
    let mut by_sum: BasicPublicInfo = PublicInformation::new(&b);
    let r_sum = by_sum.update_from_hat_sum(ModulusInformation::new(4, 0), &v1);
    assert!(r_sum.is_ok());
    assert!(by_action.agrees_with(by_sum));
}

#[test]
fn test_get_private_info_subtracts_seen_cards() {
    let b = board(3, 1, 3, 0);
    let v0 = view(0, vec![(1, vec![2]), (2, vec![2])], b);
    let pi: BasicPublicInfo = PublicInformation::new(&b);
    let private = pi.get_private_info(&v0);
    // kind 2 is visible twice; its single public copy is exhausted
    assert_eq!(private.slots[0].weights, vec![1, 1, 0]);
}

#[test]
fn test_get_hat_info_updates_hand_info_in_place() {
    let b = board(2, 2, 4, 0);
    let v0 = view(0, vec![(1, vec![2, 3])], b);
    let pi: BasicPublicInfo = PublicInformation::new(&b);
    let mut hi = pi.get_player_info(1);
    let info = pi.get_hat_info_for_player(1, &mut hi, 6, &v0);
    assert_eq!(info.modulus, 6);
    assert_eq!(info.value, 2);
    // the probed slot was narrowed to kinds congruent to 2 mod 4
    assert_eq!(hi.slots[0].weights, vec![0, 0, 1, 0]);
    assert_eq!(hi.slots[1].weights, vec![1, 1, 1, 1]);
}

#[test]
fn test_update_from_hat_info_consumes_residue() {
    let b = board(2, 2, 4, 0);
    let pi: BasicPublicInfo = PublicInformation::new(&b);
    let mut hi = pi.get_player_info(1);
    let r = pi.update_from_hat_info_for_player(1, &mut hi, &b, ModulusInformation::new(6, 2));
    assert!(r.is_ok());
    assert_eq!(hi.slots[0].weights, vec![0, 0, 1, 0]);
}

#[test]
fn test_update_from_hat_info_rejects_leftover() {
    // with a single slot the schedule ends after one question, so a residue
    // holding more information than the hand can answer is rejected
    let b = board(2, 1, 4, 0);
    let pi: BasicPublicInfo = PublicInformation::new(&b);
    let mut hi = pi.get_player_info(1);
    let r = pi.update_from_hat_info_for_player(1, &mut hi, &b, ModulusInformation::new(6, 5));
    assert_eq!(r, Err(HatError::ResidueMismatch));
}

#[test]
fn test_view_accessors() {
    let b = board(3, 1, 3, 1);
    let v = view(0, vec![(1, vec![2]), (2, vec![0])], b);
    assert_eq!(v.get_other_players(), vec![1, 2]);
    assert_eq!(v.get_hand(2), &vec![0]);
    assert_eq!(v.get_board(), &b);
}

#[test]
fn test_set_board_keeps_infos() {
    let b = board(2, 2, 4, 0);
    let mut pi: BasicPublicInfo = PublicInformation::new(&b);
    let before = pi.get_player_info(1);
    let b2 = board(2, 2, 4, 1);
    pi.set_board(&b2);
    assert_eq!(pi.board, b2);
    assert_eq!(pi.get_player_info(1), before);
}
