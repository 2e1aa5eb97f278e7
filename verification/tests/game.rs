use postflop_solver::game::base::{
    chance_cards, chance_factor, check_board, count_num_nodes, check_tournament_icm_seats, memory_usage,
    next_icm_contribution_state, terminal_stack_changes, BoardError, ContributionError, IcmSeatError, StorageCounts,
};
use postflop_solver::{Action, BoardState, NOT_DEALT};

#[test]
fn check_fold_and_chance_keep_the_state() {
    for action in [Action::Check, Action::Fold, Action::Chance(7), Action::NoAction] {
        assert_eq!(next_icm_contribution_state(0, action, [970, 940], 30), Ok(([970, 940], 30)));
    }
}

#[test]
fn bet_takes_the_bet_from_the_bettor() {
    // OOP bets 30 into an unopened street with 970 behind for both.
    assert_eq!(
        next_icm_contribution_state(0, Action::Bet(30), [970, 970], 0),
        Ok(([940, 970], 30))
    );
}

#[test]
fn raise_adds_the_amount_to_call() {
    // IP raises to 90 over OOP's bet of 30: IP puts in 90 (60 over the bet plus 30 to call).
    assert_eq!(
        next_icm_contribution_state(1, Action::Raise(90), [940, 970], 30),
        Ok(([940, 880], 90))
    );
}

#[test]
fn call_matches_the_opponent() {
    assert_eq!(
        next_icm_contribution_state(0, Action::Call, [940, 880], 90),
        Ok(([880, 880], 0))
    );
}

#[test]
fn all_in_leaves_nothing_behind() {
    assert_eq!(
        next_icm_contribution_state(1, Action::AllIn(970), [970, 970], 0),
        Ok(([970, 0], 970))
    );
}

#[test]
fn contribution_errors() {
    assert_eq!(
        next_icm_contribution_state(2, Action::Call, [10, 10], 0),
        Err(ContributionError::InvalidCallPlayer)
    );
    assert_eq!(
        next_icm_contribution_state(3, Action::Bet(5), [10, 10], 0),
        Err(ContributionError::InvalidBetPlayer)
    );
    assert_eq!(
        next_icm_contribution_state(0, Action::Raise(10), [100, 100], 40),
        Err(ContributionError::NegativeDelta(Action::Raise(10)))
    );
    assert_eq!(
        next_icm_contribution_state(1, Action::Bet(200), [100, 100], 0),
        Err(ContributionError::ExceedsStack(1, Action::Bet(200)))
    );
}

#[test]
fn bet_then_call_costs_both_players_the_same() {
    let (after_bet, last_bet) =
        next_icm_contribution_state(0, Action::Bet(45), [970, 970], 0).unwrap();
    let (after_call, last) =
        next_icm_contribution_state(1, Action::Call, after_bet, last_bet).unwrap();
    assert_eq!(after_call, [925, 925]);
    assert_eq!(last, 0);
}

// Cards are numbered rank * 4 + suit with suits c, d, h, s: Td = 33, 9d = 29, 6h = 18.
const TD9D6H: [u8; 3] = [33, 29, 18];

#[test]
fn valid_boards_are_accepted() {
    assert_eq!(check_board(TD9D6H, NOT_DEALT, NOT_DEALT, BoardState::Flop), Ok(()));
    assert_eq!(check_board(TD9D6H, 40, NOT_DEALT, BoardState::Turn), Ok(()));
    assert_eq!(check_board(TD9D6H, 40, 0, BoardState::River), Ok(()));
}

#[test]
fn board_errors() {
    assert_eq!(
        check_board([33, NOT_DEALT, 18], NOT_DEALT, NOT_DEALT, BoardState::Flop),
        Err(BoardError::FlopNotInitialized)
    );
    assert_eq!(
        check_board([33, 52, 18], NOT_DEALT, NOT_DEALT, BoardState::Flop),
        Err(BoardError::FlopOutOfRange)
    );
    assert_eq!(
        check_board([33, 33, 18], NOT_DEALT, NOT_DEALT, BoardState::Flop),
        Err(BoardError::FlopNotUnique)
    );
    assert_eq!(
        check_board(TD9D6H, 60, NOT_DEALT, BoardState::Turn),
        Err(BoardError::TurnOutOfRange)
    );
    assert_eq!(
        check_board(TD9D6H, 29, NOT_DEALT, BoardState::Turn),
        Err(BoardError::TurnOnFlop)
    );
    assert_eq!(check_board(TD9D6H, 40, 52, BoardState::River), Err(BoardError::RiverOutOfRange));
    assert_eq!(check_board(TD9D6H, 40, 18, BoardState::River), Err(BoardError::RiverOnFlop));
    assert_eq!(check_board(TD9D6H, 40, 40, BoardState::River), Err(BoardError::RiverIsTurn));
    assert_eq!(
        check_board(TD9D6H, NOT_DEALT, 40, BoardState::River),
        Err(BoardError::RiverWithoutTurn)
    );
    assert_eq!(
        check_board(TD9D6H, 40, NOT_DEALT, BoardState::Flop),
        Err(BoardError::InvalidInitialState {
            expected: BoardState::Turn,
            actual: BoardState::Flop
        })
    );
}

#[test]
fn chance_factor_counts_undealt_cards() {
    assert_eq!(chance_factor(NOT_DEALT, 0), 45);
    assert_eq!(chance_factor(40, 0), 44);
    assert_eq!(chance_factor(NOT_DEALT, 4), 41);
    assert_eq!(chance_factor(40, 6), 38);
}

#[test]
fn tournament_icm_seats() {
    assert_eq!(check_tournament_icm_seats(3, 0, 1), Ok(()));
    assert_eq!(check_tournament_icm_seats(0, 0, 1), Err(IcmSeatError::StacksEmpty));
    assert_eq!(check_tournament_icm_seats(2, 0, 2), Err(IcmSeatError::SeatOutOfRange));
    assert_eq!(check_tournament_icm_seats(2, 5, 1), Err(IcmSeatError::SeatOutOfRange));
    assert_eq!(check_tournament_icm_seats(2, 1, 1), Err(IcmSeatError::SameSeat));
}

#[test]
fn memory_usage_counts_four_and_two_bytes_per_element() {
    let counts = StorageCounts { num_storage: 100, num_storage_ip: 10, num_storage_chance: 5 };
    // 2 * 100 + 10 + 5 = 215 elements.
    assert_eq!(memory_usage(counts, 1000), (4 * 215 + 1000, 2 * 215 + 1000));
    let empty = StorageCounts { num_storage: 0, num_storage_ip: 0, num_storage_chance: 0 };
    assert_eq!(memory_usage(empty, 64), (64, 64));
}

#[test]
fn terminal_stack_changes_per_outcome() {
    // Pot 60 + 50 + 30 = 140; full investments 50 and 30.
    assert_eq!(terminal_stack_changes(60, [50, 30], [0, 0], Some(0)), [2 * 90, -2 * 30]);
    assert_eq!(terminal_stack_changes(60, [50, 30], [0, 0], Some(1)), [-2 * 50, 2 * 110]);
    assert_eq!(terminal_stack_changes(60, [50, 30], [0, 0], None), [140 - 100, 140 - 60]);
    // A base contribution is deducted from the stacks but not added to the pot.
    assert_eq!(terminal_stack_changes(60, [50, 30], [10, 20], Some(0)), [2 * 80, -2 * 50]);
}

#[test]
fn reroot_stack_changes_match_full_hand() {
    let (parent_pot, p, rc0, rc1) = (40, 25, 60, 80);
    for winner in [Some(0usize), Some(1usize), None] {
        let full = terminal_stack_changes(parent_pot, [p + rc0, p + rc1], [0, 0], winner);
        let reroot = terminal_stack_changes(parent_pot + 2 * p, [rc0, rc1], [p, p], winner);
        assert_eq!(full, reroot, "winner {winner:?}");
        let buggy = terminal_stack_changes(parent_pot + 2 * p, [rc0, rc1], [0, 0], winner);
        assert_eq!(
            [buggy[0] - full[0], buggy[1] - full[1]],
            [2 * p as i64, 2 * p as i64],
            "winner {winner:?}"
        );
    }
}

#[test]
fn chance_cards_deal_the_turn() {
    let cards = chance_cards(TD9D6H, NOT_DEALT, &vec![]);
    assert_eq!(cards.len(), 49);
    assert!(!cards.contains(&33) && !cards.contains(&29) && !cards.contains(&18));
    assert!(cards.windows(2).all(|w| w[0] < w[1]));
}

#[test]
fn chance_cards_deal_the_river_skipping_isomorphic_cards() {
    let cards = chance_cards(TD9D6H, 40, &vec![0, 3]);
    assert_eq!(cards.len(), 46);
    assert!(!cards.contains(&40) && !cards.contains(&0) && !cards.contains(&3));
    assert_eq!(cards[0], 1);
}

#[test]
fn error_messages() {
    assert_eq!(BoardError::FlopNotUnique.message(), "Flop cards must be unique");
    assert_eq!(
        ContributionError::InvalidCallPlayer.message(),
        "Tournament ICM call action has invalid player"
    );
    assert_eq!(IcmSeatError::SameSeat.message(), "Tournament ICM OOP/IP seats must be different");
}

#[test]
fn node_counts_on_a_flop_board() {
    let no_iso = [vec![], vec![], vec![], vec![]];
    // 49 turn cards, each followed by 48 river cards.
    assert_eq!(
        count_num_nodes([10, 20, 30], [0, 1, 2], NOT_DEALT, NOT_DEALT, &vec![], &no_iso),
        [10, 20 * 49, 30 * 49 * 48]
    );
    // One isomorphic turn card drops that turn and its rivers.
    assert_eq!(
        count_num_nodes([10, 20, 30], [0, 1, 2], NOT_DEALT, NOT_DEALT, &vec![5], &no_iso),
        [10, 20 * 48, 30 * 48 * 48]
    );
    // An isomorphic river card of the club suit (cards 4k) is dropped after each club turn:
    // the turns 4, 8, ..., 48 (12 of them, card 0 being on the flop).
    let club_iso = [vec![9], vec![], vec![], vec![]];
    assert_eq!(
        count_num_nodes([1, 1, 1], [0, 1, 2], NOT_DEALT, NOT_DEALT, &vec![], &club_iso),
        [1, 49, 49 * 48 - 12]
    );
}

#[test]
fn node_counts_on_turn_and_river_boards() {
    let iso = [vec![], vec![], vec![], vec![7]];
    // Turn card 3 is of the fourth suit: 48 rivers less its one isomorphic river card.
    assert_eq!(count_num_nodes([10, 20, 30], [0, 1, 2], 3, NOT_DEALT, &vec![], &iso), [10, 20, 30 * 47]);
    assert_eq!(count_num_nodes([10, 20, 30], [0, 1, 2], 3, 4, &vec![], &iso), [10, 0, 30]);
}
