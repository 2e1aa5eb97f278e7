//! Chip accounting along a line of actions, validation of the board and of a tournament ICM
//! seat assignment, and the storage bookkeeping of a game tree.
use vstd::prelude::*;

use crate::game::bunching::contains_card;
use crate::action_tree::{Action, BoardState, Card, NOT_DEALT};

verus! {

/// Why the chip accounting of a line of actions failed.
#[derive(Clone, Copy, Debug, PartialEq, Eq, Structural)]
pub enum ContributionError {
    /// A call was made by a player other than 0 (OOP) or 1 (IP).
    InvalidCallPlayer,
    /// A bet, raise or all-in was made by a player other than 0 (OOP) or 1 (IP).
    InvalidBetPlayer,
    /// A bet, raise or all-in would take chips back from the bettor.
    NegativeDelta(Action),
    /// A bet, raise or all-in needs more chips than the bettor has left.
    ExceedsStack(usize, Action),
}

impl ContributionError {
    /// The error message; the player and the action of the failing step are carried by the
    /// variant.
    pub fn message(self) -> (r: &'static str)
        ensures
            r@ == (match self {
                ContributionError::InvalidCallPlayer => "Tournament ICM call action has invalid player"@,
                ContributionError::InvalidBetPlayer => "Tournament ICM bet action has invalid player"@,
                ContributionError::NegativeDelta(_) => "Tournament ICM contribution delta is negative"@,
                ContributionError::ExceedsStack(_, _) => "Tournament ICM contribution exceeds effective stack"@,
            }),
    {
        match self {
            ContributionError::InvalidCallPlayer => "Tournament ICM call action has invalid player",
            ContributionError::InvalidBetPlayer => "Tournament ICM bet action has invalid player",
            ContributionError::NegativeDelta(_) => "Tournament ICM contribution delta is negative",
            ContributionError::ExceedsStack(_, _) => "Tournament ICM contribution exceeds effective stack",
        }
    }
}

/// The amount of a bet, raise or all-in; `None` for other actions.
pub open spec fn bet_amount(action: Action) -> Option<i32> {
    match action {
        Action::Bet(a) => Some(a),
        Action::Raise(a) => Some(a),
        Action::AllIn(a) => Some(a),
        _ => None,
    }
}

/// The opponent of player 0 or 1.
pub open spec fn opponent(player: usize) -> usize {
    if player == 0 {
        1
    } else {
        0
    }
}

/// The chips the bettor adds with a bet, raise or all-in to `amount` when the street's last
/// bet was `prev_amount`: the raise over the last bet plus what it takes to call.
pub open spec fn bet_delta(player: usize, amount: i32, remaining: [i32; 2], prev_amount: i32) -> int {
    amount - prev_amount + (remaining[player as int] - remaining[opponent(player) as int])
}

/// The arithmetic of a bet-like action stays within `i32`: the amount to call, the raise over
/// the last bet, the chips added, and (when chips are added) the bettor's chips left.
pub open spec fn step_fits(player: usize, action: Action, remaining: [i32; 2], prev_amount: i32) -> bool {
    match bet_amount(action) {
        Some(amount) => player < 2 ==> {
            let to_call = remaining[player as int] - remaining[opponent(player) as int];
            &&& i32::MIN <= to_call <= i32::MAX
            &&& i32::MIN <= amount - prev_amount <= i32::MAX
            &&& i32::MIN <= bet_delta(player, amount, remaining, prev_amount) <= i32::MAX
            &&& bet_delta(player, amount, remaining, prev_amount) >= 0 ==> i32::MIN <= remaining[player as int]
                - bet_delta(player, amount, remaining, prev_amount) <= i32::MAX
        },
        None => true,
    }
}

/// `remaining` with the entry of `player` replaced by `value`.
pub open spec fn with_remaining(remaining: [i32; 2], player: usize, value: i32) -> [i32; 2] {
    if player == 0 {
        [value, remaining[1]]
    } else {
        [remaining[0], value]
    }
}

/// The chips each player has left behind and the street's last bet after `player` takes
/// `action`, starting from `remaining` chips behind and a last bet of `prev_amount`.
pub open spec fn contribution_step(
    player: usize,
    action: Action,
    remaining: [i32; 2],
    prev_amount: i32,
) -> Result<([i32; 2], i32), ContributionError> {
    match action {
        Action::Call => {
            if player >= 2 {
                Err(ContributionError::InvalidCallPlayer)
            } else {
                Ok((with_remaining(remaining, player, remaining[opponent(player) as int]), 0i32))
            }
        },
        Action::Bet(amount) | Action::Raise(amount) | Action::AllIn(amount) => {
            if player >= 2 {
                Err(ContributionError::InvalidBetPlayer)
            } else {
                let delta = bet_delta(player, amount, remaining, prev_amount);
                let left = remaining[player as int] - delta;
                if delta < 0 {
                    Err(ContributionError::NegativeDelta(action))
                } else if left < 0 {
                    Err(ContributionError::ExceedsStack(player, action))
                } else {
                    Ok((with_remaining(remaining, player, left as i32), amount))
                }
            }
        },
        _ => Ok((remaining, prev_amount)),
    }
}

} // verus!

verus! {

/// Takes `action` by `player` (0 = OOP, 1 = IP) in the chip accounting of a line: `remaining`
/// holds the chips each player has left behind and `prev_amount` the street's last bet.
///
/// A call matches the opponent and resets the street's last bet; a bet, raise or all-in to
/// `amount` moves the raise over the last bet plus the amount to call from the bettor's stack
/// and makes `amount` the last bet; checks, folds and dealt cards change nothing.
pub fn next_icm_contribution_state(
    player: usize,
    action: Action,
    remaining: [i32; 2],
    prev_amount: i32,
) -> (r: Result<([i32; 2], i32), ContributionError>)
    requires
        step_fits(player, action, remaining, prev_amount),
    ensures
        r == contribution_step(player, action, remaining, prev_amount),
{
    let ghost start = remaining;
    let mut remaining = remaining;
    let mut prev_amount = prev_amount;
    match action {
        Action::Check | Action::Chance(_) | Action::Fold | Action::NoAction => {},
        Action::Call => {
            if player >= 2 {
                return Err(ContributionError::InvalidCallPlayer);
            }
            let other = player ^ 1;
            assert(other == opponent(player)) by (bit_vector)
                requires
                    player < 2,
                    other == player ^ 1,
            ;
            remaining[player] = remaining[other];
            prev_amount = 0;
            assert(remaining =~= with_remaining(start, player, start[other as int]));
        },
        Action::Bet(amount) | Action::Raise(amount) | Action::AllIn(amount) => {
            if player >= 2 {
                return Err(ContributionError::InvalidBetPlayer);
            }
            let other = player ^ 1;
            assert(other == opponent(player)) by (bit_vector)
                requires
                    player < 2,
                    other == player ^ 1,
            ;
            let to_call = remaining[player] - remaining[other];
            let delta = amount - prev_amount + to_call;
            if delta < 0 {
                return Err(ContributionError::NegativeDelta(action));
            }
            remaining[player] = remaining[player] - delta;
            if remaining[player] < 0 {
                return Err(ContributionError::ExceedsStack(player, action));
            }
            prev_amount = amount;
            assert(remaining =~= with_remaining(start, player, remaining[player as int]));
        },
    }
    Ok((remaining, prev_amount))
}

} // verus!

verus! {

/// A call leaves both players with the same chips behind and resets the street's last bet: the
/// caller is left with what the opponent has behind, and the opponent keeps it.
pub proof fn law_call_matches(player: usize, remaining: [i32; 2], prev_amount: i32)
    requires
        player < 2,
    ensures
        contribution_step(player, Action::Call, remaining, prev_amount) matches Ok((r, p)) && r[0]
            == r[1] && p == 0,
        contribution_step(player, Action::Call, remaining, prev_amount) matches Ok((r, p))
            && r[player as int] == remaining[1 - player] && r[1 - player] == remaining[1 - player],
{
}

/// Only player 0 or 1 calls, bets, raises or goes all-in: any other player is refused.
pub proof fn law_only_the_two_players_act(player: usize, action: Action, remaining: [i32; 2], prev_amount: i32)
    requires
        player >= 2,
    ensures
        action == Action::Call ==> contribution_step(player, action, remaining, prev_amount)
            == Err::<([i32; 2], i32), ContributionError>(ContributionError::InvalidCallPlayer),
        bet_amount(action) is Some ==> contribution_step(player, action, remaining, prev_amount)
            == Err::<([i32; 2], i32), ContributionError>(ContributionError::InvalidBetPlayer),
{
}

/// A bet, raise or all-in that succeeds takes chips only from the bettor, never more than the
/// bettor has, and leaves the bettor having put in `amount - prev_amount` chips more than the
/// opponent.
pub proof fn law_bet_moves_bettor_chips(
    player: usize,
    action: Action,
    remaining: [i32; 2],
    prev_amount: i32,
)
    requires
        player < 2,
        bet_amount(action) is Some,
    ensures
        contribution_step(player, action, remaining, prev_amount) matches Ok((r, p)) ==> {
            &&& 0 <= r[player as int] <= remaining[player as int]
            &&& r[opponent(player) as int] == remaining[opponent(player) as int]
            &&& remaining[opponent(player) as int] - r[player as int] == p - prev_amount
            &&& p == bet_amount(action)->0
        },
{
}

/// A bet, raise or all-in by player 0 or 1 adds the raise over the street's last bet plus what
/// it takes to call. It succeeds exactly when that is at least zero and at most the bettor's
/// chips behind (an all-in for everything the bettor has included), leaving the bettor that
/// many chips fewer, the opponent untouched and the amount as the street's last bet; it fails
/// with `NegativeDelta` when it would add fewer than zero chips and otherwise with
/// `ExceedsStack` when it would add more than the bettor has.
pub proof fn law_bet_succeeds_within_stack(
    player: usize,
    action: Action,
    remaining: [i32; 2],
    prev_amount: i32,
)
    requires
        player < 2,
        bet_amount(action) is Some,
    ensures
        ({
            let amount = bet_amount(action)->0;
            let other: int = if player == 0 {
                1
            } else {
                0
            };
            let added = amount - prev_amount + (remaining[player as int] - remaining[other]);
            &&& 0 <= added <= remaining[player as int] ==> (contribution_step(
                player,
                action,
                remaining,
                prev_amount,
            ) matches Ok((r, p)) && r[player as int] == remaining[player as int] - added
                && r[other] == remaining[other] && p == amount)
            &&& added < 0 ==> contribution_step(player, action, remaining, prev_amount) == Err::<
                ([i32; 2], i32),
                ContributionError,
            >(ContributionError::NegativeDelta(action))
            &&& 0 <= added && added > remaining[player as int] ==> contribution_step(
                player,
                action,
                remaining,
                prev_amount,
            ) == Err::<([i32; 2], i32), ContributionError>(
                ContributionError::ExceedsStack(player, action),
            )
        }),
{
    let other: int = if player == 0 {
        1
    } else {
        0
    };
    assert(opponent(player) as int == other);
    match action {
        Action::Bet(a) | Action::Raise(a) | Action::AllIn(a) => {
            let added = a - prev_amount + (remaining[player as int] - remaining[other]);
            assert(bet_delta(player, a, remaining, prev_amount) == added);
        },
        _ => {},
    }
}

/// A bet, raise or all-in that is called costs both players the same: each is left with the
/// caller's former stack minus the raise over the street's previous bet, and the street's last
/// bet is reset.
pub proof fn law_bet_then_call(
    player: usize,
    action: Action,
    remaining: [i32; 2],
    prev_amount: i32,
)
    requires
        player < 2,
        bet_amount(action) is Some,
        contribution_step(player, action, remaining, prev_amount) is Ok,
    ensures
        ({
            let (after_bet, last_bet) = contribution_step(
                player,
                action,
                remaining,
                prev_amount,
            )->Ok_0;
            contribution_step(opponent(player), Action::Call, after_bet, last_bet) matches Ok(
                (r, p),
            ) && r[0] == r[1] && r[0] == remaining[opponent(player) as int] - (
            bet_amount(action)->0 - prev_amount) && p == 0
        }),
{
}

/// Checks, folds and dealt cards leave the chip accounting unchanged.
pub proof fn law_passive_actions_keep_state(
    player: usize,
    action: Action,
    remaining: [i32; 2],
    prev_amount: i32,
)
    requires
        bet_amount(action) is None,
        action != Action::Call,
    ensures
        contribution_step(player, action, remaining, prev_amount) == Ok::<
            ([i32; 2], i32),
            ContributionError,
        >((remaining, prev_amount)),
{
}

} // verus!

verus! {

/// Why a board (flop, turn and river cards with the tree's initial state) is invalid.
#[derive(Clone, Copy, Debug, PartialEq, Eq, Structural)]
pub enum BoardError {
    /// A flop card is not dealt.
    FlopNotInitialized,
    /// A flop card is not in `0..52`.
    FlopOutOfRange,
    /// Two flop cards are the same.
    FlopNotUnique,
    /// The turn card is not in `0..52`.
    TurnOutOfRange,
    /// The turn card is one of the flop cards.
    TurnOnFlop,
    /// The river card is not in `0..52`.
    RiverOutOfRange,
    /// The river card is one of the flop cards.
    RiverOnFlop,
    /// The river card is the turn card.
    RiverIsTurn,
    /// A river card is given without a turn card.
    RiverWithoutTurn,
    /// The tree's initial state is not the street the board reaches.
    InvalidInitialState { expected: BoardState, actual: BoardState },
}

impl BoardError {
    /// The error message; the expected and actual initial states are carried by
    /// `InvalidInitialState`.
    pub fn message(self) -> (r: &'static str)
        ensures
            r@ == (match self {
                BoardError::FlopNotInitialized => "Flop cards not initialized"@,
                BoardError::FlopOutOfRange => "Flop cards must be in [0, 52)"@,
                BoardError::FlopNotUnique => "Flop cards must be unique"@,
                BoardError::TurnOutOfRange => "Turn card must be in [0, 52)"@,
                BoardError::TurnOnFlop => "Turn card must be different from flop cards"@,
                BoardError::RiverOutOfRange => "River card must be in [0, 52)"@,
                BoardError::RiverOnFlop => "River card must be different from flop cards"@,
                BoardError::RiverIsTurn => "River card must be different from turn card"@,
                BoardError::RiverWithoutTurn => "River card specified without turn card"@,
                BoardError::InvalidInitialState { .. } => "Invalid initial state of `tree_config`"@,
            }),
    {
        match self {
            BoardError::FlopNotInitialized => "Flop cards not initialized",
            BoardError::FlopOutOfRange => "Flop cards must be in [0, 52)",
            BoardError::FlopNotUnique => "Flop cards must be unique",
            BoardError::TurnOutOfRange => "Turn card must be in [0, 52)",
            BoardError::TurnOnFlop => "Turn card must be different from flop cards",
            BoardError::RiverOutOfRange => "River card must be in [0, 52)",
            BoardError::RiverOnFlop => "River card must be different from flop cards",
            BoardError::RiverIsTurn => "River card must be different from turn card",
            BoardError::RiverWithoutTurn => "River card specified without turn card",
            BoardError::InvalidInitialState { .. } => "Invalid initial state of `tree_config`",
        }
    }
}

/// Whether `card` is one of the flop cards.
pub open spec fn on_flop(flop: [Card; 3], card: Card) -> bool {
    flop[0] == card || flop[1] == card || flop[2] == card
}

/// The street a board reaches: the flop when no turn is dealt, the turn when no river is dealt,
/// the river otherwise.
pub open spec fn board_street(turn: Card, river: Card) -> BoardState {
    if turn == NOT_DEALT {
        BoardState::Flop
    } else if river == NOT_DEALT {
        BoardState::Turn
    } else {
        BoardState::River
    }
}

/// A valid board: three distinct flop cards in `0..52`; a turn card, if dealt, in `0..52` and
/// not on the flop; a river card, if dealt, in `0..52`, not on the flop, not the turn card and
/// only with a turn card; and an initial state that is the street the board reaches.
pub open spec fn valid_board(
    flop: [Card; 3],
    turn: Card,
    river: Card,
    initial_state: BoardState,
) -> bool {
    &&& flop[0] < 52 && flop[1] < 52 && flop[2] < 52
    &&& flop[0] != flop[1] && flop[0] != flop[2] && flop[1] != flop[2]
    &&& turn != NOT_DEALT ==> turn < 52 && !on_flop(flop, turn)
    &&& river != NOT_DEALT ==> river < 52 && !on_flop(flop, river) && river != turn && turn
        != NOT_DEALT
    &&& initial_state == board_street(turn, river)
}

/// The first rule that the board breaks, in the order in which the rules are checked.
pub open spec fn board_error(
    flop: [Card; 3],
    turn: Card,
    river: Card,
    initial_state: BoardState,
) -> Option<BoardError> {
    if on_flop(flop, NOT_DEALT) {
        Some(BoardError::FlopNotInitialized)
    } else if !(flop[0] < 52 && flop[1] < 52 && flop[2] < 52) {
        Some(BoardError::FlopOutOfRange)
    } else if flop[0] == flop[1] || flop[0] == flop[2] || flop[1] == flop[2] {
        Some(BoardError::FlopNotUnique)
    } else if turn != NOT_DEALT && turn >= 52 {
        Some(BoardError::TurnOutOfRange)
    } else if turn != NOT_DEALT && on_flop(flop, turn) {
        Some(BoardError::TurnOnFlop)
    } else if river != NOT_DEALT && river >= 52 {
        Some(BoardError::RiverOutOfRange)
    } else if river != NOT_DEALT && on_flop(flop, river) {
        Some(BoardError::RiverOnFlop)
    } else if river != NOT_DEALT && turn == river {
        Some(BoardError::RiverIsTurn)
    } else if river != NOT_DEALT && turn == NOT_DEALT {
        Some(BoardError::RiverWithoutTurn)
    } else if initial_state != board_street(turn, river) {
        Some(
            BoardError::InvalidInitialState {
                expected: board_street(turn, river),
                actual: initial_state,
            },
        )
    } else {
        None
    }
}

/// Checks the board of a card configuration against the tree's initial state.
pub fn check_board(flop: [Card; 3], turn: Card, river: Card, initial_state: BoardState) -> (r:
    Result<(), BoardError>)
    ensures
        r is Ok <==> valid_board(flop, turn, river, initial_state),
        r matches Err(e) ==> board_error(flop, turn, river, initial_state) == Some(e),
        r is Ok ==> board_error(flop, turn, river, initial_state) is None,
{
    if flop[0] == NOT_DEALT || flop[1] == NOT_DEALT || flop[2] == NOT_DEALT {
        return Err(BoardError::FlopNotInitialized);
    }
    if 52 <= flop[0] || 52 <= flop[1] || 52 <= flop[2] {
        return Err(BoardError::FlopOutOfRange);
    }
    if flop[0] == flop[1] || flop[0] == flop[2] || flop[1] == flop[2] {
        return Err(BoardError::FlopNotUnique);
    }
    if turn != NOT_DEALT {
        if 52 <= turn {
            return Err(BoardError::TurnOutOfRange);
        }
        if flop[0] == turn || flop[1] == turn || flop[2] == turn {
            return Err(BoardError::TurnOnFlop);
        }
    }
    if river != NOT_DEALT {
        if 52 <= river {
            return Err(BoardError::RiverOutOfRange);
        }
        if flop[0] == river || flop[1] == river || flop[2] == river {
            return Err(BoardError::RiverOnFlop);
        }
        if turn == river {
            return Err(BoardError::RiverIsTurn);
        }
        if turn == NOT_DEALT {
            return Err(BoardError::RiverWithoutTurn);
        }
    }
    let expected_state = if turn == NOT_DEALT {
        BoardState::Flop
    } else if river == NOT_DEALT {
        BoardState::Turn
    } else {
        BoardState::River
    };
    if initial_state != expected_state {
        return Err(BoardError::InvalidInitialState { expected: expected_state, actual: initial_state });
    }
    Ok(())
}

/// The number of cards that can be dealt at a chance node: 45 for the turn (52 cards less the
/// flop and both players' hands) and 44 for the river, less the cards of folded players that
/// the bunching effect removes from the deck.
pub fn chance_factor(turn: Card, bunching_num_dead_cards: usize) -> (r: usize)
    requires
        bunching_num_dead_cards <= (if turn == NOT_DEALT {
            45int
        } else {
            44int
        }),
    ensures
        r == (if turn == NOT_DEALT {
            45int
        } else {
            44int
        }) - bunching_num_dead_cards,
{
    if turn == NOT_DEALT {
        45 - bunching_num_dead_cards
    } else {
        44 - bunching_num_dead_cards
    }
}

/// Why a tournament ICM seat assignment is invalid.
#[derive(Clone, Copy, Debug, PartialEq, Eq, Structural)]
pub enum IcmSeatError {
    /// The tournament has no players.
    StacksEmpty,
    /// The OOP or IP seat is not one of the tournament's seats.
    SeatOutOfRange,
    /// OOP and IP sit in the same seat.
    SameSeat,
}

impl IcmSeatError {
    /// The error message.
    pub fn message(self) -> (r: &'static str)
        ensures
            r@ == (match self {
                IcmSeatError::StacksEmpty => "Tournament ICM stacks must not be empty"@,
                IcmSeatError::SeatOutOfRange => "Tournament ICM OOP/IP seats must be inside stacks"@,
                IcmSeatError::SameSeat => "Tournament ICM OOP/IP seats must be different"@,
            }),
    {
        match self {
            IcmSeatError::StacksEmpty => "Tournament ICM stacks must not be empty",
            IcmSeatError::SeatOutOfRange => "Tournament ICM OOP/IP seats must be inside stacks",
            IcmSeatError::SameSeat => "Tournament ICM OOP/IP seats must be different",
        }
    }
}

/// Checks that OOP and IP sit in two different seats of a tournament with `player_count`
/// players.
pub fn check_tournament_icm_seats(player_count: usize, oop_seat: usize, ip_seat: usize) -> (r:
    Result<(), IcmSeatError>)
    ensures
        r == (if player_count == 0 {
            Err(IcmSeatError::StacksEmpty)
        } else if oop_seat >= player_count || ip_seat >= player_count {
            Err(IcmSeatError::SeatOutOfRange)
        } else if oop_seat == ip_seat {
            Err(IcmSeatError::SameSeat)
        } else {
            Ok(())
        }),
        r is Ok <==> oop_seat < player_count && ip_seat < player_count && oop_seat != ip_seat,
{
    if player_count == 0 {
        return Err(IcmSeatError::StacksEmpty);
    }
    if oop_seat >= player_count || ip_seat >= player_count {
        return Err(IcmSeatError::SeatOutOfRange);
    }
    if oop_seat == ip_seat {
        return Err(IcmSeatError::SameSeat);
    }
    Ok(())
}

/// The storage element counts of a game tree: action-node values of the acting player, values
/// of the IP player at street roots, and chance-node values.
#[derive(Clone, Copy, Debug, PartialEq, Eq, Structural)]
pub struct StorageCounts {
    pub num_storage: u64,
    pub num_storage_ip: u64,
    pub num_storage_chance: u64,
}

/// The number of stored elements: two buffers of action-node values, plus the IP and chance
/// values.
pub open spec fn num_elements(counts: StorageCounts) -> int {
    2 * counts.num_storage + counts.num_storage_ip + counts.num_storage_chance
}

/// The estimated memory usage in bytes of a game tree with `counts` storage elements and
/// `misc_memory_usage` bytes of other data: 4 bytes per element uncompressed and 2 bytes per
/// element compressed.
pub fn memory_usage(counts: StorageCounts, misc_memory_usage: u64) -> (r: (u64, u64))
    requires
        4 * num_elements(counts) + misc_memory_usage <= u64::MAX,
    ensures
        r.0 == 4 * num_elements(counts) + misc_memory_usage,
        r.1 == 2 * num_elements(counts) + misc_memory_usage,
{
    let num_elements = 2 * counts.num_storage + counts.num_storage_ip + counts.num_storage_chance;
    let uncompressed = 4 * num_elements + misc_memory_usage;
    let compressed = 2 * num_elements + misc_memory_usage;
    (uncompressed, compressed)
}

} // verus!

verus! {

/// The pot at a terminal node: the tree's starting pot plus both players' contributions within
/// the tree.
pub open spec fn terminal_pot(starting_pot: i32, contribution: [i32; 2]) -> int {
    starting_pot + contribution[0] + contribution[1]
}

/// A player's full investment in the hand: what it put in before the tree began plus what it put
/// in within the tree.
pub open spec fn full_investment(contribution: [i32; 2], base_contribution: [i32; 2], player: int) -> int {
    base_contribution[player] + contribution[player]
}

/// The change of a player's tournament stack at a terminal outcome, in half chips: the winner
/// gains the pot less its full investment, the loser loses its full investment, and on a tie
/// each player gains half the pot less its full investment.
pub open spec fn stack_change_half_chips(
    starting_pot: i32,
    contribution: [i32; 2],
    base_contribution: [i32; 2],
    winner: Option<usize>,
    player: int,
) -> int {
    let pot = terminal_pot(starting_pot, contribution);
    let total = full_investment(contribution, base_contribution, player);
    match winner {
        Some(w) => if w == player {
            2 * (pot - total)
        } else {
            -2 * total
        },
        None => pot - 2 * total,
    }
}

/// The changes of the OOP and IP tournament stacks at a terminal outcome, in half chips.
///
/// `contribution` is what each player put in within the tree (measured from the effective
/// stack) and `base_contribution` what each player put in before the tree began (non-zero only
/// for a re-rooted tree whose `starting_pot` already holds the earlier pot). The pot is built
/// from `starting_pot` and `contribution` alone, while each player's stack loses its full
/// investment `base + contribution`. `winner` is 0 (OOP), 1 (IP) or `None` for a split pot.
pub fn terminal_stack_changes(
    starting_pot: i32,
    contribution: [i32; 2],
    base_contribution: [i32; 2],
    winner: Option<usize>,
) -> (r: [i64; 2])
    requires
        winner matches Some(w) ==> w < 2,
    ensures
        r[0] == stack_change_half_chips(starting_pot, contribution, base_contribution, winner, 0),
        r[1] == stack_change_half_chips(starting_pot, contribution, base_contribution, winner, 1),
{
    let pot = starting_pot as i64 + contribution[0] as i64 + contribution[1] as i64;
    let total = [
        base_contribution[0] as i64 + contribution[0] as i64,
        base_contribution[1] as i64 + contribution[1] as i64,
    ];
    match winner {
        Some(0) => [2 * (pot - total[0]), -2 * total[1]],
        Some(_) => [-2 * total[0], 2 * (pot - total[1])],
        None => [pot - 2 * total[0], pot - 2 * total[1]],
    }
}

/// Re-rooting keeps terminal stacks exact: a hand whose players each invested `p` chips before
/// a tree, expressed as a tree with starting pot `starting_pot + 2p`, in-tree contributions
/// `contribution` and base contribution `[p, p]`, changes every stack exactly as the full hand
/// with starting pot `starting_pot`, contributions `contribution + p` and no base does, for every
/// outcome.
pub proof fn law_reroot_matches_full_hand(
    starting_pot: i32,
    p: i32,
    contribution: [i32; 2],
    winner: Option<usize>,
    player: int,
)
    requires
        0 <= player < 2,
        i32::MIN <= starting_pot + 2 * p <= i32::MAX,
        i32::MIN <= contribution[0] + p <= i32::MAX,
        i32::MIN <= contribution[1] + p <= i32::MAX,
    ensures
        stack_change_half_chips(
            starting_pot,
            [(contribution[0] + p) as i32, (contribution[1] + p) as i32],
            [0, 0],
            winner,
            player,
        ) == stack_change_half_chips(
            (starting_pot + 2 * p) as i32,
            contribution,
            [p, p],
            winner,
            player,
        ),
{
}

/// Without its base contribution a re-rooted tree forgets the earlier investment: every stack
/// ends exactly `p` chips (`2p` half chips) above the full hand's, so the base is never
/// cosmetic when `p != 0`.
pub proof fn law_reroot_without_base_overstates(
    starting_pot: i32,
    p: i32,
    contribution: [i32; 2],
    winner: Option<usize>,
    player: int,
)
    requires
        0 <= player < 2,
        i32::MIN <= starting_pot + 2 * p <= i32::MAX,
        i32::MIN <= contribution[0] + p <= i32::MAX,
        i32::MIN <= contribution[1] + p <= i32::MAX,
    ensures
        stack_change_half_chips((starting_pot + 2 * p) as i32, contribution, [0, 0], winner, player)
            == stack_change_half_chips(
            starting_pot,
            [(contribution[0] + p) as i32, (contribution[1] + p) as i32],
            [0, 0],
            winner,
            player,
        ) + 2 * p,
{
}

/// With no base contribution the terminal stacks are the plain ones: the winner's stack loses
/// its contribution and gains the pot, the loser's loses its contribution, and on a tie each
/// stack loses its contribution and gains half the pot.
pub proof fn law_base_zero_is_plain_stacks(
    starting_pot: i32,
    contribution: [i32; 2],
    winner: Option<usize>,
    player: int,
)
    requires
        0 <= player < 2,
    ensures
        stack_change_half_chips(starting_pot, contribution, [0, 0], winner, player) == (match winner {
            Some(w) => if w == player {
                2 * (terminal_pot(starting_pot, contribution) - contribution[player])
            } else {
                -2 * contribution[player]
            },
            None => terminal_pot(starting_pot, contribution) - 2 * contribution[player],
        }),
{
}

/// Splitting the pot is unaffected by re-rooting even when the in-tree contributions are
/// measured from the re-rooted tree: at zero in-tree contribution a re-rooted tree with base
/// `[p, p]` splits to the same stacks as the full hand at zero contribution.
pub proof fn law_split_baseline_survives_reroot(starting_pot: i32, p: i32, player: int)
    requires
        0 <= player < 2,
        i32::MIN <= starting_pot + 2 * p <= i32::MAX,
    ensures
        stack_change_half_chips((starting_pot + 2 * p) as i32, [0, 0], [p, p], None, player)
            == stack_change_half_chips(starting_pot, [0, 0], [0, 0], None, player),
{
}

} // verus!

verus! {

/// The chip accounting after a line of `(player, action)` steps, starting from `remaining`
/// chips behind and a last bet of `prev_amount`; the first failing step's error otherwise.
pub open spec fn line_state(
    line: Seq<(usize, Action)>,
    remaining: [i32; 2],
    prev_amount: i32,
) -> Result<([i32; 2], i32), ContributionError>
    decreases line.len(),
{
    if line.len() == 0 {
        Ok((remaining, prev_amount))
    } else {
        match contribution_step(line[0].0, line[0].1, remaining, prev_amount) {
            Ok((next, next_prev)) => line_state(line.drop_first(), next, next_prev),
            Err(e) => Err(e),
        }
    }
}

/// Every player's chips behind stay between zero and the effective stack.
pub open spec fn stacks_in_range(remaining: [i32; 2], effective_stack: i32) -> bool {
    0 <= remaining[0] <= effective_stack && 0 <= remaining[1] <= effective_stack
}

/// A step that succeeds keeps both players' chips behind between zero and the effective stack.
pub proof fn law_step_keeps_stacks_in_range(
    player: usize,
    action: Action,
    remaining: [i32; 2],
    prev_amount: i32,
    effective_stack: i32,
)
    requires
        stacks_in_range(remaining, effective_stack),
    ensures
        contribution_step(player, action, remaining, prev_amount) matches Ok((r, p))
            ==> stacks_in_range(r, effective_stack),
{
}

/// Along any line of actions that starts with both players holding the effective stack, the
/// chips behind stay between zero and the effective stack: no terminal contribution
/// `effective_stack - remaining` is ever negative or above the effective stack.
pub proof fn law_line_contributions_in_range(
    line: Seq<(usize, Action)>,
    remaining: [i32; 2],
    prev_amount: i32,
    effective_stack: i32,
)
    requires
        stacks_in_range(remaining, effective_stack),
    ensures
        line_state(line, remaining, prev_amount) matches Ok((r, p)) ==> stacks_in_range(
            r,
            effective_stack,
        ),
    decreases line.len(),
{
    if line.len() > 0 {
        law_step_keeps_stacks_in_range(line[0].0, line[0].1, remaining, prev_amount, effective_stack);
        match contribution_step(line[0].0, line[0].1, remaining, prev_amount) {
            Ok((next, next_prev)) => {
                law_line_contributions_in_range(line.drop_first(), next, next_prev, effective_stack);
            },
            Err(_) => {},
        }
    }
}

} // verus!

verus! {

/// The uncompressed estimate counts 4 bytes per stored element and the compressed one 2, over
/// the same other data: they differ by exactly 2 bytes per element and the compressed one is at
/// least 2 bytes per element.
pub proof fn law_memory_usage_bytes_per_element(counts: StorageCounts, misc_memory_usage: u64)
    ensures
        ({
            let u = 4 * num_elements(counts) + misc_memory_usage;
            let c = 2 * num_elements(counts) + misc_memory_usage;
            u - c == 2 * num_elements(counts) && c >= 2 * num_elements(counts)
        }),
{
}

} // verus!

verus! {

/// Whether `card` can be dealt at a chance node: it is not on the flop, not the dealt turn
/// (when `turn` is dealt) and not one of the `skip` cards that isomorphism folds into others.
pub open spec fn dealable(flop: [Card; 3], turn: Card, skip: Seq<Card>, card: Card) -> bool {
    &&& !on_flop(flop, card)
    &&& (turn == NOT_DEALT || card != turn)
    &&& !skip.contains(card)
}

/// The cards dealt as children of a chance node, in ascending order: every card of `0..52`
/// that is not on the flop, not the dealt turn (when `turn` is dealt, the node deals the river)
/// and not one of the isomorphic `skip` cards.
pub fn chance_cards(flop: [Card; 3], turn: Card, skip: &Vec<Card>) -> (r: Vec<Card>)
    requires
        flop[0] < 52 && flop[1] < 52 && flop[2] < 52,
        turn == NOT_DEALT || turn < 52,
        forall|i: int| 0 <= i < skip@.len() ==> skip@[i] < 52,
    ensures
        forall|i: int, j: int| 0 <= i < j < r@.len() ==> r@[i] < r@[j],
        forall|i: int| 0 <= i < r@.len() ==> r@[i] < 52,
        forall|c: Card| c < 52 ==> (r@.contains(c) <==> dealable(flop, turn, skip@, c)),
        forall|i: int|
            0 <= i < r@.len() ==> !skip@.contains(#[trigger] r@[i]) && !on_flop(flop, r@[i]) && (
            turn == NOT_DEALT || r@[i] != turn),
{
    let mut r: Vec<Card> = Vec::new();
    let mut card: u8 = 0;
    while card < 52
        invariant
            card <= 52,
            forall|i: int, j: int| 0 <= i < j < r@.len() ==> r@[i] < r@[j],
            forall|i: int| 0 <= i < r@.len() ==> r@[i] < card,
            forall|c: Card| c < card ==> (r@.contains(c) <==> dealable(flop, turn, skip@, c)),
        decreases 52 - card,
    {
        let mut skipped = false;
        let mut k: usize = 0;
        while k < skip.len()
            invariant
                k <= skip@.len(),
                skipped <==> exists|i: int| 0 <= i < k && skip@[i] == card,
            decreases skip@.len() - k,
        {
            if skip[k] == card {
                skipped = true;
            }
            k = k + 1;
        }
        let on_board = flop[0] == card || flop[1] == card || flop[2] == card || (turn != NOT_DEALT
            && turn == card);
        let ghost old_r = r@;
        if !on_board && !skipped {
            r.push(card);
        }
        proof {
            assert(skipped <==> skip@.contains(card));
            assert forall|c: Card| c < card + 1 implies (r@.contains(c) <==> dealable(
                flop,
                turn,
                skip@,
                c,
            )) by {
                if c < card {
                    if r@.contains(c) {
                        let i = choose|i: int| 0 <= i < r@.len() && r@[i] == c;
                        if i == old_r.len() {
                            assert(false);
                        }
                        assert(old_r.contains(c));
                    }
                    if old_r.contains(c) {
                        let i = choose|i: int| 0 <= i < old_r.len() && old_r[i] == c;
                        assert(r@[i] == c);
                    }
                } else {
                    if r@.contains(c) {
                        let i = choose|i: int| 0 <= i < r@.len() && r@[i] == c;
                        assert(i == old_r.len());
                    }
                    if dealable(flop, turn, skip@, c) {
                        assert(r@[old_r.len() as int] == c);
                    }
                }
            }
        }
        card = card + 1;
    }
    proof {
        assert forall|i: int| 0 <= i < r@.len() implies !skip@.contains(#[trigger] r@[i]) && !on_flop(
            flop,
            r@[i],
        ) && (turn == NOT_DEALT || r@[i] != turn) by {
            assert(r@.contains(r@[i]));
        }
    }
    r
}

/// A chance node never deals a flop card, the dealt turn card, or a card of its isomorphic skip
/// list, whichever street it deals, and it deals every other card.
pub proof fn law_skipped_cards_are_not_dealt(flop: [Card; 3], turn: Card, skip: Seq<Card>, card: Card)
    ensures
        skip.contains(card) ==> !dealable(flop, turn, skip, card),
        flop[0] == card || flop[1] == card || flop[2] == card ==> !dealable(flop, turn, skip, card),
        turn != NOT_DEALT && card == turn ==> !dealable(flop, turn, skip, card),
        !(flop[0] == card || flop[1] == card || flop[2] == card) && card != turn
            && !skip.contains(card) ==> dealable(flop, turn, skip, card),
{
}

} // verus!

verus! {

/// The number of river cards dealt after the turn cards of a flop: for every turn card that is
/// neither on the flop nor an isomorphic turn card, 48 less the isomorphic river cards of its
/// suit.
pub open spec fn river_deals(flop: [Card; 3], iso_turn: Seq<Card>, iso_river: Seq<Seq<Card>>, t: int) -> int
    decreases t,
{
    if t <= 0 {
        0
    } else {
        river_deals(flop, iso_turn, iso_river, t - 1) + if !on_flop(flop, (t - 1) as Card)
            && !iso_turn.contains((t - 1) as Card) {
            48 - iso_river[(t - 1) % 4].len()
        } else {
            0
        }
    }
}

/// How many times each action node of the turn and of the river occurs in the game tree: once
/// per turn card and once per turn-and-river board that the chance nodes deal.
pub open spec fn street_multipliers(
    flop: [Card; 3],
    turn: Card,
    river: Card,
    iso_turn: Seq<Card>,
    iso_river: Seq<Seq<Card>>,
) -> (int, int) {
    if turn == NOT_DEALT {
        (49 - iso_turn.len(), river_deals(flop, iso_turn, iso_river, 52))
    } else if river == NOT_DEALT {
        (1, 48 - iso_river[(turn % 4) as int].len())
    } else {
        (0, 1)
    }
}

/// The number of action nodes of the game tree on each street, from the number of action nodes
/// of the action tree on each street (`action_nodes`), the board and the isomorphic turn and
/// river cards: the flop's once, the turn's once per dealt turn card and the river's once per
/// dealt board.
pub fn count_num_nodes(
    action_nodes: [u64; 3],
    flop: [Card; 3],
    turn: Card,
    river: Card,
    iso_turn: &Vec<Card>,
    iso_river: &[Vec<Card>; 4],
) -> (r: [u64; 3])
    requires
        iso_turn@.len() <= 49,
        forall|s: int| 0 <= s < 4 ==> (#[trigger] iso_river[s]@).len() <= 48,
        action_nodes[1] * street_multipliers(flop, turn, river, iso_turn@, Seq::new(4, |s: int| iso_river[s]@)).0 <= u64::MAX,
        action_nodes[2] * street_multipliers(flop, turn, river, iso_turn@, Seq::new(4, |s: int| iso_river[s]@)).1 <= u64::MAX,
    ensures
        ({
            let m = street_multipliers(flop, turn, river, iso_turn@, Seq::new(4, |s: int| iso_river[s]@));
            r[0] == action_nodes[0] && r[1] == action_nodes[1] * m.0 && r[2] == action_nodes[2] * m.1
        }),
{
    let ghost iso_r = Seq::new(4, |s: int| iso_river[s]@);
    let (turn_coef, river_coef): (u64, u64) = if turn == NOT_DEALT {
        let mut river_coef: u64 = 0;
        let mut t: u8 = 0;
        while t < 52
            invariant
                t <= 52,
                iso_r == Seq::new(4, |s: int| iso_river[s]@),
                forall|s: int| 0 <= s < 4 ==> (#[trigger] iso_river[s]@).len() <= 48,
                river_coef == river_deals(flop, iso_turn@, iso_r, t as int),
                river_coef <= 48 * t,
            decreases 52 - t,
        {
            let on = flop[0] == t || flop[1] == t || flop[2] == t;
            if !on && !contains_card(iso_turn, t) {
                let skip = iso_river[(t % 4) as usize].len() as u64;
                proof {
                    assert(iso_r[(t % 4) as int] == iso_river[(t % 4) as int]@);
                }
                river_coef = river_coef + (48 - skip);
            }
            t = t + 1;
        }
        ((49 - iso_turn.len()) as u64, river_coef)
    } else if river == NOT_DEALT {
        proof {
            assert(iso_r[(turn % 4) as int] == iso_river[(turn % 4) as int]@);
        }
        (1, (48 - iso_river[(turn % 4) as usize].len()) as u64)
    } else {
        (0, 1)
    };
    [action_nodes[0], action_nodes[1] * turn_coef, action_nodes[2] * river_coef]
}

} // verus!
