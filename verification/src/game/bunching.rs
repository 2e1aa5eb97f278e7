//! The estimate of the extra memory that the bunching effect needs: per-board hand strengths,
//! and for every possible turn and river card the per-hand tables of opponent combinations.
use vstd::prelude::*;

use crate::action_tree::{Card, NOT_DEALT};
use crate::game::base::on_flop;

verus! {

/// The sizes in bytes of the containers the bunching tables are made of, as the machine lays
/// them out.
#[derive(Clone, Copy, Debug, PartialEq, Eq, Structural)]
pub struct LayoutSizes {
    /// A pair of vectors of hand strengths (`[Vec<u16>; 2]`).
    pub vec_pair: u64,
    /// An index (`usize`).
    pub index: u64,
    /// A vector of indices (`Vec<usize>`).
    pub vec: u64,
}

/// The largest number of private hands of a player: every pair of distinct cards.
pub const MAX_HANDS: usize = 1326;

/// Whether `hand` holds `card`.
pub open spec fn holds(hand: (Card, Card), card: Card) -> bool {
    hand.0 == card || hand.1 == card
}

/// The number of hands that hold neither `c1` nor `c2`.
pub open spec fn count_avoiding(hands: Seq<(Card, Card)>, c1: Card, c2: Card) -> int
    decreases hands.len(),
{
    if hands.len() == 0 {
        0
    } else {
        count_avoiding(hands.drop_last(), c1, c2) + if !holds(hands.last(), c1) && !holds(
            hands.last(),
            c2,
        ) {
            1int
        } else {
            0int
        }
    }
}

/// The number of boards whose hand strengths are filled.
pub open spec fn count_filled(filled: Seq<bool>) -> int
    decreases filled.len(),
{
    if filled.len() == 0 {
        0
    } else {
        count_filled(filled.drop_last()) + if filled.last() {
            1int
        } else {
            0int
        }
    }
}

/// Card `t` can be the turn: not on the flop, not folded into another card by isomorphism, and
/// the dealt turn if one is dealt.
pub open spec fn turn_possible(flop: [Card; 3], turn: Card, iso_turn: Seq<Card>, t: int) -> bool {
    &&& 0 <= t < 52
    &&& !on_flop(flop, t as Card)
    &&& !iso_turn.contains(t as Card)
    &&& (turn == NOT_DEALT || turn == t)
}

/// Cards `t` (turn) and `r` (river) can complete the board.
pub open spec fn board_possible(
    flop: [Card; 3],
    turn: Card,
    river: Card,
    iso_turn: Seq<Card>,
    iso_river: Seq<Seq<Card>>,
    t: int,
    r: int,
) -> bool {
    &&& turn_possible(flop, turn, iso_turn, t)
    &&& 0 <= r < 52
    &&& !on_flop(flop, r as Card)
    &&& !iso_river[t % 4].contains(r as Card)
    &&& (river == NOT_DEALT || river == r)
}

/// The turn tables of one player over the turn cards below `t`: for every possible turn, one
/// index per hand of the player and one 8-byte entry per opponent hand for every hand of the
/// player that the turn does not block.
pub open spec fn turn_tables(
    flop: [Card; 3],
    turn: Card,
    iso_turn: Seq<Card>,
    hands: Seq<(Card, Card)>,
    opponent_len: int,
    sizes: LayoutSizes,
    t: int,
) -> int
    decreases t,
{
    if t <= 0 {
        0
    } else {
        turn_tables(flop, turn, iso_turn, hands, opponent_len, sizes, t - 1) + if turn_possible(
            flop,
            turn,
            iso_turn,
            t - 1,
        ) {
            2 * hands.len() * sizes.index + 8 * opponent_len * count_avoiding(
                hands,
                (t - 1) as Card,
                (t - 1) as Card,
            )
        } else {
            0
        }
    }
}

/// The river tables of one player over the boards `{c1, c2}` with `c1 < c2 = b` and `c1 < k`:
/// for every possible board, one index per hand of the player and one 4-byte entry per
/// opponent hand for every hand of the player that the board does not block.
pub open spec fn river_row(
    flop: [Card; 3],
    turn: Card,
    river: Card,
    iso_turn: Seq<Card>,
    iso_river: Seq<Seq<Card>>,
    hands: Seq<(Card, Card)>,
    opponent_len: int,
    sizes: LayoutSizes,
    b: int,
    k: int,
) -> int
    decreases k,
{
    if k <= 0 {
        0
    } else {
        river_row(flop, turn, river, iso_turn, iso_river, hands, opponent_len, sizes, b, k - 1)
            + if board_possible(flop, turn, river, iso_turn, iso_river, k - 1, b)
            || board_possible(flop, turn, river, iso_turn, iso_river, b, k - 1) {
            hands.len() * sizes.index + 4 * opponent_len * count_avoiding(
                hands,
                (k - 1) as Card,
                b as Card,
            )
        } else {
            0
        }
    }
}

/// The river tables of one player over the boards `{c1, c2}` with `c1 < c2 < b`.
pub open spec fn river_tables(
    flop: [Card; 3],
    turn: Card,
    river: Card,
    iso_turn: Seq<Card>,
    iso_river: Seq<Seq<Card>>,
    hands: Seq<(Card, Card)>,
    opponent_len: int,
    sizes: LayoutSizes,
    b: int,
) -> int
    decreases b,
{
    if b <= 0 {
        0
    } else {
        river_tables(flop, turn, river, iso_turn, iso_river, hands, opponent_len, sizes, b - 1)
            + river_row(
            flop,
            turn,
            river,
            iso_turn,
            iso_river,
            hands,
            opponent_len,
            sizes,
            b - 1,
            b - 1,
        )
    }
}

/// The bunching memory of one player: its turn tables (when no river is dealt) and its river
/// tables, with the vectors that hold them.
pub open spec fn player_memory(
    flop: [Card; 3],
    turn: Card,
    river: Card,
    iso_turn: Seq<Card>,
    iso_river: Seq<Seq<Card>>,
    hands: Seq<(Card, Card)>,
    opponent_len: int,
    sizes: LayoutSizes,
) -> int {
    (if river == NOT_DEALT {
        2 * 52 * sizes.vec + turn_tables(flop, turn, iso_turn, hands, opponent_len, sizes, 52)
    } else {
        0
    }) + 1326 * sizes.vec + river_tables(
        flop,
        turn,
        river,
        iso_turn,
        iso_river,
        hands,
        opponent_len,
        sizes,
        52,
    )
}

/// The estimated additional memory in bytes that the bunching effect needs: 4 bytes, the hand
/// strengths of every board, the flop tables when no turn is dealt, and the turn and river
/// tables of both players.
pub open spec fn bunching_memory(
    strength_filled: Seq<bool>,
    oop_hands: Seq<(Card, Card)>,
    ip_hands: Seq<(Card, Card)>,
    flop: [Card; 3],
    turn: Card,
    river: Card,
    iso_turn: Seq<Card>,
    iso_river: Seq<Seq<Card>>,
    sizes: LayoutSizes,
) -> int {
    let oop = oop_hands.len() as int;
    let ip = ip_hands.len() as int;
    4 + strength_filled.len() * sizes.vec_pair + 2 * (oop + ip) * count_filled(strength_filled)
        + (if turn == NOT_DEALT {
        2 * (oop * ip * sizes.index) + 2 * 2 * 4 * (oop * ip)
    } else {
        0
    }) + player_memory(flop, turn, river, iso_turn, iso_river, oop_hands, ip, sizes)
        + player_memory(flop, turn, river, iso_turn, iso_river, ip_hands, oop, sizes)
}

/// Counting the hands that hold neither of two cards: the order of the cards does not matter,
/// avoiding one more card never counts more hands, no hand is counted beyond the list, a list
/// whose hands hold neither card is counted whole, and a list whose hands all hold the first
/// card is not counted at all.
pub proof fn law_count_avoiding(hands: Seq<(Card, Card)>, c1: Card, c2: Card)
    ensures
        count_avoiding(hands, c1, c2) == count_avoiding(hands, c2, c1),
        count_avoiding(hands, c1, c2) <= count_avoiding(hands, c1, c1),
        0 <= count_avoiding(hands, c1, c2) <= hands.len(),
        (forall|i: int| 0 <= i < hands.len() ==> !holds(#[trigger] hands[i], c1) && !holds(hands[i], c2))
            ==> count_avoiding(hands, c1, c2) == hands.len(),
        (forall|i: int| 0 <= i < hands.len() ==> holds(#[trigger] hands[i], c1)) ==> count_avoiding(
            hands,
            c1,
            c2,
        ) == 0,
    decreases hands.len(),
{
    if hands.len() > 0 {
        law_count_avoiding(hands.drop_last(), c1, c2);
        let h = hands.drop_last();
        assert forall|i: int| 0 <= i < h.len() implies #[trigger] h[i] == hands[i] by {}
        if forall|i: int| 0 <= i < hands.len() ==> !holds(#[trigger] hands[i], c1) && !holds(hands[i], c2) {
            assert(!holds(hands[hands.len() - 1], c1));
        }
        if forall|i: int| 0 <= i < hands.len() ==> holds(#[trigger] hands[i], c1) {
            assert(holds(hands[hands.len() - 1], c1));
        }
    }
}

/// A player's tables: the river tables with the 1326 vectors that hold them always, and the turn
/// tables with their 2 * 52 vectors only while the river is not dealt.
pub proof fn law_turn_tables_only_before_the_river(
    flop: [Card; 3],
    turn: Card,
    river: Card,
    iso_turn: Seq<Card>,
    iso_river: Seq<Seq<Card>>,
    hands: Seq<(Card, Card)>,
    opponent_len: int,
    sizes: LayoutSizes,
)
    ensures
        ({
            let rivers = 1326 * sizes.vec + river_tables(
                flop,
                turn,
                river,
                iso_turn,
                iso_river,
                hands,
                opponent_len,
                sizes,
                52,
            );
            let turns = 2 * 52 * sizes.vec + turn_tables(
                flop,
                turn,
                iso_turn,
                hands,
                opponent_len,
                sizes,
                52,
            );
            let m = player_memory(flop, turn, river, iso_turn, iso_river, hands, opponent_len, sizes);
            &&& river != NOT_DEALT ==> m == rivers
            &&& river == NOT_DEALT ==> m == rivers + turns
        }),
{
}

/// The flop tables (hand-pair combination counts and equity coefficients) are only estimated
/// on a flop board: with the turn dealt the estimate is 4 bytes, the hand-strength vectors with
/// the combination tables of the filled boards, and each player's turn and river tables; with
/// the turn open it adds `2 * (oop * ip * index) + 16 * oop * ip` bytes for the flop tables.
pub proof fn law_flop_tables_only_on_flop_boards(
    strength_filled: Seq<bool>,
    oop_hands: Seq<(Card, Card)>,
    ip_hands: Seq<(Card, Card)>,
    flop: [Card; 3],
    turn: Card,
    river: Card,
    iso_turn: Seq<Card>,
    iso_river: Seq<Seq<Card>>,
    sizes: LayoutSizes,
)
    ensures
        ({
            let oop = oop_hands.len() as int;
            let ip = ip_hands.len() as int;
            let rest = 4 + strength_filled.len() * sizes.vec_pair + 2 * (oop + ip) * count_filled(
                strength_filled,
            ) + player_memory(flop, turn, river, iso_turn, iso_river, oop_hands, ip, sizes)
                + player_memory(flop, turn, river, iso_turn, iso_river, ip_hands, oop, sizes);
            let estimate = bunching_memory(
                strength_filled,
                oop_hands,
                ip_hands,
                flop,
                turn,
                river,
                iso_turn,
                iso_river,
                sizes,
            );
            &&& turn != NOT_DEALT ==> estimate == rest
            &&& turn == NOT_DEALT ==> estimate == rest + 2 * (oop * ip * sizes.index) + 16 * (oop
                * ip)
        }),
{
}

} // verus!

verus! {

/// The lookup tables of the river isomorphism, one per turn suit, as sequences.
pub open spec fn iso_views(iso_river: [Vec<Card>; 4]) -> Seq<Seq<Card>> {
    Seq::new(4, |i: int| iso_river[i]@)
}

proof fn lemma_count_avoiding_bound(hands: Seq<(Card, Card)>, c1: Card, c2: Card)
    ensures
        0 <= count_avoiding(hands, c1, c2) <= hands.len(),
    decreases hands.len(),
{
    if hands.len() > 0 {
        lemma_count_avoiding_bound(hands.drop_last(), c1, c2);
    }
}

proof fn lemma_count_filled_bound(filled: Seq<bool>)
    ensures
        0 <= count_filled(filled) <= filled.len(),
    decreases filled.len(),
{
    if filled.len() > 0 {
        lemma_count_filled_bound(filled.drop_last());
    }
}

proof fn lemma_mul_bound(x: int, y: int, bx: int, by: int)
    by (nonlinear_arith)
    requires
        0 <= x <= bx,
        0 <= y <= by,
    ensures
        0 <= x * y <= bx * by,
{
}

/// The number of hands that hold neither `c1` nor `c2`.
fn count_avoiding_exec(hands: &Vec<(Card, Card)>, c1: Card, c2: Card) -> (r: u64)
    requires
        hands@.len() <= MAX_HANDS,
    ensures
        r == count_avoiding(hands@, c1, c2),
{
    let mut r: u64 = 0;
    let mut i: usize = 0;
    while i < hands.len()
        invariant
            i <= hands@.len() <= MAX_HANDS,
            r == count_avoiding(hands@.take(i as int), c1, c2),
            r <= i,
        decreases hands@.len() - i,
    {
        let hand = hands[i];
        proof {
            assert(hands@.take(i + 1).drop_last() =~= hands@.take(i as int));
            assert(hands@.take(i + 1).last() == hand);
        }
        if !(hand.0 == c1 || hand.1 == c1) && !(hand.0 == c2 || hand.1 == c2) {
            r = r + 1;
        }
        i = i + 1;
    }
    proof {
        assert(hands@.take(hands@.len() as int) =~= hands@);
    }
    r
}

/// Whether `cards` holds `card`.
pub(crate) fn contains_card(cards: &Vec<Card>, card: Card) -> (r: bool)
    ensures
        r == cards@.contains(card),
{
    let mut i: usize = 0;
    while i < cards.len()
        invariant
            i <= cards@.len(),
            forall|j: int| 0 <= j < i ==> cards@[j] != card,
        decreases cards@.len() - i,
    {
        if cards[i] == card {
            return true;
        }
        i = i + 1;
    }
    false
}

fn turn_possible_exec(flop: [Card; 3], turn: Card, iso_turn: &Vec<Card>, t: u8) -> (r: bool)
    requires
        t < 52,
    ensures
        r == turn_possible(flop, turn, iso_turn@, t as int),
{
    !(flop[0] == t || flop[1] == t || flop[2] == t) && !contains_card(iso_turn, t) && (turn
        == NOT_DEALT || turn == t)
}

fn board_possible_exec(
    flop: [Card; 3],
    turn: Card,
    river: Card,
    iso_turn: &Vec<Card>,
    iso_river: &[Vec<Card>; 4],
    t: u8,
    r: u8,
) -> (b: bool)
    requires
        t < 52,
        r < 52,
    ensures
        b == board_possible(flop, turn, river, iso_turn@, iso_views(*iso_river), t as int, r as int),
{
    let tp = turn_possible_exec(flop, turn, iso_turn, t);
    let on = flop[0] == r || flop[1] == r || flop[2] == r;
    let iso = contains_card(&iso_river[(t % 4) as usize], r);
    tp && !on && !iso && (river == NOT_DEALT || river == r)
}

proof fn lemma_mul_nonneg(x: int, y: int)
    by (nonlinear_arith)
    requires
        0 <= x,
        0 <= y,
    ensures
        0 <= x * y,
{
}

proof fn lemma_mul_le(x: int, y: int, z: int)
    by (nonlinear_arith)
    requires
        0 <= x <= y,
        0 <= z,
    ensures
        x * z <= y * z,
{
}

proof fn lemma_turn_tables_mono(
    flop: [Card; 3],
    turn: Card,
    iso_turn: Seq<Card>,
    hands: Seq<(Card, Card)>,
    opponent_len: int,
    sizes: LayoutSizes,
    t1: int,
    t2: int,
)
    requires
        0 <= opponent_len,
        0 <= t1 <= t2,
    ensures
        0 <= turn_tables(flop, turn, iso_turn, hands, opponent_len, sizes, t1) <= turn_tables(
            flop,
            turn,
            iso_turn,
            hands,
            opponent_len,
            sizes,
            t2,
        ),
    decreases t2,
{
    if t2 > 0 {
        if t1 < t2 {
            lemma_turn_tables_mono(flop, turn, iso_turn, hands, opponent_len, sizes, t1, t2 - 1);
        } else {
            lemma_turn_tables_mono(flop, turn, iso_turn, hands, opponent_len, sizes, 0, t2 - 1);
        }
        lemma_mul_nonneg(2 * hands.len() as int, sizes.index as int);
        lemma_count_avoiding_bound(hands, (t2 - 1) as Card, (t2 - 1) as Card);
        lemma_mul_nonneg(8 * opponent_len, count_avoiding(hands, (t2 - 1) as Card, (t2 - 1) as Card));
    }
}

proof fn lemma_river_row_mono(
    flop: [Card; 3],
    turn: Card,
    river: Card,
    iso_turn: Seq<Card>,
    iso_river: Seq<Seq<Card>>,
    hands: Seq<(Card, Card)>,
    opponent_len: int,
    sizes: LayoutSizes,
    b: int,
    k1: int,
    k2: int,
)
    requires
        0 <= opponent_len,
        0 <= k1 <= k2,
    ensures
        0 <= river_row(flop, turn, river, iso_turn, iso_river, hands, opponent_len, sizes, b, k1)
            <= river_row(flop, turn, river, iso_turn, iso_river, hands, opponent_len, sizes, b, k2),
    decreases k2,
{
    if k2 > 0 {
        if k1 < k2 {
            lemma_river_row_mono(flop, turn, river, iso_turn, iso_river, hands, opponent_len, sizes, b, k1, k2 - 1);
        } else {
            lemma_river_row_mono(flop, turn, river, iso_turn, iso_river, hands, opponent_len, sizes, b, 0, k2 - 1);
        }
        lemma_mul_nonneg(hands.len() as int, sizes.index as int);
        lemma_count_avoiding_bound(hands, (k2 - 1) as Card, b as Card);
        lemma_mul_nonneg(4 * opponent_len, count_avoiding(hands, (k2 - 1) as Card, b as Card));
    }
}

proof fn lemma_river_tables_mono(
    flop: [Card; 3],
    turn: Card,
    river: Card,
    iso_turn: Seq<Card>,
    iso_river: Seq<Seq<Card>>,
    hands: Seq<(Card, Card)>,
    opponent_len: int,
    sizes: LayoutSizes,
    b1: int,
    b2: int,
)
    requires
        0 <= opponent_len,
        0 <= b1 <= b2,
    ensures
        0 <= river_tables(flop, turn, river, iso_turn, iso_river, hands, opponent_len, sizes, b1)
            <= river_tables(flop, turn, river, iso_turn, iso_river, hands, opponent_len, sizes, b2),
    decreases b2,
{
    if b2 > 0 {
        if b1 < b2 {
            lemma_river_tables_mono(flop, turn, river, iso_turn, iso_river, hands, opponent_len, sizes, b1, b2 - 1);
        } else {
            lemma_river_tables_mono(flop, turn, river, iso_turn, iso_river, hands, opponent_len, sizes, 0, b2 - 1);
        }
        lemma_river_row_mono(flop, turn, river, iso_turn, iso_river, hands, opponent_len, sizes, b2 - 1, 0, b2 - 1);
    }
}

/// The turn and river tables of one player, with the vectors that hold them.
fn player_memory_exec(
    flop: [Card; 3],
    turn: Card,
    river: Card,
    iso_turn: &Vec<Card>,
    iso_river: &[Vec<Card>; 4],
    hands: &Vec<(Card, Card)>,
    opponent_len: usize,
    sizes: LayoutSizes,
) -> (r: u64)
    requires
        hands@.len() <= MAX_HANDS,
        opponent_len <= MAX_HANDS,
        player_memory(
            flop,
            turn,
            river,
            iso_turn@,
            iso_views(*iso_river),
            hands@,
            opponent_len as int,
            sizes,
        ) <= u64::MAX,
    ensures
        r == player_memory(
            flop,
            turn,
            river,
            iso_turn@,
            iso_views(*iso_river),
            hands@,
            opponent_len as int,
            sizes,
        ),
{
    let ghost iso_r = iso_views(*iso_river);
    let ghost total = player_memory(flop, turn, river, iso_turn@, iso_r, hands@, opponent_len as int, sizes);
    let ghost turn_all = turn_tables(flop, turn, iso_turn@, hands@, opponent_len as int, sizes, 52);
    let ghost river_all = river_tables(flop, turn, river, iso_turn@, iso_r, hands@, opponent_len as int, sizes, 52);
    let player_len = hands.len() as u64;
    let ol = opponent_len as u64;
    proof {
        lemma_turn_tables_mono(flop, turn, iso_turn@, hands@, opponent_len as int, sizes, 0, 52);
        lemma_river_tables_mono(flop, turn, river, iso_turn@, iso_r, hands@, opponent_len as int, sizes, 0, 52);
    }
    let mut turn_part: u64 = 0;
    if river == NOT_DEALT {
        turn_part = 2 * 52 * sizes.vec;
        let mut t: u8 = 0;
        while t < 52
            invariant
                t <= 52,
                player_len == hands@.len() <= MAX_HANDS,
                ol == opponent_len <= MAX_HANDS,
                turn_all == turn_tables(flop, turn, iso_turn@, hands@, opponent_len as int, sizes, 52),
                2 * 52 * sizes.vec + turn_all <= u64::MAX,
                turn_part == 2 * 52 * sizes.vec + turn_tables(
                    flop,
                    turn,
                    iso_turn@,
                    hands@,
                    opponent_len as int,
                    sizes,
                    t as int,
                ),
            decreases 52 - t,
        {
            if turn_possible_exec(flop, turn, iso_turn, t) {
                let c = count_avoiding_exec(hands, t, t);
                proof {
                    lemma_count_avoiding_bound(hands@, t, t);
                    lemma_turn_tables_mono(flop, turn, iso_turn@, hands@, opponent_len as int, sizes, t + 1, 52);
                    lemma_mul_nonneg(2 * player_len, sizes.index as int);
                    lemma_mul_nonneg(8 * ol, c as int);
                }
                turn_part = turn_part + 2 * player_len * sizes.index + 8 * ol * c;
            }
            t = t + 1;
        }
    }
    let mut river_part: u64 = 1326 * sizes.vec;
    let mut b: u8 = 0;
    while b < 52
        invariant
            b <= 52,
            player_len == hands@.len() <= MAX_HANDS,
            ol == opponent_len <= MAX_HANDS,
            iso_r == iso_views(*iso_river),
            river_all == river_tables(flop, turn, river, iso_turn@, iso_r, hands@, opponent_len as int, sizes, 52),
            1326 * sizes.vec + river_all <= u64::MAX,
            river_part == 1326 * sizes.vec + river_tables(
                flop,
                turn,
                river,
                iso_turn@,
                iso_r,
                hands@,
                opponent_len as int,
                sizes,
                b as int,
            ),
        decreases 52 - b,
    {
        let mut k: u8 = 0;
        let ghost before = river_part;
        proof {
            lemma_river_tables_mono(flop, turn, river, iso_turn@, iso_r, hands@, opponent_len as int, sizes, b + 1, 52);
        }
        while k < b
            invariant
                k <= b < 52,
                player_len == hands@.len() <= MAX_HANDS,
                ol == opponent_len <= MAX_HANDS,
                iso_r == iso_views(*iso_river),
                before + river_row(flop, turn, river, iso_turn@, iso_r, hands@, opponent_len as int, sizes, b as int, b as int) <= u64::MAX,
                river_part == before + river_row(
                    flop,
                    turn,
                    river,
                    iso_turn@,
                    iso_r,
                    hands@,
                    opponent_len as int,
                    sizes,
                    b as int,
                    k as int,
                ),
            decreases b - k,
        {
            if board_possible_exec(flop, turn, river, iso_turn, iso_river, k, b)
                || board_possible_exec(flop, turn, river, iso_turn, iso_river, b, k) {
                let c = count_avoiding_exec(hands, k, b);
                proof {
                    lemma_count_avoiding_bound(hands@, k, b);
                    lemma_river_row_mono(flop, turn, river, iso_turn@, iso_r, hands@, opponent_len as int, sizes, b as int, k + 1, b as int);
                    lemma_mul_nonneg(player_len as int, sizes.index as int);
                    lemma_mul_nonneg(4 * ol, c as int);
                }
                river_part = river_part + player_len * sizes.index + 4 * ol * c;
            }
            k = k + 1;
        }
        b = b + 1;
    }
    turn_part + river_part
}

/// The estimated additional memory in bytes that the bunching effect needs, given which boards
/// have hand strengths filled, both players' private hands, the board, the isomorphic turn
/// cards, the isomorphic river cards per turn suit, and the machine's container sizes.
pub fn memory_usage_bunching(
    strength_filled: &Vec<bool>,
    oop_hands: &Vec<(Card, Card)>,
    ip_hands: &Vec<(Card, Card)>,
    flop: [Card; 3],
    turn: Card,
    river: Card,
    iso_turn: &Vec<Card>,
    iso_river: &[Vec<Card>; 4],
    sizes: LayoutSizes,
) -> (r: u64)
    requires
        oop_hands@.len() <= MAX_HANDS,
        ip_hands@.len() <= MAX_HANDS,
        bunching_memory(
            strength_filled@,
            oop_hands@,
            ip_hands@,
            flop,
            turn,
            river,
            iso_turn@,
            iso_views(*iso_river),
            sizes,
        ) <= u64::MAX,
    ensures
        r == bunching_memory(
            strength_filled@,
            oop_hands@,
            ip_hands@,
            flop,
            turn,
            river,
            iso_turn@,
            iso_views(*iso_river),
            sizes,
        ),
{
    let ghost iso_r = iso_views(*iso_river);
    let oop_len = oop_hands.len() as u64;
    let ip_len = ip_hands.len() as u64;
    let ghost n = strength_filled@.len() as int;
    let ghost oop_mem = player_memory(flop, turn, river, iso_turn@, iso_r, oop_hands@, ip_len as int, sizes);
    let ghost ip_mem = player_memory(flop, turn, river, iso_turn@, iso_r, ip_hands@, oop_len as int, sizes);
    let ghost turn_term = if turn == NOT_DEALT {
        2 * (oop_len * ip_len * sizes.index) + 2 * 2 * 4 * (oop_len * ip_len)
    } else {
        0
    };
    proof {
        lemma_turn_tables_mono(flop, turn, iso_turn@, oop_hands@, ip_len as int, sizes, 0, 52);
        lemma_river_tables_mono(flop, turn, river, iso_turn@, iso_r, oop_hands@, ip_len as int, sizes, 0, 52);
        lemma_turn_tables_mono(flop, turn, iso_turn@, ip_hands@, oop_len as int, sizes, 0, 52);
        lemma_river_tables_mono(flop, turn, river, iso_turn@, iso_r, ip_hands@, oop_len as int, sizes, 0, 52);
        lemma_mul_nonneg(52, sizes.vec as int);
        lemma_mul_nonneg(n, sizes.vec_pair as int);
        lemma_count_filled_bound(strength_filled@);
        lemma_mul_nonneg(2 * (oop_len + ip_len), count_filled(strength_filled@));
        lemma_mul_bound(oop_len as int, ip_len as int, MAX_HANDS as int, MAX_HANDS as int);
        lemma_mul_nonneg(oop_len * ip_len, sizes.index as int);
    }
    let mut strength: u64 = 0;
    let mut filled: u64 = 0;
    let mut i: usize = 0;
    while i < strength_filled.len()
        invariant
            i <= strength_filled@.len() == n,
            n * sizes.vec_pair <= u64::MAX,
            strength == i * sizes.vec_pair,
            filled == count_filled(strength_filled@.take(i as int)),
            filled <= i,
        decreases strength_filled@.len() - i,
    {
        proof {
            assert(strength_filled@.take(i + 1).drop_last() =~= strength_filled@.take(i as int));
            assert((i + 1) * sizes.vec_pair == i * sizes.vec_pair + sizes.vec_pair) by (nonlinear_arith);
            lemma_mul_le(i + 1, n, sizes.vec_pair as int);
        }
        strength = strength + sizes.vec_pair;
        if strength_filled[i] {
            filled = filled + 1;
        }
        i = i + 1;
    }
    proof {
        assert(strength_filled@.take(strength_filled@.len() as int) =~= strength_filled@);
    }
    let mut ret: u64 = 4 + strength + 2 * (oop_len + ip_len) * filled;
    if turn == NOT_DEALT {
        ret = ret + 2 * (oop_len * ip_len * sizes.index) + 2 * 2 * 4 * (oop_len * ip_len);
    }
    let oop_part = player_memory_exec(flop, turn, river, iso_turn, iso_river, oop_hands, ip_hands.len(), sizes);
    let ip_part = player_memory_exec(flop, turn, river, iso_turn, iso_river, ip_hands, oop_hands.len(), sizes);
    ret + oop_part + ip_part
}

} // verus!
