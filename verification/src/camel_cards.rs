//! Hands of five cards, their types, and the winnings of ranked players.

use crate::text::{ascii_bytes, chars_of, i64_of, parse_i64};
use vstd::prelude::*;

verus! {

/// A card, by its strength: 2 to 14, and 1 for a joker.
#[derive(PartialEq, Eq, Hash, Debug, Copy, Clone)]
pub struct Card(pub i32);

/// The type of a hand, strongest first.
#[derive(PartialEq, Eq, Debug, Copy, Clone)]
pub enum HandResult {
    Five,
    Four,
    FullHouse,
    Three,
    TwoPairs,
    Pair,
    HighCard,
}

/// A hand with its type and the bid placed on it.
#[derive(Debug, PartialEq, Eq)]
pub struct Player {
    pub hand: HandResult,
    pub cards: [Card; 5],
    pub bid: i32,
}

/// The strength that a label stands for, or 0 for a character that is no
/// label. Lower-case `j` is the joker.
pub open spec fn label_strength(c: char) -> int {
    if c == 'A' {
        14
    } else if c == 'K' {
        13
    } else if c == 'Q' {
        12
    } else if c == 'J' {
        11
    } else if c == 'j' {
        1
    } else if c == 'T' {
        10
    } else if '0' <= c <= '9' {
        c as int - 48
    } else {
        0
    }
}

/// `c` is a letter label or a decimal digit.
pub open spec fn is_label(c: char) -> bool {
    c == 'A' || c == 'K' || c == 'Q' || c == 'J' || c == 'j' || c == 'T' || '0' <= c <= '9'
}

/// Number of cards of strength `v` among the first `k`.
pub open spec fn count_upto(cards: Seq<Card>, v: int, k: int) -> int
    decreases k,
{
    if k <= 0 {
        0
    } else {
        count_upto(cards, v, k - 1) + if cards[k - 1].0 == v {
            1int
        } else {
            0int
        }
    }
}

/// The card at `i` has the strength of an earlier card.
pub open spec fn seen_before(cards: Seq<Card>, i: int) -> bool {
    exists|j: int| 0 <= j < i && (#[trigger] cards[j]).0 == cards[i].0
}

/// Number of different strengths, jokers aside, among the first `k` cards.
pub open spec fn kinds_upto(cards: Seq<Card>, k: int) -> int
    decreases k,
{
    if k <= 0 {
        0
    } else {
        kinds_upto(cards, k - 1) + if cards[k - 1].0 != 1 && !seen_before(cards, k - 1) {
            1int
        } else {
            0int
        }
    }
}

/// How often the card at `i` occurs in the hand; 0 for a joker.
pub open spec fn group_size(cards: Seq<Card>, i: int) -> int {
    if cards[i].0 == 1 {
        0
    } else {
        count_upto(cards, cards[i].0 as int, cards.len() as int)
    }
}

/// Size of the largest group of equal cards, jokers aside, that a card
/// among the first `k` belongs to.
pub open spec fn top_upto(cards: Seq<Card>, k: int) -> int
    decreases k,
{
    if k <= 0 {
        0
    } else if top_upto(cards, k - 1) >= group_size(cards, k - 1) {
        top_upto(cards, k - 1)
    } else {
        group_size(cards, k - 1)
    }
}

/// The type of a hand whose largest group, jokers added, has `top` cards and
/// which shows `kinds` different strengths.
pub open spec fn classify(top: int, kinds: int) -> HandResult {
    if top == 5 {
        HandResult::Five
    } else if top == 4 {
        HandResult::Four
    } else if top == 3 {
        if kinds == 2 {
            HandResult::FullHouse
        } else {
            HandResult::Three
        }
    } else if top == 2 {
        if kinds == 3 {
            HandResult::TwoPairs
        } else {
            HandResult::Pair
        }
    } else {
        HandResult::HighCard
    }
}

/// 1 if the card has strength `v`, else 0.
pub open spec fn one_if(c: Card, v: int) -> int {
    if c.0 == v {
        1
    } else {
        0
    }
}

/// Number of cards of strength `v` in a hand of five.
pub open spec fn copies(cards: Seq<Card>, v: int) -> int {
    one_if(cards[0], v) + one_if(cards[1], v) + one_if(cards[2], v) + one_if(cards[3], v) + one_if(
        cards[4],
        v,
    )
}

/// Size of the group of equal cards that the card at `i` belongs to; 0 for a
/// joker.
pub open spec fn group_of(cards: Seq<Card>, i: int) -> int {
    if cards[i].0 == 1 {
        0
    } else {
        copies(cards, cards[i].0 as int)
    }
}

pub open spec fn max2(a: int, b: int) -> int {
    if a >= b {
        a
    } else {
        b
    }
}

/// Size of the largest group of equal cards, jokers aside.
pub open spec fn largest_group(cards: Seq<Card>) -> int {
    max2(
        max2(max2(max2(group_of(cards, 0), group_of(cards, 1)), group_of(cards, 2)), group_of(cards, 3)),
        group_of(cards, 4),
    )
}

/// The card at `j` does not stand before `i` with the same strength.
pub open spec fn differs(cards: Seq<Card>, i: int, j: int) -> bool {
    j >= i || cards[j].0 != cards[i].0
}

/// 1 if the card at `i` is no joker and the first of its strength, else 0.
pub open spec fn new_kind(cards: Seq<Card>, i: int) -> int {
    if cards[i].0 != 1 && differs(cards, i, 0) && differs(cards, i, 1) && differs(cards, i, 2)
        && differs(cards, i, 3) {
        1
    } else {
        0
    }
}

/// Number of different strengths in the hand, jokers aside.
pub open spec fn kinds(cards: Seq<Card>) -> int {
    new_kind(cards, 0) + new_kind(cards, 1) + new_kind(cards, 2) + new_kind(cards, 3) + new_kind(
        cards,
        4,
    )
}

/// The type of a hand of five. Jokers join the largest group of other
/// cards, which is the strongest type that the jokers can make; a hand of
/// jokers alone is five of a kind.
pub open spec fn best_hand(cards: Seq<Card>) -> HandResult {
    let jokers = copies(cards, 1);
    if jokers == 5 {
        HandResult::Five
    } else {
        classify(largest_group(cards) + jokers, kinds(cards))
    }
}

proof fn lemma_counts_of_five(cards: Seq<Card>)
    requires
        cards.len() == 5,
    ensures
        forall|v: int| #[trigger] count_upto(cards, v, 5) == copies(cards, v),
        top_upto(cards, 5) == largest_group(cards),
        kinds_upto(cards, 5) == kinds(cards),
{
    reveal_with_fuel(count_upto, 6);
    reveal_with_fuel(top_upto, 6);
    reveal_with_fuel(kinds_upto, 6);
    assert forall|i: int| 0 <= i < 5 implies (#[trigger] seen_before(cards, i) == !(differs(
        cards,
        i,
        0,
    ) && differs(cards, i, 1) && differs(cards, i, 2) && differs(cards, i, 3))) by {
        if seen_before(cards, i) {
            let j = choose|j: int| 0 <= j < i && (#[trigger] cards[j]).0 == cards[i].0;
            assert(!differs(cards, i, j));
        } else {
            assert forall|j: int| 0 <= j < i implies differs(cards, i, j) by {
                assert(cards[j].0 != cards[i].0);
            }
        }
    }
    assert(seen_before(cards, 0) == !(differs(cards, 0, 0) && differs(cards, 0, 1) && differs(
        cards,
        0,
        2,
    ) && differs(cards, 0, 3)));
    assert(seen_before(cards, 1) == !(differs(cards, 1, 0) && differs(cards, 1, 1) && differs(
        cards,
        1,
        2,
    ) && differs(cards, 1, 3)));
    assert(seen_before(cards, 2) == !(differs(cards, 2, 0) && differs(cards, 2, 1) && differs(
        cards,
        2,
        2,
    ) && differs(cards, 2, 3)));
    assert(seen_before(cards, 3) == !(differs(cards, 3, 0) && differs(cards, 3, 1) && differs(
        cards,
        3,
        2,
    ) && differs(cards, 3, 3)));
    assert(seen_before(cards, 4) == !(differs(cards, 4, 0) && differs(cards, 4, 1) && differs(
        cards,
        4,
        2,
    ) && differs(cards, 4, 3)));
}

/// 0 for the strongest type, 6 for the weakest.
pub open spec fn hand_rank(h: HandResult) -> int {
    match h {
        HandResult::Five => 0,
        HandResult::Four => 1,
        HandResult::FullHouse => 2,
        HandResult::Three => 3,
        HandResult::TwoPairs => 4,
        HandResult::Pair => 5,
        HandResult::HighCard => 6,
    }
}

/// The two hands hold the same cards in the same order.
pub open spec fn same_cards(a: Seq<Card>, b: Seq<Card>) -> bool {
    forall|i: int| 0 <= i < 5 ==> (#[trigger] a[i]).0 == b[i].0
}

/// `a` wins against `b` on cards alone: at the first place where they
/// differ, `a` has the stronger card.
pub open spec fn cards_beat(a: Seq<Card>, b: Seq<Card>) -> bool {
    exists|i: int|
        0 <= i < 5 && (#[trigger] a[i]).0 > b[i].0 && forall|j: int|
            0 <= j < i ==> (#[trigger] a[j]).0 == b[j].0
}

/// `a` is the stronger player: the stronger type, or the same type and the
/// stronger cards.
pub open spec fn beats(a: Player, b: Player) -> bool {
    hand_rank(a.hand) < hand_rank(b.hand) || (hand_rank(a.hand) == hand_rank(b.hand)
        && cards_beat(a.cards@, b.cards@))
}

/// The two players tie: same type, same cards.
pub open spec fn ties(a: Player, b: Player) -> bool {
    hand_rank(a.hand) == hand_rank(b.hand) && same_cards(a.cards@, b.cards@)
}

/// Number of players among the first `k` that `players[i]` beats.
pub open spec fn beaten_upto(players: Seq<Player>, i: int, k: int) -> int
    decreases k,
{
    if k <= 0 {
        0
    } else {
        beaten_upto(players, i, k - 1) + if beats(players[i], players[k - 1]) {
            1int
        } else {
            0int
        }
    }
}

/// The rank of `players[i]`: 1 for the weakest player, and one more for
/// every player it beats.
pub open spec fn rank_of(players: Seq<Player>, i: int) -> int {
    1 + beaten_upto(players, i, players.len() as int)
}

/// Sum of bid times rank over the first `k` players.
pub open spec fn winnings_upto(players: Seq<Player>, k: int) -> int
    decreases k,
{
    if k <= 0 {
        0
    } else {
        winnings_upto(players, k - 1) + players[k - 1].bid * rank_of(players, k - 1)
    }
}

/// Sum of the size of bid times rank over the first `k` players.
pub open spec fn stakes_upto(players: Seq<Player>, k: int) -> int
    decreases k,
{
    if k <= 0 {
        0
    } else {
        stakes_upto(players, k - 1) + if players[k - 1].bid >= 0 {
            players[k - 1].bid * rank_of(players, k - 1)
        } else {
            -(players[k - 1].bid * rank_of(players, k - 1))
        }
    }
}

proof fn lemma_beaten_bounds(players: Seq<Player>, i: int, k: int)
    requires
        0 <= k,
    ensures
        0 <= beaten_upto(players, i, k) <= k,
    decreases k,
{
    if k > 0 {
        lemma_beaten_bounds(players, i, k - 1);
    }
}

proof fn lemma_stakes(players: Seq<Player>, j: int, k: int)
    requires
        0 <= j <= k,
    ensures
        0 <= stakes_upto(players, j) <= stakes_upto(players, k),
        -stakes_upto(players, j) <= winnings_upto(players, j) <= stakes_upto(players, j),
    decreases k + j,
{
    if j > 0 {
        lemma_stakes(players, j - 1, j - 1);
        lemma_beaten_bounds(players, j - 1, players.len() as int);
        let b = players[j - 1].bid as int;
        let r = rank_of(players, j - 1);
        assert(b >= 0 ==> b * r >= 0) by (nonlinear_arith)
            requires
                r >= 1,
        ;
        assert(b < 0 ==> b * r <= 0) by (nonlinear_arith)
            requires
                r >= 1,
        ;
    }
    if j < k {
        lemma_stakes(players, j, k - 1);
        lemma_beaten_bounds(players, k - 1, players.len() as int);
        let b = players[k - 1].bid as int;
        let r = rank_of(players, k - 1);
        assert(b >= 0 ==> b * r >= 0) by (nonlinear_arith)
            requires
                r >= 1,
        ;
        assert(b < 0 ==> b * r <= 0) by (nonlinear_arith)
            requires
                r >= 1,
        ;
    }
}

impl Card {
    /// The card that a label stands for.
    pub fn from(c: char) -> (card: Card)
        requires
            is_label(c),
        ensures
            card.0 == label_strength(c),
    {
        if c == 'A' {
            Card(14)
        } else if c == 'K' {
            Card(13)
        } else if c == 'Q' {
            Card(12)
        } else if c == 'J' {
            Card(11)
        } else if c == 'j' {
            Card(1)
        } else if c == 'T' {
            Card(10)
        } else {
            let code = c as u32;
            Card((code - 48) as i32)
        }
    }
}

fn count_cards(cards: &[Card; 5], v: i32) -> (n: usize)
    ensures
        n == count_upto(cards@, v as int, 5),
        n <= 5,
{
    let mut n: usize = 0;
    let mut k: usize = 0;
    while k < 5
        invariant
            k <= 5,
            n == count_upto(cards@, v as int, k as int),
            n <= k,
        decreases 5 - k,
    {
        if cards[k].0 == v {
            n += 1;
        }
        k += 1;
    }
    n
}

fn is_repeat(cards: &[Card; 5], i: usize) -> (b: bool)
    requires
        i < 5,
    ensures
        b == seen_before(cards@, i as int),
{
    let mut j: usize = 0;
    while j < i
        invariant
            j <= i < 5,
            forall|k: int| 0 <= k < j ==> (#[trigger] cards@[k]).0 != cards@[i as int].0,
        decreases i - j,
    {
        if cards[j].0 == cards[i].0 {
            return true;
        }
        j += 1;
    }
    false
}

/// The type of a hand of five cards.
pub fn hand_of(cards: [Card; 5]) -> (h: HandResult)
    ensures
        h == best_hand(cards@),
{
    proof {
        lemma_counts_of_five(cards@);
    }
    let jokers = count_cards(&cards, 1);
    if jokers == 5 {
        return HandResult::Five;
    }
    let mut top: usize = 0;
    let mut kinds: usize = 0;
    let mut k: usize = 0;
    while k < 5
        invariant
            k <= 5,
            top == top_upto(cards@, k as int),
            kinds == kinds_upto(cards@, k as int),
            top <= 5,
            kinds <= k,
        decreases 5 - k,
    {
        if cards[k].0 != 1 {
            let size = count_cards(&cards, cards[k].0);
            if size > top {
                top = size;
            }
            if !is_repeat(&cards, k) {
                kinds += 1;
            }
        }
        k += 1;
    }
    let best = top + jokers;
    if best == 5 {
        HandResult::Five
    } else if best == 4 {
        HandResult::Four
    } else if best == 3 {
        if kinds == 2 {
            HandResult::FullHouse
        } else {
            HandResult::Three
        }
    } else if best == 2 {
        if kinds == 3 {
            HandResult::TwoPairs
        } else {
            HandResult::Pair
        }
    } else {
        HandResult::HighCard
    }
}

impl HandResult {
    /// The type of a hand of five cards.
    pub fn from(cards: [Card; 5]) -> (h: HandResult)
        ensures
            h == best_hand(cards@),
    {
        hand_of(cards)
    }

    /// 0 for the strongest type, 6 for the weakest.
    pub fn rank(&self) -> (r: u8)
        ensures
            r == hand_rank(*self),
    {
        match self {
            HandResult::Five => 0,
            HandResult::Four => 1,
            HandResult::FullHouse => 2,
            HandResult::Three => 3,
            HandResult::TwoPairs => 4,
            HandResult::Pair => 5,
            HandResult::HighCard => 6,
        }
    }
}

/// Whether `a` is the stronger of the two players.
pub fn player_beats(a: &Player, b: &Player) -> (r: bool)
    ensures
        r == beats(*a, *b),
{
    let ra = a.hand.rank();
    let rb = b.hand.rank();
    if ra != rb {
        return ra < rb;
    }
    let mut i: usize = 0;
    while i < 5
        invariant
            i <= 5,
            ra == rb,
            ra == hand_rank(a.hand),
            rb == hand_rank(b.hand),
            forall|j: int| 0 <= j < i ==> (#[trigger] a.cards@[j]).0 == b.cards@[j].0,
        decreases 5 - i,
    {
        if a.cards[i].0 != b.cards[i].0 {
            let wins = a.cards[i].0 > b.cards[i].0;
            proof {
                if !wins && cards_beat(a.cards@, b.cards@) {
                    let w = choose|w: int|
                        0 <= w < 5 && (#[trigger] a.cards@[w]).0 > b.cards@[w].0 && forall|j: int|
                            0 <= j < w ==> (#[trigger] a.cards@[j]).0 == b.cards@[j].0;
                    assert(w == i);
                }
            }
            return wins;
        }
        i += 1;
    }
    proof {
        if cards_beat(a.cards@, b.cards@) {
            let w = choose|w: int|
                0 <= w < 5 && (#[trigger] a.cards@[w]).0 > b.cards@[w].0 && forall|j: int|
                    0 <= j < w ==> (#[trigger] a.cards@[j]).0 == b.cards@[j].0;
            assert(a.cards@[w].0 == b.cards@[w].0);
        }
    }
    false
}

/// The total winnings: every player's bid times the player's rank, where
/// the weakest player has rank 1 and every beaten player adds one.
pub fn calculate_winnings(players: &[Player]) -> (w: i32)
    requires
        forall|i: int, j: int|
            0 <= i < j < players@.len() ==> !ties(#[trigger] players@[i], #[trigger] players@[j]),
        stakes_upto(players@, players@.len() as int) <= i32::MAX,
    ensures
        w == winnings_upto(players@, players@.len() as int),
{
    let n = players.len();
    let mut total: i128 = 0;
    let mut i: usize = 0;
    while i < n
        invariant
            i <= n,
            n == players@.len(),
            stakes_upto(players@, n as int) <= i32::MAX,
            total == winnings_upto(players@, i as int),
        decreases n - i,
    {
        let mut beaten: usize = 0;
        let mut k: usize = 0;
        while k < n
            invariant
                k <= n,
                i < n,
                n == players@.len(),
                beaten == beaten_upto(players@, i as int, k as int),
                beaten <= k,
            decreases n - k,
        {
            if player_beats(&players[i], &players[k]) {
                beaten += 1;
            }
            k += 1;
        }
        proof {
            lemma_stakes(players@, i as int, n as int);
            lemma_stakes(players@, i + 1, n as int);
            let b = players@[i as int].bid as int;
            let r = rank_of(players@, i as int);
            assert(r == beaten + 1);
            assert(-i32::MAX <= b * r <= i32::MAX);
        }
        let rank: i128 = beaten as i128 + 1;
        let bid: i128 = players[i].bid as i128;
        assert(-i32::MAX <= bid * rank <= i32::MAX);
        total = total + bid * rank;
        i += 1;
    }
    proof {
        lemma_stakes(players@, n as int, n as int);
    }
    total as i32
}

/// The strength of the card that a label stands for; with `jokers`, a `J`
/// is a joker.
pub open spec fn card_strength(c: char, jokers: bool) -> int {
    if jokers && c == 'J' {
        1
    } else {
        label_strength(c)
    }
}

/// The line is a hand and a bid: five labels, one space, and a decimal
/// `i32`.
pub open spec fn is_player_line(line: Seq<char>) -> bool {
    &&& line.len() >= 6
    &&& line[5] == ' '
    &&& forall|i: int| 0 <= i < 5 ==> is_label(#[trigger] line[i])
    &&& forall|i: int| 6 <= i < line.len() ==> (#[trigger] line[i]) as u32 <= 127
    &&& i64_of(ascii_bytes(line.skip(6))) matches Some(bid)
    &&& i32::MIN <= bid <= i32::MAX
}

/// `p` is the player that the line describes.
pub open spec fn describes(p: Player, line: Seq<char>, jokers: bool) -> bool {
    &&& forall|i: int| 0 <= i < 5 ==> (#[trigger] p.cards@[i]).0 == card_strength(line[i], jokers)
    &&& p.hand == best_hand(p.cards@)
    &&& Some(p.bid as i64) == i64_of(ascii_bytes(line.skip(6)))
}

fn card_at(line: &Vec<char>, i: usize, jokers: bool) -> (c: Card)
    requires
        i < line@.len(),
        is_label(line@[i as int]),
    ensures
        c.0 == card_strength(line@[i as int], jokers),
{
    if jokers && line[i] == 'J' {
        Card(1)
    } else {
        Card::from(line[i])
    }
}

/// Reads one player from a line such as `32T3K 765`.
pub fn read_player(line: &Vec<char>, jokers: bool) -> (p: Player)
    requires
        is_player_line(line@),
    ensures
        describes(p, line@, jokers),
{
    let cards = [
        card_at(line, 0, jokers),
        card_at(line, 1, jokers),
        card_at(line, 2, jokers),
        card_at(line, 3, jokers),
        card_at(line, 4, jokers),
    ];
    let mut digits: Vec<u8> = Vec::new();
    let mut i: usize = 6;
    while i < line.len()
        invariant
            6 <= i <= line@.len(),
            forall|k: int| 6 <= k < line@.len() ==> (#[trigger] line@[k]) as u32 <= 127,
            digits@.len() == i - 6,
            forall|k: int| 0 <= k < i - 6 ==> #[trigger] digits@[k] == (line@[k + 6] as u32) as u8,
        decreases line@.len() - i,
    {
        let code = line[i] as u32;
        assert(line@[i as int] as u32 <= 127);
        digits.push(code as u8);
        i += 1;
    }
    assert(digits@ =~= ascii_bytes(line@.skip(6)));
    let bid = parse_i64(digits.as_slice());
    let bid = bid.unwrap();
    Player { hand: hand_of(cards), cards, bid: bid as i32 }
}

/// Reads the players, one from each line; with `jokers`, every `J` is a
/// joker.
pub fn read_input(input: &[String], jokers: bool) -> (players: Vec<Player>)
    requires
        forall|i: int| 0 <= i < input@.len() ==> is_player_line(#[trigger] input@[i]@),
    ensures
        players@.len() == input@.len(),
        forall|i: int|
            0 <= i < players@.len() ==> describes(#[trigger] players@[i], input@[i]@, jokers),
{
    let mut players: Vec<Player> = Vec::new();
    let mut i: usize = 0;
    while i < input.len()
        invariant
            i <= input@.len(),
            forall|k: int| 0 <= k < input@.len() ==> is_player_line(#[trigger] input@[k]@),
            players@.len() == i,
            forall|k: int| 0 <= k < i ==> describes(#[trigger] players@[k], input@[k]@, jokers),
        decreases input@.len() - i,
    {
        let line = chars_of(input[i].as_str());
        players.push(read_player(&line, jokers));
        i += 1;
    }
    players
}

} // verus!
