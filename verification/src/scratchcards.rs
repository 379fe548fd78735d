//! Scratchcards: the points that the winning numbers on a card are worth.

use vstd::prelude::*;

verus! {

/// A card: its number, the winning numbers and the numbers one has.
#[derive(Debug)]
pub struct Card {
    pub id: i32,
    pub winning: Vec<i32>,
    pub have: Vec<i32>,
}

/// Number of entries among the first `k` of `have` that occur in `winning`.
pub open spec fn matches_upto(winning: Seq<i32>, have: Seq<i32>, k: int) -> int
    decreases k,
{
    if k <= 0 {
        0
    } else {
        matches_upto(winning, have, k - 1) + if winning.contains(have[k - 1]) {
            1int
        } else {
            0int
        }
    }
}

/// Number of the numbers one has that are winning numbers.
pub open spec fn matches(card: Card) -> int {
    matches_upto(card.winning@, card.have@, card.have@.len() as int)
}

/// Two to the power `e`.
pub open spec fn pow2(e: int) -> int
    decreases e,
{
    if e <= 0 {
        1
    } else {
        2 * pow2(e - 1)
    }
}

/// What `m` matches are worth: nothing for none, 1 for one, and double for
/// every further one.
pub open spec fn points(m: int) -> int {
    if m <= 0 {
        0
    } else {
        pow2(m - 1)
    }
}

/// Sum of the points of the first `k` cards.
pub open spec fn points_sum(cards: Seq<Card>, k: int) -> int
    decreases k,
{
    if k <= 0 {
        0
    } else {
        points_sum(cards, k - 1) + points(matches(cards[k - 1]))
    }
}

/// No card has more than 31 matches and every running sum is an `i32`.
pub open spec fn points_fit(cards: Seq<Card>, k: int) -> bool
    decreases k,
{
    k <= 0 || (points_fit(cards, k - 1) && matches(cards[k - 1]) <= 31 && points_sum(cards, k)
        <= i32::MAX)
}

proof fn lemma_points_prefix(cards: Seq<Card>, k: int, n: int)
    requires
        0 <= k <= n,
        points_fit(cards, n),
    ensures
        points_fit(cards, k),
        0 <= points_sum(cards, k),
    decreases n - k,
{
    if k < n {
        lemma_points_prefix(cards, k, n - 1);
    } else {
        lemma_points_sign(cards, k);
    }
}

proof fn lemma_points_sign(cards: Seq<Card>, k: int)
    ensures
        0 <= points_sum(cards, k),
    decreases k,
{
    if k > 0 {
        lemma_points_sign(cards, k - 1);
        lemma_pow2_positive(matches(cards[k - 1]) - 1);
    }
}

proof fn lemma_pow2_positive(e: int)
    ensures
        pow2(e) >= 1,
    decreases e,
{
    if e > 0 {
        lemma_pow2_positive(e - 1);
    }
}

proof fn lemma_pow2_monotone(a: int, b: int)
    requires
        a <= b,
    ensures
        pow2(a) <= pow2(b),
    decreases b - a,
{
    lemma_pow2_positive(a);
    if a < b {
        lemma_pow2_monotone(a, b - 1);
        lemma_pow2_positive(b - 1);
    }
}

fn is_winning(winning: &Vec<i32>, number: i32) -> (b: bool)
    ensures
        b == winning@.contains(number),
{
    let mut i: usize = 0;
    while i < winning.len()
        invariant
            i <= winning@.len(),
            forall|j: int| 0 <= j < i ==> winning@[j] != number,
        decreases winning@.len() - i,
    {
        if winning[i] == number {
            return true;
        }
        i += 1;
    }
    false
}

/// Number of the numbers one has that are winning numbers.
pub fn count_matches(card: &Card) -> (m: usize)
    ensures
        m == matches(*card),
{
    let mut m: usize = 0;
    let mut k: usize = 0;
    while k < card.have.len()
        invariant
            k <= card.have@.len(),
            m == matches_upto(card.winning@, card.have@, k as int),
            m <= k,
        decreases card.have@.len() - k,
    {
        if is_winning(&card.winning, card.have[k]) {
            m += 1;
        }
        k += 1;
    }
    m
}

/// The points that `m` matches are worth.
pub fn points_for(m: usize) -> (p: i32)
    requires
        m <= 31,
    ensures
        p == points(m as int),
{
    if m == 0 {
        return 0;
    }
    let mut p: i32 = 1;
    let mut e: usize = 1;
    proof {
        lemma_pow2_bound();
    }
    while e < m
        invariant
            1 <= e <= m <= 31,
            p == pow2(e - 1),
            pow2(30) == 0x4000_0000,
        decreases m - e,
    {
        proof {
            lemma_pow2_monotone(e as int, 30);
            lemma_pow2_positive(e - 1);
            assert(pow2(e as int) == 2 * pow2(e - 1));
        }
        p = p * 2;
        e += 1;
    }
    p
}

proof fn lemma_pow2_bound()
    ensures
        pow2(30) == 0x4000_0000,
{
    reveal_with_fuel(pow2, 32);
}

/// The points of all cards together.
pub fn part1(cards: &[Card]) -> (r: i32)
    requires
        points_fit(cards@, cards@.len() as int),
    ensures
        r == points_sum(cards@, cards@.len() as int),
{
    let n = cards.len();
    let mut total: i32 = 0;
    let mut i: usize = 0;
    while i < n
        invariant
            i <= n,
            n == cards@.len(),
            points_fit(cards@, n as int),
            total == points_sum(cards@, i as int),
        decreases n - i,
    {
        proof {
            lemma_points_prefix(cards@, i + 1, n as int);
            lemma_points_prefix(cards@, i as int, n as int);
        }
        let m = count_matches(&cards[i]);
        let p = points_for(m);
        total = total + p;
        i += 1;
    }
    total
}

/// How many copies there are of each card number, in the order in which the
/// numbers came up.
pub struct Tally {
    pub ids: Seq<int>,
    pub counts: Seq<int>,
}

impl Tally {
    /// One count for every number, no number twice, and no negative count.
    pub open spec fn wf(self) -> bool {
        &&& self.ids.len() == self.counts.len()
        &&& forall|i: int, j: int|
            0 <= i < j < self.ids.len() ==> self.ids[i] != self.ids[j]
        &&& forall|i: int| 0 <= i < self.counts.len() ==> #[trigger] self.counts[i] >= 0
    }

    pub open spec fn has(self, id: int) -> bool {
        exists|i: int| 0 <= i < self.ids.len() && #[trigger] self.ids[i] == id
    }

    pub open spec fn place(self, id: int) -> int {
        choose|i: int| 0 <= i < self.ids.len() && #[trigger] self.ids[i] == id
    }

    /// The copies of card `id`; none for a number that never came up.
    pub open spec fn count_of(self, id: int) -> int {
        if self.has(id) {
            self.counts[self.place(id)]
        } else {
            0
        }
    }

    /// `by` more copies of card `id`.
    pub open spec fn add(self, id: int, by: int) -> Tally {
        if self.has(id) {
            Tally {
                ids: self.ids,
                counts: self.counts.update(self.place(id), self.counts[self.place(id)] + by),
            }
        } else {
            Tally { ids: self.ids.push(id), counts: self.counts.push(by) }
        }
    }

    /// `by` more copies of each of the `n` cards that follow card `id`.
    pub open spec fn add_following(self, id: int, n: int, by: int) -> Tally
        decreases n,
    {
        if n <= 0 {
            self
        } else {
            self.add_following(id, n - 1, by).add(id + n, by)
        }
    }

    /// Sum of the first `k` counts.
    pub open spec fn sum(self, k: int) -> int
        decreases k,
    {
        if k <= 0 {
            0
        } else {
            self.sum(k - 1) + self.counts[k - 1]
        }
    }

    /// The sum of all counts.
    pub open spec fn total(self) -> int {
        self.sum(self.counts.len() as int)
    }

    /// No count is more than `bound`.
    pub open spec fn below(self, bound: int) -> bool {
        forall|i: int| 0 <= i < self.counts.len() ==> #[trigger] self.counts[i] <= bound
    }
}

/// One copy of each of the first `k` cards.
pub open spec fn first_copies(cards: Seq<Card>, k: int) -> Tally
    decreases k,
{
    if k <= 0 {
        Tally { ids: Seq::empty(), counts: Seq::empty() }
    } else {
        let t = first_copies(cards, k - 1);
        if t.has(cards[k - 1].id as int) {
            t
        } else {
            t.add(cards[k - 1].id as int, 1)
        }
    }
}

/// The copies after the first `k` cards were scratched: every copy of a
/// card with `m` matches wins one copy of each of the `m` cards after it.
pub open spec fn scratched(cards: Seq<Card>, k: int) -> Tally
    decreases k,
{
    if k <= 0 {
        first_copies(cards, cards.len() as int)
    } else {
        let t = scratched(cards, k - 1);
        let card = cards[k - 1];
        t.add_following(card.id as int, matches(card), t.count_of(card.id as int))
    }
}

/// After every card the counts are `i32`s, no winning reaches past the
/// largest card number, and the final sum is an `i32`.
pub open spec fn copies_fit(cards: Seq<Card>, k: int) -> bool
    decreases k,
{
    if k <= 0 {
        scratched(cards, cards.len() as int).total() <= i32::MAX
    } else {
        &&& copies_fit(cards, k - 1)
        &&& scratched(cards, k).below(i32::MAX as int)
        &&& cards[k - 1].id + matches(cards[k - 1]) <= i32::MAX
    }
}

proof fn lemma_add(t: Tally, id: int, by: int)
    requires
        t.wf(),
        by >= 0,
    ensures
        t.add(id, by).wf(),
        forall|x: int| #[trigger] t.add(id, by).has(x) == (t.has(x) || x == id),
        forall|x: int|
            #[trigger] t.add(id, by).count_of(x) == t.count_of(x) + if x == id {
                by
            } else {
                0
            },
{
    let u = t.add(id, by);
    assert forall|x: int| #[trigger] u.has(x) == (t.has(x) || x == id) by {
        if t.has(x) {
            assert(u.ids[t.place(x)] == x);
        }
        if x == id && !t.has(id) {
            assert(u.ids[t.ids.len() as int] == id);
        }
        if u.has(x) {
            let i = u.place(x);
            if i < t.ids.len() {
                assert(t.ids[i] == x);
            }
        }
    }
    assert forall|x: int|
        #[trigger] u.count_of(x) == t.count_of(x) + if x == id {
            by
        } else {
            0
        } by {
        if u.has(x) {
            let i = u.place(x);
            if t.has(x) {
                assert(u.ids[t.place(x)] == x);
                assert(i == t.place(x));
            } else {
                assert(i == t.ids.len());
            }
        }
    }
}

proof fn lemma_add_following(t: Tally, id: int, n: int, by: int)
    requires
        t.wf(),
        by >= 0,
    ensures
        t.add_following(id, n, by).wf(),
        forall|x: int|
            #[trigger] t.add_following(id, n, by).has(x) == (t.has(x) || id < x <= id + n),
        forall|x: int|
            #[trigger] t.add_following(id, n, by).count_of(x) == t.count_of(x) + if id < x <= id
                + n {
                by
            } else {
                0
            },
    decreases n,
{
    if n > 0 {
        lemma_add_following(t, id, n - 1, by);
        lemma_add(t.add_following(id, n - 1, by), id + n, by);
    }
}

proof fn lemma_counts(t: Tally, i: int)
    requires
        t.wf(),
        0 <= i < t.ids.len(),
    ensures
        t.has(t.ids[i]),
        t.place(t.ids[i]) == i,
        t.count_of(t.ids[i]) == t.counts[i],
{
}

proof fn lemma_first_copies(cards: Seq<Card>, k: int)
    requires
        0 <= k <= cards.len(),
    ensures
        first_copies(cards, k).wf(),
        first_copies(cards, k).ids.len() <= k,
        forall|i: int| 0 <= i < k ==> first_copies(cards, k).has(#[trigger] cards[i].id as int),
        first_copies(cards, k).below(1),
    decreases k,
{
    if k > 0 {
        lemma_first_copies(cards, k - 1);
        let t = first_copies(cards, k - 1);
        lemma_add(t, cards[k - 1].id as int, 1);
        let u = first_copies(cards, k);
        assert forall|i: int| 0 <= i < k implies u.has(#[trigger] cards[i].id as int) by {
            if i < k - 1 {
                assert(t.has(cards[i].id as int));
            }
        }
    }
}

proof fn lemma_matches_sign(winning: Seq<i32>, have: Seq<i32>, k: int)
    ensures
        0 <= matches_upto(winning, have, k),
    decreases k,
{
    if k > 0 {
        lemma_matches_sign(winning, have, k - 1);
    }
}

proof fn lemma_scratched(cards: Seq<Card>, k: int)
    requires
        0 <= k <= cards.len(),
    ensures
        scratched(cards, k).wf(),
        forall|i: int| 0 <= i < cards.len() ==> scratched(cards, k).has(#[trigger] cards[i].id as int),
    decreases k,
{
    if k > 0 {
        lemma_scratched(cards, k - 1);
        let t = scratched(cards, k - 1);
        let card = cards[k - 1];
        assert(t.has(card.id as int));
        lemma_counts(t, t.place(card.id as int));
        lemma_add_following(t, card.id as int, matches(card), t.count_of(card.id as int));
        let u = scratched(cards, k);
        assert forall|i: int| 0 <= i < cards.len() implies u.has(#[trigger] cards[i].id as int) by {
            assert(t.has(cards[i].id as int));
        }
    } else {
        lemma_first_copies(cards, cards.len() as int);
    }
}

proof fn lemma_copies_prefix(cards: Seq<Card>, k: int, n: int)
    requires
        0 <= k <= n,
        copies_fit(cards, n),
    ensures
        copies_fit(cards, k),
    decreases n - k,
{
    if k < n {
        lemma_copies_prefix(cards, k, n - 1);
    }
}

proof fn lemma_sum_grows(t: Tally, j: int, k: int)
    requires
        t.wf(),
        0 <= j <= k <= t.counts.len(),
    ensures
        0 <= t.sum(j) <= t.sum(k),
    decreases k,
{
    if j < k {
        lemma_sum_grows(t, j, k - 1);
    } else if j > 0 {
        lemma_sum_grows(t, j - 1, k - 1);
    }
}

/// The copies of every card number, as two lists of equal length.
struct Copies {
    ids: Vec<i32>,
    counts: Vec<i64>,
}

impl Copies {
    spec fn tally(&self) -> Tally {
        Tally {
            ids: Seq::new(self.ids@.len(), |i: int| self.ids@[i] as int),
            counts: Seq::new(self.counts@.len(), |i: int| self.counts@[i] as int),
        }
    }

    spec fn wf(&self, bound: int) -> bool {
        self.tally().wf() && self.tally().below(bound)
    }

    fn find(&self, id: i32) -> (r: Option<usize>)
        requires
            self.tally().wf(),
        ensures
            r.is_some() == self.tally().has(id as int),
            r matches Some(i) ==> i < self.ids@.len() && i == self.tally().place(id as int),
    {
        let mut i: usize = 0;
        while i < self.ids.len()
            invariant
                i <= self.ids@.len(),
                self.tally().wf(),
                forall|k: int| 0 <= k < i ==> #[trigger] self.tally().ids[k] != id,
            decreases self.ids@.len() - i,
        {
            if self.ids[i] == id {
                proof {
                    assert(self.tally().ids[i as int] == id);
                    let p = self.tally().place(id as int);
                    assert(self.tally().ids[p] == id);
                    assert(p == i);
                }
                return Some(i);
            }
            i += 1;
        }
        None
    }

    fn add(&mut self, id: i32, by: i64, Ghost(bound): Ghost<int>)
        requires
            old(self).wf(bound),
            0 <= by,
            old(self).tally().count_of(id as int) + by <= bound <= i64::MAX,
        ensures
            final(self).tally() == old(self).tally().add(id as int, by as int),
            final(self).wf(bound),
    {
        proof {
            lemma_add(self.tally(), id as int, by as int);
        }
        let ghost before = self.tally();
        match self.find(id) {
            Some(i) => {
                let c = self.counts[i];
                self.counts.set(i, c + by);
                assert(self.tally().counts =~= before.counts.update(i as int, c + by));
                assert(self.tally().ids =~= before.ids);
            },
            None => {
                self.ids.push(id);
                self.counts.push(by);
                assert(self.tally().ids =~= before.ids.push(id as int));
                assert(self.tally().counts =~= before.counts.push(by as int));
            },
        }
        assert(self.tally() == before.add(id as int, by as int));
    }
}

/// The number of scratchcards one ends up with: every card once, and for
/// every copy of a card with `m` matches one more copy of each of the `m`
/// cards that follow it by number.
pub fn part2(cards: &[Card]) -> (r: i32)
    requires
        copies_fit(cards@, cards@.len() as int),
    ensures
        r == scratched(cards@, cards@.len() as int).total(),
{
    let n = cards.len();
    let ghost limit = i32::MAX as int;
    let mut copies = Copies { ids: Vec::new(), counts: Vec::new() };
    let mut i: usize = 0;
    assert(copies.tally().ids =~= Seq::empty());
    assert(copies.tally().counts =~= Seq::empty());
    while i < n
        invariant
            i <= n,
            n == cards@.len(),
            copies.tally() == first_copies(cards@, i as int),
            copies.wf(1),
        decreases n - i,
    {
        proof {
            lemma_first_copies(cards@, i as int);
            lemma_first_copies(cards@, i + 1);
        }
        if copies.find(cards[i].id).is_none() {
            copies.add(cards[i].id, 1, Ghost(1));
        }
        i += 1;
    }
    let mut k: usize = 0;
    proof {
        lemma_scratched(cards@, 0);
    }
    while k < n
        invariant
            k <= n,
            n == cards@.len(),
            limit == i32::MAX,
            copies_fit(cards@, n as int),
            copies.tally() == scratched(cards@, k as int),
            copies.wf(limit),
        decreases n - k,
    {
        let card = &cards[k];
        let m = count_matches(card);
        let ghost t = copies.tally();
        proof {
            lemma_scratched(cards@, k as int);
            lemma_scratched(cards@, k + 1);
            lemma_copies_prefix(cards@, k + 1, n as int);
            assert(t.has(card.id as int));
            lemma_counts(t, t.place(card.id as int));
        }
        let own = copies.find(card.id);
        let by = copies.counts[own.unwrap()];
        let ghost target = scratched(cards@, k + 1);
        proof {
            lemma_add_following(t, card.id as int, m as int, by as int);
        }
        let mut j: usize = 0;
        while j < m
            invariant
                j <= m,
                m == matches(*card),
                card.id + m <= i32::MAX,
                limit == i32::MAX,
                0 <= by <= limit,
                t.wf(),
                target == t.add_following(card.id as int, m as int, by as int),
                target.below(limit),
                target.wf(),
                copies.tally() == t.add_following(card.id as int, j as int, by as int),
                copies.wf(2 * limit),
            decreases m - j,
        {
            assert(j < m && card.id + m <= i32::MAX);
            let wide: i64 = card.id as i64 + j as i64 + 1;
            let id: i32 = wide as i32;
            assert(id == card.id + j + 1);
            proof {
                lemma_add_following(t, card.id as int, j as int, by as int);
                lemma_add_following(t, card.id as int, j + 1, by as int);
                lemma_add_following(t, card.id as int, m as int, by as int);
                assert(target.has(id as int));
                lemma_counts(target, target.place(id as int));
                assert(target.count_of(id as int) <= limit);
            }
            copies.add(id, by, Ghost(2 * limit));
            j += 1;
        }
        proof {
            assert(copies.tally() == target);
        }
        k += 1;
    }
    let ghost last = copies.tally();
    proof {
        lemma_copies_prefix(cards@, 0, n as int);
    }
    let len = copies.counts.len();
    let mut total: i64 = 0;
    let mut p: usize = 0;
    while p < len
        invariant
            p <= len,
            len == copies.counts@.len(),
            last == copies.tally(),
            last.wf(),
            last.total() <= i32::MAX,
            total == last.sum(p as int),
        decreases len - p,
    {
        proof {
            lemma_sum_grows(last, p + 1, len as int);
            lemma_sum_grows(last, p as int, p as int);
            assert(last.counts[p as int] == copies.counts@[p as int]);
        }
        total = total + copies.counts[p];
        p += 1;
    }
    proof {
        lemma_sum_grows(last, 0, len as int);
        assert(last.counts.len() == len);
        assert(last == scratched(cards@, n as int));
    }
    total as i32
}

} // verus!
