//! Hand resolution: rank a 7-card pool.
//!
//! The resolver sorts the pool by descending rank, enumerates all 21 5-card
//! subsets, and tests categories from strongest to weakest: straight flush,
//! four of a kind, full house, flush, straight, three of a kind, two pair,
//! one pair, high card.  Groups of equal rank are read off a rank histogram;
//! when several groups compete for one histogram slot the higher-ranked group
//! always wins the primary slot and the other is demoted to the appropriate
//! secondary slot.

use vstd::prelude::*;
use crate::cards::Card;
use crate::cards::CardRanking;
use crate::cards::card_valid;

verus! {

/// Category code: straight flush.
pub const STRAIGHT_FLUSH: u8 = 8;

/// Category code: four of a kind.
pub const QUADS: u8 = 7;

/// Category code: full house.
pub const FULL_HOUSE: u8 = 6;

/// Category code: flush.
pub const FLUSH: u8 = 5;

/// Category code: straight.
pub const STRAIGHT: u8 = 4;

/// Category code: three of a kind.
pub const TRIPLE: u8 = 3;

/// Category code: two pair.
pub const TWO_PAIR: u8 = 2;

/// Category code: one pair.
pub const PAIR: u8 = 1;

/// Category code: high card.
pub const HIGH: u8 = 0;

// ---------------------------------------------------------------------------
// Sorting by descending rank.
// ---------------------------------------------------------------------------

/// `c` occurs in `s`.
pub open spec fn seq_has_card(s: Seq<Card>, c: Card) -> bool {
    exists|j: int| 0 <= j < s.len() && s[j] == c
}

/// `s` is ordered by non-increasing rank.
pub open spec fn sorted_desc(s: Seq<Card>) -> bool {
    forall|i: int| 0 < i < s.len() ==> (#[trigger] s[i]).rank <= s[i - 1].rank
}

/// Insert `c` into `s` in front of the first card of lower-or-equal rank.
pub open spec fn insert_desc(c: Card, s: Seq<Card>) -> Seq<Card>
    decreases s.len(),
{
    if s.len() == 0 {
        seq![c]
    } else if c.rank >= s[0].rank {
        seq![c] + s
    } else {
        seq![s[0]] + insert_desc(c, s.drop_first())
    }
}

/// `s` sorted by descending rank, cards of equal rank kept in input order.
pub open spec fn sort_desc(s: Seq<Card>) -> Seq<Card>
    decreases s.len(),
{
    if s.len() == 0 {
        Seq::empty()
    } else {
        insert_desc(s.last(), sort_desc(s.drop_last()))
    }
}

/// Where the first insertion point lies, `insert_desc` splits the sequence.
proof fn lemma_insert_desc_at(c: Card, s: Seq<Card>, p: int)
    requires
        sorted_desc(s),
        0 <= p <= s.len(),
        forall|i: int| 0 <= i < p ==> c.rank < s[i].rank,
        p < s.len() ==> c.rank >= s[p].rank,
    ensures
        insert_desc(c, s) == s.take(p).push(c) + s.skip(p),
        sorted_desc(insert_desc(c, s)),
        insert_desc(c, s).len() == s.len() + 1,
    decreases p,
{
    if s.len() == 0 {
        assert(insert_desc(c, s) =~= s.take(p).push(c) + s.skip(p));
    } else if p == 0 {
        assert(insert_desc(c, s) =~= s.take(0).push(c) + s.skip(0));
    } else {
        let rest = s.drop_first();
        assert(sorted_desc(rest));
        assert(forall|i: int| 0 <= i < p - 1 ==> c.rank < rest[i].rank);
        lemma_insert_desc_at(c, rest, p - 1);
        assert(insert_desc(c, s) =~= s.take(p).push(c) + s.skip(p));
    }
    let r = s.take(p).push(c) + s.skip(p);
    assert forall|i: int| 0 < i < r.len() implies (#[trigger] r[i]).rank <= r[i - 1].rank by {
        if i < p {
        } else if i == p {
            assert(r[i - 1] == s[p - 1]);
        } else if i == p + 1 {
            assert(r[i] == s[p]);
        } else {
            assert(r[i - 1] == s[i - 2] && r[i] == s[i - 1]);
        }
    }
}

/// Sort `hand` by descending rank; cards of equal rank keep their order.
#[verifier::rlimit(60)]
pub fn sort_hand(hand: &Vec<Card>) -> (r: Vec<Card>)
    ensures
        r@ == sort_desc(hand@),
        sorted_desc(r@),
        r@.len() == hand@.len(),
        forall|k: int| 0 <= k < r@.len() ==> seq_has_card(hand@, #[trigger] r@[k]),
{
    let n = hand.len();
    let mut out: Vec<Card> = Vec::new();
    let mut i: usize = 0;
    while i < n
        invariant
            i <= n,
            n == hand@.len(),
            out@ == sort_desc(hand@.take(i as int)),
            sorted_desc(out@),
            out@.len() == i as nat,
            forall|k: int| 0 <= k < out@.len() ==> seq_has_card(hand@, #[trigger] out@[k]),
        decreases n - i,
    {
        let c = hand[i];
        let ghost out0 = out@;

        // Find the first position whose card has rank <= c.rank.
        let mut p: usize = 0;
        while p < out.len() && c.rank < out[p].rank
            invariant
                p <= out@.len(),
                out@ == out0,
                forall|q: int| 0 <= q < p ==> c.rank < out@[q].rank,
            decreases out@.len() - p,
        {
            p += 1;
        }

        out.insert(p, c);
        i += 1;

        proof {
            lemma_insert_desc_at(c, out0, p as int);
            assert(out@ == insert_desc(c, out0));
            let pre = hand@.take(i as int);
            assert(pre.drop_last() =~= hand@.take(i as int - 1));
            assert(pre.last() == c);
            assert(out@ == sort_desc(pre));
            assert forall|k: int| 0 <= k < out@.len() implies seq_has_card(
                hand@,
                #[trigger] out@[k],
            ) by {
                if k < p {
                    assert(out@[k] == out0[k]);
                } else if k == p {
                    assert(out@[k] == hand@[i as int - 1]);
                } else {
                    assert(out@[k] == out0[k - 1]);
                }
            }
        }
    }
    proof {
        assert(hand@.take(n as int) =~= hand@);
    }
    out
}

// ---------------------------------------------------------------------------
// The 21 five-card subsets of a seven-card pool.
// ---------------------------------------------------------------------------

/// `s` with the cards at positions `i < j` removed.
pub open spec fn rm2(s: Seq<Card>, i: int, j: int) -> Seq<Card> {
    s.subrange(0, i) + s.subrange(i + 1, j) + s.subrange(j + 1, s.len() as int)
}

/// The first removed position of the `k`-th subset, pairs in lexicographic
/// order: (0,1), (0,2), ..., (0,6), (1,2), ..., (5,6).
pub open spec fn pair_first(k: int) -> int {
    if k < 6 {
        0
    } else if k < 11 {
        1
    } else if k < 15 {
        2
    } else if k < 18 {
        3
    } else if k < 20 {
        4
    } else {
        5
    }
}

/// The second removed position of the `k`-th subset.
pub open spec fn pair_second(k: int) -> int {
    if k < 6 {
        k + 1
    } else if k < 11 {
        k - 4
    } else if k < 15 {
        k - 8
    } else if k < 18 {
        k - 11
    } else if k < 20 {
        k - 13
    } else {
        6
    }
}

/// All 21 five-card subsets of a 7-card pool, in enumeration order.
pub open spec fn subsets7(s: Seq<Card>) -> Seq<Seq<Card>> {
    Seq::new(21, |k: int| rm2(s, pair_first(k), pair_second(k)))
}

/// Five cards, sorted descending, with consecutive ranks.
pub open spec fn seq_is_straight(h: Seq<Card>) -> bool {
    h.len() == 5 && forall|i: int| 1 <= i < 5 ==> (#[trigger] h[i]).rank + 1 == h[i - 1].rank
}

/// Five cards of one suit.
pub open spec fn seq_is_flush(h: Seq<Card>) -> bool {
    h.len() == 5 && forall|i: int| 1 <= i < 5 ==> (#[trigger] h[i]).suit == h[0].suit
}

/// Five cards of one suit with consecutive ranks, sorted descending.
pub open spec fn seq_is_straight_flush(h: Seq<Card>) -> bool {
    seq_is_flush(h) && seq_is_straight(h)
}

/// The position of the first subset satisfying `pred`, from `k` on, or the
/// length when none does.
pub open spec fn first_idx(subs: Seq<Seq<Card>>, pred: spec_fn(Seq<Card>) -> bool, k: int) -> int
    decreases subs.len() - k,
{
    if k < 0 || k >= subs.len() {
        subs.len() as int
    } else if pred(subs[k]) {
        k
    } else {
        first_idx(subs, pred, k + 1)
    }
}

/// What [`first_idx`] returns: the first match, or the length when there is
/// no match.
pub proof fn lemma_first_idx_char(subs: Seq<Seq<Card>>, pred: spec_fn(Seq<Card>) -> bool, k: int)
    requires
        0 <= k <= subs.len(),
    ensures
        k <= first_idx(subs, pred, k) <= subs.len(),
        first_idx(subs, pred, k) < subs.len() ==> pred(subs[first_idx(subs, pred, k)]),
        forall|k2: int| k <= k2 < first_idx(subs, pred, k) ==> !pred(subs[k2]),
    decreases subs.len() - k,
{
    if k < subs.len() && !pred(subs[k]) {
        lemma_first_idx_char(subs, pred, k + 1);
    }
}

/// The views of a vector of card vectors.
pub open spec fn views_of(subs: Seq<Vec<Card>>) -> Seq<Seq<Card>> {
    subs.map_values(|v: Vec<Card>| v@)
}

/// The straight test, as a function value for [`first_idx`].
pub open spec fn straight_pred() -> spec_fn(Seq<Card>) -> bool {
    |h: Seq<Card>| seq_is_straight(h)
}

/// The flush test, as a function value for [`first_idx`].
pub open spec fn flush_pred() -> spec_fn(Seq<Card>) -> bool {
    |h: Seq<Card>| seq_is_flush(h)
}

/// The straight-flush test, as a function value for [`first_idx`].
pub open spec fn straight_flush_pred() -> spec_fn(Seq<Card>) -> bool {
    |h: Seq<Card>| seq_is_straight_flush(h)
}

/// Copy a hand of cards.
pub fn copy_cards(v: &Vec<Card>) -> (r: Vec<Card>)
    ensures
        r@ == v@,
{
    let mut out: Vec<Card> = Vec::new();
    let mut m: usize = 0;
    while m < v.len()
        invariant
            m <= v@.len(),
            out@ =~= v@.subrange(0, m as int),
        decreases v@.len() - m,
    {
        out.push(v[m]);
        m += 1;
    }
    proof {
        assert(out@ =~= v@);
    }
    out
}

/// Enumerate all 21 five-card subsets of the 7-card pool `cards`, in
/// lexicographic order of the removed pair of positions.
pub fn to_ranked_subsets(cards: &Vec<Card>) -> (r: Vec<Vec<Card>>)
    requires
        cards@.len() == 7,
    ensures
        r@.len() == 21,
        views_of(r@) == subsets7(cards@),
{
    let s = cards;
    let mut r: Vec<Vec<Card>> = Vec::new();
    let mut k: usize = 0;
    while k < 21
        invariant
            k <= 21,
            s@.len() == 7,
            r@.len() == k as nat,
            forall|k2: int| 0 <= k2 < k ==> (#[trigger] r@[k2])@ == subsets7(s@)[k2],
        decreases 21 - k,
    {
        let i: usize = if k < 6 {
            0
        } else if k < 11 {
            1
        } else if k < 15 {
            2
        } else if k < 18 {
            3
        } else if k < 20 {
            4
        } else {
            5
        };
        let j: usize = if k < 6 {
            k + 1
        } else if k < 11 {
            k - 4
        } else if k < 15 {
            k - 8
        } else if k < 18 {
            k - 11
        } else if k < 20 {
            k - 13
        } else {
            6
        };
        assert(i as int == pair_first(k as int) && j as int == pair_second(k as int));
        assert(i < j < 7);

        let mut working_hand: Vec<Card> = Vec::new();
        let mut m: usize = 0;
        while m < 7
            invariant
                m <= 7,
                s@.len() == 7,
                i < j < 7,
                m <= i ==> working_hand@ =~= s@.subrange(0, m as int),
                i < m <= j ==> working_hand@ =~= s@.subrange(0, i as int) + s@.subrange(
                    i as int + 1,
                    m as int,
                ),
                j < m ==> working_hand@ =~= s@.subrange(0, i as int) + s@.subrange(
                    i as int + 1,
                    j as int,
                ) + s@.subrange(j as int + 1, m as int),
            decreases 7 - m,
        {
            if m != i && m != j {
                working_hand.push(s[m]);
            }
            m += 1;
        }
        assert(working_hand@ =~= rm2(s@, i as int, j as int));
        r.push(working_hand);
        k += 1;
    }
    proof {
        assert(views_of(r@) =~= subsets7(s@));
    }
    r
}

/// Scan the subsets for the first straight, the subsets being sorted
/// descending.
pub fn is_straight(subsets: &Vec<Vec<Card>>) -> (r: Option<Vec<Card>>)
    requires
        subsets@.len() == 21,
        forall|k: int| 0 <= k < 21 ==> (#[trigger] subsets@[k])@.len() == 5,
        forall|k: int, m: int|
            0 <= k < 21 && 0 <= m < 5 ==> card_valid(#[trigger] subsets@[k]@[m]),
    ensures
        ({
            let idx = first_idx(views_of(subsets@), straight_pred(), 0);
            match r {
                Some(h) => idx < 21 && h@ == subsets@[idx]@,
                None => idx == 21,
            }
        }),
{
    let mut k: usize = 0;
    while k < 21
        invariant
            k <= 21,
            subsets@.len() == 21,
            forall|k2: int| 0 <= k2 < 21 ==> (#[trigger] subsets@[k2])@.len() == 5,
            forall|k2: int, m: int|
                0 <= k2 < 21 && 0 <= m < 5 ==> card_valid(#[trigger] subsets@[k2]@[m]),
            forall|k2: int| 0 <= k2 < k ==> !seq_is_straight((#[trigger] subsets@[k2])@),
        decreases 21 - k,
    {
        let hand = &subsets[k];
        let mut has_straight = true;
        let mut m: usize = 1;
        while m < 5
            invariant_except_break
                1 <= m <= 5,
                hand@.len() == 5,
                forall|q: int| 0 <= q < 5 ==> card_valid(#[trigger] hand@[q]),
                has_straight,
                forall|q: int| 1 <= q < m ==> (#[trigger] hand@[q]).rank + 1 == hand@[q - 1].rank,
            ensures
                hand@.len() == 5,
                has_straight == seq_is_straight(hand@),
            decreases 5 - m,
        {
            if hand[m - 1].rank != hand[m].rank + 1 {
                proof {
                    assert((hand@[m as int]).rank + 1 != hand@[m as int - 1].rank);
                }
                has_straight = false;
                break;
            }
            m += 1;
        }
        if has_straight {
            proof {
                lemma_first_idx_char(views_of(subsets@), straight_pred(), 0);
                assert(seq_is_straight(views_of(subsets@)[k as int]));
            }
            return Some(copy_cards(hand));
        }
        k += 1;
    }
    proof {
        lemma_first_idx_char(views_of(subsets@), straight_pred(), 0);
        assert forall|k2: int| 0 <= k2 < 21 implies !straight_pred()(
            views_of(subsets@)[k2],
        ) by {
            assert(!seq_is_straight(subsets@[k2]@));
        }
    }
    None
}

/// Scan the subsets for the first flush.
pub fn is_flush(subsets: &Vec<Vec<Card>>) -> (r: Option<Vec<Card>>)
    requires
        subsets@.len() == 21,
        forall|k: int| 0 <= k < 21 ==> (#[trigger] subsets@[k])@.len() == 5,
    ensures
        ({
            let idx = first_idx(views_of(subsets@), flush_pred(), 0);
            match r {
                Some(h) => idx < 21 && h@ == subsets@[idx]@,
                None => idx == 21,
            }
        }),
{
    let mut k: usize = 0;
    while k < 21
        invariant
            k <= 21,
            subsets@.len() == 21,
            forall|k2: int| 0 <= k2 < 21 ==> (#[trigger] subsets@[k2])@.len() == 5,
            forall|k2: int| 0 <= k2 < k ==> !seq_is_flush((#[trigger] subsets@[k2])@),
        decreases 21 - k,
    {
        let hand = &subsets[k];
        let suit = hand[0].suit;
        let mut has_flush = true;
        let mut m: usize = 1;
        while m < 5
            invariant_except_break
                1 <= m <= 5,
                hand@.len() == 5,
                suit == hand@[0].suit,
                has_flush,
                forall|q: int| 1 <= q < m ==> (#[trigger] hand@[q]).suit == hand@[0].suit,
            ensures
                hand@.len() == 5,
                has_flush == seq_is_flush(hand@),
            decreases 5 - m,
        {
            if hand[m].suit != suit {
                proof {
                    assert((hand@[m as int]).suit != hand@[0].suit);
                }
                has_flush = false;
                break;
            }
            m += 1;
        }
        if has_flush {
            proof {
                lemma_first_idx_char(views_of(subsets@), flush_pred(), 0);
                assert(seq_is_flush(views_of(subsets@)[k as int]));
            }
            return Some(copy_cards(hand));
        }
        k += 1;
    }
    proof {
        lemma_first_idx_char(views_of(subsets@), flush_pred(), 0);
        assert forall|k2: int| 0 <= k2 < 21 implies !flush_pred()(views_of(subsets@)[k2]) by {
            assert(!seq_is_flush(subsets@[k2]@));
        }
    }
    None
}

/// Scan the subsets for the first straight flush, the subsets being sorted
/// descending.
pub fn is_straight_flush(subsets: &Vec<Vec<Card>>) -> (r: Option<Vec<Card>>)
    requires
        subsets@.len() == 21,
        forall|k: int| 0 <= k < 21 ==> (#[trigger] subsets@[k])@.len() == 5,
        forall|k: int, m: int|
            0 <= k < 21 && 0 <= m < 5 ==> card_valid(#[trigger] subsets@[k]@[m]),
    ensures
        ({
            let idx = first_idx(views_of(subsets@), straight_flush_pred(), 0);
            match r {
                Some(h) => idx < 21 && h@ == subsets@[idx]@,
                None => idx == 21,
            }
        }),
{
    let mut k: usize = 0;
    while k < 21
        invariant
            k <= 21,
            subsets@.len() == 21,
            forall|k2: int| 0 <= k2 < 21 ==> (#[trigger] subsets@[k2])@.len() == 5,
            forall|k2: int, m: int|
                0 <= k2 < 21 && 0 <= m < 5 ==> card_valid(#[trigger] subsets@[k2]@[m]),
            forall|k2: int| 0 <= k2 < k ==> !seq_is_straight_flush((#[trigger] subsets@[k2])@),
        decreases 21 - k,
    {
        let hand = &subsets[k];
        let suit = hand[0].suit;
        let mut has_straight_flush = true;
        let mut m: usize = 1;
        while m < 5
            invariant_except_break
                1 <= m <= 5,
                hand@.len() == 5,
                suit == hand@[0].suit,
                forall|q: int| 0 <= q < 5 ==> card_valid(#[trigger] hand@[q]),
                has_straight_flush,
                forall|q: int| 1 <= q < m ==> (#[trigger] hand@[q]).suit == hand@[0].suit,
                forall|q: int| 1 <= q < m ==> (#[trigger] hand@[q]).rank + 1 == hand@[q - 1].rank,
            ensures
                hand@.len() == 5,
                has_straight_flush == seq_is_straight_flush(hand@),
            decreases 5 - m,
        {
            if hand[m].suit != suit || hand[m - 1].rank != hand[m].rank + 1 {
                proof {
                    assert((hand@[m as int]).suit != hand@[0].suit || (hand@[m as int]).rank + 1
                        != hand@[m as int - 1].rank);
                }
                has_straight_flush = false;
                break;
            }
            m += 1;
        }
        if has_straight_flush {
            proof {
                lemma_first_idx_char(views_of(subsets@), straight_flush_pred(), 0);
                assert(seq_is_straight_flush(views_of(subsets@)[k as int]));
            }
            return Some(copy_cards(hand));
        }
        k += 1;
    }
    proof {
        lemma_first_idx_char(views_of(subsets@), straight_flush_pred(), 0);
        assert forall|k2: int| 0 <= k2 < 21 implies !straight_flush_pred()(
            views_of(subsets@)[k2],
        ) by {
            assert(!seq_is_straight_flush(subsets@[k2]@));
        }
    }
    None
}

// ---------------------------------------------------------------------------
// Rank histogram.
// ---------------------------------------------------------------------------

/// How many cards of `s` have rank `r`.
pub open spec fn count_rank(s: Seq<Card>, r: u8) -> nat
    decreases s.len(),
{
    if s.len() == 0 {
        0
    } else {
        count_rank(s.drop_last(), r) + if s.last().rank == r {
            1nat
        } else {
            0nat
        }
    }
}

/// The highest rank in `1..=from` satisfying `pred`, scanning downward.
pub open spec fn top_rank_from(pred: spec_fn(u8) -> bool, from: int) -> Option<u8>
    decreases from,
{
    if from < 1 {
        None
    } else if from > 14 {
        top_rank_from(pred, 14)
    } else if pred(from as u8) {
        Some(from as u8)
    } else {
        top_rank_from(pred, from - 1)
    }
}

/// What [`top_rank_from`] returns: the highest satisfying rank, or `None`
/// when no rank satisfies `pred`.
pub proof fn lemma_top_rank_char(pred: spec_fn(u8) -> bool, from: int)
    requires
        0 <= from <= 14,
    ensures
        match top_rank_from(pred, from) {
            Some(q) => 1 <= q <= from && pred(q) && forall|r2: u8|
                q < r2 <= from ==> !(#[trigger] pred(r2)),
            None => forall|r2: u8| 1 <= r2 <= from ==> !(#[trigger] pred(r2)),
        },
    decreases from,
{
    if from >= 1 && !pred(from as u8) {
        lemma_top_rank_char(pred, from - 1);
    }
}

/// Rank with exactly four cards.
pub open spec fn quad_pred(s: Seq<Card>) -> spec_fn(u8) -> bool {
    |r: u8| count_rank(s, r) == 4
}

/// Rank with exactly three cards.
pub open spec fn trips_pred(s: Seq<Card>) -> spec_fn(u8) -> bool {
    |r: u8| count_rank(s, r) == 3
}

/// The highest rank held four times.
pub open spec fn quad_rank(s: Seq<Card>) -> Option<u8> {
    top_rank_from(quad_pred(s), 14)
}

/// The highest rank held three times.
pub open spec fn trips_rank(s: Seq<Card>) -> Option<u8> {
    top_rank_from(trips_pred(s), 14)
}

/// Rank that fills the primary pair slot: a true pair, or a second triple
/// demoted to a pair.
pub open spec fn pair_pred(s: Seq<Card>) -> spec_fn(u8) -> bool {
    |r: u8| count_rank(s, r) == 2 || (count_rank(s, r) == 3 && trips_rank(s) != Some(r))
}

/// The rank of the primary pair.
pub open spec fn pair_rank(s: Seq<Card>) -> Option<u8> {
    top_rank_from(pair_pred(s), 14)
}

/// Rank that fills the second pair slot: a true pair below the primary pair.
pub open spec fn second_pair_pred(s: Seq<Card>) -> spec_fn(u8) -> bool {
    |r: u8| count_rank(s, r) == 2 && pair_rank(s) != Some(r)
}

/// The rank of the second pair.
pub open spec fn second_pair_rank(s: Seq<Card>) -> Option<u8> {
    top_rank_from(second_pair_pred(s), 14)
}

/// Rank that fills the kicker slot: a single, or a pair beyond the first two
/// demoted to a kicker.
pub open spec fn kicker_pred(s: Seq<Card>) -> spec_fn(u8) -> bool {
    |r: u8|
        count_rank(s, r) == 1 || (count_rank(s, r) == 2 && pair_rank(s) != Some(r)
            && second_pair_rank(s) != Some(r))
}

/// The rank of the kicker.
pub open spec fn kicker_rank(s: Seq<Card>) -> Option<u8> {
    top_rank_from(kicker_pred(s), 14)
}

/// The rank groups of a 7-card pool, highest-ranked group in each slot.
///
/// When several groups compete for one slot the higher-ranked group takes the
/// primary slot and the lower one is demoted: a second triple fills the pair
/// slot, a third pair fills the kicker slot.
pub struct Histogram {
    /// Rank held four times, if any.
    pub quad: Option<u8>,
    /// Highest rank held three times, if any.
    pub trips: Option<u8>,
    /// Highest rank of a pair (or of a demoted second triple), if any.
    pub pair: Option<u8>,
    /// Rank of the second pair, if any.
    pub second_pair: Option<u8>,
    /// Highest rank of a single card (or of a demoted third pair), if any.
    pub kicker: Option<u8>,
}

/// Mid-scan state of one histogram slot: what it holds for the ranks above
/// `rr` that have already been scanned.
pub open spec fn slot_inv(o: Option<u8>, pred: spec_fn(u8) -> bool, rr: int) -> bool {
    match o {
        Some(q) => rr < q <= 14 && pred(q) && forall|r2: u8| q < r2 <= 14 ==> !(#[trigger] pred(
            r2,
        )),
        None => forall|r2: u8| rr < r2 <= 14 ==> !(#[trigger] pred(r2)),
    }
}

/// A filled slot whose invariant holds pins the full scan's value.
proof fn lemma_slot_value(o: Option<u8>, pred: spec_fn(u8) -> bool, rr: int)
    requires
        0 <= rr <= 14,
        slot_inv(o, pred, rr),
        o is Some,
    ensures
        top_rank_from(pred, 14) == o,
{
    lemma_top_rank_char(pred, 14);
    let q = o->Some_0;
    match top_rank_from(pred, 14) {
        Some(q2) => {
            if q2 < q {
                assert(!pred(q));
            } else if q2 > q {
                assert(!pred(q2));
            }
        },
        None => {
            assert(!pred(q));
        },
    }
}

/// Extending a prefix by one card adds that card's rank.
proof fn lemma_count_take_step(s: Seq<Card>, i: int, q: u8)
    requires
        0 <= i < s.len(),
    ensures
        count_rank(s.take(i + 1), q) == count_rank(s.take(i), q) + if s[i].rank == q {
            1nat
        } else {
            0nat
        },
{
    assert(s.take(i + 1).drop_last() =~= s.take(i));
}

/// Build the rank histogram of a 7-card pool.
pub fn to_histogram(cards: &Vec<Card>) -> (h: Histogram)
    requires
        cards@.len() == 7,
        forall|k: int| 0 <= k < 7 ==> card_valid(#[trigger] cards@[k]),
    ensures
        h.quad == quad_rank(cards@),
        h.trips == trips_rank(cards@),
        h.pair == pair_rank(cards@),
        h.second_pair == second_pair_rank(cards@),
        h.kicker == kicker_rank(cards@),
{
    let s = cards;
    let mut counts: Vec<u8> = Vec::new();
    let mut r: usize = 0;
    while r < 15
        invariant
            r <= 15,
            counts@.len() == r as nat,
            forall|q: int| 0 <= q < r ==> counts@[q] == 0,
        decreases 15 - r,
    {
        counts.push(0);
        r += 1;
    }

    let mut i: usize = 0;
    while i < 7
        invariant
            i <= 7,
            s@.len() == 7,
            counts@.len() == 15,
            forall|k: int| 0 <= k < 7 ==> card_valid(#[trigger] s@[k]),
            forall|q: u8| 1 <= q <= 14 ==> counts@[q as int] == count_rank(s@.take(i as int), q),
            forall|q: u8| 1 <= q <= 14 ==> counts@[q as int] <= i,
        decreases 7 - i,
    {
        let ghost counts0 = counts@;
        assert(card_valid(s@[i as int]));
        let rk = s[i].rank as usize;
        let c = counts[rk];
        counts.set(rk, c + 1);
        i += 1;
        proof {
            assert forall|q: u8| 1 <= q <= 14 implies counts@[q as int] == count_rank(
                s@.take(i as int),
                q,
            ) && counts@[q as int] <= i by {
                lemma_count_take_step(s@, i as int - 1, q);
            }
        }
    }
    proof {
        assert(s@.take(7) =~= s@);
    }

    let mut quad: Option<u8> = None;
    let mut trips: Option<u8> = None;
    let mut pair: Option<u8> = None;
    let mut second_pair: Option<u8> = None;
    let mut kicker: Option<u8> = None;

    let mut rr: u8 = 14;
    while rr >= 1
        invariant
            rr <= 14,
            counts@.len() == 15,
            forall|q: u8| 1 <= q <= 14 ==> counts@[q as int] == count_rank(s@, q),
            slot_inv(quad, quad_pred(s@), rr as int),
            slot_inv(trips, trips_pred(s@), rr as int),
            slot_inv(pair, pair_pred(s@), rr as int),
            slot_inv(second_pair, second_pair_pred(s@), rr as int),
            slot_inv(kicker, kicker_pred(s@), rr as int),
        decreases rr,
    {
        let ghost sv = s@;
        let ghost rri = rr as int;
        let c = counts[rr as usize];
        assert(c == count_rank(sv, rr));
        if c == 4 {
            if quad.is_none() {
                quad = Some(rr);
            }
        } else if c == 3 {
            if trips.is_none() {
                trips = Some(rr);
                proof {
                    assert(slot_inv(trips, trips_pred(sv), rri - 1));
                    lemma_slot_value(trips, trips_pred(sv), rri - 1);
                    assert(trips_rank(sv) == Some(rr));
                    assert(!pair_pred(sv)(rr));
                }
            } else if pair.is_none() {
                proof {
                    lemma_slot_value(trips, trips_pred(sv), rri);
                    assert(trips_rank(sv) == trips);
                    assert(pair_pred(sv)(rr));
                }
                pair = Some(rr);
                proof {
                    assert(slot_inv(pair, pair_pred(sv), rri - 1));
                    lemma_slot_value(pair, pair_pred(sv), rri - 1);
                    assert(pair_rank(sv) == Some(rr));
                    assert(!second_pair_pred(sv)(rr));
                    assert(!kicker_pred(sv)(rr));
                }
            } else {
                proof {
                    lemma_slot_value(trips, trips_pred(sv), rri);
                    assert(trips_rank(sv) == trips);
                    assert(pair_pred(sv)(rr));
                }
            }
        } else if c == 2 {
            if pair.is_none() {
                pair = Some(rr);
                proof {
                    assert(slot_inv(pair, pair_pred(sv), rri - 1));
                    lemma_slot_value(pair, pair_pred(sv), rri - 1);
                    assert(pair_rank(sv) == Some(rr));
                    assert(!second_pair_pred(sv)(rr));
                    assert(!kicker_pred(sv)(rr));
                }
            } else if second_pair.is_none() {
                proof {
                    lemma_slot_value(pair, pair_pred(sv), rri);
                    assert(pair_rank(sv) == pair);
                    assert(second_pair_pred(sv)(rr));
                }
                second_pair = Some(rr);
                proof {
                    assert(slot_inv(second_pair, second_pair_pred(sv), rri - 1));
                    lemma_slot_value(second_pair, second_pair_pred(sv), rri - 1);
                    assert(second_pair_rank(sv) == Some(rr));
                    assert(!kicker_pred(sv)(rr));
                }
            } else {
                proof {
                    lemma_slot_value(pair, pair_pred(sv), rri);
                    lemma_slot_value(second_pair, second_pair_pred(sv), rri);
                    assert(kicker_pred(sv)(rr));
                }
                if kicker.is_none() {
                    kicker = Some(rr);
                }
            }
        } else if c == 1 {
            if kicker.is_none() {
                kicker = Some(rr);
            }
        }
        rr -= 1;
    }

    proof {
        lemma_top_rank_char(quad_pred(s@), 14);
        lemma_top_rank_char(trips_pred(s@), 14);
        lemma_top_rank_char(pair_pred(s@), 14);
        lemma_top_rank_char(second_pair_pred(s@), 14);
        lemma_top_rank_char(kicker_pred(s@), 14);
    }
    Histogram { quad, trips, pair, second_pair, kicker }
}

// ---------------------------------------------------------------------------
// Tie-break vectors and the top-level evaluation.
// ---------------------------------------------------------------------------

/// The ranks of a hand, in order.
pub open spec fn ranks_of(h: Seq<Card>) -> Seq<u8> {
    h.map_values(|c: Card| c.rank)
}

/// The first `n` ranks of `s` whose rank is not `ex`, in order.
pub open spec fn top_excluding(s: Seq<Card>, ex: u8, n: nat) -> Seq<u8>
    decreases s.len(),
{
    if s.len() == 0 || n == 0 {
        Seq::empty()
    } else if s.first().rank == ex {
        top_excluding(s.drop_first(), ex, n)
    } else {
        seq![s.first().rank] + top_excluding(s.drop_first(), ex, (n - 1) as nat)
    }
}

/// [`top_excluding`] never exceeds its budget.
pub proof fn lemma_top_excluding_budget(s: Seq<Card>, ex: u8, n: nat)
    ensures
        top_excluding(s, ex, n).len() <= n,
    decreases s.len(),
{
    if s.len() != 0 && n != 0 {
        if s.first().rank == ex {
            lemma_top_excluding_budget(s.drop_first(), ex, n);
        } else {
            lemma_top_excluding_budget(s.drop_first(), ex, (n - 1) as nat);
        }
    }
}

/// Appending one card extends the selection exactly when the budget is not
/// yet spent and the card's rank is not excluded.
proof fn lemma_top_excluding_push(s: Seq<Card>, c: Card, ex: u8, n: nat)
    ensures
        top_excluding(s.push(c), ex, n) == if top_excluding(s, ex, n).len() < n && c.rank != ex {
            top_excluding(s, ex, n).push(c.rank)
        } else {
            top_excluding(s, ex, n)
        },
    decreases s.len(),
{
    lemma_top_excluding_budget(s, ex, n);
    if s.len() == 0 {
        if n == 0 {
        } else if c.rank == ex {
            assert(s.push(c).drop_first() =~= s);
        } else {
            assert(s.push(c).first() == c);
            assert(s.push(c).drop_first() =~= Seq::<Card>::empty());
            assert(top_excluding(Seq::<Card>::empty(), ex, (n - 1) as nat) =~= Seq::<u8>::empty());
            assert(top_excluding(s.push(c), ex, n) == seq![c.rank] + top_excluding(
                s.push(c).drop_first(),
                ex,
                (n - 1) as nat,
            ));
            assert(top_excluding(s.push(c), ex, n) =~= seq![c.rank]);
            assert(top_excluding(s, ex, n).push(c.rank) =~= seq![c.rank]);
        }
    } else if n == 0 {
    } else {
        assert(s.push(c).drop_first() =~= s.drop_first().push(c));
        assert(s.push(c).first() == s.first());
        if s.first().rank == ex {
            lemma_top_excluding_push(s.drop_first(), c, ex, n);
        } else {
            lemma_top_excluding_push(s.drop_first(), c, ex, (n - 1) as nat);
            lemma_top_excluding_budget(s.drop_first(), ex, (n - 1) as nat);
            if top_excluding(s.drop_first(), ex, (n - 1) as nat).len() < n - 1 && c.rank != ex {
                assert(seq![s.first().rank] + top_excluding(s.drop_first(), ex, (n - 1) as nat).push(
                    c.rank,
                ) =~= (seq![s.first().rank] + top_excluding(s.drop_first(), ex, (n - 1) as nat)).push(
                    c.rank,
                ));
            }
        }
    }
}

/// Once the budget is spent on a prefix, the rest of `s` adds nothing.
proof fn lemma_top_excluding_saturated(s: Seq<Card>, ex: u8, n: nat, i: int)
    requires
        0 <= i <= s.len(),
        top_excluding(s.take(i), ex, n).len() == n,
    ensures
        top_excluding(s, ex, n) == top_excluding(s.take(i), ex, n),
    decreases s.len() - i,
{
    if i == s.len() {
        assert(s.take(i) =~= s);
    } else {
        assert(s.take(i + 1) =~= s.take(i).push(s[i]));
        lemma_top_excluding_push(s.take(i), s[i], ex, n);
        lemma_top_excluding_saturated(s, ex, n, i + 1);
    }
}

/// The second entry of the four-of-a-kind tie-break: the kicker slot, or the
/// demoted triple when all three remaining cards share one rank.
pub open spec fn quad_kicker(s: Seq<Card>) -> u8 {
    if kicker_rank(s) is Some {
        kicker_rank(s)->Some_0
    } else if trips_rank(s) is Some {
        trips_rank(s)->Some_0
    } else {
        0
    }
}

/// The kicker entry of the two-pair tie-break.
pub open spec fn kicker_or_zero(s: Seq<Card>) -> u8 {
    if kicker_rank(s) is Some {
        kicker_rank(s)->Some_0
    } else {
        0
    }
}

/// The best category achievable with five cards out of the 7-card pool
/// `hand`, tested from strongest to weakest.
pub open spec fn best_category(hand: Seq<Card>) -> u8 {
    let s = sort_desc(hand);
    let subs = subsets7(s);
    if first_idx(subs, straight_flush_pred(), 0) < 21 {
        STRAIGHT_FLUSH
    } else if quad_rank(s) is Some {
        QUADS
    } else if trips_rank(s) is Some && pair_rank(s) is Some {
        FULL_HOUSE
    } else if first_idx(subs, flush_pred(), 0) < 21 {
        FLUSH
    } else if first_idx(subs, straight_pred(), 0) < 21 {
        STRAIGHT
    } else if trips_rank(s) is Some {
        TRIPLE
    } else if pair_rank(s) is Some && second_pair_rank(s) is Some {
        TWO_PAIR
    } else if pair_rank(s) is Some {
        PAIR
    } else {
        HIGH
    }
}

/// The tie-break vector of the 7-card pool `hand`: the comparison keys of its
/// best category, strongest first.
pub open spec fn spec_tiebreak(hand: Seq<Card>) -> Seq<u8> {
    let s = sort_desc(hand);
    let subs = subsets7(s);
    let cat = best_category(hand);
    if cat == STRAIGHT_FLUSH {
        seq![subs[first_idx(subs, straight_flush_pred(), 0)].first().rank]
    } else if cat == QUADS {
        seq![quad_rank(s)->Some_0, quad_kicker(s)]
    } else if cat == FULL_HOUSE {
        seq![trips_rank(s)->Some_0, pair_rank(s)->Some_0]
    } else if cat == FLUSH {
        ranks_of(subs[first_idx(subs, flush_pred(), 0)])
    } else if cat == STRAIGHT {
        seq![subs[first_idx(subs, straight_pred(), 0)].first().rank]
    } else if cat == TRIPLE {
        seq![trips_rank(s)->Some_0] + top_excluding(s, trips_rank(s)->Some_0, 2)
    } else if cat == TWO_PAIR {
        seq![pair_rank(s)->Some_0, second_pair_rank(s)->Some_0, kicker_or_zero(s)]
    } else if cat == PAIR {
        seq![pair_rank(s)->Some_0] + top_excluding(s, pair_rank(s)->Some_0, 3)
    } else {
        ranks_of(s.take(5))
    }
}

/// Collect `seq![ex] + top_excluding(sorted, ex, budget)` from the sorted
/// pool: the group rank first, then the best remaining ranks.
fn collect_excluding(sorted: &Vec<Card>, ex: u8, budget: usize) -> (r: Vec<u8>)
    requires
        sorted@.len() == 7,
        budget < 7,
    ensures
        r@ == seq![ex] + top_excluding(sorted@, ex, budget as nat),
{
    proof {
        assert(sorted@.take(7) =~= sorted@);
    }
    let mut strength: Vec<u8> = Vec::new();
    strength.push(ex);
    proof {
        assert(strength@ =~= seq![ex] + top_excluding(sorted@.take(0), ex, budget as nat));
    }
    let mut i: usize = 0;
    while i < 7
        invariant_except_break
            i <= 7,
            budget < 7,
            sorted@.len() == 7,
            sorted@.take(7) == sorted@,
            strength@.len() <= budget + 1,
            strength@ == seq![ex] + top_excluding(sorted@.take(i as int), ex, budget as nat),
        ensures
            strength@ == seq![ex] + top_excluding(sorted@, ex, budget as nat),
        decreases 7 - i,
    {
        proof {
            assert(sorted@.take(i as int + 1) =~= sorted@.take(i as int).push(
                sorted@[i as int],
            ));
            lemma_top_excluding_push(sorted@.take(i as int), sorted@[i as int], ex, budget as nat);
            lemma_top_excluding_budget(sorted@.take(i as int), ex, budget as nat);
        }
        if sorted[i].rank != ex && strength.len() < budget + 1 {
            strength.push(sorted[i].rank);
            proof {
                assert((seq![ex] + top_excluding(sorted@.take(i as int), ex, budget as nat)).push(
                    sorted@[i as int].rank,
                ) =~= seq![ex] + top_excluding(sorted@.take(i as int), ex, budget as nat).push(
                    sorted@[i as int].rank,
                ));
            }
            i += 1;
            if strength.len() == budget + 1 {
                proof {
                    lemma_top_excluding_saturated(sorted@, ex, budget as nat, i as int);
                }
                break;
            }
        } else {
            i += 1;
        }
    }
    strength
}

/// The label of a hand category, for result strings.
pub fn hand_to_string(hand: &u8) -> (r: String)
    ensures
        *hand == STRAIGHT_FLUSH ==> r@ == "Straight Flush"@,
        *hand == QUADS ==> r@ == "Four of a Kind"@,
        *hand == FULL_HOUSE ==> r@ == "Full House"@,
        *hand == FLUSH ==> r@ == "Flush"@,
        *hand == STRAIGHT ==> r@ == "Straight"@,
        *hand == TRIPLE ==> r@ == "Three of a Kind"@,
        *hand == TWO_PAIR ==> r@ == "Two Pair"@,
        *hand == PAIR ==> r@ == "Pair"@,
        *hand == HIGH ==> r@ == "High Card"@,
{
    match *hand {
        8u8 => String::from_str("Straight Flush"),
        7u8 => String::from_str("Four of a Kind"),
        6u8 => String::from_str("Full House"),
        5u8 => String::from_str("Flush"),
        4u8 => String::from_str("Straight"),
        3u8 => String::from_str("Three of a Kind"),
        2u8 => String::from_str("Two Pair"),
        1u8 => String::from_str("Pair"),
        0u8 => String::from_str("High Card"),
        _ => String::from_str("Unknown Hand"),
    }
}

/// Rank the best 5-card hand inside the 7-card pool `hand` for `player`.
///
/// The result carries the best achievable category, and the tie-break keys
/// of the first qualifying subset in enumeration order (for the subset-based
/// categories) or of the histogram groups (for the others).  Known
/// limitation: when several subsets qualify — say six cards of one suit —
/// the first enumerated one supplies the tie-break keys, which may leave the
/// suit's highest card out; the category itself is unaffected.
pub fn evaluate_best_hand(player: usize, hand: &Vec<Card>) -> (r: CardRanking)
    requires
        hand@.len() == 7,
        forall|k: int| 0 <= k < 7 ==> card_valid(#[trigger] hand@[k]),
    ensures
        r.player == player,
        r.hand == best_category(hand@),
        r.tiebreak@ == spec_tiebreak(hand@),
{
    let ghost s = sort_desc(hand@);
    let working_hand = sort_hand(hand);
    proof {
        assert forall|k: int| 0 <= k < 7 implies card_valid(#[trigger] working_hand@[k]) by {
            assert(seq_has_card(hand@, working_hand@[k]));
            let j = choose|j: int| 0 <= j < hand@.len() && hand@[j] == working_hand@[k];
            assert(card_valid(hand@[j]));
        }
    }

    let subsets = to_ranked_subsets(&working_hand);
    proof {
        let subs = subsets7(s);
        assert forall|k: int| 0 <= k < 21 implies (#[trigger] subsets@[k])@.len() == 5 && (forall|
            m: int,
        |
            0 <= m < 5 ==> card_valid(#[trigger] subsets@[k]@[m])) by {
            let i = pair_first(k);
            let j = pair_second(k);
            assert(0 <= i < j < 7);
            assert(views_of(subsets@)[k] == rm2(s, i, j));
            assert(subsets@[k]@ == rm2(s, i, j));
            assert forall|m: int| 0 <= m < 5 implies card_valid(#[trigger] subsets@[k]@[m]) by {
                if m < i {
                    assert(subsets@[k]@[m] == s[m]);
                } else if m < j - 1 {
                    assert(subsets@[k]@[m] == s[m + 1]);
                } else {
                    assert(subsets@[k]@[m] == s[m + 2]);
                }
            }
        }
    }

    match is_straight_flush(&subsets) {
        Some(best_hand) => {
            proof {
                let subs = subsets7(s);
                assert(views_of(subsets@) == subs);
                let idx = first_idx(subs, straight_flush_pred(), 0);
                assert(idx == first_idx(views_of(subsets@), straight_flush_pred(), 0));
                lemma_first_idx_char(subs, straight_flush_pred(), 0);
                assert(0 <= idx < 21);
                assert(best_hand@ == subsets@[idx]@);
                assert(views_of(subsets@)[idx] == subsets@[idx]@);
                assert(best_hand@ == subs[idx]);
                assert(best_hand@.len() == 5);
            }
            let mut tiebreak: Vec<u8> = Vec::new();
            tiebreak.push(best_hand[0].rank);
            proof {
                assert(tiebreak@ =~= seq![best_hand@[0].rank]);
            }
            return CardRanking { player, hand: STRAIGHT_FLUSH, tiebreak };
        },
        None => {},
    }

    let histogram = to_histogram(&working_hand);

    // Quads
    if let Some(q) = histogram.quad {
        let kick = match histogram.kicker {
            Some(k) => k,
            None => match histogram.trips {
                Some(t) => t,
                None => 0,
            },
        };
        let mut tiebreak: Vec<u8> = Vec::new();
        tiebreak.push(q);
        tiebreak.push(kick);
        proof {
            assert(tiebreak@ =~= seq![q, kick]);
        }
        return CardRanking { player, hand: QUADS, tiebreak };
    }

    // Full house
    if histogram.trips.is_some() && histogram.pair.is_some() {
        let t = histogram.trips.unwrap();
        let p = histogram.pair.unwrap();
        let mut tiebreak: Vec<u8> = Vec::new();
        tiebreak.push(t);
        tiebreak.push(p);
        proof {
            assert(tiebreak@ =~= seq![t, p]);
        }
        return CardRanking { player, hand: FULL_HOUSE, tiebreak };
    }

    match is_flush(&subsets) {
        Some(best_hand) => {
            proof {
                let subs = subsets7(s);
                assert(views_of(subsets@) == subs);
                let idx = first_idx(subs, flush_pred(), 0);
                assert(idx == first_idx(views_of(subsets@), flush_pred(), 0));
                lemma_first_idx_char(subs, flush_pred(), 0);
                assert(0 <= idx < 21);
                assert(best_hand@ == subsets@[idx]@);
                assert(views_of(subsets@)[idx] == subsets@[idx]@);
                assert(best_hand@ == subs[idx]);
                assert(best_hand@.len() == 5);
            }
            let mut strength: Vec<u8> = Vec::new();
            let mut m: usize = 0;
            while m < 5
                invariant
                    m <= 5,
                    best_hand@.len() == 5,
                    strength@.len() == m as nat,
                    forall|q2: int| 0 <= q2 < m ==> strength@[q2] == best_hand@[q2].rank,
                decreases 5 - m,
            {
                strength.push(best_hand[m].rank);
                m += 1;
            }
            proof {
                assert(strength@ =~= ranks_of(best_hand@));
            }
            return CardRanking { player, hand: FLUSH, tiebreak: strength };
        },
        None => {},
    }

    match is_straight(&subsets) {
        Some(best_hand) => {
            proof {
                let subs = subsets7(s);
                assert(views_of(subsets@) == subs);
                let idx = first_idx(subs, straight_pred(), 0);
                assert(idx == first_idx(views_of(subsets@), straight_pred(), 0));
                lemma_first_idx_char(subs, straight_pred(), 0);
                assert(0 <= idx < 21);
                assert(best_hand@ == subsets@[idx]@);
                assert(views_of(subsets@)[idx] == subsets@[idx]@);
                assert(best_hand@ == subs[idx]);
                assert(best_hand@.len() == 5);
            }
            let mut tiebreak: Vec<u8> = Vec::new();
            tiebreak.push(best_hand[0].rank);
            proof {
                assert(tiebreak@ =~= seq![best_hand@[0].rank]);
            }
            return CardRanking { player, hand: STRAIGHT, tiebreak };
        },
        None => {},
    }

    // Triple, with the two next best cards
    if let Some(t) = histogram.trips {
        let tiebreak = collect_excluding(&working_hand, t, 2);
        return CardRanking { player, hand: TRIPLE, tiebreak };
    }

    // Two pair, with the best remaining kicker
    if histogram.pair.is_some() && histogram.second_pair.is_some() {
        let p = histogram.pair.unwrap();
        let sp = histogram.second_pair.unwrap();
        let kick = match histogram.kicker {
            Some(k) => k,
            None => 0,
        };
        let mut tiebreak: Vec<u8> = Vec::new();
        tiebreak.push(p);
        tiebreak.push(sp);
        tiebreak.push(kick);
        proof {
            assert(tiebreak@ =~= seq![p, sp, kick]);
        }
        return CardRanking { player, hand: TWO_PAIR, tiebreak };
    }

    // Pair, with the three next best cards
    if let Some(p) = histogram.pair {
        let tiebreak = collect_excluding(&working_hand, p, 3);
        return CardRanking { player, hand: PAIR, tiebreak };
    }

    // High card: the top five ranks
    let mut strength: Vec<u8> = Vec::new();
    let mut m: usize = 0;
    while m < 5
        invariant
            m <= 5,
            working_hand@.len() == 7,
            strength@.len() == m as nat,
            forall|q2: int| 0 <= q2 < m ==> strength@[q2] == working_hand@[q2].rank,
        decreases 5 - m,
    {
        strength.push(working_hand[m].rank);
        m += 1;
    }
    proof {
        assert(strength@ =~= ranks_of(s.take(5)));
    }
    CardRanking { player, hand: HIGH, tiebreak: strength }
}

} // verus!
