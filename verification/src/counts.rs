//! Counting tiles that satisfy a fixed predicate, and the small lemmas the
//! board proofs need about such counts.

use vstd::multiset::Multiset;
use vstd::prelude::*;

use crate::tile::State;
use crate::tile::Tile;

verus! {

/// The tile predicates the board bookkeeping counts.
pub enum TilePred {
    IsMine,
    IsSafe,
    IsFlagged,
    IsFlaggedMine,
    IsUncoveredSafe,
    IsCovered,
}

/// Whether a tile satisfies a predicate.
pub open spec fn tile_pred(p: TilePred, t: Tile) -> bool {
    match p {
        TilePred::IsMine => t.mine,
        TilePred::IsSafe => !t.mine,
        TilePred::IsFlagged => t.state == State::Flagged,
        TilePred::IsFlaggedMine => t.state == State::Flagged && t.mine,
        TilePred::IsUncoveredSafe => t.state == State::Uncovered && !t.mine,
        TilePred::IsCovered => t.state == State::Covered,
    }
}

/// How many tiles of `s` satisfy `p`.
pub open spec fn count_p(s: Seq<Tile>, p: TilePred) -> int
    decreases s.len(),
{
    if s.len() == 0 {
        0
    } else {
        count_p(s.drop_last(), p) + if tile_pred(p, s.last()) {
            1int
        } else {
            0int
        }
    }
}

pub proof fn lemma_count_p_bounds(s: Seq<Tile>, p: TilePred)
    ensures
        0 <= count_p(s, p) <= s.len(),
    decreases s.len(),
{
    if s.len() > 0 {
        lemma_count_p_bounds(s.drop_last(), p);
    }
}

pub proof fn lemma_count_p_update(s: Seq<Tile>, p: TilePred, i: int, t: Tile)
    requires
        0 <= i < s.len(),
    ensures
        count_p(s.update(i, t), p) == count_p(s, p) + (if tile_pred(p, t) {
            1int
        } else {
            0int
        }) - (if tile_pred(p, s[i]) {
            1int
        } else {
            0int
        }),
    decreases s.len(),
{
    let s2 = s.update(i, t);
    if i == s.len() - 1 {
        assert(s2.drop_last() =~= s.drop_last());
        assert(s2.last() == t);
        assert(s.last() == s[i]);
    } else {
        assert(s2.drop_last() =~= s.drop_last().update(i, t));
        lemma_count_p_update(s.drop_last(), p, i, t);
        assert(s2.last() == s.last());
    }
}

/// Counts agree whenever the predicates agree pointwise on the two sequences.
pub proof fn lemma_count_p_congruent(s1: Seq<Tile>, p1: TilePred, s2: Seq<Tile>, p2: TilePred)
    requires
        s1.len() == s2.len(),
        forall|j: int| 0 <= j < s1.len() ==> tile_pred(p1, #[trigger] s1[j]) == tile_pred(p2, s2[j]),
    ensures
        count_p(s1, p1) == count_p(s2, p2),
    decreases s1.len(),
{
    if s1.len() > 0 {
        assert(tile_pred(p1, s1[s1.len() - 1]) == tile_pred(p2, s2[s2.len() - 1]));
        lemma_count_p_congruent(s1.drop_last(), p1, s2.drop_last(), p2);
    }
}

/// If no tile satisfies `p`, the count is zero.
pub proof fn lemma_count_p_none(s: Seq<Tile>, p: TilePred)
    requires
        forall|j: int| 0 <= j < s.len() ==> !tile_pred(p, #[trigger] s[j]),
    ensures
        count_p(s, p) == 0,
    decreases s.len(),
{
    if s.len() > 0 {
        assert(!tile_pred(p, s[s.len() - 1]));
        lemma_count_p_none(s.drop_last(), p);
    }
}

/// A tile satisfying `p` forces a positive count.
pub proof fn lemma_count_p_witness(s: Seq<Tile>, p: TilePred, j: int)
    requires
        0 <= j < s.len(),
        tile_pred(p, s[j]),
    ensures
        count_p(s, p) >= 1,
    decreases s.len(),
{
    lemma_count_p_bounds(s.drop_last(), p);
    if j < s.len() - 1 {
        lemma_count_p_witness(s.drop_last(), p, j);
    }
}

/// A count of at least two leaves a witness apart from any single index.
pub proof fn lemma_count_p_other(s: Seq<Tile>, p: TilePred, k: int) -> (j: int)
    requires
        count_p(s, p) >= 2,
    ensures
        0 <= j < s.len(),
        j != k,
        tile_pred(p, s[j]),
    decreases s.len(),
{
    lemma_count_p_bounds(s, p);
    let last = s.len() - 1;
    if tile_pred(p, s[last]) && last != k {
        last
    } else if tile_pred(p, s[last]) {
        // the last tile is index k itself; one more witness sits in the prefix
        let j = lemma_count_p_first(s.drop_last(), p);
        j
    } else {
        let j = lemma_count_p_other(s.drop_last(), p, k);
        j
    }
}

/// A positive count yields a witness index.
pub proof fn lemma_count_p_first(s: Seq<Tile>, p: TilePred) -> (j: int)
    requires
        count_p(s, p) >= 1,
    ensures
        0 <= j < s.len(),
        tile_pred(p, s[j]),
    decreases s.len(),
{
    let last = s.len() - 1;
    if tile_pred(p, s[last]) {
        last
    } else {
        let j = lemma_count_p_first(s.drop_last(), p);
        j
    }
}

/// Predicates that are pointwise complementary split the length.
pub proof fn lemma_count_p_complement(s: Seq<Tile>, p: TilePred, q: TilePred)
    requires
        forall|j: int| 0 <= j < s.len() ==> tile_pred(q, #[trigger] s[j]) == !tile_pred(p, s[j]),
    ensures
        count_p(s, p) + count_p(s, q) == s.len(),
    decreases s.len(),
{
    if s.len() > 0 {
        assert(tile_pred(q, s[s.len() - 1]) == !tile_pred(p, s[s.len() - 1]));
        lemma_count_p_complement(s.drop_last(), p, q);
    }
}

/// When every uncovered-safe tile is counted and the count exhausts the safe
/// tiles, every safe tile must be uncovered.
pub proof fn lemma_all_safe_uncovered(s: Seq<Tile>)
    requires
        count_p(s, TilePred::IsUncoveredSafe) == s.len() - count_p(s, TilePred::IsMine),
    ensures
        forall|j: int| 0 <= j < s.len() && !(#[trigger] s[j]).mine ==> s[j].state == State::Uncovered,
    decreases s.len(),
{
    if s.len() > 0 {
        let prefix = s.drop_last();
        lemma_count_p_bounds(prefix, TilePred::IsUncoveredSafe);
        lemma_count_p_bounds(prefix, TilePred::IsMine);
        lemma_count_p_complement(prefix, TilePred::IsMine, TilePred::IsSafe);
        lemma_count_p_le(prefix, TilePred::IsUncoveredSafe, TilePred::IsSafe);
        lemma_all_safe_uncovered(prefix);
        assert forall|j: int|
            0 <= j < s.len() && !(#[trigger] s[j]).mine implies s[j].state
            == State::Uncovered by {
            if j < s.len() - 1 {
                assert(prefix[j] == s[j]);
                assert(!prefix[j].mine);
            }
        }
    }
}

/// A pointwise implication between predicates bounds the counts.
pub proof fn lemma_count_p_le(s: Seq<Tile>, p: TilePred, q: TilePred)
    requires
        forall|j: int| 0 <= j < s.len() && tile_pred(p, #[trigger] s[j]) ==> tile_pred(q, s[j]),
    ensures
        count_p(s, p) <= count_p(s, q),
    decreases s.len(),
{
    if s.len() > 0 {
        assert(tile_pred(p, s[s.len() - 1]) ==> tile_pred(q, s[s.len() - 1]));
        lemma_count_p_le(s.drop_last(), p, q);
    }
}

/// A pointwise implication that fails at one index makes the count strictly
/// smaller.
pub proof fn lemma_count_p_lt(s: Seq<Tile>, p: TilePred, q: TilePred, j: int)
    requires
        forall|k: int| 0 <= k < s.len() && tile_pred(p, #[trigger] s[k]) ==> tile_pred(q, s[k]),
        0 <= j < s.len(),
        tile_pred(q, s[j]),
        !tile_pred(p, s[j]),
    ensures
        count_p(s, p) < count_p(s, q),
    decreases s.len(),
{
    if j == s.len() - 1 {
        lemma_count_p_le(s.drop_last(), p, q);
    } else {
        assert(tile_pred(p, s[s.len() - 1]) ==> tile_pred(q, s[s.len() - 1]));
        lemma_count_p_lt(s.drop_last(), p, q, j);
    }
}

/// How many entries of a boolean sequence are true.
pub open spec fn count_true(s: Seq<bool>) -> int
    decreases s.len(),
{
    if s.len() == 0 {
        0
    } else {
        count_true(s.drop_last()) + if s.last() {
            1int
        } else {
            0int
        }
    }
}

pub proof fn lemma_count_true_push(s: Seq<bool>, b: bool)
    ensures
        count_true(s.push(b)) == count_true(s) + if b {
            1int
        } else {
            0int
        },
{
    assert(s.push(b).drop_last() =~= s);
    assert(s.push(b).last() == b);
}

/// The number of true entries is the multiplicity of `true` in the sequence's
/// multiset, so it survives any permutation of the sequence.
pub proof fn lemma_count_true_multiset(s: Seq<bool>)
    ensures
        count_true(s) == s.to_multiset().count(true),
    decreases s.len(),
{
    broadcast use vstd::seq_lib::group_to_multiset_ensures;
    broadcast use vstd::multiset::group_multiset_axioms;

    if s.len() == 0 {
        assert(s.to_multiset() =~= Multiset::<bool>::empty());
    } else {
        let prefix = s.drop_last();
        lemma_count_true_multiset(prefix);
        assert(prefix.push(s.last()) =~= s);
        assert(prefix.push(s.last()).to_multiset() =~= prefix.to_multiset().insert(s.last()));
    }
}

/// A tile sequence carrying exactly the mine markers of a boolean sequence has
/// as many mines as the markers have true entries.
pub proof fn lemma_count_mines_from_bools(s: Seq<Tile>, b: Seq<bool>)
    requires
        s.len() == b.len(),
        forall|j: int| 0 <= j < s.len() ==> (#[trigger] s[j]).mine == b[j],
    ensures
        count_p(s, TilePred::IsMine) == count_true(b),
    decreases s.len(),
{
    if s.len() > 0 {
        assert(s[s.len() - 1].mine == b[b.len() - 1]);
        lemma_count_mines_from_bools(s.drop_last(), b.drop_last());
    }
}

} // verus!
