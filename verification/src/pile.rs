//! The draw pile: the tiles that are still to be drawn, one entry per tile,
//! built from a table of counts per kind, shuffled once and then consumed
//! from its end.

use crate::tile::TILE_KINDS;
use rand::seq::SliceRandom;
use rand::thread_rng;
use vstd::prelude::*;
use vstd::seq_lib::to_multiset_build;
use vstd::seq_lib::to_multiset_len;

verus! {

/// How often the kind `t` occurs in `s`.
pub open spec fn occurrences(s: Seq<u8>, t: u8) -> nat
    decreases s.len(),
{
    if s.len() == 0 {
        0
    } else {
        occurrences(s.drop_last(), t) + if s.last() == t {
            1nat
        } else {
            0nat
        }
    }
}

/// The sum of the first `n` counts.
pub open spec fn sum_upto(counts: Seq<u8>, n: nat) -> nat
    decreases n,
{
    if n == 0 {
        0
    } else {
        sum_upto(counts, (n - 1) as nat) + counts[n - 1] as nat
    }
}

/// The sum of all counts.
pub open spec fn counts_sum(counts: Seq<u8>) -> nat {
    sum_upto(counts, counts.len())
}

/// `k` entries of the kind `t`.
pub open spec fn run(t: u8, k: nat) -> Seq<u8> {
    Seq::new(k, |i: int| t)
}

/// The first `n` kinds written out: `counts[0]` entries of the first kind,
/// then `counts[1]` entries of the second, and so on.
pub open spec fn expanded_upto(counts: Seq<u8>, n: nat) -> Seq<u8>
    decreases n,
{
    if n == 0 {
        Seq::empty()
    } else {
        expanded_upto(counts, (n - 1) as nat) + run((n - 1) as u8, counts[n - 1] as nat)
    }
}

/// A table of counts written out as one entry per tile, kind after kind.
pub open spec fn expanded(counts: Seq<u8>) -> Seq<u8> {
    expanded_upto(counts, counts.len())
}

/// How many tiles of each kind the standard deck holds beside the start
/// tile.
pub open spec fn standard_counts() -> Seq<u8> {
    seq![2u8, 4, 1, 3, 5, 2, 1, 3, 2, 3, 3, 3, 2, 3, 2, 3, 1, 3, 2, 1, 8, 9, 4, 1]
}

/// The number of tiles in the standard pile.
pub const STANDARD_PILE: usize = 71;

/// The table of counts describes the pile: the pile holds kinds of the
/// catalog only, each kind as often as the table says, and so as many tiles
/// as the counts add up to.
pub open spec fn tallies(counts: Seq<u8>, pile: Seq<u8>) -> bool {
    &&& counts.len() == TILE_KINDS
    &&& forall|i: int| 0 <= i < pile.len() ==> #[trigger] pile[i] < TILE_KINDS
    &&& forall|t: u8| t < TILE_KINDS ==> counts[t as int] == #[trigger] occurrences(pile, t)
    &&& counts_sum(counts) == pile.len()
}

/// Counting a kind by hand agrees with the multiset of the sequence.
pub proof fn lemma_occurrences_multiset(s: Seq<u8>, t: u8)
    ensures
        occurrences(s, t) == s.to_multiset().count(t),
    decreases s.len(),
{
    if s.len() == 0 {
        to_multiset_len(s);
        assert(s.to_multiset().len() == 0);
        assert(s.to_multiset().count(t) <= s.to_multiset().len());
    } else {
        lemma_occurrences_multiset(s.drop_last(), t);
        to_multiset_build(s.drop_last(), s.last());
        assert(s.drop_last().push(s.last()) =~= s);
    }
}

/// Two sequences with the same multiset hold every kind equally often.
pub proof fn lemma_permutation_occurrences(a: Seq<u8>, b: Seq<u8>)
    requires
        a.to_multiset() == b.to_multiset(),
    ensures
        a.len() == b.len(),
        forall|t: u8| #[trigger] occurrences(a, t) == occurrences(b, t),
{
    to_multiset_len(a);
    to_multiset_len(b);
    assert forall|t: u8| #[trigger] occurrences(a, t) == occurrences(b, t) by {
        lemma_occurrences_multiset(a, t);
        lemma_occurrences_multiset(b, t);
    }
}

/// A kind occurs in the sequence exactly if it is one of its entries.
pub proof fn lemma_occurrences_positive(s: Seq<u8>, i: int)
    requires
        0 <= i < s.len(),
    ensures
        occurrences(s, s[i]) > 0,
    decreases s.len(),
{
    if i < s.len() - 1 {
        lemma_occurrences_positive(s.drop_last(), i);
    }
}

/// The occurrences in a concatenation add up.
pub proof fn lemma_occurrences_concat(a: Seq<u8>, b: Seq<u8>, t: u8)
    ensures
        occurrences(a + b, t) == occurrences(a, t) + occurrences(b, t),
    decreases b.len(),
{
    if b.len() == 0 {
        assert(a + b =~= a);
    } else {
        lemma_occurrences_concat(a, b.drop_last(), t);
        assert((a + b).drop_last() =~= a + b.drop_last());
    }
}

/// A run of one kind holds that kind as often as it is long, and no other.
pub proof fn lemma_occurrences_run(v: u8, k: nat, t: u8)
    ensures
        occurrences(run(v, k), t) == if t == v {
            k
        } else {
            0
        },
    decreases k,
{
    if k > 0 {
        lemma_occurrences_run(v, (k - 1) as nat, t);
        assert(run(v, k).drop_last() =~= run(v, (k - 1) as nat));
    }
}

/// A table written out holds as many tiles as the counts add up to, each
/// kind as often as the table says, and no kind beyond the table.
pub proof fn lemma_expanded(counts: Seq<u8>, n: nat)
    requires
        n <= counts.len() <= 256,
    ensures
        expanded_upto(counts, n).len() == sum_upto(counts, n),
        forall|t: u8| #[trigger]
            occurrences(expanded_upto(counts, n), t) == if t < n {
                counts[t as int] as nat
            } else {
                0
            },
        forall|i: int|
            0 <= i < expanded_upto(counts, n).len() ==> #[trigger] expanded_upto(counts, n)[i] < n,
    decreases n,
{
    if n > 0 {
        let m = (n - 1) as nat;
        lemma_expanded(counts, m);
        let head = expanded_upto(counts, m);
        let tail = run(m as u8, counts[m as int] as nat);
        assert(expanded_upto(counts, n) == head + tail);
        assert forall|t: u8| #[trigger]
            occurrences(expanded_upto(counts, n), t) == if t < n {
                counts[t as int] as nat
            } else {
                0
            } by {
            lemma_occurrences_concat(head, tail, t);
            lemma_occurrences_run(m as u8, counts[m as int] as nat, t);
            assert(occurrences(head, t) == if t < m {
                counts[t as int] as nat
            } else {
                0
            });
        }
        assert forall|i: int| 0 <= i < expanded_upto(counts, n).len() implies #[trigger]
            expanded_upto(counts, n)[i] < n by {
            if i < head.len() {
                assert(head[i] < m);
            }
        }
    } else {
        assert forall|t: u8| #[trigger] occurrences(expanded_upto(counts, n), t) == 0 by {}
    }
}

/// Every reordering of a table written out is a pile that the table
/// describes.
pub proof fn lemma_permutation_tallies(counts: Seq<u8>, pile: Seq<u8>)
    requires
        counts.len() == TILE_KINDS,
        pile.to_multiset() == expanded(counts).to_multiset(),
    ensures
        tallies(counts, pile),
        pile.len() == counts_sum(counts),
{
    lemma_expanded(counts, counts.len());
    lemma_permutation_occurrences(pile, expanded(counts));
    assert forall|t: u8| t < TILE_KINDS implies counts[t as int] == #[trigger] occurrences(
        pile,
        t,
    ) by {
        assert(occurrences(pile, t) == occurrences(expanded(counts), t));
    }
    assert forall|i: int| 0 <= i < pile.len() implies #[trigger] pile[i] < TILE_KINDS by {
        lemma_occurrences_positive(pile, i);
        assert(occurrences(pile, pile[i]) == occurrences(expanded(counts), pile[i]));
    }
}

/// Lowering one count by one lowers the sum by one.
pub proof fn lemma_sum_decrement(counts: Seq<u8>, t: int, n: nat)
    requires
        0 <= t < counts.len(),
        n <= counts.len(),
        counts[t] > 0,
    ensures
        sum_upto(counts.update(t, (counts[t] - 1) as u8), n) + if t < n {
            1nat
        } else {
            0nat
        } == sum_upto(counts, n),
    decreases n,
{
    if n > 0 {
        lemma_sum_decrement(counts, t, (n - 1) as nat);
    }
}

/// No count is larger than the sum of the counts.
pub proof fn lemma_count_le_sum(counts: Seq<u8>, t: int, n: nat)
    requires
        0 <= t < n <= counts.len(),
    ensures
        counts[t] <= sum_upto(counts, n),
    decreases n,
{
    if t < n - 1 {
        lemma_count_le_sum(counts, t, (n - 1) as nat);
    }
}

/// A pile that can be counted into a table: it holds at most 255 tiles, all
/// of kinds of the catalog.
pub open spec fn countable(pile: Seq<u8>) -> bool {
    &&& pile.len() <= 255
    &&& forall|i: int| 0 <= i < pile.len() ==> #[trigger] pile[i] < TILE_KINDS
}

/// The standard table adds up to 71 tiles.
pub proof fn lemma_standard_sum()
    ensures
        standard_counts().len() == TILE_KINDS,
        counts_sum(standard_counts()) == STANDARD_PILE,
{
    reveal_with_fuel(sum_upto, 25);
}

/// The generator of random numbers that `rand` keeps for each thread.
#[verifier::external_type_specification]
#[verifier::external_body]
pub struct ExThreadRng(rand::rngs::ThreadRng);

/// `rand::thread_rng`: hands out the generator of the running thread.
/// Nothing is claimed of it.
pub assume_specification[ rand::thread_rng ]() -> (rng: rand::rngs::ThreadRng)
;

/// `rand::seq::SliceRandom::shuffle` on the tiles, driven by `rng`. The
/// order that comes out is random; what is claimed is what holds of every
/// outcome: the shuffle only swaps entries, so the tiles afterwards are the
/// tiles before, each as often as before.
#[verifier::external_body]
fn shuffle_tiles(tiles: &mut Vec<u8>, rng: &mut rand::rngs::ThreadRng)
    ensures
        final(tiles)@.to_multiset() == old(tiles)@.to_multiset(),
{
    tiles.shuffle(rng);
}

/// The tiles that are still to be drawn. The next tile is the last entry.
pub struct DrawPile {
    tiles: Vec<u8>,
}

impl View for DrawPile {
    type V = Seq<u8>;

    /// The kinds of the tiles in the pile; the last is drawn next.
    closed spec fn view(&self) -> Seq<u8> {
        self.tiles@
    }
}

impl DrawPile {
    /// The pile that holds the given tiles, the last of them on top.
    pub fn from_tiles(tiles: Vec<u8>) -> (pile: DrawPile)
        ensures
            pile@ == tiles@,
    {
        DrawPile { tiles }
    }

    /// The table written out, unshuffled: one entry per tile, kind after
    /// kind.
    pub fn in_order(counts: &[u8; 24]) -> (pile: DrawPile)
        ensures
            pile@ == expanded(counts@),
    {
        let mut pieces: Vec<u8> = Vec::new();
        let mut idx: u8 = 0;
        while (idx as usize) < TILE_KINDS
            invariant
                idx <= TILE_KINDS,
                pieces@ == expanded_upto(counts@, idx as nat),
            decreases TILE_KINDS - idx,
        {
            let number: u8 = counts[idx as usize];
            let mut k: u8 = 0;
            while k < number
                invariant
                    k <= number,
                    idx < TILE_KINDS,
                    number == counts@[idx as int],
                    pieces@ == expanded_upto(counts@, idx as nat) + run(idx, k as nat),
                decreases number - k,
            {
                pieces.push(idx);
                k += 1;
                assert(pieces@ =~= expanded_upto(counts@, idx as nat) + run(idx, k as nat));
            }
            idx += 1;
        }
        DrawPile { tiles: pieces }
    }

    /// The table written out and shuffled. Whatever the order, the pile
    /// holds the tiles of the table, each kind as often as the table says.
    pub fn initialize(counts: &[u8; 24]) -> (pile: DrawPile)
        ensures
            pile@.to_multiset() == expanded(counts@).to_multiset(),
            pile@.len() == counts_sum(counts@),
            tallies(counts@, pile@),
    {
        let mut pile = Self::in_order(counts);
        let mut rng = thread_rng();
        shuffle_tiles(&mut pile.tiles, &mut rng);
        proof {
            lemma_permutation_tallies(counts@, pile@);
        }
        pile
    }

    /// The number of tiles left.
    pub fn len(&self) -> (n: usize)
        ensures
            n == self@.len(),
    {
        self.tiles.len()
    }

    /// The kind of the tile that is drawn next, if one is left.
    pub fn peek_next(&self) -> (next: Option<u8>)
        ensures
            next == if self@.len() > 0 {
                Some(self@.last())
            } else {
                None
            },
    {
        let n: usize = self.tiles.len();
        if n > 0 {
            Some(self.tiles[n - 1])
        } else {
            None
        }
    }

    /// Takes the next tile off the pile, if one is left, and returns its
    /// kind: the one that `peek_next` showed.
    pub fn draw(&mut self) -> (next: Option<u8>)
        ensures
            next == if old(self)@.len() > 0 {
                Some(old(self)@.last())
            } else {
                None
            },
            final(self)@ == if old(self)@.len() > 0 {
                old(self)@.drop_last()
            } else {
                old(self)@
            },
    {
        self.tiles.pop()
    }

    /// Counts the tiles of the pile by kind. The table exists exactly if
    /// the pile holds at most 255 tiles, all of kinds of the catalog, and
    /// is then the one table that describes the pile.
    pub fn tally(&self) -> (table: Option<[u8; 24]>)
        ensures
            table is Some <==> countable(self@),
            table is Some ==> tallies(table->Some_0@, self@),
    {
        let n: usize = self.tiles.len();
        if n > 255 {
            return None;
        }
        let mut table: [u8; 24] = [0; 24];
        proof {
            reveal_with_fuel(sum_upto, 25);
            assert(sum_upto(table@, 24) == 0);
        }
        let mut i: usize = 0;
        while i < n
            invariant
                i <= n <= 255,
                n == self@.len(),
                forall|j: int| 0 <= j < i ==> #[trigger] self@[j] < TILE_KINDS,
                forall|t: u8|
                    t < TILE_KINDS ==> table@[t as int] == #[trigger] occurrences(
                        self@.take(i as int),
                        t,
                    ),
                sum_upto(table@, 24) == i,
            decreases n - i,
        {
            let t: u8 = self.tiles[i];
            if t as usize >= TILE_KINDS {
                return None;
            }
            let ghost counted = table@;
            let seen: u8 = table[t as usize];
            proof {
                lemma_count_le_sum(counted, t as int, 24);
            }
            table[t as usize] = seen + 1;
            proof {
                assert(counted =~= table@.update(t as int, (table@[t as int] - 1) as u8));
                lemma_sum_decrement(table@, t as int, 24);
                assert(self@.take(i + 1).drop_last() =~= self@.take(i as int));
                assert forall|k: u8| k < TILE_KINDS implies table@[k as int]
                    == #[trigger] occurrences(self@.take(i + 1), k) by {
                    assert(counted[k as int] == occurrences(self@.take(i as int), k));
                }
            }
            i += 1;
        }
        proof {
            assert(self@.take(n as int) =~= self@);
        }
        Some(table)
    }
}

} // verus!
