//! The distributions of the positions that a search has met, kept so that the
//! oracle is asked once for each position.

use vstd::prelude::*;
use std::collections::HashMap;
use crate::board::{cell_at, get_cell, Board};
use crate::distribution::MoveDistribution;
use crate::repetition::{entry_of, find_entry, lemma_entry_push, lemma_entry_update};

verus! {

/// The hash `h` after one more cell with the value `v`.
pub open spec fn mixed(h: u64, v: i8) -> u64 {
    ((h * 1099511628211 + v + 128) % 0x1_0000_0000_0000_0000) as u64
}

/// The hash of the first `n` cells of a board in row-major order.
pub open spec fn board_hash_upto(b: Board, n: int) -> u64
    decreases n,
{
    if n <= 0 {
        0
    } else {
        mixed(board_hash_upto(b, n - 1), cell_at(b, (n - 1) / 11, (n - 1) % 11))
    }
}

/// The hash of a board: the number of the bucket that holds its entry.
pub open spec fn board_hash(b: Board) -> u64 {
    board_hash_upto(b, 121)
}

/// The hash of a board.
pub fn hash_board(b: &Board) -> (h: u64)
    ensures
        h == board_hash(*b),
{
    let mut h: u64 = 0;
    for x in 0..11usize
        invariant
            h == board_hash_upto(*b, 11 * x),
    {
        for y in 0..11usize
            invariant
                x < 11,
                h == board_hash_upto(*b, 11 * x + y),
        {
            let ghost n = 11 * x + y;
            assert(n / 11 == x && n % 11 == y);
            let v = get_cell(b, x, y);
            let wide: u128 = (h as u128) * 1099511628211u128 + ((v as i16 + 128) as u128);
            h = (wide % 0x1_0000_0000_0000_0000u128) as u64;
        }
    }
    h
}

/// The distributions of positions, each found again by its position.
pub struct DistributionCache {
    buckets: HashMap<u64, Vec<(Board, MoveDistribution)>>,
}

impl DistributionCache {
    /// The distribution that the cache holds for the position `b`, if it holds one.
    pub closed spec fn entry(&self, b: Board) -> Option<MoveDistribution> {
        if self.buckets@.contains_key(board_hash(b)) {
            entry_of(self.buckets@[board_hash(b)]@, b)
        } else {
            None
        }
    }

    /// Every distribution in the cache is well formed.
    pub closed spec fn wf(&self) -> bool {
        forall|h: u64, i: int|
            self.buckets@.contains_key(h) && 0 <= i < self.buckets@[h]@.len() ==> (
            #[trigger] self.buckets@[h]@[i]).1.wf()
    }

    /// A cache that holds nothing.
    pub fn new() -> (cache: DistributionCache)
        ensures
            cache.wf(),
            forall|b: Board| #[trigger] cache.entry(b) is None,
    {
        DistributionCache { buckets: HashMap::new() }
    }

    /// The distribution kept for the position `board`, if one is kept.
    pub fn get(&self, board: &Board) -> (found: Option<&MoveDistribution>)
        requires
            self.wf(),
        ensures
            match found {
                Some(distr) => self.entry(*board) == Some(*distr) && distr.wf(),
                None => self.entry(*board) is None,
            },
    {
        let h = hash_board(board);
        match self.buckets.get(&h) {
            Some(bucket) => match find_entry(bucket, board) {
                Some(i) => {
                    assert(self.buckets@[h]@[i as int].1.wf());
                    Some(&bucket[i].1)
                },
                None => None,
            },
            None => None,
        }
    }

    /// Keeps `distr` as the distribution of the position `board`, in place of the
    /// one kept for it before, if there was one. What is kept for other positions
    /// stays.
    pub fn insert(&mut self, board: Board, distr: MoveDistribution)
        requires
            old(self).wf(),
            distr.wf(),
        ensures
            final(self).wf(),
            final(self).entry(board) == Some(distr),
            forall|c: Board| c != board ==> #[trigger] final(self).entry(c) == old(self).entry(c),
    {
        let h = hash_board(&board);
        let ghost before = self.buckets@;
        let mut bucket: Vec<(Board, MoveDistribution)> = match self.buckets.remove(&h) {
            Some(bucket) => bucket,
            None => Vec::new(),
        };
        let ghost old_bucket = bucket@;
        proof {
            if !before.contains_key(h) {
                assert forall|c: Board| entry_of(old_bucket, c) is None by {
                    crate::repetition::lemma_entry_absent(old_bucket, c);
                }
            }
            assert forall|i: int| 0 <= i < old_bucket.len() implies (#[trigger] old_bucket[i]).1.wf() by {
                assert(before[h]@[i].1.wf());
            }
        }
        match find_entry(&bucket, &board) {
            Some(i) => {
                bucket[i] = (board, distr);
                proof {
                    assert(bucket@ == old_bucket.update(i as int, (board, distr)));
                    assert forall|c: Board|
                        entry_of(bucket@, c) == (if c == board {
                            Some(distr)
                        } else {
                            entry_of(old_bucket, c)
                        }) by {
                        lemma_entry_update(old_bucket, i as int, board, distr, c);
                    }
                }
            },
            None => {
                bucket.push((board, distr));
                proof {
                    assert forall|c: Board|
                        entry_of(bucket@, c) == (if c == board {
                            Some(distr)
                        } else {
                            entry_of(old_bucket, c)
                        }) by {
                        lemma_entry_push(old_bucket, board, distr, c);
                    }
                }
            },
        }
        let ghost new_bucket = bucket@;
        self.buckets.insert(h, bucket);
        proof {
            assert forall|k: u64, i: int|
                self.buckets@.contains_key(k) && 0 <= i < self.buckets@[k]@.len() implies (
            #[trigger] self.buckets@[k]@[i]).1.wf() by {
                if k == h {
                    if new_bucket[i] != (board, distr) {
                        assert(exists|j: int| 0 <= j < old_bucket.len() && old_bucket[j] == new_bucket[i]);
                    }
                } else {
                    assert(before.contains_key(k) && before[k] == self.buckets@[k]);
                    assert(before[k]@[i].1.wf());
                }
            }
            assert forall|c: Board| c != board implies #[trigger] self.entry(c) == old(self).entry(
                c,
            ) by {
                if board_hash(c) == h {
                    assert(entry_of(new_bucket, c) == entry_of(old_bucket, c));
                } else {
                    let k = board_hash(c);
                    assert(self.buckets@.contains_key(k) == before.contains_key(k));
                    if before.contains_key(k) {
                        assert(self.buckets@[k] == before[k]);
                    }
                }
            }
            assert(entry_of(new_bucket, board) == Some(distr));
        }
    }
}

} // verus!
