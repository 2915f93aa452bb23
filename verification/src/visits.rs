//! How the simulations of one search are shared out among the moves of the root
//! position: a number of visits for each move.

use vstd::prelude::*;
use crate::distribution::MoveDistribution;
use crate::sampling::{shuffle, thread_generator};
use crate::tally::{lemma_sum_bounds_term, lemma_sum_change, lemma_sum_zero, sum_upto};

verus! {

/// Number of draws after which a visit that no draw has placed stays with the
/// move that has lost it.
pub const RESAMPLE_LIMIT: usize = 10000;

/// The sum of the visits.
pub open spec fn visit_total(counts: Seq<usize>) -> nat {
    sum_upto(|i: int| counts[i] as nat, counts.len() as int)
}

/// Whether a move with `count` visits takes one more when visits are shared out
/// again: it has to hold fewer than `minimum - 1`.
pub open spec fn takes_visit(count: usize, minimum: usize) -> bool {
    count + 1 < minimum
}

/// Changing the visits of one move changes the sum by the difference.
pub proof fn lemma_visit_change(counts: Seq<usize>, i: int, v: usize)
    requires
        0 <= i < counts.len(),
    ensures
        visit_total(counts.update(i, v)) + counts[i] == visit_total(counts) + v,
{
    let after = counts.update(i, v);
    lemma_sum_change(
        |j: int| counts[j] as nat,
        |j: int| after[j] as nat,
        counts.len() as int,
        i,
    );
}

/// The visits of one move are at most the sum of all.
pub proof fn lemma_visit_bound(counts: Seq<usize>, i: int)
    requires
        0 <= i < counts.len(),
    ensures
        counts[i] <= visit_total(counts),
{
    lemma_sum_bounds_term(|j: int| counts[j] as nat, counts.len() as int, i);
}

/// One more visit for the move `i`.
fn add_visit(counts: &mut Vec<usize>, i: usize)
    requires
        i < old(counts).len(),
        visit_total(old(counts)@) < usize::MAX,
    ensures
        final(counts)@ == old(counts)@.update(i as int, (old(counts)@[i as int] + 1) as usize),
        final(counts)@[i as int] == old(counts)@[i as int] + 1,
        visit_total(final(counts)@) == visit_total(old(counts)@) + 1,
{
    proof {
        lemma_visit_bound(counts@, i as int);
        lemma_visit_change(counts@, i as int, (counts@[i as int] + 1) as usize);
    }
    let v = counts[i];
    counts[i] = v + 1;
}

/// Draws `num` times from the distribution and counts how often each move came.
pub fn sample_visits(distr: &MoveDistribution, num: usize) -> (counts: Vec<usize>)
    requires
        distr.wf(),
    ensures
        counts.len() == distr.weights().len(),
        visit_total(counts@) == num,
        forall|i: int| 0 <= i < counts.len() && counts[i] > 0 ==> distr.weights()[i] > 0,
{
    let k = distr.len();
    let mut counts: Vec<usize> = Vec::new();
    for i in 0..k
        invariant
            counts.len() == i,
            forall|j: int| 0 <= j < i ==> counts[j] == 0,
    {
        counts.push(0);
    }
    proof {
        lemma_sum_zero(|i: int| counts@[i] as nat, k as int);
    }
    for t in 0..num
        invariant
            distr.wf(),
            counts.len() == distr.weights().len(),
            visit_total(counts@) == t,
            forall|i: int| 0 <= i < counts.len() && counts[i] > 0 ==> distr.weights()[i] > 0,
    {
        let drawn = distr.sample();
        add_visit(&mut counts, drawn);
    }
    counts
}

/// What holds of the visits `after` sharing out again, whatever was drawn, for
/// the visits `before` and the minimum `minimum`: the sum of the visits is kept; a
/// move that had the minimum has what it had; a move that had fewer has fewer
/// still.
pub open spec fn shared_out(before: Seq<usize>, after: Seq<usize>, minimum: usize) -> bool {
    &&& after.len() == before.len()
    &&& visit_total(after) == visit_total(before)
    &&& forall|i: int|
        0 <= i < before.len() && before[i] >= minimum ==> #[trigger] after[i] == before[i]
    &&& forall|i: int|
        0 <= i < before.len() && before[i] < minimum ==> #[trigger] after[i] < minimum
}

/// With visits for `minimum` a move on average, and no move drawn fewer than
/// `minimum` times, every move has `minimum` visits at least after sharing out, and
/// the sum of the visits is as before.
pub proof fn lemma_shared_out_keeps_minimum(before: Seq<usize>, after: Seq<usize>, minimum: usize)
    requires
        shared_out(before, after, minimum),
        visit_total(before) >= minimum * before.len(),
        forall|j: int| 0 <= j < before.len() ==> #[trigger] before[j] >= minimum,
    ensures
        visit_total(after) == visit_total(before),
        forall|i: int| 0 <= i < after.len() ==> #[trigger] after[i] >= minimum,
        after == before,
{
    assert(after =~= before);
}

/// Whether `order` names each of the moves 0, ..., `k - 1`, and nothing else.
pub open spec fn is_order(order: Seq<usize>, k: int) -> bool {
    &&& order.len() == k
    &&& forall|p: int| 0 <= p < k ==> #[trigger] order[p] < k
    &&& forall|i: usize| i < k ==> order.contains(i)
}

/// Whether each of the draws is a move that the distribution with the given
/// weights can draw: one with a weight that is not zero.
pub open spec fn drawable(draws: Seq<usize>, weights: Seq<u64>) -> bool {
    forall|n: int|
        0 <= n < draws.len() ==> (#[trigger] draws[n]) < weights.len() && weights[draws[n] as int]
            > 0
}

/// Whether the draw `d` is a move and takes a visit.
pub open spec fn takes_draw(counts: Seq<usize>, d: usize, minimum: usize) -> bool {
    d < counts.len() && takes_visit(counts[d as int], minimum)
}

/// The indices 0, ..., `k - 1` in order.
fn identity_order(k: usize) -> (order: Vec<usize>)
    ensures
        order.len() == k,
        forall|i: int| 0 <= i < k ==> order[i] == i,
{
    let mut order: Vec<usize> = Vec::new();
    for i in 0..k
        invariant
            order.len() == i,
            forall|j: int| 0 <= j < i ==> order[j] == j,
    {
        order.push(i);
    }
    order
}

/// The indices 0, ..., `k - 1` in a random order: each of them occurs, and nothing else.
fn random_order(k: usize) -> (order: Vec<usize>)
    ensures
        order.len() == k,
        forall|p: int| 0 <= p < k ==> #[trigger] order[p] < k,
        forall|i: usize| i < k ==> order@.contains(i),
{
    let mut order = identity_order(k);
    let ghost before = order@;
    let mut rng = thread_generator();
    shuffle(&mut order, &mut rng);
    proof {
        broadcast use vstd::seq_lib::group_to_multiset_ensures;
        before.to_multiset_ensures();
        order@.to_multiset_ensures();
        assert forall|p: int| 0 <= p < order.len() implies #[trigger] order[p] < k by {
            assert(order@.contains(order[p]));
            assert(order@.to_multiset().count(order[p]) > 0);
            assert(before.contains(order[p]));
        }
        assert forall|i: usize| i < k implies order@.contains(i) by {
            assert(before[i as int] == i);
            assert(before.contains(i));
            assert(order@.to_multiset().count(i) > 0);
        }
    }
    order
}

/// Shares out again the visits of the moves that have fewer than `minimum`. The
/// moves are gone through in a random order. A move with fewer visits than the
/// minimum loses them all. Each of the lost visits goes to a move drawn from the
/// distribution, again and again until a move is drawn that takes it: one that
/// holds fewer than `minimum - 1` visits then. The move that has lost the visits
/// is such a move; a visit that `RESAMPLE_LIMIT` draws have not placed stays
/// with it. The visits are those that `shared_by` gives for the order in which
/// the moves were gone through and for the moves that were drawn, one after the
/// other.
pub fn redistribute(counts: &mut Vec<usize>, distr: &MoveDistribution, minimum: usize)
    requires
        distr.wf(),
        old(counts).len() == distr.weights().len(),
        visit_total(old(counts)@) <= usize::MAX,
    ensures
        shared_out(old(counts)@, final(counts)@, minimum),
        forall|i: int|
            0 <= i < old(counts).len() && #[trigger] final(counts)[i] > 0 ==> old(counts)[i] > 0
                || distr.weights()[i] > 0,
        exists|order: Seq<usize>, draws: Seq<usize>|
            #[trigger] shared_by(old(counts)@, order, draws, minimum) == final(counts)@
                && is_order(order, old(counts).len() as int) && drawable(draws, distr.weights()),
{
    let k: usize = counts.len();
    let order = random_order(k);
    let ghost start = counts@;
    let ghost mut drawn: Seq<usize> = Seq::empty();
    let (first, lost) = settle(counts, &order, 0, minimum);
    let mut at: usize = first;
    let mut pending: usize = lost;
    let mut tries: usize = RESAMPLE_LIMIT;
    proof {
        if pending > 0 {
            lemma_visit_change(start, order[at as int] as int, 0);
        }
    }
    while pending > 0
        invariant
            distr.wf(),
            k == distr.weights().len(),
            counts.len() == k,
            order.len() == k,
            start.len() == k,
            start == old(counts)@,
            forall|q: int| 0 <= q < k ==> #[trigger] order[q] < k,
            drawable(drawn, distr.weights()),
            sharing_wf(
                Sharing { counts: counts@, at: at as int, pending: pending as int, tries: tries as int },
                order@,
                minimum,
            ),
            pending == 0 ==> at == k,
            after_draws(
                settled(
                    Sharing { counts: start, at: 0, pending: 0, tries: RESAMPLE_LIMIT as int },
                    order@,
                    minimum,
                ),
                order@,
                minimum,
                drawn,
            ) == (Sharing {
                counts: counts@,
                at: at as int,
                pending: pending as int,
                tries: tries as int,
            }),
            visit_total(counts@) + pending == visit_total(start),
            forall|i: int| 0 <= i < k && start[i] >= minimum ==> #[trigger] counts[i] == start[i],
            forall|i: int| 0 <= i < k && start[i] < minimum ==> #[trigger] counts[i] < minimum,
            forall|i: int|
                0 <= i < k && #[trigger] counts[i] > 0 ==> start[i] > 0 || distr.weights()[i] > 0,
            pending > 0 ==> start[order@[at as int] as int] > 0
                || distr.weights()[order@[at as int] as int] > 0,
        decreases k - at, pending, tries,
    {
        let d: usize = distr.sample();
        let ghost before = counts@;
        let ghost state = Sharing {
            counts: counts@,
            at: at as int,
            pending: pending as int,
            tries: tries as int,
        };
        proof {
            assert(drawn.push(d).drop_last() =~= drawn);
            drawn = drawn.push(d);
        }
        let (next_at, next_pending, next_tries) = place(
            counts,
            &order,
            at,
            pending,
            tries,
            d,
            minimum,
        );
        proof {
            if counts@ != before {
                let to: int = if takes_draw(before, d, minimum) {
                    d as int
                } else {
                    order[at as int] as int
                };
                lemma_visit_change(before, to, (before[to] + 1) as usize);
            }
        }
        at = next_at;
        pending = next_pending;
        tries = next_tries;
        if pending == 0 {
            let ghost placed_counts = counts@;
            let (found, lost) = settle(counts, &order, at, minimum);
            at = found;
            pending = lost;
            proof {
                if pending > 0 {
                    lemma_visit_change(placed_counts, order[at as int] as int, 0);
                }
            }
        }
    }
    proof {
        assert(shared_by(start, order@, drawn, minimum) == counts@);
        assert(is_order(order@, k as int));
    }
}

/// The visits of the moves of the root position: `num` draws from the
/// distribution, then the visits of the moves with fewer than `minimum` shared out
/// again. The visits are `num` in all, and only moves that the distribution can
/// draw have any.
pub fn choose_possible_moves(distr: &MoveDistribution, num: usize, minimum: usize) -> (counts: Vec<
    usize,
>)
    requires
        distr.wf(),
    ensures
        counts.len() == distr.weights().len(),
        visit_total(counts@) == num,
        forall|i: int| 0 <= i < counts.len() && #[trigger] counts[i] > 0 ==> distr.weights()[i] > 0,
        exists|drawn: Seq<usize>|
            #[trigger] shared_out(drawn, counts@, minimum) && visit_total(drawn) == num,
{
    let mut counts = sample_visits(distr, num);
    let ghost drawn = counts@;
    redistribute(&mut counts, distr, minimum);
    assert(shared_out(drawn, counts@, minimum));
    counts
}

/// How far visits are shared out: the visits of the moves, the place in the
/// order of the move that is gone through, the visits of that move that are not
/// placed yet, and the draws that are left for the next of them.
pub struct Sharing {
    pub counts: Seq<usize>,
    pub at: int,
    pub pending: int,
    pub tries: int,
}

/// Whether a state of sharing out is sound: where visits are to be placed, their
/// move is one of the moves, a draw is left, and the move with its lost visits
/// stays below the minimum.
pub open spec fn sharing_wf(s: Sharing, order: Seq<usize>, minimum: usize) -> bool {
    &&& 0 <= s.at <= order.len()
    &&& 0 <= s.pending
    &&& s.pending > 0 ==> {
        &&& s.at < order.len()
        &&& order[s.at] < s.counts.len()
        &&& 1 <= s.tries <= RESAMPLE_LIMIT
        &&& s.counts[order[s.at] as int] + s.pending < minimum
    }
}

/// Goes on to the next move in the order that has visits and fewer than the
/// minimum, and takes them from it: they are the visits to place. Where visits
/// are still to be placed, or no such move is left, nothing changes.
pub open spec fn settled(s: Sharing, order: Seq<usize>, minimum: usize) -> Sharing
    decreases order.len() - s.at,
{
    if s.pending > 0 || s.at < 0 || s.at >= order.len() {
        s
    } else {
        let i = order[s.at];
        if i < s.counts.len() && 0 < s.counts[i as int] < minimum {
            Sharing {
                counts: s.counts.update(i as int, 0),
                at: s.at,
                pending: s.counts[i as int] as int,
                tries: RESAMPLE_LIMIT as int,
            }
        } else {
            settled(
                Sharing { counts: s.counts, at: s.at + 1, pending: s.pending, tries: s.tries },
                order,
                minimum,
            )
        }
    }
}

/// Places a visit by the draw `d`, or not: the visit goes to `d` where `d` takes
/// it, and stays with the move that has lost it where `d`, the last draw that was
/// left for the visit, does not take it; any other draw is used up, and the visit
/// waits for the next. After the last visit of a move the next move has its turn.
pub open spec fn placed(s: Sharing, order: Seq<usize>, minimum: usize, d: usize) -> Sharing {
    if s.pending <= 0 || s.at < 0 || s.at >= order.len() {
        s
    } else if takes_draw(s.counts, d, minimum) || s.tries <= 1 {
        let to = if takes_draw(s.counts, d, minimum) {
            d
        } else {
            order[s.at]
        };
        Sharing {
            counts: s.counts.update(to as int, (s.counts[to as int] + 1) as usize),
            at: if s.pending == 1 {
                s.at + 1
            } else {
                s.at
            },
            pending: s.pending - 1,
            tries: RESAMPLE_LIMIT as int,
        }
    } else {
        Sharing { counts: s.counts, at: s.at, pending: s.pending, tries: s.tries - 1 }
    }
}

/// The state after the draws, one after the other.
pub open spec fn after_draws(s: Sharing, order: Seq<usize>, minimum: usize, draws: Seq<usize>)
    -> Sharing
    decreases draws.len(),
{
    if draws.len() == 0 {
        s
    } else {
        settled(
            placed(after_draws(s, order, minimum, draws.drop_last()), order, minimum, draws.last()),
            order,
            minimum,
        )
    }
}

/// The visits at the end: visits that are not placed stay with the move that has
/// lost them.
pub open spec fn closed(s: Sharing, order: Seq<usize>) -> Seq<usize> {
    if s.pending > 0 && 0 <= s.at < order.len() && order[s.at] < s.counts.len() {
        s.counts.update(
            order[s.at] as int,
            (s.counts[order[s.at] as int] + s.pending) as usize,
        )
    } else {
        s.counts
    }
}

/// The visits after sharing out the visits `before`, where the moves are gone
/// through in the given order and `draws` are the moves that are drawn, one after
/// the other. A move in the order with visits, but fewer than `minimum`, loses
/// them all. Each of them goes to the first move drawn that holds fewer than
/// `minimum - 1` visits then; after `RESAMPLE_LIMIT` draws that do not take it,
/// and where the draws come to an end, it stays with the move that has lost it.
/// Draws that are left over count for nothing.
pub open spec fn shared_by(before: Seq<usize>, order: Seq<usize>, draws: Seq<usize>, minimum: usize)
    -> Seq<usize> {
    closed(
        after_draws(
            settled(
                Sharing { counts: before, at: 0, pending: 0, tries: RESAMPLE_LIMIT as int },
                order,
                minimum,
            ),
            order,
            minimum,
            draws,
        ),
        order,
    )
}

/// Goes on from the place `at` in the order to the next move that has visits and
/// fewer than the minimum, and takes them from it. Returns the place of that move
/// and its visits; the end of the order and no visit where there is no such move.
fn settle(counts: &mut Vec<usize>, order: &Vec<usize>, at: usize, minimum: usize) -> (next: (
    usize,
    usize,
))
    requires
        at <= order.len(),
    ensures
        final(counts).len() == old(counts).len(),
        settled(
            Sharing { counts: old(counts)@, at: at as int, pending: 0, tries: RESAMPLE_LIMIT as int },
            order@,
            minimum,
        ) == (Sharing {
            counts: final(counts)@,
            at: next.0 as int,
            pending: next.1 as int,
            tries: RESAMPLE_LIMIT as int,
        }),
        sharing_wf(
            Sharing {
                counts: final(counts)@,
                at: next.0 as int,
                pending: next.1 as int,
                tries: RESAMPLE_LIMIT as int,
            },
            order@,
            minimum,
        ),
        at <= next.0 <= order.len(),
        next.1 == 0 ==> next.0 == order.len() && final(counts)@ == old(counts)@,
        next.1 > 0 ==> old(counts)@[order@[next.0 as int] as int] == next.1 && final(counts)@
            == old(counts)@.update(order@[next.0 as int] as int, 0),
{
    let mut place: usize = at;
    while place < order.len()
        invariant
            at <= place <= order.len(),
            counts@ == old(counts)@,
            settled(
                Sharing {
                    counts: counts@,
                    at: at as int,
                    pending: 0,
                    tries: RESAMPLE_LIMIT as int,
                },
                order@,
                minimum,
            ) == settled(
                Sharing {
                    counts: counts@,
                    at: place as int,
                    pending: 0,
                    tries: RESAMPLE_LIMIT as int,
                },
                order@,
                minimum,
            ),
        decreases order.len() - place,
    {
        let i: usize = order[place];
        if i < counts.len() {
            let lost: usize = counts[i];
            if lost > 0 && lost < minimum {
                counts[i] = 0;
                return (place, lost);
            }
        }
        place += 1;
    }
    (place, 0)
}

/// Places a visit of the move at the place `at` in the order by the draw `d`, or
/// not. Returns the place in the order, the visits to place and the draws left
/// for the next of them as they are after the draw.
fn place(
    counts: &mut Vec<usize>,
    order: &Vec<usize>,
    at: usize,
    pending: usize,
    tries: usize,
    d: usize,
    minimum: usize,
) -> (next: (usize, usize, usize))
    requires
        pending > 0,
        sharing_wf(
            Sharing {
                counts: old(counts)@,
                at: at as int,
                pending: pending as int,
                tries: tries as int,
            },
            order@,
            minimum,
        ),
    ensures
        final(counts).len() == old(counts).len(),
        placed(
            Sharing {
                counts: old(counts)@,
                at: at as int,
                pending: pending as int,
                tries: tries as int,
            },
            order@,
            minimum,
            d,
        ) == (Sharing {
            counts: final(counts)@,
            at: next.0 as int,
            pending: next.1 as int,
            tries: next.2 as int,
        }),
        sharing_wf(
            Sharing {
                counts: final(counts)@,
                at: next.0 as int,
                pending: next.1 as int,
                tries: next.2 as int,
            },
            order@,
            minimum,
        ),
{
    let own: usize = order[at];
    assert(at < order.len());
    let taken: bool = d < counts.len() && counts[d] < minimum - 1;
    if !taken && tries > 1 {
        return (at, pending, tries - 1);
    }
    let to: usize = if taken {
        d
    } else {
        own
    };
    let held: usize = counts[to];
    counts[to] = held + 1;
    if pending == 1 {
        (at + 1, 0, RESAMPLE_LIMIT)
    } else {
        (at, pending - 1, RESAMPLE_LIMIT)
    }
}

/// Shares out again the visits of the moves that have fewer than `minimum`, with
/// a given order of the moves and given draws in place of random ones: the visits
/// become those that `shared_by` gives.
pub fn share_out_with(
    counts: &mut Vec<usize>,
    order: &Vec<usize>,
    draws: &Vec<usize>,
    minimum: usize,
)
    ensures
        final(counts)@ == shared_by(old(counts)@, order@, draws@, minimum),
{
    let ghost start = Sharing {
        counts: counts@,
        at: 0,
        pending: 0,
        tries: RESAMPLE_LIMIT as int,
    };
    let (first, lost) = settle(counts, order, 0, minimum);
    let mut at: usize = first;
    let mut pending: usize = lost;
    let mut tries: usize = RESAMPLE_LIMIT;
    for n in 0..draws.len()
        invariant
            sharing_wf(
                Sharing { counts: counts@, at: at as int, pending: pending as int, tries: tries as int },
                order@,
                minimum,
            ),
            pending == 0 ==> at == order.len(),
            after_draws(settled(start, order@, minimum), order@, minimum, draws@.subrange(0, n as int))
                == (Sharing {
                counts: counts@,
                at: at as int,
                pending: pending as int,
                tries: tries as int,
            }),
    {
        proof {
            assert(draws@.subrange(0, n + 1).drop_last() =~= draws@.subrange(0, n as int));
        }
        if pending > 0 {
            let (next_at, next_pending, next_tries) = place(
                counts,
                order,
                at,
                pending,
                tries,
                draws[n],
                minimum,
            );
            at = next_at;
            pending = next_pending;
            tries = next_tries;
            if pending == 0 {
                let (found, lost) = settle(counts, order, at, minimum);
                at = found;
                pending = lost;
            }
        }
    }
    proof {
        assert(draws@.subrange(0, draws.len() as int) =~= draws@);
    }
    if pending > 0 {
        let own: usize = order[at];
        let held: usize = counts[own];
        counts[own] = held + pending;
    }
}

} // verus!
