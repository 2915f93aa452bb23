//! One search from a root position: the queue of simulations, the results that
//! come back, and the choice of the move.

use vstd::prelude::*;
use crate::board::{valid_board, Board};
use crate::game::AbaloneGame;
use crate::tally::sum_upto;
use crate::visits::{lemma_visit_bound, visit_total};

verus! {

/// The moves with a visit among the first `n`, each once, in order.
pub open spec fn first_tasks(counts: Seq<usize>, n: int) -> Seq<usize>
    decreases n,
{
    if n <= 0 {
        Seq::empty()
    } else if counts[n - 1] > 0 {
        first_tasks(counts, n - 1).push((n - 1) as usize)
    } else {
        first_tasks(counts, n - 1)
    }
}

/// The move `i`, `times` times.
pub open spec fn repeated(i: usize, times: int) -> Seq<usize> {
    Seq::new(
        if times > 0 {
            times as nat
        } else {
            0
        },
        |t: int| i,
    )
}

/// For each of the first `n` moves, in order, the move once for each of its
/// visits but the first.
pub open spec fn repeat_tasks(counts: Seq<usize>, n: int) -> Seq<usize>
    decreases n,
{
    if n <= 0 {
        Seq::empty()
    } else {
        repeat_tasks(counts, n - 1) + repeated((n - 1) as usize, counts[n - 1] - 1)
    }
}

/// The order in which the simulations are queued: each move with a visit once,
/// then the further visits of each move. The first simulation of every move comes
/// before the second of any.
pub open spec fn queue_of(counts: Seq<usize>) -> Seq<usize> {
    first_tasks(counts, counts.len() as int) + repeat_tasks(counts, counts.len() as int)
}

/// The queue holds one simulation for each visit.
pub proof fn lemma_queue_length(counts: Seq<usize>, n: int)
    requires
        0 <= n <= counts.len(),
    ensures
        first_tasks(counts, n).len() + repeat_tasks(counts, n).len() == sum_upto(
            |i: int| counts[i] as nat,
            n,
        ),
    decreases n,
{
    if n > 0 {
        lemma_queue_length(counts, n - 1);
    }
}

/// The moves to simulate, in the order in which they are queued.
pub fn queue_order(counts: &Vec<usize>) -> (queue: Vec<usize>)
    ensures
        queue@ == queue_of(counts@),
        queue.len() == visit_total(counts@),
{
    let mut queue: Vec<usize> = Vec::new();
    let k = counts.len();
    // first every move once
    for i in 0..k
        invariant
            k == counts.len(),
            queue@ == first_tasks(counts@, i as int),
    {
        if counts[i] > 0 {
            queue.push(i);
        }
    }
    let ghost firsts = queue@;
    assert(queue@ =~= firsts + repeat_tasks(counts@, 0));
    for i in 0..k
        invariant
            k == counts.len(),
            queue@ == firsts + repeat_tasks(counts@, i as int),
    {
        let ghost before = queue@;
        if counts[i] > 0 {
            let further = counts[i] - 1;
            for t in 0..further
                invariant
                    i < counts.len(),
                    further == counts[i as int] - 1,
                    queue@ == before + repeated(i, t as int),
            {
                queue.push(i);
                assert(queue@ =~= before + repeated(i, t + 1));
            }
        } else {
            assert(queue@ =~= before + repeated(i, counts[i as int] - 1));
        }
        assert(queue@ =~= firsts + (repeat_tasks(counts@, i as int) + repeated(
            i,
            counts[i as int] - 1,
        )));
    }
    proof {
        lemma_queue_length(counts@, k as int);
    }
    queue
}

/// One simulation to run: a copy of the game at the root, and the move to start
/// with, by its number in the list of the root and by the board it leads to.
pub struct SearchTask {
    pub game: AbaloneGame,
    pub candidate: usize,
    pub board: Board,
}

/// The simulations of a search, in the order in which they are queued, for the
/// visits `counts` of the moves listed for `game`.
pub fn push_to_queue(game: &AbaloneGame, counts: &Vec<usize>) -> (tasks: Vec<SearchTask>)
    requires
        game.wf(),
        counts.len() == game.children().len(),
    ensures
        tasks.len() == visit_total(counts@),
        tasks.len() == queue_of(counts@).len(),
        forall|t: int|
            0 <= t < tasks.len() ==> {
                &&& (#[trigger] tasks[t]).candidate == queue_of(counts@)[t]
                &&& tasks[t].candidate < game.children().len()
                &&& tasks[t].board == game.children()[tasks[t].candidate as int]
                &&& valid_board(tasks[t].board)
                &&& tasks[t].game.wf()
                &&& tasks[t].game.same_state(game)
            },
{
    let order = queue_order(counts);
    let mut tasks: Vec<SearchTask> = Vec::new();
    proof {
        lemma_queue_members(counts@, counts.len() as int);
    }
    for t in 0..order.len()
        invariant
            game.wf(),
            counts.len() == game.children().len(),
            order@ == queue_of(counts@),
            forall|q: int| 0 <= q < order.len() ==> #[trigger] order[q] < counts.len(),
            tasks.len() == t,
            forall|q: int|
                0 <= q < t ==> {
                    &&& (#[trigger] tasks[q]).candidate == order[q]
                    &&& tasks[q].candidate < game.children().len()
                    &&& tasks[q].board == game.children()[tasks[q].candidate as int]
                    &&& valid_board(tasks[q].board)
                    &&& tasks[q].game.wf()
                    &&& tasks[q].game.same_state(game)
                },
    {
        let candidate = order[t];
        let board = game.get_next_position(candidate);
        tasks.push(SearchTask { game: game.mcts_copy(), candidate, board });
    }
    tasks
}

/// Every move in the queue is one of the moves.
pub proof fn lemma_queue_members(counts: Seq<usize>, n: int)
    requires
        0 <= n <= counts.len(),
    ensures
        forall|q: int|
            0 <= q < first_tasks(counts, n).len() ==> #[trigger] first_tasks(counts, n)[q] < n,
        forall|q: int|
            0 <= q < repeat_tasks(counts, n).len() ==> #[trigger] repeat_tasks(counts, n)[q] < n,
    decreases n,
{
    if n > 0 {
        lemma_queue_members(counts, n - 1);
        let firsts = first_tasks(counts, n - 1);
        let repeats = repeat_tasks(counts, n - 1);
        assert forall|q: int| 0 <= q < first_tasks(counts, n).len() implies #[trigger] first_tasks(
            counts,
            n,
        )[q] < n by {
            if q < firsts.len() {
                assert(first_tasks(counts, n)[q] == firsts[q]);
            }
        }
        assert forall|q: int| 0 <= q < repeat_tasks(counts, n).len() implies #[trigger] repeat_tasks(
            counts,
            n,
        )[q] < n by {
            if q < repeats.len() {
                assert(repeat_tasks(counts, n)[q] == repeats[q]);
            } else {
                assert(repeat_tasks(counts, n)[q] == repeated(
                    (n - 1) as usize,
                    counts[n - 1] - 1,
                )[q - repeats.len()]);
            }
        }
    }
}

/// Largest size of the value of one simulation.
pub const VALUE_LIMIT: i64 = 2147483648;

/// Largest number of simulations in one search.
pub const VISIT_LIMIT: usize = 4294967295;

/// The results of the simulations of one search: for each move of the root
/// position its visits, the number of its simulations that have come back, and
/// the sum of their values.
pub struct ResultAccumulator {
    visits: Vec<usize>,
    results: Vec<usize>,
    sums: Vec<i128>,
    completed: usize,
    total: usize,
}

/// Whether the average of the sum `a` over `v` visits is higher than the average
/// of the sum `b` over `w` visits.
pub open spec fn higher_average(a: int, v: int, b: int, w: int) -> bool {
    a * w > b * v
}

/// Whether the move `r` is the choice among moves with the given visits and sums:
/// it has a visit, no move with a visit has a higher average, and the moves with
/// a visit before it have a lower one. Among moves with the same average the
/// first is the choice.
pub open spec fn is_choice(visits: Seq<usize>, sums: Seq<i128>, r: int) -> bool {
    &&& 0 <= r < visits.len()
    &&& visits[r] > 0
    &&& forall|j: int|
        0 <= j < visits.len() && visits[j] > 0 ==> !higher_average(
            #[trigger] sums[j] as int,
            visits[j] as int,
            sums[r] as int,
            visits[r] as int,
        )
    &&& forall|j: int|
        0 <= j < r && visits[j] > 0 ==> higher_average(
            sums[r] as int,
            visits[r] as int,
            #[trigger] sums[j] as int,
            visits[j] as int,
        )
}

/// An average that is higher than one that is not lower than a third is higher
/// than the third.
proof fn lemma_higher_average(a: int, v: int, b: int, w: int, c: int, u: int)
    requires
        v > 0,
        w > 0,
        u > 0,
        higher_average(a, v, b, w),
        !higher_average(c, u, b, w),
    ensures
        higher_average(a, v, c, u),
{
    // a * w > b * v and c * w <= b * u
    assert(a * w * u > b * v * u) by (nonlinear_arith)
        requires
            a * w > b * v,
            u > 0,
    ;
    assert(c * w * v <= b * u * v) by (nonlinear_arith)
        requires
            c * w <= b * u,
            v > 0,
    ;
    assert(b * v * u == b * u * v) by (nonlinear_arith);
    assert(a * w * u == (a * u) * w) by (nonlinear_arith);
    assert(c * w * v == (c * v) * w) by (nonlinear_arith);
    assert(a * u > c * v) by (nonlinear_arith)
        requires
            (a * u) * w > (c * v) * w,
            w > 0,
    ;
}

impl ResultAccumulator {
    /// The visits of the moves.
    pub closed spec fn visits(&self) -> Seq<usize> {
        self.visits@
    }

    /// For each move the number of its simulations that have come back.
    pub closed spec fn results(&self) -> Seq<usize> {
        self.results@
    }

    /// For each move the sum of the values that have come back.
    pub closed spec fn sums(&self) -> Seq<i128> {
        self.sums@
    }

    /// The number of simulations that have come back.
    pub closed spec fn completed(&self) -> nat {
        self.completed as nat
    }

    /// Each move has as many results as visits at most, the results are counted,
    /// and each sum is that of so many values, none beyond the limit.
    pub closed spec fn wf(&self) -> bool {
        &&& self.results@.len() == self.visits@.len()
        &&& self.sums@.len() == self.visits@.len()
        &&& self.total == visit_total(self.visits@)
        &&& self.total <= VISIT_LIMIT
        &&& self.completed == visit_total(self.results@)
        &&& forall|i: int|
            0 <= i < self.visits@.len() ==> {
                &&& #[trigger] self.results@[i] <= self.visits@[i]
                &&& -(self.results@[i] * VALUE_LIMIT) <= self.sums@[i] <= self.results@[i]
                    * VALUE_LIMIT
            }
    }

    /// Whether every simulation has come back.
    pub open spec fn complete(&self) -> bool {
        self.completed() == visit_total(self.visits())
    }

    /// Whether a value for the move `candidate` is taken: the move has a simulation
    /// that has not come back, and the value is within the limit.
    pub open spec fn takes(&self, candidate: usize, value: i64) -> bool {
        &&& candidate < self.visits().len()
        &&& self.results()[candidate as int] < self.visits()[candidate as int]
        &&& -VALUE_LIMIT <= value <= VALUE_LIMIT
    }

    /// An accumulator for a search with the given visits, with no result yet;
    /// `None` where the visits are more than `VISIT_LIMIT`.
    pub fn new(visits: Vec<usize>) -> (made: Option<ResultAccumulator>)
        ensures
            made.is_some() == (visit_total(visits@) <= VISIT_LIMIT),
            made.is_some() ==> {
                &&& made.unwrap().wf()
                &&& made.unwrap().visits() == visits@
                &&& made.unwrap().results() == Seq::new(visits@.len(), |i: int| 0usize)
                &&& made.unwrap().sums() == Seq::new(visits@.len(), |i: int| 0i128)
                &&& made.unwrap().completed() == 0
            },
    {
        let k = visits.len();
        let ghost each = |i: int| visits@[i] as nat;
        let mut total: usize = 0;
        for i in 0..k
            invariant
                k == visits.len(),
                total == sum_upto(each, i as int),
                total <= VISIT_LIMIT,
                each == (|i: int| visits@[i] as nat),
        {
            if visits[i] > VISIT_LIMIT - total {
                proof {
                    crate::tally::lemma_sum_grows(each, i + 1, k as int);
                }
                return None;
            }
            total += visits[i];
        }
        let mut results: Vec<usize> = Vec::new();
        let mut sums: Vec<i128> = Vec::new();
        for i in 0..k
            invariant
                results.len() == i,
                sums.len() == i,
                forall|j: int| 0 <= j < i ==> results[j] == 0 && sums[j] == 0,
        {
            results.push(0);
            sums.push(0);
        }
        proof {
            crate::tally::lemma_sum_zero(|i: int| results@[i] as nat, k as int);
            assert(results@ =~= Seq::new(visits@.len(), |i: int| 0usize));
            assert(sums@ =~= Seq::new(visits@.len(), |i: int| 0i128));
        }
        Some(ResultAccumulator { visits, results, sums, completed: 0, total })
    }

    /// The number of moves that the accumulator holds visits for.
    pub fn len(&self) -> (n: usize)
        ensures
            n == self.visits().len(),
    {
        self.visits.len()
    }

    /// The number of simulations that have come back.
    pub fn get_completed(&self) -> (n: usize)
        ensures
            n == self.completed(),
    {
        self.completed
    }

    /// Whether every simulation has come back.
    pub fn is_complete(&self) -> (done: bool)
        requires
            self.wf(),
        ensures
            done == self.complete(),
    {
        self.completed == self.total
    }

    /// Adds the value of one simulation of the move `candidate`. Returns whether
    /// the value was taken; one that is not taken changes nothing.
    pub fn record(&mut self, candidate: usize, value: i64) -> (taken: bool)
        requires
            old(self).wf(),
        ensures
            final(self).wf(),
            taken == old(self).takes(candidate, value),
            final(self).visits() == old(self).visits(),
            !taken ==> final(self).results() == old(self).results() && final(self).sums() == old(
                self,
            ).sums() && final(self).completed() == old(self).completed(),
            taken ==> final(self).results() == old(self).results().update(
                candidate as int,
                (old(self).results()[candidate as int] + 1) as usize,
            ),
            taken ==> final(self).sums() == old(self).sums().update(
                candidate as int,
                (old(self).sums()[candidate as int] + value) as i128,
            ),
            taken ==> final(self).completed() == old(self).completed() + 1,
    {
        if candidate >= self.visits.len() || value < -VALUE_LIMIT || value > VALUE_LIMIT {
            return false;
        }
        if self.results[candidate] >= self.visits[candidate] {
            return false;
        }
        proof {
            lemma_visit_bound(self.visits@, candidate as int);
            crate::visits::lemma_visit_change(
                self.results@,
                candidate as int,
                (self.results@[candidate as int] + 1) as usize,
            );
            crate::visits::lemma_visit_change(
                self.visits@,
                candidate as int,
                self.results@[candidate as int],
            );
            lemma_results_below_visits(self.results@, self.visits@, candidate as int);
            let r = self.results@[candidate as int] as int;
            assert((r + 1) * VALUE_LIMIT == r * VALUE_LIMIT + VALUE_LIMIT) by (nonlinear_arith);
            assert(r * VALUE_LIMIT <= VISIT_LIMIT * VALUE_LIMIT) by (nonlinear_arith)
                requires
                    0 <= r <= VISIT_LIMIT,
            ;
        }
        let r = self.results[candidate];
        self.results[candidate] = r + 1;
        let s = self.sums[candidate];
        self.sums[candidate] = s + value as i128;
        self.completed += 1;
        true
    }

    /// The move chosen: the one with the highest average value of its
    /// simulations, and the first of those where several have it. `None` where no
    /// move has a visit.
    pub fn choose_next_move(&self) -> (choice: Option<usize>)
        requires
            self.wf(),
            self.complete(),
        ensures
            match choice {
                Some(r) => is_choice(self.visits(), self.sums(), r as int),
                None => forall|j: int| 0 <= j < self.visits().len() ==> self.visits()[j] == 0,
            },
    {
        let k = self.visits.len();
        let mut best: Option<usize> = None;
        for i in 0..k
            invariant
                self.wf(),
                k == self.visits@.len(),
                match best {
                    Some(r) => r < i && is_choice(
                        self.visits@.subrange(0, i as int),
                        self.sums@.subrange(0, i as int),
                        r as int,
                    ),
                    None => forall|j: int| 0 <= j < i ==> self.visits@[j] == 0,
                },
        {
            let ghost seen_v = self.visits@.subrange(0, i as int);
            let ghost seen_s = self.sums@.subrange(0, i as int);
            let ghost next_v = self.visits@.subrange(0, i + 1);
            let ghost next_s = self.sums@.subrange(0, i + 1);
            if self.visits[i] > 0 {
                match best {
                    None => {
                        best = Some(i);
                        assert(is_choice(next_v, next_s, i as int));
                    },
                    Some(r) => {
                        proof {
                            self.lemma_products_fit(i as int, r as int);
                        }
                        let mine = self.sums[i] * (self.visits[r] as i128);
                        let theirs = self.sums[r] * (self.visits[i] as i128);
                        if mine > theirs {
                            best = Some(i);
                            proof {
                                assert forall|j: int|
                                    0 <= j < i && next_v[j] > 0 implies higher_average(
                                    next_s[i as int] as int,
                                    next_v[i as int] as int,
                                    #[trigger] next_s[j] as int,
                                    next_v[j] as int,
                                ) by {
                                    assert(seen_v[j] == next_v[j] && seen_s[j] == next_s[j]);
                                    lemma_higher_average(
                                        self.sums@[i as int] as int,
                                        self.visits@[i as int] as int,
                                        self.sums@[r as int] as int,
                                        self.visits@[r as int] as int,
                                        self.sums@[j] as int,
                                        self.visits@[j] as int,
                                    );
                                }
                                assert(is_choice(next_v, next_s, i as int));
                            }
                        } else {
                            proof {
                                assert forall|j: int|
                                    0 <= j < next_v.len() && next_v[j] > 0 implies !higher_average(
                                    #[trigger] next_s[j] as int,
                                    next_v[j] as int,
                                    next_s[r as int] as int,
                                    next_v[r as int] as int,
                                ) by {
                                    if j < i {
                                        assert(seen_v[j] == next_v[j] && seen_s[j] == next_s[j]);
                                    }
                                }
                                assert(is_choice(next_v, next_s, r as int));
                            }
                        }
                    },
                }
            } else {
                proof {
                    match best {
                        Some(r) => {
                            assert forall|j: int|
                                0 <= j < next_v.len() && next_v[j] > 0 implies !higher_average(
                                #[trigger] next_s[j] as int,
                                next_v[j] as int,
                                next_s[r as int] as int,
                                next_v[r as int] as int,
                            ) by {
                                assert(seen_v[j] == next_v[j] && seen_s[j] == next_s[j]);
                            }
                            assert(is_choice(next_v, next_s, r as int));
                        },
                        None => {},
                    }
                }
            }
        }
        proof {
            assert(self.visits@.subrange(0, k as int) =~= self.visits@);
            assert(self.sums@.subrange(0, k as int) =~= self.sums@);
        }
        best
    }

    /// The products that compare two averages fit 128 bits.
    proof fn lemma_products_fit(&self, i: int, r: int)
        requires
            self.wf(),
            0 <= i < self.visits@.len(),
            0 <= r < self.visits@.len(),
        ensures
            i128::MIN <= self.sums@[i] * self.visits@[r] <= i128::MAX,
            i128::MIN <= self.sums@[r] * self.visits@[i] <= i128::MAX,
    {
        lemma_visit_bound(self.visits@, i);
        lemma_visit_bound(self.visits@, r);
        let a = self.sums@[i] as int;
        let b = self.sums@[r] as int;
        let v = self.visits@[i] as int;
        let w = self.visits@[r] as int;
        let ra = self.results@[i] as int;
        let rb = self.results@[r] as int;
        let bound = VISIT_LIMIT * VALUE_LIMIT;
        assert(ra * VALUE_LIMIT <= bound) by (nonlinear_arith)
            requires
                0 <= ra <= VISIT_LIMIT,
                bound == VISIT_LIMIT * VALUE_LIMIT,
        ;
        assert(rb * VALUE_LIMIT <= bound) by (nonlinear_arith)
            requires
                0 <= rb <= VISIT_LIMIT,
                bound == VISIT_LIMIT * VALUE_LIMIT,
        ;
        assert(-(bound * VISIT_LIMIT) <= a * w <= bound * VISIT_LIMIT) by (nonlinear_arith)
            requires
                -bound <= a <= bound,
                0 <= w <= VISIT_LIMIT,
                bound >= 0,
        ;
        assert(-(bound * VISIT_LIMIT) <= b * v <= bound * VISIT_LIMIT) by (nonlinear_arith)
            requires
                -bound <= b <= bound,
                0 <= v <= VISIT_LIMIT,
                bound >= 0,
        ;
        assert(bound * VISIT_LIMIT <= i128::MAX) by (nonlinear_arith)
            requires
                bound == VISIT_LIMIT * VALUE_LIMIT,
        ;
    }
}

/// Where no move has more results than visits, one move with fewer results
/// leaves the results below the visits in all.
proof fn lemma_results_below_visits(results: Seq<usize>, visits: Seq<usize>, c: int)
    requires
        results.len() == visits.len(),
        0 <= c < visits.len(),
        forall|i: int| 0 <= i < visits.len() ==> #[trigger] results[i] <= visits[i],
        results[c] < visits[c],
    ensures
        visit_total(results) < visit_total(visits),
{
    let lifted = results.update(c, visits[c]);
    crate::visits::lemma_visit_change(results, c, visits[c]);
    lemma_total_at_most(lifted, visits, visits.len() as int);
}

/// Visits that are at most other visits, move by move, are at most those in all.
proof fn lemma_total_at_most(low: Seq<usize>, high: Seq<usize>, n: int)
    requires
        low.len() == high.len(),
        0 <= n <= low.len(),
        forall|i: int| 0 <= i < low.len() ==> #[trigger] low[i] <= high[i],
    ensures
        sum_upto(|i: int| low[i] as nat, n) <= sum_upto(|i: int| high[i] as nat, n),
    decreases n,
{
    if n > 0 {
        lemma_total_at_most(low, high, n - 1);
        assert(low[n - 1] <= high[n - 1]);
    }
}

} // verus!
