//! The board: random placements and neighbours, the conflict count, and
//! the annealing loop.

use crate::conflicts::{attackers, attacks, conflicts, lemma_attackers_bound, lemma_conflicts_bound};
use crate::placement::{
    first_free, inserted, is_neighbour, lemma_insert_keeps_sorted, lemma_reachable_later,
    lemma_remove_keeps_sorted, lemma_sorted_no_duplicates, moved, probe, rank, reachable, sorted,
    valid_placement,
};
pub use crate::queen::Queen;
use crate::queen::{lemma_order_is_index_order, lemma_successor_is_least_above};
use crate::random::{draw, thread_rng};
use vstd::prelude::*;
use vstd::seq_lib::to_multiset_contains;

verus! {

/// A square board, known by its size: the number of its rows, of its
/// columns, and of the queens of a placement.
#[derive(Debug)]
pub struct Board {
    size: usize,
}

/// A search in progress: the current placement, its score, and the number
/// of iterations done.
#[derive(Debug)]
pub struct Search {
    pub state: Vec<Queen>,
    pub energy: i128,
    pub iteration: usize,
}

impl Search {
    /// The placement is one for a board of the given size, and the energy
    /// is its score.
    pub open spec fn wf(&self, size: int) -> bool {
        valid_placement(self.state@, size) && self.energy == -conflicts(self.state@)
    }
}

/// The number by which the initial temperature is divided in an iteration:
/// 1 in the first iteration, and then the number of iterations done.
pub open spec fn cooling(iteration: usize) -> usize {
    if iteration == 0 {
        1
    } else {
        iteration
    }
}

/// `next` is what one iteration makes of `current`: some neighbour of
/// `current` is the candidate; it takes the place where it scores better,
/// and otherwise exactly where the rule `accept` says so, asked with the
/// score of `current`, the candidate's score and the cooling divisor of
/// the iteration.
pub open spec fn stepped<F: Fn(i128, i128, usize) -> bool>(
    accept: F,
    current: Seq<Queen>,
    next: Seq<Queen>,
    size: int,
    iteration: usize,
) -> bool {
    exists|candidate: Seq<Queen>|
        #[trigger] is_neighbour(current, candidate, size) && valid_placement(candidate, size) && (
        if -conflicts(candidate) > -conflicts(current) {
            next == candidate
        } else {
            exists|taken: bool|
                #[trigger] call_ensures(
                    accept,
                    (
                        (-conflicts(current)) as i128,
                        (-conflicts(candidate)) as i128,
                        cooling(iteration),
                    ),
                    taken,
                ) && next == (if taken {
                    candidate
                } else {
                    current
                })
        })
}

/// `end` is what `n` iterations make of `start`, one after the other, each
/// of them begun on a placement that still has conflicts.
pub open spec fn run<F: Fn(i128, i128, usize) -> bool>(
    accept: F,
    start: Seq<Queen>,
    end: Seq<Queen>,
    size: int,
    n: nat,
) -> bool
    decreases n,
{
    if n == 0 {
        end == start
    } else {
        exists|mid: Seq<Queen>|
            run(accept, start, mid, size, (n - 1) as nat) && conflicts(mid) > 0
                && #[trigger] stepped(accept, mid, end, size, (n - 1) as usize)
    }
}

impl Board {
    /// The size of the board.
    pub closed spec fn size(&self) -> usize {
        self.size
    }

    /// A board has at least one row.
    pub open spec fn wf(&self) -> bool {
        self.size() > 0
    }

    /// Creates a new empty board.
    pub fn new(size: usize) -> (board: Self)
        requires
            size > 0,
        ensures
            board.wf(),
            board.size() == size,
    {
        Self { size }
    }

    /// Puts one more queen into a sorted placement: on the square of
    /// `queen` if it is free, else on the first free square after it, the
    /// search going on from the last square to the first. Returns the
    /// index at which the new queen stands.
    pub fn insert_new(&self, queen: Queen, state: &mut Vec<Queen>) -> (index: usize)
        requires
            self.wf(),
            queen.on_board(self.size() as int),
            sorted(old(state)@, self.size() as int),
            old(state)@.len() < self.size() * self.size(),
        ensures
            final(state)@ == inserted(old(state)@, self.size() as int, queen),
            index == rank(old(state)@, first_free(old(state)@, self.size() as int, queen)),
            index <= old(state)@.len(),
            final(state)@.len() == old(state)@.len() + 1,
            !old(state)@.contains(first_free(old(state)@, self.size() as int, queen)),
            first_free(old(state)@, self.size() as int, queen).on_board(self.size() as int),
            sorted(final(state)@, self.size() as int),
    {
        let ghost s = state@;
        let ghost size = self.size as int;
        let ghost start = queen;
        let ghost len = s.len();
        let mut queen = queen;

        // The place that keeps the placement sorted.
        let mut i: usize = 0;
        while i < state.len() && queen > state[i]
            invariant
                state@ == s,
                i <= s.len(),
                forall|k: int| 0 <= k < i ==> (#[trigger] s[k]).precedes(queen),
            decreases s.len() - i,
        {
            i += 1;
        }

        if i == state.len() || queen != state[i] {
            proof {
                lemma_insert_keeps_sorted(s, size, queen, i as int);
            }
            state.insert(i, queen);
            return i;
        }
        let first_index = i;
        let ghost p0 = start.position_index(size);

        // The square is taken: step over the queens that follow one
        // another without a gap.
        while i < state.len() - 1 && queen == state[i]
            invariant
                state@ == s,
                s.len() == len,
                size == self.size,
                sorted(s, size),
                len < size * size,
                first_index <= i < len,
                queen.on_board(size),
                s[first_index as int] == start,
                p0 == start.position_index(size),
                queen.position_index(size) == p0 + (i - first_index),
                first_free(s, size, start) == probe(s, size, queen, (len - (i - first_index)) as nat),
                forall|k: int| 0 <= k < i ==> (#[trigger] s[k]).precedes(queen),
                !s[i as int].precedes(queen),
            decreases len - i,
        {
            proof {
                lemma_step_over(s, size, i as int);
            }
            queen.increment_position_index(1, self.size);
            i += 1;
        }

        if i < state.len() - 1 || queen != state[i] {
            proof {
                lemma_insert_keeps_sorted(s, size, queen, i as int);
            }
            state.insert(i, queen);
            return i;
        } else if queen.x < self.size - 1 || queen.y < self.size - 1 {
            let ghost last = queen;
            proof {
                let corner = Queen { y: (size - 1) as usize, x: (size - 1) as usize };
                lemma_successor_is_least_above(queen, corner, size);
                lemma_order_is_index_order(queen, corner, size);
                lemma_order_is_index_order(corner, corner, size);
                assert(s.contains(queen));
            }
            queen.increment_position_index(1, self.size);
            proof {
                assert forall|k: int| 0 <= k < len implies (#[trigger] s[k]).precedes(queen) by {
                    assert(k < i ==> s[k].precedes(last));
                }
                lemma_insert_keeps_sorted(s, size, queen, len as int);
                assert(s.insert(len as int, queen) =~= s.push(queen));
                assert(queen == last.successor(size));
                assert(first_free(s, size, start) == probe(s, size, queen, first_index as nat));
            }
            state.push(queen);
            return i + 1;
        }
        proof {
            assert(s.contains(queen));
            assert(queen.position_index(size) == size * size - 1) by (nonlinear_arith)
                requires
                    queen.x == size - 1,
                    queen.y == size - 1,
                    queen.position_index(size) == queen.x + queen.y * size,
            ;
        }

        // The last square is taken too: go on from the first square.
        queen = Queen::new(0, 0);
        i = 0;
        while i < first_index && queen == state[i]
            invariant
                state@ == s,
                s.len() == len,
                size == self.size,
                sorted(s, size),
                len < size * size,
                i <= first_index < len,
                queen.on_board(size),
                p0 == s[first_index as int].position_index(size),
                p0 + (len - 1 - first_index) == size * size - 1,
                queen.position_index(size) == i,
                first_free(s, size, start) == probe(s, size, queen, (first_index - i) as nat),
                forall|k: int| 0 <= k < i ==> (#[trigger] s[k]).precedes(queen),
                !s[i as int].precedes(queen),
            decreases first_index - i,
        {
            proof {
                lemma_step_over(s, size, i as int);
            }
            queen.increment_position_index(1, self.size);
            i += 1;
        }
        proof {
            lemma_order_is_index_order(queen, s[i as int], size);
            lemma_insert_keeps_sorted(s, size, queen, i as int);
        }
        state.insert(i, queen);
        i
    }

    /// Places `self.size` queens randomly on the board.
    pub fn random_state(&self) -> (state: Vec<Queen>)
        requires
            self.wf(),
        ensures
            valid_placement(state@, self.size() as int),
            state@.no_duplicates(),
    {
        let mut rng = thread_rng();
        let mut state: Vec<Queen> = Vec::with_capacity(self.size);
        let mut placed: usize = 0;
        while placed < self.size
            invariant
                self.wf(),
                placed <= self.size,
                state@.len() == placed,
                sorted(state@, self.size as int),
            decreases self.size - placed,
        {
            assert(placed < self.size * self.size) by (nonlinear_arith)
                requires
                    placed < self.size,
            ;
            self.insert_new(Queen::random(&mut rng, self.size), &mut state);
            placed += 1;
        }
        proof {
            lemma_sorted_no_duplicates(state@, self.size as int);
        }
        state
    }

    /// Moves one queen of a placement: the new queen comes on the first
    /// free square from `queen` on, and the queen that `pick` chooses among
    /// the others leaves.
    pub fn neighbour(&self, state: &Vec<Queen>, queen: Queen, pick: usize) -> (neighbour: Vec<
        Queen,
    >)
        requires
            self.wf(),
            valid_placement(state@, self.size() as int),
            queen.on_board(self.size() as int),
        ensures
            neighbour@ == moved(state@, self.size() as int, queen, pick as int),
            valid_placement(neighbour@, self.size() as int),
            neighbour@.no_duplicates(),
            self.size() > 1 ==> neighbour@.contains(first_free(state@, self.size() as int, queen)),
            self.size() > 1 ==> !state@.contains(first_free(state@, self.size() as int, queen)),
            self.size() > 1 ==> neighbour@.to_multiset() != state@.to_multiset(),
            self.size() == 1 ==> neighbour@ == state@,
    {
        let mut neighbour_state = state.clone();
        assert(neighbour_state@ =~= state@);
        proof {
            lemma_sorted_no_duplicates(state@, self.size as int);
        }
        if self.size == 1 {
            return neighbour_state;
        }
        assert(self.size < self.size * self.size) by (nonlinear_arith)
            requires
                self.size > 1,
        ;
        let new_queen = self.insert_new(queen, &mut neighbour_state);
        let n = pick % neighbour_state.len();
        let n = if n == new_queen {
            proof {
                let len = neighbour_state@.len();
                if n + 1 < len {
                    vstd::arithmetic::div_mod::lemma_small_mod((n + 1) as nat, len);
                } else {
                    vstd::arithmetic::div_mod::lemma_mod_self_0(len as int);
                }
            }
            (n + 1) % neighbour_state.len()
        } else {
            n
        };
        proof {
            let t = neighbour_state@;
            let free = first_free(state@, self.size as int, queen);
            assert(n != new_queen && n < t.len());
            assert(t[new_queen as int] == free);
            lemma_remove_keeps_sorted(t, self.size as int, n as int);
            let at = if new_queen < n { new_queen as int } else { new_queen - 1 };
            assert(t.remove(n as int)[at] == free);
            lemma_sorted_no_duplicates(t.remove(n as int), self.size as int);
            to_multiset_contains(t.remove(n as int), free);
            to_multiset_contains(state@, free);
        }
        neighbour_state.remove(n);
        neighbour_state
    }

    /// Generates a new random neighbour of the current configuration,
    /// which is the same configuration but one queen moved.
    pub fn random_neighbour(&self, state: &Vec<Queen>) -> (neighbour: Vec<Queen>)
        requires
            self.wf(),
            valid_placement(state@, self.size() as int),
        ensures
            valid_placement(neighbour@, self.size() as int),
            neighbour@.no_duplicates(),
            is_neighbour(state@, neighbour@, self.size() as int),
            self.size() > 1 ==> neighbour@.to_multiset() != state@.to_multiset(),
    {
        let mut rng = thread_rng();
        let queen = Queen::random(&mut rng, self.size);
        let pick: usize = draw(&mut rng);
        self.neighbour(state, queen, pick)
    }

    /// Computes the score of a placement: the number of pairs of queens
    /// that attack each other, negated. The best score is 0.
    pub fn objective(&self, state: &Vec<Queen>) -> (score: i128)
        requires
            state@.len() == self.size(),
        ensures
            score == -conflicts(state@),
    {
        let n = self.size;
        let mut score: i128 = 0;
        let mut i: usize = 0;
        while i < n
            invariant
                n == state@.len(),
                i <= n,
                score == -conflicts(state@.take(i as int)),
            decreases n - i,
        {
            let ghost before = state@.take(i as int);
            let mut j: usize = 0;
            while j < i
                invariant
                    n == state@.len(),
                    j <= i < n,
                    before == state@.take(i as int),
                    score == -(conflicts(before) + attackers(before.take(j as int), state@[i as int])),
                decreases i - j,
            {
                proof {
                    lemma_conflicts_bound(before);
                    lemma_attackers_bound(before.take(j as int), state@[i as int]);
                    assert(i * (i - 1) + 2 * j + 2 <= i * (i + 1)) by (nonlinear_arith)
                        requires
                            j < i,
                    ;
                    assert(i * (i + 1) <= 0xffff_ffff_ffff_fffe * 0xffff_ffff_ffff_ffff)
                        by (nonlinear_arith)
                        requires
                            0 <= i < 0xffff_ffff_ffff_ffff,
                    ;
                    assert(before.take(j + 1).drop_last() =~= before.take(j as int));
                }
                if Self::endangers(&state[j], &state[i]) {
                    score = score - 1;
                }
                j += 1;
            }
            proof {
                assert(before.take(i as int) =~= before);
                assert(state@.take(i + 1).drop_last() =~= before);
            }
            i += 1;
        }
        assert(state@.take(n as int) =~= state@);
        score
    }

    /// Local search of a configuration, from a random placement, for at
    /// most `num_iterations` iterations. The rule `accept` decides on a
    /// candidate that is no better than the current placement: it is given
    /// the current score, the candidate's score, and the number by which
    /// the initial temperature is divided in that iteration.
    pub fn simulated_annealing<F: Fn(i128, i128, usize) -> bool>(
        &self,
        num_iterations: usize,
        accept: F,
    ) -> (state: Vec<Queen>)
        requires
            self.wf(),
            forall|energy: i128, energy_next: i128, divisor: usize|
                energy_next <= energy < 0 && 1 <= divisor <= num_iterations ==> call_requires(
                    accept,
                    (energy, energy_next, divisor),
                ),
        ensures
            valid_placement(state@, self.size() as int),
            state@.no_duplicates(),
            exists|start: Seq<Queen>, n: nat|
                valid_placement(start, self.size() as int) && n <= num_iterations && (n
                    == num_iterations || conflicts(state@) == 0) && #[trigger] run(
                    accept,
                    start,
                    state@,
                    self.size() as int,
                    n,
                ),
    {
        let start = self.random_state();
        let ghost first = start@;
        let search = self.anneal_from(start, num_iterations, accept);
        proof {
            lemma_sorted_no_duplicates(search.state@, self.size as int);
            assert(run(accept, first, search.state@, self.size() as int, search.iteration as nat));
        }
        search.state
    }

    /// Local search of a configuration, from the placement `start`: while
    /// the score is below 0 and fewer than `num_iterations` iterations are
    /// done, a random neighbour is drawn and taken or left as `step` says.
    pub fn anneal_from<F: Fn(i128, i128, usize) -> bool>(
        &self,
        start: Vec<Queen>,
        num_iterations: usize,
        accept: F,
    ) -> (search: Search)
        requires
            self.wf(),
            valid_placement(start@, self.size() as int),
            forall|energy: i128, energy_next: i128, divisor: usize|
                energy_next <= energy < 0 && 1 <= divisor <= num_iterations ==> call_requires(
                    accept,
                    (energy, energy_next, divisor),
                ),
        ensures
            search.wf(self.size() as int),
            search.iteration <= num_iterations,
            search.iteration == num_iterations || search.energy == 0,
            num_iterations == 0 || conflicts(start@) == 0 ==> search.iteration == 0
                && search.state@ == start@,
            reachable(start@, search.state@, self.size() as int, search.iteration as nat),
            run(accept, start@, search.state@, self.size() as int, search.iteration as nat),
    {
        let ghost first = start@;
        let mut search = self.begin(start);
        while search.iteration < num_iterations && search.energy < 0
            invariant
                self.wf(),
                search.wf(self.size() as int),
                search.iteration <= num_iterations,
                num_iterations == 0 || conflicts(first) == 0 ==> search.iteration == 0
                    && search.state@ == first,
                reachable(first, search.state@, self.size() as int, search.iteration as nat),
                run(accept, first, search.state@, self.size() as int, search.iteration as nat),
                forall|energy: i128, energy_next: i128, divisor: usize|
                    energy_next <= energy < 0 && 1 <= divisor <= num_iterations ==> call_requires(
                        accept,
                        (energy, energy_next, divisor),
                    ),
            decreases num_iterations - search.iteration,
        {
            let ghost current = search.state@;
            let ghost done = search.iteration;
            let candidate = self.random_neighbour(&search.state);
            let ghost drawn = candidate@;
            search = self.step(search, candidate, &accept);
            proof {
                let size = self.size() as int;
                if search.state@ == current {
                    lemma_reachable_later(first, current, size, done as nat);
                } else {
                    assert(reachable(first, current, size, ((done + 1) - 1) as nat));
                }
                assert(is_neighbour(current, drawn, size));
                assert(conflicts(current) > 0);
                let n = (done + 1) as nat;
                assert(stepped(accept, current, search.state@, size, (n - 1) as usize));
                assert(run(accept, first, current, size, (n - 1) as nat));
                assert(run(accept, first, search.state@, size, n));
            }
        }
        search
    }

    /// The search at its start: the placement with its score, and no
    /// iteration done.
    pub fn begin(&self, start: Vec<Queen>) -> (search: Search)
        requires
            valid_placement(start@, self.size() as int),
        ensures
            search.wf(self.size() as int),
            search.state@ == start@,
            search.iteration == 0,
    {
        let energy = self.objective(&start);
        Search { state: start, energy, iteration: 0 }
    }

    /// One iteration of the search. A candidate with a better score than
    /// the current placement takes its place. For any other candidate the
    /// rule `accept` is asked, with the current score, the candidate's
    /// score and the number by which the initial temperature is divided
    /// in this iteration, and the candidate takes the place exactly if the
    /// rule says so.
    pub fn step<F: Fn(i128, i128, usize) -> bool>(
        &self,
        current: Search,
        candidate: Vec<Queen>,
        accept: &F,
    ) -> (next: Search)
        requires
            current.wf(self.size() as int),
            valid_placement(candidate@, self.size() as int),
            current.iteration < usize::MAX,
            forall|energy_next: i128|
                energy_next <= current.energy ==> call_requires(
                    accept,
                    (current.energy, energy_next, cooling(current.iteration)),
                ),
        ensures
            next.wf(self.size() as int),
            next.iteration == current.iteration + 1,
            -conflicts(candidate@) > current.energy ==> next.state@ == candidate@,
            -conflicts(candidate@) <= current.energy ==> exists|taken: bool|
                #[trigger] call_ensures(
                    accept,
                    (
                        current.energy,
                        (-conflicts(candidate@)) as i128,
                        cooling(current.iteration),
                    ),
                    taken,
                ) && next.state@ == (if taken {
                    candidate@
                } else {
                    current.state@
                }),
    {
        let energy_next = self.objective(&candidate);
        let taken = energy_next > current.energy || accept(
            current.energy,
            energy_next,
            Self::cooling_divisor(current.iteration),
        );
        if taken {
            Search { state: candidate, energy: energy_next, iteration: current.iteration + 1 }
        } else {
            Search { state: current.state, energy: current.energy, iteration: current.iteration + 1 }
        }
    }

    /// The number by which the initial temperature is divided in an
    /// iteration.
    pub fn cooling_divisor(iteration: usize) -> (divisor: usize)
        ensures
            divisor == cooling(iteration),
    {
        if iteration == 0 {
            1
        } else {
            iteration
        }
    }

    /// Two queens share a row, a column or a diagonal.
    fn endangers(a: &Queen, b: &Queen) -> (hit: bool)
        ensures
            hit == attacks(*a, *b),
    {
        a.y == b.y || a.x == b.x || unsigned_diff(a.x, b.x) == unsigned_diff(a.y, b.y)
    }
}

/// A queen of a sorted placement that is not its last one is in the
/// placement, is not on the last square, and its successor comes no later
/// than the queen after it.
proof fn lemma_step_over(s: Seq<Queen>, size: int, i: int)
    requires
        sorted(s, size),
        size <= usize::MAX,
        0 <= i,
        i + 1 < s.len(),
    ensures
        s.contains(s[i]),
        s[i].precedes(s[i].successor(size)),
        s[i].successor(size) == s[i + 1] || s[i].successor(size).precedes(s[i + 1]),
        s[i].successor(size).on_board(size),
        s[i].position_index(size) + 1 < size * size,
{
    let next = s[i + 1];
    assert(s[i].precedes(next));
    lemma_successor_is_least_above(s[i], next, size);
    lemma_order_is_index_order(s[i], next, size);
    lemma_order_is_index_order(next, next, size);
}

/// The distance between two numbers.
fn unsigned_diff(a: usize, b: usize) -> (d: usize)
    ensures
        d == crate::conflicts::distance(a, b),
{
    if a >= b {
        a - b
    } else {
        b - a
    }
}

} // verus!
