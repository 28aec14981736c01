use nqueens::board::{Board, Search};
use nqueens::queen::Queen;
use rand::Rng;
use std::cell::Cell;

fn placement(squares: &[(usize, usize)]) -> Vec<Queen> {
    squares.iter().map(|&(x, y)| Queen::new(x, y)).collect()
}

fn is_placement(state: &[Queen], size: usize) -> bool {
    state.len() == size
        && state.iter().all(|q| q.x < size && q.y < size)
        && state.windows(2).all(|pair| pair[0] < pair[1])
}

fn metropolis(energy: i128, energy_next: i128, divisor: usize, initial_temperature: f32) -> bool {
    let temperature = initial_temperature / divisor as f32;
    f32::exp((energy_next - energy) as f32 / temperature) >= rand::thread_rng().gen::<f32>()
}

#[test]
fn begin_scores_the_placement() {
    let b = Board::new(4);
    let search = b.begin(placement(&[(0, 0), (2, 0), (1, 1), (0, 2)]));
    assert_eq!(search.state, placement(&[(0, 0), (2, 0), (1, 1), (0, 2)]));
    assert_eq!(search.energy, -6);
    assert_eq!(search.iteration, 0);
}

#[test]
fn step_takes_a_better_candidate_without_asking() {
    let b = Board::new(4);
    let current = b.begin(placement(&[(1, 0), (3, 0), (0, 2), (2, 3)]));
    let asked = Cell::new(0);
    let rule = |_: i128, _: i128, _: usize| {
        asked.set(asked.get() + 1);
        false
    };
    let next = b.step(current, placement(&[(1, 0), (3, 1), (0, 2), (2, 3)]), &rule);
    assert_eq!(next.state, placement(&[(1, 0), (3, 1), (0, 2), (2, 3)]));
    assert_eq!(next.energy, 0);
    assert_eq!(next.iteration, 1);
    assert_eq!(asked.get(), 0);
}

#[test]
fn step_asks_the_rule_about_a_worse_candidate() {
    let b = Board::new(4);
    let worse = placement(&[(0, 0), (2, 0), (1, 1), (0, 2)]);

    let current = b.begin(placement(&[(1, 0), (3, 0), (0, 2), (2, 3)]));
    let next = b.step(current, worse.clone(), &|_: i128, _: i128, _: usize| true);
    assert_eq!(next.state, worse);
    assert_eq!(next.energy, -6);
    assert_eq!(next.iteration, 1);

    let current = b.begin(placement(&[(1, 0), (3, 0), (0, 2), (2, 3)]));
    let next = b.step(current, worse.clone(), &|_: i128, _: i128, _: usize| false);
    assert_eq!(next.state, placement(&[(1, 0), (3, 0), (0, 2), (2, 3)]));
    assert_eq!(next.energy, -1);
    assert_eq!(next.iteration, 1);
}

#[test]
fn step_hands_the_rule_both_scores_and_the_divisor() {
    let b = Board::new(4);
    for (iteration, divisor) in [(0usize, 1usize), (1, 1), (2, 2), (7, 7), (1000, 1000)] {
        let current = Search {
            state: placement(&[(1, 0), (3, 0), (0, 2), (2, 3)]),
            energy: -1,
            iteration,
        };
        let seen = Cell::new((0i128, 0i128, 0usize));
        let rule = |energy: i128, energy_next: i128, divisor: usize| {
            seen.set((energy, energy_next, divisor));
            true
        };
        let next = b.step(current, placement(&[(0, 0), (2, 0), (1, 1), (0, 2)]), &rule);
        assert_eq!(seen.get(), (-1, -6, divisor));
        assert_eq!(next.iteration, iteration + 1);
    }
}

#[test]
fn cooling_divisor_is_one_then_the_iterations_done() {
    assert_eq!(Board::cooling_divisor(0), 1);
    assert_eq!(Board::cooling_divisor(1), 1);
    assert_eq!(Board::cooling_divisor(2), 2);
    assert_eq!(Board::cooling_divisor(3), 3);
    assert_eq!(Board::cooling_divisor(usize::MAX), usize::MAX);
}

#[test]
fn step_asks_the_rule_about_an_equal_candidate() {
    let b = Board::new(4);
    let equal = placement(&[(0, 0), (2, 1), (3, 2), (1, 3)]);
    assert_eq!(b.objective(&equal), -1);

    let current = b.begin(placement(&[(1, 0), (3, 0), (0, 2), (2, 3)]));
    let next = b.step(current, equal.clone(), &|_: i128, _: i128, _: usize| false);
    assert_eq!(next.state, placement(&[(1, 0), (3, 0), (0, 2), (2, 3)]));

    let current = b.begin(placement(&[(1, 0), (3, 0), (0, 2), (2, 3)]));
    let next = b.step(current, equal.clone(), &|_: i128, _: i128, _: usize| true);
    assert_eq!(next.state, equal);
    assert_eq!(next.energy, -1);
}

#[test]
fn anneal_from_a_solution_returns_at_once() {
    let b = Board::new(4);
    let solved = placement(&[(1, 0), (3, 1), (0, 2), (2, 3)]);
    let search = b.anneal_from(solved.clone(), 1000, |_: i128, _: i128, _: usize| true);
    assert_eq!(search.state, solved);
    assert_eq!(search.energy, 0);
    assert_eq!(search.iteration, 0);
}

#[test]
fn anneal_from_without_budget_returns_the_start() {
    let b = Board::new(4);
    let start = placement(&[(0, 0), (2, 0), (1, 1), (0, 2)]);
    let search = b.anneal_from(start.clone(), 0, |_: i128, _: i128, _: usize| true);
    assert_eq!(search.state, start);
    assert_eq!(search.energy, -6);
    assert_eq!(search.iteration, 0);
}

#[test]
fn anneal_from_stops_on_budget_or_solution() {
    let b = Board::new(6);
    for budget in [1usize, 2, 5, 50, 500] {
        let start = b.random_state();
        let search = b.anneal_from(start, budget, |_: i128, _: i128, _: usize| false);
        assert!(is_placement(&search.state, 6));
        assert_eq!(search.energy, b.objective(&search.state));
        assert!(search.energy <= 0);
        assert!(search.iteration <= budget);
        assert!(search.iteration == budget || search.energy == 0);
    }
}

#[test]
fn anneal_from_never_gets_worse_under_a_rule_that_refuses() {
    let b = Board::new(5);
    let start = placement(&[(0, 0), (1, 0), (2, 0), (3, 0), (4, 0)]);
    let before = b.objective(&start);
    let search = b.anneal_from(start, 200, |_: i128, _: i128, _: usize| false);
    assert!(search.energy >= before);
}

#[test]
fn anneal_from_asks_the_rule_only_within_the_budget() {
    let b = Board::new(5);
    let start = placement(&[(0, 0), (1, 0), (2, 0), (3, 0), (4, 0)]);
    let calls = Cell::new(0usize);
    let rule = |energy: i128, energy_next: i128, divisor: usize| {
        assert!(energy_next <= energy);
        assert!(energy < 0);
        assert!(1 <= divisor && divisor < 30);
        calls.set(calls.get() + 1);
        true
    };
    let search = b.anneal_from(start, 30, rule);
    assert!(calls.get() <= search.iteration);
}

#[test]
fn simulated_annealing_returns_a_placement() {
    for size in [1usize, 2, 3, 4, 8] {
        let b = Board::new(size);
        let state = b.simulated_annealing(300, |e: i128, f: i128, i: usize| {
            metropolis(e, f, i, 1000.0)
        });
        assert!(is_placement(&state, size));
        assert!(b.objective(&state) <= 0);
    }
}

#[test]
fn simulated_annealing_without_budget_returns_a_placement() {
    let b = Board::new(4);
    let state = b.simulated_annealing(0, |_: i128, _: i128, _: usize| true);
    assert!(is_placement(&state, 4));
}

#[test]
fn simulated_annealing_finds_solutions_of_small_boards() {
    let b = Board::new(4);
    let mut solved = 0;
    for _ in 0..20 {
        let state = b.simulated_annealing(5000, |e: i128, f: i128, i: usize| {
            metropolis(e, f, i, 1000.0)
        });
        assert!(is_placement(&state, 4));
        if b.objective(&state) == 0 {
            solved += 1;
            for i in 0..4 {
                for j in 0..i {
                    assert_ne!(state[i].x, state[j].x);
                    assert_ne!(state[i].y, state[j].y);
                    assert_ne!(
                        state[i].x.abs_diff(state[j].x),
                        state[i].y.abs_diff(state[j].y)
                    );
                }
            }
        }
    }
    assert!(solved > 0);
}

#[test]
fn anneal_from_takes_every_candidate_under_a_rule_that_accepts() {
    let b = Board::new(5);
    let start = placement(&[(0, 0), (1, 0), (2, 0), (3, 0), (4, 0)]);
    for _ in 0..50 {
        let search = b.anneal_from(start.clone(), 1, |_: i128, _: i128, _: usize| true);
        assert_eq!(search.iteration, 1);
        assert!(is_placement(&search.state, 5));
        assert_ne!(search.state, start);
        let kept = search.state.iter().filter(|q| start.contains(q)).count();
        assert_eq!(kept, 4);
        assert_eq!(search.energy, b.objective(&search.state));
    }
}

#[test]
fn anneal_from_takes_only_better_candidates_under_a_rule_that_refuses() {
    let b = Board::new(5);
    let start = placement(&[(0, 0), (1, 0), (2, 0), (3, 0), (4, 0)]);
    let before = b.objective(&start);
    for _ in 0..50 {
        let search = b.anneal_from(start.clone(), 1, |_: i128, _: i128, _: usize| false);
        assert_eq!(search.iteration, 1);
        if search.state == start {
            assert_eq!(search.energy, before);
        } else {
            assert!(search.energy > before);
            let kept = search.state.iter().filter(|q| start.contains(q)).count();
            assert_eq!(kept, 4);
        }
    }
}
