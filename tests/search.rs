use statemachine::boxes::{AStarBox, BFSBox, DFSBox, StaggeredBox};
use statemachine::distances::{Euclidian, Manhattan};
use statemachine::hanoi::Hanoi;
use statemachine::machine::Machine;
use statemachine::sharedlist::SharedList;
use statemachine::tileboard::{Coord, TileBoard};
use statemachine::traits::{Distance, Solver, State, StateBox};

fn is_valid_path<S: State>(path: &[S], start: &S, goal: &S) -> bool {
    !path.is_empty()
        && path[0] == *start
        && path[path.len() - 1] == *goal
        && path.windows(2).all(|w| w[0].next().contains(&w[1]))
}

fn brute_force_distance<S: State>(start: &S, goal: &S) -> Option<usize> {
    let mut layer = vec![start.clone()];
    let mut visited = vec![start.clone()];
    let mut depth = 0;
    while !layer.is_empty() {
        if layer.contains(goal) {
            return Some(depth);
        }
        let mut next_layer = Vec::new();
        for s in &layer {
            for t in s.next() {
                if !visited.contains(&t) {
                    visited.push(t.clone());
                    next_layer.push(t);
                }
            }
        }
        layer = next_layer;
        depth += 1;
    }
    None
}

fn one_move_away() -> (TileBoard<2, 2>, TileBoard<2, 2>) {
    (TileBoard::from_rows([[1, 2], [0, 3]]), TileBoard::default())
}

#[test]
fn start_equal_to_goal_gives_single_state_path() {
    let b: TileBoard<2, 2> = TileBoard::default();
    let found = Machine::new(b, b).find_one_with_checks::<BFSBox<_>>();
    let (path, checks) = found.unwrap();
    assert_eq!(checks, 0);
    assert_eq!(path.len(), 1);
    assert!(path[0] == b);
    let all = Machine::new(b, b).find_all::<BFSBox<_>>();
    assert!(all[0].len() == 1 && all[0][0] == b);
}

#[test]
fn one_move_scenario_across_strategies() {
    let (start, goal) = one_move_away();
    let bfs = Machine::new(start, goal).find_one::<BFSBox<_>>().unwrap();
    assert_eq!(bfs.len(), 2);
    assert!(is_valid_path(&bfs, &start, &goal));
    let astar = Machine::new(start, goal)
        .find_one::<AStarBox<_, Manhattan, Coord>>()
        .unwrap();
    assert_eq!(astar.len(), 2);
    assert!(is_valid_path(&astar, &start, &goal));
    let dfs = Machine::new(start, goal).find_one::<DFSBox<_>>().unwrap();
    assert!(dfs.len() >= 2);
    assert!(is_valid_path(&dfs, &start, &goal));
    let staggered = Machine::new(start, goal)
        .find_one::<StaggeredBox<_, Euclidian, Coord>>()
        .unwrap();
    assert!(is_valid_path(&staggered, &start, &goal));
}

#[test]
fn bfs_path_length_matches_brute_force() {
    let start: Hanoi<3> = Hanoi::new();
    let goal: Hanoi<3> = Hanoi::solved();
    let path = Machine::new(start, goal).find_one::<BFSBox<_>>().unwrap();
    assert!(is_valid_path(&path, &start, &goal));
    assert_eq!(path.len() - 1, brute_force_distance(&start, &goal).unwrap());
    assert_eq!(path.len(), 8);

    let start: TileBoard<3, 2> = TileBoard::from_rows([[4, 1, 3], [0, 2, 5]]);
    let goal: TileBoard<3, 2> = TileBoard::default();
    let path = Machine::new(start, goal).find_one::<BFSBox<_>>().unwrap();
    assert!(is_valid_path(&path, &start, &goal));
    assert_eq!(path.len() - 1, brute_force_distance(&start, &goal).unwrap());
}

#[test]
fn find_one_is_no_longer_than_find_all() {
    let start: Hanoi<2> = Hanoi::new();
    let goal: Hanoi<2> = Hanoi::solved();
    let one = Machine::new(start, goal).find_one::<BFSBox<_>>().unwrap();
    let all = Machine::new(start, goal).find_all::<BFSBox<_>>();
    assert!(!all.is_empty());
    for p in &all {
        assert!(is_valid_path(p, &start, &goal));
    }
    let shortest = all.iter().map(|p| p.len()).min().unwrap();
    assert_eq!(one.len(), shortest);
    assert_eq!(one.len(), 4);
}

#[test]
fn unreachable_goal_gives_nothing() {
    // Swapping two tiles changes the permutation's parity: no sequence of slides does it.
    let start: TileBoard<2, 2> = TileBoard::from_rows([[2, 1], [3, 0]]);
    let goal: TileBoard<2, 2> = TileBoard::default();
    assert!(Machine::new(start, goal).find_one::<BFSBox<_>>().is_none());
    assert!(Machine::new(start, goal).find_all::<DFSBox<_>>().is_empty());
}

#[test]
fn checks_count_expansions() {
    let (start, goal) = one_move_away();
    let (_, checks) = Machine::new(start, goal)
        .find_one_with_checks::<BFSBox<_>>()
        .unwrap();
    assert_eq!(checks, 1);
}

#[test]
fn frontiers_pop_in_their_order() {
    let a: TileBoard<2, 2> = TileBoard::default();
    let b: TileBoard<2, 2> = TileBoard::from_rows([[1, 2], [0, 3]]);
    let c: TileBoard<2, 2> = TileBoard::from_rows([[1, 0], [3, 2]]);
    let mut bfs = BFSBox::init(a);
    bfs.insert(b, SharedList::new().push(a));
    bfs.insert(c, SharedList::new().push(a));
    assert!(bfs.pop().unwrap().0 == a);
    assert!(bfs.pop().unwrap().0 == b);
    assert!(bfs.pop().unwrap().0 == c);
    assert!(bfs.pop().is_none());

    let mut dfs = DFSBox::init(a);
    dfs.insert(b, SharedList::new().push(a));
    dfs.insert(c, SharedList::new().push(a));
    assert!(dfs.pop().unwrap().0 == c);
    assert!(dfs.pop().unwrap().0 == b);
    assert!(dfs.pop().unwrap().0 == a);
    assert!(dfs.pop().is_none());
}

#[test]
fn staggered_prefers_shallow_over_low_score() {
    let solved: TileBoard<3, 2> = TileBoard::default();
    // Far from solved: high heuristic score.
    let far: TileBoard<3, 2> = TileBoard::from_rows([[5, 4, 0], [3, 2, 1]]);
    let shallow = SharedList::new().push(solved);
    let deep = SharedList::new().push(solved).push(solved).push(solved);

    let mut staggered: StaggeredBox<TileBoard<3, 2>, Manhattan, Coord> = StaggeredBox::init(far);
    staggered.insert(solved, deep.clone());
    staggered.insert(far, shallow.clone());
    let first = staggered.pop().unwrap();
    assert!(first.0 == far && first.1.len() == 0);
    let second = staggered.pop().unwrap();
    assert!(second.0 == far && second.1.len() == 1);
    let third = staggered.pop().unwrap();
    assert!(third.0 == solved && third.1.len() == 3);

    let mut astar: AStarBox<TileBoard<3, 2>, Manhattan, Coord> = AStarBox::init(far);
    astar.insert(solved, deep);
    astar.insert(far, shallow);
    let first = astar.pop().unwrap();
    assert!(first.0 == solved && first.1.len() == 3);
}

#[test]
fn distances_have_exact_values() {
    let a = Coord::new(0, 0);
    let b = Coord::new(3, 4);
    assert_eq!(Manhattan::distance(a, b), 7);
    assert_eq!(Manhattan::distance(b, a), 7);
    assert_eq!(Euclidian::distance(a, b), 2);
    assert_eq!(Euclidian::distance(Coord::new(1, 1), Coord::new(7, 9)), 5);
    assert_eq!(Euclidian::distance(a, a), 0);
}

#[test]
fn hanoi_moves_and_differences() {
    let h: Hanoi<2> = Hanoi::new();
    let next = h.next();
    assert_eq!(next.len(), 2);
    let d = h.differences();
    assert_eq!(
        d,
        vec![
            (statemachine::Coord::new(3, 0), statemachine::Coord::new(0, 0)),
            (statemachine::Coord::new(3, 1), statemachine::Coord::new(0, 1)),
        ]
    );
    let s: Hanoi<2> = Hanoi::solved();
    assert_eq!(
        s.differences(),
        vec![
            (statemachine::Coord::new(3, 0), statemachine::Coord::new(2, 0)),
            (statemachine::Coord::new(3, 1), statemachine::Coord::new(2, 1)),
        ]
    );
    assert!(Hanoi::<2>::default() == h);
}

#[test]
fn expansions_stay_within_distinct_states() {
    // Twelve boards are reachable from the solved 2x2 board; the farthest is six slides away.
    let start: TileBoard<2, 2> = TileBoard::default();
    let goal: TileBoard<2, 2> = TileBoard::from_rows([[0, 3], [2, 1]]);
    let (path, checks) = Machine::new(start, goal)
        .find_one_with_checks::<BFSBox<_>>()
        .unwrap();
    assert_eq!(path.len(), 7);
    assert!(checks <= 12);
    let (traced, _) = Machine::new(start, goal).find_one_traced::<BFSBox<_>>();
    let (traced_path, traced_checks) = traced.unwrap();
    assert_eq!(traced_checks, checks);
    assert_eq!(traced_path.len(), path.len());
    let (all, _) = Machine::new(start, goal).find_all_traced::<BFSBox<_>>();
    assert_eq!(all[0].len(), 7);
}

#[test]
fn one_move_away_gives_two_states_and_one_check_everywhere() {
    let (start, goal) = one_move_away();
    let expected = vec![start, goal];
    let (p, n) = Machine::new(start, goal)
        .find_one_with_checks::<BFSBox<_>>()
        .unwrap();
    assert!(p == expected && n == 1);
    let (p, n) = Machine::new(start, goal)
        .find_one_with_checks::<DFSBox<_>>()
        .unwrap();
    assert!(p == expected && n == 1);
    let (p, n) = Machine::new(start, goal)
        .find_one_with_checks::<AStarBox<_, Manhattan, Coord>>()
        .unwrap();
    assert!(p == expected && n == 1);
    let (p, n) = Machine::new(start, goal)
        .find_one_with_checks::<StaggeredBox<_, Euclidian, Coord>>()
        .unwrap();
    assert!(p == expected && n == 1);
}

#[test]
fn returned_paths_hold_no_state_twice() {
    let start: TileBoard<3, 2> = TileBoard::from_rows([[4, 1, 3], [0, 2, 5]]);
    let goal: TileBoard<3, 2> = TileBoard::default();
    let dfs = Machine::new(start, goal).find_one::<DFSBox<_>>().unwrap();
    for i in 0..dfs.len() {
        for j in (i + 1)..dfs.len() {
            assert!(dfs[i] != dfs[j]);
        }
    }
}

#[test]
fn staggered_finds_shortest_paths() {
    let tstart: TileBoard<3, 2> = TileBoard::from_rows([[4, 1, 3], [0, 2, 5]]);
    let tgoal: TileBoard<3, 2> = TileBoard::default();
    let one = Machine::new(tstart, tgoal)
        .find_one::<StaggeredBox<_, Manhattan, Coord>>()
        .unwrap();
    let all = Machine::new(tstart, tgoal).find_all::<StaggeredBox<_, Manhattan, Coord>>();
    assert_eq!(one.len(), all[0].len());
    assert_eq!(all[0].len() - 1, brute_force_distance(&tstart, &tgoal).unwrap());
    for w in all.windows(2) {
        assert!(w[0].len() <= w[1].len());
    }
}

#[test]
fn dfs_pops_the_newest_pair() {
    let a: TileBoard<2, 2> = TileBoard::default();
    let b: TileBoard<2, 2> = TileBoard::from_rows([[1, 2], [0, 3]]);
    let mut dfs = DFSBox::init(a);
    assert!(dfs.pop().unwrap().0 == a);
    dfs.insert(b, SharedList::new().push(a));
    dfs.insert(a, SharedList::new().push(b));
    assert!(dfs.pop().unwrap().0 == a);
    dfs.insert(a, SharedList::new());
    assert!(dfs.pop().unwrap().1.len() == 0);
    assert!(dfs.pop().unwrap().0 == b);
    assert!(dfs.pop().is_none());
}

#[test]
fn dfs_may_find_a_longer_path_than_bfs() {
    let start: TileBoard<3, 2> = TileBoard::from_rows([[4, 1, 3], [0, 2, 5]]);
    let goal: TileBoard<3, 2> = TileBoard::default();
    let bfs = Machine::new(start, goal).find_one::<BFSBox<_>>().unwrap();
    let dfs = Machine::new(start, goal).find_one::<DFSBox<_>>().unwrap();
    assert!(is_valid_path(&dfs, &start, &goal));
    assert!(bfs.len() <= dfs.len());
    let all = Machine::new(start, goal).find_all::<BFSBox<_>>();
    assert_eq!(all[0].len(), bfs.len());
}
