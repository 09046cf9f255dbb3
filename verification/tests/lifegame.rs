use lifegame::grid::Lifegame;

fn seed_of(rows: &[&str]) -> Vec<(usize, usize)> {
    let mut seed = Vec::new();
    for (y, row) in rows.iter().enumerate() {
        for (x, ch) in row.chars().enumerate() {
            if ch == 'O' {
                seed.push((y, x));
            }
        }
    }
    seed
}

fn grid_from(height: usize, width: usize, rows: &[&str]) -> Lifegame {
    let seed = seed_of(rows);
    Lifegame::new(height, width, Some(&seed))
}

fn alive_cells(g: &Lifegame) -> Vec<(usize, usize)> {
    let snap = g.snapshot();
    let mut out = Vec::new();
    for (y, row) in snap.iter().enumerate() {
        for (x, &c) in row.iter().enumerate() {
            if c {
                out.push((y, x));
            }
        }
    }
    out
}

fn assert_strategies_agree(height: usize, width: usize, rows: &[&str]) {
    let mut a = grid_from(height, width, rows);
    let mut b = grid_from(height, width, rows);
    let mut c = grid_from(height, width, rows);
    a.next();
    b.next_parallel_channel();
    c.next_parallel_mutex();
    let sa = a.snapshot();
    assert!(b.eq(&sa), "channel strategy diverged from sequential");
    assert!(c.eq(&sa), "mutex strategy diverged from sequential");
}

#[test]
fn step_equivalence_on_patterns() {
    assert_strategies_agree(1, 1, &["O"]);
    assert_strategies_agree(1, 1, &[" "]);
    assert_strategies_agree(4, 4, &[" ", " OO", " OO"]);
    assert_strategies_agree(5, 5, &[" ", " OOO"]);
    assert_strategies_agree(6, 7, &["O O O", " OO", "O   O", "  O", "OOOOOOO"]);
}

#[test]
fn step_equivalence_on_random_grids() {
    for _ in 0..5 {
        let mut a = Lifegame::new(9, 11, None);
        a.random();
        let start = a.snapshot();
        let seed = alive_cells(&a);
        let mut b = Lifegame::new(9, 11, Some(&seed));
        let mut c = Lifegame::new(9, 11, Some(&seed));
        assert!(b.eq(&start));
        a.next();
        b.next_parallel_channel();
        c.next_parallel_mutex();
        let sa = a.snapshot();
        assert!(b.eq(&sa), "channel strategy diverged from sequential");
        assert!(c.eq(&sa), "mutex strategy diverged from sequential");
    }
}

#[test]
fn step_equivalence_on_degenerate_grids() {
    let mut a = Lifegame::new(0, 0, None);
    let mut b = Lifegame::new(0, 0, None);
    let mut c = Lifegame::new(0, 0, None);
    a.next();
    b.next_parallel_channel();
    c.next_parallel_mutex();
    assert!(b.eq(&a.snapshot()));
    assert!(c.eq(&a.snapshot()));
}

#[test]
fn corner_cell_counts_three_in_bounds_neighbors() {
    // all three in-bounds neighbours of (0,0) alive; far cells must not wrap
    let g = grid_from(3, 3, &[" O", "OO", "  O"]);
    let src = g.snapshot();
    assert_eq!(g.neighbor_count(0, 0, &src), 3);
}

#[test]
fn corner_count_never_wraps() {
    // only cells on the far edges are alive: no neighbour of (0,0)
    let g = grid_from(3, 3, &["  O", "  O", "OOO"]);
    let src = g.snapshot();
    assert_eq!(g.neighbor_count(0, 0, &src), 0);
}

#[test]
fn single_live_cell_dies() {
    let mut g = grid_from(3, 3, &[" ", " O"]);
    g.next();
    assert!(alive_cells(&g).is_empty());
}

#[test]
fn block_is_unchanged_by_step() {
    let mut g = grid_from(4, 4, &[" ", " OO", " OO"]);
    let before = g.snapshot();
    g.next();
    assert!(g.eq(&before));
}

#[test]
fn block_scores_one() {
    let mut g = grid_from(4, 4, &[" ", " OO", " OO"]);
    assert_eq!(g.score(), 1);
}

#[test]
fn blinker_scores_two() {
    let mut g = grid_from(5, 5, &[" ", "", " OOO"]);
    assert_eq!(g.score(), 2);
}

#[test]
fn blinker_oscillates() {
    let mut g = grid_from(5, 5, &["", " OOO"]);
    g.next();
    assert_eq!(alive_cells(&g), vec![(0, 2), (1, 2), (2, 2)]);
    g.next();
    assert_eq!(alive_cells(&g), vec![(1, 1), (1, 2), (1, 3)]);
}

#[test]
fn score_within_agrees_with_score() {
    let mut g = grid_from(5, 5, &[" ", "", " OOO"]);
    assert_eq!(g.score_within(10), Some(2));
    let mut g2 = grid_from(4, 4, &[" ", " OO", " OO"]);
    assert_eq!(g2.score_within(10), Some(1));
}

#[test]
fn glider_exceeds_iteration_bound() {
    // a travelling glider repeats no state of its 10-deep window while it
    // moves, so the scorer does not terminate within a generous bound:
    // the accepted design limit of the 10-deep lookback
    let mut g = grid_from(10, 10, &[" O", "  O", "OOO"]);
    assert_eq!(g.score_within(12), None);
}

#[test]
fn empty_grid_scores_one() {
    let mut g = Lifegame::new(4, 4, None);
    assert_eq!(g.score(), 1);
}

#[test]
fn subsequences_of_three_elements() {
    let xs: Vec<usize> = vec![1, 2, 3];
    let ss = Lifegame::subsequences(&xs);
    // ascending bit-mask order: bit i set means element i is included
    let expected: Vec<Vec<usize>> = vec![
        vec![],
        vec![1],
        vec![2],
        vec![1, 2],
        vec![3],
        vec![1, 3],
        vec![2, 3],
        vec![1, 2, 3],
    ];
    assert_eq!(ss, expected);
}

#[test]
fn subsequences_counts_are_powers_of_two() {
    let empty: Vec<usize> = vec![];
    assert_eq!(Lifegame::subsequences(&empty), vec![Vec::<usize>::new()]);
    for k in 0..6usize {
        let xs: Vec<usize> = (0..k).collect();
        let ss = Lifegame::subsequences(&xs);
        assert_eq!(ss.len(), 1 << k);
        // no duplicates and both extremes present
        for i in 0..ss.len() {
            for j in 0..i {
                assert_ne!(ss[i], ss[j], "duplicate subsets at {} and {}", i, j);
            }
        }
        assert!(ss.contains(&vec![]));
        assert!(ss.contains(&xs));
    }
}

#[test]
fn run_finds_best_and_later_tie_wins() {
    // candidates (1,1) and (1,2): both singletons and the pair score 2,
    // the empty subset scores 1; the pair is enumerated last and wins
    let mut g = Lifegame::new(5, 5, None);
    let best = g.run((1, 1), (2, 3));
    assert_eq!(best, 2);
    assert_eq!(alive_cells(&g), vec![(1, 1), (1, 2)]);
}

#[test]
fn run_on_empty_rectangle() {
    // only the empty subset is enumerated: the empty grid scores 1
    let mut g = Lifegame::new(4, 4, None);
    let best = g.run((2, 2), (2, 2));
    assert_eq!(best, 1);
    assert!(alive_cells(&g).is_empty());
}

#[test]
fn run_retains_block_seed() {
    // the full 2x2 block is the strongest seed only by tie-break order;
    // every candidate here dies or stabilises quickly
    let mut g = Lifegame::new(6, 6, None);
    let best = g.run((2, 2), (4, 4));
    assert!(best >= 1);
    // the returned best score matches re-scoring the retained seed
    let seed = alive_cells(&g);
    let mut again = Lifegame::new(6, 6, Some(&seed));
    assert_eq!(again.score(), best);
}

#[test]
fn new_ignores_out_of_bounds_seed() {
    let seed = vec![(0, 0), (7, 7)];
    let g = Lifegame::new(2, 2, Some(&seed));
    assert_eq!(alive_cells(&g), vec![(0, 0)]);
}

#[test]
fn reset_clears_and_apply_seed_keeps_existing() {
    let mut g = grid_from(3, 3, &["O"]);
    g.apply_seed(&vec![(2, 2)]);
    assert_eq!(alive_cells(&g), vec![(0, 0), (2, 2)]);
    g.reset();
    assert!(alive_cells(&g).is_empty());
}

#[test]
fn eq_detects_difference() {
    let g = grid_from(2, 2, &["O"]);
    let other = Lifegame::new(2, 2, None);
    assert!(!g.eq(&other.snapshot()));
    assert!(g.eq(&g.snapshot()));
}

#[test]
fn random_keeps_dimensions() {
    let mut g = Lifegame::new(3, 7, None);
    g.random();
    let snap = g.snapshot();
    assert_eq!(snap.len(), 3);
    for row in &snap {
        assert_eq!(row.len(), 7);
    }
}

#[test]
fn render_marks_alive_cells() {
    let g = grid_from(2, 3, &[" O", "O"]);
    assert_eq!(g.render(), " O \nO  \n");
}
