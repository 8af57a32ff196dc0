use pattern_grid::search::temperature;
use pattern_grid::{Dir, Grid, Move, Optimizer, Pos, RandomSource, StepOutcome, N};

fn pats(list: &[&str]) -> Vec<Vec<char>> {
    list.iter().map(|s| s.chars().collect()).collect()
}

fn no_worse_moves() -> Vec<u64> {
    vec![0; N + 1]
}

fn any_moves() -> Vec<u64> {
    vec![u64::MAX; N + 1]
}

fn mv(pattern: usize, r: u8, c: u8, dir: Dir) -> Move {
    Move { pattern, anchor: Pos::new(r, c), dir }
}

fn row(o: &Optimizer, r: usize) -> String {
    o.render()[r].iter().collect()
}

#[test]
fn empty_start_renders_dots() {
    let mut o = Optimizer::new(vec![]);
    let mut rng = RandomSource::from_seed(1);
    o.run(&mut rng, 100, &no_worse_moves());
    let rows = o.render();
    assert_eq!(rows.len(), 20);
    for r in rows {
        let s: String = r.iter().collect();
        assert_eq!(s, ".".repeat(20));
    }
    assert_eq!(o.score(), (0, 400));
}

#[test]
fn single_pattern_placed_at_origin() {
    let mut o = Optimizer::new(pats(&["ab"]));
    let (out, delta) = o.step(mv(0, 0, 0, Dir::H), u32::MAX, &no_worse_moves());
    assert_eq!(out, StepOutcome::Accepted);
    assert_eq!(delta, 8);
    assert_eq!(row(&o, 0), format!("ab{}", ".".repeat(18)));
    for r in 1..20 {
        assert_eq!(row(&o, r), ".".repeat(20));
    }
    assert_eq!(o.score(), (1, 398));
    assert_eq!(o.placement(0), Some(pattern_grid::Placement { anchor: Pos::new(0, 0), dir: Dir::H }));
}

#[test]
fn vertical_placement_wraps() {
    let mut o = Optimizer::new(pats(&["abc"]));
    let (out, _) = o.step(mv(0, 19, 4, Dir::V), 0, &no_worse_moves());
    assert_eq!(out, StepOutcome::Accepted);
    let rows = o.render();
    assert_eq!(rows[19][4], 'a');
    assert_eq!(rows[0][4], 'b');
    assert_eq!(rows[1][4], 'c');
    assert_eq!(o.score(), (1, 397));
}

#[test]
fn shared_cell_counts_both_claims() {
    let mut o = Optimizer::new(pats(&["a", "a"]));
    assert_eq!(o.step(mv(0, 3, 3, Dir::H), 0, &no_worse_moves()).0, StepOutcome::Accepted);
    let (out, delta) = o.step(mv(1, 3, 3, Dir::V), 0, &no_worse_moves());
    assert_eq!(out, StepOutcome::Accepted);
    assert_eq!(delta, 10);
    let idx = 3 * N + 3;
    assert_eq!(o.grid.cells[idx].count, 2);
    assert_eq!(o.grid.cells[idx].symbol, 'a');
    assert_eq!(o.score(), (2, 399));
    // moving one of them away lets go of its claim on the shared cell
    let (out, delta) = o.step(mv(0, 10, 10, Dir::H), 0, &any_moves());
    assert_eq!(out, StepOutcome::Accepted);
    assert_eq!(delta, -1);
    assert_eq!(o.grid.cells[idx].count, 1);
    assert_eq!(o.grid.cells[idx].symbol, 'a');
    assert_eq!(o.score(), (2, 398));
}

#[test]
fn grid_release_keeps_shared_cell() {
    let mut g = Grid::new();
    let a: Vec<char> = vec!['a'];
    let p = Pos::new(0, 0);
    assert!(g.can_place(&a, p, Dir::H));
    assert_eq!(g.claim(&a, p, Dir::H), -1);
    assert!(g.can_place(&a, p, Dir::V));
    assert_eq!(g.claim(&a, p, Dir::V), 0);
    assert_eq!(g.cells[0].count, 2);
    assert_eq!(g.release(1, p, Dir::H), 0);
    assert_eq!(g.cells[0].count, 1);
    assert_eq!(g.cells[0].symbol, 'a');
    assert_eq!(g.release(1, p, Dir::V), 1);
    assert_eq!(g.cells[0].count, 0);
    assert_eq!(g.cells[0].symbol, '.');
}

#[test]
fn conflicting_symbol_is_infeasible() {
    let mut o = Optimizer::new(pats(&["a", "b"]));
    assert_eq!(o.step(mv(0, 0, 0, Dir::H), 0, &no_worse_moves()).0, StepOutcome::Accepted);
    let before_cells = o.grid.cells.clone();
    let before_placements = o.placements.clone();
    assert!(!o.grid.can_place(&vec!['b'], Pos::new(0, 0), Dir::H));
    let (out, delta) = o.step(mv(1, 0, 0, Dir::H), 0, &any_moves());
    assert_eq!(out, StepOutcome::Infeasible);
    assert_eq!(delta, 0);
    assert_eq!(o.grid.cells, before_cells);
    assert_eq!(o.placements, before_placements);
    assert_eq!(o.score(), (1, 399));
}

#[test]
fn infeasible_move_restores_previous_place() {
    let mut o = Optimizer::new(pats(&["ab", "xy"]));
    assert_eq!(o.step(mv(0, 0, 0, Dir::H), 0, &no_worse_moves()).0, StepOutcome::Accepted);
    assert_eq!(o.step(mv(1, 5, 0, Dir::H), 0, &no_worse_moves()).0, StepOutcome::Accepted);
    let before_cells = o.grid.cells.clone();
    let (out, _) = o.step(mv(1, 0, 1, Dir::V), 0, &any_moves());
    assert_eq!(out, StepOutcome::Infeasible);
    assert_eq!(o.grid.cells, before_cells);
    assert_eq!(o.placements[1], Some(pattern_grid::Placement { anchor: Pos::new(5, 0), dir: Dir::H }));
    assert_eq!(o.score(), (2, 396));
}

#[test]
fn worse_move_rejected_and_rolled_back() {
    let mut o = Optimizer::new(pats(&["ab", "b"]));
    o.step(mv(0, 0, 0, Dir::H), 0, &no_worse_moves());
    o.step(mv(1, 0, 1, Dir::H), 0, &no_worse_moves());
    assert_eq!(o.score(), (2, 398));
    let before_cells = o.grid.cells.clone();
    let before_placements = o.placements.clone();
    let (out, delta) = o.step(mv(1, 7, 7, Dir::H), u32::MAX, &no_worse_moves());
    assert_eq!(out, StepOutcome::Rejected);
    assert_eq!(delta, -1);
    assert_eq!(o.grid.cells, before_cells);
    assert_eq!(o.placements, before_placements);
    assert_eq!(o.score(), (2, 398));
}

#[test]
fn worse_move_accepted_under_cutoff() {
    let mut o = Optimizer::new(pats(&["ab", "b"]));
    o.step(mv(0, 0, 0, Dir::H), 0, &no_worse_moves());
    o.step(mv(1, 0, 1, Dir::H), 0, &no_worse_moves());
    let mut cutoffs = no_worse_moves();
    cutoffs[1] = 1000;
    assert_eq!(o.step(mv(1, 7, 7, Dir::H), 1001, &cutoffs).0, StepOutcome::Rejected);
    assert_eq!(o.step(mv(1, 7, 7, Dir::H), 1000, &cutoffs).0, StepOutcome::Accepted);
    assert_eq!(o.score(), (2, 397));
}

#[test]
fn improving_move_always_accepted() {
    let mut o = Optimizer::new(pats(&["abc", "c"]));
    o.step(mv(0, 2, 2, Dir::V), 0, &no_worse_moves());
    o.step(mv(1, 9, 9, Dir::H), 0, &no_worse_moves());
    // moving "c" onto the last cell of "abc" frees a cell
    let (out, delta) = o.step(mv(1, 4, 2, Dir::H), u32::MAX, &no_worse_moves());
    assert_eq!(delta, 1);
    assert_eq!(out, StepOutcome::Accepted);
    assert_eq!(o.score(), (2, 397));
}

#[test]
fn fixed_seed_runs_agree() {
    let words = pats(&["ABCD", "CDEF", "EFGH", "HAB", "BCDEFG", "GGA", "DAD"]);
    let mut cutoffs = vec![0u64; N + 1];
    for d in 1..=N {
        cutoffs[d] = (u32::MAX as u64) >> d;
    }
    let mut first = Optimizer::new(words.clone());
    let mut second = Optimizer::new(words);
    let mut r1 = RandomSource::from_seed(42);
    let mut r2 = RandomSource::from_seed(42);
    first.run(&mut r1, 5000, &cutoffs);
    second.run(&mut r2, 5000, &cutoffs);
    assert_eq!(first.render(), second.render());
    assert_eq!(first.score(), second.score());
    assert_eq!(first.grid.cells, second.grid.cells);
    assert!(first.score().0 >= 1);
}

#[test]
fn score_matches_grid_after_run() {
    let words = pats(&["AB", "BC", "CA", "ABC", "HHH"]);
    let mut o = Optimizer::new(words);
    let mut rng = RandomSource::from_seed(9);
    o.run(&mut rng, 2000, &vec![u64::MAX; N + 1]);
    let empties = o.grid.cells.iter().filter(|c| c.count == 0).count() as u64;
    let placed = o.placements.iter().filter(|p| p.is_some()).count() as u64;
    assert_eq!(o.score(), (placed, empties));
    let occupied = o.grid.cells.iter().filter(|c| c.count > 0).count() as u64;
    assert_eq!(occupied + o.score().1, 400);
}

#[test]
fn temperature_interpolates_and_clamps() {
    assert_eq!(temperature(1000, 10, 0, 1000), 1000);
    assert_eq!(temperature(1000, 10, 500, 1000), 505);
    assert_eq!(temperature(1000, 10, 1000, 1000), 10);
    assert_eq!(temperature(1000, 10, 5000, 1000), 10);
}

#[test]
fn pos_next_wraps() {
    let p = Pos::new(19, 19);
    assert_eq!(p.next(Dir::H), Pos::new(19, 0));
    assert_eq!(p.next(Dir::V), Pos::new(0, 19));
    assert_eq!(Pos::new(3, 4).flat_index(), 64);
}

#[test]
fn seeded_source_is_repeatable() {
    let mut a = RandomSource::from_seed(5);
    let mut b = RandomSource::from_seed(5);
    let xs: Vec<u32> = (0..20).map(|_| a.word()).collect();
    let ys: Vec<u32> = (0..20).map(|_| b.word()).collect();
    assert_eq!(xs, ys);
    let mut c = RandomSource::from_seed(6);
    let zs: Vec<u32> = (0..20).map(|_| c.word()).collect();
    assert_ne!(xs, zs);
}

#[test]
fn range_draws_stay_in_bounds_and_vary() {
    let mut r = RandomSource::from_seed(3);
    let draws: Vec<u64> = (0..200).map(|_| r.range(10, 20)).collect();
    assert!(draws.iter().all(|&x| (10..20).contains(&x)));
    assert!(draws.iter().any(|&x| x != 10));
    let m = r.propose(7);
    assert!(m.pattern < 7);
    assert!((m.anchor.r as usize) < N && (m.anchor.c as usize) < N);
}

#[test]
fn claim_on_empty_run_and_release_are_exact_inverses() {
    let mut g = Grid::new();
    let before = g.cells.clone();
    let pat: Vec<char> = vec!['x', 'y', 'z'];
    let anchor = Pos::new(18, 7);
    assert!(g.can_place(&pat, anchor, Dir::V));
    assert_eq!(g.claim(&pat, anchor, Dir::V), -3);
    assert_eq!(g.cells[18 * N + 7].symbol, 'x');
    assert_eq!(g.cells[19 * N + 7].symbol, 'y');
    assert_eq!(g.cells[7].symbol, 'z');
    assert_eq!(g.release(3, anchor, Dir::V), 3);
    assert_eq!(g.cells, before);
}

#[test]
fn rendered_dots_match_empty_count() {
    let mut o = Optimizer::new(pats(&["ABC", "CDE", "EA", "BB"]));
    let mut rng = RandomSource::from_seed(17);
    o.run(&mut rng, 3000, &vec![0; N + 1]);
    let dots = o.render().iter().flatten().filter(|&&c| c == '.').count() as u64;
    assert_eq!(dots, o.score().1);
    assert!(o.score().0 >= 1);
}
