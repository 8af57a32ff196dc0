use pattern_grid::judge::{improve_rows, try_swap};
use pattern_grid::packing::{contains, distinct_by_length, pack_rows, same};
use pattern_grid::{compute_score_detail, gen, Input, RandomSource};

fn chars(s: &str) -> Vec<char> {
    s.chars().collect()
}

fn text(v: &[char]) -> String {
    v.iter().collect()
}

#[test]
fn same_compares_characters() {
    assert!(same(&chars("ABC"), &chars("ABC")));
    assert!(!same(&chars("ABC"), &chars("ABD")));
    assert!(!same(&chars("AB"), &chars("ABC")));
    assert!(same(&chars(""), &chars("")));
}

#[test]
fn contains_finds_inner_runs() {
    assert!(contains(&chars("ABCDE"), &chars("CD")));
    assert!(contains(&chars("ABCDE"), &chars("ABCDE")));
    assert!(contains(&chars("ABCDE"), &chars("")));
    assert!(!contains(&chars("ABCDE"), &chars("CE")));
    assert!(!contains(&chars("AB"), &chars("ABC")));
}

#[test]
fn distinct_patterns_sorted_by_length() {
    let input = vec![chars("ABC"), chars("A"), chars("ABC"), chars("DE"), chars("A"), chars("BC")];
    let out: Vec<String> = distinct_by_length(&input).iter().map(|p| text(p)).collect();
    assert_eq!(out, vec!["A", "DE", "BC", "ABC"]);
}

#[test]
fn packing_merges_overlaps_into_one_row() {
    let input = vec![chars("ABCD"), chars("CDEF"), chars("EFGH"), chars("BC")];
    let mut rng = RandomSource::from_seed(11);
    let (rows, pats, used) = pack_rows(&input, &mut rng);
    assert_eq!(rows.len(), 20);
    assert!(rows.iter().all(|r| r.len() == 20));
    assert_eq!(pats.len(), 4);
    assert!(used.iter().all(|&u| u));
    let first = text(&rows[0]);
    assert!(first.starts_with("ABCDEFGH"), "{}", first);
    for (p, &u) in pats.iter().zip(used.iter()) {
        if u {
            let p = text(p);
            assert!(rows.iter().any(|r| text(r).contains(&p)));
        }
    }
}

#[test]
fn packing_without_patterns_fills_symbols() {
    let mut rng = RandomSource::from_seed(2);
    let (rows, pats, used) = pack_rows(&vec![], &mut rng);
    assert_eq!(rows.len(), 20);
    assert!(pats.is_empty() && used.is_empty());
    for r in &rows {
        assert_eq!(r.len(), 20);
        assert!(r.iter().all(|c| ('A'..='H').contains(c)));
    }
}

#[test]
fn packed_generated_instance_scores() {
    let input = gen(4);
    let mut rng = RandomSource::from_seed(4);
    let (mut rows, pats, used) = pack_rows(&input.s, &mut rng);
    let placed = used.iter().filter(|&&u| u).count();
    assert!(placed > 0);
    for (p, &u) in pats.iter().zip(used.iter()) {
        if u {
            let p = text(p);
            assert!(rows.iter().any(|r| text(r).contains(&p)));
        }
    }
    let (before, reason) = compute_score_detail(&input, &rows);
    assert_eq!(reason, "");
    assert!(before > 0);
    improve_rows(&input, &mut rows, &mut rng, 30);
    let (after, reason) = compute_score_detail(&input, &rows);
    assert_eq!(reason, "");
    assert!(after >= before);
}

#[test]
fn row_swaps_never_lower_the_score() {
    let mut rows: Vec<Vec<char>> = (0..20).map(|_| vec!['.'; 20]).collect();
    rows[0] = chars("ABCDEFGHABCDEFGHABCD");
    let input = Input { M: 2, s: vec![chars("AB"), chars("HH")] };
    let before = compute_score_detail(&input, &rows).0;
    assert_eq!(before, 50_000_000);
    let mut rng = RandomSource::from_seed(8);
    improve_rows(&input, &mut rows, &mut rng, 50);
    assert_eq!(compute_score_detail(&input, &rows).0, 50_000_000);
    assert_eq!(rows.iter().filter(|r| r[0] == 'A').count(), 1);
}

#[test]
fn try_swap_keeps_only_non_worse_exchanges() {
    let mut rows: Vec<Vec<char>> = (0..20).map(|_| vec!['.'; 20]).collect();
    rows[0][0] = 'A';
    rows[1][0] = 'B';
    let input = Input { M: 1, s: vec![chars("AB")] };
    // "AB" reads down column 0 only while row 0 stays above row 1
    assert_eq!(compute_score_detail(&input, &rows).0, 199_004_975);
    try_swap(&input, &mut rows, 0, 1);
    assert_eq!(rows[0][0], 'A');
    assert_eq!(rows[1][0], 'B');
    try_swap(&input, &mut rows, 5, 7);
    assert_eq!(rows[0][0], 'A');
    let input = Input { M: 1, s: vec![chars("BA")] };
    try_swap(&input, &mut rows, 0, 1);
    assert_eq!(rows[0][0], 'B');
    assert_eq!(rows[1][0], 'A');
}

#[test]
fn generated_lengths_share_one_base() {
    for seed in 0..5 {
        let input = gen(seed);
        let lo = input.s.iter().map(|p| p.len()).min().unwrap();
        let hi = input.s.iter().map(|p| p.len()).max().unwrap();
        assert!(hi - lo <= 4);
        assert!(lo >= 2 && hi <= 12);
    }
}
