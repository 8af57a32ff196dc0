use pattern_grid::packing::find_maximum_prefix;
use pattern_grid::{compute_score_detail, gen, get_substring, is_substring, mod_n, Input, SetMinMax};

fn grid_of(rows: &[&str]) -> Vec<Vec<char>> {
    rows.iter().map(|s| s.chars().collect()).collect()
}

fn dotted() -> Vec<Vec<char>> {
    vec![vec!['.'; 20]; 20]
}

#[test]
fn mod_n_wraps_once() {
    assert_eq!(mod_n(0), 0);
    assert_eq!(mod_n(19), 19);
    assert_eq!(mod_n(20), 0);
    assert_eq!(mod_n(39), 19);
}

#[test]
fn substring_reads_with_wrap() {
    let mut a = dotted();
    a[0][18] = 'A';
    a[0][19] = 'B';
    a[0][0] = 'C';
    a[19][5] = 'D';
    a[0][5] = 'E';
    assert!(is_substring(&a, &vec!['A', 'B', 'C'], 0, 18, 0));
    assert!(!is_substring(&a, &vec!['A', 'B', 'D'], 0, 18, 0));
    assert!(is_substring(&a, &vec!['D', 'E'], 19, 5, 1));
    assert_eq!(get_substring(&a, 0, 18, 0, 3), vec!['A', 'B', 'C']);
    assert_eq!(get_substring(&a, 19, 5, 1, 2), vec!['D', 'E']);
    assert_eq!(get_substring(&a, 4, 4, 1, 0), Vec::<char>::new());
}

#[test]
fn score_rejects_bad_length() {
    let mut out = dotted();
    out[3].pop();
    let input = Input { M: 0, s: vec![] };
    let (score, reason) = compute_score_detail(&input, &out);
    assert_eq!(score, 0);
    assert_eq!(reason, "illegal length: 19");
}

#[test]
fn score_rejects_bad_char() {
    let mut out = dotted();
    out[2][2] = 'z';
    let input = Input { M: 0, s: vec![] };
    let (score, reason) = compute_score_detail(&input, &out);
    assert_eq!(score, 0);
    assert_eq!(reason, "illegal char: z");
}

#[test]
fn score_all_found_uses_empty_cells() {
    let out = dotted();
    let input = Input { M: 0, s: vec![] };
    assert_eq!(compute_score_detail(&input, &out), (200_000_000, String::new()));
    let mut out = dotted();
    out[0][0] = 'A';
    out[0][1] = 'B';
    let input = Input { M: 2, s: vec![vec!['A', 'B'], vec!['B']] };
    // 2 * 400 / (800 - 398) = 800 / 402
    assert_eq!(compute_score_detail(&input, &out), (199_004_975, String::new()));
}

#[test]
fn score_partial_found_rounds() {
    let mut out = dotted();
    out[5][19] = 'C';
    out[5][0] = 'D';
    let input = Input { M: 3, s: vec![vec!['C', 'D'], vec!['D', 'C'], vec!['H']] };
    assert_eq!(compute_score_detail(&input, &out), (33_333_333, String::new()));
    let input = Input { M: 3, s: vec![vec!['C', 'D'], vec!['D'], vec!['H']] };
    assert_eq!(compute_score_detail(&input, &out), (66_666_667, String::new()));
}

#[test]
fn score_full_grid() {
    let rows: Vec<String> = (0..20).map(|_| "ABCDEFGHABCDEFGHABCD".to_string()).collect();
    let refs: Vec<&str> = rows.iter().map(|s| s.as_str()).collect();
    let out = grid_of(&refs);
    let input = Input { M: 1, s: vec![vec!['D', 'A', 'B']] };
    assert_eq!(compute_score_detail(&input, &out), (100_000_000, String::new()));
}

#[test]
fn generated_instance_is_in_range() {
    let input = gen(0);
    assert!(400 <= input.M && input.M <= 800);
    assert_eq!(input.s.len(), input.M);
    for p in &input.s {
        assert!(2 <= p.len() && p.len() <= 12);
        assert!(p.iter().all(|c| ('A'..='H').contains(c)));
    }
    let again = gen(0);
    assert_eq!(again.M, input.M);
    assert_eq!(again.s, input.s);
    let other = gen(1);
    assert!(other.M != input.M || other.s != input.s);
}

#[test]
fn set_min_max() {
    let mut x: i64 = 5;
    assert!(x.setmin(3));
    assert_eq!(x, 3);
    assert!(!x.setmin(3));
    assert!(x.setmax(9));
    assert_eq!(x, 9);
    assert!(!x.setmax(-1));
    assert_eq!(x, 9);
    let mut y: u64 = 0;
    assert!(!y.setmin(0));
    assert!(y.setmax(1));
    let mut z: usize = 7;
    assert!(z.setmin(2));
    assert_eq!(z, 2);
}

fn chars(s: &str) -> Vec<char> {
    s.chars().collect()
}

#[test]
fn longest_overlap_of_row_end_and_word_start() {
    assert_eq!(find_maximum_prefix(&chars("ABCDE"), &chars("DEF")), 2);
    assert_eq!(find_maximum_prefix(&chars("ABAB"), &chars("ABABC")), 4);
    assert_eq!(find_maximum_prefix(&chars("ABC"), &chars("XYZ")), 0);
    assert_eq!(find_maximum_prefix(&chars(""), &chars("A")), 0);
    assert_eq!(find_maximum_prefix(&chars("AAA"), &chars("AA")), 2);
    assert_eq!(find_maximum_prefix(&chars("CAB"), &chars("AB")), 2);
}
