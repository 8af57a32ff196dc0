use vstd::prelude::*;
use crate::geometry::N;
use crate::random::RandomSource;

verus! {

/// A problem instance: `M` patterns, each a string over `'A'..='H'`.
#[allow(non_snake_case)]
pub struct Input {
    pub M: usize,
    pub s: Vec<Vec<char>>,
}

/// Steps an index that is below `2 * N` back into `[0, N)`.
pub fn mod_n(i: usize) -> (r: usize)
    requires
        i < 2 * N,
    ensures
        r == i % N,
{
    if i >= N {
        i - N
    } else {
        i
    }
}

/// The first `N` rows of `a` exist and have `N` characters each.
pub open spec fn square(a: Seq<Seq<char>>) -> bool {
    a.len() >= N && forall|r: int| 0 <= r < N ==> (#[trigger] a[r]).len() == N
}

/// The character `k` steps from row `i`, column `j` of `a`, along the row when
/// `d == 0` and down the column otherwise, wrapping at the border.
pub open spec fn char_along(a: Seq<Seq<char>>, i: int, j: int, d: int, k: int) -> char {
    if d == 0 {
        a[i][(j + k) % (N as int)]
    } else {
        a[(i + k) % (N as int)][j]
    }
}

/// Whether `b` is spelled out from row `i`, column `j` of `a` in direction `d`.
pub open spec fn spelled_at(a: Seq<Seq<char>>, b: Seq<char>, i: int, j: int, d: int) -> bool {
    forall|k: int| 0 <= k < b.len() ==> #[trigger] char_along(a, i, j, d, k) == b[k]
}

/// Whether `b` is spelled out anywhere on the wrapping grid `a`, in either direction.
pub open spec fn found_in(a: Seq<Seq<char>>, b: Seq<char>) -> bool {
    exists|i: int, j: int, d: int|
        0 <= i < N && 0 <= j < N && 0 <= d < 2 && #[trigger] spelled_at(a, b, i, j, d)
}

pub fn is_substring(a: &Vec<Vec<char>>, b: &Vec<char>, i: usize, j: usize, d: usize) -> (r: bool)
    requires
        square(a.deep_view()),
        i < N,
        j < N,
        d < 2,
        b@.len() <= N,
    ensures
        r == spelled_at(a.deep_view(), b@, i as int, j as int, d as int),
{
    let ghost av = a.deep_view();
    let (di, dj): (usize, usize) = if d == 0 { (0, 1) } else { (1, 0) };
    let mut k: usize = 0;
    while k < b.len()
        invariant
            av == a.deep_view(),
            square(av),
            i < N,
            j < N,
            d < 2,
            b@.len() <= N,
            k <= b@.len(),
            di == (if d == 0 { 0usize } else { 1usize }),
            dj == (if d == 0 { 1usize } else { 0usize }),
            forall|t: int| 0 <= t < k ==> #[trigger] char_along(av, i as int, j as int, d as int, t) == b@[t],
        decreases b@.len() - k,
    {
        let ii = mod_n(i + di * k);
        let jj = mod_n(j + dj * k);
        assert(a@[ii as int]@ == av[ii as int]);
        if a[ii][jj] != b[k] {
            assert(char_along(av, i as int, j as int, d as int, k as int) != b@[k as int]);
            return false;
        }
        k += 1;
    }
    true
}

pub fn get_substring(a: &Vec<Vec<char>>, i: usize, j: usize, d: usize, k: usize) -> (b: Vec<char>)
    requires
        square(a.deep_view()),
        i < N,
        j < N,
        d < 2,
        k <= N,
    ensures
        b@ == Seq::new(k as nat, |t: int| char_along(a.deep_view(), i as int, j as int, d as int, t)),
{
    let ghost av = a.deep_view();
    let (di, dj): (usize, usize) = if d == 0 { (0, 1) } else { (1, 0) };
    let mut b: Vec<char> = Vec::new();
    let mut t: usize = 0;
    while t < k
        invariant
            av == a.deep_view(),
            square(av),
            i < N,
            j < N,
            d < 2,
            k <= N,
            t <= k,
            di == (if d == 0 { 0usize } else { 1usize }),
            dj == (if d == 0 { 1usize } else { 0usize }),
            b@ == Seq::new(t as nat, |x: int| char_along(av, i as int, j as int, d as int, x)),
        decreases k - t,
    {
        let ii = mod_n(i + di * t);
        let jj = mod_n(j + dj * t);
        assert(a@[ii as int]@ == av[ii as int]);
        b.push(a[ii][jj]);
        t += 1;
        assert(b@ =~= Seq::new(t as nat, |x: int| char_along(av, i as int, j as int, d as int, x)));
    }
    b
}

} // verus!

verus! {

/// The decimal digits of `n`, most significant first, with no leading zero.
pub open spec fn decimal(n: nat) -> Seq<char>
    decreases n,
{
    let digits = seq!['0', '1', '2', '3', '4', '5', '6', '7', '8', '9'];
    if n < 10 {
        seq![digits[n as int]]
    } else {
        decimal(n / 10).push(digits[(n % 10) as int])
    }
}

/// The message for a row of length `len`.
pub open spec fn length_error(len: nat) -> Seq<char> {
    "illegal length: "@ + decimal(len)
}

/// The message for the character `c`.
pub open spec fn char_error(c: char) -> Seq<char> {
    "illegal char: "@ + seq![c]
}

/// Relies on std's `format!` with `Display` for `usize`: the prefix followed by the
/// length in decimal.
#[verifier::external_body]
fn length_message(len: usize) -> (m: String)
    ensures
        m@ == length_error(len as nat),
{
    format!("illegal length: {}", len)
}

/// Relies on std's `format!` with `Display` for `char`: the prefix followed by the
/// character itself.
#[verifier::external_body]
fn char_message(c: char) -> (m: String)
    ensures
        m@ == char_error(c),
{
    format!("illegal char: {}", c)
}

/// A character an output grid may hold: a symbol `'A'..='H'` or `'.'`.
pub open spec fn legal_char(c: char) -> bool {
    ('A' <= c && c <= 'H') || c == '.'
}

/// The first `n` rows have length `N` and hold legal characters only.
pub open spec fn legal_rows(out: Seq<Seq<char>>, n: int) -> bool {
    forall|r: int|
        0 <= r < n ==> (#[trigger] out[r]).len() == N && forall|c: int| 0 <= c < N ==> legal_char(#[trigger] out[r][c])
}

/// The number of `'.'` among the first `n` characters of `row`.
pub open spec fn row_dots(row: Seq<char>, n: int) -> nat
    decreases n,
{
    if n <= 0 {
        0
    } else {
        row_dots(row, n - 1) + if row[n - 1] == '.' { 1nat } else { 0nat }
    }
}

/// The number of `'.'` over the first `n` rows.
pub open spec fn dots(out: Seq<Seq<char>>, n: int) -> nat
    decreases n,
{
    if n <= 0 {
        0
    } else {
        dots(out, n - 1) + row_dots(out[n - 1], N as int)
    }
}

/// Whether `row` has length `N` and legal characters only.
pub open spec fn row_ok(row: Seq<char>) -> bool {
    row.len() == N && forall|c: int| 0 <= c < N ==> legal_char(#[trigger] row[c])
}

/// Whether `i` is the first row of `out` that is not `row_ok`.
pub open spec fn first_bad_row(out: Seq<Seq<char>>, i: int) -> bool {
    0 <= i < N && !row_ok(out[i]) && forall|r: int| 0 <= r < i ==> row_ok(#[trigger] out[r])
}

/// Whether `c` is the first column of `row` holding an illegal character.
pub open spec fn first_bad_col(row: Seq<char>, c: int) -> bool {
    0 <= c < N && !legal_char(row[c]) && forall|x: int| 0 <= x < c ==> legal_char(#[trigger] row[x])
}

/// The message for the first defect of `out`: the length of the first bad row, or,
/// where that row has length `N`, its first illegal character.
pub open spec fn defect_message(out: Seq<Seq<char>>) -> Seq<char> {
    let i = choose|i: int| first_bad_row(out, i);
    if out[i].len() != N {
        length_error(out[i].len())
    } else {
        char_error(out[i][choose|c: int| first_bad_col(out[i], c)])
    }
}

/// How many of the first `m` patterns are spelled out somewhere on `a`.
pub open spec fn found_count(a: Seq<Seq<char>>, pats: Seq<Seq<char>>, m: int) -> nat
    decreases m,
{
    if m <= 0 {
        0
    } else {
        found_count(a, pats, m - 1) + if found_in(a, pats[m - 1]) { 1nat } else { 0nat }
    }
}

/// `x / y` rounded to the nearest integer, halves upward.
pub open spec fn round_div(x: int, y: int) -> int {
    (2 * x + y) / (2 * y)
}

/// The judge's score with `c` of `m` patterns found and `d` empty cells.
pub open spec fn judge_score(c: int, m: int, d: int) -> int {
    if c < m {
        round_div(100_000_000 * c, m)
    } else {
        round_div(100_000_000 * (2 * N * N) as int, 2 * N * N - d)
    }
}

proof fn lemma_row_dots_bound(row: Seq<char>, n: int)
    ensures
        row_dots(row, n) <= if n < 0 { 0 } else { n },
    decreases n,
{
    if n > 0 {
        lemma_row_dots_bound(row, n - 1);
    }
}

proof fn lemma_dots_bound(out: Seq<Seq<char>>, n: int)
    ensures
        dots(out, n) <= if n < 0 { 0 } else { n * N },
    decreases n,
{
    if n > 0 {
        lemma_dots_bound(out, n - 1);
        lemma_row_dots_bound(out[n - 1], N as int);
    }
}

proof fn lemma_found_count_bound(a: Seq<Seq<char>>, pats: Seq<Seq<char>>, m: int)
    ensures
        found_count(a, pats, m) <= if m < 0 { 0 } else { m },
    decreases m,
{
    if m > 0 {
        lemma_found_count_bound(a, pats, m - 1);
    }
}

/// Whether `b` is spelled out anywhere on `a`, trying every cell and direction.
pub fn occurs(a: &Vec<Vec<char>>, b: &Vec<char>) -> (r: bool)
    requires
        square(a.deep_view()),
        b@.len() <= N,
    ensures
        r == found_in(a.deep_view(), b@),
{
    let ghost av = a.deep_view();
    let mut i: usize = 0;
    while i < N
        invariant
            av == a.deep_view(),
            square(av),
            b@.len() <= N,
            i <= N,
            forall|i2: int, j2: int, d2: int|
                0 <= i2 < i && 0 <= j2 < N && 0 <= d2 < 2 ==> !#[trigger] spelled_at(av, b@, i2, j2, d2),
        decreases N - i,
    {
        let mut j: usize = 0;
        while j < N
            invariant
                av == a.deep_view(),
                square(av),
                b@.len() <= N,
                i < N,
                j <= N,
                forall|i2: int, j2: int, d2: int|
                    0 <= i2 < i && 0 <= j2 < N && 0 <= d2 < 2 ==> !#[trigger] spelled_at(av, b@, i2, j2, d2),
                forall|j2: int, d2: int|
                    0 <= j2 < j && 0 <= d2 < 2 ==> !#[trigger] spelled_at(av, b@, i as int, j2, d2),
            decreases N - j,
        {
            let mut d: usize = 0;
            while d < 2
                invariant
                    av == a.deep_view(),
                    square(av),
                    b@.len() <= N,
                    i < N,
                    j < N,
                    d <= 2,
                    forall|i2: int, j2: int, d2: int|
                        0 <= i2 < i && 0 <= j2 < N && 0 <= d2 < 2 ==> !#[trigger] spelled_at(av, b@, i2, j2, d2),
                    forall|j2: int, d2: int|
                        0 <= j2 < j && 0 <= d2 < 2 ==> !#[trigger] spelled_at(av, b@, i as int, j2, d2),
                    forall|d2: int| 0 <= d2 < d ==> !#[trigger] spelled_at(av, b@, i as int, j as int, d2),
                decreases 2 - d,
            {
                if is_substring(a, b, i, j, d) {
                    return true;
                }
                d += 1;
            }
            j += 1;
        }
        i += 1;
    }
    false
}

/// Scores `out` against `input`: a zero score and a message when `out` is not `N`
/// rows of `N` legal characters, and otherwise `judge_score` of the patterns found
/// and the empty cells, with an empty message.
pub fn compute_score_detail(input: &Input, out: &Vec<Vec<char>>) -> (r: (i64, String))
    requires
        input.s@.len() >= input.M,
        forall|k: int| 0 <= k < input.M ==> (#[trigger] input.s@[k])@.len() <= N,
        out@.len() >= N,
    ensures
        r.1@.len() > 0 <==> !legal_rows(out.deep_view(), N as int),
        r.1@.len() > 0 ==> r.0 == 0,
        !legal_rows(out.deep_view(), N as int) ==> r.1@ == defect_message(out.deep_view()),
        legal_rows(out.deep_view(), N as int) ==> r.1@ == Seq::<char>::empty() && r.0 == judge_score(
            found_count(out.deep_view(), input.s.deep_view(), input.M as int) as int,
            input.M as int,
            dots(out.deep_view(), N as int) as int,
        ),
{
    let ghost ov = out.deep_view();
    let mut d: u64 = 0;
    let mut i: usize = 0;
    while i < N
        invariant
            ov == out.deep_view(),
            out@.len() >= N,
            i <= N,
            legal_rows(ov, i as int),
            d == dots(ov, i as int),
        decreases N - i,
    {
        assert(out@[i as int]@ == ov[i as int]);
        if out[i].len() != N {
            proof {
                assert(first_bad_row(ov, i as int));
                let w = choose|w: int| first_bad_row(ov, w);
                assert(w == i) by {
                    if w < i {
                        assert(row_ok(ov[w]));
                    }
                    if w > i {
                        assert(row_ok(ov[i as int]));
                    }
                }
            }
            return (0, length_message(out[i].len()));
        }
        let mut j: usize = 0;
        while j < N
            invariant
                ov == out.deep_view(),
                out@.len() >= N,
                i < N,
                j <= N,
                ov[i as int].len() == N,
                legal_rows(ov, i as int),
                forall|c: int| 0 <= c < j ==> legal_char(#[trigger] ov[i as int][c]),
                d == dots(ov, i as int) + row_dots(ov[i as int], j as int),
            decreases N - j,
        {
            proof {
                lemma_dots_bound(ov, i as int);
                lemma_row_dots_bound(ov[i as int], j as int);
            }
            assert(out@[i as int]@ == ov[i as int]);
            let ch = out[i][j];
            if (ch < 'A' || 'H' < ch) && ch != '.' {
                proof {
                    let row = ov[i as int];
                    assert(first_bad_col(row, j as int));
                    assert(!row_ok(row));
                    assert(first_bad_row(ov, i as int));
                    let w = choose|w: int| first_bad_row(ov, w);
                    assert(w == i) by {
                        if w < i {
                            assert(row_ok(ov[w]));
                        }
                        if w > i {
                            assert(row_ok(ov[i as int]));
                        }
                    }
                    let c = choose|c: int| first_bad_col(row, c);
                    assert(c == j) by {
                        if c < j {
                            assert(legal_char(row[c]));
                        }
                        if c > j {
                            assert(legal_char(row[j as int]));
                        }
                    }
                }
                return (0, char_message(ch));
            }
            if ch == '.' {
                d += 1;
            }
            j += 1;
        }
        i += 1;
    }
    let ghost pv = input.s.deep_view();
    let mut c: u64 = 0;
    let mut k: usize = 0;
    assert(square(ov));
    while k < input.M
        invariant
            ov == out.deep_view(),
            pv == input.s.deep_view(),
            square(ov),
            input.s@.len() >= input.M,
            forall|t: int| 0 <= t < input.M ==> (#[trigger] input.s@[t])@.len() <= N,
            k <= input.M,
            c == found_count(ov, pv, k as int),
            c <= k,
        decreases input.M - k,
    {
        assert(input.s@[k as int]@ == pv[k as int]);
        if occurs(out, &input.s[k]) {
            c += 1;
        }
        k += 1;
    }
    proof {
        lemma_dots_bound(ov, N as int);
    }
    let big: u128 = 100_000_000;
    let m = input.M as u128;
    let score: u128 = if (c as u128) < m {
        (2 * big * (c as u128) + m) / (2 * m)
    } else {
        let cells: u128 = (2 * N * N) as u128;
        let rest: u128 = cells - d as u128;
        (2 * big * cells + rest) / (2 * rest)
    };
    assert(score <= 200_000_000) by (nonlinear_arith)
        requires
            (c as u128) < m ==> score == (2 * big * (c as u128) + m) / (2 * m) && c < m,
            (c as u128) >= m ==> score == (2 * big * 800 + (800 - d)) / (2 * (800 - d)),
            big == 100_000_000,
            d <= 400,
    ;
    (score as i64, String::new())
}

} // verus!

verus! {

/// A symbol `'A'..='H'`.
pub open spec fn symbol_char(c: char) -> bool {
    'A' <= c && c <= 'H'
}

/// Whether each of the first `m` strings of `s` has a length within 2 of `l`.
pub open spec fn lengths_near(s: Seq<Vec<char>>, m: int, l: int) -> bool {
    forall|k: int| 0 <= k < m ==> l - 2 <= (#[trigger] s[k])@.len() <= l + 2
}

/// A random instance from `seed`: a random `N x N` grid over `'A'..='H'`, a base
/// length `L` in `[4, 10]`, a count `M` in `[400, 800]`, and `M` runs of length in
/// `[L - 2, L + 2]` read off the grid at random places and directions.
pub fn gen(seed: u64) -> (input: Input)
    ensures
        400 <= input.M <= 800,
        input.s@.len() == input.M,
        forall|k: int|
            0 <= k < input.M ==> 2 <= (#[trigger] input.s@[k])@.len() <= 12 && forall|t: int|
                0 <= t < input.s@[k]@.len() ==> symbol_char(#[trigger] input.s@[k]@[t]),
        exists|l: int| 4 <= l <= 10 && #[trigger] lengths_near(input.s@, input.M as int, l),
        exists|a: Seq<Seq<char>>|
            a.len() == N && #[trigger] square(a) && (forall|r: int, c: int|
                0 <= r < N && 0 <= c < N ==> symbol_char(#[trigger] a[r][c])) && forall|k: int|
                0 <= k < input.M ==> found_in(a, #[trigger] input.s@[k]@),
{
    let mut rng = RandomSource::from_seed(seed);
    let mut a: Vec<Vec<char>> = Vec::new();
    let mut i: usize = 0;
    while i < N
        invariant
            i <= N,
            a@.len() == i,
            forall|r: int|
                0 <= r < i ==> (#[trigger] a@[r])@.len() == N && forall|c: int|
                    0 <= c < N ==> symbol_char(#[trigger] a@[r]@[c]),
        decreases N - i,
    {
        let mut row: Vec<char> = Vec::new();
        let mut j: usize = 0;
        while j < N
            invariant
                j <= N,
                row@.len() == j,
                forall|c: int| 0 <= c < j ==> symbol_char(#[trigger] row@[c]),
            decreases N - j,
        {
            let x = rng.range(0, 8) as u8;
            row.push((65u8 + x) as char);
            j += 1;
        }
        a.push(row);
        i += 1;
    }
    assert(square(a.deep_view()));
    let base = rng.range(4, 11);
    let m = rng.range(400, 801) as usize;
    let mut s: Vec<Vec<char>> = Vec::new();
    let mut k: usize = 0;
    while k < m
        invariant
            square(a.deep_view()),
            forall|r: int, c: int| 0 <= r < N && 0 <= c < N ==> symbol_char(#[trigger] a@[r]@[c]),
            4 <= base <= 10,
            k <= m,
            s@.len() == k,
            a@.len() == N,
            forall|t: int|
                0 <= t < k ==> 2 <= (#[trigger] s@[t])@.len() <= 12 && forall|x: int|
                    0 <= x < s@[t]@.len() ==> symbol_char(#[trigger] s@[t]@[x]),
            forall|t: int|
                0 <= t < k ==> base - 2 <= (#[trigger] s@[t])@.len() <= base + 2 && found_in(a.deep_view(), s@[t]@),
        decreases m - k,
    {
        let r = rng.range(0, N as u64) as usize;
        let c = rng.range(0, N as u64) as usize;
        let d = rng.range(0, 2) as usize;
        let len = rng.range(base - 2, base + 3) as usize;
        let b = get_substring(&a, r, c, d, len);
        proof {
            assert forall|x: int| 0 <= x < b@.len() implies symbol_char(#[trigger] b@[x]) by {
                let av = a.deep_view();
                assert(av[r as int] == a@[r as int]@);
                assert(av[((r + x) % (N as int))] == a@[((r + x) % (N as int))]@);
            }
            let av = a.deep_view();
            assert(spelled_at(av, b@, r as int, c as int, d as int));
        }
        let ghost before = s@;
        s.push(b);
        proof {
            assert forall|t: int| 0 <= t < k + 1 implies base - 2 <= (#[trigger] s@[t])@.len() <= base + 2
                && found_in(a.deep_view(), s@[t]@) by {
                if t < k {
                    assert(s@[t] == before[t]);
                }
            }
        }
        k += 1;
    }
    proof {
        let av = a.deep_view();
        assert forall|r: int, c: int| 0 <= r < N && 0 <= c < N implies symbol_char(#[trigger] av[r][c]) by {
            assert(av[r] == a@[r]@);
        }
        assert(forall|t: int| 0 <= t < m ==> found_in(av, #[trigger] s@[t]@));
        assert(lengths_near(s@, m as int, base as int));
    }
    Input { M: m, s }
}

} // verus!

verus! {

/// The judge's score of `out` against `input`: zero for a malformed grid.
pub open spec fn score_of(input: &Input, out: Seq<Seq<char>>) -> int {
    if legal_rows(out, N as int) {
        judge_score(found_count(out, input.s.deep_view(), input.M as int) as int, input.M as int, dots(out, N as int) as int)
    } else {
        0
    }
}

/// Exchanges rows `i` and `j` of `rows`.
fn swap_rows(rows: &mut Vec<Vec<char>>, i: usize, j: usize)
    requires
        i < old(rows)@.len(),
        j < old(rows)@.len(),
        forall|k: int| 0 <= k < old(rows)@.len() ==> (#[trigger] old(rows)@[k])@.len() == N,
    ensures
        final(rows)@.len() == old(rows)@.len(),
        forall|k: int| 0 <= k < final(rows)@.len() ==> (#[trigger] final(rows)@[k])@.len() == N,
        final(rows).deep_view() == old(rows).deep_view().update(i as int, old(rows).deep_view()[j as int]).update(
            j as int,
            old(rows).deep_view()[i as int],
        ),
{
    let ghost before = rows.deep_view();
    let a = rows[i].clone();
    let b = rows[j].clone();
    rows.set(i, b);
    rows.set(j, a);
    assert(rows.deep_view() =~= before.update(i as int, before[j as int]).update(j as int, before[i as int]));
}

/// `rows` with rows `i` and `j` exchanged.
pub open spec fn swapped(rows: Seq<Seq<char>>, i: int, j: int) -> Seq<Seq<char>> {
    rows.update(i, rows[j]).update(j, rows[i])
}

/// Exchanges rows `i` and `j` where that does not lower the judge's score, and
/// leaves `rows` as it was otherwise.
pub fn try_swap(input: &Input, rows: &mut Vec<Vec<char>>, i: usize, j: usize)
    requires
        input.s@.len() >= input.M,
        forall|k: int| 0 <= k < input.M ==> (#[trigger] input.s@[k])@.len() <= N,
        old(rows)@.len() == N,
        forall|k: int| 0 <= k < N ==> (#[trigger] old(rows)@[k])@.len() == N,
        i < N,
        j < N,
    ensures
        final(rows)@.len() == N,
        forall|k: int| 0 <= k < N ==> (#[trigger] final(rows)@[k])@.len() == N,
        final(rows).deep_view() == (if score_of(input, swapped(old(rows).deep_view(), i as int, j as int))
            >= score_of(input, old(rows).deep_view()) {
            swapped(old(rows).deep_view(), i as int, j as int)
        } else {
            old(rows).deep_view()
        }),
{
    let ghost before = rows.deep_view();
    let score = compute_score_detail(input, rows).0;
    swap_rows(rows, i, j);
    let new_score = compute_score_detail(input, rows).0;
    if score > new_score {
        swap_rows(rows, i, j);
        assert(rows.deep_view() =~= before);
    }
}

/// Tries `iterations` random exchanges of two rows, keeping each one that does not
/// lower the judge's score. The rows stay `N` rows of `N` characters and the score
/// never drops.
pub fn improve_rows(input: &Input, rows: &mut Vec<Vec<char>>, rng: &mut RandomSource, iterations: u64)
    requires
        input.s@.len() >= input.M,
        forall|k: int| 0 <= k < input.M ==> (#[trigger] input.s@[k])@.len() <= N,
        old(rows)@.len() == N,
        forall|i: int| 0 <= i < N ==> (#[trigger] old(rows)@[i])@.len() == N,
    ensures
        final(rows)@.len() == N,
        forall|i: int| 0 <= i < N ==> (#[trigger] final(rows)@[i])@.len() == N,
        score_of(input, final(rows).deep_view()) >= score_of(input, old(rows).deep_view()),
{
    let mut t: u64 = 0;
    while t < iterations
        invariant
            input.s@.len() >= input.M,
            forall|k: int| 0 <= k < input.M ==> (#[trigger] input.s@[k])@.len() <= N,
            rows@.len() == N,
            forall|i: int| 0 <= i < N ==> (#[trigger] rows@[i])@.len() == N,
            score_of(input, rows.deep_view()) >= score_of(input, old(rows).deep_view()),
        decreases iterations - t,
    {
        let i = rng.range(0, N as u64) as usize;
        let j = rng.range(0, N as u64) as usize;
        try_swap(input, rows, i, j);
        t += 1;
    }
}

} // verus!
