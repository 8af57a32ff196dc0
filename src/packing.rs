use vstd::prelude::*;
use crate::geometry::N;

verus! {

/// Whether the last `k` characters of `row` are the first `k` characters of `next`.
pub open spec fn overlaps(row: Seq<char>, next: Seq<char>, k: int) -> bool {
    row.subrange(row.len() - k, row.len() as int) == next.subrange(0, k)
}

/// The longest overlap between the end of `row` and the start of `next`: the
/// largest `k`, at most the shorter length, with `overlaps(row, next, k)`.
pub fn find_maximum_prefix(row: &Vec<char>, next: &Vec<char>) -> (k: usize)
    ensures
        k <= row@.len(),
        k <= next@.len(),
        overlaps(row@, next@, k as int),
        forall|t: int|
            k < t <= row@.len() && t <= next@.len() ==> !#[trigger] overlaps(row@, next@, t),
{
    let top: usize = if row.len() < next.len() { row.len() } else { next.len() };
    let mut i: usize = top;
    loop
        invariant
            i <= top,
            top <= row@.len(),
            top <= next@.len(),
            top == row@.len() || top == next@.len(),
            forall|t: int| i < t <= top ==> !#[trigger] overlaps(row@, next@, t),
        decreases i,
    {
        let len = row.len();
        let base = len - i;
        let mut t: usize = 0;
        let mut same = true;
        while t < i
            invariant
                i <= top,
                top <= row@.len(),
                top <= next@.len(),
                len == row@.len(),
                base == row@.len() - i,
                t <= i,
                same == forall|x: int| 0 <= x < t ==> row@[base + x] == next@[x],
            decreases i - t,
        {
            if row[base + t] != next[t] {
                same = false;
            }
            t += 1;
        }
        if same {
            assert(row@.subrange(row@.len() - i, row@.len() as int) =~= next@.subrange(0, i as int));
            return i;
        }
        proof {
            let x = choose|x: int| 0 <= x < i && row@[base + x] != next@[x];
            assert(row@.subrange(row@.len() - i, row@.len() as int)[x] != next@.subrange(0, i as int)[x]);
        }
        assert(i > 0) by {
            if i == 0 {
                assert(same);
            }
        }
        i -= 1;
    }
}

} // verus!

verus! {

/// Whether `needle` stands in `hay` starting at index `p`.
pub open spec fn occurs_at(hay: Seq<char>, needle: Seq<char>, p: int) -> bool {
    0 <= p && p + needle.len() <= hay.len() && hay.subrange(p, p + needle.len()) == needle
}

/// Whether `needle` stands somewhere in `hay`.
pub open spec fn occurs_in(hay: Seq<char>, needle: Seq<char>) -> bool {
    exists|p: int| #[trigger] occurs_at(hay, needle, p)
}

/// Whether `a` and `b` hold the same characters.
pub fn same(a: &Vec<char>, b: &Vec<char>) -> (r: bool)
    ensures
        r == (a@ == b@),
{
    if a.len() != b.len() {
        return false;
    }
    let mut t: usize = 0;
    while t < a.len()
        invariant
            a@.len() == b@.len(),
            t <= a@.len(),
            forall|x: int| 0 <= x < t ==> a@[x] == b@[x],
        decreases a@.len() - t,
    {
        if a[t] != b[t] {
            return false;
        }
        t += 1;
    }
    assert(a@ =~= b@);
    true
}

/// Whether `needle` stands in `hay` starting at index `p`.
fn matches_at(hay: &Vec<char>, needle: &Vec<char>, p: usize) -> (r: bool)
    requires
        p + needle@.len() <= hay@.len(),
    ensures
        r == occurs_at(hay@, needle@, p as int),
{
    let hl = hay.len();
    let mut t: usize = 0;
    while t < needle.len()
        invariant
            hl == hay@.len(),
            p + needle@.len() <= hay@.len(),
            t <= needle@.len(),
            forall|x: int| 0 <= x < t ==> hay@[p + x] == needle@[x],
        decreases needle@.len() - t,
    {
        if hay[p + t] != needle[t] {
            assert(hay@.subrange(p as int, p + needle@.len())[t as int] != needle@[t as int]);
            return false;
        }
        t += 1;
    }
    assert(hay@.subrange(p as int, p + needle@.len()) =~= needle@);
    true
}

/// Whether `needle` stands somewhere in `hay`.
pub fn contains(hay: &Vec<char>, needle: &Vec<char>) -> (r: bool)
    ensures
        r == occurs_in(hay@, needle@),
{
    if needle.len() > hay.len() {
        return false;
    }
    let last = hay.len() - needle.len();
    let mut p: usize = 0;
    while p <= last
        invariant
            last + needle@.len() == hay@.len(),
            p <= last + 1,
            forall|q: int| 0 <= q < p ==> !#[trigger] occurs_at(hay@, needle@, q),
        decreases last + 1 - p,
    {
        if matches_at(hay, needle, p) {
            return true;
        }
        if p == last {
            return false;
        }
        p += 1;
    }
    false
}

/// Whether `s` is ordered by non-decreasing length.
pub open spec fn by_length(s: Seq<Seq<char>>) -> bool {
    forall|i: int, j: int| 0 <= i < j < s.len() ==> s[i].len() <= s[j].len()
}

/// Whether no string occurs twice in `s`.
pub open spec fn distinct(s: Seq<Seq<char>>) -> bool {
    forall|i: int, j: int| 0 <= i < j < s.len() ==> s[i] != s[j]
}

/// The distinct strings of `s`, ordered by length; strings of equal length keep the
/// order of their first occurrence.
pub fn distinct_by_length(s: &Vec<Vec<char>>) -> (r: Vec<Vec<char>>)
    ensures
        distinct(r.deep_view()),
        by_length(r.deep_view()),
        forall|i: int| 0 <= i < s@.len() ==> r.deep_view().contains(#[trigger] s.deep_view()[i]),
        forall|i: int| 0 <= i < r@.len() ==> s.deep_view().contains(#[trigger] r.deep_view()[i]),
{
    let ghost sv = s.deep_view();
    let mut r: Vec<Vec<char>> = Vec::new();
    let mut k: usize = 0;
    while k < s.len()
        invariant
            sv == s.deep_view(),
            k <= s@.len(),
            distinct(r.deep_view()),
            by_length(r.deep_view()),
            forall|i: int| 0 <= i < k ==> r.deep_view().contains(#[trigger] sv[i]),
            forall|i: int| 0 <= i < r@.len() ==> sv.contains(#[trigger] r.deep_view()[i]),
        decreases s@.len() - k,
    {
        let ghost rv = r.deep_view();
        assert(s@[k as int]@ == sv[k as int]);
        let mut seen = false;
        let mut t: usize = 0;
        while t < r.len()
            invariant
                rv == r.deep_view(),
                sv == s.deep_view(),
                k < s@.len(),
                t <= r@.len(),
                seen == exists|x: int| 0 <= x < t && #[trigger] rv[x] == sv[k as int],
            decreases r@.len() - t,
        {
            assert(r@[t as int]@ == rv[t as int]);
            assert(s@[k as int]@ == sv[k as int]);
            if same(&r[t], &s[k]) {
                seen = true;
                assert(rv[t as int] == sv[k as int]);
            }
            t += 1;
        }
        if !seen {
            let len = s[k].len();
            let mut pos: usize = r.len();
            while pos > 0 && r[pos - 1].len() > len
                invariant
                    rv == r.deep_view(),
                    sv == s.deep_view(),
                    k < s@.len(),
                    len == sv[k as int].len(),
                    pos <= r@.len(),
                    forall|x: int| pos <= x < r@.len() ==> rv[x].len() > len,
                decreases pos,
            {
                assert(r@[pos - 1]@ == rv[pos - 1]);
                pos -= 1;
            }
            if pos > 0 {
                assert(r@[pos - 1]@ == rv[pos - 1]);
            }
            r.insert(pos, s[k].clone());
            proof {
                let nv = r.deep_view();
                assert(nv =~= rv.insert(pos as int, sv[k as int]));
                assert forall|i: int| 0 <= i <= k implies nv.contains(#[trigger] sv[i]) by {
                    if i == k {
                        assert(nv[pos as int] == sv[k as int]);
                    } else {
                        let x = choose|x: int| 0 <= x < rv.len() && rv[x] == sv[i];
                        if x < pos {
                            assert(nv[x] == sv[i]);
                        } else {
                            assert(nv[x + 1] == sv[i]);
                        }
                    }
                }
                assert forall|i: int| 0 <= i < nv.len() implies sv.contains(#[trigger] nv[i]) by {
                    if i == pos {
                        assert(sv[k as int] == nv[i]);
                    } else if i < pos {
                        assert(nv[i] == rv[i]);
                    } else {
                        assert(nv[i] == rv[i - 1]);
                    }
                }
            }
        } else {
            proof {
                let x = choose|x: int| 0 <= x < r@.len() && #[trigger] rv[x] == sv[k as int];
                assert(rv[x] == sv[k as int]);
            }
        }
        k += 1;
    }
    r
}

} // verus!

verus! {

/// Growing a string at its end keeps every occurrence in it.
proof fn lemma_occurs_extend(hay: Seq<char>, longer: Seq<char>, needle: Seq<char>)
    requires
        hay.len() <= longer.len(),
        longer.subrange(0, hay.len() as int) == hay,
        occurs_in(hay, needle),
    ensures
        occurs_in(longer, needle),
{
    let p = choose|p: int| #[trigger] occurs_at(hay, needle, p);
    assert(longer.subrange(p, p + needle.len()) =~= hay.subrange(p, p + needle.len()));
    assert(occurs_at(longer, needle, p));
}

/// Every placed pattern stands in one of the finished rows or in the row being built.
pub open spec fn all_shown(
    pats: Seq<Seq<char>>,
    used: Seq<bool>,
    rows: Seq<Seq<char>>,
    row: Seq<char>,
) -> bool {
    forall|i: int|
        0 <= i < used.len() && #[trigger] used[i] ==> occurs_in(row, pats[i]) || exists|r: int|
            0 <= r < rows.len() && #[trigger] occurs_in(rows[r], pats[i])
}

proof fn lemma_all_shown_extend(
    pats: Seq<Seq<char>>,
    used: Seq<bool>,
    rows: Seq<Seq<char>>,
    row: Seq<char>,
    longer: Seq<char>,
)
    requires
        all_shown(pats, used, rows, row),
        row.len() <= longer.len(),
        longer.subrange(0, row.len() as int) == row,
    ensures
        all_shown(pats, used, rows, longer),
{
    assert forall|i: int|
        0 <= i < used.len() && #[trigger] used[i] implies occurs_in(longer, pats[i]) || exists|r: int|
            0 <= r < rows.len() && #[trigger] occurs_in(rows[r], pats[i]) by {
        if occurs_in(row, pats[i]) {
            lemma_occurs_extend(row, longer, pats[i]);
        }
    }
}

/// Appends `pat[from..]` to `row`.
fn append_from(row: &mut Vec<char>, pat: &Vec<char>, from: usize)
    requires
        from <= pat@.len(),
    ensures
        final(row)@ == old(row)@ + pat@.subrange(from as int, pat@.len() as int),
{
    let mut t: usize = from;
    while t < pat.len()
        invariant
            from <= t <= pat@.len(),
            row@ == old(row)@ + pat@.subrange(from as int, t as int),
        decreases pat@.len() - t,
    {
        row.push(pat[t]);
        t += 1;
        assert(row@ =~= old(row)@ + pat@.subrange(from as int, t as int));
    }
}

/// Drops `x` from what each pattern that contains it still counts as contained.
fn forget_contained(inc: &mut Vec<Vec<bool>>, cnt: &mut Vec<usize>, by: &Vec<Vec<usize>>, x: usize)
    requires
        x < old(inc)@.len(),
        x < by@.len(),
        old(cnt)@.len() == old(inc)@.len(),
        forall|i: int| 0 <= i < old(inc)@.len() ==> (#[trigger] old(inc)@[i])@.len() == old(inc)@.len(),
        forall|a: int, b: int| 0 <= a < by@.len() && 0 <= b < by@[a]@.len() ==> #[trigger] by@[a]@[b] < old(inc)@.len(),
    ensures
        final(inc)@.len() == old(inc)@.len(),
        final(cnt)@.len() == old(cnt)@.len(),
        forall|i: int| 0 <= i < final(inc)@.len() ==> (#[trigger] final(inc)@[i])@.len() == final(inc)@.len(),
{
    let m = inc.len();
    let mut t: usize = 0;
    while t < by[x].len()
        invariant
            m == inc@.len(),
            x < m,
            x < by@.len(),
            cnt@.len() == m,
            forall|i: int| 0 <= i < inc@.len() ==> (#[trigger] inc@[i])@.len() == m,
            forall|a: int, b: int| 0 <= a < by@.len() && 0 <= b < by@[a]@.len() ==> #[trigger] by@[a]@[b] < m,
        decreases by@[x as int]@.len() - t,
    {
        let i = by[x][t];
        if inc[i][x] {
            let mut line = inc[i].clone();
            line.set(x, false);
            inc.set(i, line);
            if cnt[i] > 0 {
                let c = cnt[i] - 1;
                cnt.set(i, c);
            }
        }
        t += 1;
    }
}

/// Once `chosen` is placed, each pattern it contains is already shown: drop each of
/// those from what every pattern containing it still counts.
fn forget_inside(inc: &mut Vec<Vec<bool>>, cnt: &mut Vec<usize>, by: &Vec<Vec<usize>>, chosen: usize)
    requires
        chosen < old(inc)@.len(),
        by@.len() == old(inc)@.len(),
        old(cnt)@.len() == old(inc)@.len(),
        forall|i: int| 0 <= i < old(inc)@.len() ==> (#[trigger] old(inc)@[i])@.len() == old(inc)@.len(),
        forall|a: int, b: int| 0 <= a < by@.len() && 0 <= b < by@[a]@.len() ==> #[trigger] by@[a]@[b] < old(inc)@.len(),
    ensures
        final(inc)@.len() == old(inc)@.len(),
        final(cnt)@.len() == old(cnt)@.len(),
        forall|i: int| 0 <= i < final(inc)@.len() ==> (#[trigger] final(inc)@[i])@.len() == final(inc)@.len(),
{
    let m = inc.len();
    let inside = inc[chosen].clone();
    let mut x: usize = 0;
    while x < m
        invariant
            m == inc@.len(),
            inside@.len() == m,
            by@.len() == m,
            cnt@.len() == m,
            x <= m,
            forall|i: int| 0 <= i < inc@.len() ==> (#[trigger] inc@[i])@.len() == m,
            forall|a: int, b: int| 0 <= a < by@.len() && 0 <= b < by@[a]@.len() ==> #[trigger] by@[a]@[b] < m,
        decreases m - x,
    {
        if inside[x] {
            forget_contained(inc, cnt, by, x);
        }
        x += 1;
    }
}

/// Builds `N` rows of `N` characters greedily: each row starts with an unplaced
/// pattern that contains the most others, and keeps taking the unplaced pattern that
/// best overlaps its end while it fits; what is left is filled with random symbols
/// `'A'..='H'`. Returns the rows and which of the distinct patterns (ordered by
/// length) were placed; each placed one stands in some row.
pub fn pack_rows(s: &Vec<Vec<char>>, rng: &mut crate::random::RandomSource) -> (r: (Vec<Vec<char>>, Vec<Vec<char>>, Vec<bool>))
    requires
        forall|k: int| 0 <= k < s@.len() ==> (#[trigger] s@[k])@.len() <= N,
    ensures
        r.0@.len() == N,
        forall|i: int| 0 <= i < N ==> (#[trigger] r.0@[i])@.len() == N,
        r.2@.len() == r.1@.len(),
        distinct(r.1.deep_view()),
        by_length(r.1.deep_view()),
        forall|i: int| 0 <= i < s@.len() ==> r.1.deep_view().contains(#[trigger] s.deep_view()[i]),
        forall|i: int| 0 <= i < r.1@.len() ==> s.deep_view().contains(#[trigger] r.1.deep_view()[i]),
        forall|i: int|
            0 <= i < r.2@.len() && #[trigger] r.2@[i] ==> exists|k: int|
                0 <= k < N && #[trigger] occurs_in(r.0@[k]@, r.1@[i]@),
{
    let pats = distinct_by_length(s);
    let ghost pv = pats.deep_view();
    assert forall|k: int| 0 <= k < pats@.len() implies (#[trigger] pats@[k])@.len() <= N by {
        assert(pv[k] == pats@[k]@);
        assert(s.deep_view().contains(pv[k]));
        let j = choose|j: int| 0 <= j < s@.len() && s.deep_view()[j] == pv[k];
        assert(s.deep_view()[j] == s@[j]@);
    }
    let m = pats.len();
    let mut inc: Vec<Vec<bool>> = Vec::new();
    let mut cnt: Vec<usize> = Vec::new();
    let mut by: Vec<Vec<usize>> = Vec::new();
    let mut j: usize = 0;
    while j < m
        invariant
            m == pats@.len(),
            j <= m,
            inc@.len() == j,
            cnt@.len() == j,
            by@.len() == j,
            forall|i: int| 0 <= i < j ==> (#[trigger] inc@[i])@.len() == m,
            forall|a: int, b: int| 0 <= a < by@.len() && 0 <= b < by@[a]@.len() ==> #[trigger] by@[a]@[b] < m,
        decreases m - j,
    {
        inc.push(vec![false; m]);
        cnt.push(0);
        by.push(Vec::new());
        j += 1;
    }
    let mut j: usize = 0;
    while j < m
        invariant
            m == pats@.len(),
            j <= m,
            inc@.len() == m,
            cnt@.len() == m,
            by@.len() == m,
            forall|i: int| 0 <= i < m ==> (#[trigger] inc@[i])@.len() == m,
            forall|a: int, b: int| 0 <= a < by@.len() && 0 <= b < by@[a]@.len() ==> #[trigger] by@[a]@[b] < m,
        decreases m - j,
    {
        let mut i: usize = 0;
        while i < j
            invariant
                m == pats@.len(),
                i <= j,
                j < m,
                inc@.len() == m,
                cnt@.len() == m,
                by@.len() == m,
                forall|i2: int| 0 <= i2 < m ==> (#[trigger] inc@[i2])@.len() == m,
                forall|a: int, b: int| 0 <= a < by@.len() && 0 <= b < by@[a]@.len() ==> #[trigger] by@[a]@[b] < m,
            decreases j - i,
        {
            if contains(&pats[j], &pats[i]) {
                let mut line = inc[j].clone();
                line.set(i, true);
                inc.set(j, line);
                if cnt[j] < m {
                    let c = cnt[j] + 1;
                    cnt.set(j, c);
                }
                let mut list = by[i].clone();
                list.push(j);
                by.set(i, list);
                assert forall|a: int, b: int| 0 <= a < by@.len() && 0 <= b < by@[a]@.len() implies #[trigger] by@[a]@[b] < m by {
                    if a == i && b == by@[a]@.len() - 1 {
                    }
                }
            }
            i += 1;
        }
        j += 1;
    }
    let mut used: Vec<bool> = vec![false; m];
    let mut rows: Vec<Vec<char>> = Vec::new();
    let mut r: usize = 0;
    while r < N
        invariant
            m == pats@.len(),
            pv == pats.deep_view(),
            forall|k: int| 0 <= k < m ==> (#[trigger] pats@[k])@.len() <= N,
            r <= N,
            rows@.len() == r,
            forall|i: int| 0 <= i < r ==> (#[trigger] rows@[i])@.len() == N,
            used@.len() == m,
            inc@.len() == m,
            cnt@.len() == m,
            by@.len() == m,
            forall|i: int| 0 <= i < m ==> (#[trigger] inc@[i])@.len() == m,
            forall|a: int, b: int| 0 <= a < by@.len() && 0 <= b < by@[a]@.len() ==> #[trigger] by@[a]@[b] < m,
            all_shown(pv, used@, rows.deep_view(), Seq::empty()),
        decreases N - r,
    {
        let mut row: Vec<char> = Vec::new();
        let mut first: usize = m;
        let mut idx: usize = 0;
        while idx < m
            invariant
                m == used@.len(),
                m == cnt@.len(),
                idx <= m,
                first == m || (first < m && !used@[first as int]),
            decreases m - idx,
        {
            if !used[idx] && (first == m || cnt[idx] >= cnt[first]) {
                first = idx;
            }
            idx += 1;
        }
        let ghost rv = rows.deep_view();
        if first < m {
            assert(pats@[first as int]@ == pv[first as int]);
            append_from(&mut row, &pats[first], 0);
            assert(row@ =~= pv[first as int]);
            proof {
                assert(row@.subrange(0, 0) =~= Seq::<char>::empty());
                lemma_all_shown_extend(pv, used@, rv, Seq::empty(), row@);
                assert(occurs_at(row@, pv[first as int], 0));
            }
            used.set(first, true);
            forget_inside(&mut inc, &mut cnt, &by, first);
        }
        let mut fuel: usize = m;
        while fuel > 0
            invariant
                m == pats@.len(),
                pv == pats.deep_view(),
                forall|k: int| 0 <= k < m ==> (#[trigger] pats@[k])@.len() <= N,
                rv == rows.deep_view(),
                row@.len() <= N,
                used@.len() == m,
                inc@.len() == m,
                cnt@.len() == m,
                by@.len() == m,
                forall|i: int| 0 <= i < m ==> (#[trigger] inc@[i])@.len() == m,
                forall|a: int, b: int| 0 <= a < by@.len() && 0 <= b < by@[a]@.len() ==> #[trigger] by@[a]@[b] < m,
                all_shown(pv, used@, rv, row@),
            decreases fuel,
        {
            let mut best: usize = m;
            let mut best_full = false;
            let mut best_com: usize = 0;
            let mut best_add: usize = 0;
            let mut best_cnt: usize = 0;
            let mut idx: usize = 0;
            while idx < m
                invariant
                    m == pats@.len(),
                    forall|k: int| 0 <= k < m ==> (#[trigger] pats@[k])@.len() <= N,
                    m == used@.len(),
                    m == cnt@.len(),
                    row@.len() <= N,
                    idx <= m,
                    best == m || (best < m && !used@[best as int] && overlaps(
                        row@,
                        pats@[best as int]@,
                        best_com as int,
                    ) && best_com <= pats@[best as int]@.len() && best_com <= row@.len()
                        && row@.len() + pats@[best as int]@.len() - best_com <= N),
                decreases m - idx,
            {
                if !used[idx] {
                    let com = find_maximum_prefix(&row, &pats[idx]);
                    let len = pats[idx].len();
                    if row.len() + len - com <= N {
                        let full = com == len;
                        let add = len - com;
                        let c = cnt[idx];
                        let ge = if best == m {
                            true
                        } else if full != best_full {
                            full
                        } else if com != best_com {
                            com > best_com
                        } else if add != best_add {
                            add < best_add
                        } else {
                            c >= best_cnt
                        };
                        if ge {
                            best = idx;
                            best_full = full;
                            best_com = com;
                            best_add = add;
                            best_cnt = c;
                        }
                    }
                }
                idx += 1;
            }
            if best == m {
                break;
            }
            let ghost before = row@;
            assert(pats@[best as int]@ == pv[best as int]);
            append_from(&mut row, &pats[best], best_com);
            proof {
                assert(row@.subrange(0, before.len() as int) =~= before);
                lemma_all_shown_extend(pv, used@, rv, before, row@);
                let p = before.len() - best_com;
                let pat = pv[best as int];
                assert(overlaps(before, pat, best_com as int));
                assert forall|x: int| 0 <= x < pat.len() implies row@[p + x] == pat[x] by {
                    if x < best_com {
                        assert(before.subrange(before.len() - best_com, before.len() as int)[x]
                            == pat.subrange(0, best_com as int)[x]);
                    }
                }
                assert(row@.subrange(p, p + pat.len()) =~= pat);
                assert(occurs_at(row@, pv[best as int], p));
            }
            used.set(best, true);
            forget_inside(&mut inc, &mut cnt, &by, best);
            fuel -= 1;
        }
        while row.len() < N
            invariant
                m == pats@.len(),
                row@.len() <= N,
                rv == rows.deep_view(),
                used@.len() == m,
                all_shown(pv, used@, rv, row@),
            decreases N - row@.len(),
        {
            let ghost before = row@;
            let x = rng.range(0, 8) as u8;
            row.push((65u8 + x) as char);
            proof {
                assert(row@.subrange(0, before.len() as int) =~= before);
                lemma_all_shown_extend(pv, used@, rv, before, row@);
            }
        }
        let ghost last = row@;
        let ghost old_rows = rows@;
        rows.push(row);
        proof {
            let nv = rows.deep_view();
            assert forall|k: int| 0 <= k < nv.len() implies nv[k] == rv.push(last)[k] by {
                if k < rv.len() {
                    assert(rows@[k] == old_rows[k]);
                }
            }
            assert(nv =~= rv.push(last));
            assert forall|i: int|
                0 <= i < used@.len() && #[trigger] used@[i] implies occurs_in(Seq::<char>::empty(), pv[i]) || exists|k: int|
                    0 <= k < nv.len() && #[trigger] occurs_in(nv[k], pv[i]) by {
                if occurs_in(last, pv[i]) {
                    assert(occurs_in(nv[rv.len() as int], pv[i]));
                } else {
                    let k = choose|k: int| 0 <= k < rv.len() && #[trigger] occurs_in(rv[k], pv[i]);
                    assert(nv[k] == rv[k]);
                }
            }
        }
        r += 1;
    }
    proof {
        let nv = rows.deep_view();
        assert forall|i: int| 0 <= i < used@.len() && #[trigger] used@[i] implies exists|k: int|
            0 <= k < N && #[trigger] occurs_in(rows@[k]@, pats@[i]@) by {
            assert(pv[i] == pats@[i]@);
            if occurs_in(Seq::<char>::empty(), pv[i]) {
                let p = choose|p: int| #[trigger] occurs_at(Seq::<char>::empty(), pv[i], p);
                assert(pv[i].len() == 0);
                assert(pv[i] =~= rows@[0]@.subrange(0, 0));
                assert(occurs_at(rows@[0]@, pv[i], 0));
                assert(occurs_in(rows@[0]@, pats@[i]@));
            } else {
                let k = choose|k: int| 0 <= k < nv.len() && #[trigger] occurs_in(nv[k], pv[i]);
                assert(nv[k] == rows@[k]@);
            }
        }
    }
    (rows, pats, used)
}

} // verus!
