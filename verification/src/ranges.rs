use vstd::prelude::*;

verus! {

/// Marks a description made of single bytes only (no range), as the last element.
pub const FLAG: u8 = 128;

/// The bytes are in non-decreasing order.
pub open spec fn sorted(cs: Seq<u8>) -> bool {
    forall|i: int, j: int| 0 <= i <= j < cs.len() ==> cs[i] <= cs[j]
}

/// The distance between the neighbouring bytes `cs[i]` and `cs[i + 1]`.
pub open spec fn gap(cs: Seq<u8>, i: int) -> int {
    cs[i + 1] - cs[i]
}

/// Between `cs[i]` and `cs[i + 1]` lies at least one byte that is not in `cs`.
pub open spec fn is_gap(cs: Seq<u8>, i: int) -> bool {
    0 <= i < cs.len() - 1 && gap(cs, i) > 1
}

/// The positions of the gaps before position `k`, in increasing order.
pub open spec fn gaps_upto(cs: Seq<u8>, k: int) -> Seq<int>
    decreases k,
{
    if k <= 0 {
        Seq::empty()
    } else if is_gap(cs, k - 1) {
        gaps_upto(cs, k - 1).push(k - 1)
    } else {
        gaps_upto(cs, k - 1)
    }
}

/// All the gap positions of `cs`, in increasing order.
pub open spec fn gaps(cs: Seq<u8>) -> Seq<int> {
    gaps_upto(cs, cs.len() - 1)
}

/// The gap at `a` ranks before the gap at `b`: it is wider, or as wide and earlier.
pub open spec fn wider(cs: Seq<u8>, a: int, b: int) -> bool {
    gap(cs, a) > gap(cs, b) || (gap(cs, a) == gap(cs, b) && a < b)
}

/// `a` is the first gap in rank order.
pub open spec fn is_widest(cs: Seq<u8>, a: int) -> bool {
    &&& is_gap(cs, a)
    &&& forall|b: int| is_gap(cs, b) && b != a ==> wider(cs, a, b)
}

/// `a` is the second gap in rank order.
pub open spec fn is_second_widest(cs: Seq<u8>, a: int) -> bool {
    &&& is_gap(cs, a)
    &&& !is_widest(cs, a)
    &&& forall|b: int| is_gap(cs, b) && b != a && !is_widest(cs, b) ==> wider(cs, a, b)
}

/// The widest gap (the earliest of the widest ones).
pub open spec fn widest(cs: Seq<u8>) -> int {
    choose|a: int| is_widest(cs, a)
}

/// The gap that ranks second.
pub open spec fn second_widest(cs: Seq<u8>) -> int {
    choose|a: int| is_second_widest(cs, a)
}

/// The description of the sorted escape bytes `cs` that the vector code
/// matches against. Runs of bytes without gaps become ranges `lo, hi`; with
/// more than two gaps, only the two widest gaps are left out, so the ranges
/// may also take in bytes that are not in `cs`. A description that ends
/// with [`FLAG`] lists single bytes (after one range, when it has five
/// elements); otherwise it is up to three ranges, then possibly one byte.
pub open spec fn spec_ranges(cs: Seq<u8>) -> Seq<u8> {
    if cs.len() <= 1 {
        seq![cs[0], FLAG]
    } else {
        let e = cs.len() - 1;
        let g = gaps(cs);
        if g.len() == 0 {
            seq![cs[0], cs[e]]
        } else if g.len() == 1 {
            let i = g[0];
            if e == 1 {
                seq![cs[0], cs[1], FLAG]
            } else if i == 0 {
                seq![cs[1], cs[e], cs[0]]
            } else if i + 1 != e {
                seq![cs[0], cs[i], cs[i + 1], cs[e]]
            } else {
                seq![cs[0], cs[i], cs[i + 1]]
            }
        } else if e <= 2 {
            cs.push(FLAG)
        } else {
            let a = widest(cs);
            let b = second_widest(cs);
            let f = if a < b { a } else { b };
            let l = if a < b { b } else { a };
            if f + 1 == l {
                if f == 0 {
                    seq![cs[l + 1], cs[e], cs[0], cs[f + 1], FLAG]
                } else if l + 1 == e {
                    seq![cs[0], cs[f], cs[l], cs[e], FLAG]
                } else {
                    seq![cs[0], cs[f], cs[l + 1], cs[e], cs[f + 1]]
                }
            } else if f == 0 {
                if l + 1 == e {
                    seq![cs[f + 1], cs[l], cs[0], cs[e], FLAG]
                } else {
                    seq![cs[f + 1], cs[l], cs[l + 1], cs[e], cs[0]]
                }
            } else if l + 1 == e {
                seq![cs[0], cs[f], cs[f + 1], cs[l], cs[e]]
            } else {
                seq![cs[0], cs[f], cs[f + 1], cs[l], cs[l + 1], cs[e]]
            }
        }
    }
}

/// The gap list holds exactly the gaps before `k`, in increasing order.
pub proof fn lemma_gaps_upto(cs: Seq<u8>, k: int)
    requires
        0 <= k <= cs.len() - 1,
    ensures
        gaps_upto(cs, k).len() <= k,
        forall|t: int|
            0 <= t < gaps_upto(cs, k).len() ==> 0 <= #[trigger] gaps_upto(cs, k)[t] < k
                && is_gap(cs, gaps_upto(cs, k)[t]),
        forall|t1: int, t2: int|
            0 <= t1 < t2 < gaps_upto(cs, k).len() ==> gaps_upto(cs, k)[t1] < gaps_upto(cs, k)[t2],
        forall|i: int|
            0 <= i < k && is_gap(cs, i) ==> exists|t: int|
                0 <= t < gaps_upto(cs, k).len() && #[trigger] gaps_upto(cs, k)[t] == i,
    decreases k,
{
    if k > 0 {
        lemma_gaps_upto(cs, k - 1);
        let prev = gaps_upto(cs, k - 1);
        let cur = gaps_upto(cs, k);
        assert forall|i: int| 0 <= i < k && is_gap(cs, i) implies exists|t: int|
            0 <= t < cur.len() && #[trigger] cur[t] == i by {
            if i < k - 1 {
                let t = choose|t: int| 0 <= t < prev.len() && #[trigger] prev[t] == i;
                assert(cur[t] == i);
            } else {
                assert(cur[cur.len() - 1] == i);
            }
        }
    }
}

/// At most one gap is the widest.
pub proof fn lemma_widest_unique(cs: Seq<u8>, a: int, b: int)
    requires
        is_widest(cs, a),
        is_widest(cs, b),
    ensures
        a == b,
{
}

/// At most one gap ranks second.
pub proof fn lemma_second_widest_unique(cs: Seq<u8>, a: int, b: int)
    requires
        is_second_widest(cs, a),
        is_second_widest(cs, b),
    ensures
        a == b,
{
}

/// `d` lists the gaps of `cs` in increasing order, each with its width.
pub open spec fn lists_gaps(d: Seq<(usize, u8)>, cs: Seq<u8>) -> bool {
    &&& d.len() == gaps(cs).len()
    &&& forall|t: int| 0 <= t < d.len() ==> (#[trigger] d[t]).0 == gaps(cs)[t]
    &&& forall|t: int| 0 <= t < d.len() ==> (#[trigger] d[t]).1 == gap(cs, d[t].0 as int)
}

/// Finds, in a list of gaps, the positions of the widest gap and of the
/// gap that ranks second.
pub(crate) fn select_widest(d: &Vec<(usize, u8)>, Ghost(cs): Ghost<Seq<u8>>) -> (res: (
    usize,
    usize,
))
    requires
        cs.len() >= 1,
        lists_gaps(d@, cs),
        d@.len() >= 2,
    ensures
        res.0 < d@.len(),
        res.1 < d@.len(),
        is_widest(cs, d@[res.0 as int].0 as int),
        is_second_widest(cs, d@[res.1 as int].0 as int),
{
    proof {
        lemma_gaps_upto(cs, cs.len() - 1);
    }
    let ghost g = gaps(cs);
    let mut best: usize = 0;
    let mut second: usize = 1;
    if d[1].1 > d[0].1 {
        best = 1;
        second = 0;
    }
    let mut j: usize = 2;
    while j < d.len()
        invariant
            cs.len() >= 1,
            lists_gaps(d@, cs),
            g == gaps(cs),
            forall|t: int| 0 <= t < g.len() ==> is_gap(cs, #[trigger] g[t]),
            forall|t1: int, t2: int| 0 <= t1 < t2 < g.len() ==> g[t1] < g[t2],
            2 <= j <= d@.len(),
            best < j,
            second < j,
            best != second,
            wider(cs, d@[best as int].0 as int, d@[second as int].0 as int),
            forall|t: int|
                0 <= t < j && t != best ==> wider(
                    cs,
                    d@[best as int].0 as int,
                    #[trigger] d@[t].0 as int,
                ),
            forall|t: int|
                0 <= t < j && t != best && t != second ==> wider(
                    cs,
                    d@[second as int].0 as int,
                    #[trigger] d@[t].0 as int,
                ),
        decreases d@.len() - j,
    {
        assert(d@[j as int].0 > d@[best as int].0);
        assert(d@[j as int].0 > d@[second as int].0);
        if d[j].1 > d[best].1 {
            second = best;
            best = j;
        } else if d[j].1 > d[second].1 {
            second = j;
        }
        j = j + 1;
    }
    proof {
        let wb = d@[best as int].0 as int;
        let ws = d@[second as int].0 as int;
        assert forall|b: int| is_gap(cs, b) && b != wb implies wider(cs, wb, b) by {
            let t = choose|t: int| 0 <= t < g.len() && #[trigger] g[t] == b;
            assert(d@[t].0 == b);
        }
        assert(is_widest(cs, wb));
        assert(!is_widest(cs, ws)) by {
            if is_widest(cs, ws) {
                lemma_widest_unique(cs, wb, ws);
            }
        }
        assert forall|b: int| is_gap(cs, b) && b != ws && !is_widest(cs, b) implies wider(
            cs,
            ws,
            b,
        ) by {
            let t = choose|t: int| 0 <= t < g.len() && #[trigger] g[t] == b;
            assert(d@[t].0 == b);
            assert(b != wb);
        }
    }
    (best, second)
}

} // verus!

verus! {

/// `b` lies in the range `r[k] ..= r[k + 1]`.
pub open spec fn in_range(r: Seq<u8>, k: int, b: u8) -> bool {
    r[k] <= b && b <= r[k + 1]
}

/// The byte `b` is flagged by the vector mask built from the description `r`
/// (see [`spec_ranges`] for the shapes of a description).
pub open spec fn selects(r: Seq<u8>, b: u8) -> bool {
    if r.len() > 0 && r.last() == FLAG {
        if r.len() == 5 {
            in_range(r, 0, b) || b == r[2] || b == r[3]
        } else {
            exists|k: int| 0 <= k < r.len() - 1 && r[k] == b
        }
    } else {
        ||| r.len() >= 2 && in_range(r, 0, b)
        ||| r.len() >= 4 && in_range(r, 2, b)
        ||| r.len() >= 6 && in_range(r, 4, b)
        ||| r.len() % 2 == 1 && b == r.last()
    }
}

/// All the bytes are below [`FLAG`], so a description can be read back.
pub open spec fn below_flag(cs: Seq<u8>) -> bool {
    forall|i: int| 0 <= i < cs.len() ==> cs[i] < FLAG
}

/// The gap ranked first and the one ranked second, among the first `k` gaps of the list.
proof fn lemma_rank_prefix(cs: Seq<u8>, k: int) -> (res: (int, int))
    requires
        cs.len() >= 1,
        2 <= k <= gaps(cs).len(),
    ensures
        0 <= res.0 < k,
        0 <= res.1 < k,
        res.0 != res.1,
        wider(cs, gaps(cs)[res.0], gaps(cs)[res.1]),
        forall|t: int| 0 <= t < k && t != res.0 ==> wider(cs, gaps(cs)[res.0], #[trigger] gaps(cs)[t]),
        forall|t: int|
            0 <= t < k && t != res.0 && t != res.1 ==> wider(cs, gaps(cs)[res.1], #[trigger] gaps(cs)[t]),
    decreases k,
{
    lemma_gaps_upto(cs, cs.len() - 1);
    let g = gaps(cs);
    if k == 2 {
        if gap(cs, g[1]) > gap(cs, g[0]) {
            (1, 0)
        } else {
            (0, 1)
        }
    } else {
        let (b, s) = lemma_rank_prefix(cs, k - 1);
        let j = k - 1;
        assert(g[j] > g[b] && g[j] > g[s]);
        if gap(cs, g[j]) > gap(cs, g[b]) {
            (j, b)
        } else if gap(cs, g[j]) > gap(cs, g[s]) {
            (b, j)
        } else {
            (b, s)
        }
    }
}

/// When there is a gap, a widest one exists; with two gaps or more, so does
/// a second one, and the two differ.
pub proof fn lemma_widest_exists(cs: Seq<u8>)
    requires
        cs.len() >= 1,
        gaps(cs).len() >= 1,
    ensures
        is_widest(cs, widest(cs)),
        gaps(cs).len() >= 2 ==> is_second_widest(cs, second_widest(cs)),
        gaps(cs).len() >= 2 ==> widest(cs) != second_widest(cs),
{
    lemma_gaps_upto(cs, cs.len() - 1);
    let g = gaps(cs);
    if g.len() == 1 {
        assert forall|b: int| is_gap(cs, b) && b != g[0] implies wider(cs, g[0], b) by {
            let t = choose|t: int| 0 <= t < g.len() && #[trigger] g[t] == b;
        }
        assert(is_widest(cs, g[0]));
    } else {
        let (b, s) = lemma_rank_prefix(cs, g.len() as int);
        let wb = g[b];
        let ws = g[s];
        assert forall|x: int| is_gap(cs, x) && x != wb implies wider(cs, wb, x) by {
            let t = choose|t: int| 0 <= t < g.len() && #[trigger] g[t] == x;
        }
        assert(is_widest(cs, wb));
        assert(!is_widest(cs, ws)) by {
            if is_widest(cs, ws) {
                lemma_widest_unique(cs, wb, ws);
            }
        }
        assert forall|x: int| is_gap(cs, x) && x != ws && !is_widest(cs, x) implies wider(cs, ws, x) by {
            let t = choose|t: int| 0 <= t < g.len() && #[trigger] g[t] == x;
            assert(x != wb);
        }
        assert(is_second_widest(cs, ws));
    }
}

/// Between positions `a` and `c`, with no gap in between, every byte from
/// `cs[a]` to `cs[c]` is one of the bytes of `cs`.
proof fn lemma_run_contiguous(cs: Seq<u8>, a: int, c: int, b: u8)
    requires
        sorted(cs),
        0 <= a <= c < cs.len(),
        forall|i: int| a <= i < c ==> !is_gap(cs, i),
        cs[a] <= b <= cs[c],
    ensures
        exists|j: int| a <= j <= c && cs[j] == b,
    decreases c - a,
{
    if cs[a] == b {
        assert(cs[a] == b);
    } else {
        assert(!is_gap(cs, a));
        lemma_run_contiguous(cs, a + 1, c, b);
        let j = choose|j: int| a + 1 <= j <= c && cs[j] == b;
        assert(cs[j] == b);
    }
}

/// Every escape byte is flagged by the mask: the vector search misses no
/// byte that has to be escaped.
pub proof fn lemma_ranges_cover(cs: Seq<u8>)
    requires
        cs.len() > 0,
        sorted(cs),
        below_flag(cs),
    ensures
        forall|j: int| 0 <= j < cs.len() ==> selects(spec_ranges(cs), #[trigger] cs[j]),
{
    let r = spec_ranges(cs);
    let e = cs.len() - 1;
    lemma_gaps_upto(cs, e);
    let g = gaps(cs);
    if g.len() >= 1 {
        lemma_widest_exists(cs);
    }
    assert forall|j: int| 0 <= j < cs.len() implies selects(r, #[trigger] cs[j]) by {
        if cs.len() <= 1 {
            assert(r[0] == cs[j]);
        } else if g.len() == 0 {
            assert(cs[0] <= cs[j] <= cs[e]);
        } else if g.len() == 1 {
            let i = g[0];
            if e == 1 {
                if j == 0 { assert(r[0] == cs[j]); } else { assert(r[1] == cs[j]); }
            } else if i == 0 {
                if j == 0 { assert(r.last() == cs[j]); } else { assert(cs[1] <= cs[j] <= cs[e]); }
            } else if j <= i {
                assert(cs[0] <= cs[j] <= cs[i]);
            } else {
                assert(cs[i + 1] <= cs[j] <= cs[e]);
            }
        } else if e <= 2 {
            assert(r[j] == cs[j]);
        } else {
            let a = widest(cs);
            let b = second_widest(cs);
            let f = if a < b { a } else { b };
            let l = if a < b { b } else { a };
            assert(0 <= f < l < e);
            if j <= f {
                assert(cs[0] <= cs[j] <= cs[f]);
            } else if j <= l {
                assert(cs[f + 1] <= cs[j] <= cs[l]);
            } else {
                assert(cs[l + 1] <= cs[j] <= cs[e]);
            }
        }
    }
}

/// With at most two gaps, the mask flags exactly the escape bytes.
pub proof fn lemma_ranges_exact(cs: Seq<u8>, b: u8)
    requires
        cs.len() > 0,
        sorted(cs),
        below_flag(cs),
        gaps(cs).len() <= 2,
        selects(spec_ranges(cs), b),
    ensures
        cs.contains(b),
{
    let r = spec_ranges(cs);
    let e = cs.len() - 1;
    lemma_gaps_upto(cs, e);
    let g = gaps(cs);
    assert forall|i: int| is_gap(cs, i) implies exists|t: int| 0 <= t < g.len() && #[trigger] g[t] == i by {}
    if cs.len() <= 1 {
        assert(cs[0] == b);
    } else if g.len() == 0 {
        lemma_run_contiguous(cs, 0, e, b);
    } else if g.len() == 1 {
        let i = g[0];
        assert forall|k: int| 0 <= k < e && k != i implies !is_gap(cs, k) by {
            if is_gap(cs, k) {
                let t = choose|t: int| 0 <= t < g.len() && #[trigger] g[t] == k;
            }
        }
        if e == 1 {
            assert(b == cs[0] || b == cs[1]);
        } else if i == 0 {
            if b == cs[0] {
            } else {
                lemma_run_contiguous(cs, 1, e, b);
            }
        } else if in_range(r, 0, b) {
            lemma_run_contiguous(cs, 0, i, b);
        } else if i + 1 != e {
            lemma_run_contiguous(cs, i + 1, e, b);
        } else {
            assert(b == cs[e]);
        }
    } else if e <= 2 {
        let k = choose|k: int| 0 <= k < r.len() - 1 && r[k] == b;
        assert(cs[k] == b);
    } else {
        lemma_widest_exists(cs);
        let a = widest(cs);
        let s = second_widest(cs);
        let f = if a < s { a } else { s };
        let l = if a < s { s } else { a };
        let ta = choose|t: int| 0 <= t < g.len() && #[trigger] g[t] == a;
        let ts = choose|t: int| 0 <= t < g.len() && #[trigger] g[t] == s;
        assert(f == g[0] && l == g[1]);
        assert forall|k: int| 0 <= k < e && k != f && k != l implies !is_gap(cs, k) by {
            if is_gap(cs, k) {
                let t = choose|t: int| 0 <= t < g.len() && #[trigger] g[t] == k;
            }
        }
        if f + 1 == l {
            if f == 0 {
                if in_range(r, 0, b) {
                    lemma_run_contiguous(cs, l + 1, e, b);
                } else {
                    assert(b == cs[0] || b == cs[1]);
                }
            } else if l + 1 == e {
                if in_range(r, 0, b) {
                    lemma_run_contiguous(cs, 0, f, b);
                } else {
                    assert(b == cs[l] || b == cs[e]);
                }
            } else if in_range(r, 0, b) {
                lemma_run_contiguous(cs, 0, f, b);
            } else if in_range(r, 2, b) {
                lemma_run_contiguous(cs, l + 1, e, b);
            } else {
                assert(b == cs[f + 1]);
            }
        } else if f == 0 {
            if in_range(r, 0, b) {
                lemma_run_contiguous(cs, f + 1, l, b);
            } else if l + 1 == e {
                assert(b == cs[0] || b == cs[e]);
            } else if in_range(r, 2, b) {
                lemma_run_contiguous(cs, l + 1, e, b);
            } else {
                assert(b == cs[0]);
            }
        } else if l + 1 == e {
            if in_range(r, 0, b) {
                lemma_run_contiguous(cs, 0, f, b);
            } else if in_range(r, 2, b) {
                lemma_run_contiguous(cs, f + 1, l, b);
            } else {
                assert(b == cs[e]);
            }
        } else {
            if in_range(r, 0, b) {
                lemma_run_contiguous(cs, 0, f, b);
            } else if in_range(r, 2, b) {
                lemma_run_contiguous(cs, f + 1, l, b);
            } else {
                lemma_run_contiguous(cs, l + 1, e, b);
            }
        }
    }
}

/// The mask flags nothing below the smallest escape byte or above the
/// largest; and when the description leaves gaps out, it leaves out the two
/// widest: no byte strictly inside either of them is flagged.
pub proof fn lemma_ranges_bounded(cs: Seq<u8>, b: u8)
    requires
        cs.len() > 0,
        sorted(cs),
        below_flag(cs),
    ensures
        selects(spec_ranges(cs), b) ==> cs[0] <= b <= cs.last(),
        gaps(cs).len() >= 2 && cs.len() > 3 && cs[widest(cs)] < b < cs[widest(cs) + 1]
            ==> !selects(spec_ranges(cs), b),
        gaps(cs).len() >= 2 && cs.len() > 3 && cs[second_widest(cs)] < b < cs[second_widest(cs) + 1]
            ==> !selects(spec_ranges(cs), b),
{
    let r = spec_ranges(cs);
    let e = cs.len() - 1;
    lemma_gaps_upto(cs, e);
    let g = gaps(cs);
    if g.len() >= 1 {
        lemma_widest_exists(cs);
    }
    if selects(r, b) {
        if cs.len() > 1 && g.len() >= 2 && e <= 2 {
            let k = choose|k: int| 0 <= k < r.len() - 1 && r[k] == b;
            assert(cs[0] <= cs[k] <= cs[e]);
        } else if cs.len() > 1 && g.len() == 1 && e == 1 {
            let k = choose|k: int| 0 <= k < r.len() - 1 && r[k] == b;
            assert(cs[0] <= cs[k] <= cs[e]);
        } else if cs.len() <= 1 {
            let k = choose|k: int| 0 <= k < r.len() - 1 && r[k] == b;
            assert(cs[0] <= cs[k] <= cs[e]);
        } else if g.len() >= 2 {
            let a = widest(cs);
            let s = second_widest(cs);
            let f = if a < s { a } else { s };
            let l = if a < s { s } else { a };
            assert(cs[0] <= cs[f] && cs[f + 1] <= cs[l] && cs[l + 1] <= cs[e]);
        } else if g.len() == 1 {
            let i = g[0];
            assert(cs[0] <= cs[i] && cs[i + 1] <= cs[e] && cs[1] <= cs[e]);
        }
    }
    if g.len() >= 2 && cs.len() > 3 {
        let a = widest(cs);
        let s = second_widest(cs);
        let f = if a < s { a } else { s };
        let l = if a < s { s } else { a };
        assert(0 <= f < l < e);
        assert(cs[0] <= cs[f] && cs[f + 1] <= cs[l] && cs[l + 1] <= cs[e]);
        assert(cs[0] <= cs[f] && cs[f] <= cs[f + 1] && cs[l] <= cs[l + 1]);
    }
}

/// The bytes `cs`, each raised by `d`.
pub open spec fn shift(cs: Seq<u8>, d: u8) -> Seq<u8> {
    cs.map_values(|c: u8| (c + d) as u8)
}

/// A description with each byte raised by `d`; the end mark stays.
pub open spec fn shift_description(r: Seq<u8>, d: u8) -> Seq<u8> {
    r.map_values(|x: u8| if x == FLAG { FLAG } else { (x + d) as u8 })
}

proof fn lemma_gaps_upto_shift(cs: Seq<u8>, d: u8, k: int)
    requires
        forall|i: int| 0 <= i < cs.len() ==> cs[i] + d < FLAG,
    ensures
        gaps_upto(shift(cs, d), k) == gaps_upto(cs, k),
    decreases k,
{
    if k > 0 {
        lemma_gaps_upto_shift(cs, d, k - 1);
        let cs2 = shift(cs, d);
        if 0 <= k - 1 < cs.len() - 1 {
            assert(cs2[k - 1] == cs[k - 1] + d);
            assert(cs2[k] == cs[k] + d);
        }
    }
}

/// The description depends only on the distances between the bytes: raising
/// every byte by `d` raises every byte of the description by `d`.
pub proof fn lemma_ranges_shift(cs: Seq<u8>, d: u8)
    requires
        cs.len() > 0,
        forall|i: int| 0 <= i < cs.len() ==> cs[i] + d < FLAG,
    ensures
        spec_ranges(shift(cs, d)) == shift_description(spec_ranges(cs), d),
{
    let cs2 = shift(cs, d);
    let e = cs.len() - 1;
    assert forall|i: int| 0 <= i < cs.len() implies #[trigger] cs2[i] == cs[i] + d && cs[i] != FLAG
        && cs2[i] != FLAG by {}
    lemma_gaps_upto_shift(cs, d, e);
    assert(gaps(cs2) == gaps(cs));
    assert forall|i: int| #[trigger] is_gap(cs2, i) == is_gap(cs, i) && (0 <= i < e ==> gap(cs2, i)
        == gap(cs, i)) by {
        if 0 <= i < e {
            assert(cs2[i] == cs[i] + d);
            assert(cs2[i + 1] == cs[i + 1] + d);
        }
    }
    if gaps(cs).len() >= 1 {
        lemma_widest_exists(cs);
        lemma_widest_exists(cs2);
        let w = widest(cs);
        assert(is_widest(cs2, w));
        lemma_widest_unique(cs2, w, widest(cs2));
        if gaps(cs).len() >= 2 {
            let s = second_widest(cs);
            assert(!is_widest(cs2, s)) by {
                if is_widest(cs2, s) {
                    assert(is_widest(cs, s));
                }
            }
            assert forall|b: int| is_gap(cs2, b) && b != s && !is_widest(cs2, b) implies wider(
                cs2,
                s,
                b,
            ) by {
                assert(!is_widest(cs, b)) by {
                    if is_widest(cs, b) {
                        assert(is_widest(cs2, b));
                    }
                }
            }
            assert(is_second_widest(cs2, s));
            lemma_second_widest_unique(cs2, s, second_widest(cs2));
        }
    }
    let r = spec_ranges(cs);
    let r2 = spec_ranges(cs2);
    let g = gaps(cs);
    if cs.len() <= 1 {
        assert(r2 =~= shift_description(r, d));
    } else if g.len() == 0 {
        assert(r2 =~= shift_description(r, d));
    } else if g.len() == 1 {
        let i = g[0];
        lemma_gaps_upto(cs, e);
        assert(0 <= i < e);
        if e == 1 {
            assert(r2 =~= shift_description(r, d));
        } else if i == 0 {
            assert(r2 =~= shift_description(r, d));
        } else if i + 1 != e {
            assert(r2 =~= shift_description(r, d));
        } else {
            assert(r2 =~= shift_description(r, d));
        }
    } else if e <= 2 {
        assert(r2 =~= shift_description(r, d));
    } else {
        assert(widest(cs2) == widest(cs) && second_widest(cs2) == second_widest(cs));
        assert(r2 =~= shift_description(r, d));
    }
}

/// No other two gaps are, together, wider than the two that the description
/// leaves out.
pub proof fn lemma_widest_pair(cs: Seq<u8>, a: int, b: int)
    requires
        cs.len() > 0,
        gaps(cs).len() >= 2,
        is_gap(cs, a),
        is_gap(cs, b),
        a != b,
    ensures
        gap(cs, widest(cs)) + gap(cs, second_widest(cs)) >= gap(cs, a) + gap(cs, b),
{
    lemma_widest_exists(cs);
    let w = widest(cs);
    let s = second_widest(cs);
    if a != w {
        assert(wider(cs, w, a));
    }
    if b != w {
        assert(wider(cs, w, b));
    }
    if a != w && a != s {
        assert(!is_widest(cs, a)) by {
            if is_widest(cs, a) {
                lemma_widest_unique(cs, a, w);
            }
        }
        assert(wider(cs, s, a));
    }
    if b != w && b != s {
        assert(!is_widest(cs, b)) by {
            if is_widest(cs, b) {
                lemma_widest_unique(cs, b, w);
            }
        }
        assert(wider(cs, s, b));
    }
}

/// With two gaps or more and more than three bytes, the mask flags exactly
/// the bytes from the smallest escape byte to the largest, except those
/// strictly inside the widest gap and the gap that ranks second.
pub proof fn lemma_ranges_characterized(cs: Seq<u8>, b: u8)
    requires
        cs.len() > 3,
        sorted(cs),
        below_flag(cs),
        gaps(cs).len() >= 2,
    ensures
        selects(spec_ranges(cs), b) <==> (cs[0] <= b <= cs.last() && !(cs[widest(cs)] < b
            < cs[widest(cs) + 1]) && !(cs[second_widest(cs)] < b < cs[second_widest(cs) + 1])),
{
    lemma_ranges_bounded(cs, b);
    lemma_widest_exists(cs);
    let r = spec_ranges(cs);
    let e = cs.len() - 1;
    let w = widest(cs);
    let s = second_widest(cs);
    let f = if w < s { w } else { s };
    let l = if w < s { s } else { w };
    assert(0 <= f < l < e);
    if cs[0] <= b <= cs[e] && !(cs[f] < b < cs[f + 1]) && !(cs[l] < b < cs[l + 1]) {
        assert(cs[0] <= cs[f] && cs[f] <= cs[f + 1] && cs[f + 1] <= cs[l] && cs[l] <= cs[l + 1]
            && cs[l + 1] <= cs[e]);
        if f + 1 == l {
            if f == 0 {
                assert(b == cs[0] || b == cs[1] || in_range(r, 0, b));
            } else if l + 1 == e {
                assert(in_range(r, 0, b) || b == cs[l] || b == cs[e]);
            } else {
                assert(in_range(r, 0, b) || in_range(r, 2, b) || b == cs[f + 1]);
            }
        } else if f == 0 {
            if l + 1 == e {
                assert(in_range(r, 0, b) || b == cs[0] || b == cs[e]);
            } else {
                assert(in_range(r, 0, b) || in_range(r, 2, b) || b == cs[0]);
            }
        } else if l + 1 == e {
            assert(in_range(r, 0, b) || in_range(r, 2, b) || b == cs[e]);
        } else {
            assert(in_range(r, 0, b) || in_range(r, 2, b) || in_range(r, 4, b));
        }
    }
}

/// The ranges `lo[k] ..= hi[k]` hold every byte of `cs`.
pub open spec fn covers(lo: Seq<u8>, hi: Seq<u8>, cs: Seq<u8>) -> bool {
    forall|j: int|
        #![trigger cs[j]]
        0 <= j < cs.len() ==> exists|k: int|
            #![trigger lo[k]]
            0 <= k < lo.len() && lo[k] <= cs[j] <= hi[k]
}

/// `b` lies in one of the ranges `lo[k] ..= hi[k]`.
pub open spec fn in_some(lo: Seq<u8>, hi: Seq<u8>, b: u8) -> bool {
    exists|k: int| #![trigger lo[k]] 0 <= k < lo.len() && lo[k] <= b <= hi[k]
}

/// Three ranges that hold all the escape bytes leave out bytes of at most
/// two gaps: of three bytes from the smallest escape byte to the largest,
/// separated by escape bytes `cs[x]` and `cs[y]`, one is in a range. With
/// [`lemma_widest_pair`] and [`lemma_ranges_characterized`], no three ranges
/// that hold the escape bytes take in fewer bytes than the description.
pub proof fn lemma_three_ranges_leave_two_gaps(
    cs: Seq<u8>,
    lo: Seq<u8>,
    hi: Seq<u8>,
    x: int,
    y: int,
    b1: u8,
    b2: u8,
    b3: u8,
)
    requires
        lo.len() == 3,
        hi.len() == 3,
        covers(lo, hi, cs),
        0 <= x < y < cs.len(),
        cs[0] <= b1 < cs[x] < b2 < cs[y] < b3 <= cs.last(),
    ensures
        in_some(lo, hi, b1) || in_some(lo, hi, b2) || in_some(lo, hi, b3),
{
    let e = cs.len() - 1;
    let k0 = choose|k: int| #![trigger lo[k]] 0 <= k < 3 && lo[k] <= cs[0] <= hi[k];
    let kx = choose|k: int| #![trigger lo[k]] 0 <= k < 3 && lo[k] <= cs[x] <= hi[k];
    let ky = choose|k: int| #![trigger lo[k]] 0 <= k < 3 && lo[k] <= cs[y] <= hi[k];
    let ke = choose|k: int| #![trigger lo[k]] 0 <= k < 3 && lo[k] <= cs[e] <= hi[k];
    assert(lo[k0] <= cs[0] <= hi[k0]);
    assert(lo[kx] <= cs[x] <= hi[kx]);
    assert(lo[ky] <= cs[y] <= hi[ky]);
    assert(lo[ke] <= cs[e] <= hi[ke]);
    if k0 == kx {
        assert(lo[k0] <= b1 <= hi[k0]);
    } else if k0 == ky {
        assert(lo[k0] <= b1 <= hi[k0]);
    } else if k0 == ke {
        assert(lo[k0] <= b1 <= hi[k0]);
    } else if kx == ky {
        assert(lo[kx] <= b2 <= hi[kx]);
    } else if kx == ke {
        assert(lo[kx] <= b2 <= hi[kx]);
    } else {
        assert(ky == ke);
        assert(lo[ky] <= b3 <= hi[ky]);
    }
}

} // verus!
