//! Runs of items set side by side: their widths, and where each item
//! stands.
//!
//! A run is a row of glyphs with the kerning between neighbours, or a line
//! of words with the gap between neighbours. Its width is the sum of the
//! widths of its items and of the gaps between them.

use vstd::prelude::*;

verus! {

/// The sequence as mathematical integers.
pub open spec fn ints(v: Seq<i32>) -> Seq<int> {
    Seq::new(v.len(), |i: int| v[i] as int)
}

/// The sequence as mathematical integers.
pub open spec fn positions(v: Seq<usize>) -> Seq<int> {
    Seq::new(v.len(), |i: int| v[i] as int)
}

/// The distance of `x` from zero.
pub open spec fn abs(x: int) -> int {
    if x < 0 {
        -x
    } else {
        x
    }
}

/// The sum of `s[i]`, ..., `s[j - 1]`.
pub open spec fn range_sum(s: Seq<int>, i: int, j: int) -> int
    decreases j - i,
{
    if j <= i {
        0
    } else {
        range_sum(s, i, j - 1) + s[j - 1]
    }
}

/// The sum of the absolute values of `s[i]`, ..., `s[j - 1]`.
pub open spec fn range_abs_sum(s: Seq<int>, i: int, j: int) -> int
    decreases j - i,
{
    if j <= i {
        0
    } else {
        range_abs_sum(s, i, j - 1) + abs(s[j - 1])
    }
}

/// The width of the items `i..j` set side by side with `gap` between
/// neighbours.
pub open spec fn span_width(widths: Seq<int>, gap: int, i: int, j: int) -> int {
    range_sum(widths, i, j) + (j - i - 1) * gap
}

/// The width that the items `i..j` would have if no width and no gap were
/// negative. It bounds the width of every run inside `i..j`.
pub open spec fn span_extent(widths: Seq<int>, gap: int, i: int, j: int) -> int {
    if j <= i {
        0
    } else {
        range_abs_sum(widths, i, j) + (j - i - 1) * abs(gap)
    }
}

/// How far item `t` stands from item `i` when the items `i..t` and one gap
/// after each of them lie between the two.
pub open spec fn span_offset(widths: Seq<int>, gap: int, i: int, t: int) -> int {
    range_sum(widths, i, t) + (t - i) * gap
}

/// The width of a run of items side by side, `gap` apart: nothing for an
/// empty run.
pub open spec fn run_advance(widths: Seq<int>, gap: int) -> int {
    if widths.len() == 0 {
        0
    } else {
        span_width(widths, gap, 0, widths.len() as int)
    }
}

/// The width that a run would have if no width and no gap were negative.
pub open spec fn run_extent(widths: Seq<int>, gap: int) -> int {
    span_extent(widths, gap, 0, widths.len() as int)
}

/// How far item `i` of a run stands from the start of the run.
pub open spec fn run_offset(widths: Seq<int>, gap: int, i: int) -> int {
    span_offset(widths, gap, 0, i)
}

/// A sum over a range is the sum over its two parts.
pub proof fn lemma_range_sum_split(s: Seq<int>, i: int, k: int, j: int)
    requires
        i <= k <= j,
    ensures
        range_sum(s, i, j) == range_sum(s, i, k) + range_sum(s, k, j),
        range_abs_sum(s, i, j) == range_abs_sum(s, i, k) + range_abs_sum(s, k, j),
    decreases j - k,
{
    if k < j {
        lemma_range_sum_split(s, i, k, j - 1);
    }
}

/// A sum is no further from zero than the sum of the absolute values.
pub proof fn lemma_range_sum_abs(s: Seq<int>, i: int, j: int)
    ensures
        0 <= range_abs_sum(s, i, j),
        abs(range_sum(s, i, j)) <= range_abs_sum(s, i, j),
    decreases j - i,
{
    if i < j {
        lemma_range_sum_abs(s, i, j - 1);
    }
}

/// A sum of numbers none of which is negative is not negative.
proof fn lemma_range_sum_nonnegative(s: Seq<int>, i: int, j: int)
    requires
        forall|t: int| i <= t < j ==> s[t] >= 0,
    ensures
        range_sum(s, i, j) >= 0,
    decreases j - i,
{
    if i < j {
        lemma_range_sum_nonnegative(s, i, j - 1);
    }
}

/// Adding one item to a run adds its width and one gap.
pub proof fn lemma_span_step(widths: Seq<int>, gap: int, i: int, j: int)
    requires
        i <= j,
    ensures
        span_width(widths, gap, i, i + 1) == widths[i],
        span_extent(widths, gap, i, i + 1) == abs(widths[i]),
        i < j ==> span_width(widths, gap, i, j + 1) == span_width(widths, gap, i, j) + gap + widths[j],
        i < j ==> span_extent(widths, gap, i, j + 1) == span_extent(widths, gap, i, j) + abs(gap) + abs(
            widths[j],
        ),
{
    let g = abs(gap);
    assert(range_sum(widths, i, i + 1) == range_sum(widths, i, i) + widths[i]);
    assert(range_abs_sum(widths, i, i + 1) == range_abs_sum(widths, i, i) + abs(widths[i]));
    assert((i + 1 - i - 1) * gap == 0) by (nonlinear_arith);
    assert((i + 1 - i - 1) * g == 0) by (nonlinear_arith);
    if i < j {
        assert((j + 1 - i - 1) * gap == (j - i - 1) * gap + gap) by (nonlinear_arith);
        assert((j + 1 - i - 1) * g == (j - i - 1) * g + g) by (nonlinear_arith);
    }
}

/// A run of items is no wider than the extent of any run that holds it.
pub proof fn lemma_span_bound(widths: Seq<int>, gap: int, a: int, i: int, j: int, b: int)
    requires
        a <= i < j <= b,
    ensures
        abs(span_width(widths, gap, i, j)) <= span_extent(widths, gap, i, j),
        span_extent(widths, gap, i, j) <= span_extent(widths, gap, a, b),
{
    lemma_range_sum_abs(widths, i, j);
    lemma_range_sum_abs(widths, a, i);
    lemma_range_sum_abs(widths, j, b);
    lemma_range_sum_split(widths, a, i, b);
    lemma_range_sum_split(widths, i, j, b);
    let g = abs(gap);
    assert(abs((j - i - 1) * gap) == (j - i - 1) * g) by (nonlinear_arith)
        requires
            j - i - 1 >= 0,
            g == abs(gap),
    ;
    assert((j - i - 1) * g <= (b - a - 1) * g) by (nonlinear_arith)
        requires
            0 <= j - i - 1 <= b - a - 1,
            g >= 0,
    ;
}

/// Where no width and no gap is negative, the extent of a run is its
/// width.
pub proof fn lemma_extent_plain(widths: Seq<int>, gap: int, i: int, j: int)
    requires
        forall|t: int| i <= t < j ==> widths[t] >= 0,
        gap >= 0,
    ensures
        range_abs_sum(widths, i, j) == range_sum(widths, i, j),
        i < j ==> span_extent(widths, gap, i, j) == span_width(widths, gap, i, j),
    decreases j - i,
{
    if i < j {
        lemma_extent_plain(widths, gap, i, j - 1);
        assert(widths[j - 1] >= 0);
    }
}

/// The offset of an item never leaves the extent of the run, and grows
/// by one width and one gap from item to item.
pub proof fn lemma_span_offset(widths: Seq<int>, gap: int, i: int, t: int)
    requires
        0 <= i <= t < widths.len(),
    ensures
        abs(span_offset(widths, gap, i, t)) <= run_extent(widths, gap),
        span_offset(widths, gap, i, i) == 0,
        span_offset(widths, gap, i, t + 1) == span_offset(widths, gap, i, t) + widths[t] + gap,
        span_offset(widths, gap, i, t + 1) == span_width(widths, gap, i, t + 1) + gap,
{
    let n = widths.len() as int;
    let g = abs(gap);
    lemma_range_sum_abs(widths, i, t);
    lemma_range_sum_abs(widths, 0, i);
    lemma_range_sum_abs(widths, t, n);
    lemma_range_sum_split(widths, 0, i, n);
    lemma_range_sum_split(widths, i, t, n);
    assert(abs((t - i) * gap) == (t - i) * g) by (nonlinear_arith)
        requires
            t - i >= 0,
            g == abs(gap),
    ;
    assert((t - i) * g <= (n - 0 - 1) * g) by (nonlinear_arith)
        requires
            0 <= t - i <= n - 1,
            g >= 0,
    ;
    assert((i - i) * gap == 0) by (nonlinear_arith);
    assert((t + 1 - i) * gap == (t - i) * gap + gap) by (nonlinear_arith);
    assert((t + 1 - i - 1) * gap == (t - i) * gap) by (nonlinear_arith);
}

/// Where no width and no gap is negative, every item of a run stands
/// inside the run: not before its start, and with its own width not
/// beyond the width of the run.
pub proof fn lemma_span_within(widths: Seq<int>, gap: int, a: int, t: int, e: int)
    requires
        0 <= a <= t < e <= widths.len(),
        forall|s: int| a <= s < e ==> widths[s] >= 0,
        gap >= 0,
    ensures
        0 <= span_offset(widths, gap, a, t),
        span_offset(widths, gap, a, t) + widths[t] <= span_width(widths, gap, a, e),
{
    lemma_range_sum_nonnegative(widths, a, t);
    lemma_range_sum_nonnegative(widths, t + 1, e);
    lemma_range_sum_split(widths, a, t, e);
    lemma_range_sum_split(widths, t, t + 1, e);
    assert(range_sum(widths, t, t + 1) == range_sum(widths, t, t) + widths[t]);
    assert((t - a) * gap >= 0) by (nonlinear_arith)
        requires
            t - a >= 0,
            gap >= 0,
    ;
    assert((e - a - 1) * gap >= (t - a) * gap) by (nonlinear_arith)
        requires
            e - a - 1 >= t - a,
            gap >= 0,
    ;
}

/// Whether the extent of the whole paragraph fits in 32 bits.
pub(crate) fn extent_fits(widths: &Vec<i32>, gap: i64) -> (ok: bool)
    ensures
        ok == (span_extent(ints(widths@), gap as int, 0, widths@.len() as int) <= i32::MAX),
{
    let n = widths.len();
    let ghost w = ints(widths@);
    let ghost g = abs(gap as int);
    let step: i128 = if gap < 0 {
        -(gap as i128)
    } else {
        gap as i128
    };
    let mut acc: i128 = 0;
    let mut t: usize = 0;
    while t < n
        invariant
            0 <= t <= n,
            n == widths@.len(),
            w == ints(widths@),
            g == abs(gap as int),
            step == g,
            acc == span_extent(w, gap as int, 0, t as int),
            0 <= acc <= i32::MAX,
        decreases n - t,
    {
        let wt: i128 = widths[t] as i128;
        let a: i128 = if wt < 0 {
            -wt
        } else {
            wt
        };
        proof {
            assert(w[t as int] == widths@[t as int] as int);
            lemma_span_step(w, gap as int, 0, t as int);
        }
        if t > 0 {
            acc = acc + step;
        }
        acc = acc + a;
        t += 1;
        if acc > i32::MAX as i128 {
            proof {
                lemma_span_bound(w, gap as int, 0, 0, t as int, n as int);
            }
            return false;
        }
    }
    true
}

/// The width of the words `i..j` side by side.
pub(crate) fn measure_span(widths: &Vec<i32>, gap: i64, i: usize, j: usize) -> (width: i64)
    requires
        0 <= i < j <= widths@.len(),
        span_extent(ints(widths@), gap as int, 0, widths@.len() as int) <= i32::MAX,
    ensures
        width == span_width(ints(widths@), gap as int, i as int, j as int),
        -i32::MAX <= width <= i32::MAX,
{
    let ghost w = ints(widths@);
    let ghost g = gap as int;
    let ghost n = widths@.len() as int;
    let mut width: i64 = widths[i] as i64;
    let mut t: usize = i + 1;
    proof {
        lemma_span_step(w, g, i as int, i as int);
        lemma_span_bound(w, g, 0, i as int, t as int, n);
    }
    while t < j
        invariant
            0 <= i < t <= j <= n,
            n == widths@.len(),
            w == ints(widths@),
            g == gap as int,
            span_extent(w, g, 0, n) <= i32::MAX,
            width == span_width(w, g, i as int, t as int),
            -i32::MAX <= width <= i32::MAX,
        decreases j - t,
    {
        proof {
            lemma_span_bound(w, g, 0, i as int, t as int + 1, n);
            lemma_span_bound(w, g, 0, 0, 2, n);
            lemma_range_sum_abs(w, 0, 2);
            lemma_span_step(w, g, i as int, t as int);
        }
        width = width + gap + widths[t] as i64;
        t += 1;
    }
    width
}

/// The width of the run, or `None` when it does not fit in 32 bits.
pub fn measure_run(widths: &Vec<i32>, gap: i32) -> (r: Option<i32>)
    ensures
        r is Some <==> i32::MIN <= run_advance(ints(widths@), gap as int) <= i32::MAX,
        r matches Some(a) ==> a == run_advance(ints(widths@), gap as int),
{
    let n = widths.len();
    if n == 0 {
        return Some(0);
    }
    let ghost w = ints(widths@);
    let ghost g = gap as int;
    let mut reach: i128 = 0;
    let mut i: usize = 0;
    proof {
        lemma_span_offset(w, g, 0, 0);
    }
    while i < n
        invariant
            0 <= i <= n,
            n == widths@.len(),
            w == ints(widths@),
            g == gap as int,
            reach == run_offset(w, g, i as int),
            -(i * 0x1_0000_0000) <= reach <= i * 0x1_0000_0000,
        decreases n - i,
    {
        proof {
            lemma_span_offset(w, g, 0, i as int);
            assert(w[i as int] == widths@[i as int]);
        }
        reach = reach + widths[i] as i128 + gap as i128;
        i += 1;
    }
    proof {
        lemma_span_offset(w, g, 0, n as int - 1);
    }
    let advance: i128 = reach - gap as i128;
    if advance < i32::MIN as i128 || advance > i32::MAX as i128 {
        None
    } else {
        Some(advance as i32)
    }
}

} // verus!
