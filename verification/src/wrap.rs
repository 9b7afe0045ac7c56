//! Breaking a paragraph of words into lines of least raggedness.
//!
//! Words are laid side by side with a fixed gap between neighbours. A line
//! may hold any run of consecutive words whose width does not exceed the
//! line width; a single word may always stand alone, however wide it is.
//! The raggedness of a paragraph is the sum, over all its lines but the
//! last, of the square of what the line leaves unused.

use crate::error::TextError;
use crate::run::{
    abs, extent_fits, ints, lemma_range_sum_abs, lemma_span_bound, lemma_span_step, measure_span,
    positions, span_extent, span_width,
};
use vstd::prelude::*;

verus! {

/// Whether the words `i..j` may share a line: they do not exceed the line
/// width, or they are one word.
pub open spec fn fits(widths: Seq<int>, gap: int, line_width: int, i: int, j: int) -> bool {
    j == i + 1 || span_width(widths, gap, i, j) <= line_width
}

/// What the line of words `i..j` leaves unused.
pub open spec fn slack(widths: Seq<int>, gap: int, line_width: int, i: int, j: int) -> int {
    line_width - span_width(widths, gap, i, j)
}

/// What the line of words `i..j` adds to the raggedness: the square of its
/// slack, or nothing if it is the last line.
pub open spec fn line_cost(widths: Seq<int>, gap: int, line_width: int, i: int, j: int) -> int {
    if j >= widths.len() {
        0
    } else {
        slack(widths, gap, line_width, i, j) * slack(widths, gap, line_width, i, j)
    }
}

/// Whether `breaks` cuts the words from `from` on into lines: it starts at
/// `from`, ends behind the last word and grows strictly.
pub open spec fn is_breaking(breaks: Seq<int>, from: int, n: int) -> bool {
    &&& breaks.len() >= 1
    &&& breaks[0] == from
    &&& breaks.last() == n
    &&& forall|k: int| 0 <= k < breaks.len() - 1 ==> #[trigger] breaks[k] < breaks[k + 1]
}

/// Whether `breaks` is a breaking of the words from `from` on in which
/// every line may stand.
pub open spec fn is_wrapping(
    widths: Seq<int>,
    gap: int,
    line_width: int,
    breaks: Seq<int>,
    from: int,
) -> bool {
    &&& is_breaking(breaks, from, widths.len() as int)
    &&& forall|k: int|
        0 <= k < breaks.len() - 1 ==> fits(widths, gap, line_width, #[trigger] breaks[k], breaks[k + 1])
}

/// The raggedness of the lines that `breaks` cuts.
pub open spec fn raggedness(widths: Seq<int>, gap: int, line_width: int, breaks: Seq<int>) -> int
    decreases breaks.len(),
{
    if breaks.len() < 2 {
        0
    } else {
        line_cost(widths, gap, line_width, breaks[0], breaks[1]) + raggedness(
            widths,
            gap,
            line_width,
            breaks.drop_first(),
        )
    }
}

/// The least raggedness of the words from `i` on.
pub open spec fn best_cost(widths: Seq<int>, gap: int, line_width: int, i: int) -> int
    decreases widths.len() - i, widths.len() + 1,
{
    if 0 <= i < widths.len() {
        scan_cost(widths, gap, line_width, i, widths.len() as int)
    } else {
        0
    }
}

/// The raggedness of the words from `i` on when their first line is the
/// words `i..j` and the rest is wrapped as well as can be.
pub open spec fn first_line_cost(widths: Seq<int>, gap: int, line_width: int, i: int, j: int) -> int
    decreases widths.len() - i, 0int,
{
    if 0 <= i < j <= widths.len() {
        line_cost(widths, gap, line_width, i, j) + best_cost(widths, gap, line_width, j)
    } else {
        0
    }
}

/// The least raggedness of the words from `i` on among the wrappings whose
/// first line ends at or before word `j`.
pub open spec fn scan_cost(widths: Seq<int>, gap: int, line_width: int, i: int, j: int) -> int
    decreases widths.len() - i, j,
{
    if 0 <= i < j <= widths.len() {
        if j == i + 1 {
            first_line_cost(widths, gap, line_width, i, j)
        } else {
            let shorter = scan_cost(widths, gap, line_width, i, j - 1);
            let here = first_line_cost(widths, gap, line_width, i, j);
            if fits(widths, gap, line_width, i, j) && here <= shorter {
                here
            } else {
                shorter
            }
        }
    } else {
        0
    }
}

/// Where the first line ends in the wrapping that `scan_cost` measures.
/// Among first lines of equal merit the longest is taken.
pub open spec fn scan_break(widths: Seq<int>, gap: int, line_width: int, i: int, j: int) -> int
    decreases j,
{
    if 0 <= i < j <= widths.len() {
        if j == i + 1 {
            j
        } else if fits(widths, gap, line_width, i, j) && first_line_cost(widths, gap, line_width, i, j)
            <= scan_cost(widths, gap, line_width, i, j - 1) {
            j
        } else {
            scan_break(widths, gap, line_width, i, j - 1)
        }
    } else {
        i + 1
    }
}

/// Where the first line ends in the best wrapping of the words from `i` on.
pub open spec fn best_break(widths: Seq<int>, gap: int, line_width: int, i: int) -> int {
    scan_break(widths, gap, line_width, i, widths.len() as int)
}

/// The best wrapping of the words from `i` on.
pub open spec fn best_breaks(widths: Seq<int>, gap: int, line_width: int, i: int) -> Seq<int>
    decreases widths.len() - i,
{
    let j = best_break(widths, gap, line_width, i);
    if 0 <= i < j <= widths.len() {
        seq![i] + best_breaks(widths, gap, line_width, j)
    } else {
        seq![widths.len() as int]
    }
}

/// Where the first line of the words from `i` on ends when it holds the
/// words `i..j` already and takes every further word for as long as the
/// next one fits.
pub open spec fn greedy_break(widths: Seq<int>, gap: int, line_width: int, i: int, j: int) -> int
    decreases widths.len() - j,
{
    if i < j < widths.len() && span_width(widths, gap, i, j + 1) <= line_width {
        greedy_break(widths, gap, line_width, i, j + 1)
    } else {
        j
    }
}

/// The wrapping that fills every line in turn with as many words as fit.
pub open spec fn greedy_breaks(widths: Seq<int>, gap: int, line_width: int, i: int) -> Seq<int>
    decreases widths.len() - i,
{
    let j = greedy_break(widths, gap, line_width, i, i + 1);
    if 0 <= i < j <= widths.len() {
        seq![i] + greedy_breaks(widths, gap, line_width, j)
    } else {
        seq![widths.len() as int]
    }
}

/// The square of the widest slack that a line can have once the extent of
/// the paragraph is known to fit in 32 bits.
pub open spec fn cost_limit() -> int {
    0x1_0000_0000_0000_0000
}

/// The best wrapping of all the words is a wrapping of them, and no
/// wrapping of them is less ragged.
pub proof fn lemma_best_breaks_optimal(widths: Seq<int>, gap: int, line_width: int, other: Seq<int>)
    requires
        is_wrapping(widths, gap, line_width, other, 0),
    ensures
        is_wrapping(widths, gap, line_width, best_breaks(widths, gap, line_width, 0), 0),
        raggedness(widths, gap, line_width, best_breaks(widths, gap, line_width, 0)) <= raggedness(
            widths,
            gap,
            line_width,
            other,
        ),
{
    lemma_best_breaks(widths, gap, line_width, 0);
    lemma_best_is_least(widths, gap, line_width, other, 0);
}

/// The best wrapping is never more ragged than greedy fill.
pub proof fn lemma_best_beats_greedy(widths: Seq<int>, gap: int, line_width: int)
    ensures
        raggedness(widths, gap, line_width, best_breaks(widths, gap, line_width, 0)) <= raggedness(
            widths,
            gap,
            line_width,
            greedy_breaks(widths, gap, line_width, 0),
        ),
{
    lemma_greedy_breaks(widths, gap, line_width, 0);
    lemma_best_breaks_optimal(widths, gap, line_width, greedy_breaks(widths, gap, line_width, 0));
}

/// The best wrapping is a wrapping, and its raggedness is the least
/// raggedness.
pub proof fn lemma_best_breaks(widths: Seq<int>, gap: int, line_width: int, i: int)
    requires
        0 <= i <= widths.len(),
    ensures
        is_wrapping(widths, gap, line_width, best_breaks(widths, gap, line_width, i), i),
        raggedness(widths, gap, line_width, best_breaks(widths, gap, line_width, i)) == best_cost(
            widths,
            gap,
            line_width,
            i,
        ),
    decreases widths.len() - i,
{
    let n = widths.len() as int;
    let b = best_breaks(widths, gap, line_width, i);
    if i < n {
        lemma_scan(widths, gap, line_width, i, n);
        let j = best_break(widths, gap, line_width, i);
        let rest = best_breaks(widths, gap, line_width, j);
        lemma_best_breaks(widths, gap, line_width, j);
        assert(b == seq![i] + rest);
        assert(b.drop_first() =~= rest);
        assert forall|k: int| 0 <= k < b.len() - 1 implies #[trigger] b[k] < b[k + 1] && fits(
            widths,
            gap,
            line_width,
            b[k],
            b[k + 1],
        ) by {
            if k > 0 {
                assert(b[k] == rest[k - 1]);
                assert(b[k + 1] == rest[k - 1 + 1]);
            }
        }
    } else {
        assert(b == seq![n]);
    }
}

/// No wrapping of the words from `i` on has less raggedness than the least
/// raggedness.
pub proof fn lemma_best_is_least(
    widths: Seq<int>,
    gap: int,
    line_width: int,
    breaks: Seq<int>,
    i: int,
)
    requires
        0 <= i,
        is_wrapping(widths, gap, line_width, breaks, i),
    ensures
        i <= widths.len(),
        best_cost(widths, gap, line_width, i) <= raggedness(widths, gap, line_width, breaks),
    decreases breaks.len(),
{
    let n = widths.len() as int;
    if breaks.len() >= 2 {
        let j = breaks[1];
        let rest = breaks.drop_first();
        let first = 0int;
        assert(breaks[first] < breaks[first + 1]);
        assert(fits(widths, gap, line_width, breaks[first], breaks[first + 1]));
        assert forall|k: int| 0 <= k < rest.len() - 1 implies #[trigger] rest[k] < rest[k + 1] && fits(
            widths,
            gap,
            line_width,
            rest[k],
            rest[k + 1],
        ) by {
            assert(rest[k] == breaks[k + 1]);
            assert(rest[k + 1] == breaks[k + 1 + 1]);
        }
        assert(rest.last() == breaks.last());
        lemma_best_is_least(widths, gap, line_width, rest, j);
        lemma_scan(widths, gap, line_width, i, n);
        assert(first_line_cost(widths, gap, line_width, i, j) == line_cost(
            widths,
            gap,
            line_width,
            i,
            j,
        ) + best_cost(widths, gap, line_width, j));
        assert(best_cost(widths, gap, line_width, i) <= first_line_cost(widths, gap, line_width, i, j));
    } else {
        assert(breaks.last() == breaks[0]);
    }
}

/// What a scan of the first lines `i..i+1`, ..., `i..j` finds: a line that
/// fits and that no other of them that fits improves on.
pub proof fn lemma_scan(widths: Seq<int>, gap: int, line_width: int, i: int, j: int)
    requires
        0 <= i < j <= widths.len(),
    ensures
        i < scan_break(widths, gap, line_width, i, j) <= j,
        fits(widths, gap, line_width, i, scan_break(widths, gap, line_width, i, j)),
        scan_cost(widths, gap, line_width, i, j) == first_line_cost(
            widths,
            gap,
            line_width,
            i,
            scan_break(widths, gap, line_width, i, j),
        ),
        forall|k: int|
            i < k <= j && fits(widths, gap, line_width, i, k) ==> scan_cost(widths, gap, line_width, i, j)
                <= #[trigger] first_line_cost(widths, gap, line_width, i, k),
    decreases j,
{
    if j > i + 1 {
        lemma_scan(widths, gap, line_width, i, j - 1);
    }
}

/// No line adds a negative amount to the raggedness, and no wrapping has
/// less raggedness than none.
pub proof fn lemma_costs_nonnegative(widths: Seq<int>, gap: int, line_width: int, i: int, j: int)
    ensures
        0 <= line_cost(widths, gap, line_width, i, j),
        0 <= first_line_cost(widths, gap, line_width, i, j),
        0 <= scan_cost(widths, gap, line_width, i, j),
        0 <= best_cost(widths, gap, line_width, i),
{
    let s = slack(widths, gap, line_width, i, j);
    assert(0 <= s * s) by (nonlinear_arith);
    lemma_scan_nonnegative(widths, gap, line_width, i, j);
    lemma_scan_nonnegative(widths, gap, line_width, i, widths.len() as int);
}

/// No first line and no scan gives a negative raggedness.
proof fn lemma_scan_nonnegative(widths: Seq<int>, gap: int, line_width: int, i: int, j: int)
    ensures
        0 <= first_line_cost(widths, gap, line_width, i, j),
        0 <= scan_cost(widths, gap, line_width, i, j),
    decreases widths.len() - i, j,
{
    let n = widths.len() as int;
    if 0 <= i < j <= n {
        let s = slack(widths, gap, line_width, i, j);
        assert(0 <= s * s) by (nonlinear_arith);
        assert(0 <= line_cost(widths, gap, line_width, i, j));
        if j < n {
            lemma_scan_nonnegative(widths, gap, line_width, j, n);
            assert(best_cost(widths, gap, line_width, j) == scan_cost(widths, gap, line_width, j, n));
        } else {
            assert(best_cost(widths, gap, line_width, j) == 0);
        }
        assert(first_line_cost(widths, gap, line_width, i, j) == line_cost(
            widths,
            gap,
            line_width,
            i,
            j,
        ) + best_cost(widths, gap, line_width, j));
        if j > i + 1 {
            lemma_scan_nonnegative(widths, gap, line_width, i, j - 1);
        }
    }
}

/// Greedy fill is a wrapping.
pub proof fn lemma_greedy_breaks(widths: Seq<int>, gap: int, line_width: int, i: int)
    requires
        0 <= i <= widths.len(),
    ensures
        is_wrapping(widths, gap, line_width, greedy_breaks(widths, gap, line_width, i), i),
    decreases widths.len() - i,
{
    let n = widths.len() as int;
    let b = greedy_breaks(widths, gap, line_width, i);
    if i < n {
        lemma_greedy_break(widths, gap, line_width, i, i + 1);
        let j = greedy_break(widths, gap, line_width, i, i + 1);
        let rest = greedy_breaks(widths, gap, line_width, j);
        lemma_greedy_breaks(widths, gap, line_width, j);
        assert(b == seq![i] + rest);
        assert forall|k: int| 0 <= k < b.len() - 1 implies #[trigger] b[k] < b[k + 1] && fits(
            widths,
            gap,
            line_width,
            b[k],
            b[k + 1],
        ) by {
            if k > 0 {
                assert(b[k] == rest[k - 1]);
                assert(b[k + 1] == rest[k - 1 + 1]);
            }
        }
    } else {
        assert(b == seq![n]);
    }
}

/// Greedy fill ends its first line behind a run of words that fits.
proof fn lemma_greedy_break(widths: Seq<int>, gap: int, line_width: int, i: int, j: int)
    requires
        0 <= i < j <= widths.len(),
        fits(widths, gap, line_width, i, j),
    ensures
        j <= greedy_break(widths, gap, line_width, i, j) <= widths.len(),
        fits(widths, gap, line_width, i, greedy_break(widths, gap, line_width, i, j)),
    decreases widths.len() - j,
{
    if j < widths.len() && span_width(widths, gap, i, j + 1) <= line_width {
        lemma_greedy_break(widths, gap, line_width, i, j + 1);
    }
}

/// Every break of a breaking lies between its place in the sequence and
/// the number of words.
pub proof fn lemma_breaking_bounds(breaks: Seq<int>, from: int, n: int, k: int)
    requires
        is_breaking(breaks, from, n),
        0 <= k < breaks.len(),
    ensures
        from + k <= breaks[k] <= n - (breaks.len() - 1 - k),
    decreases breaks.len() - k, k,
{
    if k > 0 {
        lemma_breaking_bounds_low(breaks, from, n, k - 1);
        assert(breaks[k - 1] < breaks[k - 1 + 1]);
    }
    if k < breaks.len() - 1 {
        lemma_breaking_bounds(breaks, from, n, k + 1);
        assert(breaks[k] < breaks[k + 1]);
    }
}

/// The breaks of a breaking grow by at least one from each to the next.
proof fn lemma_breaking_bounds_low(breaks: Seq<int>, from: int, n: int, k: int)
    requires
        is_breaking(breaks, from, n),
        0 <= k < breaks.len(),
    ensures
        from + k <= breaks[k],
    decreases k,
{
    if k > 0 {
        lemma_breaking_bounds_low(breaks, from, n, k - 1);
        assert(breaks[k - 1] < breaks[k - 1 + 1]);
    }
}

/// The raggedness of a wrapping is that of its first lines plus that of
/// the lines from any break on.
proof fn lemma_raggedness_split(widths: Seq<int>, gap: int, line_width: int, breaks: Seq<int>, k: int)
    requires
        0 <= k < breaks.len() - 1,
    ensures
        raggedness(widths, gap, line_width, breaks.subrange(k, breaks.len() as int)) == line_cost(
            widths,
            gap,
            line_width,
            breaks[k],
            breaks[k + 1],
        ) + raggedness(widths, gap, line_width, breaks.subrange(k + 1, breaks.len() as int)),
{
    let tail = breaks.subrange(k, breaks.len() as int);
    assert(tail.drop_first() =~= breaks.subrange(k + 1, breaks.len() as int));
    assert(tail[0] == breaks[k]);
    assert(tail[1] == breaks[k + 1]);
}

/// The least raggedness of the words from `i` on is no more than that of
/// the wrapping that puts word `i` alone on the first line.
proof fn lemma_first_line_bound(widths: Seq<int>, gap: int, line_width: int, i: int)
    requires
        0 <= i < widths.len(),
    ensures
        best_cost(widths, gap, line_width, i) <= first_line_cost(widths, gap, line_width, i, i + 1),
{
    lemma_scan(widths, gap, line_width, i, widths.len() as int);
    assert(fits(widths, gap, line_width, i, i + 1));
}

/// With a bounded extent every line has a bounded width and cost.
proof fn lemma_line_cost_bound(widths: Seq<int>, gap: int, line_width: int, i: int, j: int)
    requires
        0 <= i < j <= widths.len(),
        span_extent(widths, gap, 0, widths.len() as int) <= i32::MAX,
        i32::MIN <= line_width <= i32::MAX,
    ensures
        abs(span_width(widths, gap, i, j)) <= i32::MAX,
        abs(slack(widths, gap, line_width, i, j)) <= 0xffff_ffff,
        0 <= line_cost(widths, gap, line_width, i, j) <= cost_limit(),
{
    lemma_span_bound(widths, gap, 0, i, j, widths.len() as int);
    let s = slack(widths, gap, line_width, i, j);
    assert(0 <= s * s <= 0x1_0000_0000_0000_0000) by (nonlinear_arith)
        requires
            -0xffff_ffff <= s <= 0xffff_ffff,
    ;
}

/// With a bounded extent the least raggedness grows by no more than one
/// bounded cost per word.
proof fn lemma_best_cost_bound(widths: Seq<int>, gap: int, line_width: int, i: int)
    requires
        0 <= i <= widths.len(),
        span_extent(widths, gap, 0, widths.len() as int) <= i32::MAX,
        i32::MIN <= line_width <= i32::MAX,
    ensures
        0 <= best_cost(widths, gap, line_width, i) <= (widths.len() - i) * cost_limit(),
    decreases widths.len() - i,
{
    let n = widths.len() as int;
    let lim = cost_limit();
    lemma_costs_nonnegative(widths, gap, line_width, i, i + 1);
    if i < n {
        lemma_best_cost_bound(widths, gap, line_width, i + 1);
        lemma_line_cost_bound(widths, gap, line_width, i, i + 1);
        lemma_first_line_bound(widths, gap, line_width, i);
        assert(first_line_cost(widths, gap, line_width, i, i + 1) == line_cost(
            widths,
            gap,
            line_width,
            i,
            i + 1,
        ) + best_cost(widths, gap, line_width, i + 1));
        assert((n - (i + 1)) * lim + lim == (n - i) * lim) by (nonlinear_arith);
    } else {
        assert((n - i) * lim == 0) by (nonlinear_arith)
            requires
                n - i == 0,
        ;
    }
}

/// Cuts a paragraph of words into lines of least raggedness.
///
/// `widths` holds the width of each word, `gap` the distance between two
/// neighbours on a line and `line_width` the width that no line of more
/// than one word may exceed. The result holds the index of the first word
/// of each line, followed by the number of words.
///
/// Fails with `TextError::TooLong` when the paragraph set on one line, with
/// every width and the gap taken as positive, would not fit in 32 bits.
pub fn wrap_words(widths: &Vec<i32>, gap: i64, line_width: i32) -> (r: Result<Vec<usize>, TextError>)
    ensures
        match r {
            Ok(breaks) => {
                &&& span_extent(ints(widths@), gap as int, 0, widths@.len() as int) <= i32::MAX
                &&& positions(breaks@) == best_breaks(ints(widths@), gap as int, line_width as int, 0)
                &&& is_wrapping(ints(widths@), gap as int, line_width as int, positions(breaks@), 0)
                &&& forall|other: Seq<int>|
                    is_wrapping(ints(widths@), gap as int, line_width as int, other, 0) ==> raggedness(
                        ints(widths@),
                        gap as int,
                        line_width as int,
                        positions(breaks@),
                    ) <= #[trigger] raggedness(ints(widths@), gap as int, line_width as int, other)
            },
            Err(e) => {
                &&& e == TextError::TooLong
                &&& span_extent(ints(widths@), gap as int, 0, widths@.len() as int) > i32::MAX
            },
        },
{
    let n = widths.len();
    let ghost w = ints(widths@);
    let ghost g = gap as int;
    let ghost lw = line_width as int;
    if !extent_fits(widths, gap) {
        return Err(TextError::TooLong);
    }
    let (cost, next) = best_lines(widths, gap, line_width);
    let mut breaks: Vec<usize> = Vec::new();
    let mut i: usize = 0;
    while i < n
        invariant
            0 <= i <= n,
            n == widths@.len(),
            w == ints(widths@),
            next@.len() == n,
            forall|t: int| 0 <= t < n ==> next@[t] == best_break(w, g, lw, t),
            positions(breaks@) + best_breaks(w, g, lw, i as int) == best_breaks(w, g, lw, 0),
        decreases n - i,
    {
        proof {
            lemma_scan(w, g, lw, i as int, n as int);
            let j = best_break(w, g, lw, i as int);
            assert(best_breaks(w, g, lw, i as int) == seq![i as int] + best_breaks(w, g, lw, j));
            assert(positions(breaks@.push(i)) + best_breaks(w, g, lw, j) =~= positions(breaks@) + (
            seq![i as int] + best_breaks(w, g, lw, j)));
        }
        breaks.push(i);
        i = next[i];
    }
    proof {
        assert(best_breaks(w, g, lw, n as int) == seq![n as int]);
        assert(positions(breaks@.push(n)) =~= positions(breaks@) + seq![n as int]);
    }
    breaks.push(n);
    proof {
        lemma_best_breaks(w, g, lw, 0);
        assert forall|other: Seq<int>| is_wrapping(w, g, lw, other, 0) implies raggedness(
            w,
            g,
            lw,
            positions(breaks@),
        ) <= #[trigger] raggedness(w, g, lw, other) by {
            lemma_best_is_least(w, g, lw, other, 0);
        }
    }
    Ok(breaks)
}

/// The least raggedness of the words from each word on, and where the
/// first line then ends.
fn best_lines(widths: &Vec<i32>, gap: i64, line_width: i32) -> (r: (Vec<u128>, Vec<usize>))
    requires
        span_extent(ints(widths@), gap as int, 0, widths@.len() as int) <= i32::MAX,
    ensures
        r.0@.len() == widths@.len(),
        r.1@.len() == widths@.len(),
        forall|t: int|
            0 <= t < widths@.len() ==> r.0@[t] == best_cost(
                ints(widths@),
                gap as int,
                line_width as int,
                t,
            ),
        forall|t: int|
            0 <= t < widths@.len() ==> r.1@[t] == best_break(
                ints(widths@),
                gap as int,
                line_width as int,
                t,
            ),
{
    let n = widths.len();
    let ghost w = ints(widths@);
    let ghost g = gap as int;
    let ghost lw = line_width as int;
    let mut cost: Vec<u128> = Vec::new();
    let mut next: Vec<usize> = Vec::new();
    let mut k: usize = 0;
    while k < n
        invariant
            k <= n,
            cost@.len() == k,
            next@.len() == k,
        decreases n - k,
    {
        cost.push(0);
        next.push(0);
        k += 1;
    }
    let mut i: usize = n;
    while i > 0
        invariant
            i <= n,
            n == widths@.len(),
            w == ints(widths@),
            g == gap as int,
            lw == line_width as int,
            span_extent(w, g, 0, n as int) <= i32::MAX,
            cost@.len() == n,
            next@.len() == n,
            forall|t: int| i <= t < n ==> cost@[t] == best_cost(w, g, lw, t),
            forall|t: int| i <= t < n ==> next@[t] == best_break(w, g, lw, t),
        decreases i,
    {
        i -= 1;
        let (best, arg) = scan_lines(widths, gap, line_width, &cost, i);
        cost[i] = best;
        next[i] = arg;
    }
    (cost, next)
}

/// The best first line for the words from `i` on, and the raggedness that
/// comes with it.
fn scan_lines(widths: &Vec<i32>, gap: i64, line_width: i32, cost: &Vec<u128>, i: usize) -> (r: (
    u128,
    usize,
))
    requires
        0 <= i < widths@.len(),
        span_extent(ints(widths@), gap as int, 0, widths@.len() as int) <= i32::MAX,
        cost@.len() == widths@.len(),
        forall|t: int| i < t < widths@.len() ==> cost@[t] == best_cost(
            ints(widths@),
            gap as int,
            line_width as int,
            t,
        ),
    ensures
        r.0 == best_cost(ints(widths@), gap as int, line_width as int, i as int),
        r.1 == best_break(ints(widths@), gap as int, line_width as int, i as int),
{
    let n = widths.len();
    let ghost w = ints(widths@);
    let ghost g = gap as int;
    let ghost lw = line_width as int;
    let mut width: i64 = widths[i] as i64;
    let mut j: usize = i + 1;
    proof {
        lemma_span_step(w, g, i as int, i as int);
    }
    let mut best: u128 = line_and_rest(widths, gap, line_width, cost, i, j, width);
    let mut arg: usize = j;
    while j < n
        invariant
            0 <= i < j <= n,
            n == widths@.len(),
            w == ints(widths@),
            g == gap as int,
            lw == line_width as int,
            span_extent(w, g, 0, n as int) <= i32::MAX,
            cost@.len() == n,
            forall|t: int| i < t < n ==> cost@[t] == best_cost(w, g, lw, t),
            width == span_width(w, g, i as int, j as int),
            best == scan_cost(w, g, lw, i as int, j as int),
            arg == scan_break(w, g, lw, i as int, j as int),
        decreases n - j,
    {
        proof {
            lemma_span_bound(w, g, 0, i as int, j as int, n as int);
            lemma_span_bound(w, g, 0, i as int, j as int + 1, n as int);
            lemma_span_bound(w, g, 0, 0, 2, n as int);
            lemma_range_sum_abs(w, 0, 2);
            lemma_span_step(w, g, i as int, j as int);
        }
        width = width + gap + widths[j] as i64;
        j += 1;
        if width <= line_width as i64 {
            let c = line_and_rest(widths, gap, line_width, cost, i, j, width);
            if c <= best {
                best = c;
                arg = j;
            }
        }
    }
    (best, arg)
}

/// What the line of width `width` that ends before word `j` adds to the
/// raggedness, together with the least raggedness of the words from `j` on.
fn line_and_rest(
    widths: &Vec<i32>,
    gap: i64,
    line_width: i32,
    cost: &Vec<u128>,
    i: usize,
    j: usize,
    width: i64,
) -> (c: u128)
    requires
        0 <= i < j <= widths@.len(),
        span_extent(ints(widths@), gap as int, 0, widths@.len() as int) <= i32::MAX,
        cost@.len() == widths@.len(),
        forall|t: int| i < t < widths@.len() ==> cost@[t] == best_cost(
            ints(widths@),
            gap as int,
            line_width as int,
            t,
        ),
        width == span_width(ints(widths@), gap as int, i as int, j as int),
    ensures
        c == first_line_cost(ints(widths@), gap as int, line_width as int, i as int, j as int),
{
    let n = widths.len();
    proof {
        let w = ints(widths@);
        lemma_line_cost_bound(w, gap as int, line_width as int, i as int, j as int);
        lemma_best_cost_bound(w, gap as int, line_width as int, j as int);
        let lim = cost_limit();
        let m = n as int - j as int;
        assert(m * lim <= 0xffff_ffff_ffff_fffe * lim) by (nonlinear_arith)
            requires
                0 <= m <= 0xffff_ffff_ffff_fffe,
                lim == 0x1_0000_0000_0000_0000,
        ;
        assert(first_line_cost(w, gap as int, line_width as int, i as int, j as int) == line_cost(
            w,
            gap as int,
            line_width as int,
            i as int,
            j as int,
        ) + best_cost(w, gap as int, line_width as int, j as int));
    }
    if j == n {
        0
    } else {
        let s: i128 = line_width as i128 - width as i128;
        assert(0 <= s * s <= 0x1_0000_0000_0000_0000) by (nonlinear_arith)
            requires
                -0xffff_ffff <= s <= 0xffff_ffff,
        ;
        let sq: i128 = s * s;
        sq as u128 + cost[j]
    }
}

/// The raggedness of the wrapping that `breaks` describes, in the form
/// that `wrap_words` returns, or `None` when `breaks` is no wrapping of the
/// words or the paragraph is too large for `wrap_words`.
pub fn measure_raggedness(widths: &Vec<i32>, gap: i64, line_width: i32, breaks: &Vec<usize>) -> (r:
    Option<u128>)
    ensures
        r is Some <==> span_extent(ints(widths@), gap as int, 0, widths@.len() as int) <= i32::MAX
            && is_wrapping(ints(widths@), gap as int, line_width as int, positions(breaks@), 0),
        r matches Some(v) ==> v == raggedness(
            ints(widths@),
            gap as int,
            line_width as int,
            positions(breaks@),
        ),
{
    let n = widths.len();
    let m = breaks.len();
    let ghost w = ints(widths@);
    let ghost g = gap as int;
    let ghost lw = line_width as int;
    let ghost pos = positions(breaks@);
    if !extent_fits(widths, gap) {
        return None;
    }
    if m == 0 || breaks[0] != 0 || breaks[m - 1] != n {
        return None;
    }
    let mut total: u128 = 0;
    let mut k: usize = 0;
    proof {
        assert(pos.subrange(0, m as int) =~= pos);
        assert(0 * cost_limit() == 0) by (nonlinear_arith);
    }
    while k + 1 < m
        invariant
            0 <= k < m,
            m == breaks@.len(),
            n == widths@.len(),
            w == ints(widths@),
            g == gap as int,
            lw == line_width as int,
            pos == positions(breaks@),
            span_extent(w, g, 0, n as int) <= i32::MAX,
            pos[0] == 0,
            pos.last() == n,
            k <= pos[k as int] <= n,
            forall|t: int| 0 <= t < k ==> #[trigger] pos[t] < pos[t + 1],
            forall|t: int| 0 <= t < k ==> fits(w, g, lw, #[trigger] pos[t], pos[t + 1]),
            total + raggedness(w, g, lw, pos.subrange(k as int, m as int)) == raggedness(w, g, lw, pos),
            0 <= total <= k * cost_limit(),
        decreases m - k,
    {
        let a = breaks[k];
        let b = breaks[k + 1];
        if a >= b || b > n {
            proof {
                if is_breaking(pos, 0, n as int) {
                    assert(pos[k as int] < pos[k as int + 1]);
                    lemma_breaking_bounds(pos, 0, n as int, k as int + 1);
                }
            }
            return None;
        }
        let width = measure_span(widths, gap, a, b);
        if b > a + 1 && width > line_width as i64 {
            proof {
                if is_wrapping(w, g, lw, pos, 0) {
                    assert(fits(w, g, lw, pos[k as int], pos[k as int + 1]));
                }
            }
            return None;
        }
        proof {
            lemma_line_cost_bound(w, g, lw, a as int, b as int);
            lemma_raggedness_split(w, g, lw, pos, k as int);
            let lim = cost_limit();
            assert((k as int) * lim + lim == (k as int + 1) * lim) by (nonlinear_arith);
            assert((k as int + 1) * lim <= 0xffff_ffff_ffff_ffff * lim) by (nonlinear_arith)
                requires
                    0 <= k as int + 1 <= 0xffff_ffff_ffff_ffff,
                    lim == 0x1_0000_0000_0000_0000,
            ;
        }
        if b < n {
            let s: i128 = line_width as i128 - width as i128;
            assert(0 <= s * s <= 0x1_0000_0000_0000_0000) by (nonlinear_arith)
                requires
                    -0xffff_ffff <= s <= 0xffff_ffff,
            ;
            let sq: i128 = s * s;
            total = total + sq as u128;
        }
        k += 1;
    }
    proof {
        assert(pos.subrange(k as int, m as int).len() == 1);
    }
    Some(total)
}

} // verus!
