//! The widths of table columns.
use crate::tui::ui::util::{capped, terminal_width, text_cells};
use vstd::prelude::*;

verus! {

/// Minimum column width (including padding) to maintain readability
pub const MIN_COL_WIDTH: usize = 3;

/// One space either side of a cell's text. Included in every column width, and
/// reserved again when the text of a cell is wrapped, so the two must agree.
pub const CELL_PADDING: usize = 2;

// ---------- fitting columns into a budget ----------

/// The sum of the widths.
pub open spec fn total(ws: Seq<usize>) -> nat
    decreases ws.len(),
{
    if ws.len() == 0 {
        0
    } else {
        total(ws.drop_last()) + ws.last() as nat
    }
}

/// A width trimmed to `cap`, but no narrower than the minimum.
pub open spec fn trimmed_width(w: usize, cap: usize) -> usize {
    let low = if w < cap {
        w
    } else {
        cap
    };
    if low < MIN_COL_WIDTH {
        MIN_COL_WIDTH
    } else {
        low
    }
}

/// All widths trimmed to `cap`.
pub open spec fn trimmed_widths(ws: Seq<usize>, cap: usize) -> Seq<usize> {
    ws.map_values(|w: usize| trimmed_width(w, cap))
}

/// The greatest of the widths.
pub open spec fn widest(ws: Seq<usize>) -> usize
    decreases ws.len(),
{
    if ws.len() == 0 {
        0
    } else if ws.last() > widest(ws.drop_last()) {
        ws.last()
    } else {
        widest(ws.drop_last())
    }
}

/// The greatest cap, up to `hi`, where trimming every column to it fits into
/// `budget`; the minimum width where none fits.
pub open spec fn best_cap(ws: Seq<usize>, budget: nat, hi: usize) -> usize
    decreases hi,
{
    if hi <= MIN_COL_WIDTH {
        MIN_COL_WIDTH
    } else if total(trimmed_widths(ws, hi)) <= budget {
        hi
    } else {
        best_cap(ws, budget, (hi - 1) as usize)
    }
}

/// The number of columns among the first `count` that are wider than `cap`.
pub open spec fn clipped(ws: Seq<usize>, cap: usize, count: int) -> nat
    decreases count,
{
    if count <= 0 {
        0
    } else {
        clipped(ws, cap, count - 1) + if ws[count - 1] > cap {
            1nat
        } else {
            0nat
        }
    }
}

/// The cap that `ws` is trimmed to.
pub open spec fn cap_for(ws: Seq<usize>, budget: nat) -> usize {
    best_cap(ws, budget, widest(ws))
}

/// What trimming to the cap leaves of the budget.
pub open spec fn slack_for(ws: Seq<usize>, budget: nat) -> nat {
    let used = total(trimmed_widths(ws, cap_for(ws, budget)));
    if used < budget {
        (budget - used) as nat
    } else {
        0
    }
}

/// The width of column `i` after trimming: one cell more than the cap if the
/// column was clipped and is among the first that the slack reaches.
pub open spec fn fitted_width(ws: Seq<usize>, budget: nat, i: int) -> int {
    let cap = cap_for(ws, budget);
    trimmed_width(ws[i], cap) + if ws[i] > cap && clipped(ws, cap, i) < slack_for(ws, budget) {
        1int
    } else {
        0int
    }
}

/// The widths fitted into `budget`: as they are where they fit, or else with the
/// widest ones trimmed to a common cap.
pub open spec fn fitted(ws: Seq<usize>, budget: nat) -> Seq<usize> {
    if total(ws) <= budget {
        ws
    } else {
        Seq::new(ws.len(), |i: int| fitted_width(ws, budget, i) as usize)
    }
}

proof fn lemma_total_bound(ws: Seq<usize>)
    ensures
        total(ws) <= ws.len() * usize::MAX,
    decreases ws.len(),
{
    if ws.len() > 0 {
        lemma_total_bound(ws.drop_last());
        assert(ws.len() * usize::MAX == (ws.len() - 1) * usize::MAX + usize::MAX)
            by (nonlinear_arith);
    }
}

/// The sum of as many widths as memory can hold fits into 128 bits.
proof fn lemma_total_fits(ws: Seq<usize>)
    requires
        ws.len() <= usize::MAX,
    ensures
        total(ws) <= u128::MAX,
{
    lemma_total_bound(ws);
    let n = ws.len() as int;
    let m = usize::MAX as int;
    assert(n * m <= 0xffff_ffff_ffff_ffff * 0xffff_ffff_ffff_ffff) by (nonlinear_arith)
        requires
            0 <= n <= m,
            m <= 0xffff_ffff_ffff_ffff,
    ;
}

pub proof fn lemma_total_prefix(ws: Seq<usize>, i: int)
    requires
        0 <= i <= ws.len(),
    ensures
        total(ws.take(i)) <= total(ws),
        i < ws.len() ==> total(ws.take(i + 1)) == total(ws.take(i)) + ws[i],
    decreases ws.len(),
{
    if i < ws.len() {
        assert(ws.take(i + 1).drop_last() =~= ws.take(i));
        assert(ws.drop_last().take(i) =~= ws.take(i));
        lemma_total_prefix(ws.drop_last(), i);
    } else {
        assert(ws.take(i) =~= ws);
    }
}

/// Sums of pairwise ordered widths are ordered.
proof fn lemma_total_monotone(a: Seq<usize>, b: Seq<usize>)
    requires
        a.len() == b.len(),
        forall|i: int| 0 <= i < a.len() ==> #[trigger] a[i] <= b[i],
    ensures
        total(a) <= total(b),
    decreases a.len(),
{
    if a.len() > 0 {
        lemma_total_monotone(a.drop_last(), b.drop_last());
    }
}

/// A greater cap leaves no column narrower.
proof fn lemma_cap_monotone(ws: Seq<usize>, low: usize, high: usize)
    requires
        low <= high,
    ensures
        total(trimmed_widths(ws, low)) <= total(trimmed_widths(ws, high)),
{
    lemma_total_monotone(trimmed_widths(ws, low), trimmed_widths(ws, high));
}

/// A cap that fits, or is the minimum, below caps that do not fit is the best.
proof fn lemma_best_cap(ws: Seq<usize>, budget: nat, cap: usize, hi: usize)
    requires
        cap >= MIN_COL_WIDTH,
        hi >= cap || cap == MIN_COL_WIDTH,
        cap == MIN_COL_WIDTH || total(trimmed_widths(ws, cap)) <= budget,
        forall|c: usize| cap < c <= hi ==> total(#[trigger] trimmed_widths(ws, c)) > budget,
    ensures
        best_cap(ws, budget, hi) == cap,
    decreases hi,
{
    if hi > cap {
        assert(total(trimmed_widths(ws, hi)) > budget);
        lemma_best_cap(ws, budget, cap, (hi - 1) as usize);
    }
}

/// The sum of the widths.
fn sum_widths(ws: &Vec<usize>) -> (r: u128)
    ensures
        r == total(ws@),
{
    let n: usize = ws.len();
    let mut r: u128 = 0;
    let mut i: usize = 0;
    proof {
        lemma_total_fits(ws@);
    }
    while i < n
        invariant
            0 <= i <= n == ws@.len(),
            r == total(ws@.take(i as int)),
            total(ws@) <= u128::MAX,
        decreases n - i,
    {
        proof {
            lemma_total_prefix(ws@, i as int);
            lemma_total_prefix(ws@, i + 1);
        }
        r += ws[i] as u128;
        i += 1;
    }
    assert(ws@.take(n as int) =~= ws@);
    r
}

/// A width trimmed to `cap`, but no narrower than the minimum.
fn trim_width(w: usize, cap: usize) -> (r: usize)
    ensures
        r == trimmed_width(w, cap),
{
    let low: usize = if w < cap {
        w
    } else {
        cap
    };
    if low < MIN_COL_WIDTH {
        MIN_COL_WIDTH
    } else {
        low
    }
}

/// All widths trimmed to `cap`.
fn trim_widths(ws: &Vec<usize>, cap: usize) -> (r: Vec<usize>)
    ensures
        r@ == trimmed_widths(ws@, cap),
{
    let mut r: Vec<usize> = Vec::new();
    let mut i: usize = 0;
    while i < ws.len()
        invariant
            0 <= i <= ws@.len(),
            r@ == trimmed_widths(ws@, cap).take(i as int),
        decreases ws@.len() - i,
    {
        r.push(trim_width(ws[i], cap));
        i += 1;
        assert(r@ =~= trimmed_widths(ws@, cap).take(i as int));
    }
    assert(trimmed_widths(ws@, cap).take(i as int) =~= trimmed_widths(ws@, cap));
    r
}

/// The greatest of the widths.
fn find_widest(ws: &Vec<usize>) -> (r: usize)
    ensures
        r == widest(ws@),
{
    let mut r: usize = 0;
    let mut i: usize = 0;
    while i < ws.len()
        invariant
            0 <= i <= ws@.len(),
            r == widest(ws@.take(i as int)),
        decreases ws@.len() - i,
    {
        assert(ws@.take(i + 1).drop_last() =~= ws@.take(i as int));
        if ws[i] > r {
            r = ws[i];
        }
        i += 1;
    }
    assert(ws@.take(i as int) =~= ws@);
    r
}

/// The greatest cap where trimming every column to it fits into `budget`, found
/// by bisection; the minimum width where none fits.
fn find_cap(ws: &Vec<usize>, budget: usize) -> (r: usize)
    ensures
        r == cap_for(ws@, budget as nat),
        r >= MIN_COL_WIDTH,
{
    let top = find_widest(ws);
    let mut lo: usize = MIN_COL_WIDTH;
    let mut hi: usize = top;
    while lo < hi
        invariant
            lo >= MIN_COL_WIDTH,
            hi <= top,
            hi >= lo || lo == MIN_COL_WIDTH,
            lo == MIN_COL_WIDTH || total(trimmed_widths(ws@, lo)) <= budget,
            forall|c: usize|
                hi < c <= top ==> total(#[trigger] trimmed_widths(ws@, c)) > budget,
        decreases hi - lo,
    {
        let mid: usize = hi - (hi - lo) / 2;
        if sum_widths(&trim_widths(ws, mid)) <= budget as u128 {
            lo = mid;
        } else {
            proof {
                assert forall|c: usize| mid - 1 < c <= top implies total(
                    #[trigger] trimmed_widths(ws@, c),
                ) > budget by {
                    lemma_cap_monotone(ws@, mid, c);
                }
            }
            hi = mid - 1;
        }
    }
    proof {
        lemma_best_cap(ws@, budget as nat, lo, top);
    }
    lo
}

/// Fit columns into `budget` by capping the widest ones, not by scaling all.
///
/// Scaling every column by the same ratio takes the same *fraction* from each,
/// which in cell terms means a 4-wide column loses almost nothing in absolute
/// space while being crushed past readability, and a 75-wide column keeps most
/// of its surplus. A two-character `ID` header ends up stacked vertically next
/// to a `Description` column that is still 64 cells wide.
///
/// Instead, find the largest cap where trimming every column to it fits, which
/// takes space only from columns above the cap. Narrow columns are untouched
/// until every wider one has come down to their size. What an integral cap
/// leaves over goes back, one cell each, to the columns that were clipped.
pub fn fit_columns_to_budget(col_widths: &mut Vec<usize>, budget: usize)
    ensures
        final(col_widths)@ == fitted(old(col_widths)@, budget as nat),
{
    let ghost ws = col_widths@;
    if sum_widths(col_widths) <= budget as u128 {
        return;
    }
    let cap = find_cap(col_widths, budget);
    let mut widths = trim_widths(col_widths, cap);
    let used = sum_widths(&widths);
    let mut slack: usize = if used < budget as u128 {
        budget - used as usize
    } else {
        0
    };
    let ghost all = slack as int;
    let mut i: usize = 0;
    while i < widths.len()
        invariant
            0 <= i <= widths@.len() == ws.len(),
            col_widths@ == ws,
            cap == cap_for(ws, budget as nat),
            all == slack_for(ws, budget as nat),
            cap >= MIN_COL_WIDTH,
            slack == if clipped(ws, cap, i as int) < all {
                all - clipped(ws, cap, i as int)
            } else {
                0
            },
            forall|j: int| 0 <= j < i ==> #[trigger] widths@[j] == fitted_width(ws, budget as nat, j),
            forall|j: int| i <= j < ws.len() ==> #[trigger] widths@[j] == trimmed_width(ws[j], cap),
        decreases widths@.len() - i,
    {
        if slack > 0 && col_widths[i] > cap {
            let wider: usize = widths[i] + 1;
            widths.set(i, wider);
            slack -= 1;
        }
        i += 1;
    }
    assert(widths@ =~= fitted(ws, budget as nat));
    *col_widths = widths;
}

// ---------- what fitting guarantees ----------

proof fn lemma_all_minimum(ws: Seq<usize>)
    ensures
        total(trimmed_widths(ws, MIN_COL_WIDTH)) == MIN_COL_WIDTH * ws.len(),
    decreases ws.len(),
{
    if ws.len() > 0 {
        lemma_all_minimum(ws.drop_last());
        assert(trimmed_widths(ws, MIN_COL_WIDTH).drop_last() =~= trimmed_widths(
            ws.drop_last(),
            MIN_COL_WIDTH,
        ));
    }
}

/// The best cap fits where the minimum does.
proof fn lemma_cap_fits(ws: Seq<usize>, budget: nat, hi: usize)
    requires
        MIN_COL_WIDTH * ws.len() <= budget,
    ensures
        best_cap(ws, budget, hi) >= MIN_COL_WIDTH,
        total(trimmed_widths(ws, best_cap(ws, budget, hi))) <= budget,
    decreases hi,
{
    lemma_all_minimum(ws);
    if hi > MIN_COL_WIDTH && total(trimmed_widths(ws, hi)) > budget {
        lemma_cap_fits(ws, budget, (hi - 1) as usize);
    }
}

proof fn lemma_cap_at_least_minimum(ws: Seq<usize>, budget: nat, hi: usize)
    ensures
        best_cap(ws, budget, hi) >= MIN_COL_WIDTH,
        best_cap(ws, budget, hi) == MIN_COL_WIDTH || best_cap(ws, budget, hi) <= hi,
        forall|c: usize|
            best_cap(ws, budget, hi) < c <= hi ==> total(#[trigger] trimmed_widths(ws, c))
                > budget,
    decreases hi,
{
    if hi > MIN_COL_WIDTH && total(trimmed_widths(ws, hi)) > budget {
        lemma_cap_at_least_minimum(ws, budget, (hi - 1) as usize);
    }
}

/// The fitted widths of the first `n` columns are the trimmed ones and the slack
/// handed out so far.
proof fn lemma_fitted_prefix(ws: Seq<usize>, budget: nat, n: int)
    requires
        0 <= n <= ws.len(),
        total(ws) > budget,
    ensures
        ({
            let cap = cap_for(ws, budget);
            let slack = slack_for(ws, budget);
            let given = clipped(ws, cap, n);
            total(fitted(ws, budget).take(n)) == total(trimmed_widths(ws, cap).take(n)) + if given
                < slack {
                given
            } else {
                slack
            }
        }),
    decreases n,
{
    let all = fitted(ws, budget);
    let cap = cap_for(ws, budget);
    let trimmed = trimmed_widths(ws, cap);
    lemma_cap_at_least_minimum(ws, budget, widest(ws));
    if n == 0 {
        assert(all.take(0) =~= Seq::empty());
        assert(trimmed.take(0) =~= Seq::empty());
    } else {
        lemma_fitted_prefix(ws, budget, n - 1);
        lemma_total_prefix(all, n - 1);
        lemma_total_prefix(trimmed, n - 1);
        assert(trimmed[n - 1] == trimmed_width(ws[n - 1], cap));
        assert(fitted_width(ws, budget, n - 1) <= usize::MAX);
    }
}

/// No fitted column is narrower than the minimum.
pub proof fn lemma_fitted_width_bounds(ws: Seq<usize>, budget: nat, i: int)
    requires
        total(ws) > budget,
        0 <= i < ws.len(),
    ensures
        fitted(ws, budget)[i] >= MIN_COL_WIDTH,
{
    assert(fitted_width(ws, budget, i) <= usize::MAX);
}

/// Shrinking never exceeds the budget, wherever a table of minimum width does
/// not.
pub proof fn law_fitted_columns_fit(ws: Seq<usize>, budget: nat)
    requires
        MIN_COL_WIDTH * ws.len() <= budget,
    ensures
        fitted(ws, budget).len() == ws.len(),
        total(fitted(ws, budget)) <= budget,
{
    if total(ws) > budget {
        lemma_cap_fits(ws, budget, widest(ws));
        lemma_fitted_prefix(ws, budget, ws.len() as int);
        let n = ws.len() as int;
        assert(fitted(ws, budget).take(n) =~= fitted(ws, budget));
        assert(trimmed_widths(ws, cap_for(ws, budget)).take(n) =~= trimmed_widths(
            ws,
            cap_for(ws, budget),
        ));
    }
}

/// One step of the cap adds a cell to each column above it.
proof fn lemma_next_cap(ws: Seq<usize>, cap: usize)
    requires
        MIN_COL_WIDTH <= cap < usize::MAX,
    ensures
        total(trimmed_widths(ws, (cap + 1) as usize)) == total(trimmed_widths(ws, cap)) + clipped(
            ws,
            cap,
            ws.len() as int,
        ),
    decreases ws.len(),
{
    let next = (cap + 1) as usize;
    if ws.len() > 0 {
        lemma_next_cap(ws.drop_last(), cap);
        assert(trimmed_widths(ws, next).drop_last() =~= trimmed_widths(ws.drop_last(), next));
        assert(trimmed_widths(ws, cap).drop_last() =~= trimmed_widths(ws.drop_last(), cap));
        lemma_clipped_prefix(ws, cap, ws.len() - 1);
    }
}

proof fn lemma_clipped_prefix(ws: Seq<usize>, cap: usize, n: int)
    requires
        0 <= n < ws.len(),
    ensures
        clipped(ws.drop_last(), cap, n) == clipped(ws, cap, n),
    decreases n,
{
    if n > 0 {
        lemma_clipped_prefix(ws, cap, n - 1);
    }
}

proof fn lemma_widest(ws: Seq<usize>)
    ensures
        forall|i: int| 0 <= i < ws.len() ==> #[trigger] ws[i] <= widest(ws),
    decreases ws.len(),
{
    if ws.len() > 0 {
        lemma_widest(ws.drop_last());
        assert forall|i: int| 0 <= i < ws.len() implies #[trigger] ws[i] <= widest(ws) by {
            if i < ws.len() - 1 {
                assert(ws[i] == ws.drop_last()[i]);
            }
        }
    }
}

/// No space is wasted: columns that have to shrink, and can, fill the budget to
/// the last cell.
pub proof fn law_shrunk_columns_fill_the_budget(ws: Seq<usize>, budget: nat)
    requires
        MIN_COL_WIDTH * ws.len() <= budget < total(ws),
    ensures
        total(fitted(ws, budget)) == budget,
{
    let cap = cap_for(ws, budget);
    let top = widest(ws);
    let n = ws.len() as int;
    lemma_cap_fits(ws, budget, top);
    lemma_cap_at_least_minimum(ws, budget, top);
    lemma_widest(ws);
    // At the widest column nothing is trimmed, so the cap lies below it.
    assert(cap < top) by {
        if cap >= top {
            lemma_total_monotone(ws, trimmed_widths(ws, cap));
        }
    }
    lemma_next_cap(ws, cap);
    assert(total(trimmed_widths(ws, (cap + 1) as usize)) > budget);
    lemma_fitted_prefix(ws, budget, n);
    assert(fitted(ws, budget).take(n) =~= fitted(ws, budget));
    assert(trimmed_widths(ws, cap).take(n) =~= trimmed_widths(ws, cap));
}

/// Space is taken from the widest columns only: a column that has lost space is
/// at most one cell narrower than any other, and none grows or falls below the
/// minimum.
pub proof fn law_narrow_columns_are_spared(ws: Seq<usize>, budget: nat)
    requires
        forall|i: int| 0 <= i < ws.len() ==> #[trigger] ws[i] >= MIN_COL_WIDTH,
    ensures
        forall|i: int|
            0 <= i < ws.len() ==> MIN_COL_WIDTH <= #[trigger] fitted(ws, budget)[i] <= ws[i],
        forall|i: int, j: int|
            0 <= i < ws.len() && 0 <= j < ws.len() && fitted(ws, budget)[i] < ws[i]
                ==> #[trigger] fitted(ws, budget)[j] <= #[trigger] fitted(ws, budget)[i] + 1,
{
    lemma_cap_at_least_minimum(ws, budget, widest(ws));
    if total(ws) > budget {
        assert forall|i: int| 0 <= i < ws.len() implies #[trigger] fitted(ws, budget)[i]
            == fitted_width(ws, budget, i) by {}
    }
}

/// Columns for which even the minimum is too wide are all as narrow as that.
pub proof fn law_columns_without_room_are_minimal(ws: Seq<usize>, budget: nat, i: int)
    requires
        budget < total(ws),
        budget < 3 * ws.len(),
        0 <= i < ws.len(),
    ensures
        fitted(ws, budget)[i] == 3,
{
    lemma_no_cap_fits(ws, budget, widest(ws));
    lemma_all_minimum(ws);
    assert(fitted(ws, budget)[i] == fitted_width(ws, budget, i) as usize);
}

proof fn lemma_no_cap_fits(ws: Seq<usize>, budget: nat, hi: usize)
    requires
        budget < MIN_COL_WIDTH * ws.len(),
    ensures
        best_cap(ws, budget, hi) == MIN_COL_WIDTH,
    decreases hi,
{
    if hi > MIN_COL_WIDTH {
        lemma_all_minimum(ws);
        lemma_cap_monotone(ws, MIN_COL_WIDTH, hi);
        lemma_no_cap_fits(ws, budget, (hi - 1) as usize);
    }
}

proof fn lemma_clipped_grows(ws: Seq<usize>, cap: usize, i: int, j: int)
    requires
        0 <= i <= j <= ws.len(),
    ensures
        clipped(ws, cap, i) <= clipped(ws, cap, j),
    decreases j,
{
    if i < j {
        lemma_clipped_grows(ws, cap, i, j - 1);
    }
}

/// What is left over goes to the first columns that had to shrink: a column that
/// is narrower than a later one has its own width.
pub proof fn law_earlier_columns_are_served_first(ws: Seq<usize>, budget: nat, i: int, j: int)
    requires
        forall|c: int| 0 <= c < ws.len() ==> #[trigger] ws[c] >= 3,
        0 <= i < j < ws.len(),
        fitted(ws, budget)[i] < fitted(ws, budget)[j],
    ensures
        fitted(ws, budget)[i] == ws[i],
{
    let cap = cap_for(ws, budget);
    lemma_cap_at_least_minimum(ws, budget, widest(ws));
    lemma_clipped_grows(ws, cap, i, j);
    if total(ws) > budget {
        assert(fitted(ws, budget)[i] == fitted_width(ws, budget, i));
        assert(fitted(ws, budget)[j] == fitted_width(ws, budget, j));
    }
}

/// Columns that fit stay as they are.
pub proof fn law_columns_that_fit_are_kept(ws: Seq<usize>, budget: nat)
    requires
        total(ws) <= budget,
    ensures
        fitted(ws, budget) == ws,
{
}

/// The sum of the widths is that of the first ones and the others.
pub proof fn law_totals_add_up(a: Seq<usize>, b: Seq<usize>, w: usize)
    ensures
        total(seq![w]) == w,
        total(a + b) == total(a) + total(b),
    decreases b.len(),
{
    assert(seq![w].drop_last() =~= Seq::empty());
    assert(total(seq![w].drop_last()) == 0);
    if b.len() == 0 {
        assert(a + b =~= a);
    } else {
        law_totals_add_up(a, b.drop_last(), w);
        assert((a + b).drop_last() =~= a + b.drop_last());
    }
}

// ---------- natural column widths ----------

/// The width of a text, as far as it can be counted.
pub open spec fn width_of(s: Seq<char>) -> nat {
    capped(text_cells(s))
}

/// The widths of column `i` in the first `count` rows, added up; a row may be
/// too short to have a cell there.
pub open spec fn column_total(rows: Seq<Vec<String>>, i: int, count: nat) -> nat
    decreases count,
{
    if count == 0 {
        0
    } else {
        column_total(rows, i, (count - 1) as nat) + if i < rows[count - 1]@.len() {
            width_of(rows[count - 1]@[i]@)
        } else {
            0
        }
    }
}

/// The number of cells that column `i` has in the first `count` rows.
pub open spec fn column_cells(rows: Seq<Vec<String>>, i: int, count: nat) -> nat
    decreases count,
{
    if count == 0 {
        0
    } else {
        column_cells(rows, i, (count - 1) as nat) + if i < rows[count - 1]@.len() {
            1nat
        } else {
            0nat
        }
    }
}

/// The greatest width of column `i` in the first `count` rows.
pub open spec fn column_max(rows: Seq<Vec<String>>, i: int, count: nat) -> nat
    decreases count,
{
    if count == 0 {
        0
    } else {
        let before = column_max(rows, i, (count - 1) as nat);
        if i < rows[count - 1]@.len() && width_of(rows[count - 1]@[i]@) > before {
            width_of(rows[count - 1]@[i]@)
        } else {
            before
        }
    }
}

/// Seven parts of the average width and three parts of the greatest, so that a
/// single outlier does not decide; zero for a column without cells.
pub open spec fn blended_width(rows: Seq<Vec<String>>, i: int) -> nat {
    let n = rows.len();
    if column_cells(rows, i, n) == 0 {
        0
    } else {
        (column_total(rows, i, n) / column_cells(rows, i, n) * 7 + column_max(rows, i, n) * 3) / 10
    }
}

/// The natural width of column `i`: its blended width, but no less than its
/// header's and no less than one.
pub open spec fn column_width(headers: Seq<String>, rows: Seq<Vec<String>>, i: int) -> nat {
    let blended = blended_width(rows, i);
    let header = width_of(headers[i]@);
    let wider = if blended > header {
        blended
    } else {
        header
    };
    if wider > 1 {
        wider
    } else {
        1
    }
}

/// Bounds on what is counted of a column.
proof fn lemma_column_bounds(rows: Seq<Vec<String>>, i: int, count: nat)
    ensures
        column_cells(rows, i, count) <= count,
        column_max(rows, i, count) <= usize::MAX,
        column_total(rows, i, count) <= column_cells(rows, i, count) * column_max(rows, i, count),
    decreases count,
{
    if count > 0 {
        let n = (count - 1) as nat;
        lemma_column_bounds(rows, i, n);
        let cells0 = column_cells(rows, i, n) as int;
        let max0 = column_max(rows, i, n) as int;
        let max1 = column_max(rows, i, count) as int;
        assert(cells0 * max0 <= cells0 * max1) by (nonlinear_arith)
            requires
                0 <= cells0,
                max0 <= max1,
        ;
        assert((cells0 + 1) * max1 == cells0 * max1 + max1) by (nonlinear_arith);
    }
}

/// A product of two values that fit into `usize` fits into 128 bits.
proof fn lemma_product_fits(a: int, b: int)
    requires
        0 <= a <= usize::MAX,
        0 <= b <= usize::MAX,
    ensures
        a * b <= u128::MAX,
{
    assert(a * b <= 0xffff_ffff_ffff_ffff * 0xffff_ffff_ffff_ffff) by (nonlinear_arith)
        requires
            0 <= a <= 0xffff_ffff_ffff_ffff,
            0 <= b <= 0xffff_ffff_ffff_ffff,
    ;
}

/// The blended width is no greater than the greatest width.
proof fn lemma_blended_bound(rows: Seq<Vec<String>>, i: int)
    ensures
        blended_width(rows, i) <= column_max(rows, i, rows.len()) <= usize::MAX,
        column_cells(rows, i, rows.len()) > 0 ==> column_total(rows, i, rows.len()) / column_cells(
            rows,
            i,
            rows.len(),
        ) <= column_max(rows, i, rows.len()),
{
    let n = rows.len();
    lemma_column_bounds(rows, i, n);
    let cells = column_cells(rows, i, n) as int;
    let sum = column_total(rows, i, n) as int;
    let max = column_max(rows, i, n) as int;
    if cells > 0 {
        assert(sum / cells <= max) by (nonlinear_arith)
            requires
                cells > 0,
                0 <= sum <= cells * max,
        ;
    }
}

/// A column is at least as wide as its header and at least one cell wide, and no
/// wider than its header, its widest cell or that one cell.
pub proof fn law_column_holds_its_header(headers: Seq<String>, rows: Seq<Vec<String>>, i: int)
    ensures
        column_width(headers, rows, i) >= width_of(headers[i]@),
        column_width(headers, rows, i) >= 1,
        column_width(headers, rows, i) <= 1 || column_width(headers, rows, i) <= width_of(
            headers[i]@,
        ) || column_width(headers, rows, i) <= column_max(rows, i, rows.len()),
{
    lemma_blended_bound(rows, i);
}

/// The width of a text is the number of its cells, as long as that can be
/// counted.
pub proof fn law_width_counts_the_cells(s: Seq<char>)
    ensures
        text_cells(s) <= usize::MAX ==> width_of(s) == text_cells(s),
        text_cells(s) > usize::MAX ==> width_of(s) == usize::MAX,
{
}

/// The texts in column `i`, from the top; a row that is too short has none.
pub open spec fn column_texts(rows: Seq<Vec<String>>, i: int) -> Seq<Seq<char>>
    decreases rows.len(),
{
    if rows.len() == 0 {
        Seq::empty()
    } else if i < rows[0]@.len() {
        seq![rows[0]@[i]@] + column_texts(rows.drop_first(), i)
    } else {
        column_texts(rows.drop_first(), i)
    }
}

/// The widths of the texts, added up.
pub open spec fn sum_of_widths(texts: Seq<Seq<char>>) -> nat
    decreases texts.len(),
{
    if texts.len() == 0 {
        0
    } else {
        width_of(texts[0]) + sum_of_widths(texts.drop_first())
    }
}

proof fn lemma_sum_of_widths_push(texts: Seq<Seq<char>>, text: Seq<char>)
    ensures
        sum_of_widths(texts.push(text)) == sum_of_widths(texts) + width_of(text),
    decreases texts.len(),
{
    let longer = texts.push(text);
    if texts.len() == 0 {
        assert(longer.drop_first() =~= Seq::empty());
        assert(sum_of_widths(longer.drop_first()) == 0);
    } else {
        assert(longer.drop_first() =~= texts.drop_first().push(text));
        lemma_sum_of_widths_push(texts.drop_first(), text);
    }
}

proof fn lemma_column_texts_push(rows: Seq<Vec<String>>, row: Vec<String>, i: int)
    ensures
        column_texts(rows.push(row), i) == if i < row@.len() {
            column_texts(rows, i).push(row@[i]@)
        } else {
            column_texts(rows, i)
        },
    decreases rows.len(),
{
    let longer = rows.push(row);
    if rows.len() == 0 {
        assert(longer.drop_first() =~= Seq::empty());
        assert(column_texts(longer.drop_first(), i) =~= Seq::empty());
    } else {
        assert(longer.drop_first() =~= rows.drop_first().push(row));
        lemma_column_texts_push(rows.drop_first(), row, i);
    }
    assert(column_texts(longer, i) =~= if i < row@.len() {
        column_texts(rows, i).push(row@[i]@)
    } else {
        column_texts(rows, i)
    });
}

/// What is counted of a column is counted over its texts.
proof fn lemma_column_counts(rows: Seq<Vec<String>>, i: int, count: nat)
    requires
        count <= rows.len(),
    ensures
        ({
            let texts = column_texts(rows.take(count as int), i);
            &&& column_cells(rows, i, count) == texts.len()
            &&& column_total(rows, i, count) == sum_of_widths(texts)
            &&& forall|j: int|
                0 <= j < texts.len() ==> width_of(#[trigger] texts[j]) <= column_max(rows, i, count)
            &&& texts.len() > 0 ==> exists|j: int|
                0 <= j < texts.len() && width_of(#[trigger] texts[j]) == column_max(rows, i, count)
        }),
    decreases count,
{
    if count == 0 {
        assert(rows.take(0) =~= Seq::empty());
    } else {
        let n = (count - 1) as nat;
        let before = column_texts(rows.take(n as int), i);
        let texts = column_texts(rows.take(count as int), i);
        let row = rows[n as int];
        lemma_column_counts(rows, i, n);
        assert(rows.take(count as int) =~= rows.take(n as int).push(row));
        lemma_column_texts_push(rows.take(n as int), row, i);
        if i < row@.len() {
            lemma_sum_of_widths_push(before, row@[i]@);
            assert forall|j: int| 0 <= j < texts.len() implies width_of(#[trigger] texts[j])
                <= column_max(rows, i, count) by {
                if j < before.len() {
                    assert(texts[j] == before[j]);
                }
            }
            if width_of(row@[i]@) >= column_max(rows, i, n) {
                assert(width_of(texts[before.len() as int]) == column_max(rows, i, count));
            } else if before.len() > 0 {
                let j = choose|j: int|
                    0 <= j < before.len() && width_of(#[trigger] before[j]) == column_max(
                        rows,
                        i,
                        n,
                    );
                assert(texts[j] == before[j]);
            } else {
                lemma_empty_column(rows, i, n);
            }
        }
    }
}

proof fn lemma_empty_column(rows: Seq<Vec<String>>, i: int, count: nat)
    requires
        column_cells(rows, i, count) == 0,
    ensures
        column_max(rows, i, count) == 0,
    decreases count,
{
    if count > 0 {
        lemma_empty_column(rows, i, (count - 1) as nat);
    }
}

/// The width of a column is the greatest of three: one cell, its header, and a
/// blend of seven tenths of the average width of its texts and three tenths of
/// the greatest, which a column without texts has not. The average and the blend
/// are rounded down.
pub proof fn law_column_width_blends_average_and_greatest(
    headers: Seq<String>,
    rows: Seq<Vec<String>>,
    i: int,
) -> (r: (int, int, int))
    ensures
        ({
            let texts = column_texts(rows, i);
            let (average, greatest, blend) = r;
            let width = column_width(headers, rows, i) as int;
            &&& width >= 1 && width >= width_of(headers[i]@) && width >= blend
            &&& width == 1 || width == width_of(headers[i]@) || width == blend
            &&& texts.len() == 0 ==> blend == 0
            &&& texts.len() > 0 ==> {
                &&& average * texts.len() <= sum_of_widths(texts) < average * texts.len()
                    + texts.len()
                &&& forall|j: int|
                    0 <= j < texts.len() ==> width_of(#[trigger] texts[j]) <= greatest
                &&& exists|j: int|
                    0 <= j < texts.len() && width_of(#[trigger] texts[j]) == greatest
                &&& 10 * blend <= 7 * average + 3 * greatest < 10 * blend + 10
            }
        }),
{
    let n = rows.len();
    lemma_column_counts(rows, i, n);
    assert(rows.take(n as int) =~= rows);
    let count = column_cells(rows, i, n) as int;
    let sum = column_total(rows, i, n) as int;
    let greatest = column_max(rows, i, n) as int;
    let blend = blended_width(rows, i) as int;
    let average = if count > 0 {
        sum / count
    } else {
        0
    };
    if count > 0 {
        assert(average * count <= sum < average * count + count) by (nonlinear_arith)
            requires
                count > 0,
                average == sum / count,
        ;
    }
    (average, greatest, blend)
}

/// The natural width of column `i`.
fn measure_column(headers: &[String], rows: &[Vec<String>], i: usize) -> (r: usize)
    requires
        i < headers@.len(),
    ensures
        r == column_width(headers@, rows@, i as int),
{
    let n: usize = rows.len();
    let mut sum: u128 = 0;
    let mut count: usize = 0;
    let mut max: usize = 0;
    let mut k: usize = 0;
    while k < n
        invariant
            0 <= k <= n == rows@.len(),
            sum == column_total(rows@, i as int, k as nat),
            count == column_cells(rows@, i as int, k as nat),
            count <= k,
            max == column_max(rows@, i as int, k as nat),
        decreases n - k,
    {
        let row = &rows[k];
        proof {
            lemma_column_bounds(rows@, i as int, (k + 1) as nat);
            lemma_product_fits(
                column_cells(rows@, i as int, (k + 1) as nat) as int,
                column_max(rows@, i as int, (k + 1) as nat) as int,
            );
        }
        if i < row.len() {
            let width = terminal_width(row[i].as_str());
            sum += width as u128;
            count += 1;
            if width > max {
                max = width;
            }
        }
        k += 1;
    }
    proof {
        lemma_blended_bound(rows@, i as int);
    }
    let mut width: usize = 0;
    if count > 0 {
        let average: u128 = sum / count as u128;
        width = ((average * 7 + max as u128 * 3) / 10) as usize;
    }
    let header = terminal_width(headers[i].as_str());
    if header > width {
        width = header;
    }
    if width > 1 {
        width
    } else {
        1
    }
}

/// Calculate column widths using content-weighted area approach
///
/// Instead of using max cell width, use average cell width weighted by content.
/// This gives fairer distribution when one column has a single outlier value.
pub fn calculate_column_widths(headers: &[String], rows: &[Vec<String>]) -> (r: Vec<usize>)
    ensures
        r@.len() == headers@.len(),
        forall|i: int|
            0 <= i < headers@.len() ==> #[trigger] r@[i] == column_width(headers@, rows@, i),
{
    let mut widths: Vec<usize> = Vec::new();
    let mut i: usize = 0;
    while i < headers.len()
        invariant
            0 <= i <= headers@.len(),
            widths@.len() == i,
            forall|j: int|
                0 <= j < i ==> #[trigger] widths@[j] == column_width(headers@, rows@, j),
        decreases headers@.len() - i,
    {
        widths.push(measure_column(headers, rows, i));
        i += 1;
    }
    widths
}

} // verus!
