//! The numbers of a report: percentages of the total, proportional bars and
//! human-readable sizes of the selected groups.
use vstd::prelude::*;
use crate::group::{Group, Totals};

verus! {

/// Width of a bar, in cells.
pub const BAR_WIDTH: u64 = 20;

/// What `humansize::format_size` with the binary options renders for `n`.
pub uninterp spec fn binary_size_text(n: u64) -> Seq<char>;

/// Relies on `humansize::format_size` with `humansize::BINARY`: a
/// human-readable size in powers of 1024, a function of the count alone.
#[verifier::external_body]
fn human_size(n: u64) -> (r: String)
    ensures
        r@ == binary_size_text(n),
{
    humansize::format_size(n, humansize::BINARY)
}

/// `size / total` as a percentage in hundredths, rounded to the nearest
/// (halves up); 0 where `total` is 0.
pub open spec fn percent_of(size: nat, total: nat) -> nat {
    if total == 0 {
        0
    } else {
        (size * 20000 + total) / (2 * total)
    }
}

/// The filled cells of a bar of `width` cells for `size` against the largest
/// size `max`, rounded to the nearest (halves up); 0 where `max` is 0.
pub open spec fn filled_of(size: nat, max: nat, width: nat) -> nat {
    if max == 0 {
        0
    } else {
        (2 * size * width + max) / (2 * max)
    }
}

/// The share of `size` in `total`, in hundredths of a percent, rounded to
/// the nearest; 0 for an empty total.
pub fn percent_hundredths(size: u64, total: u64) -> (r: u128)
    ensures
        r == percent_of(size as nat, total as nat),
        total == 0 ==> r == 0,
        size <= total ==> r <= 10000,
{
    if total == 0 {
        return 0;
    }
    let s = size as u128;
    let t = total as u128;
    proof {
        assert(s * 20000 <= 18446744073709551615u128 * 20000) by (nonlinear_arith)
            requires
                s <= 18446744073709551615u128,
        ;
        if size <= total {
            assert((s * 20000 + t) / (2 * t) <= 10000) by (nonlinear_arith)
                requires
                    s <= t,
                    t > 0,
            ;
        }
    }
    (s * 20000 + t) / (2 * t)
}

/// The filled cells of a bar of `width` cells for `size`, where the largest
/// reported size `max` fills the whole bar.
pub fn bar_filled(size: u64, max: u64, width: u64) -> (r: u64)
    requires
        size <= max,
        width <= 1000,
    ensures
        r == filled_of(size as nat, max as nat, width as nat),
        r <= width,
{
    if max == 0 {
        return 0;
    }
    let s = size as u128;
    let m = max as u128;
    let w = width as u128;
    proof {
        assert(2 * s * w <= 2 * 18446744073709551615u128 * 1000) by (nonlinear_arith)
            requires
                s <= 18446744073709551615u128,
                w <= 1000,
        ;
        assert((2 * s * w + m) / (2 * m) <= w) by (nonlinear_arith)
            requires
                s <= m,
                m > 0,
        ;
    }
    ((2 * s * w + m) / (2 * m)) as u64
}

pub open spec fn repeat_char(c: char, n: nat) -> Seq<char> {
    Seq::new(n, |i: int| c)
}

/// A bar of `width` cells, the first `filled` of them full.
pub fn bar_text(filled: u64, width: u64) -> (r: String)
    requires
        filled <= width,
    ensures
        r@ == repeat_char('\u{2588}', filled as nat) + repeat_char('\u{2591}', (width - filled) as nat),
{
    let mut r = String::new();
    let mut i: u64 = 0;
    while i < width
        invariant
            filled <= width,
            i <= width,
            r@ == repeat_char('\u{2588}', if i < filled { i as nat } else { filled as nat })
                + repeat_char('\u{2591}', if i < filled { 0 } else { (i - filled) as nat }),
        decreases width - i,
    {
        proof {
            reveal_strlit("\u{2588}");
            reveal_strlit("\u{2591}");
        }
        if i < filled {
            r.append("\u{2588}");
        } else {
            r.append("\u{2591}");
        }
        i = i + 1;
        assert(r@ =~= repeat_char('\u{2588}', if i < filled { i as nat } else { filled as nat })
            + repeat_char('\u{2591}', if i < filled { 0 } else { (i - filled) as nat }));
    }
    r
}

/// One line of a report.
pub struct ReportRow {
    pub name: String,
    pub size: u64,
    pub size_human: String,
    pub file_count: u64,
    /// Share of the total size, in hundredths of a percent.
    pub percent_hundredths: u128,
    /// Filled cells of the bar, out of `BAR_WIDTH`.
    pub bar_filled: u64,
    pub bar: String,
}

/// The closing line of a report.
pub struct Summary {
    pub total_size: u64,
    pub total_size_human: String,
    pub total_files: u64,
    pub total_dirs: u64,
    pub shown: usize,
}

/// The rows of a report and its summary; no rows where no group was
/// selected.
pub struct Report {
    pub rows: Vec<ReportRow>,
    pub summary: Summary,
}

/// The largest size in `gs`, 0 for none.
pub open spec fn max_size(gs: Seq<Group>) -> nat
    decreases gs.len(),
{
    if gs.len() == 0 {
        0
    } else {
        let m = max_size(gs.drop_last());
        if gs.last().stats.size > m {
            gs.last().stats.size as nat
        } else {
            m
        }
    }
}

proof fn lemma_max_size_bounds(gs: Seq<Group>)
    ensures
        forall|i: int| 0 <= i < gs.len() ==> (#[trigger] gs[i]).stats.size <= max_size(gs),
        max_size(gs) <= u64::MAX,
    decreases gs.len(),
{
    if gs.len() > 0 {
        lemma_max_size_bounds(gs.drop_last());
        assert forall|i: int| 0 <= i < gs.len() implies (#[trigger] gs[i]).stats.size <= max_size(gs) by {
            if i < gs.len() - 1 {
                assert(gs[i] == gs.drop_last()[i]);
            }
        }
    }
}

/// What row `g` becomes against the totals and the largest reported size.
pub open spec fn row_matches(row: ReportRow, g: Group, total: u64, max: nat) -> bool {
    &&& row.name@ == g.key@
    &&& row.size == g.stats.size
    &&& row.size_human@ == binary_size_text(g.stats.size)
    &&& row.file_count == g.stats.file_count
    &&& row.percent_hundredths == percent_of(g.stats.size as nat, total as nat)
    &&& row.bar_filled == filled_of(g.stats.size as nat, max, BAR_WIDTH as nat)
    &&& row.bar@ == repeat_char('\u{2588}', row.bar_filled as nat) + repeat_char(
        '\u{2591}',
        (BAR_WIDTH - row.bar_filled) as nat,
    )
}

/// Builds the report of the selected groups: one row per group, in order,
/// whose bar is measured against the largest of them and whose percentage is
/// taken of the total size; the summary gives the totals and the number of
/// rows.
pub fn build_report(selected: &Vec<Group>, totals: Totals) -> (r: Report)
    ensures
        r.rows@.len() == selected@.len(),
        forall|i: int|
            0 <= i < selected@.len() ==> row_matches(
                #[trigger] r.rows@[i],
                selected@[i],
                totals.total_size,
                max_size(selected@),
            ),
        r.summary.total_size == totals.total_size,
        r.summary.total_size_human@ == binary_size_text(totals.total_size),
        r.summary.total_files == totals.total_files,
        r.summary.total_dirs == totals.total_dirs,
        r.summary.shown == selected@.len(),
{
    let mut max: u64 = 0;
    let mut i: usize = 0;
    while i < selected.len()
        invariant
            i <= selected@.len(),
            max == max_size(selected@.subrange(0, i as int)),
        decreases selected@.len() - i,
    {
        assert(selected@.subrange(0, i + 1).drop_last() =~= selected@.subrange(0, i as int));
        if selected[i].stats.size > max {
            max = selected[i].stats.size;
        }
        i = i + 1;
    }
    assert(selected@.subrange(0, i as int) =~= selected@);
    proof {
        lemma_max_size_bounds(selected@);
    }
    let mut rows: Vec<ReportRow> = Vec::new();
    let mut j: usize = 0;
    while j < selected.len()
        invariant
            j <= selected@.len(),
            max == max_size(selected@),
            forall|k: int| 0 <= k < selected@.len() ==> (#[trigger] selected@[k]).stats.size <= max,
            rows@.len() == j,
            forall|k: int|
                0 <= k < j ==> row_matches(#[trigger] rows@[k], selected@[k], totals.total_size, max as nat),
        decreases selected@.len() - j,
    {
        let g = &selected[j];
        let filled = bar_filled(g.stats.size, max, BAR_WIDTH);
        let row = ReportRow {
            name: g.key.clone(),
            size: g.stats.size,
            size_human: human_size(g.stats.size),
            file_count: g.stats.file_count,
            percent_hundredths: percent_hundredths(g.stats.size, totals.total_size),
            bar_filled: filled,
            bar: bar_text(filled, BAR_WIDTH),
        };
        rows.push(row);
        j = j + 1;
    }
    let summary = Summary {
        total_size: totals.total_size,
        total_size_human: human_size(totals.total_size),
        total_files: totals.total_files,
        total_dirs: totals.total_dirs,
        shown: rows.len(),
    };
    Report { rows, summary }
}

} // verus!
