//! Splitting of exported rows into CSV files that a spreadsheet can open.

use vstd::prelude::*;

verus! {

/// The most data rows of one CSV file (a spreadsheet's row limit less the
/// header).
pub const EXCEL_MAX_ROWS: usize = 1_048_575;

/// The rows of batches `0..b`.
pub open spec fn rows_before(rows: Seq<usize>, b: int) -> int
    decreases b,
{
    if b <= 0 {
        0
    } else {
        rows_before(rows, b - 1) + rows[b - 1]
    }
}

/// A run of rows of one batch that goes into one file.
#[derive(Debug, Clone, Copy)]
pub struct CsvSlice {
    pub file: usize,
    pub batch: usize,
    pub offset: usize,
    pub len: usize,
}

/// The position of the first row of `s` among all rows.
pub open spec fn slice_start(rows: Seq<usize>, s: CsvSlice) -> int {
    rows_before(rows, s.batch as int) + s.offset
}

/// `r` writes all rows, in order, as runs that each lie within one batch
/// and one file of `max` rows; a run ends where its batch or its file ends.
pub open spec fn csv_plan_fits(r: Seq<CsvSlice>, rows: Seq<usize>, max: int) -> bool {
    let total = rows_before(rows, rows.len() as int);
    &&& (r.len() == 0 <==> total == 0)
    &&& r.len() > 0 ==> slice_start(rows, r[0]) == 0 && slice_start(rows, r.last()) + r.last().len == total
    &&& forall|j: int| 0 <= j < r.len() ==> {
        let s = #[trigger] r[j];
        let g = slice_start(rows, s);
        &&& s.batch < rows.len()
        &&& s.len > 0
        &&& s.offset + s.len <= rows[s.batch as int]
        &&& s.file * max <= g
        &&& g + s.len <= (s.file + 1) * max
        &&& (s.offset + s.len == rows[s.batch as int] || g + s.len == (s.file + 1) * max)
    }
    &&& forall|j: int| 0 < j < r.len() ==> slice_start(rows, #[trigger] r[j]) == slice_start(rows, r[j - 1]) + r[j - 1].len
}

proof fn lemma_rows_before_mono(rows: Seq<usize>, a: int, b: int)
    requires
        0 <= a <= b <= rows.len(),
    ensures
        rows_before(rows, a) <= rows_before(rows, b),
    decreases b - a,
{
    if a < b {
        lemma_rows_before_mono(rows, a, b - 1);
    }
}

/// Splits rows held in batches of `batch_rows` rows into files of at most
/// `max_rows` rows, each file full but the last.
pub fn plan_csv_files(batch_rows: &Vec<usize>, max_rows: usize) -> (r: Vec<CsvSlice>)
    requires
        max_rows > 0,
        rows_before(batch_rows@, batch_rows.len() as int) <= usize::MAX,
    ensures
        csv_plan_fits(r@, batch_rows@, max_rows as int),
{
    let ghost rows = batch_rows@;
    let mut out: Vec<CsvSlice> = Vec::new();
    let mut file: usize = 0;
    let mut fill: usize = 0;
    let mut b: usize = 0;
    while b < batch_rows.len()
        invariant
            rows == batch_rows@,
            max_rows > 0,
            rows_before(rows, rows.len() as int) <= usize::MAX,
            0 <= b <= rows.len(),
            fill < max_rows,
            file * max_rows + fill == rows_before(rows, b as int),
            (out.len() == 0) <==> rows_before(rows, b as int) == 0,
            out.len() > 0 ==> slice_start(rows, out@[0]) == 0
                && slice_start(rows, out@.last()) + out@.last().len == rows_before(rows, b as int),
            forall|j: int| 0 <= j < out.len() ==> {
                let s = #[trigger] out@[j];
                let g = slice_start(rows, s);
                &&& s.batch < rows.len()
                &&& s.len > 0
                &&& s.offset + s.len <= rows[s.batch as int]
                &&& s.file * max_rows <= g
                &&& g + s.len <= (s.file + 1) * max_rows
                &&& (s.offset + s.len == rows[s.batch as int] || g + s.len == (s.file + 1) * max_rows)
            },
            forall|j: int| 0 < j < out.len() ==> slice_start(rows, #[trigger] out@[j]) == slice_start(rows, out@[j - 1]) + out@[j - 1].len,
        decreases rows.len() - b,
    {
        proof {
            lemma_rows_before_mono(rows, b + 1, rows.len() as int);
        }
        let n = batch_rows[b];
        let mut offset: usize = 0;
        while offset < n
            invariant
                rows == batch_rows@,
                max_rows > 0,
                b < rows.len(),
                n == rows[b as int],
                rows_before(rows, b + 1) <= usize::MAX,
                0 <= offset <= n,
                fill < max_rows,
                file * max_rows + fill == rows_before(rows, b as int) + offset,
                (out.len() == 0) <==> rows_before(rows, b as int) + offset == 0,
                out.len() > 0 ==> slice_start(rows, out@[0]) == 0
                    && slice_start(rows, out@.last()) + out@.last().len == rows_before(rows, b as int) + offset,
                forall|j: int| 0 <= j < out.len() ==> {
                    let s = #[trigger] out@[j];
                    let g = slice_start(rows, s);
                    &&& s.batch < rows.len()
                    &&& s.len > 0
                    &&& s.offset + s.len <= rows[s.batch as int]
                    &&& s.file * max_rows <= g
                    &&& g + s.len <= (s.file + 1) * max_rows
                    &&& (s.offset + s.len == rows[s.batch as int] || g + s.len == (s.file + 1) * max_rows)
                },
                forall|j: int| 0 < j < out.len() ==> slice_start(rows, #[trigger] out@[j]) == slice_start(rows, out@[j - 1]) + out@[j - 1].len,
            decreases n - offset,
        {
            let room: usize = max_rows - fill;
            let take: usize = if room < n - offset { room } else { n - offset };
            let s = CsvSlice { file, batch: b, offset, len: take };
            let ghost before = out@;
            out.push(s);
            proof {
                assert(out@.last() == s);
                assert forall|j: int| 0 < j < out.len() implies slice_start(rows, #[trigger] out@[j]) == slice_start(rows, out@[j - 1]) + out@[j - 1].len by {
                    if j < out.len() - 1 {
                        assert(out@[j] == before[j]);
                    }
                }
                assert((file + 1) * max_rows == file * max_rows + max_rows) by (nonlinear_arith);
            }
            offset = offset + take;
            if fill + take == max_rows {
                assert(file + 1 <= (file + 1) * max_rows) by (nonlinear_arith)
                    requires
                        max_rows >= 1;
                file = file + 1;
                fill = 0;
            } else {
                fill = fill + take;
            }
        }
        b = b + 1;
    }
    out
}

} // verus!
