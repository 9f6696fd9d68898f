use vstd::prelude::*;

verus! {

/// How many rows pass between two progress reports.
pub const REPORT_STEP: i32 = 100000;

/// The most rows a counter can count: one more row would carry the next report
/// threshold past `i32::MAX`.
pub const ROW_CAPACITY: i32 = 2147400000;

/// The count above which the next progress report falls due, once `rows` rows are
/// counted: the smallest positive multiple of the step that is at least `rows`.
pub open spec fn report_threshold(rows: int) -> int {
    if rows <= 100000 {
        100000
    } else {
        100000 * ((rows - 1) / 100000 + 1)
    }
}

/// Counts the rows of a listing and says when progress is to be shown: after the row
/// that brings the count one past a multiple of the step, from the second step on.
pub struct RowCounter {
    rows: i32,
    next_report: i32,
}

impl RowCounter {
    #[verifier::type_invariant]
    spec fn well_formed(self) -> bool {
        &&& 0 <= self.rows <= ROW_CAPACITY
        &&& self.next_report == report_threshold(self.rows as int)
    }

    /// The number of rows counted.
    pub closed spec fn count(self) -> int {
        self.rows as int
    }

    /// A counter that has counted nothing.
    pub fn new() -> (c: RowCounter)
        ensures
            c.count() == 0,
    {
        RowCounter { rows: 0, next_report: REPORT_STEP }
    }

    /// The number of rows counted.
    pub fn rows(&self) -> (n: i64)
        ensures
            n == self.count(),
    {
        self.rows as i64
    }

    /// Counts one more row; the result says whether progress is to be shown now.
    pub fn count_row(&mut self) -> (report: bool)
        requires
            old(self).count() < ROW_CAPACITY,
        ensures
            final(self).count() == old(self).count() + 1,
            report == (final(self).count() > 100000 && final(self).count() % 100000 == 1),
    {
        proof {
            use_type_invariant(&*self);
        }
        let rows = self.rows + 1;
        let report = rows > self.next_report;
        let next = if report {
            proof {
                assert(self.next_report <= ROW_CAPACITY) by (nonlinear_arith)
                    requires
                        self.next_report == report_threshold(self.rows as int),
                        0 <= self.rows < ROW_CAPACITY,
                ;
            }
            self.next_report + REPORT_STEP
        } else {
            self.next_report
        };
        proof {
            lemma_threshold_step(self.rows as int);
        }
        *self = RowCounter { rows, next_report: next };
        report
    }
}

proof fn lemma_threshold_step(r: int)
    requires
        0 <= r,
    ensures
        (r + 1 > report_threshold(r)) == (r + 1 > 100000 && (r + 1) % 100000 == 1),
        report_threshold(r + 1) == if r + 1 > report_threshold(r) {
            report_threshold(r) + 100000
        } else {
            report_threshold(r)
        },
{
    if r > 100000 {
        assert(100000 * ((r - 1) / 100000) <= r - 1 < 100000 * ((r - 1) / 100000 + 1))
            by (nonlinear_arith)
            requires
                r > 100000,
        ;
        assert(r / 100000 == (r - 1) / 100000 + (if r % 100000 == 0 { 1int } else { 0 }))
            by (nonlinear_arith)
            requires
                r > 100000,
        ;
        assert((r + 1) % 100000 == 1 <==> r % 100000 == 0) by (nonlinear_arith)
            requires
                r > 0,
        ;
        assert(r % 100000 == 0 <==> r == 100000 * ((r - 1) / 100000 + 1)) by (nonlinear_arith)
            requires
                r > 100000,
        ;
    }
}

} // verus!
