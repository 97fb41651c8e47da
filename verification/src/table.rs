//! Row-oriented byte tables: every registered field owns a fixed slot per
//! row, and a row is addressed by its dense index, not by an entity handle.
//!
//! Both variants share one state machine: the schema is open until the first
//! row is added and closed afterwards; registering a field while rows exist
//! is rejected with `SchemaClosed`, since it would misalign every existing
//! row. [`PackedTable`] interleaves all fields of a row contiguously in one
//! buffer; [`LinearTable`] gives every field its own buffer, all grown in
//! lock-step so that the row counts stay equal.

use vstd::prelude::*;

use vstd::arithmetic::mul::lemma_mul_inequality;

use crate::EcsError;

verus! {

/// One field of a packed row: payload width and byte offset inside the row.
struct FieldInfo {
    width: usize,
    offset: usize,
}

/// A table that packs all fields of a row contiguously in one byte buffer.
pub struct PackedTable {
    data: Vec<u8>,
    fields: Vec<FieldInfo>,
    row_width: usize,
    rows: usize,
}

impl PackedTable {
    /// Number of registered fields.
    pub closed spec fn field_count(self) -> int {
        self.fields@.len() as int
    }

    /// Width in bytes of field `f`.
    pub closed spec fn width_of(self, f: int) -> int {
        self.fields@[f].width as int
    }

    /// Byte offset of field `f` inside a row.
    pub closed spec fn offset_of(self, f: int) -> int {
        self.fields@[f].offset as int
    }

    /// Width in bytes of one whole row.
    pub closed spec fn row_width(self) -> int {
        self.row_width as int
    }

    /// Number of rows added so far.
    pub closed spec fn rows(self) -> int {
        self.rows as int
    }

    /// The schema is open until the first row exists.
    pub open spec fn schema_open(self) -> bool {
        self.rows() == 0
    }

    /// The bytes of field `f` in row `row`.
    pub closed spec fn cell(self, row: int, f: int) -> Seq<u8> {
        let start = row * self.row_width() + self.offset_of(f);
        self.data@.subrange(start, start + self.width_of(f))
    }

    /// Schema invariant: every field is at least one byte wide, lies inside
    /// the row width, and fields are laid out in registration order without
    /// overlap.
    pub closed spec fn schema_wf(self) -> bool {
        &&& forall|f: int| 0 <= f < self.field_count() ==> #[trigger] self.width_of(f) >= 1
        &&& forall|f: int|
            0 <= f < self.field_count() ==> #[trigger] self.offset_of(f) + self.width_of(f)
                <= self.row_width()
        &&& forall|f: int, g: int|
            0 <= f < g < self.field_count() ==> #[trigger] self.offset_of(f) + self.width_of(f)
                <= #[trigger] self.offset_of(g)
    }

    /// Structural invariant: a well-formed schema and a buffer of exactly
    /// `rows` rows.
    pub closed spec fn wf(self) -> bool {
        &&& self.data@.len() == self.rows() * self.row_width()
        &&& self.schema_wf()
    }

    /// The schema invariant depends only on the field list and row width.
    proof fn lemma_schema_wf_same(a: PackedTable, b: PackedTable)
        requires
            a.schema_wf(),
            b.fields@ == a.fields@,
            b.row_width == a.row_width,
        ensures
            b.schema_wf(),
    {
        assert forall|f: int| 0 <= f < b.field_count() implies #[trigger] b.width_of(f) >= 1 by {
            assert(a.width_of(f) >= 1);
        }
        assert forall|f: int|
            0 <= f < b.field_count() implies #[trigger] b.offset_of(f) + b.width_of(f)
            <= b.row_width() by {
            assert(a.offset_of(f) + a.width_of(f) <= a.row_width());
        }
        assert forall|f: int, g: int|
            0 <= f < g < b.field_count() implies #[trigger] b.offset_of(f) + b.width_of(f)
            <= #[trigger] b.offset_of(g) by {
            assert(a.offset_of(f) + a.width_of(f) <= a.offset_of(g));
        }
    }

    /// Field `f` of row `row` lies inside the buffer.
    proof fn lemma_cell_in_bounds(self, row: int, f: int)
        requires
            self.wf(),
            0 <= row < self.rows(),
            0 <= f < self.field_count(),
        ensures
            0 <= row * self.row_width(),
            row * self.row_width() + self.row_width() == (row + 1) * self.row_width(),
            (row + 1) * self.row_width() <= self.data@.len(),
            row * self.row_width() + self.offset_of(f) + self.width_of(f) <= self.data@.len(),
            self.data@.len() <= usize::MAX,
    {
        lemma_mul_inequality(0, row, self.row_width());
        lemma_mul_inequality(row + 1, self.rows(), self.row_width());
        assert(row * self.row_width() + self.row_width() == (row + 1) * self.row_width())
            by (nonlinear_arith);
        assert(self.data.len() == self.data@.len());
    }

    /// Two tables with the same layout whose bytes agree over one cell's
    /// range hold equal cells there.
    proof fn lemma_cell_eq(a: PackedTable, b: PackedTable, row: int, f: int)
        requires
            a.row_width() == b.row_width(),
            0 <= f < a.field_count(),
            0 <= f < b.field_count(),
            a.offset_of(f) == b.offset_of(f),
            a.width_of(f) == b.width_of(f),
            0 <= row * a.row_width(),
            row * a.row_width() + a.offset_of(f) + a.width_of(f) <= a.data@.len(),
            row * b.row_width() + b.offset_of(f) + b.width_of(f) <= b.data@.len(),
            0 <= a.offset_of(f),
            forall|m: int|
                row * a.row_width() + a.offset_of(f) <= m < row * a.row_width() + a.offset_of(f)
                    + a.width_of(f) ==> #[trigger] a.data@[m] == b.data@[m],
        ensures
            a.cell(row, f) == b.cell(row, f),
    {
        assert(a.cell(row, f) =~= b.cell(row, f));
    }

    /// An empty table: no fields, no rows, zero row width.
    pub fn new() -> (t: PackedTable)
        ensures
            t.wf(),
            t.field_count() == 0,
            t.rows() == 0,
            t.row_width() == 0,
    {
        let t = PackedTable { data: Vec::new(), fields: Vec::new(), row_width: 0, rows: 0 };
        proof {
            assert(t.rows() * t.row_width() == 0) by (nonlinear_arith)
                requires t.rows() == 0;
        }
        t
    }

    /// Appends a field of `width` bytes to the schema at the next free
    /// offset and returns its key. Fails with `SchemaClosed` once any row
    /// exists, leaving the table untouched.
    pub fn register(&mut self, width: usize) -> (r: Result<usize, EcsError>)
        requires
            old(self).wf(),
            width >= 1,
            old(self).row_width() + width <= usize::MAX,
        ensures
            final(self).wf(),
            match r {
                Ok(f) => {
                    &&& old(self).schema_open()
                    &&& final(self).schema_open()
                    &&& f as int == old(self).field_count()
                    &&& final(self).field_count() == old(self).field_count() + 1
                    &&& final(self).width_of(f as int) == width
                    &&& final(self).offset_of(f as int) == old(self).row_width()
                    &&& final(self).row_width() == old(self).row_width() + width
                    &&& forall|g: int|
                        0 <= g < old(self).field_count() ==> #[trigger] final(self).width_of(g)
                            == old(self).width_of(g) && #[trigger] final(self).offset_of(g) == old(
                            self,
                        ).offset_of(g)
                },
                Err(e) => {
                    &&& *final(self) == *old(self)
                    &&& e == EcsError::SchemaClosed
                    &&& !old(self).schema_open()
                },
            },
    {
        if self.rows > 0 {
            return Err(EcsError::SchemaClosed);
        }
        let f = self.fields.len();
        let offset = self.row_width;
        proof {
            assert(self.rows() * self.row_width() == 0) by (nonlinear_arith)
                requires self.rows() == 0;
        }
        self.fields.push(FieldInfo { width, offset });
        self.row_width = self.row_width + width;
        proof {
            assert(self.rows() * self.row_width() == 0) by (nonlinear_arith)
                requires self.rows() == 0;
            let n = self.field_count() - 1;
            assert forall|f2: int| 0 <= f2 < self.field_count() implies #[trigger] self.width_of(
                f2,
            ) >= 1 by {
                if f2 < n {
                    assert(old(self).width_of(f2) >= 1);
                    assert(self.fields@[f2] == old(self).fields@[f2]);
                }
            }
            assert forall|f2: int|
                0 <= f2 < self.field_count() implies #[trigger] self.offset_of(f2) + self.width_of(
                f2,
            ) <= self.row_width() by {
                if f2 < n {
                    assert(old(self).offset_of(f2) + old(self).width_of(f2) <= old(
                        self,
                    ).row_width());
                    assert(self.fields@[f2] == old(self).fields@[f2]);
                }
            }
            assert forall|f2: int, g2: int|
                0 <= f2 < g2 < self.field_count() implies #[trigger] self.offset_of(f2)
                + self.width_of(f2) <= #[trigger] self.offset_of(g2) by {
                assert(self.fields@[f2] == old(self).fields@[f2]);
                if g2 == n {
                    assert(old(self).offset_of(f2) + old(self).width_of(f2) <= old(
                        self,
                    ).row_width());
                } else {
                    assert(self.fields@[g2] == old(self).fields@[g2]);
                    assert(old(self).offset_of(f2) + old(self).width_of(f2) <= old(self).offset_of(
                        g2,
                    ));
                }
            }
        }
        Ok(f)
    }

    /// Adds one zero-initialized row and returns its index (the row count
    /// before growth). Closes the schema. Existing rows are untouched.
    pub fn add_row(&mut self) -> (r: usize)
        requires
            old(self).wf(),
            old(self).rows() < usize::MAX,
            (old(self).rows() + 1) * old(self).row_width() <= usize::MAX,
        ensures
            final(self).wf(),
            r as int == old(self).rows(),
            final(self).rows() == old(self).rows() + 1,
            final(self).row_width() == old(self).row_width(),
            final(self).field_count() == old(self).field_count(),
            forall|g: int|
                0 <= g < old(self).field_count() ==> #[trigger] final(self).width_of(g) == old(
                    self,
                ).width_of(g) && #[trigger] final(self).offset_of(g) == old(self).offset_of(g),
            forall|r2: int, g: int|
                0 <= r2 < old(self).rows() && 0 <= g < old(self).field_count()
                    ==> #[trigger] final(self).cell(r2, g) == old(self).cell(r2, g),
            forall|g: int, l: int|
                0 <= g < old(self).field_count() && 0 <= l < old(self).width_of(g)
                    ==> #[trigger] final(self).cell(old(self).rows(), g)[l] == 0u8,
    {
        let ghost old_self = *old(self);
        let ghost old_bytes = self.data@;
        let r = self.rows;
        let w = self.row_width;
        proof {
            assert(old_self.rows() * old_self.row_width() + old_self.row_width() == (old_self.rows()
                + 1) * old_self.row_width()) by (nonlinear_arith);
            assert(self.data.len() == self.data@.len());
        }
        let mut j: usize = 0;
        while j < w
            invariant
                j <= w,
                w == old_self.row_width(),
                self.rows == old_self.rows,
                self.fields@ == old_self.fields@,
                self.row_width == old_self.row_width,
                old_bytes.len() + w <= usize::MAX,
                self.data@.len() == old_bytes.len() + j,
                self.data@.subrange(0, old_bytes.len() as int) == old_bytes,
                forall|m: int|
                    old_bytes.len() <= m < self.data@.len() ==> #[trigger] self.data@[m] == 0u8,
            decreases w - j,
        {
            self.data.push(0u8);
            proof {
                assert(self.data@.subrange(0, old_bytes.len() as int) =~= old_bytes);
            }
            j = j + 1;
        }
        self.rows = self.rows + 1;
        proof {
            PackedTable::lemma_schema_wf_same(old_self, *self);
            assert((old_self.rows() + 1) * old_self.row_width() == old_self.rows()
                * old_self.row_width() + old_self.row_width()) by (nonlinear_arith);
            assert forall|m: int| 0 <= m < old_bytes.len() implies #[trigger] self.data@[m]
                == old_bytes[m] by {
                assert(self.data@.subrange(0, old_bytes.len() as int)[m] == self.data@[m]);
            }
            assert forall|r2: int, g: int|
                0 <= r2 < old_self.rows() && 0 <= g < old_self.field_count() implies #[trigger] self
                .cell(r2, g) == old_self.cell(r2, g) by {
                old_self.lemma_cell_in_bounds(r2, g);
                PackedTable::lemma_cell_eq(*self, old_self, r2, g);
            }
            assert forall|g: int, l: int|
                0 <= g < old_self.field_count() && 0 <= l < old_self.width_of(g)
                    implies #[trigger] self.cell(old_self.rows(), g)[l] == 0u8 by {
                assert(old_self.offset_of(g) + old_self.width_of(g) <= old_self.row_width());
                assert(self.fields@[g] == old_self.fields@[g]);
                let start = old_self.rows() * self.row_width() + self.offset_of(g);
                assert(old_bytes.len() == old_self.rows() * old_self.row_width());
                assert(old_bytes.len() <= start + l < self.data@.len());
                assert(self.cell(old_self.rows(), g)[l] == self.data@[start + l]);
            }
        }
        r
    }

    /// Copies out the bytes of field `field` in row `row`. Fails with
    /// `NotRegistered` for a field never returned by `register` and with
    /// `RowOutOfRange` for a row at or past the current count, in that
    /// order of precedence.
    pub fn get_component(&self, field: usize, row: usize) -> (r: Result<Vec<u8>, EcsError>)
        requires
            self.wf(),
        ensures
            match r {
                Ok(v) => {
                    &&& field < self.field_count()
                    &&& row < self.rows()
                    &&& v@ == self.cell(row as int, field as int)
                },
                Err(e) => {
                    &&& (e == EcsError::NotRegistered || e == EcsError::RowOutOfRange)
                    &&& (e == EcsError::NotRegistered <==> field >= self.field_count())
                    &&& (e == EcsError::RowOutOfRange <==> field < self.field_count() && row
                        >= self.rows())
                },
            },
    {
        if field >= self.fields.len() {
            return Err(EcsError::NotRegistered);
        }
        if row >= self.rows {
            return Err(EcsError::RowOutOfRange);
        }
        proof {
            self.lemma_cell_in_bounds(row as int, field as int);
        }
        let w = self.fields[field].width;
        let base = row * self.row_width + self.fields[field].offset;
        let mut v: Vec<u8> = Vec::new();
        let mut j: usize = 0;
        while j < w
            invariant
                j <= w,
                w == self.width_of(field as int),
                base == row as int * self.row_width() + self.offset_of(field as int),
                base + w <= self.data@.len(),
                self.data@.len() <= usize::MAX,
                v@ == self.data@.subrange(base as int, base + j),
            decreases w - j,
        {
            v.push(self.data[base + j]);
            proof {
                assert(v@ =~= self.data@.subrange(base as int, base + j + 1));
            }
            j = j + 1;
        }
        proof {
            assert(v@ =~= self.cell(row as int, field as int));
        }
        Ok(v)
    }

    /// Overwrites the bytes of field `field` in row `row` in place. No other
    /// cell of the table changes. The same errors as `get_component`; on
    /// failure the table is untouched.
    pub fn set_component(&mut self, field: usize, row: usize, payload: &Vec<u8>) -> (r: Result<
        (),
        EcsError,
    >)
        requires
            old(self).wf(),
            field < old(self).field_count() ==> payload@.len() == old(self).width_of(field as int),
        ensures
            final(self).wf(),
            final(self).rows() == old(self).rows(),
            final(self).row_width() == old(self).row_width(),
            final(self).field_count() == old(self).field_count(),
            forall|g: int|
                0 <= g < old(self).field_count() ==> #[trigger] final(self).width_of(g) == old(
                    self,
                ).width_of(g) && #[trigger] final(self).offset_of(g) == old(self).offset_of(g),
            match r {
                Ok(()) => {
                    &&& field < old(self).field_count()
                    &&& row < old(self).rows()
                    &&& final(self).cell(row as int, field as int) == payload@
                    &&& forall|r2: int, g: int|
                        0 <= r2 < old(self).rows() && 0 <= g < old(self).field_count() && (r2 != row
                            || g != field) ==> #[trigger] final(self).cell(r2, g) == old(self).cell(
                            r2,
                            g,
                        )
                },
                Err(e) => {
                    &&& *final(self) == *old(self)
                    &&& (e == EcsError::NotRegistered || e == EcsError::RowOutOfRange)
                    &&& (e == EcsError::NotRegistered <==> field >= old(self).field_count())
                    &&& (e == EcsError::RowOutOfRange <==> field < old(self).field_count() && row
                        >= old(self).rows())
                },
            },
    {
        if field >= self.fields.len() {
            return Err(EcsError::NotRegistered);
        }
        if row >= self.rows {
            return Err(EcsError::RowOutOfRange);
        }
        let ghost old_self = *old(self);
        let ghost old_bytes = self.data@;
        proof {
            self.lemma_cell_in_bounds(row as int, field as int);
        }
        let w = self.fields[field].width;
        let base = row * self.row_width + self.fields[field].offset;
        let mut j: usize = 0;
        while j < w
            invariant
                j <= w,
                w == old_self.width_of(field as int),
                payload@.len() == w,
                base == row as int * old_self.row_width() + old_self.offset_of(field as int),
                base + w <= self.data@.len(),
                self.data@.len() <= usize::MAX,
                self.rows == old_self.rows,
                self.fields@ == old_self.fields@,
                self.row_width == old_self.row_width,
                self.data@.len() == old_bytes.len(),
                forall|m: int|
                    0 <= m < self.data@.len() ==> #[trigger] self.data@[m] == if base <= m < base
                        + j {
                        payload@[m - base]
                    } else {
                        old_bytes[m]
                    },
            decreases w - j,
        {
            let b = payload[j];
            self.data[base + j] = b;
            j = j + 1;
        }
        proof {
            PackedTable::lemma_schema_wf_same(old_self, *self);
            assert(self.cell(row as int, field as int) =~= payload@);
            assert forall|r2: int, g: int|
                0 <= r2 < old_self.rows() && 0 <= g < old_self.field_count() && (r2 != row || g
                    != field) implies #[trigger] self.cell(r2, g) == old_self.cell(r2, g) by {
                old_self.lemma_cell_in_bounds(r2, g);
                assert(old_self.offset_of(g) + old_self.width_of(g) <= old_self.row_width());
                let lo = r2 * old_self.row_width() + old_self.offset_of(g);
                assert forall|m: int| lo <= m < lo + old_self.width_of(g) implies #[trigger] self
                    .data@[m] == old_self.data@[m] by {
                    if r2 == row {
                        // Same row, different field: slots do not overlap.
                        if g < field {
                            assert(old_self.offset_of(g) + old_self.width_of(g)
                                <= old_self.offset_of(field as int));
                            assert(m < base);
                        } else {
                            assert(old_self.offset_of(field as int) + old_self.width_of(
                                field as int,
                            ) <= old_self.offset_of(g));
                            assert(m >= base + w);
                        }
                    } else {
                        // Different rows: whole rows do not overlap.
                        assert(m < base || m >= base + w) by (nonlinear_arith)
                            requires
                                r2 != row,
                                0 <= r2,
                                0 <= row,
                                lo == r2 * old_self.row_width() + old_self.offset_of(g),
                                base == row as int * old_self.row_width() + old_self.offset_of(
                                    field as int,
                                ),
                                lo <= m < lo + old_self.width_of(g),
                                old_self.offset_of(g) + old_self.width_of(g)
                                    <= old_self.row_width(),
                                old_self.offset_of(field as int) + w <= old_self.row_width(),
                                0 <= old_self.offset_of(field as int),
                                0 <= old_self.offset_of(g),
                                w >= 1,
                        ;
                    }
                }
                PackedTable::lemma_cell_eq(*self, old_self, r2, g);
            }
        }
        Ok(())
    }
}

/// One column of a linear table: its field width and its own byte buffer.
struct Column {
    width: usize,
    data: Vec<u8>,
}

impl Column {
    /// `newc` is `oldc` with one zero-initialized row appended.
    spec fn extended_by_zero_row(oldc: Column, newc: Column) -> bool {
        &&& newc.width == oldc.width
        &&& newc.data@.len() == oldc.data@.len() + oldc.width
        &&& newc.data@.subrange(0, oldc.data@.len() as int) == oldc.data@
        &&& forall|m: int|
            oldc.data@.len() <= m < newc.data@.len() ==> #[trigger] newc.data@[m] == 0u8
    }
}

/// A table that gives every registered field its own byte buffer; all
/// buffers grow in lock-step, one row at a time.
pub struct LinearTable {
    columns: Vec<Column>,
    rows: usize,
}

impl LinearTable {
    /// Number of registered fields.
    pub closed spec fn field_count(self) -> int {
        self.columns@.len() as int
    }

    /// Width in bytes of field `f`.
    pub closed spec fn width_of(self, f: int) -> int {
        self.columns@[f].width as int
    }

    /// Number of rows added so far.
    pub closed spec fn rows(self) -> int {
        self.rows as int
    }

    /// The schema is open until the first row exists.
    pub open spec fn schema_open(self) -> bool {
        self.rows() == 0
    }

    /// The bytes of field `f` in row `row`.
    pub closed spec fn cell(self, row: int, f: int) -> Seq<u8> {
        self.columns@[f].data@.subrange(row * self.width_of(f), (row + 1) * self.width_of(f))
    }

    /// Structural invariant: every column is at least one byte wide and
    /// holds exactly `rows` rows, so row counts agree across all fields.
    pub closed spec fn wf(self) -> bool {
        &&& forall|f: int| 0 <= f < self.field_count() ==> #[trigger] self.width_of(f) >= 1
        &&& forall|f: int|
            0 <= f < self.field_count() ==> #[trigger] self.columns@[f].data@.len() == self.rows()
                * self.width_of(f)
    }

    /// Row `row` of field `f` lies inside its column's buffer.
    proof fn lemma_cell_in_bounds(self, row: int, f: int)
        requires
            self.wf(),
            0 <= row < self.rows(),
            0 <= f < self.field_count(),
        ensures
            0 <= row * self.width_of(f),
            row * self.width_of(f) + self.width_of(f) == (row + 1) * self.width_of(f),
            (row + 1) * self.width_of(f) <= self.columns@[f].data@.len(),
            self.columns@[f].data@.len() <= usize::MAX,
    {
        lemma_mul_inequality(0, row, self.width_of(f));
        lemma_mul_inequality(row + 1, self.rows(), self.width_of(f));
        assert(row * self.width_of(f) + self.width_of(f) == (row + 1) * self.width_of(f))
            by (nonlinear_arith);
        assert(self.columns@[f].data.len() == self.columns@[f].data@.len());
    }

    /// Two tables whose columns agree over one cell's byte range hold equal
    /// cells there.
    proof fn lemma_cell_eq(a: LinearTable, b: LinearTable, row: int, f: int)
        requires
            0 <= f < a.field_count(),
            0 <= f < b.field_count(),
            a.width_of(f) == b.width_of(f),
            0 <= row * a.width_of(f),
            row * a.width_of(f) + a.width_of(f) <= a.columns@[f].data@.len(),
            row * b.width_of(f) + b.width_of(f) <= b.columns@[f].data@.len(),
            forall|m: int|
                row * a.width_of(f) <= m < row * a.width_of(f) + a.width_of(f)
                    ==> #[trigger] a.columns@[f].data@[m] == b.columns@[f].data@[m],
        ensures
            a.cell(row, f) == b.cell(row, f),
    {
        assert(row * a.width_of(f) + a.width_of(f) == (row + 1) * a.width_of(f))
            by (nonlinear_arith);
        assert(row * b.width_of(f) + b.width_of(f) == (row + 1) * b.width_of(f))
            by (nonlinear_arith);
        assert(a.cell(row, f) =~= b.cell(row, f));
    }

    /// An empty table: no fields, no rows.
    pub fn new() -> (t: LinearTable)
        ensures
            t.wf(),
            t.field_count() == 0,
            t.rows() == 0,
    {
        LinearTable { columns: Vec::new(), rows: 0 }
    }

    /// Appends a field of `width` bytes with its own empty buffer and
    /// returns its key. Fails with `SchemaClosed` once any row exists,
    /// leaving the table untouched.
    pub fn register(&mut self, width: usize) -> (r: Result<usize, EcsError>)
        requires
            old(self).wf(),
            width >= 1,
        ensures
            final(self).wf(),
            match r {
                Ok(f) => {
                    &&& old(self).schema_open()
                    &&& final(self).schema_open()
                    &&& f as int == old(self).field_count()
                    &&& final(self).field_count() == old(self).field_count() + 1
                    &&& final(self).width_of(f as int) == width
                    &&& forall|g: int|
                        0 <= g < old(self).field_count() ==> #[trigger] final(self).width_of(g)
                            == old(self).width_of(g)
                },
                Err(e) => {
                    &&& *final(self) == *old(self)
                    &&& e == EcsError::SchemaClosed
                    &&& !old(self).schema_open()
                },
            },
    {
        if self.rows > 0 {
            return Err(EcsError::SchemaClosed);
        }
        let f = self.columns.len();
        self.columns.push(Column { width, data: Vec::new() });
        proof {
            assert forall|g: int|
                0 <= g < self.field_count() implies #[trigger] self.width_of(g) >= 1 by {
                if g < f {
                    assert(self.columns@[g] == old(self).columns@[g]);
                    assert(old(self).width_of(g) >= 1);
                }
            }
            assert forall|g: int|
                0 <= g < self.field_count() implies #[trigger] self.columns@[g].data@.len()
                == self.rows() * self.width_of(g) by {
                if g < f {
                    assert(self.columns@[g] == old(self).columns@[g]);
                    assert(old(self).columns@[g].data@.len() == old(self).rows() * old(
                        self,
                    ).width_of(g));
                }
                assert(self.rows() * self.width_of(g) == 0) by (nonlinear_arith)
                    requires self.rows() == 0;
            }
        }
        Ok(f)
    }

    /// Adds one zero-initialized row to every column in lock-step and
    /// returns its index (the row count before growth). Closes the schema.
    /// Existing rows are untouched.
    pub fn add_row(&mut self) -> (r: usize)
        requires
            old(self).wf(),
            old(self).rows() < usize::MAX,
        ensures
            final(self).wf(),
            r as int == old(self).rows(),
            final(self).rows() == old(self).rows() + 1,
            final(self).field_count() == old(self).field_count(),
            forall|g: int|
                0 <= g < old(self).field_count() ==> #[trigger] final(self).width_of(g) == old(
                    self,
                ).width_of(g),
            forall|r2: int, g: int|
                0 <= r2 < old(self).rows() && 0 <= g < old(self).field_count()
                    ==> #[trigger] final(self).cell(r2, g) == old(self).cell(r2, g),
            forall|g: int, l: int|
                0 <= g < old(self).field_count() && 0 <= l < old(self).width_of(g)
                    ==> #[trigger] final(self).cell(old(self).rows(), g)[l] == 0u8,
    {
        let ghost old_self = *old(self);
        let r = self.rows;
        let n = self.columns.len();
        let mut c: usize = 0;
        while c < n
            invariant
                c <= n,
                n == old_self.field_count(),
                self.rows == old_self.rows,
                self.columns@.len() == n,
                forall|g: int|
                    0 <= g < c ==> Column::extended_by_zero_row(
                        old_self.columns@[g],
                        #[trigger] self.columns@[g],
                    ),
                forall|g: int| c <= g < n ==> #[trigger] self.columns@[g] == old_self.columns@[g],
            decreases n - c,
        {
            let w = self.columns[c].width;
            let ghost old_col = self.columns@[c as int];
            let mut j: usize = 0;
            while j < w
                invariant
                    j <= w,
                    c < n,
                    n == old_self.field_count(),
                    self.rows == old_self.rows,
                    self.columns@.len() == n,
                    w == old_col.width,
                    self.columns@[c as int].width == old_col.width,
                    self.columns@[c as int].data@.len() == old_col.data@.len() + j,
                    self.columns@[c as int].data@.subrange(0, old_col.data@.len() as int)
                        == old_col.data@,
                    forall|m: int|
                        old_col.data@.len() <= m < self.columns@[c as int].data@.len()
                            ==> #[trigger] self.columns@[c as int].data@[m] == 0u8,
                    forall|g: int|
                        0 <= g < c ==> Column::extended_by_zero_row(
                            old_self.columns@[g],
                            #[trigger] self.columns@[g],
                        ),
                    forall|g: int|
                        c < g < n ==> #[trigger] self.columns@[g] == old_self.columns@[g],
                decreases w - j,
            {
                let col = &mut self.columns[c];
                col.data.push(0u8);
                proof {
                    assert(self.columns@[c as int].data@.subrange(0, old_col.data@.len() as int)
                        =~= old_col.data@);
                }
                j = j + 1;
            }
            c = c + 1;
        }
        self.rows = self.rows + 1;
        proof {
            assert forall|g: int|
                0 <= g < self.field_count() implies #[trigger] self.width_of(g) >= 1 by {
                assert(Column::extended_by_zero_row(old_self.columns@[g], self.columns@[g]));
                assert(old_self.width_of(g) >= 1);
            }
            assert forall|g: int|
                0 <= g < self.field_count() implies #[trigger] self.columns@[g].data@.len()
                == self.rows() * self.width_of(g) by {
                assert(Column::extended_by_zero_row(old_self.columns@[g], self.columns@[g]));
                assert(old_self.columns@[g].data@.len() == old_self.rows() * old_self.width_of(g));
                assert((old_self.rows() + 1) * old_self.width_of(g) == old_self.rows()
                    * old_self.width_of(g) + old_self.width_of(g)) by (nonlinear_arith);
            }
            assert forall|r2: int, g: int|
                0 <= r2 < old_self.rows() && 0 <= g < old_self.field_count() implies #[trigger] self
                .cell(r2, g) == old_self.cell(r2, g) by {
                old_self.lemma_cell_in_bounds(r2, g);
                assert(Column::extended_by_zero_row(old_self.columns@[g], self.columns@[g]));
                let w = old_self.width_of(g);
                assert forall|m: int| r2 * w <= m < r2 * w + w implies #[trigger] self.columns@[
                    g].data@[m] == old_self.columns@[g].data@[m] by {
                    assert(self.columns@[g].data@.subrange(
                        0,
                        old_self.columns@[g].data@.len() as int,
                    )[m] == self.columns@[g].data@[m]);
                }
                LinearTable::lemma_cell_eq(*self, old_self, r2, g);
            }
            assert forall|g: int, l: int|
                0 <= g < old_self.field_count() && 0 <= l < old_self.width_of(g)
                    implies #[trigger] self.cell(old_self.rows(), g)[l] == 0u8 by {
                assert(Column::extended_by_zero_row(old_self.columns@[g], self.columns@[g]));
                let w = old_self.width_of(g);
                let start = old_self.rows() * w;
                assert(old_self.columns@[g].data@.len() == old_self.rows() * w);
                assert(start + w == (old_self.rows() + 1) * w) by (nonlinear_arith)
                    requires
                        start == old_self.rows() * w,
                ;
                assert(self.cell(old_self.rows(), g)[l] == self.columns@[g].data@[start + l]);
            }
        }
        r
    }

    /// Copies out the bytes of field `field` in row `row`. Fails with
    /// `NotRegistered` for a field never returned by `register` and with
    /// `RowOutOfRange` for a row at or past the current count, in that
    /// order of precedence.
    pub fn get_component(&self, field: usize, row: usize) -> (r: Result<Vec<u8>, EcsError>)
        requires
            self.wf(),
        ensures
            match r {
                Ok(v) => {
                    &&& field < self.field_count()
                    &&& row < self.rows()
                    &&& v@ == self.cell(row as int, field as int)
                },
                Err(e) => {
                    &&& (e == EcsError::NotRegistered || e == EcsError::RowOutOfRange)
                    &&& (e == EcsError::NotRegistered <==> field >= self.field_count())
                    &&& (e == EcsError::RowOutOfRange <==> field < self.field_count() && row
                        >= self.rows())
                },
            },
    {
        if field >= self.columns.len() {
            return Err(EcsError::NotRegistered);
        }
        if row >= self.rows {
            return Err(EcsError::RowOutOfRange);
        }
        proof {
            self.lemma_cell_in_bounds(row as int, field as int);
        }
        let w = self.columns[field].width;
        let base = row * w;
        let mut v: Vec<u8> = Vec::new();
        let mut j: usize = 0;
        while j < w
            invariant
                j <= w,
                field < self.columns@.len(),
                w == self.width_of(field as int),
                base == row as int * w,
                base + w <= self.columns@[field as int].data@.len(),
                self.columns@[field as int].data@.len() <= usize::MAX,
                v@ == self.columns@[field as int].data@.subrange(base as int, base + j),
            decreases w - j,
        {
            v.push(self.columns[field].data[base + j]);
            proof {
                assert(v@ =~= self.columns@[field as int].data@.subrange(
                    base as int,
                    base + j + 1,
                ));
            }
            j = j + 1;
        }
        proof {
            assert(v@ =~= self.cell(row as int, field as int));
        }
        Ok(v)
    }

    /// Overwrites the bytes of field `field` in row `row` in place. No other
    /// cell of the table changes. The same errors as `get_component`; on
    /// failure the table is untouched.
    pub fn set_component(&mut self, field: usize, row: usize, payload: &Vec<u8>) -> (r: Result<
        (),
        EcsError,
    >)
        requires
            old(self).wf(),
            field < old(self).field_count() ==> payload@.len() == old(self).width_of(field as int),
        ensures
            final(self).wf(),
            final(self).rows() == old(self).rows(),
            final(self).field_count() == old(self).field_count(),
            forall|g: int|
                0 <= g < old(self).field_count() ==> #[trigger] final(self).width_of(g) == old(
                    self,
                ).width_of(g),
            match r {
                Ok(()) => {
                    &&& field < old(self).field_count()
                    &&& row < old(self).rows()
                    &&& final(self).cell(row as int, field as int) == payload@
                    &&& forall|r2: int, g: int|
                        0 <= r2 < old(self).rows() && 0 <= g < old(self).field_count() && (r2 != row
                            || g != field) ==> #[trigger] final(self).cell(r2, g) == old(self).cell(
                            r2,
                            g,
                        )
                },
                Err(e) => {
                    &&& *final(self) == *old(self)
                    &&& (e == EcsError::NotRegistered || e == EcsError::RowOutOfRange)
                    &&& (e == EcsError::NotRegistered <==> field >= old(self).field_count())
                    &&& (e == EcsError::RowOutOfRange <==> field < old(self).field_count() && row
                        >= old(self).rows())
                },
            },
    {
        if field >= self.columns.len() {
            return Err(EcsError::NotRegistered);
        }
        if row >= self.rows {
            return Err(EcsError::RowOutOfRange);
        }
        let ghost old_self = *old(self);
        proof {
            self.lemma_cell_in_bounds(row as int, field as int);
        }
        let w = self.columns[field].width;
        let ghost old_col = self.columns@[field as int];
        let base = row * w;
        let mut j: usize = 0;
        while j < w
            invariant
                j <= w,
                field < self.columns@.len(),
                self.columns@.len() == old_self.columns@.len(),
                self.rows == old_self.rows,
                w == old_col.width,
                old_col == old_self.columns@[field as int],
                payload@.len() == w,
                base == row as int * w,
                base + w <= self.columns@[field as int].data@.len(),
                self.columns@[field as int].data@.len() <= usize::MAX,
                self.columns@[field as int].width == old_col.width,
                self.columns@[field as int].data@.len() == old_col.data@.len(),
                forall|g: int|
                    0 <= g < self.columns@.len() && g != field ==> #[trigger] self.columns@[g]
                        == old_self.columns@[g],
                forall|m: int|
                    0 <= m < self.columns@[field as int].data@.len() ==> #[trigger] self.columns@[
                        field as int].data@[m] == if base <= m < base + j {
                        payload@[m - base]
                    } else {
                        old_col.data@[m]
                    },
            decreases w - j,
        {
            let b = payload[j];
            let col = &mut self.columns[field];
            col.data[base + j] = b;
            j = j + 1;
        }
        proof {
            assert forall|g: int|
                0 <= g < self.field_count() implies #[trigger] self.width_of(g) >= 1 by {
                if g != field {
                    assert(self.columns@[g] == old_self.columns@[g]);
                }
                assert(old_self.width_of(g) >= 1);
            }
            assert forall|g: int|
                0 <= g < self.field_count() implies #[trigger] self.columns@[g].data@.len()
                == self.rows() * self.width_of(g) by {
                if g != field {
                    assert(self.columns@[g] == old_self.columns@[g]);
                }
                assert(old_self.columns@[g].data@.len() == old_self.rows() * old_self.width_of(g));
            }
            assert(self.cell(row as int, field as int) =~= payload@);
            assert forall|r2: int, g: int|
                0 <= r2 < old_self.rows() && 0 <= g < old_self.field_count() && (r2 != row || g
                    != field) implies #[trigger] self.cell(r2, g) == old_self.cell(r2, g) by {
                old_self.lemma_cell_in_bounds(r2, g);
                if g == field {
                    let wg = old_self.width_of(g);
                    assert forall|m: int| r2 * wg <= m < r2 * wg + wg implies #[trigger] self
                        .columns@[g].data@[m] == old_self.columns@[g].data@[m] by {
                        assert(m < base || m >= base + w) by (nonlinear_arith)
                            requires
                                r2 != row,
                                0 <= r2,
                                0 <= row,
                                base == row as int * w,
                                wg == w,
                                r2 * wg <= m < r2 * wg + wg,
                                w >= 1,
                        ;
                    }
                    LinearTable::lemma_cell_eq(*self, old_self, r2, g);
                } else {
                    assert(self.columns@[g] == old_self.columns@[g]);
                    assert(self.cell(r2, g) =~= old_self.cell(r2, g));
                }
            }
        }
        Ok(())
    }
}

} // verus!
