//! The database: an ordered collection of uniquely named tables, and
//! the writer that emits its canonical text form.  Iteration order is
//! insertion order, never alphabetic, so that a write of a parse is
//! byte-for-byte stable.

use crate::field::{spec_typename_bytes, Field};
use crate::parse::ErrorKind;
use crate::table::Table;
use crate::util::{bytes_eq, LBRACKET, NL, RBRACKET};
use crate::value::{spec_clamp_decimals, spec_encode_slot, Record, Value};
use vstd::prelude::*;

verus! {

/// A failure while serializing a database; a well-formed database
/// always serializes, so none arises from this crate's own building
/// path.
#[derive(Clone, Copy, Debug, PartialEq, Eq, Structural)]
pub enum WriteError {
    /// The database broke a structural invariant.
    Invalid,
}

/// The header text of one column: space, name, colon, type name.
pub open spec fn spec_field_text(f: Field) -> Seq<u8> {
    seq![32u8] + f.spec_name() + seq![58u8] + spec_typename_bytes(f.spec_kind())
}

/// The header text of a list of columns.
pub open spec fn spec_fields_text(fields: Seq<Field>) -> Seq<u8>
    decreases fields.len(),
{
    if fields.len() == 0 {
        Seq::empty()
    } else {
        spec_fields_text(fields.drop_last()) + spec_field_text(fields.last())
    }
}

/// The space-joined literals of a row's slots.
pub open spec fn spec_slots_text(rec: Seq<Option<Value>>, dp: int) -> Seq<u8>
    decreases rec.len(),
{
    if rec.len() == 0 {
        Seq::empty()
    } else if rec.len() == 1 {
        spec_encode_slot(rec[0], dp)
    } else {
        spec_slots_text(rec.drop_last(), dp) + seq![32u8] + spec_encode_slot(rec.last(), dp)
    }
}

/// The text of a table's rows, one newline-terminated line each.
pub open spec fn spec_rows_text(records: Seq<Record>, dp: int) -> Seq<u8>
    decreases records.len(),
{
    if records.len() == 0 {
        Seq::empty()
    } else {
        spec_rows_text(records.drop_last(), dp) + spec_slots_text(records.last()@, dp) + seq![NL]
    }
}

/// The full text of one table: header line, then its rows.
pub open spec fn spec_table_text(t: Table, dp: int) -> Seq<u8> {
    seq![LBRACKET] + t.name@ + spec_fields_text(t.fields@) + seq![RBRACKET, NL] + spec_rows_text(
        t.records@,
        dp,
    )
}

/// The canonical text of a database: its tables in order, one blank
/// line between consecutive tables.
pub open spec fn spec_db_text(tables: Seq<Table>, dp: int) -> Seq<u8>
    decreases tables.len(),
{
    if tables.len() == 0 {
        Seq::empty()
    } else if tables.len() == 1 {
        spec_table_text(tables[0], dp)
    } else {
        spec_db_text(tables.drop_last(), dp) + seq![NL] + spec_table_text(tables.last(), dp)
    }
}

/// An in-memory database: tables in insertion order under unique
/// names.
#[derive(Debug)]
pub struct Tdb {
    pub tables: Vec<Table>,
}

impl Tdb {
    /// Structural soundness: every table is well formed and valid, and
    /// no two tables share a name.
    pub open spec fn wf(&self) -> bool {
        &&& forall|i: int|
            0 <= i < self.tables@.len() ==> (#[trigger] self.tables@[i]).wf()
                && self.tables@[i].spec_is_valid()
        &&& forall|i: int, j: int|
            0 <= i < j < self.tables@.len() ==> self.tables@[i].name@ != self.tables@[j].name@
    }

    /// An empty database.
    pub fn new() -> (r: Tdb)
        ensures
            r.wf(),
            r.tables@.len() == 0,
    {
        Tdb { tables: Vec::new() }
    }

    /// Reports whether the database is structurally sound: every table
    /// well formed and valid, no name held twice.
    pub fn is_wf(&self) -> (r: bool)
        ensures
            r == self.wf(),
    {
        let n = self.tables.len();
        let mut i: usize = 0;
        while i < n
            invariant
                0 <= i <= n == self.tables@.len(),
                forall|x: int|
                    0 <= x < i ==> (#[trigger] self.tables@[x]).wf()
                        && self.tables@[x].spec_is_valid(),
                forall|x: int, y: int|
                    0 <= x < y < i ==> self.tables@[x].name@ != self.tables@[y].name@,
            decreases n - i,
        {
            let t = &self.tables[i];
            if !t.is_wf() || !t.is_valid() {
                return false;
            }
            let mut j: usize = 0;
            while j < i
                invariant
                    0 <= j <= i < self.tables@.len(),
                    forall|x: int|
                        0 <= x < j ==> (#[trigger] self.tables@[x]).name@ != self.tables@[
                            i as int].name@,
                decreases i - j,
            {
                if bytes_eq(self.tables[j].name().as_slice(), self.tables[i].name().as_slice()) {
                    assert(self.tables@[j as int].name@ == self.tables@[i as int].name@);
                    return false;
                }
                j += 1;
            }
            i += 1;
        }
        true
    }

    /// The number of tables.
    pub fn len(&self) -> (r: usize)
        ensures
            r == self.tables@.len(),
    {
        self.tables.len()
    }

    /// The table at a position of the insertion order.
    pub fn table_at(&self, i: usize) -> (r: &Table)
        requires
            i < self.tables@.len(),
        ensures
            *r == self.tables@[i as int],
    {
        &self.tables[i]
    }

    /// The table of a given name, if the database holds one.
    pub fn get(&self, name: &[u8]) -> (r: Option<&Table>)
        ensures
            match r {
                Some(t) => (exists|i: int|
                    0 <= i < self.tables@.len() && self.tables@[i] == *t) && t.name@ == name@,
                None => forall|i: int|
                    0 <= i < self.tables@.len() ==> (#[trigger] self.tables@[i]).name@ != name@,
            },
    {
        let n = self.tables.len();
        let mut i: usize = 0;
        while i < n
            invariant
                0 <= i <= n == self.tables@.len(),
                forall|j: int| 0 <= j < i ==> (#[trigger] self.tables@[j]).name@ != name@,
            decreases n - i,
        {
            if bytes_eq(self.tables[i].name().as_slice(), name) {
                return Some(&self.tables[i]);
            }
            i += 1;
        }
        None
    }

    /// Appends a table at the end of the iteration order.  Fails with
    /// a duplicate-table error exactly when a table of that name is
    /// already held; the database is unchanged then.
    pub fn insert(&mut self, t: Table) -> (r: Result<(), ErrorKind>)
        requires
            old(self).wf(),
            t.wf(),
            t.spec_is_valid(),
        ensures
            final(self).wf(),
            match r {
                Ok(()) => (forall|i: int|
                    0 <= i < old(self).tables@.len() ==> (#[trigger] old(
                        self,
                    ).tables@[i]).name@ != t.name@) && final(self).tables@ == old(
                    self,
                ).tables@.push(t),
                Err(e) => e == ErrorKind::DuplicateTable && final(self).tables@ == old(
                    self,
                ).tables@ && exists|i: int|
                    0 <= i < old(self).tables@.len() && (#[trigger] old(self).tables@[i]).name@
                        == t.name@,
            },
    {
        let n = self.tables.len();
        let mut i: usize = 0;
        while i < n
            invariant
                0 <= i <= n == self.tables@.len(),
                *self == *old(self),
                old(self).wf(),
                forall|j: int| 0 <= j < i ==> (#[trigger] self.tables@[j]).name@ != t.name@,
            decreases n - i,
        {
            if bytes_eq(self.tables[i].name().as_slice(), t.name().as_slice()) {
                return Err(ErrorKind::DuplicateTable);
            }
            i += 1;
        }
        self.tables.push(t);
        Ok(())
    }

    /// Serializes the database to its canonical text at the given
    /// decimal-places setting (clamped before use).  A well-formed
    /// database always serializes; one that breaks a structural
    /// invariant is refused.
    pub fn write(&self, decimals: usize) -> (r: Result<Vec<u8>, WriteError>)
        ensures
            self.wf() ==> (r matches Ok(v) && v@ == spec_db_text(
                self.tables@,
                spec_clamp_decimals(decimals as int),
            )),
            !self.wf() ==> r == Err::<Vec<u8>, WriteError>(WriteError::Invalid),
    {
        if !self.is_wf() {
            return Err(WriteError::Invalid);
        }
        let dp: u8 = if decimals > 15 {
            15
        } else {
            decimals as u8
        };
        let mut out: Vec<u8> = Vec::new();
        let n = self.tables.len();
        let mut i: usize = 0;
        while i < n
            invariant
                0 <= i <= n == self.tables@.len(),
                self.wf(),
                dp <= 15,
                dp as int == spec_clamp_decimals(decimals as int),
                out@ == spec_db_text(self.tables@.take(i as int), dp as int),
            decreases n - i,
        {
            if i > 0 {
                out.push(NL);
            }
            push_table_text(&self.tables[i], dp, &mut out);
            i += 1;
            proof {
                assert(self.tables@.take(i as int).drop_last() =~= self.tables@.take(i as int - 1));
                assert(self.tables@.take(i as int).last() == self.tables@[i as int - 1]);
                if i == 1 {
                    assert(out@ =~= spec_db_text(self.tables@.take(1), dp as int));
                } else {
                    assert(out@ =~= spec_db_text(self.tables@.take(i as int), dp as int));
                }
            }
        }
        proof {
            assert(self.tables@.take(n as int) =~= self.tables@);
        }
        Ok(out)
    }
}

/// Appends the full text of one table to `out`.
fn push_table_text(t: &Table, dp: u8, out: &mut Vec<u8>)
    requires
        t.wf(),
        dp <= 15,
    ensures
        final(out)@ == old(out)@ + spec_table_text(*t, dp as int),
{
    out.push(LBRACKET);
    let mut j: usize = 0;
    let ghost base = out@;
    while j < t.name.len()
        invariant
            0 <= j <= t.name@.len(),
            out@ == base + t.name@.take(j as int),
        decreases t.name@.len() - j,
    {
        out.push(t.name[j]);
        j += 1;
        proof {
            assert(out@ =~= base + t.name@.take(j as int));
        }
    }
    proof {
        assert(t.name@.take(t.name@.len() as int) =~= t.name@);
    }
    let cols = t.fields.len();
    let mut c: usize = 0;
    let ghost base2 = out@;
    while c < cols
        invariant
            0 <= c <= cols == t.fields@.len(),
            t.wf(),
            out@ == base2 + spec_fields_text(t.fields@.take(c as int)),
        decreases cols - c,
    {
        let f = &t.fields[c];
        out.push(32);
        let mut j2: usize = 0;
        let ghost base3 = out@;
        while j2 < f.name.len()
            invariant
                0 <= j2 <= f.name@.len(),
                out@ == base3 + f.name@.take(j2 as int),
            decreases f.name@.len() - j2,
        {
            out.push(f.name[j2]);
            j2 += 1;
            proof {
                assert(out@ =~= base3 + f.name@.take(j2 as int));
            }
        }
        proof {
            assert(f.name@.take(f.name@.len() as int) =~= f.name@);
        }
        out.push(58);
        let mut tn = f.kind().name_bytes();
        out.append(&mut tn);
        c += 1;
        proof {
            assert(t.fields@.take(c as int).drop_last() =~= t.fields@.take(c as int - 1));
            assert(t.fields@.take(c as int).last() == t.fields@[c as int - 1]);
            assert(out@ =~= base2 + spec_fields_text(t.fields@.take(c as int)));
        }
    }
    proof {
        assert(t.fields@.take(cols as int) =~= t.fields@);
    }
    out.push(RBRACKET);
    out.push(NL);
    let rows = t.records.len();
    let mut ri: usize = 0;
    let ghost base4 = out@;
    while ri < rows
        invariant
            0 <= ri <= rows == t.records@.len(),
            t.wf(),
            dp <= 15,
            out@ == base4 + spec_rows_text(t.records@.take(ri as int), dp as int),
        decreases rows - ri,
    {
        push_row_text(t, ri, dp, out);
        ri += 1;
        proof {
            assert(t.records@.take(ri as int).drop_last() =~= t.records@.take(ri as int - 1));
            assert(t.records@.take(ri as int).last() == t.records@[ri as int - 1]);
            assert(out@ =~= base4 + spec_rows_text(t.records@.take(ri as int), dp as int));
        }
    }
    proof {
        assert(t.records@.take(rows as int) =~= t.records@);
        assert(out@ =~= old(out)@ + spec_table_text(*t, dp as int));
    }
}

/// Appends one row's line to `out`.
fn push_row_text(t: &Table, ri: usize, dp: u8, out: &mut Vec<u8>)
    requires
        t.wf(),
        dp <= 15,
        ri < t.records@.len(),
    ensures
        final(out)@ == old(out)@ + spec_slots_text(t.records@[ri as int]@, dp as int) + seq![NL],
{
    let rec = &t.records[ri];
    let k = rec.len();
    let ghost recv = rec@;
    assert(crate::table::spec_record_ok(recv, t.fields@));
    let mut s: usize = 0;
    while s < k
        invariant
            0 <= s <= k == recv.len(),
            ri < t.records@.len(),
            rec@ == recv,
            recv == t.records@[ri as int]@,
            crate::table::spec_record_ok(recv, t.fields@),
            dp <= 15,
            out@ == old(out)@ + spec_slots_text(recv.take(s as int), dp as int),
        decreases k - s,
    {
        if s > 0 {
            out.push(32);
        }
        match &rec[s] {
            Option::None => {
                out.push(crate::util::QUERY);
            },
            Option::Some(v) => {
                assert(crate::value::spec_slot_ok(recv[s as int], t.fields@[s as int].spec_kind()));
                v.push_text(dp, out);
            },
        }
        s += 1;
        proof {
            assert(recv.take(s as int).drop_last() =~= recv.take(s as int - 1));
            assert(recv.take(s as int).last() == recv[s as int - 1]);
            if s == 1 {
                assert(out@ =~= old(out)@ + spec_slots_text(recv.take(1), dp as int));
            } else {
                assert(out@ =~= old(out)@ + spec_slots_text(recv.take(s as int), dp as int));
            }
        }
    }
    out.push(NL);
    proof {
        assert(recv.take(k as int) =~= recv);
        assert(out@ =~= old(out)@ + spec_slots_text(recv, dp as int) + seq![NL]);
    }
}

} // verus!
