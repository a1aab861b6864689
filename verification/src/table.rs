//! A table: a name, an ordered schema of named typed columns, and an
//! ordered sequence of rows.  Rows enter only through a checked append
//! that enforces the schema's arity and each column's declared kind.

use crate::field::{Field, FieldType};
use crate::parse::ErrorKind;
use crate::util::{bytes_eq, is_ident_byte, spec_is_ident};
use crate::value::{spec_slot_ok, Record, Value};
use vstd::prelude::*;

verus! {

/// True when no two fields share a name.
pub open spec fn spec_fields_unique(fields: Seq<Field>) -> bool {
    forall|i: int, j: int|
        0 <= i < j < fields.len() ==> fields[i].spec_name() != fields[j].spec_name()
}

/// True when a row fits a schema: one slot per column, each present
/// value of its column's kind and well formed.
pub open spec fn spec_record_ok(rec: Seq<Option<Value>>, fields: Seq<Field>) -> bool {
    rec.len() == fields.len() && forall|i: int|
        0 <= i < rec.len() ==> spec_slot_ok(#[trigger] rec[i], fields[i].spec_kind())
}

/// A named table: schema plus rows, in insertion order.
#[derive(Debug)]
pub struct Table {
    pub name: Vec<u8>,
    pub fields: Vec<Field>,
    pub records: Vec<Record>,
}

impl Table {
    /// Structural soundness: the name, when set, is an identifier; the
    /// field names are identifiers and unique; every row fits the
    /// schema.
    pub open spec fn wf(&self) -> bool {
        &&& (self.name@.len() == 0 || spec_is_ident(self.name@))
        &&& forall|i: int| 0 <= i < self.fields@.len() ==> (#[trigger] self.fields@[i]).wf()
        &&& spec_fields_unique(self.fields@)
        &&& forall|i: int|
            0 <= i < self.records@.len() ==> spec_record_ok(
                (#[trigger] self.records@[i])@,
                self.fields@,
            )
    }

    /// True when the table can stand in a database: named, with at
    /// least one column.
    pub open spec fn spec_is_valid(&self) -> bool {
        self.name@.len() > 0 && self.fields@.len() > 0
    }

    /// An empty, unnamed table, ready to take a schema.
    pub fn new() -> (r: Table)
        ensures
            r.wf(),
            r.name@.len() == 0,
            r.fields@.len() == 0,
            r.records@.len() == 0,
    {
        Table { name: Vec::new(), fields: Vec::new(), records: Vec::new() }
    }

    /// Reports whether the table is structurally sound, by the same
    /// conditions the checked builders enforce.
    pub fn is_wf(&self) -> (r: bool)
        ensures
            r == self.wf(),
    {
        let n = self.name.len();
        if n > 0 {
            let mut i: usize = 0;
            while i < n
                invariant
                    0 <= i <= n == self.name@.len(),
                    n > 0,
                    forall|j: int|
                        0 <= j < i ==> crate::util::spec_is_ident_byte(#[trigger] self.name@[j]),
                decreases n - i,
            {
                if !is_ident_byte(self.name[i]) {
                    assert(!spec_is_ident(self.name@));
                    return false;
                }
                i += 1;
            }
        }
        let m = self.fields.len();
        let mut a: usize = 0;
        while a < m
            invariant
                0 <= a <= m == self.fields@.len(),
                self.name@.len() == 0 || spec_is_ident(self.name@),
                forall|x: int| 0 <= x < a ==> (#[trigger] self.fields@[x]).wf(),
                forall|x: int, y: int|
                    0 <= x < y < a ==> self.fields@[x].spec_name() != self.fields@[y].spec_name(),
            decreases m - a,
        {
            let fname = self.fields[a].name();
            let fn_len = fname.len();
            if fn_len == 0 {
                assert(!self.fields@[a as int].wf());
                return false;
            }
            let mut i: usize = 0;
            while i < fn_len
                invariant
                    0 <= i <= fn_len,
                    a < self.fields@.len(),
                    fname@ == self.fields@[a as int].spec_name(),
                    fn_len == fname@.len(),
                    forall|j: int|
                        0 <= j < i ==> crate::util::spec_is_ident_byte(#[trigger] fname@[j]),
                decreases fn_len - i,
            {
                if !is_ident_byte(fname[i]) {
                    assert(!spec_is_ident(fname@));
                    assert(!self.fields@[a as int].wf());
                    return false;
                }
                i += 1;
            }
            assert(spec_is_ident(fname@));
            let mut b2: usize = 0;
            while b2 < a
                invariant
                    0 <= b2 <= a < self.fields@.len(),
                    fname@ == self.fields@[a as int].spec_name(),
                    forall|x: int|
                        0 <= x < b2 ==> (#[trigger] self.fields@[x]).spec_name() != fname@,
                decreases a - b2,
            {
                if bytes_eq(self.fields[b2].name().as_slice(), fname.as_slice()) {
                    assert(!spec_fields_unique(self.fields@)) by {
                        assert(self.fields@[b2 as int].spec_name() == self.fields@[
                            a as int].spec_name());
                    }
                    return false;
                }
                b2 += 1;
            }
            a += 1;
        }
        let rn = self.records.len();
        let mut ri: usize = 0;
        while ri < rn
            invariant
                0 <= ri <= rn == self.records@.len(),
                m == self.fields@.len(),
                self.name@.len() == 0 || spec_is_ident(self.name@),
                forall|x: int| 0 <= x < m ==> (#[trigger] self.fields@[x]).wf(),
                spec_fields_unique(self.fields@),
                forall|x: int|
                    0 <= x < ri ==> spec_record_ok((#[trigger] self.records@[x])@, self.fields@),
            decreases rn - ri,
        {
            let rec = &self.records[ri];
            if rec.len() != m {
                assert(!spec_record_ok(self.records@[ri as int]@, self.fields@));
                return false;
            }
            let mut c: usize = 0;
            while c < m
                invariant
                    0 <= c <= m == self.fields@.len(),
                    ri < self.records@.len(),
                    rec@ == self.records@[ri as int]@,
                    rec@.len() == m,
                    forall|j: int|
                        0 <= j < c ==> spec_slot_ok(#[trigger] rec@[j], self.fields@[j].spec_kind()),
                decreases m - c,
            {
                match &rec[c] {
                    Option::None => {},
                    Option::Some(v) => {
                        let same = v.kind() == self.fields[c].kind();
                        if !same || !v.is_wf() {
                            assert(!spec_slot_ok(
                                self.records@[ri as int]@[c as int],
                                self.fields@[c as int].spec_kind(),
                            ));
                            assert(!spec_record_ok(self.records@[ri as int]@, self.fields@));
                            return false;
                        }
                    },
                }
                c += 1;
            }
            ri += 1;
        }
        true
    }

    /// True when the table is named and has at least one column.
    pub fn is_valid(&self) -> (r: bool)
        ensures
            r == self.spec_is_valid(),
    {
        self.name.len() > 0 && self.fields.len() > 0
    }

    /// The number of columns.
    pub fn columns(&self) -> (r: usize)
        ensures
            r == self.fields@.len(),
    {
        self.fields.len()
    }

    /// The number of rows.
    pub fn len(&self) -> (r: usize)
        ensures
            r == self.records@.len(),
    {
        self.records.len()
    }

    /// The table's name.
    pub fn name(&self) -> (r: &Vec<u8>)
        ensures
            r@ == self.name@,
    {
        &self.name
    }

    /// The column at an index.
    pub fn field_at(&self, i: usize) -> (r: &Field)
        requires
            i < self.fields@.len(),
        ensures
            *r == self.fields@[i as int],
    {
        &self.fields[i]
    }

    /// The row at an index.
    pub fn record_at(&self, i: usize) -> (r: &Record)
        requires
            i < self.records@.len(),
        ensures
            *r == self.records@[i as int],
    {
        &self.records[i]
    }

    /// The slot at a row and column.
    pub fn value_at(&self, row: usize, col: usize) -> (r: &Option<Value>)
        requires
            self.wf(),
            row < self.records@.len(),
            col < self.fields@.len(),
        ensures
            *r == self.records@[row as int]@[col as int],
    {
        &self.records[row][col]
    }

    /// Names the table.  Fails with a malformed-header error exactly
    /// when the name is empty or holds a byte a name may not.
    pub fn set_name(&mut self, name: Vec<u8>) -> (r: Result<(), ErrorKind>)
        requires
            old(self).wf(),
        ensures
            final(self).wf(),
            match r {
                Ok(()) => spec_is_ident(name@) && final(self).name@ == name@ && final(self).fields@
                    == old(self).fields@ && final(self).records@ == old(self).records@,
                Err(e) => e == ErrorKind::MalformedHeader && !spec_is_ident(name@) && *final(self)
                    == *old(self),
            },
    {
        let n = name.len();
        if n == 0 {
            return Err(ErrorKind::MalformedHeader);
        }
        let mut i: usize = 0;
        while i < n
            invariant
                0 <= i <= n == name@.len(),
                *self == *old(self),
                old(self).wf(),
                forall|j: int| 0 <= j < i ==> crate::util::spec_is_ident_byte(#[trigger] name@[j]),
            decreases n - i,
        {
            if !is_ident_byte(name[i]) {
                return Err(ErrorKind::MalformedHeader);
            }
            i += 1;
        }
        self.name = name;
        Ok(())
    }

    /// Adds a column to a table that has no rows yet.  Fails with a
    /// malformed-header error exactly when the name is no identifier,
    /// and with a duplicate-field error exactly when the name is an
    /// identifier already in the schema.
    pub fn add_field(&mut self, name: Vec<u8>, kind: FieldType) -> (r: Result<(), ErrorKind>)
        requires
            old(self).wf(),
            old(self).records@.len() == 0,
        ensures
            final(self).wf(),
            final(self).name@ == old(self).name@,
            final(self).records@.len() == 0,
            match r {
                Ok(()) => spec_is_ident(name@) && (forall|i: int|
                    0 <= i < old(self).fields@.len() ==> (#[trigger] old(
                        self,
                    ).fields@[i]).spec_name() != name@) && final(self).fields@ == old(
                    self,
                ).fields@.push((Field { name, kind })),
                Err(e) => *final(self) == *old(self) && (if !spec_is_ident(name@) {
                    e == ErrorKind::MalformedHeader
                } else {
                    e == ErrorKind::DuplicateField && exists|i: int|
                        0 <= i < old(self).fields@.len() && (#[trigger] old(
                            self,
                        ).fields@[i]).spec_name() == name@
                }),
            },
    {
        let n = name.len();
        if n == 0 {
            return Err(ErrorKind::MalformedHeader);
        }
        let mut i: usize = 0;
        while i < n
            invariant
                0 <= i <= n == name@.len(),
                *self == *old(self),
                old(self).wf(),
                old(self).records@.len() == 0,
                forall|j: int| 0 <= j < i ==> crate::util::spec_is_ident_byte(#[trigger] name@[j]),
            decreases n - i,
        {
            if !is_ident_byte(name[i]) {
                return Err(ErrorKind::MalformedHeader);
            }
            i += 1;
        }
        let m = self.fields.len();
        let mut j: usize = 0;
        while j < m
            invariant
                0 <= j <= m == self.fields@.len(),
                *self == *old(self),
                old(self).wf(),
                old(self).records@.len() == 0,
                spec_is_ident(name@),
                forall|i2: int|
                    0 <= i2 < j ==> (#[trigger] self.fields@[i2]).spec_name() != name@,
            decreases m - j,
        {
            if bytes_eq(self.fields[j].name().as_slice(), name.as_slice()) {
                return Err(ErrorKind::DuplicateField);
            }
            j += 1;
        }
        self.fields.push(Field::new(name, kind));
        Ok(())
    }

    /// Appends a whole row.  Fails with an arity error exactly when the
    /// row's length differs from the column count, and with a type
    /// error exactly when some present slot is not of its column's
    /// kind; on failure the table is unchanged.
    pub fn append(&mut self, rec: Record) -> (r: Result<(), ErrorKind>)
        requires
            old(self).wf(),
            forall|i: int|
                0 <= i < rec@.len() ==> ((#[trigger] rec@[i]) matches Some(v)
                    ==> crate::value::spec_wf_value(v)),
        ensures
            final(self).wf(),
            final(self).name@ == old(self).name@,
            final(self).fields@ == old(self).fields@,
            match r {
                Ok(()) => spec_record_ok(rec@, old(self).fields@) && final(self).records@ == old(
                    self,
                ).records@.push(rec),
                Err(e) => final(self).records@ == old(self).records@ && (if rec@.len() != old(
                    self,
                ).fields@.len() {
                    e == (ErrorKind::ArityMismatch {
                        expected: old(self).fields@.len() as usize,
                        actual: rec@.len() as usize,
                    })
                } else {
                    e == ErrorKind::TypeMismatch && !spec_record_ok(rec@, old(self).fields@)
                }),
            },
    {
        let cols = self.fields.len();
        if rec.len() != cols {
            return Err(
                ErrorKind::ArityMismatch { expected: cols, actual: rec.len() },
            );
        }
        let mut i: usize = 0;
        while i < cols
            invariant
                0 <= i <= cols == self.fields@.len() == rec@.len(),
                *self == *old(self),
                old(self).wf(),
                forall|j: int| 0 <= j < i ==> spec_slot_ok(#[trigger] rec@[j], self.fields@[j].spec_kind()),
                forall|j: int|
                    0 <= j < rec@.len() ==> ((#[trigger] rec@[j]) matches Some(v)
                        ==> crate::value::spec_wf_value(v)),
            decreases cols - i,
        {
            match &rec[i] {
                Option::None => {},
                Option::Some(v) => {
                    let vk = v.kind();
                    let fk = self.fields[i].kind();
                    if !(vk == fk) {
                        assert(!spec_slot_ok(rec@[i as int], self.fields@[i as int].spec_kind()));
                        return Err(ErrorKind::TypeMismatch);
                    }
                },
            }
            i += 1;
        }
        self.records.push(rec);
        Ok(())
    }
}

} // verus!
