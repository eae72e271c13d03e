//! The tabular store: rows of text cells under unique keys, kept in order; the
//! first row is the header and names the columns.

use crate::columns::{column_position, resolve};
use crate::error::DataStoreError;
use crate::ordered::{
    cells_of, entries_of, has_key, keys_unique, map_get_index, map_get_index_of, map_insert,
    map_len, map_new, map_shift_remove, RowModel,
};
use crate::format::{
    line_text, load_lines, parse_text_line, render, split_lines, text_lines,
};
use crate::text::{copy_cells, debug_listing, decimal, joined, listing, number_text};
use indexmap::IndexMap;
use vstd::prelude::*;

verus! {

/// The header of a sequence of rows: the cells of the first row, or nothing.
pub open spec fn header_of(e: Seq<RowModel>) -> Seq<Seq<char>> {
    if e.len() == 0 {
        Seq::empty()
    } else {
        e[0].1
    }
}

/// The place of key `k` among the rows (meaningful where some row has it).
pub open spec fn key_index(e: Seq<RowModel>, k: Seq<char>) -> int {
    choose|j: int| 0 <= j < e.len() && e[j].0 == k
}

/// The rows without the one of key `k`, the others in their order.
pub open spec fn without_key(e: Seq<RowModel>, k: Seq<char>) -> Seq<RowModel> {
    if has_key(e, k) {
        e.remove(key_index(e, k))
    } else {
        e
    }
}

/// The rows where key `k` holds `cells`: in its place if it was there, else last.
pub open spec fn with_row(e: Seq<RowModel>, k: Seq<char>, cells: Seq<Seq<char>>) -> Seq<
    RowModel,
> {
    if has_key(e, k) {
        e.update(key_index(e, k), (k, cells))
    } else {
        e.push((k, cells))
    }
}

/// A row of `n` empty cells.
pub open spec fn blank_row(n: nat) -> Seq<Seq<char>> {
    Seq::new(n, |i: int| Seq::<char>::empty())
}

/// Where a held key stands, and that it is the only row with that key.
pub proof fn lemma_key_index(e: Seq<RowModel>, k: Seq<char>, j: int)
    requires
        keys_unique(e),
        0 <= j < e.len(),
        e[j].0 == k,
    ensures
        has_key(e, k),
        key_index(e, k) == j,
{
    assert(has_key(e, k));
    let c = key_index(e, k);
    assert(e[c].0 == k);
}

/// The requested column names that the header does not resolve, in order.
pub open spec fn unresolved(names: Seq<Seq<char>>, h: Seq<Seq<char>>) -> Seq<Seq<char>>
    decreases names.len(),
{
    if names.len() == 0 {
        Seq::empty()
    } else {
        let rest = unresolved(names.drop_last(), h);
        if column_position(names.last(), h) is None {
            rest.push(names.last())
        } else {
            rest
        }
    }
}

/// The cell places that requested column names select: the key column
/// selects none, the header's column `i` selects place `i`.
pub open spec fn projection(names: Seq<Seq<char>>, h: Seq<Seq<char>>) -> Seq<int>
    decreases names.len(),
{
    if names.len() == 0 {
        Seq::empty()
    } else {
        let rest = projection(names.drop_last(), h);
        match column_position(names.last(), h) {
            Some(p) => if p > 0 {
                rest.push(p - 1)
            } else {
                rest
            },
            None => rest,
        }
    }
}

/// Every cell place that the header names.
pub open spec fn all_columns(h: Seq<Seq<char>>) -> Seq<int> {
    Seq::new(h.len(), |i: int| i)
}

/// The cells at the places `cols`, in that order; places past the row's end
/// are passed over.
pub open spec fn pick(cells: Seq<Seq<char>>, cols: Seq<int>) -> Seq<Seq<char>>
    decreases cols.len(),
{
    if cols.len() == 0 {
        Seq::empty()
    } else {
        let rest = pick(cells, cols.drop_last());
        if 0 <= cols.last() < cells.len() {
            rest.push(cells[cols.last()])
        } else {
            rest
        }
    }
}

/// The rows at places `start` up to `end` (exclusive), each cut to `cols`.
pub open spec fn selected_rows(e: Seq<RowModel>, start: int, end: int, cols: Seq<int>) -> Seq<
    RowModel,
> {
    Seq::new(
        if start < end {
            (end - start) as nat
        } else {
            0
        },
        |i: int| (e[start + i].0, pick(e[start + i].1, cols)),
    )
}

/// The message part that lists a header's names.
pub open spec fn header_message(h: Seq<Seq<char>>) -> Seq<char> {
    "Valid column names from header: "@ + debug_listing(h)
}

/// The message part that lists unknown column names.
pub open spec fn missing_message(names: Seq<Seq<char>>) -> Seq<char> {
    "Missing columns: "@ + debug_listing(names)
}

/// The message part that gives the bound on a row range.
pub open spec fn bound_message(n: nat) -> Seq<char> {
    "row range within 0.."@ + decimal(n)
}

/// The message part that gives a row range's end.
pub open spec fn end_message(n: nat) -> Seq<char> {
    "end of range "@ + decimal(n)
}

/// Once a key's row is taken out, no row has the key.
pub proof fn lemma_without_key(e: Seq<RowModel>, k: Seq<char>)
    requires
        keys_unique(e),
    ensures
        !has_key(without_key(e, k), k),
        keys_unique(without_key(e, k)),
{
    if has_key(e, k) {
        let i = key_index(e, k);
        let w = e.remove(i);
        assert forall|j: int| 0 <= j < w.len() implies w[j].0 != k by {
            if j < i {
                assert(w[j] == e[j]);
            } else {
                assert(w[j] == e[j + 1]);
            }
        }
        assert forall|a: int, b: int|
            0 <= a < w.len() && 0 <= b < w.len() && a != b implies w[a].0 != w[b].0 by {
            let a2 = if a < i { a } else { a + 1 };
            let b2 = if b < i { b } else { b + 1 };
            assert(w[a] == e[a2]);
            assert(w[b] == e[b2]);
        }
    }
}

pub struct ColumnDB {
    pub data: IndexMap<String, Vec<String>>,
    filename: String,
}

impl ColumnDB {
    /// The rows, in order.
    pub closed spec fn rows(&self) -> Seq<RowModel> {
        entries_of(self.data)
    }

    /// The path of the backing file.
    pub closed spec fn path(&self) -> Seq<char> {
        self.filename@
    }

    /// Keys are unique.
    pub open spec fn wf(&self) -> bool {
        keys_unique(self.rows())
    }

    /// The current header row.
    pub open spec fn header(&self) -> Seq<Seq<char>> {
        header_of(self.rows())
    }

    /// An empty store that persists to `file_name`.
    pub fn new(file_name: &str) -> (r: ColumnDB)
        ensures
            r.wf(),
            r.rows() == Seq::<RowModel>::empty(),
            r.path() == file_name@,
    {
        ColumnDB { data: map_new(), filename: file_name.to_owned() }
    }

    /// The path of the backing file.
    pub fn filename(&self) -> (r: &str)
        ensures
            r@ == self.path(),
    {
        self.filename.as_str()
    }

    /// The number of rows.
    pub fn len(&self) -> (r: usize)
        ensures
            r == self.rows().len(),
    {
        map_len(&self.data)
    }

    /// Makes (`key`, `values`) the first row, and so the header; a row that
    /// held `key` before leaves, the others keep their order.
    pub fn set_header(&mut self, key: String, values: Vec<String>) -> (r: Result<(), DataStoreError>)
        requires
            old(self).wf(),
        ensures
            final(self).wf(),
            final(self).path() == old(self).path(),
            values@.len() == 0 <==> r is Err,
            r is Err ==> final(self).rows() == old(self).rows(),
            r is Err ==> (r matches Err(DataStoreError::InvalidHeader { .. })),
            r is Ok ==> final(self).rows() == seq![(key@, cells_of(values@))] + without_key(
                old(self).rows(),
                key@,
            ),
            r is Ok ==> final(self).rows()[0] == (key@, cells_of(values@)) && final(self).header()
                == cells_of(values@),
    {
        if values.len() == 0 {
            return Err(
                DataStoreError::InvalidHeader {
                    expected: "non-empty values".to_owned(),
                    found: "empty vector".to_owned(),
                },
            );
        }
        let ghost k = key@;
        let ghost e0 = self.rows();
        let removed = map_shift_remove(&mut self.data, key.as_str());
        proof {
            if has_key(e0, k) {
                let j = choose|j: int| 0 <= j < e0.len() && e0[j].0 == k;
                lemma_key_index(e0, k, j);
            }
        }
        let ghost rest = self.rows();
        assert(rest == without_key(e0, k));
        assert(!has_key(rest, k));
        let mut fresh = map_new();
        map_insert(&mut fresh, key, values);
        let n = map_len(&self.data);
        let mut i: usize = 0;
        while i < n
            invariant
                n == rest.len(),
                i <= n,
                rest == entries_of(self.data),
                keys_unique(rest),
                !has_key(rest, k),
                keys_unique(entries_of(fresh)),
                entries_of(fresh) == seq![(k, cells_of(values@))] + rest.subrange(0, i as int),
            decreases n - i,
        {
            let (rk, rv) = map_get_index(&self.data, i).unwrap();
            let ck = rk.clone();
            let cv = copy_cells(rv);
            proof {
                assert(cells_of(cv@) =~= rest[i as int].1);
                let e = entries_of(fresh);
                if has_key(e, ck@) {
                    let j = choose|j: int| 0 <= j < e.len() && e[j].0 == ck@;
                    if j == 0 {
                        assert(rest[i as int].0 != k);
                    } else {
                        assert(e[j] == rest[j - 1]);
                    }
                }
            }
            map_insert(&mut fresh, ck, cv);
            assert(rest.subrange(0, i + 1) == rest.subrange(0, i as int).push(rest[i as int]));
            i = i + 1;
        }
        assert(rest.subrange(0, n as int) == rest);
        assert((seq![(k, cells_of(values@))] + rest)[0] == (k, cells_of(values@)));
        self.data = fresh;
        Ok(())
    }

    /// A copy of the header row; empty when the store has no rows.
    pub fn header_cells(&self) -> (r: Vec<String>)
        ensures
            cells_of(r@) == self.header(),
    {
        match map_get_index(&self.data, 0) {
            Some((_, h)) => {
                let c = copy_cells(h);
                assert(cells_of(c@) =~= self.header());
                c
            },
            None => {
                let c: Vec<String> = Vec::new();
                assert(cells_of(c@) =~= self.header());
                c
            },
        }
    }

    /// Writes `value` into the cell of row `key` under `column`. A key not yet
    /// held gets a new last row of empty cells, one per header column, first.
    pub fn insert(&mut self, key: String, column: String, value: String) -> (r: Result<
        (),
        DataStoreError,
    >)
        requires
            old(self).wf(),
        ensures
            final(self).wf(),
            final(self).path() == old(self).path(),
            r is Err ==> final(self).rows() == old(self).rows() && r == Err::<(), DataStoreError>(
                DataStoreError::CoordinatesNotFound,
            ),
            ({
                let e = old(self).rows();
                match column_position(column@, old(self).header()) {
                    Some(q) if q >= 1 => if has_key(e, key@) {
                        let cells = e[key_index(e, key@)].1;
                        if q - 1 < cells.len() {
                            r is Ok && final(self).rows() == with_row(
                                e,
                                key@,
                                cells.update(q - 1, value@),
                            )
                        } else {
                            r is Err
                        }
                    } else {
                        r is Ok && final(self).rows() == e.push(
                            (key@, blank_row(old(self).header().len()).update(q - 1, value@)),
                        )
                    },
                    _ => r is Err,
                }
            }),
    {
        let ghost e = self.rows();
        let header = self.header_cells();
        let q = match resolve(column.as_str(), &header) {
            Some(q) => q,
            None => {
                return Err(DataStoreError::CoordinatesNotFound);
            },
        };
        if q == 0 {
            return Err(DataStoreError::CoordinatesNotFound);
        }
        match map_get_index_of(&self.data, key.as_str()) {
            Some(j) => {
                proof {
                    lemma_key_index(e, key@, j as int);
                }
                let (_, rv) = map_get_index(&self.data, j).unwrap();
                let mut cells = copy_cells(rv);
                assert(cells_of(cells@) =~= e[j as int].1);
                if q - 1 >= cells.len() {
                    return Err(DataStoreError::CoordinatesNotFound);
                }
                cells.set(q - 1, value);
                assert(cells_of(cells@) =~= e[j as int].1.update(q - 1, value@));
                map_insert(&mut self.data, key, cells);
                Ok(())
            },
            None => {
                let mut cells: Vec<String> = Vec::new();
                let n = header.len();
                let mut i: usize = 0;
                while i < n
                    invariant
                        n == header@.len(),
                        i <= n,
                        cells@.len() == i,
                        forall|j: int| 0 <= j < i ==> (#[trigger] cells@[j])@ == Seq::<char>::empty(),
                    decreases n - i,
                {
                    let blank = String::new();
                    cells.push(blank);
                    i = i + 1;
                }
                assert(cells_of(cells@) =~= blank_row(n as nat));
                cells.set(q - 1, value);
                assert(cells_of(cells@) =~= blank_row(n as nat).update(q - 1, value@));
                map_insert(&mut self.data, key, cells);
                Ok(())
            },
        }
    }

    /// Stores `entry_vec` as the row of `key`, replacing a row that had the
    /// key in its place, or as a new last row.
    pub fn add_row(&mut self, key: String, entry_vec: Vec<String>) -> (r: Result<(), DataStoreError>)
        requires
            old(self).wf(),
        ensures
            final(self).wf(),
            final(self).path() == old(self).path(),
            r is Ok,
            final(self).rows() == with_row(old(self).rows(), key@, cells_of(entry_vec@)),
    {
        let ghost e = self.rows();
        proof {
            if has_key(e, key@) {
                let j = choose|j: int| 0 <= j < e.len() && e[j].0 == key@;
                lemma_key_index(e, key@, j);
            }
        }
        map_insert(&mut self.data, key, entry_vec);
        Ok(())
    }

    /// Removes the row of `key`; the others keep their order.
    pub fn delete_row(&mut self, key: &str) -> (r: Result<(), DataStoreError>)
        requires
            old(self).wf(),
        ensures
            final(self).wf(),
            final(self).path() == old(self).path(),
            r is Ok <==> has_key(old(self).rows(), key@),
            r is Ok ==> final(self).rows() == without_key(old(self).rows(), key@),
            !has_key(final(self).rows(), key@),
            r is Err ==> final(self).rows() == old(self).rows() && r == Err::<(), DataStoreError>(
                DataStoreError::CoordinatesNotFound,
            ),
    {
        let ghost e = self.rows();
        proof {
            if has_key(e, key@) {
                let j = choose|j: int| 0 <= j < e.len() && e[j].0 == key@;
                lemma_key_index(e, key@, j);
            }
        }
        proof {
            lemma_without_key(e, key@);
        }
        match map_shift_remove(&mut self.data, key) {
            Some(_) => Ok(()),
            None => Err(DataStoreError::CoordinatesNotFound),
        }
    }

    /// The cell of row `key` under `column`; the key itself under `key`. A
    /// column that the header does not name gives the empty string.
    pub fn get_item(&self, key: &str, column: &str) -> (r: Result<String, DataStoreError>)
        requires
            self.wf(),
        ensures
            ({
                let e = self.rows();
                match column_position(column@, self.header()) {
                    None => r matches Ok(s) && s@.len() == 0,
                    Some(q) => if !has_key(e, key@) {
                        r == Err::<String, DataStoreError>(DataStoreError::CoordinatesNotFound)
                    } else if q == 0 {
                        r matches Ok(s) && s@ == key@
                    } else if q - 1 < e[key_index(e, key@)].1.len() {
                        r matches Ok(s) && s@ == e[key_index(e, key@)].1[q - 1]
                    } else {
                        r == Err::<String, DataStoreError>(DataStoreError::CoordinatesNotFound)
                    },
                }
            }),
    {
        let ghost e = self.rows();
        let header = self.header_cells();
        let q = match resolve(column, &header) {
            Some(q) => q,
            None => {
                return Ok(String::new());
            },
        };
        match map_get_index_of(&self.data, key) {
            Some(j) => {
                proof {
                    lemma_key_index(e, key@, j as int);
                }
                let (rk, rv) = map_get_index(&self.data, j).unwrap();
                if q == 0 {
                    Ok(rk.clone())
                } else if q - 1 < rv.len() {
                    assert(cells_of(rv@)[q - 1] == rv@[q - 1]@);
                    Ok(rv[q - 1].clone())
                } else {
                    Err(DataStoreError::CoordinatesNotFound)
                }
            },
            None => Err(DataStoreError::CoordinatesNotFound),
        }
    }

    /// Appends a column: the header row gets `column_name`, every other row
    /// gets `default_value`. A name that the header already has is refused.
    pub fn add_col(&mut self, column_name: String, default_value: String) -> (r: Result<
        (),
        DataStoreError,
    >)
        requires
            old(self).wf(),
        ensures
            final(self).wf(),
            final(self).path() == old(self).path(),
            r is Err <==> old(self).header().contains(column_name@),
            r is Err ==> final(self).rows() == old(self).rows(),
            r is Err ==> (r matches Err(DataStoreError::DuplicateColumn(n)) && n@ == column_name@),
            r is Ok ==> forall|i: int|
                0 <= i < old(self).rows().len() ==> (#[trigger] final(self).rows()[i]).1.len()
                    == old(self).rows()[i].1.len() + 1,
            r is Ok && old(self).rows().len() > 0 ==> final(self).header() == old(
                self,
            ).header().push(column_name@),
            r is Ok ==> final(self).rows().len() == old(self).rows().len() && forall|i: int|
                0 <= i < old(self).rows().len() ==> #[trigger] final(self).rows()[i] == (
                    old(self).rows()[i].0,
                    old(self).rows()[i].1.push(
                        if i == 0 {
                            column_name@
                        } else {
                            default_value@
                        },
                    ),
                ),
    {
        let ghost e = self.rows();
        let header = self.header_cells();
        let mut k: usize = 0;
        while k < header.len()
            invariant
                k <= header@.len(),
                self.data == old(self).data,
                self.filename == old(self).filename,
                self.wf(),
                cells_of(header@) == old(self).header(),
                forall|j: int| 0 <= j < k ==> header@[j]@ != column_name@,
            decreases header@.len() - k,
        {
            if crate::text::same_text(header[k].as_str(), column_name.as_str()) {
                assert(cells_of(header@)[k as int] == column_name@);
                return Err(DataStoreError::DuplicateColumn(column_name));
            }
            k = k + 1;
        }
        assert(!old(self).header().contains(column_name@)) by {
            if old(self).header().contains(column_name@) {
                let j = choose|j: int|
                    0 <= j < old(self).header().len() && old(self).header()[j] == column_name@;
                assert(cells_of(header@)[j] == header@[j]@);
            }
        }
        let n = map_len(&self.data);
        let mut i: usize = 0;
        while i < n
            invariant
                n == e.len(),
                i <= n,
                keys_unique(e),
                keys_unique(entries_of(self.data)),
                self.filename == old(self).filename,
                e == old(self).rows(),
                entries_of(self.data).len() == n,
                forall|j: int|
                    0 <= j < i ==> #[trigger] entries_of(self.data)[j] == (
                        e[j].0,
                        e[j].1.push(
                            if j == 0 {
                                column_name@
                            } else {
                                default_value@
                            },
                        ),
                    ),
                forall|j: int| i <= j < n ==> #[trigger] entries_of(self.data)[j] == e[j],
            decreases n - i,
        {
            let (rk, rv) = map_get_index(&self.data, i).unwrap();
            let ck = rk.clone();
            let mut cells = copy_cells(rv);
            if i == 0 {
                cells.push(column_name.clone());
            } else {
                cells.push(default_value.clone());
            }
            let ghost before = entries_of(self.data);
            proof {
                lemma_key_index(before, ck@, i as int);
            }
            let ghost want = (
                e[i as int].0,
                e[i as int].1.push(
                    if i == 0 {
                        column_name@
                    } else {
                        default_value@
                    },
                ),
            );
            assert(cells_of(cells@) =~= want.1);
            map_insert(&mut self.data, ck, cells);
            assert(entries_of(self.data) == before.update(i as int, want));
            i = i + 1;
        }
        Ok(())
    }
    /// A new store, with the same path, of the rows at places `row_range`
    /// (all rows when `None`) cut to the columns `column_range` (all header
    /// columns when `None`). Unknown column names, or a range that ends past
    /// the last row, are refused.
    pub fn select(
        &self,
        row_range: Option<std::ops::Range<usize>>,
        column_range: Option<Vec<String>>,
    ) -> (r: Result<ColumnDB, DataStoreError>)
        requires
            self.wf(),
        ensures
            ({
                let h = self.header();
                let e = self.rows();
                let names_ok = match column_range {
                    Some(names) => unresolved(cells_of(names@), h).len() == 0,
                    None => true,
                };
                let cols = match column_range {
                    Some(names) => projection(cells_of(names@), h),
                    None => all_columns(h),
                };
                let start: int = match row_range {
                    Some(rr) => rr.start as int,
                    None => 0,
                };
                let end: int = match row_range {
                    Some(rr) => rr.end as int,
                    None => e.len() as int,
                };
                &&& !names_ok ==> (r matches Err(
                    DataStoreError::InvalidSelectionRange { expected, found },
                ) && expected@ == header_message(h) && found@ == missing_message(
                    unresolved(cells_of(column_range->Some_0@), h),
                ))
                &&& names_ok && end > e.len() ==> (r matches Err(
                    DataStoreError::InvalidSelectionRange { expected, found },
                ) && expected@ == bound_message(e.len()) && found@ == end_message(end as nat))
                &&& names_ok && end <= e.len() ==> (r matches Ok(db) && db.wf() && db.path()
                    == self.path() && db.rows() == selected_rows(e, start, end, cols))
            }),
    {
        let ghost e = self.rows();
        let header = self.header_cells();
        let ghost h = cells_of(header@);
        let mut cols: Vec<usize> = Vec::new();
        match &column_range {
            Some(names) => {
                let ghost nv = cells_of(names@);
                let mut missing: Vec<String> = Vec::new();
                let mut i: usize = 0;
                while i < names.len()
                    invariant
                        i <= names@.len(),
                        nv == cells_of(names@),
                        h == cells_of(header@),
                        cells_of(missing@) == unresolved(nv.subrange(0, i as int), h),
                        cols@.map_values(|c: usize| c as int) == projection(
                            nv.subrange(0, i as int),
                            h,
                        ),
                    decreases names@.len() - i,
                {
                    let ghost pre = nv.subrange(0, i as int);
                    let ghost cur = nv.subrange(0, i + 1);
                    assert(cur.drop_last() =~= pre);
                    assert(cur.last() == names@[i as int]@);
                    let ghost old_cols = cols@;
                    match resolve(names[i].as_str(), &header) {
                        None => {
                            missing.push(names[i].clone());
                            assert(cells_of(missing@) =~= unresolved(cur, h));
                        },
                        Some(p) => {
                            if p > 0 {
                                cols.push(p - 1);
                                assert(cols@ == old_cols.push((p - 1) as usize));
                                assert(cols@.map_values(|c: usize| c as int) =~= projection(
                                    cur,
                                    h,
                                ));
                            }
                        },
                    }
                    i = i + 1;
                }
                assert(nv.subrange(0, names@.len() as int) =~= nv);
                if missing.len() > 0 {
                    let expected = joined("Valid column names from header: ", listing(&header).as_str());
                    let found = joined("Missing columns: ", listing(&missing).as_str());
                    return Err(DataStoreError::InvalidSelectionRange { expected, found });
                }
            },
            None => {
                let mut i: usize = 0;
                while i < header.len()
                    invariant
                        i <= header@.len(),
                        cols@.len() == i,
                        cols@.map_values(|c: usize| c as int) == all_columns(h).subrange(
                            0,
                            i as int,
                        ),
                        h == cells_of(header@),
                    decreases header@.len() - i,
                {
                    let ghost old_cols = cols@;
                    cols.push(i);
                    assert(cols@ == old_cols.push(i));
                    assert forall|j: int| 0 <= j <= i implies #[trigger] cols@[j] as int == all_columns(h)[j] by {
                        if j < i {
                            assert(old_cols.map_values(|c: usize| c as int)[j] == all_columns(h).subrange(0, i as int)[j]);
                        }
                    }
                    assert(cols@.map_values(|c: usize| c as int) =~= all_columns(h).subrange(
                        0,
                        i + 1,
                    ));
                    i = i + 1;
                }
                assert(all_columns(h).subrange(0, header@.len() as int) =~= all_columns(h));
            },
        }
        let ghost cv = cols@.map_values(|c: usize| c as int);
        let n = map_len(&self.data);
        let (start, end) = match row_range {
            Some(rr) => (rr.start, rr.end),
            None => (0, n),
        };
        if end > n {
            let expected = joined("row range within 0..", number_text(n).as_str());
            let found = joined("end of range ", number_text(end).as_str());
            return Err(DataStoreError::InvalidSelectionRange { expected, found });
        }
        let mut picked = map_new();
        let mut i: usize = start;
        while i < end
            invariant
                start <= i,
                end <= n,
                n == e.len(),
                e == entries_of(self.data),
                keys_unique(e),
                keys_unique(entries_of(picked)),
                cv == cols@.map_values(|c: usize| c as int),
                start < end ==> start <= i <= end,
                start < end ==> entries_of(picked) == selected_rows(e, start as int, i as int, cv),
                start >= end ==> entries_of(picked) == Seq::<RowModel>::empty(),
            decreases end - i,
        {
            let (rk, rv) = map_get_index(&self.data, i).unwrap();
            let mut cells: Vec<String> = Vec::new();
            let mut k: usize = 0;
            while k < cols.len()
                invariant
                    k <= cols@.len(),
                    0 <= i < e.len(),
                    cv == cols@.map_values(|c: usize| c as int),
                    cells_of(rv@) == e[i as int].1,
                    cells_of(cells@) == pick(e[i as int].1, cv.subrange(0, k as int)),
                decreases cols@.len() - k,
            {
                let ghost cur = cv.subrange(0, k + 1);
                assert(cur.drop_last() =~= cv.subrange(0, k as int));
                assert(cur.last() == cols@[k as int] as int);
                let c = cols[k];
                if c < rv.len() {
                    assert(cells_of(rv@)[c as int] == rv@[c as int]@);
                    cells.push(rv[c].clone());
                    assert(cells_of(cells@) =~= pick(e[i as int].1, cur));
                }
                k = k + 1;
            }
            assert(cv.subrange(0, cols@.len() as int) =~= cv);
            let ghost before = entries_of(picked);
            assert(!has_key(before, rk@)) by {
                if has_key(before, rk@) {
                    let j = choose|j: int| 0 <= j < before.len() && before[j].0 == rk@;
                    assert(before[j].0 == e[start + j].0);
                }
            }
            let ghost row = (rk@, cells_of(cells@));
            assert(row == (e[i as int].0, pick(e[i as int].1, cv)));
            map_insert(&mut picked, rk.clone(), cells);
            assert(entries_of(picked) == before.push(row));
            assert(entries_of(picked) =~= selected_rows(e, start as int, i + 1, cv));
            i = i + 1;
        }
        proof {
            if start >= end {
                assert(selected_rows(e, start as int, end as int, cv) =~= Seq::<RowModel>::empty());
            }
        }
        Ok(ColumnDB { data: picked, filename: self.filename.clone() })
    }

    /// Loads the rows that a file's text holds, in order: a line's row
    /// replaces the row of its key in place or comes last; a line without a
    /// colon is passed over.
    pub fn load_text(&mut self, text: &str)
        requires
            old(self).wf(),
        ensures
            final(self).wf(),
            final(self).path() == old(self).path(),
            final(self).rows() == load_lines(old(self).rows(), text_lines(text@)),
    {
        let lines = split_lines(text);
        let ghost ls = cells_of(lines@);
        let ghost e0 = self.rows();
        let mut i: usize = 0;
        while i < lines.len()
            invariant
                i <= lines@.len(),
                ls == cells_of(lines@),
                ls == text_lines(text@),
                self.wf(),
                self.path() == old(self).path(),
                e0 == old(self).rows(),
                self.rows() == load_lines(e0, ls.subrange(0, i as int)),
            decreases lines@.len() - i,
        {
            let ghost cur = ls.subrange(0, i + 1);
            assert(cur.drop_last() =~= ls.subrange(0, i as int));
            assert(cur.last() == lines@[i as int]@);
            match parse_text_line(lines[i].as_str()) {
                Some((k, c)) => {
                    let _ = self.add_row(k, c);
                },
                None => {},
            }
            i = i + 1;
        }
        assert(ls.subrange(0, lines@.len() as int) =~= ls);
    }

    /// A store of path `file_name` loaded from the text of its file.
    pub fn from_text(file_name: &str, text: &str) -> (r: ColumnDB)
        ensures
            r.wf(),
            r.path() == file_name@,
            r.rows() == load_lines(Seq::empty(), text_lines(text@)),
    {
        let mut db = ColumnDB::new(file_name);
        db.load_text(text);
        db
    }

    /// The text of the backing file: one line per row, in order.
    pub fn to_text(&self) -> (r: String)
        ensures
            r@ == render(self.rows()),
    {
        let ghost e = self.rows();
        let n = map_len(&self.data);
        let mut out = String::new();
        let mut i: usize = 0;
        while i < n
            invariant
                n == e.len(),
                e == entries_of(self.data),
                i <= n,
                out@ == render(e.subrange(0, i as int)),
            decreases n - i,
        {
            let ghost cur = e.subrange(0, i + 1);
            assert(cur.drop_last() =~= e.subrange(0, i as int));
            let (k, v) = map_get_index(&self.data, i).unwrap();
            let line = line_text(k, v);
            assert(cur.last() == (k@, cells_of(v@)));
            out.append(line.as_str());
            i = i + 1;
        }
        assert(e.subrange(0, n as int) =~= e);
        out
    }

}

} // verus!
