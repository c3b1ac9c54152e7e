//! A named, schema-fixed, columnar table.

use vstd::prelude::*;

use crate::data::{Data, DataModel, data_eq, data_lt, data_lt_exec, lemma_data_lt_trans,
    lemma_data_lt_trichotomy};

verus! {

broadcast use vstd::seq_lib::group_seq_properties;

/// Why a table operation was refused.
#[derive(Clone, Copy, Debug, PartialEq, Eq, Structural)]
pub enum TableError {
    /// A row did not supply exactly one value per attribute.
    IncorrectRowSize,
    /// The named attribute is not part of the table's schema.
    AttributeNotFound,
    /// The row index is at or beyond the table's row count.
    IndexOutOfRange,
    /// The same attribute was given twice at table creation.
    DuplicateAttribute,
}

impl TableError {
    /// A short description of the error, fit for showing to a caller.
    pub fn message(&self) -> (r: String)
        ensures
            r@ == match self {
                TableError::IncorrectRowSize => "row does not have enough elements to be pushed (note: attributes can be set to None)"@,
                TableError::AttributeNotFound => "the given attribute was not found"@,
                TableError::IndexOutOfRange => "the given row index is beyond the last row"@,
                TableError::DuplicateAttribute => "the same attribute was given more than once"@,
            },
    {
        match self {
            TableError::IncorrectRowSize => String::from_str(
                "row does not have enough elements to be pushed (note: attributes can be set to None)",
            ),
            TableError::AttributeNotFound => String::from_str(
                "the given attribute was not found",
            ),
            TableError::IndexOutOfRange => String::from_str(
                "the given row index is beyond the last row",
            ),
            TableError::DuplicateAttribute => String::from_str(
                "the same attribute was given more than once",
            ),
        }
    }
}

/// Whether a sequence of values is strictly ascending in the
/// [`data_lt`] order; such a sequence holds no value twice.
pub open spec fn sorted_strict(s: Seq<DataModel>) -> bool {
    forall|i: int, j: int| 0 <= i < j < s.len() ==> data_lt(s[i], s[j])
}

/// A named table: a fixed, sorted set of attribute values, and one
/// column of optional cell values per attribute.  All columns always
/// have the same length, the row count.  Every operation requires and
/// preserves [`Table::wf`].
pub struct Table {
    /// Name of the table, fixed at creation.
    pub name: Data,
    /// The schema: column identifiers, strictly sorted by [`data_lt`].
    pub attrs: Vec<Data>,
    /// One column per attribute, in the same order as `attrs`.
    pub cols: Vec<Vec<Option<Data>>>,
}

impl Table {
    /// Model of the table's name.
    pub open spec fn spec_name(&self) -> DataModel {
        self.name@
    }

    /// Model of the schema: the attribute values in their sorted order.
    pub open spec fn spec_attrs(&self) -> Seq<DataModel> {
        self.attrs.deep_view()
    }

    /// Model of the columns, parallel to [`Table::spec_attrs`].
    pub open spec fn spec_cols(&self) -> Seq<Seq<Option<DataModel>>> {
        self.cols.deep_view()
    }

    /// Number of rows stored.
    pub open spec fn spec_row_count(&self) -> int {
        if self.spec_cols().len() == 0 {
            0
        } else {
            self.spec_cols()[0].len() as int
        }
    }

    /// Whether `a` identifies a column of this table.
    pub open spec fn has_attr(&self, a: DataModel) -> bool {
        self.spec_attrs().contains(a)
    }

    /// The position of attribute `a` in the sorted schema.
    pub open spec fn attr_index(&self, a: DataModel) -> int {
        self.spec_attrs().index_of(a)
    }

    /// The column identified by attribute `a`.
    pub open spec fn spec_col(&self, a: DataModel) -> Seq<Option<DataModel>> {
        self.spec_cols()[self.attr_index(a)]
    }

    /// Well-formedness: the schema is non-empty and strictly sorted,
    /// and there is exactly one column per attribute, all of the same
    /// length.
    pub open spec fn wf(&self) -> bool {
        &&& self.spec_attrs().len() > 0
        &&& sorted_strict(self.spec_attrs())
        &&& self.spec_cols().len() == self.spec_attrs().len()
        &&& forall|i: int|
            0 <= i < self.spec_cols().len() ==> #[trigger] self.spec_cols()[i].len()
                == self.spec_row_count()
    }

    /// Create a new empty table with the given name and schema.  The
    /// attributes may come in any order; the table keeps them sorted by
    /// [`data_lt`].  A duplicated attribute is rejected, so that the
    /// schema stays a well-defined set.
    pub fn new(name: Data, attributes: Vec<Data>) -> (r: Result<Table, TableError>)
        requires
            attributes@.len() > 0,
        ensures
            attributes.deep_view().no_duplicates() <==> r is Ok,
            r matches Err(e) ==> e == TableError::DuplicateAttribute,
            r matches Ok(t) ==> {
                &&& t.wf()
                &&& t.spec_name() == name@
                &&& t.spec_attrs().len() == attributes.deep_view().len()
                &&& forall|a: DataModel| t.has_attr(a) <==> attributes.deep_view().contains(a)
                &&& t.spec_row_count() == 0
                &&& forall|a: DataModel| t.has_attr(a) ==> t.spec_col(a) =~= Seq::<
                    Option<DataModel>,
                >::empty()
            },
    {
        let n = attributes.len();
        let mut attrs: Vec<Data> = Vec::new();
        let mut k: usize = 0;
        while k < n
            invariant
                n == attributes@.len(),
                k <= n,
                sorted_strict(attrs.deep_view()),
                attrs.deep_view().len() == k,
                forall|a: DataModel|
                    attrs.deep_view().contains(a) <==> attributes.deep_view().take(
                        k as int,
                    ).contains(a),
                attributes.deep_view().take(k as int).no_duplicates(),
            decreases n - k,
        {
            let a = &attributes[k];
            let (pos, found) = search_sorted(&attrs, a);
            if found {
                proof {
                    let ghost pre = attributes.deep_view().take(k as int);
                    assert(pre.contains(a.deep_view()));
                    let ghost j = choose|j: int|
                        0 <= j < pre.len() && pre[j] == a.deep_view();
                    assert(attributes.deep_view()[j] == a.deep_view());
                    assert(attributes.deep_view()[k as int] == a.deep_view());
                    assert(!attributes.deep_view().no_duplicates());
                }
                return Err(TableError::DuplicateAttribute);
            }
            let ghost old_attrs = attrs.deep_view();
            attrs.insert(pos, a.clone());
            proof {
                assert(attrs.deep_view() =~= old_attrs.insert(pos as int, a.deep_view()));
                lemma_insert_sorted(old_attrs, pos as int, a.deep_view());
                assert(attributes.deep_view().take(k as int).push(a.deep_view())
                    =~= attributes.deep_view().take(k as int + 1));
                assert forall|x: DataModel| attrs.deep_view().contains(x) implies
                    attributes.deep_view().take(k as int + 1).contains(x) by {
                    let i = choose|i: int|
                        0 <= i < attrs.deep_view().len() && #[trigger] attrs.deep_view()[i] == x;
                    if i == pos {
                        assert(x == a.deep_view());
                        assert(attributes.deep_view().take(k as int + 1)[k as int] == x);
                    } else {
                        if i < pos {
                            assert(old_attrs[i] == x);
                        } else {
                            assert(old_attrs[i - 1] == x);
                        }
                        assert(old_attrs.contains(x));
                        let j = choose|j: int|
                            0 <= j < k && #[trigger] attributes.deep_view().take(k as int)[j] == x;
                        assert(attributes.deep_view().take(k as int + 1)[j] == x);
                    }
                }
                assert forall|x: DataModel|
                    attributes.deep_view().take(k as int + 1).contains(x) implies
                    attrs.deep_view().contains(x) by {
                    let i = choose|i: int|
                        0 <= i < k + 1 && #[trigger] attributes.deep_view().take(k as int + 1)[i]
                            == x;
                    if i < k {
                        assert(attributes.deep_view().take(k as int)[i] == x);
                        assert(attributes.deep_view().take(k as int).contains(x));
                        assert(old_attrs.contains(x));
                        let j = choose|j: int| 0 <= j < old_attrs.len() && #[trigger] old_attrs[j]
                            == x;
                        if j < pos {
                            assert(attrs.deep_view()[j] == x);
                        } else {
                            assert(attrs.deep_view()[j + 1] == x);
                        }
                    } else {
                        assert(attrs.deep_view()[pos as int] == x);
                    }
                }
            }
            k += 1;
        }
        proof {
            assert(attributes.deep_view().take(n as int) =~= attributes.deep_view());
        }
        let mut cols: Vec<Vec<Option<Data>>> = Vec::new();
        let mut c: usize = 0;
        let alen = attrs.len();
        while c < alen
            invariant
                c <= alen,
                cols.deep_view().len() == c,
                forall|i: int|
                    0 <= i < c ==> #[trigger] cols.deep_view()[i] =~= Seq::<
                        Option<DataModel>,
                    >::empty(),
            decreases alen - c,
        {
            let ghost old_cols = cols@;
            let ghost old_dv = cols.deep_view();
            cols.push(Vec::new());
            proof {
                assert forall|i: int| 0 <= i < c + 1 implies #[trigger] cols.deep_view()[i] =~= Seq::<
                    Option<DataModel>,
                >::empty() by {
                    assert(cols.deep_view()[i] == cols@[i].deep_view());
                    if i < c {
                        assert(cols@[i] == old_cols[i]);
                        assert(old_dv[i] == old_cols[i].deep_view());
                    } else {
                        assert(cols@[i]@.len() == 0);
                    }
                }
            }
            c += 1;
        }
        Ok(Table { name, attrs, cols })
    }
}

/// The attribute each pair of a row names, in row order.
pub open spec fn row_keys(row: Seq<(Data, Option<Data>)>) -> Seq<DataModel> {
    row.map_values(|p: (Data, Option<Data>)| p.0.deep_view())
}

/// The cell value a row assigns to attribute `a`: the value of the
/// pair naming `a`.  Meaningful when the row's keys are distinct and
/// contain `a`.
pub open spec fn row_value(row: Seq<(Data, Option<Data>)>, a: DataModel) -> Option<DataModel> {
    row[row_keys(row).index_of(a)].1.deep_view()
}

impl Table {
    /// Whether a row fits this table: one pair per attribute of the
    /// schema, no attribute twice, no attribute from outside it.
    pub open spec fn row_ok(&self, row: Seq<(Data, Option<Data>)>) -> bool {
        &&& row.len() == self.spec_attrs().len()
        &&& forall|j: int| 0 <= j < row.len() ==> self.has_attr(#[trigger] row_keys(row)[j])
        &&& row_keys(row).no_duplicates()
    }

    /// Append one row.  Each pair names an attribute and carries the
    /// optional cell value to store under it; the row must cover the
    /// schema exactly.  On any failure the table is left unchanged: no
    /// column grows.  A row that names an attribute twice necessarily
    /// leaves another uncovered, so it is refused as
    /// [`TableError::IncorrectRowSize`]; a row naming an attribute
    /// outside the schema is refused as
    /// [`TableError::AttributeNotFound`].  On success the result is the
    /// new row's index, the previous row count.
    pub fn push_row(&mut self, row: Vec<(Data, Option<Data>)>) -> (r: Result<usize, TableError>)
        requires
            old(self).wf(),
        ensures
            final(self).wf(),
            final(self).spec_name() == old(self).spec_name(),
            final(self).spec_attrs() == old(self).spec_attrs(),
            old(self).row_ok(row@) <==> r is Ok,
            r is Err ==> *final(self) == *old(self),
            row@.len() != old(self).spec_attrs().len() ==> r == Err::<usize, TableError>(
                TableError::IncorrectRowSize,
            ),
            row@.len() == old(self).spec_attrs().len() && (exists|j: int|
                0 <= j < row@.len() && !old(self).has_attr(#[trigger] row_keys(row@)[j])) ==> r
                == Err::<usize, TableError>(TableError::AttributeNotFound),
            row@.len() == old(self).spec_attrs().len() && (forall|j: int|
                0 <= j < row@.len() ==> old(self).has_attr(#[trigger] row_keys(row@)[j]))
                && !row_keys(row@).no_duplicates() ==> r == Err::<usize, TableError>(
                TableError::IncorrectRowSize,
            ),
            r matches Ok(idx) ==> {
                &&& idx == old(self).spec_row_count()
                &&& final(self).spec_row_count() == old(self).spec_row_count() + 1
                &&& forall|a: DataModel|
                    old(self).has_attr(a) ==> final(self).spec_col(a) == old(self).spec_col(
                        a,
                    ).push(row_value(row@, a))
            },
    {
        let rlen = row.len();
        let alen = self.attrs.len();
        if rlen != alen {
            return Err(TableError::IncorrectRowSize);
        }
        // Every named attribute must belong to the schema.
        let mut j: usize = 0;
        while j < rlen
            invariant
                *self == *old(self),
                old(self).wf(),
                rlen == row@.len(),
                alen == old(self).spec_attrs().len(),
                rlen == alen,
                j <= rlen,
                forall|l: int| 0 <= l < j ==> old(self).has_attr(#[trigger] row_keys(row@)[l]),
            decreases rlen - j,
        {
            let (_, found) = search_sorted(&self.attrs, &row[j].0);
            proof {
                assert(row_keys(row@)[j as int] == row@[j as int].0.deep_view());
            }
            if !found {
                proof {
                    assert(!old(self).has_attr(row_keys(row@)[j as int]));
                }
                return Err(TableError::AttributeNotFound);
            }
            j += 1;
        }
        // No attribute may be named twice.
        let mut j2: usize = 1;
        while j2 < rlen
            invariant
                *self == *old(self),
                old(self).wf(),
                rlen == row@.len(),
                alen == old(self).spec_attrs().len(),
                rlen == alen,
                forall|l: int| 0 <= l < rlen ==> old(self).has_attr(#[trigger] row_keys(row@)[l]),
                1 <= j2 <= rlen || rlen == 0,
                forall|x: int, y: int|
                    0 <= x < y < j2 ==> #[trigger] row_keys(row@)[x] != #[trigger] row_keys(
                        row@,
                    )[y],
            decreases rlen - j2,
        {
            let mut l: usize = 0;
            while l < j2
                invariant
                    *self == *old(self),
                    old(self).wf(),
                    rlen == row@.len(),
                    alen == old(self).spec_attrs().len(),
                    rlen == alen,
                    forall|y: int|
                        0 <= y < rlen ==> old(self).has_attr(#[trigger] row_keys(row@)[y]),
                    j2 < rlen,
                    l <= j2,
                    forall|x: int|
                        0 <= x < l ==> #[trigger] row_keys(row@)[x] != row_keys(
                            row@,
                        )[j2 as int],
                decreases j2 - l,
            {
                proof {
                    assert(row_keys(row@)[l as int] == row@[l as int].0.deep_view());
                    assert(row_keys(row@)[j2 as int] == row@[j2 as int].0.deep_view());
                }
                if data_eq(&row[l].0, &row[j2].0) {
                    proof {
                        assert(row_keys(row@)[l as int] == row_keys(row@)[j2 as int]);
                        assert(!row_keys(row@).no_duplicates());
                    }
                    return Err(TableError::IncorrectRowSize);
                }
                l += 1;
            }
            j2 += 1;
        }
        proof {
            assert(row_keys(row@).no_duplicates());
            assert(old(self).row_ok(row@));
        }
        // The row covers the schema: as many distinct keys as attributes,
        // all of them attributes.
        proof {
            lemma_sorted_distinct(old(self).spec_attrs());
            lemma_distinct_cover(row_keys(row@), old(self).spec_attrs());
        }
        // Grow every column by its value from the row.
        let ghost old_table = *self;
        let mut i: usize = 0;
        while i < alen
            invariant
                old_table.wf(),
                old_table.row_ok(row@),
                alen == old_table.spec_attrs().len(),
                rlen == row@.len(),
                i <= alen,
                self.name == old_table.name,
                self.attrs == old_table.attrs,
                self.cols@.len() == old_table.cols@.len(),
                forall|x: int|
                    0 <= x < alen ==> row_keys(row@).contains(
                        #[trigger] old_table.spec_attrs()[x],
                    ),
                forall|l: int|
                    i <= l < alen ==> #[trigger] self.spec_cols()[l] == old_table.spec_cols()[l],
                forall|l: int|
                    0 <= l < i ==> #[trigger] self.spec_cols()[l] == old_table.spec_cols()[l].push(
                        row_value(row@, old_table.spec_attrs()[l]),
                    ),
            decreases alen - i,
        {
            let ghost a = old_table.spec_attrs()[i as int];
            // Find the pair that names this attribute.
            let mut p: usize = 0;
            let mut found = false;
            while p < rlen && !found
                invariant
                    rlen == row@.len(),
                    p <= rlen,
                    i < alen,
                    alen == old_table.spec_attrs().len(),
                    self.attrs == old_table.attrs,
                    a == old_table.spec_attrs()[i as int],
                    !found ==> forall|x: int| 0 <= x < p ==> #[trigger] row_keys(row@)[x] != a,
                    found ==> p < rlen && row_keys(row@)[p as int] == a,
                decreases rlen - p + (if found { 0int } else { 1 }),
            {
                proof {
                    assert(row_keys(row@)[p as int] == row@[p as int].0.deep_view());
                    assert(old_table.spec_attrs()[i as int] == self.attrs@[i as int].deep_view());
                }
                if data_eq(&row[p].0, &self.attrs[i]) {
                    found = true;
                } else {
                    p += 1;
                }
            }
            proof {
                if !found {
                    assert(row_keys(row@).contains(a));
                    let w = choose|w: int|
                        0 <= w < row_keys(row@).len() && #[trigger] row_keys(row@)[w] == a;
                    assert(false);
                }
                // the matching pair is unique, so it is the one row_value names
                let ridx = row_keys(row@).index_of(a);
                assert(row_keys(row@)[ridx] == a);
                assert(ridx == p as int);
                assert(row_value(row@, a) == row@[p as int].1.deep_view());
            }
            let v = clone_cell(&row[p].1);
            let ghost pre_cols = self.cols@;
            let ghost pre_dv = self.spec_cols();
            self.cols[i].push(v);
            proof {
                assert forall|l: int| 0 <= l < alen && l != i implies #[trigger] self.spec_cols()[l]
                    == pre_dv[l] by {
                    assert(self.cols@[l] == pre_cols[l]);
                    assert(self.spec_cols()[l] == self.cols@[l].deep_view());
                    assert(pre_dv[l] == pre_cols[l].deep_view());
                }
                assert(self.spec_cols()[i as int] == self.cols@[i as int].deep_view());
                assert(self.cols@[i as int]@ == pre_cols[i as int]@.push(v));
                assert(self.spec_cols()[i as int] =~= pre_dv[i as int].push(
                    row_value(row@, a),
                ));
            }
            i += 1;
        }
        // The new row count is the old one plus one; the result is the
        // new row's index.
        proof {
            assert(self.spec_cols()[0] == old_table.spec_cols()[0].push(
                row_value(row@, old_table.spec_attrs()[0]),
            ));
            assert(self.cols@[0]@.len() == self.spec_cols()[0].len());
        }
        let n = self.cols[0].len() - 1;
        proof {
            assert(self.spec_cols()[0] == self.cols@[0].deep_view());
            assert(old_table.spec_cols()[0].len() == old_table.spec_row_count());
            assert(self.spec_cols()[0].len() == old_table.spec_row_count() + 1);
            assert forall|l: int| 0 <= l < self.spec_cols().len() implies #[trigger] self
                .spec_cols()[l].len() == self.spec_row_count() by {
                assert(self.spec_cols()[l] == old_table.spec_cols()[l].push(
                    row_value(row@, old_table.spec_attrs()[l]),
                ));
            }
            assert(self.wf());
            assert forall|a: DataModel| old_table.has_attr(a) implies self.spec_col(a)
                == old_table.spec_col(a).push(row_value(row@, a)) by {
                let idx = old_table.attr_index(a);
                assert(old_table.spec_attrs()[idx] == a);
                assert(self.attr_index(a) == idx) by {
                    assert(self.spec_attrs()[idx] == a);
                    let idx2 = self.attr_index(a);
                    assert(self.spec_attrs()[idx2] == a);
                    if idx2 != idx {
                        lemma_data_lt_trichotomy(a, a);
                    }
                }
            }
        }
        Ok(n)
    }
}

impl Table {
    /// Read the cell stored under `attribute` in the row numbered
    /// `row_id`.  An attribute from outside the schema and a row index
    /// at or past the row count are both reported, never indexed.
    pub fn get_cell(&self, attribute: &Data, row_id: usize) -> (r: Result<
        &Option<Data>,
        TableError,
    >)
        requires
            self.wf(),
        ensures
            r is Ok <==> self.has_attr(attribute@) && row_id < self.spec_row_count(),
            !self.has_attr(attribute@) ==> r == Err::<&Option<Data>, TableError>(
                TableError::AttributeNotFound,
            ),
            self.has_attr(attribute@) && row_id >= self.spec_row_count() ==> r == Err::<
                &Option<Data>,
                TableError,
            >(TableError::IndexOutOfRange),
            r matches Ok(c) ==> c.deep_view() == self.spec_col(attribute@)[row_id as int],
    {
        let (pos, found) = search_sorted(&self.attrs, attribute);
        if !found {
            return Err(TableError::AttributeNotFound);
        }
        proof {
            lemma_attr_index(self, attribute@, pos as int);
            assert(self.spec_cols()[pos as int].len() == self.spec_row_count());
            assert(self.spec_cols()[pos as int] == self.cols@[pos as int].deep_view());
        }
        if row_id >= self.cols[pos].len() {
            return Err(TableError::IndexOutOfRange);
        }
        let c = &self.cols[pos][row_id];
        proof {
            assert(c.deep_view() == self.cols@[pos as int].deep_view()[row_id as int]);
        }
        Ok(c)
    }

    /// Overwrite the cell stored under `attribute` in the row numbered
    /// `row_id`, in place.  The same checks are made as in
    /// [`Table::get_cell`], and on any failure the table is left
    /// unchanged.
    pub fn set_cell(&mut self, attribute: &Data, row_id: usize, value: Option<Data>) -> (r: Result<
        (),
        TableError,
    >)
        requires
            old(self).wf(),
        ensures
            final(self).wf(),
            final(self).spec_name() == old(self).spec_name(),
            final(self).spec_attrs() == old(self).spec_attrs(),
            final(self).spec_row_count() == old(self).spec_row_count(),
            r is Ok <==> old(self).has_attr(attribute@) && row_id < old(self).spec_row_count(),
            !old(self).has_attr(attribute@) ==> r == Err::<(), TableError>(
                TableError::AttributeNotFound,
            ),
            old(self).has_attr(attribute@) && row_id >= old(self).spec_row_count() ==> r == Err::<
                (),
                TableError,
            >(TableError::IndexOutOfRange),
            r is Err ==> *final(self) == *old(self),
            r is Ok ==> {
                &&& final(self).spec_col(attribute@) == old(self).spec_col(attribute@).update(
                    row_id as int,
                    value.deep_view(),
                )
                &&& forall|a: DataModel|
                    old(self).has_attr(a) && a != attribute@ ==> final(self).spec_col(a) == old(
                        self,
                    ).spec_col(a)
            },
    {
        let (pos, found) = search_sorted(&self.attrs, attribute);
        if !found {
            return Err(TableError::AttributeNotFound);
        }
        proof {
            lemma_attr_index(self, attribute@, pos as int);
            assert(self.spec_cols()[pos as int] == self.cols@[pos as int].deep_view());
            assert(self.spec_cols()[pos as int].len() == self.spec_row_count());
        }
        if row_id >= self.cols[pos].len() {
            return Err(TableError::IndexOutOfRange);
        }
        let ghost old_t = *self;
        let ghost pre_cols = self.cols@;
        let ghost pre_dv = self.spec_cols();
        self.cols[pos].set(row_id, value);
        proof {
            assert forall|l: int|
                0 <= l < pre_cols.len() && l != pos implies #[trigger] self.spec_cols()[l]
                == pre_dv[l] by {
                assert(self.cols@[l] == pre_cols[l]);
                assert(self.spec_cols()[l] == self.cols@[l].deep_view());
                assert(pre_dv[l] == pre_cols[l].deep_view());
            }
            assert(self.spec_cols()[pos as int] == self.cols@[pos as int].deep_view());
            assert(self.spec_cols()[pos as int] =~= pre_dv[pos as int].update(
                row_id as int,
                value.deep_view(),
            ));
            assert(self.spec_cols()[0].len() == old_t.spec_cols()[0].len());
            assert(self.spec_row_count() == old_t.spec_row_count());
            assert forall|l: int|
                0 <= l < self.spec_cols().len() implies #[trigger] self.spec_cols()[l].len()
                == self.spec_row_count() by {
                if l != pos {
                    assert(self.spec_cols()[l] == pre_dv[l]);
                }
            }
            assert forall|a: DataModel|
                old_t.has_attr(a) && a != attribute@ implies self.spec_col(a) == old_t.spec_col(
                a,
            ) by {
                let idx = old_t.attr_index(a);
                assert(old_t.spec_attrs()[idx] == a);
                if idx == pos {
                    assert(a == attribute@);
                }
            }
        }
        Ok(())
    }

    /// The table's name.
    pub fn name(&self) -> (r: &Data)
        ensures
            r@ == self.spec_name(),
    {
        &self.name
    }

    /// The schema, in its sorted order.
    pub fn attributes(&self) -> (r: &Vec<Data>)
        ensures
            r.deep_view() == self.spec_attrs(),
    {
        &self.attrs
    }

    /// How many attributes the schema has.
    pub fn attribute_count(&self) -> (r: usize)
        ensures
            r == self.spec_attrs().len(),
    {
        self.attrs.len()
    }

    /// How many rows the table holds.
    pub fn row_count(&self) -> (r: usize)
        requires
            self.wf(),
        ensures
            r == self.spec_row_count(),
    {
        proof {
            assert(self.spec_cols()[0] == self.cols@[0].deep_view());
        }
        self.cols[0].len()
    }
}

/// In a strictly sorted schema an attribute sits at exactly one
/// position, so that position is its `attr_index`.
proof fn lemma_attr_index(t: &Table, a: DataModel, pos: int)
    requires
        sorted_strict(t.spec_attrs()),
        0 <= pos < t.spec_attrs().len(),
        t.spec_attrs()[pos] == a,
    ensures
        t.has_attr(a),
        t.attr_index(a) == pos,
{
    assert(t.spec_attrs().contains(a));
    let idx = t.attr_index(a);
    assert(t.spec_attrs()[idx] == a);
    if idx != pos {
        lemma_data_lt_trichotomy(a, a);
    }
}

/// Clones one cell value, preserving its model.
fn clone_cell(c: &Option<Data>) -> (r: Option<Data>)
    ensures
        r.deep_view() == c.deep_view(),
{
    match c {
        Some(d) => Some(d.clone()),
        None => None,
    }
}

/// Round trip through a pushed row: in the table that
/// [`Table::push_row`] leaves behind, reading the new row (the one at
/// the old row count) under any attribute the row named gives back
/// exactly the optional value the row paired with it — the stored
/// value for a pair `(a, Some(v))`, and nothing for a pair
/// `(a, None)`.  The premises on `t2` are what `push_row` ensures of a
/// successful call on `t`.
pub proof fn lemma_push_row_round_trip(
    t: Table,
    t2: Table,
    row: Seq<(Data, Option<Data>)>,
    j: int,
)
    requires
        t.wf(),
        t.row_ok(row),
        0 <= j < row.len(),
        t2.spec_row_count() == t.spec_row_count() + 1,
        forall|a: DataModel|
            t.has_attr(a) ==> t2.spec_col(a) == t.spec_col(a).push(row_value(row, a)),
    ensures
        t2.spec_col(row[j].0@)[t.spec_row_count()] == row[j].1.deep_view(),
{
    let a = row[j].0@;
    assert(row_keys(row)[j] == row[j].0.deep_view());
    assert(t.has_attr(a));
    let ridx = row_keys(row).index_of(a);
    assert(row_keys(row).contains(a));
    assert(row_keys(row)[ridx] == a);
    assert(ridx == j);
    assert(row_value(row, a) == row[j].1.deep_view());
    let idx = t.attr_index(a);
    assert(t.spec_attrs()[idx] == a);
    assert(t.spec_col(a).len() == t.spec_row_count());
    assert(t2.spec_col(a)[t.spec_row_count()] == row_value(row, a));
}

/// A strictly sorted sequence holds no value twice.
proof fn lemma_sorted_distinct(s: Seq<DataModel>)
    requires
        sorted_strict(s),
    ensures
        s.no_duplicates(),
{
    assert forall|i: int, j: int|
        0 <= i < s.len() && 0 <= j < s.len() && i != j implies s[i] != s[j] by {
        if i < j {
            lemma_data_lt_trichotomy(s[i], s[j]);
        } else {
            lemma_data_lt_trichotomy(s[j], s[i]);
        }
    }
}

/// A sequence of distinct values, all drawn from a distinct sequence of
/// the same length, covers that sequence.
proof fn lemma_distinct_cover(keys: Seq<DataModel>, attrs: Seq<DataModel>)
    requires
        keys.no_duplicates(),
        attrs.no_duplicates(),
        keys.len() == attrs.len(),
        forall|j: int| 0 <= j < keys.len() ==> attrs.contains(#[trigger] keys[j]),
    ensures
        forall|i: int| 0 <= i < attrs.len() ==> keys.contains(#[trigger] attrs[i]),
{
    broadcast use vstd::seq_lib::seq_to_set_is_finite;

    keys.unique_seq_to_set();
    attrs.unique_seq_to_set();
    assert(keys.to_set().subset_of(attrs.to_set()));
    vstd::set_lib::lemma_subset_equality(keys.to_set(), attrs.to_set());
    assert forall|i: int| 0 <= i < attrs.len() implies keys.contains(#[trigger] attrs[i]) by {
        assert(attrs.to_set().contains(attrs[i]));
        assert(keys.to_set().contains(attrs[i]));
    }
}

/// Where `a` belongs in the strictly sorted `attrs`: the position of
/// the first element not below `a`, and whether that element equals
/// `a`.
fn search_sorted(attrs: &Vec<Data>, a: &Data) -> (r: (usize, bool))
    requires
        sorted_strict(attrs.deep_view()),
    ensures
        ({
            let (pos, found) = r;
            &&& pos <= attrs.deep_view().len()
            &&& found == attrs.deep_view().contains(a.deep_view())
            &&& forall|j: int| 0 <= j < pos ==> data_lt(#[trigger] attrs.deep_view()[j], a@)
            &&& found ==> pos < attrs.deep_view().len() && attrs.deep_view()[pos as int] == a@
            &&& !found ==> forall|j: int|
                pos <= j < attrs.deep_view().len() ==> data_lt(a@, #[trigger] attrs.deep_view()[j])
        }),
{
    let n = attrs.len();
    let mut i: usize = 0;
    while i < n
        invariant
            n == attrs@.len(),
            attrs.deep_view().len() == n,
            i <= n,
            sorted_strict(attrs.deep_view()),
            forall|j: int| 0 <= j < i ==> data_lt(#[trigger] attrs.deep_view()[j], a@),
        decreases n - i,
    {
        if data_lt_exec(&attrs[i], a) {
            i += 1;
        } else if data_eq(&attrs[i], a) {
            return (i, true);
        } else {
            proof {
                lemma_data_lt_trichotomy(attrs.deep_view()[i as int], a@);
                assert(data_lt(a@, attrs.deep_view()[i as int]));
                assert forall|j: int| i <= j < attrs.deep_view().len() implies data_lt(
                    a@,
                    #[trigger] attrs.deep_view()[j],
                ) by {
                    if j > i {
                        lemma_data_lt_trans(a@, attrs.deep_view()[i as int], attrs.deep_view()[j]);
                    }
                }
                assert forall|j: int|
                    0 <= j < attrs.deep_view().len() implies attrs.deep_view()[j] != a@ by {
                    lemma_data_lt_trichotomy(attrs.deep_view()[j], a@);
                }
            }
            return (i, false);
        }
    }
    proof {
        assert forall|j: int| 0 <= j < attrs.deep_view().len() implies attrs.deep_view()[j]
            != a@ by {
            lemma_data_lt_trichotomy(attrs.deep_view()[j], a@);
        }
    }
    (n, false)
}

/// Inserting `a` at the position found by [`search_sorted`] keeps the
/// sequence strictly sorted.
proof fn lemma_insert_sorted(s: Seq<DataModel>, pos: int, a: DataModel)
    requires
        sorted_strict(s),
        0 <= pos <= s.len(),
        forall|j: int| 0 <= j < pos ==> data_lt(#[trigger] s[j], a),
        forall|j: int| pos <= j < s.len() ==> data_lt(a, #[trigger] s[j]),
    ensures
        sorted_strict(s.insert(pos, a)),
{
    let t = s.insert(pos, a);
    assert forall|i: int, j: int| 0 <= i < j < t.len() implies data_lt(t[i], t[j]) by {
        assert(t[pos] == a);
        if i < pos {
            assert(t[i] == s[i]);
        } else if i > pos {
            assert(t[i] == s[i - 1]);
        }
        if j < pos {
            assert(t[j] == s[j]);
        } else if j > pos {
            assert(t[j] == s[j - 1]);
        }
    }
}

} // verus!
