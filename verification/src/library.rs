//! The media library table: one row per file or directory, addressed by an
//! integer id that counts up from 1 in insertion order.

use vstd::prelude::*;

verus! {

/// A row of the library table.  `parent_id`, `is_dir` and `mime` are empty
/// for the root directory; `is_dir` is 1 for a directory and 0 for a file.
pub struct LibraryRow {
    pub id: i64,
    pub parent_id: Option<i64>,
    pub is_dir: Option<i64>,
    pub child_count: i64,
    pub path: String,
    pub mime: Option<String>,
}

/// A row as plain values.
pub struct RowView {
    pub id: int,
    pub parent_id: Option<int>,
    pub is_dir: Option<int>,
    pub child_count: int,
    pub path: Seq<char>,
    pub mime: Option<Seq<char>>,
}

/// The view of an optional integer.
pub open spec fn opt_int(o: Option<i64>) -> Option<int> {
    match o {
        Some(v) => Some(v as int),
        None => None,
    }
}

/// The view of an optional string.
pub open spec fn opt_str(o: Option<String>) -> Option<Seq<char>> {
    match o {
        Some(s) => Some(s@),
        None => None,
    }
}

/// A copy of an optional string.
pub fn clone_opt_str(o: &Option<String>) -> (r: Option<String>)
    ensures
        opt_str(r) == opt_str(*o),
{
    match o {
        Some(s) => Some(s.clone()),
        None => None,
    }
}

impl LibraryRow {
    /// The row as plain values.
    pub open spec fn view(&self) -> RowView {
        RowView {
            id: self.id as int,
            parent_id: opt_int(self.parent_id),
            is_dir: opt_int(self.is_dir),
            child_count: self.child_count as int,
            path: self.path@,
            mime: opt_str(self.mime),
        }
    }

    /// A copy of the row.
    pub fn copy(&self) -> (r: LibraryRow)
        ensures
            r.view() == self.view(),
    {
        LibraryRow {
            id: self.id,
            parent_id: self.parent_id,
            is_dir: self.is_dir,
            child_count: self.child_count,
            path: self.path.clone(),
            mime: clone_opt_str(&self.mime),
        }
    }
}

/// The views of a list of rows.
pub open spec fn rows_view(rows: Seq<LibraryRow>) -> Seq<RowView> {
    rows.map_values(|r: LibraryRow| r.view())
}

/// The rows of `rows` whose parent is `parent`, in order.
pub open spec fn children_spec(rows: Seq<RowView>, parent: int) -> Seq<RowView>
    decreases rows.len(),
{
    if rows.len() == 0 {
        Seq::empty()
    } else if rows.last().parent_id == Some(parent) {
        children_spec(rows.drop_last(), parent).push(rows.last())
    } else {
        children_spec(rows.drop_last(), parent)
    }
}

/// The row with id `id`, if there is one.
pub open spec fn row_with_id(rows: Seq<RowView>, id: int) -> Option<RowView> {
    if 1 <= id <= rows.len() {
        Some(rows[id - 1])
    } else {
        None
    }
}

/// Why the table refused a change.
#[derive(Debug, Clone, Copy, PartialEq, Eq, Structural)]
pub enum LibraryError {
    /// Every row id is in use.
    Full,
}

/// The library table.
pub struct Library {
    rows: Vec<LibraryRow>,
}

impl Library {
    #[verifier::type_invariant]
    spec fn wf(self) -> bool {
        &&& self.rows@.len() < i64::MAX
        &&& forall|k: int| 0 <= k < self.rows@.len() ==> (#[trigger] self.rows@[k]).id == k + 1
    }

    /// The rows, in id order; the row at index `k` has id `k + 1`.
    pub closed spec fn view(&self) -> Seq<RowView> {
        rows_view(self.rows@)
    }

    /// An empty table.
    pub fn new() -> (r: Library)
        ensures
            r@ == Seq::<RowView>::empty(),
    {
        let r = Library { rows: Vec::new() };
        assert(rows_view(r.rows@) =~= Seq::<RowView>::empty());
        r
    }

    /// The number of rows.
    pub fn len(&self) -> (r: usize)
        ensures
            r == self@.len(),
            r < i64::MAX,
    {
        proof {
            use_type_invariant(self);
        }
        self.rows.len()
    }

    /// Removes every row.
    pub fn clear(&mut self)
        ensures
            final(self)@ == Seq::<RowView>::empty(),
    {
        self.rows = Vec::new();
        assert(rows_view(self.rows@) =~= Seq::<RowView>::empty());
    }

    /// Adds a row with the next id and default child count 0, and returns
    /// that id.  Refused when every id is in use.
    pub fn insert(
        &mut self,
        parent_id: Option<i64>,
        is_dir: Option<i64>,
        path: String,
        mime: Option<String>,
    ) -> (r: Result<i64, LibraryError>)
        ensures
            match r {
                Ok(id) => {
                    &&& id == old(self)@.len() + 1
                    &&& final(self)@ == old(self)@.push(
                        RowView {
                            id: id as int,
                            parent_id: opt_int(parent_id),
                            is_dir: opt_int(is_dir),
                            child_count: 0,
                            path: path@,
                            mime: opt_str(mime),
                        },
                    )
                },
                Err(e) => final(self)@ == old(self)@ && e == LibraryError::Full && old(self)@.len()
                    + 1 >= i64::MAX,
            },
    {
        proof {
            use_type_invariant(&*self);
        }
        let n = self.rows.len();
        if n as u64 >= 9223372036854775806u64 {
            return Err(LibraryError::Full);
        }
        let id = (n as u64 + 1) as i64;
        let row = LibraryRow { id, parent_id, is_dir, child_count: 0, path, mime };
        let ghost old_rows = self.rows@;
        let mut rows: Vec<LibraryRow> = Vec::new();
        std::mem::swap(&mut rows, &mut self.rows);
        rows.push(row);
        self.rows = rows;
        assert(rows_view(self.rows@) =~= rows_view(old_rows).push(row.view()));
        Ok(id)
    }

    /// Sets the child count of the row with id `id`; no change when there is
    /// no such row.
    pub fn set_child_count(&mut self, id: i64, count: i64)
        ensures
            1 <= id <= old(self)@.len() ==> final(self)@ == old(self)@.update(
                id - 1,
                RowView { child_count: count as int, ..old(self)@[id - 1] },
            ),
            !(1 <= id <= old(self)@.len()) ==> final(self)@ == old(self)@,
    {
        proof {
            use_type_invariant(&*self);
        }
        let n = self.rows.len();
        if id < 1 || id as u64 > n as u64 {
            return;
        }
        let k = (id - 1) as usize;
        let ghost old_rows = self.rows@;
        let mut rows: Vec<LibraryRow> = Vec::new();
        std::mem::swap(&mut rows, &mut self.rows);
        let old_row = rows[k].copy();
        let new_row = LibraryRow { child_count: count, ..old_row };
        rows.set(k, new_row);
        self.rows = rows;
        assert(rows_view(self.rows@) =~= rows_view(old_rows).update(
            id - 1,
            RowView { child_count: count as int, ..rows_view(old_rows)[id - 1] },
        ));
    }

    /// The path of the row with id `id`.
    pub fn path_of(&self, id: i64) -> (r: Option<String>)
        ensures
            match row_with_id(self@, id as int) {
                Some(row) => r matches Some(p) && p@ == row.path,
                None => r is None,
            },
    {
        proof {
            use_type_invariant(self);
        }
        let n = self.rows.len();
        if id < 1 || id as u64 > n as u64 {
            return None;
        }
        let k = (id - 1) as usize;
        Some(self.rows[k].path.clone())
    }

    /// The rows whose parent is `parent`, in id order.
    pub fn children_of(&self, parent: i64) -> (r: Vec<LibraryRow>)
        ensures
            rows_view(r@) == children_spec(self@, parent as int),
    {
        let n = self.rows.len();
        let mut out: Vec<LibraryRow> = Vec::new();
        let mut i: usize = 0;
        assert(rows_view(self.rows@).take(0) =~= Seq::<RowView>::empty());
        assert(rows_view(out@) =~= Seq::<RowView>::empty());
        while i < n
            invariant
                n == self.rows@.len(),
                i <= n,
                rows_view(out@) == children_spec(rows_view(self.rows@).take(i as int), parent as int),
            decreases n - i,
        {
            let ghost pre = rows_view(self.rows@).take(i as int);
            let ghost next = rows_view(self.rows@).take(i + 1);
            assert(next.drop_last() == pre);
            assert(next.last() == self.rows@[i as int].view());
            if self.rows[i].parent_id == Some(parent) {
                let ghost old_out = out@;
                out.push(self.rows[i].copy());
                assert(rows_view(out@) =~= rows_view(old_out).push(self.rows@[i as int].view()));
            }
            i = i + 1;
        }
        assert(rows_view(self.rows@).take(n as int) == rows_view(self.rows@));
        out
    }
}

} // verus!

verus! {

/// A row added to the table is what a lookup of its id gives afterwards,
/// and it comes last among the children of its parent; the rows of other
/// ids and the children of other parents are unchanged.
pub proof fn lemma_insert_then_read(rows: Seq<RowView>, row: RowView, id: int, parent: int)
    ensures
        row_with_id(rows.push(row), rows.len() as int + 1) == Some(row),
        id != rows.len() + 1 ==> row_with_id(rows.push(row), id) == row_with_id(rows, id),
        row.parent_id == Some(parent) ==> children_spec(rows.push(row), parent) == children_spec(
            rows,
            parent,
        ).push(row),
        row.parent_id != Some(parent) ==> children_spec(rows.push(row), parent) == children_spec(
            rows,
            parent,
        ),
{
    assert(rows.push(row).drop_last() == rows);
}

} // verus!
