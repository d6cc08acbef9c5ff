//! The in-memory columnar table and its mathematical model.
use vstd::prelude::*;
use crate::error::RollupError;

verus! {

/// What one cell of a table holds. A real is held by its bit pattern.
pub enum Cell {
    Int(i32),
    Real(u64),
    Text(Seq<char>),
}

/// The model of a column: its name and its cells from the first row on.
pub struct Col {
    pub name: Seq<char>,
    pub kind: ColumnKind,
    pub cells: Seq<Cell>,
}

/// The type of a column.
#[derive(Clone, Copy, Debug, PartialEq, Eq, Structural)]
pub enum ColumnKind {
    Int,
    Real,
    Text,
}

/// The integer in a cell; a cell that holds none counts as zero.
pub open spec fn int_of(cell: Cell) -> int {
    match cell {
        Cell::Int(x) => x as int,
        _ => 0,
    }
}

/// The cells of one column.
#[derive(Debug)]
pub enum ColumnData {
    /// Integers.
    Int(Vec<i32>),
    /// Reals, each by its bit pattern.
    Real(Vec<u64>),
    /// Text.
    Text(Vec<String>),
}

impl View for ColumnData {
    type V = Seq<Cell>;

    open spec fn view(&self) -> Seq<Cell> {
        match self {
            ColumnData::Int(v) => Seq::new(v@.len(), |i: int| Cell::Int(v@[i])),
            ColumnData::Real(v) => Seq::new(v@.len(), |i: int| Cell::Real(v@[i])),
            ColumnData::Text(v) => Seq::new(v@.len(), |i: int| Cell::Text(v@[i]@)),
        }
    }
}

/// The type of the cells of a column.
pub open spec fn kind_of(data: ColumnData) -> ColumnKind {
    match data {
        ColumnData::Int(_) => ColumnKind::Int,
        ColumnData::Real(_) => ColumnKind::Real,
        ColumnData::Text(_) => ColumnKind::Text,
    }
}

impl ColumnData {
    /// The number of cells.
    pub fn len(&self) -> (n: usize)
        ensures
            n == self@.len(),
    {
        match self {
            ColumnData::Int(v) => v.len(),
            ColumnData::Real(v) => v.len(),
            ColumnData::Text(v) => v.len(),
        }
    }

    /// The type of the cells.
    pub fn kind(&self) -> (k: ColumnKind)
        ensures
            k == kind_of(*self),
    {
        match self {
            ColumnData::Int(_) => ColumnKind::Int,
            ColumnData::Real(_) => ColumnKind::Real,
            ColumnData::Text(_) => ColumnKind::Text,
        }
    }

    /// A column of this type without cells.
    pub fn empty(kind: ColumnKind) -> (data: ColumnData)
        ensures
            kind_of(data) == kind,
            data@ == Seq::<Cell>::empty(),
    {
        let data = match kind {
            ColumnKind::Int => ColumnData::Int(Vec::new()),
            ColumnKind::Real => ColumnData::Real(Vec::new()),
            ColumnKind::Text => ColumnData::Text(Vec::new()),
        };
        assert(data@ =~= Seq::<Cell>::empty());
        data
    }

    /// This column with the cells of `other` after its own.
    pub fn appended(self, other: &ColumnData) -> (data: ColumnData)
        requires
            kind_of(self) == kind_of(*other),
        ensures
            kind_of(data) == kind_of(self),
            data@ == self@ + other@,
    {
        let ghost before = self@;
        match self {
            ColumnData::Int(mut a) => {
                if let ColumnData::Int(b) = other {
                    let mut r: usize = 0;
                    while r < b.len()
                        invariant
                            r <= b@.len(),
                            ColumnData::Int(a)@ =~= before + other@.take(r as int),
                            *other == ColumnData::Int(*b),
                        decreases b@.len() - r,
                    {
                        let ghost prev = ColumnData::Int(a)@;
                        a.push(b[r]);
                        assert(ColumnData::Int(a)@ =~= prev.push(other@[r as int]));
                        assert(other@.take(r + 1) =~= other@.take(r as int).push(other@[r as int]));
                        r += 1;
                        assert(ColumnData::Int(a)@ =~= before + other@.take(r as int));
                    }
                    assert(other@.take(r as int) =~= other@);
                }
                ColumnData::Int(a)
            },
            ColumnData::Real(mut a) => {
                if let ColumnData::Real(b) = other {
                    let mut r: usize = 0;
                    while r < b.len()
                        invariant
                            r <= b@.len(),
                            ColumnData::Real(a)@ =~= before + other@.take(r as int),
                            *other == ColumnData::Real(*b),
                        decreases b@.len() - r,
                    {
                        let ghost prev = ColumnData::Real(a)@;
                        a.push(b[r]);
                        assert(ColumnData::Real(a)@ =~= prev.push(other@[r as int]));
                        assert(other@.take(r + 1) =~= other@.take(r as int).push(other@[r as int]));
                        r += 1;
                        assert(ColumnData::Real(a)@ =~= before + other@.take(r as int));
                    }
                    assert(other@.take(r as int) =~= other@);
                }
                ColumnData::Real(a)
            },
            ColumnData::Text(mut a) => {
                if let ColumnData::Text(b) = other {
                    let mut r: usize = 0;
                    while r < b.len()
                        invariant
                            r <= b@.len(),
                            ColumnData::Text(a)@ =~= before + other@.take(r as int),
                            *other == ColumnData::Text(*b),
                        decreases b@.len() - r,
                    {
                        let ghost prev = ColumnData::Text(a)@;
                        a.push(b[r].clone());
                        assert(ColumnData::Text(a)@ =~= prev.push(other@[r as int]));
                        assert(other@.take(r + 1) =~= other@.take(r as int).push(other@[r as int]));
                        r += 1;
                        assert(ColumnData::Text(a)@ =~= before + other@.take(r as int));
                    }
                    assert(other@.take(r as int) =~= other@);
                }
                ColumnData::Text(a)
            },
        }
    }

    /// Whether the cells in rows `a` and `b` are equal.
    pub fn same_cell(&self, a: usize, b: usize) -> (same: bool)
        requires
            a < self@.len(),
            b < self@.len(),
        ensures
            same == (self@[a as int] == self@[b as int]),
    {
        match self {
            ColumnData::Int(v) => v[a] == v[b],
            ColumnData::Real(v) => v[a] == v[b],
            ColumnData::Text(v) => v[a] == v[b],
        }
    }
}

/// A named column.
#[derive(Debug)]
pub struct Column {
    pub name: String,
    pub data: ColumnData,
}

impl View for Column {
    type V = Col;

    open spec fn view(&self) -> Col {
        Col { name: self.name@, kind: kind_of(self.data), cells: self.data@ }
    }
}

/// An ordered list of named columns of equal length.
#[derive(Debug)]
pub struct Table {
    columns: Vec<Column>,
}

/// Every column has as many cells as the first, and no name occurs twice.
pub open spec fn well_formed(t: Seq<Col>) -> bool {
    &&& forall|c: int| 0 <= c < t.len() ==> (#[trigger] t[c]).cells.len() == t[0].cells.len()
    &&& forall|c: int, d: int|
        0 <= c < t.len() && 0 <= d < t.len() && (#[trigger] t[c]).name == (#[trigger] t[d]).name
            ==> c == d
}

/// The number of rows: that of the first column, and none without columns.
pub open spec fn rows(t: Seq<Col>) -> nat {
    if t.len() == 0 {
        0
    } else {
        t[0].cells.len()
    }
}

/// Whether column `c` of `t` has this name.
pub open spec fn is_column(t: Seq<Col>, name: Seq<char>, c: int) -> bool {
    0 <= c < t.len() && t[c].name == name
}

/// Whether some column of `t` has this name.
pub open spec fn has_column(t: Seq<Col>, name: Seq<char>) -> bool {
    exists|c: int| is_column(t, name, c)
}

/// The position of the column of this name, where there is one.
pub open spec fn column_of(t: Seq<Col>, name: Seq<char>) -> int {
    choose|c: int| is_column(t, name, c)
}

/// In a well-formed table a name belongs to one column only.
pub proof fn lemma_column_unique(t: Seq<Col>, name: Seq<char>, c: int)
    requires
        well_formed(t),
        is_column(t, name, c),
    ensures
        has_column(t, name),
        column_of(t, name) == c,
{
    let d = column_of(t, name);
    assert(is_column(t, name, d));
    assert(t[c].name == t[d].name);
}

impl View for Table {
    type V = Seq<Col>;

    closed spec fn view(&self) -> Seq<Col> {
        Seq::new(self.columns@.len(), |c: int| self.columns@[c]@)
    }
}

impl Table {
    /// The table's invariant.
    pub open spec fn wf(&self) -> bool {
        well_formed(self@)
    }

    /// The table without columns.
    pub fn new() -> (t: Table)
        ensures
            t@ == Seq::<Col>::empty(),
            t.wf(),
    {
        let t = Table { columns: Vec::new() };
        assert(t@ =~= Seq::<Col>::empty());
        t
    }

    /// The number of columns.
    pub fn width(&self) -> (n: usize)
        ensures
            n == self@.len(),
    {
        self.columns.len()
    }

    /// The number of rows.
    pub fn height(&self) -> (n: usize)
        ensures
            n == rows(self@),
    {
        if self.columns.len() == 0 {
            0
        } else {
            self.columns[0].data.len()
        }
    }

    /// The column at position `c`.
    pub fn column(&self, c: usize) -> (col: &Column)
        requires
            c < self@.len(),
        ensures
            col@ == self@[c as int],
    {
        &self.columns[c]
    }

    /// The position of the column named `name`, if there is one.
    pub fn find_column(&self, name: &str) -> (found: Option<usize>)
        requires
            self.wf(),
        ensures
            match found {
                Some(c) => is_column(self@, name@, c as int) && column_of(self@, name@) == c,
                None => !has_column(self@, name@),
            },
    {
        let wanted = name.to_owned();
        let mut c: usize = 0;
        while c < self.columns.len()
            invariant
                self.wf(),
                wanted@ == name@,
                c <= self.columns@.len(),
                forall|d: int| 0 <= d < c ==> !is_column(self@, name@, d),
            decreases self.columns@.len() - c,
        {
            if self.columns[c].name == wanted {
                proof {
                    lemma_column_unique(self@, name@, c as int);
                }
                return Some(c);
            }
            c += 1;
        }
        None
    }

    /// Appends a column. A name that the table has already is refused, and so
    /// is a column of another length than those that the table holds.
    pub fn push_column(&mut self, name: String, data: ColumnData) -> (res: Result<(), RollupError>)
        requires
            old(self).wf(),
        ensures
            final(self).wf(),
            match res {
                Ok(_) => {
                    &&& !has_column(old(self)@, name@)
                    &&& old(self)@.len() == 0 || data@.len() == rows(old(self)@)
                    &&& final(self)@ == old(self)@.push(
                        Col { name: name@, kind: kind_of(data), cells: data@ },
                    )
                },
                Err(e) => {
                    &&& final(self)@ == old(self)@
                    &&& if has_column(old(self)@, name@) {
                        e == RollupError::DuplicateColumn
                    } else {
                        &&& e == RollupError::LengthMismatch
                        &&& old(self)@.len() > 0
                        &&& data@.len() != rows(old(self)@)
                    }
                },
            },
    {
        if self.find_column(&name).is_some() {
            return Err(RollupError::DuplicateColumn);
        }
        if self.columns.len() > 0 && data.len() != self.height() {
            return Err(RollupError::LengthMismatch);
        }
        let ghost before = self@;
        let ghost added = Col { name: name@, kind: kind_of(data), cells: data@ };
        self.columns.push(Column { name, data });
        proof {
            assert(self@ =~= before.push(added));
            assert forall|c: int, d: int|
                0 <= c < self@.len() && 0 <= d < self@.len() && (#[trigger] self@[c]).name == (
                #[trigger] self@[d]).name implies c == d by {
                if c < before.len() && d < before.len() {
                    assert(before[c].name == before[d].name);
                } else if c < before.len() {
                    assert(is_column(before, name@, c));
                } else if d < before.len() {
                    assert(is_column(before, name@, d));
                }
            }
        }
        Ok(())
    }
}

} // verus!
