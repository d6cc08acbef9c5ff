//! Merging the tables of several sources into one, in the order of the list.
use vstd::prelude::*;
use crate::error::RollupError;
use crate::table::{Cell, Col, ColumnData, Table, has_column, is_column, rows, well_formed};

verus! {

/// The models of a list of tables.
pub open spec fn views(tables: Seq<Table>) -> Seq<Seq<Col>> {
    Seq::new(tables.len(), |k: int| tables[k]@)
}

/// Two tables have the same columns: as many, with the same names and types
/// in the same order.
pub open spec fn same_schema(a: Seq<Col>, b: Seq<Col>) -> bool {
    &&& a.len() == b.len()
    &&& forall|c: int|
        0 <= c < a.len() ==> (#[trigger] a[c]).name == b[c].name && a[c].kind == b[c].kind
}

/// Every table before position `k` has the schema of the first.
pub open spec fn schemas_agree(ts: Seq<Seq<Col>>, k: int) -> bool {
    forall|m: int| 0 <= m < k ==> same_schema(ts[0], #[trigger] ts[m])
}

/// The cells of column `c` of all the tables, one table after the other.
pub open spec fn stacked_cells(ts: Seq<Seq<Col>>, c: int) -> Seq<Cell>
    decreases ts.len(),
{
    if ts.len() == 0 {
        Seq::empty()
    } else {
        stacked_cells(ts.drop_last(), c) + ts.last()[c].cells
    }
}

/// The tables stacked: the columns of the first, each with the cells of all.
pub open spec fn stacked(ts: Seq<Seq<Col>>) -> Seq<Col> {
    Seq::new(
        ts[0].len(),
        |c: int| Col { name: ts[0][c].name, kind: ts[0][c].kind, cells: stacked_cells(ts, c) },
    )
}

/// The rows of all the tables together.
pub open spec fn total_rows(ts: Seq<Seq<Col>>) -> nat
    decreases ts.len(),
{
    if ts.len() == 0 {
        0
    } else {
        total_rows(ts.drop_last()) + rows(ts.last())
    }
}

/// Every stacked column has as many cells as the tables have rows together.
pub proof fn lemma_stacked_len(ts: Seq<Seq<Col>>, c: int)
    requires
        forall|k: int| 0 <= k < ts.len() ==> well_formed(#[trigger] ts[k]),
        forall|k: int| 0 <= k < ts.len() ==> 0 <= c < (#[trigger] ts[k]).len(),
    ensures
        stacked_cells(ts, c).len() == total_rows(ts),
    decreases ts.len(),
{
    if ts.len() > 0 {
        let front = ts.drop_last();
        assert forall|k: int| 0 <= k < front.len() implies well_formed(#[trigger] front[k]) by {
            assert(front[k] == ts[k]);
        }
        assert forall|k: int| 0 <= k < front.len() implies 0 <= c < (#[trigger] front[k]).len() by {
            assert(front[k] == ts[k]);
        }
        lemma_stacked_len(front, c);
        let last = ts.last();
        assert(well_formed(last));
        assert(last[c].cells.len() == last[0].cells.len());
    }
}

/// Merging keeps the order of the sources and of their rows: row `r` of
/// table `k` stands behind all the rows of the tables before it, in every
/// column.
pub proof fn lemma_stacked_places(ts: Seq<Seq<Col>>, c: int, k: int, r: int)
    requires
        forall|m: int| 0 <= m < ts.len() ==> well_formed(#[trigger] ts[m]),
        forall|m: int| 0 <= m < ts.len() ==> 0 <= c < (#[trigger] ts[m]).len(),
        0 <= k < ts.len(),
        0 <= r < rows(ts[k]),
    ensures
        total_rows(ts.take(k)) + r < stacked_cells(ts, c).len(),
        stacked_cells(ts, c)[total_rows(ts.take(k)) + r] == ts[k][c].cells[r],
    decreases ts.len(),
{
    let front = ts.drop_last();
    assert forall|m: int| 0 <= m < front.len() implies well_formed(#[trigger] front[m]) by {
        assert(front[m] == ts[m]);
    }
    assert forall|m: int| 0 <= m < front.len() implies 0 <= c < (#[trigger] front[m]).len() by {
        assert(front[m] == ts[m]);
    }
    lemma_stacked_len(front, c);
    lemma_stacked_len(ts, c);
    assert(well_formed(ts[k]));
    assert(ts[k][c].cells.len() == ts[k][0].cells.len());
    if k == ts.len() - 1 {
        assert(ts.take(k) =~= front);
    } else {
        assert(front.take(k) =~= ts.take(k));
        assert(front[k] == ts[k]);
        lemma_stacked_places(front, c, k, r);
    }
}

/// Tables without columns have no rows.
pub proof fn lemma_no_columns_no_rows(ts: Seq<Seq<Col>>)
    requires
        forall|k: int| 0 <= k < ts.len() ==> (#[trigger] ts[k]).len() == 0,
    ensures
        total_rows(ts) == 0,
    decreases ts.len(),
{
    if ts.len() > 0 {
        let front = ts.drop_last();
        assert forall|k: int| 0 <= k < front.len() implies (#[trigger] front[k]).len() == 0 by {
            assert(front[k] == ts[k]);
        }
        lemma_no_columns_no_rows(front);
    }
}

/// Whether two tables have the same schema.
pub fn schema_matches(a: &Table, b: &Table) -> (same: bool)
    ensures
        same == same_schema(a@, b@),
{
    if a.width() != b.width() {
        return false;
    }
    let mut c: usize = 0;
    while c < a.width()
        invariant
            a@.len() == b@.len(),
            c <= a@.len(),
            forall|d: int|
                0 <= d < c ==> (#[trigger] a@[d]).name == b@[d].name && a@[d].kind == b@[d].kind,
        decreases a@.len() - c,
    {
        let x = a.column(c);
        let y = b.column(c);
        if !(x.name == y.name) || x.data.kind() != y.data.kind() {
            return false;
        }
        c += 1;
    }
    true
}

/// Column `c` of all the tables, one table's cells after the other's.
fn stack_column(tables: &[Table], c: usize) -> (data: ColumnData)
    requires
        tables@.len() > 0,
        schemas_agree(views(tables@), tables@.len() as int),
        c < tables@[0]@.len(),
    ensures
        data@ == stacked_cells(views(tables@), c as int),
        crate::table::kind_of(data) == tables@[0]@[c as int].kind,
{
    let ghost ts = views(tables@);
    let mut data = ColumnData::empty(tables[0].column(c).data.kind());
    let mut k: usize = 0;
    while k < tables.len()
        invariant
            ts == views(tables@),
            tables@.len() > 0,
            schemas_agree(ts, tables@.len() as int),
            c < ts[0].len(),
            k <= tables@.len(),
            crate::table::kind_of(data) == ts[0][c as int].kind,
            data@ == stacked_cells(ts.take(k as int), c as int),
        decreases tables@.len() - k,
    {
        assert(same_schema(ts[0], ts[k as int]));
        assert(ts[0][c as int].kind == ts[k as int][c as int].kind);
        data = data.appended(&tables[k].column(c).data);
        proof {
            assert(ts.take(k + 1).drop_last() =~= ts.take(k as int));
            assert(ts.take(k + 1).last() == ts[k as int]);
        }
        k += 1;
    }
    assert(ts.take(k as int) =~= ts);
    data
}

/// Merges the tables of several sources into one table that holds the rows
/// of the first, then those of the second, and so on.
///
/// An empty list is refused, and so is a list in which a table has another
/// schema than the first; the error names the first such table.
pub fn concat_tables(tables: &[Table]) -> (res: Result<Table, RollupError>)
    requires
        forall|k: int| 0 <= k < tables@.len() ==> (#[trigger] tables@[k]).wf(),
    ensures
        match res {
            Ok(t) => {
                &&& tables@.len() > 0
                &&& schemas_agree(views(tables@), tables@.len() as int)
                &&& t@ == stacked(views(tables@))
                &&& t.wf()
                &&& rows(t@) == total_rows(views(tables@))
            },
            Err(e) => match e {
                RollupError::NoSources => tables@.len() == 0,
                RollupError::SchemaMismatch(k) => {
                    &&& 0 < k < tables@.len()
                    &&& !same_schema(tables@[0]@, tables@[k as int]@)
                    &&& schemas_agree(views(tables@), k as int)
                },
                _ => false,
            },
        },
{
    let ghost ts = views(tables@);
    if tables.len() == 0 {
        return Err(RollupError::NoSources);
    }
    let mut k: usize = 1;
    assert(same_schema(ts[0], ts[0]));
    while k < tables.len()
        invariant
            ts == views(tables@),
            1 <= k <= tables@.len(),
            schemas_agree(ts, k as int),
        decreases tables@.len() - k,
    {
        if !schema_matches(&tables[0], &tables[k]) {
            return Err(RollupError::SchemaMismatch(k));
        }
        k += 1;
    }
    let width = tables[0].width();
    let mut out = Table::new();
    let mut c: usize = 0;
    while c < width
        invariant
            ts == views(tables@),
            forall|k: int| 0 <= k < tables@.len() ==> (#[trigger] tables@[k]).wf(),
            tables@.len() > 0,
            schemas_agree(ts, tables@.len() as int),
            width == ts[0].len(),
            c <= width,
            out.wf(),
            out@ =~= stacked(ts).take(c as int),
        decreases width - c,
    {
        let data = stack_column(tables, c);
        let name = tables[0].column(c).name.clone();
        proof {
            assert(well_formed(ts[0]));
            assert(name@ == ts[0][c as int].name);
            assert forall|d: int| !is_column(out@, name@, d) by {
                if 0 <= d < out@.len() {
                    assert(out@[d].name == ts[0][d].name);
                }
            }
            assert forall|k: int| 0 <= k < ts.len() implies well_formed(#[trigger] ts[k]) by {
                assert(tables@[k].wf());
            }
            assert forall|k: int| 0 <= k < ts.len() implies 0 <= c < (#[trigger] ts[k]).len() && 0
                < ts[k].len() by {
                assert(same_schema(ts[0], ts[k]));
            }
            lemma_stacked_len(ts, c as int);
            lemma_stacked_len(ts, 0);
        }
        let ghost before = out@;
        match out.push_column(name, data) {
            Ok(_) => {},
            Err(e) => {
                assert(false);
                return Err(e);
            },
        }
        proof {
            assert(out@ =~= stacked(ts).take(c + 1));
        }
        c += 1;
    }
    proof {
        assert(stacked(ts).take(c as int) =~= stacked(ts));
        assert(out@ =~= stacked(ts));
        if width == 0 {
            assert forall|k: int| 0 <= k < ts.len() implies (#[trigger] ts[k]).len() == 0 by {
                assert(same_schema(ts[0], ts[k]));
            }
            lemma_no_columns_no_rows(ts);
        } else {
            assert forall|k: int| 0 <= k < ts.len() implies well_formed(#[trigger] ts[k]) by {
                assert(tables@[k].wf());
            }
            assert forall|k: int| 0 <= k < ts.len() implies 0 <= 0 < (#[trigger] ts[k]).len() by {
                assert(same_schema(ts[0], ts[k]));
            }
            lemma_stacked_len(ts, 0);
        }
    }
    Ok(out)
}

/// The tables of the sources that were loaded, in the order of the list.
pub open spec fn loaded(sources: Seq<Option<Table>>) -> Seq<Table> {
    Seq::new(sources.len(), |k: int| sources[k]->0)
}

/// Every source before position `k` was loaded.
pub open spec fn all_loaded(sources: Seq<Option<Table>>, k: int) -> bool {
    forall|m: int| 0 <= m < k ==> (#[trigger] sources[m]) is Some
}

/// Merges what was read from several sources, each of them a table or
/// nothing where the source could not be read.
///
/// One source that failed fails the whole: the error names the first such
/// source, and no table is made of the others. Where every source was read,
/// the result is that of [`concat_tables`].
pub fn merge_sources(sources: Vec<Option<Table>>) -> (res: Result<Table, RollupError>)
    requires
        forall|k: int|
            0 <= k < sources@.len() && (#[trigger] sources@[k]) is Some ==> sources@[k]->0.wf(),
    ensures
        match res {
            Ok(t) => {
                &&& sources@.len() > 0
                &&& all_loaded(sources@, sources@.len() as int)
                &&& schemas_agree(views(loaded(sources@)), sources@.len() as int)
                &&& t@ == stacked(views(loaded(sources@)))
                &&& t.wf()
                &&& rows(t@) == total_rows(views(loaded(sources@)))
            },
            Err(e) => match e {
                RollupError::NoSources => sources@.len() == 0,
                RollupError::SourceFailed(k) => {
                    &&& k < sources@.len()
                    &&& sources@[k as int] is None
                    &&& all_loaded(sources@, k as int)
                },
                RollupError::SchemaMismatch(k) => {
                    &&& 0 < k < sources@.len()
                    &&& all_loaded(sources@, sources@.len() as int)
                    &&& !same_schema(sources@[0]->0@, sources@[k as int]->0@)
                    &&& schemas_agree(views(loaded(sources@)), k as int)
                },
                _ => false,
            },
        },
{
    if sources.len() == 0 {
        return Err(RollupError::NoSources);
    }
    let mut k: usize = 0;
    while k < sources.len()
        invariant
            k <= sources@.len(),
            all_loaded(sources@, k as int),
        decreases sources@.len() - k,
    {
        if sources[k].is_none() {
            return Err(RollupError::SourceFailed(k));
        }
        k += 1;
    }
    let ghost all = sources@;
    let mut rest = sources;
    let mut newest_first: Vec<Table> = Vec::new();
    while rest.len() > 0
        invariant
            all_loaded(all, all.len() as int),
            rest@.len() + newest_first@.len() == all.len(),
            rest@ =~= all.take(rest@.len() as int),
            forall|m: int|
                0 <= m < newest_first@.len() ==> newest_first@[m] == all[all.len() - 1 - m]->0,
        decreases rest@.len(),
    {
        let ghost at = rest@.len() - 1;
        assert(rest@[at] == all[at]);
        match rest.pop() {
            Some(Some(t)) => {
                newest_first.push(t);
            },
            _ => {
                assert(false);
            },
        }
    }
    let mut tables: Vec<Table> = Vec::new();
    while newest_first.len() > 0
        invariant
            tables@.len() + newest_first@.len() == all.len(),
            forall|m: int|
                0 <= m < newest_first@.len() ==> newest_first@[m] == all[all.len() - 1 - m]->0,
            forall|m: int| 0 <= m < tables@.len() ==> tables@[m] == all[m]->0,
        decreases newest_first@.len(),
    {
        match newest_first.pop() {
            Some(t) => {
                tables.push(t);
            },
            None => {
                assert(false);
            },
        }
    }
    assert(tables@ =~= loaded(all));
    assert forall|m: int| 0 <= m < tables@.len() implies (#[trigger] tables@[m]).wf() by {
        assert(all[m] is Some);
    }
    concat_tables(tables.as_slice())
}

} // verus!
