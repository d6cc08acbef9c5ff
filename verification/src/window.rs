//! Partitions and trailing windows: which rows stand behind each row's
//! rolling statistics.
use vstd::prelude::*;
use crate::error::RollupError;
use crate::partition::Partitions;
use crate::table::{Col, ColumnKind, Table, column_of, has_column, is_column, rows};

verus! {

/// The names in a list of strings.
pub open spec fn names(keys: Seq<String>) -> Seq<Seq<char>> {
    Seq::new(keys.len(), |k: int| keys[k]@)
}

/// Row numbers as integers.
pub open spec fn as_rows(s: Seq<usize>) -> Seq<int> {
    Seq::new(s.len(), |k: int| s[k] as int)
}

/// Rows `a` and `b` belong to one partition: they agree in every column that
/// `keys` names.
pub open spec fn same_group(t: Seq<Col>, keys: Seq<Seq<char>>, a: int, b: int) -> bool {
    forall|c: int|
        0 <= c < t.len() && keys.contains((#[trigger] t[c]).name) ==> t[c].cells[a]
            == t[c].cells[b]
}

/// The last rows, at most `w` of them, at or before row `j` that belong to
/// the partition of row `i`, in the table's order.
pub open spec fn trailing(t: Seq<Col>, keys: Seq<Seq<char>>, i: int, j: int, w: nat) -> Seq<int>
    decreases j + 1,
{
    if j < 0 || w == 0 {
        Seq::empty()
    } else if same_group(t, keys, j, i) {
        trailing(t, keys, i, j - 1, (w - 1) as nat).push(j)
    } else {
        trailing(t, keys, i, j - 1, w)
    }
}

/// The window of row `i`: the last rows, at most `w`, of its partition up to
/// and including itself.
pub open spec fn window_rows(t: Seq<Col>, keys: Seq<Seq<char>>, w: nat, i: int) -> Seq<int> {
    trailing(t, keys, i, i, w)
}

/// Every key names a column.
pub open spec fn keys_present(t: Seq<Col>, keys: Seq<Seq<char>>) -> bool {
    forall|k: int| 0 <= k < keys.len() ==> has_column(t, #[trigger] keys[k])
}

/// The request is one that the engine answers: there is a key, every key
/// and the value name a column, the value column is numeric, and the window
/// holds a row at least.
pub open spec fn accepted(t: Seq<Col>, keys: Seq<Seq<char>>, value: Seq<char>, window: nat) -> bool {
    &&& keys.len() > 0
    &&& keys_present(t, keys)
    &&& has_column(t, value)
    &&& t[column_of(t, value)].kind != ColumnKind::Text
    &&& window >= 1
}

/// The request is refused with `e`. The faults are looked for in a fixed
/// order: no key, the first key that names no column, a value name that
/// names none, a value column of text, a window without rows.
pub open spec fn rejected(
    t: Seq<Col>,
    keys: Seq<Seq<char>>,
    value: Seq<char>,
    window: nat,
    e: RollupError,
) -> bool {
    match e {
        RollupError::EmptyKeys => keys.len() == 0,
        RollupError::KeyNotFound(k) => {
            &&& k < keys.len()
            &&& !has_column(t, keys[k as int])
            &&& keys_present(t, keys.take(k as int))
        },
        RollupError::ValueNotFound => {
            &&& keys.len() > 0
            &&& keys_present(t, keys)
            &&& !has_column(t, value)
        },
        RollupError::ValueNotNumeric => {
            &&& keys.len() > 0
            &&& keys_present(t, keys)
            &&& has_column(t, value)
            &&& t[column_of(t, value)].kind == ColumnKind::Text
        },
        RollupError::InvalidWindow => {
            &&& keys.len() > 0
            &&& keys_present(t, keys)
            &&& has_column(t, value)
            &&& t[column_of(t, value)].kind != ColumnKind::Text
            &&& window == 0
        },
        _ => false,
    }
}

/// `cols` gives, key by key, the position of the column that the key names.
pub open spec fn resolves(t: Seq<Col>, keys: Seq<Seq<char>>, cols: Seq<usize>) -> bool {
    &&& cols.len() == keys.len()
    &&& forall|k: int| 0 <= k < keys.len() ==> is_column(t, #[trigger] keys[k], cols[k] as int)
}

/// A request that has passed validation: where its columns stand.
pub struct Resolved {
    /// The position of each key's column.
    pub key_cols: Vec<usize>,
    /// The position of the value column.
    pub value_col: usize,
}

/// Validates a request and finds its columns.
pub fn resolve(table: &Table, keys: &[String], value: &str, window: u32) -> (res: Result<
    Resolved,
    RollupError,
>)
    requires
        table.wf(),
    ensures
        match res {
            Ok(r) => {
                &&& accepted(table@, names(keys@), value@, window as nat)
                &&& resolves(table@, names(keys@), r.key_cols@)
                &&& r.value_col == column_of(table@, value@)
                &&& is_column(table@, value@, r.value_col as int)
            },
            Err(e) => rejected(table@, names(keys@), value@, window as nat, e),
        },
{
    let ghost ks = names(keys@);
    if keys.len() == 0 {
        return Err(RollupError::EmptyKeys);
    }
    let mut key_cols: Vec<usize> = Vec::new();
    let mut k: usize = 0;
    while k < keys.len()
        invariant
            table.wf(),
            ks == names(keys@),
            k <= keys@.len(),
            key_cols@.len() == k,
            forall|m: int| 0 <= m < k ==> is_column(table@, #[trigger] ks[m], key_cols@[m] as int),
        decreases keys@.len() - k,
    {
        match table.find_column(&keys[k]) {
            Some(c) => {
                key_cols.push(c);
            },
            None => {
                proof {
                    assert(ks[k as int] == keys@[k as int]@);
                    assert forall|m: int| 0 <= m < ks.take(k as int).len() implies has_column(
                        table@,
                        #[trigger] ks.take(k as int)[m],
                    ) by {
                        assert(is_column(table@, ks[m], key_cols@[m] as int));
                    }
                }
                return Err(RollupError::KeyNotFound(k));
            },
        }
        k += 1;
    }
    proof {
        assert forall|m: int| 0 <= m < ks.len() implies has_column(table@, #[trigger] ks[m]) by {
            assert(is_column(table@, ks[m], key_cols@[m] as int));
        }
    }
    let value_col = match table.find_column(value) {
        Some(c) => c,
        None => {
            return Err(RollupError::ValueNotFound);
        },
    };
    if table.column(value_col).data.kind() == ColumnKind::Text {
        return Err(RollupError::ValueNotNumeric);
    }
    if window == 0 {
        return Err(RollupError::InvalidWindow);
    }
    Ok(Resolved { key_cols, value_col })
}

/// What the rows of a trailing window are: at most `w` rows at or before
/// row `j`, in ascending order, each of the partition of row `i`.
pub proof fn lemma_trailing_members(t: Seq<Col>, keys: Seq<Seq<char>>, i: int, j: int, w: nat)
    ensures
        trailing(t, keys, i, j, w).len() <= w,
        j >= -1 ==> trailing(t, keys, i, j, w).len() <= j + 1,
        forall|k: int|
            0 <= k < trailing(t, keys, i, j, w).len() ==> {
                &&& 0 <= (#[trigger] trailing(t, keys, i, j, w)[k]) <= j
                &&& same_group(t, keys, trailing(t, keys, i, j, w)[k], i)
            },
        forall|k: int, l: int|
            0 <= k < l < trailing(t, keys, i, j, w).len() ==> trailing(t, keys, i, j, w)[k]
                < trailing(t, keys, i, j, w)[l],
    decreases j + 1,
{
    if j < 0 || w == 0 {
    } else if same_group(t, keys, j, i) {
        lemma_trailing_members(t, keys, i, j - 1, (w - 1) as nat);
    } else {
        lemma_trailing_members(t, keys, i, j - 1, w);
    }
}

/// Where no row at or before `j` is of the partition of row `i`, the
/// trailing window at `j` is empty.
pub proof fn lemma_trailing_none(t: Seq<Col>, keys: Seq<Seq<char>>, i: int, j: int, w: nat)
    requires
        forall|r: int| 0 <= r <= j ==> !same_group(t, keys, r, i),
    ensures
        trailing(t, keys, i, j, w) == Seq::<int>::empty(),
    decreases j + 1,
{
    if j >= 0 && w > 0 {
        lemma_trailing_none(t, keys, i, j - 1, w);
    }
}

/// Belonging to one partition is symmetric and transitive.
pub proof fn lemma_same_group_equivalence(
    t: Seq<Col>,
    keys: Seq<Seq<char>>,
    a: int,
    b: int,
    c: int,
)
    ensures
        same_group(t, keys, a, a),
        same_group(t, keys, a, b) == same_group(t, keys, b, a),
        same_group(t, keys, a, b) && same_group(t, keys, b, c) ==> same_group(t, keys, a, c),
{
}

/// The trailing window is that of the partition, whichever of its rows
/// names it.
pub proof fn lemma_trailing_of_partition(
    t: Seq<Col>,
    keys: Seq<Seq<char>>,
    a: int,
    b: int,
    j: int,
    w: nat,
)
    requires
        same_group(t, keys, a, b),
    ensures
        trailing(t, keys, a, j, w) == trailing(t, keys, b, j, w),
    decreases j + 1,
{
    if j >= 0 && w > 0 {
        lemma_same_group_equivalence(t, keys, j, a, b);
        lemma_same_group_equivalence(t, keys, j, b, a);
        lemma_same_group_equivalence(t, keys, a, b, a);
        if same_group(t, keys, j, a) {
            lemma_trailing_of_partition(t, keys, a, b, j - 1, (w - 1) as nat);
        } else {
            lemma_trailing_of_partition(t, keys, a, b, j - 1, w);
        }
    }
}

/// Rows of other partitions add nothing to a trailing window.
pub proof fn lemma_trailing_skips(
    t: Seq<Col>,
    keys: Seq<Seq<char>>,
    i: int,
    p: int,
    j: int,
    w: nat,
)
    requires
        p <= j,
        forall|r: int| p < r <= j ==> !same_group(t, keys, r, i),
    ensures
        trailing(t, keys, i, j, w) == trailing(t, keys, i, p, w),
    decreases j - p,
{
    if p < j {
        lemma_trailing_skips(t, keys, i, p, j - 1, w);
    }
}

/// With room for one row less, a full window loses its oldest row and
/// another window loses none.
pub proof fn lemma_trailing_shrinks(t: Seq<Col>, keys: Seq<Seq<char>>, i: int, j: int, w: nat)
    requires
        w >= 1,
    ensures
        trailing(t, keys, i, j, (w - 1) as nat) == if trailing(t, keys, i, j, w).len() == w {
            trailing(t, keys, i, j, w).drop_first()
        } else {
            trailing(t, keys, i, j, w)
        },
    decreases j + 1,
{
    if j < 0 {
    } else if same_group(t, keys, j, i) {
        let wide = trailing(t, keys, i, j - 1, (w - 1) as nat);
        if w == 1 {
            assert(wide.push(j).drop_first() =~= Seq::<int>::empty());
        } else {
            lemma_trailing_shrinks(t, keys, i, j - 1, (w - 1) as nat);
            lemma_trailing_members(t, keys, i, j - 1, (w - 1) as nat);
            if wide.len() == w - 1 {
                assert(wide.push(j).drop_first() =~= wide.drop_first().push(j));
            }
        }
    } else {
        lemma_trailing_shrinks(t, keys, i, j - 1, w);
    }
}

/// A copy of a list of rows.
fn copy_rows(src: &Vec<usize>) -> (out: Vec<usize>)
    ensures
        out@ == src@,
{
    let mut out: Vec<usize> = Vec::new();
    let mut k: usize = 0;
    while k < src.len()
        invariant
            k <= src@.len(),
            out@ =~= src@.take(k as int),
        decreases src@.len() - k,
    {
        out.push(src[k]);
        k += 1;
    }
    assert(src@.take(k as int) =~= src@);
    out
}

/// The window of every row of the table, row by row and oldest row first.
///
/// The rows of a window belong to the partition of the row that it is the
/// window of; they are the last `window` of them up to that row, or all of
/// them where the partition has had fewer.
pub fn rolling_windows(table: &Table, keys: &[String], value: &str, window: u32) -> (res:
    Result<Vec<Vec<usize>>, RollupError>)
    requires
        table.wf(),
    ensures
        match res {
            Ok(plan) => {
                &&& accepted(table@, names(keys@), value@, window as nat)
                &&& plan@.len() == rows(table@)
                &&& forall|i: int|
                    0 <= i < plan@.len() ==> as_rows((#[trigger] plan@[i])@) == window_rows(
                        table@,
                        names(keys@),
                        window as nat,
                        i,
                    )
            },
            Err(e) => rejected(table@, names(keys@), value@, window as nat, e),
        },
{
    let resolved = match resolve(table, keys, value, window) {
        Ok(r) => r,
        Err(e) => {
            return Err(e);
        },
    };
    let n = table.height();
    let ghost ks = names(keys@);
    let mut state = Partitions::new();
    let mut plan: Vec<Vec<usize>> = Vec::new();
    let mut i: usize = 0;
    while i < n
        invariant
            table.wf(),
            ks == names(keys@),
            resolves(table@, ks, resolved.key_cols@),
            window >= 1,
            n == rows(table@),
            i <= n,
            state.tracks(table@, ks, window as nat, i as int),
            plan@.len() == i,
            forall|r: int|
                0 <= r < i ==> as_rows((#[trigger] plan@[r])@) == window_rows(
                    table@,
                    ks,
                    window as nat,
                    r,
                ),
        decreases n - i,
    {
        let g = state.advance(table, &resolved.key_cols, Ghost(ks), i, window);
        let w = copy_rows(&state.windows[g]);
        plan.push(w);
        i += 1;
    }
    Ok(plan)
}

} // verus!
