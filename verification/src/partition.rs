//! The rolling window state: one window for every partition met so far.
use vstd::prelude::*;
use crate::table::{Col, Table, is_column, rows, well_formed};
use crate::window::{as_rows, resolves, same_group, window_rows, lemma_same_group_equivalence,
    lemma_trailing_members, lemma_trailing_none, lemma_trailing_of_partition,
    lemma_trailing_shrinks, lemma_trailing_skips};

verus! {

/// Whether rows `a` and `b` agree in every key column.
fn rows_match(
    table: &Table,
    key_cols: &Vec<usize>,
    Ghost(keys): Ghost<Seq<Seq<char>>>,
    a: usize,
    b: usize,
) -> (same: bool)
    requires
        table.wf(),
        resolves(table@, keys, key_cols@),
        a < rows(table@),
        b < rows(table@),
    ensures
        same == same_group(table@, keys, a as int, b as int),
{
    let ghost t = table@;
    let mut k: usize = 0;
    while k < key_cols.len()
        invariant
            t == table@,
            well_formed(t),
            resolves(t, keys, key_cols@),
            a < rows(t),
            b < rows(t),
            k <= key_cols@.len(),
            forall|m: int|
                0 <= m < k ==> t[key_cols@[m] as int].cells[a as int] == t[key_cols@[m] as int].cells[b as int],
        decreases key_cols@.len() - k,
    {
        let c = key_cols[k];
        assert(is_column(t, keys[k as int], c as int));
        assert(t[c as int].cells.len() == t[0].cells.len());
        if !table.column(c).data.same_cell(a, b) {
            proof {
                assert(keys.contains(t[c as int].name));
            }
            return false;
        }
        k += 1;
    }
    proof {
        assert forall|c: int| 0 <= c < t.len() && keys.contains((#[trigger] t[c]).name) implies t[c].cells[a as int]
            == t[c].cells[b as int] by {
            let m = choose|m: int| 0 <= m < keys.len() && keys[m] == t[c].name;
            assert(is_column(t, keys[m], key_cols@[m] as int));
            assert(t[key_cols@[m] as int].name == t[c].name);
        }
    }
    true
}

/// The rolling window state: for every partition met so far, its latest row
/// and the window of that row.
pub struct Partitions {
    /// The latest row of each partition, in the order in which the
    /// partitions were first met.
    pub latest: Vec<usize>,
    /// The window of each partition's latest row, oldest row first.
    pub windows: Vec<Vec<usize>>,
}

/// Row `r` is of a partition that `latest` knows.
pub open spec fn represented(t: Seq<Col>, keys: Seq<Seq<char>>, latest: Seq<usize>, r: int) -> bool {
    exists|g: int| 0 <= g < latest.len() && same_group(t, keys, #[trigger] latest[g] as int, r)
}

impl Partitions {
    /// The state holds the partitions of the rows before row `i`, each once,
    /// with its latest row and that row's window.
    pub open spec fn tracks(&self, t: Seq<Col>, keys: Seq<Seq<char>>, w: nat, i: int) -> bool {
        &&& self.latest@.len() == self.windows@.len()
        &&& forall|g: int| 0 <= g < self.latest@.len() ==> (#[trigger] self.latest@[g]) < i
        &&& forall|g: int|
            0 <= g < self.latest@.len() ==> as_rows((#[trigger] self.windows@[g])@) == window_rows(
                t,
                keys,
                w,
                self.latest@[g] as int,
            )
        &&& forall|r: int| 0 <= r < i ==> #[trigger] represented(t, keys, self.latest@, r)
        &&& forall|g: int, r: int|
            0 <= g < self.latest@.len() && 0 <= r < i && #[trigger] same_group(
                t,
                keys,
                self.latest@[g] as int,
                r,
            ) ==> r <= self.latest@[g]
        &&& forall|g: int, h: int|
            0 <= g < self.latest@.len() && 0 <= h < self.latest@.len() && g != h ==> !same_group(
                t,
                keys,
                #[trigger] self.latest@[g] as int,
                #[trigger] self.latest@[h] as int,
            )
    }

    /// The state before the first row: no partition has been met.
    pub fn new() -> (p: Partitions)
        ensures
            p.latest@.len() == 0,
            p.windows@.len() == 0,
    {
        Partitions { latest: Vec::new(), windows: Vec::new() }
    }

    /// Takes row `i` in and gives the place of its partition, at which its
    /// window now stands.
    pub(crate) fn advance(
        &mut self,
        table: &Table,
        key_cols: &Vec<usize>,
        Ghost(keys): Ghost<Seq<Seq<char>>>,
        i: usize,
        window: u32,
    ) -> (g: usize)
        requires
            table.wf(),
            resolves(table@, keys, key_cols@),
            i < rows(table@) <= usize::MAX,
            window >= 1,
            old(self).tracks(table@, keys, window as nat, i as int),
        ensures
            final(self).tracks(table@, keys, window as nat, i + 1),
            g < final(self).windows@.len(),
            as_rows(final(self).windows@[g as int]@) == window_rows(
                table@,
                keys,
                window as nat,
                i as int,
            ),
    {
        let ghost t = table@;
        let ghost w = window as nat;
        let ghost before = *self;
        let mut g: usize = 0;
        let mut found = false;
        while g < self.latest.len() && !found
            invariant
                *self == before,
                t == table@,
                table.wf(),
                resolves(t, keys, key_cols@),
                i < rows(t) <= usize::MAX,
                before.tracks(t, keys, w, i as int),
                g <= self.latest@.len(),
                found ==> g < self.latest@.len() && same_group(
                    t,
                    keys,
                    self.latest@[g as int] as int,
                    i as int,
                ),
                forall|h: int|
                    0 <= h < g ==> !same_group(t, keys, #[trigger] self.latest@[h] as int, i as int),
            decreases self.latest@.len() - g + (if found { 0int } else { 1int }),
        {
            if rows_match(table, key_cols, Ghost(keys), self.latest[g], i) {
                found = true;
            } else {
                g += 1;
            }
        }
        let mut next: Vec<usize> = Vec::new();
        if found {
            let p = self.latest[g];
            let ghost old_window = as_rows(self.windows@[g as int]@);
            proof {
                assert(old_window == window_rows(t, keys, w, p as int));
                lemma_trailing_members(t, keys, p as int, p as int, w);
                assert forall|r: int| p < r <= i - 1 implies !same_group(t, keys, r, i as int) by {
                    lemma_same_group_equivalence(t, keys, p as int, i as int, r);
                    lemma_same_group_equivalence(t, keys, r, i as int, p as int);
                    if same_group(t, keys, r, i as int) {
                        assert(same_group(t, keys, p as int, r));
                    }
                }
                lemma_trailing_skips(t, keys, i as int, p as int, i - 1, (w - 1) as nat);
                lemma_same_group_equivalence(t, keys, p as int, i as int, p as int);
                lemma_trailing_of_partition(t, keys, i as int, p as int, p as int, (w - 1) as nat);
                lemma_trailing_shrinks(t, keys, p as int, p as int, w);
                lemma_same_group_equivalence(t, keys, i as int, i as int, i as int);
            }
            let full = self.windows[g].len() == window as usize;
            let mut k: usize = if full { 1 } else { 0 };
            let ghost kept = if full { old_window.drop_first() } else { old_window };
            let ghost start = k;
            assert(window_rows(t, keys, w, i as int) == kept.push(i as int));
            while k < self.windows[g].len()
                invariant
                    *self == before,
                    g < self.windows@.len(),
                    old_window == as_rows(self.windows@[g as int]@),
                    start <= k <= self.windows@[g as int]@.len(),
                    start == (if full { 1usize } else { 0usize }),
                    kept == (if full { old_window.drop_first() } else { old_window }),
                    full ==> old_window.len() >= 1,
                    next@.len() == k - start,
                    forall|m: int| 0 <= m < next@.len() ==> next@[m] as int == kept[m],
                decreases self.windows@[g as int]@.len() - k,
            {
                next.push(self.windows[g][k]);
                k += 1;
            }
            next.push(i);
            assert(as_rows(next@) =~= kept.push(i as int));
            self.latest.set(g, i);
            self.windows.set(g, next);
            proof {
                let now = *self;
                assert forall|r: int| 0 <= r < i + 1 implies #[trigger] represented(
                    t,
                    keys,
                    now.latest@,
                    r,
                ) by {
                    if r == i {
                        assert(same_group(t, keys, now.latest@[g as int] as int, r));
                    } else {
                        assert(represented(t, keys, before.latest@, r));
                        let h = choose|h: int|
                            0 <= h < before.latest@.len() && same_group(
                                t,
                                keys,
                                #[trigger] before.latest@[h] as int,
                                r,
                            );
                        if h == g {
                            lemma_same_group_equivalence(t, keys, p as int, i as int, p as int);
                            lemma_same_group_equivalence(t, keys, i as int, p as int, r);
                            assert(same_group(t, keys, now.latest@[g as int] as int, r));
                        } else {
                            assert(same_group(t, keys, now.latest@[h] as int, r));
                        }
                    }
                }
                assert forall|h: int, r: int|
                    0 <= h < now.latest@.len() && 0 <= r < i + 1 && #[trigger] same_group(
                        t,
                        keys,
                        now.latest@[h] as int,
                        r,
                    ) implies r <= now.latest@[h] by {
                    if h != g && r == i {
                        lemma_same_group_equivalence(t, keys, p as int, i as int, before.latest@[h] as int);
                        lemma_same_group_equivalence(t, keys, before.latest@[h] as int, i as int, p as int);
                        assert(!same_group(t, keys, before.latest@[g as int] as int, before.latest@[h] as int));
                    }
                }
                assert forall|h: int, l: int|
                    0 <= h < now.latest@.len() && 0 <= l < now.latest@.len() && h != l implies !same_group(
                    t,
                    keys,
                    #[trigger] now.latest@[h] as int,
                    #[trigger] now.latest@[l] as int,
                ) by {
                    let a = before.latest@[h] as int;
                    let b = before.latest@[l] as int;
                    assert(!same_group(t, keys, a, b));
                    lemma_same_group_equivalence(t, keys, p as int, i as int, a);
                    lemma_same_group_equivalence(t, keys, p as int, i as int, b);
                    lemma_same_group_equivalence(t, keys, a, i as int, p as int);
                    lemma_same_group_equivalence(t, keys, b, i as int, p as int);
                }
            }
            g
        } else {
            proof {
                assert forall|r: int| 0 <= r < i implies !same_group(t, keys, r, i as int) by {
                    assert(represented(t, keys, before.latest@, r));
                    let h = choose|h: int|
                        0 <= h < before.latest@.len() && same_group(
                            t,
                            keys,
                            #[trigger] before.latest@[h] as int,
                            r,
                        );
                    lemma_same_group_equivalence(t, keys, before.latest@[h] as int, r, i as int);
                }
                lemma_trailing_none(t, keys, i as int, i - 1, (w - 1) as nat);
                lemma_same_group_equivalence(t, keys, i as int, i as int, i as int);
                assert(window_rows(t, keys, w, i as int) =~= seq![i as int]);
            }
            next.push(i);
            assert(as_rows(next@) =~= seq![i as int]);
            let at = self.latest.len();
            self.latest.push(i);
            self.windows.push(next);
            proof {
                let now = *self;
                assert forall|r: int| 0 <= r < i + 1 implies #[trigger] represented(
                    t,
                    keys,
                    now.latest@,
                    r,
                ) by {
                    if r == i {
                        assert(same_group(t, keys, now.latest@[at as int] as int, r));
                    } else {
                        assert(represented(t, keys, before.latest@, r));
                        let h = choose|h: int|
                            0 <= h < before.latest@.len() && same_group(
                                t,
                                keys,
                                #[trigger] before.latest@[h] as int,
                                r,
                            );
                        assert(same_group(t, keys, now.latest@[h] as int, r));
                    }
                }
                assert forall|h: int, l: int|
                    0 <= h < now.latest@.len() && 0 <= l < now.latest@.len() && h != l implies !same_group(
                    t,
                    keys,
                    #[trigger] now.latest@[h] as int,
                    #[trigger] now.latest@[l] as int,
                ) by {
                    lemma_same_group_equivalence(t, keys, now.latest@[h] as int, now.latest@[l] as int, 0);
                    if h < at && l < at {
                        assert(!same_group(t, keys, before.latest@[h] as int, before.latest@[l] as int));
                    }
                }
            }
            at
        }
    }
}

} // verus!
