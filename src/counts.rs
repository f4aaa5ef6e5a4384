//! Sorted association lists of counters, keyed by small integers.

use vstd::prelude::*;

verus! {

/// The counter that an association list holds for key `k` (0 when absent).
pub open spec fn list_count(cells: Seq<(usize, usize)>, k: usize) -> nat
    decreases cells.len(),
{
    if cells.len() == 0 {
        0
    } else if cells.last().0 == k {
        cells.last().1 as nat
    } else {
        list_count(cells.drop_last(), k)
    }
}

/// Keys strictly increase along the list, so each key occurs at most once.
pub open spec fn keys_increasing(cells: Seq<(usize, usize)>) -> bool {
    forall|i: int, j: int| 0 <= i < j < cells.len() ==> cells[i].0 < cells[j].0
}

pub open spec fn counts_positive(cells: Seq<(usize, usize)>) -> bool {
    forall|i: int| 0 <= i < cells.len() ==> cells[i].1 > 0
}

pub proof fn lemma_list_count_at(cells: Seq<(usize, usize)>, i: int)
    requires
        keys_increasing(cells),
        0 <= i < cells.len(),
    ensures
        list_count(cells, cells[i].0) == cells[i].1,
    decreases cells.len(),
{
    if i < cells.len() - 1 {
        lemma_list_count_at(cells.drop_last(), i);
    }
}

pub proof fn lemma_list_count_absent(cells: Seq<(usize, usize)>, k: usize)
    requires
        forall|i: int| 0 <= i < cells.len() ==> cells[i].0 != k,
    ensures
        list_count(cells, k) == 0,
    decreases cells.len(),
{
    if cells.len() > 0 {
        lemma_list_count_absent(cells.drop_last(), k);
    }
}

/// A positive counter exists exactly for the keys that the list holds.
pub proof fn lemma_list_count_positive(cells: Seq<(usize, usize)>, k: usize)
    requires
        keys_increasing(cells),
        counts_positive(cells),
    ensures
        list_count(cells, k) > 0 <==> exists|i: int| 0 <= i < cells.len() && cells[i].0 == k,
{
    if exists|i: int| 0 <= i < cells.len() && cells[i].0 == k {
        let i = choose|i: int| 0 <= i < cells.len() && cells[i].0 == k;
        lemma_list_count_at(cells, i);
    } else {
        lemma_list_count_absent(cells, k);
    }
}

/// A sorted list of positive counters is determined by what it counts.
pub proof fn lemma_lists_unique(a: Seq<(usize, usize)>, b: Seq<(usize, usize)>)
    requires
        keys_increasing(a),
        counts_positive(a),
        keys_increasing(b),
        counts_positive(b),
        forall|k: usize| list_count(a, k) == list_count(b, k),
    ensures
        a == b,
    decreases a.len() + b.len(),
{
    if a.len() == 0 && b.len() == 0 {
        assert(a =~= b);
    } else if a.len() == 0 {
        lemma_list_count_at(b, b.len() - 1);
        lemma_list_count_absent(a, b.last().0);
    } else if b.len() == 0 {
        lemma_list_count_at(a, a.len() - 1);
        lemma_list_count_absent(b, a.last().0);
    } else {
        let (ka, ca) = a.last();
        let (kb, cb) = b.last();
        lemma_list_count_at(a, a.len() - 1);
        lemma_list_count_at(b, b.len() - 1);
        if ka < kb {
            lemma_list_count_absent(a, kb);
        } else if kb < ka {
            lemma_list_count_absent(b, ka);
        }
        assert(ka == kb && ca == cb);
        let a2 = a.drop_last();
        let b2 = b.drop_last();
        assert(keys_increasing(a2) && counts_positive(a2));
        assert(keys_increasing(b2) && counts_positive(b2));
        assert forall|k: usize| list_count(a2, k) == list_count(b2, k) by {
            if k == ka {
                assert(forall|i: int| 0 <= i < a2.len() ==> a2[i].0 < a[a.len() - 1].0);
                assert(forall|i: int| 0 <= i < b2.len() ==> b2[i].0 < b[b.len() - 1].0);
                lemma_list_count_absent(a2, k);
                lemma_list_count_absent(b2, k);
            } else {
                assert(list_count(a, k) == list_count(a2, k));
                assert(list_count(b, k) == list_count(b2, k));
            }
        }
        lemma_lists_unique(a2, b2);
        assert(a.len() == b.len());
        assert forall|i: int| 0 <= i < a.len() implies a[i] == b[i] by {
            if i < a.len() - 1 {
                assert(a[i] == a2[i] && b[i] == b2[i]);
            }
        }
        assert(a =~= b);
    }
}

/// Two strictly increasing sequences with the same members are equal.
pub proof fn lemma_sorted_members_unique(x: Seq<usize>, y: Seq<usize>)
    requires
        forall|i: int, j: int| 0 <= i < j < x.len() ==> x[i] < x[j],
        forall|i: int, j: int| 0 <= i < j < y.len() ==> y[i] < y[j],
        forall|v: usize| #[trigger] x.contains(v) <==> y.contains(v),
    ensures
        x == y,
    decreases x.len() + y.len(),
{
    if x.len() == 0 && y.len() == 0 {
        assert(x =~= y);
    } else if x.len() == 0 {
        assert(y.contains(y[0]));
        assert(!x.contains(y[0]));
    } else if y.len() == 0 {
        assert(x.contains(x[0]));
        assert(!y.contains(x[0]));
    } else {
        let a = x.last();
        let b = y.last();
        assert(x.contains(a));
        assert(y.contains(b));
        assert(x.contains(b));
        assert(y.contains(a));
        let ib = choose|i: int| 0 <= i < x.len() && x[i] == b;
        let ja = choose|j: int| 0 <= j < y.len() && y[j] == a;
        assert(b <= a) by {
            if ib < x.len() - 1 {
            }
        }
        assert(a <= b) by {
            if ja < y.len() - 1 {
            }
        }
        let x2 = x.drop_last();
        let y2 = y.drop_last();
        assert forall|v: usize| #[trigger] x2.contains(v) <==> y2.contains(v) by {
            if x2.contains(v) {
                let i = choose|i: int| 0 <= i < x2.len() && x2[i] == v;
                assert(x[i] == v);
                assert(x.contains(v));
                assert(y.contains(v));
                let j = choose|j: int| 0 <= j < y.len() && y[j] == v;
                assert(j != y.len() - 1);
                assert(y2[j] == v);
            }
            if y2.contains(v) {
                let j = choose|j: int| 0 <= j < y2.len() && y2[j] == v;
                assert(y[j] == v);
                assert(y.contains(v));
                assert(x.contains(v));
                let i = choose|i: int| 0 <= i < x.len() && x[i] == v;
                assert(i != x.len() - 1);
                assert(x2[i] == v);
            }
        }
        lemma_sorted_members_unique(x2, y2);
        assert forall|i: int| 0 <= i < x.len() implies x[i] == y[i] by {
            if i < x.len() - 1 {
                assert(x[i] == x2[i] && y[i] == y2[i]);
            }
        }
        assert(x =~= y);
    }
}

/// Counters keyed by integers, kept sorted by key.
pub struct CountList {
    pub cells: Vec<(usize, usize)>,
}

impl CountList {
    pub open spec fn wf(&self) -> bool {
        keys_increasing(self.cells@) && counts_positive(self.cells@)
    }

    pub open spec fn count(&self, k: usize) -> nat {
        list_count(self.cells@, k)
    }

    pub fn new() -> (r: CountList)
        ensures
            r.wf(),
            r.cells@.len() == 0,
            forall|k: usize| r.count(k) == 0,
    {
        CountList { cells: Vec::new() }
    }

    /// Adds one to the counter of `key`.
    pub fn increment(&mut self, key: usize)
        requires
            old(self).wf(),
            old(self).count(key) < usize::MAX,
        ensures
            final(self).wf(),
            final(self).cells@.len() > 0,
            forall|k: usize| #[trigger]
                final(self).count(k) == old(self).count(k) + if k == key {
                    1int
                } else {
                    0int
                },
    {
        let ghost before = self.cells@;
        let mut pos: usize = self.cells.len();
        while pos > 0 && self.cells[pos - 1].0 > key
            invariant
                pos <= self.cells@.len(),
                self.cells@ == before,
                keys_increasing(before),
                forall|j: int| pos <= j < before.len() ==> before[j].0 > key,
            decreases pos,
        {
            pos -= 1;
        }
        if pos > 0 && self.cells[pos - 1].0 == key {
            let c = self.cells[pos - 1].1;
            proof {
                lemma_list_count_at(before, pos - 1);
            }
            self.cells.set(pos - 1, (key, c + 1));
            let ghost after = self.cells@;
            assert forall|k: usize|
                list_count(after, k) == list_count(before, k) + if k == key {
                    1int
                } else {
                    0int
                } by {
                if k == key {
                    lemma_list_count_at(after, pos - 1);
                } else if exists|i: int| 0 <= i < before.len() && before[i].0 == k {
                    let i = choose|i: int| 0 <= i < before.len() && before[i].0 == k;
                    lemma_list_count_at(before, i);
                    lemma_list_count_at(after, i);
                } else {
                    lemma_list_count_absent(before, k);
                    lemma_list_count_absent(after, k);
                }
            }
        } else {
            proof {
                lemma_list_count_absent(before, key);
            }
            self.cells.insert(pos, (key, 1));
            let ghost after = self.cells@;
            assert(keys_increasing(after));
            assert forall|k: usize|
                list_count(after, k) == list_count(before, k) + if k == key {
                    1int
                } else {
                    0int
                } by {
                if k == key {
                    lemma_list_count_at(after, pos as int);
                } else if exists|i: int| 0 <= i < before.len() && before[i].0 == k {
                    let i = choose|i: int| 0 <= i < before.len() && before[i].0 == k;
                    lemma_list_count_at(before, i);
                    if i < pos {
                        lemma_list_count_at(after, i);
                    } else {
                        lemma_list_count_at(after, i + 1);
                    }
                } else {
                    lemma_list_count_absent(before, k);
                    lemma_list_count_absent(after, k);
                }
            }
        }
    }
}


/// One row of a two-level counter table: the counters under outer key `key`.
pub struct CountRow {
    pub key: usize,
    pub counts: CountList,
}

/// The counter that a table holds for the pair `(o, i)` (0 when absent).
pub open spec fn table_count(rows: Seq<CountRow>, o: usize, i: usize) -> nat
    decreases rows.len(),
{
    if rows.len() == 0 {
        0
    } else if rows.last().key == o {
        rows.last().counts.count(i)
    } else {
        table_count(rows.drop_last(), o, i)
    }
}

pub open spec fn rows_wf(rows: Seq<CountRow>) -> bool {
    &&& forall|a: int, b: int| 0 <= a < b < rows.len() ==> rows[a].key < rows[b].key
    &&& forall|a: int| 0 <= a < rows.len() ==> (#[trigger] rows[a]).counts.wf()
    &&& forall|a: int| 0 <= a < rows.len() ==> (#[trigger] rows[a]).counts.cells@.len() > 0
}

pub proof fn lemma_table_count_at(rows: Seq<CountRow>, a: int, i: usize)
    requires
        rows_wf(rows),
        0 <= a < rows.len(),
    ensures
        table_count(rows, rows[a].key, i) == rows[a].counts.count(i),
    decreases rows.len(),
{
    if a < rows.len() - 1 {
        lemma_table_count_at(rows.drop_last(), a, i);
    }
}

pub proof fn lemma_table_count_absent(rows: Seq<CountRow>, o: usize, i: usize)
    requires
        forall|a: int| 0 <= a < rows.len() ==> rows[a].key != o,
    ensures
        table_count(rows, o, i) == 0,
    decreases rows.len(),
{
    if rows.len() > 0 {
        lemma_table_count_absent(rows.drop_last(), o, i);
    }
}

/// Counters keyed by pairs of integers, grouped by the first of the pair and
/// sorted at both levels.
pub struct CountTable {
    pub rows: Vec<CountRow>,
}

impl CountTable {
    pub open spec fn wf(&self) -> bool {
        rows_wf(self.rows@)
    }

    pub open spec fn count(&self, o: usize, i: usize) -> nat {
        table_count(self.rows@, o, i)
    }

    pub fn new() -> (r: CountTable)
        ensures
            r.wf(),
            r.rows@.len() == 0,
            forall|o: usize, i: usize| r.count(o, i) == 0,
    {
        CountTable { rows: Vec::new() }
    }

    /// Adds one to the counter of the pair `(outer, inner)`.
    pub fn increment(&mut self, outer: usize, inner: usize)
        requires
            old(self).wf(),
            old(self).count(outer, inner) < usize::MAX,
        ensures
            final(self).wf(),
            forall|o: usize, i: usize| #[trigger]
                final(self).count(o, i) == old(self).count(o, i) + if o == outer && i == inner {
                    1int
                } else {
                    0int
                },
    {
        let ghost before = self.rows@;
        let mut pos: usize = self.rows.len();
        while pos > 0 && self.rows[pos - 1].key > outer
            invariant
                pos <= self.rows@.len(),
                self.rows@ == before,
                rows_wf(before),
                forall|j: int| pos <= j < before.len() ==> before[j].key > outer,
            decreases pos,
        {
            pos -= 1;
        }
        if pos > 0 && self.rows[pos - 1].key == outer {
            proof {
                lemma_table_count_at(before, pos - 1, inner);
            }
            let mut row = self.rows.remove(pos - 1);
            assert(row == before[pos - 1]);
            row.counts.increment(inner);
            self.rows.insert(pos - 1, row);
            let ghost after = self.rows@;
            assert(after =~= before.update(pos - 1, row));
            assert forall|o: usize, i: usize|
                table_count(after, o, i) == table_count(before, o, i) + if o == outer && i
                    == inner {
                    1int
                } else {
                    0int
                } by {
                if o == outer {
                    lemma_table_count_at(before, pos - 1, i);
                    lemma_table_count_at(after, pos - 1, i);
                } else if exists|a: int| 0 <= a < before.len() && before[a].key == o {
                    let a = choose|a: int| 0 <= a < before.len() && before[a].key == o;
                    lemma_table_count_at(before, a, i);
                    lemma_table_count_at(after, a, i);
                } else {
                    lemma_table_count_absent(before, o, i);
                    lemma_table_count_absent(after, o, i);
                }
            }
        } else {
            proof {
                lemma_table_count_absent(before, outer, inner);
            }
            let mut counts = CountList::new();
            counts.increment(inner);
            let row = CountRow { key: outer, counts };
            self.rows.insert(pos, row);
            let ghost after = self.rows@;
            assert(after[pos as int] == row);
            assert(rows_wf(after));
            assert forall|o: usize, i: usize|
                table_count(after, o, i) == table_count(before, o, i) + if o == outer && i
                    == inner {
                    1int
                } else {
                    0int
                } by {
                if o == outer {
                    lemma_table_count_at(after, pos as int, i);
                    lemma_table_count_absent(before, o, i);
                } else if exists|a: int| 0 <= a < before.len() && before[a].key == o {
                    let a = choose|a: int| 0 <= a < before.len() && before[a].key == o;
                    lemma_table_count_at(before, a, i);
                    if a < pos {
                        lemma_table_count_at(after, a, i);
                    } else {
                        lemma_table_count_at(after, a + 1, i);
                    }
                } else {
                    lemma_table_count_absent(before, o, i);
                    lemma_table_count_absent(after, o, i);
                }
            }
        }
    }
}

} // verus!
