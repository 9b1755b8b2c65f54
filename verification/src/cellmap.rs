//! Sparse grid storage: an association vector from integer grid cells to
//! values, with at most one entry per cell, viewed as a `Map` in
//! specifications.

use vstd::prelude::*;

verus! {

/// The map described by an association sequence, later entries winning.
pub open spec fn cell_map_of<V>(s: Seq<((i32, i32), V)>) -> Map<(i32, i32), V>
    decreases s.len(),
{
    if s.len() == 0 {
        Map::empty()
    } else {
        cell_map_of(s.drop_last()).insert(s.last().0, s.last().1)
    }
}

/// A sparse mapping from grid cells to values.
///
/// Entries are kept in insertion order; well-formed values hold at most one
/// entry per cell, so the sequence and its map view are in 1:1 correspondence.
pub struct CellMap<V> {
    pub entries: Vec<((i32, i32), V)>,
}

impl<V> View for CellMap<V> {
    type V = Map<(i32, i32), V>;

    open spec fn view(&self) -> Map<(i32, i32), V> {
        cell_map_of(self.entries@)
    }
}

/// No two entries of the association sequence share a cell.
pub open spec fn cells_distinct<V>(s: Seq<((i32, i32), V)>) -> bool {
    forall|i: int, j: int| 0 <= i < j < s.len() ==> s[i].0 != s[j].0
}

/// A cell is in the map view exactly when some entry carries it.
pub proof fn lemma_cell_map_contains<V>(s: Seq<((i32, i32), V)>, k: (i32, i32))
    ensures
        cell_map_of(s).dom().contains(k) <==> exists|i: int| 0 <= i < s.len() && s[i].0 == k,
    decreases s.len(),
{
    if s.len() > 0 {
        lemma_cell_map_contains(s.drop_last(), k);
        if s.last().0 == k {
            assert(s[s.len() - 1].0 == k);
        } else if cell_map_of(s).dom().contains(k) {
            let i = choose|i: int| 0 <= i < s.drop_last().len() && s.drop_last()[i].0 == k;
            assert(s[i].0 == k);
        } else if exists|i: int| 0 <= i < s.len() && s[i].0 == k {
            let i = choose|i: int| 0 <= i < s.len() && s[i].0 == k;
            assert(s.drop_last()[i].0 == k);
        }
    }
}

/// With distinct cells, the entry carrying a cell gives the view's value there.
pub proof fn lemma_cell_map_index<V>(s: Seq<((i32, i32), V)>, i: int)
    requires
        cells_distinct(s),
        0 <= i < s.len(),
    ensures
        cell_map_of(s).dom().contains(s[i].0),
        cell_map_of(s)[s[i].0] == s[i].1,
    decreases s.len(),
{
    if i == s.len() - 1 {
        assert(s[i] == s.last());
    } else {
        assert(cells_distinct(s.drop_last()));
        assert(s.drop_last()[i] == s[i]);
        lemma_cell_map_index(s.drop_last(), i);
        assert(s[i].0 != s.last().0);
    }
}

/// Appending an entry inserts its cell into the view.
pub proof fn lemma_cell_map_push<V>(s: Seq<((i32, i32), V)>, k: (i32, i32), v: V)
    ensures
        cell_map_of(s.push((k, v))) == cell_map_of(s).insert(k, v),
{
    assert(s.push((k, v)).drop_last() =~= s);
    assert(s.push((k, v)).last() == ((k, v)));
}

/// Overwriting the entry that carries a cell updates the view at that cell.
pub proof fn lemma_cell_map_update<V>(s: Seq<((i32, i32), V)>, i: int, v: V)
    requires
        cells_distinct(s),
        0 <= i < s.len(),
    ensures
        cell_map_of(s.update(i, (s[i].0, v))) == cell_map_of(s).insert(s[i].0, v),
    decreases s.len(),
{
    let t = s.update(i, (s[i].0, v));
    if i == s.len() - 1 {
        assert(t.drop_last() =~= s.drop_last());
        assert(t.last() == ((s[i].0, v)));
        assert(cell_map_of(t) == cell_map_of(s.drop_last()).insert(s[i].0, v));
        assert(cell_map_of(s.drop_last()).insert(s[i].0, v)
            =~= cell_map_of(s.drop_last()).insert(s.last().0, s.last().1).insert(s[i].0, v));
    } else {
        assert(cells_distinct(s.drop_last()));
        assert(s.drop_last()[i] == s[i]);
        lemma_cell_map_update(s.drop_last(), i, v);
        assert(t.drop_last() =~= s.drop_last().update(i, (s[i].0, v)));
        assert(t.last() == s.last());
        assert(s[i].0 != s.last().0);
        assert(cell_map_of(s.drop_last()).insert(s[i].0, v).insert(s.last().0, s.last().1)
            =~= cell_map_of(s.drop_last()).insert(s.last().0, s.last().1).insert(s[i].0, v));
    }
}

/// Removing the entry that carries a cell removes that cell from the view.
pub proof fn lemma_cell_map_remove<V>(s: Seq<((i32, i32), V)>, i: int)
    requires
        cells_distinct(s),
        0 <= i < s.len(),
    ensures
        cell_map_of(s.remove(i)) == cell_map_of(s).remove(s[i].0),
    decreases s.len(),
{
    if i == s.len() - 1 {
        assert(s.remove(i) =~= s.drop_last());
        lemma_cell_map_contains(s.drop_last(), s[i].0);
        assert(forall|j: int| 0 <= j < s.drop_last().len() ==> s.drop_last()[j] == s[j]);
        assert(!cell_map_of(s.drop_last()).dom().contains(s[i].0));
        assert(cell_map_of(s.drop_last())
            =~= cell_map_of(s.drop_last()).insert(s.last().0, s.last().1).remove(s[i].0));
    } else {
        assert(cells_distinct(s.drop_last()));
        assert(s.drop_last()[i] == s[i]);
        lemma_cell_map_remove(s.drop_last(), i);
        assert(s.remove(i).drop_last() =~= s.drop_last().remove(i));
        assert(s.remove(i).last() == s.last());
        assert(s[i].0 != s.last().0);
        assert(cell_map_of(s.drop_last()).remove(s[i].0).insert(s.last().0, s.last().1)
            =~= cell_map_of(s.drop_last()).insert(s.last().0, s.last().1).remove(s[i].0));
    }
}

/// A cell carried by no entry is absent from the view.
pub proof fn lemma_cell_map_absent<V>(s: Seq<((i32, i32), V)>, k: (i32, i32))
    requires
        forall|i: int| 0 <= i < s.len() ==> s[i].0 != k,
    ensures
        !cell_map_of(s).dom().contains(k),
{
    lemma_cell_map_contains(s, k);
}

impl<V> CellMap<V> {
    pub open spec fn wf(&self) -> bool {
        cells_distinct(self.entries@)
    }

    /// An empty cell map.
    pub fn new() -> (r: Self)
        ensures
            r.wf(),
            r@ == Map::<(i32, i32), V>::empty(),
            r.entries@.len() == 0,
    {
        CellMap { entries: Vec::new() }
    }

    /// Index of the entry carrying `cell`, if any.
    fn position_of(&self, cell: (i32, i32)) -> (r: Option<usize>)
        ensures
            match r {
                Some(i) => i < self.entries@.len() && self.entries@[i as int].0 == cell,
                None => forall|i: int| 0 <= i < self.entries@.len() ==> self.entries@[i].0 != cell,
            },
    {
        let n = self.entries.len();
        for i in 0..n
            invariant
                n == self.entries@.len(),
                forall|j: int| 0 <= j < i ==> self.entries@[j].0 != cell,
        {
            let e = &self.entries[i];
            if e.0.0 == cell.0 && e.0.1 == cell.1 {
                assert(self.entries@[i as int].0 == cell);
                return Some(i);
            }
        }
        None
    }

    /// The value stored at `cell`, if any.
    pub fn get(&self, cell: (i32, i32)) -> (r: Option<&V>)
        requires
            self.wf(),
        ensures
            match r {
                Some(v) => self@.dom().contains(cell) && *v == self@[cell],
                None => !self@.dom().contains(cell),
            },
    {
        match self.position_of(cell) {
            Some(i) => {
                proof {
                    lemma_cell_map_index(self.entries@, i as int);
                }
                Some(&self.entries[i].1)
            },
            None => {
                proof {
                    lemma_cell_map_absent(self.entries@, cell);
                }
                None
            },
        }
    }

    /// Whether `cell` holds a value.
    pub fn contains(&self, cell: (i32, i32)) -> (r: bool)
        requires
            self.wf(),
        ensures
            r == self@.dom().contains(cell),
    {
        self.get(cell).is_some()
    }

    /// Stores `v` at `cell`, overwriting any previous value (upsert).
    pub fn insert(&mut self, cell: (i32, i32), v: V)
        requires
            old(self).wf(),
        ensures
            final(self).wf(),
            final(self)@ == old(self)@.insert(cell, v),
    {
        match self.position_of(cell) {
            Some(i) => {
                proof {
                    lemma_cell_map_update(self.entries@, i as int, v);
                }
                self.entries.set(i, (cell, v));
            },
            None => {
                proof {
                    lemma_cell_map_push(self.entries@, cell, v);
                }
                self.entries.push((cell, v));
            },
        }
    }

    /// Removes the value at `cell`; absent cells are a no-op.
    pub fn remove(&mut self, cell: (i32, i32))
        requires
            old(self).wf(),
        ensures
            final(self).wf(),
            final(self)@ == old(self)@.remove(cell),
            !old(self)@.dom().contains(cell) ==> *final(self) == *old(self),
    {
        match self.position_of(cell) {
            Some(i) => {
                proof {
                    lemma_cell_map_index(self.entries@, i as int);
                    lemma_cell_map_remove(self.entries@, i as int);
                }
                self.entries.remove(i);
            },
            None => {
                proof {
                    lemma_cell_map_absent(self.entries@, cell);
                    assert(cell_map_of(self.entries@) =~= cell_map_of(self.entries@).remove(cell));
                }
            },
        }
    }

    /// Number of stored entries.
    pub fn len(&self) -> (r: usize)
        ensures
            r == self.entries@.len(),
    {
        self.entries.len()
    }

    /// Whether the stored entries carry pairwise distinct cells.
    pub fn check_distinct(&self) -> (r: bool)
        ensures
            r == self.wf(),
    {
        let n = self.entries.len();
        for i in 0..n
            invariant
                n == self.entries@.len(),
                forall|p: int, q: int|
                    0 <= p < q < self.entries@.len() && p < i ==> (#[trigger] self.entries@[p]).0
                        != (#[trigger] self.entries@[q]).0,
        {
            for j in (i + 1)..n
                invariant
                    n == self.entries@.len(),
                    i < n,
                    forall|q: int|
                        i < q < j ==> (#[trigger] self.entries@[q]).0 != self.entries@[i as int].0,
            {
                let a = &self.entries[i];
                let b = &self.entries[j];
                if a.0.0 == b.0.0 && a.0.1 == b.0.1 {
                    assert(self.entries@[i as int].0 == self.entries@[j as int].0);
                    return false;
                }
            }
        }
        true
    }
}

} // verus!
