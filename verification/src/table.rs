//! Ordered tables: rows kept in the order of their keys, each key at most once.
use vstd::prelude::*;

verus! {

/// A key of a [`Table`]: its view is ordered by a strict total order.
pub trait TableKey: View + Sized {
    /// Whether `a` stands before `b` in the order of the keys.
    spec fn before(a: Self::V, b: Self::V) -> bool;

    proof fn before_irreflexive(a: Self::V)
        ensures
            !Self::before(a, a),
    ;

    proof fn before_transitive(a: Self::V, b: Self::V, c: Self::V)
        requires
            Self::before(a, b),
            Self::before(b, c),
        ensures
            Self::before(a, c),
    ;

    proof fn before_total(a: Self::V, b: Self::V)
        ensures
            a == b || Self::before(a, b) || Self::before(b, a),
    ;

    /// Whether this key stands before the other one.
    fn is_before(&self, other: &Self) -> (r: bool)
        ensures
            r == Self::before(self@, other@),
    ;

    /// A key with the same view.
    fn copy_key(&self) -> (r: Self)
        ensures
            r@ == self@,
    ;
}

/// A row of a [`Table`].
pub trait TableRow: View + Sized {
    /// The row's own invariant.
    spec fn sound(&self) -> bool;

    /// A row with the same view.
    fn copy_row(&self) -> (r: Self)
        requires
            self.sound(),
        ensures
            r.sound(),
            r@ == self@,
    ;
}

/// Whether the keys of `s` stand strictly in their order.
pub open spec fn ascending<K: TableKey>(s: Seq<K::V>) -> bool {
    forall|i: int, j: int| 0 <= i < j < s.len() ==> K::before(#[trigger] s[i], #[trigger] s[j])
}

/// Whether `s` holds each member of `dom` once, and nothing else, in the order of the keys.
pub open spec fn lists<K: TableKey>(s: Seq<K::V>, dom: Set<K::V>) -> bool {
    &&& ascending::<K>(s)
    &&& forall|k: K::V| #[trigger] s.contains(k) <==> dom.contains(k)
}

/// The members of `dom` in the order of the keys.
pub open spec fn in_order<K: TableKey>(dom: Set<K::V>) -> Seq<K::V> {
    choose|s: Seq<K::V>| lists::<K>(s, dom)
}

/// Two ascending sequences with the same members are the same sequence.
pub proof fn lemma_ascending_unique<K: TableKey>(a: Seq<K::V>, b: Seq<K::V>)
    requires
        ascending::<K>(a),
        ascending::<K>(b),
        forall|k: K::V| #[trigger] a.contains(k) <==> b.contains(k),
    ensures
        a == b,
    decreases a.len(),
{
    if a.len() == 0 {
        if b.len() > 0 {
            assert(b.contains(b[0]));
            assert(a.contains(b[0]));
        }
        assert(a =~= b);
    } else if b.len() == 0 {
        assert(a.contains(a[0]));
        assert(b.contains(a[0]));
    } else {
        let la = a.last();
        let lb = b.last();
        assert(a[a.len() - 1] == la);
        assert(a.contains(la));
        assert(b.contains(la));
        assert(b[b.len() - 1] == lb);
        assert(b.contains(lb));
        assert(a.contains(lb));
        let i = choose|i: int| 0 <= i < b.len() && b[i] == la;
        let j = choose|j: int| 0 <= j < a.len() && a[j] == lb;
        if la != lb {
            assert(K::before(la, lb));
            assert(K::before(lb, la));
            K::before_transitive(la, lb, la);
            K::before_irreflexive(la);
        }
        let a1 = a.drop_last();
        let b1 = b.drop_last();
        assert forall|k: K::V| #[trigger] a1.contains(k) <==> b1.contains(k) by {
            K::before_irreflexive(la);
            if a1.contains(k) {
                let p = choose|p: int| 0 <= p < a1.len() && a1[p] == k;
                assert(a[p] == k);
                assert(a.contains(k));
                assert(K::before(a[p], a[a.len() - 1]));
                assert(k != la);
                let q = choose|q: int| 0 <= q < b.len() && b[q] == k;
                assert(b1[q] == k);
            }
            if b1.contains(k) {
                let p = choose|p: int| 0 <= p < b1.len() && b1[p] == k;
                assert(b[p] == k);
                assert(b.contains(k));
                assert(a.contains(k));
                assert(K::before(b[p], b[b.len() - 1]));
                assert(k != la);
                let q = choose|q: int| 0 <= q < a.len() && a[q] == k;
                assert(a1[q] == k);
            }
        }
        lemma_ascending_unique::<K>(a1, b1);
        assert(a =~= a1.push(la));
        assert(b =~= b1.push(lb));
    }
}

/// A sequence that lists a set is that set in the order of the keys.
pub proof fn lemma_lists_in_order<K: TableKey>(s: Seq<K::V>, dom: Set<K::V>)
    requires
        lists::<K>(s, dom),
    ensures
        s == in_order::<K>(dom),
{
    lemma_ascending_unique::<K>(s, in_order::<K>(dom));
}

/// Rows in the order of their keys, each key at most once.
pub struct Table<K, V> {
    keys: Vec<K>,
    rows: Vec<V>,
}

impl<K: TableKey, V: TableRow> Table<K, V> {
    /// The keys, in their order.
    pub closed spec fn keys(&self) -> Seq<K::V> {
        Seq::new(self.keys@.len(), |i: int| self.keys@[i]@)
    }

    /// The rows, in the order of their keys.
    pub closed spec fn rows(&self) -> Seq<V::V> {
        Seq::new(self.rows@.len(), |i: int| self.rows@[i]@)
    }

    /// The invariant: keys strictly ascending, one sound row for each.
    pub closed spec fn wf(&self) -> bool {
        &&& self.keys@.len() == self.rows@.len()
        &&& ascending::<K>(self.keys())
        &&& forall|i: int| 0 <= i < self.rows@.len() ==> (#[trigger] self.rows@[i]).sound()
    }
}

impl<K: TableKey, V: TableRow> View for Table<K, V> {
    type V = Map<K::V, V::V>;

    /// What row each key has.
    open spec fn view(&self) -> Map<K::V, V::V> {
        Map::new(|k: K::V| self.keys().contains(k), |k: K::V| self.rows()[self.keys().index_of(k)])
    }
}

impl<K: TableKey, V: TableRow> Table<K, V> {
    /// How the view of a well-formed table lies in its two sequences.
    pub proof fn lemma_view(&self)
        requires
            self.wf(),
        ensures
            self.rows().len() == self.keys().len(),
            lists::<K>(self.keys(), self@.dom()),
            self.keys() == in_order::<K>(self@.dom()),
            self@.dom().finite(),
            self@.dom().len() == self.keys().len(),
            forall|i: int|
                0 <= i < self.keys().len() ==> self@.dom().contains(#[trigger] self.keys()[i])
                    && self@[self.keys()[i]] == self.rows()[i],
    {
        assert forall|i: int| 0 <= i < self.keys().len() implies self@.dom().contains(
            #[trigger] self.keys()[i],
        ) && self@[self.keys()[i]] == self.rows()[i] by {
            let k = self.keys()[i];
            assert(self.keys().contains(k));
            let j = self.keys().index_of(k);
            if i != j {
                K::before_irreflexive(k);
            }
        }
        assert(lists::<K>(self.keys(), self@.dom()));
        lemma_lists_in_order::<K>(self.keys(), self@.dom());
        assert(self.keys().no_duplicates()) by {
            assert forall|i: int, j: int|
                0 <= i < self.keys().len() && 0 <= j < self.keys().len() && i
                    != j implies self.keys()[i] != self.keys()[j] by {
                K::before_irreflexive(self.keys()[i]);
                if i < j {
                    assert(K::before(self.keys()[i], self.keys()[j]));
                } else {
                    assert(K::before(self.keys()[j], self.keys()[i]));
                }
            }
        }
        self.keys().unique_seq_to_set();
        assert(self.keys().to_set() =~= self@.dom());
        vstd::seq_lib::seq_to_set_is_finite(self.keys());
    }

    /// A table without rows.
    pub fn new() -> (r: Self)
        ensures
            r.wf(),
            r@ == Map::<K::V, V::V>::empty(),
    {
        let r = Table { keys: Vec::new(), rows: Vec::new() };
        proof {
            assert(r@ =~= Map::<K::V, V::V>::empty());
        }
        r
    }

    /// How many rows the table has.
    pub fn len(&self) -> (r: usize)
        requires
            self.wf(),
        ensures
            r == self.keys().len(),
            r == self@.dom().len(),
    {
        proof {
            self.lemma_view();
        }
        self.keys.len()
    }

    /// The key at a place of the order.
    pub fn key_at(&self, i: usize) -> (r: &K)
        requires
            self.wf(),
            i < self.keys().len(),
        ensures
            r@ == self.keys()[i as int],
            self@.dom().contains(r@),
    {
        proof {
            self.lemma_view();
        }
        &self.keys[i]
    }

    /// The row at a place of the order.
    pub fn row_at(&self, i: usize) -> (r: &V)
        requires
            self.wf(),
            i < self.keys().len(),
        ensures
            r.sound(),
            r@ == self@[self.keys()[i as int]],
            r@ == self.rows()[i as int],
    {
        proof {
            self.lemma_view();
        }
        &self.rows[i]
    }

    /// How many keys stand before `key`.
    fn rank(&self, key: &K) -> (r: usize)
        requires
            self.wf(),
        ensures
            r <= self.keys().len(),
            forall|j: int| 0 <= j < r ==> K::before(#[trigger] self.keys()[j], key@),
            forall|j: int|
                r <= j < self.keys().len() ==> !K::before(#[trigger] self.keys()[j], key@),
    {
        let mut low: usize = 0;
        let mut high: usize = self.keys.len();
        while low < high
            invariant
                self.wf(),
                low <= high <= self.keys().len(),
                self.keys().len() == self.keys@.len(),
                forall|j: int| 0 <= j < low ==> K::before(#[trigger] self.keys()[j], key@),
                forall|j: int|
                    high <= j < self.keys().len() ==> !K::before(#[trigger] self.keys()[j], key@),
            decreases high - low,
        {
            let middle: usize = low + (high - low) / 2;
            if self.keys[middle].is_before(key) {
                proof {
                    assert forall|j: int| 0 <= j < middle + 1 implies K::before(
                        #[trigger] self.keys()[j],
                        key@,
                    ) by {
                        if j < middle {
                            K::before_transitive(self.keys()[j], self.keys()[middle as int], key@);
                        }
                    }
                }
                low = middle + 1;
            } else {
                proof {
                    assert forall|j: int| middle <= j < self.keys().len() implies !K::before(
                        #[trigger] self.keys()[j],
                        key@,
                    ) by {
                        if j > middle && K::before(self.keys()[j], key@) {
                            K::before_transitive(self.keys()[middle as int], self.keys()[j], key@);
                        }
                    }
                }
                high = middle;
            }
        }
        low
    }

    /// The place of a key in the order, if the table has it.
    pub fn find(&self, key: &K) -> (r: Option<usize>)
        requires
            self.wf(),
        ensures
            match r {
                Some(i) => i < self.keys().len() && self.keys()[i as int] == key@
                    && self@.dom().contains(key@),
                None => !self@.dom().contains(key@),
            },
    {
        let at: usize = self.rank(key);
        proof {
            self.lemma_view();
        }
        if at < self.keys.len() && !key.is_before(&self.keys[at]) {
            proof {
                K::before_total(self.keys()[at as int], key@);
            }
            Some(at)
        } else {
            proof {
                if self.keys().contains(key@) {
                    let j = self.keys().index_of(key@);
                    K::before_irreflexive(key@);
                    if j > at {
                        assert(K::before(self.keys()[at as int], self.keys()[j]));
                    }
                }
            }
            None
        }
    }

    /// How many keys stand at `key` or before it.
    pub fn count_through(&self, key: &K) -> (r: usize)
        requires
            self.wf(),
        ensures
            r <= self.keys().len(),
            forall|j: int| 0 <= j < r ==> !K::before(key@, #[trigger] self.keys()[j]),
            forall|j: int| r <= j < self.keys().len() ==> K::before(key@, #[trigger] self.keys()[j]),
    {
        let at: usize = self.rank(key);
        let past: usize = if at < self.keys.len() && !key.is_before(&self.keys[at]) {
            at + 1
        } else {
            at
        };
        proof {
            assert forall|j: int| 0 <= j < past implies !K::before(
                key@,
                #[trigger] self.keys()[j],
            ) by {
                if j < at && K::before(key@, self.keys()[j]) {
                    K::before_transitive(key@, self.keys()[j], key@);
                    K::before_irreflexive(key@);
                }
            }
            assert forall|j: int| past <= j < self.keys().len() implies K::before(
                key@,
                #[trigger] self.keys()[j],
            ) by {
                if j > at {
                    K::before_total(self.keys()[at as int], key@);
                    let _ = K::before(self.keys()[at as int], self.keys()[j]);
                    if K::before(key@, self.keys()[at as int]) {
                        K::before_transitive(key@, self.keys()[at as int], self.keys()[j]);
                    }
                }
            }
        }
        past
    }

    /// The row of a key.
    pub fn get(&self, key: &K) -> (r: Option<&V>)
        requires
            self.wf(),
        ensures
            match r {
                Some(row) => self@.dom().contains(key@) && row@ == self@[key@] && row.sound(),
                None => !self@.dom().contains(key@),
            },
    {
        match self.find(key) {
            Some(i) => Some(self.row_at(i)),
            None => None,
        }
    }

    /// Whether the table has a row for the key.
    pub fn contains(&self, key: &K) -> (r: bool)
        requires
            self.wf(),
        ensures
            r == self@.dom().contains(key@),
    {
        self.find(key).is_some()
    }

    /// What a table shows after one of its rows is replaced.
    proof fn lemma_replaced(before: &Self, after: &Self, at: int, row: V)
        requires
            before.wf(),
            0 <= at < before.keys().len(),
            row.sound(),
            after.keys@ == before.keys@,
            after.rows@ == before.rows@.update(at, row),
        ensures
            after.wf(),
            after@ == before@.insert(before.keys()[at], row@),
    {
        before.lemma_view();
        assert(after.keys() =~= before.keys());
        assert(after.rows() =~= before.rows().update(at, row@));
        assert(after.wf());
        after.lemma_view();
        let target = before@.insert(before.keys()[at], row@);
        assert forall|k: K::V| after@.dom().contains(k) implies after@[k] == target[k] by {
            let j = after.keys().index_of(k);
            assert(after.keys()[j] == k);
            if j != at {
                K::before_irreflexive(k);
                assert(before.rows()[j] == after.rows()[j]);
            }
        }
        assert(after@ =~= target);
    }

    /// What a table shows after a row is put in its place.
    proof fn lemma_inserted(before: &Self, after: &Self, at: int, key: K, row: V)
        requires
            before.wf(),
            0 <= at <= before.keys().len(),
            row.sound(),
            forall|j: int| 0 <= j < at ==> K::before(#[trigger] before.keys()[j], key@),
            forall|j: int| at <= j < before.keys().len() ==> K::before(key@, #[trigger] before.keys()[j]),
            after.keys@ == before.keys@.insert(at, key),
            after.rows@ == before.rows@.insert(at, row),
        ensures
            after.wf(),
            after@ == before@.insert(key@, row@),
    {
        before.lemma_view();
        let was = before.keys();
        let now = after.keys();
        assert(now =~= was.insert(at, key@));
        assert(after.rows() =~= before.rows().insert(at, row@));
        assert(ascending::<K>(now)) by {
            assert forall|i: int, j: int| 0 <= i < j < now.len() implies K::before(
                #[trigger] now[i],
                #[trigger] now[j],
            ) by {
                if j == at {
                    assert(now[i] == was[i]);
                } else if i == at {
                    assert(now[j] == was[j - 1]);
                } else {
                    let p = if i < at { i } else { i - 1 };
                    let q = if j < at { j } else { j - 1 };
                    assert(now[i] == was[p] && now[j] == was[q]);
                }
            }
        }
        assert forall|i: int| 0 <= i < after.rows@.len() implies (#[trigger] after.rows@[i]).sound() by {
            if i != at {
                let p = if i < at { i } else { i - 1 };
                assert(after.rows@[i] == before.rows@[p]);
            }
        }
        assert(after.wf());
        after.lemma_view();
        let target = before@.insert(key@, row@);
        assert forall|k: K::V| after@.dom().contains(k) <==> target.dom().contains(k) by {
            if now.contains(k) {
                let j = now.index_of(k);
                if j != at {
                    let p = if j < at { j } else { j - 1 };
                    assert(was[p] == k);
                }
            }
            if was.contains(k) {
                let j = was.index_of(k);
                let q = if j < at { j } else { j + 1 };
                assert(now[q] == k);
            }
            assert(now[at] == key@);
        }
        assert forall|k: K::V| after@.dom().contains(k) implies after@[k] == target[k] by {
            let j = now.index_of(k);
            assert(now[j] == k);
            if j != at {
                let p = if j < at { j } else { j - 1 };
                assert(was[p] == k);
                assert(after.rows()[j] == before.rows()[p]);
                K::before_irreflexive(k);
            }
        }
        assert(after@ =~= target);
    }

    /// Sets the row of a key.
    pub fn insert(&mut self, key: K, row: V)
        requires
            old(self).wf(),
            row.sound(),
        ensures
            final(self).wf(),
            final(self)@ == old(self)@.insert(key@, row@),
    {
        let at: usize = self.rank(&key);
        let ghost before = *self;
        if at < self.keys.len() && !key.is_before(&self.keys[at]) {
            proof {
                K::before_total(self.keys()[at as int], key@);
            }
            self.rows.set(at, row);
            proof {
                Self::lemma_replaced(&before, self, at as int, row);
            }
        } else {
            proof {
                assert forall|j: int| at <= j < self.keys().len() implies K::before(
                    key@,
                    #[trigger] self.keys()[j],
                ) by {
                    if j > at {
                        assert(K::before(self.keys()[at as int], self.keys()[j]));
                        K::before_transitive(key@, self.keys()[at as int], self.keys()[j]);
                    }
                }
            }
            self.keys.insert(at, key);
            self.rows.insert(at, row);
            proof {
                Self::lemma_inserted(&before, self, at as int, key, row);
            }
        }
    }

    /// Removes the row of a key, and says whether there was one.
    pub fn remove(&mut self, key: &K) -> (r: bool)
        requires
            old(self).wf(),
        ensures
            final(self).wf(),
            r == old(self)@.dom().contains(key@),
            final(self)@ == old(self)@.remove(key@),
    {
        let ghost before = *self;
        proof {
            before.lemma_view();
        }
        match self.find(key) {
            Some(at) => {
                self.keys.remove(at);
                self.rows.remove(at);
                proof {
                    assert(self.keys() =~= before.keys().remove(at as int));
                    assert(self.rows() =~= before.rows().remove(at as int));
                    assert(ascending::<K>(self.keys())) by {
                        assert forall|i: int, j: int|
                            0 <= i < j < self.keys().len() implies K::before(
                            #[trigger] self.keys()[i],
                            #[trigger] self.keys()[j],
                        ) by {
                            let p = if i < at { i } else { i + 1 };
                            let q = if j < at { j } else { j + 1 };
                            assert(K::before(before.keys()[p], before.keys()[q]));
                        }
                    }
                    assert(self.wf());
                    self.lemma_view();
                    let target = before@.remove(key@);
                    assert forall|k: K::V| self@.dom().contains(k) <==> target.dom().contains(k) by {
                        if self@.dom().contains(k) {
                            let j = self.keys().index_of(k);
                            let p = if j < at { j } else { j + 1 };
                            assert(before.keys()[p] == k);
                            K::before_irreflexive(k);
                        }
                        if target.dom().contains(k) {
                            let j = before.keys().index_of(k);
                            let p = if j < at { j } else { j - 1 };
                            assert(self.keys()[p] == k);
                        }
                    }
                    assert forall|k: K::V| self@.dom().contains(k) implies self@[k] == target[k] by {
                        let j = self.keys().index_of(k);
                        let p = if j < at { j } else { j + 1 };
                        assert(self.keys()[j] == k);
                        assert(before.keys()[p] == k);
                        assert(self.rows()[j] == before.rows()[p]);
                        assert(target.dom().contains(k));
                    }
                    assert(self@ =~= target);
                }
                true
            },
            None => {
                proof {
                    assert(self@ =~= before@.remove(key@));
                }
                false
            },
        }
    }

    /// A table with the same rows.
    pub fn copy(&self) -> (r: Self)
        requires
            self.wf(),
        ensures
            r.wf(),
            r@ == self@,
    {
        let mut keys: Vec<K> = Vec::new();
        let mut rows: Vec<V> = Vec::new();
        let mut i: usize = 0;
        while i < self.keys.len()
            invariant
                self.wf(),
                i <= self.keys@.len(),
                self.keys@.len() == self.rows@.len(),
                keys@.len() == i,
                rows@.len() == i,
                forall|j: int| 0 <= j < i ==> (#[trigger] keys@[j])@ == self.keys@[j]@,
                forall|j: int|
                    0 <= j < i ==> (#[trigger] rows@[j])@ == self.rows@[j]@ && rows@[j].sound(),
            decreases self.keys@.len() - i,
        {
            keys.push(self.keys[i].copy_key());
            rows.push(self.rows[i].copy_row());
            i = i + 1;
        }
        let r = Table { keys, rows };
        proof {
            assert(r.keys() =~= self.keys());
            assert(r.rows() =~= self.rows());
            assert(r@ =~= self@);
        }
        r
    }
}

/// What became of a row: what it is now, or that it is gone.
pub struct Slot<V> {
    pub row: Option<V>,
}

impl<V: TableRow> View for Slot<V> {
    type V = Option<V::V>;

    open spec fn view(&self) -> Option<V::V> {
        match self.row {
            Some(row) => Some(row@),
            None => None,
        }
    }
}

impl<V: TableRow> TableRow for Slot<V> {
    open spec fn sound(&self) -> bool {
        self.row is Some ==> self.row->0.sound()
    }

    fn copy_row(&self) -> (r: Slot<V>) {
        match &self.row {
            Some(row) => Slot { row: Some(row.copy_row()) },
            None => Slot { row: None },
        }
    }
}

/// The row of a key, if there is one.
pub open spec fn lookup<K, V>(rows: Map<K, V>, key: K) -> Option<V> {
    if rows.dom().contains(key) {
        Some(rows[key])
    } else {
        None
    }
}

/// The rows after some of them changed: each key that changed has its new row, or none.
pub open spec fn overlay<K, V>(rows: Map<K, V>, changed: Map<K, Option<V>>) -> Map<K, V> {
    Map::new(
        |k: K|
            if changed.dom().contains(k) {
                changed[k] is Some
            } else {
                rows.dom().contains(k)
            },
        |k: K|
            if changed.dom().contains(k) {
                changed[k]->0
            } else {
                rows[k]
            },
    )
}

/// A copy of the row of a key, or that there is none.
pub fn slot_of<K: TableKey, V: TableRow>(rows: &Table<K, V>, key: &K) -> (r: Slot<V>)
    requires
        rows.wf(),
    ensures
        r.sound(),
        r@ == lookup(rows@, key@),
{
    match rows.get(key) {
        Some(row) => Slot { row: Some(row.copy_row()) },
        None => Slot { row: None },
    }
}

/// Brings the rows that changed up to date.
pub fn apply_changed<K: TableKey, V: TableRow>(rows: &mut Table<K, V>, changed: &Table<K, Slot<V>>)
    requires
        old(rows).wf(),
        changed.wf(),
    ensures
        final(rows).wf(),
        final(rows)@ == overlay(old(rows)@, changed@),
{
    let ghost before = rows@;
    let ghost keys = changed.keys();
    let mut i: usize = 0;
    proof {
        changed.lemma_view();
        let done = changed@.restrict(keys.subrange(0, 0).to_set());
        assert(rows@ =~= overlay(before, done));
    }
    while i < changed.len()
        invariant
            rows.wf(),
            changed.wf(),
            keys == changed.keys(),
            i <= keys.len(),
            rows@ == overlay(before, changed@.restrict(keys.subrange(0, i as int).to_set())),
        decreases keys.len() - i,
    {
        let key = changed.key_at(i);
        let ghost was = changed@.restrict(keys.subrange(0, i as int).to_set());
        match &changed.row_at(i).row {
            Some(row) => {
                rows.insert(key.copy_key(), row.copy_row());
            },
            None => {
                rows.remove(key);
            },
        }
        i = i + 1;
        proof {
            changed.lemma_view();
            let k0 = keys[i - 1];
            let seen = keys.subrange(0, i - 1).to_set();
            let now = keys.subrange(0, i as int).to_set();
            assert(keys.subrange(0, i as int) =~= keys.subrange(0, i - 1).push(k0));
            assert(now =~= seen.insert(k0)) by {
                assert forall|k: K::V| now.contains(k) <==> seen.insert(k0).contains(k) by {
                    let a = keys.subrange(0, i - 1);
                    let b = keys.subrange(0, i as int);
                    if b.contains(k) {
                        let j = b.index_of(k);
                        if j < i - 1 {
                            assert(a[j] == k);
                        }
                    }
                    if a.contains(k) {
                        let j = a.index_of(k);
                        assert(b[j] == k);
                    }
                    assert(b[i - 1] == k0);
                }
            }
            assert(rows@ =~= overlay(before, changed@.restrict(now)));
        }
    }
    proof {
        changed.lemma_view();
        assert(keys.subrange(0, i as int) =~= keys);
        assert(changed@.restrict(keys.to_set()) =~= changed@);
    }
}

/// Rows that another table keeps in another form.
pub trait Projects<W: TableRow>: TableRow {
    /// The other form of a row.
    spec fn projected(v: Self::V) -> W::V;

    /// The other form of this row.
    fn project(&self) -> (r: W)
        requires
            self.sound(),
        ensures
            r.sound(),
            r@ == Self::projected(self@),
    ;
}

/// Every row in its other form.
pub open spec fn projected_rows<K, V: Projects<W>, W: TableRow>(rows: Map<K, V::V>) -> Map<K, W::V> {
    rows.map_values(|v: V::V| V::projected(v))
}

/// Every changed row in its other form.
pub open spec fn projected_slots<K, V: Projects<W>, W: TableRow>(
    changed: Map<K, Option<V::V>>,
) -> Map<K, Option<W::V>> {
    changed.map_values(
        |slot: Option<V::V>|
            match slot {
                Some(v) => Some(V::projected(v)),
                None => None,
            },
    )
}

impl<V: Projects<W>, W: TableRow> Projects<Slot<W>> for Slot<V> {
    open spec fn projected(slot: Option<V::V>) -> Option<W::V> {
        match slot {
            Some(v) => Some(V::projected(v)),
            None => None,
        }
    }

    fn project(&self) -> (r: Slot<W>) {
        match &self.row {
            Some(row) => Slot { row: Some(row.project()) },
            None => Slot { row: None },
        }
    }
}

/// A table with every row in its other form.
pub fn project_table<K: TableKey, V: Projects<W>, W: TableRow>(table: &Table<K, V>) -> (r: Table<
    K,
    W,
>)
    requires
        table.wf(),
    ensures
        r.wf(),
        r@ == projected_rows::<K::V, V, W>(table@),
{
    let ghost target = projected_rows::<K::V, V, W>(table@);
    let mut r: Table<K, W> = Table::new();
    let mut i: usize = 0;
    while i < table.len()
        invariant
            table.wf(),
            r.wf(),
            target == projected_rows::<K::V, V, W>(table@),
            i <= table.keys().len(),
            forall|k: K::V| #[trigger]
                r@.dom().contains(k) <==> table.keys().subrange(0, i as int).contains(k),
            forall|k: K::V| #[trigger] r@.dom().contains(k) ==> r@[k] == target[k],
        decreases table.keys().len() - i,
    {
        proof {
            table.lemma_view();
            lemma_next_is_new::<K>(table.keys(), i as int);
        }
        r.insert(table.key_at(i).copy_key(), table.row_at(i).project());
        i = i + 1;
    }
    proof {
        table.lemma_view();
        assert(table.keys().subrange(0, i as int) =~= table.keys());
        assert(r@ =~= target);
    }
    r
}

/// A table of changed rows with every row in its other form.
pub fn project_slots<K: TableKey, V: Projects<W>, W: TableRow>(table: &Table<K, Slot<V>>) -> (r:
    Table<K, Slot<W>>)
    requires
        table.wf(),
    ensures
        r.wf(),
        r@ == projected_slots::<K::V, V, W>(table@),
{
    let r = project_table::<K, Slot<V>, Slot<W>>(table);
    proof {
        assert(r@ =~= projected_slots::<K::V, V, W>(table@));
    }
    r
}

/// In an ascending sequence the next key is not among those before it.
pub proof fn lemma_next_is_new<K: TableKey>(keys: Seq<K::V>, i: int)
    requires
        ascending::<K>(keys),
        0 <= i < keys.len(),
    ensures
        !keys.subrange(0, i).contains(keys[i]),
        forall|k: K::V| #[trigger]
            keys.subrange(0, i + 1).contains(k) <==> keys.subrange(0, i).contains(k) || k
                == keys[i],
{
    let was = keys.subrange(0, i);
    let now = keys.subrange(0, i + 1);
    if was.contains(keys[i]) {
        let j = was.index_of(keys[i]);
        assert(K::before(keys[j], keys[i]));
        K::before_irreflexive(keys[i]);
    }
    assert forall|k: K::V| #[trigger] now.contains(k) <==> was.contains(k) || k == keys[i] by {
        if now.contains(k) {
            let j = now.index_of(k);
            if j < i {
                assert(was[j] == k);
            }
        }
        if was.contains(k) {
            let j = was.index_of(k);
            assert(now[j] == k);
        }
        assert(now[i] == keys[i]);
    }
}

} // verus!
