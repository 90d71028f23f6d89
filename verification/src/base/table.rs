//! An association table keyed by content.

use vstd::prelude::*;

use crate::base::keys;
use crate::base::keys::{Dup, Key};

verus! {

/// One row of a table.
pub struct Row<K, V> {
    pub key: K,
    pub value: V,
}

/// A finite map from keys to values; no key occurs in two rows.
pub struct Table<K: Key, V: View> {
    rows: Vec<Row<K, V>>,
}

spec fn unique_keys<K: Key, V: View>(rows: Seq<Row<K, V>>) -> bool {
    forall|i: int, j: int|
        0 <= i < rows.len() && 0 <= j < rows.len() && i != j ==> (#[trigger] rows[i]).key@ != (
        #[trigger] rows[j]).key@
}

spec fn row_of<K: Key, V: View>(rows: Seq<Row<K, V>>, k: K::V) -> int {
    choose|i: int| 0 <= i < rows.len() && (#[trigger] rows[i]).key@ == k
}

spec fn has_row<K: Key, V: View>(rows: Seq<Row<K, V>>, k: K::V) -> bool {
    exists|i: int| 0 <= i < rows.len() && (#[trigger] rows[i]).key@ == k
}

spec fn rows_map<K: Key, V: View>(rows: Seq<Row<K, V>>) -> Map<K::V, V::V> {
    Map::new(|k: K::V| has_row(rows, k), |k: K::V| rows[row_of(rows, k)].value@)
}

proof fn lemma_row<K: Key, V: View>(rows: Seq<Row<K, V>>, i: int)
    requires
        unique_keys(rows),
        0 <= i < rows.len(),
    ensures
        rows_map(rows).contains_key(rows[i].key@),
        rows_map(rows)[rows[i].key@] == rows[i].value@,
        row_of(rows, rows[i].key@) == i,
{
    let k = rows[i].key@;
    assert(has_row(rows, k));
    let j = row_of(rows, k);
    assert(0 <= j < rows.len() && rows[j].key@ == k);
}

proof fn lemma_push<K: Key, V: View>(rows: Seq<Row<K, V>>, row: Row<K, V>)
    requires
        unique_keys(rows),
        !has_row(rows, row.key@),
    ensures
        unique_keys(rows.push(row)),
        rows_map(rows.push(row)) == rows_map(rows).insert(row.key@, row.value@),
{
    let next = rows.push(row);
    assert forall|i: int, j: int| 0 <= i < next.len() && 0 <= j < next.len() && i != j implies (
    #[trigger] next[i]).key@ != (#[trigger] next[j]).key@ by {
        if i < rows.len() && j < rows.len() {
            assert(rows[i].key@ != rows[j].key@);
        } else if i < rows.len() {
            assert(rows[i].key@ != row.key@);
        } else {
            assert(rows[j].key@ != row.key@);
        }
    }
    assert forall|k: K::V| rows_map(next).contains_key(k) == rows_map(rows).insert(
        row.key@,
        row.value@,
    ).contains_key(k) by {
        if has_row(rows, k) {
            let i = row_of(rows, k);
            assert(next[i].key@ == k);
        }
        assert(next[rows.len() as int].key@ == row.key@);
        if has_row(next, k) && k != row.key@ {
            let i = row_of(next, k);
            assert(rows[i].key@ == k);
        }
    }
    assert forall|k: K::V| rows_map(next).contains_key(k) implies rows_map(next)[k] == rows_map(
        rows,
    ).insert(row.key@, row.value@)[k] by {
        let i = row_of(next, k);
        lemma_row(next, i);
        if i < rows.len() {
            lemma_row(rows, i);
        }
    }
    assert(rows_map(next) =~= rows_map(rows).insert(row.key@, row.value@));
}

proof fn lemma_update<K: Key, V: View>(rows: Seq<Row<K, V>>, i: int, row: Row<K, V>)
    requires
        unique_keys(rows),
        0 <= i < rows.len(),
        rows[i].key@ == row.key@,
    ensures
        unique_keys(rows.update(i, row)),
        rows_map(rows.update(i, row)) == rows_map(rows).insert(row.key@, row.value@),
{
    let next = rows.update(i, row);
    assert forall|a: int, b: int| 0 <= a < next.len() && 0 <= b < next.len() && a != b implies (
    #[trigger] next[a]).key@ != (#[trigger] next[b]).key@ by {
        assert(rows[a].key@ != rows[b].key@);
    }
    assert forall|k: K::V| rows_map(next).contains_key(k) == rows_map(rows).insert(
        row.key@,
        row.value@,
    ).contains_key(k) by {
        if has_row(rows, k) {
            let j = row_of(rows, k);
            assert(next[j].key@ == k);
        }
        assert(next[i].key@ == row.key@);
        if has_row(next, k) {
            let j = row_of(next, k);
            assert(rows[j].key@ == k);
        }
    }
    assert forall|k: K::V| rows_map(next).contains_key(k) implies rows_map(next)[k] == rows_map(
        rows,
    ).insert(row.key@, row.value@)[k] by {
        let j = row_of(next, k);
        lemma_row(next, j);
        lemma_row(rows, j);
    }
    assert(rows_map(next) =~= rows_map(rows).insert(row.key@, row.value@));
}

proof fn lemma_remove<K: Key, V: View>(rows: Seq<Row<K, V>>, i: int)
    requires
        unique_keys(rows),
        0 <= i < rows.len(),
    ensures
        unique_keys(rows.remove(i)),
        rows_map(rows.remove(i)) == rows_map(rows).remove(rows[i].key@),
{
    let next = rows.remove(i);
    let old_index = |j: int| if j < i { j } else { j + 1 };
    assert forall|a: int, b: int| 0 <= a < next.len() && 0 <= b < next.len() && a != b implies (
    #[trigger] next[a]).key@ != (#[trigger] next[b]).key@ by {
        assert(rows[old_index(a)].key@ != rows[old_index(b)].key@);
    }
    assert forall|k: K::V| rows_map(next).contains_key(k) == rows_map(rows).remove(
        rows[i].key@,
    ).contains_key(k) by {
        if has_row(rows, k) && k != rows[i].key@ {
            let j = row_of(rows, k);
            let m = if j < i { j } else { j - 1 };
            assert(next[m] == rows[j]);
        }
        if has_row(next, k) {
            let j = row_of(next, k);
            assert(rows[old_index(j)].key@ == k);
        }
    }
    assert forall|k: K::V| rows_map(next).contains_key(k) implies rows_map(next)[k] == rows_map(
        rows,
    ).remove(rows[i].key@)[k] by {
        let j = row_of(next, k);
        lemma_row(next, j);
        lemma_row(rows, old_index(j));
    }
    assert(rows_map(next) =~= rows_map(rows).remove(rows[i].key@));
}

spec fn row_keys<K: Key, V: View>(rows: Seq<Row<K, V>>) -> Seq<K::V> {
    rows.map_values(|r: Row<K, V>| r.key@)
}

proof fn lemma_size<K: Key, V: View>(rows: Seq<Row<K, V>>)
    requires
        unique_keys(rows),
    ensures
        rows_map(rows).dom().finite(),
        rows_map(rows).len() == rows.len(),
        row_keys(rows).no_duplicates(),
        row_keys(rows).to_set() == rows_map(rows).dom(),
{
    let keys = row_keys(rows);
    assert forall|i: int, j: int|
        0 <= i < keys.len() && 0 <= j < keys.len() && i != j implies keys[i] != keys[j] by {
        assert(rows[i].key@ != rows[j].key@);
    }
    keys.unique_seq_to_set();
    vstd::seq_lib::seq_to_set_is_finite(keys);
    assert forall|k: K::V| keys.to_set().contains(k) == rows_map(rows).dom().contains(k) by {
        if keys.to_set().contains(k) {
            let i = choose|i: int| 0 <= i < keys.len() && keys[i] == k;
            assert(rows[i].key@ == k);
        }
        if has_row(rows, k) {
            let i = row_of(rows, k);
            assert(keys[i] == k);
        }
    }
    assert(keys.to_set() =~= rows_map(rows).dom());
}

impl<K: Key, V: View> View for Table<K, V> {
    type V = Map<K::V, V::V>;

    closed spec fn view(&self) -> Map<K::V, V::V> {
        rows_map(self.rows@)
    }
}

impl<K: Key, V: View> Table<K, V> {
    #[verifier::type_invariant]
    spec fn inv(self) -> bool {
        unique_keys(self.rows@)
    }

    /// The keys in row order.
    pub closed spec fn order(&self) -> Seq<K::V> {
        row_keys(self.rows@)
    }

    /// A table has finitely many keys.
    pub proof fn has_finite_keys(self)
        ensures
            self@.dom().finite(),
    {
        let keys = row_keys(self.rows@);
        vstd::seq_lib::seq_to_set_is_finite(keys);
        assert(self@.dom().subset_of(keys.to_set())) by {
            assert forall|k: K::V| self@.dom().contains(k) implies keys.to_set().contains(k) by {
                assert(keys[row_of(self.rows@, k)] == k);
            }
        }
        vstd::set_lib::lemma_set_subset_finite(keys.to_set(), self@.dom());
    }

    /// What is stored under a key.
    pub proof fn stored_at(self, k: K::V) -> (v: V)
        requires
            self@.contains_key(k),
        ensures
            v@ == self@[k],
    {
        self.rows@[row_of(self.rows@, k)].value
    }

    /// A table without rows.
    pub fn new() -> (table: Self)
        ensures
            table@ == Map::<K::V, V::V>::empty(),
    {
        let table = Table { rows: Vec::new() };
        assert(table@ =~= Map::<K::V, V::V>::empty());
        table
    }

    /// The number of rows.
    pub fn len(&self) -> (n: usize)
        ensures
            n == self@.len(),
            self@.dom().finite(),
            self.order().len() == n,
            self.order().no_duplicates(),
            self.order().to_set() == self@.dom(),
    {
        proof {
            use_type_invariant(self);
            lemma_size(self.rows@);
        }
        self.rows.len()
    }

    /// The row that holds the key, if any.
    fn find(&self, key: &K) -> (found: Option<usize>)
        ensures
            match found {
                Some(i) => i < self.rows.len() && self.rows@[i as int].key@ == key@,
                None => !has_row(self.rows@, key@),
            },
    {
        let mut i: usize = 0;
        while i < self.rows.len()
            invariant
                i <= self.rows.len(),
                forall|j: int| 0 <= j < i ==> (#[trigger] self.rows@[j]).key@ != key@,
            decreases self.rows.len() - i,
        {
            if self.rows[i].key.same(key) {
                return Some(i);
            }
            i += 1;
        }
        None
    }

    /// Tells whether the key has a row.
    pub fn contains_key(&self, key: &K) -> (found: bool)
        ensures
            found == self@.contains_key(key@),
    {
        self.find(key).is_some()
    }

    /// The value of the key, if any.
    pub fn get(&self, key: &K) -> (value: Option<&V>)
        ensures
            match value {
                Some(v) => self@.contains_key(key@) && v@ == self@[key@],
                None => !self@.contains_key(key@),
            },
    {
        match self.find(key) {
            Some(i) => {
                proof {
                    use_type_invariant(self);
                    lemma_row(self.rows@, i as int);
                }
                Some(&self.rows[i].value)
            },
            None => None,
        }
    }

    /// Sets the value of the key and returns the one that it had.
    pub fn insert(&mut self, key: K, value: V) -> (prior: Option<V>)
        ensures
            final(self)@ == old(self)@.insert(key@, value@),
            match prior {
                Some(v) => old(self)@.contains_key(key@) && v@ == old(self)@[key@],
                None => !old(self)@.contains_key(key@),
            },
    {
        proof {
            use_type_invariant(&*self);
        }
        let at = self.find(&key);
        let mut rows: Vec<Row<K, V>> = Vec::new();
        std::mem::swap(&mut rows, &mut self.rows);
        match at {
            Some(i) => {
                proof {
                    lemma_row(rows@, i as int);
                }
                let ghost before = rows@;
                let mut row = Row { key, value };
                proof {
                    lemma_update(before, i as int, row);
                }
                let ghost set = row;
                std::mem::swap(&mut row, &mut rows[i]);
                assert(rows@ =~= before.update(i as int, set));
                self.rows = rows;
                Some(row.value)
            },
            None => {
                let row = Row { key, value };
                proof {
                    lemma_push(rows@, row);
                }
                rows.push(row);
                self.rows = rows;
                None
            },
        }
    }

    /// Removes the key and returns the value that it had.
    pub fn remove(&mut self, key: &K) -> (prior: Option<V>)
        ensures
            final(self)@ == old(self)@.remove(key@),
            match prior {
                Some(v) => old(self)@.contains_key(key@) && v@ == old(self)@[key@],
                None => !old(self)@.contains_key(key@),
            },
    {
        proof {
            use_type_invariant(&*self);
        }
        match self.find(key) {
            Some(i) => {
                let mut rows: Vec<Row<K, V>> = Vec::new();
                std::mem::swap(&mut rows, &mut self.rows);
                proof {
                    lemma_row(rows@, i as int);
                    lemma_remove(rows@, i as int);
                }
                let row = rows.remove(i);
                self.rows = rows;
                Some(row.value)
            },
            None => {
                assert(self@.remove(key@) =~= self@);
                None
            },
        }
    }

    /// The `i`-th key and its value, in row order.
    pub fn at(&self, i: usize) -> (row: (&K, &V))
        requires
            i < self.order().len(),
        ensures
            row.0@ == self.order()[i as int],
            self@.contains_key(row.0@),
            row.1@ == self@[row.0@],
    {
        proof {
            use_type_invariant(self);
            lemma_row(self.rows@, i as int);
        }
        (&self.rows[i].key, &self.rows[i].value)
    }

    /// Every key, once.
    pub fn keys(&self) -> (keys: Vec<K>)
        ensures
            keys::views(keys@) == self.order(),
            keys::views(keys@).no_duplicates(),
            keys::views(keys@).to_set() == self@.dom(),
    {
        let mut keys: Vec<K> = Vec::with_capacity(self.rows.len());
        let mut i: usize = 0;
        while i < self.rows.len()
            invariant
                i <= self.rows.len(),
                keys::views(keys@) == row_keys(self.rows@).take(i as int),
            decreases self.rows.len() - i,
        {
            let ghost before = keys@;
            keys.push(self.rows[i].key.dup());
            assert(keys::views(keys@) =~= keys::views(before).push(self.rows@[i as int].key@));
            assert(row_keys(self.rows@).take(i + 1) =~= row_keys(self.rows@).take(i as int).push(
                self.rows@[i as int].key@,
            ));
            i += 1;
        }
        proof {
            use_type_invariant(self);
            lemma_size(self.rows@);
            assert(row_keys(self.rows@).take(i as int) =~= row_keys(self.rows@));
        }
        keys
    }
}

impl<K: Key, V: Dup> Dup for Table<K, V> {
    fn dup(&self) -> (copy: Self) {
        let mut rows: Vec<Row<K, V>> = Vec::with_capacity(self.rows.len());
        let mut i: usize = 0;
        while i < self.rows.len()
            invariant
                i <= self.rows.len(),
                rows@.len() == i,
                forall|j: int|
                    0 <= j < i ==> (#[trigger] rows@[j]).key@ == self.rows@[j].key@
                        && rows@[j].value@ == self.rows@[j].value@,
            decreases self.rows.len() - i,
        {
            rows.push(Row { key: self.rows[i].key.dup(), value: self.rows[i].value.dup() });
            i += 1;
        }
        proof {
            use_type_invariant(self);
            lemma_same_rows(self.rows@, rows@);
        }
        Table { rows }
    }
}

proof fn lemma_same_rows<K: Key, V: View>(a: Seq<Row<K, V>>, b: Seq<Row<K, V>>)
    requires
        unique_keys(a),
        a.len() == b.len(),
        forall|j: int|
            0 <= j < a.len() ==> (#[trigger] b[j]).key@ == a[j].key@ && b[j].value@ == a[j].value@,
    ensures
        unique_keys(b),
        rows_map(b) == rows_map(a),
{
    assert forall|i: int, j: int| 0 <= i < b.len() && 0 <= j < b.len() && i != j implies (
    #[trigger] b[i]).key@ != (#[trigger] b[j]).key@ by {
        assert(a[i].key@ != a[j].key@);
    }
    assert forall|k: K::V| rows_map(b).contains_key(k) == rows_map(a).contains_key(k) by {
        if has_row(a, k) {
            let i = row_of(a, k);
            assert(b[i].key@ == k);
        }
        if has_row(b, k) {
            let i = row_of(b, k);
            assert(a[i].key@ == k);
        }
    }
    assert forall|k: K::V| rows_map(b).contains_key(k) implies rows_map(b)[k] == rows_map(
        a,
    )[k] by {
        let i = row_of(b, k);
        lemma_row(b, i);
        lemma_row(a, i);
    }
    assert(rows_map(b) =~= rows_map(a));
}

} // verus!
