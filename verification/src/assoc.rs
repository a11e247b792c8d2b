//! A map kept as a row of entries in the order of their keys, so that equal
//! maps are stored, and written out, in one way only.

use vstd::prelude::*;
use crate::order::SortKey;
use crate::wire::{models, Wire};

verus! {

/// Some entry of `m` has the key `k`.
pub open spec fn has_key<A, B>(m: Seq<(A, B)>, k: A) -> bool {
    exists|i: int| 0 <= i < m.len() && (#[trigger] m[i]).0 == k
}

/// The place of an entry with the key `k`.
pub open spec fn index_of<A, B>(m: Seq<(A, B)>, k: A) -> int {
    choose|i: int| 0 <= i < m.len() && (#[trigger] m[i]).0 == k
}

/// The map that a row of entries stands for.
pub open spec fn as_map<A, B>(m: Seq<(A, B)>) -> Map<A, B> {
    Map::new(|k: A| has_key(m, k), |k: A| m[index_of(m, k)].1)
}

/// No key occurs twice.
pub open spec fn distinct_keys<A, B>(m: Seq<(A, B)>) -> bool {
    forall|i: int, j: int| 0 <= i < j < m.len() ==> (#[trigger] m[i]).0 != (#[trigger] m[j]).0
}

/// Each key comes before all the keys after it.
pub open spec fn sorted<K: SortKey, B>(m: Seq<(K::Model, B)>) -> bool {
    forall|i: int, j: int|
        0 <= i < j < m.len() ==> K::precedes((#[trigger] m[i]).0, (#[trigger] m[j]).0)
}

/// Keys in strict order are distinct.
pub proof fn lemma_sorted_distinct<K: SortKey, B>(m: Seq<(K::Model, B)>)
    requires
        sorted::<K, B>(m),
    ensures
        distinct_keys(m),
{
    assert forall|i: int, j: int| 0 <= i < j < m.len() implies (#[trigger] m[i]).0 != (
    #[trigger] m[j]).0 by {
        K::lemma_irreflexive(m[i].0);
    }
}

/// Among distinct keys, a key is found where it stands.
pub proof fn lemma_index_of<A, B>(m: Seq<(A, B)>, i: int)
    requires
        distinct_keys(m),
        0 <= i < m.len(),
    ensures
        has_key(m, m[i].0),
        index_of(m, m[i].0) == i,
        as_map(m).contains_key(m[i].0),
        as_map(m)[m[i].0] == m[i].1,
{
    let j = index_of(m, m[i].0);
    assert(m[j].0 == m[i].0);
    if j < i {
        assert(m[j].0 != m[i].0);
    } else if i < j {
        assert(m[i].0 != m[j].0);
    }
}

/// Putting in an entry with a new key adds it to the map.
pub proof fn lemma_insert_entry<A, B>(m: Seq<(A, B)>, i: int, k: A, v: B)
    requires
        distinct_keys(m),
        !has_key(m, k),
        0 <= i <= m.len(),
    ensures
        distinct_keys(m.insert(i, (k, v))),
        as_map(m.insert(i, (k, v))) == as_map(m).insert(k, v),
{
    let m2 = m.insert(i, (k, v));
    assert forall|a: int, b: int| 0 <= a < b < m2.len() implies (#[trigger] m2[a]).0 != (
    #[trigger] m2[b]).0 by {
        let a0 = if a < i { a } else { a - 1 };
        let b0 = if b < i { b } else { b - 1 };
        if a == i {
            assert(m2[b] == m[b0]);
        } else if b == i {
            assert(m2[a] == m[a0]);
        } else {
            assert(m2[a] == m[a0] && m2[b] == m[b0]);
        }
    }
    assert forall|x: A| has_key(m2, x) <==> (x == k || has_key(m, x)) by {
        if has_key(m2, x) {
            let j = index_of(m2, x);
            if j != i {
                let j0 = if j < i { j } else { j - 1 };
                assert(m[j0].0 == x);
            }
        }
        if x == k {
            assert(m2[i].0 == k);
        }
        if has_key(m, x) {
            let j = index_of(m, x);
            let j2 = if j < i { j } else { j + 1 };
            assert(m2[j2].0 == x);
        }
    }
    assert forall|x: A| has_key(m2, x) implies #[trigger] as_map(m2)[x] == as_map(m).insert(
        k,
        v,
    )[x] by {
        if x == k {
            lemma_index_of(m2, i);
        } else {
            let j = index_of(m, x);
            let j2 = if j < i { j } else { j + 1 };
            assert(m2[j2] == m[j]);
            lemma_index_of(m, j);
            lemma_index_of(m2, j2);
        }
    }
    assert(as_map(m2) =~= as_map(m).insert(k, v));
}

/// Taking out an entry removes its key from the map.
pub proof fn lemma_remove_entry<A, B>(m: Seq<(A, B)>, i: int)
    requires
        distinct_keys(m),
        0 <= i < m.len(),
    ensures
        distinct_keys(m.remove(i)),
        !has_key(m.remove(i), m[i].0),
        as_map(m.remove(i)) == as_map(m).remove(m[i].0),
{
    let m2 = m.remove(i);
    let k = m[i].0;
    assert forall|a: int| 0 <= a < m2.len() implies #[trigger] m2[a] == m[if a < i {
        a
    } else {
        a + 1
    }] by {}
    assert forall|a: int, b: int| 0 <= a < b < m2.len() implies (#[trigger] m2[a]).0 != (
    #[trigger] m2[b]).0 by {
        let a0 = if a < i { a } else { a + 1 };
        let b0 = if b < i { b } else { b + 1 };
        assert(m2[a] == m[a0] && m2[b] == m[b0]);
    }
    assert forall|x: A| has_key(m2, x) <==> (x != k && has_key(m, x)) by {
        if has_key(m2, x) {
            let j = index_of(m2, x);
            let j0 = if j < i { j } else { j + 1 };
            assert(m2[j] == m[j0]);
            assert(m[j0].0 == x);
            if j0 < i {
                assert(m[j0].0 != m[i].0);
            } else {
                assert(m[i].0 != m[j0].0);
            }
        }
        if x != k && has_key(m, x) {
            let j = index_of(m, x);
            let j2 = if j < i { j } else { j - 1 };
            assert(m2[j2] == m[j]);
        }
    }
    assert forall|x: A| has_key(m2, x) implies #[trigger] as_map(m2)[x] == as_map(m)[x] by {
        let j = index_of(m2, x);
        let j0 = if j < i { j } else { j + 1 };
        assert(m2[j] == m[j0]);
        lemma_index_of(m, j0);
        lemma_index_of(m2, j);
    }
    assert(as_map(m2) =~= as_map(m).remove(k));
}

/// Rows in the order of their keys are determined by the map that they
/// stand for: one map is stored in one way only.
pub proof fn lemma_rows_determined<K: SortKey, B>(m1: Seq<(K::Model, B)>, m2: Seq<(K::Model, B)>)
    requires
        sorted::<K, B>(m1),
        sorted::<K, B>(m2),
        as_map(m1) == as_map(m2),
    ensures
        m1 == m2,
    decreases m1.len(),
{
    lemma_sorted_distinct::<K, B>(m1);
    lemma_sorted_distinct::<K, B>(m2);
    if m1.len() == 0 {
        if m2.len() > 0 {
            lemma_index_of(m2, 0);
            assert(as_map(m1).contains_key(m2[0].0));
            assert(has_key(m1, m2[0].0));
        }
        assert(m1 =~= m2);
    } else {
        let n1 = m1.len() - 1;
        let k = m1[n1].0;
        lemma_index_of(m1, n1);
        assert(as_map(m2).contains_key(k));
        assert(has_key(m2, k));
        let j = index_of(m2, k);
        lemma_index_of(m2, j);
        let n2 = m2.len() - 1;
        if j < n2 {
            let k2 = m2[n2].0;
            assert(K::precedes(m2[j].0, m2[n2].0));
            lemma_index_of(m2, n2);
            assert(as_map(m1).contains_key(k2));
            assert(has_key(m1, k2));
            let i = index_of(m1, k2);
            if i < n1 {
                assert(K::precedes(m1[i].0, m1[n1].0));
                K::lemma_transitive(k, k2, k);
            }
            K::lemma_irreflexive(k);
        }
        assert(m1[n1] == m2[n2]);
        lemma_remove_entry(m1, n1);
        lemma_remove_entry(m2, n2);
        assert(m1.remove(n1) =~= m1.drop_last());
        assert(m2.remove(n2) =~= m2.drop_last());
        lemma_rows_determined::<K, B>(m1.drop_last(), m2.drop_last());
        assert(m1 =~= m1.drop_last().push(m1[n1]));
        assert(m2 =~= m2.drop_last().push(m2[n2]));
    }
}

/// A map from keys to values, stored in the order of the keys.
#[derive(Clone, Debug)]
pub struct Assoc<K: SortKey, V: Wire> {
    entries: Vec<(K, V)>,
}

impl<K: SortKey, V: Wire> Wire for Assoc<K, V> {
    type Model = Seq<(K::Model, V::Model)>;

    closed spec fn model(&self) -> Seq<(K::Model, V::Model)> {
        models(self.entries@)
    }

    /// Entries that can be stored, in the strict order of their keys.
    open spec fn valid(m: Seq<(K::Model, V::Model)>) -> bool {
        &&& Vec::<(K, V)>::valid(m)
        &&& sorted::<K, V::Model>(m)
    }

    /// How many entries there are, then each key with its value.
    open spec fn image(m: Seq<(K::Model, V::Model)>) -> Seq<u8> {
        Vec::<(K, V)>::image(m)
    }

    open spec fn parse(s: Seq<u8>, at: int) -> Option<(Seq<(K::Model, V::Model)>, int)> {
        match Vec::<(K, V)>::parse(s, at) {
            Some((m, end)) => if sorted::<K, V::Model>(m) {
                Some((m, end))
            } else {
                None
            },
            None => None,
        }
    }

    proof fn lemma_parse_image(m: Seq<(K::Model, V::Model)>, s: Seq<u8>, at: int) {
        Vec::<(K, V)>::lemma_parse_image(m, s, at);
    }

    proof fn lemma_image_parse(s: Seq<u8>, at: int) {
        Vec::<(K, V)>::lemma_image_parse(s, at);
    }

    fn write(&self, out: &mut Vec<u8>) {
        self.entries.write(out);
    }

    fn read(bytes: &[u8], at: usize) -> (r: Option<(Self, usize)>) {
        match Vec::<(K, V)>::read(bytes, at) {
            Some((entries, end)) => {
                let ghost m = models(entries@);
                let mut i: usize = 1;
                while i < entries.len()
                    invariant
                        1 <= i,
                        m == models(entries@),
                        at <= end <= bytes@.len(),
                        Vec::<(K, V)>::parse(bytes@, at as int) == Some((m, end as int)),
                        Vec::<(K, V)>::valid(m),
                        forall|a: int, b: int|
                            0 <= a < b < i && b < m.len() ==> K::precedes(
                                (#[trigger] m[a]).0,
                                (#[trigger] m[b]).0,
                            ),
                    decreases entries.len() - i,
                {
                    assert(m[i - 1] == entries@[i - 1].model());
                    assert(m[i as int] == entries@[i as int].model());
                    if !entries[i - 1].0.before(&entries[i].0) {
                        assert(!sorted::<K, V::Model>(m));
                        return None;
                    }
                    proof {
                        assert forall|a: int, b: int| 0 <= a < b < i + 1 && b < m.len() implies K::precedes(
                            (#[trigger] m[a]).0,
                            (#[trigger] m[b]).0,
                        ) by {
                            if b == i && a < i - 1 {
                                K::lemma_transitive(m[a].0, m[i - 1].0, m[i as int].0);
                            }
                        }
                    }
                    i += 1;
                }
                Some((Assoc { entries }, end))
            },
            None => None,
        }
    }
}

impl<K: SortKey, V: Wire> Assoc<K, V> {
    /// The entries are in the strict order of their keys, and each can be stored.
    pub open spec fn wf(&self) -> bool {
        Self::valid(self.model())
    }

    /// The map that the entries stand for.
    pub open spec fn map(&self) -> Map<K::Model, V::Model> {
        as_map(self.model())
    }

    /// The empty map.
    pub fn new() -> (r: Self)
        ensures
            r.wf(),
            r.model() == Seq::<(K::Model, V::Model)>::empty(),
            r.map() == Map::<K::Model, V::Model>::empty(),
    {
        let r = Assoc { entries: Vec::new() };
        assert(r.model() =~= Seq::empty());
        assert(r.map() =~= Map::empty());
        r
    }

    /// The number of entries.
    pub fn len(&self) -> (n: usize)
        ensures
            n == self.model().len(),
    {
        self.entries.len()
    }

    /// The key of the entry at `i`, counted in the order of the keys.
    pub fn key_at(&self, i: usize) -> (key: &K)
        requires
            i < self.model().len(),
        ensures
            key.model() == self.model()[i as int].0,
    {
        &self.entries[i].0
    }

    /// The value of the entry at `i`, counted in the order of the keys.
    pub fn value_at(&self, i: usize) -> (value: &V)
        requires
            i < self.model().len(),
        ensures
            value.model() == self.model()[i as int].1,
    {
        &self.entries[i].1
    }

    /// Where `key` stands, or where it would have to: found by halving.
    fn locate(&self, key: &K) -> (r: (bool, usize))
        requires
            self.wf(),
        ensures
            r.1 <= self.model().len(),
            r.0 ==> r.1 < self.model().len() && self.model()[r.1 as int].0 == key.model(),
            r.0 == has_key(self.model(), key.model()),
            forall|j: int| 0 <= j < r.1 ==> K::precedes((#[trigger] self.model()[j]).0, key.model()),
            !r.0 ==> forall|j: int|
                r.1 <= j < self.model().len() ==> K::precedes(
                    key.model(),
                    (#[trigger] self.model()[j]).0,
                ),
    {
        let ghost m = self.model();
        let ghost k = key.model();
        let mut lo: usize = 0;
        let mut hi: usize = self.entries.len();
        while lo < hi
            invariant
                lo <= hi <= m.len(),
                m == self.model(),
                k == key.model(),
                sorted::<K, V::Model>(m),
                forall|j: int| 0 <= j < lo ==> K::precedes((#[trigger] m[j]).0, k),
                forall|j: int| hi <= j < m.len() ==> K::precedes(k, (#[trigger] m[j]).0),
            decreases hi - lo,
        {
            let mid = lo + (hi - lo) / 2;
            assert(m[mid as int] == self.entries@[mid as int].model());
            if self.entries[mid].0.before(key) {
                proof {
                    assert forall|j: int| 0 <= j < mid + 1 implies K::precedes(
                        (#[trigger] m[j]).0,
                        k,
                    ) by {
                        if j < mid {
                            K::lemma_transitive(m[j].0, m[mid as int].0, k);
                        }
                    }
                }
                lo = mid + 1;
            } else if self.entries[mid].0.same(key) {
                return (true, mid);
            } else {
                proof {
                    K::lemma_connected(m[mid as int].0, k);
                    assert forall|j: int| mid <= j < m.len() implies K::precedes(
                        k,
                        (#[trigger] m[j]).0,
                    ) by {
                        if j > mid {
                            K::lemma_transitive(k, m[mid as int].0, m[j].0);
                        }
                    }
                }
                hi = mid;
            }
        }
        proof {
            assert forall|j: int| 0 <= j < m.len() implies (#[trigger] m[j]).0 != k by {
                K::lemma_irreflexive(k);
            }
        }
        (false, lo)
    }

    /// Whether the map has an entry for `key`.
    pub fn contains_key(&self, key: &K) -> (r: bool)
        requires
            self.wf(),
        ensures
            r == self.map().contains_key(key.model()),
    {
        self.locate(key).0
    }

    /// The value that the map has for `key`.
    pub fn get(&self, key: &K) -> (r: Option<&V>)
        requires
            self.wf(),
        ensures
            match r {
                Some(v) => self.map().contains_key(key.model()) && self.map()[key.model()]
                    == v.model() && V::valid(v.model()),
                None => !self.map().contains_key(key.model()),
            },
    {
        let (found, i) = self.locate(key);
        if found {
            proof {
                lemma_sorted_distinct::<K, V::Model>(self.model());
                lemma_index_of(self.model(), i as int);
            }
            Some(&self.entries[i].1)
        } else {
            None
        }
    }

    /// Sets the value for `key`, in place of the one that was there, if any.
    pub fn insert(&mut self, key: K, value: V)
        requires
            old(self).wf(),
            K::valid(key.model()),
            V::valid(value.model()),
        ensures
            final(self).wf(),
            final(self).map() == old(self).map().insert(key.model(), value.model()),
    {
        let ghost m0 = self.model();
        let ghost k = key.model();
        let ghost v = value.model();
        proof {
            lemma_sorted_distinct::<K, V::Model>(m0);
        }
        let (found, i) = self.locate(&key);
        if found {
            let gone = self.entries.remove(i);
            proof {
                lemma_remove_entry(m0, i as int);
            }
        }
        let ghost m1 = self.model();
        assert(m1 =~= if found { m0.remove(i as int) } else { m0 });
        self.entries.insert(i, (key, value));
        let ghost m2 = self.model();
        assert(m2 =~= m1.insert(i as int, (k, v)));
        let n = self.entries.len();
        proof {
            lemma_insert_entry(m1, i as int, k, v);
            assert(as_map(m1).insert(k, v) =~= as_map(m0).insert(k, v));
            assert forall|a: int, b: int| 0 <= a < b < m2.len() implies K::precedes(
                (#[trigger] m2[a]).0,
                (#[trigger] m2[b]).0,
            ) by {
                let a1 = if a < i { a } else { a - 1 };
                let b1 = if b < i { b } else { b - 1 };
                let a0 = if found && a1 >= i { a1 + 1 } else { a1 };
                let b0 = if found && b1 >= i { b1 + 1 } else { b1 };
                if a != i {
                    assert(m2[a] == m0[a0]);
                }
                if b != i {
                    assert(m2[b] == m0[b0]);
                }
                if a == i {
                    assert(K::precedes(k, m0[b0].0));
                } else if b == i {
                    assert(K::precedes(m0[a0].0, k));
                } else {
                    assert(K::precedes(m0[a0].0, m0[b0].0));
                }
            }
            assert forall|a: int| 0 <= a < m2.len() implies <(K, V) as Wire>::valid(
                #[trigger] m2[a],
            ) by {
                let a1 = if a < i { a } else { a - 1 };
                let a0 = if found && a1 >= i { a1 + 1 } else { a1 };
                if a != i {
                    assert(m2[a] == m0[a0]);
                    assert(<(K, V) as Wire>::valid(m0[a0]));
                } else {
                    assert(m2[a] == (k, v));
                }
            }
            assert(m2.len() == n);
        }
    }

    /// Takes the entry for `key` out of the map and gives its value.
    pub fn remove(&mut self, key: &K) -> (r: Option<V>)
        requires
            old(self).wf(),
        ensures
            final(self).wf(),
            final(self).map() == old(self).map().remove(key.model()),
            match r {
                Some(v) => old(self).map().contains_key(key.model()) && old(self).map()[key.model()]
                    == v.model() && V::valid(v.model()),
                None => !old(self).map().contains_key(key.model()),
            },
    {
        let ghost m0 = self.model();
        proof {
            lemma_sorted_distinct::<K, V::Model>(m0);
        }
        let (found, i) = self.locate(key);
        if found {
            proof {
                lemma_index_of(m0, i as int);
                lemma_remove_entry(m0, i as int);
            }
            let gone = self.entries.remove(i);
            let ghost m2 = self.model();
            assert(m2 =~= m0.remove(i as int));
            assert(gone.model() == m0[i as int]);
            proof {
                assert forall|a: int| 0 <= a < m2.len() implies #[trigger] m2[a] == m0[if a < i {
                    a
                } else {
                    a + 1
                }] by {}
            }
            Some(gone.1)
        } else {
            assert(as_map(m0).remove(key.model()) =~= as_map(m0));
            None
        }
    }
}

} // verus!
