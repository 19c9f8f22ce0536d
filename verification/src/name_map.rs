//! Maps keyed by text that remember the order in which their names came.
use vstd::hash_map::StringHashMap;
use vstd::prelude::*;

verus! {

/// The first position at which the name `k` stands.
pub open spec fn find_name<V>(o: Seq<(Seq<char>, V)>, k: Seq<char>) -> Option<int>
    decreases o.len(),
{
    if o.len() == 0 {
        None
    } else {
        match find_name(o.drop_last(), k) {
            Some(i) => Some(i),
            None => if o.last().0 == k {
                Some(o.len() - 1)
            } else {
                None
            },
        }
    }
}

/// The value that stands under the name `k`.
pub open spec fn lookup<V>(o: Seq<(Seq<char>, V)>, k: Seq<char>) -> Option<V> {
    match find_name(o, k) {
        Some(i) => Some(o[i].1),
        None => None,
    }
}

/// The entries after `v` was put under the name `k`: in the place of what stood there, or at the end.
pub open spec fn upsert<V>(o: Seq<(Seq<char>, V)>, k: Seq<char>, v: V) -> Seq<(Seq<char>, V)> {
    match find_name(o, k) {
        Some(i) => o.update(i, (k, v)),
        None => o.push((k, v)),
    }
}

/// No name stands twice.
pub open spec fn distinct_names<V>(o: Seq<(Seq<char>, V)>) -> bool {
    forall|i: int, j: int| 0 <= i < j < o.len() ==> (#[trigger] o[i]).0 != (#[trigger] o[j]).0
}

/// The position that is found holds the name, and no earlier one does; none is missed.
pub proof fn lemma_find_name<V>(o: Seq<(Seq<char>, V)>, k: Seq<char>)
    ensures
        match find_name(o, k) {
            Some(i) => 0 <= i < o.len() && o[i].0 == k && forall|j: int|
                0 <= j < i ==> (#[trigger] o[j]).0 != k,
            None => forall|j: int| 0 <= j < o.len() ==> (#[trigger] o[j]).0 != k,
        },
    decreases o.len(),
{
    if o.len() > 0 {
        lemma_find_name(o.drop_last(), k);
        assert forall|j: int| 0 <= j < o.len() - 1 implies o.drop_last()[j] == #[trigger] o[j] by {}
    }
}

/// Where names are distinct, a name is found where it stands.
pub proof fn law_distinct_names_are_found<V>(o: Seq<(Seq<char>, V)>, i: int)
    requires
        distinct_names(o),
        0 <= i < o.len(),
    ensures
        find_name(o, o[i].0) == Some(i),
{
    lemma_find_name(o, o[i].0);
}

/// Putting a value under a name keeps the names distinct, makes that value the one that is found
/// there, and changes nothing under any other name.
pub proof fn law_put_value_is_found<V>(o: Seq<(Seq<char>, V)>, k: Seq<char>, v: V, other: Seq<char>)
    ensures
        distinct_names(o) ==> distinct_names(upsert(o, k, v)),
        lookup(upsert(o, k, v), k) == Some(v),
        other != k ==> lookup(upsert(o, k, v), other) == lookup(o, other),
{
    let u = upsert(o, k, v);
    lemma_find_name(o, k);
    lemma_find_name(u, k);
    lemma_find_name(o, other);
    lemma_find_name(u, other);
    match find_name(o, k) {
        Some(i) => {
            assert(u[i] == (k, v));
            assert forall|j: int| 0 <= j < o.len() implies #[trigger] u[j] == (if j == i {
                (k, v)
            } else {
                o[j]
            }) by {}
            assert forall|j: int| 0 <= j < o.len() implies (#[trigger] o[j]).0 == u[j].0 by {}
        },
        None => {
            assert(u[o.len() as int] == (k, v));
            assert forall|j: int| 0 <= j < o.len() implies #[trigger] u[j] == o[j] by {}
            assert forall|j: int| 0 <= j < o.len() implies (#[trigger] o[j]).0 == u[j].0 by {}
        },
    }
    if other != k {
        match find_name(o, other) {
            Some(j) => {
                assert(u[j] == o[j]);
                assert(find_name(u, other) is Some);
                let j2 = find_name(u, other)->0;
                assert(u[j2].0 == other);
            },
            None => {},
        }
    }
}

/// The entries with every value replaced by what a function makes of it.
pub open spec fn mapped<V, W>(o: Seq<(Seq<char>, V)>, f: spec_fn(V) -> W) -> Seq<(Seq<char>, W)> {
    o.map_values(|e: (Seq<char>, V)| (e.0, f(e.1)))
}

/// A name stands at the same position whatever the values.
pub proof fn lemma_find_mapped<V, W>(o: Seq<(Seq<char>, V)>, f: spec_fn(V) -> W, k: Seq<char>)
    ensures
        find_name(mapped(o, f), k) == find_name(o, k),
    decreases o.len(),
{
    if o.len() > 0 {
        lemma_find_mapped(o.drop_last(), f, k);
        assert(mapped(o, f).drop_last() =~= mapped(o.drop_last(), f));
    }
}

/// Putting a value under a name commutes with a function on the values.
pub proof fn lemma_upsert_mapped<V, W>(
    o: Seq<(Seq<char>, V)>,
    f: spec_fn(V) -> W,
    k: Seq<char>,
    v: V,
)
    ensures
        mapped(upsert(o, k, v), f) == upsert(mapped(o, f), k, f(v)),
{
    lemma_find_mapped(o, f, k);
    lemma_find_name(o, k);
    assert(mapped(upsert(o, k, v), f) =~= upsert(mapped(o, f), k, f(v)));
}

/// A map from names to values, in the order in which the names came.
pub struct NameMap<V> {
    entries: Vec<(String, V)>,
    index: StringHashMap<usize>,
}

impl<V> NameMap<V> {
    #[verifier::type_invariant]
    spec fn inv(self) -> bool {
        &&& forall|i: int|
            0 <= i < self.entries@.len() ==> self.index@.contains_key((#[trigger] self.entries@[i]).0@)
                && self.index@[self.entries@[i].0@] == i
        &&& forall|k: Seq<char>| #[trigger]
            self.index@.contains_key(k) ==> self.index@[k] < self.entries@.len()
                && self.entries@[self.index@[k] as int].0@ == k
    }

    /// The entries, in their order.
    pub closed spec fn order(&self) -> Seq<(Seq<char>, V)> {
        self.entries@.map_values(|e: (String, V)| (e.0@, e.1))
    }

    /// A map without entries.
    pub fn new() -> (m: Self)
        ensures
            m.order() == Seq::<(Seq<char>, V)>::empty(),
    {
        let m = NameMap { entries: Vec::new(), index: StringHashMap::new() };
        assert(m.order() =~= Seq::<(Seq<char>, V)>::empty());
        m
    }

    /// The map with `v` put under `name`.
    fn with(self, name: String, v: V) -> (m: Self)
        ensures
            m.order() == upsert(self.order(), name@, v),
    {
        proof {
            use_type_invariant(&self);
            lemma_find_name(self.order(), name@);
            assert forall|i: int| 0 <= i < self.entries@.len() implies (#[trigger] self.order()[i]).0
                == self.entries@[i].0@ by {}
        }
        let ghost before = self;
        let NameMap { mut entries, mut index } = self;
        let at: Option<usize> = match index.get(name.as_str()) {
            Some(p) => Some(*p),
            None => None,
        };
        match at {
            Some(i) => {
                proof {
                    assert(before.order()[i as int].0 == name@);
                    let j = find_name(before.order(), name@)->0;
                    assert(before.entries@[j].0@ == before.order()[j].0);
                    assert(j == i);
                }
                let ghost k = name@;
                entries.set(i, (name, v));
                let m = NameMap { entries, index };
                assert(m.order() =~= upsert(before.order(), k, v));
                m
            },
            None => {
                proof {
                    if find_name(before.order(), name@) is Some {
                        let j = find_name(before.order(), name@)->0;
                        assert(before.order()[j].0 == before.entries@[j].0@);
                    }
                }
                let ghost k = name@;
                index.insert(name.clone(), entries.len());
                entries.push((name, v));
                let m = NameMap { entries, index };
                assert(m.order() =~= upsert(before.order(), k, v));
                m
            },
        }
    }

    /// Puts `v` under `name`.
    pub fn insert(&mut self, name: String, v: V)
        ensures
            final(self).order() == upsert(old(self).order(), name@, v),
    {
        let mut m = NameMap::new();
        std::mem::swap(self, &mut m);
        *self = m.with(name, v);
    }

    /// The value under `name`.
    pub fn get(&self, name: &str) -> (r: Option<&V>)
        ensures
            r is Some <==> lookup(self.order(), name@) is Some,
            r matches Some(v) ==> lookup(self.order(), name@) == Some(*v),
    {
        proof {
            use_type_invariant(self);
            lemma_find_name(self.order(), name@);
            assert forall|i: int| 0 <= i < self.entries@.len() implies (#[trigger] self.order()[i]).0
                == self.entries@[i].0@ by {}
        }
        match self.index.get(name) {
            Some(i) => {
                proof {
                    assert(self.order()[*i as int].0 == name@);
                    let j = find_name(self.order(), name@)->0;
                    assert(self.entries@[j].0@ == self.order()[j].0);
                    assert(j == *i);
                }
                Some(&self.entries[*i].1)
            },
            None => {
                proof {
                    if find_name(self.order(), name@) is Some {
                        let j = find_name(self.order(), name@)->0;
                        assert(self.order()[j].0 == self.entries@[j].0@);
                    }
                }
                None
            },
        }
    }

    /// The number of entries; their names are distinct.
    pub fn len(&self) -> (n: usize)
        ensures
            n == self.order().len(),
            distinct_names(self.order()),
    {
        proof {
            use_type_invariant(self);
            assert forall|i: int, j: int| 0 <= i < j < self.order().len() implies (
            #[trigger] self.order()[i]).0 != (#[trigger] self.order()[j]).0 by {
                assert(self.order()[i].0 == self.entries@[i].0@);
                assert(self.order()[j].0 == self.entries@[j].0@);
            }
        }
        self.entries.len()
    }

    /// The name at a position.
    pub fn name(&self, i: usize) -> (s: &str)
        requires
            i < self.order().len(),
        ensures
            s@ == self.order()[i as int].0,
    {
        self.entries[i].0.as_str()
    }

    /// The value at a position.
    pub fn value(&self, i: usize) -> (v: &V)
        requires
            i < self.order().len(),
        ensures
            *v == self.order()[i as int].1,
    {
        &self.entries[i].1
    }
}

} // verus!
