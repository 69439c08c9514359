//! Association maps keyed by series name, the storage behind the registry
//! and the time frame. Keys are kept pairwise distinct, so the abstraction
//! of a table is a mathematical `Map` from character sequences to values.

use vstd::prelude::*;

verus! {

/// Character-by-character string comparison.
fn str_eq(a: &str, b: &str) -> (r: bool)
    ensures
        r <==> a@ == b@,
{
    let a_len = a.unicode_len();
    let b_len = b.unicode_len();
    if a_len != b_len {
        return false;
    }
    let mut i: usize = 0;
    while i < a_len
        invariant
            i <= a_len,
            a_len == a@.len(),
            b_len == b@.len(),
            a_len == b_len,
            forall|j: int| 0 <= j < i ==> a@[j] == b@[j],
        decreases a_len - i,
    {
        if a.get_char(i) != b.get_char(i) {
            return false;
        }
        i += 1;
    }
    proof {
        assert(a@ =~= b@);
    }
    true
}

/// A table from names to values, backed by parallel vectors whose keys are
/// pairwise distinct. Its abstraction is the `Map` from key views to values.
#[derive(Debug)]
pub struct NameMap<V> {
    keys: Vec<String>,
    vals: Vec<V>,
}

impl<V> View for NameMap<V> {
    type V = Map<Seq<char>, V>;

    closed spec fn view(&self) -> Map<Seq<char>, V> {
        NameMap::<V>::map_upto(self.keys@, self.vals@, self.keys@.len() as int)
    }
}

impl<V> NameMap<V> {
    /// The vectors are aligned and no name occurs twice.
    pub closed spec fn wf(&self) -> bool {
        &&& self.keys@.len() == self.vals@.len()
        &&& forall|i: int, j: int|
            0 <= i < j < self.keys@.len() ==> self.keys@[i]@ != self.keys@[j]@
    }

    /// The map holding the first `n` entries, later entries overriding.
    spec fn map_upto(keys: Seq<String>, vals: Seq<V>, n: int) -> Map<Seq<char>, V>
        decreases n,
    {
        if n <= 0 {
            Map::empty()
        } else {
            Self::map_upto(keys, vals, n - 1).insert(keys[n - 1]@, vals[n - 1])
        }
    }

    proof fn lemma_contains(keys: Seq<String>, vals: Seq<V>, n: int, k: Seq<char>)
        ensures
            Self::map_upto(keys, vals, n).contains_key(k) <==> exists|i: int|
                0 <= i < n && keys[i]@ == k,
        decreases n,
    {
        if n > 0 {
            Self::lemma_contains(keys, vals, n - 1, k);
            if keys[n - 1]@ == k {
                assert(Self::map_upto(keys, vals, n).contains_key(k));
            }
        }
    }

    proof fn lemma_index(keys: Seq<String>, vals: Seq<V>, n: int, i: int)
        requires
            0 <= i < n,
            forall|p: int, q: int| 0 <= p < q < n ==> keys[p]@ != keys[q]@,
        ensures
            Self::map_upto(keys, vals, n).contains_key(keys[i]@),
            Self::map_upto(keys, vals, n)[keys[i]@] == vals[i],
        decreases n,
    {
        if i == n - 1 {
        } else {
            Self::lemma_index(keys, vals, n - 1, i);
        }
    }

    proof fn lemma_agrees(
        keys1: Seq<String>,
        vals1: Seq<V>,
        keys2: Seq<String>,
        vals2: Seq<V>,
        n: int,
    )
        requires
            forall|i: int| 0 <= i < n ==> keys1[i]@ == keys2[i]@,
            forall|i: int| 0 <= i < n ==> vals1[i] == vals2[i],
        ensures
            Self::map_upto(keys1, vals1, n) == Self::map_upto(keys2, vals2, n),
        decreases n,
    {
        if n > 0 {
            Self::lemma_agrees(keys1, vals1, keys2, vals2, n - 1);
        }
    }

    proof fn lemma_update(keys: Seq<String>, vals: Seq<V>, n: int, i: int, v: V)
        requires
            0 <= i < n,
            n <= keys.len(),
            n <= vals.len(),
            forall|p: int, q: int| 0 <= p < q < n ==> keys[p]@ != keys[q]@,
        ensures
            Self::map_upto(keys, vals.update(i, v), n) == Self::map_upto(keys, vals, n).insert(
                keys[i]@,
                v,
            ),
        decreases n,
    {
        let updated = vals.update(i, v);
        if i == n - 1 {
            Self::lemma_agrees(keys, updated, keys, vals, n - 1);
            assert(Self::map_upto(keys, updated, n) =~= Self::map_upto(keys, vals, n).insert(
                keys[i]@,
                v,
            ));
        } else {
            Self::lemma_update(keys, vals, n - 1, i, v);
            assert(Self::map_upto(keys, updated, n) =~= Self::map_upto(keys, vals, n).insert(
                keys[i]@,
                v,
            ));
        }
    }

    proof fn lemma_remove(keys: Seq<String>, vals: Seq<V>, n: int, i: int)
        requires
            0 <= i < n,
            n <= keys.len(),
            n <= vals.len(),
            forall|p: int, q: int| 0 <= p < q < n ==> keys[p]@ != keys[q]@,
        ensures
            Self::map_upto(keys.remove(i), vals.remove(i), n - 1) == Self::map_upto(
                keys,
                vals,
                n,
            ).remove(keys[i]@),
        decreases n,
    {
        let rk = keys.remove(i);
        let rv = vals.remove(i);
        if i == n - 1 {
            Self::lemma_agrees(rk, rv, keys, vals, n - 1);
            Self::lemma_contains(keys, vals, n - 1, keys[i]@);
            assert(Self::map_upto(rk, rv, n - 1) =~= Self::map_upto(keys, vals, n).remove(
                keys[i]@,
            ));
        } else {
            Self::lemma_remove(keys, vals, n - 1, i);
            assert(rk[n - 2] == keys[n - 1]);
            assert(rv[n - 2] == vals[n - 1]);
            assert(Self::map_upto(rk, rv, n - 1) =~= Self::map_upto(keys, vals, n).remove(
                keys[i]@,
            ));
        }
    }

    proof fn lemma_dom_len(keys: Seq<String>, vals: Seq<V>, n: int)
        requires
            0 <= n,
            forall|p: int, q: int| 0 <= p < q < n ==> keys[p]@ != keys[q]@,
        ensures
            Self::map_upto(keys, vals, n).dom().finite(),
            Self::map_upto(keys, vals, n).dom().len() == n,
        decreases n,
    {
        if n > 0 {
            Self::lemma_dom_len(keys, vals, n - 1);
            Self::lemma_contains(keys, vals, n - 1, keys[n - 1]@);
        }
    }

    /// An empty table.
    pub fn new() -> (r: Self)
        ensures
            r.wf(),
            r@ == Map::<Seq<char>, V>::empty(),
    {
        NameMap { keys: Vec::new(), vals: Vec::new() }
    }

    /// How many names the table holds.
    pub fn len(&self) -> (n: usize)
        requires
            self.wf(),
        ensures
            n == self@.dom().len(),
            self@.dom().finite(),
    {
        proof {
            Self::lemma_dom_len(self.keys@, self.vals@, self.keys@.len() as int);
        }
        self.keys.len()
    }

    /// Look a name up.
    pub fn get(&self, name: &str) -> (r: Option<&V>)
        requires
            self.wf(),
        ensures
            match r {
                Some(v) => self@.contains_key(name@) && *v == self@[name@],
                None => !self@.contains_key(name@),
            },
    {
        let n = self.keys.len();
        let mut i: usize = 0;
        while i < n
            invariant
                self.wf(),
                i <= n,
                n == self.keys@.len(),
                forall|j: int| 0 <= j < i ==> self.keys@[j]@ != name@,
            decreases n - i,
        {
            if str_eq(self.keys[i].as_str(), name) {
                proof {
                    Self::lemma_index(self.keys@, self.vals@, n as int, i as int);
                }
                return Some(&self.vals[i]);
            }
            i += 1;
        }
        proof {
            Self::lemma_contains(self.keys@, self.vals@, n as int, name@);
        }
        None
    }

    /// Bind a name to a value, overriding an earlier binding.
    pub fn insert(&mut self, name: String, v: V)
        requires
            old(self).wf(),
        ensures
            final(self).wf(),
            final(self)@ == old(self)@.insert(name@, v),
    {
        let n = self.keys.len();
        let mut i: usize = 0;
        while i < n
            invariant
                self.wf(),
                i <= n,
                n == self.keys@.len(),
                self == old(self),
                forall|j: int| 0 <= j < i ==> self.keys@[j]@ != name@,
            decreases n - i,
        {
            if str_eq(self.keys[i].as_str(), name.as_str()) {
                self.vals[i] = v;
                proof {
                    Self::lemma_update(
                        self.keys@,
                        old(self).vals@,
                        n as int,
                        i as int,
                        v,
                    );
                }
                return ;
            }
            i += 1;
        }
        self.keys.push(name);
        self.vals.push(v);
        proof {
            Self::lemma_agrees(self.keys@, self.vals@, old(self).keys@, old(self).vals@, n as int);
        }
    }

    /// Remove a name and hand its value back.
    pub fn take(&mut self, name: &str) -> (r: Option<V>)
        requires
            old(self).wf(),
        ensures
            final(self).wf(),
            match r {
                Some(v) => old(self)@.contains_key(name@) && v == old(self)@[name@]
                    && final(self)@ == old(self)@.remove(name@),
                None => !old(self)@.contains_key(name@) && final(self)@ == old(self)@,
            },
    {
        let n = self.keys.len();
        let mut i: usize = 0;
        while i < n
            invariant
                self.wf(),
                i <= n,
                n == self.keys@.len(),
                self == old(self),
                forall|j: int| 0 <= j < i ==> self.keys@[j]@ != name@,
            decreases n - i,
        {
            if str_eq(self.keys[i].as_str(), name) {
                proof {
                    Self::lemma_index(self.keys@, self.vals@, n as int, i as int);
                    Self::lemma_remove(self.keys@, self.vals@, n as int, i as int);
                }
                self.keys.remove(i);
                let v = self.vals.remove(i);
                return Some(v);
            }
            i += 1;
        }
        proof {
            Self::lemma_contains(self.keys@, self.vals@, n as int, name@);
        }
        None
    }

    /// Surrender the table as aligned key and value vectors.
    pub fn into_parts(self) -> (r: (Vec<String>, Vec<V>))
        requires
            self.wf(),
        ensures
            r.0@.len() == r.1@.len(),
            forall|i: int, j: int| 0 <= i < j < r.0@.len() ==> r.0@[i]@ != r.0@[j]@,
            forall|i: int| 0 <= i < r.0@.len() ==> self@.contains_key(#[trigger] r.0@[i]@)
                && self@[r.0@[i]@] == r.1@[i],
            forall|k: Seq<char>| #[trigger] self@.contains_key(k) ==> exists|i: int|
                0 <= i < r.0@.len() && r.0@[i]@ == k,
    {
        proof {
            let n = self.keys@.len() as int;
            assert forall|i: int| 0 <= i < n implies self@.contains_key(#[trigger] self.keys@[i]@)
                && self@[self.keys@[i]@] == self.vals@[i] by {
                Self::lemma_index(self.keys@, self.vals@, n, i);
            }
            assert forall|k: Seq<char>| #[trigger] self@.contains_key(k) implies exists|i: int|
                0 <= i < n && self.keys@[i]@ == k by {
                Self::lemma_contains(self.keys@, self.vals@, n, k);
            }
        }
        (self.keys, self.vals)
    }

    /// The name stored at a slot; slots enumerate the domain of the map.
    pub fn key_at(&self, i: usize) -> (k: &String)
        requires
            self.wf(),
            i < self@.dom().len(),
        ensures
            self@.contains_key(k@),
    {
        proof {
            Self::lemma_dom_len(self.keys@, self.vals@, self.keys@.len() as int);
            Self::lemma_index(self.keys@, self.vals@, self.keys@.len() as int, i as int);
        }
        &self.keys[i]
    }

    /// The value stored at a slot, bound to the name [`Self::key_at`] gives.
    pub fn val_at(&self, i: usize) -> (v: &V)
        requires
            self.wf(),
            i < self@.dom().len(),
        ensures
            exists|k: Seq<char>| self@.contains_key(k) && self@[k] == *v,
    {
        proof {
            Self::lemma_dom_len(self.keys@, self.vals@, self.keys@.len() as int);
            Self::lemma_index(self.keys@, self.vals@, self.keys@.len() as int, i as int);
            assert(self@.contains_key(self.keys@[i as int]@) && self@[self.keys@[i as int]@]
                == self.vals@[i as int]);
        }
        &self.vals[i]
    }
}

impl<V: Copy> NameMap<V> {
    /// A by-value copy of the table.
    pub fn duplicate(&self) -> (r: Self)
        requires
            self.wf(),
        ensures
            r.wf(),
            r@ == self@,
    {
        let n = self.keys.len();
        let mut keys: Vec<String> = Vec::new();
        let mut vals: Vec<V> = Vec::new();
        let mut i: usize = 0;
        while i < n
            invariant
                i <= n,
                n == self.keys@.len(),
                n == self.vals@.len(),
                keys@.len() == i,
                vals@.len() == i,
                forall|j: int| 0 <= j < i ==> keys@[j] == self.keys@[j],
                forall|j: int| 0 <= j < i ==> vals@[j] == self.vals@[j],
            decreases n - i,
        {
            keys.push(self.keys[i].clone());
            vals.push(self.vals[i]);
            i += 1;
        }
        let r = NameMap { keys, vals };
        proof {
            assert(forall|j: int| 0 <= j < n ==> r.keys@[j]@ == self.keys@[j]@);
            Self::lemma_agrees(r.keys@, r.vals@, self.keys@, self.vals@, n as int);
        }
        r
    }
}

} // verus!
