//! A map from fixed-size byte keys to values.

use std::collections::HashMap;

use vstd::prelude::*;

use crate::bytes;

verus! {

broadcast use vstd::std_specs::hash::group_hash_axioms;

/// A map from keys of `N` bytes, at most 16, to values. An insertion replaces
/// what its key was mapped to.
#[derive(Debug, Clone)]
pub struct KeyMap<V, const N: usize> {
    /// Each key once, with its value.
    rows: Vec<([u8; N], V)>,
    /// The row of each key, by the number that the key spells.
    places: HashMap<u128, usize>,
}

/// The number that a key spells.
spec fn number(key: Seq<u8>) -> u128 {
    bytes::be(key) as u128
}

proof fn lemma_number(a: Seq<u8>, b: Seq<u8>)
    requires
        a.len() == b.len() <= 16,
    ensures
        number(a) == bytes::be(a),
        number(a) == number(b) ==> a == b,
{
    bytes::lemma_be_bound(a);
    bytes::lemma_be_bound(b);
    bytes::lemma_pow256_grows(a.len(), 16);
    bytes::lemma_pow256();
    if number(a) == number(b) {
        bytes::lemma_be_injective(a, b);
    }
}

impl<V, const N: usize> View for KeyMap<V, N> {
    type V = Map<Seq<u8>, V>;

    closed spec fn view(&self) -> Map<Seq<u8>, V> {
        Map::new(
            |k: Seq<u8>| k.len() == N && self.places@.contains_key(number(k)),
            |k: Seq<u8>| self.rows@[self.places@[number(k)] as int].1,
        )
    }
}

/// The keys of rows, in their order.
pub open spec fn row_keys<V, const N: usize>(rows: Seq<([u8; N], V)>) -> Seq<Seq<u8>> {
    Seq::new(rows.len(), |i: int| rows[i].0@)
}

/// `rows` lists every mapping of `m` once.
pub open spec fn lists<V, const N: usize>(
    rows: Seq<([u8; N], V)>,
    m: Map<Seq<u8>, V>,
) -> bool {
    &&& row_keys(rows).no_duplicates()
    &&& row_keys(rows).to_set() == m.dom()
    &&& forall|i: int| 0 <= i < rows.len() ==> m[(#[trigger] rows[i]).0@] == rows[i].1
}

impl<V, const N: usize> KeyMap<V, N> {
    /// The rows and the places agree.
    pub closed spec fn wf(&self) -> bool {
        &&& N <= 16
        &&& forall|i: int|
            0 <= i < self.rows@.len() ==> self.places@.contains_key(
                number((#[trigger] self.rows@[i]).0@),
            ) && self.places@[number(self.rows@[i].0@)] == i
        &&& forall|n: u128| #[trigger]
            self.places@.contains_key(n) ==> self.places@[n] < self.rows@.len() && number(
                self.rows@[self.places@[n] as int].0@,
            ) == n
    }

    /// The rows list the mappings of the view.
    proof fn lemma_rows(&self)
        requires
            self.wf(),
        ensures
            lists(self.rows@, self@),
            self@.dom().finite(),
            self@.dom().len() == self.rows@.len(),
    {
        let keys = row_keys(self.rows@);
        assert forall|i: int, j: int|
            0 <= i < keys.len() && 0 <= j < keys.len() && i != j implies keys[i] != keys[j] by {
            assert(self.places@[number(self.rows@[i].0@)] == i);
            assert(self.places@[number(self.rows@[j].0@)] == j);
        }
        assert forall|k: Seq<u8>| keys.to_set().contains(k) == self@.dom().contains(k) by {
            if keys.to_set().contains(k) {
                let i = choose|i: int| 0 <= i < keys.len() && keys[i] == k;
                assert(self.rows@[i].0@ == k);
            }
            if self@.dom().contains(k) {
                let p = self.places@[number(k)] as int;
                assert(number(self.rows@[p].0@) == number(k));
                lemma_number(self.rows@[p].0@, k);
                assert(keys[p] == k);
            }
        }
        assert(keys.to_set() =~= self@.dom());
        keys.unique_seq_to_set();
        vstd::seq_lib::seq_to_set_is_finite(keys);
        assert forall|i: int| 0 <= i < self.rows@.len() implies self@[(
        #[trigger] self.rows@[i]).0@] == self.rows@[i].1 by {
            assert(self.places@[number(self.rows@[i].0@)] == i);
        }
    }

    pub fn new() -> (m: Self)
        requires
            N <= 16,
        ensures
            m.wf(),
            m@ == Map::<Seq<u8>, V>::empty(),
    {
        let m = KeyMap { rows: Vec::new(), places: HashMap::new() };
        assert(m@ =~= Map::<Seq<u8>, V>::empty());
        m
    }

    pub fn insert(&mut self, key: [u8; N], value: V)
        requires
            old(self).wf(),
        ensures
            final(self).wf(),
            final(self)@ == old(self)@.insert(key@, value),
    {
        let ghost before = *self;
        let n = bytes::key_number(key.as_slice());
        proof {
            lemma_number(key@, key@);
        }
        let found: Option<usize> = match self.places.get(&n) {
            Some(p) => Some(*p),
            None => None,
        };
        match found {
            Some(p) => {
                assert(number(self.rows@[p as int].0@) == n);
                proof {
                    lemma_number(self.rows@[p as int].0@, key@);
                }
                self.rows.set(p, (key, value));
            },
            None => {
                self.places.insert(n, self.rows.len());
                self.rows.push((key, value));
            },
        }
        proof {
            assert forall|i: int| 0 <= i < self.rows@.len() implies self.places@.contains_key(
                number((#[trigger] self.rows@[i]).0@),
            ) && self.places@[number(self.rows@[i].0@)] == i by {
                if i < before.rows@.len() {
                    assert(before.places@[number(before.rows@[i].0@)] == i);
                }
            }
            assert forall|k: Seq<u8>| self@.dom().contains(k) == before@.insert(
                key@,
                value,
            ).dom().contains(k) by {
                if k.len() == N {
                    lemma_number(k, key@);
                }
            }
            assert forall|k: Seq<u8>| self@.dom().contains(k) implies self@[k] == before@.insert(
                key@,
                value,
            )[k] by {
                lemma_number(k, key@);
                if k != key@ {
                    assert(before.places@.contains_key(number(k)));
                    assert(number(before.rows@[before.places@[number(k)] as int].0@) == number(k));
                }
            }
            assert(self@ =~= before@.insert(key@, value));
        }
    }

    pub fn get(&self, key: &[u8; N]) -> (v: Option<&V>)
        requires
            self.wf(),
        ensures
            match v {
                Some(v) => self@.contains_key(key@) && *v == self@[key@],
                None => !self@.contains_key(key@),
            },
    {
        let n = bytes::key_number(key.as_slice());
        proof {
            lemma_number(key@, key@);
        }
        match self.places.get(&n) {
            Some(p) => Some(&self.rows[*p].1),
            None => None,
        }
    }

    pub fn len(&self) -> (n: usize)
        requires
            self.wf(),
        ensures
            n == self@.dom().len(),
            self@.dom().finite(),
    {
        proof {
            self.lemma_rows();
        }
        self.rows.len()
    }

    /// Every key with its value.
    pub fn rows(&self) -> (r: &[([u8; N], V)])
        requires
            self.wf(),
        ensures
            lists(r@, self@),
            r@.len() == self@.dom().len(),
    {
        proof {
            self.lemma_rows();
        }
        self.rows.as_slice()
    }
}

} // verus!
