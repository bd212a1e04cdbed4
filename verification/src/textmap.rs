//! A map from texts to values.

use std::collections::HashMap;

use vstd::prelude::*;

use crate::text;

verus! {

broadcast use vstd::std_specs::hash::group_hash_axioms;

/// A map from texts to values. An insertion replaces what its text was
/// mapped to.
///
/// Every prefix of a text in the map has a number, 0 for the empty one. A
/// lookup goes from the number of a prefix to that of the next longer one.
#[derive(Debug, Clone)]
pub struct TextMap<V> {
    /// Each text once, with its value.
    rows: Vec<(String, V)>,
    /// The number of a prefix, by that of the prefix without its last
    /// character and by that character.
    steps: HashMap<u128, u128>,
    /// The row of each text, by the number of the text.
    places: HashMap<u128, usize>,
}

/// The key of the step from the prefix with the number `n` by the character
/// `c`.
spec fn step(n: u128, c: char) -> int {
    n * 0x200000 + c as int
}

fn step_key(n: u128, c: char) -> (k: u128)
    requires
        n <= usize::MAX + 1,
    ensures
        k == step(n, c),
        k == step(n, c) as u128,
{
    n * 0x200000 + c as u32 as u128
}

/// The number that `steps` lead to, where they have one for `s`.
spec fn reached(steps: Map<u128, u128>, s: Seq<char>) -> Option<u128>
    decreases s.len(),
{
    if s.len() == 0 {
        Some(0)
    } else {
        match reached(steps, s.drop_last()) {
            None => None,
            Some(n) => if steps.contains_key(step(n, s.last()) as u128) {
                Some(steps[step(n, s.last()) as u128])
            } else {
                None
            },
        }
    }
}

/// The steps lead to different numbers, from 1 to how many steps there are.
spec fn apart(steps: Map<u128, u128>) -> bool {
    &&& steps.dom().finite()
    &&& steps.len() <= usize::MAX + 1
    &&& forall|k: u128| #[trigger] steps.contains_key(k) ==> 0 < steps[k] <= steps.len()
    &&& forall|j: u128, k: u128|
        #[trigger] steps.contains_key(j) && #[trigger] steps.contains_key(k) && steps[j]
            == steps[k] ==> j == k
}

proof fn lemma_step(n: u128, c: char)
    requires
        n <= usize::MAX + 1,
    ensures
        0 <= step(n, c) <= u128::MAX,
        step(n, c) as u128 == step(n, c),
{
}

proof fn lemma_steps_apart(m: u128, c: char, n: u128, d: char)
    requires
        step(m, c) == step(n, d),
    ensures
        m == n,
        c == d,
{
}

proof fn lemma_reached_bound(steps: Map<u128, u128>, s: Seq<char>)
    requires
        apart(steps),
    ensures
        reached(steps, s) matches Some(n) ==> n <= steps.len() && (n == 0 <==> s.len() == 0),
    decreases s.len(),
{
    if s.len() > 0 {
        lemma_reached_bound(steps, s.drop_last());
    }
}

/// Different texts are reached under different numbers.
proof fn lemma_reached_apart(steps: Map<u128, u128>, a: Seq<char>, b: Seq<char>)
    requires
        apart(steps),
        reached(steps, a) is Some,
        reached(steps, a) == reached(steps, b),
    ensures
        a == b,
    decreases a.len(),
{
    lemma_reached_bound(steps, a);
    lemma_reached_bound(steps, b);
    if a.len() == 0 {
        assert(a =~= b);
    } else {
        let m = reached(steps, a.drop_last())->0;
        let n = reached(steps, b.drop_last())->0;
        lemma_reached_bound(steps, a.drop_last());
        lemma_reached_bound(steps, b.drop_last());
        lemma_step(m, a.last());
        lemma_step(n, b.last());
        assert(step(m, a.last()) == step(n, b.last()));
        lemma_steps_apart(m, a.last(), n, b.last());
        lemma_reached_apart(steps, a.drop_last(), b.drop_last());
        assert(a =~= a.drop_last().push(a.last()));
        assert(b =~= b.drop_last().push(b.last()));
    }
}

/// What is reached stays reached when a step is added.
proof fn lemma_reached_kept(steps: Map<u128, u128>, k: u128, n: u128, s: Seq<char>)
    requires
        !steps.contains_key(k),
    ensures
        reached(steps, s) is Some ==> reached(steps.insert(k, n), s) == reached(steps, s),
    decreases s.len(),
{
    if s.len() > 0 {
        lemma_reached_kept(steps, k, n, s.drop_last());
    }
}

/// A text with a prefix that is not reached is not reached.
proof fn lemma_unreached(steps: Map<u128, u128>, s: Seq<char>, i: int)
    requires
        0 <= i <= s.len(),
        reached(steps, s.subrange(0, i)) is None,
    ensures
        reached(steps, s) is None,
    decreases s.len() - i,
{
    if i < s.len() {
        assert(s.subrange(0, i + 1).drop_last() =~= s.subrange(0, i));
        lemma_unreached(steps, s, i + 1);
    } else {
        assert(s.subrange(0, i) =~= s);
    }
}

impl<V> View for TextMap<V> {
    type V = Map<Seq<char>, V>;

    closed spec fn view(&self) -> Map<Seq<char>, V> {
        Map::new(
            |s: Seq<char>| self.has(s),
            |s: Seq<char>| self.rows@[self.places@[reached(self.steps@, s)->0] as int].1,
        )
    }
}

impl<V> TextMap<V> {
    spec fn has(&self, s: Seq<char>) -> bool {
        reached(self.steps@, s) matches Some(n) && self.places@.contains_key(n)
    }

    /// The rows, the steps and the places agree.
    pub closed spec fn wf(&self) -> bool {
        &&& apart(self.steps@)
        &&& forall|i: int|
            0 <= i < self.rows@.len() ==> self.has((#[trigger] self.rows@[i]).0@)
                && self.places@[reached(self.steps@, self.rows@[i].0@)->0] == i
        &&& forall|n: u128| #[trigger]
            self.places@.contains_key(n) ==> self.places@[n] < self.rows@.len() && reached(
                self.steps@,
                self.rows@[self.places@[n] as int].0@,
            ) == Some(n)
    }

    /// Longer steps that reach what the shorter ones reach, beside the same
    /// rows and places, make the same map.
    proof fn lemma_same(&self, before: &Self)
        requires
            before.wf(),
            apart(self.steps@),
            self.rows@ == before.rows@,
            self.places@ == before.places@,
            forall|t: Seq<char>|
                reached(before.steps@, t) is Some ==> #[trigger] reached(self.steps@, t) == reached(
                    before.steps@,
                    t,
                ),
        ensures
            self.wf(),
            self@ == before@,
    {
        assert forall|t: Seq<char>| self.has(t) implies reached(before.steps@, t) == reached(
            self.steps@,
            t,
        ) by {
            let n = reached(self.steps@, t)->0;
            let r = self.rows@[self.places@[n] as int].0@;
            assert(reached(before.steps@, r) == Some(n));
            assert(reached(self.steps@, r) == Some(n));
            lemma_reached_apart(self.steps@, t, r);
        }
        assert forall|t: Seq<char>| self.has(t) == before.has(t) by {
            if before.has(t) {
                assert(reached(self.steps@, t) == reached(before.steps@, t));
            }
        }
        assert forall|i: int| 0 <= i < self.rows@.len() implies self.has(
            (#[trigger] self.rows@[i]).0@,
        ) && self.places@[reached(self.steps@, self.rows@[i].0@)->0] == i by {
            assert(before.has(before.rows@[i].0@));
        }
        assert forall|n: u128| #[trigger] self.places@.contains_key(n) implies self.places@[n]
            < self.rows@.len() && reached(
            self.steps@,
            self.rows@[self.places@[n] as int].0@,
        ) == Some(n) by {
            assert(reached(before.steps@, before.rows@[before.places@[n] as int].0@) == Some(n));
        }
        assert(self@ =~= before@);
    }

    pub fn new() -> (m: Self)
        ensures
            m.wf(),
            m@ == Map::<Seq<char>, V>::empty(),
    {
        let m = TextMap { rows: Vec::new(), steps: HashMap::new(), places: HashMap::new() };
        assert(m@ =~= Map::<Seq<char>, V>::empty());
        m
    }

    /// The number of a text, which gets one where it has none.
    fn number(&mut self, s: &[char]) -> (n: u128)
        requires
            old(self).wf(),
        ensures
            final(self).wf(),
            final(self)@ == old(self)@,
            final(self).rows@ == old(self).rows@,
            final(self).places@ == old(self).places@,
            reached(final(self).steps@, s@) == Some(n),
    {
        let mut n: u128 = 0;
        let mut i: usize = 0;
        assert(s@.subrange(0, 0).len() == 0);
        while i < s.len()
            invariant
                0 <= i <= s@.len(),
                self.wf(),
                self@ == old(self)@,
                self.rows@ == old(self).rows@,
                self.places@ == old(self).places@,
                reached(self.steps@, s@.subrange(0, i as int)) == Some(n),
            decreases s@.len() - i,
        {
            let c = s[i];
            assert(s@.subrange(0, i + 1) =~= s@.subrange(0, i as int).push(c));
            n = self.number_after(n, c, Ghost(s@.subrange(0, i as int)));
            i += 1;
        }
        assert(s@.subrange(0, i as int) =~= s@);
        n
    }

    /// The number of the text that ends in `c` after the one with the number
    /// `n`.
    fn number_after(&mut self, n: u128, c: char, Ghost(s): Ghost<Seq<char>>) -> (m: u128)
        requires
            old(self).wf(),
            reached(old(self).steps@, s) == Some(n),
        ensures
            final(self).wf(),
            final(self)@ == old(self)@,
            final(self).rows@ == old(self).rows@,
            final(self).places@ == old(self).places@,
            reached(final(self).steps@, s.push(c)) == Some(m),
    {
        let ghost before = *self;
        let count = self.steps.len() as u128;
        proof {
            lemma_reached_bound(self.steps@, s);
            assert(s.push(c).drop_last() =~= s);
        }
        let k = step_key(n, c);
        let known: Option<u128> = match self.steps.get(&k) {
            Some(m) => Some(*m),
            None => None,
        };
        if let Some(m) = known {
            return m;
        }
        self.steps.insert(k, count + 1);
        proof {
            let steps = before.steps@;
            assert(self.steps@ == steps.insert(k, (count + 1) as u128));
            assert forall|t: Seq<char>| reached(steps, t) is Some implies #[trigger] reached(
                self.steps@,
                t,
            ) == reached(steps, t) by {
                lemma_reached_kept(steps, k, (count + 1) as u128, t);
            }
            lemma_reached_kept(steps, k, (count + 1) as u128, s);
            self.lemma_same(&before);
        }
        count + 1
    }

    pub fn insert(&mut self, key: &[char], value: V)
        requires
            old(self).wf(),
        ensures
            final(self).wf(),
            final(self)@ == old(self)@.insert(key@, value),
    {
        let n = self.number(key);
        let ghost before = *self;
        let found: Option<usize> = match self.places.get(&n) {
            Some(p) => Some(*p),
            None => None,
        };
        let row = (text::string_of(key), value);
        match found {
            Some(p) => {
                self.rows.set(p, row);
            },
            None => {
                self.places.insert(n, self.rows.len());
                self.rows.push(row);
            },
        }
        proof {
            let steps = self.steps@;
            let target = before@.insert(key@, value);
            assert forall|t: Seq<char>| reached(steps, t) == Some(n) implies t == key@ by {
                lemma_reached_apart(steps, t, key@);
            }
            assert forall|i: int| 0 <= i < self.rows@.len() implies self.has(
                (#[trigger] self.rows@[i]).0@,
            ) && self.places@[reached(steps, self.rows@[i].0@)->0] == i by {
                if i < before.rows@.len() {
                    assert(before.has(before.rows@[i].0@));
                }
            }
            assert forall|m: u128| #[trigger] self.places@.contains_key(m) implies self.places@[m]
                < self.rows@.len() && reached(
                steps,
                self.rows@[self.places@[m] as int].0@,
            ) == Some(m) by {
                if m != n {
                    assert(before.places@.contains_key(m));
                    assert(reached(steps, before.rows@[before.places@[m] as int].0@) == Some(m));
                }
            }
            assert forall|t: Seq<char>| self@.contains_key(t) == target.contains_key(t) by {
                assert(self.has(t) == (t == key@ || before.has(t)));
            }
            assert forall|t: Seq<char>| self@.contains_key(t) implies self@[t] == target[t] by {
                if t != key@ {
                    let m = reached(steps, t)->0;
                    assert(m != n);
                    assert(before.places@.contains_key(m));
                    assert(reached(steps, before.rows@[before.places@[m] as int].0@) == Some(m));
                }
            }
            assert(self@ =~= target);
        }
    }

    pub fn get(&self, key: &[char]) -> (v: Option<&V>)
        requires
            self.wf(),
        ensures
            match v {
                Some(v) => self@.contains_key(key@) && *v == self@[key@],
                None => !self@.contains_key(key@),
            },
    {
        let mut n: u128 = 0;
        let mut i: usize = 0;
        assert(key@.subrange(0, 0).len() == 0);
        while i < key.len()
            invariant
                0 <= i <= key@.len(),
                self.wf(),
                reached(self.steps@, key@.subrange(0, i as int)) == Some(n),
            decreases key@.len() - i,
        {
            let c = key[i];
            let ghost part = key@.subrange(0, i as int);
            proof {
                assert(key@.subrange(0, i + 1).drop_last() =~= part);
                assert(key@.subrange(0, i + 1).last() == c);
                lemma_reached_bound(self.steps@, part);
            }
            let k = step_key(n, c);
            match self.steps.get(&k) {
                Some(m) => {
                    n = *m;
                },
                None => {
                    proof {
                        lemma_unreached(self.steps@, key@, i + 1);
                    }
                    return None;
                },
            }
            i += 1;
        }
        assert(key@.subrange(0, i as int) =~= key@);
        match self.places.get(&n) {
            Some(p) => Some(&self.rows[*p].1),
            None => None,
        }
    }

    pub fn len(&self) -> (n: usize)
        requires
            self.wf(),
        ensures
            n == self@.dom().len(),
            self@.dom().finite(),
    {
        proof {
            let keys = Seq::new(self.rows@.len(), |i: int| self.rows@[i].0@);
            assert forall|i: int, j: int|
                0 <= i < keys.len() && 0 <= j < keys.len() && i != j implies keys[i] != keys[j] by {
                assert(self.has(self.rows@[i].0@));
                assert(self.has(self.rows@[j].0@));
            }
            assert forall|t: Seq<char>| keys.to_set().contains(t) == self@.dom().contains(t) by {
                if keys.to_set().contains(t) {
                    let i = choose|i: int| 0 <= i < keys.len() && keys[i] == t;
                    assert(self.has(self.rows@[i].0@));
                }
                if self@.dom().contains(t) {
                    let n = reached(self.steps@, t)->0;
                    let p = self.places@[n] as int;
                    assert(reached(self.steps@, self.rows@[p].0@) == Some(n));
                    lemma_reached_apart(self.steps@, t, self.rows@[p].0@);
                    assert(keys[p] == t);
                }
            }
            assert(keys.to_set() =~= self@.dom());
            keys.unique_seq_to_set();
            vstd::seq_lib::seq_to_set_is_finite(keys);
        }
        self.rows.len()
    }
}

} // verus!
