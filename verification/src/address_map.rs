//! An ordered map from address to instruction record, kept as two vectors
//! sorted by address.

use vstd::prelude::*;

verus! {

/// The rendered form of a decoded instruction, with the length of its encoding.
#[derive(Clone, Debug)]
pub struct DecodedForm {
    pub text: String,
    pub length: usize,
}

/// What is recorded at one address: the decoded form, or nothing but the
/// fact that the address is known.
#[derive(Clone, Debug)]
pub struct InstructionDisassembly {
    pub disasm: Option<DecodedForm>,
}

/// Mathematical model of [`DecodedForm`].
pub struct FormView {
    pub text: Seq<char>,
    pub length: usize,
}

impl View for DecodedForm {
    type V = FormView;

    open spec fn view(&self) -> FormView {
        FormView { text: self.text@, length: self.length }
    }
}

impl View for InstructionDisassembly {
    type V = Option<FormView>;

    open spec fn view(&self) -> Option<FormView> {
        match self.disasm {
            Some(form) => Some(form@),
            None => None,
        }
    }
}

/// True when each element of `keys` is below the next.
pub open spec fn strictly_increasing(keys: Seq<u64>) -> bool {
    forall|i: int, j: int| 0 <= i < j < keys.len() ==> keys[i] < keys[j]
}

/// True when `k` is the least element of `keys` above `a`.
pub open spec fn is_successor(keys: Set<u64>, a: u64, k: u64) -> bool {
    &&& keys.contains(k)
    &&& a < k
    &&& forall|j: u64| keys.contains(j) && a < j ==> k <= j
}

/// The least element of `keys` above `a`, if there is one.
pub open spec fn successor_of(keys: Set<u64>, a: u64) -> Option<u64> {
    if exists|k: u64| is_successor(keys, a, k) {
        Some(choose|k: u64| is_successor(keys, a, k))
    } else {
        None
    }
}

/// A set has at most one successor of an address.
pub proof fn lemma_successor_unique(keys: Set<u64>, a: u64, k1: u64, k2: u64)
    requires
        is_successor(keys, a, k1),
        is_successor(keys, a, k2),
    ensures
        k1 == k2,
{
}

/// An ordered map from address to [`InstructionDisassembly`].
pub struct AddressMap {
    keys: Vec<u64>,
    values: Vec<InstructionDisassembly>,
}

impl View for AddressMap {
    type V = Map<u64, Option<FormView>>;

    closed spec fn view(&self) -> Map<u64, Option<FormView>> {
        Map::new(
            |k: u64| self.keys@.contains(k),
            |k: u64| self.values@[self.keys@.index_of(k)]@,
        )
    }
}

impl AddressMap {
    /// The invariant of the representation: one value for each key, and the
    /// keys in strictly increasing order.
    pub closed spec fn wf(&self) -> bool {
        &&& self.keys@.len() == self.values@.len()
        &&& strictly_increasing(self.keys@)
    }

    /// The keys in ascending order.
    pub closed spec fn ordered_keys(&self) -> Seq<u64> {
        self.keys@
    }

    /// The keys are strictly increasing, they are exactly the domain of the
    /// map, and the domain is finite.
    pub proof fn lemma_ordered_keys(&self)
        requires
            self.wf(),
        ensures
            strictly_increasing(self.ordered_keys()),
            self.ordered_keys().to_set() == self@.dom(),
            self.ordered_keys().no_duplicates(),
            self@.dom().finite(),
            self@.dom().len() == self.ordered_keys().len(),
    {
        assert(self.keys@.to_set() =~= self@.dom());
        assert(self.keys@.no_duplicates());
        self.keys@.unique_seq_to_set();
        vstd::seq_lib::seq_to_set_is_finite(self.keys@);
    }

    proof fn lemma_entry(&self, i: int)
        requires
            self.wf(),
            0 <= i < self.keys@.len(),
        ensures
            self@.contains_key(self.keys@[i]),
            self@[self.keys@[i]] == self.values@[i]@,
    {
        let k = self.keys@[i];
        assert(self.keys@.contains(k));
        let j = self.keys@.index_of(k);
        assert(self.keys@[j] == k);
        if j < i {
            assert(self.keys@[j] < self.keys@[i]);
        } else if i < j {
            assert(self.keys@[i] < self.keys@[j]);
        }
    }

    /// An empty map.
    pub fn new() -> (m: AddressMap)
        ensures
            m.wf(),
            m@ == Map::<u64, Option<FormView>>::empty(),
    {
        let m = AddressMap { keys: Vec::new(), values: Vec::new() };
        assert(m@ =~= Map::<u64, Option<FormView>>::empty());
        m
    }

    /// The number of keys.
    pub fn len(&self) -> (n: usize)
        requires
            self.wf(),
        ensures
            n == self.ordered_keys().len(),
            n == self@.dom().len(),
    {
        proof {
            self.lemma_ordered_keys();
        }
        self.keys.len()
    }

    /// The key at position `i` of the ascending order.
    pub fn key_at(&self, i: usize) -> (k: u64)
        requires
            self.wf(),
            i < self.ordered_keys().len(),
        ensures
            k == self.ordered_keys()[i as int],
            self@.contains_key(k),
    {
        proof {
            self.lemma_entry(i as int);
        }
        self.keys[i]
    }

    /// The record at position `i` of the ascending order.
    pub fn value_at(&self, i: usize) -> (v: &InstructionDisassembly)
        requires
            self.wf(),
            i < self.ordered_keys().len(),
        ensures
            v@ == self@[self.ordered_keys()[i as int]],
    {
        proof {
            self.lemma_entry(i as int);
        }
        &self.values[i]
    }

    /// The number of keys below `key`, found by halving.
    fn lower_bound(&self, key: u64) -> (i: usize)
        requires
            self.wf(),
        ensures
            i <= self.keys@.len(),
            forall|j: int| 0 <= j < i ==> self.keys@[j] < key,
            forall|j: int| i <= j < self.keys@.len() ==> key <= self.keys@[j],
    {
        let mut low: usize = 0;
        let mut high: usize = self.keys.len();
        while low < high
            invariant
                self.wf(),
                low <= high <= self.keys@.len(),
                forall|j: int| 0 <= j < low ==> self.keys@[j] < key,
                forall|j: int| high <= j < self.keys@.len() ==> key <= self.keys@[j],
            decreases high - low,
        {
            let mid: usize = low + (high - low) / 2;
            if self.keys[mid] < key {
                assert forall|j: int| 0 <= j < mid + 1 implies self.keys@[j] < key by {
                    if j < mid {
                        assert(self.keys@[j] < self.keys@[mid as int]);
                    }
                }
                low = mid + 1;
            } else {
                assert forall|j: int| mid <= j < self.keys@.len() implies key <= self.keys@[j] by {
                    if mid < j {
                        assert(self.keys@[mid as int] < self.keys@[j]);
                    }
                }
                high = mid;
            }
        }
        low
    }

    /// Whether `key` is in the map.
    pub fn contains_key(&self, key: u64) -> (found: bool)
        requires
            self.wf(),
        ensures
            found == self@.contains_key(key),
    {
        let i = self.lower_bound(key);
        if i < self.keys.len() && self.keys[i] == key {
            proof {
                self.lemma_entry(i as int);
            }
            true
        } else {
            proof {
                if self.keys@.contains(key) {
                    let j = self.keys@.index_of(key);
                    assert(self.keys@[j] == key);
                }
            }
            false
        }
    }

    /// The record at `key`, if there is one.
    pub fn get(&self, key: u64) -> (record: Option<&InstructionDisassembly>)
        requires
            self.wf(),
        ensures
            record is Some == self@.contains_key(key),
            record matches Some(v) ==> v@ == self@[key],
    {
        let i = self.lower_bound(key);
        if i < self.keys.len() && self.keys[i] == key {
            proof {
                self.lemma_entry(i as int);
            }
            Some(&self.values[i])
        } else {
            proof {
                if self.keys@.contains(key) {
                    let j = self.keys@.index_of(key);
                    assert(self.keys@[j] == key);
                }
            }
            None
        }
    }

    /// The least key above `key`, if there is one.
    pub fn successor(&self, key: u64) -> (next: Option<u64>)
        requires
            self.wf(),
        ensures
            next == successor_of(self@.dom(), key),
    {
        let i = self.lower_bound(key);
        let at: usize = if i < self.keys.len() && self.keys[i] == key {
            i + 1
        } else {
            i
        };
        proof {
            assert forall|j: int| at <= j < self.keys@.len() implies key < self.keys@[j] by {
                if j > i {
                    assert(self.keys@[i as int] < self.keys@[j]);
                }
            }
            assert forall|j: int| 0 <= j < at implies self.keys@[j] <= key by {}
        }
        if at < self.keys.len() {
            let k = self.keys[at];
            proof {
                self.lemma_entry(at as int);
                assert forall|j: u64| self@.dom().contains(j) && key < j implies k <= j by {
                    let p = self.keys@.index_of(j);
                    assert(self.keys@[p] == j);
                    if p > at {
                        assert(self.keys@[at as int] < self.keys@[p]);
                    }
                }
                assert(is_successor(self@.dom(), key, k));
                let c = choose|c: u64| is_successor(self@.dom(), key, c);
                lemma_successor_unique(self@.dom(), key, k, c);
            }
            Some(k)
        } else {
            proof {
                assert forall|c: u64| !is_successor(self@.dom(), key, c) by {
                    if is_successor(self@.dom(), key, c) {
                        let p = self.keys@.index_of(c);
                        assert(self.keys@[p] == c);
                    }
                }
            }
            None
        }
    }

    /// Records `value` at `key` unless the map has a record there already:
    /// the first record of an address stays.
    pub fn insert_if_absent(&mut self, key: u64, value: InstructionDisassembly) -> (added: bool)
        requires
            old(self).wf(),
        ensures
            final(self).wf(),
            added == !old(self)@.contains_key(key),
            final(self)@ == if added {
                old(self)@.insert(key, value@)
            } else {
                old(self)@
            },
    {
        let i = self.lower_bound(key);
        if i < self.keys.len() && self.keys[i] == key {
            proof {
                self.lemma_entry(i as int);
            }
            return false;
        }
        proof {
            if self.keys@.contains(key) {
                let j = self.keys@.index_of(key);
                assert(self.keys@[j] == key);
            }
        }
        let ghost before = *self;
        self.keys.insert(i, key);
        self.values.insert(i, value);
        proof {
            let ks = before.keys@;
            let ns = self.keys@;
            assert(ns == ks.insert(i as int, key));
            assert forall|a: int, b: int| 0 <= a < b < ns.len() implies ns[a] < ns[b] by {
                let pa = if a < i { a } else { a - 1 };
                let pb = if b < i { b } else { b - 1 };
                if a != i && b != i {
                    assert(ns[a] == ks[pa]);
                    assert(ns[b] == ks[pb]);
                    assert(ks[pa] < ks[pb]);
                } else if a == i {
                    assert(ns[b] == ks[pb]);
                } else {
                    assert(ns[a] == ks[pa]);
                }
            }
            assert(self.wf());
            let target = before@.insert(key, value@);
            assert forall|k: u64| self@.contains_key(k) == target.contains_key(k) by {
                if ns.contains(k) {
                    let p = ns.index_of(k);
                    assert(ns[p] == k);
                    if p != i {
                        let q = if p < i { p } else { p - 1 };
                        assert(ks[q] == k);
                    }
                }
                if ks.contains(k) {
                    let q = ks.index_of(k);
                    assert(ks[q] == k);
                    let p = if q < i { q } else { q + 1 };
                    assert(ns[p] == k);
                }
                if k == key {
                    assert(ns[i as int] == k);
                }
            }
            assert forall|k: u64| self@.contains_key(k) implies self@[k] == target[k] by {
                let p = ns.index_of(k);
                assert(ns[p] == k);
                self.lemma_entry(p);
                if p == i {
                    assert(self.values@[p] == value);
                } else {
                    let q = if p < i { p } else { p - 1 };
                    assert(ks[q] == k);
                    before.lemma_entry(q);
                    assert(self.values@[p] == before.values@[q]);
                }
            }
            assert(self@ =~= target);
        }
        true
    }
}

} // verus!
