//! The key directory: for every live key, where its latest value lies.

use vstd::prelude::*;

verus! {

/// Entry in the key directory mapping a key to its location in a segment.
#[derive(Debug, Clone, Copy, PartialEq, Eq, Structural)]
pub struct KeyDirEntry {
    /// Id of the segment that holds the value
    pub file_id: u64,
    /// Size of the value in bytes
    pub value_size: u32,
    /// Offset of the value within the segment
    pub value_position: u64,
    /// Timestamp of the record that wrote the value
    pub timestamp: u64,
}

/// Whether two byte strings are equal.
pub fn bytes_eq(a: &[u8], b: &[u8]) -> (r: bool)
    ensures
        r == (a@ == b@),
{
    if a.len() != b.len() {
        return false;
    }
    let mut i: usize = 0;
    while i < a.len()
        invariant
            i <= a@.len(),
            a@.len() == b@.len(),
            forall|j: int| 0 <= j < i ==> a@[j] == b@[j],
        decreases a@.len() - i,
    {
        if a[i] != b[i] {
            return false;
        }
        i += 1;
    }
    assert(a@ =~= b@);
    true
}

/// Whether `a` comes before `b` in lexicographic order, given that the two
/// agree before index `i`.
pub open spec fn precedes_from(a: Seq<u8>, b: Seq<u8>, i: int) -> bool
    decreases a.len() - i,
{
    if i >= b.len() {
        false
    } else if i >= a.len() {
        true
    } else if a[i] != b[i] {
        a[i] < b[i]
    } else {
        precedes_from(a, b, i + 1)
    }
}

/// Whether `a` comes before `b` in lexicographic order.
pub open spec fn precedes(a: Seq<u8>, b: Seq<u8>) -> bool {
    precedes_from(a, b, 0)
}

/// No byte string comes before itself.
pub proof fn lemma_irreflexive(a: Seq<u8>, i: int)
    requires
        0 <= i,
    ensures
        !precedes_from(a, a, i),
    decreases a.len() - i,
{
    if i < a.len() {
        lemma_irreflexive(a, i + 1);
    }
}

/// The lexicographic order is transitive.
pub proof fn lemma_transitive(a: Seq<u8>, b: Seq<u8>, c: Seq<u8>, i: int)
    requires
        0 <= i,
        precedes_from(a, b, i),
        precedes_from(b, c, i),
    ensures
        precedes_from(a, c, i),
    decreases a.len() - i,
{
    if i < a.len() && i < b.len() && i < c.len() && a[i] == b[i] && b[i] == c[i] {
        lemma_transitive(a, b, c, i + 1);
    }
}

/// How one byte string stands to another in lexicographic order.
#[derive(Debug, Clone, Copy, PartialEq, Eq, Structural)]
pub enum Order {
    /// The first comes before the second
    Before,
    /// The two are equal
    Same,
    /// The first comes after the second
    After,
}

/// Tells how `a` stands to `b` in lexicographic order.
pub fn order_of(a: &[u8], b: &[u8]) -> (r: Order)
    ensures
        r is Before <==> precedes(a@, b@),
        r is Same <==> a@ == b@,
        r is After <==> precedes(b@, a@),
{
    let mut i: usize = 0;
    while i < a.len() && i < b.len()
        invariant
            i <= a@.len(),
            i <= b@.len(),
            forall|j: int| 0 <= j < i ==> a@[j] == b@[j],
            precedes(a@, b@) == precedes_from(a@, b@, i as int),
            precedes(b@, a@) == precedes_from(b@, a@, i as int),
        decreases a@.len() - i,
    {
        if a[i] < b[i] {
            return Order::Before;
        }
        if a[i] > b[i] {
            return Order::After;
        }
        i += 1;
    }
    if a.len() < b.len() {
        Order::Before
    } else if a.len() > b.len() {
        Order::After
    } else {
        assert(a@ =~= b@);
        Order::Same
    }
}

/// A map from key bytes to entries, kept as two vectors of equal length with
/// the keys in strictly ascending lexicographic order, so that a key is found
/// by binary search.
#[derive(Debug)]
pub struct KeyDir {
    pub keys: Vec<Vec<u8>>,
    pub entries: Vec<KeyDirEntry>,
}

impl View for KeyDir {
    type V = Map<Seq<u8>, KeyDirEntry>;

    open spec fn view(&self) -> Map<Seq<u8>, KeyDirEntry> {
        Map::new(|k: Seq<u8>| self.has(k), |k: Seq<u8>| self.entries@[self.index_of(k)])
    }
}

impl KeyDir {
    /// Every key has its entry, and the keys ascend strictly.
    pub open spec fn wf(&self) -> bool {
        &&& self.keys@.len() == self.entries@.len()
        &&& forall|i: int, j: int|
            0 <= i < j < self.keys@.len() ==> precedes(self.keys@[i]@, self.keys@[j]@)
    }

    /// No key occurs twice.
    pub proof fn lemma_distinct(&self)
        requires
            self.wf(),
        ensures
            forall|i: int, j: int|
                0 <= i < j < self.keys@.len() ==> self.keys@[i]@ != self.keys@[j]@,
    {
        assert forall|i: int, j: int| 0 <= i < j < self.keys@.len() implies self.keys@[i]@
            != self.keys@[j]@ by {
            assert(precedes(self.keys@[i]@, self.keys@[j]@));
            lemma_irreflexive(self.keys@[i]@, 0);
        }
    }

    /// Whether the key is in the directory.
    pub open spec fn has(&self, k: Seq<u8>) -> bool {
        exists|i: int| 0 <= i < self.keys@.len() && #[trigger] self.keys@[i]@ == k
    }

    /// The place of a key that is in the directory.
    pub open spec fn index_of(&self, k: Seq<u8>) -> int {
        choose|i: int| 0 <= i < self.keys@.len() && #[trigger] self.keys@[i]@ == k
    }

    /// The key at place `i` is in the directory, with the entry at place `i`.
    pub proof fn lemma_at(&self, i: int)
        requires
            self.wf(),
            0 <= i < self.keys@.len(),
        ensures
            self.has(self.keys@[i]@),
            self.index_of(self.keys@[i]@) == i,
            self@.contains_key(self.keys@[i]@),
            self@[self.keys@[i]@] == self.entries@[i],
    {
        let k = self.keys@[i]@;
        assert(self.keys@[i]@ == k);
        let j = self.index_of(k);
        assert(0 <= j < self.keys@.len() && self.keys@[j]@ == k);
        self.lemma_distinct();
    }

    /// An empty directory.
    pub fn new() -> (kd: Self)
        ensures
            kd.wf(),
            kd@ == Map::<Seq<u8>, KeyDirEntry>::empty(),
    {
        let kd = KeyDir { keys: Vec::new(), entries: Vec::new() };
        assert(kd@ =~= Map::<Seq<u8>, KeyDirEntry>::empty());
        kd
    }

    /// The number of keys.
    pub fn len(&self) -> (n: usize)
        requires
            self.wf(),
        ensures
            n == self.keys@.len(),
    {
        self.keys.len()
    }

    /// Searches for `key`. Where the key is in the directory, gives its place;
    /// where it is not, gives the place at which it would stand: the keys
    /// before that place come before `key`, the others after it.
    pub fn find(&self, key: &[u8]) -> (r: (bool, usize))
        requires
            self.wf(),
        ensures
            r.0 == self.has(key@),
            r.0 ==> r.1 < self.keys@.len() && self.keys@[r.1 as int]@ == key@,
            !r.0 ==> r.1 <= self.keys@.len() && (forall|i: int|
                0 <= i < r.1 ==> precedes(#[trigger] self.keys@[i]@, key@)) && (forall|i: int|
                r.1 <= i < self.keys@.len() ==> precedes(key@, #[trigger] self.keys@[i]@)),
    {
        let mut low: usize = 0;
        let mut high: usize = self.keys.len();
        while low < high
            invariant
                low <= high <= self.keys@.len(),
                self.wf(),
                forall|i: int| 0 <= i < low ==> precedes(#[trigger] self.keys@[i]@, key@),
                forall|i: int|
                    high <= i < self.keys@.len() ==> precedes(key@, #[trigger] self.keys@[i]@),
            decreases high - low,
        {
            let middle: usize = low + (high - low) / 2;
            match order_of(self.keys[middle].as_slice(), key) {
                Order::Same => {
                    return (true, middle);
                },
                Order::Before => {
                    assert forall|i: int| 0 <= i < middle + 1 implies precedes(
                        #[trigger] self.keys@[i]@,
                        key@,
                    ) by {
                        if i < middle {
                            assert(precedes(self.keys@[i]@, self.keys@[middle as int]@));
                            lemma_transitive(self.keys@[i]@, self.keys@[middle as int]@, key@, 0);
                        }
                    }
                    low = middle + 1;
                },
                Order::After => {
                    assert forall|i: int| middle <= i < self.keys@.len() implies precedes(
                        key@,
                        #[trigger] self.keys@[i]@,
                    ) by {
                        if middle < i {
                            assert(precedes(self.keys@[middle as int]@, self.keys@[i]@));
                            lemma_transitive(key@, self.keys@[middle as int]@, self.keys@[i]@, 0);
                        }
                    }
                    high = middle;
                },
            }
        }
        proof {
            if self.has(key@) {
                let i = self.index_of(key@);
                lemma_irreflexive(key@, 0);
            }
        }
        (false, low)
    }

    /// The entry of `key`, if it is in the directory.
    pub fn get(&self, key: &[u8]) -> (r: Option<KeyDirEntry>)
        requires
            self.wf(),
        ensures
            r == (if self@.contains_key(key@) {
                Some(self@[key@])
            } else {
                None
            }),
    {
        let (found, place) = self.find(key);
        if found {
            proof {
                self.lemma_at(place as int);
            }
            Some(self.entries[place])
        } else {
            None
        }
    }

    /// Sets the entry of `key`, whether or not the key was there.
    pub fn insert(&mut self, key: Vec<u8>, entry: KeyDirEntry)
        requires
            old(self).wf(),
        ensures
            final(self).wf(),
            final(self)@ == old(self)@.insert(key@, entry),
    {
        let (found, place) = self.find(key.as_slice());
        if found {
            self.set_entry(place, entry);
        } else {
            let ghost k = key@;
            self.keys.insert(place, key);
            self.entries.insert(place, entry);
            proof {
                assert(self.wf()) by {
                    assert forall|a: int, b: int| 0 <= a < b < self.keys@.len() implies precedes(
                        self.keys@[a]@,
                        self.keys@[b]@,
                    ) by {
                        let a0 = if a < place { a } else { a - 1 };
                        let b0 = if b < place { b } else { b - 1 };
                        if a != place {
                            assert(self.keys@[a] == old(self).keys@[a0]);
                        }
                        if b != place {
                            assert(self.keys@[b] == old(self).keys@[b0]);
                        }
                    }
                }
                self.lemma_at(place as int);
                assert forall|x: Seq<u8>| #[trigger]
                    self@.contains_key(x) == old(self)@.insert(k, entry).contains_key(x) by {
                    if old(self).has(x) {
                        let j = old(self).index_of(x);
                        let j1 = if j < place { j } else { j + 1 };
                        assert(self.keys@[j1]@ == x);
                    }
                    if self.has(x) && x != k {
                        let j = self.index_of(x);
                        let j0 = if j < place { j } else { j - 1 };
                        assert(old(self).keys@[j0]@ == x);
                    }
                }
                assert forall|x: Seq<u8>| #[trigger] self@.contains_key(x) implies self@[x]
                    == old(self)@.insert(k, entry)[x] by {
                    if x != k {
                        let j = old(self).index_of(x);
                        assert(old(self).keys@[j]@ == x);
                        let j1 = if j < place { j } else { j + 1 };
                        old(self).lemma_at(j);
                        assert(self.keys@[j1]@ == x);
                        self.lemma_at(j1);
                    }
                }
                assert(self@ =~= old(self)@.insert(k, entry));
            }
        }
    }

    /// Replaces the entry at place `i`.
    pub fn set_entry(&mut self, i: usize, entry: KeyDirEntry)
        requires
            old(self).wf(),
            i < old(self).keys@.len(),
        ensures
            final(self).wf(),
            final(self).keys == old(self).keys,
            final(self).entries@ == old(self).entries@.update(i as int, entry),
            final(self)@ == old(self)@.insert(old(self).keys@[i as int]@, entry),
    {
        self.entries.set(i, entry);
        proof {
            let key = self.keys@[i as int]@;
            self.lemma_at(i as int);
            assert forall|k: Seq<u8>| #[trigger]
                self@.contains_key(k) == old(self)@.insert(key, entry).contains_key(k) by {
                if old(self).has(k) {
                    let j = old(self).index_of(k);
                    assert(self.keys@[j]@ == k);
                }
                if self.has(k) {
                    let j = self.index_of(k);
                    assert(old(self).keys@[j]@ == k);
                }
            }
            assert forall|k: Seq<u8>| #[trigger] self@.contains_key(k) implies self@[k] == old(
                self,
            )@.insert(key, entry)[k] by {
                if k != key {
                    let j = old(self).index_of(k);
                    assert(old(self).keys@[j]@ == k);
                    old(self).lemma_at(j);
                    self.lemma_at(j);
                }
            }
            assert(self@ =~= old(self)@.insert(key, entry));
        }
    }

    /// Takes `key` out of the directory, if it is there.
    pub fn remove(&mut self, key: &[u8])
        requires
            old(self).wf(),
        ensures
            final(self).wf(),
            final(self)@ == old(self)@.remove(key@),
    {
        let (found, i) = self.find(key);
        if found {
            self.keys.remove(i);
            self.entries.remove(i);
            proof {
                assert(self.wf()) by {
                    assert forall|a: int, b: int| 0 <= a < b < self.keys@.len() implies precedes(
                        self.keys@[a]@,
                        self.keys@[b]@,
                    ) by {
                        let a0 = if a < i { a } else { a + 1 };
                        let b0 = if b < i { b } else { b + 1 };
                        assert(self.keys@[a] == old(self).keys@[a0]);
                        assert(self.keys@[b] == old(self).keys@[b0]);
                    }
                }
                assert forall|k: Seq<u8>| #[trigger]
                    self@.contains_key(k) == old(self)@.remove(key@).contains_key(k) by {
                    if old(self).has(k) && k != key@ {
                        let j = old(self).index_of(k);
                        let j1 = if j < i { j } else { j - 1 };
                        assert(self.keys@[j1]@ == k);
                    }
                    if self.has(k) {
                        let j = self.index_of(k);
                        let j0 = if j < i { j } else { j + 1 };
                        assert(old(self).keys@[j0]@ == k);
                        if k == key@ {
                            old(self).lemma_at(j0);
                            old(self).lemma_at(i as int);
                        }
                    }
                }
                assert forall|k: Seq<u8>| #[trigger] self@.contains_key(k) implies self@[k]
                    == old(self)@.remove(key@)[k] by {
                    let j = self.index_of(k);
                    let j0 = if j < i { j } else { j + 1 };
                    assert(old(self).keys@[j0]@ == k);
                    old(self).lemma_at(j0);
                    self.lemma_at(j);
                }
                assert(self@ =~= old(self)@.remove(key@));
            }
        } else {
            assert(self@ =~= old(self)@.remove(key@));
        }
    }
}

} // verus!
