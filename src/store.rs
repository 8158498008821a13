use vstd::prelude::*;
use crate::distance::Distance;

verus! {

/// Byte-string equality.
pub fn bytes_eq(a: &Vec<u8>, b: &Vec<u8>) -> (r: bool)
    ensures
        r == (a@ == b@),
{
    if a.len() != b.len() {
        return false;
    }
    let mut i: usize = 0;
    while i < a.len()
        invariant
            a@.len() == b@.len(),
            i <= a@.len(),
            forall|j: int| 0 <= j < i ==> a@[j] == b@[j],
        decreases a@.len() - i,
    {
        if a[i] != b[i] {
            return false;
        }
        i = i + 1;
    }
    assert(a@ =~= b@);
    true
}

/// A local content store: encoded content keys mapped to content bodies, kept in
/// order of first insertion, together with the radius that the node declares.
pub struct ContentStore {
    keys: Vec<Vec<u8>>,
    values: Vec<Vec<u8>>,
    radius: Distance,
    max_entries: usize,
}

/// Why the store refused a write.
#[derive(Clone, Copy, Debug, PartialEq, Eq, Structural)]
pub enum StoreError {
    /// A new key would take the store past the number of entries it holds at most.
    Full,
}

impl ContentStore {
    /// The stored keys, in order of first insertion.
    pub closed spec fn key_seq(&self) -> Seq<Seq<u8>> {
        self.keys@.map_values(|k: Vec<u8>| k@)
    }

    pub closed spec fn wf(&self) -> bool {
        &&& self.keys@.len() == self.values@.len()
        &&& self.keys@.len() <= self.max_entries
        &&& forall|i: int, j: int|
            0 <= i < j < self.keys@.len() ==> #[trigger] self.keys@[i]@ != #[trigger] self.keys@[j]@
    }

    pub closed spec fn has(&self, k: Seq<u8>) -> bool {
        exists|i: int| 0 <= i < self.keys@.len() && #[trigger] self.keys@[i]@ == k
    }

    /// What the store holds under a key.
    pub closed spec fn lookup(&self, k: Seq<u8>) -> Option<Seq<u8>> {
        if self.has(k) {
            let i = choose|i: int| 0 <= i < self.keys@.len() && #[trigger] self.keys@[i]@ == k;
            Some(self.values@[i]@)
        } else {
            None
        }
    }

    pub closed spec fn radius_spec(&self) -> Distance {
        self.radius
    }

    /// The number of entries the store holds at most.
    pub closed spec fn max_entries_spec(&self) -> nat {
        self.max_entries as nat
    }

    /// An empty store that declares the given radius and holds at most `max_entries` entries.
    pub fn new(radius: Distance, max_entries: usize) -> (r: ContentStore)
        ensures
            r.wf(),
            r.key_seq() == Seq::<Seq<u8>>::empty(),
            forall|k: Seq<u8>| r.lookup(k) is None,
            r.radius_spec() == radius,
            r.max_entries_spec() == max_entries,
    {
        let r = ContentStore { keys: Vec::new(), values: Vec::new(), radius, max_entries };
        assert(r.key_seq() =~= Seq::<Seq<u8>>::empty());
        r
    }

    /// The radius that this store declares.
    pub fn radius(&self) -> (r: Distance)
        ensures
            r == self.radius_spec(),
    {
        self.radius
    }

    fn position(&self, key: &Vec<u8>) -> (r: Option<usize>)
        requires
            self.wf(),
        ensures
            match r {
                Some(i) => i < self.keys@.len() && self.keys@[i as int]@ == key@,
                None => !self.has(key@),
            },
    {
        let mut i: usize = 0;
        while i < self.keys.len()
            invariant
                i <= self.keys@.len(),
                forall|j: int| 0 <= j < i ==> #[trigger] self.keys@[j]@ != key@,
            decreases self.keys@.len() - i,
        {
            if bytes_eq(&self.keys[i], key) {
                return Some(i);
            }
            i = i + 1;
        }
        None
    }

    /// The content body stored under a key, if any.
    pub fn get(&self, key: &Vec<u8>) -> (r: Option<Vec<u8>>)
        requires
            self.wf(),
        ensures
            r matches Some(v) ==> self.lookup(key@) == Some(v@),
            r is None ==> self.lookup(key@) is None,
    {
        match self.position(key) {
            Some(i) => {
                let ghost j = choose|j: int| 0 <= j < self.keys@.len() && #[trigger] self.keys@[j]@ == key@;
                assert(j == i as int);
                let c = self.values[i].clone();
                assert(c@ =~= self.values@[i as int]@);
                Some(c)
            },
            None => None,
        }
    }

    /// Stores a body under a key, replacing what was stored under it before. A new key
    /// is refused when the store already holds its most entries; the store is then unchanged.
    pub fn put(&mut self, key: Vec<u8>, value: Vec<u8>) -> (r: Result<(), StoreError>)
        requires
            old(self).wf(),
        ensures
            final(self).wf(),
            final(self).radius_spec() == old(self).radius_spec(),
            final(self).max_entries_spec() == old(self).max_entries_spec(),
            r is Err <==> (!old(self).has(key@) && old(self).key_seq().len() >= old(self).max_entries_spec()),
            r is Err ==> r == Err::<(), StoreError>(StoreError::Full) && *final(self) == *old(self),
            r is Ok ==> final(self).lookup(key@) == Some(value@),
            r is Ok ==> forall|k: Seq<u8>| k != key@ ==> #[trigger] final(self).lookup(k) == old(self).lookup(k),
            r is Ok && old(self).has(key@) ==> final(self).key_seq() == old(self).key_seq(),
            r is Ok && !old(self).has(key@) ==> final(self).key_seq() == old(self).key_seq().push(key@),
    {
        let ghost pre = *self;
        match self.position(&key) {
            Some(i) => {
                self.values.set(i, value);
                assert(self.keys@ == pre.keys@);
                assert(self.lookup(key@) == Some(value@)) by {
                    let j = choose|j: int| 0 <= j < self.keys@.len() && #[trigger] self.keys@[j]@ == key@;
                    assert(j == i as int);
                }
                assert forall|k: Seq<u8>| k != key@ implies #[trigger] self.lookup(k) == pre.lookup(k) by {
                    if pre.has(k) {
                        let j = choose|j: int| 0 <= j < pre.keys@.len() && #[trigger] pre.keys@[j]@ == k;
                        assert(self.keys@[j]@ == k);
                        assert(j != i);
                    }
                }
            },
            None => {
                if self.keys.len() >= self.max_entries {
                    return Err(StoreError::Full);
                }
                proof {
                    assert(pre.key_seq().push(key@) =~= pre.keys@.push(key).map_values(|k: Vec<u8>| k@));
                }
                self.keys.push(key);
                self.values.push(value);
                let n = self.keys.len() - 1;
                assert(self.keys@[n as int]@ == key@);
                assert(self.lookup(key@) == Some(value@)) by {
                    let j = choose|j: int| 0 <= j < self.keys@.len() && #[trigger] self.keys@[j]@ == key@;
                    assert(j == n as int);
                }
                assert forall|k: Seq<u8>| k != key@ implies #[trigger] self.lookup(k) == pre.lookup(k) by {
                    if pre.has(k) {
                        let j = choose|j: int| 0 <= j < pre.keys@.len() && #[trigger] pre.keys@[j]@ == k;
                        assert(self.keys@[j]@ == k);
                    }
                    if self.has(k) {
                        let j = choose|j: int| 0 <= j < self.keys@.len() && #[trigger] self.keys@[j]@ == k;
                        assert(j < n);
                        assert(pre.keys@[j]@ == k);
                    }
                }
            },
        }
        Ok(())
    }

    /// Up to `limit` stored keys, starting at position `offset` in order of insertion.
    pub fn paginate(&self, offset: u64, limit: u64) -> (r: Vec<Vec<u8>>)
        requires
            self.wf(),
        ensures
            r@.map_values(|k: Vec<u8>| k@) == self.key_seq().subrange(
                if offset as int <= self.key_seq().len() { offset as int } else { self.key_seq().len() as int },
                if offset as int + limit as int <= self.key_seq().len() { offset as int + limit as int } else { self.key_seq().len() as int },
            ),
    {
        let n = self.keys.len();
        let start: usize = if (offset as u128) <= (n as u128) { offset as usize } else { n };
        let end: usize = if (offset as u128) + (limit as u128) <= (n as u128) { (offset + limit) as usize } else { n };
        let mut r: Vec<Vec<u8>> = Vec::new();
        let mut i: usize = start;
        while i < end
            invariant
                start <= i <= end,
                end <= self.keys@.len(),
                r@.len() == i - start,
                forall|j: int| 0 <= j < r@.len() ==> #[trigger] r@[j]@ == self.keys@[start + j]@,
            decreases end - i,
        {
            let c = self.keys[i].clone();
            assert(c@ =~= self.keys@[i as int]@);
            r.push(c);
            i = i + 1;
        }
        assert(r@.map_values(|k: Vec<u8>| k@) =~= self.key_seq().subrange(start as int, end as int));
        r
    }
}

} // verus!
