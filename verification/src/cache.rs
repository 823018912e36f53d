//! The expiring store: byte keys to byte values, each with an optional
//! deadline. An entry past its deadline is absent to every reader, and leaves
//! the store when it is next looked up; nothing else removes entries.

use crate::clock::Clock;
use crate::text::bytes_eq;
use vstd::prelude::*;

verus! {

/// One entry of the store. The deadline is a reading of the store's clock, in
/// milliseconds; the entry is expired once the clock reads more.
pub struct StoreEntry {
    pub key: Vec<u8>,
    pub value: Vec<u8>,
    pub expires_at: Option<u64>,
}

/// What the store holds under each key: the value and the deadline.
pub type Store = Map<Seq<u8>, (Seq<u8>, Option<u64>)>;

/// Whether a deadline has passed when the clock reads `now`.
pub open spec fn expired(deadline: Option<u64>, now: u64) -> bool {
    deadline matches Some(t) && now > t
}

/// What a reader finds under `key` when the clock reads `now`: the value of
/// the entry, unless there is none or it has expired.
pub open spec fn lookup(store: Store, key: Seq<u8>, now: u64) -> Option<Seq<u8>> {
    if store.contains_key(key) && !expired(store[key].1, now) {
        Some(store[key].0)
    } else {
        None
    }
}

/// The store after a lookup of `key` when the clock reads `now`: without the
/// entry if it has expired, else unchanged.
pub open spec fn after_lookup(store: Store, key: Seq<u8>, now: u64) -> Store {
    if store.contains_key(key) && expired(store[key].1, now) {
        store.remove(key)
    } else {
        store
    }
}

/// The entry that an insertion under `key` replaces.
pub open spec fn replaced(store: Store, key: Seq<u8>) -> Option<(Seq<u8>, Option<u64>)> {
    if store.contains_key(key) {
        Some(store[key])
    } else {
        None
    }
}

/// The store. Keys are unique; there is no bound on the number of entries.
pub struct Cache {
    entries: Vec<StoreEntry>,
    clock: Clock,
}

/// Whether no two entries have the same key.
spec fn distinct_keys(entries: Seq<StoreEntry>) -> bool {
    forall|i: int, j: int|
        0 <= i < entries.len() && 0 <= j < entries.len() && i != j ==> entries[i].key@
            != entries[j].key@
}

/// Whether an entry of `entries` has the key `key`.
spec fn has_key(entries: Seq<StoreEntry>, key: Seq<u8>) -> bool {
    exists|i: int| 0 <= i < entries.len() && #[trigger] entries[i].key@ == key
}

/// The index of an entry of `entries` with the key `key`.
spec fn index_of(entries: Seq<StoreEntry>, key: Seq<u8>) -> int {
    choose|i: int| 0 <= i < entries.len() && #[trigger] entries[i].key@ == key
}

/// The mapping that a list of entries stands for.
spec fn store_of(entries: Seq<StoreEntry>) -> Store {
    Map::new(
        |key: Seq<u8>| has_key(entries, key),
        |key: Seq<u8>|
            (entries[index_of(entries, key)].value@, entries[index_of(entries, key)].expires_at),
    )
}

proof fn lemma_store_of(entries: Seq<StoreEntry>, i: int)
    requires
        distinct_keys(entries),
        0 <= i < entries.len(),
    ensures
        store_of(entries).contains_key(entries[i].key@),
        store_of(entries)[entries[i].key@] == (entries[i].value@, entries[i].expires_at),
{
    let key = entries[i].key@;
    assert(has_key(entries, key));
    let j = index_of(entries, key);
    assert(i == j);
}

proof fn lemma_store_absent(entries: Seq<StoreEntry>, key: Seq<u8>)
    requires
        forall|i: int| 0 <= i < entries.len() ==> (#[trigger] entries[i]).key@ != key,
    ensures
        !store_of(entries).contains_key(key),
{
}

proof fn lemma_store_push(entries: Seq<StoreEntry>, entry: StoreEntry)
    requires
        distinct_keys(entries),
        !store_of(entries).contains_key(entry.key@),
    ensures
        distinct_keys(entries.push(entry)),
        store_of(entries.push(entry)) == store_of(entries).insert(
            entry.key@,
            (entry.value@, entry.expires_at),
        ),
{
    let more = entries.push(entry);
    let n = entries.len() as int;
    assert forall|i: int, j: int| 0 <= i < more.len() && 0 <= j < more.len() && i != j implies more[i].key@
        != more[j].key@ by {
        if i < n && j < n {
        } else if i < n {
            assert(has_key(entries, entries[i].key@));
        } else {
            assert(has_key(entries, entries[j].key@));
        }
    }
    let target = store_of(entries).insert(entry.key@, (entry.value@, entry.expires_at));
    assert forall|key: Seq<u8>| store_of(more).contains_key(key) == target.contains_key(key) by {
        if has_key(more, key) {
            let i = index_of(more, key);
            if i < n {
                assert(entries[i].key@ == key);
            }
        }
        if has_key(entries, key) {
            let i = index_of(entries, key);
            assert(more[i].key@ == key);
        }
        if key == entry.key@ {
            assert(more[n].key@ == key);
        }
    }
    assert forall|key: Seq<u8>| store_of(more).contains_key(key) implies store_of(more)[key]
        == target[key] by {
        let i = index_of(more, key);
        lemma_store_of(more, i);
        if i < n {
            lemma_store_of(entries, i);
        }
    }
    assert(store_of(more) =~= target);
}

proof fn lemma_store_swap_remove(entries: Seq<StoreEntry>, i: int)
    requires
        distinct_keys(entries),
        0 <= i < entries.len(),
    ensures
        distinct_keys(entries.update(i, entries.last()).drop_last()),
        store_of(entries.update(i, entries.last()).drop_last()) == store_of(entries).remove(
            entries[i].key@,
        ),
{
    let less = entries.update(i, entries.last()).drop_last();
    let n = entries.len() as int;
    let gone = entries[i].key@;
    assert forall|a: int| 0 <= a < less.len() implies (#[trigger] less[a]) == entries[if a == i {
        n - 1
    } else {
        a
    }] by {}
    assert forall|a: int, b: int| 0 <= a < less.len() && 0 <= b < less.len() && a != b implies less[a].key@
        != less[b].key@ by {
        let a2 = if a == i {
            n - 1
        } else {
            a
        };
        let b2 = if b == i {
            n - 1
        } else {
            b
        };
        assert(less[a] == entries[a2] && less[b] == entries[b2]);
    }
    let target = store_of(entries).remove(gone);
    assert forall|key: Seq<u8>| store_of(less).contains_key(key) == target.contains_key(key) by {
        if has_key(less, key) {
            let a = index_of(less, key);
            let a2 = if a == i {
                n - 1
            } else {
                a
            };
            assert(less[a] == entries[a2]);
            assert(entries[a2].key@ == key);
        }
        if has_key(entries, key) && key != gone {
            let a = index_of(entries, key);
            let a2 = if a == n - 1 {
                i
            } else {
                a
            };
            assert(less[a2] == entries[a]);
            assert(less[a2].key@ == key);
        }
    }
    assert forall|key: Seq<u8>| store_of(less).contains_key(key) implies store_of(less)[key]
        == target[key] by {
        let a = index_of(less, key);
        let a2 = if a == i {
            n - 1
        } else {
            a
        };
        assert(less[a] == entries[a2]);
        lemma_store_of(less, a);
        lemma_store_of(entries, a2);
    }
    assert(store_of(less) =~= target);
}

fn copy_bytes(bytes: &Vec<u8>) -> (res: Vec<u8>)
    ensures
        res@ == bytes@,
{
    let mut res: Vec<u8> = Vec::new();
    let n = bytes.len();
    let mut i: usize = 0;
    while i < n
        invariant
            0 <= i <= n,
            n == bytes@.len(),
            res@ == bytes@.take(i as int),
        decreases n - i,
    {
        res.push(bytes[i]);
        i = i + 1;
        assert(res@ =~= bytes@.take(i as int));
    }
    assert(bytes@.take(n as int) =~= bytes@);
    res
}

impl View for Cache {
    type V = Store;

    closed spec fn view(&self) -> Store {
        store_of(self.entries@)
    }
}

impl Cache {
    /// Whether the store is well-formed: no two entries have the same key.
    /// Every store that this module hands out is.
    pub closed spec fn wf(&self) -> bool {
        distinct_keys(self.entries@)
    }

    /// An empty store, with a clock of its own that starts now.
    pub fn new() -> (cache: Cache)
        ensures
            cache.wf(),
            cache@ == Map::<Seq<u8>, (Seq<u8>, Option<u64>)>::empty(),
    {
        let cache = Cache { entries: Vec::new(), clock: Clock::new() };
        assert(cache@ =~= Map::<Seq<u8>, (Seq<u8>, Option<u64>)>::empty());
        cache
    }

    /// What the store's clock reads: the milliseconds since the store was made.
    pub fn now(&self) -> u64 {
        self.clock.now()
    }

    fn find(&self, key: &Vec<u8>) -> (res: Option<usize>)
        ensures
            match res {
                Some(i) => i < self.entries@.len() && self.entries@[i as int].key@ == key@,
                None => !self@.contains_key(key@),
            },
    {
        let n = self.entries.len();
        let mut i: usize = 0;
        while i < n
            invariant
                0 <= i <= n,
                n == self.entries@.len(),
                forall|j: int| 0 <= j < i ==> (#[trigger] self.entries@[j]).key@ != key@,
            decreases n - i,
        {
            if bytes_eq(self.entries[i].key.as_slice(), key.as_slice()) {
                return Some(i);
            }
            i = i + 1;
        }
        proof {
            lemma_store_absent(self.entries@, key@);
        }
        None
    }

    /// Puts `value` under `key` with the deadline `expiry_time`, whatever was
    /// there, and returns the entry that it replaced: its value and deadline.
    pub fn insert(&mut self, key: Vec<u8>, value: Vec<u8>, expiry_time: Option<u64>) -> (res:
        Option<(Vec<u8>, Option<u64>)>)
        requires
            old(self).wf(),
        ensures
            final(self).wf(),
            final(self)@ == old(self)@.insert(key@, (value@, expiry_time)),
            match res {
                Some((previous, deadline)) => replaced(old(self)@, key@) == Some(
                    (previous@, deadline),
                ),
                None => replaced(old(self)@, key@) is None,
            },
    {
        let found = self.find(&key);
        let entry = StoreEntry { key, value, expires_at: expiry_time };
        match found {
            Some(i) => {
                proof {
                    lemma_store_of(self.entries@, i as int);
                    lemma_store_swap_remove(self.entries@, i as int);
                }
                let previous = self.entries.swap_remove(i);
                proof {
                    lemma_store_push(self.entries@, entry);
                    assert(old(self)@.remove(entry.key@).insert(
                        entry.key@,
                        (entry.value@, entry.expires_at),
                    ) =~= old(self)@.insert(entry.key@, (entry.value@, entry.expires_at)));
                }
                self.entries.push(entry);
                Some((previous.value, previous.expires_at))
            },
            None => {
                proof {
                    lemma_store_push(self.entries@, entry);
                }
                self.entries.push(entry);
                None
            },
        }
    }

    /// Looks `key` up when the clock reads `now`.
    ///
    /// An entry whose deadline has passed is removed, and nothing is found;
    /// any other entry gives its value and stays.
    pub fn get_at(&mut self, key: &Vec<u8>, now: u64) -> (res: Option<Vec<u8>>)
        requires
            old(self).wf(),
        ensures
            final(self).wf(),
            final(self)@ == after_lookup(old(self)@, key@, now),
            match res {
                Some(value) => lookup(old(self)@, key@, now) == Some(value@),
                None => lookup(old(self)@, key@, now) is None,
            },
    {
        match self.find(key) {
            Some(i) => {
                proof {
                    lemma_store_of(self.entries@, i as int);
                }
                let late = match self.entries[i].expires_at {
                    Some(deadline) => now > deadline,
                    None => false,
                };
                if late {
                    proof {
                        lemma_store_swap_remove(self.entries@, i as int);
                    }
                    self.entries.swap_remove(i);
                    None
                } else {
                    Some(copy_bytes(&self.entries[i].value))
                }
            },
            None => None,
        }
    }

    /// Looks `key` up at the present reading of the store's clock: what
    /// [`Cache::get_at`] does at some reading `now`.
    pub fn get(&mut self, key: &Vec<u8>) -> (res: Option<Vec<u8>>)
        requires
            old(self).wf(),
        ensures
            final(self).wf(),
            exists|now: u64|
                {
                    &&& final(self)@ == after_lookup(old(self)@, key@, now)
                    &&& match res {
                        Some(value) => #[trigger] lookup(old(self)@, key@, now) == Some(value@),
                        None => lookup(old(self)@, key@, now) is None,
                    }
                },
    {
        let now = self.now();
        let res = self.get_at(key, now);
        proof {
            let found = lookup(old(self)@, key@, now);
        }
        res
    }
}

/// Reading a key that has no deadline leaves the store as it is, and gives the
/// same answer at every later reading of the clock.
pub proof fn lemma_lookup_idempotent(store: Store, key: Seq<u8>, first: u64, second: u64)
    requires
        store.contains_key(key) ==> store[key].1 is None,
    ensures
        after_lookup(store, key, first) == store,
        lookup(after_lookup(store, key, first), key, second) == lookup(store, key, first),
{
}

/// An entry written with a deadline is found as long as the clock reads no
/// more than the deadline, and stays. Once the clock reads more it is not
/// found, and the lookup removes it: a value written under the key afterwards
/// without a deadline is found at every reading of the clock.
pub proof fn lemma_expiry_boundary(
    store: Store,
    key: Seq<u8>,
    value: Seq<u8>,
    deadline: u64,
    now: u64,
)
    ensures
        ({
            let written = store.insert(key, (value, Some(deadline)));
            let read = after_lookup(written, key, now);
            &&& now <= deadline ==> lookup(written, key, now) == Some(value) && read == written
            &&& now > deadline ==> lookup(written, key, now) is None && !read.contains_key(key)
                && read == store.remove(key)
            &&& now > deadline ==> forall|again: Seq<u8>, later: u64|
                #[trigger] lookup(read.insert(key, (again, None)), key, later) == Some(again)
        }),
{
    let written = store.insert(key, (value, Some(deadline)));
    if now > deadline {
        assert(written.remove(key) =~= store.remove(key));
    }
}

} // verus!
