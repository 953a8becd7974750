//! The store: a map from byte strings to byte strings.

use std::collections::hash_map::DefaultHasher;
use std::collections::HashMap;
use std::hash::Hasher;
use vstd::prelude::*;
use vstd::std_specs::hash::DefaultHasherAdditionalSpecFns;

verus! {

/// A key with its value.
struct Entry {
    key: Vec<u8>,
    value: Vec<u8>,
}

/// The keys with their values. Entries whose keys have the same hash share a
/// bucket.
pub struct Store {
    buckets: HashMap<u64, Vec<Entry>>,
}

/// The contents of a list of keys.
pub open spec fn key_views(list: Seq<&Vec<u8>>) -> Seq<Seq<u8>> {
    Seq::new(list.len(), |i: int| list[i]@)
}

/// A list of the wanted keys, each once.
pub open spec fn is_listing(list: Seq<Seq<u8>>, wanted: Set<Seq<u8>>) -> bool {
    &&& list.no_duplicates()
    &&& list.to_set() == wanted
}

/// The hash of a key.
spec fn hash_of(key: Seq<u8>) -> u64 {
    DefaultHasher::spec_finish(seq![key])
}

spec fn entry_for(bucket: Seq<Entry>, key: Seq<u8>, i: int) -> bool {
    0 <= i < bucket.len() && bucket[i].key@ == key
}

spec fn bucket_has(bucket: Seq<Entry>, key: Seq<u8>) -> bool {
    exists|i: int| entry_for(bucket, key, i)
}

spec fn bucket_value(bucket: Seq<Entry>, key: Seq<u8>) -> Seq<u8> {
    bucket[choose|i: int| entry_for(bucket, key, i)].value@
}

/// Every key is in the bucket of its hash, and once only.
spec fn bucket_ok(bucket: Seq<Entry>, hash: u64) -> bool {
    &&& forall|i: int| 0 <= i < bucket.len() ==> hash_of((#[trigger] bucket[i]).key@) == hash
    &&& forall|i: int, j: int|
        0 <= i < j < bucket.len() ==> (#[trigger] bucket[i]).key@ != (#[trigger] bucket[j]).key@
}

spec fn bucket_of(m: Map<u64, Vec<Entry>>, hash: u64) -> Seq<Entry> {
    if m.contains_key(hash) {
        m[hash]@
    } else {
        Seq::empty()
    }
}

spec fn buckets_ok(m: Map<u64, Vec<Entry>>) -> bool {
    forall|hash: u64| bucket_ok(#[trigger] bucket_of(m, hash), hash)
}

spec fn contents(m: Map<u64, Vec<Entry>>) -> Map<Seq<u8>, Seq<u8>> {
    Map::new(
        |key: Seq<u8>| bucket_has(bucket_of(m, hash_of(key)), key),
        |key: Seq<u8>| bucket_value(bucket_of(m, hash_of(key)), key),
    )
}

impl View for Store {
    type V = Map<Seq<u8>, Seq<u8>>;

    closed spec fn view(&self) -> Map<Seq<u8>, Seq<u8>> {
        contents(self.buckets@)
    }
}

proof fn lemma_value_at(bucket: Seq<Entry>, hash: u64, key: Seq<u8>, i: int)
    requires
        bucket_ok(bucket, hash),
        entry_for(bucket, key, i),
    ensures
        bucket_has(bucket, key),
        bucket_value(bucket, key) == bucket[i].value@,
{
    let j = choose|j: int| entry_for(bucket, key, j);
    assert(entry_for(bucket, key, j));
    if i < j {
        assert(bucket[i].key@ != bucket[j].key@);
    } else if j < i {
        assert(bucket[j].key@ != bucket[i].key@);
    }
}

/// Replacing a bucket changes only the keys with its hash.
proof fn lemma_other_buckets(
    m: Map<u64, Vec<Entry>>,
    n: Map<u64, Vec<Entry>>,
    hash: u64,
)
    requires
        buckets_ok(m),
        bucket_ok(bucket_of(n, hash), hash),
        forall|h: u64| h != hash ==> #[trigger] bucket_of(n, h) == bucket_of(m, h),
    ensures
        buckets_ok(n),
        forall|k: Seq<u8>|
            hash_of(k) != hash ==> #[trigger] contents(n).contains_key(k) == contents(
                m,
            ).contains_key(k),
        forall|k: Seq<u8>|
            hash_of(k) != hash && contents(m).contains_key(k) ==> #[trigger] contents(n)[k]
                == contents(m)[k],
{
    assert forall|h: u64| bucket_ok(#[trigger] bucket_of(n, h), h) by {
        if h != hash {
            assert(bucket_ok(bucket_of(m, h), h));
        }
    }
}

/// A bucket that differs from another only in what it holds for one key.
spec fn same_but_for(after: Seq<Entry>, before: Seq<Entry>, key: Seq<u8>) -> bool {
    forall|k: Seq<u8>|
        k != key ==> {
            &&& #[trigger] bucket_has(after, k) == bucket_has(before, k)
            &&& bucket_has(before, k) ==> bucket_value(after, k) == bucket_value(before, k)
        }
}

proof fn lemma_pushed(bucket: Seq<Entry>, hash: u64, entry: Entry)
    requires
        bucket_ok(bucket, hash),
        hash_of(entry.key@) == hash,
        !bucket_has(bucket, entry.key@),
    ensures
        bucket_ok(bucket.push(entry), hash),
        same_but_for(bucket.push(entry), bucket, entry.key@),
        bucket_has(bucket.push(entry), entry.key@),
        bucket_value(bucket.push(entry), entry.key@) == entry.value@,
{
    let after = bucket.push(entry);
    assert forall|i: int, j: int| 0 <= i < j < after.len() implies (#[trigger] after[i]).key@ != (
    #[trigger] after[j]).key@ by {
        if j == bucket.len() {
            assert(!entry_for(bucket, entry.key@, i));
        }
    }
    lemma_value_at(after, hash, entry.key@, bucket.len() as int);
    assert forall|k: Seq<u8>| k != entry.key@ implies {
        &&& #[trigger] bucket_has(after, k) == bucket_has(bucket, k)
        &&& bucket_has(bucket, k) ==> bucket_value(after, k) == bucket_value(bucket, k)
    } by {
        if bucket_has(bucket, k) {
            let i = choose|i: int| entry_for(bucket, k, i);
            assert(entry_for(after, k, i));
            lemma_value_at(after, hash, k, i);
            lemma_value_at(bucket, hash, k, i);
        }
        if bucket_has(after, k) {
            let i = choose|i: int| entry_for(after, k, i);
            assert(entry_for(bucket, k, i));
        }
    }
}

proof fn lemma_dropped(bucket: Seq<Entry>, hash: u64, at: int)
    requires
        bucket_ok(bucket, hash),
        0 <= at < bucket.len(),
    ensures
        bucket_ok(bucket.remove(at), hash),
        same_but_for(bucket.remove(at), bucket, bucket[at].key@),
        !bucket_has(bucket.remove(at), bucket[at].key@),
{
    let after = bucket.remove(at);
    let key = bucket[at].key@;
    assert forall|i: int, j: int| 0 <= i < j < after.len() implies (#[trigger] after[i]).key@ != (
    #[trigger] after[j]).key@ by {
        let i0 = if i < at { i } else { i + 1 };
        let j0 = if j < at { j } else { j + 1 };
        assert(after[i] == bucket[i0] && after[j] == bucket[j0]);
    }
    assert forall|i: int| 0 <= i < after.len() implies hash_of((#[trigger] after[i]).key@)
        == hash by {
        let i0 = if i < at { i } else { i + 1 };
        assert(after[i] == bucket[i0]);
    }
    if bucket_has(after, key) {
        let i = choose|i: int| entry_for(after, key, i);
        let i0 = if i < at { i } else { i + 1 };
        assert(after[i] == bucket[i0]);
        if i0 < at {
            assert(bucket[i0].key@ != bucket[at].key@);
        } else {
            assert(bucket[at].key@ != bucket[i0].key@);
        }
    }
    assert forall|k: Seq<u8>| k != key implies {
        &&& #[trigger] bucket_has(after, k) == bucket_has(bucket, k)
        &&& bucket_has(bucket, k) ==> bucket_value(after, k) == bucket_value(bucket, k)
    } by {
        if bucket_has(bucket, k) {
            let i = choose|i: int| entry_for(bucket, k, i);
            let i1 = if i < at { i } else { i - 1 };
            assert(after[i1] == bucket[i]);
            assert(entry_for(after, k, i1));
            lemma_value_at(after, hash, k, i1);
            lemma_value_at(bucket, hash, k, i);
        }
        if bucket_has(after, k) {
            let i = choose|i: int| entry_for(after, k, i);
            let i0 = if i < at { i } else { i + 1 };
            assert(after[i] == bucket[i0]);
            assert(entry_for(bucket, k, i0));
        }
    }
}

/// The keys in the buckets of some hashes, and in the first entries of one more.
spec fn lists_up_to(
    list: Seq<Seq<u8>>,
    m: Map<u64, Vec<Entry>>,
    done: Set<u64>,
    front: Seq<Entry>,
) -> bool {
    &&& list.no_duplicates()
    &&& forall|k: Seq<u8>|
        #![trigger list.contains(k)]
        #![trigger contents(m).contains_key(k)]
        list.contains(k) <==> contents(m).contains_key(k) && (done.contains(hash_of(k))
            || bucket_has(front, k))
}

proof fn lemma_next_listed(
    list: Seq<Seq<u8>>,
    m: Map<u64, Vec<Entry>>,
    done: Set<u64>,
    h: u64,
    j: int,
)
    requires
        buckets_ok(m),
        !done.contains(h),
        0 <= j < bucket_of(m, h).len(),
        lists_up_to(list, m, done, bucket_of(m, h).take(j)),
    ensures
        lists_up_to(
            list.push(bucket_of(m, h)[j].key@),
            m,
            done,
            bucket_of(m, h).take(j + 1),
        ),
{
    let bucket = bucket_of(m, h);
    let front = bucket.take(j);
    let longer = bucket.take(j + 1);
    let key = bucket[j].key@;
    let after = list.push(key);
    assert(bucket_ok(bucket, h));
    assert(entry_for(bucket, key, j));
    assert(!bucket_has(front, key)) by {
        if bucket_has(front, key) {
            let i = choose|i: int| entry_for(front, key, i);
            assert(bucket[i].key@ != bucket[j].key@);
        }
    }
    assert(!list.contains(key));
    assert forall|k: Seq<u8>| bucket_has(longer, k) == (bucket_has(front, k) || k == key) by {
        if bucket_has(front, k) {
            let i = choose|i: int| entry_for(front, k, i);
            assert(entry_for(longer, k, i));
        }
        if k == key {
            assert(entry_for(longer, k, j));
        }
        if bucket_has(longer, k) {
            let i = choose|i: int| entry_for(longer, k, i);
            if i < j {
                assert(entry_for(front, k, i));
            }
        }
    }
    assert forall|k: Seq<u8>| after.contains(k) == (list.contains(k) || k == key) by {
        if list.contains(k) {
            let i = list.index_of(k);
            assert(after[i] == k);
        }
        assert(after[list.len() as int] == key);
        if after.contains(k) {
            let i = after.index_of(k);
            if i < list.len() {
                assert(list[i] == k);
            }
        }
    }
    assert(contents(m).contains_key(key));
    assert forall|i: int, l: int| 0 <= i < after.len() && 0 <= l < after.len() && i != l implies
        after[i] != after[l] by {
        if i == list.len() {
            assert(list.contains(list[l]));
        } else if l == list.len() {
            assert(list.contains(list[i]));
        }
    }
}

/// A bucket that has been listed whole counts as done.
proof fn lemma_bucket_listed(
    list: Seq<Seq<u8>>,
    m: Map<u64, Vec<Entry>>,
    done: Set<u64>,
    h: u64,
)
    requires
        buckets_ok(m),
        lists_up_to(list, m, done, bucket_of(m, h)),
    ensures
        lists_up_to(list, m, done.insert(h), Seq::empty()),
{
    let bucket = bucket_of(m, h);
    assert(bucket_ok(bucket, h));
    assert forall|k: Seq<u8>| bucket_has(bucket, k) implies hash_of(k) == h by {
        let i = choose|i: int| entry_for(bucket, k, i);
        assert(hash_of(bucket[i].key@) == h);
    }
    assert forall|k: Seq<u8>| !bucket_has(Seq::empty(), k) by {}
}

fn hash_key(key: &Vec<u8>) -> (hash: u64)
    ensures
        hash == hash_of(key@),
{
    let mut hasher = DefaultHasher::new();
    hasher.write(key.as_slice());
    assert(hasher@ =~= seq![key@]);
    hasher.finish()
}

fn same_bytes(a: &Vec<u8>, b: &Vec<u8>) -> (r: bool)
    ensures
        r == (a@ == b@),
{
    let r = a == b;
    assert(r ==> a@ =~= b@);
    r
}

/// Where the bucket holds the key.
fn find_entry(bucket: &Vec<Entry>, key: &Vec<u8>) -> (r: Option<usize>)
    ensures
        match r {
            Some(i) => entry_for(bucket@, key@, i as int),
            None => !bucket_has(bucket@, key@),
        },
{
    let mut i: usize = 0;
    while i < bucket.len()
        invariant
            i <= bucket.len(),
            forall|j: int| 0 <= j < i ==> !#[trigger] entry_for(bucket@, key@, j),
        decreases bucket.len() - i,
    {
        if same_bytes(&bucket[i].key, key) {
            return Some(i);
        }
        i = i + 1;
    }
    None
}

impl Store {
    #[verifier::type_invariant]
    spec fn well_formed(self) -> bool {
        buckets_ok(self.buckets@)
    }

    /// An empty store.
    pub fn new() -> (store: Store)
        ensures
            store@ == Map::<Seq<u8>, Seq<u8>>::empty(),
    {
        let buckets: HashMap<u64, Vec<Entry>> = HashMap::new();
        let store = Store { buckets };
        assert(store@ =~= Map::<Seq<u8>, Seq<u8>>::empty());
        store
    }

    /// The value of a key.
    pub fn get(&self, key: &Vec<u8>) -> (r: Option<&Vec<u8>>)
        ensures
            match r {
                Some(value) => self@.contains_key(key@) && value@ == self@[key@],
                None => !self@.contains_key(key@),
            },
    {
        proof {
            use_type_invariant(&*self);
        }
        let hash: u64 = hash_key(key);
        assert(bucket_ok(bucket_of(self.buckets@, hash), hash));
        match self.buckets.get(&hash) {
            None => None,
            Some(bucket) => match find_entry(bucket, key) {
                None => None,
                Some(i) => {
                    proof {
                        lemma_value_at(bucket@, hash, key@, i as int);
                    }
                    Some(&bucket[i].value)
                },
            },
        }
    }

    /// Gives a key a value, in place of the one it has.
    pub fn insert(&mut self, key: Vec<u8>, value: Vec<u8>)
        ensures
            final(self)@ == old(self)@.insert(key@, value@),
    {
        proof {
            use_type_invariant(&*self);
        }
        let ghost before = self.buckets@;
        let hash: u64 = hash_key(&key);
        let mut buckets: HashMap<u64, Vec<Entry>> = HashMap::new();
        std::mem::swap(&mut buckets, &mut self.buckets);
        let mut bucket: Vec<Entry> = match buckets.remove(&hash) {
            Some(bucket) => bucket,
            None => Vec::new(),
        };
        let ghost full = bucket@;
        assert(full =~= bucket_of(before, hash));
        assert(bucket_ok(bucket_of(before, hash), hash));
        let ghost mut rest = bucket@;
        match find_entry(&bucket, &key) {
            Some(i) => {
                let _ = bucket.remove(i);
                proof {
                    rest = bucket@;
                    lemma_dropped(full, hash, i as int);
                }
            },
            None => {},
        }
        let ghost entry_key = key@;
        let ghost entry_value = value@;
        bucket.push(Entry { key, value });
        proof {
            lemma_pushed(rest, hash, bucket@.last());
            assert(bucket@ =~= rest.push(bucket@.last()));
        }
        let ghost last = bucket@;
        buckets.insert(hash, bucket);
        proof {
            assert(bucket_of(buckets@, hash) == last);
            lemma_other_buckets(before, buckets@, hash);
            assert(contents(buckets@) =~= contents(before).insert(entry_key, entry_value)) by {
                assert forall|k: Seq<u8>| contents(buckets@).contains_key(k) == (k == entry_key
                    || contents(before).contains_key(k)) by {
                    if hash_of(k) == hash && k != entry_key {
                        assert(bucket_has(last, k) == bucket_has(rest, k));
                        assert(bucket_has(rest, k) == bucket_has(full, k));
                    }
                }
            }
        }
        self.buckets = buckets;
    }

    /// Takes a key out, and returns the value it had.
    pub fn remove(&mut self, key: &Vec<u8>) -> (r: Option<Vec<u8>>)
        ensures
            final(self)@ == old(self)@.remove(key@),
            match r {
                Some(value) => old(self)@.contains_key(key@) && value@ == old(self)@[key@],
                None => !old(self)@.contains_key(key@),
            },
    {
        proof {
            use_type_invariant(&*self);
        }
        let ghost before = self.buckets@;
        let hash: u64 = hash_key(key);
        assert(bucket_ok(bucket_of(before, hash), hash));
        let mut buckets: HashMap<u64, Vec<Entry>> = HashMap::new();
        std::mem::swap(&mut buckets, &mut self.buckets);
        let mut taken: Option<Vec<u8>> = None;
        match buckets.remove(&hash) {
            None => {
                assert(buckets@ =~= before);
                assert(contents(buckets@) =~= contents(before).remove(key@));
            },
            Some(bucket) => {
                let mut bucket: Vec<Entry> = bucket;
                let ghost full = bucket@;
                match find_entry(&bucket, key) {
                    None => {},
                    Some(i) => {
                        proof {
                            lemma_value_at(full, hash, key@, i as int);
                            lemma_dropped(full, hash, i as int);
                        }
                        let entry = bucket.remove(i);
                        taken = Some(entry.value);
                    },
                }
                let ghost rest = bucket@;
                if bucket.len() > 0 {
                    buckets.insert(hash, bucket);
                }
                proof {
                    assert(bucket_of(buckets@, hash) =~= rest);
                    lemma_other_buckets(before, buckets@, hash);
                    assert(contents(buckets@) =~= contents(before).remove(key@)) by {
                        assert forall|k: Seq<u8>| contents(buckets@).contains_key(k) == (k != key@
                            && contents(before).contains_key(k)) by {
                            if hash_of(k) == hash && k != key@ {
                                assert(bucket_has(rest, k) == bucket_has(full, k));
                            }
                        }
                    }
                }
            },
        }
        self.buckets = buckets;
        taken
    }

    /// Takes out all keys.
    pub fn clear(&mut self)
        ensures
            final(self)@ == Map::<Seq<u8>, Seq<u8>>::empty(),
    {
        self.buckets = HashMap::new();
        assert(self@ =~= Map::<Seq<u8>, Seq<u8>>::empty());
    }

    /// The keys, each once, in no particular order.
    pub fn keys(&self) -> (r: Vec<&Vec<u8>>)
        ensures
            is_listing(key_views(r@), self@.dom()),
    {
        proof {
            use_type_invariant(&*self);
        }
        let ghost m = self.buckets@;
        let mut keys: Vec<&Vec<u8>> = Vec::new();
        let ghost mut done: Set<u64> = Set::empty();
        for hash in it: self.buckets.keys()
            invariant
                m == self.buckets@,
                buckets_ok(m),
                it.seq().unref().to_set() == m.dom(),
                it.seq().no_duplicates(),
                done == it.seq().unref().take(it.index()).to_set(),
                it.index() == it.seq().len() ==> done == m.dom(),
                lists_up_to(key_views(keys@), m, done, Seq::empty()),
        {
            let ghost h = *hash;
            let ghost hashes = it.seq().unref();
            let ghost at = it.index();
            assert(hashes[at] == h);
            assert(hashes.to_set().contains(h));
            assert(hashes.take(at + 1) =~= hashes.take(at).push(h));
            assert(hashes.take(at + 1).to_set() =~= done.insert(h)) by {
                assert(hashes.take(at + 1)[at] == h);
                assert forall|x: u64| done.contains(x) implies hashes.take(at + 1).contains(x) by {
                    let i = hashes.take(at).index_of(x);
                    assert(hashes.take(at + 1)[i] == x);
                }
            }
            assert(at + 1 == hashes.len() ==> hashes.take(at + 1) =~= hashes);
            assert(!done.contains(h)) by {
                if done.contains(h) {
                    let i = hashes.take(at).index_of(h);
                    assert(it.seq()[i] == it.seq()[at]);
                }
            }
            assert(bucket_ok(bucket_of(m, h), h));
            match self.buckets.get(hash) {
                None => {},
                Some(bucket) => {
                    let mut j: usize = 0;
                    assert(bucket@.take(0) =~= Seq::empty());
                    while j < bucket.len()
                        invariant
                            j <= bucket.len(),
                            bucket@ == bucket_of(m, h),
                            buckets_ok(m),
                            !done.contains(h),
                            lists_up_to(key_views(keys@), m, done, bucket@.take(j as int)),
                        decreases bucket.len() - j,
                    {
                        let ghost before = key_views(keys@);
                        keys.push(&bucket[j].key);
                        proof {
                            lemma_next_listed(before, m, done, h, j as int);
                            assert(key_views(keys@) =~= before.push(bucket@[j as int].key@));
                        }
                        j = j + 1;
                    }
                    assert(bucket@.take(bucket@.len() as int) =~= bucket@);
                    proof {
                        lemma_bucket_listed(key_views(keys@), m, done, h);
                    }
                },
            }
            proof {
                done = done.insert(h);
            }
        }
        assert(key_views(keys@).to_set() =~= contents(m).dom()) by {
            assert forall|k: Seq<u8>| contents(m).contains_key(k) implies done.contains(
                hash_of(k),
            ) by {
                assert(m.contains_key(hash_of(k)));
            }
        }
        keys
    }
}

} // verus!
