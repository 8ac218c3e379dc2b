//! Posting maps: from a normalized key to the list of dictionary positions
//! indexed under it, keys kept unique and in order of first insertion.
use vstd::prelude::*;

verus! {

/// A position in the dictionary: an entry, and which of its spellings.
/// `alias_index` is `None` for the canonical key, `Some(j)` for alias `j`.
#[derive(Clone, Copy, Debug, PartialEq, Eq, Structural)]
pub struct IndexEntry {
    pub index: usize,
    pub alias_index: Option<usize>,
}

/// The position of key `k` in `m`, or -1 where `m` does not hold it.
pub open spec fn find_key(m: Seq<(Seq<char>, Seq<IndexEntry>)>, k: Seq<char>) -> int
    decreases m.len(),
{
    if m.len() == 0 {
        -1
    } else if m.last().0 == k {
        m.len() - 1
    } else {
        find_key(m.drop_last(), k)
    }
}

/// The list stored under `k`, empty where there is none.
pub open spec fn posting_of(m: Seq<(Seq<char>, Seq<IndexEntry>)>, k: Seq<char>) -> Seq<IndexEntry> {
    let t = find_key(m, k);
    if t >= 0 {
        m[t].1
    } else {
        Seq::empty()
    }
}

/// `m` with `e` appended to the list of `k`; a new key goes last.
pub open spec fn add_ref(m: Seq<(Seq<char>, Seq<IndexEntry>)>, k: Seq<char>, e: IndexEntry) -> Seq<
    (Seq<char>, Seq<IndexEntry>),
> {
    let t = find_key(m, k);
    if t >= 0 {
        m.update(t, (k, m[t].1.push(e)))
    } else {
        m.push((k, seq![e]))
    }
}

/// Whether no key occurs twice.
pub open spec fn keys_unique(m: Seq<(Seq<char>, Seq<IndexEntry>)>) -> bool {
    forall|a: int, b: int| 0 <= a < b < m.len() ==> (#[trigger] m[a]).0 != (#[trigger] m[b]).0
}

pub proof fn lemma_find_key(m: Seq<(Seq<char>, Seq<IndexEntry>)>, k: Seq<char>)
    ensures
        -1 <= find_key(m, k) < m.len(),
        find_key(m, k) >= 0 ==> m[find_key(m, k)].0 == k,
        find_key(m, k) == -1 <==> forall|t: int| 0 <= t < m.len() ==> (#[trigger] m[t]).0 != k,
    decreases m.len(),
{
    if m.len() > 0 {
        lemma_find_key(m.drop_last(), k);
        if m.last().0 != k {
            assert forall|t: int| 0 <= t < m.len() - 1 implies (#[trigger] m[t]).0 == m.drop_last()[t].0 by {}
        }
    }
}

pub proof fn lemma_find_key_same_keys(
    m1: Seq<(Seq<char>, Seq<IndexEntry>)>,
    m2: Seq<(Seq<char>, Seq<IndexEntry>)>,
    k: Seq<char>,
)
    requires
        m1.len() == m2.len(),
        forall|t: int| 0 <= t < m1.len() ==> (#[trigger] m1[t]).0 == m2[t].0,
    ensures
        find_key(m1, k) == find_key(m2, k),
    decreases m1.len(),
{
    if m1.len() > 0 {
        lemma_find_key_same_keys(m1.drop_last(), m2.drop_last(), k);
    }
}

pub proof fn lemma_add_ref(m: Seq<(Seq<char>, Seq<IndexEntry>)>, k: Seq<char>, e: IndexEntry)
    requires
        keys_unique(m),
    ensures
        keys_unique(add_ref(m, k, e)),
        find_key(add_ref(m, k, e), k) >= 0,
        posting_of(add_ref(m, k, e), k) == posting_of(m, k).push(e),
        forall|k2: Seq<char>| k2 != k ==> posting_of(add_ref(m, k, e), k2) == posting_of(m, k2),
        forall|t: int| 0 <= t < m.len() ==> (#[trigger] add_ref(m, k, e)[t]).0 == m[t].0,
        add_ref(m, k, e).len() >= m.len(),
{
    lemma_find_key(m, k);
    let r = add_ref(m, k, e);
    if find_key(m, k) >= 0 {
        assert forall|k2: Seq<char>| k2 != k implies posting_of(r, k2) == posting_of(m, k2) by {
            lemma_find_key_same_keys(r, m, k2);
            lemma_find_key(m, k2);
        }
        lemma_find_key_same_keys(r, m, k);
    } else {
        assert(r.drop_last() =~= m);
        assert forall|k2: Seq<char>| k2 != k implies posting_of(r, k2) == posting_of(m, k2) by {
            lemma_find_key(m, k2);
        }
        assert forall|a: int, b: int| 0 <= a < b < r.len() implies (#[trigger] r[a]).0 != (
        #[trigger] r[b]).0 by {
            if b == m.len() {
                assert(m[a].0 != k);
            }
        }
    }
}

/// With unique keys, a key is found at its own position.
pub proof fn lemma_find_own_key(m: Seq<(Seq<char>, Seq<IndexEntry>)>, t: int)
    requires
        keys_unique(m),
        0 <= t < m.len(),
    ensures
        find_key(m, m[t].0) == t,
        posting_of(m, m[t].0) == m[t].1,
{
    lemma_find_key(m, m[t].0);
    let a = find_key(m, m[t].0);
    if a != t {
        assert(m[a].0 == m[t].0);
    }
}

/// The number of hash buckets of a posting map.
pub const BUCKETS: usize = 65536;

/// The modulus of the key hash: a prime below 2^32.
pub const HASH_MODULUS: u64 = 4294967291;

/// A polynomial hash of a key's characters.
pub open spec fn key_hash(s: Seq<char>) -> int
    decreases s.len(),
{
    if s.len() == 0 {
        0
    } else {
        (key_hash(s.drop_last()) * 31 + (s.last() as u32)) % (HASH_MODULUS as int)
    }
}

/// The bucket that a key belongs to.
pub open spec fn bucket_of(s: Seq<char>) -> int {
    key_hash(s) % (BUCKETS as int)
}

/// The bucket of a key.
fn bucket_index(k: &String) -> (r: usize)
    ensures
        r == bucket_of(k@),
        r < BUCKETS,
{
    let cs = crate::text::chars_of(k.as_str());
    let mut h: u64 = 0;
    let mut i: usize = 0;
    while i < cs.len()
        invariant
            i <= cs@.len(),
            cs@ == k@,
            h == key_hash(cs@.take(i as int)),
            h < HASH_MODULUS,
        decreases cs.len() - i,
    {
        assert(cs@.take(i + 1).drop_last() =~= cs@.take(i as int));
        let c = cs[i] as u32 as u64;
        assert(h * 31 + c < 0x40_0000_0000) by (nonlinear_arith)
            requires
                h < HASH_MODULUS,
                c <= u32::MAX,
        ;
        h = (h * 31 + c) % HASH_MODULUS;
        i = i + 1;
    }
    assert(cs@.take(i as int) =~= cs@);
    (h % (BUCKETS as u64)) as usize
}

/// A posting map: each key with its list, keys unique, and the positions of
/// the keys grouped by hash bucket for lookup.
pub struct PostingMap {
    lists: Vec<(String, Vec<IndexEntry>)>,
    buckets: Vec<Vec<usize>>,
}

impl View for PostingMap {
    type V = Seq<(Seq<char>, Seq<IndexEntry>)>;

    closed spec fn view(&self) -> Seq<(Seq<char>, Seq<IndexEntry>)> {
        self.lists@.map_values(|p: (String, Vec<IndexEntry>)| (p.0@, p.1@))
    }
}

impl PostingMap {
    /// Keys are unique, every key's position stands in its bucket, and every
    /// bucket holds positions of keys of that bucket.
    pub closed spec fn wf(&self) -> bool {
        &&& self.buckets@.len() == BUCKETS
        &&& keys_unique(self@)
        &&& forall|t: int|
            0 <= t < self.lists@.len() ==> self.buckets@[bucket_of(
                #[trigger] self.lists@[t].0@,
            )]@.contains(t as usize)
        &&& forall|b: int, i: int|
            0 <= b < BUCKETS && 0 <= i < self.buckets@[b]@.len() ==> {
                let p = #[trigger] self.buckets@[b]@[i];
                &&& p < self.lists@.len()
                &&& bucket_of(self.lists@[p as int].0@) == b
            }
    }

    pub proof fn lemma_len(&self)
        ensures
            self@.len() <= usize::MAX,
    {
        broadcast use vstd::std_specs::vec::axiom_spec_len;

        assert(self@.len() == self.lists.len());
    }

    pub fn new() -> (r: PostingMap)
        ensures
            r.wf(),
            r@ == Seq::<(Seq<char>, Seq<IndexEntry>)>::empty(),
    {
        let mut buckets: Vec<Vec<usize>> = Vec::new();
        let mut b: usize = 0;
        while b < BUCKETS
            invariant
                b <= BUCKETS,
                buckets@.len() == b,
                forall|c: int| 0 <= c < b ==> (#[trigger] buckets@[c])@.len() == 0,
            decreases BUCKETS - b,
        {
            buckets.push(Vec::new());
            b = b + 1;
        }
        let r = PostingMap { lists: Vec::new(), buckets };
        assert(r@ =~= Seq::<(Seq<char>, Seq<IndexEntry>)>::empty());
        r
    }

    /// The number of keys.
    pub fn len(&self) -> (r: usize)
        ensures
            r == self@.len(),
    {
        self.lists.len()
    }

    /// The key at position `t`.
    pub fn key_at(&self, t: usize) -> (r: &String)
        requires
            t < self@.len(),
        ensures
            r@ == self@[t as int].0,
    {
        &self.lists[t].0
    }

    /// The list at position `t`.
    pub fn list_at(&self, t: usize) -> (r: &Vec<IndexEntry>)
        requires
            t < self@.len(),
        ensures
            r@ == self@[t as int].1,
    {
        &self.lists[t].1
    }

    /// The position of `k`, if it is a key.
    pub fn find(&self, k: &String) -> (r: Option<usize>)
        requires
            self.wf(),
        ensures
            r matches Some(t) ==> t == find_key(self@, k@),
            r is None ==> find_key(self@, k@) == -1,
    {
        let b = bucket_index(k);
        let bucket = &self.buckets[b];
        let mut i: usize = 0;
        while i < bucket.len()
            invariant
                self.wf(),
                b == bucket_of(k@),
                bucket == &self.buckets@[b as int],
                i <= bucket@.len(),
                forall|j: int| 0 <= j < i ==> self.lists@[(#[trigger] bucket@[j]) as int].0@ != k@,
            decreases bucket.len() - i,
        {
            let p = bucket[i];
            assert(p < self.lists@.len());
            if self.lists[p].0 == *k {
                proof {
                    assert(self@[p as int].0 == k@);
                    lemma_find_own_key(self@, p as int);
                }
                return Some(p);
            }
            i = i + 1;
        }
        proof {
            self.lemma_len();
            lemma_find_key(self@, k@);
            assert forall|t: int| 0 <= t < self@.len() implies (#[trigger] self@[t]).0 != k@ by {
                if self@[t].0 == k@ {
                    assert(self.lists@[t].0@ == k@);
                    assert(bucket@.contains(t as usize));
                    let j = choose|j: int| 0 <= j < bucket@.len() && bucket@[j] == t as usize;
                    assert(self.lists@[bucket@[j] as int].0@ != k@);
                }
            }
        }
        None
    }

    /// Appends `e` to the list of `k`, adding `k` last where it is new.
    pub fn add(&mut self, k: String, e: IndexEntry)
        requires
            old(self).wf(),
        ensures
            final(self).wf(),
            final(self)@ == add_ref(old(self)@, k@, e),
    {
        let ghost m = self@;
        proof {
            lemma_add_ref(m, k@, e);
        }
        match self.find(&k) {
            Some(t) => {
                proof {
                    lemma_find_key(m, k@);
                }
                self.lists[t].1.push(e);
                assert(self@ =~= add_ref(m, k@, e));
                assert forall|u: int| 0 <= u < self.lists@.len() implies (
                #[trigger] self.lists@[u]).0@ == m[u].0 by {
                    assert(self@[u].0 == m[u].0);
                }
            },
            None => {
                let b = bucket_index(&k);
                let pos = self.lists.len();
                let mut v: Vec<IndexEntry> = Vec::new();
                v.push(e);
                self.lists.push((k, v));
                self.buckets[b].push(pos);
                assert(self@ =~= add_ref(m, k@, e));
                assert forall|u: int| 0 <= u < self.lists@.len() implies (
                #[trigger] self.lists@[u]).0@ == add_ref(m, k@, e)[u].0 by {}
                assert forall|c: int, i: int|
                    0 <= c < BUCKETS && 0 <= i < self.buckets@[c]@.len() implies {
                    let p = #[trigger] self.buckets@[c]@[i];
                    &&& p < self.lists@.len()
                    &&& bucket_of(self.lists@[p as int].0@) == c
                } by {
                    if c != b || i < self.buckets@[c]@.len() - 1 {
                        let p = self.buckets@[c]@[i];
                        assert(p < pos);
                    }
                }
                assert forall|u: int| 0 <= u < self.lists@.len() implies self.buckets@[bucket_of(
                    #[trigger] self.lists@[u].0@,
                )]@.contains(u as usize) by {
                    if u < pos {
                        let c = bucket_of(self.lists@[u].0@);
                        let j = choose|j: int| 0 <= j < old(self).buckets@[c]@.len() && old(self).buckets@[c]@[j] == u as usize;
                        assert(self.buckets@[c]@[j] == u as usize);
                    } else {
                        assert(self.buckets@[b as int]@[self.buckets@[b as int]@.len() - 1] == pos);
                    }
                }
            },
        }
    }

    /// Replaces the list at position `t`.
    pub fn replace_list(&mut self, t: usize, l: Vec<IndexEntry>)
        requires
            old(self).wf(),
            t < old(self)@.len(),
        ensures
            final(self).wf(),
            final(self)@ == old(self)@.update(t as int, (old(self)@[t as int].0, l@)),
    {
        let ghost m = self@;
        self.lists[t].1 = l;
        assert(self@ =~= m.update(t as int, (m[t as int].0, l@)));
        assert forall|u: int| 0 <= u < self.lists@.len() implies (
        #[trigger] self.lists@[u]).0@ == old(self).lists@[u].0@ by {
            assert(self@[u].0 == m[u].0);
        }
        assert forall|a: int, c: int| 0 <= a < c < self@.len() implies (#[trigger] self@[a]).0
            != (#[trigger] self@[c]).0 by {
            assert(m[a].0 != m[c].0);
        }
    }
}

} // verus!
