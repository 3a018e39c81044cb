//! Entries keyed by text, with each key at most once, the map they stand
//! for, and a bucket index over the keys for finding an entry quickly.
//! (vstd's `StringHashMap` offers insertion and lookup but no way to walk
//! its entries, which the ranking and the shuffled count need, so the
//! tables keep their entries here.)

use vstd::prelude::*;
use vstd::utf8::encode_utf8;

verus! {

/// No two entries have the same key.
pub open spec fn keys_unique<V>(e: Seq<(String, V)>) -> bool {
    forall|i: int, j: int| 0 <= i < e.len() && 0 <= j < e.len() && i != j ==> e[i].0@ != e[j].0@
}

/// The map from keys to values that the entries stand for; a later entry
/// wins over an earlier one with the same key.
pub open spec fn entries_map<V>(e: Seq<(String, V)>) -> Map<Seq<char>, V>
    decreases e.len(),
{
    if e.len() == 0 {
        Map::empty()
    } else {
        entries_map(e.drop_last()).insert(e.last().0@, e.last().1)
    }
}

/// With distinct keys, the map holds exactly the entries, and has as many
/// keys as there are entries.
pub(crate) proof fn lemma_entries_map<V>(e: Seq<(String, V)>)
    requires
        keys_unique(e),
    ensures
        forall|i: int| 0 <= i < e.len() ==> #[trigger] entries_map(e).contains_key(e[i].0@)
            && entries_map(e)[e[i].0@] == e[i].1,
        forall|k: Seq<char>| #[trigger] entries_map(e).contains_key(k) ==> exists|i: int|
            0 <= i < e.len() && e[i].0@ == k,
        entries_map(e).dom().finite(),
        entries_map(e).dom().len() == e.len(),
    decreases e.len(),
{
    if e.len() > 0 {
        let d = e.drop_last();
        assert(keys_unique(d));
        lemma_entries_map::<V>(d);
        let l = e.last();
        assert(!entries_map(d).contains_key(l.0@)) by {
            if entries_map(d).contains_key(l.0@) {
                let i = choose|i: int| 0 <= i < d.len() && d[i].0@ == l.0@;
                assert(e[i].0@ == e[e.len() - 1].0@);
            }
        }
        assert forall|i: int| 0 <= i < e.len() implies #[trigger] entries_map(e).contains_key(e[i].0@)
            && entries_map(e)[e[i].0@] == e[i].1 by {
            if i < e.len() - 1 {
                assert(e[i] == d[i]);
                assert(e[i].0@ != l.0@);
            }
        }
        assert forall|k: Seq<char>| #[trigger] entries_map(e).contains_key(k) implies exists|i: int|
            0 <= i < e.len() && e[i].0@ == k by {
            if k == l.0@ {
                assert(e[e.len() - 1].0@ == k);
            } else {
                let i = choose|i: int| 0 <= i < d.len() && d[i].0@ == k;
                assert(e[i] == d[i]);
            }
        }
    }
}

/// Appending an entry files its value under its key.
pub(crate) proof fn lemma_entries_map_push<V>(e: Seq<(String, V)>, x: (String, V))
    ensures
        entries_map(e.push(x)) == entries_map(e).insert(x.0@, x.1),
{
    assert(e.push(x).drop_last() =~= e);
}

/// Replacing an entry by one with the same key refiles the key.
pub(crate) proof fn lemma_entries_map_update<V>(e: Seq<(String, V)>, i: int, x: (String, V))
    requires
        keys_unique(e),
        0 <= i < e.len(),
        x.0@ == e[i].0@,
    ensures
        keys_unique(e.update(i, x)),
        entries_map(e.update(i, x)) == entries_map(e).insert(x.0@, x.1),
    decreases e.len(),
{
    let u = e.update(i, x);
    let d = e.drop_last();
    assert(keys_unique(u)) by {
        assert forall|a: int, b: int| 0 <= a < u.len() && 0 <= b < u.len() && a != b implies u[a].0@
            != u[b].0@ by {
            assert(u[a].0@ == e[a].0@);
            assert(u[b].0@ == e[b].0@);
        }
    }
    if i == e.len() - 1 {
        assert(u.drop_last() =~= d);
        assert(entries_map(u) =~= entries_map(e).insert(x.0@, x.1));
    } else {
        assert(keys_unique(d));
        lemma_entries_map_update(d, i, x);
        assert(u.drop_last() =~= d.update(i, x));
        assert(e.last().0@ != x.0@) by {
            assert(e[e.len() - 1].0@ != e[i].0@);
        }
        assert(entries_map(u) =~= entries_map(e).insert(x.0@, x.1));
    }
}

/// Appending an entry with a new key keeps the keys distinct.
pub(crate) proof fn lemma_keys_unique_push<V>(e: Seq<(String, V)>, x: (String, V))
    requires
        keys_unique(e),
        forall|i: int| 0 <= i < e.len() ==> e[i].0@ != x.0@,
    ensures
        keys_unique(e.push(x)),
{
    let e2 = e.push(x);
    assert forall|a: int, b: int| 0 <= a < e2.len() && 0 <= b < e2.len() && a != b implies e2[a].0@
        != e2[b].0@ by {
        if a < e.len() {
            assert(e2[a] == e[a]);
        }
        if b < e.len() {
            assert(e2[b] == e[b]);
        }
    }
}

/// The number of buckets of a name index.
pub(crate) const NAME_BUCKETS: usize = 4096;

/// A hash of a byte string, less than `NAME_BUCKETS`.
pub(crate) open spec fn bytes_bucket(b: Seq<u8>) -> nat
    decreases b.len(),
{
    if b.len() == 0 {
        0
    } else {
        ((bytes_bucket(b.drop_last()) * 31 + b.last()) % (NAME_BUCKETS as int)) as nat
    }
}

/// The bucket of a name: the hash of its UTF-8 bytes.
pub(crate) open spec fn name_bucket(k: Seq<char>) -> nat {
    bytes_bucket(encode_utf8(k))
}

/// `buckets` has one list of positions per bucket, and every position of
/// `e` is listed in the bucket of its key.
pub(crate) open spec fn indexes<V>(buckets: Seq<Vec<usize>>, e: Seq<(String, V)>) -> bool {
    &&& buckets.len() == NAME_BUCKETS
    &&& forall|i: int| 0 <= i < e.len() ==> #[trigger] buckets[name_bucket(e[i].0@) as int]@.contains(i as usize)
}

/// The bucket of `key`.
pub(crate) fn bucket_of(key: &String) -> (res: usize)
    ensures
        res == name_bucket(key@),
        res < NAME_BUCKETS,
{
    let bytes = key.as_str().as_bytes();
    let mut h: usize = 0;
    let mut i: usize = 0;
    while i < bytes.len()
        invariant
            i <= bytes@.len(),
            bytes@ == encode_utf8(key@),
            h == bytes_bucket(bytes@.take(i as int)),
            h < NAME_BUCKETS,
        decreases bytes@.len() - i,
    {
        proof {
            assert(bytes@.take(i + 1).drop_last() =~= bytes@.take(i as int));
        }
        h = (h * 31 + bytes[i] as usize) % NAME_BUCKETS;
        i = i + 1;
    }
    proof {
        assert(bytes@.take(bytes@.len() as int) =~= bytes@);
    }
    h
}

/// An index of no entries.
pub(crate) fn empty_buckets() -> (res: Vec<Vec<usize>>)
    ensures
        res@.len() == NAME_BUCKETS,
        forall|b: int| 0 <= b < res@.len() ==> (#[trigger] res@[b])@.len() == 0,
{
    let mut res: Vec<Vec<usize>> = Vec::new();
    let mut i: usize = 0;
    while i < NAME_BUCKETS
        invariant
            i <= NAME_BUCKETS,
            res@.len() == i,
            forall|b: int| 0 <= b < res@.len() ==> (#[trigger] res@[b])@.len() == 0,
        decreases NAME_BUCKETS - i,
    {
        res.push(Vec::new());
        i = i + 1;
    }
    res
}

/// Adds position `i` to bucket `b`.
pub(crate) fn bucket_push(buckets: &mut Vec<Vec<usize>>, b: usize, i: usize)
    requires
        b < old(buckets)@.len(),
    ensures
        final(buckets)@.len() == old(buckets)@.len(),
        final(buckets)@[b as int]@ == old(buckets)@[b as int]@.push(i),
        forall|c: int| 0 <= c < old(buckets)@.len() && c != b ==> final(buckets)@[c] == old(buckets)@[c],
{
    let mut tmp: Vec<usize> = Vec::new();
    buckets.set_and_swap(b, &mut tmp);
    tmp.push(i);
    buckets.set_and_swap(b, &mut tmp);
}

/// Where `key` stands among the entries, found through the index.
pub(crate) fn find_indexed<V>(entries: &Vec<(String, V)>, buckets: &Vec<Vec<usize>>, key: &String) -> (res: Option<usize>)
    requires
        indexes(buckets@, entries@),
    ensures
        match res {
            Some(i) => i < entries@.len() && entries@[i as int].0@ == key@,
            None => forall|i: int| 0 <= i < entries@.len() ==> entries@[i].0@ != key@,
        },
{
    let b = bucket_of(key);
    let bucket = &buckets[b];
    let mut j: usize = 0;
    while j < bucket.len()
        invariant
            indexes(buckets@, entries@),
            b == name_bucket(key@),
            *bucket == buckets@[b as int],
            j <= bucket@.len(),
            forall|jj: int| 0 <= jj < j && bucket@[jj] < entries@.len() ==> entries@[bucket@[jj] as int].0@ != key@,
        decreases bucket@.len() - j,
    {
        let i = bucket[j];
        if i < entries.len() && entries[i].0 == *key {
            return Some(i);
        }
        j = j + 1;
    }
    let n = entries.len();
    proof {
        assert forall|i: int| 0 <= i < entries@.len() implies entries@[i].0@ != key@ by {
            assert(i < n);
            assert((i as usize) as int == i);
            if entries@[i].0@ == key@ {
                assert(buckets@[name_bucket(entries@[i].0@) as int]@.contains(i as usize));
                let jj = choose|jj: int| 0 <= jj < bucket@.len() && bucket@[jj] == i as usize;
                assert(entries@[bucket@[jj] as int].0@ != key@);
            }
        }
    }
    None
}

/// Replacing an entry by one with the same key keeps the index valid.
pub(crate) proof fn lemma_indexes_update<V>(buckets: Seq<Vec<usize>>, e: Seq<(String, V)>, i: int, x: (String, V))
    requires
        indexes(buckets, e),
        0 <= i < e.len(),
        x.0@ == e[i].0@,
    ensures
        indexes(buckets, e.update(i, x)),
{
    let u = e.update(i, x);
    assert forall|k: int| 0 <= k < u.len() implies #[trigger] buckets[name_bucket(u[k].0@) as int]@.contains(k as usize) by {
        assert(u[k].0@ == e[k].0@);
    }
}

/// Appending an entry and listing its position in the bucket of its key
/// keeps the index valid.
pub(crate) proof fn lemma_indexes_push<V>(
    old_buckets: Seq<Vec<usize>>,
    buckets: Seq<Vec<usize>>,
    e: Seq<(String, V)>,
    x: (String, V),
)
    requires
        indexes(old_buckets, e),
        buckets.len() == old_buckets.len(),
        name_bucket(x.0@) < buckets.len(),
        buckets[name_bucket(x.0@) as int]@ == old_buckets[name_bucket(x.0@) as int]@.push(e.len() as usize),
        forall|c: int| 0 <= c < old_buckets.len() && c != name_bucket(x.0@) ==> buckets[c] == old_buckets[c],
    ensures
        indexes(buckets, e.push(x)),
{
    let p = e.push(x);
    let hb = name_bucket(x.0@) as int;
    assert forall|k: int| 0 <= k < p.len() implies #[trigger] buckets[name_bucket(p[k].0@) as int]@.contains(k as usize) by {
        if k < e.len() {
            assert(p[k] == e[k]);
            let kb = name_bucket(e[k].0@) as int;
            assert(old_buckets[kb]@.contains(k as usize));
            if kb == hb {
                let jj = choose|jj: int| 0 <= jj < old_buckets[kb]@.len() && old_buckets[kb]@[jj] == k as usize;
                assert(buckets[kb]@[jj] == k as usize);
            } else {
                assert(buckets[kb] == old_buckets[kb]);
            }
        } else {
            assert(buckets[hb]@[buckets[hb]@.len() - 1] == k as usize);
        }
    }
}

} // verus!
