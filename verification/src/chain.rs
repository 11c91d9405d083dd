//! The record chains and where their records are.
//!
//! The ghost state of a store is a map from addresses to records. A chain
//! starts at the address an index entry holds and follows the previous-address
//! fields down; the newest record of a key is the first one on its chain that
//! carries the key. Each record has one place in the log, and its bytes there
//! (in memory, on the device or both) are the encoding of the record.
use crate::hash;
use crate::index::HashIndex;
use crate::log;
use crate::log::LogView;
use crate::record;
use crate::record::RecordView;
use vstd::prelude::*;

verus! {

pub type Recs = Map<int, RecordView>;

/// The next older record on the chain.
pub open spec fn prev(recs: Recs, a: int) -> int {
    record::prev_of(recs[a].word) as int
}

/// First valid record with this key on the chain that starts at `a`.
pub open spec fn find(recs: Recs, a: int, key: Seq<u8>) -> Option<int>
    decreases a,
{
    if a < 64 || !recs.dom().contains(a) {
        None
    } else if recs[a].key == key && record::valid_of(recs[a].word) {
        Some(a)
    } else if prev(recs, a) < a {
        find(recs, prev(recs, a), key)
    } else {
        None
    }
}

/// Whether two keys share a chain.
pub open spec fn same_chain(index: HashIndex, k1: Seq<u8>, k2: Seq<u8>) -> bool {
    index.bucket_of(hash::key_hash(k1)) == index.bucket_of(hash::key_hash(k2)) && hash::key_hash(k1)
        >> 49 == hash::key_hash(k2) >> 49
}

/// Chains are strictly address-descending and stay within one (bucket, tag).
pub open spec fn chains_ok(index: HashIndex, recs: Recs) -> bool {
    &&& forall|a: int| #[trigger]
        recs.dom().contains(a) ==> prev(recs, a) < a && (prev(recs, a) >= 64 ==> recs.dom().contains(
            prev(recs, a),
        ) && same_chain(index, recs[prev(recs, a)].key, recs[a].key))
    &&& forall|b: int, t: u64|
        0 <= b < index.bucket_count() ==> entry_ok(index, recs, b, t, #[trigger] index.lookup(b, t))
}

/// An index entry holds the address of a record of its chain, or none yet.
pub open spec fn entry_ok(index: HashIndex, recs: Recs, b: int, t: u64, e: Option<u64>) -> bool {
    e matches Some(a) ==> a >= 64 ==> recs.dom().contains(a as int) && index.bucket_of(
        hash::key_hash(recs[a as int].key),
    ) == b && hash::key_hash(recs[a as int].key) >> 49 == t
}

/// Chain head of a key: 0 if the index has no entry.
pub open spec fn chain_head(index: HashIndex, key: Seq<u8>) -> int {
    match index.lookup(index.bucket_of(hash::key_hash(key)), hash::key_hash(key) >> 49) {
        Some(a) => a as int,
        None => 0,
    }
}

/// Address of the newest record of a key.
pub open spec fn newest(index: HashIndex, recs: Recs, key: Seq<u8>) -> Option<int> {
    find(recs, chain_head(index, key), key)
}

/// The newest record of a key was never copied away from.
pub open spec fn newest_open(index: HashIndex, recs: Recs) -> bool {
    forall|key: Seq<u8>|
        (#[trigger] newest(index, recs, key)) matches Some(a) ==> !record::sealed_of(recs[a].word)
}

/// Every valid record from `floor` on is still on the chain of its key: nothing
/// of that was dropped from the index.
pub open spec fn unbroken(index: HashIndex, recs: Recs, floor: int) -> bool {
    &&& forall|x: int, y: int|
        #![trigger recs.dom().contains(x), recs.dom().contains(y)]
        recs.dom().contains(x) && recs.dom().contains(y) && floor <= x < y && record::valid_of(recs[x].word)
            && same_chain(index, recs[x].key, recs[y].key) ==> x <= prev(recs, y)
    &&& forall|x: int| #[trigger]
        recs.dom().contains(x) && floor <= x && record::valid_of(recs[x].word) ==> x <= chain_head(
            index,
            recs[x].key,
        )
}

// ---------------------------------------------------------------------------
// Following chains
// ---------------------------------------------------------------------------

/// On an unbroken chain, looking for a key from above one of its records finds
/// that record or a newer one.
pub proof fn lemma_find_above(index: HashIndex, recs: Recs, a: int, x: int, floor: int)
    requires
        chains_ok(index, recs),
        unbroken(index, recs, floor),
        recs.dom().contains(x),
        record::valid_of(recs[x].word),
        64 <= x <= a,
        floor <= x,
        recs.dom().contains(a),
        same_chain(index, recs[x].key, recs[a].key),
    ensures
        find(recs, a, recs[x].key) matches Some(z) && x <= z,
    decreases a,
{
    let k = recs[x].key;
    if recs[a].key == k && record::valid_of(recs[a].word) {
    } else {
        let p = prev(recs, a);
        assert(x < a);
        assert(x <= p);
        assert(recs.dom().contains(p));
        lemma_find_above(index, recs, p, x, floor);
    }
}

/// On unbroken chains the newest record of a key is its last valid one.
pub proof fn lemma_newest_is_last(index: HashIndex, recs: Recs, x: int, floor: int)
    requires
        chains_ok(index, recs),
        unbroken(index, recs, floor),
        forall|h: u64| 0 <= #[trigger] index.bucket_of(h) < index.bucket_count(),
        recs.dom().contains(x),
        record::valid_of(recs[x].word),
        64 <= x,
        floor <= x,
    ensures
        newest(index, recs, recs[x].key) matches Some(z) && x <= z,
{
    let k = recs[x].key;
    let h = hash::key_hash(k);
    let b = index.bucket_of(h);
    assert(0 <= b < index.bucket_count());
    assert(entry_ok(index, recs, b, h >> 49, index.lookup(b, h >> 49)));
    lemma_find_above(index, recs, chain_head(index, k), x, floor);
}

pub proof fn lemma_find(recs: Recs, a: int, key: Seq<u8>)
    ensures
        find(recs, a, key) matches Some(x) ==> 64 <= x <= a && recs.dom().contains(x) && recs[x].key
            == key && record::valid_of(recs[x].word),
    decreases a,
{
    if a >= 64 && recs.dom().contains(a) && !(recs[a].key == key && record::valid_of(recs[a].word))
        && prev(recs, a) < a {
        lemma_find(recs, prev(recs, a), key);
    }
}

/// Looking along a chain sees only keys, validity and previous addresses.
pub proof fn lemma_find_same(r1: Recs, r2: Recs, a: int, key: Seq<u8>)
    requires
        forall|x: int| 64 <= x <= a ==> (#[trigger] r1.dom().contains(x) == r2.dom().contains(x)),
        forall|x: int|
            64 <= x <= a && #[trigger] r1.dom().contains(x) ==> r1[x].key == r2[x].key && prev(r1, x)
                == prev(r2, x) && record::valid_of(r1[x].word) == record::valid_of(r2[x].word),
    ensures
        find(r1, a, key) == find(r2, a, key),
    decreases a,
{
    if a >= 64 && r1.dom().contains(a) && !(r1[a].key == key && record::valid_of(r1[a].word))
        && prev(r1, a) < a {
        lemma_find_same(r1, r2, prev(r1, a), key);
    }
}

/// A record was rewritten without touching its key or its chain.
pub proof fn lemma_rewrite(index: HashIndex, recs: Recs, a: int, r: RecordView, floor: int)
    requires
        chains_ok(index, recs),
        recs.dom().contains(a),
        r.key == recs[a].key,
        record::prev_of(r.word) == record::prev_of(recs[a].word),
        record::valid_of(r.word) == record::valid_of(recs[a].word),
    ensures
        chains_ok(index, recs.insert(a, r)),
        unbroken(index, recs, floor) ==> unbroken(index, recs.insert(a, r), floor),
        forall|key: Seq<u8>| #[trigger]
            newest(index, recs.insert(a, r), key) == newest(index, recs, key),
{
    let r2 = recs.insert(a, r);
    assert forall|key: Seq<u8>| #[trigger] newest(index, r2, key) == newest(index, recs, key) by {
        lemma_find_same(r2, recs, chain_head(index, key), key);
    }
    if unbroken(index, recs, floor) {
        assert forall|x: int, y: int|
            #![trigger r2.dom().contains(x), r2.dom().contains(y)]
            r2.dom().contains(x) && r2.dom().contains(y) && floor <= x < y && record::valid_of(r2[x].word)
                && same_chain(index, r2[x].key, r2[y].key) implies x <= prev(r2, y) by {
            assert(recs.dom().contains(x) && recs.dom().contains(y));
        }
        assert forall|x: int| #[trigger]
            r2.dom().contains(x) && floor <= x && record::valid_of(r2[x].word) implies x <= chain_head(
            index,
            r2[x].key,
        ) by {
            assert(recs.dom().contains(x));
        }
    }
    assert forall|x: int| #[trigger] r2.dom().contains(x) implies prev(r2, x) < x && (prev(r2, x)
        >= 64 ==> r2.dom().contains(prev(r2, x)) && same_chain(
        index,
        r2[prev(r2, x)].key,
        r2[x].key,
    )) by {
        assert(recs.dom().contains(x));
    }
    assert forall|b: int, t: u64| 0 <= b < index.bucket_count() implies entry_ok(
        index,
        r2,
        b,
        t,
        #[trigger] index.lookup(b, t),
    ) by {
        assert(entry_ok(index, recs, b, t, index.lookup(b, t)));
    }
}

/// A record was put in front of a chain.
pub proof fn lemma_prepend(
    i1: HashIndex,
    i2: HashIndex,
    recs: Recs,
    a: int,
    r: RecordView,
    floor: int,
)
    requires
        chains_ok(i1, recs),
        i2.same_shape(&i1),
        64 <= a <= u64::MAX,
        record::valid_of(r.word),
        forall|x: int| #[trigger] recs.dom().contains(x) ==> x < a,
        forall|h: u64| 0 <= #[trigger] i1.bucket_of(h) < i1.bucket_count(),
        ({
            let h = hash::key_hash(r.key);
            let b = i1.bucket_of(h);
            &&& i2.same_but(&i1, b, h >> 49)
            &&& i2.lookup(b, h >> 49) == Some(a as u64)
            &&& record::prev_of(r.word) == chain_head(i1, r.key)
        }),
    ensures
        chains_ok(i2, recs.insert(a, r)),
        unbroken(i1, recs, floor) ==> unbroken(i2, recs.insert(a, r), floor),
        newest(i2, recs.insert(a, r), r.key) == Some(a),
        forall|key: Seq<u8>|
            key != r.key ==> #[trigger] newest(i2, recs.insert(a, r), key) == newest(i1, recs, key),
{
    let r2 = recs.insert(a, r);
    let h0 = hash::key_hash(r.key);
    let b0 = i1.bucket_of(h0);
    let t0 = h0 >> 49;
    assert(i2.bucket_of(h0) == b0);
    assert(entry_ok(i1, recs, b0, t0, i1.lookup(b0, t0)));
    assert forall|key: Seq<u8>| key != r.key implies #[trigger] newest(i2, r2, key) == newest(
        i1,
        recs,
        key,
    ) by {
        let h = hash::key_hash(key);
        let b = i1.bucket_of(h);
        assert(i2.bucket_of(h) == b);
        assert(0 <= b < i1.bucket_count());
        assert(entry_ok(i1, recs, b, h >> 49, i1.lookup(b, h >> 49)));
        let c = chain_head(i1, key);
        assert(c < a);
        lemma_find_same(r2, recs, c, key);
        if b == b0 && h >> 49 == t0 {
            assert(chain_head(i2, key) == a);
            assert(find(r2, a, key) == find(r2, c, key));
        } else {
            assert(i2.lookup(b, h >> 49) == i1.lookup(b, h >> 49));
        }
    }
    assert(chain_head(i2, r.key) == a);
    if unbroken(i1, recs, floor) {
        assert forall|x: int, y: int|
            #![trigger r2.dom().contains(x), r2.dom().contains(y)]
            r2.dom().contains(x) && r2.dom().contains(y) && floor <= x < y && record::valid_of(r2[x].word)
                && same_chain(i2, r2[x].key, r2[y].key) implies x <= prev(r2, y) by {
            assert(recs.dom().contains(x));
            let hx = hash::key_hash(r2[x].key);
            let hy = hash::key_hash(r2[y].key);
            assert(i2.bucket_of(hx) == i1.bucket_of(hx));
            assert(i2.bucket_of(hy) == i1.bucket_of(hy));
            if y != a {
                assert(recs.dom().contains(y));
                assert(same_chain(i1, recs[x].key, recs[y].key));
            } else {
                assert(x <= chain_head(i1, recs[x].key));
            }
        }
        assert forall|x: int| #[trigger]
            r2.dom().contains(x) && floor <= x && record::valid_of(r2[x].word) implies x <= chain_head(
            i2,
            r2[x].key,
        ) by {
            let hx = hash::key_hash(r2[x].key);
            assert(i2.bucket_of(hx) == i1.bucket_of(hx));
            if x != a {
                assert(recs.dom().contains(x));
                assert(x <= chain_head(i1, recs[x].key));
                let b = i1.bucket_of(hx);
                assert(0 <= b < i1.bucket_count());
                if !(b == b0 && hx >> 49 == t0) {
                    assert(i2.lookup(b, hx >> 49) == i1.lookup(b, hx >> 49));
                }
            }
        }
    }
    assert forall|x: int| #[trigger] r2.dom().contains(x) implies prev(r2, x) < x && (prev(r2, x)
        >= 64 ==> r2.dom().contains(prev(r2, x)) && same_chain(i2, r2[prev(r2, x)].key, r2[x].key)) by {
        if x != a {
            assert(recs.dom().contains(x));
            let p = prev(recs, x);
            if p >= 64 {
                assert(same_chain(i1, recs[p].key, recs[x].key));
                assert(i2.bucket_of(hash::key_hash(recs[p].key)) == i1.bucket_of(
                    hash::key_hash(recs[p].key),
                ));
                assert(i2.bucket_of(hash::key_hash(recs[x].key)) == i1.bucket_of(
                    hash::key_hash(recs[x].key),
                ));
            }
        } else {
            let p = chain_head(i1, r.key);
            if p >= 64 {
                assert(i2.bucket_of(hash::key_hash(recs[p].key)) == i1.bucket_of(
                    hash::key_hash(recs[p].key),
                ));
            }
        }
    }
    assert forall|b: int, t: u64| 0 <= b < i2.bucket_count() implies entry_ok(
        i2,
        r2,
        b,
        t,
        #[trigger] i2.lookup(b, t),
    ) by {
        if b == b0 && t == t0 {
        } else {
            assert(i2.lookup(b, t) == i1.lookup(b, t));
            assert(entry_ok(i1, recs, b, t, i1.lookup(b, t)));
            if let Some(x) = i1.lookup(b, t) {
                if x >= 64 {
                    assert(i2.bucket_of(hash::key_hash(recs[x as int].key)) == i1.bucket_of(
                        hash::key_hash(recs[x as int].key),
                    ));
                }
            }
        }
    }
}

proof fn lemma_reindex_unbroken(i1: HashIndex, i2: HashIndex, recs: Recs, floor: int)
    requires
        unbroken(i1, recs, floor),
        i2.same_shape(&i1),
        forall|h: u64| 0 <= #[trigger] i1.bucket_of(h) < i1.bucket_count(),
        forall|b: int, t: u64|
            0 <= b < i1.bucket_count() ==> #[trigger] i2.lookup(b, t) == i1.lookup(b, t) || (
            i1.lookup(b, t) is None && i2.lookup(b, t) == Some(1u64)),
        forall|x: int| #[trigger] recs.dom().contains(x) ==> prev(recs, x) < x,
    ensures
        unbroken(i2, recs, floor),
{
    assert forall|x: int, y: int|
        #![trigger recs.dom().contains(x), recs.dom().contains(y)]
        recs.dom().contains(x) && recs.dom().contains(y) && floor <= x < y && record::valid_of(recs[x].word)
            && same_chain(i2, recs[x].key, recs[y].key) implies x <= prev(recs, y) by {
        let hx = hash::key_hash(recs[x].key);
        let hy = hash::key_hash(recs[y].key);
        assert(i2.bucket_of(hx) == i1.bucket_of(hx));
        assert(i2.bucket_of(hy) == i1.bucket_of(hy));
        assert(same_chain(i1, recs[x].key, recs[y].key));
    }
    assert forall|x: int| #[trigger]
        recs.dom().contains(x) && floor <= x && record::valid_of(recs[x].word) implies x <= chain_head(
        i2,
        recs[x].key,
    ) by {
        let h = hash::key_hash(recs[x].key);
        assert(i2.bucket_of(h) == i1.bucket_of(h));
        assert(x <= chain_head(i1, recs[x].key));
        assert(i2.lookup(i1.bucket_of(h), h >> 49) == i1.lookup(i1.bucket_of(h), h >> 49) || (
        i1.lookup(i1.bucket_of(h), h >> 49) is None && i2.lookup(i1.bucket_of(h), h >> 49) == Some(
            1u64,
        )));
    }
}

/// Giving a tag an entry that holds no record yet changes nothing.
pub proof fn lemma_reindex(i1: HashIndex, i2: HashIndex, recs: Recs, floor: int)
    requires
        chains_ok(i1, recs),
        i2.same_shape(&i1),
        forall|h: u64| 0 <= #[trigger] i1.bucket_of(h) < i1.bucket_count(),
        forall|b: int, t: u64|
            0 <= b < i1.bucket_count() ==> #[trigger] i2.lookup(b, t) == i1.lookup(b, t) || (
            i1.lookup(b, t) is None && i2.lookup(b, t) == Some(1u64)),
    ensures
        chains_ok(i2, recs),
        unbroken(i1, recs, floor) ==> unbroken(i2, recs, floor),
        forall|key: Seq<u8>| #[trigger] newest(i2, recs, key) == newest(i1, recs, key),
{
    if unbroken(i1, recs, floor) {
        lemma_reindex_unbroken(i1, i2, recs, floor);
    }
    assert forall|x: int| #[trigger] recs.dom().contains(x) implies prev(recs, x) < x && (prev(
        recs,
        x,
    ) >= 64 ==> recs.dom().contains(prev(recs, x)) && same_chain(
        i2,
        recs[prev(recs, x)].key,
        recs[x].key,
    )) by {
        let p = prev(recs, x);
        assert(i2.bucket_of(hash::key_hash(recs[p].key)) == i1.bucket_of(
            hash::key_hash(recs[p].key),
        ));
        assert(i2.bucket_of(hash::key_hash(recs[x].key)) == i1.bucket_of(
            hash::key_hash(recs[x].key),
        ));
    }
    assert forall|b: int, t: u64| 0 <= b < i2.bucket_count() implies entry_ok(
        i2,
        recs,
        b,
        t,
        #[trigger] i2.lookup(b, t),
    ) by {
        assert(entry_ok(i1, recs, b, t, i1.lookup(b, t)));
        if let Some(x) = i1.lookup(b, t) {
            if x >= 64 {
                assert(i2.bucket_of(hash::key_hash(recs[x as int].key)) == i1.bucket_of(
                    hash::key_hash(recs[x as int].key),
                ));
            }
        }
    }
    assert forall|key: Seq<u8>| #[trigger] newest(i2, recs, key) == newest(i1, recs, key) by {
        let h = hash::key_hash(key);
        assert(i2.bucket_of(h) == i1.bucket_of(h));
    }
}

// ---------------------------------------------------------------------------
// Places in the log
// ---------------------------------------------------------------------------

/// A record as it may stand on the device: sealing happens in memory only.
pub open spec fn on_disk(content: Seq<u8>, a: int, r: RecordView) -> bool {
    &&& a + r.size() <= content.len()
    &&& content.subrange(a, a + r.size()) == record::encode(r) || (lasting(r.word)
        && content.subrange(a, a + r.size()) == record::encode(
        r.with_word(r.word & !record::SEALED_BIT),
    ))
}

/// No read-only boundary runs through `[a, a + n)`.
pub open spec fn uncut(bounds: Set<int>, a: int, n: int) -> bool {
    forall|x: int| #[trigger] bounds.contains(x) ==> a < x ==> a + n <= x
}

/// A header word that is not blank without its seal either: it is valid, or it
/// was undone and belongs to a version that never came to be.
pub open spec fn lasting(w: u64) -> bool {
    record::valid_of(w) || record::new_version_of(w)
}

/// The header word of a record is never blank: a record that never became valid,
/// or was dropped, keeps its seal.
pub open spec fn marked(w: u64) -> bool {
    lasting(w) || record::sealed_of(w)
}

/// A record stands at its address.
pub open spec fn placed(v: LogView, a: int, r: RecordView) -> bool {
    &&& r.wf()
    &&& marked(r.word)
    &&& 64 <= a
    &&& 64 <= a % v.psize
    &&& a % v.psize + r.size() <= v.psize
    &&& a + r.size() <= v.tail()
    &&& uncut(v.bounds, a, r.size())
    &&& a >= v.head ==> v.mem_range(a, r.size()) == record::encode(r)
    &&& a < v.flushed ==> on_disk(v.content, a, r)
}

pub open spec fn all_placed(v: LogView, recs: Recs) -> bool {
    forall|a: int| #[trigger] recs.dom().contains(a) ==> placed(v, a, recs[a])
}

/// `[lo, hi)` holds zero bytes, in memory and on the device.
pub open spec fn blank(v: LogView, lo: int, hi: int) -> bool {
    &&& forall|x: int| lo <= x < hi && x >= v.head ==> #[trigger] v.mem(x) == 0
    &&& forall|x: int| lo <= x < hi && x < v.flushed ==> #[trigger] v.content[x] == 0
}

/// First address of the page after that of `a`.
pub open spec fn page_after(v: LogView, a: int) -> int {
    (a / v.psize + 1) * v.psize
}

/// What follows record `i` in allocation order: the next record, either
/// directly or, after zero bytes to the end of the page, on the next page.
pub open spec fn followed(v: LogView, recs: Recs, order: Seq<int>, i: int) -> bool {
    let a = order[i];
    let e = a + recs[a].size();
    ||| i + 1 < order.len() && order[i + 1] == e && e < page_after(v, a)
    ||| blank(v, e, page_after(v, a)) && (i + 1 < order.len() ==> order[i + 1] == page_after(v, a)
        + 64)
}

/// The records, in allocation order, fill the log from its beginning.
pub open spec fn tiled(v: LogView, recs: Recs, order: Seq<int>) -> bool {
    &&& forall|i: int| 0 <= i < order.len() ==> recs.dom().contains(#[trigger] order[i])
    &&& forall|a: int| #[trigger] recs.dom().contains(a) ==> order.contains(a)
    &&& order.len() > 0 ==> order[0] == 64
    &&& forall|i: int| 0 <= i < order.len() ==> #[trigger] followed_at(v, recs, order, i)
    &&& order.len() == 0 ==> blank(v, 64, v.psize)
}

/// [`followed`], named so that it can be asked for by position.
pub open spec fn followed_at(v: LogView, recs: Recs, order: Seq<int>, i: int) -> bool {
    followed(v, recs, order, i)
}

/// The tail stands right behind the last record, or at the end of its page.
pub open spec fn tight(v: LogView, recs: Recs, order: Seq<int>) -> bool {
    if order.len() == 0 {
        v.tail_page == 0 && v.tail_off == 64
    } else {
        let a = order.last();
        v.tail_page == a / v.psize && (v.tail_off == a % v.psize + recs[a].size() || v.tail_off
            == v.psize)
    }
}

/// Resident pages keep their bytes.
pub open spec fn mem_same(o: LogView, n: LogView) -> bool {
    &&& n.psize == o.psize
    &&& n.bsize == o.bsize
    &&& forall|p: int| #[trigger] o.resident(p) ==> n.page(p) == o.page(p)
}

/// The log moved on: boundaries forward, resident bytes and flushed bytes kept.
pub open spec fn log_step(o: LogView, n: LogView, arg: int) -> bool {
    &&& o.shape()
    &&& o.order()
    &&& n.shape()
    &&& n.order()
    &&& log::same_config(o, n)
    &&& log::advanced(o, n)
    &&& log::bounds_grow(o, n, arg)
    &&& mem_same(o, n)
    &&& o.tail_page <= n.tail_page
    &&& o.tail() <= n.tail()
}

/// Nothing was written: only boundaries moved, and perhaps the rest of the
/// tail page was given up.
pub open spec fn log_wait(o: LogView, n: LogView) -> bool {
    &&& o.shape()
    &&& o.order()
    &&& n.shape()
    &&& n.order()
    &&& log::same_config(o, n)
    &&& log::advanced(o, n)
    &&& log::bounds_grow(o, n, 0)
    &&& n.pages == o.pages
    &&& n.tail_page == o.tail_page
    &&& n.tail_off == o.tail_off || n.tail_off == o.psize
}

pub proof fn lemma_wait_is_step(o: LogView, n: LogView)
    requires
        log_wait(o, n),
    ensures
        log_step(o, n, 0),
{
}

pub proof fn lemma_wait_trans(a: LogView, b: LogView, c: LogView)
    requires
        log_wait(a, b),
        log_wait(b, c),
    ensures
        log_wait(a, c),
{
    assert forall|i: int| 0 <= i < a.flushed && i < a.content.len() implies #[trigger] c.content[i]
        == a.content[i] by {
        assert(b.content[i] == a.content[i]);
    }
    assert forall|i: int| a.flushed <= i < c.flushed implies #[trigger] c.content[i] == a.mem(i) by {
        if i < b.flushed {
            assert(b.content[i] == a.mem(i));
        } else {
            assert(c.content[i] == b.mem(i));
        }
    }
    assert forall|x: int| #[trigger] c.bounds.contains(x) implies a.bounds.contains(x) || x % a.psize
        == 0 || x == 0 by {
        assert(b.bounds.contains(x) || x % b.psize == 0 || x == 0);
    }
}

pub proof fn lemma_mem_eq(o: LogView, n: LogView, x: int)
    requires
        o.shape(),
        o.order(),
        mem_same(o, n),
        o.closed <= x < (o.tail_page + 1) * o.psize,
    ensures
        n.mem(x) == o.mem(x),
{
    o.lemma_resident(x);
}

pub proof fn lemma_placed_step(o: LogView, n: LogView, arg: int, a: int, r: RecordView)
    requires
        log_step(o, n, arg),
        placed(o, a, r),
        arg <= a || a + r.size() <= arg,
    ensures
        placed(n, a, r),
{
    let p = o.psize;
    record::lemma_size_facts(r);
    crate::math::lemma_div(a, p);
    o.lemma_tail();
    assert forall|x: int| #[trigger] n.bounds.contains(x) && a < x implies a + r.size() <= x by {
        if !o.bounds.contains(x) && x != arg {
            crate::math::lemma_div(x, p);
            assert(a + r.size() <= x) by (nonlinear_arith)
                requires
                    x == (x / p) * p + x % p,
                    x % p == 0,
                    a == (a / p) * p + a % p,
                    a % p + r.size() <= p,
                    a < x,
                    p > 0,
                    0 <= a % p,
            ;
        }
    }
    if a >= n.head {
        o.lemma_resident(a);
        assert(n.mem_range(a, r.size()) == o.mem_range(a, r.size()));
    }
    if a < n.flushed {
        if a < o.flushed {
            assert(a + r.size() <= o.flushed);
            assert(n.content.subrange(a, a + r.size()) =~= o.content.subrange(a, a + r.size())) by {
                assert forall|i: int| a <= i < a + r.size() implies n.content[i] == o.content[i] by {}
            }
        } else {
            assert(a + r.size() <= n.flushed);
            let e = record::encode(r);
            assert(n.content.subrange(a, a + r.size()) =~= e) by {
                assert forall|i: int| 0 <= i < r.size() implies n.content[a + i] == e[i] by {
                    assert(n.content[a + i] == o.mem(a + i));
                    crate::math::lemma_split(a / p, a % p + i, p);
                    assert(o.mem_range(a, r.size())[i] == e[i]);
                }
            }
        }
    }
}

pub proof fn lemma_blank_step(o: LogView, n: LogView, arg: int, lo: int, hi: int)
    requires
        log_step(o, n, arg),
        blank(o, lo, hi),
        64 <= lo,
        hi <= (o.tail_page + 1) * o.psize,
    ensures
        blank(n, lo, hi),
{
    assert forall|x: int| lo <= x < hi && x >= n.head implies #[trigger] n.mem(x) == 0 by {
        lemma_mem_eq(o, n, x);
        assert(o.mem(x) == 0);
    }
    assert forall|x: int| lo <= x < hi && x < n.flushed implies #[trigger] n.content[x] == 0 by {
        if x < o.flushed {
            assert(o.content[x] == 0);
        } else {
            assert(n.content[x] == o.mem(x));
            assert(o.mem(x) == 0);
        }
    }
}

/// Records of one page end by the end of that page, which is not beyond the
/// tail page.
pub proof fn lemma_page_after(v: LogView, a: int, r: RecordView)
    requires
        v.shape(),
        placed(v, a, r),
    ensures
        a + r.size() <= page_after(v, a) <= (v.tail_page + 1) * v.psize,
        0 <= a / v.psize <= v.tail_page,
{
    record::lemma_size_facts(r);
    crate::math::lemma_div(a, v.psize);
    v.lemma_tail();
    crate::math::lemma_mul_add(a / v.psize, 1, v.psize);
    crate::math::lemma_page_bounds(a, 0, v.tail_page + 1, v.psize);
    crate::math::lemma_mul_le(a / v.psize + 1, v.tail_page + 1, v.psize);
}

/// The log moved on; every record is still where it was.
pub proof fn lemma_step(o: LogView, n: LogView, arg: int, recs: Recs, order: Seq<int>)
    requires
        log_step(o, n, arg),
        all_placed(o, recs),
        tiled(o, recs, order),
        forall|a: int| #[trigger] recs.dom().contains(a) ==> arg <= a || a + recs[a].size() <= arg,
    ensures
        all_placed(n, recs),
        tiled(n, recs, order),
{
    assert forall|a: int| #[trigger] recs.dom().contains(a) implies placed(n, a, recs[a]) by {
        lemma_placed_step(o, n, arg, a, recs[a]);
    }
    assert forall|i: int| 0 <= i < order.len() implies #[trigger] followed_at(n, recs, order, i) by {
        assert(followed_at(o, recs, order, i));
        let a = order[i];
        let e = a + recs[a].size();
        record::lemma_size_facts(recs[a]);
        lemma_page_after(o, a, recs[a]);
        if blank(o, e, page_after(o, a)) {
            lemma_blank_step(o, n, arg, e, page_after(o, a));
        }
    }
    if order.len() == 0 {
        o.lemma_tail();
        crate::math::lemma_mul_add(0, 1, o.psize);
        crate::math::lemma_mul_le(1, o.tail_page + 1, o.psize);
        lemma_blank_step(o, n, arg, 64, o.psize);
    }
}

// ---------------------------------------------------------------------------
// Writing records
// ---------------------------------------------------------------------------

/// Records in allocation order do not overlap.
pub proof fn lemma_sorted(v: LogView, recs: Recs, order: Seq<int>, i: int, j: int)
    requires
        v.shape(),
        all_placed(v, recs),
        tiled(v, recs, order),
        0 <= i < j < order.len(),
    ensures
        order[i] + recs[order[i]].size() <= order[j],
    decreases j - i,
{
    let a = order[j - 1];
    assert(followed_at(v, recs, order, j - 1));
    lemma_page_after(v, a, recs[a]);
    record::lemma_size_facts(recs[a]);
    if i < j - 1 {
        lemma_sorted(v, recs, order, i, j - 1);
    }
}

pub proof fn lemma_disjoint(v: LogView, recs: Recs, order: Seq<int>, x: int, y: int)
    requires
        v.shape(),
        all_placed(v, recs),
        tiled(v, recs, order),
        recs.dom().contains(x),
        recs.dom().contains(y),
        x < y,
    ensures
        x + recs[x].size() <= y,
{
    let i = choose|i: int| 0 <= i < order.len() && order[i] == x;
    let j = choose|j: int| 0 <= j < order.len() && order[j] == y;
    if i < j {
        lemma_sorted(v, recs, order, i, j);
    } else if j < i {
        lemma_sorted(v, recs, order, j, i);
        record::lemma_size_facts(recs[y]);
    }
}

/// Bytes outside a record that was written stay what they were.
pub proof fn lemma_with_record(v: LogView, a: int, r: RecordView, x: int)
    requires
        v.shape(),
        v.order(),
        v.resident(a / v.psize),
        r.wf(),
        a % v.psize + r.size() <= v.psize,
        v.resident(x / v.psize),
        0 <= x,
        x < a || a + r.size() <= x,
        0 <= a,
    ensures
        v.with_record(a, r).mem(x) == v.mem(x),
{
    record::lemma_size_facts(r);
    let p = v.psize;
    crate::math::lemma_div(a, p);
    crate::math::lemma_div(x, p);
    if x / p != a / p {
        v.lemma_distinct_slots(x / p, a / p);
    }
}

/// The bytes of another record are untouched.
pub proof fn lemma_with_record_range(v: LogView, a: int, r: RecordView, x: int, n: int)
    requires
        v.shape(),
        v.order(),
        v.resident(a / v.psize),
        r.wf(),
        0 <= a,
        a % v.psize + r.size() <= v.psize,
        v.resident(x / v.psize),
        0 <= x,
        0 <= n,
        x % v.psize + n <= v.psize,
        x + n <= a || a + r.size() <= x,
    ensures
        v.with_record(a, r).mem_range(x, n) == v.mem_range(x, n),
{
    record::lemma_size_facts(r);
    let p = v.psize;
    let w = v.with_record(a, r);
    crate::math::lemma_div(x, p);
    crate::math::lemma_div(a, p);
    assert forall|i: int| 0 <= i < n implies w.mem_range(x, n)[i] == v.mem_range(x, n)[i] by {
        crate::math::lemma_split(x / p, x % p + i, p);
        lemma_with_record(v, a, r, x + i);
    }
    assert(w.mem_range(x, n) =~= v.mem_range(x, n));
}

/// A written record reads back.
pub proof fn lemma_with_record_self(v: LogView, a: int, r: RecordView)
    requires
        v.shape(),
        r.wf(),
        0 <= a,
        a % v.psize + r.size() <= v.psize,
    ensures
        v.with_record(a, r).mem_range(a, r.size()) == record::encode(r),
{
    record::lemma_size_facts(r);
    crate::math::lemma_div(a, v.psize);
    crate::math::lemma_div(a / v.psize, v.bsize);
    assert(v.with_record(a, r).mem_range(a, r.size()) =~= record::encode(r));
}

/// Rewriting a record in memory, in the space it has.
pub proof fn lemma_rewrite_placed(
    v: LogView,
    recs: Recs,
    order: Seq<int>,
    a: int,
    r: RecordView,
)
    requires
        v.shape(),
        v.order(),
        all_placed(v, recs),
        tiled(v, recs, order),
        recs.dom().contains(a),
        a >= v.head,
        r.wf(),
        record::valid_of(r.word),
        r.size() == recs[a].size(),
        a < v.flushed ==> r.with_word(r.word & !record::SEALED_BIT) == recs[a].with_word(
            recs[a].word & !record::SEALED_BIT,
        ) && record::sealed_of(r.word),
    ensures
        all_placed(v.with_record(a, r), recs.insert(a, r)),
        tiled(v.with_record(a, r), recs.insert(a, r), order),
{
    let w = v.with_record(a, r);
    let r2 = recs.insert(a, r);
    v.lemma_tail();
    v.lemma_resident(a);
    assert(placed(v, a, recs[a]));
    record::lemma_size_facts(r);
    assert forall|x: int| #[trigger] r2.dom().contains(x) implies placed(w, x, r2[x]) by {
        if x == a {
            lemma_with_record_self(v, a, r);
            if a < v.flushed {
                let b = recs[a];
                record::lemma_word_bits(b.word, 0);
                record::lemma_word_bits(r.word, 0);
                assert(on_disk(v.content, a, b));
                let u = b.with_word(b.word & !record::SEALED_BIT);
                assert(r.with_word(r.word & !record::SEALED_BIT) == u);
                assert(u.size() == b.size());
                assert(b.word & !record::SEALED_BIT == b.word || record::sealed_of(b.word));
                if v.content.subrange(a, a + b.size()) == record::encode(b) && b.word
                    & !record::SEALED_BIT != b.word {
                    assert(record::sealed_of(b.word));
                    record::lemma_sealed_unique(b.word, r.word);
                    assert(r =~= b);
                }
                assert(b.word & !record::SEALED_BIT == b.word ==> b =~= u);
            }
        } else {
            assert(recs.dom().contains(x));
            let q = recs[x];
            record::lemma_size_facts(q);
            if x < a {
                lemma_disjoint(v, recs, order, x, a);
            } else {
                lemma_disjoint(v, recs, order, a, x);
            }
            if x >= v.head {
                v.lemma_resident(x);
                lemma_with_record_range(v, a, r, x, q.size());
            }
        }
    }
    assert forall|i: int| 0 <= i < order.len() implies #[trigger] followed_at(w, r2, order, i) by {
        assert(followed_at(v, recs, order, i));
        let x = order[i];
        assert(r2[x].size() == recs[x].size());
        let e = x + recs[x].size();
        let hi = page_after(v, x);
        record::lemma_size_facts(recs[x]);
        lemma_page_after(v, x, recs[x]);
        if !(i + 1 < order.len() && order[i + 1] == e && e < hi) {
            assert(blank(v, e, hi));
            assert forall|y: int| e <= y < hi && y >= w.head implies #[trigger] w.mem(y) == 0 by {
                assert(v.mem(y) == 0);
                v.lemma_resident(y);
                // the record does not reach into the gap
                if a > x {
                    let j = choose|j: int| 0 <= j < order.len() && order[j] == a;
                    if j < i {
                        lemma_sorted(v, recs, order, j, i);
                    }
                    assert(i < j);
                    assert(order[i + 1] == hi + 64);
                    if i + 1 < j {
                        lemma_sorted(v, recs, order, i + 1, j);
                        record::lemma_size_facts(recs[order[i + 1]]);
                    }
                } else if a < x {
                    lemma_disjoint(v, recs, order, a, x);
                }
                lemma_with_record(v, a, r, y);
            }
        }
    }
}

/// Where the next record goes.
pub open spec fn next_place(v: LogView, recs: Recs, order: Seq<int>, a: int) -> bool {
    if order.len() == 0 {
        a == 64
    } else {
        let last = order.last();
        let e = last + recs[last].size();
        (a == e && e < page_after(v, last)) || a == page_after(v, last) + 64
    }
}

/// A record was written behind the last one.
pub proof fn lemma_append_placed(
    v: LogView,
    recs: Recs,
    order: Seq<int>,
    a: int,
    r: RecordView,
)
    requires
        v.shape(),
        v.order(),
        all_placed(v, recs),
        tiled(v, recs, order),
        next_place(v, recs, order, a),
        forall|x: int| #[trigger] recs.dom().contains(x) ==> x + recs[x].size() <= a,
        r.wf(),
        record::valid_of(r.word),
        64 <= a % v.psize,
        a % v.psize + r.size() <= v.psize,
        a + r.size() == v.tail(),
        v.tail_page == a / v.psize,
        v.ro <= a,
        uncut(v.bounds, a, r.size()),
        blank(v, a, (v.tail_page + 1) * v.psize),
    ensures
        all_placed(v.with_record(a, r), recs.insert(a, r)),
        tiled(v.with_record(a, r), recs.insert(a, r), order.push(a)),
{
    let w = v.with_record(a, r);
    let r2 = recs.insert(a, r);
    let o2 = order.push(a);
    v.lemma_tail();
    record::lemma_size_facts(r);
    crate::math::lemma_div(a, v.psize);
    v.lemma_resident(a);
    assert(!recs.dom().contains(a)) by {
        if recs.dom().contains(a) {
            record::lemma_size_facts(recs[a]);
        }
    }
    assert forall|x: int| #[trigger] r2.dom().contains(x) implies placed(w, x, r2[x]) by {
        if x == a {
            lemma_with_record_self(v, a, r);
        } else {
            assert(recs.dom().contains(x));
            let q = recs[x];
            record::lemma_size_facts(q);
            if x >= v.head {
                v.lemma_resident(x);
                lemma_with_record_range(v, a, r, x, q.size());
            }
        }
    }
    assert forall|x: int| #[trigger] r2.dom().contains(x) implies o2.contains(x) by {
        if x == a {
            assert(o2[o2.len() - 1] == a);
        } else {
            assert(recs.dom().contains(x));
            let i = choose|i: int| 0 <= i < order.len() && order[i] == x;
            assert(o2[i] == x);
        }
    }
    assert forall|i: int| 0 <= i < o2.len() implies r2.dom().contains(#[trigger] o2[i]) by {
        if i < order.len() {
            assert(o2[i] == order[i]);
        }
    }
    assert forall|i: int| 0 <= i < o2.len() implies #[trigger] followed_at(w, r2, o2, i) by {
        if i < order.len() {
            assert(followed_at(v, recs, order, i));
            let x = order[i];
            assert(o2[i] == x);
            assert(recs.dom().contains(x));
            let e = x + recs[x].size();
            let hi = page_after(v, x);
            record::lemma_size_facts(recs[x]);
            lemma_page_after(v, x, recs[x]);
            if i + 1 < order.len() {
                assert(o2[i + 1] == order[i + 1]);
                assert(recs.dom().contains(order[i + 1]));
                record::lemma_size_facts(recs[order[i + 1]]);
            } else {
                assert(o2[i + 1] == a);
            }
            if !(i + 1 < o2.len() && o2[i + 1] == e && e < hi) {
                assert(blank(v, e, hi));
                assert(o2[i + 1] == hi + 64);
                assert forall|y: int| e <= y < hi && y >= w.head implies #[trigger] w.mem(y) == 0 by {
                    assert(v.mem(y) == 0);
                    v.lemma_resident(y);
                    lemma_with_record(v, a, r, y);
                }
            }
        } else {
            let hi = page_after(w, a);
            assert(hi == (v.tail_page + 1) * v.psize);
            assert forall|y: int| a + r.size() <= y < hi && y >= w.head implies #[trigger] w.mem(y)
                == 0 by {
                assert(v.mem(y) == 0);
                v.lemma_resident(y);
                lemma_with_record(v, a, r, y);
            }
            assert(blank(w, a + r.size(), hi));
        }
    }
}

} // verus!
