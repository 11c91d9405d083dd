//! Whether a device holds a log that a store can be rebuilt from: one walk over
//! its bytes that checks every record, every gap and every chain.
use crate::bytes::bytes_eq;
use crate::chain;
use crate::chain::Recs;
use crate::checkpoint;
use crate::device::{Device, DeviceError};
use crate::hash;
use crate::hash::hash64;
use crate::index::HashIndex;
use crate::log;
use crate::log::{LogView, ADDRESS_LIMIT, FIRST_VALID_ADDRESS};
use crate::record;
use crate::record::{RecordInfo, RecordPtr, RecordView};
use crate::scan;
use crate::store::Store;
use vstd::prelude::*;
use vstd::slice::slice_subrange;

verus! {

/// A record of the log and the chain that it is on.
struct Place {
    addr: u64,
    bucket: usize,
    tag: u64,
}

/// `known` lists the records of the log.
spec fn lists_places(
    known: Seq<Place>,
    index: HashIndex,
    recs: Recs,
    order: Seq<int>,
) -> bool {
    &&& known.len() == order.len()
    &&& forall|i: int|
        0 <= i < known.len() ==> (#[trigger] known[i]).addr == order[i] && known[i].bucket
            == index.bucket_of(hash::key_hash(recs[order[i]].key)) && known[i].tag == hash::key_hash(
            recs[order[i]].key,
        ) >> 49
}

/// The log `v` is on the device, all of it.
spec fn all_cold(v: LogView) -> bool {
    &&& v.shape()
    &&& v.head == v.tail()
    &&& v.flushed == v.tail()
    &&& v.bounds == set![v.tail()]
    &&& v.tail() > 64
    &&& v.content.len() >= v.tail()
    &&& forall|s: int, x: int|
        0 <= s < v.bsize && 0 <= x < v.psize ==> #[trigger] v.pages[s][x] == 0
}

/// The records found so far stand one behind the other from the beginning of
/// the log, and their chains lead down to records among them.
spec fn laid(v: LogView, index: HashIndex, recs: Recs, order: Seq<int>) -> bool {
    &&& chain::all_placed(v, recs)
    &&& forall|a: int| #[trigger]
        recs.dom().contains(a) ==> v.content.subrange(a, a + recs[a].size()) == record::encode(
            recs[a],
        )
    &&& checkpoint::chains_closed(index, recs)
    &&& forall|i: int| 0 <= i < order.len() ==> recs.dom().contains(#[trigger] order[i])
    &&& forall|a: int| #[trigger] recs.dom().contains(a) ==> order.contains(a)
    &&& order.len() > 0 ==> order[0] == 64
    &&& forall|i: int| 0 <= i < order.len() - 1 ==> #[trigger] chain::followed_at(v, recs, order, i)
    &&& forall|i: int, j: int| 0 <= i < j < order.len() ==> order[i] < order[j]
}

/// Where the next record has to stand.
spec fn next_at(v: LogView, recs: Recs, order: Seq<int>, pos: int) -> bool {
    if order.len() == 0 {
        pos == 64
    } else {
        let a = order.last();
        let e = a + recs[a].size();
        ||| pos == e && e < chain::page_after(v, a)
        ||| chain::blank(v, e, chain::page_after(v, a)) && pos == chain::page_after(v, a) + 64
    }
}

/// The log of the records `all` in the order `whole` begins with these.
spec fn begins(recs: Recs, order: Seq<int>, all: Recs, whole: Seq<int>) -> bool {
    &&& order.len() <= whole.len()
    &&& order == whole.subrange(0, order.len() as int)
    &&& forall|i: int| 0 <= i < order.len() ==> recs[#[trigger] order[i]] == all[order[i]]
}

/// It goes on at `pos`.
spec fn goes_on(recs: Recs, order: Seq<int>, pos: int, all: Recs, whole: Seq<int>) -> bool {
    &&& begins(recs, order, all, whole)
    &&& order.len() < whole.len()
    &&& pos == whole[order.len() as int]
}

/// One more record.
proof fn lemma_lay(v: LogView, index: HashIndex, recs: Recs, order: Seq<int>, pos: int, r: RecordView)
    requires
        all_cold(v),
        laid(v, index, recs, order),
        next_at(v, recs, order, pos),
        r.wf(),
        chain::marked(r.word),
        64 <= pos,
        64 <= pos % v.psize,
        pos % v.psize + r.size() <= v.psize,
        pos + r.size() <= v.tail(),
        v.content.subrange(pos, pos + r.size()) == record::encode(r),
        record::prev_of(r.word) < pos,
        record::prev_of(r.word) >= 64 ==> recs.dom().contains(record::prev_of(r.word) as int)
            && chain::same_chain(index, recs[record::prev_of(r.word) as int].key, r.key),
    ensures
        laid(v, index, recs.insert(pos, r), order.push(pos)),
        forall|i: int| 0 <= i < order.len() ==> (#[trigger] order[i]) < pos,
{
    let recs2 = recs.insert(pos, r);
    let order2 = order.push(pos);
    let n = order.len() as int;
    record::lemma_size_facts(r);
    if n > 0 {
        let a = order[n - 1];
        assert(recs.dom().contains(order[n - 1]));
        assert(chain::placed(v, a, recs[a]));
        record::lemma_size_facts(recs[a]);
        chain::lemma_page_after(v, a, recs[a]);
        assert(a < pos);
    }
    assert forall|i: int| 0 <= i < n implies (#[trigger] order[i]) < pos by {
        if i < n - 1 {
            assert(order[i] < order[n - 1]);
        }
    }
    assert(!recs.dom().contains(pos)) by {
        if recs.dom().contains(pos) {
            let i = choose|i: int| 0 <= i < order.len() && order[i] == pos;
            assert(order[i] < pos);
        }
    }
    assert(chain::placed(v, pos, r));
    assert forall|a: int| #[trigger] recs2.dom().contains(a) implies order2.contains(a) by {
        if a == pos {
            assert(order2[n] == a);
        } else {
            assert(recs.dom().contains(a));
            let i = choose|i: int| 0 <= i < order.len() && order[i] == a;
            assert(order2[i] == a);
        }
    }
    assert forall|i: int| 0 <= i < order2.len() implies recs2.dom().contains(#[trigger] order2[i]) by {
        if i < n {
            assert(recs.dom().contains(order[i]));
        }
    }
    assert forall|i: int| 0 <= i < order2.len() - 1 implies #[trigger] chain::followed_at(
        v,
        recs2,
        order2,
        i,
    ) by {
        assert(recs.dom().contains(order[i]));
        assert(order2[i] == order[i]);
        assert(recs2[order[i]] == recs[order[i]]);
        if i < n - 1 {
            assert(chain::followed_at(v, recs, order, i));
            assert(order2[i + 1] == order[i + 1]);
        }
    }
    assert forall|a: int| #[trigger] recs2.dom().contains(a) implies chain::prev(recs2, a) < a && (chain::prev(
        recs2,
        a,
    ) >= 64 ==> recs2.dom().contains(chain::prev(recs2, a)) && chain::same_chain(
        index,
        recs2[chain::prev(recs2, a)].key,
        recs2[a].key,
    )) by {
        if a != pos {
            assert(recs.dom().contains(a));
        }
    }
    assert forall|a: int| #[trigger] recs2.dom().contains(a) implies chain::placed(v, a, recs2[a])
        && v.content.subrange(a, a + recs2[a].size()) == record::encode(recs2[a]) by {
        if a != pos {
            assert(recs.dom().contains(a));
        }
    }
}

/// The place of the record at `addr`.
fn find_place(known: &Vec<Place>, addr: u64) -> (r: Option<usize>)
    requires
        forall|i: int, j: int| 0 <= i < j < known@.len() ==> known@[i].addr < known@[j].addr,
    ensures
        r matches Some(i) ==> i < known@.len() && known@[i as int].addr == addr,
        r is None ==> forall|i: int| 0 <= i < known@.len() ==> (#[trigger] known@[i]).addr != addr,
{
    let mut lo: usize = 0;
    let mut hi: usize = known.len();
    while lo < hi
        invariant
            lo <= hi <= known@.len(),
            forall|i: int, j: int| 0 <= i < j < known@.len() ==> known@[i].addr < known@[j].addr,
            forall|i: int| 0 <= i < lo ==> (#[trigger] known@[i]).addr < addr,
            forall|i: int| hi <= i < known@.len() ==> (#[trigger] known@[i]).addr > addr,
        decreases hi - lo,
    {
        let mid: usize = lo + (hi - lo) / 2;
        let at: u64 = known[mid].addr;
        if at == addr {
            return Some(mid);
        }
        if at < addr {
            lo = mid + 1;
        } else {
            hi = mid;
        }
    }
    None
}

/// Whether every byte from `off` on is zero.
fn blank_from(s: &[u8], off: usize) -> (r: bool)
    requires
        off <= s@.len(),
    ensures
        r == (forall|i: int| off <= i < s@.len() ==> #[trigger] s@[i] == 0),
{
    let mut i: usize = off;
    while i < s.len()
        invariant
            off <= i <= s@.len(),
            forall|j: int| off <= j < i ==> #[trigger] s@[j] == 0,
        decreases s@.len() - i,
    {
        if s[i] != 0 {
            return false;
        }
        i += 1;
    }
    true
}

/// A whole log on the device.
spec fn whole_log(v: LogView, index: HashIndex, all: Recs, whole: Seq<int>) -> bool {
    &&& chain::all_placed(v, all)
    &&& chain::tiled(v, all, whole)
    &&& chain::tight(v, all, whole)
    &&& forall|a: int| #[trigger]
        all.dom().contains(a) ==> v.content.subrange(a, a + all[a].size()) == record::encode(all[a])
    &&& checkpoint::chains_closed(index, all)
}

/// What is in question: that the device holds the log `w`, which goes on at
/// `pos`.
spec fn in_question(
    v: LogView,
    index: HashIndex,
    recs: Recs,
    order: Seq<int>,
    pos: int,
    w: Option<(Recs, Seq<int>)>,
) -> bool {
    w matches Some(x) ==> whole_log(v, index, x.0, x.1) && goes_on(recs, order, pos, x.0, x.1)
}

/// Zero bytes on the device up to the tail are a gap.
proof fn lemma_gap(v: LogView, lo: int, hi: int)
    requires
        all_cold(v),
        0 <= lo,
        forall|x: int| lo <= x < hi && x < v.tail() ==> #[trigger] v.content[x] == 0,
    ensures
        chain::blank(v, lo, hi),
{
    assert forall|x: int| lo <= x < hi && x >= v.head implies #[trigger] v.mem(x) == 0 by {
        crate::math::lemma_div(x, v.psize);
        crate::math::lemma_div(x / v.psize, v.bsize);
        assert(v.pages[(x / v.psize) % v.bsize][x % v.psize] == 0);
    }
}

/// Where a record of the log stands, its bytes are found.
proof fn lemma_there(v: LogView, all: Recs, pos: int, hi: int)
    requires
        all_cold(v),
        chain::all_placed(v, all),
        all.dom().contains(pos),
        v.content.subrange(pos, pos + all[pos].size()) == record::encode(all[pos]),
        pos + all[pos].size() <= hi <= v.content.len(),
    ensures
        record::decode(v.content.subrange(pos, hi)) == Some(all[pos]),
        !record::blank_header(v.content.subrange(pos, hi)),
        v.content.subrange(pos, hi).subrange(0, all[pos].size()) == record::encode(all[pos]),
        all[pos].size() >= 24,
        chain::marked(all[pos].word),
{
    let r = all[pos];
    assert(chain::placed(v, pos, r));
    record::lemma_size_facts(r);
    let s = v.content.subrange(pos, hi);
    assert(s.subrange(0, r.size()) =~= v.content.subrange(pos, pos + r.size()));
    record::lemma_decode_encode(r, s);
    scan::lemma_marked_header(r, s);
}

/// Behind the last record found there is something else than zero bytes, or
/// the end of the log is not reached: the next record follows directly.
proof fn lemma_adjacent(
    v: LogView,
    index: HashIndex,
    recs: Recs,
    order: Seq<int>,
    all: Recs,
    whole: Seq<int>,
    page: int,
    n: int,
)
    requires
        all_cold(v),
        whole_log(v, index, all, whole),
        begins(recs, order, all, whole),
        order.len() > 0,
        0 <= page,
        n == log::clamp_high(v.psize, v.tail() - page * v.psize),
        page * v.psize + 64 <= order.last(),
        order.last() + recs[order.last()].size() < page * v.psize + n,
        n == v.psize ==> exists|x: int|
            order.last() + recs[order.last()].size() <= x < page * v.psize + n && #[trigger] v.content[x]
                != 0,
    ensures
        goes_on(recs, order, order.last() + recs[order.last()].size(), all, whole),
{
    let k = order.len() as int;
    let a = order[k - 1];
    let e = a + recs[a].size();
    let ps = v.psize;
    assert(whole[k - 1] == a);
    assert(recs[order[k - 1]] == all[a]);
    assert(all.dom().contains(whole[k - 1]));
    assert(chain::placed(v, a, all[a]));
    record::lemma_size_facts(all[a]);
    crate::math::lemma_mul_add(page, 1, ps);
    crate::math::lemma_page_bounds(a, page, page + 1, ps);
    crate::math::lemma_div(a, ps);
    assert(chain::page_after(v, a) == (page + 1) * ps);
    assert(chain::followed_at(v, all, whole, k - 1));
    v.lemma_tail();
    if !(k < whole.len() && whole[k] == e) {
        assert(chain::blank(v, e, (page + 1) * ps));
        if n == ps {
            let x = choose|x: int| e <= x < page * ps + n && #[trigger] v.content[x] != 0;
            assert(v.content[x] == 0);
        } else if k < whole.len() {
            assert(all.dom().contains(whole[k]));
            assert(chain::placed(v, whole[k], all[whole[k]]));
            record::lemma_size_facts(all[whole[k]]);
        } else {
            assert(whole.last() == a);
            assert(v.tail_page == page);
            assert(a == page * ps + a % ps);
        }
    }
}

/// Behind the last record found there are zero bytes up to the end of the page
/// and the log is longer: the next record is at the start of the next page.
proof fn lemma_turned(
    v: LogView,
    index: HashIndex,
    recs: Recs,
    order: Seq<int>,
    all: Recs,
    whole: Seq<int>,
    page: int,
)
    requires
        all_cold(v),
        whole_log(v, index, all, whole),
        begins(recs, order, all, whole),
        order.len() > 0,
        0 <= page,
        (page + 1) * v.psize < v.tail(),
        page * v.psize + 64 <= order.last(),
        order.last() + recs[order.last()].size() <= (page + 1) * v.psize,
        forall|x: int|
            order.last() + recs[order.last()].size() <= x < (page + 1) * v.psize
                ==> #[trigger] v.content[x] == 0,
    ensures
        goes_on(recs, order, (page + 1) * v.psize + 64, all, whole),
{
    let k = order.len() as int;
    let a = order[k - 1];
    let e = a + recs[a].size();
    let ps = v.psize;
    assert(whole[k - 1] == a);
    assert(recs[order[k - 1]] == all[a]);
    assert(all.dom().contains(whole[k - 1]));
    assert(chain::placed(v, a, all[a]));
    record::lemma_size_facts(all[a]);
    crate::math::lemma_mul_add(page, 1, ps);
    crate::math::lemma_page_bounds(a, page, page + 1, ps);
    assert(chain::page_after(v, a) == (page + 1) * ps);
    assert(chain::followed_at(v, all, whole, k - 1));
    v.lemma_tail();
    if k < whole.len() && whole[k] == e && e < (page + 1) * ps {
        assert(all.dom().contains(whole[k]));
        assert(chain::placed(v, e, all[e]));
        record::lemma_size_facts(all[e]);
        crate::math::lemma_page_bounds(e, page, page + 1, ps);
        crate::math::lemma_div(e, ps);
        lemma_there(v, all, e, (page + 1) * ps);
        let s = v.content.subrange(e, (page + 1) * ps);
        assert forall|i: int| 0 <= i < 24 implies s[i] == 0 by {
            assert(s[i] == v.content[e + i]);
        }
        scan::lemma_zero_header(s);
    } else if k == whole.len() {
        assert(whole.last() == a);
        assert(v.tail_page == page);
    }
}

/// The record that the next one leads down to is known, in one place.
proof fn lemma_prev_known(
    v: LogView,
    index: HashIndex,
    recs: Recs,
    order: Seq<int>,
    known: Seq<Place>,
    pos: int,
    all: Recs,
    whole: Seq<int>,
)
    requires
        all_cold(v),
        laid(v, index, recs, order),
        lists_places(known, index, recs, order),
        whole_log(v, index, all, whole),
        goes_on(recs, order, pos, all, whole),
        chain::prev(all, pos) >= 64,
    ensures
        exists|j: int|
            0 <= j < known.len() && (#[trigger] known[j]).addr == chain::prev(all, pos),
        forall|j: int|
            0 <= j < known.len() && (#[trigger] known[j]).addr == chain::prev(all, pos) ==> known[j].bucket
                == index.bucket_of(hash::key_hash(all[pos].key)) && known[j].tag == hash::key_hash(
                all[pos].key,
            ) >> 49,
{
    let k = order.len() as int;
    let prev = chain::prev(all, pos);
    assert(all.dom().contains(whole[k]));
    assert(all.dom().contains(prev));
    let j = choose|j: int| 0 <= j < whole.len() && whole[j] == prev;
    if j > k {
        chain::lemma_sorted(v, all, whole, k, j);
        assert(chain::placed(v, pos, all[pos]));
        record::lemma_size_facts(all[pos]);
    }
    assert(j < k);
    assert(order[j] == whole[j]);
    assert(known[j].addr == prev);
    assert forall|i: int| 0 <= i < known.len() && (#[trigger] known[i]).addr == prev implies i == j by {
        if i < j {
            assert(order[i] < order[j]);
        } else if j < i {
            assert(order[j] < order[i]);
        }
    }
    assert(recs[order[j]] == all[order[j]]);
}

/// The list of places with one more.
proof fn lemma_listed(
    index: HashIndex,
    recs: Recs,
    order: Seq<int>,
    before: Seq<Place>,
    known: Seq<Place>,
    pos: int,
    r: RecordView,
)
    requires
        lists_places(before, index, recs, order),
        known.len() == before.len() + 1,
        known.subrange(0, before.len() as int) == before,
        known.last().addr == pos,
        known.last().bucket == index.bucket_of(hash::key_hash(r.key)),
        known.last().tag == hash::key_hash(r.key) >> 49,
        forall|i: int| 0 <= i < order.len() ==> (#[trigger] order[i]) < pos,
    ensures
        lists_places(known, index, recs.insert(pos, r), order.push(pos)),
{
    let recs2 = recs.insert(pos, r);
    let order2 = order.push(pos);
    assert forall|i: int| 0 <= i < known.len() implies (#[trigger] known[i]).addr == order2[i]
        && known[i].bucket == index.bucket_of(hash::key_hash(recs2[order2[i]].key)) && known[i].tag
        == hash::key_hash(recs2[order2[i]].key) >> 49 by {
        if i < before.len() {
            assert(known[i] == before[i]);
            assert(order2[i] == order[i]);
        }
    }
}

/// The log in question begins with the records found and the one at `pos`.
proof fn lemma_begins(
    recs: Recs,
    order: Seq<int>,
    pos: int,
    r: RecordView,
    all: Recs,
    whole: Seq<int>,
)
    requires
        goes_on(recs, order, pos, all, whole),
        r == all[pos],
        forall|i: int| 0 <= i < order.len() ==> (#[trigger] order[i]) < pos,
    ensures
        begins(recs.insert(pos, r), order.push(pos), all, whole),
{
    let recs2 = recs.insert(pos, r);
    let order2 = order.push(pos);
    assert(order2 =~= whole.subrange(0, order2.len() as int));
    assert forall|i: int| 0 <= i < order2.len() implies recs2[#[trigger] order2[i]] == all[order2[i]] by {
        if i < order.len() {
            assert(order2[i] == order[i]);
            assert(recs[order[i]] == all[order[i]]);
        }
    }
}

/// Check that `s`, the bytes from `addr` to the end of what the log has of that
/// page, starts with a record whose chain leads down to known ones. Returns its
/// size.
#[verifier::spinoff_prover]
#[verifier::rlimit(40)]
fn check_record(
    index: &HashIndex,
    s: &[u8],
    addr: u64,
    known: &mut Vec<Place>,
    Ghost(v): Ghost<LogView>,
    Ghost(recs): Ghost<Recs>,
    Ghost(order): Ghost<Seq<int>>,
    Ghost(w): Ghost<Option<(Recs, Seq<int>)>>,
) -> (r: Option<(usize, Ghost<RecordView>)>)
    requires
        index.inv(),
        all_cold(v),
        laid(v, *index, recs, order),
        next_at(v, recs, order, addr as int),
        lists_places(old(known)@, *index, recs, order),
        in_question(v, *index, recs, order, addr as int, w),
        64 <= addr,
        64 <= addr as int % v.psize,
        addr as int % v.psize + s@.len() <= v.psize,
        addr + s@.len() <= v.tail(),
        addr as int % v.psize + s@.len() == v.psize || addr + s@.len() == v.tail(),
        s@ == v.content.subrange(addr as int, addr + s@.len()),
    ensures
        r is None ==> w is None,
        r matches Some((n, rec)) ==> {
            let recs2 = recs.insert(addr as int, rec@);
            let order2 = order.push(addr as int);
            &&& n == rec@.size()
            &&& 24 <= n <= s@.len()
            &&& laid(v, *index, recs2, order2)
            &&& lists_places(final(known)@, *index, recs2, order2)
            &&& w matches Some(x) ==> begins(recs2, order2, x.0, x.1)
        },
{
    let ghost pos = addr as int;
    proof {
        if let Some((all, whole)) = w {
            let k = order.len() as int;
            assert(all.dom().contains(whole[k]));
            assert(chain::placed(v, pos, all[pos]));
            lemma_there(v, all, pos, pos + s@.len());
        }
    }
    let rec: RecordPtr = match RecordPtr::new(s) {
        Some(rec) => rec,
        None => {
            return None;
        },
    };
    let info: RecordInfo = rec.load_info();
    if !info.is_valid() && !info.in_new_version() && !info.is_sealed() {
        return None;
    }
    proof {
        record::lemma_size_facts(rec@);
    }
    let n: usize = rec.total_size();
    if !bytes_eq(rec.to_bytes().as_slice(), slice_subrange(s, 0, n)) {
        return None;
    }
    let hash: u64 = hash64(rec.key());
    let bucket: usize = index.bucket_index(hash);
    let tag: u64 = HashIndex::tag_of(hash);
    let prev: u64 = info.previous_address();
    if prev >= addr {
        proof {
            if let Some((all, whole)) = w {
                assert(chain::prev(all, pos) < pos);
            }
        }
        return None;
    }
    if prev >= FIRST_VALID_ADDRESS {
        proof {
            assert forall|i: int, j: int| 0 <= i < j < known@.len() implies known@[i].addr
                < known@[j].addr by {
                assert(order[i] < order[j]);
            }
            if let Some((all, whole)) = w {
                lemma_prev_known(v, *index, recs, order, known@, pos, all, whole);
            }
        }
        match find_place(known, prev) {
            Some(i) => {
                if known[i].bucket != bucket || known[i].tag != tag {
                    return None;
                }
                assert(recs.dom().contains(order[i as int]));
            },
            None => {
                return None;
            },
        }
    }
    let ghost before = known@;
    known.push(Place { addr, bucket, tag });
    proof {
        assert(known@.subrange(0, before.len() as int) =~= before);
        assert(v.content.subrange(pos, pos + n) =~= s@.subrange(0, n as int));
        lemma_lay(v, *index, recs, order, pos, rec@);
        lemma_listed(*index, recs, order, before, known@, pos, rec@);
        if let Some((all, whole)) = w {
            lemma_begins(recs, order, pos, rec@, all, whole);
        }
    }
    Some((n, Ghost(rec@)))
}

/// The records found end on `page`, and zero bytes follow up to its end.
spec fn page_done(v: LogView, recs: Recs, order: Seq<int>, page: int) -> bool {
    let a = order.last();
    let e = a + recs[a].size();
    &&& order.len() > 0
    &&& page * v.psize + 64 <= a
    &&& e <= (page + 1) * v.psize
    &&& e <= v.tail()
    &&& chain::blank(v, e, (page + 1) * v.psize)
    &&& v.tail() < (page + 1) * v.psize ==> e == v.tail()
}

/// Check the records of a page. `buf` holds what the log has of it.
#[verifier::spinoff_prover]
#[verifier::rlimit(40)]
fn check_page(
    index: &HashIndex,
    buf: &[u8],
    base: u64,
    page_size: usize,
    known: &mut Vec<Place>,
    Ghost(page): Ghost<int>,
    Ghost(v): Ghost<LogView>,
    Ghost(recs): Ghost<Recs>,
    Ghost(order): Ghost<Seq<int>>,
    Ghost(w): Ghost<Option<(Recs, Seq<int>)>>,
) -> (r: Option<Ghost<(Recs, Seq<int>)>>)
    requires
        index.inv(),
        all_cold(v),
        laid(v, *index, recs, order),
        next_at(v, recs, order, base + 64),
        lists_places(old(known)@, *index, recs, order),
        in_question(v, *index, recs, order, base + 64, w),
        page_size == v.psize,
        0 <= page,
        base == page * v.psize,
        base + 64 <= v.tail(),
        buf@.len() == log::clamp_high(v.psize, v.tail() - base),
        buf@ == v.content.subrange(base as int, base + buf@.len()),
    ensures
        r is None ==> w is None,
        r matches Some(g) ==> {
            let (recs2, order2) = g@;
            &&& laid(v, *index, recs2, order2)
            &&& lists_places(final(known)@, *index, recs2, order2)
            &&& page_done(v, recs2, order2, page)
            &&& (page + 1) * v.psize < v.tail() ==> in_question(
                v,
                *index,
                recs2,
                order2,
                (page + 1) * v.psize + 64,
                w,
            )
        },
{
    let n: usize = buf.len();
    let mut off: usize = 64;
    let ghost mut rs = recs;
    let ghost mut os = order;
    proof {
        crate::math::lemma_mul_add(page, 1, v.psize);
        v.lemma_tail();
    }
    loop
        invariant
            index.inv(),
            all_cold(v),
            laid(v, *index, rs, os),
            next_at(v, rs, os, base + off),
            lists_places(known@, *index, rs, os),
            in_question(v, *index, rs, os, base + off, w),
            page_size == v.psize,
            0 <= page,
            base == page * v.psize,
            (page + 1) * v.psize == base + v.psize,
            n == buf@.len(),
            n == log::clamp_high(v.psize, v.tail() - base),
            buf@ == v.content.subrange(base as int, base + n),
            64 <= off <= n,
            base + n <= v.tail() <= ADDRESS_LIMIT,
        decreases n - off,
    {
        proof {
            if off < v.psize {
                crate::math::lemma_split(page, off as int, v.psize);
            }
            assert(buf@.subrange(off as int, n as int) =~= v.content.subrange(base + off, base + n));
        }
        if off == n {
            proof {
                if let Some((all, whole)) = w {
                    let a = base + off;
                    assert(all.dom().contains(whole[os.len() as int]));
                    assert(chain::placed(v, a, all[a]));
                    record::lemma_size_facts(all[a]);
                    if n == v.psize {
                        crate::math::lemma_split(page + 1, 0, v.psize);
                    }
                }
            }
            return None;
        }
        let ghost addr = base + off;
        let found = check_record(
            index,
            slice_subrange(buf, off, n),
            base + off as u64,
            known,
            Ghost(v),
            Ghost(rs),
            Ghost(os),
            Ghost(w),
        );
        match found {
            None => {
                return None;
            },
            Some((size, rec)) => {
                off = off + size;
                proof {
                    rs = rs.insert(addr, rec@);
                    os = os.push(addr);
                    assert(os.last() == addr && rs[addr] == rec@);
                    crate::math::lemma_page_bounds(addr, page, page + 1, v.psize);
                    assert(chain::page_after(v, addr) == (page + 1) * v.psize);
                }
                if off == n || (n == page_size && blank_from(buf, off)) {
                    proof {
                        let e = base + off;
                        let hi = (page + 1) * v.psize;
                        assert forall|x: int| e <= x < hi && x < v.tail() implies #[trigger] v.content[x]
                            == 0 by {
                            assert(v.content[x] == buf@[x - base]);
                        }
                        lemma_gap(v, e, hi);
                        if hi < v.tail() {
                            if let Some((all, whole)) = w {
                                lemma_turned(v, *index, rs, os, all, whole, page);
                            }
                        }
                    }
                    return Some(Ghost((rs, os)));
                }
                proof {
                    if let Some((all, whole)) = w {
                        if n == v.psize {
                            let i = choose|i: int| off <= i < n && #[trigger] buf@[i] != 0;
                            assert(v.content[base + i] == buf@[i]);
                        }
                        lemma_adjacent(v, *index, rs, os, all, whole, page, n as int);
                    }
                }
            },
        }
    }
}

/// The log with everything below `f` on the device is a log.
proof fn lemma_cold(l: LogView, f: int)
    requires
        l.shape(),
        64 < f <= ADDRESS_LIMIT,
        f % 8 == 0,
        f % l.psize == 0 || f % l.psize >= 64,
        (f / l.psize + 1) * l.psize <= ADDRESS_LIMIT,
        l.content.len() >= f,
    ensures
        all_cold(checkpoint::cold(l, f)),
        checkpoint::cold(l, f).tail() == f,
{
    let v = checkpoint::cold(l, f);
    let ps = l.psize;
    let q = f / ps;
    crate::math::lemma_div(f, ps);
    crate::math::lemma_mul_add(q, 1, ps);
    assert((f % ps) % 8 == 0) by {
        let k = ps / 8;
        assert(q * ps == (q * k) * 8) by (nonlinear_arith)
            requires
                ps == k * 8,
        ;
    }
    if f % ps == 0 {
        assert(q >= 1) by {
            if q <= 0 {
                crate::math::lemma_mul_le(q, 0, ps);
            }
        }
    }
}

/// A checked log is a whole one.
proof fn lemma_whole(v: LogView, index: HashIndex, recs: Recs, order: Seq<int>)
    requires
        all_cold(v),
        laid(v, index, recs, order),
        page_done(v, recs, order, v.tail_page),
    ensures
        whole_log(v, index, recs, order),
{
    let n = order.len() as int;
    let a = order[n - 1];
    let ps = v.psize;
    assert(recs.dom().contains(order[n - 1]));
    assert(chain::placed(v, a, recs[a]));
    record::lemma_size_facts(recs[a]);
    crate::math::lemma_mul_add(v.tail_page, 1, ps);
    crate::math::lemma_page_bounds(a, v.tail_page, v.tail_page + 1, ps);
    crate::math::lemma_div(a, ps);
    assert(chain::page_after(v, a) == (v.tail_page + 1) * ps);
    assert forall|i: int| 0 <= i < n implies #[trigger] chain::followed_at(v, recs, order, i) by {}
}

impl<D: Device> Store<D> {
    /// Whether the device holds a log that ends at `tail` and that this store
    /// can be rebuilt from.
    pub fn holds_log(&self, tail: u64) -> (r: Result<bool, DeviceError>)
        requires
            self.index.inv(),
            self.log.inv(),
        ensures
            r matches Ok(b) ==> b == checkpoint::has_log(self, tail as int),
            r is Err ==> self.log@.dependable < tail || self.log@.content.len() < tail,
    {
        let ghost f = tail as int;
        let ghost l = self.log@;
        let ps: u64 = self.log.page_size() as u64;
        if tail < FIRST_VALID_ADDRESS || tail > ADDRESS_LIMIT || tail % 8 != 0 {
            return Ok(false);
        }
        let full: u64 = tail / ps;
        let rest: u64 = tail % ps;
        proof {
            crate::math::lemma_div(f, l.psize);
            crate::math::lemma_mul_add(full as int, 1, l.psize);
            crate::math::lemma_mul_add(full - 1, 1, l.psize);
        }
        if (rest != 0 && rest < 64) || (full + 1) * ps > ADDRESS_LIMIT {
            return Ok(false);
        }
        if tail == FIRST_VALID_ADDRESS {
            proof {
                lemma_no_records(self);
            }
            return Ok(true);
        }
        let last: u64 = if rest == 0 {
            full - 1
        } else {
            full
        };
        let last_len: u64 = if rest == 0 {
            ps
        } else {
            rest
        };
        match self.log.read_page_prefix_from_disk(last, last_len as usize) {
            Ok(_) => {},
            Err(e) => {
                return Err(e);
            },
        }
        let ghost v = checkpoint::cold(l, f);
        let ghost w: Option<(Recs, Seq<int>)> = if checkpoint::has_log(self, f) {
            Some(
                choose|recs: Recs, order: Seq<int>| #[trigger]
                    checkpoint::recoverable(self, f, recs, order),
            )
        } else {
            None
        };
        let ghost mut recs: Recs = Map::empty();
        let ghost mut order: Seq<int> = Seq::empty();
        let mut known: Vec<Place> = Vec::new();
        proof {
            lemma_cold(l, f);
            crate::math::lemma_mul_add(0, 0, l.psize);
            if let Some((all, whole)) = w {
                assert(whole_log(v, self.index, all, whole));
                assert(whole.len() > 0);
                assert(order =~= whole.subrange(0, 0));
            }
        }
        let mut page: u64 = 0;
        while page <= last
            invariant
                self.index.inv(),
                self.log.inv(),
                l == self.log@,
                f == tail,
                v == checkpoint::cold(l, f),
                all_cold(v),
                v.tail() == f,
                ps == v.psize,
                last == v.tail_page,
                last_len == v.tail_off,
                page <= last + 1,
                laid(v, self.index, recs, order),
                lists_places(known@, self.index, recs, order),
                page <= last ==> next_at(v, recs, order, page * v.psize + 64),
                page <= last ==> in_question(v, self.index, recs, order, page * v.psize + 64, w),
                page == last + 1 ==> page_done(v, recs, order, last as int),
                w is None ==> !checkpoint::has_log(self, f),
            decreases last + 1 - page,
        {
            let len: u64 = if page < last {
                ps
            } else {
                last_len
            };
            proof {
                v.lemma_tail();
                crate::math::lemma_mul_add(page as int, 1, v.psize);
                crate::math::lemma_mul_le(0, page as int, v.psize);
                crate::math::lemma_mul_le(page as int, last as int, v.psize);
                crate::math::lemma_mul_le(page + 1, last + 1, v.psize);
                if page < last {
                    crate::math::lemma_mul_le(page + 1, last as int, v.psize);
                }
            }
            let buf = match self.log.read_page_prefix_from_disk(page, len as usize) {
                Ok(buf) => buf,
                Err(e) => {
                    return Err(e);
                },
            };
            let bytes: &[u8] = slice_subrange(buf.0.as_slice(), 0, len as usize);
            assert(bytes@ =~= v.content.subrange(page * v.psize, page * v.psize + len));
            match check_page(
                &self.index,
                bytes,
                page * ps,
                ps as usize,
                &mut known,
                Ghost(page as int),
                Ghost(v),
                Ghost(recs),
                Ghost(order),
                Ghost(w),
            ) {
                None => {
                    return Ok(false);
                },
                Some(found) => {
                    proof {
                        recs = found@.0;
                        order = found@.1;
                        if page < last {
                            let a = order.last();
                            assert(recs.dom().contains(order[order.len() - 1]));
                            assert(chain::placed(v, a, recs[a]));
                            record::lemma_size_facts(recs[a]);
                            crate::math::lemma_page_bounds(a, page as int, page + 1, v.psize);
                        }
                    }
                },
            }
            page = page + 1;
        }
        proof {
            lemma_whole(v, self.index, recs, order);
            assert(checkpoint::recoverable(self, f, recs, order));
        }
        Ok(true)
    }
}

/// A device holds the log without records, whatever its bytes.
proof fn lemma_no_records<D: Device>(o: &Store<D>)
    requires
        o.log.inv(),
    ensures
        checkpoint::has_log(o, 64),
{
    let l = o.log@;
    let v = checkpoint::cold(l, 64);
    let recs: Recs = Map::empty();
    let order: Seq<int> = Seq::empty();
    crate::math::lemma_mul_add(0, 1, l.psize);
    crate::math::lemma_split(0, 64, l.psize);
    assert forall|x: int| 64 <= x < l.psize && x >= v.head implies #[trigger] v.mem(x) == 0 by {
        crate::math::lemma_div(x, v.psize);
        crate::math::lemma_div(x / v.psize, v.bsize);
    }
    assert(checkpoint::recoverable(o, 64, recs, order));
}

} // verus!
