//! Scans: what a walk over the log lists, and the live records among it.
use crate::bytes;
use crate::chain;
use crate::chain::Recs;
use crate::device::Device;
use crate::hash::hash64;
use crate::le;
use crate::log;
use crate::log::LogView;
use crate::record;
use crate::record::{RecordInfo, RecordPtr, RecordView, SEALED_BIT};
use crate::store::Store;
use vstd::prelude::*;

verus! {

// ---------------------------------------------------------------------------
// What a walk over the log lists
// ---------------------------------------------------------------------------

/// A record as it may be read: sealing happens in memory only.
pub open spec fn is_image(x: RecordView, r: RecordView) -> bool {
    x == r || x == r.with_word(r.word & !SEALED_BIT)
}

/// `l` lists records `i` up to `j` of the log, in allocation order, at offsets
/// from `base`.
pub open spec fn lists(
    l: Seq<(int, RecordView)>,
    recs: Recs,
    order: Seq<int>,
    i: int,
    j: int,
    base: int,
) -> bool {
    &&& l.len() == j - i
    &&& forall|t: int|
        0 <= t < l.len() ==> (#[trigger] l[t]).0 == order[i + t] - base && is_image(
            l[t].1,
            recs[order[i + t]],
        )
}

/// Record `t` stands in `s`, which starts at address `base`.
pub open spec fn stands(s: Seq<u8>, base: int, limit: int, a: int, r: RecordView) -> bool {
    &&& 0 <= a - base
    &&& a - base + r.size() <= limit
    &&& r.wf()
    &&& chain::marked(r.word)
    &&& s.subrange(a - base, a - base + r.size()) == record::encode(r) || (chain::lasting(r.word)
        && s.subrange(a - base, a - base + r.size()) == record::encode(
        r.with_word(r.word & !SEALED_BIT),
    ))
}

/// Nothing more is found in `s` from `off` on.
pub open spec fn over(s: Seq<u8>, off: int, limit: int) -> bool {
    off + record::MIN_DISK_READ > limit || (0 <= off && record::blank_header(s.subrange(off, limit)))
}

pub proof fn lemma_zero_header(s: Seq<u8>)
    requires
        s.len() >= 24,
        forall|i: int| 0 <= i < 24 ==> s[i] == 0,
    ensures
        record::blank_header(s),
{
    le::lemma_zero_value(s.subrange(0, 8));
    le::lemma_zero_value(s.subrange(8, 12));
    le::lemma_zero_value(s.subrange(16, 20));
}

/// The header of a record is not blank.
pub proof fn lemma_marked_header(r: RecordView, s: Seq<u8>)
    requires
        r.wf(),
        chain::marked(r.word),
        s.len() >= r.size(),
        s.subrange(0, r.size()) == record::encode(r) || (chain::lasting(r.word) && s.subrange(
            0,
            r.size(),
        ) == record::encode(r.with_word(r.word & !SEALED_BIT))),
    ensures
        !record::blank_header(s),
        record::decode(s) matches Some(x) && is_image(x, r) && x.size() == r.size(),
{
    record::lemma_word_bits(r.word, 0);
    record::lemma_word_bits(r.word & !SEALED_BIT, 0);
    let u = r.with_word(r.word & !SEALED_BIT);
    assert(u.wf() && u.size() == r.size());
    lemma_zero_word();
    if s.subrange(0, r.size()) == record::encode(r) {
        record::lemma_decode_encode(r, s);
    } else {
        record::lemma_decode_encode(u, s);
    }
}

proof fn lemma_zero_word()
    by (bit_vector)
    ensures
        0u64 & 0x2_0000_0000_0000 == 0,
        0u64 & 0x4_0000_0000_0000 == 0,
        0u64 & 0x10_0000_0000_0000 == 0,
{
}

/// Record `t + 1` stands right behind record `t`.
pub open spec fn adjacent(recs: Recs, order: Seq<int>, t: int) -> bool {
    order[t + 1] == order[t] + recs[order[t]].size()
}

/// A run of adjacent records is listed as it is.
pub proof fn lemma_run(
    s: Seq<u8>,
    base: int,
    limit: int,
    off: int,
    recs: Recs,
    order: Seq<int>,
    i: int,
    j: int,
)
    requires
        limit <= s.len(),
        0 <= i <= j <= order.len(),
        0 <= off,
        i < j ==> off == order[i] - base,
        forall|t: int| i <= t < j ==> stands(s, base, limit, #[trigger] order[t], recs[order[t]]),
        forall|t: int| i <= t < j - 1 ==> #[trigger] adjacent(recs, order, t),
        over(
            s,
            if i < j {
                order[j - 1] + recs[order[j - 1]].size() - base
            } else {
                off
            },
            limit,
        ),
    ensures
        lists(log::records_in(s, off, limit), recs, order, i, j, base),
    decreases j - i,
{
    reveal(log::records_in);
    if i < j {
        let a = order[i];
        let r = recs[a];
        assert(stands(s, base, limit, order[i], recs[order[i]]));
        record::lemma_size_facts(r);
        let t = s.subrange(off, limit);
        assert(t.subrange(0, r.size()) =~= s.subrange(off, off + r.size()));
        lemma_marked_header(r, t);
        let x = record::decode(t).unwrap();
        let e = off + r.size();
        if i + 1 < j {
            assert(adjacent(recs, order, i));
        }
        lemma_run(s, base, limit, e, recs, order, i + 1, j);
        let rest = log::records_in(s, e, limit);
        let l = log::records_in(s, off, limit);
        assert(l == seq![(off, x)] + rest);
        assert forall|k: int| 0 <= k < l.len() implies (#[trigger] l[k]).0 == order[i + k] - base
            && is_image(l[k].1, recs[order[i + k]]) by {
            if k > 0 {
                assert(l[k] == rest[k - 1]);
                assert(order[i + 1 + (k - 1)] == order[i + k]);
            }
        }
    }
}

/// Records that stand exactly as they are are listed exactly.
pub proof fn lemma_run_exact(
    s: Seq<u8>,
    base: int,
    limit: int,
    off: int,
    recs: Recs,
    order: Seq<int>,
    i: int,
    j: int,
)
    requires
        limit <= s.len(),
        0 <= i <= j <= order.len(),
        0 <= off,
        i < j ==> off == order[i] - base,
        forall|t: int| i <= t < j ==> stands(s, base, limit, #[trigger] order[t], recs[order[t]]),
        forall|t: int| #![trigger order[t]]
            i <= t < j ==> s.subrange(order[t] - base, order[t] - base + recs[order[t]].size())
                == record::encode(recs[order[t]]),
        forall|t: int| i <= t < j - 1 ==> #[trigger] adjacent(recs, order, t),
        over(
            s,
            if i < j {
                order[j - 1] + recs[order[j - 1]].size() - base
            } else {
                off
            },
            limit,
        ),
    ensures
        lists(log::records_in(s, off, limit), recs, order, i, j, base),
        forall|t: int|
            0 <= t < j - i ==> (#[trigger] log::records_in(s, off, limit)[t]).1 == recs[order[i + t]],
    decreases j - i,
{
    lemma_run(s, base, limit, off, recs, order, i, j);
    reveal(log::records_in);
    if i < j {
        let r = recs[order[i]];
        assert(stands(s, base, limit, order[i], recs[order[i]]));
        record::lemma_size_facts(r);
        let t = s.subrange(off, limit);
        assert(t.subrange(0, r.size()) =~= s.subrange(off, off + r.size()));
        record::lemma_decode_encode(r, t);
        lemma_marked_header(r, t);
        let e = off + r.size();
        if i + 1 < j {
            assert(adjacent(recs, order, i));
        }
        lemma_run_exact(s, base, limit, e, recs, order, i + 1, j);
        let rest = log::records_in(s, e, limit);
        let l = log::records_in(s, off, limit);
        assert(l == seq![(off, r)] + rest);
        assert forall|k: int| 0 <= k < j - i implies (#[trigger] l[k]).1 == recs[order[i + k]] by {
            if k > 0 {
                assert(l[k] == rest[k - 1]);
                assert(order[i + 1 + (k - 1)] == order[i + k]);
            }
        }
    }
}

/// The records `i` up to `j` are those of page `p`.
pub open spec fn on_page(v: LogView, recs: Recs, order: Seq<int>, p: int, i: int, j: int) -> bool {
    &&& 0 <= i < j <= order.len()
    &&& order[i] == p * v.psize + 64
    &&& forall|t: int|
        i <= t < j ==> p * v.psize + 64 <= (#[trigger] order[t]) && order[t] + recs[order[t]].size()
            <= (p + 1) * v.psize
    &&& forall|t: int| i <= t < j - 1 ==> #[trigger] adjacent(recs, order, t)
    &&& j < order.len() ==> order[j] == (p + 1) * v.psize + 64
    &&& chain::blank(v, order[j - 1] + recs[order[j - 1]].size(), (p + 1) * v.psize)
}

/// Where the records of the page end.
pub proof fn lemma_page_end(v: LogView, recs: Recs, order: Seq<int>, p: int, i: int, m: int) -> (j: int)
    requires
        v.shape(),
        chain::all_placed(v, recs),
        chain::tiled(v, recs, order),
        0 <= i <= m < order.len(),
        order[i] == p * v.psize + 64,
        forall|t: int|
            i <= t <= m ==> p * v.psize + 64 <= (#[trigger] order[t]) && order[t]
                + recs[order[t]].size() <= (p + 1) * v.psize,
        forall|t: int| i <= t < m ==> #[trigger] adjacent(recs, order, t),
    ensures
        on_page(v, recs, order, p, i, j),
        m < j,
    decreases order.len() - m,
{
    let ps = v.psize;
    let a = order[m];
    assert(recs.dom().contains(order[m]));
    assert(chain::placed(v, a, recs[a]));
    record::lemma_size_facts(recs[a]);
    crate::math::lemma_mul_add(p, 1, ps);
    crate::math::lemma_page_bounds(a, p, p + 1, ps);
    assert(chain::page_after(v, a) == (p + 1) * ps);
    assert(chain::followed_at(v, recs, order, m));
    if m + 1 < order.len() && order[m + 1] == a + recs[a].size() && a + recs[a].size() < (p + 1) * ps {
        let b = order[m + 1];
        assert(recs.dom().contains(order[m + 1]));
        assert(chain::placed(v, b, recs[b]));
        record::lemma_size_facts(recs[b]);
        crate::math::lemma_page_bounds(b, p, p + 1, ps);
        crate::math::lemma_div(b, ps);
        assert(adjacent(recs, order, m));
        lemma_page_end(v, recs, order, p, i, m + 1)
    } else {
        m + 1
    }
}

/// First record of the page at or above an address.
proof fn lemma_cut(v: LogView, recs: Recs, order: Seq<int>, p: int, i: int, j: int, f: int) -> (k: int)
    requires
        on_page(v, recs, order, p, i, j),
        forall|t: int| i <= t < j ==> recs[#[trigger] order[t]].size() >= 24,
    ensures
        i <= k <= j,
        forall|t: int| i <= t < k ==> (#[trigger] order[t]) < f,
        forall|t: int| k <= t < j ==> (#[trigger] order[t]) >= f,
{
    lemma_cut_from(recs, order, i, j, f)
}

proof fn lemma_cut_from(recs: Recs, order: Seq<int>, i: int, j: int, f: int) -> (k: int)
    requires
        0 <= i <= j <= order.len(),
        forall|t: int| i <= t < j ==> recs[#[trigger] order[t]].size() >= 24,
        forall|t: int| i <= t < j - 1 ==> #[trigger] adjacent(recs, order, t),
    ensures
        i <= k <= j,
        forall|t: int| i <= t < k ==> (#[trigger] order[t]) < f,
        forall|t: int| k <= t < j ==> (#[trigger] order[t]) >= f,
    decreases j - i,
{
    if i == j {
        i
    } else if order[j - 1] >= f {
        let k = lemma_cut_from(recs, order, i, j - 1, f);
        k
    } else {
        assert forall|t: int| i <= t < j implies (#[trigger] order[t]) < f by {
            lemma_rising(recs, order, i, j, t, j - 1);
        }
        j
    }
}

pub proof fn lemma_rising(recs: Recs, order: Seq<int>, i: int, j: int, s: int, t: int)
    requires
        0 <= i <= s <= t < j <= order.len(),
        forall|t: int| i <= t < j ==> recs[#[trigger] order[t]].size() >= 24,
        forall|t: int| i <= t < j - 1 ==> #[trigger] adjacent(recs, order, t),
    ensures
        order[s] <= order[t],
    decreases t - s,
{
    if s < t {
        lemma_rising(recs, order, i, j, s, t - 1);
        assert(adjacent(recs, order, t - 1));
        assert(recs[order[t - 1]].size() >= 24);
    }
}

/// Where a page is scanned from the device up to `f`, the records below `f` are
/// found there.
proof fn lemma_disk_part(
    v: LogView,
    recs: Recs,
    order: Seq<int>,
    p: int,
    i: int,
    j: int,
    k: int,
    dl: int,
)
    requires
        v.shape(),
        v.order(),
        chain::all_placed(v, recs),
        chain::tiled(v, recs, order),
        on_page(v, recs, order, p, i, j),
        i <= k <= j,
        forall|t: int| i <= t < k ==> (#[trigger] order[t]) < v.flushed,
        k < j ==> order[k] >= v.flushed,
        64 < dl <= v.psize,
        0 <= p * v.psize,
        p * v.psize + dl <= v.flushed,
        k == j || p * v.psize + dl == v.flushed,
        k < j ==> p * v.psize + dl == v.flushed,
        forall|t: int|
            i <= t < k ==> (#[trigger] order[t]) + recs[order[t]].size() <= p * v.psize + dl,
    ensures
        lists(
            log::records_in(v.content.subrange(p * v.psize, p * v.psize + dl), 64, dl),
            recs,
            order,
            i,
            k,
            p * v.psize,
        ),
{
    let start = p * v.psize;
    crate::math::lemma_mul_add(p, 1, v.psize);
    let c = v.content.subrange(start, start + dl);
    assert forall|t: int| i <= t < k implies stands(c, start, dl, #[trigger] order[t], recs[order[t]]) by {
        let x = order[t];
        let r = recs[x];
        assert(recs.dom().contains(order[t]));
        assert(chain::placed(v, x, r));
        record::lemma_size_facts(r);
        assert(c.subrange(x - start, x - start + r.size()) =~= v.content.subrange(x, x + r.size()));
    }
    let ek = if k > i {
        order[k - 1] + recs[order[k - 1]].size()
    } else {
        start + 64
    };
    if k < j {
        if k > i {
            assert(adjacent(recs, order, k - 1));
        }
        assert(order[k] == ek);
    } else {
        if ek - start + 24 <= dl {
            let rest = c.subrange(ek - start, dl);
            assert forall|q: int| 0 <= q < 24 implies rest[q] == 0 by {
                assert(v.content[ek + q] == 0);
            }
            lemma_zero_header(rest);
        }
    }
    lemma_run(c, start, dl, 64, recs, order, i, k);
}

/// The remaining records of a page are found in memory.
proof fn lemma_mem_part(
    v: LogView,
    recs: Recs,
    order: Seq<int>,
    p: int,
    i: int,
    j: int,
    k: int,
    m0: int,
    limit: int,
)
    requires
        v.shape(),
        v.order(),
        chain::all_placed(v, recs),
        chain::tiled(v, recs, order),
        on_page(v, recs, order, p, i, j),
        0 <= p,
        i <= k <= j,
        forall|t: int| k <= t < j ==> (#[trigger] order[t]) >= v.head,
        k < j ==> m0 == order[k] - p * v.psize,
        limit <= v.psize,
        64 <= m0,
        order[j - 1] + recs[order[j - 1]].size() <= p * v.psize + limit,
        order[j - 1] + recs[order[j - 1]].size() <= p * v.psize + m0 || k < j,
        m0 + 24 <= limit ==> p * v.psize + m0 >= v.head,
    ensures
        lists(log::records_in(v.page(p), m0, limit), recs, order, k, j, p * v.psize),
{
    let ps = v.psize;
    let start = p * ps;
    let pg = v.page(p);
    crate::math::lemma_mul_add(p, 1, ps);
    crate::math::lemma_div(p, v.bsize);
    let last = order[j - 1];
    let e = last + recs[last].size();
    assert forall|t: int| k <= t < j implies stands(pg, start, limit, #[trigger] order[t], recs[order[t]])
        by {
        let x = order[t];
        let r = recs[x];
        assert(recs.dom().contains(order[t]));
        assert(chain::placed(v, x, r));
        record::lemma_size_facts(r);
        crate::math::lemma_split(p, x - start, ps);
        assert(v.mem_range(x, r.size()) == pg.subrange(x - start, x - start + r.size()));
        if t < j - 1 {
            assert(adjacent(recs, order, t));
            lemma_sizes(v, recs, order, i, j);
            lemma_rising(recs, order, i, j, t + 1, j - 1);
            assert(recs[order[j - 1]].size() >= 24);
        }
    }
    let q0 = if k < j {
        e - start
    } else {
        m0
    };
    if q0 + 24 <= limit {
        assert(recs.dom().contains(order[j - 1]));
        assert(chain::placed(v, last, recs[last]));
        record::lemma_size_facts(recs[last]);
        let rest = pg.subrange(q0, limit);
        assert forall|q: int| 0 <= q < 24 implies rest[q] == 0 by {
            let x = start + q0 + q;
            crate::math::lemma_split(p, x - start, ps);
            assert(e <= x < (p + 1) * ps);
            assert(x >= v.head);
            assert(v.mem(x) == 0);
        }
        lemma_zero_header(rest);
    }
    lemma_run(pg, start, limit, m0, recs, order, k, j);
}

pub proof fn lemma_sizes(v: LogView, recs: Recs, order: Seq<int>, i: int, j: int)
    requires
        0 <= i <= j <= order.len(),
        chain::all_placed(v, recs),
        chain::tiled(v, recs, order),
    ensures
        forall|t: int| i <= t < j ==> recs[#[trigger] order[t]].size() >= 24,
{
    assert forall|t: int| i <= t < j implies recs[#[trigger] order[t]].size() >= 24 by {
        assert(recs.dom().contains(order[t]));
        assert(chain::placed(v, order[t], recs[order[t]]));
        record::lemma_size_facts(recs[order[t]]);
    }
}

/// What a scan finds on one page is the records of that page.
#[verifier::spinoff_prover]
#[verifier::rlimit(40)]
proof fn lemma_page_scan(v: LogView, recs: Recs, order: Seq<int>, p: int, i: int, j: int, a: int)
    requires
        v.shape(),
        v.order(),
        chain::all_placed(v, recs),
        chain::tiled(v, recs, order),
        on_page(v, recs, order, p, i, j),
        0 <= p <= v.tail_page,
        a == log::clamp_low(p * v.psize, 64),
    ensures
        lists(v.page_scan(a, v.tail()), recs, order, i, j, 0),
{
    let ps = v.psize;
    let to = v.tail();
    let start = p * ps;
    v.lemma_tail();
    crate::math::lemma_mul_add(p, 1, ps);
    crate::math::lemma_mul_le(0, p, ps);
    crate::math::lemma_mul_le(p + 1, v.tail_page + 1, ps);
    if p > 0 {
        crate::math::lemma_mul_le(1, p, ps);
    }
    crate::math::lemma_split(p, a - start, ps);
    assert(a / ps == p);
    let limit = log::clamp_high(start + ps, to) - start;
    let dl = v.disk_limit(a, to);
    let from = log::clamp_low(a - start, 64);
    assert(from == 64);
    let f = if a < v.head {
        v.flushed
    } else {
        0
    };
    lemma_sizes(v, recs, order, i, j);
    let k = lemma_cut(v, recs, order, p, i, j, f);
    let last = order[j - 1];
    assert(recs.dom().contains(order[j - 1]));
    assert(chain::placed(v, last, recs[last]));
    let e = last + recs[last].size();
    assert(e <= start + limit);
    let ek = if k > i {
        order[k - 1] + recs[order[k - 1]].size()
    } else {
        start + 64
    };
    assert forall|t: int| i <= t < k implies (#[trigger] order[t]) + recs[order[t]].size() <= start + limit
        && order[t] + recs[order[t]].size() <= v.flushed by {
        assert(recs.dom().contains(order[t]));
        assert(chain::placed(v, order[t], recs[order[t]]));
        assert(v.bounds.contains(v.flushed));
    }
    if k < j {
        if k > i {
            assert(adjacent(recs, order, k - 1));
        }
        assert(order[k] == ek);
        assert(recs.dom().contains(order[k]));
        assert(chain::placed(v, order[k], recs[order[k]]));
    }
    let disk = if from < dl {
        log::records_in(v.content.subrange(start, start + dl), from, dl)
    } else {
        Seq::empty()
    };
    if from < dl {
        if k < j {
            assert(order[k] < to);
            assert(start + dl == v.flushed);
        }
        lemma_disk_part(v, recs, order, p, i, j, k, dl);
    } else {
        if k > i {
            assert(order[i] < f);
            assert(recs[order[i]].size() >= 24);
            assert(order[i] + recs[order[i]].size() <= start + limit);
            assert(false);
        }
    }
    assert(lists(disk, recs, order, i, k, start));
    let next = log::end_of(disk, from);
    if k > i {
        let t = disk.len() - 1;
        assert(disk[t].0 == order[i + t] - start);
        assert(is_image(disk[t].1, recs[order[i + t]]));
        assert(i + t == k - 1);
        assert(disk.last().1.size() == recs[order[k - 1]].size());
    }
    assert(next == ek - start);
    let m0 = log::clamp_low(log::clamp_low(next, dl), 64);
    let mem = if next < limit {
        log::records_in(v.page(p), m0, limit)
    } else {
        Seq::empty()
    };
    if next < limit {
        lemma_mem_part(v, recs, order, p, i, j, k, m0, limit);
    } else {
        if k < j {
            assert(recs[order[k]].size() >= 24);
            assert(false);
        }
    }
    assert(lists(mem, recs, order, k, j, start));
    lemma_joined(disk, mem, recs, order, i, k, j, start);
    assert(v.page_scan(a, to) == log::shifted(disk + mem, start));
}

proof fn lemma_joined(
    l1: Seq<(int, RecordView)>,
    l2: Seq<(int, RecordView)>,
    recs: Recs,
    order: Seq<int>,
    i: int,
    k: int,
    j: int,
    start: int,
)
    requires
        lists(l1, recs, order, i, k, start),
        lists(l2, recs, order, k, j, start),
    ensures
        lists(log::shifted(l1 + l2, start), recs, order, i, j, 0),
{
    let l = l1 + l2;
    let sh = log::shifted(l, start);
    assert forall|t: int| 0 <= t < sh.len() implies (#[trigger] sh[t]).0 == order[i + t] - 0 && is_image(
        sh[t].1,
        recs[order[i + t]],
    ) by {
        if t < l1.len() {
            assert(l[t] == l1[t]);
        } else {
            assert(l[t] == l2[t - l1.len()]);
            assert(k + (t - l1.len()) == i + t);
        }
    }
}

/// A scan of the whole log lists every record once, in allocation order.
pub proof fn lemma_full_scan(v: LogView, recs: Recs, order: Seq<int>)
    requires
        v.shape(),
        v.order(),
        chain::all_placed(v, recs),
        chain::tiled(v, recs, order),
        chain::tight(v, recs, order),
    ensures
        lists(v.full_scan(64, v.tail()), recs, order, 0, order.len() as int, 0),
{
    v.lemma_tail();
    if order.len() == 0 {
        crate::math::lemma_mul_add(0, 0, v.psize);
    } else {
        crate::math::lemma_mul_add(0, 0, v.psize);
        lemma_scan_from(v, recs, order, 0, 0);
    }
}

proof fn lemma_scan_from(v: LogView, recs: Recs, order: Seq<int>, p: int, i: int)
    requires
        v.shape(),
        v.order(),
        chain::all_placed(v, recs),
        chain::tiled(v, recs, order),
        chain::tight(v, recs, order),
        0 <= p,
        0 <= i < order.len(),
        order[i] == p * v.psize + 64,
    ensures
        lists(
            v.full_scan(log::clamp_low(p * v.psize, 64), v.tail()),
            recs,
            order,
            i,
            order.len() as int,
            0,
        ),
    decreases order.len() - i,
{
    let ps = v.psize;
    let to = v.tail();
    let a = log::clamp_low(p * ps, 64);
    v.lemma_tail();
    assert(recs.dom().contains(order[i]));
    assert(chain::placed(v, order[i], recs[order[i]]));
    record::lemma_size_facts(recs[order[i]]);
    crate::math::lemma_mul_add(p, 1, ps);
    crate::math::lemma_mul_le(0, p, ps);
    crate::math::lemma_split(p, 64, ps);
    if p > 0 {
        crate::math::lemma_mul_le(1, p, ps);
    }
    crate::math::lemma_split(p, a - p * ps, ps);
    if p > v.tail_page {
        crate::math::lemma_mul_le(v.tail_page + 1, p, ps);
        assert(false);
    }
    let j = lemma_page_end(v, recs, order, p, i, i);
    lemma_page_scan(v, recs, order, p, i, j, a);
    let part = v.page_scan(a, to);
    let next = (p + 1) * ps;
    let rest = v.full_scan(next, to);
    assert(v.full_scan(a, to) == part + rest);
    if j < order.len() {
        lemma_scan_from(v, recs, order, p + 1, j);
    } else {
        let last = order[j - 1];
        assert(last == order.last());
        crate::math::lemma_page_bounds(last, p, p + 1, ps);
        assert(v.tail_page == p);
    }
    let l = part + rest;
    assert forall|t: int| 0 <= t < l.len() implies (#[trigger] l[t]).0 == order[i + t] - 0 && is_image(
        l[t].1,
        recs[order[i + t]],
    ) by {
        if t < part.len() {
            assert(l[t] == part[t]);
        } else {
            assert(l[t] == rest[t - part.len()]);
            assert(j + (t - part.len()) == i + t);
        }
    }
}

// ---------------------------------------------------------------------------
// Live records
// ---------------------------------------------------------------------------

impl<D: Device> Store<D> {
    /// The record at `a` is what its key holds: the newest one, and no tombstone.
    pub open spec fn live(&self, a: int) -> bool {
        self.newest(self.recs@[a].key) == Some(a) && !record::tombstone_of(self.recs@[a].word)
    }

    /// The live ones among the first `n` records.
    pub open spec fn live_upto(&self, n: int) -> Seq<int>
        decreases n,
    {
        if n <= 0 {
            Seq::empty()
        } else if self.live(self.order@[n - 1]) {
            self.live_upto(n - 1).push(self.order@[n - 1])
        } else {
            self.live_upto(n - 1)
        }
    }

    /// The live records in allocation order.
    pub open spec fn live_list(&self) -> Seq<int> {
        self.live_upto(self.order@.len() as int)
    }

    /// Is the record at `addr` the newest record for `key`? Walks the chain
    /// from the index entry down to `addr` (addresses above `addr` are newer).
    fn is_latest(&self, addr: u64, key: &[u8]) -> (r: bool)
        requires
            self.base(),
            self.recs@.dom().contains(addr as int),
            self.recs@[addr as int].key == key@,
            record::valid_of(self.recs@[addr as int].word),
            addr >= 64,
        ensures
            r ==> self.newest(key@) == Some(addr as int),
            self.log@.dependable >= self.log@.flushed ==> r == (self.newest(key@) == Some(addr as int)),
    {
        proof {
            self.index.lemma_buckets();
            chain::lemma_find(self.recs@, chain::chain_head(self.index, key@), key@);
        }
        let hash: u64 = hash64(key);
        let slot = match self.index.find_tag(hash) {
            Some(s) => s,
            None => {
                return false;
            },
        };
        let mut cur: u64 = slot.load(&self.index).address();
        let head: u64 = self.log.head_address();
        let begin: u64 = self.log.begin_address();
        proof {
            assert(chain::entry_ok(
                self.index,
                self.recs@,
                slot.bucket as int,
                slot.tag,
                self.index.lookup(slot.bucket as int, slot.tag),
            ));
        }
        while cur > addr && cur >= begin
            invariant
                self.base(),
                addr >= 64,
                begin == 64,
                head == self.log@.head,
                cur < 64 || self.recs@.dom().contains(cur as int),
                self.newest(key@) == chain::find(self.recs@, cur as int, key@),
            decreases cur,
        {
            let info: RecordInfo;
            let same: bool;
            if cur >= head {
                proof {
                    self.lemma_in_memory(cur as int);
                }
                info = self.log.info_at(cur);
                same = self.log.key_is(cur, key);
            } else {
                proof {
                    self.lemma_from_disk(cur as int);
                    record::lemma_word_bits(self.recs@[cur as int].word, 0);
                }
                let buf = match self.log.read_record_from_disk(cur) {
                    Ok(b) => b,
                    Err(_) => {
                        return false;
                    },
                };
                let rec: RecordPtr = match buf.record() {
                    Some(p) => p,
                    None => {
                        return false;
                    },
                };
                info = rec.load_info();
                same = bytes::bytes_eq(rec.key(), key);
            }
            if same && info.is_valid() {
                return false;
            }
            assert(chain::prev(self.recs@, cur as int) == record::prev_of(info.0));
            cur = info.previous_address();
        }
        proof {
            chain::lemma_find(self.recs@, cur as int, key@);
        }
        cur == addr
    }

    /// Visit every live record: the newest record for each key that is not a
    /// tombstone, in allocation order. Liveness is checked against the hash
    /// index.
    pub fn scan_live(&self) -> (r: Vec<(u64, RecordPtr)>)
        requires
            self.inv(),
        ensures
            forall|i: int|
                0 <= i < r@.len() ==> (#[trigger] r@[i]).1.wf() && self.recs@.dom().contains(
                    r@[i].0 as int,
                ) && self.live(r@[i].0 as int) && is_image(r@[i].1@, self.recs@[r@[i].0 as int]),
            forall|i: int, j: int| 0 <= i < j < r@.len() ==> (#[trigger] r@[i]).0 < (#[trigger] r@[j]).0,
            self.log@.dependable >= self.log@.flushed ==> r@.len() == self.live_list().len()
                && forall|i: int| 0 <= i < r@.len() ==> (#[trigger] r@[i]).0 == self.live_list()[i],
    {
        let begin: u64 = self.log.begin_address();
        let tail: u64 = self.log.tail_address();
        let (all, _res) = self.log.scan(begin, tail);
        let ghost v = self.log@;
        let ghost order = self.order@;
        let ghost recs = self.recs@;
        proof {
            v.lemma_tail();
            lemma_full_scan(v, recs, order);
        }
        let ghost full = v.full_scan(64, v.tail());
        assert(all@.len() <= order.len());
        assert(forall|i: int| #![trigger all@[i]]
            0 <= i < all@.len() ==> all@[i].0 == order[i] && all@[i].1.wf() && is_image(
                all@[i].1@,
                recs[order[i]],
            )) by {
            assert forall|i: int| #![trigger all@[i]] 0 <= i < all@.len() implies all@[i].0 == order[i] && all@[i].1.wf()
                && is_image(all@[i].1@, recs[order[i]]) by {
                assert(full[i].0 == order[0 + i] - 0);
            }
        }
        let mut found: Vec<(u64, RecordPtr)> = Vec::new();
        let mut n: usize = 0;
        while n < all.len()
            invariant
                n <= all@.len() <= order.len(),
                order == self.order@,
                recs == self.recs@,
                v == self.log@,
                self.inv(),
                forall|i: int| #![trigger all@[i]]
                    0 <= i < all@.len() ==> all@[i].0 == order[i] && all@[i].1.wf() && is_image(
                        all@[i].1@,
                        recs[order[i]],
                    ),
                forall|i: int|
                    0 <= i < found@.len() ==> (#[trigger] found@[i]).1.wf() && self.recs@.dom().contains(
                        found@[i].0 as int,
                    ) && self.live(found@[i].0 as int) && is_image(
                        found@[i].1@,
                        self.recs@[found@[i].0 as int],
                    ),
                forall|i: int, j: int|
                    0 <= i < j < found@.len() ==> (#[trigger] found@[i]).0 < (#[trigger] found@[j]).0,
                forall|i: int, m: int|
                    0 <= i < found@.len() && n <= m < order.len() ==> (#[trigger] found@[i]).0 < (
                    #[trigger] order[m]),
                v.dependable >= v.flushed ==> found@.len() == self.live_upto(n as int).len()
                    && forall|i: int|
                    0 <= i < found@.len() ==> (#[trigger] found@[i]).0 == self.live_upto(n as int)[i],
            decreases all@.len() - n,
        {
            let (addr, rec): (u64, &RecordPtr) = (all[n].0, &all[n].1);
            let info: RecordInfo = rec.load_info();
            proof {
                assert(all@[n as int].0 == order[n as int]);
                assert(recs.dom().contains(order[n as int]));
                assert(chain::placed(v, order[n as int], recs[order[n as int]]));
                record::lemma_word_bits(recs[order[n as int]].word, 0);
                chain::lemma_find(
                    recs,
                    chain::chain_head(self.index, recs[order[n as int]].key),
                    recs[order[n as int]].key,
                );
            }
            if info.is_valid() && !info.is_tombstone() && self.is_latest(addr, rec.key()) {
                found.push((addr, rec.duplicate()));
            }
            proof {
                assert forall|m: int| n + 1 <= m < order.len() implies addr < (#[trigger] order[m]) by {
                    chain::lemma_sorted(v, recs, order, n as int, m);
                    record::lemma_size_facts(recs[order[n as int]]);
                }
            }
            n += 1;
        }
        found
    }

    /// Number of live records: a scan that only counts.
    pub fn count_live(&self) -> (r: usize)
        requires
            self.inv(),
        ensures
            self.log@.dependable >= self.log@.flushed ==> r == self.contents().dom().len(),
            r <= self.contents().dom().len(),
    {
        let found: Vec<(u64, RecordPtr)> = self.scan_live();
        proof {
            let addrs = found@.map_values(|e: (u64, RecordPtr)| e.0 as int);
            lemma_distinct_keys(self, addrs);
            live_records_are_the_contents(self);
            if self.log@.dependable >= self.log@.flushed {
                assert(addrs =~= self.live_list());
            }
        }
        found.len()
    }

    /// A live record is the entry of its key.
    pub proof fn lemma_live_get(&self, a: int)
        requires
            self.inv(),
            self.recs@.dom().contains(a),
            self.live(a),
        ensures
            self.get(self.recs@[a].key) is Some,
    {
    }

    /// The keys of a list of records.
    pub open spec fn keys_of(&self, addrs: Seq<int>) -> Seq<Seq<u8>> {
        addrs.map_values(|a: int| self.recs@[a].key)
    }
}

/// Live records have distinct keys, each with an entry.
proof fn lemma_distinct_keys<D: Device>(store: &Store<D>, addrs: Seq<int>)
    requires
        store.inv(),
        forall|i: int, j: int|
            0 <= i < j < addrs.len() ==> (#[trigger] addrs[i]) < (#[trigger] addrs[j]),
        forall|i: int|
            0 <= i < addrs.len() ==> store.recs@.dom().contains(#[trigger] addrs[i]) && store.live(addrs[i]),
    ensures
        store.keys_of(addrs).no_duplicates(),
        store.keys_of(addrs).to_set().subset_of(store.contents().dom()),
        store.contents().dom().finite(),
        addrs.len() <= store.contents().dom().len(),
{
    let keys = store.keys_of(addrs);
    assert forall|i: int, j: int| 0 <= i < keys.len() && 0 <= j < keys.len() && i != j implies keys[i]
        != keys[j] by {
        if keys[i] == keys[j] {
            assert(store.live(addrs[i]) && store.live(addrs[j]));
            assert(addrs[i] == addrs[j]);
            if i < j {
                assert(addrs[i] < addrs[j]);
            } else {
                assert(addrs[j] < addrs[i]);
            }
        }
    }
    assert forall|k: Seq<u8>| keys.to_set().contains(k) implies store.contents().dom().contains(k) by {
        let i = choose|i: int| 0 <= i < keys.len() && keys[i] == k;
        assert(store.live(addrs[i]));
        assert(store.get(k) is Some);
    }
    lemma_finite_contents(store);
    keys.unique_seq_to_set();
    vstd::set_lib::lemma_len_subset(keys.to_set(), store.contents().dom());
}

proof fn lemma_finite_contents<D: Device>(store: &Store<D>)
    requires
        store.inv(),
    ensures
        store.contents().dom().finite(),
{
    let all = store.keys_of(store.order@);
    vstd::seq_lib::seq_to_set_is_finite(all);
    assert(store.contents().dom().subset_of(all.to_set())) by {
        assert forall|k: Seq<u8>| store.contents().dom().contains(k) implies all.to_set().contains(k) by {
            assert(store.get(k) is Some);
            let a = store.newest(k).unwrap();
            chain::lemma_find(store.recs@, chain::chain_head(store.index, k), k);
            assert(store.recs@.dom().contains(a));
            assert(store.order@.contains(a));
            let i = choose|i: int| 0 <= i < store.order@.len() && store.order@[i] == a;
            assert(all[i] == k);
        }
    }
    vstd::set_lib::lemma_set_subset_finite(all.to_set(), store.contents().dom());
}

proof fn lemma_live_upto<D: Device>(store: &Store<D>, n: int)
    requires
        store.inv(),
        0 <= n <= store.order@.len(),
    ensures
        forall|i: int| #![trigger store.live_upto(n)[i]]
            0 <= i < store.live_upto(n).len() ==> store.recs@.dom().contains(store.live_upto(n)[i])
                && store.live(store.live_upto(n)[i]),
        forall|i: int, m: int| #![trigger store.live_upto(n)[i], store.order@[m]]
            0 <= i < store.live_upto(n).len() && n <= m < store.order@.len() ==> store.live_upto(n)[i]
                < store.order@[m],
        forall|i: int, j: int| #![trigger store.live_upto(n)[i], store.live_upto(n)[j]]
            0 <= i < j < store.live_upto(n).len() ==> store.live_upto(n)[i] < store.live_upto(n)[j],
        forall|m: int|
            0 <= m < n && store.live(#[trigger] store.order@[m]) ==> store.live_upto(n).contains(
                store.order@[m],
            ),
    decreases n,
{
    if n > 0 {
        lemma_live_upto(store, n - 1);
        let a = store.order@[n - 1];
        let before = store.live_upto(n - 1);
        let now = store.live_upto(n);
        assert(store.recs@.dom().contains(store.order@[n - 1]));
        assert(chain::placed(store.log@, a, store.recs@[a]));
        record::lemma_size_facts(store.recs@[a]);
        assert forall|m: int| n <= m < store.order@.len() implies a < (#[trigger] store.order@[m]) by {
            chain::lemma_sorted(store.log@, store.recs@, store.order@, n - 1, m);
        }
        assert forall|m: int| 0 <= m < n && store.live(#[trigger] store.order@[m]) implies now.contains(
            store.order@[m],
        ) by {
            if m < n - 1 {
                assert(before.contains(store.order@[m]));
                let i = choose|i: int| 0 <= i < before.len() && before[i] == store.order@[m];
                assert(now[i] == store.order@[m]);
            } else {
                assert(now[now.len() - 1] == a);
            }
        }
    }
}

/// The live records are what the store holds: one for each key with an entry,
/// and no other.
pub proof fn live_records_are_the_contents<D: Device>(store: &Store<D>)
    requires
        store.inv(),
    ensures
        store.keys_of(store.live_list()).no_duplicates(),
        store.keys_of(store.live_list()).to_set() == store.contents().dom(),
        store.contents().dom().finite(),
        store.live_list().len() == store.contents().dom().len(),
{
    let l = store.live_list();
    let keys = store.keys_of(l);
    lemma_live_upto(store, store.order@.len() as int);
    lemma_distinct_keys(store, l);
    assert(keys.to_set() =~= store.contents().dom()) by {
        assert forall|k: Seq<u8>| store.contents().dom().contains(k) implies keys.to_set().contains(k) by {
            assert(store.get(k) is Some);
            let a = store.newest(k).unwrap();
            chain::lemma_find(store.recs@, chain::chain_head(store.index, k), k);
            assert(store.recs@.dom().contains(a));
            assert(store.order@.contains(a));
            let m = choose|m: int| 0 <= m < store.order@.len() && store.order@[m] == a;
            assert(store.live(store.order@[m]));
            assert(l.contains(a));
            let i = choose|i: int| 0 <= i < l.len() && l[i] == a;
            assert(keys[i] == k);
        }
    }
    keys.unique_seq_to_set();
}

} // verus!
