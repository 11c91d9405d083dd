use mini_garnet::callbacks::{CopyDecision, InPlaceResult, SessionFunctions};
use mini_garnet::checkpoint::{CheckpointError, CheckpointInfo};
use mini_garnet::device::{Device, DeviceError, MemDevice};
use mini_garnet::epoch::{EpochGuard, LightEpoch};
use mini_garnet::hash::hash64;
use mini_garnet::index::{HashEntry, HashIndex, TAG_BITS};
use mini_garnet::log::{AllocResult, Fraction, HybridLog, LogSettings, FIRST_VALID_ADDRESS};
use mini_garnet::record::{RecordInfo, RecordInfoRef, RecordPtr, RecordSizeInfo, TEMP_INVALID_ADDRESS, align8, total_size_from_header};
use mini_garnet::store::{LockType, Phase, Session, Status, Store, StoreSettings};
use std::cell::RefCell;
use std::rc::Rc;

// -- epoch -------------------------------------------------------------------

#[test]
fn guard_protects_and_unprotects() {
    let mut epoch: LightEpoch<u32> = LightEpoch::new();
    assert!(!epoch.is_protected(1));
    {
        let g = EpochGuard::new(&mut epoch, 1);
        assert!(epoch.is_protected(1));
        let safe = epoch.compute_safe_epoch();
        assert_eq!(safe, epoch.current_epoch() - 1);
        g.release(&mut epoch);
    }
    assert!(!epoch.is_protected(1));
}

#[test]
fn action_runs_only_after_protected_thread_leaves() {
    let mut epoch: LightEpoch<u32> = LightEpoch::new();
    // Thread 1 enters an epoch and holds it.
    epoch.protect(1);
    // Something is retired.
    let (_, ready) = epoch.bump_with_action(7);
    assert!(ready.is_empty());
    for _ in 0..10 {
        let (_, ready) = epoch.bump_current_epoch();
        assert!(ready.is_empty());
    }
    epoch.unprotect(1);
    epoch.release_thread(1);
    // Now safe: the next bump hands it out.
    assert_eq!(epoch.drain_all_blocking(), vec![7]);
}

#[test]
fn many_threads_protect_concurrently() {
    let mut epoch: LightEpoch<u64> = LightEpoch::new();
    let mut done = 0;
    for _ in 0..200 {
        for tid in 1..17 {
            epoch.protect(tid);
        }
        for tid in 1..17 {
            let (_, ready) = epoch.refresh(tid);
            done += ready.len();
            let (_, ready) = epoch.bump_with_action(tid);
            done += ready.len();
        }
        for tid in 1..17 {
            epoch.unprotect(tid);
        }
    }
    for tid in 1..17 {
        epoch.release_thread(tid);
    }
    done += epoch.drain_all_blocking().len();
    assert_eq!(done, 16 * 200);
}

// -- hash --------------------------------------------------------------------

#[test]
fn stable_and_distinct() {
    assert_eq!(hash64(b"hello"), hash64(b"hello"));
    assert_ne!(hash64(b"hello"), hash64(b"hellp"));
    assert_ne!(hash64(b""), hash64(b"a"));
    assert_ne!(hash64(b"0123456789abcdef"), hash64(b"0123456789abcdeg"));
    // top bits should vary across sequential keys
    let mut tops = std::collections::HashSet::new();
    for i in 0..4096u32 {
        tops.insert(hash64(&i.to_le_bytes()) >> 44); // 20-bit prefix
    }
    assert!(tops.len() > 4000, "poor top-bit mixing: {}", tops.len());
}

// -- index -------------------------------------------------------------------

#[test]
fn entry_encoding() {
    let e = HashEntry::make(0x7fff, 0xffff_ffff_ffff, true);
    assert_eq!(e.tag(), 0x7fff);
    assert_eq!(e.address(), 0xffff_ffff_ffff);
    assert!(e.is_tentative());
    let e2 = HashEntry::make(5, 64, false);
    assert!(!e2.is_tentative());
    assert_eq!(e2.tag(), 5);
}

#[test]
fn find_or_create_then_find() {
    let mut idx = HashIndex::new(16);
    let h = hash64(b"k");
    assert!(idx.find_tag(h).is_none());
    let s = idx.find_or_create_tag(h);
    assert_eq!(s.load(&idx).address(), TEMP_INVALID_ADDRESS);
    let seen = s.load(&idx);
    assert!(s.try_cas(&mut idx, seen, 1000));
    let f = idx.find_tag(h).unwrap();
    assert_eq!(f.load(&idx).address(), 1000);
    // Same tag again returns the same slot.
    let s2 = idx.find_or_create_tag(h);
    assert_eq!(s2.load(&idx).address(), 1000);
}

#[test]
fn overflow_buckets_are_used() {
    // 2 buckets: force many tags into the same bucket via crafted hashes.
    let mut idx = HashIndex::new(2);
    let mut slots = Vec::new();
    for t in 1..40u64 {
        let h = t << (64 - TAG_BITS); // bucket 0, distinct tags
        let s = idx.find_or_create_tag(h);
        let seen = s.load(&idx);
        assert!(s.try_cas(&mut idx, seen, 64 * t));
        slots.push((h, 64 * t));
    }
    for (h, a) in slots {
        assert_eq!(idx.find_tag(h).unwrap().load(&idx).address(), a);
    }
    let n = idx.for_each_entry().len();
    assert_eq!(n, 39);
}

#[test]
fn concurrent_create_yields_single_entry_per_tag() {
    let mut idx = HashIndex::new(4);
    for _ in 0..8 {
        for t in 1..200u64 {
            let h = (t << (64 - TAG_BITS)) | (t & 3);
            let s = idx.find_or_create_tag(h);
            let fresh = HashEntry::make(HashIndex::tag_of(h), TEMP_INVALID_ADDRESS, false);
            let _ = s.try_cas(&mut idx, fresh, 64 * t);
        }
    }
    let mut seen = std::collections::HashSet::new();
    for (b, tag, _) in idx.for_each_entry() {
        assert!(seen.insert((b, tag)), "duplicate tag {tag} in bucket {b}");
    }
    assert_eq!(seen.len(), 199);
}

#[test]
fn latches() {
    let mut idx = HashIndex::new(4);
    assert!(idx.try_lock_shared(1));
    assert!(idx.try_lock_shared(1));
    assert!(!idx.try_lock_exclusive(1), "readers present");
    idx.unlock_shared(1);
    idx.unlock_shared(1);
    assert!(idx.try_lock_exclusive(1));
    assert!(!idx.try_lock_shared(1));
    assert!(!idx.try_lock_exclusive(1));
    idx.unlock_exclusive(1);
    assert!(idx.try_lock_shared(1));
    idx.unlock_shared(1);
    // Latch bits must not disturb the overflow pointer and vice versa.
    let h = 1u64 << (64 - TAG_BITS) | 1;
    for t in 1..20u64 {
        let s = idx.find_or_create_tag((t << (64 - TAG_BITS)) | 1);
        let seen = s.load(&idx);
        s.try_cas(&mut idx, seen, 64 * t);
    }
    assert!(idx.try_lock_exclusive(1));
    assert!(idx.find_tag(h).is_some());
    idx.unlock_exclusive(1);
}

// -- record ------------------------------------------------------------------

#[test]
fn layout_roundtrip() {
    let size = RecordSizeInfo {
        key_len: 3,
        value_cap: 10,
        has_expiration: true,
    };
    assert_eq!(size.total_size(), align8(24 + 8 + 3 + 10));
    let mut rec = RecordPtr::init(0x1234, true, &size, b"abc");
    assert!(rec.load_info().is_sealed());
    assert!(!rec.load_info().is_valid());
    assert_eq!(rec.load_info().previous_address(), 0x1234);
    assert!(rec.load_info().in_new_version());
    rec.value_buf_mut()[..5].copy_from_slice(b"hello");
    rec.set_value_len(5);
    assert!(rec.set_expiration(99));
    rec.info().unseal_and_validate();
    let i = rec.load_info();
    assert!(i.is_valid() && !i.is_sealed());
    assert_eq!(rec.key(), b"abc");
    assert_eq!(rec.value(), b"hello");
    assert_eq!(rec.expiration(), 99);
    assert_eq!(rec.total_size(), size.total_size());
    assert_eq!(
        total_size_from_header(&rec.to_bytes()),
        Some(size.total_size())
    );
    assert!(rec.info().try_seal());
    assert!(!rec.info().try_seal());
    assert!(rec.load_info().is_closed());
    // What is written to a device is read back as the same record.
    let back = RecordPtr::new(&rec.to_bytes()).unwrap();
    assert_eq!(back.key(), b"abc");
    assert_eq!(back.value(), b"hello");
    assert_eq!(back.expiration(), 99);
}

#[test]
fn no_expiration_slot() {
    let size = RecordSizeInfo {
        key_len: 1,
        value_cap: 1,
        has_expiration: false,
    };
    let mut rec = RecordPtr::init(0, false, &size, b"k");
    assert!(!rec.set_expiration(5));
    assert_eq!(rec.expiration(), 0);
    assert_eq!(rec.total_size(), 32);
}

// -- a device that outlives its store ----------------------------------------

#[derive(Clone)]
struct Disk(Rc<RefCell<Vec<u8>>>);

impl Disk {
    fn new() -> Disk {
        Disk(Rc::new(RefCell::new(Vec::new())))
    }
}

impl Device for Disk {
    fn write_at(&mut self, addr: u64, data: &[u8]) -> Result<(), DeviceError> {
        let mut d = self.0.borrow_mut();
        let end = addr as usize + data.len();
        if d.len() < end {
            d.resize(end, 0);
        }
        d[addr as usize..end].copy_from_slice(data);
        Ok(())
    }
    fn read_at(&self, addr: u64, buf: &mut [u8]) -> Result<(), DeviceError> {
        let d = self.0.borrow();
        let end = addr as usize + buf.len();
        if d.len() < end {
            return Err(DeviceError::UnexpectedEof);
        }
        buf.copy_from_slice(&d[addr as usize..end]);
        Ok(())
    }
    fn sync(&mut self) -> Result<(), DeviceError> {
        Ok(())
    }
}

// -- log ---------------------------------------------------------------------

fn small_log(pages: usize) -> HybridLog<MemDevice> {
    HybridLog::new(
        LogSettings {
            page_bits: 9,
            memory_pages: pages,
            mutable_fraction: Fraction { num: 1, den: 2 },
        },
        MemDevice::new(),
    )
}

fn take(log: &mut HybridLog<MemDevice>, tid: u64, size: usize) -> u64 {
    for _ in 0..100 {
        match log.try_allocate(size) {
            AllocResult::Address(a) => return a,
            _ => {
                log.refresh(tid);
                log.bump();
            }
        }
    }
    panic!("allocation makes no progress");
}

#[test]
fn allocates_sequentially_and_turns_pages() {
    let mut log = small_log(4);
    log.protect(1);
    let a = take(&mut log, 1, 64);
    assert_eq!(a, 64);
    let b = take(&mut log, 1, 64);
    assert_eq!(b, 128);
    // Fill page 0 (512 bytes: 64 header + 7*64 = 512).
    for _ in 0..5 {
        take(&mut log, 1, 64);
    }
    let c = take(&mut log, 1, 64);
    assert_eq!(c, 512 + 64, "first slot of page 1");
    assert_eq!(log.tail_address(), 512 + 128);
}

#[test]
fn eviction_flushes_then_frees_and_disk_read_works() {
    let mut log = small_log(4);
    let size = RecordSizeInfo {
        key_len: 4,
        value_cap: 8,
        has_expiration: false,
    };
    let mut addrs = Vec::new();
    log.protect(1);
    // Allocate through many pages (40-byte records, 11 per 512-byte page).
    for i in 0..200u32 {
        let a = take(&mut log, 1, size.total_size());
        let mut rec = RecordPtr::init(0, false, &size, &i.to_le_bytes());
        rec.value_buf_mut()[..8].copy_from_slice(&(i as u64).to_le_bytes());
        rec.set_value_len(8);
        rec.info().unseal_and_validate();
        log.write_record(a, &rec);
        addrs.push((i, a));
        log.refresh(1);
    }
    log.unprotect(1);
    log.drain_all_blocking();
    assert!(
        log.head_address() > FIRST_VALID_ADDRESS,
        "head must have moved"
    );
    assert!(log.flushed_until_address() >= log.head_address());
    assert!(log.closed_until_address() <= log.safe_head_address());
    // Everything below head is readable from the device.
    log.protect(1);
    for (i, a) in &addrs {
        if *a < log.head_address() {
            let buf = log.read_record_from_disk(*a).unwrap();
            let rec = buf.record().unwrap();
            assert_eq!(rec.key(), &i.to_le_bytes());
            assert_eq!(rec.value(), &(*i as u64).to_le_bytes());
        } else {
            let rec = log.record_at(*a);
            assert_eq!(rec.key(), &i.to_le_bytes());
        }
    }
    // Scan sees every record exactly once.
    let (seen, end) = log.scan(log.begin_address(), log.tail_address());
    end.unwrap();
    for (_, rec) in &seen {
        assert!(rec.load_info().is_valid());
    }
    assert_eq!(seen.len(), 200);
    let found: Vec<u64> = seen.iter().map(|(a, _)| *a).collect();
    let written: Vec<u64> = addrs.iter().map(|(_, a)| *a).collect();
    assert_eq!(found, written);
}

#[test]
fn shift_read_only_to_tail_flushes_partial_page() {
    let mut log = small_log(4);
    log.protect(1);
    let a = take(&mut log, 1, 64);
    let size = RecordSizeInfo {
        key_len: 1,
        value_cap: 8,
        has_expiration: false,
    };
    let mut rec = RecordPtr::init(0, false, &size, b"k");
    rec.info().unseal_and_validate();
    log.write_record(a, &rec);
    log.unprotect(1);
    let tail = log.shift_read_only_to_tail();
    log.wait_flushed(tail);
    assert_eq!(log.flushed_until_address(), tail);
    let buf = log.read_record_from_disk(a).unwrap();
    assert_eq!(buf.record().unwrap().key(), b"k");
}

#[test]
fn boundaries_stay_in_order() {
    let mut log = small_log(4);
    log.protect(1);
    for _ in 0..200 {
        take(&mut log, 1, 64);
        log.refresh(1);
        assert!(log.begin_address() <= log.head_address());
        assert!(log.head_address() <= log.flushed_until_address());
        assert!(log.flushed_until_address() <= log.safe_read_only_address());
        assert!(log.safe_read_only_address() <= log.read_only_address());
        assert!(log.read_only_address() <= log.tail_address());
        assert!(log.begin_address() <= log.closed_until_address());
        assert!(log.closed_until_address() <= log.safe_head_address());
        assert!(log.safe_head_address() <= log.head_address());
    }
    log.unprotect(1);
    log.drain_all_blocking();
    assert!(log.head_address() > FIRST_VALID_ADDRESS, "head must have moved");
}

// -- store -------------------------------------------------------------------

enum Cmd {
    Incr(i64),
    Append(&'static [u8]),
    SetNx(&'static [u8]),
    SetXx(&'static [u8]),
    Put(Vec<u8>),
}

fn set(v: &[u8]) -> Cmd {
    Cmd::Put(v.to_vec())
}

struct TestFns {
    posts: usize,
    gone: usize,
}

fn parse_i64(v: &[u8]) -> i64 {
    std::str::from_utf8(v).unwrap().parse().unwrap()
}

fn plain_size(key: &[u8], cap: usize) -> RecordSizeInfo {
    RecordSizeInfo {
        key_len: key.len(),
        value_cap: cap,
        has_expiration: false,
    }
}

fn write(rec: &mut RecordPtr, v: &[u8]) {
    rec.value_buf_mut()[..v.len()].copy_from_slice(v);
    rec.set_value_len(v.len());
}

fn first_value(input: &Cmd) -> Vec<u8> {
    match input {
        Cmd::Incr(d) => d.to_string().into_bytes(),
        Cmd::Append(v) | Cmd::SetNx(v) | Cmd::SetXx(v) => v.to_vec(),
        Cmd::Put(v) => v.clone(),
    }
}

fn next_value(input: &Cmd, old: &[u8]) -> Vec<u8> {
    match input {
        Cmd::Incr(d) => (parse_i64(old) + d).to_string().into_bytes(),
        Cmd::Append(a) => {
            let mut v = old.to_vec();
            v.extend_from_slice(a);
            v
        }
        Cmd::SetNx(v) | Cmd::SetXx(v) => v.to_vec(),
        Cmd::Put(v) => v.clone(),
    }
}

impl SessionFunctions for TestFns {
    type Input = Cmd;
    type Output = Vec<u8>;
    type OutputView = ();

    fn reader(&mut self, _key: &[u8], _input: &Cmd, rec: &RecordPtr, out: &mut Vec<u8>) -> bool {
        out.clear();
        out.extend_from_slice(rec.value());
        true
    }
    fn upsert_size(&mut self, key: &[u8], input: &Cmd) -> RecordSizeInfo {
        plain_size(key, first_value(input).len())
    }
    fn initial_writer(&mut self, _k: &[u8], input: &Cmd, rec: &mut RecordPtr, _o: &mut Vec<u8>) {
        write(rec, &first_value(input));
    }
    fn in_place_writer(
        &mut self,
        _key: &[u8],
        input: &Cmd,
        rec: &mut RecordPtr,
        _out: &mut Vec<u8>,
    ) -> bool {
        let v = first_value(input);
        if v.len() > rec.value_cap() {
            return false;
        }
        write(rec, &v);
        self.posts += 1;
        true
    }
    fn need_initial_update(&mut self, _key: &[u8], input: &Cmd, _out: &mut Vec<u8>) -> bool {
        !matches!(input, Cmd::SetXx(_))
    }
    fn initial_size(&mut self, key: &[u8], input: &Cmd) -> RecordSizeInfo {
        plain_size(key, first_value(input).len())
    }
    fn initial_updater(&mut self, _k: &[u8], input: &Cmd, rec: &mut RecordPtr, out: &mut Vec<u8>) {
        let v = first_value(input);
        write(rec, &v);
        *out = v;
    }
    fn in_place_updater(
        &mut self,
        _key: &[u8],
        input: &Cmd,
        rec: &mut RecordPtr,
        out: &mut Vec<u8>,
    ) -> InPlaceResult {
        if matches!(input, Cmd::SetNx(_)) {
            return InPlaceResult::Cancel;
        }
        let v = next_value(input, rec.value());
        if v.len() > rec.value_cap() {
            return InPlaceResult::NeedCopy;
        }
        write(rec, &v);
        *out = v;
        self.posts += 1;
        InPlaceResult::Updated
    }
    fn need_copy_update(
        &mut self,
        _key: &[u8],
        input: &Cmd,
        _old: &RecordPtr,
        _out: &mut Vec<u8>,
    ) -> CopyDecision {
        if matches!(input, Cmd::SetNx(_)) {
            CopyDecision::Cancel
        } else {
            CopyDecision::Copy
        }
    }
    fn copy_size(&mut self, key: &[u8], input: &Cmd, old: &RecordPtr) -> RecordSizeInfo {
        plain_size(key, next_value(input, old.value()).len())
    }
    fn copy_updater(
        &mut self,
        _key: &[u8],
        input: &Cmd,
        old: &RecordPtr,
        new: &mut RecordPtr,
        out: &mut Vec<u8>,
    ) {
        let v = next_value(input, old.value());
        write(new, &v);
        *out = v;
    }
    fn post_initial_writer(&mut self, _k: &[u8], _i: &Cmd, _r: &RecordPtr, _o: &mut Vec<u8>) {
        self.posts += 1;
    }
    fn post_initial_updater(&mut self, _k: &[u8], _i: &Cmd, _r: &RecordPtr, _o: &mut Vec<u8>) {
        self.posts += 1;
    }
    fn post_copy_updater(&mut self, _k: &[u8], _i: &Cmd, _r: &RecordPtr, _o: &mut Vec<u8>) {
        self.posts += 1;
    }
    fn post_deleter(&mut self, _k: &[u8]) {
        self.gone += 1;
    }
}

fn settings(page_bits: u32, memory_pages: usize) -> StoreSettings {
    StoreSettings {
        index_buckets: 64,
        log: LogSettings {
            page_bits,
            memory_pages,
            mutable_fraction: Fraction { num: 1, den: 2 },
        },
    }
}

fn small_store() -> Store<MemDevice> {
    Store::new(settings(10, 4), MemDevice::new())
}

fn fns() -> TestFns {
    TestFns { posts: 0, gone: 0 }
}

#[test]
fn upsert_read_rmw_delete_in_memory() {
    let mut store = small_store();
    let st = &mut store;
    let mut s: Session<TestFns> = st.new_session(fns());
    let mut out = Vec::new();
    assert_eq!(s.read(st, b"a", &set(b""), &mut out), Status::NotFound);
    assert_eq!(
        s.upsert(st, b"a", &set(b"hello"), &mut out),
        Status::Created
    );
    assert_eq!(s.read(st, b"a", &set(b""), &mut out), Status::Found);
    assert_eq!(out, b"hello");
    // In-place overwrite (fits).
    assert_eq!(
        s.upsert(st, b"a", &set(b"hi"), &mut out),
        Status::InPlaceUpdated
    );
    // Does not fit -> new record at tail.
    assert_eq!(
        s.upsert(st, b"a", &set(b"a much longer value"), &mut out),
        Status::Created
    );
    assert_eq!(s.read(st, b"a", &set(b""), &mut out), Status::Found);
    assert_eq!(out, b"a much longer value");

    // RMW: INCR creates, then in-place, then copy when digits grow.
    assert_eq!(s.rmw(st, b"n", &Cmd::Incr(5), &mut out), Status::Created);
    assert_eq!(out, b"5");
    assert_eq!(
        s.rmw(st, b"n", &Cmd::Incr(4), &mut out),
        Status::InPlaceUpdated
    );
    assert_eq!(out, b"9");
    assert_eq!(
        s.rmw(st, b"n", &Cmd::Incr(1), &mut out),
        Status::CopyUpdated
    );
    assert_eq!(out, b"10");
    assert_eq!(s.read(st, b"n", &set(b""), &mut out), Status::Found);
    assert_eq!(out, b"10");

    // SETNX / SETXX semantics via need_* callbacks.
    assert_eq!(s.rmw(st, b"n", &Cmd::SetNx(b"x"), &mut out), Status::Found);
    assert_eq!(
        s.rmw(st, b"zz", &Cmd::SetXx(b"x"), &mut out),
        Status::NotFound
    );
    assert_eq!(
        s.rmw(st, b"zz", &Cmd::SetNx(b"x"), &mut out),
        Status::Created
    );

    // Delete.
    assert_eq!(s.delete(st, b"n"), Status::Deleted);
    assert_eq!(s.delete(st, b"n"), Status::NotFound);
    assert_eq!(s.read(st, b"n", &set(b""), &mut out), Status::NotFound);
    // Re-create after delete.
    assert_eq!(s.rmw(st, b"n", &Cmd::Incr(1), &mut out), Status::Created);
    assert_eq!(out, b"1");
    assert_eq!(st.count_live(), 3); // a, zz, n
    assert_eq!(
        s.functions.posts, 8,
        "one post-mutation hook per successful write"
    );
}

#[test]
fn records_evicted_to_disk_are_still_readable_and_updatable() {
    let mut store = small_store();
    let st = &mut store;
    let mut s = st.new_session(fns());
    let mut out = Vec::new();
    // 4 pages x 1KB in memory; write far more than that.
    let n = 2000u32;
    for i in 0..n {
        let k = format!("key{i}");
        assert_eq!(
            s.upsert(st, k.as_bytes(), &set(format!("val{i}").as_bytes()), &mut out),
            Status::Created
        );
    }
    st.log.drain_all_blocking();
    assert!(st.log.head_address() > FIRST_VALID_ADDRESS);
    // Early keys are on disk now.
    for i in (0..n).step_by(97) {
        let k = format!("key{i}");
        assert_eq!(
            s.read(st, k.as_bytes(), &set(b""), &mut out),
            Status::Found,
            "key{i}"
        );
        assert_eq!(out, format!("val{i}").as_bytes());
    }
    // RMW on a key that lives on disk: read-copy-update to the tail.
    assert_eq!(
        s.rmw(st, b"key0", &Cmd::Append(b"+more"), &mut out),
        Status::CopyUpdated
    );
    assert_eq!(s.read(st, b"key0", &set(b""), &mut out), Status::Found);
    assert_eq!(out, b"val0+more");
    // Delete a key on disk.
    assert_eq!(s.delete(st, b"key1"), Status::Deleted);
    assert_eq!(s.read(st, b"key1", &set(b""), &mut out), Status::NotFound);
    assert_eq!(s.delete(st, b"key1"), Status::NotFound);
    assert_eq!(
        s.rmw(st, b"nope-on-disk", &Cmd::Incr(1), &mut out),
        Status::Created
    );
    assert_eq!(st.count_live(), n as usize);
}

#[test]
fn concurrent_incr_is_atomic_and_never_loses_updates() {
    let sixteen = StoreSettings {
        index_buckets: 16,
        ..settings(12, 8)
    };
    let mut store = Store::new(sixteen, MemDevice::new());
    let st = &mut store;
    let threads = 8;
    let per = 2000;
    let keys = 5;
    let mut sessions: Vec<Session<TestFns>> = (0..threads).map(|_| st.new_session(fns())).collect();
    let mut out = Vec::new();
    for i in 0..per {
        for (t, s) in sessions.iter_mut().enumerate() {
            let k = format!("counter{}", (i + t) % keys);
            let r = s.rmw(st, k.as_bytes(), &Cmd::Incr(1), &mut out);
            assert!(r.is_updated(), "{r:?}");
        }
    }
    for s in sessions.iter_mut() {
        s.close(st);
    }
    let mut s = st.new_session(fns());
    let mut total = 0;
    for k in 0..keys {
        assert_eq!(
            s.read(st, format!("counter{k}").as_bytes(), &set(b""), &mut out),
            Status::Found
        );
        total += parse_i64(&out);
    }
    assert_eq!(total, (threads * per) as i64);
}

#[test]
fn transaction_locks_are_sorted_and_exclusive() {
    let mut store = small_store();
    let st = &mut store;
    let mut s = st.new_session(fns());
    let mut out = Vec::new();
    s.upsert(st, b"src", &set(b"10"), &mut out);
    s.upsert(st, b"dst", &set(b"0"), &mut out);
    assert!(s.txn_lock(
        st,
        &[
            (b"dst".as_slice(), LockType::Exclusive),
            (b"src".as_slice(), LockType::Exclusive)
        ]
    ));
    assert!(s.in_transaction());
    // Another session cannot get the latch while the txn holds it: its RMW
    // gives up, and works once the latches are given back.
    let b = st.index.bucket_index(hash64(b"src"));
    assert!(st.index.is_locked_exclusive(b));
    let mut other = st.new_session(fns());
    assert_eq!(
        other.rmw(st, b"src", &Cmd::Incr(1), &mut out),
        Status::Error,
        "must be blocked by the txn latch"
    );
    assert!(!other.txn_lock(st, &[(b"src".as_slice(), LockType::Shared)]));
    s.rmw(st, b"src", &Cmd::Incr(-3), &mut out);
    s.rmw(st, b"dst", &Cmd::Incr(3), &mut out);
    s.txn_unlock(st);
    assert!(!s.in_transaction());
    assert!(!st.index.is_locked_exclusive(b));
    assert!(other
        .rmw(st, b"src", &Cmd::Incr(1), &mut out)
        .is_updated());
    assert_eq!(s.read(st, b"src", &set(b""), &mut out), Status::Found);
    assert_eq!(out, b"8");
    assert_eq!(s.read(st, b"dst", &set(b""), &mut out), Status::Found);
    assert_eq!(out, b"3");
}

// -- checkpoint --------------------------------------------------------------

#[test]
fn checkpoint_and_recover_roundtrip() {
    let disk = Disk::new();
    let mut store = Store::new(settings(10, 4), disk.clone());
    let st = &mut store;
    let mut s = st.new_session(fns());
    let mut out = Vec::new();
    for i in 0..500i64 {
        let v = i.to_string();
        s.upsert(st, format!("k{i}").as_bytes(), &set(v.as_bytes()), &mut out);
    }
    s.delete(st, b"k7");
    s.rmw(st, b"k8", &Cmd::Incr(100), &mut out); // 108
    let info = st.take_checkpoint(42).unwrap();
    assert_eq!(info.version, 1);
    assert_eq!(info.user_data, 42);
    st.finish_checkpoint(&info);
    assert_eq!(st.current_version(), 2);
    // Writes after the checkpoint must not show up after recovery.
    s.upsert(st, b"k1", &set(b"-1"), &mut out);
    s.upsert(st, b"new", &set(b"1"), &mut out);
    s.close(st);

    let mut store2 = Store::new(settings(10, 4), disk.clone());
    let st2 = &mut store2;
    let info2 = CheckpointInfo::from_bytes(&info.to_bytes()).unwrap();
    assert!(info2 == info);
    st2.recover(&info2).unwrap();
    assert_eq!(st2.current_version(), 2);
    let mut s2 = st2.new_session(fns());
    assert_eq!(s2.read(st2, b"k1", &set(b""), &mut out), Status::Found);
    assert_eq!(out, b"1", "post-checkpoint write is not in the checkpoint");
    assert_eq!(s2.read(st2, b"new", &set(b""), &mut out), Status::NotFound);
    assert_eq!(
        s2.read(st2, b"k7", &set(b""), &mut out),
        Status::NotFound,
        "tombstone recovered"
    );
    assert_eq!(s2.read(st2, b"k8", &set(b""), &mut out), Status::Found);
    assert_eq!(out, b"108");
    assert_eq!(s2.read(st2, b"k499", &set(b""), &mut out), Status::Found);
    assert_eq!(out, b"499");
    assert_eq!(st2.count_live(), 499);
    // The recovered store keeps working (writes go to a fresh tail page).
    assert_eq!(
        s2.rmw(st2, b"k8", &Cmd::Incr(1), &mut out),
        Status::CopyUpdated
    );
    assert_eq!(out, b"109");
    assert!(s2.upsert(st2, b"after", &set(b"5"), &mut out).is_updated());
}

#[test]
fn checkpoint_under_concurrent_updates_is_a_consistent_prefix() {
    let disk = Disk::new();
    let mut store = Store::new(settings(12, 8), disk.clone());
    let st = &mut store;
    let mut sessions: Vec<Session<TestFns>> = (0..4).map(|_| st.new_session(fns())).collect();
    let mut out = Vec::new();
    let mut total = 0i64;
    let mut before = 0i64;
    let mut taken = None;
    // Writers keep incrementing a handful of counters while we checkpoint.
    for n in 0..400 {
        for (t, s) in sessions.iter_mut().enumerate() {
            let k = format!("c{}", (n + t) % 4);
            assert!(s
                .rmw(st, k.as_bytes(), &Cmd::Incr(1), &mut out)
                .is_updated());
            total += 1;
            if n == 100 && t == 1 {
                taken = Some(st.take_checkpoint(0).unwrap());
                before = total;
            }
        }
        if n == 200 {
            st.finish_checkpoint(taken.as_ref().unwrap());
        }
    }
    for s in sessions.iter_mut() {
        s.close(st);
    }

    let mut store2 = Store::new(settings(12, 8), disk.clone());
    let st2 = &mut store2;
    st2.recover(&taken.unwrap()).unwrap();
    let mut s2 = st2.new_session(fns());
    let mut sum = 0i64;
    for k in 0..4 {
        if s2.read(st2, format!("c{k}").as_bytes(), &set(b""), &mut out) == Status::Found {
            let v = parse_i64(&out);
            assert!(v >= 0);
            sum += v;
        }
    }
    assert!(sum > 0, "checkpoint captured some work");
    assert!(sum <= total, "checkpoint is a prefix of the executed work");
    assert_eq!(sum, before);
}

#[test]
fn metadata_errors() {
    assert!(matches!(
        CheckpointInfo::from_bytes(b"short"),
        Err(CheckpointError::Truncated)
    ));
    assert!(matches!(
        CheckpointInfo::from_bytes(&[0u8; 48]),
        Err(CheckpointError::BadMagic)
    ));
}

#[test]
fn only_a_log_is_recovered() {
    let disk = Disk::new();
    let mut store = Store::new(settings(10, 4), disk.clone());
    let st = &mut store;
    let mut s = st.new_session(fns());
    let mut out = Vec::new();
    for i in 0..100 {
        s.upsert(st, format!("k{i}").as_bytes(), &set(b"v"), &mut out);
    }
    let info = st.take_checkpoint(0).unwrap();
    let whole = disk.0.borrow().clone();
    let attempt = |bytes: &[u8], info: &CheckpointInfo| {
        let d = Disk(Rc::new(RefCell::new(bytes.to_vec())));
        let mut other = Store::new(settings(10, 4), d);
        let found = other.holds_log(info.final_address);
        (found, other.recover(info))
    };
    assert!(matches!(attempt(&whole, &info), (Ok(true), Ok(()))));
    // A record that the log does not have: value longer than its capacity.
    let mut torn = whole.clone();
    torn[64 + 12] = 0xff;
    assert!(matches!(
        attempt(&torn, &info),
        (Ok(false), Err(CheckpointError::NoLog))
    ));
    // A chain that leads upward.
    let mut torn = whole.clone();
    torn[64 + 1] = 0x7f;
    assert!(matches!(
        attempt(&torn, &info),
        (Ok(false), Err(CheckpointError::NoLog))
    ));
    // Something in the gap at the end of a page.
    let mut torn = whole.clone();
    assert_eq!(torn[1023], 0);
    torn[1023] = 1;
    assert!(matches!(
        attempt(&torn, &info),
        (Ok(false), Err(CheckpointError::NoLog))
    ));
    // A tail that is none.
    let odd = CheckpointInfo {
        final_address: info.final_address - 8,
        ..info
    };
    assert!(matches!(
        attempt(&whole, &odd),
        (Ok(false), Err(CheckpointError::NoLog))
    ));
    // A version that has no successor.
    let last = CheckpointInfo {
        version: u64::MAX,
        ..info
    };
    assert!(matches!(
        attempt(&whole, &last),
        (Ok(true), Err(CheckpointError::NoLog))
    ));
    // A device that ends early.
    assert!(matches!(
        attempt(&whole[..whole.len() - 8], &info),
        (
            Err(DeviceError::UnexpectedEof),
            Err(CheckpointError::Device(DeviceError::UnexpectedEof))
        )
    ));
}

#[test]
fn a_second_checkpoint_waits_for_the_first() {
    let mut store = small_store();
    let info = store.take_checkpoint(0).unwrap();
    assert!(matches!(
        store.take_checkpoint(0),
        Err(CheckpointError::InProgress)
    ));
    store.finish_checkpoint(&info);
    assert!(store.take_checkpoint(0).is_ok());
}

#[test]
fn an_empty_log_on_an_empty_device_cannot_be_recovered() {
    let mut store = small_store();
    let info = store.take_checkpoint(0).unwrap();
    store.finish_checkpoint(&info);
    let mut other = Store::new(settings(10, 4), Disk::new());
    assert!(matches!(
        other.recover(&info),
        Err(CheckpointError::Device(DeviceError::UnexpectedEof))
    ));
}

#[test]
fn an_elided_slot_is_left_alone() {
    let mut idx = HashIndex::new(2);
    let h = 5u64 << (64 - TAG_BITS);
    let s = idx.find_or_create_tag(h);
    assert_eq!(idx.find_tag(h).unwrap().entry, s.entry, "the same slot");
    let e = s.load(&idx);
    assert!(s.try_cas(&mut idx, e, 640));
    let e = s.load(&idx);
    assert_eq!(e.address(), 640);
    assert_eq!(e.tag(), 5);
    assert!(!e.is_tentative());
    assert!(s.try_elide(&mut idx, e));
    assert!(!s.try_elide(&mut idx, e), "there is nothing left to elide");
    assert!(s.load(&idx).is_empty());
    assert!(idx.find_tag(h).is_none());
}

#[test]
fn one_bucket_holds_many_tags() {
    let mut idx = HashIndex::new(2);
    for t in 1..40u64 {
        let h = t << (64 - TAG_BITS);
        let s = idx.find_or_create_tag(h);
        let e = s.load(&idx);
        assert!(s.try_cas(&mut idx, e, 64 * t));
    }
    let mut all = idx.for_each_entry();
    all.sort();
    let want: Vec<(usize, u64, u64)> = (1..40u64).map(|t| (0, t, 64 * t)).collect();
    assert_eq!(all, want);
}

#[test]
fn header_words_are_exact() {
    let bits = 0xffe0_0000_0000_0000u64;
    let mut w = bits | 0x10_0000_0000_0000 | 0x1234;
    RecordInfoRef(&mut w).unseal_and_validate();
    assert_eq!(w, bits | 0x2_0000_0000_0000 | 0x1234);
    assert!(!RecordInfoRef(&mut w).try_update_previous_address(0x1235, 1));
    assert!(RecordInfoRef(&mut w).try_update_previous_address(0x1234, 0xabcd));
    assert_eq!(w, bits | 0x2_0000_0000_0000 | 0xabcd);
    RecordInfoRef(&mut w).seal_and_invalidate();
    assert_eq!(w, bits | 0x10_0000_0000_0000 | 0xabcd);
    assert_eq!(RecordInfo::new(0x40, true).0, 0x4_0000_0000_0040);
}

#[test]
fn a_log_starts_with_its_boundaries_in_order() {
    let mut log = small_log(4);
    assert_eq!(log.begin_address(), FIRST_VALID_ADDRESS);
    assert_eq!(log.closed_until_address(), FIRST_VALID_ADDRESS);
    log.protect(1);
    let a = take(&mut log, 1, 64);
    log.unprotect(1);
    assert!(log.shift_read_only_address(a + 64));
    assert_eq!(log.safe_read_only_address(), a + 64);
    assert_eq!(log.flushed_until_address(), a + 64);
}

#[test]
fn callbacks_are_told_once() {
    let mut store = small_store();
    let st = &mut store;
    let mut s: Session<TestFns> = st.new_session(fns());
    let mut out = Vec::new();
    assert_eq!(s.delete(st, b"k"), Status::NotFound);
    assert_eq!((s.functions.posts, s.functions.gone), (0, 0));
    assert_eq!(s.rmw(st, b"k", &Cmd::Append(b"a"), &mut out), Status::Created);
    assert_eq!((s.functions.posts, s.functions.gone), (1, 0));
    assert_eq!(s.rmw(st, b"k", &Cmd::Append(b"b"), &mut out), Status::CopyUpdated);
    assert_eq!((s.functions.posts, s.functions.gone), (2, 0));
    assert_eq!(s.delete(st, b"k"), Status::Deleted);
    assert_eq!((s.functions.posts, s.functions.gone), (2, 1));
    assert_eq!(s.delete(st, b"k"), Status::NotFound);
    assert_eq!((s.functions.posts, s.functions.gone), (2, 1));
}

#[test]
fn a_copy_seals_the_record_it_replaces() {
    let mut store = small_store();
    let st = &mut store;
    let mut s: Session<TestFns> = st.new_session(fns());
    let mut out = Vec::new();
    let h = mini_garnet::hash::hash64(b"k");
    assert_eq!(s.rmw(st, b"k", &Cmd::Append(b"a"), &mut out), Status::Created);
    let old = st.index.find_tag(h).unwrap().load(&st.index).address();
    assert_eq!(s.rmw(st, b"k", &Cmd::Append(b"b"), &mut out), Status::CopyUpdated);
    let new = st.index.find_tag(h).unwrap().load(&st.index).address();
    assert!(new > old);
    let (was, is) = (st.log.record_at(old), st.log.record_at(new));
    assert!(was.load_info().is_sealed());
    assert_eq!(was.value(), b"a");
    assert!(is.load_info().is_valid() && !is.load_info().is_sealed());
    assert_eq!(is.load_info().previous_address(), old);
    assert_eq!(is.value(), b"ab");
}

#[test]
fn a_thread_in_the_epoch_holds_back_the_boundaries() {
    let mut log = small_log(4);
    let a = take(&mut log, 1, 64);
    log.protect(2);
    assert!(log.shift_read_only_address(a + 64));
    log.bump();
    log.bump();
    assert_eq!(log.read_only_address(), a + 64);
    assert_eq!(log.safe_read_only_address(), FIRST_VALID_ADDRESS);
    assert_eq!(log.flushed_until_address(), FIRST_VALID_ADDRESS);
    log.refresh(2);
    assert_eq!(log.safe_read_only_address(), a + 64);
    assert_eq!(log.flushed_until_address(), a + 64);
    log.unprotect(2);
}

fn newest_of(st: &Store<MemDevice>, key: &[u8]) -> u64 {
    st.index.find_tag(hash64(key)).unwrap().load(&st.index).address()
}

#[test]
fn the_fuzzy_region_is_not_copied_from() {
    let mut store = small_store();
    let st = &mut store;
    let mut s: Session<TestFns> = st.new_session(fns());
    let mut out = Vec::new();
    assert_eq!(s.rmw(st, b"n", &Cmd::Incr(1), &mut out), Status::Created);
    let old = newest_of(st, b"n");
    st.log.protect(77);
    st.log.shift_read_only_to_tail();
    assert!(old < st.log.read_only_address() && old >= st.log.safe_read_only_address());
    assert_eq!(s.rmw(st, b"n", &Cmd::Incr(1), &mut out), Status::Error);
    assert_eq!(newest_of(st, b"n"), old);
    st.log.unprotect(77);
    st.log.bump();
    assert_eq!(s.rmw(st, b"n", &Cmd::Incr(1), &mut out), Status::CopyUpdated);
    assert!(newest_of(st, b"n") > old);
    assert_eq!(s.read(st, b"n", &set(b""), &mut out), Status::Found);
    assert_eq!(parse_i64(&out), 2);
}

#[test]
fn a_frozen_record_is_deleted_by_a_new_one() {
    let mut store = small_store();
    let st = &mut store;
    let mut s: Session<TestFns> = st.new_session(fns());
    let mut out = Vec::new();
    s.upsert(st, b"mutable", &set(b"v"), &mut out);
    let at = newest_of(st, b"mutable");
    assert_eq!(s.delete(st, b"mutable"), Status::Deleted);
    assert_eq!(newest_of(st, b"mutable"), at);
    assert!(st.log.record_at(at).load_info().is_tombstone());

    s.upsert(st, b"frozen", &set(b"v"), &mut out);
    let old = newest_of(st, b"frozen");
    st.log.shift_read_only_to_tail();
    assert_eq!(s.delete(st, b"frozen"), Status::Deleted);
    let new = newest_of(st, b"frozen");
    assert!(new > old);
    let (was, is) = (st.log.record_at(old), st.log.record_at(new));
    assert!(!was.load_info().is_tombstone() && was.load_info().is_sealed());
    assert_eq!(was.value(), b"v");
    assert!(is.load_info().is_tombstone());
    assert_eq!(is.load_info().previous_address(), old);
}

#[test]
fn a_blind_write_seals_what_it_finds_in_the_mutable_region() {
    let mut store = small_store();
    let st = &mut store;
    let mut s: Session<TestFns> = st.new_session(fns());
    let mut out = Vec::new();
    s.upsert(st, b"k", &set(b"v"), &mut out);
    let first = newest_of(st, b"k");
    assert_eq!(s.upsert(st, b"k", &set(&[7u8; 100]), &mut out), Status::Created);
    let second = newest_of(st, b"k");
    assert!(second > first && st.log.record_at(first).load_info().is_sealed());
    assert_eq!(st.log.record_at(first).value(), b"v");
    st.log.shift_read_only_to_tail();
    assert_eq!(s.upsert(st, b"k", &set(b"w"), &mut out), Status::Created);
    assert!(newest_of(st, b"k") > second);
    assert!(!st.log.record_at(second).load_info().is_sealed());
}

#[test]
fn a_small_index_takes_many_keys() {
    let tiny = StoreSettings {
        index_buckets: 1,
        ..settings(12, 8)
    };
    let mut store = Store::new(tiny, MemDevice::new());
    let st = &mut store;
    let mut s: Session<TestFns> = st.new_session(fns());
    let mut out = Vec::new();
    for i in 0..2000 {
        let key = format!("key{i}");
        assert_eq!(s.rmw(st, key.as_bytes(), &Cmd::Incr(i), &mut out), Status::Created);
    }
    assert_eq!(s.read(st, b"key1999", &set(b""), &mut out), Status::Found);
    assert_eq!(parse_i64(&out), 1999);
}

#[test]
fn a_latched_bucket_keeps_others_out() {
    let mut store = small_store();
    let st = &mut store;
    let mut s: Session<TestFns> = st.new_session(fns());
    let mut out = Vec::new();
    s.upsert(st, b"k", &set(b"v"), &mut out);
    let bucket = st.index.find_tag(hash64(b"k")).unwrap().bucket;
    assert!(st.index.try_lock_exclusive(bucket));
    assert_eq!(s.upsert(st, b"k", &set(b"w"), &mut out), Status::Error);
    st.index.unlock_exclusive(bucket);
    assert_eq!(s.upsert(st, b"k", &set(b"w"), &mut out), Status::InPlaceUpdated);
}

/// A device that takes nothing.
struct Broken;

impl Device for Broken {
    fn write_at(&mut self, _addr: u64, _data: &[u8]) -> Result<(), DeviceError> {
        Err(DeviceError::failed("no space left"))
    }
    fn read_at(&self, _addr: u64, _buf: &mut [u8]) -> Result<(), DeviceError> {
        Err(DeviceError::UnexpectedEof)
    }
    fn sync(&mut self) -> Result<(), DeviceError> {
        Ok(())
    }
}

#[test]
fn a_failed_flush_leaves_the_checkpoint_open() {
    let mut store = Store::new(settings(10, 4), Broken);
    let st = &mut store;
    let mut s: Session<TestFns> = st.new_session(fns());
    let mut out = Vec::new();
    s.upsert(st, b"k", &set(b"v"), &mut out);
    let r = st.take_checkpoint(0);
    assert_eq!(r, Err(CheckpointError::Device(DeviceError::failed("no space left"))));
    let state = st.system_state();
    assert_eq!((state.phase, state.version), (Phase::WaitFlush, 2));
    assert_eq!(st.take_checkpoint(0), Err(CheckpointError::InProgress));
    assert_eq!(s.read(st, b"k", &set(b""), &mut out), Status::Found);
    assert_eq!(out, b"v", "what is in memory needs no device");
}

#[test]
fn a_full_index_refuses_new_keys_and_serves_the_old() {
    let tiny = StoreSettings {
        index_buckets: 2,
        ..settings(12, 8)
    };
    let mut store = Store::new(tiny, MemDevice::new());
    let st = &mut store;
    let mut s: Session<TestFns> = st.new_session(fns());
    let mut out = Vec::new();
    let mut made = 0;
    loop {
        let key = format!("key{made}");
        match s.upsert(st, key.as_bytes(), &set(b"v"), &mut out) {
            Status::Created => made += 1,
            Status::Error => break,
            other => panic!("{other:?}"),
        }
    }
    assert!(made >= 7 * 1024, "only {made} keys found room");
    assert_eq!(s.read(st, b"key0", &set(b""), &mut out), Status::Found);
    assert_eq!(s.rmw(st, b"key0", &Cmd::Append(b"w"), &mut out), Status::CopyUpdated);
    assert_eq!(s.delete(st, b"key1"), Status::Deleted);
}

#[test]
fn work_in_memory_needs_no_device() {
    let mut store = Store::new(settings(10, 4), Broken);
    let st = &mut store;
    let mut s: Session<TestFns> = st.new_session(fns());
    let mut out = Vec::new();
    assert_eq!(s.upsert(st, b"k", &set(b"1"), &mut out), Status::Created);
    assert_eq!(s.upsert(st, b"k", &set(b"2"), &mut out), Status::InPlaceUpdated);
    assert_eq!(s.rmw(st, b"n", &Cmd::Incr(5), &mut out), Status::Created);
    assert_eq!(s.read(st, b"k", &set(b""), &mut out), Status::Found);
    assert_eq!(out, b"2");
    st.log.shift_read_only_to_tail();
    assert_eq!(s.rmw(st, b"k", &Cmd::Append(b"3"), &mut out), Status::CopyUpdated);
    assert_eq!(s.upsert(st, b"n", &set(b"6"), &mut out), Status::Created);
    assert_eq!(s.delete(st, b"n"), Status::Deleted);
    assert_eq!(s.read(st, b"n", &set(b""), &mut out), Status::NotFound);
    assert_eq!(s.read(st, b"k", &set(b""), &mut out), Status::Found);
    assert_eq!(out, b"23");
}

#[test]
fn any_address_can_be_installed() {
    let mut idx = HashIndex::new(4);
    let h = 3u64 << (64 - TAG_BITS) | 1;
    let s = idx.find_or_create_tag(h);
    let seen = s.load(&idx);
    assert!(s.try_cas(&mut idx, seen, 0));
    assert_eq!(idx.find_tag(h).unwrap().load(&idx).address(), 0);
    let seen = s.load(&idx);
    assert!(s.try_cas(&mut idx, seen, 0xffff_0000_0000_0040));
    assert_eq!(s.load(&idx).address(), 0x40, "an address has 48 bits");
    // Under tag 0 the word of address 0 is that of an empty slot.
    let t = idx.find_or_create_tag(1);
    let seen = t.load(&idx);
    assert!(t.try_cas(&mut idx, seen, 0));
    assert!(idx.find_tag(1).is_none());
    assert_eq!(idx.find_tag(h).unwrap().load(&idx).address(), 0x40);
}

#[test]
fn every_action_is_handed_out_once() {
    let mut epoch: LightEpoch<u32> = LightEpoch::new();
    let mut seen = Vec::new();
    epoch.protect(1);
    for a in 0..50 {
        seen.extend(epoch.bump_with_action(a).1);
        if a == 20 {
            assert!(seen.is_empty(), "the reader has not moved on");
            seen.extend(epoch.refresh(1).1);
            assert!(!seen.is_empty());
        }
        seen.extend(epoch.bump_current_epoch().1);
    }
    epoch.unprotect(1);
    seen.extend(epoch.drain_all_blocking());
    seen.extend(epoch.bump_current_epoch().1);
    seen.extend(epoch.drain_all_blocking());
    seen.sort();
    assert_eq!(seen, (0..50).collect::<Vec<u32>>());
}
