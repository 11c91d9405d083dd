//! The on-disk tier of the hybrid log: a device that only needs *sequential
//! tail writes* and *random reads*. The device offset **is** the logical
//! address, which keeps address translation trivial.
use crate::bytes;
use vstd::prelude::*;

verus! {

/// Why a device refused a request.
#[derive(Clone, Debug, PartialEq, Eq)]
pub enum DeviceError {
    /// A read went past the end of what was ever written.
    UnexpectedEof,
    /// Any other failure of the device, in its own words.
    Failed(Vec<u8>),
}

impl DeviceError {
    pub fn failed(words: &str) -> (r: Self)
        ensures
            r matches DeviceError::Failed(w) && w@ == bytes::text(words),
    {
        DeviceError::Failed(bytes::to_vec(bytes::raw(words)))
    }
}

/// `c` after `data` was written at `addr`; a gap is filled with zeros.
pub open spec fn stored(c: Seq<u8>, addr: int, data: Seq<u8>) -> Seq<u8> {
    let base = if c.len() < addr + data.len() {
        c + bytes::zeros((addr + data.len() - c.len()) as nat)
    } else {
        c
    };
    bytes::splice(base, addr, data)
}

pub proof fn lemma_stored_front(c: Seq<u8>, data: Seq<u8>)
    ensures
        stored(c, 0, data).len() >= data.len(),
        stored(c, 0, data).subrange(0, data.len() as int) == data,
{
    assert(stored(c, 0, data).subrange(0, data.len() as int) =~= data);
}

/// What is written is there to be read, every other byte stays, and a gap that a
/// write leaves before it holds zeros.
pub proof fn what_is_written_is_there(c: Seq<u8>, addr: int, data: Seq<u8>)
    requires
        0 <= addr,
    ensures
        ({
            let s = stored(c, addr, data);
            &&& s.len() == (if addr + data.len() > c.len() {
                addr + data.len()
            } else {
                c.len() as int
            })
            &&& s.subrange(addr, addr + data.len()) == data
            &&& forall|i: int|
                0 <= i < s.len() && !(addr <= i < addr + data.len()) ==> #[trigger] s[i] == (if i
                    < c.len() {
                    c[i]
                } else {
                    0u8
                })
        }),
{
    let s = stored(c, addr, data);
    assert(s.subrange(addr, addr + data.len()) =~= data);
}

/// Whether `after` may be left behind by a failed write to `[addr, addr + n)`:
/// nothing outside that range has changed.
pub open spec fn torn(before: Seq<u8>, after: Seq<u8>, addr: int, n: int) -> bool {
    &&& after.len() >= before.len()
    &&& forall|i: int|
        0 <= i < before.len() && !(addr <= i < addr + n) ==> after[i] == #[trigger] before[i]
}

/// Whether the byte at `i` of `content` is among those that outlive a crash.
pub open spec fn held(content: Seq<u8>, durable: Seq<u8>, i: int) -> bool {
    0 <= i < content.len() && i < durable.len() && durable[i] == content[i]
}

pub trait Device {
    /// The bytes written so far.
    open spec fn content(&self) -> Seq<u8> {
        arbitrary()
    }

    /// What a crash would leave of them.
    open spec fn durable(&self) -> Seq<u8> {
        arbitrary()
    }

    /// Requests that end at or below this offset are always served.
    open spec fn dependable(&self) -> nat {
        0
    }

    fn write_at(&mut self, addr: u64, data: &[u8]) -> (r: Result<(), DeviceError>)
        ensures
            final(self).dependable() == old(self).dependable(),
            addr + data@.len() <= old(self).dependable() ==> r is Ok,
            r is Ok ==> final(self).content() == stored(old(self).content(), addr as int, data@),
            r is Err ==> torn(
                old(self).content(),
                final(self).content(),
                addr as int,
                data@.len() as int,
            ),
            torn(old(self).durable(), final(self).durable(), addr as int, data@.len() as int),
    ;

    fn read_at(&self, addr: u64, buf: &mut [u8]) -> (r: Result<(), DeviceError>)
        ensures
            final(buf)@.len() == old(buf)@.len(),
            addr + old(buf)@.len() <= self.content().len() && addr + old(buf)@.len()
                <= self.dependable() ==> r is Ok,
            r is Ok ==> addr + old(buf)@.len() <= self.content().len() && final(buf)@
                == self.content().subrange(addr as int, addr + old(buf)@.len()),
    ;

    /// Make everything written so far durable. What is durable already stays.
    fn sync(&mut self) -> (r: Result<(), DeviceError>)
        ensures
            final(self).dependable() == old(self).dependable(),
            final(self).content() == old(self).content(),
            r is Ok ==> final(self).durable() == final(self).content(),
            forall|i: int|
                held(old(self).content(), old(self).durable(), i) ==> #[trigger] held(
                    final(self).content(),
                    final(self).durable(),
                    i,
                ),
            old(self).dependable() > 0 ==> r is Ok,
    ;
}

/// In-memory device: behaves like a sparse file.
pub struct MemDevice {
    data: Vec<u8>,
}

impl Default for MemDevice {
    fn default() -> (r: Self)
        ensures
            r.content() == Seq::<u8>::empty(),
            r.durable() == r.content(),
    {
        Self::new()
    }
}

impl MemDevice {
    pub fn new() -> (r: Self)
        ensures
            r.content() == Seq::<u8>::empty(),
            r.durable() == r.content(),
            r.dependable() == usize::MAX,
    {
        MemDevice { data: Vec::new() }
    }

    /// A device that already holds `data`.
    pub fn with_data(data: Vec<u8>) -> (r: Self)
        ensures
            r.content() == data@,
            r.durable() == data@,
            r.dependable() == usize::MAX,
    {
        MemDevice { data }
    }

    /// A copy of this device and everything on it.
    pub fn duplicate(&self) -> (r: Self)
        ensures
            r.content() == self.content(),
            r.durable() == self.durable(),
            r.dependable() == self.dependable(),
    {
        MemDevice { data: bytes::to_vec(self.data.as_slice()) }
    }
}

impl Device for MemDevice {
    closed spec fn content(&self) -> Seq<u8> {
        self.data@
    }

    closed spec fn durable(&self) -> Seq<u8> {
        self.data@
    }

    open spec fn dependable(&self) -> nat {
        usize::MAX as nat
    }

    fn write_at(&mut self, addr: u64, data: &[u8]) -> (r: Result<(), DeviceError>) {
        let n: usize = data.len();
        if addr > (usize::MAX - n) as u64 {
            return Err(DeviceError::failed("write past the end of the address space"));
        }
        let at: usize = addr as usize;
        let end: usize = at + n;
        let ghost before = self.data@;
        if self.data.len() < end {
            self.data.resize(end, 0);
            proof {
                assert forall|i: int| before.len() <= i < end implies self.data@[i] == 0u8 by {
                    assert(cloned::<u8>(0u8, self.data@[i]));
                }
                assert(self.data@ =~= before + bytes::zeros((end - before.len()) as nat));
            }
        }
        bytes::overwrite(&mut self.data, at, data);
        Ok(())
    }

    fn read_at(&self, addr: u64, buf: &mut [u8]) -> (r: Result<(), DeviceError>) {
        let n: usize = buf.len();
        if addr > (usize::MAX - n) as u64 || self.data.len() < addr as usize + n {
            return Err(DeviceError::UnexpectedEof);
        }
        let at: usize = addr as usize;
        let len: usize = self.data.len();
        let mut i: usize = 0;
        while i < n
            invariant
                n == old(buf)@.len(),
                buf@.len() == n,
                len == self.data@.len(),
                at + n <= len,
                i <= n,
                forall|j: int| 0 <= j < i ==> buf@[j] == self.data@[at + j],
            decreases n - i,
        {
            buf[i] = self.data[at + i];
            i += 1;
        }
        assert(buf@ =~= self.data@.subrange(at as int, at + n));
        Ok(())
    }

    fn sync(&mut self) -> (r: Result<(), DeviceError>) {
        Ok(())
    }
}

} // verus!
