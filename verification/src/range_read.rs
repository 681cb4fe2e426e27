//! Sources of bytes that are addressed by absolute offsets.

use vstd::prelude::*;

use crate::bytes;
use crate::error::{Error, Fault, Result};

verus! {

/// A random-access source of bytes.
///
/// A source has a content that does not change while it is read. Unless it is reliable, it
/// may fail to deliver it; `failed` tells that it has. Of a source that does not say what
/// its content is, nothing is known of it.
pub trait RangeRead: Sized {
    /// The bytes of the source.
    open spec fn content(&self) -> Seq<u8> {
        arbitrary()
    }

    /// Whether the source has ever failed to deliver bytes that it has.
    open spec fn failed(&self) -> bool {
        arbitrary()
    }

    /// The ranges that were asked of the source, by offset and length, the oldest first.
    open spec fn reads(&self) -> Seq<(u64, u64)> {
        arbitrary()
    }

    /// Whether the source always delivers.
    open spec fn reliable(&self) -> bool {
        false
    }

    /// The number of bytes.
    fn len(&mut self) -> (r: Result<u64>)
        ensures
            final(self).content() == old(self).content(),
            final(self).reliable() == old(self).reliable(),
            old(self).reliable() && !old(self).failed() ==> !final(self).failed(),
            final(self).reads() == old(self).reads(),
            match r {
                Ok(len) => len == old(self).content().len(),
                Err(_) => final(self).failed(),
            },
    ;

    /// Fills `buf` with the bytes from `offset` on.
    fn read_range(&mut self, offset: u64, buf: &mut [u8]) -> (r: Result<()>)
        ensures
            final(self).content() == old(self).content(),
            final(self).reliable() == old(self).reliable(),
            old(self).reliable() && !old(self).failed() ==> !final(self).failed(),
            final(self).reads() == old(self).reads().push((offset, old(buf)@.len() as u64)),
            final(buf)@.len() == old(buf)@.len(),
            match r {
                Ok(_) => {
                    &&& offset + old(buf)@.len() <= old(self).content().len()
                    &&& final(buf)@ == old(self).content().subrange(
                        offset as int,
                        offset + old(buf)@.len(),
                    )
                },
                Err(_) => final(self).failed() || offset + old(buf)@.len() > old(
                    self,
                ).content().len(),
            },
    ;
}

/// What reading leaves as it was: the content, whether the source is reliable, and, of one
/// that is, that it has not failed.
pub open spec fn steady<S: RangeRead>(before: S, after: S) -> bool {
    &&& after.content() == before.content()
    &&& after.reliable() == before.reliable()
    &&& before.reliable() && !before.failed() ==> !after.failed()
}

/// A source whose bytes are in memory. It never fails.
#[derive(Clone)]
pub struct MemorySource {
    data: Vec<u8>,
    reads: Ghost<Seq<(u64, u64)>>,
}

impl MemorySource {
    pub fn new(data: Vec<u8>) -> (r: MemorySource)
        ensures
            r.content() == data@,
            r.reliable(),
            !r.failed(),
            r.reads() == Seq::<(u64, u64)>::empty(),
    {
        MemorySource { data, reads: Ghost(Seq::empty()) }
    }
}

impl RangeRead for MemorySource {
    closed spec fn content(&self) -> Seq<u8> {
        self.data@
    }

    closed spec fn failed(&self) -> bool {
        false
    }

    closed spec fn reads(&self) -> Seq<(u64, u64)> {
        self.reads@
    }

    closed spec fn reliable(&self) -> bool {
        true
    }

    fn len(&mut self) -> (r: Result<u64>)
        ensures
            r is Ok,
    {
        Ok(self.data.len() as u64)
    }

    fn read_range(&mut self, offset: u64, buf: &mut [u8]) -> (r: Result<()>)
        ensures
            r is Err ==> r == Err::<(), Error>(
                Error::InvalidData(Fault::ReadPastEnd { offset, len: old(buf)@.len() as u64 }),
            ),
    {
        let total: u64 = self.data.len() as u64;
        let len: usize = buf.len();
        self.reads = Ghost(self.reads@.push((offset, len as u64)));
        if offset > total || (total - offset) < len as u64 {
            return Err(Error::InvalidData(Fault::ReadPastEnd { offset, len: len as u64 }));
        }
        let start: usize = offset as usize;
        let part = vstd::slice::slice_subrange(self.data.as_slice(), start, start + len);
        bytes::put_bytes(buf, 0, part);
        proof {
            assert(buf@ =~= self.data@.subrange(offset as int, offset + len));
        }
        Ok(())
    }
}

/// The bytes of the source from `offset` on.
pub fn fetch<S: RangeRead>(source: &mut S, offset: u64, len: usize) -> (r: Result<Vec<u8>>)
    ensures
        steady(*old(source), *final(source)),
        final(source).reads() == old(source).reads().push((offset, len as u64)),
        match r {
            Ok(out) => {
                &&& offset + len <= old(source).content().len()
                &&& out@ == old(source).content().subrange(offset as int, offset + len)
            },
            Err(_) => final(source).failed() || offset + len > old(source).content().len(),
        },
{
    let mut out = bytes::zero_bytes(len);
    match source.read_range(offset, out.as_mut_slice()) {
        Ok(_) => Ok(out),
        Err(error) => Err(error),
    }
}

} // verus!
