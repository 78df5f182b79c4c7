//! Reads from the members of a pool.

use crate::error::Error;
use vstd::prelude::*;

verus! {

/// Reads from one leaf device of a pool.
///
/// A device is modelled by its state, which says what the next read gives and which
/// state it leaves. A device that fails now and then, or whose contents change, is one
/// whose state changes with its reads.
///
/// A verified device says in `answer` and `after` what it does. Ordinary Rust cannot write
/// these two, so they have bodies, which say nothing.
///
/// An implementation that is not verified is trusted to fill the buffer when it reports
/// success, and to leave its length alone. Success is never promised.
pub trait BlockRead: Sized {
    /// Error of the device.
    type Error: core::fmt::Debug;

    /// What the next read gives: the bytes, or nothing if it fails.
    open spec fn answer(&self, offset: u64, len: nat) -> Option<Seq<u8>> {
        arbitrary()
    }

    /// The device after that read.
    open spec fn after(&self, offset: u64, len: nat) -> Self {
        arbitrary()
    }

    /// Fills `buf` with the bytes at `offset_bytes`. A short read is an error.
    fn read_at(&mut self, offset_bytes: u64, buf: &mut [u8]) -> (r: Result<(), Self::Error>)
        ensures
            final(buf)@.len() == old(buf)@.len(),
            *final(self) == old(self).after(offset_bytes, old(buf)@.len()),
            r is Ok <==> old(self).answer(offset_bytes, old(buf)@.len()) is Some,
            r is Ok ==> old(self).answer(offset_bytes, old(buf)@.len()) == Some(final(buf)@),
    ;
}

/// One member of a pool.
pub struct PoolMember<R: BlockRead> {
    /// Reader for the device.
    pub reader: R,
    /// Size of the device in bytes.
    pub device_size_bytes: u64,
}

/// The members after some reads, and what came of those.
pub ghost struct Run<R: BlockRead, T> {
    pub members: Seq<PoolMember<R>>,
    pub result: Result<T, Error>,
}

/// The member after a read.
pub open spec fn member_after<R: BlockRead>(
    member: PoolMember<R>,
    offset: u64,
    len: nat,
) -> PoolMember<R> {
    PoolMember { reader: member.reader.after(offset, len), ..member }
}

/// One read of one member.
pub open spec fn read_member<R: BlockRead>(
    members: Seq<PoolMember<R>>,
    i: int,
    offset: u64,
    len: nat,
    vdev: u64,
    token: &'static str,
) -> Run<R, Seq<u8>> {
    Run {
        members: members.update(i, member_after(members[i], offset, len)),
        result: match members[i].reader.answer(offset, len) {
            Some(bytes) => Ok(bytes),
            None => Err(Error::Io { token, vdev, offset }),
        },
    }
}

/// A device whose reads always give the same.
pub open spec fn is_stable<R: BlockRead>(reader: R) -> bool {
    forall|offset: u64, len: nat| #[trigger] reader.after(offset, len) == reader
}

/// Fills `buf` from `reader`, and maps a failure to an error with the given token.
pub fn read_exact<R: BlockRead>(
    reader: &mut R,
    offset: u64,
    buf: &mut [u8],
    vdev: u64,
    token: &'static str,
) -> (r: Result<(), Error>)
    ensures
        final(buf)@.len() == old(buf)@.len(),
        *final(reader) == old(reader).after(offset, old(buf)@.len()),
        match old(reader).answer(offset, old(buf)@.len()) {
            Some(bytes) => r is Ok && final(buf)@ == bytes,
            None => r == Err::<(), Error>(Error::Io { token, vdev, offset }),
        },
{
    match reader.read_at(offset, buf) {
        Ok(()) => Ok(()),
        Err(_) => Err(Error::Io { token, vdev, offset }),
    }
}

/// Reads `len` bytes of the member `i`.
pub fn read_from<R: BlockRead>(
    members: &mut [PoolMember<R>],
    i: usize,
    offset: u64,
    len: usize,
    vdev: u64,
    token: &'static str,
) -> (r: Result<Vec<u8>, Error>)
    requires
        i < old(members)@.len(),
    ensures
        final(members)@ == read_member(
            old(members)@,
            i as int,
            offset,
            len as nat,
            vdev,
            token,
        ).members,
        crate::error::bytes_of(r) == read_member(
            old(members)@,
            i as int,
            offset,
            len as nat,
            vdev,
            token,
        ).result,
        r matches Ok(v) ==> v@.len() == len,
{
    let mut buf: Vec<u8> = vec![0u8; len];
    let r = read_exact(&mut members[i].reader, offset, buf.as_mut_slice(), vdev, token);
    match r {
        Ok(()) => Ok(buf),
        Err(e) => Err(e),
    }
}

/// A device image in memory.
pub struct MemImage(pub Vec<u8>);

impl BlockRead for MemImage {
    type Error = ();

    open spec fn answer(&self, offset: u64, len: nat) -> Option<Seq<u8>> {
        if offset + len <= self.0@.len() {
            Some(self.0@.subrange(offset as int, offset + len))
        } else {
            None
        }
    }

    open spec fn after(&self, offset: u64, len: nat) -> Self {
        *self
    }

    fn read_at(&mut self, offset_bytes: u64, buf: &mut [u8]) -> (r: Result<(), ()>) {
        let size: usize = self.0.len();
        if offset_bytes > size as u64 {
            return Err(());
        }
        let from: usize = offset_bytes as usize;
        if buf.len() > size - from {
            return Err(());
        }
        let ghost len = buf@.len();
        let mut i: usize = 0;
        while i < buf.len()
            invariant
                i <= len == buf@.len(),
                from + len <= self.0@.len() == size,
                *self == *old(self),
                forall|k: int| 0 <= k < i ==> buf@[k] == self.0@[from + k],
            decreases len - i,
        {
            buf[i] = self.0[from + i];
            i += 1;
        }
        assert(buf@ =~= self.0@.subrange(from as int, from + len));
        Ok(())
    }
}

/// A device image in memory is stable.
pub proof fn law_images_are_stable(image: MemImage)
    ensures
        is_stable(image),
{
}

/// A device image in memory gives the bytes from `offset` on, if there are as many as asked
/// for.
pub proof fn law_images_give_their_bytes(image: MemImage, offset: u64, len: nat)
    ensures
        match image.answer(offset, len) {
            Some(bytes) => offset + len <= image.0@.len() && bytes.len() == len && forall|i: int|
                0 <= i < len ==> #[trigger] bytes[i] == image.0@[offset + i],
            None => offset + len > image.0@.len(),
        },
{
}

} // verus!
