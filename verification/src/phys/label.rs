//! Vdev labels: the checksum that their parts carry, and uberblocks.

use crate::checksum::sha256::{sha256, Sha256};
use crate::checksum::Checksum;
use crate::phys::block_pointer::{checksum_at, pointer_at, BlockPointer, Pointer};
use crate::phys::endian::{
    law_split_then_read, law_weight_of_bytes, lemma_bytes_of_same_u64, read_u64, split_u64, u64_at,
    u64_bytes, EndianOrder,
};
use crate::phys::Malformed;
use vstd::prelude::*;

verus! {

/// Size of the name-value pairs of a label.
pub const NVPAIRS_SIZE: usize = 0x1_c000;

/// Size of the checksum at the end of a part of a label, with its magic number.
pub const LABEL_TAIL_SIZE: usize = 40;

/// The magic number of the checksum at the end of a part of a label.
pub const LABEL_MAGIC: u64 = 0x0210_da7a_b10c_7a11;

/// The magic number of an uberblock.
pub const UBERBLOCK_MAGIC: u64 = 0x00ba_b10c;

/// Smallest size of an uberblock.
pub const UBERBLOCK_SIZE: usize = 0x400;

/// The byte order in which a magic number stands at `p`, if it does.
pub open spec fn magic_order(s: Seq<u8>, p: int, magic: u64) -> Option<EndianOrder> {
    if u64_at(s, p, EndianOrder::Little) == magic {
        Some(EndianOrder::Little)
    } else if u64_at(s, p, EndianOrder::Big) == magic {
        Some(EndianOrder::Big)
    } else {
        None
    }
}

/// What the checksum of a part of a label is taken of: the part, with the byte offset
/// of the part on the device in place of the checksum.
pub open spec fn sealed(s: Seq<u8>, offset: u64, order: EndianOrder) -> Seq<u8> {
    s.take(s.len() - 32) + u64_bytes(offset, order) + Seq::new(24, |i: int| 0u8)
}

/// Whether a part of a label has the checksum that it carries.
pub open spec fn label_verifies(s: Seq<u8>, offset: u64) -> bool {
    s.len() >= LABEL_TAIL_SIZE && match magic_order(s, s.len() - 40, LABEL_MAGIC) {
        None => false,
        Some(order) => sha256(sealed(s, offset, order)) == checksum_at(
            s,
            s.len() - 32,
            order,
        ).words,
    }
}

/// Finds the byte order of a magic number.
fn find_magic(bytes: &[u8], pos: usize, magic: u64) -> (r: Option<EndianOrder>)
    requires
        pos + 8 <= bytes@.len(),
    ensures
        r == magic_order(bytes@, pos as int, magic),
{
    if read_u64(bytes, pos, EndianOrder::Little) == magic {
        Some(EndianOrder::Little)
    } else if read_u64(bytes, pos, EndianOrder::Big) == magic {
        Some(EndianOrder::Big)
    } else {
        None
    }
}

/// Verifies the checksum of a part of a label, at byte `offset` of the device.
pub fn label_verify(bytes: &[u8], offset: u64, sha: &mut Sha256) -> (r: bool)
    requires
        old(sha).wf(),
    ensures
        final(sha).wf(),
        r == label_verifies(bytes@, offset),
{
    assert(bytes@.len() == bytes.len());
    if bytes.len() < LABEL_TAIL_SIZE {
        return false;
    }
    let n: usize = bytes.len();
    let order = match find_magic(bytes, n - 40, LABEL_MAGIC) {
        Some(order) => order,
        None => {
            return false;
        },
    };
    let place = split_u64(offset, order);
    let zeros: [u8; 24] = [0; 24];
    let _ = sha.reset(order);
    let _ = sha.update(&bytes[0..n - 32]);
    let _ = sha.update(&place);
    let _ = sha.update(&zeros);
    proof {
        assert(zeros@ =~= Seq::new(24, |i: int| 0u8));
        assert(bytes@.subrange(0, n - 32) =~= bytes@.take(n - 32));
        assert(sha.data() =~= sealed(bytes@, offset, order));
    }
    let words: [u64; 4] = match sha.finalize() {
        Ok(words) => words,
        Err(_) => {
            return false;
        },
    };
    let same = words[0] == read_u64(bytes, n - 32, order) && words[1] == read_u64(
        bytes,
        n - 24,
        order,
    ) && words[2] == read_u64(bytes, n - 16, order) && words[3] == read_u64(bytes, n - 8, order);
    assert(same ==> words =~= checksum_at(bytes@, n - 32, order).words);
    same
}

/// The name-value pairs of a label.
#[derive(Debug)]
pub struct LabelNvPairs<'a> {
    /// All but the checksum.
    pub payload: &'a [u8],
}

impl<'a> LabelNvPairs<'a> {
    /// Takes the name-value pairs out of a label, if they verify.
    pub fn from_bytes(bytes: &'a [u8], offset: u64, sha: &mut Sha256) -> (r: Result<
        LabelNvPairs<'a>,
        Malformed,
    >)
        requires
            old(sha).wf(),
        ensures
            final(sha).wf(),
            match r {
                Ok(pairs) => label_verifies(bytes@, offset) && pairs.payload@ == bytes@.take(
                    bytes@.len() - 40,
                ),
                Err(_) => !label_verifies(bytes@, offset),
            },
    {
        if !label_verify(bytes, offset, sha) {
            return Err(Malformed {  });
        }
        let payload = &bytes[0..bytes.len() - 40];
        assert(payload@ =~= bytes@.take(bytes@.len() - 40));
        Ok(LabelNvPairs { payload })
    }
}

/// The root of a state of the pool.
#[derive(Debug)]
pub struct UberBlock {
    /// Transaction group in which it was written.
    pub txg: u64,
    /// Time at which it was written.
    pub timestamp: u64,
    /// Pointer to the meta object set.
    pub ptr: BlockPointer,
}

/// What an uberblock says.
pub ghost struct UberBlockView {
    pub txg: u64,
    pub timestamp: u64,
    pub ptr: Pointer,
}

impl View for UberBlock {
    type V = UberBlockView;

    open spec fn view(&self) -> UberBlockView {
        UberBlockView { txg: self.txg, timestamp: self.timestamp, ptr: self.ptr@ }
    }
}

/// What an optional uberblock says.
pub open spec fn uberblock_view(u: Option<UberBlock>) -> Option<UberBlockView> {
    match u {
        Some(u) => Some(u@),
        None => None,
    }
}

impl UberBlockView {
    /// Whether this was written after `other`.
    pub open spec fn is_newer_than(self, other: UberBlockView) -> bool {
        self.txg > other.txg || (self.txg == other.txg && self.timestamp > other.timestamp)
    }
}

/// Whether pools of a version can be read.
pub open spec fn is_known_version(version: u64) -> bool {
    1 <= version <= 28 || version == 5000
}

/// The uberblock in a slot at byte `offset` of the device: nothing if it points to
/// nothing.
#[verifier::opaque]
pub open spec fn uberblock_of(s: Seq<u8>, offset: u64) -> Result<Option<UberBlockView>, Malformed> {
    if s.len() < UBERBLOCK_SIZE || !label_verifies(s, offset) {
        Err(Malformed {  })
    } else {
        match magic_order(s, 0, UBERBLOCK_MAGIC) {
            None => Err(Malformed {  }),
            Some(order) => if !is_known_version(u64_at(s, 8, order)) {
                Err(Malformed {  })
            } else {
                match pointer_at(s, 40, order) {
                    Err(e) => Err(e),
                    Ok(None) => Ok(None),
                    Ok(Some(ptr)) => Ok(
                        Some(
                            UberBlockView {
                                txg: u64_at(s, 16, order),
                                timestamp: u64_at(s, 32, order),
                                ptr,
                            },
                        ),
                    ),
                }
            },
        }
    }
}

impl UberBlock {
    /// Whether this was written after `other`.
    pub fn is_newer_than(&self, other: &UberBlock) -> (r: bool)
        ensures
            r == self@.is_newer_than(other@),
    {
        self.txg > other.txg || (self.txg == other.txg && self.timestamp > other.timestamp)
    }

    /// Decodes the uberblock in a slot at byte `offset` of the device.
    pub fn from_bytes(bytes: &[u8], offset: u64, sha: &mut Sha256) -> (r: Result<
        Option<UberBlock>,
        Malformed,
    >)
        requires
            old(sha).wf(),
        ensures
            final(sha).wf(),
            match r {
                Ok(u) => uberblock_of(bytes@, offset) == Ok::<Option<UberBlockView>, Malformed>(
                    uberblock_view(u),
                ),
                Err(e) => uberblock_of(bytes@, offset) == Err::<Option<UberBlockView>, Malformed>(
                    e,
                ),
            },
    {
        reveal(uberblock_of);
        if bytes.len() < UBERBLOCK_SIZE || !label_verify(bytes, offset, sha) {
            return Err(Malformed {  });
        }
        let order = match find_magic(bytes, 0, UBERBLOCK_MAGIC) {
            Some(order) => order,
            None => {
                return Err(Malformed {  });
            },
        };
        let version = read_u64(bytes, 8, order);
        if !((1 <= version && version <= 28) || version == 5000) {
            return Err(Malformed {  });
        }
        match BlockPointer::from_bytes(bytes, 40, order) {
            Err(e) => Err(e),
            Ok(None) => Ok(None),
            Ok(Some(ptr)) => Ok(
                Some(
                    UberBlock {
                        txg: read_u64(bytes, 16, order),
                        timestamp: read_u64(bytes, 32, order),
                        ptr,
                    },
                ),
            ),
        }
    }
}

/// A magic number that starts and ends with different bytes stands in one byte order only.
proof fn lemma_magic(s: Seq<u8>, p: int, magic: u64, order: EndianOrder)
    requires
        u64_at(s, p, order) == magic,
        magic / 0x100_0000_0000_0000 != magic % 0x100,
    ensures
        magic_order(s, p, magic) == Some(order),
{
    law_weight_of_bytes(s, p);
    let (big, little) = (u64_at(s, p, EndianOrder::Big), u64_at(s, p, EndianOrder::Little));
    assert(big / 0x100_0000_0000_0000 == s[p]);
    assert(little % 0x100 == s[p]);
}

/// A part of a label ends with a magic number and four words. It verifies exactly if these
/// words are the SHA-256 checksum of the part with other words in their place: the byte
/// offset of the part on its device, and three zeros. All of them are in the byte order that
/// the magic number is in.
pub proof fn law_seals_of_labels(
    s: Seq<u8>,
    offset: u64,
    order: EndianOrder,
    message: Seq<u8>,
)
    requires
        s.len() >= 40,
        u64_at(s, s.len() - 40, order) == 0x0210_da7a_b10c_7a11,
        message.len() == s.len(),
        message.subrange(0, s.len() - 32) == s.subrange(0, s.len() - 32),
        u64_at(message, s.len() - 32, order) == offset,
        forall|i: int| s.len() - 24 <= i < s.len() ==> message[i] == 0,
    ensures
        label_verifies(s, offset) <==> forall|k: int|
            0 <= k < 4 ==> u64_at(s, s.len() - 32 + 8 * k, order) == #[trigger] sha256(message)[k],
{
    lemma_magic(s, s.len() - 40, 0x0210_da7a_b10c_7a11, order);
    let n = s.len() - 32;
    let place = u64_bytes(offset, order);
    law_split_then_read(offset, order);
    assert forall|i: int| 0 <= i < 8 implies place[i] == message[n + i] by {
        lemma_bytes_of_same_u64(place, 0, message, n, order, i);
    }
    assert forall|i: int| 0 <= i < n implies s[i] == message[i] by {
        assert(s.subrange(0, n)[i] == message.subrange(0, n)[i]);
    }
    assert(message =~= sealed(s, offset, order));
    let words = sha256(message);
    let stored = checksum_at(s, s.len() - 32, order).words;
    if forall|k: int|
        0 <= k < 4 ==> u64_at(s, s.len() - 32 + 8 * k, order) == #[trigger] words[k] {
        assert(words[0] == stored[0] && words[1] == stored[1] && words[2] == stored[2] && words[3]
            == stored[3]);
        assert(words =~= stored);
    }
}

/// Without the magic number in either byte order, a part of a label does not verify.
pub proof fn law_labels_need_their_magic_number(s: Seq<u8>, offset: u64)
    requires
        s.len() < 40 || (u64_at(s, s.len() - 40, EndianOrder::Little) != 0x0210_da7a_b10c_7a11
            && u64_at(s, s.len() - 40, EndianOrder::Big) != 0x0210_da7a_b10c_7a11),
    ensures
        !label_verifies(s, offset),
{
}

/// The words of an uberblock: a magic number, whose byte order is that of the others, the
/// version, the transaction group, one that is not needed, the time, and then the pointer to
/// the meta object set. Versions up to 28 are known, and 5000.
pub proof fn law_layout_of_uberblocks(s: Seq<u8>, offset: u64, order: EndianOrder, p: Pointer)
    requires
        s.len() >= 1024,
        label_verifies(s, offset),
        u64_at(s, 0, order) == 0x00ba_b10c,
        1 <= u64_at(s, 8, order) <= 28 || u64_at(s, 8, order) == 5000,
        pointer_at(s, 40, order) == Ok::<Option<Pointer>, Malformed>(Some(p)),
    ensures
        uberblock_of(s, offset) == Ok::<Option<UberBlockView>, Malformed>(
            Some(
                UberBlockView {
                    txg: u64_at(s, 16, order),
                    timestamp: u64_at(s, 32, order),
                    ptr: p,
                },
            ),
        ),
{
    reveal(uberblock_of);
    lemma_magic(s, 0, 0x00ba_b10c, order);
}

/// What does not verify, or is shorter than 1024 bytes, is no uberblock.
pub proof fn law_uberblocks_have_to_verify(s: Seq<u8>, offset: u64)
    requires
        s.len() < 1024 || !label_verifies(s, offset),
    ensures
        uberblock_of(s, offset) is Err,
{
    reveal(uberblock_of);
}

/// Of two uberblocks, the one with the later transaction group is newer, and the later time
/// tells where that is the same.
pub proof fn law_newer_uberblocks(a: UberBlockView, b: UberBlockView)
    ensures
        a.txg > b.txg ==> a.is_newer_than(b) && !b.is_newer_than(a),
        a.txg == b.txg ==> (a.is_newer_than(b) <==> a.timestamp > b.timestamp),
{
}

/// An uberblock of another version, or without its magic number, is refused, and one that
/// points to nothing does not count.
pub proof fn law_uberblocks_that_do_not_count(s: Seq<u8>, offset: u64, order: EndianOrder)
    requires
        s.len() >= 1024,
        label_verifies(s, offset),
    ensures
        u64_at(s, 0, EndianOrder::Big) != 0x00ba_b10c && u64_at(s, 0, EndianOrder::Little)
            != 0x00ba_b10c ==> uberblock_of(s, offset) is Err,
        u64_at(s, 0, order) == 0x00ba_b10c && !(1 <= u64_at(s, 8, order) <= 28 || u64_at(s, 8, order)
            == 5000) ==> uberblock_of(s, offset) is Err,
        u64_at(s, 0, order) == 0x00ba_b10c && (1 <= u64_at(s, 8, order) <= 28 || u64_at(s, 8, order)
            == 5000) ==> match pointer_at(s, 40, order) {
            Ok(None) => uberblock_of(s, offset) == Ok::<Option<UberBlockView>, Malformed>(None),
            Err(_) => uberblock_of(s, offset) is Err,
            Ok(Some(_)) => true,
        },
{
    reveal(uberblock_of);
    if u64_at(s, 0, order) == 0x00ba_b10c {
        lemma_magic(s, 0, 0x00ba_b10c, order);
    }
}

} // verus!
