//! Name-value maps on disk, of the kind that is a single block.

use crate::phys::endian::{read_u64, u64_at, EndianOrder};
use crate::phys::Malformed;
use crate::util::text::{decode, law_encode_decode, text_of};
use vstd::prelude::*;
use vstd::utf8::{encode_utf8, valid_utf8};

verus! {

/// The first word of a map that is a single block.
pub const MICRO_BLOCK_TYPE: u64 = 0x8000_0000_0000_0003;

/// Size of the header, and of a slot.
pub const MICRO_SLOT_SIZE: usize = 64;

/// Offset of the name within a slot.
pub const MICRO_NAME_OFFSET: usize = 14;

/// Names and values as text and numbers.
pub open spec fn entries_view(entries: Seq<(String, u64)>) -> Seq<(Seq<char>, u64)> {
    entries.map_values(|e: (String, u64)| (e.0@, e.1))
}

/// Whether `s` starts as a map that is a single block.
pub open spec fn is_micro(s: Seq<u8>, order: EndianOrder) -> bool {
    s.len() >= MICRO_SLOT_SIZE && u64_at(s, 0, order) == MICRO_BLOCK_TYPE
}

/// The first zero byte from `from` on, or `to` if there is none before it.
pub open spec fn terminator(s: Seq<u8>, from: int, to: int) -> int
    decreases to - from,
{
    if from >= to || s[from] == 0 {
        from
    } else {
        terminator(s, from + 1, to)
    }
}

/// The name in the slot at `at`, which is UTF-8 and ends in a zero byte.
pub open spec fn slot_name(s: Seq<u8>, at: int) -> Option<Seq<char>> {
    let from = at + MICRO_NAME_OFFSET;
    let to = at + MICRO_SLOT_SIZE;
    let end = terminator(s, from, to);
    if end >= to {
        None
    } else {
        text_of(s.subrange(from, end))
    }
}

/// The entries in the first `n` slots. A slot with an empty name is free.
pub open spec fn micro_slots(s: Seq<u8>, order: EndianOrder, n: nat) -> Option<
    Seq<(Seq<char>, u64)>,
>
    decreases n,
{
    if n == 0 {
        Some(Seq::empty())
    } else {
        let at = 64 * n;
        match micro_slots(s, order, (n - 1) as nat) {
            None => None,
            Some(before) => if s[at + MICRO_NAME_OFFSET] == 0 {
                Some(before)
            } else {
                match slot_name(s, at as int) {
                    None => None,
                    Some(name) => Some(before.push((name, u64_at(s, at as int, order)))),
                }
            },
        }
    }
}

/// The entries of a map that is a single block.
#[verifier::opaque]
pub open spec fn micro_entries(s: Seq<u8>, order: EndianOrder) -> Result<
    Seq<(Seq<char>, u64)>,
    Malformed,
> {
    match micro_slots(s, order, ((s.len() - 64) / 64) as nat) {
        Some(entries) => Ok(entries),
        None => Err(Malformed {  }),
    }
}

/// The value of the first entry with a name.
pub open spec fn lookup(entries: Seq<(Seq<char>, u64)>, name: Seq<char>) -> Option<u64>
    decreases entries.len(),
{
    if entries.len() == 0 {
        None
    } else if entries[0].0 == name {
        Some(entries[0].1)
    } else {
        lookup(entries.drop_first(), name)
    }
}

/// Checks the header of a map that is a single block.
pub fn check_micro(bytes: &[u8], order: EndianOrder) -> (r: bool)
    ensures
        r == is_micro(bytes@, order),
{
    bytes.len() >= MICRO_SLOT_SIZE && read_u64(bytes, 0, order) == MICRO_BLOCK_TYPE
}

/// Finds the first zero byte.
pub fn find_terminator(bytes: &[u8], from: usize, to: usize) -> (r: usize)
    requires
        from <= to <= bytes@.len(),
    ensures
        r == terminator(bytes@, from as int, to as int),
        from <= r <= to,
{
    let mut i: usize = from;
    while i < to && bytes[i] != 0
        invariant
            from <= i <= to <= bytes@.len(),
            terminator(bytes@, from as int, to as int) == terminator(bytes@, i as int, to as int),
        decreases to - i,
    {
        i += 1;
    }
    i
}

/// Decodes the entries of a map that is a single block.
pub fn decode_micro(bytes: &[u8], order: EndianOrder) -> (r: Result<Vec<(String, u64)>, Malformed>)
    requires
        bytes@.len() >= MICRO_SLOT_SIZE,
    ensures
        match r {
            Ok(entries) => micro_entries(bytes@, order) == Ok::<
                Seq<(Seq<char>, u64)>,
                Malformed,
            >(entries_view(entries@)),
            Err(e) => micro_entries(bytes@, order) == Err::<Seq<(Seq<char>, u64)>, Malformed>(e),
        },
{
    reveal(micro_entries);
    assert(bytes@.len() == bytes.len());
    let n: usize = (bytes.len() - 64) / 64;
    let mut out: Vec<(String, u64)> = Vec::new();
    let mut i: usize = 0;
    assert(entries_view(out@) =~= Seq::empty());
    while i < n
        invariant
            i <= n,
            64 * n + 64 <= bytes@.len() <= usize::MAX,
            n == (bytes@.len() - 64) / 64,
            micro_slots(bytes@, order, i as nat) == Some(entries_view(out@)),
            micro_slots(bytes@, order, n as nat) is Some ==> micro_entries(bytes@, order) is Ok,
            micro_slots(bytes@, order, n as nat) is None ==> micro_entries(bytes@, order) == Err::<
                Seq<(Seq<char>, u64)>,
                Malformed,
            >(Malformed {  }),
        decreases n - i,
    {
        let at: usize = 64 + 64 * i;
        i += 1;
        if bytes[at + MICRO_NAME_OFFSET] != 0 {
            let from: usize = at + MICRO_NAME_OFFSET;
            let to: usize = at + MICRO_SLOT_SIZE;
            let end = find_terminator(bytes, from, to);
            if end >= to {
                proof {
                    lemma_micro_bad(bytes@, order, i as nat, n as nat);
                }
                return Err(Malformed {  });
            }
            match decode(&bytes[from..end]) {
                None => {
                    proof {
                        lemma_micro_bad(bytes@, order, i as nat, n as nat);
                    }
                    return Err(Malformed {  });
                },
                Some(name) => {
                    let ghost before = out@;
                    out.push((name.to_owned(), read_u64(bytes, at, order)));
                    assert(entries_view(out@) =~= entries_view(before).push(
                        (name@, u64_at(bytes@, at as int, order)),
                    ));
                },
            }
        }
    }
    Ok(out)
}

/// A bad slot makes the whole map bad.
proof fn lemma_micro_bad(s: Seq<u8>, order: EndianOrder, i: nat, n: nat)
    requires
        i <= n,
        micro_slots(s, order, i) is None,
    ensures
        micro_slots(s, order, n) is None,
    decreases n,
{
    if i < n {
        lemma_micro_bad(s, order, i, (n - 1) as nat);
    }
}

/// A name is found exactly if it is there, and its value is that of its first entry.
pub proof fn law_lookup_finds_the_first(entries: Seq<(Seq<char>, u64)>, name: Seq<char>)
    ensures
        match lookup(entries, name) {
            Some(value) => exists|i: int|
                0 <= i < entries.len() && #[trigger] entries[i] == (name, value) && forall|j: int|
                    0 <= j < i ==> (#[trigger] entries[j]).0 != name,
            None => forall|i: int| 0 <= i < entries.len() ==> (#[trigger] entries[i]).0 != name,
        },
    decreases entries.len(),
{
    if entries.len() > 0 {
        if entries[0].0 == name {
            assert(entries[0] == (name, entries[0].1));
        } else {
            let rest = entries.drop_first();
            law_lookup_finds_the_first(rest, name);
            match lookup(rest, name) {
                Some(value) => {
                    let k = choose|k: int|
                        0 <= k < rest.len() && #[trigger] rest[k] == (name, value) && forall|j: int|
                            0 <= j < k ==> (#[trigger] rest[j]).0 != name;
                    assert(entries[k + 1] == (name, value));
                    assert forall|j: int| 0 <= j < k + 1 implies (#[trigger] entries[j]).0
                        != name by {
                        if j > 0 {
                            assert(rest[j - 1] == entries[j]);
                        }
                    }
                },
                None => {
                    assert forall|i: int| 0 <= i < entries.len() implies (
                    #[trigger] entries[i]).0 != name by {
                        if i > 0 {
                            assert(rest[i - 1] == entries[i]);
                        }
                    }
                },
            }
        }
    }
}

/// The entries of slots, without the free ones.
pub open spec fn taken(slots: Seq<Option<(Seq<char>, u64)>>) -> Seq<(Seq<char>, u64)>
    decreases slots.len(),
{
    if slots.len() == 0 {
        Seq::empty()
    } else {
        match slots.last() {
            Some(entry) => taken(slots.drop_last()).push(entry),
            None => taken(slots.drop_last()),
        }
    }
}

proof fn lemma_terminator(s: Seq<u8>, from: int, to: int, end: int)
    requires
        from <= end < to,
        forall|i: int| from <= i < end ==> s[i] != 0,
        s[end] == 0,
    ensures
        terminator(s, from, to) == end,
    decreases end - from,
{
    if from < end {
        lemma_terminator(s, from + 1, to, end);
    }
}

proof fn lemma_slots(
    s: Seq<u8>,
    order: EndianOrder,
    slots: Seq<Option<(Seq<char>, u64)>>,
    n: nat,
)
    requires
        n <= slots.len(),
        s.len() >= 64 + 64 * slots.len(),
        forall|i: int| #![trigger slots[i]]
            0 <= i < slots.len() ==> match slots[i] {
                None => s[64 + 64 * i + 14] == 0,
                Some((name, value)) => {
                    let from = 64 + 64 * i + 14;
                    let end = from + encode_utf8(name).len();
                    &&& 1 <= encode_utf8(name).len() < 50
                    &&& s.subrange(from, end) == encode_utf8(name)
                    &&& s[end] == 0
                    &&& forall|k: int| 0 <= k < encode_utf8(name).len() ==> encode_utf8(name)[k] != 0
                    &&& u64_at(s, 64 + 64 * i, order) == value
                },
            },
    ensures
        micro_slots(s, order, n) == Some(taken(slots.take(n as int))),
    decreases n,
{
    if n > 0 {
        let i = n - 1;
        lemma_slots(s, order, slots, (n - 1) as nat);
        assert(slots.take(n as int).drop_last() =~= slots.take(i));
        assert(slots.take(n as int).last() == slots[i]);
        match slots[i] {
            None => {},
            Some((name, value)) => {
                let from = 64 + 64 * i + 14;
                let end = from + encode_utf8(name).len();
                let bytes = s.subrange(from, end);
                assert forall|k: int| from <= k < end implies s[k] != 0 by {
                    assert(s[k] == bytes[k - from]);
                }
                lemma_terminator(s, from, from + 50, end);
                law_encode_decode(name);
            },
        }
    }
}

/// The layout of a map that is a single block: a header of 64 bytes, and then slots of 64
/// bytes each. A slot is a value, a word of which nothing is needed but its last two bytes,
/// with which a name of less than 50 bytes starts, and a zero byte behind that. One that has
/// no name is free, and the others are the entries, in this order.
pub proof fn law_layout_of_maps(
    s: Seq<u8>,
    order: EndianOrder,
    slots: Seq<Option<(Seq<char>, u64)>>,
)
    requires
        s.len() == 64 + 64 * slots.len(),
        u64_at(s, 0, order) == 0x8000_0000_0000_0003,
        forall|i: int| #![trigger slots[i]]
            0 <= i < slots.len() ==> match slots[i] {
                None => s[64 + 64 * i + 14] == 0,
                Some((name, value)) => {
                    let from = 64 + 64 * i + 14;
                    let end = from + encode_utf8(name).len();
                    &&& 1 <= encode_utf8(name).len() < 50
                    &&& s.subrange(from, end) == encode_utf8(name)
                    &&& s[end] == 0
                    &&& forall|k: int| 0 <= k < encode_utf8(name).len() ==> encode_utf8(name)[k] != 0
                    &&& u64_at(s, 64 + 64 * i, order) == value
                },
            },
    ensures
        is_micro(s, order),
        micro_entries(s, order) == Ok::<Seq<(Seq<char>, u64)>, Malformed>(taken(slots)),
{
    reveal(micro_entries);
    lemma_slots(s, order, slots, slots.len());
    assert(slots.take(slots.len() as int) =~= slots);
}

/// A map whose first word is another is not a single block.
pub proof fn law_maps_that_are_not_single_blocks(s: Seq<u8>, order: EndianOrder)
    requires
        s.len() < 64 || u64_at(s, 0, order) != 0x8000_0000_0000_0003,
    ensures
        !is_micro(s, order),
{
}

/// A name that does not end within its slot, or is not valid UTF-8, makes a map malformed.
pub proof fn law_maps_with_a_bad_name(s: Seq<u8>, order: EndianOrder, i: int, end: int)
    requires
        s.len() >= 64,
        0 <= i,
        64 * i + 128 <= s.len(),
        s[64 * i + 78] != 0,
        64 * i + 78 < end <= 64 * i + 128,
        forall|k: int| 64 * i + 78 <= k < end ==> s[k] != 0,
        end == 64 * i + 128 || (s[end] == 0 && !valid_utf8(s.subrange(64 * i + 78, end))),
    ensures
        micro_entries(s, order) is Err,
{
    reveal(micro_entries);
    let n = (i + 1) as nat;
    let to = 64 * i + 128;
    if end == to {
        lemma_no_terminator(s, 64 * i + 78, to);
    } else {
        lemma_terminator(s, 64 * i + 78, to, end);
    }
    assert(64 * n == 64 * i + 64);
    assert(micro_slots(s, order, n) is None);
    lemma_micro_bad(s, order, n, ((s.len() - 64) / 64) as nat);
}

proof fn lemma_no_terminator(s: Seq<u8>, from: int, to: int)
    requires
        from <= to,
        forall|i: int| from <= i < to ==> s[i] != 0,
    ensures
        terminator(s, from, to) == to,
    decreases to - from,
{
    if from < to {
        lemma_no_terminator(s, from + 1, to);
    }
}

} // verus!
