//! Name-value lists in their external representation, whose numbers are big endian.

use crate::phys::endian::{read_u32, read_u64, u32_at, u64_at, EndianOrder};
use crate::phys::Malformed;
use crate::util::text::{decode, law_encode_decode, same_text, text_of};
use vstd::prelude::*;
use vstd::utf8::encode_utf8;

verus! {

/// Type of a 64 bit number.
pub const NV_TYPE_U64: u32 = 8;

/// Type of a string.
pub const NV_TYPE_STRING: u32 = 9;

/// Type of a list.
pub const NV_TYPE_LIST: u32 = 19;

/// Type of an array of lists.
pub const NV_TYPE_LIST_ARRAY: u32 = 20;

/// What a pair says, apart from its name.
pub ghost struct Value {
    pub data_type: u32,
    pub count: u32,
    pub bytes: Seq<u8>,
}

/// What stands at a place where a pair may start.
pub ghost enum Step {
    /// The end of the list.
    End,
    /// Nothing valid.
    Bad,
    /// A pair, and the place after it.
    Pair { name: Seq<char>, value: Value, next: int },
}

/// What a search for a name comes to.
pub ghost enum Search {
    /// There is no such name.
    Missing,
    /// There is something before it that is not a pair.
    Bad,
    /// The name's value.
    Hit { value: Value },
}

/// A length, rounded up to a multiple of four.
pub open spec fn padded(n: u32) -> int {
    (n + 3) / 4 * 4
}

/// What stands at `p`. A pair starts with its size as it stands and its size in memory;
/// two zeros are the end.
pub open spec fn step_at(s: Seq<u8>, p: int) -> Step {
    if p + 8 > s.len() {
        Step::Bad
    } else {
        let size = u32_at(s, p, EndianOrder::Big);
        let name_size = u32_at(s, p + 8, EndianOrder::Big);
        let at = p + 12 + padded(name_size);
        if size == 0 && u32_at(s, p + 4, EndianOrder::Big) == 0 {
            Step::End
        } else if size < 20 || p + size > s.len() || at + 8 > p + size {
            Step::Bad
        } else {
            match text_of(s.subrange(p + 12, p + 12 + name_size)) {
                None => Step::Bad,
                Some(name) => Step::Pair {
                    name,
                    value: Value {
                        data_type: u32_at(s, at, EndianOrder::Big),
                        count: u32_at(s, at + 4, EndianOrder::Big),
                        bytes: s.subrange(at + 8, p + size),
                    },
                    next: p + size,
                },
            }
        }
    }
}

/// A pair is followed by what is further on.
pub proof fn lemma_step_moves_on(s: Seq<u8>, p: int)
    ensures
        step_at(s, p) matches Step::Pair { next, .. } ==> p + 20 <= next <= s.len(),
{
}

/// The value of the first pair with a name, from `p` on.
pub open spec fn search(s: Seq<u8>, p: int, name: Seq<char>) -> Search
    decreases s.len() - p,
{
    match step_at(s, p) {
        Step::End => Search::Missing,
        Step::Bad => Search::Bad,
        Step::Pair { name: n, value, next } => if n == name {
            Search::Hit { value }
        } else {
            search(s, next, name)
        },
    }
}

/// The place after the list whose pairs start at `p`.
pub open spec fn list_end(s: Seq<u8>, p: int) -> Option<int>
    decreases s.len() - p,
{
    match step_at(s, p) {
        Step::End => Some(p + 8),
        Step::Bad => None,
        Step::Pair { next, .. } => list_end(s, next),
    }
}

impl Value {
    /// The value as a number.
    pub open spec fn number(self) -> Option<u64> {
        if self.data_type != NV_TYPE_U64 || self.count != 1 || self.bytes.len() < 8 {
            None
        } else {
            Some(u64_at(self.bytes, 0, EndianOrder::Big))
        }
    }

    /// The value as a string.
    pub open spec fn text(self) -> Option<Seq<char>> {
        if self.data_type != NV_TYPE_STRING || self.count != 1 || self.bytes.len() < 4 {
            None
        } else {
            let size = u32_at(self.bytes, 0, EndianOrder::Big);
            if 4 + size > self.bytes.len() {
                None
            } else {
                text_of(self.bytes.subrange(4, 4 + size))
            }
        }
    }

    /// The value as a list: its pairs.
    pub open spec fn list(self) -> Option<Seq<u8>> {
        if self.data_type != NV_TYPE_LIST || self.count != 1 || !starts_list(self.bytes, 0) {
            None
        } else {
            Some(self.bytes.skip(8))
        }
    }
}

/// Whether a list starts at `p`: a version, which is zero, and flags.
pub open spec fn starts_list(s: Seq<u8>, p: int) -> bool {
    p + 8 <= s.len() && u32_at(s, p, EndianOrder::Big) == 0
}

/// The pairs of a list with its header: the encoding, which must be the external one, the
/// byte order of the machine that wrote it, and two bytes that are not used.
pub open spec fn packed_list(s: Seq<u8>) -> Result<Seq<u8>, Malformed> {
    if s.len() < 12 || s[0] != 1 || s[1] > 1 || !starts_list(s, 4) {
        Err(Malformed {  })
    } else {
        Ok(s.skip(12))
    }
}

/// The pairs of the list at `p`, and the place after it.
pub open spec fn list_at(s: Seq<u8>, p: int) -> Option<(Seq<u8>, int)> {
    if !starts_list(s, p) {
        None
    } else {
        match list_end(s, p + 8) {
            None => None,
            Some(end) => Some((s.subrange(p + 8, end), end)),
        }
    }
}

/// A name-value list.
#[derive(Debug, Clone, Copy)]
pub struct NvList<'a> {
    /// Its pairs.
    pub data: &'a [u8],
}

/// A pair, apart from its name.
#[derive(Debug, Clone, Copy)]
pub struct NvPair<'a> {
    /// Type of the value.
    pub data_type: u32,
    /// Number of elements.
    pub count: u32,
    /// The value.
    pub value: &'a [u8],
}

impl<'a> View for NvPair<'a> {
    type V = Value;

    open spec fn view(&self) -> Value {
        Value { data_type: self.data_type, count: self.count, bytes: self.value@ }
    }
}

/// One step through a list.
enum NvStep<'a> {
    End,
    Bad,
    Pair { name: &'a str, pair: NvPair<'a>, next: usize },
}

impl<'a> NvStep<'a> {
    spec fn view(&self) -> Step {
        match self {
            NvStep::End => Step::End,
            NvStep::Bad => Step::Bad,
            NvStep::Pair { name, pair, next } => Step::Pair {
                name: name@,
                value: pair@,
                next: *next as int,
            },
        }
    }
}

/// What a search for a name came to.
#[derive(Debug)]
pub enum Lookup<'a> {
    /// There is no such name.
    Missing,
    /// There is something before it that is not a pair.
    Bad,
    /// The pair.
    Hit(NvPair<'a>),
}

impl<'a> View for Lookup<'a> {
    type V = Search;

    open spec fn view(&self) -> Search {
        match self {
            Lookup::Missing => Search::Missing,
            Lookup::Bad => Search::Bad,
            Lookup::Hit(pair) => Search::Hit { value: pair@ },
        }
    }
}

impl<'a> View for NvList<'a> {
    type V = Seq<u8>;

    open spec fn view(&self) -> Seq<u8> {
        self.data@
    }
}

/// Takes one step through a list.
fn step<'a>(data: &'a [u8], pos: usize) -> (r: NvStep<'a>)
    requires
        pos <= data@.len(),
    ensures
        r@ == step_at(data@, pos as int),
{
    assert(data@.len() == data.len());
    let left: usize = data.len() - pos;
    if left < 8 {
        return NvStep::Bad;
    }
    let size: u32 = read_u32(data, pos, EndianOrder::Big);
    if size == 0 && read_u32(data, pos + 4, EndianOrder::Big) == 0 {
        return NvStep::End;
    }
    if size < 20 || size as u64 > left as u64 {
        return NvStep::Bad;
    }
    let name_size: u32 = read_u32(data, pos + 8, EndianOrder::Big);
    let name_room: u64 = (name_size as u64 + 3) / 4 * 4;
    if name_room > size as u64 - 20 {
        return NvStep::Bad;
    }
    let at: usize = pos + 12 + name_room as usize;
    match decode(&data[pos + 12..pos + 12 + name_size as usize]) {
        None => NvStep::Bad,
        Some(name) => NvStep::Pair {
            name,
            pair: NvPair {
                data_type: read_u32(data, at, EndianOrder::Big),
                count: read_u32(data, at + 4, EndianOrder::Big),
                value: &data[at + 8..pos + size as usize],
            },
            next: pos + size as usize,
        },
    }
}

/// Finds the place after a list.
fn find_end(data: &[u8], from: usize) -> (r: Option<usize>)
    requires
        from <= data@.len(),
    ensures
        match r {
            Some(end) => list_end(data@, from as int) == Some(end as int) && from + 8 <= end
                <= data@.len(),
            None => list_end(data@, from as int) is None,
        },
{
    assert(data@.len() == data.len());
    let mut pos: usize = from;
    loop
        invariant
            from <= pos <= data@.len() <= usize::MAX,
            list_end(data@, from as int) == list_end(data@, pos as int),
        decreases data@.len() - pos,
    {
        proof {
            lemma_step_moves_on(data@, pos as int);
        }
        match step(data, pos) {
            NvStep::End => {
                return Some(pos + 8);
            },
            NvStep::Bad => {
                return None;
            },
            NvStep::Pair { next, .. } => {
                pos = next;
            },
        }
    }
}

impl<'a> NvPair<'a> {
    /// The value as a number.
    pub fn get_u64(&self) -> (r: Result<u64, Malformed>)
        ensures
            match r {
                Ok(x) => self@.number() == Some(x),
                Err(_) => self@.number() is None,
            },
    {
        if self.data_type != NV_TYPE_U64 || self.count != 1 || self.value.len() < 8 {
            return Err(Malformed {  });
        }
        Ok(read_u64(self.value, 0, EndianOrder::Big))
    }

    /// The value as a string.
    pub fn get_str(&self) -> (r: Result<&'a str, Malformed>)
        ensures
            match r {
                Ok(s) => self@.text() == Some(s@),
                Err(_) => self@.text() is None,
            },
    {
        if self.data_type != NV_TYPE_STRING || self.count != 1 || self.value.len() < 4 {
            return Err(Malformed {  });
        }
        assert(self.value@.len() == self.value.len());
        let size: u32 = read_u32(self.value, 0, EndianOrder::Big);
        if size as u64 > self.value.len() as u64 - 4 {
            return Err(Malformed {  });
        }
        match decode(&self.value[4..4 + size as usize]) {
            Some(s) => Ok(s),
            None => Err(Malformed {  }),
        }
    }

    /// The value as a list.
    pub fn get_nv_list(&self) -> (r: Result<NvList<'a>, Malformed>)
        ensures
            match r {
                Ok(list) => self@.list() == Some(list@),
                Err(_) => self@.list() is None,
            },
    {
        if self.data_type != NV_TYPE_LIST || self.count != 1 || self.value.len() < 8
            || read_u32(self.value, 0, EndianOrder::Big) != 0 {
            return Err(Malformed {  });
        }
        let data = &self.value[8..self.value.len()];
        assert(data@ =~= self.value@.skip(8));
        Ok(NvList { data })
    }
}

impl<'a> NvList<'a> {
    /// Takes the header off a list.
    pub fn from_bytes(bytes: &'a [u8]) -> (r: Result<NvList<'a>, Malformed>)
        ensures
            match r {
                Ok(list) => packed_list(bytes@) == Ok::<Seq<u8>, Malformed>(list@),
                Err(e) => packed_list(bytes@) == Err::<Seq<u8>, Malformed>(e),
            },
    {
        if bytes.len() < 12 || bytes[0] != 1 || bytes[1] > 1 || read_u32(
            bytes,
            4,
            EndianOrder::Big,
        ) != 0 {
            return Err(Malformed {  });
        }
        let data = &bytes[12..bytes.len()];
        assert(data@ =~= bytes@.skip(12));
        Ok(NvList { data })
    }

    /// Looks for the first pair with a name.
    pub fn lookup(&self, name: &str) -> (r: Lookup<'a>)
        ensures
            r@ == search(self@, 0, name@),
    {
        let mut pos: usize = 0;
        loop
            invariant
                pos <= self.data@.len(),
                search(self@, 0, name@) == search(self@, pos as int, name@),
            decreases self.data@.len() - pos,
        {
            proof {
                lemma_step_moves_on(self@, pos as int);
            }
            match step(self.data, pos) {
                NvStep::End => {
                    return Lookup::Missing;
                },
                NvStep::Bad => {
                    return Lookup::Bad;
                },
                NvStep::Pair { name: n, pair, next } => {
                    if same_text(n, name) {
                        return Lookup::Hit(pair);
                    }
                    pos = next;
                },
            }
        }
    }
}

/// An array of lists.
#[derive(Debug, Clone, Copy)]
pub struct NvListArray<'a> {
    /// Number of lists.
    pub count: u32,
    /// The lists.
    pub data: &'a [u8],
}

impl<'a> NvPair<'a> {
    /// The value as an array of lists.
    pub fn get_nv_list_array(&self) -> (r: Result<NvListArray<'a>, Malformed>)
        ensures
            match r {
                Ok(array) => self@.data_type == NV_TYPE_LIST_ARRAY && array.count == self@.count
                    && array.data@ == self@.bytes,
                Err(_) => self@.data_type != NV_TYPE_LIST_ARRAY,
            },
    {
        if self.data_type != NV_TYPE_LIST_ARRAY {
            return Err(Malformed {  });
        }
        Ok(NvListArray { count: self.count, data: self.value })
    }
}

impl<'a> NvListArray<'a> {
    /// The list at `pos`, and the place after it.
    pub fn get(&self, pos: usize) -> (r: Result<(NvList<'a>, usize), Malformed>)
        requires
            pos <= self.data@.len(),
        ensures
            match r {
                Ok((list, end)) => list_at(self.data@, pos as int) == Some((list@, end as int))
                    && pos < end <= self.data@.len(),
                Err(_) => list_at(self.data@, pos as int) is None,
            },
    {
        assert(self.data@.len() == self.data.len());
        if self.data.len() - pos < 8 || read_u32(self.data, pos, EndianOrder::Big) != 0 {
            return Err(Malformed {  });
        }
        match find_end(self.data, pos + 8) {
            Some(end) => Ok((NvList { data: &self.data[pos + 8..end] }, end)),
            None => Err(Malformed {  }),
        }
    }
}

/// The layout of a pair: its size, one word that is not needed, the length of its name, the
/// name, padded to a multiple of four bytes, its type and the number of its elements, all of
/// them big endian 32 bit numbers, and then the value, which fills the rest. Another pair
/// follows, and two zeros are the end.
pub proof fn law_layout_of_pairs(
    s: Seq<u8>,
    p: int,
    name: Seq<char>,
    room: int,
    size: u32,
    data_type: u32,
    count: u32,
)
    requires
        0 <= p,
        p + size <= s.len(),
        20 + room <= size,
        room % 4 == 0,
        room - 3 <= encode_utf8(name).len() <= room,
        u32_at(s, p, EndianOrder::Big) == size,
        u32_at(s, p + 8, EndianOrder::Big) == encode_utf8(name).len(),
        s.subrange(p + 12, p + 12 + encode_utf8(name).len()) == encode_utf8(name),
        u32_at(s, p + 12 + room, EndianOrder::Big) == data_type,
        u32_at(s, p + 16 + room, EndianOrder::Big) == count,
    ensures
        step_at(s, p) == (Step::Pair {
            name,
            value: Value {
                data_type,
                count,
                bytes: s.subrange(p + 20 + room, p + size),
            },
            next: p + size,
        }),
{
    law_encode_decode(name);
}

/// Two zeros are the end of a list.
pub proof fn law_end_of_lists(s: Seq<u8>, p: int, name: Seq<char>)
    requires
        0 <= p,
        p + 8 <= s.len(),
        u32_at(s, p, EndianOrder::Big) == 0,
        u32_at(s, p + 4, EndianOrder::Big) == 0,
    ensures
        step_at(s, p) == Step::End,
        search(s, p, name) == Search::Missing,
        list_end(s, p) == Some(p + 8),
{
}

/// The value of a name is that of the first pair with the name, however many others come
/// before it.
pub proof fn law_first_pair_with_a_name_is_found(
    s: Seq<u8>,
    places: Seq<int>,
    name: Seq<char>,
    found: Value,
)
    requires
        places.len() > 0,
        forall|i: int| #![trigger places[i]]
            0 <= i < places.len() - 1 ==> (step_at(s, places[i]) matches Step::Pair {
                name: n,
                next,
                ..
            } && n != name && next == places[i + 1]),
        step_at(s, places.last()) matches Step::Pair { name: n, value, .. } && n == name && value
            == found,
    ensures
        search(s, places[0], name) == (Search::Hit { value: found }),
    decreases places.len(),
{
    if places.len() > 1 {
        let rest = places.drop_first();
        assert(rest[0] == places[1]);
        assert forall|i: int| #![trigger rest[i]] 0 <= i < rest.len() - 1 implies (step_at(
            s,
            rest[i],
        ) matches Step::Pair { name: n, next, .. } && n != name && next == rest[i + 1]) by {
            assert(rest[i] == places[i + 1]);
        }
        assert(step_at(s, places[0]) is Pair);
        law_first_pair_with_a_name_is_found(s, rest, name, found);
    }
}

/// What values of one element are: type 8 is a big endian number of 64 bits, type 9 a length
/// of 32 bits and as many bytes of text, and type 19 a list, behind a version, which is zero,
/// and flags.
pub proof fn law_meaning_of_values(v: Value, text: Seq<char>)
    requires
        v.count == 1,
    ensures
        v.data_type == 8 && v.bytes.len() >= 8 ==> v.number() == Some(
            u64_at(v.bytes, 0, EndianOrder::Big),
        ),
        v.data_type == 9 && v.bytes.len() >= 4 + encode_utf8(text).len() && u32_at(
            v.bytes,
            0,
            EndianOrder::Big,
        ) == encode_utf8(text).len() && v.bytes.subrange(4, (4 + encode_utf8(text).len()) as int)
            == encode_utf8(text) ==> v.text() == Some(text),
        v.data_type == 19 && v.bytes.len() >= 8 && u32_at(v.bytes, 0, EndianOrder::Big) == 0
            ==> v.list() == Some(v.bytes.subrange(8, v.bytes.len() as int)),
        v.data_type != 8 ==> v.number() is None,
        v.data_type != 9 ==> v.text() is None,
        v.data_type != 19 ==> v.list() is None,
{
    law_encode_decode(text);
    if v.bytes.len() >= 8 {
        assert(v.bytes.subrange(8, v.bytes.len() as int) =~= v.bytes.skip(8));
    }
}

/// A configuration starts with twelve bytes: the encoding, which is 1, the byte order of the
/// machine that wrote it, two bytes that are not used, a version, which is zero, and flags.
pub proof fn law_layout_of_configurations(s: Seq<u8>, pairs: Seq<u8>)
    ensures
        packed_list(s) == Ok::<Seq<u8>, Malformed>(pairs) <==> s.len() >= 12 && s[0] == 1 && (s[1]
            == 0 || s[1] == 1) && u32_at(s, 4, EndianOrder::Big) == 0 && pairs == s.subrange(
            12,
            s.len() as int,
        ),
{
    if s.len() >= 12 {
        assert(s.subrange(12, s.len() as int) =~= s.skip(12));
    }
}

/// A list in an array is its version, which is zero, its flags and its pairs, with the end
/// behind them; the next list follows.
pub proof fn law_layout_of_arrays(s: Seq<u8>, p: int, places: Seq<int>)
    requires
        0 <= p,
        p + 8 <= s.len(),
        u32_at(s, p, EndianOrder::Big) == 0,
        places.len() > 0,
        places[0] == p + 8,
        forall|i: int| #![trigger places[i]]
            0 <= i < places.len() - 1 ==> (step_at(s, places[i]) matches Step::Pair { next, .. }
                && next == places[i + 1]),
        step_at(s, places.last()) == Step::End,
    ensures
        list_at(s, p) == Some((s.subrange(p + 8, places.last() + 8), places.last() + 8)),
{
    lemma_list_end(s, places);
}

proof fn lemma_list_end(s: Seq<u8>, places: Seq<int>)
    requires
        places.len() > 0,
        forall|i: int| #![trigger places[i]]
            0 <= i < places.len() - 1 ==> (step_at(s, places[i]) matches Step::Pair { next, .. }
                && next == places[i + 1]),
        step_at(s, places.last()) == Step::End,
    ensures
        list_end(s, places[0]) == Some(places.last() + 8),
    decreases places.len(),
{
    if places.len() > 1 {
        let rest = places.drop_first();
        assert(rest[0] == places[1]);
        assert forall|i: int| #![trigger rest[i]] 0 <= i < rest.len() - 1 implies (step_at(
            s,
            rest[i],
        ) matches Step::Pair { next, .. } && next == rest[i + 1]) by {
            assert(rest[i] == places[i + 1]);
        }
        assert(step_at(s, places[0]) is Pair);
        lemma_list_end(s, rest);
    }
}

} // verus!
