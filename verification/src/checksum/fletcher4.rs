//! Fletcher-4: sums of the 32 bit numbers of the data, up to the fourth order.

use crate::checksum::{Checksum, ChecksumError};
use crate::phys::endian::{lemma_same_u32, read_u32, u32_at, EndianOrder};
use vstd::prelude::*;

verus! {

/// Implementations, which differ in speed only.
#[derive(Debug, Clone, Copy, PartialEq, Eq, Structural)]
pub enum Fletcher4Implementation {
    /// One number at a time.
    Generic,
}

/// The four running sums, modulo two to the 64.
pub ghost struct Sums {
    pub a: u64,
    pub b: u64,
    pub c: u64,
    pub d: u64,
}

/// The sums after one more number.
pub open spec fn add_number(s: Sums, v: u32) -> Sums {
    let a = s.a.wrapping_add(v as u64);
    let b = s.b.wrapping_add(a);
    let c = s.c.wrapping_add(b);
    Sums { a, b, c, d: s.d.wrapping_add(c) }
}

/// The sums after the first `n` numbers of the data.
pub open spec fn sums(data: Seq<u8>, order: EndianOrder, n: nat) -> Sums
    decreases n,
{
    if n == 0 {
        Sums { a: 0, b: 0, c: 0, d: 0 }
    } else {
        add_number(sums(data, order, (n - 1) as nat), u32_at(data, 4 * (n - 1), order))
    }
}

/// The Fletcher-4 checksum. Bytes after the last full number do not count.
pub open spec fn fletcher4(data: Seq<u8>, order: EndianOrder) -> [u64; 4] {
    let s = sums(data, order, data.len() / 4);
    [s.a, s.b, s.c, s.d]
}

/// The sums of the first numbers depend on nothing that follows.
proof fn lemma_sums_prefix(data: Seq<u8>, more: Seq<u8>, order: EndianOrder, n: nat)
    requires
        4 * n <= data.len() <= more.len(),
        forall|i: int| 0 <= i < data.len() ==> data[i] == more[i],
    ensures
        sums(data, order, n) == sums(more, order, n),
    decreases n,
{
    if n > 0 {
        lemma_sums_prefix(data, more, order, (n - 1) as nat);
        lemma_same_u32(data, 4 * (n - 1), more, 4 * (n - 1), order);
    }
}

/// A running Fletcher-4 checksum.
pub struct Fletcher4 {
    buffer_fill: usize,
    buffer: [u8; 4],
    a: u64,
    b: u64,
    c: u64,
    d: u64,
    order: EndianOrder,
    seen: Ghost<Seq<u8>>,
}

impl Fletcher4 {
    /// A checksum of no data, of little endian numbers.
    pub fn new(implementation: Fletcher4Implementation) -> (r: Result<Fletcher4, ChecksumError>)
        ensures
            r matches Ok(f) && f.wf() && f.data() == Seq::<u8>::empty() && f.order()
                == EndianOrder::Little,
    {
        let _ = implementation;
        Ok(
            Fletcher4 {
                buffer_fill: 0,
                buffer: [0; 4],
                a: 0,
                b: 0,
                c: 0,
                d: 0,
                order: EndianOrder::Little,
                seen: Ghost(Seq::empty()),
            },
        )
    }

    spec fn inv(self) -> bool {
        let n = self.seen@.len();
        &&& self.buffer_fill == n % 4
        &&& forall|i: int|
            0 <= i < self.buffer_fill ==> #[trigger] self.buffer@[i] == self.seen@[n
                - self.buffer_fill + i]
        &&& sums(self.seen@, self.order, n / 4) == (Sums {
            a: self.a,
            b: self.b,
            c: self.c,
            d: self.d,
        })
    }

    /// Adds one byte.
    fn push(&mut self, byte: u8)
        requires
            old(self).inv(),
        ensures
            final(self).inv(),
            final(self).seen@ == old(self).seen@.push(byte),
            final(self).order == old(self).order,
    {
        let ghost seen = self.seen@;
        let ghost n = seen.len();
        let ghost more = seen.push(byte);
        self.buffer[self.buffer_fill] = byte;
        self.buffer_fill = self.buffer_fill + 1;
        self.seen = Ghost(more);
        proof {
            lemma_sums_prefix(seen, more, self.order, n / 4);
        }
        if self.buffer_fill == 4 {
            let v = read_u32(&self.buffer, 0, self.order);
            proof {
                lemma_same_u32(self.buffer@, 0, more, n - 3, self.order);
                assert((n + 1) / 4 == n / 4 + 1);
                assert(4 * (n / 4) == n - 3);
            }
            self.a = self.a.wrapping_add(v as u64);
            self.b = self.b.wrapping_add(self.a);
            self.c = self.c.wrapping_add(self.b);
            self.d = self.d.wrapping_add(self.c);
            self.buffer_fill = 0;
        } else {
            assert((n + 1) / 4 == n / 4);
        }
    }
}

impl Checksum for Fletcher4 {
    open spec fn checksum(data: Seq<u8>, order: EndianOrder) -> [u64; 4] {
        fletcher4(data, order)
    }

    closed spec fn wf(&self) -> bool {
        self.inv()
    }

    closed spec fn data(&self) -> Seq<u8> {
        self.seen@
    }

    closed spec fn order(&self) -> EndianOrder {
        self.order
    }

    fn reset(&mut self, order: EndianOrder) -> (r: Result<(), ChecksumError>) {
        self.buffer_fill = 0;
        self.a = 0;
        self.b = 0;
        self.c = 0;
        self.d = 0;
        self.order = order;
        self.seen = Ghost(Seq::empty());
        Ok(())
    }

    fn update(&mut self, data: &[u8]) -> (r: Result<(), ChecksumError>) {
        let mut i: usize = 0;
        while i < data.len()
            invariant
                i <= data@.len(),
                self.inv(),
                self.order == old(self).order,
                self.seen@ == old(self).seen@ + data@.take(i as int),
            decreases data@.len() - i,
        {
            self.push(data[i]);
            i += 1;
            assert(self.seen@ =~= old(self).seen@ + data@.take(i as int));
        }
        assert(data@.take(i as int) =~= data@);
        Ok(())
    }

    fn finalize(&mut self) -> (r: Result<[u64; 4], ChecksumError>) {
        Ok([self.a, self.b, self.c, self.d])
    }

    fn hash(&mut self, data: &[u8], order: EndianOrder) -> (r: Result<[u64; 4], ChecksumError>) {
        let _ = self.reset(order);
        let _ = self.update(data);
        assert(self.data() =~= data@);
        self.finalize()
    }
}

/// Wrapping sums are remainders.
proof fn lemma_wrapping(x: u64, y: u64)
    ensures
        x.wrapping_add(y) == (x + y) % 0x1_0000_0000_0000_0000,
{
}

/// The sums with one number more.
proof fn lemma_more(data: Seq<u8>, more: Seq<u8>, order: EndianOrder)
    requires
        data.len() % 4 == 0,
        data.len() <= more.len(),
        forall|i: int| 0 <= i < data.len() ==> data[i] == more[i],
    ensures
        more.len() < data.len() + 4 ==> fletcher4(more, order) == fletcher4(data, order),
        more.len() == data.len() + 4 ==> sums(more, order, more.len() / 4) == add_number(
            sums(data, order, data.len() / 4),
            u32_at(more, data.len() as int, order),
        ),
{
    lemma_sums_prefix(data, more, order, data.len() / 4);
    if more.len() < data.len() + 4 {
        assert(more.len() / 4 == data.len() / 4);
    } else if more.len() == data.len() + 4 {
        assert(more.len() / 4 == data.len() / 4 + 1);
    }
}

/// The checksum of no data is zero, bytes behind the last full number do not count, and a
/// number more is added to the first sum, the first sum to the second, and so on, all of them
/// modulo two to the 64.
pub proof fn law_fletcher4_goes_on(
    data: Seq<u8>,
    number: Seq<u8>,
    rest: Seq<u8>,
    order: EndianOrder,
)
    requires
        data.len() % 4 == 0,
        number.len() == 4,
        rest.len() < 4,
    ensures
        fletcher4(Seq::empty(), order)@ == seq![0u64, 0, 0, 0],
        fletcher4(data + rest, order) == fletcher4(data, order),
        ({
            let (old, new) = (fletcher4(data, order), fletcher4(data + number, order));
            let v = u32_at(number, 0, order);
            &&& new[0] == (old[0] + v) % 0x1_0000_0000_0000_0000
            &&& new[1] == (old[1] + new[0]) % 0x1_0000_0000_0000_0000
            &&& new[2] == (old[2] + new[1]) % 0x1_0000_0000_0000_0000
            &&& new[3] == (old[3] + new[2]) % 0x1_0000_0000_0000_0000
        }),
{
    let all = data + number;
    let none = Seq::<u8>::empty();
    assert(fletcher4(none, order)@ =~= seq![0u64, 0, 0, 0]) by {
        assert(none.len() / 4 == 0);
    }
    lemma_more(data, data + rest, order);
    lemma_more(data, all, order);
    lemma_same_u32(all, data.len() as int, number, 0, order);
    let s = sums(data, order, data.len() / 4);
    let t = sums(all, order, all.len() / 4);
    lemma_wrapping(s.a, u32_at(number, 0, order) as u64);
    lemma_wrapping(s.b, t.a);
    lemma_wrapping(s.c, t.b);
    lemma_wrapping(s.d, t.c);
}

} // verus!
