//! Single parity RAID-Z: where the columns of a block are, and how to do without one of
//! them.

use crate::compress::MAX_BLOCK_LSIZE;
use vstd::arithmetic::power2::{lemma2_to64, pow2};
use vstd::prelude::*;

verus! {

/// How the columns of one block lie on the children of a group.
#[derive(Debug, Clone, Copy, PartialEq, Eq, Structural)]
pub struct Geometry {
    /// Number of children.
    pub width: usize,
    /// Size of a unit of allocation.
    pub unit: u64,
    /// Number of columns, the parity column among them.
    pub columns: usize,
    /// Child of the first column.
    pub first: usize,
    /// Offset of the first column on its child.
    pub base: u64,
    /// Units of a short column.
    pub rows: u64,
    /// Number of columns that are one unit longer.
    pub long: usize,
    /// Whether the first two columns change places.
    pub swapped: bool,
}

/// One column.
#[derive(Debug, Clone, Copy, PartialEq, Eq, Structural)]
pub struct Column {
    /// Child.
    pub child: usize,
    /// Offset on the child.
    pub offset: u64,
    /// Size in bytes.
    pub size: usize,
}

/// The unit of allocation, or 0 for a shift that no pool has.
pub open spec fn unit_of(ashift: u8) -> u64 {
    match ashift {
        9 => 0x200,
        10 => 0x400,
        11 => 0x800,
        12 => 0x1000,
        13 => 0x2000,
        14 => 0x4000,
        15 => 0x8000,
        16 => 0x1_0000,
        _ => 0,
    }
}

/// The geometry of a block of `psize` bytes at byte `offset`. The units of the block go
/// round the children, starting after the first column, which takes the parity. The
/// parity moves to the next child with every odd megabyte.
pub open spec fn geometry(offset: u64, psize: nat, width: usize, unit: u64) -> Geometry {
    let at = offset / unit;
    let units = (psize + unit - 1) / unit as int;
    let rows = units / (width - 1);
    let rest = units % (width - 1);
    let long: int = if rest == 0 {
        0
    } else {
        rest + 1
    };
    Geometry {
        width,
        unit,
        columns: if rows == 0 {
            long as usize
        } else {
            width
        },
        first: (at % (width as u64)) as usize,
        base: (at as int / width as int * unit) as u64,
        rows: rows as u64,
        long: long as usize,
        swapped: offset / 0x10_0000 % 2 == 1,
    }
}

impl Geometry {
    /// The column at place `c` before the first two change places.
    pub open spec fn plain_column(self, c: int) -> Column {
        let place = self.first + c;
        Column {
            child: (if place >= self.width {
                place - self.width
            } else {
                place
            }) as usize,
            offset: (if place >= self.width {
                self.base + self.unit
            } else {
                self.base as int
            }) as u64,
            size: ((if c < self.long {
                self.rows + 1
            } else {
                self.rows as int
            }) * self.unit) as usize,
        }
    }

    /// Column `c`. Column 0 is the parity.
    pub open spec fn column(self, c: int) -> Column {
        let plain = self.plain_column(c);
        if self.swapped && c <= 1 {
            let other = self.plain_column(1 - c);
            Column { size: plain.size, ..other }
        } else {
            plain
        }
    }

    /// The bounds that a geometry keeps.
    pub open spec fn wf(self) -> bool {
        &&& 2 <= self.columns <= self.width
        &&& self.first < self.width
        &&& 0x200 <= self.unit <= 0x1_0000
        &&& self.base < 0xf000_0000_0000_0000
        &&& self.long <= self.width
        &&& self.long >= 2 || (self.long == 0 && self.rows > 0)
        &&& self.rows <= 0x1_0000
        &&& (self.rows + 1) * self.unit <= 0x200_0000
    }
}

/// Products and quotients of the geometry.
proof fn lemma_geometry(offset: u64, psize: nat, width: usize, unit: u64)
    requires
        0 < psize <= MAX_BLOCK_LSIZE,
        2 <= width,
        0x200 <= unit <= 0x1_0000,
    ensures
        ({
            let at = offset as int / unit as int;
            let units = (psize + unit - 1) / unit as int;
            let rows = units / (width - 1);
            let rest = units % (width - 1);
            &&& 0 <= at / width as int * unit <= offset / 2
            &&& 1 <= units <= psize / 0x200 + 1
            &&& 0 <= rows <= units
            &&& 0 <= rest < width - 1
            &&& rows == 0 ==> rest == units
            &&& 0 <= (rows + 1) * unit <= 0x200_0000
        }),
{
    let at = offset as int / unit as int;
    let units = (psize + unit - 1) / unit as int;
    let w = width as int;
    let u = unit as int;
    let rows = units / (w - 1);
    assert(0 <= at / w * u <= offset / 2) by (nonlinear_arith)
        requires
            at == offset as int / u,
            2 <= w,
            0x200 <= u,
    {
        assert(0 <= at);
        assert(at * u <= offset);
        assert(0 <= at / w);
        assert(at / w * w <= at);
        assert(at / w * 2 <= at);
        assert(at / w * u * 2 <= at * u);
        assert(0 <= at / w * u);
    }
    assert(1 <= units && units * u <= psize + u - 1 && units <= psize / 0x200 + 1) by (
    nonlinear_arith)
        requires
            units == (psize + u - 1) / u,
            0 < psize,
            0x200 <= u,
    {
        assert(units * u <= psize + u - 1);
        assert((units + 1) * u > psize + u - 1);
        if units <= 0 {
            assert((units + 1) * u <= u);
        }
        assert((units - 1) * u <= psize - 1);
        assert((units - 1) * 0x200 <= psize - 1);
    }
    assert(0 <= rows <= units && 0 <= units % (w - 1) < w - 1) by (nonlinear_arith)
        requires
            rows == units / (w - 1),
            1 <= units,
            2 <= w,
    {
    }
    assert(rows == 0 ==> units % (w - 1) == units) by (nonlinear_arith)
        requires
            rows == units / (w - 1),
            1 <= units,
            2 <= w,
    {
    }
    assert(0 <= (rows + 1) * u <= 0x200_0000) by (nonlinear_arith)
        requires
            0 <= rows <= units,
            units * u <= psize + u - 1,
            psize <= 0x100_0000,
            0x200 <= u <= 0x1_0000,
    {
    }
}

/// A geometry keeps its bounds.
pub proof fn lemma_geometry_wf(offset: u64, psize: nat, width: usize, unit: u64)
    requires
        0 < psize <= MAX_BLOCK_LSIZE,
        2 <= width,
        0x200 <= unit <= 0x1_0000,
    ensures
        geometry(offset, psize, width, unit).wf(),
{
    lemma_geometry(offset, psize, width, unit);
    let at = offset / unit;
    assert(at % (width as u64) < width);
}

/// No two columns of a block are on the same child, so that a child that is lost takes no
/// more than one column with it.
pub proof fn law_columns_are_on_different_children(
    offset: u64,
    psize: nat,
    width: usize,
    unit: u64,
    c: int,
    d: int,
)
    requires
        0 < psize <= MAX_BLOCK_LSIZE,
        2 <= width,
        0x200 <= unit <= 0x1_0000,
        0 <= c < geometry(offset, psize, width, unit).columns,
        0 <= d < geometry(offset, psize, width, unit).columns,
        c != d,
    ensures
        ({
            let g = geometry(offset, psize, width, unit);
            &&& g.column(c).child < width
            &&& g.column(c).child != g.column(d).child
        }),
{
    lemma_geometry_wf(offset, psize, width, unit);
}

/// The unit of allocation for a shift.
pub fn unit_size(ashift: u8) -> (r: u64)
    ensures
        r == unit_of(ashift),
{
    match ashift {
        9 => 0x200,
        10 => 0x400,
        11 => 0x800,
        12 => 0x1000,
        13 => 0x2000,
        14 => 0x4000,
        15 => 0x8000,
        16 => 0x1_0000,
        _ => 0,
    }
}

impl Geometry {
    /// Finds the columns of a block.
    pub fn new(offset: u64, psize: usize, width: usize, unit: u64) -> (r: Geometry)
        requires
            0 < psize <= MAX_BLOCK_LSIZE,
            2 <= width,
            0x200 <= unit <= 0x1_0000,
        ensures
            r == geometry(offset, psize as nat, width, unit),
            r.wf(),
    {
        proof {
            lemma_geometry(offset, psize as nat, width, unit);
        }
        let at: u64 = offset / unit;
        let units: u64 = (psize as u64 + unit - 1) / unit;
        let rows: u64 = units / (width as u64 - 1);
        let rest: u64 = units % (width as u64 - 1);
        let long: usize = if rest == 0 {
            0
        } else {
            rest as usize + 1
        };
        Geometry {
            width,
            unit,
            columns: if rows == 0 {
                long
            } else {
                width
            },
            first: (at % (width as u64)) as usize,
            base: at / (width as u64) * unit,
            rows,
            long,
            swapped: offset / 0x10_0000 % 2 == 1,
        }
    }

    fn plain(&self, c: usize) -> (r: Column)
        requires
            self.wf(),
            c < self.columns,
        ensures
            r == self.plain_column(c as int),
    {
        let before_end: usize = self.width - self.first;
        let rows: u64 = if c < self.long {
            self.rows + 1
        } else {
            self.rows
        };
        assert(0 <= rows * self.unit <= (self.rows + 1) * self.unit) by (nonlinear_arith)
            requires
                0 <= rows <= self.rows + 1,
                0 <= self.unit,
        {
        }
        let size: usize = (rows * self.unit) as usize;
        if c >= before_end {
            Column { child: c - before_end, offset: self.base + self.unit, size }
        } else {
            Column { child: self.first + c, offset: self.base, size }
        }
    }

    /// Finds column `c`.
    pub fn get(&self, c: usize) -> (r: Column)
        requires
            self.wf(),
            c < self.columns,
        ensures
            r == self.column(c as int),
            r.child < self.width,
            r.offset < 0xf000_0000_0001_0000,
            r.size <= 0x200_0000,
            r.size <= self.column(0).size,
    {
        proof {
            assert(self.rows * self.unit <= (self.rows + 1) * self.unit) by (nonlinear_arith)
                requires
                    0 <= self.unit,
            {
            }
        }
        let plain = self.plain(c);
        if self.swapped && c <= 1 {
            let other = self.plain(1 - c);
            Column { size: plain.size, ..other }
        } else {
            plain
        }
    }
}

/// The first `n` columns one after another.
pub open spec fn joined(columns: Seq<Seq<u8>>, n: nat) -> Seq<u8>
    decreases n,
{
    if n == 0 {
        Seq::empty()
    } else {
        joined(columns, (n - 1) as nat) + columns[n - 1]
    }
}

/// The exclusive or of byte `i` of the first `n` columns. A column that is too short
/// counts as zero.
pub open spec fn xor_at(columns: Seq<Seq<u8>>, i: int, n: nat) -> u8
    decreases n,
{
    if n == 0 {
        0
    } else {
        let column = columns[n - 1];
        xor_at(columns, i, (n - 1) as nat) ^ (if i < column.len() {
            column[i]
        } else {
            0u8
        })
    }
}

/// Column `c` as the parity and the other columns give it.
pub open spec fn recovered(parity: Seq<u8>, columns: Seq<Seq<u8>>, c: int, size: nat) -> Seq<u8> {
    let others = columns.update(c, Seq::empty());
    Seq::new(size, |i: int| parity[i] ^ xor_at(others, i, columns.len()))
}

/// The columns, with column `c` as the parity and the others give it.
pub open spec fn repaired(
    parity: Seq<u8>,
    columns: Seq<Seq<u8>>,
    c: int,
    size: nat,
) -> Seq<Seq<u8>> {
    columns.update(c, recovered(parity, columns, c, size))
}

/// Whether `parity` is the parity of the columns.
pub open spec fn is_parity(parity: Seq<u8>, columns: Seq<Seq<u8>>) -> bool {
    forall|i: int|
        0 <= i < parity.len() ==> #[trigger] parity[i] == xor_at(columns, i, columns.len())
}

/// The contents of the columns.
pub open spec fn contents(columns: Seq<Vec<u8>>) -> Seq<Seq<u8>> {
    columns.map_values(|v: Vec<u8>| v@)
}

proof fn lemma_xor_cancels(a: u8, b: u8, c: u8)
    by (bit_vector)
    ensures
        (a ^ b) ^ a == b,
        (a ^ b) ^ c == (a ^ c) ^ b,
        a ^ 0 == a,
        a ^ b == b ^ a,
{
}

/// The exclusive or of all columns is that of the others, and the one.
proof fn lemma_xor_without(columns: Seq<Seq<u8>>, c: int, i: int, n: nat)
    requires
        0 <= c < columns.len(),
        n <= columns.len(),
        0 <= i,
    ensures
        ({
            let others = columns.update(c, Seq::empty());
            let one = if i < columns[c].len() {
                columns[c][i]
            } else {
                0u8
            };
            xor_at(columns, i, n) == (if c < n {
                xor_at(others, i, n) ^ one
            } else {
                xor_at(others, i, n)
            })
        }),
    decreases n,
{
    let others = columns.update(c, Seq::empty());
    let one = if i < columns[c].len() {
        columns[c][i]
    } else {
        0u8
    };
    if n > 0 {
        let m = (n - 1) as nat;
        lemma_xor_without(columns, c, i, m);
        if c == n - 1 {
            lemma_xor_cancels(xor_at(others, i, m), one, 0);
        } else {
            let other = if i < columns[n - 1].len() {
                columns[n - 1][i]
            } else {
                0u8
            };
            lemma_xor_cancels(xor_at(others, i, m), one, other);
        }
    }
}

/// The parity and the other columns give back a column that is lost, whatever stands
/// in its place.
pub proof fn law_parity_recovers(
    parity: Seq<u8>,
    columns: Seq<Seq<u8>>,
    found: Seq<Seq<u8>>,
    c: int,
)
    requires
        0 <= c < columns.len(),
        found.len() == columns.len(),
        forall|k: int| 0 <= k < columns.len() && k != c ==> found[k] == columns[k],
        is_parity(parity, columns),
        columns[c].len() <= parity.len(),
    ensures
        recovered(parity, found, c, columns[c].len()) == columns[c],
        repaired(parity, found, c, columns[c].len()) == columns,
{
    let size = columns[c].len();
    let others = columns.update(c, Seq::empty());
    assert(found.update(c, Seq::empty()) =~= others);
    assert forall|i: int| 0 <= i < size implies recovered(parity, found, c, size)[i]
        == columns[c][i] by {
        lemma_xor_without(columns, c, i, columns.len());
        assert(parity[i] == xor_at(columns, i, columns.len()));
        lemma_xor_cancels(xor_at(others, i, columns.len()), columns[c][i], 0);
    }
    assert(recovered(parity, found, c, size) =~= columns[c]);
    assert(repaired(parity, found, c, size) =~= columns);
}

/// Puts columns one after another, with `with` in place of column `c` if there is one.
pub fn join(columns: &Vec<Vec<u8>>, c: usize, with: &[u8]) -> (r: Vec<u8>)
    ensures
        r@ == joined(
            if c < columns@.len() {
                contents(columns@).update(c as int, with@)
            } else {
                contents(columns@)
            },
            columns@.len(),
        ),
{
    let ghost all = if c < columns@.len() {
        contents(columns@).update(c as int, with@)
    } else {
        contents(columns@)
    };
    let mut out: Vec<u8> = Vec::new();
    let mut n: usize = 0;
    while n < columns.len()
        invariant
            n <= columns@.len(),
            all == (if c < columns@.len() {
                contents(columns@).update(c as int, with@)
            } else {
                contents(columns@)
            }),
            out@ == joined(all, n as nat),
        decreases columns@.len() - n,
    {
        let ghost before = out@;
        if n == c {
            out.extend_from_slice(with);
        } else {
            out.extend_from_slice(columns[n].as_slice());
        }
        assert(out@ =~= before + all[n as int]);
        n += 1;
    }
    out
}

/// Computes column `c` from the parity and the other columns.
pub fn recover(parity: &[u8], columns: &Vec<Vec<u8>>, c: usize, size: usize) -> (r: Vec<u8>)
    requires
        c < columns@.len(),
        size <= parity@.len(),
    ensures
        r@ == recovered(parity@, contents(columns@), c as int, size as nat),
{
    let ghost others = contents(columns@).update(c as int, Seq::empty());
    let mut out: Vec<u8> = Vec::new();
    let mut i: usize = 0;
    while i < size
        invariant
            i <= size <= parity@.len(),
            c < columns@.len(),
            others == contents(columns@).update(c as int, Seq::empty()),
            out@.len() == i,
            forall|k: int|
                0 <= k < i ==> #[trigger] out@[k] == parity@[k] ^ xor_at(
                    others,
                    k,
                    columns@.len(),
                ),
        decreases size - i,
    {
        let mut x: u8 = 0;
        let mut n: usize = 0;
        while n < columns.len()
            invariant
                n <= columns@.len(),
                c < columns@.len(),
                others == contents(columns@).update(c as int, Seq::empty()),
                x == xor_at(others, i as int, n as nat),
            decreases columns@.len() - n,
        {
            let ghost before = x;
            if n != c && i < columns[n].len() {
                x = x ^ columns[n][i];
            } else {
                proof {
                    lemma_xor_cancels(before, 0, 0);
                }
            }
            n += 1;
        }
        out.push(parity[i] ^ x);
        i += 1;
    }
    assert(out@ =~= recovered(parity@, contents(columns@), c as int, size as nat));
    out
}

/// Size of the first `n` data columns together, in units.
spec fn units_before(g: Geometry, n: nat) -> int {
    n * g.rows + (if g.long == 0 {
        0
    } else if n < g.long - 1 {
        n as int
    } else {
        g.long - 1
    })
}

/// Size of the first data columns together.
proof fn lemma_joined_len(columns: Seq<Seq<u8>>, g: Geometry, n: nat)
    requires
        g.wf(),
        n < g.columns,
        n <= columns.len(),
        forall|k: int| 0 <= k < n ==> (#[trigger] columns[k]).len() == g.column(k + 1).size,
    ensures
        joined(columns, n).len() == units_before(g, n) * g.unit,
    decreases n,
{
    let u = g.unit as int;
    if n > 0 {
        let m = (n - 1) as nat;
        lemma_joined_len(columns, g, m);
        let step = if n < g.long {
            g.rows + 1
        } else {
            g.rows as int
        };
        assert(columns[n - 1].len() == g.column(n as int).size);
        assert(0 <= step * u <= (g.rows + 1) * u) by (nonlinear_arith)
            requires
                0 <= step <= g.rows + 1,
                0 <= u,
        {
        }
        assert(columns[n - 1].len() == step * u);
        assert(n * g.rows == m * g.rows + g.rows) by (nonlinear_arith)
            requires
                n == m + 1,
        {
        }
        assert(units_before(g, n) == units_before(g, m) + step);
        assert((units_before(g, m) + step) * u == units_before(g, m) * u + step * u)
            by (nonlinear_arith);
    } else {
        assert(units_before(g, 0) == 0);
        assert(0 * u == 0);
    }
}

/// The data columns have room for the block.
pub proof fn lemma_block_fits(
    columns: Seq<Seq<u8>>,
    offset: u64,
    psize: nat,
    width: usize,
    unit: u64,
)
    requires
        0 < psize <= MAX_BLOCK_LSIZE,
        2 <= width,
        0x200 <= unit <= 0x1_0000,
        ({
            let g = geometry(offset, psize, width, unit);
            &&& g.wf()
            &&& columns.len() == g.columns - 1
            &&& forall|k: int|
                0 <= k < columns.len() ==> (#[trigger] columns[k]).len() == g.column(k + 1).size
        }),
    ensures
        psize <= joined(columns, columns.len()).len(),
{
    let g = geometry(offset, psize, width, unit);
    let n = columns.len();
    let units = (psize + unit - 1) / unit as int;
    let rows = units / (width - 1);
    let rest = units % (width - 1);
    lemma_geometry(offset, psize, width, unit);
    lemma_joined_len(columns, g, n);
    assert(rows == g.rows);
    assert(units == rows * (width - 1) + rest) by (nonlinear_arith)
        requires
            rows == units / (width - 1),
            rest == units % (width - 1),
            2 <= width,
    {
    }
    assert(units_before(g, n) == units) by {
        if rows == 0 {
            assert(n * g.rows == 0) by (nonlinear_arith)
                requires
                    g.rows == 0,
            {
            }
        } else {
            assert(n * g.rows == rows * (width - 1)) by (nonlinear_arith)
                requires
                    n == width - 1,
                    g.rows == rows,
            {
            }
        }
    }
    assert(units * unit >= psize) by (nonlinear_arith)
        requires
            units == (psize + unit - 1) / unit as int,
            0x200 <= unit,
    {
    }
}

/// The quotient and the remainder of `at + p`, from those of `at`.
proof fn lemma_next_place(at: int, w: int, p: int)
    requires
        0 <= at,
        0 <= p < w,
    ensures
        at % w + p < w ==> (at + p) % w == at % w + p && (at + p) / w == at / w,
        at % w + p >= w ==> (at + p) % w == at % w + p - w && (at + p) / w == at / w + 1,
{
    let (q, m) = (at / w, at % w);
    vstd::arithmetic::div_mod::lemma_fundamental_div_mod(at, w);
    vstd::arithmetic::div_mod::lemma_mod_bound(at, w);
    assert(w * q == q * w && (q + 1) * w == q * w + w) by (nonlinear_arith);
    if m + p < w {
        vstd::arithmetic::div_mod::lemma_fundamental_div_mod_converse(at + p, w, q, m + p);
    } else {
        vstd::arithmetic::div_mod::lemma_fundamental_div_mod_converse(at + p, w, q + 1, m + p - w);
    }
}

/// How many of `n` things go to place `c` of `w`, when they are dealt out in turn.
proof fn lemma_share(n: int, w: int, c: int)
    requires
        0 <= n,
        0 < w,
        0 <= c < w,
    ensures
        (n + w - 1 - c) / w == (if c < n % w {
            n / w + 1
        } else {
            n / w
        }),
{
    let (q, m) = (n / w, n % w);
    vstd::arithmetic::div_mod::lemma_fundamental_div_mod(n, w);
    vstd::arithmetic::div_mod::lemma_mod_bound(n, w);
    assert(w * q == q * w && (q + 1) * w == q * w + w) by (nonlinear_arith);
    if c < m {
        vstd::arithmetic::div_mod::lemma_fundamental_div_mod_converse(
            n + w - 1 - c,
            w,
            q + 1,
            m - 1 - c,
        );
    } else {
        vstd::arithmetic::div_mod::lemma_fundamental_div_mod_converse(
            n + w - 1 - c,
            w,
            q,
            m + w - 1 - c,
        );
    }
}

/// Columns lie where the address space of the group puts their units: unit `k` is on child
/// `k % width`, at byte `k / width` units of it, and a unit has two to the `ashift` bytes.
/// The columns of a block at `offset` start at the units from that on, but in every odd
/// megabyte the first two change places. There is a column for the parity and one for each
/// data unit, as far as there are children; the data units are dealt out to the data columns
/// in turn, and the parity is as long as the longest of them.
pub proof fn law_columns_lie_where_their_units_do(
    offset: u64,
    psize: nat,
    width: usize,
    ashift: u8,
    c: int,
)
    requires
        0 < psize <= 0x100_0000,
        2 <= width,
        9 <= ashift <= 16,
        0 <= c < width,
        c <= (psize + pow2(ashift as nat) - 1) / (pow2(ashift as nat) as int),
    ensures
        unit_of(ashift) == pow2(ashift as nat),
        ({
            let unit = pow2(ashift as nat) as int;
            let n = (psize + unit - 1) / unit;
            let k = offset as int / unit + (if offset as int / 0x10_0000 % 2 == 1 && c <= 1 {
                1 - c
            } else {
                c
            });
            let g = geometry(offset, psize, width, unit_of(ashift));
            let place = if c == 0 {
                0
            } else {
                c - 1
            };
            &&& g.columns == (if n + 1 < width {
                n + 1
            } else {
                width as int
            })
            &&& g.column(c).child == k % (width as int)
            &&& g.column(c).offset == k / (width as int) * unit
            &&& g.column(c).size == (n + width - 2 - place) / (width - 1) * unit
        }),
{
    lemma2_to64();
    let u = unit_of(ashift);
    let unit = pow2(ashift as nat) as int;
    assert(u == unit);
    let g = geometry(offset, psize, width, u);
    let n = (psize + unit - 1) / unit;
    let w = width as int;
    lemma_geometry(offset, psize, width, u);
    lemma_geometry_wf(offset, psize, width, u);
    let at = offset as int / unit;
    assert(offset / u == at);
    assert(g.first == at % w);
    assert(g.base == at / w * unit);
    let p = if offset as int / 0x10_0000 % 2 == 1 && c <= 1 {
        1 - c
    } else {
        c
    };
    let k = at + p;
    lemma_next_place(at, w, p);
    assert((at / w + 1) * unit == at / w * unit + unit) by (nonlinear_arith);
    let place = if c == 0 {
        0
    } else {
        c - 1
    };
    lemma_share(n, w - 1, place);
    let rows = n / (w - 1);
    let rest = n % (w - 1);
    assert(g.rows == rows && g.long == (if rest == 0 {
        0
    } else {
        rest + 1
    }));
    assert(rows == 0 ==> rest == n);
    assert(rows > 0 ==> n >= w - 1) by (nonlinear_arith)
        requires
            rows == n / (w - 1),
            2 <= w,
    {
    }
    assert(rows == 0 ==> n < w - 1) by (nonlinear_arith)
        requires
            rows == n / (w - 1),
            0 <= n,
            2 <= w,
    {
    }
    let plain = g.plain_column(p);
    assert(plain.child == k % w && plain.offset == k / w * unit);
    let share = (n + w - 2 - place) / (w - 1);
    assert(share == (if c < g.long {
        rows + 1
    } else {
        rows
    }));
    assert(0 <= share * unit <= (rows + 1) * unit) by (nonlinear_arith)
        requires
            0 <= share <= rows + 1,
            0 <= unit,
    {
    }
    assert(g.plain_column(c).size == share * unit);
}

/// Columns are joined one after another, from the first to the last.
pub proof fn law_joined_is_flattened(columns: Seq<Seq<u8>>)
    ensures
        joined(columns, columns.len()) == columns.flatten(),
{
    lemma_joined_prefix(columns, columns.len());
    assert(columns.take(columns.len() as int) =~= columns);
}

proof fn lemma_joined_prefix(columns: Seq<Seq<u8>>, n: nat)
    requires
        n <= columns.len(),
    ensures
        joined(columns, n) == columns.take(n as int).flatten(),
    decreases n,
{
    if n > 0 {
        let before = columns.take(n - 1);
        lemma_joined_prefix(columns, (n - 1) as nat);
        assert(columns.take(n as int) =~= before.push(columns[n - 1]));
        before.lemma_flatten_push(columns[n - 1]);
    } else {
        assert(columns.take(0) =~= Seq::empty());
        assert(joined(columns, 0) =~= Seq::<Seq<u8>>::empty().flatten());
    }
}

/// The parity of columns is the exclusive or of their bytes, over all of them that are long
/// enough.
pub proof fn law_parity_is_exclusive_or(columns: Seq<Seq<u8>>, i: int)
    ensures
        xor_at(columns, i, columns.len()) == columns.fold_left(
            0u8,
            |x: u8, column: Seq<u8>|
                if i < column.len() {
                    x ^ column[i]
                } else {
                    x
                },
        ),
{
    lemma_xor_prefix(columns, i, columns.len());
    assert(columns.take(columns.len() as int) =~= columns);
}

proof fn lemma_xor_prefix(columns: Seq<Seq<u8>>, i: int, n: nat)
    requires
        n <= columns.len(),
    ensures
        xor_at(columns, i, n) == columns.take(n as int).fold_left(
            0u8,
            |x: u8, column: Seq<u8>|
                if i < column.len() {
                    x ^ column[i]
                } else {
                    x
                },
        ),
    decreases n,
{
    reveal_with_fuel(Seq::fold_left, 2);
    if n > 0 {
        let m = (n - 1) as nat;
        lemma_xor_prefix(columns, i, m);
        lemma_xor_cancels(xor_at(columns, i, m), 0, 0);
        assert(columns.take(n as int).drop_last() =~= columns.take(m as int));
        assert(columns.take(n as int).last() == columns[n - 1]);
    }
}

} // verus!
