//! Paths within a dataset.

use vstd::prelude::*;

verus! {

/// The separator of path components.
pub const SEPARATOR: u8 = 0x2f;

/// The name of the directory itself.
pub const DOT: u8 = 0x2e;

/// A path within a dataset, as raw bytes. Components are separated by `/`; empty
/// components and `.` do not count.
#[derive(Copy, Clone, Debug)]
pub struct Path<'a>(&'a [u8]);

/// The pieces between the separators, empty ones too.
pub open spec fn pieces(path: Seq<u8>) -> Seq<Seq<u8>>
    decreases path.len(),
{
    if path.len() == 0 {
        seq![Seq::<u8>::empty()]
    } else {
        let before = pieces(path.drop_last());
        if path.last() == SEPARATOR {
            before.push(Seq::<u8>::empty())
        } else {
            before.drop_last().push(before.last().push(path.last()))
        }
    }
}

/// Whether a piece of a path is a component.
pub open spec fn is_component(piece: Seq<u8>) -> bool {
    piece.len() > 0 && piece != seq![DOT]
}

/// The components of a path, in order.
pub open spec fn components(path: Seq<u8>) -> Seq<Seq<u8>> {
    pieces(path).filter(|c: Seq<u8>| is_component(c))
}

/// The contents of slices.
pub open spec fn contents(slices: Seq<&[u8]>) -> Seq<Seq<u8>> {
    slices.map_values(|s: &[u8]| s@)
}

/// A path has at least one piece.
proof fn lemma_pieces_some(path: Seq<u8>)
    ensures
        pieces(path).len() > 0,
    decreases path.len(),
{
    if path.len() > 0 {
        lemma_pieces_some(path.drop_last());
    }
}

/// What one more piece adds to the components.
proof fn lemma_filter_push(s: Seq<Seq<u8>>, c: Seq<u8>)
    ensures
        s.push(c).filter(|c: Seq<u8>| is_component(c)) == (if is_component(c) {
            s.filter(|c: Seq<u8>| is_component(c)).push(c)
        } else {
            s.filter(|c: Seq<u8>| is_component(c))
        }),
{
    reveal(Seq::filter);
    assert(s.push(c).drop_last() =~= s);
}

impl<'a> Path<'a> {
    /// The bytes of the path.
    pub closed spec fn view(&self) -> Seq<u8> {
        self.0@
    }

    /// Wraps bytes as a path.
    pub fn new(bytes: &'a [u8]) -> (r: Self)
        ensures
            r@ == bytes@,
    {
        Path(bytes)
    }

    /// The raw bytes.
    pub fn as_bytes(&self) -> (r: &'a [u8])
        ensures
            r@ == self@,
    {
        self.0
    }

    /// Appends the bytes from `start` to `end` if they are a component.
    fn push_component(&self, out: &mut Vec<&'a [u8]>, start: usize, end: usize)
        requires
            start <= end <= self@.len(),
        ensures
            contents(final(out)@) == (if is_component(self@.subrange(start as int, end as int)) {
                contents(old(out)@).push(self@.subrange(start as int, end as int))
            } else {
                contents(old(out)@)
            }),
    {
        let piece = &self.0[start..end];
        if piece.len() == 0 || (piece.len() == 1 && piece[0] == DOT) {
            assert(piece@.len() == 1 ==> piece@ =~= seq![DOT]);
        } else {
            assert(piece@ != seq![DOT]);
            let ghost before = out@;
            out.push(piece);
            assert(contents(out@) =~= contents(before).push(piece@));
        }
    }

    /// The components that are neither empty nor `.`, in order.
    pub fn components(&self) -> (r: Vec<&'a [u8]>)
        ensures
            contents(r@) == components(self@),
    {
        let mut out: Vec<&'a [u8]> = Vec::new();
        let mut start: usize = 0;
        let mut i: usize = 0;
        proof {
            reveal(Seq::filter);
            assert(self.0@.len() == self.0.len());
            assert(self@.take(0) =~= Seq::empty());
            assert(pieces(self@.take(0)).drop_last() =~= Seq::empty());
            assert(contents(out@) =~= Seq::empty());
            assert(self@.subrange(0, 0) =~= Seq::empty());
        }
        while i < self.0.len()
            invariant
                start <= i <= self@.len(),
                self@ == self.0@,
                self@.len() <= usize::MAX,
                pieces(self@.take(i as int)).len() > 0,
                pieces(self@.take(i as int)).last() == self@.subrange(start as int, i as int),
                contents(out@) == pieces(self@.take(i as int)).drop_last().filter(
                    |c: Seq<u8>| is_component(c),
                ),
            decreases self@.len() - i,
        {
            let ghost before = pieces(self@.take(i as int));
            let ghost next = self@.take(i + 1);
            proof {
                assert(next.drop_last() =~= self@.take(i as int));
                assert(next.last() == self@[i as int]);
            }
            if self.0[i] == SEPARATOR {
                self.push_component(&mut out, start, i);
                start = i + 1;
                proof {
                    lemma_filter_push(before.drop_last(), before.last());
                    assert(before.drop_last().push(before.last()) =~= before);
                    assert(pieces(next).drop_last() =~= before);
                    assert(self@.subrange(start as int, i + 1) =~= Seq::empty());
                }
            } else {
                proof {
                    assert(pieces(next).drop_last() =~= before.drop_last());
                    assert(self@.subrange(start as int, i + 1) =~= self@.subrange(
                        start as int,
                        i as int,
                    ).push(self@[i as int]));
                }
            }
            i += 1;
        }
        self.push_component(&mut out, start, i);
        proof {
            let all = pieces(self@);
            assert(self@.take(i as int) =~= self@);
            lemma_filter_push(all.drop_last(), all.last());
            assert(all.drop_last().push(all.last()) =~= all);
        }
        out
    }
}

/// The pieces of two paths with a separator between them.
proof fn lemma_pieces_join(a: Seq<u8>, b: Seq<u8>)
    ensures
        pieces(a.push(SEPARATOR) + b) == pieces(a) + pieces(b),
    decreases b.len(),
{
    let all = a.push(SEPARATOR) + b;
    if b.len() == 0 {
        assert(all =~= a.push(SEPARATOR));
        assert(all.drop_last() =~= a);
        assert(pieces(a) + pieces(b) =~= pieces(a).push(Seq::empty()));
    } else {
        let c = b.drop_last();
        lemma_pieces_join(a, c);
        lemma_pieces_some(c);
        assert(all.drop_last() =~= a.push(SEPARATOR) + c);
        assert(all.last() == b.last());
        let left = pieces(a);
        let right = pieces(c);
        if b.last() == SEPARATOR {
            assert((left + right).push(Seq::empty()) =~= left + right.push(Seq::empty()));
        } else {
            let grown = right.last().push(b.last());
            assert((left + right).last() == right.last());
            assert((left + right).drop_last().push(grown) =~= left + right.drop_last().push(grown));
        }
    }
}

/// Joining two paths with `/` joins their components.
pub proof fn law_join(a: Seq<u8>, b: Seq<u8>)
    ensures
        components(a.push(SEPARATOR) + b) == components(a) + components(b),
{
    lemma_pieces_join(a, b);
    Seq::filter_distributes_over_add(pieces(a), pieces(b), |c: Seq<u8>| is_component(c));
}

/// Doubled separators, `.` components and separators at either end do not change
/// what a path names.
pub proof fn law_redundant_parts(a: Seq<u8>, b: Seq<u8>)
    ensures
        components(a + seq![SEPARATOR, SEPARATOR] + b) == components(a + seq![SEPARATOR] + b),
        components(a + seq![SEPARATOR, DOT, SEPARATOR] + b) == components(
            a + seq![SEPARATOR] + b,
        ),
        components(seq![SEPARATOR] + b) == components(b),
        components(a + seq![SEPARATOR]) == components(a),
        components(seq![SEPARATOR]) == Seq::<Seq<u8>>::empty(),
        components(Seq::empty()) == Seq::<Seq<u8>>::empty(),
{
    let none = Seq::<u8>::empty();
    let dot = seq![DOT];
    assert(components(none) =~= Seq::<Seq<u8>>::empty()) by {
        lemma_filter_push(Seq::empty(), none);
        assert(Seq::<Seq<u8>>::empty().push(none) =~= pieces(none));
        reveal(Seq::filter);
    }
    assert(components(dot) =~= Seq::<Seq<u8>>::empty()) by {
        assert(dot.drop_last() =~= none);
        assert(pieces(dot) =~= seq![dot]);
        lemma_filter_push(Seq::empty(), dot);
        assert(Seq::<Seq<u8>>::empty().push(dot) =~= pieces(dot));
        reveal(Seq::filter);
    }
    assert(a + seq![SEPARATOR] + b =~= a.push(SEPARATOR) + b);
    law_join(a, b);
    assert(a + seq![SEPARATOR, SEPARATOR] + b =~= a.push(SEPARATOR).push(SEPARATOR) + b);
    law_join(a.push(SEPARATOR), b);
    assert(a.push(SEPARATOR) + none =~= a.push(SEPARATOR));
    assert(a + seq![SEPARATOR] =~= a.push(SEPARATOR));
    law_join(a, none);
    let dotted = a.push(SEPARATOR) + dot;
    assert(a + seq![SEPARATOR, DOT, SEPARATOR] + b =~= dotted.push(SEPARATOR) + b);
    law_join(dotted, b);
    law_join(a, dot);
    assert(seq![SEPARATOR] + b =~= none.push(SEPARATOR) + b);
    law_join(none, b);
    assert(seq![SEPARATOR] =~= none.push(SEPARATOR) + none);
    law_join(none, none);
    assert(components(none) + components(b) =~= components(b));
    assert(components(a) + components(none) =~= components(a));
}

/// A path without `/`, which is byte 0x2f, is its own only component, unless it is empty or
/// `.`, which is byte 0x2e. With what holds of paths that are joined, this says what the
/// components of any path are.
pub proof fn law_plain_names(path: Seq<u8>)
    requires
        forall|i: int| 0 <= i < path.len() ==> path[i] != 0x2f,
    ensures
        components(path) == (if path.len() == 0 || (path.len() == 1 && path[0] == 0x2e) {
            Seq::<Seq<u8>>::empty()
        } else {
            seq![path]
        }),
{
    lemma_one_piece(path);
    lemma_filter_push(Seq::empty(), path);
    assert(Seq::<Seq<u8>>::empty().push(path) =~= seq![path]);
    reveal(Seq::filter);
    assert(Seq::<Seq<u8>>::empty().filter(|c: Seq<u8>| is_component(c)) =~= Seq::empty());
    if path.len() == 1 && path[0] == 0x2e {
        assert(path =~= seq![DOT]);
    }
}

proof fn lemma_one_piece(path: Seq<u8>)
    requires
        forall|i: int| 0 <= i < path.len() ==> path[i] != 0x2f,
    ensures
        pieces(path) == seq![path],
    decreases path.len(),
{
    if path.len() > 0 {
        lemma_one_piece(path.drop_last());
        assert(path.drop_last().push(path.last()) =~= path);
        assert(pieces(path) =~= seq![path]);
    } else {
        assert(path =~= Seq::empty());
    }
}

/// The components of two paths with `/` between them, which is byte 0x2f, are those of the one
/// and then those of the other.
pub proof fn law_separator_joins(a: Seq<u8>, b: Seq<u8>)
    ensures
        components(a + seq![0x2fu8] + b) == components(a) + components(b),
{
    law_join(a, b);
    assert(a + seq![0x2fu8] + b =~= a.push(SEPARATOR) + b);
}

} // verus!
