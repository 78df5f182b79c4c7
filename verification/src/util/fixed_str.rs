//! Strings of a fixed capacity.

use crate::util::text::{decode, text_of, text_view};
use vstd::prelude::*;
use vstd::utf8::{
    encode_utf8, encode_utf8_valid_utf8, length_of_first_scalar, pop_first_scalar, valid_utf8,
};

verus! {

/// A string of a fixed capacity, and of any length up to it.
#[derive(Debug)]
pub struct Fstr<const N: usize> {
    bytes: [u8; N],
    size: usize,
    trimmed: bool,
}

/// The longest of the prefixes with `from` bytes down to `from - tries + 1` that is
/// valid UTF-8, or else the one with `fallback` bytes.
pub open spec fn trimmed_len(bytes: Seq<u8>, from: int, tries: int, fallback: int) -> int
    decreases tries,
{
    if tries <= 0 {
        fallback
    } else if valid_utf8(bytes.take(from)) {
        from
    } else {
        trimmed_len(bytes, from - 1, tries - 1, fallback)
    }
}

/// How many bytes of a string fit into `n`. A string that is too long is cut at the
/// last code point boundary that is at most three bytes before, if there is one.
pub open spec fn fitting_len(bytes: Seq<u8>, n: int) -> int {
    if bytes.len() <= n {
        bytes.len() as int
    } else {
        trimmed_len(
            bytes,
            n,
            if n < 4 {
                n
            } else {
                4
            },
            n,
        )
    }
}

/// The bytes that fit into `n`.
pub open spec fn fitting_bytes(bytes: Seq<u8>, n: int) -> Seq<u8> {
    if bytes.len() <= n {
        bytes
    } else {
        bytes.take(n)
    }
}

impl<const N: usize> Fstr<N> {
    /// The size is within the capacity, and the bytes after it are zero.
    #[verifier::type_invariant]
    pub closed spec fn wf(self) -> bool {
        self.size <= N && forall|i: int| self.size <= i < N ==> self.bytes@[i] == 0
    }

    /// The bytes of the string.
    pub closed spec fn view(&self) -> Seq<u8> {
        self.bytes@.take(self.size as int)
    }

    /// Whether bytes were left out.
    pub closed spec fn cut(&self) -> bool {
        self.trimmed
    }

    /// A string of the given bytes, which must fit.
    fn new(bytes: &[u8], trimmed: bool) -> (r: Fstr<N>)
        requires
            bytes@.len() <= N,
        ensures
            r@ == bytes@,
            r.cut() == trimmed,
    {
        let size = bytes.len();
        let mut copy: [u8; N] = [0; N];
        let mut i: usize = 0;
        while i < size
            invariant
                i <= size == bytes@.len(),
                size <= N,
                copy@.len() == N,
                forall|k: int| 0 <= k < i ==> copy@[k] == bytes@[k],
                forall|k: int| i <= k < N ==> copy@[k] == 0,
            decreases size - i,
        {
            copy[i] = bytes[i];
            i += 1;
        }
        assert(copy@.take(size as int) =~= bytes@);
        Fstr { bytes: copy, size, trimmed }
    }

    /// The bytes of the string.
    pub fn as_bytes(&self) -> (r: &[u8])
        ensures
            r@ == self@,
            r@.len() <= N,
    {
        proof {
            use_type_invariant(self);
        }
        &self.bytes[0..self.size]
    }

    /// The string as text, or nothing if it is not valid UTF-8.
    pub fn as_str(&self) -> (r: Option<&str>)
        ensures
            text_view(r) == text_of(self@),
    {
        decode(self.as_bytes())
    }

    /// The capacity in bytes.
    pub fn capacity(&self) -> (r: usize)
        ensures
            r == N,
    {
        N
    }

    /// Whether the string is empty.
    pub fn is_empty(&self) -> (r: bool)
        ensures
            r == (self@.len() == 0),
    {
        self.len() == 0
    }

    /// Whether bytes were left out when the string was made.
    pub fn is_trimmed(&self) -> (r: bool)
        ensures
            r == self.cut(),
    {
        self.trimmed
    }

    /// The length in bytes.
    pub fn len(&self) -> (r: usize)
        ensures
            r == self@.len(),
    {
        proof {
            use_type_invariant(self);
        }
        self.size
    }
}

/// A decimal digit.
pub open spec fn digit_text(d: u8) -> &'static str {
    match d {
        0 => "0",
        1 => "1",
        2 => "2",
        3 => "3",
        4 => "4",
        5 => "5",
        6 => "6",
        7 => "7",
        8 => "8",
        _ => "9",
    }
}

/// A byte in decimal.
pub open spec fn byte_text(b: u8) -> Seq<char> {
    if b >= 100 {
        digit_text(b / 100)@ + digit_text(b / 10 % 10)@ + digit_text(b % 10)@
    } else if b >= 10 {
        digit_text(b / 10)@ + digit_text(b % 10)@
    } else {
        digit_text(b)@
    }
}

/// The first `n` bytes in decimal, with commas between them.
pub open spec fn items_text(bytes: Seq<u8>, n: nat) -> Seq<char>
    decreases n,
{
    if n == 0 {
        Seq::empty()
    } else if n == 1 {
        byte_text(bytes[0])
    } else {
        items_text(bytes, (n - 1) as nat) + ", "@ + byte_text(bytes[n - 1])
    }
}

/// How a string is shown: as text, or as a list of bytes if it is not valid UTF-8.
pub open spec fn shown(bytes: Seq<u8>) -> Seq<char> {
    match text_of(bytes) {
        Some(text) => text,
        None => "["@ + items_text(bytes, bytes.len()) + "]"@,
    }
}

/// Finds the text of a digit.
fn digit(d: u8) -> (r: &'static str)
    ensures
        r == digit_text(d),
{
    match d {
        0 => "0",
        1 => "1",
        2 => "2",
        3 => "3",
        4 => "4",
        5 => "5",
        6 => "6",
        7 => "7",
        8 => "8",
        _ => "9",
    }
}

/// Appends a byte in decimal.
fn append_byte(out: &mut String, b: u8)
    ensures
        final(out)@ == old(out)@ + byte_text(b),
{
    let ghost before = out@;
    if b >= 100 {
        out.append(digit(b / 100));
    }
    if b >= 10 {
        out.append(digit(b / 10 % 10));
    }
    out.append(digit(b % 10));
    assert(out@ =~= before + byte_text(b));
}

impl<const N: usize> Fstr<N> {
    /// The string as text, or as a list of bytes if it is not valid UTF-8.
    pub fn show(&self) -> (r: String)
        ensures
            r@ == shown(self@),
    {
        let bytes = self.as_bytes();
        if let Some(text) = self.as_str() {
            return text.to_owned();
        }
        let mut out = String::from_str("[");
        let mut n: usize = 0;
        assert(out@ =~= "["@ + items_text(bytes@, 0));
        while n < bytes.len()
            invariant
                n <= bytes@.len(),
                out@ == "["@ + items_text(bytes@, n as nat),
            decreases bytes@.len() - n,
        {
            if n > 0 {
                out.append(", ");
            }
            append_byte(&mut out, bytes[n]);
            n += 1;
            assert(out@ =~= "["@ + items_text(bytes@, n as nat));
        }
        out.append("]");
        assert(out@ =~= "["@ + items_text(bytes@, bytes@.len()) + "]"@);
        out
    }

    /// The string with the given bytes, cut or not.
    pub open spec fn holding(bytes: Seq<u8>, trimmed: bool) -> Fstr<N> {
        choose|f: Fstr<N>| f.wf() && #[trigger] f@ == bytes && f.cut() == trimmed
    }

    /// There is only one string with the same bytes.
    proof fn lemma_holding(self)
        requires
            self.wf(),
        ensures
            self == Self::holding(self@, self.cut()),
    {
        let other = Self::holding(self@, self.cut());
        assert(other.wf() && other@ == self@ && other.cut() == self.cut());
        assert(other@.len() == other.size);
        assert(self@.len() == self.size);
        assert forall|i: int| 0 <= i < N implies self.bytes@[i] == other.bytes@[i] by {
            if i < self.size {
                assert(self@[i] == self.bytes@[i]);
                assert(other@[i] == other.bytes@[i]);
            }
        }
        assert(self.bytes@ =~= other.bytes@);
        assert(self.bytes =~= other.bytes);
    }
}

impl<const N: usize> From<&[u8]> for Fstr<N> {
    /// The string of the first bytes that fit.
    fn from(bytes: &[u8]) -> (r: Self)
        ensures
            r@ == fitting_bytes(bytes@, N as int),
            r.cut() == (bytes@.len() > N),
    {
        let size: usize = if bytes.len() < N {
            bytes.len()
        } else {
            N
        };
        let f = Fstr::<N>::new(&bytes[0..size], size < bytes.len());
        proof {
            use_type_invariant(&f);
            f.lemma_holding();
            assert(f@ =~= fitting_bytes(bytes@, N as int));
        }
        f
    }
}

impl<const N: usize> vstd::std_specs::convert::FromSpecImpl<&[u8]> for Fstr<N> {
    open spec fn obeys_from_spec() -> bool {
        true
    }

    open spec fn from_spec(bytes: &[u8]) -> Self {
        Self::holding(fitting_bytes(bytes@, N as int), bytes@.len() > N)
    }
}

impl<const N: usize> From<&str> for Fstr<N> {
    /// The string of the text that fits.
    fn from(s: &str) -> (r: Self)
        ensures
            r@ == encode_utf8(s@).take(fitting_len(encode_utf8(s@), N as int)),
            r.cut() == (encode_utf8(s@).len() > fitting_len(encode_utf8(s@), N as int)),
    {
        let bytes = s.as_bytes();
        let mut size: usize = if bytes.len() < N {
            bytes.len()
        } else {
            N
        };
        if N > 0 && bytes.len() > N {
            let tries: usize = if size < 4 {
                size
            } else {
                4
            };
            let mut truncate: usize = 0;
            while truncate < tries
                invariant_except_break
                    size == N,
                    trimmed_len(bytes@, N - truncate, tries - truncate, N as int) == trimmed_len(
                        bytes@,
                        N as int,
                        tries as int,
                        N as int,
                    ),
                invariant
                    truncate <= tries <= N < bytes@.len(),
                ensures
                    size == trimmed_len(bytes@, N as int, tries as int, N as int),
                    size <= N,
                decreases tries - truncate,
            {
                let tsize: usize = size - truncate;
                assert(bytes@.subrange(0, tsize as int) =~= bytes@.take(tsize as int));
                if core::str::from_utf8(&bytes[0..tsize]).is_ok() {
                    size = tsize;
                    break;
                }
                truncate += 1;
            }
        }
        let f = Fstr::<N>::new(&bytes[0..size], size < bytes.len());
        proof {
            use_type_invariant(&f);
            f.lemma_holding();
        }
        f
    }
}

impl<const N: usize> vstd::std_specs::convert::FromSpecImpl<&str> for Fstr<N> {
    open spec fn obeys_from_spec() -> bool {
        true
    }

    open spec fn from_spec(s: &str) -> Self {
        let bytes = encode_utf8(s@);
        let size = fitting_len(bytes, N as int);
        Self::holding(bytes.take(size), bytes.len() > size)
    }
}

/// Valid UTF-8 has a code point boundary at most three bytes before any position.
proof fn lemma_boundary(bytes: Seq<u8>, n: int) -> (k: int)
    requires
        valid_utf8(bytes),
        0 <= n <= bytes.len(),
    ensures
        n - 3 <= k <= n,
        0 <= k,
        valid_utf8(bytes.take(k)),
    decreases bytes.len(),
{
    if n == 0 {
        0
    } else {
        let l = length_of_first_scalar(bytes);
        if n < l {
            0
        } else {
            let rest = pop_first_scalar(bytes);
            let k = lemma_boundary(rest, n - l);
            let cut = bytes.take(l + k);
            if k + l > 0 {
                assert(pop_first_scalar(cut) =~= rest.take(k));
            }
            l + k
        }
    }
}

/// The search ends at a valid prefix if there is one to find.
proof fn lemma_trimmed_len(bytes: Seq<u8>, from: int, tries: int, fallback: int, k: int)
    requires
        from - tries < k <= from,
        valid_utf8(bytes.take(k)),
    ensures
        k <= trimmed_len(bytes, from, tries, fallback) <= from,
        valid_utf8(bytes.take(trimmed_len(bytes, from, tries, fallback))),
    decreases tries,
{
    if !valid_utf8(bytes.take(from)) {
        lemma_trimmed_len(bytes, from - 1, tries - 1, fallback, k);
    }
}

/// A text that is cut to a capacity of four bytes or more stays text: what is kept is
/// valid UTF-8, and at most three bytes of the capacity are given up for that.
pub proof fn law_cut_text_is_text(text: Seq<char>, n: int)
    requires
        4 <= n,
    ensures
        ({
            let bytes = encode_utf8(text);
            let size = fitting_len(bytes, n);
            &&& valid_utf8(bytes.take(size))
            &&& bytes.len() <= n ==> size == bytes.len()
            &&& bytes.len() > n ==> n - 3 <= size <= n
        }),
{
    let bytes = encode_utf8(text);
    encode_utf8_valid_utf8(text);
    if bytes.len() <= n {
        assert(bytes.take(bytes.len() as int) =~= bytes);
    } else {
        let k = lemma_boundary(bytes, n);
        lemma_trimmed_len(bytes, n, 4, n, k);
    }
}

/// The first bytes are kept, as many as there is room for.
pub proof fn law_first_bytes_are_kept(bytes: Seq<u8>, n: int)
    requires
        0 <= n,
    ensures
        fitting_bytes(bytes, n).len() == (if bytes.len() < n {
            bytes.len() as int
        } else {
            n
        }),
        forall|i: int|
            0 <= i < fitting_bytes(bytes, n).len() ==> #[trigger] fitting_bytes(bytes, n)[i]
                == bytes[i],
{
}

proof fn lemma_trimmed_none(bytes: Seq<u8>, from: int, tries: int, fallback: int)
    requires
        forall|k: int| from - tries < k <= from ==> !valid_utf8(#[trigger] bytes.take(k)),
    ensures
        trimmed_len(bytes, from, tries, fallback) == fallback,
    decreases tries,
{
    if tries > 0 {
        assert(!valid_utf8(bytes.take(from)));
        lemma_trimmed_none(bytes, from - 1, tries - 1, fallback);
    }
}

/// A text that is too long is cut to the longest valid one that is not empty and at most three
/// bytes shorter than what there is room for; if there is none, to what there is room for.
pub proof fn law_cut_is_the_longest(bytes: Seq<u8>, n: int, k: int)
    requires
        0 <= n < bytes.len(),
        1 <= k <= n,
        n - 3 <= k,
        valid_utf8(bytes.take(k)),
    ensures
        k <= fitting_len(bytes, n) <= n,
        valid_utf8(bytes.take(fitting_len(bytes, n))),
{
    let tries = if n < 4 {
        n
    } else {
        4
    };
    lemma_trimmed_len(bytes, n, tries, n, k);
}

/// A text that fits is kept whole, and one of which no prefix will do is cut where there is no
/// more room.
pub proof fn law_uncut_text(bytes: Seq<u8>, n: int)
    requires
        0 <= n,
        bytes.len() <= n || forall|k: int|
            1 <= k <= n && n - 3 <= k ==> !valid_utf8(#[trigger] bytes.take(k)),
    ensures
        fitting_len(bytes, n) == (if bytes.len() <= n {
            bytes.len() as int
        } else {
            n
        }),
{
    if bytes.len() > n {
        let tries = if n < 4 {
            n
        } else {
            4
        };
        lemma_trimmed_none(bytes, n, tries, n);
    }
}

proof fn lemma_digit(d: u8)
    requires
        d < 10,
    ensures
        digit_text(d)@.len() == 1,
        digit_text(d)@[0] as int == 48 + d,
{
    reveal_strlit("0");
    reveal_strlit("1");
    reveal_strlit("2");
    reveal_strlit("3");
    reveal_strlit("4");
    reveal_strlit("5");
    reveal_strlit("6");
    reveal_strlit("7");
    reveal_strlit("8");
    reveal_strlit("9");
}

/// A byte is shown in decimal: by digits, which are the characters from 48 on, with the value
/// of the byte and no zero in front.
pub proof fn law_bytes_are_shown_in_decimal(b: u8)
    ensures
        ({
            let t = byte_text(b);
            &&& forall|i: int| 0 <= i < t.len() ==> 48 <= #[trigger] (t[i] as int) <= 57
            &&& t.len() == 1 ==> b == t[0] as int - 48
            &&& t.len() == 2 ==> b == 10 * (t[0] as int - 48) + (t[1] as int - 48)
            &&& t.len() == 3 ==> b == 100 * (t[0] as int - 48) + 10 * (t[1] as int - 48) + (
            t[2] as int - 48)
            &&& 1 <= t.len() <= 3
            &&& t.len() > 1 ==> t[0] as int != 48
        }),
{
    lemma_digit(b % 10);
    if b >= 10 {
        lemma_digit(b / 10 % 10);
    }
    if b >= 100 {
        lemma_digit(b / 100);
    }
}

/// What is valid UTF-8 is shown as its text; other bytes are shown in brackets, with a comma
/// and a space between them.
pub proof fn law_shown_strings(bytes: Seq<u8>, b: u8, text: Seq<char>)
    ensures
        shown(encode_utf8(text)) == text,
        !valid_utf8(bytes) ==> shown(bytes) == seq!['['] + items_text(bytes, bytes.len()) + seq![
            ']',
        ],
        items_text(seq![b], 1) == byte_text(b),
        bytes.len() > 0 ==> items_text(bytes.push(b), bytes.len() + 1) == items_text(
            bytes,
            bytes.len(),
        ) + seq![',', ' '] + byte_text(b),
{
    reveal_strlit("[");
    reveal_strlit("]");
    reveal_strlit(", ");
    assert("["@ =~= seq!['[']);
    assert("]"@ =~= seq![']']);
    assert(", "@ =~= seq![',', ' ']);
    crate::util::text::law_encode_decode(text);
    if bytes.len() > 0 {
        lemma_items_prefix(bytes, bytes.push(b), bytes.len());
    }
}

proof fn lemma_items_prefix(a: Seq<u8>, b: Seq<u8>, n: nat)
    requires
        n <= a.len() <= b.len(),
        forall|i: int| 0 <= i < a.len() ==> a[i] == b[i],
    ensures
        items_text(a, n) == items_text(b, n),
    decreases n,
{
    if n > 1 {
        lemma_items_prefix(a, b, (n - 1) as nat);
    }
}

} // verus!
