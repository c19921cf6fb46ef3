//! Big-endian integers and length-prefixed byte strings, as they appear in TLS
//! messages, together with a cursor that consumes them.

use vstd::prelude::*;

verus! {

/// The low 16 bits of `n`, most significant byte first.
pub open spec fn be16(n: int) -> Seq<u8> {
    seq![(n / 256 % 256) as u8, (n % 256) as u8]
}

/// The low 24 bits of `n`, most significant byte first.
pub open spec fn be24(n: int) -> Seq<u8> {
    seq![(n / 65536 % 256) as u8, (n / 256 % 256) as u8, (n % 256) as u8]
}

/// `s` behind a one-byte length.
pub open spec fn vec8(s: Seq<u8>) -> Seq<u8> {
    seq![(s.len() % 256) as u8] + s
}

/// `s` behind a two-byte length.
pub open spec fn vec16(s: Seq<u8>) -> Seq<u8> {
    be16(s.len() as int) + s
}

/// Reads `n` bytes off the front: the bytes and what is left, or nothing if
/// there are fewer.
pub open spec fn take_bytes(s: Seq<u8>, n: int) -> Option<(Seq<u8>, Seq<u8>)> {
    if 0 <= n <= s.len() {
        Some((s.take(n), s.skip(n)))
    } else {
        None
    }
}

/// Reads one byte off the front.
pub open spec fn take_u8(s: Seq<u8>) -> Option<(u8, Seq<u8>)> {
    if s.len() >= 1 {
        Some((s[0], s.skip(1)))
    } else {
        None
    }
}

/// Reads a 16-bit integer off the front.
pub open spec fn take_u16(s: Seq<u8>) -> Option<(u16, Seq<u8>)> {
    if s.len() >= 2 {
        Some(((s[0] * 256 + s[1]) as u16, s.skip(2)))
    } else {
        None
    }
}

/// Reads a byte string with a one-byte length off the front.
pub open spec fn take_vec8(s: Seq<u8>) -> Option<(Seq<u8>, Seq<u8>)> {
    match take_u8(s) {
        Some((n, rest)) => take_bytes(rest, n as int),
        None => None,
    }
}

/// Reads a byte string with a two-byte length off the front.
pub open spec fn take_vec16(s: Seq<u8>) -> Option<(Seq<u8>, Seq<u8>)> {
    match take_u16(s) {
        Some((n, rest)) => take_bytes(rest, n as int),
        None => None,
    }
}

/// Whether every byte is zero.
pub open spec fn all_zero(s: Seq<u8>) -> bool {
    forall|i: int| 0 <= i < s.len() ==> s[i] == 0
}

/// A string of `n` zero bytes.
pub open spec fn zeros(n: nat) -> Seq<u8> {
    Seq::new(n, |i: int| 0u8)
}

/// Reading a 16-bit integer gives back what `be16` wrote.
pub proof fn lemma_take_be16(n: int, rest: Seq<u8>)
    requires
        0 <= n < 65536,
    ensures
        take_u16(be16(n) + rest) == Some((n as u16, rest)),
{
    assert((be16(n) + rest).skip(2) =~= rest);
}

/// Three bytes, put together and taken apart again.
pub proof fn lemma_be24(a: u8, b: u8, c: u8)
    ensures
        be24(a * 65536 + b * 256 + c) == seq![a, b, c],
{
    let n = a * 65536 + b * 256 + c;
    assert(n % 256 == c && n / 256 == a * 256 + b);
    assert(n / 65536 == a);
}

/// Reading a string with a one-byte length gives back what `vec8` wrote.
pub proof fn lemma_take_vec8(s: Seq<u8>, rest: Seq<u8>)
    requires
        s.len() < 256,
    ensures
        take_vec8(vec8(s) + rest) == Some((s, rest)),
{
    let whole = vec8(s) + rest;
    assert(whole.skip(1) =~= s + rest);
    assert((s + rest).take(s.len() as int) =~= s);
    assert((s + rest).skip(s.len() as int) =~= rest);
}

/// Reading a string with a two-byte length gives back what `vec16` wrote.
pub proof fn lemma_take_vec16(s: Seq<u8>, rest: Seq<u8>)
    requires
        s.len() < 65536,
    ensures
        take_vec16(vec16(s) + rest) == Some((s, rest)),
{
    let whole = vec16(s) + rest;
    assert(whole =~= be16(s.len() as int) + (s + rest));
    lemma_take_be16(s.len() as int, s + rest);
    assert((s + rest).take(s.len() as int) =~= s);
    assert((s + rest).skip(s.len() as int) =~= rest);
}

/// Writing a string that was read with a two-byte length gives back the bytes
/// that it was read from.
pub proof fn lemma_vec16_of_taken(s: Seq<u8>)
    ensures
        take_vec16(s) matches Some((body, rest)) ==> vec16(body) + rest =~= s && body.len() < 65536,
{
}

/// A cursor over a byte string. Its view is what has not been read yet.
pub struct Reader<'a> {
    rest: &'a [u8],
}

impl<'a> View for Reader<'a> {
    type V = Seq<u8>;

    closed spec fn view(&self) -> Seq<u8> {
        self.rest@
    }
}

impl<'a> Reader<'a> {
    pub fn new(bytes: &'a [u8]) -> (r: Reader<'a>)
        ensures
            r@ == bytes@,
    {
        Reader { rest: bytes }
    }

    /// Whether anything is left to read.
    pub fn any_left(&self) -> (b: bool)
        ensures
            b == (self@.len() > 0),
    {
        self.rest.len() > 0
    }

    /// How many bytes are left to read.
    pub fn left(&self) -> (n: usize)
        ensures
            n == self@.len(),
    {
        self.rest.len()
    }

    /// Everything that is left.
    pub fn rest(&mut self) -> (bytes: &'a [u8])
        ensures
            bytes@ == old(self)@,
            final(self)@.len() == 0,
    {
        let bytes = self.rest;
        let n = bytes.len();
        self.rest = &bytes[n..n];
        bytes
    }

    /// The next `n` bytes. Nothing is consumed if there are fewer.
    pub fn take(&mut self, n: usize) -> (bytes: Option<&'a [u8]>)
        ensures
            match bytes {
                Some(b) => take_bytes(old(self)@, n as int) == Some((b@, final(self)@)),
                None => take_bytes(old(self)@, n as int) is None && final(self)@ == old(self)@,
            },
    {
        let all = self.rest;
        if n > all.len() {
            return None;
        }
        self.rest = &all[n..all.len()];
        let b = &all[0..n];
        assert(all@.subrange(0, n as int) =~= all@.take(n as int));
        assert(all@.subrange(n as int, all@.len() as int) =~= all@.skip(n as int));
        Some(b)
    }

    /// The next byte.
    pub fn u8(&mut self) -> (value: Option<u8>)
        ensures
            match value {
                Some(v) => take_u8(old(self)@) == Some((v, final(self)@)),
                None => take_u8(old(self)@) is None && final(self)@ == old(self)@,
            },
    {
        let all = self.rest;
        match self.take(1) {
            Some(b) => {
                assert(b@ =~= all@.take(1));
                Some(b[0])
            },
            None => None,
        }
    }

    /// The next 16-bit integer.
    pub fn u16(&mut self) -> (value: Option<u16>)
        ensures
            match value {
                Some(v) => take_u16(old(self)@) == Some((v, final(self)@)),
                None => take_u16(old(self)@) is None && final(self)@ == old(self)@,
            },
    {
        let all = self.rest;
        match self.take(2) {
            Some(b) => {
                assert(b@ =~= all@.take(2));
                Some(b[0] as u16 * 256 + b[1] as u16)
            },
            None => None,
        }
    }

    /// The next byte string with a one-byte length. Nothing is consumed on failure.
    pub fn vec8(&mut self) -> (bytes: Option<&'a [u8]>)
        ensures
            match bytes {
                Some(b) => take_vec8(old(self)@) == Some((b@, final(self)@)),
                None => take_vec8(old(self)@) is None && final(self)@ == old(self)@,
            },
    {
        let all = self.rest;
        let n: usize = match self.u8() {
            Some(n) => n as usize,
            None => return None,
        };
        let bytes = self.take(n);
        if bytes.is_none() {
            self.rest = all;
        }
        bytes
    }

    /// The next byte string with a two-byte length. Nothing is consumed on failure.
    pub fn vec16(&mut self) -> (bytes: Option<&'a [u8]>)
        ensures
            match bytes {
                Some(b) => take_vec16(old(self)@) == Some((b@, final(self)@)),
                None => take_vec16(old(self)@) is None && final(self)@ == old(self)@,
            },
    {
        let all = self.rest;
        let n: usize = match self.u16() {
            Some(n) => n as usize,
            None => return None,
        };
        let bytes = self.take(n);
        if bytes.is_none() {
            self.rest = all;
        }
        bytes
    }
}

/// Appends `bytes` to `out`.
pub fn put_bytes(out: &mut Vec<u8>, bytes: &[u8])
    ensures
        final(out)@ == old(out)@ + bytes@,
{
    out.extend_from_slice(bytes);
    assert(out@ =~= old(out)@ + bytes@);
}

/// Appends the low 16 bits of `n`.
pub fn put_u16(out: &mut Vec<u8>, n: usize)
    ensures
        final(out)@ == old(out)@ + be16(n as int),
{
    out.push((n / 256 % 256) as u8);
    out.push((n % 256) as u8);
    assert(out@ =~= old(out)@ + be16(n as int));
}

/// Appends `bytes` behind a one-byte length.
pub fn put_vec8(out: &mut Vec<u8>, bytes: &[u8])
    ensures
        final(out)@ == old(out)@ + vec8(bytes@),
{
    out.push((bytes.len() % 256) as u8);
    put_bytes(out, bytes);
    assert(out@ =~= old(out)@ + vec8(bytes@));
}

/// Appends `bytes` behind a two-byte length.
pub fn put_vec16(out: &mut Vec<u8>, bytes: &[u8])
    ensures
        final(out)@ == old(out)@ + vec16(bytes@),
{
    put_u16(out, bytes.len());
    put_bytes(out, bytes);
    assert(out@ =~= old(out)@ + vec16(bytes@));
}

/// Whether every byte is zero.
pub fn is_all_zero(bytes: &[u8]) -> (b: bool)
    ensures
        b == all_zero(bytes@),
{
    let mut i: usize = 0;
    while i < bytes.len()
        invariant
            0 <= i <= bytes@.len(),
            forall|j: int| 0 <= j < i ==> bytes@[j] == 0,
        decreases bytes@.len() - i,
    {
        if bytes[i] != 0 {
            return false;
        }
        i = i + 1;
    }
    true
}

/// How integers and strings are laid out: most significant byte first, and a
/// string behind its length. Of an integer that is too long the low bytes are
/// kept.
pub proof fn layout_of_integers_and_strings(n: int, s: Seq<u8>, count: nat)
    requires
        0 <= n,
    ensures
        be16(n).len() == 2,
        be16(n)[0] * 256 + be16(n)[1] == n % 65536,
        be24(n).len() == 3,
        be24(n)[0] * 65536 + be24(n)[1] * 256 + be24(n)[2] == n % 0x100_0000,
        vec8(s).len() == s.len() + 1,
        vec8(s)[0] == s.len() % 256,
        vec8(s).skip(1) == s,
        vec16(s).len() == s.len() + 2,
        vec16(s)[0] * 256 + vec16(s)[1] == s.len() % 65536,
        vec16(s).skip(2) == s,
        zeros(count).len() == count,
        forall|i: int| 0 <= i < count ==> zeros(count)[i] == 0,
        all_zero(s) <==> s == zeros(s.len()),
{
    assert(n / 256 == n / 65536 * 256 + n / 256 % 256) by {
        assert(n / 65536 == n / 256 / 256);
    }
    assert(n == n / 256 * 256 + n % 256);
    assert(n / 65536 == n / 0x100_0000 * 256 + n / 65536 % 256) by {
        assert(n / 0x100_0000 == n / 65536 / 256);
    }
    assert(n == n / 0x100_0000 * 0x100_0000 + n % 0x100_0000);
    assert(n == n / 65536 * 65536 + n % 65536);
    assert(vec8(s).skip(1) =~= s);
    assert(vec16(s).skip(2) =~= s);
    assert(all_zero(s) ==> s =~= zeros(s.len()));
}

/// What is read off the front of `s`: the bytes that a length announces, if they
/// are all there, and nothing otherwise. The rest is what follows them.
pub proof fn reading_takes_the_front(s: Seq<u8>, n: int)
    ensures
        take_bytes(s, n) is Some <==> 0 <= n <= s.len(),
        take_bytes(s, n) matches Some((b, rest)) ==> b.len() == n && b + rest == s,
        take_u8(s) is Some <==> s.len() >= 1,
        take_u8(s) matches Some((v, rest)) ==> seq![v] + rest == s,
        take_u16(s) is Some <==> s.len() >= 2,
        take_u16(s) matches Some((v, rest)) ==> v == s[0] * 256 + s[1] && rest == s.skip(2),
        take_vec8(s) is Some <==> s.len() >= 1 && s.len() >= 1 + s[0],
        take_vec8(s) matches Some((b, rest)) ==> b.len() == s[0] && seq![s[0]] + b + rest == s,
        take_vec16(s) is Some <==> s.len() >= 2 && s.len() >= 2 + s[0] * 256 + s[1],
        take_vec16(s) matches Some((b, rest)) ==> b.len() == s[0] * 256 + s[1] && seq![s[0], s[1]]
            + b + rest == s,
{
    if let Some((b, rest)) = take_bytes(s, n) {
        assert(b + rest =~= s);
    }
    if let Some((v, rest)) = take_u8(s) {
        assert(seq![v] + rest =~= s);
    }
    if let Some((b, rest)) = take_vec8(s) {
        assert(seq![s[0]] + b + rest =~= s);
    }
    if let Some((b, rest)) = take_vec16(s) {
        assert(seq![s[0], s[1]] + b + rest =~= s);
    }
}

} // verus!
