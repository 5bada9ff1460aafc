use vstd::prelude::*;
use vstd::string::StringSliceAdditionalSpecFns;
use vstd::utf8::{decode_utf8, encode_utf8, valid_utf8};

verus! {

/// Relies on `std::str::from_utf8`: it accepts exactly the well-formed UTF-8
/// byte sequences, and the text it returns decodes them.
#[verifier::external_body]
fn utf8_str(bytes: &[u8]) -> (r: Option<&str>)
    ensures
        r is Some <==> valid_utf8(bytes@),
        r matches Some(s) ==> s@ == decode_utf8(bytes@),
{
    std::str::from_utf8(bytes).ok()
}

/// The text of `bytes` when they are well-formed UTF-8, else the empty text.
pub open spec fn text_of(bytes: Seq<u8>) -> Seq<char> {
    if valid_utf8(bytes) {
        decode_utf8(bytes)
    } else {
        Seq::empty()
    }
}

/// `bytes` read as text, or the empty text when they are not well-formed.
pub(crate) fn text_or_empty(bytes: &[u8]) -> (r: &str)
    ensures
        r@ == text_of(bytes@),
{
    match utf8_str(bytes) {
        Some(s) => s,
        None => {
            proof {
                reveal_strlit("");
            }
            ""
        },
    }
}

/// The UTF-8 encoding of `c`, one to four bytes.
pub(crate) fn encode_char(c: char) -> (r: Vec<u8>)
    ensures
        r@ == encode_utf8(seq![c]),
{
    let v = c as u32;
    let mut r: Vec<u8> = Vec::new();
    if v <= 0x7F {
        r.push((v & 0x7F) as u8);
    } else if 0x80 <= v && v <= 0x7FF {
        r.push(0xC0 | ((v >> 6) & 0x1F) as u8);
        r.push(0x80 | (v & 0x3F) as u8);
    } else if 0x800 <= v && v <= 0xFFFF && !(0xD800 <= v && v <= 0xDFFF) {
        r.push(0xE0 | ((v >> 12) & 0x0F) as u8);
        r.push(0x80 | ((v >> 6) & 0x3F) as u8);
        r.push(0x80 | (v & 0x3F) as u8);
    } else {
        r.push(0xF0 | ((v >> 18) & 0x7) as u8);
        r.push(0x80 | ((v >> 12) & 0x3F) as u8);
        r.push(0x80 | ((v >> 6) & 0x3F) as u8);
        r.push(0x80 | (v & 0x3F) as u8);
    }
    proof {
        assert(seq![c].drop_first() =~= Seq::<char>::empty());
        assert(seq![c][0] as u32 == v);
        assert(r@ =~= vstd::utf8::encode_scalar(v));
        assert(encode_utf8(seq![c]) == vstd::utf8::encode_scalar(v) + encode_utf8(
            Seq::<char>::empty(),
        ));
        assert(r@ =~= encode_utf8(seq![c]));
    }
    r
}

/// The bytes that a buffer holding `old` with room for `cap` bytes holds after
/// appending `add` one byte at a time until it is full.
pub open spec fn filled(old: Seq<u8>, add: Seq<u8>, cap: nat) -> Seq<u8> {
    if old.len() + add.len() <= cap {
        old + add
    } else {
        old + add.take(cap - old.len())
    }
}

/// A string of at most `CAP` bytes of UTF-8.
pub struct String<const CAP: usize> {
    data: crate::fixed_vec::Vec<u8, CAP>,
}

impl<const CAP: usize> String<CAP> {
    /// The bytes held.
    pub closed spec fn bytes(&self) -> Seq<u8> {
        self.data@
    }

    /// The bytes never exceed the capacity.
    pub closed spec fn wf(&self) -> bool {
        self.data.wf()
    }

    pub open spec fn spec_len(&self) -> nat {
        self.bytes().len()
    }

    pub fn new() -> (r: Self)
        ensures
            r.wf(),
            r.bytes() == Seq::<u8>::empty(),
    {
        String { data: crate::fixed_vec::Vec::new() }
    }

    /// Appends `add` byte by byte; when the capacity runs out the bytes that
    /// fit stay and the call fails with "Capacity exceeded".
    fn push_bytes(&mut self, add: &[u8]) -> (r: Result<(), &'static str>)
        requires
            old(self).wf(),
        ensures
            final(self).wf(),
            final(self).bytes() == filled(old(self).bytes(), add@, CAP as nat),
            r is Ok <==> old(self).bytes().len() + add@.len() <= CAP,
    {
        let ghost start = self.data@;
        let mut i: usize = 0;
        while i < add.len()
            invariant
                start == old(self).bytes(),
                self.data.wf(),
                start.len() <= CAP,
                i <= add@.len(),
                start.len() + i <= CAP,
                self.data@ == start + add@.take(i as int),
            decreases add@.len() - i,
        {
            let pushed = self.data.push(add[i]);
            if pushed.is_err() {
                proof {
                    assert(add@.take(i as int) =~= add@.take(CAP - start.len()));
                }
                return Err("Capacity exceeded");
            }
            proof {
                assert(add@.take(i + 1) =~= add@.take(i as int).push(add@[i as int]));
            }
            i = i + 1;
        }
        proof {
            assert(add@.take(add@.len() as int) =~= add@);
        }
        Ok(())
    }

    /// A string holding `s`, or "Capacity exceeded" when it does not fit.
    pub fn from_str(s: &str) -> (r: Result<Self, &'static str>)
        ensures
            r is Ok <==> s.spec_bytes().len() <= CAP,
            r matches Ok(t) ==> t.wf() && t.bytes() == s.spec_bytes(),
    {
        let mut string = Self::new();
        match string.push_bytes(s.as_bytes()) {
            Ok(()) => {
                proof {
                    assert(Seq::<u8>::empty() + s.spec_bytes() =~= s.spec_bytes());
                }
                Ok(string)
            },
            Err(e) => Err(e),
        }
    }

    /// Appends the bytes of `s`; see `push_bytes` for a string that fills up.
    pub fn push_str(&mut self, s: &str) -> (r: Result<(), &'static str>)
        requires
            old(self).wf(),
        ensures
            final(self).wf(),
            final(self).bytes() == filled(old(self).bytes(), s.spec_bytes(), CAP as nat),
            r is Ok <==> old(self).bytes().len() + s.spec_bytes().len() <= CAP,
    {
        self.push_bytes(s.as_bytes())
    }

    /// Appends the UTF-8 encoding of `c`.
    pub fn push(&mut self, c: char) -> (r: Result<(), &'static str>)
        requires
            old(self).wf(),
        ensures
            final(self).wf(),
            final(self).bytes() == filled(old(self).bytes(), encode_utf8(seq![c]), CAP as nat),
            r is Ok <==> old(self).bytes().len() + encode_utf8(seq![c]).len() <= CAP,
    {
        let bytes = encode_char(c);
        self.push_bytes(bytes.as_slice())
    }

    /// The text held, or the empty text when a push that ran out of room cut
    /// a character short.
    pub fn as_str(&self) -> (r: &str)
        ensures
            r@ == text_of(self.bytes()),
    {
        text_or_empty(self.data.as_slice())
    }

    pub fn clear(&mut self)
        requires
            old(self).wf(),
        ensures
            final(self).wf(),
            final(self).bytes() == Seq::<u8>::empty(),
    {
        self.data.clear();
    }

    /// The length in bytes.
    pub fn len(&self) -> (r: usize)
        ensures
            r == self.bytes().len(),
    {
        self.data.len()
    }

    pub fn is_empty(&self) -> (r: bool)
        ensures
            r == (self.bytes().len() == 0),
    {
        self.data.is_empty()
    }

    pub fn capacity(&self) -> (r: usize)
        ensures
            r == CAP,
    {
        self.data.capacity()
    }
}

/// The formatting error of the standard library, carried through unopened.
#[verifier::external_type_specification]
pub struct ExFmtError(core::fmt::Error);

/// Writes text into a byte buffer of fixed size; a write that does not fit
/// fails and writes nothing.
pub struct Formatter {
    buffer: Vec<u8>,
    pos: usize,
}

impl Formatter {
    /// The bytes written so far.
    pub closed spec fn written(&self) -> Seq<u8> {
        self.buffer@.take(self.pos as int)
    }

    /// The size of the buffer.
    pub closed spec fn size(&self) -> nat {
        self.buffer@.len()
    }

    /// The written bytes lie within the buffer.
    pub closed spec fn wf(&self) -> bool {
        self.pos <= self.buffer@.len()
    }

    /// A formatter that writes into `buffer` from its start.
    pub fn new(buffer: Vec<u8>) -> (r: Self)
        ensures
            r.wf(),
            r.written() == Seq::<u8>::empty(),
            r.size() == buffer@.len(),
    {
        Formatter { buffer, pos: 0 }
    }

    /// Writes `add` after what was written, or fails when it does not fit.
    fn write_bytes(&mut self, add: &[u8]) -> (r: Result<(), core::fmt::Error>)
        requires
            old(self).wf(),
        ensures
            final(self).wf(),
            final(self).size() == old(self).size(),
            r is Ok <==> old(self).written().len() + add@.len() <= old(self).size(),
            r is Ok ==> final(self).written() == old(self).written() + add@,
            r is Err ==> final(self).written() == old(self).written(),
    {
        if add.len() > self.buffer.len() - self.pos {
            return Err(core::fmt::Error);
        }
        let ghost start = self.buffer@;
        let n = self.buffer.len();
        let mut i: usize = 0;
        while i < add.len()
            invariant
                n == start.len(),
                start == old(self).buffer@,
                self.pos == old(self).pos,
                self.pos + add@.len() <= start.len(),
                i <= add@.len(),
                self.buffer@.len() == start.len(),
                self.buffer@ == start.take(self.pos as int) + add@.take(i as int) + start.skip(
                    self.pos + i,
                ),
            decreases add@.len() - i,
        {
            self.buffer.set(self.pos + i, add[i]);
            proof {
                assert(self.buffer@ =~= start.take(self.pos as int) + add@.take(i + 1) + start.skip(
                    self.pos + i + 1,
                ));
            }
            i = i + 1;
        }
        self.pos = self.pos + add.len();
        proof {
            assert(self.buffer@.take(self.pos as int) =~= start.take(old(self).pos as int)
                + add@);
        }
        Ok(())
    }

    /// Writes the bytes of `s`, or fails when they do not fit.
    pub fn write_str(&mut self, s: &str) -> (r: Result<(), core::fmt::Error>)
        requires
            old(self).wf(),
        ensures
            final(self).wf(),
            final(self).size() == old(self).size(),
            r is Ok <==> old(self).written().len() + s.spec_bytes().len() <= old(self).size(),
            r is Ok ==> final(self).written() == old(self).written() + s.spec_bytes(),
            r is Err ==> final(self).written() == old(self).written(),
    {
        self.write_bytes(s.as_bytes())
    }

    /// Writes the UTF-8 encoding of `c`, or fails when it does not fit.
    pub fn write_char(&mut self, c: char) -> (r: Result<(), core::fmt::Error>)
        requires
            old(self).wf(),
        ensures
            final(self).wf(),
            final(self).size() == old(self).size(),
            r is Ok <==> old(self).written().len() + encode_utf8(seq![c]).len() <= old(
                self,
            ).size(),
            r is Ok ==> final(self).written() == old(self).written() + encode_utf8(seq![c]),
            r is Err ==> final(self).written() == old(self).written(),
    {
        let bytes = encode_char(c);
        self.write_bytes(bytes.as_slice())
    }

    /// The text written so far, or the empty text when it is not well-formed.
    pub fn as_str(&self) -> (r: &str)
        requires
            self.wf(),
        ensures
            r@ == text_of(self.written()),
    {
        let part = vstd::slice::slice_subrange(self.buffer.as_slice(), 0, self.pos);
        proof {
            assert(part@ =~= self.written());
        }
        text_or_empty(part)
    }

    /// Forgets what was written; the buffer is reused from its start.
    pub fn clear(&mut self)
        requires
            old(self).wf(),
        ensures
            final(self).wf(),
            final(self).size() == old(self).size(),
            final(self).written() == Seq::<u8>::empty(),
    {
        self.pos = 0;
    }
}

} // verus!
