//! Byte-level serialization used by the guest game: little-endian integers,
//! length-prefixed vectors, and tuples.
//!
//! Each serializable type fixes its encoding `enc` and its decoder `dec` at
//! the specification level; `read` and `write` are exact against them, and
//! every implementation proves the round trip `dec(enc(v) + rest) == (v, n)`
//! as a trait obligation.

use vstd::prelude::*;

verus! {

/// Raised when the bytes run out or do not decode.
#[derive(Debug)]
pub struct ReadError;

/// A source of bytes, consumed from the front.
pub trait Reader {
    /// The bytes not yet consumed.
    spec fn remaining(&self) -> Seq<u8>;

    /// Takes the next byte, exactly when one remains.
    fn read_byte(&mut self) -> (r: Result<u8, ReadError>)
        ensures
            old(self).remaining().len() > 0 ==> r == Ok::<u8, ReadError>(
                old(self).remaining()[0],
            ) && final(self).remaining() == old(self).remaining().drop_first(),
            old(self).remaining().len() == 0 ==> r is Err && final(self).remaining() == old(self).remaining(),
    ;
}

/// A sink of bytes, appended at the back.
pub trait Writer {
    /// The bytes written so far.
    spec fn written(&self) -> Seq<u8>;

    /// Appends one byte.
    fn write_byte(&mut self, byte: u8)
        ensures
            final(self).written() == old(self).written().push(byte),
    ;
}

/// A reader over a borrowed byte slice.
pub struct SliceReader<'a> {
    data: &'a [u8],
    pos: usize,
}

impl<'a> SliceReader<'a> {
    /// Starts reading `data` from its first byte.
    pub fn new(data: &'a [u8]) -> (r: SliceReader<'a>)
        ensures
            r.remaining() == data@,
    {
        SliceReader { data, pos: 0 }
    }
}

impl<'a> Reader for SliceReader<'a> {
    closed spec fn remaining(&self) -> Seq<u8> {
        if self.pos <= self.data@.len() {
            self.data@.skip(self.pos as int)
        } else {
            Seq::empty()
        }
    }

    fn read_byte(&mut self) -> (r: Result<u8, ReadError>) {
        if self.pos < self.data.len() {
            let b = self.data[self.pos];
            self.pos = self.pos + 1;
            proof {
                assert(old(self).remaining()[0] == b);
                assert(self.remaining() =~= old(self).remaining().drop_first());
            }
            Ok(b)
        } else {
            Err(ReadError)
        }
    }
}

impl Writer for Vec<u8> {
    open spec fn written(&self) -> Seq<u8> {
        self@
    }

    fn write_byte(&mut self, byte: u8) {
        self.push(byte);
    }
}

/// A value with a fixed byte encoding.
pub trait Serialize: Sized + DeepView {
    /// The encoding of this value. Meaningful when `enc_ok` holds.
    spec fn enc(&self) -> Seq<u8>;

    /// Whether the value fits its own encoding (a vector longer than the
    /// 32-bit length prefix can express does not).
    spec fn enc_ok(&self) -> bool;

    /// The decoder: the (deep view of the) value encoded at the front of
    /// `s` and the number of bytes it occupies, if any.
    spec fn dec(s: Seq<u8>) -> Option<(<Self as DeepView>::V, int)>;

    /// Reads one value, exactly as `dec` says.
    fn read<R: Reader>(reader: &mut R) -> (r: Result<Self, ReadError>)
        ensures
            match r {
                Ok(v) => {
                    &&& Self::dec(old(reader).remaining()) matches Some((w, n)) && w
                        == v.deep_view() && 0 <= n <= old(reader).remaining().len() && final(reader).remaining() == old(reader).remaining().skip(n)
                },
                Err(_) => Self::dec(old(reader).remaining()) is None,
            },
    ;

    /// Writes this value: exactly its encoding, always. (`enc_ok` matters
    /// only for reading back: a vector longer than its 32-bit length prefix
    /// can express writes a truncated prefix.)
    fn write<W: Writer>(&self, writer: &mut W)
        ensures
            final(writer).written() == old(writer).written() + self.enc(),
    ;

    /// The round trip: whatever follows the encoding of a fitting value,
    /// the decoder takes exactly that encoding back to the value.
    proof fn enc_dec(v: Self, rest: Seq<u8>)
        requires
            v.enc_ok(),
        ensures
            Self::dec(v.enc() + rest) == Some((v.deep_view(), v.enc().len() as int)),
    ;
}

impl Serialize for u8 {
    open spec fn enc(&self) -> Seq<u8> {
        seq![*self]
    }

    open spec fn enc_ok(&self) -> bool {
        true
    }

    open spec fn dec(s: Seq<u8>) -> Option<(u8, int)> {
        if s.len() >= 1 {
            Some((s[0], 1))
        } else {
            None
        }
    }

    fn read<R: Reader>(reader: &mut R) -> (r: Result<Self, ReadError>) {
        match reader.read_byte() {
            Ok(b) => {
                proof {
                    assert(old(reader).remaining().len() > 0);
                    assert(b == old(reader).remaining()[0]);
                    assert(Self::dec(old(reader).remaining()) == Some(
                        (old(reader).remaining()[0], 1int),
                    ));
                    assert(reader.remaining() =~= old(reader).remaining().skip(1));
                }
                Ok(b)
            },
            Err(e) => Err(e),
        }
    }

    fn write<W: Writer>(&self, writer: &mut W) {
        writer.write_byte(*self);
    }

    proof fn enc_dec(v: Self, rest: Seq<u8>) {
        assert((v.enc() + rest)[0] == v);
    }
}

impl Serialize for u16 {
    open spec fn enc(&self) -> Seq<u8> {
        seq![(*self % 256) as u8, (*self / 256) as u8]
    }

    open spec fn enc_ok(&self) -> bool {
        true
    }

    open spec fn dec(s: Seq<u8>) -> Option<(u16, int)> {
        if s.len() >= 2 {
            Some(((s[0] as u16 + s[1] as u16 * 256) as u16, 2))
        } else {
            None
        }
    }

    fn read<R: Reader>(reader: &mut R) -> (r: Result<Self, ReadError>) {
        let low = match u8::read(reader) {
            Ok(b) => b,
            Err(e) => {
                return Err(e);
            },
        };
        let high = match u8::read(reader) {
            Ok(b) => b,
            Err(e) => {
                return Err(e);
            },
        };
        proof {
            assert(old(reader).remaining().skip(1).skip(1) =~= old(reader).remaining().skip(2));
            assert(old(reader).remaining().skip(1)[0] == old(reader).remaining()[1]);
        }
        Ok(low as u16 + high as u16 * 256)
    }

    fn write<W: Writer>(&self, writer: &mut W) {
        writer.write_byte(*self as u8);
        writer.write_byte((*self / 256) as u8);
        proof {
            let v = *self;
            assert(v as u8 == (v % 256) as u8) by (bit_vector);
            assert(final(writer).written() =~= old(writer).written() + self.enc());
        }
    }

    proof fn enc_dec(v: Self, rest: Seq<u8>) {
        let s = v.enc() + rest;
        let b0 = s[0];
        let b1 = s[1];
        assert(b0 == (v % 256) as u8 && b1 == (v / 256) as u8);
        assert(b0 as u16 + b1 as u16 * 256 == v) by (bit_vector)
            requires
                b0 == (v % 256) as u8 && b1 == (v / 256) as u8,
        ;
    }
}

impl Serialize for u32 {
    open spec fn enc(&self) -> Seq<u8> {
        ((*self % 65536) as u16).enc() + ((*self / 65536) as u16).enc()
    }

    open spec fn enc_ok(&self) -> bool {
        true
    }

    open spec fn dec(s: Seq<u8>) -> Option<(u32, int)> {
        if s.len() >= 4 {
            match (u16::dec(s), u16::dec(s.skip(2))) {
                (Some((low, _)), Some((high, _))) => Some(
                    ((low as u32 + high as u32 * 65536) as u32, 4),
                ),
                _ => None,
            }
        } else {
            None
        }
    }

    fn read<R: Reader>(reader: &mut R) -> (r: Result<Self, ReadError>) {
        let low = match u16::read(reader) {
            Ok(v) => v,
            Err(e) => {
                return Err(e);
            },
        };
        let high = match u16::read(reader) {
            Ok(v) => v,
            Err(e) => {
                return Err(e);
            },
        };
        Ok(low as u32 + high as u32 * 65536)
    }

    fn write<W: Writer>(&self, writer: &mut W) {
        ((*self % 65536) as u16).write(writer);
        ((*self / 65536) as u16).write(writer);
    }

    proof fn enc_dec(v: Self, rest: Seq<u8>) {
        let low = (v % 65536) as u16;
        let high = (v / 65536) as u16;
        let s = v.enc() + rest;
        u16::enc_dec(low, high.enc() + rest);
        assert(low.enc() + (high.enc() + rest) =~= s);
        assert(s.skip(2) =~= high.enc() + rest);
        u16::enc_dec(high, rest);
        assert(low as u32 + high as u32 * 65536 == v) by (bit_vector)
            requires
                low == (v % 65536) as u16 && high == (v / 65536) as u16,
        ;
    }
}

impl Serialize for u64 {
    open spec fn enc(&self) -> Seq<u8> {
        ((*self % 4294967296) as u32).enc() + ((*self / 4294967296) as u32).enc()
    }

    open spec fn enc_ok(&self) -> bool {
        true
    }

    open spec fn dec(s: Seq<u8>) -> Option<(u64, int)> {
        if s.len() >= 8 {
            match (u32::dec(s), u32::dec(s.skip(4))) {
                (Some((low, _)), Some((high, _))) => Some(
                    ((low as u64 + high as u64 * 4294967296) as u64, 8),
                ),
                _ => None,
            }
        } else {
            None
        }
    }

    fn read<R: Reader>(reader: &mut R) -> (r: Result<Self, ReadError>) {
        let low = match u32::read(reader) {
            Ok(v) => v,
            Err(e) => {
                return Err(e);
            },
        };
        let high = match u32::read(reader) {
            Ok(v) => v,
            Err(e) => {
                return Err(e);
            },
        };
        proof {
            assert(old(reader).remaining().skip(4).skip(4) =~= old(reader).remaining().skip(8));
        }
        Ok(low as u64 + high as u64 * 4294967296)
    }

    fn write<W: Writer>(&self, writer: &mut W) {
        ((*self % 4294967296) as u32).write(writer);
        ((*self / 4294967296) as u32).write(writer);
        proof {
            assert(final(writer).written() =~= old(writer).written() + self.enc());
        }
    }

    proof fn enc_dec(v: Self, rest: Seq<u8>) {
        let low = (v % 4294967296) as u32;
        let high = (v / 4294967296) as u32;
        let s = v.enc() + rest;
        u32::enc_dec(low, high.enc() + rest);
        assert(low.enc() + (high.enc() + rest) =~= s);
        assert(s.skip(4) =~= high.enc() + rest);
        u32::enc_dec(high, rest);
        assert(low as u64 + high as u64 * 4294967296 == v) by (bit_vector)
            requires
                low == (v % 4294967296) as u32 && high == (v / 4294967296) as u32,
        ;
    }
}


impl Serialize for i8 {
    open spec fn enc(&self) -> Seq<u8> {
        (*self as u8).enc()
    }

    open spec fn enc_ok(&self) -> bool {
        true
    }

    open spec fn dec(s: Seq<u8>) -> Option<(i8, int)> {
        match u8::dec(s) {
            Some((v, n)) => Some((v as i8, n)),
            None => None,
        }
    }

    fn read<R: Reader>(reader: &mut R) -> (r: Result<Self, ReadError>) {
        match u8::read(reader) {
            Ok(v) => Ok(v as i8),
            Err(e) => Err(e),
        }
    }

    fn write<W: Writer>(&self, writer: &mut W) {
        (*self as u8).write(writer);
    }

    proof fn enc_dec(v: Self, rest: Seq<u8>) {
        u8::enc_dec(v as u8, rest);
        assert((v as u8) as i8 == v) by (bit_vector);
    }
}

impl Serialize for i16 {
    open spec fn enc(&self) -> Seq<u8> {
        (*self as u16).enc()
    }

    open spec fn enc_ok(&self) -> bool {
        true
    }

    open spec fn dec(s: Seq<u8>) -> Option<(i16, int)> {
        match u16::dec(s) {
            Some((v, n)) => Some((v as i16, n)),
            None => None,
        }
    }

    fn read<R: Reader>(reader: &mut R) -> (r: Result<Self, ReadError>) {
        match u16::read(reader) {
            Ok(v) => Ok(v as i16),
            Err(e) => Err(e),
        }
    }

    fn write<W: Writer>(&self, writer: &mut W) {
        (*self as u16).write(writer);
    }

    proof fn enc_dec(v: Self, rest: Seq<u8>) {
        u16::enc_dec(v as u16, rest);
        assert((v as u16) as i16 == v) by (bit_vector);
    }
}

impl Serialize for i32 {
    open spec fn enc(&self) -> Seq<u8> {
        (*self as u32).enc()
    }

    open spec fn enc_ok(&self) -> bool {
        true
    }

    open spec fn dec(s: Seq<u8>) -> Option<(i32, int)> {
        match u32::dec(s) {
            Some((v, n)) => Some((v as i32, n)),
            None => None,
        }
    }

    fn read<R: Reader>(reader: &mut R) -> (r: Result<Self, ReadError>) {
        match u32::read(reader) {
            Ok(v) => Ok(v as i32),
            Err(e) => Err(e),
        }
    }

    fn write<W: Writer>(&self, writer: &mut W) {
        (*self as u32).write(writer);
    }

    proof fn enc_dec(v: Self, rest: Seq<u8>) {
        u32::enc_dec(v as u32, rest);
        assert((v as u32) as i32 == v) by (bit_vector);
    }
}

impl Serialize for i64 {
    open spec fn enc(&self) -> Seq<u8> {
        (*self as u64).enc()
    }

    open spec fn enc_ok(&self) -> bool {
        true
    }

    open spec fn dec(s: Seq<u8>) -> Option<(i64, int)> {
        match u64::dec(s) {
            Some((v, n)) => Some((v as i64, n)),
            None => None,
        }
    }

    fn read<R: Reader>(reader: &mut R) -> (r: Result<Self, ReadError>) {
        match u64::read(reader) {
            Ok(v) => Ok(v as i64),
            Err(e) => Err(e),
        }
    }

    fn write<W: Writer>(&self, writer: &mut W) {
        (*self as u64).write(writer);
    }

    proof fn enc_dec(v: Self, rest: Seq<u8>) {
        u64::enc_dec(v as u64, rest);
        assert((v as u64) as i64 == v) by (bit_vector);
    }
}

impl Serialize for () {
    open spec fn enc(&self) -> Seq<u8> {
        Seq::empty()
    }

    open spec fn enc_ok(&self) -> bool {
        true
    }

    open spec fn dec(s: Seq<u8>) -> Option<((), int)> {
        Some(((), 0))
    }

    fn read<R: Reader>(reader: &mut R) -> (r: Result<Self, ReadError>) {
        proof {
            assert(old(reader).remaining().skip(0) =~= old(reader).remaining());
        }
        Ok(())
    }

    fn write<W: Writer>(&self, writer: &mut W) {
        proof {
            assert(old(writer).written() + self.enc() =~= old(writer).written());
        }
    }

    proof fn enc_dec(v: Self, rest: Seq<u8>) {
    }
}

impl<A: Serialize, B: Serialize> Serialize for (A, B) {
    open spec fn enc(&self) -> Seq<u8> {
        self.0.enc() + self.1.enc()
    }

    open spec fn enc_ok(&self) -> bool {
        self.0.enc_ok() && self.1.enc_ok()
    }

    open spec fn dec(s: Seq<u8>) -> Option<((<A as DeepView>::V, <B as DeepView>::V), int)> {
        match A::dec(s) {
            None => None,
            Some((a, n)) => match B::dec(s.skip(n)) {
                None => None,
                Some((b, m)) => Some(((a, b), n + m)),
            },
        }
    }

    fn read<R: Reader>(reader: &mut R) -> (r: Result<Self, ReadError>) {
        let a = match A::read(reader) {
            Ok(v) => v,
            Err(e) => {
                return Err(e);
            },
        };
        let b = match B::read(reader) {
            Ok(v) => v,
            Err(e) => {
                return Err(e);
            },
        };
        proof {
            let s = old(reader).remaining();
            let n = A::dec(s)->Some_0.1;
            let m = B::dec(s.skip(n))->Some_0.1;
            assert(s.skip(n).skip(m) =~= s.skip(n + m));
        }
        Ok((a, b))
    }

    fn write<W: Writer>(&self, writer: &mut W) {
        self.0.write(writer);
        self.1.write(writer);
        proof {
            assert(final(writer).written() =~= old(writer).written() + self.enc());
        }
    }

    proof fn enc_dec(v: Self, rest: Seq<u8>) {
        let s = v.enc() + rest;
        A::enc_dec(v.0, v.1.enc() + rest);
        assert(v.0.enc() + (v.1.enc() + rest) =~= s);
        assert(s.skip(v.0.enc().len() as int) =~= v.1.enc() + rest);
        B::enc_dec(v.1, rest);
    }
}

impl<A: Serialize, B: Serialize, C: Serialize> Serialize for (A, B, C) {
    open spec fn enc(&self) -> Seq<u8> {
        self.0.enc() + self.1.enc() + self.2.enc()
    }

    open spec fn enc_ok(&self) -> bool {
        self.0.enc_ok() && self.1.enc_ok() && self.2.enc_ok()
    }

    open spec fn dec(s: Seq<u8>) -> Option<((<A as DeepView>::V, <B as DeepView>::V, <C as DeepView>::V), int)> {
        match <(A, B)>::dec(s) {
            None => None,
            Some(((a, b), n)) => match C::dec(s.skip(n)) {
                None => None,
                Some((c, m)) => Some(((a, b, c), n + m)),
            },
        }
    }

    fn read<R: Reader>(reader: &mut R) -> (r: Result<Self, ReadError>) {
        let ab = match <(A, B)>::read(reader) {
            Ok(v) => v,
            Err(e) => {
                return Err(e);
            },
        };
        let c = match C::read(reader) {
            Ok(v) => v,
            Err(e) => {
                return Err(e);
            },
        };
        proof {
            let s = old(reader).remaining();
            let n = <(A, B)>::dec(s)->Some_0.1;
            let m = C::dec(s.skip(n))->Some_0.1;
            assert(s.skip(n).skip(m) =~= s.skip(n + m));
        }
        Ok((ab.0, ab.1, c))
    }

    fn write<W: Writer>(&self, writer: &mut W) {
        self.0.write(writer);
        self.1.write(writer);
        self.2.write(writer);
        proof {
            assert(final(writer).written() =~= old(writer).written() + self.enc());
        }
    }

    proof fn enc_dec(v: Self, rest: Seq<u8>) {
        let s = v.enc() + rest;
        let ab = (v.0, v.1);
        <(A, B)>::enc_dec(ab, v.2.enc() + rest);
        assert(ab.enc() + (v.2.enc() + rest) =~= s);
        assert(s.skip(ab.enc().len() as int) =~= v.2.enc() + rest);
        C::enc_dec(v.2, rest);
    }
}

/// The concatenated encodings of a sequence of values.
pub open spec fn elems_enc<T: Serialize>(s: Seq<T>) -> Seq<u8>
    decreases s.len(),
{
    if s.len() == 0 {
        Seq::empty()
    } else {
        elems_enc(s.drop_last()) + s.last().enc()
    }
}

/// `n` consecutive values decoded off the front of `s`, with the byte count.
pub open spec fn dec_elems<T: Serialize>(s: Seq<u8>, n: int) -> Option<(Seq<<T as DeepView>::V>, int)>
    decreases n,
{
    if n <= 0 {
        Some((Seq::empty(), 0))
    } else {
        match T::dec(s) {
            None => None,
            Some((v, c)) => match dec_elems::<T>(s.skip(c), n - 1) {
                None => None,
                Some((vs, c2)) => Some((seq![v] + vs, c + c2)),
            },
        }
    }
}

/// The concatenated encodings, decomposed at the front.
proof fn lemma_elems_enc_first<T: Serialize>(s: Seq<T>)
    requires
        s.len() > 0,
    ensures
        elems_enc(s) == s[0].enc() + elems_enc(s.drop_first()),
    decreases s.len(),
{
    if s.len() == 1 {
        assert(s.drop_last() =~= Seq::<T>::empty());
        assert(s.drop_first() =~= Seq::<T>::empty());
        assert(elems_enc(s) =~= s[0].enc() + elems_enc(s.drop_first()));
    } else {
        lemma_elems_enc_first(s.drop_last());
        assert(s.drop_last()[0] == s[0]);
        assert(s.drop_last().drop_first() =~= s.drop_first().drop_last());
        assert(s.drop_first().last() == s.last());
        assert(elems_enc(s) == (s[0].enc() + elems_enc(s.drop_first().drop_last()))
            + s.last().enc());
        assert((s[0].enc() + elems_enc(s.drop_first().drop_last())) + s.last().enc() =~= s[0].enc()
            + (elems_enc(s.drop_first().drop_last()) + s.last().enc()));
    }
}

/// The round trip for a sequence of encoded values.
proof fn lemma_dec_elems_enc<T: Serialize>(s: Seq<T>, rest: Seq<u8>)
    requires
        forall|i: int| 0 <= i < s.len() ==> (#[trigger] s[i]).enc_ok(),
    ensures
        dec_elems::<T>(elems_enc(s) + rest, s.len() as int) == Some(
            (s.map_values(|t: T| t.deep_view()), elems_enc(s).len() as int),
        ),
    decreases s.len(),
{
    let dv = |t: T| t.deep_view();
    if s.len() == 0 {
        assert(dec_elems::<T>(elems_enc(s) + rest, 0) == Some((Seq::<<T as DeepView>::V>::empty(), 0int)));
        assert(s.map_values(dv) =~= Seq::<<T as DeepView>::V>::empty());
    } else {
        lemma_elems_enc_first(s);
        let tail = s.drop_first();
        let bytes = elems_enc(s) + rest;
        T::enc_dec(s[0], elems_enc(tail) + rest);
        assert(s[0].enc() + (elems_enc(tail) + rest) =~= bytes);
        assert(bytes.skip(s[0].enc().len() as int) =~= elems_enc(tail) + rest);
        assert(forall|i: int| 0 <= i < tail.len() ==> (#[trigger] tail[i]) == s[i + 1]);
        lemma_dec_elems_enc(tail, rest);
        assert(seq![s[0].deep_view()] + tail.map_values(dv) =~= s.map_values(dv));
    }
}

impl<T: Serialize> Serialize for Vec<T> {
    open spec fn enc(&self) -> Seq<u8> {
        (self@.len() as u32).enc() + elems_enc(self@)
    }

    open spec fn enc_ok(&self) -> bool {
        self@.len() < 4294967296 && forall|i: int|
            0 <= i < self@.len() ==> (#[trigger] self@[i]).enc_ok()
    }

    open spec fn dec(s: Seq<u8>) -> Option<(Seq<<T as DeepView>::V>, int)> {
        match u32::dec(s) {
            None => None,
            Some((n, c)) => match dec_elems::<T>(s.skip(c), n as int) {
                None => None,
                Some((vs, c2)) => Some((vs, c + c2)),
            },
        }
    }

    fn read<R: Reader>(reader: &mut R) -> (r: Result<Self, ReadError>) {
        let n = match u32::read(reader) {
            Ok(v) => v,
            Err(e) => {
                return Err(e);
            },
        };
        match read_elems::<T, R>(reader, n) {
            Ok(v) => {
                proof {
                    let s = old(reader).remaining();
                    let c = u32::dec(s)->Some_0.1;
                    let c2 = dec_elems::<T>(s.skip(c), n as int)->Some_0.1;
                    assert(s.skip(c).skip(c2) =~= s.skip(c + c2));
                }
                Ok(v)
            },
            Err(e) => Err(e),
        }
    }

    fn write<W: Writer>(&self, writer: &mut W) {
        let n = self.len() as u32;
        n.write(writer);
        let ghost base = writer.written();
        let mut i: usize = 0;
        proof {
            assert(base + elems_enc(self@.take(0)) =~= base);
        }
        while i < self.len()
            invariant
                i <= self@.len(),
                writer.written() == base + elems_enc(self@.take(i as int)),
            decreases self@.len() - i,
        {
            self[i].write(writer);
            proof {
                let t2 = self@.take(i + 1);
                assert(t2.drop_last() =~= self@.take(i as int));
                assert(t2.last() == self@[i as int]);
                assert(writer.written() =~= base + elems_enc(t2));
            }
            i += 1;
        }
        proof {
            assert(self@.take(self@.len() as int) =~= self@);
            assert(final(writer).written() =~= old(writer).written() + self.enc());
        }
    }

    proof fn enc_dec(v: Self, rest: Seq<u8>) {
        let s = v.enc() + rest;
        let n = v@.len() as u32;
        u32::enc_dec(n, elems_enc(v@) + rest);
        assert(n.enc() + (elems_enc(v@) + rest) =~= s);
        assert(s.skip(n.enc().len() as int) =~= elems_enc(v@) + rest);
        lemma_dec_elems_enc(v@, rest);
        let dv = |t: T| t.deep_view();
        assert forall|j: int| 0 <= j < v@.len() implies v.deep_view()[j] == v@.map_values(dv)[j]
            by {}
        assert(v.deep_view() =~= v@.map_values(dv));
    }
}

/// Reads `n` consecutive values, exactly as [`dec_elems`] says.
fn read_elems<T: Serialize, R: Reader>(reader: &mut R, n: u32) -> (r: Result<Vec<T>, ReadError>)
    ensures
        match r {
            Ok(v) => {
                &&& dec_elems::<T>(old(reader).remaining(), n as int) matches Some((vs, c)) && vs
                    == v.deep_view() && 0 <= c <= old(reader).remaining().len() && final(reader).remaining() == old(reader).remaining().skip(c)
            },
            Err(_) => dec_elems::<T>(old(reader).remaining(), n as int) is None,
        },
    decreases n,
{
    if n == 0 {
        let empty: Vec<T> = Vec::new();
        proof {
            assert(empty.deep_view() =~= Seq::<<T as DeepView>::V>::empty());
            assert(old(reader).remaining().skip(0) =~= old(reader).remaining());
        }
        return Ok(empty);
    }
    let v = match T::read(reader) {
        Ok(v) => v,
        Err(e) => {
            return Err(e);
        },
    };
    match read_elems::<T, R>(reader, n - 1) {
        Ok(mut vs) => {
            let ghost tail_dv = vs.deep_view();
            let ghost tail_elems = vs@;
            vs.insert(0, v);
            proof {
                let s = old(reader).remaining();
                let c = T::dec(s)->Some_0.1;
                let c2 = dec_elems::<T>(s.skip(c), n - 1 as int)->Some_0.1;
                assert(s.skip(c).skip(c2) =~= s.skip(c + c2));
                assert(vs@ == tail_elems.insert(0, v));
                assert forall|j: int| 0 <= j < vs@.len() implies vs.deep_view()[j] == (seq![
                    v.deep_view(),
                ] + tail_dv)[j] by {
                    if j > 0 {
                        assert(vs@[j] == tail_elems[j - 1]);
                        assert(tail_dv[j - 1] == tail_elems[j - 1].deep_view());
                    } else {
                        assert(vs@[0] == v);
                    }
                }
                assert(vs.deep_view() =~= seq![v.deep_view()] + tail_dv);
            }
            Ok(vs)
        },
        Err(e) => Err(e),
    }
}

} // verus!
