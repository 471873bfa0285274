//! The byte codec: little-endian integers, length-prefixed text, tagged options, counted maps.
//!
//! A [`Wire`] type states its encoding and its decoding as spec functions, and proves that a value
//! that fits its length fields is read back from its own bytes, whatever follows them.
use crate::objkey::{ObjKey, ObjModel, OrderKey};
use crate::order::Key;
use crate::ordmap::{
    ascending, has_row, lemma_row, row_of, rows_map, sorted_items, sorted_rows, OrdMap, OrdSet,
};
use vstd::prelude::*;
use vstd::slice::slice_subrange;
use vstd::utf8::{decode_utf8, encode_utf8, encode_utf8_decode_utf8, encode_utf8_valid_utf8, valid_utf8};

verus! {

/// A cursor over bytes.
pub struct Reader<'a> {
    b: &'a [u8],
    pos: usize,
}

impl<'a> Reader<'a> {
    #[verifier::type_invariant]
    pub closed spec fn in_bounds(&self) -> bool {
        self.pos <= self.b@.len()
    }

    /// The bytes not read yet.
    pub closed spec fn rest(&self) -> Seq<u8> {
        self.b@.skip(self.pos as int)
    }

    /// A cursor at the start of `b`.
    pub fn new(b: &'a [u8]) -> (r: Self)
        ensures
            r.rest() == b@,
    {
        let r = Reader { b, pos: 0 };
        assert(r.rest() =~= b@);
        r
    }

    /// Whether every byte was read.
    pub fn done(&self) -> (r: bool)
        ensures
            r == (self.rest().len() == 0),
    {
        proof {
            use_type_invariant(self);
        }
        self.pos == self.b.len()
    }

    /// The number of bytes left.
    pub fn remaining(&self) -> (r: usize)
        ensures
            r == self.rest().len(),
    {
        proof {
            use_type_invariant(self);
        }
        self.b.len() - self.pos
    }

    /// Read `n` bytes, if there are as many.
    pub fn take(&mut self, n: usize) -> (r: Option<&'a [u8]>)
        ensures
            r is Some == (n <= old(self).rest().len()),
            r matches Some(s) ==> s@ == old(self).rest().take(n as int) && final(self).rest()
                == old(self).rest().skip(n as int),
            r is None ==> final(self).rest() == old(self).rest(),
    {
        proof {
            use_type_invariant(&*self);
        }
        if n > self.b.len() - self.pos {
            return None;
        }
        let end: usize = self.pos + n;
        let s = slice_subrange(self.b, self.pos, end);
        proof {
            assert(s@ =~= self.rest().take(n as int));
            assert(self.b@.skip(end as int) =~= self.rest().skip(n as int));
        }
        self.pos = end;
        Some(s)
    }
}

/// A value with a byte encoding.
pub trait Wire: DeepView + Sized {
    /// The bytes of a value.
    spec fn enc(v: <Self as DeepView>::V) -> Seq<u8>;

    /// The value at the front of some bytes, and what follows it.
    spec fn dec(s: Seq<u8>) -> Option<(<Self as DeepView>::V, Seq<u8>)>;

    /// Whether the lengths inside a value fit their length fields.
    spec fn fits(v: <Self as DeepView>::V) -> bool;

    /// A value that fits is read back.
    proof fn round_trip(v: <Self as DeepView>::V, tail: Seq<u8>)
        requires
            Self::fits(v),
        ensures
            Self::dec(Self::enc(v) + tail) == Some((v, tail)),
    ;

    /// What is read from the front of some bytes does not depend on what follows.
    proof fn front(s: Seq<u8>, t: Seq<u8>)
        requires
            Self::dec(s) is Some,
        ensures
            Self::dec(s + t) == Some(((Self::dec(s)->0).0, (Self::dec(s)->0).1 + t)),
    ;

    /// Append the bytes of the value.
    fn put(&self, buf: &mut Vec<u8>)
        ensures
            final(buf)@ == old(buf)@ + Self::enc(self.deep_view()),
    ;

    /// Read a value.
    fn read(r: &mut Reader) -> (o: Option<Self>)
        ensures
            o is Some == Self::dec(old(r).rest()) is Some,
            o matches Some(v) ==> Self::dec(old(r).rest()) == Some(
                (v.deep_view(), final(r).rest()),
            ),
    ;
}

impl Wire for u8 {
    open spec fn enc(v: u8) -> Seq<u8> {
        seq![v]
    }

    open spec fn dec(s: Seq<u8>) -> Option<(u8, Seq<u8>)> {
        if s.len() >= 1 {
            Some((s[0], s.skip(1)))
        } else {
            None
        }
    }

    open spec fn fits(v: u8) -> bool {
        true
    }

    proof fn round_trip(v: u8, tail: Seq<u8>) {
        let s = seq![v] + tail;
        assert(s.skip(1) =~= tail);
        assert(<u8 as Wire>::dec(s) == Some((s[0], s.skip(1))));
    }

    proof fn front(s: Seq<u8>, t: Seq<u8>) {
        assert((s + t).skip(1) =~= s.skip(1) + t);
    }

    fn put(&self, buf: &mut Vec<u8>) {
        buf.push(*self);
        assert(buf@ =~= old(buf)@ + seq![*self]);
    }

    fn read(r: &mut Reader) -> (o: Option<Self>) {
        match r.take(1) {
            Some(s) => Some(s[0]),
            None => None,
        }
    }
}

/// The bytes of a 32-bit number, the low byte first.
#[verifier::opaque]
pub open spec fn u32_bytes(v: u32) -> Seq<u8> {
    let lo = v % 0x1_0000;
    let hi = v / 0x1_0000;
    seq![(lo % 0x100) as u8, (lo / 0x100) as u8, (hi % 0x100) as u8, (hi / 0x100) as u8]
}

/// The 32-bit number that four bytes are.
#[verifier::opaque]
pub open spec fn u32_value(s: Seq<u8>) -> u32 {
    (s[0] + 0x100 * s[1] + 0x1_0000 * (s[2] + 0x100 * s[3])) as u32
}

/// The bytes of a 64-bit number, the low half first.
#[verifier::opaque]
pub open spec fn u64_bytes(v: u64) -> Seq<u8> {
    u32_bytes((v % 0x1_0000_0000) as u32) + u32_bytes((v / 0x1_0000_0000) as u32)
}

/// The 64-bit number that eight bytes are.
#[verifier::opaque]
pub open spec fn u64_value(s: Seq<u8>) -> u64 {
    (u32_value(s.take(4)) + 0x1_0000_0000 * u32_value(s.skip(4))) as u64
}

proof fn lemma_u32_value(v: u32)
    ensures
        u32_bytes(v).len() == 4,
        u32_value(u32_bytes(v)) == v,
{
    reveal(u32_bytes);
    reveal(u32_value);
}

proof fn lemma_u32_bytes(s: Seq<u8>)
    requires
        s.len() == 4,
    ensures
        u32_bytes(u32_value(s)) == s,
{
    reveal(u32_bytes);
    reveal(u32_value);
    assert(u32_bytes(u32_value(s)) =~= s);
}

proof fn lemma_u64_value(v: u64)
    ensures
        u64_bytes(v).len() == 8,
        u64_value(u64_bytes(v)) == v,
{
    reveal(u64_bytes);
    reveal(u64_value);
    let a = u32_bytes((v % 0x1_0000_0000) as u32);
    let b = u32_bytes((v / 0x1_0000_0000) as u32);
    lemma_u32_value((v % 0x1_0000_0000) as u32);
    lemma_u32_value((v / 0x1_0000_0000) as u32);
    assert(u64_bytes(v).take(4) =~= a);
    assert(u64_bytes(v).skip(4) =~= b);
}

proof fn lemma_u64_bytes(s: Seq<u8>)
    requires
        s.len() == 8,
    ensures
        u64_bytes(u64_value(s)) == s,
{
    reveal(u64_bytes);
    reveal(u64_value);
    let a = s.take(4);
    let b = s.skip(4);
    lemma_u32_bytes(a);
    lemma_u32_bytes(b);
    assert(u64_value(s) % 0x1_0000_0000 == u32_value(a));
    assert(u64_value(s) / 0x1_0000_0000 == u32_value(b));
    assert(a + b =~= s);
}

/// Bytes and numbers are one for one.
pub proof fn lemma_number_bytes()
    ensures
        forall|v: u32| (#[trigger] u32_bytes(v)).len() == 4 && u32_value(u32_bytes(v)) == v,
        forall|s: Seq<u8>| s.len() == 4 ==> u32_bytes(#[trigger] u32_value(s)) == s,
        forall|v: u64| (#[trigger] u64_bytes(v)).len() == 8 && u64_value(u64_bytes(v)) == v,
        forall|s: Seq<u8>| s.len() == 8 ==> u64_bytes(#[trigger] u64_value(s)) == s,
{
    assert forall|v: u32| (#[trigger] u32_bytes(v)).len() == 4 && u32_value(u32_bytes(v)) == v by {
        lemma_u32_value(v);
    }
    assert forall|s: Seq<u8>| s.len() == 4 implies u32_bytes(#[trigger] u32_value(s)) == s by {
        lemma_u32_bytes(s);
    }
    assert forall|v: u64| (#[trigger] u64_bytes(v)).len() == 8 && u64_value(u64_bytes(v)) == v by {
        lemma_u64_value(v);
    }
    assert forall|s: Seq<u8>| s.len() == 8 implies u64_bytes(#[trigger] u64_value(s)) == s by {
        lemma_u64_bytes(s);
    }
}

fn put_u32(v: u32, buf: &mut Vec<u8>)
    ensures
        final(buf)@ == old(buf)@ + u32_bytes(v),
{
    let lo: u32 = v % 0x1_0000;
    let hi: u32 = v / 0x1_0000;
    buf.push((lo % 0x100) as u8);
    buf.push((lo / 0x100) as u8);
    buf.push((hi % 0x100) as u8);
    buf.push((hi / 0x100) as u8);
    proof {
        reveal(u32_bytes);
        assert(buf@ =~= old(buf)@ + u32_bytes(v));
    }
}

fn u32_of(s: &[u8]) -> (r: u32)
    requires
        s.len() == 4,
    ensures
        r == u32_value(s@),
{
    let lo: u32 = s[0] as u32 + 0x100 * (s[1] as u32);
    let hi: u32 = s[2] as u32 + 0x100 * (s[3] as u32);
    proof {
        reveal(u32_value);
    }
    lo + 0x1_0000 * hi
}

fn put_u64(v: u64, buf: &mut Vec<u8>)
    ensures
        final(buf)@ == old(buf)@ + u64_bytes(v),
{
    put_u32((v % 0x1_0000_0000) as u32, buf);
    put_u32((v / 0x1_0000_0000) as u32, buf);
    proof {
        reveal(u64_bytes);
        assert(buf@ =~= old(buf)@ + u64_bytes(v));
    }
}

fn u64_of(s: &[u8]) -> (r: u64)
    requires
        s.len() == 8,
    ensures
        r == u64_value(s@),
{
    let a = slice_subrange(s, 0, 4);
    let b = slice_subrange(s, 4, 8);
    let lo: u32 = u32_of(a);
    let hi: u32 = u32_of(b);
    proof {
        reveal(u64_value);
        assert(a@ =~= s@.take(4));
        assert(b@ =~= s@.skip(4));
    }
    lo as u64 + 0x1_0000_0000 * (hi as u64)
}

/// A 32-bit number, the low byte first.
impl Wire for u32 {
    open spec fn enc(v: u32) -> Seq<u8> {
        u32_bytes(v)
    }

    open spec fn dec(s: Seq<u8>) -> Option<(u32, Seq<u8>)> {
        if s.len() >= 4 {
            Some((u32_value(s.take(4)), s.skip(4)))
        } else {
            None
        }
    }

    open spec fn fits(v: u32) -> bool {
        true
    }

    proof fn round_trip(v: u32, tail: Seq<u8>) {
        lemma_number_bytes();
        let s = u32_bytes(v) + tail;
        assert(s.take(4) =~= u32_bytes(v));
        assert(s.skip(4) =~= tail);
    }

    proof fn front(s: Seq<u8>, t: Seq<u8>) {
        assert((s + t).take(4) =~= s.take(4));
        assert((s + t).skip(4) =~= s.skip(4) + t);
    }

    fn put(&self, buf: &mut Vec<u8>) {
        put_u32(*self, buf)
    }

    fn read(r: &mut Reader) -> (o: Option<Self>) {
        match r.take(4) {
            Some(s) => Some(u32_of(s)),
            None => None,
        }
    }
}

/// A 64-bit number, the low byte first.
impl Wire for u64 {
    open spec fn enc(v: u64) -> Seq<u8> {
        u64_bytes(v)
    }

    open spec fn dec(s: Seq<u8>) -> Option<(u64, Seq<u8>)> {
        if s.len() >= 8 {
            Some((u64_value(s.take(8)), s.skip(8)))
        } else {
            None
        }
    }

    open spec fn fits(v: u64) -> bool {
        true
    }

    proof fn round_trip(v: u64, tail: Seq<u8>) {
        lemma_number_bytes();
        let s = u64_bytes(v) + tail;
        assert(s.take(8) =~= u64_bytes(v));
        assert(s.skip(8) =~= tail);
    }

    proof fn front(s: Seq<u8>, t: Seq<u8>) {
        assert((s + t).take(8) =~= s.take(8));
        assert((s + t).skip(8) =~= s.skip(8) + t);
    }

    fn put(&self, buf: &mut Vec<u8>) {
        put_u64(*self, buf)
    }

    fn read(r: &mut Reader) -> (o: Option<Self>) {
        match r.take(8) {
            Some(s) => Some(u64_of(s)),
            None => None,
        }
    }
}

/// The two's-complement bits of an integer.
pub open spec fn i64_bits(v: i64) -> u64 {
    if v >= 0 {
        v as u64
    } else {
        (v + 0x1_0000_0000_0000_0000) as u64
    }
}

/// The integer that has these two's-complement bits.
pub open spec fn bits_i64(b: u64) -> i64 {
    if b <= i64::MAX {
        b as i64
    } else {
        (b - 0x1_0000_0000_0000_0000) as i64
    }
}

fn to_bits(v: i64) -> (r: u64)
    ensures
        r == i64_bits(v),
{
    if v >= 0 {
        v as u64
    } else {
        (v + i64::MAX + 1) as u64 + 0x8000_0000_0000_0000u64
    }
}

fn from_bits(b: u64) -> (r: i64)
    ensures
        r == bits_i64(b),
{
    if b <= i64::MAX as u64 {
        b as i64
    } else {
        (b - 0x8000_0000_0000_0000u64) as i64 + i64::MIN
    }
}

impl Wire for i64 {
    open spec fn enc(v: i64) -> Seq<u8> {
        <u64 as Wire>::enc(i64_bits(v))
    }

    open spec fn dec(s: Seq<u8>) -> Option<(i64, Seq<u8>)> {
        match <u64 as Wire>::dec(s) {
            Some(x) => Some((bits_i64(x.0), x.1)),
            None => None,
        }
    }

    open spec fn fits(v: i64) -> bool {
        true
    }

    proof fn round_trip(v: i64, tail: Seq<u8>) {
        <u64 as Wire>::round_trip(i64_bits(v), tail);
        assert(bits_i64(i64_bits(v)) == v);
    }

    proof fn front(s: Seq<u8>, t: Seq<u8>) {
        <u64 as Wire>::front(s, t);
    }

    fn put(&self, buf: &mut Vec<u8>) {
        to_bits(*self).put(buf)
    }

    fn read(r: &mut Reader) -> (o: Option<Self>) {
        match <u64 as Wire>::read(r) {
            Some(b) => Some(from_bits(b)),
            None => None,
        }
    }
}

/// A count as a 32-bit length field: its low 32 bits.
pub open spec fn count32(n: nat) -> u32 {
    (n % 0x1_0000_0000) as u32
}

/// Append a count as a 32-bit length field.
pub fn put_count(n: usize, buf: &mut Vec<u8>)
    ensures
        final(buf)@ == old(buf)@ + <u32 as Wire>::enc(count32(n as nat)),
{
    let c: u32 = ((n as u64) % 0x1_0000_0000u64) as u32;
    c.put(buf);
}

/// `String::from_utf8` of std: text if and only if the bytes are valid UTF-8, and then the text
/// with exactly those bytes.
#[verifier::external_body]
fn text_from_utf8(bytes: Vec<u8>) -> (r: Option<String>)
    ensures
        r is Some == valid_utf8(bytes@),
        r matches Some(t) ==> encode_utf8(t@) == bytes@,
{
    String::from_utf8(bytes).ok()
}

fn copy_bytes(s: &[u8]) -> (r: Vec<u8>)
    ensures
        r@ == s@,
{
    let mut out: Vec<u8> = Vec::new();
    let mut i: usize = 0;
    while i < s.len()
        invariant
            i <= s.len(),
            out@ == s@.take(i as int),
        decreases s.len() - i,
    {
        out.push(s[i]);
        proof {
            assert(s@.take(i + 1) =~= s@.take(i as int).push(s@[i as int]));
        }
        i += 1;
    }
    assert(s@.take(i as int) =~= s@);
    out
}

fn append_bytes(buf: &mut Vec<u8>, s: &[u8])
    ensures
        final(buf)@ == old(buf)@ + s@,
{
    let mut b = copy_bytes(s);
    buf.append(&mut b);
}

/// Append length-prefixed text.
pub fn put_str(buf: &mut Vec<u8>, s: &str)
    ensures
        final(buf)@ == old(buf)@ + <String as Wire>::enc(s@),
{
    let b = s.as_bytes();
    put_count(b.len(), buf);
    append_bytes(buf, b);
    assert(buf@ =~= old(buf)@ + <String as Wire>::enc(s@));
}

impl Wire for String {
    open spec fn enc(v: Seq<char>) -> Seq<u8> {
        <u32 as Wire>::enc(count32(encode_utf8(v).len())) + encode_utf8(v)
    }

    open spec fn dec(s: Seq<u8>) -> Option<(Seq<char>, Seq<u8>)> {
        match <u32 as Wire>::dec(s) {
            Some(x) => if x.0 <= x.1.len() && valid_utf8(x.1.take(x.0 as int)) {
                Some((decode_utf8(x.1.take(x.0 as int)), x.1.skip(x.0 as int)))
            } else {
                None
            },
            None => None,
        }
    }

    open spec fn fits(v: Seq<char>) -> bool {
        encode_utf8(v).len() <= u32::MAX
    }

    proof fn round_trip(v: Seq<char>, tail: Seq<u8>) {
        let b = encode_utf8(v);
        let n = count32(b.len());
        assert(n == b.len());
        <u32 as Wire>::round_trip(n, b + tail);
        let s = <String as Wire>::enc(v) + tail;
        assert(s =~= <u32 as Wire>::enc(n) + (b + tail));
        assert((b + tail).take(n as int) =~= b);
        assert((b + tail).skip(n as int) =~= tail);
        encode_utf8_valid_utf8(v);
        encode_utf8_decode_utf8(v);
    }

    proof fn front(s: Seq<u8>, t: Seq<u8>) {
        <u32 as Wire>::front(s, t);
        let x = <u32 as Wire>::dec(s)->0;
        let n = x.0 as int;
        assert((x.1 + t).take(n) =~= x.1.take(n));
        assert((x.1 + t).skip(n) =~= x.1.skip(n) + t);
    }

    fn put(&self, buf: &mut Vec<u8>) {
        put_str(buf, self.as_str())
    }

    fn read(r: &mut Reader) -> (o: Option<Self>) {
        let len: u32 = match <u32 as Wire>::read(r) {
            Some(n) => n,
            None => {
                return None;
            },
        };
        match r.take(len as usize) {
            Some(s) => {
                let o = text_from_utf8(copy_bytes(s));
                proof {
                    if o is Some {
                        encode_utf8_decode_utf8(o->0@);
                    }
                }
                o
            },
            None => None,
        }
    }
}

/// Append a boolean as one byte.
fn put_bool(b: bool, buf: &mut Vec<u8>)
    ensures
        final(buf)@ == old(buf)@ + bool_bytes(b),
{
    let t: u8 = if b {
        1
    } else {
        0
    };
    t.put(buf);
}

/// The byte of a boolean.
pub open spec fn bool_bytes(b: bool) -> Seq<u8> {
    <u8 as Wire>::enc(
        if b {
            1u8
        } else {
            0u8
        },
    )
}

/// An object: a variant tag, then its content. A boolean reads as true from any byte but zero.
impl Wire for ObjKey {
    open spec fn enc(v: ObjModel) -> Seq<u8> {
        match v {
            ObjModel::Node(n) => <u8 as Wire>::enc(0u8) + <u64 as Wire>::enc(n),
            ObjModel::Int(i) => <u8 as Wire>::enc(1u8) + <i64 as Wire>::enc(i),
            ObjModel::Float(b) => <u8 as Wire>::enc(2u8) + <u64 as Wire>::enc(b),
            ObjModel::Text(t) => <u8 as Wire>::enc(3u8) + <String as Wire>::enc(t),
            ObjModel::Bool(b) => <u8 as Wire>::enc(4u8) + bool_bytes(b),
        }
    }

    open spec fn dec(s: Seq<u8>) -> Option<(ObjModel, Seq<u8>)> {
        match <u8 as Wire>::dec(s) {
            None => None,
            Some(tag) => match tag.0 {
                0u8 => match <u64 as Wire>::dec(tag.1) {
                    Some(x) => Some((ObjModel::Node(x.0), x.1)),
                    None => None,
                },
                1u8 => match <i64 as Wire>::dec(tag.1) {
                    Some(x) => Some((ObjModel::Int(x.0), x.1)),
                    None => None,
                },
                2u8 => match <u64 as Wire>::dec(tag.1) {
                    Some(x) => Some((ObjModel::Float(x.0), x.1)),
                    None => None,
                },
                3u8 => match <String as Wire>::dec(tag.1) {
                    Some(x) => Some((ObjModel::Text(x.0), x.1)),
                    None => None,
                },
                4u8 => match <u8 as Wire>::dec(tag.1) {
                    Some(x) => Some((ObjModel::Bool(x.0 != 0), x.1)),
                    None => None,
                },
                _ => None,
            },
        }
    }

    open spec fn fits(v: ObjModel) -> bool {
        match v {
            ObjModel::Text(t) => <String as Wire>::fits(t),
            _ => true,
        }
    }

    proof fn round_trip(v: ObjModel, tail: Seq<u8>) {
        let s = Self::enc(v) + tail;
        match v {
            ObjModel::Node(n) => {
                assert(s =~= <u8 as Wire>::enc(0u8) + (<u64 as Wire>::enc(n) + tail));
                <u8 as Wire>::round_trip(0u8, <u64 as Wire>::enc(n) + tail);
                <u64 as Wire>::round_trip(n, tail);
            },
            ObjModel::Int(n) => {
                assert(s =~= <u8 as Wire>::enc(1u8) + (<i64 as Wire>::enc(n) + tail));
                <u8 as Wire>::round_trip(1u8, <i64 as Wire>::enc(n) + tail);
                <i64 as Wire>::round_trip(n, tail);
            },
            ObjModel::Float(n) => {
                assert(s =~= <u8 as Wire>::enc(2u8) + (<u64 as Wire>::enc(n) + tail));
                <u8 as Wire>::round_trip(2u8, <u64 as Wire>::enc(n) + tail);
                <u64 as Wire>::round_trip(n, tail);
            },
            ObjModel::Text(n) => {
                assert(s =~= <u8 as Wire>::enc(3u8) + (<String as Wire>::enc(n) + tail));
                <u8 as Wire>::round_trip(3u8, <String as Wire>::enc(n) + tail);
                <String as Wire>::round_trip(n, tail);
            },
            ObjModel::Bool(n) => {
                let t: u8 = if n {
                    1
                } else {
                    0
                };
                assert(s =~= <u8 as Wire>::enc(4u8) + (<u8 as Wire>::enc(t) + tail));
                <u8 as Wire>::round_trip(4u8, <u8 as Wire>::enc(t) + tail);
                <u8 as Wire>::round_trip(t, tail);
            },
        }
    }

    proof fn front(s: Seq<u8>, t: Seq<u8>) {
        <u8 as Wire>::front(s, t);
        let tag = <u8 as Wire>::dec(s)->0;
        match tag.0 {
            0u8 => {
                <u64 as Wire>::front(tag.1, t);
            },
            1u8 => {
                <i64 as Wire>::front(tag.1, t);
            },
            2u8 => {
                <u64 as Wire>::front(tag.1, t);
            },
            3u8 => {
                <String as Wire>::front(tag.1, t);
            },
            _ => {
                <u8 as Wire>::front(tag.1, t);
            },
        }
    }

    fn put(&self, buf: &mut Vec<u8>) {
        match self {
            ObjKey::Node(n) => {
                0u8.put(buf);
                n.put(buf);
            },
            ObjKey::Int(i) => {
                1u8.put(buf);
                i.put(buf);
            },
            ObjKey::Float(b) => {
                2u8.put(buf);
                b.put(buf);
            },
            ObjKey::Text(t) => {
                3u8.put(buf);
                t.put(buf);
            },
            ObjKey::Bool(b) => {
                4u8.put(buf);
                put_bool(*b, buf);
            },
        }
        assert(buf@ =~= old(buf)@ + Self::enc(self.deep_view()));
    }

    fn read(r: &mut Reader) -> (o: Option<Self>) {
        let tag: u8 = match <u8 as Wire>::read(r) {
            Some(t) => t,
            None => {
                return None;
            },
        };
        match tag {
            0 => match <u64 as Wire>::read(r) {
                Some(x) => Some(ObjKey::Node(x)),
                None => None,
            },
            1 => match <i64 as Wire>::read(r) {
                Some(x) => Some(ObjKey::Int(x)),
                None => None,
            },
            2 => match <u64 as Wire>::read(r) {
                Some(x) => Some(ObjKey::Float(x)),
                None => None,
            },
            3 => match <String as Wire>::read(r) {
                Some(x) => Some(ObjKey::Text(x)),
                None => None,
            },
            4 => match <u8 as Wire>::read(r) {
                Some(x) => Some(ObjKey::Bool(x != 0)),
                None => None,
            },
            _ => None,
        }
    }
}

/// A pair: one after the other.
impl<A: Wire, B: Wire> Wire for (A, B) {
    open spec fn enc(v: (<A as DeepView>::V, <B as DeepView>::V)) -> Seq<u8> {
        A::enc(v.0) + B::enc(v.1)
    }

    open spec fn dec(s: Seq<u8>) -> Option<
        ((<A as DeepView>::V, <B as DeepView>::V), Seq<u8>),
    > {
        match A::dec(s) {
            None => None,
            Some(a) => match B::dec(a.1) {
                None => None,
                Some(b) => Some(((a.0, b.0), b.1)),
            },
        }
    }

    open spec fn fits(v: (<A as DeepView>::V, <B as DeepView>::V)) -> bool {
        A::fits(v.0) && B::fits(v.1)
    }

    proof fn round_trip(v: (<A as DeepView>::V, <B as DeepView>::V), tail: Seq<u8>) {
        assert(Self::enc(v) + tail =~= A::enc(v.0) + (B::enc(v.1) + tail));
        A::round_trip(v.0, B::enc(v.1) + tail);
        B::round_trip(v.1, tail);
    }

    proof fn front(s: Seq<u8>, t: Seq<u8>) {
        A::front(s, t);
        B::front((A::dec(s)->0).1, t);
    }

    fn put(&self, buf: &mut Vec<u8>) {
        self.0.put(buf);
        self.1.put(buf);
        assert(buf@ =~= old(buf)@ + Self::enc(self.deep_view()));
    }

    fn read(r: &mut Reader) -> (o: Option<Self>) {
        let a = match A::read(r) {
            Some(a) => a,
            None => {
                return None;
            },
        };
        match B::read(r) {
            Some(b) => Some((a, b)),
            None => None,
        }
    }
}

/// An order key: transaction time, source, sequence number.
impl Wire for OrderKey {
    open spec fn enc(v: OrderKey) -> Seq<u8> {
        <((u64, u32), u64) as Wire>::enc(((v.tx, v.source), v.seq))
    }

    open spec fn dec(s: Seq<u8>) -> Option<(OrderKey, Seq<u8>)> {
        match <((u64, u32), u64) as Wire>::dec(s) {
            Some(x) => Some(
                (OrderKey { tx: x.0.0.0, source: x.0.0.1, seq: x.0.1 }, x.1),
            ),
            None => None,
        }
    }

    open spec fn fits(v: OrderKey) -> bool {
        true
    }

    proof fn round_trip(v: OrderKey, tail: Seq<u8>) {
        <((u64, u32), u64) as Wire>::round_trip(((v.tx, v.source), v.seq), tail);
    }

    proof fn front(s: Seq<u8>, t: Seq<u8>) {
        <((u64, u32), u64) as Wire>::front(s, t);
    }

    fn put(&self, buf: &mut Vec<u8>) {
        ((self.tx, self.source), self.seq).put(buf)
    }

    fn read(r: &mut Reader) -> (o: Option<Self>) {
        match <((u64, u32), u64) as Wire>::read(r) {
            Some(x) => {
                let ((tx, source), seq) = x;
                Some(OrderKey { tx, source, seq })
            },
            None => None,
        }
    }
}

/// An option: a zero byte, or a one byte and the value. Any other tag is malformed.
impl<T: Wire> Wire for Option<T> {
    open spec fn enc(v: Option<<T as DeepView>::V>) -> Seq<u8> {
        match v {
            Some(x) => <u8 as Wire>::enc(1u8) + T::enc(x),
            None => <u8 as Wire>::enc(0u8),
        }
    }

    open spec fn dec(s: Seq<u8>) -> Option<(Option<<T as DeepView>::V>, Seq<u8>)> {
        match <u8 as Wire>::dec(s) {
            None => None,
            Some(tag) => match tag.0 {
                0u8 => Some((None, tag.1)),
                1u8 => match T::dec(tag.1) {
                    Some(x) => Some((Some(x.0), x.1)),
                    None => None,
                },
                _ => None,
            },
        }
    }

    open spec fn fits(v: Option<<T as DeepView>::V>) -> bool {
        v matches Some(x) ==> T::fits(x)
    }

    proof fn round_trip(v: Option<<T as DeepView>::V>, tail: Seq<u8>) {
        match v {
            Some(x) => {
                assert(Self::enc(v) + tail =~= <u8 as Wire>::enc(1u8) + (T::enc(x) + tail));
                <u8 as Wire>::round_trip(1u8, T::enc(x) + tail);
                T::round_trip(x, tail);
            },
            None => {
                <u8 as Wire>::round_trip(0u8, tail);
            },
        }
    }

    proof fn front(s: Seq<u8>, t: Seq<u8>) {
        <u8 as Wire>::front(s, t);
        let tag = <u8 as Wire>::dec(s)->0;
        if tag.0 == 1 {
            T::front(tag.1, t);
        }
    }

    fn put(&self, buf: &mut Vec<u8>) {
        match self {
            Some(x) => {
                1u8.put(buf);
                x.put(buf);
            },
            None => {
                0u8.put(buf);
            },
        }
        assert(buf@ =~= old(buf)@ + Self::enc(self.deep_view()));
    }

    fn read(r: &mut Reader) -> (o: Option<Self>) {
        let tag: u8 = match <u8 as Wire>::read(r) {
            Some(t) => t,
            None => {
                return None;
            },
        };
        match tag {
            0 => Some(None),
            1 => match T::read(r) {
                Some(x) => Some(Some(x)),
                None => None,
            },
            _ => None,
        }
    }
}

/// The bytes of a list's items, one after the other.
pub open spec fn enc_list<T: Wire>(s: Seq<<T as DeepView>::V>) -> Seq<u8>
    decreases s.len(),
{
    if s.len() == 0 {
        Seq::empty()
    } else {
        enc_list::<T>(s.drop_last()) + T::enc(s.last())
    }
}

/// `n` items at the front of some bytes, and what follows them.
pub open spec fn dec_list<T: Wire>(n: nat, s: Seq<u8>) -> Option<
    (Seq<<T as DeepView>::V>, Seq<u8>),
>
    decreases n,
{
    if n == 0 {
        Some((Seq::empty(), s))
    } else {
        match dec_list::<T>((n - 1) as nat, s) {
            None => None,
            Some(x) => match T::dec(x.1) {
                None => None,
                Some(y) => Some((x.0.push(y.0), y.1)),
            },
        }
    }
}

/// Where `n` items can be read, so can fewer.
pub proof fn lemma_dec_list_fewer<T: Wire>(n: nat, m: nat, s: Seq<u8>)
    requires
        m <= n,
        dec_list::<T>(n, s) is Some,
    ensures
        dec_list::<T>(m, s) is Some,
    decreases n,
{
    if m < n {
        lemma_dec_list_fewer::<T>((n - 1) as nat, m, s);
    }
}

/// Items that fit are read back.
pub proof fn lemma_list_round_trip<T: Wire>(s: Seq<<T as DeepView>::V>, tail: Seq<u8>)
    requires
        forall|i: int| 0 <= i < s.len() ==> T::fits(#[trigger] s[i]),
    ensures
        dec_list::<T>(s.len(), enc_list::<T>(s) + tail) == Some((s, tail)),
    decreases s.len(),
{
    if s.len() == 0 {
        assert(enc_list::<T>(s) + tail =~= tail);
        assert(s =~= Seq::empty());
    } else {
        let init = s.drop_last();
        let x = s.last();
        assert(T::fits(s[s.len() - 1]));
        assert forall|i: int| 0 <= i < init.len() implies T::fits(#[trigger] init[i]) by {
            assert(init[i] == s[i]);
        }
        lemma_list_round_trip::<T>(init, T::enc(x) + tail);
        assert(enc_list::<T>(s) + tail =~= enc_list::<T>(init) + (T::enc(x) + tail));
        T::round_trip(x, tail);
        assert(init.push(x) =~= s);
    }
}

/// What is read as items from the front of some bytes does not depend on what follows.
proof fn lemma_list_front<T: Wire>(n: nat, s: Seq<u8>, t: Seq<u8>)
    requires
        dec_list::<T>(n, s) is Some,
    ensures
        dec_list::<T>(n, s + t) == Some(
            ((dec_list::<T>(n, s)->0).0, (dec_list::<T>(n, s)->0).1 + t),
        ),
    decreases n,
{
    if n > 0 {
        let m = (n - 1) as nat;
        lemma_list_front::<T>(m, s, t);
        T::front((dec_list::<T>(m, s)->0).1, t);
    }
}

/// A counted list.
impl<T: Wire> Wire for Vec<T> {
    open spec fn enc(v: Seq<<T as DeepView>::V>) -> Seq<u8> {
        <u32 as Wire>::enc(count32(v.len())) + enc_list::<T>(v)
    }

    open spec fn dec(s: Seq<u8>) -> Option<(Seq<<T as DeepView>::V>, Seq<u8>)> {
        match <u32 as Wire>::dec(s) {
            None => None,
            Some(n) => dec_list::<T>(n.0 as nat, n.1),
        }
    }

    open spec fn fits(v: Seq<<T as DeepView>::V>) -> bool {
        v.len() <= u32::MAX && forall|i: int| 0 <= i < v.len() ==> T::fits(#[trigger] v[i])
    }

    proof fn round_trip(v: Seq<<T as DeepView>::V>, tail: Seq<u8>) {
        let n = count32(v.len());
        assert(n == v.len());
        <u32 as Wire>::round_trip(n, enc_list::<T>(v) + tail);
        assert(Self::enc(v) + tail =~= <u32 as Wire>::enc(n) + (enc_list::<T>(v) + tail));
        lemma_list_round_trip::<T>(v, tail);
    }

    proof fn front(s: Seq<u8>, t: Seq<u8>) {
        <u32 as Wire>::front(s, t);
        let n = <u32 as Wire>::dec(s)->0;
        lemma_list_front::<T>(n.0 as nat, n.1, t);
    }

    fn put(&self, buf: &mut Vec<u8>) {
        put_count(self.len(), buf);
        let ghost v = self.deep_view();
        let ghost head = buf@;
        let mut i: usize = 0;
        assert(v.take(0) =~= Seq::empty());
        assert(head + enc_list::<T>(v.take(0)) =~= head);
        while i < self.len()
            invariant
                i <= self.len(),
                v == self.deep_view(),
                buf@ == head + enc_list::<T>(v.take(i as int)),
            decreases self.len() - i,
        {
            self[i].put(buf);
            proof {
                let w = v.take(i + 1);
                assert(w.drop_last() =~= v.take(i as int));
                assert(w.last() == self@[i as int].deep_view());
                assert(buf@ =~= head + enc_list::<T>(w));
            }
            i += 1;
        }
        assert(v.take(i as int) =~= v);
        assert(buf@ =~= old(buf)@ + Self::enc(v));
    }

    fn read(r: &mut Reader) -> (o: Option<Self>) {
        let n: u32 = match <u32 as Wire>::read(r) {
            Some(n) => n,
            None => {
                return None;
            },
        };
        let ghost s0 = r.rest();
        let mut out: Vec<T> = Vec::new();
        let mut i: u32 = 0;
        assert(out.deep_view() =~= Seq::<<T as DeepView>::V>::empty());
        while i < n
            invariant
                i <= n,
                dec_list::<T>(i as nat, s0) == Some((out.deep_view(), r.rest())),
                Self::dec(old(r).rest()) == dec_list::<T>(n as nat, s0),
            decreases n - i,
        {
            let ghost before = out.deep_view();
            match T::read(r) {
                Some(x) => {
                    out.push(x);
                    assert(out.deep_view() =~= before.push(x.deep_view()));
                },
                None => {
                    proof {
                        assert(dec_list::<T>((i + 1) as nat, s0) is None);
                        if dec_list::<T>(n as nat, s0) is Some {
                            lemma_dec_list_fewer::<T>(n as nat, (i + 1) as nat, s0);
                        }
                    }
                    return None;
                },
            }
            i += 1;
        }
        Some(out)
    }
}

/// The map that rows make when inserted in order, a later one in place of an earlier.
pub open spec fn insert_all<KV, T>(rows: Seq<(KV, T)>) -> Map<KV, T>
    decreases rows.len(),
{
    if rows.len() == 0 {
        Map::empty()
    } else {
        insert_all(rows.drop_last()).insert(rows.last().0, rows.last().1)
    }
}

/// Ascending rows make the map that they stand for.
pub proof fn lemma_insert_all<K: Key, T>(rows: Seq<(<K as DeepView>::V, T)>)
    requires
        ascending::<K, T>(rows),
    ensures
        insert_all(rows) == rows_map(rows),
    decreases rows.len(),
{
    if rows.len() == 0 {
        assert(insert_all(rows) =~= rows_map(rows));
    } else {
        let init = rows.drop_last();
        assert forall|i: int, j: int| 0 <= i < j < init.len() implies K::before(
            (#[trigger] init[i]).0,
            (#[trigger] init[j]).0,
        ) by {
            assert(K::before(rows[i].0, rows[j].0));
        }
        lemma_insert_all::<K, T>(init);
        let l = insert_all(rows);
        let r = rows_map(rows);
        let z = rows.last();
        assert forall|k: <K as DeepView>::V|
            #![trigger l.dom().contains(k)]
            #![trigger r.dom().contains(k)]
            l.dom().contains(k) == r.dom().contains(k) && (l.dom().contains(k) ==> l[k]
                == r[k]) by {
            if has_row(init, k) {
                let i = row_of(init, k);
                assert(rows[i] == init[i]);
                lemma_row::<K, T>(rows, i);
                lemma_row::<K, T>(init, i);
            }
            lemma_row::<K, T>(rows, rows.len() - 1);
            if has_row(rows, k) {
                let i = row_of(rows, k);
                if i < init.len() {
                    assert(init[i] == rows[i]);
                    assert(has_row(init, k));
                    lemma_row::<K, T>(rows, i);
                    K::before_irreflexive(k);
                    assert(K::before(rows[i].0, rows[rows.len() - 1].0));
                }
            }
        }
        assert(l =~= r);
    }
}

/// A map that has an ascending sequence of rows: a finite one.
pub open spec fn has_rows<K: Key, T>(m: Map<<K as DeepView>::V, T>) -> bool {
    ascending::<K, T>(sorted_rows::<K, T>(m)) && rows_map(sorted_rows::<K, T>(m)) == m
}

/// A counted map, its rows ascending by key; when read, a later row replaces an earlier one.
impl<K: Key + Wire, V: Wire> Wire for OrdMap<K, V> {
    open spec fn enc(v: Map<<K as DeepView>::V, <V as DeepView>::V>) -> Seq<u8> {
        <u32 as Wire>::enc(count32(sorted_rows::<K, <V as DeepView>::V>(v).len())) + enc_list::<
            (K, V),
        >(sorted_rows::<K, <V as DeepView>::V>(v))
    }

    open spec fn dec(s: Seq<u8>) -> Option<
        (Map<<K as DeepView>::V, <V as DeepView>::V>, Seq<u8>),
    > {
        match <u32 as Wire>::dec(s) {
            None => None,
            Some(n) => match dec_list::<(K, V)>(n.0 as nat, n.1) {
                None => None,
                Some(x) => Some((insert_all(x.0), x.1)),
            },
        }
    }

    open spec fn fits(v: Map<<K as DeepView>::V, <V as DeepView>::V>) -> bool {
        let s = sorted_rows::<K, <V as DeepView>::V>(v);
        &&& has_rows::<K, <V as DeepView>::V>(v)
        &&& s.len() <= u32::MAX
        &&& forall|i: int| 0 <= i < s.len() ==> <(K, V) as Wire>::fits(#[trigger] s[i])
    }

    proof fn round_trip(v: Map<<K as DeepView>::V, <V as DeepView>::V>, tail: Seq<u8>) {
        let rows = sorted_rows::<K, <V as DeepView>::V>(v);
        let n = count32(rows.len());
        assert(n == rows.len());
        let body = enc_list::<(K, V)>(rows);
        <u32 as Wire>::round_trip(n, body + tail);
        assert(Self::enc(v) + tail =~= <u32 as Wire>::enc(n) + (body + tail));
        lemma_list_round_trip::<(K, V)>(rows, tail);
        lemma_insert_all::<K, <V as DeepView>::V>(rows);
    }

    proof fn front(s: Seq<u8>, t: Seq<u8>) {
        <u32 as Wire>::front(s, t);
        let n = <u32 as Wire>::dec(s)->0;
        lemma_list_front::<(K, V)>(n.0 as nat, n.1, t);
    }

    fn put(&self, buf: &mut Vec<u8>) {
        let n: usize = self.len();
        put_count(n, buf);
        let ghost v = self.rows();
        let ghost head = buf@;
        let mut i: usize = 0;
        assert(v.take(0) =~= Seq::empty());
        assert(head + enc_list::<(K, V)>(v.take(0)) =~= head);
        while i < n
            invariant
                i <= n,
                n == v.len(),
                v == self.rows(),
                buf@ == head + enc_list::<(K, V)>(v.take(i as int)),
            decreases n - i,
        {
            let ghost b0 = buf@;
            self.key_at(i).put(buf);
            self.value_at(i).put(buf);
            proof {
                let w = v.take(i + 1);
                assert(w.drop_last() =~= v.take(i as int));
                assert(w.last() == v[i as int]);
                assert(buf@ =~= b0 + <(K, V) as Wire>::enc(v[i as int]));
                assert(buf@ =~= head + enc_list::<(K, V)>(w));
            }
            i += 1;
        }
        assert(v.take(i as int) =~= v);
        assert(buf@ =~= old(buf)@ + Self::enc(self@));
    }

    fn read(r: &mut Reader) -> (o: Option<Self>) {
        let n: u32 = match <u32 as Wire>::read(r) {
            Some(n) => n,
            None => {
                return None;
            },
        };
        let ghost s0 = r.rest();
        let mut out: OrdMap<K, V> = OrdMap::new();
        let mut i: u32 = 0;
        while i < n
            invariant
                i <= n,
                dec_list::<(K, V)>(i as nat, s0) matches Some(x) && x.1 == r.rest() && insert_all(
                    x.0,
                ) == out@,
                <u32 as Wire>::dec(old(r).rest()) == Some((n, s0)),
            decreases n - i,
        {
            let ghost rows0 = dec_list::<(K, V)>(i as nat, s0).unwrap().0;
            match <(K, V) as Wire>::read(r) {
                Some(x) => {
                    let (k, v) = x;
                    proof {
                        let rows1 = rows0.push((k.deep_view(), v.deep_view()));
                        assert(rows1.drop_last() =~= rows0);
                        assert(rows1.last() == (k.deep_view(), v.deep_view()));
                    }
                    out.insert(k, v);
                },
                None => {
                    proof {
                        assert(dec_list::<(K, V)>((i + 1) as nat, s0) is None);
                        if dec_list::<(K, V)>(n as nat, s0) is Some {
                            lemma_dec_list_fewer::<(K, V)>(n as nat, (i + 1) as nat, s0);
                        }
                    }
                    return None;
                },
            }
            i += 1;
        }
        Some(out)
    }
}

/// A set that has an ascending sequence of members: a finite one.
pub open spec fn has_items<K: Key>(s: Set<<K as DeepView>::V>) -> bool {
    sorted_items::<K>(s).to_set() == s
}

/// A counted set, its members ascending.
impl<K: Key + Wire> Wire for OrdSet<K> {
    open spec fn enc(v: Set<<K as DeepView>::V>) -> Seq<u8> {
        <u32 as Wire>::enc(count32(sorted_items::<K>(v).len())) + enc_list::<K>(
            sorted_items::<K>(v),
        )
    }

    open spec fn dec(s: Seq<u8>) -> Option<(Set<<K as DeepView>::V>, Seq<u8>)> {
        match <u32 as Wire>::dec(s) {
            None => None,
            Some(n) => match dec_list::<K>(n.0 as nat, n.1) {
                None => None,
                Some(x) => Some((x.0.to_set(), x.1)),
            },
        }
    }

    open spec fn fits(v: Set<<K as DeepView>::V>) -> bool {
        let s = sorted_items::<K>(v);
        &&& has_items::<K>(v)
        &&& s.len() <= u32::MAX
        &&& forall|i: int| 0 <= i < s.len() ==> K::fits(#[trigger] s[i])
    }

    proof fn round_trip(v: Set<<K as DeepView>::V>, tail: Seq<u8>) {
        let items = sorted_items::<K>(v);
        let n = count32(items.len());
        assert(n == items.len());
        let body = enc_list::<K>(items);
        <u32 as Wire>::round_trip(n, body + tail);
        assert(Self::enc(v) + tail =~= <u32 as Wire>::enc(n) + (body + tail));
        lemma_list_round_trip::<K>(items, tail);
    }

    proof fn front(s: Seq<u8>, t: Seq<u8>) {
        <u32 as Wire>::front(s, t);
        let n = <u32 as Wire>::dec(s)->0;
        lemma_list_front::<K>(n.0 as nat, n.1, t);
    }

    fn put(&self, buf: &mut Vec<u8>) {
        let items = self.to_vec();
        items.put(buf);
    }

    fn read(r: &mut Reader) -> (o: Option<Self>) {
        let n: u32 = match <u32 as Wire>::read(r) {
            Some(n) => n,
            None => {
                return None;
            },
        };
        let ghost s0 = r.rest();
        let mut out: OrdSet<K> = OrdSet::new();
        let mut i: u32 = 0;
        assert(Seq::<<K as DeepView>::V>::empty().to_set() =~= Set::empty());
        while i < n
            invariant
                i <= n,
                dec_list::<K>(i as nat, s0) matches Some(x) && x.1 == r.rest() && x.0.to_set()
                    == out@,
                <u32 as Wire>::dec(old(r).rest()) == Some((n, s0)),
            decreases n - i,
        {
            let ghost items0 = dec_list::<K>(i as nat, s0).unwrap().0;
            match <K as Wire>::read(r) {
                Some(k) => {
                    proof {
                        lemma_push_to_set(items0, k.deep_view());
                    }
                    out.insert(k);
                },
                None => {
                    proof {
                        assert(dec_list::<K>((i + 1) as nat, s0) is None);
                        if dec_list::<K>(n as nat, s0) is Some {
                            lemma_dec_list_fewer::<K>(n as nat, (i + 1) as nat, s0);
                        }
                    }
                    return None;
                },
            }
            i += 1;
        }
        Some(out)
    }
}

/// The members of a sequence with one more item.
pub proof fn lemma_push_to_set<T>(s: Seq<T>, x: T)
    ensures
        s.push(x).to_set() == s.to_set().insert(x),
{
    let t = s.push(x);
    assert forall|y: T| #[trigger] t.to_set().contains(y) == s.to_set().insert(x).contains(y) by {
        if s.contains(y) {
            let i = choose|i: int| 0 <= i < s.len() && s[i] == y;
            assert(t[i] == y);
        }
        assert(t[s.len() as int] == x);
        if t.contains(y) && y != x {
            let i = choose|i: int| 0 <= i < t.len() && t[i] == y;
            assert(s[i] == y);
        }
    }
    assert(t.to_set() =~= s.to_set().insert(x));
}

/// A number is laid out with its low byte first, a negative one as what it is modulo the range of
/// its size.
pub proof fn law_low_byte_first(v: u32, w: u64, i: i64)
    ensures
        <u32 as Wire>::enc(v).len() == 4,
        v == <u32 as Wire>::enc(v)[0] + 0x100 * <u32 as Wire>::enc(v)[1] + 0x1_0000 * <u32 as Wire>::enc(
            v,
        )[2] + 0x100_0000 * <u32 as Wire>::enc(v)[3],
        <u64 as Wire>::enc(w).len() == 8,
        w == <u64 as Wire>::enc(w)[0] + 0x100 * <u64 as Wire>::enc(w)[1] + 0x1_0000 * <u64 as Wire>::enc(
            w,
        )[2] + 0x100_0000 * <u64 as Wire>::enc(w)[3] + 0x1_0000_0000 * (<u64 as Wire>::enc(w)[4]
            + 0x100 * <u64 as Wire>::enc(w)[5] + 0x1_0000 * <u64 as Wire>::enc(w)[6] + 0x100_0000
            * <u64 as Wire>::enc(w)[7]),
        w == i || w - i == 0x1_0000_0000_0000_0000 ==> <i64 as Wire>::enc(i) == <u64 as Wire>::enc(w),
{
    let lo = (w % 0x1_0000_0000) as u32;
    let hi = (w / 0x1_0000_0000) as u32;
    lemma_u32_value(v);
    lemma_u32_value(lo);
    lemma_u32_value(hi);
    reveal(u64_bytes);
    reveal(u32_value);
    assert(forall|j: int| 0 <= j < 4 ==> u64_bytes(w)[j] == u32_bytes(lo)[j]);
    assert(forall|j: int| 0 <= j < 4 ==> u64_bytes(w)[j + 4] == #[trigger] u32_bytes(hi)[j]);
    assert(u64_bytes(w)[4] == u32_bytes(hi)[0]);
    assert(u64_bytes(w)[5] == u32_bytes(hi)[1]);
    assert(u64_bytes(w)[6] == u32_bytes(hi)[2]);
    assert(u64_bytes(w)[7] == u32_bytes(hi)[3]);
}

/// An object is laid out as its tag and then its content: a node, an integer and a float as eight
/// bytes, a text as its length and its bytes, a truth value as one byte.
pub proof fn law_object_layout(n: u64, i: i64, b: u64, t: Seq<char>)
    requires
        encode_utf8(t).len() <= u32::MAX,
    ensures
        <ObjKey as Wire>::enc(ObjModel::Node(n)) == seq![0u8] + <u64 as Wire>::enc(n),
        <ObjKey as Wire>::enc(ObjModel::Int(i)) == seq![1u8] + <i64 as Wire>::enc(i),
        <ObjKey as Wire>::enc(ObjModel::Float(b)) == seq![2u8] + <u64 as Wire>::enc(b),
        <ObjKey as Wire>::enc(ObjModel::Text(t)) == seq![3u8] + <u32 as Wire>::enc(
            encode_utf8(t).len() as u32,
        ) + encode_utf8(t),
        <ObjKey as Wire>::enc(ObjModel::Bool(true)) == seq![4u8, 1u8],
        <ObjKey as Wire>::enc(ObjModel::Bool(false)) == seq![4u8, 0u8],
{
}

} // verus!
