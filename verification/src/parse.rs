//! Reading NBT from bytes: a specification of the format as spec functions over
//! the input and a position in it, and a reader proved to follow it.

use crate::bytes::{
    be_i16_at, be_i32_at, be_i64_at, be_u16_at, be_u32_at, be_u64_at, i16_at, i32_at, i64_at,
    i8_at, i8_of, u16_at, u32_at, u64_at,
};
use crate::nbt::{
    build_compound, payload_view, Compound, Payload, PayloadV, RootV, TagData, TagV, TAG_BYTE, TAG_BYTE_ARRAY,
    TAG_COMPOUND, TAG_DOUBLE, TAG_END, TAG_FLOAT, TAG_INT, TAG_INT_ARRAY, TAG_LIST, TAG_LONG,
    TAG_LONG_ARRAY, TAG_SHORT, TAG_STRING,
};
use crate::text::{from_utf8_lossy, hex, push_hex, push_str, utf8_lossy};
use vstd::prelude::*;

verus! {

/// Why NBT data could not be read.
#[derive(Clone, Copy, Debug, PartialEq, Eq, Structural)]
pub enum NbtError {
    /// The data ended before the value being read did.
    UnexpectedEof,
    /// The root tag was `TAG_End`.
    EndTagAtRoot,
    /// A tag type byte named no known tag type.
    InvalidTagType(u8),
    /// The item type of a list named no known tag type.
    InvalidListTagType(u8),
}

/// The message shown for an error: the end of data as a read reports it, the
/// tag type bytes in hexadecimal.
pub open spec fn error_text(e: NbtError) -> Seq<char> {
    match e {
        NbtError::UnexpectedEof => "failed to fill whole buffer"@,
        NbtError::EndTagAtRoot => "Invalid tag type TAG_END found"@,
        NbtError::InvalidTagType(t) => "Invalid tag type 0x"@ + hex(t as nat) + " found"@,
        NbtError::InvalidListTagType(t) => "Invalid list tag type 0x"@ + hex(t as nat) + " found"@,
    }
}

impl NbtError {
    /// The message shown for this error.
    pub fn message(&self) -> (s: String)
        ensures
            s@ == error_text(*self),
    {
        let mut s = String::new();
        match self {
            NbtError::UnexpectedEof => push_str(&mut s, "failed to fill whole buffer"),
            NbtError::EndTagAtRoot => push_str(&mut s, "Invalid tag type TAG_END found"),
            NbtError::InvalidTagType(t) => {
                push_str(&mut s, "Invalid tag type 0x");
                push_hex(&mut s, *t);
                push_str(&mut s, " found");
            },
            NbtError::InvalidListTagType(t) => {
                push_str(&mut s, "Invalid list tag type 0x");
                push_hex(&mut s, *t);
                push_str(&mut s, " found");
            },
        }
        assert(s@ =~= error_text(*self));
        s
    }
}

/// A number type stored big-endian in a fixed number of bytes.
pub trait BeElem: Sized {
    /// How many bytes a value takes.
    spec fn width() -> nat;

    /// The value whose bytes start at `q`.
    spec fn decode(d: Seq<u8>, q: int) -> Self;

    fn byte_width() -> (w: usize)
        ensures
            w == Self::width(),
            1 <= w <= 8,
    ;

    fn read_at(d: &[u8], q: usize) -> (r: Self)
        requires
            q + Self::width() <= d@.len(),
        ensures
            r == Self::decode(d@, q as int),
    ;

    /// A value depends only on its own bytes.
    proof fn lemma_decode_prefix(d: Seq<u8>, e: Seq<u8>, q: int)
        requires
            0 <= q,
            q + Self::width() <= d.len(),
        ensures
            Self::decode(d + e, q) == Self::decode(d, q),
    ;
}

impl BeElem for i8 {
    open spec fn width() -> nat {
        1
    }

    open spec fn decode(d: Seq<u8>, q: int) -> i8 {
        i8_of(d[q])
    }

    fn byte_width() -> (w: usize) {
        1
    }

    fn read_at(d: &[u8], q: usize) -> (r: i8) {
        i8_at(d, q)
    }

    proof fn lemma_decode_prefix(d: Seq<u8>, e: Seq<u8>, q: int) {
        assert(forall|k: int| 0 <= k < d.len() ==> (d + e)[k] == d[k]);
    }
}

impl BeElem for i16 {
    open spec fn width() -> nat {
        2
    }

    open spec fn decode(d: Seq<u8>, q: int) -> i16 {
        be_i16_at(d, q)
    }

    fn byte_width() -> (w: usize) {
        2
    }

    fn read_at(d: &[u8], q: usize) -> (r: i16) {
        i16_at(d, q)
    }

    proof fn lemma_decode_prefix(d: Seq<u8>, e: Seq<u8>, q: int) {
        assert(forall|k: int| 0 <= k < d.len() ==> (d + e)[k] == d[k]);
    }
}

impl BeElem for i32 {
    open spec fn width() -> nat {
        4
    }

    open spec fn decode(d: Seq<u8>, q: int) -> i32 {
        be_i32_at(d, q)
    }

    fn byte_width() -> (w: usize) {
        4
    }

    fn read_at(d: &[u8], q: usize) -> (r: i32) {
        i32_at(d, q)
    }

    proof fn lemma_decode_prefix(d: Seq<u8>, e: Seq<u8>, q: int) {
        assert(forall|k: int| 0 <= k < d.len() ==> (d + e)[k] == d[k]);
    }
}

impl BeElem for i64 {
    open spec fn width() -> nat {
        8
    }

    open spec fn decode(d: Seq<u8>, q: int) -> i64 {
        be_i64_at(d, q)
    }

    fn byte_width() -> (w: usize) {
        8
    }

    fn read_at(d: &[u8], q: usize) -> (r: i64) {
        i64_at(d, q)
    }

    proof fn lemma_decode_prefix(d: Seq<u8>, e: Seq<u8>, q: int) {
        assert(forall|k: int| 0 <= k < d.len() ==> (d + e)[k] == d[k]);
    }
}

impl BeElem for u32 {
    open spec fn width() -> nat {
        4
    }

    open spec fn decode(d: Seq<u8>, q: int) -> u32 {
        be_u32_at(d, q) as u32
    }

    fn byte_width() -> (w: usize) {
        4
    }

    fn read_at(d: &[u8], q: usize) -> (r: u32) {
        u32_at(d, q)
    }

    proof fn lemma_decode_prefix(d: Seq<u8>, e: Seq<u8>, q: int) {
        assert(forall|k: int| 0 <= k < d.len() ==> (d + e)[k] == d[k]);
    }
}

impl BeElem for u64 {
    open spec fn width() -> nat {
        8
    }

    open spec fn decode(d: Seq<u8>, q: int) -> u64 {
        be_u64_at(d, q) as u64
    }

    fn byte_width() -> (w: usize) {
        8
    }

    fn read_at(d: &[u8], q: usize) -> (r: u64) {
        u64_at(d, q)
    }

    proof fn lemma_decode_prefix(d: Seq<u8>, e: Seq<u8>, q: int) {
        assert(forall|k: int| 0 <= k < d.len() ==> (d + e)[k] == d[k]);
    }
}

/// The byte at `p`, if there is one.
pub open spec fn byte_at(d: Seq<u8>, p: int) -> Option<u8> {
    if 0 <= p < d.len() {
        Some(d[p])
    } else {
        None
    }
}

/// The `u32` count stored at `p`, if four bytes are there.
pub open spec fn count_at(d: Seq<u8>, p: int) -> Option<nat> {
    if 0 <= p && p + 4 <= d.len() {
        Some(be_u32_at(d, p) as nat)
    } else {
        None
    }
}

/// A string: its length in a big-endian `u16`, then that many bytes, decoded
/// as UTF-8 with invalid sequences replaced.
pub open spec fn string_at(d: Seq<u8>, p: int) -> Result<(Seq<char>, int), NbtError> {
    if !(0 <= p && p + 2 <= d.len()) {
        Err(NbtError::UnexpectedEof)
    } else {
        let n = be_u16_at(d, p);
        if n == 0 {
            Ok((Seq::empty(), p + 2))
        } else if p + 2 + n > d.len() {
            Err(NbtError::UnexpectedEof)
        } else {
            Ok((utf8_lossy(d.subrange(p + 2, p + 2 + n)), p + 2 + n))
        }
    }
}

/// An array of numbers: a big-endian `u32` count, then that many values.
pub open spec fn numbers_at<T: BeElem>(d: Seq<u8>, p: int) -> Result<(Seq<T>, int), NbtError> {
    match count_at(d, p) {
        None => Err(NbtError::UnexpectedEof),
        Some(n) => if p + 4 + n * T::width() > d.len() {
            Err(NbtError::UnexpectedEof)
        } else {
            Ok(
                (
                    Seq::new(n, |i: int| T::decode(d, p + 4 + i * T::width())),
                    p + 4 + n * T::width(),
                ),
            )
        },
    }
}

/// `n` strings one after another.
pub open spec fn strings_at(d: Seq<u8>, p: int, n: nat) -> Result<(Seq<Seq<char>>, int), NbtError>
    decreases n,
{
    if n == 0 {
        Ok((Seq::empty(), p))
    } else {
        match string_at(d, p) {
            Err(e) => Err(e),
            Ok((s, q)) => match strings_at(d, q, (n - 1) as nat) {
                Err(e) => Err(e),
                Ok((rest, r)) => Ok((seq![s] + rest, r)),
            },
        }
    }
}

/// `n` number arrays one after another.
pub open spec fn number_arrays_at<T: BeElem>(d: Seq<u8>, p: int, n: nat) -> Result<
    (Seq<Seq<T>>, int),
    NbtError,
>
    decreases n,
{
    if n == 0 {
        Ok((Seq::empty(), p))
    } else {
        match numbers_at::<T>(d, p) {
            Err(e) => Err(e),
            Ok((a, q)) => match number_arrays_at::<T>(d, q, (n - 1) as nat) {
                Err(e) => Err(e),
                Ok((rest, r)) => Ok((seq![a] + rest, r)),
            },
        }
    }
}

/// A named tag: its type byte, then (unless the type is `TAG_End`) its name and payload.
/// `None` stands for `TAG_End`.
pub open spec fn tag_at(d: Seq<u8>, p: int) -> Result<(Option<(Seq<char>, TagV)>, int), NbtError>
    decreases d.len() - p, 0int,
{
    match byte_at(d, p) {
        None => Err(NbtError::UnexpectedEof),
        Some(t) => if t == TAG_END {
            Ok((None, p + 1))
        } else {
            match string_at(d, p + 1) {
                Err(e) => Err(e),
                Ok((name, q)) => if p < q <= d.len() {
                    match payload_at(d, q, t) {
                        Err(e) => Err(e),
                        Ok((pl, r)) => Ok((Some((name, TagV { tag: t, payload: pl })), r)),
                    }
                } else {
                    Err(NbtError::UnexpectedEof)
                },
            }
        },
    }
}

/// The entries of a compound, in the order they are stored, up to and
/// including the closing `TAG_End`.
pub open spec fn entries_at(d: Seq<u8>, p: int) -> Result<(Seq<(Seq<char>, TagV)>, int), NbtError>
    decreases d.len() - p, 1int,
{
    match tag_at(d, p) {
        Err(e) => Err(e),
        Ok((None, q)) => Ok((Seq::empty(), q)),
        Ok((Some(e), q)) => if p < q <= d.len() {
            match entries_at(d, q) {
                Err(x) => Err(x),
                Ok((rest, r)) => Ok((seq![e] + rest, r)),
            }
        } else {
            Err(NbtError::UnexpectedEof)
        },
    }
}

/// `n` list payloads one after another.
pub open spec fn lists_at(d: Seq<u8>, p: int, n: nat) -> Result<(Seq<PayloadV>, int), NbtError>
    decreases d.len() - p, 3int,
{
    if n == 0 {
        Ok((Seq::empty(), p))
    } else {
        match payload_at(d, p, TAG_LIST) {
            Err(e) => Err(e),
            Ok((x, q)) => if p < q <= d.len() {
                match lists_at(d, q, (n - 1) as nat) {
                    Err(e) => Err(e),
                    Ok((rest, r)) => Ok((seq![x] + rest, r)),
                }
            } else {
                Err(NbtError::UnexpectedEof)
            },
        }
    }
}

/// `n` compounds one after another.
pub open spec fn compounds_at(d: Seq<u8>, p: int, n: nat) -> Result<
    (Seq<Seq<(Seq<char>, TagV)>>, int),
    NbtError,
>
    decreases d.len() - p, 3int,
{
    if n == 0 {
        Ok((Seq::empty(), p))
    } else {
        match entries_at(d, p) {
            Err(e) => Err(e),
            Ok((raw, q)) => if p < q <= d.len() {
                match compounds_at(d, q, (n - 1) as nat) {
                    Err(e) => Err(e),
                    Ok((rest, r)) => Ok((seq![build_compound(raw)] + rest, r)),
                }
            } else {
                Err(NbtError::UnexpectedEof)
            },
        }
    }
}

/// A payload of tag type `t`.
pub open spec fn payload_at(d: Seq<u8>, p: int, t: u8) -> Result<(PayloadV, int), NbtError>
    decreases d.len() - p, 2int,
{
    if t == TAG_BYTE {
        match byte_at(d, p) {
            None => Err(NbtError::UnexpectedEof),
            Some(b) => Ok((PayloadV::Byte(i8_of(b)), p + 1)),
        }
    } else if t == TAG_SHORT || t == TAG_INT || t == TAG_LONG || t == TAG_FLOAT || t
        == TAG_DOUBLE {
        let w: int = if t == TAG_SHORT {
            2
        } else if t == TAG_INT || t == TAG_FLOAT {
            4
        } else {
            8
        };
        if !(0 <= p && p + w <= d.len()) {
            Err(NbtError::UnexpectedEof)
        } else {
            let v = if t == TAG_SHORT {
                PayloadV::Short(be_i16_at(d, p))
            } else if t == TAG_INT {
                PayloadV::Int(be_i32_at(d, p))
            } else if t == TAG_LONG {
                PayloadV::Long(be_i64_at(d, p))
            } else if t == TAG_FLOAT {
                PayloadV::Float(be_u32_at(d, p) as u32)
            } else {
                PayloadV::Double(be_u64_at(d, p) as u64)
            };
            Ok((v, p + w))
        }
    } else if t == TAG_BYTE_ARRAY {
        match numbers_at::<i8>(d, p) {
            Err(e) => Err(e),
            Ok((a, q)) => Ok((PayloadV::ByteArray(a), q)),
        }
    } else if t == TAG_STRING {
        match string_at(d, p) {
            Err(e) => Err(e),
            Ok((s, q)) => Ok((PayloadV::String(s), q)),
        }
    } else if t == TAG_LIST {
        match byte_at(d, p) {
            None => Err(NbtError::UnexpectedEof),
            Some(et) => list_body_at(d, p, et),
        }
    } else if t == TAG_COMPOUND {
        match entries_at(d, p) {
            Err(e) => Err(e),
            Ok((raw, q)) => Ok((PayloadV::Compound(build_compound(raw)), q)),
        }
    } else if t == TAG_INT_ARRAY {
        match numbers_at::<i32>(d, p) {
            Err(e) => Err(e),
            Ok((a, q)) => Ok((PayloadV::IntArray(a), q)),
        }
    } else if t == TAG_LONG_ARRAY {
        match numbers_at::<i64>(d, p) {
            Err(e) => Err(e),
            Ok((a, q)) => Ok((PayloadV::LongArray(a), q)),
        }
    } else {
        Err(NbtError::InvalidTagType(t))
    }
}

/// The rest of a list payload whose item type byte `et` stands at `p`: the
/// count follows it; a list of `TAG_End` items holds nothing, whatever its count.
pub open spec fn list_body_at(d: Seq<u8>, p: int, et: u8) -> Result<(PayloadV, int), NbtError>
    decreases d.len() - p, 1int,
{
    if et == TAG_END {
        match count_at(d, p + 1) {
            None => Err(NbtError::UnexpectedEof),
            Some(_) => Ok((PayloadV::EmptyList, p + 5)),
        }
    } else if et == TAG_BYTE {
        match numbers_at::<i8>(d, p + 1) {
            Err(e) => Err(e),
            Ok((a, q)) => Ok((PayloadV::ByteList(a), q)),
        }
    } else if et == TAG_SHORT {
        match numbers_at::<i16>(d, p + 1) {
            Err(e) => Err(e),
            Ok((a, q)) => Ok((PayloadV::ShortList(a), q)),
        }
    } else if et == TAG_INT {
        match numbers_at::<i32>(d, p + 1) {
            Err(e) => Err(e),
            Ok((a, q)) => Ok((PayloadV::IntList(a), q)),
        }
    } else if et == TAG_LONG {
        match numbers_at::<i64>(d, p + 1) {
            Err(e) => Err(e),
            Ok((a, q)) => Ok((PayloadV::LongList(a), q)),
        }
    } else if et == TAG_FLOAT {
        match numbers_at::<u32>(d, p + 1) {
            Err(e) => Err(e),
            Ok((a, q)) => Ok((PayloadV::FloatList(a), q)),
        }
    } else if et == TAG_DOUBLE {
        match numbers_at::<u64>(d, p + 1) {
            Err(e) => Err(e),
            Ok((a, q)) => Ok((PayloadV::DoubleList(a), q)),
        }
    } else if et == TAG_BYTE_ARRAY || et == TAG_STRING || et == TAG_LIST || et == TAG_COMPOUND
        || et == TAG_INT_ARRAY || et == TAG_LONG_ARRAY {
        match count_at(d, p + 1) {
            None => Err(NbtError::UnexpectedEof),
            Some(n) => if et == TAG_BYTE_ARRAY {
                match number_arrays_at::<i8>(d, p + 5, n) {
                    Err(e) => Err(e),
                    Ok((a, q)) => Ok((PayloadV::ByteArrayList(a), q)),
                }
            } else if et == TAG_STRING {
                match strings_at(d, p + 5, n) {
                    Err(e) => Err(e),
                    Ok((a, q)) => Ok((PayloadV::StringList(a), q)),
                }
            } else if et == TAG_LIST {
                match lists_at(d, p + 5, n) {
                    Err(e) => Err(e),
                    Ok((a, q)) => Ok((PayloadV::ListList(a), q)),
                }
            } else if et == TAG_COMPOUND {
                match compounds_at(d, p + 5, n) {
                    Err(e) => Err(e),
                    Ok((a, q)) => Ok((PayloadV::CompoundList(a), q)),
                }
            } else if et == TAG_INT_ARRAY {
                match number_arrays_at::<i32>(d, p + 5, n) {
                    Err(e) => Err(e),
                    Ok((a, q)) => Ok((PayloadV::IntArrayList(a), q)),
                }
            } else {
                match number_arrays_at::<i64>(d, p + 5, n) {
                    Err(e) => Err(e),
                    Ok((a, q)) => Ok((PayloadV::LongArrayList(a), q)),
                }
            },
        }
    } else {
        Err(NbtError::InvalidListTagType(et))
    }
}

/// A whole NBT document: one named tag, which must not be `TAG_End`.
/// Bytes after the root tag are not read.
pub open spec fn root_of(d: Seq<u8>) -> Result<RootV, NbtError> {
    match tag_at(d, 0) {
        Err(e) => Err(e),
        Ok((None, _)) => Err(NbtError::EndTagAtRoot),
        Ok((Some((name, t)), _)) => Ok(RootV { name, data: t }),
    }
}

/// `r` is the executable counterpart of the specified outcome `s`: the same
/// error, or a value whose view by `view` is the specified one and the same end position.
pub open spec fn agrees<T, V>(
    r: Result<(T, usize), NbtError>,
    s: Result<(V, int), NbtError>,
    view: spec_fn(T) -> V,
) -> bool {
    match r {
        Ok((x, q)) => s == Ok::<(V, int), NbtError>((view(x), q as int)),
        Err(e) => s == Err::<(V, int), NbtError>(e),
    }
}

/// Reads a string at `pos`.
pub fn read_string(data: &[u8], pos: usize) -> (r: Result<(String, usize), NbtError>)
    requires
        pos <= data@.len(),
    ensures
        agrees(r, string_at(data@, pos as int), |x: String| x@),
        r matches Ok((_, q)) ==> pos + 2 <= q <= data@.len(),
{
    let n = data.len();
    if n - pos < 2 {
        return Err(NbtError::UnexpectedEof);
    }
    let len = u16_at(data, pos) as usize;
    if len == 0 {
        return Ok((String::new(), pos + 2));
    }
    if n - pos - 2 < len {
        return Err(NbtError::UnexpectedEof);
    }
    let bytes = &data[pos + 2..pos + 2 + len];
    let s = from_utf8_lossy(bytes);
    Ok((s, pos + 2 + len))
}

/// Reads an array of numbers at `pos`: a count, then the values.
pub fn read_numbers<T: BeElem>(data: &[u8], pos: usize) -> (r: Result<(Vec<T>, usize), NbtError>)
    requires
        pos <= data@.len(),
    ensures
        agrees(r, numbers_at::<T>(data@, pos as int), |x: Vec<T>| x@),
        r matches Ok((_, q)) ==> pos + 4 <= q <= data@.len(),
{
    let n = data.len();
    if n - pos < 4 {
        return Err(NbtError::UnexpectedEof);
    }
    let count = u32_at(data, pos);
    let w = T::byte_width();
    let avail = n - pos - 4;
    let c64 = count as u64;
    let w64 = w as u64;
    assert(c64 * w64 <= 0xFFFF_FFFFu64 * 8) by (nonlinear_arith)
        requires
            c64 <= 0xFFFF_FFFF,
            w64 <= 8,
    ;
    if c64 * w64 > avail as u64 {
        return Err(NbtError::UnexpectedEof);
    }
    let ghost d = data@;
    let ghost wn = T::width();
    let mut v: Vec<T> = Vec::new();
    let mut q: usize = pos + 4;
    let mut i: u32 = 0;
    while i < count
        invariant
            d == data@,
            n == d.len(),
            wn == T::width(),
            w == wn,
            1 <= w <= 8,
            i <= count,
            count * wn <= avail,
            avail == n - pos - 4,
            q == pos + 4 + i * wn,
            v@ == Seq::new(i as nat, |j: int| T::decode(d, pos + 4 + j * wn)),
        decreases count - i,
    {
        proof {
            assert((i + 1) * wn == i * wn + wn) by (nonlinear_arith);
            assert(i * wn + wn <= count * wn) by (nonlinear_arith)
                requires
                    i < count,
            ;
        }
        let x = T::read_at(data, q);
        v.push(x);
        q = q + w;
        i = i + 1;
        assert(v@ =~= Seq::new(i as nat, |j: int| T::decode(d, pos + 4 + j * wn)));
    }
    Ok((v, q))
}

/// Reads `count` strings one after another.
pub fn read_strings(data: &[u8], pos: usize, count: u32) -> (r: Result<(Vec<String>, usize), NbtError>)
    requires
        pos <= data@.len(),
    ensures
        agrees(r, strings_at(data@, pos as int, count as nat), |x: Vec<String>| x@.map_values(|s: String| s@)),
        r matches Ok((_, q)) ==> pos <= q <= data@.len(),
{
    let ghost d = data@;
    let mut v: Vec<String> = Vec::new();
    let mut cur = pos;
    let mut i: u32 = 0;
    assert(Seq::<Seq<char>>::empty() + Seq::<Seq<char>>::empty() =~= Seq::<Seq<char>>::empty());
    while i < count
        invariant
            d == data@,
            pos <= cur <= d.len(),
            i <= count,
            match strings_at(d, cur as int, (count - i) as nat) {
                Ok((rest, r)) => strings_at(d, pos as int, count as nat) == Ok::<(Seq<Seq<char>>, int), NbtError>(
                    (v@.map_values(|s: String| s@) + rest, r),
                ),
                Err(e) => strings_at(d, pos as int, count as nat) == Err::<(Seq<Seq<char>>, int), NbtError>(e),
            },
        decreases count - i,
    {
        match read_string(data, cur) {
            Err(e) => {
                return Err(e);
            },
            Ok((s, q)) => {
                let ghost before = v@.map_values(|s: String| s@);
                let ghost sv = s@;
                v.push(s);
                proof {
                    assert(v@.map_values(|s: String| s@) =~= before.push(sv));
                    match strings_at(d, q as int, (count - i - 1) as nat) {
                        Ok((rest, r)) => {
                            assert(before + (seq![sv] + rest) =~= before.push(sv) + rest);
                        },
                        Err(_) => {},
                    }
                }
                cur = q;
                i = i + 1;
            },
        }
    }
    assert(v@.map_values(|s: String| s@) + Seq::<Seq<char>>::empty() =~= v@.map_values(|s: String| s@));
    Ok((v, cur))
}

/// Reads `count` number arrays one after another.
pub fn read_number_arrays<T: BeElem>(data: &[u8], pos: usize, count: u32) -> (r: Result<
    (Vec<Vec<T>>, usize),
    NbtError,
>)
    requires
        pos <= data@.len(),
    ensures
        agrees(r, number_arrays_at::<T>(data@, pos as int, count as nat), |x: Vec<Vec<T>>| x@.map_values(|a: Vec<T>| a@)),
        r matches Ok((_, q)) ==> pos <= q <= data@.len(),
{
    let ghost d = data@;
    let mut v: Vec<Vec<T>> = Vec::new();
    let mut cur = pos;
    let mut i: u32 = 0;
    assert(Seq::<Seq<T>>::empty() + Seq::<Seq<T>>::empty() =~= Seq::<Seq<T>>::empty());
    while i < count
        invariant
            d == data@,
            pos <= cur <= d.len(),
            i <= count,
            match number_arrays_at::<T>(d, cur as int, (count - i) as nat) {
                Ok((rest, r)) => number_arrays_at::<T>(d, pos as int, count as nat) == Ok::<(Seq<Seq<T>>, int), NbtError>(
                    (v@.map_values(|a: Vec<T>| a@) + rest, r),
                ),
                Err(e) => number_arrays_at::<T>(d, pos as int, count as nat) == Err::<(Seq<Seq<T>>, int), NbtError>(e),
            },
        decreases count - i,
    {
        match read_numbers::<T>(data, cur) {
            Err(e) => {
                return Err(e);
            },
            Ok((a, q)) => {
                let ghost before = v@.map_values(|a: Vec<T>| a@);
                let ghost av = a@;
                v.push(a);
                proof {
                    assert(v@.map_values(|a: Vec<T>| a@) =~= before.push(av));
                    match number_arrays_at::<T>(d, q as int, (count - i - 1) as nat) {
                        Ok((rest, r)) => {
                            assert(before + (seq![av] + rest) =~= before.push(av) + rest);
                        },
                        Err(_) => {},
                    }
                }
                cur = q;
                i = i + 1;
            },
        }
    }
    assert(v@.map_values(|a: Vec<T>| a@) + Seq::<Seq<T>>::empty() =~= v@.map_values(|a: Vec<T>| a@));
    Ok((v, cur))
}

/// The entries of the compound at `p`, put together as a compound.
pub open spec fn compound_at(d: Seq<u8>, p: int) -> Result<(Seq<(Seq<char>, TagV)>, int), NbtError> {
    match entries_at(d, p) {
        Err(e) => Err(e),
        Ok((raw, q)) => Ok((build_compound(raw), q)),
    }
}

pub open spec fn tag_entry_view(x: Option<(String, TagData)>) -> Option<(Seq<char>, TagV)> {
    match x {
        None => None,
        Some((k, t)) => Some((k@, t@)),
    }
}

/// Reads a named tag at `pos`; `None` is `TAG_End`.
pub fn read_tag(data: &[u8], pos: usize) -> (r: Result<(Option<(String, TagData)>, usize), NbtError>)
    requires
        pos <= data@.len(),
    ensures
        agrees(r, tag_at(data@, pos as int), |x: Option<(String, TagData)>| tag_entry_view(x)),
        r matches Ok((_, q)) ==> pos < q <= data@.len(),
    decreases data@.len() - pos, 0int,
{
    if pos >= data.len() {
        return Err(NbtError::UnexpectedEof);
    }
    let t = data[pos];
    if t == TAG_END {
        return Ok((None, pos + 1));
    }
    match read_string(data, pos + 1) {
        Err(e) => Err(e),
        Ok((name, q)) => match read_payload(data, q, t) {
            Err(e) => Err(e),
            Ok((p, r)) => {
                let tag = TagData::from((t, p));
                Ok((Some((name, tag)), r))
            },
        },
    }
}

/// Reads the entries of a compound at `pos`, through the closing `TAG_End`.
pub fn read_compound(data: &[u8], pos: usize) -> (r: Result<(Compound, usize), NbtError>)
    requires
        pos <= data@.len(),
    ensures
        agrees(r, compound_at(data@, pos as int), |x: Compound| x@),
        r matches Ok((_, q)) ==> pos < q <= data@.len(),
    decreases data@.len() - pos, 1int,
{
    let ghost d = data@;
    let mut c = Compound::new();
    let ghost mut acc: Seq<(Seq<char>, TagV)> = Seq::empty();
    let mut cur = pos;
    assert(acc + Seq::<(Seq<char>, TagV)>::empty() =~= acc);
    loop
        invariant
            d == data@,
            pos <= cur <= d.len(),
            c@ == build_compound(acc),
            match entries_at(d, cur as int) {
                Ok((rest, r)) => entries_at(d, pos as int) == Ok::<(Seq<(Seq<char>, TagV)>, int), NbtError>((acc + rest, r)),
                Err(e) => entries_at(d, pos as int) == Err::<(Seq<(Seq<char>, TagV)>, int), NbtError>(e),
            },
        decreases d.len() - cur,
    {
        match read_tag(data, cur) {
            Err(e) => {
                return Err(e);
            },
            Ok((None, q)) => {
                assert(acc + Seq::<(Seq<char>, TagV)>::empty() =~= acc);
                return Ok((c, q));
            },
            Ok((Some((k, t)), q)) => {
                let ghost e = (k@, t@);
                c.insert(k, t);
                proof {
                    assert(acc.push(e).drop_last() =~= acc);
                    match entries_at(d, q as int) {
                        Ok((rest, r)) => {
                            assert(acc + (seq![e] + rest) =~= acc.push(e) + rest);
                        },
                        Err(_) => {},
                    }
                    acc = acc.push(e);
                }
                cur = q;
            },
        }
    }
}

/// Reads `count` list payloads one after another.
pub fn read_lists(data: &[u8], pos: usize, count: u32) -> (r: Result<(Vec<Payload>, usize), NbtError>)
    requires
        pos <= data@.len(),
    ensures
        agrees(r, lists_at(data@, pos as int, count as nat), |x: Vec<Payload>| x@.map_values(|p: Payload| p@)),
        r matches Ok((_, q)) ==> pos <= q <= data@.len(),
    decreases data@.len() - pos, 3int,
{
    let ghost d = data@;
    let mut v: Vec<Payload> = Vec::new();
    let mut cur = pos;
    let mut i: u32 = 0;
    assert(Seq::<PayloadV>::empty() + Seq::<PayloadV>::empty() =~= Seq::<PayloadV>::empty());
    while i < count
        invariant
            d == data@,
            pos <= cur <= d.len(),
            i <= count,
            match lists_at(d, cur as int, (count - i) as nat) {
                Ok((rest, r)) => lists_at(d, pos as int, count as nat) == Ok::<(Seq<PayloadV>, int), NbtError>(
                    (v@.map_values(|p: Payload| p@) + rest, r),
                ),
                Err(e) => lists_at(d, pos as int, count as nat) == Err::<(Seq<PayloadV>, int), NbtError>(e),
            },
        decreases count - i,
    {
        match read_payload(data, cur, TAG_LIST) {
            Err(e) => {
                return Err(e);
            },
            Ok((x, q)) => {
                let ghost before = v@.map_values(|p: Payload| p@);
                let ghost xv = x@;
                v.push(x);
                proof {
                    assert(v@.map_values(|p: Payload| p@) =~= before.push(xv));
                    match lists_at(d, q as int, (count - i - 1) as nat) {
                        Ok((rest, r)) => {
                            assert(before + (seq![xv] + rest) =~= before.push(xv) + rest);
                        },
                        Err(_) => {},
                    }
                }
                cur = q;
                i = i + 1;
            },
        }
    }
    assert(v@.map_values(|p: Payload| p@) + Seq::<PayloadV>::empty() =~= v@.map_values(|p: Payload| p@));
    Ok((v, cur))
}

/// Reads `count` compounds one after another.
pub fn read_compounds(data: &[u8], pos: usize, count: u32) -> (r: Result<(Vec<Compound>, usize), NbtError>)
    requires
        pos <= data@.len(),
    ensures
        agrees(r, compounds_at(data@, pos as int, count as nat), |x: Vec<Compound>| x@.map_values(|c: Compound| c@)),
        r matches Ok((_, q)) ==> pos <= q <= data@.len(),
    decreases data@.len() - pos, 3int,
{
    let ghost d = data@;
    let mut v: Vec<Compound> = Vec::new();
    let mut cur = pos;
    let mut i: u32 = 0;
    assert(Seq::<Seq<(Seq<char>, TagV)>>::empty() + Seq::<Seq<(Seq<char>, TagV)>>::empty() =~= Seq::<Seq<(Seq<char>, TagV)>>::empty());
    while i < count
        invariant
            d == data@,
            pos <= cur <= d.len(),
            i <= count,
            match compounds_at(d, cur as int, (count - i) as nat) {
                Ok((rest, r)) => compounds_at(d, pos as int, count as nat) == Ok::<(Seq<Seq<(Seq<char>, TagV)>>, int), NbtError>(
                    (v@.map_values(|c: Compound| c@) + rest, r),
                ),
                Err(e) => compounds_at(d, pos as int, count as nat) == Err::<(Seq<Seq<(Seq<char>, TagV)>>, int), NbtError>(e),
            },
        decreases count - i,
    {
        match read_compound(data, cur) {
            Err(e) => {
                return Err(e);
            },
            Ok((x, q)) => {
                let ghost before = v@.map_values(|c: Compound| c@);
                let ghost xv = x@;
                v.push(x);
                proof {
                    assert(v@.map_values(|c: Compound| c@) =~= before.push(xv));
                    match compounds_at(d, q as int, (count - i - 1) as nat) {
                        Ok((rest, r)) => {
                            assert(before + (seq![xv] + rest) =~= before.push(xv) + rest);
                        },
                        Err(_) => {},
                    }
                }
                cur = q;
                i = i + 1;
            },
        }
    }
    assert(v@.map_values(|c: Compound| c@) + Seq::<Seq<(Seq<char>, TagV)>>::empty() =~= v@.map_values(|c: Compound| c@));
    Ok((v, cur))
}

/// Reads a payload of tag type `t` at `pos`.
pub fn read_payload(data: &[u8], pos: usize, t: u8) -> (r: Result<(Payload, usize), NbtError>)
    requires
        pos <= data@.len(),
    ensures
        agrees(r, payload_at(data@, pos as int, t), |x: Payload| x@),
        r matches Ok((_, q)) ==> pos < q <= data@.len(),
    decreases data@.len() - pos, 2int,
{
    let n = data.len();
    if t == TAG_BYTE {
        if pos >= n {
            return Err(NbtError::UnexpectedEof);
        }
        Ok((Payload::Byte(i8_at(data, pos)), pos + 1))
    } else if t == TAG_SHORT {
        if n - pos < 2 {
            return Err(NbtError::UnexpectedEof);
        }
        Ok((Payload::Short(i16_at(data, pos)), pos + 2))
    } else if t == TAG_INT {
        if n - pos < 4 {
            return Err(NbtError::UnexpectedEof);
        }
        Ok((Payload::Int(i32_at(data, pos)), pos + 4))
    } else if t == TAG_LONG {
        if n - pos < 8 {
            return Err(NbtError::UnexpectedEof);
        }
        Ok((Payload::Long(i64_at(data, pos)), pos + 8))
    } else if t == TAG_FLOAT {
        if n - pos < 4 {
            return Err(NbtError::UnexpectedEof);
        }
        Ok((Payload::Float(u32_at(data, pos)), pos + 4))
    } else if t == TAG_DOUBLE {
        if n - pos < 8 {
            return Err(NbtError::UnexpectedEof);
        }
        Ok((Payload::Double(u64_at(data, pos)), pos + 8))
    } else if t == TAG_BYTE_ARRAY {
        match read_numbers::<i8>(data, pos) {
            Err(e) => Err(e),
            Ok((a, q)) => Ok((Payload::ByteArray(a), q)),
        }
    } else if t == TAG_STRING {
        match read_string(data, pos) {
            Err(e) => Err(e),
            Ok((s, q)) => Ok((Payload::String(s), q)),
        }
    } else if t == TAG_LIST {
        if pos >= n {
            return Err(NbtError::UnexpectedEof);
        }
        let et = data[pos];
        read_list_body(data, pos, et)
    } else if t == TAG_COMPOUND {
        match read_compound(data, pos) {
            Err(e) => Err(e),
            Ok((c, q)) => Ok((Payload::Compound(c), q)),
        }
    } else if t == TAG_INT_ARRAY {
        match read_numbers::<i32>(data, pos) {
            Err(e) => Err(e),
            Ok((a, q)) => Ok((Payload::IntArray(a), q)),
        }
    } else if t == TAG_LONG_ARRAY {
        match read_numbers::<i64>(data, pos) {
            Err(e) => Err(e),
            Ok((a, q)) => Ok((Payload::LongArray(a), q)),
        }
    } else {
        Err(NbtError::InvalidTagType(t))
    }
}

/// Reads the rest of a list payload whose item type `et` stands at `pos`.
pub fn read_list_body(data: &[u8], pos: usize, et: u8) -> (r: Result<(Payload, usize), NbtError>)
    requires
        pos < data@.len(),
    ensures
        agrees(r, list_body_at(data@, pos as int, et), |x: Payload| x@),
        r matches Ok((_, q)) ==> pos < q <= data@.len(),
    decreases data@.len() - pos, 1int,
{
    let n = data.len();
    if et == TAG_END {
        if n - pos - 1 < 4 {
            Err(NbtError::UnexpectedEof)
        } else {
            Ok((Payload::EmptyList, pos + 5))
        }
    } else if et == TAG_BYTE {
        match read_numbers::<i8>(data, pos + 1) {
            Err(e) => Err(e),
            Ok((a, q)) => Ok((Payload::ByteList(a), q)),
        }
    } else if et == TAG_SHORT {
        match read_numbers::<i16>(data, pos + 1) {
            Err(e) => Err(e),
            Ok((a, q)) => Ok((Payload::ShortList(a), q)),
        }
    } else if et == TAG_INT {
        match read_numbers::<i32>(data, pos + 1) {
            Err(e) => Err(e),
            Ok((a, q)) => Ok((Payload::IntList(a), q)),
        }
    } else if et == TAG_LONG {
        match read_numbers::<i64>(data, pos + 1) {
            Err(e) => Err(e),
            Ok((a, q)) => Ok((Payload::LongList(a), q)),
        }
    } else if et == TAG_FLOAT {
        match read_numbers::<u32>(data, pos + 1) {
            Err(e) => Err(e),
            Ok((a, q)) => Ok((Payload::FloatList(a), q)),
        }
    } else if et == TAG_DOUBLE {
        match read_numbers::<u64>(data, pos + 1) {
            Err(e) => Err(e),
            Ok((a, q)) => Ok((Payload::DoubleList(a), q)),
        }
    } else if et == TAG_BYTE_ARRAY || et == TAG_STRING || et == TAG_LIST || et == TAG_COMPOUND
        || et == TAG_INT_ARRAY || et == TAG_LONG_ARRAY {
        if n - pos - 1 < 4 {
            return Err(NbtError::UnexpectedEof);
        }
        let count = u32_at(data, pos + 1);
        let start = pos + 5;
        if et == TAG_BYTE_ARRAY {
            match read_number_arrays::<i8>(data, start, count) {
                Err(e) => Err(e),
                Ok((a, q)) => Ok((Payload::ByteArrayList(a), q)),
            }
        } else if et == TAG_STRING {
            match read_strings(data, start, count) {
                Err(e) => Err(e),
                Ok((a, q)) => Ok((Payload::StringList(a), q)),
            }
        } else if et == TAG_LIST {
            match read_lists(data, start, count) {
                Err(e) => Err(e),
                Ok((a, q)) => {
                    proof {
                        let pv = payload_view(Payload::ListList(a));
                        assert(pv is ListList);
                        match pv {
                            PayloadV::ListList(sv) => {
                                assert(sv =~= a@.map_values(|p: Payload| p@));
                            },
                            _ => {},
                        }
                    }
                    Ok((Payload::ListList(a), q))
                },
            }
        } else if et == TAG_COMPOUND {
            match read_compounds(data, start, count) {
                Err(e) => Err(e),
                Ok((a, q)) => {
                    proof {
                        assert(payload_view(Payload::CompoundList(a)) == PayloadV::CompoundList(a@.map_values(|c: Compound| c@))) by {
                            assert(Seq::new(a@.len(), |i: int| if 0 <= i < a@.len() { crate::nbt::compound_view(a@[i]) } else { Seq::empty() })
                                =~= a@.map_values(|c: Compound| c@));
                        }
                    }
                    Ok((Payload::CompoundList(a), q))
                },
            }
        } else if et == TAG_INT_ARRAY {
            match read_number_arrays::<i32>(data, start, count) {
                Err(e) => Err(e),
                Ok((a, q)) => Ok((Payload::IntArrayList(a), q)),
            }
        } else {
            match read_number_arrays::<i64>(data, start, count) {
                Err(e) => Err(e),
                Ok((a, q)) => Ok((Payload::LongArrayList(a), q)),
            }
        }
    } else {
        Err(NbtError::InvalidListTagType(et))
    }
}

/// Bytes after a complete value do not change how it reads.
proof fn lemma_string_prefix(d: Seq<u8>, e: Seq<u8>, p: int)
    requires
        string_at(d, p) is Ok,
    ensures
        string_at(d, p) matches Ok((_, q)) && q <= d.len(),
        string_at(d + e, p) == string_at(d, p),
{
    let n = be_u16_at(d, p);
    if n != 0 {
        assert((d + e).subrange(p + 2, p + 2 + n) =~= d.subrange(p + 2, p + 2 + n));
    }
}

proof fn lemma_numbers_prefix<T: BeElem>(d: Seq<u8>, e: Seq<u8>, p: int)
    requires
        numbers_at::<T>(d, p) is Ok,
    ensures
        numbers_at::<T>(d, p) matches Ok((_, q)) && p + 4 <= q <= d.len(),
        numbers_at::<T>(d + e, p) == numbers_at::<T>(d, p),
{
    let n = be_u32_at(d, p) as nat;
    let w = T::width();
    assert(count_at(d + e, p) == count_at(d, p));
    assert(n * w >= 0) by (nonlinear_arith)
        requires
            n >= 0,
            w >= 0,
    ;
    assert forall|i: int| 0 <= i < n implies #[trigger] T::decode(d + e, p + 4 + i * w)
        == T::decode(d, p + 4 + i * w) by {
        assert(0 <= i * w && i * w + w <= n * w) by (nonlinear_arith)
            requires
                0 <= i < n,
                w >= 0,
        ;
        T::lemma_decode_prefix(d, e, p + 4 + i * w);
    }
    assert(Seq::new(n, |i: int| T::decode(d + e, p + 4 + i * w)) =~= Seq::new(
        n,
        |i: int| T::decode(d, p + 4 + i * w),
    ));
}

proof fn lemma_strings_prefix(d: Seq<u8>, e: Seq<u8>, p: int, n: nat)
    requires
        strings_at(d, p, n) is Ok,
    ensures
        strings_at(d, p, n) matches Ok((_, q)) && q <= d.len() || n == 0,
        strings_at(d + e, p, n) == strings_at(d, p, n),
    decreases n,
{
    if n > 0 {
        lemma_string_prefix(d, e, p);
        let q = string_at(d, p)->Ok_0.1;
        lemma_strings_prefix(d, e, q, (n - 1) as nat);
    }
}

proof fn lemma_number_arrays_prefix<T: BeElem>(d: Seq<u8>, e: Seq<u8>, p: int, n: nat)
    requires
        number_arrays_at::<T>(d, p, n) is Ok,
    ensures
        number_arrays_at::<T>(d, p, n) matches Ok((_, q)) && q <= d.len() || n == 0,
        number_arrays_at::<T>(d + e, p, n) == number_arrays_at::<T>(d, p, n),
    decreases n,
{
    if n > 0 {
        lemma_numbers_prefix::<T>(d, e, p);
        let q = numbers_at::<T>(d, p)->Ok_0.1;
        lemma_number_arrays_prefix::<T>(d, e, q, (n - 1) as nat);
    }
}

proof fn lemma_tag_prefix(d: Seq<u8>, e: Seq<u8>, p: int)
    requires
        tag_at(d, p) is Ok,
    ensures
        tag_at(d, p) matches Ok((_, q)) && q <= d.len(),
        tag_at(d + e, p) == tag_at(d, p),
    decreases d.len() - p, 0int,
{
    let t = d[p];
    if t != TAG_END {
        lemma_string_prefix(d, e, p + 1);
        let q = string_at(d, p + 1)->Ok_0.1;
        lemma_payload_prefix(d, e, q, t);
    }
}

proof fn lemma_entries_prefix(d: Seq<u8>, e: Seq<u8>, p: int)
    requires
        entries_at(d, p) is Ok,
    ensures
        entries_at(d, p) matches Ok((_, q)) && q <= d.len(),
        entries_at(d + e, p) == entries_at(d, p),
    decreases d.len() - p, 1int,
{
    lemma_tag_prefix(d, e, p);
    match tag_at(d, p) {
        Ok((Some(_), q)) => {
            lemma_entries_prefix(d, e, q);
        },
        _ => {},
    }
}

proof fn lemma_lists_prefix(d: Seq<u8>, e: Seq<u8>, p: int, n: nat)
    requires
        lists_at(d, p, n) is Ok,
        p <= d.len(),
    ensures
        lists_at(d, p, n) matches Ok((_, q)) && q <= d.len(),
        lists_at(d + e, p, n) == lists_at(d, p, n),
    decreases d.len() - p, 3int,
{
    if n > 0 {
        lemma_payload_prefix(d, e, p, TAG_LIST);
        let q = payload_at(d, p, TAG_LIST)->Ok_0.1;
        lemma_lists_prefix(d, e, q, (n - 1) as nat);
    }
}

proof fn lemma_compounds_prefix(d: Seq<u8>, e: Seq<u8>, p: int, n: nat)
    requires
        compounds_at(d, p, n) is Ok,
        p <= d.len(),
    ensures
        compounds_at(d, p, n) matches Ok((_, q)) && q <= d.len(),
        compounds_at(d + e, p, n) == compounds_at(d, p, n),
    decreases d.len() - p, 3int,
{
    if n > 0 {
        lemma_entries_prefix(d, e, p);
        let q = entries_at(d, p)->Ok_0.1;
        lemma_compounds_prefix(d, e, q, (n - 1) as nat);
    }
}

proof fn lemma_payload_prefix(d: Seq<u8>, e: Seq<u8>, p: int, t: u8)
    requires
        payload_at(d, p, t) is Ok,
    ensures
        payload_at(d, p, t) matches Ok((_, q)) && q <= d.len(),
        payload_at(d + e, p, t) == payload_at(d, p, t),
    decreases d.len() - p, 2int,
{
    if t == TAG_BYTE_ARRAY {
        lemma_numbers_prefix::<i8>(d, e, p);
    } else if t == TAG_STRING {
        lemma_string_prefix(d, e, p);
    } else if t == TAG_LIST {
        lemma_list_body_prefix(d, e, p, d[p]);
    } else if t == TAG_COMPOUND {
        lemma_entries_prefix(d, e, p);
    } else if t == TAG_INT_ARRAY {
        lemma_numbers_prefix::<i32>(d, e, p);
    } else if t == TAG_LONG_ARRAY {
        lemma_numbers_prefix::<i64>(d, e, p);
    } else if t == TAG_SHORT || t == TAG_INT || t == TAG_LONG || t == TAG_FLOAT || t == TAG_DOUBLE {
        assert(forall|k: int| 0 <= k < d.len() ==> (d + e)[k] == d[k]);
    }
}

proof fn lemma_list_body_prefix(d: Seq<u8>, e: Seq<u8>, p: int, et: u8)
    requires
        list_body_at(d, p, et) is Ok,
        0 <= p < d.len(),
    ensures
        list_body_at(d, p, et) matches Ok((_, q)) && q <= d.len(),
        list_body_at(d + e, p, et) == list_body_at(d, p, et),
    decreases d.len() - p, 1int,
{
    if et == TAG_BYTE {
        lemma_numbers_prefix::<i8>(d, e, p + 1);
    } else if et == TAG_SHORT {
        lemma_numbers_prefix::<i16>(d, e, p + 1);
    } else if et == TAG_INT {
        lemma_numbers_prefix::<i32>(d, e, p + 1);
    } else if et == TAG_LONG {
        lemma_numbers_prefix::<i64>(d, e, p + 1);
    } else if et == TAG_FLOAT {
        lemma_numbers_prefix::<u32>(d, e, p + 1);
    } else if et == TAG_DOUBLE {
        lemma_numbers_prefix::<u64>(d, e, p + 1);
    } else if et == TAG_BYTE_ARRAY || et == TAG_STRING || et == TAG_LIST || et == TAG_COMPOUND
        || et == TAG_INT_ARRAY || et == TAG_LONG_ARRAY {
        assert(count_at(d + e, p + 1) == count_at(d, p + 1));
        let n = count_at(d, p + 1)->Some_0;
        if et == TAG_BYTE_ARRAY {
            lemma_number_arrays_prefix::<i8>(d, e, p + 5, n);
        } else if et == TAG_STRING {
            lemma_strings_prefix(d, e, p + 5, n);
        } else if et == TAG_LIST {
            lemma_lists_prefix(d, e, p + 5, n);
        } else if et == TAG_COMPOUND {
            lemma_compounds_prefix(d, e, p + 5, n);
        } else if et == TAG_INT_ARRAY {
            lemma_number_arrays_prefix::<i32>(d, e, p + 5, n);
        } else {
            lemma_number_arrays_prefix::<i64>(d, e, p + 5, n);
        }
    }
}

/// Reading stops at the end of the root tag: bytes after a complete
/// document do not change what it reads as.
pub proof fn law_trailing_bytes_ignored(d: Seq<u8>, e: Seq<u8>)
    requires
        root_of(d) is Ok,
    ensures
        root_of(d + e) == root_of(d),
{
    lemma_tag_prefix(d, e, 0);
}

/// A document that reads successfully never has `TAG_End` at its root.
pub proof fn law_root_is_not_end(d: Seq<u8>)
    ensures
        root_of(d) matches Ok(r) ==> r.data.tag != TAG_END,
{
}


/// The tag type a payload is read under: its own for numbers, strings,
/// arrays and compounds, `TAG_List` for every kind of list.
pub open spec fn payload_tag(v: PayloadV) -> u8 {
    match v {
        PayloadV::Byte(_) => 1,
        PayloadV::Short(_) => 2,
        PayloadV::Int(_) => 3,
        PayloadV::Long(_) => 4,
        PayloadV::Float(_) => 5,
        PayloadV::Double(_) => 6,
        PayloadV::ByteArray(_) => 7,
        PayloadV::String(_) => 8,
        PayloadV::Compound(_) => 10,
        PayloadV::IntArray(_) => 11,
        PayloadV::LongArray(_) => 12,
        _ => 9,
    }
}

/// The item type of a list payload (`TAG_End` for the empty list), 255 for
/// any other payload.
pub open spec fn list_item_tag(v: PayloadV) -> u8 {
    match v {
        PayloadV::EmptyList => 0,
        PayloadV::ByteList(_) => 1,
        PayloadV::ShortList(_) => 2,
        PayloadV::IntList(_) => 3,
        PayloadV::LongList(_) => 4,
        PayloadV::FloatList(_) => 5,
        PayloadV::DoubleList(_) => 6,
        PayloadV::ByteArrayList(_) => 7,
        PayloadV::StringList(_) => 8,
        PayloadV::ListList(_) => 9,
        PayloadV::CompoundList(_) => 10,
        PayloadV::IntArrayList(_) => 11,
        PayloadV::LongArrayList(_) => 12,
        _ => 255,
    }
}

/// The number of items of a list payload.
pub open spec fn list_len(v: PayloadV) -> int {
    match v {
        PayloadV::ByteList(a) => a.len() as int,
        PayloadV::ShortList(a) => a.len() as int,
        PayloadV::IntList(a) => a.len() as int,
        PayloadV::LongList(a) => a.len() as int,
        PayloadV::FloatList(a) => a.len() as int,
        PayloadV::DoubleList(a) => a.len() as int,
        PayloadV::ByteArrayList(a) => a.len() as int,
        PayloadV::StringList(a) => a.len() as int,
        PayloadV::ListList(a) => a.len() as int,
        PayloadV::CompoundList(a) => a.len() as int,
        PayloadV::IntArrayList(a) => a.len() as int,
        PayloadV::LongArrayList(a) => a.len() as int,
        _ => 0,
    }
}

/// Fixed-width values: a byte is one byte taken as two's complement; a short,
/// int and long are 2, 4 and 8 bytes, most significant first, taken as two's
/// complement; a float and a double are the bits of 4 and 8 bytes, most
/// significant first. Too few bytes is the end-of-data error.
pub proof fn law_scalar_payloads(d: Seq<u8>, p: int)
    requires
        0 <= p,
    ensures
        payload_at(d, p, TAG_BYTE) == if p + 1 <= d.len() {
            Ok((PayloadV::Byte(i8_of(d[p])), p + 1))
        } else {
            Err(NbtError::UnexpectedEof)
        },
        payload_at(d, p, TAG_SHORT) == if p + 2 <= d.len() {
            Ok((PayloadV::Short(be_i16_at(d, p)), p + 2))
        } else {
            Err(NbtError::UnexpectedEof)
        },
        payload_at(d, p, TAG_INT) == if p + 4 <= d.len() {
            Ok((PayloadV::Int(be_i32_at(d, p)), p + 4))
        } else {
            Err(NbtError::UnexpectedEof)
        },
        payload_at(d, p, TAG_LONG) == if p + 8 <= d.len() {
            Ok((PayloadV::Long(be_i64_at(d, p)), p + 8))
        } else {
            Err(NbtError::UnexpectedEof)
        },
        payload_at(d, p, TAG_FLOAT) == if p + 4 <= d.len() {
            Ok((PayloadV::Float(be_u32_at(d, p) as u32), p + 4))
        } else {
            Err(NbtError::UnexpectedEof)
        },
        payload_at(d, p, TAG_DOUBLE) == if p + 8 <= d.len() {
            Ok((PayloadV::Double(be_u64_at(d, p) as u64), p + 8))
        } else {
            Err(NbtError::UnexpectedEof)
        },
{
}

/// A string is a big-endian `u16` byte count, then that many bytes of
/// (lossily decoded) UTF-8.
pub proof fn law_string_payload(d: Seq<u8>, p: int)
    requires
        0 <= p,
    ensures
        payload_at(d, p, TAG_STRING) == if p + 2 > d.len() {
            Err(NbtError::UnexpectedEof)
        } else if be_u16_at(d, p) == 0 {
            Ok((PayloadV::String(Seq::empty()), p + 2))
        } else if p + 2 + be_u16_at(d, p) > d.len() {
            Err(NbtError::UnexpectedEof)
        } else {
            Ok(
                (
                    PayloadV::String(utf8_lossy(d.subrange(p + 2, p + 2 + be_u16_at(d, p)))),
                    p + 2 + be_u16_at(d, p),
                ),
            )
        },
{
}

/// An array is a big-endian `u32` count `n` at `p`, then `n` values of the
/// array's width, one after another.
pub proof fn law_array_payloads(d: Seq<u8>, p: int)
    requires
        0 <= p,
    ensures
        payload_at(d, p, TAG_BYTE_ARRAY) == if p + 4 > d.len() || p + 4 + be_u32_at(d, p) > d.len() {
            Err(NbtError::UnexpectedEof)
        } else {
            Ok(
                (
                    PayloadV::ByteArray(Seq::new(be_u32_at(d, p) as nat, |i: int| i8_of(d[p + 4 + i]))),
                    p + 4 + be_u32_at(d, p),
                ),
            )
        },
        payload_at(d, p, TAG_INT_ARRAY) == if p + 4 > d.len() || p + 4 + 4 * be_u32_at(d, p)
            > d.len() {
            Err(NbtError::UnexpectedEof)
        } else {
            Ok(
                (
                    PayloadV::IntArray(
                        Seq::new(be_u32_at(d, p) as nat, |i: int| be_i32_at(d, p + 4 + 4 * i)),
                    ),
                    p + 4 + 4 * be_u32_at(d, p),
                ),
            )
        },
        payload_at(d, p, TAG_LONG_ARRAY) == if p + 4 > d.len() || p + 4 + 8 * be_u32_at(d, p)
            > d.len() {
            Err(NbtError::UnexpectedEof)
        } else {
            Ok(
                (
                    PayloadV::LongArray(
                        Seq::new(be_u32_at(d, p) as nat, |i: int| be_i64_at(d, p + 4 + 8 * i)),
                    ),
                    p + 4 + 8 * be_u32_at(d, p),
                ),
            )
        },
{
    let n = be_u32_at(d, p);
    if p + 4 <= d.len() {
        assert(count_at(d, p) == Some(n as nat));
        if p + 4 + n <= d.len() {
            assert(Seq::new(n as nat, |i: int| i8::decode(d, p + 4 + i * i8::width())) =~= Seq::new(
                n as nat,
                |i: int| i8_of(d[p + 4 + i]),
            ));
        }
        if p + 4 + 4 * n <= d.len() {
            assert(Seq::new(n as nat, |i: int| i32::decode(d, p + 4 + i * i32::width())) =~= Seq::new(
                n as nat,
                |i: int| be_i32_at(d, p + 4 + 4 * i),
            ));
        }
        if p + 4 + 8 * n <= d.len() {
            assert(Seq::new(n as nat, |i: int| i64::decode(d, p + 4 + i * i64::width())) =~= Seq::new(
                n as nat,
                |i: int| be_i64_at(d, p + 4 + 8 * i),
            ));
        }
    }
}

proof fn lemma_entries_advance(d: Seq<u8>, p: int)
    ensures
        entries_at(d, p) matches Ok((_, q)) ==> p < q,
    decreases d.len() - p,
{
    match tag_at(d, p) {
        Ok((Some(_), q)) => {
            if p < q <= d.len() {
                lemma_entries_advance(d, q);
            }
        },
        _ => {},
    }
}

proof fn lemma_strings_len(d: Seq<u8>, p: int, n: nat)
    ensures
        strings_at(d, p, n) matches Ok((a, r)) ==> a.len() == n && r >= p,
    decreases n,
{
    if n > 0 {
        match string_at(d, p) {
            Ok((_, q)) => lemma_strings_len(d, q, (n - 1) as nat),
            Err(_) => {},
        }
    }
}

proof fn lemma_number_arrays_len<T: BeElem>(d: Seq<u8>, p: int, n: nat)
    ensures
        number_arrays_at::<T>(d, p, n) matches Ok((a, r)) ==> a.len() == n && r >= p,
    decreases n,
{
    if n > 0 {
        match numbers_at::<T>(d, p) {
            Ok((_, q)) => lemma_number_arrays_len::<T>(d, q, (n - 1) as nat),
            Err(_) => {},
        }
    }
}

proof fn lemma_lists_len(d: Seq<u8>, p: int, n: nat)
    ensures
        lists_at(d, p, n) matches Ok((a, r)) ==> a.len() == n && r >= p,
    decreases n,
{
    if n > 0 {
        match payload_at(d, p, TAG_LIST) {
            Ok((_, q)) => lemma_lists_len(d, q, (n - 1) as nat),
            Err(_) => {},
        }
    }
}

proof fn lemma_compounds_len(d: Seq<u8>, p: int, n: nat)
    ensures
        compounds_at(d, p, n) matches Ok((a, r)) ==> a.len() == n && r >= p,
    decreases n,
{
    if n > 0 {
        match entries_at(d, p) {
            Ok((_, q)) => lemma_compounds_len(d, q, (n - 1) as nat),
            Err(_) => {},
        }
    }
}

/// The item type byte decides the kind of list: a list read with item type
/// `et` is the list of that item type, and (but for a list of `TAG_End`
/// items, which is empty) it holds as many items as the big-endian `u32`
/// count after the type byte says. An unknown item type is refused.
pub proof fn law_list_kinds(d: Seq<u8>, p: int, et: u8)
    requires
        0 <= p,
    ensures
        list_body_at(d, p, et) matches Ok((v, q)) ==> list_item_tag(v) == et && p < q && (et
            != TAG_END ==> list_len(v) == be_u32_at(d, p + 1)),
        et > TAG_LONG_ARRAY ==> list_body_at(d, p, et) == Err::<(PayloadV, int), NbtError>(
            NbtError::InvalidListTagType(et),
        ),
{
    if p + 5 <= d.len() {
        let n = be_u32_at(d, p + 1) as nat;
        lemma_strings_len(d, p + 5, n);
        lemma_number_arrays_len::<i8>(d, p + 5, n);
        lemma_number_arrays_len::<i32>(d, p + 5, n);
        lemma_number_arrays_len::<i64>(d, p + 5, n);
        lemma_lists_len(d, p + 5, n);
        lemma_compounds_len(d, p + 5, n);
    }
}

/// The tag type decides the kind of payload: a payload read as type `t` is
/// of that type (a list's kind being decided by its item type byte), and an
/// unknown type is refused.
pub proof fn law_payload_kinds(d: Seq<u8>, p: int, t: u8)
    requires
        0 <= p,
    ensures
        payload_at(d, p, t) matches Ok((v, q)) ==> payload_tag(v) == t && p < q,
        t == TAG_LIST && p < d.len() ==> payload_at(d, p, t) == list_body_at(d, p, d[p]),
        t == TAG_END || t > TAG_LONG_ARRAY ==> payload_at(d, p, t) == Err::<(PayloadV, int), NbtError>(
            NbtError::InvalidTagType(t),
        ),
{
    if t == TAG_LIST && p < d.len() {
        law_list_kinds(d, p, d[p]);
    }
    if t == TAG_COMPOUND {
        lemma_entries_advance(d, p);
    }
}

/// A list of numbers: the item type byte at `p`, a big-endian `u32` count
/// `n` after it, then `n` values of the item type's width, one after
/// another; a list of `TAG_End` items is empty and ends after its count.
pub proof fn law_number_lists(d: Seq<u8>, p: int)
    requires
        0 <= p < d.len(),
    ensures
        d[p] == TAG_END ==> payload_at(d, p, TAG_LIST) == if p + 5 <= d.len() {
            Ok((PayloadV::EmptyList, p + 5))
        } else {
            Err(NbtError::UnexpectedEof)
        },
        d[p] == TAG_BYTE ==> payload_at(d, p, TAG_LIST) == if p + 5 > d.len() || p + 5 + be_u32_at(
            d,
            p + 1,
        ) > d.len() {
            Err(NbtError::UnexpectedEof)
        } else {
            Ok(
                (
                    PayloadV::ByteList(
                        Seq::new(be_u32_at(d, p + 1) as nat, |i: int| i8_of(d[p + 5 + i])),
                    ),
                    p + 5 + be_u32_at(d, p + 1),
                ),
            )
        },
        d[p] == TAG_SHORT ==> payload_at(d, p, TAG_LIST) == if p + 5 > d.len() || p + 5 + 2
            * be_u32_at(d, p + 1) > d.len() {
            Err(NbtError::UnexpectedEof)
        } else {
            Ok(
                (
                    PayloadV::ShortList(
                        Seq::new(be_u32_at(d, p + 1) as nat, |i: int| be_i16_at(d, p + 5 + 2 * i)),
                    ),
                    p + 5 + 2 * be_u32_at(d, p + 1),
                ),
            )
        },
        d[p] == TAG_INT ==> payload_at(d, p, TAG_LIST) == if p + 5 > d.len() || p + 5 + 4
            * be_u32_at(d, p + 1) > d.len() {
            Err(NbtError::UnexpectedEof)
        } else {
            Ok(
                (
                    PayloadV::IntList(
                        Seq::new(be_u32_at(d, p + 1) as nat, |i: int| be_i32_at(d, p + 5 + 4 * i)),
                    ),
                    p + 5 + 4 * be_u32_at(d, p + 1),
                ),
            )
        },
        d[p] == TAG_LONG ==> payload_at(d, p, TAG_LIST) == if p + 5 > d.len() || p + 5 + 8
            * be_u32_at(d, p + 1) > d.len() {
            Err(NbtError::UnexpectedEof)
        } else {
            Ok(
                (
                    PayloadV::LongList(
                        Seq::new(be_u32_at(d, p + 1) as nat, |i: int| be_i64_at(d, p + 5 + 8 * i)),
                    ),
                    p + 5 + 8 * be_u32_at(d, p + 1),
                ),
            )
        },
        d[p] == TAG_FLOAT ==> payload_at(d, p, TAG_LIST) == if p + 5 > d.len() || p + 5 + 4
            * be_u32_at(d, p + 1) > d.len() {
            Err(NbtError::UnexpectedEof)
        } else {
            Ok(
                (
                    PayloadV::FloatList(
                        Seq::new(
                            be_u32_at(d, p + 1) as nat,
                            |i: int| be_u32_at(d, p + 5 + 4 * i) as u32,
                        ),
                    ),
                    p + 5 + 4 * be_u32_at(d, p + 1),
                ),
            )
        },
        d[p] == TAG_DOUBLE ==> payload_at(d, p, TAG_LIST) == if p + 5 > d.len() || p + 5 + 8
            * be_u32_at(d, p + 1) > d.len() {
            Err(NbtError::UnexpectedEof)
        } else {
            Ok(
                (
                    PayloadV::DoubleList(
                        Seq::new(
                            be_u32_at(d, p + 1) as nat,
                            |i: int| be_u64_at(d, p + 5 + 8 * i) as u64,
                        ),
                    ),
                    p + 5 + 8 * be_u32_at(d, p + 1),
                ),
            )
        },
{
    let n = be_u32_at(d, p + 1);
    let q = p + 1;
    if p + 5 <= d.len() {
        assert(count_at(d, q) == Some(n as nat));
        if d[p] == TAG_BYTE && p + 5 + n <= d.len() {
            assert(Seq::new(n as nat, |i: int| i8::decode(d, q + 4 + i * i8::width())) =~= Seq::new(
                n as nat,
                |i: int| i8_of(d[p + 5 + i]),
            ));
        }
        if d[p] == TAG_SHORT && p + 5 + 2 * n <= d.len() {
            assert(Seq::new(n as nat, |i: int| i16::decode(d, q + 4 + i * i16::width())) =~= Seq::new(
                n as nat,
                |i: int| be_i16_at(d, p + 5 + 2 * i),
            ));
        }
        if d[p] == TAG_INT && p + 5 + 4 * n <= d.len() {
            assert(Seq::new(n as nat, |i: int| i32::decode(d, q + 4 + i * i32::width())) =~= Seq::new(
                n as nat,
                |i: int| be_i32_at(d, p + 5 + 4 * i),
            ));
        }
        if d[p] == TAG_LONG && p + 5 + 8 * n <= d.len() {
            assert(Seq::new(n as nat, |i: int| i64::decode(d, q + 4 + i * i64::width())) =~= Seq::new(
                n as nat,
                |i: int| be_i64_at(d, p + 5 + 8 * i),
            ));
        }
        if d[p] == TAG_FLOAT && p + 5 + 4 * n <= d.len() {
            assert(Seq::new(n as nat, |i: int| u32::decode(d, q + 4 + i * u32::width())) =~= Seq::new(
                n as nat,
                |i: int| be_u32_at(d, p + 5 + 4 * i) as u32,
            ));
        }
        if d[p] == TAG_DOUBLE && p + 5 + 8 * n <= d.len() {
            assert(Seq::new(n as nat, |i: int| u64::decode(d, q + 4 + i * u64::width())) =~= Seq::new(
                n as nat,
                |i: int| be_u64_at(d, p + 5 + 8 * i) as u64,
            ));
        }
    }
}

/// A named tag is its type byte; then, unless the type is `TAG_End`, its
/// name as a string payload and its value as a payload of that type.
pub proof fn law_tag_layout(d: Seq<u8>, p: int)
    requires
        0 <= p,
    ensures
        p >= d.len() ==> tag_at(d, p) == Err::<(Option<(Seq<char>, TagV)>, int), NbtError>(
            NbtError::UnexpectedEof,
        ),
        p < d.len() && d[p] == TAG_END ==> tag_at(d, p) == Ok::<
            (Option<(Seq<char>, TagV)>, int),
            NbtError,
        >((None, p + 1)),
        p < d.len() && d[p] != TAG_END ==> tag_at(d, p) == match payload_at(d, p + 1, TAG_STRING) {
            Err(e) => Err(e),
            Ok((PayloadV::String(name), q)) => match payload_at(d, q, d[p]) {
                Err(e) => Err(e),
                Ok((v, r)) => Ok((Some((name, TagV { tag: d[p], payload: v })), r)),
            },
            Ok(_) => Err(NbtError::UnexpectedEof),
        },
{
}

/// The items of a list of strings, arrays, lists or compounds are read one
/// after another, each as a payload of the item type.
pub proof fn law_list_items(d: Seq<u8>, p: int, n: nat)
    requires
        0 <= p,
        n > 0,
    ensures
        strings_at(d, p, n) == match payload_at(d, p, TAG_STRING) {
            Err(e) => Err(e),
            Ok((PayloadV::String(s), q)) => match strings_at(d, q, (n - 1) as nat) {
                Err(e) => Err(e),
                Ok((rest, r)) => Ok((seq![s] + rest, r)),
            },
            Ok(_) => Err(NbtError::UnexpectedEof),
        },
        number_arrays_at::<i8>(d, p, n) == match payload_at(d, p, TAG_BYTE_ARRAY) {
            Err(e) => Err(e),
            Ok((PayloadV::ByteArray(a), q)) => match number_arrays_at::<i8>(d, q, (n - 1) as nat) {
                Err(e) => Err(e),
                Ok((rest, r)) => Ok((seq![a] + rest, r)),
            },
            Ok(_) => Err(NbtError::UnexpectedEof),
        },
        number_arrays_at::<i32>(d, p, n) == match payload_at(d, p, TAG_INT_ARRAY) {
            Err(e) => Err(e),
            Ok((PayloadV::IntArray(a), q)) => match number_arrays_at::<i32>(d, q, (n - 1) as nat) {
                Err(e) => Err(e),
                Ok((rest, r)) => Ok((seq![a] + rest, r)),
            },
            Ok(_) => Err(NbtError::UnexpectedEof),
        },
        number_arrays_at::<i64>(d, p, n) == match payload_at(d, p, TAG_LONG_ARRAY) {
            Err(e) => Err(e),
            Ok((PayloadV::LongArray(a), q)) => match number_arrays_at::<i64>(d, q, (n - 1) as nat) {
                Err(e) => Err(e),
                Ok((rest, r)) => Ok((seq![a] + rest, r)),
            },
            Ok(_) => Err(NbtError::UnexpectedEof),
        },
        lists_at(d, p, n) == match payload_at(d, p, TAG_LIST) {
            Err(e) => Err(e),
            Ok((x, q)) => if q <= d.len() {
                match lists_at(d, q, (n - 1) as nat) {
                    Err(e) => Err(e),
                    Ok((rest, r)) => Ok((seq![x] + rest, r)),
                }
            } else {
                Err(NbtError::UnexpectedEof)
            },
        },
        compounds_at(d, p, n) == match payload_at(d, p, TAG_COMPOUND) {
            Err(e) => Err(e),
            Ok((PayloadV::Compound(c), q)) => if q <= d.len() {
                match compounds_at(d, q, (n - 1) as nat) {
                    Err(e) => Err(e),
                    Ok((rest, r)) => Ok((seq![c] + rest, r)),
                }
            } else {
                Err(NbtError::UnexpectedEof)
            },
            Ok(_) => Err(NbtError::UnexpectedEof),
        },
{
    law_payload_kinds(d, p, TAG_LIST);
    lemma_entries_advance(d, p);
}

} // verus!
