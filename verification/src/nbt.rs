//! The NBT data model: tags, payloads, compounds, and their mathematical views.
//!
//! A compound keeps its entries ordered by key, each key once, as a map ordered
//! by key does; the view of a compound is that ordered sequence of entries.

use crate::parse::{read_tag, root_of, NbtError};
use vstd::prelude::*;

verus! {

broadcast use vstd::std_specs::vec::axiom_vec_decreases_to_view, vstd::seq::axiom_seq_index_decreases;

pub const TAG_END: u8 = 0x00;

pub const TAG_BYTE: u8 = 0x01;

pub const TAG_SHORT: u8 = 0x02;

pub const TAG_INT: u8 = 0x03;

pub const TAG_LONG: u8 = 0x04;

pub const TAG_FLOAT: u8 = 0x05;

pub const TAG_DOUBLE: u8 = 0x06;

pub const TAG_BYTE_ARRAY: u8 = 0x07;

pub const TAG_STRING: u8 = 0x08;

pub const TAG_LIST: u8 = 0x09;

pub const TAG_COMPOUND: u8 = 0x0A;

pub const TAG_INT_ARRAY: u8 = 0x0B;

pub const TAG_LONG_ARRAY: u8 = 0x0C;

/// The mathematical value of a [`Payload`]. Floating-point values are held by
/// their IEEE 754 bit patterns.
pub enum PayloadV {
    Byte(i8),
    Short(i16),
    Int(i32),
    Long(i64),
    Float(u32),
    Double(u64),
    String(Seq<char>),
    Compound(Seq<(Seq<char>, TagV)>),
    ByteArray(Seq<i8>),
    IntArray(Seq<i32>),
    LongArray(Seq<i64>),
    EmptyList,
    ByteList(Seq<i8>),
    ShortList(Seq<i16>),
    IntList(Seq<i32>),
    LongList(Seq<i64>),
    FloatList(Seq<u32>),
    DoubleList(Seq<u64>),
    StringList(Seq<Seq<char>>),
    ByteArrayList(Seq<Seq<i8>>),
    IntArrayList(Seq<Seq<i32>>),
    LongArrayList(Seq<Seq<i64>>),
    ListList(Seq<PayloadV>),
    CompoundList(Seq<Seq<(Seq<char>, TagV)>>),
}

/// The mathematical value of a [`TagData`]: the tag it was read as, and its payload.
pub struct TagV {
    pub tag: u8,
    pub payload: PayloadV,
}

/// The mathematical value of a [`RootTag`].
pub struct RootV {
    pub name: Seq<char>,
    pub data: TagV,
}

/// Strict order on keys: lexicographic by Unicode code point, which is the
/// order of `String`'s `Ord` (UTF-8 preserves code point order byte by byte).
pub open spec fn key_lt(a: Seq<char>, b: Seq<char>) -> bool
    decreases a.len(),
{
    if a.len() == 0 {
        b.len() > 0
    } else if b.len() == 0 {
        false
    } else if a[0] != b[0] {
        (a[0] as u32) < (b[0] as u32)
    } else {
        key_lt(a.drop_first(), b.drop_first())
    }
}

/// Entries are in strictly increasing key order (so no key occurs twice).
pub open spec fn keys_sorted(s: Seq<(Seq<char>, TagV)>) -> bool {
    forall|i: int, j: int| 0 <= i < j < s.len() ==> key_lt(#[trigger] s[i].0, #[trigger] s[j].0)
}

/// The index at which `k` belongs in `s`: the first entry whose key is not below `k`.
pub open spec fn insert_pos(s: Seq<(Seq<char>, TagV)>, k: Seq<char>) -> int
    decreases s.len(),
{
    if s.len() == 0 {
        0
    } else if key_lt(s[0].0, k) {
        1 + insert_pos(s.drop_first(), k)
    } else {
        0
    }
}

/// Inserting into an ordered compound: the value of an existing key is replaced,
/// a new key is placed where the order puts it.
pub open spec fn sorted_insert(s: Seq<(Seq<char>, TagV)>, k: Seq<char>, v: TagV) -> Seq<
    (Seq<char>, TagV),
> {
    let i = insert_pos(s, k);
    if i < s.len() && s[i].0 == k {
        s.update(i, (k, v))
    } else {
        s.insert(i, (k, v))
    }
}

/// The compound made by inserting `raw`'s entries one after another, in order:
/// of entries with the same key, the last one wins.
pub open spec fn build_compound(raw: Seq<(Seq<char>, TagV)>) -> Seq<(Seq<char>, TagV)>
    decreases raw.len(),
{
    if raw.len() == 0 {
        Seq::empty()
    } else {
        sorted_insert(build_compound(raw.drop_last()), raw.last().0, raw.last().1)
    }
}

/// Whether some entry of `s` has key `k`.
pub open spec fn has_key(s: Seq<(Seq<char>, TagV)>, k: Seq<char>) -> bool {
    exists|i: int| 0 <= i < s.len() && #[trigger] s[i].0 == k
}

/// An index of an entry with key `k` (the only one, in an ordered compound).
pub open spec fn key_index(s: Seq<(Seq<char>, TagV)>, k: Seq<char>) -> int {
    choose|i: int| 0 <= i < s.len() && #[trigger] s[i].0 == k
}

/// A compound read as a map from keys to tags.
pub open spec fn compound_map(s: Seq<(Seq<char>, TagV)>) -> Map<Seq<char>, TagV> {
    Map::new(|k: Seq<char>| has_key(s, k), |k: Seq<char>| s[key_index(s, k)].1)
}

/// The value stored under the last entry of `raw` with key `k`, if any.
pub open spec fn last_with_key(raw: Seq<(Seq<char>, TagV)>, k: Seq<char>) -> Option<TagV>
    decreases raw.len(),
{
    if raw.len() == 0 {
        None
    } else if raw.last().0 == k {
        Some(raw.last().1)
    } else {
        last_with_key(raw.drop_last(), k)
    }
}

pub proof fn lemma_key_lt_irreflexive(a: Seq<char>)
    ensures
        !key_lt(a, a),
    decreases a.len(),
{
    if a.len() > 0 {
        lemma_key_lt_irreflexive(a.drop_first());
    }
}

pub proof fn lemma_key_lt_transitive(a: Seq<char>, b: Seq<char>, c: Seq<char>)
    requires
        key_lt(a, b),
        key_lt(b, c),
    ensures
        key_lt(a, c),
    decreases a.len(),
{
    if a.len() > 0 && b.len() > 0 && c.len() > 0 && a[0] == b[0] && b[0] == c[0] {
        lemma_key_lt_transitive(a.drop_first(), b.drop_first(), c.drop_first());
    }
}

pub proof fn lemma_key_lt_total(a: Seq<char>, b: Seq<char>)
    ensures
        a == b || key_lt(a, b) || key_lt(b, a),
    decreases a.len(),
{
    if a.len() > 0 && b.len() > 0 {
        vstd::utf8::char_u32_cast(a[0], a[0] as u32);
        vstd::utf8::char_u32_cast(b[0], b[0] as u32);
    }
    if a.len() == 0 && b.len() == 0 {
        assert(a =~= b);
    } else if a.len() > 0 && b.len() > 0 && a[0] == b[0] {
        lemma_key_lt_total(a.drop_first(), b.drop_first());
        if a.drop_first() == b.drop_first() {
            assert(a =~= seq![a[0]] + a.drop_first());
            assert(b =~= seq![b[0]] + b.drop_first());
        }
    }
}

pub proof fn lemma_key_lt_asymmetric(a: Seq<char>, b: Seq<char>)
    requires
        key_lt(a, b),
    ensures
        !key_lt(b, a),
        a != b,
{
    lemma_key_lt_irreflexive(a);
    if key_lt(b, a) {
        lemma_key_lt_transitive(a, b, a);
    }
}

/// `insert_pos` is the first index whose key is not below `k`.
pub proof fn lemma_insert_pos(s: Seq<(Seq<char>, TagV)>, k: Seq<char>, i: int)
    requires
        0 <= i <= s.len(),
        forall|j: int| 0 <= j < i ==> key_lt(#[trigger] s[j].0, k),
        i == s.len() || !key_lt(s[i].0, k),
    ensures
        insert_pos(s, k) == i,
    decreases i,
{
    if i > 0 {
        let t = s.drop_first();
        assert forall|j: int| 0 <= j < i - 1 implies key_lt(#[trigger] t[j].0, k) by {
            assert(t[j] == s[j + 1]);
        }
        if i - 1 < t.len() {
            assert(t[i - 1] == s[i]);
        }
        lemma_insert_pos(t, k, i - 1);
        assert(key_lt(s[0].0, k));
    }
}

/// In an ordered compound, the entries before `insert_pos` have keys below `k`,
/// the others keys not below `k`.
pub proof fn lemma_insert_pos_split(s: Seq<(Seq<char>, TagV)>, k: Seq<char>)
    requires
        keys_sorted(s),
    ensures
        0 <= insert_pos(s, k) <= s.len(),
        forall|j: int| 0 <= j < insert_pos(s, k) ==> key_lt(#[trigger] s[j].0, k),
        forall|j: int| insert_pos(s, k) <= j < s.len() ==> !key_lt(#[trigger] s[j].0, k),
    decreases s.len(),
{
    if s.len() > 0 {
        let t = s.drop_first();
        assert forall|i: int, j: int| 0 <= i < j < t.len() implies key_lt(
            #[trigger] t[i].0,
            #[trigger] t[j].0,
        ) by {
            assert(t[i] == s[i + 1] && t[j] == s[j + 1]);
        }
        lemma_insert_pos_split(t, k);
        if key_lt(s[0].0, k) {
            assert forall|j: int| 0 <= j < insert_pos(s, k) implies key_lt(#[trigger] s[j].0, k) by {
                if j > 0 {
                    assert(s[j] == t[j - 1]);
                }
            }
            assert forall|j: int| insert_pos(s, k) <= j < s.len() implies !key_lt(
                #[trigger] s[j].0,
                k,
            ) by {
                assert(s[j] == t[j - 1]);
            }
        } else {
            assert forall|j: int| 0 <= j < s.len() implies !key_lt(#[trigger] s[j].0, k) by {
                if j > 0 && key_lt(s[j].0, k) {
                    lemma_key_lt_total(s[0].0, k);
                    if s[0].0 == k {
                        lemma_key_lt_asymmetric(s[0].0, s[j].0);
                    } else {
                        lemma_key_lt_transitive(k, s[0].0, s[j].0);
                        lemma_key_lt_asymmetric(k, s[j].0);
                    }
                }
            }
        }
    }
}

/// Inserting keeps a compound ordered, and acts on it as a map insert does.
pub proof fn lemma_sorted_insert(s: Seq<(Seq<char>, TagV)>, k: Seq<char>, v: TagV)
    requires
        keys_sorted(s),
    ensures
        keys_sorted(sorted_insert(s, k, v)),
        compound_map(sorted_insert(s, k, v)) == compound_map(s).insert(k, v),
{
    lemma_insert_pos_split(s, k);
    let i = insert_pos(s, k);
    let r = sorted_insert(s, k, v);
    if i < s.len() && s[i].0 == k {
        assert forall|a: int, b: int| 0 <= a < b < r.len() implies key_lt(
            #[trigger] r[a].0,
            #[trigger] r[b].0,
        ) by {
            assert(r[a].0 == s[a].0 && r[b].0 == s[b].0);
        }
    } else {
        assert forall|a: int, b: int| 0 <= a < b < r.len() implies key_lt(
            #[trigger] r[a].0,
            #[trigger] r[b].0,
        ) by {
            if b < i {
                assert(r[a] == s[a] && r[b] == s[b]);
            } else if b == i {
                assert(r[a] == s[a]);
            } else if a == i {
                assert(r[b] == s[b - 1]);
                lemma_key_lt_total(k, s[b - 1].0);
                if b - 1 > i {
                    assert(!key_lt(s[i].0, k));
                    lemma_key_lt_total(s[i].0, k);
                    lemma_key_lt_transitive(k, s[i].0, s[b - 1].0);
                }
            } else if a < i {
                assert(r[a] == s[a] && r[b] == s[b - 1]);
            } else {
                assert(r[a] == s[a - 1] && r[b] == s[b - 1]);
            }
        }
    }
    lemma_map_of_sorted(s);
    lemma_map_of_sorted(r);
    let m = compound_map(s).insert(k, v);
    assert forall|key: Seq<char>| #[trigger] compound_map(r).dom().contains(key) <==> m.dom().contains(
        key,
    ) by {
        if compound_map(r).dom().contains(key) {
            let j = key_index(r, key);
            if key != k {
                if i < s.len() && s[i].0 == k {
                    assert(s[j].0 == key);
                } else if j < i {
                    assert(s[j].0 == key);
                } else {
                    assert(s[j - 1].0 == key);
                }
            }
        }
        if m.dom().contains(key) {
            if key == k {
                assert(r[i].0 == k);
            } else {
                let j = key_index(s, key);
                if i < s.len() && s[i].0 == k {
                    assert(r[j].0 == key);
                } else if j < i {
                    assert(r[j].0 == key);
                } else {
                    assert(r[j + 1].0 == key);
                }
            }
        }
    }
    assert forall|key: Seq<char>| #[trigger] compound_map(r).dom().contains(key) implies compound_map(
        r,
    )[key] == m[key] by {
        if key == k {
            assert(r[i].0 == k);
        } else {
            let j = key_index(s, key);
            if i < s.len() && s[i].0 == k {
                assert(r[j] == s[j]);
            } else if j < i {
                assert(r[j] == s[j]);
            } else {
                assert(r[j + 1] == s[j]);
            }
        }
    }
    assert(compound_map(r) =~= m);
}

/// In an ordered compound, each key's entry is the only one with that key.
pub proof fn lemma_map_of_sorted(s: Seq<(Seq<char>, TagV)>)
    requires
        keys_sorted(s),
    ensures
        forall|j: int|
            0 <= j < s.len() ==> #[trigger] compound_map(s).dom().contains(s[j].0)
                && compound_map(s)[s[j].0] == s[j].1,
{
    assert forall|j: int| 0 <= j < s.len() implies #[trigger] compound_map(s).dom().contains(s[j].0)
        && compound_map(s)[s[j].0] == s[j].1 by {
        let key = s[j].0;
        assert(s[j].0 == key);
        assert(has_key(s, key));
        let c = key_index(s, key);
        assert(0 <= c < s.len() && s[c].0 == key);
        if c < j {
            lemma_key_lt_asymmetric(s[c].0, s[j].0);
        } else if c > j {
            lemma_key_lt_asymmetric(s[j].0, s[c].0);
        }
        assert(c == j);
        assert(compound_map(s)[key] == s[c].1);
    }
}

/// Building a compound entry by entry yields an ordered compound in which each
/// key holds the value of its last entry.
pub proof fn lemma_build_compound(raw: Seq<(Seq<char>, TagV)>)
    ensures
        keys_sorted(build_compound(raw)),
        forall|k: Seq<char>|
            #![trigger compound_map(build_compound(raw)).dom().contains(k)]
            match last_with_key(raw, k) {
                Some(v) => compound_map(build_compound(raw)).dom().contains(k) && compound_map(
                    build_compound(raw),
                )[k] == v,
                None => !compound_map(build_compound(raw)).dom().contains(k),
            },
    decreases raw.len(),
{
    if raw.len() > 0 {
        lemma_build_compound(raw.drop_last());
        lemma_sorted_insert(build_compound(raw.drop_last()), raw.last().0, raw.last().1);
        assert forall|k: Seq<char>|
            #![trigger compound_map(build_compound(raw)).dom().contains(k)]
            match last_with_key(raw, k) {
                Some(v) => compound_map(build_compound(raw)).dom().contains(k) && compound_map(
                    build_compound(raw),
                )[k] == v,
                None => !compound_map(build_compound(raw)).dom().contains(k),
            } by {
            assert(compound_map(build_compound(raw.drop_last())).dom().contains(k)
                == compound_map(build_compound(raw.drop_last())).dom().contains(k));
        }
    } else {
        assert forall|k: Seq<char>| !compound_map(build_compound(raw)).dom().contains(k) by {}
    }
}

/// The spelled-out name of a tag type.
pub open spec fn tag_name_of(tag: u8) -> Seq<char> {
    if tag == TAG_END {
        "End"@
    } else if tag == TAG_BYTE {
        "Byte"@
    } else if tag == TAG_SHORT {
        "Short"@
    } else if tag == TAG_INT {
        "Int"@
    } else if tag == TAG_LONG {
        "Long"@
    } else if tag == TAG_FLOAT {
        "Float"@
    } else if tag == TAG_DOUBLE {
        "Double"@
    } else if tag == TAG_BYTE_ARRAY {
        "Byte Array"@
    } else if tag == TAG_STRING {
        "String"@
    } else if tag == TAG_LIST {
        "List"@
    } else if tag == TAG_COMPOUND {
        "Compound"@
    } else if tag == TAG_INT_ARRAY {
        "Int Array"@
    } else if tag == TAG_LONG_ARRAY {
        "Long Array"@
    } else {
        "Unknown"@
    }
}

/// The spelled-out name of a tag type.
pub fn tag_name_str(tag: u8) -> (r: &'static str)
    ensures
        r@ == tag_name_of(tag),
{
    match tag {
        TAG_END => "End",
        TAG_BYTE => "Byte",
        TAG_SHORT => "Short",
        TAG_INT => "Int",
        TAG_LONG => "Long",
        TAG_FLOAT => "Float",
        TAG_DOUBLE => "Double",
        TAG_BYTE_ARRAY => "Byte Array",
        TAG_STRING => "String",
        TAG_LIST => "List",
        TAG_COMPOUND => "Compound",
        TAG_INT_ARRAY => "Int Array",
        TAG_LONG_ARRAY => "Long Array",
        _ => "Unknown",
    }
}

/// A named tag at the root of an NBT document.
#[derive(Debug)]
pub struct RootTag {
    name: String,
    data: TagData,
}

/// A tag type together with its payload; the tag is kept so that, say, a byte
/// array and a list of bytes stay apart.
#[derive(Debug)]
pub struct TagData {
    pub(crate) tag: u8,
    pub(crate) payload: Payload,
}

/// The value carried by a tag. Lists are split by the type of their items.
/// `Float` and `Double` values, and the items of `FloatList` and `DoubleList`,
/// are IEEE 754 bit patterns (`f32::from_bits` / `f64::from_bits` give the numbers).
#[derive(Debug)]
pub enum Payload {
    Byte(i8),
    Short(i16),
    Int(i32),
    Long(i64),
    Float(u32),
    Double(u64),
    String(String),
    Compound(Compound),
    ByteArray(Vec<i8>),
    IntArray(Vec<i32>),
    LongArray(Vec<i64>),
    EmptyList,
    ByteList(Vec<i8>),
    ShortList(Vec<i16>),
    IntList(Vec<i32>),
    LongList(Vec<i64>),
    FloatList(Vec<u32>),
    DoubleList(Vec<u64>),
    StringList(Vec<String>),
    ByteArrayList(Vec<Vec<i8>>),
    IntArrayList(Vec<Vec<i32>>),
    LongArrayList(Vec<Vec<i64>>),
    ListList(Vec<Payload>),
    CompoundList(Vec<Compound>),
}

/// Named tags, ordered by name, each name once.
#[derive(Debug)]
pub struct Compound {
    pub(crate) entries: Vec<(String, TagData)>,
}

pub open spec fn payload_view(p: Payload) -> PayloadV
    decreases p,
{
    match p {
        Payload::Byte(v) => PayloadV::Byte(v),
        Payload::Short(v) => PayloadV::Short(v),
        Payload::Int(v) => PayloadV::Int(v),
        Payload::Long(v) => PayloadV::Long(v),
        Payload::Float(v) => PayloadV::Float(v),
        Payload::Double(v) => PayloadV::Double(v),
        Payload::String(v) => PayloadV::String(v@),
        Payload::Compound(c) => PayloadV::Compound(compound_view(c)),
        Payload::ByteArray(v) => PayloadV::ByteArray(v@),
        Payload::IntArray(v) => PayloadV::IntArray(v@),
        Payload::LongArray(v) => PayloadV::LongArray(v@),
        Payload::EmptyList => PayloadV::EmptyList,
        Payload::ByteList(v) => PayloadV::ByteList(v@),
        Payload::ShortList(v) => PayloadV::ShortList(v@),
        Payload::IntList(v) => PayloadV::IntList(v@),
        Payload::LongList(v) => PayloadV::LongList(v@),
        Payload::FloatList(v) => PayloadV::FloatList(v@),
        Payload::DoubleList(v) => PayloadV::DoubleList(v@),
        Payload::StringList(v) => PayloadV::StringList(v@.map_values(|x: String| x@)),
        Payload::ByteArrayList(v) => PayloadV::ByteArrayList(v@.map_values(|x: Vec<i8>| x@)),
        Payload::IntArrayList(v) => PayloadV::IntArrayList(v@.map_values(|x: Vec<i32>| x@)),
        Payload::LongArrayList(v) => PayloadV::LongArrayList(v@.map_values(|x: Vec<i64>| x@)),
        Payload::ListList(v) => PayloadV::ListList(
            Seq::new(
                v@.len(),
                |i: int|
                    if 0 <= i < v@.len() {
                        payload_view(v@[i])
                    } else {
                        PayloadV::EmptyList
                    },
            ),
        ),
        Payload::CompoundList(v) => PayloadV::CompoundList(
            Seq::new(
                v@.len(),
                |i: int|
                    if 0 <= i < v@.len() {
                        compound_view(v@[i])
                    } else {
                        Seq::empty()
                    },
            ),
        ),
    }
}

pub closed spec fn compound_view(c: Compound) -> Seq<(Seq<char>, TagV)>
    decreases c,
{
    entries_view(c.entries@)
}

pub closed spec fn entries_view(e: Seq<(String, TagData)>) -> Seq<(Seq<char>, TagV)>
    decreases e,
{
    Seq::new(
        e.len(),
        |i: int|
            if 0 <= i < e.len() {
                (e[i].0@, tag_view(e[i].1))
            } else {
                (Seq::empty(), TagV { tag: 0, payload: PayloadV::EmptyList })
            },
    )
}

pub closed spec fn tag_view(t: TagData) -> TagV
    decreases t,
{
    TagV { tag: t.tag, payload: payload_view(t.payload) }
}

impl View for Payload {
    type V = PayloadV;

    open spec fn view(&self) -> PayloadV {
        payload_view(*self)
    }
}

impl View for Compound {
    type V = Seq<(Seq<char>, TagV)>;

    open spec fn view(&self) -> Seq<(Seq<char>, TagV)> {
        compound_view(*self)
    }
}

impl View for TagData {
    type V = TagV;

    open spec fn view(&self) -> TagV {
        tag_view(*self)
    }
}

impl View for RootTag {
    type V = RootV;

    closed spec fn view(&self) -> RootV {
        RootV { name: self.name@, data: self.data@ }
    }
}

/// Compares two keys in the order of [`key_lt`].
pub fn key_less(a: &str, b: &str) -> (r: bool)
    ensures
        r == key_lt(a@, b@),
{
    let ca = crate::text::chars_of(a);
    let cb = crate::text::chars_of(b);
    let mut i: usize = 0;
    assert(a@.skip(0) =~= a@);
    assert(b@.skip(0) =~= b@);
    while i < ca.len() && i < cb.len() && ca[i] == cb[i]
        invariant
            i <= ca@.len(),
            i <= cb@.len(),
            ca@ == a@,
            cb@ == b@,
            key_lt(a@, b@) == key_lt(a@.skip(i as int), b@.skip(i as int)),
        decreases ca@.len() - i,
    {
        assert(a@.skip(i as int).drop_first() =~= a@.skip(i + 1));
        assert(b@.skip(i as int).drop_first() =~= b@.skip(i + 1));
        i = i + 1;
    }
    if i == ca.len() {
        i < cb.len()
    } else if i == cb.len() {
        false
    } else {
        (ca[i] as u32) < (cb[i] as u32)
    }
}

impl Compound {
    #[verifier::type_invariant]
    spec fn ordered(self) -> bool {
        keys_sorted(compound_view(self))
    }

    pub(crate) proof fn lemma_view_len(self)
        ensures
            self@.len() == self.entries@.len(),
    {
        assert(self@ == entries_view(self.entries@));
    }

    pub(crate) proof fn lemma_view_entry(self, i: int)
        requires
            0 <= i < self.entries@.len(),
        ensures
            self@.len() == self.entries@.len(),
            self@[i] == (self.entries@[i].0@, self.entries@[i].1@),
    {
        assert(self@ == entries_view(self.entries@));
    }

    /// An empty compound.
    pub fn new() -> (c: Compound)
        ensures
            c@ == Seq::<(Seq<char>, TagV)>::empty(),
    {
        let c = Compound { entries: Vec::new() };
        assert(c@ =~= Seq::<(Seq<char>, TagV)>::empty());
        c
    }

    /// The number of entries.
    pub fn len(&self) -> (n: usize)
        ensures
            n == self@.len(),
    {
        self.entries.len()
    }

    /// Whether the compound has no entry.
    pub fn is_empty(&self) -> (b: bool)
        ensures
            b == (self@.len() == 0),
    {
        self.entries.len() == 0
    }

    /// The `i`-th entry in key order.
    pub fn entry(&self, i: usize) -> (r: (&String, &TagData))
        requires
            i < self@.len(),
        ensures
            r.0@ == self@[i as int].0,
            r.1@ == self@[i as int].1,
    {
        proof {
            self.lemma_view_entry(i as int);
        }
        let e = &self.entries[i];
        (&e.0, &e.1)
    }

    /// Every compound is ordered by key, each key once.
    pub fn ordered_by_key(&self) -> (b: bool)
        ensures
            b,
            keys_sorted(self@),
    {
        proof {
            use_type_invariant(self);
        }
        true
    }

    /// Stores `data` under `key`, replacing what the key held before.
    pub fn insert(&mut self, key: String, data: TagData)
        ensures
            final(self)@ == sorted_insert(old(self)@, key@, data@),
            keys_sorted(final(self)@),
            compound_map(final(self)@) == compound_map(old(self)@).insert(key@, data@),
    {
        proof {
            use_type_invariant(&*self);
            lemma_sorted_insert(self@, key@, data@);
            lemma_insert_pos_split(self@, key@);
        }
        let ghost s = self@;
        let mut entries: Vec<(String, TagData)> = Vec::new();
        std::mem::swap(&mut entries, &mut self.entries);
        assert(entries_view(entries@) == s);
        let n = entries.len();
        let mut i: usize = 0;
        while i < n && key_less(entries[i].0.as_str(), key.as_str())
            invariant
                n == entries@.len(),
                s == entries_view(entries@),
                i <= n,
                keys_sorted(s),
                forall|j: int| 0 <= j < i ==> key_lt(#[trigger] s[j].0, key@),
            decreases n - i,
        {
            i = i + 1;
        }
        proof {
            lemma_insert_pos(s, key@, i as int);
        }
        if i < n && !key_less(key.as_str(), entries[i].0.as_str()) {
            proof {
                lemma_key_lt_total(key@, s[i as int].0);
            }
            entries.set(i, (key, data));
            assert(entries_view(entries@) =~= s.update(i as int, (key@, data@)));
        } else {
            proof {
                if i < n {
                    lemma_key_lt_total(key@, s[i as int].0);
                }
            }
            entries.insert(i, (key, data));
            assert(entries_view(entries@) =~= s.insert(i as int, (key@, data@)));
        }
        self.entries = entries;
    }

    /// The tag stored under `key`, if any.
    pub fn get(&self, key: &str) -> (r: Option<&TagData>)
        ensures
            r is Some <==> compound_map(self@).dom().contains(key@),
            r matches Some(t) ==> t@ == compound_map(self@)[key@],
    {
        proof {
            use_type_invariant(self);
            lemma_map_of_sorted(self@);
        }
        let n = self.entries.len();
        let mut i: usize = 0;
        while i < n
            invariant
                n == self@.len(),
                n == self.entries@.len(),
                keys_sorted(self@),
                forall|j: int| 0 <= j < i ==> self@[j].0 != key@,
            decreases n - i,
        {
            proof {
                self.lemma_view_entry(i as int);
            }
            let k = self.entries[i].0.as_str();
            if !key_less(k, key) && !key_less(key, k) {
                proof {
                    lemma_key_lt_total(k@, key@);
                    assert(compound_map(self@).dom().contains(self@[i as int].0));
                }
                return Some(&self.entries[i].1);
            }
            proof {
                lemma_key_lt_irreflexive(key@);
            }
            i = i + 1;
        }
        None
    }
}

impl TagData {
    pub(crate) proof fn lemma_view_fields(self)
        ensures
            self@ == (TagV { tag: self.tag, payload: self.payload@ }),
    {
    }

    /// The tag type this data was read as.
    pub fn tag(&self) -> (t: u8)
        ensures
            t == self@.tag,
    {
        self.tag
    }

    /// The spelled-out name of the tag type.
    pub fn tag_name(&self) -> (r: &str)
        ensures
            r@ == tag_name_of(self@.tag),
    {
        tag_name_str(self.tag)
    }

    /// The payload.
    pub fn payload(&self) -> (p: &Payload)
        ensures
            p@ == self@.payload,
    {
        &self.payload
    }
}

impl From<(u8, Payload)> for TagData {
    fn from(value: (u8, Payload)) -> (r: Self)
        ensures
            r@ == (TagV { tag: value.0, payload: value.1@ }),
    {
        TagData { tag: value.0, payload: value.1 }
    }
}

impl vstd::std_specs::convert::FromSpecImpl<(u8, Payload)> for TagData {
    open spec fn obeys_from_spec() -> bool {
        false
    }

    closed spec fn from_spec(v: (u8, Payload)) -> Self {
        TagData { tag: v.0, payload: v.1 }
    }
}

impl RootTag {
    /// Reads an NBT document: one named tag at the start of `data`.
    ///
    /// # Errors
    ///
    /// Returns an error exactly when `data` is not valid NBT, as [`root_of`] states.
    pub fn from_raw(data: &[u8]) -> (r: Result<RootTag, NbtError>)
        ensures
            match r {
                Ok(t) => root_of(data@) == Ok::<RootV, NbtError>(t@),
                Err(e) => root_of(data@) == Err::<RootV, NbtError>(e),
            },
    {
        match read_tag(data, 0) {
            Err(e) => Err(e),
            Ok((None, _)) => Err(NbtError::EndTagAtRoot),
            Ok((Some((name, data)), _)) => Ok(RootTag { name, data }),
        }
    }

    /// The name of the root tag.
    pub fn name(&self) -> (r: &str)
        ensures
            r@ == self@.name,
    {
        self.name.as_str()
    }

    /// The tag type of the root.
    pub fn tag(&self) -> (t: u8)
        ensures
            t == self@.data.tag,
    {
        self.data.tag()
    }

    /// The spelled-out name of the root's tag type.
    pub fn tag_name(&self) -> (r: &str)
        ensures
            r@ == tag_name_of(self@.data.tag),
    {
        self.data.tag_name()
    }

    /// The payload of the root.
    pub fn payload(&self) -> (p: &Payload)
        ensures
            p@ == self@.data.payload,
    {
        self.data.payload()
    }

    /// The root's tag and payload.
    pub fn data(&self) -> (d: &TagData)
        ensures
            d@ == self@.data,
    {
        &self.data
    }
}

} // verus!
