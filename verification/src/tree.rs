//! The NBT data shaped as a tree of named leaves for display: list items are
//! named `Item 0`, `Item 1`, …, and the entries of a compound are grouped
//! (compounds, then lists, then the rest), each group ordered by lowercased name.
//!
//! Each leaf also keeps the text of its edit field, and each array item its
//! own; layout (widths) is the widget's business.

use crate::nbt::{
    key_lt, lemma_key_lt_asymmetric, lemma_key_lt_irreflexive, lemma_key_lt_total,
    lemma_key_lt_transitive, key_less, Compound, Payload, PayloadV, RootTag, TagV,
};
use crate::snbt::{push_int, push_str, syms, SnbtSym};
use crate::edit::int_string;
use crate::text::{decimal, int_text, lowercase, push_char, push_decimal, to_lowercase};
use vstd::prelude::*;

verus! {

broadcast use vstd::std_specs::vec::axiom_vec_decreases_to_view, vstd::seq::axiom_seq_index_decreases,
    vstd::seq::axiom_seq_subrange_decreases;

/// The mathematical value of an [`NbtLeafData`].
pub enum LeafDataV {
    Byte(i8),
    Short(i16),
    Int(i32),
    Long(i64),
    Float(u32),
    Double(u64),
    String(Seq<char>),
    ByteArray(Seq<(i8, Seq<char>)>),
    IntArray(Seq<(i32, Seq<char>)>),
    LongArray(Seq<(i64, Seq<char>)>),
    List(Seq<LeafV>),
    Compound(Seq<LeafV>),
}

/// The mathematical value of an [`NbtLeaf`]: its name, its data, and the
/// text of its edit field.
pub struct LeafV {
    pub name: Seq<char>,
    pub data: LeafDataV,
    pub buffer: Seq<SnbtSym>,
}

/// The text an edit field starts with for data `d`: the value's text where
/// it has one, else nothing.
pub open spec fn initial_buffer(d: LeafDataV) -> Seq<SnbtSym> {
    match buffer_text_of(d) {
        Some(t) => t,
        None => Seq::empty(),
    }
}

/// A new leaf named `name` holding `d`, its edit field showing `d`'s text.
pub open spec fn fresh_leaf(name: Seq<char>, d: LeafDataV) -> LeafV {
    LeafV { name, data: d, buffer: initial_buffer(d) }
}

/// Numbers that are items of an array, each kept with the text of its edit field.
pub trait ArrayItem: Sized + Copy {
    spec fn int_of(&self) -> int;

    fn as_i64(&self) -> (r: i64)
        ensures
            r as int == self.int_of(),
    ;
}

impl ArrayItem for i8 {
    open spec fn int_of(&self) -> int {
        *self as int
    }

    fn as_i64(&self) -> (r: i64) {
        *self as i64
    }
}

impl ArrayItem for i32 {
    open spec fn int_of(&self) -> int {
        *self as int
    }

    fn as_i64(&self) -> (r: i64) {
        *self as i64
    }
}

impl ArrayItem for i64 {
    open spec fn int_of(&self) -> int {
        *self as int
    }

    fn as_i64(&self) -> (r: i64) {
        *self
    }
}

/// The items of an array, each with its decimal text.
pub open spec fn with_texts<T: ArrayItem>(a: Seq<T>) -> Seq<(T, Seq<char>)> {
    Seq::new(a.len(), |i: int| (a[i], int_text(a[i].int_of())))
}

/// Array items with their texts, the texts taken by their views.
pub open spec fn texts_view<T>(v: Seq<(T, String)>) -> Seq<(T, Seq<char>)> {
    Seq::new(v.len(), |i: int| (v[i].0, v[i].1@))
}

/// Each item of `a` with its decimal text.
pub fn items_with_texts<T: ArrayItem>(a: &[T]) -> (r: Vec<(T, String)>)
    ensures
        texts_view(r@) == with_texts(a@),
{
    let mut out: Vec<(T, String)> = Vec::new();
    let n = a.len();
    let mut i: usize = 0;
    while i < n
        invariant
            n == a@.len(),
            i <= n,
            out@.len() == i,
            forall|j: int| 0 <= j < i ==> (#[trigger] out@[j]).0 == a@[j] && out@[j].1@ == int_text(a@[j].int_of()),
        decreases n - i,
    {
        let x = a[i];
        let t = int_string(x.as_i64());
        out.push((x, t));
        i = i + 1;
    }
    assert(texts_view(out@) =~= with_texts(a@));
    out
}

/// The name of the `i`-th item of a list: `Item ` and `i` in decimal.
pub open spec fn item_name(i: nat) -> Seq<char> {
    seq!['I', 't', 'e', 'm', ' '] + decimal(i)
}

pub open spec fn item_leaf(i: int, d: LeafDataV) -> LeafV {
    fresh_leaf(item_name(i as nat), d)
}

/// List items as leaves named by their index.
pub open spec fn item_leaves(datas: Seq<LeafDataV>) -> Seq<LeafV> {
    Seq::new(datas.len(), |i: int| item_leaf(i, datas[i]))
}

pub open spec fn byte_data(v: i8) -> LeafDataV {
    LeafDataV::Byte(v)
}

pub open spec fn short_data(v: i16) -> LeafDataV {
    LeafDataV::Short(v)
}

pub open spec fn int_data(v: i32) -> LeafDataV {
    LeafDataV::Int(v)
}

pub open spec fn long_data(v: i64) -> LeafDataV {
    LeafDataV::Long(v)
}

pub open spec fn float_data(v: u32) -> LeafDataV {
    LeafDataV::Float(v)
}

pub open spec fn double_data(v: u64) -> LeafDataV {
    LeafDataV::Double(v)
}

pub open spec fn string_data(v: Seq<char>) -> LeafDataV {
    LeafDataV::String(v)
}

pub open spec fn byte_array_data(v: Seq<i8>) -> LeafDataV {
    LeafDataV::ByteArray(with_texts(v))
}

pub open spec fn int_array_data(v: Seq<i32>) -> LeafDataV {
    LeafDataV::IntArray(with_texts(v))
}

pub open spec fn long_array_data(v: Seq<i64>) -> LeafDataV {
    LeafDataV::LongArray(with_texts(v))
}

/// The group a leaf goes to in a compound: compounds, lists, the rest.
pub open spec fn kind(l: LeafV) -> nat {
    match l.data {
        LeafDataV::Compound(_) => 0,
        LeafDataV::List(_) => 1,
        _ => 2,
    }
}

/// The leaves of group `k`, in their order.
pub open spec fn group_of(s: Seq<LeafV>, k: nat) -> Seq<LeafV>
    decreases s.len(),
{
    if s.len() == 0 {
        Seq::empty()
    } else if kind(s.last()) == k {
        group_of(s.drop_last(), k).push(s.last())
    } else {
        group_of(s.drop_last(), k)
    }
}

/// The key leaves are ordered by: the name in lowercase.
pub open spec fn sort_key(l: LeafV) -> Seq<char> {
    lowercase(l.name)
}

/// Where `x` goes among `s` so that it comes after every leaf whose key is not above its own.
pub open spec fn upper_pos(s: Seq<LeafV>, x: LeafV) -> int
    decreases s.len(),
{
    if s.len() == 0 {
        0
    } else if key_lt(sort_key(x), sort_key(s[0])) {
        0
    } else {
        1 + upper_pos(s.drop_first(), x)
    }
}

/// Leaves ordered by key, leaves with equal keys kept in their order (a stable sort).
pub open spec fn sort_leaves(s: Seq<LeafV>) -> Seq<LeafV>
    decreases s.len(),
{
    if s.len() == 0 {
        Seq::empty()
    } else {
        let r = sort_leaves(s.drop_last());
        r.insert(upper_pos(r, s.last()), s.last())
    }
}

/// The entries of a compound as displayed: compounds, then lists, then the
/// rest, each group sorted by lowercased name.
pub open spec fn grouped(s: Seq<LeafV>) -> Seq<LeafV> {
    sort_leaves(group_of(s, 0)) + sort_leaves(group_of(s, 1)) + sort_leaves(group_of(s, 2))
}

/// The leaf data a payload is shown as.
pub open spec fn leaf_data_of(p: PayloadV) -> LeafDataV
    decreases p,
{
    match p {
        PayloadV::Byte(v) => LeafDataV::Byte(v),
        PayloadV::Short(v) => LeafDataV::Short(v),
        PayloadV::Int(v) => LeafDataV::Int(v),
        PayloadV::Long(v) => LeafDataV::Long(v),
        PayloadV::Float(v) => LeafDataV::Float(v),
        PayloadV::Double(v) => LeafDataV::Double(v),
        PayloadV::String(v) => LeafDataV::String(v),
        PayloadV::ByteArray(v) => byte_array_data(v),
        PayloadV::IntArray(v) => int_array_data(v),
        PayloadV::LongArray(v) => long_array_data(v),
        PayloadV::EmptyList => LeafDataV::List(Seq::empty()),
        PayloadV::ByteList(a) => LeafDataV::List(item_leaves(a.map_values(|x: i8| byte_data(x)))),
        PayloadV::ShortList(a) => LeafDataV::List(item_leaves(a.map_values(|x: i16| short_data(x)))),
        PayloadV::IntList(a) => LeafDataV::List(item_leaves(a.map_values(|x: i32| int_data(x)))),
        PayloadV::LongList(a) => LeafDataV::List(item_leaves(a.map_values(|x: i64| long_data(x)))),
        PayloadV::FloatList(a) => LeafDataV::List(item_leaves(a.map_values(|x: u32| float_data(x)))),
        PayloadV::DoubleList(a) => LeafDataV::List(
            item_leaves(a.map_values(|x: u64| double_data(x))),
        ),
        PayloadV::StringList(a) => LeafDataV::List(
            item_leaves(a.map_values(|x: Seq<char>| string_data(x))),
        ),
        PayloadV::ByteArrayList(a) => LeafDataV::List(
            item_leaves(a.map_values(|x: Seq<i8>| byte_array_data(x))),
        ),
        PayloadV::IntArrayList(a) => LeafDataV::List(
            item_leaves(a.map_values(|x: Seq<i32>| int_array_data(x))),
        ),
        PayloadV::LongArrayList(a) => LeafDataV::List(
            item_leaves(a.map_values(|x: Seq<i64>| long_array_data(x))),
        ),
        PayloadV::ListList(a) => LeafDataV::List(item_leaves(list_datas(a))),
        PayloadV::CompoundList(a) => LeafDataV::List(item_leaves(compound_datas(a))),
        PayloadV::Compound(c) => LeafDataV::Compound(grouped(entry_leaves(c))),
    }
}

/// The leaf data of each payload of a list of lists.
pub open spec fn list_datas(a: Seq<PayloadV>) -> Seq<LeafDataV>
    decreases a,
{
    if a.len() == 0 {
        Seq::empty()
    } else {
        list_datas(a.drop_last()).push(leaf_data_of(a.last()))
    }
}

/// The leaf data of each compound of a list of compounds.
pub open spec fn compound_datas(a: Seq<Seq<(Seq<char>, TagV)>>) -> Seq<LeafDataV>
    decreases a,
{
    if a.len() == 0 {
        Seq::empty()
    } else {
        compound_datas(a.drop_last()).push(LeafDataV::Compound(grouped(entry_leaves(a.last()))))
    }
}

/// The entries of a compound as leaves, in the compound's order.
pub open spec fn entry_leaves(c: Seq<(Seq<char>, TagV)>) -> Seq<LeafV>
    decreases c,
{
    if c.len() == 0 {
        Seq::empty()
    } else {
        entry_leaves(c.drop_last()).push(fresh_leaf(c.last().0, leaf_data_of(c.last().1.payload)))
    }
}

/// What a leaf holds. Floating-point values are IEEE 754 bit patterns.
#[derive(Debug)]
pub enum NbtLeafData {
    Byte(i8),
    Short(i16),
    Int(i32),
    Long(i64),
    Float(u32),
    Double(u64),
    String(String),
    ByteArray(Vec<(i8, String)>),
    IntArray(Vec<(i32, String)>),
    LongArray(Vec<(i64, String)>),
    List(Vec<NbtLeaf>),
    Compound(Vec<NbtLeaf>),
}

/// A named node of the tree, with the text of its edit field.
#[derive(Debug)]
pub struct NbtLeaf {
    pub(crate) name: String,
    pub(crate) data: NbtLeafData,
    pub(crate) buffer: Vec<SnbtSym>,
}

/// A whole tree: its top leaf, and whether it is shown enabled.
#[derive(Debug)]
pub struct NbtTree {
    leaf: NbtLeaf,
    enabled: bool,
}

pub open spec fn leaf_data_view(d: NbtLeafData) -> LeafDataV
    decreases d,
{
    match d {
        NbtLeafData::Byte(v) => LeafDataV::Byte(v),
        NbtLeafData::Short(v) => LeafDataV::Short(v),
        NbtLeafData::Int(v) => LeafDataV::Int(v),
        NbtLeafData::Long(v) => LeafDataV::Long(v),
        NbtLeafData::Float(v) => LeafDataV::Float(v),
        NbtLeafData::Double(v) => LeafDataV::Double(v),
        NbtLeafData::String(v) => LeafDataV::String(v@),
        NbtLeafData::ByteArray(v) => LeafDataV::ByteArray(texts_view(v@)),
        NbtLeafData::IntArray(v) => LeafDataV::IntArray(texts_view(v@)),
        NbtLeafData::LongArray(v) => LeafDataV::LongArray(texts_view(v@)),
        NbtLeafData::List(v) => LeafDataV::List(
            Seq::new(
                v@.len(),
                |i: int|
                    if 0 <= i < v@.len() {
                        leaf_view(v@[i])
                    } else {
                        item_leaf(0, LeafDataV::Byte(0))
                    },
            ),
        ),
        NbtLeafData::Compound(v) => LeafDataV::Compound(
            Seq::new(
                v@.len(),
                |i: int|
                    if 0 <= i < v@.len() {
                        leaf_view(v@[i])
                    } else {
                        item_leaf(0, LeafDataV::Byte(0))
                    },
            ),
        ),
    }
}

pub closed spec fn leaf_view(l: NbtLeaf) -> LeafV
    decreases l,
{
    LeafV { name: l.name@, data: leaf_data_view(l.data), buffer: l.buffer@ }
}

impl View for NbtLeafData {
    type V = LeafDataV;

    open spec fn view(&self) -> LeafDataV {
        leaf_data_view(*self)
    }
}

impl View for NbtLeaf {
    type V = LeafV;

    open spec fn view(&self) -> LeafV {
        leaf_view(*self)
    }
}

/// The leaves' values, in order.
pub open spec fn leaves_view(v: Seq<NbtLeaf>) -> Seq<LeafV> {
    v.map_values(|l: NbtLeaf| l@)
}

proof fn lemma_leaf_fields(l: NbtLeaf)
    ensures
        l@ == (LeafV { name: l.name@, data: l.data@, buffer: l.buffer@ }),
{
}

/// Values that can be items of a list leaf.
pub trait LeafItem {
    spec fn item_data(&self) -> LeafDataV;

    fn to_item_data(&self) -> (r: NbtLeafData)
        ensures
            r@ == self.item_data(),
    ;
}

impl LeafItem for i8 {
    open spec fn item_data(&self) -> LeafDataV {
        byte_data(*self)
    }

    fn to_item_data(&self) -> (r: NbtLeafData) {
        NbtLeafData::Byte(*self)
    }
}

impl LeafItem for i16 {
    open spec fn item_data(&self) -> LeafDataV {
        short_data(*self)
    }

    fn to_item_data(&self) -> (r: NbtLeafData) {
        NbtLeafData::Short(*self)
    }
}

impl LeafItem for i32 {
    open spec fn item_data(&self) -> LeafDataV {
        int_data(*self)
    }

    fn to_item_data(&self) -> (r: NbtLeafData) {
        NbtLeafData::Int(*self)
    }
}

impl LeafItem for i64 {
    open spec fn item_data(&self) -> LeafDataV {
        long_data(*self)
    }

    fn to_item_data(&self) -> (r: NbtLeafData) {
        NbtLeafData::Long(*self)
    }
}

/// The bits of an `f32`.
impl LeafItem for u32 {
    open spec fn item_data(&self) -> LeafDataV {
        float_data(*self)
    }

    fn to_item_data(&self) -> (r: NbtLeafData) {
        NbtLeafData::Float(*self)
    }
}

/// The bits of an `f64`.
impl LeafItem for u64 {
    open spec fn item_data(&self) -> LeafDataV {
        double_data(*self)
    }

    fn to_item_data(&self) -> (r: NbtLeafData) {
        NbtLeafData::Double(*self)
    }
}

impl LeafItem for String {
    open spec fn item_data(&self) -> LeafDataV {
        string_data(self@)
    }

    fn to_item_data(&self) -> (r: NbtLeafData) {
        NbtLeafData::String(self.clone())
    }
}

impl LeafItem for Vec<i8> {
    open spec fn item_data(&self) -> LeafDataV {
        byte_array_data(self@)
    }

    fn to_item_data(&self) -> (r: NbtLeafData) {
        let r = NbtLeafData::ByteArray(items_with_texts(self.as_slice()));
        proof {
            match r@ {
                LeafDataV::ByteArray(v) => {
                    assert(v =~= with_texts(self@));
                },
                _ => {},
            }
        }
        r
    }
}

impl LeafItem for Vec<i32> {
    open spec fn item_data(&self) -> LeafDataV {
        int_array_data(self@)
    }

    fn to_item_data(&self) -> (r: NbtLeafData) {
        let r = NbtLeafData::IntArray(items_with_texts(self.as_slice()));
        proof {
            match r@ {
                LeafDataV::IntArray(v) => {
                    assert(v =~= with_texts(self@));
                },
                _ => {},
            }
        }
        r
    }
}

impl LeafItem for Vec<i64> {
    open spec fn item_data(&self) -> LeafDataV {
        long_array_data(self@)
    }

    fn to_item_data(&self) -> (r: NbtLeafData) {
        let r = NbtLeafData::LongArray(items_with_texts(self.as_slice()));
        proof {
            match r@ {
                LeafDataV::LongArray(v) => {
                    assert(v =~= with_texts(self@));
                },
                _ => {},
            }
        }
        r
    }
}

/// A list after a drag moved its item at `from` to the gap before position
/// `to`: the item lands at `to - 1` when `to` is past it, at `to` otherwise,
/// the items between closing up.
pub open spec fn moved<T>(s: Seq<T>, from: int, to: int) -> Seq<T> {
    if from == to {
        s
    } else if from < to {
        s.remove(from).insert(to - 1, s[from])
    } else {
        s.remove(from).insert(to, s[from])
    }
}

/// `egui_dnd::utils::shift_vec`: rotates the items from `from` up to `to` one
/// step, so that the item at `from` ends up at `to - 1` when `to > from`,
/// and at `to` otherwise. It panics when neither `from..to` nor `to..=from`
/// lies within the list; `requires` leaves that out.
#[verifier::external_body]
fn shift_items<T>(from: usize, to: usize, items: &mut Vec<T>)
    requires
        to <= old(items)@.len(),
        from <= to || from < old(items)@.len(),
    ensures
        final(items)@ == moved(old(items)@, from as int, to as int),
{
    egui_dnd::utils::shift_vec(from, to, items.as_mut_slice());
}

/// Moves the item at `from` of a list to where a drag dropped it: the gap
/// before the item at `to`.
pub fn move_item<T>(items: &mut Vec<T>, from: usize, to: usize)
    requires
        to <= old(items)@.len(),
        from <= to || from < old(items)@.len(),
    ensures
        final(items)@ == moved(old(items)@, from as int, to as int),
{
    shift_items(from, to, items);
}

/// A drag keeps every item of the list, each as many times as it occurs.
pub proof fn law_moved_permutes<T>(s: Seq<T>, from: int, to: int)
    requires
        0 <= to <= s.len(),
        0 <= from,
        from <= to || from < s.len(),
    ensures
        moved(s, from, to).to_multiset() == s.to_multiset(),
        moved(s, from, to).len() == s.len(),
{
    broadcast use vstd::seq_lib::to_multiset_remove, vstd::seq_lib::to_multiset_insert,
        vstd::seq_lib::to_multiset_contains, vstd::multiset::group_multiset_axioms;

    if from != to {
        let r = s.remove(from);
        assert(s.contains(s[from]));
        assert(s.to_multiset().count(s[from]) > 0);
        assert(r.to_multiset() == s.to_multiset().remove(s[from]));
        assert(r.to_multiset().insert(s[from]) =~= s.to_multiset());
    }
}

/// The dragged item lands at `to - 1` when dropped past its place, else at `to`.
pub proof fn law_moved_item_lands<T>(s: Seq<T>, from: int, to: int)
    requires
        0 <= to <= s.len(),
        0 <= from < s.len(),
    ensures
        moved(s, from, to)[if from < to { to - 1 } else { to }] == s[from],
{
}

/// The name of the `i`-th list item.
pub fn item_name_string(i: usize) -> (s: String)
    ensures
        s@ == item_name(i as nat),
{
    let mut s = String::new();
    push_char(&mut s, 'I');
    push_char(&mut s, 't');
    push_char(&mut s, 'e');
    push_char(&mut s, 'm');
    push_char(&mut s, ' ');
    push_decimal(&mut s, i as u64);
    assert(s@ =~= item_name(i as nat));
    s
}

impl NbtLeaf {
    /// A leaf with the given name and data.
    pub fn new(name: String, data: NbtLeafData) -> (l: NbtLeaf)
        ensures
            l@ == fresh_leaf(name@, data@),
    {
        let buffer = match data.buffer_text() {
            Some(t) => t,
            None => Vec::new(),
        };
        let l = NbtLeaf { name, data, buffer };
        proof {
            lemma_leaf_fields(l);
            assert(l.buffer@ =~= initial_buffer(data@));
        }
        l
    }

    /// The leaf's name.
    pub fn name(&self) -> (r: &str)
        ensures
            r@ == self@.name,
    {
        self.name.as_str()
    }

    /// Renames the leaf.
    pub fn set_name(&mut self, name: String)
        ensures
            final(self)@ == (LeafV { name: name@, ..old(self)@ }),
    {
        proof {
            lemma_leaf_fields(*self);
        }
        self.name = name;
        proof {
            lemma_leaf_fields(*self);
        }
    }

    /// Takes the name a list shows this leaf under: a leaf given a non-empty
    /// name other than its own is renamed to it. Tells whether it was.
    pub fn follow_name(&mut self, name: &str) -> (renamed: bool)
        ensures
            renamed == (name@.len() > 0 && name@ != old(self)@.name),
            final(self)@ == (LeafV {
                name: if renamed { name@ } else { old(self)@.name },
                ..old(self)@
            }),
    {
        let same = !key_less(self.name.as_str(), name) && !key_less(name, self.name.as_str());
        proof {
            lemma_leaf_fields(*self);
            lemma_key_lt_total(self.name@, name@);
            lemma_key_lt_irreflexive(name@);
        }
        let renamed = name.unicode_len() > 0 && !same;
        if renamed {
            self.set_name(name.to_owned());
        }
        renamed
    }

    /// The leaf's data.
    pub fn data(&self) -> (r: &NbtLeafData)
        ensures
            r@ == self@.data,
    {
        &self.data
    }

    /// The leaf's data, to change in place.
    pub fn data_mut(&mut self) -> (r: &mut NbtLeafData)
        ensures
            r@ == old(self)@.data,
            final(self)@ == (LeafV { data: final(r)@, ..old(self)@ }),
    {
        proof {
            lemma_leaf_fields(*self);
        }
        &mut self.data
    }

    /// Replaces the leaf's data; the edit field then shows the new data's
    /// text where it has one, and keeps its text otherwise.
    pub fn set_data(&mut self, data: NbtLeafData)
        ensures
            final(self)@ == (LeafV {
                name: old(self)@.name,
                data: data@,
                buffer: match buffer_text_of(data@) {
                    Some(t) => t,
                    None => old(self)@.buffer,
                },
            }),
    {
        proof {
            lemma_leaf_fields(*self);
        }
        match data.buffer_text() {
            Some(t) => {
                self.buffer = t;
            },
            None => {},
        }
        self.data = data;
        proof {
            lemma_leaf_fields(*self);
        }
    }

    /// The text of the leaf's edit field.
    pub fn buffer(&self) -> (r: &Vec<SnbtSym>)
        ensures
            r@ == self@.buffer,
    {
        proof {
            lemma_leaf_fields(*self);
        }
        &self.buffer
    }

    /// Sets the text of the leaf's edit field to `text`.
    pub fn set_buffer(&mut self, text: &str)
        ensures
            final(self)@ == (LeafV { buffer: syms(text@), ..old(self)@ }),
    {
        proof {
            lemma_leaf_fields(*self);
        }
        let mut t: Vec<SnbtSym> = Vec::new();
        push_str(&mut t, text);
        assert(t@ =~= syms(text@));
        self.buffer = t;
        proof {
            lemma_leaf_fields(*self);
        }
    }

    /// Items of a list as leaves named `Item 0`, `Item 1`, ….
    pub fn easy_create_list<T: LeafItem>(v: &[T]) -> (r: Vec<NbtLeaf>)
        ensures
            leaves_view(r@) == item_leaves(v@.map_values(|x: T| x.item_data())),
    {
        let ghost ds = v@.map_values(|x: T| x.item_data());
        let mut out: Vec<NbtLeaf> = Vec::new();
        let n = v.len();
        let mut i: usize = 0;
        while i < n
            invariant
                n == v@.len(),
                ds == v@.map_values(|x: T| x.item_data()),
                i <= n,
                out@.len() == i,
                forall|j: int| 0 <= j < i ==> (#[trigger] out@[j])@ == item_leaf(j, ds[j]),
            decreases n - i,
        {
            let leaf = NbtLeaf::new(item_name_string(i), v[i].to_item_data());
            out.push(leaf);
            i = i + 1;
        }
        assert(leaves_view(out@) =~= item_leaves(ds));
        out
    }
}

proof fn lemma_list_datas(a: Seq<PayloadV>)
    ensures
        list_datas(a).len() == a.len(),
        forall|j: int| 0 <= j < a.len() ==> #[trigger] list_datas(a)[j] == leaf_data_of(a[j]),
    decreases a.len(),
{
    if a.len() > 0 {
        lemma_list_datas(a.drop_last());
    }
}

proof fn lemma_compound_datas(a: Seq<Seq<(Seq<char>, TagV)>>)
    ensures
        compound_datas(a).len() == a.len(),
        forall|j: int|
            0 <= j < a.len() ==> #[trigger] compound_datas(a)[j] == LeafDataV::Compound(
                grouped(entry_leaves(a[j])),
            ),
    decreases a.len(),
{
    if a.len() > 0 {
        lemma_compound_datas(a.drop_last());
    }
}

proof fn lemma_entry_leaves(c: Seq<(Seq<char>, TagV)>)
    ensures
        entry_leaves(c).len() == c.len(),
        forall|j: int|
            0 <= j < c.len() ==> #[trigger] entry_leaves(c)[j] == fresh_leaf(
                c[j].0,
                leaf_data_of(c[j].1.payload),
            ),
    decreases c.len(),
{
    if c.len() > 0 {
        lemma_entry_leaves(c.drop_last());
    }
}

/// `upper_pos` is the first index whose key is above `x`'s.
proof fn lemma_upper_pos(s: Seq<LeafV>, x: LeafV, j: int)
    requires
        0 <= j <= s.len(),
        forall|i: int| 0 <= i < j ==> !key_lt(sort_key(x), #[trigger] sort_key(s[i])),
        j == s.len() || key_lt(sort_key(x), sort_key(s[j])),
    ensures
        upper_pos(s, x) == j,
    decreases j,
{
    if j > 0 {
        let t = s.drop_first();
        assert forall|i: int| 0 <= i < j - 1 implies !key_lt(sort_key(x), #[trigger] sort_key(t[i])) by {
            assert(t[i] == s[i + 1]);
        }
        if j - 1 < t.len() {
            assert(t[j - 1] == s[j]);
        }
        lemma_upper_pos(t, x, j - 1);
        assert(!key_lt(sort_key(x), sort_key(s[0])));
    }
}

/// No leaf's key is below the key of a leaf before it.
pub open spec fn sorted_by_key(s: Seq<LeafV>) -> bool {
    forall|i: int, j: int|
        0 <= i < j < s.len() ==> !key_lt(#[trigger] sort_key(s[j]), #[trigger] sort_key(s[i]))
}

/// The leaves whose key is `k`, in their order.
pub open spec fn with_key(s: Seq<LeafV>, k: Seq<char>) -> Seq<LeafV> {
    s.filter(|l: LeafV| sort_key(l) == k)
}

/// `upper_pos` comes after every leaf whose key is not above `x`'s, and
/// before a leaf whose key is.
proof fn lemma_upper_pos_bounds(s: Seq<LeafV>, x: LeafV)
    ensures
        0 <= upper_pos(s, x) <= s.len(),
        forall|i: int| 0 <= i < upper_pos(s, x) ==> !key_lt(sort_key(x), #[trigger] sort_key(s[i])),
        upper_pos(s, x) < s.len() ==> key_lt(sort_key(x), sort_key(s[upper_pos(s, x)])),
    decreases s.len(),
{
    if s.len() > 0 && !key_lt(sort_key(x), sort_key(s[0])) {
        let t = s.drop_first();
        lemma_upper_pos_bounds(t, x);
        assert forall|i: int| 0 <= i < upper_pos(s, x) implies !key_lt(sort_key(x), #[trigger] sort_key(s[i])) by {
            if i > 0 {
                assert(s[i] == t[i - 1]);
            }
        }
        if upper_pos(s, x) < s.len() {
            assert(s[upper_pos(s, x)] == t[upper_pos(t, x)]);
        }
    }
}

/// In a list ordered by key, every leaf from `upper_pos` on has a key above `x`'s.
proof fn lemma_upper_pos_above(s: Seq<LeafV>, x: LeafV, i: int)
    requires
        sorted_by_key(s),
        upper_pos(s, x) <= i < s.len(),
    ensures
        key_lt(sort_key(x), sort_key(s[i])),
{
    lemma_upper_pos_bounds(s, x);
    let p = upper_pos(s, x);
    if i > p {
        assert(!key_lt(sort_key(s[i]), sort_key(s[p])));
        lemma_key_lt_total(sort_key(s[i]), sort_key(s[p]));
        if key_lt(sort_key(s[p]), sort_key(s[i])) {
            lemma_key_lt_transitive(sort_key(x), sort_key(s[p]), sort_key(s[i]));
        }
    }
}

/// Sorting orders the leaves by key.
pub proof fn law_sort_leaves_ordered(s: Seq<LeafV>)
    ensures
        sorted_by_key(sort_leaves(s)),
    decreases s.len(),
{
    if s.len() > 0 {
        let r = sort_leaves(s.drop_last());
        let x = s.last();
        law_sort_leaves_ordered(s.drop_last());
        lemma_upper_pos_bounds(r, x);
        let p = upper_pos(r, x);
        let r2 = r.insert(p, x);
        assert forall|i: int, j: int| 0 <= i < j < r2.len() implies !key_lt(
            #[trigger] sort_key(r2[j]),
            #[trigger] sort_key(r2[i]),
        ) by {
            if j < p {
                assert(r2[i] == r[i] && r2[j] == r[j]);
            } else if j == p {
                assert(r2[i] == r[i] && r2[j] == x);
            } else if i < p {
                assert(r2[i] == r[i] && r2[j] == r[j - 1]);
            } else if i == p {
                assert(r2[i] == x && r2[j] == r[j - 1]);
                lemma_upper_pos_above(r, x, j - 1);
                lemma_key_lt_asymmetric(sort_key(x), sort_key(r[j - 1]));
            } else {
                assert(r2[i] == r[i - 1] && r2[j] == r[j - 1]);
            }
        }
    }
}

/// Sorting keeps every leaf, as many times as it occurs.
pub proof fn law_sort_leaves_permutes(s: Seq<LeafV>)
    ensures
        sort_leaves(s).to_multiset() == s.to_multiset(),
    decreases s.len(),
{
    broadcast use vstd::seq_lib::to_multiset_build, vstd::seq_lib::to_multiset_insert;

    if s.len() == 0 {
        assert(sort_leaves(s) =~= s);
    } else {
        law_sort_leaves_permutes(s.drop_last());
        let r = sort_leaves(s.drop_last());
        lemma_upper_pos_bounds(r, s.last());
        assert(s =~= s.drop_last().push(s.last()));
    }
}

proof fn lemma_with_key_none(t: Seq<LeafV>, k: Seq<char>)
    requires
        forall|i: int| 0 <= i < t.len() ==> sort_key(#[trigger] t[i]) != k,
    ensures
        with_key(t, k) == Seq::<LeafV>::empty(),
    decreases t.len(),
{
    reveal(Seq::filter);
    if t.len() > 0 {
        lemma_with_key_none(t.drop_last(), k);
        assert(sort_key(t[t.len() - 1]) != k);
    }
}

proof fn lemma_with_key_push(s: Seq<LeafV>, k: Seq<char>)
    requires
        s.len() > 0,
    ensures
        with_key(s, k) == (if sort_key(s.last()) == k {
            with_key(s.drop_last(), k).push(s.last())
        } else {
            with_key(s.drop_last(), k)
        }),
{
    reveal(Seq::filter);
}

proof fn lemma_with_key_single(x: LeafV, k: Seq<char>)
    ensures
        with_key(seq![x], k) == (if sort_key(x) == k { seq![x] } else { Seq::<LeafV>::empty() }),
{
    let e = Seq::<LeafV>::empty();
    assert(seq![x].drop_last() =~= e);
    assert(e.push(x) =~= seq![x]);
    lemma_with_key_none(e, k);
    lemma_with_key_push(seq![x], k);
}

/// Inserting `x` at its place in a list ordered by key puts it after every
/// leaf with the same key.
proof fn lemma_with_key_insert(r: Seq<LeafV>, x: LeafV, k: Seq<char>)
    requires
        sorted_by_key(r),
    ensures
        with_key(r.insert(upper_pos(r, x), x), k) == (if sort_key(x) == k {
            with_key(r, k).push(x)
        } else {
            with_key(r, k)
        }),
{
    lemma_upper_pos_bounds(r, x);
    let p = upper_pos(r, x);
    let a = r.take(p);
    let b = r.skip(p);
    assert(r =~= a + b);
    assert(r.insert(p, x) =~= a + seq![x] + b);
    let pred = |l: LeafV| sort_key(l) == k;
    Seq::filter_distributes_over_add(a, b, pred);
    Seq::filter_distributes_over_add(a, seq![x], pred);
    Seq::filter_distributes_over_add(a + seq![x], b, pred);
    lemma_with_key_single(x, k);
    if sort_key(x) == k {
        assert forall|i: int| 0 <= i < b.len() implies sort_key(#[trigger] b[i]) != k by {
            lemma_upper_pos_above(r, x, p + i);
            lemma_key_lt_irreflexive(sort_key(x));
        }
        lemma_with_key_none(b, k);
        assert(with_key(a + seq![x], k) =~= with_key(a, k).push(x));
        assert(with_key(r, k) =~= with_key(a, k));
    } else {
        assert(with_key(a + seq![x], k) =~= with_key(a, k));
    }
}

/// Sorting is stable: the leaves with any one key keep their order.
pub proof fn law_sort_leaves_stable(s: Seq<LeafV>, k: Seq<char>)
    ensures
        with_key(sort_leaves(s), k) == with_key(s, k),
    decreases s.len(),
{
    if s.len() > 0 {
        law_sort_leaves_stable(s.drop_last(), k);
        law_sort_leaves_ordered(s.drop_last());
        lemma_with_key_insert(sort_leaves(s.drop_last()), s.last(), k);
        lemma_with_key_push(s, k);
    }
}

proof fn lemma_group_of_kind(s: Seq<LeafV>, k: nat)
    ensures
        forall|i: int| 0 <= i < group_of(s, k).len() ==> kind(#[trigger] group_of(s, k)[i]) == k,
    decreases s.len(),
{
    if s.len() > 0 {
        let g1 = group_of(s.drop_last(), k);
        lemma_group_of_kind(s.drop_last(), k);
        if kind(s.last()) == k {
            assert forall|i: int| 0 <= i < g1.len() implies group_of(s, k)[i] == g1[i] by {}
        }
    }
}

proof fn lemma_sort_leaves_kind(s: Seq<LeafV>, k: nat)
    requires
        forall|i: int| 0 <= i < s.len() ==> kind(#[trigger] s[i]) == k,
    ensures
        forall|i: int| 0 <= i < sort_leaves(s).len() ==> kind(#[trigger] sort_leaves(s)[i]) == k,
        sort_leaves(s).len() == s.len(),
    decreases s.len(),
{
    if s.len() > 0 {
        let s1 = s.drop_last();
        assert forall|i: int| 0 <= i < s1.len() implies kind(#[trigger] s1[i]) == k by {
            assert(s1[i] == s[i]);
        }
        lemma_sort_leaves_kind(s1, k);
        let r = sort_leaves(s1);
        lemma_upper_pos_bounds(r, s.last());
        let p = upper_pos(r, s.last());
        assert forall|i: int| 0 <= i < sort_leaves(s).len() implies kind(#[trigger] sort_leaves(s)[i]) == k by {
            if i < p {
                assert(sort_leaves(s)[i] == r[i]);
            } else if i > p {
                assert(sort_leaves(s)[i] == r[i - 1]);
            }
        }
    }
}

proof fn lemma_groups_multiset(s: Seq<LeafV>)
    ensures
        group_of(s, 0).to_multiset().add(group_of(s, 1).to_multiset()).add(
            group_of(s, 2).to_multiset(),
        ) == s.to_multiset(),
    decreases s.len(),
{
    broadcast use vstd::seq_lib::to_multiset_build, vstd::seq_lib::to_multiset_contains,
        vstd::multiset::group_multiset_axioms;

    if s.len() == 0 {
        assert(s.to_multiset() =~= vstd::multiset::Multiset::<LeafV>::empty());
        assert(group_of(s, 0).to_multiset().add(group_of(s, 1).to_multiset()).add(
            group_of(s, 2).to_multiset(),
        ) =~= vstd::multiset::Multiset::<LeafV>::empty());
    } else {
        let s1 = s.drop_last();
        lemma_groups_multiset(s1);
        assert(s =~= s1.push(s.last()));
        assert(group_of(s, 0).to_multiset().add(group_of(s, 1).to_multiset()).add(
            group_of(s, 2).to_multiset(),
        ) =~= s.to_multiset());
    }
}

/// A compound's entries as shown are its entries, each as many times as it
/// occurs, rearranged.
pub proof fn law_grouped_permutes(s: Seq<LeafV>)
    ensures
        grouped(s).to_multiset() == s.to_multiset(),
{
    broadcast use vstd::seq_lib::lemma_multiset_commutative;

    law_sort_leaves_permutes(group_of(s, 0));
    law_sort_leaves_permutes(group_of(s, 1));
    law_sort_leaves_permutes(group_of(s, 2));
    lemma_groups_multiset(s);
    let a = sort_leaves(group_of(s, 0));
    let b = sort_leaves(group_of(s, 1));
    let c = sort_leaves(group_of(s, 2));
    assert((a + b + c).to_multiset() == (a + b).to_multiset().add(c.to_multiset()));
    assert((a + b).to_multiset() == a.to_multiset().add(b.to_multiset()));
}

/// A compound's entries as shown come compounds first, then lists, then the
/// rest, and within each group in order of lowercased name.
pub proof fn law_grouped_ordered(s: Seq<LeafV>)
    ensures
        forall|i: int, j: int|
            0 <= i < j < grouped(s).len() ==> kind(#[trigger] grouped(s)[i]) <= kind(
                #[trigger] grouped(s)[j],
            ) && (kind(grouped(s)[i]) == kind(grouped(s)[j]) ==> !key_lt(
                sort_key(grouped(s)[j]),
                sort_key(grouped(s)[i]),
            )),
{
    let a = sort_leaves(group_of(s, 0));
    let b = sort_leaves(group_of(s, 1));
    let c = sort_leaves(group_of(s, 2));
    lemma_group_of_kind(s, 0);
    lemma_group_of_kind(s, 1);
    lemma_group_of_kind(s, 2);
    lemma_sort_leaves_kind(group_of(s, 0), 0);
    lemma_sort_leaves_kind(group_of(s, 1), 1);
    lemma_sort_leaves_kind(group_of(s, 2), 2);
    law_sort_leaves_ordered(group_of(s, 0));
    law_sort_leaves_ordered(group_of(s, 1));
    law_sort_leaves_ordered(group_of(s, 2));
    let g = grouped(s);
    assert(g == a + b + c);
    assert forall|i: int, j: int| 0 <= i < j < g.len() implies kind(#[trigger] g[i]) <= kind(
        #[trigger] g[j],
    ) && (kind(g[i]) == kind(g[j]) ==> !key_lt(sort_key(g[j]), sort_key(g[i]))) by {
        let na = a.len() as int;
        let nb = b.len() as int;
        if j < na {
            assert(g[i] == a[i] && g[j] == a[j]);
        } else if j < na + nb {
            assert(g[j] == b[j - na]);
            if i < na {
                assert(g[i] == a[i]);
            } else {
                assert(g[i] == b[i - na]);
            }
        } else {
            assert(g[j] == c[j - na - nb]);
            if i < na {
                assert(g[i] == a[i]);
            } else if i < na + nb {
                assert(g[i] == b[i - na]);
            } else {
                assert(g[i] == c[i - na - nb]);
            }
        }
    }
}

/// Orders leaves by lowercased name, keeping leaves with equal keys in order.
pub fn sort_by_lowercase_name(v: Vec<NbtLeaf>) -> (r: Vec<NbtLeaf>)
    ensures
        leaves_view(r@) == sort_leaves(leaves_view(v@)),
{
    let ghost s = leaves_view(v@);
    let mut src = v;
    let mut out: Vec<NbtLeaf> = Vec::new();
    let mut keys: Vec<String> = Vec::new();
    let n = src.len();
    let mut i: usize = 0;
    assert(s.take(0) =~= Seq::<LeafV>::empty());
    assert(leaves_view(src@) =~= s.skip(0));
    while i < n
        invariant
            n == s.len(),
            i <= n,
            leaves_view(src@) == s.skip(i as int),
            src@.len() == n - i,
            leaves_view(out@) == sort_leaves(s.take(i as int)),
            keys@.len() == out@.len(),
            forall|j: int| 0 <= j < keys@.len() ==> (#[trigger] keys@[j])@ == sort_key(out@[j]@),
        decreases n - i,
    {
        let ghost before = leaves_view(src@);
        let x = src.remove(0);
        assert(leaves_view(src@) =~= s.skip(i + 1)) by {
            assert(leaves_view(src@) =~= before.drop_first());
        }
        assert(x@ == s[i as int]) by {
            assert(before[0] == x@);
        }
        proof {
            lemma_leaf_fields(x);
        }
        let k = to_lowercase(x.name.as_str());
        let m = out.len();
        let mut j: usize = 0;
        while j < m && !key_less(k.as_str(), keys[j].as_str())
            invariant
                m == out@.len(),
                m == keys@.len(),
                j <= m,
                k@ == sort_key(x@),
                forall|jj: int| 0 <= jj < keys@.len() ==> (#[trigger] keys@[jj])@ == sort_key(out@[jj]@),
                forall|jj: int| 0 <= jj < j ==> !key_lt(sort_key(x@), #[trigger] sort_key(out@[jj]@)),
            decreases m - j,
        {
            j = j + 1;
        }
        let ghost r = leaves_view(out@);
        proof {
            assert forall|jj: int| 0 <= jj < j implies !key_lt(sort_key(x@), #[trigger] sort_key(r[jj])) by {
                assert(r[jj] == out@[jj]@);
            }
            if j < m {
                assert(r[j as int] == out@[j as int]@);
            }
            lemma_upper_pos(r, x@, j as int);
            let t = s.take(i + 1);
            assert(t.drop_last() =~= s.take(i as int));
            assert(t.last() == x@);
        }
        let ghost xv = x@;
        out.insert(j, x);
        keys.insert(j, k);
        assert(leaves_view(out@) =~= r.insert(j as int, xv));
        assert forall|jj: int| 0 <= jj < keys@.len() implies (#[trigger] keys@[jj])@ == sort_key(out@[jj]@) by {
            if jj < j {
            } else if jj > j {
            }
        }
        i = i + 1;
    }
    assert(s.take(n as int) =~= s);
    out
}

/// A list leaf holding `items`.
fn list_leaf_data(items: Vec<NbtLeaf>) -> (r: NbtLeafData)
    ensures
        r@ == LeafDataV::List(leaves_view(items@)),
{
    let r = NbtLeafData::List(items);
    proof {
        match r@ {
            LeafDataV::List(v) => {
                assert(v =~= leaves_view(items@));
            },
            _ => {},
        }
    }
    r
}

/// A compound leaf holding `items`.
fn compound_leaf_data(items: Vec<NbtLeaf>) -> (r: NbtLeafData)
    ensures
        r@ == LeafDataV::Compound(leaves_view(items@)),
{
    let r = NbtLeafData::Compound(items);
    proof {
        match r@ {
            LeafDataV::Compound(v) => {
                assert(v =~= leaves_view(items@));
            },
            _ => {},
        }
    }
    r
}

/// The group of a leaf's data, as [`kind`] numbers them.
fn kind_of(d: &NbtLeafData) -> (k: u8)
    ensures
        k == match d@ {
            LeafDataV::Compound(_) => 0nat,
            LeafDataV::List(_) => 1nat,
            _ => 2nat,
        },
{
    match d {
        NbtLeafData::Compound(_) => 0,
        NbtLeafData::List(_) => 1,
        _ => 2,
    }
}

/// The leaf data a payload is shown as.
pub fn leaf_data_from_payload(p: &Payload) -> (r: NbtLeafData)
    ensures
        r@ == leaf_data_of(p@),
    decreases p,
{
    match p {
        Payload::Byte(v) => NbtLeafData::Byte(*v),
        Payload::Short(v) => NbtLeafData::Short(*v),
        Payload::Int(v) => NbtLeafData::Int(*v),
        Payload::Long(v) => NbtLeafData::Long(*v),
        Payload::Float(v) => NbtLeafData::Float(*v),
        Payload::Double(v) => NbtLeafData::Double(*v),
        Payload::String(v) => NbtLeafData::String(v.clone()),
        Payload::ByteArray(a) => a.to_item_data(),
        Payload::IntArray(a) => a.to_item_data(),
        Payload::LongArray(a) => a.to_item_data(),
        Payload::EmptyList => {
            let items: Vec<NbtLeaf> = Vec::new();
            assert(leaves_view(items@) =~= Seq::<LeafV>::empty());
            list_leaf_data(items)
        },
        Payload::ByteList(a) => {
            let items = NbtLeaf::easy_create_list(a.as_slice());
            assert(a@.map_values(|x: i8| x.item_data()) =~= a@.map_values(|x: i8| byte_data(x)));
            list_leaf_data(items)
        },
        Payload::ShortList(a) => {
            let items = NbtLeaf::easy_create_list(a.as_slice());
            assert(a@.map_values(|x: i16| x.item_data()) =~= a@.map_values(|x: i16| short_data(x)));
            list_leaf_data(items)
        },
        Payload::IntList(a) => {
            let items = NbtLeaf::easy_create_list(a.as_slice());
            assert(a@.map_values(|x: i32| x.item_data()) =~= a@.map_values(|x: i32| int_data(x)));
            list_leaf_data(items)
        },
        Payload::LongList(a) => {
            let items = NbtLeaf::easy_create_list(a.as_slice());
            assert(a@.map_values(|x: i64| x.item_data()) =~= a@.map_values(|x: i64| long_data(x)));
            list_leaf_data(items)
        },
        Payload::FloatList(a) => {
            let items = NbtLeaf::easy_create_list(a.as_slice());
            assert(a@.map_values(|x: u32| x.item_data()) =~= a@.map_values(|x: u32| float_data(x)));
            list_leaf_data(items)
        },
        Payload::DoubleList(a) => {
            let items = NbtLeaf::easy_create_list(a.as_slice());
            assert(a@.map_values(|x: u64| x.item_data()) =~= a@.map_values(|x: u64| double_data(x)));
            list_leaf_data(items)
        },
        Payload::ByteArrayList(a) => {
            let items = NbtLeaf::easy_create_list(a.as_slice());
            assert(a@.map_values(|x: Vec<i8>| x.item_data()) =~= a@.map_values(|x: Vec<i8>| x@).map_values(
                |x: Seq<i8>| byte_array_data(x),
            ));
            list_leaf_data(items)
        },
        Payload::IntArrayList(a) => {
            let items = NbtLeaf::easy_create_list(a.as_slice());
            assert(a@.map_values(|x: Vec<i32>| x.item_data()) =~= a@.map_values(|x: Vec<i32>| x@).map_values(
                |x: Seq<i32>| int_array_data(x),
            ));
            list_leaf_data(items)
        },
        Payload::LongArrayList(a) => {
            let items = NbtLeaf::easy_create_list(a.as_slice());
            assert(a@.map_values(|x: Vec<i64>| x.item_data()) =~= a@.map_values(|x: Vec<i64>| x@).map_values(
                |x: Seq<i64>| long_array_data(x),
            ));
            list_leaf_data(items)
        },
        Payload::StringList(a) => {
            let items = NbtLeaf::easy_create_list(a.as_slice());
            assert(a@.map_values(|x: String| x.item_data()) =~= a@.map_values(|x: String| x@).map_values(
                |x: Seq<char>| string_data(x),
            ));
            list_leaf_data(items)
        },
        Payload::ListList(a) => {
            let ghost lv = match p@ {
                PayloadV::ListList(l) => l,
                _ => Seq::empty(),
            };
            assert(lv.len() == a@.len());
            assert(forall|j: int| 0 <= j < lv.len() ==> lv[j] == #[trigger] a@[j]@);
            proof {
                lemma_list_datas(lv);
            }
            let ghost ds = list_datas(lv);
            let mut out: Vec<NbtLeaf> = Vec::new();
            let n = a.len();
            let mut i: usize = 0;
            while i < n
                invariant
                    n == a@.len(),
                    n == lv.len(),
                    n == ds.len(),
                    ds == list_datas(lv),
                    forall|j: int| 0 <= j < lv.len() ==> lv[j] == #[trigger] a@[j]@,
                    forall|j: int| 0 <= j < lv.len() ==> #[trigger] ds[j] == leaf_data_of(lv[j]),
                    *p == Payload::ListList(*a),
                    i <= n,
                    out@.len() == i,
                    forall|j: int| 0 <= j < i ==> (#[trigger] out@[j])@ == item_leaf(j, ds[j]),
                decreases n - i,
            {
                let x = &a[i];
                proof {
                    assert(decreases_to!(*p => p->ListList_0));
                    assert(decreases_to!(a => a@));
                    assert(decreases_to!(a@ => a@[i as int]));
                }
                let d = leaf_data_from_payload(x);
                out.push(NbtLeaf::new(item_name_string(i), d));
                i = i + 1;
            }
            assert(leaves_view(out@) =~= item_leaves(ds));
            list_leaf_data(out)
        },
        Payload::CompoundList(a) => {
            let ghost lv = match p@ {
                PayloadV::CompoundList(l) => l,
                _ => Seq::empty(),
            };
            assert(lv.len() == a@.len());
            assert(forall|j: int| 0 <= j < lv.len() ==> lv[j] == #[trigger] a@[j]@);
            proof {
                lemma_compound_datas(lv);
            }
            let ghost ds = compound_datas(lv);
            let mut out: Vec<NbtLeaf> = Vec::new();
            let n = a.len();
            let mut i: usize = 0;
            while i < n
                invariant
                    n == a@.len(),
                    n == lv.len(),
                    n == ds.len(),
                    ds == compound_datas(lv),
                    forall|j: int| 0 <= j < lv.len() ==> lv[j] == #[trigger] a@[j]@,
                    forall|j: int|
                        0 <= j < lv.len() ==> #[trigger] ds[j] == LeafDataV::Compound(
                            grouped(entry_leaves(lv[j])),
                        ),
                    *p == Payload::CompoundList(*a),
                    i <= n,
                    out@.len() == i,
                    forall|j: int| 0 <= j < i ==> (#[trigger] out@[j])@ == item_leaf(j, ds[j]),
                decreases n - i,
            {
                let x = &a[i];
                proof {
                    assert(decreases_to!(*p => p->CompoundList_0));
                    assert(decreases_to!(a => a@));
                    assert(decreases_to!(a@ => a@[i as int]));
                }
                let d = compound_leaf_data(leaves_from_compound(x));
                out.push(NbtLeaf::new(item_name_string(i), d));
                i = i + 1;
            }
            assert(leaves_view(out@) =~= item_leaves(ds));
            list_leaf_data(out)
        },
        Payload::Compound(c) => compound_leaf_data(leaves_from_compound(c)),
    }
}

/// The entries of a compound as leaves: compounds, then lists, then the rest,
/// each group ordered by lowercased name.
pub fn leaves_from_compound(c: &Compound) -> (r: Vec<NbtLeaf>)
    ensures
        leaves_view(r@) == grouped(entry_leaves(c@)),
    decreases c,
{
    let ghost cv = c@;
    let ghost el = entry_leaves(cv);
    proof {
        lemma_entry_leaves(cv);
        c.lemma_view_len();
    }
    let mut g0: Vec<NbtLeaf> = Vec::new();
    let mut g1: Vec<NbtLeaf> = Vec::new();
    let mut g2: Vec<NbtLeaf> = Vec::new();
    let n = c.entries.len();
    let mut i: usize = 0;
    assert(el.take(0) =~= Seq::<LeafV>::empty());
    assert(leaves_view(g0@) =~= Seq::<LeafV>::empty());
    assert(leaves_view(g1@) =~= Seq::<LeafV>::empty());
    assert(leaves_view(g2@) =~= Seq::<LeafV>::empty());
    while i < n
        invariant
            n == c.entries@.len(),
            cv == c@,
            n == cv.len(),
            el == entry_leaves(cv),
            n == el.len(),
            forall|j: int|
                0 <= j < cv.len() ==> #[trigger] el[j] == fresh_leaf(
                    cv[j].0,
                    leaf_data_of(cv[j].1.payload),
                ),
            i <= n,
            leaves_view(g0@) == group_of(el.take(i as int), 0),
            leaves_view(g1@) == group_of(el.take(i as int), 1),
            leaves_view(g2@) == group_of(el.take(i as int), 2),
        decreases n - i,
    {
        proof {
            c.lemma_view_entry(i as int);
            c.entries@[i as int].1.lemma_view_fields();
        }
        let e = &c.entries[i];
        proof {
            assert(decreases_to!(*c => c.entries));
            assert(decreases_to!(c.entries => c.entries@));
            assert(decreases_to!(c.entries@ => c.entries@[i as int]));
            assert(decreases_to!(c.entries@[i as int] => c.entries@[i as int].1));
            assert(decreases_to!(c.entries@[i as int].1 => c.entries@[i as int].1.payload));
        }
        let data = leaf_data_from_payload(&e.1.payload);
        let leaf = NbtLeaf::new(e.0.clone(), data);
        let ghost lv = leaf@;
        assert(lv == el[i as int]);
        let k = kind_of(&leaf.data);
        proof {
            lemma_leaf_fields(leaf);
            let t = el.take(i + 1);
            assert(t.drop_last() =~= el.take(i as int));
            assert(t.last() == lv);
        }
        let ghost b0 = leaves_view(g0@);
        let ghost b1 = leaves_view(g1@);
        let ghost b2 = leaves_view(g2@);
        if k == 0 {
            g0.push(leaf);
            assert(leaves_view(g0@) =~= b0.push(lv));
        } else if k == 1 {
            g1.push(leaf);
            assert(leaves_view(g1@) =~= b1.push(lv));
        } else {
            g2.push(leaf);
            assert(leaves_view(g2@) =~= b2.push(lv));
        }
        i = i + 1;
    }
    assert(el.take(n as int) =~= el);
    let mut r = sort_by_lowercase_name(g0);
    let mut s1 = sort_by_lowercase_name(g1);
    let mut s2 = sort_by_lowercase_name(g2);
    let ghost v0 = leaves_view(r@);
    let ghost v1 = leaves_view(s1@);
    let ghost v2 = leaves_view(s2@);
    r.append(&mut s1);
    r.append(&mut s2);
    assert(leaves_view(r@) =~= v0 + v1 + v2);
    r
}

/// What the edit field of a leaf starts with: the value's text for numbers
/// and strings; nothing for arrays, lists and compounds.
pub open spec fn buffer_text_of(d: LeafDataV) -> Option<Seq<SnbtSym>> {
    match d {
        LeafDataV::Byte(v) => Some(syms(int_text(v as int))),
        LeafDataV::Short(v) => Some(syms(int_text(v as int))),
        LeafDataV::Int(v) => Some(syms(int_text(v as int))),
        LeafDataV::Long(v) => Some(syms(int_text(v as int))),
        LeafDataV::Float(b) => Some(seq![SnbtSym::Float(b)]),
        LeafDataV::Double(b) => Some(seq![SnbtSym::Double(b)]),
        LeafDataV::String(s) => Some(syms(s)),
        _ => None,
    }
}

impl NbtLeafData {
    /// What the edit field of a leaf with this data starts with.
    pub fn buffer_text(&self) -> (r: Option<Vec<SnbtSym>>)
        ensures
            match r {
                Some(v) => buffer_text_of(self@) == Some(v@),
                None => buffer_text_of(self@) is None,
            },
    {
        let mut w: Vec<SnbtSym> = Vec::new();
        match self {
            NbtLeafData::Byte(v) => push_int(&mut w, *v as i64),
            NbtLeafData::Short(v) => push_int(&mut w, *v as i64),
            NbtLeafData::Int(v) => push_int(&mut w, *v as i64),
            NbtLeafData::Long(v) => push_int(&mut w, *v),
            NbtLeafData::Float(b) => w.push(SnbtSym::Float(*b)),
            NbtLeafData::Double(b) => w.push(SnbtSym::Double(*b)),
            NbtLeafData::String(s) => push_str(&mut w, s.as_str()),
            _ => {
                return None;
            },
        }
        assert(w@ =~= buffer_text_of(self@)->0);
        Some(w)
    }

    /// The leaf data a payload is shown as.
    pub fn from_payload(p: &Payload) -> (r: NbtLeafData)
        ensures
            r@ == leaf_data_of(p@),
    {
        leaf_data_from_payload(p)
    }

    /// The leaf data a compound is shown as.
    pub fn from_compound(c: &Compound) -> (r: NbtLeafData)
        ensures
            r@ == LeafDataV::Compound(grouped(entry_leaves(c@))),
    {
        compound_leaf_data(leaves_from_compound(c))
    }
}

impl NbtLeaf {
    /// The tree of a whole document: a leaf named as the root tag.
    pub fn from_root(root: &RootTag) -> (l: NbtLeaf)
        ensures
            l@ == fresh_leaf(root@.name, leaf_data_of(root@.data.payload)),
    {
        let name = root.name().to_owned();
        NbtLeaf::new(name, leaf_data_from_payload(root.payload()))
    }
}

/// The count shown beside a list or compound: `1 entry`, else the number and `entries`.
pub open spec fn entries_text(n: nat) -> Seq<char> {
    if n == 1 {
        seq!['1', ' ', 'e', 'n', 't', 'r', 'y']
    } else {
        decimal(n) + seq![' ', 'e', 'n', 't', 'r', 'i', 'e', 's']
    }
}

/// The count shown beside a list or compound of `n` items.
pub fn entries_label(n: usize) -> (s: String)
    ensures
        s@ == entries_text(n as nat),
{
    let mut s = String::new();
    push_decimal(&mut s, n as u64);
    push_char(&mut s, ' ');
    push_char(&mut s, 'e');
    push_char(&mut s, 'n');
    push_char(&mut s, 't');
    push_char(&mut s, 'r');
    if n == 1 {
        push_char(&mut s, 'y');
    } else {
        push_char(&mut s, 'i');
        push_char(&mut s, 'e');
        push_char(&mut s, 's');
    }
    assert(s@ =~= entries_text(n as nat));
    s
}

/// The mathematical value of an [`NbtTree`].
pub struct TreeV {
    pub leaf: LeafV,
    pub enabled: bool,
}

impl View for NbtTree {
    type V = TreeV;

    closed spec fn view(&self) -> TreeV {
        TreeV { leaf: self.leaf@, enabled: self.enabled }
    }
}

impl NbtTree {
    /// A tree with `leaf` at the top, enabled.
    pub fn new(leaf: NbtLeaf) -> (t: NbtTree)
        ensures
            t@ == (TreeV { leaf: leaf@, enabled: true }),
    {
        NbtTree { leaf, enabled: true }
    }

    /// The top leaf.
    pub fn leaf(&self) -> (l: &NbtLeaf)
        ensures
            l@ == self@.leaf,
    {
        &self.leaf
    }

    /// The top leaf, to change in place.
    pub fn leaf_mut(&mut self) -> (l: &mut NbtLeaf)
        ensures
            l@ == old(self)@.leaf,
            final(self)@ == (TreeV { leaf: final(l)@, enabled: old(self)@.enabled }),
    {
        &mut self.leaf
    }

    /// Replaces the top leaf.
    pub fn set_leaf(&mut self, leaf: NbtLeaf)
        ensures
            final(self)@ == (TreeV { leaf: leaf@, enabled: old(self)@.enabled }),
    {
        self.leaf = leaf;
    }

    /// Whether the tree is enabled.
    pub fn enabled(&self) -> (b: bool)
        ensures
            b == self@.enabled,
    {
        self.enabled
    }

    /// Enables or disables the tree.
    pub fn set_enabled(&mut self, enabled: bool)
        ensures
            final(self)@ == (TreeV { leaf: old(self)@.leaf, enabled }),
    {
        self.enabled = enabled;
    }
}


/// A list item is named `Item ` and its index, and holds the item's data.
pub proof fn law_item_leaf(k: int, d: LeafDataV)
    requires
        0 <= k,
    ensures
        item_leaf(k, d).name == seq!['I', 't', 'e', 'm', ' '] + decimal(k as nat),
        item_leaf(k, d).data == d,
{
}

/// The tree keeps the values of a payload: numbers, bit patterns and strings
/// as they are; an array's items in order, each with its decimal text.
pub proof fn law_leaf_scalars(
    b: i8,
    s: i16,
    i: i32,
    l: i64,
    f: u32,
    x: u64,
    t: Seq<char>,
    ba: Seq<i8>,
    ia: Seq<i32>,
    la: Seq<i64>,
)
    ensures
        leaf_data_of(PayloadV::Byte(b)) == LeafDataV::Byte(b),
        leaf_data_of(PayloadV::Short(s)) == LeafDataV::Short(s),
        leaf_data_of(PayloadV::Int(i)) == LeafDataV::Int(i),
        leaf_data_of(PayloadV::Long(l)) == LeafDataV::Long(l),
        leaf_data_of(PayloadV::Float(f)) == LeafDataV::Float(f),
        leaf_data_of(PayloadV::Double(x)) == LeafDataV::Double(x),
        leaf_data_of(PayloadV::String(t)) == LeafDataV::String(t),
        leaf_data_of(PayloadV::ByteArray(ba)) == LeafDataV::ByteArray(
            Seq::new(ba.len(), |k: int| (ba[k], int_text(ba[k] as int))),
        ),
        leaf_data_of(PayloadV::IntArray(ia)) == LeafDataV::IntArray(
            Seq::new(ia.len(), |k: int| (ia[k], int_text(ia[k] as int))),
        ),
        leaf_data_of(PayloadV::LongArray(la)) == LeafDataV::LongArray(
            Seq::new(la.len(), |k: int| (la[k], int_text(la[k] as int))),
        ),
{
    assert(with_texts(ba) =~= Seq::new(ba.len(), |k: int| (ba[k], int_text(ba[k] as int))));
    assert(with_texts(ia) =~= Seq::new(ia.len(), |k: int| (ia[k], int_text(ia[k] as int))));
    assert(with_texts(la) =~= Seq::new(la.len(), |k: int| (la[k], int_text(la[k] as int))));
}

/// A list payload becomes a list leaf with one item per element, in order:
/// item `k` is named `Item k` and holds what element `k` is shown as on its
/// own; an empty list has no items.
pub proof fn law_leaf_lists(
    bl: Seq<i8>,
    sl: Seq<i16>,
    il: Seq<i32>,
    ll: Seq<i64>,
    fl: Seq<u32>,
    dl: Seq<u64>,
    tl: Seq<Seq<char>>,
    bal: Seq<Seq<i8>>,
    ial: Seq<Seq<i32>>,
    lal: Seq<Seq<i64>>,
    nl: Seq<PayloadV>,
    cl: Seq<Seq<(Seq<char>, TagV)>>,
)
    ensures
        leaf_data_of(PayloadV::EmptyList) == LeafDataV::List(Seq::empty()),
        leaf_data_of(PayloadV::ByteList(bl)) == LeafDataV::List(
            Seq::new(bl.len(), |k: int| item_leaf(k, leaf_data_of(PayloadV::Byte(bl[k])))),
        ),
        leaf_data_of(PayloadV::ShortList(sl)) == LeafDataV::List(
            Seq::new(sl.len(), |k: int| item_leaf(k, leaf_data_of(PayloadV::Short(sl[k])))),
        ),
        leaf_data_of(PayloadV::IntList(il)) == LeafDataV::List(
            Seq::new(il.len(), |k: int| item_leaf(k, leaf_data_of(PayloadV::Int(il[k])))),
        ),
        leaf_data_of(PayloadV::LongList(ll)) == LeafDataV::List(
            Seq::new(ll.len(), |k: int| item_leaf(k, leaf_data_of(PayloadV::Long(ll[k])))),
        ),
        leaf_data_of(PayloadV::FloatList(fl)) == LeafDataV::List(
            Seq::new(fl.len(), |k: int| item_leaf(k, leaf_data_of(PayloadV::Float(fl[k])))),
        ),
        leaf_data_of(PayloadV::DoubleList(dl)) == LeafDataV::List(
            Seq::new(dl.len(), |k: int| item_leaf(k, leaf_data_of(PayloadV::Double(dl[k])))),
        ),
        leaf_data_of(PayloadV::StringList(tl)) == LeafDataV::List(
            Seq::new(tl.len(), |k: int| item_leaf(k, leaf_data_of(PayloadV::String(tl[k])))),
        ),
        leaf_data_of(PayloadV::ByteArrayList(bal)) == LeafDataV::List(
            Seq::new(bal.len(), |k: int| item_leaf(k, leaf_data_of(PayloadV::ByteArray(bal[k])))),
        ),
        leaf_data_of(PayloadV::IntArrayList(ial)) == LeafDataV::List(
            Seq::new(ial.len(), |k: int| item_leaf(k, leaf_data_of(PayloadV::IntArray(ial[k])))),
        ),
        leaf_data_of(PayloadV::LongArrayList(lal)) == LeafDataV::List(
            Seq::new(lal.len(), |k: int| item_leaf(k, leaf_data_of(PayloadV::LongArray(lal[k])))),
        ),
        leaf_data_of(PayloadV::ListList(nl)) == LeafDataV::List(
            Seq::new(nl.len(), |k: int| item_leaf(k, leaf_data_of(nl[k]))),
        ),
        leaf_data_of(PayloadV::CompoundList(cl)) == LeafDataV::List(
            Seq::new(cl.len(), |k: int| item_leaf(k, leaf_data_of(PayloadV::Compound(cl[k])))),
        ),
{
    lemma_list_datas(nl);
    lemma_compound_datas(cl);
    assert(item_leaves(Seq::empty()) =~= Seq::<LeafV>::empty());
    assert(item_leaves(bl.map_values(|x: i8| byte_data(x))) =~= Seq::new(bl.len(), |k: int| item_leaf(k, leaf_data_of(PayloadV::Byte(bl[k])))));
    assert(item_leaves(sl.map_values(|x: i16| short_data(x))) =~= Seq::new(sl.len(), |k: int| item_leaf(k, leaf_data_of(PayloadV::Short(sl[k])))));
    assert(item_leaves(il.map_values(|x: i32| int_data(x))) =~= Seq::new(il.len(), |k: int| item_leaf(k, leaf_data_of(PayloadV::Int(il[k])))));
    assert(item_leaves(ll.map_values(|x: i64| long_data(x))) =~= Seq::new(ll.len(), |k: int| item_leaf(k, leaf_data_of(PayloadV::Long(ll[k])))));
    assert(item_leaves(fl.map_values(|x: u32| float_data(x))) =~= Seq::new(fl.len(), |k: int| item_leaf(k, leaf_data_of(PayloadV::Float(fl[k])))));
    assert(item_leaves(dl.map_values(|x: u64| double_data(x))) =~= Seq::new(dl.len(), |k: int| item_leaf(k, leaf_data_of(PayloadV::Double(dl[k])))));
    assert(item_leaves(tl.map_values(|x: Seq<char>| string_data(x))) =~= Seq::new(tl.len(), |k: int| item_leaf(k, leaf_data_of(PayloadV::String(tl[k])))));
    assert(item_leaves(bal.map_values(|x: Seq<i8>| byte_array_data(x))) =~= Seq::new(bal.len(), |k: int| item_leaf(k, leaf_data_of(PayloadV::ByteArray(bal[k])))));
    assert(item_leaves(ial.map_values(|x: Seq<i32>| int_array_data(x))) =~= Seq::new(ial.len(), |k: int| item_leaf(k, leaf_data_of(PayloadV::IntArray(ial[k])))));
    assert(item_leaves(lal.map_values(|x: Seq<i64>| long_array_data(x))) =~= Seq::new(lal.len(), |k: int| item_leaf(k, leaf_data_of(PayloadV::LongArray(lal[k])))));
    assert(item_leaves(list_datas(nl)) =~= Seq::new(nl.len(), |k: int| item_leaf(k, leaf_data_of(nl[k]))));
    assert(item_leaves(compound_datas(cl)) =~= Seq::new(cl.len(), |k: int| item_leaf(k, leaf_data_of(PayloadV::Compound(cl[k])))));
}

/// A compound becomes a compound leaf holding one leaf per entry, each named
/// as the entry and holding what its payload is shown as, rearranged:
/// compounds first, then lists, then the rest, each group in order of
/// lowercased name.
pub proof fn law_leaf_compound(c: Seq<(Seq<char>, TagV)>)
    ensures
        leaf_data_of(PayloadV::Compound(c)) is Compound,
        leaf_data_of(PayloadV::Compound(c))->Compound_0.to_multiset() == Seq::new(
            c.len(),
            |k: int| fresh_leaf(c[k].0, leaf_data_of(c[k].1.payload)),
        ).to_multiset(),
        forall|i: int, j: int|
            #![trigger leaf_data_of(PayloadV::Compound(c))->Compound_0[i], leaf_data_of(PayloadV::Compound(c))->Compound_0[j]]
            0 <= i < j < leaf_data_of(PayloadV::Compound(c))->Compound_0.len() ==> {
                let g = leaf_data_of(PayloadV::Compound(c))->Compound_0;
                kind(g[i]) <= kind(g[j]) && (kind(g[i]) == kind(g[j]) ==> !key_lt(
                    sort_key(g[j]),
                    sort_key(g[i]),
                ))
            },
{
    let el = entry_leaves(c);
    lemma_entry_leaves(c);
    assert(el =~= Seq::new(c.len(), |k: int| fresh_leaf(c[k].0, leaf_data_of(c[k].1.payload))));
    law_grouped_permutes(el);
    law_grouped_ordered(el);
}

} // verus!
