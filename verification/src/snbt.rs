//! SNBT, the text form of NBT.
//!
//! Text is produced as a sequence of symbols: characters, and the bit patterns
//! of floating-point numbers, which a caller renders with Rust's `Display` for
//! `f32` / `f64` (the shortest text that reads back as the same number).

use crate::nbt::{
    payload_view, Compound, Payload, PayloadV, RootTag, RootV, TagData, TagV,
};
use crate::text::{decimal, digit_of, int_text};
use vstd::prelude::*;

verus! {

broadcast use vstd::std_specs::vec::axiom_vec_decreases_to_view, vstd::std_specs::vec::axiom_vec_index_decreases,
    vstd::seq::axiom_seq_index_decreases, vstd::seq::axiom_seq_subrange_decreases;

/// One symbol of SNBT text.
#[derive(Clone, Copy, Debug, PartialEq, Eq, Structural)]
pub enum SnbtSym {
    /// A character of the text.
    Letter(char),
    /// An `f32`, by its bits, written as `Display` writes it.
    Float(u32),
    /// An `f64`, by its bits, written as `Display` writes it.
    Double(u64),
}

/// Characters as symbols.
pub open spec fn syms(s: Seq<char>) -> Seq<SnbtSym> {
    s.map_values(|c: char| letter(c))
}

/// A character as a symbol.
pub open spec fn letter(c: char) -> SnbtSym {
    SnbtSym::Letter(c)
}

/// An integer followed by a type suffix.
pub open spec fn number(i: int, suffix: Seq<char>) -> Seq<SnbtSym> {
    syms(int_text(i) + suffix)
}

/// The quote a string is written in: double quotes, unless the first quote
/// character in it is a double quote, then single quotes.
pub open spec fn quote_of(s: Seq<char>) -> char
    decreases s.len(),
{
    if s.len() == 0 {
        '"'
    } else if s[0] == '\'' {
        '"'
    } else if s[0] == '"' {
        '\''
    } else {
        quote_of(s.drop_first())
    }
}

/// How one character is written inside a string quoted with `q`.
pub open spec fn escape_char(c: char, q: char) -> Seq<char> {
    if c == '\x08' {
        seq!['\\', 'b']
    } else if c == '\x0C' {
        seq!['\\', 'f']
    } else if c == '\n' {
        seq!['\\', 'n']
    } else if c == '\r' {
        seq!['\\', 'r']
    } else if c == '\t' {
        seq!['\\', 't']
    } else if c == '\\' {
        seq!['\\', '\\']
    } else if c == q {
        seq!['\\', c]
    } else {
        seq![c]
    }
}

/// The characters of `s`, each escaped for quote `q`.
pub open spec fn escaped(s: Seq<char>, q: char) -> Seq<char>
    decreases s.len(),
{
    if s.len() == 0 {
        Seq::empty()
    } else {
        escaped(s.drop_last(), q) + escape_char(s.last(), q)
    }
}

/// A string as SNBT: quoted and escaped.
pub open spec fn string_snbt(s: Seq<char>) -> Seq<SnbtSym> {
    syms(seq![quote_of(s)] + escaped(s, quote_of(s)) + seq![quote_of(s)])
}

/// Parts separated by commas.
pub open spec fn join(parts: Seq<Seq<SnbtSym>>) -> Seq<SnbtSym>
    decreases parts.len(),
{
    if parts.len() == 0 {
        Seq::empty()
    } else if parts.len() == 1 {
        parts[0]
    } else {
        join(parts.drop_last()) + seq![letter(',')] + parts.last()
    }
}

/// An array: `[`, a prefix, the items separated by commas, `]`.
pub open spec fn array(prefix: Seq<char>, items: Seq<Seq<SnbtSym>>) -> Seq<SnbtSym> {
    seq![letter('[')] + syms(prefix) + join(items) + seq![letter(']')]
}

pub open spec fn byte_snbt(v: i8) -> Seq<SnbtSym> {
    number(v as int, seq!['b'])
}

pub open spec fn short_snbt(v: i16) -> Seq<SnbtSym> {
    number(v as int, seq!['s'])
}

pub open spec fn int_snbt(v: i32) -> Seq<SnbtSym> {
    number(v as int, Seq::empty())
}

pub open spec fn long_snbt(v: i64) -> Seq<SnbtSym> {
    number(v as int, seq!['L'])
}

pub open spec fn float_snbt(bits: u32) -> Seq<SnbtSym> {
    seq![SnbtSym::Float(bits), SnbtSym::Letter('f')]
}

pub open spec fn double_snbt(bits: u64) -> Seq<SnbtSym> {
    seq![SnbtSym::Double(bits), SnbtSym::Letter('d')]
}

pub open spec fn bytes_array_snbt(prefix: Seq<char>, a: Seq<i8>) -> Seq<SnbtSym> {
    array(prefix, a.map_values(|v: i8| byte_snbt(v)))
}

pub open spec fn ints_array_snbt(prefix: Seq<char>, a: Seq<i32>) -> Seq<SnbtSym> {
    array(prefix, a.map_values(|v: i32| int_snbt(v)))
}

pub open spec fn longs_array_snbt(prefix: Seq<char>, a: Seq<i64>) -> Seq<SnbtSym> {
    array(prefix, a.map_values(|v: i64| long_snbt(v)))
}

/// A payload as SNBT.
pub open spec fn payload_snbt(p: PayloadV) -> Seq<SnbtSym>
    decreases p, 0nat,
{
    match p {
        PayloadV::Byte(v) => byte_snbt(v),
        PayloadV::Short(v) => short_snbt(v),
        PayloadV::Int(v) => int_snbt(v),
        PayloadV::Long(v) => long_snbt(v),
        PayloadV::Float(v) => float_snbt(v),
        PayloadV::Double(v) => double_snbt(v),
        PayloadV::String(s) => string_snbt(s),
        PayloadV::ByteArray(a) => bytes_array_snbt(seq!['B', ';'], a),
        PayloadV::IntArray(a) => ints_array_snbt(seq!['I', ';'], a),
        PayloadV::LongArray(a) => longs_array_snbt(seq!['L', ';'], a),
        PayloadV::EmptyList => syms(seq!['[', ']']),
        PayloadV::ByteList(a) => bytes_array_snbt(Seq::empty(), a),
        PayloadV::ShortList(a) => array(Seq::empty(), a.map_values(|v: i16| short_snbt(v))),
        PayloadV::IntList(a) => ints_array_snbt(Seq::empty(), a),
        PayloadV::LongList(a) => longs_array_snbt(Seq::empty(), a),
        PayloadV::FloatList(a) => array(Seq::empty(), a.map_values(|v: u32| float_snbt(v))),
        PayloadV::DoubleList(a) => array(Seq::empty(), a.map_values(|v: u64| double_snbt(v))),
        PayloadV::StringList(a) => array(Seq::empty(), a.map_values(|s: Seq<char>| string_snbt(s))),
        PayloadV::ByteArrayList(a) => array(
            Seq::empty(),
            a.map_values(|x: Seq<i8>| bytes_array_snbt(seq!['B', ';'], x)),
        ),
        PayloadV::IntArrayList(a) => array(
            Seq::empty(),
            a.map_values(|x: Seq<i32>| ints_array_snbt(seq!['I', ';'], x)),
        ),
        PayloadV::LongArrayList(a) => array(
            Seq::empty(),
            a.map_values(|x: Seq<i64>| longs_array_snbt(seq!['L', ';'], x)),
        ),
        PayloadV::ListList(a) => array(Seq::empty(), list_parts(a)),
        PayloadV::CompoundList(a) => array(Seq::empty(), compound_parts(a)),
        PayloadV::Compound(c) => compound_snbt(c),
    }
}

/// The SNBT text of each payload of a list of lists.
pub open spec fn list_parts(a: Seq<PayloadV>) -> Seq<Seq<SnbtSym>>
    decreases a, 0nat,
{
    if a.len() == 0 {
        Seq::empty()
    } else {
        list_parts(a.drop_last()).push(payload_snbt(a.last()))
    }
}

/// The SNBT text of each compound of a list of compounds.
pub open spec fn compound_parts(a: Seq<Seq<(Seq<char>, TagV)>>) -> Seq<Seq<SnbtSym>>
    decreases a, 0nat,
{
    if a.len() == 0 {
        Seq::empty()
    } else {
        compound_parts(a.drop_last()).push(compound_snbt(a.last()))
    }
}

/// One compound entry: its quoted name, `:`, and its payload.
pub open spec fn entry_snbt(e: (Seq<char>, TagV)) -> Seq<SnbtSym>
    decreases e, 0nat,
{
    string_snbt(e.0) + seq![letter(':')] + payload_snbt(e.1.payload)
}

/// The entries of a compound, separated by commas.
pub open spec fn entries_snbt(c: Seq<(Seq<char>, TagV)>) -> Seq<SnbtSym>
    decreases c, 0nat,
{
    if c.len() == 0 {
        Seq::empty()
    } else if c.len() == 1 {
        entry_snbt(c.last())
    } else {
        entries_snbt(c.drop_last()) + seq![letter(',')] + entry_snbt(c.last())
    }
}

/// A compound as SNBT: `{`, then each entry as its quoted name, `:` and its
/// payload, the entries separated by commas, then `}`.
pub open spec fn compound_snbt(c: Seq<(Seq<char>, TagV)>) -> Seq<SnbtSym>
    decreases c, 1nat,
{
    seq![letter('{')] + entries_snbt(c) + seq![letter('}')]
}

/// A root tag as displayed: its payload, preceded by its quoted name and `: `
/// when the name is not empty.
pub open spec fn root_snbt(r: RootV) -> Seq<SnbtSym> {
    if r.name.len() == 0 {
        payload_snbt(r.data.payload)
    } else {
        string_snbt(r.name) + syms(seq![':', ' ']) + payload_snbt(r.data.payload)
    }
}

pub proof fn lemma_text_add(a: Seq<char>, b: Seq<char>)
    ensures
        syms(a + b) == syms(a) + syms(b),
{
    assert forall|i: int| 0 <= i < a.len() + b.len() implies syms(a + b)[i] == (syms(a) + syms(b))[i] by {
        if i < a.len() {
            assert((a + b)[i] == a[i]);
        } else {
            assert((a + b)[i] == b[i - a.len()]);
        }
    }
    assert(syms(a + b) =~= syms(a) + syms(b));
}

/// Appends one character.
fn push_char(w: &mut Vec<SnbtSym>, c: char)
    ensures
        final(w)@ == old(w)@ + syms(seq![c]),
{
    w.push(SnbtSym::Letter(c));
    assert(syms(seq![c]) =~= seq![letter(c)]);
}

/// Appends the characters of `s`.
pub(crate) fn push_str(w: &mut Vec<SnbtSym>, s: &str)
    ensures
        final(w)@ == old(w)@ + syms(s@),
{
    let cs = crate::text::chars_of(s);
    let ghost base = w@;
    let mut i: usize = 0;
    while i < cs.len()
        invariant
            cs@ == s@,
            i <= cs@.len(),
            w@ == base + syms(s@.take(i as int)),
        decreases cs@.len() - i,
    {
        push_char(w, cs[i]);
        proof {
            assert(s@.take(i + 1) =~= s@.take(i as int) + seq![s@[i as int]]);
            lemma_text_add(s@.take(i as int), seq![s@[i as int]]);
        }
        i = i + 1;
    }
    assert(s@.take(i as int) =~= s@);
}

/// Appends the decimal digits of `n`.
fn push_decimal(w: &mut Vec<SnbtSym>, n: u64)
    ensures
        final(w)@ == old(w)@ + syms(decimal(n as nat)),
    decreases n,
{
    if n >= 10 {
        push_decimal(w, n / 10);
    }
    push_char(w, crate::text::digit_char(n % 10));
    proof {
        if n >= 10 {
            lemma_text_add(decimal((n / 10) as nat), seq![digit_of((n % 10) as int)]);
            assert(decimal(n as nat) =~= decimal((n / 10) as nat) + seq![digit_of((n % 10) as int)]);
        }
    }
}

/// Appends a signed integer as `Display` writes it.
pub(crate) fn push_int(w: &mut Vec<SnbtSym>, v: i64)
    ensures
        final(w)@ == old(w)@ + syms(int_text(v as int)),
{
    if v < 0 {
        push_char(w, '-');
        let mag: u64 = (0 - (v as i128)) as u64;
        push_decimal(w, mag);
        proof {
            lemma_text_add(seq!['-'], decimal(mag as nat));
        }
    } else {
        push_decimal(w, v as u64);
    }
}

/// Appends an integer followed by a suffix.
fn push_number(w: &mut Vec<SnbtSym>, v: i64, suffix: &str)
    ensures
        final(w)@ == old(w)@ + number(v as int, suffix@),
{
    push_int(w, v);
    push_str(w, suffix);
    proof {
        lemma_text_add(int_text(v as int), suffix@);
    }
}

/// Appends an unsigned integer followed by a suffix.
fn push_unsigned(w: &mut Vec<SnbtSym>, v: u64, suffix: &str)
    ensures
        final(w)@ == old(w)@ + number(v as int, suffix@),
{
    push_decimal(w, v);
    push_str(w, suffix);
    proof {
        lemma_text_add(decimal(v as nat), suffix@);
    }
}

/// Appends the escaped form of `c` inside quotes `q`.
fn push_escaped(w: &mut Vec<SnbtSym>, c: char, q: char)
    ensures
        final(w)@ == old(w)@ + syms(escape_char(c, q)),
{
    let ghost base = w@;
    if c == '\x08' {
        push_char(w, '\\');
        push_char(w, 'b');
    } else if c == '\x0C' {
        push_char(w, '\\');
        push_char(w, 'f');
    } else if c == '\n' {
        push_char(w, '\\');
        push_char(w, 'n');
    } else if c == '\r' {
        push_char(w, '\\');
        push_char(w, 'r');
    } else if c == '\t' {
        push_char(w, '\\');
        push_char(w, 't');
    } else if c == '\\' {
        push_char(w, '\\');
        push_char(w, '\\');
    } else if c == q {
        push_char(w, '\\');
        push_char(w, c);
    } else {
        push_char(w, c);
    }
    assert(w@ =~= base + syms(escape_char(c, q)));
}

/// The character that the escape `\c` stands for.
pub open spec fn unescape_char(c: char) -> char {
    if c == 'b' {
        '\x08'
    } else if c == 'f' {
        '\x0C'
    } else if c == 'n' {
        '\n'
    } else if c == 'r' {
        '\r'
    } else if c == 't' {
        '\t'
    } else {
        c
    }
}

/// Reads the body of a string quoted with `q`: characters up to the first
/// `q` that no backslash escapes, each escape `\c` read as the character it
/// stands for. Gives the characters read and how many were consumed, the
/// closing quote included; `None` when no closing quote comes.
pub open spec fn read_quoted(t: Seq<char>, q: char) -> Option<(Seq<char>, int)>
    decreases t.len(),
{
    if t.len() == 0 {
        None
    } else if t[0] == q {
        Some((Seq::empty(), 1))
    } else if t[0] == '\\' {
        if t.len() < 2 {
            None
        } else {
            match read_quoted(t.skip(2), q) {
                None => None,
                Some((r, n)) => Some((seq![unescape_char(t[1])] + r, n + 2)),
            }
        }
    } else {
        match read_quoted(t.skip(1), q) {
            None => None,
            Some((r, n)) => Some((seq![t[0]] + r, n + 1)),
        }
    }
}

proof fn lemma_quote_of(s: Seq<char>)
    ensures
        quote_of(s) == '"' || quote_of(s) == '\'',
    decreases s.len(),
{
    if s.len() > 0 {
        lemma_quote_of(s.drop_first());
    }
}

/// `escaped` read from the front: the first character's escape, then the rest.
proof fn lemma_escaped_front(s: Seq<char>, q: char)
    requires
        s.len() > 0,
    ensures
        escaped(s, q) == escape_char(s[0], q) + escaped(s.drop_first(), q),
    decreases s.len(),
{
    if s.len() == 1 {
        assert(s.drop_first() =~= Seq::<char>::empty());
        assert(s.drop_last() =~= Seq::<char>::empty());
        assert(escaped(Seq::<char>::empty(), q) == Seq::<char>::empty());
        assert(s.last() == s[0]);
        assert(escaped(s, q) =~= escape_char(s[0], q));
    } else {
        lemma_escaped_front(s.drop_last(), q);
        assert(s.drop_last().drop_first() =~= s.drop_first().drop_last());
        assert(s.drop_first().last() == s.last());
        assert(s.drop_last()[0] == s[0]);
        assert(escaped(s, q) =~= escape_char(s[0], q) + escaped(s.drop_first(), q));
    }
}

/// A written string reads back: after the opening quote, reading the
/// escaped characters and the closing quote (whatever follows them) gives the
/// string again, and stops exactly at the closing quote, so every quote
/// character inside was escaped. The quote is `"` unless the first quote
/// character in the string is `"`, then `'`.
pub proof fn law_string_reads_back(s: Seq<char>, rest: Seq<char>)
    ensures
        quote_of(s) == '"' || quote_of(s) == '\'',
        string_snbt(s) == syms(seq![quote_of(s)] + escaped(s, quote_of(s)) + seq![quote_of(s)]),
        read_quoted(escaped(s, quote_of(s)) + seq![quote_of(s)] + rest, quote_of(s)) == Some(
            (s, escaped(s, quote_of(s)).len() + 1int),
        ),
{
    lemma_quote_of(s);
    lemma_read_escaped(s, quote_of(s), rest);
}

proof fn lemma_read_escaped(s: Seq<char>, q: char, rest: Seq<char>)
    requires
        q == '"' || q == '\'',
    ensures
        read_quoted(escaped(s, q) + seq![q] + rest, q) == Some((s, escaped(s, q).len() + 1int)),
    decreases s.len(),
{
    let t = escaped(s, q) + seq![q] + rest;
    if s.len() == 0 {
        assert(escaped(s, q) =~= Seq::<char>::empty());
        assert(t[0] == q);
        assert(s =~= Seq::<char>::empty());
    } else {
        let c = s[0];
        let s1 = s.drop_first();
        lemma_escaped_front(s, q);
        lemma_read_escaped(s1, q, rest);
        let t1 = escaped(s1, q) + seq![q] + rest;
        let e = escape_char(c, q);
        assert(t =~= e + t1);
        assert(s =~= seq![c] + s1);
        if e.len() == 2 {
            assert(t.skip(2) =~= t1);
            assert(unescape_char(e[1]) == c);
        } else {
            assert(t.skip(1) =~= t1);
        }
    }
}

/// Appends `s` as an SNBT string.
pub fn write_string(w: &mut Vec<SnbtSym>, s: &str)
    ensures
        final(w)@ == old(w)@ + string_snbt(s@),
{
    let cs = crate::text::chars_of(s);
    let n = cs.len();
    let mut i: usize = 0;
    assert(s@.skip(0) =~= s@);
    while i < n && cs[i] != '\'' && cs[i] != '"'
        invariant
            cs@ == s@,
            n == cs@.len(),
            i <= n,
            quote_of(s@) == quote_of(s@.skip(i as int)),
        decreases n - i,
    {
        assert(s@.skip(i as int).drop_first() =~= s@.skip(i + 1));
        i = i + 1;
    }
    let q = if i == n {
        '"'
    } else if cs[i] == '\'' {
        '"'
    } else {
        '\''
    };
    let ghost base = w@;
    push_char(w, q);
    let mut j: usize = 0;
    assert(s@.take(0) =~= Seq::<char>::empty());
    while j < n
        invariant
            cs@ == s@,
            n == cs@.len(),
            j <= n,
            q == quote_of(s@),
            w@ == base + syms(seq![q] + escaped(s@.take(j as int), q)),
        decreases n - j,
    {
        push_escaped(w, cs[j], q);
        proof {
            let t = s@.take(j + 1);
            assert(t.drop_last() =~= s@.take(j as int));
            assert(escaped(t, q) == escaped(s@.take(j as int), q) + escape_char(s@[j as int], q));
            lemma_text_add(seq![q] + escaped(s@.take(j as int), q), escape_char(s@[j as int], q));
            assert(seq![q] + escaped(s@.take(j as int), q) + escape_char(s@[j as int], q) =~= seq![q]
                + escaped(t, q));
        }
        j = j + 1;
    }
    push_char(w, q);
    proof {
        assert(s@.take(n as int) =~= s@);
        lemma_text_add(seq![q] + escaped(s@, q), seq![q]);
    }
}

/// Conversion to SNBT.
pub trait Snbt {
    /// The SNBT text of the value.
    spec fn snbt(&self) -> Seq<SnbtSym>;

    /// Appends the SNBT text of the value to `w`.
    fn to_snbt(&self, w: &mut Vec<SnbtSym>)
        ensures
            final(w)@ == old(w)@ + self.snbt(),
    ;
}

impl Snbt for bool {
    open spec fn snbt(&self) -> Seq<SnbtSym> {
        if *self {
            syms(seq!['t', 'r', 'u', 'e'])
        } else {
            syms(seq!['f', 'a', 'l', 's', 'e'])
        }
    }

    fn to_snbt(&self, w: &mut Vec<SnbtSym>) {
        if *self {
            push_str(w, "true");
            proof {
                reveal_strlit("true");
            }
        } else {
            push_str(w, "false");
            proof {
                reveal_strlit("false");
            }
        }
    }
}

impl Snbt for i8 {
    open spec fn snbt(&self) -> Seq<SnbtSym> {
        byte_snbt(*self)
    }

    fn to_snbt(&self, w: &mut Vec<SnbtSym>) {
        push_number(w, *self as i64, "b");
        proof {
            reveal_strlit("b");
        }
    }
}

impl Snbt for u8 {
    open spec fn snbt(&self) -> Seq<SnbtSym> {
        number(*self as int, seq!['u', 'b'])
    }

    fn to_snbt(&self, w: &mut Vec<SnbtSym>) {
        push_unsigned(w, *self as u64, "ub");
        proof {
            reveal_strlit("ub");
        }
    }
}

impl Snbt for i16 {
    open spec fn snbt(&self) -> Seq<SnbtSym> {
        short_snbt(*self)
    }

    fn to_snbt(&self, w: &mut Vec<SnbtSym>) {
        push_number(w, *self as i64, "s");
        proof {
            reveal_strlit("s");
        }
    }
}

impl Snbt for u16 {
    open spec fn snbt(&self) -> Seq<SnbtSym> {
        number(*self as int, seq!['u', 's'])
    }

    fn to_snbt(&self, w: &mut Vec<SnbtSym>) {
        push_unsigned(w, *self as u64, "us");
        proof {
            reveal_strlit("us");
        }
    }
}

impl Snbt for i32 {
    open spec fn snbt(&self) -> Seq<SnbtSym> {
        int_snbt(*self)
    }

    fn to_snbt(&self, w: &mut Vec<SnbtSym>) {
        push_number(w, *self as i64, "");
        proof {
            reveal_strlit("");
            assert(int_text(*self as int) + ""@ =~= int_text(*self as int));
        }
    }
}

impl Snbt for u32 {
    open spec fn snbt(&self) -> Seq<SnbtSym> {
        number(*self as int, seq!['u', 'i'])
    }

    fn to_snbt(&self, w: &mut Vec<SnbtSym>) {
        push_unsigned(w, *self as u64, "ui");
        proof {
            reveal_strlit("ui");
        }
    }
}

impl Snbt for i64 {
    open spec fn snbt(&self) -> Seq<SnbtSym> {
        long_snbt(*self)
    }

    fn to_snbt(&self, w: &mut Vec<SnbtSym>) {
        push_number(w, *self, "L");
        proof {
            reveal_strlit("L");
        }
    }
}

impl Snbt for u64 {
    open spec fn snbt(&self) -> Seq<SnbtSym> {
        number(*self as int, seq!['u', 'l'])
    }

    fn to_snbt(&self, w: &mut Vec<SnbtSym>) {
        push_unsigned(w, *self, "ul");
        proof {
            reveal_strlit("ul");
        }
    }
}

impl<'a> Snbt for &'a str {
    open spec fn snbt(&self) -> Seq<SnbtSym> {
        string_snbt((*self)@)
    }

    fn to_snbt(&self, w: &mut Vec<SnbtSym>) {
        write_string(w, *self);
    }
}

impl Snbt for String {
    open spec fn snbt(&self) -> Seq<SnbtSym> {
        string_snbt(self@)
    }

    fn to_snbt(&self, w: &mut Vec<SnbtSym>) {
        write_string(w, self.as_str());
    }
}

/// Appends `f`'s text of each item, separated by commas.
pub fn write_array_inner<T, F: Fn(&T, &mut Vec<SnbtSym>)>(
    w: &mut Vec<SnbtSym>,
    items: &[T],
    f: F,
    Ghost(g): Ghost<spec_fn(T) -> Seq<SnbtSym>>,
)
    requires
        forall|x: &T, out: &mut Vec<SnbtSym>| call_requires(f, (x, out)),
        forall|x: &T, out: &mut Vec<SnbtSym>|
            call_ensures(f, (x, out), ()) ==> final(out)@ == out@ + g(*x),
    ensures
        final(w)@ == old(w)@ + join(items@.map_values(g)),
{
    let ghost base = w@;
    let ghost parts = items@.map_values(g);
    let n = items.len();
    let mut i: usize = 0;
    assert(parts.take(0) =~= Seq::<Seq<SnbtSym>>::empty());
    while i < n
        invariant
            n == items@.len(),
            parts == items@.map_values(g),
            i <= n,
            w@ == base + join(parts.take(i as int)),
            forall|x: &T, out: &mut Vec<SnbtSym>| call_requires(f, (x, out)),
            forall|x: &T, out: &mut Vec<SnbtSym>|
                call_ensures(f, (x, out), ()) ==> final(out)@ == out@ + g(*x),
        decreases n - i,
    {
        let ghost before = w@;
        if i > 0 {
            w.push(SnbtSym::Letter(','));
        }
        let ghost mid = w@;
        f(&items[i], w);
        proof {
            let t = parts.take(i + 1);
            assert(t.drop_last() =~= parts.take(i as int));
            assert(t.last() == g(items@[i as int]));
            if i == 0 {
                assert(join(t) == t[0]);
                assert(w@ =~= base + join(t));
            } else {
                assert(w@ =~= base + join(t));
            }
        }
        i = i + 1;
    }
    assert(parts.take(n as int) =~= parts);
}

/// Appends `[`, `f`'s text of each item separated by commas, and `]`.
pub fn write_array_with_fn<T, F: Fn(&T, &mut Vec<SnbtSym>)>(
    w: &mut Vec<SnbtSym>,
    items: &[T],
    f: F,
    Ghost(g): Ghost<spec_fn(T) -> Seq<SnbtSym>>,
)
    requires
        forall|x: &T, out: &mut Vec<SnbtSym>| call_requires(f, (x, out)),
        forall|x: &T, out: &mut Vec<SnbtSym>|
            call_ensures(f, (x, out), ()) ==> final(out)@ == out@ + g(*x),
    ensures
        final(w)@ == old(w)@ + array(Seq::empty(), items@.map_values(g)),
{
    let ghost base = w@;
    w.push(SnbtSym::Letter('['));
    write_array_inner(w, items, f, Ghost(g));
    w.push(SnbtSym::Letter(']'));
    assert(syms(Seq::<char>::empty()) =~= Seq::<SnbtSym>::empty());
    assert(w@ =~= base + array(Seq::empty(), items@.map_values(g)));
}

/// Appends `[`, `prefix`, the SNBT text of each item separated by commas, and `]`.
pub fn write_array_with_prefix<T: Snbt>(w: &mut Vec<SnbtSym>, items: &[T], prefix: &str)
    ensures
        final(w)@ == old(w)@ + array(prefix@, items@.map_values(|x: T| x.snbt())),
{
    let ghost base = w@;
    w.push(SnbtSym::Letter('['));
    push_str(w, prefix);
    let write_item = |x: &T, out: &mut Vec<SnbtSym>|
        ensures
            (final(out)@ == old(out)@ + x.snbt()),
        {
            x.to_snbt(out);
        };
    write_array_inner(w, items, write_item, Ghost(|x: T| x.snbt()));
    w.push(SnbtSym::Letter(']'));
    assert(w@ =~= base + array(prefix@, items@.map_values(|x: T| x.snbt())));
}

impl<T: Snbt> Snbt for Vec<T> {
    open spec fn snbt(&self) -> Seq<SnbtSym> {
        array(Seq::empty(), self@.map_values(|x: T| x.snbt()))
    }

    fn to_snbt(&self, w: &mut Vec<SnbtSym>) {
        write_array_with_prefix(w, self.as_slice(), "");
        proof {
            reveal_strlit("");
        }
    }
}

impl<'a, T: Snbt> Snbt for &'a [T] {
    open spec fn snbt(&self) -> Seq<SnbtSym> {
        array(Seq::empty(), (*self)@.map_values(|x: T| x.snbt()))
    }

    fn to_snbt(&self, w: &mut Vec<SnbtSym>) {
        write_array_with_prefix(w, *self, "");
        proof {
            reveal_strlit("");
        }
    }
}

/// Appends a byte array with the given prefix.
fn write_bytes(w: &mut Vec<SnbtSym>, a: &Vec<i8>, prefix: &str)
    ensures
        final(w)@ == old(w)@ + bytes_array_snbt(prefix@, a@),
{
    write_array_with_prefix(w, a.as_slice(), prefix);
    assert(a@.map_values(|x: i8| x.snbt()) =~= a@.map_values(|v: i8| byte_snbt(v)));
}

/// Appends an int array with the given prefix.
fn write_ints(w: &mut Vec<SnbtSym>, a: &Vec<i32>, prefix: &str)
    ensures
        final(w)@ == old(w)@ + ints_array_snbt(prefix@, a@),
{
    write_array_with_prefix(w, a.as_slice(), prefix);
    assert(a@.map_values(|x: i32| x.snbt()) =~= a@.map_values(|v: i32| int_snbt(v)));
}

/// Appends a long array with the given prefix.
fn write_longs(w: &mut Vec<SnbtSym>, a: &Vec<i64>, prefix: &str)
    ensures
        final(w)@ == old(w)@ + longs_array_snbt(prefix@, a@),
{
    write_array_with_prefix(w, a.as_slice(), prefix);
    assert(a@.map_values(|x: i64| x.snbt()) =~= a@.map_values(|v: i64| long_snbt(v)));
}

/// Appends the SNBT text of a payload.
pub fn write_payload(w: &mut Vec<SnbtSym>, p: &Payload)
    ensures
        final(w)@ == old(w)@ + payload_snbt(p@),
    decreases p,
{
    let ghost base = w@;
    match p {
        Payload::Byte(v) => v.to_snbt(w),
        Payload::Short(v) => v.to_snbt(w),
        Payload::Int(v) => v.to_snbt(w),
        Payload::Long(v) => v.to_snbt(w),
        Payload::Float(v) => {
            w.push(SnbtSym::Float(*v));
            w.push(SnbtSym::Letter('f'));
            assert(w@ =~= base + float_snbt(*v));
        },
        Payload::Double(v) => {
            w.push(SnbtSym::Double(*v));
            w.push(SnbtSym::Letter('d'));
            assert(w@ =~= base + double_snbt(*v));
        },
        Payload::String(s) => write_string(w, s.as_str()),
        Payload::ByteArray(a) => {
            write_bytes(w, a, "B;");
            proof {
                reveal_strlit("B;");
            }
        },
        Payload::IntArray(a) => {
            write_ints(w, a, "I;");
            proof {
                reveal_strlit("I;");
            }
        },
        Payload::LongArray(a) => {
            write_longs(w, a, "L;");
            proof {
                reveal_strlit("L;");
            }
        },
        Payload::EmptyList => {
            w.push(SnbtSym::Letter('['));
            w.push(SnbtSym::Letter(']'));
            assert(w@ =~= base + syms(seq!['[', ']']));
        },
        Payload::ByteList(a) => {
            a.to_snbt(w);
            assert(a@.map_values(|x: i8| x.snbt()) =~= a@.map_values(|v: i8| byte_snbt(v)));
        },
        Payload::ShortList(a) => {
            a.to_snbt(w);
            assert(a@.map_values(|x: i16| x.snbt()) =~= a@.map_values(|v: i16| short_snbt(v)));
        },
        Payload::IntList(a) => {
            a.to_snbt(w);
            assert(a@.map_values(|x: i32| x.snbt()) =~= a@.map_values(|v: i32| int_snbt(v)));
        },
        Payload::LongList(a) => {
            a.to_snbt(w);
            assert(a@.map_values(|x: i64| x.snbt()) =~= a@.map_values(|v: i64| long_snbt(v)));
        },
        Payload::FloatList(a) => {
            let write_item = |x: &u32, out: &mut Vec<SnbtSym>|
                ensures
                    (final(out)@ == old(out)@ + float_snbt(*x)),
                {
                    let ghost b = out@;
                    out.push(SnbtSym::Float(*x));
                    out.push(SnbtSym::Letter('f'));
                    assert(out@ =~= b + float_snbt(*x));
                };
            write_array_with_fn(w, a.as_slice(), write_item, Ghost(|x: u32| float_snbt(x)));
        },
        Payload::DoubleList(a) => {
            let write_item = |x: &u64, out: &mut Vec<SnbtSym>|
                ensures
                    (final(out)@ == old(out)@ + double_snbt(*x)),
                {
                    let ghost b = out@;
                    out.push(SnbtSym::Double(*x));
                    out.push(SnbtSym::Letter('d'));
                    assert(out@ =~= b + double_snbt(*x));
                };
            write_array_with_fn(w, a.as_slice(), write_item, Ghost(|x: u64| double_snbt(x)));
        },
        Payload::StringList(a) => {
            a.to_snbt(w);
            assert(a@.map_values(|x: String| x.snbt()) =~= a@.map_values(|x: String| x@).map_values(
                |s: Seq<char>| string_snbt(s),
            ));
        },
        Payload::ByteArrayList(a) => {
            let write_item = |x: &Vec<i8>, out: &mut Vec<SnbtSym>|
                ensures
                    (final(out)@ == old(out)@ + bytes_array_snbt(seq!['B', ';'], x@)),
                {
                    write_bytes(out, x, "B;");
                    proof {
                        reveal_strlit("B;");
                        assert("B;"@ =~= seq!['B', ';']);
                    }
                };
            write_array_with_fn(w, a.as_slice(), write_item, Ghost(|x: Vec<i8>| bytes_array_snbt(seq!['B', ';'], x@)));
            assert(a@.map_values(|x: Vec<i8>| bytes_array_snbt(seq!['B', ';'], x@)) =~= a@.map_values(
                |x: Vec<i8>| x@,
            ).map_values(|x: Seq<i8>| bytes_array_snbt(seq!['B', ';'], x)));
        },
        Payload::IntArrayList(a) => {
            let write_item = |x: &Vec<i32>, out: &mut Vec<SnbtSym>|
                ensures
                    (final(out)@ == old(out)@ + ints_array_snbt(seq!['I', ';'], x@)),
                {
                    write_ints(out, x, "I;");
                    proof {
                        reveal_strlit("I;");
                        assert("I;"@ =~= seq!['I', ';']);
                    }
                };
            write_array_with_fn(w, a.as_slice(), write_item, Ghost(|x: Vec<i32>| ints_array_snbt(seq!['I', ';'], x@)));
            assert(a@.map_values(|x: Vec<i32>| ints_array_snbt(seq!['I', ';'], x@)) =~= a@.map_values(
                |x: Vec<i32>| x@,
            ).map_values(|x: Seq<i32>| ints_array_snbt(seq!['I', ';'], x)));
        },
        Payload::LongArrayList(a) => {
            let write_item = |x: &Vec<i64>, out: &mut Vec<SnbtSym>|
                ensures
                    (final(out)@ == old(out)@ + longs_array_snbt(seq!['L', ';'], x@)),
                {
                    write_longs(out, x, "L;");
                    proof {
                        reveal_strlit("L;");
                        assert("L;"@ =~= seq!['L', ';']);
                    }
                };
            write_array_with_fn(w, a.as_slice(), write_item, Ghost(|x: Vec<i64>| longs_array_snbt(seq!['L', ';'], x@)));
            assert(a@.map_values(|x: Vec<i64>| longs_array_snbt(seq!['L', ';'], x@)) =~= a@.map_values(
                |x: Vec<i64>| x@,
            ).map_values(|x: Seq<i64>| longs_array_snbt(seq!['L', ';'], x)));
        },
        Payload::ListList(a) => {
            let ghost lv = match p@ {
                PayloadV::ListList(l) => l,
                _ => Seq::empty(),
            };
            assert(lv.len() == a@.len());
            assert(forall|j: int| 0 <= j < lv.len() ==> lv[j] == #[trigger] a@[j]@);
            w.push(SnbtSym::Letter('['));
            let n = a.len();
            let mut i: usize = 0;
            assert(lv.take(0) =~= Seq::<PayloadV>::empty());
            while i < n
                invariant
                    n == a@.len(),
                    n == lv.len(),
                    forall|j: int| 0 <= j < lv.len() ==> lv[j] == #[trigger] a@[j]@,
                    *p == Payload::ListList(*a),
                    i <= n,
                    list_parts(lv.take(i as int)).len() == i,
                    w@ == base + seq![letter('[')] + join(list_parts(lv.take(i as int))),
                decreases n - i,
            {
                if i > 0 {
                    w.push(SnbtSym::Letter(','));
                }
                let x = &a[i];
                proof {
                    assert(decreases_to!(*p => p->ListList_0));
                    assert(decreases_to!(a => a@));
                    assert(decreases_to!(a@ => a@[i as int]));
                }
                write_payload(w, x);
                proof {
                    let t = lv.take(i + 1);
                    assert(t.drop_last() =~= lv.take(i as int));
                    assert(t.last() == lv[i as int]);
                    let ps = list_parts(t);
                    assert(ps.drop_last() =~= list_parts(lv.take(i as int)));
                    assert(w@ =~= base + seq![letter('[')] + join(ps));
                }
                i = i + 1;
            }
            w.push(SnbtSym::Letter(']'));
            assert(lv.take(n as int) =~= lv);
            assert(syms(Seq::<char>::empty()) =~= Seq::<SnbtSym>::empty());
            assert(w@ =~= base + array(Seq::empty(), list_parts(lv)));
        },
        Payload::CompoundList(a) => {
            let ghost lv = match p@ {
                PayloadV::CompoundList(l) => l,
                _ => Seq::empty(),
            };
            assert(lv.len() == a@.len());
            assert(forall|j: int| 0 <= j < lv.len() ==> lv[j] == #[trigger] a@[j]@);
            w.push(SnbtSym::Letter('['));
            let n = a.len();
            let mut i: usize = 0;
            assert(lv.take(0) =~= Seq::<Seq<(Seq<char>, TagV)>>::empty());
            while i < n
                invariant
                    n == a@.len(),
                    n == lv.len(),
                    forall|j: int| 0 <= j < lv.len() ==> lv[j] == #[trigger] a@[j]@,
                    *p == Payload::CompoundList(*a),
                    i <= n,
                    compound_parts(lv.take(i as int)).len() == i,
                    w@ == base + seq![letter('[')] + join(compound_parts(lv.take(i as int))),
                decreases n - i,
            {
                if i > 0 {
                    w.push(SnbtSym::Letter(','));
                }
                let x = &a[i];
                proof {
                    assert(decreases_to!(*p => p->CompoundList_0));
                    assert(decreases_to!(a => a@));
                    assert(decreases_to!(a@ => a@[i as int]));
                }
                write_compound(w, x);
                proof {
                    let t = lv.take(i + 1);
                    assert(t.drop_last() =~= lv.take(i as int));
                    assert(t.last() == lv[i as int]);
                    let ps = compound_parts(t);
                    assert(ps.drop_last() =~= compound_parts(lv.take(i as int)));
                    assert(w@ =~= base + seq![letter('[')] + join(ps));
                }
                i = i + 1;
            }
            w.push(SnbtSym::Letter(']'));
            assert(lv.take(n as int) =~= lv);
            assert(syms(Seq::<char>::empty()) =~= Seq::<SnbtSym>::empty());
            assert(w@ =~= base + array(Seq::empty(), compound_parts(lv)));
        },
        Payload::Compound(c) => write_compound(w, c),
    }
}

/// Appends the SNBT text of a compound.
pub fn write_compound(w: &mut Vec<SnbtSym>, c: &Compound)
    ensures
        final(w)@ == old(w)@ + compound_snbt(c@),
    decreases c,
{
    let ghost base = w@;
    let ghost cv = c@;
    w.push(SnbtSym::Letter('{'));
    let n = c.entries.len();
    let mut i: usize = 0;
    proof {
        c.lemma_view_len();
    }
    assert(cv.take(0) =~= Seq::<(Seq<char>, TagV)>::empty());
    while i < n
        invariant
            n == c.entries@.len(),
            cv == c@,
            n == cv.len(),
            i <= n,
            w@ == base + seq![letter('{')] + entries_snbt(cv.take(i as int)),
        decreases n - i,
    {
        proof {
            c.lemma_view_entry(i as int);
            c.entries@[i as int].1.lemma_view_fields();
        }
        let e = &c.entries[i];
        if i > 0 {
            w.push(SnbtSym::Letter(','));
        }
        write_string(w, e.0.as_str());
        w.push(SnbtSym::Letter(':'));
        write_payload(w, &e.1.payload);
        proof {
            let t = cv.take(i + 1);
            assert(t.drop_last() =~= cv.take(i as int));
            assert(t.last() == cv[i as int]);
            assert(entry_snbt(cv[i as int]) == string_snbt(e.0@) + seq![letter(':')] + payload_snbt(
                e.1.payload@,
            ));
            assert(w@ =~= base + seq![letter('{')] + entries_snbt(t));
        }
        i = i + 1;
    }
    w.push(SnbtSym::Letter('}'));
    assert(cv.take(n as int) =~= cv);
    assert(w@ =~= base + compound_snbt(cv));
}

impl Snbt for Payload {
    open spec fn snbt(&self) -> Seq<SnbtSym> {
        payload_snbt(self@)
    }

    fn to_snbt(&self, w: &mut Vec<SnbtSym>) {
        write_payload(w, self);
    }
}

impl Snbt for Compound {
    open spec fn snbt(&self) -> Seq<SnbtSym> {
        compound_snbt(self@)
    }

    fn to_snbt(&self, w: &mut Vec<SnbtSym>) {
        write_compound(w, self);
    }
}

impl Snbt for TagData {
    open spec fn snbt(&self) -> Seq<SnbtSym> {
        payload_snbt(self@.payload)
    }

    fn to_snbt(&self, w: &mut Vec<SnbtSym>) {
        write_payload(w, self.payload());
    }
}

impl TagData {
    /// Displays the tag as SNBT (its payload's text).
    pub fn fmt(&self, w: &mut Vec<SnbtSym>)
        ensures
            final(w)@ == old(w)@ + payload_snbt(self@.payload),
    {
        self.to_snbt(w)
    }
}

impl RootTag {
    /// Displays the root tag as SNBT: the payload's text, preceded by the
    /// quoted name and `: ` when the name is not empty.
    pub fn fmt(&self, w: &mut Vec<SnbtSym>)
        ensures
            final(w)@ == old(w)@ + root_snbt(self@),
    {
        let name = self.name();
        if name.is_empty() {
            self.data().to_snbt(w);
        } else {
            let ghost base = w@;
            write_string(w, name);
            push_str(w, ": ");
            self.data().to_snbt(w);
            proof {
                reveal_strlit(": ");
                assert(w@ =~= base + root_snbt(self@));
            }
        }
    }
}


/// Parts separated by commas: none gives nothing, one gives itself, and each
/// further part comes after a comma.
pub proof fn law_join(s: Seq<Seq<SnbtSym>>, x: Seq<SnbtSym>)
    ensures
        join(Seq::empty()) == Seq::<SnbtSym>::empty(),
        join(seq![x]) == x,
        s.len() > 0 ==> join(s.push(x)) == join(s) + syms(seq![',']) + x,
{
    assert(seq![x].len() == 1);
    assert(syms(seq![',']) =~= seq![letter(',')]);
    if s.len() > 0 {
        assert(s.push(x).drop_last() =~= s);
    }
}

/// Numbers are written as their decimal text and the suffix of their type
/// (`b`, `s`, none, `L`), as the values themselves are; floats and doubles
/// as their value and `f` or `d`; strings quoted and escaped.
pub proof fn law_scalar_snbt(b: i8, s: i16, i: i32, l: i64, f: u32, x: u64, t: Seq<char>)
    ensures
        payload_snbt(PayloadV::Byte(b)) == syms(int_text(b as int) + seq!['b']),
        payload_snbt(PayloadV::Byte(b)) == b.snbt(),
        payload_snbt(PayloadV::Short(s)) == syms(int_text(s as int) + seq!['s']),
        payload_snbt(PayloadV::Short(s)) == s.snbt(),
        payload_snbt(PayloadV::Int(i)) == syms(int_text(i as int)),
        payload_snbt(PayloadV::Int(i)) == i.snbt(),
        payload_snbt(PayloadV::Long(l)) == syms(int_text(l as int) + seq!['L']),
        payload_snbt(PayloadV::Long(l)) == l.snbt(),
        payload_snbt(PayloadV::Float(f)) == seq![SnbtSym::Float(f), SnbtSym::Letter('f')],
        payload_snbt(PayloadV::Double(x)) == seq![SnbtSym::Double(x), SnbtSym::Letter('d')],
        payload_snbt(PayloadV::String(t)) == syms(
            seq![quote_of(t)] + escaped(t, quote_of(t)) + seq![quote_of(t)],
        ),
{
    assert(int_text(i as int) + Seq::<char>::empty() =~= int_text(i as int));
}

proof fn lemma_syms_one(c: char)
    ensures
        syms(seq![c]) == seq![letter(c)],
{
    assert(syms(seq![c]) =~= seq![letter(c)]);
}

proof fn lemma_array_parts(prefix: Seq<char>, items: Seq<Seq<SnbtSym>>)
    ensures
        array(prefix, items) == syms(seq!['[']) + syms(prefix) + join(items) + syms(seq![']']),
{
    lemma_syms_one('[');
    lemma_syms_one(']');
}

/// Arrays are written `[B;`, `[I;` or `[L;`, then their items as numbers of
/// the item type, separated by commas, then `]`.
pub proof fn law_array_snbt(a: Seq<i8>, b: Seq<i32>, c: Seq<i64>)
    ensures
        payload_snbt(PayloadV::ByteArray(a)) == syms(seq!['[', 'B', ';']) + join(
            Seq::new(a.len(), |k: int| syms(int_text(a[k] as int) + seq!['b'])),
        ) + syms(seq![']']),
        payload_snbt(PayloadV::IntArray(b)) == syms(seq!['[', 'I', ';']) + join(
            Seq::new(b.len(), |k: int| syms(int_text(b[k] as int))),
        ) + syms(seq![']']),
        payload_snbt(PayloadV::LongArray(c)) == syms(seq!['[', 'L', ';']) + join(
            Seq::new(c.len(), |k: int| syms(int_text(c[k] as int) + seq!['L'])),
        ) + syms(seq![']']),
{
    lemma_array_parts(seq!['B', ';'], a.map_values(|v: i8| byte_snbt(v)));
    lemma_array_parts(seq!['I', ';'], b.map_values(|v: i32| int_snbt(v)));
    lemma_array_parts(seq!['L', ';'], c.map_values(|v: i64| long_snbt(v)));
    lemma_text_add(seq!['['], seq!['B', ';']);
    lemma_text_add(seq!['['], seq!['I', ';']);
    lemma_text_add(seq!['['], seq!['L', ';']);
    assert(seq!['['] + seq!['B', ';'] =~= seq!['[', 'B', ';']);
    assert(seq!['['] + seq!['I', ';'] =~= seq!['[', 'I', ';']);
    assert(seq!['['] + seq!['L', ';'] =~= seq!['[', 'L', ';']);
    assert(a.map_values(|v: i8| byte_snbt(v)) =~= Seq::new(
        a.len(),
        |k: int| syms(int_text(a[k] as int) + seq!['b']),
    ));
    assert forall|k: int| 0 <= k < b.len() implies syms(int_text(b[k] as int)) == int_snbt(b[k]) by {
        assert(int_text(b[k] as int) + Seq::<char>::empty() =~= int_text(b[k] as int));
    }
    assert(b.map_values(|v: i32| int_snbt(v)) =~= Seq::new(
        b.len(),
        |k: int| syms(int_text(b[k] as int)),
    ));
    assert(c.map_values(|v: i64| long_snbt(v)) =~= Seq::new(
        c.len(),
        |k: int| syms(int_text(c[k] as int) + seq!['L']),
    ));
}

proof fn lemma_list_parts(a: Seq<PayloadV>)
    ensures
        list_parts(a) == Seq::new(a.len(), |k: int| payload_snbt(a[k])),
    decreases a.len(),
{
    if a.len() > 0 {
        lemma_list_parts(a.drop_last());
        assert(list_parts(a) =~= Seq::new(a.len(), |k: int| payload_snbt(a[k])));
    } else {
        assert(list_parts(a) =~= Seq::new(a.len(), |k: int| payload_snbt(a[k])));
    }
}

proof fn lemma_compound_parts(a: Seq<Seq<(Seq<char>, TagV)>>)
    ensures
        compound_parts(a) == Seq::new(a.len(), |k: int| payload_snbt(PayloadV::Compound(a[k]))),
    decreases a.len(),
{
    if a.len() > 0 {
        lemma_compound_parts(a.drop_last());
    }
    assert(compound_parts(a) =~= Seq::new(a.len(), |k: int| payload_snbt(PayloadV::Compound(a[k]))));
}

/// Lists are written `[`, then each item as a value of the item type,
/// separated by commas, then `]`; a list of lists or of compounds writes
/// each item as that payload.
pub proof fn law_list_snbt(
    bl: Seq<i8>,
    sl: Seq<i16>,
    il: Seq<i32>,
    ll: Seq<i64>,
    fl: Seq<u32>,
    dl: Seq<u64>,
    tl: Seq<Seq<char>>,
    nl: Seq<PayloadV>,
    cl: Seq<Seq<(Seq<char>, TagV)>>,
)
    ensures
        payload_snbt(PayloadV::EmptyList) == syms(seq!['[', ']']),
        payload_snbt(PayloadV::ByteList(bl)) == syms(seq!['[']) + join(
            Seq::new(bl.len(), |k: int| payload_snbt(PayloadV::Byte(bl[k]))),
        ) + syms(seq![']']),
        payload_snbt(PayloadV::ShortList(sl)) == syms(seq!['[']) + join(
            Seq::new(sl.len(), |k: int| payload_snbt(PayloadV::Short(sl[k]))),
        ) + syms(seq![']']),
        payload_snbt(PayloadV::IntList(il)) == syms(seq!['[']) + join(
            Seq::new(il.len(), |k: int| payload_snbt(PayloadV::Int(il[k]))),
        ) + syms(seq![']']),
        payload_snbt(PayloadV::LongList(ll)) == syms(seq!['[']) + join(
            Seq::new(ll.len(), |k: int| payload_snbt(PayloadV::Long(ll[k]))),
        ) + syms(seq![']']),
        payload_snbt(PayloadV::FloatList(fl)) == syms(seq!['[']) + join(
            Seq::new(fl.len(), |k: int| payload_snbt(PayloadV::Float(fl[k]))),
        ) + syms(seq![']']),
        payload_snbt(PayloadV::DoubleList(dl)) == syms(seq!['[']) + join(
            Seq::new(dl.len(), |k: int| payload_snbt(PayloadV::Double(dl[k]))),
        ) + syms(seq![']']),
        payload_snbt(PayloadV::StringList(tl)) == syms(seq!['[']) + join(
            Seq::new(tl.len(), |k: int| payload_snbt(PayloadV::String(tl[k]))),
        ) + syms(seq![']']),
        payload_snbt(PayloadV::ListList(nl)) == syms(seq!['[']) + join(
            Seq::new(nl.len(), |k: int| payload_snbt(nl[k])),
        ) + syms(seq![']']),
        payload_snbt(PayloadV::CompoundList(cl)) == syms(seq!['[']) + join(
            Seq::new(cl.len(), |k: int| payload_snbt(PayloadV::Compound(cl[k]))),
        ) + syms(seq![']']),
{
    let e = Seq::<char>::empty();
    assert(syms(e) =~= Seq::<SnbtSym>::empty());
    lemma_array_parts(e, bl.map_values(|v: i8| byte_snbt(v)));
    lemma_array_parts(e, sl.map_values(|v: i16| short_snbt(v)));
    lemma_array_parts(e, il.map_values(|v: i32| int_snbt(v)));
    lemma_array_parts(e, ll.map_values(|v: i64| long_snbt(v)));
    lemma_array_parts(e, fl.map_values(|v: u32| float_snbt(v)));
    lemma_array_parts(e, dl.map_values(|v: u64| double_snbt(v)));
    lemma_array_parts(e, tl.map_values(|s: Seq<char>| string_snbt(s)));
    lemma_array_parts(e, list_parts(nl));
    lemma_array_parts(e, compound_parts(cl));
    lemma_list_parts(nl);
    lemma_compound_parts(cl);
    assert(bl.map_values(|v: i8| byte_snbt(v)) =~= Seq::new(bl.len(), |k: int| payload_snbt(PayloadV::Byte(bl[k]))));
    assert(sl.map_values(|v: i16| short_snbt(v)) =~= Seq::new(sl.len(), |k: int| payload_snbt(PayloadV::Short(sl[k]))));
    assert(il.map_values(|v: i32| int_snbt(v)) =~= Seq::new(il.len(), |k: int| payload_snbt(PayloadV::Int(il[k]))));
    assert(ll.map_values(|v: i64| long_snbt(v)) =~= Seq::new(ll.len(), |k: int| payload_snbt(PayloadV::Long(ll[k]))));
    assert(fl.map_values(|v: u32| float_snbt(v)) =~= Seq::new(fl.len(), |k: int| payload_snbt(PayloadV::Float(fl[k]))));
    assert(dl.map_values(|v: u64| double_snbt(v)) =~= Seq::new(dl.len(), |k: int| payload_snbt(PayloadV::Double(dl[k]))));
    assert(tl.map_values(|s: Seq<char>| string_snbt(s)) =~= Seq::new(tl.len(), |k: int| payload_snbt(PayloadV::String(tl[k]))));
}

proof fn lemma_entries_join(c: Seq<(Seq<char>, TagV)>)
    ensures
        entries_snbt(c) == join(
            Seq::new(
                c.len(),
                |k: int| string_snbt(c[k].0) + syms(seq![':']) + payload_snbt(c[k].1.payload),
            ),
        ),
    decreases c.len(),
{
    let parts = Seq::new(
        c.len(),
        |k: int| string_snbt(c[k].0) + syms(seq![':']) + payload_snbt(c[k].1.payload),
    );
    lemma_syms_one(':');
    lemma_syms_one(',');
    if c.len() == 0 {
        assert(parts =~= Seq::<Seq<SnbtSym>>::empty());
    } else if c.len() == 1 {
        assert(c.last() == c[0]);
        assert(parts[0] == entry_snbt(c[0]));
        assert(join(parts) == parts[0]);
    } else {
        let c1 = c.drop_last();
        lemma_entries_join(c1);
        let parts1 = Seq::new(
            c1.len(),
            |k: int| string_snbt(c1[k].0) + syms(seq![':']) + payload_snbt(c1[k].1.payload),
        );
        assert(parts1 =~= parts.drop_last());
        assert(parts.drop_last().len() > 0);
        assert(parts.last() == entry_snbt(c.last()));
        assert(join(parts) == join(parts.drop_last()) + seq![letter(',')] + parts.last());
        assert(entries_snbt(c) == entries_snbt(c1) + seq![letter(',')] + entry_snbt(c.last()));
    }
}

/// A compound is written `{`, then each entry as its quoted name, `:` and
/// its payload, separated by commas, then `}`.
pub proof fn law_compound_snbt(c: Seq<(Seq<char>, TagV)>)
    ensures
        payload_snbt(PayloadV::Compound(c)) == syms(seq!['{']) + join(
            Seq::new(
                c.len(),
                |k: int| string_snbt(c[k].0) + syms(seq![':']) + payload_snbt(c[k].1.payload),
            ),
        ) + syms(seq!['}']),
{
    lemma_entries_join(c);
    lemma_syms_one('{');
    lemma_syms_one('}');
}


/// A document is written as its value, preceded by its quoted, escaped name
/// and `: ` when the name is not empty.
pub proof fn law_root_snbt(r: RootV)
    ensures
        root_snbt(r) == if r.name.len() == 0 {
            payload_snbt(r.data.payload)
        } else {
            syms(seq![quote_of(r.name)] + escaped(r.name, quote_of(r.name)) + seq![quote_of(r.name)])
                + syms(seq![':', ' ']) + payload_snbt(r.data.payload)
        },
{
}

} // verus!
