use mc_nbt_viewer::nbt::{Compound, Payload, RootTag, TagData, TAG_BYTE, TAG_STRING};
use mc_nbt_viewer::snbt::{write_array_with_prefix, Snbt, SnbtSym};

fn render(syms: &[SnbtSym]) -> String {
    let mut out = String::new();
    for s in syms {
        match s {
            SnbtSym::Letter(c) => out.push(*c),
            SnbtSym::Float(b) => out.push_str(&f32::from_bits(*b).to_string()),
            SnbtSym::Double(b) => out.push_str(&f64::from_bits(*b).to_string()),
        }
    }
    out
}

fn snbt<T: Snbt>(v: &T) -> String {
    let mut w = Vec::new();
    v.to_snbt(&mut w);
    render(&w)
}

#[test]
fn numbers_have_their_suffixes() {
    assert_eq!(snbt(&-128i8), "-128b");
    assert_eq!(snbt(&300i16), "300s");
    assert_eq!(snbt(&-2147483648i32), "-2147483648");
    assert_eq!(snbt(&i64::MIN), "-9223372036854775808L");
    assert_eq!(snbt(&255u8), "255ub");
    assert_eq!(snbt(&65535u16), "65535us");
    assert_eq!(snbt(&7u32), "7ui");
    assert_eq!(snbt(&u64::MAX), "18446744073709551615ul");
    assert_eq!(snbt(&true), "true");
    assert_eq!(snbt(&false), "false");
    assert_eq!(snbt(&0i32), "0");
}

#[test]
fn strings_are_quoted_and_escaped() {
    assert_eq!(snbt(&"abc"), "\"abc\"");
    assert_eq!(snbt(&"it's"), "\"it's\"");
    assert_eq!(snbt(&"say \"hi\""), "'say \"hi\"'");
    assert_eq!(snbt(&"a\"b'c"), "'a\"b\\'c'");
    assert_eq!(snbt(&"tab\there\nnew\\"), "\"tab\\there\\nnew\\\\\"");
    assert_eq!(snbt(&String::from("")), "\"\"");
}

#[test]
fn arrays_and_lists() {
    let v: Vec<i8> = vec![1, -2, 3];
    assert_eq!(snbt(&v), "[1b,-2b,3b]");
    let e: Vec<i32> = vec![];
    assert_eq!(snbt(&e), "[]");
    let mut w = Vec::new();
    write_array_with_prefix(&mut w, &[5i32, 6][..], "I;");
    assert_eq!(render(&w), "[I;5,6]");
    assert_eq!(snbt(&Payload::ByteArray(vec![1, 2])), "[B;1b,2b]");
    assert_eq!(snbt(&Payload::LongArray(vec![1])), "[L;1L]");
    assert_eq!(snbt(&Payload::EmptyList), "[]");
    assert_eq!(snbt(&Payload::FloatList(vec![1.5f32.to_bits(), 2.0f32.to_bits()])), "[1.5f,2f]");
    assert_eq!(snbt(&Payload::Double(0.25f64.to_bits())), "0.25d");
    assert_eq!(
        snbt(&Payload::ByteArrayList(vec![vec![1], vec![]])),
        "[[B;1b],[B;]]"
    );
    assert_eq!(
        snbt(&Payload::ListList(vec![Payload::EmptyList, Payload::IntList(vec![1, 2])])),
        "[[],[1,2]]"
    );
    assert_eq!(
        snbt(&Payload::StringList(vec![String::from("a"), String::from("b")])),
        "[\"a\",\"b\"]"
    );
}

#[test]
fn compounds_list_entries_in_name_order() {
    let mut c = Compound::new();
    c.insert(String::from("b"), TagData::from((TAG_BYTE, Payload::Byte(2))));
    c.insert(String::from("a"), TagData::from((TAG_STRING, Payload::String(String::from("x")))));
    assert_eq!(snbt(&c), "{\"a\":\"x\",\"b\":2b}");
    assert_eq!(snbt(&Payload::CompoundList(vec![Compound::new()])), "[{}]");
}

#[test]
fn root_tag_display() {
    let data: Vec<u8> = vec![0x01, 0x00, 0x02, b'h', b'i', 0x05];
    let root = RootTag::from_raw(&data).unwrap();
    let mut w = Vec::new();
    root.fmt(&mut w);
    assert_eq!(render(&w), "\"hi\": 5b");
    let unnamed: Vec<u8> = vec![0x01, 0x00, 0x00, 0x07];
    let root = RootTag::from_raw(&unnamed).unwrap();
    let mut w = Vec::new();
    root.fmt(&mut w);
    assert_eq!(render(&w), "7b");
}

/// Reads back the body of a quoted string, as an SNBT reader does.
fn read_quoted(body: &str, q: char) -> Option<(String, usize)> {
    let cs: Vec<char> = body.chars().collect();
    let mut out = String::new();
    let mut i = 0;
    while i < cs.len() {
        let c = cs[i];
        if c == q {
            return Some((out, i + 1));
        } else if c == '\\' {
            let e = *cs.get(i + 1)?;
            out.push(match e {
                'b' => '\x08',
                'f' => '\x0C',
                'n' => '\n',
                'r' => '\r',
                't' => '\t',
                other => other,
            });
            i += 2;
        } else {
            out.push(c);
            i += 1;
        }
    }
    None
}

#[test]
fn written_strings_read_back() {
    for s in ["", "plain", "it's", "say \"hi\"", "a\"b'c", "\\\n\t\r\x08\x0C", "ünï\"cödé'"] {
        let written = snbt(&s);
        let q = written.chars().next().unwrap();
        assert!(q == '"' || q == '\'');
        let body: String = written.chars().skip(1).collect();
        let (back, used) = read_quoted(&body, q).unwrap();
        assert_eq!(back, s);
        assert_eq!(used, body.chars().count());
    }
}

#[test]
fn compound_entries_are_separated_by_commas() {
    let mut c = Compound::new();
    c.insert(String::from("x"), TagData::from((TAG_BYTE, Payload::Byte(1))));
    assert_eq!(snbt(&c), "{\"x\":1b}");
    c.insert(String::from("y"), TagData::from((TAG_BYTE, Payload::Byte(2))));
    c.insert(String::from("z"), TagData::from((TAG_STRING, Payload::String(String::from("s")))));
    assert_eq!(snbt(&c), "{\"x\":1b,\"y\":2b,\"z\":\"s\"}");
    assert_eq!(snbt(&Payload::CompoundList(vec![Compound::new(), Compound::new()])), "[{},{}]");
}
