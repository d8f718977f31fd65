use std::io::{Read, Write};

use mc_nbt_viewer::bytes::{i16_at, i32_at, i64_at, i8_at, u16_at, u32_at, u64_at};
use mc_nbt_viewer::gzip::decompress_file;
use mc_nbt_viewer::nbt::{
    key_less, tag_name_str, Compound, Payload, RootTag, TagData, TAG_BYTE, TAG_BYTE_ARRAY,
    TAG_COMPOUND, TAG_DOUBLE, TAG_END, TAG_FLOAT, TAG_INT, TAG_INT_ARRAY, TAG_LIST, TAG_LONG,
    TAG_LONG_ARRAY, TAG_SHORT, TAG_STRING,
};
use mc_nbt_viewer::parse::{read_payload, read_string, NbtError};
use mc_nbt_viewer::{load_nbt_file, parse_nbt_file, LoadError};

fn name_bytes(n: &str) -> Vec<u8> {
    let mut v = (n.len() as u16).to_be_bytes().to_vec();
    v.extend_from_slice(n.as_bytes());
    v
}

fn tag(t: u8, n: &str, payload: &[u8]) -> Vec<u8> {
    let mut v = vec![t];
    v.extend(name_bytes(n));
    v.extend_from_slice(payload);
    v
}

fn compound_body(entries: &[Vec<u8>]) -> Vec<u8> {
    let mut p = Vec::new();
    for e in entries {
        p.extend_from_slice(e);
    }
    p.push(TAG_END);
    p
}

fn root(entries: &[Vec<u8>]) -> Vec<u8> {
    tag(TAG_COMPOUND, "root", &compound_body(entries))
}

fn gzip(data: &[u8]) -> Vec<u8> {
    let mut e = flate2::write::GzEncoder::new(Vec::new(), flate2::Compression::default());
    e.write_all(data).unwrap();
    e.finish().unwrap()
}

fn compound_of(r: &RootTag) -> &Compound {
    match r.payload() {
        Payload::Compound(c) => c,
        _ => panic!("not a compound"),
    }
}

#[test]
fn numbers_are_big_endian() {
    let data = root(&[
        tag(TAG_BYTE, "b", &[0xff]),
        tag(TAG_SHORT, "s", &[0xff, 0xfe]),
        tag(TAG_INT, "i", &[0x01, 0x02, 0x03, 0x04]),
        tag(TAG_LONG, "l", &[0xff; 8]),
        tag(TAG_FLOAT, "f", &1.5f32.to_be_bytes()),
        tag(TAG_DOUBLE, "d", &(-0.25f64).to_be_bytes()),
    ]);
    let r = parse_nbt_file(&data, "numbers.nbt").unwrap();
    let c = compound_of(&r);
    assert_eq!(c.len(), 6);
    assert!(matches!(c.get("b").unwrap().payload(), Payload::Byte(-1)));
    assert!(matches!(c.get("s").unwrap().payload(), Payload::Short(-2)));
    assert!(matches!(c.get("i").unwrap().payload(), Payload::Int(0x01020304)));
    assert!(matches!(c.get("l").unwrap().payload(), Payload::Long(-1)));
    match c.get("f").unwrap().payload() {
        Payload::Float(b) => assert_eq!(f32::from_bits(*b), 1.5),
        _ => panic!("not a float"),
    }
    match c.get("d").unwrap().payload() {
        Payload::Double(b) => assert_eq!(f64::from_bits(*b), -0.25),
        _ => panic!("not a double"),
    }
    assert_eq!(c.get("f").unwrap().tag(), TAG_FLOAT);
    assert!(c.get("x").is_none());
}

#[test]
fn arrays_and_lists_are_read() {
    let mut long_list = vec![TAG_LONG];
    long_list.extend(2u32.to_be_bytes());
    long_list.extend(5i64.to_be_bytes());
    long_list.extend((-5i64).to_be_bytes());
    let mut string_list = vec![TAG_STRING, 0, 0, 0, 2];
    string_list.extend(name_bytes("ab"));
    string_list.extend(name_bytes(""));
    // A list of two lists: an empty one (item type End, length 0) and one of a byte.
    let list_list = vec![TAG_LIST, 0, 0, 0, 2, TAG_END, 0, 0, 0, 0, TAG_BYTE, 0, 0, 0, 1, 7];
    let mut compound_list = vec![TAG_COMPOUND, 0, 0, 0, 1];
    compound_list.extend(compound_body(&[tag(TAG_BYTE, "x", &[3])]));
    let data = root(&[
        tag(TAG_BYTE_ARRAY, "ba", &[0, 0, 0, 2, 1, 0xff]),
        tag(TAG_INT_ARRAY, "ia", &[0, 0, 0, 1, 0, 0, 1, 0]),
        tag(TAG_LONG_ARRAY, "la", &[0, 0, 0, 0]),
        tag(TAG_LIST, "bl", &[TAG_BYTE, 0, 0, 0, 1, 9]),
        tag(TAG_LIST, "ll", &long_list),
        tag(TAG_LIST, "sl", &string_list),
        tag(TAG_LIST, "nl", &list_list),
        tag(TAG_LIST, "cl", &compound_list),
        tag(TAG_LIST, "el", &[TAG_END, 0, 0, 0, 0]),
    ]);
    let r = parse_nbt_file(&data, "lists.nbt").unwrap();
    let c = compound_of(&r);
    match c.get("ba").unwrap().payload() {
        Payload::ByteArray(v) => assert_eq!(v, &vec![1i8, -1]),
        _ => panic!("ba"),
    }
    assert_eq!(c.get("ba").unwrap().tag_name(), "Byte Array");
    match c.get("ia").unwrap().payload() {
        Payload::IntArray(v) => assert_eq!(v, &vec![256]),
        _ => panic!("ia"),
    }
    match c.get("la").unwrap().payload() {
        Payload::LongArray(v) => assert!(v.is_empty()),
        _ => panic!("la"),
    }
    match c.get("bl").unwrap().payload() {
        Payload::ByteList(v) => assert_eq!(v, &vec![9i8]),
        _ => panic!("bl"),
    }
    assert_eq!(c.get("bl").unwrap().tag_name(), "List");
    match c.get("ll").unwrap().payload() {
        Payload::LongList(v) => assert_eq!(v, &vec![5i64, -5]),
        _ => panic!("ll"),
    }
    match c.get("sl").unwrap().payload() {
        Payload::StringList(v) => assert_eq!(v, &vec![String::from("ab"), String::new()]),
        _ => panic!("sl"),
    }
    match c.get("nl").unwrap().payload() {
        Payload::ListList(v) => {
            assert_eq!(v.len(), 2);
            assert!(matches!(v[0], Payload::EmptyList));
            match &v[1] {
                Payload::ByteList(b) => assert_eq!(b, &vec![7i8]),
                _ => panic!("inner"),
            }
        }
        _ => panic!("nl"),
    }
    match c.get("cl").unwrap().payload() {
        Payload::CompoundList(v) => {
            assert_eq!(v.len(), 1);
            assert!(matches!(v[0].get("x").unwrap().payload(), Payload::Byte(3)));
        }
        _ => panic!("cl"),
    }
    assert!(matches!(c.get("el").unwrap().payload(), Payload::EmptyList));
}

#[test]
fn each_error_has_its_input() {
    assert!(matches!(parse_nbt_file(&[], "e"), Err(NbtError::UnexpectedEof)));
    assert!(matches!(parse_nbt_file(&[TAG_BYTE, 0, 1, b'a'], "e"), Err(NbtError::UnexpectedEof)));
    assert!(matches!(parse_nbt_file(&[TAG_END], "e"), Err(NbtError::EndTagAtRoot)));
    assert!(matches!(parse_nbt_file(&[13, 0, 0], "e"), Err(NbtError::InvalidTagType(13))));
    assert!(matches!(
        parse_nbt_file(&[TAG_LIST, 0, 0, 0x2a], "e"),
        Err(NbtError::InvalidListTagType(0x2a))
    ));
    // A compound that never ends.
    assert!(matches!(
        parse_nbt_file(&tag(TAG_COMPOUND, "c", &tag(TAG_BYTE, "x", &[1])), "e"),
        Err(NbtError::UnexpectedEof)
    ));
    // A list that claims more items than there are bytes.
    assert!(matches!(
        parse_nbt_file(&tag(TAG_LIST, "l", &[TAG_INT, 0xff, 0xff, 0xff, 0xff, 0, 0, 0, 1]), "e"),
        Err(NbtError::UnexpectedEof)
    ));
}

#[test]
fn bytes_after_the_root_are_ignored() {
    let data = tag(TAG_SHORT, "s", &[0x12, 0x34]);
    let mut longer = data.clone();
    longer.extend_from_slice(&[0xde, 0xad, 0xbe, 0xef]);
    let a = parse_nbt_file(&data, "a").unwrap();
    let b = parse_nbt_file(&longer, "b").unwrap();
    assert_eq!(a.name(), b.name());
    assert!(matches!(a.payload(), Payload::Short(0x1234)));
    assert!(matches!(b.payload(), Payload::Short(0x1234)));
}

#[test]
fn a_repeated_name_keeps_its_last_value() {
    let data = root(&[
        tag(TAG_BYTE, "k", &[1]),
        tag(TAG_BYTE, "a", &[5]),
        tag(TAG_STRING, "k", &name_bytes("last")),
    ]);
    let r = parse_nbt_file(&data, "dup").unwrap();
    let c = compound_of(&r);
    assert_eq!(c.len(), 2);
    match c.get("k").unwrap().payload() {
        Payload::String(s) => assert_eq!(s, "last"),
        _ => panic!("k"),
    }
    assert_eq!(c.get("k").unwrap().tag(), TAG_STRING);
}

#[test]
fn compound_keeps_names_in_order() {
    let mut c = Compound::new();
    assert!(c.is_empty());
    c.insert(String::from("b"), TagData::from((TAG_BYTE, Payload::Byte(1))));
    c.insert(String::from("B"), TagData::from((TAG_BYTE, Payload::Byte(2))));
    c.insert(String::from("a"), TagData::from((TAG_BYTE, Payload::Byte(3))));
    c.insert(String::from("b"), TagData::from((TAG_INT, Payload::Int(4))));
    assert_eq!(c.len(), 3);
    assert!(!c.is_empty());
    assert!(c.ordered_by_key());
    let names: Vec<&str> = (0..c.len()).map(|i| c.entry(i).0.as_str()).collect();
    assert_eq!(names, vec!["B", "a", "b"]);
    assert!(matches!(c.get("b").unwrap().payload(), Payload::Int(4)));
    assert!(matches!(c.get("B").unwrap().payload(), Payload::Byte(2)));
    assert!(key_less("B", "a"));
    assert!(key_less("a", "ab"));
    assert!(!key_less("ab", "ab"));
    assert!(!key_less("b", "a"));
}

#[test]
fn tag_names() {
    let names = [
        (TAG_END, "End"),
        (TAG_BYTE, "Byte"),
        (TAG_SHORT, "Short"),
        (TAG_INT, "Int"),
        (TAG_LONG, "Long"),
        (TAG_FLOAT, "Float"),
        (TAG_DOUBLE, "Double"),
        (TAG_BYTE_ARRAY, "Byte Array"),
        (TAG_STRING, "String"),
        (TAG_LIST, "List"),
        (TAG_COMPOUND, "Compound"),
        (TAG_INT_ARRAY, "Int Array"),
        (TAG_LONG_ARRAY, "Long Array"),
        (13, "Unknown"),
        (255, "Unknown"),
    ];
    for (t, n) in names {
        assert_eq!(tag_name_str(t), n);
        assert_eq!(TagData::from((t, Payload::Byte(0))).tag_name(), n);
    }
}

#[test]
fn strings_are_decoded_lossily() {
    let data = [0, 3, b'a', 0xff, b'b', 9];
    let (s, next) = read_string(&data, 0).unwrap();
    assert_eq!(s, "a\u{fffd}b");
    assert_eq!(next, 5);
    let (e, next) = read_string(&[0, 0], 0).unwrap();
    assert_eq!(e, "");
    assert_eq!(next, 2);
    assert!(matches!(read_string(&[0, 5, b'a'], 0), Err(NbtError::UnexpectedEof)));
}

#[test]
fn reading_big_endian_at_a_position() {
    let d = [0x80, 0x01, 0x02, 0x03, 0x04, 0x05, 0x06, 0x07, 0x08];
    assert_eq!(u16_at(&d, 1), 0x0102);
    assert_eq!(u32_at(&d, 1), 0x01020304);
    assert_eq!(u64_at(&d, 1), 0x0102030405060708);
    assert_eq!(i16_at(&d, 0), -32767);
    assert_eq!(i32_at(&d, 0), i32::from_be_bytes([0x80, 1, 2, 3]));
    assert_eq!(i64_at(&d, 0), i64::from_be_bytes([0x80, 1, 2, 3, 4, 5, 6, 7]));
    assert_eq!(i8_at(&d, 0), -128);
}

#[test]
fn gzip_files_are_unpacked() {
    let data = root(&[tag(TAG_INT, "v", &[0, 0, 0, 42])]);
    let packed = gzip(&data);
    let inflated = decompress_file(packed.clone()).ok().unwrap();
    assert_eq!(inflated.bytes, data);
    assert!(inflated.failure.is_none());
    let r = load_nbt_file(packed, "level.dat").unwrap();
    assert!(matches!(compound_of(&r).get("v").unwrap().payload(), Payload::Int(42)));
    // Data without a gzip header is handed back and parsed as it is.
    assert_eq!(decompress_file(data.clone()).err().unwrap(), data);
    let r = load_nbt_file(data, "raw.nbt").unwrap();
    assert_eq!(r.name(), "root");
}

#[test]
fn a_cut_gzip_stream_is_a_gzip_error() {
    let data = root(&[tag(TAG_LONG_ARRAY, "v", &[0, 0, 0, 64]), vec![0u8; 512]]);
    let packed = gzip(&data);
    let cut = packed[..packed.len() / 2].to_vec();
    let inflated = decompress_file(cut.clone()).ok().unwrap();
    // The error is the one the decoder itself reports for the broken stream.
    let mut out = Vec::new();
    let expected = flate2::bufread::GzDecoder::new(&cut[..]).read_to_end(&mut out).unwrap_err().to_string();
    assert_eq!(inflated.failure.as_deref(), Some(expected.as_str()));
    assert_eq!(inflated.bytes, out);
    match load_nbt_file(cut, "cut.dat") {
        Err(e) => {
            assert_eq!(e, LoadError::Gzip(expected.clone()));
            assert_eq!(e.message(), expected);
        }
        Ok(_) => panic!("a cut stream loaded"),
    }
    // Complete gzip data whose NBT is cut short is an NBT error.
    let short = gzip(&data[..10]);
    assert!(matches!(load_nbt_file(short, "short.dat"), Err(LoadError::Nbt(NbtError::UnexpectedEof))));
}

#[test]
fn error_messages() {
    assert_eq!(NbtError::UnexpectedEof.message(), "failed to fill whole buffer");
    assert_eq!(NbtError::EndTagAtRoot.message(), "Invalid tag type TAG_END found");
    assert_eq!(NbtError::InvalidTagType(13).message(), "Invalid tag type 0xD found");
    assert_eq!(NbtError::InvalidTagType(0x2a).message(), "Invalid tag type 0x2A found");
    assert_eq!(NbtError::InvalidListTagType(255).message(), "Invalid list tag type 0xFF found");
    assert_eq!(NbtError::InvalidListTagType(16).message(), "Invalid list tag type 0x10 found");
    assert_eq!(LoadError::Nbt(NbtError::EndTagAtRoot).message(), "Invalid tag type TAG_END found");
    assert_eq!(LoadError::Gzip(String::from("corrupt deflate stream")).message(), "corrupt deflate stream");
}

#[test]
fn an_empty_list_keeps_its_length() {
    let data = [TAG_END, 0, 0, 0, 0, 0xab];
    let (p, next) = read_payload(&data, 0, TAG_LIST).unwrap();
    assert!(matches!(p, Payload::EmptyList));
    assert_eq!(next, 5);
    assert!(matches!(read_payload(&[TAG_END, 0, 0], 0, TAG_LIST), Err(NbtError::UnexpectedEof)));
}
