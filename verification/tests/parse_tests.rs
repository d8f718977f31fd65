use mc_nbt_viewer::nbt::{Payload, RootTag, TAG_COMPOUND};
use mc_nbt_viewer::parse::NbtError;
use mc_nbt_viewer::parse_nbt_file;

#[test]
fn reads_hello_world() {
    // The classic "hello world" NBT example: a compound named "hello world"
    // holding one string tag "name" = "Bananrama".
    let data: Vec<u8> = vec![
        0x0a, 0x00, 0x0b, b'h', b'e', b'l', b'l', b'o', b' ', b'w', b'o', b'r', b'l', b'd', 0x08,
        0x00, 0x04, b'n', b'a', b'm', b'e', 0x00, 0x09, b'B', b'a', b'n', b'a', b'n', b'r', b'a',
        b'm', b'a', 0x00,
    ];
    let root = parse_nbt_file(&data, "hello_world.nbt").unwrap();
    assert_eq!(root.name(), "hello world");
    assert_eq!(root.tag(), TAG_COMPOUND);
    assert_eq!(root.tag_name(), "Compound");
    match root.payload() {
        Payload::Compound(c) => {
            assert_eq!(c.len(), 1);
            let t = c.get("name").unwrap();
            match t.payload() {
                Payload::String(s) => assert_eq!(s, "Bananrama"),
                _ => panic!("not a string"),
            }
        }
        _ => panic!("not a compound"),
    }
}

#[test]
fn end_tag_at_root_is_refused() {
    assert!(matches!(RootTag::from_raw(&[0x00]), Err(NbtError::EndTagAtRoot)));
}
