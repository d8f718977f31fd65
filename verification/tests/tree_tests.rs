use mc_nbt_viewer::nbt::{
    Compound, Payload, RootTag, TagData, TAG_BYTE, TAG_COMPOUND, TAG_INT, TAG_LIST, TAG_STRING,
};
use mc_nbt_viewer::snbt::SnbtSym;
use mc_nbt_viewer::tree::{
    entries_label, item_name_string, move_item, sort_by_lowercase_name, NbtLeaf, NbtLeafData,
    NbtTree,
};

fn names(v: &[NbtLeaf]) -> Vec<&str> {
    v.iter().map(|l| l.name()).collect()
}

fn leaf(name: &str, v: i32) -> NbtLeaf {
    NbtLeaf::new(String::from(name), NbtLeafData::Int(v))
}

fn text(v: &[SnbtSym]) -> String {
    let mut out = String::new();
    for s in v {
        match s {
            SnbtSym::Letter(c) => out.push(*c),
            SnbtSym::Float(b) => out.push_str(&f32::from_bits(*b).to_string()),
            SnbtSym::Double(b) => out.push_str(&f64::from_bits(*b).to_string()),
        }
    }
    out
}

#[test]
fn list_items_are_named_by_index() {
    assert_eq!(item_name_string(0), "Item 0");
    assert_eq!(item_name_string(1234), "Item 1234");
    let items = NbtLeaf::easy_create_list(&[3i16, -4][..]);
    assert_eq!(names(&items), vec!["Item 0", "Item 1"]);
    assert!(matches!(items[1].data(), NbtLeafData::Short(-4)));
    let strings = NbtLeaf::easy_create_list(&[String::from("x")][..]);
    match strings[0].data() {
        NbtLeafData::String(s) => assert_eq!(s, "x"),
        _ => panic!("not a string"),
    }
    let arrays = NbtLeaf::easy_create_list(&[vec![1i64, 2]][..]);
    match arrays[0].data() {
        NbtLeafData::LongArray(a) => {
            assert_eq!(a, &vec![(1i64, String::from("1")), (2, String::from("2"))])
        }
        _ => panic!("not an array"),
    }
}

#[test]
fn sorting_ignores_case_and_is_stable() {
    let v = vec![leaf("b", 1), leaf("A", 2), leaf("a", 3), leaf("B", 4), leaf("c", 5)];
    let s = sort_by_lowercase_name(v);
    assert_eq!(names(&s), vec!["A", "a", "b", "B", "c"]);
    let vals: Vec<i32> = s
        .iter()
        .map(|l| match l.data() {
            NbtLeafData::Int(v) => *v,
            _ => panic!("not an int"),
        })
        .collect();
    assert_eq!(vals, vec![2, 3, 1, 4, 5]);
    assert!(sort_by_lowercase_name(Vec::new()).is_empty());
}

#[test]
fn compound_entries_are_grouped_then_sorted() {
    let mut inner = Compound::new();
    inner.insert(String::from("z"), TagData::from((TAG_BYTE, Payload::Byte(1))));
    let mut c = Compound::new();
    c.insert(String::from("Zeta"), TagData::from((TAG_INT, Payload::Int(1))));
    c.insert(String::from("alpha"), TagData::from((TAG_STRING, Payload::String(String::from("s")))));
    c.insert(String::from("list"), TagData::from((TAG_LIST, Payload::IntList(vec![7, 8]))));
    c.insert(String::from("Empty"), TagData::from((TAG_LIST, Payload::EmptyList)));
    c.insert(String::from("sub"), TagData::from((TAG_COMPOUND, Payload::Compound(inner))));
    c.insert(String::from("Bytes"), TagData::from((TAG_BYTE, Payload::ByteArray(vec![1]))));
    let d = NbtLeafData::from_compound(&c);
    match d {
        NbtLeafData::Compound(leaves) => {
            assert_eq!(names(&leaves), vec!["sub", "Empty", "list", "alpha", "Bytes", "Zeta"]);
            match leaves[2].data() {
                NbtLeafData::List(items) => {
                    assert_eq!(names(items), vec!["Item 0", "Item 1"]);
                    assert!(matches!(items[1].data(), NbtLeafData::Int(8)));
                }
                _ => panic!("not a list"),
            }
            match leaves[0].data() {
                NbtLeafData::Compound(sub) => assert_eq!(names(sub), vec!["z"]),
                _ => panic!("not a compound"),
            }
            assert!(matches!(leaves[1].data(), NbtLeafData::List(v) if v.is_empty()));
        }
        _ => panic!("not a compound"),
    }
}

#[test]
fn nested_lists_become_leaves() {
    let p = Payload::ListList(vec![Payload::ByteList(vec![5]), Payload::EmptyList]);
    match NbtLeafData::from_payload(&p) {
        NbtLeafData::List(items) => {
            assert_eq!(names(&items), vec!["Item 0", "Item 1"]);
            match items[0].data() {
                NbtLeafData::List(inner) => {
                    assert_eq!(names(inner), vec!["Item 0"]);
                    assert!(matches!(inner[0].data(), NbtLeafData::Byte(5)));
                }
                _ => panic!("not a list"),
            }
        }
        _ => panic!("not a list"),
    }
    let cl = Payload::CompoundList(vec![Compound::new()]);
    match NbtLeafData::from_payload(&cl) {
        NbtLeafData::List(items) => {
            assert!(matches!(items[0].data(), NbtLeafData::Compound(v) if v.is_empty()));
        }
        _ => panic!("not a list"),
    }
    assert!(matches!(
        NbtLeafData::from_payload(&Payload::Float(2.5f32.to_bits())),
        NbtLeafData::Float(b) if f32::from_bits(b) == 2.5
    ));
}

#[test]
fn a_document_becomes_a_tree() {
    let data: Vec<u8> = vec![
        TAG_COMPOUND, 0, 3, b'd', b'o', b'c', TAG_BYTE, 0, 1, b'n', 4, 0,
    ];
    let root = RootTag::from_raw(&data).unwrap();
    let top = NbtLeaf::from_root(&root);
    assert_eq!(top.name(), "doc");
    let mut tree = NbtTree::new(top);
    assert!(tree.enabled());
    tree.set_enabled(false);
    assert!(!tree.enabled());
    match tree.leaf().data() {
        NbtLeafData::Compound(v) => {
            assert_eq!(names(v), vec!["n"]);
            assert!(matches!(v[0].data(), NbtLeafData::Byte(4)));
        }
        _ => panic!("not a compound"),
    }
    tree.leaf_mut().set_name(String::from("renamed"));
    assert_eq!(tree.leaf().name(), "renamed");
    tree.set_leaf(leaf("other", 9));
    assert_eq!(tree.leaf().name(), "other");
    assert!(!tree.enabled());
}

#[test]
fn leaves_can_be_changed() {
    let mut l = leaf("x", 1);
    l.set_name(String::from("y"));
    assert_eq!(l.name(), "y");
    l.set_data(NbtLeafData::Long(-3));
    assert!(matches!(l.data(), NbtLeafData::Long(-3)));
    *l.data_mut() = NbtLeafData::Byte(2);
    assert!(matches!(l.data(), NbtLeafData::Byte(2)));
    assert_eq!(l.name(), "y");
}

#[test]
fn edit_fields_start_with_the_value_text() {
    assert_eq!(text(&NbtLeafData::Byte(-128).buffer_text().unwrap()), "-128");
    assert_eq!(text(&NbtLeafData::Short(300).buffer_text().unwrap()), "300");
    assert_eq!(text(&NbtLeafData::Int(0).buffer_text().unwrap()), "0");
    assert_eq!(text(&NbtLeafData::Long(i64::MIN).buffer_text().unwrap()), "-9223372036854775808");
    assert_eq!(text(&NbtLeafData::Float(1.25f32.to_bits()).buffer_text().unwrap()), "1.25");
    assert_eq!(text(&NbtLeafData::Double(3f64.to_bits()).buffer_text().unwrap()), "3");
    assert_eq!(text(&NbtLeafData::String(String::from("q\"")).buffer_text().unwrap()), "q\"");
    assert!(NbtLeafData::ByteArray(vec![(1, String::from("1"))]).buffer_text().is_none());
    assert!(NbtLeafData::List(Vec::new()).buffer_text().is_none());
    assert!(NbtLeafData::Compound(Vec::new()).buffer_text().is_none());
}

#[test]
fn entry_counts() {
    assert_eq!(entries_label(0), "0 entries");
    assert_eq!(entries_label(1), "1 entry");
    assert_eq!(entries_label(2), "2 entries");
    assert_eq!(entries_label(105), "105 entries");
}

#[test]
fn array_items_keep_their_text() {
    match NbtLeafData::from_payload(&Payload::ByteArray(vec![1, -2])) {
        NbtLeafData::ByteArray(v) => {
            assert_eq!(v, vec![(1i8, String::from("1")), (-2, String::from("-2"))])
        }
        _ => panic!("not a byte array"),
    }
    match NbtLeafData::from_payload(&Payload::IntArray(vec![i32::MIN])) {
        NbtLeafData::IntArray(v) => assert_eq!(v, vec![(i32::MIN, String::from("-2147483648"))]),
        _ => panic!("not an int array"),
    }
    assert!(matches!(NbtLeafData::from_payload(&Payload::Int(7)), NbtLeafData::Int(7)));
    assert!(matches!(NbtLeafData::from_payload(&Payload::EmptyList), NbtLeafData::List(v) if v.is_empty()));
}

#[test]
fn a_leaf_keeps_its_edit_text() {
    let mut l = leaf("x", 7);
    assert_eq!(text(l.buffer()), "7");
    l.set_buffer("12a");
    assert_eq!(text(l.buffer()), "12a");
    l.set_data(NbtLeafData::Short(-3));
    assert_eq!(text(l.buffer()), "-3");
    // Data without a text of its own leaves the field as it was.
    l.set_data(NbtLeafData::List(Vec::new()));
    assert_eq!(text(l.buffer()), "-3");
    l.set_data(NbtLeafData::Double(0.5f64.to_bits()));
    assert_eq!(text(l.buffer()), "0.5");
    let s = NbtLeaf::new(String::from("s"), NbtLeafData::String(String::from("hi")));
    assert_eq!(text(s.buffer()), "hi");
    let c = NbtLeaf::new(String::from("c"), NbtLeafData::Compound(Vec::new()));
    assert!(c.buffer().is_empty());
}

#[test]
fn leaves_follow_the_name_they_are_shown_under() {
    let mut l = leaf("Item 3", 1);
    assert!(!l.follow_name(""));
    assert_eq!(l.name(), "Item 3");
    assert!(!l.follow_name("Item 3"));
    assert!(l.follow_name("Item 0"));
    assert_eq!(l.name(), "Item 0");
    assert!(matches!(l.data(), NbtLeafData::Int(1)));
}

#[test]
fn dragging_moves_one_item() {
    let mut v = vec![1, 2, 3, 4];
    move_item(&mut v, 1, 1);
    assert_eq!(v, [1, 2, 3, 4]);
    move_item(&mut v, 0, 2);
    assert_eq!(v, [2, 1, 3, 4]);
    move_item(&mut v, 2, 0);
    assert_eq!(v, [3, 2, 1, 4]);
    move_item(&mut v, 0, 4);
    assert_eq!(v, [2, 1, 4, 3]);
    move_item(&mut v, 3, 3);
    assert_eq!(v, [2, 1, 4, 3]);
    move_item(&mut v, 4, 4);
    assert_eq!(v, [2, 1, 4, 3]);
    let mut leaves = vec![leaf("Item 0", 0), leaf("Item 1", 1)];
    move_item(&mut leaves, 1, 0);
    assert_eq!(names(&leaves), vec!["Item 1", "Item 0"]);
}
