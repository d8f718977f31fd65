use mc_nbt_viewer::nbt::Payload;
use mc_nbt_viewer::parse::NbtError;
use mc_nbt_viewer::tree::NbtLeafData;
use mc_nbt_viewer::viewer::Viewer;
use mc_nbt_viewer::LoadError;

#[test]
fn a_new_viewer_is_empty() {
    let mut v = Viewer::new();
    assert!(v.root_tag().is_none());
    assert!(v.tree_mut().is_none());
    assert!(v.error().is_none());
    assert!(!v.error_popup());
}

#[test]
fn loading_a_document_shows_it() {
    let mut v = Viewer::new();
    v.load(vec![0x03, 0x00, 0x01, b'n', 0x00, 0x00, 0x00, 0x05], "n.nbt");
    assert!(matches!(v.root_tag().unwrap().payload(), Payload::Int(5)));
    let tree = v.tree_mut().unwrap();
    assert_eq!(tree.leaf().name(), "n");
    assert!(matches!(tree.leaf().data(), NbtLeafData::Int(5)));
    assert!(tree.enabled());
    tree.set_enabled(false);
    assert!(!v.tree_mut().unwrap().enabled());
    assert!(v.error().is_none());
}

#[test]
fn a_failed_load_keeps_the_document_and_opens_the_error() {
    let mut v = Viewer::new();
    v.load(vec![0x01, 0x00, 0x00, 0x07], "b.nbt");
    v.load(vec![0x00], "bad.nbt");
    assert_eq!(v.error(), Some(&LoadError::Nbt(NbtError::EndTagAtRoot)));
    assert!(v.error_popup());
    assert!(matches!(v.root_tag().unwrap().payload(), Payload::Byte(7)));
    v.settle_popup();
    assert!(v.error_popup());
    v.set_error_popup(false);
    assert!(!v.error_popup());
    v.load(vec![0x01, 0x00, 0x00, 0x08], "c.nbt");
    assert!(matches!(v.root_tag().unwrap().payload(), Payload::Byte(8)));
    assert_eq!(v.error(), Some(&LoadError::Nbt(NbtError::EndTagAtRoot)));
}

#[test]
fn the_error_window_closes_without_an_error() {
    let mut v = Viewer::new();
    v.set_error_popup(true);
    v.settle_popup();
    assert!(!v.error_popup());
}
