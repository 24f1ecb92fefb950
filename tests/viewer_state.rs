use intelhexlib::viewer::{
    parse_hex_str_into_vec, parse_hex_usize_bytes, Address, ByteEdit, HexViewer, JumpTo, Popup,
    PopupType, Search, Selection,
};
use intelhexlib::IntelHex;

#[test]
fn hex_strings_into_bytes() {
    assert_eq!(parse_hex_str_into_vec("DEad00"), Some(vec![0xDE, 0xAD, 0x00]));
    assert_eq!(parse_hex_str_into_vec(""), Some(vec![]));
    assert_eq!(parse_hex_str_into_vec("ABC"), None);
    assert_eq!(parse_hex_str_into_vec("GG"), None);
}

#[test]
fn hex_numbers() {
    assert_eq!(parse_hex_usize_bytes(b"1F"), Some(0x1F));
    assert_eq!(parse_hex_usize_bytes(b"+ff"), Some(0xFF));
    assert_eq!(parse_hex_usize_bytes(b""), None);
    assert_eq!(parse_hex_usize_bytes(b"+"), None);
    assert_eq!(parse_hex_usize_bytes(b"-1"), None);
    assert_eq!(parse_hex_usize_bytes(b"12 "), None);
    assert_eq!(parse_hex_usize_bytes(b"FFFFFFFFFFFFFFFF"), Some(usize::MAX));
    assert_eq!(parse_hex_usize_bytes(b"10000000000000000"), None);
}

#[test]
fn selection_follows_the_pointer() {
    let mut sel = Selection::default();
    assert!(!sel.is_addr_within_range(0));
    sel.update(10);
    sel.update(4);
    assert_eq!(sel.range, Some([10, 4]));
    assert!(sel.is_addr_within_range(4));
    assert!(sel.is_addr_within_range(7));
    assert!(sel.is_addr_within_range(10));
    assert!(!sel.is_addr_within_range(11));
    sel.released = true;
    sel.update(20);
    assert_eq!(sel.range, Some([20, 20]));
    assert!(!sel.released);
    sel.clear();
    assert_eq!(sel.range, None);
}

#[test]
fn address_range_and_new_start() {
    let ih = IntelHex::from_hex_str(":0300300002337A1E\n:00000001FF").unwrap();
    let mut addr = Address::default();
    addr.update_range(&ih);
    assert_eq!((addr.min, addr.max), (0x30, 0x32));
    addr.new_start = String::from("1000");
    addr.set_new_start_addr();
    assert_eq!(addr.min, 0x1000);
    addr.new_start = String::from("zz");
    addr.set_new_start_addr();
    assert_eq!(addr.min, 0x1000);
    addr.clear();
    assert_eq!((addr.min, addr.max, addr.new_start.as_str()), (0, 0, ""));
    addr.update_range(&IntelHex::new());
    assert_eq!((addr.min, addr.max), (0, 0));
}

#[test]
fn typing_two_digits_writes_the_selection() {
    let mut v = HexViewer::new();
    v.ih = IntelHex::from_hex_str(":0300300002337A1E\n:00000001FF").unwrap();
    v.selection.update(0x33);
    v.selection.update(0x31);
    v.selection.released = true;
    v.update_edit_buffer(Some('a'));
    assert!(v.editor.in_progress);
    assert_eq!(v.editor.buffer, vec![b'A']);
    v.update_edit_buffer(Some('x'));
    assert!(v.editor.in_progress);
    v.update_edit_buffer(Some('5'));
    assert!(!v.editor.in_progress);
    assert_eq!(v.ih.get_buffer_slice(&[0x30, 0x31, 0x32]), Some(vec![0x02, 0xA5, 0xA5]));
    assert_eq!(v.ih.get_byte(0x33), None);
    assert_eq!(v.editor.modified, vec![0x31, 0x32]);
}

#[test]
fn unchanged_bytes_are_not_marked_modified() {
    let mut v = HexViewer::new();
    v.ih = IntelHex::from_hex_str(":0300300002337A1E\n:00000001FF").unwrap();
    v.selection.update(0x30);
    v.selection.released = true;
    v.update_edit_buffer(Some('0'));
    v.update_edit_buffer(Some('2'));
    assert_eq!(v.ih.get_byte(0x30), Some(0x02));
    assert!(v.editor.modified.is_empty());
}

#[test]
fn changing_the_selection_cancels_the_edit() {
    let mut v = HexViewer::new();
    v.ih = IntelHex::from_hex_str(":0300300002337A1E\n:00000001FF").unwrap();
    v.selection.update(0x30);
    v.selection.released = true;
    v.update_edit_buffer(Some('F'));
    v.selection.update(0x31);
    v.update_edit_buffer(Some('F'));
    assert!(!v.editor.in_progress);
    assert!(v.editor.buffer.is_empty());
    assert_eq!(v.ih.get_byte(0x30), Some(0x02));
}

#[test]
fn non_hex_keys_do_not_start_an_edit() {
    let mut v = HexViewer::new();
    v.selection.update(1);
    v.selection.released = true;
    v.update_edit_buffer(Some('q'));
    assert!(!v.editor.in_progress);
    v.update_edit_buffer(None);
    assert!(!v.editor.in_progress);
}

#[test]
fn byte_edit_reset() {
    let mut e = ByteEdit::default();
    e.in_progress = true;
    e.addr = Some([1, 2]);
    e.buffer = vec![b'1'];
    e.modified = vec![1];
    assert!(e.is_addr_same(Some([1, 2])));
    assert!(!e.is_addr_same(Some([2, 1])));
    assert!(!e.is_addr_same(None));
    e.clear();
    assert_eq!(e.modified, vec![1]);
    e.reset();
    assert!(!e.in_progress && e.addr.is_none() && e.buffer.is_empty() && e.modified.is_empty());
}

#[test]
fn search_box_redo() {
    let mut s = Search::new();
    s.last_input = String::from("DEAD");
    s.input = String::from("garbage");
    s.results = vec![1, 2];
    s.idx = 1;
    s.redo();
    assert_eq!(s.input, "DEAD");
    assert!(s.last_input.is_empty());
    assert!(s.results.is_empty());
    assert_eq!(s.idx, 0);
    assert!(s.force);
    s.loose_focus();
    assert!(s.loose_focus);
}

#[test]
fn jump_to_reads_hex() {
    let mut j = JumpTo::default();
    j.input = String::from("1f00");
    j.take_input();
    assert_eq!(j.addr, Some(0x1F00));
    j.input = String::from("nope");
    j.take_input();
    assert_eq!(j.addr, None);
    j.loose_focus();
    assert!(j.loose_focus);
}

#[test]
fn popups() {
    assert_eq!(PopupType::Error.title(), "Error");
    assert_eq!(PopupType::About.title(), "About");
    assert_eq!(PopupType::ReAddr.title(), "Re-Address");
    let mut p = Popup { active: true, ptype: Some(PopupType::About) };
    p.clear();
    assert!(!p.active);
    assert_eq!(p.ptype, None);
}

#[test]
fn search_box_cycles_through_results() {
    let ih = IntelHex::from_hex_str(":0600000011DEADBEDEAD15\n:00000001FF").unwrap();
    let mut s = Search::new();
    s.input = String::from("dead");
    s.submit(&ih);
    assert_eq!(s.results, vec![1, 4]);
    assert_eq!(s.length, 2);
    assert_eq!((s.idx, s.addr), (0, Some(1)));
    assert_eq!(s.last_input, "dead");
    s.submit(&ih);
    assert_eq!((s.idx, s.addr), (1, Some(4)));
    s.submit(&ih);
    assert_eq!((s.idx, s.addr), (0, Some(1)));
    s.input = String::from("xyz");
    s.submit(&ih);
    assert!(s.results.is_empty());
    assert_eq!((s.idx, s.addr), (0, None));
}

#[test]
fn forced_search_keeps_the_scroll_address() {
    let ih = IntelHex::from_hex_str(":0600000011DEADBEDEAD15\n:00000001FF").unwrap();
    let mut s = Search::new();
    s.last_input = String::from("BE");
    s.redo();
    assert_eq!(s.addr, None);
    s.addr = Some(7);
    s.submit(&ih);
    assert_eq!(s.results, vec![3]);
    assert_eq!(s.addr, Some(7));
    assert!(!s.force);
}

#[test]
fn default_viewer_and_image() {
    let v = HexViewer::default();
    assert_eq!(v.bytes_per_row, 32);
    assert!(v.ih.to_btree_map().is_empty());
    let ih = IntelHex::default();
    assert_eq!(ih.size, 0);
    assert!(ih.to_btree_map().is_empty());
}
