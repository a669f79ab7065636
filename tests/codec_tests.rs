use cindex::csearch_index;
use cindex::logger::level_shown;
use cindex::varint::{get_canonical, get_varint, put_varint};

#[test]
fn varint_round_trip() {
    for &x in &[0u64, 1, 127, 128, 300, 16384, u32::MAX as u64, u64::MAX] {
        let mut out = vec![7u8];
        put_varint(&mut out, x);
        assert_eq!(get_varint(&out, 1), Some((x, out.len())));
        assert_eq!(get_canonical(&out, 1), Some((x, out.len())));
    }
}

#[test]
fn varint_bytes() {
    let mut out = Vec::new();
    put_varint(&mut out, 300);
    assert_eq!(out, vec![0xac, 0x02]);
    assert_eq!(get_varint(&[0x80], 0), None);
    assert_eq!(get_varint(&[0x80, 0x00], 0), Some((0, 2)));
    assert_eq!(get_canonical(&[0x80, 0x00], 0), None);
    let too_big = [0xffu8, 0xff, 0xff, 0xff, 0xff, 0xff, 0xff, 0xff, 0xff, 0x7f];
    assert_eq!(get_varint(&too_big, 0), None);
}

#[test]
fn index_path_choice() {
    let v = |s: &str| Some(s.as_bytes().to_vec());
    assert_eq!(csearch_index(v("/x/idx"), v("/home/u"), None), v("/x/idx"));
    assert_eq!(csearch_index(None, v("/home/u"), v("C:/u")), v("/home/u/.csearchindex"));
    assert_eq!(csearch_index(None, None, v("C:/u")), v("C:/u/.csearchindex"));
    assert_eq!(csearch_index(None, None, None), None);
}

#[test]
fn log_levels() {
    assert!(level_shown(1, 3));
    assert!(level_shown(3, 3));
    assert!(!level_shown(4, 3));
    assert!(!level_shown(1, 0));
}
