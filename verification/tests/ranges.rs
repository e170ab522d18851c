use fdbdir::range_scan::{directory_range, prefixed_range};
use fdbdir::strinc;

#[test]
fn successor_increments_last_byte() {
    assert_eq!(strinc(vec![1, 2, 3]), vec![1, 2, 4]);
}

#[test]
fn successor_drops_trailing_ff_run() {
    assert_eq!(strinc(vec![1, 0xFF]), vec![2]);
    assert_eq!(strinc(vec![0x00, 0xFE, 0xFF, 0xFF]), vec![0x00, 0xFF]);
}

#[test]
fn successor_of_all_ff_is_unbounded_sentinel() {
    assert_eq!(strinc(vec![0xFF, 0xFF]), Vec::<u8>::new());
}

#[test]
fn successor_of_empty_is_unbounded_sentinel() {
    assert_eq!(strinc(Vec::new()), Vec::<u8>::new());
}

#[test]
fn directory_range_spans_prefix() {
    let r = directory_range(&[0x15, 0x0A]);
    assert_eq!(r.begin, vec![0x15, 0x0A]);
    assert_eq!(r.end, vec![0x15, 0x0B]);
}

#[test]
fn prefixed_range_appends_sub_prefix() {
    let r = prefixed_range(&[0x15, 0x0A], &[0x02, b'x']);
    assert_eq!(r.begin, vec![0x15, 0x0A, 0x02, b'x']);
    assert_eq!(r.end, vec![0x15, 0x0A, 0x02, b'x' + 1]);
}

#[test]
fn prefixed_range_with_ff_sub_prefix() {
    let r = prefixed_range(&[0x15], &[0xFF]);
    assert_eq!(r.begin, vec![0x15, 0xFF]);
    assert_eq!(r.end, vec![0x16]);
}
