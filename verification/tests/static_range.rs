use elrond::static_files::parse_single_range;

#[test]
fn full_range() {
    assert_eq!(parse_single_range("bytes=0-9", 100), Some((0, 9)));
}
#[test]
fn open_end() {
    assert_eq!(parse_single_range("bytes=50-", 100), Some((50, 99)));
}
#[test]
fn suffix() {
    assert_eq!(parse_single_range("bytes=-20", 100), Some((80, 99)));
}
#[test]
fn clamp_end() {
    assert_eq!(parse_single_range("bytes=10-999", 100), Some((10, 99)));
}
#[test]
fn out_of_range_rejected() {
    assert!(parse_single_range("bytes=200-300", 100).is_none());
}
#[test]
fn multi_range_rejected_for_now() {
    assert!(parse_single_range("bytes=0-9,20-29", 100).is_none());
}
#[test]
fn invalid_prefix_rejected() {
    assert!(parse_single_range("rows=0-9", 100).is_none());
}
