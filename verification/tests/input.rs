use statusline::input::without_bom;

#[test]
fn byte_order_marks_are_dropped() {
    assert_eq!(without_bom("\u{feff}{}"), "{}");
    assert_eq!(without_bom("\u{feff}\u{feff}{\"a\":1}"), "{\"a\":1}");
    assert_eq!(without_bom("{}\u{feff}"), "{}\u{feff}");
    assert_eq!(without_bom(""), "");
}
