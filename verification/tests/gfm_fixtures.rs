use marked_rs::parse;

#[test]
fn gfm_extensions_are_disabled_by_default() {
    assert_eq!(parse("This is ~~literal~~."), "<p>This is ~~literal~~.</p>\n");
}
