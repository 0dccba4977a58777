//! Texts.

use prometheus_scrape_rs::text::trim;

#[test]
fn white_space_is_what_unicode_lists() {
    let listed = |code: u32| {
        matches!(
            code,
            0x09..=0x0d
                | 0x20
                | 0x85
                | 0xa0
                | 0x1680
                | 0x2000..=0x200a
                | 0x2028
                | 0x2029
                | 0x202f
                | 0x205f
                | 0x3000
        )
    };
    for c in '\0'..=char::MAX {
        assert_eq!(trim(&c.to_string()).is_empty(), listed(c as u32), "{c:?}");
    }
    assert_eq!(trim("\u{a0}\t a b\u{3000}\n"), "a b");
}
