use au::item::Item;

fn text_item(content: &[u8]) -> Item {
    let mut it = Item::default();
    it.id = "s".to_string();
    it.content = content.to_vec();
    it
}

#[test]
fn summary_of_short_text_is_its_line() {
    assert_eq!(text_item(b"hello").summary(10), "hello");
    assert_eq!(text_item(b"  Title line\nbody  ").summary(80), "Title line");
    assert_eq!(text_item(b"\n\n  x \n y").summary(80), "x ");
}

#[test]
fn summary_cuts_long_lines() {
    assert_eq!(text_item(b"abcdefghij").summary(5), "ab...");
    assert_eq!(text_item(b"abcdefghij").summary(2), "ab");
    assert_eq!(text_item(b"abcdefghij").summary(10), "abcdefghij");
    assert_eq!(text_item("h\u{e9}llo w\u{f6}rld".as_bytes()).summary(5), "h...");
    assert_eq!(text_item("h\u{e9}llo".as_bytes()).summary(2), "h");
}

#[test]
fn summary_describes_other_content() {
    let mut bin = text_item(&[1, 2, 3]);
    bin.content_type = "image/png".to_string();
    assert_eq!(bin.summary(40), "(binary image/png file of 3 bytes)");
    assert_eq!(text_item(b"   ").summary(40), "(text text/plain file of 3 bytes)");
    assert_eq!(text_item(&[0xff, 0xfe]).summary(40), "(text text/plain file of 2 bytes)");
    let mut big = text_item(&[]);
    big.content = vec![b' '; 1234];
    assert_eq!(big.summary(40), "(text text/plain file of 1234 bytes)");
}
