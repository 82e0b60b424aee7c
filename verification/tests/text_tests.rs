use userland::text::{name_str, reply_text, split3, split_first, str_eq, trim_ascii, ReplyText};

#[test]
fn trim_ascii_strips_both_ends() {
    assert_eq!(trim_ascii("  \t hello world \r\n"), "hello world");
    assert_eq!(trim_ascii("plain"), "plain");
    assert_eq!(trim_ascii(" \x0c "), "");
    assert_eq!(trim_ascii(""), "");
}

#[test]
fn trim_ascii_keeps_non_ascii_text() {
    assert_eq!(trim_ascii("  héllo  "), "héllo");
    assert_eq!(trim_ascii("\u{a0}x\u{a0}"), "\u{a0}x\u{a0}");
}

#[test]
fn trim_ascii_is_idempotent() {
    let once = trim_ascii("\t a b \n");
    assert_eq!(trim_ascii(once), once);
}

#[test]
fn split_first_at_first_space() {
    assert_eq!(split_first("add notes.txt   urgent "), ("add", "notes.txt   urgent"));
    assert_eq!(split_first("list"), ("list", ""));
    assert_eq!(split_first(""), ("", ""));
    assert_eq!(split_first(" lead"), ("", "lead"));
}

#[test]
fn split_first_word_has_no_space() {
    let (head, rest) = split_first("one two three");
    assert!(!head.contains(' '));
    assert_eq!(format!("{} {}", head, rest), "one two three");
}

#[test]
fn split3_fills_three_slots() {
    assert_eq!(split3("net  mtu 1500"), ["net", "mtu", "1500"]);
    assert_eq!(split3("  net mtu  1500 extra  "), ["net", "mtu", "1500 extra"]);
    assert_eq!(split3("net mtu"), ["net", "mtu", ""]);
    assert_eq!(split3("net"), ["net", "", ""]);
    assert_eq!(split3("   "), ["", "", ""]);
}

#[test]
fn name_str_reads_up_to_nul() {
    let mut buf = [0u8; 16];
    buf[..5].copy_from_slice(b"uart0");
    assert_eq!(name_str(&buf), "uart0");
    let full = *b"abcdefghijklmnop";
    assert_eq!(name_str(&full), "abcdefghijklmnop");
    assert_eq!(name_str(&[0u8; 16]), "");
}

#[test]
fn name_str_invalid_utf8_is_question_mark() {
    let mut buf = [0u8; 16];
    buf[0] = b'a';
    buf[1] = 0xff;
    assert_eq!(name_str(&buf), "?");
}

#[test]
fn str_eq_compares_bytes() {
    assert!(str_eq("list", "list"));
    assert!(!str_eq("list", "lis"));
    assert!(!str_eq("list", "List"));
}

#[test]
fn reply_text_cases() {
    let data = *b"a.txt\nb.txt\n____";
    match reply_text(100, &data, 12) {
        ReplyText::Text(t) => assert_eq!(t, "a.txt\nb.txt\n"),
        _ => panic!("expected text"),
    }
    assert!(matches!(reply_text(101, &data, 12), ReplyText::Failed));
    let bad = [0xc3u8, 0x28, 0, 0];
    assert!(matches!(reply_text(100, &bad, 2), ReplyText::NotText));
    match reply_text(100, &bad, 0) {
        ReplyText::Text(t) => assert_eq!(t, ""),
        _ => panic!("expected empty text"),
    }
}
