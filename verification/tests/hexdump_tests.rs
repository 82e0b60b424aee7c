use userland::hexdump::hexdump_line;

#[test]
fn short_row_line() {
    let line = hexdump_line(b"0", b"Hi!\n", 0);
    let mut expect = String::from("0         48 69 21 0a ");
    expect.push_str(&" ".repeat(9 + 4 + 24));
    expect.push_str("|Hi!.|\n");
    assert_eq!(String::from_utf8(line.clone()).unwrap(), expect);
    assert_eq!(line.len(), 62 + 4);
}

#[test]
fn full_row_line_with_offset() {
    let mut data = vec![0u8; 16];
    let row: Vec<u8> = (0x41u8..0x51).collect();
    data.extend_from_slice(&row);
    data.push(0x7f);
    let line = hexdump_line(b"10", &data, 16);
    let expect = "10        41 42 43 44 45 46 47 48  49 4a 4b 4c 4d 4e 4f 50 |ABCDEFGHIJKLMNOP|\n";
    assert_eq!(String::from_utf8(line.clone()).unwrap(), expect);
    assert_eq!(line.len(), 62 + 16);
    let last = hexdump_line(b"20", &data, 32);
    let mut expect_last = String::from("20        7f ");
    expect_last.push_str(&" ".repeat(18 + 4 + 24));
    expect_last.push_str("|.|\n");
    assert_eq!(String::from_utf8(last).unwrap(), expect_last);
}

#[test]
fn eight_digit_address_and_unprintable_bytes() {
    let line = hexdump_line(b"deadbeef", &[0x00, 0x1f, 0x20, 0x7e, 0x80, 0xff], 0);
    let text = String::from_utf8(line).unwrap();
    assert!(text.starts_with("deadbeef  00 1f 20 7e 80 ff "));
    assert!(text.ends_with("|.. ~..|\n"));
    assert_eq!(text.len(), 62 + 6);
}
