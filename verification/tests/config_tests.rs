use userland::config::{
    field_type_name, find_field, parse_config_command, reset_blob_name, shown_fields, ConfigCommand,
    FieldDesc, ServiceDesc,
};
use userland::wire::write_field;

fn name16(s: &str) -> [u8; 16] {
    let mut b = [0u8; 16];
    b[..s.len()].copy_from_slice(s.as_bytes());
    b
}

fn field(name: &str, offset: u8, size: u8, field_type: u8, default_value: u32) -> FieldDesc {
    FieldDesc { name: name16(name), offset, size, field_type, default_value }
}

fn net_desc(field_count: u32) -> ServiceDesc {
    ServiceDesc {
        service_name: name16("net"),
        struct_size: 8,
        field_count,
        fields: vec![
            field("mtu", 0, 2, 1, 1500),
            field("_secret", 2, 1, 0, 0),
            field("dhcp", 3, 1, 3, 1),
            field("timeout", 4, 4, 2, 30),
        ],
    }
}

#[test]
fn type_names() {
    assert_eq!(field_type_name(0), "u8");
    assert_eq!(field_type_name(1), "u16");
    assert_eq!(field_type_name(2), "u32");
    assert_eq!(field_type_name(3), "bool");
    assert_eq!(field_type_name(4), "?");
    assert_eq!(field_type_name(255), "?");
}

#[test]
fn find_field_by_name() {
    let desc = net_desc(4);
    assert_eq!(find_field(&desc, "mtu"), Some((0, 2)));
    assert_eq!(find_field(&desc, "timeout"), Some((4, 4)));
    assert_eq!(find_field(&desc, "_secret"), Some((2, 1)));
    assert_eq!(find_field(&desc, "missing"), None);
    assert_eq!(find_field(&desc, "mt"), None);
}

#[test]
fn find_field_only_among_counted_fields() {
    let desc = net_desc(2);
    assert_eq!(find_field(&desc, "dhcp"), None);
    assert_eq!(find_field(&desc, "mtu"), Some((0, 2)));
}

#[test]
fn find_field_first_match_wins() {
    let mut desc = net_desc(4);
    desc.fields[3] = field("mtu", 6, 1, 0, 0);
    assert_eq!(find_field(&desc, "mtu"), Some((0, 2)));
}

#[test]
fn show_lists_visible_fields_with_values() {
    let desc = net_desc(4);
    let data = [0xdc, 0x05, 9, 0, 30, 0, 0, 0];
    let shown = shown_fields(&desc, &data);
    assert_eq!(shown.len(), 3);
    assert_eq!((shown[0].index, shown[0].value, shown[0].is_default), (0, 1500, true));
    assert_eq!((shown[1].index, shown[1].value, shown[1].is_default), (2, 0, false));
    assert_eq!((shown[2].index, shown[2].value, shown[2].is_default), (3, 30, true));
}

#[test]
fn show_field_beyond_blob_reads_zero() {
    let desc = net_desc(4);
    let data = [1, 0, 0, 1];
    let shown = shown_fields(&desc, &data);
    assert_eq!(shown.len(), 3);
    assert_eq!(shown[2].index, 3);
    assert_eq!(shown[2].value, 0);
}

#[test]
fn set_then_show_shows_new_value() {
    let desc = net_desc(4);
    let mut data = [0xdc, 0x05, 9, 0, 30, 0, 0, 0];
    let (offset, size) = find_field(&desc, "mtu").unwrap();
    write_field(&mut data, offset, size, 9000);
    let shown = shown_fields(&desc, &data);
    assert_eq!(shown[0].index, 0);
    assert_eq!(shown[0].value, 9000);
    assert!(!shown[0].is_default);
}

#[test]
fn reset_blob_names() {
    assert_eq!(reset_blob_name("net"), Some(b"config/net".to_vec()));
    let forty = "a".repeat(40);
    assert_eq!(reset_blob_name(&forty).map(|v| v.len()), Some(47));
    assert_eq!(reset_blob_name(&"a".repeat(41)), None);
}

#[test]
fn config_command_lines() {
    assert!(matches!(parse_config_command(""), ConfigCommand::Help));
    assert!(matches!(parse_config_command("  help "), ConfigCommand::Help));
    assert!(matches!(parse_config_command("list"), ConfigCommand::List));
    assert!(matches!(parse_config_command("list extra"), ConfigCommand::List));
    assert!(matches!(parse_config_command("show"), ConfigCommand::ShowUsage));
    match parse_config_command("show   net ") {
        ConfigCommand::Show(s) => assert_eq!(s, "net"),
        _ => panic!("expected show"),
    }
    match parse_config_command("set net mtu 9000") {
        ConfigCommand::SetValue(a, b, c) => assert_eq!((a, b, c), ("net", "mtu", "9000")),
        _ => panic!("expected set"),
    }
    assert!(matches!(parse_config_command("set net mtu"), ConfigCommand::SetUsage));
    assert!(matches!(parse_config_command("reset"), ConfigCommand::ResetUsage));
    match parse_config_command("reset net") {
        ConfigCommand::Reset(s) => assert_eq!(s, "net"),
        _ => panic!("expected reset"),
    }
    match parse_config_command("frob net") {
        ConfigCommand::Unknown(s) => assert_eq!(s, "frob"),
        _ => panic!("expected unknown"),
    }
    match parse_config_command("helpme") {
        ConfigCommand::Unknown(s) => assert_eq!(s, "helpme"),
        _ => panic!("expected unknown"),
    }
}
