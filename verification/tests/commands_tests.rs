use userland::commands::{
    find_tags, label_str, parse_crypto_command, parse_ns_command, parse_revert_args,
    parse_tag_command, parse_untag_args, CryptoCommand, NsCommand, RevertError, TagCommand,
};

#[test]
fn find_tags_words() {
    assert_eq!(find_tags("  work   urgent\tnow "), Some(vec!["work", "urgent\tnow"]));
    assert_eq!(find_tags("a b c"), Some(vec!["a", "b", "c"]));
    assert_eq!(find_tags("solo"), Some(vec!["solo"]));
    assert_eq!(find_tags("   "), None);
    assert_eq!(find_tags(""), None);
}

#[test]
fn find_tags_at_most_eight() {
    let tags = find_tags("1 2 3 4 5 6 7 8 9 10").unwrap();
    assert_eq!(tags, vec!["1", "2", "3", "4", "5", "6", "7", "8"]);
}

#[test]
fn find_tags_skips_blank_words() {
    assert_eq!(find_tags("a \t b"), Some(vec!["a", "b"]));
}

#[test]
fn revert_args() {
    assert!(matches!(parse_revert_args("notes.txt 3"), Ok(("notes.txt", 3))));
    assert!(matches!(parse_revert_args("  notes.txt   12 "), Ok(("notes.txt", 12))));
    assert!(matches!(parse_revert_args("notes.txt"), Err(RevertError::Usage)));
    assert!(matches!(parse_revert_args(""), Err(RevertError::Usage)));
    assert!(matches!(parse_revert_args("notes.txt v2"), Err(RevertError::InvalidVersion)));
    assert!(matches!(parse_revert_args("notes.txt 70000"), Err(RevertError::InvalidVersion)));
}

#[test]
fn untag_args() {
    assert_eq!(parse_untag_args("file.txt red"), Some(("file.txt", "red")));
    assert_eq!(parse_untag_args("file.txt  red green "), Some(("file.txt", "red green")));
    assert_eq!(parse_untag_args("file.txt"), None);
    assert_eq!(parse_untag_args(" "), None);
}

#[test]
fn tag_commands() {
    match parse_tag_command("add f.txt blue") {
        TagCommand::Add(f, t) => assert_eq!((f, t), ("f.txt", "blue")),
        _ => panic!("expected add"),
    }
    match parse_tag_command("rm f.txt blue") {
        TagCommand::Remove(f, t) => assert_eq!((f, t), ("f.txt", "blue")),
        _ => panic!("expected rm"),
    }
    match parse_tag_command("ls  f.txt ") {
        TagCommand::List(f) => assert_eq!(f, "f.txt"),
        _ => panic!("expected ls"),
    }
    assert!(matches!(parse_tag_command("add f.txt"), TagCommand::AddUsage));
    assert!(matches!(parse_tag_command("rm"), TagCommand::RemoveUsage));
    assert!(matches!(parse_tag_command("ls"), TagCommand::ListUsage));
    assert!(matches!(parse_tag_command("paint f.txt"), TagCommand::Usage));
    assert!(matches!(parse_tag_command(""), TagCommand::Usage));
}

#[test]
fn ns_commands() {
    assert!(matches!(parse_ns_command(""), NsCommand::List));
    assert!(matches!(parse_ns_command("list"), NsCommand::List));
    match parse_ns_command("create work") {
        NsCommand::Create(l) => assert_eq!(l, "work"),
        _ => panic!("expected create"),
    }
    match parse_ns_command(" switch  home ") {
        NsCommand::Switch(l) => assert_eq!(l, "home"),
        _ => panic!("expected switch"),
    }
    assert!(matches!(parse_ns_command("create"), NsCommand::CreateUsage));
    assert!(matches!(parse_ns_command("switch"), NsCommand::SwitchUsage));
    assert!(matches!(parse_ns_command("delete x"), NsCommand::Usage));
}

#[test]
fn namespace_labels() {
    let mut l = [0u8; 16];
    l[..4].copy_from_slice(b"home");
    assert_eq!(label_str(&l), "home");
    l[0] = 0xc0;
    assert_eq!(label_str(&l), "?");
}

#[test]
fn crypto_commands() {
    assert!(matches!(parse_crypto_command("rotate"), CryptoCommand::Rotate));
    assert!(matches!(parse_crypto_command(" rotate "), CryptoCommand::Rotate));
    assert!(matches!(parse_crypto_command(""), CryptoCommand::Status));
    assert!(matches!(parse_crypto_command("status"), CryptoCommand::Status));
    assert!(matches!(parse_crypto_command("rotate now"), CryptoCommand::Usage));
}
