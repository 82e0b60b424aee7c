//! Reading the command lines of the small tools: `find`, `revert`, `tag`,
//! `untag`, `ns` and `crypto`.

use vstd::prelude::*;
use vstd::string::StringSliceAdditionalSpecFns;
use crate::number::{parse_decimal, parse_u16};
use crate::text::{
    find_space, find_space_exec, lemma_find_space, lemma_trimmed_len, name_bytes, name_str,
    split_at_ascii, drop_first_ascii, split_first, split_first_spec, str_eq, trim_ascii, trimmed,
};

verus! {

/// The most tags `find` looks for.
pub const MAX_FIND_TAGS: usize = 8;

/// The tags `find` reads from `rem`, with room for `room` more: words
/// separated by spaces, each trimmed, empty ones skipped; the last word
/// is taken as it stands.
pub open spec fn tags_from(rem: Seq<u8>, room: nat) -> Seq<Seq<u8>>
    decreases rem.len(),
{
    if rem.len() == 0 || room == 0 {
        Seq::<Seq<u8>>::empty()
    } else {
        match find_space(rem) {
            Some(i) => {
                proof {
                    lemma_find_space(rem);
                    lemma_trimmed_len(rem.skip(i + 1));
                }
                let tag = trimmed(rem.take(i));
                let rest = trimmed(rem.skip(i + 1));
                if tag.len() > 0 {
                    seq![tag] + tags_from(rest, (room - 1) as nat)
                } else {
                    tags_from(rest, room)
                }
            },
            None => seq![rem],
        }
    }
}

/// Law: `find` looks for at most as many tags as it has room for, and never
/// for an empty one.
pub proof fn law_find_tags_bounded(rem: Seq<u8>, room: nat)
    ensures
        tags_from(rem, room).len() <= room,
        forall|k: int|
            0 <= k < tags_from(rem, room).len() ==> (#[trigger] tags_from(rem, room)[k]).len() > 0,
    decreases rem.len(),
{
    if rem.len() > 0 && room > 0 {
        lemma_find_space(rem);
        match find_space(rem) {
            Some(i) => {
                lemma_trimmed_len(rem.skip(i + 1));
                let tag = trimmed(rem.take(i));
                let rest = trimmed(rem.skip(i + 1));
                if tag.len() > 0 {
                    law_find_tags_bounded(rest, (room - 1) as nat);
                    let tail = tags_from(rest, (room - 1) as nat);
                    assert forall|k: int| 0 <= k < tags_from(rem, room).len() implies (
                    #[trigger] tags_from(rem, room)[k]).len() > 0 by {
                        if k > 0 {
                            assert(tags_from(rem, room)[k] == tail[k - 1]);
                        }
                    }
                } else {
                    law_find_tags_bounded(rest, room);
                }
            },
            None => {},
        }
    }
}

/// The byte views of a list of strings.
pub open spec fn str_bytes(v: Seq<&str>) -> Seq<Seq<u8>> {
    v.map_values(|s: &str| s.spec_bytes())
}

/// Reads the tags of a `find` command line: `None` if there are none to look
/// for, else at most eight tags.
pub fn find_tags(args: &str) -> (r: Option<Vec<&str>>)
    ensures
        match r {
            None => trimmed(args.spec_bytes()).len() == 0,
            Some(tags) => trimmed(args.spec_bytes()).len() > 0 && str_bytes(tags@) == tags_from(
                trimmed(args.spec_bytes()),
                8,
            ),
        },
{
    let input = trim_ascii(args);
    if input.as_bytes().len() == 0 {
        return None;
    }
    let mut tags: Vec<&str> = Vec::new();
    let mut remaining = input;
    let ghost whole = tags_from(input.spec_bytes(), 8);
    assert(str_bytes(tags@) =~= Seq::<Seq<u8>>::empty());
    while remaining.as_bytes().len() > 0 && tags.len() < MAX_FIND_TAGS
        invariant
            tags@.len() <= 8,
            whole == str_bytes(tags@) + tags_from(remaining.spec_bytes(), (8 - tags@.len()) as nat),
        decreases remaining.spec_bytes().len(),
    {
        let ghost rem = remaining.spec_bytes();
        let ghost room = (8 - tags@.len()) as nat;
        proof {
            lemma_find_space(rem);
        }
        match find_space_exec(remaining) {
            Some(i) => {
                let (head, tail) = split_at_ascii(remaining, i);
                let after = drop_first_ascii(tail);
                assert(after.spec_bytes() =~= rem.skip(i + 1));
                assert(head.spec_bytes() =~= rem.take(i as int));
                let tag = trim_ascii(head);
                let next = trim_ascii(after);
                proof {
                    lemma_trimmed_len(rem.skip(i + 1));
                }
                if tag.as_bytes().len() > 0 {
                    let ghost before = tags@;
                    tags.push(tag);
                    assert(str_bytes(tags@) =~= str_bytes(before) + seq![tag.spec_bytes()]);
                    assert(tags_from(rem, room) == seq![tag.spec_bytes()] + tags_from(
                        next.spec_bytes(),
                        (room - 1) as nat,
                    ));
                    assert(whole =~= str_bytes(tags@) + tags_from(
                        next.spec_bytes(),
                        (8 - tags@.len()) as nat,
                    ));
                }
                remaining = next;
            },
            None => {
                let ghost before = tags@;
                tags.push(remaining);
                assert(str_bytes(tags@) =~= str_bytes(before) + seq![rem]);
                assert(tags_from(rem, room) == seq![rem]);
                remaining = crate::text::empty_str();
                assert(tags_from(remaining.spec_bytes(), (8 - tags@.len()) as nat) =~= Seq::<
                    Seq<u8>,
                >::empty());
                assert(whole =~= str_bytes(tags@) + tags_from(
                    remaining.spec_bytes(),
                    (8 - tags@.len()) as nat,
                ));
            },
        }
    }
    assert(tags_from(remaining.spec_bytes(), (8 - tags@.len()) as nat) =~= Seq::<Seq<u8>>::empty());
    assert(whole =~= str_bytes(tags@));
    Some(tags)
}


/// Why a `revert` command line was refused.
pub enum RevertError {
    /// The file or the version is missing.
    Usage,
    /// The version is not a decimal `u16`.
    InvalidVersion,
}

/// Reads a `revert <file> <version>` command line.
pub fn parse_revert_args(args: &str) -> (r: Result<(&str, u16), RevertError>)
    ensures
        ({
            let parts = split_first_spec(trimmed(args.spec_bytes()));
            match r {
                Ok((name, version)) => parts.0.len() > 0 && parts.1.len() > 0 && name.spec_bytes()
                    == parts.0 && parse_decimal(parts.1, u16::MAX as nat, true) == Some(
                    version as nat,
                ),
                Err(RevertError::Usage) => parts.0.len() == 0 || parts.1.len() == 0,
                Err(RevertError::InvalidVersion) => parts.0.len() > 0 && parts.1.len() > 0
                    && parse_decimal(parts.1, u16::MAX as nat, true) is None,
            }
        }),
{
    let (name, ver) = split_first(trim_ascii(args));
    if name.as_bytes().len() == 0 || ver.as_bytes().len() == 0 {
        return Err(RevertError::Usage);
    }
    match parse_u16(ver) {
        Some(v) => Ok((name, v)),
        None => Err(RevertError::InvalidVersion),
    }
}

/// Reads an `untag <file> <tag>` command line: `None` if a part is missing.
pub fn parse_untag_args(args: &str) -> (r: Option<(&str, &str)>)
    ensures
        ({
            let parts = split_first_spec(trimmed(args.spec_bytes()));
            match r {
                Some((name, tag)) => parts.0.len() > 0 && parts.1.len() > 0 && name.spec_bytes()
                    == parts.0 && tag.spec_bytes() == parts.1,
                None => parts.0.len() == 0 || parts.1.len() == 0,
            }
        }),
{
    let (name, tag) = split_first(trim_ascii(args));
    if name.as_bytes().len() == 0 || tag.as_bytes().len() == 0 {
        None
    } else {
        Some((name, tag))
    }
}

/// A `tag` command line, read.
pub enum TagCommand<'a> {
    /// `tag add <file> <tag>`.
    Add(&'a str, &'a str),
    /// `tag add` with a part missing.
    AddUsage,
    /// `tag rm <file> <tag>`.
    Remove(&'a str, &'a str),
    /// `tag rm` with a part missing.
    RemoveUsage,
    /// `tag ls <file>`.
    List(&'a str),
    /// `tag ls` without a file.
    ListUsage,
    /// Any other subcommand.
    Usage,
}

/// Reads a `tag` command line.
pub fn parse_tag_command(args: &str) -> (r: TagCommand)
    ensures
        ({
            let sub = split_first_spec(trimmed(args.spec_bytes())).0;
            let rest = split_first_spec(trimmed(args.spec_bytes())).1;
            let pair = split_first_spec(rest);
            if sub == "add".spec_bytes() {
                if pair.0.len() == 0 || pair.1.len() == 0 {
                    r is AddUsage
                } else {
                    r matches TagCommand::Add(f, t) && f.spec_bytes() == pair.0 && t.spec_bytes()
                        == pair.1
                }
            } else if sub == "rm".spec_bytes() {
                if pair.0.len() == 0 || pair.1.len() == 0 {
                    r is RemoveUsage
                } else {
                    r matches TagCommand::Remove(f, t) && f.spec_bytes() == pair.0 && t.spec_bytes()
                        == pair.1
                }
            } else if sub == "ls".spec_bytes() {
                if trimmed(rest).len() == 0 {
                    r is ListUsage
                } else {
                    r matches TagCommand::List(f) && f.spec_bytes() == trimmed(rest)
                }
            } else {
                r is Usage
            }
        }),
{
    let (sub, rest) = split_first(trim_ascii(args));
    if str_eq(sub, "add") {
        let (file, tag) = split_first(rest);
        if file.as_bytes().len() == 0 || tag.as_bytes().len() == 0 {
            TagCommand::AddUsage
        } else {
            TagCommand::Add(file, tag)
        }
    } else if str_eq(sub, "rm") {
        let (file, tag) = split_first(rest);
        if file.as_bytes().len() == 0 || tag.as_bytes().len() == 0 {
            TagCommand::RemoveUsage
        } else {
            TagCommand::Remove(file, tag)
        }
    } else if str_eq(sub, "ls") {
        let file = trim_ascii(rest);
        if file.as_bytes().len() == 0 {
            TagCommand::ListUsage
        } else {
            TagCommand::List(file)
        }
    } else {
        TagCommand::Usage
    }
}

/// An `ns` command line, read.
pub enum NsCommand<'a> {
    /// `ns create <label>`.
    Create(&'a str),
    /// `ns create` without a label.
    CreateUsage,
    /// `ns switch <label>`.
    Switch(&'a str),
    /// `ns switch` without a label.
    SwitchUsage,
    /// `ns` or `ns list`.
    List,
    /// Any other subcommand.
    Usage,
}

/// Reads an `ns` command line.
pub fn parse_ns_command(args: &str) -> (r: NsCommand)
    ensures
        ({
            let sub = split_first_spec(trimmed(args.spec_bytes())).0;
            let rest = split_first_spec(trimmed(args.spec_bytes())).1;
            if sub == "create".spec_bytes() {
                if rest.len() == 0 {
                    r is CreateUsage
                } else {
                    r matches NsCommand::Create(l) && l.spec_bytes() == rest
                }
            } else if sub == "switch".spec_bytes() {
                if rest.len() == 0 {
                    r is SwitchUsage
                } else {
                    r matches NsCommand::Switch(l) && l.spec_bytes() == rest
                }
            } else if sub.len() == 0 || sub == "list".spec_bytes() {
                r is List
            } else {
                r is Usage
            }
        }),
{
    let (sub, rest) = split_first(trim_ascii(args));
    if str_eq(sub, "create") {
        if rest.as_bytes().len() == 0 {
            NsCommand::CreateUsage
        } else {
            NsCommand::Create(rest)
        }
    } else if str_eq(sub, "switch") {
        if rest.as_bytes().len() == 0 {
            NsCommand::SwitchUsage
        } else {
            NsCommand::Switch(rest)
        }
    } else if sub.as_bytes().len() == 0 || str_eq(sub, "list") {
        NsCommand::List
    } else {
        NsCommand::Usage
    }
}

/// The text of a NUL-padded 16-byte namespace label, or `?` if it is not
/// UTF-8.
pub fn label_str(label: &[u8; 16]) -> (r: &str)
    ensures
        r.spec_bytes() == name_bytes(label@),
{
    name_str(label)
}

/// A `crypto` command line, read.
pub enum CryptoCommand {
    /// `crypto rotate`.
    Rotate,
    /// `crypto` or `crypto status`.
    Status,
    /// Anything else.
    Usage,
}

/// Reads a `crypto` command line.
pub fn parse_crypto_command(args: &str) -> (r: CryptoCommand)
    ensures
        ({
            let cmd = trimmed(args.spec_bytes());
            if cmd == "rotate".spec_bytes() {
                r is Rotate
            } else if cmd.len() == 0 || cmd == "status".spec_bytes() {
                r is Status
            } else {
                r is Usage
            }
        }),
{
    let cmd = trim_ascii(args);
    if str_eq(cmd, "rotate") {
        CryptoCommand::Rotate
    } else if cmd.as_bytes().len() == 0 || str_eq(cmd, "status") {
        CryptoCommand::Status
    } else {
        CryptoCommand::Usage
    }
}

} // verus!
