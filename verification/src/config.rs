//! Service configuration: field descriptors, reading and writing fields of a
//! configuration blob, and the `config` command line.

use vstd::prelude::*;
use vstd::string::StringSliceAdditionalSpecFns;
use crate::text::{
    name_bytes, name_str, split3, split3_slot, split_first, split_first_spec, str_eq, trim_ascii,
    trimmed,
};
use crate::wire::{field_fits, field_value, field_written, law_read_after_write, pow256, read_field};

verus! {

/// One field of a service's configuration structure, as the configuration
/// service describes it.
pub struct FieldDesc {
    /// NUL-padded field name.
    pub name: [u8; 16],
    /// Byte offset of the field in the blob.
    pub offset: u8,
    /// Width of the field in bytes.
    pub size: u8,
    /// Type code: 0 `u8`, 1 `u16`, 2 `u32`, 3 `bool`.
    pub field_type: u8,
    /// The value the service starts with.
    pub default_value: u32,
}

/// A service's configuration structure, as the configuration service
/// describes it.
pub struct ServiceDesc {
    /// NUL-padded service name.
    pub service_name: [u8; 16],
    /// Size of the configuration blob in bytes.
    pub struct_size: u32,
    /// Number of fields the service declares.
    pub field_count: u32,
    /// The field descriptors; only the first sixteen are ever looked at.
    pub fields: Vec<FieldDesc>,
}

/// The largest number of fields a descriptor lists.
pub const MAX_FIELDS: usize = 16;

impl ServiceDesc {
    /// The number of fields that are looked at: the declared count, at most
    /// sixteen.
    pub open spec fn visible_count(&self) -> nat {
        if self.field_count < 16 {
            self.field_count as nat
        } else {
            16
        }
    }

    /// The descriptor lists every field that is looked at.
    pub open spec fn well_formed(&self) -> bool {
        self.visible_count() <= self.fields@.len()
    }

    /// The number of fields that are looked at.
    pub fn visible_fields(&self) -> (r: usize)
        ensures
            r as nat == self.visible_count(),
    {
        if self.field_count < 16 {
            self.field_count as usize
        } else {
            MAX_FIELDS
        }
    }
}

/// The name of a field type code.
pub fn field_type_name(t: u8) -> (r: &'static str)
    ensures
        t == 0 ==> r@ == "u8"@,
        t == 1 ==> r@ == "u16"@,
        t == 2 ==> r@ == "u32"@,
        t == 3 ==> r@ == "bool"@,
        t > 3 ==> r@ == "?"@,
{
    if t == 0 {
        "u8"
    } else if t == 1 {
        "u16"
    } else if t == 2 {
        "u32"
    } else if t == 3 {
        "bool"
    } else {
        "?"
    }
}

/// Whether field `i` of `fields` is the one called `name`.
pub open spec fn field_named(fields: Seq<FieldDesc>, i: int, name: Seq<u8>) -> bool {
    name_bytes(fields[i].name@) == name
}

/// Whether `r` is what looking up `name` among the fields that are looked
/// at gives: the offset and size of the first field of that name, or `None`
/// if there is none.
pub open spec fn find_field_result(desc: ServiceDesc, name: Seq<u8>, r: Option<(u8, u8)>) -> bool {
    match r {
        Some((offset, size)) => exists|i: int|
            0 <= i < desc.visible_count() && field_named(desc.fields@, i, name) && (forall|k: int|
                0 <= k < i ==> !field_named(desc.fields@, k, name)) && offset
                == desc.fields@[i].offset && size == desc.fields@[i].size,
        None => forall|k: int| 0 <= k < desc.visible_count() ==> !field_named(desc.fields@, k, name),
    }
}

/// The offset and size of the first field called `field_name` among those
/// that are looked at, as `config set` finds it.
pub fn find_field(desc: &ServiceDesc, field_name: &str) -> (r: Option<(u8, u8)>)
    requires
        desc.well_formed(),
    ensures
        find_field_result(*desc, field_name.spec_bytes(), r),
{
    let fc = desc.visible_fields();
    let mut i: usize = 0;
    while i < fc
        invariant
            fc as nat == desc.visible_count(),
            desc.well_formed(),
            0 <= i <= fc,
            forall|k: int| 0 <= k < i ==> !field_named(desc.fields@, k, field_name.spec_bytes()),
        decreases fc - i,
    {
        let f = &desc.fields[i];
        if str_eq(name_str(&f.name), field_name) {
            assert(field_named(desc.fields@, i as int, field_name.spec_bytes()));
            return Some((f.offset, f.size));
        }
        i = i + 1;
    }
    None
}

/// One line of `config show`: which field, its current value, and whether
/// that value is the default.
pub struct ShownField {
    /// Index of the field in the descriptor.
    pub index: usize,
    /// The field's value in the blob.
    pub value: u32,
    /// Whether the value equals the field's default.
    pub is_default: bool,
}

/// Whether a field is hidden from `config show`: its name starts with `_`.
pub open spec fn is_hidden(f: FieldDesc) -> bool {
    name_bytes(f.name@).len() > 0 && name_bytes(f.name@)[0] == 0x5fu8
}

/// The lines `config show` prints for the first `n` fields.
pub open spec fn shown_fields_spec(fields: Seq<FieldDesc>, data: Seq<u8>, n: nat) -> Seq<ShownField>
    decreases n,
{
    if n == 0 {
        Seq::<ShownField>::empty()
    } else {
        let i = (n - 1) as nat;
        let prev = shown_fields_spec(fields, data, i);
        let f = fields[i as int];
        if is_hidden(f) {
            prev
        } else {
            let v = field_value(data, f.offset as nat, f.size as nat);
            prev.push(ShownField { index: i as usize, value: v as u32, is_default: v == f.default_value })
        }
    }
}

/// The fields `config show` lists for a blob: every field that is looked
/// at and whose name does not start with `_`, in order, with its value.
pub fn shown_fields(desc: &ServiceDesc, data: &[u8]) -> (r: Vec<ShownField>)
    requires
        desc.well_formed(),
    ensures
        r@ == shown_fields_spec(desc.fields@, data@, desc.visible_count()),
{
    let fc = desc.visible_fields();
    let mut out: Vec<ShownField> = Vec::new();
    let mut i: usize = 0;
    while i < fc
        invariant
            fc as nat == desc.visible_count(),
            desc.well_formed(),
            0 <= i <= fc,
            out@ == shown_fields_spec(desc.fields@, data@, i as nat),
        decreases fc - i,
    {
        let f = &desc.fields[i];
        let n = name_str(&f.name);
        let nb = n.as_bytes();
        if !(nb.len() > 0 && nb[0] == 0x5fu8) {
            let v = read_field(data, f.offset, f.size);
            out.push(ShownField { index: i, value: v, is_default: v == f.default_value });
        }
        i = i + 1;
    }
    out
}

/// The line `config show` prints for field `i` of a blob.
pub open spec fn shown_entry(fields: Seq<FieldDesc>, data: Seq<u8>, i: nat) -> ShownField {
    let f = fields[i as int];
    let v = field_value(data, f.offset as nat, f.size as nat);
    ShownField { index: i as usize, value: v as u32, is_default: v == f.default_value }
}

proof fn lemma_shown_has(fields: Seq<FieldDesc>, data: Seq<u8>, n: nat, i: nat)
    requires
        i < n,
        !is_hidden(fields[i as int]),
    ensures
        exists|j: int|
            0 <= j < shown_fields_spec(fields, data, n).len() && #[trigger] shown_fields_spec(
                fields,
                data,
                n,
            )[j] == shown_entry(fields, data, i),
    decreases n,
{
    let prev = shown_fields_spec(fields, data, (n - 1) as nat);
    if i == n - 1 {
        let cur = shown_fields_spec(fields, data, n);
        assert(cur[prev.len() as int] == shown_entry(fields, data, i));
    } else {
        lemma_shown_has(fields, data, (n - 1) as nat, i);
        let j = choose|j: int|
            0 <= j < prev.len() && #[trigger] prev[j] == shown_entry(fields, data, i);
        let cur = shown_fields_spec(fields, data, n);
        assert(cur[j] == prev[j]);
    }
}

/// Law: after `config set` writes a value into a field that fits the blob,
/// `config show` lists that field with the value, cut to the field's width,
/// unless the field is hidden.
pub proof fn law_set_then_show(fields: Seq<FieldDesc>, data: Seq<u8>, n: nat, i: nat, value: u32)
    requires
        i < n,
        n <= fields.len(),
        n <= 16,
        !is_hidden(fields[i as int]),
        field_fits(data.len(), fields[i as int].offset as nat, fields[i as int].size as nat),
    ensures
        ({
            let f = fields[i as int];
            let written = field_written(data, f.offset as nat, f.size as nat, value as nat);
            exists|j: int|
                0 <= j < shown_fields_spec(fields, written, n).len() && #[trigger] shown_fields_spec(
                    fields,
                    written,
                    n,
                )[j].index == i && shown_fields_spec(fields, written, n)[j].value == (value as nat
                    % pow256(f.size as nat)) as u32
        }),
{
    let f = fields[i as int];
    let written = field_written(data, f.offset as nat, f.size as nat, value as nat);
    law_read_after_write(data, f.offset as nat, f.size as nat, value as nat);
    lemma_shown_has(fields, written, n, i);
    let j = choose|j: int|
        0 <= j < shown_fields_spec(fields, written, n).len() && #[trigger] shown_fields_spec(
            fields,
            written,
            n,
        )[j] == shown_entry(fields, written, i);
    assert(shown_fields_spec(fields, written, n)[j].index == i);
}

/// Law: the fields that are looked at are the first sixteen, or all of
/// them where the descriptor declares fewer.
pub proof fn law_visible_count(desc: ServiceDesc)
    ensures
        desc.visible_count() == (if desc.field_count <= 16 {
            desc.field_count as nat
        } else {
            16nat
        }),
{
}

/// Law: a field among the first sixteen the descriptor declares (or among
/// all of them, where it declares fewer) is found by its name; what is found
/// is the first field of that name.
pub proof fn law_find_field_covers_counted(desc: ServiceDesc, name: Seq<u8>, r: Option<(u8, u8)>, i: int)
    requires
        find_field_result(desc, name, r),
        0 <= i,
        i < desc.field_count,
        i < 16,
        i < desc.fields@.len(),
        field_named(desc.fields@, i, name),
    ensures
        r matches Some((offset, size)) && exists|j: int|
            0 <= j <= i && field_named(desc.fields@, j, name) && offset == desc.fields@[j].offset
                && size == desc.fields@[j].size,
{
    law_visible_count(desc);
    match r {
        Some((offset, size)) => {
            let j = choose|j: int|
                0 <= j < desc.visible_count() && field_named(desc.fields@, j, name) && (forall|k: int|
                    0 <= k < j ==> !field_named(desc.fields@, k, name)) && offset
                    == desc.fields@[j].offset && size == desc.fields@[j].size;
            assert(j <= i);
        },
        None => {
            assert(!field_named(desc.fields@, i, name));
        },
    }
}

/// Law: `config show` lists, in field order and once each, exactly the
/// looked-at fields whose name does not begin with `_`, each with its value
/// in the blob and whether that value is its default.
pub proof fn law_show_lists_unhidden(fields: Seq<FieldDesc>, data: Seq<u8>, n: nat)
    requires
        n <= 16,
        n <= fields.len(),
    ensures
        ({
            let s = shown_fields_spec(fields, data, n);
            &&& forall|j: int|
                0 <= j < s.len() ==> {
                    let i = (#[trigger] s[j]).index as int;
                    let f = fields[i];
                    let v = field_value(data, f.offset as nat, f.size as nat);
                    &&& 0 <= i < n
                    &&& !(name_bytes(f.name@).len() > 0 && name_bytes(f.name@)[0] == 0x5fu8)
                    &&& s[j].value == v as u32
                    &&& s[j].is_default == (v == f.default_value)
                }
            &&& forall|j1: int, j2: int|
                0 <= j1 < j2 < s.len() ==> (#[trigger] s[j1]).index < (#[trigger] s[j2]).index
            &&& forall|i: int|
                0 <= i < n && !(name_bytes(fields[i].name@).len() > 0 && name_bytes(
                    fields[i].name@,
                )[0] == 0x5fu8) ==> exists|j: int| 0 <= j < s.len() && (#[trigger] s[j]).index == i
        }),
    decreases n,
{
    if n > 0 {
        let m = (n - 1) as nat;
        law_show_lists_unhidden(fields, data, m);
        let prev = shown_fields_spec(fields, data, m);
        let s = shown_fields_spec(fields, data, n);
        assert forall|i: int|
            0 <= i < n && !(name_bytes(fields[i].name@).len() > 0 && name_bytes(
                fields[i].name@,
            )[0] == 0x5fu8) implies exists|j: int| 0 <= j < s.len() && (#[trigger] s[j]).index == i by {
            if i < m {
                let j = choose|j: int| 0 <= j < prev.len() && (#[trigger] prev[j]).index == i;
                assert(s[j] == prev[j]);
            } else {
                assert(s[prev.len() as int].index == i);
            }
        }
        assert forall|j1: int, j2: int|
            0 <= j1 < j2 < s.len() implies (#[trigger] s[j1]).index < (#[trigger] s[j2]).index by {
            if j2 < prev.len() {
                assert(s[j1] == prev[j1] && s[j2] == prev[j2]);
            } else {
                assert(s[j1] == prev[j1]);
            }
        }
        assert forall|j: int| 0 <= j < s.len() implies {
            let i = (#[trigger] s[j]).index as int;
            let f = fields[i];
            let v = field_value(data, f.offset as nat, f.size as nat);
            &&& 0 <= i < n
            &&& !(name_bytes(f.name@).len() > 0 && name_bytes(f.name@)[0] == 0x5fu8)
            &&& s[j].value == v as u32
            &&& s[j].is_default == (v == f.default_value)
        } by {
            if j < prev.len() {
                assert(s[j] == prev[j]);
            }
        }
    }
}

/// The name of the blob that holds a service's saved configuration:
/// `config/` followed by the service name, if that fits in 47 bytes.
pub open spec fn saved_blob_name(service: Seq<u8>) -> Option<Seq<u8>> {
    if service.len() + 7 <= 47 {
        Some(seq![0x63u8, 0x6fu8, 0x6eu8, 0x66u8, 0x69u8, 0x67u8, 0x2fu8] + service)
    } else {
        None
    }
}

/// The name `config reset` deletes before resetting a service, if the
/// service name is short enough to build it.
pub fn reset_blob_name(service: &str) -> (r: Option<Vec<u8>>)
    ensures
        match r {
            Some(v) => saved_blob_name(service.spec_bytes()) == Some(v@),
            None => saved_blob_name(service.spec_bytes()) is None,
        },
{
    let sb = service.as_bytes();
    let n = sb.len();
    if n > 40 {
        return None;
    }
    let mut out: Vec<u8> = Vec::new();
    out.push(0x63u8);
    out.push(0x6fu8);
    out.push(0x6eu8);
    out.push(0x66u8);
    out.push(0x69u8);
    out.push(0x67u8);
    out.push(0x2fu8);
    let ghost prefix = out@;
    let mut i: usize = 0;
    while i < n
        invariant
            n == sb@.len(),
            sb@ == service.spec_bytes(),
            0 <= i <= n,
            prefix == seq![0x63u8, 0x6fu8, 0x6eu8, 0x66u8, 0x69u8, 0x67u8, 0x2fu8],
            out@ == prefix + sb@.take(i as int),
        decreases n - i,
    {
        out.push(sb[i]);
        assert(sb@.take(i + 1) =~= sb@.take(i as int).push(sb@[i as int]));
        i = i + 1;
    }
    assert(sb@.take(n as int) =~= sb@);
    Some(out)
}

/// A `config` command line, read.
pub enum ConfigCommand<'a> {
    /// Empty or `help`: print the usage.
    Help,
    /// `list`.
    List,
    /// `show <service>`.
    Show(&'a str),
    /// `show` without a service.
    ShowUsage,
    /// `set <service> <field> <value>`.
    SetValue(&'a str, &'a str, &'a str),
    /// `set` with a part missing.
    SetUsage,
    /// `reset <service>`.
    Reset(&'a str),
    /// `reset` without a service.
    ResetUsage,
    /// Any other first word.
    Unknown(&'a str),
}

/// Reads a `config` command line.
pub fn parse_config_command(args: &str) -> (r: ConfigCommand)
    ensures
        ({
            let input = trimmed(args.spec_bytes());
            let cmd = split_first_spec(input).0;
            let rest = split_first_spec(input).1;
            if input.len() == 0 || input == "help".spec_bytes() {
                r is Help
            } else if cmd == "list".spec_bytes() {
                r is List
            } else if cmd == "show".spec_bytes() {
                if rest.len() == 0 {
                    r is ShowUsage
                } else {
                    r matches ConfigCommand::Show(s) && s.spec_bytes() == rest
                }
            } else if cmd == "set".spec_bytes() {
                if split3_slot(rest, 0).len() == 0 || split3_slot(rest, 1).len() == 0
                    || split3_slot(rest, 2).len() == 0 {
                    r is SetUsage
                } else {
                    r matches ConfigCommand::SetValue(a, b, c) && a.spec_bytes() == split3_slot(rest, 0)
                        && b.spec_bytes() == split3_slot(rest, 1) && c.spec_bytes() == split3_slot(
                        rest,
                        2,
                    )
                }
            } else if cmd == "reset".spec_bytes() {
                if rest.len() == 0 {
                    r is ResetUsage
                } else {
                    r matches ConfigCommand::Reset(s) && s.spec_bytes() == rest
                }
            } else {
                r matches ConfigCommand::Unknown(s) && s.spec_bytes() == cmd
            }
        }),
{
    let input = trim_ascii(args);
    if input.as_bytes().len() == 0 || str_eq(input, "help") {
        return ConfigCommand::Help;
    }
    let (cmd, rest) = split_first(input);
    if str_eq(cmd, "list") {
        ConfigCommand::List
    } else if str_eq(cmd, "show") {
        if rest.as_bytes().len() == 0 {
            ConfigCommand::ShowUsage
        } else {
            ConfigCommand::Show(rest)
        }
    } else if str_eq(cmd, "set") {
        let parts = split3(rest);
        let a = parts[0];
        let b = parts[1];
        let c = parts[2];
        assert(a.spec_bytes() == split3_slot(rest.spec_bytes(), 0));
        assert(b.spec_bytes() == split3_slot(rest.spec_bytes(), 1));
        assert(c.spec_bytes() == split3_slot(rest.spec_bytes(), 2));
        if a.as_bytes().len() == 0 || b.as_bytes().len() == 0 || c.as_bytes().len() == 0 {
            ConfigCommand::SetUsage
        } else {
            ConfigCommand::SetValue(a, b, c)
        }
    } else if str_eq(cmd, "reset") {
        if rest.as_bytes().len() == 0 {
            ConfigCommand::ResetUsage
        } else {
            ConfigCommand::Reset(rest)
        }
    } else {
        ConfigCommand::Unknown(cmd)
    }
}

} // verus!
