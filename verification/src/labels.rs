//! Labels for packets: the keys under which the identifier tables are
//! searched, and the text that names a packet and the method it calls.

use crate::definitions::Definitions;
use crate::packet_stream::Packet;
use crate::packet_stream::ENTITY_METHOD;
use crate::json::json_member;
use crate::json::json_text;
use crate::json::value_member;
use crate::json::value_text;
use crate::packet_stream::PacketView;
use crate::reader::le_u32;
use serde_json::Value;
use vstd::prelude::*;
use vstd::string::StrSliceExecFns;
use vstd::string::StringExecFns;

verus! {

/// The digit that stands for `d`, for `d` below sixteen: `0` to `9`, then
/// `A` to `F`.
pub open spec fn digit_char(d: int) -> char {
    "0123456789ABCDEF"@[d]
}

/// The digits of `n` in base `base`, the most significant first, with no
/// leading zero.
pub open spec fn digits(n: nat, base: nat) -> Seq<char>
    decreases n,
    via digits_get_shorter
{
    if base < 2 || n < base {
        seq![digit_char(n as int)]
    } else {
        digits(n / base, base).push(digit_char((n % base) as int))
    }
}

#[via_fn]
proof fn digits_get_shorter(n: nat, base: nat) {
    if base >= 2 && n >= base {
        assert(n / base < n) by (nonlinear_arith)
            requires
                base >= 2,
                n >= base,
        ;
    }
}

/// The key of a packet type in the tables: `0x`, then the type in
/// upper-case hexadecimal, two digits at least.
pub open spec fn packet_type_key_of(packet_type: u32) -> Seq<char> {
    if packet_type < 16 {
        "0x0"@ + digits(packet_type as nat, 16)
    } else {
        "0x"@ + digits(packet_type as nat, 16)
    }
}

/// The key of an entity, a method or a property in the tables: the
/// identifier in decimal.
pub open spec fn id_key_of(id: u32) -> Seq<char> {
    digits(id as nat, 10)
}

/// The one-digit text of `d`.
fn digit_text(d: u32) -> (text: &'static str)
    requires
        d < 16,
    ensures
        text@ == seq![digit_char(d as int)],
{
    let all: &'static str = "0123456789ABCDEF";
    proof {
        reveal_strlit("0123456789ABCDEF");
        assert(all@.len() == 16);
        assert(all.is_ascii());
    }
    let text = all.substring_ascii(d as usize, d as usize + 1);
    assert(text@ =~= seq![digit_char(d as int)]);
    text
}

/// Appends the digits of `n` in base `base` to `out`.
fn push_digits(out: &mut String, n: u32, base: u32)
    requires
        2 <= base <= 16,
    ensures
        final(out)@ == old(out)@ + digits(n as nat, base as nat),
    decreases n,
{
    if n >= base {
        assert(n / base < n) by (nonlinear_arith)
            requires
                base >= 2,
                n >= base,
        ;
        push_digits(out, n / base, base);
    }
    let ghost front = out@;
    out.append(digit_text(n % base));
    proof {
        let last = digit_char((n % base) as int);
        if n >= base {
            assert(digits(n as nat, base as nat) == digits((n / base) as nat, base as nat).push(
                last,
            ));
            assert(front + seq![last] =~= old(out)@ + digits((n / base) as nat, base as nat).push(
                last,
            ));
        } else {
            assert(n % base == n) by (nonlinear_arith)
                requires
                    n < base,
            ;
            assert(digits(n as nat, base as nat) == seq![last]);
        }
    }
}

/// The key of a packet type in the tables.
pub fn packet_type_key(packet_type: u32) -> (key: String)
    ensures
        key@ == packet_type_key_of(packet_type),
{
    let mut key = if packet_type < 16 {
        String::from_str("0x0")
    } else {
        String::from_str("0x")
    };
    push_digits(&mut key, packet_type, 16);
    key
}

/// The key of an entity, a method or a property in the tables.
pub fn id_key(id: u32) -> (key: String)
    ensures
        key@ == id_key_of(id),
{
    let mut key = String::new();
    push_digits(&mut key, id, 10);
    assert(key@ =~= id_key_of(id));
    key
}

/// The name that a table entry gives a packet type: the entry itself where
/// it is a string, and its member `name` where it is an object that has
/// such a member and the member is a string.
pub open spec fn entry_name(entry: Value) -> Option<Seq<char>> {
    match json_text(entry) {
        Some(name) => Some(name),
        None => match json_member(entry, "name"@) {
            Some(member) => json_text(member),
            None => None,
        },
    }
}

/// The name that a table entry gives a packet type.
pub fn packet_type_name(entry: &Value) -> (r: Option<&str>)
    ensures
        match r {
            Some(name) => entry_name(*entry) == Some(name@),
            None => entry_name(*entry).is_none(),
        },
{
    match value_text(entry) {
        Some(name) => Some(name),
        None => match value_member(entry, "name") {
            Some(member) => value_text(member),
            None => None,
        },
    }
}

/// The name of a packet type in bracketed form, or nothing where the
/// tables have no name for it.
pub open spec fn name_part(defs: Definitions, packet_type: u32) -> Seq<char> {
    let key = packet_type_key_of(packet_type);
    if defs.packet_types@.contains_key(key) && entry_name(defs.packet_types@[key]).is_some() {
        "("@ + entry_name(defs.packet_types@[key]).unwrap() + ")"@
    } else {
        Seq::empty()
    }
}

/// True for a method call on an entity that the tables know.
pub open spec fn calls_known_entity(defs: Definitions, packet: PacketView) -> bool {
    &&& packet.packet_type == ENTITY_METHOD
    &&& packet.payload.len() >= 8
    &&& defs.entities@.contains_key(id_key_of(le_u32(packet.payload.subrange(0, 4)) as u32))
}

/// The entity and the method that a method call names: the name of the
/// method where the tables have it among the client methods of the entity,
/// and its number otherwise.
pub open spec fn method_part(defs: Definitions, packet: PacketView) -> Seq<char>
    recommends
        calls_known_entity(defs, packet),
{
    let entity = defs.entities@[id_key_of(le_u32(packet.payload.subrange(0, 4)) as u32)];
    let method_id = le_u32(packet.payload.subrange(4, 8)) as u32;
    if entity.client_methods@.contains_key(id_key_of(method_id)) {
        entity.name@ + "."@ + entity.client_methods@[id_key_of(method_id)].name@
    } else {
        entity.name@ + ".Method["@ + id_key_of(method_id) + "]"@
    }
}

/// The label of a packet: the name of its type and, for a method call on
/// an entity that the tables know, the entity and the method.
pub open spec fn label_of(defs: Definitions, packet: PacketView) -> Seq<char> {
    if calls_known_entity(defs, packet) {
        name_part(defs, packet.packet_type) + " :: "@ + method_part(defs, packet)
    } else {
        name_part(defs, packet.packet_type)
    }
}

/// The label of a packet, for a reader.
pub fn describe(defs: &Definitions, packet: &Packet) -> (label: String)
    ensures
        label@ == label_of(*defs, packet@),
{
    let mut label = String::new();
    let key = packet_type_key(packet.packet_type);
    match defs.packet_types.get(key.as_str()) {
        Some(entry) => match packet_type_name(entry) {
            Some(name) => {
                label.append("(");
                label.append(name);
                label.append(")");
            },
            None => {},
        },
        None => {},
    }
    assert(label@ =~= name_part(*defs, packet.packet_type));
    if packet.packet_type != ENTITY_METHOD {
        return label;
    }
    let (entity_id, method_id) = match (packet.entity_id(), packet.sub_type()) {
        (Some(entity_id), Some(method_id)) => (entity_id, method_id),
        _ => {
            return label;
        },
    };
    let entity_key = id_key(entity_id);
    let entity = match defs.entities.get(entity_key.as_str()) {
        Some(entity) => entity,
        None => {
            return label;
        },
    };
    label.append(" :: ");
    label.append(entity.name.as_str());
    let method_key = id_key(method_id);
    match entity.client_methods.get(method_key.as_str()) {
        Some(method) => {
            label.append(".");
            label.append(method.name.as_str());
        },
        None => {
            label.append(".Method[");
            label.append(method_key.as_str());
            label.append("]");
        },
    }
    assert(label@ =~= label_of(*defs, packet@));
    label
}

} // verus!
