//! Who a device says it is, to a server that should not know.
//!
//! Both identifiers here are derived from a key that only the user's own
//! devices hold. The server sees opaque 32-byte values it cannot link to a
//! person, an account, or a device's real identity.

use vstd::prelude::*;

use crate::bytes::append;
use crate::digest;
use crate::digest::blake3_keyed_of;
use crate::order::same_bytes;
use crate::text;
use crate::text::{bytes_of_hex, chars_of, hex_of};

verus! {

/// Which group of devices this one belongs to.
///
/// Every device of one user derives the same value, so the server can match
/// them without being told they are related. It is a bearer secret: anyone
/// holding it can see that group's addresses, which is why it is derived from
/// a key rather than being an account name.
#[derive(Clone, Copy, Eq, Hash)]
pub struct GroupId([u8; 32]);

/// Which device within the group.
///
/// Derived from the key *and* the device's fingerprint, so a peer that already
/// knows a fingerprint (which is what pairing establishes) can work out where
/// to look, while the server sees only an opaque value. It never learns a real
/// device identity, so it cannot recognise the same device appearing under two
/// groups.
#[derive(Clone, Copy, Eq, Hash)]
pub struct MemberId([u8; 32]);

impl View for GroupId {
    type V = Seq<u8>;

    closed spec fn view(&self) -> Seq<u8> {
        self.0@
    }
}

impl View for MemberId {
    type V = Seq<u8>;

    closed spec fn view(&self) -> Seq<u8> {
        self.0@
    }
}

impl PartialEq for GroupId {
    fn eq(&self, other: &Self) -> (same: bool) {
        same_bytes(&self.0, &other.0)
    }
}

impl vstd::std_specs::cmp::PartialEqSpecImpl for GroupId {
    open spec fn obeys_eq_spec() -> bool {
        true
    }

    open spec fn eq_spec(&self, other: &Self) -> bool {
        self@ == other@
    }
}

impl PartialEq for MemberId {
    fn eq(&self, other: &Self) -> (same: bool) {
        same_bytes(&self.0, &other.0)
    }
}

impl vstd::std_specs::cmp::PartialEqSpecImpl for MemberId {
    open spec fn obeys_eq_spec() -> bool {
        true
    }

    open spec fn eq_spec(&self, other: &Self) -> bool {
        self@ == other@
    }
}

/// What sets group identifiers apart from everything else that is derived from
/// the same key: `qurb/rendezvous-group/v1`.
pub open spec fn group_label() -> Seq<u8> {
    seq![
        113u8, 117u8, 114u8, 98u8, 47u8, 114u8, 101u8, 110u8, 100u8, 101u8, 122u8, 118u8, 111u8,
        117u8, 115u8, 45u8, 103u8, 114u8, 111u8, 117u8, 112u8, 47u8, 118u8, 49u8,
    ]
}

/// What sets member identifiers apart from everything else that is derived from
/// the same key: `qurb/rendezvous-member/v1`.
pub open spec fn member_label() -> Seq<u8> {
    seq![
        113u8, 117u8, 114u8, 98u8, 47u8, 114u8, 101u8, 110u8, 100u8, 101u8, 122u8, 118u8, 111u8,
        117u8, 115u8, 45u8, 109u8, 101u8, 109u8, 98u8, 101u8, 114u8, 47u8, 118u8, 49u8,
    ]
}

impl GroupId {
    /// The group of the user whose metadata authentication key this is.
    pub fn derive(base: &[u8; 32]) -> (group: Self)
        ensures
            group@ == digest::blake3_keyed_digest(base@, group_label()),
    {
        let label: [u8; 24] = [
            113, 117, 114, 98, 47, 114, 101, 110, 100, 101, 122, 118, 111, 117, 115, 45, 103, 114,
            111, 117, 112, 47, 118, 49,
        ];
        assert(label@ =~= group_label());
        GroupId(blake3_keyed_of(base, &label))
    }

    pub fn from_bytes(bytes: [u8; 32]) -> (group: Self)
        ensures
            group@ == bytes@,
    {
        GroupId(bytes)
    }

    pub fn as_bytes(&self) -> (bytes: &[u8; 32])
        ensures
            bytes@ == self@,
    {
        &self.0
    }

    /// How the identifier is shown in a log line: by its first four bytes only.
    pub fn label(&self) -> (text: String)
        ensures
            text@ == "GroupId("@ + text::hex(self@.take(4)) + ")"@,
    {
        "GroupId(".to_owned().concat(&short(&self.0)).concat(")")
    }

    /// How the identifier is written on the wire: 64 hexadecimal digits.
    pub fn to_wire(&self) -> (text: String)
        ensures
            text@ == text::hex(self@),
    {
        hex_of(&self.0)
    }

    /// Reads the identifier from the wire.
    pub fn from_wire(wire: &str) -> (result: Result<Self, IdentifierError>)
        ensures
            match result {
                Ok(group) => text::is_hex(wire@) && text::hex(group@) == text::lowered(wire@),
                Err(e) => identifier_refused(wire@, e),
            },
    {
        match identifier_from_wire(wire) {
            Ok(bytes) => Ok(GroupId(bytes)),
            Err(e) => Err(e),
        }
    }
}

impl MemberId {
    /// The identifier under which the device with this fingerprint announces.
    pub fn derive(base: &[u8; 32], fingerprint: &[u8; 32]) -> (member: Self)
        ensures
            member@ == digest::blake3_keyed_digest(base@, member_label() + fingerprint@),
    {
        let label: [u8; 25] = [
            113, 117, 114, 98, 47, 114, 101, 110, 100, 101, 122, 118, 111, 117, 115, 45, 109, 101,
            109, 98, 101, 114, 47, 118, 49,
        ];
        assert(label@ =~= member_label());
        let mut data: Vec<u8> = Vec::new();
        append(&mut data, &label);
        append(&mut data, fingerprint);
        assert(data@ =~= member_label() + fingerprint@);
        MemberId(blake3_keyed_of(base, &data))
    }

    pub fn from_bytes(bytes: [u8; 32]) -> (member: Self)
        ensures
            member@ == bytes@,
    {
        MemberId(bytes)
    }

    pub fn as_bytes(&self) -> (bytes: &[u8; 32])
        ensures
            bytes@ == self@,
    {
        &self.0
    }

    /// How the identifier is shown in a log line: by its first four bytes only.
    pub fn label(&self) -> (text: String)
        ensures
            text@ == "MemberId("@ + text::hex(self@.take(4)) + ")"@,
    {
        "MemberId(".to_owned().concat(&short(&self.0)).concat(")")
    }

    /// How the identifier is written on the wire: 64 hexadecimal digits.
    pub fn to_wire(&self) -> (text: String)
        ensures
            text@ == text::hex(self@),
    {
        hex_of(&self.0)
    }

    /// Reads the identifier from the wire.
    pub fn from_wire(wire: &str) -> (result: Result<Self, IdentifierError>)
        ensures
            match result {
                Ok(member) => text::is_hex(wire@) && text::hex(member@) == text::lowered(wire@),
                Err(e) => identifier_refused(wire@, e),
            },
    {
        match identifier_from_wire(wire) {
            Ok(bytes) => Ok(MemberId(bytes)),
            Err(e) => Err(e),
        }
    }
}

/// Why a text is not an identifier.
#[derive(Debug, Clone, Copy, PartialEq, Eq, Structural)]
pub enum IdentifierError {
    /// It is not 64 bytes long.
    WrongLength,
    /// It holds something other than hexadecimal digits.
    NotHex,
}

/// When an identifier is refused, and why.
pub open spec fn identifier_refused(wire: Seq<char>, e: IdentifierError) -> bool {
    &&& !text::is_hex(wire)
    &&& e == if vstd::utf8::encode_utf8(wire).len() != 64 {
        IdentifierError::WrongLength
    } else {
        IdentifierError::NotHex
    }
}

impl IdentifierError {
    /// The error as a sentence.
    pub fn to_string(&self) -> (text: String)
        ensures
            text@ == match *self {
                IdentifierError::WrongLength => "identifier must be 32 bytes of hex"@,
                IdentifierError::NotHex => "identifier is not hex"@,
            },
    {
        match *self {
            IdentifierError::WrongLength => "identifier must be 32 bytes of hex".to_owned(),
            IdentifierError::NotHex => "identifier is not hex".to_owned(),
        }
    }
}

fn identifier_from_wire(wire: &str) -> (result: Result<[u8; 32], IdentifierError>)
    ensures
        match result {
            Ok(bytes) => text::is_hex(wire@) && text::hex(bytes@) == text::lowered(wire@),
            Err(e) => identifier_refused(wire@, e),
        },
{
    let digits: Vec<char> = chars_of(wire);
    match bytes_of_hex(&digits) {
        Some(bytes) => Ok(bytes),
        None => if wire.as_bytes().len() != 64 {
            Err(IdentifierError::WrongLength)
        } else {
            Err(IdentifierError::NotHex)
        },
    }
}

/// Hexadecimal of the first four bytes.
pub fn short(bytes: &[u8; 32]) -> (text: String)
    ensures
        text@ == text::hex(bytes@.take(4)),
{
    let head: [u8; 4] = [bytes[0], bytes[1], bytes[2], bytes[3]];
    assert(head@ =~= bytes@.take(4));
    hex_of(&head)
}

/// What is written on the wire is read back as the same bytes, without a
/// refusal.
pub proof fn law_identifiers_round_trip(id: Seq<u8>, back: Seq<u8>)
    requires
        id.len() == 32,
    ensures
        ({
            let wire = text::hex(id);
            &&& text::is_hex(wire)
            &&& text::hex(id) == text::lowered(wire)
            &&& text::hex(back) == text::lowered(wire) ==> back == id
        }),
{
    text::hex_is_lower(id);
    if text::hex(back) == text::lowered(text::hex(id)) {
        text::hex_of_unique(id, back);
    }
}

/// The labels are the ASCII bytes of their texts, and neither is the beginning of the
/// other: no group is ever taken for a member.
pub proof fn law_labels_spell_what_they_are_for()
    ensures
        group_label().len() == "qurb/rendezvous-group/v1"@.len(),
        forall|i: int|
            #![trigger group_label()[i]]
            0 <= i < group_label().len() ==> group_label()[i] as int
                == "qurb/rendezvous-group/v1"@[i] as int,
        member_label().len() == "qurb/rendezvous-member/v1"@.len(),
        forall|i: int|
            #![trigger member_label()[i]]
            0 <= i < member_label().len() ==> member_label()[i] as int
                == "qurb/rendezvous-member/v1"@[i] as int,
        group_label()[16] != member_label()[16],
{
    reveal_strlit("qurb/rendezvous-group/v1");
    reveal_strlit("qurb/rendezvous-member/v1");
}

/// An identifier that cannot be read is refused for its length where it does not take
/// sixty-four bytes, and otherwise for not being hex; one that can be read is never
/// refused.
pub proof fn law_an_identifier_is_refused_for_what_is_wrong_with_it(
    wire: Seq<char>,
    e: IdentifierError,
)
    requires
        identifier_refused(wire, e),
    ensures
        vstd::utf8::encode_utf8(wire).len() != 64 ==> e is WrongLength,
        vstd::utf8::encode_utf8(wire).len() == 64 ==> e is NotHex,
        wire.len() != 64 || exists|i: int|
            0 <= i < wire.len() && text::hex_value(#[trigger] wire[i]) < 0,
{
    if wire.len() == 64 {
        let i = choose|i: int| 0 <= i < wire.len() && #[trigger] text::hex_value(wire[i]) < 0;
        assert(text::hex_value(wire[i]) < 0);
    }
}

} // verus!
