//! Whether hole punching can work from a network.
//!
//! Two servers are asked from one local socket at which public address they see
//! it. If both see the same one, the mapping is endpoint-independent and hole
//! punching works. If not, it usually does not.

use vstd::prelude::*;

use crate::bytes;
use crate::signal::message::{IpAddr, SocketAddr};

verus! {

/// What every message of this version carries behind its length.
pub const MAGIC: u32 = 0x2112A442;

/// Two bytes, the most significant first.
pub open spec fn be16(s: Seq<u8>, at: int) -> u16 {
    (s[at] as int * 256 + s[at + 1] as int) as u16
}

fn be16_of(raw: &[u8], at: usize) -> (n: u16)
    requires
        at + 2 <= raw@.len(),
    ensures
        n == be16(raw@, at as int),
{
    let len: usize = raw.len();
    raw[at] as u16 * 256 + raw[at + 1] as u16
}

/// A binding request: its type, no attributes, the magic number, and the number
/// of the transaction.
pub open spec fn request(txn: Seq<u8>) -> Seq<u8> {
    seq![0u8, 1u8, 0u8, 0u8, 0x21u8, 0x12u8, 0xA4u8, 0x42u8] + txn
}

/// A binding request.
pub fn binding_request(txn: &[u8; 12]) -> (out: Vec<u8>)
    ensures
        out@ == request(txn@),
        out@.len() == 20,
{
    let mut out: Vec<u8> = Vec::new();
    out.push(0);
    out.push(1);
    out.push(0);
    out.push(0);
    out.push(0x21);
    out.push(0x12);
    out.push(0xA4);
    out.push(0x42);
    assert(out@ =~= seq![0u8, 1u8, 0u8, 0u8, 0x21u8, 0x12u8, 0xA4u8, 0x42u8]);
    bytes::append(&mut out, txn.as_slice());
    out
}

/// The number of a transaction: the lowest twelve bytes of the time in
/// nanoseconds, the lowest first.
pub fn transaction(nanos: u128) -> (txn: [u8; 12])
    ensures
        txn@ == bytes::le_bytes(nanos as nat, 12),
{
    let mut txn: [u8; 12] = [0u8; 12];
    let mut rest: u128 = nanos;
    let mut i: usize = 0;
    let ghost all = bytes::le_bytes(nanos as nat, 12);
    proof {
        bytes::le_bytes_len(nanos as nat, 12);
        assert(all.skip(0) =~= all);
    }
    while i < 12
        invariant
            i <= 12,
            all == bytes::le_bytes(nanos as nat, 12),
            all.len() == 12,
            all.skip(i as int) == bytes::le_bytes(rest as nat, (12 - i) as nat),
            forall|j: int| 0 <= j < i ==> txn@[j] == all[j],
        decreases 12 - i,
    {
        proof {
            let tail = bytes::le_bytes(rest as nat, (12 - i) as nat);
            let next = bytes::le_bytes((rest / 256) as nat, (12 - i - 1) as nat);
            assert(tail == seq![(rest % 256) as u8] + next);
            assert(all.skip(i as int)[0] == all[i as int]);
            assert(all.skip(i + 1) =~= all.skip(i as int).skip(1));
            assert(tail.skip(1) =~= next);
        }
        txn[i] = (rest % 256) as u8;
        rest = rest / 256;
        i += 1;
    }
    assert(txn@ =~= all);
    txn
}

/// What is wrong with a reply.
#[derive(Debug, Clone, Copy, PartialEq, Eq, Structural)]
pub enum ReplyError {
    NotASuccess,
    NoAddress,
}

impl ReplyError {
    /// The error as a sentence.
    pub fn to_string(&self) -> (text: String)
        ensures
            text@ == (match *self {
                ReplyError::NotASuccess => "not a binding success response"@,
                ReplyError::NoAddress => "no XOR-MAPPED-ADDRESS in response"@,
            }),
    {
        match self {
            ReplyError::NotASuccess => "not a binding success response".to_owned(),
            ReplyError::NoAddress => "no XOR-MAPPED-ADDRESS in response".to_owned(),
        }
    }
}

/// Where the next attribute starts. Attributes are aligned to four bytes.
pub open spec fn next_attribute(s: Seq<u8>, at: int) -> int {
    let len = be16(s, at + 2) as int;
    at + 4 + len + (4 - len % 4) % 4
}

/// Whether an attribute says where the request came from, in the first address
/// family.
pub open spec fn tells_address(s: Seq<u8>, at: int) -> bool {
    be16(s, at) == 0x0020 && at + 12 <= s.len() && s[at + 5] == 1
}

/// Where the first attribute that says where the request came from stands, from
/// `at` on; -1 if there is none.
pub open spec fn address_at(s: Seq<u8>, at: int) -> int
    decreases s.len() - at,
{
    if at < 0 || at + 4 > s.len() {
        -1
    } else if tells_address(s, at) {
        at
    } else if next_attribute(s, at) > s.len() {
        -1
    } else {
        address_at(s, next_attribute(s, at))
    }
}

/// The address that an attribute tells: the bytes are masked with those of the
/// magic number.
pub open spec fn told(s: Seq<u8>, at: int) -> (Seq<u8>, u16) {
    (
        seq![s[at + 8] ^ 0x21, s[at + 9] ^ 0x12, s[at + 10] ^ 0xA4, s[at + 11] ^ 0x42],
        be16(s, at + 6) ^ 0x2112,
    )
}

/// The public address that a reply tells.
pub fn mapped_address(reply: &[u8]) -> (result: Result<SocketAddr, ReplyError>)
    ensures
        match result {
            Ok(addr) => {
                let at = address_at(reply@, 20);
                &&& reply@.len() >= 20
                &&& be16(reply@, 0) == 0x0101
                &&& at >= 0
                &&& addr.ip matches IpAddr::V4(octets) && octets@ == told(reply@, at).0
                &&& addr.port == told(reply@, at).1
                &&& addr.flow == 0
                &&& addr.scope == 0
            },
            Err(ReplyError::NotASuccess) => reply@.len() < 20 || be16(reply@, 0) != 0x0101,
            Err(ReplyError::NoAddress) => {
                &&& reply@.len() >= 20
                &&& be16(reply@, 0) == 0x0101
                &&& address_at(reply@, 20) < 0
            },
        },
{
    let n: usize = reply.len();
    if n < 20 || be16_of(reply, 0) != 0x0101 {
        return Err(ReplyError::NotASuccess);
    }
    let mut i: usize = 20;
    while i <= n - 4
        invariant
            n == reply@.len(),
            20 <= n,
            20 <= i,
            be16(reply@, 0) == 0x0101,
            address_at(reply@, 20) == address_at(reply@, i as int),
        decreases n - i,
    {
        let kind: u16 = be16_of(reply, i);
        let len: usize = be16_of(reply, i + 2) as usize;
        if kind == 0x0020 && n - i >= 12 && reply[i + 5] == 1 {
            let octets: [u8; 4] = [
                reply[i + 8] ^ 0x21,
                reply[i + 9] ^ 0x12,
                reply[i + 10] ^ 0xA4,
                reply[i + 11] ^ 0x42,
            ];
            let port: u16 = be16_of(reply, i + 6) ^ 0x2112;
            assert(octets@ =~= told(reply@, i as int).0);
            return Ok(SocketAddr { ip: IpAddr::V4(octets), port, flow: 0, scope: 0 });
        }
        let step: usize = 4 + len + (4 - len % 4) % 4;
        if step > n - i {
            return Err(ReplyError::NoAddress);
        }
        i = i + step;
    }
    Err(ReplyError::NoAddress)
}

/// What the replies say about the network.
#[derive(Debug, Clone, Copy, PartialEq, Eq, Structural)]
pub enum Verdict {
    /// Nothing came back.
    NoResponse,
    /// Only one server answered.
    Inconclusive,
    /// Every server saw the same address: hole punching should succeed.
    EndpointIndependent,
    /// The address changes per destination: hole punching will usually fail.
    Symmetric,
}

/// Whether two addresses are the same but for what only IPv6 has.
pub open spec fn same_place(a: SocketAddr, b: SocketAddr) -> bool {
    a.port == b.port && (match (a.ip, b.ip) {
        (IpAddr::V4(x), IpAddr::V4(y)) => x@ == y@,
        (IpAddr::V6(x), IpAddr::V6(y)) => x@ == y@,
        _ => false,
    })
}

fn is_same_place(a: &SocketAddr, b: &SocketAddr) -> (same: bool)
    ensures
        same == same_place(*a, *b),
{
    if a.port != b.port {
        return false;
    }
    match (a.ip, b.ip) {
        (IpAddr::V4(x), IpAddr::V4(y)) => {
            let same: bool = x[0] == y[0] && x[1] == y[1] && x[2] == y[2] && x[3] == y[3];
            if same {
                assert(x@ =~= y@);
            }
            same
        },
        (IpAddr::V6(x), IpAddr::V6(y)) => {
            let mut i: usize = 0;
            while i < 8
                invariant
                    i <= 8,
                    a.ip == IpAddr::V6(x),
                    b.ip == IpAddr::V6(y),
                    a.port == b.port,
                    forall|j: int| 0 <= j < i ==> x@[j] == y@[j],
                decreases 8 - i,
            {
                if x[i] != y[i] {
                    assert(x@[i as int] != y@[i as int]);
                    return false;
                }
                i += 1;
            }
            assert(x@ =~= y@);
            true
        },
        _ => false,
    }
}

/// What the addresses that the servers saw say about the network.
pub fn verdict(mapped: &Vec<SocketAddr>) -> (verdict: Verdict)
    ensures
        verdict == if mapped@.len() == 0 {
            Verdict::NoResponse
        } else if mapped@.len() == 1 {
            Verdict::Inconclusive
        } else if forall|i: int, j: int|
            0 <= i < mapped@.len() && 0 <= j < mapped@.len() ==> same_place(
                #[trigger] mapped@[i],
                #[trigger] mapped@[j],
            ) {
            Verdict::EndpointIndependent
        } else {
            Verdict::Symmetric
        },
{
    if mapped.len() == 0 {
        return Verdict::NoResponse;
    }
    if mapped.len() == 1 {
        return Verdict::Inconclusive;
    }
    let mut i: usize = 1;
    while i < mapped.len()
        invariant
            1 <= i <= mapped@.len(),
            mapped@.len() >= 2,
            forall|j: int| 0 <= j < i ==> same_place(#[trigger] mapped@[j], mapped@[0]),
        decreases mapped@.len() - i,
    {
        if !is_same_place(&mapped[i - 1], &mapped[i]) {
            assert(!same_place(mapped@[i - 1], mapped@[i as int]));
            return Verdict::Symmetric;
        }
        assert(same_place(mapped@[i - 1], mapped@[0]));
        i += 1;
    }
    assert forall|a: int, b: int|
        0 <= a < mapped@.len() && 0 <= b < mapped@.len() implies same_place(
        #[trigger] mapped@[a],
        #[trigger] mapped@[b],
    ) by {
        assert(same_place(mapped@[a], mapped@[0]) && same_place(mapped@[b], mapped@[0]));
    }
    Verdict::EndpointIndependent
}

/// What a server tells reads back: where the bytes behind an attribute's head are the
/// port and the address, each with the cookie laid over it, the port and the address
/// are what is read.
pub proof fn law_a_told_address_reads_back(s: Seq<u8>, at: int, ip: Seq<u8>, port: u16)
    requires
        0 <= at,
        at + 12 <= s.len(),
        ip.len() == 4,
        be16(s, at + 6) == port ^ 0x2112,
        s[at + 8] == ip[0] ^ 0x21,
        s[at + 9] == ip[1] ^ 0x12,
        s[at + 10] == ip[2] ^ 0xA4,
        s[at + 11] == ip[3] ^ 0x42,
    ensures
        told(s, at).0 == ip,
        told(s, at).1 == port,
{
    let (a, b, c, d) = (ip[0], ip[1], ip[2], ip[3]);
    assert((a ^ 0x21) ^ 0x21 == a) by (bit_vector);
    assert((b ^ 0x12) ^ 0x12 == b) by (bit_vector);
    assert((c ^ 0xA4) ^ 0xA4 == c) by (bit_vector);
    assert((d ^ 0x42) ^ 0x42 == d) by (bit_vector);
    assert((port ^ 0x2112) ^ 0x2112 == port) by (bit_vector);
    assert(told(s, at).0 =~= ip);
}

/// The address is read from the first attribute that tells one: the attributes
/// follow each other on multiples of four bytes, each as long as it says, and those
/// that tell none are passed over.
pub proof fn law_other_attributes_are_passed_over(s: Seq<u8>, at: int)
    requires
        0 <= at,
        at + 4 <= s.len(),
    ensures
        ({
            let len = be16(s, at + 2) as int;
            let next = next_attribute(s, at);
            &&& next >= at + 4 + len
            &&& next < at + 4 + len + 4
            &&& next % 4 == at % 4
            &&& be16(s, at) == 0x0020 && at + 12 <= s.len() && s[at + 5] == 1 ==> address_at(s, at)
                == at
            &&& !(be16(s, at) == 0x0020 && at + 12 <= s.len() && s[at + 5] == 1) && next <= s.len()
                ==> address_at(s, at) == address_at(s, next)
            &&& !(be16(s, at) == 0x0020 && at + 12 <= s.len() && s[at + 5] == 1) && next > s.len()
                ==> address_at(s, at) == -1
        }),
{
    let len = be16(s, at + 2) as int;
    assert(0 <= (4 - len % 4) % 4 < 4);
}

/// A request says that it asks for an address, that nothing follows its head, and
/// carries the cookie and the transaction's own bytes.
pub proof fn law_a_request_carries_its_transaction(txn: Seq<u8>)
    requires
        txn.len() == 12,
    ensures
        request(txn).len() == 20,
        be16(request(txn), 0) == 1,
        be16(request(txn), 2) == 0,
        be16(request(txn), 4) == 0x2112,
        be16(request(txn), 6) == 0xA442,
        request(txn).skip(8) == txn,
{
    assert(request(txn).skip(8) =~= txn);
}

/// Two addresses are the same place where both the address and the port are the same.
pub proof fn law_a_place_is_an_address_and_a_port(a: SocketAddr, b: SocketAddr)
    ensures
        same_place(a, a),
        same_place(a, b) ==> a.port == b.port && same_place(b, a),
        a.port == b.port && a.ip == b.ip ==> same_place(a, b),
        a.ip is V4 && b.ip is V6 ==> !same_place(a, b),
        same_place(a, b) ==> match (a.ip, b.ip) {
            (IpAddr::V4(x), IpAddr::V4(y)) => x@ == y@,
            (IpAddr::V6(x), IpAddr::V6(y)) => x@ == y@,
            _ => false,
        },
{
}

} // verus!
