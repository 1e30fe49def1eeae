use pnet::packet::ethernet::EthernetPacket;
use pnet::packet::ipv4::Ipv4Packet;
use pnet::packet::ipv6::Ipv6Packet;
use pnet::packet::Packet;
use vstd::prelude::*;

verus! {

/// The link-layer type of an IPv4 payload.
pub const ETHERTYPE_IPV4: u16 = 0x0800;

/// The link-layer type of an IPv6 payload.
pub const ETHERTYPE_IPV6: u16 = 0x86DD;

/// The unsigned number that the bytes `s` spell, most significant first.
pub open spec fn be_value(s: Seq<u8>) -> nat
    decreases s.len(),
{
    if s.len() == 0 {
        0
    } else {
        be_value(s.drop_last()) * 256 + s.last() as nat
    }
}

/// An IPv4 address as the IPv4-mapped IPv6 address `::ffff:a.b.c.d`, the one
/// address type the flow table is keyed by.
pub open spec fn v4_mapped(a: nat) -> nat {
    0xffff_0000_0000 + a
}

/// The ethertype of an Ethernet frame: bytes 12 and 13, once the 14-byte
/// header is there.
pub open spec fn ethertype_spec(f: Seq<u8>) -> Option<nat> {
    if f.len() >= 14 {
        Some(be_value(f.subrange(12, 14)))
    } else {
        None
    }
}

/// The normalised source address of a frame: that of its IPv4 header (20
/// bytes after the Ethernet header) or of its IPv6 header (40 bytes after
/// it); `None` for a frame of another type or one too short to hold it.
pub open spec fn frame_source_spec(f: Seq<u8>) -> Option<u128> {
    if ethertype_spec(f) == Some(ETHERTYPE_IPV4 as nat) && f.len() >= 34 {
        Some(v4_mapped(be_value(f.subrange(26, 30))) as u128)
    } else if ethertype_spec(f) == Some(ETHERTYPE_IPV6 as nat) && f.len() >= 54 {
        Some(be_value(f.subrange(22, 38)) as u128)
    } else {
        None
    }
}

/// Relies on pnet's `EthernetPacket`: `new` gives a view of any buffer of at
/// least 14 bytes, `get_ethertype` reads bytes 12 and 13 big-endian, and
/// `payload` is everything after byte 14.
#[verifier::external_body]
fn ethernet_parts(frame: &[u8]) -> (r: Option<(u16, Vec<u8>)>)
    ensures
        r is Some <==> frame@.len() >= 14,
        r is Some ==> ethertype_spec(frame@) == Some((r->0).0 as nat)
            && (r->0).1@ == frame@.subrange(14, frame@.len() as int),
{
    match EthernetPacket::new(frame) {
        Some(eth) => Some((eth.get_ethertype().0, eth.payload().to_vec())),
        None => None,
    }
}

/// Relies on pnet's `Ipv4Packet`: `new` gives a view of any buffer of at
/// least 20 bytes, and `get_source` reads bytes 12 to 15, which `u32::from`
/// turns into a number, most significant byte first.
#[verifier::external_body]
fn ipv4_source(packet: &[u8]) -> (r: Option<u32>)
    ensures
        r is Some <==> packet@.len() >= 20,
        r is Some ==> r->0 as nat == be_value(packet@.subrange(12, 16)),
{
    match Ipv4Packet::new(packet) {
        Some(ip) => Some(u32::from(ip.get_source())),
        None => None,
    }
}

/// Relies on pnet's `Ipv6Packet`: `new` gives a view of any buffer of at
/// least 40 bytes, and `get_source` reads bytes 8 to 23, which `u128::from`
/// turns into a number, most significant byte first.
#[verifier::external_body]
fn ipv6_source(packet: &[u8]) -> (r: Option<u128>)
    ensures
        r is Some <==> packet@.len() >= 40,
        r is Some ==> r->0 as nat == be_value(packet@.subrange(8, 24)),
{
    match Ipv6Packet::new(packet) {
        Some(ip) => Some(u128::from(ip.get_source())),
        None => None,
    }
}

/// The key under which an IPv4 address is kept: its IPv4-mapped form.
pub fn v4_key(a: u32) -> (r: u128)
    ensures
        r as nat == v4_mapped(a as nat),
{
    0xffff_0000_0000u128 + a as u128
}

/// The normalised source address of a captured Ethernet frame, or `None`
/// where the frame carries neither IPv4 nor IPv6 or is cut short; such a
/// frame is skipped, never an error.
pub fn frame_source(frame: &[u8]) -> (r: Option<u128>)
    ensures
        r == frame_source_spec(frame@),
{
    match ethernet_parts(frame) {
        Some((ethertype, payload)) => {
            proof {
                let f = frame@;
                if f.len() >= 34 {
                    assert(payload@.subrange(12, 16) =~= f.subrange(26, 30));
                }
                if f.len() >= 54 {
                    assert(payload@.subrange(8, 24) =~= f.subrange(22, 38));
                }
            }
            if ethertype == ETHERTYPE_IPV4 {
                match ipv4_source(payload.as_slice()) {
                    Some(a) => Some(v4_key(a)),
                    None => None,
                }
            } else if ethertype == ETHERTYPE_IPV6 {
                ipv6_source(payload.as_slice())
            } else {
                None
            }
        },
        None => None,
    }
}

} // verus!
