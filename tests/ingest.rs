use reflector_watch::expiry::RemovalRequest;
use reflector_watch::frame::{frame_source, v4_key};
use reflector_watch::table::FlowTable;

fn ipv4_frame(src: [u8; 4]) -> Vec<u8> {
    let mut f = vec![0u8; 34];
    f[12] = 0x08;
    f[13] = 0x00;
    f[14] = 0x45;
    f[26..30].copy_from_slice(&src);
    f[30..34].copy_from_slice(&[192, 168, 1, 1]);
    f
}

fn ipv6_frame(src: [u8; 16]) -> Vec<u8> {
    let mut f = vec![0u8; 54];
    f[12] = 0x86;
    f[13] = 0xdd;
    f[14] = 0x60;
    f[22..38].copy_from_slice(&src);
    f
}

#[test]
fn v4_key_is_ipv4_mapped() {
    let a = u32::from_be_bytes([10, 1, 2, 3]);
    assert_eq!(v4_key(a), 0x0000_0000_0000_0000_0000_ffff_0a01_0203u128);
}

#[test]
fn ipv4_frame_source() {
    let f = ipv4_frame([203, 0, 113, 7]);
    assert_eq!(frame_source(&f), Some(v4_key(u32::from_be_bytes([203, 0, 113, 7]))));
}

#[test]
fn ipv6_frame_source() {
    let src = [0x20, 0x01, 0x0d, 0xb8, 0, 0, 0, 0, 0, 0, 0, 0, 0, 0, 0, 0x42];
    let f = ipv6_frame(src);
    assert_eq!(frame_source(&f), Some(u128::from_be_bytes(src)));
}

#[test]
fn other_or_short_frames_have_no_source() {
    let mut arp = vec![0u8; 60];
    arp[12] = 0x08;
    arp[13] = 0x06;
    assert_eq!(frame_source(&arp), None);
    let short_v4 = ipv4_frame([1, 2, 3, 4])[..33].to_vec();
    assert_eq!(frame_source(&short_v4), None);
    let short_v6 = ipv6_frame([1; 16])[..53].to_vec();
    assert_eq!(frame_source(&short_v6), None);
    assert_eq!(frame_source(&[0u8; 5]), None);
    assert_eq!(frame_source(&[]), None);
}

#[test]
fn ingest_frame_refreshes_source() {
    let mut t = FlowTable::new();
    let f = ipv4_frame([198, 51, 100, 9]);
    let a = v4_key(u32::from_be_bytes([198, 51, 100, 9]));
    assert_eq!(t.ingest_frame(&f, 5), Some(a));
    assert_eq!(t.ingest_frame(&f, 8), Some(a));
    assert_eq!(t.get(a), Some(8));
    let mut arp = vec![0u8; 60];
    arp[13] = 0x06;
    arp[12] = 0x08;
    assert_eq!(t.ingest_frame(&arp, 9), None);
    assert_eq!(t.len(), 1);
}

#[test]
fn ingest_frame_grows_table_only_for_new_source() {
    let mut t = FlowTable::new();
    t.ingest_frame(&ipv4_frame([10, 0, 0, 1]), 1);
    assert_eq!(t.len(), 1);
    t.ingest_frame(&ipv4_frame([10, 0, 0, 1]), 2);
    assert_eq!(t.len(), 1);
    t.ingest_frame(&ipv4_frame([10, 0, 0, 2]), 3);
    assert_eq!(t.len(), 2);
}

#[test]
fn removal_of_refreshed_entry_is_discarded() {
    let mut t = FlowTable::new();
    let a = v4_key(1);
    t.upsert(a, 10);
    t.apply_removal(RemovalRequest { address: a, observed: 4 });
    assert_eq!(t.get(a), Some(10));
    t.apply_removal(RemovalRequest { address: a, observed: 10 });
    assert_eq!(t.get(a), None);
}

#[test]
fn drain_then_ingest() {
    let mut t = FlowTable::new();
    let f = ipv4_frame([10, 0, 0, 1]);
    let a = v4_key(u32::from_be_bytes([10, 0, 0, 1]));
    let b = v4_key(u32::from_be_bytes([10, 0, 0, 2]));
    t.upsert(a, 0);
    t.upsert(b, 0);
    let pending = vec![
        RemovalRequest { address: a, observed: 0 },
        RemovalRequest { address: b, observed: 0 },
        RemovalRequest { address: a, observed: 0 },
    ];
    t.drain_removals(&pending);
    assert_eq!(t.len(), 0);
    assert_eq!(t.ingest_frame(&f, 20), Some(a));
    assert_eq!(t.get(a), Some(20));
    assert_eq!(t.get(b), None);
    assert_eq!(t.len(), 1);
}
