use pro_dj_link_rs::common::{CDJDevice, Ipv4Addr};
use pro_dj_link_rs::discovery::{DeviceStore, TTL_NANOS};

const SECOND: u128 = 1_000_000_000;

fn device(name: &str, id: u8, ip: Ipv4Addr) -> CDJDevice {
    CDJDevice { name: name.to_string(), id, mac: [0, 1, 2, 3, 4, 5], ip, device_type: 2 }
}

fn lan(last: u8) -> Ipv4Addr {
    Ipv4Addr::new(192, 168, 1, last)
}

fn announce(id: u8) -> Vec<u8> {
    let mut b = vec![0u8; 54];
    b[..10].copy_from_slice(b"Qspt1WmJOL");
    b[10] = 0x06;
    b[0x0C..0x0C + 8].copy_from_slice(b"CDJ-2000");
    b[0x24] = id;
    b[0x26..0x2C].copy_from_slice(&[0, 1, 2, 3, 4, 5]);
    b[0x2C..0x30].copy_from_slice(&[192, 168, 1, 50]);
    b[0x34] = 2;
    b
}

#[test]
fn ttl_is_ten_seconds() {
    assert_eq!(TTL_NANOS, 10 * SECOND);
}

#[test]
fn new_key_is_fresh() {
    let mut s = DeviceStore::new();
    assert_eq!(s.len(), 0);
    assert!(s.upsert_at(device("a", 1, lan(10)), 0));
    assert_eq!(s.len(), 1);
    assert!(s.contains(lan(10), 1));
}

#[test]
fn repeat_within_ttl_is_duplicate() {
    let mut s = DeviceStore::new();
    assert!(s.upsert_at(device("a", 1, lan(10)), 0));
    assert!(!s.upsert_at(device("a", 1, lan(10)), 5 * SECOND));
    assert!(!s.upsert_at(device("a", 1, lan(10)), 15 * SECOND));
    assert_eq!(s.len(), 1);
}

#[test]
fn repeat_exactly_at_ttl_is_duplicate() {
    let mut s = DeviceStore::new();
    assert!(s.upsert_at(device("a", 1, lan(10)), 0));
    assert!(!s.upsert_at(device("a", 1, lan(10)), TTL_NANOS));
}

#[test]
fn repeat_after_ttl_is_fresh() {
    let mut s = DeviceStore::new();
    assert!(s.upsert_at(device("a", 1, lan(10)), 0));
    assert!(s.upsert_at(device("b", 1, lan(10)), TTL_NANOS + 1));
    assert_eq!(s.len(), 1);
}

#[test]
fn same_id_on_other_address_is_another_key() {
    let mut s = DeviceStore::new();
    assert!(s.upsert_at(device("a", 1, lan(10)), 0));
    assert!(s.upsert_at(device("b", 1, lan(11)), 0));
    assert!(s.upsert_at(device("c", 2, lan(10)), 0));
    assert_eq!(s.len(), 3);
}

#[test]
fn purge_drops_only_expired_entries() {
    let mut s = DeviceStore::new();
    s.upsert_at(device("old", 1, lan(10)), 0);
    s.upsert_at(device("new", 2, lan(10)), 5 * SECOND);
    s.upsert_at(device("edge", 3, lan(10)), 2 * SECOND);
    s.purge_stale_at(12 * SECOND);
    assert_eq!(s.len(), 2);
    assert!(!s.contains(lan(10), 1));
    assert!(s.contains(lan(10), 2));
    assert!(s.contains(lan(10), 3));
    s.purge_stale_at(12 * SECOND);
    assert_eq!(s.len(), 2);
    assert!(s.contains(lan(10), 2));
    assert!(s.contains(lan(10), 3));
}

#[test]
fn purged_key_is_fresh_again() {
    let mut s = DeviceStore::new();
    s.upsert_at(device("a", 1, lan(10)), 0);
    s.purge_stale_at(11 * SECOND);
    assert_eq!(s.len(), 0);
    assert!(s.upsert_at(device("a", 1, lan(10)), 11 * SECOND));
}

#[test]
fn clocked_upsert_and_purge() {
    let mut s = DeviceStore::new();
    assert!(s.upsert(device("a", 1, lan(10))));
    assert!(!s.upsert(device("a", 1, lan(10))));
    s.purge_stale();
    assert_eq!(s.len(), 1);
}

#[test]
fn three_packets_forward_two() {
    let mut s = DeviceStore::new();
    let a = s.handle_packet_at(&announce(1), 0);
    let b = s.handle_packet_at(&announce(2), SECOND);
    let c = s.handle_packet_at(&announce(1), 2 * SECOND);
    assert_eq!(a.expect("first sighting").id, 1);
    assert_eq!(b.expect("second device").id, 2);
    assert!(c.is_none());
}

#[test]
fn sighting_after_ttl_is_forwarded_again() {
    let mut s = DeviceStore::new();
    let a = s.handle_packet_at(&announce(1), 0);
    let b = s.handle_packet_at(&announce(1), 11 * SECOND);
    let a = a.expect("first sighting");
    let b = b.expect("rediscovery");
    assert_eq!(a.id, 1);
    assert_eq!(b.id, 1);
    assert_eq!(b.name, "CDJ-2000");
    assert_eq!(b.ip, Ipv4Addr::new(192, 168, 1, 50));
}

#[test]
fn foreign_payload_is_dropped_but_purges() {
    let mut s = DeviceStore::new();
    s.handle_packet_at(&announce(1), 0);
    assert_eq!(s.len(), 1);
    assert!(s.handle_packet_at(b"not an announcement", 20 * SECOND).is_none());
    assert_eq!(s.len(), 0);
}

#[test]
fn clocked_packets_forward_once() {
    let mut s = DeviceStore::new();
    assert!(s.handle_packet(&announce(7)).is_some());
    assert!(s.handle_packet(&announce(7)).is_none());
    assert!(s.handle_packet(&[0u8; 10]).is_none());
}
