use libdonet::datagram::Datagram;
use libdonet::datagram::DgError;

#[test]
fn u32_is_stored_little_endian() {
    let mut dg: Datagram = Datagram::new();
    assert!(dg.add_u32(0x01020304).is_ok());
    assert_eq!(dg.get_data(), vec![0x04, 0x03, 0x02, 0x01]);
}

#[test]
fn u16_and_u64_are_stored_little_endian() {
    let mut dg: Datagram = Datagram::new();
    assert!(dg.add_u16(0x0102).is_ok());
    assert!(dg.add_u64(0x0102030405060708).is_ok());
    assert_eq!(
        dg.get_data(),
        vec![0x02, 0x01, 0x08, 0x07, 0x06, 0x05, 0x04, 0x03, 0x02, 0x01]
    );
}

#[test]
fn bool_is_one_byte() {
    let mut dg: Datagram = Datagram::new();
    assert!(dg.add_bool(true).is_ok());
    assert!(dg.add_bool(false).is_ok());
    assert_eq!(dg.get_data(), vec![1, 0]);
}

#[test]
fn signed_values_use_twos_complement() {
    let mut dg: Datagram = Datagram::new();
    assert!(dg.add_i8(-1).is_ok());
    assert!(dg.add_i16(-2).is_ok());
    assert!(dg.add_i32(-3).is_ok());
    assert!(dg.add_i64(-4).is_ok());
    assert_eq!(
        dg.get_data(),
        vec![
            0xff, 0xfe, 0xff, 0xfd, 0xff, 0xff, 0xff, 0xfc, 0xff, 0xff, 0xff, 0xff, 0xff, 0xff,
            0xff
        ]
    );
}

#[test]
fn location_is_parent_then_zone() {
    let mut dg: Datagram = Datagram::new();
    assert!(dg.add_location(0x01020304, 0x0a0b0c0d).is_ok());
    assert_eq!(
        dg.get_data(),
        vec![0x04, 0x03, 0x02, 0x01, 0x0d, 0x0c, 0x0b, 0x0a]
    );
}

#[test]
fn channel_doid_zone_sizes() {
    let mut dg: Datagram = Datagram::new();
    assert!(dg.add_channel(1).is_ok());
    assert!(dg.add_doid(2).is_ok());
    assert!(dg.add_zone(3).is_ok());
    assert!(dg.add_size(4).is_ok());
    assert_eq!(dg.size(), 8 + 4 + 4 + 2);
}

#[test]
fn string_gets_a_length_prefix() {
    let mut dg: Datagram = Datagram::new();
    assert!(dg.add_string("abc").is_ok());
    assert_eq!(dg.get_data(), vec![0x03, 0x00, b'a', b'b', b'c']);
}

#[test]
fn blob_gets_a_length_prefix() {
    let mut dg: Datagram = Datagram::new();
    assert!(dg.add_blob(vec![9, 8]).is_ok());
    assert_eq!(dg.get_data(), vec![0x02, 0x00, 9, 8]);
}

#[test]
fn datagrams_concatenate() {
    let mut inner: Datagram = Datagram::new();
    assert!(inner.add_u16(0xbeef).is_ok());
    let mut outer: Datagram = Datagram::new();
    assert!(outer.add_u8(1).is_ok());
    assert!(outer.add_datagram(inner).is_ok());
    assert_eq!(outer.get_data(), vec![1, 0xef, 0xbe]);
}

#[test]
fn overflow_fails_and_leaves_buffer_unchanged() {
    let mut dg: Datagram = Datagram::new();
    assert!(dg.add_data(vec![0u8; 65534]).is_ok());
    assert_eq!(dg.size(), 65534);
    // two more bytes would pass the 65535-byte cap
    let res = dg.add_u16(0xffff);
    assert_eq!(res, Err(DgError::DatagramOverflow));
    assert_eq!(dg.size(), 65534);
    // one more byte exactly reaches the cap
    assert!(dg.add_u8(7).is_ok());
    assert_eq!(dg.size(), 65535);
    assert_eq!(dg.add_bool(true), Err(DgError::DatagramOverflow));
    assert_eq!(dg.size(), 65535);
}

#[test]
fn oversized_string_fails_before_writing() {
    let mut dg: Datagram = Datagram::new();
    let huge: String = "x".repeat(65536);
    assert_eq!(dg.add_string(&huge), Err(DgError::DatagramOverflow));
    assert_eq!(dg.size(), 0);
    let blob: Vec<u8> = vec![0u8; 65536];
    assert_eq!(dg.add_blob(blob), Err(DgError::DatagramOverflow));
    assert_eq!(dg.size(), 0);
}

#[test]
fn string_needing_more_than_the_cap_is_atomic() {
    let mut dg: Datagram = Datagram::new();
    assert!(dg.add_data(vec![0u8; 65000]).is_ok());
    // 2 tag bytes + 600 content bytes would exceed the cap
    let long: String = "y".repeat(600);
    assert_eq!(dg.add_string(&long), Err(DgError::DatagramOverflow));
    assert_eq!(dg.size(), 65000);
}
