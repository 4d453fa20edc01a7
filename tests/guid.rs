use kademlia::guid::{GUID, GUID_LEN};
use kademlia::node::Location;

#[test]
fn guid_of_empty_seed_is_sha256_of_nothing() {
    let g = GUID::new(String::new());
    assert_eq!(
        g.to_hex(),
        "e3b0c44298fc1c149afbf4c8996fb92427ae41e4649b934ca495991b7852b855"
    );
}

#[test]
fn guid_hex_round_trip() {
    let mut bytes = [0u8; GUID_LEN];
    for (i, b) in bytes.iter_mut().enumerate() {
        *b = (i as u8).wrapping_mul(37);
    }
    for id in [GUID(bytes), GUID([0; GUID_LEN]), GUID([0xff; GUID_LEN]), GUID::new("k".to_string())] {
        let h = id.to_hex();
        assert_eq!(h.len(), 64);
        assert_eq!(GUID::from_hex(h), id);
    }
}

#[test]
fn to_hex_digits() {
    let mut bytes = [0u8; GUID_LEN];
    bytes[0] = 0xab;
    bytes[1] = 0x05;
    let h = GUID(bytes).to_hex();
    assert!(h.starts_with("ab05"));
    assert!(h[4..].chars().all(|c| c == '0'));
}

#[test]
fn from_hex_pads_and_reads_upper_case() {
    let g = GUID::from_hex("ABff".to_string());
    let mut expected = [0u8; GUID_LEN];
    expected[0] = 0xab;
    expected[1] = 0xff;
    assert_eq!(g, GUID(expected));
}

#[test]
fn location_addr_and_id() {
    let l = Location::new("127.0.0.1".to_string(), 8000);
    assert_eq!(l.addr(), "127.0.0.1:8000");
    assert_eq!(l.id, GUID::new("127.0.0.1:8000".to_string()));
    assert_eq!(l.port, 8000);
    let z = Location::new("h".to_string(), 0);
    assert_eq!(z.addr(), "h:0");
}

#[test]
fn location_from_addr() {
    let l = Location::from_addr("127.0.0.1:8000").unwrap();
    assert_eq!(l.ip, "127.0.0.1");
    assert_eq!(l.port, 8000);
    assert_eq!(l.id, GUID::new("127.0.0.1:8000".to_string()));
    assert_eq!(l, Location::new("127.0.0.1".to_string(), 8000));
    let p = Location::from_addr("h:+65535").unwrap();
    assert_eq!(p.port, 65535);
    assert_eq!(p.ip, "h");
}

#[test]
fn location_from_bad_addr() {
    assert!(Location::from_addr("localhost").is_none());
    assert!(Location::from_addr("a:b:1").is_none());
    assert!(Location::from_addr("a:").is_none());
    assert!(Location::from_addr("a:65536").is_none());
    assert!(Location::from_addr("a:-1").is_none());
    assert!(Location::from_addr("").is_none());
}
