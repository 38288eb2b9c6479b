use openrgb_fade::hid::device_path;
use openrgb_fade::key_mappings::{keymap_file_name, keymap_file_name_lowered, KeyMapping};

#[test]
fn round_trip_mapping() {
    let cases: Vec<Vec<u16>> = vec![vec![0], vec![65535], vec![100, 200], vec![7, 7, 10, 9, 65535, 0, 1234]];
    for codes in cases {
        let m = KeyMapping::from(codes.clone());
        let text = m.as_file_string();
        let back = KeyMapping::parse_from_file(text).unwrap();
        assert_eq!(back.len(), codes.len());
        for (i, c) in codes.iter().enumerate() {
            assert_eq!(back.get_led(*c).map(|l| codes[l]), Some(*c));
            let _ = i;
        }
        assert_eq!(back.as_file_string(), m.as_file_string());
    }
}

#[test]
fn serialize_format() {
    assert_eq!(KeyMapping::from(vec![100, 200, 5]).as_file_string(), "100\n200\n5");
    assert_eq!(KeyMapping::from(vec![]).as_file_string(), "");
}

#[test]
fn parse_accepts_trailing_newline() {
    let m = KeyMapping::parse_from_file("1\n2\n".to_string()).unwrap();
    assert_eq!(m.as_file_string(), "1\n2");
    let p = KeyMapping::parse_from_file("+5\n07".to_string()).unwrap();
    assert_eq!(p.as_file_string(), "5\n7");
}

#[test]
fn parse_rejects_bad_lines() {
    for bad in ["", "\n", "1\n\n", "1\n\n2", "65536", "-1", "+", "1 ", "a", "1\r\n2", "1\n2\n\n"] {
        assert!(KeyMapping::parse_from_file(bad.to_string()).is_none(), "{:?}", bad);
    }
}

#[test]
fn lookup_first_match() {
    let m = KeyMapping::from(vec![5, 9, 5, 9]);
    assert_eq!(m.get_led(5), Some(0));
    assert_eq!(m.get_led(9), Some(1));
    assert_eq!(m.get_led(4), None);
    assert_eq!(KeyMapping::from(vec![]).get_led(0), None);
}

#[test]
fn keymap_names() {
    assert_eq!(keymap_file_name("Some Vendor", "Vulcan TKL Pro"), "some_vendor-vulcan_tkl_pro.keymap");
    assert_eq!(keymap_file_name_lowered("a b", "c"), "a_b-c.keymap");
    assert_eq!(keymap_file_name("", ""), "-.keymap");
}

#[test]
fn device_path_drops_prefix() {
    assert_eq!(device_path("HID: /dev/hidraw3"), "/dev/hidraw3");
    assert_eq!(device_path("/dev/hidraw1"), "/dev/hidraw1");
}
