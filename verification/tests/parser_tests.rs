use netmap::is_valid_mac;
use netmap::mac_from_bytes;
use netmap::parse_device_data;
use netmap::parse_mac;
use netmap::parse_port_data;
use netmap::DeviceDataFormat;
use netmap::ExpireSet;
use netmap::PortDataFormat;
use netmap::SEEN_TTL;

fn sorted_items(s: &ExpireSet) -> Vec<u64> {
    let mut v = s.iter();
    v.sort();
    v
}

#[test]
fn mac_from_bytes_packs_big_endian() {
    let b = vec![0xaa, 0xbb, 0xcc, 0xdd, 0xee, 0xff];
    assert_eq!(mac_from_bytes(&b), 0xaabbccddeeff);
}

#[test]
fn parse_mac_reads_colon_form() {
    assert_eq!(parse_mac(b"aa:bb:cc:dd:ee:ff"), Some(0xaabbccddeeff));
    assert_eq!(parse_mac(b"00:11:22:33:44:55"), Some(0x001122334455));
    assert_eq!(parse_mac(b"not an address"), None);
    assert_eq!(parse_mac(b""), None);
}

#[test]
fn valid_macs_are_universal_unicast() {
    assert!(is_valid_mac(0x001122334455));
    // multicast bit set
    assert!(!is_valid_mac(0x011122334455));
    // locally-administered bit set
    assert!(!is_valid_mac(0x021122334455));
}

#[test]
fn port_report_takes_qualifying_lines() {
    let data = b"aa:bb:cc:dd:ee:ff\nnoise\nbb:bb:bb:bb:bb:02\naabbccddeeff00112\n";
    let set = parse_port_data(data, PortDataFormat::HostApd, 1000);
    assert_eq!(
        sorted_items(&set),
        vec![0xaabbccddeeff, 0xbbbbbbbbbb02]
    );
    for (_, e) in set.to_pairs() {
        assert_eq!(e, 1000 + SEEN_TTL);
    }
}

#[test]
fn port_report_requires_exact_line_shape() {
    // wrong length, and 17 bytes without the colon third: both skipped
    let data = b"aa:bb:cc:dd:ee:ff:00\nabcdefghijklmnopq";
    let set = parse_port_data(data, PortDataFormat::HostApd, 0);
    assert!(set.is_empty());
}

#[test]
fn forwarding_db_groups_by_port() {
    let data = b"00:11:22:33:44:55 dev lan1\n00:11:22:33:44:66 dev lan1\n00:11:22:33:44:77 dev wan0\n";
    let mut report = parse_device_data(data, DeviceDataFormat::ForwardDb, 50);
    report.sort_by(|a, b| a.0.cmp(&b.0));
    assert_eq!(report.len(), 2);
    assert_eq!(report[0].0, b"lan1".to_vec());
    assert_eq!(
        sorted_items(&report[0].1),
        vec![0x001122334455, 0x001122334466]
    );
    assert_eq!(report[1].0, b"wan0".to_vec());
    assert_eq!(sorted_items(&report[1].1), vec![0x001122334477]);
}

#[test]
fn forwarding_db_skips_own_and_invalid_entries() {
    let data = b"00:11:22:33:44:55 dev lan1 self\n\
00:11:22:33:44:66 dev lan1 permanent\n\
01:00:5e:00:00:01 dev lan1\n\
02:11:22:33:44:55 dev lan1\n\
00:11:22:33:44:77 lan1\n\
00:11:22:33:44:88 dev lan1 extra flags\n";
    let report = parse_device_data(data, DeviceDataFormat::ForwardDb, 0);
    assert_eq!(report.len(), 1);
    assert_eq!(report[0].0, b"lan1".to_vec());
    // only the last line passes: no stale flag, universal unicast, `dev` present
    assert_eq!(sorted_items(&report[0].1), vec![0x001122334488]);
}

#[test]
fn switch_table_trims_port_colons() {
    let data = b"Port 3: MAC 00:11:22:33:44:55\nPort 3: MAC 00:11:22:33:44:66\nPort 4 MAC 00:11:22:33:44:77\n";
    let mut report = parse_device_data(data, DeviceDataFormat::SwConfig, 7);
    report.sort_by(|a, b| a.0.cmp(&b.0));
    assert_eq!(report.len(), 2);
    assert_eq!(report[0].0, b"3".to_vec());
    assert_eq!(
        sorted_items(&report[0].1),
        vec![0x001122334455, 0x001122334466]
    );
    // a port token without trailing colons is taken as it stands
    assert_eq!(report[1].0, b"4".to_vec());
    assert_eq!(sorted_items(&report[1].1), vec![0x001122334477]);
}

#[test]
fn switch_table_requires_labels() {
    let data = b"Slot 3: MAC 00:11:22:33:44:55\nPort 3: HW 00:11:22:33:44:66\n";
    let report = parse_device_data(data, DeviceDataFormat::SwConfig, 7);
    assert!(report.is_empty());
}
