use traffic_rs::stats::{byte_rate, dev_line_counters, device_counters, format_bytes, push_decimal};

#[test]
fn rates() {
    assert_eq!(byte_rate(100, 1100, 500), 2000);
    assert_eq!(byte_rate(100, 1100, 3000), 333);
    assert_eq!(byte_rate(100, 50, 500), 0);
    assert_eq!(byte_rate(100, 200, 0), 0);
    assert_eq!(byte_rate(0, u64::MAX, 1), u64::MAX);
}

#[test]
fn formats() {
    assert_eq!(format_bytes(0), "0");
    assert_eq!(format_bytes(512), "512");
    assert_eq!(format_bytes(1023), "1023");
    assert_eq!(format_bytes(1024), "1.0K");
    assert_eq!(format_bytes(1280), "1.2K");
    assert_eq!(format_bytes(1536), "1.5K");
    assert_eq!(format_bytes(10239), "10.0K");
    assert_eq!(format_bytes(10240), "10K");
    assert_eq!(format_bytes(10752), "10K");
    assert_eq!(format_bytes(11776), "12K");
    assert_eq!(format_bytes(1 << 20), "1.0M");
    assert_eq!(format_bytes(5 << 40), "5.0T");
    assert_eq!(format_bytes(u64::MAX), "16777216T");
}

#[test]
fn decimals() {
    let mut s = String::from("pps: ");
    push_decimal(&mut s, 0);
    assert_eq!(s, "pps: 0");
    let mut s = String::new();
    push_decimal(&mut s, 18_446_744_073_709_551_615);
    assert_eq!(s, "18446744073709551615");
}

const LINE: &str = "  eth0: 1234      10    0    0    0     0          0         0     5678      20    0    0    0     0       0          0";

#[test]
fn dev_line_with_separate_colon() {
    assert_eq!(dev_line_counters(LINE, "eth0"), Some((1234, 5678)));
    assert_eq!(dev_line_counters(LINE, "wlan0"), None);
}

#[test]
fn dev_line_with_glued_name() {
    // The first field does not end in ':', so the counters are read one field later.
    let line = "eth0:1234 10 11 0 0 0 0 0 5678 20 21 0 0 0 0 0";
    assert_eq!(dev_line_counters(line, "eth0"), Some((11, 21)));
}

#[test]
fn dev_line_short_or_garbled() {
    assert_eq!(dev_line_counters("eth0: 1 2 3 4 5 6 7 8", "eth0"), None);
    assert_eq!(dev_line_counters("eth0: x 2 3 4 5 6 7 8 y", "eth0"), Some((0, 0)));
    assert_eq!(dev_line_counters("eth0: +7 2 3 4 5 6 7 8 99999999999999999999", "eth0"), Some((7, 0)));
}

#[test]
fn device_table() {
    let table = vec![
        "Inter-|   Receive                                                |  Transmit".to_string(),
        " face |bytes    packets errs drop fifo frame compressed multicast|bytes    packets errs drop fifo colls carrier compressed".to_string(),
        "    lo:  999   9    0    0    0     0          0         0      999   9    0    0    0     0       0          0".to_string(),
        LINE.to_string(),
    ];
    assert_eq!(device_counters(&table, "eth0"), (1234, 5678));
    assert_eq!(device_counters(&table, "lo"), (999, 999));
    assert_eq!(device_counters(&table, "wlan0"), (0, 0));
}
