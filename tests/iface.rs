use traffic_rs::iface::{name_score, select_by_traffic, select_interface, InterfaceInfo};

fn info(name: &str, up: bool) -> InterfaceInfo {
    InterfaceInfo { name: name.to_string(), is_loopback: name == "lo", is_up: up, has_addresses: true }
}

#[test]
fn scores() {
    assert_eq!(name_score("enp3s0"), 4);
    assert_eq!(name_score("eth0"), 4);
    assert_eq!(name_score("wlan0"), 3);
    assert_eq!(name_score("br0"), 0);
    assert_eq!(name_score("docker0"), 0);
    assert_eq!(name_score("veth12ab"), 0);
    assert_eq!(name_score("tun0"), 2);
    assert_eq!(name_score("e"), 2);
    assert_eq!(name_score(""), 2);
}

#[test]
fn wanted_name_is_taken_whatever_its_state() {
    let ifs = vec![info("lo", true), info("eth0", true), info("wg0", false)];
    assert_eq!(select_interface(&ifs, Some("wg0")), Some(2));
    assert_eq!(select_interface(&ifs, Some("missing")), None);
}

#[test]
fn best_score_wins_and_last_of_equals() {
    let ifs = vec![info("lo", true), info("wlan0", true), info("enp1s0", true), info("eth1", true), info("eth2", false)];
    assert_eq!(select_interface(&ifs, None), Some(3));
    let ifs = vec![info("lo", true), info("docker0", true)];
    assert_eq!(select_interface(&ifs, None), Some(1));
    let mut quiet = info("eth0", true);
    quiet.has_addresses = false;
    assert_eq!(select_interface(&[info("lo", true), quiet], None), None);
}

#[test]
fn busiest_interface_first_of_equals() {
    let ifs = vec![info("lo", true), info("eth0", true), info("wlan0", true), info("eth9", false)];
    let counters = vec![(u64::MAX, u64::MAX), (10, 5), (3, 12), (100, 100)];
    assert_eq!(select_by_traffic(&ifs, &counters), Some(1));
    let counters = vec![(0, 0), (0, 0), (0, 0), (100, 100)];
    assert_eq!(select_by_traffic(&ifs, &counters), None);
    let counters = vec![(0, 0), (1, 0), (u64::MAX, 1), (0, 0)];
    assert_eq!(select_by_traffic(&ifs, &counters), Some(2));
}
