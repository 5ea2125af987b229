use traffic_rs::lanes::{braille_char, dominant_proto, Lane, LaneGrid, Row, CHAR_HEIGHT, PIXEL_ROWS};
use traffic_rs::proto::{Direction, PacketEvent, Proto};

const IDLE: &str = "<span size='small' color='#313244'>\u{b7}</span>";

fn ev(proto: Proto, direction: Direction, fast: bool) -> PacketEvent {
    PacketEvent { proto, direction, fast }
}

fn empty() -> Row {
    Row { inbound: None, outbound: None }
}

#[test]
fn new_lane_is_empty() {
    let l = Lane::new();
    assert_eq!(l.len(), PIXEL_ROWS);
    for i in 0..PIXEL_ROWS {
        assert_eq!(l.row(i), empty());
    }
}

#[test]
fn shift_moves_rows_older() {
    let mut l = Lane::new();
    l.stamp(ev(Proto::Dns, Direction::In, false));
    l.shift();
    assert_eq!(l.row(0), empty());
    assert_eq!(l.row(1), Row { inbound: Some(Proto::Dns), outbound: None });
    assert_eq!(l.len(), PIXEL_ROWS);
}

#[test]
fn events_go_to_their_lane_and_side() {
    let mut g = LaneGrid::new();
    g.tick(&[
        ev(Proto::Https, Direction::Out, false),
        ev(Proto::Dns, Direction::In, false),
        ev(Proto::Arp, Direction::Undirected, false),
    ]);
    assert_eq!(g.row(0, 0), Row { inbound: None, outbound: Some(Proto::Https) });
    assert_eq!(g.row(1, 0), Row { inbound: Some(Proto::Dns), outbound: None });
    assert_eq!(g.row(2, 0), Row { inbound: Some(Proto::Arp), outbound: Some(Proto::Arp) });
    assert_eq!(g.row(0, 1), empty());
}

#[test]
fn fast_event_also_fills_the_next_row() {
    let mut g = LaneGrid::new();
    g.tick(&[ev(Proto::Tcp, Direction::In, true)]);
    assert_eq!(g.row(0, 0), Row { inbound: Some(Proto::Tcp), outbound: None });
    assert_eq!(g.row(0, 1), Row { inbound: Some(Proto::Tcp), outbound: Some(Proto::Tcp) });
    g.tick(&[]);
    assert_eq!(g.row(0, 0), empty());
    assert_eq!(g.row(0, 2), Row { inbound: Some(Proto::Tcp), outbound: Some(Proto::Tcp) });
}

#[test]
fn later_events_overwrite_earlier_ones_in_a_tick() {
    let mut g = LaneGrid::new();
    g.tick(&[ev(Proto::Tcp, Direction::In, false), ev(Proto::Ssh, Direction::In, false)]);
    assert_eq!(g.row(0, 0), Row { inbound: Some(Proto::Ssh), outbound: None });
}

#[test]
fn rows_clear_after_enough_idle_ticks() {
    let mut g = LaneGrid::new();
    g.tick(&[ev(Proto::Tcp, Direction::Undirected, true), ev(Proto::Udp, Direction::Out, true)]);
    for _ in 0..127 {
        g.tick(&[]);
    }
    assert_eq!(g.row(0, 127), Row { inbound: Some(Proto::Tcp), outbound: Some(Proto::Tcp) });
    assert_eq!(g.row(1, 127), Row { inbound: None, outbound: Some(Proto::Udp) });
    assert_eq!(g.row(0, 126), empty());
    g.tick(&[]);
    for k in 0..3 {
        for i in 0..PIXEL_ROWS {
            assert_eq!(g.row(k, i), empty());
        }
    }
}

#[test]
fn braille_dot_mapping() {
    assert_eq!(braille_char(false, false, false, false, false, false, false, false), '\u{2800}');
    assert_eq!(braille_char(true, false, false, false, false, false, false, false), '\u{2801}');
    assert_eq!(braille_char(false, true, false, false, false, false, false, false), '\u{2808}');
    assert_eq!(braille_char(false, false, true, false, false, false, false, false), '\u{2802}');
    assert_eq!(braille_char(false, false, false, true, false, false, false, false), '\u{2810}');
    assert_eq!(braille_char(false, false, false, false, true, false, false, false), '\u{2804}');
    assert_eq!(braille_char(false, false, false, false, false, true, false, false), '\u{2820}');
    assert_eq!(braille_char(false, false, false, false, false, false, true, false), '\u{2840}');
    assert_eq!(braille_char(false, false, false, false, false, false, false, true), '\u{2880}');
    assert_eq!(braille_char(true, true, true, true, true, true, true, true), '\u{28ff}');
}

#[test]
fn dominant_is_most_frequent() {
    let cells = [Some(Proto::Dns), Some(Proto::Udp), Some(Proto::Dns), None, None, None, None, Some(Proto::Udp)];
    assert_eq!(dominant_proto(&cells[..2]), Proto::Udp);
    assert_eq!(dominant_proto(&cells[..3]), Proto::Dns);
    assert_eq!(dominant_proto(&[None, Some(Proto::Arp), None]), Proto::Arp);
}

#[test]
fn dominant_tie_goes_to_earlier_tag() {
    assert_eq!(dominant_proto(&[Some(Proto::Ssh), Some(Proto::Tcp)]), Proto::Tcp);
    assert_eq!(dominant_proto(&[Some(Proto::Other), Some(Proto::Icmp)]), Proto::Icmp);
}

#[test]
fn dominant_of_empty_is_other() {
    assert_eq!(dominant_proto(&[None, None]), Proto::Other);
    assert_eq!(dominant_proto(&[]), Proto::Other);
}

#[test]
fn render_empty_grid() {
    let g = LaneGrid::new();
    let line = format!("{IDLE}{IDLE}{IDLE}");
    let expected = vec![line; CHAR_HEIGHT].join("\n");
    assert_eq!(g.render(), expected);
}

#[test]
fn render_one_glyph() {
    let mut g = LaneGrid::new();
    g.tick(&[ev(Proto::Dns, Direction::Out, true)]);
    let out = g.render();
    let first = out.lines().next().unwrap().to_string();
    // Dots 4 (row 0 outbound), 2 and 5 (row 1 both sides).
    assert_eq!(first, format!("{IDLE}<span size='small' color='#8ad6ff'>\u{281a}</span>{IDLE}"));
    assert_eq!(out.lines().count(), CHAR_HEIGHT);
    assert!(!out.ends_with('\n'));
}
