use traffic_rs::particles::{
    particle_color, proto_offset, proto_speed, Particle, ParticleSystem, Rgba, XorShift32,
    DEFAULT_SEED, MAX_PARTICLES,
};
use traffic_rs::proto::{Direction, PacketEvent, Proto};

fn ev(proto: Proto, direction: Direction, fast: bool) -> PacketEvent {
    PacketEvent { proto, direction, fast }
}

#[test]
fn xorshift_sequence() {
    let mut r = XorShift32::new(DEFAULT_SEED);
    assert_eq!(r.next_u32(), 0x8798_5aa5);
    assert_eq!(r.next_u32(), 0x155b_24a3);
}

#[test]
fn rand_unit_in_parts_per_million() {
    let mut r = XorShift32::new(DEFAULT_SEED);
    assert_eq!(r.rand_unit(), 529_668);
    assert_eq!(r.rand_unit(), 83_421);
    let mut z = XorShift32::new(0);
    assert_eq!(z.rand_unit(), 100);
}

#[test]
fn spawn_position_speed_and_color() {
    let mut s = ParticleSystem::new(DEFAULT_SEED);
    s.spawn_particle(ev(Proto::Tcp, Direction::In, false), 900);
    assert_eq!(s.len(), 1);
    let p = s.get(0);
    assert_eq!(
        p,
        Particle { x: 56_225, y: -10_000, vy: 190_010, color: Rgba { r: 950, g: 550, b: 620, a: 950 } }
    );
}

#[test]
fn spawn_stays_inside_its_band() {
    let mut s = ParticleSystem::new(7);
    for i in 0..300 {
        let dir = [Direction::In, Direction::Out, Direction::Undirected][i % 3];
        let proto = [Proto::Mdns, Proto::Ssdp, Proto::Other, Proto::Http][i % 4];
        s.spawn_particle(ev(proto, dir, i % 2 == 0), 36 + i as u32);
        let w = (36 + i as i64) * 1000 / 3;
        let lane = traffic_rs::proto::proto_lane(proto) as i64;
        let p = s.get(s.len() - 1);
        assert!(p.x >= lane * w + 6000 && p.x <= lane * w + w - 6000);
        assert!(p.vy >= 162_000 && p.vy <= 600_000);
    }
}

#[test]
fn fast_particles_fall_faster() {
    let mut a = ParticleSystem::new(DEFAULT_SEED);
    let mut b = ParticleSystem::new(DEFAULT_SEED);
    a.spawn_particle(ev(Proto::Udp, Direction::Out, true), 900);
    b.spawn_particle(ev(Proto::Udp, Direction::Out, false), 900);
    assert_eq!(a.get(0).vy, b.get(0).vy + 180_000);
}

#[test]
fn pool_is_capped_oldest_first() {
    let mut s = ParticleSystem::new(DEFAULT_SEED);
    s.spawn_particle(ev(Proto::Arp, Direction::Undirected, false), 900);
    for _ in 0..MAX_PARTICLES {
        s.spawn_particle(ev(Proto::Tcp, Direction::In, false), 900);
        assert!(s.len() <= MAX_PARTICLES);
    }
    assert_eq!(s.len(), MAX_PARTICLES);
    for i in 0..s.len() {
        assert_ne!(s.get(i).color, particle_color(Proto::Arp));
    }
}

#[test]
fn advance_moves_and_drops_from_the_front() {
    let mut s = ParticleSystem::new(DEFAULT_SEED);
    s.spawn_particle(ev(Proto::Tcp, Direction::In, false), 900);
    s.advance(1_000_000, 600);
    assert_eq!(s.get(0).y, -10_000 + 190_010);
    s.advance(2_000_000, 600);
    assert_eq!(s.get(0).y, 180_010 + 380_020);
    s.advance(1_000_000, 600);
    assert_eq!(s.len(), 0);
}

#[test]
fn idle_pool_shrinks_to_zero() {
    let mut s = ParticleSystem::new(11);
    for i in 0..500 {
        s.spawn_particle(ev([Proto::Tcp, Proto::Dns, Proto::Arp][i % 3], Direction::Out, i % 5 == 0), 900);
    }
    let mut prev = s.len();
    let mut steps = 0;
    while s.len() > 0 {
        s.advance(16_000, 600);
        assert!(s.len() <= prev);
        prev = s.len();
        steps += 1;
        assert!(steps < 1000);
    }
}

#[test]
fn tables() {
    assert_eq!(proto_offset(Proto::Mdns), -320);
    assert_eq!(proto_offset(Proto::Ssdp), 300);
    assert_eq!(proto_speed(Proto::Quic), 1250);
    assert_eq!(proto_speed(Proto::Arp), 900);
    assert_eq!(particle_color(Proto::Other), Rgba { r: 750, g: 750, b: 800, a: 900 });
}
