//! The particle display: a bounded first-in first-out pool of falling points, one
//! spawned per event, in fixed point.
//!
//! Lengths are in thousandths of a pixel, speeds in thousandths of a pixel per
//! second, times in microseconds, and table factors in thousandths.
use vstd::prelude::*;

use crate::proto::{lane_of, proto_lane, Direction, PacketEvent, Proto};

verus! {

/// Most particles alive at once; a spawn beyond it drops the oldest.
pub const MAX_PARTICLES: usize = 2000;

/// Height at which particles appear: ten pixels above the top edge.
pub const SPAWN_Y: i64 = -10_000;

/// Distance below the bottom edge at which a particle leaves.
pub const EXIT_MARGIN: i64 = 10_000;

/// Ceiling of a particle's height; it lies below the bottom edge of any viewport.
pub const Y_CAP: i64 = 1_000_000_000_000_000;

/// Narrowest viewport, in pixels, whose bands leave room for the 6-pixel margins.
pub const MIN_WIDTH: u32 = 36;

/// Bounds of the falling speed that a spawn gives.
pub const VY_MIN: i64 = 162_000;

pub const VY_MAX: i64 = 600_000;

/// Colour as red, green, blue and opacity, each in thousandths.
#[derive(Debug, Clone, Copy, PartialEq, Eq, Structural)]
pub struct Rgba {
    pub r: u16,
    pub g: u16,
    pub b: u16,
    pub a: u16,
}

/// One falling point.
#[derive(Debug, Clone, Copy, PartialEq, Eq, Structural)]
pub struct Particle {
    pub x: i64,
    pub y: i64,
    pub vy: i64,
    pub color: Rgba,
}

pub open spec fn rgba(r: u16, g: u16, b: u16, a: u16) -> Rgba {
    Rgba { r, g, b, a }
}

pub open spec fn color_of(p: Proto) -> Rgba {
    match p {
        Proto::Tcp => rgba(950, 550, 620, 950),
        Proto::Http => rgba(980, 780, 550, 950),
        Proto::Https => rgba(880, 650, 950, 950),
        Proto::Ssh => rgba(720, 920, 760, 950),
        Proto::Udp => rgba(540, 710, 980, 950),
        Proto::Dns => rgba(620, 860, 980, 950),
        Proto::Mdns => rgba(450, 800, 950, 950),
        Proto::Quic => rgba(400, 750, 950, 950),
        Proto::Dhcp => rgba(950, 900, 600, 950),
        Proto::Ntp => rgba(800, 850, 950, 950),
        Proto::Ssdp => rgba(950, 750, 500, 950),
        Proto::Stun => rgba(600, 950, 850, 950),
        Proto::Turn => rgba(550, 950, 700, 950),
        Proto::Icmp => rgba(660, 900, 620, 950),
        Proto::Icmpv6 => rgba(550, 850, 580, 950),
        Proto::Arp => rgba(950, 700, 600, 950),
        Proto::Other => rgba(750, 750, 800, 900),
    }
}

/// Particle colour of a tag.
pub fn particle_color(proto: Proto) -> (r: Rgba)
    ensures
        r == color_of(proto),
{
    match proto {
        Proto::Tcp => Rgba { r: 950, g: 550, b: 620, a: 950 },
        Proto::Http => Rgba { r: 980, g: 780, b: 550, a: 950 },
        Proto::Https => Rgba { r: 880, g: 650, b: 950, a: 950 },
        Proto::Ssh => Rgba { r: 720, g: 920, b: 760, a: 950 },
        Proto::Udp => Rgba { r: 540, g: 710, b: 980, a: 950 },
        Proto::Dns => Rgba { r: 620, g: 860, b: 980, a: 950 },
        Proto::Mdns => Rgba { r: 450, g: 800, b: 950, a: 950 },
        Proto::Quic => Rgba { r: 400, g: 750, b: 950, a: 950 },
        Proto::Dhcp => Rgba { r: 950, g: 900, b: 600, a: 950 },
        Proto::Ntp => Rgba { r: 800, g: 850, b: 950, a: 950 },
        Proto::Ssdp => Rgba { r: 950, g: 750, b: 500, a: 950 },
        Proto::Stun => Rgba { r: 600, g: 950, b: 850, a: 950 },
        Proto::Turn => Rgba { r: 550, g: 950, b: 700, a: 950 },
        Proto::Icmp => Rgba { r: 660, g: 900, b: 620, a: 950 },
        Proto::Icmpv6 => Rgba { r: 550, g: 850, b: 580, a: 950 },
        Proto::Arp => Rgba { r: 950, g: 700, b: 600, a: 950 },
        Proto::Other => Rgba { r: 750, g: 750, b: 800, a: 900 },
    }
}

pub open spec fn offset_of(p: Proto) -> int {
    match p {
        Proto::Tcp => -150,
        Proto::Http => -250,
        Proto::Https => 50,
        Proto::Ssh => 220,
        Proto::Udp => 0,
        Proto::Dns => -200,
        Proto::Mdns => -320,
        Proto::Quic => 240,
        Proto::Dhcp => 120,
        Proto::Ntp => -50,
        Proto::Ssdp => 300,
        Proto::Stun => -120,
        Proto::Turn => 180,
        Proto::Icmp => -180,
        Proto::Icmpv6 => 180,
        Proto::Arp => 0,
        Proto::Other => 120,
    }
}

/// Horizontal shift of a tag's particles, in thousandths of the band width.
pub fn proto_offset(proto: Proto) -> (r: i64)
    ensures
        r == offset_of(proto),
        -1000 < r < 1000,
{
    match proto {
        Proto::Tcp => -150,
        Proto::Http => -250,
        Proto::Https => 50,
        Proto::Ssh => 220,
        Proto::Udp => 0,
        Proto::Dns => -200,
        Proto::Mdns => -320,
        Proto::Quic => 240,
        Proto::Dhcp => 120,
        Proto::Ntp => -50,
        Proto::Ssdp => 300,
        Proto::Stun => -120,
        Proto::Turn => 180,
        Proto::Icmp => -180,
        Proto::Icmpv6 => 180,
        Proto::Arp => 0,
        Proto::Other => 120,
    }
}

pub open spec fn speed_of(p: Proto) -> int {
    match p {
        Proto::Tcp => 1000,
        Proto::Http => 1100,
        Proto::Https => 950,
        Proto::Ssh => 1050,
        Proto::Udp => 1000,
        Proto::Dns => 1200,
        Proto::Mdns => 1150,
        Proto::Quic => 1250,
        Proto::Dhcp => 1100,
        Proto::Ntp => 1100,
        Proto::Ssdp => 1000,
        Proto::Stun => 1200,
        Proto::Turn => 1150,
        Proto::Icmp => 1050,
        Proto::Icmpv6 => 1050,
        Proto::Arp => 900,
        Proto::Other => 950,
    }
}

/// Speed factor of a tag's particles, in thousandths.
pub fn proto_speed(proto: Proto) -> (r: i64)
    ensures
        r == speed_of(proto),
        900 <= r <= 1250,
{
    match proto {
        Proto::Tcp => 1000,
        Proto::Http => 1100,
        Proto::Https => 950,
        Proto::Ssh => 1050,
        Proto::Udp => 1000,
        Proto::Dns => 1200,
        Proto::Mdns => 1150,
        Proto::Quic => 1250,
        Proto::Dhcp => 1100,
        Proto::Ntp => 1100,
        Proto::Ssdp => 1000,
        Proto::Stun => 1200,
        Proto::Turn => 1150,
        Proto::Icmp => 1050,
        Proto::Icmpv6 => 1050,
        Proto::Arp => 900,
        Proto::Other => 950,
    }
}

/// One xorshift32 step: shifts of 13 left, 17 right, 5 left.
pub open spec fn xorshift(v: u32) -> u32 {
    let a = v ^ (v << 13u32);
    let b = a ^ (a >> 17u32);
    b ^ (b << 5u32)
}

/// A draw scaled to parts per million of `u32::MAX`, never below 100.
pub open spec fn unit_ppm(v: u32) -> i64 {
    let u = v as int * 1_000_000 / 0xffff_ffff;
    if u < 100 {
        100
    } else {
        u as i64
    }
}

/// Deterministic xorshift32 generator, used for spawn jitter and speed variance only.
pub struct XorShift32 {
    state: u32,
}

pub const DEFAULT_SEED: u32 = 0x1234_5678;

impl XorShift32 {
    pub closed spec fn state(&self) -> u32 {
        self.state
    }

    /// A generator starting from `seed`.
    pub fn new(seed: u32) -> (r: XorShift32)
        ensures
            r.state() == seed,
    {
        XorShift32 { state: seed }
    }

    /// Advances the generator and returns the new state.
    pub fn next_u32(&mut self) -> (r: u32)
        ensures
            r == xorshift(old(self).state()),
            final(self).state() == r,
    {
        let mut v = self.state;
        v ^= v << 13u32;
        v ^= v >> 17u32;
        v ^= v << 5u32;
        self.state = v;
        v
    }

    /// The next draw in (0, 1], as parts per million, at least 100.
    pub fn rand_unit(&mut self) -> (r: i64)
        ensures
            final(self).state() == xorshift(old(self).state()),
            r == unit_ppm(final(self).state()),
            100 <= r <= 1_000_000,
    {
        let v = self.next_u32();
        let u = (v as u64) * 1_000_000 / 0xffff_ffff;
        if u < 100 {
            100
        } else {
            u as i64
        }
    }
}

/// Width of one of the three bands.
pub open spec fn band_width(width: u32) -> i64 {
    (width as int * 1000 / 3) as i64
}

pub open spec fn clamp(v: int, lo: int, hi: int) -> int {
    if v < lo {
        lo
    } else if v > hi {
        hi
    } else {
        v
    }
}

/// `w * k / 1000`, rounded toward zero.
pub open spec fn thousandths(w: int, k: int) -> int {
    if k >= 0 {
        w * k / 1000
    } else {
        -(w * (-k) / 1000)
    }
}

/// Horizontal position of a new particle: in its group's band, left of centre when
/// inbound, right when outbound, centred when undirected; then the tag's offset and
/// a jitter of up to an eighth of the band either way; then kept 6 pixels inside the
/// band.
pub open spec fn spawn_x(e: PacketEvent, width: u32, jitter_ppm: i64) -> int {
    let w = band_width(width) as int;
    let x0 = lane_of(e.proto) * w;
    let x1 = x0 + w;
    let base = match e.direction {
        Direction::In => x0 + w * 330 / 1000,
        Direction::Out => x0 + w * 660 / 1000,
        Direction::Undirected => (x0 + x1) / 2,
    };
    let jitter = if jitter_ppm >= 500_000 {
        (w / 4) * (jitter_ppm - 500_000) / 1_000_000
    } else {
        -((w / 4) * (500_000 - jitter_ppm) / 1_000_000)
    };
    clamp(base + thousandths(w, offset_of(e.proto)) + jitter, x0 + 6000, x1 - 6000)
}

/// Falling speed of a new particle: 360 px/s when fast, 180 px/s otherwise, plus up
/// to 120 px/s at random, scaled by the tag's factor.
pub open spec fn spawn_vy(e: PacketEvent, speed_ppm: i64) -> int {
    let base = if e.fast {
        360_000int
    } else {
        180_000int
    };
    (base + 120_000 * speed_ppm / 1_000_000) * speed_of(e.proto) / 1000
}

pub open spec fn spawned(e: PacketEvent, width: u32, jitter_ppm: i64, speed_ppm: i64) -> Particle {
    Particle {
        x: spawn_x(e, width, jitter_ppm) as i64,
        y: SPAWN_Y,
        vy: spawn_vy(e, speed_ppm) as i64,
        color: color_of(e.proto),
    }
}

/// The pool after appending `p`: the oldest particle goes when the cap is passed.
pub open spec fn pushed(s: Seq<Particle>, p: Particle) -> Seq<Particle> {
    if s.len() + 1 > MAX_PARTICLES {
        s.push(p).drop_first()
    } else {
        s.push(p)
    }
}

/// A particle after `dt` microseconds of fall.
pub open spec fn advanced(p: Particle, dt: u32) -> Particle {
    let y = p.y + p.vy * dt / 1_000_000;
    Particle { y: if y > Y_CAP { Y_CAP } else { y as i64 }, ..p }
}

/// Lowest height at which a particle is still in a viewport of this height.
pub open spec fn bottom(height: u32) -> int {
    height as int * 1000 + EXIT_MARGIN
}

/// Drops particles from the front while they are past the bottom edge; the front
/// is the oldest, the first to leave.
pub open spec fn drop_exited(s: Seq<Particle>, height: u32) -> Seq<Particle>
    decreases s.len(),
{
    if s.len() > 0 && s[0].y > bottom(height) {
        drop_exited(s.drop_first(), height)
    } else {
        s
    }
}

pub open spec fn particle_ok(p: Particle) -> bool {
    &&& SPAWN_Y <= p.y <= Y_CAP
    &&& VY_MIN <= p.vy <= VY_MAX
}

/// The pool is within its cap and every particle is in range.
pub open spec fn pool_ok(s: Seq<Particle>) -> bool {
    &&& s.len() <= MAX_PARTICLES
    &&& forall|i: int| 0 <= i < s.len() ==> #[trigger] particle_ok(s[i])
}

/// Widest band: that of the widest viewport.
pub const BAND_MAX: i64 = 1_431_655_765_000;

fn scaled(w: i64, k: i64) -> (r: i64)
    requires
        0 <= w <= BAND_MAX,
        -1000 < k < 1000,
    ensures
        r == thousandths(w as int, k as int),
        -w <= r <= w,
{
    if k >= 0 {
        assert(0 <= w * k <= w * 1000) by (nonlinear_arith)
            requires
                0 <= w <= BAND_MAX,
                0 <= k < 1000,
        ;
        w * k / 1000
    } else {
        assert(0 <= w * (-k) <= w * 1000) by (nonlinear_arith)
            requires
                0 <= w <= BAND_MAX,
                -1000 < k < 0,
        ;
        -(w * (-k) / 1000)
    }
}

fn jitter_of(w: i64, j: i64) -> (r: i64)
    requires
        0 <= w <= BAND_MAX,
        100 <= j <= 1_000_000,
    ensures
        r == (if j >= 500_000 {
            (w as int / 4) * (j - 500_000) / 1_000_000
        } else {
            -((w as int / 4) * (500_000 - j) / 1_000_000)
        }),
        -w <= r <= w,
{
    let q = w / 4;
    if j >= 500_000 {
        assert(0 <= q * (j - 500_000) <= q * 1_000_000) by (nonlinear_arith)
            requires
                0 <= q <= BAND_MAX,
                0 <= j - 500_000 <= 500_000,
        ;
        q * (j - 500_000) / 1_000_000
    } else {
        assert(0 <= q * (500_000 - j) <= q * 1_000_000) by (nonlinear_arith)
            requires
                0 <= q <= BAND_MAX,
                0 <= 500_000 - j <= 500_000,
        ;
        -(q * (500_000 - j) / 1_000_000)
    }
}

fn fall_speed(e: PacketEvent, speed_ppm: i64) -> (r: i64)
    requires
        100 <= speed_ppm <= 1_000_000,
    ensures
        r == spawn_vy(e, speed_ppm),
        VY_MIN <= r <= VY_MAX,
{
    let base: i64 = if e.fast {
        360_000
    } else {
        180_000
    };
    let v = base + 120_000 * speed_ppm / 1_000_000;
    let f = proto_speed(e.proto);
    assert(162_000 * 1000 <= v * f <= VY_MAX * 1000) by (nonlinear_arith)
        requires
            180_012 <= v <= 480_000,
            900 <= f <= 1250,
    ;
    v * f / 1000
}

/// The particle one event spawns; draws the jitter, then the speed variance.
fn make_particle(e: PacketEvent, width: u32, rng: &mut XorShift32) -> (r: Particle)
    requires
        width >= MIN_WIDTH,
    ensures
        final(rng).state() == xorshift(xorshift(old(rng).state())),
        r == spawned(
            e,
            width,
            unit_ppm(xorshift(old(rng).state())),
            unit_ppm(xorshift(xorshift(old(rng).state()))),
        ),
        particle_ok(r),
{
    let w: i64 = (width as i64) * 1000 / 3;
    let lane = proto_lane(e.proto);
    let x0: i64 = if lane == 0 {
        0
    } else if lane == 1 {
        w
    } else {
        2 * w
    };
    let x1 = x0 + w;
    let jitter_ppm = rng.rand_unit();
    let base = match e.direction {
        Direction::In => x0 + w * 330 / 1000,
        Direction::Out => x0 + w * 660 / 1000,
        Direction::Undirected => (x0 + x1) / 2,
    };
    let shift = scaled(w, proto_offset(e.proto));
    let jitter = jitter_of(w, jitter_ppm);
    let raw = base + shift + jitter;
    let x = if raw < x0 + 6000 {
        x0 + 6000
    } else if raw > x1 - 6000 {
        x1 - 6000
    } else {
        raw
    };
    let speed_ppm = rng.rand_unit();
    let vy = fall_speed(e, speed_ppm);
    Particle { x, y: SPAWN_Y, vy, color: particle_color(e.proto) }
}

fn fall(p: Particle, dt_us: u32) -> (r: Particle)
    requires
        particle_ok(p),
    ensures
        r == advanced(p, dt_us),
        particle_ok(r),
        r.y >= p.y,
{
    assert(0 <= p.vy * dt_us <= VY_MAX * 0xffff_ffff) by (nonlinear_arith)
        requires
            VY_MIN <= p.vy <= VY_MAX,
            0 <= dt_us <= 0xffff_ffff,
    ;
    let y = p.y + p.vy * (dt_us as i64) / 1_000_000;
    Particle { y: if y > Y_CAP { Y_CAP } else { y }, ..p }
}

proof fn lemma_drop_exited_suffix(s: Seq<Particle>, height: u32)
    ensures
        exists|k: int| 0 <= k <= s.len() && drop_exited(s, height) == s.subrange(k, s.len() as int),
    decreases s.len(),
{
    if s.len() > 0 && s[0].y > bottom(height) {
        lemma_drop_exited_suffix(s.drop_first(), height);
        let k = choose|k: int|
            0 <= k <= s.drop_first().len() && drop_exited(s.drop_first(), height)
                == s.drop_first().subrange(k, s.drop_first().len() as int);
        assert(s.drop_first().subrange(k, s.drop_first().len() as int) == s.subrange(
            k + 1,
            s.len() as int,
        ));
    } else {
        assert(s.subrange(0, s.len() as int) == s);
    }
}

proof fn lemma_suffix_ok(s: Seq<Particle>, height: u32)
    requires
        pool_ok(s),
    ensures
        pool_ok(drop_exited(s, height)),
        drop_exited(s, height).len() <= s.len(),
{
    lemma_drop_exited_suffix(s, height);
    let k = choose|k: int| 0 <= k <= s.len() && drop_exited(s, height) == s.subrange(k, s.len() as int);
    let r = drop_exited(s, height);
    assert forall|i: int| 0 <= i < r.len() implies #[trigger] particle_ok(r[i]) by {
        assert(r[i] == s[i + k]);
    }
}

/// The bounded particle pool with its generator.
pub struct ParticleSystem {
    particles: std::collections::VecDeque<Particle>,
    rng: XorShift32,
}

impl View for ParticleSystem {
    type V = Seq<Particle>;

    closed spec fn view(&self) -> Seq<Particle> {
        self.particles@
    }
}

impl ParticleSystem {
    pub closed spec fn rng_state(&self) -> u32 {
        self.rng.state()
    }

    pub open spec fn wf(&self) -> bool {
        pool_ok(self@)
    }

    /// An empty pool whose generator starts from `seed`.
    pub fn new(seed: u32) -> (r: ParticleSystem)
        ensures
            r.wf(),
            r@ == Seq::<Particle>::empty(),
            r.rng_state() == seed,
    {
        ParticleSystem { particles: std::collections::VecDeque::new(), rng: XorShift32::new(seed) }
    }

    /// Number of live particles.
    pub fn len(&self) -> (r: usize)
        ensures
            r == self@.len(),
    {
        self.particles.len()
    }

    /// The particle at `i`, oldest first.
    pub fn get(&self, i: usize) -> (r: Particle)
        requires
            i < self@.len(),
        ensures
            r == self@[i as int],
    {
        self.particles[i]
    }

    /// Spawns the particle of one event at the top of a viewport `width` pixels wide,
    /// dropping the oldest particle when the pool would pass its cap.
    pub fn spawn_particle(&mut self, e: PacketEvent, width: u32)
        requires
            old(self).wf(),
            width >= MIN_WIDTH,
        ensures
            final(self).wf(),
            final(self).rng_state() == xorshift(xorshift(old(self).rng_state())),
            final(self)@ == pushed(
                old(self)@,
                spawned(
                    e,
                    width,
                    unit_ppm(xorshift(old(self).rng_state())),
                    unit_ppm(xorshift(xorshift(old(self).rng_state()))),
                ),
            ),
            final(self)@.len() <= MAX_PARTICLES,
    {
        let p = make_particle(e, width, &mut self.rng);
        let ghost before = self@;
        self.particles.push_back(p);
        if self.particles.len() > MAX_PARTICLES {
            self.particles.pop_front();
            assert(self@ == before.push(p).drop_first());
        }
        assert forall|i: int| 0 <= i < self@.len() implies #[trigger] particle_ok(self@[i]) by {
            if self@.len() == before.len() + 1 {
                if i < before.len() {
                    assert(self@[i] == before[i]);
                }
            } else {
                if i + 1 < before.len() {
                    assert(self@[i] == before[i + 1]);
                }
            }
        }
    }

    /// Lets `dt_us` microseconds pass: every particle falls by its speed times the
    /// time, then those past the bottom of a viewport `height` pixels high leave
    /// from the front.
    pub fn advance(&mut self, dt_us: u32, height: u32)
        requires
            old(self).wf(),
        ensures
            final(self).wf(),
            final(self).rng_state() == old(self).rng_state(),
            final(self)@ == drop_exited(old(self)@.map_values(|p: Particle| advanced(p, dt_us)), height),
            final(self)@.len() <= old(self)@.len(),
    {
        let ghost s = self@;
        let ghost moved = s.map_values(|p: Particle| advanced(p, dt_us));
        let n = self.particles.len();
        let mut i: usize = 0;
        while i < n
            invariant
                n == s.len(),
                i <= n,
                pool_ok(s),
                moved == s.map_values(|p: Particle| advanced(p, dt_us)),
                self.particles@ == s.subrange(i as int, n as int) + moved.subrange(0, i as int),
                self.rng.state() == old(self).rng.state(),
            decreases n - i,
        {
            let ghost cur = self.particles@;
            assert(cur[0] == s[i as int]);
            assert(particle_ok(s[i as int]));
            match self.particles.pop_front() {
                Some(p) => {
                    let q = fall(p, dt_us);
                    self.particles.push_back(q);
                    assert(self.particles@ == s.subrange(i as int + 1, n as int) + moved.subrange(
                        0,
                        i as int + 1,
                    ));
                },
                None => {},
            }
            i += 1;
        }
        assert(self.particles@ == moved);
        assert(pool_ok(moved)) by {
            assert forall|j: int| 0 <= j < moved.len() implies #[trigger] particle_ok(moved[j]) by {
                assert(particle_ok(s[j]));
                assert(moved[j] == advanced(s[j], dt_us));
                assert(0 <= s[j].vy * dt_us) by (nonlinear_arith)
                    requires
                        VY_MIN <= s[j].vy,
                        0 <= dt_us,
                ;
            }
        }
        let limit: i64 = (height as i64) * 1000 + EXIT_MARGIN;
        while self.particles.len() > 0 && self.particles[0].y > limit
            invariant
                limit == bottom(height),
                drop_exited(self.particles@, height) == drop_exited(moved, height),
                self.rng.state() == old(self).rng.state(),
            decreases self.particles@.len(),
        {
            assert(self.particles@.drop_first() == self.particles@.subrange(1, self.particles@.len() as int));
            self.particles.pop_front();
        }
        proof {
            lemma_suffix_ok(moved, height);
        }
    }
}

proof fn lemma_all_exited(s: Seq<Particle>, height: u32)
    requires
        forall|i: int| 0 <= i < s.len() ==> #[trigger] s[i].y > bottom(height),
    ensures
        drop_exited(s, height).len() == 0,
    decreases s.len(),
{
    if s.len() > 0 {
        assert(s[0].y > bottom(height));
        let t = s.drop_first();
        assert forall|i: int| 0 <= i < t.len() implies #[trigger] t[i].y > bottom(height) by {
            assert(t[i] == s[i + 1]);
        }
        lemma_all_exited(t, height);
    }
}

/// The pool never holds more than `MAX_PARTICLES`, and with no arrivals a step never
/// makes it grow. A step long enough for the slowest particle to fall from above the
/// top edge to past the bottom empties it.
pub proof fn lemma_idle_step(s: Seq<Particle>, dt_us: u32, height: u32)
    requires
        pool_ok(s),
    ensures
        s.len() <= MAX_PARTICLES,
        pool_ok(drop_exited(s.map_values(|p: Particle| advanced(p, dt_us)), height)),
        drop_exited(s.map_values(|p: Particle| advanced(p, dt_us)), height).len() <= s.len(),
        dt_us as int * VY_MIN >= (bottom(height) - SPAWN_Y + 1) * 1_000_000 ==> drop_exited(
            s.map_values(|p: Particle| advanced(p, dt_us)),
            height,
        ).len() == 0,
{
    let moved = s.map_values(|p: Particle| advanced(p, dt_us));
    assert forall|j: int| 0 <= j < moved.len() implies #[trigger] particle_ok(moved[j]) by {
        assert(particle_ok(s[j]));
        assert(0 <= s[j].vy * dt_us) by (nonlinear_arith)
            requires
                VY_MIN <= s[j].vy,
                0 <= dt_us,
        ;
    }
    lemma_suffix_ok(moved, height);
    if dt_us as int * VY_MIN >= (bottom(height) - SPAWN_Y + 1) * 1_000_000 {
        assert forall|j: int| 0 <= j < moved.len() implies #[trigger] moved[j].y > bottom(height) by {
            let p = s[j];
            assert(particle_ok(p));
            assert(p.vy * dt_us >= VY_MIN * dt_us) by (nonlinear_arith)
                requires
                    VY_MIN <= p.vy,
                    0 <= dt_us,
            ;
            assert(p.vy * dt_us / 1_000_000 >= bottom(height) - SPAWN_Y + 1);
        }
        lemma_all_exited(moved, height);
    }
}

/// One step with no arrivals.
pub open spec fn idle_step(s: Seq<Particle>, dt_us: u32, height: u32) -> Seq<Particle> {
    drop_exited(s.map_values(|p: Particle| advanced(p, dt_us)), height)
}

/// Steps of the given durations, in order, with no arrivals.
pub open spec fn idle_run(s: Seq<Particle>, dts: Seq<u32>, height: u32) -> Seq<Particle>
    decreases dts.len(),
{
    if dts.len() == 0 {
        s
    } else {
        idle_step(idle_run(s, dts.drop_last(), height), dts.last(), height)
    }
}

/// Height that every particle left after `j` idle steps of at least a millisecond
/// has reached: 162 thousandths of a pixel a step, the least a step can add.
pub open spec fn floor_after(j: nat) -> int {
    let f = SPAWN_Y + 162 * j;
    if f > Y_CAP {
        Y_CAP as int
    } else {
        f
    }
}

proof fn lemma_drop_exited_front(s: Seq<Particle>, height: u32)
    ensures
        drop_exited(s, height).len() > 0 ==> drop_exited(s, height)[0].y <= bottom(height),
    decreases s.len(),
{
    if s.len() > 0 && s[0].y > bottom(height) {
        lemma_drop_exited_front(s.drop_first(), height);
    }
}

proof fn lemma_idle_run_floor(s: Seq<Particle>, dts: Seq<u32>, height: u32)
    requires
        pool_ok(s),
        forall|i: int| 0 <= i < dts.len() ==> #[trigger] dts[i] >= 1000,
    ensures
        pool_ok(idle_run(s, dts, height)),
        forall|i: int|
            0 <= i < idle_run(s, dts, height).len() ==> #[trigger] idle_run(s, dts, height)[i].y
                >= floor_after(dts.len()),
    decreases dts.len(),
{
    if dts.len() > 0 {
        let t = dts.drop_last();
        assert forall|i: int| 0 <= i < t.len() implies #[trigger] t[i] >= 1000 by {
            assert(t[i] == dts[i]);
        }
        lemma_idle_run_floor(s, t, height);
        let prev = idle_run(s, t, height);
        let dt = dts.last();
        assert(dt == dts[dts.len() - 1]);
        lemma_idle_step(prev, dt, height);
        let moved = prev.map_values(|p: Particle| advanced(p, dt));
        assert forall|j: int| 0 <= j < moved.len() implies #[trigger] moved[j].y >= floor_after(
            dts.len(),
        ) by {
            let p = prev[j];
            assert(particle_ok(p));
            assert(p.y >= floor_after(t.len()));
            assert(p.vy * dt >= 162_000 * 1000) by (nonlinear_arith)
                requires
                    VY_MIN <= p.vy,
                    1000 <= dt,
            ;
        }
        lemma_drop_exited_suffix(moved, height);
        let r = drop_exited(moved, height);
        let k = choose|k: int| 0 <= k <= moved.len() && r == moved.subrange(k, moved.len() as int);
        assert forall|i: int| 0 <= i < r.len() implies #[trigger] r[i].y >= floor_after(dts.len()) by {
            assert(r[i] == moved[i + k]);
        }
        assert(idle_run(s, dts, height) == r);
    } else {
        assert forall|i: int| 0 <= i < s.len() implies #[trigger] s[i].y >= floor_after(0) by {
            assert(particle_ok(s[i]));
        }
    }
}

/// With no arrivals the pool shrinks step by step and empties: each idle step of at
/// least a millisecond leaves no more particles than before, and once the steps
/// together give the slowest particle time to fall from above the top edge to past
/// the bottom (162 thousandths of a pixel a step), none are left.
pub proof fn lemma_idle_run_drains(s: Seq<Particle>, dts: Seq<u32>, height: u32)
    requires
        pool_ok(s),
        forall|i: int| 0 <= i < dts.len() ==> #[trigger] dts[i] >= 1000,
    ensures
        forall|k: int|
            0 <= k < dts.len() ==> #[trigger] idle_run(s, dts.take(k + 1), height).len() <= idle_run(
                s,
                dts.take(k),
                height,
            ).len(),
        162 * dts.len() > bottom(height) - SPAWN_Y ==> idle_run(s, dts, height).len() == 0,
{
    assert forall|k: int| 0 <= k < dts.len() implies #[trigger] idle_run(s, dts.take(k + 1), height).len()
        <= idle_run(s, dts.take(k), height).len() by {
        let pre = dts.take(k);
        assert forall|i: int| 0 <= i < pre.len() implies #[trigger] pre[i] >= 1000 by {
            assert(pre[i] == dts[i]);
        }
        lemma_idle_run_floor(s, pre, height);
        assert(dts.take(k + 1).drop_last() == pre);
        lemma_idle_step(idle_run(s, pre, height), dts.take(k + 1).last(), height);
    }
    if 162 * dts.len() > bottom(height) - SPAWN_Y {
        lemma_idle_run_floor(s, dts, height);
        let r = idle_run(s, dts, height);
        if dts.len() > 0 {
            let prev = idle_run(s, dts.drop_last(), height);
            lemma_drop_exited_front(prev.map_values(|p: Particle| advanced(p, dts.last())), height);
        }
        if r.len() > 0 {
            assert(r[0].y >= floor_after(dts.len()));
        }
    }
}

} // verus!
