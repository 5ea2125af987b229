//! The lane buffers of the text display: three shift registers of 128 rows, one per
//! lane group, and their rendering as a column of braille glyphs.
use vstd::prelude::*;

use crate::proto::{
    lane_of, proto_at_rank, proto_color, proto_from_rank, proto_lane, proto_rank, text_color,
    Direction, PacketEvent, Proto, PROTO_COUNT,
};
use crate::stats::push_char;

verus! {

/// Glyph rows of the display.
pub const CHAR_HEIGHT: usize = 32;

/// Rows of a lane buffer: four per glyph.
pub const PIXEL_ROWS: usize = 128;

/// One row of a lane: the inbound and the outbound sub-pixel.
#[derive(Debug, Clone, Copy, PartialEq, Eq, Structural)]
pub struct Row {
    pub inbound: Option<Proto>,
    pub outbound: Option<Proto>,
}

pub open spec fn empty_row() -> Row {
    Row { inbound: None, outbound: None }
}

/// Marks the event in the newest row; a fast event also fills both sub-pixels of
/// the row after it, one tick ahead of the shift, so that it shows at once.
pub open spec fn stamp(rows: Seq<Row>, e: PacketEvent) -> Seq<Row> {
    let r0 = rows[0];
    let p = Some(e.proto);
    let first = match e.direction {
        Direction::In => Row { inbound: p, outbound: r0.outbound },
        Direction::Out => Row { inbound: r0.inbound, outbound: p },
        Direction::Undirected => Row { inbound: p, outbound: p },
    };
    let after = rows.update(0, first);
    if e.fast {
        after.update(1, Row { inbound: p, outbound: p })
    } else {
        after
    }
}

/// Rows shifted by one toward the old end: the oldest row is dropped and an empty
/// row becomes the newest.
pub open spec fn shifted(rows: Seq<Row>) -> Seq<Row> {
    seq![empty_row()] + rows.subrange(0, rows.len() - 1)
}

/// The events of `evs` that belong to lane group `k`, stamped in order.
pub open spec fn stamp_all(rows: Seq<Row>, evs: Seq<PacketEvent>, k: nat) -> Seq<Row>
    decreases evs.len(),
{
    if evs.len() == 0 {
        rows
    } else {
        let r = stamp_all(rows, evs.drop_last(), k);
        if lane_of(evs.last().proto) == k {
            stamp(r, evs.last())
        } else {
            r
        }
    }
}

/// One tick of lane group `k`: shift, then stamp the events that arrived.
pub open spec fn ticked(rows: Seq<Row>, evs: Seq<PacketEvent>, k: nat) -> Seq<Row> {
    stamp_all(shifted(rows), evs, k)
}

/// A fixed-depth shift register of rows; row 0 is the newest.
pub struct Lane {
    pixels: Vec<Row>,
}

impl View for Lane {
    type V = Seq<Row>;

    closed spec fn view(&self) -> Seq<Row> {
        self.pixels@
    }
}

impl Lane {
    /// An empty lane of `PIXEL_ROWS` rows.
    pub fn new() -> (r: Lane)
        ensures
            r@ == Seq::new(PIXEL_ROWS as nat, |i: int| empty_row()),
    {
        let mut pixels: Vec<Row> = Vec::new();
        let mut i: usize = 0;
        while i < PIXEL_ROWS
            invariant
                i <= PIXEL_ROWS,
                pixels@ == Seq::new(i as nat, |j: int| empty_row()),
            decreases PIXEL_ROWS - i,
        {
            pixels.push(Row { inbound: None, outbound: None });
            i += 1;
        }
        Lane { pixels }
    }

    /// Number of rows.
    pub fn len(&self) -> (r: usize)
        ensures
            r == self@.len(),
    {
        self.pixels.len()
    }

    /// The row at `i`.
    pub fn row(&self, i: usize) -> (r: Row)
        requires
            i < self@.len(),
        ensures
            r == self@[i as int],
    {
        self.pixels[i]
    }

    /// Shifts every row one step older, dropping the oldest; the newest row is empty.
    pub fn shift(&mut self)
        requires
            old(self)@.len() == PIXEL_ROWS,
        ensures
            final(self)@ == shifted(old(self)@),
            final(self)@.len() == PIXEL_ROWS,
    {
        self.pixels.pop();
        self.pixels.insert(0, Row { inbound: None, outbound: None });
        assert(self@ == shifted(old(self)@));
    }

    /// Marks one event in the newest rows.
    pub fn stamp(&mut self, e: PacketEvent)
        requires
            old(self)@.len() == PIXEL_ROWS,
        ensures
            final(self)@ == stamp(old(self)@, e),
            final(self)@.len() == PIXEL_ROWS,
    {
        let r0 = self.pixels[0];
        let p = Some(e.proto);
        let first = match e.direction {
            Direction::In => Row { inbound: p, outbound: r0.outbound },
            Direction::Out => Row { inbound: r0.inbound, outbound: p },
            Direction::Undirected => Row { inbound: p, outbound: p },
        };
        self.pixels.set(0, first);
        if e.fast {
            self.pixels.set(1, Row { inbound: p, outbound: p });
        }
    }
}

/// The three lanes of the text display: TCP family, UDP family, control and other.
pub struct LaneGrid {
    tcp: Lane,
    udp: Lane,
    other: Lane,
}

impl LaneGrid {
    /// The rows of lane group `k`.
    pub closed spec fn lane(&self, k: nat) -> Seq<Row> {
        if k == 0 {
            self.tcp@
        } else if k == 1 {
            self.udp@
        } else {
            self.other@
        }
    }

    pub open spec fn wf(&self) -> bool {
        forall|k: nat| k < 3 ==> #[trigger] self.lane(k).len() == PIXEL_ROWS
    }

    /// Three empty lanes.
    pub fn new() -> (r: LaneGrid)
        ensures
            r.wf(),
            forall|k: nat, i: int| k < 3 && 0 <= i < PIXEL_ROWS ==> #[trigger] r.lane(k)[i] == empty_row(),
    {
        LaneGrid { tcp: Lane::new(), udp: Lane::new(), other: Lane::new() }
    }

    /// The row at `i` of lane group `k`.
    pub fn row(&self, k: usize, i: usize) -> (r: Row)
        requires
            self.wf(),
            k < 3,
            i < PIXEL_ROWS,
        ensures
            r == self.lane(k as nat)[i as int],
    {
        assert(self.lane(k as nat).len() == PIXEL_ROWS);
        if k == 0 {
            self.tcp.row(i)
        } else if k == 1 {
            self.udp.row(i)
        } else {
            self.other.row(i)
        }
    }

    /// One tick: every lane shifts once, then each event is marked, in order, in
    /// the lane of its group.
    pub fn tick(&mut self, events: &[PacketEvent])
        requires
            old(self).wf(),
        ensures
            final(self).wf(),
            forall|k: nat| k < 3 ==> #[trigger] final(self).lane(k) == ticked(old(self).lane(k), events@, k),
    {
        assert(self.lane(0).len() == PIXEL_ROWS);
        assert(self.lane(1).len() == PIXEL_ROWS);
        assert(self.lane(2).len() == PIXEL_ROWS);
        let ghost l0 = self.lane(0);
        let ghost l1 = self.lane(1);
        let ghost l2 = self.lane(2);
        self.tcp.shift();
        self.udp.shift();
        self.other.shift();
        let n = events.len();
        let mut i: usize = 0;
        while i < n
            invariant
                n == events@.len(),
                i <= n,
                self.tcp@ == stamp_all(shifted(l0), events@.subrange(0, i as int), 0),
                self.udp@ == stamp_all(shifted(l1), events@.subrange(0, i as int), 1),
                self.other@ == stamp_all(shifted(l2), events@.subrange(0, i as int), 2),
                self.tcp@.len() == PIXEL_ROWS,
                self.udp@.len() == PIXEL_ROWS,
                self.other@.len() == PIXEL_ROWS,
            decreases n - i,
        {
            let e = events[i];
            proof {
                let sub = events@.subrange(0, i as int + 1);
                assert(sub.drop_last() == events@.subrange(0, i as int));
                assert(sub.last() == e);
            }
            let k = proto_lane(e.proto);
            if k == 0 {
                self.tcp.stamp(e);
            } else if k == 1 {
                self.udp.stamp(e);
            } else {
                self.other.stamp(e);
            }
            i += 1;
        }
        proof {
            assert(events@.subrange(0, n as int) == events@);
            assert(self.lane(0) == ticked(l0, events@, 0));
            assert(self.lane(1) == ticked(l1, events@, 1));
            assert(self.lane(2) == ticked(l2, events@, 2));
        }
    }
}

/// `k` ticks in which no event arrives.
pub open spec fn idle_ticks(rows: Seq<Row>, k: nat) -> Seq<Row>
    decreases k,
{
    if k == 0 {
        rows
    } else {
        ticked(idle_ticks(rows, (k - 1) as nat), Seq::empty(), 0)
    }
}

/// A lane keeps its 128 rows through any number of idle ticks, and after `k` of them
/// its `k` newest rows are empty; after 128 or more, every row is.
pub proof fn lemma_idle_ticks_clear(rows: Seq<Row>, k: nat)
    requires
        rows.len() == PIXEL_ROWS,
    ensures
        idle_ticks(rows, k).len() == PIXEL_ROWS,
        forall|i: int| 0 <= i < k && i < PIXEL_ROWS ==> #[trigger] idle_ticks(rows, k)[i] == empty_row(),
    decreases k,
{
    if k > 0 {
        lemma_idle_ticks_clear(rows, (k - 1) as nat);
        let prev = idle_ticks(rows, (k - 1) as nat);
        assert(stamp_all(shifted(prev), Seq::empty(), 0) == shifted(prev));
        assert forall|i: int| 0 <= i < k && i < PIXEL_ROWS implies #[trigger] idle_ticks(rows, k)[i]
            == empty_row() by {
            if i > 0 {
                assert(shifted(prev)[i] == prev[i - 1]);
            }
        }
    }
}

/// How often `p` occurs among the cells.
pub open spec fn occurrences(cells: Seq<Option<Proto>>, p: Proto) -> nat
    decreases cells.len(),
{
    if cells.len() == 0 {
        0
    } else {
        occurrences(cells.drop_last(), p) + if cells.last() == Some(p) {
            1nat
        } else {
            0nat
        }
    }
}

/// The most frequent tag among the first `n` tags in declaration order, with its
/// count; a tag wins a tie against every later one. `(Other, 0)` while none occurs.
pub open spec fn leader(cells: Seq<Option<Proto>>, n: nat) -> (Proto, nat)
    decreases n,
{
    if n == 0 {
        (Proto::Other, 0)
    } else {
        let prev = leader(cells, (n - 1) as nat);
        let q = proto_at_rank((n - 1) as nat);
        if occurrences(cells, q) > prev.1 {
            (q, occurrences(cells, q))
        } else {
            prev
        }
    }
}

/// The dominant tag of a glyph: the most frequent among the occupied cells, the
/// earliest in declaration order on a tie, and `Other` when no cell is occupied.
pub open spec fn dominant(cells: Seq<Option<Proto>>) -> Proto {
    leader(cells, PROTO_COUNT as nat).0
}

proof fn lemma_rank_roundtrip(p: Proto)
    ensures
        proto_at_rank(proto_rank(p)) == p,
        proto_rank(p) < PROTO_COUNT,
{
}

proof fn lemma_occurrences_zero(cells: Seq<Option<Proto>>, p: Proto)
    requires
        forall|i: int| 0 <= i < cells.len() ==> cells[i] is None,
    ensures
        occurrences(cells, p) == 0,
    decreases cells.len(),
{
    if cells.len() > 0 {
        lemma_occurrences_zero(cells.drop_last(), p);
    }
}

proof fn lemma_occurrences_positive(cells: Seq<Option<Proto>>, i: int)
    requires
        0 <= i < cells.len(),
        cells[i] is Some,
    ensures
        occurrences(cells, cells[i]->Some_0) > 0,
    decreases cells.len(),
{
    if i < cells.len() - 1 {
        lemma_occurrences_positive(cells.drop_last(), i);
    }
}

proof fn lemma_leader(cells: Seq<Option<Proto>>, n: nat)
    requires
        n <= PROTO_COUNT,
    ensures
        ({
            let (b, c) = leader(cells, n);
            &&& (c == 0 && b == Proto::Other) || (c > 0 && c == occurrences(cells, b) && proto_rank(b) < n)
            &&& forall|q: Proto| proto_rank(q) < n ==> #[trigger] occurrences(cells, q) <= c
            &&& forall|q: Proto| proto_rank(q) < n && c > 0 && #[trigger] occurrences(cells, q) == c
                ==> proto_rank(b) <= proto_rank(q)
        }),
    decreases n,
{
    if n > 0 {
        lemma_leader(cells, (n - 1) as nat);
        assert forall|q: Proto| proto_rank(q) == n - 1 implies q == proto_at_rank((n - 1) as nat) by {
            lemma_rank_roundtrip(q);
        }
    }
}

/// What `dominant` means: on a group with an occupied cell, a tag that occurs there,
/// no tag occurs more often, and no earlier tag as often; `Other` on an empty group.
pub proof fn lemma_dominant(cells: Seq<Option<Proto>>)
    ensures
        (forall|i: int| 0 <= i < cells.len() ==> cells[i] is None) ==> dominant(cells) == Proto::Other,
        (exists|i: int| 0 <= i < cells.len() && cells[i] is Some) ==> {
            &&& occurrences(cells, dominant(cells)) > 0
            &&& forall|q: Proto| #[trigger] occurrences(cells, q) <= occurrences(cells, dominant(cells))
            &&& forall|q: Proto| #[trigger] occurrences(cells, q) == occurrences(cells, dominant(cells))
                ==> proto_rank(dominant(cells)) <= proto_rank(q)
        },
{
    lemma_leader(cells, PROTO_COUNT as nat);
    assert forall|q: Proto| proto_rank(q) < PROTO_COUNT by {
        lemma_rank_roundtrip(q);
    }
    if forall|i: int| 0 <= i < cells.len() ==> cells[i] is None {
        lemma_occurrences_zero(cells, dominant(cells));
    }
    if exists|i: int| 0 <= i < cells.len() && cells[i] is Some {
        let i = choose|i: int| 0 <= i < cells.len() && cells[i] is Some;
        lemma_occurrences_positive(cells, i);
    }
}

fn count_of(protos: &[Option<Proto>], p: Proto) -> (r: usize)
    ensures
        r == occurrences(protos@, p),
{
    let n = protos.len();
    let mut c: usize = 0;
    let mut i: usize = 0;
    while i < n
        invariant
            n == protos@.len(),
            i <= n,
            c == occurrences(protos@.subrange(0, i as int), p),
            c <= i,
        decreases n - i,
    {
        proof {
            let sub = protos@.subrange(0, i as int + 1);
            assert(sub.drop_last() == protos@.subrange(0, i as int));
        }
        match protos[i] {
            Some(q) => {
                if q == p {
                    c += 1;
                }
            },
            None => {},
        }
        i += 1;
    }
    assert(protos@.subrange(0, n as int) == protos@);
    c
}

/// The tag that colours a glyph: the most frequent among the occupied cells. Ties go
/// to the tag declared first in `Proto`; with no occupied cell the result is `Other`.
pub fn dominant_proto(protos: &[Option<Proto>]) -> (r: Proto)
    ensures
        r == dominant(protos@),
{
    let mut best = Proto::Other;
    let mut best_count: usize = 0;
    let mut i: usize = 0;
    while i < PROTO_COUNT
        invariant
            i <= PROTO_COUNT,
            (best, best_count as nat) == leader(protos@, i as nat),
        decreases PROTO_COUNT - i,
    {
        let q = proto_from_rank(i);
        let c = count_of(protos, q);
        if c > best_count {
            best = q;
            best_count = c;
        }
        i += 1;
    }
    best
}

/// Dot pattern of a braille glyph from its eight cells, left column then right
/// column, top to bottom: cells 1, 3, 5, 7 are dots 1, 2, 3, 7 and cells 2, 4, 6, 8
/// are dots 4, 5, 6, 8.
pub open spec fn braille_mask(
    d1: bool,
    d2: bool,
    d3: bool,
    d4: bool,
    d5: bool,
    d6: bool,
    d7: bool,
    d8: bool,
) -> u32 {
    ((if d1 { 0x01int } else { 0 }) + (if d2 { 0x08int } else { 0 }) + (if d3 { 0x02int } else { 0 })
        + (if d4 { 0x10int } else { 0 }) + (if d5 { 0x04int } else { 0 }) + (if d6 { 0x20int } else { 0 })
        + (if d7 { 0x40int } else { 0 }) + (if d8 { 0x80int } else { 0 })) as u32
}

pub open spec fn valid_scalar(v: u32) -> bool {
    v < 0xd800 || (0xe000 <= v && v <= 0x10ffff)
}

/// Relies on `char::from_u32`: every value outside the surrogate range and up to
/// U+10FFFF is the code point of a `char`.
#[verifier::external_body]
fn char_from_u32(v: u32) -> (r: Option<char>)
    ensures
        valid_scalar(v) ==> r == Some(v as char),
{
    char::from_u32(v)
}

/// The braille glyph (U+2800 block) with the given dots raised.
pub fn braille_char(
    d1: bool,
    d2: bool,
    d3: bool,
    d4: bool,
    d5: bool,
    d6: bool,
    d7: bool,
    d8: bool,
) -> (r: char)
    ensures
        r == (0x2800 + braille_mask(d1, d2, d3, d4, d5, d6, d7, d8)) as char,
{
    let mut mask: u32 = 0;
    if d1 {
        mask += 0x01;
    }
    if d2 {
        mask += 0x08;
    }
    if d3 {
        mask += 0x02;
    }
    if d4 {
        mask += 0x10;
    }
    if d5 {
        mask += 0x04;
    }
    if d6 {
        mask += 0x20;
    }
    if d7 {
        mask += 0x40;
    }
    if d8 {
        mask += 0x80;
    }
    match char_from_u32(0x2800 + mask) {
        Some(c) => c,
        None => ' ',
    }
}

/// The eight cells of glyph `c` of a lane: rows `4c` to `4c + 3`, inbound then
/// outbound sub-pixel of each.
pub open spec fn group_cells(rows: Seq<Row>, c: int) -> Seq<Option<Proto>> {
    seq![
        rows[4 * c].inbound,
        rows[4 * c].outbound,
        rows[4 * c + 1].inbound,
        rows[4 * c + 1].outbound,
        rows[4 * c + 2].inbound,
        rows[4 * c + 2].outbound,
        rows[4 * c + 3].inbound,
        rows[4 * c + 3].outbound,
    ]
}

pub open spec fn cells_empty(cells: Seq<Option<Proto>>) -> bool {
    forall|i: int| 0 <= i < cells.len() ==> cells[i] is None
}

pub open spec fn cells_glyph(cells: Seq<Option<Proto>>) -> char {
    (0x2800 + braille_mask(
        cells[0] is Some,
        cells[1] is Some,
        cells[2] is Some,
        cells[3] is Some,
        cells[4] is Some,
        cells[5] is Some,
        cells[6] is Some,
        cells[7] is Some,
    )) as char
}

/// Markup of one glyph: a dim dot for an empty group, else the braille glyph in the
/// colour of the dominant tag.
pub open spec fn glyph_markup(cells: Seq<Option<Proto>>) -> Seq<char> {
    if cells_empty(cells) {
        IDLE_GLYPH@
    } else {
        GLYPH_OPEN@ + text_color(dominant(cells)) + GLYPH_MID@ + seq![cells_glyph(cells)]
            + GLYPH_CLOSE@
    }
}

/// Glyph row `c` of the display: the three lanes side by side.
pub open spec fn line_markup(l0: Seq<Row>, l1: Seq<Row>, l2: Seq<Row>, c: int) -> Seq<char> {
    glyph_markup(group_cells(l0, c)) + glyph_markup(group_cells(l1, c)) + glyph_markup(
        group_cells(l2, c),
    )
}

/// The first `n` glyph rows, joined by newlines.
pub open spec fn lines_markup(l0: Seq<Row>, l1: Seq<Row>, l2: Seq<Row>, n: nat) -> Seq<char>
    decreases n,
{
    if n == 0 {
        Seq::empty()
    } else if n == 1 {
        line_markup(l0, l1, l2, 0)
    } else {
        lines_markup(l0, l1, l2, (n - 1) as nat) + seq!['\n'] + line_markup(l0, l1, l2, n - 1)
    }
}

pub const IDLE_GLYPH: &'static str = "<span size='small' color='#313244'>\u{b7}</span>";

pub const GLYPH_OPEN: &'static str = "<span size='small' color='";

pub const GLYPH_MID: &'static str = "'>";

pub const GLYPH_CLOSE: &'static str = "</span>";

fn append_glyph(cells: &Vec<Option<Proto>>, out: &mut String)
    requires
        cells@.len() == 8,
    ensures
        final(out)@ == old(out)@ + glyph_markup(cells@),
{
    let ch = braille_char(
        cells[0].is_some(),
        cells[1].is_some(),
        cells[2].is_some(),
        cells[3].is_some(),
        cells[4].is_some(),
        cells[5].is_some(),
        cells[6].is_some(),
        cells[7].is_some(),
    );
    let empty = cells[0].is_none() && cells[1].is_none() && cells[2].is_none() && cells[3].is_none()
        && cells[4].is_none() && cells[5].is_none() && cells[6].is_none() && cells[7].is_none();
    proof {
        if !empty {
            assert(!cells_empty(cells@));
        } else {
            assert(cells_empty(cells@));
        }
    }
    if empty {
        out.append(IDLE_GLYPH);
    } else {
        let p = dominant_proto(cells.as_slice());
        out.append(GLYPH_OPEN);
        out.append(proto_color(p));
        out.append(GLYPH_MID);
        push_char(out, ch);
        out.append(GLYPH_CLOSE);
    }
}

impl LaneGrid {
    fn group(&self, k: usize, c: usize) -> (r: Vec<Option<Proto>>)
        requires
            self.wf(),
            k < 3,
            c < CHAR_HEIGHT,
        ensures
            r@ == group_cells(self.lane(k as nat), c as int),
    {
        let r0 = self.row(k, 4 * c);
        let r1 = self.row(k, 4 * c + 1);
        let r2 = self.row(k, 4 * c + 2);
        let r3 = self.row(k, 4 * c + 3);
        let mut cells: Vec<Option<Proto>> = Vec::new();
        cells.push(r0.inbound);
        cells.push(r0.outbound);
        cells.push(r1.inbound);
        cells.push(r1.outbound);
        cells.push(r2.inbound);
        cells.push(r2.outbound);
        cells.push(r3.inbound);
        cells.push(r3.outbound);
        assert(cells@ == group_cells(self.lane(k as nat), c as int));
        cells
    }

    fn glyph(&self, k: usize, c: usize, out: &mut String)
        requires
            self.wf(),
            k < 3,
            c < CHAR_HEIGHT,
        ensures
            final(out)@ == old(out)@ + glyph_markup(group_cells(self.lane(k as nat), c as int)),
    {
        let cells = self.group(k, c);
        append_glyph(&cells, out);
    }

    /// The display as markup: one line per glyph row, newest rows at the top, the
    /// TCP, UDP and other lanes side by side.
    pub fn render(&self) -> (r: String)
        requires
            self.wf(),
        ensures
            r@ == lines_markup(self.lane(0), self.lane(1), self.lane(2), CHAR_HEIGHT as nat),
    {
        let mut out = String::new();
        let mut c: usize = 0;
        while c < CHAR_HEIGHT
            invariant
                self.wf(),
                c <= CHAR_HEIGHT,
                out@ == lines_markup(self.lane(0), self.lane(1), self.lane(2), c as nat),
            decreases CHAR_HEIGHT - c,
        {
            let ghost before = out@;
            if c > 0 {
                push_char(&mut out, '\n');
            }
            self.glyph(0, c, &mut out);
            self.glyph(1, c, &mut out);
            self.glyph(2, c, &mut out);
            proof {
                let l0 = self.lane(0);
                let l1 = self.lane(1);
                let l2 = self.lane(2);
                if c == 0 {
                    assert(out@ == line_markup(l0, l1, l2, 0));
                } else {
                    assert(out@ == before + seq!['\n'] + line_markup(l0, l1, l2, c as int));
                }
            }
            c += 1;
        }
        out
    }
}

} // verus!
