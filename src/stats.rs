//! Interface byte counters: reading them from the kernel's per-device table, turning
//! two readings into a rate, and printing a rate compactly.
use vstd::prelude::*;
use vstd::utf8::encode_utf8;

verus! {

/// Bytes per second between two readings of a counter `elapsed_ms` apart. A counter
/// that went down (reset or wrapped) and an empty interval give 0; a rate too large
/// for `u64` is `u64::MAX`.
pub open spec fn rate_of(prev: u64, curr: u64, elapsed_ms: u64) -> u64 {
    if elapsed_ms == 0 || curr < prev {
        0
    } else {
        let r = (curr - prev) * 1000 / elapsed_ms as int;
        if r > u64::MAX {
            u64::MAX
        } else {
            r as u64
        }
    }
}

pub fn byte_rate(prev: u64, curr: u64, elapsed_ms: u64) -> (r: u64)
    ensures
        r == rate_of(prev, curr, elapsed_ms),
{
    if elapsed_ms == 0 || curr < prev {
        return 0;
    }
    let r = ((curr - prev) as u128) * 1000 / (elapsed_ms as u128);
    if r > u64::MAX as u128 {
        u64::MAX
    } else {
        r as u64
    }
}

/// `n / d` rounded to the nearest integer, ties to even.
pub open spec fn round_div(n: nat, d: nat) -> nat
    recommends
        d > 0,
{
    let q = n / d;
    let r = n % d;
    if 2 * r > d || (2 * r == d && q % 2 == 1) {
        q + 1
    } else {
        q
    }
}

pub open spec fn digit_char(d: nat) -> char {
    ((48 + d) as u8) as char
}

/// Decimal digits of `n`, without leading zeros.
pub open spec fn decimal(n: nat) -> Seq<char>
    decreases n,
{
    if n < 10 {
        seq![digit_char(n)]
    } else {
        decimal(n / 10) + seq![digit_char(n % 10)]
    }
}

/// Number of times 1024 divides into the unit: the largest `k <= 4` with
/// `n >= 1024^k`.
pub open spec fn unit_index(n: nat) -> nat {
    if n >= 0x100_0000_0000 {
        4
    } else if n >= 0x4000_0000 {
        3
    } else if n >= 0x10_0000 {
        2
    } else if n >= 0x400 {
        1
    } else {
        0
    }
}

pub open spec fn unit_size(k: nat) -> nat {
    if k == 4 {
        0x100_0000_0000
    } else if k == 3 {
        0x4000_0000
    } else if k == 2 {
        0x10_0000
    } else if k == 1 {
        0x400
    } else {
        1
    }
}

pub open spec fn unit_suffix(k: nat) -> Seq<char> {
    if k == 4 {
        seq!['T']
    } else if k == 3 {
        seq!['G']
    } else if k == 2 {
        seq!['M']
    } else if k == 1 {
        seq!['K']
    } else {
        Seq::empty()
    }
}

/// `n` in the largest binary unit (K, M, G, T) that it reaches: whole when at least
/// 10 units or in plain bytes, else with one decimal; rounded to nearest, ties to even.
pub open spec fn bytes_text(n: nat) -> Seq<char> {
    let k = unit_index(n);
    let d = unit_size(k);
    if k == 0 || n >= 10 * d {
        decimal(round_div(n, d)) + unit_suffix(k)
    } else {
        let t = round_div(10 * n, d);
        decimal(t / 10) + seq!['.'] + decimal(t % 10) + unit_suffix(k)
    }
}

/// Relies on `String::push`: appends one character.
#[verifier::external_body]
pub(crate) fn push_char(s: &mut String, c: char)
    ensures
        final(s)@ == old(s)@.push(c),
{
    s.push(c)
}

/// Appends the decimal digits of `n`.
pub fn push_decimal(out: &mut String, n: u64)
    ensures
        final(out)@ == old(out)@ + decimal(n as nat),
    decreases n,
{
    if n >= 10 {
        push_decimal(out, n / 10);
    }
    let d = (n % 10) as u8;
    push_char(out, (48u8 + d) as char);
    proof {
        if n < 10 {
            assert(decimal(n as nat) == seq![digit_char(n as nat)]);
        }
    }
}

fn round_div_exec(n: u128, d: u128) -> (r: u128)
    requires
        0 < d <= u64::MAX as u128,
        n <= u64::MAX as u128 * 10,
    ensures
        r == round_div(n as nat, d as nat),
        r <= n / d + 1,
{
    let q = n / d;
    let r = n % d;
    if 2 * r > d || (2 * r == d && q % 2 == 1) {
        q + 1
    } else {
        q
    }
}

/// Compact text for a byte count or rate: `512`, `1.5K`, `12M`.
pub fn format_bytes(bytes: u64) -> (r: String)
    ensures
        r@ == bytes_text(bytes as nat),
{
    let n = bytes as u128;
    let (k, d): (u64, u128) = if n >= 0x100_0000_0000 {
        (4, 0x100_0000_0000)
    } else if n >= 0x4000_0000 {
        (3, 0x4000_0000)
    } else if n >= 0x10_0000 {
        (2, 0x10_0000)
    } else if n >= 0x400 {
        (1, 0x400)
    } else {
        (0, 1)
    };
    assert(k == unit_index(bytes as nat) && d == unit_size(k as nat));
    let mut out = String::new();
    if k == 0 || n >= 10 * d {
        let v = round_div_exec(n, d);
        assert(v <= u64::MAX) by {
            assert(n / d <= n);
        }
        push_decimal(&mut out, v as u64);
    } else {
        let t = round_div_exec(10 * n, d);
        assert(t <= 100);
        push_decimal(&mut out, (t / 10) as u64);
        push_char(&mut out, '.');
        push_decimal(&mut out, (t % 10) as u64);
    }
    if k == 4 {
        push_char(&mut out, 'T');
    } else if k == 3 {
        push_char(&mut out, 'G');
    } else if k == 2 {
        push_char(&mut out, 'M');
    } else if k == 1 {
        push_char(&mut out, 'K');
    }
    out
}

/// ASCII whitespace: space, tab, line feed, vertical tab, form feed, carriage return.
pub open spec fn is_space(c: u8) -> bool {
    c == 32 || c == 9 || c == 10 || c == 11 || c == 12 || c == 13
}

/// Where the whitespace-separated fields of `b` lie, as `(start, end)` pairs, in order.
pub open spec fn field_spans(b: Seq<u8>) -> Seq<(usize, usize)>
    decreases b.len(),
{
    if b.len() == 0 {
        Seq::empty()
    } else {
        let prev = field_spans(b.drop_last());
        let i = b.len() - 1;
        if is_space(b[i]) {
            prev
        } else if i > 0 && !is_space(b[i - 1]) && prev.len() > 0 {
            prev.update(prev.len() - 1, (prev.last().0, (i + 1) as usize))
        } else {
            prev.push((i as usize, (i + 1) as usize))
        }
    }
}

/// Value of a run of decimal digits.
pub open spec fn digits_value(s: Seq<u8>) -> nat
    decreases s.len(),
{
    if s.len() == 0 {
        0
    } else {
        digits_value(s.drop_last()) * 10 + (s.last() - 48) as nat
    }
}

pub open spec fn all_digits(s: Seq<u8>) -> bool {
    forall|i: int| 0 <= i < s.len() ==> 48 <= #[trigger] s[i] <= 57
}

/// An unsigned decimal number as `str::parse::<u64>` reads it: an optional `+`,
/// then one or more digits, with a value that fits in `u64`.
pub open spec fn parse_u64(s: Seq<u8>) -> Option<u64> {
    let d = if s.len() > 0 && s[0] == 43 {
        s.drop_first()
    } else {
        s
    };
    if d.len() > 0 && all_digits(d) && digits_value(d) <= u64::MAX {
        Some(digits_value(d) as u64)
    } else {
        None
    }
}

/// `n` occurs in `h`.
pub open spec fn contains_bytes(h: Seq<u8>, n: Seq<u8>) -> bool {
    exists|i: int| 0 <= i && i + n.len() <= h.len() && #[trigger] h.subrange(i, i + n.len()) == n
}

/// A field of the table read as a counter: 0 when it is missing or not a number.
pub open spec fn counter_field(b: Seq<u8>, spans: Seq<(usize, usize)>, k: int) -> u64 {
    if k < spans.len() {
        match parse_u64(b.subrange(spans[k].0 as int, spans[k].1 as int)) {
            Some(v) => v,
            None => 0,
        }
    } else {
        0
    }
}

/// The received and sent byte counters on one line of the per-device table, when the
/// line mentions `name` and has more than nine fields. The received count is the
/// field after the name, which is the first field when it ends in `:`, else the
/// second; the sent count is eight fields further.
pub open spec fn line_counters(b: Seq<u8>, name: Seq<u8>) -> Option<(u64, u64)> {
    let spans = field_spans(b);
    if contains_bytes(b, name) && spans.len() > 9 {
        let first_end = spans[0].1 as int;
        let rx = if b[first_end - 1] == 58 {
            1int
        } else {
            2int
        };
        Some((counter_field(b, spans, rx), counter_field(b, spans, rx + 8)))
    } else {
        None
    }
}

proof fn lemma_spans_shape(b: Seq<u8>)
    requires
        b.len() <= usize::MAX,
    ensures
        forall|k: int| 0 <= k < field_spans(b).len() ==> {
            let s = #[trigger] field_spans(b)[k];
            s.0 < s.1 <= b.len()
        },
        b.len() > 0 && !is_space(b.last()) ==> field_spans(b).len() > 0 && field_spans(b).last().1
            == b.len(),
    decreases b.len(),
{
    if b.len() > 0 {
        let t = b.drop_last();
        lemma_spans_shape(t);
        let prev = field_spans(t);
        let r = field_spans(b);
        let i = b.len() - 1;
        if !is_space(b[i]) {
            if i > 0 && !is_space(b[i - 1]) && prev.len() > 0 {
                assert(t.last() == b[i - 1]);
                assert forall|k: int| 0 <= k < r.len() implies {
                    let s = #[trigger] r[k];
                    s.0 < s.1 <= b.len()
                } by {
                    if k < prev.len() - 1 {
                        assert(r[k] == prev[k]);
                    }
                }
            } else {
                assert forall|k: int| 0 <= k < r.len() implies {
                    let s = #[trigger] r[k];
                    s.0 < s.1 <= b.len()
                } by {
                    if k < prev.len() {
                        assert(r[k] == prev[k]);
                    }
                }
            }
        }
    }
}

fn fields(b: &[u8]) -> (r: Vec<(usize, usize)>)
    ensures
        r@ == field_spans(b@),
{
    let n = b.len();
    let mut spans: Vec<(usize, usize)> = Vec::new();
    let mut i: usize = 0;
    while i < n
        invariant
            n == b@.len(),
            i <= n,
            spans@ == field_spans(b@.subrange(0, i as int)),
        decreases n - i,
    {
        let ghost pre = b@.subrange(0, i as int + 1);
        proof {
            assert(pre.drop_last() == b@.subrange(0, i as int));
            lemma_spans_shape(b@.subrange(0, i as int));
        }
        let c = b[i];
        let space = c == 32 || c == 9 || c == 10 || c == 11 || c == 12 || c == 13;
        if !space {
            let prev_space = i == 0 || {
                let p = b[i - 1];
                p == 32 || p == 9 || p == 10 || p == 11 || p == 12 || p == 13
            };
            if !prev_space && spans.len() > 0 {
                let last = spans.len() - 1;
                let (s0, _) = spans[last];
                spans.set(last, (s0, i + 1));
            } else {
                spans.push((i, i + 1));
            }
        }
        i += 1;
    }
    assert(b@.subrange(0, n as int) == b@);
    spans
}

proof fn lemma_digits_push(s: Seq<u8>, c: u8)
    ensures
        digits_value(s.push(c)) == digits_value(s) * 10 + (c - 48) as nat,
{
    assert(s.push(c).drop_last() == s);
}

fn parse_field(b: &[u8], start: usize, end: usize) -> (r: Option<u64>)
    requires
        start <= end <= b@.len(),
    ensures
        r == parse_u64(b@.subrange(start as int, end as int)),
{
    let ghost s = b@.subrange(start as int, end as int);
    let mut i = start;
    if i < end && b[i] == 43 {
        i += 1;
    }
    let ghost d = b@.subrange(i as int, end as int);
    proof {
        if s.len() > 0 && s[0] == 43 {
            assert(d == s.drop_first());
        } else {
            assert(d == s);
        }
    }
    if i == end {
        return None;
    }
    let cap: u128 = u64::MAX as u128 + 1;
    let mut acc: u128 = 0;
    let digits_from = i;
    while i < end
        invariant
            start <= digits_from <= i <= end <= b@.len(),
            d == b@.subrange(digits_from as int, end as int),
            s == b@.subrange(start as int, end as int),
            d == (if s.len() > 0 && s[0] == 43 {
                s.drop_first()
            } else {
                s
            }),
            cap == u64::MAX as u128 + 1,
            all_digits(b@.subrange(digits_from as int, i as int)),
            acc == if digits_value(b@.subrange(digits_from as int, i as int)) >= cap {
                cap as nat
            } else {
                digits_value(b@.subrange(digits_from as int, i as int))
            },
        decreases end - i,
    {
        let c = b[i];
        let ghost pre = b@.subrange(digits_from as int, i as int);
        proof {
            assert(b@.subrange(digits_from as int, i as int + 1) == pre.push(c));
            lemma_digits_push(pre, c);
        }
        if c < 48 || c > 57 {
            proof {
                assert(d[i - digits_from] == c);
                assert(!all_digits(d));
            }
            return None;
        }
        let v = acc * 10 + (c - 48) as u128;
        acc = if v >= cap {
            cap
        } else {
            v
        };
        proof {
            let next = b@.subrange(digits_from as int, i as int + 1);
            assert forall|j: int| 0 <= j < next.len() implies 48 <= #[trigger] next[j] <= 57 by {
                if j < pre.len() {
                    assert(next[j] == pre[j]);
                }
            }
        }
        i += 1;
    }
    if acc >= cap {
        None
    } else {
        Some(acc as u64)
    }
}

fn contains(h: &[u8], n: &[u8]) -> (r: bool)
    ensures
        r == contains_bytes(h@, n@),
{
    let hn = h.len();
    let m = n.len();
    if m == 0 {
        assert(h@.subrange(0int, 0int + n@.len()) == n@);
        return true;
    }
    if m > hn {
        return false;
    }
    let last = hn - m;
    let mut i: usize = 0;
    while i <= last
        invariant
            hn == h@.len(),
            m == n@.len(),
            m > 0,
            last + m == hn,
            i <= last + 1,
            forall|k: int| 0 <= k < i ==> #[trigger] h@.subrange(k, k + m) != n@,
        decreases last + 1 - i,
    {
        let mut j: usize = 0;
        let mut same = true;
        while j < m
            invariant
                hn == h@.len(),
                m == n@.len(),
                last + m == hn,
                i <= last,
                j <= m,
                same == (forall|t: int| 0 <= t < j ==> h@[i + t] == n@[t]),
            decreases m - j,
        {
            if h[i + j] != n[j] {
                same = false;
            }
            j += 1;
        }
        if same {
            assert(h@.subrange(i as int, i + m) == n@);
            return true;
        }
        proof {
            assert(h@.subrange(i as int, i + m) != n@) by {
                let t = choose|t: int| 0 <= t < m && h@[i + t] != n@[t];
                assert(h@.subrange(i as int, i + m)[t] != n@[t]);
            }
        }
        i += 1;
    }
    false
}

/// The byte counters on one line of the kernel's per-device table, when the line
/// belongs to interface `name`.
pub fn dev_line_counters(line: &str, name: &str) -> (r: Option<(u64, u64)>)
    ensures
        r == line_counters(encode_utf8(line@), encode_utf8(name@)),
{
    let b = line.as_bytes();
    let nb = name.as_bytes();
    let spans = fields(b);
    let len = b.len();
    proof {
        assert(b@.len() == len);
        lemma_spans_shape(b@);
    }
    if !contains(b, nb) || spans.len() <= 9 {
        return None;
    }
    let (_, first_end) = spans[0];
    let rx_idx: usize = if b[first_end - 1] == 58 {
        1
    } else {
        2
    };
    let tx_idx = rx_idx + 8;
    let (rs, re) = spans[rx_idx];
    let rx = match parse_field(b, rs, re) {
        Some(v) => v,
        None => 0,
    };
    let tx = if tx_idx < spans.len() {
        let (ts, te) = spans[tx_idx];
        match parse_field(b, ts, te) {
            Some(v) => v,
            None => 0,
        }
    } else {
        0
    };
    Some((rx, tx))
}

/// Counters of interface `name` in the per-device table: those on the first line,
/// from `i` on, that belongs to it; `(0, 0)` when none does.
pub open spec fn table_counters(lines: Seq<String>, name: Seq<u8>, i: int) -> (u64, u64)
    decreases lines.len() - i,
{
    if i < 0 || i >= lines.len() {
        (0, 0)
    } else {
        match line_counters(encode_utf8(lines[i]@), name) {
            Some(c) => c,
            None => table_counters(lines, name, i + 1),
        }
    }
}

/// Received and sent byte counters of interface `name`, from the lines of the
/// kernel's per-device table; `(0, 0)` when no line belongs to it.
pub fn device_counters(lines: &[String], name: &str) -> (r: (u64, u64))
    ensures
        r == table_counters(lines@, encode_utf8(name@), 0),
{
    let n = lines.len();
    let mut i: usize = 0;
    while i < n
        invariant
            n == lines@.len(),
            i <= n,
            table_counters(lines@, encode_utf8(name@), 0) == table_counters(
                lines@,
                encode_utf8(name@),
                i as int,
            ),
        decreases n - i,
    {
        match dev_line_counters(lines[i].as_str(), name) {
            Some(c) => {
                return c;
            },
            None => {},
        }
        i += 1;
    }
    (0, 0)
}

} // verus!
