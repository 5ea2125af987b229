//! Choosing the network interface to watch.
use vstd::prelude::*;
use vstd::utf8::encode_utf8;

verus! {

/// What the selector needs to know of one interface.
#[derive(Debug)]
pub struct InterfaceInfo {
    pub name: String,
    pub is_loopback: bool,
    pub is_up: bool,
    pub has_addresses: bool,
}

/// The UTF-8 bytes of a name.
pub open spec fn name_bytes(name: Seq<char>) -> Seq<u8> {
    encode_utf8(name)
}

pub open spec fn starts_with(b: Seq<u8>, p: Seq<u8>) -> bool {
    p.len() <= b.len() && b.subrange(0, p.len() as int) == p
}

/// Priority of an interface name, over its bytes (prefixes written as ASCII codes): wired (`en`, `eth`) 4, wireless (`w`) 3, bridges
/// and virtual links (`br`, `docker`, `veth`) 0, anything else 2.
pub open spec fn score_of(b: Seq<u8>) -> u8 {
    if starts_with(b, seq![101u8, 110u8]) || starts_with(b, seq![101u8, 116u8, 104u8]) {
        4
    } else if starts_with(b, seq![119u8]) {
        3
    } else if starts_with(b, seq![98u8, 114u8]) || starts_with(
        b,
        seq![100u8, 111u8, 99u8, 107u8, 101u8, 114u8],
    ) || starts_with(b, seq![118u8, 101u8, 116u8, 104u8]) {
        0
    } else {
        2
    }
}

fn has_prefix(b: &[u8], p: &Vec<u8>) -> (r: bool)
    ensures
        r == starts_with(b@, p@),
{
    if p.len() > b.len() {
        return false;
    }
    let n = p.len();
    let mut i: usize = 0;
    while i < n
        invariant
            n == p@.len(),
            n <= b@.len(),
            i <= n,
            forall|j: int| 0 <= j < i ==> b@[j] == p@[j],
        decreases n - i,
    {
        if b[i] != p[i] {
            assert(b@.subrange(0, n as int)[i as int] != p@[i as int]);
            return false;
        }
        i += 1;
    }
    assert(b@.subrange(0, n as int) == p@);
    true
}

/// Priority of an interface name, from its leading bytes.
pub fn name_score(name: &str) -> (r: u8)
    ensures
        r == score_of(name_bytes(name@)),
{
    let b = name.as_bytes();
    let mut en: Vec<u8> = Vec::new();
    en.push(101u8);
    en.push(110u8);
    let mut eth: Vec<u8> = Vec::new();
    eth.push(101u8);
    eth.push(116u8);
    eth.push(104u8);
    let mut w: Vec<u8> = Vec::new();
    w.push(119u8);
    let mut br: Vec<u8> = Vec::new();
    br.push(98u8);
    br.push(114u8);
    let mut docker: Vec<u8> = Vec::new();
    docker.push(100u8);
    docker.push(111u8);
    docker.push(99u8);
    docker.push(107u8);
    docker.push(101u8);
    docker.push(114u8);
    let mut veth: Vec<u8> = Vec::new();
    veth.push(118u8);
    veth.push(101u8);
    veth.push(116u8);
    veth.push(104u8);
    proof {
        assert(en@ == seq![101u8, 110u8]);
        assert(eth@ == seq![101u8, 116u8, 104u8]);
        assert(w@ == seq![119u8]);
        assert(br@ == seq![98u8, 114u8]);
        assert(veth@ == seq![118u8, 101u8, 116u8, 104u8]);
        assert(docker@ == seq![100u8, 111u8, 99u8, 107u8, 101u8, 114u8]);
    }
    if has_prefix(b, &en) || has_prefix(b, &eth) {
        4
    } else if has_prefix(b, &w) {
        3
    } else if has_prefix(b, &br) || has_prefix(b, &docker) || has_prefix(b, &veth) {
        0
    } else {
        2
    }
}

/// Loopback, down or addressless interfaces are never picked by the heuristics.
pub open spec fn eligible(i: InterfaceInfo) -> bool {
    !i.is_loopback && i.is_up && i.has_addresses
}

/// The first interface named `wanted`.
pub open spec fn first_named(ifaces: Seq<InterfaceInfo>, wanted: Seq<char>, n: nat) -> Option<usize>
    decreases n,
{
    if n == 0 {
        None
    } else {
        match first_named(ifaces, wanted, (n - 1) as nat) {
            Some(i) => Some(i),
            None => if ifaces[n - 1].name@ == wanted {
                Some((n - 1) as usize)
            } else {
                None
            },
        }
    }
}

proof fn lemma_first_named_stays(ifaces: Seq<InterfaceInfo>, wanted: Seq<char>, i: nat, n: nat)
    requires
        i < n <= ifaces.len(),
        first_named(ifaces, wanted, i) is None,
        ifaces[i as int].name@ == wanted,
    ensures
        first_named(ifaces, wanted, n) == Some(i as usize),
    decreases n,
{
    if n > i + 1 {
        lemma_first_named_stays(ifaces, wanted, i, (n - 1) as nat);
    }
}

/// Among the first `n` interfaces, the eligible one with the highest name score;
/// of equal scores the last wins.
pub open spec fn best_scored(ifaces: Seq<InterfaceInfo>, n: nat) -> Option<usize>
    decreases n,
{
    if n == 0 {
        None
    } else {
        let prev = best_scored(ifaces, (n - 1) as nat);
        let c = ifaces[n - 1];
        if eligible(c) && match prev {
            Some(b) => score_of(name_bytes(c.name@)) >= score_of(name_bytes(ifaces[b as int].name@)),
            None => true,
        } {
            Some((n - 1) as usize)
        } else {
            prev
        }
    }
}

/// Sum of received and sent byte counters.
pub open spec fn traffic(c: (u64, u64)) -> int {
    c.0 as int + c.1 as int
}

/// Among the first `n` interfaces, the eligible one with the most traffic, when
/// some has any; of equal counts the first wins.
pub open spec fn busiest(ifaces: Seq<InterfaceInfo>, counters: Seq<(u64, u64)>, n: nat) -> Option<usize>
    decreases n,
{
    if n == 0 {
        None
    } else {
        let prev = busiest(ifaces, counters, (n - 1) as nat);
        let best = match prev {
            Some(b) => traffic(counters[b as int]),
            None => 0,
        };
        if eligible(ifaces[n - 1]) && traffic(counters[n - 1]) > best {
            Some((n - 1) as usize)
        } else {
            prev
        }
    }
}

/// The interface to watch. With a name asked for, the first interface of that name,
/// whatever its state. Otherwise the eligible interface whose name scores highest,
/// the last of equals.
pub fn select_interface(ifaces: &[InterfaceInfo], wanted: Option<&str>) -> (r: Option<usize>)
    ensures
        wanted matches Some(w) ==> r == first_named(ifaces@, w@, ifaces@.len()),
        wanted is None ==> r == best_scored(ifaces@, ifaces@.len()),
        r matches Some(i) ==> i < ifaces@.len(),
{
    let n = ifaces.len();
    match wanted {
        Some(w) => {
            let target = w.to_owned();
            let mut i: usize = 0;
            while i < n
                invariant
                    n == ifaces@.len(),
                    i <= n,
                    target@ == w@,
                    wanted == Some(w),
                    first_named(ifaces@, w@, i as nat) is None,
                decreases n - i,
            {
                if ifaces[i].name.eq(&target) {
                    proof {
                        lemma_first_named_stays(ifaces@, w@, i as nat, n as nat);
                    }
                    return Some(i);
                }
                i += 1;
            }
            None
        },
        None => {
            let mut best: Option<usize> = None;
            let mut best_score: u8 = 0;
            let mut i: usize = 0;
            while i < n
                invariant
                    n == ifaces@.len(),
                    i <= n,
                    best == best_scored(ifaces@, i as nat),
                    best matches Some(b) ==> b < i && best_score == score_of(
                        name_bytes(ifaces@[b as int].name@),
                    ),
                decreases n - i,
            {
                let c = &ifaces[i];
                if !c.is_loopback && c.is_up && c.has_addresses {
                    let sc = name_score(c.name.as_str());
                    let take = match best {
                        Some(_) => sc >= best_score,
                        None => true,
                    };
                    if take {
                        best = Some(i);
                        best_score = sc;
                    }
                }
                i += 1;
            }
            best
        },
    }
}

/// The eligible interface that has moved the most bytes, from each interface's
/// received and sent counters (`counters[i]` belongs to `ifaces[i]`); the first of
/// equals, and none when no eligible interface has moved any.
pub fn select_by_traffic(ifaces: &[InterfaceInfo], counters: &[(u64, u64)]) -> (r: Option<usize>)
    requires
        counters@.len() == ifaces@.len(),
    ensures
        r == busiest(ifaces@, counters@, ifaces@.len()),
        r matches Some(i) ==> i < ifaces@.len(),
{
    let n = ifaces.len();
    let mut best: Option<usize> = None;
    let mut max_bytes: u128 = 0;
    let mut i: usize = 0;
    while i < n
        invariant
            n == ifaces@.len(),
            n == counters@.len(),
            i <= n,
            best == busiest(ifaces@, counters@, i as nat),
            max_bytes == match best {
                Some(b) => traffic(counters@[b as int]),
                None => 0,
            },
            best matches Some(b) ==> b < i,
        decreases n - i,
    {
        let c = &ifaces[i];
        let (rx, tx) = counters[i];
        let total = rx as u128 + tx as u128;
        if !c.is_loopback && c.is_up && c.has_addresses && total > max_bytes {
            best = Some(i);
            max_bytes = total;
        }
        i += 1;
    }
    best
}

} // verus!
