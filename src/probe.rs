use vstd::prelude::*;

use crate::meta::{ips_view, Ip};

verus! {

/// The port that each candidate is probed on.
pub const PROBE_PORT: u16 = 443;

/// How long one connection attempt may take, in milliseconds.
pub const PROBE_TIMEOUT_MS: u64 = 100;

/// The endpoint that a candidate is resolved and probed at: `<ip>:443`.
pub fn endpoint(ip: &Ip) -> (r: String)
    ensures
        r@ == ip@ + ":443"@,
{
    String::from_str(ip.0.as_str()).concat(":443")
}

/// What a candidate's endpoint resolved to.
#[derive(Debug)]
pub enum Resolved {
    /// Its first IPv4 socket address, in dotted-quad text.
    Ipv4(String),
    /// No IPv4 address: addresses of other families only, or none at all.
    Other,
}

/// The addresses that are probed: those of the candidates that resolved to
/// IPv4, in candidate order.
pub open spec fn targets_of(rs: Seq<Resolved>) -> Seq<Seq<char>> {
    rs.filter(|r: Resolved| r is Ipv4).map_values(|r: Resolved| r->Ipv4_0@)
}

/// The candidates to probe, in order: one for each resolution that gave an
/// IPv4 address.
pub fn probe_targets(resolved: &Vec<Resolved>) -> (r: Vec<Ip>)
    ensures
        ips_view(r@) == targets_of(resolved@),
{
    let ghost is4 = |r: Resolved| r is Ipv4;
    let ghost addr = |r: Resolved| r->Ipv4_0@;
    let mut r: Vec<Ip> = Vec::new();
    assert(resolved@.subrange(0, 0).filter(is4) =~= Seq::<Resolved>::empty()) by {
        reveal(Seq::filter);
    }
    for i in 0..resolved.len()
        invariant
            is4 == (|r: Resolved| r is Ipv4),
            addr == (|r: Resolved| r->Ipv4_0@),
            ips_view(r@) == resolved@.subrange(0, i as int).filter(is4).map_values(addr),
    {
        let ghost before = r@;
        let ghost prefix = resolved@.subrange(0, i as int);
        match &resolved[i] {
            Resolved::Ipv4(a) => {
                r.push(Ip(a.clone()));
            },
            Resolved::Other => {},
        }
        proof {
            let x = resolved@[i as int];
            assert(resolved@.subrange(0, i + 1) =~= prefix.push(x));
            assert(prefix.push(x).drop_last() =~= prefix);
            reveal(Seq::filter);
            if x is Ipv4 {
                assert(ips_view(r@) =~= ips_view(before).push(x->Ipv4_0@));
                assert(prefix.push(x).filter(is4).map_values(addr) =~= prefix.filter(
                    is4,
                ).map_values(addr).push(addr(x)));
            } else {
                assert(r@ == before);
            }
        }
    }
    assert(resolved@.subrange(0, resolved@.len() as int) =~= resolved@);
    r
}

/// The measured outcome of one probe: how long the connection attempt took,
/// whether it succeeded or not, and the address that was probed.
#[derive(Debug)]
pub struct ProbeResult {
    pub elapsed_ms: u64,
    pub address: String,
}

/// Whether the result at `i` wins: no result took less time, and every
/// earlier one took more.
pub open spec fn is_fastest(rs: Seq<ProbeResult>, i: int) -> bool {
    &&& 0 <= i < rs.len()
    &&& forall|j: int| 0 <= j < rs.len() ==> rs[i].elapsed_ms <= #[trigger] rs[j].elapsed_ms
    &&& forall|j: int| 0 <= j < i ==> rs[i].elapsed_ms < #[trigger] rs[j].elapsed_ms
}

/// The address of the winning result, if there is any result.
pub open spec fn winner(rs: Seq<ProbeResult>) -> Option<Seq<char>> {
    if exists|i: int| is_fastest(rs, i) {
        Some(rs[choose|i: int| is_fastest(rs, i)].address@)
    } else {
        None
    }
}

/// At most one result wins.
pub proof fn lemma_fastest_unique(rs: Seq<ProbeResult>, i: int, j: int)
    requires
        is_fastest(rs, i),
        is_fastest(rs, j),
    ensures
        i == j,
{
    if i < j {
        assert(rs[j].elapsed_ms < rs[i].elapsed_ms);
    } else if j < i {
        assert(rs[i].elapsed_ms < rs[j].elapsed_ms);
    }
}

/// Every non-empty list of results has a winning result.
pub proof fn lemma_fastest_exists(rs: Seq<ProbeResult>)
    requires
        rs.len() > 0,
    ensures
        exists|i: int| is_fastest(rs, i),
    decreases rs.len(),
{
    if rs.len() == 1 {
        assert(is_fastest(rs, 0));
    } else {
        let pre = rs.drop_last();
        lemma_fastest_exists(pre);
        let i = choose|i: int| is_fastest(pre, i);
        let last = rs.len() - 1;
        if rs[last].elapsed_ms < rs[i].elapsed_ms {
            assert forall|j: int| 0 <= j < last implies rs[last].elapsed_ms
                < #[trigger] rs[j].elapsed_ms by {
                assert(pre[j] == rs[j]);
            }
            assert(is_fastest(rs, last));
        } else {
            assert forall|j: int| 0 <= j < rs.len() implies rs[i].elapsed_ms
                <= #[trigger] rs[j].elapsed_ms by {
                if j < last {
                    assert(pre[j] == rs[j]);
                }
            }
            assert forall|j: int| 0 <= j < i implies rs[i].elapsed_ms
                < #[trigger] rs[j].elapsed_ms by {
                assert(pre[j] == rs[j]);
            }
            assert(is_fastest(rs, i));
        }
    }
}

/// With one probe result for each probed address, in order, a winner is
/// chosen exactly when some candidate resolved to an IPv4 address: never for
/// an empty candidate list, nor for one where no candidate did. The winner
/// is then one of the probed addresses.
pub proof fn lemma_winner_iff_ipv4(resolved: Seq<Resolved>, results: Seq<ProbeResult>)
    requires
        results.len() == targets_of(resolved).len(),
        forall|i: int|
            0 <= i < results.len() ==> #[trigger] results[i].address@ == targets_of(resolved)[i],
    ensures
        winner(results) is Some <==> exists|i: int|
            0 <= i < resolved.len() && #[trigger] resolved[i] is Ipv4,
        winner(results) is Some ==> targets_of(resolved).contains(winner(results)->0),
{
    let is4 = |r: Resolved| r is Ipv4;
    let f = resolved.filter(is4);
    if exists|i: int| 0 <= i < resolved.len() && #[trigger] resolved[i] is Ipv4 {
        let i = choose|i: int| 0 <= i < resolved.len() && #[trigger] resolved[i] is Ipv4;
        resolved.lemma_filter_contains(is4, i);
        assert(f.len() > 0);
        lemma_fastest_exists(results);
    }
    if results.len() > 0 {
        resolved.lemma_filter_pred(is4, 0);
        resolved.lemma_filter_contains_rev(is4, f[0]);
        let k = choose|k: int| 0 <= k < resolved.len() && resolved[k] == f[0];
        assert(resolved[k] is Ipv4);
        lemma_fastest_exists(results);
        let c = choose|i: int| is_fastest(results, i);
        assert(targets_of(resolved)[c] == winner(results)->0);
    }
}

/// The address of a candidate option.
pub open spec fn opt_view(r: Option<Ip>) -> Option<Seq<char>> {
    match r {
        Some(ip) => Some(ip@),
        None => None,
    }
}

/// The winner among the probe results: the address of the result that took
/// the least time, the first such in list order; nothing if there are no
/// results.
pub fn select_fastest(results: &Vec<ProbeResult>) -> (r: Option<Ip>)
    ensures
        opt_view(r) == winner(results@),
        r is None <==> results@.len() == 0,
{
    if results.len() == 0 {
        return None;
    }
    let mut best: usize = 0;
    for i in 1..results.len()
        invariant
            results@.len() > 0,
            best < i <= results@.len(),
            forall|j: int| 0 <= j < i ==> results@[best as int].elapsed_ms <= #[trigger] results@[j].elapsed_ms,
            forall|j: int| 0 <= j < best ==> results@[best as int].elapsed_ms < #[trigger] results@[j].elapsed_ms,
    {
        if results[i].elapsed_ms < results[best].elapsed_ms {
            best = i;
        }
    }
    proof {
        let rs = results@;
        assert(is_fastest(rs, best as int));
        let c = choose|i: int| is_fastest(rs, i);
        lemma_fastest_unique(rs, c, best as int);
    }
    Some(Ip(results[best].address.clone()))
}

} // verus!
