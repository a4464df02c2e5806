//! Closing a detected loop at the node the search started from, and
//! collecting the rates along it.

use crate::store::{edge_index, has_edge, positive, Edge, GraphStore, NodeId};
use vstd::prelude::*;

verus! {

/// `raw` with `source` put at either end where it is not there already.
pub open spec fn closed_at(raw: Seq<NodeId>, source: NodeId) -> Seq<NodeId> {
    let ended = if raw.len() == 0 || raw.last() != source {
        raw.push(source)
    } else {
        raw
    };
    if ended[0] != source {
        seq![source] + ended
    } else {
        ended
    }
}

/// The cycle that a raw path comes to for `source`: the path closed at
/// `source`, unless that has fewer than two entries.
pub open spec fn normalized(raw: Seq<NodeId>, source: NodeId) -> Option<Seq<NodeId>> {
    let cycle = closed_at(raw, source);
    if cycle.len() < 2 {
        None
    } else {
        Some(cycle)
    }
}

/// The cycle is the raw path with `source` in front where the path is not
/// empty and begins otherwise, and with `source` behind where the path is
/// empty or ends otherwise. It begins and ends with `source`, and a raw path
/// that does so already is left as it is.
pub proof fn lemma_closed_at(raw: Seq<NodeId>, source: NodeId)
    ensures
        closed_at(raw, source) == (if raw.len() > 0 && raw.first() != source {
            seq![source]
        } else {
            Seq::empty()
        }) + raw + (if raw.len() == 0 || raw.last() != source {
            seq![source]
        } else {
            Seq::empty()
        }),
        closed_at(raw, source).len() >= 1,
        closed_at(raw, source).first() == source,
        closed_at(raw, source).last() == source,
        raw.len() >= 1 && raw.first() == source && raw.last() == source ==> closed_at(raw, source)
            == raw,
{
    let front = if raw.len() > 0 && raw.first() != source {
        seq![source]
    } else {
        Seq::empty()
    };
    let back = if raw.len() == 0 || raw.last() != source {
        seq![source]
    } else {
        Seq::empty()
    };
    assert(closed_at(raw, source) =~= front + raw + back);
}

/// Closes a raw path at `source`: appends `source` unless the path ends with
/// it, then puts `source` in front unless the path begins with it. A result
/// of fewer than two entries is dropped.
pub fn normalize(raw: Vec<NodeId>, source: NodeId) -> (r: Option<Vec<NodeId>>)
    ensures
        match r {
            Some(cycle) => normalized(raw@, source) == Some(cycle@),
            None => normalized(raw@, source) is None,
        },
{
    let mut ended = raw;
    if ended.len() == 0 || ended[ended.len() - 1] != source {
        ended.push(source);
    }
    let cycle = if ended[0] != source {
        let mut fronted: Vec<NodeId> = Vec::new();
        fronted.push(source);
        let mut i: usize = 0;
        while i < ended.len()
            invariant
                0 <= i <= ended.len(),
                fronted@ == seq![source] + ended@.take(i as int),
            decreases ended.len() - i,
        {
            fronted.push(ended[i]);
            assert(fronted@ =~= seq![source] + ended@.take(i + 1));
            i += 1;
        }
        assert(ended@.take(ended.len() as int) =~= ended@);
        fronted
    } else {
        ended
    };
    if cycle.len() < 2 {
        None
    } else {
        Some(cycle)
    }
}

/// Whether every step of the cycle, from one entry to the next, is an edge.
pub open spec fn linked(edges: Seq<Edge>, cycle: Seq<NodeId>) -> bool {
    forall|i: int| 0 <= i < cycle.len() - 1 ==> has_edge(edges, #[trigger] cycle[i], cycle[i + 1])
}

/// The rate of each step of the cycle, in order.
pub open spec fn rates_along(edges: Seq<Edge>, cycle: Seq<NodeId>) -> Seq<u64> {
    if cycle.len() == 0 {
        Seq::empty()
    } else {
        Seq::new(
            (cycle.len() - 1) as nat,
            |i: int| edges[edge_index(edges, cycle[i], cycle[i + 1])].rate,
        )
    }
}

/// The rates to multiply for the cycle's conversion factor: for each step
/// from one entry to the next, the rate of that edge as it was ingested.
/// `None` where a step is no edge of the store.
pub fn cycle_rates(store: &GraphStore, cycle: &Vec<NodeId>) -> (r: Option<Vec<u64>>)
    requires
        store.wf(),
    ensures
        r is Some <==> linked(store@.edges, cycle@),
        r matches Some(rates) ==> rates@ == rates_along(store@.edges, cycle@),
        r matches Some(rates) ==> forall|k: int|
            0 <= k < rates.len() ==> positive(#[trigger] rates[k]),
{
    let mut rates: Vec<u64> = Vec::new();
    if cycle.len() == 0 {
        assert(rates@ =~= rates_along(store@.edges, cycle@));
        return Some(rates);
    }
    let mut i: usize = 0;
    while i < cycle.len() - 1
        invariant
            store.wf(),
            cycle.len() >= 1,
            0 <= i <= cycle.len() - 1,
            rates.len() == i,
            forall|k: int| 0 <= k < i ==> has_edge(store@.edges, #[trigger] cycle[k], cycle[k + 1]),
            forall|k: int| 0 <= k < i ==> rates[k] == rates_along(store@.edges, cycle@)[k],
            forall|k: int| 0 <= k < i ==> positive(#[trigger] rates[k]),
        decreases cycle.len() - 1 - i,
    {
        match store.rate_of(cycle[i], cycle[i + 1]) {
            Some(rate) => {
                rates.push(rate);
            },
            None => {
                assert(!has_edge(store@.edges, cycle[i as int], cycle[i + 1]));
                return None;
            },
        }
        i += 1;
    }
    assert(rates@ =~= rates_along(store@.edges, cycle@));
    Some(rates)
}

/// The bit pattern of the number one.
pub const ONE: u64 = 0x3ff0_0000_0000_0000;

/// The bit pattern of positive infinity, which a product of large rates
/// comes to.
pub const INFINITE: u64 = 0x7ff0_0000_0000_0000;

/// Whether a conversion factor, the product of a cycle's rates as a bit
/// pattern, is greater than one. Among the patterns of numbers that are not
/// negative, the greater number has the greater pattern; the patterns above
/// that of infinity are no numbers.
pub open spec fn exceeds_one(factor: u64) -> bool {
    ONE < factor <= INFINITE
}

/// Whether a cycle with this conversion factor is reported: only a factor
/// greater than one is. A cycle that breaks even is left out.
pub fn is_profitable(factor: u64) -> (b: bool)
    ensures
        b == exceeds_one(factor),
{
    ONE < factor && factor <= INFINITE
}

} // verus!
