//! Taking in a batch of exchanges and sweeping the graph for cycles.

use crate::cycle::{
    closed_at, cycle_rates, lemma_closed_at, linked, normalize, normalized, rates_along,
};
use crate::detect::{edges_within, find_negative_cycle, negative_cycle, runs_out};
use crate::parse::{
    exchange_views, parse_input, parsed, triples, Exchange, ExchangeView, ParseError,
    ParseErrorView, Quote,
};
use crate::scan::{first_index, lemma_first_index, lemma_first_index_push};
use crate::store::{
    has_room, intern, lemma_upsert, lemma_upsert_other, lookup, upsert, within_capacity, Edge,
    GraphStore, GraphView, NodeId,
};
use crate::text::split;
use crate::theory::{is_loop, is_negative_loop, lemma_found_iff_reachable, lemma_path_is_loop};
use crate::walks::{negative_cycle_reachable, reachable};
use vstd::prelude::*;

verus! {

/// The edge that an exchange puts from its first currency to its second.
pub open spec fn forward_edge(names: Seq<Seq<char>>, x: ExchangeView) -> Edge {
    Edge {
        from: first_index(names, x.from) as NodeId,
        to: first_index(names, x.to) as NodeId,
        weight: x.quote.forward.weight,
        rate: x.quote.forward.rate,
    }
}

/// The edge that an exchange puts from its second currency back to its first.
pub open spec fn inverse_edge(names: Seq<Seq<char>>, x: ExchangeView) -> Edge {
    Edge {
        from: first_index(names, x.to) as NodeId,
        to: first_index(names, x.from) as NodeId,
        weight: x.quote.inverse.weight,
        rate: x.quote.inverse.rate,
    }
}

/// The graph after one exchange: both currencies have ids, first `from` and
/// then `to`, and the forward edge and then the inverse edge are upserted.
pub open spec fn applied(g: GraphView, x: ExchangeView) -> GraphView {
    let names = intern(intern(g.names, x.from), x.to);
    GraphView {
        names,
        edges: upsert(upsert(g.edges, forward_edge(names, x)), inverse_edge(names, x)),
    }
}

/// The graph after a list of exchanges, applied in order.
pub open spec fn applied_all(g: GraphView, batch: Seq<ExchangeView>) -> GraphView
    decreases batch.len(),
{
    if batch.len() == 0 {
        g
    } else {
        applied(applied_all(g, batch.drop_last()), batch.last())
    }
}

/// Taking in the same exchange a second time changes nothing: no currency
/// gets a second id, no pair a second edge, and every weight and rate is
/// what the first time left.
pub proof fn lemma_reingest(g: GraphView, x: ExchangeView)
    ensures
        applied(applied(g, x), x) == applied(g, x),
{
    let once = applied(g, x);
    let names = once.names;
    lemma_first_index(g.names, x.from);
    lemma_first_index(intern(g.names, x.from), x.to);
    assert(intern(g.names, x.from).contains(x.from)) by {
        if !g.names.contains(x.from) {
            assert(g.names.push(x.from)[g.names.len() as int] == x.from);
        }
    }
    assert(names.contains(x.to)) by {
        let n1 = intern(g.names, x.from);
        if !n1.contains(x.to) {
            assert(n1.push(x.to)[n1.len() as int] == x.to);
        }
    }
    assert(names.contains(x.from)) by {
        let n1 = intern(g.names, x.from);
        let k = choose|k: int| 0 <= k < n1.len() && n1[k] == x.from;
        assert(names[k] == x.from);
    }
    assert(intern(intern(names, x.from), x.to) == names);
    let f = forward_edge(names, x);
    let r = inverse_edge(names, x);
    let e1 = upsert(g.edges, f);
    let e2 = upsert(e1, r);
    let e3 = upsert(e2, f);
    let e4 = upsert(e3, r);
    lemma_upsert(g.edges, f);
    lemma_upsert(e1, r);
    lemma_upsert(e2, f);
    lemma_upsert(e3, r);
    assert(applied(once, x).names == names);
    assert(applied(once, x).edges == e4);
    if (f.from, f.to) == (r.from, r.to) {
        assert(e4 =~= e2);
    } else {
        lemma_upsert_other(e1, r, f.from, f.to);
        assert(e3 =~= e2);
        assert(e4 =~= e2);
    }
}

/// After an exchange is taken in, the edge back carries its inverse weight
/// and rate, and the edge forth its forward weight and rate (for an exchange
/// of a currency into itself the two are one edge, and the inverse stays).
/// So the two weights mirror each other exactly where the quote's do.
pub proof fn lemma_applied_pair(g: GraphView, x: ExchangeView)
    ensures
        lookup(applied(g, x).edges, inverse_edge(applied(g, x).names, x).from, inverse_edge(
            applied(g, x).names,
            x,
        ).to) == Some(inverse_edge(applied(g, x).names, x)),
        forward_edge(applied(g, x).names, x).from != forward_edge(applied(g, x).names, x).to
            ==> lookup(
            applied(g, x).edges,
            forward_edge(applied(g, x).names, x).from,
            forward_edge(applied(g, x).names, x).to,
        ) == Some(forward_edge(applied(g, x).names, x)),
        forward_edge(applied(g, x).names, x).from != forward_edge(applied(g, x).names, x).to ==> (
        lookup(
            applied(g, x).edges,
            forward_edge(applied(g, x).names, x).from,
            forward_edge(applied(g, x).names, x).to,
        )->0.weight == -lookup(
            applied(g, x).edges,
            forward_edge(applied(g, x).names, x).to,
            forward_edge(applied(g, x).names, x).from,
        )->0.weight <==> x.quote.forward.weight == -x.quote.inverse.weight),
{
    let names = applied(g, x).names;
    let f = forward_edge(names, x);
    let r = inverse_edge(names, x);
    let e1 = upsert(g.edges, f);
    lemma_upsert(g.edges, f);
    lemma_upsert(e1, r);
    if f.from != f.to {
        lemma_upsert_other(e1, r, f.from, f.to);
    }
}

/// Taking in exchanges never takes an id back: every currency that had an
/// id keeps it, whatever the batch.
pub proof fn lemma_ids_stay(g: GraphView, batch: Seq<ExchangeView>)
    ensures
        g.names.len() <= applied_all(g, batch).names.len(),
        forall|i: int| 0 <= i < g.names.len() ==> #[trigger] applied_all(g, batch).names[i]
            == g.names[i],
    decreases batch.len(),
{
    if batch.len() > 0 {
        lemma_ids_stay(g, batch.drop_last());
        let before = applied_all(g, batch.drop_last());
        let after = applied_all(g, batch);
        assert forall|i: int|
            0 <= i < g.names.len() implies #[trigger] after.names[i] == g.names[i] by {
            assert(before.names[i] == g.names[i]);
            assert(intern(before.names, batch.last().from)[i] == before.names[i]);
        }
    }
}

/// An exchange adds at most two currencies and at most two edges, and takes
/// none away.
pub proof fn lemma_applied_grows(g: GraphView, x: ExchangeView)
    ensures
        g.names.len() <= intern(g.names, x.from).len() <= applied(g, x).names.len() <= g.names.len()
            + 2,
        g.edges.len() <= upsert(g.edges, forward_edge(applied(g, x).names, x)).len() <= applied(
            g,
            x,
        ).edges.len() <= g.edges.len() + 2,
{
    let names = applied(g, x).names;
    lemma_upsert(g.edges, forward_edge(names, x));
    lemma_upsert(upsert(g.edges, forward_edge(names, x)), inverse_edge(names, x));
}

/// A batch grows the graph step by step: after any number of its exchanges
/// the graph is no larger than after all of them, and each exchange adds at
/// most two currencies and two edges.
pub proof fn lemma_batch_grows(g: GraphView, batch: Seq<ExchangeView>, i: int)
    requires
        0 <= i <= batch.len(),
    ensures
        applied_all(g, batch.take(i)).names.len() <= applied_all(g, batch).names.len(),
        applied_all(g, batch.take(i)).edges.len() <= applied_all(g, batch).edges.len(),
        applied_all(g, batch).names.len() <= g.names.len() + 2 * batch.len(),
        applied_all(g, batch).edges.len() <= g.edges.len() + 2 * batch.len(),
    decreases batch.len(),
{
    if batch.len() == 0 {
        assert(batch.take(i) =~= batch);
    } else {
        let front = batch.drop_last();
        lemma_applied_grows(applied_all(g, front), batch.last());
        if i == batch.len() {
            assert(batch.take(i) =~= batch);
            lemma_batch_grows(g, front, i - 1);
        } else {
            lemma_batch_grows(g, front, i);
            assert(front.take(i) =~= batch.take(i));
        }
    }
}

/// Room for a batch whatever it holds is room for the batch.
pub proof fn lemma_room_suffices(g: GraphView, batch: Seq<ExchangeView>)
    requires
        has_room(g, batch.len()),
    ensures
        within_capacity(applied_all(g, batch)),
{
    lemma_batch_grows(g, batch, 0);
}

/// Takes in one exchange: gives both currencies their ids, then upserts the
/// forward edge and the inverse edge.
pub fn apply_exchange(store: &mut GraphStore, x: &Exchange)
    requires
        old(store).wf(),
        within_capacity(applied(old(store)@, x@)),
        x.quote.valid(),
    ensures
        final(store).wf(),
        final(store)@ == applied(old(store)@, x@),
{
    let ghost g = store@;
    proof {
        lemma_applied_grows(g, x@);
    }
    let a = store.id_for(x.from.clone());
    let ghost names1 = store@.names;
    let b = store.id_for(x.to.clone());
    let ghost names = store@.names;
    proof {
        lemma_first_index(names1, x@.from);
        if names != names1 {
            lemma_first_index_push(names1, x@.to, x@.from);
        }
        lemma_upsert(g.edges, forward_edge(names, x@));
    }
    store.upsert_edge(a, b, x.quote.forward.weight, x.quote.forward.rate);
    proof {
        lemma_upsert(store@.edges, inverse_edge(names, x@));
    }
    store.upsert_edge(b, a, x.quote.inverse.weight, x.quote.inverse.rate);
}

/// Takes in a batch: every exchange in order, both directions each. The
/// graph that results must be within `CAPACITY`; `GraphStore::fits` tells
/// beforehand whether any batch of that many exchanges is.
pub fn update_states(store: &mut GraphStore, data: &Vec<Exchange>)
    requires
        old(store).wf(),
        within_capacity(applied_all(old(store)@, exchange_views(data@))),
        forall|k: int| 0 <= k < data.len() ==> (#[trigger] data[k]).quote.valid(),
    ensures
        final(store).wf(),
        final(store)@ == applied_all(old(store)@, exchange_views(data@)),
{
    let ghost g = store@;
    let ghost batch = exchange_views(data@);
    let mut i: usize = 0;
    assert(batch.take(0) =~= Seq::<ExchangeView>::empty());
    while i < data.len()
        invariant
            0 <= i <= data.len(),
            batch == exchange_views(data@),
            forall|k: int| 0 <= k < data.len() ==> (#[trigger] data[k]).quote.valid(),
            store.wf(),
            within_capacity(applied_all(g, batch)),
            store@ == applied_all(g, batch.take(i as int)),
        decreases data.len() - i,
    {
        proof {
            assert(batch.take(i + 1).drop_last() =~= batch.take(i as int));
            assert(batch.take(i + 1).last() == data[i as int]@);
            lemma_batch_grows(g, batch, i + 1);
        }
        apply_exchange(store, &data[i]);
        i += 1;
    }
    assert(batch.take(data.len() as int) =~= batch);
}

/// Searches the store's graph for a negative cycle that can be reached from
/// `source`; see `find_negative_cycle`.
pub fn detect(store: &GraphStore, source: NodeId) -> (r: Option<Vec<NodeId>>)
    requires
        store.wf(),
    ensures
        match r {
            Some(path) => negative_cycle(store@.names.len(), store@.edges, source) == Some(path@),
            None => negative_cycle(store@.names.len(), store@.edges, source) is None,
        },
        r is Some <==> negative_cycle_reachable(store@.edges, source),
        r matches Some(path) ==> is_loop(path@, store@.names.len()),
        r matches Some(path) ==> (!runs_out(store@.names.len(), store@.edges, source)
            ==> is_negative_loop(store@.edges, path@, store@.names.len()) && reachable(
            store@.edges,
            source,
            path[0],
        )),
{
    let edges = store.edge_list();
    find_negative_cycle(store.node_count(), &edges, source)
}

/// A cycle closed at the node its search started from, with the rates of
/// its steps: their product is the cycle's conversion factor.
#[derive(Clone, Debug, PartialEq, Eq)]
pub struct Candidate {
    pub cycle: Vec<NodeId>,
    pub rates: Vec<u64>,
}

/// A candidate as contracts speak of it.
pub struct CandidateView {
    pub cycle: Seq<NodeId>,
    pub rates: Seq<u64>,
}

impl View for Candidate {
    type V = CandidateView;

    open spec fn view(&self) -> CandidateView {
        CandidateView { cycle: self.cycle@, rates: self.rates@ }
    }
}

/// The views of a vector of candidates.
pub open spec fn candidate_views(v: Seq<Candidate>) -> Seq<CandidateView> {
    v.map_values(|c: Candidate| c@)
}

/// What the search from `source` contributes: the detected path closed at
/// `source`, with its rates. Nothing where no path is detected, where the
/// closed path is too short, or where one of its steps is no edge.
pub open spec fn candidate(g: GraphView, source: NodeId) -> Option<CandidateView> {
    match negative_cycle(g.names.len(), g.edges, source) {
        None => None,
        Some(raw) => match normalized(raw, source) {
            None => None,
            Some(cycle) => if linked(g.edges, cycle) {
                Some(CandidateView { cycle, rates: rates_along(g.edges, cycle) })
            } else {
                None
            },
        },
    }
}

/// Whether the candidate is a cycle of the graph closed at `source`: at
/// least two entries over the graph's nodes, `source` first and last, every
/// step an edge, and the rates those of the steps.
pub open spec fn is_cycle_at(g: GraphView, c: CandidateView, source: NodeId) -> bool {
    &&& c.cycle.len() >= 2
    &&& c.cycle.first() == source
    &&& c.cycle.last() == source
    &&& forall|k: int| 0 <= k < c.cycle.len() ==> c.cycle[k] < g.names.len()
    &&& linked(g.edges, c.cycle)
    &&& c.rates == rates_along(g.edges, c.cycle)
}

/// What a search contributes is a cycle of the graph closed at its source,
/// and a search contributes only where a negative cycle can be reached.
pub proof fn lemma_candidate(g: GraphView, source: NodeId)
    requires
        g.wf(),
        source < g.names.len(),
        candidate(g, source) is Some,
    ensures
        is_cycle_at(g, candidate(g, source)->0, source),
        negative_cycle_reachable(g.edges, source),
{
    let n = g.names.len();
    assert(edges_within(g.edges, n));
    lemma_found_iff_reachable(n, g.edges, source);
    lemma_path_is_loop(n, g.edges, source);
    let raw = negative_cycle(n, g.edges, source)->0;
    lemma_closed_at(raw, source);
    let c = candidate(g, source)->0;
    assert(c.cycle == closed_at(raw, source));
}

/// Whether `c` is what the search from its first entry contributes, that
/// entry being one of the first `upto` nodes.
pub open spec fn listed(g: GraphView, c: CandidateView, upto: nat) -> bool {
    &&& c.cycle.len() >= 2
    &&& c.cycle[0] < upto
    &&& candidate(g, c.cycle[0]) == Some(c)
    &&& is_cycle_at(g, c, c.cycle[0])
}

/// The sweep lists what each search contributes, once, in the order of the
/// sources, and nothing else.
pub proof fn lemma_candidates(g: GraphView, upto: nat)
    requires
        g.wf(),
        upto <= g.names.len(),
    ensures
        forall|k: int|
            0 <= k < candidates(g, upto).len() ==> listed(
                g,
                #[trigger] candidates(g, upto)[k],
                upto,
            ),
        forall|j: int, k: int|
            0 <= j < k < candidates(g, upto).len() ==> (#[trigger] candidates(g, upto)[j]).cycle[0]
                < (#[trigger] candidates(g, upto)[k]).cycle[0],
        forall|source: NodeId|
            source < upto && (#[trigger] candidate(g, source)) is Some ==> candidates(
                g,
                upto,
            ).contains(candidate(g, source)->0),
    decreases upto,
{
    if upto > 0 {
        let before = candidates(g, (upto - 1) as nat);
        let last = (upto - 1) as NodeId;
        lemma_candidates(g, (upto - 1) as nat);
        let all = candidates(g, upto);
        if candidate(g, last) is Some {
            lemma_candidate(g, last);
            assert(all[before.len() as int] == candidate(g, last)->0);
        }
        assert forall|k: int| 0 <= k < all.len() implies listed(g, #[trigger] all[k], upto) by {
            if k < before.len() {
                assert(all[k] == before[k]);
            }
        }
        assert forall|j: int, k: int|
            0 <= j < k < all.len() implies
            (#[trigger] all[j]).cycle[0] < (#[trigger] all[k]).cycle[0] by {
            assert(all[j] == before[j]);
            if k < before.len() {
                assert(all[k] == before[k]);
            }
        }
        assert forall|source: NodeId|
            source < upto && (#[trigger] candidate(g, source)) is Some implies
            all.contains(candidate(g, source)->0) by {
            if source < upto - 1 {
                let found = candidate(g, source)->0;
                let k = choose|k: int| 0 <= k < before.len() && before[k] == found;
                assert(all[k] == before[k]);
            }
        }
    }
}

/// What the searches from the first `upto` nodes contribute, in node order.
pub open spec fn candidates(g: GraphView, upto: nat) -> Seq<CandidateView>
    decreases upto,
{
    if upto == 0 {
        Seq::empty()
    } else {
        let before = candidates(g, (upto - 1) as nat);
        match candidate(g, (upto - 1) as NodeId) {
            Some(c) => before.push(c),
            None => before,
        }
    }
}

/// The full sweep: one search from every node, in the order of the ids. Each
/// detected path is closed at its source and paired with the rates along it.
/// The same loop found from two sources is listed twice.
pub fn get_neg_cycles(store: &GraphStore) -> (found: Vec<Candidate>)
    requires
        store.wf(),
    ensures
        candidate_views(found@) == candidates(store@, store@.names.len()),
        forall|k: int|
            0 <= k < found.len() ==> listed(store@, (#[trigger] found[k])@, store@.names.len()),
{
    let n = store.node_count();
    let edges = store.edge_list();
    let mut found: Vec<Candidate> = Vec::new();
    let mut source: usize = 0;
    assert(candidate_views(found@) =~= candidates(store@, 0));
    while source < n
        invariant
            store.wf(),
            n == store@.names.len(),
            edges@ == store@.edges,
            0 <= source <= n,
            candidate_views(found@) == candidates(store@, source as nat),
        decreases n - source,
    {
        let ghost before = candidate_views(found@);
        match find_negative_cycle(n, &edges, source) {
            None => {},
            Some(raw) => {
                match normalize(raw, source) {
                    None => {},
                    Some(cycle) => {
                        match cycle_rates(store, &cycle) {
                            None => {},
                            Some(rates) => {
                                found.push(Candidate { cycle, rates });
                                assert(candidate_views(found@) =~= before.push(
                                    candidate(store@, source)->0,
                                ));
                            },
                        }
                    },
                }
            },
        }
        source += 1;
    }
    proof {
        lemma_candidates(store@, store@.names.len());
        assert forall|k: int| 0 <= k < found.len() implies listed(
            store@,
            (#[trigger] found[k])@,
            store@.names.len(),
        ) by {
            assert(candidate_views(found@)[k] == found[k]@);
        }
    }
    found
}

/// The view of what `process_batch` returns.
pub open spec fn outcome_view(r: Result<Vec<Candidate>, ParseError>) -> Result<
    Seq<CandidateView>,
    ParseErrorView,
> {
    match r {
        Ok(found) => Ok(candidate_views(found@)),
        Err(e) => Err(e@),
    }
}

/// What a batch does to a graph and what it reports: a batch that does not
/// parse reports why and leaves the graph alone; one that parses is taken in
/// whole, and the sweep of the graph so changed is reported.
pub open spec fn processed(g: GraphView, data: Seq<char>, readings: Seq<Option<Quote>>) -> (
    GraphView,
    Result<Seq<CandidateView>, ParseErrorView>,
) {
    match parsed(data, readings) {
        Err(e) => (g, Err(e)),
        Ok(batch) => {
            let after = applied_all(g, batch);
            (after, Ok(candidates(after, after.names.len())))
        },
    }
}

/// Room for as many exchanges as the line has triples is room for the batch,
/// whatever the triples come to.
pub proof fn lemma_room_for_batch(g: GraphView, data: Seq<char>, readings: Seq<Option<Quote>>)
    requires
        has_room(g, split(data, ',').len()),
    ensures
        within_capacity(processed(g, data, readings).0),
{
    if let Ok(batch) = parsed(data, readings) {
        assert(batch.len() == triples(data, readings).len());
        lemma_room_suffices(g, batch);
    }
}

/// One batch from line to report: parses `data` with the rate `readings`,
/// takes the exchanges in, and sweeps the graph. All or nothing: a batch
/// with any error leaves the store exactly as it was. The graph that a
/// batch without error results in must be within `CAPACITY`; room for as
/// many exchanges as `rate_fields` finds triples is enough for that.
pub fn process_batch(store: &mut GraphStore, data: &str, readings: &Vec<Option<Quote>>) -> (r:
    Result<Vec<Candidate>, ParseError>)
    requires
        old(store).wf(),
        within_capacity(processed(old(store)@, data@, readings@).0),
    ensures
        final(store).wf(),
        (final(store)@, outcome_view(r)) == processed(old(store)@, data@, readings@),
{
    match parse_input(data, readings) {
        Err(e) => Err(e),
        Ok(batch) => {
            update_states(store, &batch);
            Ok(get_neg_cycles(store))
        },
    }
}

} // verus!
