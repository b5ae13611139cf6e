//! The search space: a ship at a node with some fuel left, the moves open to it,
//! and the searches that the `pathfinding` crate runs over them.

use vstd::prelude::*;
use vstd::arithmetic::div_mod::{
    lemma_div_is_ordered, lemma_div_multiples_vanish, lemma_fundamental_div_mod, lemma_mod_bound,
};
use vstd::arithmetic::mul::lemma_mul_inequality;
use crate::geometry::DISTANCE_LIMIT;
use crate::travel::{bounded, links_view, rows_view, Link, LinkView, FUEL_SEGMENT, MAX_FUEL, START_FUEL};

verus! {

/// The straight-line distance to the destination is divided by this to
/// estimate the seconds still to travel.
pub const HEURISTIC_SCALE: i64 = 10;

/// A jump over no more than this distance takes longer than the estimate for
/// the distance and one unit more.
pub const SAFE_JUMP: i64 = 598;

/// Fuel left after taking `link` with `fuel` in a tank of `capacity`: none if
/// the link takes more than there is, the full tank where the link ends at a
/// market, and otherwise what is left, rounded down to a multiple of `segment`.
pub open spec fn fuel_after(fuel: int, link: LinkView, capacity: int, segment: int) -> Option<int> {
    if fuel - link.fuel < 0 {
        None
    } else if link.refuel {
        Some(capacity)
    } else {
        Some((fuel - link.fuel) / segment * segment)
    }
}

/// Where a ship stands after it has set out from node `src` with `fuel` and
/// taken, at each node in turn, the link that `picks` names: the node, the fuel
/// left, and the seconds travelled. It stands nowhere if a pick names no link of
/// the node, or the link takes more fuel than is left.
pub open spec fn travel(links: Seq<Seq<LinkView>>, src: int, fuel: int, capacity: int, segment: int, picks: Seq<int>) -> Option<(int, int, int)>
    decreases picks.len(),
{
    if picks.len() == 0 {
        Some((src, fuel, 0))
    } else {
        match travel(links, src, fuel, capacity, segment, picks.drop_last()) {
            Some((node, left, time)) => {
                let k = picks.last();
                if 0 <= node < links.len() && 0 <= k < links[node].len() {
                    match fuel_after(left, links[node][k], capacity, segment) {
                        Some(next) => Some((links[node][k].to, next, time + links[node][k].duration)),
                        None => None,
                    }
                } else {
                    None
                }
            },
            None => None,
        }
    }
}

/// Taking the links that `picks` names brings the ship to node `dest` in `time`
/// seconds.
pub open spec fn arrives(links: Seq<Seq<LinkView>>, src: int, dest: int, fuel: int, capacity: int, segment: int, picks: Seq<int>, time: int) -> bool {
    travel(links, src, fuel, capacity, segment, picks) matches Some(end) && end.0 == dest && end.2 == time
}

/// Some sequence of links that the fuel allows leads from node `src` to node
/// `dest`.
pub open spec fn connected(links: Seq<Seq<LinkView>>, src: int, dest: int, fuel: int, capacity: int, segment: int) -> bool {
    exists|picks: Seq<int>, time: int| arrives(links, src, dest, fuel, capacity, segment, picks, time)
}

/// Some sequence of links that the fuel allows leads from node `src` to node
/// `dest` in `time` seconds.
pub open spec fn reaches(links: Seq<Seq<LinkView>>, src: int, dest: int, fuel: int, capacity: int, segment: int, time: int) -> bool {
    exists|picks: Seq<int>| arrives(links, src, dest, fuel, capacity, segment, picks, time)
}

/// `time` is the least number of seconds in which node `dest` is reached from
/// node `src`.
pub open spec fn is_fastest(links: Seq<Seq<LinkView>>, src: int, dest: int, fuel: int, capacity: int, segment: int, time: int) -> bool {
    &&& reaches(links, src, dest, fuel, capacity, segment, time)
    &&& forall|other: int| #[trigger] reaches(links, src, dest, fuel, capacity, segment, other) ==> time <= other
}

/// Rounding down to a multiple of `fine` leaves no less than rounding a smaller
/// amount down to a multiple of `coarse`, where `fine` divides `coarse`.
pub proof fn lemma_floor_finer(x: int, y: int, coarse: int, fine: int)
    requires
        0 <= y <= x,
        0 < fine,
        0 < coarse,
        coarse % fine == 0,
    ensures
        y / coarse * coarse <= x / fine * fine,
{
    let q = y / coarse;
    let m = coarse / fine;
    let a = q * m;
    lemma_fundamental_div_mod(coarse, fine);
    lemma_fundamental_div_mod(y, coarse);
    lemma_mod_bound(y, coarse);
    assert(a * fine == q * coarse && fine * a == q * coarse) by (nonlinear_arith)
        requires
            a == q * m,
            coarse == fine * m,
    ;
    assert(q * coarse == coarse * q) by (nonlinear_arith);
    lemma_div_multiples_vanish(a, fine);
    lemma_div_is_ordered(fine * a, x, fine);
    lemma_mul_inequality(a, x / fine, fine);
}

/// Links that the fuel allows where it is tracked in multiples of `coarse` are
/// allowed where it is tracked in multiples of `fine`, if `fine` divides
/// `coarse`: the ship comes to the same node in the same time, with no less
/// fuel.
pub proof fn lemma_travel_finer(links: Seq<Seq<LinkView>>, src: int, fuel: int, capacity: int, coarse: int, fine: int, picks: Seq<int>)
    requires
        0 < fine,
        0 < coarse,
        coarse % fine == 0,
        travel(links, src, fuel, capacity, coarse, picks) is Some,
    ensures
        ({
            &&& travel(links, src, fuel, capacity, coarse, picks) matches Some(rough)
            &&& travel(links, src, fuel, capacity, fine, picks) matches Some(exact)
            &&& exact.0 == rough.0
            &&& exact.1 >= rough.1
            &&& exact.2 == rough.2
        }),
    decreases picks.len(),
{
    if picks.len() > 0 {
        let before = picks.drop_last();
        lemma_travel_finer(links, src, fuel, capacity, coarse, fine, before);
        let rough = travel(links, src, fuel, capacity, coarse, before)->0;
        let exact = travel(links, src, fuel, capacity, fine, before)->0;
        let link = links[rough.0][picks.last()];
        if !link.refuel {
            lemma_floor_finer(exact.1 - link.fuel, rough.1 - link.fuel, coarse, fine);
        }
    }
}

/// Tracking the fuel in finer segments never makes the fastest way slower: if
/// `fine` divides `coarse`, the least time with segments of `fine` is no more
/// than the least time with segments of `coarse`.
pub proof fn lemma_finer_segment_is_no_slower(links: Seq<Seq<LinkView>>, src: int, dest: int, fuel: int, capacity: int, coarse: int, fine: int, slow: int, fast: int)
    requires
        0 < fine,
        0 < coarse,
        coarse % fine == 0,
        is_fastest(links, src, dest, fuel, capacity, coarse, slow),
        is_fastest(links, src, dest, fuel, capacity, fine, fast),
    ensures
        fast <= slow,
{
    let picks = choose|picks: Seq<int>| arrives(links, src, dest, fuel, capacity, coarse, picks, slow);
    lemma_travel_finer(links, src, fuel, capacity, coarse, fine, picks);
    assert(arrives(links, src, dest, fuel, capacity, fine, picks, slow));
    assert(reaches(links, src, dest, fuel, capacity, fine, slow));
}

/// Where the fuel is tracked in finer segments, every node stays connected that
/// was.
pub proof fn lemma_finer_segment_keeps_connected(links: Seq<Seq<LinkView>>, src: int, dest: int, fuel: int, capacity: int, coarse: int, fine: int)
    requires
        0 < fine,
        0 < coarse,
        coarse % fine == 0,
        connected(links, src, dest, fuel, capacity, coarse),
    ensures
        connected(links, src, dest, fuel, capacity, fine),
{
    let (picks, time) = choose|picks: Seq<int>, time: int|
        arrives(links, src, dest, fuel, capacity, coarse, picks, time);
    lemma_travel_finer(links, src, fuel, capacity, coarse, fine, picks);
    assert(arrives(links, src, dest, fuel, capacity, fine, picks, time));
}

/// `link` takes a ship from state `from` to state `to`: it leads to the node of
/// `to`, and leaves the fuel of `to`.
pub open spec fn takes(link: LinkView, from: (usize, i64), to: (usize, i64)) -> bool {
    link.to == to.0 && fuel_after(from.1 as int, link, MAX_FUEL as int, FUEL_SEGMENT as int) == Some(
        to.1 as int,
    )
}

/// `path` is a way from node `src` to node `dest`: it starts at `src` with
/// `START_FUEL`, ends at `dest`, and from each of its states a link of the graph
/// takes the ship to the next.
pub open spec fn is_way(links: Seq<Seq<LinkView>>, src: int, dest: int, path: Seq<(usize, i64)>) -> bool {
    &&& path.len() >= 1
    &&& path[0].0 == src
    &&& path[0].1 == START_FUEL
    &&& path.last().0 == dest
    &&& forall|i: int|
        0 <= i < path.len() - 1 ==> (#[trigger] path[i]).0 < links.len() && exists|k: int|
            0 <= k < links[path[i].0 as int].len() && takes(
                #[trigger] links[path[i].0 as int][k],
                path[i],
                path[i + 1],
            )
}

/// Link `k` is the choice among the first `n` links of `row` for the step from
/// `from` to `to`: it takes the ship there, no other that does is faster, and
/// none before it is as fast.
pub open spec fn is_choice(row: Seq<LinkView>, from: (usize, i64), to: (usize, i64), n: int, k: int) -> bool {
    &&& 0 <= k < n
    &&& takes(row[k], from, to)
    &&& forall|j: int|
        0 <= j < n && takes(#[trigger] row[j], from, to) ==> row[k].duration <= row[j].duration && (j < k
            ==> row[k].duration < row[j].duration)
}

/// The link of `row` chosen for the step from `from` to `to`, if any takes the
/// ship there.
pub open spec fn chosen(row: Seq<LinkView>, from: (usize, i64), to: (usize, i64)) -> Option<int> {
    if exists|k: int| is_choice(row, from, to, row.len() as int, k) {
        Some(choose|k: int| is_choice(row, from, to, row.len() as int, k))
    } else {
        None
    }
}

/// There is at most one choice.
pub proof fn lemma_choice_unique(row: Seq<LinkView>, from: (usize, i64), to: (usize, i64), k: int)
    requires
        is_choice(row, from, to, row.len() as int, k),
    ensures
        chosen(row, from, to) == Some(k),
{
    let c = choose|c: int| is_choice(row, from, to, row.len() as int, c);
    assert(is_choice(row, from, to, row.len() as int, c));
    if c < k {
        assert(takes(row[c], from, to));
    } else if k < c {
        assert(takes(row[k], from, to));
    }
}

/// Where no link takes the ship there, none is chosen.
pub proof fn lemma_no_choice(row: Seq<LinkView>, from: (usize, i64), to: (usize, i64))
    requires
        forall|j: int| 0 <= j < row.len() ==> !takes(#[trigger] row[j], from, to),
    ensures
        chosen(row, from, to) is None,
{
    if exists|k: int| is_choice(row, from, to, row.len() as int, k) {
        let k = choose|k: int| is_choice(row, from, to, row.len() as int, k);
        assert(takes(row[k], from, to));
    }
}

/// Where one of the first `n` links takes the ship there, one of them is the
/// choice.
proof fn lemma_choice_among(row: Seq<LinkView>, from: (usize, i64), to: (usize, i64), n: int) -> (k: int)
    requires
        0 <= n <= row.len(),
        exists|j: int| 0 <= j < n && takes(#[trigger] row[j], from, to),
    ensures
        is_choice(row, from, to, n, k),
    decreases n,
{
    let last = n - 1;
    if exists|j: int| 0 <= j < last && takes(#[trigger] row[j], from, to) {
        let before = lemma_choice_among(row, from, to, last);
        if takes(row[last], from, to) && row[last].duration < row[before].duration {
            last
        } else {
            before
        }
    } else {
        let j = choose|j: int| 0 <= j < n && takes(#[trigger] row[j], from, to);
        assert(j == last);
        last
    }
}

/// Where a link takes the ship there, one is chosen.
pub proof fn lemma_choice_exists(row: Seq<LinkView>, from: (usize, i64), to: (usize, i64))
    requires
        exists|j: int| 0 <= j < row.len() && takes(#[trigger] row[j], from, to),
    ensures
        chosen(row, from, to) is Some,
{
    let k = lemma_choice_among(row, from, to, row.len() as int);
    lemma_choice_unique(row, from, to, k);
}

/// The seconds that the first `n` steps of `path` take, each by the link chosen
/// for it.
pub open spec fn way_time(links: Seq<Seq<LinkView>>, path: Seq<(usize, i64)>, n: int) -> int
    decreases n,
{
    if n <= 0 {
        0
    } else {
        let row = links[path[n - 1].0 as int];
        way_time(links, path, n - 1) + match chosen(row, path[n - 1], path[n]) {
            Some(k) => row[k].duration,
            None => 0,
        }
    }
}

/// The estimate of the seconds from node `node` to the destination, given the
/// distance of each node to it.
pub open spec fn estimate_of(table: Seq<i64>, node: int) -> int {
    if 0 <= node < table.len() {
        table[node] / HEURISTIC_SCALE
    } else {
        0
    }
}

/// No estimate is more than the seconds that a way from its node to node `dest`
/// takes, whatever fuel the ship has there.
pub open spec fn admissible(links: Seq<Seq<LinkView>>, table: Seq<i64>, dest: int) -> bool {
    forall|node: int, fuel: int, picks: Seq<int>, time: int| #[trigger]
        arrives(links, node, dest, fuel, MAX_FUEL as int, FUEL_SEGMENT as int, picks, time) ==> estimate_of(
            table,
            node,
        ) <= time
}

/// No way takes less than no time, where no link does.
pub proof fn lemma_travel_takes_time(links: Seq<Seq<LinkView>>, src: int, fuel: int, capacity: int, segment: int, picks: Seq<int>)
    requires
        bounded(links),
        travel(links, src, fuel, capacity, segment, picks) is Some,
    ensures
        travel(links, src, fuel, capacity, segment, picks) matches Some(end) && end.2 >= 0,
    decreases picks.len(),
{
    if picks.len() > 0 {
        lemma_travel_takes_time(links, src, fuel, capacity, segment, picks.drop_last());
    }
}

/// A ship is at a node in no time, and nowhere sooner.
pub proof fn lemma_fastest_to_itself(links: Seq<Seq<LinkView>>, node: int, fuel: int, capacity: int, segment: int)
    requires
        bounded(links),
    ensures
        is_fastest(links, node, node, fuel, capacity, segment, 0),
{
    assert(arrives(links, node, node, fuel, capacity, segment, Seq::empty(), 0));
    assert forall|other: int| #[trigger] reaches(links, node, node, fuel, capacity, segment, other) implies 0
        <= other by {
        let picks = choose|picks: Seq<int>| arrives(links, node, node, fuel, capacity, segment, picks, other);
        lemma_travel_takes_time(links, node, fuel, capacity, segment, picks);
    }
}

/// The moves that the first `n` links of `row` give a ship with `fuel`: for each
/// link that it has the fuel for, in order, the state that it arrives in and
/// the seconds that the link takes.
pub open spec fn moves(row: Seq<LinkView>, fuel: int, n: int) -> Seq<((int, int), int)>
    decreases n,
{
    if n <= 0 {
        Seq::empty()
    } else {
        let link = row[n - 1];
        moves(row, fuel, n - 1) + match fuel_after(fuel, link, MAX_FUEL as int, FUEL_SEGMENT as int) {
            Some(left) => seq![((link.to, left), link.duration)],
            None => Seq::empty(),
        }
    }
}

/// Moves over mathematical integers.
pub open spec fn moves_view(out: Seq<((usize, i64), i128)>) -> Seq<((int, int), int)> {
    Seq::new(out.len(), |k: int| ((out[k].0.0 as int, out[k].0.1 as int), out[k].1 as int))
}

/// The moves open to a ship in `state`, a node and the fuel left: one for each
/// link that leaves the node and takes no more fuel than that. A state whose
/// node is none of the graph has no moves.
pub(crate) fn successors(adj: &Vec<Vec<Link>>, state: (usize, i64)) -> (out: Vec<((usize, i64), i128)>)
    requires
        bounded(rows_view(adj@)),
    ensures
        moves_view(out@) == if state.0 < adj@.len() {
            moves(rows_view(adj@)[state.0 as int], state.1 as int, adj@[state.0 as int]@.len() as int)
        } else {
            Seq::empty()
        },
{
    let mut out: Vec<((usize, i64), i128)> = Vec::new();
    if state.0 < adj.len() {
        let row = &adj[state.0];
        let ghost links = links_view(row@);
        assert(links == rows_view(adj@)[state.0 as int]);
        let mut k: usize = 0;
        assert(moves_view(out@) =~= moves(links, state.1 as int, 0));
        while k < row.len()
            invariant
                k <= row.len(),
                links == links_view(row@),
                forall|j: int| 0 <= j < links.len() ==> 0 <= (#[trigger] links[j]).fuel <= MAX_FUEL,
                moves_view(out@) == moves(links, state.1 as int, k as int),
            decreases row.len() - k,
        {
            let link = row[k];
            assert(link@ == links[k as int]);
            let ghost before = moves_view(out@);
            if link.fuel <= state.1 {
                let left: i64 = if link.refuel {
                    MAX_FUEL
                } else {
                    (state.1 - link.fuel) / FUEL_SEGMENT * FUEL_SEGMENT
                };
                out.push(((link.to, left), link.duration as i128));
                assert(moves_view(out@) =~= before.push(
                    ((link.to as int, left as int), link.duration as int),
                ));
            }
            k += 1;
        }
    } else {
        assert(moves_view(out@) =~= Seq::empty());
    }
    out
}

/// The estimate of the seconds from `state` to the destination: the distance
/// between the two systems over `HEURISTIC_SCALE`.
pub(crate) fn estimate(table: &Vec<i64>, state: (usize, i64)) -> (h: i128)
    requires
        forall|i: int| 0 <= i < table@.len() ==> 0 <= #[trigger] table@[i],
    ensures
        h == estimate_of(table@, state.0 as int),
{
    if state.0 < table.len() {
        (table[state.0] / HEURISTIC_SCALE) as i128
    } else {
        0
    }
}

/// The ship in `state` stands at node `dest`.
pub(crate) fn arrived(state: (usize, i64), dest: usize) -> (b: bool)
    ensures
        b == (state.0 == dest),
{
    state.0 == dest
}

/// What `pathfinding::directed::astar::astar` returns for the search from node
/// `src` with `START_FUEL` to node `dest`, over the moves that `links` gives and
/// with the estimates that `estimates` gives: the states passed, first to last,
/// and the cost, or nothing.
pub uninterp spec fn astar_outcome(links: Seq<Seq<LinkView>>, estimates: Seq<i64>, src: int, dest: int) -> Option<(Seq<(usize, i64)>, i128)>;

/// What a search has found, the path by its view.
pub open spec fn found_view(found: Option<(Vec<(usize, i64)>, i128)>) -> Option<(Seq<(usize, i64)>, i128)> {
    match found {
        Some((path, cost)) => Some((path@, cost)),
        None => None,
    }
}

/// Calls `pathfinding::directed::astar::astar`: the search starts in
/// `(src, START_FUEL)`, takes its moves from `successors`, its estimates from
/// `estimate`, and ends in the first state popped that stands at `dest`.
///
/// The contract claims of the result what the crate documents. Whatever the
/// estimates are, a path is returned if and only if moves lead from the start to
/// a state at `dest`, and the path returned starts at the start, ends at
/// `dest`, and goes from each state to the next by one of its moves. Where no
/// estimate is more than the real cost, the path is a shortest one and the cost
/// is its cost: no way to `dest` costs less, and the cheapest moves along the
/// path cost that much. Beyond that it claims nothing but a name: that the same
/// graph, estimates and end points give the same result. The search draws on no
/// clock, random number or address; it keeps its states in the order in which it
/// met them, looks them up by an unseeded hash, and never walks them in hashed
/// order.
///
/// It sums costs of type `i128`. A sum is the cost of a state that the search
/// has met, plus at most one link and one estimate; a state met first costs at
/// most one link more than a state met before it, and never more afterwards.
/// There are fewer than `2^64` nodes and `MAX_FUEL + 1` amounts of fuel, and no
/// link takes more than `DURATION_LIMIT`, so no sum reaches `2^127`.
#[verifier::external_body]
pub(crate) fn run_astar(adj: &Vec<Vec<Link>>, table: &Vec<i64>, src: usize, dest: usize) -> (found: Option<(Vec<(usize, i64)>, i128)>)
    requires
        bounded(rows_view(adj@)),
        forall|i: int| 0 <= i < table@.len() ==> 0 <= #[trigger] table@[i] <= DISTANCE_LIMIT,
    ensures
        found_view(found) == astar_outcome(rows_view(adj@), table@, src as int, dest as int),
        found is Some <==> connected(
            rows_view(adj@),
            src as int,
            dest as int,
            START_FUEL as int,
            MAX_FUEL as int,
            FUEL_SEGMENT as int,
        ),
        found matches Some((path, _)) ==> is_way(rows_view(adj@), src as int, dest as int, path@),
        admissible(rows_view(adj@), table@, dest as int) ==> (found matches Some((path, cost)) ==> is_fastest(
            rows_view(adj@),
            src as int,
            dest as int,
            START_FUEL as int,
            MAX_FUEL as int,
            FUEL_SEGMENT as int,
            cost as int,
        ) && way_time(rows_view(adj@), path@, path@.len() - 1) == cost),
{
    pathfinding::directed::astar::astar(
        &(src, START_FUEL),
        |state| successors(adj, *state),
        |state| estimate(table, *state),
        |state| arrived(*state, dest),
    )
}

/// A state that a search from a source has reached: the state before it on a
/// cheapest way there, and the cost of that way.
#[derive(Clone, Copy, Debug, PartialEq, Eq)]
pub struct Reached {
    pub state: (usize, i64),
    pub parent: (usize, i64),
    pub cost: i128,
}

/// A ship that sets out from node `src` with a full tank and takes the links
/// that `picks` names stands in `state` after `time` seconds.
pub open spec fn comes_to(links: Seq<Seq<LinkView>>, src: int, picks: Seq<int>, state: (usize, i64), time: int) -> bool {
    travel(links, src, MAX_FUEL as int, MAX_FUEL as int, FUEL_SEGMENT as int, picks) == Some(
        (state.0 as int, state.1 as int, time),
    )
}

/// `entry` tells a cheapest way to its state: some way there takes the seconds
/// that it gives and passes the state that it gives last before, and no way
/// there takes less.
pub open spec fn is_cheapest(links: Seq<Seq<LinkView>>, src: int, entry: Reached) -> bool {
    &&& exists|picks: Seq<int>, before: int|
        picks.len() > 0 && #[trigger] comes_to(links, src, picks.drop_last(), entry.parent, before)
            && comes_to(links, src, picks, entry.state, entry.cost as int)
    &&& forall|picks: Seq<int>, time: int| #[trigger]
        comes_to(links, src, picks, entry.state, time) ==> entry.cost <= time
}

/// `reached` lists what a ship reaches from node `src` with a full tank: every
/// state but the one that it sets out in, each once and with a cheapest way
/// there, in any order.
pub open spec fn explored(links: Seq<Seq<LinkView>>, src: int, reached: Seq<Reached>) -> bool {
    &&& forall|k: int|
        0 <= k < reached.len() ==> {
            let entry = #[trigger] reached[k];
            (entry.state.0 != src || entry.state.1 != MAX_FUEL) && is_cheapest(links, src, entry)
        }
    &&& forall|k: int, m: int|
        0 <= k < m < reached.len() ==> (#[trigger] reached[k]).state != (#[trigger] reached[m]).state
    &&& forall|picks: Seq<int>, state: (usize, i64), time: int| #[trigger]
        comes_to(links, src, picks, state, time) && (state.0 != src || state.1 != MAX_FUEL) ==> exists|
            k: int,
        |
            0 <= k < reached.len() && (#[trigger] reached[k]).state == state
}

/// Calls `pathfinding::directed::dijkstra::dijkstra_all`: the search starts in
/// `(src, MAX_FUEL)` and takes its moves from `successors`. The map that it
/// returns is handed out as a list, in the order in which the map is walked.
///
/// The contract claims what the crate documents: the map holds every state that
/// moves lead to from the start, the start itself left out, each with the least
/// cost of a way there and with the state before it on such a way. The order of
/// the list is left open. Costs are summed as in `run_astar`, without
/// estimates.
#[verifier::external_body]
pub(crate) fn run_dijkstra_all(adj: &Vec<Vec<Link>>, src: usize) -> (reached: Vec<Reached>)
    requires
        bounded(rows_view(adj@)),
    ensures
        explored(rows_view(adj@), src as int, reached@),
{
    pathfinding::directed::dijkstra::dijkstra_all(&(src, MAX_FUEL), |state| successors(adj, *state))
        .into_iter()
        .map(|(state, (parent, cost))| Reached { state, parent, cost })
        .collect()
}

} // verus!
