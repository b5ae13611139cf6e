//! Routes: the path that a search has found, matched against the graph and
//! told leg by leg.

use vstd::prelude::*;
use crate::search::{
    arrives, chosen, connected, is_choice, is_way, lemma_choice_exists, lemma_choice_unique, lemma_no_choice,
    takes, travel, way_time,
};
use crate::travel::{
    bounded, links_view, names_view, rows_view, Edge, Link, LinkView, DURATION_LIMIT, FUEL_SEGMENT, MAX_FUEL,
    START_FUEL,
};

verus! {

/// One leg of a route: a link taken from one node to the next.
#[derive(Clone, Debug, PartialEq, Eq)]
pub struct Leg {
    /// How the leg is travelled.
    pub mode: Edge,
    /// Name of the node that the leg leaves.
    pub origin: String,
    /// Name of the node that the leg leads to.
    pub destination: String,
    /// Seconds that the leg takes.
    pub duration: i64,
    /// Seconds since the start of the route, this leg included.
    pub elapsed: i128,
    /// Fuel that the leg takes.
    pub fuel_cost: i64,
    /// Fuel left on arrival, in whole segments, before any refuelling.
    pub fuel_left: i64,
    /// The ship refuels on arrival, and leaves with a full tank.
    pub refuel: bool,
}

/// A leg over mathematical integers and sequences.
pub struct LegView {
    pub mode: Edge,
    pub origin: Seq<char>,
    pub destination: Seq<char>,
    pub duration: int,
    pub elapsed: int,
    pub fuel_cost: int,
    pub fuel_left: int,
    pub refuel: bool,
}

impl View for Leg {
    type V = LegView;

    open spec fn view(&self) -> LegView {
        LegView {
            mode: self.mode,
            origin: self.origin@,
            destination: self.destination@,
            duration: self.duration as int,
            elapsed: self.elapsed as int,
            fuel_cost: self.fuel_cost as int,
            fuel_left: self.fuel_left as int,
            refuel: self.refuel,
        }
    }
}

/// A route: its legs in order, and the seconds that the search gave for it.
#[derive(Clone, Debug, PartialEq, Eq)]
pub struct Route {
    pub legs: Vec<Leg>,
    pub total_duration: i128,
}

/// A route over mathematical integers and sequences.
#[verifier::ext_equal]
pub struct RouteView {
    pub legs: Seq<LegView>,
    pub total_duration: int,
}

/// The legs, each by its view.
pub open spec fn legs_view(legs: Seq<Leg>) -> Seq<LegView> {
    Seq::new(legs.len(), |k: int| legs[k]@)
}

impl View for Route {
    type V = RouteView;

    open spec fn view(&self) -> RouteView {
        RouteView { legs: legs_view(self.legs@), total_duration: self.total_duration as int }
    }
}

/// A route, if there is one, by its view.
pub open spec fn route_view(route: Option<Route>) -> Option<RouteView> {
    match route {
        Some(r) => Some(r@),
        None => None,
    }
}

/// The leg from `from` to `to`, `before` seconds into the route: the chosen link
/// of the node that it leaves. There is none if that node is none of the graph,
/// or none of its links takes the ship there.
pub open spec fn leg(links: Seq<Seq<LinkView>>, names: Seq<Seq<char>>, from: (usize, i64), to: (usize, i64), before: int) -> Option<LegView> {
    if from.0 < links.len() {
        match chosen(links[from.0 as int], from, to) {
            Some(k) => {
                let link = links[from.0 as int][k];
                Some(
                    LegView {
                        mode: link.kind,
                        origin: names[from.0 as int],
                        destination: names[to.0 as int],
                        duration: link.duration,
                        elapsed: before + link.duration,
                        fuel_cost: link.fuel,
                        fuel_left: (from.1 - link.fuel) / (FUEL_SEGMENT as int) * FUEL_SEGMENT,
                        refuel: link.refuel,
                    },
                )
            },
            None => None,
        }
    } else {
        None
    }
}

/// Seconds into the route after `done`.
pub open spec fn elapsed_after(done: Seq<LegView>) -> int {
    if done.len() == 0 {
        0
    } else {
        done.last().elapsed
    }
}

/// The first `n` legs of `path`, if each of its first `n` steps has one.
pub open spec fn legs(links: Seq<Seq<LinkView>>, names: Seq<Seq<char>>, path: Seq<(usize, i64)>, n: int) -> Option<Seq<LegView>>
    decreases n,
{
    if n <= 0 {
        Some(Seq::empty())
    } else {
        match legs(links, names, path, n - 1) {
            Some(done) => match leg(links, names, path[n - 1], path[n], elapsed_after(done)) {
                Some(next) => Some(done.push(next)),
                None => None,
            },
            None => None,
        }
    }
}

/// The route that `path` and `cost` tell: `path` starts at `src` with
/// `START_FUEL`, ends at `dest`, and each of its steps has a leg. The route has
/// those legs, and `cost` for its duration.
pub open spec fn annotated(links: Seq<Seq<LinkView>>, names: Seq<Seq<char>>, src: int, dest: int, path: Seq<(usize, i64)>, cost: i128) -> Option<RouteView> {
    if path.len() >= 1 && path[0].0 == src && path[0].1 == START_FUEL && path.last().0 == dest {
        match legs(links, names, path, path.len() - 1) {
            Some(all) => Some(RouteView { legs: all, total_duration: cost as int }),
            None => None,
        }
    } else {
        None
    }
}

/// Once a step has no leg, no longer part of the path has legs.
pub proof fn lemma_legs_stay_none(links: Seq<Seq<LinkView>>, names: Seq<Seq<char>>, path: Seq<(usize, i64)>, n: int, m: int)
    requires
        0 <= n <= m,
        legs(links, names, path, n) is None,
    ensures
        legs(links, names, path, m) is None,
    decreases m,
{
    if n < m {
        lemma_legs_stay_none(links, names, path, n, m - 1);
    }
}

/// Every step of a way has a leg.
pub proof fn lemma_way_has_legs(links: Seq<Seq<LinkView>>, names: Seq<Seq<char>>, src: int, dest: int, path: Seq<(usize, i64)>, n: int)
    requires
        is_way(links, src, dest, path),
        0 <= n < path.len(),
    ensures
        legs(links, names, path, n) is Some,
    decreases n,
{
    if n > 0 {
        lemma_way_has_legs(links, names, src, dest, path, n - 1);
        let from = path[n - 1];
        let to = path[n];
        let k = choose|k: int|
            0 <= k < links[from.0 as int].len() && takes(#[trigger] links[from.0 as int][k], from, to);
        assert(takes(links[from.0 as int][k], from, to));
        lemma_choice_exists(links[from.0 as int], from, to);
    }
}

/// A way from the source to the destination tells a route.
pub proof fn lemma_way_tells_route(links: Seq<Seq<LinkView>>, names: Seq<Seq<char>>, src: int, dest: int, path: Seq<(usize, i64)>, cost: i128)
    requires
        is_way(links, src, dest, path),
    ensures
        annotated(links, names, src, dest, path, cost) is Some,
{
    lemma_way_has_legs(links, names, src, dest, path, path.len() - 1);
}

/// Where the first `n` steps of `path` have legs, taking the chosen links in turn
/// brings the ship from the first state of `path` to state `n`, in the seconds
/// that the legs take: those of the fastest link of each step.
pub proof fn lemma_legs_travel(links: Seq<Seq<LinkView>>, names: Seq<Seq<char>>, path: Seq<(usize, i64)>, n: int) -> (picks: Seq<int>)
    requires
        0 <= n < path.len(),
        legs(links, names, path, n) is Some,
    ensures
        travel(
            links,
            path[0].0 as int,
            path[0].1 as int,
            MAX_FUEL as int,
            FUEL_SEGMENT as int,
            picks,
        ) matches Some(end) && end.0 == path[n].0 && end.1 == path[n].1 && end.2 == elapsed_after(
            legs(links, names, path, n)->0,
        ),
        elapsed_after(legs(links, names, path, n)->0) == way_time(links, path, n),
    decreases n,
{
    if n == 0 {
        Seq::empty()
    } else {
        let before = lemma_legs_travel(links, names, path, n - 1);
        let from = path[n - 1];
        let to = path[n];
        let k = chosen(links[from.0 as int], from, to)->0;
        assert(is_choice(links[from.0 as int], from, to, links[from.0 as int].len() as int, k));
        let picks = before.push(k);
        assert(picks.drop_last() =~= before);
        picks
    }
}

/// A path tells a route only where links that the fuel allows lead from the
/// source to the destination.
pub proof fn lemma_route_needs_connection(links: Seq<Seq<LinkView>>, names: Seq<Seq<char>>, src: int, dest: int, path: Seq<(usize, i64)>, cost: i128)
    requires
        annotated(links, names, src, dest, path, cost) is Some,
    ensures
        connected(links, src, dest, START_FUEL as int, MAX_FUEL as int, FUEL_SEGMENT as int),
{
    let picks = lemma_legs_travel(links, names, path, path.len() - 1);
    let end = travel(links, src, START_FUEL as int, MAX_FUEL as int, FUEL_SEGMENT as int, picks)->0;
    assert(arrives(
        links,
        src,
        dest,
        START_FUEL as int,
        MAX_FUEL as int,
        FUEL_SEGMENT as int,
        picks,
        end.2,
    ));
}

fn takes_exec(link: &Link, from: (usize, i64), to: (usize, i64)) -> (b: bool)
    ensures
        b == takes(link@, from, to),
{
    let left: i128 = from.1 as i128 - link.fuel as i128;
    if link.to != to.0 || left < 0 {
        false
    } else if link.refuel {
        to.1 == MAX_FUEL
    } else {
        left / (FUEL_SEGMENT as i128) * (FUEL_SEGMENT as i128) == to.1 as i128
    }
}

/// The link of `row` for the step from `from` to `to`: of those that take the
/// ship there, the fastest, and of several as fast the first.
pub fn pick_link(row: &Vec<Link>, from: (usize, i64), to: (usize, i64)) -> (r: Option<usize>)
    ensures
        match r {
            Some(k) => chosen(links_view(row@), from, to) == Some(k as int),
            None => chosen(links_view(row@), from, to) is None,
        },
{
    let ghost links = links_view(row@);
    let mut best: Option<usize> = None;
    let mut k: usize = 0;
    while k < row.len()
        invariant
            k <= row.len(),
            links == links_view(row@),
            match best {
                Some(b) => is_choice(links, from, to, k as int, b as int),
                None => forall|j: int| 0 <= j < k ==> !takes(#[trigger] links[j], from, to),
            },
        decreases row.len() - k,
    {
        assert(links[k as int] == row@[k as int]@);
        if takes_exec(&row[k], from, to) {
            match best {
                Some(b) => {
                    assert(links[b as int] == row@[b as int]@);
                    if row[k].duration < row[b].duration {
                        best = Some(k);
                    }
                },
                None => {
                    best = Some(k);
                },
            }
        }
        k += 1;
    }
    proof {
        match best {
            Some(b) => lemma_choice_unique(links, from, to, b as int),
            None => lemma_no_choice(links, from, to),
        }
    }
    best
}

/// Matches `path`, as a search from `src` to `dest` has found it at `cost`,
/// against the graph, and tells it leg by leg. There is no route if `path` does
/// not lead from `src` with `START_FUEL` to `dest` over links of the graph.
pub(crate) fn annotate(names: &Vec<String>, adj: &Vec<Vec<Link>>, src: usize, dest: usize, path: &Vec<(usize, i64)>, cost: i128) -> (r: Option<Route>)
    requires
        names@.len() == adj@.len(),
        bounded(rows_view(adj@)),
    ensures
        route_view(r) == annotated(
            rows_view(adj@),
            names_view(names@),
            src as int,
            dest as int,
            path@,
            cost,
        ),
{
    let ghost links = rows_view(adj@);
    let ghost labels = names_view(names@);
    if path.len() == 0 {
        return None;
    }
    let last: usize = path.len() - 1;
    if path[0].0 != src || path[0].1 != START_FUEL || path[last].0 != dest {
        return None;
    }
    let mut done: Vec<Leg> = Vec::new();
    let mut elapsed: i128 = 0;
    let mut i: usize = 0;
    assert(legs_view(done@) =~= Seq::empty());
    while i < last
        invariant
            i <= last,
            last == path@.len() - 1,
            links == rows_view(adj@),
            labels == names_view(names@),
            names@.len() == adj@.len(),
            bounded(links),
            legs(links, labels, path@, i as int) == Some(legs_view(done@)),
            elapsed == elapsed_after(legs_view(done@)),
            0 <= elapsed <= i * DURATION_LIMIT,
        decreases last - i,
    {
        let from = path[i];
        let to = path[i + 1];
        if from.0 >= adj.len() {
            proof {
                lemma_legs_stay_none(links, labels, path@, i + 1, last as int);
            }
            return None;
        }
        let row = &adj[from.0];
        assert(links[from.0 as int] == links_view(row@));
        match pick_link(row, from, to) {
            None => {
                proof {
                    lemma_legs_stay_none(links, labels, path@, i + 1, last as int);
                }
                return None;
            },
            Some(k) => {
                let link = row[k];
                assert(links[from.0 as int][k as int] == link@);
                assert(is_choice(links[from.0 as int], from, to, row@.len() as int, k as int));
                elapsed = elapsed + link.duration as i128;
                let next = Leg {
                    mode: link.kind,
                    origin: names[from.0].clone(),
                    destination: names[to.0].clone(),
                    duration: link.duration,
                    elapsed,
                    fuel_cost: link.fuel,
                    fuel_left: (from.1 - link.fuel) / FUEL_SEGMENT * FUEL_SEGMENT,
                    refuel: link.refuel,
                };
                let ghost before = legs_view(done@);
                done.push(next);
                assert(legs_view(done@) =~= before.push(next@));
            },
        }
        i += 1;
    }
    Some(Route { legs: done, total_duration: cost })
}

} // verus!
