//! The travel graph: one node for each routable location, and for each node
//! the links that leave it.

use vstd::prelude::*;
use crate::geometry::{
    dist, distance, lemma_distance_bounds, lemma_distance_triangle, lemma_distance_zero, rounded_quotient,
    DISTANCE_LIMIT,
};
use crate::route::{
    annotate, annotated, elapsed_after, lemma_legs_travel, lemma_route_needs_connection,
    lemma_way_tells_route, route_view, Route, RouteView,
};
use crate::search::{
    admissible, arrives, astar_outcome, connected, estimate_of, explored, is_fastest,
    lemma_fastest_to_itself, moves, moves_view, run_astar, run_dijkstra_all, successors, travel, Reached,
    SAFE_JUMP,
};
use crate::systems::{System, Waypoint};
use crate::travel::{
    bounded, jump_duration, jump_links, lemma_contains_add, lemma_links_to_all, lemma_links_to_none,
    lemma_nav_links, lemma_pair_links, lemma_pair_links_contains, lemma_warp_links, link_fits, links_to,
    flight_duration, links_view, names_view, nav_links, pair_links, push_pair_links, rows_view, warp_links,
    Edge, FlightMode, Link,
    LinkView, Node, SystemPoint, WaypointPoint, SHIP_SPEED, WARP_SCALE, DURATION_LIMIT, FUEL_SEGMENT, MAX_FUEL, MAX_JUMPGATE,
    MIN_JUMP_DURATION, START_FUEL,
};

verus! {

/// A graph as mathematical sequences: the nodes, the name of each, and the
/// links that leave each.
#[verifier::ext_equal]
pub struct GraphView {
    pub nodes: Seq<Node>,
    pub names: Seq<Seq<char>>,
    pub links: Seq<Seq<LinkView>>,
}

/// The node that a waypoint of `system` becomes: a jump gate, else a market,
/// else none.
pub open spec fn waypoint_node(system: System, waypoint: Waypoint) -> Option<Node> {
    if waypoint.is_jump_gate() {
        Some(Node::JumpgateWaypoint(SystemPoint(system.x, system.y), WaypointPoint(waypoint.x, waypoint.y)))
    } else if waypoint.has_marketplace() {
        Some(Node::MarketWaypoint(SystemPoint(system.x, system.y), WaypointPoint(waypoint.x, waypoint.y)))
    } else {
        None
    }
}

/// The nodes that the first `n` waypoints of `system` become, each with its
/// name, in the order of the waypoints.
pub open spec fn waypoint_places(system: System, n: int) -> Seq<(Node, Seq<char>)>
    decreases n,
{
    if n <= 0 {
        Seq::empty()
    } else {
        let waypoint = system.waypoints@[n - 1];
        waypoint_places(system, n - 1) + match waypoint_node(system, waypoint) {
            Some(node) => seq![(node, waypoint.symbol@)],
            None => Seq::empty(),
        }
    }
}

/// The nodes of `system`: those of its waypoints, or, if it has waypoints and
/// none of them becomes a node, one node for the whole system under the
/// system's name. A system without waypoints has no node.
pub open spec fn system_places(system: System) -> Seq<(Node, Seq<char>)> {
    let picked = waypoint_places(system, system.waypoints@.len() as int);
    if picked.len() == 0 && system.waypoints@.len() != 0 {
        seq![(Node::System(SystemPoint(system.x, system.y)), system.symbol@)]
    } else {
        picked
    }
}

/// The nodes of the first `n` systems, in the order of the systems.
pub open spec fn places(systems: Seq<System>, n: int) -> Seq<(Node, Seq<char>)>
    decreases n,
{
    if n <= 0 {
        Seq::empty()
    } else {
        places(systems, n - 1) + system_places(systems[n - 1])
    }
}

/// The links that leave node `i` for the first `n` nodes: for each other node in
/// turn, the links of the pair.
pub open spec fn links_before(nodes: Seq<Node>, i: int, n: int) -> Seq<LinkView>
    decreases n,
{
    if n <= 0 {
        Seq::empty()
    } else {
        links_before(nodes, i, n - 1) + if n - 1 == i {
            Seq::empty()
        } else {
            pair_links(nodes[i], nodes[n - 1], n - 1)
        }
    }
}

/// The links that leave node `i`.
pub open spec fn node_links(nodes: Seq<Node>, i: int) -> Seq<LinkView> {
    links_before(nodes, i, nodes.len() as int)
}

/// The graph of a catalogue of systems.
pub open spec fn chart(systems: Seq<System>) -> GraphView {
    let found = places(systems, systems.len() as int);
    let nodes = Seq::new(found.len(), |k: int| found[k].0);
    GraphView {
        nodes,
        names: Seq::new(found.len(), |k: int| found[k].1),
        links: Seq::new(nodes.len(), |i: int| node_links(nodes, i)),
    }
}

impl GraphView {
    /// Every node has a name, and the links that leave it are those that its
    /// position and kind and those of the other nodes give.
    pub open spec fn wf(self) -> bool {
        &&& self.names.len() == self.nodes.len()
        &&& self.links.len() == self.nodes.len()
        &&& forall|i: int| 0 <= i < self.nodes.len() ==> #[trigger] self.links[i] == node_links(self.nodes, i)
    }
}

/// The graph of any catalogue is well formed.
pub proof fn lemma_chart_wf(systems: Seq<System>)
    ensures
        chart(systems).wf(),
{
}

/// A link leaves node `i` for the first `n` nodes exactly if it leads to one of
/// them other than `i` and fits the two nodes.
pub proof fn lemma_links_before_contains(nodes: Seq<Node>, i: int, n: int, x: LinkView)
    requires
        0 <= i < nodes.len(),
        0 <= n <= nodes.len(),
    ensures
        links_before(nodes, i, n).contains(x) <==> 0 <= x.to < n && x.to != i && link_fits(
            nodes[i],
            nodes[x.to],
            x.to,
            x,
        ),
    decreases n,
{
    if n > 0 {
        lemma_links_before_contains(nodes, i, n - 1, x);
        let head = links_before(nodes, i, n - 1);
        let tail = if n - 1 == i {
            Seq::<LinkView>::empty()
        } else {
            pair_links(nodes[i], nodes[n - 1], n - 1)
        };
        lemma_contains_add(head, tail, x);
        if n - 1 != i {
            lemma_pair_links_contains(nodes[i], nodes[n - 1], n - 1, x);
        }
    }
}

/// Among the links that leave node `i` for the first `n` nodes, no two lead to
/// the same node in the same way.
pub proof fn lemma_links_before_distinct(nodes: Seq<Node>, i: int, n: int)
    requires
        0 <= i < nodes.len(),
        0 <= n <= nodes.len(),
    ensures
        forall|k: int, m: int|
            0 <= k < m < links_before(nodes, i, n).len() ==> {
                let a = #[trigger] links_before(nodes, i, n)[k];
                let b = #[trigger] links_before(nodes, i, n)[m];
                a.to != b.to || a.kind != b.kind
            },
    decreases n,
{
    if n > 0 {
        lemma_links_before_distinct(nodes, i, n - 1);
        let all = links_before(nodes, i, n);
        let head = links_before(nodes, i, n - 1);
        let tail = if n - 1 == i {
            Seq::<LinkView>::empty()
        } else {
            pair_links(nodes[i], nodes[n - 1], n - 1)
        };
        lemma_pair_links(nodes[i], nodes[n - 1], n - 1);
        assert forall|k: int, m: int| 0 <= k < m < all.len() implies {
            let a = #[trigger] all[k];
            let b = #[trigger] all[m];
            a.to != b.to || a.kind != b.kind
        } by {
            if m < head.len() {
                assert(all[k] == head[k] && all[m] == head[m]);
            } else if k < head.len() {
                assert(all[k] == head[k]);
                assert(head.contains(head[k]));
                lemma_links_before_contains(nodes, i, n - 1, head[k]);
                assert(all[m] == tail[m - head.len()]);
            } else {
                assert(all[k] == tail[k - head.len()]);
                assert(all[m] == tail[m - head.len()]);
            }
        }
    }
}

/// Of the links that leave node `i` for the first `n` nodes, those that lead to
/// node `j` are the links of the pair, in order.
pub proof fn lemma_links_before_to(nodes: Seq<Node>, i: int, n: int, j: int)
    requires
        0 <= i < nodes.len(),
        0 <= n <= nodes.len(),
    ensures
        links_to(links_before(nodes, i, n), j) == if 0 <= j < n && j != i {
            pair_links(nodes[i], nodes[j], j)
        } else {
            Seq::empty()
        },
    decreases n,
{
    if n <= 0 {
        lemma_links_to_none(links_before(nodes, i, n), j);
    } else {
        lemma_links_before_to(nodes, i, n - 1, j);
        let head = links_before(nodes, i, n - 1);
        let tail = if n - 1 == i {
            Seq::<LinkView>::empty()
        } else {
            pair_links(nodes[i], nodes[n - 1], n - 1)
        };
        Seq::filter_distributes_over_add(head, tail, |link: LinkView| link.to == j);
        lemma_pair_links(nodes[i], nodes[n - 1], n - 1);
        if j == n - 1 {
            lemma_links_to_all(tail, j);
        } else {
            lemma_links_to_none(tail, j);
        }
        assert(links_to(head, j) + links_to(tail, j) =~= if 0 <= j < n && j != i {
            pair_links(nodes[i], nodes[j], j)
        } else {
            Seq::empty()
        });
    }
}

impl GraphView {
    /// Every link leads to another node of the graph than the one that it
    /// leaves, and fits the two nodes.
    pub proof fn lemma_link_fits(self, i: int, k: int)
        requires
            self.wf(),
            0 <= i < self.nodes.len(),
            0 <= k < self.links[i].len(),
        ensures
            0 <= self.links[i][k].to < self.nodes.len(),
            self.links[i][k].to != i,
            link_fits(self.nodes[i], self.nodes[self.links[i][k].to], self.links[i][k].to, self.links[i][k]),
    {
        let link = self.links[i][k];
        assert(self.links[i] == node_links(self.nodes, i));
        assert(self.links[i].contains(link));
        lemma_links_before_contains(self.nodes, i, self.nodes.len() as int, link);
    }

    /// No link takes more fuel than the tank holds, and none takes less than
    /// nothing.
    pub proof fn lemma_fuel_fits_tank(self, i: int, k: int)
        requires
            self.wf(),
            0 <= i < self.nodes.len(),
            0 <= k < self.links[i].len(),
        ensures
            0 <= self.links[i][k].fuel <= MAX_FUEL,
            0 <= self.links[i][k].duration,
    {
        self.lemma_link_fits(i, k);
    }

    /// No link leads back to the node that it leaves.
    pub proof fn lemma_no_self_link(self, i: int, k: int)
        requires
            self.wf(),
            0 <= i < self.nodes.len(),
            0 <= k < self.links[i].len(),
        ensures
            self.links[i][k].to != i,
    {
        self.lemma_link_fits(i, k);
    }

    /// A jump leads from a jump gate to a jump gate whose system is within
    /// `MAX_JUMPGATE`. It takes no fuel, and a tenth of the distance in seconds,
    /// rounded, but no less than `MIN_JUMP_DURATION`.
    pub proof fn lemma_jump_between_gates(self, i: int, k: int)
        requires
            self.wf(),
            0 <= i < self.nodes.len(),
            0 <= k < self.links[i].len(),
            self.links[i][k].kind is Jumpgate,
        ensures
            self.nodes[i].is_gate(),
            self.nodes[self.links[i][k].to].is_gate(),
            distance(self.nodes[i].system(), self.nodes[self.links[i][k].to].system()) <= MAX_JUMPGATE,
            self.links[i][k].fuel == 0,
            self.links[i][k].duration >= MIN_JUMP_DURATION,
            self.links[i][k].duration == jump_duration(
                distance(self.nodes[i].system(), self.nodes[self.links[i][k].to].system()),
            ),
    {
        self.lemma_link_fits(i, k);
    }

    /// No two links of a node lead to the same node in the same way.
    pub proof fn lemma_one_link_of_a_kind(self, i: int, k: int, m: int)
        requires
            self.wf(),
            0 <= i < self.nodes.len(),
            0 <= k < m < self.links[i].len(),
        ensures
            self.links[i][k].to != self.links[i][m].to || self.links[i][k].kind != self.links[i][m].kind,
    {
        assert(self.links[i] == node_links(self.nodes, i));
        lemma_links_before_distinct(self.nodes, i, self.nodes.len() as int);
    }

    /// The links from node `i` to another node `j` are the links of the pair, in
    /// order, and at most four; no link leads from a node to itself.
    pub proof fn lemma_links_between(self, i: int, j: int)
        requires
            self.wf(),
            0 <= i < self.nodes.len(),
            0 <= j < self.nodes.len(),
        ensures
            links_to(self.links[i], j) == if i != j {
                pair_links(self.nodes[i], self.nodes[j], j)
            } else {
                Seq::empty()
            },
            links_to(self.links[i], j).len() <= 4,
    {
        assert(self.links[i] == node_links(self.nodes, i));
        lemma_links_before_to(self.nodes, i, self.nodes.len() as int, j);
        lemma_pair_links(self.nodes[i], self.nodes[j], j);
    }

    /// From a node to another node of the same system lead at most three
    /// flights, one in each mode in which the tank holds the fuel that the
    /// flight takes, and besides them only a jump.
    pub proof fn lemma_nav_between(self, i: int, j: int)
        requires
            self.wf(),
            0 <= i < self.nodes.len(),
            0 <= j < self.nodes.len(),
            i != j,
            self.nodes[i].system() == self.nodes[j].system(),
        ensures
            links_to(self.links[i], j) == jump_links(self.nodes[i], self.nodes[j], j) + nav_links(
                self.nodes[i],
                self.nodes[j],
                j,
            ),
            nav_links(self.nodes[i], self.nodes[j], j).len() <= 3,
            forall|k: int|
                0 <= k < nav_links(self.nodes[i], self.nodes[j], j).len() ==> (#[trigger] nav_links(
                    self.nodes[i],
                    self.nodes[j],
                    j,
                )[k]).kind is Nav,
            forall|k: int, m: int|
                0 <= k < m < nav_links(self.nodes[i], self.nodes[j], j).len() ==> (#[trigger] nav_links(
                    self.nodes[i],
                    self.nodes[j],
                    j,
                )[k]).kind != (#[trigger] nav_links(self.nodes[i], self.nodes[j], j)[m]).kind,
            forall|x: LinkView| #[trigger]
                nav_links(self.nodes[i], self.nodes[j], j).contains(x) <==> x.kind is Nav && link_fits(
                    self.nodes[i],
                    self.nodes[j],
                    j,
                    x,
                ),
    {
        self.lemma_links_between(i, j);
        lemma_nav_links(self.nodes[i], self.nodes[j], j);
    }

    /// From a node to a node of another system lead at most three flights, one
    /// in each mode in which the tank holds the fuel that the flight takes, a
    /// drift only within `MAX_WARP`, and besides them only a jump.
    pub proof fn lemma_warp_between(self, i: int, j: int)
        requires
            self.wf(),
            0 <= i < self.nodes.len(),
            0 <= j < self.nodes.len(),
            self.nodes[i].system() != self.nodes[j].system(),
        ensures
            links_to(self.links[i], j) == jump_links(self.nodes[i], self.nodes[j], j) + warp_links(
                self.nodes[i],
                self.nodes[j],
                j,
            ),
            warp_links(self.nodes[i], self.nodes[j], j).len() <= 3,
            forall|k: int|
                0 <= k < warp_links(self.nodes[i], self.nodes[j], j).len() ==> (#[trigger] warp_links(
                    self.nodes[i],
                    self.nodes[j],
                    j,
                )[k]).kind is Warp,
            forall|k: int, m: int|
                0 <= k < m < warp_links(self.nodes[i], self.nodes[j], j).len() ==> (#[trigger] warp_links(
                    self.nodes[i],
                    self.nodes[j],
                    j,
                )[k]).kind != (#[trigger] warp_links(self.nodes[i], self.nodes[j], j)[m]).kind,
            forall|x: LinkView| #[trigger]
                warp_links(self.nodes[i], self.nodes[j], j).contains(x) <==> x.kind is Warp && link_fits(
                    self.nodes[i],
                    self.nodes[j],
                    j,
                    x,
                ),
    {
        self.lemma_links_between(i, j);
        lemma_warp_links(self.nodes[i], self.nodes[j], j);
    }

    /// In a well-formed graph every link leads to a node of the graph, and its
    /// fuel and duration are within the limits.
    pub proof fn lemma_bounded(self)
        requires
            self.wf(),
        ensures
            bounded(self.links),
    {
        assert forall|i: int, k: int| 0 <= i < self.links.len() && 0 <= k < self.links[i].len() implies {
            let link = #[trigger] self.links[i][k];
            &&& 0 <= link.to < self.links.len()
            &&& 0 <= link.fuel <= MAX_FUEL
            &&& 0 <= link.duration <= DURATION_LIMIT
        } by {
            let link = self.links[i][k];
            assert(self.links[i] == node_links(self.nodes, i));
            assert(self.links[i].contains(link));
            lemma_links_before_contains(self.nodes, i, self.nodes.len() as int, link);
        }
    }
}

/// `nodes` and `names` hold the places `found`, in order.
spec fn holds(nodes: Seq<Node>, names: Seq<String>, found: Seq<(Node, Seq<char>)>) -> bool {
    &&& nodes.len() == found.len()
    &&& names.len() == found.len()
    &&& forall|k: int| 0 <= k < found.len() ==> nodes[k] == (#[trigger] found[k]).0 && names[k]@ == found[k].1
}

fn is_market(waypoint: &Waypoint) -> (b: bool)
    ensures
        b == waypoint.has_marketplace(),
{
    match &waypoint.traits {
        Some(traits) => {
            let marketplace: String = "MARKETPLACE".to_owned();
            let mut k: usize = 0;
            while k < traits.len()
                invariant
                    k <= traits.len(),
                    waypoint.traits == Some(*traits),
                    marketplace@ == "MARKETPLACE"@,
                    forall|j: int| 0 <= j < k ==> (#[trigger] traits@[j]).symbol@ != "MARKETPLACE"@,
                decreases traits.len() - k,
            {
                if traits[k].symbol == marketplace {
                    assert(traits@[k as int].symbol@ == "MARKETPLACE"@);
                    assert(waypoint.traits matches Some(all) && all == *traits);
                    return true;
                }
                k += 1;
            }
            false
        },
        None => false,
    }
}

/// The nodes of the catalogue and their names.
fn chart_nodes(systems: &Vec<System>) -> (r: (Vec<Node>, Vec<String>))
    ensures
        holds(r.0@, r.1@, places(systems@, systems@.len() as int)),
{
    let mut nodes: Vec<Node> = Vec::new();
    let mut names: Vec<String> = Vec::new();
    let jump_gate: String = "JUMP_GATE".to_owned();
    let mut s: usize = 0;
    while s < systems.len()
        invariant
            s <= systems.len(),
            jump_gate@ == "JUMP_GATE"@,
            holds(nodes@, names@, places(systems@, s as int)),
        decreases systems.len() - s,
    {
        let system = &systems[s];
        let ghost before = places(systems@, s as int);
        let mut added: bool = false;
        let mut w: usize = 0;
        while w < system.waypoints.len()
            invariant
                w <= system.waypoints.len(),
                jump_gate@ == "JUMP_GATE"@,
                holds(nodes@, names@, before + waypoint_places(*system, w as int)),
                added == (waypoint_places(*system, w as int).len() > 0),
            decreases system.waypoints.len() - w,
        {
            let waypoint = &system.waypoints[w];
            let ghost so_far = waypoint_places(*system, w as int);
            if waypoint.waypoint_type == jump_gate {
                let node = Node::JumpgateWaypoint(
                    SystemPoint(system.x, system.y),
                    WaypointPoint(waypoint.x, waypoint.y),
                );
                nodes.push(node);
                names.push(waypoint.symbol.clone());
                added = true;
                assert(before + waypoint_places(*system, w + 1) =~= (before + so_far).push(
                    (node, waypoint.symbol@),
                ));
            } else if is_market(waypoint) {
                let node = Node::MarketWaypoint(
                    SystemPoint(system.x, system.y),
                    WaypointPoint(waypoint.x, waypoint.y),
                );
                nodes.push(node);
                names.push(waypoint.symbol.clone());
                added = true;
                assert(before + waypoint_places(*system, w + 1) =~= (before + so_far).push(
                    (node, waypoint.symbol@),
                ));
            } else {
                assert(waypoint_places(*system, w + 1) =~= so_far);
            }
            w += 1;
        }
        if !added && system.waypoints.len() != 0 {
            let node = Node::System(SystemPoint(system.x, system.y));
            nodes.push(node);
            names.push(system.symbol.clone());
            assert(waypoint_places(*system, w as int) =~= Seq::empty());
            assert(before + system_places(*system) =~= before.push((node, system.symbol@)));
        }
        s += 1;
    }
    (nodes, names)
}

/// The links that leave each of `nodes`.
fn chart_links(nodes: &Vec<Node>) -> (adj: Vec<Vec<Link>>)
    ensures
        adj@.len() == nodes@.len(),
        forall|i: int| 0 <= i < nodes@.len() ==> links_view((#[trigger] adj@[i])@) == node_links(nodes@, i),
{
    let mut adj: Vec<Vec<Link>> = Vec::new();
    let mut i: usize = 0;
    while i < nodes.len()
        invariant
            i <= nodes.len(),
            adj@.len() == i,
            forall|k: int| 0 <= k < i ==> links_view((#[trigger] adj@[k])@) == node_links(nodes@, k),
        decreases nodes.len() - i,
    {
        let mut row: Vec<Link> = Vec::new();
        let mut j: usize = 0;
        assert(links_view(row@) =~= links_before(nodes@, i as int, 0));
        while j < nodes.len()
            invariant
                i < nodes.len(),
                j <= nodes.len(),
                links_view(row@) == links_before(nodes@, i as int, j as int),
            decreases nodes.len() - j,
        {
            if i != j {
                push_pair_links(&mut row, &nodes[i], &nodes[j], j);
            } else {
                assert(links_before(nodes@, i as int, j + 1) =~= links_view(row@));
            }
            j += 1;
        }
        adj.push(row);
        i += 1;
    }
    adj
}

/// The nodes of the catalogue, their names, and the links that leave each.
pub fn build_l2(charted_systems: &Vec<System>) -> (r: (Vec<Node>, Vec<String>, Vec<Vec<Link>>))
    ensures
        (GraphView { nodes: r.0@, names: names_view(r.1@), links: rows_view(r.2@) }) == chart(charted_systems@),
{
    let (nodes, names) = chart_nodes(charted_systems);
    let adj = chart_links(&nodes);
    proof {
        let found = places(charted_systems@, charted_systems@.len() as int);
        let g = chart(charted_systems@);
        assert(nodes@ =~= g.nodes);
        assert(names_view(names@) =~= g.names);
        assert(rows_view(adj@) =~= g.links);
    }
    (nodes, names, adj)
}

/// The index of the first of `names` that is `symbol`, if any is.
pub open spec fn index_of(names: Seq<Seq<char>>, symbol: Seq<char>) -> Option<int>
    decreases names.len(),
{
    if names.len() == 0 {
        None
    } else {
        match index_of(names.drop_last(), symbol) {
            Some(i) => Some(i),
            None => if names.last() == symbol {
                Some(names.len() - 1)
            } else {
                None
            },
        }
    }
}

/// Where no name is `symbol`, it has no index.
pub proof fn lemma_index_of_none(names: Seq<Seq<char>>, symbol: Seq<char>)
    requires
        forall|j: int| 0 <= j < names.len() ==> names[j] != symbol,
    ensures
        index_of(names, symbol) is None,
    decreases names.len(),
{
    if names.len() > 0 {
        lemma_index_of_none(names.drop_last(), symbol);
    }
}

/// The first name that is `symbol` gives its index.
pub proof fn lemma_index_of_first(names: Seq<Seq<char>>, symbol: Seq<char>, k: int)
    requires
        0 <= k < names.len(),
        names[k] == symbol,
        forall|j: int| 0 <= j < k ==> names[j] != symbol,
    ensures
        index_of(names, symbol) == Some(k),
    decreases names.len(),
{
    if k == names.len() - 1 {
        lemma_index_of_none(names.drop_last(), symbol);
    } else {
        lemma_index_of_first(names.drop_last(), symbol, k);
    }
}

/// The index that `index_of` gives is that of the first name that is `symbol`,
/// and it gives none only where no name is.
pub proof fn lemma_index_of_found(names: Seq<Seq<char>>, symbol: Seq<char>)
    ensures
        match index_of(names, symbol) {
            Some(k) => 0 <= k < names.len() && names[k] == symbol && forall|j: int|
                0 <= j < k ==> names[j] != symbol,
            None => forall|j: int| 0 <= j < names.len() ==> names[j] != symbol,
        },
    decreases names.len(),
{
    if names.len() > 0 {
        lemma_index_of_found(names.drop_last(), symbol);
        assert forall|j: int| 0 <= j < names.len() - 1 implies names[j] == names.drop_last()[j] by {}
    }
}

/// For each node, the distance between its system and that of node `dest`.
pub open spec fn estimates(nodes: Seq<Node>, dest: int) -> Seq<i64> {
    Seq::new(nodes.len(), |i: int| distance(nodes[i].system(), nodes[dest].system()) as i64)
}

fn distances_to(nodes: &Vec<Node>, dest: usize) -> (table: Vec<i64>)
    requires
        dest < nodes@.len(),
    ensures
        table@ == estimates(nodes@, dest as int),
        forall|i: int| 0 <= i < table@.len() ==> 0 <= #[trigger] table@[i] <= DISTANCE_LIMIT,
{
    let goal = nodes[dest].system_coords();
    let mut table: Vec<i64> = Vec::new();
    let mut i: usize = 0;
    while i < nodes.len()
        invariant
            i <= nodes.len(),
            dest < nodes@.len(),
            goal == nodes@[dest as int].system(),
            table@.len() == i,
            forall|k: int|
                0 <= k < i ==> 0 <= #[trigger] table@[k] <= DISTANCE_LIMIT && table@[k] == distance(
                    nodes@[k].system(),
                    goal,
                ),
        decreases nodes.len() - i,
    {
        table.push(dist(nodes[i].system_coords(), goal));
        i += 1;
    }
    assert(table@ =~= estimates(nodes@, dest as int));
    table
}

/// A symbol that a query names is that of no node.
#[derive(Clone, Copy, Debug, PartialEq, Eq)]
pub enum LookupError {
    UnknownSource,
    UnknownDestination,
}

impl GraphView {
    /// The route from node `src` to node `dest`, given what the search has
    /// found. From a node to itself it has no leg and takes no time, whatever the
    /// search has found. Otherwise it is what the path found tells, and there is
    /// none where the search has found none.
    pub open spec fn route_between(self, src: int, dest: int, found: Option<(Seq<(usize, i64)>, i128)>) -> Option<RouteView> {
        if src == dest {
            Some(RouteView { legs: Seq::empty(), total_duration: 0 })
        } else {
            match found {
                Some((path, cost)) => annotated(self.links, self.names, src, dest, path, cost),
                None => None,
            }
        }
    }

    /// The answer to a query for the route from the node named `from` to the
    /// node named `to`: an error if one of the two names no node, and otherwise
    /// the route between the two nodes, given what the search between them
    /// finds.
    pub open spec fn route(self, from: Seq<char>, to: Seq<char>) -> Result<Option<RouteView>, LookupError> {
        match index_of(self.names, from) {
            None => Err(LookupError::UnknownSource),
            Some(s) => match index_of(self.names, to) {
                None => Err(LookupError::UnknownDestination),
                Some(d) => Ok(self.route_between(s, d, astar_outcome(self.links, estimates(self.nodes, d), s, d))),
            },
        }
    }
}

impl GraphView {
    /// Between two nodes that no sequence of links that the fuel allows
    /// connects there is no route, whatever the search has found.
    pub proof fn lemma_unconnected_no_route(self, src: int, dest: int, found: Option<(Seq<(usize, i64)>, i128)>)
        requires
            !connected(self.links, src, dest, START_FUEL as int, MAX_FUEL as int, FUEL_SEGMENT as int),
        ensures
            self.route_between(src, dest, found) is None,
    {
        if src == dest {
            assert(arrives(
                self.links,
                src,
                dest,
                START_FUEL as int,
                MAX_FUEL as int,
                FUEL_SEGMENT as int,
                Seq::empty(),
                0,
            ));
        } else if let Some((path, cost)) = found {
            if annotated(self.links, self.names, src, dest, path, cost) is Some {
                lemma_route_needs_connection(self.links, self.names, src, dest, path, cost);
            }
        }
    }

    /// A query between two named nodes that no sequence of links that the fuel
    /// allows connects is answered with no route.
    pub proof fn lemma_unconnected_answer(self, from: Seq<char>, to: Seq<char>)
        requires
            index_of(self.names, from) is Some,
            index_of(self.names, to) is Some,
            !connected(
                self.links,
                index_of(self.names, from)->0,
                index_of(self.names, to)->0,
                START_FUEL as int,
                MAX_FUEL as int,
                FUEL_SEGMENT as int,
            ),
        ensures
            self.route(from, to) == Ok::<Option<RouteView>, LookupError>(None),
    {
        let s = index_of(self.names, from)->0;
        let d = index_of(self.names, to)->0;
        self.lemma_unconnected_no_route(s, d, astar_outcome(self.links, estimates(self.nodes, d), s, d));
    }

    /// The route from a named node to itself has no leg and takes no time.
    pub proof fn lemma_route_to_itself(self, symbol: Seq<char>)
        requires
            index_of(self.names, symbol) is Some,
        ensures
            self.route(symbol, symbol) == Ok::<Option<RouteView>, LookupError>(
                Some(RouteView { legs: Seq::empty(), total_duration: 0 }),
            ),
    {
    }

    /// Two answers to one query on one graph are the same answer.
    pub proof fn lemma_route_repeatable(self, from: Seq<char>, to: Seq<char>, first: Result<Option<Route>, LookupError>, second: Result<Option<Route>, LookupError>)
        requires
            answer_view(first) == self.route(from, to),
            answer_view(second) == self.route(from, to),
        ensures
            answer_view(first) == answer_view(second),
    {
    }
}

impl GraphView {
    /// No jump bridges more than `SAFE_JUMP`.
    pub open spec fn short_jumps(self) -> bool {
        forall|i: int, k: int|
            0 <= i < self.links.len() && 0 <= k < self.links[i].len() && (#[trigger] self.links[i][k]).kind is Jumpgate
                ==> distance(self.nodes[i].system(), self.nodes[self.links[i][k].to].system()) <= SAFE_JUMP
    }

    /// Where no jump is long, the estimate at a node is no more than the seconds
    /// of a link that leaves it and the estimate at the node that the link
    /// leads to.
    proof fn lemma_estimate_step(self, dest: int, i: int, k: int)
        requires
            self.wf(),
            self.short_jumps(),
            0 <= dest < self.nodes.len(),
            0 <= i < self.nodes.len(),
            0 <= k < self.links[i].len(),
        ensures
            estimate_of(estimates(self.nodes, dest), i) <= self.links[i][k].duration + estimate_of(
                estimates(self.nodes, dest),
                self.links[i][k].to,
            ),
    {
        let link = self.links[i][k];
        let j = link.to;
        self.lemma_link_fits(i, k);
        let goal = self.nodes[dest].system();
        let a = self.nodes[i].system();
        let b = self.nodes[j].system();
        lemma_distance_triangle(a, b, goal);
        lemma_distance_bounds(a, goal);
        lemma_distance_bounds(b, goal);
        lemma_distance_bounds(a, b);
        let d = distance(a, b);
        match link.kind {
            Edge::Jumpgate => {
                assert(self.links[i][k].kind is Jumpgate);
                assert(d <= SAFE_JUMP);
            },
            Edge::Nav(_) => {},
            Edge::Warp(mode) => {
                assert(d * (WARP_SCALE as int) * 10 == 200 * d) by (nonlinear_arith);
                let speed = SHIP_SPEED * mode.tenths();
                assert(speed == 30 * mode.tenths()) by (nonlinear_arith)
                    requires
                        speed == SHIP_SPEED * mode.tenths(),
                ;
                assert(link.duration == 15 + rounded_quotient(200 * d, speed));
                match mode {
                    FlightMode::CRUISE => {
                        assert(rounded_quotient(200 * d, 300) == (400 * d + 300) / 600);
                    },
                    FlightMode::BURN => {
                        assert(rounded_quotient(200 * d, 600) == (400 * d + 600) / 1200);
                    },
                    FlightMode::DRIFT => {
                        assert(rounded_quotient(200 * d, 30) == (400 * d + 30) / 60);
                    },
                }
                assert(link.duration >= 15 + (400 * d + 600) / 1200);

            },
        }
    }

    /// Where no jump is long, the estimate at a node is no more than the seconds
    /// of a way from it and the estimate at the node that the way leads to.
    proof fn lemma_estimate_along(self, dest: int, node: int, fuel: int, picks: Seq<int>)
        requires
            self.wf(),
            self.short_jumps(),
            0 <= dest < self.nodes.len(),
            travel(self.links, node, fuel, MAX_FUEL as int, FUEL_SEGMENT as int, picks) is Some,
        ensures
            travel(self.links, node, fuel, MAX_FUEL as int, FUEL_SEGMENT as int, picks) matches Some(end)
                && estimate_of(estimates(self.nodes, dest), node) <= end.2 + estimate_of(
                estimates(self.nodes, dest),
                end.0,
            ),
        decreases picks.len(),
    {
        if picks.len() > 0 {
            let before = picks.drop_last();
            self.lemma_estimate_along(dest, node, fuel, before);
            let at = travel(self.links, node, fuel, MAX_FUEL as int, FUEL_SEGMENT as int, before)->0;
            self.lemma_estimate_step(dest, at.0, picks.last());
        }
    }

    /// Where no jump bridges more than `SAFE_JUMP`, the estimates of the search
    /// are admissible: none is more than the seconds of a way to the
    /// destination.
    pub proof fn lemma_short_jumps_admissible(self, dest: int)
        requires
            self.wf(),
            self.short_jumps(),
            0 <= dest < self.nodes.len(),
        ensures
            admissible(self.links, estimates(self.nodes, dest), dest),
    {
        let table = estimates(self.nodes, dest);
        assert forall|node: int, fuel: int, picks: Seq<int>, time: int| #[trigger]
            arrives(self.links, node, dest, fuel, MAX_FUEL as int, FUEL_SEGMENT as int, picks, time) implies estimate_of(
            table,
            node,
        ) <= time by {
            self.lemma_estimate_along(dest, node, fuel, picks);
            lemma_distance_zero(self.nodes[dest].system(), self.nodes[dest].system());
        }
    }
}

/// An answer, the route by its view.
pub open spec fn answer_view(answer: Result<Option<Route>, LookupError>) -> Result<Option<RouteView>, LookupError> {
    match answer {
        Ok(route) => Ok(route_view(route)),
        Err(e) => Err(e),
    }
}

/// The travel graph of a catalogue of systems.
pub struct L2Graph {
    l2_nodes: Vec<Node>,
    l2_nodes_name: Vec<String>,
    l2_adj: Vec<Vec<Link>>,
}

impl View for L2Graph {
    type V = GraphView;

    closed spec fn view(&self) -> GraphView {
        GraphView {
            nodes: self.l2_nodes@,
            names: names_view(self.l2_nodes_name@),
            links: rows_view(self.l2_adj@),
        }
    }
}

impl L2Graph {
    #[verifier::type_invariant]
    closed spec fn inv(&self) -> bool {
        self@.wf()
    }

    /// Builds the graph of the catalogue `charted_systems`.
    pub fn from_systems(charted_systems: &Vec<System>) -> (graph: Self)
        ensures
            graph@ == chart(charted_systems@),
            graph@.wf(),
    {
        let (nodes, nodes_name, adj) = build_l2(charted_systems);
        proof {
            lemma_chart_wf(charted_systems@);
        }
        L2Graph { l2_nodes: nodes, l2_nodes_name: nodes_name, l2_adj: adj }
    }

    /// Every graph is well formed.
    pub fn well_formed(&self)
        ensures
            self@.wf(),
    {
        proof {
            use_type_invariant(self);
        }
    }

    /// The number of nodes.
    pub fn node_count(&self) -> (n: usize)
        ensures
            n == self@.nodes.len(),
    {
        self.l2_nodes.len()
    }

    /// Node `i`, if there are that many.
    pub fn node(&self, i: usize) -> (r: Option<Node>)
        ensures
            r == if i < self@.nodes.len() {
                Some(self@.nodes[i as int])
            } else {
                None
            },
    {
        if i < self.l2_nodes.len() {
            Some(self.l2_nodes[i])
        } else {
            None
        }
    }

    /// The name of node `i`, if there are that many.
    pub fn name(&self, i: usize) -> (r: Option<&String>)
        ensures
            match r {
                Some(name) => i < self@.nodes.len() && name@ == self@.names[i as int],
                None => i >= self@.nodes.len(),
            },
    {
        proof {
            use_type_invariant(self);
        }
        if i < self.l2_nodes_name.len() {
            Some(&self.l2_nodes_name[i])
        } else {
            None
        }
    }

    /// The links that leave node `i`, if there are that many.
    pub fn links(&self, i: usize) -> (r: Option<&Vec<Link>>)
        ensures
            match r {
                Some(row) => i < self@.nodes.len() && links_view(row@) == self@.links[i as int],
                None => i >= self@.nodes.len(),
            },
    {
        proof {
            use_type_invariant(self);
        }
        if i < self.l2_adj.len() {
            Some(&self.l2_adj[i])
        } else {
            None
        }
    }

    /// The index of the first node named `symbol`.
    pub fn find(&self, symbol: &str) -> (r: Option<usize>)
        ensures
            match r {
                Some(k) => index_of(self@.names, symbol@) == Some(k as int) && k < self@.nodes.len(),
                None => index_of(self@.names, symbol@) is None,
            },
    {
        proof {
            use_type_invariant(self);
        }
        let wanted: String = symbol.to_owned();
        let mut k: usize = 0;
        while k < self.l2_nodes_name.len()
            invariant
                k <= self.l2_nodes_name@.len(),
                self@.nodes.len() == self.l2_nodes_name@.len(),
                wanted@ == symbol@,
                forall|j: int| 0 <= j < k ==> self@.names[j] != symbol@,
            decreases self.l2_nodes_name.len() - k,
        {
            if self.l2_nodes_name[k] == wanted {
                proof {
                    assert(self@.names[k as int] == symbol@);
                    lemma_index_of_first(self@.names, symbol@, k as int);
                }
                return Some(k);
            }
            k += 1;
        }
        proof {
            lemma_index_of_none(self@.names, symbol@);
        }
        None
    }

    /// The moves open to a ship in `state`, a node and the fuel left: for each
    /// link that leaves the node and takes no more fuel than that, in order, the
    /// state that the ship arrives in and the seconds that the link takes.
    pub fn successors(&self, state: (usize, i64)) -> (out: Vec<((usize, i64), i128)>)
        ensures
            moves_view(out@) == if state.0 < self@.nodes.len() {
                moves(self@.links[state.0 as int], state.1 as int, self@.links[state.0 as int].len() as int)
            } else {
                Seq::empty()
            },
    {
        proof {
            use_type_invariant(self);
            self@.lemma_bounded();
        }
        successors(&self.l2_adj, state)
    }

    /// Matches a path that a search from node `src` to node `dest` has found at
    /// `cost` against the graph, and tells it leg by leg.
    pub fn annotate(&self, src: usize, dest: usize, path: &Vec<(usize, i64)>, cost: i128) -> (r: Option<Route>)
        ensures
            route_view(r) == annotated(self@.links, self@.names, src as int, dest as int, path@, cost),
    {
        proof {
            use_type_invariant(self);
            self@.lemma_bounded();
        }
        annotate(&self.l2_nodes_name, &self.l2_adj, src, dest, path, cost)
    }

    /// The fastest route that the search finds from the node named `src` to the
    /// node named `dest`, for a ship that sets out with `START_FUEL`.
    ///
    /// The answer is an error if one of the two symbols names no node, `None` if
    /// no links that the fuel allows lead from the one node to the other, and a
    /// route otherwise. From a node to itself the route has no leg and takes no
    /// time. Where the estimates of the search are admissible, as they are where
    /// no jump bridges more than `SAFE_JUMP`, the route takes as long as its legs
    /// together, and no way takes less.
    pub fn astar(&self, src: &str, dest: &str) -> (r: Result<Option<Route>, LookupError>)
        ensures
            answer_view(r) == self@.route(src@, dest@),
            r matches Ok(route) ==> (route is Some <==> connected(
                self@.links,
                index_of(self@.names, src@)->0,
                index_of(self@.names, dest@)->0,
                START_FUEL as int,
                MAX_FUEL as int,
                FUEL_SEGMENT as int,
            )),
            admissible(
                self@.links,
                estimates(self@.nodes, index_of(self@.names, dest@)->0),
                index_of(self@.names, dest@)->0,
            ) ==> (r matches Ok(Some(route)) ==> route.total_duration == elapsed_after(route@.legs)
                && is_fastest(
                self@.links,
                index_of(self@.names, src@)->0,
                index_of(self@.names, dest@)->0,
                START_FUEL as int,
                MAX_FUEL as int,
                FUEL_SEGMENT as int,
                route.total_duration as int,
            )),
    {
        proof {
            use_type_invariant(self);
            self@.lemma_bounded();
        }
        let src = match self.find(src) {
            Some(k) => k,
            None => {
                return Err(LookupError::UnknownSource);
            },
        };
        let dest = match self.find(dest) {
            Some(k) => k,
            None => {
                return Err(LookupError::UnknownDestination);
            },
        };
        if src == dest {
            let legs = Vec::new();
            let route = Route { legs, total_duration: 0 };
            proof {
                assert(route@.legs =~= Seq::empty());
                assert(arrives(
                    self@.links,
                    src as int,
                    dest as int,
                    START_FUEL as int,
                    MAX_FUEL as int,
                    FUEL_SEGMENT as int,
                    Seq::empty(),
                    0,
                ));
                lemma_fastest_to_itself(
                    self@.links,
                    src as int,
                    START_FUEL as int,
                    MAX_FUEL as int,
                    FUEL_SEGMENT as int,
                );
            }
            return Ok(Some(route));
        }
        let table = distances_to(&self.l2_nodes, dest);
        match run_astar(&self.l2_adj, &table, src, dest) {
            Some((path, cost)) => {
                proof {
                    lemma_way_tells_route(self@.links, self@.names, src as int, dest as int, path@, cost);
                    lemma_legs_travel(self@.links, self@.names, path@, path@.len() - 1);
                }
                Ok(annotate(&self.l2_nodes_name, &self.l2_adj, src, dest, &path, cost))
            },
            None => Ok(None),
        }
    }

    /// Every state that a ship reaches from the node named `src`, setting out
    /// with a full tank, each once, with the least seconds in which it is reached
    /// and the state before it on such a way. The state that the ship sets out
    /// in is left out, and the order of the list is left open. The answer is an
    /// error if `src` names no node.
    pub fn dijkstra(&self, src: &str) -> (r: Result<Vec<Reached>, LookupError>)
        ensures
            match r {
                Ok(reached) => index_of(self@.names, src@) matches Some(s) && explored(
                    self@.links,
                    s,
                    reached@,
                ),
                Err(e) => e == LookupError::UnknownSource && index_of(self@.names, src@) is None,
            },
    {
        proof {
            use_type_invariant(self);
            self@.lemma_bounded();
        }
        match self.find(src) {
            Some(k) => Ok(run_dijkstra_all(&self.l2_adj, k)),
            None => Err(LookupError::UnknownSource),
        }
    }
}

} // verus!
