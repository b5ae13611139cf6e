//! Ship parameters, the kinds of node and link of the travel graph, and what
//! each way of travelling between two nodes costs in time and fuel.

use vstd::prelude::*;
use crate::geometry::{dist, distance, round_div, rounded_quotient, lemma_distance_bounds, DISTANCE_LIMIT};

verus! {

/// Fuel that a ship sets out with.
pub const START_FUEL: i64 = 1500;

/// Fuel capacity of a ship.
pub const MAX_FUEL: i64 = 1500;

/// Base speed of a ship.
pub const SHIP_SPEED: i64 = 30;

/// Longest distance between two systems that a jump gate bridges.
pub const MAX_JUMPGATE: i64 = 2000;

/// Longest distance between two systems that a ship drifts.
pub const MAX_WARP: i64 = 10000;

/// Remaining fuel is tracked in whole multiples of this amount.
pub const FUEL_SEGMENT: i64 = 150;

/// Fuel that drifting takes, whatever the distance.
pub const DRIFT_FUEL_COST: i64 = 1;

/// A jump takes at least this many seconds.
pub const MIN_JUMP_DURATION: i64 = 60;

/// Seconds that every flight takes on top of the time spent travelling.
pub const FLIGHT_OVERHEAD: i64 = 15;

/// Time scale of flights within a system.
pub const NAV_SCALE: i64 = 15;

/// Time scale of flights between systems.
pub const WARP_SCALE: i64 = 20;

/// Distance that a jump covers per second.
pub const JUMP_SCALE: i64 = 10;

/// No link takes longer than this many seconds.
pub const DURATION_LIMIT: i64 = 0x200_0000_0000;

/// Position of a system in the universe.
#[derive(Clone, Copy, Debug, PartialEq, Eq)]
pub struct SystemPoint(pub i32, pub i32);

/// Position of a waypoint within its system.
#[derive(Clone, Copy, Debug, PartialEq, Eq)]
pub struct WaypointPoint(pub i32, pub i32);

/// A routable location.
#[derive(Clone, Copy, Debug, PartialEq, Eq)]
pub enum Node {
    /// A waypoint that is a jump gate.
    JumpgateWaypoint(SystemPoint, WaypointPoint),
    /// A waypoint with a marketplace.
    MarketWaypoint(SystemPoint, WaypointPoint),
    /// A whole system that has neither.
    System(SystemPoint),
}

#[derive(Clone, Copy, Debug, PartialEq, Eq)]
pub enum FlightMode {
    CRUISE,
    BURN,
    DRIFT,
}

/// How a link is travelled.
#[derive(Clone, Copy, Debug, PartialEq, Eq)]
pub enum Edge {
    /// Between two jump gates.
    Jumpgate,
    /// Between two systems.
    Warp(FlightMode),
    /// Within a system.
    Nav(FlightMode),
}

/// A directed link of the graph, as stored with the node that it leaves.
#[derive(Clone, Copy, Debug, PartialEq, Eq)]
pub struct Link {
    /// Index of the node that the link leads to.
    pub to: usize,
    pub kind: Edge,
    /// Seconds that the link takes.
    pub duration: i64,
    /// Fuel that the link takes.
    pub fuel: i64,
    /// Ships refuel at the node that the link leads to.
    pub refuel: bool,
}

/// A link over mathematical integers.
pub struct LinkView {
    pub to: int,
    pub kind: Edge,
    pub duration: int,
    pub fuel: int,
    pub refuel: bool,
}

impl View for Link {
    type V = LinkView;

    open spec fn view(&self) -> LinkView {
        LinkView {
            to: self.to as int,
            kind: self.kind,
            duration: self.duration as int,
            fuel: self.fuel as int,
            refuel: self.refuel,
        }
    }
}

/// The links of a row, each by its view.
pub open spec fn links_view(row: Seq<Link>) -> Seq<LinkView> {
    Seq::new(row.len(), |k: int| row[k]@)
}

impl Node {
    /// Coordinates of the system that the node lies in.
    pub open spec fn system(self) -> (i32, i32) {
        match self {
            Node::JumpgateWaypoint(SystemPoint(x, y), _) => (x, y),
            Node::MarketWaypoint(SystemPoint(x, y), _) => (x, y),
            Node::System(SystemPoint(x, y)) => (x, y),
        }
    }

    /// Coordinates of the node within its system; a node that stands for a
    /// whole system has none.
    pub open spec fn local(self) -> Option<(i32, i32)> {
        match self {
            Node::JumpgateWaypoint(_, WaypointPoint(x, y)) => Some((x, y)),
            Node::MarketWaypoint(_, WaypointPoint(x, y)) => Some((x, y)),
            Node::System(_) => None,
        }
    }

    pub open spec fn is_gate(self) -> bool {
        self is JumpgateWaypoint
    }

    /// Ships refuel at markets, and nowhere else.
    pub open spec fn is_market(self) -> bool {
        self is MarketWaypoint
    }

    pub fn system_coords(&self) -> (p: (i32, i32))
        ensures
            p == self.system(),
    {
        match self {
            Node::JumpgateWaypoint(SystemPoint(x, y), _) => (*x, *y),
            Node::MarketWaypoint(SystemPoint(x, y), _) => (*x, *y),
            Node::System(SystemPoint(x, y)) => (*x, *y),
        }
    }

    pub fn local_coords(&self) -> (p: Option<(i32, i32)>)
        ensures
            p == self.local(),
    {
        match self {
            Node::JumpgateWaypoint(_, WaypointPoint(x, y)) => Some((*x, *y)),
            Node::MarketWaypoint(_, WaypointPoint(x, y)) => Some((*x, *y)),
            Node::System(_) => None,
        }
    }
}

impl FlightMode {
    /// The share of the ship's speed that the mode flies at, in tenths.
    pub open spec fn tenths(self) -> int {
        match self {
            FlightMode::CRUISE => 10,
            FlightMode::BURN => 20,
            FlightMode::DRIFT => 1,
        }
    }
}

/// Fuel that a flight over distance `d` takes.
pub open spec fn flight_fuel(mode: FlightMode, d: int) -> int {
    match mode {
        FlightMode::CRUISE => d,
        FlightMode::BURN => 2 * d,
        FlightMode::DRIFT => DRIFT_FUEL_COST as int,
    }
}

/// Seconds that a flight over distance `d` takes: the overhead, and `d` divided
/// by the speed `SHIP_SPEED * tenths / 10 / scale`, rounded.
pub open spec fn flight_duration(mode: FlightMode, d: int, scale: int) -> int {
    FLIGHT_OVERHEAD + rounded_quotient(d * scale * 10, SHIP_SPEED * mode.tenths())
}

/// Seconds that a jump over distance `d` takes.
pub open spec fn jump_duration(d: int) -> int {
    let t = rounded_quotient(d, JUMP_SCALE as int);
    if t < MIN_JUMP_DURATION {
        MIN_JUMP_DURATION as int
    } else {
        t
    }
}

/// The link, if `present`, and nothing otherwise.
pub open spec fn optional(present: bool, link: LinkView) -> Seq<LinkView> {
    if present {
        seq![link]
    } else {
        Seq::empty()
    }
}

/// The flight in `mode` over distance `d` to node `to`.
pub open spec fn flight(to: int, kind: Edge, mode: FlightMode, d: int, scale: int, refuel: bool) -> LinkView {
    LinkView {
        to,
        kind,
        duration: flight_duration(mode, d, scale),
        fuel: flight_fuel(mode, d),
        refuel,
    }
}

/// The jump from `a` to `b`: both are jump gates, and their systems lie within
/// range of each other.
pub open spec fn jump_links(a: Node, b: Node, to: int) -> Seq<LinkView> {
    let d = distance(a.system(), b.system());
    optional(
        a.is_gate() && b.is_gate() && d <= MAX_JUMPGATE,
        LinkView { to, kind: Edge::Jumpgate, duration: jump_duration(d), fuel: 0, refuel: b.is_market() },
    )
}

/// The flights from `a` to `b` within one system, over the distance between the
/// two waypoints: cruise, burn and drift, each only if the tank holds the fuel
/// that it takes. A node that stands for a whole system has no position within
/// it, and no such flight.
pub open spec fn nav_links(a: Node, b: Node, to: int) -> Seq<LinkView> {
    match (a.local(), b.local()) {
        (Some(p), Some(q)) => {
            let d = distance(p, q);
            let r = b.is_market();
            optional(
                flight_fuel(FlightMode::CRUISE, d) <= MAX_FUEL,
                flight(to, Edge::Nav(FlightMode::CRUISE), FlightMode::CRUISE, d, NAV_SCALE as int, r),
            ) + optional(
                flight_fuel(FlightMode::BURN, d) <= MAX_FUEL,
                flight(to, Edge::Nav(FlightMode::BURN), FlightMode::BURN, d, NAV_SCALE as int, r),
            ) + optional(
                flight_fuel(FlightMode::DRIFT, d) <= MAX_FUEL,
                flight(to, Edge::Nav(FlightMode::DRIFT), FlightMode::DRIFT, d, NAV_SCALE as int, r),
            )
        },
        _ => Seq::empty(),
    }
}

/// The flights from `a` to `b` in another system, over the distance between the
/// two systems: burn, cruise and drift, each only if the tank holds the fuel
/// that it takes, and drift only within `MAX_WARP`.
pub open spec fn warp_links(a: Node, b: Node, to: int) -> Seq<LinkView> {
    let d = distance(a.system(), b.system());
    let r = b.is_market();
    optional(
        flight_fuel(FlightMode::BURN, d) <= MAX_FUEL,
        flight(to, Edge::Warp(FlightMode::BURN), FlightMode::BURN, d, WARP_SCALE as int, r),
    ) + optional(
        flight_fuel(FlightMode::CRUISE, d) <= MAX_FUEL,
        flight(to, Edge::Warp(FlightMode::CRUISE), FlightMode::CRUISE, d, WARP_SCALE as int, r),
    ) + optional(
        flight_fuel(FlightMode::DRIFT, d) <= MAX_FUEL && d <= MAX_WARP,
        flight(to, Edge::Warp(FlightMode::DRIFT), FlightMode::DRIFT, d, WARP_SCALE as int, r),
    )
}

/// All links from `a` to another node `b`, which has index `to`, in the order
/// in which a graph holds them.
pub open spec fn pair_links(a: Node, b: Node, to: int) -> Seq<LinkView> {
    jump_links(a, b, to) + if a.system() == b.system() {
        nav_links(a, b, to)
    } else {
        warp_links(a, b, to)
    }
}

/// The names of a row of strings.
pub open spec fn names_view(names: Seq<String>) -> Seq<Seq<char>> {
    Seq::new(names.len(), |k: int| names[k]@)
}

/// The rows of links, each by its view.
pub open spec fn rows_view(rows: Seq<Vec<Link>>) -> Seq<Seq<LinkView>> {
    Seq::new(rows.len(), |i: int| links_view(rows[i]@))
}

/// What holds of a link `link` from node `a` to node `b`, which has index `to`:
/// it leads to `b`, takes no more fuel than the tank holds, and is a jump only
/// between two gates in range, a flight within a system only between two
/// waypoints of one system, and a flight between systems only between two
/// systems, each with the duration and fuel of its kind.
pub open spec fn link_fits(a: Node, b: Node, to: int, link: LinkView) -> bool {
    let d = distance(a.system(), b.system());
    &&& link.to == to
    &&& 0 <= link.fuel <= MAX_FUEL
    &&& 0 <= link.duration <= DURATION_LIMIT
    &&& link.refuel == b.is_market()
    &&& match link.kind {
        Edge::Jumpgate => {
            &&& a.is_gate()
            &&& b.is_gate()
            &&& d <= MAX_JUMPGATE
            &&& link.fuel == 0
            &&& link.duration == jump_duration(d)
            &&& link.duration >= MIN_JUMP_DURATION
        },
        Edge::Nav(mode) => {
            &&& a.system() == b.system()
            &&& a.local() is Some
            &&& b.local() is Some
            &&& link.fuel == flight_fuel(mode, distance(a.local()->0, b.local()->0))
            &&& link.duration == flight_duration(
                mode,
                distance(a.local()->0, b.local()->0),
                NAV_SCALE as int,
            )
        },
        Edge::Warp(mode) => {
            &&& a.system() != b.system()
            &&& link.fuel == flight_fuel(mode, d)
            &&& link.duration == flight_duration(mode, d, WARP_SCALE as int)
            &&& (mode is DRIFT ==> d <= MAX_WARP)
        },
    }
}

/// A flight over a distance between two points takes between the overhead and
/// `DURATION_LIMIT` seconds.
pub proof fn lemma_flight_duration_bounds(mode: FlightMode, d: int, scale: int)
    requires
        0 <= d <= DISTANCE_LIMIT,
        scale == NAV_SCALE || scale == WARP_SCALE,
    ensures
        FLIGHT_OVERHEAD <= flight_duration(mode, d, scale) <= DURATION_LIMIT,
{
    let n = d * scale * 10;
    let den = SHIP_SPEED * mode.tenths();
    assert(0 <= n <= 0x2_0000_0000 * 200) by (nonlinear_arith)
        requires
            n == d * scale * 10,
            0 <= d <= 0x2_0000_0000,
            0 < scale <= 20,
    ;
    assert(0 <= (2 * n + den) / (2 * den) <= n + 1) by (nonlinear_arith)
        requires
            0 <= n,
            0 < den,
    ;
}

/// A jump over a distance between two points takes between
/// `MIN_JUMP_DURATION` and `DURATION_LIMIT` seconds.
pub proof fn lemma_jump_duration_bounds(d: int)
    requires
        0 <= d <= DISTANCE_LIMIT,
    ensures
        MIN_JUMP_DURATION <= jump_duration(d) <= DURATION_LIMIT,
{
}

/// Between two nodes there are at most four links, each fits the two nodes, and
/// no two are of the same kind.
pub proof fn lemma_pair_links(a: Node, b: Node, to: int)
    ensures
        pair_links(a, b, to).len() <= 4,
        forall|k: int| 0 <= k < pair_links(a, b, to).len() ==> link_fits(a, b, to, #[trigger] pair_links(a, b, to)[k]),
        forall|k: int, m: int|
            0 <= k < m < pair_links(a, b, to).len() ==> (#[trigger] pair_links(a, b, to)[k]).kind != (
            #[trigger] pair_links(a, b, to)[m]).kind,
{
    let d = distance(a.system(), b.system());
    lemma_distance_bounds(a.system(), b.system());
    lemma_jump_duration_bounds(d);
    lemma_flight_duration_bounds(FlightMode::CRUISE, d, WARP_SCALE as int);
    lemma_flight_duration_bounds(FlightMode::BURN, d, WARP_SCALE as int);
    lemma_flight_duration_bounds(FlightMode::DRIFT, d, WARP_SCALE as int);
    match (a.local(), b.local()) {
        (Some(p), Some(q)) => {
            let n = distance(p, q);
            lemma_distance_bounds(p, q);
            lemma_flight_duration_bounds(FlightMode::CRUISE, n, NAV_SCALE as int);
            lemma_flight_duration_bounds(FlightMode::BURN, n, NAV_SCALE as int);
            lemma_flight_duration_bounds(FlightMode::DRIFT, n, NAV_SCALE as int);
        },
        _ => {},
    }
}

/// What two sequences hold together is what either holds.
pub proof fn lemma_contains_add(s: Seq<LinkView>, t: Seq<LinkView>, x: LinkView)
    ensures
        (s + t).contains(x) <==> s.contains(x) || t.contains(x),
{
    if s.contains(x) {
        let k = choose|k: int| 0 <= k < s.len() && s[k] == x;
        assert((s + t)[k] == x);
    }
    if t.contains(x) {
        let k = choose|k: int| 0 <= k < t.len() && t[k] == x;
        assert((s + t)[s.len() + k] == x);
    }
    if (s + t).contains(x) {
        let k = choose|k: int| 0 <= k < (s + t).len() && (s + t)[k] == x;
        if k < s.len() {
            assert(s[k] == x);
        } else {
            assert(t[k - s.len()] == x);
        }
    }
}

proof fn lemma_optional_contains(present: bool, link: LinkView, x: LinkView)
    ensures
        optional(present, link).contains(x) <==> present && x == link,
{
    if present {
        assert(optional(present, link)[0] == link);
    }
}

/// The links between two nodes are exactly those that fit them.
pub proof fn lemma_pair_links_contains(a: Node, b: Node, to: int, x: LinkView)
    ensures
        pair_links(a, b, to).contains(x) <==> link_fits(a, b, to, x),
{
    lemma_pair_links(a, b, to);
    let d = distance(a.system(), b.system());
    let r = b.is_market();
    let jump = LinkView { to, kind: Edge::Jumpgate, duration: jump_duration(d), fuel: 0, refuel: r };
    lemma_optional_contains(a.is_gate() && b.is_gate() && d <= MAX_JUMPGATE, jump, x);
    let flights = if a.system() == b.system() {
        nav_links(a, b, to)
    } else {
        warp_links(a, b, to)
    };
    lemma_contains_add(jump_links(a, b, to), flights, x);
    if a.system() == b.system() {
        match (a.local(), b.local()) {
            (Some(p), Some(q)) => {
                let n = distance(p, q);
                let s = NAV_SCALE as int;
                let c = flight(to, Edge::Nav(FlightMode::CRUISE), FlightMode::CRUISE, n, s, r);
                let u = flight(to, Edge::Nav(FlightMode::BURN), FlightMode::BURN, n, s, r);
                let f = flight(to, Edge::Nav(FlightMode::DRIFT), FlightMode::DRIFT, n, s, r);
                let oc = optional(flight_fuel(FlightMode::CRUISE, n) <= MAX_FUEL, c);
                let ou = optional(flight_fuel(FlightMode::BURN, n) <= MAX_FUEL, u);
                let of = optional(flight_fuel(FlightMode::DRIFT, n) <= MAX_FUEL, f);
                lemma_optional_contains(flight_fuel(FlightMode::CRUISE, n) <= MAX_FUEL, c, x);
                lemma_optional_contains(flight_fuel(FlightMode::BURN, n) <= MAX_FUEL, u, x);
                lemma_optional_contains(flight_fuel(FlightMode::DRIFT, n) <= MAX_FUEL, f, x);
                lemma_contains_add(oc, ou, x);
                lemma_contains_add(oc + ou, of, x);
                lemma_distance_bounds(p, q);
                lemma_flight_duration_bounds(FlightMode::CRUISE, n, s);
                lemma_flight_duration_bounds(FlightMode::BURN, n, s);
                lemma_flight_duration_bounds(FlightMode::DRIFT, n, s);
            },
            _ => {
                assert(!nav_links(a, b, to).contains(x));
            },
        }
    } else {
        let s = WARP_SCALE as int;
        let u = flight(to, Edge::Warp(FlightMode::BURN), FlightMode::BURN, d, s, r);
        let c = flight(to, Edge::Warp(FlightMode::CRUISE), FlightMode::CRUISE, d, s, r);
        let f = flight(to, Edge::Warp(FlightMode::DRIFT), FlightMode::DRIFT, d, s, r);
        let ou = optional(flight_fuel(FlightMode::BURN, d) <= MAX_FUEL, u);
        let oc = optional(flight_fuel(FlightMode::CRUISE, d) <= MAX_FUEL, c);
        let of = optional(flight_fuel(FlightMode::DRIFT, d) <= MAX_FUEL && d <= MAX_WARP, f);
        lemma_optional_contains(flight_fuel(FlightMode::BURN, d) <= MAX_FUEL, u, x);
        lemma_optional_contains(flight_fuel(FlightMode::CRUISE, d) <= MAX_FUEL, c, x);
        lemma_optional_contains(flight_fuel(FlightMode::DRIFT, d) <= MAX_FUEL && d <= MAX_WARP, f, x);
        lemma_contains_add(ou, oc, x);
        lemma_contains_add(ou + oc, of, x);
        lemma_distance_bounds(a.system(), b.system());
        lemma_flight_duration_bounds(FlightMode::CRUISE, d, s);
        lemma_flight_duration_bounds(FlightMode::BURN, d, s);
        lemma_flight_duration_bounds(FlightMode::DRIFT, d, s);
    }
    lemma_distance_bounds(a.system(), b.system());
    lemma_jump_duration_bounds(d);
}

/// Within a system there are at most three flights from one node to another,
/// no two in the same mode, and they are exactly the flights within a system
/// that fit the two nodes: the one in a given mode is there if and only if the
/// tank holds the fuel that it takes.
pub proof fn lemma_nav_links(a: Node, b: Node, to: int)
    requires
        a.system() == b.system(),
    ensures
        pair_links(a, b, to) == jump_links(a, b, to) + nav_links(a, b, to),
        nav_links(a, b, to).len() <= 3,
        forall|k: int| 0 <= k < nav_links(a, b, to).len() ==> (#[trigger] nav_links(a, b, to)[k]).kind is Nav,
        forall|k: int, m: int|
            0 <= k < m < nav_links(a, b, to).len() ==> (#[trigger] nav_links(a, b, to)[k]).kind != (
            #[trigger] nav_links(a, b, to)[m]).kind,
        forall|x: LinkView| #[trigger]
            nav_links(a, b, to).contains(x) <==> x.kind is Nav && link_fits(a, b, to, x),
{
    assert forall|x: LinkView| #[trigger]
        nav_links(a, b, to).contains(x) <==> x.kind is Nav && link_fits(a, b, to, x) by {
        lemma_pair_links_contains(a, b, to, x);
        lemma_contains_add(jump_links(a, b, to), nav_links(a, b, to), x);
        if nav_links(a, b, to).contains(x) {
            let k = choose|k: int| 0 <= k < nav_links(a, b, to).len() && nav_links(a, b, to)[k] == x;
            assert(nav_links(a, b, to)[k].kind is Nav);
        }
        if jump_links(a, b, to).contains(x) {
            let k = choose|k: int| 0 <= k < jump_links(a, b, to).len() && jump_links(a, b, to)[k] == x;
            assert(jump_links(a, b, to)[k].kind is Jumpgate);
        }
    }
}

/// Between two systems there are at most three flights from one node to
/// another, no two in the same mode, and they are exactly the flights between
/// systems that fit the two nodes: the one in a given mode is there if and only
/// if the tank holds the fuel that it takes and, for a drift, the systems are
/// within `MAX_WARP` of each other.
pub proof fn lemma_warp_links(a: Node, b: Node, to: int)
    requires
        a.system() != b.system(),
    ensures
        pair_links(a, b, to) == jump_links(a, b, to) + warp_links(a, b, to),
        warp_links(a, b, to).len() <= 3,
        forall|k: int| 0 <= k < warp_links(a, b, to).len() ==> (#[trigger] warp_links(a, b, to)[k]).kind is Warp,
        forall|k: int, m: int|
            0 <= k < m < warp_links(a, b, to).len() ==> (#[trigger] warp_links(a, b, to)[k]).kind != (
            #[trigger] warp_links(a, b, to)[m]).kind,
        forall|x: LinkView| #[trigger]
            warp_links(a, b, to).contains(x) <==> x.kind is Warp && link_fits(a, b, to, x),
{
    assert forall|x: LinkView| #[trigger]
        warp_links(a, b, to).contains(x) <==> x.kind is Warp && link_fits(a, b, to, x) by {
        lemma_pair_links_contains(a, b, to, x);
        lemma_contains_add(jump_links(a, b, to), warp_links(a, b, to), x);
        if warp_links(a, b, to).contains(x) {
            let k = choose|k: int| 0 <= k < warp_links(a, b, to).len() && warp_links(a, b, to)[k] == x;
            assert(warp_links(a, b, to)[k].kind is Warp);
        }
        if jump_links(a, b, to).contains(x) {
            let k = choose|k: int| 0 <= k < jump_links(a, b, to).len() && jump_links(a, b, to)[k] == x;
            assert(jump_links(a, b, to)[k].kind is Jumpgate);
        }
    }
}

/// The links of `row` that lead to node `j`, in order.
pub open spec fn links_to(row: Seq<LinkView>, j: int) -> Seq<LinkView> {
    row.filter(|link: LinkView| link.to == j)
}

/// Where every link leads to node `j`, the links that lead there are all.
pub proof fn lemma_links_to_all(row: Seq<LinkView>, j: int)
    requires
        forall|k: int| 0 <= k < row.len() ==> (#[trigger] row[k]).to == j,
    ensures
        links_to(row, j) == row,
    decreases row.len(),
{
    reveal(Seq::filter);
    if row.len() > 0 {
        lemma_links_to_all(row.drop_last(), j);
        assert(row.drop_last().push(row.last()) =~= row);
    }
}

/// Where no link leads to node `j`, none is among the links that lead there.
pub proof fn lemma_links_to_none(row: Seq<LinkView>, j: int)
    requires
        forall|k: int| 0 <= k < row.len() ==> (#[trigger] row[k]).to != j,
    ensures
        links_to(row, j) == Seq::<LinkView>::empty(),
    decreases row.len(),
{
    reveal(Seq::filter);
    if row.len() > 0 {
        lemma_links_to_none(row.drop_last(), j);
    }
}

/// Every link leads to a node of the graph and has fuel and duration within the
/// limits.
pub open spec fn bounded(links: Seq<Seq<LinkView>>) -> bool {
    forall|i: int, k: int|
        0 <= i < links.len() && 0 <= k < links[i].len() ==> {
            let link = #[trigger] links[i][k];
            &&& 0 <= link.to < links.len()
            &&& 0 <= link.fuel <= MAX_FUEL
            &&& 0 <= link.duration <= DURATION_LIMIT
        }
}

fn mode_tenths(mode: FlightMode) -> (t: i64)
    ensures
        t == mode.tenths(),
{
    match mode {
        FlightMode::CRUISE => 10,
        FlightMode::BURN => 20,
        FlightMode::DRIFT => 1,
    }
}

fn fuel_of_flight(mode: FlightMode, d: i64) -> (f: i64)
    requires
        0 <= d <= DISTANCE_LIMIT,
    ensures
        f == flight_fuel(mode, d as int),
        0 <= f,
{
    match mode {
        FlightMode::CRUISE => d,
        FlightMode::BURN => 2 * d,
        FlightMode::DRIFT => DRIFT_FUEL_COST,
    }
}

fn duration_of_flight(mode: FlightMode, d: i64, scale: i64) -> (t: i64)
    requires
        0 <= d <= DISTANCE_LIMIT,
        0 < scale <= 20,
    ensures
        t == flight_duration(mode, d as int, scale as int),
        0 <= t <= DURATION_LIMIT,
{
    assert(0 <= d * scale <= 0x2_0000_0000 * 20) by (nonlinear_arith)
        requires
            0 <= d <= 0x2_0000_0000,
            0 < scale <= 20,
    ;
    let n: i64 = d * scale * 10;
    let t: i64 = mode_tenths(mode);
    FLIGHT_OVERHEAD + round_div(n, SHIP_SPEED * t)
}

fn duration_of_jump(d: i64) -> (t: i64)
    requires
        0 <= d <= DISTANCE_LIMIT,
    ensures
        t == jump_duration(d as int),
        0 <= t <= DURATION_LIMIT,
{
    let t: i64 = round_div(d, JUMP_SCALE);
    if t < MIN_JUMP_DURATION {
        MIN_JUMP_DURATION
    } else {
        t
    }
}

/// Appends `link` to `row` if `present`.
fn push_if(row: &mut Vec<Link>, present: bool, link: Link)
    ensures
        links_view(final(row)@) == links_view(old(row)@) + optional(present, link@),
{
    if present {
        row.push(link);
    }
    assert(links_view(row@) =~= links_view(old(row)@) + optional(present, link@));
}

/// Appends the flight in `mode` over distance `d` to `row`, if `allowed` and
/// the tank holds the fuel that it takes.
fn push_flight(row: &mut Vec<Link>, to: usize, nav: bool, mode: FlightMode, d: i64, allowed: bool, refuel: bool)
    requires
        0 <= d <= DISTANCE_LIMIT,
    ensures
        links_view(final(row)@) == links_view(old(row)@) + optional(
            flight_fuel(mode, d as int) <= MAX_FUEL && allowed,
            flight(
                to as int,
                if nav { Edge::Nav(mode) } else { Edge::Warp(mode) },
                mode,
                d as int,
                if nav { NAV_SCALE as int } else { WARP_SCALE as int },
                refuel,
            ),
        ),
{
    let fuel: i64 = fuel_of_flight(mode, d);
    let scale: i64 = if nav { NAV_SCALE } else { WARP_SCALE };
    let duration: i64 = duration_of_flight(mode, d, scale);
    let kind = if nav { Edge::Nav(mode) } else { Edge::Warp(mode) };
    push_if(row, fuel <= MAX_FUEL && allowed, Link { to, kind, duration, fuel, refuel });
}

/// Appends to `row` the links from `a` to another node `b`, which has index `to`.
pub(crate) fn push_pair_links(row: &mut Vec<Link>, a: &Node, b: &Node, to: usize)
    ensures
        links_view(final(row)@) == links_view(old(row)@) + pair_links(*a, *b, to as int),
{
    let refuel = match b {
        Node::MarketWaypoint(_, _) => true,
        _ => false,
    };
    let sa = a.system_coords();
    let sb = b.system_coords();
    let d: i64 = dist(sa, sb);
    let gates = match (a, b) {
        (Node::JumpgateWaypoint(_, _), Node::JumpgateWaypoint(_, _)) => true,
        _ => false,
    };
    let ghost before = links_view(row@);
    push_if(
        row,
        gates && d <= MAX_JUMPGATE,
        Link { to, kind: Edge::Jumpgate, duration: duration_of_jump(d), fuel: 0, refuel },
    );
    assert(links_view(row@) == before + jump_links(*a, *b, to as int));
    if sa.0 == sb.0 && sa.1 == sb.1 {
        match (a.local_coords(), b.local_coords()) {
            (Some(p), Some(q)) => {
                let n: i64 = dist(p, q);
                push_flight(row, to, true, FlightMode::CRUISE, n, true, refuel);
                push_flight(row, to, true, FlightMode::BURN, n, true, refuel);
                push_flight(row, to, true, FlightMode::DRIFT, n, true, refuel);
            },
            _ => {},
        }
        assert(links_view(row@) =~= before + (jump_links(*a, *b, to as int) + nav_links(
            *a,
            *b,
            to as int,
        )));
    } else {
        push_flight(row, to, false, FlightMode::BURN, d, true, refuel);
        push_flight(row, to, false, FlightMode::CRUISE, d, true, refuel);
        push_flight(row, to, false, FlightMode::DRIFT, d, d <= MAX_WARP, refuel);
        assert(links_view(row@) =~= before + (jump_links(*a, *b, to as int) + warp_links(
            *a,
            *b,
            to as int,
        )));
    }
}

} // verus!
