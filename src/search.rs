use vstd::prelude::*;
use crate::graph::TravelGraph;
use crate::pathfinder::{is_walk, shortest_ok, shortest_paths, walk_cost};
use crate::route::Route;
use crate::settings::Settings;
use crate::book::margin_ok;
use crate::types::{contains_location, copy_of, has_order, transited, Order, OrderGroup, TradeCandidate, Waypoint};

verus! {

/// Units purchasable from an ask: the ask's quantity, limited by the hold
/// (`cargo / unit_volume`, when the unit volume is positive) and by the
/// capital (`capital / price`, when the price is positive); none at all
/// without capital.
pub open spec fn max_units(cargo: int, unit_volume: int, capital: int, price: int, available: int) -> int {
    if capital <= 0 {
        0
    } else {
        max_units_with_capital(cargo, unit_volume, capital, price, available)
    }
}

pub open spec fn max_units_with_capital(cargo: int, unit_volume: int, capital: int, price: int, available: int) -> int {
    let by_hold = if unit_volume > 0 && cargo / unit_volume < available {
        cargo / unit_volume
    } else {
        available
    };
    if price > 0 && capital / price < by_hold {
        capital / price
    } else {
        by_hold
    }
}

/// Whether the starting capital and hold can buy some units from `ask` of `book`.
pub open spec fn affordable(book: OrderGroup, ask: Order, settings: Settings) -> bool {
    max_units(settings.cargo() as int, book.volume as int, settings.capital() as int, ask.price as int, ask.volume as int)
        >= 1
}

/// Whether no ask at a known location is affordable with the starting capital:
/// then the search has nothing to start from.
pub open spec fn no_seed(g: TravelGraph, books: Seq<OrderGroup>, settings: Settings) -> bool {
    forall|b: int, a: int|
        0 <= b < books.len() && 0 <= a < books[b].sell@.len() && g.ids@.contains(
            #[trigger] books[b].sell@[a].system_id,
        ) ==> !affordable(books[b], books[b].sell@[a], settings)
}

/// No ask among the first `nb` books, nor among the first `na` asks of book
/// `nb`, is affordable at a known location.
pub open spec fn none_affordable(g: TravelGraph, books: Seq<OrderGroup>, settings: Settings, nb: int, na: int) -> bool {
    forall|b: int, a: int|
        0 <= b < books.len() && 0 <= a < books[b].sell@.len() && (b < nb || (b == nb && a < na))
            && g.ids@.contains(#[trigger] books[b].sell@[a].system_id) ==> !affordable(
            books[b],
            books[b].sell@[a],
            settings,
        )
}

/// One trade leg: buying `q > 0` units from a sell order, transiting the
/// locations of a cheapest risk-compliant walk from the seller's location to
/// the buyer's (cheapest among walks through at most as many locations as the
/// graph has), and selling the same units to a buy order, with the margin met.
pub open spec fn leg_ok(g: TravelGraph, settings: Settings, w: Seq<Waypoint>) -> bool {
    &&& w.len() >= 3
    &&& w[0] is Order
    &&& w.last() is Order
    &&& ({
        let ask = w[0]->Order_0;
        let bid = w.last()->Order_0;
        &&& ask.volume == bid.volume
        &&& ask.volume > 0
        &&& margin_ok(bid.price as int, ask.price as int, settings.margin() as int)
        &&& exists|p: Seq<usize>|
            {
                &&& p.len() + 1 == w.len()
                &&& is_walk(g, p, p[0] as int, p.last() as int, settings.min_risk() as int)
                &&& g.ids@[p[0] as int] == ask.system_id
                &&& g.ids@[p.last() as int] == bid.system_id
                &&& forall|q: Seq<usize>|
                    q.len() <= g.n() && #[trigger] is_walk(g, q, p[0] as int, p.last() as int, settings.min_risk() as int)
                        ==> walk_cost(g, p) <= walk_cost(g, q)
                &&& forall|i: int| 1 <= i < p.len() ==> w[i] == Waypoint::System(g.ids@[#[trigger] p[i] as int])
            }
    })
}

/// A path made of whole trade legs, one after another.
pub open spec fn legs_ok(g: TravelGraph, settings: Settings, path: Seq<Waypoint>) -> bool
    decreases path.len(),
{
    path.len() == 0 || exists|k: int|
        0 <= k < path.len() && legs_ok(g, settings, path.take(k)) && #[trigger] leg_ok(g, settings, path.subrange(k, path.len() as int))
}

proof fn lemma_first_ask_at(asks: Seq<Order>, id: u32)
    ensures
        first_ask_at(asks, id) matches Some(o) ==> o.system_id == id,
    decreases asks.len(),
{
    if asks.len() > 0 && asks[0].system_id != id {
        lemma_first_ask_at(asks.drop_first(), id);
    }
}

proof fn lemma_best_bid_at(bids: Seq<Order>, id: u32, q: u32)
    ensures
        best_bid_at(bids, id, q) matches Some(o) ==> o.system_id == id,
    decreases bids.len(),
{
    if bids.len() > 0 && !(bids[0].system_id == id && bids[0].volume >= q) {
        lemma_best_bid_at(bids.drop_first(), id, q);
    }
}

proof fn lemma_leg_appended(
    g: TravelGraph,
    settings: Settings,
    c: Seq<Waypoint>,
    ask: Order,
    bid: Order,
    q: u32,
    p: Seq<usize>,
)
    requires
        legs_ok(g, settings, c),
        q > 0,
        margin_ok(bid.price as int, ask.price as int, settings.margin() as int),
        p.len() >= 2,
        is_walk(g, p, p[0] as int, p.last() as int, settings.min_risk() as int),
        forall|w: Seq<usize>|
            w.len() <= g.n() && #[trigger] is_walk(g, w, p[0] as int, p.last() as int, settings.min_risk() as int)
                ==> walk_cost(g, p) <= walk_cost(g, w),
        g.ids@[p[0] as int] == ask.system_id,
        g.ids@[p.last() as int] == bid.system_id,
    ensures
        legs_ok(g, settings, traded_path(c, ask, bid, q, ids_of(g, p.subrange(1, p.len() as int)))),
{
    let stops = ids_of(g, p.subrange(1, p.len() as int));
    let w = traded_path(c, ask, bid, q, stops);
    let k = c.len() as int;
    let leg = w.subrange(k, w.len() as int);
    assert(w.take(k) =~= c);
    assert(stops.len() == p.len() - 1);
    assert(leg.len() == p.len() + 1);
    assert(leg[0] == Waypoint::Order(Order { volume: q, ..ask }));
    assert(leg.last() == Waypoint::Order(Order { volume: q, ..bid }));
    assert forall|i: int| 1 <= i < p.len() implies leg[i] == Waypoint::System(g.ids@[#[trigger] p[i] as int]) by {
        assert(leg[i] == w[k + i]);
        assert(stops[i - 1] == g.ids@[p[i] as int]);
    }
    assert(leg_ok(g, settings, leg));
    assert(legs_ok(g, settings, w));
}

/// A frontier entry that stands at a location of the graph, with one visited
/// flag per location, a jump count that is the number of transited
/// locations (all distinct) and within the budget.
pub open spec fn cand_ok(c: TradeCandidate, n: int, budget: int) -> bool {
    &&& c.system_id < n
    &&& c.visited@.len() == n
    &&& c.jumps == transited(c.waypoints@).len()
    &&& c.jumps <= budget
    &&& transited(c.waypoints@).no_duplicates()
    &&& c.waypoints@.len() <= 3 * c.jumps
}

/// What the search promises of each route: its invariants hold, it executes
/// at least one order, transits no location twice and stays within the budget.
pub open spec fn route_ok(r: Route, budget: int) -> bool {
    &&& r.wf()
    &&& has_order(r@)
    &&& transited(r@).no_duplicates()
    &&& transited(r@).len() <= budget
}

/// `b` to the power `e`.
pub open spec fn power(b: nat, e: nat) -> nat
    decreases e,
{
    if e == 0 {
        1
    } else {
        b * power(b, (e - 1) as nat)
    }
}

proof fn lemma_power_positive(b: nat, e: nat)
    requires
        b >= 1,
    ensures
        power(b, e) >= 1,
    decreases e,
{
    if e > 0 {
        lemma_power_positive(b, (e - 1) as nat);
        assert(b * power(b, (e - 1) as nat) >= 1) by (nonlinear_arith)
            requires
                b >= 1,
                power(b, (e - 1) as nat) >= 1,
        ;
    }
}

proof fn lemma_power_mono(b: nat, e1: nat, e2: nat)
    requires
        b >= 1,
        e1 <= e2,
    ensures
        power(b, e1) <= power(b, e2),
    decreases e2,
{
    if e1 < e2 {
        lemma_power_mono(b, e1, (e2 - 1) as nat);
        lemma_power_positive(b, (e2 - 1) as nat);
        assert(power(b, (e2 - 1) as nat) <= b * power(b, (e2 - 1) as nat)) by (nonlinear_arith)
            requires
                b >= 1,
                power(b, (e2 - 1) as nat) >= 1,
        ;
    }
}

/// Termination measure of the frontier: each entry weighs `base` to the power
/// of its remaining jumps; an expansion trades one entry for fewer than
/// `base` entries with fewer remaining jumps.
pub open spec fn potential(s: Seq<TradeCandidate>, base: nat, budget: int) -> nat
    decreases s.len(),
{
    if s.len() == 0 {
        0
    } else {
        potential(s.drop_last(), base, budget) + power(base, (budget - s.last().jumps) as nat)
    }
}

proof fn lemma_potential_remove(s: Seq<TradeCandidate>, base: nat, budget: int, i: int)
    requires
        0 <= i < s.len(),
    ensures
        potential(s.remove(i), base, budget) + power(base, (budget - s[i].jumps) as nat) == potential(
            s,
            base,
            budget,
        ),
    decreases s.len(),
{
    if i < s.len() - 1 {
        lemma_potential_remove(s.drop_last(), base, budget, i);
        assert(s.remove(i).drop_last() =~= s.drop_last().remove(i));
        assert(s.remove(i).last() == s.last());
    } else {
        assert(s.remove(i) =~= s.drop_last());
    }
}

proof fn lemma_potential_append(s: Seq<TradeCandidate>, t: Seq<TradeCandidate>, base: nat, budget: int, m: nat)
    requires
        forall|k: int| 0 <= k < t.len() ==> power(base, (budget - (#[trigger] t[k]).jumps) as nat) <= m,
    ensures
        potential(s + t, base, budget) <= potential(s, base, budget) + t.len() * m,
    decreases t.len(),
{
    if t.len() == 0 {
        assert(s + t =~= s);
    } else {
        lemma_potential_append(s, t.drop_last(), base, budget, m);
        assert((s + t).drop_last() =~= s + t.drop_last());
        assert((s + t).last() == t.last());
        assert(t.drop_last().len() * m + m == t.len() * m) by (nonlinear_arith)
            requires
                t.drop_last().len() + 1 == t.len(),
        ;
    }
}

/// Appending entries with more jumps than `jumps` (fewer than `base` of them)
/// costs less than the entry with `jumps` that was taken out.
proof fn lemma_expand_decreases(f1: Seq<TradeCandidate>, f2: Seq<TradeCandidate>, base: nat, budget: int, jumps: int)
    requires
        base >= 1,
        0 <= jumps < budget,
        f1.len() <= f2.len(),
        f2.len() <= f1.len() + base - 1,
        forall|k: int| 0 <= k < f1.len() ==> #[trigger] f2[k] == f1[k],
        forall|k: int| f1.len() <= k < f2.len() ==> (#[trigger] f2[k]).jumps > jumps && f2[k].jumps <= budget,
    ensures
        potential(f2, base, budget) < potential(f1, base, budget) + power(base, (budget - jumps) as nat),
{
    let m = power(base, (budget - jumps - 1) as nat);
    let t = f2.skip(f1.len() as int);
    assert(f2 =~= f1 + t);
    assert forall|k: int| 0 <= k < t.len() implies power(base, (budget - (#[trigger] t[k]).jumps) as nat) <= m by {
        assert(t[k] == f2[f1.len() + k]);
        lemma_power_mono(base, (budget - t[k].jumps) as nat, (budget - jumps - 1) as nat);
    }
    lemma_potential_append(f1, t, base, budget, m);
    lemma_power_positive(base, (budget - jumps - 1) as nat);
    assert(power(base, (budget - jumps) as nat) == base * m);
    assert(t.len() * m < base * m) by (nonlinear_arith)
        requires
            t.len() <= base - 1,
            m >= 1,
    ;
}

/// Whether the path executes an order.
pub fn path_has_order(p: &Vec<Waypoint>) -> (r: bool)
    ensures
        r == has_order(p@),
{
    let mut i: usize = 0;
    while i < p.len()
        invariant
            i <= p@.len(),
            forall|k: int| 0 <= k < i ==> !(p@[k] is Order),
        decreases p@.len() - i,
    {
        if let Waypoint::Order(_) = p[i] {
            return true;
        }
        i = i + 1;
    }
    false
}

/// Units purchasable from `ask` with the given hold and capital.
pub fn calculate_max_units(cargo: u64, unit_volume: u64, capital: u128, ask: &Order) -> (r: u32)
    ensures
        r as int == max_units(cargo as int, unit_volume as int, capital as int, ask.price as int, ask.volume as int),
{
    if capital == 0 {
        return 0;
    }
    let mut q: u64 = ask.volume as u64;
    if unit_volume > 0 && cargo / unit_volume < q {
        q = cargo / unit_volume;
    }
    if ask.price > 0 && capital / (ask.price as u128) < q as u128 {
        q = (capital / (ask.price as u128)) as u64;
    }
    q as u32
}

/// The index of the frontier entry with the highest key; the earliest among equals.
fn best_index(frontier: &Vec<TradeCandidate>) -> (r: usize)
    requires
        frontier@.len() > 0,
    ensures
        r < frontier@.len(),
        forall|k: int| 0 <= k < frontier@.len() ==> (#[trigger] frontier@[k]).profit_per_jump <= frontier@[r as int].profit_per_jump,
        forall|k: int| 0 <= k < r ==> (#[trigger] frontier@[k]).profit_per_jump < frontier@[r as int].profit_per_jump,
{
    let mut b: usize = 0;
    let mut i: usize = 1;
    while i < frontier.len()
        invariant
            b < i <= frontier@.len(),
            forall|k: int| 0 <= k < i ==> (#[trigger] frontier@[k]).profit_per_jump <= frontier@[b as int].profit_per_jump,
            forall|k: int| 0 <= k < b ==> (#[trigger] frontier@[k]).profit_per_jump < frontier@[b as int].profit_per_jump,
        decreases frontier@.len() - i,
    {
        if frontier[i].profit_per_jump > frontier[b].profit_per_jump {
            b = i;
        }
        i = i + 1;
    }
    b
}

/// The first order of `asks` at location `id`.
pub open spec fn first_ask_at(asks: Seq<Order>, id: u32) -> Option<Order>
    decreases asks.len(),
{
    if asks.len() == 0 {
        None
    } else if asks[0].system_id == id {
        Some(asks[0])
    } else {
        first_ask_at(asks.drop_first(), id)
    }
}

/// The first order of `bids` at location `id` that takes at least `q` units.
pub open spec fn best_bid_at(bids: Seq<Order>, id: u32, q: u32) -> Option<Order>
    decreases bids.len(),
{
    if bids.len() == 0 {
        None
    } else if bids[0].system_id == id && bids[0].volume >= q {
        Some(bids[0])
    } else {
        best_bid_at(bids.drop_first(), id, q)
    }
}

/// The first bid of `bids` at location `id` that takes at least `q` units:
/// the best one, as bids are sorted by price descending.
fn best_bid(bids: &Vec<Order>, id: u32, q: u32) -> (r: Option<Order>)
    ensures
        r == best_bid_at(bids@, id, q),
        r matches Some(o) ==> bids@.contains(o) && o.system_id == id && o.volume >= q,
        r is None ==> forall|k: int| 0 <= k < bids@.len() ==> !((#[trigger] bids@[k]).system_id == id && bids@[k].volume >= q),
{
    let mut i: usize = 0;
    assert(bids@.skip(0) =~= bids@);
    while i < bids.len()
        invariant
            i <= bids@.len(),
            best_bid_at(bids@, id, q) == best_bid_at(bids@.skip(i as int), id, q),
            forall|k: int| 0 <= k < i ==> !((#[trigger] bids@[k]).system_id == id && bids@[k].volume >= q),
        decreases bids@.len() - i,
    {
        assert(bids@.skip(i as int).drop_first() =~= bids@.skip(i + 1));
        if bids[i].system_id == id && bids[i].volume >= q {
            assert(bids@[i as int] == bids@[i as int]);
            return Some(bids[i]);
        }
        i = i + 1;
    }
    None
}

/// The first ask of `asks` at location `id`: the cheapest there, as asks
/// are sorted by price ascending.
fn first_ask(asks: &Vec<Order>, id: u32) -> (r: Option<Order>)
    ensures
        r == first_ask_at(asks@, id),
        r matches Some(o) ==> asks@.contains(o) && o.system_id == id,
        r is None ==> forall|k: int| 0 <= k < asks@.len() ==> (#[trigger] asks@[k]).system_id != id,
{
    let mut i: usize = 0;
    assert(asks@.skip(0) =~= asks@);
    while i < asks.len()
        invariant
            i <= asks@.len(),
            first_ask_at(asks@, id) == first_ask_at(asks@.skip(i as int), id),
            forall|k: int| 0 <= k < i ==> (#[trigger] asks@[k]).system_id != id,
        decreases asks@.len() - i,
    {
        assert(asks@.skip(i as int).drop_first() =~= asks@.skip(i + 1));
        if asks[i].system_id == id {
            assert(asks@[i as int] == asks@[i as int]);
            return Some(asks[i]);
        }
        i = i + 1;
    }
    None
}

fn with_volume(o: Order, q: u32) -> (r: Order)
    ensures
        r == (Order { volume: q, ..o }),
{
    Order {
        is_buy_order: o.is_buy_order,
        type_id: o.type_id,
        price: o.price,
        station_id: o.station_id,
        system_id: o.system_id,
        region_id: o.region_id,
        volume: q,
    }
}

fn no_flags(n: usize) -> (r: Vec<bool>)
    ensures
        r@.len() == n,
        forall|i: int| 0 <= i < n ==> !#[trigger] r@[i],
{
    let mut r: Vec<bool> = Vec::new();
    while r.len() < n
        invariant
            r@.len() <= n,
            forall|i: int| 0 <= i < r@.len() ==> !#[trigger] r@[i],
        decreases n - r@.len(),
    {
        r.push(false);
    }
    r
}

/// The location identifiers of a sequence of location indices.
pub open spec fn ids_of(g: TravelGraph, s: Seq<usize>) -> Seq<u32> {
    s.map_values(|v: usize| g.ids@[v as int])
}

/// The waypoints of a path that continues `before` with the purchase from
/// `ask`, the locations of `stops`, and the sale to `bid`, `q` units each.
pub open spec fn traded_path(before: Seq<Waypoint>, ask: Order, bid: Order, q: u32, stops: Seq<u32>) -> Seq<Waypoint> {
    before.push(Waypoint::Order(Order { volume: q, ..ask })) + stops.map_values(|id: u32| Waypoint::System(id))
        + seq![Waypoint::Order(Order { volume: q, ..bid })]
}

/// The locations that path `p` (after its first) transits are unvisited by `c`,
/// and together with those `c` already transited, all distinct.
pub open spec fn fresh(g: TravelGraph, c: TradeCandidate, p: Seq<usize>) -> bool {
    &&& forall|k: int| 1 <= k < p.len() ==> !c.visited@[#[trigger] p[k] as int]
    &&& (transited(c.waypoints@) + ids_of(g, p.subrange(1, p.len() as int))).no_duplicates()
}

/// Whether extending `c` along `p` with `q` units bought at `ask` and sold to
/// `bid` is accepted: the margin is met, the jumps stay within the budget,
/// the path is fresh, and the capital pays and stays representable.
pub open spec fn extension_ok(
    g: TravelGraph,
    settings: Settings,
    c: TradeCandidate,
    ask: Order,
    bid: Order,
    q: u32,
    p: Seq<usize>,
) -> bool {
    &&& margin_ok(bid.price as int, ask.price as int, settings.margin() as int)
    &&& c.jumps + (p.len() - 1) <= settings.jump_budget()
    &&& fresh(g, c, p)
    &&& q * ask.price <= c.capital
    &&& q * ask.price <= q * bid.price
    &&& c.capital - q * ask.price + q * bid.price <= u128::MAX
}

proof fn lemma_no_dup_prefix(s: Seq<u32>, k: int)
    requires
        s.no_duplicates(),
        0 <= k <= s.len(),
    ensures
        s.take(k).no_duplicates(),
{
    assert forall|a: int, b: int| 0 <= a < b < s.take(k).len() implies s.take(k)[a] != s.take(k)[b] by {
        assert(s.take(k)[a] == s[a] && s.take(k)[b] == s[b]);
    }
}

/// Extends `c` by buying `q` units from `ask` at its location, travelling the
/// cheapest risk-compliant path to `dest` (`paths[dest]`, from the path
/// finder) and selling them to `bid` there. `Some` exactly when that path
/// exists and the extension is accepted (`extension_ok`); the new candidate
/// then stands at `dest` with the path, jumps, capital and visited locations
/// extended, keyed by the trade's profit per added jump.
pub fn try_extend(
    g: &TravelGraph,
    settings: &Settings,
    c: &TradeCandidate,
    ask: Order,
    bid: Order,
    q: u32,
    dest: usize,
    paths: &Vec<Option<Vec<usize>>>,
) -> (r: Option<TradeCandidate>)
    requires
        g.wf(),
        cand_ok(*c, g.n(), settings.jump_budget() as int),
        dest < g.n(),
        dest != c.system_id,
        paths@.len() == g.n(),
        forall|d: int|
            0 <= d < g.n() ==> shortest_ok(
                *g,
                c.system_id as int,
                d,
                settings.min_risk() as int,
                #[trigger] paths@[d],
            ),
    ensures
        r is Some <==> (paths@[dest as int] matches Some(p) && extension_ok(*g, *settings, *c, ask, bid, q, p@)),
        r matches Some(d) ==> cand_ok(d, g.n(), settings.jump_budget() as int) && d.jumps > c.jumps,
        r matches Some(d) ==> ({
            let p = paths@[dest as int].unwrap()@;
            &&& d.system_id == dest
            &&& d.waypoints@ == traded_path(c.waypoints@, ask, bid, q, ids_of(*g, p.subrange(1, p.len() as int)))
            &&& d.jumps == c.jumps + (p.len() - 1)
            &&& d.capital == c.capital - q * ask.price + q * bid.price
            &&& d.profit_per_jump == (q * bid.price - q * ask.price) / (p.len() - 1)
            &&& forall|x: int| 0 <= x < g.n() ==> #[trigger] d.visited@[x] == (c.visited@[x] || p.subrange(1, p.len() as int).contains(x as usize))
        }),
{
    let f = 100 + settings.get_percentage_treshold() as u128;
    let ap = ask.price as u128;
    assert(f * ap <= 0x1_0000_0063u128 * 0xffff_ffff_ffff_ffffu128) by (nonlinear_arith)
        requires
            f <= 0x1_0000_0063u128,
            ap <= 0xffff_ffff_ffff_ffffu128,
    ;
    if 100 * (bid.price as u128) < f * ap {
        return None;
    }
    assert(shortest_ok(*g, c.system_id as int, dest as int, settings.min_risk() as int, paths@[dest as int]));
    if paths[dest].is_none() {
        return None;
    }
    let path = paths[dest].as_ref().unwrap();
    let ghost p = path@;
    assert(path@.len() >= 2) by {
        if path@.len() == 1 {
            assert(path@[0] == path@.last());
        }
    }
    let added = (path.len() - 1) as u64;
    let budget = settings.get_max_jumps() as u64;
    if added > budget - c.jumps {
        return None;
    }
    let qq = q as u128;
    let bp = bid.price as u128;
    assert(qq * ap <= 0xffff_ffffu128 * 0xffff_ffff_ffff_ffffu128) by (nonlinear_arith)
        requires
            qq <= 0xffff_ffffu128,
            ap <= 0xffff_ffff_ffff_ffffu128,
    ;
    assert(qq * bp <= 0xffff_ffffu128 * 0xffff_ffff_ffff_ffffu128) by (nonlinear_arith)
        requires
            qq <= 0xffff_ffffu128,
            bp <= 0xffff_ffff_ffff_ffffu128,
    ;
    let cost = qq * ap;
    let revenue = qq * bp;
    if cost > c.capital || revenue < cost {
        return None;
    }
    let rest = c.capital - cost;
    if rest > u128::MAX - revenue {
        return None;
    }
    let capital = rest + revenue;
    let profit = revenue - cost;
    let mut waypoints = copy_of(&c.waypoints);
    let mut visited = copy_of(&c.visited);
    let ghost start = waypoints@;
    let ghost head = c.waypoints@.push(Waypoint::Order(Order { volume: q, ..ask }));
    waypoints.push(Waypoint::Order(with_volume(ask, q)));
    assert(waypoints@.drop_last() =~= start);
    assert(waypoints@ =~= head + ids_of(*g, p.subrange(1, 1)).map_values(|id: u32| Waypoint::System(id)));
    assert(transited(c.waypoints@) + ids_of(*g, p.subrange(1, 1)) =~= transited(c.waypoints@));
    let mut i: usize = 1;
    while i < path.len()
        invariant
            1 <= i <= p.len(),
            p.len() >= 2,
            *path == paths@[dest as int].unwrap(),
            path@ == p,
            g.wf(),
            forall|k: int| 1 <= k < p.len() ==> (#[trigger] p[k]) < g.n(),
            visited@.len() == g.n(),
            c.visited@.len() == g.n(),
            forall|x: int| 0 <= x < g.n() ==> #[trigger] visited@[x] == (c.visited@[x] || p.subrange(1, i as int).contains(x as usize)),
            forall|k: int| 1 <= k < i ==> !c.visited@[#[trigger] p[k] as int],
            transited(waypoints@) == transited(c.waypoints@) + ids_of(*g, p.subrange(1, i as int)),
            transited(waypoints@).no_duplicates(),
            waypoints@ == head + ids_of(*g, p.subrange(1, i as int)).map_values(|id: u32| Waypoint::System(id)),
            waypoints@.len() == c.waypoints@.len() + 1 + (i - 1),
        decreases p.len() - i,
    {
        let v = path[i];
        let id = g.ids[v];
        let ghost full = transited(c.waypoints@) + ids_of(*g, p.subrange(1, p.len() as int));
        let ghost upto = transited(c.waypoints@) + ids_of(*g, p.subrange(1, i + 1));
        proof {
            assert(upto =~= full.take(transited(c.waypoints@).len() + i));
            assert(ids_of(*g, p.subrange(1, i + 1)) =~= ids_of(*g, p.subrange(1, i as int)).push(id));
            assert(upto =~= transited(waypoints@).push(id));
        }
        if visited[v] || contains_location(&waypoints, id) {
            proof {
                if full.no_duplicates() {
                    lemma_no_dup_prefix(full, transited(c.waypoints@).len() + i);
                    if !c.visited@[v as int] {
                        if visited@[v as int] {
                            let s1 = p.subrange(1, i as int);
                            let k = choose|k: int| 0 <= k < s1.len() && #[trigger] s1[k] == v;
                            assert(ids_of(*g, s1)[k] == id);
                            assert(upto[transited(c.waypoints@).len() + k] == id);
                            assert(upto[upto.len() - 1] == id);
                        } else {
                            let t = transited(waypoints@);
                            let k = choose|k: int| 0 <= k < t.len() && #[trigger] t[k] == id;
                            assert(upto[k] == id);
                            assert(upto[upto.len() - 1] == id);
                        }
                    }
                }
            }
            return None;
        }
        let ghost before = waypoints@;
        waypoints.push(Waypoint::System(id));
        proof {
            assert(waypoints@.drop_last() =~= before);
            assert(transited(waypoints@) == transited(before).push(id));
            assert forall|a: int, b: int|
                0 <= a < b < transited(waypoints@).len() implies transited(waypoints@)[a] != transited(
                waypoints@,
            )[b] by {
                if b == transited(before).len() {
                    assert(transited(before).contains(transited(before)[a]));
                }
            }
            assert(transited(waypoints@) =~= upto);
            assert(waypoints@ =~= head + ids_of(*g, p.subrange(1, i + 1)).map_values(|id: u32| Waypoint::System(id)));
        }
        visited.set(v, true);
        proof {
            let s1 = p.subrange(1, i as int);
            let s2 = p.subrange(1, i + 1);
            assert forall|x: int| 0 <= x < g.n() implies #[trigger] visited@[x] == (c.visited@[x] || s2.contains(x as usize)) by {
                if s1.contains(x as usize) {
                    let k = choose|k: int| 0 <= k < s1.len() && #[trigger] s1[k] == x as usize;
                    assert(s2[k] == x as usize);
                }
                if s2.contains(x as usize) && x != v as int {
                    let k = choose|k: int| 0 <= k < s2.len() && #[trigger] s2[k] == x as usize;
                    assert(s1[k] == x as usize);
                }
                if x == v as int {
                    assert(s2[i - 1] == v);
                }
            }
        }
        i = i + 1;
    }
    let ghost before = waypoints@;
    waypoints.push(Waypoint::Order(with_volume(bid, q)));
    assert(waypoints@.drop_last() =~= before);
    proof {
        assert(p.subrange(1, i as int) =~= p.subrange(1, p.len() as int));
        assert(waypoints@ =~= traded_path(c.waypoints@, ask, bid, q, ids_of(*g, p.subrange(1, p.len() as int))));
    }
    Some(
        TradeCandidate {
            profit_per_jump: profit / (added as u128),
            system_id: dest,
            capital,
            waypoints,
            visited,
            jumps: c.jumps + added,
        },
    )
}

/// `d` extends `c`: it stands at a location that `c` has not visited and
/// whose risk score meets the minimum, and its path continues `c`'s path with
/// a purchase, at least one transited location and a sale.
pub open spec fn child_of(d: TradeCandidate, c: TradeCandidate, g: TravelGraph, settings: Settings) -> bool {
    &&& d.system_id < g.n()
    &&& !c.visited@[d.system_id as int]
    &&& g.risks@[d.system_id as int] >= settings.min_risk()
    &&& d.waypoints@.len() >= c.waypoints@.len() + 3
    &&& d.waypoints@.take(c.waypoints@.len() as int) == c.waypoints@
    &&& d.waypoints@[c.waypoints@.len() as int] is Order
    &&& d.waypoints@.last() is Order
}

/// Candidate `c` has an accepted extension to location `d` with commodity
/// `book`: the cheapest ask at its location, the units it can buy there, the
/// best bid at `d` for them, and whichever cheapest risk-compliant path the
/// path finder picks.
pub open spec fn extends_via(g: TravelGraph, book: OrderGroup, settings: Settings, c: TradeCandidate, d: int) -> bool {
    &&& first_ask_at(book.sell@, g.ids@[c.system_id as int]) is Some
    &&& ({
        let ask = first_ask_at(book.sell@, g.ids@[c.system_id as int]).unwrap();
        let q = max_units(settings.cargo() as int, book.volume as int, c.capital as int, ask.price as int, ask.volume as int);
        &&& q > 0
        &&& d != c.system_id
        &&& !c.visited@[d]
        &&& g.risks@[d] >= settings.min_risk()
        &&& best_bid_at(book.buy@, g.ids@[d], q as u32) is Some
        &&& forall|r: Option<Vec<usize>>|
            #[trigger] shortest_ok(g, c.system_id as int, d, settings.min_risk() as int, r) ==> (r matches Some(p)
                && extension_ok(g, settings, c, ask, best_bid_at(book.buy@, g.ids@[d], q as u32).unwrap(), q as u32, p@))
    })
}

/// Some commodity and location give `c` an accepted extension.
pub open spec fn can_extend(g: TravelGraph, books: Seq<OrderGroup>, settings: Settings, c: TradeCandidate) -> bool {
    exists|b: int, d: int| 0 <= b < books.len() && 0 <= d < g.n() && #[trigger] extends_via(g, books[b], settings, c, d)
}

/// Every filled entry of the per-run path cache holds the path finder's answer
/// for every destination from that origin.
pub open spec fn cache_ok(g: TravelGraph, min_risk: int, cache: Seq<Option<Vec<Option<Vec<usize>>>>>) -> bool {
    &&& cache.len() == g.n()
    &&& forall|o: int|
        0 <= o < g.n() && (#[trigger] cache[o]) is Some ==> {
            &&& cache[o].unwrap()@.len() == g.n()
            &&& forall|d: int| 0 <= d < g.n() ==> shortest_ok(g, o, d, min_risk, #[trigger] cache[o].unwrap()@[d])
        }
}

/// Pushes onto the frontier every extension of `c`: for each commodity with
/// an ask at `c`'s location, to each unvisited location of sufficient risk
/// score holding a bid for the purchasable quantity.
fn expand(
    g: &TravelGraph,
    books: &Vec<OrderGroup>,
    settings: &Settings,
    c: &TradeCandidate,
    frontier: &mut Vec<TradeCandidate>,
    cache: &mut Vec<Option<Vec<Option<Vec<usize>>>>>,
)
    requires
        cache_ok(*g, settings.min_risk() as int, old(cache)@),
        g.wf(),
        cand_ok(*c, g.n(), settings.jump_budget() as int),
        forall|k: int| 0 <= k < old(frontier)@.len() ==> cand_ok(#[trigger] old(frontier)@[k], g.n(), settings.jump_budget() as int),
    ensures
        final(frontier)@.len() <= old(frontier)@.len() + books@.len() * g.n(),
        old(frontier)@.len() <= final(frontier)@.len(),
        forall|k: int| 0 <= k < old(frontier)@.len() ==> #[trigger] final(frontier)@[k] == old(frontier)@[k],
        forall|k: int| 0 <= k < final(frontier)@.len() ==> cand_ok(#[trigger] final(frontier)@[k], g.n(), settings.jump_budget() as int),
        forall|k: int| old(frontier)@.len() <= k < final(frontier)@.len() ==> (#[trigger] final(frontier)@[k]).jumps > c.jumps,
        forall|k: int| old(frontier)@.len() <= k < final(frontier)@.len() ==> child_of(#[trigger] final(frontier)@[k], *c, *g, *settings),
        can_extend(*g, books@, *settings, *c) ==> final(frontier)@.len() > old(frontier)@.len(),
        cache_ok(*g, settings.min_risk() as int, final(cache)@),
        legs_ok(*g, *settings, c.waypoints@) ==> forall|k: int|
            old(frontier)@.len() <= k < final(frontier)@.len() ==> legs_ok(*g, *settings, (#[trigger] final(frontier)@[k]).waypoints@),
{
    let n = g.ids.len();
    let here = g.ids[c.system_id];
    let cargo = settings.get_ship_cargo_volume();
    let min_risk = settings.get_security_treshold();
    let mut any_ask = false;
    let mut b: usize = 0;
    while b < books.len() && !any_ask
        invariant
            b <= books@.len(),
            here == g.ids@[c.system_id as int],
            !any_ask ==> forall|bb: int| 0 <= bb < b ==> first_ask_at(#[trigger] books@[bb].sell@, here) is None,
        decreases books@.len() - b,
    {
        if first_ask(&books[b].sell, here).is_some() {
            any_ask = true;
        }
        b = b + 1;
    }
    if !any_ask {
        assert(!can_extend(*g, books@, *settings, *c)) by {
            assert forall|bb: int, d: int| 0 <= bb < books@.len() && 0 <= d < g.n() implies !#[trigger] extends_via(*g, books@[bb], *settings, *c, d) by {
                assert(first_ask_at(books@[bb].sell@, here) is None);
            }
        }
        return;
    }
    if cache[c.system_id].is_none() {
        let table = shortest_paths(g, c.system_id, min_risk);
        cache.set(c.system_id, Some(table));
    }
    assert(cache@[c.system_id as int] is Some);
    let paths = cache[c.system_id].as_ref().unwrap();
    let mut b: usize = 0;
    while b < books.len()
        invariant
            b <= books@.len(),
            n == g.n(),
            g.wf(),
            cand_ok(*c, g.n(), settings.jump_budget() as int),
            min_risk == settings.min_risk(),
            paths@.len() == g.n(),
            forall|d: int|
                0 <= d < g.n() ==> shortest_ok(*g, c.system_id as int, d, min_risk as int, #[trigger] paths@[d]),
            cache_ok(*g, settings.min_risk() as int, cache@),
            frontier@.len() <= old(frontier)@.len() + b * n,
            old(frontier)@.len() <= frontier@.len(),
            forall|k: int| 0 <= k < old(frontier)@.len() ==> #[trigger] frontier@[k] == old(frontier)@[k],
            forall|k: int| 0 <= k < frontier@.len() ==> cand_ok(#[trigger] frontier@[k], g.n(), settings.jump_budget() as int),
            forall|k: int| old(frontier)@.len() <= k < frontier@.len() ==> (#[trigger] frontier@[k]).jumps > c.jumps,
            forall|k: int| old(frontier)@.len() <= k < frontier@.len() ==> child_of(#[trigger] frontier@[k], *c, *g, *settings),
            here == g.ids@[c.system_id as int],
            cargo == settings.cargo(),
            frontier@.len() > old(frontier)@.len() || forall|bb: int, d: int|
                0 <= bb < b && 0 <= d < g.n() ==> !#[trigger] extends_via(*g, books@[bb], *settings, *c, d),
            legs_ok(*g, *settings, c.waypoints@) ==> forall|k: int|
                old(frontier)@.len() <= k < frontier@.len() ==> legs_ok(*g, *settings, (#[trigger] frontier@[k]).waypoints@),
        decreases books@.len() - b,
    {
        let book = &books[b];
        if let Some(ask) = first_ask(&book.sell, here) {
            let q = calculate_max_units(cargo, book.volume, c.capital, &ask);
            if q > 0 {
                let mut d: usize = 0;
                while d < n
                    invariant
                        d <= n,
                        b < books@.len(),
                        n == g.n(),
                        g.wf(),
                        cand_ok(*c, g.n(), settings.jump_budget() as int),
                        min_risk == settings.min_risk(),
                        paths@.len() == g.n(),
                        forall|d: int|
                            0 <= d < g.n() ==> shortest_ok(*g, c.system_id as int, d, min_risk as int, #[trigger] paths@[d]),
                        frontier@.len() <= old(frontier)@.len() + b * n + d,
                        old(frontier)@.len() <= frontier@.len(),
                        forall|k: int| 0 <= k < old(frontier)@.len() ==> #[trigger] frontier@[k] == old(frontier)@[k],
                        forall|k: int| 0 <= k < frontier@.len() ==> cand_ok(#[trigger] frontier@[k], g.n(), settings.jump_budget() as int),
                        forall|k: int| old(frontier)@.len() <= k < frontier@.len() ==> (#[trigger] frontier@[k]).jumps > c.jumps,
                        forall|k: int| old(frontier)@.len() <= k < frontier@.len() ==> child_of(#[trigger] frontier@[k], *c, *g, *settings),
                        here == g.ids@[c.system_id as int],
                        cargo == settings.cargo(),
                        *book == books@[b as int],
                        first_ask_at(book.sell@, here) == Some(ask),
                        q as int == max_units(settings.cargo() as int, book.volume as int, c.capital as int, ask.price as int, ask.volume as int),
                        frontier@.len() > old(frontier)@.len() || forall|bb: int, dd: int|
                            0 <= bb < b && 0 <= dd < g.n() ==> !#[trigger] extends_via(*g, books@[bb], *settings, *c, dd),
                        frontier@.len() > old(frontier)@.len() || forall|dd: int|
                            0 <= dd < d ==> !#[trigger] extends_via(*g, books@[b as int], *settings, *c, dd),
                        q > 0,
                        legs_ok(*g, *settings, c.waypoints@) ==> forall|k: int|
                            old(frontier)@.len() <= k < frontier@.len() ==> legs_ok(*g, *settings, (#[trigger] frontier@[k]).waypoints@),
                    decreases n - d,
                {
                    proof {
                        if extends_via(*g, books@[b as int], *settings, *c, d as int) {
                            assert(shortest_ok(*g, c.system_id as int, d as int, settings.min_risk() as int, paths@[d as int]));
                        }
                    }
                    if d != c.system_id && !c.visited[d] && g.risks[d] >= min_risk {
                        if let Some(bid) = best_bid(&book.buy, g.ids[d], q) {
                            if let Some(child) = try_extend(g, settings, c, ask, bid, q, d, paths) {
                                proof {
                                    let p = paths@[d as int].unwrap()@;
                                    let stops = ids_of(*g, p.subrange(1, p.len() as int));
                                    let w = child.waypoints@;
                                    assert(w.take(c.waypoints@.len() as int) =~= c.waypoints@);
                                    assert(w[c.waypoints@.len() as int] == Waypoint::Order(Order { volume: q, ..ask }));
                                    assert(w.last() == Waypoint::Order(Order { volume: q, ..bid }));
                                    assert(stops.len() == p.len() - 1);
                                    lemma_first_ask_at(book.sell@, here);
                                    lemma_best_bid_at(book.buy@, g.ids@[d as int], q);
                                    if legs_ok(*g, *settings, c.waypoints@) {
                                        lemma_leg_appended(*g, *settings, c.waypoints@, ask, bid, q, p);
                                    }
                                }
                                frontier.push(child);
                            }
                        }
                    }
                    d = d + 1;
                }
            } else {
                proof {
                    assert forall|dd: int| 0 <= dd < g.n() implies !#[trigger] extends_via(*g, books@[b as int], *settings, *c, dd) by {}
                }
            }
        } else {
            proof {
                assert forall|dd: int| 0 <= dd < g.n() implies !#[trigger] extends_via(*g, books@[b as int], *settings, *c, dd) by {}
            }
        }
        proof {
            if frontier@.len() == old(frontier)@.len() {
                assert forall|bb: int, dd: int| 0 <= bb < b + 1 && 0 <= dd < g.n() implies !#[trigger] extends_via(*g, books@[bb], *settings, *c, dd) by {
                    if bb == b {
                        assert(!extends_via(*g, books@[b as int], *settings, *c, dd));
                    }
                }
            }
        }
        assert(b * n + n == (b + 1) * n) by (nonlinear_arith);
        b = b + 1;
    }
}

/// `c` is the starting candidate at location `l`: full starting capital, no
/// waypoints, no jumps, and only `l` visited.
pub open spec fn seed_like(c: TradeCandidate, l: int, g: TravelGraph, settings: Settings) -> bool {
    &&& c.system_id == l
    &&& c.capital == settings.capital() as u128
    &&& c.waypoints@.len() == 0
    &&& c.jumps == 0
    &&& c.visited@ == only_flag(g.n() as nat, l)
}

/// `n` flags, only the `l`-th one set.
pub open spec fn only_flag(n: nat, l: int) -> Seq<bool> {
    Seq::new(n, |x: int| x == l)
}

/// Location `l` holds an affordable ask, and the starting candidate there has
/// an accepted extension.
pub open spec fn extending_seed_at(g: TravelGraph, books: Seq<OrderGroup>, settings: Settings, l: int) -> bool {
    &&& 0 <= l < g.n()
    &&& exists|b: int, a: int|
        0 <= b < books.len() && 0 <= a < books[b].sell@.len() && g.ids@[l] == (#[trigger] books[b].sell@[a]).system_id
            && affordable(books[b], books[b].sell@[a], settings)
    &&& forall|c: TradeCandidate| #[trigger] seed_like(c, l, g, settings) ==> can_extend(g, books, settings, c)
}

/// Some location is an extending seed.
pub open spec fn has_extending_seed(g: TravelGraph, books: Seq<OrderGroup>, settings: Settings) -> bool {
    exists|l: int| #[trigger] extending_seed_at(g, books, settings, l)
}

/// Some entry of the frontier has executed an order.
pub open spec fn frontier_has_order(f: Seq<TradeCandidate>) -> bool {
    exists|k: int| 0 <= k < f.len() && has_order(#[trigger] f[k].waypoints@)
}

/// Some entry of the frontier is the starting candidate at `l`.
pub open spec fn frontier_has_seed(f: Seq<TradeCandidate>, l: int, g: TravelGraph, settings: Settings) -> bool {
    exists|k: int| 0 <= k < f.len() && #[trigger] seed_like(f[k], l, g, settings)
}

/// Best-first search for trade routes over the preprocessed order books.
///
/// Seeds one candidate at each location holding an affordable ask, then
/// repeatedly takes the candidate with the highest profit-per-jump key (the
/// oldest among equals), keeps it as a route when it has executed an order,
/// and extends it while jumps remain. This is a bounded greedy heuristic, not
/// an exhaustive optimiser. Cheapest paths are computed once per origin and
/// kept for the run. Returns at most `max_routes` routes, each executing an
/// order, transiting no location twice, within the jump budget, and made of
/// whole trade legs (`legs_ok`); none when no ask is affordable, and at least
/// one when some seed has an accepted extension.
#[verifier::rlimit(100)]
pub fn find_routes(g: &TravelGraph, books: &Vec<OrderGroup>, settings: &Settings) -> (routes: Vec<Route>)
    requires
        g.wf(),
    ensures
        routes@.len() <= settings.route_limit(),
        forall|k: int| 0 <= k < routes@.len() ==> route_ok(#[trigger] routes@[k], settings.jump_budget() as int),
        forall|k: int| 0 <= k < routes@.len() ==> legs_ok(*g, *settings, (#[trigger] routes@[k])@),
        no_seed(*g, books@, *settings) ==> routes@.len() == 0,
        settings.route_limit() >= 1 && settings.jump_budget() >= 1 && has_extending_seed(*g, books@, *settings)
            ==> routes@.len() >= 1,
{
    let n = g.ids.len();
    let budget = settings.get_max_jumps() as u64;
    let limit = settings.get_max_routes();
    let capital = settings.get_initial_capital() as u128;
    let cargo = settings.get_ship_cargo_volume();
    let mut frontier: Vec<TradeCandidate> = Vec::new();
    let mut seeded = no_flags(n);
    let mut b: usize = 0;
    while b < books.len()
        invariant
            b <= books@.len(),
            n == g.n(),
            g.wf(),
            seeded@.len() == n,
            settings.capital() == capital,
            settings.cargo() == cargo,
            forall|k: int| 0 <= k < frontier@.len() ==> cand_ok(#[trigger] frontier@[k], g.n(), settings.jump_budget() as int),
            none_affordable(*g, books@, *settings, b as int, 0) ==> frontier@.len() == 0,
            forall|l: int| 0 <= l < n && #[trigger] seeded@[l] ==> frontier_has_seed(frontier@, l, *g, *settings),
            forall|k: int| 0 <= k < frontier@.len() ==> legs_ok(*g, *settings, (#[trigger] frontier@[k]).waypoints@),
            forall|bb: int, aa: int, l: int|
                0 <= bb < b && 0 <= aa < books@[bb].sell@.len() && 0 <= l < n && g.ids@[l] == (#[trigger] books@[bb].sell@[aa]).system_id
                    && affordable(books@[bb], books@[bb].sell@[aa], *settings) ==> #[trigger] seeded@[l],
        decreases books@.len() - b,
    {
        let book = &books[b];
        let mut a: usize = 0;
        while a < book.sell.len()
            invariant
                a <= book.sell@.len(),
                b < books@.len(),
                *book == books@[b as int],
                n == g.n(),
                g.wf(),
                seeded@.len() == n,
                settings.capital() == capital,
                settings.cargo() == cargo,
                forall|k: int| 0 <= k < frontier@.len() ==> cand_ok(#[trigger] frontier@[k], g.n(), settings.jump_budget() as int),
                none_affordable(*g, books@, *settings, b as int, a as int) ==> frontier@.len() == 0,
                forall|l: int| 0 <= l < n && #[trigger] seeded@[l] ==> frontier_has_seed(frontier@, l, *g, *settings),
                forall|k: int| 0 <= k < frontier@.len() ==> legs_ok(*g, *settings, (#[trigger] frontier@[k]).waypoints@),
                forall|bb: int, aa: int, l: int|
                    0 <= bb < books@.len() && 0 <= aa < books@[bb].sell@.len() && (bb < b || (bb == b && aa < a)) && 0 <= l < n
                        && g.ids@[l] == (#[trigger] books@[bb].sell@[aa]).system_id
                        && affordable(books@[bb], books@[bb].sell@[aa], *settings) ==> #[trigger] seeded@[l],
            decreases book.sell@.len() - a,
        {
            let ask = book.sell[a];
            let ghost f_before = frontier@;
            let ghost s_before = seeded@;
            proof {
                if none_affordable(*g, books@, *settings, b as int, a + 1) {
                    assert forall|bb: int, aa: int|
                        0 <= bb < books@.len() && 0 <= aa < books@[bb].sell@.len() && (bb < b || (bb == b
                            && aa < a)) && g.ids@.contains(#[trigger] books@[bb].sell@[aa].system_id)
                        implies !affordable(books@[bb], books@[bb].sell@[aa], *settings) by {}
                }
            }
            match g.index_of(ask.system_id) {
                Some(l) => {
                    if calculate_max_units(cargo, book.volume, capital, &ask) >= 1 {
                        if !seeded[l] {
                            let mut visited = no_flags(n);
                            visited.set(l, true);
                            let seed = TradeCandidate {
                                profit_per_jump: 0,
                                system_id: l,
                                capital,
                                waypoints: Vec::new(),
                                visited,
                                jumps: 0,
                            };
                            assert(transited(seed.waypoints@) =~= Seq::<u32>::empty());
                            assert(seed.visited@ =~= only_flag(g.n() as nat, l as int));
                            assert(seed_like(seed, l as int, *g, *settings));
                            assert(legs_ok(*g, *settings, seed.waypoints@));
                            frontier.push(seed);
                            seeded.set(l, true);
                            assert(frontier@[frontier@.len() - 1] == seed);
                        }
                    }
                },
                None => {},
            }
            proof {
                assert forall|ll: int| 0 <= ll < n && #[trigger] seeded@[ll] implies frontier_has_seed(frontier@, ll, *g, *settings) by {
                    if s_before[ll] {
                        let k = choose|k: int| 0 <= k < f_before.len() && #[trigger] seed_like(f_before[k], ll, *g, *settings);
                        assert(frontier@[k] == f_before[k]);
                    } else {
                        assert(frontier@[frontier@.len() - 1].system_id == ll);
                    }
                }
                assert forall|bb: int, aa: int, ll: int|
                    0 <= bb < books@.len() && 0 <= aa < books@[bb].sell@.len() && (bb < b || (bb == b && aa < a + 1)) && 0 <= ll < n
                        && g.ids@[ll] == (#[trigger] books@[bb].sell@[aa]).system_id
                        && affordable(books@[bb], books@[bb].sell@[aa], *settings) implies #[trigger] seeded@[ll] by {
                    if bb == b && aa == a {
                        assert(g.ids@.contains(g.ids@[ll]));
                    } else {
                        assert(s_before[ll]);
                    }
                }
                if none_affordable(*g, books@, *settings, b as int, a + 1) {
                    assert(g.ids@.contains(books@[b as int].sell@[a as int].system_id) ==> !affordable(
                        books@[b as int],
                        books@[b as int].sell@[a as int],
                        *settings,
                    ));
                }
            }
            a = a + 1;
        }
        proof {
            if none_affordable(*g, books@, *settings, b + 1, 0) {
                assert forall|bb: int, aa: int|
                    0 <= bb < books@.len() && 0 <= aa < books@[bb].sell@.len() && (bb < b || (bb == b
                        && aa < book.sell@.len())) && g.ids@.contains(#[trigger] books@[bb].sell@[aa].system_id)
                    implies !affordable(books@[bb], books@[bb].sell@[aa], *settings) by {}
            }
        }
        b = b + 1;
    }
    let ghost base: nat = (books@.len() * n + 1) as nat;
    let ghost no_seeds = frontier@.len() == 0;
    proof {
        if no_seed(*g, books@, *settings) {
            assert forall|bb: int, aa: int|
                0 <= bb < books@.len() && 0 <= aa < books@[bb].sell@.len() && (bb < books@.len() as int || (bb
                    == books@.len() as int && aa < 0)) && g.ids@.contains(#[trigger] books@[bb].sell@[aa].system_id)
                implies !affordable(books@[bb], books@[bb].sell@[aa], *settings) by {}
        }
    }
    let ghost goal = settings.route_limit() >= 1 && settings.jump_budget() >= 1 && has_extending_seed(*g, books@, *settings);
    let ghost lw: int = if goal {
        choose|l: int| #[trigger] extending_seed_at(*g, books@, *settings, l)
    } else {
        0
    };
    proof {
        if goal {
            assert(extending_seed_at(*g, books@, *settings, lw));
            let (b0, a0) = choose|b: int, a: int|
                0 <= b < books@.len() && 0 <= a < books@[b].sell@.len() && g.ids@[lw] == (#[trigger] books@[b].sell@[a]).system_id
                    && affordable(books@[b], books@[b].sell@[a], *settings);
            assert(seeded@[lw]);
        }
    }
    let mut cache: Vec<Option<Vec<Option<Vec<usize>>>>> = Vec::new();
    while cache.len() < n
        invariant
            cache@.len() <= n,
            forall|o: int| 0 <= o < cache@.len() ==> (#[trigger] cache@[o]) is None,
        decreases n - cache@.len(),
    {
        cache.push(None);
    }
    let mut routes: Vec<Route> = Vec::new();
    while routes.len() < limit && frontier.len() > 0
        invariant
            cache_ok(*g, settings.min_risk() as int, cache@),
            goal ==> extending_seed_at(*g, books@, *settings, lw),
            goal ==> limit >= 1 && budget >= 1,
            goal ==> routes@.len() >= 1 || frontier_has_order(frontier@) || frontier_has_seed(frontier@, lw, *g, *settings),
            n == g.n(),
            g.wf(),
            limit == settings.route_limit(),
            budget == settings.jump_budget(),
            base == books@.len() * n + 1,
            routes@.len() <= limit,
            forall|k: int| 0 <= k < frontier@.len() ==> cand_ok(#[trigger] frontier@[k], g.n(), settings.jump_budget() as int),
            forall|k: int| 0 <= k < routes@.len() ==> route_ok(#[trigger] routes@[k], settings.jump_budget() as int),
            forall|k: int| 0 <= k < routes@.len() ==> legs_ok(*g, *settings, (#[trigger] routes@[k])@),
            forall|k: int| 0 <= k < frontier@.len() ==> legs_ok(*g, *settings, (#[trigger] frontier@[k]).waypoints@),
            no_seeds ==> frontier@.len() == 0 && routes@.len() == 0,
        decreases potential(frontier@, base, budget as int),
    {
        let ghost f0 = frontier@;
        let i = best_index(&frontier);
        let c = frontier.remove(i);
        assert(cand_ok(f0[i as int], n as int, budget as int));
        assert(c == f0[i as int]);
        proof {
            lemma_potential_remove(f0, base, budget as int, i as int);
            lemma_power_positive(base, (budget - c.jumps) as nat);
            assert(forall|k: int| 0 <= k < frontier@.len() ==> #[trigger] frontier@[k] == f0.remove(i as int)[k]);
        }
        let ghost f1 = frontier@;
        let ghost r0 = routes@.len();
        assert(legs_ok(*g, *settings, c.waypoints@));
        if path_has_order(&c.waypoints) {
            let r = Route::from_path(copy_of(&c.waypoints));
            routes.push(r);
        }
        if routes.len() < limit && c.jumps < budget {
            expand(g, books, settings, &c, &mut frontier, &mut cache);
            proof {
                lemma_expand_decreases(f1, frontier@, base, budget as int, c.jumps as int);
            }
        }
        proof {
            assert(forall|k: int| 0 <= k < f1.len() ==> #[trigger] frontier@[k] == f1[k]);
            if goal && routes@.len() == 0 {
                assert(r0 == 0);
                if frontier_has_order(f0) {
                    let k = choose|k: int| 0 <= k < f0.len() && has_order(#[trigger] f0[k].waypoints@);
                    if k != i {
                        let k2 = if k < i { k } else { k - 1 };
                        assert(f1[k2] == f0[k]);
                        assert(frontier@[k2] == f0[k]);
                    }
                } else {
                    let k = choose|k: int| 0 <= k < f0.len() && #[trigger] seed_like(f0[k], lw, *g, *settings);
                    if k != i {
                        let k2 = if k < i { k } else { k - 1 };
                        assert(f1[k2] == f0[k]);
                        assert(frontier@[k2] == f0[k]);
                        assert(seed_like(frontier@[k2], lw, *g, *settings));
                    } else {
                        assert(seed_like(c, lw, *g, *settings));
                        assert(can_extend(*g, books@, *settings, c));
                        let w = frontier@[f1.len() as int].waypoints@;
                        assert(child_of(frontier@[f1.len() as int], c, *g, *settings));
                        assert(w[w.len() - 1] == w.last());
                        assert(has_order(w));
                    }
                }
            }
        }
    }
    routes
}

} // verus!
