use vstd::prelude::*;
use vstd::multiset::Multiset;
use crate::book::lemma_insert_multiset;
use crate::types::{lemma_transited_len, transited, Order, System, Type, Waypoint};
use crate::urls::{
    decimal, fixed2, gatecamp_link, get_gatecamp_url, get_market_browser_url, market_browser_base, push_decimal,
    push_fixed2, push_signed_fixed2, signed_fixed2,
};
use vstd::string::StringExecFns;

verus! {

/// Largest number of waypoints a route holds, so that its totals fit in `i128`.
pub const MAX_WAYPOINTS: usize = 0x2000_0000;

/// Monetary value of an order waypoint: price times quantity.
pub open spec fn leg_value(o: Order) -> int {
    o.price as int * o.volume as int
}

/// Profit of a path: what its buy orders pay us (we sell into them) minus
/// what its sell orders cost us (we buy from them).
pub open spec fn route_profit(path: Seq<Waypoint>) -> int
    decreases path.len(),
{
    if path.len() == 0 {
        0
    } else {
        route_profit(path.drop_last()) + match path.last() {
            Waypoint::Order(o) => if o.is_buy_order {
                leg_value(o)
            } else {
                -leg_value(o)
            },
            Waypoint::System(_) => 0,
        }
    }
}

/// `profit / jumps` rounded to the nearest integer, halves away from zero;
/// zero when there are no jumps.
pub open spec fn per_jump(profit: int, jumps: int) -> int {
    if jumps <= 0 {
        0
    } else if profit >= 0 {
        (2 * profit + jumps) / (2 * jumps)
    } else {
        -((2 * (-profit) + jumps) / (2 * jumps))
    }
}

/// A finished route: its waypoints, with profit, jump count and
/// profit-per-jump cached until the path changes.
#[derive(Clone, Debug)]
pub struct Route {
    path: Vec<Waypoint>,
    profit: i128,
    is_dirty: bool,
    jumps: usize,
    profit_per_jump: i128,
}

impl View for Route {
    type V = Seq<Waypoint>;

    closed spec fn view(&self) -> Seq<Waypoint> {
        self.path@
    }
}

proof fn lemma_profit_bound(path: Seq<Waypoint>)
    ensures
        -(path.len() as int) * 0x1_0000_0000_0000_0000_0000_0000 <= route_profit(path) <= (path.len() as int)
            * 0x1_0000_0000_0000_0000_0000_0000,
    decreases path.len(),
{
    if path.len() > 0 {
        lemma_profit_bound(path.drop_last());
        if let Waypoint::Order(o) = path.last() {
            assert(leg_value(o) <= 0x1_0000_0000_0000_0000_0000_0000) by (nonlinear_arith)
                requires
                    o.price <= 0xffff_ffff_ffff_ffffu64,
                    o.volume <= 0xffff_ffffu32,
            ;
            assert(0 <= leg_value(o)) by (nonlinear_arith)
                requires
                    0 <= o.price,
                    0 <= o.volume,
            ;
        }
    }
}

impl Route {
    /// The cached fields agree with the path whenever the cache is clean, and
    /// the path is short enough for its totals to fit.
    pub closed spec fn wf(&self) -> bool {
        &&& self.path@.len() <= MAX_WAYPOINTS
        &&& self.jumps == transited(self.path@).len()
        &&& !self.is_dirty ==> self.profit == route_profit(self.path@) && self.profit_per_jump == per_jump(
            route_profit(self.path@),
            self.jumps as int,
        )
    }

    /// Whether the cached fields are up to date.
    pub closed spec fn is_cached(&self) -> bool {
        !self.is_dirty
    }

    pub fn new() -> (r: Self)
        ensures
            r.wf(),
            r@ == Seq::<Waypoint>::empty(),
    {
        Route {
            path: Vec::new(),
            profit: 0,
            is_dirty: true,
            jumps: 0,
            profit_per_jump: 0,
        }
    }

    /// A route along the given waypoints.
    pub fn from_path(path: Vec<Waypoint>) -> (r: Self)
        requires
            path@.len() <= MAX_WAYPOINTS,
        ensures
            r.wf(),
            r@ == path@,
    {
        let mut jumps: usize = 0;
        let mut i: usize = 0;
        while i < path.len()
            invariant
                i <= path@.len(),
                path@.len() <= MAX_WAYPOINTS,
                jumps == transited(path@.take(i as int)).len(),
                jumps <= i,
            decreases path@.len() - i,
        {
            assert(path@.take(i + 1).drop_last() =~= path@.take(i as int));
            if let Waypoint::System(_) = path[i] {
                jumps = jumps + 1;
            }
            i = i + 1;
        }
        assert(path@.take(i as int) =~= path@);
        Route { path, profit: 0, is_dirty: true, jumps, profit_per_jump: 0 }
    }

    /// Appends a transited location for each identifier, in order.
    pub fn add_systems(&mut self, systems: Vec<u32>)
        requires
            old(self).wf(),
            old(self)@.len() + systems@.len() <= MAX_WAYPOINTS,
        ensures
            final(self).wf(),
            final(self)@ == old(self)@ + systems@.map_values(|id: u32| Waypoint::System(id)),
    {
        self.is_dirty = true;
        let mut i: usize = 0;
        while i < systems.len()
            invariant
                i <= systems@.len(),
                self.wf(),
                self.is_dirty,
                old(self)@.len() + systems@.len() <= MAX_WAYPOINTS,
                self@ == old(self)@ + systems@.take(i as int).map_values(|id: u32| Waypoint::System(id)),
            decreases systems@.len() - i,
        {
            let ghost before = self.path@;
            proof {
                lemma_transited_len(self.path@);
            }
            self.path.push(Waypoint::System(systems[i]));
            self.jumps = self.jumps + 1;
            assert(self.path@.drop_last() =~= before);
            assert(systems@.take(i + 1).map_values(|id: u32| Waypoint::System(id)) =~= systems@.take(
                i as int,
            ).map_values(|id: u32| Waypoint::System(id)).push(Waypoint::System(systems@[i as int])));
            i = i + 1;
        }
        assert(systems@.take(i as int) =~= systems@);
    }

    /// Appends an executed order.
    pub fn add_order(&mut self, order: Order)
        requires
            old(self).wf(),
            old(self)@.len() < MAX_WAYPOINTS,
        ensures
            final(self).wf(),
            final(self)@ == old(self)@.push(Waypoint::Order(order)),
    {
        let ghost before = self.path@;
        self.path.push(Waypoint::Order(order));
        assert(self.path@.drop_last() =~= before);
        self.is_dirty = true;
    }

    /// Number of transited locations.
    pub fn get_jumps(&self) -> (r: usize)
        requires
            self.wf(),
        ensures
            r == transited(self@).len(),
    {
        self.jumps
    }

    pub fn get_path(&self) -> (r: &Vec<Waypoint>)
        ensures
            r@ == self@,
    {
        &self.path
    }

    /// Recomputes the cached profit and profit-per-jump from the path.
    pub fn calculate_profit(&mut self)
        requires
            old(self).wf(),
        ensures
            final(self).wf(),
            final(self)@ == old(self)@,
            final(self).is_cached(),
    {
        let mut total: i128 = 0;
        let mut i: usize = 0;
        while i < self.path.len()
            invariant
                i <= self.path@.len(),
                self.path@.len() <= MAX_WAYPOINTS,
                total == route_profit(self.path@.take(i as int)),
            decreases self.path@.len() - i,
        {
            proof {
                assert(self.path@.take(i + 1).drop_last() =~= self.path@.take(i as int));
                lemma_profit_bound(self.path@.take(i + 1));
                lemma_profit_bound(self.path@.take(i as int));
            }
            if let Waypoint::Order(o) = self.path[i] {
                let value = o.price as i128 * o.volume as i128;
                if o.is_buy_order {
                    total = total + value;
                } else {
                    total = total - value;
                }
            }
            i = i + 1;
        }
        assert(self.path@.take(i as int) =~= self.path@);
        proof {
            lemma_profit_bound(self.path@);
            let l = self.path@.len() as int;
            assert(l * 0x1_0000_0000_0000_0000_0000_0000 <= 0x2000_0000_0000_0000_0000_0000_0000_0000)
                by (nonlinear_arith)
                requires
                    l <= 0x2000_0000,
            ;
        }
        self.profit = total;
        self.profit_per_jump = rounded_per_jump(total, self.jumps);
        self.is_dirty = false;
    }

    /// Total profit of the route.
    pub fn get_profit(&mut self) -> (r: i128)
        requires
            old(self).wf(),
        ensures
            final(self).wf(),
            final(self)@ == old(self)@,
            r == route_profit(old(self)@),
            final(self).is_cached(),
    {
        if self.is_dirty {
            self.calculate_profit();
        }
        self.profit
    }

    /// Profit divided by the number of jumps, rounded; zero without jumps.
    pub fn get_profit_per_jump(&mut self) -> (r: i128)
        requires
            old(self).wf(),
        ensures
            final(self).wf(),
            final(self)@ == old(self)@,
            r == per_jump(route_profit(old(self)@), transited(old(self)@).len() as int),
    {
        if self.is_dirty {
            self.calculate_profit();
        }
        self.profit_per_jump
    }
}

proof fn lemma_profit_stops(p: Seq<Waypoint>, stops: Seq<u32>)
    ensures
        route_profit(p + stops.map_values(|id: u32| Waypoint::System(id))) == route_profit(p),
    decreases stops.len(),
{
    let s = stops.map_values(|id: u32| Waypoint::System(id));
    if stops.len() == 0 {
        assert(p + s =~= p);
    } else {
        lemma_profit_stops(p, stops.drop_last());
        assert((p + s).drop_last() =~= p + stops.drop_last().map_values(|id: u32| Waypoint::System(id)));
        assert((p + s).last() == Waypoint::System(stops.last()));
    }
}

/// A route that buys `q` units from one sell order, transits any locations,
/// and sells the `q` units to one buy order makes exactly
/// `q * bid price - q * ask price`.
pub proof fn lemma_single_trade_profit(ask: Order, bid: Order, stops: Seq<u32>, q: u32)
    requires
        !ask.is_buy_order,
        bid.is_buy_order,
        ask.volume == q,
        bid.volume == q,
    ensures
        route_profit(
            seq![Waypoint::Order(ask)] + stops.map_values(|id: u32| Waypoint::System(id)) + seq![
                Waypoint::Order(bid),
            ],
        ) == q * bid.price - q * ask.price,
{
    let head = seq![Waypoint::Order(ask)];
    let mid = head + stops.map_values(|id: u32| Waypoint::System(id));
    let all = mid + seq![Waypoint::Order(bid)];
    lemma_profit_stops(head, stops);
    assert(head.drop_last() =~= Seq::<Waypoint>::empty());
    assert(head.last() == Waypoint::Order(ask));
    assert(route_profit(Seq::<Waypoint>::empty()) == 0);
    assert(route_profit(head) == -leg_value(ask));
    assert(all.drop_last() =~= mid);
    assert(all.last() == Waypoint::Order(bid));
    assert(route_profit(all) == route_profit(mid) + leg_value(bid));
    assert(leg_value(bid) == q * bid.price && leg_value(ask) == q * ask.price) by (nonlinear_arith)
        requires
            bid.volume == q,
            ask.volume == q,
    ;
}

/// The paths of a list of routes.
pub open spec fn views(s: Seq<Route>) -> Seq<Seq<Waypoint>> {
    s.map_values(|r: Route| r@)
}

/// Routes ordered by total profit, highest first.
pub open spec fn sorted_by_profit(s: Seq<Route>) -> bool {
    forall|i: int, j: int| 0 <= i < j < s.len() ==> route_profit(s[i]@) >= route_profit(s[j]@)
}

impl Route {
    fn cached_profit(&self) -> (r: i128)
        requires
            self.wf(),
            self.is_cached(),
        ensures
            r == route_profit(self@),
    {
        self.profit
    }

    /// Sorts routes by total profit, highest first; routes of equal profit
    /// keep their relative order. Every route's cache is brought up to date.
    pub fn sort_routes(routes: &mut Vec<Route>)
        requires
            forall|k: int| 0 <= k < old(routes)@.len() ==> (#[trigger] old(routes)@[k]).wf(),
        ensures
            forall|k: int| 0 <= k < final(routes)@.len() ==> (#[trigger] final(routes)@[k]).wf(),
            sorted_by_profit(final(routes)@),
            views(final(routes)@).to_multiset() == views(old(routes)@).to_multiset(),
    {
        broadcast use vstd::seq_lib::group_to_multiset_ensures;

        let ghost orig = routes@;
        let mut out: Vec<Route> = Vec::new();
        while routes.len() > 0
            invariant
                forall|k: int| 0 <= k < routes@.len() ==> (#[trigger] routes@[k]).wf(),
                forall|k: int| 0 <= k < out@.len() ==> (#[trigger] out@[k]).wf() && out@[k].is_cached(),
                sorted_by_profit(out@),
                views(out@).to_multiset().add(views(routes@).to_multiset()) == views(orig).to_multiset(),
            decreases routes@.len(),
        {
            let ghost before = routes@;
            let mut r = routes.remove(0);
            proof {
                assert(views(routes@) =~= views(before).remove(0));
            }
            let pr = r.get_profit();
            let mut p: usize = 0;
            while p < out.len() && out[p].cached_profit() >= pr
                invariant
                    p <= out@.len(),
                    forall|k: int| 0 <= k < out@.len() ==> (#[trigger] out@[k]).wf() && out@[k].is_cached(),
                    forall|k: int| 0 <= k < p ==> route_profit((#[trigger] out@[k])@) >= pr,
                decreases out@.len() - p,
            {
                p = p + 1;
            }
            let ghost out_before = out@;
            proof {
                lemma_insert_multiset(views(out@), p as int, r@);
                assert(views(out@.insert(p as int, r)) =~= views(out@).insert(p as int, r@));
            }
            out.insert(p, r);
            proof {
                assert forall|i: int, j: int| 0 <= i < j < out@.len() implies route_profit(out@[i]@)
                    >= route_profit(out@[j]@) by {
                    if i < p && j > p {
                        assert(out@[i] == out_before[i]);
                        assert(out@[j] == out_before[j - 1]);
                    } else if i < p && j == p {
                        assert(out@[i] == out_before[i]);
                    } else if i == p && j > p {
                        assert(out@[j] == out_before[j - 1]);
                    } else if j < p {
                        assert(out@[i] == out_before[i] && out@[j] == out_before[j]);
                    } else {
                        assert(out@[i] == out_before[i - 1] && out@[j] == out_before[j - 1]);
                    }
                }
                let vb = views(before);
                assert(vb[0] == before[0]@);
                assert(vb.contains(vb[0]));
                vb.to_multiset_ensures();
                assert(vb.remove(0).to_multiset() == vb.to_multiset().remove(vb[0]));
                assert(views(routes@) == vb.remove(0));
                assert(vb.to_multiset() =~= views(routes@).to_multiset().insert(before[0]@));
                assert(views(out@).to_multiset().add(views(routes@).to_multiset()) =~= views(orig).to_multiset());
            }
        }
        proof {
            assert(views(routes@).to_multiset() =~= Multiset::empty());
            assert(views(out@).to_multiset().add(Multiset::empty()) =~= views(out@).to_multiset());
        }
        *routes = out;
    }
}

/// The display name of location `id`: that of its first record, else its identifier.
pub open spec fn name_text(systems: Seq<System>, id: u32) -> Seq<char>
    decreases systems.len(),
{
    if systems.len() == 0 {
        decimal(id as nat)
    } else if systems[0].id == id {
        systems[0].name@
    } else {
        name_text(systems.drop_first(), id)
    }
}

/// The security status of location `id`: that of its first record, else zero.
pub open spec fn risk_of(systems: Seq<System>, id: u32) -> int
    decreases systems.len(),
{
    if systems.len() == 0 {
        0
    } else if systems[0].id == id {
        systems[0].security_status as int
    } else {
        risk_of(systems.drop_first(), id)
    }
}

/// The display name of commodity `id`: that of its first entry, else its identifier.
pub open spec fn type_text(types: Seq<Type>, id: u32) -> Seq<char>
    decreases types.len(),
{
    if types.len() == 0 {
        decimal(id as nat)
    } else if types[0].type_id == id {
        types[0].name@
    } else {
        type_text(types.drop_first(), id)
    }
}

/// The report lines of one waypoint; `n` numbers transited locations.
pub open spec fn waypoint_text(w: Waypoint, n: nat, systems: Seq<System>, types: Seq<Type>) -> Seq<char> {
    match w {
        Waypoint::System(id) => "\t"@ + decimal(n) + ". "@ + name_text(systems, id) + " ("@ + signed_fixed2(
            risk_of(systems, id),
        ) + ") ->\n"@,
        Waypoint::Order(o) => "\n\t"@ + (if o.is_buy_order {
            "Buy"@
        } else {
            "Sell"@
        }) + " order for "@ + decimal(o.volume as nat) + " of "@ + type_text(types, o.type_id) + " ("@ + fixed2(
            (o.price * o.volume) as nat,
        ) + " ISK).\n\n"@ + "\n\tEve Market Browser: "@ + market_browser_base() + seq!['/'] + decimal(
            o.type_id as nat,
        ) + "\n\n\n"@,
    }
}

/// The number of the next transited location: one more after a location,
/// one again after an order.
pub open spec fn next_number(w: Waypoint, n: nat) -> nat {
    match w {
        Waypoint::System(_) => if n < u64::MAX {
            n + 1
        } else {
            n
        },
        Waypoint::Order(_) => 1,
    }
}

/// The waypoint lines of a path, numbering from `n`.
pub open spec fn body_text(path: Seq<Waypoint>, n: nat, systems: Seq<System>, types: Seq<Type>) -> Seq<char>
    decreases path.len(),
{
    if path.len() == 0 {
        Seq::empty()
    } else {
        waypoint_text(path[0], n, systems, types) + body_text(path.drop_first(), next_number(path[0], n), systems, types)
    }
}

/// The full report of a path: its waypoint lines, the route-check link of its
/// transited locations, and its jumps, profit and profit per jump; empty for
/// an empty path.
pub open spec fn report(path: Seq<Waypoint>, systems: Seq<System>, types: Seq<Type>) -> Seq<char> {
    if path.len() == 0 {
        Seq::empty()
    } else {
        body_text(path, 1, systems, types) + "\n\nEve Gatecamp Check: "@ + gatecamp_link(transited(path), "secure"@)
            + "\n\nTotal jumps: "@ + decimal(transited(path).len()) + "\n\nTotal profit: "@ + signed_fixed2(
            route_profit(path),
        ) + "\n\nProfit per jump: "@ + signed_fixed2(per_jump(route_profit(path), transited(path).len() as int))
            + "\n\n\n\n\n\n"@
    }
}

fn push_system_name(s: &mut String, systems: &Vec<System>, id: u32)
    ensures
        final(s)@ == old(s)@ + name_text(systems@, id),
{
    let mut i: usize = 0;
    assert(systems@.skip(0) =~= systems@);
    while i < systems.len()
        invariant
            i <= systems@.len(),
            *s == *old(s),
            name_text(systems@, id) == name_text(systems@.skip(i as int), id),
        decreases systems@.len() - i,
    {
        assert(systems@.skip(i as int).drop_first() =~= systems@.skip(i + 1));
        if systems[i].id == id {
            s.append(systems[i].name.as_str());
            return;
        }
        i = i + 1;
    }
    push_decimal(s, id as u128);
}

fn push_type_name(s: &mut String, types: &Vec<Type>, id: u32)
    ensures
        final(s)@ == old(s)@ + type_text(types@, id),
{
    let mut i: usize = 0;
    assert(types@.skip(0) =~= types@);
    while i < types.len()
        invariant
            i <= types@.len(),
            *s == *old(s),
            type_text(types@, id) == type_text(types@.skip(i as int), id),
        decreases types@.len() - i,
    {
        assert(types@.skip(i as int).drop_first() =~= types@.skip(i + 1));
        if types[i].type_id == id {
            s.append(types[i].name.as_str());
            return;
        }
        i = i + 1;
    }
    push_decimal(s, id as u128);
}

fn system_security(systems: &Vec<System>, id: u32) -> (r: i32)
    ensures
        r as int == risk_of(systems@, id),
{
    let mut i: usize = 0;
    assert(systems@.skip(0) =~= systems@);
    while i < systems.len()
        invariant
            i <= systems@.len(),
            risk_of(systems@, id) == risk_of(systems@.skip(i as int), id),
        decreases systems@.len() - i,
    {
        assert(systems@.skip(i as int).drop_first() =~= systems@.skip(i + 1));
        if systems[i].id == id {
            return systems[i].security_status;
        }
        i = i + 1;
    }
    0
}

#[verifier::rlimit(40)]
fn push_waypoint(text: &mut String, w: Waypoint, number: u64, systems: &Vec<System>, types: &Vec<Type>) -> (next: u64)
    ensures
        final(text)@ == old(text)@ + waypoint_text(w, number as nat, systems@, types@),
        next as nat == next_number(w, number as nat),
{
    let mut next = number;
    match w {
        Waypoint::System(id) => {
            text.append("\t");
            push_decimal(text, number as u128);
            text.append(". ");
            push_system_name(text, systems, id);
            text.append(" (");
            push_signed_fixed2(text, system_security(systems, id) as i128);
            text.append(") ->\n");
            if number < u64::MAX {
                next = number + 1;
            }
        },
        Waypoint::Order(o) => {
            next = 1;
            text.append("\n\t");
            if o.is_buy_order {
                text.append("Buy");
            } else {
                text.append("Sell");
            }
            text.append(" order for ");
            push_decimal(text, o.volume as u128);
            text.append(" of ");
            push_type_name(text, types, o.type_id);
            text.append(" (");
            let price = o.price as u128;
            let volume = o.volume as u128;
            assert(price * volume <= 0xffff_ffff_ffff_ffffu128 * 0xffff_ffffu128) by (nonlinear_arith)
                requires
                    price <= 0xffff_ffff_ffff_ffffu128,
                    volume <= 0xffff_ffffu128,
            ;
            push_fixed2(text, price * volume);
            text.append(" ISK).\n\n");
            text.append("\n\tEve Market Browser: ");
            let link = get_market_browser_url(o.type_id);
            text.append(link.as_str());
            text.append("\n\n\n");
        },
    }
    assert(final(text)@ =~= old(text)@ + waypoint_text(w, number as nat, systems@, types@));
    next
}

impl Route {
    /// A multi-line report of the route (see `report`): numbered transited
    /// locations with their security status, each traded order with its side,
    /// quantity, commodity and total and a market link, a route-check link,
    /// and the totals. Names come from `systems` and `types`.
    pub fn represent(&mut self, systems: &Vec<System>, types: &Vec<Type>) -> (r: String)
        requires
            old(self).wf(),
        ensures
            final(self).wf(),
            final(self)@ == old(self)@,
            r@ == report(old(self)@, systems@, types@),
    {
        if self.path.len() == 0 {
            return String::new();
        }
        let ghost path = self.path@;
        let mut text = String::new();
        let mut ids: Vec<u32> = Vec::new();
        let mut number: u64 = 1;
        let mut i: usize = 0;
        assert(path.skip(0) =~= path);
        assert(path.take(0) =~= Seq::<Waypoint>::empty());
        while i < self.path.len()
            invariant
                self.wf(),
                self.path@ == path,
                i <= path.len(),
                ids@ == transited(path.take(i as int)),
                text@ + body_text(path.skip(i as int), number as nat, systems@, types@) == body_text(path, 1, systems@, types@),
            decreases path.len() - i,
        {
            let ghost before = text@;
            let ghost n0 = number as nat;
            proof {
                assert(path.skip(i as int).drop_first() =~= path.skip(i + 1));
                assert(path.skip(i as int)[0] == path[i as int]);
                assert(path.take(i + 1).drop_last() =~= path.take(i as int));
                assert(path.take(i + 1).last() == path[i as int]);
            }
            let w = self.path[i];
            number = push_waypoint(&mut text, w, number, systems, types);
            if let Waypoint::System(id) = w {
                ids.push(id);
            }
            assert(text@ + body_text(path.skip(i + 1), number as nat, systems@, types@) =~= body_text(path, 1, systems@, types@));
            i = i + 1;
        }
        assert(path.take(i as int) =~= path);
        assert(path.skip(i as int) =~= Seq::<Waypoint>::empty());
        assert(text@ + Seq::<char>::empty() =~= text@);
        text.append("\n\nEve Gatecamp Check: ");
        let check = get_gatecamp_url(ids, "secure");
        text.append(check.as_str());
        text.append("\n\nTotal jumps: ");
        push_decimal(&mut text, self.jumps as u128);
        text.append("\n\nTotal profit: ");
        let profit = self.get_profit();
        push_signed_fixed2(&mut text, profit);
        text.append("\n\nProfit per jump: ");
        let per_jump = self.get_profit_per_jump();
        push_signed_fixed2(&mut text, per_jump);
        text.append("\n\n\n\n\n\n");
        assert(text@ =~= report(path, systems@, types@));
        text
    }
}

fn rounded_per_jump(profit: i128, jumps: usize) -> (r: i128)
    requires
        -0x2000_0000_0000_0000_0000_0000_0000_0000 <= profit <= 0x2000_0000_0000_0000_0000_0000_0000_0000,
    ensures
        r == per_jump(profit as int, jumps as int),
{
    if jumps == 0 {
        return 0;
    }
    let j = jumps as i128;
    if profit >= 0 {
        (2 * profit + j) / (2 * j)
    } else {
        -((2 * (-profit) + j) / (2 * j))
    }
}

} // verus!
