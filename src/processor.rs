use vstd::prelude::*;
use crate::book::{removal_of, book_ok, group_orders, has_group, margin_ok, prune_group, pruned_from, side_of, sorted_asc, sorted_desc, viable, Removal};
use crate::graph::{built_from, TravelGraph, MAX_LOCATIONS};
use crate::route::Route;
use crate::search::{find_routes, has_extending_seed, legs_ok, no_seed, route_ok};
use crate::settings::Settings;
use crate::types::{Order, OrderGroup, System, Type};

verus! {

/// Counts of the commodities that preprocessing saw, dropped by reason, and kept.
#[derive(Clone, Copy, Debug, PartialEq, Eq, Structural)]
pub struct PreprocessStats {
    pub initial_types: usize,
    pub removed_empty: usize,
    pub removed_unknown: usize,
    pub removed_volume: usize,
    pub removed_unprofitable: usize,
    pub final_types: usize,
}

/// `h` is the book that preprocessing keeps of `g`.
pub open spec fn kept_from(g: OrderGroup, h: OrderGroup, types: Seq<Type>, settings: Settings) -> bool {
    &&& viable(g, types, settings.cargo() as int, settings.margin() as int)
    &&& pruned_from(g, h, types, settings.margin() as int)
    &&& book_ok(h, settings.margin() as int)
    &&& h.buy@.len() > 0
    &&& h.sell@.len() > 0
}

/// `out` keeps, in order, exactly the viable groups of `groups`, each pruned.
pub open spec fn preprocessed(groups: Seq<OrderGroup>, out: Seq<OrderGroup>, types: Seq<Type>, settings: Settings) -> bool {
    exists|idx: Seq<int>|
        {
            &&& idx.len() == out.len()
            &&& forall|k: int, l: int| 0 <= k < l < idx.len() ==> idx[k] < idx[l]
            &&& forall|k: int|
                0 <= k < idx.len() ==> 0 <= #[trigger] idx[k] < groups.len() && kept_from(
                    groups[idx[k]],
                    out[k],
                    types,
                    settings,
                )
            &&& forall|j: int|
                0 <= j < groups.len() && !idx.contains(j) ==> !viable(
                    #[trigger] groups[j],
                    types,
                    settings.cargo() as int,
                    settings.margin() as int,
                )
        }
}

/// How many of `groups` preprocessing drops for `reason`.
pub open spec fn count_removed(groups: Seq<OrderGroup>, types: Seq<Type>, settings: Settings, reason: Removal) -> nat
    decreases groups.len(),
{
    if groups.len() == 0 {
        0
    } else {
        count_removed(groups.drop_last(), types, settings, reason) + if removal_of(
            groups.last(),
            types,
            settings.cargo() as int,
            settings.margin() as int,
        ) == Some(reason) {
            1nat
        } else {
            0nat
        }
    }
}

fn reversed(v: Vec<OrderGroup>) -> (r: Vec<OrderGroup>)
    ensures
        r@ == v@.reverse(),
{
    let ghost orig = v@;
    let mut v = v;
    let mut r: Vec<OrderGroup> = Vec::new();
    while v.len() > 0
        invariant
            v@ == orig.take(v@.len() as int),
            v@.len() <= orig.len(),
            r@.len() == orig.len() - v@.len(),
            forall|k: int| 0 <= k < r@.len() ==> #[trigger] r@[k] == orig[orig.len() - 1 - k],
        decreases v@.len(),
    {
        let g = v.pop().unwrap();
        r.push(g);
        assert(v@ =~= orig.take(v@.len() as int));
    }
    assert(r@ =~= orig.reverse());
    r
}

/// Preprocesses every commodity's book (see `prune_group`), keeping the
/// survivors in their order and counting the removals by reason.
pub fn prune_groups(groups: Vec<OrderGroup>, types: &Vec<Type>, settings: &Settings) -> (r: (
    Vec<OrderGroup>,
    PreprocessStats,
))
    ensures
        preprocessed(groups@, r.0@, types@, *settings),
        r.1.initial_types == groups@.len(),
        r.1.final_types == r.0@.len(),
        r.1.removed_empty + r.1.removed_unknown + r.1.removed_volume + r.1.removed_unprofitable
            + r.1.final_types == groups@.len(),
        r.1.removed_empty == count_removed(groups@, types@, *settings, Removal::Empty),
        r.1.removed_unknown == count_removed(groups@, types@, *settings, Removal::Unknown),
        r.1.removed_volume == count_removed(groups@, types@, *settings, Removal::Volume),
        r.1.removed_unprofitable == count_removed(groups@, types@, *settings, Removal::Unprofitable),
{
    let ghost orig = groups@;
    let total = groups.len();
    let mut rest = reversed(groups);
    let mut out: Vec<OrderGroup> = Vec::new();
    let mut stats = PreprocessStats {
        initial_types: total,
        removed_empty: 0,
        removed_unknown: 0,
        removed_volume: 0,
        removed_unprofitable: 0,
        final_types: 0,
    };
    let ghost mut idx: Seq<int> = Seq::empty();
    while rest.len() > 0
        invariant
            total == orig.len(),
            rest@.len() <= orig.len(),
            forall|k: int| 0 <= k < rest@.len() ==> #[trigger] rest@[k] == orig[orig.len() - 1 - k],
            idx.len() == out@.len(),
            forall|k: int, l: int| 0 <= k < l < idx.len() ==> idx[k] < idx[l],
            forall|k: int|
                0 <= k < idx.len() ==> 0 <= #[trigger] idx[k] < orig.len() - rest@.len() && kept_from(
                    orig[idx[k]],
                    out@[k],
                    types@,
                    *settings,
                ),
            forall|j: int|
                0 <= j < orig.len() - rest@.len() && !idx.contains(j) ==> !viable(
                    #[trigger] orig[j],
                    types@,
                    settings.cargo() as int,
                    settings.margin() as int,
                ),
            stats.initial_types == total,
            stats.final_types == out@.len(),
            stats.removed_empty + stats.removed_unknown + stats.removed_volume + stats.removed_unprofitable
                + stats.final_types == orig.len() - rest@.len(),
            stats.removed_empty <= orig.len() - rest@.len(),
            stats.removed_empty == count_removed(orig.take(orig.len() - rest@.len()), types@, *settings, Removal::Empty),
            stats.removed_unknown == count_removed(orig.take(orig.len() - rest@.len()), types@, *settings, Removal::Unknown),
            stats.removed_volume == count_removed(orig.take(orig.len() - rest@.len()), types@, *settings, Removal::Volume),
            stats.removed_unprofitable == count_removed(orig.take(orig.len() - rest@.len()), types@, *settings, Removal::Unprofitable),
        decreases rest@.len(),
    {
        let ghost j = orig.len() - rest@.len();
        let g = rest.pop().unwrap();
        assert(g == orig[j]);
        assert(orig.take(j + 1).drop_last() =~= orig.take(j));
        assert(orig.take(j + 1).last() == orig[j]);
        let ghost old_idx = idx;
        match prune_group(g, types, settings) {
            Ok(h) => {
                out.push(h);
                stats.final_types = stats.final_types + 1;
                proof {
                    idx = idx.push(j);
                    assert forall|jj: int|
                        0 <= jj < orig.len() - rest@.len() && !idx.contains(jj) implies !viable(
                            #[trigger] orig[jj],
                            types@,
                            settings.cargo() as int,
                            settings.margin() as int,
                        ) by {
                        if jj == j {
                            assert(idx[idx.len() - 1] == j);
                        }
                        if old_idx.contains(jj) {
                            let k = choose|k: int| 0 <= k < old_idx.len() && old_idx[k] == jj;
                            assert(idx[k] == jj);
                        }
                    }
                }
            },
            Err(Removal::Empty) => {
                stats.removed_empty = stats.removed_empty + 1;
            },
            Err(Removal::Unknown) => {
                stats.removed_unknown = stats.removed_unknown + 1;
            },
            Err(Removal::Volume) => {
                stats.removed_volume = stats.removed_volume + 1;
            },
            Err(Removal::Unprofitable) => {
                stats.removed_unprofitable = stats.removed_unprofitable + 1;
            },
        }
    }
    assert(orig.take(orig.len() as int) =~= orig);
    assert(preprocessed(orig, out@, types@, *settings));
    (out, stats)
}

/// After preprocessing, every commodity's bids are sorted by price
/// non-increasing, its asks non-decreasing, both sides hold orders, and its
/// best bid and best ask meet the minimum margin ratio.
pub proof fn lemma_preprocessed_books(
    groups: Seq<OrderGroup>,
    out: Seq<OrderGroup>,
    types: Seq<Type>,
    settings: Settings,
)
    requires
        preprocessed(groups, out, types, settings),
    ensures
        forall|k: int| #![trigger out[k]]
            0 <= k < out.len() ==> {
                &&& sorted_desc(out[k].buy@)
                &&& sorted_asc(out[k].sell@)
                &&& out[k].buy@.len() > 0
                &&& out[k].sell@.len() > 0
                &&& margin_ok(out[k].buy@[0].price as int, out[k].sell@[0].price as int, settings.margin() as int)
            },
{
    let idx = choose|idx: Seq<int>|
        {
            &&& idx.len() == out.len()
            &&& forall|k: int, l: int| 0 <= k < l < idx.len() ==> idx[k] < idx[l]
            &&& forall|k: int|
                0 <= k < idx.len() ==> 0 <= #[trigger] idx[k] < groups.len() && kept_from(
                    groups[idx[k]],
                    out[k],
                    types,
                    settings,
                )
            &&& forall|j: int|
                0 <= j < groups.len() && !idx.contains(j) ==> !viable(
                    #[trigger] groups[j],
                    types,
                    settings.cargo() as int,
                    settings.margin() as int,
                )
        };
    assert forall|k: int| #![trigger out[k]] 0 <= k < out.len() implies {
        &&& sorted_desc(out[k].buy@)
        &&& sorted_asc(out[k].sell@)
        &&& out[k].buy@.len() > 0
        &&& out[k].sell@.len() > 0
        &&& margin_ok(out[k].buy@[0].price as int, out[k].sell@[0].price as int, settings.margin() as int)
    } by {
        assert(kept_from(groups[idx[k]], out[k], types, settings));
        assert(book_ok(out[k], settings.margin() as int));
        assert(margin_ok(out[k].buy@[0].price as int, out[k].sell@[0].price as int, settings.margin() as int));
    }
}

/// The search's input: commodity books, travel graph, commodity table and
/// configuration, held for one run.
pub struct OrderProcessor {
    pub orders: Vec<OrderGroup>,
    pub graph: TravelGraph,
    pub types: Vec<Type>,
    pub settings: Settings,
}

impl OrderProcessor {
    /// Groups the orders by commodity and builds the travel graph of the locations.
    pub fn new(orders: &Vec<Order>, systems: &Vec<System>, types: Vec<Type>, settings: Settings) -> (p: Self)
        requires
            systems@.len() <= MAX_LOCATIONS,
        ensures
            p.graph.wf(),
            p.types@ == types@,
            p.settings == settings,
            forall|k: int| #![trigger p.orders@[k]]
                0 <= k < p.orders@.len() ==> {
                    &&& p.orders@[k].buy@ == side_of(orders@, p.orders@[k].type_id, true)
                    &&& p.orders@[k].sell@ == side_of(orders@, p.orders@[k].type_id, false)
                },
            forall|k: int, l: int|
                0 <= k < l < p.orders@.len() ==> p.orders@[k].type_id != p.orders@[l].type_id,
            forall|j: int| 0 <= j < orders@.len() ==> has_group(p.orders@, #[trigger] orders@[j].type_id),
            forall|k: int| 0 <= k < systems@.len() ==> p.graph.ids@.contains(#[trigger] systems@[k].id),
            forall|u: int| 0 <= u < p.graph.n() ==> #[trigger] built_from(systems@, p.graph, u),
    {
        OrderProcessor {
            orders: group_orders(orders),
            graph: TravelGraph::from_systems(systems),
            types,
            settings,
        }
    }

    /// Sorts and prunes every commodity's book, dropping the commodities that
    /// cannot yield a profitable trade.
    pub fn preprocess_orders(&mut self) -> (stats: PreprocessStats)
        ensures
            final(self).graph == old(self).graph,
            final(self).types == old(self).types,
            final(self).settings == old(self).settings,
            preprocessed(old(self).orders@, final(self).orders@, old(self).types@, old(self).settings),
            stats.initial_types == old(self).orders@.len(),
            stats.final_types == final(self).orders@.len(),
            stats.removed_empty == count_removed(old(self).orders@, old(self).types@, old(self).settings, Removal::Empty),
            stats.removed_unknown == count_removed(old(self).orders@, old(self).types@, old(self).settings, Removal::Unknown),
            stats.removed_volume == count_removed(old(self).orders@, old(self).types@, old(self).settings, Removal::Volume),
            stats.removed_unprofitable == count_removed(
                old(self).orders@,
                old(self).types@,
                old(self).settings,
                Removal::Unprofitable,
            ),
    {
        let mut groups: Vec<OrderGroup> = Vec::new();
        core::mem::swap(&mut groups, &mut self.orders);
        let (kept, stats) = prune_groups(groups, &self.types, &self.settings);
        self.orders = kept;
        stats
    }

    /// Preprocesses the books, then searches for routes.
    pub fn compute(&mut self) -> (routes: Vec<Route>)
        requires
            old(self).graph.wf(),
        ensures
            preprocessed(old(self).orders@, final(self).orders@, old(self).types@, old(self).settings),
            routes@.len() <= old(self).settings.route_limit(),
            forall|k: int| 0 <= k < routes@.len() ==> route_ok(#[trigger] routes@[k], old(self).settings.jump_budget() as int),
            forall|k: int| 0 <= k < routes@.len() ==> legs_ok(old(self).graph, old(self).settings, (#[trigger] routes@[k])@),
            no_seed(old(self).graph, final(self).orders@, old(self).settings) ==> routes@.len() == 0,
            old(self).settings.route_limit() >= 1 && old(self).settings.jump_budget() >= 1 && has_extending_seed(
                old(self).graph,
                final(self).orders@,
                old(self).settings,
            ) ==> routes@.len() >= 1,
    {
        self.preprocess_orders();
        find_routes(&self.graph, &self.orders, &self.settings)
    }
}

} // verus!
