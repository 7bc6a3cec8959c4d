use vstd::prelude::*;
use crate::types::{Order, OrderGroup, Type};
use crate::settings::Settings;
use std::collections::HashMap;

verus! {

broadcast use {vstd::seq_lib::group_to_multiset_ensures, vstd::std_specs::hash::group_hash_axioms};

/// Whether buying at `ask` and selling at `bid` meets the minimum margin
/// ratio: `(bid - ask) / ask >= percent / 100`.
pub open spec fn margin_ok(bid: int, ask: int, percent: int) -> bool {
    100 * bid >= (100 + percent) * ask
}

/// Prices that never increase along the sequence.
pub open spec fn sorted_desc(s: Seq<Order>) -> bool {
    forall|i: int, j: int| 0 <= i < j < s.len() ==> s[i].price >= s[j].price
}

/// Prices that never decrease along the sequence.
pub open spec fn sorted_asc(s: Seq<Order>) -> bool {
    forall|i: int, j: int| 0 <= i < j < s.len() ==> s[i].price <= s[j].price
}

/// Prices ordered as the side asks: descending for bids, ascending for asks.
pub open spec fn sorted_by(s: Seq<Order>, descending: bool) -> bool {
    if descending {
        sorted_desc(s)
    } else {
        sorted_asc(s)
    }
}

/// The orders of `s` with price `v`, in their order in `s`.
pub open spec fn with_price(s: Seq<Order>, v: u64) -> Seq<Order>
    decreases s.len(),
{
    if s.len() == 0 {
        Seq::empty()
    } else if s.last().price == v {
        with_price(s.drop_last(), v).push(s.last())
    } else {
        with_price(s.drop_last(), v)
    }
}

/// `b` keeps the relative order of the orders of `a` that share a price.
pub open spec fn same_ties(b: Seq<Order>, a: Seq<Order>) -> bool {
    forall|v: u64| #[trigger] with_price(b, v) == with_price(a, v)
}

proof fn lemma_with_price_concat(a: Seq<Order>, b: Seq<Order>, v: u64)
    ensures
        with_price(a + b, v) == with_price(a, v) + with_price(b, v),
    decreases b.len(),
{
    if b.len() == 0 {
        assert(a + b =~= a);
        assert(with_price(a, v) + with_price(b, v) =~= with_price(a, v));
    } else {
        lemma_with_price_concat(a, b.drop_last(), v);
        assert((a + b).drop_last() =~= a + b.drop_last());
        assert((a + b).last() == b.last());
        if b.last().price == v {
            assert(with_price(a, v) + with_price(b, v) =~= (with_price(a, v) + with_price(b.drop_last(), v)).push(b.last()));
        }
    }
}

proof fn lemma_with_price_single(x: Order, v: u64)
    ensures
        with_price(seq![x], v) == (if x.price == v {
            seq![x]
        } else {
            Seq::<Order>::empty()
        }),
{
    let s = seq![x];
    assert(s.drop_last() =~= Seq::<Order>::empty());
    assert(s.last() == x);
    assert(with_price(Seq::<Order>::empty(), v) == Seq::<Order>::empty());
    if x.price == v {
        assert(Seq::<Order>::empty().push(x) =~= seq![x]);
    }
}

proof fn lemma_with_price_absent(b: Seq<Order>, v: u64)
    requires
        forall|k: int| 0 <= k < b.len() ==> (#[trigger] b[k]).price != v,
    ensures
        with_price(b, v) == Seq::<Order>::empty(),
    decreases b.len(),
{
    if b.len() > 0 {
        lemma_with_price_absent(b.drop_last(), v);
    }
}

/// The first paired index at which bid and ask fail the margin, if any.
pub open spec fn first_unprofitable(bids: Seq<Order>, asks: Seq<Order>, percent: int, i: int) -> Option<int>
    decreases bids.len() - i,
{
    if i < 0 || i >= bids.len() || i >= asks.len() {
        None
    } else if !margin_ok(bids[i].price as int, asks[i].price as int, percent) {
        Some(i)
    } else {
        first_unprofitable(bids, asks, percent, i + 1)
    }
}

/// The length a side keeps after pruning: up to the first unprofitable pair.
pub open spec fn kept_len(bids: Seq<Order>, asks: Seq<Order>, side_len: int, percent: int) -> int {
    match first_unprofitable(bids, asks, percent, 0) {
        Some(i) => i,
        None => side_len,
    }
}

/// A pruned book: bids descending, asks ascending, every paired index profitable.
pub open spec fn book_ok(g: OrderGroup, percent: int) -> bool {
    &&& sorted_desc(g.buy@)
    &&& sorted_asc(g.sell@)
    &&& forall|i: int|
        0 <= i < g.buy@.len() && i < g.sell@.len() ==> margin_ok(
            #[trigger] g.buy@[i].price as int,
            g.sell@[i].price as int,
            percent,
        )
}

/// The unit volume of commodity `id` in the table: its first entry.
pub open spec fn type_volume(types: Seq<Type>, id: u32) -> Option<u64>
    decreases types.len(),
{
    if types.len() == 0 {
        None
    } else if types[0].type_id == id {
        Some(types[0].volume)
    } else {
        type_volume(types.drop_first(), id)
    }
}

/// Whether some bid and some ask of the group meet the margin.
pub open spec fn has_profitable_pair(g: OrderGroup, percent: int) -> bool {
    exists|i: int, j: int|
        0 <= i < g.buy@.len() && 0 <= j < g.sell@.len() && margin_ok(
            #[trigger] g.buy@[i].price as int,
            #[trigger] g.sell@[j].price as int,
            percent,
        )
}

/// Whether a group survives preprocessing: both sides present, the commodity
/// known and small enough for the hold, and a profitable best pair.
pub open spec fn viable(g: OrderGroup, types: Seq<Type>, cargo: int, percent: int) -> bool {
    &&& g.buy@.len() > 0
    &&& g.sell@.len() > 0
    &&& type_volume(types, g.type_id) is Some
    &&& type_volume(types, g.type_id).unwrap() <= cargo
    &&& has_profitable_pair(g, percent)
}

/// Why preprocessing drops `g`, or `None` when it keeps it.
pub open spec fn removal_of(g: OrderGroup, types: Seq<Type>, cargo: int, percent: int) -> Option<Removal> {
    if g.buy@.len() == 0 || g.sell@.len() == 0 {
        Some(Removal::Empty)
    } else if type_volume(types, g.type_id) is None {
        Some(Removal::Unknown)
    } else if type_volume(types, g.type_id).unwrap() > cargo {
        Some(Removal::Volume)
    } else if !has_profitable_pair(g, percent) {
        Some(Removal::Unprofitable)
    } else {
        None
    }
}

/// `h` is what preprocessing makes of `g`: each side sorted (a reordering of
/// its orders) and cut before the first unprofitable pair.
pub open spec fn pruned_from(g: OrderGroup, h: OrderGroup, types: Seq<Type>, percent: int) -> bool {
    &&& h.type_id == g.type_id
    &&& type_volume(types, g.type_id) == Some(h.volume)
    &&& exists|b: Seq<Order>, a: Seq<Order>|
        {
            &&& sorted_desc(b)
            &&& sorted_asc(a)
            &&& #[trigger] b.to_multiset() == g.buy@.to_multiset()
            &&& #[trigger] a.to_multiset() == g.sell@.to_multiset()
            &&& same_ties(b, g.buy@)
            &&& same_ties(a, g.sell@)
            &&& h.buy@ == b.take(kept_len(b, a, b.len() as int, percent))
            &&& h.sell@ == a.take(kept_len(b, a, a.len() as int, percent))
        }
}

pub open spec fn spec_in_order(first: u64, second: u64, descending: bool) -> bool {
    if descending {
        first >= second
    } else {
        first <= second
    }
}

fn in_order(first: u64, second: u64, descending: bool) -> (r: bool)
    ensures
        r == spec_in_order(first, second, descending),
{
    if descending {
        first >= second
    } else {
        first <= second
    }
}

/// Inserting an element anywhere adds it to the multiset.
pub proof fn lemma_insert_multiset<A>(s: Seq<A>, p: int, x: A)
    requires
        0 <= p <= s.len(),
    ensures
        s.insert(p, x).to_multiset() == s.to_multiset().insert(x),
{
    let t = s.insert(p, x);
    assert(t.remove(p) =~= s);
    assert(t[p] == x);
    assert(t.to_multiset().count(x) > 0);
    assert(t.to_multiset() =~= s.to_multiset().insert(x));
}

/// Sorts orders by price, stably: descending when `descending`, else ascending.
pub fn sort_orders(orders: &mut Vec<Order>, descending: bool)
    ensures
        sorted_by(final(orders)@, descending),
        final(orders)@.to_multiset() == old(orders)@.to_multiset(),
        same_ties(final(orders)@, old(orders)@),
{
    let mut out: Vec<Order> = Vec::new();
    let mut i: usize = 0;
    while i < orders.len()
        invariant
            i <= orders.len(),
            orders@ == old(orders)@,
            sorted_by(out@, descending),
            out@.to_multiset() == orders@.take(i as int).to_multiset(),
            same_ties(out@, orders@.take(i as int)),
        decreases orders.len() - i,
    {
        let x = orders[i];
        let mut p: usize = 0;
        while p < out.len() && in_order(out[p].price, x.price, descending)
            invariant
                p <= out.len(),
                forall|k: int| 0 <= k < p ==> spec_in_order(out@[k].price, x.price, descending),
            decreases out.len() - p,
        {
            p = p + 1;
        }
        proof {
            lemma_insert_multiset(out@, p as int, x);
            assert(orders@.take(i + 1) =~= orders@.take(i as int).push(x));
            assert(orders@.take(i + 1).drop_last() =~= orders@.take(i as int));
            let rest = out@.skip(p as int);
            assert forall|k: int| 0 <= k < rest.len() implies (#[trigger] rest[k]).price != x.price by {
                assert(rest[k] == out@[p + k]);
                assert(!spec_in_order(out@[p as int].price, x.price, descending));
            }
            assert(out@.insert(p as int, x) =~= out@.take(p as int) + seq![x] + rest);
            assert(out@ =~= out@.take(p as int) + rest);
            assert forall|v: u64| #[trigger] with_price(out@.insert(p as int, x), v) == with_price(orders@.take(i + 1), v) by {
                lemma_with_price_concat(out@.take(p as int) + seq![x], rest, v);
                lemma_with_price_concat(out@.take(p as int), seq![x], v);
                lemma_with_price_concat(out@.take(p as int), rest, v);
                lemma_with_price_single(x, v);
                if v == x.price {
                    lemma_with_price_absent(rest, v);
                    assert(with_price(out@, v) =~= with_price(out@.take(p as int), v));
                    assert(with_price(out@.take(p as int) + seq![x], v) =~= with_price(out@.take(p as int), v).push(x));
                    assert(with_price(out@.insert(p as int, x), v) =~= with_price(out@.take(p as int) + seq![x], v) + Seq::<Order>::empty());
                } else {
                    assert(with_price(out@.take(p as int) + seq![x], v) =~= with_price(out@.take(p as int), v));
                }
            }
        }
        out.insert(p, x);
        i = i + 1;
    }
    assert(orders@.take(i as int) =~= orders@);
    assert(orders@.take(0) =~= Seq::<Order>::empty());
    *orders = out;
}

/// Cuts a sorted book before its first unprofitable pair of paired indices.
pub fn truncate_unprofitable(group: &mut OrderGroup, percent: u32)
    ensures
        final(group).type_id == old(group).type_id,
        final(group).volume == old(group).volume,
        final(group).buy@ == old(group).buy@.take(
            kept_len(old(group).buy@, old(group).sell@, old(group).buy@.len() as int, percent as int),
        ),
        final(group).sell@ == old(group).sell@.take(
            kept_len(old(group).buy@, old(group).sell@, old(group).sell@.len() as int, percent as int),
        ),
        forall|i: int|
            0 <= i < final(group).buy@.len() && i < final(group).sell@.len() ==> margin_ok(
                #[trigger] final(group).buy@[i].price as int,
                final(group).sell@[i].price as int,
                percent as int,
            ),
{
    let ghost b = group.buy@;
    let ghost a = group.sell@;
    let mut i: usize = 0;
    while i < group.buy.len() && i < group.sell.len()
        invariant
            group.buy@ == b,
            group.sell@ == a,
            b == old(group).buy@,
            a == old(group).sell@,
            group.type_id == old(group).type_id,
            group.volume == old(group).volume,
            i <= b.len(),
            i <= a.len(),
            first_unprofitable(b, a, percent as int, 0) == first_unprofitable(b, a, percent as int, i as int),
            forall|k: int| 0 <= k < i ==> margin_ok(#[trigger] b[k].price as int, a[k].price as int, percent as int),
        decreases b.len() - i,
    {
        let bid = group.buy[i].price as u128;
        let ask = group.sell[i].price as u128;
        let f = 100 + percent as u128;
        assert(f * ask <= 0x1_0000_0063u128 * 0xffff_ffff_ffff_ffffu128) by (nonlinear_arith)
            requires
                f <= 0x1_0000_0063u128,
                ask <= 0xffff_ffff_ffff_ffffu128,
        ;
        if 100 * bid < f * ask {
            assert(first_unprofitable(b, a, percent as int, i as int) == Some(i as int));
            group.buy.truncate(i);
            group.sell.truncate(i);
            assert(group.buy@ =~= b.take(i as int));
            assert(group.sell@ =~= a.take(i as int));
            assert(kept_len(b, a, b.len() as int, percent as int) == i);
            assert(kept_len(b, a, a.len() as int, percent as int) == i);
            return;
        }
        assert(first_unprofitable(b, a, percent as int, i as int) == first_unprofitable(
            b,
            a,
            percent as int,
            i + 1,
        ));
        i = i + 1;
    }
    assert(first_unprofitable(b, a, percent as int, i as int) is None);
    assert(b.take(b.len() as int) =~= b);
    assert(a.take(a.len() as int) =~= a);
}

/// The orders of `s` on one side (`buy`) of commodity `id`, in their order in `s`.
pub open spec fn side_of(s: Seq<Order>, id: u32, buy: bool) -> Seq<Order>
    decreases s.len(),
{
    if s.len() == 0 {
        Seq::empty()
    } else {
        let rest = side_of(s.drop_last(), id, buy);
        if s.last().type_id == id && s.last().is_buy_order == buy {
            rest.push(s.last())
        } else {
            rest
        }
    }
}

proof fn lemma_side_of_absent(s: Seq<Order>, id: u32, buy: bool)
    requires
        forall|j: int| 0 <= j < s.len() ==> s[j].type_id != id,
    ensures
        side_of(s, id, buy) == Seq::<Order>::empty(),
    decreases s.len(),
{
    if s.len() > 0 {
        lemma_side_of_absent(s.drop_last(), id, buy);
    }
}

/// Whether some group is that of commodity `id`.
pub open spec fn has_group(groups: Seq<OrderGroup>, id: u32) -> bool {
    exists|k: int| 0 <= k < groups.len() && #[trigger] groups[k].type_id == id
}

/// Groups a flat list of orders by commodity, in order of first appearance;
/// each side keeps the orders' relative order.
pub fn group_orders(orders: &Vec<Order>) -> (groups: Vec<OrderGroup>)
    ensures
        forall|k: int| #![trigger groups@[k]]
            0 <= k < groups@.len() ==> {
                &&& groups@[k].buy@ == side_of(orders@, groups@[k].type_id, true)
                &&& groups@[k].sell@ == side_of(orders@, groups@[k].type_id, false)
                &&& groups@[k].volume == 0
            },
        forall|k: int, l: int|
            0 <= k < l < groups@.len() ==> groups@[k].type_id != groups@[l].type_id,
        forall|j: int| 0 <= j < orders@.len() ==> has_group(groups@, #[trigger] orders@[j].type_id),
{
    let mut groups: Vec<OrderGroup> = Vec::new();
    let mut index: HashMap<u32, usize> = HashMap::new();
    let mut i: usize = 0;
    while i < orders.len()
        invariant
            i <= orders.len(),
            forall|k: int| #![trigger groups@[k]]
                0 <= k < groups@.len() ==> {
                    &&& groups@[k].buy@ == side_of(orders@.take(i as int), groups@[k].type_id, true)
                    &&& groups@[k].sell@ == side_of(orders@.take(i as int), groups@[k].type_id, false)
                    &&& groups@[k].volume == 0
                    &&& index@.contains_key(groups@[k].type_id)
                    &&& index@[groups@[k].type_id] == k
                },
            forall|id: u32| #[trigger] index@.contains_key(id) ==> {
                &&& index@[id] < groups@.len()
                &&& groups@[index@[id] as int].type_id == id
            },
            forall|j: int| 0 <= j < i ==> #[trigger] index@.contains_key(orders@[j].type_id),
        decreases orders.len() - i,
    {
        let o = orders[i];
        let ghost prev = orders@.take(i as int);
        let ghost next = orders@.take(i + 1);
        assert(next.drop_last() =~= prev);
        assert(next.last() == o);
        let k: usize = match index.get(&o.type_id) {
            Some(k) => *k,
            None => {
                proof {
                    assert forall|j: int| 0 <= j < prev.len() implies prev[j].type_id != o.type_id by {
                        assert(index@.contains_key(orders@[j].type_id));
                    }
                    lemma_side_of_absent(prev, o.type_id, true);
                    lemma_side_of_absent(prev, o.type_id, false);
                }
                let k = groups.len();
                groups.push(OrderGroup { type_id: o.type_id, volume: 0, buy: Vec::new(), sell: Vec::new() });
                index.insert(o.type_id, k);
                assert(groups@[k as int].buy@ =~= side_of(prev, o.type_id, true));
                assert(groups@[k as int].sell@ =~= side_of(prev, o.type_id, false));
                k
            },
        };
        assert(groups@[k as int].type_id == o.type_id);
        let ghost before = groups@;
        let mut g = groups.remove(k);
        if o.is_buy_order {
            g.buy.push(o);
        } else {
            g.sell.push(o);
        }
        groups.insert(k, g);
        assert forall|m: int| #![trigger groups@[m]] 0 <= m < groups@.len() && m != k implies
            groups@[m] == before[m] by {}
        i = i + 1;
    }
    assert(orders@.take(i as int) =~= orders@);
    assert forall|j: int| 0 <= j < orders@.len() implies has_group(groups@, #[trigger] orders@[j].type_id) by {
        assert(index@.contains_key(orders@[j].type_id));
        let k = index@[orders@[j].type_id] as int;
        assert(groups@[k].type_id == orders@[j].type_id);
    }
    groups
}

/// Why preprocessing dropped a commodity.
#[derive(Clone, Copy, Debug, PartialEq, Eq, Structural)]
pub enum Removal {
    Empty,
    Unknown,
    Volume,
    Unprofitable,
}

/// The unit volume of commodity `id` in the table.
pub fn find_type_volume(types: &Vec<Type>, id: u32) -> (r: Option<u64>)
    ensures
        r == type_volume(types@, id),
{
    let mut i: usize = 0;
    assert(types@.skip(0) =~= types@);
    while i < types.len()
        invariant
            i <= types.len(),
            type_volume(types@, id) == type_volume(types@.skip(i as int), id),
        decreases types.len() - i,
    {
        assert(types@.skip(i as int).drop_first() =~= types@.skip(i + 1));
        if types[i].type_id == id {
            return Some(types[i].volume);
        }
        i = i + 1;
    }
    None
}

proof fn lemma_first_unprofitable_from(bids: Seq<Order>, asks: Seq<Order>, percent: int, i: int)
    requires
        0 <= i,
    ensures
        first_unprofitable(bids, asks, percent, i) matches Some(j) ==> i <= j < bids.len() && j < asks.len(),
    decreases bids.len() - i,
{
    if i < bids.len() && i < asks.len() && margin_ok(bids[i].price as int, asks[i].price as int, percent) {
        lemma_first_unprofitable_from(bids, asks, percent, i + 1);
    }
}

/// With both sides sorted, the best pair meets the margin exactly when some pair does.
proof fn lemma_best_pair(g: OrderGroup, b: Seq<Order>, a: Seq<Order>, percent: int)
    requires
        percent >= 0,
        sorted_desc(b),
        sorted_asc(a),
        b.to_multiset() == g.buy@.to_multiset(),
        a.to_multiset() == g.sell@.to_multiset(),
        b.len() > 0,
        a.len() > 0,
    ensures
        margin_ok(b[0].price as int, a[0].price as int, percent) <==> has_profitable_pair(g, percent),
{
    if margin_ok(b[0].price as int, a[0].price as int, percent) {
        assert(b.contains(b[0]));
        assert(a.contains(a[0]));
        assert(g.buy@.to_multiset().count(b[0]) > 0);
        assert(g.sell@.to_multiset().count(a[0]) > 0);
        let i = choose|i: int| 0 <= i < g.buy@.len() && g.buy@[i] == b[0];
        let j = choose|j: int| 0 <= j < g.sell@.len() && g.sell@[j] == a[0];
        assert(margin_ok(g.buy@[i].price as int, g.sell@[j].price as int, percent));
    }
    if has_profitable_pair(g, percent) {
        let (i, j) = choose|i: int, j: int|
            0 <= i < g.buy@.len() && 0 <= j < g.sell@.len() && margin_ok(
                #[trigger] g.buy@[i].price as int,
                #[trigger] g.sell@[j].price as int,
                percent,
            );
        assert(g.buy@.contains(g.buy@[i]));
        assert(g.sell@.contains(g.sell@[j]));
        assert(b.to_multiset().count(g.buy@[i]) > 0);
        assert(a.to_multiset().count(g.sell@[j]) > 0);
        let k = choose|k: int| 0 <= k < b.len() && b[k] == g.buy@[i];
        let l = choose|l: int| 0 <= l < a.len() && a[l] == g.sell@[j];
        let bb = b[0].price as int;
        let bi = b[k].price as int;
        let aa = a[0].price as int;
        let aj = a[l].price as int;
        assert(bb >= bi);
        assert(aa <= aj);
        assert(100 * bb >= (100 + percent) * aa) by (nonlinear_arith)
            requires
                bb >= bi,
                aa <= aj,
                100 * bi >= (100 + percent) * aj,
                percent >= 0,
        ;
    }
}

/// Preprocesses the orders of one commodity: drops it when a side is empty,
/// the commodity is unknown or too large for the hold, or no pair is
/// profitable; otherwise sorts both sides and cuts them before the first
/// unprofitable pair.
pub fn prune_group(group: OrderGroup, types: &Vec<Type>, settings: &Settings) -> (r: Result<OrderGroup, Removal>)
    ensures
        r is Ok <==> viable(group, types@, settings.cargo() as int, settings.margin() as int),
        r == Err::<OrderGroup, Removal>(Removal::Empty) <==> (group.buy@.len() == 0 || group.sell@.len() == 0),
        r == Err::<OrderGroup, Removal>(Removal::Unknown) <==> {
            &&& group.buy@.len() > 0
            &&& group.sell@.len() > 0
            &&& type_volume(types@, group.type_id) is None
        },
        r == Err::<OrderGroup, Removal>(Removal::Volume) <==> {
            &&& group.buy@.len() > 0
            &&& group.sell@.len() > 0
            &&& type_volume(types@, group.type_id) matches Some(v) && v > settings.cargo()
        },
        r matches Err(x) ==> removal_of(group, types@, settings.cargo() as int, settings.margin() as int) == Some(x),
        r is Ok ==> removal_of(group, types@, settings.cargo() as int, settings.margin() as int) is None,
        r matches Ok(h) ==> {
            &&& pruned_from(group, h, types@, settings.margin() as int)
            &&& book_ok(h, settings.margin() as int)
            &&& h.buy@.len() > 0
            &&& h.sell@.len() > 0
        },
{
    let ghost g = group;
    if group.buy.len() == 0 || group.sell.len() == 0 {
        return Err(Removal::Empty);
    }
    let volume = match find_type_volume(types, group.type_id) {
        None => {
            return Err(Removal::Unknown);
        },
        Some(v) => v,
    };
    if volume > settings.get_ship_cargo_volume() {
        return Err(Removal::Volume);
    }
    let percent = settings.get_percentage_treshold();
    let OrderGroup { type_id, volume: _, buy, sell } = group;
    let mut buy = buy;
    let mut sell = sell;
    sort_orders(&mut buy, true);
    sort_orders(&mut sell, false);
    let mut h = OrderGroup { type_id, volume, buy, sell };
    let ghost b = h.buy@;
    let ghost a = h.sell@;
    truncate_unprofitable(&mut h, percent);
    proof {
        assert(b.len() == g.buy@.len()) by {
            assert(b.to_multiset().len() == g.buy@.to_multiset().len());
        }
        assert(a.len() == g.sell@.len()) by {
            assert(a.to_multiset().len() == g.sell@.to_multiset().len());
        }
        lemma_best_pair(g, b, a, percent as int);
        lemma_first_unprofitable_from(b, a, percent as int, 1);
        assert(h.buy@.len() > 0 && h.sell@.len() > 0 <==> margin_ok(b[0].price as int, a[0].price as int, percent as int));
        assert forall|i: int, j: int| 0 <= i < j < h.buy@.len() implies h.buy@[i].price >= h.buy@[j].price by {
            assert(h.buy@[i] == b[i] && h.buy@[j] == b[j]);
        }
        assert forall|i: int, j: int| 0 <= i < j < h.sell@.len() implies h.sell@[i].price <= h.sell@[j].price by {
            assert(h.sell@[i] == a[i] && h.sell@[j] == a[j]);
        }
    }
    if h.buy.len() == 0 || h.sell.len() == 0 {
        return Err(Removal::Unprofitable);
    }
    Ok(h)
}

} // verus!
