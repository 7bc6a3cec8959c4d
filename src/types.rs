use vstd::prelude::*;

verus! {

/// A directed connection between two locations, with the cost of the jump.
#[derive(Clone, Copy, Debug, PartialEq, Eq, Structural)]
pub struct Stargate {
    pub origin: u32,
    pub destination: u32,
    pub weight: u32,
}

/// A location: its identifier, display name, risk score (security status in
/// hundredths, `-100..=100`) and outgoing connections.
#[derive(Clone, Debug)]
pub struct System {
    pub id: u32,
    pub name: String,
    pub security_status: i32,
    pub stargates: Vec<Stargate>,
}

/// A tradeable commodity; `volume` is the packaged volume of one unit in
/// thousandths of a cubic metre.
#[derive(Clone, Debug)]
pub struct Type {
    pub type_id: u32,
    pub group_id: u32,
    pub name: String,
    pub volume: u64,
}

/// One market order: `price` in hundredths of the currency, `volume` the
/// number of units it offers (or, on a route, the number traded).
#[derive(Clone, Copy, Debug, PartialEq, Eq, Structural)]
pub struct Order {
    pub is_buy_order: bool,
    pub type_id: u32,
    pub price: u64,
    pub station_id: u32,
    pub system_id: u32,
    pub region_id: u32,
    pub volume: u32,
}

/// The bids and asks of one commodity; `volume` is its unit volume.
#[derive(Clone, Debug)]
pub struct OrderGroup {
    pub type_id: u32,
    pub volume: u64,
    pub buy: Vec<Order>,
    pub sell: Vec<Order>,
}

/// One step of a route: a transited location (by identifier) or an executed order.
#[derive(Clone, Copy, Debug, PartialEq, Eq, Structural)]
pub enum Waypoint {
    System(u32),
    Order(Order),
}

/// A partial route in the search frontier.
#[derive(Clone, Debug)]
pub struct TradeCandidate {
    pub profit_per_jump: u128,
    pub system_id: usize,
    pub capital: u128,
    pub waypoints: Vec<Waypoint>,
    pub visited: Vec<bool>,
    pub jumps: u64,
}

/// An element-by-element copy of `v`.
pub fn copy_of<T: Copy>(v: &Vec<T>) -> (r: Vec<T>)
    ensures
        r@ == v@,
{
    let mut r: Vec<T> = Vec::new();
    let mut i: usize = 0;
    while i < v.len()
        invariant
            i <= v@.len(),
            r@ == v@.take(i as int),
        decreases v@.len() - i,
    {
        r.push(v[i]);
        i = i + 1;
        assert(r@ =~= v@.take(i as int));
    }
    assert(v@.take(i as int) =~= v@);
    r
}

/// The identifiers of the transited locations of a path, in order.
pub open spec fn transited(path: Seq<Waypoint>) -> Seq<u32>
    decreases path.len(),
{
    if path.len() == 0 {
        Seq::empty()
    } else {
        let rest = transited(path.drop_last());
        match path.last() {
            Waypoint::System(id) => rest.push(id),
            Waypoint::Order(_) => rest,
        }
    }
}

/// Whether a path holds at least one executed order.
pub open spec fn has_order(path: Seq<Waypoint>) -> bool {
    exists|i: int| 0 <= i < path.len() && path[i] is Order
}

/// Whether `path` names the location `id` among its transited locations.
pub fn contains_location(path: &Vec<Waypoint>, id: u32) -> (r: bool)
    ensures
        r == transited(path@).contains(id),
{
    let mut i: usize = 0;
    while i < path.len()
        invariant
            i <= path.len(),
            !transited(path@.take(i as int)).contains(id),
        decreases path.len() - i,
    {
        assert(path@.take((i + 1) as int).drop_last() =~= path@.take(i as int));
        match path[i] {
            Waypoint::System(s) => {
                if s == id {
                    proof {
                        lemma_transited_prefix(path@, (i + 1) as int);
                        let t = transited(path@.take((i + 1) as int));
                        assert(t.last() == id);
                        assert(transited(path@)[t.len() - 1] == id);
                    }
                    return true;
                }
            },
            Waypoint::Order(_) => {},
        }
        i = i + 1;
    }
    assert(path@.take(i as int) =~= path@);
    false
}

/// A path transits at most as many locations as it has waypoints.
pub proof fn lemma_transited_len(path: Seq<Waypoint>)
    ensures
        transited(path).len() <= path.len(),
    decreases path.len(),
{
    if path.len() > 0 {
        lemma_transited_len(path.drop_last());
    }
}

/// The transited locations of a prefix are a prefix of the transited locations.
pub proof fn lemma_transited_prefix(path: Seq<Waypoint>, k: int)
    requires
        0 <= k <= path.len(),
    ensures
        transited(path.take(k)).len() <= transited(path).len(),
        transited(path.take(k)) == transited(path).take(transited(path.take(k)).len() as int),
    decreases path.len() - k,
{
    if k == path.len() {
        assert(path.take(k) =~= path);
        assert(transited(path).take(transited(path).len() as int) =~= transited(path));
    } else {
        lemma_transited_prefix(path, k + 1);
        assert(path.take(k + 1).drop_last() =~= path.take(k));
        let t = transited(path.take(k + 1));
        let u = transited(path.take(k));
        assert(u =~= t.take(u.len() as int));
        assert(u =~= transited(path).take(u.len() as int));
    }
}

} // verus!
