use vstd::prelude::*;
use crate::types::{Stargate, System};
use std::collections::HashMap;

verus! {

broadcast use vstd::std_specs::hash::group_hash_axioms;

/// Lowest risk score a location can have (security status -1.0, in hundredths).
pub const MIN_RISK: i32 = -100;

/// Highest risk score a location can have (security status 1.0, in hundredths).
pub const MAX_RISK: i32 = 100;

/// The risk score clamped into `[MIN_RISK, MAX_RISK]`.
pub open spec fn clamp_risk(risk: int) -> int {
    if risk < MIN_RISK as int {
        MIN_RISK as int
    } else if risk > MAX_RISK as int {
        MAX_RISK as int
    } else {
        risk
    }
}

/// Travel cost of a jump into a location of the given risk score: the score is
/// mapped linearly from `[-1.0, 1.0]` onto `[1, 10]`, inverted, and rounded up,
/// so that `ceil(11 - (1 + (s + 1) * 9 / 2))` with `s = risk / 100`.
pub open spec fn jump_cost(risk: int) -> int {
    (1100 - 9 * clamp_risk(risk) + 199) / 200
}

/// Cost of a jump into a location whose risk score is `risk`.
pub fn stargate_weight(risk: i32) -> (w: u32)
    ensures
        w as int == jump_cost(risk as int),
        1 <= w <= 10,
{
    let r: i32 = if risk < MIN_RISK {
        MIN_RISK
    } else if risk > MAX_RISK {
        MAX_RISK
    } else {
        risk
    };
    let n: i32 = 1100 - 9 * r + 199;
    (n / 200) as u32
}

/// `es` holds, in order, one edge for each connection of `gates` whose
/// destination is a location of `ids`, leading to that location's index and
/// costing the connection's weight.
pub open spec fn edges_match(es: Seq<Edge>, gates: Seq<Stargate>, ids: Seq<u32>) -> bool
    decreases gates.len(),
{
    if gates.len() == 0 {
        es.len() == 0
    } else if ids.contains(gates.last().destination) {
        &&& es.len() > 0
        &&& es.last().to < ids.len()
        &&& ids[es.last().to as int] == gates.last().destination
        &&& es.last().cost == gates.last().weight
        &&& edges_match(es.drop_last(), gates.drop_last(), ids)
    } else {
        edges_match(es, gates.drop_last(), ids)
    }
}

/// Location `u` of the graph is the first record of its identifier in the
/// batch, with that record's risk score and connections.
pub open spec fn built_from(systems: Seq<System>, g: TravelGraph, u: int) -> bool {
    exists|k: int|
        0 <= k < systems.len() && #[trigger] systems[k].id == g.ids@[u] && systems[k].security_status
            == g.risks@[u] && edges_match(g.edges@[u]@, systems[k].stargates@, g.ids@) && forall|j: int|
            0 <= j < k ==> systems[j].id != g.ids@[u]
}

/// A directed connection in the travel graph, by location index.
#[derive(Clone, Copy, Debug, PartialEq, Eq, Structural)]
pub struct Edge {
    pub to: usize,
    pub cost: u32,
}

/// Locations by index, with their identifiers, risk scores and outgoing edges.
#[derive(Clone, Debug)]
pub struct TravelGraph {
    pub ids: Vec<u32>,
    pub risks: Vec<i32>,
    pub edges: Vec<Vec<Edge>>,
}

/// Largest number of locations a travel graph holds, so that path costs fit in `u64`.
pub const MAX_LOCATIONS: usize = 0xffff_ffff;

impl TravelGraph {
    /// Number of locations.
    pub open spec fn n(&self) -> int {
        self.ids@.len() as int
    }

    /// Same number of identifiers, risks and edge lists; distinct identifiers;
    /// every edge leads to a location of the graph.
    pub open spec fn wf(&self) -> bool {
        &&& self.risks@.len() == self.n()
        &&& self.edges@.len() == self.n()
        &&& self.n() <= MAX_LOCATIONS
        &&& self.ids@.no_duplicates()
        &&& forall|u: int, j: int|
            0 <= u < self.n() && 0 <= j < self.edges@[u]@.len() ==> (#[trigger] self.edges@[u]@[j]).to
                < self.n()
    }

    /// Builds the graph of a batch of locations. A location whose identifier
    /// repeats an earlier one is left out; a connection whose destination is
    /// not in the batch is dropped.
    pub fn from_systems(systems: &Vec<System>) -> (g: TravelGraph)
        requires
            systems@.len() <= MAX_LOCATIONS,
        ensures
            g.wf(),
            forall|k: int| 0 <= k < systems@.len() ==> g.ids@.contains(#[trigger] systems@[k].id),
            forall|u: int| 0 <= u < g.n() ==> #[trigger] built_from(systems@, g, u),
    {
        let mut index: HashMap<u32, usize> = HashMap::new();
        let mut ids: Vec<u32> = Vec::new();
        let mut risks: Vec<i32> = Vec::new();
        let mut firsts: Vec<usize> = Vec::new();
        let mut k: usize = 0;
        while k < systems.len()
            invariant
                k <= systems@.len(),
                systems@.len() <= MAX_LOCATIONS,
                ids@.len() == risks@.len(),
                ids@.len() == firsts@.len(),
                ids@.len() <= k,
                forall|u: int| 0 <= u < ids@.len() ==> #[trigger] index@.contains_key(ids@[u]) && index@[ids@[u]] == u,
                forall|id: u32| #[trigger] index@.contains_key(id) ==> index@[id] < ids@.len() && ids@[index@[id] as int] == id,
                forall|j: int| 0 <= j < k ==> index@.contains_key(#[trigger] systems@[j].id),
                forall|u: int| 0 <= u < ids@.len() ==> (#[trigger] firsts@[u]) < systems@.len()
                    && systems@[firsts@[u] as int].id == ids@[u]
                    && systems@[firsts@[u] as int].security_status == risks@[u]
                    && forall|j: int| 0 <= j < firsts@[u] ==> systems@[j].id != ids@[u],
            decreases systems@.len() - k,
        {
            let id = systems[k].id;
            if !index.contains_key(&id) {
                assert forall|j: int| 0 <= j < k implies systems@[j].id != id by {
                    assert(index@.contains_key(systems@[j].id));
                }
                index.insert(id, ids.len());
                ids.push(id);
                risks.push(systems[k].security_status);
                firsts.push(k);
            }
            k = k + 1;
        }
        let mut edges: Vec<Vec<Edge>> = Vec::new();
        let mut u: usize = 0;
        while u < ids.len()
            invariant
                u <= ids@.len(),
                edges@.len() == u,
                ids@.len() == firsts@.len(),
                forall|u: int| 0 <= u < firsts@.len() ==> (#[trigger] firsts@[u]) < systems@.len(),
                forall|id: u32| #[trigger] index@.contains_key(id) ==> index@[id] < ids@.len() && ids@[index@[id] as int] == id,
                forall|u: int| 0 <= u < ids@.len() ==> #[trigger] index@.contains_key(ids@[u]),
                forall|w: int, j: int|
                    0 <= w < u && 0 <= j < edges@[w]@.len() ==> (#[trigger] edges@[w]@[j]).to < ids@.len(),
                forall|w: int| 0 <= w < u ==> edges_match(#[trigger] edges@[w]@, systems@[firsts@[w] as int].stargates@, ids@),
            decreases ids@.len() - u,
        {
            let sys = &systems[firsts[u]];
            let mut out: Vec<Edge> = Vec::new();
            let mut j: usize = 0;
            while j < sys.stargates.len()
                invariant
                    j <= sys.stargates@.len(),
                    forall|id: u32| #[trigger] index@.contains_key(id) ==> index@[id] < ids@.len() && ids@[index@[id] as int] == id,
                    forall|u: int| 0 <= u < ids@.len() ==> #[trigger] index@.contains_key(ids@[u]),
                    forall|i: int| 0 <= i < out@.len() ==> (#[trigger] out@[i]).to < ids@.len(),
                    edges_match(out@, sys.stargates@.take(j as int), ids@),
                decreases sys.stargates@.len() - j,
            {
                let gate = sys.stargates[j];
                let ghost before = out@;
                assert(sys.stargates@.take(j + 1).drop_last() =~= sys.stargates@.take(j as int));
                assert(sys.stargates@.take(j + 1).last() == gate);
                match index.get(&gate.destination) {
                    Some(to) => {
                        out.push(Edge { to: *to, cost: gate.weight });
                        assert(out@.drop_last() =~= before);
                        assert(ids@.contains(gate.destination));
                    },
                    None => {
                        assert(!ids@.contains(gate.destination));
                    },
                }
                j = j + 1;
            }
            assert(sys.stargates@.take(j as int) =~= sys.stargates@);
            let ghost before_edges = edges@;
            edges.push(out);
            assert(forall|w: int| 0 <= w < u ==> edges@[w] == before_edges[w]);
            u = u + 1;
        }
        proof {
            assert(ids@.no_duplicates()) by {
                assert forall|a: int, b: int| 0 <= a < ids@.len() && 0 <= b < ids@.len() && a != b
                    implies ids@[a] != ids@[b] by {
                    assert(index@.contains_key(ids@[a]) && index@[ids@[a]] == a);
                    assert(index@.contains_key(ids@[b]) && index@[ids@[b]] == b);
                }
            }
            assert forall|k: int| 0 <= k < systems@.len() implies ids@.contains(#[trigger] systems@[k].id) by {
                assert(index@.contains_key(systems@[k].id));
                assert(ids@[index@[systems@[k].id] as int] == systems@[k].id);
            }
            let g = TravelGraph { ids, risks, edges };
            assert forall|u: int| 0 <= u < g.n() implies #[trigger] built_from(systems@, g, u) by {
                assert(systems@[firsts@[u] as int].id == ids@[u]);
                assert(edges_match(edges@[u]@, systems@[firsts@[u] as int].stargates@, ids@));
            }
        }
        TravelGraph { ids, risks, edges }
    }

    /// The index of the location with identifier `id`.
    pub fn index_of(&self, id: u32) -> (r: Option<usize>)
        requires
            self.wf(),
        ensures
            r matches Some(u) ==> u < self.n() && self.ids@[u as int] == id,
            r is None ==> !self.ids@.contains(id),
    {
        let mut u: usize = 0;
        while u < self.ids.len()
            invariant
                u <= self.ids@.len(),
                forall|w: int| 0 <= w < u ==> self.ids@[w] != id,
            decreases self.ids@.len() - u,
        {
            if self.ids[u] == id {
                return Some(u);
            }
            u = u + 1;
        }
        None
    }
}

/// A location as read from the universe data, before its connections are built.
#[derive(Clone, Debug)]
pub struct SystemRecord {
    pub id: u32,
    pub name: String,
    pub security_status: i32,
}

/// The risk score of location `id` in the batch: its first record.
pub open spec fn security_of(records: Seq<SystemRecord>, id: u32) -> Option<i32>
    decreases records.len(),
{
    if records.len() == 0 {
        None
    } else if records[0].id == id {
        Some(records[0].security_status)
    } else {
        security_of(records.drop_first(), id)
    }
}

/// The connections out of `origin`, in the order of `gates` (pairs of origin
/// and destination), each weighted by its destination's risk score; a
/// connection whose destination has no record is dropped.
pub open spec fn gates_of(gates: Seq<(u32, u32)>, origin: u32, records: Seq<SystemRecord>) -> Seq<Stargate>
    decreases gates.len(),
{
    if gates.len() == 0 {
        Seq::empty()
    } else {
        let rest = gates_of(gates.drop_last(), origin, records);
        let (o, d) = gates.last();
        if o == origin && security_of(records, d) is Some {
            rest.push(
                Stargate { origin, destination: d, weight: jump_cost(security_of(records, d).unwrap() as int) as u32 },
            )
        } else {
            rest
        }
    }
}

/// The risk score of location `id` in the batch.
pub fn find_security(records: &Vec<SystemRecord>, id: u32) -> (r: Option<i32>)
    ensures
        r == security_of(records@, id),
{
    let mut i: usize = 0;
    assert(records@.skip(0) =~= records@);
    while i < records.len()
        invariant
            i <= records@.len(),
            security_of(records@, id) == security_of(records@.skip(i as int), id),
        decreases records@.len() - i,
    {
        assert(records@.skip(i as int).drop_first() =~= records@.skip(i + 1));
        if records[i].id == id {
            return Some(records[i].security_status);
        }
        i = i + 1;
    }
    None
}

/// Builds the locations of a batch: each record with its outgoing connections,
/// weighted by destination risk (see `stargate_weight`).
pub fn build_systems(records: &Vec<SystemRecord>, gates: &Vec<(u32, u32)>) -> (systems: Vec<System>)
    ensures
        systems@.len() == records@.len(),
        forall|k: int| #![trigger systems@[k]]
            0 <= k < systems@.len() ==> {
                &&& systems@[k].id == records@[k].id
                &&& systems@[k].name@ == records@[k].name@
                &&& systems@[k].security_status == records@[k].security_status
                &&& systems@[k].stargates@ == gates_of(gates@, records@[k].id, records@)
            },
{
    let mut systems: Vec<System> = Vec::new();
    let mut k: usize = 0;
    while k < records.len()
        invariant
            k <= records@.len(),
            systems@.len() == k,
            forall|m: int| #![trigger systems@[m]]
                0 <= m < k ==> {
                    &&& systems@[m].id == records@[m].id
                    &&& systems@[m].name@ == records@[m].name@
                    &&& systems@[m].security_status == records@[m].security_status
                    &&& systems@[m].stargates@ == gates_of(gates@, records@[m].id, records@)
                },
        decreases records@.len() - k,
    {
        let id = records[k].id;
        let mut out: Vec<Stargate> = Vec::new();
        let mut j: usize = 0;
        while j < gates.len()
            invariant
                j <= gates@.len(),
                out@ == gates_of(gates@.take(j as int), id, records@),
            decreases gates@.len() - j,
        {
            let (o, d) = gates[j];
            assert(gates@.take(j + 1).drop_last() =~= gates@.take(j as int));
            if o == id {
                match find_security(records, d) {
                    Some(sec) => {
                        out.push(Stargate { origin: id, destination: d, weight: stargate_weight(sec) });
                    },
                    None => {},
                }
            }
            j = j + 1;
        }
        assert(gates@.take(j as int) =~= gates@);
        let name = records[k].name.clone();
        systems.push(System { id, name, security_status: records[k].security_status, stargates: out });
        k = k + 1;
    }
    systems
}

} // verus!
