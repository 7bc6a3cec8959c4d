use evetrade::book::{group_orders, prune_group, sort_orders, truncate_unprofitable, Removal};
use evetrade::graph::{build_systems, stargate_weight, SystemRecord, TravelGraph};
use evetrade::pathfinder::shortest_path;
use evetrade::processor::{prune_groups, OrderProcessor};
use evetrade::search::{calculate_max_units, find_routes, try_extend};
use evetrade::settings::Settings;
use evetrade::types::{Order, OrderGroup, Stargate, System, TradeCandidate, Type, Waypoint};

fn order(is_buy: bool, type_id: u32, price: u64, system_id: u32, volume: u32) -> Order {
    Order {
        is_buy_order: is_buy,
        type_id,
        price,
        station_id: 1,
        system_id,
        region_id: 1,
        volume,
    }
}

fn system(id: u32, name: &str, security: i32, gates: &[(u32, u32)]) -> System {
    System {
        id,
        name: name.to_string(),
        security_status: security,
        stargates: gates
            .iter()
            .map(|&(d, w)| Stargate { origin: id, destination: d, weight: w })
            .collect(),
    }
}

fn commodity(type_id: u32, volume: u64) -> Type {
    Type { type_id, group_id: 1, name: format!("T{}", type_id), volume }
}

/// A (0.9) -> B (0.5) cost 2, B -> C (-0.5) cost 8.
fn three_systems() -> Vec<System> {
    vec![
        system(1, "A", 90, &[(2, 2)]),
        system(2, "B", 50, &[(3, 8)]),
        system(3, "C", -50, &[]),
    ]
}

fn example_processor(capital: u64) -> OrderProcessor {
    let orders = vec![order(false, 7, 100, 1, 10), order(true, 7, 200, 3, 10)];
    let settings = Settings::with_values(10, 100_000, 2, capital, -50, 10);
    OrderProcessor::new(&orders, &three_systems(), vec![commodity(7, 1000)], settings)
}

#[test]
fn end_to_end_single_route() {
    let mut p = example_processor(1000);
    let mut routes = p.compute();
    assert_eq!(routes.len(), 1);
    let r = &mut routes[0];
    assert_eq!(r.get_profit(), 1000);
    assert_eq!(r.get_jumps(), 2);
    assert_eq!(r.get_profit_per_jump(), 500);
    let expected = vec![
        Waypoint::Order(order(false, 7, 100, 1, 10)),
        Waypoint::System(2),
        Waypoint::System(3),
        Waypoint::Order(order(true, 7, 200, 3, 10)),
    ];
    assert_eq!(r.get_path(), &expected);
}

#[test]
fn insufficient_capital_gives_no_routes() {
    let mut p = example_processor(99);
    assert_eq!(p.compute().len(), 0);
}

#[test]
fn search_is_deterministic() {
    let run = || {
        let mut p = example_processor(5000);
        p.compute().iter().map(|r| r.get_path().clone()).collect::<Vec<_>>()
    };
    assert_eq!(run(), run());
}

#[test]
fn jump_budget_too_small_gives_no_routes() {
    let orders = vec![order(false, 7, 100, 1, 10), order(true, 7, 200, 3, 10)];
    let settings = Settings::with_values(10, 100_000, 1, 1000, -50, 10);
    let mut p = OrderProcessor::new(&orders, &three_systems(), vec![commodity(7, 1000)], settings);
    assert_eq!(p.compute().len(), 0);
}

#[test]
fn routes_respect_budget_and_visit_once() {
    let systems = vec![
        system(1, "A", 90, &[(2, 1), (3, 1)]),
        system(2, "B", 50, &[(1, 1), (3, 1), (4, 1)]),
        system(3, "C", 40, &[(2, 1), (4, 1)]),
        system(4, "D", 30, &[(1, 1)]),
    ];
    let orders = vec![
        order(false, 7, 100, 1, 50),
        order(true, 7, 150, 3, 50),
        order(false, 8, 10, 3, 100),
        order(true, 8, 20, 4, 100),
        order(true, 7, 130, 4, 50),
        order(false, 8, 12, 2, 100),
        order(true, 8, 30, 1, 100),
    ];
    let types = vec![commodity(7, 1000), commodity(8, 1000)];
    let settings = Settings::with_values(10, 1_000_000, 3, 10_000, -100, 10);
    let mut p = OrderProcessor::new(&orders, &systems, types, settings);
    let mut routes = p.compute();
    assert!(!routes.is_empty());
    for r in routes.iter_mut() {
        assert!(r.get_jumps() <= 3);
        let ids: Vec<u32> = r
            .get_path()
            .iter()
            .filter_map(|w| match w {
                Waypoint::System(id) => Some(*id),
                _ => None,
            })
            .collect();
        let mut sorted = ids.clone();
        sorted.sort();
        sorted.dedup();
        assert_eq!(sorted.len(), ids.len());
        assert_eq!(ids.len(), r.get_jumps());
    }
}

#[test]
fn route_limit_is_respected() {
    let settings = Settings::with_values(10, 100_000, 2, 1000, -50, 0);
    let orders = vec![order(false, 7, 100, 1, 10), order(true, 7, 200, 3, 10)];
    let mut p = OrderProcessor::new(&orders, &three_systems(), vec![commodity(7, 1000)], settings);
    assert_eq!(p.compute().len(), 0);
}

fn five_graph(risk_of_c: i32) -> TravelGraph {
    let systems = vec![
        system(10, "A", 50, &[(11, 1), (12, 2), (14, 20)]),
        system(11, "B", 50, &[(14, 10)]),
        system(12, "C", risk_of_c, &[(13, 2)]),
        system(13, "D", 50, &[(14, 2)]),
        system(14, "E", 50, &[]),
    ];
    TravelGraph::from_systems(&systems)
}

#[test]
fn shortest_path_picks_cheapest() {
    let g = five_graph(50);
    assert_eq!(shortest_path(&g, 0, 4, -100), Some(vec![0, 2, 3, 4]));
}

#[test]
fn shortest_path_avoids_risky_locations() {
    let g = five_graph(-80);
    assert_eq!(shortest_path(&g, 0, 4, 0), Some(vec![0, 1, 4]));
}

#[test]
fn shortest_path_to_itself() {
    let g = five_graph(50);
    assert_eq!(shortest_path(&g, 3, 3, 100), Some(vec![3]));
}

#[test]
fn shortest_path_unreachable() {
    let g = five_graph(50);
    assert_eq!(shortest_path(&g, 4, 0, -100), None);
}

#[test]
fn shortest_path_filtered_destination() {
    let g = five_graph(-80);
    assert_eq!(shortest_path(&g, 0, 2, 0), None);
}

#[test]
fn stargate_weights() {
    assert_eq!(stargate_weight(-100), 10);
    assert_eq!(stargate_weight(100), 1);
    assert_eq!(stargate_weight(0), 6);
    assert_eq!(stargate_weight(50), 4);
    assert_eq!(stargate_weight(-50), 8);
    assert_eq!(stargate_weight(-500), 10);
    assert_eq!(stargate_weight(500), 1);
}

#[test]
fn build_systems_weights_and_drops_unknown() {
    let records = vec![
        SystemRecord { id: 1, name: "A".to_string(), security_status: 90 },
        SystemRecord { id: 2, name: "B".to_string(), security_status: -100 },
    ];
    let gates = vec![(1, 2), (1, 99), (2, 1)];
    let systems = build_systems(&records, &gates);
    assert_eq!(systems.len(), 2);
    assert_eq!(systems[0].stargates, vec![Stargate { origin: 1, destination: 2, weight: 10 }]);
    assert_eq!(systems[1].stargates, vec![Stargate { origin: 2, destination: 1, weight: 2 }]);
    assert_eq!(systems[1].name, "B");
}

#[test]
fn graph_skips_repeated_ids_and_unknown_destinations() {
    let systems = vec![
        system(1, "A", 10, &[(2, 3), (9, 1)]),
        system(2, "B", 20, &[]),
        system(1, "A2", 30, &[]),
    ];
    let g = TravelGraph::from_systems(&systems);
    assert_eq!(g.ids, vec![1, 2]);
    assert_eq!(g.risks, vec![10, 20]);
    assert_eq!(g.edges[0].len(), 1);
    assert_eq!(g.edges[0][0].to, 1);
    assert_eq!(g.edges[0][0].cost, 3);
    assert_eq!(g.index_of(2), Some(1));
    assert_eq!(g.index_of(5), None);
}

#[test]
fn sorting_orders_is_stable() {
    let mut v = vec![
        order(true, 1, 5, 1, 1),
        order(true, 1, 9, 2, 1),
        order(true, 1, 5, 3, 1),
        order(true, 1, 7, 4, 1),
    ];
    sort_orders(&mut v, true);
    let ids: Vec<u32> = v.iter().map(|o| o.system_id).collect();
    assert_eq!(ids, vec![2, 4, 1, 3]);
    sort_orders(&mut v, false);
    let ids: Vec<u32> = v.iter().map(|o| o.system_id).collect();
    assert_eq!(ids, vec![1, 3, 4, 2]);
}

#[test]
fn truncation_stops_at_first_unprofitable_pair() {
    let mut g = OrderGroup {
        type_id: 1,
        volume: 1,
        buy: vec![order(true, 1, 200, 1, 1), order(true, 1, 150, 1, 1), order(true, 1, 105, 1, 1)],
        sell: vec![order(false, 1, 100, 1, 1), order(false, 1, 120, 1, 1), order(false, 1, 130, 1, 1)],
    };
    truncate_unprofitable(&mut g, 10);
    assert_eq!(g.buy.len(), 2);
    assert_eq!(g.sell.len(), 2);
}

#[test]
fn preprocessing_sorts_and_prunes() {
    let orders = vec![
        order(true, 1, 105, 1, 1),
        order(false, 1, 130, 1, 1),
        order(true, 1, 200, 1, 1),
        order(false, 1, 100, 1, 1),
        order(true, 1, 150, 1, 1),
        order(false, 1, 120, 1, 1),
    ];
    let groups = group_orders(&orders);
    assert_eq!(groups.len(), 1);
    let types = vec![commodity(1, 10)];
    let settings = Settings::with_values(10, 100, 5, 1000, -100, 10);
    let (kept, stats) = prune_groups(groups, &types, &settings);
    assert_eq!(kept.len(), 1);
    let prices: Vec<u64> = kept[0].buy.iter().map(|o| o.price).collect();
    assert_eq!(prices, vec![200, 150]);
    let prices: Vec<u64> = kept[0].sell.iter().map(|o| o.price).collect();
    assert_eq!(prices, vec![100, 120]);
    assert_eq!(kept[0].volume, 10);
    assert_eq!(stats.initial_types, 1);
    assert_eq!(stats.final_types, 1);
}

#[test]
fn preprocessing_removal_reasons() {
    let types = vec![commodity(1, 10), commodity(2, 1000)];
    let settings = Settings::with_values(10, 100, 5, 1000, -100, 10);
    let empty = OrderGroup { type_id: 1, volume: 0, buy: vec![], sell: vec![order(false, 1, 1, 1, 1)] };
    assert!(matches!(prune_group(empty, &types, &settings), Err(Removal::Empty)));
    let unknown = OrderGroup {
        type_id: 3,
        volume: 0,
        buy: vec![order(true, 3, 200, 1, 1)],
        sell: vec![order(false, 3, 100, 1, 1)],
    };
    assert!(matches!(prune_group(unknown, &types, &settings), Err(Removal::Unknown)));
    let bulky = OrderGroup {
        type_id: 2,
        volume: 0,
        buy: vec![order(true, 2, 200, 1, 1)],
        sell: vec![order(false, 2, 100, 1, 1)],
    };
    assert!(matches!(prune_group(bulky, &types, &settings), Err(Removal::Volume)));
    let flat = OrderGroup {
        type_id: 1,
        volume: 0,
        buy: vec![order(true, 1, 105, 1, 1)],
        sell: vec![order(false, 1, 100, 1, 1)],
    };
    assert!(matches!(prune_group(flat, &types, &settings), Err(Removal::Unprofitable)));
}

#[test]
fn grouping_keeps_first_appearance_order() {
    let orders = vec![
        order(true, 5, 1, 1, 1),
        order(false, 3, 2, 1, 1),
        order(false, 5, 3, 1, 1),
        order(true, 5, 4, 1, 1),
    ];
    let groups = group_orders(&orders);
    assert_eq!(groups.len(), 2);
    assert_eq!(groups[0].type_id, 5);
    assert_eq!(groups[0].buy.len(), 2);
    assert_eq!(groups[0].sell.len(), 1);
    assert_eq!(groups[1].type_id, 3);
    assert_eq!(groups[1].sell[0].price, 2);
}

#[test]
fn max_units_takes_the_smallest_limit() {
    let ask = order(false, 1, 100, 1, 50);
    assert_eq!(calculate_max_units(1000, 100, 1_000_000, &ask), 10);
    assert_eq!(calculate_max_units(1_000_000, 100, 2_500, &ask), 25);
    assert_eq!(calculate_max_units(1_000_000, 100, 1_000_000, &ask), 50);
    assert_eq!(calculate_max_units(1_000_000, 0, 1_000_000, &ask), 50);
    assert_eq!(calculate_max_units(1_000_000, 100, 99, &ask), 0);
}

#[test]
fn find_routes_on_empty_books() {
    let g = TravelGraph::from_systems(&three_systems());
    let settings = Settings::with_values(10, 100_000, 2, 1000, -50, 10);
    assert!(find_routes(&g, &vec![], &settings).is_empty());
}

#[test]
fn all_destinations_from_one_origin() {
    let g = five_graph(50);
    let all = evetrade::pathfinder::shortest_paths(&g, 0, -100);
    assert_eq!(all.len(), 5);
    assert_eq!(all[0], Some(vec![0]));
    assert_eq!(all[1], Some(vec![0, 1]));
    assert_eq!(all[3], Some(vec![0, 2, 3]));
    assert_eq!(all[4], Some(vec![0, 2, 3, 4]));
}

#[test]
fn long_chain_is_followed_to_the_end() {
    let systems: Vec<System> = (1..=8)
        .map(|id| {
            let gates: Vec<(u32, u32)> = if id < 8 { vec![(id + 1, 3)] } else { vec![] };
            system(id, "S", 50, &gates)
        })
        .collect();
    let g = TravelGraph::from_systems(&systems);
    assert_eq!(shortest_path(&g, 0, 7, -100), Some((0..8).collect::<Vec<usize>>()));
    assert_eq!(shortest_path(&g, 7, 0, -100), None);
}

#[test]
fn one_step_extension() {
    let g = TravelGraph::from_systems(&three_systems());
    let paths = evetrade::pathfinder::shortest_paths(&g, 0, -50);
    let seed = TradeCandidate {
        profit_per_jump: 0,
        system_id: 0,
        capital: 1000,
        waypoints: vec![],
        visited: vec![true, false, false],
        jumps: 0,
    };
    let ask = order(false, 7, 100, 1, 25);
    let bid = order(true, 7, 200, 3, 40);
    let settings = Settings::with_values(10, 100_000, 2, 1000, -50, 10);
    let d = try_extend(&g, &settings, &seed, ask, bid, 10, 2, &paths).unwrap();
    assert_eq!(
        d.waypoints,
        vec![
            Waypoint::Order(order(false, 7, 100, 1, 10)),
            Waypoint::System(2),
            Waypoint::System(3),
            Waypoint::Order(order(true, 7, 200, 3, 10)),
        ]
    );
    assert_eq!(d.jumps, 2);
    assert_eq!(d.capital, 2000);
    assert_eq!(d.profit_per_jump, 500);
    assert_eq!(d.system_id, 2);
    assert_eq!(d.visited, vec![true, true, true]);

    let tight = Settings::with_values(10, 100_000, 1, 1000, -50, 10);
    assert!(try_extend(&g, &tight, &seed, ask, bid, 10, 2, &paths).is_none());
    let greedy = Settings::with_values(150, 100_000, 2, 1000, -50, 10);
    assert!(try_extend(&g, &greedy, &seed, ask, bid, 10, 2, &paths).is_none());
    assert!(try_extend(&g, &settings, &seed, ask, bid, 11, 2, &paths).is_none());
    let been_there = TradeCandidate { visited: vec![true, true, false], ..seed };
    assert!(try_extend(&g, &settings, &been_there, ask, bid, 10, 2, &paths).is_none());
}

#[test]
fn no_capital_buys_nothing() {
    let free = order(false, 1, 0, 1, 5);
    assert_eq!(calculate_max_units(1_000_000, 100, 0, &free), 0);
    assert_eq!(calculate_max_units(1_000_000, 100, 1, &free), 5);
}

#[test]
fn preprocessing_counts_removals_by_reason() {
    let orders = vec![
        order(true, 1, 200, 1, 1),
        order(false, 1, 100, 1, 1),
        order(true, 2, 200, 1, 1),
        order(true, 3, 200, 1, 1),
        order(false, 3, 100, 1, 1),
        order(true, 4, 200, 1, 1),
        order(false, 4, 100, 1, 1),
        order(true, 5, 105, 1, 1),
        order(false, 5, 100, 1, 1),
    ];
    let types = vec![commodity(1, 10), commodity(2, 10), commodity(4, 1000), commodity(5, 10)];
    let settings = Settings::with_values(10, 100, 5, 1000, -100, 10);
    let (kept, stats) = prune_groups(group_orders(&orders), &types, &settings);
    assert_eq!(kept.len(), 1);
    assert_eq!(stats.removed_empty, 1);
    assert_eq!(stats.removed_unknown, 1);
    assert_eq!(stats.removed_volume, 1);
    assert_eq!(stats.removed_unprofitable, 1);
    assert_eq!(stats.final_types, 1);
}

#[test]
fn preprocessing_twice_changes_nothing() {
    let orders = vec![
        order(true, 1, 150, 2, 1),
        order(false, 1, 100, 1, 1),
        order(true, 1, 150, 1, 1),
        order(true, 1, 200, 3, 1),
        order(false, 1, 100, 2, 1),
    ];
    let settings = Settings::with_values(10, 100, 5, 1000, -100, 10);
    let mut p = OrderProcessor::new(&orders, &three_systems(), vec![commodity(1, 10)], settings);
    p.preprocess_orders();
    let first: Vec<Vec<Order>> = p.orders.iter().map(|g| [g.buy.clone(), g.sell.clone()].concat()).collect();
    let stats = p.preprocess_orders();
    let second: Vec<Vec<Order>> = p.orders.iter().map(|g| [g.buy.clone(), g.sell.clone()].concat()).collect();
    assert_eq!(first, second);
    assert_eq!(stats.final_types, stats.initial_types);
    let bid_places: Vec<u32> = p.orders[0].buy.iter().map(|o| o.system_id).collect();
    assert_eq!(bid_places, vec![3, 2, 1]);
}
