use evetrade::errors::{ESIError, EvetradeError};
use evetrade::route::Route;
use evetrade::settings::{LogLevel, Settings};
use evetrade::types::{Order, System, Type};
use evetrade::urls::{get_esi_scrape_url, get_gatecamp_url, get_market_browser_url, get_market_data_url};

fn order(is_buy: bool, price: u64, volume: u32) -> Order {
    Order { is_buy_order: is_buy, type_id: 34, price, station_id: 1, system_id: 1, region_id: 1, volume }
}

#[test]
fn one_buy_one_sell_profit() {
    let mut r = Route::new();
    r.add_order(order(false, 150, 7));
    r.add_systems(vec![1, 2, 3]);
    r.add_order(order(true, 400, 7));
    assert_eq!(r.get_profit(), 7 * 400 - 7 * 150);
    assert_eq!(r.get_jumps(), 3);
    assert_eq!(r.get_profit_per_jump(), 583);
}

#[test]
fn profit_cache_follows_changes() {
    let mut r = Route::new();
    r.add_order(order(false, 10, 1));
    assert_eq!(r.get_profit(), -10);
    r.add_order(order(true, 25, 1));
    assert_eq!(r.get_profit(), 15);
    assert_eq!(r.get_profit_per_jump(), 0);
    r.add_systems(vec![9, 8]);
    assert_eq!(r.get_profit_per_jump(), 8);
}

#[test]
fn negative_profit_per_jump_rounds_away_from_zero() {
    let mut r = Route::new();
    r.add_order(order(false, 5, 1));
    r.add_systems(vec![1, 2]);
    assert_eq!(r.get_profit_per_jump(), -3);
}

#[test]
fn sort_routes_by_profit_descending() {
    let mk = |sell: u64| {
        let mut r = Route::new();
        r.add_order(order(false, 100, 1));
        r.add_systems(vec![1]);
        r.add_order(order(true, sell, 1));
        r
    };
    let mut routes = vec![mk(150), mk(300), mk(120), mk(300)];
    Route::sort_routes(&mut routes);
    let profits: Vec<i128> = routes.iter_mut().map(|r| r.get_profit()).collect();
    assert_eq!(profits, vec![200, 200, 50, 20]);
}

#[test]
fn represent_lists_the_route() {
    let mut r = Route::new();
    r.add_order(order(false, 10000, 10));
    r.add_systems(vec![2, 3]);
    r.add_order(order(true, 20000, 10));
    let systems = vec![
        System { id: 2, name: "Bravo".to_string(), security_status: 50, stargates: vec![] },
        System { id: 3, name: "Charlie".to_string(), security_status: -50, stargates: vec![] },
    ];
    let types = vec![Type { type_id: 34, group_id: 18, name: "Tritanium".to_string(), volume: 10 }];
    let text = r.represent(&systems, &types);
    assert!(text.contains("\t1. Bravo (0.50) ->\n"));
    assert!(text.contains("\t2. Charlie (-0.50) ->\n"));
    assert!(text.contains("Sell order for 10 of Tritanium (1000.00 ISK)."));
    assert!(text.contains("Buy order for 10 of Tritanium (2000.00 ISK)."));
    assert!(text.contains("Eve Market Browser: https://evemarketbrowser.com/region/0/type/34"));
    assert!(text.contains("Eve Gatecamp Check: https://eve-gatecheck.space/eve/#2,3:secure"));
    assert!(text.contains("Total jumps: 2"));
    assert!(text.contains("Total profit: 1000.00"));
    assert!(text.contains("Profit per jump: 500.00"));
    assert_eq!(Route::new().represent(&systems, &types), "");
}

#[test]
fn market_browser_link() {
    assert_eq!(get_market_browser_url(34), "https://evemarketbrowser.com/region/0/type/34");
    assert_eq!(get_market_browser_url(0), "https://evemarketbrowser.com/region/0/type/0");
}

#[test]
fn gatecamp_links() {
    assert_eq!(get_gatecamp_url(vec![1, 2, 3], "secure"), "https://eve-gatecheck.space/eve/#1:2,3:secure");
    assert_eq!(get_gatecamp_url(vec![30000142, 30000144], "fast"), "https://eve-gatecheck.space/eve/#30000142,30000144:fast");
    assert_eq!(get_gatecamp_url(vec![5], "secure"), "");
    assert_eq!(get_gatecamp_url(vec![], "secure"), "");
}

#[test]
fn data_links() {
    assert_eq!(get_esi_scrape_url(), "https://data.everef.net/esi-scrape/eve-ref-esi-scrape-latest.tar.xz");
    assert_eq!(get_market_data_url(), "https://data.everef.net/market-orders/market-orders-latest.v3.csv.bz2");
}

#[test]
fn default_settings() {
    let mut s = Settings::new();
    assert_eq!(s.get_percentage_treshold(), 10);
    assert_eq!(s.get_ship_cargo_volume(), 6_300_000);
    assert_eq!(s.get_max_jumps(), 100);
    assert_eq!(s.get_initial_capital(), 5_000_000_000);
    assert_eq!(s.get_security_treshold(), -100);
    assert_eq!(s.get_max_routes(), 10);
    assert!(!s.get_update_universe_data());
    assert_eq!(s.get_level(), LogLevel::Debug);
    s.set_level(LogLevel::Warn);
    assert_eq!(s.get_level(), LogLevel::Warn);
}

#[test]
fn error_descriptions() {
    assert_eq!(ESIError::RequestError.describe(), "Request error");
    assert_eq!(ESIError::IoError("gone".to_string()).describe(), "IO error: gone");
    assert_eq!(ESIError::InvalidData.describe(), "Invalid data");
    assert_eq!(EvetradeError::ESIError.describe(), "Failed to perform API requests!");
    assert_eq!(EvetradeError::IOError.describe(), "Failed to save routes!");
}
