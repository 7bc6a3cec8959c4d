use vstd::prelude::*;

verus! {

/// How much the program reports while it runs.
#[derive(Clone, Copy, Debug, PartialEq, Eq, Structural)]
pub enum LogLevel {
    Error,
    Warn,
    Info,
    Debug,
    Trace,
}

/// The configuration of one search, passed explicitly to every component.
///
/// Units: `percentage_treshold` in percent, `ship_cargo_volume` in thousandths
/// of a cubic metre, `initial_capital` in hundredths of the currency,
/// `security_treshold` in hundredths of security status.
#[derive(Clone, Copy, Debug)]
pub struct Settings {
    pub log_level: LogLevel,
    pub update_universe_data: bool,
    pub percentage_treshold: u32,
    pub ship_cargo_volume: u64,
    pub max_jumps: u16,
    pub initial_capital: u64,
    pub security_treshold: i32,
    pub max_routes: usize,
}

impl Settings {
    pub open spec fn level(&self) -> LogLevel {
        self.log_level
    }

    pub open spec fn margin(&self) -> u32 {
        self.percentage_treshold
    }

    pub open spec fn cargo(&self) -> u64 {
        self.ship_cargo_volume
    }

    pub open spec fn jump_budget(&self) -> u16 {
        self.max_jumps
    }

    pub open spec fn capital(&self) -> u64 {
        self.initial_capital
    }

    pub open spec fn min_risk(&self) -> i32 {
        self.security_treshold
    }

    pub open spec fn route_limit(&self) -> usize {
        self.max_routes
    }

    /// The default configuration: 10% margin, 6300 m3 of cargo, 100 jumps,
    /// 50,000,000.00 of capital, no security limit, ten routes.
    pub fn new() -> (s: Self)
        ensures
            s.level() == LogLevel::Debug,
            !s.update_universe_data,
            s.margin() == 10,
            s.cargo() == 6_300_000,
            s.jump_budget() == 100,
            s.capital() == 5_000_000_000,
            s.min_risk() == -100,
            s.route_limit() == 10,
    {
        Settings {
            log_level: LogLevel::Debug,
            update_universe_data: false,
            percentage_treshold: 10,
            ship_cargo_volume: 6_300_000,
            max_jumps: 100,
            initial_capital: 5_000_000_000,
            security_treshold: -100,
            max_routes: 10,
        }
    }

    /// A configuration with the given search parameters and the default
    /// logging choices.
    pub fn with_values(
        percentage_treshold: u32,
        ship_cargo_volume: u64,
        max_jumps: u16,
        initial_capital: u64,
        security_treshold: i32,
        max_routes: usize,
    ) -> (s: Self)
        ensures
            s.level() == LogLevel::Debug,
            !s.update_universe_data,
            s.margin() == percentage_treshold,
            s.cargo() == ship_cargo_volume,
            s.jump_budget() == max_jumps,
            s.capital() == initial_capital,
            s.min_risk() == security_treshold,
            s.route_limit() == max_routes,
    {
        Settings {
            log_level: LogLevel::Debug,
            update_universe_data: false,
            percentage_treshold,
            ship_cargo_volume,
            max_jumps,
            initial_capital,
            security_treshold,
            max_routes,
        }
    }

    pub fn get_level(&self) -> (r: LogLevel)
        ensures
            r == self.level(),
    {
        self.log_level
    }

    pub fn get_update_universe_data(&self) -> (r: bool)
        ensures
            r == self.update_universe_data,
    {
        self.update_universe_data
    }

    pub fn get_percentage_treshold(&self) -> (r: u32)
        ensures
            r == self.margin(),
    {
        self.percentage_treshold
    }

    pub fn get_max_jumps(&self) -> (r: u16)
        ensures
            r == self.jump_budget(),
    {
        self.max_jumps
    }

    pub fn get_ship_cargo_volume(&self) -> (r: u64)
        ensures
            r == self.cargo(),
    {
        self.ship_cargo_volume
    }

    pub fn get_initial_capital(&self) -> (r: u64)
        ensures
            r == self.capital(),
    {
        self.initial_capital
    }

    pub fn get_security_treshold(&self) -> (r: i32)
        ensures
            r == self.min_risk(),
    {
        self.security_treshold
    }

    pub fn get_max_routes(&self) -> (r: usize)
        ensures
            r == self.route_limit(),
    {
        self.max_routes
    }

    pub fn set_level(&mut self, value: LogLevel)
        ensures
            *final(self) == (Settings { log_level: value, ..*old(self) }),
    {
        self.log_level = value;
    }

    pub fn set_update_universe_data(&mut self, value: bool)
        ensures
            *final(self) == (Settings { update_universe_data: value, ..*old(self) }),
    {
        self.update_universe_data = value;
    }
}

} // verus!
