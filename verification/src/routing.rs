//! Decisions of the route request: which engine is called, which range preset
//! applies, and what follows each engine answer (one relaxed retry when no route
//! exists through the avoidance zones).
use vstd::prelude::*;
use crate::error::AppError;
use crate::text::{contains_str, str_equals, string_of};
#[allow(unused_imports)]
use crate::text::{contains_text, occurs_at};

verus! {

/// Service configuration.
pub struct Config {
    /// OpenRouteService key: the engine used when no Valhalla server is set.
    pub ors_api_key: String,
    pub admin_token: String,
    pub port: u16,
    /// Base URL of a self-hosted Valhalla server; it takes precedence when set.
    pub valhalla_url: String,
}

/// The routing engine a request goes to.
pub enum Engine {
    Valhalla,
    Ors,
}

impl Config {
    /// Valhalla when its URL is set, ORS otherwise.
    pub fn engine(&self) -> (e: Engine)
        ensures
            (e is Valhalla) == (self.valhalla_url@.len() > 0),
    {
        if self.valhalla_url.as_str().is_empty() {
            Engine::Ors
        } else {
            Engine::Valhalla
        }
    }

    /// Refuses a route request when no engine is configured at all.
    pub fn check_router_configured(&self) -> (r: Result<(), AppError>)
        ensures
            (r is Ok) == (self.valhalla_url@.len() > 0 || self.ors_api_key@.len() > 0),
            r matches Err(e) ==> e matches AppError::BadRequest(m)
                && m@ == "VALHALLA_URL ou ORS_API_KEY requis — configurer dans .env"@,
    {
        if self.valhalla_url.as_str().is_empty() && self.ors_api_key.as_str().is_empty() {
            Err(
                AppError::BadRequest(
                    string_of("VALHALLA_URL ou ORS_API_KEY requis — configurer dans .env"),
                ),
            )
        } else {
            Ok(())
        }
    }
}

/// The engine's error means "no route found": Valhalla code 442, ORS code 2010.
pub open spec fn no_route_error(msg: Seq<char>, valhalla: bool) -> bool {
    if valhalla {
        contains_text(msg, "442"@)
    } else {
        contains_text(msg, "2010"@)
    }
}

/// The engine's error is a "no route" error exactly when its message holds the
/// engine's code somewhere (Valhalla 442, ORS 2010), whatever else it says.
pub proof fn law_no_route_is_the_code(msg: Seq<char>, valhalla: bool)
    ensures
        valhalla ==> (no_route_error(msg, valhalla) <==> exists|k: int|
            #![trigger msg[k]]
            0 <= k && k + 3 <= msg.len() && msg[k] == '4' && msg[k + 1] == '4' && msg[k + 2] == '2'),
        !valhalla ==> (no_route_error(msg, valhalla) <==> exists|k: int|
            #![trigger msg[k]]
            0 <= k && k + 4 <= msg.len() && msg[k] == '2' && msg[k + 1] == '0' && msg[k + 2] == '1'
                && msg[k + 3] == '0'),
{
    reveal_strlit("442");
    reveal_strlit("2010");
    let c442 = seq!['4', '4', '2'];
    let c2010 = seq!['2', '0', '1', '0'];
    assert("442"@ =~= c442);
    assert("2010"@ =~= c2010);
    if valhalla {
        if no_route_error(msg, valhalla) {
            let k = choose|k: int| #[trigger] occurs_at(msg, "442"@, k);
            assert(msg.subrange(k, k + 3)[0] == msg[k]);
            assert(msg.subrange(k, k + 3)[1] == msg[k + 1]);
            assert(msg.subrange(k, k + 3)[2] == msg[k + 2]);
        }
        if exists|k: int|
            #![trigger msg[k]]
            0 <= k && k + 3 <= msg.len() && msg[k] == '4' && msg[k + 1] == '4' && msg[k + 2] == '2' {
            let k = choose|k: int|
                #![trigger msg[k]]
                0 <= k && k + 3 <= msg.len() && msg[k] == '4' && msg[k + 1] == '4' && msg[k + 2] == '2';
            assert(msg.subrange(k, k + 3) =~= c442);
            assert(occurs_at(msg, "442"@, k));
        }
    } else {
        if no_route_error(msg, valhalla) {
            let k = choose|k: int| #[trigger] occurs_at(msg, "2010"@, k);
            assert(msg.subrange(k, k + 4)[0] == msg[k]);
            assert(msg.subrange(k, k + 4)[1] == msg[k + 1]);
            assert(msg.subrange(k, k + 4)[2] == msg[k + 2]);
            assert(msg.subrange(k, k + 4)[3] == msg[k + 3]);
        }
        if exists|k: int|
            #![trigger msg[k]]
            0 <= k && k + 4 <= msg.len() && msg[k] == '2' && msg[k + 1] == '0' && msg[k + 2] == '1'
                && msg[k + 3] == '0' {
            let k = choose|k: int|
                #![trigger msg[k]]
                0 <= k && k + 4 <= msg.len() && msg[k] == '2' && msg[k + 1] == '0' && msg[k + 2] == '1'
                    && msg[k + 3] == '0';
            assert(msg.subrange(k, k + 4) =~= c2010);
            assert(occurs_at(msg, "2010"@, k));
        }
    }
}

/// Whether the error message of the active engine means "no route found".
pub fn is_no_route_error(msg: &str, config: &Config) -> (r: bool)
    ensures
        r == no_route_error(msg@, config.valhalla_url@.len() > 0),
{
    if !config.valhalla_url.as_str().is_empty() {
        contains_str(msg, "442")
    } else {
        contains_str(msg, "2010")
    }
}

/// Query of the avoidance zones shown for the current view.
pub struct ZonesQuery {
    pub bbox: Option<String>,
    pub preset: Option<String>,
}

/// How wide the avoidance zones are drawn around each camera.
pub enum RangePreset {
    Conservative,
    Standard,
    High,
}

impl RangePreset {
    /// `"conservative"` and `"high"` name their preset; anything else, or no name,
    /// is the standard preset.
    pub fn from_name(name: Option<&str>) -> (p: RangePreset)
        ensures
            p == match name {
                Some(n) => if n@ == "conservative"@ {
                    RangePreset::Conservative
                } else if n@ == "high"@ {
                    RangePreset::High
                } else {
                    RangePreset::Standard
                },
                None => RangePreset::Standard,
            },
    {
        match name {
            None => RangePreset::Standard,
            Some(n) => {
                if str_equals(n, "conservative") {
                    RangePreset::Conservative
                } else if str_equals(n, "high") {
                    RangePreset::High
                } else {
                    RangePreset::Standard
                }
            },
        }
    }

    /// Camera range multiplier of the preset, in tenths: ×0.5, ×1 and ×2.2.
    pub fn multiplier_tenths(&self) -> (t: u32)
        ensures
            t == match self {
                RangePreset::Conservative => 5u32,
                RangePreset::Standard => 10u32,
                RangePreset::High => 22u32,
            },
    {
        match self {
            RangePreset::Conservative => 5,
            RangePreset::Standard => 10,
            RangePreset::High => 22,
        }
    }

    /// Column of the routing graph that holds the edge exposure for the preset.
    pub fn exposure_column(&self) -> (c: &'static str)
        ensures
            c@ == match self {
                RangePreset::Conservative => "e.exp_conserv"@,
                RangePreset::Standard => "e.exp_standard"@,
                RangePreset::High => "e.exp_high"@,
            },
    {
        match self {
            RangePreset::Conservative => "e.exp_conserv",
            RangePreset::Standard => "e.exp_standard",
            RangePreset::High => "e.exp_high",
        }
    }
}

/// Which engine call a route request is at.
pub enum RoutePhase {
    /// The call with the avoidance zones of the chosen preset.
    First,
    /// The call with every camera range halved.
    Retry,
}

/// What follows an engine answer.
pub enum RouteStep {
    /// The route is accepted; `relaxed` tells that the ranges were halved.
    Accept { relaxed: bool },
    /// Call the engine again with every camera range halved.
    RetryRelaxed,
    /// The request fails with this error.
    Fail(AppError),
}

/// The step after the answer `outcome` (`Err` holds the engine's error message)
/// of the call at `phase`.
pub fn next_route_step(phase: RoutePhase, outcome: Result<(), String>, config: &Config) -> (s:
    RouteStep)
    ensures
        match (phase, outcome) {
            (RoutePhase::First, Ok(())) => s == RouteStep::Accept { relaxed: false },
            (RoutePhase::First, Err(msg)) => if no_route_error(
                msg@,
                config.valhalla_url@.len() > 0,
            ) {
                s is RetryRelaxed
            } else {
                s matches RouteStep::Fail(AppError::External(m)) && m@ == msg@
            },
            (RoutePhase::Retry, Ok(())) => s == RouteStep::Accept { relaxed: true },
            (RoutePhase::Retry, Err(msg)) => s matches RouteStep::Fail(AppError::External(m))
                && m@ == "Routing indisponible après 2 tentatives — "@ + msg@,
        },
        // at most two engine calls: the relaxed call is never retried
        phase is Retry ==> !(s is RetryRelaxed),
        // a route is marked relaxed exactly when it comes from the relaxed call
        s matches RouteStep::Accept { relaxed } ==> relaxed == (phase is Retry),
{
    match phase {
        RoutePhase::First => match outcome {
            Ok(()) => RouteStep::Accept { relaxed: false },
            Err(msg) => {
                if is_no_route_error(msg.as_str(), config) {
                    RouteStep::RetryRelaxed
                } else {
                    RouteStep::Fail(AppError::External(msg))
                }
            },
        },
        RoutePhase::Retry => match outcome {
            Ok(()) => RouteStep::Accept { relaxed: true },
            Err(msg) => {
                let mut m = string_of("Routing indisponible après 2 tentatives — ");
                m.append(msg.as_str());
                RouteStep::Fail(AppError::External(m))
            },
        },
    }
}

/// Request options with their defaults: cameras are avoided unless asked
/// otherwise, and the direct route is added only when asked for.
pub fn route_options(avoid_cams: Option<bool>, include_direct: Option<bool>) -> (r: (bool, bool))
    ensures
        r.0 == match avoid_cams {
            Some(b) => b,
            None => true,
        },
        r.1 == match include_direct {
            Some(b) => b,
            None => false,
        },
{
    let avoid = match avoid_cams {
        Some(b) => b,
        None => true,
    };
    let direct = match include_direct {
        Some(b) => b,
        None => false,
    };
    (avoid, direct)
}

} // verus!
