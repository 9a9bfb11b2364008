use blindspot::error::AppError;
use blindspot::routing::{
    is_no_route_error, next_route_step, route_options, Config, Engine, RangePreset, RoutePhase, RouteStep,
};

fn config(valhalla: &str, ors: &str) -> Config {
    Config {
        ors_api_key: ors.to_string(),
        admin_token: String::new(),
        port: 3000,
        valhalla_url: valhalla.to_string(),
    }
}

#[test]
fn engine_choice() {
    assert!(matches!(config("http://v:8002", "k").engine(), Engine::Valhalla));
    assert!(matches!(config("", "k").engine(), Engine::Ors));
    assert!(config("", "k").check_router_configured().is_ok());
    match config("", "").check_router_configured() {
        Err(AppError::BadRequest(m)) => assert_eq!(m, "VALHALLA_URL ou ORS_API_KEY requis — configurer dans .env"),
        _ => panic!("expected BadRequest"),
    }
}

#[test]
fn no_route_codes() {
    assert!(is_no_route_error("ORS 2010 — Route could not be found", &config("", "k")));
    assert!(!is_no_route_error("ORS 2010 — x", &config("http://v", "")));
    assert!(is_no_route_error("Valhalla 442 — No path", &config("http://v", "")));
    assert!(!is_no_route_error("HTTP 500", &config("", "k")));
}

#[test]
fn presets() {
    assert!(matches!(RangePreset::from_name(Some("conservative")), RangePreset::Conservative));
    assert!(matches!(RangePreset::from_name(Some("high")), RangePreset::High));
    assert!(matches!(RangePreset::from_name(Some("whatever")), RangePreset::Standard));
    assert!(matches!(RangePreset::from_name(None), RangePreset::Standard));
    assert_eq!(RangePreset::Conservative.multiplier_tenths(), 5);
    assert_eq!(RangePreset::Standard.multiplier_tenths(), 10);
    assert_eq!(RangePreset::High.multiplier_tenths(), 22);
    assert_eq!(RangePreset::High.exposure_column(), "e.exp_high");
    assert_eq!(RangePreset::Conservative.exposure_column(), "e.exp_conserv");
    assert_eq!(RangePreset::Standard.exposure_column(), "e.exp_standard");
}

#[test]
fn retry_once_on_no_route() {
    let c = config("", "k");
    assert!(matches!(next_route_step(RoutePhase::First, Ok(()), &c), RouteStep::Accept { relaxed: false }));
    assert!(matches!(
        next_route_step(RoutePhase::First, Err("ORS 2010 — Route could not be found".to_string()), &c),
        RouteStep::RetryRelaxed
    ));
    assert!(matches!(next_route_step(RoutePhase::Retry, Ok(()), &c), RouteStep::Accept { relaxed: true }));
    match next_route_step(RoutePhase::Retry, Err("ORS 2010 — again".to_string()), &c) {
        RouteStep::Fail(AppError::External(m)) => {
            assert_eq!(m, "Routing indisponible après 2 tentatives — ORS 2010 — again")
        }
        _ => panic!("expected failure"),
    }
    match next_route_step(RoutePhase::First, Err("HTTP 401 — denied".to_string()), &c) {
        RouteStep::Fail(AppError::External(m)) => assert_eq!(m, "HTTP 401 — denied"),
        _ => panic!("expected failure"),
    }
}

#[test]
fn option_defaults() {
    assert_eq!(route_options(None, None), (true, false));
    assert_eq!(route_options(Some(false), Some(true)), (false, true));
}
