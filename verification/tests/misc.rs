use blindspot::error::AppError;
use blindspot::events::{socket_action, BusEvent, SocketAction};
use blindspot::seed::{camera_name, compass_degrees, plan_startup, CamType};
use blindspot::text::{contains_str, push_decimal, str_equals};

#[test]
fn error_answers() {
    assert_eq!(AppError::Database("x".into()).status(), 500);
    assert_eq!(AppError::Database("x".into()).message(), "Erreur base de données");
    assert_eq!(AppError::External("down".into()).status(), 502);
    assert_eq!(AppError::External("down".into()).message(), "Service externe indisponible: down");
    assert_eq!(AppError::BadRequest("bad".into()).status(), 400);
    assert_eq!(AppError::BadRequest("bad".into()).message(), "bad");
    assert_eq!(AppError::NotFound.status(), 404);
    assert_eq!(AppError::NotFound.message(), "Ressource introuvable");
    assert_eq!(AppError::Unauthorized.status(), 401);
    assert_eq!(AppError::Unauthorized.message(), "Token invalide");
}

#[test]
fn startup_plans() {
    let p = plan_startup(0, i64::MAX, 0, 0, None);
    assert!(p.seed_cameras && p.seed_buildings && p.seed_graph && !p.routing_ready);
    let p = plan_startup(120, 2, 10, 500, Some("1"));
    assert!(!p.seed_cameras && !p.seed_buildings && !p.seed_graph && p.routing_ready);
    let p = plan_startup(120, 7, 10, 500, Some("0"));
    assert!(p.seed_cameras && !p.seed_buildings && p.seed_graph && !p.routing_ready);
    let p = plan_startup(120, 6, 0, 0, Some("1"));
    assert!(!p.seed_cameras && !p.seed_buildings && p.seed_graph && !p.routing_ready);
}

#[test]
fn osm_types() {
    assert!(matches!(CamType::from_tags(Some("panning"), None), CamType::Ptz));
    assert!(matches!(CamType::from_tags(None, Some("dome")), CamType::Dome));
    assert!(matches!(CamType::from_tags(Some("panoramic"), Some("dome")), CamType::Panoramic));
    assert!(matches!(CamType::from_tags(None, None), CamType::Fixed));
    assert!(matches!(CamType::from_tags(Some("camera"), None), CamType::Fixed));
    assert_eq!(CamType::Dome.name(), "dome");
    assert!(CamType::Fixed.keeps_direction());
    assert!(!CamType::Dome.keeps_direction());
    assert_eq!(CamType::Ptz.default_range_m(), 50);
    assert_eq!(CamType::Dome.default_range_m(), 20);
    assert_eq!(CamType::Panoramic.default_range_m(), 40);
    assert_eq!(CamType::Fixed.default_range_m(), 30);
    assert_eq!(CamType::Ptz.default_fov_deg(), 360);
    assert_eq!(CamType::Dome.default_fov_deg(), 180);
    assert_eq!(CamType::Fixed.default_fov_deg(), 80);
}

#[test]
fn compass_points() {
    assert_eq!(compass_degrees("N"), Some(0));
    assert_eq!(compass_degrees("SE"), Some(135));
    assert_eq!(compass_degrees("NW"), Some(315));
    assert_eq!(compass_degrees("120"), None);
}

#[test]
fn osm_names() {
    assert_eq!(camera_name(Some("A"), Some("B"), true, None), Some("A"));
    assert_eq!(camera_name(None, Some("B"), true, None), Some("B"));
    assert_eq!(camera_name(None, None, true, Some("speed_camera")), Some("Radar / caméra d'application de la loi"));
    assert_eq!(camera_name(None, None, false, Some("speed_camera")), Some("Radar photo"));
    assert_eq!(camera_name(None, None, false, Some("primary")), None);
}

#[test]
fn socket_actions() {
    assert!(matches!(socket_action(&BusEvent::Message), SocketAction::Forward));
    assert!(matches!(socket_action(&BusEvent::Lagged), SocketAction::Skip));
    assert!(matches!(socket_action(&BusEvent::Closed), SocketAction::Stop));
}

#[test]
fn text_helpers() {
    assert!(str_equals("abc", "abc"));
    assert!(!str_equals("abc", "abd"));
    assert!(contains_str("xx2010yy", "2010"));
    assert!(!contains_str("201", "2010"));
    assert!(contains_str("any", ""));
    let mut s = String::new();
    push_decimal(&mut s, 4090);
    assert_eq!(s, "4090");
    let mut s = String::from("n=");
    push_decimal(&mut s, 0);
    assert_eq!(s, "n=0");
}
