//! Decisions of the data import: what is (re)imported at startup, and how an OSM
//! surveillance node becomes a camera record.
use vstd::prelude::*;
use crate::text::str_equals;

verus! {

/// What the startup imports in the background.
pub struct SeedPlan {
    /// Import the OSM and inferred cameras.
    pub seed_cameras: bool,
    /// Import the building footprints too (only along with the cameras).
    pub seed_buildings: bool,
    /// Build the routing graph.
    pub seed_graph: bool,
    /// The routing graph is ready for the A* router from the start.
    pub routing_ready: bool,
}

/// Days after which the OSM data is imported again.
pub const RESEED_AFTER_DAYS: i64 = 7;

/// The startup plan: cameras are imported when none from OSM are stored or the
/// last import is a week old or more; buildings along with them when none are
/// stored; the graph is ready when its last build completed and left edges, and
/// is built otherwise.
pub fn plan_startup(
    osm_cameras: i64,
    days_since_seed: i64,
    buildings: i64,
    routing_edges: i64,
    graph_ready_flag: Option<&str>,
) -> (p: SeedPlan)
    ensures
        p.seed_cameras == (osm_cameras == 0 || days_since_seed >= 7),
        p.seed_buildings == (p.seed_cameras && buildings == 0),
        p.routing_ready == ((match graph_ready_flag {
            Some(f) => f@ == "1"@,
            None => false,
        }) && routing_edges > 0),
        p.seed_graph == !p.routing_ready,
{
    let persisted = match graph_ready_flag {
        Some(f) => str_equals(f, "1"),
        None => false,
    };
    let seed_cameras = osm_cameras == 0 || days_since_seed >= RESEED_AFTER_DAYS;
    let routing_ready = persisted && routing_edges > 0;
    SeedPlan {
        seed_cameras,
        seed_buildings: seed_cameras && buildings == 0,
        seed_graph: !routing_ready,
        routing_ready,
    }
}

/// Camera types kept apart, since they are drawn differently.
pub enum CamType {
    Fixed,
    Ptz,
    Dome,
    Panoramic,
}

impl CamType {
    /// The type from the node's `camera:type` tag, else its `surveillance:type`
    /// tag: `ptz` and `panning` are PTZ, `dome` and `panoramic` keep their type,
    /// anything else (or no tag) is fixed.
    pub fn from_tags(camera_type: Option<&str>, surveillance_type: Option<&str>) -> (t: CamType)
        ensures
            ({
                let raw = match camera_type {
                    Some(c) => c@,
                    None => match surveillance_type {
                        Some(s) => s@,
                        None => ""@,
                    },
                };
                t == if raw == "ptz"@ || raw == "panning"@ {
                    CamType::Ptz
                } else if raw == "dome"@ {
                    CamType::Dome
                } else if raw == "panoramic"@ {
                    CamType::Panoramic
                } else {
                    CamType::Fixed
                }
            }),
    {
        let raw: &str = match camera_type {
            Some(c) => c,
            None => match surveillance_type {
                Some(s) => s,
                None => "",
            },
        };
        if str_equals(raw, "ptz") || str_equals(raw, "panning") {
            CamType::Ptz
        } else if str_equals(raw, "dome") {
            CamType::Dome
        } else if str_equals(raw, "panoramic") {
            CamType::Panoramic
        } else {
            CamType::Fixed
        }
    }

    /// Name stored in the database.
    pub fn name(&self) -> (n: &'static str)
        ensures
            n@ == match self {
                CamType::Fixed => "fixed"@,
                CamType::Ptz => "ptz"@,
                CamType::Dome => "dome"@,
                CamType::Panoramic => "panoramic"@,
            },
    {
        match self {
            CamType::Fixed => "fixed",
            CamType::Ptz => "ptz",
            CamType::Dome => "dome",
            CamType::Panoramic => "panoramic",
        }
    }

    /// Only a fixed camera keeps its tagged direction: a dome hides it, PTZ and
    /// panoramic cameras see all around.
    pub fn keeps_direction(&self) -> (b: bool)
        ensures
            b == (self is Fixed),
    {
        match self {
            CamType::Fixed => true,
            _ => false,
        }
    }

    /// Range used without a `camera:range` tag, in metres.
    pub fn default_range_m(&self) -> (r: u32)
        ensures
            r == match self {
                CamType::Ptz => 50u32,
                CamType::Dome => 20u32,
                CamType::Panoramic => 40u32,
                CamType::Fixed => 30u32,
            },
    {
        match self {
            CamType::Ptz => 50,
            CamType::Dome => 20,
            CamType::Panoramic => 40,
            CamType::Fixed => 30,
        }
    }

    /// Field of view used without a `camera:angle` or `camera:fov` tag, in degrees.
    pub fn default_fov_deg(&self) -> (f: u32)
        ensures
            f == match self {
                CamType::Ptz => 360u32,
                CamType::Panoramic => 360u32,
                CamType::Dome => 180u32,
                CamType::Fixed => 80u32,
            },
    {
        match self {
            CamType::Ptz | CamType::Panoramic => 360,
            CamType::Dome => 180,
            CamType::Fixed => 80,
        }
    }
}

/// Bearing of a compass point (`N`, `NE`, … `NW`, in upper case), in degrees.
pub fn compass_degrees(word: &str) -> (d: Option<u32>)
    ensures
        d == if word@ == "N"@ {
            Some(0u32)
        } else if word@ == "NE"@ {
            Some(45u32)
        } else if word@ == "E"@ {
            Some(90u32)
        } else if word@ == "SE"@ {
            Some(135u32)
        } else if word@ == "S"@ {
            Some(180u32)
        } else if word@ == "SW"@ {
            Some(225u32)
        } else if word@ == "W"@ {
            Some(270u32)
        } else if word@ == "NW"@ {
            Some(315u32)
        } else {
            None
        },
{
    if str_equals(word, "N") {
        Some(0)
    } else if str_equals(word, "NE") {
        Some(45)
    } else if str_equals(word, "E") {
        Some(90)
    } else if str_equals(word, "SE") {
        Some(135)
    } else if str_equals(word, "S") {
        Some(180)
    } else if str_equals(word, "SW") {
        Some(225)
    } else if str_equals(word, "W") {
        Some(270)
    } else if str_equals(word, "NW") {
        Some(315)
    } else {
        None
    }
}

/// Name of an OSM camera: its `name` tag, else its `operator` tag, else a label
/// for enforcement devices (an `enforcement` tag, or `highway=speed_camera`),
/// which rarely carry either.
pub fn camera_name<'a>(
    name: Option<&'a str>,
    operator: Option<&'a str>,
    has_enforcement: bool,
    highway: Option<&str>,
) -> (r: Option<&'a str>)
    ensures
        r == match name {
            Some(n) => Some(n),
            None => match operator {
                Some(o) => Some(o),
                None => if has_enforcement {
                    Some("Radar / caméra d'application de la loi")
                } else if highway matches Some(h) && h@ == "speed_camera"@ {
                    Some("Radar photo")
                } else {
                    None
                },
            },
        },
{
    match name {
        Some(n) => Some(n),
        None => match operator {
            Some(o) => Some(o),
            None => {
                if has_enforcement {
                    Some("Radar / caméra d'application de la loi")
                } else {
                    let speed = match highway {
                        Some(h) => str_equals(h, "speed_camera"),
                        None => false,
                    };
                    if speed {
                        Some("Radar photo")
                    } else {
                        None
                    }
                }
            },
        },
    }
}

} // verus!
