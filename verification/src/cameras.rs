//! Camera records: cross-source deduplication (the same physical device seen by
//! OSM and by the community), and the decisions taken on insertion.
use vstd::prelude::*;
use crate::text::str_equals;

verus! {

/// Camera listing query: `bbox=minLat,minLng,maxLat,maxLng` and an optional source.
pub struct BboxQuery {
    pub bbox: Option<String>,
    pub source: Option<String>,
}

/// A camera close enough, and of the same type, to be the same device.
pub struct DuplicateCandidate {
    pub id: i64,
    /// Within the duplicate radius (8 m) of the new camera.
    pub within_radius: bool,
    /// When both directions are known: whether they differ by at most 40°.
    pub directions_agree: Option<bool>,
}

/// Result of a duplicate search.
#[derive(Clone, Copy)]
pub struct DuplicateMatch {
    pub id: i64,
    /// Same type and compatible direction, or a type without reliable direction:
    /// almost certainly the same device. Otherwise (a fixed camera whose direction
    /// is unknown or differs) the match is ambiguous and left for an administrator
    /// to decide.
    pub confident: bool,
}

/// Only fixed cameras have a reliable direction.
pub fn type_has_direction(cam_type: &str) -> (r: bool)
    ensures
        r == (cam_type@ == "fixed"@),
{
    str_equals(cam_type, "fixed")
}

/// The candidate counts as a duplicate.
pub open spec fn is_near(c: DuplicateCandidate) -> bool {
    c.within_radius
}

/// The candidate counts as a confident duplicate: near, and either of a type
/// without reliable direction, or with both directions known and agreeing.
pub open spec fn is_confident(c: DuplicateCandidate, has_direction: bool) -> bool {
    c.within_radius && (!has_direction || c.directions_agree == Some(true))
}

/// The first candidate that is a confident duplicate if any, else the first near
/// one (ambiguous), else none.
pub open spec fn best_duplicate(cands: Seq<DuplicateCandidate>, has_direction: bool) -> Option<
    DuplicateMatch,
> {
    if exists|i: int| 0 <= i < cands.len() && is_confident(#[trigger] cands[i], has_direction) {
        let i = choose|i: int|
            0 <= i < cands.len() && is_confident(#[trigger] cands[i], has_direction) && forall|j: int|
                0 <= j < i ==> !is_confident(#[trigger] cands[j], has_direction);
        Some(DuplicateMatch { id: cands[i].id, confident: true })
    } else if exists|i: int| 0 <= i < cands.len() && is_near(#[trigger] cands[i]) {
        let i = choose|i: int|
            0 <= i < cands.len() && is_near(#[trigger] cands[i]) && forall|j: int|
                0 <= j < i ==> !is_near(#[trigger] cands[j]);
        Some(DuplicateMatch { id: cands[i].id, confident: false })
    } else {
        None
    }
}

/// A confident duplicate is reported whenever one of the candidates is one, and
/// no duplicate at all only when no candidate is near.
pub proof fn law_confident_preferred(cands: Seq<DuplicateCandidate>, has_direction: bool)
    ensures
        (best_duplicate(cands, has_direction) matches Some(m) && m.confident) <==> exists|i: int|
            0 <= i < cands.len() && is_confident(#[trigger] cands[i], has_direction),
        best_duplicate(cands, has_direction) is None <==> forall|i: int|
            0 <= i < cands.len() ==> !is_near(#[trigger] cands[i]),
{
    if exists|i: int| 0 <= i < cands.len() && is_confident(#[trigger] cands[i], has_direction) {
        let w = choose|i: int| 0 <= i < cands.len() && is_confident(#[trigger] cands[i], has_direction);
        lemma_first_witness(cands, has_direction, true, w);
        assert(is_near(cands[w]));
    } else if exists|i: int| 0 <= i < cands.len() && is_near(#[trigger] cands[i]) {
        let w = choose|i: int| 0 <= i < cands.len() && is_near(#[trigger] cands[i]);
        lemma_first_witness(cands, has_direction, false, w);
    }
}

/// When some candidate satisfies the criterion, a first one does.
proof fn lemma_first_witness(
    cands: Seq<DuplicateCandidate>,
    has_direction: bool,
    confident: bool,
    w: int,
)
    requires
        0 <= w < cands.len(),
        confident ==> is_confident(cands[w], has_direction),
        !confident ==> is_near(cands[w]),
    ensures
        confident ==> exists|i: int|
            0 <= i < cands.len() && is_confident(#[trigger] cands[i], has_direction) && forall|j: int|
                0 <= j < i ==> !is_confident(#[trigger] cands[j], has_direction),
        !confident ==> exists|i: int|
            0 <= i < cands.len() && is_near(#[trigger] cands[i]) && forall|j: int|
                0 <= j < i ==> !is_near(#[trigger] cands[j]),
    decreases w,
{
    let crit = |c: DuplicateCandidate|
        if confident {
            is_confident(c, has_direction)
        } else {
            is_near(c)
        };
    if exists|j: int| 0 <= j < w && crit(cands[j]) {
        let j = choose|j: int| 0 <= j < w && crit(cands[j]);
        lemma_first_witness(cands, has_direction, confident, j);
    } else {
        if confident {
            assert(forall|j: int| 0 <= j < w ==> !is_confident(#[trigger] cands[j], has_direction)) by {
                assert forall|j: int| 0 <= j < w implies !is_confident(#[trigger] cands[j], has_direction) by {
                    assert(!crit(cands[j]));
                }
            }
        } else {
            assert forall|j: int| 0 <= j < w implies !is_near(#[trigger] cands[j]) by {
                assert(!crit(cands[j]));
            }
        }
    }
}

/// Picks the duplicate among the candidates of the same type, in the order they
/// were found: a confident match wins over an ambiguous one found before it.
pub fn pick_duplicate(cands: &Vec<DuplicateCandidate>, has_direction: bool) -> (r: Option<
    DuplicateMatch,
>)
    ensures
        r == best_duplicate(cands@, has_direction),
{
    let mut best: Option<DuplicateMatch> = None;
    let mut best_at: usize = 0;
    let mut i: usize = 0;
    while i < cands.len()
        invariant
            i <= cands@.len(),
            best is None <==> forall|j: int| 0 <= j < i ==> !is_near(#[trigger] cands@[j]),
            best matches Some(b) ==> {
                &&& best_at < i
                &&& b.id == cands@[best_at as int].id
                &&& is_near(cands@[best_at as int])
                &&& b.confident == is_confident(cands@[best_at as int], has_direction)
                &&& b.confident ==> forall|j: int|
                    0 <= j < best_at ==> !is_confident(#[trigger] cands@[j], has_direction)
                &&& !b.confident ==> forall|j: int|
                    0 <= j < i ==> !is_confident(#[trigger] cands@[j], has_direction)
                &&& !b.confident ==> forall|j: int|
                    0 <= j < best_at ==> !is_near(#[trigger] cands@[j])
            },
        decreases cands@.len() - i,
    {
        let c = &cands[i];
        if c.within_radius {
            let confident = !has_direction || match c.directions_agree {
                Some(agree) => agree,
                None => false,
            };
            let replace = match best {
                None => true,
                Some(b) => confident && !b.confident,
            };
            if replace {
                best = Some(DuplicateMatch { id: c.id, confident });
                best_at = i;
            }
        }
        i = i + 1;
    }
    proof {
        let cs = cands@;
        match best {
            None => {
                assert(!exists|j: int| 0 <= j < cs.len() && is_near(#[trigger] cs[j]));
                assert(!exists|j: int| 0 <= j < cs.len() && is_confident(#[trigger] cs[j], has_direction)) by {
                    assert forall|j: int| 0 <= j < cs.len() implies !is_confident(#[trigger] cs[j], has_direction) by {
                        assert(!is_near(cs[j]));
                    }
                }
            },
            Some(b) => {
                let k = best_at as int;
                if b.confident {
                    assert(is_confident(cs[k], has_direction));
                    let c = choose|c: int|
                        0 <= c < cs.len() && is_confident(#[trigger] cs[c], has_direction) && forall|j: int|
                            0 <= j < c ==> !is_confident(#[trigger] cs[j], has_direction);
                    if c < k {
                        assert(!is_confident(cs[c], has_direction));
                    }
                    if k < c {
                        assert(!is_confident(cs[k], has_direction));
                    }
                } else {
                    assert(is_near(cs[k]));
                    let c = choose|c: int|
                        0 <= c < cs.len() && is_near(#[trigger] cs[c]) && forall|j: int|
                            0 <= j < c ==> !is_near(#[trigger] cs[j]);
                    if c < k {
                        assert(!is_near(cs[c]));
                    }
                    if k < c {
                        assert(!is_near(cs[k]));
                    }
                }
            },
        }
    }
    best
}

/// What inserting a community camera does, given the duplicate found.
pub enum InsertPlan {
    /// A confident duplicate exists: nothing is inserted, it is marked corroborated.
    Corroborate(i64),
    /// A new row is inserted, flagged as a possible duplicate of an ambiguous match.
    Insert { flag_duplicate_of: Option<i64> },
}

/// Outcome of the insertion of a community camera.
pub struct InsertOutcome {
    pub id: i64,
    /// An existing camera was corroborated instead of inserting a new one.
    pub merged: bool,
}

/// The insertion plan for a new community camera.
pub fn plan_insert(dup: Option<DuplicateMatch>) -> (p: InsertPlan)
    ensures
        p == match dup {
            Some(DuplicateMatch { id, confident: true }) => InsertPlan::Corroborate(id),
            Some(DuplicateMatch { id, confident: false }) => InsertPlan::Insert {
                flag_duplicate_of: Some(id),
            },
            None => InsertPlan::Insert { flag_duplicate_of: None },
        },
{
    match dup {
        Some(m) => {
            if m.confident {
                InsertPlan::Corroborate(m.id)
            } else {
                InsertPlan::Insert { flag_duplicate_of: Some(m.id) }
            }
        },
        None => InsertPlan::Insert { flag_duplicate_of: None },
    }
}

/// The outcome of a plan once carried out; `inserted_id` is the id of the row
/// inserted, when the plan inserts one.
pub fn insert_outcome(plan: &InsertPlan, inserted_id: i64) -> (o: InsertOutcome)
    ensures
        o.merged == (plan is Corroborate),
        o.id == match plan {
            InsertPlan::Corroborate(id) => *id,
            InsertPlan::Insert { .. } => inserted_id,
        },
{
    match plan {
        InsertPlan::Corroborate(id) => InsertOutcome { id: *id, merged: true },
        InsertPlan::Insert { .. } => InsertOutcome { id: inserted_id, merged: false },
    }
}

/// What follows the upsert of an official (OSM or inferred) camera, given the
/// community duplicate found near it.
pub enum CrossSourcePlan {
    /// The community entry is redundant: delete it and corroborate the official one.
    DeleteCommunity { community_id: i64, corroborate_id: i64 },
    /// Flag the community entry as a possible duplicate of the official one.
    FlagCommunity { community_id: i64, duplicate_of: i64 },
    /// No duplicate: nothing to do.
    Nothing,
}

/// The official record prevails over a confident community duplicate; an
/// ambiguous one is only flagged.
pub fn plan_cross_source(dup: Option<DuplicateMatch>, new_id: i64) -> (p: CrossSourcePlan)
    ensures
        p == match dup {
            Some(DuplicateMatch { id, confident: true }) => CrossSourcePlan::DeleteCommunity {
                community_id: id,
                corroborate_id: new_id,
            },
            Some(DuplicateMatch { id, confident: false }) => CrossSourcePlan::FlagCommunity {
                community_id: id,
                duplicate_of: new_id,
            },
            None => CrossSourcePlan::Nothing,
        },
{
    match dup {
        Some(m) => {
            if m.confident {
                CrossSourcePlan::DeleteCommunity { community_id: m.id, corroborate_id: new_id }
            } else {
                CrossSourcePlan::FlagCommunity { community_id: m.id, duplicate_of: new_id }
            }
        },
        None => CrossSourcePlan::Nothing,
    }
}

/// SQL condition restricting a camera query to one source: `"osm"` and `"user"`
/// are recognised, anything else selects every source.
pub fn source_clause(source: Option<&str>) -> (c: &'static str)
    ensures
        c@ == match source {
            Some(s) => if s@ == "osm"@ {
                " AND source = 'osm'"@
            } else if s@ == "user"@ {
                " AND source = 'user'"@
            } else {
                ""@
            },
            None => ""@,
        },
{
    match source {
        Some(s) => {
            if str_equals(s, "osm") {
                " AND source = 'osm'"
            } else if str_equals(s, "user") {
                " AND source = 'user'"
            } else {
                ""
            }
        },
        None => "",
    }
}

/// Types whose zone is a full circle around the camera (no usable direction).
pub fn is_circular_type(cam_type: &str) -> (r: bool)
    ensures
        r == (cam_type@ == "ptz"@ || cam_type@ == "dome"@ || cam_type@ == "panoramic"@),
{
    str_equals(cam_type, "ptz") || str_equals(cam_type, "dome") || str_equals(cam_type, "panoramic")
}

} // verus!
