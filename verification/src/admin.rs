//! Rules of the admin interface: token check, camera listing filters and pages,
//! bulk deletion placeholders, and the tags of the OSM export.
use vstd::prelude::*;
use crate::error::AppError;
use crate::text::{chars_of, push_decimal, str_equals, string_of};
#[allow(unused_imports)]
use crate::text::decimal;

verus! {

/// Camera listing parameters: page (from 1), page size, and filters.
pub struct AdminCamerasQuery {
    pub page: Option<i64>,
    pub limit: Option<i64>,
    pub source: Option<String>,
    pub cam_type: Option<String>,
    pub reported: Option<bool>,
}

/// Cameras to delete at once.
pub struct BulkDeleteRequest {
    pub ids: Vec<i64>,
}

/// Checks the admin bearer token. Without a configured token the admin
/// interface is disabled.
pub fn check_admin(provided: Option<&str>, token: &str) -> (r: Result<(), AppError>)
    ensures
        token@.len() == 0 ==> (r matches Err(AppError::BadRequest(m))
            && m@ == "ADMIN_TOKEN non configuré sur le serveur"@),
        token@.len() > 0 ==> match provided {
            Some(p) => if p@ == "Bearer "@ + token@ {
                r is Ok
            } else {
                r matches Err(AppError::Unauthorized)
            },
            None => if ""@ == "Bearer "@ + token@ {
                r is Ok
            } else {
                r matches Err(AppError::Unauthorized)
            },
        },
{
    if token.is_empty() {
        return Err(AppError::BadRequest(string_of("ADMIN_TOKEN non configuré sur le serveur")));
    }
    let given: &str = match provided {
        Some(p) => p,
        None => "",
    };
    let mut expected = string_of("Bearer ");
    expected.append(token);
    if str_equals(given, expected.as_str()) {
        Ok(())
    } else {
        Err(AppError::Unauthorized)
    }
}

/// A page of the camera listing.
pub struct PageWindow {
    pub page: i64,
    pub limit: i64,
    pub offset: i64,
}

/// Page number asked for, at least 1 (1 by default).
pub open spec fn page_of(page: Option<i64>) -> int {
    let p = match page {
        Some(p) => p as int,
        None => 1,
    };
    if p < 1 {
        1
    } else {
        p
    }
}

/// Page size asked for, between 1 and 200 (50 by default).
pub open spec fn limit_of(limit: Option<i64>) -> int {
    let l = match limit {
        Some(l) => l as int,
        None => 50,
    };
    if l < 1 {
        1
    } else if l > 200 {
        200
    } else {
        l
    }
}

/// The page asked for, its size, and the number of rows before it.
pub fn page_window(page: Option<i64>, limit: Option<i64>) -> (w: PageWindow)
    requires
        (page_of(page) - 1) * limit_of(limit) <= i64::MAX,
    ensures
        w.page == page_of(page),
        w.limit == limit_of(limit),
        w.offset == (page_of(page) - 1) * limit_of(limit),
{
    let p0: i64 = match page {
        Some(p) => p,
        None => 1,
    };
    let p: i64 = if p0 < 1 {
        1
    } else {
        p0
    };
    let l0: i64 = match limit {
        Some(l) => l,
        None => 50,
    };
    let l: i64 = if l0 < 1 {
        1
    } else if l0 > 200 {
        200
    } else {
        l0
    };
    assert(0 <= (p - 1) * l) by (nonlinear_arith)
        requires
            p >= 1,
            l >= 1,
    ;
    let offset = (p - 1) * l;
    PageWindow { page: p, limit: l, offset }
}

/// Number of pages for `total` rows, `limit` per page (rounded up).
pub fn page_count(total: i64, limit: i64) -> (n: i64)
    requires
        total >= 0,
        limit >= 1,
    ensures
        n == total / limit + if total % limit == 0 {
            0int
        } else {
            1int
        },
{
    let q = total / limit;
    if total % limit == 0 {
        q
    } else {
        assert(q < i64::MAX) by (nonlinear_arith)
            requires
                q == total / limit,
                total % limit != 0,
                total >= 0,
                limit >= 1,
                total <= i64::MAX,
        {
            if limit == 1 {
                assert(total % limit == 0);
            } else {
                assert(q * limit <= total);
                assert(q * 2 <= q * limit);
            }
        }
        q + 1
    }
}

/// Sources a camera can have.
pub open spec fn is_source(s: Seq<char>) -> bool {
    s == "osm"@ || s == "user"@ || s == "inferred"@
}

/// Camera types the admin can set or filter on.
pub open spec fn is_admin_cam_type(t: Seq<char>) -> bool {
    t == "fixed"@ || t == "ptz"@ || t == "unknown"@
}

/// Whether `t` is a camera type the admin can set.
pub fn is_editable_cam_type(t: &str) -> (r: bool)
    ensures
        r == is_admin_cam_type(t@),
{
    str_equals(t, "fixed") || str_equals(t, "ptz") || str_equals(t, "unknown")
}

fn is_known_source(s: &str) -> (r: bool)
    ensures
        r == is_source(s@),
{
    str_equals(s, "osm") || str_equals(s, "user") || str_equals(s, "inferred")
}

/// `parts` put together with `sep` between consecutive ones.
pub open spec fn join_with(parts: Seq<Seq<char>>, sep: Seq<char>) -> Seq<char>
    decreases parts.len(),
{
    if parts.len() == 0 {
        Seq::empty()
    } else if parts.len() == 1 {
        parts[0]
    } else {
        join_with(parts.drop_last(), sep) + sep + parts.last()
    }
}

/// The conditions of the listing filters, in order: source, type, reported.
pub open spec fn filter_conditions(
    source: Option<Seq<char>>,
    cam_type: Option<Seq<char>>,
    reported: bool,
) -> Seq<Seq<char>> {
    (match source {
        Some(s) => seq!["source = '"@ + s + "'"@],
        None => Seq::empty(),
    }) + (match cam_type {
        Some(t) => seq!["cam_type = '"@ + t + "'"@],
        None => Seq::empty(),
    }) + (if reported {
        seq!["report_count > 0"@]
    } else {
        Seq::empty()
    })
}

/// The `WHERE` part of the listing query: empty without conditions.
pub open spec fn where_sql(conds: Seq<Seq<char>>) -> Seq<char> {
    if conds.len() == 0 {
        Seq::empty()
    } else {
        "WHERE "@ + join_with(conds, " AND "@)
    }
}

/// The text of an optional string.
pub open spec fn opt_text(s: Option<String>) -> Option<Seq<char>> {
    match s {
        Some(x) => Some(x@),
        None => None,
    }
}

/// The `WHERE` part of the camera listing query for the filters of `q`; a source
/// or type outside the known ones is refused.
pub fn camera_filter(q: &AdminCamerasQuery) -> (r: Result<String, AppError>)
    ensures
        match (q.source, q.cam_type) {
            (Some(s), _) if !is_source(s@) => r matches Err(AppError::BadRequest(m))
                && m@ == "source invalide"@,
            (_, Some(t)) if !is_admin_cam_type(t@) => r matches Err(AppError::BadRequest(m))
                && m@ == "cam_type invalide"@,
            _ => r matches Ok(w) && w@ == where_sql(
                filter_conditions(
                    opt_text(q.source),
                    opt_text(q.cam_type),
                    q.reported == Some(true),
                ),
            ),
        },
{
    let mut conds: Vec<String> = Vec::new();
    if let Some(src) = &q.source {
        if !is_known_source(src.as_str()) {
            return Err(AppError::BadRequest(string_of("source invalide")));
        }
        let mut c = string_of("source = '");
        c.append(src.as_str());
        c.append("'");
        conds.push(c);
    }
    if let Some(t) = &q.cam_type {
        if !is_editable_cam_type(t.as_str()) {
            return Err(AppError::BadRequest(string_of("cam_type invalide")));
        }
        let mut c = string_of("cam_type = '");
        c.append(t.as_str());
        c.append("'");
        conds.push(c);
    }
    let reported = match q.reported {
        Some(b) => b,
        None => false,
    };
    if reported {
        conds.push(string_of("report_count > 0"));
    }
    let ghost parts = filter_conditions(
        opt_text(q.source),
        opt_text(q.cam_type),
        q.reported == Some(true),
    );
    assert(conds@.map_values(|c: String| c@) =~= parts);
    if conds.len() == 0 {
        return Ok(String::new());
    }
    let mut out = string_of("WHERE ");
    let mut i: usize = 0;
    while i < conds.len()
        invariant
            i <= conds@.len(),
            conds@.len() > 0,
            conds@.map_values(|c: String| c@) == parts,
            out@ == "WHERE "@ + join_with(parts.take(i as int), " AND "@),
        decreases conds@.len() - i,
    {
        proof {
            assert(parts.take(i + 1).drop_last() =~= parts.take(i as int));
            assert(parts[i as int] == conds@[i as int]@);
        }
        if i > 0 {
            out.append(" AND ");
        }
        out.append(conds[i].as_str());
        proof {
            if i == 0 {
                assert(parts.take(1) =~= seq![parts[0]]);
            }
        }
        i = i + 1;
    }
    assert(parts.take(conds@.len() as int) =~= parts);
    Ok(out)
}

/// `n` SQL placeholders separated by commas.
pub open spec fn placeholders_spec(n: nat) -> Seq<char> {
    join_with(Seq::new(n, |i: int| "?"@), ","@)
}

/// The placeholders of a bulk deletion of `n` cameras: `?,?,…,?`.
pub fn placeholders(n: usize) -> (s: String)
    ensures
        s@ == placeholders_spec(n as nat),
{
    let mut out = String::new();
    let mut i: usize = 0;
    while i < n
        invariant
            i <= n,
            out@ == placeholders_spec(i as nat),
        decreases n - i,
    {
        proof {
            assert(Seq::new((i + 1) as nat, |k: int| "?"@).drop_last() =~= Seq::new(
                i as nat,
                |k: int| "?"@,
            ));
        }
        if i > 0 {
            out.append(",");
        }
        out.append("?");
        proof {
            if i == 0 {
                assert(Seq::new(1, |k: int| "?"@) =~= seq!["?"@]);
            }
        }
        i = i + 1;
    }
    out
}

/// `s` with every `"` written `&quot;`.
pub open spec fn escape_quotes_spec(s: Seq<char>) -> Seq<char>
    decreases s.len(),
{
    if s.len() == 0 {
        Seq::empty()
    } else {
        escape_quotes_spec(s.drop_last()) + if s.last() == '"' {
            "&quot;"@
        } else {
            seq![s.last()]
        }
    }
}

/// Escapes the double quotes of an attribute value.
pub fn escape_quotes(s: &str) -> (r: String)
    ensures
        r@ == escape_quotes_spec(s@),
{
    let cs = chars_of(s);
    let n = cs.len();
    let mut out = String::new();
    let mut start: usize = 0;
    let mut i: usize = 0;
    while i < n
        invariant
            cs@ == s@,
            n == cs@.len(),
            start <= i <= n,
            out@ + cs@.subrange(start as int, i as int) == escape_quotes_spec(cs@.take(i as int)),
        decreases n - i,
    {
        proof {
            assert(cs@.take(i + 1).drop_last() =~= cs@.take(i as int));
            assert(cs@.take(i + 1).last() == cs@[i as int]);
        }
        if cs[i] == '"' {
            let ghost before = out@;
            out.append(s.substring_char(start, i));
            out.append("&quot;");
            assert(out@ + cs@.subrange((i + 1) as int, (i + 1) as int) =~= before + cs@.subrange(
                start as int,
                i as int,
            ) + "&quot;"@);
            start = i + 1;
        } else {
            assert(cs@.subrange(start as int, (i + 1) as int) =~= cs@.subrange(
                start as int,
                i as int,
            ).push(cs@[i as int]));
        }
        i = i + 1;
    }
    out.append(s.substring_char(start, n));
    assert(cs@.take(n as int) =~= cs@);
    out
}

/// The `camera:type` tag line of the OSM export: PTZ cameras are exported as
/// domes, fixed ones as fixed, other types get no tag.
pub open spec fn type_tag_text(cam_type: Seq<char>) -> Seq<char> {
    if cam_type == "ptz"@ {
        "    <tag k=\"camera:type\" v=\"dome\"/>\n"@
    } else if cam_type == "fixed"@ {
        "    <tag k=\"camera:type\" v=\"fixed\"/>\n"@
    } else {
        ""@
    }
}

/// The `camera:type` tag line of a camera in the OSM export.
pub fn export_type_tag(cam_type: &str) -> (t: &'static str)
    ensures
        t@ == type_tag_text(cam_type@),
{
    if str_equals(cam_type, "ptz") {
        "    <tag k=\"camera:type\" v=\"dome\"/>\n"
    } else if str_equals(cam_type, "fixed") {
        "    <tag k=\"camera:type\" v=\"fixed\"/>\n"
    } else {
        ""
    }
}

/// A text tag line of the OSM export, with the value's quotes escaped; no line
/// for a missing or empty value.
pub open spec fn text_tag_text(key: Seq<char>, value: Option<Seq<char>>) -> Seq<char> {
    match value {
        Some(v) => if v.len() > 0 {
            "    <tag k=\""@ + key + "\" v=\""@ + escape_quotes_spec(v) + "\"/>\n"@
        } else {
            Seq::empty()
        },
        None => Seq::empty(),
    }
}

/// The text of an optional string slice.
pub open spec fn opt_str(s: Option<&str>) -> Option<Seq<char>> {
    match s {
        Some(x) => Some(x@),
        None => None,
    }
}

/// A text tag line of a camera in the OSM export.
pub fn export_text_tag(key: &str, value: Option<&str>) -> (t: String)
    ensures
        t@ == text_tag_text(key@, opt_str(value)),
{
    match value {
        Some(v) => {
            if v.is_empty() {
                String::new()
            } else {
                let mut t = string_of("    <tag k=\"");
                t.append(key);
                t.append("\" v=\"");
                let e = escape_quotes(v);
                t.append(e.as_str());
                t.append("\"/>\n");
                t
            }
        },
        None => String::new(),
    }
}

/// The tags every exported camera carries.
pub open spec fn survey_tags() -> Seq<char> {
    "\t<tag k=\"man_made\" v=\"surveillance\"/>\n\t<tag k=\"surveillance\" v=\"outdoor\"/>\n\t<tag k=\"surveillance:type\" v=\"camera\"/>\n\t<tag k=\"source\" v=\"survey\"/>\n\t<tag k=\"note:source\" v=\"BlindSpot MTL\"/>\n"@
}

/// The OSM node of the camera exported in position `index`: a new node with id
/// `-(index + 1)`, at the given coordinates (already written out), with its type,
/// direction, name and note tags and the survey tags.
pub open spec fn export_node_text(
    index: nat,
    lat: Seq<char>,
    lon: Seq<char>,
    cam_type: Seq<char>,
    direction: Option<Seq<char>>,
    name: Option<Seq<char>>,
    note: Option<Seq<char>>,
) -> Seq<char> {
    "  <node id=\"-"@ + decimal(index + 1) + "\" lat=\""@ + lat + "\" lon=\""@ + lon
        + "\" version=\"1\" action=\"create\">\n"@ + type_tag_text(cam_type) + match direction {
        Some(d) => "    <tag k=\"direction\" v=\""@ + d + "\"/>\n"@,
        None => Seq::empty(),
    } + text_tag_text("name"@, name) + text_tag_text("note"@, note) + survey_tags() + "</node>\n"@
}

/// A known direction is always exported, whatever its value: the node of a camera
/// with direction `d` is the node without direction with the line
/// `<tag k="direction" v="d"/>` added, at one same place for every `d`.
pub proof fn law_direction_always_exported(
    index: nat,
    lat: Seq<char>,
    lon: Seq<char>,
    cam_type: Seq<char>,
    name: Option<Seq<char>>,
    note: Option<Seq<char>>,
)
    ensures
        exists|a: Seq<char>, b: Seq<char>|
            #![trigger a + b]
            a + b == export_node_text(index, lat, lon, cam_type, None, name, note) && forall|d: Seq<char>|
                #[trigger] export_node_text(index, lat, lon, cam_type, Some(d), name, note) == a
                    + ("    <tag k=\"direction\" v=\""@ + d + "\"/>\n"@) + b,
{
    let a = "  <node id=\"-"@ + decimal(index + 1) + "\" lat=\""@ + lat + "\" lon=\""@ + lon
        + "\" version=\"1\" action=\"create\">\n"@ + type_tag_text(cam_type);
    let b = text_tag_text("name"@, name) + text_tag_text("note"@, note) + survey_tags() + "</node>\n"@;
    assert(a + b =~= export_node_text(index, lat, lon, cam_type, None, name, note));
    assert forall|d: Seq<char>|
        #[trigger] export_node_text(index, lat, lon, cam_type, Some(d), name, note) == a + (
        "    <tag k=\"direction\" v=\""@ + d + "\"/>\n"@) + b by {
        assert(export_node_text(index, lat, lon, cam_type, Some(d), name, note) =~= a + (
        "    <tag k=\"direction\" v=\""@ + d + "\"/>\n"@) + b);
    }
}

/// The OSM node of an exported camera.
pub fn export_node(
    index: u64,
    lat: &str,
    lon: &str,
    cam_type: &str,
    direction: Option<&str>,
    name: Option<&str>,
    note: Option<&str>,
) -> (t: String)
    requires
        index < u64::MAX,
    ensures
        t@ == export_node_text(
            index as nat,
            lat@,
            lon@,
            cam_type@,
            opt_str(direction),
            opt_str(name),
            opt_str(note),
        ),
{
    let mut t = string_of("  <node id=\"-");
    push_decimal(&mut t, index + 1);
    t.append("\" lat=\"");
    t.append(lat);
    t.append("\" lon=\"");
    t.append(lon);
    t.append("\" version=\"1\" action=\"create\">\n");
    t.append(export_type_tag(cam_type));
    if let Some(d) = direction {
        t.append("    <tag k=\"direction\" v=\"");
        t.append(d);
        t.append("\"/>\n");
    }
    let name_tag = export_text_tag("name", name);
    t.append(name_tag.as_str());
    let note_tag = export_text_tag("note", note);
    t.append(note_tag.as_str());
    t.append(
        "\t<tag k=\"man_made\" v=\"surveillance\"/>\n\t<tag k=\"surveillance\" v=\"outdoor\"/>\n\t<tag k=\"surveillance:type\" v=\"camera\"/>\n\t<tag k=\"source\" v=\"survey\"/>\n\t<tag k=\"note:source\" v=\"BlindSpot MTL\"/>\n",
    );
    t.append("</node>\n");
    proof {
        reveal_strlit("name");
        reveal_strlit("note");
    }
    t
}

/// The OSM document around the exported nodes.
pub open spec fn export_document_text(nodes: Seq<char>) -> Seq<char> {
    "<?xml version=\"1.0\" encoding=\"UTF-8\"?>\n<osm version=\"0.6\" generator=\"BlindSpot MTL\">\n"@
        + nodes + "</osm>\n"@
}

/// The OSM (JOSM) file of the exported nodes.
pub fn export_document(nodes: &str) -> (t: String)
    ensures
        t@ == export_document_text(nodes@),
{
    let mut t = string_of(
        "<?xml version=\"1.0\" encoding=\"UTF-8\"?>\n<osm version=\"0.6\" generator=\"BlindSpot MTL\">\n",
    );
    t.append(nodes);
    t.append("</osm>\n");
    t
}

} // verus!
