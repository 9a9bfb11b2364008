# blindspot

Server of BLINDSPOT MTL, a pedestrian router for Montréal that keeps walkers out
of the fields of view of surveillance cameras.

- `src/` — the verified library (Verus): camera deduplication, the route
  request's retry rules, the route cache, Valhalla polyline decoding, the
  union-find that groups overlapping avoidance zones, the junction split of the
  routing graph, A* path recovery, the admin rules and the OSM export, the
  import plan, the fallback over the Overpass endpoints, the
  cache-busting of the HTML pages, and the hashing of client
  addresses. Each public function states its result in its `ensures`; the laws
  that relate several functions are public proof functions (`law_*`).
- `tests/` — tests of the library on concrete values.
- `app/` — the HTTP server (axum, SQLite through sqlx, Overpass, ORS and
  Valhalla clients) and the floating-point geometry (distances, camera cones,
  viewsheds, exposure sampling), which call into the library for every
  decision.
