//! Cache-busting of the HTML pages: every `src="/js/...` and `href="/css/...`
//! reference gets `?v=<build id>` appended, so that a new build is fetched anew.
use vstd::prelude::*;
use crate::text::chars_of;

verus! {

/// The opening of a script reference: `src="/js/`.
pub open spec fn js_marker() -> Seq<char> {
    seq!['s', 'r', 'c', '=', '"', '/', 'j', 's', '/']
}

/// The opening of a stylesheet reference: `href="/css/`.
pub open spec fn css_marker() -> Seq<char> {
    seq!['h', 'r', 'e', 'f', '=', '"', '/', 'c', 's', 's', '/']
}

/// What is appended after each reference: `?v=` and the build id.
pub open spec fn version_suffix(id: Seq<char>) -> Seq<char> {
    seq!['?', 'v', '='] + id
}

/// `m` occurs in `s` at position `i`.
pub open spec fn marker_at(s: Seq<char>, i: int, m: Seq<char>) -> bool {
    &&& 0 <= i
    &&& i + m.len() <= s.len()
    &&& s.subrange(i, i + m.len()) == m
}

/// The first reference opening at or after `pos`, with the marker found there.
pub open spec fn first_marker(s: Seq<char>, pos: int) -> Option<(int, Seq<char>)>
    decreases s.len() - pos,
{
    if pos < 0 || pos >= s.len() {
        None
    } else if marker_at(s, pos, js_marker()) {
        Some((pos, js_marker()))
    } else if marker_at(s, pos, css_marker()) {
        Some((pos, css_marker()))
    } else {
        first_marker(s, pos + 1)
    }
}

/// The position of the first `"` at or after `j`, or the end of `s`.
pub open spec fn quote_end(s: Seq<char>, j: int) -> int
    decreases s.len() - j,
{
    if j < 0 || j >= s.len() {
        s.len() as int
    } else if s[j] == '"' {
        j
    } else {
        quote_end(s, j + 1)
    }
}

pub proof fn lemma_first_marker_bounds(s: Seq<char>, pos: int)
    requires
        0 <= pos,
    ensures
        first_marker(s, pos) matches Some((i, m)) ==> pos <= i && i + m.len() <= s.len() && m.len()
            > 0 && marker_at(s, i, m),
    decreases s.len() - pos,
{
    if pos < s.len() && !marker_at(s, pos, js_marker()) && !marker_at(s, pos, css_marker()) {
        lemma_first_marker_bounds(s, pos + 1);
    }
}

pub proof fn lemma_quote_end_bounds(s: Seq<char>, j: int)
    requires
        0 <= j <= s.len(),
    ensures
        j <= quote_end(s, j) <= s.len(),
    decreases s.len() - j,
{
    if j < s.len() && s[j] != '"' {
        lemma_quote_end_bounds(s, j + 1);
    }
}

/// The page text from `pos` on, with the version appended to every reference:
/// the text up to the end of the referenced path (the closing quote, or the end
/// of the page) is kept, the suffix follows, and the rest is treated the same way.
pub open spec fn busted_from(s: Seq<char>, id: Seq<char>, pos: int) -> Seq<char>
    decreases s.len() - pos,
{
    if pos < 0 || pos > s.len() {
        Seq::empty()
    } else {
        match first_marker(s, pos) {
            None => s.subrange(pos, s.len() as int),
            Some((i, m)) => {
                proof {
                    lemma_first_marker_bounds(s, pos);
                    lemma_quote_end_bounds(s, i + m.len());
                }
                let q = quote_end(s, i + m.len());
                s.subrange(pos, q) + version_suffix(id) + busted_from(s, id, q)
            },
        }
    }
}

/// The whole page with every script and stylesheet reference versioned.
pub open spec fn cache_busted(html: Seq<char>, id: Seq<char>) -> Seq<char> {
    busted_from(html, id, 0)
}

/// A page without any script or stylesheet reference is served unchanged.
pub proof fn law_no_reference_unchanged(html: Seq<char>, id: Seq<char>)
    requires
        first_marker(html, 0) is None,
    ensures
        cache_busted(html, id) == html,
{
    assert(html.subrange(0, html.len() as int) =~= html);
}

/// Text before the first reference is kept as it is.
pub proof fn law_prefix_kept(html: Seq<char>, id: Seq<char>)
    requires
        first_marker(html, 0) matches Some((i, m)),
    ensures
        first_marker(html, 0) matches Some((i, m)) && cache_busted(html, id).subrange(0, i + m.len())
            == html.subrange(0, i + m.len()),
{
    lemma_first_marker_bounds(html, 0);
    if let Some((i, m)) = first_marker(html, 0) {
        lemma_quote_end_bounds(html, i + m.len());
        let q = quote_end(html, i + m.len());
        let out = cache_busted(html, id);
        assert(out == html.subrange(0, q) + version_suffix(id) + busted_from(html, id, q));
        assert(out.subrange(0, i + m.len()) =~= html.subrange(0, i + m.len()));
    }
}

/// A script or stylesheet reference opens at `i`.
pub open spec fn is_reference(s: Seq<char>, i: int) -> bool {
    marker_at(s, i, js_marker()) || marker_at(s, i, css_marker())
}

/// The marker of the reference opening at `i`.
pub open spec fn reference_marker(s: Seq<char>, i: int) -> Seq<char> {
    if marker_at(s, i, js_marker()) {
        js_marker()
    } else {
        css_marker()
    }
}

/// End of the path of the reference opening at `i`: its closing quote, or the end
/// of the page.
pub open spec fn path_end(s: Seq<char>, i: int) -> int {
    quote_end(s, i + reference_marker(s, i).len())
}

/// The reference at `i` does not lie inside the path of an earlier reference
/// opening at or after `pos`.
pub open spec fn uncovered_from(s: Seq<char>, pos: int, i: int) -> bool {
    forall|k: int| pos <= k < i && #[trigger] is_reference(s, k) ==> path_end(s, k) <= i
}

/// The first reference at or after `pos` is found no later than any reference.
proof fn lemma_first_marker_reaches(s: Seq<char>, pos: int, i: int)
    requires
        0 <= pos <= i,
        is_reference(s, i),
    ensures
        first_marker(s, pos) matches Some((f, m)) && pos <= f <= i && is_reference(s, f) && m
            == reference_marker(s, f),
    decreases i - pos,
{
    if !is_reference(s, pos) {
        lemma_first_marker_reaches(s, pos + 1, i);
    }
}

/// From any point before an uncovered reference, the output runs up to that
/// reference, then holds its path followed by the version suffix.
proof fn lemma_reference_versioned(s: Seq<char>, id: Seq<char>, pos: int, i: int) -> (x: Seq<char>)
    requires
        0 <= pos <= i,
        is_reference(s, i),
        uncovered_from(s, pos, i),
    ensures
        busted_from(s, id, pos) == x + s.subrange(i, path_end(s, i)) + version_suffix(id)
            + busted_from(s, id, path_end(s, i)),
    decreases s.len() - pos,
{
    lemma_first_marker_reaches(s, pos, i);
    lemma_first_marker_bounds(s, pos);
    let (f, m) = first_marker(s, pos)->0;
    lemma_quote_end_bounds(s, f + m.len());
    let q = quote_end(s, f + m.len());
    assert(busted_from(s, id, pos) == s.subrange(pos, q) + version_suffix(id) + busted_from(s, id, q));
    if f == i {
        lemma_quote_end_bounds(s, i + m.len());
        let x = s.subrange(pos, i);
        assert(s.subrange(pos, q) =~= x + s.subrange(i, q));
        x
    } else {
        assert(path_end(s, f) == q);
        assert(q <= i);
        assert(uncovered_from(s, q, i));
        let x2 = lemma_reference_versioned(s, id, q, i);
        s.subrange(pos, q) + version_suffix(id) + x2
    }
}

/// `piece` occurs in `out` at position `p`.
pub open spec fn piece_at(out: Seq<char>, piece: Seq<char>, p: int) -> bool {
    0 <= p && p + piece.len() <= out.len() && out.subrange(p, p + piece.len()) == piece
}

/// Every reference of the page is versioned, unless it lies inside the path of an
/// earlier reference: the output holds its path followed by `?v=` and the build id.
pub proof fn law_every_reference_versioned(html: Seq<char>, id: Seq<char>, i: int)
    requires
        is_reference(html, i),
        uncovered_from(html, 0, i),
    ensures
        exists|p: int|
            #[trigger] piece_at(
                cache_busted(html, id),
                html.subrange(i, path_end(html, i)) + version_suffix(id),
                p,
            ),
{
    let x = lemma_reference_versioned(html, id, 0, i);
    let out = cache_busted(html, id);
    let piece = html.subrange(i, path_end(html, i)) + version_suffix(id);
    let y = busted_from(html, id, path_end(html, i));
    assert(out == x + piece + y);
    assert(out.subrange(x.len() as int, (x.len() + piece.len()) as int) =~= piece);
    assert(piece_at(out, piece, x.len() as int));
}

fn js_marker_exec() -> (m: Vec<char>)
    ensures
        m@ == js_marker(),
{
    let m = vec!['s', 'r', 'c', '=', '"', '/', 'j', 's', '/'];
    assert(m@ =~= js_marker());
    m
}

fn css_marker_exec() -> (m: Vec<char>)
    ensures
        m@ == css_marker(),
{
    let m = vec!['h', 'r', 'e', 'f', '=', '"', '/', 'c', 's', 's', '/'];
    assert(m@ =~= css_marker());
    m
}

fn occurs_at(s: &Vec<char>, i: usize, m: &Vec<char>) -> (r: bool)
    requires
        i <= s@.len(),
    ensures
        r == marker_at(s@, i as int, m@),
{
    let sl = s.len();
    if m.len() > sl - i {
        return false;
    }
    let mut k: usize = 0;
    while k < m.len()
        invariant
            sl == s@.len(),
            i + m@.len() <= s@.len(),
            k <= m@.len(),
            forall|t: int| 0 <= t < k ==> s@[i + t] == m@[t],
        decreases m@.len() - k,
    {
        if s[i + k] != m[k] {
            assert(s@.subrange(i as int, i + m@.len())[k as int] != m@[k as int]);
            return false;
        }
        k = k + 1;
    }
    assert(s@.subrange(i as int, i + m@.len()) =~= m@);
    true
}

/// Position and marker length of the first reference at or after `pos`.
fn find_marker(s: &Vec<char>, pos: usize, js: &Vec<char>, css: &Vec<char>) -> (r: Option<
    (usize, usize),
>)
    requires
        pos <= s@.len(),
        js@ == js_marker(),
        css@ == css_marker(),
    ensures
        match r {
            None => first_marker(s@, pos as int) is None,
            Some((i, len)) => first_marker(s@, pos as int) matches Some((fi, fm)) && fi == i
                && fm.len() == len,
        },
{
    let mut i = pos;
    while i < s.len()
        invariant
            pos <= i <= s@.len(),
            js@ == js_marker(),
            css@ == css_marker(),
            first_marker(s@, pos as int) == first_marker(s@, i as int),
        decreases s@.len() - i,
    {
        if occurs_at(s, i, js) {
            return Some((i, js.len()));
        }
        if occurs_at(s, i, css) {
            return Some((i, css.len()));
        }
        i = i + 1;
    }
    None
}

fn find_quote(s: &Vec<char>, j: usize) -> (q: usize)
    requires
        j <= s@.len(),
    ensures
        q == quote_end(s@, j as int),
{
    let mut q = j;
    while q < s.len() && s[q] != '"'
        invariant
            j <= q <= s@.len(),
            quote_end(s@, j as int) == quote_end(s@, q as int),
        decreases s@.len() - q,
    {
        q = q + 1;
    }
    q
}

/// Appends `?v=build_id` to the path of every `src="/js/...` and `href="/css/...`
/// reference of the page, leaving all other text unchanged.
pub fn cache_bust(html: &str, build_id: &str) -> (out: String)
    ensures
        out@ == cache_busted(html@, build_id@),
{
    let s = chars_of(html);
    let js = js_marker_exec();
    let css = css_marker_exec();
    let suffix = "?v=";
    proof {
        reveal_strlit("?v=");
        assert(suffix@ =~= seq!['?', 'v', '=']);
    }
    let mut out = String::new();
    let mut pos: usize = 0;
    let n = s.len();
    loop
        invariant
            n == s@.len(),
            s@ == html@,
            js@ == js_marker(),
            css@ == css_marker(),
            suffix@ == seq!['?', 'v', '='],
            pos <= s@.len(),
            cache_busted(html@, build_id@) == out@ + busted_from(s@, build_id@, pos as int),
        decreases s@.len() - pos,
    {
        match find_marker(&s, pos, &js, &css) {
            None => {
                out.append(html.substring_char(pos, s.len()));
                return out;
            },
            Some((i, len)) => {
                proof {
                    lemma_first_marker_bounds(s@, pos as int);
                    lemma_quote_end_bounds(s@, (i + len) as int);
                }
                let q = find_quote(&s, i + len);
                let ghost rest = busted_from(s@, build_id@, q as int);
                assert(busted_from(s@, build_id@, pos as int) == s@.subrange(pos as int, q as int)
                    + version_suffix(build_id@) + rest);
                let ghost before = out@;
                out.append(html.substring_char(pos, q));
                out.append(suffix);
                out.append(build_id);
                assert(out@ + rest =~= before + (s@.subrange(pos as int, q as int) + version_suffix(
                    build_id@,
                ) + rest));
                pos = q;
            },
        }
    }
}

} // verus!
