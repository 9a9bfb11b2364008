//! Valhalla routing engine: error messages, and the decoding of the encoded
//! polylines (Google polyline algorithm, precision 1e-6) of its routes.
//!
//! Each value is a variable-length integer: 5-bit chunks, least significant first,
//! each stored as the chunk plus 63; chunks of 32 and more (after the offset) carry
//! the continuation bit 0x20. The value is zigzag-encoded (sign in the lowest bit).
use vstd::prelude::*;
use crate::text::push_decimal;
#[allow(unused_imports)]
use crate::text::decimal;

verus! {

/// Error body of a failed Valhalla request.
pub struct ValhallaError {
    pub error: Option<String>,
    pub error_code: Option<u32>,
}

impl ValhallaError {
    /// Readable message: `Valhalla <code> — <error>`, or `Valhalla — <error>`
    /// without a code; `None` when the body holds no error text.
    pub fn message(&self) -> (r: Option<String>)
        ensures
            match self.error {
                None => r is None,
                Some(m) => r matches Some(s) && s@ == match self.error_code {
                    Some(c) => "Valhalla "@ + decimal(c as nat) + " — "@ + m@,
                    None => "Valhalla — "@ + m@,
                },
            },
    {
        match &self.error {
            None => None,
            Some(m) => {
                let mut out = String::new();
                match self.error_code {
                    Some(c) => {
                        out.append("Valhalla ");
                        push_decimal(&mut out, c as u64);
                        out.append(" — ");
                    },
                    None => {
                        out.append("Valhalla — ");
                    },
                }
                out.append(m.as_str());
                Some(out)
            },
        }
    }
}

/// The 5 payload bits carried by one encoded byte.
pub open spec fn chunk_value(b: u8) -> int {
    ((b as int) - 63) % 32
}

/// The byte ends its value (no continuation bit).
pub open spec fn is_last_chunk(b: u8) -> bool {
    (b as int) - 63 < 32
}

/// Index of the byte that ends the value starting at `i`, or the length of
/// `bytes` when no byte at or after `i` ends one.
pub open spec fn varint_end(bytes: Seq<u8>, i: int) -> int
    decreases bytes.len() - i,
{
    if i < 0 || i >= bytes.len() {
        bytes.len() as int
    } else if is_last_chunk(bytes[i]) {
        i
    } else {
        varint_end(bytes, i + 1)
    }
}

/// The chunks `bytes[i..=end]` put together, least significant first.
pub open spec fn varint_raw(bytes: Seq<u8>, i: int, end: int) -> int
    decreases end - i + 1,
{
    if i > end {
        0
    } else {
        chunk_value(bytes[i]) + 32 * varint_raw(bytes, i + 1, end)
    }
}

/// Two's-complement reading of the low 64 bits of `x`.
pub open spec fn wrap_i64(x: int) -> int {
    let m = x % 0x1_0000_0000_0000_0000;
    if m < 0x8000_0000_0000_0000 {
        m
    } else {
        m - 0x1_0000_0000_0000_0000
    }
}

/// Zigzag decoding: even values are non-negative, odd values negative.
pub open spec fn zigzag_decode(v: int) -> int {
    if v % 2 == 1 {
        -(v / 2) - 1
    } else {
        v / 2
    }
}

/// Zigzag encoding: non-negative values to even numbers, negative ones to odd.
pub open spec fn zigzag_encode(v: int) -> int {
    if v >= 0 {
        2 * v
    } else {
        -2 * v - 1
    }
}

/// Decoding undoes the zigzag encoding of every value.
pub proof fn law_zigzag_roundtrip(v: int)
    ensures
        zigzag_decode(zigzag_encode(v)) == v,
{
    if v >= 0 {
        assert((2 * v) % 2 == 0 && (2 * v) / 2 == v);
    } else {
        let e = -2 * v - 1;
        assert(e % 2 == 1 && e / 2 == -v - 1);
    }
}

/// The value encoded at `i`.
pub open spec fn varint_value(bytes: Seq<u8>, i: int) -> int {
    zigzag_decode(wrap_i64(varint_raw(bytes, i, varint_end(bytes, i))))
}

/// A complete value starts at `i`: it ends within the input, after at most 13
/// chunks (its last chunk is shifted by at most 60 bits).
pub open spec fn varint_ok(bytes: Seq<u8>, i: int) -> bool {
    &&& 0 <= i
    &&& varint_end(bytes, i) < bytes.len()
    &&& varint_end(bytes, i) - i < 13
}

pub proof fn lemma_varint_end_bounds(bytes: Seq<u8>, i: int)
    requires
        0 <= i,
    ensures
        varint_end(bytes, i) >= i || i >= bytes.len(),
        varint_end(bytes, i) <= bytes.len(),
        varint_end(bytes, i) < bytes.len() ==> is_last_chunk(bytes[varint_end(bytes, i)]),
        forall|t: int| i <= t < varint_end(bytes, i) ==> !is_last_chunk(#[trigger] bytes[t]),
    decreases bytes.len() - i,
{
    if i < bytes.len() && !is_last_chunk(bytes[i]) {
        lemma_varint_end_bounds(bytes, i + 1);
    }
}

proof fn lemma_raw_step(bytes: Seq<u8>, i: int, j: int, end: int, acc: int, pow: int)
    requires
        i <= j <= end,
        varint_raw(bytes, i, end) == acc + pow * varint_raw(bytes, j, end),
    ensures
        varint_raw(bytes, i, end) == (acc + pow * chunk_value(bytes[j])) + (pow * 32)
            * varint_raw(bytes, j + 1, end),
{
    let r = varint_raw(bytes, j + 1, end);
    let c = chunk_value(bytes[j]);
    assert(varint_raw(bytes, j, end) == c + 32 * r);
    assert(pow * (c + 32 * r) == pow * c + (pow * 32) * r) by (nonlinear_arith);
}

proof fn lemma_acc_bound(acc: int, pow: int, c: int)
    requires
        0 <= acc < pow,
        0 <= c < 32,
    ensures
        0 <= acc + pow * c < pow * 32,
{
    assert(pow * c <= pow * 31) by (nonlinear_arith)
        requires
            0 <= c < 32,
            pow > 0,
    ;
}

/// `32` to the power `k`: the weight of the chunk at offset `k`.
pub open spec fn pow32(k: nat) -> int
    decreases k,
{
    if k == 0 {
        1
    } else {
        32 * pow32((k - 1) as nat)
    }
}

proof fn lemma_pow32_mono(k: nat, m: nat)
    requires
        k <= m,
    ensures
        1 <= pow32(k) <= pow32(m),
    decreases m,
{
    if m > k {
        lemma_pow32_mono(k, (m - 1) as nat);
    } else if k > 0 {
        lemma_pow32_mono((k - 1) as nat, (k - 1) as nat);
    }
}

proof fn lemma_pow32_bound(k: nat)
    requires
        k <= 13,
    ensures
        1 <= pow32(k) <= 0x2_0000_0000_0000_0000,
{
    lemma_pow32_mono(k, 13);
    reveal_with_fuel(pow32, 14);
    assert(pow32(13) == 0x2_0000_0000_0000_0000);
}

/// Decodes the value that starts at `i`; returns it with the index just after it.
pub fn decode_varint(bytes: &[u8], i: usize) -> (r: (i64, usize))
    requires
        varint_ok(bytes@, i as int),
    ensures
        r.0 as int == varint_value(bytes@, i as int),
        r.1 as int == varint_end(bytes@, i as int) + 1,
{
    let ghost end = varint_end(bytes@, i as int);
    proof {
        lemma_varint_end_bounds(bytes@, i as int);
    }
    let mut acc: u128 = 0;
    let mut pow: u128 = 1;
    let mut j: usize = i;
    let mut done = false;
    while !done
        invariant
            i <= j <= end + 1,
            end < bytes@.len(),
            end - i < 13,
            done ==> j == end + 1,
            !done ==> j <= end,
            pow == pow32((j - i) as nat),
            0 <= acc < pow,
            varint_raw(bytes@, i as int, end) == acc + pow * varint_raw(bytes@, j as int, end),
            forall|t: int| i <= t < end ==> !is_last_chunk(#[trigger] bytes@[t]),
            is_last_chunk(bytes@[end]),
        decreases end + 1 - j,
    {
        let b = bytes[j];
        let c: u128 = ((b as u128) + 1) % 32;
        assert(c as int == chunk_value(b));
        proof {
            lemma_raw_step(bytes@, i as int, j as int, end, acc as int, pow as int);
            lemma_acc_bound(acc as int, pow as int, c as int);
            lemma_pow32_bound((j - i + 1) as nat);
            assert(pow32((j - i + 1) as nat) == 32 * pow32((j - i) as nat));
        }
        acc = acc + pow * c;
        pow = pow * 32;
        j = j + 1;
        if b < 95 {
            done = true;
        }
    }
    assert(varint_raw(bytes@, j as int, end) == 0);
    let m: u128 = acc % 0x1_0000_0000_0000_0000;
    let half: u128 = m / 2;
    let floor_half: i128 = if m < 0x8000_0000_0000_0000 {
        half as i128
    } else {
        half as i128 - 0x8000_0000_0000_0000
    };
    let value: i128 = if m % 2 == 1 {
        -floor_half - 1
    } else {
        floor_half
    };
    proof {
        let w = wrap_i64(acc as int);
        if m < 0x8000_0000_0000_0000 {
            assert(w == m);
            assert(w / 2 == floor_half);
            assert(w % 2 == m % 2);
        } else {
            assert(w == m - 0x1_0000_0000_0000_0000);
            assert(w / 2 == floor_half);
            assert(w % 2 == m % 2);
        }
    }
    (value as i64, j)
}

/// The points of an encoded polyline, as running sums of the decoded deltas
/// (latitude first, then longitude), in millionths of a degree; `None` when the
/// input is malformed: a value without its end, a latitude without longitude, or
/// a running sum out of the `i64` range.
pub open spec fn polyline_points(bytes: Seq<u8>, idx: int, lat: int, lng: int) -> Option<
    Seq<(int, int)>,
>
    decreases bytes.len() - idx,
{
    if idx < 0 || idx >= bytes.len() {
        Some(Seq::empty())
    } else if !varint_ok(bytes, idx) {
        None
    } else {
        let j = varint_end(bytes, idx) + 1;
        if !varint_ok(bytes, j) {
            None
        } else {
            let k = varint_end(bytes, j) + 1;
            let lat2 = lat + varint_value(bytes, idx);
            let lng2 = lng + varint_value(bytes, j);
            if lat2 < i64::MIN || lat2 > i64::MAX || lng2 < i64::MIN || lng2 > i64::MAX {
                None
            } else {
                proof {
                    lemma_varint_end_bounds(bytes, idx);
                    lemma_varint_end_bounds(bytes, j);
                }
                match polyline_points(bytes, k, lat2, lng2) {
                    None => None,
                    Some(rest) => Some(seq![(lat2, lng2)] + rest),
                }
            }
        }
    }
}

/// Polyline encoding of a non-negative value: 5-bit chunks, least significant
/// first, each written as the chunk plus 63, with 32 added to every chunk but the last.
pub open spec fn encode_chunks(z: nat) -> Seq<u8>
    decreases z,
{
    if z < 32 {
        seq![(z + 63) as u8]
    } else {
        seq![((z % 32) + 95) as u8] + encode_chunks(z / 32)
    }
}

/// Encoding of a signed value (zigzag, then chunks).
pub open spec fn encode_value(v: int) -> Seq<u8> {
    encode_chunks(zigzag_encode(v) as nat)
}

/// Polyline encoding of `points` (latitude, longitude), each written as its
/// difference from the previous point, starting from `(lat, lng)`.
pub open spec fn encode_points(points: Seq<(int, int)>, lat: int, lng: int) -> Seq<u8>
    decreases points.len(),
{
    if points.len() == 0 {
        Seq::empty()
    } else {
        let p = points[0];
        encode_value(p.0 - lat) + encode_value(p.1 - lng) + encode_points(points.drop_first(), p.0, p.1)
    }
}

/// The points can be written by a polyline encoder working on 64-bit integers:
/// every coordinate is an `i64`, and every difference between consecutive
/// coordinates lies in `[-2^62, 2^62)`.
pub open spec fn encodable(points: Seq<(int, int)>, lat: int, lng: int) -> bool
    decreases points.len(),
{
    if points.len() == 0 {
        true
    } else {
        let p = points[0];
        &&& i64::MIN <= p.0 <= i64::MAX
        &&& i64::MIN <= p.1 <= i64::MAX
        &&& -0x4000_0000_0000_0000 <= p.0 - lat < 0x4000_0000_0000_0000
        &&& -0x4000_0000_0000_0000 <= p.1 - lng < 0x4000_0000_0000_0000
        &&& encodable(points.drop_first(), p.0, p.1)
    }
}

proof fn lemma_encode_chunks_len(z: nat, k: nat)
    requires
        k >= 1,
        z < pow32(k),
    ensures
        1 <= encode_chunks(z).len() <= k,
    decreases z,
{
    if z >= 32 {
        assert(k >= 2) by {
            if k == 1 {
                assert(pow32(1) == 32 * pow32(0));
            }
        }
        assert(pow32(k) == 32 * pow32((k - 1) as nat));
        assert(z / 32 < pow32((k - 1) as nat));
        lemma_encode_chunks_len(z / 32, (k - 1) as nat);
    }
}

/// The encoding of `z`, placed between any `pre` and `suf`, is read back as one
/// value ending at its last byte, whose chunks make `z`.
proof fn lemma_encode_chunks_decodes(pre: Seq<u8>, z: nat, suf: Seq<u8>)
    ensures
        varint_end(pre + encode_chunks(z) + suf, pre.len() as int) == pre.len() + encode_chunks(z).len()
            - 1,
        varint_raw(
            pre + encode_chunks(z) + suf,
            pre.len() as int,
            pre.len() + encode_chunks(z).len() - 1,
        ) == z,
    decreases z,
{
    let s = pre + encode_chunks(z) + suf;
    let i = pre.len() as int;
    if z < 32 {
        let b = (z + 63) as u8;
        assert(s[i] == b);
        assert(is_last_chunk(b));
        assert(chunk_value(b) == z);
        assert(varint_raw(s, i + 1, i) == 0);
    } else {
        let b = ((z % 32) + 95) as u8;
        let rest = encode_chunks(z / 32);
        let pre2 = pre.push(b);
        assert(s =~= pre2 + rest + suf);
        lemma_encode_chunks_decodes(pre2, z / 32, suf);
        assert(s[i] == b);
        assert(!is_last_chunk(b));
        assert(chunk_value(b) == z % 32);
        let end = i + encode_chunks(z).len() - 1;
        assert(varint_raw(s, i, end) == chunk_value(b) + 32 * varint_raw(s, i + 1, end));
    }
}

proof fn lemma_encode_value_decodes(pre: Seq<u8>, v: int, suf: Seq<u8>)
    requires
        -0x4000_0000_0000_0000 <= v < 0x4000_0000_0000_0000,
    ensures
        varint_ok(pre + encode_value(v) + suf, pre.len() as int),
        varint_end(pre + encode_value(v) + suf, pre.len() as int) + 1 == pre.len() + encode_value(
            v,
        ).len(),
        varint_value(pre + encode_value(v) + suf, pre.len() as int) == v,
{
    let z = zigzag_encode(v);
    assert(0 <= z < 0x8000_0000_0000_0000);
    lemma_encode_chunks_decodes(pre, z as nat, suf);
    reveal_with_fuel(pow32, 14);
    assert(pow32(13) == 0x2_0000_0000_0000_0000);
    lemma_encode_chunks_len(z as nat, 13);
    law_zigzag_roundtrip(v);
    assert(wrap_i64(z) == z);
}

proof fn lemma_points_decode(pre: Seq<u8>, points: Seq<(int, int)>, lat: int, lng: int)
    requires
        encodable(points, lat, lng),
        i64::MIN <= lat <= i64::MAX,
        i64::MIN <= lng <= i64::MAX,
    ensures
        polyline_points(pre + encode_points(points, lat, lng), pre.len() as int, lat, lng) == Some(
            points,
        ),
    decreases points.len(),
{
    let s = pre + encode_points(points, lat, lng);
    let i = pre.len() as int;
    if points.len() == 0 {
        assert(s =~= pre);
        assert(points =~= Seq::<(int, int)>::empty());
    } else {
        let p = points[0];
        let e1 = encode_value(p.0 - lat);
        let e2 = encode_value(p.1 - lng);
        let tail = encode_points(points.drop_first(), p.0, p.1);
        assert(s =~= pre + e1 + (e2 + tail));
        lemma_encode_value_decodes(pre, p.0 - lat, e2 + tail);
        let pre2 = pre + e1;
        assert(s =~= pre2 + e2 + tail);
        lemma_encode_value_decodes(pre2, p.1 - lng, tail);
        let pre3 = pre2 + e2;
        assert(s =~= pre3 + tail);
        lemma_points_decode(pre3, points.drop_first(), p.0, p.1);
        assert(seq![p] + points.drop_first() =~= points);
    }
}

/// Decoding undoes the polyline encoding: every route an encoder on 64-bit
/// integers can write (values of up to 13 chunks) is read back point for point.
pub proof fn law_decode_inverts_encode(points: Seq<(int, int)>)
    requires
        encodable(points, 0, 0),
    ensures
        polyline_points(encode_points(points, 0, 0), 0, 0, 0) == Some(points),
{
    lemma_points_decode(Seq::empty(), points, 0, 0);
    assert(Seq::<u8>::empty() + encode_points(points, 0, 0) =~= encode_points(points, 0, 0));
}

fn varint_ok_exec(bytes: &[u8], i: usize) -> (r: bool)
    requires
        i <= bytes@.len(),
    ensures
        r == varint_ok(bytes@, i as int),
{
    let mut j = i;
    let n = bytes.len();
    while j < n && bytes[j] >= 95
        invariant
            i <= j <= n,
            n == bytes@.len(),
            varint_end(bytes@, i as int) == varint_end(bytes@, j as int),
        decreases n - j,
    {
        j = j + 1;
    }
    j < n && j - i < 13
}

/// Decodes a polyline into `(latitude, longitude)` points in millionths of a degree.
pub fn decode_polyline6(encoded: &[u8]) -> (r: Option<Vec<(i64, i64)>>)
    ensures
        match polyline_points(encoded@, 0, 0, 0) {
            None => r is None,
            Some(pts) => r matches Some(v) && v@.len() == pts.len() && forall|k: int|
                0 <= k < pts.len() ==> (#[trigger] v@[k]).0 as int == pts[k].0 && v@[k].1 as int
                    == pts[k].1,
        },
{
    let n = encoded.len();
    let mut coords: Vec<(i64, i64)> = Vec::new();
    let mut idx: usize = 0;
    let mut lat: i64 = 0;
    let mut lng: i64 = 0;
    while idx < n
        invariant
            n == encoded@.len(),
            idx <= n,
            polyline_points(encoded@, 0, 0, 0) matches Some(all) ==> (polyline_points(
                encoded@,
                idx as int,
                lat as int,
                lng as int,
            ) matches Some(rest) && all =~= coords@.map_values(
                |p: (i64, i64)| (p.0 as int, p.1 as int),
            ) + rest),
            polyline_points(encoded@, 0, 0, 0) is None ==> polyline_points(
                encoded@,
                idx as int,
                lat as int,
                lng as int,
            ) is None,
        decreases n - idx,
    {
        if !varint_ok_exec(encoded, idx) {
            return None;
        }
        let (d_lat, j) = decode_varint(encoded, idx);
        proof {
            lemma_varint_end_bounds(encoded@, idx as int);
        }
        if !varint_ok_exec(encoded, j) {
            return None;
        }
        let (d_lng, k) = decode_varint(encoded, j);
        proof {
            lemma_varint_end_bounds(encoded@, j as int);
        }
        let new_lat = match lat.checked_add(d_lat) {
            Some(v) => v,
            None => {
                return None;
            },
        };
        let new_lng = match lng.checked_add(d_lng) {
            Some(v) => v,
            None => {
                return None;
            },
        };
        let ghost before = coords@;
        coords.push((new_lat, new_lng));
        proof {
            assert(coords@.map_values(|p: (i64, i64)| (p.0 as int, p.1 as int)) =~= before.map_values(
                |p: (i64, i64)| (p.0 as int, p.1 as int),
            ) + seq![(new_lat as int, new_lng as int)]);
        }
        lat = new_lat;
        lng = new_lng;
        idx = k;
    }
    proof {
        if let Some(all) = polyline_points(encoded@, 0, 0, 0) {
            assert(coords@.map_values(|p: (i64, i64)| (p.0 as int, p.1 as int)) =~= all);
        }
    }
    Some(coords)
}

} // verus!
