//! What the service keeps of a client: the address announced by the proxy
//! headers, and the only form in which it is stored, its SHA-256 digest in hex.
use sha2::{Digest, Sha256};
use vstd::prelude::*;
use vstd::string::StringSliceAdditionalSpecFns;

verus! {

/// Unicode `White_Space` characters, those that `str::trim` removes.
pub open spec fn is_white_space(c: char) -> bool {
    let u = c as u32;
    ||| 0x9 <= u <= 0xD
    ||| u == 0x20
    ||| u == 0x85
    ||| u == 0xA0
    ||| u == 0x1680
    ||| 0x2000 <= u <= 0x200A
    ||| u == 0x2028
    ||| u == 0x2029
    ||| u == 0x202F
    ||| u == 0x205F
    ||| u == 0x3000
}

/// Position of the first comma at or after `i`, or the end of `s`.
pub open spec fn field_end(s: Seq<char>, i: int) -> int
    decreases s.len() - i,
{
    if i >= s.len() || s[i] == ',' {
        i
    } else {
        field_end(s, i + 1)
    }
}

/// First position from `i` on, before `end`, that is not white space (else `end`).
pub open spec fn skip_space_front(s: Seq<char>, i: int, end: int) -> int
    decreases end - i,
{
    if i < end && is_white_space(s[i]) {
        skip_space_front(s, i + 1, end)
    } else {
        i
    }
}

/// End of `s[start..j]` once trailing white space is dropped.
pub open spec fn skip_space_back(s: Seq<char>, start: int, j: int) -> int
    decreases j - start,
{
    if j > start && is_white_space(s[j - 1]) {
        skip_space_back(s, start, j - 1)
    } else {
        j
    }
}

/// The first comma-separated field of a proxy header, trimmed of white space:
/// the client's address as `X-Real-IP` or `X-Forwarded-For` announces it.
pub open spec fn announced_address(s: Seq<char>) -> Seq<char> {
    let k = field_end(s, 0);
    let a = skip_space_front(s, 0, k);
    s.subrange(a, skip_space_back(s, a, k))
}

fn white_space(c: char) -> (r: bool)
    ensures
        r == is_white_space(c),
{
    let u = c as u32;
    (0x9 <= u && u <= 0xD) || u == 0x20 || u == 0x85 || u == 0xA0 || u == 0x1680 || (0x2000 <= u
        && u <= 0x200A) || u == 0x2028 || u == 0x2029 || u == 0x202F || u == 0x205F || u == 0x3000
}

/// The address announced in a proxy header: its first comma-separated field,
/// without surrounding white space.
pub fn announced_ip(header: &str) -> (r: &str)
    ensures
        r@ == announced_address(header@),
{
    let s = crate::text::chars_of(header);
    let n = s.len();
    let mut k: usize = 0;
    while k < n && s[k] != ','
        invariant
            n == s@.len(),
            k <= n,
            field_end(s@, 0) == field_end(s@, k as int),
        decreases n - k,
    {
        k = k + 1;
    }
    let mut a: usize = 0;
    while a < k && white_space(s[a])
        invariant
            n == s@.len(),
            a <= k <= n,
            skip_space_front(s@, 0, k as int) == skip_space_front(s@, a as int, k as int),
        decreases k - a,
    {
        a = a + 1;
    }
    let mut b: usize = k;
    while b > a && white_space(s[b - 1])
        invariant
            n == s@.len(),
            a <= b <= k <= n,
            skip_space_back(s@, a as int, k as int) == skip_space_back(s@, a as int, b as int),
        decreases b - a,
    {
        b = b - 1;
    }
    header.substring_char(a, b)
}

/// The SHA-256 digest of `bytes`.
pub uninterp spec fn sha256_digest(bytes: Seq<u8>) -> Seq<u8>;

/// `sha2::Sha256::digest`. Claimed: the result is the SHA-256 digest of the
/// input bytes (a function of them alone), 32 bytes long.
#[verifier::external_body]
fn sha256(bytes: &[u8]) -> (d: Vec<u8>)
    ensures
        d@ == sha256_digest(bytes@),
        d@.len() == 32,
{
    Sha256::digest(bytes).to_vec()
}

/// Lower-case hex digit of `v` (below 16).
pub open spec fn hex_digit(v: int) -> char {
    if v < 10 {
        ((v + 48) as u8) as char
    } else {
        ((v + 87) as u8) as char
    }
}

/// Lower-case hex notation of `bytes`, two digits per byte, most significant first.
pub open spec fn hex_lower(bytes: Seq<u8>) -> Seq<char>
    decreases bytes.len(),
{
    if bytes.len() == 0 {
        Seq::empty()
    } else {
        hex_lower(bytes.drop_last()) + seq![
            hex_digit(bytes.last() as int / 16),
            hex_digit(bytes.last() as int % 16),
        ]
    }
}

proof fn lemma_hex_lower_len(bytes: Seq<u8>)
    ensures
        hex_lower(bytes).len() == 2 * bytes.len(),
    decreases bytes.len(),
{
    if bytes.len() > 0 {
        lemma_hex_lower_len(bytes.drop_last());
    }
}

fn hex_str(d: u8) -> (s: &'static str)
    requires
        d < 16,
    ensures
        s@ == seq![hex_digit(d as int)],
{
    if d == 0 { proof { reveal_strlit("0"); } "0" }
    else if d == 1 { proof { reveal_strlit("1"); } "1" }
    else if d == 2 { proof { reveal_strlit("2"); } "2" }
    else if d == 3 { proof { reveal_strlit("3"); } "3" }
    else if d == 4 { proof { reveal_strlit("4"); } "4" }
    else if d == 5 { proof { reveal_strlit("5"); } "5" }
    else if d == 6 { proof { reveal_strlit("6"); } "6" }
    else if d == 7 { proof { reveal_strlit("7"); } "7" }
    else if d == 8 { proof { reveal_strlit("8"); } "8" }
    else if d == 9 { proof { reveal_strlit("9"); } "9" }
    else if d == 10 { proof { reveal_strlit("a"); } "a" }
    else if d == 11 { proof { reveal_strlit("b"); } "b" }
    else if d == 12 { proof { reveal_strlit("c"); } "c" }
    else if d == 13 { proof { reveal_strlit("d"); } "d" }
    else if d == 14 { proof { reveal_strlit("e"); } "e" }
    else { proof { reveal_strlit("f"); } "f" }
}

/// Lower-case hex notation of `bytes`.
pub fn to_hex(bytes: &[u8]) -> (s: String)
    ensures
        s@ == hex_lower(bytes@),
{
    let mut s = String::new();
    let mut i: usize = 0;
    while i < bytes.len()
        invariant
            i <= bytes@.len(),
            s@ == hex_lower(bytes@.take(i as int)),
        decreases bytes@.len() - i,
    {
        let b = bytes[i];
        s.append(hex_str(b / 16));
        s.append(hex_str(b % 16));
        assert(bytes@.take(i + 1).drop_last() =~= bytes@.take(i as int));
        i = i + 1;
    }
    assert(bytes@.take(i as int) =~= bytes@);
    s
}

/// The stored form of a client address: SHA-256 of its text, in lower-case hex
/// (64 characters). The address itself is never kept.
pub fn hash_ip(ip: &str) -> (h: String)
    ensures
        h@ == hex_lower(sha256_digest(ip.spec_bytes())),
        h@.len() == 64,
{
    let d = sha256(ip.as_bytes());
    let h = to_hex(d.as_slice());
    proof {
        lemma_hex_lower_len(d@);
    }
    h
}

} // verus!
