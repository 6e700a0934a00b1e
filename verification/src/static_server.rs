//! Request logic of the built-in static file server: decoding request
//! paths, keeping them inside the served directory, picking a proxy rule,
//! content types, byte ranges and the addresses requests are forwarded to.
use vstd::prelude::*;
use vstd::utf8::*;
use crate::models::ProxyRule;
use crate::text::{
    chars_eq_str, chars_of, decimal, find_char, lemma_run_len, has_prefix, has_str_prefix, parse_unsigned,
    parse_unsigned_chars, push_all, push_decimal, push_str_chars, run_len, slice_chars,
    split_at_char, split_chars, starts_with, string_from_chars, strip_prefix, trim_end_char,
    trim_end_chars, trim_start_char, trim_start_chars, trim_start_lit, trim_start_str,
};

verus! {

broadcast use vstd::string::group_string_axioms;

// ---------------------------------------------------------------------------
// Percent decoding
// ---------------------------------------------------------------------------

/// Value of an ASCII hexadecimal digit.
pub open spec fn hex_value(b: u8) -> Option<u8> {
    if 0x30 <= b <= 0x39 {
        Some((b - 0x30) as u8)
    } else if 0x61 <= b <= 0x66 {
        Some((b - 0x61 + 10) as u8)
    } else if 0x41 <= b <= 0x46 {
        Some((b - 0x41 + 10) as u8)
    } else {
        None
    }
}

/// The byte written as the two hexadecimal digits after a `%`, if both are
/// hexadecimal digits.
pub open spec fn escape_value(b1: u8, b2: u8) -> Option<u8> {
    match (hex_value(b1), hex_value(b2)) {
        (Some(h), Some(l)) => Some((h * 16 + l) as u8),
        _ => None,
    }
}

/// Bytes of a decoded URL path: `%XX` becomes the byte `XX`, `+` becomes a
/// space, everything else is kept.
pub open spec fn decode_bytes(s: Seq<u8>) -> Seq<u8>
    decreases s.len(),
{
    if s.len() == 0 {
        seq![]
    } else if s[0] == 0x25 && s.len() > 2 && escape_value(s[1], s[2]) is Some {
        seq![escape_value(s[1], s[2])->0] + decode_bytes(s.skip(3))
    } else if s[0] == 0x2b {
        seq![0x20u8] + decode_bytes(s.skip(1))
    } else {
        seq![s[0]] + decode_bytes(s.skip(1))
    }
}

/// The decoded path: the characters of the decoded bytes when they are
/// valid UTF-8, nothing otherwise.
pub open spec fn percent_decoded(s: Seq<char>) -> Option<Seq<char>> {
    let b = decode_bytes(encode_utf8(s));
    if valid_utf8(b) {
        Some(decode_utf8(b))
    } else {
        None
    }
}

fn hex_digit(b: u8) -> (r: Option<u8>)
    ensures
        r == hex_value(b),
{
    if 0x30 <= b && b <= 0x39 {
        Some(b - 0x30)
    } else if 0x61 <= b && b <= 0x66 {
        Some(b - 0x61 + 10)
    } else if 0x41 <= b && b <= 0x46 {
        Some(b - 0x41 + 10)
    } else {
        None
    }
}

fn escape(b1: u8, b2: u8) -> (r: Option<u8>)
    ensures
        r == escape_value(b1, b2),
{
    match (hex_digit(b1), hex_digit(b2)) {
        (Some(h), Some(l)) => Some(h * 16 + l),
        _ => None,
    }
}

/// `String::from_utf8`: the string whose UTF-8 encoding is `bytes`, if
/// `bytes` is valid UTF-8.
#[verifier::external_body]
fn string_from_utf8(bytes: Vec<u8>) -> (r: Option<String>)
    ensures
        r is Some <==> valid_utf8(bytes@),
        r matches Some(s) ==> s@ == decode_utf8(bytes@),
{
    String::from_utf8(bytes).ok()
}

pub proof fn lemma_decode_bytes_len(s: Seq<u8>)
    ensures
        decode_bytes(s).len() <= s.len(),
    decreases s.len(),
{
    if s.len() > 0 {
        if s[0] == 0x25 && s.len() > 2 && escape_value(s[1], s[2]) is Some {
            lemma_decode_bytes_len(s.skip(3));
        } else {
            lemma_decode_bytes_len(s.skip(1));
        }
    }
}

/// Decodes a URL-encoded path: `+` is a space and `%XX` the byte `XX`.
/// Returns `None` when the decoded bytes are not valid UTF-8.
pub fn percent_decode(input: &str) -> (r: Option<String>)
    ensures
        r is Some <==> percent_decoded(input@) is Some,
        r matches Some(s) ==> percent_decoded(input@) == Some(s@),
        decode_bytes(encode_utf8(input@)).len() <= encode_utf8(input@).len(),
{
    let bytes = input.as_bytes();
    let ghost all = bytes@;
    let mut result: Vec<u8> = Vec::new();
    let mut i: usize = 0;
    assert(all.skip(0) =~= all);
    while i < bytes.len()
        invariant
            bytes@ == all,
            i <= all.len(),
            result@ + decode_bytes(all.skip(i as int)) == decode_bytes(all),
        decreases all.len() - i,
    {
        let ghost rest = all.skip(i as int);
        if bytes[i] == 0x25 && bytes.len() - i > 2 {
            match escape(bytes[i + 1], bytes[i + 2]) {
                Some(b) => {
                    proof {
                        assert(rest[1] == all[i + 1]);
                        assert(rest[2] == all[i + 2]);
                        assert(rest.skip(3) =~= all.skip(i + 3));
                        assert(decode_bytes(rest) == seq![b] + decode_bytes(all.skip(i + 3)));
                    }
                    let ghost before = result@;
                    result.push(b);
                    i += 3;
                    proof {
                        assert(result@ + decode_bytes(all.skip(i as int)) =~= before + (seq![b]
                            + decode_bytes(all.skip(i as int))));
                    }
                    continue;
                },
                None => {},
            }
        }
        let b = if bytes[i] == 0x2b {
            0x20u8
        } else {
            bytes[i]
        };
        proof {
            assert(rest.skip(1) =~= all.skip(i + 1));
            assert(decode_bytes(rest) == seq![b] + decode_bytes(all.skip(i + 1)));
        }
        let ghost before = result@;
        result.push(b);
        i += 1;
        proof {
            assert(result@ + decode_bytes(all.skip(i as int)) =~= before + (seq![b] + decode_bytes(
                all.skip(i as int),
            )));
        }
    }
    proof {
        lemma_decode_bytes_len(all);
        assert(decode_bytes(all.skip(i as int)) == Seq::<u8>::empty());
        assert(result@ =~= decode_bytes(all));
    }
    string_from_utf8(result)
}

/// A path holding no `%` and no `+` decodes to itself.
pub proof fn law_percent_decode_plain(s: Seq<char>)
    requires
        forall|i: int| 0 <= i < s.len() ==> #[trigger] s[i] != '%' && s[i] != '+',
    ensures
        percent_decoded(s) == Some(s),
{
    lemma_plain_chars_plain_bytes(s);
    lemma_decode_bytes_plain(encode_utf8(s));
    encode_utf8_valid_utf8(s);
    encode_utf8_decode_utf8(s);
}

/// Every byte of the UTF-8 encoding of a scalar above 0x7F is at least 0x80.
proof fn lemma_scalar_bytes_high(v: u32)
    requires
        !has_width_1_encoding(v),
    ensures
        forall|i: int| 0 <= i < encode_scalar(v).len() ==> #[trigger] encode_scalar(v)[i] >= 0x80,
{
    assert(leading_byte_width_2(v) >= 0x80) by (bit_vector);
    assert(leading_byte_width_3(v) >= 0x80) by (bit_vector);
    assert(leading_byte_width_4(v) >= 0x80) by (bit_vector);
    assert(last_continuation_byte(v) >= 0x80) by (bit_vector);
    assert(second_last_continuation_byte(v) >= 0x80) by (bit_vector);
    assert(third_last_continuation_byte(v) >= 0x80) by (bit_vector);
}

/// A text without `%` and `+` has neither byte in its UTF-8 encoding.
proof fn lemma_plain_chars_plain_bytes(s: Seq<char>)
    requires
        forall|i: int| 0 <= i < s.len() ==> #[trigger] s[i] != '%' && s[i] != '+',
    ensures
        forall|i: int|
            0 <= i < encode_utf8(s).len() ==> #[trigger] encode_utf8(s)[i] != 0x25
                && encode_utf8(s)[i] != 0x2b,
    decreases s.len(),
{
    if s.len() > 0 {
        let rest = s.drop_first();
        assert forall|i: int| 0 <= i < rest.len() implies #[trigger] rest[i] != '%' && rest[i] != '+' by {
            assert(rest[i] == s[i + 1]);
        }
        lemma_plain_chars_plain_bytes(rest);
        let v = s[0] as u32;
        let e = encode_scalar(v);
        let all = encode_utf8(s);
        assert(all == e + encode_utf8(rest));
        if has_width_1_encoding(v) {
            assert(leading_byte_width_1(v) as u32 == v) by (bit_vector)
                requires
                    v <= 0x7F,
            ;
            char_u32_cast(s[0], v);
            char_u32_cast('%', '%' as u32);
            char_u32_cast('+', '+' as u32);
            assert('%' as u32 == 0x25 && '+' as u32 == 0x2b);
            assert(v != 0x25 && v != 0x2b);
        } else {
            lemma_scalar_bytes_high(v);
        }
        assert forall|i: int| 0 <= i < all.len() implies #[trigger] all[i] != 0x25 && all[i] != 0x2b by {
            if i < e.len() {
                assert(all[i] == e[i]);
            } else {
                assert(all[i] == encode_utf8(rest)[i - e.len()]);
            }
        }
    }
}

proof fn lemma_decode_bytes_plain(b: Seq<u8>)
    requires
        forall|i: int| 0 <= i < b.len() ==> #[trigger] b[i] != 0x25 && b[i] != 0x2b,
    ensures
        decode_bytes(b) == b,
    decreases b.len(),
{
    if b.len() > 0 {
        let t = b.skip(1);
        assert forall|i: int| 0 <= i < t.len() implies #[trigger] t[i] != 0x25 && t[i] != 0x2b by {
            assert(t[i] == b[i + 1]);
        }
        lemma_decode_bytes_plain(t);
        assert(seq![b[0]] + t =~= b);
    }
}

/// The upper-case hexadecimal digit (as an ASCII byte) of `d < 16`.
pub open spec fn hex_digit_byte(d: u8) -> u8 {
    if d < 10 {
        (0x30 + d) as u8
    } else {
        (0x41 + d - 10) as u8
    }
}

/// Every byte of `b` written as `%XX`.
pub open spec fn percent_encoded_bytes(b: Seq<u8>) -> Seq<u8>
    decreases b.len(),
{
    if b.len() == 0 {
        seq![]
    } else {
        seq![0x25u8, hex_digit_byte(b[0] / 16), hex_digit_byte(b[0] % 16)] + percent_encoded_bytes(
            b.skip(1),
        )
    }
}

proof fn lemma_decode_encoded_bytes(b: Seq<u8>)
    ensures
        decode_bytes(percent_encoded_bytes(b)) == b,
    decreases b.len(),
{
    if b.len() > 0 {
        let e = percent_encoded_bytes(b);
        let rest = percent_encoded_bytes(b.skip(1));
        let h = b[0] / 16;
        let l = b[0] % 16;
        assert(e[0] == 0x25u8);
        assert(e[1] == hex_digit_byte(h));
        assert(e[2] == hex_digit_byte(l));
        assert(hex_value(hex_digit_byte(h)) == Some(h));
        assert(hex_value(hex_digit_byte(l)) == Some(l));
        assert(h * 16 + l == b[0]);
        assert(e.skip(3) =~= rest);
        lemma_decode_encoded_bytes(b.skip(1));
        assert(seq![b[0]] + b.skip(1) =~= b);
    }
}

/// Every byte of `b` written as `%XX`, as text.
pub open spec fn percent_encoded(b: Seq<u8>) -> Seq<char> {
    percent_encoded_bytes(b).map_values(|x: u8| x as char)
}

/// Every byte of `percent_encoded_bytes(b)` is ASCII.
proof fn lemma_encoded_bytes_ascii(b: Seq<u8>)
    ensures
        forall|i: int|
            0 <= i < percent_encoded_bytes(b).len() ==> #[trigger] percent_encoded_bytes(b)[i] < 0x80,
    decreases b.len(),
{
    if b.len() > 0 {
        let e = percent_encoded_bytes(b);
        let rest = percent_encoded_bytes(b.skip(1));
        lemma_encoded_bytes_ascii(b.skip(1));
        assert forall|i: int| 0 <= i < e.len() implies #[trigger] e[i] < 0x80 by {
            if i >= 3 {
                assert(e[i] == rest[i - 3]);
            }
        }
    }
}

/// The text that writes every UTF-8 byte of `s` as `%XX` decodes to `s`.
pub proof fn law_percent_decode_encoded(s: Seq<char>)
    ensures
        percent_decoded(percent_encoded(encode_utf8(s))) == Some(s),
{
    let b = percent_encoded_bytes(encode_utf8(s));
    let t = percent_encoded(encode_utf8(s));
    lemma_encoded_bytes_ascii(encode_utf8(s));
    assert(is_ascii_chars(t)) by {
        assert forall|i: int| 0 <= i < t.len() implies '\0' <= #[trigger] t[i] <= '\u{7f}' by {
            assert(t[i] == b[i] as char);
            assert(b[i] < 0x80);
        }
    }
    is_ascii_chars_encode_utf8(t);
    assert(encode_utf8(t) =~= b) by {
        assert forall|i: int| 0 <= i < t.len() implies #[trigger] encode_utf8(t)[i] == b[i] by {
            assert(t[i] as u8 == encode_utf8(t)[i]);
            assert(t[i] == b[i] as char);
        }
    }
    lemma_decode_encoded_bytes(encode_utf8(s));
    encode_utf8_valid_utf8(s);
    encode_utf8_decode_utf8(s);
}

// ---------------------------------------------------------------------------
// Proxy rules
// ---------------------------------------------------------------------------

/// `s` without its trailing `/` bytes.
pub open spec fn trim_trailing_slashes(s: Seq<u8>) -> Seq<u8>
    decreases s.len(),
{
    if s.len() > 0 && s.last() == 0x2f {
        trim_trailing_slashes(s.drop_last())
    } else {
        s
    }
}

/// A request path is served by a rule when, both without trailing slashes,
/// they are equal or the request continues the rule's path with a `/`.
pub open spec fn path_matches_rule(req: Seq<u8>, rule: Seq<u8>) -> bool {
    let r = trim_trailing_slashes(req);
    let p = trim_trailing_slashes(rule);
    r == p || (r.len() > p.len() && r.take(p.len() as int) == p && r[p.len() as int] == 0x2f)
}

/// Byte length of a rule's path when it serves `req`, 0 otherwise.
pub open spec fn rule_score(req: Seq<u8>, rule: ProxyRule) -> nat {
    let p = encode_utf8(rule.path@);
    if path_matches_rule(req, p) {
        trim_trailing_slashes(p).len()
    } else {
        0
    }
}

/// `rules[k]` is the first of the rules with the longest matching path, and
/// that path is not empty.
pub open spec fn is_best_rule(req: Seq<u8>, rules: Seq<ProxyRule>, k: int) -> bool {
    &&& 0 <= k < rules.len()
    &&& rule_score(req, rules[k]) > 0
    &&& forall|j: int| 0 <= j < k ==> #[trigger] rule_score(req, rules[j]) < rule_score(req, rules[k])
    &&& forall|j: int|
        k < j < rules.len() ==> #[trigger] rule_score(req, rules[j]) <= rule_score(req, rules[k])
}

proof fn lemma_trim_slashes_at(s: Seq<u8>, n: int)
    requires
        0 <= n <= s.len(),
        forall|j: int| n <= j < s.len() ==> #[trigger] s[j] == 0x2f,
        n > 0 ==> s[n - 1] != 0x2f,
    ensures
        trim_trailing_slashes(s) == s.take(n),
    decreases s.len(),
{
    if s.len() > 0 && s.last() == 0x2f {
        lemma_trim_slashes_at(s.drop_last(), n);
        assert(s.drop_last().take(n) =~= s.take(n));
    } else {
        assert(s.take(s.len() as int) =~= s);
    }
}

/// Length of `b` without its trailing slashes.
fn untrailed_len(b: &[u8]) -> (n: usize)
    ensures
        n <= b@.len(),
        trim_trailing_slashes(b@) == b@.take(n as int),
{
    let mut n = b.len();
    while n > 0 && b[n - 1] == 0x2f
        invariant
            n <= b@.len(),
            forall|j: int| n <= j < b@.len() ==> #[trigger] b@[j] == 0x2f,
        decreases n,
    {
        n -= 1;
    }
    proof {
        lemma_trim_slashes_at(b@, n as int);
    }
    n
}

/// Whether `a[..n] == b[..n]`.
fn prefix_eq(a: &[u8], b: &[u8], n: usize) -> (r: bool)
    requires
        n <= a@.len(),
        n <= b@.len(),
    ensures
        r == (a@.take(n as int) == b@.take(n as int)),
{
    let mut i: usize = 0;
    while i < n
        invariant
            i <= n <= a@.len(),
            n <= b@.len(),
            forall|j: int| 0 <= j < i ==> a@[j] == b@[j],
        decreases n - i,
    {
        if a[i] != b[i] {
            assert(a@.take(n as int)[i as int] != b@.take(n as int)[i as int]);
            return false;
        }
        i += 1;
    }
    assert(a@.take(n as int) =~= b@.take(n as int));
    true
}

/// Score of one rule for the request bytes `req`.
fn score(req: &[u8], rule: &ProxyRule) -> (s: usize)
    ensures
        s == rule_score(req@, *rule),
{
    let p = rule.path.as_str().as_bytes();
    let rn = untrailed_len(req);
    let pn = untrailed_len(p);
    let r_t = Ghost(req@.take(rn as int));
    let p_t = Ghost(p@.take(pn as int));
    let same = rn == pn && prefix_eq(req, p, rn);
    let below = rn > pn && prefix_eq(req, p, pn) && req[pn] == 0x2f;
    proof {
        if rn == pn {
            assert(r_t@ == p_t@ <==> req@.take(rn as int) == p@.take(rn as int));
        } else {
            if r_t@ == p_t@ {
                assert(r_t@.len() == p_t@.len());
            }
        }
        if rn > pn {
            assert(r_t@.take(pn as int) =~= req@.take(pn as int));
            assert(r_t@[pn as int] == req@[pn as int]);
        }
    }
    if same || below {
        pn
    } else {
        0
    }
}

/// Index of the proxy rule that serves `path`: the first rule with the
/// longest non-empty matching path.
pub fn match_proxy_rule_index(path: &str, rules: &[ProxyRule]) -> (r: Option<usize>)
    ensures
        match r {
            Some(k) => is_best_rule(encode_utf8(path@), rules@, k as int),
            None => forall|j: int|
                0 <= j < rules@.len() ==> #[trigger] rule_score(encode_utf8(path@), rules@[j]) == 0,
        },
{
    let req = path.as_bytes();
    let mut best: Option<usize> = None;
    let mut best_len: usize = 0;
    let mut i: usize = 0;
    while i < rules.len()
        invariant
            req@ == encode_utf8(path@),
            i <= rules@.len(),
            match best {
                Some(k) => {
                    &&& k < i
                    &&& best_len == rule_score(req@, rules@[k as int])
                    &&& best_len > 0
                    &&& forall|j: int| 0 <= j < k ==> #[trigger] rule_score(req@, rules@[j]) < best_len
                    &&& forall|j: int| k < j < i ==> #[trigger] rule_score(req@, rules@[j]) <= best_len
                },
                None => {
                    &&& best_len == 0
                    &&& forall|j: int| 0 <= j < i ==> #[trigger] rule_score(req@, rules@[j]) == 0
                },
            },
        decreases rules@.len() - i,
    {
        let sc = score(req, &rules[i]);
        if sc > best_len {
            best = Some(i);
            best_len = sc;
        }
        i += 1;
    }
    best
}

/// The proxy rule that serves `path`, if any (see `match_proxy_rule_index`).
pub fn match_proxy_rule<'a>(path: &str, rules: &'a [ProxyRule]) -> (r: Option<&'a ProxyRule>)
    ensures
        match r {
            Some(rule) => exists|k: int|
                is_best_rule(encode_utf8(path@), rules@, k) && *rule == #[trigger] rules@[k],
            None => forall|j: int|
                0 <= j < rules@.len() ==> #[trigger] rule_score(encode_utf8(path@), rules@[j]) == 0,
        },
{
    match match_proxy_rule_index(path, rules) {
        Some(k) => Some(&rules[k]),
        None => None,
    }
}

// ---------------------------------------------------------------------------
// Content types
// ---------------------------------------------------------------------------

/// Number of trailing characters of `p` different from `c`.
pub open spec fn tail_without(p: Seq<char>, c: char) -> nat
    decreases p.len(),
{
    if p.len() > 0 && p.last() != c {
        1 + tail_without(p.drop_last(), c)
    } else {
        0
    }
}

pub proof fn lemma_tail_without_at(p: Seq<char>, c: char, n: int)
    requires
        0 <= n <= p.len(),
        forall|j: int| p.len() - n <= j < p.len() ==> #[trigger] p[j] != c,
        n < p.len() ==> p[p.len() - n - 1] == c,
    ensures
        tail_without(p, c) == n,
    decreases p.len(),
{
    if p.len() > 0 && p.last() != c {
        let q = p.drop_last();
        assert forall|j: int| q.len() - (n - 1) <= j < q.len() implies #[trigger] q[j] != c by {
            assert(q[j] == p[j]);
        }
        if n - 1 < q.len() {
            assert(q[q.len() - (n - 1) - 1] == p[p.len() - n - 1]);
        }
        lemma_tail_without_at(q, c, n - 1);
    } else {
        if n > 0 {
            assert(p[p.len() - 1] != c);
        }
    }
}

/// `Path::file_name` of a Unix path: its last component, ignoring trailing
/// slashes and `.` components; nothing when that component is `..` or when
/// there is none.
pub open spec fn file_name(p: Seq<char>) -> Option<Seq<char>>
    decreases p.len(),
{
    if p.len() == 0 {
        None
    } else if p.last() == '/' {
        file_name(p.drop_last())
    } else {
        let n = tail_without(p, '/');
        let start = p.len() - n;
        let seg = p.skip(start);
        if seg == seq!['.'] {
            proof {
                lemma_tail_without_le(p, '/');
            }
            file_name(p.take(start))
        } else if seg == seq!['.', '.'] {
            None
        } else {
            Some(seg)
        }
    }
}

pub proof fn lemma_tail_without_le(p: Seq<char>, c: char)
    ensures
        tail_without(p, c) <= p.len(),
        p.len() > 0 && p.last() != c ==> tail_without(p, c) > 0,
    decreases p.len(),
{
    if p.len() > 0 && p.last() != c {
        lemma_tail_without_le(p.drop_last(), c);
    }
}

/// `Path::extension` of a file name: the text after its last `.`, unless
/// there is no `.` or the only text before it is empty.
pub open spec fn name_extension(name: Seq<char>) -> Option<Seq<char>> {
    let n = tail_without(name, '.');
    if n >= name.len() || n + 1 == name.len() {
        None
    } else {
        Some(name.skip(name.len() - n))
    }
}

/// `Path::extension`.
pub open spec fn path_extension(p: Seq<char>) -> Option<Seq<char>> {
    match file_name(p) {
        Some(name) => name_extension(name),
        None => None,
    }
}

pub open spec fn ascii_lower(c: char) -> char {
    if 'A' <= c <= 'Z' {
        ((c as u32) + 32) as char
    } else {
        c
    }
}

pub open spec fn lower(s: Seq<char>) -> Seq<char> {
    s.map_values(|c: char| ascii_lower(c))
}

/// The content type served for a (lower-case) extension.
pub open spec fn mime_for(e: Seq<char>) -> Seq<char> {
    if e == "html"@ || e == "htm"@ {
        "text/html; charset=utf-8"@
    } else if e == "css"@ {
        "text/css; charset=utf-8"@
    } else if e == "js"@ || e == "mjs"@ {
        "application/javascript; charset=utf-8"@
    } else if e == "json"@ {
        "application/json; charset=utf-8"@
    } else if e == "png"@ {
        "image/png"@
    } else if e == "jpg"@ || e == "jpeg"@ {
        "image/jpeg"@
    } else if e == "gif"@ {
        "image/gif"@
    } else if e == "svg"@ {
        "image/svg+xml"@
    } else if e == "ico"@ {
        "image/x-icon"@
    } else if e == "woff"@ {
        "font/woff"@
    } else if e == "woff2"@ {
        "font/woff2"@
    } else if e == "ttf"@ {
        "font/ttf"@
    } else if e == "eot"@ {
        "application/vnd.ms-fontobject"@
    } else if e == "webp"@ {
        "image/webp"@
    } else if e == "webm"@ {
        "video/webm"@
    } else if e == "mp4"@ {
        "video/mp4"@
    } else if e == "wasm"@ {
        "application/wasm"@
    } else if e == "map"@ {
        "application/json"@
    } else if e == "xml"@ {
        "application/xml"@
    } else if e == "txt"@ {
        "text/plain; charset=utf-8"@
    } else if e == "pdf"@ {
        "application/pdf"@
    } else if e == "ts"@ || e == "jsx"@ || e == "tsx"@ {
        "application/javascript; charset=utf-8"@
    } else {
        "application/octet-stream"@
    }
}

/// The content type of a file, chosen by its extension without regard to
/// case; files without a known extension are `application/octet-stream`.
/// (No listed extension holds a `k`, the one letter that a non-ASCII
/// character lower-cases to, so ASCII case folding decides as full
/// lower-casing would.)
pub open spec fn content_type(p: Seq<char>) -> Seq<char> {
    match path_extension(p) {
        Some(e) => mime_for(lower(e)),
        None => mime_for(seq![]),
    }
}

/// Bounds of `file_name(p)` inside `p`.
fn file_name_bounds(p: &[char]) -> (r: Option<(usize, usize)>)
    ensures
        match r {
            Some((a, b)) => a <= b <= p@.len() && file_name(p@) == Some(p@.subrange(
                a as int,
                b as int,
            )),
            None => file_name(p@) is None,
        },
{
    let mut end: usize = p.len();
    assert(p@.take(end as int) =~= p@);
    loop
        invariant
            end <= p@.len(),
            file_name(p@) == file_name(p@.take(end as int)),
        decreases end,
    {
        let ghost q = p@.take(end as int);
        if end == 0 {
            return None;
        }
        if p[end - 1] == '/' {
            proof {
                assert(q.drop_last() =~= p@.take(end - 1));
            }
            end -= 1;
            continue;
        }
        let mut start: usize = end;
        while start > 0 && p[start - 1] != '/'
            invariant
                start <= end <= p@.len(),
                forall|j: int| start <= j < end ==> #[trigger] p@[j] != '/',
            decreases start,
        {
            start -= 1;
        }
        proof {
            assert forall|j: int| q.len() - (end - start) <= j < q.len() implies #[trigger] q[j]
                != '/' by {
                assert(q[j] == p@[j]);
            }
            if end - start < q.len() {
                assert(q[q.len() - (end - start) - 1] == p@[start - 1]);
            }
            lemma_tail_without_at(q, '/', end - start);
            assert(q.skip(start as int) =~= p@.subrange(start as int, end as int));
        }
        let dot = end - start == 1 && p[start] == '.';
        let dotdot = end - start == 2 && p[start] == '.' && p[start + 1] == '.';
        proof {
            let seg = q.skip(start as int);
            if dot {
                assert(seg =~= seq!['.']);
            } else if seg == seq!['.'] {
                assert(seg.len() == 1 && seg[0] == p@[start as int]);
            }
            if dotdot {
                assert(seg =~= seq!['.', '.']);
            } else if seg == seq!['.', '.'] {
                assert(seg.len() == 2 && seg[0] == p@[start as int] && seg[1] == p@[start + 1]);
            }
        }
        if dot {
            proof {
                assert(q.take(start as int) =~= p@.take(start as int));
            }
            end = start;
            continue;
        }
        if dotdot {
            return None;
        }
        return Some((start, end));
    }
}

fn ascii_lower_char(c: char) -> (l: char)
    ensures
        l == ascii_lower(c),
{
    if 'A' <= c && c <= 'Z' {
        ((c as u32) + 32) as u8 as char
    } else {
        c
    }
}

/// `(p.len() - n)` where `n` is the count of trailing characters different from `c`.
fn tail_start(p: &[char], c: char) -> (s: usize)
    ensures
        s <= p@.len(),
        s == p@.len() - tail_without(p@, c),
{
    let mut s: usize = p.len();
    while s > 0 && p[s - 1] != c
        invariant
            s <= p@.len(),
            forall|j: int| s <= j < p@.len() ==> #[trigger] p@[j] != c,
        decreases s,
    {
        s -= 1;
    }
    proof {
        lemma_tail_without_at(p@, c, p@.len() - s);
    }
    s
}

/// `path.extension()` lower-cased in ASCII, as characters.
fn lower_extension(path: &[char]) -> (r: Option<Vec<char>>)
    ensures
        match path_extension(path@) {
            Some(e) => r matches Some(v) && v@ == lower(e),
            None => r is None,
        },
{
    match file_name_bounds(path) {
        None => None,
        Some((a, b)) => {
            let name = slice_chars(path, a, b);
            let s = tail_start(name.as_slice(), '.');
            let n = name.len() - s;
            if n >= name.len() || n + 1 == name.len() {
                return None;
            }
            let mut v: Vec<char> = Vec::new();
            let mut i: usize = s;
            while i < name.len()
                invariant
                    s <= i <= name@.len(),
                    v@ == lower(name@.subrange(s as int, i as int)),
                decreases name@.len() - i,
            {
                let c = name[i];
                let l = if 'A' <= c && c <= 'Z' {
                    ((c as u32) + 32) as u8 as char
                } else {
                    c
                };
                assert(l == ascii_lower(c));
                v.push(l);
                i += 1;
                assert(v@ =~= lower(name@.subrange(s as int, i as int)));
            }
            assert(name@.subrange(s as int, name@.len() as int) =~= name@.skip(
                name@.len() - tail_without(name@, '.'),
            ));
            Some(v)
        },
    }
}

/// Whether `e` (lower-case) is one of the extensions with a content type of
/// its own.
pub open spec fn known_extension(e: Seq<char>) -> bool {
    ||| e == "html"@ ||| e == "htm"@ ||| e == "css"@ ||| e == "js"@ ||| e == "mjs"@
    ||| e == "json"@ ||| e == "png"@ ||| e == "jpg"@ ||| e == "jpeg"@ ||| e == "gif"@
    ||| e == "svg"@ ||| e == "ico"@ ||| e == "woff"@ ||| e == "woff2"@ ||| e == "ttf"@
    ||| e == "eot"@ ||| e == "webp"@ ||| e == "webm"@ ||| e == "mp4"@ ||| e == "wasm"@
    ||| e == "map"@ ||| e == "xml"@ ||| e == "txt"@ ||| e == "pdf"@ ||| e == "ts"@
    ||| e == "jsx"@ ||| e == "tsx"@
}

proof fn lemma_mime_literals()
    ensures
        "application/octet-stream"@.len() == 24,
        "text/html; charset=utf-8"@.len() == 24,
        "text/html; charset=utf-8"@ != "application/octet-stream"@,
        "text/css; charset=utf-8"@.len() == 23,
        "application/javascript; charset=utf-8"@.len() == 37,
        "application/json; charset=utf-8"@.len() == 31,
        "image/png"@.len() == 9,
        "image/jpeg"@.len() == 10,
        "image/gif"@.len() == 9,
        "image/svg+xml"@.len() == 13,
        "image/x-icon"@.len() == 12,
        "font/woff"@.len() == 9,
        "font/woff2"@.len() == 10,
        "font/ttf"@.len() == 8,
        "application/vnd.ms-fontobject"@.len() == 29,
        "image/webp"@.len() == 10,
        "video/webm"@.len() == 10,
        "video/mp4"@.len() == 9,
        "application/wasm"@.len() == 16,
        "application/json"@.len() == 16,
        "application/xml"@.len() == 15,
        "text/plain; charset=utf-8"@.len() == 25,
        "application/pdf"@.len() == 15,
{
    reveal_strlit("application/octet-stream");
    reveal_strlit("text/html; charset=utf-8");
    reveal_strlit("text/css; charset=utf-8");
    reveal_strlit("application/javascript; charset=utf-8");
    reveal_strlit("application/json; charset=utf-8");
    reveal_strlit("image/png");
    reveal_strlit("image/jpeg");
    reveal_strlit("image/gif");
    reveal_strlit("image/svg+xml");
    reveal_strlit("image/x-icon");
    reveal_strlit("font/woff");
    reveal_strlit("font/woff2");
    reveal_strlit("font/ttf");
    reveal_strlit("application/vnd.ms-fontobject");
    reveal_strlit("image/webp");
    reveal_strlit("video/webm");
    reveal_strlit("video/mp4");
    reveal_strlit("application/wasm");
    reveal_strlit("application/json");
    reveal_strlit("application/xml");
    reveal_strlit("text/plain; charset=utf-8");
    reveal_strlit("application/pdf");
    assert("text/html; charset=utf-8"@[0] != "application/octet-stream"@[0]);
}

/// The content type of a file depends on its extension alone, without
/// regard to ASCII case: two paths whose extensions agree but for case, or
/// that both have none, get the same type; and the type is
/// `application/octet-stream` exactly when there is no extension or its
/// lower case is none of the known ones.
pub proof fn law_mime_by_extension(p: Seq<char>, q: Seq<char>)
    requires
        match (path_extension(p), path_extension(q)) {
            (Some(a), Some(b)) => lower(a) == lower(b),
            (None, None) => true,
            _ => false,
        },
    ensures
        content_type(p) == content_type(q),
        content_type(p) == "application/octet-stream"@ <==> !(match path_extension(p) {
            Some(e) => known_extension(lower(e)),
            None => false,
        }),
{
    lemma_mime_literals();
    if path_extension(p) is None {
        reveal_strlit("html");
        assert("html"@.len() == 4);
        reveal_strlit("htm");
        assert("htm"@.len() == 3);
        reveal_strlit("css");
        assert("css"@.len() == 3);
        reveal_strlit("js");
        assert("js"@.len() == 2);
        reveal_strlit("mjs");
        assert("mjs"@.len() == 3);
        reveal_strlit("json");
        assert("json"@.len() == 4);
        reveal_strlit("png");
        assert("png"@.len() == 3);
        reveal_strlit("jpg");
        assert("jpg"@.len() == 3);
        reveal_strlit("jpeg");
        assert("jpeg"@.len() == 4);
        reveal_strlit("gif");
        assert("gif"@.len() == 3);
        reveal_strlit("svg");
        assert("svg"@.len() == 3);
        reveal_strlit("ico");
        assert("ico"@.len() == 3);
        reveal_strlit("woff");
        assert("woff"@.len() == 4);
        reveal_strlit("woff2");
        assert("woff2"@.len() == 5);
        reveal_strlit("ttf");
        assert("ttf"@.len() == 3);
        reveal_strlit("eot");
        assert("eot"@.len() == 3);
        reveal_strlit("webp");
        assert("webp"@.len() == 4);
        reveal_strlit("webm");
        assert("webm"@.len() == 4);
        reveal_strlit("mp4");
        assert("mp4"@.len() == 3);
        reveal_strlit("wasm");
        assert("wasm"@.len() == 4);
        reveal_strlit("map");
        assert("map"@.len() == 3);
        reveal_strlit("xml");
        assert("xml"@.len() == 3);
        reveal_strlit("txt");
        assert("txt"@.len() == 3);
        reveal_strlit("pdf");
        assert("pdf"@.len() == 3);
        reveal_strlit("ts");
        assert("ts"@.len() == 2);
        reveal_strlit("jsx");
        assert("jsx"@.len() == 3);
        reveal_strlit("tsx");
        assert("tsx"@.len() == 3);
        assert(!known_extension(Seq::<char>::empty()));
    }
}

/// The content type of a file with each listed extension, compared
/// without regard to ASCII case.
pub proof fn law_mime_types(p: Seq<char>, e: Seq<char>)
    requires
        path_extension(p) == Some(e),
    ensures
        lower(e) == "html"@ ==> content_type(p) == "text/html; charset=utf-8"@,
        lower(e) == "htm"@ ==> content_type(p) == "text/html; charset=utf-8"@,
        lower(e) == "css"@ ==> content_type(p) == "text/css; charset=utf-8"@,
        lower(e) == "js"@ ==> content_type(p) == "application/javascript; charset=utf-8"@,
        lower(e) == "mjs"@ ==> content_type(p) == "application/javascript; charset=utf-8"@,
        lower(e) == "json"@ ==> content_type(p) == "application/json; charset=utf-8"@,
        lower(e) == "png"@ ==> content_type(p) == "image/png"@,
        lower(e) == "jpg"@ ==> content_type(p) == "image/jpeg"@,
        lower(e) == "jpeg"@ ==> content_type(p) == "image/jpeg"@,
        lower(e) == "gif"@ ==> content_type(p) == "image/gif"@,
        lower(e) == "svg"@ ==> content_type(p) == "image/svg+xml"@,
        lower(e) == "ico"@ ==> content_type(p) == "image/x-icon"@,
        lower(e) == "woff"@ ==> content_type(p) == "font/woff"@,
        lower(e) == "woff2"@ ==> content_type(p) == "font/woff2"@,
        lower(e) == "ttf"@ ==> content_type(p) == "font/ttf"@,
        lower(e) == "eot"@ ==> content_type(p) == "application/vnd.ms-fontobject"@,
        lower(e) == "webp"@ ==> content_type(p) == "image/webp"@,
        lower(e) == "webm"@ ==> content_type(p) == "video/webm"@,
        lower(e) == "mp4"@ ==> content_type(p) == "video/mp4"@,
        lower(e) == "wasm"@ ==> content_type(p) == "application/wasm"@,
        lower(e) == "map"@ ==> content_type(p) == "application/json"@,
        lower(e) == "xml"@ ==> content_type(p) == "application/xml"@,
        lower(e) == "txt"@ ==> content_type(p) == "text/plain; charset=utf-8"@,
        lower(e) == "pdf"@ ==> content_type(p) == "application/pdf"@,
        lower(e) == "ts"@ ==> content_type(p) == "application/javascript; charset=utf-8"@,
        lower(e) == "jsx"@ ==> content_type(p) == "application/javascript; charset=utf-8"@,
        lower(e) == "tsx"@ ==> content_type(p) == "application/javascript; charset=utf-8"@,
{
    reveal_strlit("html");
    reveal_strlit("htm");
    reveal_strlit("css");
    reveal_strlit("js");
    reveal_strlit("mjs");
    reveal_strlit("json");
    reveal_strlit("png");
    reveal_strlit("jpg");
    reveal_strlit("jpeg");
    reveal_strlit("gif");
    reveal_strlit("svg");
    reveal_strlit("ico");
    reveal_strlit("woff");
    reveal_strlit("woff2");
    reveal_strlit("ttf");
    reveal_strlit("eot");
    reveal_strlit("webp");
    reveal_strlit("webm");
    reveal_strlit("mp4");
    reveal_strlit("wasm");
    reveal_strlit("map");
    reveal_strlit("xml");
    reveal_strlit("txt");
    reveal_strlit("pdf");
    reveal_strlit("ts");
    reveal_strlit("jsx");
    reveal_strlit("tsx");
    let l = lower(e);
    if l == "html"@ {
        assert(l.len() == 4);
        assert(l[0] == 'h');
        assert(l[1] == 't');
        assert(l[2] == 'm');
        assert(l[3] == 'l');
    }
    if l == "htm"@ {
        assert(l.len() == 3);
        assert(l[0] == 'h');
        assert(l[1] == 't');
        assert(l[2] == 'm');
    }
    if l == "css"@ {
        assert(l.len() == 3);
        assert(l[0] == 'c');
        assert(l[1] == 's');
        assert(l[2] == 's');
    }
    if l == "js"@ {
        assert(l.len() == 2);
        assert(l[0] == 'j');
        assert(l[1] == 's');
    }
    if l == "mjs"@ {
        assert(l.len() == 3);
        assert(l[0] == 'm');
        assert(l[1] == 'j');
        assert(l[2] == 's');
    }
    if l == "json"@ {
        assert(l.len() == 4);
        assert(l[0] == 'j');
        assert(l[1] == 's');
        assert(l[2] == 'o');
        assert(l[3] == 'n');
    }
    if l == "png"@ {
        assert(l.len() == 3);
        assert(l[0] == 'p');
        assert(l[1] == 'n');
        assert(l[2] == 'g');
    }
    if l == "jpg"@ {
        assert(l.len() == 3);
        assert(l[0] == 'j');
        assert(l[1] == 'p');
        assert(l[2] == 'g');
    }
    if l == "jpeg"@ {
        assert(l.len() == 4);
        assert(l[0] == 'j');
        assert(l[1] == 'p');
        assert(l[2] == 'e');
        assert(l[3] == 'g');
    }
    if l == "gif"@ {
        assert(l.len() == 3);
        assert(l[0] == 'g');
        assert(l[1] == 'i');
        assert(l[2] == 'f');
    }
    if l == "svg"@ {
        assert(l.len() == 3);
        assert(l[0] == 's');
        assert(l[1] == 'v');
        assert(l[2] == 'g');
    }
    if l == "ico"@ {
        assert(l.len() == 3);
        assert(l[0] == 'i');
        assert(l[1] == 'c');
        assert(l[2] == 'o');
    }
    if l == "woff"@ {
        assert(l.len() == 4);
        assert(l[0] == 'w');
        assert(l[1] == 'o');
        assert(l[2] == 'f');
        assert(l[3] == 'f');
    }
    if l == "woff2"@ {
        assert(l.len() == 5);
        assert(l[0] == 'w');
        assert(l[1] == 'o');
        assert(l[2] == 'f');
        assert(l[3] == 'f');
        assert(l[4] == '2');
    }
    if l == "ttf"@ {
        assert(l.len() == 3);
        assert(l[0] == 't');
        assert(l[1] == 't');
        assert(l[2] == 'f');
    }
    if l == "eot"@ {
        assert(l.len() == 3);
        assert(l[0] == 'e');
        assert(l[1] == 'o');
        assert(l[2] == 't');
    }
    if l == "webp"@ {
        assert(l.len() == 4);
        assert(l[0] == 'w');
        assert(l[1] == 'e');
        assert(l[2] == 'b');
        assert(l[3] == 'p');
    }
    if l == "webm"@ {
        assert(l.len() == 4);
        assert(l[0] == 'w');
        assert(l[1] == 'e');
        assert(l[2] == 'b');
        assert(l[3] == 'm');
    }
    if l == "mp4"@ {
        assert(l.len() == 3);
        assert(l[0] == 'm');
        assert(l[1] == 'p');
        assert(l[2] == '4');
    }
    if l == "wasm"@ {
        assert(l.len() == 4);
        assert(l[0] == 'w');
        assert(l[1] == 'a');
        assert(l[2] == 's');
        assert(l[3] == 'm');
    }
    if l == "map"@ {
        assert(l.len() == 3);
        assert(l[0] == 'm');
        assert(l[1] == 'a');
        assert(l[2] == 'p');
    }
    if l == "xml"@ {
        assert(l.len() == 3);
        assert(l[0] == 'x');
        assert(l[1] == 'm');
        assert(l[2] == 'l');
    }
    if l == "txt"@ {
        assert(l.len() == 3);
        assert(l[0] == 't');
        assert(l[1] == 'x');
        assert(l[2] == 't');
    }
    if l == "pdf"@ {
        assert(l.len() == 3);
        assert(l[0] == 'p');
        assert(l[1] == 'd');
        assert(l[2] == 'f');
    }
    if l == "ts"@ {
        assert(l.len() == 2);
        assert(l[0] == 't');
        assert(l[1] == 's');
    }
    if l == "jsx"@ {
        assert(l.len() == 3);
        assert(l[0] == 'j');
        assert(l[1] == 's');
        assert(l[2] == 'x');
    }
    if l == "tsx"@ {
        assert(l.len() == 3);
        assert(l[0] == 't');
        assert(l[1] == 's');
        assert(l[2] == 'x');
    }
}

/// The content type for a file path (see `content_type`).
pub fn guess_mime(path: &str) -> (m: String)
    ensures
        m@ == content_type(path@),
{
    let p = chars_of(path);
    let ext = match lower_extension(p.as_slice()) {
        Some(v) => v,
        None => Vec::new(),
    };
    proof {
        if path_extension(p@) is None {
            assert(ext@ =~= seq![]);
        }
    }
    let e = ext.as_slice();
    let lit: &str = if chars_eq_str(e, "html") || chars_eq_str(e, "htm") {
        "text/html; charset=utf-8"
    } else if chars_eq_str(e, "css") {
        "text/css; charset=utf-8"
    } else if chars_eq_str(e, "js") || chars_eq_str(e, "mjs") {
        "application/javascript; charset=utf-8"
    } else if chars_eq_str(e, "json") {
        "application/json; charset=utf-8"
    } else if chars_eq_str(e, "png") {
        "image/png"
    } else if chars_eq_str(e, "jpg") || chars_eq_str(e, "jpeg") {
        "image/jpeg"
    } else if chars_eq_str(e, "gif") {
        "image/gif"
    } else if chars_eq_str(e, "svg") {
        "image/svg+xml"
    } else if chars_eq_str(e, "ico") {
        "image/x-icon"
    } else if chars_eq_str(e, "woff") {
        "font/woff"
    } else if chars_eq_str(e, "woff2") {
        "font/woff2"
    } else if chars_eq_str(e, "ttf") {
        "font/ttf"
    } else if chars_eq_str(e, "eot") {
        "application/vnd.ms-fontobject"
    } else if chars_eq_str(e, "webp") {
        "image/webp"
    } else if chars_eq_str(e, "webm") {
        "video/webm"
    } else if chars_eq_str(e, "mp4") {
        "video/mp4"
    } else if chars_eq_str(e, "wasm") {
        "application/wasm"
    } else if chars_eq_str(e, "map") {
        "application/json"
    } else if chars_eq_str(e, "xml") {
        "application/xml"
    } else if chars_eq_str(e, "txt") {
        "text/plain; charset=utf-8"
    } else if chars_eq_str(e, "pdf") {
        "application/pdf"
    } else if chars_eq_str(e, "ts") || chars_eq_str(e, "jsx") || chars_eq_str(e, "tsx") {
        "application/javascript; charset=utf-8"
    } else {
        "application/octet-stream"
    };
    String::from_str(lit)
}

// ---------------------------------------------------------------------------
// Keeping requests inside the served directory
// ---------------------------------------------------------------------------

/// `Path::join` on Unix: an absolute `rel` replaces `base`; otherwise a `/`
/// separates them unless `base` is empty or already ends with one.
pub open spec fn path_join(base: Seq<char>, rel: Seq<char>) -> Seq<char> {
    if rel.len() > 0 && rel[0] == '/' {
        rel
    } else if base.len() == 0 || base.last() == '/' {
        base + rel
    } else {
        base + seq!['/'] + rel
    }
}

/// A Windows path with every `\` written as `/`.  Both separate the pieces
/// of a Windows path, and no Windows file name holds either.
pub open spec fn slashed(p: Seq<char>) -> Seq<char> {
    p.map_values(|c: char| if c == '\\' { '/' } else { c })
}

/// Whether `c` separates the pieces of a Windows path.
pub open spec fn is_win_sep(c: char) -> bool {
    c == '\\' || c == '/'
}

/// `rel` joined to `base` on Windows: a `rel` that begins with a separator
/// (a root) or a drive (`X:`) replaces `base`, and the file then lies
/// outside `base` unless it names it again; otherwise a `\` separates them
/// unless `base` is empty or already ends with a separator.
pub open spec fn win_path_join(base: Seq<char>, rel: Seq<char>) -> Seq<char> {
    if (rel.len() > 0 && is_win_sep(rel[0])) || (rel.len() > 1 && rel[1] == ':') {
        rel
    } else if base.len() == 0 || is_win_sep(base.last()) {
        base + rel
    } else {
        base + seq!['\\'] + rel
    }
}

/// `rel` joined to `base` by the rules of the platform (`windows` or Unix).
pub open spec fn os_path_join(base: Seq<char>, rel: Seq<char>, windows: bool) -> Seq<char> {
    if windows {
        win_path_join(base, rel)
    } else {
        path_join(base, rel)
    }
}

/// Whether `p` lies inside `base` by the rules of the platform: the pieces
/// of `base` begin those of `p`, pieces being separated by `/` (and by `\`
/// on Windows), with empty and `.` pieces skipped.  This is what
/// `Path::starts_with` decides for the paths that `canonicalize` returns.
pub open spec fn os_path_within(p: Seq<char>, base: Seq<char>, windows: bool) -> bool {
    if windows {
        path_within(slashed(p), slashed(base))
    } else {
        path_within(p, base)
    }
}

/// The candidate file for a request path: `root` joined with the decoded
/// path (by the rules of the platform), or nothing when the path does not
/// decode to UTF-8.  The caller resolves the candidate on disk and keeps it
/// only if `confine_to_root` accepts the resolved path.
pub open spec fn request_candidate(path: Seq<char>, root: Seq<char>, windows: bool) -> Option<Seq<char>> {
    match percent_decoded(path) {
        Some(d) => Some(os_path_join(root, d, windows)),
        None => None,
    }
}

/// Joins a request path (URL-encoded, relative to the served directory)
/// to the directory `root`, on Windows when `windows`.
pub fn sanitize_path(path: &str, root: &str, windows: bool) -> (r: Option<String>)
    ensures
        match request_candidate(path@, root@, windows) {
            Some(c) => r matches Some(s) && s@ == c,
            None => r is None,
        },
{
    match percent_decode(path) {
        None => None,
        Some(decoded) => {
            let d = chars_of(decoded.as_str());
            let b = chars_of(root);
            let mut out: Vec<char> = Vec::new();
            if windows {
                if (d.len() > 0 && (d[0] == '\\' || d[0] == '/')) || (d.len() > 1 && d[1] == ':') {
                    push_all(&mut out, d.as_slice());
                    assert(out@ =~= d@);
                } else {
                    push_all(&mut out, b.as_slice());
                    if !(b.len() == 0 || b[b.len() - 1] == '\\' || b[b.len() - 1] == '/') {
                        out.push('\\');
                    }
                    push_all(&mut out, d.as_slice());
                    assert(out@ =~= win_path_join(b@, d@));
                }
            } else if d.len() > 0 && d[0] == '/' {
                push_all(&mut out, d.as_slice());
                assert(out@ =~= d@);
            } else {
                push_all(&mut out, b.as_slice());
                if !(b.len() == 0 || b[b.len() - 1] == '/') {
                    out.push('/');
                }
                push_all(&mut out, d.as_slice());
                assert(out@ =~= path_join(b@, d@));
            }
            Some(string_from_chars(out.as_slice()))
        },
    }
}

/// A piece of a path between slashes that names something: not empty and not `.`.
pub open spec fn names_entry(seg: Seq<char>) -> bool {
    seg.len() > 0 && seg != seq!['.']
}

/// The pieces of `segs` that name something, in order.
pub open spec fn named_segments(segs: Seq<Seq<char>>) -> Seq<Seq<char>>
    decreases segs.len(),
{
    if segs.len() == 0 {
        seq![]
    } else if names_entry(segs.last()) {
        named_segments(segs.drop_last()).push(segs.last())
    } else {
        named_segments(segs.drop_last())
    }
}

/// `Path::components` on Unix, each written as text: `/` for the root, `.`
/// for a leading current-directory component, then the named pieces.
pub open spec fn path_components(p: Seq<char>) -> Seq<Seq<char>> {
    let segs = split_at_char(p, '/');
    if p.len() > 0 && p[0] == '/' {
        seq![seq!['/']] + named_segments(segs.drop_first())
    } else if segs.len() > 0 && segs[0] == seq!['.'] {
        seq![seq!['.']] + named_segments(segs.drop_first())
    } else {
        named_segments(segs)
    }
}

/// `Path::starts_with` on Unix: the components of `base` begin those of `p`.
pub open spec fn path_within(p: Seq<char>, base: Seq<char>) -> bool {
    path_components(base).is_prefix_of(path_components(p))
}

fn named_from(segs: &Vec<Vec<char>>, from: usize, out: &mut Vec<Vec<char>>)
    requires
        from <= segs@.len(),
    ensures
        final(out)@.len() == old(out)@.len() + named_segments(
            segs@.skip(from as int).map_values(|v: Vec<char>| v@),
        ).len(),
        forall|i: int|
            0 <= i < old(out)@.len() ==> (#[trigger] final(out)@[i])@ == old(out)@[i]@,
        forall|i: int|
            0 <= i < named_segments(segs@.skip(from as int).map_values(|v: Vec<char>| v@)).len()
                ==> (#[trigger] final(out)@[old(out)@.len() + i])@ == named_segments(
                segs@.skip(from as int).map_values(|v: Vec<char>| v@),
            )[i],
{
    let ghost views = segs@.skip(from as int).map_values(|v: Vec<char>| v@);
    let ghost base = out@.len();
    let ghost start = out@.map_values(|v: Vec<char>| v@);
    let mut i: usize = from;
    while i < segs.len()
        invariant
            from <= i <= segs@.len(),
            views == segs@.skip(from as int).map_values(|v: Vec<char>| v@),
            base == old(out)@.len(),
            out@.len() == base + named_segments(views.take(i - from)).len(),
            forall|k: int| 0 <= k < base ==> (#[trigger] out@[k])@ == old(out)@[k]@,
            forall|k: int|
                0 <= k < named_segments(views.take(i - from)).len() ==> (#[trigger] out@[base
                    + k])@ == named_segments(views.take(i - from))[k],
        decreases segs@.len() - i,
    {
        let ghost before = views.take(i - from);
        let seg = &segs[i];
        let keep = seg.len() > 0 && !(seg.len() == 1 && seg[0] == '.');
        proof {
            let now = views.take(i - from + 1);
            assert(now.drop_last() =~= before);
            assert(now.last() == seg@);
            if seg@ == seq!['.'] {
                assert(seg@.len() == 1 && seg@[0] == '.');
            }
            if seg@.len() == 1 && seg@[0] == '.' {
                assert(seg@ =~= seq!['.']);
            }
            assert(keep == names_entry(seg@));
        }
        if keep {
            let copy = slice_chars(seg.as_slice(), 0, seg.len());
            assert(copy@ =~= seg@);
            out.push(copy);
        }
        i += 1;
    }
    assert(views.take(segs@.len() - from) =~= views);
}

/// `Path::components`, each component as characters.
fn components_of(p: &[char]) -> (r: Vec<Vec<char>>)
    ensures
        r@.len() == path_components(p@).len(),
        forall|i: int| 0 <= i < r@.len() ==> (#[trigger] r@[i])@ == path_components(p@)[i],
{
    let segs = split_chars(p, '/');
    let ghost sv = split_at_char(p@, '/');
    assert(segs@.map_values(|v: Vec<char>| v@) =~= sv);
    let mut out: Vec<Vec<char>> = Vec::new();
    if p.len() > 0 && p[0] == '/' {
        let mut root: Vec<char> = Vec::new();
        root.push('/');
        out.push(root);
        proof {
            lemma_split_len(p@, '/');
        }
        named_from(&segs, 1, &mut out);
        proof {
            assert(segs@.skip(1).map_values(|v: Vec<char>| v@) =~= sv.drop_first());
            assert forall|i: int| 0 <= i < out@.len() implies (#[trigger] out@[i])@
                == path_components(p@)[i] by {
                if i > 0 {
                    assert(out@[1 + (i - 1)] == out@[i]);
                }
            }
        }
        return out;
    }
    proof {
        lemma_split_len(p@, '/');
    }
    let first = &segs[0];
    if first.len() == 1 && first[0] == '.' {
        let mut cur: Vec<char> = Vec::new();
        cur.push('.');
        out.push(cur);
        named_from(&segs, 1, &mut out);
        proof {
            assert(first@ =~= seq!['.']);
            assert(segs@.skip(1).map_values(|v: Vec<char>| v@) =~= sv.drop_first());
            assert forall|i: int| 0 <= i < out@.len() implies (#[trigger] out@[i])@
                == path_components(p@)[i] by {
                if i > 0 {
                    assert(out@[1 + (i - 1)] == out@[i]);
                }
            }
        }
        return out;
    }
    named_from(&segs, 0, &mut out);
    proof {
        if sv[0] == seq!['.'] {
            assert(first@.len() == 1 && first@[0] == '.');
        }
        assert(segs@.skip(0).map_values(|v: Vec<char>| v@) =~= sv);
        assert forall|i: int| 0 <= i < out@.len() implies (#[trigger] out@[i])@
            == path_components(p@)[i] by {
            assert(out@[0 + i] == out@[i]);
        }
    }
    out
}

pub proof fn lemma_split_len(s: Seq<char>, c: char)
    ensures
        split_at_char(s, c).len() >= 1,
        split_at_char(s, c)[0] == s.take(run_len(s, c) as int),
        s.len() > 0 && s[0] == c ==> split_at_char(s, c)[0].len() == 0,
{
    lemma_run_len(s, c);
    if run_len(s, c) >= s.len() {
        assert(s.take(s.len() as int) =~= s);
    }
}

/// The characters of `p`, with every `\` written as `/` when `windows`.
fn os_chars(p: &str, windows: bool) -> (r: Vec<char>)
    ensures
        r@ == (if windows {
            slashed(p@)
        } else {
            p@
        }),
{
    let v = chars_of(p);
    if !windows {
        return v;
    }
    let mut r: Vec<char> = Vec::new();
    let mut i: usize = 0;
    while i < v.len()
        invariant
            v@ == p@,
            i <= v@.len(),
            r@ == slashed(v@.take(i as int)),
        decreases v@.len() - i,
    {
        let c = v[i];
        r.push(if c == '\\' { '/' } else { c });
        i += 1;
        assert(r@ =~= slashed(v@.take(i as int)));
    }
    assert(v@.take(v@.len() as int) =~= v@);
    r
}

/// Keeps a resolved path only if it lies inside the served directory (see
/// `os_path_within`; on Windows when `windows`).
pub fn confine_to_root(resolved: &str, root: &str, windows: bool) -> (r: Option<String>)
    ensures
        os_path_within(resolved@, root@, windows) ==> (r matches Some(s) && s@ == resolved@),
        !os_path_within(resolved@, root@, windows) ==> r is None,
{
    let pc = os_chars(resolved, windows);
    let bc = os_chars(root, windows);
    let ghost pv = pc@;
    let ghost bv = bc@;
    assert(os_path_within(resolved@, root@, windows) == path_within(pv, bv));
    let p = components_of(pc.as_slice());
    let b = components_of(bc.as_slice());
    if b.len() > p.len() {
        return None;
    }
    let mut i: usize = 0;
    while i < b.len()
        invariant
            os_path_within(resolved@, root@, windows) == path_within(pv, bv),
            b@.len() <= p@.len(),
            i <= b@.len(),
            b@.len() == path_components(bv).len(),
            p@.len() == path_components(pv).len(),
            forall|k: int| 0 <= k < b@.len() ==> (#[trigger] b@[k])@ == path_components(bv)[k],
            forall|k: int|
                0 <= k < p@.len() ==> (#[trigger] p@[k])@ == path_components(pv)[k],
            forall|k: int|
                0 <= k < i ==> path_components(bv)[k] == path_components(pv)[k],
        decreases b@.len() - i,
    {
        let same = b[i].len() == p[i].len() && has_prefix(b[i].as_slice(), p[i].as_slice());
        proof {
            if same {
                assert(b@[i as int]@.take(p@[i as int]@.len() as int) =~= b@[i as int]@);
            }
            if b@[i as int]@ == p@[i as int]@ {
                assert(b@[i as int]@.take(p@[i as int]@.len() as int) =~= b@[i as int]@);
            }
        }
        if !same {
            assert(path_components(bv)[i as int] != path_components(pv)[i as int]);
            assert(!path_within(pv, bv));
            return None;
        }
        i += 1;
    }
    assert(path_components(bv) =~= path_components(pv).subrange(
        0,
        path_components(bv).len() as int,
    ));
    Some(String::from_str(resolved))
}

// ---------------------------------------------------------------------------
// Byte ranges
// ---------------------------------------------------------------------------

/// The byte range `(start, end)` (both included) that a `Range` header asks
/// of a file of `size` bytes: `bytes=<start>-<end>`, a start that does not
/// parse counts as 0, an empty end means the last byte, an end that does not
/// parse means the last byte, both are capped at the last byte, and a start
/// after the end means the whole file is sent.
pub open spec fn byte_range(h: Seq<char>, size: nat) -> Option<(nat, nat)> {
    if size == 0 || !starts_with(h, "bytes="@) {
        None
    } else {
        let rest = h.skip(6);
        let k = run_len(rest, '-');
        if k >= rest.len() {
            None
        } else {
            let start_text = rest.take(k as int);
            let end_text = rest.skip((k + 1) as int);
            let start = match parse_unsigned(start_text, usize::MAX as nat) {
                Some(v) => if v < size - 1 {
                    v
                } else {
                    (size - 1) as nat
                },
                None => 0,
            };
            let end = if end_text.len() == 0 {
                (size - 1) as nat
            } else {
                match parse_unsigned(end_text, usize::MAX as nat) {
                    Some(v) => if v < size - 1 {
                        v
                    } else {
                        (size - 1) as nat
                    },
                    None => (size - 1) as nat,
                }
            };
            if start <= end {
                Some((start, end))
            } else {
                None
            }
        }
    }
}

/// Reads a `Range` header for a file of `size` bytes (see `byte_range`).
pub fn parse_byte_range(header: &str, size: usize) -> (r: Option<(usize, usize)>)
    ensures
        match byte_range(header@, size as nat) {
            Some((a, b)) => r == Some((a as usize, b as usize)),
            None => r is None,
        },
        r matches Some((a, b)) ==> a <= b < size,
{
    let h = chars_of(header);
    if size == 0 || !has_str_prefix(h.as_slice(), "bytes=") {
        return None;
    }
    proof {
        reveal_strlit("bytes=");
    }
    let rest = slice_chars(h.as_slice(), 6, h.len());
    assert(rest@ =~= h@.skip(6));
    let k = find_char(rest.as_slice(), 0, '-');
    assert(rest@.skip(0) =~= rest@);
    if k >= rest.len() {
        return None;
    }
    let start_text = slice_chars(rest.as_slice(), 0, k);
    let end_text = slice_chars(rest.as_slice(), k + 1, rest.len());
    assert(start_text@ =~= rest@.take(k as int));
    assert(end_text@ =~= rest@.skip(k + 1));
    let last = size - 1;
    let start: usize = match parse_unsigned_chars(start_text.as_slice(), usize::MAX as u64) {
        Some(v) => if v < last as u64 {
            v as usize
        } else {
            last
        },
        None => 0,
    };
    let end: usize = if end_text.len() == 0 {
        last
    } else {
        match parse_unsigned_chars(end_text.as_slice(), usize::MAX as u64) {
            Some(v) => if v < last as u64 {
                v as usize
            } else {
                last
            },
            None => last,
        }
    };
    if start <= end {
        Some((start, end))
    } else {
        None
    }
}

/// The `Content-Range` value `bytes <start>-<end>/<size>`.
pub open spec fn content_range(start: nat, end: nat, size: nat) -> Seq<char> {
    "bytes "@ + decimal(start) + seq!['-'] + decimal(end) + seq!['/'] + decimal(size)
}

/// Builds the `Content-Range` value of a partial response.
pub fn content_range_value(start: usize, end: usize, size: usize) -> (s: String)
    ensures
        s@ == content_range(start as nat, end as nat, size as nat),
{
    let mut v: Vec<char> = Vec::new();
    push_str_chars(&mut v, "bytes ");
    push_decimal(&mut v, start as u64);
    v.push('-');
    push_decimal(&mut v, end as u64);
    v.push('/');
    push_decimal(&mut v, size as u64);
    string_from_chars(v.as_slice())
}

// ---------------------------------------------------------------------------
// Forwarding to proxy targets
// ---------------------------------------------------------------------------

/// `?<query>` when the request has a query string.
pub open spec fn query_suffix(query: Option<Seq<char>>) -> Seq<char> {
    match query {
        Some(q) => seq!['?'] + q,
        None => seq![],
    }
}

/// The path sent to the target: with `rewrite`, the request path (without
/// trailing slashes) minus the rule's path (without trailing slashes), or
/// nothing when it does not begin with it; otherwise the request path as is.
pub open spec fn forwarded_path(rule: ProxyRule, path: Seq<char>) -> Seq<char> {
    if rule.rewrite {
        match strip_prefix(trim_end_char(path, '/'), trim_end_char(rule.path@, '/')) {
            Some(r) => r,
            None => seq![],
        }
    } else {
        path
    }
}

/// Address an HTTP request is forwarded to.
pub open spec fn proxy_url(rule: ProxyRule, path: Seq<char>, query: Option<Seq<char>>) -> Seq<char> {
    trim_end_char(rule.target@, '/') + forwarded_path(rule, path) + query_suffix(query)
}

/// Address a WebSocket connection is forwarded to: `wss` for an `https://`
/// target and `ws` otherwise, the target without its `http://` and
/// `https://` prefixes, then the path and query as for HTTP.
pub open spec fn ws_proxy_url(rule: ProxyRule, path: Seq<char>, query: Option<Seq<char>>) -> Seq<
    char,
> {
    let target = trim_end_char(rule.target@, '/');
    let scheme = if starts_with(target, "https://"@) {
        "wss"@
    } else {
        "ws"@
    };
    let rest = trim_start_str(trim_start_str(target, "http://"@), "https://"@);
    scheme + "://"@ + rest + forwarded_path(rule, path) + query_suffix(query)
}

/// A forwarded address keeps the request's query: with a query `q` it is
/// the address without one followed by `?` and `q`, whether or not the rule
/// rewrites the path, for HTTP and WebSocket alike.  Without a query, the
/// HTTP address is the target without trailing slashes followed by the
/// request path as it is when the rule does not rewrite, and by what follows
/// the rule's path in the request path (both without trailing slashes) when
/// it does.
pub proof fn law_proxy_url_parts(rule: ProxyRule, path: Seq<char>, q: Seq<char>, rest: Seq<char>)
    ensures
        proxy_url(rule, path, Some(q)) == proxy_url(rule, path, None) + seq!['?'] + q,
        ws_proxy_url(rule, path, Some(q)) == ws_proxy_url(rule, path, None) + seq!['?'] + q,
        !rule.rewrite ==> proxy_url(rule, path, None) == trim_end_char(rule.target@, '/') + path,
        rule.rewrite && trim_end_char(path, '/') == trim_end_char(rule.path@, '/') + rest
            ==> proxy_url(rule, path, None) == trim_end_char(rule.target@, '/') + rest,
{
    let t = trim_end_char(rule.target@, '/');
    let f = forwarded_path(rule, path);
    assert(proxy_url(rule, path, None) =~= t + f);
    assert(proxy_url(rule, path, Some(q)) =~= t + f + seq!['?'] + q);
    assert(ws_proxy_url(rule, path, Some(q)) =~= ws_proxy_url(rule, path, None) + seq!['?'] + q);
    if rule.rewrite && trim_end_char(path, '/') == trim_end_char(rule.path@, '/') + rest {
        let a = trim_end_char(rule.path@, '/');
        let s2 = a + rest;
        assert(s2.take(a.len() as int) =~= a);
        assert(s2.skip(a.len() as int) =~= rest);
    }
}

/// A WebSocket address uses `wss` for a target beginning with `https://`
/// and `ws` otherwise, and, when the rule does not rewrite, ends with the
/// request path as it is (and the query, see `law_proxy_url_parts`).
pub proof fn law_ws_url_parts(rule: ProxyRule, path: Seq<char>)
    ensures
        starts_with(trim_end_char(rule.target@, '/'), "https://"@) ==> starts_with(
            ws_proxy_url(rule, path, None),
            "wss://"@,
        ),
        !starts_with(trim_end_char(rule.target@, '/'), "https://"@) ==> starts_with(
            ws_proxy_url(rule, path, None),
            "ws://"@,
        ),
        !rule.rewrite ==> ({
            let u = ws_proxy_url(rule, path, None);
            u.len() >= path.len() && u.skip(u.len() - path.len()) == path
        }),
{
    reveal_strlit("wss");
    reveal_strlit("ws");
    reveal_strlit("://");
    reveal_strlit("wss://");
    reveal_strlit("ws://");
    let target = trim_end_char(rule.target@, '/');
    let rest = trim_start_str(trim_start_str(target, "http://"@), "https://"@);
    let f = forwarded_path(rule, path);
    let u = ws_proxy_url(rule, path, None);
    if starts_with(target, "https://"@) {
        assert(u =~= "wss://"@ + (rest + f));
        assert(u.take(6) =~= "wss://"@);
    } else {
        assert(u =~= "ws://"@ + (rest + f));
        assert(u.take(5) =~= "ws://"@);
    }
    if !rule.rewrite {
        assert(u.skip(u.len() - path.len()) =~= path);
    }
}

fn forwarded_path_chars(rule: &ProxyRule, path: &[char]) -> (r: Vec<char>)
    ensures
        r@ == forwarded_path(*rule, path@),
{
    if rule.rewrite {
        let rp = trim_end_chars(chars_of(rule.path.as_str()).as_slice(), '/');
        let tp = trim_end_chars(path, '/');
        if has_prefix(tp.as_slice(), rp.as_slice()) {
            let r = slice_chars(tp.as_slice(), rp.len(), tp.len());
            assert(r@ =~= tp@.skip(rp@.len() as int));
            r
        } else {
            Vec::new()
        }
    } else {
        slice_chars(path, 0, path.len())
    }
}

fn push_query(out: &mut Vec<char>, query: Option<&str>)
    ensures
        final(out)@ == old(out)@ + query_suffix(
            match query {
                Some(q) => Some(q@),
                None => None,
            },
        ),
{
    match query {
        Some(q) => {
            out.push('?');
            let qc = chars_of(q);
            push_all(out, qc.as_slice());
        },
        None => {
            assert(old(out)@ + seq![] =~= old(out)@);
        },
    }
}

/// Builds the address an HTTP request for `path` (and `query`) is sent to.
pub fn proxy_target_url(rule: &ProxyRule, path: &str, query: Option<&str>) -> (u: String)
    ensures
        u@ == proxy_url(
            *rule,
            path@,
            match query {
                Some(q) => Some(q@),
                None => None,
            },
        ),
{
    let mut v = trim_end_chars(chars_of(rule.target.as_str()).as_slice(), '/');
    let fp = forwarded_path_chars(rule, chars_of(path).as_slice());
    push_all(&mut v, fp.as_slice());
    push_query(&mut v, query);
    string_from_chars(v.as_slice())
}

/// Builds the address a WebSocket connection for `path` (and `query`) is sent to.
pub fn ws_target_url(rule: &ProxyRule, path: &str, query: Option<&str>) -> (u: String)
    ensures
        u@ == ws_proxy_url(
            *rule,
            path@,
            match query {
                Some(q) => Some(q@),
                None => None,
            },
        ),
{
    let target = trim_end_chars(chars_of(rule.target.as_str()).as_slice(), '/');
    let secure = has_str_prefix(target.as_slice(), "https://");
    let rest = trim_start_lit(trim_start_lit(target.as_slice(), "http://").as_slice(), "https://");
    let mut v: Vec<char> = Vec::new();
    if secure {
        push_str_chars(&mut v, "wss");
    } else {
        push_str_chars(&mut v, "ws");
    }
    push_str_chars(&mut v, "://");
    push_all(&mut v, rest.as_slice());
    let fp = forwarded_path_chars(rule, chars_of(path).as_slice());
    push_all(&mut v, fp.as_slice());
    push_query(&mut v, query);
    string_from_chars(v.as_slice())
}

/// Request headers that are not passed on to a proxy target.
pub open spec fn hop_request_header(name: Seq<char>) -> bool {
    name == "host"@ || name == "connection"@ || name == "transfer-encoding"@ || name
        == "content-length"@ || name == "accept-encoding"@
}

/// Response headers of a proxy target that are not passed back.
pub open spec fn hop_response_header(name: Seq<char>) -> bool {
    name == "content-encoding"@ || name == "transfer-encoding"@ || name == "connection"@
}

/// Whether a request header (lower-case name) is sent on to the target.
pub fn forward_request_header(name: &str) -> (b: bool)
    ensures
        b == !hop_request_header(name@),
{
    let n = chars_of(name);
    let n = n.as_slice();
    !(chars_eq_str(n, "host") || chars_eq_str(n, "connection") || chars_eq_str(
        n,
        "transfer-encoding",
    ) || chars_eq_str(n, "content-length") || chars_eq_str(n, "accept-encoding"))
}

/// Whether a response header (lower-case name) of the target is passed back.
pub fn forward_response_header(name: &str) -> (b: bool)
    ensures
        b == !hop_response_header(name@),
{
    let n = chars_of(name);
    let n = n.as_slice();
    !(chars_eq_str(n, "content-encoding") || chars_eq_str(n, "transfer-encoding")
        || chars_eq_str(n, "connection"))
}

/// HTTP methods, as far as forwarding distinguishes them.
#[derive(Clone, Copy, Debug, PartialEq, Eq, Structural)]
pub enum HttpMethod {
    Get,
    Post,
    Put,
    Delete,
    Patch,
    Head,
    Options,
    Other,
}

/// The method used towards the target: the request's own, and `GET` for
/// methods other than the seven common ones.
pub fn forwarded_method(m: HttpMethod) -> (r: HttpMethod)
    ensures
        m == HttpMethod::Other ==> r == HttpMethod::Get,
        m != HttpMethod::Other ==> r == m,
{
    match m {
        HttpMethod::Other => HttpMethod::Get,
        _ => m,
    }
}

/// `eq_ignore_ascii_case` on characters.
pub open spec fn eq_ignore_ascii_case(a: Seq<char>, b: Seq<char>) -> bool {
    lower(a) == lower(b)
}

/// Whether an `Upgrade` header (if readable) asks for a WebSocket.
pub fn is_websocket_upgrade(upgrade: Option<&str>) -> (b: bool)
    ensures
        b == (match upgrade {
            Some(v) => eq_ignore_ascii_case(v@, "websocket"@),
            None => false,
        }),
{
    match upgrade {
        None => false,
        Some(v) => {
            let c = chars_of(v);
            let w = chars_of("websocket");
            if c.len() != w.len() {
                assert(lower(c@).len() == c@.len());
                assert(lower(w@).len() == w@.len());
                return false;
            }
            let mut i: usize = 0;
            while i < c.len()
                invariant
                    upgrade == Some(v),
                    c@ == v@,
                    w@ == "websocket"@,
                    c@.len() == w@.len(),
                    i <= c@.len(),
                    forall|j: int| 0 <= j < i ==> ascii_lower(c@[j]) == ascii_lower(w@[j]),
                decreases c@.len() - i,
            {
                let x = ascii_lower_char(c[i]);
                let y = ascii_lower_char(w[i]);
                if x != y {
                    assert(lower(c@)[i as int] != lower(w@)[i as int]);
                    assert(lower(c@) != lower(w@));
                    return false;
                }
                i += 1;
            }
            assert(lower(c@) =~= lower(w@));
            true
        },
    }
}


// ---------------------------------------------------------------------------
// Routing
// ---------------------------------------------------------------------------

/// Where a request goes.
#[derive(Clone, Debug)]
pub enum Route {
    /// A WebSocket upgrade forwarded by the rule with this index.
    ProxyWebSocket(usize),
    /// An HTTP request forwarded by the rule with this index.
    Proxy(usize),
    /// The index file of the served directory.
    Index,
    /// A path below the served directory (without its leading slashes,
    /// still URL-encoded).
    File(String),
}

/// Decides where a request for `path` goes: a matching proxy rule first,
/// then the index file for the bare root, then a file.
pub fn route_request(path: &str, rules: &[ProxyRule], websocket: bool) -> (r: Route)
    ensures
        match r {
            Route::ProxyWebSocket(k) => websocket && is_best_rule(
                encode_utf8(path@),
                rules@,
                k as int,
            ),
            Route::Proxy(k) => !websocket && is_best_rule(encode_utf8(path@), rules@, k as int),
            Route::Index => {
                &&& forall|j: int|
                    0 <= j < rules@.len() ==> #[trigger] rule_score(encode_utf8(path@), rules@[j])
                        == 0
                &&& trim_start_char(path@, '/').len() == 0
            },
            Route::File(t) => {
                &&& forall|j: int|
                    0 <= j < rules@.len() ==> #[trigger] rule_score(encode_utf8(path@), rules@[j])
                        == 0
                &&& t@ == trim_start_char(path@, '/')
                &&& t@.len() > 0
            },
        },
{
    match match_proxy_rule_index(path, rules) {
        Some(k) => if websocket {
            Route::ProxyWebSocket(k)
        } else {
            Route::Proxy(k)
        },
        None => {
            let t = trim_start_chars(chars_of(path).as_slice(), '/');
            if t.len() == 0 {
                Route::Index
            } else {
                Route::File(string_from_chars(t.as_slice()))
            }
        },
    }
}

} // verus!
