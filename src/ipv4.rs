use vstd::prelude::*;
use vstd::utf8::{encode_utf8, is_ascii_chars};
use crate::memory::{be32, lemma_u32_bytes, string_from_utf8, u32_bytes};

verus! {

broadcast use vstd::utf8::encode_utf8_valid_utf8, vstd::utf8::encode_utf8_decode_utf8;

/// The decimal digit character for `d` (from 0 to 9).
pub open spec fn digit_char(d: int) -> char {
    ((48 + d) as u8) as char
}

/// Decimal text of an octet, without leading zeros.
pub open spec fn octet_text(n: u8) -> Seq<char> {
    if n < 10 {
        seq![digit_char(n as int)]
    } else if n < 100 {
        seq![digit_char(n as int / 10), digit_char(n as int % 10)]
    } else {
        seq![digit_char(n as int / 100), digit_char((n as int / 10) % 10), digit_char(n as int % 10)]
    }
}

/// Dotted-quad text of an address stored as a big-endian integer.
pub open spec fn dotted_quad(v: u32) -> Seq<char> {
    let o = u32_bytes(v);
    octet_text(o[0]) + (seq!['.'] + (octet_text(o[1]) + (seq!['.'] + (octet_text(o[2]) + (seq!['.'] + octet_text(o[3]))))))
}

/// Text of an address: empty for zero (unset), dotted quad otherwise.
pub open spec fn ip_text(v: u32) -> Seq<char> {
    if v == 0 {
        Seq::empty()
    } else {
        dotted_quad(v)
    }
}

/// Bytes of an ASCII text, one per character.
pub open spec fn ascii_bytes(s: Seq<char>) -> Seq<u8> {
    s.map_values(|c: char| c as u8)
}

/// Whether `x` is the byte of a decimal digit.
pub open spec fn is_digit(x: u8) -> bool {
    48 <= x <= 57
}

/// Whether the text of `n` stands at `pos` in `b`, followed by the end or by a non-digit.
pub open spec fn octet_at(b: Seq<u8>, pos: int, n: u8) -> bool {
    let l = octet_text(n).len() as int;
    &&& 0 <= pos
    &&& pos + l <= b.len()
    &&& b.subrange(pos, pos + l) == ascii_bytes(octet_text(n))
    &&& (pos + l == b.len() || !is_digit(b[pos + l]))
}

/// The bytes that `octet_at` describes, one by one.
proof fn lemma_octet_at(b: Seq<u8>, pos: int, n: u8)
    requires
        octet_at(b, pos, n),
    ensures
        n < 10 ==> octet_text(n).len() == 1 && b[pos] == 48 + n && (pos + 1 == b.len() || !is_digit(b[pos + 1])),
        10 <= n < 100 ==> octet_text(n).len() == 2 && b[pos] == 48 + n / 10 && b[pos + 1] == 48 + n % 10 && (pos + 2
            == b.len() || !is_digit(b[pos + 2])),
        100 <= n ==> octet_text(n).len() == 3 && b[pos] == 48 + n / 100 && b[pos + 1] == 48 + (n / 10) % 10 && b[pos
            + 2] == 48 + n % 10 && (pos + 3 == b.len() || !is_digit(b[pos + 3])),
{
    let t = octet_text(n);
    let l = t.len() as int;
    assert forall|k: int| 0 <= k < l implies b[pos + k] == #[trigger] t[k] as u8 by {
        assert(b.subrange(pos, pos + l)[k] == ascii_bytes(t)[k]);
    }
    if n < 10 {
        assert(t[0] as u8 == 48 + n);
    } else if n < 100 {
        assert(t[0] as u8 == 48 + n / 10);
        assert(t[1] as u8 == 48 + n % 10);
    } else {
        assert(t[0] as u8 == 48 + n / 100);
        assert(t[1] as u8 == 48 + (n / 10) % 10);
        assert(t[2] as u8 == 48 + n % 10);
    }
}

/// The text of an octet is ASCII digits.
proof fn lemma_octet_text(n: u8)
    ensures
        1 <= octet_text(n).len() <= 3,
        forall|k: int| 0 <= k < octet_text(n).len() ==> is_digit(#[trigger] octet_text(n)[k] as u8),
        is_ascii_chars(octet_text(n)),
{
}

/// Layout of the bytes of a dotted quad: each octet's text, with a dot after
/// each of the first three and the end after the last.
proof fn lemma_quad_layout(v: u32)
    ensures
        ({
            let b = ascii_bytes(dotted_quad(v));
            let o = u32_bytes(v);
            let l0 = octet_text(o[0]).len() as int;
            let l1 = octet_text(o[1]).len() as int;
            let l2 = octet_text(o[2]).len() as int;
            let l3 = octet_text(o[3]).len() as int;
            &&& o.len() == 4
            &&& octet_at(b, 0, o[0])
            &&& b[l0] == 46
            &&& octet_at(b, l0 + 1, o[1])
            &&& b[l0 + 1 + l1] == 46
            &&& octet_at(b, l0 + l1 + 2, o[2])
            &&& b[l0 + l1 + l2 + 2] == 46
            &&& octet_at(b, l0 + l1 + l2 + 3, o[3])
            &&& b.len() == l0 + l1 + l2 + l3 + 3
        }),
        is_ascii_chars(dotted_quad(v)),
{
    let o = u32_bytes(v);
    let t0 = octet_text(o[0]);
    let t1 = octet_text(o[1]);
    let t2 = octet_text(o[2]);
    let t3 = octet_text(o[3]);
    lemma_octet_text(o[0]);
    lemma_octet_text(o[1]);
    lemma_octet_text(o[2]);
    lemma_octet_text(o[3]);
    let s = dotted_quad(v);
    let b = ascii_bytes(s);
    let l0 = t0.len() as int;
    let l1 = t1.len() as int;
    let l2 = t2.len() as int;
    let l3 = t3.len() as int;
    let d = seq!['.'];
    assert(s.len() == l0 + l1 + l2 + l3 + 3);
    assert forall|k: int| 0 <= k < l0 implies s[k] == t0[k] by {}
    assert(s[l0] == '.');
    assert forall|k: int| 0 <= k < l1 implies s[l0 + 1 + k] == t1[k] by {}
    assert(s[l0 + 1 + l1] == '.');
    assert forall|k: int| 0 <= k < l2 implies s[l0 + l1 + 2 + k] == t2[k] by {}
    assert(s[l0 + l1 + 2 + l2] == '.');
    assert forall|k: int| 0 <= k < l3 implies s[l0 + l1 + l2 + 3 + k] == t3[k] by {}
    assert(b.subrange(0, l0) =~= ascii_bytes(t0));
    assert(b.subrange(l0 + 1, l0 + 1 + l1) =~= ascii_bytes(t1));
    assert(b.subrange(l0 + l1 + 2, l0 + l1 + 2 + l2) =~= ascii_bytes(t2));
    assert(b.subrange(l0 + l1 + l2 + 3, l0 + l1 + l2 + 3 + l3) =~= ascii_bytes(t3));
    assert forall|k: int| 0 <= k < s.len() implies '\0' <= #[trigger] s[k] <= '\u{7f}' by {
        if k < l0 {
            assert(is_digit(t0[k] as u8));
        } else if k == l0 {
        } else if k < l0 + 1 + l1 {
            assert(is_digit(t1[k - l0 - 1] as u8));
        } else if k == l0 + 1 + l1 {
        } else if k < l0 + l1 + 2 + l2 {
            assert(is_digit(t2[k - l0 - l1 - 2] as u8));
        } else if k == l0 + l1 + 2 + l2 {
        } else {
            assert(is_digit(t3[k - l0 - l1 - l2 - 3] as u8));
        }
    }
}

/// At most one octet's text stands at a position followed by a non-digit or the end.
proof fn lemma_octet_unique(b: Seq<u8>, pos: int, n1: u8, n2: u8)
    requires
        octet_at(b, pos, n1),
        octet_at(b, pos, n2),
    ensures
        n1 == n2,
{
    lemma_octet_at(b, pos, n1);
    lemma_octet_at(b, pos, n2);
}

/// The dotted-quad text determines the address: two addresses with the same
/// text are the same address.
pub proof fn lemma_dotted_quad_injective(v1: u32, v2: u32)
    requires
        dotted_quad(v1) == dotted_quad(v2),
    ensures
        v1 == v2,
{
    lemma_quad_layout(v1);
    lemma_quad_layout(v2);
    lemma_u32_bytes(v1);
    lemma_u32_bytes(v2);
    let b = ascii_bytes(dotted_quad(v1));
    let o = u32_bytes(v1);
    let p = u32_bytes(v2);
    lemma_octet_unique(b, 0, o[0], p[0]);
    let l0 = octet_text(o[0]).len() as int;
    lemma_octet_unique(b, l0 + 1, o[1], p[1]);
    let l1 = octet_text(o[1]).len() as int;
    lemma_octet_unique(b, l0 + l1 + 2, o[2], p[2]);
    let l2 = octet_text(o[2]).len() as int;
    lemma_octet_unique(b, l0 + l1 + l2 + 3, o[3], p[3]);
    assert(o =~= p);
}

/// Reads the decimal octet at `pos`: one to three digits. Whenever the text
/// of some octet stands there followed by a non-digit or the end, that octet
/// and the position after it come back.
fn scan_octet(b: &[u8], pos: usize) -> (r: Option<(u8, usize)>)
    requires
        pos <= b@.len(),
    ensures
        forall|n: u8| #[trigger] octet_at(b@, pos as int, n) ==> r == Some((n, (pos + octet_text(n).len()) as usize)),
        r matches Some((n, p)) ==> pos < p <= b@.len(),
{
    if pos >= b.len() || b[pos] < 48 || b[pos] > 57 {
        proof {
            assert forall|n: u8| #[trigger] octet_at(b@, pos as int, n) implies false by {
                lemma_octet_at(b@, pos as int, n);
            }
        }
        return None;
    }
    let d0 = (b[pos] - 48) as u32;
    if pos + 1 >= b.len() || b[pos + 1] < 48 || b[pos + 1] > 57 {
        proof {
            assert forall|n: u8| #[trigger] octet_at(b@, pos as int, n) implies Some((d0 as u8, (pos + 1) as usize)) == Some(
                (n, (pos + octet_text(n).len()) as usize),
            ) by {
                lemma_octet_at(b@, pos as int, n);
            }
        }
        return Some((d0 as u8, pos + 1));
    }
    let d1 = (b[pos + 1] - 48) as u32;
    if pos + 2 >= b.len() || b[pos + 2] < 48 || b[pos + 2] > 57 {
        let v = d0 * 10 + d1;
        proof {
            assert forall|n: u8| #[trigger] octet_at(b@, pos as int, n) implies Some((v as u8, (pos + 2) as usize)) == Some(
                (n, (pos + octet_text(n).len()) as usize),
            ) by {
                lemma_octet_at(b@, pos as int, n);
            }
        }
        return Some((v as u8, pos + 2));
    }
    let d2 = (b[pos + 2] - 48) as u32;
    let v = d0 * 100 + d1 * 10 + d2;
    if v > 255 {
        proof {
            assert forall|n: u8| #[trigger] octet_at(b@, pos as int, n) implies false by {
                lemma_octet_at(b@, pos as int, n);
            }
        }
        return None;
    }
    proof {
        assert forall|n: u8| #[trigger] octet_at(b@, pos as int, n) implies Some((v as u8, (pos + 3) as usize)) == Some(
            (n, (pos + octet_text(n).len()) as usize),
        ) by {
            lemma_octet_at(b@, pos as int, n);
        }
    }
    Some((v as u8, pos + 3))
}

/// Reads an octet at `pos`, then a dot (or, for the last field, the end).
/// Whenever the text of some octet stands there followed by that, the octet
/// and the position after the dot come back.
fn scan_field(b: &[u8], pos: usize, last: bool) -> (r: Option<(u8, usize)>)
    requires
        pos <= b@.len(),
    ensures
        forall|n: u8|
            #[trigger] octet_at(b@, pos as int, n) && (if last {
                pos + octet_text(n).len() == b@.len()
            } else {
                pos + octet_text(n).len() < b@.len() && b@[pos + octet_text(n).len()] == 46
            }) ==> r == Some((n, (pos + octet_text(n).len() + if last { 0int } else { 1int }) as usize)),
        r matches Some((n, p)) ==> pos < p <= b@.len(),
{
    match scan_octet(b, pos) {
        None => None,
        Some((n, p)) => {
            if last {
                if p == b.len() {
                    Some((n, p))
                } else {
                    None
                }
            } else if p < b.len() && b[p] == 46 {
                Some((n, p + 1))
            } else {
                None
            }
        },
    }
}

/// Reads four dot-separated octets that fill `b`. Whenever `b` holds the
/// dotted-quad text of some address, that address comes back.
fn scan_quad(b: &[u8]) -> (r: Option<u32>)
    ensures
        forall|v: u32| b@ == #[trigger] ascii_bytes(dotted_quad(v)) ==> r == Some(v),
{
    let r = match scan_field(b, 0, false) {
        None => None,
        Some((o0, e0)) => match scan_field(b, e0, false) {
            None => None,
            Some((o1, e1)) => match scan_field(b, e1, false) {
                None => None,
                Some((o2, e2)) => match scan_field(b, e2, true) {
                    None => None,
                    Some((o3, _)) => Some(
                        ((o0 as u32) << 24u32) | ((o1 as u32) << 16u32) | ((o2 as u32) << 8u32) | (o3 as u32),
                    ),
                },
            },
        },
    };
    proof {
        assert forall|v: u32| b@ == #[trigger] ascii_bytes(dotted_quad(v)) implies r == Some(v) by {
            lemma_quad_layout(v);
            lemma_u32_bytes(v);
            let o = u32_bytes(v);
            assert(r matches Some(x) && x == be32(o[0], o[1], o[2], o[3]));
        }
    }
    r
}

/// Appends the decimal text of `n`.
fn push_octet(w: &mut Vec<u8>, n: u8)
    ensures
        final(w)@ == old(w)@ + ascii_bytes(octet_text(n)),
{
    if n >= 100 {
        w.push(48 + n / 100);
        w.push(48 + (n / 10) % 10);
        w.push(48 + n % 10);
    } else if n >= 10 {
        w.push(48 + n / 10);
        w.push(48 + n % 10);
    } else {
        w.push(48 + n);
    }
    assert(final(w)@ =~= old(w)@ + ascii_bytes(octet_text(n)));
}

/// Dotted-quad text of the address `v` (four octets, most significant first).
pub fn format_ipv4(v: u32) -> (r: String)
    ensures
        r@ == dotted_quad(v),
{
    let o = [(v >> 24u32) as u8, (v >> 16u32) as u8, (v >> 8u32) as u8, v as u8];
    let mut w: Vec<u8> = Vec::new();
    push_octet(&mut w, o[0]);
    w.push(46);
    push_octet(&mut w, o[1]);
    w.push(46);
    push_octet(&mut w, o[2]);
    w.push(46);
    push_octet(&mut w, o[3]);
    proof {
        let ob = u32_bytes(v);
        assert(o[0] == ob[0] && o[1] == ob[1] && o[2] == ob[2] && o[3] == ob[3]);
        lemma_quad_layout(v);
        let s = dotted_quad(v);
        let d = seq!['.'];
        assert(ascii_bytes(d) =~= seq![46u8]);
        assert(w@ =~= ascii_bytes(s)) by {
            let t0 = octet_text(ob[0]);
            let t1 = octet_text(ob[1]);
            let t2 = octet_text(ob[2]);
            let t3 = octet_text(ob[3]);
            assert(s == t0 + (d + (t1 + (d + (t2 + (d + t3))))));
            assert(ascii_bytes(s) =~= ascii_bytes(t0) + (ascii_bytes(d) + (ascii_bytes(t1) + (ascii_bytes(d) + (
            ascii_bytes(t2) + (ascii_bytes(d) + ascii_bytes(t3)))))));
        }
        vstd::utf8::is_ascii_chars_encode_utf8(s);
        assert(encode_utf8(s) =~= ascii_bytes(s));
    }
    match string_from_utf8(w) {
        Some(t) => t,
        None => String::new(),
    }
}

/// Text of the address `ip`: empty for zero, the dotted quad otherwise.
pub fn ip_to_string(ip: u32) -> (r: String)
    ensures
        r@ == ip_text(ip),
{
    if ip == 0 {
        String::new()
    } else {
        format_ipv4(ip)
    }
}

/// The address whose dotted-quad text is exactly `s` (four decimal octets
/// without leading zeros, separated by dots), if there is one.
pub fn parse_ipv4(s: &str) -> (r: Option<u32>)
    ensures
        match r {
            Some(v) => s@ == dotted_quad(v),
            None => forall|v: u32| s@ != #[trigger] dotted_quad(v),
        },
{
    if !s.is_ascii() {
        proof {
            assert forall|v: u32| s@ != #[trigger] dotted_quad(v) by {
                lemma_quad_layout(v);
            }
        }
        return None;
    }
    let b = s.as_bytes();
    proof {
        vstd::utf8::is_ascii_chars_encode_utf8(s@);
        assert(b@ =~= ascii_bytes(s@));
    }
    match scan_quad(b) {
        None => None,
        Some(v) => {
            let text = format_ipv4(v);
            let own = s.to_owned();
            if text == own {
                Some(v)
            } else {
                None
            }
        },
    }
}

} // verus!
