use vstd::prelude::*;
use vstd::utf8::encode_utf8;
use crate::memory::{be32, be32_at, be64_at, lemma_u32_bytes, name_bytes, name_fits, spec_read_name, u32_bytes, u64_bytes};
use crate::pack_reader::{spec_read_element, spec_read_elements, spec_read_pack, spec_read_value, spec_read_values};
use crate::pack_types::{name_taken, pack_wf, spec_add, tag_type, type_tag, ElementView, PackError, ValueType, ValueView, MAX_ELEMENT_NUM};
use crate::pack_writer::{
    element_bytes, element_error, elements_bytes, lemma_elements_error_from, lemma_values_error_from, pack_bytes,
    elements_error_from, pack_error, value_bytes, value_error, values_bytes, values_error_from,
};

verus! {

broadcast use vstd::utf8::encode_utf8_valid_utf8, vstd::utf8::encode_utf8_decode_utf8;

/// When `x + y` sits at `pos` in `b`, `x` sits at `pos` and `y` right after it.
proof fn lemma_split(b: Seq<u8>, pos: int, x: Seq<u8>, y: Seq<u8>)
    requires
        0 <= pos,
        pos + x.len() + y.len() <= b.len(),
        b.subrange(pos, pos + x.len() + y.len()) == x + y,
    ensures
        b.subrange(pos, pos + x.len()) == x,
        b.subrange(pos + x.len(), pos + x.len() + y.len()) == y,
{
    let whole = b.subrange(pos, pos + x.len() + y.len());
    assert forall|k: int| 0 <= k < x.len() implies b.subrange(pos, pos + x.len())[k] == x[k] by {
        assert(whole[k] == b[pos + k]);
        assert((x + y)[k] == x[k]);
    }
    assert forall|k: int| 0 <= k < y.len() implies b.subrange(pos + x.len(), pos + x.len() + y.len())[k] == y[k] by {
        assert(whole[x.len() + k] == b[pos + x.len() + k]);
        assert((x + y)[x.len() + k] == y[k]);
    }
    assert(b.subrange(pos, pos + x.len()) =~= x);
    assert(b.subrange(pos + x.len(), pos + x.len() + y.len()) =~= y);
}

/// The four bytes of `v` at `pos` read back as `v`.
proof fn lemma_u32_at(b: Seq<u8>, pos: int, v: u32)
    requires
        0 <= pos,
        pos + 4 <= b.len(),
        b.subrange(pos, pos + 4) == u32_bytes(v),
    ensures
        be32_at(b, pos) == v,
{
    lemma_u32_bytes(v);
    let s = b.subrange(pos, pos + 4);
    assert(s[0] == b[pos] && s[1] == b[pos + 1] && s[2] == b[pos + 2] && s[3] == b[pos + 3]);
}

/// The eight bytes of `v` at `pos` read back as `v`.
proof fn lemma_u64_at(b: Seq<u8>, pos: int, v: u64)
    requires
        0 <= pos,
        pos + 8 <= b.len(),
        b.subrange(pos, pos + 8) == u64_bytes(v),
    ensures
        be64_at(b, pos) == v,
{
    let hi = (v >> 32u64) as u32;
    let lo = v as u32;
    lemma_u32_bytes(hi);
    lemma_u32_bytes(lo);
    lemma_split(b, pos, u32_bytes(hi), u32_bytes(lo));
    lemma_u32_at(b, pos, hi);
    lemma_u32_at(b, pos + 4, lo);
    assert((((v >> 32u64) as u32) as u64) << 32u64 | ((v as u32) as u64) == v) by (bit_vector);
}

/// A name written at `pos` reads back as that name.
proof fn lemma_read_name_bytes(b: Seq<u8>, pos: int, s: Seq<char>)
    requires
        name_fits(s),
        0 <= pos,
        pos + name_bytes(s).len() <= b.len(),
        b.subrange(pos, pos + name_bytes(s).len()) == name_bytes(s),
    ensures
        spec_read_name(b, pos) == Ok::<(Seq<char>, int), PackError>((s, pos + name_bytes(s).len())),
{
    let u = encode_utf8(s);
    let n = (u.len() + 1) as u32;
    lemma_u32_bytes(n);
    lemma_split(b, pos, u32_bytes(n), u);
    lemma_u32_at(b, pos, n);
}

/// A value written at `pos` reads back as that value.
proof fn lemma_read_value_bytes(b: Seq<u8>, pos: int, v: ValueView, t: ValueType)
    requires
        value_error(v, t) is None,
        0 <= pos,
        pos + value_bytes(v).len() <= b.len(),
        b.subrange(pos, pos + value_bytes(v).len()) == value_bytes(v),
    ensures
        spec_read_value(b, pos, t) == Ok::<(ValueView, int), PackError>((v, pos + value_bytes(v).len())),
{
    match v {
        ValueView::Int(x) => {
            lemma_u32_bytes(x);
            lemma_u32_at(b, pos, x);
        },
        ValueView::Int64(x) => {
            crate::memory::lemma_u64_bytes(x);
            lemma_u64_at(b, pos, x);
        },
        ValueView::Data(d) => {
            let n = d.len() as u32;
            lemma_u32_bytes(n);
            lemma_split(b, pos, u32_bytes(n), d);
            lemma_u32_at(b, pos, n);
        },
        ValueView::Str(s) => {
            let u = encode_utf8(s);
            let n = u.len() as u32;
            lemma_u32_bytes(n);
            lemma_split(b, pos, u32_bytes(n), u);
            lemma_u32_at(b, pos, n);
        },
        ValueView::UniStr(_) => {},
    }
}

/// Values written one after the other from `pos` read back as those values.
proof fn lemma_read_values_bytes(b: Seq<u8>, pos: int, vs: Seq<ValueView>, t: ValueType)
    requires
        forall|j: int| 0 <= j < vs.len() ==> (#[trigger] value_error(vs[j], t)) is None,
        0 <= pos,
        pos + values_bytes(vs).len() <= b.len(),
        b.subrange(pos, pos + values_bytes(vs).len()) == values_bytes(vs),
    ensures
        spec_read_values(b, pos, t, vs.len()) == Ok::<(Seq<ValueView>, int), PackError>((vs, pos + values_bytes(vs).len())),
    decreases vs.len(),
{
    if vs.len() == 0 {
        assert(vs =~= Seq::<ValueView>::empty());
    } else {
        let init = vs.drop_last();
        let last = vs.last();
        assert(value_error(vs[vs.len() - 1], t) is None);
        assert forall|j: int| 0 <= j < init.len() implies (#[trigger] value_error(init[j], t)) is None by {
            assert(init[j] == vs[j]);
            assert(value_error(vs[j], t) is None);
        }
        lemma_split(b, pos, values_bytes(init), value_bytes(last));
        lemma_read_values_bytes(b, pos, init, t);
        lemma_read_value_bytes(b, pos + values_bytes(init).len(), last, t);
        assert(init.push(last) =~= vs);
    }
}

/// An element written at `pos` reads back as that element.
proof fn lemma_read_element_bytes(b: Seq<u8>, pos: int, e: ElementView)
    requires
        element_error(e) is None,
        0 <= pos,
        pos + element_bytes(e).len() <= b.len(),
        b.subrange(pos, pos + element_bytes(e).len()) == element_bytes(e),
    ensures
        spec_read_element(b, pos) == Ok::<(ElementView, int), PackError>((e, pos + element_bytes(e).len())),
{
    let nb = name_bytes(e.name);
    let tb = u32_bytes(type_tag(e.ty));
    let cb = u32_bytes(e.values.len() as u32);
    let vb = values_bytes(e.values);
    lemma_u32_bytes(type_tag(e.ty));
    lemma_u32_bytes(e.values.len() as u32);
    lemma_split(b, pos, nb + tb + cb, vb);
    lemma_split(b, pos, nb + tb, cb);
    lemma_split(b, pos, nb, tb);
    lemma_read_name_bytes(b, pos, e.name);
    let p = pos + nb.len();
    lemma_u32_at(b, p, type_tag(e.ty));
    lemma_u32_at(b, p + 4, e.values.len() as u32);
    assert(tag_type(type_tag(e.ty)) == Some(e.ty));
    assert forall|j: int| 0 <= j < e.values.len() implies (#[trigger] value_error(e.values[j], e.ty)) is None by {
        lemma_values_error_from(e.values, e.ty, 0, j);
    }
    lemma_read_values_bytes(b, p + 8, e.values, e.ty);
}

/// Well-formed elements written one after the other from `pos` read back as
/// those elements.
proof fn lemma_read_elements_bytes(b: Seq<u8>, pos: int, es: Seq<ElementView>)
    requires
        pack_wf(es),
        forall|j: int| 0 <= j < es.len() ==> (#[trigger] element_error(es[j])) is None,
        0 <= pos,
        pos + elements_bytes(es).len() <= b.len(),
        b.subrange(pos, pos + elements_bytes(es).len()) == elements_bytes(es),
    ensures
        spec_read_elements(b, pos, es.len()) == Ok::<(Seq<ElementView>, int), PackError>((es, pos + elements_bytes(es).len())),
    decreases es.len(),
{
    if es.len() == 0 {
        assert(es =~= Seq::<ElementView>::empty());
    } else {
        let init = es.drop_last();
        let last = es.last();
        let k = es.len() - 1;
        assert(element_error(es[k]) is None);
        assert forall|j: int| 0 <= j < init.len() implies (#[trigger] element_error(init[j])) is None by {
            assert(init[j] == es[j]);
            assert(element_error(es[j]) is None);
        }
        assert forall|i: int, j: int|
            0 <= i < init.len() && 0 <= j < init.len() && i != j implies #[trigger] init[i].name != #[trigger] init[j].name by {
            assert(init[i] == es[i] && init[j] == es[j]);
        }
        assert forall|i: int| 0 <= i < init.len() implies #[trigger] init[i].values.len() > 0 by {
            assert(init[i] == es[i]);
        }
        lemma_split(b, pos, elements_bytes(init), element_bytes(last));
        lemma_read_elements_bytes(b, pos, init);
        lemma_read_element_bytes(b, pos + elements_bytes(init).len(), last);
        assert(es[k].values.len() > 0);
        if name_taken(init, last.name) {
            let i = choose|i: int| 0 <= i < init.len() && #[trigger] init[i].name == last.name;
            assert(init[i] == es[i]);
            assert(false);
        }
        assert(init.push(last) =~= es);
        assert(spec_add(init, last) == Ok::<Seq<ElementView>, PackError>(es));
    }
}

/// Round trip: the bytes that encoding a well-formed pack produces (when the
/// encoder accepts it) decode to the same elements, with the same names,
/// types and values, in the same order.
pub proof fn lemma_round_trip(es: Seq<ElementView>)
    requires
        pack_wf(es),
        pack_error(es) is None,
    ensures
        spec_read_pack(pack_bytes(es)) == Ok::<Seq<ElementView>, PackError>(es),
{
    let b = pack_bytes(es);
    let n = es.len() as u32;
    lemma_u32_bytes(n);
    assert(b.subrange(0, b.len() as int) =~= b);
    lemma_split(b, 0, u32_bytes(n), elements_bytes(es));
    lemma_u32_at(b, 0, n);
    assert forall|j: int| 0 <= j < es.len() implies (#[trigger] element_error(es[j])) is None by {
        lemma_elements_error_from(es, 0, j);
    }
    lemma_read_elements_bytes(b, 4, es);
}

/// Four bytes read as an integer and written back are the same bytes.
proof fn lemma_bytes_u32(b: Seq<u8>, pos: int)
    requires
        0 <= pos,
        pos + 4 <= b.len(),
    ensures
        u32_bytes(be32_at(b, pos)) == b.subrange(pos, pos + 4),
{
    let (b0, b1, b2, b3) = (b[pos], b[pos + 1], b[pos + 2], b[pos + 3]);
    let v = be32(b0, b1, b2, b3);
    assert((v >> 24u32) as u8 == b0 && (v >> 16u32) as u8 == b1 && (v >> 8u32) as u8 == b2 && v as u8 == b3) by (bit_vector)
        requires
            v == ((b0 as u32) << 24u32) | ((b1 as u32) << 16u32) | ((b2 as u32) << 8u32) | (b3 as u32),
    ;
    assert(u32_bytes(v) =~= b.subrange(pos, pos + 4));
}

/// Eight bytes read as an integer and written back are the same bytes.
proof fn lemma_bytes_u64(b: Seq<u8>, pos: int)
    requires
        0 <= pos,
        pos + 8 <= b.len(),
    ensures
        u64_bytes(be64_at(b, pos)) == b.subrange(pos, pos + 8),
{
    let hi = be32_at(b, pos);
    let lo = be32_at(b, pos + 4);
    let v = be64_at(b, pos);
    assert((v >> 32u64) as u32 == hi && v as u32 == lo) by (bit_vector)
        requires
            v == ((hi as u64) << 32u64) | (lo as u64),
    ;
    lemma_bytes_u32(b, pos);
    lemma_bytes_u32(b, pos + 4);
    assert(b.subrange(pos, pos + 8) =~= b.subrange(pos, pos + 4) + b.subrange(pos + 4, pos + 8));
}

/// A name that reads from `pos` fits its length field and writes back as the bytes it came from.
proof fn lemma_name_rewrites(b: Seq<u8>, pos: int)
    requires
        0 <= pos <= b.len(),
        spec_read_name(b, pos) is Ok,
    ensures
        spec_read_name(b, pos) matches Ok((s, q)) && name_fits(s) && pos <= q <= b.len() && b.subrange(pos, q)
            == name_bytes(s),
{
    let n = be32_at(b, pos) as int;
    let bytes = b.subrange(pos + 4, pos + 4 + (n - 1));
    vstd::utf8::decode_utf8_encode_utf8(bytes);
    lemma_bytes_u32(b, pos);
    assert(b.subrange(pos, pos + 4 + (n - 1)) =~= b.subrange(pos, pos + 4) + bytes);
}

/// A value that reads from `pos` can be written and writes back as the bytes it came from.
proof fn lemma_value_rewrites(b: Seq<u8>, pos: int, t: ValueType)
    requires
        0 <= pos <= b.len(),
        spec_read_value(b, pos, t) is Ok,
    ensures
        spec_read_value(b, pos, t) matches Ok((v, q)) && value_error(v, t) is None && pos <= q <= b.len()
            && b.subrange(pos, q) == value_bytes(v),
{
    match t {
        ValueType::Int => {
            lemma_bytes_u32(b, pos);
        },
        ValueType::Int64 => {
            lemma_bytes_u64(b, pos);
        },
        ValueType::Data => {
            let s = be32_at(b, pos) as int;
            lemma_bytes_u32(b, pos);
            assert(b.subrange(pos, pos + 4 + s) =~= b.subrange(pos, pos + 4) + b.subrange(pos + 4, pos + 4 + s));
        },
        ValueType::Str => {
            let s = be32_at(b, pos) as int;
            let bytes = b.subrange(pos + 4, pos + 4 + s);
            vstd::utf8::decode_utf8_encode_utf8(bytes);
            lemma_bytes_u32(b, pos);
            assert(b.subrange(pos, pos + 4 + s) =~= b.subrange(pos, pos + 4) + bytes);
        },
        ValueType::UniStr => {},
    }
}

/// Values that read from `pos` can be written and write back as the bytes they came from.
proof fn lemma_values_rewrite(b: Seq<u8>, pos: int, t: ValueType, n: nat)
    requires
        0 <= pos <= b.len(),
        spec_read_values(b, pos, t, n) is Ok,
    ensures
        spec_read_values(b, pos, t, n) matches Ok((vs, q)) && vs.len() == n && pos <= q <= b.len() && (forall|j: int|
            0 <= j < vs.len() ==> (#[trigger] value_error(vs[j], t)) is None) && b.subrange(pos, q) == values_bytes(vs),
    decreases n,
{
    if n == 0 {
        assert(b.subrange(pos, pos) =~= Seq::<u8>::empty());
    } else {
        lemma_values_rewrite(b, pos, t, (n - 1) as nat);
        if let Ok((vs, p)) = spec_read_values(b, pos, t, (n - 1) as nat) {
            lemma_value_rewrites(b, p, t);
            if let Ok((v, q)) = spec_read_value(b, p, t) {
                let all = vs.push(v);
                assert(all.drop_last() =~= vs);
                assert forall|j: int| 0 <= j < all.len() implies (#[trigger] value_error(all[j], t)) is None by {
                    if j < vs.len() {
                        assert(all[j] == vs[j]);
                    }
                }
                assert(b.subrange(pos, q) =~= b.subrange(pos, p) + b.subrange(p, q));
            }
        }
    }
}

/// No value error from index `i` on when none lies at any index from `i` on.
proof fn lemma_no_values_error(vs: Seq<ValueView>, t: ValueType, i: int)
    requires
        0 <= i,
        forall|j: int| 0 <= j < vs.len() ==> (#[trigger] value_error(vs[j], t)) is None,
    ensures
        values_error_from(vs, t, i) is None,
    decreases vs.len() - i,
{
    if i < vs.len() {
        lemma_no_values_error(vs, t, i + 1);
    }
}

/// An element that reads from `pos` can be written and writes back as the bytes it came from.
proof fn lemma_element_rewrites(b: Seq<u8>, pos: int)
    requires
        0 <= pos <= b.len(),
        spec_read_element(b, pos) is Ok,
    ensures
        spec_read_element(b, pos) matches Ok((e, q)) && element_error(e) is None && pos <= q <= b.len() && b.subrange(
            pos,
            q,
        ) == element_bytes(e),
{
    lemma_name_rewrites(b, pos);
    if let Ok((name, p)) = spec_read_name(b, pos) {
        let t = tag_type(be32_at(b, p)).unwrap();
        let n = be32_at(b, p + 4);
        lemma_values_rewrite(b, p + 8, t, n as nat);
        if let Ok((vs, q)) = spec_read_values(b, p + 8, t, n as nat) {
            lemma_no_values_error(vs, t, 0);
            lemma_bytes_u32(b, p);
            lemma_bytes_u32(b, p + 4);
            assert(type_tag(t) == be32_at(b, p));
            assert(b.subrange(pos, q) =~= b.subrange(pos, p) + b.subrange(p, p + 4) + b.subrange(p + 4, p + 8)
                + b.subrange(p + 8, q));
        }
    }
}

/// No element error from index `i` on when none lies at any index from `i` on.
proof fn lemma_no_elements_error(es: Seq<ElementView>, i: int)
    requires
        0 <= i,
        forall|j: int| 0 <= j < es.len() ==> (#[trigger] element_error(es[j])) is None,
    ensures
        elements_error_from(es, i) is None,
    decreases es.len() - i,
{
    if i < es.len() {
        lemma_no_elements_error(es, i + 1);
    }
}

/// Elements that read from `pos` can be written and write back as the bytes they came from.
proof fn lemma_elements_rewrite(b: Seq<u8>, pos: int, n: nat)
    requires
        0 <= pos <= b.len(),
        spec_read_elements(b, pos, n) is Ok,
    ensures
        spec_read_elements(b, pos, n) matches Ok((es, q)) && es.len() == n && pos <= q <= b.len() && (forall|j: int|
            0 <= j < es.len() ==> (#[trigger] element_error(es[j])) is None) && b.subrange(pos, q) == elements_bytes(es),
    decreases n,
{
    if n == 0 {
        assert(b.subrange(pos, pos) =~= Seq::<u8>::empty());
    } else {
        lemma_elements_rewrite(b, pos, (n - 1) as nat);
        if let Ok((es, p)) = spec_read_elements(b, pos, (n - 1) as nat) {
            lemma_element_rewrites(b, p);
            if let Ok((e, q)) = spec_read_element(b, p) {
                let all = es.push(e);
                assert(all.drop_last() =~= es);
                assert forall|j: int| 0 <= j < all.len() implies (#[trigger] element_error(all[j])) is None by {
                    if j < es.len() {
                        assert(all[j] == es[j]);
                    }
                }
                assert(b.subrange(pos, q) =~= b.subrange(pos, p) + b.subrange(p, q));
            }
        }
    }
}

/// Decoded packs re-encode byte for byte: when decoding succeeds, the encoder
/// accepts the result and produces exactly the bytes that were decoded.
pub proof fn lemma_decode_then_encode(b: Seq<u8>)
    requires
        spec_read_pack(b) is Ok,
    ensures
        spec_read_pack(b) matches Ok(es) && pack_error(es) is None && pack_bytes(es).len() <= b.len() && b.subrange(
            0,
            pack_bytes(es).len() as int,
        ) == pack_bytes(es),
{
    let n = be32_at(b, 0);
    lemma_elements_rewrite(b, 4, n as nat);
    if let Ok((es, q)) = spec_read_elements(b, 4, n as nat) {
        lemma_no_elements_error(es, 0);
        lemma_bytes_u32(b, 0);
        assert(b.subrange(0, q) =~= b.subrange(0, 4) + b.subrange(4, q));
    }
}

/// A declared element count over the cap fails with `NumberExceeds`, whatever
/// bytes follow it: nothing after the count is read.
pub proof fn lemma_count_checked_first(b: Seq<u8>)
    requires
        b.len() >= 4,
        be32_at(b, 0) > MAX_ELEMENT_NUM,
    ensures
        spec_read_pack(b) == Err::<Seq<ElementView>, PackError>(PackError::NumberExceeds),
{
}

} // verus!
