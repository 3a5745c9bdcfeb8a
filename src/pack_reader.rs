use vstd::prelude::*;
use vstd::slice::{slice_subrange, slice_to_vec};
use vstd::utf8::{decode_utf8, valid_utf8};
use crate::memory::{be32_at, be64_at, read_buf_str, read_u32, read_u64, spec_read_name, string_from_utf8};
use crate::pack_types::{
    hints_clear, spec_add, tag_type, view_values, Element, ElementView, Pack, PackError, Value, ValueType, ValueView,
    MAX_ELEMENT_NUM, MAX_VALUE_NUM, MAX_VALUE_SIZE,
};

verus! {

/// Outcome of reading one value of type `t` at `pos` in `b`: the value and the
/// position after it. Declared lengths over the cap fail before any payload is taken.
pub open spec fn spec_read_value(b: Seq<u8>, pos: int, t: ValueType) -> Result<(ValueView, int), PackError> {
    match t {
        ValueType::Int => if pos + 4 > b.len() {
            Err(PackError::IoError)
        } else {
            Ok((ValueView::Int(be32_at(b, pos)), pos + 4))
        },
        ValueType::Int64 => if pos + 8 > b.len() {
            Err(PackError::IoError)
        } else {
            Ok((ValueView::Int64(be64_at(b, pos)), pos + 8))
        },
        ValueType::Data => if pos + 4 > b.len() {
            Err(PackError::IoError)
        } else {
            let s = be32_at(b, pos) as int;
            if s > MAX_VALUE_SIZE {
                Err(PackError::SizeOver)
            } else if pos + 4 + s > b.len() {
                Err(PackError::IoError)
            } else {
                Ok((ValueView::Data(b.subrange(pos + 4, pos + 4 + s)), pos + 4 + s))
            }
        },
        ValueType::Str => if pos + 4 > b.len() {
            Err(PackError::IoError)
        } else {
            let s = be32_at(b, pos) as int;
            if s > MAX_VALUE_SIZE - 1 {
                Err(PackError::SizeOver)
            } else if pos + 4 + s > b.len() {
                Err(PackError::IoError)
            } else if !valid_utf8(b.subrange(pos + 4, pos + 4 + s)) {
                Err(PackError::IoError)
            } else {
                Ok((ValueView::Str(decode_utf8(b.subrange(pos + 4, pos + 4 + s))), pos + 4 + s))
            }
        },
        ValueType::UniStr => Err(PackError::UnsupportedType),
    }
}

/// Outcome of reading `n` values of type `t`, one after the other, from `pos`.
pub open spec fn spec_read_values(b: Seq<u8>, pos: int, t: ValueType, n: nat) -> Result<(Seq<ValueView>, int), PackError>
    decreases n,
{
    if n == 0 {
        Ok((Seq::empty(), pos))
    } else {
        match spec_read_values(b, pos, t, (n - 1) as nat) {
            Err(e) => Err(e),
            Ok((vs, p)) => match spec_read_value(b, p, t) {
                Err(e) => Err(e),
                Ok((v, q)) => Ok((vs.push(v), q)),
            },
        }
    }
}

/// Outcome of reading one element at `pos`: name, type tag, value count
/// (at most the cap), then the values.
pub open spec fn spec_read_element(b: Seq<u8>, pos: int) -> Result<(ElementView, int), PackError> {
    match spec_read_name(b, pos) {
        Err(e) => Err(e),
        Ok((name, p)) => if p + 4 > b.len() {
            Err(PackError::IoError)
        } else {
            match tag_type(be32_at(b, p)) {
                None => Err(PackError::InvalidType),
                Some(t) => if p + 8 > b.len() {
                    Err(PackError::IoError)
                } else if be32_at(b, p + 4) > MAX_VALUE_NUM {
                    Err(PackError::NumberExceeds)
                } else {
                    match spec_read_values(b, p + 8, t, be32_at(b, p + 4) as nat) {
                        Err(e) => Err(e),
                        Ok((vs, q)) => Ok((ElementView { name, ty: t, values: vs }, q)),
                    }
                },
            }
        },
    }
}

/// Outcome of reading `n` elements from `pos`, adding each to the pack in turn.
pub open spec fn spec_read_elements(b: Seq<u8>, pos: int, n: nat) -> Result<(Seq<ElementView>, int), PackError>
    decreases n,
{
    if n == 0 {
        Ok((Seq::empty(), pos))
    } else {
        match spec_read_elements(b, pos, (n - 1) as nat) {
            Err(e) => Err(e),
            Ok((es, p)) => match spec_read_element(b, p) {
                Err(e) => Err(e),
                Ok((e, q)) => match spec_add(es, e) {
                    Err(err) => Err(err),
                    Ok(next) => Ok((next, q)),
                },
            },
        }
    }
}

/// Outcome of decoding a pack from the start of `b`: the element count (at
/// most the cap), then the elements. Bytes after the last element are not read.
pub open spec fn spec_read_pack(b: Seq<u8>) -> Result<Seq<ElementView>, PackError> {
    if b.len() < 4 {
        Err(PackError::IoError)
    } else if be32_at(b, 0) > MAX_ELEMENT_NUM {
        Err(PackError::NumberExceeds)
    } else {
        match spec_read_elements(b, 4, be32_at(b, 0) as nat) {
            Err(e) => Err(e),
            Ok((es, _)) => Ok(es),
        }
    }
}

/// Once reading some values has failed, reading more fails the same way.
pub proof fn lemma_read_values_err(b: Seq<u8>, pos: int, t: ValueType, k: nat, m: nat)
    requires
        spec_read_values(b, pos, t, k) is Err,
        k <= m,
    ensures
        spec_read_values(b, pos, t, m) == spec_read_values(b, pos, t, k),
    decreases m - k,
{
    if k < m {
        lemma_read_values_err(b, pos, t, k, (m - 1) as nat);
    }
}

/// Once reading some elements has failed, reading more fails the same way.
pub proof fn lemma_read_elements_err(b: Seq<u8>, pos: int, k: nat, m: nat)
    requires
        spec_read_elements(b, pos, k) is Err,
        k <= m,
    ensures
        spec_read_elements(b, pos, m) == spec_read_elements(b, pos, k),
    decreases m - k,
{
    if k < m {
        lemma_read_elements_err(b, pos, k, (m - 1) as nat);
    }
}

/// Reads one value of type `t` at `pos`. The declared length of a blob or a
/// string is checked against its cap before anything is allocated for it; a
/// wide string fails with `UnsupportedType`.
pub fn read_value(buf: &[u8], pos: usize, t: ValueType) -> (r: Result<(Value, usize), PackError>)
    requires
        pos <= buf@.len(),
    ensures
        match r {
            Ok((v, p)) => spec_read_value(buf@, pos as int, t) == Ok::<(ValueView, int), PackError>((v@, p as int))
                && p <= buf@.len(),
            Err(e) => spec_read_value(buf@, pos as int, t) == Err::<(ValueView, int), PackError>(e),
        },
{
    match t {
        ValueType::Int => {
            let (v, p) = read_u32(buf, pos)?;
            Ok((Value::Int(v), p))
        },
        ValueType::Int64 => {
            let (v, p) = read_u64(buf, pos)?;
            Ok((Value::Int64(v), p))
        },
        ValueType::Data => {
            let (s, p) = read_u32(buf, pos)?;
            if s > MAX_VALUE_SIZE {
                return Err(PackError::SizeOver);
            }
            let n = s as usize;
            if buf.len() - p < n {
                return Err(PackError::IoError);
            }
            let data = slice_to_vec(slice_subrange(buf, p, p + n));
            Ok((Value::Data(data), p + n))
        },
        ValueType::Str => {
            let (s, p) = read_u32(buf, pos)?;
            if s > MAX_VALUE_SIZE - 1 {
                return Err(PackError::SizeOver);
            }
            let n = s as usize;
            if buf.len() - p < n {
                return Err(PackError::IoError);
            }
            let data = slice_to_vec(slice_subrange(buf, p, p + n));
            match string_from_utf8(data) {
                Some(text) => Ok((Value::Str(text), p + n)),
                None => Err(PackError::IoError),
            }
        },
        ValueType::UniStr => Err(PackError::UnsupportedType),
    }
}

/// Reads one element at `pos`: its name, its type tag (an unknown tag fails
/// with `InvalidType`), its value count (over the cap fails with
/// `NumberExceeds` before any value is read), then its values.
pub fn read_element(buf: &[u8], pos: usize) -> (r: Result<(Element, usize), PackError>)
    requires
        pos <= buf@.len(),
    ensures
        match r {
            Ok((e, p)) => spec_read_element(buf@, pos as int) == Ok::<(ElementView, int), PackError>((e@, p as int))
                && p <= buf@.len() && hints_clear(e),
            Err(err) => spec_read_element(buf@, pos as int) == Err::<(ElementView, int), PackError>(err),
        },
{
    let (name, after_name) = read_buf_str(buf, pos)?;
    let (tag, after_tag) = read_u32(buf, after_name)?;
    let element_type = match ValueType::from_u32(tag) {
        Some(t) => t,
        None => {
            return Err(PackError::InvalidType);
        },
    };
    let (n, values_at) = read_u32(buf, after_tag)?;
    if n > MAX_VALUE_NUM {
        return Err(PackError::NumberExceeds);
    }
    let mut values: Vec<Value> = Vec::with_capacity(n as usize);
    assert(view_values(values@) =~= Seq::<ValueView>::empty());
    let mut p = values_at;
    let mut i: u32 = 0;
    while i < n
        invariant
            0 <= i <= n,
            p <= buf@.len(),
            spec_read_element(buf@, pos as int) == (match spec_read_values(buf@, values_at as int, element_type, n as nat) {
                Err(e) => Err(e),
                Ok((vs, q)) => Ok((ElementView { name: name@, ty: element_type, values: vs }, q)),
            }),
            spec_read_values(buf@, values_at as int, element_type, i as nat) == Ok::<(Seq<ValueView>, int), PackError>(
                (view_values(values@), p as int),
            ),
        decreases n - i,
    {
        match read_value(buf, p, element_type) {
            Ok((v, q)) => {
                proof {
                    crate::pack_types::lemma_view_values(values@);
                }
                let ghost prev = values@;
                values.push(v);
                proof {
                    crate::pack_types::lemma_view_values(values@);
                    assert(view_values(values@) =~= view_values(prev).push(v@));
                }
                p = q;
            },
            Err(err) => {
                proof {
                    assert(spec_read_values(buf@, values_at as int, element_type, (i + 1) as nat) == Err::<
                        (Seq<ValueView>, int),
                        PackError,
                    >(err));
                    lemma_read_values_err(buf@, values_at as int, element_type, (i + 1) as nat, n as nat);
                }
                return Err(err);
            },
        }
        i += 1;
    }
    let e = Element {
        name,
        type_: element_type,
        values,
        json_hint_is_array: false,
        json_hint_is_bool: false,
        json_hint_is_date_time: false,
        json_hint_is_ip: false,
        json_hint_group_name: String::new(),
    };
    Ok((e, p))
}

/// Decodes a pack from the start of `buf`. The element count is checked
/// against its cap before room is made for the elements; every element goes
/// through `add_element`, so the result holds the record invariant. Any
/// failure ends the decoding with no pack.
pub fn read_pack(buf: &[u8]) -> (r: Result<Pack, PackError>)
    ensures
        match r {
            Ok(p) => spec_read_pack(buf@) == Ok::<Seq<ElementView>, PackError>(p@) && p.wf() && (forall|i: int|
                0 <= i < p.elements@.len() ==> hints_clear(#[trigger] p.elements@[i])),
            Err(e) => spec_read_pack(buf@) == Err::<Seq<ElementView>, PackError>(e),
        },
{
    let (num, start) = read_u32(buf, 0)?;
    if num > MAX_ELEMENT_NUM {
        return Err(PackError::NumberExceeds);
    }
    let mut pack = Pack::new();
    pack.elements.reserve(num as usize);
    assert(pack@ =~= Seq::<ElementView>::empty());
    let mut p = start;
    let mut i: u32 = 0;
    while i < num
        invariant
            0 <= i <= num,
            start == 4,
            p <= buf@.len(),
            spec_read_pack(buf@) == (match spec_read_elements(buf@, 4, num as nat) {
                Err(e) => Err(e),
                Ok((es, _)) => Ok(es),
            }),
            pack.wf(),
            forall|k: int| 0 <= k < pack.elements@.len() ==> hints_clear(#[trigger] pack.elements@[k]),
            spec_read_elements(buf@, 4, i as nat) == Ok::<(Seq<ElementView>, int), PackError>((pack@, p as int)),
        decreases num - i,
    {
        match read_element(buf, p) {
            Ok((e, q)) => {
                match pack.add_element(e) {
                    Ok(()) => {},
                    Err(err) => {
                        proof {
                            assert(spec_read_elements(buf@, 4, (i + 1) as nat) == Err::<
                                (Seq<ElementView>, int),
                                PackError,
                            >(err));
                            lemma_read_elements_err(buf@, 4, (i + 1) as nat, num as nat);
                        }
                        return Err(err);
                    },
                }
                p = q;
            },
            Err(err) => {
                proof {
                    assert(spec_read_elements(buf@, 4, (i + 1) as nat) == Err::<(Seq<ElementView>, int), PackError>(err));
                    lemma_read_elements_err(buf@, 4, (i + 1) as nat, num as nat);
                }
                return Err(err);
            },
        }
        i += 1;
    }
    Ok(pack)
}

} // verus!
