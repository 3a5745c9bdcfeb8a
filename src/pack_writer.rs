use vstd::prelude::*;
use vstd::utf8::encode_utf8;
use crate::memory::{name_bytes, name_fits, u32_bytes, u64_bytes, write_buf_str, write_bytes, write_u32, write_u64};
use crate::ipv4::{ip_text, parse_ipv4};
use crate::pack_types::{
    extends_clear, hints_clear, lemma_extends_clear_trans, answers, find_from, spec_get_int, upper_of, spec_add, type_tag, Element, ElementView, Pack, PackError, Value, ValueType, ValueView,
    MAX_ELEMENT_NUM, MAX_VALUE_NUM, MAX_VALUE_SIZE,
};

verus! {

/// Why `v` cannot be written as a value of an element of type `t`, if it cannot.
pub open spec fn value_error(v: ValueView, t: ValueType) -> Option<PackError> {
    match (v, t) {
        (ValueView::Int(_), ValueType::Int) => None,
        (ValueView::Int64(_), ValueType::Int64) => None,
        (ValueView::Data(d), ValueType::Data) => if d.len() > MAX_VALUE_SIZE {
            Some(PackError::SizeOver)
        } else {
            None
        },
        (ValueView::Str(s), ValueType::Str) => if encode_utf8(s).len() > MAX_VALUE_SIZE - 1 {
            Some(PackError::SizeOver)
        } else {
            None
        },
        (ValueView::UniStr(_), ValueType::UniStr) => Some(PackError::UnsupportedType),
        _ => Some(PackError::InvalidType),
    }
}

/// Bytes of one value on the wire.
pub open spec fn value_bytes(v: ValueView) -> Seq<u8> {
    match v {
        ValueView::Int(x) => u32_bytes(x),
        ValueView::Int64(x) => u64_bytes(x),
        ValueView::Data(d) => u32_bytes(d.len() as u32) + d,
        ValueView::Str(s) => u32_bytes(encode_utf8(s).len() as u32) + encode_utf8(s),
        ValueView::UniStr(_) => Seq::empty(),
    }
}

/// The first error among the values of `vs` from index `i` on.
pub open spec fn values_error_from(vs: Seq<ValueView>, t: ValueType, i: int) -> Option<PackError>
    decreases vs.len() - i,
{
    if i < 0 || i >= vs.len() {
        None
    } else if value_error(vs[i], t) is Some {
        value_error(vs[i], t)
    } else {
        values_error_from(vs, t, i + 1)
    }
}

/// Bytes of a sequence of values, one after the other.
pub open spec fn values_bytes(vs: Seq<ValueView>) -> Seq<u8>
    decreases vs.len(),
{
    if vs.len() == 0 {
        Seq::empty()
    } else {
        values_bytes(vs.drop_last()) + value_bytes(vs.last())
    }
}

/// Why `e` cannot be written, if it cannot.
pub open spec fn element_error(e: ElementView) -> Option<PackError> {
    if !name_fits(e.name) {
        Some(PackError::SizeOver)
    } else if e.values.len() > MAX_VALUE_NUM {
        Some(PackError::NumberExceeds)
    } else {
        values_error_from(e.values, e.ty, 0)
    }
}

/// Bytes of one element: name, type tag, value count, values.
pub open spec fn element_bytes(e: ElementView) -> Seq<u8> {
    name_bytes(e.name) + u32_bytes(type_tag(e.ty)) + u32_bytes(e.values.len() as u32) + values_bytes(e.values)
}

/// The first error among the elements of `es` from index `i` on.
pub open spec fn elements_error_from(es: Seq<ElementView>, i: int) -> Option<PackError>
    decreases es.len() - i,
{
    if i < 0 || i >= es.len() {
        None
    } else if element_error(es[i]) is Some {
        element_error(es[i])
    } else {
        elements_error_from(es, i + 1)
    }
}

/// Bytes of a sequence of elements, one after the other.
pub open spec fn elements_bytes(es: Seq<ElementView>) -> Seq<u8>
    decreases es.len(),
{
    if es.len() == 0 {
        Seq::empty()
    } else {
        elements_bytes(es.drop_last()) + element_bytes(es.last())
    }
}

/// Why the elements `es` cannot be written as a pack, if they cannot.
pub open spec fn pack_error(es: Seq<ElementView>) -> Option<PackError> {
    if es.len() > MAX_ELEMENT_NUM {
        Some(PackError::NumberExceeds)
    } else {
        elements_error_from(es, 0)
    }
}

/// Bytes of a pack: element count, then the elements.
pub open spec fn pack_bytes(es: Seq<ElementView>) -> Seq<u8> {
    u32_bytes(es.len() as u32) + elements_bytes(es)
}

/// When no error lies at or after `i`, none lies at any index at or after `i`.
pub proof fn lemma_values_error_from(vs: Seq<ValueView>, t: ValueType, i: int, j: int)
    requires
        values_error_from(vs, t, i) is None,
        0 <= i <= j < vs.len(),
    ensures
        value_error(vs[j], t) is None,
    decreases j - i,
{
    if i < j {
        lemma_values_error_from(vs, t, i + 1, j);
    }
}

/// When no element error lies at or after `i`, none lies at any index at or after `i`.
pub proof fn lemma_elements_error_from(es: Seq<ElementView>, i: int, j: int)
    requires
        elements_error_from(es, i) is None,
        0 <= i <= j < es.len(),
    ensures
        element_error(es[j]) is None,
    decreases j - i,
{
    if i < j {
        lemma_elements_error_from(es, i + 1, j);
    }
}

impl Value {
    /// Why this value cannot be written as a value of type `t`, if it cannot.
    pub fn check(&self, t: ValueType) -> (r: Option<PackError>)
        ensures
            r == value_error(self@, t),
    {
        match (self, t) {
            (Value::Int(_), ValueType::Int) => None,
            (Value::Int64(_), ValueType::Int64) => None,
            (Value::Data(d), ValueType::Data) => {
                if d.len() > MAX_VALUE_SIZE as usize {
                    Some(PackError::SizeOver)
                } else {
                    None
                }
            },
            (Value::Str(s), ValueType::Str) => {
                if s.as_str().as_bytes().len() > (MAX_VALUE_SIZE - 1) as usize {
                    Some(PackError::SizeOver)
                } else {
                    None
                }
            },
            (Value::UniStr(_), ValueType::UniStr) => Some(PackError::UnsupportedType),
            _ => Some(PackError::InvalidType),
        }
    }

    /// Appends this value as a value of type `t`. A value of another type
    /// fails with `InvalidType`, a wide string with `UnsupportedType`, and one
    /// longer than the reader accepts with `SizeOver`; then nothing is written.
    pub fn write(&self, w: &mut Vec<u8>, t: ValueType) -> (r: Result<(), PackError>)
        ensures
            match value_error(self@, t) {
                None => r is Ok && final(w)@ == old(w)@ + value_bytes(self@),
                Some(err) => r == Err::<(), PackError>(err) && final(w)@ == old(w)@,
            },
    {
        if let Some(err) = self.check(t) {
            return Err(err);
        }
        match self {
            Value::Int(v) => write_u32(w, *v),
            Value::Int64(v) => write_u64(w, *v),
            Value::Data(d) => {
                write_u32(w, d.len() as u32);
                write_bytes(w, d.as_slice());
                assert(final(w)@ =~= old(w)@ + value_bytes(self@));
            },
            Value::Str(s) => {
                let b = s.as_str().as_bytes();
                write_u32(w, b.len() as u32);
                write_bytes(w, b);
                assert(final(w)@ =~= old(w)@ + value_bytes(self@));
            },
            Value::UniStr(_) => {},
        }
        Ok(())
    }
}

impl Element {
    /// Why this element cannot be written, if it cannot: a name too long for
    /// its length field, too many values, or the first value that cannot be
    /// written as the element's type.
    pub fn first_error(&self) -> (r: Option<PackError>)
        ensures
            r == element_error(self@),
    {
        let nlen = self.name.as_str().as_bytes().len();
        if nlen >= 0xFFFF_FFFFusize {
            return Some(PackError::SizeOver);
        }
        if self.values.len() > MAX_VALUE_NUM as usize {
            return Some(PackError::NumberExceeds);
        }
        let mut i: usize = 0;
        while i < self.values.len()
            invariant
                0 <= i <= self.values@.len(),
                name_fits(self@.name),
                self@.values.len() <= MAX_VALUE_NUM,
                values_error_from(self@.values, self.type_, 0) == values_error_from(self@.values, self.type_, i as int),
            decreases self.values@.len() - i,
        {
            proof {
                crate::pack_types::lemma_view_values(self.values@);
            }
            if let Some(err) = self.values[i].check(self.type_) {
                return Some(err);
            }
            i += 1;
        }
        None
    }

    /// Appends this element: name, type tag, value count and values. When
    /// some part cannot be written the error comes back and nothing is written.
    pub fn write(&self, w: &mut Vec<u8>) -> (r: Result<(), PackError>)
        ensures
            match element_error(self@) {
                None => r is Ok && final(w)@ == old(w)@ + element_bytes(self@),
                Some(err) => r == Err::<(), PackError>(err) && final(w)@ == old(w)@,
            },
    {
        if let Some(err) = self.first_error() {
            return Err(err);
        }
        let _ = write_buf_str(w, self.name.as_str());
        write_u32(w, self.type_.to_u32());
        write_u32(w, self.values.len() as u32);
        let ghost vs = self@.values;
        let ghost head = w@;
        let mut j: usize = 0;
        while j < self.values.len()
            invariant
                0 <= j <= self.values@.len(),
                vs == self@.values,
                values_error_from(vs, self.type_, 0) is None,
                w@ == head + values_bytes(vs.subrange(0, j as int)),
            decreases self.values@.len() - j,
        {
            proof {
                lemma_values_error_from(vs, self.type_, 0, j as int);
            }
            let ghost before = w@;
            let _ = self.values[j].write(w, self.type_);
            proof {
                let pre = vs.subrange(0, j as int + 1);
                assert(pre.drop_last() =~= vs.subrange(0, j as int));
                assert(pre.last() == vs[j as int]);
            }
            j += 1;
        }
        assert(vs.subrange(0, vs.len() as int) =~= vs);
        assert(final(w)@ =~= old(w)@ + element_bytes(self@));
        Ok(())
    }
}

impl Pack {
    /// Encodes the pack: element count, then each element in order. Fails
    /// with the first reason, in order, that some part cannot be written.
    pub fn to_buf(&self) -> (r: Result<Vec<u8>, PackError>)
        ensures
            match pack_error(self@) {
                None => r matches Ok(b) && b@ == pack_bytes(self@),
                Some(err) => r == Err::<Vec<u8>, PackError>(err),
            },
    {
        if self.elements.len() > MAX_ELEMENT_NUM as usize {
            return Err(PackError::NumberExceeds);
        }
        let mut i: usize = 0;
        while i < self.elements.len()
            invariant
                0 <= i <= self.elements@.len(),
                self@.len() <= MAX_ELEMENT_NUM,
                elements_error_from(self@, 0) == elements_error_from(self@, i as int),
            decreases self.elements@.len() - i,
        {
            if let Some(err) = self.elements[i].first_error() {
                return Err(err);
            }
            i += 1;
        }
        let mut buf: Vec<u8> = Vec::new();
        write_u32(&mut buf, self.elements.len() as u32);
        let ghost es = self@;
        let ghost head = buf@;
        let mut j: usize = 0;
        while j < self.elements.len()
            invariant
                0 <= j <= self.elements@.len(),
                es == self@,
                elements_error_from(es, 0) is None,
                buf@ == head + elements_bytes(es.subrange(0, j as int)),
            decreases self.elements@.len() - j,
        {
            proof {
                lemma_elements_error_from(es, 0, j as int);
            }
            let _ = self.elements[j].write(&mut buf);
            proof {
                let pre = es.subrange(0, j as int + 1);
                assert(pre.drop_last() =~= es.subrange(0, j as int));
                assert(pre.last() == es[j as int]);
            }
            j += 1;
        }
        assert(es.subrange(0, es.len() as int) =~= es);
        assert(buf@ =~= pack_bytes(self@));
        Ok(buf)
    }
}

/// An element named `name` of type `ty` holding the single value `v`.
pub open spec fn single(name: Seq<char>, ty: ValueType, v: ValueView) -> ElementView {
    ElementView { name, ty, values: seq![v] }
}

/// The elements after adding `e` to `es` when `add_element` accepts it; `es` otherwise.
pub open spec fn add_or_keep(es: Seq<ElementView>, e: ElementView) -> Seq<ElementView> {
    match spec_add(es, e) {
        Ok(n) => n,
        Err(_) => es,
    }
}

/// Suffix of the companion element that flags an IPv6 address.
pub open spec fn ipv6_bool_suffix() -> Seq<char> {
    seq!['@', 'i', 'p', 'v', '6', '_', 'b', 'o', 'o', 'l']
}

/// Suffix of the companion element that holds IPv6 address bytes.
pub open spec fn ipv6_array_suffix() -> Seq<char> {
    seq!['@', 'i', 'p', 'v', '6', '_', 'a', 'r', 'r', 'a', 'y']
}

/// Suffix of the companion element that holds an IPv6 scope id.
pub open spec fn ipv6_scope_suffix() -> Seq<char> {
    seq!['@', 'i', 'p', 'v', '6', '_', 's', 'c', 'o', 'p', 'e', '_', 'i', 'd']
}

/// The three companion elements of an IPv4 field, in the order they are added.
pub open spec fn ip_companions(es: Seq<ElementView>, name: Seq<char>) -> Seq<ElementView> {
    let s1 = add_or_keep(es, single(name + ipv6_bool_suffix(), ValueType::Int, ValueView::Int(0)));
    let s2 = add_or_keep(s1, single(name + ipv6_array_suffix(), ValueType::Data, ValueView::Data(Seq::new(16, |i: int| 0u8))));
    add_or_keep(s2, single(name + ipv6_scope_suffix(), ValueType::Int, ValueView::Int(0)))
}

/// A lookup over `s.push(e)` finds `e` when it answers and nothing in `s` does.
proof fn lemma_find_pushed(s: Seq<ElementView>, e: ElementView, key: Seq<char>, t: Option<ValueType>, i: int)
    requires
        0 <= i <= s.len(),
        answers(e, key, t),
        forall|j: int| i <= j < s.len() ==> !answers(#[trigger] s[j], key, t),
    ensures
        find_from(s.push(e), key, t, i) == Some(s.len() as int),
    decreases s.len() - i,
{
    let n = s.push(e);
    if i < s.len() {
        assert(n[i] == s[i]);
        lemma_find_pushed(s, e, key, t, i + 1);
    } else {
        assert(n[i] == e);
    }
}

/// Reading back an IPv4 field: after `add_ip32(name, ip)` has added the
/// field, the integer read under `name` is `ip`, so its text is the text of
/// `ip` (empty for zero), provided no element before it, companions
/// included, answers a case-insensitive integer lookup for `name`.
pub proof fn lemma_ip_field_read_back(es: Seq<ElementView>, name: Seq<char>, ip: u32)
    requires
        spec_add(ip_companions(es, name), single(name, ValueType::Int, ValueView::Int(ip))) is Ok,
        forall|j: int|
            0 <= j < ip_companions(es, name).len() ==> !answers(
                #[trigger] ip_companions(es, name)[j],
                upper_of(name),
                Some(ValueType::Int),
            ),
    ensures
        ({
            let n = add_or_keep(ip_companions(es, name), single(name, ValueType::Int, ValueView::Int(ip)));
            &&& spec_get_int(n, name, 0) == ip
            &&& ip_text(spec_get_int(n, name, 0)) == ip_text(ip)
            &&& u32_bytes(spec_get_int(n, name, 0)) == u32_bytes(ip)
        }),
{
    let before = ip_companions(es, name);
    let e = single(name, ValueType::Int, ValueView::Int(ip));
    lemma_find_pushed(before, e, upper_of(name), Some(ValueType::Int), 0);
    assert(before.push(e)[before.len() as int] == e);
}

/// Relies on String::push_str: the result is `a` followed by `b`.
#[verifier::external_body]
fn concat(a: &str, b: &str) -> (r: String)
    ensures
        r@ == a@ + b@,
{
    let mut s = a.to_string();
    s.push_str(b);
    s
}

impl Pack {
    /// Adds `e` through `add_element`; on success returns the added element.
    fn add_single(&mut self, e: Element) -> (r: Option<&Element>)
        ensures
            match spec_add(old(self)@, e@) {
                Ok(n) => final(self)@ == n && (r matches Some(x) && *x == e && final(self).elements@
                    == old(self).elements@.push(e)),
                Err(_) => final(self).elements@ == old(self).elements@ && final(self)@ == old(self)@ && r is None,
            },
            hints_clear(e) ==> extends_clear(old(self).elements@, final(self).elements@),
            old(self).wf() ==> final(self).wf(),
    {
        let ghost e0 = e;
        if self.add_element(e).is_err() {
            assert(old(self).elements@.subrange(0, old(self).elements@.len() as int) =~= old(self).elements@);
            return None;
        }
        assert(self.elements@.subrange(0, old(self).elements@.len() as int) =~= old(self).elements@);
        assert(self.elements@[old(self).elements@.len() as int] == e0);
        let k = self.elements.len() - 1;
        Some(&self.elements[k])
    }

    /// Adds a string element `name` holding `str_val`; on success returns it.
    pub fn add_str(&mut self, name: &str, str_val: &str) -> (r: Option<&Element>)
        ensures
            ({
                let e = single(name@, ValueType::Str, ValueView::Str(str_val@));
                match spec_add(old(self)@, e) {
                    Ok(n) => final(self)@ == n && (r matches Some(x) && x@ == e && hints_clear(*x)
                        && final(self).elements@ == old(self).elements@.push(*x)),
                    Err(_) => final(self).elements@ == old(self).elements@ && final(self)@ == old(self)@ && r is None,
                }
            }),
            extends_clear(old(self).elements@, final(self).elements@),
            old(self).wf() ==> final(self).wf(),
    {
        let mut values: Vec<Value> = Vec::new();
        values.push(Value::Str(str_val.to_owned()));
        let e = Element {
            name: name.to_owned(),
            type_: ValueType::Str,
            values,
            json_hint_is_array: false,
            json_hint_is_bool: false,
            json_hint_is_date_time: false,
            json_hint_is_ip: false,
            json_hint_group_name: String::new(),
        };
        assert(e@.values =~= seq![ValueView::Str(str_val@)]);
        self.add_single(e)
    }

    /// Adds an integer element `name` holding `i`; on success returns it.
    pub fn add_int(&mut self, name: &str, i: u32) -> (r: Option<&Element>)
        ensures
            ({
                let e = single(name@, ValueType::Int, ValueView::Int(i));
                match spec_add(old(self)@, e) {
                    Ok(n) => final(self)@ == n && (r matches Some(x) && x@ == e && hints_clear(*x)
                        && final(self).elements@ == old(self).elements@.push(*x)),
                    Err(_) => final(self).elements@ == old(self).elements@ && final(self)@ == old(self)@ && r is None,
                }
            }),
            extends_clear(old(self).elements@, final(self).elements@),
            old(self).wf() ==> final(self).wf(),
    {
        let mut values: Vec<Value> = Vec::new();
        values.push(Value::Int(i));
        let e = Element {
            name: name.to_owned(),
            type_: ValueType::Int,
            values,
            json_hint_is_array: false,
            json_hint_is_bool: false,
            json_hint_is_date_time: false,
            json_hint_is_ip: false,
            json_hint_group_name: String::new(),
        };
        assert(e@.values =~= seq![ValueView::Int(i)]);
        self.add_single(e)
    }

    /// Adds an integer element `name` holding 1 for true and 0 for false.
    pub fn add_bool(&mut self, name: &str, b: bool) -> (r: Option<&Element>)
        ensures
            ({
                let e = single(name@, ValueType::Int, ValueView::Int(if b { 1 } else { 0 }));
                match spec_add(old(self)@, e) {
                    Ok(n) => final(self)@ == n && (r matches Some(x) && x@ == e && hints_clear(*x)
                        && final(self).elements@ == old(self).elements@.push(*x)),
                    Err(_) => final(self).elements@ == old(self).elements@ && final(self)@ == old(self)@ && r is None,
                }
            }),
            extends_clear(old(self).elements@, final(self).elements@),
            old(self).wf() ==> final(self).wf(),
    {
        let v: u32 = if b { 1 } else { 0 };
        self.add_int(name, v)
    }

    /// Adds a blob element `name` holding `data`; on success returns it.
    pub fn add_data(&mut self, name: &str, data: Vec<u8>) -> (r: Option<&Element>)
        ensures
            ({
                let e = single(name@, ValueType::Data, ValueView::Data(data@));
                match spec_add(old(self)@, e) {
                    Ok(n) => final(self)@ == n && (r matches Some(x) && x@ == e && hints_clear(*x)
                        && final(self).elements@ == old(self).elements@.push(*x)),
                    Err(_) => final(self).elements@ == old(self).elements@ && final(self)@ == old(self)@ && r is None,
                }
            }),
            extends_clear(old(self).elements@, final(self).elements@),
            old(self).wf() ==> final(self).wf(),
    {
        let ghost d = data@;
        let mut values: Vec<Value> = Vec::new();
        values.push(Value::Data(data));
        let e = Element {
            name: name.to_owned(),
            type_: ValueType::Data,
            values,
            json_hint_is_array: false,
            json_hint_is_bool: false,
            json_hint_is_date_time: false,
            json_hint_is_ip: false,
            json_hint_group_name: String::new(),
        };
        assert(e@.values =~= seq![ValueView::Data(d)]);
        self.add_single(e)
    }

    /// Adds an IPv4 field: first the three companion elements `name@ipv6_bool`
    /// (0), `name@ipv6_array` (sixteen zero bytes) and `name@ipv6_scope_id`
    /// (0), each skipped when refused, then the integer element `name`
    /// holding `ip`, which comes back on success.
    pub fn add_ip32(&mut self, name: &str, ip: u32) -> (r: Option<&Element>)
        ensures
            ({
                let before = ip_companions(old(self)@, name@);
                let e = single(name@, ValueType::Int, ValueView::Int(ip));
                match spec_add(before, e) {
                    Ok(n) => final(self)@ == n && (r matches Some(x) && x@ == e && hints_clear(*x)
                        && final(self).elements@.last() == *x),
                    Err(_) => final(self)@ == before && r is None,
                }
            }),
            extends_clear(old(self).elements@, final(self).elements@),
            old(self).wf() ==> final(self).wf(),
    {
        proof {
            reveal_strlit("@ipv6_bool");
            reveal_strlit("@ipv6_array");
            reveal_strlit("@ipv6_scope_id");
            assert("@ipv6_bool"@ =~= ipv6_bool_suffix());
            assert("@ipv6_array"@ =~= ipv6_array_suffix());
            assert("@ipv6_scope_id"@ =~= ipv6_scope_suffix());
        }
        let ghost s0 = self.elements@;
        let n1 = concat(name, "@ipv6_bool");
        let _ = self.add_bool(n1.as_str(), false);
        let ghost s1 = self.elements@;
        let mut zeros: Vec<u8> = Vec::new();
        while zeros.len() < 16
            invariant
                zeros@.len() <= 16,
                forall|k: int| 0 <= k < zeros@.len() ==> zeros@[k] == 0u8,
            decreases 16 - zeros@.len(),
        {
            zeros.push(0);
        }
        assert(zeros@ =~= Seq::new(16, |i: int| 0u8));
        let n2 = concat(name, "@ipv6_array");
        let _ = self.add_data(n2.as_str(), zeros);
        let ghost s2 = self.elements@;
        let n3 = concat(name, "@ipv6_scope_id");
        let _ = self.add_int(n3.as_str(), 0);
        proof {
            lemma_extends_clear_trans(s0, s1, s2);
            lemma_extends_clear_trans(s0, s2, self.elements@);
        }
        broadcast use lemma_extends_clear_trans;
        self.add_int(name, ip)
    }

    /// Adds an IPv4 field from its dotted-quad text, as `add_ip32` does; text
    /// that is not a dotted quad stands for 0.
    pub fn add_ip(&mut self, name: &str, ip_str: &str) -> (r: Option<&Element>)
        ensures
            ({
                let ip = if exists|v: u32| ip_str@ == #[trigger] crate::ipv4::dotted_quad(v) {
                    choose|v: u32| ip_str@ == #[trigger] crate::ipv4::dotted_quad(v)
                } else {
                    0u32
                };
                let before = ip_companions(old(self)@, name@);
                let e = single(name@, ValueType::Int, ValueView::Int(ip));
                match spec_add(before, e) {
                    Ok(n) => final(self)@ == n && (r matches Some(x) && x@ == e && hints_clear(*x)
                        && final(self).elements@.last() == *x),
                    Err(_) => final(self)@ == before && r is None,
                }
            }),
            extends_clear(old(self).elements@, final(self).elements@),
            old(self).wf() ==> final(self).wf(),
    {
        let ip = match parse_ipv4(ip_str) {
            Some(v) => v,
            None => 0,
        };
        proof {
            if exists|v: u32| ip_str@ == #[trigger] crate::ipv4::dotted_quad(v) {
                let c = choose|v: u32| ip_str@ == #[trigger] crate::ipv4::dotted_quad(v);
                crate::ipv4::lemma_dotted_quad_injective(c, ip);
            }
        }
        self.add_ip32(name, ip)
    }
}

} // verus!
