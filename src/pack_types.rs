use vstd::prelude::*;
use vstd::slice::slice_to_vec;
use crate::ipv4::{ip_text, ip_to_string};
use crate::memory::u32_bytes;

verus! {

/// Largest byte length of a blob value.
pub const MAX_VALUE_SIZE: u32 = 402653184;

/// Largest number of values in one element.
pub const MAX_VALUE_NUM: u32 = 65536;

/// Largest number of elements in one pack.
pub const MAX_ELEMENT_NUM: u32 = 65536;

/// Nominal largest size of an encoded pack (advisory only).
pub const MAX_PACK_SIZE: u32 = 536870912;

/// Declared type of the values held by one element.
#[derive(Debug, Clone, Copy, PartialEq, Eq, Structural)]
pub enum ValueType {
    Int,
    Data,
    Str,
    UniStr,
    Int64,
}

/// Numeric tag that stands for a value type on the wire.
pub open spec fn type_tag(t: ValueType) -> u32 {
    match t {
        ValueType::Int => 0,
        ValueType::Data => 1,
        ValueType::Str => 2,
        ValueType::UniStr => 3,
        ValueType::Int64 => 4,
    }
}

/// The value type that the wire tag `v` stands for, if any.
pub open spec fn tag_type(v: u32) -> Option<ValueType> {
    if v == 0 {
        Some(ValueType::Int)
    } else if v == 1 {
        Some(ValueType::Data)
    } else if v == 2 {
        Some(ValueType::Str)
    } else if v == 3 {
        Some(ValueType::UniStr)
    } else if v == 4 {
        Some(ValueType::Int64)
    } else {
        None
    }
}

impl ValueType {
    /// The value type whose wire tag is `value`, if there is one.
    pub fn from_u32(value: u32) -> (r: Option<ValueType>)
        ensures
            r == tag_type(value),
            r matches Some(t) ==> type_tag(t) == value,
            r is None <==> value > 4,
    {
        match value {
            0 => Some(ValueType::Int),
            1 => Some(ValueType::Data),
            2 => Some(ValueType::Str),
            3 => Some(ValueType::UniStr),
            4 => Some(ValueType::Int64),
            _ => None,
        }
    }

    /// The wire tag of this type.
    pub fn to_u32(&self) -> (r: u32)
        ensures
            r == type_tag(*self),
    {
        match self {
            ValueType::Int => 0,
            ValueType::Data => 1,
            ValueType::Str => 2,
            ValueType::UniStr => 3,
            ValueType::Int64 => 4,
        }
    }
}

/// Why reading, writing or building a pack failed.
#[derive(Debug, Clone, Copy, PartialEq, Eq, Structural)]
pub enum PackError {
    NumberExceeds,
    SizeOver,
    InvalidType,
    SameNameExists,
    ZeroNumValue,
    IoError,
    UnsupportedType,
}

/// One typed datum.
#[derive(Debug, Clone)]
pub enum Value {
    Int(u32),
    Data(Vec<u8>),
    Str(String),
    UniStr(String),
    Int64(u64),
}

/// Mathematical content of a value.
pub enum ValueView {
    Int(u32),
    Data(Seq<u8>),
    Str(Seq<char>),
    UniStr(Seq<char>),
    Int64(u64),
}

impl View for Value {
    type V = ValueView;

    open spec fn view(&self) -> ValueView {
        match self {
            Value::Int(v) => ValueView::Int(*v),
            Value::Data(d) => ValueView::Data(d@),
            Value::Str(s) => ValueView::Str(s@),
            Value::UniStr(s) => ValueView::UniStr(s@),
            Value::Int64(v) => ValueView::Int64(*v),
        }
    }
}

impl Value {
    /// A value with the same content.
    pub fn duplicate(&self) -> (r: Value)
        ensures
            r@ == self@,
    {
        match self {
            Value::Int(v) => Value::Int(*v),
            Value::Data(d) => Value::Data(slice_to_vec(d.as_slice())),
            Value::Str(s) => Value::Str(s.clone()),
            Value::UniStr(s) => Value::UniStr(s.clone()),
            Value::Int64(v) => Value::Int64(*v),
        }
    }
}

/// Contents of a sequence of values.
pub open spec fn view_values(vs: Seq<Value>) -> Seq<ValueView> {
    vs.map_values(|v: Value| v@)
}

/// The contents of values, one by one.
pub proof fn lemma_view_values(vs: Seq<Value>)
    ensures
        view_values(vs).len() == vs.len(),
        forall|i: int| 0 <= i < vs.len() ==> #[trigger] view_values(vs)[i] == vs[i]@,
{
}

/// A named, typed list of values, with presentation hints that the codec ignores.
#[derive(Debug, Clone)]
pub struct Element {
    pub name: String,
    pub type_: ValueType,
    pub values: Vec<Value>,
    pub json_hint_is_array: bool,
    pub json_hint_is_bool: bool,
    pub json_hint_is_date_time: bool,
    pub json_hint_is_ip: bool,
    pub json_hint_group_name: String,
}

/// Mathematical content of an element: name, declared type and values.
pub struct ElementView {
    pub name: Seq<char>,
    pub ty: ValueType,
    pub values: Seq<ValueView>,
}

impl View for Element {
    type V = ElementView;

    open spec fn view(&self) -> ElementView {
        ElementView { name: self.name@, ty: self.type_, values: view_values(self.values@) }
    }
}

/// The value at `index` of `e`, when it is an integer; zero otherwise.
pub open spec fn int_value_at(e: ElementView, index: int) -> u32 {
    if 0 <= index < e.values.len() {
        match e.values[index] {
            ValueView::Int(v) => v,
            _ => 0,
        }
    } else {
        0
    }
}

/// The value at `index` of `e`, when it is a string; empty otherwise.
pub open spec fn str_value_at(e: ElementView, index: int) -> Seq<char> {
    if 0 <= index < e.values.len() {
        match e.values[index] {
            ValueView::Str(s) => s,
            _ => Seq::empty(),
        }
    } else {
        Seq::empty()
    }
}

/// The value at `index` of `e`, when it is a blob; empty otherwise.
pub open spec fn data_value_at(e: ElementView, index: int) -> Seq<u8> {
    if 0 <= index < e.values.len() {
        match e.values[index] {
            ValueView::Data(d) => d,
            _ => Seq::empty(),
        }
    } else {
        Seq::empty()
    }
}

impl Element {
    /// An element with the given name and type, no values and cleared hints.
    pub fn new(name: String, type_: ValueType) -> (r: Element)
        ensures
            r@ == (ElementView { name: name@, ty: type_, values: Seq::empty() }),
            hints_clear(r),
    {
        let r = Element {
            name,
            type_,
            values: Vec::new(),
            json_hint_is_array: false,
            json_hint_is_bool: false,
            json_hint_is_date_time: false,
            json_hint_is_ip: false,
            json_hint_group_name: String::new(),
        };
        assert(r@.values =~= Seq::<ValueView>::empty());
        r
    }

    /// Number of values.
    pub fn num_value(&self) -> (r: usize)
        ensures
            r == self@.values.len(),
    {
        self.values.len()
    }

    /// Copies of all values, in order.
    pub fn copy_values(&self) -> (r: Vec<Value>)
        ensures
            view_values(r@) == self@.values,
    {
        let mut out: Vec<Value> = Vec::new();
        let mut i: usize = 0;
        while i < self.values.len()
            invariant
                0 <= i <= self.values@.len(),
                view_values(out@) =~= self@.values.subrange(0, i as int),
            decreases self.values@.len() - i,
        {
            let v = self.values[i].duplicate();
            proof {
                lemma_view_values(self.values@);
                lemma_view_values(out@);
            }
            out.push(v);
            proof {
                lemma_view_values(out@);
            }
            i += 1;
            assert(view_values(out@) =~= self@.values.subrange(0, i as int));
        }
        assert(self@.values.subrange(0, self@.values.len() as int) =~= self@.values);
        out
    }

    /// The integer at `index`, or zero when there is none.
    pub fn get_int_value(&self, index: u32) -> (r: u32)
        ensures
            r == int_value_at(self@, index as int),
    {
        if (index as usize) < self.values.len() {
            match &self.values[index as usize] {
                Value::Int(v) => *v,
                _ => 0,
            }
        } else {
            0
        }
    }

    /// The string at `index`, or an empty string when there is none.
    pub fn get_str_value(&self, index: u32) -> (r: String)
        ensures
            r@ == str_value_at(self@, index as int),
    {
        if (index as usize) < self.values.len() {
            match &self.values[index as usize] {
                Value::Str(s) => s.clone(),
                _ => String::new(),
            }
        } else {
            String::new()
        }
    }

    /// The blob at `index`, or an empty blob when there is none.
    pub fn get_data_value(&self, index: u32) -> (r: Vec<u8>)
        ensures
            r@ == data_value_at(self@, index as int),
    {
        if (index as usize) < self.values.len() {
            match &self.values[index as usize] {
                Value::Data(d) => slice_to_vec(d.as_slice()),
                _ => Vec::new(),
            }
        } else {
            Vec::new()
        }
    }
}

/// An ordered collection of elements: the unit exchanged on the wire.
#[derive(Debug, Clone)]
pub struct Pack {
    pub elements: Vec<Element>,
}

impl View for Pack {
    type V = Seq<ElementView>;

    open spec fn view(&self) -> Seq<ElementView> {
        self.elements@.map_values(|e: Element| e@)
    }
}

/// Whether the presentation hints of `e` are all cleared: no flag set and no group name.
pub open spec fn hints_clear(e: Element) -> bool {
    &&& !e.json_hint_is_array
    &&& !e.json_hint_is_bool
    &&& !e.json_hint_is_date_time
    &&& !e.json_hint_is_ip
    &&& e.json_hint_group_name@ == Seq::<char>::empty()
}

/// Whether `after` keeps every element of `before` unchanged, in place, and
/// only appends elements whose hints are cleared.
pub open spec fn extends_clear(before: Seq<Element>, after: Seq<Element>) -> bool {
    &&& before.len() <= after.len()
    &&& after.subrange(0, before.len() as int) == before
    &&& forall|i: int| before.len() <= i < after.len() ==> hints_clear(#[trigger] after[i])
}

/// Appending in two steps, each keeping what was there, keeps what was there.
pub broadcast proof fn lemma_extends_clear_trans(a: Seq<Element>, b: Seq<Element>, c: Seq<Element>)
    requires
        extends_clear(a, b),
        extends_clear(b, c),
    ensures
        #![trigger extends_clear(a, b), extends_clear(b, c)]
        extends_clear(a, c),
{
    assert(c.subrange(0, a.len() as int) =~= b.subrange(0, a.len() as int)) by {
        assert forall|k: int| 0 <= k < a.len() implies c.subrange(0, a.len() as int)[k] == b.subrange(0, a.len() as int)[k] by {
            assert(c.subrange(0, b.len() as int)[k] == c[k]);
        }
    }
    assert forall|i: int| a.len() <= i < c.len() implies hints_clear(#[trigger] c[i]) by {
        if i < b.len() {
            assert(c.subrange(0, b.len() as int)[i] == c[i]);
            assert(hints_clear(b[i]));
        }
    }
}

/// Whether some element of `es` has exactly the name `name`.
pub open spec fn name_taken(es: Seq<ElementView>, name: Seq<char>) -> bool {
    exists|i: int| 0 <= i < es.len() && #[trigger] es[i].name == name
}

/// The record invariant: every element holds a value, and no two share a name.
pub open spec fn pack_wf(es: Seq<ElementView>) -> bool {
    &&& forall|i: int| 0 <= i < es.len() ==> #[trigger] es[i].values.len() > 0
    &&& forall|i: int, j: int|
        0 <= i < es.len() && 0 <= j < es.len() && i != j ==> #[trigger] es[i].name != #[trigger] es[j].name
}

/// What `add_element` does to elements `es` given `e`: the error, or the new elements.
pub open spec fn spec_add(es: Seq<ElementView>, e: ElementView) -> Result<Seq<ElementView>, PackError> {
    if e.values.len() == 0 {
        Err(PackError::ZeroNumValue)
    } else if name_taken(es, e.name) {
        Err(PackError::SameNameExists)
    } else {
        Ok(es.push(e))
    }
}

/// Adding an element keeps the record invariant.
pub proof fn lemma_add_keeps_wf(es: Seq<ElementView>, e: ElementView)
    requires
        pack_wf(es),
    ensures
        spec_add(es, e) matches Ok(n) ==> pack_wf(n),
{
    if let Ok(n) = spec_add(es, e) {
        assert forall|i: int, j: int|
            0 <= i < n.len() && 0 <= j < n.len() && i != j implies #[trigger] n[i].name != #[trigger] n[j].name by {
            if i == es.len() as int {
                assert(n[j] == es[j]);
            } else if j == es.len() as int {
                assert(n[i] == es[i]);
            } else {
                assert(n[i] == es[i] && n[j] == es[j]);
            }
        }
        assert forall|i: int| 0 <= i < n.len() implies #[trigger] n[i].values.len() > 0 by {
            if i < es.len() {
                assert(n[i] == es[i]);
            }
        }
    }
}

/// Upper-case form of a text, as the standard library computes it.
pub uninterp spec fn upper_of(s: Seq<char>) -> Seq<char>;

/// Relies on str::to_uppercase: the result depends on the characters alone.
#[verifier::external_body]
fn to_upper(s: &str) -> (r: String)
    ensures
        r@ == upper_of(s@),
{
    s.to_uppercase()
}

/// Whether a type filter admits the type `ty`.
pub open spec fn type_accepts(t: Option<ValueType>, ty: ValueType) -> bool {
    t is None || t == Some(ty)
}

/// Whether `e` answers a lookup for the upper-cased `key` restricted to `t`.
pub open spec fn answers(e: ElementView, key: Seq<char>, t: Option<ValueType>) -> bool {
    upper_of(e.name) == key && type_accepts(t, e.ty)
}

/// Index of the first element at or after `i` that answers the lookup.
pub open spec fn find_from(es: Seq<ElementView>, key: Seq<char>, t: Option<ValueType>, i: int) -> Option<int>
    decreases es.len() - i,
{
    if i < 0 || i >= es.len() {
        None
    } else if answers(es[i], key, t) {
        Some(i)
    } else {
        find_from(es, key, t, i + 1)
    }
}

/// Index of the first element whose name equals `name` up to case and whose
/// type the filter admits.
pub open spec fn find_element(es: Seq<ElementView>, name: Seq<char>, t: Option<ValueType>) -> Option<int> {
    find_from(es, upper_of(name), t, 0)
}

/// A found index lies inside the sequence.
pub proof fn lemma_find_from_bounds(es: Seq<ElementView>, key: Seq<char>, t: Option<ValueType>, i: int)
    ensures
        find_from(es, key, t, i) matches Some(k) ==> 0 <= k < es.len() && answers(es[k], key, t),
    decreases es.len() - i,
{
    if 0 <= i < es.len() && !answers(es[i], key, t) {
        lemma_find_from_bounds(es, key, t, i + 1);
    }
}

/// The integer at `index` of the first integer element named `name` (up to case); zero when absent.
pub open spec fn spec_get_int(es: Seq<ElementView>, name: Seq<char>, index: int) -> u32 {
    match find_element(es, name, Some(ValueType::Int)) {
        Some(k) => int_value_at(es[k], index),
        None => 0,
    }
}

/// The string at `index` of the first string element named `name` (up to case); empty when absent.
pub open spec fn spec_get_str(es: Seq<ElementView>, name: Seq<char>, index: int) -> Seq<char> {
    match find_element(es, name, Some(ValueType::Str)) {
        Some(k) => str_value_at(es[k], index),
        None => Seq::empty(),
    }
}

/// The blob at `index` of the first blob element named `name` (up to case); empty when absent.
pub open spec fn spec_get_data(es: Seq<ElementView>, name: Seq<char>, index: int) -> Seq<u8> {
    match find_element(es, name, Some(ValueType::Data)) {
        Some(k) => data_value_at(es[k], index),
        None => Seq::empty(),
    }
}

/// Whether an element whose upper-cased name is `upper_name` and whose type is
/// `ty` answers a lookup for the upper-cased `key` restricted to `t`.
pub fn key_matches(upper_name: &String, ty: ValueType, key: &String, t: Option<ValueType>) -> (r: bool)
    ensures
        r == (upper_name@ == key@ && type_accepts(t, ty)),
{
    if *upper_name == *key {
        match t {
            None => true,
            Some(want) => want == ty,
        }
    } else {
        false
    }
}

impl Pack {
    /// Whether the record invariant holds.
    pub open spec fn wf(&self) -> bool {
        pack_wf(self@)
    }

    /// An empty pack.
    pub fn new() -> (r: Pack)
        ensures
            r@ == Seq::<ElementView>::empty(),
            r.wf(),
    {
        let r = Pack { elements: Vec::new() };
        assert(r@ =~= Seq::<ElementView>::empty());
        r
    }

    /// Appends `e` unless it has no value (`ZeroNumValue`) or an element with
    /// exactly its name is present (`SameNameExists`); on error nothing changes.
    pub fn add_element(&mut self, e: Element) -> (r: Result<(), PackError>)
        ensures
            match spec_add(old(self)@, e@) {
                Ok(n) => r is Ok && final(self).elements@ == old(self).elements@.push(e) && final(self)@ == n,
                Err(err) => r == Err::<(), PackError>(err) && final(self).elements@ == old(self).elements@,
            },
            old(self).wf() ==> final(self).wf(),
    {
        proof {
            if pack_wf(self@) {
                lemma_add_keeps_wf(self@, e@);
            }
        }
        if e.values.len() == 0 {
            return Err(PackError::ZeroNumValue);
        }
        let mut i: usize = 0;
        while i < self.elements.len()
            invariant
                0 <= i <= self.elements@.len(),
                *self == *old(self),
                e@.values.len() > 0,
                forall|j: int| 0 <= j < i ==> #[trigger] self@[j].name != e@.name,
            decreases self.elements@.len() - i,
        {
            if self.elements[i].name == e.name {
                assert(self@[i as int].name == e@.name);
                assert(name_taken(self@, e@.name));
                return Err(PackError::SameNameExists);
            }
            i += 1;
        }
        let ghost before = self@;
        self.elements.push(e);
        assert(self@ =~= before.push(e@));
        Ok(())
    }

    /// Number of elements.
    pub fn get_num(&self) -> (r: usize)
        ensures
            r == self@.len(),
    {
        self.elements.len()
    }

    /// Index of the first element answering a lookup for `name` (up to case)
    /// restricted to `t`.
    fn position(&self, name: &str, t: Option<ValueType>) -> (r: Option<usize>)
        ensures
            match find_element(self@, name@, t) {
                Some(k) => r matches Some(i) && i as int == k && k < self@.len(),
                None => r is None,
            },
    {
        proof {
            lemma_find_from_bounds(self@, upper_of(name@), t, 0);
        }
        let key = to_upper(name);
        let mut i: usize = 0;
        while i < self.elements.len()
            invariant
                0 <= i <= self.elements@.len(),
                key@ == upper_of(name@),
                find_element(self@, name@, t) == find_from(self@, key@, t, i as int),
            decreases self.elements@.len() - i,
        {
            let e = &self.elements[i];
            let upper = to_upper(e.name.as_str());
            if key_matches(&upper, e.type_, &key, t) {
                return Some(i);
            }
            i += 1;
        }
        None
    }

    /// The first element whose name equals `name` up to case and whose type
    /// the filter admits.
    pub fn get_element(&self, name: &str, t: Option<ValueType>) -> (r: Option<&Element>)
        ensures
            match find_element(self@, name@, t) {
                Some(k) => r matches Some(x) && *x == self.elements@[k],
                None => r is None,
            },
    {
        proof {
            lemma_find_from_bounds(self@, upper_of(name@), t, 0);
        }
        match self.position(name, t) {
            Some(i) => {
                let x = &self.elements[i];
                assert(*x == self.elements@[i as int]);
                Some(x)
            },
            None => None,
        }
    }

    /// The first integer of the integer element `name`; zero when absent.
    pub fn get_int(&self, name: &str) -> (r: u32)
        ensures
            r == spec_get_int(self@, name@, 0),
    {
        self.get_int_ex(name, 0)
    }

    /// The integer at `index` of the integer element `name`; zero when absent.
    pub fn get_int_ex(&self, name: &str, index: u32) -> (r: u32)
        ensures
            r == spec_get_int(self@, name@, index as int),
    {
        proof {
            lemma_find_from_bounds(self@, upper_of(name@), Some(ValueType::Int), 0);
        }
        match self.get_element(name, Some(ValueType::Int)) {
            Some(e) => e.get_int_value(index),
            None => 0,
        }
    }

    /// The first string of the string element `name`; empty when absent.
    pub fn get_str(&self, name: &str) -> (r: String)
        ensures
            r@ == spec_get_str(self@, name@, 0),
    {
        self.get_str_ex(name, 0)
    }

    /// The string at `index` of the string element `name`; empty when absent.
    pub fn get_str_ex(&self, name: &str, index: u32) -> (r: String)
        ensures
            r@ == spec_get_str(self@, name@, index as int),
    {
        proof {
            lemma_find_from_bounds(self@, upper_of(name@), Some(ValueType::Str), 0);
        }
        match self.get_element(name, Some(ValueType::Str)) {
            Some(e) => e.get_str_value(index),
            None => String::new(),
        }
    }

    /// The first blob of the blob element `name`; empty when absent.
    pub fn get_data(&self, name: &str) -> (r: Vec<u8>)
        ensures
            r@ == spec_get_data(self@, name@, 0),
    {
        self.get_data_ex(name, 0)
    }

    /// The blob at `index` of the blob element `name`; empty when absent.
    pub fn get_data_ex(&self, name: &str, index: u32) -> (r: Vec<u8>)
        ensures
            r@ == spec_get_data(self@, name@, index as int),
    {
        proof {
            lemma_find_from_bounds(self@, upper_of(name@), Some(ValueType::Data), 0);
        }
        match self.get_element(name, Some(ValueType::Data)) {
            Some(e) => e.get_data_value(index),
            None => Vec::new(),
        }
    }

    /// Whether the first integer of the integer element `name` is non-zero.
    pub fn get_bool(&self, name: &str) -> (r: bool)
        ensures
            r == (spec_get_int(self@, name@, 0) != 0),
    {
        self.get_bool_ex(name, 0)
    }

    /// Whether the integer at `index` of the integer element `name` is non-zero.
    pub fn get_bool_ex(&self, name: &str, index: u32) -> (r: bool)
        ensures
            r == (spec_get_int(self@, name@, index as int) != 0),
    {
        self.get_int_ex(name, index) != 0
    }

    /// All values of the first element named `name` (up to case), of any type.
    pub fn get_array(&self, name: &str) -> (r: Option<Vec<Value>>)
        ensures
            match find_element(self@, name@, None) {
                Some(k) => r matches Some(v) && view_values(v@) == self@[k].values,
                None => r is None,
            },
    {
        proof {
            lemma_find_from_bounds(self@, upper_of(name@), None, 0);
        }
        match self.get_element(name, None) {
            Some(e) => Some(e.copy_values()),
            None => None,
        }
    }

    /// Byte length of the first blob of the blob element `name`, cut to 32 bits.
    pub fn get_data_size(&self, name: &str) -> (r: u32)
        ensures
            r == spec_get_data(self@, name@, 0).len() as u32,
    {
        self.get_data_size_ex(name, 0)
    }

    /// Byte length of the blob at `index` of the blob element `name`, cut to 32 bits.
    pub fn get_data_size_ex(&self, name: &str, index: u32) -> (r: u32)
        ensures
            r == spec_get_data(self@, name@, index as int).len() as u32,
    {
        self.get_data_ex(name, index).len() as u32
    }

    /// Text of the address stored in the integer element `name`: empty when
    /// it is zero or absent, the dotted quad otherwise.
    pub fn get_ip(&self, name: &str) -> (r: String)
        ensures
            r@ == ip_text(spec_get_int(self@, name@, 0)),
    {
        self.get_ip_ex(name, 0)
    }

    /// Text of the address stored at `index` of the integer element `name`.
    pub fn get_ip_ex(&self, name: &str, index: u32) -> (r: String)
        ensures
            r@ == ip_text(spec_get_int(self@, name@, index as int)),
    {
        ip_to_string(self.get_int_ex(name, index))
    }

    /// The four octets of the address in the integer element `name`, most
    /// significant first; all zero when absent.
    pub fn get_ip_as_bytes(&self, name: &str) -> (r: [u8; 4])
        ensures
            r@ == u32_bytes(spec_get_int(self@, name@, 0)),
    {
        let ip = self.get_int(name);
        let r = [(ip >> 24u32) as u8, (ip >> 16u32) as u8, (ip >> 8u32) as u8, ip as u8];
        assert(r@ =~= u32_bytes(ip));
        r
    }

    /// Names of all elements, in order.
    pub fn get_names(&self) -> (r: Vec<String>)
        ensures
            r@.len() == self@.len(),
            forall|i: int| 0 <= i < r@.len() ==> #[trigger] r@[i]@ == self@[i].name,
    {
        let mut out: Vec<String> = Vec::new();
        let mut i: usize = 0;
        while i < self.elements.len()
            invariant
                0 <= i <= self.elements@.len(),
                out@.len() == i,
                forall|j: int| 0 <= j < i ==> #[trigger] out@[j]@ == self@[j].name,
            decreases self.elements@.len() - i,
        {
            out.push(self.elements[i].name.clone());
            i += 1;
        }
        out
    }
}

} // verus!
