//! A model of the JavaScript values that cross the boundary between an automerge
//! document and its JavaScript host.
//!
//! Values are held as plain Rust data: the host converts its own values to and from
//! this model. Objects carry their own enumerable string-keyed properties, the
//! elements of an array or the bytes of a `Uint8Array`, and the four registered
//! symbols under which this library hides its bookkeeping.
use vstd::prelude::*;
use crate::num::{number_as_uint8, number_to_uint8};
use crate::text::{decimal, decimal_string};

verus! {

/// A JavaScript number, described by where it came from.
///
/// `Int(i)` and `Uint(u)` stand for the double that holds the integer exactly (any
/// integer up to 2^53 in magnitude, and the integers that rounding gives beyond);
/// `Float(b)` is the IEEE-754 double whose bit pattern is `b`. The numbers this
/// library makes from integers are rounded first, as `as f64` rounds
/// (`crate::num::int_number`).
#[derive(Clone, Copy, Debug, PartialEq)]
pub enum JsNumber {
    Int(i64),
    Uint(u64),
    Float(u64),
}

/// What kind of object a JavaScript object is.
#[derive(Clone, Copy, Debug, PartialEq)]
pub enum JsClass {
    /// An ordinary object.
    Plain,
    /// An `Array`; its elements are held in `JsObject::elements`.
    Array,
    /// A `Uint8Array`; its contents are held in `JsObject::bytes`.
    Bytes,
    /// A `Date` with the given time value.
    Date(JsNumber),
    /// A function, told apart by an opaque identity.
    Function(u64),
    /// An exception object raised by the engine.
    Error,
}

/// The registered symbols under which this library stores hidden properties.
#[derive(Clone, Copy, PartialEq, Eq, Structural, Debug)]
pub enum HiddenKey {
    /// `Symbol.for("_am_raw_value_")`: the value a data handler wrapped.
    RawData,
    /// `Symbol.for("_am_datatype_")`: the automerge datatype of the value.
    Datatype,
    /// `Symbol.for("_am_objectId")`: the id of the automerge object.
    ObjectId,
    /// `Symbol.for("_am_meta")`: caller-supplied metadata.
    Meta,
}

/// A JavaScript object.
#[derive(Debug, PartialEq)]
pub struct JsObject {
    pub class: JsClass,
    /// The elements of an array (empty for other objects). A hole reads as `undefined`.
    pub elements: Vec<JsVal>,
    /// The contents of a `Uint8Array` (empty for other objects).
    pub bytes: Vec<u8>,
    /// Own enumerable string-keyed properties, in insertion order.
    pub props: Vec<(String, JsVal)>,
    /// Hidden (non-enumerable, read-only) properties under registered symbols, in
    /// definition order.
    pub hidden: Vec<(HiddenKey, JsVal)>,
    /// Whether `Object.freeze` has been applied.
    pub frozen: bool,
}

/// A JavaScript value.
#[derive(Debug, PartialEq)]
pub enum JsVal {
    Undefined,
    Null,
    Bool(bool),
    Number(JsNumber),
    Str(String),
    /// A registered symbol, `Symbol.for(name)`.
    Symbol(String),
    Object(JsObject),
}

/// The mathematical view of an object.
#[verifier::ext_equal]
pub struct ObjV {
    pub class: JsClass,
    pub elements: Seq<JsV>,
    pub bytes: Seq<u8>,
    pub props: Seq<(Seq<char>, JsV)>,
    pub hidden: Seq<(HiddenKey, JsV)>,
    pub frozen: bool,
}

/// The mathematical view of a value.
#[verifier::ext_equal]
pub enum JsV {
    Undefined,
    Null,
    Bool(bool),
    Number(JsNumber),
    Str(Seq<char>),
    Symbol(Seq<char>),
    Object(ObjV),
}

impl JsObject {
    pub open spec fn view(&self) -> ObjV
        decreases self,
    {
        ObjV {
            class: self.class,
            elements: Seq::new(
                self.elements@.len(),
                |i: int|
                    if 0 <= i < self.elements@.len() {
                        self.elements@[i].view()
                    } else {
                        JsV::Undefined
                    },
            ),
            bytes: self.bytes@,
            props: Seq::new(
                self.props@.len(),
                |i: int|
                    if 0 <= i < self.props@.len() {
                        (self.props@[i].0@, self.props@[i].1.view())
                    } else {
                        (Seq::empty(), JsV::Undefined)
                    },
            ),
            hidden: Seq::new(
                self.hidden@.len(),
                |i: int|
                    if 0 <= i < self.hidden@.len() {
                        (self.hidden@[i].0, self.hidden@[i].1.view())
                    } else {
                        (HiddenKey::RawData, JsV::Undefined)
                    },
            ),
            frozen: self.frozen,
        }
    }
}

impl JsVal {
    pub open spec fn view(&self) -> JsV
        decreases self,
    {
        match self {
            JsVal::Undefined => JsV::Undefined,
            JsVal::Null => JsV::Null,
            JsVal::Bool(b) => JsV::Bool(*b),
            JsVal::Number(n) => JsV::Number(*n),
            JsVal::Str(s) => JsV::Str(s@),
            JsVal::Symbol(s) => JsV::Symbol(s@),
            JsVal::Object(o) => JsV::Object(o.view()),
        }
    }
}

/// A property key: a string, or an array index (a number).
#[derive(Debug, PartialEq)]
pub enum PropKey {
    Name(String),
    Index(usize),
}

/// The view of a property key.
pub enum KeyV {
    Name(Seq<char>),
    Index(nat),
}

impl PropKey {
    pub open spec fn view(&self) -> KeyV {
        match self {
            PropKey::Name(s) => KeyV::Name(s@),
            PropKey::Index(i) => KeyV::Index(*i as nat),
        }
    }
}

/// The largest array index plus one: keys at or above it are ordinary names.
pub open spec fn array_index_limit() -> nat {
    4294967295
}

/// Whether `p` has key `k` at position `i`, and at no earlier position.
pub open spec fn first_key_at<K, V>(p: Seq<(K, V)>, k: K, i: int) -> bool {
    &&& 0 <= i < p.len()
    &&& p[i].0 == k
    &&& forall|j: int| 0 <= j < i ==> p[j].0 != k
}

/// Whether `p` holds key `k`.
pub open spec fn has_key<K, V>(p: Seq<(K, V)>, k: K) -> bool {
    exists|i: int| first_key_at(p, k, i)
}

/// The first position of key `k` in `p` (meaningful when `has_key(p, k)`).
pub open spec fn key_pos<K, V>(p: Seq<(K, V)>, k: K) -> int {
    choose|i: int| first_key_at(p, k, i)
}

/// The value under the first occurrence of key `k` in `p`.
pub open spec fn lookup<K, V>(p: Seq<(K, V)>, k: K) -> Option<V> {
    if has_key(p, k) {
        Some(p[key_pos(p, k)].1)
    } else {
        None
    }
}

/// The first position of a key is unique.
pub proof fn lemma_first_key_unique<K, V>(p: Seq<(K, V)>, k: K, i: int, j: int)
    requires
        first_key_at(p, k, i),
        first_key_at(p, k, j),
    ensures
        i == j,
{
}

/// Finding the key at its first position determines the lookup.
pub proof fn lemma_lookup_at<K, V>(p: Seq<(K, V)>, k: K, i: int)
    requires
        first_key_at(p, k, i),
    ensures
        has_key(p, k),
        key_pos(p, k) == i,
        lookup(p, k) == Some(p[i].1),
{
    assert(has_key(p, k));
    lemma_first_key_unique(p, k, i, key_pos(p, k));
}

/// A key that no entry carries is not found.
pub proof fn lemma_lookup_absent<K, V>(p: Seq<(K, V)>, k: K)
    requires
        forall|j: int| 0 <= j < p.len() ==> p[j].0 != k,
    ensures
        !has_key(p, k),
        lookup(p, k) is None,
{
}

/// A key carried by any entry is held.
pub proof fn lemma_has_key_at<K, V>(p: Seq<(K, V)>, k: K, j: int)
    requires
        0 <= j < p.len(),
        p[j].0 == k,
    ensures
        has_key(p, k),
    decreases j,
{
    if exists|i: int| 0 <= i < j && p[i].0 == k {
        let i = choose|i: int| 0 <= i < j && p[i].0 == k;
        lemma_has_key_at(p, k, i);
    } else {
        assert(first_key_at(p, k, j));
    }
}

/// Appending an entry with another key leaves a lookup as it was.
pub proof fn lemma_lookup_push_other<K, V>(p: Seq<(K, V)>, e: (K, V), k: K)
    requires
        e.0 != k,
    ensures
        lookup(p.push(e), k) == lookup(p, k),
{
    let q = p.push(e);
    if has_key(p, k) {
        let i = key_pos(p, k);
        assert(first_key_at(q, k, i));
        lemma_lookup_at(q, k, i);
    } else if has_key(q, k) {
        let i = key_pos(q, k);
        assert(first_key_at(q, k, i));
        assert(i < p.len());
        assert(q[i] == p[i]);
        assert forall|j: int| 0 <= j < i implies p[j].0 != k by {
            assert(q[j] == p[j]);
        }
        assert(first_key_at(p, k, i));
    }
}

/// Appending an entry with a key not yet held makes the key hold its value.
pub proof fn lemma_lookup_push_new<K, V>(p: Seq<(K, V)>, e: (K, V))
    requires
        lookup(p, e.0) is None,
    ensures
        lookup(p.push(e), e.0) == Some(e.1),
{
    let q = p.push(e);
    assert forall|j: int| 0 <= j < p.len() implies q[j].0 != e.0 by {
        if q[j].0 == e.0 {
            lemma_has_key_at(p, e.0, j);
        }
    }
    assert(first_key_at(q, e.0, p.len() as int));
    lemma_lookup_at(q, e.0, p.len() as int);
}

/// The value under a named property (undefined when absent).
pub open spec fn named_get(o: ObjV, k: Seq<char>) -> JsV {
    match lookup(o.props, k) {
        Some(v) => v,
        None => JsV::Undefined,
    }
}

/// What `Reflect.get(v, k)` gives: `None` when it throws (`v` is not an object).
///
/// Inherited properties are not part of the model, and a string key on an array
/// is looked up among the array's named properties.
pub open spec fn get_spec(v: JsV, k: KeyV) -> Option<JsV> {
    match v {
        JsV::Object(o) => Some(
            match k {
                KeyV::Index(i) => {
                    if o.class is Array && i < array_index_limit() {
                        if i < o.elements.len() {
                            o.elements[i as int]
                        } else {
                            JsV::Undefined
                        }
                    } else if o.class is Bytes {
                        if i < o.bytes.len() {
                            JsV::Number(JsNumber::Int(o.bytes[i as int] as i64))
                        } else {
                            JsV::Undefined
                        }
                    } else {
                        named_get(o, decimal(i))
                    }
                },
                KeyV::Name(s) => named_get(o, s),
            },
        ),
        _ => None,
    }
}

/// The properties after setting named property `k` to `v`: the first entry with that
/// key is updated in place, or a new entry is appended.
pub open spec fn named_set(p: Seq<(Seq<char>, JsV)>, k: Seq<char>, v: JsV) -> Seq<(Seq<char>, JsV)> {
    if has_key(p, k) {
        p.update(key_pos(p, k), (k, v))
    } else {
        p.push((k, v))
    }
}

/// `n` copies of `undefined`: the holes left when an array grows past its end.
pub open spec fn holes(n: nat) -> Seq<JsV> {
    Seq::new(n, |i: int| JsV::Undefined)
}

/// `ToUint8(v)` for a value that converts to a number without calling back into
/// JavaScript (see `byte_convertible`): `undefined` is NaN and gives 0, `null` and
/// `false` give 0, `true` gives 1, and a number is truncated modulo 2^8.
pub open spec fn to_uint8_spec(v: JsV) -> u8 {
    match v {
        JsV::Bool(b) => if b { 1 } else { 0 },
        JsV::Number(n) => number_to_uint8(n) as u8,
        _ => 0,
    }
}

/// Whether `v` converts to a number without calling back into JavaScript: not a
/// string (read as a numeric literal), a symbol (which throws) or an object (whose
/// `valueOf` or `toString` runs).
pub open spec fn byte_convertible(v: JsV) -> bool {
    v is Undefined || v is Null || v is Bool || v is Number
}

/// The object after `Reflect.set(o, k, v)`, and that call's result.
///
/// Writing an index of a `Uint8Array` stores `ToUint8(v)` when the index is within it
/// and nothing otherwise, and returns true. Otherwise a frozen object is left as it is
/// and the call returns false. Setting an array index at or past the end grows the
/// array, filling the gap with holes.
pub open spec fn set_spec(o: ObjV, k: KeyV, v: JsV) -> (ObjV, bool) {
    if o.class is Bytes && k is Index {
        let i = k->Index_0;
        if i < o.bytes.len() {
            (ObjV { bytes: o.bytes.update(i as int, to_uint8_spec(v)), ..o }, true)
        } else {
            (o, true)
        }
    } else if o.frozen {
        (o, false)
    } else {
        match k {
            KeyV::Index(i) => {
                if o.class is Array && i < array_index_limit() {
                    if i < o.elements.len() {
                        (ObjV { elements: o.elements.update(i as int, v), ..o }, true)
                    } else {
                        (
                            ObjV {
                                elements: o.elements + holes((i - o.elements.len()) as nat) + seq![v],
                                ..o
                            },
                            true,
                        )
                    }
                } else {
                    (ObjV { props: named_set(o.props, decimal(i), v), ..o }, true)
                }
            },
            KeyV::Name(s) => (ObjV { props: named_set(o.props, s, v), ..o }, true),
        }
    }
}

/// Whether `Reflect.set(o, k, v)` stores `v` itself, so that reading `k` back gives
/// `v`: not so for an index of a `Uint8Array`, which stores a byte.
pub open spec fn settable(o: ObjV, k: KeyV) -> bool {
    !(o.class is Bytes && k is Index)
}

/// Whether `Reflect.set(o, k, v)` lies within the model: a value written into an index
/// of a `Uint8Array` must convert to a number without calling back into JavaScript.
pub open spec fn set_in_model(o: ObjV, k: KeyV, v: JsV) -> bool {
    (o.class is Bytes && k is Index) ==> byte_convertible(v)
}

/// `ToUint8(v)` (see `to_uint8_spec`).
pub fn to_uint8(v: &JsVal) -> (r: u8)
    requires
        byte_convertible(v.view()),
    ensures
        r == to_uint8_spec(v.view()),
{
    match v {
        JsVal::Bool(b) => if *b { 1 } else { 0 },
        JsVal::Number(n) => number_as_uint8(*n),
        _ => 0,
    }
}

/// The value under a hidden key (undefined when absent).
pub open spec fn hidden_get(o: ObjV, k: HiddenKey) -> JsV {
    match lookup(o.hidden, k) {
        Some(v) => v,
        None => JsV::Undefined,
    }
}

/// Whether `Object.defineProperty` can define hidden key `k` as `v` (read-only, not
/// enumerable, not configurable) without throwing: a new key needs an extensible
/// object, and a key already defined must hold that same value, which redefining then
/// leaves as it is.
pub open spec fn can_define(o: ObjV, k: HiddenKey, v: JsV) -> bool {
    match lookup(o.hidden, k) {
        None => !o.frozen,
        Some(x) => x == v,
    }
}

/// The object after defining hidden key `k` as `v`.
pub open spec fn define_spec(o: ObjV, k: HiddenKey, v: JsV) -> ObjV {
    if has_key(o.hidden, k) {
        o
    } else {
        ObjV { hidden: o.hidden.push((k, v)), ..o }
    }
}

/// The own enumerable string-keyed entries of an object, as `Object.keys` and
/// `Object.values` list them: indices first for arrays and byte arrays, then named
/// properties.
pub open spec fn entries_spec(o: ObjV) -> Seq<(Seq<char>, JsV)> {
    if o.class is Array {
        Seq::new(o.elements.len(), |i: int| (decimal(i as nat), o.elements[i])) + o.props
    } else if o.class is Bytes {
        Seq::new(
            o.bytes.len(),
            |i: int| (decimal(i as nat), JsV::Number(JsNumber::Int(o.bytes[i] as i64))),
        ) + o.props
    } else {
        o.props
    }
}

/// An empty, extensible object of the given class.
pub open spec fn empty_obj(class: JsClass) -> ObjV {
    ObjV {
        class,
        elements: Seq::empty(),
        bytes: Seq::empty(),
        props: Seq::empty(),
        hidden: Seq::empty(),
        frozen: false,
    }
}

/// `Object.assign({}, o)`: a new object with the own enumerable string-keyed entries
/// of `o` (hidden properties are not enumerable, so they stay behind).
pub open spec fn assign_copy_spec(o: ObjV) -> ObjV {
    ObjV { props: entries_spec(o), ..empty_obj(JsClass::Plain) }
}

/// `Array.from(o)` for an array, and `Object.assign({}, o)` for any other object.
pub open spec fn shallow_copy_spec(o: ObjV) -> ObjV {
    if o.class is Array {
        ObjV { elements: o.elements, ..empty_obj(JsClass::Array) }
    } else {
        assign_copy_spec(o)
    }
}

/// The exception object the engine raises for a type error.
pub open spec fn type_error_spec() -> JsV {
    JsV::Object(empty_obj(JsClass::Error))
}

impl JsObject {
    /// An empty, extensible object of the given class.
    pub fn new(class: JsClass) -> (r: JsObject)
        ensures
            r.view() == empty_obj(class),
    {
        let r = JsObject {
            class,
            elements: Vec::new(),
            bytes: Vec::new(),
            props: Vec::new(),
            hidden: Vec::new(),
            frozen: false,
        };
        proof {
            let v = r.view();
            assert(v.elements =~= Seq::<JsV>::empty());
            assert(v.props =~= Seq::<(Seq<char>, JsV)>::empty());
            assert(v.hidden =~= Seq::<(HiddenKey, JsV)>::empty());
            assert(v =~= empty_obj(class));
        }
        r
    }

    /// A deep copy.
    #[verifier::loop_isolation(false)]
    pub fn duplicate(&self) -> (r: JsObject)
        ensures
            r.view() == self.view(),
        decreases self,
    {
        let mut elements: Vec<JsVal> = Vec::new();
        let mut i: usize = 0;
        while i < self.elements.len()
            invariant
                i <= self.elements.len(),
                elements@.len() == i,
                forall|j: int| 0 <= j < i ==> #[trigger] elements@[j].view() == self.elements@[j].view(),
            decreases self.elements.len() - i,
        {
            proof {
                broadcast use vstd::std_specs::vec::axiom_vec_index_decreases;
                assert(decreases_to!(self.elements => self.elements[i as int]));
            }
            let d = self.elements[i].duplicate();
            elements.push(d);
            i = i + 1;
        }
        let mut props: Vec<(String, JsVal)> = Vec::new();
        let mut k: usize = 0;
        while k < self.props.len()
            invariant
                k <= self.props.len(),
                props@.len() == k,
                forall|j: int|
                    0 <= j < k ==> #[trigger] props@[j].0@ == self.props@[j].0@ && props@[j].1.view()
                        == self.props@[j].1.view(),
            decreases self.props.len() - k,
        {
            proof {
                broadcast use vstd::std_specs::vec::axiom_vec_index_decreases;
                assert(decreases_to!(self.props => self.props[k as int]));
            }
            let key = self.props[k].0.clone();
            let d = self.props[k].1.duplicate();
            props.push((key, d));
            k = k + 1;
        }
        let mut hidden: Vec<(HiddenKey, JsVal)> = Vec::new();
        let mut h: usize = 0;
        while h < self.hidden.len()
            invariant
                h <= self.hidden.len(),
                hidden@.len() == h,
                forall|j: int|
                    0 <= j < h ==> #[trigger] hidden@[j].0 == self.hidden@[j].0 && hidden@[j].1.view()
                        == self.hidden@[j].1.view(),
            decreases self.hidden.len() - h,
        {
            proof {
                broadcast use vstd::std_specs::vec::axiom_vec_index_decreases;
                assert(decreases_to!(self.hidden => self.hidden[h as int]));
            }
            let key = self.hidden[h].0;
            let d = self.hidden[h].1.duplicate();
            hidden.push((key, d));
            h = h + 1;
        }
        let bytes = self.bytes.clone();
        let r = JsObject { class: self.class, elements, bytes, props, hidden, frozen: self.frozen };
        proof {
            let a = r.view();
            let b = self.view();
            assert(a.elements.len() == b.elements.len());
            assert forall|j: int| 0 <= j < a.elements.len() implies a.elements[j] == b.elements[j] by {
                assert(a.elements[j] == r.elements@[j].view());
                assert(b.elements[j] == self.elements@[j].view());
                assert(r.elements@[j].view() == self.elements@[j].view());
            }
            assert(a.elements =~= b.elements);
            assert(a.props =~= b.props);
            assert(a.hidden =~= b.hidden);
            assert(a.bytes =~= b.bytes);
            assert(a =~= b);
        }
        r
    }
}

impl JsVal {
    /// A deep copy.
    pub fn duplicate(&self) -> (r: JsVal)
        ensures
            r.view() == self.view(),
        decreases self,
    {
        match self {
            JsVal::Undefined => JsVal::Undefined,
            JsVal::Null => JsVal::Null,
            JsVal::Bool(b) => JsVal::Bool(*b),
            JsVal::Number(n) => JsVal::Number(*n),
            JsVal::Str(s) => JsVal::Str(s.clone()),
            JsVal::Symbol(s) => JsVal::Symbol(s.clone()),
            JsVal::Object(o) => JsVal::Object(o.duplicate()),
        }
    }
}


/// Whether two numbers are the same number of the model.
pub fn same_number(a: JsNumber, b: JsNumber) -> (r: bool)
    ensures
        r == (a == b),
{
    match a {
        JsNumber::Int(x) => match b {
            JsNumber::Int(y) => x == y,
            _ => false,
        },
        JsNumber::Uint(x) => match b {
            JsNumber::Uint(y) => x == y,
            _ => false,
        },
        JsNumber::Float(x) => match b {
            JsNumber::Float(y) => x == y,
            _ => false,
        },
    }
}

/// Whether two classes are the same.
pub fn same_class(a: JsClass, b: JsClass) -> (r: bool)
    ensures
        r == (a == b),
{
    match a {
        JsClass::Plain => matches!(b, JsClass::Plain),
        JsClass::Array => matches!(b, JsClass::Array),
        JsClass::Bytes => matches!(b, JsClass::Bytes),
        JsClass::Date(x) => match b {
            JsClass::Date(y) => same_number(x, y),
            _ => false,
        },
        JsClass::Function(x) => match b {
            JsClass::Function(y) => x == y,
            _ => false,
        },
        JsClass::Error => matches!(b, JsClass::Error),
    }
}

impl JsVal {
    /// Whether two values are the same value of the model (their views are equal).
    pub fn same_as(&self, other: &JsVal) -> (r: bool)
        ensures
            r == (self.view() == other.view()),
        decreases self,
    {
        match self {
            JsVal::Undefined => matches!(other, JsVal::Undefined),
            JsVal::Null => matches!(other, JsVal::Null),
            JsVal::Bool(a) => match other {
                JsVal::Bool(b) => *a == *b,
                _ => false,
            },
            JsVal::Number(a) => match other {
                JsVal::Number(b) => same_number(*a, *b),
                _ => false,
            },
            JsVal::Str(a) => match other {
                JsVal::Str(b) => *a == *b,
                _ => false,
            },
            JsVal::Symbol(a) => match other {
                JsVal::Symbol(b) => *a == *b,
                _ => false,
            },
            JsVal::Object(a) => match other {
                JsVal::Object(b) => a.same_as(b),
                _ => false,
            },
        }
    }
}

impl JsObject {
    /// Whether two objects are the same object of the model (their views are equal).
    pub fn same_as(&self, other: &JsObject) -> (r: bool)
        ensures
            r == (self.view() == other.view()),
        decreases self,
    {
        proof {
            self.lemma_view_parts();
            other.lemma_view_parts();
        }
        if !same_class(self.class, other.class) || self.frozen != other.frozen
            || self.elements.len() != other.elements.len() || self.bytes.len() != other.bytes.len()
            || self.props.len() != other.props.len() || self.hidden.len() != other.hidden.len() {
            proof {
                if self.view() == other.view() {
                    assert(self.view().elements.len() == self.elements@.len());
                    assert(other.view().elements.len() == other.elements@.len());
                    assert(self.view().props.len() == self.props@.len());
                    assert(other.view().props.len() == other.props@.len());
                }
            }
            return false;
        }
        let mut i: usize = 0;
        while i < self.elements.len()
            invariant
                i <= self.elements.len(),
                self.elements.len() == other.elements.len(),
                self.view().elements == vals_view(self.elements@),
                other.view().elements == vals_view(other.elements@),
                forall|j: int| 0 <= j < i ==> self.elements@[j].view() == other.elements@[j].view(),
            decreases self.elements.len() - i,
        {
            proof {
                broadcast use vstd::std_specs::vec::axiom_vec_index_decreases;
                assert(decreases_to!(self.elements => self.elements[i as int]));
            }
            if !self.elements[i].same_as(&other.elements[i]) {
                proof {
                    assert(self.view().elements[i as int] == self.elements@[i as int].view());
                    assert(other.view().elements[i as int] == other.elements@[i as int].view());
                }
                return false;
            }
            i = i + 1;
        }
        let mut b: usize = 0;
        while b < self.bytes.len()
            invariant
                b <= self.bytes.len(),
                self.bytes.len() == other.bytes.len(),
                forall|j: int| 0 <= j < b ==> self.bytes@[j] == other.bytes@[j],
            decreases self.bytes.len() - b,
        {
            if self.bytes[b] != other.bytes[b] {
                proof {
                    assert(self.view().bytes[b as int] != other.view().bytes[b as int]);
                }
                return false;
            }
            b = b + 1;
        }
        let mut k: usize = 0;
        while k < self.props.len()
            invariant
                k <= self.props.len(),
                self.props.len() == other.props.len(),
                self.view().props == entries_view(self.props@),
                other.view().props == entries_view(other.props@),
                forall|j: int| 0 <= j < k ==> #[trigger] self.view().props[j] == other.view().props[j],
            decreases self.props.len() - k,
        {
            proof {
                broadcast use vstd::std_specs::vec::axiom_vec_index_decreases;
                assert(decreases_to!(self.props => self.props[k as int]));
            }
            if self.props[k].0 != other.props[k].0 || !self.props[k].1.same_as(&other.props[k].1) {
                proof {
                    assert(self.view().props[k as int] == (self.props@[k as int].0@, self.props@[k as int].1.view()));
                    assert(other.view().props[k as int] == (other.props@[k as int].0@, other.props@[k as int].1.view()));
                }
                return false;
            }
            k = k + 1;
        }
        let mut h: usize = 0;
        while h < self.hidden.len()
            invariant
                h <= self.hidden.len(),
                self.hidden.len() == other.hidden.len(),
                self.view().hidden.len() == self.hidden@.len(),
                other.view().hidden.len() == other.hidden@.len(),
                forall|j: int| 0 <= j < self.hidden@.len() ==> #[trigger] self.view().hidden[j] == (self.hidden@[j].0, self.hidden@[j].1.view()),
                forall|j: int| 0 <= j < other.hidden@.len() ==> #[trigger] other.view().hidden[j] == (other.hidden@[j].0, other.hidden@[j].1.view()),
                forall|j: int| 0 <= j < h ==> #[trigger] self.view().hidden[j] == other.view().hidden[j],
            decreases self.hidden.len() - h,
        {
            proof {
                broadcast use vstd::std_specs::vec::axiom_vec_index_decreases;
                assert(decreases_to!(self.hidden => self.hidden[h as int]));
            }
            if self.hidden[h].0 != other.hidden[h].0 || !self.hidden[h].1.same_as(&other.hidden[h].1) {
                proof {
                    assert(self.view().hidden[h as int] == (self.hidden@[h as int].0, self.hidden@[h as int].1.view()));
                    assert(other.view().hidden[h as int] == (other.hidden@[h as int].0, other.hidden@[h as int].1.view()));
                }
                return false;
            }
            h = h + 1;
        }
        proof {
            let x = self.view();
            let y = other.view();
            assert(x.elements =~= y.elements);
            assert(x.bytes =~= y.bytes);
            assert(x.props =~= y.props);
            assert(x.hidden =~= y.hidden);
            assert(x =~= y);
        }
        true
    }

    /// Whether `Object.defineProperty` can define hidden key `k` as `v` on this object
    /// without throwing.
    pub fn can_define_hidden(&self, k: HiddenKey, v: &JsVal) -> (r: bool)
        ensures
            r == can_define(self.view(), k, v.view()),
    {
        proof { self.lemma_view_parts(); }
        match self.find_hidden(k) {
            Some(i) => {
                proof { lemma_lookup_at(self.view().hidden, k, i as int); }
                self.hidden[i].1.same_as(v)
            },
            None => !self.frozen,
        }
    }
}

/// The view of a sequence of values.
pub open spec fn vals_view(s: Seq<JsVal>) -> Seq<JsV> {
    Seq::new(s.len(), |i: int| s[i].view())
}

/// The view of a sequence of named entries.
pub open spec fn entries_view(s: Seq<(String, JsVal)>) -> Seq<(Seq<char>, JsV)> {
    Seq::new(s.len(), |i: int| (s[i].0@, s[i].1.view()))
}

impl JsObject {
    /// The view's elements are the views of the elements.
    pub proof fn lemma_view_parts(&self)
        ensures
            self.view().elements == vals_view(self.elements@),
            self.view().props == entries_view(self.props@),
            self.view().bytes == self.bytes@,
            self.view().class == self.class,
            self.view().frozen == self.frozen,
            self.view().hidden.len() == self.hidden@.len(),
            forall|j: int| 0 <= j < self.hidden@.len() ==> #[trigger] self.view().hidden[j] == (self.hidden@[j].0, self.hidden@[j].1.view()),
    {
        assert(self.view().elements =~= vals_view(self.elements@));
        assert(self.view().props =~= entries_view(self.props@));
    }

    /// Position of the first named property `k`.
    pub fn find_prop(&self, k: &String) -> (r: Option<usize>)
        ensures
            match r {
                Some(i) => first_key_at(self.view().props, k@, i as int),
                None => !has_key(self.view().props, k@),
            },
    {
        proof { self.lemma_view_parts(); }
        let mut i: usize = 0;
        while i < self.props.len()
            invariant
                i <= self.props.len(),
                self.view().props == entries_view(self.props@),
                forall|j: int| 0 <= j < i ==> self.view().props[j].0 != k@,
            decreases self.props.len() - i,
        {
            if self.props[i].0 == *k {
                return Some(i);
            }
            i = i + 1;
        }
        None
    }

    /// Position of hidden key `k`.
    pub fn find_hidden(&self, k: HiddenKey) -> (r: Option<usize>)
        ensures
            match r {
                Some(i) => first_key_at(self.view().hidden, k, i as int),
                None => !has_key(self.view().hidden, k),
            },
    {
        proof { self.lemma_view_parts(); }
        let mut i: usize = 0;
        while i < self.hidden.len()
            invariant
                i <= self.hidden.len(),
                self.view().hidden.len() == self.hidden@.len(),
                forall|j: int| 0 <= j < self.hidden@.len() ==> #[trigger] self.view().hidden[j] == (self.hidden@[j].0, self.hidden@[j].1.view()),
                forall|j: int| 0 <= j < i ==> self.view().hidden[j].0 != k,
            decreases self.hidden.len() - i,
        {
            if self.hidden[i].0 == k {
                return Some(i);
            }
            i = i + 1;
        }
        None
    }

    /// The value of the named property `k` (undefined when absent).
    pub fn named_get(&self, k: &String) -> (r: JsVal)
        ensures
            r.view() == named_get(self.view(), k@),
    {
        proof { self.lemma_view_parts(); }
        match self.find_prop(k) {
            Some(i) => {
                proof { lemma_lookup_at(self.view().props, k@, i as int); }
                self.props[i].1.duplicate()
            },
            None => JsVal::Undefined,
        }
    }

    /// The value under hidden key `k` (undefined when absent).
    pub fn get_hidden(&self, k: HiddenKey) -> (r: JsVal)
        ensures
            r.view() == hidden_get(self.view(), k),
    {
        proof { self.lemma_view_parts(); }
        match self.find_hidden(k) {
            Some(i) => {
                proof { lemma_lookup_at(self.view().hidden, k, i as int); }
                self.hidden[i].1.duplicate()
            },
            None => JsVal::Undefined,
        }
    }

    /// `Object.defineProperty(self, k, { value: v })`, non-writable, non-enumerable and
    /// non-configurable.
    pub fn define_hidden(&mut self, k: HiddenKey, v: JsVal)
        requires
            can_define(old(self).view(), k, v.view()),
        ensures
            final(self).view() == define_spec(old(self).view(), k, v.view()),
    {
        proof { self.lemma_view_parts(); }
        match self.find_hidden(k) {
            Some(_) => {},
            None => {
                let ghost before = self.view();
                self.hidden.push((k, v));
                proof {
                    self.lemma_view_parts();
                    let after = self.view();
                    assert(after.hidden =~= before.hidden.push((k, v.view())));
                    assert(after.elements =~= before.elements);
                    assert(after.props =~= before.props);
                    assert(after =~= define_spec(before, k, v.view()));
                }
            },
        }
    }

    /// `Object.freeze(self)`.
    pub fn freeze(&mut self)
        ensures
            final(self).view() == (ObjV { frozen: true, ..old(self).view() }),
    {
        let ghost before = self.view();
        proof { self.lemma_view_parts(); }
        self.frozen = true;
        proof {
            self.lemma_view_parts();
            let after = self.view();
            assert(after.elements =~= before.elements);
            assert(after.props =~= before.props);
            assert(after.hidden =~= before.hidden);
            assert(after =~= ObjV { frozen: true, ..before });
        }
    }
}


impl JsObject {
    /// Sets named property `k` to `v`: the first entry with that key is updated, or a
    /// new entry appended.
    pub fn named_set(&mut self, k: &String, v: JsVal)
        ensures
            final(self).view() == (ObjV { props: named_set(old(self).view().props, k@, v.view()), ..old(self).view() }),
    {
        let ghost before = self.view();
        proof { self.lemma_view_parts(); }
        match self.find_prop(k) {
            Some(i) => {
                proof { lemma_lookup_at(before.props, k@, i as int); }
                let key = k.clone();
                self.props.set(i, (key, v));
                proof {
                    self.lemma_view_parts();
                    let after = self.view();
                    assert(after.props =~= before.props.update(i as int, (k@, v.view())));
                    assert(after.elements =~= before.elements);
                    assert(after.hidden =~= before.hidden);
                    assert(after =~= ObjV { props: named_set(before.props, k@, v.view()), ..before });
                }
            },
            None => {
                let key = k.clone();
                self.props.push((key, v));
                proof {
                    self.lemma_view_parts();
                    let after = self.view();
                    assert(after.props =~= before.props.push((k@, v.view())));
                    assert(after.elements =~= before.elements);
                    assert(after.hidden =~= before.hidden);
                    assert(after =~= ObjV { props: named_set(before.props, k@, v.view()), ..before });
                }
            },
        }
    }

    /// Appends the named property `k` with value `v`, as defining a property on an
    /// object that does not hold it yet does.
    pub fn push_prop(&mut self, k: String, v: JsVal)
        ensures
            final(self).view() == (ObjV { props: old(self).view().props.push((k@, v.view())), ..old(self).view() }),
    {
        let ghost before = self.view();
        proof { self.lemma_view_parts(); }
        let ghost p0 = self.props@;
        let e = (k, v);
        self.props.push(e);
        proof {
            self.lemma_view_parts();
            lemma_entries_view_push(p0, e);
            let after = self.view();
            assert(after.props =~= before.props.push((k@, v.view())));
            assert(after.elements =~= before.elements);
            assert(after.hidden =~= before.hidden);
            assert(after =~= ObjV { props: before.props.push((k@, v.view())), ..before });
        }
    }

    /// `Reflect.set(self, k, v)`.
    pub fn reflect_set(&mut self, k: &PropKey, v: JsVal) -> (r: bool)
        requires
            set_in_model(old(self).view(), k.view(), v.view()),
        ensures
            (final(self).view(), r) == set_spec(old(self).view(), k.view(), v.view()),
    {
        let ghost before = self.view();
        proof { self.lemma_view_parts(); }
        if matches!(self.class, JsClass::Bytes) {
            match k {
                PropKey::Index(i) => {
                    let b = to_uint8(&v);
                    if *i < self.bytes.len() {
                        self.bytes.set(*i, b);
                        proof {
                            self.lemma_view_parts();
                            let after = self.view();
                            assert(after.elements =~= before.elements);
                            assert(after.props =~= before.props);
                            assert(after.hidden =~= before.hidden);
                            assert(after =~= ObjV { bytes: before.bytes.update(*i as int, to_uint8_spec(v.view())), ..before });
                        }
                    }
                    return true;
                },
                PropKey::Name(_) => {},
            }
        }
        if self.frozen {
            return false;
        }
        match k {
            PropKey::Index(i) => {
                let i = *i;
                if matches!(self.class, JsClass::Array) && i < 4294967295usize {
                    if i < self.elements.len() {
                        self.elements.set(i, v);
                        proof {
                            self.lemma_view_parts();
                            let after = self.view();
                            assert(after.elements =~= before.elements.update(i as int, v.view()));
                            assert(after.props =~= before.props);
                            assert(after.hidden =~= before.hidden);
                            assert(after =~= ObjV { elements: before.elements.update(i as int, v.view()), ..before });
                        }
                    } else {
                        let ghost len0 = self.elements@.len();
                        while self.elements.len() < i
                            invariant
                                len0 <= self.elements@.len() <= i,
                                self.class == before.class,
                                self.bytes@ == before.bytes,
                                self.frozen == before.frozen,
                                self.view().props == before.props,
                                self.view().hidden == before.hidden,
                                self.view().elements == before.elements + holes((self.elements@.len() - len0) as nat),
                            decreases i - self.elements.len(),
                        {
                            let ghost prev = self.view();
                            self.elements.push(JsVal::Undefined);
                            proof {
                                self.lemma_view_parts();
                                let n = (self.elements@.len() - len0) as nat;
                                assert(self.view().elements =~= before.elements + holes(n)) by {
                                    assert(self.view().elements =~= prev.elements.push(JsV::Undefined));
                                    assert(holes(n) =~= holes((n - 1) as nat).push(JsV::Undefined));
                                }
                                assert(self.view().props =~= prev.props);
                                assert(self.view().hidden =~= prev.hidden);
                            }
                        }
                        let ghost mid = self.view();
                        self.elements.push(v);
                        proof {
                            self.lemma_view_parts();
                            let after = self.view();
                            assert(after.elements =~= mid.elements.push(v.view()));
                            assert(after.props =~= mid.props);
                            assert(after.hidden =~= mid.hidden);
                            assert(after.elements =~= before.elements + holes((i - before.elements.len()) as nat) + seq![v.view()]);
                            assert(after =~= ObjV {
                                elements: before.elements + holes((i - before.elements.len()) as nat) + seq![v.view()],
                                ..before
                            });
                        }
                    }
                } else {
                    let name = decimal_string(i as u64);
                    self.named_set(&name, v);
                }
            },
            PropKey::Name(s) => {
                self.named_set(s, v);
            },
        }
        true
    }
}

impl JsObject {
    /// `Reflect.get(self, k)`.
    pub fn get_prop(&self, k: &PropKey) -> (r: JsVal)
        ensures
            get_spec(JsV::Object(self.view()), k.view()) == Some(r.view()),
    {
        proof { self.lemma_view_parts(); }
        match k {
            PropKey::Index(i) => {
                let i = *i;
                if matches!(self.class, JsClass::Array) && i < 4294967295usize {
                    if i < self.elements.len() {
                        self.elements[i].duplicate()
                    } else {
                        JsVal::Undefined
                    }
                } else if matches!(self.class, JsClass::Bytes) {
                    if i < self.bytes.len() {
                        JsVal::Number(JsNumber::Int(self.bytes[i] as i64))
                    } else {
                        JsVal::Undefined
                    }
                } else {
                    let name = decimal_string(i as u64);
                    self.named_get(&name)
                }
            },
            PropKey::Name(s) => self.named_get(s),
        }
    }
}

/// `Reflect.get(v, k)`; `None` when it throws because `v` is not an object.
pub fn reflect_get(v: &JsVal, k: &PropKey) -> (r: Option<JsVal>)
    ensures
        match r {
            Some(x) => get_spec(v.view(), k.view()) == Some(x.view()),
            None => get_spec(v.view(), k.view()) is None,
        },
{
    match v {
        JsVal::Object(o) => Some(o.get_prop(k)),
        _ => None,
    }
}


/// Viewing a sequence after a push.
pub proof fn lemma_entries_view_push(s: Seq<(String, JsVal)>, x: (String, JsVal))
    ensures
        entries_view(s.push(x)) == entries_view(s).push((x.0@, x.1.view())),
{
    assert(entries_view(s.push(x)) =~= entries_view(s).push((x.0@, x.1.view())));
}

/// Viewing a sequence after a push.
pub proof fn lemma_vals_view_push(s: Seq<JsVal>, x: JsVal)
    ensures
        vals_view(s.push(x)) == vals_view(s).push(x.view()),
{
    assert(vals_view(s.push(x)) =~= vals_view(s).push(x.view()));
}

/// Taking one more element of a sequence.
pub proof fn lemma_take_push<A>(s: Seq<A>, i: int)
    requires
        0 <= i < s.len(),
    ensures
        s.take(i + 1) == s.take(i).push(s[i]),
{
    assert(s.take(i + 1) =~= s.take(i).push(s[i]));
}

/// A deep copy of a sequence of values.
pub fn duplicate_vals(v: &Vec<JsVal>) -> (r: Vec<JsVal>)
    ensures
        vals_view(r@) == vals_view(v@),
{
    let mut out: Vec<JsVal> = Vec::new();
    let mut i: usize = 0;
    while i < v.len()
        invariant
            i <= v.len(),
            out@.len() == i,
            forall|j: int| 0 <= j < i ==> #[trigger] out@[j].view() == v@[j].view(),
        decreases v.len() - i,
    {
        out.push(v[i].duplicate());
        i = i + 1;
    }
    assert(vals_view(out@) =~= vals_view(v@));
    out
}

impl JsObject {
    /// The own enumerable string-keyed entries, as `Object.keys` and `Object.values`
    /// list them.
    pub fn entries(&self) -> (r: Vec<(String, JsVal)>)
        ensures
            entries_view(r@) == entries_spec(self.view()),
    {
        proof { self.lemma_view_parts(); }
        let ghost o = self.view();
        let mut out: Vec<(String, JsVal)> = Vec::new();
        let ghost index_part: Seq<(Seq<char>, JsV)> = if o.class is Array {
            Seq::new(o.elements.len(), |i: int| (decimal(i as nat), o.elements[i]))
        } else if o.class is Bytes {
            Seq::new(o.bytes.len(), |i: int| (decimal(i as nat), JsV::Number(JsNumber::Int(o.bytes[i] as i64))))
        } else {
            Seq::empty()
        };
        if matches!(self.class, JsClass::Array) {
            let mut i: usize = 0;
            while i < self.elements.len()
                invariant
                    o == self.view(),
                    o.elements == vals_view(self.elements@),
                    o.class is Array,
                    index_part == Seq::new(o.elements.len(), |i: int| (decimal(i as nat), o.elements[i])),
                    i <= self.elements.len(),
                    entries_view(out@) =~= index_part.take(i as int),
                    index_part.len() == self.elements@.len(),
                decreases self.elements.len() - i,
            {
                let name = decimal_string(i as u64);
                let d = self.elements[i].duplicate();
                let ghost prev = out@;
                out.push((name, d));
                proof {
                    lemma_entries_view_push(prev, (name, d));
                    lemma_take_push(index_part, i as int);
                    assert(index_part[i as int] == (decimal(i as nat), o.elements[i as int]));
                }
                i = i + 1;
            }
        } else if matches!(self.class, JsClass::Bytes) {
            let mut i: usize = 0;
            while i < self.bytes.len()
                invariant
                    o == self.view(),
                    o.bytes == self.bytes@,
                    o.class is Bytes,
                    index_part == Seq::new(o.bytes.len(), |i: int| (decimal(i as nat), JsV::Number(JsNumber::Int(o.bytes[i] as i64)))),
                    i <= self.bytes.len(),
                    entries_view(out@) =~= index_part.take(i as int),
                    index_part.len() == self.bytes@.len(),
                decreases self.bytes.len() - i,
            {
                let name = decimal_string(i as u64);
                let x = JsVal::Number(JsNumber::Int(self.bytes[i] as i64));
                let ghost prev = out@;
                out.push((name, x));
                proof {
                    lemma_entries_view_push(prev, (name, x));
                    lemma_take_push(index_part, i as int);
                }
                i = i + 1;
            }
        }
        assert(entries_view(out@) =~= index_part);
        let mut k: usize = 0;
        while k < self.props.len()
            invariant
                o == self.view(),
                o.props == entries_view(self.props@),
                k <= self.props.len(),
                entries_view(out@) =~= index_part + o.props.take(k as int),
            decreases self.props.len() - k,
        {
            let key = self.props[k].0.clone();
            let d = self.props[k].1.duplicate();
            let ghost prev = out@;
            out.push((key, d));
            proof {
                lemma_entries_view_push(prev, (key, d));
                lemma_take_push(o.props, k as int);
                assert(o.props[k as int] == (key@, d.view()));
                assert(index_part + o.props.take(k + 1) =~= (index_part + o.props.take(k as int)).push(o.props[k as int]));
            }
            k = k + 1;
        }
        assert(o.props.take(self.props.len() as int) =~= o.props);
        assert(entries_view(out@) =~= entries_spec(o));
        out
    }

    /// `Object.assign({}, self)`.
    pub fn assign_copy(&self) -> (r: JsObject)
        ensures
            r.view() == assign_copy_spec(self.view()),
    {
        let props = self.entries();
        let mut r = JsObject::new(JsClass::Plain);
        r.props = props;
        proof {
            r.lemma_view_parts();
            assert(r.view().hidden =~= Seq::<(HiddenKey, JsV)>::empty());
            assert(r.view() =~= assign_copy_spec(self.view()));
        }
        r
    }

    /// `Array.from(self)` for an array, `Object.assign({}, self)` otherwise.
    pub fn shallow_copy(&self) -> (r: JsObject)
        ensures
            r.view() == shallow_copy_spec(self.view()),
    {
        proof { self.lemma_view_parts(); }
        if matches!(self.class, JsClass::Array) {
            let elements = duplicate_vals(&self.elements);
            let mut r = JsObject::new(JsClass::Array);
            r.elements = elements;
            proof {
                r.lemma_view_parts();
                assert(r.view() =~= shallow_copy_spec(self.view()));
            }
            r
        } else {
            self.assign_copy()
        }
    }
}

/// The exception object the engine raises for a type error.
pub fn type_error() -> (r: JsVal)
    ensures
        r.view() == type_error_spec(),
{
    JsVal::Object(JsObject::new(JsClass::Error))
}


/// The description of the registered symbol under which a hidden key is stored.
pub open spec fn hidden_name(k: HiddenKey) -> Seq<char> {
    match k {
        HiddenKey::RawData => "_am_raw_value_"@,
        HiddenKey::Datatype => "_am_datatype_"@,
        HiddenKey::ObjectId => "_am_objectId"@,
        HiddenKey::Meta => "_am_meta"@,
    }
}

impl HiddenKey {
    /// The description of the registered symbol for this key.
    pub fn name(&self) -> (r: String)
        ensures
            r@ == hidden_name(*self),
    {
        match self {
            HiddenKey::RawData => "_am_raw_value_".to_owned(),
            HiddenKey::Datatype => "_am_datatype_".to_owned(),
            HiddenKey::ObjectId => "_am_objectId".to_owned(),
            HiddenKey::Meta => "_am_meta".to_owned(),
        }
    }
}

/// The view of a sequence of key/value pairs.
pub open spec fn pairs_view(s: Seq<(JsVal, JsVal)>) -> Seq<(JsV, JsV)> {
    Seq::new(s.len(), |i: int| (s[i].0.view(), s[i].1.view()))
}

/// The own properties of an object with their values, as `Reflect.ownKeys` lists the
/// keys: string keys (indices first for arrays and byte arrays), then symbols. Keys
/// that are not enumerable and hold no symbol (an array's `length`) are left out.
pub open spec fn own_pairs(o: ObjV) -> Seq<(JsV, JsV)> {
    Seq::new(entries_spec(o).len(), |i: int| (JsV::Str(entries_spec(o)[i].0), entries_spec(o)[i].1))
        + Seq::new(o.hidden.len(), |i: int| (JsV::Symbol(hidden_name(o.hidden[i].0)), o.hidden[i].1))
}

/// Viewing pairs after a push.
pub proof fn lemma_pairs_view_push(s: Seq<(JsVal, JsVal)>, x: (JsVal, JsVal))
    ensures
        pairs_view(s.push(x)) == pairs_view(s).push((x.0.view(), x.1.view())),
{
    assert(pairs_view(s.push(x)) =~= pairs_view(s).push((x.0.view(), x.1.view())));
}

impl JsObject {
    /// The own properties with their values (see `own_pairs`).
    pub fn own_pairs(&self) -> (r: Vec<(JsVal, JsVal)>)
        ensures
            pairs_view(r@) == own_pairs(self.view()),
    {
        proof { self.lemma_view_parts(); }
        let ghost o = self.view();
        let entries = self.entries();
        let ghost e = entries_spec(o);
        let mut out: Vec<(JsVal, JsVal)> = Vec::new();
        let mut i: usize = 0;
        while i < entries.len()
            invariant
                e == entries_spec(o),
                entries_view(entries@) == e,
                i <= entries.len(),
                pairs_view(out@) =~= Seq::new(i as nat, |k: int| (JsV::Str(e[k].0), e[k].1)),
            decreases entries.len() - i,
        {
            let k = entries[i].0.clone();
            let v = entries[i].1.duplicate();
            let ghost prev = out@;
            out.push((JsVal::Str(k), v));
            proof {
                lemma_pairs_view_push(prev, (JsVal::Str(k), v));
                assert(entries_view(entries@)[i as int] == (entries@[i as int].0@, entries@[i as int].1.view()));
            }
            i = i + 1;
        }
        let ghost first = pairs_view(out@);
        let mut h: usize = 0;
        while h < self.hidden.len()
            invariant
                o == self.view(),
                o.hidden.len() == self.hidden@.len(),
                forall|j: int| 0 <= j < self.hidden@.len() ==> #[trigger] o.hidden[j] == (self.hidden@[j].0, self.hidden@[j].1.view()),
                h <= self.hidden.len(),
                pairs_view(out@) =~= first + Seq::new(h as nat, |k: int| (JsV::Symbol(hidden_name(o.hidden[k].0)), o.hidden[k].1)),
            decreases self.hidden.len() - h,
        {
            let name = self.hidden[h].0.name();
            let v = self.hidden[h].1.duplicate();
            let ghost prev = out@;
            out.push((JsVal::Symbol(name), v));
            proof {
                lemma_pairs_view_push(prev, (JsVal::Symbol(name), v));
            }
            h = h + 1;
        }
        assert(pairs_view(out@) =~= own_pairs(o));
        out
    }
}


/// The entries of `p` without those under key `k`.
pub open spec fn remove_key(p: Seq<(Seq<char>, JsV)>, k: Seq<char>) -> Seq<(Seq<char>, JsV)>
    decreases p.len(),
{
    if p.len() == 0 {
        p
    } else if p.last().0 == k {
        remove_key(p.drop_last(), k)
    } else {
        remove_key(p.drop_last(), k).push(p.last())
    }
}

/// The object after `Reflect.deleteProperty(o, k)` for a named property: a frozen
/// object is left as it is.
pub open spec fn delete_spec(o: ObjV, k: Seq<char>) -> ObjV {
    if o.frozen {
        o
    } else {
        ObjV { props: remove_key(o.props, k), ..o }
    }
}

impl JsObject {
    /// `Reflect.deleteProperty(self, k)` for a named property.
    pub fn delete_named(&mut self, k: &String) -> (r: bool)
        ensures
            final(self).view() == delete_spec(old(self).view(), k@),
            r == !old(self).view().frozen,
    {
        let ghost before = self.view();
        proof { self.lemma_view_parts(); }
        if self.frozen {
            return false;
        }
        let mut out: Vec<(String, JsVal)> = Vec::new();
        let mut i: usize = 0;
        while i < self.props.len()
            invariant
                i <= self.props.len(),
                before == self.view(),
                before.props == entries_view(self.props@),
                entries_view(out@) == remove_key(before.props.take(i as int), k@),
            decreases self.props.len() - i,
        {
            proof {
                assert(before.props.take(i + 1).drop_last() =~= before.props.take(i as int));
                assert(before.props[i as int] == (self.props@[i as int].0@, self.props@[i as int].1.view()));
            }
            if self.props[i].0 != *k {
                let key = self.props[i].0.clone();
                let v = self.props[i].1.duplicate();
                let ghost prev = out@;
                out.push((key, v));
                proof { lemma_entries_view_push(prev, (key, v)); }
            }
            i = i + 1;
        }
        proof { assert(before.props.take(self.props.len() as int) =~= before.props); }
        self.props = out;
        proof {
            self.lemma_view_parts();
            let after = self.view();
            assert(after.elements =~= before.elements);
            assert(after.hidden =~= before.hidden);
            assert(after =~= delete_spec(before, k@));
        }
        true
    }
}

/// Appends deep copies of `src[from..to]` to `out`.
pub fn extend_copies(out: &mut Vec<JsVal>, src: &Vec<JsVal>, from: usize, to: usize)
    requires
        from <= to <= src@.len(),
    ensures
        vals_view(final(out)@) == vals_view(old(out)@) + vals_view(src@).subrange(from as int, to as int),
{
    let ghost start = vals_view(out@);
    let mut i = from;
    while i < to
        invariant
            from <= i <= to <= src@.len(),
            vals_view(out@) =~= start + vals_view(src@).subrange(from as int, i as int),
        decreases to - i,
    {
        let v = src[i].duplicate();
        let ghost prev = out@;
        out.push(v);
        proof {
            lemma_vals_view_push(prev, v);
            assert(vals_view(src@).subrange(from as int, i + 1) =~= vals_view(src@).subrange(from as int, i as int).push(src@[i as int].view()));
        }
        i = i + 1;
    }
}


/// After setting a named property, reading it gives the value set.
pub proof fn lemma_named_set_hits(p: Seq<(Seq<char>, JsV)>, k: Seq<char>, v: JsV)
    ensures
        lookup(named_set(p, k, v), k) == Some(v),
{
    if has_key(p, k) {
        let i = key_pos(p, k);
        let q = p.update(i, (k, v));
        assert(first_key_at(q, k, i));
        lemma_lookup_at(q, k, i);
    } else {
        lemma_lookup_push_new(p, (k, v));
    }
}

/// No entry of `remove_key(p, k)` has key `k`, and the others keep their order.
pub proof fn lemma_remove_key_absent(p: Seq<(Seq<char>, JsV)>, k: Seq<char>)
    ensures
        forall|j: int| 0 <= j < remove_key(p, k).len() ==> (#[trigger] remove_key(p, k)[j]).0 != k,
        lookup(remove_key(p, k), k) is None,
    decreases p.len(),
{
    if p.len() > 0 {
        lemma_remove_key_absent(p.drop_last(), k);
    }
    lemma_lookup_absent(remove_key(p, k), k);
}


/// Writing a value into an index within a `Uint8Array` and reading that index back
/// gives the byte the value converts to.
pub proof fn law_byte_write_then_read(o: ObjV, i: nat, v: JsV)
    requires
        o.class is Bytes,
        i < o.bytes.len(),
    ensures
        set_spec(o, KeyV::Index(i), v).1,
        get_spec(JsV::Object(set_spec(o, KeyV::Index(i), v).0), KeyV::Index(i))
            == Some(JsV::Number(JsNumber::Int(to_uint8_spec(v) as i64))),
{
}

/// After setting a property of an object that is not frozen, reading it gives the value
/// set.
pub proof fn lemma_set_then_get(o: ObjV, k: KeyV, v: JsV)
    requires
        !o.frozen,
        settable(o, k),
    ensures
        get_spec(JsV::Object(set_spec(o, k, v).0), k) == Some(v),
{
    let o2 = set_spec(o, k, v).0;
    match k {
        KeyV::Index(i) => {
            if o.class is Array && i < array_index_limit() {
                if i >= o.elements.len() {
                    assert(o2.elements[i as int] == v);
                }
            } else {
                lemma_named_set_hits(o.props, decimal(i), v);
            }
        },
        KeyV::Name(s) => {
            lemma_named_set_hits(o.props, s, v);
        },
    }
}

} // verus!
