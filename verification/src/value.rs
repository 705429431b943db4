//! Automerge values and their JavaScript forms: datatypes and their names, the
//! initial JavaScript value of each automerge value, and properties.
use vstd::prelude::*;
use vstd::arithmetic::power2::pow2;
use crate::hash::hex_encode_bytes;
use crate::js::{
    JsClass, JsNumber, JsObject, JsV, JsVal, KeyV, ObjV, PropKey, empty_obj, entries_spec,
    entries_view, vals_view,
};
use crate::num::{
    int_number, int_to_number, number_as_usize, number_to_usize, uint_number, uint_to_number,
};
use crate::sync::bytes_object;
use crate::text::{append_text, char_string, decimal, decimal_string, hex_encode, push_char};

verus! {

/// The datatype of an automerge value, as JavaScript sees it.
#[derive(Clone, Copy, PartialEq, Eq, Structural, Debug)]
pub enum Datatype {
    MapObj,
    Table,
    List,
    Text,
    Counter,
    Timestamp,
    Bytes,
    Str,
    Int,
    Uint,
    F64,
    Boolean,
    Null,
    Unknown(u8),
}

/// A datatype name was not understood.
#[derive(Debug)]
pub enum InvalidDatatype {
    /// The value was not a string.
    NotString,
    /// The string names no datatype.
    UnknownDatatype(String),
}

/// The view of `InvalidDatatype`.
pub enum DatatypeFault {
    NotString,
    UnknownDatatype(Seq<char>),
}

impl InvalidDatatype {
    pub open spec fn fault(&self) -> DatatypeFault {
        match self {
            InvalidDatatype::NotString => DatatypeFault::NotString,
            InvalidDatatype::UnknownDatatype(s) => DatatypeFault::UnknownDatatype(s@),
        }
    }
}

/// A property was neither a string nor a number.
#[derive(Debug)]
pub struct InvalidProp;

/// The name of a datatype.
pub open spec fn datatype_name(d: Datatype) -> Seq<char> {
    match d {
        Datatype::MapObj => "map"@,
        Datatype::Table => "table"@,
        Datatype::List => "list"@,
        Datatype::Text => "text"@,
        Datatype::Counter => "counter"@,
        Datatype::Timestamp => "timestamp"@,
        Datatype::Bytes => "bytes"@,
        Datatype::Str => "str"@,
        Datatype::Int => "int"@,
        Datatype::Uint => "uint"@,
        Datatype::F64 => "f64"@,
        Datatype::Boolean => "boolean"@,
        Datatype::Null => "null"@,
        Datatype::Unknown(c) => "unknown"@ + decimal(c as nat),
    }
}

/// Whether every character of `d` is an ASCII digit.
pub open spec fn all_digits(d: Seq<char>) -> bool {
    forall|i: int| 0 <= i < d.len() ==> '0' <= #[trigger] d[i] && d[i] <= '9'
}

/// The value of a string of decimal digits.
pub open spec fn digits_value(d: Seq<char>) -> nat
    decreases d.len(),
{
    if d.len() == 0 {
        0
    } else {
        digits_value(d.drop_last()) * 10 + ((d.last() as int - 48) as nat)
    }
}

/// What `str::parse::<u8>` gives: an optional `+` followed by at least one digit,
/// with a value below 256.
pub open spec fn parse_u8_spec(t: Seq<char>) -> Option<u8> {
    let d = if t.len() > 0 && t[0] == '+' {
        t.drop_first()
    } else {
        t
    };
    if d.len() == 0 || !all_digits(d) || digits_value(d) > 255 {
        None
    } else {
        Some(digits_value(d) as u8)
    }
}

/// The datatype a name stands for, if any.
pub open spec fn datatype_of_name(s: Seq<char>) -> Option<Datatype> {
    if s == "map"@ {
        Some(Datatype::MapObj)
    } else if s == "table"@ {
        Some(Datatype::Table)
    } else if s == "list"@ {
        Some(Datatype::List)
    } else if s == "text"@ {
        Some(Datatype::Text)
    } else if s == "counter"@ {
        Some(Datatype::Counter)
    } else if s == "timestamp"@ {
        Some(Datatype::Timestamp)
    } else if s == "bytes"@ {
        Some(Datatype::Bytes)
    } else if s == "str"@ {
        Some(Datatype::Str)
    } else if s == "int"@ {
        Some(Datatype::Int)
    } else if s == "uint"@ {
        Some(Datatype::Uint)
    } else if s == "f64"@ {
        Some(Datatype::F64)
    } else if s == "boolean"@ {
        Some(Datatype::Boolean)
    } else if s == "null"@ {
        Some(Datatype::Null)
    } else if s.len() >= 7 && s.take(7) == "unknown"@ && parse_u8_spec(s.skip(7)) is Some {
        Some(Datatype::Unknown(parse_u8_spec(s.skip(7)).unwrap()))
    } else {
        None
    }
}

/// Whether `a` and `b` hold the same text.
fn same_text(a: &String, b: &str) -> (r: bool)
    ensures
        r == (a@ == b@),
{
    *a == b.to_owned()
}

/// The characters of a string.
pub fn chars_of(s: &String) -> (r: Vec<char>)
    ensures
        r@ == s@,
{
    let mut out: Vec<char> = Vec::new();
    for c in it: s.as_str().chars()
        invariant
            out@ == it.seq().take(it.index() as int),
            it.seq() == s@,
    {
        out.push(c);
    }
    out
}

/// Appending a digit to a string of digits.
proof fn lemma_digits_value_push(d: Seq<char>, c: char)
    ensures
        digits_value(d.push(c)) == digits_value(d) * 10 + ((c as int - 48) as nat),
{
    assert(d.push(c).drop_last() =~= d);
}

/// A longer prefix of digits is worth at least as much.
proof fn lemma_digits_value_grows(d: Seq<char>, i: int)
    requires
        0 <= i <= d.len(),
        all_digits(d),
    ensures
        digits_value(d.take(i)) <= digits_value(d),
    decreases d.len() - i,
{
    if i < d.len() {
        lemma_digits_value_grows(d, i + 1);
        assert(d.take(i + 1) =~= d.take(i).push(d[i]));
        lemma_digits_value_push(d.take(i), d[i]);
    } else {
        assert(d.take(i) =~= d);
    }
}

/// `str::parse::<u8>` on the characters `t[from..]`.
fn parse_u8_from(t: &Vec<char>, from: usize) -> (r: Option<u8>)
    requires
        from <= t@.len(),
    ensures
        r == parse_u8_spec(t@.skip(from as int)),
{
    let ghost full = t@.skip(from as int);
    let ghost d = if full.len() > 0 && full[0] == '+' { full.drop_first() } else { full };
    let mut start = from;
    if start < t.len() && t[start] == '+' {
        start = start + 1;
    }
    assert(d =~= t@.skip(start as int));
    if start == t.len() {
        return None;
    }
    let mut value: u32 = 0;
    let mut i = start;
    while i < t.len()
        invariant
            start <= i <= t@.len(),
            full == t@.skip(from as int),
            d == t@.skip(start as int),
            d == (if full.len() > 0 && full[0] == '+' { full.drop_first() } else { full }),
            value <= 255,
            value as nat == digits_value(d.take(i - start)),
            all_digits(d.take(i - start)),
        decreases t.len() - i,
    {
        let c = t[i];
        proof {
            assert(d.take(i - start + 1) =~= d.take(i - start).push(c));
            lemma_digits_value_push(d.take(i - start), c);
        }
        if c < '0' || c > '9' {
            proof {
                assert(!all_digits(d)) by {
                    assert(d[i - start] == c);
                }
            }
            return None;
        }
        let digit = (c as u32) - 48;
        value = value * 10 + digit;
        i = i + 1;
        if value > 255 {
            proof {
                assert(digits_value(d.take(i - start)) > 255);
                if all_digits(d) {
                    lemma_digits_value_grows(d, i - start);
                }
                assert(parse_u8_spec(full) is None);
            }
            return None;
        }
    }
    proof {
        assert(d.take(i - start) =~= d);
    }
    Some(value as u8)
}

/// The datatype a name stands for (the string reading of `Datatype`).
pub fn datatype_of_text(s: &String) -> (r: Option<Datatype>)
    ensures
        r == datatype_of_name(s@),
{
    if same_text(s, "map") {
        Some(Datatype::MapObj)
    } else if same_text(s, "table") {
        Some(Datatype::Table)
    } else if same_text(s, "list") {
        Some(Datatype::List)
    } else if same_text(s, "text") {
        Some(Datatype::Text)
    } else if same_text(s, "counter") {
        Some(Datatype::Counter)
    } else if same_text(s, "timestamp") {
        Some(Datatype::Timestamp)
    } else if same_text(s, "bytes") {
        Some(Datatype::Bytes)
    } else if same_text(s, "str") {
        Some(Datatype::Str)
    } else if same_text(s, "int") {
        Some(Datatype::Int)
    } else if same_text(s, "uint") {
        Some(Datatype::Uint)
    } else if same_text(s, "f64") {
        Some(Datatype::F64)
    } else if same_text(s, "boolean") {
        Some(Datatype::Boolean)
    } else if same_text(s, "null") {
        Some(Datatype::Null)
    } else {
        let cs = chars_of(s);
        if cs.len() < 7 {
            return None;
        }
        proof { reveal_strlit("unknown"); }
        let is_unknown = cs[0] == 'u' && cs[1] == 'n' && cs[2] == 'k' && cs[3] == 'n'
            && cs[4] == 'o' && cs[5] == 'w' && cs[6] == 'n';
        if !is_unknown {
            proof {
                if s@.take(7) == "unknown"@ {
                    assert(s@.take(7)[0] == 'u' && s@.take(7)[1] == 'n' && s@.take(7)[2] == 'k');
                    assert(s@.take(7)[3] == 'n' && s@.take(7)[4] == 'o' && s@.take(7)[5] == 'w');
                    assert(s@.take(7)[6] == 'n');
                }
            }
            return None;
        }
        assert(s@.take(7) =~= "unknown"@);
        match parse_u8_from(&cs, 7) {
            Some(c) => Some(Datatype::Unknown(c)),
            None => None,
        }
    }
}

impl Datatype {
    /// The name of the datatype.
    pub fn name(&self) -> (r: String)
        ensures
            r@ == datatype_name(*self),
    {
        match self {
            Datatype::MapObj => "map".to_owned(),
            Datatype::Table => "table".to_owned(),
            Datatype::List => "list".to_owned(),
            Datatype::Text => "text".to_owned(),
            Datatype::Counter => "counter".to_owned(),
            Datatype::Timestamp => "timestamp".to_owned(),
            Datatype::Bytes => "bytes".to_owned(),
            Datatype::Str => "str".to_owned(),
            Datatype::Int => "int".to_owned(),
            Datatype::Uint => "uint".to_owned(),
            Datatype::F64 => "f64".to_owned(),
            Datatype::Boolean => "boolean".to_owned(),
            Datatype::Null => "null".to_owned(),
            Datatype::Unknown(c) => {
                let mut s = "unknown".to_owned();
                let digits = chars_of(&decimal_string(*c as u64));
                let mut i: usize = 0;
                while i < digits.len()
                    invariant
                        i <= digits@.len(),
                        digits@ == decimal(*c as nat),
                        s@ == "unknown"@ + digits@.take(i as int),
                    decreases digits.len() - i,
                {
                    push_char(&mut s, digits[i]);
                    assert(digits@.take(i + 1) =~= digits@.take(i as int).push(digits@[i as int]));
                    i = i + 1;
                }
                assert(digits@.take(digits@.len() as int) =~= digits@);
                s
            },
        }
    }

    /// Whether values of this datatype are sequences (lists and text).
    pub fn is_sequence(&self) -> (r: bool)
        ensures
            r == (*self == Datatype::List || *self == Datatype::Text),
    {
        matches!(self, Datatype::List | Datatype::Text)
    }
}

/// The JavaScript value of a datatype: its name.
pub open spec fn datatype_js(d: Datatype) -> JsV {
    JsV::Str(datatype_name(d))
}

/// The JavaScript value of a datatype: its name.
pub fn datatype_to_js(d: Datatype) -> (r: JsVal)
    ensures
        r.view() == datatype_js(d),
{
    JsVal::Str(d.name())
}

/// What reading a datatype from a JavaScript value gives.
pub open spec fn datatype_from_js_spec(v: JsV) -> Option<Datatype> {
    match v {
        JsV::Str(s) => datatype_of_name(s),
        _ => None,
    }
}

/// Reads a datatype from its name.
pub fn datatype_from_js(v: &JsVal) -> (r: Result<Datatype, InvalidDatatype>)
    ensures
        match r {
            Ok(d) => datatype_from_js_spec(v.view()) == Some(d),
            Err(e) => datatype_from_js_spec(v.view()) is None && (e is NotString <==> !(v.view() is Str)),
        },
{
    match v {
        JsVal::Str(s) => match datatype_of_text(s) {
            Some(d) => Ok(d),
            None => Err(InvalidDatatype::UnknownDatatype(s.clone())),
        },
        _ => Err(InvalidDatatype::NotString),
    }
}


/// The type of an automerge object.
#[derive(Clone, Copy, PartialEq, Eq, Structural, Debug)]
pub enum ObjType {
    MapObj,
    Table,
    List,
    Text,
}

/// The datatype of objects of a type.
pub open spec fn objtype_datatype(t: ObjType) -> Datatype {
    match t {
        ObjType::MapObj => Datatype::MapObj,
        ObjType::Table => Datatype::Table,
        ObjType::List => Datatype::List,
        ObjType::Text => Datatype::Text,
    }
}

/// The datatype of objects of a type.
pub fn datatype_of_objtype(t: ObjType) -> (r: Datatype)
    ensures
        r == objtype_datatype(t),
{
    match t {
        ObjType::MapObj => Datatype::MapObj,
        ObjType::Table => Datatype::Table,
        ObjType::List => Datatype::List,
        ObjType::Text => Datatype::Text,
    }
}

/// An automerge scalar value.
#[derive(Debug, PartialEq)]
pub enum ScalarValue {
    Bytes(Vec<u8>),
    Str(String),
    Int(i64),
    Uint(u64),
    /// A double, by its IEEE-754 bit pattern.
    F64(u64),
    /// A counter, by its current value.
    Counter(i64),
    /// Milliseconds since the epoch.
    Timestamp(i64),
    Boolean(bool),
    Null,
    /// A value of a type from a later version of automerge.
    Unknown { type_code: u8, bytes: Vec<u8> },
}

/// An automerge value: an object of some type, or a scalar.
#[derive(Debug, PartialEq)]
pub enum Value {
    Object(ObjType),
    Scalar(ScalarValue),
}

/// Where a value sits in its parent: under a key of a map, or at an index of a sequence.
#[derive(Debug, PartialEq)]
pub enum Prop {
    Key(String),
    Index(usize),
}

/// The view of a `Prop`.
pub enum PropV {
    Key(Seq<char>),
    Index(nat),
}

impl Prop {
    pub open spec fn view(&self) -> PropV {
        match self {
            Prop::Key(k) => PropV::Key(k@),
            Prop::Index(i) => PropV::Index(*i as nat),
        }
    }
}

/// The id of an automerge object: the root, or the operation that created it (its
/// counter and the actor that made it).
#[derive(Debug, PartialEq)]
pub enum ObjId {
    Root,
    Id { counter: u64, actor: Vec<u8> },
}

/// The text of an object id: `_root`, or `counter@actor` with the actor in hexadecimal.
pub open spec fn obj_id_text(id: &ObjId) -> Seq<char> {
    match id {
        ObjId::Root => "_root"@,
        ObjId::Id { counter, actor } => decimal(*counter as nat) + seq!['@'] + hex_encode(actor@),
    }
}

impl ObjId {
    /// The text of the id, as automerge displays an object id.
    pub fn to_text(&self) -> (r: String)
        ensures
            r@ == obj_id_text(self),
    {
        match self {
            ObjId::Root => "_root".to_owned(),
            ObjId::Id { counter, actor } => {
                let mut s = decimal_string(*counter);
                push_char(&mut s, '@');
                let h = hex_encode_bytes(actor.as_slice());
                append_text(&mut s, h.as_str());
                s
            },
        }
    }
}

/// The time value of `new Date(t as f64)`: the milliseconds themselves within
/// 8.64e15 of the epoch, and NaN (an invalid date) beyond. Within that range the
/// double holds `t` exactly, and beyond it rounding keeps the magnitude beyond.
pub open spec fn time_value(t: i64) -> JsNumber {
    if -8_640_000_000_000_000 <= t <= 8_640_000_000_000_000 {
        JsNumber::Int(t)
    } else {
        JsNumber::Float(0x7FF8_0000_0000_0000)
    }
}

/// A timestamp within 8.64e15 milliseconds of the epoch, before it as well as after,
/// is exported as a `Date` whose time value is exactly that many milliseconds; one
/// further out is exported as an invalid `Date`, whose time value is NaN.
pub proof fn law_timestamp_date(t: i64)
    ensures
        -8_640_000_000_000_000 <= t <= 8_640_000_000_000_000 ==> alloc_spec(&Value::Scalar(ScalarValue::Timestamp(t)))
            == (Datatype::Timestamp, JsV::Object(empty_obj(JsClass::Date(JsNumber::Int(t))))),
        !(-8_640_000_000_000_000 <= t <= 8_640_000_000_000_000) ==> (alloc_spec(&Value::Scalar(ScalarValue::Timestamp(t)))
            matches (Datatype::Timestamp, JsV::Object(o)) && o == empty_obj(o.class)
            && (o.class matches JsClass::Date(JsNumber::Float(b)) && crate::num::is_nan(b))),
{
    vstd::arithmetic::power2::lemma2_to64();
    vstd::arithmetic::power2::lemma2_to64_rest();
    let b: u64 = 0x7FF8_0000_0000_0000;
    assert(crate::num::exp_field(b) == 2047);
    assert(crate::num::frac_field(b) != 0);
}

/// Each scalar is exported as the JavaScript value that holds it, with its own
/// datatype: a string as that string, bytes as a new `Uint8Array` of them, a boolean,
/// null, a double as itself, and an integer (`Int`, `Uint`, `Counter`) within 2^53 of
/// zero as exactly that integer.
pub proof fn law_alloc_scalars(s: ScalarValue)
    ensures
        s matches ScalarValue::Str(t) ==> alloc_spec(&Value::Scalar(s)) == (Datatype::Str, JsV::Str(t@)),
        s matches ScalarValue::Bytes(b) ==> alloc_spec(&Value::Scalar(s))
            == (Datatype::Bytes, JsV::Object(ObjV { bytes: b@, ..empty_obj(JsClass::Bytes) })),
        s matches ScalarValue::Boolean(b) ==> alloc_spec(&Value::Scalar(s)) == (Datatype::Boolean, JsV::Bool(b)),
        s matches ScalarValue::Null ==> alloc_spec(&Value::Scalar(s)) == (Datatype::Null, JsV::Null),
        s matches ScalarValue::F64(b) ==> alloc_spec(&Value::Scalar(s)) == (Datatype::F64, JsV::Number(JsNumber::Float(b))),
        s matches ScalarValue::Int(i) ==> (-0x20_0000_0000_0000 <= i <= 0x20_0000_0000_0000 ==>
            alloc_spec(&Value::Scalar(s)) == (Datatype::Int, JsV::Number(JsNumber::Int(i)))),
        s matches ScalarValue::Counter(i) ==> (-0x20_0000_0000_0000 <= i <= 0x20_0000_0000_0000 ==>
            alloc_spec(&Value::Scalar(s)) == (Datatype::Counter, JsV::Number(JsNumber::Int(i)))),
        s matches ScalarValue::Uint(u) ==> (u <= 0x20_0000_0000_0000 ==>
            alloc_spec(&Value::Scalar(s)) == (Datatype::Uint, JsV::Number(JsNumber::Uint(u)))),
{
    vstd::arithmetic::power2::lemma2_to64();
    vstd::arithmetic::power2::lemma2_to64_rest();
    match s {
        ScalarValue::Int(i) => {
            if -0x20_0000_0000_0000 <= i <= 0x20_0000_0000_0000 {
                crate::num::law_small_integers_exact(i as int);
            }
        },
        ScalarValue::Counter(i) => {
            if -0x20_0000_0000_0000 <= i <= 0x20_0000_0000_0000 {
                crate::num::law_small_integers_exact(i as int);
            }
        },
        ScalarValue::Uint(u) => {
            if u <= 0x20_0000_0000_0000 {
                crate::num::law_small_integers_exact(u as int);
            }
        },
        _ => {},
    }
}

/// The time value of `new Date(t as f64)` (see `time_value`).
pub fn time_clip(t: i64) -> (r: JsNumber)
    ensures
        r == time_value(t),
{
    if -8_640_000_000_000_000 <= t && t <= 8_640_000_000_000_000 {
        JsNumber::Int(t)
    } else {
        JsNumber::Float(0x7FF8_0000_0000_0000)
    }
}

/// The JavaScript value an automerge value starts out as, with its datatype.
pub open spec fn alloc_spec(v: &Value) -> (Datatype, JsV) {
    match v {
        Value::Object(t) => match t {
            ObjType::MapObj => (Datatype::MapObj, JsV::Object(empty_obj(JsClass::Plain))),
            ObjType::Table => (Datatype::Table, JsV::Object(empty_obj(JsClass::Plain))),
            ObjType::List => (Datatype::List, JsV::Object(empty_obj(JsClass::Array))),
            ObjType::Text => (Datatype::Text, JsV::Object(empty_obj(JsClass::Array))),
        },
        Value::Scalar(s) => match s {
            ScalarValue::Bytes(b) => (Datatype::Bytes, JsV::Object(bytes_obj(b@))),
            ScalarValue::Str(t) => (Datatype::Str, JsV::Str(t@)),
            ScalarValue::Int(i) => (Datatype::Int, JsV::Number(int_number(*i as int))),
            ScalarValue::Uint(u) => (Datatype::Uint, JsV::Number(uint_number(*u as int))),
            ScalarValue::F64(b) => (Datatype::F64, JsV::Number(JsNumber::Float(*b))),
            ScalarValue::Counter(c) => (Datatype::Counter, JsV::Number(int_number(*c as int))),
            ScalarValue::Timestamp(t) => (
                Datatype::Timestamp,
                JsV::Object(empty_obj(JsClass::Date(time_value(*t)))),
            ),
            ScalarValue::Boolean(b) => (Datatype::Boolean, JsV::Bool(*b)),
            ScalarValue::Null => (Datatype::Null, JsV::Null),
            ScalarValue::Unknown { type_code, bytes } => (
                Datatype::Unknown(*type_code),
                JsV::Object(bytes_obj(bytes@)),
            ),
        },
    }
}

/// A new `Uint8Array` holding `b`.
pub open spec fn bytes_obj(b: Seq<u8>) -> ObjV {
    ObjV { bytes: b, ..empty_obj(JsClass::Bytes) }
}

/// Allocates the JavaScript value an automerge value starts out as: an empty object
/// or array for an object, the scalar itself otherwise (a `Date` for a timestamp, a
/// `Uint8Array` for bytes).
pub fn alloc_value(v: &Value) -> (r: (Datatype, JsVal))
    ensures
        (r.0, r.1.view()) == alloc_spec(v),
{
    match v {
        Value::Object(t) => match t {
            ObjType::MapObj => (Datatype::MapObj, JsVal::Object(JsObject::new(JsClass::Plain))),
            ObjType::Table => (Datatype::Table, JsVal::Object(JsObject::new(JsClass::Plain))),
            ObjType::List => (Datatype::List, JsVal::Object(JsObject::new(JsClass::Array))),
            ObjType::Text => (Datatype::Text, JsVal::Object(JsObject::new(JsClass::Array))),
        },
        Value::Scalar(s) => alloc_scalar(s),
    }
}

/// Allocates the JavaScript value of a scalar (see `alloc_value`).
pub fn alloc_scalar(s: &ScalarValue) -> (r: (Datatype, JsVal))
    ensures
        (r.0, r.1.view()) == alloc_spec(&Value::Scalar(*s)),
{
    match s {
        ScalarValue::Bytes(b) => (Datatype::Bytes, JsVal::Object(bytes_object(b.clone()))),
        ScalarValue::Str(t) => (Datatype::Str, JsVal::Str(t.clone())),
        ScalarValue::Int(i) => (Datatype::Int, JsVal::Number(int_to_number(*i))),
        ScalarValue::Uint(u) => (Datatype::Uint, JsVal::Number(uint_to_number(*u))),
        ScalarValue::F64(b) => (Datatype::F64, JsVal::Number(JsNumber::Float(*b))),
        ScalarValue::Counter(c) => (Datatype::Counter, JsVal::Number(int_to_number(*c))),
        ScalarValue::Timestamp(t) => (
            Datatype::Timestamp,
            JsVal::Object(JsObject::new(JsClass::Date(time_clip(*t)))),
        ),
        ScalarValue::Boolean(b) => (Datatype::Boolean, JsVal::Bool(*b)),
        ScalarValue::Null => (Datatype::Null, JsVal::Null),
        ScalarValue::Unknown { type_code, bytes } => (
            Datatype::Unknown(*type_code),
            JsVal::Object(bytes_object(bytes.clone())),
        ),
    }
}

/// What reading a property from a JavaScript value gives: a string is a map key, a
/// number an index (converted as `as usize` converts a double).
pub open spec fn to_prop_spec(v: JsV) -> Option<PropV> {
    match v {
        JsV::Str(s) => Some(PropV::Key(s)),
        JsV::Number(n) => Some(PropV::Index(number_to_usize(n) as nat)),
        _ => None,
    }
}

/// Reads a property from a JavaScript value.
pub fn to_prop(p: &JsVal) -> (r: Result<Prop, InvalidProp>)
    ensures
        match r {
            Ok(q) => to_prop_spec(p.view()) == Some(q.view()),
            Err(_) => to_prop_spec(p.view()) is None,
        },
{
    match p {
        JsVal::Str(s) => Ok(Prop::Key(s.clone())),
        JsVal::Number(n) => Ok(Prop::Index(number_as_usize(*n))),
        _ => Err(InvalidProp),
    }
}

/// The JavaScript property key of a property: the key itself, or the index.
pub open spec fn prop_key_spec(p: PropV) -> KeyV {
    match p {
        PropV::Key(k) => KeyV::Name(k),
        PropV::Index(i) => KeyV::Index(i),
    }
}

/// The JavaScript value of a property key: a name is a string, an index the number
/// `i as f64` makes of it.
pub open spec fn key_value(k: KeyV) -> JsV {
    match k {
        KeyV::Name(s) => JsV::Str(s),
        KeyV::Index(i) => JsV::Number(uint_number(i as int)),
    }
}

impl PropKey {
    /// The JavaScript value of this key (see `key_value`).
    pub fn to_js(&self) -> (r: JsVal)
        ensures
            r.view() == key_value(self.view()),
    {
        match self {
            PropKey::Name(s) => JsVal::Str(s.clone()),
            PropKey::Index(i) => JsVal::Number(uint_to_number(*i as u64)),
        }
    }
}

/// Reading back the JavaScript value of a property's key gives the property: a map key
/// always, and an index up to 2^53, which a double holds exactly.
pub proof fn law_prop_round_trip(p: PropV)
    requires
        p matches PropV::Index(i) ==> i <= pow2(53) && i <= usize::MAX,
    ensures
        to_prop_spec(key_value(prop_key_spec(p))) == Some(p),
{
    if let PropV::Index(i) = p {
        crate::num::law_small_integers_exact(i as int);
    }
}

/// The JavaScript property key of a property.
pub fn prop_to_js(p: &Prop) -> (r: PropKey)
    ensures
        r.view() == prop_key_spec(p.view()),
{
    match p {
        Prop::Key(k) => PropKey::Name(k.clone()),
        Prop::Index(i) => PropKey::Index(*i),
    }
}


/// The view of a sequence of properties with their values.
pub open spec fn prop_entries_view(s: Seq<(Prop, JsVal)>) -> Seq<(PropV, JsV)> {
    Seq::new(s.len(), |i: int| (s[i].0.view(), s[i].1.view()))
}

/// The entries of an object read as a map: its own enumerable string keys with their
/// values (`Object.keys` with `Object.values`).
pub open spec fn map_entries(o: ObjV) -> Seq<(PropV, JsV)> {
    Seq::new(entries_spec(o).len(), |i: int| (PropV::Key(entries_spec(o)[i].0), entries_spec(o)[i].1))
}

/// The entries of an array read as a list: each element under its index.
pub open spec fn list_entries(elements: Seq<JsV>) -> Seq<(PropV, JsV)> {
    Seq::new(elements.len(), |i: int| (PropV::Index(i as nat), elements[i]))
}

/// The entries of a string read as text: each character, as a string, under its index.
pub open spec fn text_entries(t: Seq<char>) -> Seq<(PropV, JsV)> {
    Seq::new(t.len(), |i: int| (PropV::Index(i as nat), JsV::Str(seq![t[i]])))
}

/// `v` read as a map, if it is an object.
pub open spec fn as_map(v: JsV) -> Option<(ObjType, Seq<(PropV, JsV)>)> {
    match v {
        JsV::Object(o) => Some((ObjType::MapObj, map_entries(o))),
        _ => None,
    }
}

/// `v` read as a list, if it is an array.
pub open spec fn as_list(v: JsV) -> Option<(ObjType, Seq<(PropV, JsV)>)> {
    match v {
        JsV::Object(o) => if o.class is Array {
            Some((ObjType::List, list_entries(o.elements)))
        } else {
            None
        },
        _ => None,
    }
}

/// `v` read as text, if it is a string.
pub open spec fn as_text(v: JsV) -> Option<(ObjType, Seq<(PropV, JsV)>)> {
    match v {
        JsV::Str(t) => Some((ObjType::Text, text_entries(t))),
        _ => None,
    }
}

/// A string read as text, whether the datatype "text" asks for it or none is given,
/// becomes text whose entry `i` is the `i`-th character of the string, at index `i`.
pub proof fn law_string_as_text(t: Seq<char>)
    ensures
        objtype_spec(JsV::Str(t), Some("text"@))
            == Some((ObjType::Text, Seq::new(t.len(), |i: int| (PropV::Index(i as nat), JsV::Str(seq![t[i]]))))),
        objtype_spec(JsV::Str(t), None)
            == Some((ObjType::Text, Seq::new(t.len(), |i: int| (PropV::Index(i as nat), JsV::Str(seq![t[i]]))))),
{
    reveal_strlit("text");
    reveal_strlit("map");
    reveal_strlit("list");
    assert("text"@ != "map"@) by { assert("text"@[0] != "map"@[0]); }
    assert("text"@ != "list"@) by { assert("text"@[0] != "list"@[0]); }
    let e = Seq::new(t.len(), |i: int| (PropV::Index(i as nat), JsV::Str(seq![t[i]])));
    assert(text_entries(t) =~= e);
}

/// An array read as a list, whether the datatype "list" asks for it or none is given,
/// becomes a list whose entry `i` is the array's element `i`, at index `i`.
pub proof fn law_array_as_list(a: ObjV)
    requires
        a.class is Array,
    ensures
        objtype_spec(JsV::Object(a), Some("list"@))
            == Some((ObjType::List, Seq::new(a.elements.len(), |i: int| (PropV::Index(i as nat), a.elements[i])))),
        objtype_spec(JsV::Object(a), None)
            == Some((ObjType::List, Seq::new(a.elements.len(), |i: int| (PropV::Index(i as nat), a.elements[i])))),
{
    reveal_strlit("map");
    reveal_strlit("list");
    assert("list"@ != "map"@) by { assert("list"@[0] != "map"@[0]); }
    assert(list_entries(a.elements) =~= Seq::new(a.elements.len(), |i: int| (PropV::Index(i as nat), a.elements[i])));
}

/// An ordinary object read as a map, whether the datatype "map" asks for it or none is
/// given, becomes a map with each of the object's own properties under its name, in
/// the object's order.
pub proof fn law_object_as_map(o: ObjV)
    requires
        o.class is Plain,
    ensures
        objtype_spec(JsV::Object(o), Some("map"@))
            == Some((ObjType::MapObj, Seq::new(o.props.len(), |i: int| (PropV::Key(o.props[i].0), o.props[i].1)))),
        objtype_spec(JsV::Object(o), None)
            == Some((ObjType::MapObj, Seq::new(o.props.len(), |i: int| (PropV::Key(o.props[i].0), o.props[i].1)))),
{
    reveal_strlit("map");
    assert(map_entries(o) =~= Seq::new(o.props.len(), |i: int| (PropV::Key(o.props[i].0), o.props[i].1)));
}

/// The automerge object a JavaScript value becomes, with its initial contents.
///
/// A datatype of "map", "list" or "text" asks for that reading of the value, and any
/// other datatype gives none. Without a datatype an array is a list, any other object a
/// map, and a string text.
pub open spec fn objtype_spec(v: JsV, datatype: Option<Seq<char>>) -> Option<(ObjType, Seq<(PropV, JsV)>)> {
    match datatype {
        Some(d) => if d == "map"@ {
            as_map(v)
        } else if d == "list"@ {
            as_list(v)
        } else if d == "text"@ {
            as_text(v)
        } else {
            None
        },
        None => if as_list(v) is Some {
            as_list(v)
        } else if as_map(v) is Some {
            as_map(v)
        } else {
            as_text(v)
        },
    }
}

/// The entries of an object read as a map.
fn map_entries_of(o: &JsObject) -> (r: Vec<(Prop, JsVal)>)
    ensures
        prop_entries_view(r@) == map_entries(o.view()),
{
    let entries = o.entries();
    let ghost e = entries_spec(o.view());
    let mut out: Vec<(Prop, JsVal)> = Vec::new();
    let mut i: usize = 0;
    while i < entries.len()
        invariant
            i <= entries.len(),
            e == entries_spec(o.view()),
            entries_view(entries@) == e,
            prop_entries_view(out@) =~= map_entries(o.view()).take(i as int),
        decreases entries.len() - i,
    {
        let k = entries[i].0.clone();
        let v = entries[i].1.duplicate();
        let ghost prev = out@;
        out.push((Prop::Key(k), v));
        proof {
            assert(entries_view(entries@)[i as int] == (entries@[i as int].0@, entries@[i as int].1.view()));
            assert(prop_entries_view(out@) =~= prop_entries_view(prev).push((PropV::Key(k@), v.view())));
            assert(map_entries(o.view()).take(i + 1) =~= map_entries(o.view()).take(i as int).push(map_entries(o.view())[i as int]));
        }
        i = i + 1;
    }
    assert(map_entries(o.view()).take(entries.len() as int) =~= map_entries(o.view()));
    out
}

/// The elements of an array read as a list.
fn list_entries_of(o: &JsObject) -> (r: Vec<(Prop, JsVal)>)
    ensures
        prop_entries_view(r@) == list_entries(o.view().elements),
{
    proof { o.lemma_view_parts(); }
    let ghost els = o.view().elements;
    let mut out: Vec<(Prop, JsVal)> = Vec::new();
    let mut i: usize = 0;
    while i < o.elements.len()
        invariant
            i <= o.elements.len(),
            els == vals_view(o.elements@),
            prop_entries_view(out@) =~= list_entries(els).take(i as int),
        decreases o.elements.len() - i,
    {
        let v = o.elements[i].duplicate();
        let ghost prev = out@;
        out.push((Prop::Index(i), v));
        proof {
            assert(prop_entries_view(out@) =~= prop_entries_view(prev).push((PropV::Index(i as nat), v.view())));
            assert(list_entries(els).take(i + 1) =~= list_entries(els).take(i as int).push(list_entries(els)[i as int]));
        }
        i = i + 1;
    }
    assert(list_entries(els).take(o.elements.len() as int) =~= list_entries(els));
    out
}

/// The characters of a string read as text.
fn text_entries_of(t: &String) -> (r: Vec<(Prop, JsVal)>)
    ensures
        prop_entries_view(r@) == text_entries(t@),
{
    let cs = chars_of(t);
    let mut out: Vec<(Prop, JsVal)> = Vec::new();
    let mut i: usize = 0;
    while i < cs.len()
        invariant
            i <= cs.len(),
            cs@ == t@,
            prop_entries_view(out@) =~= text_entries(t@).take(i as int),
        decreases cs.len() - i,
    {
        let c = char_string(cs[i]);
        let ghost prev = out@;
        out.push((Prop::Index(i), JsVal::Str(c)));
        proof {
            assert(prop_entries_view(out@) =~= prop_entries_view(prev).push((PropV::Index(i as nat), JsV::Str(c@))));
            assert(text_entries(t@).take(i + 1) =~= text_entries(t@).take(i as int).push(text_entries(t@)[i as int]));
        }
        i = i + 1;
    }
    assert(text_entries(t@).take(cs.len() as int) =~= text_entries(t@));
    out
}

/// Reads an object as a map.
fn read_map(v: &JsVal) -> (r: Option<(ObjType, Vec<(Prop, JsVal)>)>)
    ensures
        match r {
            Some(x) => as_map(v.view()) == Some((x.0, prop_entries_view(x.1@))),
            None => as_map(v.view()) is None,
        },
{
    match v {
        JsVal::Object(o) => Some((ObjType::MapObj, map_entries_of(o))),
        _ => None,
    }
}

/// Reads an array as a list.
fn read_list(v: &JsVal) -> (r: Option<(ObjType, Vec<(Prop, JsVal)>)>)
    ensures
        match r {
            Some(x) => as_list(v.view()) == Some((x.0, prop_entries_view(x.1@))),
            None => as_list(v.view()) is None,
        },
{
    match v {
        JsVal::Object(o) => if matches!(o.class, JsClass::Array) {
            Some((ObjType::List, list_entries_of(o)))
        } else {
            None
        },
        _ => None,
    }
}

/// Reads a string as text.
fn read_text(v: &JsVal) -> (r: Option<(ObjType, Vec<(Prop, JsVal)>)>)
    ensures
        match r {
            Some(x) => as_text(v.view()) == Some((x.0, prop_entries_view(x.1@))),
            None => as_text(v.view()) is None,
        },
{
    match v {
        JsVal::Str(t) => Some((ObjType::Text, text_entries_of(t))),
        _ => None,
    }
}

/// The automerge object a JavaScript value becomes, with its initial contents (see
/// `objtype_spec`).
pub fn to_objtype(value: &JsVal, datatype: &Option<String>) -> (r: Option<(ObjType, Vec<(Prop, JsVal)>)>)
    ensures
        match r {
            Some(x) => objtype_spec(value.view(), opt_text(datatype)) == Some((x.0, prop_entries_view(x.1@))),
            None => objtype_spec(value.view(), opt_text(datatype)) is None,
        },
{
    match datatype {
        Some(d) => {
            if same_text(d, "map") {
                read_map(value)
            } else if same_text(d, "list") {
                read_list(value)
            } else if same_text(d, "text") {
                read_text(value)
            } else {
                None
            }
        },
        None => {
            let list = read_list(value);
            if list.is_some() {
                return list;
            }
            let map = read_map(value);
            if map.is_some() {
                return map;
            }
            read_text(value)
        },
    }
}

/// The view of an optional string.
pub open spec fn opt_text(s: &Option<String>) -> Option<Seq<char>> {
    match s {
        Some(t) => Some(t@),
        None => None,
    }
}


/// Every character of a decimal rendering is a digit, and the digits are worth the
/// number rendered.
pub proof fn lemma_decimal_digits(n: nat)
    ensures
        all_digits(decimal(n)),
        digits_value(decimal(n)) == n,
        decimal(n).len() > 0,
    decreases n,
{
    let c = crate::text::digit_char(n % 10);
    assert(c as int == 48 + n % 10);
    if n < 10 {
        assert(decimal(n) =~= seq![c]);
        assert(decimal(n).drop_last() =~= Seq::<char>::empty());
        assert(digits_value(decimal(n)) == digits_value(Seq::<char>::empty()) * 10 + ((c as int - 48) as nat));
    } else {
        lemma_decimal_digits(n / 10);
        lemma_digits_value_push(decimal(n / 10), c);
        assert(decimal(n) == decimal(n / 10).push(c));
        assert(n == (n / 10) * 10 + n % 10);
        assert forall|i: int| 0 <= i < decimal(n).len() implies '0' <= #[trigger] decimal(n)[i] && decimal(n)[i] <= '9' by {
            if i < decimal(n / 10).len() {
                assert(decimal(n)[i] == decimal(n / 10)[i]);
            }
        }
    }
}

/// The names of the fixed datatypes, as characters.
proof fn lemma_reveal_names()
    ensures
        "map"@ =~= seq!['m', 'a', 'p'],
        "table"@ =~= seq!['t', 'a', 'b', 'l', 'e'],
        "list"@ =~= seq!['l', 'i', 's', 't'],
        "text"@ =~= seq!['t', 'e', 'x', 't'],
        "counter"@ =~= seq!['c', 'o', 'u', 'n', 't', 'e', 'r'],
        "timestamp"@ =~= seq!['t', 'i', 'm', 'e', 's', 't', 'a', 'm', 'p'],
        "bytes"@ =~= seq!['b', 'y', 't', 'e', 's'],
        "str"@ =~= seq!['s', 't', 'r'],
        "int"@ =~= seq!['i', 'n', 't'],
        "uint"@ =~= seq!['u', 'i', 'n', 't'],
        "f64"@ =~= seq!['f', '6', '4'],
        "boolean"@ =~= seq!['b', 'o', 'o', 'l', 'e', 'a', 'n'],
        "null"@ =~= seq!['n', 'u', 'l', 'l'],
        "unknown"@ =~= seq!['u', 'n', 'k', 'n', 'o', 'w', 'n'],
{
    reveal_strlit("map");
    reveal_strlit("table");
    reveal_strlit("list");
    reveal_strlit("text");
    reveal_strlit("counter");
    reveal_strlit("timestamp");
    reveal_strlit("bytes");
    reveal_strlit("str");
    reveal_strlit("int");
    reveal_strlit("uint");
    reveal_strlit("f64");
    reveal_strlit("boolean");
    reveal_strlit("null");
    reveal_strlit("unknown");
}

/// The name of an unknown datatype reads back as that datatype.
proof fn lemma_unknown_name(c: u8)
    ensures
        datatype_of_name(datatype_name(Datatype::Unknown(c))) == Some(Datatype::Unknown(c)),
{
    lemma_reveal_names();
    let digits = decimal(c as nat);
    let s = "unknown"@ + digits;
    lemma_decimal_digits(c as nat);
    assert(s.take(7) =~= "unknown"@);
    assert(s.skip(7) =~= digits);
    assert(digits[0] != '+');
    assert(s[0] == 'u' && s[1] == 'n' && s[2] == 'k');
    assert(s != "map"@ && s != "table"@ && s != "list"@ && s != "text"@);
    assert(s != "counter"@ && s != "timestamp"@ && s != "bytes"@ && s != "str"@);
    assert(s != "int"@ && s != "uint"@ && s != "f64"@ && s != "boolean"@ && s != "null"@);
    assert(parse_u8_spec(digits) == Some(c));
}

/// Reading back the name of a datatype gives the datatype.
pub proof fn law_datatype_name_round_trip(d: Datatype)
    ensures
        datatype_of_name(datatype_name(d)) == Some(d),
{
    lemma_reveal_names();
    if let Datatype::Unknown(c) = d {
        lemma_unknown_name(c);
    }
}

} // verus!
