use am_interop::js::{JsClass, JsNumber, JsObject, JsVal, PropKey};
use am_interop::num::{number_as_i64, number_as_usize};
use am_interop::text::{char_string, decimal_string};
use am_interop::value::{
    alloc_value, datatype_from_js, datatype_of_text, prop_to_js, to_objtype, to_prop, Datatype,
    InvalidDatatype, ObjId, ObjType, Prop, ScalarValue, Value,
};

fn s(t: &str) -> JsVal {
    JsVal::Str(t.to_string())
}

fn float(x: f64) -> JsVal {
    JsVal::Number(JsNumber::Float(x.to_bits()))
}

fn all_datatypes() -> Vec<Datatype> {
    vec![
        Datatype::MapObj,
        Datatype::Table,
        Datatype::List,
        Datatype::Text,
        Datatype::Counter,
        Datatype::Timestamp,
        Datatype::Bytes,
        Datatype::Str,
        Datatype::Int,
        Datatype::Uint,
        Datatype::F64,
        Datatype::Boolean,
        Datatype::Null,
        Datatype::Unknown(0),
        Datatype::Unknown(9),
        Datatype::Unknown(12),
        Datatype::Unknown(255),
    ]
}

#[test]
fn datatype_names_read_back() {
    for d in all_datatypes() {
        assert_eq!(datatype_of_text(&d.name()), Some(d));
    }
}

#[test]
fn datatype_names_are_as_written() {
    assert_eq!(Datatype::MapObj.name(), "map");
    assert_eq!(Datatype::Timestamp.name(), "timestamp");
    assert_eq!(Datatype::F64.name(), "f64");
    assert_eq!(Datatype::Unknown(7).name(), "unknown7");
    assert_eq!(Datatype::Unknown(255).name(), "unknown255");
}

#[test]
fn datatype_text_edge_cases() {
    assert_eq!(datatype_of_text(&"unknown+5".to_string()), Some(Datatype::Unknown(5)));
    assert_eq!(datatype_of_text(&"unknown007".to_string()), Some(Datatype::Unknown(7)));
    assert_eq!(datatype_of_text(&"unknown256".to_string()), None);
    assert_eq!(datatype_of_text(&"unknown".to_string()), None);
    assert_eq!(datatype_of_text(&"unknown+".to_string()), None);
    assert_eq!(datatype_of_text(&"unknownx".to_string()), None);
    assert_eq!(datatype_of_text(&"Map".to_string()), None);
    assert_eq!(datatype_of_text(&"".to_string()), None);
}

#[test]
fn datatype_from_js_errors() {
    assert!(matches!(datatype_from_js(&float(1.0)), Err(InvalidDatatype::NotString)));
    match datatype_from_js(&s("foo")) {
        Err(InvalidDatatype::UnknownDatatype(t)) => assert_eq!(t, "foo"),
        other => panic!("unexpected {:?}", other),
    }
    assert_eq!(datatype_from_js(&s("counter")).unwrap(), Datatype::Counter);
}

#[test]
fn sequences_are_lists_and_text() {
    assert!(Datatype::List.is_sequence());
    assert!(Datatype::Text.is_sequence());
    assert!(!Datatype::MapObj.is_sequence());
    assert!(!Datatype::Table.is_sequence());
}

#[test]
fn alloc_objects() {
    let (d, v) = alloc_value(&Value::Object(ObjType::MapObj));
    assert_eq!(d, Datatype::MapObj);
    assert_eq!(v, JsVal::Object(JsObject::new(JsClass::Plain)));
    let (d, v) = alloc_value(&Value::Object(ObjType::Table));
    assert_eq!(d, Datatype::Table);
    assert_eq!(v, JsVal::Object(JsObject::new(JsClass::Plain)));
    let (d, v) = alloc_value(&Value::Object(ObjType::List));
    assert_eq!(d, Datatype::List);
    assert_eq!(v, JsVal::Object(JsObject::new(JsClass::Array)));
    let (d, v) = alloc_value(&Value::Object(ObjType::Text));
    assert_eq!(d, Datatype::Text);
    assert_eq!(v, JsVal::Object(JsObject::new(JsClass::Array)));
}

#[test]
fn alloc_scalars() {
    let (d, v) = alloc_value(&Value::Scalar(ScalarValue::Int(-3)));
    assert_eq!((d, v), (Datatype::Int, JsVal::Number(JsNumber::Int(-3))));
    let (d, v) = alloc_value(&Value::Scalar(ScalarValue::Uint(7)));
    assert_eq!((d, v), (Datatype::Uint, JsVal::Number(JsNumber::Uint(7))));
    let bits = 2.5f64.to_bits();
    let (d, v) = alloc_value(&Value::Scalar(ScalarValue::F64(bits)));
    assert_eq!((d, v), (Datatype::F64, JsVal::Number(JsNumber::Float(bits))));
    let (d, v) = alloc_value(&Value::Scalar(ScalarValue::Counter(10)));
    assert_eq!((d, v), (Datatype::Counter, JsVal::Number(JsNumber::Int(10))));
    let (d, v) = alloc_value(&Value::Scalar(ScalarValue::Str("hi".to_string())));
    assert_eq!((d, v), (Datatype::Str, s("hi")));
    let (d, v) = alloc_value(&Value::Scalar(ScalarValue::Boolean(true)));
    assert_eq!((d, v), (Datatype::Boolean, JsVal::Bool(true)));
    let (d, v) = alloc_value(&Value::Scalar(ScalarValue::Null));
    assert_eq!((d, v), (Datatype::Null, JsVal::Null));
    let (d, v) = alloc_value(&Value::Scalar(ScalarValue::Timestamp(1000)));
    assert_eq!(d, Datatype::Timestamp);
    assert_eq!(v, JsVal::Object(JsObject::new(JsClass::Date(JsNumber::Int(1000)))));
    let (d, v) = alloc_value(&Value::Scalar(ScalarValue::Bytes(vec![1, 2, 3])));
    assert_eq!(d, Datatype::Bytes);
    let mut bytes = JsObject::new(JsClass::Bytes);
    bytes.bytes = vec![1, 2, 3];
    assert_eq!(v, JsVal::Object(bytes));
    let (d, v) = alloc_value(&Value::Scalar(ScalarValue::Unknown { type_code: 17, bytes: vec![9] }));
    assert_eq!(d, Datatype::Unknown(17));
    let mut bytes = JsObject::new(JsClass::Bytes);
    bytes.bytes = vec![9];
    assert_eq!(v, JsVal::Object(bytes));
}

#[test]
fn props_from_js() {
    assert_eq!(to_prop(&s("key")).unwrap(), Prop::Key("key".to_string()));
    assert_eq!(to_prop(&float(3.0)).unwrap(), Prop::Index(3));
    assert_eq!(to_prop(&float(3.9)).unwrap(), Prop::Index(3));
    assert_eq!(to_prop(&float(-1.5)).unwrap(), Prop::Index(0));
    assert_eq!(to_prop(&float(f64::NAN)).unwrap(), Prop::Index(0));
    assert_eq!(to_prop(&JsVal::Number(JsNumber::Int(4))).unwrap(), Prop::Index(4));
    assert!(to_prop(&JsVal::Bool(true)).is_err());
    assert!(to_prop(&JsVal::Null).is_err());
}

#[test]
fn props_to_js() {
    assert_eq!(prop_to_js(&Prop::Key("k".to_string())), PropKey::Name("k".to_string()));
    assert_eq!(prop_to_js(&Prop::Index(5)), PropKey::Index(5));
}

#[test]
fn objtype_of_array_is_list() {
    let mut a = JsObject::new(JsClass::Array);
    a.elements = vec![s("x"), JsVal::Undefined];
    let (t, entries) = to_objtype(&JsVal::Object(a), &None).unwrap();
    assert_eq!(t, ObjType::List);
    assert_eq!(entries, vec![(Prop::Index(0), s("x")), (Prop::Index(1), JsVal::Undefined)]);
}

#[test]
fn objtype_of_object_is_map() {
    let mut o = JsObject::new(JsClass::Plain);
    o.props = vec![("a".to_string(), float(1.0)), ("b".to_string(), JsVal::Null)];
    let (t, entries) = to_objtype(&JsVal::Object(o), &None).unwrap();
    assert_eq!(t, ObjType::MapObj);
    assert_eq!(
        entries,
        vec![(Prop::Key("a".to_string()), float(1.0)), (Prop::Key("b".to_string()), JsVal::Null)]
    );
}

#[test]
fn objtype_of_string_is_text() {
    let (t, entries) = to_objtype(&s("hé"), &None).unwrap();
    assert_eq!(t, ObjType::Text);
    assert_eq!(entries, vec![(Prop::Index(0), s("h")), (Prop::Index(1), s("é"))]);
}

#[test]
fn objtype_with_datatype() {
    let mut a = JsObject::new(JsClass::Array);
    a.elements = vec![s("x")];
    a.props = vec![("n".to_string(), JsVal::Bool(false))];
    let (t, entries) = to_objtype(&JsVal::Object(a.duplicate()), &Some("map".to_string())).unwrap();
    assert_eq!(t, ObjType::MapObj);
    assert_eq!(
        entries,
        vec![(Prop::Key("0".to_string()), s("x")), (Prop::Key("n".to_string()), JsVal::Bool(false))]
    );
    assert!(to_objtype(&JsVal::Object(JsObject::new(JsClass::Plain)), &Some("list".to_string())).is_none());
    assert!(to_objtype(&JsVal::Object(a), &Some("table".to_string())).is_none());
    assert!(to_objtype(&float(1.0), &Some("text".to_string())).is_none());
    assert!(to_objtype(&float(1.0), &None).is_none());
    let (t, entries) = to_objtype(&s("ab"), &Some("text".to_string())).unwrap();
    assert_eq!(t, ObjType::Text);
    assert_eq!(entries.len(), 2);
}

#[test]
fn object_id_text() {
    assert_eq!(ObjId::Root.to_text(), "_root");
    let id = ObjId::Id { counter: 5, actor: vec![0xab, 0x01, 0xff] };
    assert_eq!(id.to_text(), "5@ab01ff");
}

#[test]
fn numbers_convert_as_rust_casts_do() {
    assert_eq!(number_as_i64(JsNumber::Float(f64::NAN.to_bits())), 0);
    assert_eq!(number_as_i64(JsNumber::Float(1e300f64.to_bits())), i64::MAX);
    assert_eq!(number_as_i64(JsNumber::Float((-1e300f64).to_bits())), i64::MIN);
    assert_eq!(number_as_i64(JsNumber::Float((-2.7f64).to_bits())), -2);
    assert_eq!(number_as_i64(JsNumber::Float(0.5f64.to_bits())), 0);
    assert_eq!(number_as_i64(JsNumber::Int(-9)), -9);
    assert_eq!(number_as_usize(JsNumber::Float((-1.0f64).to_bits())), 0);
    assert_eq!(number_as_usize(JsNumber::Float(42.99f64.to_bits())), 42);
    assert_eq!(number_as_usize(JsNumber::Float(f64::INFINITY.to_bits())), usize::MAX);
    assert_eq!(number_as_usize(JsNumber::Int(-5)), 0);
}

#[test]
fn decimal_and_char_strings() {
    assert_eq!(decimal_string(0), "0");
    assert_eq!(decimal_string(1234), "1234");
    assert_eq!(decimal_string(u64::MAX), u64::MAX.to_string());
    assert_eq!(char_string('z'), "z");
}

fn as_double(n: JsNumber) -> f64 {
    match n {
        JsNumber::Int(i) => i as f64,
        JsNumber::Uint(u) => u as f64,
        JsNumber::Float(b) => f64::from_bits(b),
    }
}

#[test]
fn integers_become_the_nearest_double() {
    for i in [0i64, -1, 7, (1 << 53) + 1, (1 << 53) + 3, -((1 << 53) + 3), (1 << 60) + 1, i64::MAX, i64::MIN] {
        match alloc_value(&Value::Scalar(ScalarValue::Int(i))) {
            (Datatype::Int, JsVal::Number(n)) => assert_eq!(as_double(n), i as f64),
            other => panic!("unexpected {:?}", other),
        }
        match alloc_value(&Value::Scalar(ScalarValue::Counter(i))) {
            (Datatype::Counter, JsVal::Number(n)) => assert_eq!(as_double(n), i as f64),
            other => panic!("unexpected {:?}", other),
        }
    }
    for u in [0u64, 1 << 53, (1 << 53) + 1, u64::MAX, u64::MAX - 1024] {
        match alloc_value(&Value::Scalar(ScalarValue::Uint(u))) {
            (Datatype::Uint, JsVal::Number(n)) => assert_eq!(as_double(n), u as f64),
            other => panic!("unexpected {:?}", other),
        }
    }
    assert!(matches!(
        alloc_value(&Value::Scalar(ScalarValue::Int((1 << 60) + 1))).1,
        JsVal::Number(JsNumber::Int(x)) if x == 1 << 60
    ));
    assert!(matches!(
        alloc_value(&Value::Scalar(ScalarValue::Int(i64::MAX))).1,
        JsVal::Number(JsNumber::Uint(x)) if x == 1 << 63
    ));
    assert!(matches!(
        alloc_value(&Value::Scalar(ScalarValue::Uint(u64::MAX))).1,
        JsVal::Number(JsNumber::Float(b)) if f64::from_bits(b) == 18446744073709551616.0
    ));
}

#[test]
fn timestamps_beyond_the_date_range_are_invalid_dates() {
    match alloc_value(&Value::Scalar(ScalarValue::Timestamp(1_000))).1 {
        JsVal::Object(o) => assert!(matches!(o.class, JsClass::Date(JsNumber::Int(1_000)))),
        other => panic!("unexpected {:?}", other),
    }
    match alloc_value(&Value::Scalar(ScalarValue::Timestamp(8_640_000_000_000_001))).1 {
        JsVal::Object(o) => match o.class {
            JsClass::Date(JsNumber::Float(b)) => assert!(f64::from_bits(b).is_nan()),
            other => panic!("unexpected {:?}", other),
        },
        other => panic!("unexpected {:?}", other),
    }
}

#[test]
fn property_keys_read_back_as_the_property() {
    for p in [Prop::Key("title".to_string()), Prop::Key("0".to_string()), Prop::Index(0), Prop::Index(17), Prop::Index(1 << 53)] {
        let back = to_prop(&prop_to_js(&p).to_js()).unwrap();
        assert_eq!(back, p);
    }
}
