use am_interop::error::{ApplyPatch, Export};
use am_interop::export::{Automerge, DataHandler};
use am_interop::js::{HiddenKey, JsClass, JsNumber, JsObject, JsV, JsVal};
use am_interop::patch::Patch;
use am_interop::value::{Datatype, ObjId, ObjType, Prop, ScalarValue, Value};

fn s(t: &str) -> JsVal {
    JsVal::Str(t.to_string())
}

/// Wraps every value in an object `{ value }`.
struct Boxing;

impl DataHandler for Boxing {
    fn gives(&self, _datatype: Datatype, _value: JsV, _result: Result<JsV, JsV>) -> bool {
        true
    }

    fn call(&self, _datatype: Datatype, value: &JsVal) -> Result<JsVal, JsVal> {
        let mut o = JsObject::new(JsClass::Plain);
        o.props = vec![("value".to_string(), value.duplicate())];
        Ok(JsVal::Object(o))
    }
}

fn plain_host() -> Automerge<Boxing> {
    Automerge { freeze: false, external_types: vec![], handlers: Boxing }
}

fn id(n: u64) -> ObjId {
    ObjId::Id { counter: n, actor: vec![0xaa] }
}

fn int_value(i: i64) -> (Value, ObjId) {
    (Value::Scalar(ScalarValue::Int(i)), id(99))
}

/// An exported map with the given entries.
fn root_map(am: &Automerge<Boxing>, props: Vec<(&str, JsVal)>) -> JsObject {
    let mut o = JsObject::new(JsClass::Plain);
    o.props = props.into_iter().map(|(k, v)| (k.to_string(), v)).collect();
    am.wrap_object(o, Datatype::MapObj, &s("_root"), &JsVal::Null).unwrap()
}

/// An exported list with the given elements.
fn list(am: &Automerge<Boxing>, elements: Vec<JsVal>) -> JsObject {
    let mut o = JsObject::new(JsClass::Array);
    o.elements = elements;
    am.wrap_object(o, Datatype::List, &s("1@aa"), &JsVal::Null).unwrap()
}

fn put_map(path: Vec<(ObjId, Prop)>, key: &str, value: (Value, ObjId)) -> Patch {
    Patch::PutMap { obj: ObjId::Root, path, key: key.to_string(), value, conflict: false }
}

#[test]
fn put_key_then_get() {
    let am = plain_host();
    let obj = root_map(&am, vec![("a", s("old"))]);
    let r = am.apply_patch(obj, &put_map(vec![], "b", int_value(5)), 0, &JsVal::Null).unwrap();
    let (inner, d, oid) = am.unwrap_object(&r).unwrap();
    assert_eq!(inner.named_get(&"b".to_string()), JsVal::Number(JsNumber::Int(5)));
    assert_eq!(inner.named_get(&"a".to_string()), s("old"));
    assert_eq!(d, Datatype::MapObj);
    assert_eq!(oid, s("_root"));
}

#[test]
fn put_key_overwrites() {
    let am = plain_host();
    let obj = root_map(&am, vec![("a", s("old"))]);
    let r = am.apply_patch(obj, &put_map(vec![], "a", int_value(1)), 0, &JsVal::Null).unwrap();
    assert_eq!(r.props, vec![("a".to_string(), JsVal::Number(JsNumber::Int(1)))]);
}

#[test]
fn put_object_value_is_tagged() {
    let am = plain_host();
    let obj = root_map(&am, vec![]);
    let p = put_map(vec![], "child", (Value::Object(ObjType::List), id(7)));
    let r = am.apply_patch(obj, &p, 0, &s("m")).unwrap();
    match r.named_get(&"child".to_string()) {
        JsVal::Object(c) => {
            assert_eq!(c.class, JsClass::Array);
            assert_eq!(c.get_hidden(HiddenKey::ObjectId), s("7@aa"));
            assert_eq!(c.get_hidden(HiddenKey::Datatype), s("list"));
            assert_eq!(c.get_hidden(HiddenKey::Meta), s("m"));
        },
        other => panic!("unexpected {:?}", other),
    }
}

#[test]
fn delete_key_then_get() {
    let am = plain_host();
    let obj = root_map(&am, vec![("a", s("x")), ("b", s("y"))]);
    let p = Patch::DeleteMap { obj: ObjId::Root, path: vec![], key: "a".to_string() };
    let r = am.apply_patch(obj, &p, 0, &JsVal::Null).unwrap();
    assert_eq!(r.named_get(&"a".to_string()), JsVal::Undefined);
    assert_eq!(r.props, vec![("b".to_string(), s("y"))]);
}

#[test]
fn put_index_then_get() {
    let am = plain_host();
    let obj = list(&am, vec![s("a"), s("b")]);
    let p = Patch::PutSeq { obj: id(1), path: vec![], index: 1, value: int_value(3), conflict: false };
    let r = am.apply_patch(obj, &p, 0, &JsVal::Null).unwrap();
    assert_eq!(r.elements, vec![s("a"), JsVal::Number(JsNumber::Int(3))]);
    assert_eq!(r.get_hidden(HiddenKey::Datatype), s("list"));
    assert_eq!(r.get_hidden(HiddenKey::ObjectId), s("1@aa"));
}

#[test]
fn put_index_past_end_leaves_holes() {
    let am = plain_host();
    let obj = list(&am, vec![s("a")]);
    let p = Patch::PutSeq { obj: id(1), path: vec![], index: 3, value: int_value(3), conflict: false };
    let r = am.apply_patch(obj, &p, 0, &JsVal::Null).unwrap();
    assert_eq!(r.elements, vec![s("a"), JsVal::Undefined, JsVal::Undefined, JsVal::Number(JsNumber::Int(3))]);
}

#[test]
fn insert_grows_list() {
    let am = plain_host();
    let obj = list(&am, vec![s("a"), s("d")]);
    let p = Patch::Insert { obj: id(1), path: vec![], index: 1, values: vec![int_value(1), int_value(2)] };
    let r = am.apply_patch(obj, &p, 0, &JsVal::Null).unwrap();
    assert_eq!(
        r.elements,
        vec![s("a"), JsVal::Number(JsNumber::Int(1)), JsVal::Number(JsNumber::Int(2)), s("d")]
    );
}

#[test]
fn insert_past_end_appends() {
    let am = plain_host();
    let obj = list(&am, vec![s("a")]);
    let p = Patch::Insert { obj: id(1), path: vec![], index: 10, values: vec![int_value(1)] };
    let r = am.apply_patch(obj, &p, 0, &JsVal::Null).unwrap();
    assert_eq!(r.elements, vec![s("a"), JsVal::Number(JsNumber::Int(1))]);
}

#[test]
fn delete_index_removes_one() {
    let am = plain_host();
    let obj = list(&am, vec![s("a"), s("b"), s("c")]);
    let p = Patch::DeleteSeq { obj: id(1), path: vec![], index: 0, length: 2 };
    let r = am.apply_patch(obj, &p, 0, &JsVal::Null).unwrap();
    assert_eq!(r.elements, vec![s("b"), s("c")]);
}

#[test]
fn splice_index_is_taken_as_u32() {
    let am = plain_host();
    let arr = {
        let mut a = JsObject::new(JsClass::Array);
        a.elements = vec![s("a"), s("b"), s("c")];
        a
    };
    let big: u64 = (1u64 << 32) + 1;
    if let Ok(index) = usize::try_from(big) {
        let r = am.sub_splice(arr, index, 1, &vec![], &JsVal::Null).unwrap();
        assert_eq!(r.elements, vec![s("a"), s("c")]);
    }
}

#[test]
fn splice_on_frozen_array_fails() {
    let am = plain_host();
    let mut a = JsObject::new(JsClass::Array);
    a.frozen = true;
    assert!(matches!(am.sub_splice(a, 0, 1, &vec![], &JsVal::Null), Err(Export::CallSplice(_))));
}

#[test]
fn patches_of_the_wrong_kind() {
    let am = plain_host();
    let m = || root_map(&plain_host(), vec![("a", JsVal::Number(JsNumber::Int(1)))]);
    let l = || list(&plain_host(), vec![JsVal::Number(JsNumber::Int(1))]);
    let put_seq = Patch::PutSeq { obj: id(1), path: vec![], index: 0, value: int_value(1), conflict: false };
    assert!(matches!(am.apply_patch(m(), &put_seq, 0, &JsVal::Null), Err(ApplyPatch::PutIdxInMap)));
    let insert = Patch::Insert { obj: id(1), path: vec![], index: 0, values: vec![] };
    assert!(matches!(am.apply_patch(m(), &insert, 0, &JsVal::Null), Err(ApplyPatch::InsertInMap)));
    let del_seq = Patch::DeleteSeq { obj: id(1), path: vec![], index: 0, length: 1 };
    assert!(matches!(am.apply_patch(m(), &del_seq, 0, &JsVal::Null), Err(ApplyPatch::SpliceInMap)));
    let inc_index = Patch::Increment { obj: id(1), path: vec![], prop: Prop::Index(0), value: 1 };
    assert!(matches!(am.apply_patch(m(), &inc_index, 0, &JsVal::Null), Err(ApplyPatch::IncrementIndexInMap)));
    let put = put_map(vec![], "a", int_value(1));
    assert!(matches!(am.apply_patch(l(), &put, 0, &JsVal::Null), Err(ApplyPatch::PutKeyInSeq)));
    let del_map = Patch::DeleteMap { obj: id(1), path: vec![], key: "a".to_string() };
    assert!(matches!(am.apply_patch(l(), &del_map, 0, &JsVal::Null), Err(ApplyPatch::DeleteKeyFromSeq)));
    let inc_key = Patch::Increment { obj: id(1), path: vec![], prop: Prop::Key("a".to_string()), value: 1 };
    assert!(matches!(am.apply_patch(l(), &inc_key, 0, &JsVal::Null), Err(ApplyPatch::IncrementKeyInSeq)));
}

#[test]
fn increment_of_raw_number_fails_to_unwrap() {
    let am = plain_host();
    let obj = root_map(&am, vec![("c", JsVal::Number(JsNumber::Int(1)))]);
    let inc = Patch::Increment { obj: ObjId::Root, path: vec![], prop: Prop::Key("c".to_string()), value: 1 };
    assert!(matches!(am.apply_patch(obj, &inc, 0, &JsVal::Null), Err(ApplyPatch::Export(Export::GetProp(_)))));
}

#[test]
fn increment_of_wrapped_counter_adds() {
    let am = Automerge { freeze: false, external_types: vec![Datatype::Counter], handlers: Boxing };
    let counter = am.export_value((Datatype::Counter, JsVal::Number(JsNumber::Int(5)))).unwrap();
    let plain = plain_host();
    let obj = root_map(&plain, vec![("c", counter)]);
    let inc = Patch::Increment { obj: ObjId::Root, path: vec![], prop: Prop::Key("c".to_string()), value: 3 };
    let r = am.apply_patch(obj, &inc, 0, &JsVal::Null).unwrap();
    let c = r.named_get(&"c".to_string());
    assert_eq!(am.unwrap_scalar(c).unwrap(), JsVal::Number(JsNumber::Int(8)));
}

#[test]
fn increment_wraps_around() {
    let am = Automerge { freeze: false, external_types: vec![Datatype::Counter], handlers: Boxing };
    let counter = am.export_value((Datatype::Counter, JsVal::Number(JsNumber::Int(i64::MAX)))).unwrap();
    let obj = list(&plain_host(), vec![counter]);
    let inc = Patch::Increment { obj: id(1), path: vec![], prop: Prop::Index(0), value: 1 };
    let r = am.apply_patch(obj, &inc, 0, &JsVal::Null).unwrap();
    let c = r.elements[0].duplicate();
    assert_eq!(am.unwrap_scalar(c).unwrap(), JsVal::Number(JsNumber::Int(i64::MIN)));
}

#[test]
fn increment_of_non_number() {
    let am = Automerge { freeze: false, external_types: vec![Datatype::Str], handlers: Boxing };
    let wrapped = am.export_value((Datatype::Str, s("text"))).unwrap();
    let obj = root_map(&plain_host(), vec![("c", wrapped)]);
    let inc = Patch::Increment { obj: ObjId::Root, path: vec![], prop: Prop::Key("c".to_string()), value: 1 };
    assert!(matches!(am.apply_patch(obj, &inc, 0, &JsVal::Null), Err(ApplyPatch::IncrementNonNumeric)));
}

#[test]
fn nested_patch_follows_path() {
    let am = plain_host();
    let child = list(&am, vec![s("x")]);
    let obj = root_map(&am, vec![("items", JsVal::Object(child))]);
    let p = Patch::PutSeq {
        obj: id(1),
        path: vec![(ObjId::Root, Prop::Key("items".to_string()))],
        index: 0,
        value: int_value(9),
        conflict: false,
    };
    let r = am.apply_patch(obj, &p, 0, &JsVal::Null).unwrap();
    match r.named_get(&"items".to_string()) {
        JsVal::Object(c) => {
            assert_eq!(c.elements, vec![JsVal::Number(JsNumber::Int(9))]);
            assert_eq!(c.get_hidden(HiddenKey::Datatype), s("list"));
        },
        other => panic!("unexpected {:?}", other),
    }
    assert_eq!(r.get_hidden(HiddenKey::Datatype), s("map"));
}

#[test]
fn patch_to_deleted_child_changes_nothing() {
    let am = plain_host();
    let obj = root_map(&am, vec![("a", s("x"))]);
    let p = Patch::PutSeq {
        obj: id(1),
        path: vec![(ObjId::Root, Prop::Key("gone".to_string()))],
        index: 0,
        value: int_value(9),
        conflict: false,
    };
    let before = obj.duplicate();
    let r = am.apply_patch(obj, &p, 0, &JsVal::Null).unwrap();
    assert_eq!(r, before);
}

#[test]
fn patch_keeps_datatype_and_id() {
    let am = plain_host();
    let mut t = JsObject::new(JsClass::Array);
    t.elements = vec![s("h")];
    let obj = am.wrap_object(t, Datatype::Text, &s("5@aa"), &JsVal::Null).unwrap();
    let p = Patch::Insert { obj: id(5), path: vec![], index: 1, values: vec![(Value::Scalar(ScalarValue::Str("i".to_string())), id(6))] };
    let r = am.apply_patch(obj, &p, 0, &JsVal::Null).unwrap();
    let (_, d, oid) = am.unwrap_object(&r).unwrap();
    assert_eq!(d, Datatype::Text);
    assert_eq!(oid, s("5@aa"));
    assert_eq!(r.elements, vec![s("h"), s("i")]);
}

#[test]
fn frozen_results_when_asked() {
    let am = Automerge { freeze: true, external_types: vec![], handlers: Boxing };
    let obj = root_map(&plain_host(), vec![]);
    let r = am.apply_patch(obj, &put_map(vec![], "k", int_value(1)), 0, &JsVal::Null).unwrap();
    assert!(r.frozen);
    let p = Patch::PutSeq { obj: id(1), path: vec![], index: 0, value: int_value(1), conflict: false };
    let path = p.path();
    assert!(path.is_empty());
}

#[test]
fn increment_past_two_to_the_53_rounds_as_a_double() {
    let am = Automerge { freeze: false, external_types: vec![Datatype::Counter], handlers: Boxing };
    let big = 1i64 << 60;
    let counter = am.export_value((Datatype::Counter, JsVal::Number(JsNumber::Int(big)))).unwrap();
    let obj = root_map(&plain_host(), vec![("c", counter)]);
    let inc = Patch::Increment { obj: ObjId::Root, path: vec![], prop: Prop::Key("c".to_string()), value: 1 };
    let r = am.apply_patch(obj, &inc, 0, &JsVal::Null).unwrap();
    let c = r.named_get(&"c".to_string());
    assert_eq!(am.unwrap_scalar(c).unwrap(), JsVal::Number(JsNumber::Int(big)));
    assert_eq!(((big as f64) as i64 + 1) as f64, big as f64);
}
