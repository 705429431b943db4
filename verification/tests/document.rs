use am_interop::document::DocValue;
use am_interop::export::{Automerge, DataHandler};
use am_interop::js::{HiddenKey, JsClass, JsNumber, JsObject, JsV, JsVal};
use am_interop::value::{Datatype, ObjId, Prop, ScalarValue};

fn s(t: &str) -> JsVal {
    JsVal::Str(t.to_string())
}

/// Wraps every value in an object `{ value }`.
struct Boxing;

impl DataHandler for Boxing {
    fn gives(&self, _datatype: Datatype, _value: JsV, _result: Result<JsV, JsV>) -> bool {
        true
    }

    fn call(&self, _datatype: Datatype, value: &JsVal) -> Result<JsVal, JsVal> {
        let mut o = JsObject::new(JsClass::Plain);
        o.props = vec![("value".to_string(), value.duplicate())];
        Ok(JsVal::Object(o))
    }
}

fn actor(n: u64) -> ObjId {
    ObjId::Id { counter: n, actor: vec![0x01, 0x02] }
}

fn sample() -> Vec<(Prop, DocValue)> {
    vec![
        (Prop::Key("title".to_string()), DocValue::Scalar(ScalarValue::Str("hi".to_string()))),
        (
            Prop::Key("items".to_string()),
            DocValue::Object {
                id: actor(2),
                datatype: Datatype::List,
                entries: vec![
                    (Prop::Index(0), DocValue::Scalar(ScalarValue::Int(1))),
                    (Prop::Index(1), DocValue::Scalar(ScalarValue::Boolean(false))),
                ],
            },
        ),
    ]
}

#[test]
fn export_map_with_nested_list() {
    let am = Automerge { freeze: false, external_types: vec![], handlers: Boxing };
    let v = am.export_object(&ObjId::Root, Datatype::MapObj, &sample(), &s("meta")).unwrap();
    let root = match v {
        JsVal::Object(o) => o,
        other => panic!("unexpected {:?}", other),
    };
    assert_eq!(root.class, JsClass::Plain);
    assert_eq!(root.get_hidden(HiddenKey::ObjectId), s("_root"));
    assert_eq!(root.get_hidden(HiddenKey::Datatype), s("map"));
    assert_eq!(root.get_hidden(HiddenKey::Meta), s("meta"));
    assert_eq!(root.named_get(&"title".to_string()), s("hi"));
    match root.named_get(&"items".to_string()) {
        JsVal::Object(items) => {
            assert_eq!(items.class, JsClass::Array);
            assert_eq!(items.elements, vec![JsVal::Number(JsNumber::Int(1)), JsVal::Bool(false)]);
            assert_eq!(items.get_hidden(HiddenKey::ObjectId), s("2@0102"));
            assert_eq!(items.get_hidden(HiddenKey::Datatype), s("list"));
        },
        other => panic!("unexpected {:?}", other),
    }
    let (_, d, id) = am.unwrap_object(&root).unwrap();
    assert_eq!(d, Datatype::MapObj);
    assert_eq!(id, s("_root"));
}

#[test]
fn export_text_as_characters() {
    let am = Automerge { freeze: true, external_types: vec![], handlers: Boxing };
    let entries = vec![
        (Prop::Index(0), DocValue::Scalar(ScalarValue::Str("a".to_string()))),
        (Prop::Index(1), DocValue::Scalar(ScalarValue::Str("b".to_string()))),
    ];
    let v = am.export_object(&actor(7), Datatype::Text, &entries, &JsVal::Null).unwrap();
    match v {
        JsVal::Object(t) => {
            assert_eq!(t.elements, vec![s("a"), s("b")]);
            assert_eq!(t.get_hidden(HiddenKey::Datatype), s("text"));
            assert!(t.frozen);
        },
        other => panic!("unexpected {:?}", other),
    }
}

#[test]
fn export_with_handlers() {
    let am = Automerge { freeze: false, external_types: vec![Datatype::List, Datatype::Int], handlers: Boxing };
    let v = am.export_object(&ObjId::Root, Datatype::MapObj, &sample(), &JsVal::Null).unwrap();
    let root = match v {
        JsVal::Object(o) => o,
        other => panic!("unexpected {:?}", other),
    };
    match root.named_get(&"items".to_string()) {
        JsVal::Object(wrapped) => {
            assert_eq!(wrapped.class, JsClass::Plain);
            let (raw, d, id) = am.unwrap_object(&wrapped).unwrap();
            assert_eq!(raw.class, JsClass::Array);
            assert_eq!(raw.elements.len(), 2);
            assert_eq!(d, Datatype::List);
            assert_eq!(id, s("2@0102"));
            let first = raw.elements[0].duplicate();
            assert_eq!(am.unwrap_scalar(first).unwrap(), JsVal::Number(JsNumber::Int(1)));
        },
        other => panic!("unexpected {:?}", other),
    }
}

#[test]
fn export_table_as_object_without_id() {
    let am = Automerge { freeze: false, external_types: vec![], handlers: Boxing };
    let entries = vec![(Prop::Key("k".to_string()), DocValue::Scalar(ScalarValue::Null))];
    let v = am.export_object(&actor(3), Datatype::Table, &entries, &JsVal::Null).unwrap();
    match v {
        JsVal::Object(t) => {
            assert_eq!(t.named_get(&"k".to_string()), JsVal::Null);
            assert_eq!(t.get_hidden(HiddenKey::ObjectId), JsVal::Undefined);
            assert_eq!(t.get_hidden(HiddenKey::Datatype), s("table"));
        },
        other => panic!("unexpected {:?}", other),
    }
}

/// Throws the datatype's name for every value.
struct Throwing;

impl DataHandler for Throwing {
    fn gives(&self, _datatype: Datatype, _value: JsV, _result: Result<JsV, JsV>) -> bool {
        true
    }

    fn call(&self, datatype: Datatype, _value: &JsVal) -> Result<JsVal, JsVal> {
        Err(JsVal::Str(datatype.name()))
    }
}

#[test]
fn export_stops_at_the_first_failing_entry() {
    let am = Automerge { freeze: false, external_types: vec![Datatype::Boolean, Datatype::Str], handlers: Throwing };
    let r = am.export_object(&ObjId::Root, Datatype::MapObj, &sample(), &JsVal::Null);
    match r {
        Err(am_interop::error::Export::CallDataHandler(d, e)) => {
            assert_eq!(d, "str");
            assert_eq!(e, s("str"));
        },
        other => panic!("unexpected {:?}", other),
    }
    let am = Automerge { freeze: false, external_types: vec![Datatype::Boolean], handlers: Throwing };
    let r = am.export_object(&ObjId::Root, Datatype::MapObj, &sample(), &JsVal::Null);
    assert!(matches!(r, Err(am_interop::error::Export::CallDataHandler(ref d, _)) if d == "boolean"));
}
