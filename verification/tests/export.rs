use am_interop::error::Export;
use am_interop::export::{js_get_symbol, set_hidden_value, Automerge, DataHandler};
use am_interop::js::{HiddenKey, JsClass, JsNumber, JsObject, JsV, JsVal, PropKey};
use am_interop::value::{Datatype, ObjId};

fn s(t: &str) -> JsVal {
    JsVal::Str(t.to_string())
}

/// Wraps every value in an object `{ value }`.
struct Boxing;

impl DataHandler for Boxing {
    fn gives(&self, _datatype: Datatype, _value: JsV, _result: Result<JsV, JsV>) -> bool {
        true
    }

    fn call(&self, _datatype: Datatype, value: &JsVal) -> Result<JsVal, JsVal> {
        let mut o = JsObject::new(JsClass::Plain);
        o.props = vec![("value".to_string(), value.duplicate())];
        Ok(JsVal::Object(o))
    }
}

/// Throws.
struct Throwing;

impl DataHandler for Throwing {
    fn gives(&self, _datatype: Datatype, _value: JsV, _result: Result<JsV, JsV>) -> bool {
        true
    }

    fn call(&self, _datatype: Datatype, _value: &JsVal) -> Result<JsVal, JsVal> {
        Err(s("boom"))
    }
}

/// Returns a number.
struct Numbering;

impl DataHandler for Numbering {
    fn gives(&self, _datatype: Datatype, _value: JsV, _result: Result<JsV, JsV>) -> bool {
        true
    }

    fn call(&self, _datatype: Datatype, _value: &JsVal) -> Result<JsVal, JsVal> {
        Ok(JsVal::Number(JsNumber::Int(1)))
    }
}

/// Returns a frozen object.
struct Freezing;

impl DataHandler for Freezing {
    fn gives(&self, _datatype: Datatype, _value: JsV, _result: Result<JsV, JsV>) -> bool {
        true
    }

    fn call(&self, _datatype: Datatype, _value: &JsVal) -> Result<JsVal, JsVal> {
        let mut o = JsObject::new(JsClass::Plain);
        o.frozen = true;
        Ok(JsVal::Object(o))
    }
}

fn host<H: DataHandler>(handlers: H, types: Vec<Datatype>, freeze: bool) -> Automerge<H> {
    Automerge { freeze, external_types: types, handlers }
}

fn hidden(o: &JsObject, k: HiddenKey) -> JsVal {
    o.get_hidden(k)
}

#[test]
fn export_without_handler_keeps_value() {
    let am = host(Boxing, vec![], false);
    let v = am.export_value((Datatype::Counter, JsVal::Number(JsNumber::Int(3)))).unwrap();
    assert_eq!(v, JsVal::Number(JsNumber::Int(3)));
    assert!(am.is_registered(Datatype::Counter) == false);
}

#[test]
fn export_with_handler_wraps_and_remembers() {
    let am = host(Boxing, vec![Datatype::Counter], false);
    let v = am.export_value((Datatype::Counter, JsVal::Number(JsNumber::Int(3)))).unwrap();
    match &v {
        JsVal::Object(o) => {
            assert_eq!(o.named_get(&"value".to_string()), JsVal::Number(JsNumber::Int(3)));
            assert_eq!(hidden(o, HiddenKey::RawData), JsVal::Number(JsNumber::Int(3)));
            assert_eq!(hidden(o, HiddenKey::Datatype), s("counter"));
        },
        other => panic!("unexpected {:?}", other),
    }
    assert_eq!(am.unwrap_scalar(v).unwrap(), JsVal::Number(JsNumber::Int(3)));
}

#[test]
fn handler_failures() {
    let am = host(Throwing, vec![Datatype::Counter], false);
    match am.export_value((Datatype::Counter, JsVal::Null)) {
        Err(Export::CallDataHandler(name, e)) => {
            assert_eq!(name, "counter");
            assert_eq!(e, s("boom"));
        },
        other => panic!("unexpected {:?}", other),
    }
    let am = host(Numbering, vec![Datatype::Str], false);
    match am.export_value((Datatype::Str, s("x"))) {
        Err(Export::InvalidDataHandler(name)) => assert_eq!(name, "str"),
        other => panic!("unexpected {:?}", other),
    }
    let am = host(Freezing, vec![Datatype::MapObj], false);
    match am.wrap_object(JsObject::new(JsClass::Plain), Datatype::MapObj, &s("_root"), &JsVal::Null) {
        Err(Export::InvalidDataHandler(name)) => assert_eq!(name, "map"),
        other => panic!("unexpected {:?}", other),
    }
}

#[test]
fn wrap_without_handler_tags_object() {
    let am = host(Boxing, vec![], true);
    let meta = s("meta");
    let w = am.wrap_object(JsObject::new(JsClass::Plain), Datatype::MapObj, &s("1@ab"), &meta).unwrap();
    assert_eq!(hidden(&w, HiddenKey::ObjectId), s("1@ab"));
    assert_eq!(hidden(&w, HiddenKey::Datatype), s("map"));
    assert_eq!(hidden(&w, HiddenKey::Meta), meta);
    assert_eq!(hidden(&w, HiddenKey::RawData), JsVal::Undefined);
    assert!(w.frozen);
    let t = am.wrap_object(JsObject::new(JsClass::Plain), Datatype::Table, &s("2@ab"), &meta).unwrap();
    assert_eq!(hidden(&t, HiddenKey::ObjectId), JsVal::Undefined);
    assert_eq!(hidden(&t, HiddenKey::Datatype), s("table"));
}

#[test]
fn wrap_then_unwrap() {
    let am = host(Boxing, vec![], false);
    let mut list = JsObject::new(JsClass::Array);
    list.elements = vec![s("a")];
    let w = am.wrap_object(list, Datatype::List, &s("3@cd"), &JsVal::Null).unwrap();
    let (inner, d, id) = am.unwrap_object(&w).unwrap();
    assert_eq!(inner, w);
    assert_eq!(d, Datatype::List);
    assert_eq!(id, s("3@cd"));
}

#[test]
fn wrap_with_handler_then_unwrap() {
    let am = host(Boxing, vec![Datatype::Text], false);
    let mut text = JsObject::new(JsClass::Array);
    text.elements = vec![s("h"), s("i")];
    let w = am.wrap_object(text.duplicate(), Datatype::Text, &s("4@ef"), &JsVal::Null).unwrap();
    assert_eq!(w.class, JsClass::Plain);
    let (inner, d, id) = am.unwrap_object(&w).unwrap();
    assert_eq!(inner, text);
    assert_eq!(d, Datatype::Text);
    assert_eq!(id, s("4@ef"));
}

#[test]
fn unwrap_plain_objects() {
    let am = host(Boxing, vec![], false);
    let (inner, d, id) = am.unwrap_object(&JsObject::new(JsClass::Array)).unwrap();
    assert_eq!(inner, JsObject::new(JsClass::Array));
    assert_eq!(d, Datatype::List);
    assert_eq!(id, s("_root"));
    let (_, d, _) = am.unwrap_object(&JsObject::new(JsClass::Plain)).unwrap();
    assert_eq!(d, Datatype::MapObj);
    let mut o = JsObject::new(JsClass::Plain);
    o.hidden = vec![(HiddenKey::Datatype, s("nonsense"))];
    let (_, d, _) = am.unwrap_object(&o).unwrap();
    assert_eq!(d, Datatype::MapObj);
}

#[test]
fn unwrap_scalar_of_primitive_fails() {
    let am = host(Boxing, vec![], false);
    match am.unwrap_scalar(JsVal::Number(JsNumber::Int(1))) {
        Err(Export::GetProp(g)) => {
            assert_eq!(g.property, PropKey::Name("Symbol(_am_raw_value_)".to_string()));
        },
        other => panic!("unexpected {:?}", other),
    }
    let plain = JsVal::Object(JsObject::new(JsClass::Plain));
    assert_eq!(am.unwrap_scalar(plain.duplicate()).unwrap(), plain);
}

#[test]
fn hidden_symbols() {
    assert!(js_get_symbol(&JsVal::Null, HiddenKey::Meta).is_err());
    let mut o = JsObject::new(JsClass::Plain);
    set_hidden_value(&mut o, HiddenKey::Meta, s("m")).unwrap();
    set_hidden_value(&mut o, HiddenKey::Meta, s("m")).unwrap();
    assert_eq!(o.hidden.len(), 1);
    assert_eq!(js_get_symbol(&JsVal::Object(o), HiddenKey::Meta).unwrap(), s("m"));
    assert_eq!(HiddenKey::RawData.name(), "_am_raw_value_");
    assert_eq!(HiddenKey::ObjectId.name(), "_am_objectId");
}

#[test]
fn maybe_wrap_objects_and_scalars() {
    let am = host(Boxing, vec![], false);
    let id = ObjId::Id { counter: 2, actor: vec![0xcd] };
    let v = am.maybe_wrap_object((Datatype::MapObj, JsVal::Object(JsObject::new(JsClass::Plain))), &id, &JsVal::Null).unwrap();
    match v {
        JsVal::Object(o) => assert_eq!(o.get_hidden(HiddenKey::ObjectId), s("2@cd")),
        other => panic!("unexpected {:?}", other),
    }
    let v = am.maybe_wrap_object((Datatype::Str, s("x")), &id, &JsVal::Null).unwrap();
    assert_eq!(v, s("x"));
}

#[test]
fn wrap_handled_exactly() {
    let am = host(Boxing, vec![Datatype::MapObj], false);
    let r = am.wrap_handled(JsObject::new(JsClass::Plain), Datatype::MapObj, &s("_root"), &JsVal::Null, Ok(JsVal::Null));
    assert!(matches!(r, Err(Export::InvalidDataHandler(_))));
    let r = am.export_handled(Datatype::Int, s("raw"), Err(s("e")));
    assert!(matches!(r, Err(Export::CallDataHandler(_, _))));
}

/// Returns an object that already holds the datatype tag, under the given name.
struct PreTagged(&'static str);

impl DataHandler for PreTagged {
    fn gives(&self, _datatype: Datatype, _value: JsV, _result: Result<JsV, JsV>) -> bool {
        true
    }

    fn call(&self, _datatype: Datatype, _value: &JsVal) -> Result<JsVal, JsVal> {
        let mut o = JsObject::new(JsClass::Plain);
        o.hidden = vec![(HiddenKey::Datatype, s(self.0))];
        Ok(JsVal::Object(o))
    }
}

#[test]
fn handler_object_with_the_same_tag_is_accepted() {
    let am = host(PreTagged("counter"), vec![Datatype::Counter], false);
    let v = am.export_value((Datatype::Counter, JsVal::Number(JsNumber::Int(3)))).unwrap();
    match v {
        JsVal::Object(o) => {
            assert_eq!(hidden(&o, HiddenKey::Datatype), s("counter"));
            assert_eq!(hidden(&o, HiddenKey::RawData), JsVal::Number(JsNumber::Int(3)));
        },
        other => panic!("unexpected {:?}", other),
    }
    let am = host(PreTagged("map"), vec![Datatype::MapObj], false);
    let w = am.wrap_object(JsObject::new(JsClass::Plain), Datatype::MapObj, &s("1@ab"), &JsVal::Null).unwrap();
    assert_eq!(hidden(&w, HiddenKey::Datatype), s("map"));
    assert_eq!(hidden(&w, HiddenKey::ObjectId), s("1@ab"));
    assert_eq!(hidden(&w, HiddenKey::RawData), JsVal::Object(JsObject::new(JsClass::Plain)));
}

#[test]
fn handler_object_with_another_tag_is_refused() {
    let am = host(PreTagged("text"), vec![Datatype::Counter], false);
    let r = am.export_value((Datatype::Counter, JsVal::Number(JsNumber::Int(3))));
    assert!(matches!(r, Err(Export::InvalidDataHandler(ref d)) if d == "counter"));
    let am = host(PreTagged("list"), vec![Datatype::MapObj], false);
    let r = am.wrap_object(JsObject::new(JsClass::Plain), Datatype::MapObj, &s("1@ab"), &JsVal::Null);
    assert!(matches!(r, Err(Export::InvalidDataHandler(ref d)) if d == "map"));
}
