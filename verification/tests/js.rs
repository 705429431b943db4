use am_interop::js::{reflect_get, HiddenKey, JsClass, JsNumber, JsObject, JsVal, PropKey};

fn s(t: &str) -> JsVal {
    JsVal::Str(t.to_string())
}

fn name(t: &str) -> PropKey {
    PropKey::Name(t.to_string())
}

#[test]
fn set_past_end_of_array_grows_it() {
    let mut a = JsObject::new(JsClass::Array);
    assert!(a.reflect_set(&PropKey::Index(2), s("x")));
    assert_eq!(a.elements, vec![JsVal::Undefined, JsVal::Undefined, s("x")]);
    assert!(a.reflect_set(&PropKey::Index(0), s("y")));
    assert_eq!(a.elements[0], s("y"));
}

#[test]
fn set_on_frozen_object_is_refused() {
    let mut o = JsObject::new(JsClass::Plain);
    o.freeze();
    assert!(!o.reflect_set(&name("a"), s("x")));
    assert!(o.props.is_empty());
    assert!(!o.delete_named(&"a".to_string()));
}

#[test]
fn index_keys_on_plain_objects_are_names() {
    let mut o = JsObject::new(JsClass::Plain);
    assert!(o.reflect_set(&PropKey::Index(12), s("x")));
    assert_eq!(o.props, vec![("12".to_string(), s("x"))]);
    assert_eq!(o.get_prop(&name("12")), s("x"));
    assert_eq!(o.get_prop(&PropKey::Index(12)), s("x"));
}

#[test]
fn byte_arrays_read_by_index() {
    let mut b = JsObject::new(JsClass::Bytes);
    b.bytes = vec![7, 8];
    assert_eq!(b.get_prop(&PropKey::Index(1)), JsVal::Number(JsNumber::Int(8)));
    assert_eq!(b.get_prop(&PropKey::Index(2)), JsVal::Undefined);
}

#[test]
fn reading_from_non_objects_throws() {
    assert!(reflect_get(&JsVal::Null, &name("a")).is_none());
    assert!(reflect_get(&s("abc"), &PropKey::Index(0)).is_none());
    assert_eq!(reflect_get(&JsVal::Object(JsObject::new(JsClass::Plain)), &name("a")), Some(JsVal::Undefined));
}

#[test]
fn named_properties_keep_insertion_order() {
    let mut o = JsObject::new(JsClass::Plain);
    o.named_set(&"b".to_string(), s("1"));
    o.named_set(&"a".to_string(), s("2"));
    o.named_set(&"b".to_string(), s("3"));
    assert_eq!(o.props, vec![("b".to_string(), s("3")), ("a".to_string(), s("2"))]);
    assert!(o.delete_named(&"b".to_string()));
    assert_eq!(o.props, vec![("a".to_string(), s("2"))]);
}

#[test]
fn entries_list_indices_first() {
    let mut a = JsObject::new(JsClass::Array);
    a.elements = vec![s("x"), s("y")];
    a.props = vec![("n".to_string(), s("z"))];
    assert_eq!(
        a.entries(),
        vec![("0".to_string(), s("x")), ("1".to_string(), s("y")), ("n".to_string(), s("z"))]
    );
    a.hidden = vec![(HiddenKey::Meta, s("m"))];
    let pairs = a.own_pairs();
    assert_eq!(pairs.len(), 4);
    assert_eq!(pairs[3], (JsVal::Symbol("_am_meta".to_string()), s("m")));
}

#[test]
fn copies_drop_hidden_properties() {
    let mut a = JsObject::new(JsClass::Array);
    a.elements = vec![s("x")];
    a.props = vec![("n".to_string(), s("z"))];
    a.hidden = vec![(HiddenKey::Meta, s("m"))];
    a.frozen = true;
    let c = a.shallow_copy();
    assert_eq!(c.elements, vec![s("x")]);
    assert!(c.props.is_empty());
    assert!(c.hidden.is_empty());
    assert!(!c.frozen);
    let m = a.assign_copy();
    assert_eq!(m.class, JsClass::Plain);
    assert_eq!(m.props, vec![("0".to_string(), s("x")), ("n".to_string(), s("z"))]);
}

#[test]
fn hidden_definitions_do_not_change_defined_keys() {
    let mut o = JsObject::new(JsClass::Plain);
    o.define_hidden(HiddenKey::Datatype, s("map"));
    assert_eq!(o.get_hidden(HiddenKey::Datatype), s("map"));
    assert_eq!(o.get_hidden(HiddenKey::Meta), JsVal::Undefined);
}
