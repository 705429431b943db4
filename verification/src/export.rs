//! Exporting automerge values to JavaScript: data handlers, and the hidden
//! properties that tie a JavaScript value to the automerge value it stands for.
//!
//! A data handler is a function that the host registers for a datatype; it receives
//! the plain JavaScript value and returns the value the application sees. What a
//! handler returns is up to the host, so each function that calls one states what
//! holds whatever came back, and a companion function that takes the handler's result
//! as an argument states exactly what is returned for it.
use vstd::prelude::*;
use crate::error::{Export, ExportFault, GetProp, PropFault};
use crate::js::{
    can_define, define_spec, hidden_get, hidden_name, lookup, HiddenKey, JsClass, JsObject, JsV,
    JsVal, KeyV, ObjV, PropKey, type_error,
};
use crate::sync::get_fault;
use crate::text::{append_text, push_char};
use crate::value::{
    alloc_spec, datatype_from_js, datatype_from_js_spec, datatype_js, datatype_name,
    datatype_to_js, obj_id_text, Datatype, ObjId, Value,
};

verus! {

/// The data handlers that the host registered, one per datatype.
pub trait DataHandler {
    /// Whether the handler registered for `datatype`, called on `value`, can give
    /// `result`. Nothing is stated of which results a handler gives: this only ties
    /// each result to the call it came from.
    spec fn gives(&self, datatype: Datatype, value: JsV, result: Result<JsV, JsV>) -> bool;

    /// Calls the handler registered for `datatype` on `value`. `Err` holds what the
    /// handler threw.
    fn call(&self, datatype: Datatype, value: &JsVal) -> (r: Result<JsVal, JsVal>)
        ensures
            self.gives(datatype, value.view(), handled_view(r)),
    ;
}

/// What exporting needs to know of a document's host.
pub struct Automerge<H> {
    /// Whether exported objects are frozen.
    pub freeze: bool,
    /// The datatypes for which a data handler is registered.
    pub external_types: Vec<Datatype>,
    /// The registered data handlers.
    pub handlers: H,
}

/// The text of the registered symbol under which a hidden key is stored, as
/// `Symbol.prototype.toString` writes it.
pub open spec fn symbol_text(k: HiddenKey) -> Seq<char> {
    "Symbol("@ + hidden_name(k) + seq![')']
}

/// The fault of reading a hidden key from a value that is not an object.
pub open spec fn symbol_fault(k: HiddenKey) -> PropFault {
    get_fault(KeyV::Name(symbol_text(k)))
}

/// `Reflect.get(v, Symbol.for(name))`: the hidden property, failing when `v` is not
/// an object.
pub fn js_get_symbol(v: &JsVal, k: HiddenKey) -> (r: Result<JsVal, GetProp>)
    ensures
        match r {
            Ok(x) => v.view() matches JsV::Object(o) && x.view() == hidden_get(o, k),
            Err(g) => !(v.view() is Object) && g.fault() == symbol_fault(k),
        },
{
    match v {
        JsVal::Object(o) => Ok(o.get_hidden(k)),
        _ => {
            let mut t = "Symbol(".to_owned();
            append_text(&mut t, k.name().as_str());
            push_char(&mut t, ')');
            assert(t@ =~= symbol_text(k));
            Err(GetProp { property: PropKey::Name(t), error: type_error() })
        },
    }
}

/// Defines hidden property `k` of `o` as `v`: read-only, not enumerable, not
/// configurable.
pub fn set_hidden_value(o: &mut JsObject, k: HiddenKey, v: JsVal) -> (r: Result<(), Export>)
    requires
        can_define(old(o).view(), k, v.view()),
    ensures
        r is Ok,
        final(o).view() == define_spec(old(o).view(), k, v.view()),
{
    o.define_hidden(k, v);
    Ok(())
}

/// Whether objects of datatype `d` carry the id of their automerge object.
pub open spec fn has_object_id(d: Datatype) -> bool {
    d == Datatype::MapObj || d == Datatype::List || d == Datatype::Text
}

/// `o` with the id (for maps, lists and text), the datatype and the metadata defined
/// as hidden properties, then frozen when `freeze` is set.
pub open spec fn tag_spec(o: ObjV, d: Datatype, id: JsV, meta: JsV, freeze: bool) -> ObjV {
    let o1 = if has_object_id(d) { define_spec(o, HiddenKey::ObjectId, id) } else { o };
    let o2 = define_spec(o1, HiddenKey::Datatype, datatype_js(d));
    let o3 = define_spec(o2, HiddenKey::Meta, meta);
    if freeze { ObjV { frozen: true, ..o3 } } else { o3 }
}

/// Whether `tag_spec` can define its hidden properties on `o` without throwing.
pub open spec fn can_tag(o: ObjV, d: Datatype, id: JsV, meta: JsV) -> bool {
    let o1 = if has_object_id(d) { define_spec(o, HiddenKey::ObjectId, id) } else { o };
    let o2 = define_spec(o1, HiddenKey::Datatype, datatype_js(d));
    &&& has_object_id(d) ==> can_define(o, HiddenKey::ObjectId, id)
    &&& can_define(o1, HiddenKey::Datatype, datatype_js(d))
    &&& can_define(o2, HiddenKey::Meta, meta)
}

/// Whether hidden key `k` is not yet defined on `o`.
pub open spec fn lacks(o: ObjV, k: HiddenKey) -> bool {
    lookup(o.hidden, k) is None
}

/// Whether an object `w` returned by a data handler for object `o` can take, without
/// `Object.defineProperty` throwing, the raw object and then the tags of datatype `d`:
/// each key is new on an extensible object, or already holds that same value.
pub open spec fn handler_object_ok(w: ObjV, o: ObjV, d: Datatype, id: JsV, meta: JsV) -> bool {
    &&& can_define(w, HiddenKey::RawData, JsV::Object(o))
    &&& can_tag(define_spec(w, HiddenKey::RawData, JsV::Object(o)), d, id, meta)
}

/// Whether an object `w` returned by a data handler for scalar `raw` of datatype `d`
/// can take the raw value and then the datatype without `Object.defineProperty`
/// throwing.
pub open spec fn handler_scalar_ok(w: ObjV, raw: JsV, d: Datatype) -> bool {
    &&& can_define(w, HiddenKey::RawData, raw)
    &&& can_define(define_spec(w, HiddenKey::RawData, raw), HiddenKey::Datatype, datatype_js(d))
}

/// The view of a handler's result.
pub open spec fn handled_view(h: Result<JsVal, JsVal>) -> Result<JsV, JsV> {
    match h {
        Ok(v) => Ok(v.view()),
        Err(e) => Err(e.view()),
    }
}

/// The view of the result of exporting a value.
pub open spec fn val_result_view(r: Result<JsVal, Export>) -> Result<JsV, ExportFault> {
    match r {
        Ok(v) => Ok(v.view()),
        Err(e) => Err(e.fault()),
    }
}

/// The view of the result of wrapping an object.
pub open spec fn obj_result_view(r: Result<JsObject, Export>) -> Result<ObjV, ExportFault> {
    match r {
        Ok(v) => Ok(v.view()),
        Err(e) => Err(e.fault()),
    }
}

/// What exporting scalar `raw` of datatype `d` gives when its data handler returned `h`:
/// the handler's object with the raw value and the datatype defined on it. Where
/// defining them would throw, `InvalidDataHandler` stands for that throw.
pub open spec fn export_handled_spec(h: Result<JsV, JsV>, raw: JsV, d: Datatype) -> Result<JsV, ExportFault> {
    match h {
        Err(e) => Err(ExportFault::CallDataHandler(datatype_name(d), e)),
        Ok(JsV::Object(w)) => if handler_scalar_ok(w, raw, d) {
            Ok(JsV::Object(define_spec(define_spec(w, HiddenKey::RawData, raw), HiddenKey::Datatype, datatype_js(d))))
        } else {
            Err(ExportFault::InvalidDataHandler(datatype_name(d)))
        },
        Ok(_) => Err(ExportFault::InvalidDataHandler(datatype_name(d))),
    }
}

/// What wrapping object `o` of datatype `d` gives when its data handler returned `h`:
/// the handler's object with `o` defined as its raw value, then tagged. Where
/// defining them would throw, `InvalidDataHandler` stands for that throw.
pub open spec fn wrap_handled_spec(
    h: Result<JsV, JsV>,
    o: ObjV,
    d: Datatype,
    id: JsV,
    meta: JsV,
    freeze: bool,
) -> Result<ObjV, ExportFault> {
    match h {
        Err(e) => Err(ExportFault::CallDataHandler(datatype_name(d), e)),
        Ok(JsV::Object(w)) => if handler_object_ok(w, o, d, id, meta) {
            Ok(tag_spec(define_spec(w, HiddenKey::RawData, JsV::Object(o)), d, id, meta, freeze))
        } else {
            Err(ExportFault::InvalidDataHandler(datatype_name(d)))
        },
        Ok(_) => Err(ExportFault::InvalidDataHandler(datatype_name(d))),
    }
}

/// Defining one hidden key leaves the others as they were.
pub proof fn lemma_define_other(o: ObjV, k: HiddenKey, v: JsV, j: HiddenKey)
    requires
        k != j,
    ensures
        lookup(define_spec(o, k, v).hidden, j) == lookup(o.hidden, j),
        define_spec(o, k, v).frozen == o.frozen,
{
    if !crate::js::has_key(o.hidden, k) {
        crate::js::lemma_lookup_push_other(o.hidden, (k, v), j);
    }
}

/// Defining a key that is absent makes it hold the value.
pub proof fn lemma_define_new(o: ObjV, k: HiddenKey, v: JsV)
    requires
        lacks(o, k),
    ensures
        lookup(define_spec(o, k, v).hidden, k) == Some(v),
{
    crate::js::lemma_lookup_push_new(o.hidden, (k, v));
}

/// Whether `tag_spec` can define its hidden properties on `o` without throwing.
fn can_tag_now(o: &JsObject, d: Datatype, id: &JsVal, meta: &JsVal) -> (r: bool)
    ensures
        r == can_tag(o.view(), d, id.view(), meta.view()),
{
    let dv = datatype_to_js(d);
    let has_id = matches!(d, Datatype::MapObj | Datatype::List | Datatype::Text);
    let id_ok = !has_id || o.can_define_hidden(HiddenKey::ObjectId, id);
    let dt_ok = o.can_define_hidden(HiddenKey::Datatype, &dv);
    let meta_ok = o.can_define_hidden(HiddenKey::Meta, meta);
    proof {
        let o1 = if has_object_id(d) { define_spec(o.view(), HiddenKey::ObjectId, id.view()) } else { o.view() };
        lemma_define_other(o.view(), HiddenKey::ObjectId, id.view(), HiddenKey::Datatype);
        lemma_define_other(o.view(), HiddenKey::ObjectId, id.view(), HiddenKey::Meta);
        lemma_define_other(o1, HiddenKey::Datatype, datatype_js(d), HiddenKey::Meta);
    }
    id_ok && dt_ok && meta_ok
}

impl<H: DataHandler> Automerge<H> {
    /// Whether a data handler is registered for `d`.
    pub open spec fn has_handler(&self, d: Datatype) -> bool {
        self.external_types@.contains(d)
    }

    /// Whether exporting scalar `raw` of datatype `d` can give `w`: `raw` itself
    /// without a handler, and with one, what `export_handled_spec` makes of a result
    /// that the handler can give for `raw`.
    pub open spec fn export_result(&self, d: Datatype, raw: JsV, w: Result<JsV, ExportFault>) -> bool {
        if self.has_handler(d) {
            exists|h: Result<JsV, JsV>|
                self.handlers.gives(d, raw, h) && w == #[trigger] export_handled_spec(h, raw, d)
        } else {
            w == Ok::<JsV, ExportFault>(raw)
        }
    }

    /// Whether wrapping object `o` of datatype `d` can give `w`: `o` tagged without a
    /// handler, and with one, what `wrap_handled_spec` makes of a result that the
    /// handler can give for `o`.
    pub open spec fn wrap_result(&self, o: ObjV, d: Datatype, id: JsV, meta: JsV, w: Result<ObjV, ExportFault>) -> bool {
        if self.has_handler(d) {
            exists|h: Result<JsV, JsV>|
                self.handlers.gives(d, JsV::Object(o), h)
                && w == #[trigger] wrap_handled_spec(h, o, d, id, meta, self.freeze)
        } else {
            w == Ok::<ObjV, ExportFault>(tag_spec(o, d, id, meta, self.freeze))
        }
    }

    /// Whether exporting allocated value `v` with id text `id` can give `w` (see
    /// `maybe_wrap_object`).
    pub open spec fn maybe_wrap_result(&self, v: (Datatype, JsV), id: Seq<char>, meta: JsV, w: Result<JsV, ExportFault>) -> bool {
        if self.has_handler(v.0) {
            exists|h: Result<JsV, JsV>|
                self.handlers.gives(v.0, v.1, h)
                && w == #[trigger] maybe_wrap_handled_spec(h, v, id, meta, self.freeze)
        } else {
            w == Ok::<JsV, ExportFault>(maybe_wrap_spec(v, id, meta, self.freeze))
        }
    }

    /// Whether a data handler is registered for `d`.
    pub fn is_registered(&self, d: Datatype) -> (r: bool)
        ensures
            r == self.has_handler(d),
    {
        let mut i: usize = 0;
        while i < self.external_types.len()
            invariant
                i <= self.external_types.len(),
                forall|j: int| 0 <= j < i ==> self.external_types@[j] != d,
            decreases self.external_types.len() - i,
        {
            if self.external_types[i] == d {
                assert(self.external_types@[i as int] == d);
                return true;
            }
            i = i + 1;
        }
        false
    }

    /// Defines the id, datatype and metadata of an exported object on it, then freezes
    /// it if exported objects are frozen.
    fn tag(&self, o: &mut JsObject, d: Datatype, id: &JsVal, meta: &JsVal)
        requires
            can_tag(old(o).view(), d, id.view(), meta.view()),
        ensures
            final(o).view() == tag_spec(old(o).view(), d, id.view(), meta.view(), self.freeze),
    {
        if matches!(d, Datatype::MapObj | Datatype::List | Datatype::Text) {
            let _ = set_hidden_value(o, HiddenKey::ObjectId, id.duplicate());
        }
        let _ = set_hidden_value(o, HiddenKey::Datatype, datatype_to_js(d));
        let _ = set_hidden_value(o, HiddenKey::Meta, meta.duplicate());
        if self.freeze {
            o.freeze();
        }
    }

    /// Finishes exporting scalar `raw` of datatype `d` with what its data handler
    /// returned: the handler's object, with the raw value and the datatype defined on
    /// it. A handler that threw gives `CallDataHandler`; one that returned something
    /// other than an object gives `InvalidDataHandler`, and so does one on whose object
    /// `Object.defineProperty` would throw: it is frozen and lacks a property, or holds
    /// one already with another value. (`InvalidDataHandler` stands for that throw.)
    pub fn export_handled(&self, d: Datatype, raw: JsVal, handled: Result<JsVal, JsVal>) -> (r: Result<JsVal, Export>)
        ensures
            val_result_view(r) == export_handled_spec(handled_view(handled), raw.view(), d),
    {
        match handled {
            Err(e) => Err(Export::CallDataHandler(d.name(), e)),
            Ok(JsVal::Object(mut w)) => {
                if !w.can_define_hidden(HiddenKey::RawData, &raw) {
                    return Err(Export::InvalidDataHandler(d.name()));
                }
                let _ = set_hidden_value(&mut w, HiddenKey::RawData, raw);
                let dv = datatype_to_js(d);
                if !w.can_define_hidden(HiddenKey::Datatype, &dv) {
                    return Err(Export::InvalidDataHandler(d.name()));
                }
                let _ = set_hidden_value(&mut w, HiddenKey::Datatype, dv);
                Ok(JsVal::Object(w))
            },
            Ok(_) => Err(Export::InvalidDataHandler(d.name())),
        }
    }

    /// Exports scalar `raw` of datatype `d`: passed to the data handler registered for
    /// `d`, if any (see `export_handled`), and returned as it is otherwise.
    pub fn export_value(&self, value: (Datatype, JsVal)) -> (r: Result<JsVal, Export>)
        ensures
            !self.has_handler(value.0) ==> (r matches Ok(v) && v.view() == value.1.view()),
            self.has_handler(value.0) ==> exists|h: Result<JsV, JsV>|
                self.handlers.gives(value.0, value.1.view(), h)
                && val_result_view(r) == #[trigger] export_handled_spec(h, value.1.view(), value.0),
            self.export_result(value.0, value.1.view(), val_result_view(r)),
    {
        let (d, raw) = value;
        if self.is_registered(d) {
            let handled = self.handlers.call(d, &raw);
            let ghost h = handled_view(handled);
            let r = self.export_handled(d, raw, handled);
            assert(val_result_view(r) == export_handled_spec(h, raw.view(), d));
            r
        } else {
            Ok(raw)
        }
    }

    /// Finishes wrapping object `value` of datatype `d` with what its data handler
    /// returned: the handler's object, holding `value` as its raw value, tagged as
    /// `tag_spec` says. A handler that threw gives `CallDataHandler`; one that returned
    /// something other than an object gives `InvalidDataHandler`, and so does one on
    /// whose object `Object.defineProperty` would throw: it is frozen and lacks a
    /// property, or holds one already with another value. (`InvalidDataHandler` stands
    /// for that throw.)
    pub fn wrap_handled(
        &self,
        value: JsObject,
        d: Datatype,
        id: &JsVal,
        meta: &JsVal,
        handled: Result<JsVal, JsVal>,
    ) -> (r: Result<JsObject, Export>)
        ensures
            obj_result_view(r) == wrap_handled_spec(
                handled_view(handled),
                value.view(),
                d,
                id.view(),
                meta.view(),
                self.freeze,
            ),
    {
        match handled {
            Err(e) => Err(Export::CallDataHandler(d.name(), e)),
            Ok(JsVal::Object(mut w)) => {
                let raw = JsVal::Object(value);
                if !w.can_define_hidden(HiddenKey::RawData, &raw) {
                    return Err(Export::InvalidDataHandler(d.name()));
                }
                let _ = set_hidden_value(&mut w, HiddenKey::RawData, raw);
                if !can_tag_now(&w, d, id, meta) {
                    return Err(Export::InvalidDataHandler(d.name()));
                }
                self.tag(&mut w, d, id, meta);
                Ok(w)
            },
            Ok(_) => Err(Export::InvalidDataHandler(d.name())),
        }
    }

    /// Wraps object `value` of datatype `d`: passes it to the data handler registered
    /// for `d`, if any (see `wrap_handled`), then tags the result with the object's id
    /// (for maps, lists and text), its datatype and `meta`, and freezes it if exported
    /// objects are frozen.
    pub fn wrap_object(&self, value: JsObject, d: Datatype, id: &JsVal, meta: &JsVal) -> (r: Result<JsObject, Export>)
        requires
            !self.has_handler(d) ==> can_tag(value.view(), d, id.view(), meta.view()),
        ensures
            !self.has_handler(d) ==> (r matches Ok(w) && w.view() == tag_spec(
                value.view(),
                d,
                id.view(),
                meta.view(),
                self.freeze,
            )),
            self.has_handler(d) ==> exists|h: Result<JsV, JsV>|
                self.handlers.gives(d, JsV::Object(value.view()), h)
                && obj_result_view(r) == #[trigger] wrap_handled_spec(
                    h,
                    value.view(),
                    d,
                    id.view(),
                    meta.view(),
                    self.freeze,
                ),
            self.wrap_result(value.view(), d, id.view(), meta.view(), obj_result_view(r)),
            r matches Ok(w) ==> reads_as(w.view(), d, id.view()),
    {
        if self.is_registered(d) {
            let arg = JsVal::Object(value);
            let handled = self.handlers.call(d, &arg);
            let ghost h = handled_view(handled);
            let value = match arg {
                JsVal::Object(o) => o,
                _ => JsObject::new(JsClass::Plain),
            };
            let r = self.wrap_handled(value, d, id, meta, handled);
            assert(obj_result_view(r) == wrap_handled_spec(h, value.view(), d, id.view(), meta.view(), self.freeze));
            proof { lemma_handled_reads_as(h, value.view(), d, id.view(), meta.view(), self.freeze); }
            r
        } else {
            let mut value = value;
            proof { lemma_tag_reads_as(value.view(), d, id.view(), meta.view(), self.freeze); }
            self.tag(&mut value, d, id, meta);
            Ok(value)
        }
    }
}


/// What exporting an allocated value gives when no data handler is involved: an object
/// is tagged with its id, datatype and `meta`; a scalar is left as it is.
pub open spec fn maybe_wrap_spec(v: (Datatype, JsV), id: Seq<char>, meta: JsV, freeze: bool) -> JsV {
    match v.1 {
        JsV::Object(o) => JsV::Object(tag_spec(o, v.0, JsV::Str(id), meta, freeze)),
        x => x,
    }
}

/// What exporting an allocated value gives when the data handler for its datatype
/// returned `h`.
pub open spec fn maybe_wrap_handled_spec(
    h: Result<JsV, JsV>,
    v: (Datatype, JsV),
    id: Seq<char>,
    meta: JsV,
    freeze: bool,
) -> Result<JsV, ExportFault> {
    match v.1 {
        JsV::Object(o) => match wrap_handled_spec(h, o, v.0, JsV::Str(id), meta, freeze) {
            Ok(w) => Ok(JsV::Object(w)),
            Err(e) => Err(e),
        },
        x => export_handled_spec(h, x, v.0),
    }
}

/// Whether an allocated value can be exported without a data handler: an object must
/// be able to take its hidden properties.
pub open spec fn can_export(v: (Datatype, JsV), id: Seq<char>, meta: JsV) -> bool {
    v.1 matches JsV::Object(o) ==> can_tag(o, v.0, JsV::Str(id), meta)
}

/// What `unwrap_object` finds on an exported object: the raw object (the object itself
/// when it holds none), its datatype (read from the hidden datatype, else a list for an
/// array and a map otherwise) and its id (`_root` when it holds none).
pub open spec fn unwrap_object_spec(e: ObjV) -> (ObjV, Datatype, JsV) {
    let inner = match hidden_get(e, HiddenKey::RawData) {
        JsV::Object(o) => o,
        _ => e,
    };
    let d = match datatype_from_js_spec(hidden_get(e, HiddenKey::Datatype)) {
        Some(d) => d,
        None => if inner.class is Array { Datatype::List } else { Datatype::MapObj },
    };
    let id = match hidden_get(e, HiddenKey::ObjectId) {
        JsV::Undefined => JsV::Str("_root"@),
        x => x,
    };
    (inner, d, id)
}

/// What `unwrap_scalar` gives: the raw value that an exported value holds, or the value
/// itself when it holds none. Reading a hidden property of a value that is not an
/// object throws.
pub open spec fn unwrap_scalar_spec(v: JsV) -> Result<JsV, ExportFault> {
    match v {
        JsV::Object(o) => Ok(
            match hidden_get(o, HiddenKey::RawData) {
                JsV::Undefined => v,
                x => x,
            },
        ),
        _ => Err(ExportFault::GetProp(symbol_fault(HiddenKey::RawData))),
    }
}

impl<H: DataHandler> Automerge<H> {
    /// Exports an allocated value: an object is wrapped (see `wrap_object`) with the
    /// text of `id` as its id; a scalar is exported (see `export_value`).
    pub fn maybe_wrap_object(&self, value: (Datatype, JsVal), id: &ObjId, meta: &JsVal) -> (r: Result<JsVal, Export>)
        requires
            !self.has_handler(value.0) ==> can_export((value.0, value.1.view()), obj_id_text(id), meta.view()),
        ensures
            !self.has_handler(value.0) ==> (r matches Ok(v) && v.view() == maybe_wrap_spec(
                (value.0, value.1.view()),
                obj_id_text(id),
                meta.view(),
                self.freeze,
            )),
            self.has_handler(value.0) ==> exists|h: Result<JsV, JsV>|
                self.handlers.gives(value.0, value.1.view(), h)
                && val_result_view(r) == #[trigger] maybe_wrap_handled_spec(
                    h,
                    (value.0, value.1.view()),
                    obj_id_text(id),
                    meta.view(),
                    self.freeze,
                ),
            self.maybe_wrap_result((value.0, value.1.view()), obj_id_text(id), meta.view(), val_result_view(r)),
    {
        let (d, raw) = value;
        match raw {
            JsVal::Object(o) => {
                let ghost ov = o.view();
                let idv = JsVal::Str(id.to_text());
                let r = self.wrap_object(o, d, &idv, meta);
                let out = match r {
                    Ok(w) => Ok(JsVal::Object(w)),
                    Err(e) => Err(e),
                };
                proof {
                    if self.has_handler(d) {
                        let h = choose|h: Result<JsV, JsV>|
                            self.handlers.gives(d, JsV::Object(ov), h)
                            && obj_result_view(r) == #[trigger] wrap_handled_spec(h, ov, d, idv.view(), meta.view(), self.freeze);
                        assert(val_result_view(out) == maybe_wrap_handled_spec(h, (d, JsV::Object(ov)), obj_id_text(id), meta.view(), self.freeze));
                    }
                }
                out
            },
            _ => {
                let ghost rv = raw.view();
                let r = self.export_value((d, raw));
                proof {
                    if self.has_handler(d) {
                        let h = choose|h: Result<JsV, JsV>|
                            self.handlers.gives(d, rv, h)
                            && val_result_view(r) == #[trigger] export_handled_spec(h, rv, d);
                        assert(val_result_view(r) == maybe_wrap_handled_spec(h, (d, rv), obj_id_text(id), meta.view(), self.freeze));
                    }
                }
                r
            },
        }
    }

    /// Finds what an exported object stands for: its raw object, datatype and id (see
    /// `unwrap_object_spec`).
    pub fn unwrap_object(&self, ext_val: &JsObject) -> (r: Result<(JsObject, Datatype, JsVal), Export>)
        ensures
            r matches Ok(x) && (x.0.view(), x.1, x.2.view()) == unwrap_object_spec(ext_val.view()),
    {
        let inner = ext_val.get_hidden(HiddenKey::RawData);
        let datatype = datatype_from_js(&ext_val.get_hidden(HiddenKey::Datatype));
        let mut id = ext_val.get_hidden(HiddenKey::ObjectId);
        if matches!(id, JsVal::Undefined) {
            id = JsVal::Str("_root".to_owned());
        }
        let inner = match inner {
            JsVal::Object(o) => o,
            _ => ext_val.duplicate(),
        };
        let datatype = match datatype {
            Ok(d) => d,
            Err(_) => if matches!(inner.class, JsClass::Array) {
                Datatype::List
            } else {
                Datatype::MapObj
            },
        };
        Ok((inner, datatype, id))
    }

    /// The raw value an exported scalar holds (see `unwrap_scalar_spec`).
    pub fn unwrap_scalar(&self, ext_val: JsVal) -> (r: Result<JsVal, Export>)
        ensures
            val_result_view(r) == unwrap_scalar_spec(ext_val.view()),
    {
        let inner = match js_get_symbol(&ext_val, HiddenKey::RawData) {
            Ok(x) => x,
            Err(e) => return Err(Export::GetProp(e)),
        };
        if !matches!(inner, JsVal::Undefined) {
            Ok(inner)
        } else {
            Ok(ext_val)
        }
    }
}


/// Whether `o` holds no hidden property and is not frozen, as a new object.
pub open spec fn is_fresh(o: ObjV) -> bool {
    o.hidden.len() == 0 && !o.frozen
}

/// A new object can take the hidden properties of any tag.
pub proof fn lemma_fresh_can_tag(o: ObjV, d: Datatype, id: JsV, meta: JsV)
    requires
        is_fresh(o),
    ensures
        can_tag(o, d, id, meta),
{
    crate::js::lemma_lookup_absent(o.hidden, HiddenKey::ObjectId);
    crate::js::lemma_lookup_absent(o.hidden, HiddenKey::Datatype);
    crate::js::lemma_lookup_absent(o.hidden, HiddenKey::Meta);
    let o1 = if has_object_id(d) { define_spec(o, HiddenKey::ObjectId, id) } else { o };
    lemma_define_other(o, HiddenKey::ObjectId, id, HiddenKey::Datatype);
    lemma_define_other(o, HiddenKey::ObjectId, id, HiddenKey::Meta);
    lemma_define_other(o1, HiddenKey::Datatype, datatype_js(d), HiddenKey::Meta);
}

/// A freshly allocated value can be exported without a data handler.
pub proof fn lemma_alloc_can_export(v: &Value, id: Seq<char>, meta: JsV)
    ensures
        can_export(alloc_spec(v), id, meta),
{
    let a = alloc_spec(v);
    if let JsV::Object(o) = a.1 {
        lemma_fresh_can_tag(o, a.0, JsV::Str(id), meta);
    }
}


/// Defining a hidden key that can be defined makes it hold the value.
pub proof fn lemma_define_hits(o: ObjV, k: HiddenKey, v: JsV)
    requires
        can_define(o, k, v),
    ensures
        lookup(define_spec(o, k, v).hidden, k) == Some(v),
{
    if !crate::js::has_key(o.hidden, k) {
        lemma_define_new(o, k, v);
    }
}

/// What a tag leaves readable: the hidden id (for maps, lists and text), datatype and
/// metadata, and the object's contents as they were.
pub proof fn lemma_tag_reads(o: ObjV, d: Datatype, id: JsV, meta: JsV, freeze: bool)
    requires
        can_tag(o, d, id, meta),
    ensures
        ({
            let t = tag_spec(o, d, id, meta, freeze);
            &&& lookup(t.hidden, HiddenKey::Datatype) == Some(datatype_js(d))
            &&& has_object_id(d) ==> lookup(t.hidden, HiddenKey::ObjectId) == Some(id)
            &&& !has_object_id(d) ==> lookup(t.hidden, HiddenKey::ObjectId) == lookup(o.hidden, HiddenKey::ObjectId)
            &&& lookup(t.hidden, HiddenKey::Meta) == Some(meta)
            &&& lookup(t.hidden, HiddenKey::RawData) == lookup(o.hidden, HiddenKey::RawData)
            &&& t.class == o.class
            &&& t.elements == o.elements
            &&& t.bytes == o.bytes
            &&& t.props == o.props
            &&& t.frozen == (o.frozen || freeze)
        }),
{
    let o1 = if has_object_id(d) { define_spec(o, HiddenKey::ObjectId, id) } else { o };
    let o2 = define_spec(o1, HiddenKey::Datatype, datatype_js(d));
    let o3 = define_spec(o2, HiddenKey::Meta, meta);
    if has_object_id(d) {
        lemma_define_hits(o, HiddenKey::ObjectId, id);
        lemma_define_other(o, HiddenKey::ObjectId, id, HiddenKey::RawData);
    }
    lemma_define_hits(o1, HiddenKey::Datatype, datatype_js(d));
    lemma_define_other(o1, HiddenKey::Datatype, datatype_js(d), HiddenKey::ObjectId);
    lemma_define_other(o1, HiddenKey::Datatype, datatype_js(d), HiddenKey::RawData);
    lemma_define_hits(o2, HiddenKey::Meta, meta);
    lemma_define_other(o2, HiddenKey::Meta, meta, HiddenKey::Datatype);
    lemma_define_other(o2, HiddenKey::Meta, meta, HiddenKey::ObjectId);
    lemma_define_other(o2, HiddenKey::Meta, meta, HiddenKey::RawData);
}

/// Unwrapping an object that was wrapped without a data handler gives back the
/// object, with the datatype and id it was wrapped with.
pub proof fn law_wrap_unwrap(o: ObjV, d: Datatype, id: JsV, meta: JsV, freeze: bool)
    requires
        can_tag(o, d, id, meta),
        lacks(o, HiddenKey::RawData),
        has_object_id(d),
        !(id is Undefined),
    ensures
        unwrap_object_spec(tag_spec(o, d, id, meta, freeze)) == (tag_spec(o, d, id, meta, freeze), d, id),
{
    lemma_tag_reads(o, d, id, meta, freeze);
    crate::value::law_datatype_name_round_trip(d);
}

/// Unwrapping what a data handler's object became gives back the raw object that was
/// wrapped, with its datatype and id.
pub proof fn law_wrap_handled_unwrap(
    h: Result<JsV, JsV>,
    o: ObjV,
    d: Datatype,
    id: JsV,
    meta: JsV,
    freeze: bool,
)
    requires
        has_object_id(d),
        !(id is Undefined),
    ensures
        wrap_handled_spec(h, o, d, id, meta, freeze) matches Ok(t) ==> unwrap_object_spec(t) == (o, d, id),
{
    if let Ok(JsV::Object(w)) = h {
        if handler_object_ok(w, o, d, id, meta) {
            let w1 = define_spec(w, HiddenKey::RawData, JsV::Object(o));
            lemma_define_hits(w, HiddenKey::RawData, JsV::Object(o));
            lemma_tag_reads(w1, d, id, meta, freeze);
            crate::value::law_datatype_name_round_trip(d);
        }
    }
}

/// Unwrapping a scalar that a data handler's object stands for gives back the raw
/// value (a raw `undefined` cannot be told from no raw value).
pub proof fn law_export_handled_unwrap(h: Result<JsV, JsV>, raw: JsV, d: Datatype)
    requires
        !(raw is Undefined),
    ensures
        export_handled_spec(h, raw, d) matches Ok(v) ==> unwrap_scalar_spec(v) == Ok::<JsV, ExportFault>(raw),
{
    if let Ok(JsV::Object(w)) = h {
        if handler_scalar_ok(w, raw, d) {
            let w1 = define_spec(w, HiddenKey::RawData, raw);
            lemma_define_hits(w, HiddenKey::RawData, raw);
            lemma_define_other(w1, HiddenKey::Datatype, datatype_js(d), HiddenKey::RawData);
        }
    }
}


/// What a tagged object reads back as: its datatype, and its id where the datatype
/// carries one.
pub open spec fn reads_as(t: ObjV, d: Datatype, id: JsV) -> bool {
    &&& unwrap_object_spec(t).1 == d
    &&& (has_object_id(d) && !(id is Undefined)) ==> unwrap_object_spec(t).2 == id
}

/// A tagged object reads back as the datatype and id it was tagged with.
pub proof fn lemma_tag_reads_as(o: ObjV, d: Datatype, id: JsV, meta: JsV, freeze: bool)
    requires
        can_tag(o, d, id, meta),
    ensures
        reads_as(tag_spec(o, d, id, meta, freeze), d, id),
{
    lemma_tag_reads(o, d, id, meta, freeze);
    crate::value::law_datatype_name_round_trip(d);
}

/// What a data handler's object becomes reads back as the datatype and id it was
/// wrapped with.
pub proof fn lemma_handled_reads_as(h: Result<JsV, JsV>, o: ObjV, d: Datatype, id: JsV, meta: JsV, freeze: bool)
    ensures
        wrap_handled_spec(h, o, d, id, meta, freeze) matches Ok(t) ==> reads_as(t, d, id),
{
    if let Ok(JsV::Object(w)) = h {
        if handler_object_ok(w, o, d, id, meta) {
            let w1 = define_spec(w, HiddenKey::RawData, JsV::Object(o));
            lemma_tag_reads_as(w1, d, id, meta, freeze);
        }
    }
}

} // verus!
