//! Exporting the contents of an automerge object to JavaScript.
//!
//! The host reads the object out of the document (at the requested heads) into a
//! `DocValue`: for each object its id, the datatype it is exported as and its
//! entries (the keys of a map or table, the elements of a list or text), each with
//! its value. Exporting then builds the JavaScript values: an array of the exported
//! elements for a list or text, an object with the exported entries otherwise, each
//! wrapped as `wrap_object` does, and each scalar exported as `export_value` does.
//! Where data handlers are registered, what exporting can give is stated as a set of
//! results (`child_results`, `object_results`, `kids_results`), one for each result
//! the handlers can give; with no handler registered, exporting gives exactly the
//! value of `child_spec`.
use vstd::prelude::*;
use crate::error::{Export, ExportFault};
use crate::export::{
    is_fresh, lemma_fresh_can_tag, obj_result_view, reads_as, tag_spec, val_result_view, Automerge,
    DataHandler,
};
use crate::js::{empty_obj, set_spec, JsClass, JsObject, JsV, JsVal, ObjV};
use crate::value::{
    alloc_scalar, alloc_spec, obj_id_text, prop_key_spec, prop_to_js, Datatype, ObjId, Prop,
    ScalarValue, Value,
};

verus! {

/// A value read out of a document.
#[derive(Debug)]
pub enum DocValue {
    /// An object: its id, the datatype it is exported as, and its entries in the
    /// document's order (keys of a map or table, indices of a list or text).
    Object { id: ObjId, datatype: Datatype, entries: Vec<(Prop, DocValue)> },
    Scalar(ScalarValue),
}

/// The contents of an exported object, before it is wrapped: an array of the exported
/// elements for a list or text, and an object with each exported entry set under its
/// key otherwise.
pub open spec fn contents_spec(d: Datatype, entries: Seq<(Prop, DocValue)>, kids: Seq<JsV>) -> ObjV {
    if d == Datatype::List || d == Datatype::Text {
        ObjV { elements: kids, ..empty_obj(JsClass::Array) }
    } else {
        map_contents_spec(entries, kids)
    }
}

/// An object with each exported entry `kids[i]` set under the key of `entries[i]`, in
/// order.
pub open spec fn map_contents_spec(entries: Seq<(Prop, DocValue)>, kids: Seq<JsV>) -> ObjV
    decreases entries.len(),
{
    if entries.len() == 0 {
        empty_obj(JsClass::Plain)
    } else {
        set_spec(
            map_contents_spec(entries.drop_last(), kids),
            prop_key_spec(entries.last().0.view()),
            kids[entries.len() - 1],
        ).0
    }
}

/// The JavaScript value an object exports to when no data handler is involved.
pub open spec fn object_spec(id: ObjId, d: Datatype, entries: Seq<(Prop, DocValue)>, meta: JsV, freeze: bool) -> JsV
    decreases entries, 2int,
{
    let kids = kids_spec(entries, meta, freeze);
    JsV::Object(tag_spec(contents_spec(d, entries, kids), d, JsV::Str(obj_id_text(&id)), meta, freeze))
}

/// The JavaScript values that the values of `entries` export to, in order, when no
/// data handler is involved.
pub open spec fn kids_spec(entries: Seq<(Prop, DocValue)>, meta: JsV, freeze: bool) -> Seq<JsV>
    decreases entries, 1int,
{
    if entries.len() == 0 {
        Seq::empty()
    } else {
        kids_spec(entries.drop_last(), meta, freeze).push(child_spec(entries.last().1, meta, freeze))
    }
}

/// The JavaScript value a value read out of a document exports to, when no data
/// handler is involved.
pub open spec fn child_spec(v: DocValue, meta: JsV, freeze: bool) -> JsV
    decreases v, 0int,
{
    match v {
        DocValue::Scalar(s) => alloc_spec(&Value::Scalar(s)).1,
        DocValue::Object { id, datatype, entries } => {
            proof {
                assert(decreases_to!(entries => entries@));
            }
            object_spec(id, datatype, entries@, meta, freeze)
        },
    }
}

/// The values of `entries` export in order, one each.
pub proof fn lemma_kids(entries: Seq<(Prop, DocValue)>, meta: JsV, freeze: bool)
    ensures
        kids_spec(entries, meta, freeze).len() == entries.len(),
        forall|i: int| 0 <= i < entries.len() ==>
            #[trigger] kids_spec(entries, meta, freeze)[i] == child_spec(entries[i].1, meta, freeze),
    decreases entries.len(),
{
    if entries.len() > 0 {
        lemma_kids(entries.drop_last(), meta, freeze);
    }
}

/// Setting the entries of a prefix, one more at a time.
proof fn lemma_map_contents_step(entries: Seq<(Prop, DocValue)>, kids: Seq<JsV>, i: int)
    requires
        0 <= i < entries.len(),
    ensures
        map_contents_spec(entries.take(i + 1), kids) == set_spec(
            map_contents_spec(entries.take(i), kids),
            prop_key_spec(entries[i].0.view()),
            kids[i],
        ).0,
{
    assert(entries.take(i + 1).drop_last() =~= entries.take(i));
}

/// The entries set one after another on a new object leave it a new plain object.
proof fn lemma_map_contents_fresh(entries: Seq<(Prop, DocValue)>, kids: Seq<JsV>)
    ensures
        is_fresh(map_contents_spec(entries, kids)),
        map_contents_spec(entries, kids).class == JsClass::Plain,
    decreases entries.len(),
{
    if entries.len() > 0 {
        lemma_map_contents_fresh(entries.drop_last(), kids);
    }
}

/// An object's result as a JavaScript value.
pub open spec fn object_value(t: Result<ObjV, ExportFault>) -> Result<JsV, ExportFault> {
    match t {
        Ok(o) => Ok(JsV::Object(o)),
        Err(e) => Err(e),
    }
}

/// The contents of an exported object, or the fault that exporting its entries gave.
pub open spec fn contents_result(d: Datatype, entries: Seq<(Prop, DocValue)>, k: Result<Seq<JsV>, ExportFault>) -> Result<ObjV, ExportFault> {
    match k {
        Ok(kids) => Ok(contents_spec(d, entries, kids)),
        Err(e) => Err(e),
    }
}

/// One more entry exported after the ones before, which gave `items`: `w` appended
/// to them, or the fault it gave.
pub open spec fn kids_step(items: Seq<JsV>, w: Result<JsV, ExportFault>) -> Result<Seq<JsV>, ExportFault> {
    match w {
        Ok(x) => Ok(items.push(x)),
        Err(e) => Err(e),
    }
}

impl<H: DataHandler> Automerge<H> {
    /// The results that exporting `v` can give: a scalar as `export_result` says, an
    /// object as `object_results` says.
    pub open spec fn child_results(&self, v: DocValue, meta: JsV) -> Set<Result<JsV, ExportFault>>
        decreases v, 0int,
    {
        match v {
            DocValue::Scalar(s) => {
                let a = alloc_spec(&Value::Scalar(s));
                Set::new(|w: Result<JsV, ExportFault>| self.export_result(a.0, a.1, w))
            },
            DocValue::Object { id, datatype, entries } => {
                proof {
                    assert(decreases_to!(entries => entries@));
                }
                self.object_results(id, datatype, entries@, meta)
            },
        }
    }

    /// The results that exporting object `id` of datatype `d` with `entries` can give:
    /// the first fault of its entries, or its contents wrapped as `wrap_result` says.
    pub open spec fn object_results(&self, id: ObjId, d: Datatype, entries: Seq<(Prop, DocValue)>, meta: JsV) -> Set<Result<JsV, ExportFault>>
        decreases entries, 2int,
    {
        let ks = self.kids_results(entries, meta);
        Set::new(|w: Result<JsV, ExportFault>| exists|k: Result<Seq<JsV>, ExportFault>| #[trigger] ks.contains(k) && match k {
            Err(e) => w == Err::<JsV, ExportFault>(e),
            Ok(kids) => exists|t: Result<ObjV, ExportFault>|
                self.wrap_result(contents_spec(d, entries, kids), d, JsV::Str(obj_id_text(&id)), meta, t)
                && w == #[trigger] object_value(t),
        })
    }

    /// The results that exporting the values of `entries` in order can give: the
    /// exported values, or the fault of the first that failed.
    pub open spec fn kids_results(&self, entries: Seq<(Prop, DocValue)>, meta: JsV) -> Set<Result<Seq<JsV>, ExportFault>>
        decreases entries, 1int,
    {
        if entries.len() == 0 {
            set![Ok(Seq::<JsV>::empty())]
        } else {
            let prev = self.kids_results(entries.drop_last(), meta);
            let last = self.child_results(entries.last().1, meta);
            Set::new(|k: Result<Seq<JsV>, ExportFault>|
                (k is Err && prev.contains(k)) || exists|items: Seq<JsV>, w: Result<JsV, ExportFault>|
                    #[trigger] prev.contains(Ok(items)) && #[trigger] last.contains(w) && k == kids_step(items, w))
        }
    }
}

impl<H: DataHandler> Automerge<H> {
    /// Exporting one more entry after a prefix that gave `items`.
    proof fn lemma_kids_next(&self, entries: Seq<(Prop, DocValue)>, meta: JsV, i: int, items: Seq<JsV>, w: Result<JsV, ExportFault>)
        requires
            0 <= i < entries.len(),
            self.kids_results(entries.take(i), meta).contains(Ok(items)),
            self.child_results(entries[i].1, meta).contains(w),
        ensures
            self.kids_results(entries.take(i + 1), meta).contains(kids_step(items, w)),
    {
        let t = entries.take(i + 1);
        assert(t.drop_last() =~= entries.take(i));
        assert(t.last() == entries[i]);
        let prev = self.kids_results(t.drop_last(), meta);
        let last = self.child_results(t.last().1, meta);
        assert(prev.contains(Ok(items)) && last.contains(w));
    }

    /// A fault of a prefix is the fault of all the entries: exporting stops there.
    proof fn lemma_kids_fault(&self, entries: Seq<(Prop, DocValue)>, meta: JsV, i: int, e: ExportFault)
        requires
            0 <= i <= entries.len(),
            self.kids_results(entries.take(i), meta).contains(Err(e)),
        ensures
            self.kids_results(entries, meta).contains(Err(e)),
        decreases entries.len() - i,
    {
        if i == entries.len() {
            assert(entries.take(i) =~= entries);
        } else {
            let t = entries.take(i + 1);
            assert(t.drop_last() =~= entries.take(i));
            self.lemma_kids_fault(entries, meta, i + 1, e);
        }
    }
}

impl<H: DataHandler> Automerge<H> {
    /// With no data handler registered, exporting a value read out of a document has
    /// exactly one result: the value of `child_spec`.
    pub proof fn law_export_without_handlers(&self, v: DocValue, meta: JsV)
        requires
            self.external_types@.len() == 0,
        ensures
            self.child_results(v, meta) == set![Ok::<JsV, ExportFault>(child_spec(v, meta, self.freeze))],
        decreases v, 0int,
    {
        let want = set![Ok::<JsV, ExportFault>(child_spec(v, meta, self.freeze))];
        match v {
            DocValue::Scalar(sc) => {
                let a = alloc_spec(&Value::Scalar(sc));
                assert(!self.has_handler(a.0));
                assert(self.child_results(v, meta) =~= want);
            },
            DocValue::Object { id, datatype, entries } => {
                assert(decreases_to!(entries => entries@));
                self.lemma_object_without_handlers(id, datatype, entries@, meta);
            },
        }
    }

    /// With no data handler registered, exporting an object has exactly one result.
    proof fn lemma_object_without_handlers(&self, id: ObjId, d: Datatype, entries: Seq<(Prop, DocValue)>, meta: JsV)
        requires
            self.external_types@.len() == 0,
        ensures
            self.object_results(id, d, entries, meta) == set![
                Ok::<JsV, ExportFault>(object_spec(id, d, entries, meta, self.freeze)),
            ],
        decreases entries, 2int,
    {
        self.lemma_kids_without_handlers(entries, meta);
        let kids = kids_spec(entries, meta, self.freeze);
        let ks = self.kids_results(entries, meta);
        let c = contents_spec(d, entries, kids);
        let idv = JsV::Str(obj_id_text(&id));
        let t = Ok::<ObjV, ExportFault>(tag_spec(c, d, idv, meta, self.freeze));
        assert(!self.has_handler(d));
        let want = set![Ok::<JsV, ExportFault>(object_spec(id, d, entries, meta, self.freeze))];
        assert forall|w: Result<JsV, ExportFault>| self.object_results(id, d, entries, meta).contains(w) <==> want.contains(w) by {
            if want.contains(w) {
                assert(ks.contains(Ok::<Seq<JsV>, ExportFault>(kids)));
                assert(self.wrap_result(c, d, idv, meta, t) && w == object_value(t));
            }
        }
        assert(self.object_results(id, d, entries, meta) =~= want);
    }

    /// With no data handler registered, exporting the values of `entries` has exactly
    /// one result.
    proof fn lemma_kids_without_handlers(&self, entries: Seq<(Prop, DocValue)>, meta: JsV)
        requires
            self.external_types@.len() == 0,
        ensures
            self.kids_results(entries, meta) == set![Ok::<Seq<JsV>, ExportFault>(kids_spec(entries, meta, self.freeze))],
        decreases entries, 1int,
    {
        let want = set![Ok::<Seq<JsV>, ExportFault>(kids_spec(entries, meta, self.freeze))];
        if entries.len() == 0 {
            assert(self.kids_results(entries, meta) =~= want);
        } else {
            self.lemma_kids_without_handlers(entries.drop_last(), meta);
            self.law_export_without_handlers(entries.last().1, meta);
            let items = kids_spec(entries.drop_last(), meta, self.freeze);
            let w = Ok::<JsV, ExportFault>(child_spec(entries.last().1, meta, self.freeze));
            let prev = self.kids_results(entries.drop_last(), meta);
            let last = self.child_results(entries.last().1, meta);
            assert forall|k: Result<Seq<JsV>, ExportFault>| self.kids_results(entries, meta).contains(k) <==> want.contains(k) by {
                if want.contains(k) {
                    assert(prev.contains(Ok(items)) && last.contains(w) && k == kids_step(items, w));
                }
            }
            assert(self.kids_results(entries, meta) =~= want);
        }
    }
}

/// Only the first `entries.len()` exported values matter to the contents of a map.
proof fn lemma_map_contents_prefix(entries: Seq<(Prop, DocValue)>, k1: Seq<JsV>, k2: Seq<JsV>)
    requires
        forall|j: int| 0 <= j < entries.len() ==> k1[j] == k2[j],
    ensures
        map_contents_spec(entries, k1) == map_contents_spec(entries, k2),
    decreases entries.len(),
{
    if entries.len() > 0 {
        lemma_map_contents_prefix(entries.drop_last(), k1, k2);
    }
}

impl<H: DataHandler> Automerge<H> {
    /// Exports object `id`, as datatype `d`, with the given entries: its contents (see
    /// `export_list` and `export_map`), wrapped (see `wrap_object`) with the text of
    /// `id`.
    pub fn export_object(&self, id: &ObjId, d: Datatype, entries: &Vec<(Prop, DocValue)>, meta: &JsVal) -> (r: Result<JsVal, Export>)
        ensures
            self.object_results(*id, d, entries@, meta.view()).contains(val_result_view(r)),
            self.external_types@.len() == 0 ==> (r matches Ok(x) && x.view() == object_spec(
                *id,
                d,
                entries@,
                meta.view(),
                self.freeze,
            )),
            r matches Ok(x) ==> (x.view() matches JsV::Object(o) && reads_as(o, d, JsV::Str(obj_id_text(id)))),
        decreases entries, 2int,
    {
        let ghost ks = self.kids_results(entries@, meta.view());
        let res = if d.is_sequence() {
            self.export_list(entries, meta)
        } else {
            self.export_map(entries, meta)
        };
        proof {
            let d0 = if d == Datatype::List || d == Datatype::Text { Datatype::List } else { Datatype::MapObj };
            let k0 = choose|k: Result<Seq<JsV>, ExportFault>|
                #[trigger] ks.contains(k) && obj_result_view(res) == contents_result(d0, entries@, k);
            assert(contents_result(d, entries@, k0) == contents_result(d0, entries@, k0));
        }
        let ghost k = choose|k: Result<Seq<JsV>, ExportFault>|
            #[trigger] ks.contains(k) && obj_result_view(res) == contents_result(d, entries@, k);
        let contents = match res {
            Ok(c) => c,
            Err(e) => {
                proof {
                    assert(ks.contains(k) && k == Err::<Seq<JsV>, ExportFault>(e.fault()));
                }
                return Err(e);
            },
        };
        let idv = JsVal::Str(id.to_text());
        proof {
            lemma_fresh_can_tag(contents.view(), d, idv.view(), meta.view());
        }
        let wrapped = self.wrap_object(contents, d, &idv, meta);
        let r = match wrapped {
            Ok(w) => Ok(JsVal::Object(w)),
            Err(e) => Err(e),
        };
        proof {
            let t = obj_result_view(wrapped);
            assert(val_result_view(r) == object_value(t));
            assert(ks.contains(k) && k == Ok::<Seq<JsV>, ExportFault>(k->Ok_0));
            assert(self.wrap_result(contents_spec(d, entries@, k->Ok_0), d, JsV::Str(obj_id_text(id)), meta.view(), t));
        }
        r
    }

    /// Exports a value read out of a document: an object as `export_object` does, a
    /// scalar as `export_value` does.
    pub fn export_child(&self, v: &DocValue, meta: &JsVal) -> (r: Result<JsVal, Export>)
        ensures
            self.child_results(*v, meta.view()).contains(val_result_view(r)),
            self.external_types@.len() == 0 ==> (r matches Ok(x) && x.view() == child_spec(
                *v,
                meta.view(),
                self.freeze,
            )),
        decreases v, 0int,
    {
        match v {
            DocValue::Scalar(s) => self.export_value(alloc_scalar(s)),
            DocValue::Object { id, datatype, entries } => self.export_object(id, *datatype, entries, meta),
        }
    }

    /// The exported elements of a list or text, as a new array.
    pub fn export_list(&self, entries: &Vec<(Prop, DocValue)>, meta: &JsVal) -> (r: Result<JsObject, Export>)
        ensures
            exists|k: Result<Seq<JsV>, ExportFault>|
                #[trigger] self.kids_results(entries@, meta.view()).contains(k)
                && obj_result_view(r) == contents_result(Datatype::List, entries@, k),
            self.external_types@.len() == 0 ==> (r matches Ok(x) && x.view() == ObjV {
                elements: kids_spec(entries@, meta.view(), self.freeze),
                ..empty_obj(JsClass::Array)
            }),
            r matches Ok(x) ==> is_fresh(x.view()) && x.view().class == JsClass::Array,
        decreases entries, 1int,
    {
        let ghost kids = kids_spec(entries@, meta.view(), self.freeze);
        proof {
            lemma_kids(entries@, meta.view(), self.freeze);
            assert(entries@.take(0) =~= Seq::<(Prop, DocValue)>::empty());
        }
        let mut array = JsObject::new(JsClass::Array);
        let mut i: usize = 0;
        while i < entries.len()
            invariant
                i <= entries.len(),
                kids == kids_spec(entries@, meta.view(), self.freeze),
                kids.len() == entries@.len(),
                forall|j: int| 0 <= j < entries@.len() ==> #[trigger] kids[j] == child_spec(entries@[j].1, meta.view(), self.freeze),
                array.view().class == JsClass::Array,
                is_fresh(array.view()),
                array.view().props.len() == 0,
                array.view().bytes.len() == 0,
                self.kids_results(entries@.take(i as int), meta.view()).contains(Ok(array.view().elements)),
                self.external_types@.len() == 0 ==> array.view().elements =~= kids.take(i as int),
            decreases entries.len() - i,
        {
            proof {
                broadcast use vstd::std_specs::vec::axiom_vec_index_decreases;
                assert(decreases_to!(entries => entries[i as int]));
                assert(decreases_to!(entries[i as int] => entries[i as int].1));
            }
            let res = self.export_child(&entries[i].1, meta);
            let sub = match res {
                Ok(v) => v,
                Err(e) => {
                    proof {
                        self.lemma_kids_next(entries@, meta.view(), i as int, array.view().elements, val_result_view(res));
                        self.lemma_kids_fault(entries@, meta.view(), i + 1, e.fault());
                        assert(obj_result_view(Err(e)) == contents_result(Datatype::List, entries@, Err(e.fault())));
                    }
                    return Err(e);
                },
            };
            let ghost before = array.view();
            proof {
                array.lemma_view_parts();
                self.lemma_kids_next(entries@, meta.view(), i as int, before.elements, val_result_view(res));
            }
            array.elements.push(sub);
            proof {
                array.lemma_view_parts();
                assert(array.view().elements =~= before.elements.push(sub.view()));
                assert(array.view().props =~= before.props);
                assert(array.view().hidden =~= before.hidden);
                if self.external_types@.len() == 0 {
                    assert(kids.take(i + 1) =~= kids.take(i as int).push(kids[i as int]));
                }
            }
            i = i + 1;
        }
        proof {
            assert(entries@.take(entries.len() as int) =~= entries@);
            assert(array.view().props =~= Seq::<(Seq<char>, JsV)>::empty());
            assert(array.view().bytes =~= Seq::<u8>::empty());
            assert(array.view().hidden =~= Seq::<(crate::js::HiddenKey, JsV)>::empty());
            assert(array.view() =~= ObjV { elements: array.view().elements, ..empty_obj(JsClass::Array) });
            assert(obj_result_view(Ok(array)) == contents_result(Datatype::List, entries@, Ok(array.view().elements)));
            if self.external_types@.len() == 0 {
                assert(kids.take(entries.len() as int) =~= kids);
            }
        }
        Ok(array)
    }

    /// The exported entries of a map or table, as a new object with each set under
    /// its key.
    pub fn export_map(&self, entries: &Vec<(Prop, DocValue)>, meta: &JsVal) -> (r: Result<JsObject, Export>)
        ensures
            exists|k: Result<Seq<JsV>, ExportFault>|
                #[trigger] self.kids_results(entries@, meta.view()).contains(k)
                && obj_result_view(r) == contents_result(Datatype::MapObj, entries@, k),
            self.external_types@.len() == 0 ==> (r matches Ok(x) && x.view() == map_contents_spec(
                entries@,
                kids_spec(entries@, meta.view(), self.freeze),
            )),
            r matches Ok(x) ==> is_fresh(x.view()) && x.view().class == JsClass::Plain,
        decreases entries, 1int,
    {
        let ghost kids = kids_spec(entries@, meta.view(), self.freeze);
        proof { lemma_kids(entries@, meta.view(), self.freeze); }
        let mut map = JsObject::new(JsClass::Plain);
        let ghost mut items: Seq<JsV> = Seq::empty();
        proof { assert(entries@.take(0) =~= Seq::<(Prop, DocValue)>::empty()); }
        let mut i: usize = 0;
        while i < entries.len()
            invariant
                i <= entries.len(),
                kids == kids_spec(entries@, meta.view(), self.freeze),
                kids.len() == entries@.len(),
                forall|j: int| 0 <= j < entries@.len() ==> #[trigger] kids[j] == child_spec(entries@[j].1, meta.view(), self.freeze),
                map.view().class == JsClass::Plain,
                is_fresh(map.view()),
                items.len() == i,
                self.kids_results(entries@.take(i as int), meta.view()).contains(Ok(items)),
                map.view() == map_contents_spec(entries@.take(i as int), items),
                self.external_types@.len() == 0 ==> map.view() == map_contents_spec(entries@.take(i as int), kids),
            decreases entries.len() - i,
        {
            proof {
                broadcast use vstd::std_specs::vec::axiom_vec_index_decreases;
                assert(decreases_to!(entries => entries[i as int]));
                assert(decreases_to!(entries[i as int] => entries[i as int].1));
            }
            let res = self.export_child(&entries[i].1, meta);
            let sub = match res {
                Ok(v) => v,
                Err(e) => {
                    proof {
                        self.lemma_kids_next(entries@, meta.view(), i as int, items, val_result_view(res));
                        self.lemma_kids_fault(entries@, meta.view(), i + 1, e.fault());
                        assert(obj_result_view(Err(e)) == contents_result(Datatype::MapObj, entries@, Err(e.fault())));
                    }
                    return Err(e);
                },
            };
            proof {
                self.lemma_kids_next(entries@, meta.view(), i as int, items, val_result_view(res));
            }
            let ghost next = items.push(sub.view());
            let key = prop_to_js(&entries[i].0);
            let _ = map.reflect_set(&key, sub);
            proof {
                lemma_map_contents_step(entries@, next, i as int);
                lemma_map_contents_prefix(entries@.take(i as int), items, next);
                if self.external_types@.len() == 0 {
                    lemma_map_contents_step(entries@, kids, i as int);
                }
                items = next;
            }
            i = i + 1;
        }
        proof {
            assert(entries@.take(entries.len() as int) =~= entries@);
            assert(obj_result_view(Ok(map)) == contents_result(Datatype::MapObj, entries@, Ok(items)));
        }
        Ok(map)
    }
}


/// An exported map, list or text reads back, through `unwrap_object`, as its own
/// datatype and the text of its id.
pub proof fn law_export_unwrap(id: ObjId, d: Datatype, entries: Seq<(Prop, DocValue)>, meta: JsV, freeze: bool)
    requires
        crate::export::has_object_id(d),
    ensures
        object_spec(id, d, entries, meta, freeze) matches JsV::Object(o)
            && crate::export::unwrap_object_spec(o) == (o, d, JsV::Str(obj_id_text(&id))),
{
    let kids = kids_spec(entries, meta, freeze);
    let c = contents_spec(d, entries, kids);
    if !(d == Datatype::List || d == Datatype::Text) {
        lemma_map_contents_fresh(entries, kids);
    }
    let idv = JsV::Str(obj_id_text(&id));
    lemma_fresh_can_tag(c, d, idv, meta);
    crate::js::lemma_lookup_absent(c.hidden, crate::js::HiddenKey::RawData);
    crate::export::law_wrap_unwrap(c, d, idv, meta, freeze);
}

} // verus!
