//! Applying automerge patches to the JavaScript values that mirror a document.
//!
//! Each step copies the object it changes (arrays with `Array.from`, other objects
//! with `Object.assign`), changes the copy and tags it again, so that values handed
//! out earlier are never modified.
use vstd::prelude::*;
use crate::error::{ApplyPatch, Export, ExportFault, PatchFault};
use crate::export::{
    export_handled_spec, has_object_id, is_fresh, reads_as, val_result_view, lemma_alloc_can_export, lemma_fresh_can_tag, maybe_wrap_spec,
    obj_result_view, tag_spec, unwrap_object_spec, unwrap_scalar_spec, Automerge, DataHandler,
};
use crate::js::{
    assign_copy_spec, delete_spec, extend_copies, get_spec, set_spec, shallow_copy_spec,
    type_error, type_error_spec, vals_view, JsClass, JsNumber, JsObject, JsV, JsVal, KeyV, ObjV,
    PropKey,
};
use crate::num::{int_number, number_as_i64, number_to_i64};
use crate::value::{
    alloc_spec, alloc_value, obj_id_text, prop_key_spec, prop_to_js, Datatype, ObjId, Prop,
    ScalarValue, Value,
};

verus! {

/// A change to a document, as the observer of the document reports it. `path` leads
/// from the root to the changed object: each step is an object and the property under
/// which its child sits.
#[allow(inconsistent_fields)]
#[derive(Debug)]
pub enum Patch {
    PutMap { obj: ObjId, path: Vec<(ObjId, Prop)>, key: String, value: (Value, ObjId), conflict: bool },
    PutSeq { obj: ObjId, path: Vec<(ObjId, Prop)>, index: usize, value: (Value, ObjId), conflict: bool },
    Insert { obj: ObjId, path: Vec<(ObjId, Prop)>, index: usize, values: Vec<(Value, ObjId)> },
    Increment { obj: ObjId, path: Vec<(ObjId, Prop)>, prop: Prop, value: i64 },
    DeleteMap { obj: ObjId, path: Vec<(ObjId, Prop)>, key: String },
    DeleteSeq { obj: ObjId, path: Vec<(ObjId, Prop)>, index: usize, length: usize },
}

impl Patch {
    pub open spec fn path_spec(&self) -> Seq<(ObjId, Prop)> {
        match self {
            Patch::PutMap { path, .. } => path@,
            Patch::PutSeq { path, .. } => path@,
            Patch::Insert { path, .. } => path@,
            Patch::Increment { path, .. } => path@,
            Patch::DeleteMap { path, .. } => path@,
            Patch::DeleteSeq { path, .. } => path@,
        }
    }

    /// The path to the changed object.
    pub fn path(&self) -> (r: &Vec<(ObjId, Prop)>)
        ensures
            r@ == self.path_spec(),
    {
        match self {
            Patch::PutMap { path, .. } => path,
            Patch::PutSeq { path, .. } => path,
            Patch::Insert { path, .. } => path,
            Patch::Increment { path, .. } => path,
            Patch::DeleteMap { path, .. } => path,
            Patch::DeleteSeq { path, .. } => path,
        }
    }
}

/// The view of the result of applying a patch.
pub open spec fn patch_result_view(r: Result<JsObject, ApplyPatch>) -> Result<ObjV, PatchFault> {
    match r {
        Ok(v) => Ok(v.view()),
        Err(e) => Err(e.fault()),
    }
}

/// Whether `b` has the class, hidden properties and frozenness of `a`.
pub open spec fn same_shell(a: ObjV, b: ObjV) -> bool {
    a.class == b.class && a.hidden == b.hidden && a.frozen == b.frozen
}

/// The exported forms of newly inserted values, when no data handler is involved.
pub open spec fn wrapped_values(values: Seq<(Value, ObjId)>, meta: JsV, freeze: bool) -> Seq<JsV> {
    Seq::new(
        values.len(),
        |i: int| maybe_wrap_spec(alloc_spec(&values[i].0), obj_id_text(&values[i].1), meta, freeze),
    )
}

/// Where `splice(index, ..)` starts on an array of length `len`: the index as a
/// 32-bit unsigned number, but no further than the end.
pub open spec fn splice_start(len: nat, index: usize) -> nat {
    if (index as u32) as nat <= len {
        (index as u32) as nat
    } else {
        len
    }
}

/// How many elements `splice(index, num_del, ..)` removes from an array of length `len`.
pub open spec fn splice_count(len: nat, index: usize, num_del: usize) -> nat {
    let start = splice_start(len, index);
    if (num_del as u32) as nat <= len - start {
        (num_del as u32) as nat
    } else {
        (len - start) as nat
    }
}

/// The array after `o.splice(index, num_del, ...items)`.
pub open spec fn splice_spec(o: ObjV, index: usize, num_del: usize, items: Seq<JsV>) -> ObjV {
    let len = o.elements.len();
    let start = splice_start(len, index);
    let del = splice_count(len, index, num_del);
    ObjV { elements: o.elements.take(start as int) + items + o.elements.skip((start + del) as int), ..o }
}

/// What `splice` gives: the changed array, or the type error a frozen array throws.
pub open spec fn splice_result_spec(o: ObjV, index: usize, num_del: usize, items: Seq<JsV>) -> Result<ObjV, ExportFault> {
    if o.frozen {
        Err(ExportFault::CallSplice(type_error_spec()))
    } else {
        Ok(splice_spec(o, index, num_del, items))
    }
}

/// The value under `k` of `o`.
pub open spec fn counter_old(o: ObjV, k: KeyV) -> JsV {
    match get_spec(JsV::Object(o), k) {
        Some(x) => x,
        None => JsV::Undefined,
    }
}

/// A counter's number, converted as `as i64` converts a double, plus `by` (wrapping
/// around), as the JavaScript number the new counter becomes.
pub open spec fn incremented(n: JsNumber, by: i64) -> JsV {
    JsV::Number(int_number((number_to_i64(n) as i64).wrapping_add(by) as int))
}

/// Incrementing the counter under `k` of `o` by `by`, when no data handler is involved:
/// the counter's raw value must be a number, and the incremented number is stored.
pub open spec fn increment_spec(o: ObjV, k: KeyV, by: i64) -> Result<ObjV, PatchFault> {
    match unwrap_scalar_spec(counter_old(o, k)) {
        Err(e) => Err(PatchFault::Export(e)),
        Ok(JsV::Number(n)) => Ok(set_spec(o, k, incremented(n, by)).0),
        Ok(_) => Err(PatchFault::IncrementNonNumeric),
    }
}

/// Incrementing the counter under `k` of `o` by `by` when the data handler for
/// counters returned `h` for the incremented number: what the handler's result
/// exports to is stored.
pub open spec fn increment_handled_spec(o: ObjV, k: KeyV, by: i64, h: Result<JsV, JsV>) -> Result<ObjV, PatchFault> {
    match unwrap_scalar_spec(counter_old(o, k)) {
        Err(e) => Err(PatchFault::Export(e)),
        Ok(JsV::Number(n)) => match export_handled_spec(h, incremented(n, by), Datatype::Counter) {
            Ok(v) => Ok(set_spec(o, k, v).0),
            Err(e) => Err(PatchFault::Export(e)),
        },
        Ok(_) => Err(PatchFault::IncrementNonNumeric),
    }
}

/// An array changed by a patch, when no data handler is involved.
pub open spec fn array_patch_spec(a: ObjV, p: &Patch, meta: JsV, freeze: bool) -> Result<ObjV, PatchFault> {
    let r0 = shallow_copy_spec(a);
    match p {
        Patch::PutSeq { index, value, .. } => Ok(
            set_spec(
                r0,
                KeyV::Index(*index as nat),
                maybe_wrap_spec(alloc_spec(&value.0), obj_id_text(&value.1), meta, freeze),
            ).0,
        ),
        Patch::DeleteSeq { index, .. } => Ok(splice_spec(r0, *index, 1, Seq::empty())),
        Patch::Insert { index, values, .. } => Ok(
            splice_spec(r0, *index, 0, wrapped_values(values@, meta, freeze)),
        ),
        Patch::Increment { prop, value, .. } => match prop {
            Prop::Index(i) => increment_spec(r0, KeyV::Index(*i as nat), *value),
            Prop::Key(_) => Err(PatchFault::IncrementKeyInSeq),
        },
        Patch::DeleteMap { .. } => Err(PatchFault::DeleteKeyFromSeq),
        Patch::PutMap { .. } => Err(PatchFault::PutKeyInSeq),
    }
}

/// A map changed by a patch, when no data handler is involved.
pub open spec fn map_patch_spec(m: ObjV, p: &Patch, meta: JsV, freeze: bool) -> Result<ObjV, PatchFault> {
    let r0 = assign_copy_spec(m);
    match p {
        Patch::PutMap { key, value, .. } => Ok(
            set_spec(
                r0,
                KeyV::Name(key@),
                maybe_wrap_spec(alloc_spec(&value.0), obj_id_text(&value.1), meta, freeze),
            ).0,
        ),
        Patch::DeleteMap { key, .. } => Ok(delete_spec(r0, key@)),
        Patch::Increment { prop, value, .. } => match prop {
            Prop::Key(k) => increment_spec(r0, KeyV::Name(k@), *value),
            Prop::Index(_) => Err(PatchFault::IncrementIndexInMap),
        },
        Patch::Insert { .. } => Err(PatchFault::InsertInMap),
        Patch::DeleteSeq { .. } => Err(PatchFault::SpliceInMap),
        Patch::PutSeq { .. } => Err(PatchFault::PutIdxInMap),
    }
}

/// An exported object changed by a patch, when no data handler is involved.
///
/// The patch's path is followed from position `depth`: the child under the next step
/// is changed, a copy of the raw object gets the changed child, and the copy is tagged
/// as the object was. Where the child is not an object (it was deleted), nothing
/// changes. At the end of the path the raw object itself is changed, as an array or
/// as a map.
pub open spec fn apply_patch_spec(obj: ObjV, p: &Patch, depth: nat, meta: JsV, freeze: bool) -> Result<ObjV, PatchFault>
    decreases p.path_spec().len() - depth,
{
    let (inner, d, id) = unwrap_object_spec(obj);
    if depth < p.path_spec().len() {
        let k = prop_key_spec(p.path_spec()[depth as int].1.view());
        match get_spec(JsV::Object(inner), k) {
            Some(JsV::Object(sub)) => match apply_patch_spec(sub, p, depth + 1, meta, freeze) {
                Ok(nv) => Ok(tag_spec(set_spec(shallow_copy_spec(inner), k, JsV::Object(nv)).0, d, id, meta, freeze)),
                Err(e) => Err(e),
            },
            _ => Ok(obj),
        }
    } else {
        let r = if inner.class is Array {
            array_patch_spec(inner, p, meta, freeze)
        } else {
            map_patch_spec(inner, p, meta, freeze)
        };
        match r {
            Ok(res) => Ok(tag_spec(res, d, id, meta, freeze)),
            Err(e) => Err(e),
        }
    }
}

/// The object after storing an exported value under `k`, or the export's failure.
pub open spec fn stored(o: ObjV, k: KeyV, w: Result<JsV, ExportFault>) -> Result<ObjV, PatchFault> {
    match w {
        Ok(v) => Ok(set_spec(o, k, v).0),
        Err(e) => Err(PatchFault::Export(e)),
    }
}

/// What `splice` gives once the inserted values were exported (or one failed).
pub open spec fn splice_outcome(o: ObjV, index: usize, num_del: usize, ws: Result<Seq<JsV>, ExportFault>) -> Result<ObjV, ExportFault> {
    match ws {
        Ok(items) => splice_result_spec(o, index, num_del, items),
        Err(e) => Err(e),
    }
}

/// A wrap's outcome as a patch's outcome.
pub open spec fn wrapped_outcome(w: Result<ObjV, ExportFault>) -> Result<ObjV, PatchFault> {
    match w {
        Ok(x) => Ok(x),
        Err(e) => Err(PatchFault::Export(e)),
    }
}

impl<H: DataHandler> Automerge<H> {
    /// Whether exporting `values` in order can give `ws`: all of them exported, or the
    /// failure of the first that fails after the ones before it were exported.
    pub open spec fn wraps_rel(&self, values: Seq<(Value, ObjId)>, meta: JsV, ws: Result<Seq<JsV>, ExportFault>) -> bool {
        match ws {
            Ok(items) => items.len() == values.len() && forall|i: int|
                0 <= i < values.len() ==> #[trigger] self.maybe_wrap_result(
                    alloc_spec(&values[i].0),
                    obj_id_text(&values[i].1),
                    meta,
                    Ok(items[i]),
                ),
            Err(e) => exists|j: int, done: Seq<JsV>|
                #![trigger values[j], done.len()]
                0 <= j < values.len() && done.len() == j && (forall|i: int|
                    0 <= i < j ==> #[trigger] self.maybe_wrap_result(
                        alloc_spec(&values[i].0),
                        obj_id_text(&values[i].1),
                        meta,
                        Ok(done[i]),
                    )) && self.maybe_wrap_result(alloc_spec(&values[j].0), obj_id_text(&values[j].1), meta, Err(e)),
        }
    }

    /// Whether incrementing the counter under `k` of `o` by `by` can give `r`: the
    /// counter's raw value must be a number, and what exporting the incremented number
    /// gives is stored.
    pub open spec fn increment_rel(&self, o: ObjV, k: KeyV, by: i64, r: Result<ObjV, PatchFault>) -> bool {
        match unwrap_scalar_spec(counter_old(o, k)) {
            Err(e) => r == Err::<ObjV, PatchFault>(PatchFault::Export(e)),
            Ok(JsV::Number(n)) => exists|w: Result<JsV, ExportFault>|
                #[trigger] self.export_result(Datatype::Counter, incremented(n, by), w) && r == stored(o, k, w),
            Ok(_) => r == Err::<ObjV, PatchFault>(PatchFault::IncrementNonNumeric),
        }
    }

    /// Whether a patch to a copy of array `a` can give `r`.
    pub open spec fn array_rel(&self, a: ObjV, p: &Patch, meta: JsV, r: Result<ObjV, PatchFault>) -> bool {
        let r0 = shallow_copy_spec(a);
        match p {
            Patch::PutSeq { index, value, .. } => exists|w: Result<JsV, ExportFault>|
                #[trigger] self.maybe_wrap_result(alloc_spec(&value.0), obj_id_text(&value.1), meta, w)
                && r == stored(r0, KeyV::Index(*index as nat), w),
            Patch::DeleteSeq { index, .. } => r == Ok::<ObjV, PatchFault>(splice_spec(r0, *index, 1, Seq::empty())),
            Patch::Insert { index, values, .. } => exists|ws: Result<Seq<JsV>, ExportFault>|
                #[trigger] self.wraps_rel(values@, meta, ws) && r == wrapped_outcome(splice_outcome(r0, *index, 0, ws)),
            Patch::Increment { prop, value, .. } => match prop {
                Prop::Index(i) => self.increment_rel(r0, KeyV::Index(*i as nat), *value, r),
                Prop::Key(_) => r == Err::<ObjV, PatchFault>(PatchFault::IncrementKeyInSeq),
            },
            Patch::DeleteMap { .. } => r == Err::<ObjV, PatchFault>(PatchFault::DeleteKeyFromSeq),
            Patch::PutMap { .. } => r == Err::<ObjV, PatchFault>(PatchFault::PutKeyInSeq),
        }
    }

    /// Whether a patch to a copy of map `m` can give `r`.
    pub open spec fn map_rel(&self, m: ObjV, p: &Patch, meta: JsV, r: Result<ObjV, PatchFault>) -> bool {
        let r0 = assign_copy_spec(m);
        match p {
            Patch::PutMap { key, value, .. } => exists|w: Result<JsV, ExportFault>|
                #[trigger] self.maybe_wrap_result(alloc_spec(&value.0), obj_id_text(&value.1), meta, w)
                && r == stored(r0, KeyV::Name(key@), w),
            Patch::DeleteMap { key, .. } => r == Ok::<ObjV, PatchFault>(delete_spec(r0, key@)),
            Patch::Increment { prop, value, .. } => match prop {
                Prop::Key(k) => self.increment_rel(r0, KeyV::Name(k@), *value, r),
                Prop::Index(_) => r == Err::<ObjV, PatchFault>(PatchFault::IncrementIndexInMap),
            },
            Patch::Insert { .. } => r == Err::<ObjV, PatchFault>(PatchFault::InsertInMap),
            Patch::DeleteSeq { .. } => r == Err::<ObjV, PatchFault>(PatchFault::SpliceInMap),
            Patch::PutSeq { .. } => r == Err::<ObjV, PatchFault>(PatchFault::PutIdxInMap),
        }
    }

    /// Whether the last step of a patch on raw object `inner` can give `r`: as an
    /// array, or as a map.
    pub open spec fn step_rel(&self, inner: ObjV, p: &Patch, meta: JsV, r: Result<ObjV, PatchFault>) -> bool {
        if inner.class is Array {
            self.array_rel(inner, p, meta, r)
        } else {
            self.map_rel(inner, p, meta, r)
        }
    }

    /// Whether wrapping the changed copy `res` again as datatype `d` with id `id` can
    /// give `r`.
    pub open spec fn rewrap_rel(&self, res: ObjV, d: Datatype, id: JsV, meta: JsV, r: Result<ObjV, PatchFault>) -> bool {
        exists|w: Result<ObjV, ExportFault>| #[trigger] self.wrap_result(res, d, id, meta, w) && r == wrapped_outcome(w)
    }

    /// Whether applying a patch to exported object `obj` from position `depth` of its
    /// path can give `r`, where `tr` holds what each object further down the path gave
    /// (see `apply_patch_spec` for the steps; here data handlers may be registered).
    pub open spec fn apply_patch_tr(
        &self,
        obj: ObjV,
        p: &Patch,
        depth: nat,
        meta: JsV,
        r: Result<ObjV, PatchFault>,
        tr: Seq<Result<ObjV, PatchFault>>,
    ) -> bool
        decreases p.path_spec().len() - depth,
    {
        let (inner, d, id) = unwrap_object_spec(obj);
        if depth < p.path_spec().len() {
            let k = prop_key_spec(p.path_spec()[depth as int].1.view());
            match get_spec(JsV::Object(inner), k) {
                Some(JsV::Object(sub)) => {
                    &&& tr.len() > 0
                    &&& self.apply_patch_tr(sub, p, depth + 1, meta, tr[0], tr.drop_first())
                    &&& match tr[0] {
                        Err(e) => r == Err::<ObjV, PatchFault>(e),
                        Ok(nv) => self.rewrap_rel(set_spec(shallow_copy_spec(inner), k, JsV::Object(nv)).0, d, id, meta, r),
                    }
                },
                _ => r == Ok::<ObjV, PatchFault>(obj),
            }
        } else {
            exists|pr: Result<ObjV, PatchFault>| #[trigger] self.step_rel(inner, p, meta, pr) && match pr {
                Err(e) => r == Err::<ObjV, PatchFault>(e),
                Ok(res) => self.rewrap_rel(res, d, id, meta, r),
            }
        }
    }

    /// Whether applying a patch to exported object `obj` from position `depth` of its
    /// path can give `r`: for what the objects further down the path can give.
    pub open spec fn apply_patch_rel(&self, obj: ObjV, p: &Patch, depth: nat, meta: JsV, r: Result<ObjV, PatchFault>) -> bool {
        exists|tr: Seq<Result<ObjV, PatchFault>>| #[trigger] self.apply_patch_tr(obj, p, depth, meta, r, tr)
    }

    /// One step down the path: what the child gives decides what the object gives.
    proof fn lemma_rel_descend(
        &self,
        obj: ObjV,
        p: &Patch,
        depth: nat,
        meta: JsV,
        sub: ObjV,
        sr: Result<ObjV, PatchFault>,
        r: Result<ObjV, PatchFault>,
    )
        requires
            depth < p.path_spec().len(),
            get_spec(
                JsV::Object(unwrap_object_spec(obj).0),
                prop_key_spec(p.path_spec()[depth as int].1.view()),
            ) == Some(JsV::Object(sub)),
            self.apply_patch_rel(sub, p, depth + 1, meta, sr),
            match sr {
                Err(e) => r == Err::<ObjV, PatchFault>(e),
                Ok(nv) => self.rewrap_rel(
                    set_spec(
                        shallow_copy_spec(unwrap_object_spec(obj).0),
                        prop_key_spec(p.path_spec()[depth as int].1.view()),
                        JsV::Object(nv),
                    ).0,
                    unwrap_object_spec(obj).1,
                    unwrap_object_spec(obj).2,
                    meta,
                    r,
                ),
            },
        ensures
            self.apply_patch_rel(obj, p, depth, meta, r),
    {
        let tr0 = choose|tr: Seq<Result<ObjV, PatchFault>>| #[trigger] self.apply_patch_tr(sub, p, depth + 1, meta, sr, tr);
        let tr = seq![sr] + tr0;
        assert(tr.drop_first() =~= tr0);
        assert(tr[0] == sr);
        assert(self.apply_patch_tr(obj, p, depth, meta, r, tr));
    }

    /// The last step: what the array or map step gives decides what the object gives.
    proof fn lemma_rel_last(&self, obj: ObjV, p: &Patch, depth: nat, meta: JsV, pr: Result<ObjV, PatchFault>, r: Result<ObjV, PatchFault>)
        requires
            depth >= p.path_spec().len(),
            self.step_rel(unwrap_object_spec(obj).0, p, meta, pr),
            match pr {
                Err(e) => r == Err::<ObjV, PatchFault>(e),
                Ok(res) => self.rewrap_rel(res, unwrap_object_spec(obj).1, unwrap_object_spec(obj).2, meta, r),
            },
        ensures
            self.apply_patch_rel(obj, p, depth, meta, r),
    {
        assert(self.apply_patch_tr(obj, p, depth, meta, r, Seq::empty()));
    }

    /// A target that is not an object leaves the object as it is.
    proof fn lemma_rel_missing(&self, obj: ObjV, p: &Patch, depth: nat, meta: JsV)
        requires
            depth < p.path_spec().len(),
            !(get_spec(
                JsV::Object(unwrap_object_spec(obj).0),
                prop_key_spec(p.path_spec()[depth as int].1.view()),
            ) matches Some(JsV::Object(_))),
        ensures
            self.apply_patch_rel(obj, p, depth, meta, Ok(obj)),
    {
        assert(self.apply_patch_tr(obj, p, depth, meta, Ok(obj), Seq::empty()));
    }

    /// Whether no data handler is registered.
    pub open spec fn no_handlers(&self) -> bool {
        self.external_types@.len() == 0
    }

    /// `o.splice(index, num_del, ...values)` with each value exported first (see
    /// `maybe_wrap_object`). `splice` is `Array.prototype.splice`.
    pub fn sub_splice(
        &self,
        o: JsObject,
        index: usize,
        num_del: usize,
        values: &Vec<(Value, ObjId)>,
        meta: &JsVal,
    ) -> (r: Result<JsObject, Export>)
        requires
            o.view().class is Array,
        ensures
            (forall|i: int| 0 <= i < values@.len() ==> !self.has_handler(#[trigger] alloc_spec(&values@[i].0).0))
                ==> obj_result_view(r) == splice_result_spec(
                o.view(),
                index,
                num_del,
                wrapped_values(values@, meta.view(), self.freeze),
            ),
            r matches Ok(x) ==> same_shell(o.view(), x.view()),
            exists|ws: Result<Seq<JsV>, ExportFault>|
                #[trigger] self.wraps_rel(values@, meta.view(), ws)
                && obj_result_view(r) == splice_outcome(o.view(), index, num_del, ws),
    {
        let ghost plain = forall|i: int|
            0 <= i < values@.len() ==> !self.has_handler(#[trigger] alloc_spec(&values@[i].0).0);
        let ghost items = wrapped_values(values@, meta.view(), self.freeze);
        let mut args: Vec<JsVal> = Vec::new();
        let mut i: usize = 0;
        while i < values.len()
            invariant
                i <= values.len(),
                items == wrapped_values(values@, meta.view(), self.freeze),
                plain == (forall|j: int|
                    0 <= j < values@.len() ==> !self.has_handler(#[trigger] alloc_spec(&values@[j].0).0)),
                plain ==> vals_view(args@) =~= items.take(i as int),
                args@.len() == i,
                forall|j: int| 0 <= j < i ==> #[trigger] self.maybe_wrap_result(
                    alloc_spec(&values@[j].0),
                    obj_id_text(&values@[j].1),
                    meta.view(),
                    Ok(args@[j].view()),
                ),
            decreases values.len() - i,
        {
            let a = alloc_value(&values[i].0);
            proof {
                lemma_alloc_can_export(&values@[i as int].0, obj_id_text(&values@[i as int].1), meta.view());
                if plain {
                    assert(!self.has_handler(alloc_spec(&values@[i as int].0).0));
                }
            }
            let wr = self.maybe_wrap_object(a, &values[i].1, meta);
            let w = match wr {
                Ok(w) => w,
                Err(e) => {
                    let r = Err(e);
                    proof {
                        let ws = Err::<Seq<JsV>, ExportFault>(e.fault());
                        let ii = i as int;
                        let done = vals_view(args@);
                        assert((a.0, a.1.view()) == alloc_spec(&values@[ii].0));
                        assert(self.maybe_wrap_result(alloc_spec(&values@[ii].0), obj_id_text(&values@[ii].1), meta.view(), Err(e.fault())));
                        assert(forall|k: int| 0 <= k < ii ==> #[trigger] self.maybe_wrap_result(
                            alloc_spec(&values@[k].0),
                            obj_id_text(&values@[k].1),
                            meta.view(),
                            Ok(done[k]),
                        ));
                        assert(done.len() == ii);
                        assert(self.wraps_rel(values@, meta.view(), ws));
                        assert(obj_result_view(r) == splice_outcome(o.view(), index, num_del, ws));
                    }
                    return r;
                },
            };
            let ghost prev = args@;
            args.push(w);
            proof {
                crate::js::lemma_vals_view_push(prev, w);
                assert forall|j: int| 0 <= j < i + 1 implies #[trigger] self.maybe_wrap_result(
                    alloc_spec(&values@[j].0),
                    obj_id_text(&values@[j].1),
                    meta.view(),
                    Ok(args@[j].view()),
                ) by {
                    if j < i {
                        assert(args@[j] == prev[j]);
                    }
                }
                if plain {
                    assert(items.take(i + 1) =~= items.take(i as int).push(items[i as int]));
                }
            }
            i = i + 1;
        }
        proof {
            if plain {
                assert(items.take(values@.len() as int) =~= items);
            }
        }
        let ghost ws = Ok::<Seq<JsV>, ExportFault>(vals_view(args@));
        proof {
            assert(self.wraps_rel(values@, meta.view(), ws));
        }
        if o.frozen {
            let r = Err(Export::CallSplice(type_error()));
            assert(obj_result_view(r) == splice_outcome(o.view(), index, num_del, ws));
            return r;
        }
        let mut o = o;
        let ghost before = o.view();
        proof { o.lemma_view_parts(); }
        let len = o.elements.len();
        let s32: u32 = index as u32;
        let start: usize = if (s32 as usize) <= len { s32 as usize } else { len };
        let d32: u32 = num_del as u32;
        let del: usize = if (d32 as usize) <= len - start { d32 as usize } else { len - start };
        let mut out: Vec<JsVal> = Vec::new();
        extend_copies(&mut out, &o.elements, 0, start);
        extend_copies(&mut out, &args, 0, args.len());
        extend_copies(&mut out, &o.elements, start + del, len);
        o.elements = out;
        proof {
            o.lemma_view_parts();
            let after = o.view();
            assert(vals_view(args@).subrange(0, args@.len() as int) =~= vals_view(args@));
            assert(before.elements.subrange(0, start as int) =~= before.elements.take(start as int));
            assert(before.elements.subrange((start + del) as int, len as int) =~= before.elements.skip((start + del) as int));
            assert(after.props =~= before.props);
            assert(after.hidden =~= before.hidden);
            assert(after =~= splice_spec(before, index, num_del, vals_view(args@)));
        }
        let r = Ok(o);
        assert(obj_result_view(r) == splice_outcome(before, index, num_del, ws));
        r
    }

    /// Increments the counter under `k` of `result` by `by`: its raw value (see
    /// `unwrap_scalar`) must be a number; the new counter is exported (see
    /// `export_value`) and stored under `k`.
    pub fn increment(&self, result: JsObject, k: PropKey, by: i64) -> (r: Result<JsObject, ApplyPatch>)
        requires
            crate::js::settable(result.view(), k.view()),
        ensures
            !self.has_handler(Datatype::Counter) ==> patch_result_view(r) == increment_spec(result.view(), k.view(), by),
            self.increment_rel(result.view(), k.view(), by, patch_result_view(r)),
            r matches Ok(x) ==> same_shell(result.view(), x.view()),
    {
        let ghost o = result.view();
        let old = result.get_prop(&k);
        let old = match self.unwrap_scalar(old) {
            Ok(v) => v,
            Err(e) => {
                return Err(ApplyPatch::Export(e));
            },
        };
        match old {
            JsVal::Number(n) => {
                let new_value = number_as_i64(n).wrapping_add(by);
                let exported = self.export_value(alloc_value(&Value::Scalar(ScalarValue::Counter(new_value))));
                let ghost w = val_result_view(exported);
                proof {
                    assert(incremented(n, by) == JsV::Number(int_number(new_value as int)));
                    assert(self.export_result(Datatype::Counter, incremented(n, by), w));
                }
                let v = match exported {
                    Ok(v) => v,
                    Err(e) => {
                        let r = Err(ApplyPatch::Export(e));
                        assert(patch_result_view(r) == stored(o, k.view(), w));
                        return r;
                    },
                };
                let mut result = result;
                let _ = result.reflect_set(&k, v);
                let r = Ok(result);
                assert(patch_result_view(r) == stored(o, k.view(), w));
                r
            },
            _ => Err(ApplyPatch::IncrementNonNumeric),
        }
    }


    /// Applies a patch to a copy of an array (see `array_patch_spec`).
    pub fn apply_patch_to_array(&self, array: &JsObject, patch: &Patch, meta: &JsVal) -> (r: Result<JsObject, ApplyPatch>)
        requires
            array.view().class is Array,
        ensures
            self.no_handlers() ==> patch_result_view(r) == array_patch_spec(array.view(), patch, meta.view(), self.freeze),
            self.array_rel(array.view(), patch, meta.view(), patch_result_view(r)),
            r matches Ok(x) ==> is_fresh(x.view()),
    {
        let result = array.shallow_copy();
        let ghost r0 = result.view();
        match patch {
            Patch::PutSeq { index, value, .. } => {
                proof { lemma_alloc_can_export(&value.0, obj_id_text(&value.1), meta.view()); }
                let wr = self.maybe_wrap_object(alloc_value(&value.0), &value.1, meta);
                let ghost w = val_result_view(wr);
                let sub_val = match wr {
                    Ok(v) => v,
                    Err(e) => {
                        let r = Err(ApplyPatch::Export(e));
                        assert(patch_result_view(r) == stored(r0, KeyV::Index(*index as nat), w));
                        return r;
                    },
                };
                let mut result = result;
                let _ = result.reflect_set(&PropKey::Index(*index), sub_val);
                let r = Ok(result);
                assert(patch_result_view(r) == stored(r0, KeyV::Index(*index as nat), w));
                r
            },
            Patch::DeleteSeq { index, .. } => {
                let none: Vec<(Value, ObjId)> = Vec::new();
                proof { assert(wrapped_values(none@, meta.view(), self.freeze) =~= Seq::<JsV>::empty()); }
                let sr = self.sub_splice(result, *index, 1, &none, meta);
                proof {
                    let ws = choose|ws: Result<Seq<JsV>, ExportFault>|
                        #[trigger] self.wraps_rel(none@, meta.view(), ws)
                        && obj_result_view(sr) == splice_outcome(r0, *index, 1, ws);
                    if let Ok(items) = ws {
                        assert(items =~= Seq::<JsV>::empty());
                    }
                }
                match sr {
                    Ok(o) => Ok(o),
                    Err(e) => Err(ApplyPatch::Export(e)),
                }
            },
            Patch::Insert { index, values, .. } => {
                let sr = self.sub_splice(result, *index, 0, values, meta);
                let r = match sr {
                    Ok(o) => Ok(o),
                    Err(e) => Err(ApplyPatch::Export(e)),
                };
                proof {
                    let ws = choose|ws: Result<Seq<JsV>, ExportFault>|
                        #[trigger] self.wraps_rel(values@, meta.view(), ws)
                        && obj_result_view(sr) == splice_outcome(r0, *index, 0, ws);
                    assert(patch_result_view(r) == wrapped_outcome(splice_outcome(r0, *index, 0, ws)));
                }
                r
            },
            Patch::Increment { prop, value, .. } => match prop {
                Prop::Index(i) => self.increment(result, PropKey::Index(*i), *value),
                Prop::Key(_) => Err(ApplyPatch::IncrementKeyInSeq),
            },
            Patch::DeleteMap { .. } => Err(ApplyPatch::DeleteKeyFromSeq),
            Patch::PutMap { .. } => Err(ApplyPatch::PutKeyInSeq),
        }
    }


    /// Applies a patch to a copy of a map (see `map_patch_spec`).
    pub fn apply_patch_to_map(&self, map: &JsObject, patch: &Patch, meta: &JsVal) -> (r: Result<JsObject, ApplyPatch>)
        ensures
            self.no_handlers() ==> patch_result_view(r) == map_patch_spec(map.view(), patch, meta.view(), self.freeze),
            self.map_rel(map.view(), patch, meta.view(), patch_result_view(r)),
            r matches Ok(x) ==> is_fresh(x.view()),
    {
        let result = map.assign_copy();
        let ghost r0 = result.view();
        match patch {
            Patch::PutMap { key, value, .. } => {
                proof { lemma_alloc_can_export(&value.0, obj_id_text(&value.1), meta.view()); }
                let wr = self.maybe_wrap_object(alloc_value(&value.0), &value.1, meta);
                let ghost w = val_result_view(wr);
                let sub_val = match wr {
                    Ok(v) => v,
                    Err(e) => {
                        let r = Err(ApplyPatch::Export(e));
                        assert(patch_result_view(r) == stored(r0, KeyV::Name(key@), w));
                        return r;
                    },
                };
                let mut result = result;
                let _ = result.reflect_set(&PropKey::Name(key.clone()), sub_val);
                let r = Ok(result);
                assert(patch_result_view(r) == stored(r0, KeyV::Name(key@), w));
                r
            },
            Patch::DeleteMap { key, .. } => {
                let mut result = result;
                let _ = result.delete_named(key);
                Ok(result)
            },
            Patch::Increment { prop, value, .. } => match prop {
                Prop::Key(k) => self.increment(result, PropKey::Name(k.clone()), *value),
                Prop::Index(_) => Err(ApplyPatch::IncrementIndexInMap),
            },
            Patch::Insert { .. } => Err(ApplyPatch::InsertInMap),
            Patch::DeleteSeq { .. } => Err(ApplyPatch::SpliceInMap),
            Patch::PutSeq { .. } => Err(ApplyPatch::PutIdxInMap),
        }
    }

    /// Applies a patch to an exported object, from position `depth` of the patch's
    /// path on (see `apply_patch_spec`).
    pub fn apply_patch(&self, obj: JsObject, patch: &Patch, depth: usize, meta: &JsVal) -> (r: Result<JsObject, ApplyPatch>)
        ensures
            self.no_handlers() ==> patch_result_view(r) == apply_patch_spec(obj.view(), patch, depth as nat, meta.view(), self.freeze),
            self.apply_patch_rel(obj.view(), patch, depth as nat, meta.view(), patch_result_view(r)),
            r matches Ok(x) ==> x.view() == obj.view() || reads_as(
                x.view(),
                unwrap_object_spec(obj.view()).1,
                unwrap_object_spec(obj.view()).2,
            ),
        decreases patch.path_spec().len() - depth,
    {
        let ghost ov = obj.view();
        let ghost mv = meta.view();
        let (inner, datatype, id) = match self.unwrap_object(&obj) {
            Ok(x) => x,
            Err(e) => return Err(ApplyPatch::Export(e)),
        };
        let path = patch.path();
        let ghost mut step: Result<ObjV, PatchFault> = Err(PatchFault::InsertInMap);
        let ghost mut subv: ObjV = ov;
        let result = if depth < path.len() {
            let prop = prop_to_js(&path[depth].1);
            let sub = inner.get_prop(&prop);
            match sub {
                JsVal::Object(sub_obj) => {
                    let ghost sv = sub_obj.view();
                    proof { subv = sv; }
                    let rec = self.apply_patch(sub_obj, patch, depth + 1, meta);
                    proof { step = patch_result_view(rec); }
                    let new_value = match rec {
                        Ok(v) => v,
                        Err(e) => {
                            let r = Err(e);
                            proof {
                                let dn = depth as nat;
                                assert(path@[depth as int] == patch.path_spec()[dn as int]);
                                assert(inner.view() == unwrap_object_spec(ov).0);
                                assert(get_spec(JsV::Object(unwrap_object_spec(ov).0), prop_key_spec(patch.path_spec()[dn as int].1.view())) == Some(JsV::Object(sv)));
                                assert(self.apply_patch_rel(sv, patch, dn + 1, mv, step));
                                self.lemma_rel_descend(ov, patch, dn, mv, sv, step, patch_result_view(r));
                            }
                            return r;
                        },
                    };
                    let mut result = inner.shallow_copy();
                    let _ = result.reflect_set(&prop, JsVal::Object(new_value));
                    result
                },
                _ => {
                    proof {
                        let dn = depth as nat;
                        assert(path@[depth as int] == patch.path_spec()[dn as int]);
                        assert(inner.view() == unwrap_object_spec(ov).0);
                        self.lemma_rel_missing(ov, patch, dn, mv);
                    }
                    return Ok(obj);
                },
            }
        } else if matches!(inner.class, JsClass::Array) {
            let sr = self.apply_patch_to_array(&inner, patch, meta);
            proof { step = patch_result_view(sr); }
            match sr {
                Ok(x) => x,
                Err(e) => {
                    let r = Err(e);
                    proof {
                        assert(inner.view() == unwrap_object_spec(ov).0);
                        assert(self.step_rel(inner.view(), patch, mv, step));
                        self.lemma_rel_last(ov, patch, depth as nat, mv, step, patch_result_view(r));
                    }
                    return r;
                },
            }
        } else {
            let sr = self.apply_patch_to_map(&inner, patch, meta);
            proof { step = patch_result_view(sr); }
            match sr {
                Ok(x) => x,
                Err(e) => {
                    let r = Err(e);
                    proof {
                        assert(inner.view() == unwrap_object_spec(ov).0);
                        assert(self.step_rel(inner.view(), patch, mv, step));
                        self.lemma_rel_last(ov, patch, depth as nat, mv, step, patch_result_view(r));
                    }
                    return r;
                },
            }
        };
        proof { lemma_fresh_can_tag(result.view(), datatype, id.view(), meta.view()); }
        let ghost resv = result.view();
        let wr = self.wrap_object(result, datatype, &id, meta);
        let r = match wr {
            Ok(o) => Ok(o),
            Err(e) => Err(ApplyPatch::Export(e)),
        };
        proof {
            let w = obj_result_view(wr);
            assert(self.wrap_result(resv, datatype, id.view(), mv, w));
            assert(patch_result_view(r) == wrapped_outcome(w));
            assert(self.rewrap_rel(resv, datatype, id.view(), mv, patch_result_view(r)));
            if depth < path.len() {
                let dn = depth as nat;
                assert(path@[depth as int] == patch.path_spec()[dn as int]);
                assert(inner.view() == unwrap_object_spec(ov).0);
                assert(get_spec(JsV::Object(unwrap_object_spec(ov).0), prop_key_spec(patch.path_spec()[dn as int].1.view())) == Some(JsV::Object(subv)));
                assert(self.apply_patch_rel(subv, patch, dn + 1, mv, step));
                assert(step matches Ok(nv) && resv == set_spec(
                    shallow_copy_spec(unwrap_object_spec(ov).0),
                    prop_key_spec(patch.path_spec()[depth as int].1.view()),
                    JsV::Object(nv),
                ).0);
                self.lemma_rel_descend(ov, patch, dn, mv, subv, step, patch_result_view(r));
            } else {
                assert(self.step_rel(unwrap_object_spec(ov).0, patch, mv, step));
                self.lemma_rel_last(ov, patch, depth as nat, mv, step, patch_result_view(r));
            }
        }
        r
    }

}


/// What the last step of a patch gives on an exported object whose raw object is not
/// an array: the changed copy of the map, tagged as the object was.
proof fn lemma_apply_map_step(obj: ObjV, p: &Patch, meta: JsV, freeze: bool)
    requires
        !(unwrap_object_spec(obj).0.class is Array),
    ensures
        ({
            let (inner, d, id) = unwrap_object_spec(obj);
            apply_patch_spec(obj, p, p.path_spec().len(), meta, freeze) == match map_patch_spec(inner, p, meta, freeze) {
                Ok(res) => Ok(tag_spec(res, d, id, meta, freeze)),
                Err(e) => Err(e),
            }
        }),
{
}

/// What the last step of a patch gives on an exported object whose raw object is an
/// array: the changed copy of the array, tagged as the object was.
proof fn lemma_apply_array_step(obj: ObjV, p: &Patch, meta: JsV, freeze: bool)
    requires
        unwrap_object_spec(obj).0.class is Array,
    ensures
        ({
            let (inner, d, id) = unwrap_object_spec(obj);
            apply_patch_spec(obj, p, p.path_spec().len(), meta, freeze) == match array_patch_spec(inner, p, meta, freeze) {
                Ok(res) => Ok(tag_spec(res, d, id, meta, freeze)),
                Err(e) => Err(e),
            }
        }),
{
}

/// A fresh object, tagged, unwraps to itself tagged.
proof fn lemma_unwrap_fresh_tag(r: ObjV, d: Datatype, id: JsV, meta: JsV, freeze: bool)
    requires
        is_fresh(r),
    ensures
        unwrap_object_spec(tag_spec(r, d, id, meta, freeze)).0 == tag_spec(r, d, id, meta, freeze),
        tag_spec(r, d, id, meta, freeze).props == r.props,
        tag_spec(r, d, id, meta, freeze).elements == r.elements,
        tag_spec(r, d, id, meta, freeze).class == r.class,
{
    lemma_fresh_can_tag(r, d, id, meta);
    crate::export::lemma_tag_reads(r, d, id, meta, freeze);
    crate::js::lemma_lookup_absent(r.hidden, crate::js::HiddenKey::RawData);
}

/// Putting a value under a key of a map and reading the key back gives the exported
/// value.
pub proof fn law_put_key_then_get(obj: ObjV, p: &Patch, meta: JsV, freeze: bool, k: Seq<char>, v: JsV)
    requires
        p matches Patch::PutMap { key, value, .. } && key@ == k
            && maybe_wrap_spec(alloc_spec(&value.0), obj_id_text(&value.1), meta, freeze) == v,
        !(unwrap_object_spec(obj).0.class is Array),
    ensures
        apply_patch_spec(obj, p, p.path_spec().len(), meta, freeze) matches Ok(res)
            && get_spec(JsV::Object(unwrap_object_spec(res).0), KeyV::Name(k)) == Some(v),
{
    let (inner, d, id) = unwrap_object_spec(obj);
    lemma_apply_map_step(obj, p, meta, freeze);
    let r0 = assign_copy_spec(inner);
    let r1 = set_spec(r0, KeyV::Name(k), v).0;
    crate::js::lemma_named_set_hits(r0.props, k, v);
    lemma_unwrap_fresh_tag(r1, d, id, meta, freeze);
}

/// Deleting a key of a map and reading the key back gives `undefined`.
pub proof fn law_delete_key_then_get(obj: ObjV, p: &Patch, meta: JsV, freeze: bool, k: Seq<char>)
    requires
        p matches Patch::DeleteMap { key, .. } && key@ == k,
        !(unwrap_object_spec(obj).0.class is Array),
    ensures
        apply_patch_spec(obj, p, p.path_spec().len(), meta, freeze) matches Ok(res)
            && get_spec(JsV::Object(unwrap_object_spec(res).0), KeyV::Name(k)) == Some(JsV::Undefined),
{
    let (inner, d, id) = unwrap_object_spec(obj);
    lemma_apply_map_step(obj, p, meta, freeze);
    let r0 = assign_copy_spec(inner);
    let r1 = delete_spec(r0, k);
    crate::js::lemma_remove_key_absent(r0.props, k);
    lemma_unwrap_fresh_tag(r1, d, id, meta, freeze);
}

/// Putting a value at an index of a list and reading the index back gives the
/// exported value.
pub proof fn law_put_index_then_get(obj: ObjV, p: &Patch, meta: JsV, freeze: bool, i: nat, v: JsV)
    requires
        p matches Patch::PutSeq { index, value, .. } && index == i
            && maybe_wrap_spec(alloc_spec(&value.0), obj_id_text(&value.1), meta, freeze) == v,
        unwrap_object_spec(obj).0.class is Array,
        i < crate::js::array_index_limit(),
    ensures
        apply_patch_spec(obj, p, p.path_spec().len(), meta, freeze) matches Ok(res)
            && get_spec(JsV::Object(unwrap_object_spec(res).0), KeyV::Index(i)) == Some(v),
{
    let (inner, d, id) = unwrap_object_spec(obj);
    lemma_apply_array_step(obj, p, meta, freeze);
    let r0 = shallow_copy_spec(inner);
    let r1 = set_spec(r0, KeyV::Index(i), v).0;
    lemma_unwrap_fresh_tag(r1, d, id, meta, freeze);
}

/// Inserting values into a list makes it longer by their number, and puts them at the
/// position where the insertion starts.
pub proof fn law_insert_grows(obj: ObjV, p: &Patch, meta: JsV, freeze: bool)
    requires
        p is Insert,
        unwrap_object_spec(obj).0.class is Array,
    ensures
        ({
            let inner = unwrap_object_spec(obj).0;
            let len = inner.elements.len();
            let (index, values) = match p {
                Patch::Insert { index, values, .. } => (*index, values@),
                _ => (0usize, Seq::empty()),
            };
            let start = splice_start(len, index);
            apply_patch_spec(obj, p, p.path_spec().len(), meta, freeze) matches Ok(res)
                && unwrap_object_spec(res).0.elements.len() == len + values.len()
                && forall|j: int| 0 <= j < values.len() ==>
                    #[trigger] unwrap_object_spec(res).0.elements[start + j]
                        == wrapped_values(values, meta, freeze)[j]
        }),
{
    let (inner, d, id) = unwrap_object_spec(obj);
    lemma_apply_array_step(obj, p, meta, freeze);
    let r0 = shallow_copy_spec(inner);
    if let Patch::Insert { index, values, .. } = p {
        let items = wrapped_values(values@, meta, freeze);
        let r1 = splice_spec(r0, *index, 0, items);
        lemma_unwrap_fresh_tag(r1, d, id, meta, freeze);
        let start = splice_start(inner.elements.len(), *index);
        assert forall|j: int| 0 <= j < values@.len() implies #[trigger] r1.elements[start + j] == items[j] by {
            assert(r0.elements.take(start as int).len() == start);
        }
    }
}

/// A patch keeps the datatype that an exported object reads as, and its id: the id of
/// a map, list or text, and for other datatypes the absence of one.
pub proof fn law_patch_keeps_datatype(obj: ObjV, p: &Patch, depth: nat, meta: JsV, freeze: bool)
    ensures
        apply_patch_spec(obj, p, depth, meta, freeze) matches Ok(res) ==> {
            &&& unwrap_object_spec(res).1 == unwrap_object_spec(obj).1
            &&& (has_object_id(unwrap_object_spec(obj).1) || crate::js::hidden_get(obj, crate::js::HiddenKey::ObjectId) is Undefined)
                ==> unwrap_object_spec(res).2 == unwrap_object_spec(obj).2
        },
{
    let (inner, d, id) = unwrap_object_spec(obj);
    crate::value::law_datatype_name_round_trip(d);
    if let Ok(res) = apply_patch_spec(obj, p, depth, meta, freeze) {
        if res != obj {
            let r = if depth < p.path_spec().len() {
                let k = prop_key_spec(p.path_spec()[depth as int].1.view());
                match get_spec(JsV::Object(inner), k) {
                    Some(JsV::Object(sub)) => match apply_patch_spec(sub, p, depth + 1, meta, freeze) {
                        Ok(nv) => set_spec(shallow_copy_spec(inner), k, JsV::Object(nv)).0,
                        Err(_) => inner,
                    },
                    _ => inner,
                }
            } else if inner.class is Array {
                match array_patch_spec(inner, p, meta, freeze) {
                    Ok(x) => x,
                    Err(_) => inner,
                }
            } else {
                match map_patch_spec(inner, p, meta, freeze) {
                    Ok(x) => x,
                    Err(_) => inner,
                }
            };
            assert(is_fresh(r));
            assert(res == tag_spec(r, d, id, meta, freeze));
            lemma_unwrap_fresh_tag(r, d, id, meta, freeze);
            lemma_fresh_can_tag(r, d, id, meta);
            crate::export::lemma_tag_reads(r, d, id, meta, freeze);
            crate::js::lemma_lookup_absent(r.hidden, crate::js::HiddenKey::ObjectId);
            assert(!(id is Undefined));
        }
    }
}


/// Incrementing a counter that a data handler wrapped, and reading back its raw value,
/// gives the old number plus the increment (wrapping around), as the double nearest
/// to it.
pub proof fn law_increment_adds(o: ObjV, k: KeyV, by: i64, h: Result<JsV, JsV>, n: JsNumber)
    requires
        unwrap_scalar_spec(counter_old(o, k)) == Ok::<JsV, ExportFault>(JsV::Number(n)),
        !o.frozen,
        crate::js::settable(o, k),
    ensures
        increment_handled_spec(o, k, by, h) matches Ok(res) ==>
            unwrap_scalar_spec(counter_old(res, k)) == Ok::<JsV, ExportFault>(incremented(n, by)),
{
    crate::export::law_export_handled_unwrap(h, incremented(n, by), Datatype::Counter);
    if let Ok(v) = export_handled_spec(h, incremented(n, by), Datatype::Counter) {
        crate::js::lemma_set_then_get(o, k, v);
    }
}

/// Incrementing a counter whose raw number reads as the integer `x` (as `as i64` reads
/// a double) by `by`, negative or not, stores `x + by`, wrapped around past either end
/// of `i64`, as the double nearest to it: exactly `x + by` within 2^53 of zero. Through
/// a data handler, the stored value's raw number is that same number.
pub proof fn law_increment_sum(o: ObjV, k: KeyV, by: i64, n: JsNumber, h: Result<JsV, JsV>)
    requires
        unwrap_scalar_spec(counter_old(o, k)) == Ok::<JsV, ExportFault>(JsV::Number(n)),
        !o.frozen,
        crate::js::settable(o, k),
    ensures
        ({
            let s = number_to_i64(n) + by;
            let w = if s > i64::MAX {
                s - 0x1_0000_0000_0000_0000
            } else if s < i64::MIN {
                s + 0x1_0000_0000_0000_0000
            } else {
                s
            };
            &&& (increment_spec(o, k, by) matches Ok(res)
                && get_spec(JsV::Object(res), k) == Some(JsV::Number(int_number(w))))
            &&& (-0x20_0000_0000_0000 <= s <= 0x20_0000_0000_0000 ==> (increment_spec(o, k, by) matches Ok(res)
                && get_spec(JsV::Object(res), k) == Some(JsV::Number(JsNumber::Int(s as i64)))))
            &&& (increment_handled_spec(o, k, by, h) matches Ok(res) ==> unwrap_scalar_spec(counter_old(res, k))
                == Ok::<JsV, ExportFault>(JsV::Number(int_number(w))))
        }),
{
    let s = number_to_i64(n) + by;
    let w = if s > i64::MAX {
        s - 0x1_0000_0000_0000_0000
    } else if s < i64::MIN {
        s + 0x1_0000_0000_0000_0000
    } else {
        s
    };
    assert((number_to_i64(n) as i64).wrapping_add(by) as int == w);
    assert(incremented(n, by) == JsV::Number(int_number(w)));
    crate::js::lemma_set_then_get(o, k, incremented(n, by));
    if -0x20_0000_0000_0000 <= s <= 0x20_0000_0000_0000 {
        vstd::arithmetic::power2::lemma2_to64();
        vstd::arithmetic::power2::lemma2_to64_rest();
        crate::num::law_small_integers_exact(s);
    }
    law_increment_adds(o, k, by, h, n);
}

/// Applying an increment patch to a map increments the counter under its key in the
/// map's copy by the patch's value, as `law_increment_sum` says, and leaves the other
/// keys of the copy as they were.
pub proof fn law_map_increment(m: ObjV, p: &Patch, meta: JsV, freeze: bool, k: Seq<char>, by: i64, n: JsNumber)
    requires
        p matches Patch::Increment { prop: Prop::Key(key), value, .. } && key@ == k && value == by,
        unwrap_scalar_spec(counter_old(assign_copy_spec(m), KeyV::Name(k))) == Ok::<JsV, ExportFault>(JsV::Number(n)),
    ensures
        ({
            let s = number_to_i64(n) + by;
            let w = if s > i64::MAX {
                s - 0x1_0000_0000_0000_0000
            } else if s < i64::MIN {
                s + 0x1_0000_0000_0000_0000
            } else {
                s
            };
            &&& (map_patch_spec(m, p, meta, freeze) matches Ok(res)
                && get_spec(JsV::Object(res), KeyV::Name(k)) == Some(JsV::Number(int_number(w)))
                && res == set_spec(assign_copy_spec(m), KeyV::Name(k), JsV::Number(int_number(w))).0)
        }),
{
    let r0 = assign_copy_spec(m);
    law_increment_sum(r0, KeyV::Name(k), by, n, Err(JsV::Undefined));
}

/// Applying an increment patch to an array increments the counter at its index in the
/// array's copy by the patch's value, as `law_increment_sum` says, and leaves the other
/// elements of the copy as they were.
pub proof fn law_array_increment(a: ObjV, p: &Patch, meta: JsV, freeze: bool, i: usize, by: i64, n: JsNumber)
    requires
        a.class is Array,
        p matches Patch::Increment { prop: Prop::Index(j), value, .. } && j == i && value == by,
        unwrap_scalar_spec(counter_old(shallow_copy_spec(a), KeyV::Index(i as nat))) == Ok::<JsV, ExportFault>(JsV::Number(n)),
    ensures
        ({
            let s = number_to_i64(n) + by;
            let w = if s > i64::MAX {
                s - 0x1_0000_0000_0000_0000
            } else if s < i64::MIN {
                s + 0x1_0000_0000_0000_0000
            } else {
                s
            };
            &&& (array_patch_spec(a, p, meta, freeze) matches Ok(res)
                && get_spec(JsV::Object(res), KeyV::Index(i as nat)) == Some(JsV::Number(int_number(w)))
                && res == set_spec(shallow_copy_spec(a), KeyV::Index(i as nat), JsV::Number(int_number(w))).0)
        }),
{
    law_increment_sum(shallow_copy_spec(a), KeyV::Index(i as nat), by, n, Err(JsV::Undefined));
}

/// A patch whose path leads through a property that does not hold an object (it was
/// deleted) leaves the exported object as it is.
pub proof fn law_missing_child_unchanged(obj: ObjV, p: &Patch, depth: nat, meta: JsV, freeze: bool)
    requires
        depth < p.path_spec().len(),
        !(get_spec(
            JsV::Object(unwrap_object_spec(obj).0),
            prop_key_spec(p.path_spec()[depth as int].1.view()),
        ) matches Some(JsV::Object(_))),
    ensures
        apply_patch_spec(obj, p, depth, meta, freeze) == Ok::<ObjV, PatchFault>(obj),
{
}

/// When exported objects are frozen, every object a patch changes comes out frozen.
pub proof fn law_patch_freezes(obj: ObjV, p: &Patch, depth: nat, meta: JsV)
    ensures
        apply_patch_spec(obj, p, depth, meta, true) matches Ok(res) ==> res.frozen || res == obj,
{
    let (inner, d, id) = unwrap_object_spec(obj);
    if let Ok(res) = apply_patch_spec(obj, p, depth, meta, true) {
        if res != obj {
            let r = if depth < p.path_spec().len() {
                let k = prop_key_spec(p.path_spec()[depth as int].1.view());
                match get_spec(JsV::Object(inner), k) {
                    Some(JsV::Object(sub)) => match apply_patch_spec(sub, p, depth + 1, meta, true) {
                        Ok(nv) => set_spec(shallow_copy_spec(inner), k, JsV::Object(nv)).0,
                        Err(_) => inner,
                    },
                    _ => inner,
                }
            } else if inner.class is Array {
                match array_patch_spec(inner, p, meta, true) {
                    Ok(x) => x,
                    Err(_) => inner,
                }
            } else {
                match map_patch_spec(inner, p, meta, true) {
                    Ok(x) => x,
                    Err(_) => inner,
                }
            };
            assert(res == tag_spec(r, d, id, meta, true));
        }
    }
}


/// Deleting an index of a list removes the element there: those before it stay, and
/// those after it move down by one.
pub proof fn law_delete_index(obj: ObjV, p: &Patch, meta: JsV, freeze: bool, i: usize)
    requires
        p matches Patch::DeleteSeq { index, .. } && index == i,
        unwrap_object_spec(obj).0.class is Array,
        i < unwrap_object_spec(obj).0.elements.len(),
        i < 0x1_0000_0000,
    ensures
        apply_patch_spec(obj, p, p.path_spec().len(), meta, freeze) matches Ok(res)
            && unwrap_object_spec(res).0.elements == unwrap_object_spec(obj).0.elements.remove(i as int),
{
    let (inner, d, id) = unwrap_object_spec(obj);
    lemma_apply_array_step(obj, p, meta, freeze);
    let r0 = shallow_copy_spec(inner);
    assert((i as u32) as usize == i) by (bit_vector)
        requires
            i < 0x1_0000_0000,
    ;
    let r1 = splice_spec(r0, i, 1, Seq::empty());
    lemma_unwrap_fresh_tag(r1, d, id, meta, freeze);
    assert(r1.elements =~= inner.elements.remove(i as int));
}

} // verus!
