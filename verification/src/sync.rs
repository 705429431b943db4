//! Reading and writing the sync protocol's values (heads, `Have`s, sync states and
//! sync messages) as JavaScript values.
use vstd::prelude::*;
use crate::error::{
    BadBloom, BadChangeHash, BadChangeHashes, BadChangeHashSet, BadHave, BadHaves,
    BadJSChanges, BadSyncMessage, BadSyncState, BloomFault, ChangesFault, GetProp, HashFault,
    HashSetFault, HashesFault, HaveFault, HavesFault, PropFault, SetProp, SyncMessageFault,
    SyncStateFault,
};
use crate::hash::{ascending, hashes_view, ChangeHash, ChangeHashSet};
use crate::js::{
    entries_spec, entries_view, get_spec, set_spec, own_pairs, pairs_view, reflect_get, vals_view, type_error, type_error_spec, HiddenKey,
    JsClass, JsObject, JsV, JsVal, KeyV, ObjV, PropKey, empty_obj, lemma_vals_view_push,
    lemma_entries_view_push,
};
use crate::text::{hash_text_bytes, hex_encode, is_hash_text, lemma_hex_encode_hash_text};

verus! {

/// Whether `<automerge::sync::BloomFilter as TryFrom<&[u8]>>::try_from` accepts `bytes`.
pub uninterp spec fn bloom_decodes(bytes: Seq<u8>) -> bool;

/// The bytes that `automerge::sync::BloomFilter::to_bytes` writes for the filter that
/// `<automerge::sync::BloomFilter as TryFrom<&[u8]>>::try_from` decodes from `bytes`.
pub uninterp spec fn bloom_bytes(bytes: Seq<u8>) -> Seq<u8>;

/// Whether `<automerge::Change as TryFrom<&[u8]>>::try_from` accepts `bytes`.
pub uninterp spec fn change_loads(bytes: Seq<u8>) -> bool;

/// The stored bytes (`automerge::Change::raw_bytes`) of the change that
/// `<automerge::Change as TryFrom<&[u8]>>::try_from` loads from `bytes`.
pub uninterp spec fn change_raw(bytes: Seq<u8>) -> Seq<u8>;

/// Whether `b` is a bloom filter as `BloomFilter::to_bytes` writes it: it decodes, to a
/// filter that writes the same bytes.
pub open spec fn bloom_stored(b: Seq<u8>) -> bool {
    bloom_decodes(b) && bloom_bytes(b) == b
}

/// Whether `b` is a change as automerge stores it: it loads, to a change whose stored
/// bytes are `b`.
pub open spec fn change_stored(b: Seq<u8>) -> bool {
    change_loads(b) && change_raw(b) == b
}

/// Decodes a bloom filter with `<automerge::sync::BloomFilter as TryFrom<&[u8]>>::try_from`
/// and gives it as `BloomFilter::to_bytes` writes it. Whether decoding succeeds depends on
/// the bytes alone. `to_bytes` writes nothing for a filter with no entries, and otherwise
/// its three counts in LEB128 followed by the bits that `parse` read for those counts; so
/// what it writes decodes again, to a filter that writes the same bytes.
#[verifier::external_body]
fn decode_bloom(bytes: &[u8]) -> (r: Result<Vec<u8>, automerge::sync::DecodeBloomError>)
    ensures
        r is Ok <==> bloom_decodes(bytes@),
        r matches Ok(b) ==> b@ == bloom_bytes(bytes@) && bloom_stored(b@),
{
    match automerge::sync::BloomFilter::try_from(bytes) {
        Ok(b) => Ok(b.to_bytes()),
        Err(e) => Err(e),
    }
}

/// Loads a change with `<automerge::Change as TryFrom<&[u8]>>::try_from` and gives its
/// stored bytes, `automerge::Change::raw_bytes`. Whether loading succeeds depends on the
/// bytes alone. The stored bytes are the input itself for an uncompressed change chunk,
/// and the chunk rebuilt around the inflated data for a compressed one; either way they
/// are an uncompressed change chunk, which loads again with itself as its stored bytes.
#[verifier::external_body]
fn load_change(bytes: &[u8]) -> (r: Result<Vec<u8>, automerge::LoadChangeError>)
    ensures
        r is Ok <==> change_loads(bytes@),
        r matches Ok(raw) ==> raw@ == change_raw(bytes@) && change_stored(raw@),
{
    match automerge::Change::try_from(bytes) {
        Ok(c) => Ok(c.raw_bytes().to_vec()),
        Err(e) => Err(e),
    }
}

/// A summary of the changes a peer has: the heads at its last sync and a bloom
/// filter of the changes since, as `BloomFilter::to_bytes` writes it.
#[derive(Debug)]
pub struct Have {
    pub last_sync: Vec<ChangeHash>,
    pub bloom: Vec<u8>,
}

/// The state of synchronisation with a peer.
#[derive(Debug)]
pub struct SyncState {
    pub shared_heads: Vec<ChangeHash>,
    pub last_sent_heads: Vec<ChangeHash>,
    pub their_heads: Option<Vec<ChangeHash>>,
    pub their_need: Option<Vec<ChangeHash>>,
    pub their_have: Option<Vec<Have>>,
    pub sent_hashes: ChangeHashSet,
    pub in_flight: bool,
}

/// A sync message.
#[derive(Debug)]
pub struct SyncMessage {
    pub heads: Vec<ChangeHash>,
    pub need: Vec<ChangeHash>,
    pub have: Vec<Have>,
    /// The changes, each by its stored bytes.
    pub changes: Vec<Vec<u8>>,
}

// ---------------------------------------------------------------------------------
// Reading properties
// ---------------------------------------------------------------------------------

/// The fault of reading any property from a value that is not an object.
pub open spec fn get_fault(k: KeyV) -> PropFault {
    PropFault { property: k, error: type_error_spec() }
}

/// `Reflect.get(v, k)`, failing with `GetProp` when `v` is not an object.
pub fn js_get(v: &JsVal, k: PropKey) -> (r: Result<JsVal, GetProp>)
    ensures
        match r {
            Ok(x) => get_spec(v.view(), k.view()) == Some(x.view()),
            Err(g) => get_spec(v.view(), k.view()) is None && g.fault() == get_fault(k.view()),
        },
{
    match reflect_get(v, &k) {
        Some(x) => Ok(x),
        None => Err(GetProp { property: k, error: type_error() }),
    }
}

/// `Reflect.set(obj, k, v)`: its result, failing with `SetProp` when `obj` is not an
/// object.
pub fn js_set(obj: &mut JsVal, k: PropKey, v: JsVal) -> (r: Result<bool, SetProp>)
    requires
        old(obj).view() matches JsV::Object(o) ==> crate::js::set_in_model(o, k.view(), v.view()),
    ensures
        match old(obj).view() {
            JsV::Object(o) => r matches Ok(b) && b == set_spec(o, k.view(), v.view()).1
                && final(obj).view() == JsV::Object(set_spec(o, k.view(), v.view()).0),
            _ => r matches Err(e) && e.fault() == get_fault(k.view()) && final(obj).view() == old(obj).view(),
        },
{
    match obj {
        JsVal::Object(o) => Ok(o.reflect_set(&k, v)),
        _ => Err(SetProp { property: k, error: type_error() }),
    }
}

/// The key of a named property.
pub fn name_key(s: &str) -> (r: PropKey)
    ensures
        r.view() == KeyV::Name(s@),
{
    PropKey::Name(s.to_owned())
}

/// The value of named property `k` of an object (undefined for a non-object, where
/// reading throws).
pub open spec fn field(v: JsV, k: Seq<char>) -> JsV {
    match get_spec(v, KeyV::Name(k)) {
        Some(x) => x,
        None => JsV::Undefined,
    }
}

/// Whether `v` is an array.
pub open spec fn is_array(v: JsV) -> bool {
    v matches JsV::Object(o) && o.class is Array
}

/// Whether `v` is a `Uint8Array`.
pub open spec fn is_bytes(v: JsV) -> bool {
    v matches JsV::Object(o) && o.class is Bytes
}

/// The elements of an array (empty for anything else).
pub open spec fn elems(v: JsV) -> Seq<JsV> {
    match v {
        JsV::Object(o) => o.elements,
        _ => Seq::empty(),
    }
}

/// The contents of a `Uint8Array` (empty for anything else).
pub open spec fn bytes_of(v: JsV) -> Seq<u8> {
    match v {
        JsV::Object(o) => o.bytes,
        _ => Seq::empty(),
    }
}

/// Whether `i` is the first position where `flags` holds.
pub open spec fn first_true(flags: Seq<bool>, i: int) -> bool {
    &&& 0 <= i < flags.len()
    &&& flags[i]
    &&& forall|j: int| 0 <= j < i ==> !flags[j]
}

/// Whether `flags` holds somewhere.
pub open spec fn any_true(flags: Seq<bool>) -> bool {
    exists|i: int| first_true(flags, i)
}

/// The first position where `flags` holds (meaningful when `any_true(flags)`).
pub open spec fn first_true_pos(flags: Seq<bool>) -> int {
    choose|i: int| first_true(flags, i)
}

/// The first position where a flag holds is unique.
pub proof fn lemma_first_true(flags: Seq<bool>, i: int)
    requires
        first_true(flags, i),
    ensures
        any_true(flags),
        first_true_pos(flags) == i,
{
    assert(any_true(flags));
    let j = first_true_pos(flags);
    if j < i {
        assert(!flags[j]);
    }
    if i < j {
        assert(!flags[i]);
    }
}

/// No flag holds when none of the flags holds.
pub proof fn lemma_none_true(flags: Seq<bool>)
    requires
        forall|j: int| 0 <= j < flags.len() ==> !flags[j],
    ensures
        !any_true(flags),
{
}

// ---------------------------------------------------------------------------------
// Change hashes
// ---------------------------------------------------------------------------------

/// Why `v` is not the text of a change hash, if it is not.
pub open spec fn hash_fault(v: JsV) -> Option<HashFault> {
    match v {
        JsV::Str(s) => if is_hash_text(s) {
            None
        } else {
            Some(HashFault::Parse)
        },
        _ => Some(HashFault::NotString),
    }
}

/// The hash that the text `v` spells.
pub open spec fn hash_value(v: JsV) -> Seq<u8> {
    match v {
        JsV::Str(s) => hash_text_bytes(s),
        _ => Seq::empty(),
    }
}

/// Whether `v` is not the text of a hash.
pub open spec fn bad_hash(v: JsV) -> bool {
    hash_fault(v) is Some
}

/// Which elements of `s` are not hash texts.
pub open spec fn bad_hashes(s: Seq<JsV>) -> Seq<bool> {
    Seq::new(s.len(), |i: int| bad_hash(s[i]))
}

/// Why the elements `s` are not all hash texts, if they are not: the first failing
/// element.
pub open spec fn elements_hash_fault(s: Seq<JsV>) -> Option<HashesFault> {
    if any_true(bad_hashes(s)) {
        let i = first_true_pos(bad_hashes(s));
        Some(HashesFault::BadElem(i as nat, hash_fault(s[i]).unwrap()))
    } else {
        None
    }
}

/// The hashes that the texts `s` spell.
pub open spec fn elements_hash_value(s: Seq<JsV>) -> Seq<Seq<u8>> {
    Seq::new(s.len(), |i: int| hash_value(s[i]))
}

/// Why `v` is not an array of hash texts, if it is not: the first failing element.
pub open spec fn hashes_fault(v: JsV) -> Option<HashesFault> {
    if !is_array(v) {
        Some(HashesFault::NotArray)
    } else {
        elements_hash_fault(elems(v))
    }
}

/// The hashes that an array of hash texts spells.
pub open spec fn hashes_value(v: JsV) -> Seq<Seq<u8>> {
    elements_hash_value(elems(v))
}

/// Why `v` is neither null nor an array of hash texts, if it is not.
pub open spec fn opt_hashes_fault(v: JsV) -> Option<HashesFault> {
    if v is Null {
        None
    } else {
        hashes_fault(v)
    }
}

/// The hashes that `v` spells, or none for null.
pub open spec fn opt_hashes_value(v: JsV) -> Option<Seq<Seq<u8>>> {
    if v is Null {
        None
    } else {
        Some(hashes_value(v))
    }
}

/// The views of an optional list of hashes.
pub open spec fn opt_hashes_view(h: Option<Vec<ChangeHash>>) -> Option<Seq<Seq<u8>>> {
    match h {
        Some(v) => Some(hashes_view(v@)),
        None => None,
    }
}

/// Reads a change hash from its text.
pub fn change_hash_from_js(v: &JsVal) -> (r: Result<ChangeHash, BadChangeHash>)
    ensures
        match r {
            Ok(h) => hash_fault(v.view()) is None && h.view() == hash_value(v.view()),
            Err(e) => hash_fault(v.view()) == Some(e.fault()),
        },
{
    match v {
        JsVal::Str(s) => match ChangeHash::parse(s) {
            Ok(h) => Ok(h),
            Err(e) => Err(BadChangeHash::Parse(e)),
        },
        _ => Err(BadChangeHash::NotString),
    }
}

/// Reads the hashes from the elements of an array.
pub fn hashes_from_elements(elements: &Vec<JsVal>) -> (r: Result<Vec<ChangeHash>, BadChangeHashes>)
    ensures
        match r {
            Ok(h) => {
                &&& elements_hash_fault(vals_view(elements@)) is None
                &&& hashes_view(h@) == elements_hash_value(vals_view(elements@))
            },
            Err(e) => elements_hash_fault(vals_view(elements@)) == Some(e.fault()),
        },
{
    let ghost s = vals_view(elements@);
    let ghost flags = bad_hashes(s);
    let mut out: Vec<ChangeHash> = Vec::new();
    let mut i: usize = 0;
    while i < elements.len()
        invariant
            s == vals_view(elements@),
            flags == bad_hashes(s),
            i <= elements.len(),
            out@.len() == i,
            forall|j: int| 0 <= j < i ==> !flags[j],
            forall|j: int| 0 <= j < i ==> #[trigger] out@[j].view() == hash_value(s[j]),
        decreases elements.len() - i,
    {
        match change_hash_from_js(&elements[i]) {
            Ok(h) => {
                out.push(h);
            },
            Err(e) => {
                proof {
                    assert(first_true(flags, i as int));
                    lemma_first_true(flags, i as int);
                }
                return Err(BadChangeHashes::BadElem(i, e));
            },
        }
        i = i + 1;
    }
    proof {
        lemma_none_true(flags);
        assert(hashes_view(out@) =~= elements_hash_value(s));
    }
    Ok(out)
}

/// Reads an array of hash texts.
pub fn change_hashes_from_js(v: &JsVal) -> (r: Result<Vec<ChangeHash>, BadChangeHashes>)
    ensures
        match r {
            Ok(h) => hashes_fault(v.view()) is None && hashes_view(h@) == hashes_value(v.view()),
            Err(e) => hashes_fault(v.view()) == Some(e.fault()),
        },
{
    match v {
        JsVal::Object(o) => {
            if !matches!(o.class, JsClass::Array) {
                return Err(BadChangeHashes::NotArray);
            }
            proof { o.lemma_view_parts(); }
            hashes_from_elements(&o.elements)
        },
        _ => Err(BadChangeHashes::NotArray),
    }
}

/// Reads null as no hashes, and anything else as an array of hash texts.
pub fn opt_change_hashes_from_js(v: &JsVal) -> (r: Result<Option<Vec<ChangeHash>>, BadChangeHashes>)
    ensures
        match r {
            Ok(h) => opt_hashes_fault(v.view()) is None && opt_hashes_view(h) == opt_hashes_value(v.view()),
            Err(e) => opt_hashes_fault(v.view()) == Some(e.fault()),
        },
{
    if matches!(v, JsVal::Null) {
        Ok(None)
    } else {
        match change_hashes_from_js(v) {
            Ok(h) => Ok(Some(h)),
            Err(e) => Err(e),
        }
    }
}

/// Reads optional heads: the elements of an array, or none.
pub fn get_heads(heads: Option<Vec<JsVal>>) -> (r: Result<Option<Vec<ChangeHash>>, BadChangeHashes>)
    ensures
        match heads {
            None => r matches Ok(None),
            Some(elements) => match r {
                Ok(h) => {
                    &&& elements_hash_fault(vals_view(elements@)) is None
                    &&& h matches Some(h) && hashes_view(h@) == elements_hash_value(vals_view(elements@))
                },
                Err(e) => elements_hash_fault(vals_view(elements@)) == Some(e.fault()),
            },
        },
{
    match heads {
        None => Ok(None),
        Some(elements) => match hashes_from_elements(&elements) {
            Ok(h) => Ok(Some(h)),
            Err(e) => Err(e),
        },
    }
}


// ---------------------------------------------------------------------------------
// Sets of change hashes
// ---------------------------------------------------------------------------------

/// Which own properties are set to `true` under a key that is not hash text.
pub open spec fn bad_set_keys(p: Seq<(JsV, JsV)>) -> Seq<bool> {
    Seq::new(p.len(), |i: int| p[i].1 == JsV::Bool(true) && bad_hash(p[i].0))
}

/// Why the own properties `p` do not describe a set of hashes, if they do not.
pub open spec fn pairs_set_fault(p: Seq<(JsV, JsV)>) -> Option<HashSetFault> {
    if any_true(bad_set_keys(p)) {
        let i = first_true_pos(bad_set_keys(p));
        Some(HashSetFault::BadHash(p[i].0, hash_fault(p[i].0).unwrap()))
    } else {
        None
    }
}

/// The hashes whose text is a key set to `true` among the own properties `p`.
pub open spec fn pairs_set_value(p: Seq<(JsV, JsV)>) -> Set<Seq<u8>> {
    Set::new(|b: Seq<u8>| exists|i: int| 0 <= i < p.len() && p[i].1 == JsV::Bool(true) && b == hash_value(p[i].0))
}

/// Why `v` is not an object whose keys set to `true` are hash texts, if it is not.
pub open spec fn hash_set_fault(v: JsV) -> Option<HashSetFault> {
    match v {
        JsV::Object(o) => pairs_set_fault(own_pairs(o)),
        _ => Some(HashSetFault::ListProp),
    }
}

/// The hashes that the keys set to `true` in `v` spell.
pub open spec fn hash_set_value(v: JsV) -> Set<Seq<u8>> {
    match v {
        JsV::Object(o) => pairs_set_value(own_pairs(o)),
        _ => Set::empty(),
    }
}

/// Reads a set of hashes from the own keys of an object whose values are `true`.
pub fn change_hash_set_from_js(v: &JsVal) -> (r: Result<ChangeHashSet, BadChangeHashSet>)
    ensures
        match r {
            Ok(set) => {
                &&& hash_set_fault(v.view()) is None
                &&& set.wf()
                &&& set.view().to_set() == hash_set_value(v.view())
            },
            Err(e) => hash_set_fault(v.view()) == Some(e.fault()),
        },
{
    let o = match v {
        JsVal::Object(o) => o,
        _ => {
            return Err(BadChangeHashSet::ListProp);
        },
    };
    let pairs = o.own_pairs();
    let ghost p = pairs_view(pairs@);
    assert(v.view() == JsV::Object(o.view()));
    let ghost flags = bad_set_keys(p);
    let mut set = ChangeHashSet::new();
    let mut i: usize = 0;
    while i < pairs.len()
        invariant
            p == pairs_view(pairs@),
            p == own_pairs(o.view()),
            v.view() == JsV::Object(o.view()),
            flags == bad_set_keys(p),
            i <= pairs.len(),
            set.wf(),
            forall|j: int| 0 <= j < i ==> !flags[j],
            set.view().to_set() == pairs_set_value(p.take(i as int)),
        decreases pairs.len() - i,
    {
        let ghost before = set.view().to_set();
        proof {
            assert(p[i as int] == (pairs@[i as int].0.view(), pairs@[i as int].1.view()));
        }
        if matches!(pairs[i].1, JsVal::Bool(true)) {
            match change_hash_from_js(&pairs[i].0) {
                Ok(h) => {
                    set.insert(h);
                    proof {
                        let q1 = p.take(i + 1);
                        let q0 = p.take(i as int);
                        assert forall|b: Seq<u8>| #[trigger] pairs_set_value(q1).contains(b) <==> pairs_set_value(q0).insert(h.view()).contains(b) by {
                            if pairs_set_value(q1).contains(b) {
                                let k = choose|k: int| 0 <= k < q1.len() && q1[k].1 == JsV::Bool(true) && b == hash_value(q1[k].0);
                                if k < i {
                                    assert(q0[k] == q1[k]);
                                }
                            }
                            if pairs_set_value(q0).contains(b) {
                                let k = choose|k: int| 0 <= k < q0.len() && q0[k].1 == JsV::Bool(true) && b == hash_value(q0[k].0);
                                assert(q1[k] == q0[k]);
                            }
                            if b == h.view() {
                                assert(q1[i as int] == p[i as int]);
                            }
                        }
                        assert(pairs_set_value(q1) =~= pairs_set_value(q0).insert(h.view()));
                    }
                },
                Err(e) => {
                    proof {
                        assert(first_true(flags, i as int));
                        lemma_first_true(flags, i as int);
                    }
                    let key = pairs[i].0.duplicate();
                    return Err(BadChangeHashSet::BadHash(key, e));
                },
            }
        } else {
            proof {
                let q1 = p.take(i + 1);
                let q0 = p.take(i as int);
                assert forall|b: Seq<u8>| #[trigger] pairs_set_value(q1).contains(b) <==> pairs_set_value(q0).contains(b) by {
                    if pairs_set_value(q1).contains(b) {
                        let k = choose|k: int| 0 <= k < q1.len() && q1[k].1 == JsV::Bool(true) && b == hash_value(q1[k].0);
                        assert(q0[k] == q1[k]);
                    }
                    if pairs_set_value(q0).contains(b) {
                        let k = choose|k: int| 0 <= k < q0.len() && q0[k].1 == JsV::Bool(true) && b == hash_value(q0[k].0);
                        assert(q1[k] == q0[k]);
                    }
                }
                assert(pairs_set_value(q1) =~= pairs_set_value(q0));
            }
        }
        i = i + 1;
    }
    proof {
        lemma_none_true(flags);
        assert(p.take(pairs.len() as int) =~= p);
    }
    Ok(set)
}

// ---------------------------------------------------------------------------------
// Bloom filters and haves
// ---------------------------------------------------------------------------------

/// Why `v` does not hold a bloom filter, if it does not.
pub open spec fn bloom_fault(v: JsV) -> Option<BloomFault> {
    if !is_bytes(v) {
        Some(BloomFault::NotU8Array)
    } else if !bloom_decodes(bytes_of(v)) {
        Some(BloomFault::Decode)
    } else {
        None
    }
}

/// Reads a bloom filter from a `Uint8Array`, as `BloomFilter::to_bytes` writes it.
pub fn bloom_from_js(v: &JsVal) -> (r: Result<Vec<u8>, BadBloom>)
    ensures
        match r {
            Ok(b) => bloom_fault(v.view()) is None && b@ == bloom_bytes(bytes_of(v.view())) && bloom_stored(b@),
            Err(e) => bloom_fault(v.view()) == Some(e.fault()),
        },
{
    match v {
        JsVal::Object(o) => {
            if !matches!(o.class, JsClass::Bytes) {
                return Err(BadBloom::NotU8Array);
            }
            proof { o.lemma_view_parts(); }
            match decode_bloom(o.bytes.as_slice()) {
                Ok(b) => Ok(b),
                Err(e) => Err(BadBloom::Decode(e)),
            }
        },
        _ => Err(BadBloom::NotU8Array),
    }
}

/// Why `v` is not a `Have`, if it is not.
pub open spec fn have_fault(v: JsV) -> Option<HaveFault> {
    if !(v is Object) {
        Some(HaveFault::GetHaveProp(get_fault(KeyV::Name("lastSync"@))))
    } else if hashes_fault(field(v, "lastSync"@)) is Some {
        Some(HaveFault::BadLastSync(hashes_fault(field(v, "lastSync"@)).unwrap()))
    } else if bloom_fault(field(v, "bloom"@)) is Some {
        Some(HaveFault::BadBloom(bloom_fault(field(v, "bloom"@)).unwrap()))
    } else {
        None
    }
}

/// The heads at the last sync that a `Have` holds.
pub open spec fn have_last_sync(v: JsV) -> Seq<Seq<u8>> {
    hashes_value(field(v, "lastSync"@))
}

/// The bloom filter that a `Have` holds, as `BloomFilter::to_bytes` writes it.
pub open spec fn have_bloom(v: JsV) -> Seq<u8> {
    bloom_bytes(bytes_of(field(v, "bloom"@)))
}

/// The heads and the bloom filter that a `Have` holds.
pub open spec fn have_value(v: JsV) -> (Seq<Seq<u8>>, Seq<u8>) {
    (have_last_sync(v), have_bloom(v))
}

/// The heads and the bloom filter of a `Have`.
pub open spec fn have_view(h: Have) -> (Seq<Seq<u8>>, Seq<u8>) {
    (hashes_view(h.last_sync@), h.bloom@)
}

/// Reads a `Have` from an object `{ lastSync, bloom }`.
pub fn have_from_js(v: &JsVal) -> (r: Result<Have, BadHave>)
    ensures
        match r {
            Ok(h) => have_fault(v.view()) is None && have_view(h) == have_value(v.view()) && bloom_stored(h.bloom@),
            Err(e) => have_fault(v.view()) == Some(e.fault()),
        },
{
    let last_sync = match js_get(v, name_key("lastSync")) {
        Ok(x) => x,
        Err(g) => {
            return Err(BadHave::GetHaveProp(g));
        },
    };
    let last_sync = match change_hashes_from_js(&last_sync) {
        Ok(h) => h,
        Err(e) => {
            return Err(BadHave::BadLastSync(e));
        },
    };
    let bloom = match js_get(v, name_key("bloom")) {
        Ok(x) => x,
        Err(g) => {
            return Err(BadHave::GetHaveProp(g));
        },
    };
    let bloom = match bloom_from_js(&bloom) {
        Ok(b) => b,
        Err(e) => {
            return Err(BadHave::BadBloom(e));
        },
    };
    Ok(Have { last_sync, bloom })
}

/// Which elements are not `Have`s.
pub open spec fn bad_haves(s: Seq<JsV>) -> Seq<bool> {
    Seq::new(s.len(), |i: int| have_fault(s[i]) is Some)
}

/// Why `v` is not an array of `Have`s, if it is not: the first failing element.
pub open spec fn haves_fault(v: JsV) -> Option<HavesFault> {
    if !is_array(v) {
        Some(HavesFault::NotArray)
    } else if any_true(bad_haves(elems(v))) {
        let i = first_true_pos(bad_haves(elems(v)));
        Some(HavesFault::BadElem(i as nat, have_fault(elems(v)[i]).unwrap()))
    } else {
        None
    }
}

/// The heads and the bloom filter of each `Have` in an array.
pub open spec fn haves_value(v: JsV) -> Seq<(Seq<Seq<u8>>, Seq<u8>)> {
    Seq::new(elems(v).len(), |i: int| have_value(elems(v)[i]))
}

/// The heads and the bloom filter of each `Have`.
pub open spec fn haves_view(h: Seq<Have>) -> Seq<(Seq<Seq<u8>>, Seq<u8>)> {
    Seq::new(h.len(), |i: int| have_view(h[i]))
}

/// Whether the bloom filter of each `Have` is as `BloomFilter::to_bytes` writes it.
pub open spec fn haves_stored(h: Seq<Have>) -> bool {
    forall|i: int| 0 <= i < h.len() ==> bloom_stored(#[trigger] h[i].bloom@)
}

/// Reads an array of `Have`s.
pub fn haves_from_js(v: &JsVal) -> (r: Result<Vec<Have>, BadHaves>)
    ensures
        match r {
            Ok(h) => haves_fault(v.view()) is None && haves_view(h@) == haves_value(v.view()) && haves_stored(h@),
            Err(e) => haves_fault(v.view()) == Some(e.fault()),
        },
{
    let o = match v {
        JsVal::Object(o) => o,
        _ => {
            return Err(BadHaves::NotArray);
        },
    };
    if !matches!(o.class, JsClass::Array) {
        return Err(BadHaves::NotArray);
    }
    proof { o.lemma_view_parts(); }
    assert(v.view() == JsV::Object(o.view()));
    let ghost s = elems(v.view());
    let ghost flags = bad_haves(s);
    let mut out: Vec<Have> = Vec::new();
    let mut i: usize = 0;
    while i < o.elements.len()
        invariant
            s == vals_view(o.elements@),
            s == elems(v.view()),
            is_array(v.view()),
            flags == bad_haves(s),
            i <= o.elements.len(),
            out@.len() == i,
            forall|j: int| 0 <= j < i ==> !flags[j],
            forall|j: int| 0 <= j < i ==> #[trigger] have_view(out@[j]) == have_value(s[j]),
            haves_stored(out@),
        decreases o.elements.len() - i,
    {
        proof { assert(s[i as int] == o.elements@[i as int].view()); }
        match have_from_js(&o.elements[i]) {
            Ok(h) => {
                out.push(h);
            },
            Err(e) => {
                proof {
                    assert(first_true(flags, i as int));
                    lemma_first_true(flags, i as int);
                }
                return Err(BadHaves::BadElem(i, e));
            },
        }
        i = i + 1;
    }
    proof {
        lemma_none_true(flags);
        assert(haves_view(out@) =~= haves_value(v.view()));
    }
    Ok(out)
}

/// Why `v` is neither null nor an array of `Have`s, if it is not.
pub open spec fn opt_haves_fault(v: JsV) -> Option<HavesFault> {
    if v is Null {
        None
    } else {
        haves_fault(v)
    }
}

/// Reads null as no `Have`s, and anything else as an array of them.
pub fn opt_haves_from_js(v: &JsVal) -> (r: Result<Option<Vec<Have>>, BadHaves>)
    ensures
        match r {
            Ok(h) => {
                &&& opt_haves_fault(v.view()) is None
                &&& (v.view() is Null <==> h is None)
                &&& h matches Some(h) ==> haves_view(h@) == haves_value(v.view()) && haves_stored(h@)
            },
            Err(e) => opt_haves_fault(v.view()) == Some(e.fault()),
        },
{
    if matches!(v, JsVal::Null) {
        Ok(None)
    } else {
        match haves_from_js(v) {
            Ok(h) => Ok(Some(h)),
            Err(e) => Err(e),
        }
    }
}

// ---------------------------------------------------------------------------------
// Sync states
// ---------------------------------------------------------------------------------

/// Why `v` is not a sync state, if it is not: the first property that fails, in the
/// order `sharedHeads`, `lastSentHeads`, `theirHeads`, `theirNeed`, `theirHave`,
/// `sentHashes`, `inFlight`.
pub open spec fn sync_state_fault(v: JsV) -> Option<SyncStateFault> {
    if !(v is Object) {
        Some(SyncStateFault::GetProp(get_fault(KeyV::Name("sharedHeads"@))))
    } else if hashes_fault(field(v, "sharedHeads"@)) is Some {
        Some(SyncStateFault::BadSharedHeads(hashes_fault(field(v, "sharedHeads"@)).unwrap()))
    } else if hashes_fault(field(v, "lastSentHeads"@)) is Some {
        Some(SyncStateFault::BadLastSentHeads(hashes_fault(field(v, "lastSentHeads"@)).unwrap()))
    } else if opt_hashes_fault(field(v, "theirHeads"@)) is Some {
        Some(SyncStateFault::BadTheirHeads(opt_hashes_fault(field(v, "theirHeads"@)).unwrap()))
    } else if opt_hashes_fault(field(v, "theirNeed"@)) is Some {
        Some(SyncStateFault::BadTheirNeed(opt_hashes_fault(field(v, "theirNeed"@)).unwrap()))
    } else if opt_haves_fault(field(v, "theirHave"@)) is Some {
        Some(SyncStateFault::BadTheirHave(opt_haves_fault(field(v, "theirHave"@)).unwrap()))
    } else if hash_set_fault(field(v, "sentHashes"@)) is Some {
        Some(SyncStateFault::BadSentHashes(hash_set_fault(field(v, "sentHashes"@)).unwrap()))
    } else if !(field(v, "inFlight"@) is Bool) {
        Some(SyncStateFault::InFlightNotBoolean)
    } else {
        None
    }
}

/// Whether `s` holds what the JavaScript sync state `v` describes.
pub open spec fn sync_state_matches(s: SyncState, v: JsV) -> bool {
    &&& hashes_view(s.shared_heads@) == hashes_value(field(v, "sharedHeads"@))
    &&& hashes_view(s.last_sent_heads@) == hashes_value(field(v, "lastSentHeads"@))
    &&& opt_hashes_view(s.their_heads) == opt_hashes_value(field(v, "theirHeads"@))
    &&& opt_hashes_view(s.their_need) == opt_hashes_value(field(v, "theirNeed"@))
    &&& (s.their_have is None <==> field(v, "theirHave"@) is Null)
    &&& (s.their_have matches Some(h) ==> haves_view(h@) == haves_value(field(v, "theirHave"@)) && haves_stored(h@))
    &&& s.sent_hashes.wf()
    &&& s.sent_hashes.view().to_set() == hash_set_value(field(v, "sentHashes"@))
    &&& field(v, "inFlight"@) == JsV::Bool(s.in_flight)
}

/// Reads a sync state.
pub fn sync_state_from_js(v: &JsVal) -> (r: Result<SyncState, BadSyncState>)
    ensures
        match r {
            Ok(s) => sync_state_fault(v.view()) is None && sync_state_matches(s, v.view()),
            Err(e) => sync_state_fault(v.view()) == Some(e.fault()),
        },
{
    let x = match js_get(v, name_key("sharedHeads")) {
        Ok(x) => x,
        Err(g) => {
            return Err(BadSyncState::GetProp(g));
        },
    };
    let shared_heads = match change_hashes_from_js(&x) {
        Ok(h) => h,
        Err(e) => {
            return Err(BadSyncState::BadSharedHeads(e));
        },
    };
    let x = match js_get(v, name_key("lastSentHeads")) {
        Ok(x) => x,
        Err(g) => {
            return Err(BadSyncState::GetProp(g));
        },
    };
    let last_sent_heads = match change_hashes_from_js(&x) {
        Ok(h) => h,
        Err(e) => {
            return Err(BadSyncState::BadLastSentHeads(e));
        },
    };
    let x = match js_get(v, name_key("theirHeads")) {
        Ok(x) => x,
        Err(g) => {
            return Err(BadSyncState::GetProp(g));
        },
    };
    let their_heads = match opt_change_hashes_from_js(&x) {
        Ok(h) => h,
        Err(e) => {
            return Err(BadSyncState::BadTheirHeads(e));
        },
    };
    let x = match js_get(v, name_key("theirNeed")) {
        Ok(x) => x,
        Err(g) => {
            return Err(BadSyncState::GetProp(g));
        },
    };
    let their_need = match opt_change_hashes_from_js(&x) {
        Ok(h) => h,
        Err(e) => {
            return Err(BadSyncState::BadTheirNeed(e));
        },
    };
    let x = match js_get(v, name_key("theirHave")) {
        Ok(x) => x,
        Err(g) => {
            return Err(BadSyncState::GetProp(g));
        },
    };
    let their_have = match opt_haves_from_js(&x) {
        Ok(h) => h,
        Err(e) => {
            return Err(BadSyncState::BadTheirHave(e));
        },
    };
    let x = match js_get(v, name_key("sentHashes")) {
        Ok(x) => x,
        Err(g) => {
            return Err(BadSyncState::GetProp(g));
        },
    };
    let sent_hashes = match change_hash_set_from_js(&x) {
        Ok(h) => h,
        Err(e) => {
            return Err(BadSyncState::BadSentHashes(e));
        },
    };
    let x = match js_get(v, name_key("inFlight")) {
        Ok(x) => x,
        Err(g) => {
            return Err(BadSyncState::GetProp(g));
        },
    };
    let in_flight = match x {
        JsVal::Bool(b) => b,
        _ => {
            return Err(BadSyncState::InFlightNotBoolean);
        },
    };
    Ok(SyncState { shared_heads, last_sent_heads, their_heads, their_need, their_have, sent_hashes, in_flight })
}

// ---------------------------------------------------------------------------------
// Sync messages
// ---------------------------------------------------------------------------------

/// Which elements are not `Uint8Array`s.
pub open spec fn not_bytes(s: Seq<JsV>) -> Seq<bool> {
    Seq::new(s.len(), |i: int| !is_bytes(s[i]))
}

/// Which elements do not load as changes.
pub open spec fn bad_changes(s: Seq<JsV>) -> Seq<bool> {
    Seq::new(s.len(), |i: int| !change_loads(bytes_of(s[i])))
}

/// Why `v` is not an array of encoded changes, if it is not: first the first element
/// that is not a `Uint8Array`, then the first that does not load.
pub open spec fn changes_fault(v: JsV) -> Option<ChangesFault> {
    if !is_array(v) {
        Some(ChangesFault::ChangesNotArray)
    } else if any_true(not_bytes(elems(v))) {
        Some(ChangesFault::ElemNotUint8Array(first_true_pos(not_bytes(elems(v))) as nat))
    } else if any_true(bad_changes(elems(v))) {
        Some(ChangesFault::BadChange(first_true_pos(bad_changes(elems(v))) as nat))
    } else {
        None
    }
}

/// The stored bytes of each change that an array of encoded changes loads to.
pub open spec fn changes_value(v: JsV) -> Seq<Seq<u8>> {
    Seq::new(elems(v).len(), |i: int| change_raw(bytes_of(elems(v)[i])))
}

/// The bytes of each change.
pub open spec fn changes_view(c: Seq<Vec<u8>>) -> Seq<Seq<u8>> {
    Seq::new(c.len(), |i: int| c[i]@)
}

/// Reads an array of encoded changes, each loaded and kept by its stored bytes.
pub fn changes_from_js(v: &JsVal) -> (r: Result<Vec<Vec<u8>>, BadJSChanges>)
    ensures
        match r {
            Ok(c) => {
                &&& changes_fault(v.view()) is None
                &&& changes_view(c@) == changes_value(v.view())
                &&& forall|i: int| 0 <= i < c@.len() ==> change_stored(#[trigger] c@[i]@)
            },
            Err(e) => changes_fault(v.view()) == Some(e.fault()),
        },
{
    let o = match v {
        JsVal::Object(o) => o,
        _ => {
            return Err(BadJSChanges::ChangesNotArray);
        },
    };
    if !matches!(o.class, JsClass::Array) {
        return Err(BadJSChanges::ChangesNotArray);
    }
    proof { o.lemma_view_parts(); }
    assert(v.view() == JsV::Object(o.view()));
    let ghost s = elems(v.view());
    let ghost flags = not_bytes(s);
    let mut i: usize = 0;
    while i < o.elements.len()
        invariant
            s == vals_view(o.elements@),
            s == elems(v.view()),
            is_array(v.view()),
            flags == not_bytes(s),
            i <= o.elements.len(),
            forall|j: int| 0 <= j < i ==> !flags[j],
        decreases o.elements.len() - i,
    {
        proof { assert(s[i as int] == o.elements@[i as int].view()); }
        let is_u8 = match &o.elements[i] {
            JsVal::Object(e) => matches!(e.class, JsClass::Bytes),
            _ => false,
        };
        if !is_u8 {
            proof {
                assert(first_true(flags, i as int));
                lemma_first_true(flags, i as int);
            }
            return Err(BadJSChanges::ElemNotUint8Array(i));
        }
        i = i + 1;
    }
    proof { lemma_none_true(flags); }
    let ghost loads = bad_changes(s);
    let mut out: Vec<Vec<u8>> = Vec::new();
    let mut k: usize = 0;
    while k < o.elements.len()
        invariant
            s == vals_view(o.elements@),
            s == elems(v.view()),
            is_array(v.view()),
            loads == bad_changes(s),
            !any_true(not_bytes(s)),
            k <= o.elements.len(),
            out@.len() == k,
            forall|j: int| 0 <= j < k ==> !loads[j],
            forall|j: int| 0 <= j < k ==> #[trigger] out@[j]@ == change_raw(bytes_of(s[j])),
            forall|j: int| 0 <= j < k ==> change_stored(#[trigger] out@[j]@),
        decreases o.elements.len() - k,
    {
        proof { assert(s[k as int] == o.elements@[k as int].view()); }
        let r = match &o.elements[k] {
            JsVal::Object(e) => {
                proof { e.lemma_view_parts(); }
                assert(bytes_of(s[k as int]) == e.bytes@);
                load_change(e.bytes.as_slice())
            },
            _ => {
                proof {
                    assert(not_bytes(s)[k as int]);
                    assert(!first_true(not_bytes(s), k as int));
                    let j = choose|j: int| 0 <= j < k && not_bytes(s)[j];
                    assert(false) by {
                        assert(exists|m: int| 0 <= m < s.len() && not_bytes(s)[m]);
                        first_true_exists(not_bytes(s), k as int);
                    }
                }
                return Err(BadJSChanges::ElemNotUint8Array(k));
            },
        };
        match r {
            Ok(c) => {
                out.push(c);
            },
            Err(e) => {
                proof {
                    assert(first_true(loads, k as int));
                    lemma_first_true(loads, k as int);
                }
                return Err(BadJSChanges::BadChange(k, e));
            },
        }
        k = k + 1;
    }
    proof {
        lemma_none_true(loads);
        assert(changes_view(out@) =~= changes_value(v.view()));
    }
    Ok(out)
}

/// A flag that holds somewhere holds first somewhere.
pub proof fn first_true_exists(flags: Seq<bool>, i: int)
    requires
        0 <= i < flags.len(),
        flags[i],
    ensures
        any_true(flags),
    decreases i,
{
    if exists|j: int| 0 <= j < i && flags[j] {
        let j = choose|j: int| 0 <= j < i && flags[j];
        first_true_exists(flags, j);
    } else {
        assert(first_true(flags, i));
    }
}

/// Why `v` is not a sync message, if it is not: the first property that fails, in
/// the order `heads`, `need`, `changes`, `have`.
pub open spec fn sync_message_fault(v: JsV) -> Option<SyncMessageFault> {
    if !(v is Object) {
        Some(SyncMessageFault::GetProp(get_fault(KeyV::Name("heads"@))))
    } else if hashes_fault(field(v, "heads"@)) is Some {
        Some(SyncMessageFault::BadHeads(hashes_fault(field(v, "heads"@)).unwrap()))
    } else if hashes_fault(field(v, "need"@)) is Some {
        Some(SyncMessageFault::BadNeed(hashes_fault(field(v, "need"@)).unwrap()))
    } else if changes_fault(field(v, "changes"@)) is Some {
        Some(SyncMessageFault::BadJSChanges(changes_fault(field(v, "changes"@)).unwrap()))
    } else if haves_fault(field(v, "have"@)) is Some {
        Some(SyncMessageFault::BadHaves(haves_fault(field(v, "have"@)).unwrap()))
    } else {
        None
    }
}

/// Reads a sync message.
pub fn sync_message_from_js(v: &JsVal) -> (r: Result<SyncMessage, BadSyncMessage>)
    ensures
        match r {
            Ok(m) => {
                &&& sync_message_fault(v.view()) is None
                &&& hashes_view(m.heads@) == hashes_value(field(v.view(), "heads"@))
                &&& hashes_view(m.need@) == hashes_value(field(v.view(), "need"@))
                &&& changes_view(m.changes@) == changes_value(field(v.view(), "changes"@))
                &&& forall|i: int| 0 <= i < m.changes@.len() ==> change_stored(#[trigger] m.changes@[i]@)
                &&& haves_view(m.have@) == haves_value(field(v.view(), "have"@))
                &&& haves_stored(m.have@)
            },
            Err(e) => sync_message_fault(v.view()) == Some(e.fault()),
        },
{
    let x = match js_get(v, name_key("heads")) {
        Ok(x) => x,
        Err(g) => {
            return Err(BadSyncMessage::GetProp(g));
        },
    };
    let heads = match change_hashes_from_js(&x) {
        Ok(h) => h,
        Err(e) => {
            return Err(BadSyncMessage::BadHeads(e));
        },
    };
    let x = match js_get(v, name_key("need")) {
        Ok(x) => x,
        Err(g) => {
            return Err(BadSyncMessage::GetProp(g));
        },
    };
    let need = match change_hashes_from_js(&x) {
        Ok(h) => h,
        Err(e) => {
            return Err(BadSyncMessage::BadNeed(e));
        },
    };
    let x = match js_get(v, name_key("changes")) {
        Ok(x) => x,
        Err(g) => {
            return Err(BadSyncMessage::GetProp(g));
        },
    };
    let changes = match changes_from_js(&x) {
        Ok(c) => c,
        Err(e) => {
            return Err(BadSyncMessage::BadJSChanges(e));
        },
    };
    let x = match js_get(v, name_key("have")) {
        Ok(x) => x,
        Err(g) => {
            return Err(BadSyncMessage::GetProp(g));
        },
    };
    let have = match haves_from_js(&x) {
        Ok(h) => h,
        Err(e) => {
            return Err(BadSyncMessage::BadHaves(e));
        },
    };
    Ok(SyncMessage { heads, need, have, changes })
}


// ---------------------------------------------------------------------------------
// Writing
// ---------------------------------------------------------------------------------

/// An array of the hex texts of the hashes `hs`.
pub open spec fn hash_array_spec(hs: Seq<Seq<u8>>) -> ObjV {
    ObjV { elements: Seq::new(hs.len(), |i: int| JsV::Str(hex_encode(hs[i]))), ..empty_obj(JsClass::Array) }
}

/// An object that maps the hex text of each hash in `hs` to `true`.
pub open spec fn hash_set_obj_spec(hs: Seq<Seq<u8>>) -> ObjV {
    ObjV { props: Seq::new(hs.len(), |i: int| (hex_encode(hs[i]), JsV::Bool(true))), ..empty_obj(JsClass::Plain) }
}

/// Writes hashes as an array of their texts.
pub fn change_hashes_to_js(h: &Vec<ChangeHash>) -> (r: JsVal)
    ensures
        r.view() == JsV::Object(hash_array_spec(hashes_view(h@))),
{
    let mut a = JsObject::new(JsClass::Array);
    let mut i: usize = 0;
    while i < h.len()
        invariant
            i <= h.len(),
            a.view() == (ObjV { elements: a.view().elements, ..empty_obj(JsClass::Array) }),
            a.view().elements =~= Seq::new(i as nat, |k: int| JsV::Str(hex_encode(h@[k].view()))),
        decreases h.len() - i,
    {
        let t = h[i].to_text();
        let ghost before = a.view();
        proof { a.lemma_view_parts(); }
        let ghost ev = a.elements@;
        a.elements.push(JsVal::Str(t));
        proof {
            a.lemma_view_parts();
            lemma_vals_view_push(ev, JsVal::Str(t));
            assert(a.view().hidden =~= before.hidden);
            assert(a.view().elements =~= before.elements.push(JsV::Str(t@)));
        }
        i = i + 1;
    }
    proof {
        assert(a.view().elements =~= hash_array_spec(hashes_view(h@)).elements);
        assert(a.view() =~= hash_array_spec(hashes_view(h@)));
    }
    JsVal::Object(a)
}

/// Writes hashes as an array of their hex texts.
pub fn change_hash_array(h: &[ChangeHash]) -> (r: JsObject)
    ensures
        r.view() == hash_array_spec(Seq::new(h@.len(), |i: int| h@[i].view())),
{
    let mut a = JsObject::new(JsClass::Array);
    let mut i: usize = 0;
    while i < h.len()
        invariant
            i <= h.len(),
            a.view() == (ObjV { elements: a.view().elements, ..empty_obj(JsClass::Array) }),
            a.view().elements =~= Seq::new(i as nat, |k: int| JsV::Str(hex_encode(h@[k].view()))),
        decreases h.len() - i,
    {
        let t = h[i].to_hex();
        let ghost before = a.view();
        proof { a.lemma_view_parts(); }
        let ghost ev = a.elements@;
        a.elements.push(JsVal::Str(t));
        proof {
            a.lemma_view_parts();
            lemma_vals_view_push(ev, JsVal::Str(t));
            assert(a.view().hidden =~= before.hidden);
            assert(a.view().elements =~= before.elements.push(JsV::Str(t@)));
        }
        i = i + 1;
    }
    proof {
        assert(a.view().elements =~= hash_array_spec(Seq::new(h@.len(), |i: int| h@[i].view())).elements);
        assert(a.view() =~= hash_array_spec(Seq::new(h@.len(), |i: int| h@[i].view())));
    }
    a
}

/// The JavaScript value of optional hashes: an array, or null.
pub open spec fn opt_hash_array_spec(h: Option<Seq<Seq<u8>>>) -> JsV {
    match h {
        Some(hs) => JsV::Object(hash_array_spec(hs)),
        None => JsV::Null,
    }
}

/// Writes optional hashes as an array of their texts, or null.
pub fn opt_change_hashes_to_js(h: &Option<Vec<ChangeHash>>) -> (r: JsVal)
    ensures
        r.view() == opt_hash_array_spec(opt_hashes_view(*h)),
{
    match h {
        Some(v) => change_hashes_to_js(v),
        None => JsVal::Null,
    }
}

/// Writes a set of hashes as an object mapping each hash's text to `true`, in
/// ascending order of the hashes.
pub fn change_hash_set_to_js(set: &ChangeHashSet) -> (r: JsVal)
    ensures
        r.view() == JsV::Object(hash_set_obj_spec(set.view())),
{
    let mut o = JsObject::new(JsClass::Plain);
    let mut i: usize = 0;
    while i < set.len()
        invariant
            i <= set.view().len(),
            o.view() == (ObjV { props: o.view().props, ..empty_obj(JsClass::Plain) }),
            o.view().props =~= Seq::new(i as nat, |k: int| (hex_encode(set.view()[k]), JsV::Bool(true))),
        decreases set.view().len() - i,
    {
        let t = set.get(i).to_text();
        let ghost before = o.view();
        proof { o.lemma_view_parts(); }
        let ghost pv = o.props@;
        o.props.push((t, JsVal::Bool(true)));
        proof {
            o.lemma_view_parts();
            lemma_entries_view_push(pv, (t, JsVal::Bool(true)));
            assert(o.view().hidden =~= before.hidden);
            assert(o.view().elements =~= before.elements);
            assert(o.view().props =~= before.props.push((t@, JsV::Bool(true))));
        }
        i = i + 1;
    }
    proof {
        assert(o.view().props =~= hash_set_obj_spec(set.view()).props);
        assert(o.view() =~= hash_set_obj_spec(set.view()));
    }
    JsVal::Object(o)
}

/// A new `Uint8Array` holding `bytes`.
pub open spec fn bytes_obj_spec(bytes: Seq<u8>) -> ObjV {
    ObjV { bytes, ..empty_obj(JsClass::Bytes) }
}

/// Whether `x` is the JavaScript form of a `Have` with heads `hv.0` and bloom filter
/// `hv.1`: an object `{ lastSync, bloom }` whose `bloom` is a new `Uint8Array` of the
/// filter's bytes.
pub open spec fn have_js_spec(x: JsV, hv: (Seq<Seq<u8>>, Seq<u8>)) -> bool {
    &&& x matches JsV::Object(o)
    &&& o.class is Plain
    &&& o.elements.len() == 0
    &&& o.hidden.len() == 0
    &&& !o.frozen
    &&& o.props.len() == 2
    &&& o.props[0] == ("lastSync"@, JsV::Object(hash_array_spec(hv.0)))
    &&& o.props[1] == ("bloom"@, JsV::Object(bytes_obj_spec(hv.1)))
}

/// Whether `a` is the JavaScript array of the `Have`s whose heads and bloom filters are
/// `hs`.
pub open spec fn haves_js_spec(a: ObjV, hs: Seq<(Seq<Seq<u8>>, Seq<u8>)>) -> bool {
    &&& a == (ObjV { elements: a.elements, ..empty_obj(JsClass::Array) })
    &&& a.elements.len() == hs.len()
    &&& forall|i: int| 0 <= i < hs.len() ==> have_js_spec(#[trigger] a.elements[i], hs[i])
}

/// An array of new `Uint8Array`s, one for each change's bytes in `cs`.
pub open spec fn changes_array_spec(cs: Seq<Seq<u8>>) -> ObjV {
    ObjV { elements: Seq::new(cs.len(), |i: int| JsV::Object(bytes_obj_spec(cs[i]))), ..empty_obj(JsClass::Array) }
}

/// A `Uint8Array` holding `bytes`.
pub fn bytes_object(bytes: Vec<u8>) -> (r: JsObject)
    ensures
        r.view() == (ObjV { bytes: bytes@, ..empty_obj(JsClass::Bytes) }),
{
    let mut o = JsObject::new(JsClass::Bytes);
    o.bytes = bytes;
    proof {
        o.lemma_view_parts();
        assert(o.view().hidden =~= Seq::<(crate::js::HiddenKey, JsV)>::empty());
        assert(o.view() =~= ObjV { bytes: bytes@, ..empty_obj(JsClass::Bytes) });
    }
    o
}

/// Writes `Have`s as an array of objects `{ lastSync, bloom }`.
pub fn haves_to_js(h: &[Have]) -> (r: JsObject)
    ensures
        haves_js_spec(r.view(), haves_view(h@)),
{
    let ghost hs = haves_view(h@);
    let mut a = JsObject::new(JsClass::Array);
    let mut i: usize = 0;
    while i < h.len()
        invariant
            i <= h.len(),
            hs == haves_view(h@),
            a.view() == (ObjV { elements: a.view().elements, ..empty_obj(JsClass::Array) }),
            a.view().elements.len() == i,
            forall|k: int| 0 <= k < i ==> have_js_spec(#[trigger] a.view().elements[k], hs[k]),
        decreases h.len() - i,
    {
        let last_sync = change_hash_array(h[i].last_sync.as_slice());
        let bloom = bytes_object(h[i].bloom.clone());
        let mut obj = JsObject::new(JsClass::Plain);
        proof {
            obj.lemma_view_parts();
            assert(entries_view(obj.props@).len() == 0);
            assert(obj.props@.len() == 0);
        }
        let k1 = "lastSync".to_owned();
        let k2 = "bloom".to_owned();
        let ghost v1 = JsVal::Object(last_sync).view();
        let ghost v2 = JsVal::Object(bloom).view();
        let e1 = (k1, JsVal::Object(last_sync));
        let e2 = (k2, JsVal::Object(bloom));
        let ghost p0 = obj.props@;
        obj.props.push(e1);
        assert(obj.props@ == p0.push(e1));
        obj.props.push(e2);
        assert(obj.props@ == p0.push(e1).push(e2));
        proof {
            obj.lemma_view_parts();
            assert(obj.props@[0] == e1);
            assert(obj.props@[1] == e2);
            assert(obj.view().props[0] == (k1@, v1));
            assert(obj.view().props[1] == (k2@, v2));
            assert(h@[i as int].last_sync@ == h[i as int].last_sync@);
            assert(Seq::new(h@[i as int].last_sync@.len(), |k: int| h@[i as int].last_sync@[k].view()) =~= hs[i as int].0);
            assert(h@[i as int].bloom@ == hs[i as int].1);
            assert(obj.view().hidden =~= Seq::<(crate::js::HiddenKey, JsV)>::empty());
            assert(obj.view().elements =~= Seq::<JsV>::empty());
            assert(have_js_spec(JsVal::Object(obj).view(), hs[i as int]));
        }
        let ghost before = a.view();
        proof { a.lemma_view_parts(); }
        let ghost ev = a.elements@;
        a.elements.push(JsVal::Object(obj));
        proof {
            a.lemma_view_parts();
            lemma_vals_view_push(ev, JsVal::Object(obj));
            assert(a.view().hidden =~= before.hidden);
            assert(a.view().elements =~= before.elements.push(JsVal::Object(obj).view()));
            assert forall|k: int| 0 <= k < i + 1 implies have_js_spec(#[trigger] a.view().elements[k], hs[k]) by {
                if k < i {
                    assert(a.view().elements[k] == before.elements[k]);
                }
            }
        }
        i = i + 1;
    }
    a
}

/// Writes changes as an array of `Uint8Array`s of their stored bytes.
pub fn changes_to_js(c: &[Vec<u8>]) -> (r: JsObject)
    ensures
        r.view() == changes_array_spec(changes_view(c@)),
{
    let ghost cs = changes_view(c@);
    let mut a = JsObject::new(JsClass::Array);
    let mut i: usize = 0;
    while i < c.len()
        invariant
            i <= c.len(),
            cs == changes_view(c@),
            a.view() == (ObjV { elements: a.view().elements, ..empty_obj(JsClass::Array) }),
            a.view().elements.len() == i,
            forall|k: int| 0 <= k < i ==> #[trigger] a.view().elements[k] == JsV::Object(bytes_obj_spec(cs[k])),
        decreases c.len() - i,
    {
        let b = bytes_object(c[i].clone());
        let ghost before = a.view();
        proof { a.lemma_view_parts(); }
        let ghost ev = a.elements@;
        a.elements.push(JsVal::Object(b));
        proof {
            a.lemma_view_parts();
            lemma_vals_view_push(ev, JsVal::Object(b));
            assert(a.view().hidden =~= before.hidden);
            assert(a.view().elements =~= before.elements.push(JsVal::Object(b).view()));
            assert(c@[i as int]@ == cs[i as int]);
            assert forall|k: int| 0 <= k < i + 1 implies #[trigger] a.view().elements[k] == JsV::Object(bytes_obj_spec(cs[k])) by {
                if k < i {
                    assert(a.view().elements[k] == before.elements[k]);
                }
            }
        }
        i = i + 1;
    }
    proof {
        assert(a.view().elements =~= changes_array_spec(cs).elements);
    }
    a
}

/// Whether `v` is the JavaScript form of the sync state `s`: an object with the
/// properties `sharedHeads`, `lastSentHeads`, `theirHeads`, `theirNeed`, `theirHave`,
/// `sentHashes` and `inFlight`, in that order.
pub open spec fn sync_state_js_spec(s: SyncState, v: JsV) -> bool {
    &&& v matches JsV::Object(o)
    &&& o == (ObjV { props: o.props, ..empty_obj(JsClass::Plain) })
    &&& o.props.len() == 7
    &&& o.props[0] == ("sharedHeads"@, JsV::Object(hash_array_spec(hashes_view(s.shared_heads@))))
    &&& o.props[1] == ("lastSentHeads"@, JsV::Object(hash_array_spec(hashes_view(s.last_sent_heads@))))
    &&& o.props[2] == ("theirHeads"@, opt_hash_array_spec(opt_hashes_view(s.their_heads)))
    &&& o.props[3] == ("theirNeed"@, opt_hash_array_spec(opt_hashes_view(s.their_need)))
    &&& o.props[4].0 == "theirHave"@
    &&& match s.their_have {
        None => o.props[4].1 == JsV::Null,
        Some(h) => o.props[4].1 matches JsV::Object(a) && haves_js_spec(a, haves_view(h@)),
    }
    &&& o.props[5] == ("sentHashes"@, JsV::Object(hash_set_obj_spec(s.sent_hashes.view())))
    &&& o.props[6] == ("inFlight"@, JsV::Bool(s.in_flight))
}

/// Writes a sync state as a JavaScript object.
pub fn sync_state_to_js(s: &SyncState) -> (r: JsVal)
    ensures
        sync_state_js_spec(*s, r.view()),
{
    let shared_heads = change_hashes_to_js(&s.shared_heads);
    let last_sent_heads = change_hashes_to_js(&s.last_sent_heads);
    let their_heads = opt_change_hashes_to_js(&s.their_heads);
    let their_need = opt_change_hashes_to_js(&s.their_need);
    let sent_hashes = change_hash_set_to_js(&s.sent_hashes);
    let their_have = match &s.their_have {
        Some(h) => {
            let hs = h.as_slice();
            let a = haves_to_js(hs);
            proof {
                assert(hs@ == h@);
            }
            JsVal::Object(a)
        },
        None => JsVal::Null,
    };
    let mut o = JsObject::new(JsClass::Plain);
    let ghost o0 = o.view();
    let ghost v0 = shared_heads.view();
    let ghost v1 = last_sent_heads.view();
    let ghost v2 = their_heads.view();
    let ghost v3 = their_need.view();
    let ghost v4 = their_have.view();
    let ghost v5 = sent_hashes.view();
    o.push_prop("sharedHeads".to_owned(), shared_heads);
    o.push_prop("lastSentHeads".to_owned(), last_sent_heads);
    o.push_prop("theirHeads".to_owned(), their_heads);
    o.push_prop("theirNeed".to_owned(), their_need);
    o.push_prop("theirHave".to_owned(), their_have);
    o.push_prop("sentHashes".to_owned(), sent_hashes);
    o.push_prop("inFlight".to_owned(), JsVal::Bool(s.in_flight));
    proof {
        let ps = o.view().props;
        assert(ps =~= seq![
            ("sharedHeads"@, v0),
            ("lastSentHeads"@, v1),
            ("theirHeads"@, v2),
            ("theirNeed"@, v3),
            ("theirHave"@, v4),
            ("sentHashes"@, v5),
            ("inFlight"@, JsV::Bool(s.in_flight)),
        ]);
        assert(o.view() =~= ObjV { props: ps, ..empty_obj(JsClass::Plain) });
    }
    JsVal::Object(o)
}


// ---------------------------------------------------------------------------------
// Laws
// ---------------------------------------------------------------------------------

/// Whether every hash in `hs` has 32 bytes.
pub open spec fn all_hashes(hs: Seq<Seq<u8>>) -> bool {
    forall|i: int| 0 <= i < hs.len() ==> (#[trigger] hs[i]).len() == 32
}

/// The views of hashes are hashes.
pub proof fn lemma_hashes_view_len(h: Seq<ChangeHash>)
    ensures
        all_hashes(hashes_view(h)),
{
    assert forall|i: int| 0 <= i < hashes_view(h).len() implies (#[trigger] hashes_view(h)[i]).len() == 32 by {
        assert(hashes_view(h)[i] == h[i].bytes@);
    }
}

/// Reading back an array of hash texts that was written from hashes gives the same
/// hashes.
pub proof fn law_hash_array_round_trip(hs: Seq<Seq<u8>>)
    requires
        all_hashes(hs),
    ensures
        hashes_fault(JsV::Object(hash_array_spec(hs))) is None,
        hashes_value(JsV::Object(hash_array_spec(hs))) == hs,
{
    let v = JsV::Object(hash_array_spec(hs));
    let s = elems(v);
    assert forall|j: int| 0 <= j < bad_hashes(s).len() implies !bad_hashes(s)[j] by {
        lemma_hex_encode_hash_text(hs[j]);
    }
    lemma_none_true(bad_hashes(s));
    assert forall|j: int| 0 <= j < hs.len() implies #[trigger] hashes_value(v)[j] == hs[j] by {
        lemma_hex_encode_hash_text(hs[j]);
    }
    assert(hashes_value(v) =~= hs);
}

/// Reading back optional hashes that were written (an array, or null) gives the
/// same optional hashes.
pub proof fn law_opt_hash_array_round_trip(h: Option<Seq<Seq<u8>>>)
    requires
        h matches Some(hs) ==> all_hashes(hs),
    ensures
        opt_hashes_fault(opt_hash_array_spec(h)) is None,
        opt_hashes_value(opt_hash_array_spec(h)) == h,
{
    if let Some(hs) = h {
        law_hash_array_round_trip(hs);
    }
}

/// Reading back a set of hashes that was written gives the same set.
pub proof fn law_hash_set_round_trip(hs: Seq<Seq<u8>>)
    requires
        ascending(hs),
    ensures
        hash_set_fault(JsV::Object(hash_set_obj_spec(hs))) is None,
        hash_set_value(JsV::Object(hash_set_obj_spec(hs))) == hs.to_set(),
{
    let o = hash_set_obj_spec(hs);
    let p = own_pairs(o);
    assert(entries_spec(o) == o.props);
    assert(p =~= Seq::new(hs.len(), |i: int| (JsV::Str(hex_encode(hs[i])), JsV::Bool(true))));
    assert forall|j: int| 0 <= j < bad_set_keys(p).len() implies !bad_set_keys(p)[j] by {
        lemma_hex_encode_hash_text(hs[j]);
    }
    lemma_none_true(bad_set_keys(p));
    assert forall|b: Seq<u8>| #[trigger] pairs_set_value(p).contains(b) <==> hs.to_set().contains(b) by {
        if pairs_set_value(p).contains(b) {
            let i = choose|i: int| 0 <= i < p.len() && p[i].1 == JsV::Bool(true) && b == hash_value(p[i].0);
            lemma_hex_encode_hash_text(hs[i]);
            assert(hs[i] == b);
        }
        if hs.to_set().contains(b) {
            let i = choose|i: int| 0 <= i < hs.len() && hs[i] == b;
            lemma_hex_encode_hash_text(hs[i]);
            assert(p[i].1 == JsV::Bool(true) && b == hash_value(p[i].0));
        }
    }
    assert(pairs_set_value(p) =~= hs.to_set());
}

/// The names of a sync state's properties are distinct.
proof fn lemma_state_keys_distinct()
    ensures
        "sharedHeads"@ != "lastSentHeads"@,
        "sharedHeads"@ != "theirHeads"@,
        "sharedHeads"@ != "theirNeed"@,
        "sharedHeads"@ != "theirHave"@,
        "sharedHeads"@ != "sentHashes"@,
        "sharedHeads"@ != "inFlight"@,
        "lastSentHeads"@ != "theirHeads"@,
        "lastSentHeads"@ != "theirNeed"@,
        "lastSentHeads"@ != "theirHave"@,
        "lastSentHeads"@ != "sentHashes"@,
        "lastSentHeads"@ != "inFlight"@,
        "theirHeads"@ != "theirNeed"@,
        "theirHeads"@ != "theirHave"@,
        "theirHeads"@ != "sentHashes"@,
        "theirHeads"@ != "inFlight"@,
        "theirNeed"@ != "theirHave"@,
        "theirNeed"@ != "sentHashes"@,
        "theirNeed"@ != "inFlight"@,
        "theirHave"@ != "sentHashes"@,
        "theirHave"@ != "inFlight"@,
        "sentHashes"@ != "inFlight"@,
        "lastSync"@ != "bloom"@,
{
    reveal_strlit("sharedHeads");
    reveal_strlit("lastSentHeads");
    reveal_strlit("theirHeads");
    reveal_strlit("theirNeed");
    reveal_strlit("theirHave");
    reveal_strlit("sentHashes");
    reveal_strlit("inFlight");
    reveal_strlit("lastSync");
    reveal_strlit("bloom");
    assert("sharedHeads"@[0] != "lastSentHeads"@[0]);
    assert("sharedHeads"@[0] != "theirHeads"@[0]);
    assert("sharedHeads"@[0] != "theirNeed"@[0]);
    assert("sharedHeads"@[0] != "theirHave"@[0]);
    assert("sharedHeads"@[1] != "sentHashes"@[1]);
    assert("sharedHeads"@[0] != "inFlight"@[0]);
    assert("lastSentHeads"@[0] != "theirHeads"@[0]);
    assert("lastSentHeads"@[0] != "theirNeed"@[0]);
    assert("lastSentHeads"@[0] != "theirHave"@[0]);
    assert("lastSentHeads"@[0] != "sentHashes"@[0]);
    assert("lastSentHeads"@[0] != "inFlight"@[0]);
    assert("theirHeads"@[5] != "theirNeed"@[5]);
    assert("theirHeads"@[7] != "theirHave"@[7]);
    assert("theirHeads"@[0] != "sentHashes"@[0]);
    assert("theirHeads"@[0] != "inFlight"@[0]);
    assert("theirNeed"@[5] != "theirHave"@[5]);
    assert("theirNeed"@[0] != "sentHashes"@[0]);
    assert("theirNeed"@[0] != "inFlight"@[0]);
    assert("theirHave"@[0] != "sentHashes"@[0]);
    assert("theirHave"@[0] != "inFlight"@[0]);
    assert("sentHashes"@[0] != "inFlight"@[0]);
    assert("lastSync"@[0] != "bloom"@[0]);
}

/// Reading back the `Have`s that were written succeeds and gives the same heads and
/// the same bloom filters.
pub proof fn law_haves_round_trip(a: ObjV, hs: Seq<(Seq<Seq<u8>>, Seq<u8>)>)
    requires
        haves_js_spec(a, hs),
        forall|i: int| 0 <= i < hs.len() ==> all_hashes(#[trigger] hs[i].0) && bloom_stored(hs[i].1),
    ensures
        haves_fault(JsV::Object(a)) is None,
        haves_value(JsV::Object(a)) == hs,
{
    lemma_state_keys_distinct();
    let v = JsV::Object(a);
    let s = elems(v);
    assert forall|j: int| 0 <= j < s.len() implies have_fault(#[trigger] s[j]) is None && have_value(s[j]) == hs[j] by {
        assert(have_js_spec(a.elements[j], hs[j]));
        let x = s[j];
        let o = x->Object_0;
        lemma_lookup_first(o.props, "lastSync"@, 0);
        lemma_lookup_first(o.props, "bloom"@, 1);
        assert(field(x, "lastSync"@) == JsV::Object(hash_array_spec(hs[j].0)));
        assert(field(x, "bloom"@) == JsV::Object(bytes_obj_spec(hs[j].1)));
        assert(all_hashes(hs[j].0) && bloom_stored(hs[j].1));
        law_hash_array_round_trip(hs[j].0);
        assert(bytes_of(field(x, "bloom"@)) == hs[j].1);
    }
    assert forall|j: int| 0 <= j < bad_haves(s).len() implies !bad_haves(s)[j] by {
        assert(have_fault(s[j]) is None);
    }
    lemma_none_true(bad_haves(s));
    assert(haves_value(v) =~= hs);
}

/// Reading back changes that were written succeeds and gives the same stored bytes.
pub proof fn law_changes_round_trip(cs: Seq<Seq<u8>>)
    requires
        forall|i: int| 0 <= i < cs.len() ==> change_stored(#[trigger] cs[i]),
    ensures
        changes_fault(JsV::Object(changes_array_spec(cs))) is None,
        changes_value(JsV::Object(changes_array_spec(cs))) == cs,
{
    let v = JsV::Object(changes_array_spec(cs));
    let s = elems(v);
    assert forall|j: int| 0 <= j < s.len() implies is_bytes(#[trigger] s[j]) && bytes_of(s[j]) == cs[j] by {
        assert(s[j] == JsV::Object(bytes_obj_spec(cs[j])));
    }
    assert forall|j: int| 0 <= j < not_bytes(s).len() implies !not_bytes(s)[j] by {
        assert(is_bytes(s[j]));
    }
    lemma_none_true(not_bytes(s));
    assert forall|j: int| 0 <= j < bad_changes(s).len() implies !bad_changes(s)[j] by {
        assert(bytes_of(s[j]) == cs[j]);
        assert(change_stored(cs[j]));
    }
    lemma_none_true(bad_changes(s));
    assert forall|j: int| 0 <= j < cs.len() implies #[trigger] changes_value(v)[j] == cs[j] by {
        assert(bytes_of(s[j]) == cs[j]);
        assert(change_stored(cs[j]));
    }
    assert(changes_value(v) =~= cs);
}

/// A key found at position `i`, with no earlier occurrence, is what lookup finds.
pub proof fn lemma_lookup_first(p: Seq<(Seq<char>, JsV)>, k: Seq<char>, i: int)
    requires
        0 <= i < p.len(),
        p[i].0 == k,
        forall|j: int| 0 <= j < i ==> p[j].0 != k,
    ensures
        crate::js::lookup(p, k) == Some(p[i].1),
{
    crate::js::lemma_lookup_at(p, k, i);
}

/// Reading back a sync state that was written succeeds and gives the same state: the
/// same heads, needs, `Have`s (heads and bloom filters), sent hashes and in-flight flag.
pub proof fn law_sync_state_round_trip(s: SyncState, v: JsV)
    requires
        s.sent_hashes.wf(),
        s.their_have matches Some(h) ==> haves_stored(h@),
        sync_state_js_spec(s, v),
    ensures
        sync_state_fault(v) is None,
        sync_state_matches(s, v),
{
    lemma_state_keys_distinct();
    let o = v->Object_0;
    let p = o.props;
    lemma_lookup_first(p, "sharedHeads"@, 0);
    lemma_lookup_first(p, "lastSentHeads"@, 1);
    lemma_lookup_first(p, "theirHeads"@, 2);
    lemma_lookup_first(p, "theirNeed"@, 3);
    lemma_lookup_first(p, "theirHave"@, 4);
    lemma_lookup_first(p, "sentHashes"@, 5);
    lemma_lookup_first(p, "inFlight"@, 6);
    lemma_hashes_view_len(s.shared_heads@);
    lemma_hashes_view_len(s.last_sent_heads@);
    law_hash_array_round_trip(hashes_view(s.shared_heads@));
    law_hash_array_round_trip(hashes_view(s.last_sent_heads@));
    if let Some(h) = s.their_heads {
        lemma_hashes_view_len(h@);
    }
    law_opt_hash_array_round_trip(opt_hashes_view(s.their_heads));
    if let Some(h) = s.their_need {
        lemma_hashes_view_len(h@);
    }
    law_opt_hash_array_round_trip(opt_hashes_view(s.their_need));
    if let Some(h) = s.their_have {
        let a = p[4].1->Object_0;
        assert forall|i: int| 0 <= i < haves_view(h@).len() implies all_hashes(#[trigger] haves_view(h@)[i].0) && bloom_stored(haves_view(h@)[i].1) by {
            lemma_hashes_view_len(h@[i].last_sync@);
            assert(bloom_stored(h@[i].bloom@));
        }
        law_haves_round_trip(a, haves_view(h@));
    }
    law_hash_set_round_trip(s.sent_hashes.view());
}

} // verus!
