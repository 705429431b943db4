use am_interop::error::{
    BadBloom, BadChangeHash, BadChangeHashSet, BadChangeHashes, BadHave, BadHaves, BadJSChanges,
    BadSyncMessage, BadSyncState,
};
use am_interop::hash::{compare_hashes, ChangeHash, ChangeHashSet};
use am_interop::js::{JsClass, JsNumber, JsObject, JsVal, PropKey};
use am_interop::sync::{
    bloom_from_js, change_hash_from_js, change_hash_set_from_js, change_hash_set_to_js,
    change_hashes_from_js, change_hashes_to_js, changes_from_js, changes_to_js, get_heads,
    have_from_js, haves_from_js, haves_to_js, js_get, js_set, opt_change_hashes_from_js,
    opt_change_hashes_to_js, opt_haves_from_js, sync_message_from_js, sync_state_from_js,
    sync_state_to_js, Have, SyncState,
};
use automerge::transaction::Transactable;

fn s(t: &str) -> JsVal {
    JsVal::Str(t.to_string())
}

fn hash_text(b: u8) -> String {
    format!("{:02x}", b).repeat(32)
}

fn hash(b: u8) -> ChangeHash {
    ChangeHash { bytes: [b; 32] }
}

fn array(elements: Vec<JsVal>) -> JsVal {
    let mut a = JsObject::new(JsClass::Array);
    a.elements = elements;
    JsVal::Object(a)
}

fn object(props: Vec<(&str, JsVal)>) -> JsVal {
    let mut o = JsObject::new(JsClass::Plain);
    o.props = props.into_iter().map(|(k, v)| (k.to_string(), v)).collect();
    JsVal::Object(o)
}

fn bytes(b: Vec<u8>) -> JsVal {
    let mut o = JsObject::new(JsClass::Bytes);
    o.bytes = b;
    JsVal::Object(o)
}

fn bloom_bytes() -> Vec<u8> {
    let hashes = vec![automerge::ChangeHash([1; 32]), automerge::ChangeHash([2; 32])];
    automerge::sync::BloomFilter::from_hashes(hashes.into_iter()).to_bytes()
}

fn change_bytes() -> Vec<u8> {
    let mut doc = automerge::AutoCommit::new();
    doc.put(automerge::ROOT, "a", 1).unwrap();
    doc.commit();
    doc.get_last_local_change().unwrap().raw_bytes().to_vec()
}

#[test]
fn hash_text_parses_to_bytes() {
    let h = ChangeHash::parse(&hash_text(0xab)).unwrap();
    assert_eq!(h, hash(0xab));
    let upper = hash_text(0xab).to_uppercase();
    assert_eq!(ChangeHash::parse(&upper).unwrap(), hash(0xab));
    assert!(ChangeHash::parse(&"abc".to_string()).is_err());
    assert!(ChangeHash::parse(&"zz".repeat(32)).is_err());
    assert!(ChangeHash::parse(&"00".repeat(33)).is_err());
}

#[test]
fn hash_renders_as_lowercase_hex() {
    let mut bytes = [0u8; 32];
    bytes[0] = 0x0f;
    bytes[31] = 0xa0;
    let h = ChangeHash { bytes };
    let expected = format!("0f{}a0", "00".repeat(30));
    assert_eq!(h.to_text(), expected);
    assert_eq!(h.to_hex(), expected);
}

#[test]
fn hashes_compare_by_bytes() {
    assert_eq!(compare_hashes(&hash(1), &hash(2)), -1);
    assert_eq!(compare_hashes(&hash(2), &hash(2)), 0);
    assert_eq!(compare_hashes(&hash(3), &hash(2)), 1);
}

#[test]
fn hash_set_keeps_each_hash_once_in_order() {
    let mut set = ChangeHashSet::new();
    set.insert(hash(3));
    set.insert(hash(1));
    set.insert(hash(3));
    set.insert(hash(2));
    assert_eq!(set.len(), 3);
    assert_eq!(set.get(0), hash(1));
    assert_eq!(set.get(1), hash(2));
    assert_eq!(set.get(2), hash(3));
}

#[test]
fn change_hash_errors() {
    assert!(matches!(change_hash_from_js(&JsVal::Null), Err(BadChangeHash::NotString)));
    assert!(matches!(change_hash_from_js(&s("nothex")), Err(BadChangeHash::Parse(_))));
    assert_eq!(change_hash_from_js(&s(&hash_text(7))).unwrap(), hash(7));
}

#[test]
fn change_hashes_errors() {
    assert!(matches!(change_hashes_from_js(&s("x")), Err(BadChangeHashes::NotArray)));
    let v = array(vec![s(&hash_text(1)), JsVal::Bool(true)]);
    assert!(matches!(
        change_hashes_from_js(&v),
        Err(BadChangeHashes::BadElem(1, BadChangeHash::NotString))
    ));
    let v = array(vec![s(&hash_text(1)), s(&hash_text(2))]);
    assert_eq!(change_hashes_from_js(&v).unwrap(), vec![hash(1), hash(2)]);
}

#[test]
fn optional_hashes() {
    assert_eq!(opt_change_hashes_from_js(&JsVal::Null).unwrap(), None);
    let v = array(vec![s(&hash_text(4))]);
    assert_eq!(opt_change_hashes_from_js(&v).unwrap(), Some(vec![hash(4)]));
    assert!(matches!(opt_change_hashes_from_js(&JsVal::Undefined), Err(BadChangeHashes::NotArray)));
    assert_eq!(opt_change_hashes_to_js(&None), JsVal::Null);
}

#[test]
fn heads_from_elements() {
    assert_eq!(get_heads(None).unwrap(), None);
    assert_eq!(get_heads(Some(vec![s(&hash_text(5))])).unwrap(), Some(vec![hash(5)]));
    assert!(matches!(
        get_heads(Some(vec![s(&hash_text(5)), s("bad")])),
        Err(BadChangeHashes::BadElem(1, BadChangeHash::Parse(_)))
    ));
}

#[test]
fn hash_array_round_trip() {
    let hs = vec![hash(9), hash(1), hash(9)];
    let js = change_hashes_to_js(&hs);
    assert_eq!(js, array(vec![s(&hash_text(9)), s(&hash_text(1)), s(&hash_text(9))]));
    assert_eq!(change_hashes_from_js(&js).unwrap(), hs);
    let js = opt_change_hashes_to_js(&Some(hs.clone()));
    assert_eq!(opt_change_hashes_from_js(&js).unwrap(), Some(hs));
}

#[test]
fn hash_set_from_object() {
    let v = object(vec![
        (&hash_text(2), JsVal::Bool(true)),
        (&hash_text(1), JsVal::Bool(true)),
        ("ignored", JsVal::Bool(false)),
        ("alsoignored", JsVal::Number(JsNumber::Int(1))),
    ]);
    let set = change_hash_set_from_js(&v).unwrap();
    assert_eq!(set.len(), 2);
    assert_eq!(set.get(0), hash(1));
    assert_eq!(set.get(1), hash(2));
}

#[test]
fn hash_set_errors() {
    assert!(matches!(change_hash_set_from_js(&JsVal::Null), Err(BadChangeHashSet::ListProp)));
    let v = object(vec![("nope", JsVal::Bool(true))]);
    match change_hash_set_from_js(&v) {
        Err(BadChangeHashSet::BadHash(k, BadChangeHash::Parse(_))) => assert_eq!(k, s("nope")),
        other => panic!("unexpected {:?}", other),
    }
}

#[test]
fn hash_set_round_trip() {
    let mut set = ChangeHashSet::new();
    set.insert(hash(5));
    set.insert(hash(3));
    let js = change_hash_set_to_js(&set);
    assert_eq!(js, object(vec![(&hash_text(3), JsVal::Bool(true)), (&hash_text(5), JsVal::Bool(true))]));
    let back = change_hash_set_from_js(&js).unwrap();
    assert_eq!(back.len(), 2);
    assert_eq!(back.get(0), hash(3));
    assert_eq!(back.get(1), hash(5));
}

#[test]
fn bloom_reading() {
    assert!(matches!(bloom_from_js(&s("x")), Err(BadBloom::NotU8Array)));
    assert!(matches!(bloom_from_js(&bytes(vec![0xff])), Err(BadBloom::Decode(_))));
    let b = bloom_bytes();
    let bloom = bloom_from_js(&bytes(b.clone())).unwrap();
    assert_eq!(bloom, b);
    assert_eq!(bloom_from_js(&bytes(vec![])).unwrap(), Vec::<u8>::new());
}

#[test]
fn bloom_reading_keeps_the_written_form() {
    // A filter with no entries writes nothing, and bytes after the bits are not read.
    assert_eq!(bloom_from_js(&bytes(vec![0, 10, 7])).unwrap(), Vec::<u8>::new());
    let mut longer = bloom_bytes();
    longer.push(0xaa);
    assert_eq!(bloom_from_js(&bytes(longer)).unwrap(), bloom_bytes());
}

#[test]
fn have_reading() {
    let v = object(vec![("lastSync", array(vec![s(&hash_text(1))])), ("bloom", bytes(bloom_bytes()))]);
    let have = have_from_js(&v).unwrap();
    assert_eq!(have.last_sync, vec![hash(1)]);
    assert_eq!(have.bloom, bloom_bytes());
    assert!(matches!(have_from_js(&JsVal::Null), Err(BadHave::GetHaveProp(_))));
    let v = object(vec![("lastSync", JsVal::Null), ("bloom", bytes(vec![]))]);
    assert!(matches!(have_from_js(&v), Err(BadHave::BadLastSync(BadChangeHashes::NotArray))));
    let v = object(vec![("lastSync", array(vec![])), ("bloom", JsVal::Null)]);
    assert!(matches!(have_from_js(&v), Err(BadHave::BadBloom(BadBloom::NotU8Array))));
}

#[test]
fn haves_reading() {
    assert!(matches!(haves_from_js(&JsVal::Null), Err(BadHaves::NotArray)));
    assert!(opt_haves_from_js(&JsVal::Null).unwrap().is_none());
    let v = array(vec![JsVal::Bool(true)]);
    assert!(matches!(haves_from_js(&v), Err(BadHaves::BadElem(0, BadHave::GetHaveProp(_)))));
}

#[test]
fn haves_round_trip() {
    let haves = vec![Have { last_sync: vec![hash(1), hash(2)], bloom: bloom_bytes() }];
    let js = JsVal::Object(haves_to_js(&haves));
    let back = haves_from_js(&js).unwrap();
    assert_eq!(back.len(), 1);
    assert_eq!(back[0].last_sync, vec![hash(1), hash(2)]);
    assert_eq!(back[0].bloom, bloom_bytes());
}

#[test]
fn changes_reading() {
    assert!(matches!(changes_from_js(&JsVal::Null), Err(BadJSChanges::ChangesNotArray)));
    let good = change_bytes();
    let v = array(vec![bytes(good.clone()), s("x")]);
    assert!(matches!(changes_from_js(&v), Err(BadJSChanges::ElemNotUint8Array(1))));
    let v = array(vec![bytes(good.clone()), bytes(vec![1, 2, 3])]);
    assert!(matches!(changes_from_js(&v), Err(BadJSChanges::BadChange(1, _))));
    let v = array(vec![bytes(good.clone())]);
    let changes = changes_from_js(&v).unwrap();
    assert_eq!(changes.len(), 1);
    assert_eq!(changes[0], good);
    let js = changes_to_js(&changes);
    assert_eq!(JsVal::Object(js), array(vec![bytes(good)]));
}

#[test]
fn compressed_change_reads_as_its_stored_bytes() {
    let mut doc = automerge::AutoCommit::new();
    doc.put(automerge::ROOT, "text", "a".repeat(2000)).unwrap();
    doc.commit();
    let mut change = doc.get_last_local_change().unwrap().clone();
    let stored = change.raw_bytes().to_vec();
    let compressed = change.bytes().to_vec();
    assert_ne!(compressed, stored);
    let changes = changes_from_js(&array(vec![bytes(compressed)])).unwrap();
    assert_eq!(changes, vec![stored.clone()]);
    let again = changes_from_js(&JsVal::Object(changes_to_js(&changes))).unwrap();
    assert_eq!(again, vec![stored]);
}

#[test]
fn changes_round_trip_in_order() {
    let first = change_bytes();
    let mut doc = automerge::AutoCommit::new();
    doc.put(automerge::ROOT, "b", 2).unwrap();
    doc.commit();
    let second = doc.get_last_local_change().unwrap().raw_bytes().to_vec();
    let changes = vec![first.clone(), second.clone()];
    let back = changes_from_js(&JsVal::Object(changes_to_js(&changes))).unwrap();
    assert_eq!(back, vec![first, second]);
}

fn state_js(in_flight: JsVal) -> JsVal {
    object(vec![
        ("sharedHeads", array(vec![s(&hash_text(1))])),
        ("lastSentHeads", array(vec![])),
        ("theirHeads", JsVal::Null),
        ("theirNeed", array(vec![s(&hash_text(2))])),
        ("theirHave", JsVal::Null),
        ("sentHashes", object(vec![(&hash_text(3), JsVal::Bool(true))])),
        ("inFlight", in_flight),
    ])
}

#[test]
fn sync_state_reading() {
    let st = sync_state_from_js(&state_js(JsVal::Bool(true))).unwrap();
    assert_eq!(st.shared_heads, vec![hash(1)]);
    assert!(st.last_sent_heads.is_empty());
    assert_eq!(st.their_heads, None);
    assert_eq!(st.their_need, Some(vec![hash(2)]));
    assert!(st.their_have.is_none());
    assert_eq!(st.sent_hashes.len(), 1);
    assert!(st.in_flight);
    assert!(matches!(
        sync_state_from_js(&state_js(JsVal::Null)),
        Err(BadSyncState::InFlightNotBoolean)
    ));
    assert!(matches!(sync_state_from_js(&JsVal::Undefined), Err(BadSyncState::GetProp(_))));
    let bad = object(vec![("sharedHeads", JsVal::Null)]);
    assert!(matches!(sync_state_from_js(&bad), Err(BadSyncState::BadSharedHeads(_))));
}

#[test]
fn sync_state_round_trip() {
    let mut sent = ChangeHashSet::new();
    sent.insert(hash(8));
    let st = SyncState {
        shared_heads: vec![hash(1)],
        last_sent_heads: vec![hash(2), hash(3)],
        their_heads: Some(vec![hash(4)]),
        their_need: None,
        their_have: Some(vec![]),
        sent_hashes: sent,
        in_flight: false,
    };
    let js = sync_state_to_js(&st);
    let back = sync_state_from_js(&js).unwrap();
    assert_eq!(back.shared_heads, st.shared_heads);
    assert_eq!(back.last_sent_heads, st.last_sent_heads);
    assert_eq!(back.their_heads, st.their_heads);
    assert_eq!(back.their_need, st.their_need);
    assert_eq!(back.their_have.map(|h| h.len()), Some(0));
    assert_eq!(back.sent_hashes.len(), 1);
    assert_eq!(back.sent_hashes.get(0), hash(8));
    assert!(!back.in_flight);
}

#[test]
fn sync_message_reading() {
    let good = change_bytes();
    let msg = object(vec![
        ("heads", array(vec![s(&hash_text(1))])),
        ("need", array(vec![])),
        ("changes", array(vec![bytes(good.clone())])),
        ("have", array(vec![])),
    ]);
    let m = sync_message_from_js(&msg).unwrap();
    assert_eq!(m.heads, vec![hash(1)]);
    assert!(m.need.is_empty());
    assert_eq!(m.changes, vec![good]);
    assert!(m.have.is_empty());
    assert!(matches!(sync_message_from_js(&JsVal::Null), Err(BadSyncMessage::GetProp(_))));
    let bad = object(vec![("heads", s("x"))]);
    assert!(matches!(sync_message_from_js(&bad), Err(BadSyncMessage::BadHeads(BadChangeHashes::NotArray))));
    let bad = object(vec![("heads", array(vec![])), ("need", JsVal::Null)]);
    assert!(matches!(sync_message_from_js(&bad), Err(BadSyncMessage::BadNeed(_))));
    let bad = object(vec![("heads", array(vec![])), ("need", array(vec![])), ("changes", JsVal::Null)]);
    assert!(matches!(sync_message_from_js(&bad), Err(BadSyncMessage::BadJSChanges(_))));
    let bad = object(vec![
        ("heads", array(vec![])),
        ("need", array(vec![])),
        ("changes", array(vec![])),
        ("have", JsVal::Null),
    ]);
    assert!(matches!(sync_message_from_js(&bad), Err(BadSyncMessage::BadHaves(BadHaves::NotArray))));
}

#[test]
fn property_access() {
    let v = object(vec![("a", JsVal::Bool(true))]);
    assert_eq!(js_get(&v, PropKey::Name("a".to_string())).unwrap(), JsVal::Bool(true));
    assert_eq!(js_get(&v, PropKey::Name("b".to_string())).unwrap(), JsVal::Undefined);
    assert!(js_get(&JsVal::Null, PropKey::Name("a".to_string())).is_err());
    let mut v = v;
    assert!(js_set(&mut v, PropKey::Name("b".to_string()), JsVal::Null).unwrap());
    assert_eq!(js_get(&v, PropKey::Name("b".to_string())).unwrap(), JsVal::Null);
    let mut n = JsVal::Null;
    assert!(js_set(&mut n, PropKey::Index(0), JsVal::Null).is_err());
}

#[test]
fn sync_state_round_trip_keeps_blooms() {
    let st = SyncState {
        shared_heads: vec![],
        last_sent_heads: vec![],
        their_heads: None,
        their_need: None,
        their_have: Some(vec![
            Have { last_sync: vec![hash(5)], bloom: bloom_bytes() },
            Have { last_sync: vec![], bloom: vec![] },
        ]),
        sent_hashes: ChangeHashSet::new(),
        in_flight: true,
    };
    let back = sync_state_from_js(&sync_state_to_js(&st)).unwrap();
    let have = back.their_have.unwrap();
    assert_eq!(have.len(), 2);
    assert_eq!(have[0].last_sync, vec![hash(5)]);
    assert_eq!(have[0].bloom, bloom_bytes());
    assert!(have[1].last_sync.is_empty());
    assert!(have[1].bloom.is_empty());
}

#[test]
fn setting_a_byte_index_stores_the_converted_byte() {
    let mut v = bytes(vec![1, 2, 3]);
    assert!(js_set(&mut v, PropKey::Index(0), JsVal::Number(JsNumber::Int(300))).unwrap());
    assert!(js_set(&mut v, PropKey::Index(1), JsVal::Number(JsNumber::Float((-1.5f64).to_bits()))).unwrap());
    assert!(js_set(&mut v, PropKey::Index(2), JsVal::Bool(true)).unwrap());
    assert_eq!(v, bytes(vec![44, 255, 1]));
    assert!(js_set(&mut v, PropKey::Index(0), JsVal::Undefined).unwrap());
    assert!(js_set(&mut v, PropKey::Index(1), JsVal::Number(JsNumber::Float(f64::INFINITY.to_bits()))).unwrap());
    assert!(js_set(&mut v, PropKey::Index(2), JsVal::Number(JsNumber::Float(513.9f64.to_bits()))).unwrap());
    assert_eq!(v, bytes(vec![0, 0, 1]));
    assert!(js_set(&mut v, PropKey::Index(9), JsVal::Number(JsNumber::Int(7))).unwrap());
    assert_eq!(v, bytes(vec![0, 0, 1]));
    assert_eq!(js_get(&v, PropKey::Index(2)).unwrap(), JsVal::Number(JsNumber::Int(1)));
}
