//! The errors of reading JavaScript values, and their mathematical views.
//!
//! Each error's view (`fault`) keeps what the error says: which property or
//! element failed, and why. Errors of the automerge decoders are opaque and are
//! only told apart by where they occur.
use vstd::prelude::*;
use crate::js::{JsVal, JsV, PropKey, KeyV};
use crate::value::{DatatypeFault, InvalidDatatype};

verus! {

/// `automerge::LoadChangeError`, carried as it is: why bytes did not load as a change.
#[verifier::external_type_specification]
#[verifier::external_body]
pub struct ExLoadChangeError(automerge::LoadChangeError);

/// `automerge::sync::DecodeBloomError`, carried as it is: why bytes did not decode as a
/// bloom filter.
#[verifier::external_type_specification]
#[verifier::external_body]
pub struct ExDecodeBloomError(automerge::sync::DecodeBloomError);

/// Reading a property failed: `Reflect.get` threw.
#[derive(Debug)]
pub struct GetProp {
    pub property: PropKey,
    pub error: JsVal,
}

/// Writing a property failed: `Reflect.set` threw.
#[derive(Debug)]
pub struct SetProp {
    pub property: PropKey,
    pub error: JsVal,
}

/// The view of a failed property access.
pub struct PropFault {
    pub property: KeyV,
    pub error: JsV,
}

impl GetProp {
    pub open spec fn fault(&self) -> PropFault {
        PropFault { property: self.property.view(), error: self.error.view() }
    }
}

impl SetProp {
    pub open spec fn fault(&self) -> PropFault {
        PropFault { property: self.property.view(), error: self.error.view() }
    }
}

/// A change hash could not be read.
#[derive(Debug)]
pub enum BadChangeHash {
    NotString,
    Parse(automerge::ParseChangeHashError),
}

/// The view of `BadChangeHash`.
pub enum HashFault {
    NotString,
    Parse,
}

impl BadChangeHash {
    pub open spec fn fault(&self) -> HashFault {
        match self {
            BadChangeHash::NotString => HashFault::NotString,
            BadChangeHash::Parse(_) => HashFault::Parse,
        }
    }
}

/// A list of change hashes could not be read.
#[derive(Debug)]
pub enum BadChangeHashes {
    NotArray,
    BadElem(usize, BadChangeHash),
}

/// The view of `BadChangeHashes`.
pub enum HashesFault {
    NotArray,
    BadElem(nat, HashFault),
}

impl BadChangeHashes {
    pub open spec fn fault(&self) -> HashesFault {
        match self {
            BadChangeHashes::NotArray => HashesFault::NotArray,
            BadChangeHashes::BadElem(i, e) => HashesFault::BadElem(*i as nat, e.fault()),
        }
    }
}

/// A set of change hashes could not be read.
#[derive(Debug)]
pub enum BadChangeHashSet {
    NotObject,
    GetProp(GetProp),
    ListProp,
    BadHash(JsVal, BadChangeHash),
}

/// The view of `BadChangeHashSet`.
pub enum HashSetFault {
    NotObject,
    GetProp(PropFault),
    ListProp,
    BadHash(JsV, HashFault),
}

impl BadChangeHashSet {
    pub open spec fn fault(&self) -> HashSetFault {
        match self {
            BadChangeHashSet::NotObject => HashSetFault::NotObject,
            BadChangeHashSet::GetProp(g) => HashSetFault::GetProp(g.fault()),
            BadChangeHashSet::ListProp => HashSetFault::ListProp,
            BadChangeHashSet::BadHash(k, e) => HashSetFault::BadHash(k.view(), e.fault()),
        }
    }
}

/// A bloom filter could not be read.
#[derive(Debug)]
pub enum BadBloom {
    NotU8Array,
    Decode(automerge::sync::DecodeBloomError),
}

/// The view of `BadBloom`.
pub enum BloomFault {
    NotU8Array,
    Decode,
}

impl BadBloom {
    pub open spec fn fault(&self) -> BloomFault {
        match self {
            BadBloom::NotU8Array => BloomFault::NotU8Array,
            BadBloom::Decode(_) => BloomFault::Decode,
        }
    }
}

/// A `Have` could not be read.
#[derive(Debug)]
pub enum BadHave {
    BadLastSync(BadChangeHashes),
    BadBloom(BadBloom),
    GetHaveProp(GetProp),
}

/// The view of `BadHave`.
pub enum HaveFault {
    BadLastSync(HashesFault),
    BadBloom(BloomFault),
    GetHaveProp(PropFault),
}

impl BadHave {
    pub open spec fn fault(&self) -> HaveFault {
        match self {
            BadHave::BadLastSync(e) => HaveFault::BadLastSync(e.fault()),
            BadHave::BadBloom(e) => HaveFault::BadBloom(e.fault()),
            BadHave::GetHaveProp(g) => HaveFault::GetHaveProp(g.fault()),
        }
    }
}

/// A list of `Have`s could not be read.
#[derive(Debug)]
pub enum BadHaves {
    NotArray,
    BadElem(usize, BadHave),
}

/// The view of `BadHaves`.
pub enum HavesFault {
    NotArray,
    BadElem(nat, HaveFault),
}

impl BadHaves {
    pub open spec fn fault(&self) -> HavesFault {
        match self {
            BadHaves::NotArray => HavesFault::NotArray,
            BadHaves::BadElem(i, e) => HavesFault::BadElem(*i as nat, e.fault()),
        }
    }
}

/// A sync state could not be read.
#[derive(Debug)]
pub enum BadSyncState {
    GetProp(GetProp),
    BadSharedHeads(BadChangeHashes),
    BadLastSentHeads(BadChangeHashes),
    BadTheirHeads(BadChangeHashes),
    BadTheirNeed(BadChangeHashes),
    BadTheirHave(BadHaves),
    BadSentHashes(BadChangeHashSet),
    InFlightNotBoolean,
}

/// The view of `BadSyncState`.
pub enum SyncStateFault {
    GetProp(PropFault),
    BadSharedHeads(HashesFault),
    BadLastSentHeads(HashesFault),
    BadTheirHeads(HashesFault),
    BadTheirNeed(HashesFault),
    BadTheirHave(HavesFault),
    BadSentHashes(HashSetFault),
    InFlightNotBoolean,
}

impl BadSyncState {
    pub open spec fn fault(&self) -> SyncStateFault {
        match self {
            BadSyncState::GetProp(g) => SyncStateFault::GetProp(g.fault()),
            BadSyncState::BadSharedHeads(e) => SyncStateFault::BadSharedHeads(e.fault()),
            BadSyncState::BadLastSentHeads(e) => SyncStateFault::BadLastSentHeads(e.fault()),
            BadSyncState::BadTheirHeads(e) => SyncStateFault::BadTheirHeads(e.fault()),
            BadSyncState::BadTheirNeed(e) => SyncStateFault::BadTheirNeed(e.fault()),
            BadSyncState::BadTheirHave(e) => SyncStateFault::BadTheirHave(e.fault()),
            BadSyncState::BadSentHashes(e) => SyncStateFault::BadSentHashes(e.fault()),
            BadSyncState::InFlightNotBoolean => SyncStateFault::InFlightNotBoolean,
        }
    }
}

/// A list of changes could not be read.
#[derive(Debug)]
pub enum BadJSChanges {
    ChangesNotArray,
    ElemNotUint8Array(usize),
    BadChange(usize, automerge::LoadChangeError),
}

/// The view of `BadJSChanges`.
pub enum ChangesFault {
    ChangesNotArray,
    ElemNotUint8Array(nat),
    BadChange(nat),
}

impl BadJSChanges {
    pub open spec fn fault(&self) -> ChangesFault {
        match self {
            BadJSChanges::ChangesNotArray => ChangesFault::ChangesNotArray,
            BadJSChanges::ElemNotUint8Array(i) => ChangesFault::ElemNotUint8Array(*i as nat),
            BadJSChanges::BadChange(i, _) => ChangesFault::BadChange(*i as nat),
        }
    }
}

/// A sync message could not be read.
#[derive(Debug)]
pub enum BadSyncMessage {
    GetProp(GetProp),
    BadHaves(BadHaves),
    BadJSChanges(BadJSChanges),
    BadHeads(BadChangeHashes),
    BadNeed(BadChangeHashes),
}

/// The view of `BadSyncMessage`.
pub enum SyncMessageFault {
    GetProp(PropFault),
    BadHaves(HavesFault),
    BadJSChanges(ChangesFault),
    BadHeads(HashesFault),
    BadNeed(HashesFault),
}

impl BadSyncMessage {
    pub open spec fn fault(&self) -> SyncMessageFault {
        match self {
            BadSyncMessage::GetProp(g) => SyncMessageFault::GetProp(g.fault()),
            BadSyncMessage::BadHaves(e) => SyncMessageFault::BadHaves(e.fault()),
            BadSyncMessage::BadJSChanges(e) => SyncMessageFault::BadJSChanges(e.fault()),
            BadSyncMessage::BadHeads(e) => SyncMessageFault::BadHeads(e.fault()),
            BadSyncMessage::BadNeed(e) => SyncMessageFault::BadNeed(e.fault()),
        }
    }
}


/// Exporting a value to JavaScript failed.
#[derive(Debug)]
pub enum Export {
    SetFailed(SetProp),
    Delete { prop: String, err: JsVal },
    /// Building the descriptor of a hidden property failed at the named field.
    SetHidden(&'static str),
    /// The data handler of the named datatype returned something that cannot carry
    /// hidden properties.
    InvalidDataHandler(String),
    /// The data handler of the named datatype threw.
    CallDataHandler(String, JsVal),
    GetProp(GetProp),
    InvalidDatatype(InvalidDatatype),
    GetSplice(JsVal),
    CallSplice(JsVal),
}

/// The view of `Export`.
pub enum ExportFault {
    SetFailed(PropFault),
    Delete { prop: Seq<char>, err: JsV },
    SetHidden(Seq<char>),
    InvalidDataHandler(Seq<char>),
    CallDataHandler(Seq<char>, JsV),
    GetProp(PropFault),
    InvalidDatatype(DatatypeFault),
    GetSplice(JsV),
    CallSplice(JsV),
}

impl Export {
    pub open spec fn fault(&self) -> ExportFault {
        match self {
            Export::SetFailed(e) => ExportFault::SetFailed(e.fault()),
            Export::Delete { prop, err } => ExportFault::Delete { prop: prop@, err: err.view() },
            Export::SetHidden(f) => ExportFault::SetHidden(f@),
            Export::InvalidDataHandler(d) => ExportFault::InvalidDataHandler(d@),
            Export::CallDataHandler(d, e) => ExportFault::CallDataHandler(d@, e.view()),
            Export::GetProp(e) => ExportFault::GetProp(e.fault()),
            Export::InvalidDatatype(e) => ExportFault::InvalidDatatype(e.fault()),
            Export::GetSplice(e) => ExportFault::GetSplice(e.view()),
            Export::CallSplice(e) => ExportFault::CallSplice(e.view()),
        }
    }
}

/// Applying a patch to a JavaScript value failed.
#[derive(Debug)]
pub enum ApplyPatch {
    Export(Export),
    DeleteKeyFromSeq,
    PutKeyInSeq,
    IncrementNonNumeric,
    IncrementKeyInSeq,
    IncrementIndexInMap,
    InsertInMap,
    SpliceInMap,
    PutIdxInMap,
    GetProp(GetProp),
    SetProp(SetProp),
}

/// The view of `ApplyPatch`.
pub enum PatchFault {
    Export(ExportFault),
    DeleteKeyFromSeq,
    PutKeyInSeq,
    IncrementNonNumeric,
    IncrementKeyInSeq,
    IncrementIndexInMap,
    InsertInMap,
    SpliceInMap,
    PutIdxInMap,
    GetProp(PropFault),
    SetProp(PropFault),
}

impl ApplyPatch {
    pub open spec fn fault(&self) -> PatchFault {
        match self {
            ApplyPatch::Export(e) => PatchFault::Export(e.fault()),
            ApplyPatch::DeleteKeyFromSeq => PatchFault::DeleteKeyFromSeq,
            ApplyPatch::PutKeyInSeq => PatchFault::PutKeyInSeq,
            ApplyPatch::IncrementNonNumeric => PatchFault::IncrementNonNumeric,
            ApplyPatch::IncrementKeyInSeq => PatchFault::IncrementKeyInSeq,
            ApplyPatch::IncrementIndexInMap => PatchFault::IncrementIndexInMap,
            ApplyPatch::InsertInMap => PatchFault::InsertInMap,
            ApplyPatch::SpliceInMap => PatchFault::SpliceInMap,
            ApplyPatch::PutIdxInMap => PatchFault::PutIdxInMap,
            ApplyPatch::GetProp(e) => PatchFault::GetProp(e.fault()),
            ApplyPatch::SetProp(e) => PatchFault::SetProp(e.fault()),
        }
    }
}

} // verus!
