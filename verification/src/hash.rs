//! Change hashes: their text form and ordered sets of them.
use vstd::prelude::*;
use crate::text::{hex_encode, is_hash_text, hash_text_bytes};

verus! {

/// `automerge::ParseChangeHashError`, carried as it is: why text did not parse as a
/// change hash.
#[verifier::external_type_specification]
#[verifier::external_body]
pub struct ExParseChangeHashError(automerge::ParseChangeHashError);

/// The hash of a change: 32 bytes.
#[derive(Clone, Copy, Debug, PartialEq, Eq)]
pub struct ChangeHash {
    pub bytes: [u8; 32],
}

impl ChangeHash {
    pub open spec fn view(&self) -> Seq<u8> {
        self.bytes@
    }
}

/// The views of a sequence of hashes.
pub open spec fn hashes_view(s: Seq<ChangeHash>) -> Seq<Seq<u8>> {
    Seq::new(s.len(), |i: int| s[i].view())
}

/// Parses the text of a change hash with `<automerge::ChangeHash as FromStr>::from_str`.
///
/// That function hex-decodes the text (either case accepted, two digits per byte)
/// and succeeds exactly when the decoding gives 32 bytes: so it succeeds on exactly
/// 64 hexadecimal digits and returns the bytes they spell.
#[verifier::external_body]
fn parse_hash_text(s: &str) -> (r: Result<[u8; 32], automerge::ParseChangeHashError>)
    ensures
        r is Ok <==> is_hash_text(s@),
        r matches Ok(b) ==> b@ == hash_text_bytes(s@),
{
    s.parse::<automerge::ChangeHash>().map(|h| h.0)
}

/// Renders a hash with `<automerge::ChangeHash as Display>`, which writes
/// `hex::encode` of its bytes: lowercase hexadecimal, two digits per byte.
#[verifier::external_body]
fn display_hash(b: &[u8; 32]) -> (r: String)
    ensures
        r@ == hex_encode(b@),
{
    automerge::ChangeHash(*b).to_string()
}

/// Renders bytes with `hex::encode`: lowercase hexadecimal, two digits per byte.
#[verifier::external_body]
pub(crate) fn hex_encode_bytes(b: &[u8]) -> (r: String)
    ensures
        r@ == hex_encode(b@),
{
    hex::encode(b)
}

impl ChangeHash {
    /// Parses the text of a hash.
    pub fn parse(s: &String) -> (r: Result<ChangeHash, automerge::ParseChangeHashError>)
        ensures
            r is Ok <==> is_hash_text(s@),
            r matches Ok(h) ==> h.view() == hash_text_bytes(s@),
    {
        match parse_hash_text(s.as_str()) {
            Ok(bytes) => Ok(ChangeHash { bytes }),
            Err(e) => Err(e),
        }
    }

    /// The text of the hash, as `automerge::ChangeHash` displays it.
    pub fn to_text(&self) -> (r: String)
        ensures
            r@ == hex_encode(self.view()),
    {
        display_hash(&self.bytes)
    }

    /// The bytes of the hash in hexadecimal, as `hex::encode` writes them.
    pub fn to_hex(&self) -> (r: String)
        ensures
            r@ == hex_encode(self.view()),
    {
        hex_encode_bytes(self.bytes.as_slice())
    }
}

/// Lexicographic order on byte strings of equal length.
pub open spec fn bytes_lt(a: Seq<u8>, b: Seq<u8>) -> bool {
    exists|k: int|
        0 <= k < a.len() && k < b.len() && a[k] < b[k] && forall|j: int| 0 <= j < k ==> a[j] == b[j]
}

/// The order is irreflexive and transitive, and any two distinct hashes are ordered.
pub proof fn lemma_bytes_lt_order(a: Seq<u8>, b: Seq<u8>, c: Seq<u8>)
    requires
        a.len() == 32,
        b.len() == 32,
        c.len() == 32,
    ensures
        !bytes_lt(a, a),
        bytes_lt(a, b) ==> !bytes_lt(b, a),
        bytes_lt(a, b) && bytes_lt(b, c) ==> bytes_lt(a, c),
        a != b ==> bytes_lt(a, b) || bytes_lt(b, a),
{
    if bytes_lt(a, b) && bytes_lt(b, a) {
        let k1 = choose|k: int| 0 <= k < a.len() && k < b.len() && a[k] < b[k] && forall|j: int| 0 <= j < k ==> a[j] == b[j];
        let k2 = choose|k: int| 0 <= k < b.len() && k < a.len() && b[k] < a[k] && forall|j: int| 0 <= j < k ==> b[j] == a[j];
        assert(k1 < k2 || k2 < k1 || k1 == k2);
    }
    if bytes_lt(a, b) && bytes_lt(b, c) {
        let k1 = choose|k: int| 0 <= k < a.len() && k < b.len() && a[k] < b[k] && forall|j: int| 0 <= j < k ==> a[j] == b[j];
        let k2 = choose|k: int| 0 <= k < b.len() && k < c.len() && b[k] < c[k] && forall|j: int| 0 <= j < k ==> b[j] == c[j];
        let k = if k1 < k2 { k1 } else { k2 };
        assert(0 <= k < a.len() && k < c.len() && a[k] < c[k] && forall|j: int| 0 <= j < k ==> a[j] == c[j]);
    }
    if a != b {
        if forall|j: int| 0 <= j < 32 ==> a[j] == b[j] {
            assert(a =~= b);
        }
        let k = choose|k: int| 0 <= k < 32 && a[k] != b[k];
        first_difference(a, b, k);
    }
}

/// Two byte strings that differ somewhere differ first somewhere.
proof fn first_difference(a: Seq<u8>, b: Seq<u8>, k: int)
    requires
        a.len() == 32,
        b.len() == 32,
        0 <= k < 32,
        a[k] != b[k],
    ensures
        bytes_lt(a, b) || bytes_lt(b, a),
    decreases k,
{
    if exists|j: int| 0 <= j < k && a[j] != b[j] {
        let j = choose|j: int| 0 <= j < k && a[j] != b[j];
        first_difference(a, b, j);
    } else {
        if a[k] < b[k] {
            assert(bytes_lt(a, b));
        } else {
            assert(bytes_lt(b, a));
        }
    }
}

/// Compares two hashes: -1, 0 or 1 as `a` sorts before, equal to or after `b`.
pub fn compare_hashes(a: &ChangeHash, b: &ChangeHash) -> (r: i8)
    ensures
        r == 0 <==> a.view() == b.view(),
        r < 0 <==> bytes_lt(a.view(), b.view()),
        r > 0 <==> bytes_lt(b.view(), a.view()),
        -1 <= r <= 1,
{
    proof { lemma_bytes_lt_order(a.view(), b.view(), a.view()); }
    let mut i: usize = 0;
    while i < 32
        invariant
            i <= 32,
            a.view().len() == 32,
            b.view().len() == 32,
            forall|j: int| 0 <= j < i ==> a.view()[j] == b.view()[j],
        decreases 32 - i,
    {
        if a.bytes[i] < b.bytes[i] {
            assert(bytes_lt(a.view(), b.view()));
            return -1;
        } else if a.bytes[i] > b.bytes[i] {
            assert(bytes_lt(b.view(), a.view()));
            return 1;
        }
        i = i + 1;
    }
    assert(a.view() =~= b.view());
    0
}

/// A set of change hashes, held in ascending order without repeats, as a
/// `BTreeSet` would hold and list them.
#[derive(Debug)]
pub struct ChangeHashSet {
    items: Vec<ChangeHash>,
}

/// Whether `s` is strictly ascending.
pub open spec fn ascending(s: Seq<Seq<u8>>) -> bool {
    &&& forall|i: int| 0 <= i < s.len() ==> (#[trigger] s[i]).len() == 32
    &&& forall|i: int, j: int| 0 <= i < j < s.len() ==> bytes_lt(s[i], s[j])
}

impl ChangeHashSet {
    /// The hashes, in ascending order.
    pub closed spec fn view(&self) -> Seq<Seq<u8>> {
        hashes_view(self.items@)
    }

    /// The set holds its hashes in strictly ascending order.
    pub open spec fn wf(&self) -> bool {
        ascending(self.view())
    }

    /// The empty set.
    pub fn new() -> (r: ChangeHashSet)
        ensures
            r.wf(),
            r.view() == Seq::<Seq<u8>>::empty(),
    {
        let r = ChangeHashSet { items: Vec::new() };
        assert(r.view() =~= Seq::<Seq<u8>>::empty());
        r
    }

    /// The number of hashes.
    pub fn len(&self) -> (r: usize)
        ensures
            r == self.view().len(),
    {
        self.items.len()
    }

    /// The hash at position `i` in ascending order.
    pub fn get(&self, i: usize) -> (r: ChangeHash)
        requires
            i < self.view().len(),
        ensures
            r.view() == self.view()[i as int],
    {
        self.items[i]
    }

    /// Adds `h`; a hash already present is not added twice.
    pub fn insert(&mut self, h: ChangeHash)
        requires
            old(self).wf(),
        ensures
            final(self).wf(),
            final(self).view().to_set() == old(self).view().to_set().insert(h.view()),
    {
        let ghost before = self.view();
        let mut i: usize = 0;
        while i < self.items.len()
            invariant
                i <= self.items.len(),
                self.view() == before,
                ascending(before),
                h.view().len() == 32,
                forall|j: int| 0 <= j < i ==> bytes_lt(#[trigger] before[j], h.view()),
            ensures
                i <= self.items.len(),
                self.view() == before,
                forall|j: int| 0 <= j < i ==> bytes_lt(#[trigger] before[j], h.view()),
                i < self.items.len() ==> bytes_lt(h.view(), before[i as int]),
            decreases self.items.len() - i,
        {
            let c = compare_hashes(&self.items[i], &h);
            if c == 0 {
                proof {
                    assert(before[i as int] == h.view());
                    assert(before.to_set().insert(h.view()) =~= before.to_set());
                }
                return;
            } else if c > 0 {
                break;
            }
            i = i + 1;
        }
        self.items.insert(i, h);
        proof {
            let after = self.view();
            assert(after =~= before.insert(i as int, h.view()));
            assert forall|a: int, b: int| 0 <= a < b < after.len() implies bytes_lt(after[a], after[b]) by {
                if i < before.len() {
                    assert(bytes_lt(h.view(), before[i as int]));
                }
                if b == i {
                    assert(bytes_lt(before[a], h.view()));
                } else if a == i {
                    if b - 1 > i {
                        lemma_bytes_lt_order(h.view(), before[i as int], before[b - 1]);
                    }
                } else if a < i && b > i {
                    lemma_bytes_lt_order(before[a], h.view(), before[b - 1]);
                }
            }
            assert(after.to_set() =~= before.to_set().insert(h.view())) by {
                assert forall|x: Seq<u8>| after.to_set().contains(x) <==> before.to_set().insert(h.view()).contains(x) by {
                    if after.to_set().contains(x) {
                        let k = choose|k: int| 0 <= k < after.len() && after[k] == x;
                        if k < i {
                            assert(before[k] == x);
                        } else if k > i {
                            assert(before[k - 1] == x);
                        }
                    }
                    if before.to_set().contains(x) {
                        let k = choose|k: int| 0 <= k < before.len() && before[k] == x;
                        if k < i {
                            assert(after[k] == x);
                        } else {
                            assert(after[k + 1] == x);
                        }
                    }
                    if x == h.view() {
                        assert(after[i as int] == x);
                    }
                }
            }
        }
    }
}

} // verus!
