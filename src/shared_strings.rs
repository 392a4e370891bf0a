//! Content-addressed binary payloads, each kept once and handed out in
//! ascending order of content hash.
use vstd::prelude::*;
use crate::order::{
    bytes_le_exec, bytes_lt, lemma_bytes_le_antisymmetric, lemma_bytes_le_total,
    lemma_bytes_lt_transitive, lemma_strictly_ascending_unique, strictly_ascending,
};

verus! {

/// The content hash the platform gives a shared payload.
pub uninterp spec fn shared_string_hash(data: Seq<u8>) -> Seq<u8>;

/// The standard padded base64 text of some bytes.
pub uninterp spec fn base64_of(data: Seq<u8>) -> Seq<char>;

/// The largest payload whose text form has a length that fits in `usize`.
pub const MAX_SHARED_STRING_LEN: usize = usize::MAX / 4;

/// Relies on `rbx_types::SharedString::new` and `SharedString::hash`: the
/// 32-byte BLAKE3 digest of the payload.
#[verifier::external_body]
pub(crate) fn content_hash(data: &Vec<u8>) -> (r: Vec<u8>)
    ensures
        r@ == shared_string_hash(data@),
        r@.len() == 32,
{
    rbx_dom_weak::types::SharedString::new(data.clone()).hash().as_bytes().to_vec()
}

/// Relies on `base64::encode` (standard alphabet, padded): four characters
/// for each started group of three bytes. It panics only where that length
/// overflows `usize`.
#[verifier::external_body]
pub(crate) fn base64_encode(data: &[u8]) -> (r: String)
    requires
        data@.len() <= MAX_SHARED_STRING_LEN,
    ensures
        r@ == base64_of(data@),
        r@.len() == 4 * ((data@.len() + 2) / 3),
{
    base64::encode(data)
}

/// The registry of shared payloads: pairs of content hash and payload.
#[derive(Debug)]
pub struct SharedStrings {
    pub entries: Vec<(Vec<u8>, Vec<u8>)>,
}

impl View for SharedStrings {
    type V = Seq<(Seq<u8>, Seq<u8>)>;

    open spec fn view(&self) -> Seq<(Seq<u8>, Seq<u8>)> {
        self.entries@.map_values(|e: (Vec<u8>, Vec<u8>)| (e.0@, e.1@))
    }
}

/// Whether entries `es` are keyed by the hash of their payloads, in strictly
/// ascending order of hash.
pub open spec fn registry_wf(es: Seq<(Seq<u8>, Seq<u8>)>) -> bool {
    &&& forall|i: int|
        0 <= i < es.len() ==> #[trigger] es[i].0 == shared_string_hash(es[i].1) && es[i].0.len()
            == 32 && es[i].1.len() <= MAX_SHARED_STRING_LEN
    &&& forall|i: int, j: int| 0 <= i < j < es.len() ==> bytes_lt(es[i].0, es[j].0)
}

impl SharedStrings {
    pub open spec fn wf(&self) -> bool {
        registry_wf(self@)
    }

    /// An empty registry.
    pub fn new() -> (r: SharedStrings)
        ensures
            r.wf(),
            r@.len() == 0,
    {
        SharedStrings { entries: Vec::new() }
    }

    /// Whether no payload is registered.
    pub fn is_empty(&self) -> (r: bool)
        ensures
            r == (self@.len() == 0),
    {
        self.entries.len() == 0
    }

    /// Registers `data` under its content hash, unless a payload with that
    /// hash is already there.
    pub fn insert(&mut self, data: Vec<u8>)
        requires
            old(self).wf(),
            data@.len() <= MAX_SHARED_STRING_LEN,
        ensures
            final(self).wf(),
            exists|i: int|
                0 <= i < final(self)@.len() && #[trigger] final(self)@[i].0 == shared_string_hash(
                    data@,
                ),
            forall|i: int| 0 <= i < old(self)@.len() ==> final(self)@.contains(#[trigger] old(self)@[i]),
            forall|i: int|
                0 <= i < final(self)@.len() ==> old(self)@.contains(#[trigger] final(self)@[i])
                    || final(self)@[i] == (shared_string_hash(data@), data@),
    {
        let hash = content_hash(&data);
        let n = self.entries.len();
        let mut j: usize = 0;
        while j < n && bytes_le_exec(self.entries[j].0.as_slice(), hash.as_slice())
            && !bytes_le_exec(hash.as_slice(), self.entries[j].0.as_slice())
            invariant
                n == self@.len(),
                j <= n,
                self.wf(),
                forall|k: int| 0 <= k < j ==> bytes_lt(#[trigger] self@[k].0, hash@),
            decreases n - j,
        {
            j = j + 1;
        }
        let ghost old_es = self@;
        if j < n && bytes_le_exec(hash.as_slice(), self.entries[j].0.as_slice())
            && bytes_le_exec(self.entries[j].0.as_slice(), hash.as_slice()) {
            proof {
                lemma_bytes_le_antisymmetric(old_es[j as int].0, hash@);
                assert(old_es[j as int].0 == shared_string_hash(data@));
            }
            return;
        }
        proof {
            if j < n {
                lemma_bytes_le_total(hash@, old_es[j as int].0);
                if hash@ == old_es[j as int].0 {
                    lemma_bytes_le_total(hash@, hash@);
                }
                assert(bytes_lt(hash@, old_es[j as int].0));
            }
        }
        self.entries.insert(j, (hash, data));
        proof {
            assert(self@ =~= old_es.insert(j as int, (shared_string_hash(data@), data@)));
            assert forall|a: int, b: int| 0 <= a < b < self@.len() implies bytes_lt(
                self@[a].0,
                self@[b].0,
            ) by {
                if b > j + 1 {
                    lemma_bytes_lt_transitive(hash@, old_es[j as int].0, self@[b].0);
                }
                if a < j && b > j {
                    lemma_bytes_lt_transitive(self@[a].0, hash@, self@[b].0);
                }
            }
            assert(self@[j as int].0 == shared_string_hash(data@));
            assert forall|i: int| 0 <= i < old_es.len() implies self@.contains(#[trigger] old_es[i]) by {
                if i < j {
                    assert(self@[i] == old_es[i]);
                } else {
                    assert(self@[i + 1] == old_es[i]);
                }
            }
            assert forall|i: int| 0 <= i < self@.len() implies old_es.contains(#[trigger] self@[i])
                || self@[i] == (shared_string_hash(data@), data@) by {
                if i < j {
                    assert(old_es[i] == self@[i]);
                } else if i > j {
                    assert(old_es[i - 1] == self@[i]);
                }
            }
        }
    }
}

} // verus!

verus! {

/// Blob dedup: in a registry, no two entries share a content hash or a
/// payload, so a payload referenced many times is written once, and each
/// fingerprint written comes from a single full content hash.
pub proof fn lemma_shared_strings_unique(es: Seq<(Seq<u8>, Seq<u8>)>)
    requires
        registry_wf(es),
    ensures
        forall|i: int, j: int|
            0 <= i < es.len() && 0 <= j < es.len() && i != j ==> es[i].0 != es[j].0 && es[i].1
                != es[j].1,
{
    assert forall|i: int, j: int|
        0 <= i < es.len() && 0 <= j < es.len() && i != j implies es[i].0 != es[j].0 && es[i].1
            != es[j].1 by {
        if i < j {
            assert(bytes_lt(es[i].0, es[j].0));
        } else {
            assert(bytes_lt(es[j].0, es[i].0));
        }
        assert(es[i].0 == shared_string_hash(es[i].1));
        assert(es[j].0 == shared_string_hash(es[j].1));
    }
}

/// Determinism of the payload block: two registries that hold the same
/// entries hold them in the same order.
pub proof fn lemma_shared_strings_order_unique(
    e1: Seq<(Seq<u8>, Seq<u8>)>,
    e2: Seq<(Seq<u8>, Seq<u8>)>,
)
    requires
        registry_wf(e1),
        registry_wf(e2),
        forall|x: (Seq<u8>, Seq<u8>)| e1.contains(x) <==> e2.contains(x),
    ensures
        e1 == e2,
{
    let key = |e: (Seq<u8>, Seq<u8>)| e.0;
    assert(strictly_ascending(e1, key));
    assert(strictly_ascending(e2, key));
    lemma_strictly_ascending_unique(e1, e2, key);
}

} // verus!
