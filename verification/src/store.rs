//! The persistent hash cache: an ordered key-value map from image path to
//! content hash, living in a fjall keyspace on disk.
//!
//! Keys are the UTF-8 bytes of the path; values are the fixed-width
//! little-endian encoding of the 64-bit content hash. The engine treats the
//! store as the single source of truth for "has this path already been
//! hashed": entries survive process exit, and a later insert for the same
//! path overwrites rather than duplicating.

use vstd::prelude::*;
use vstd::string::StrSliceExecFns;
use vstd::utf8::{decode_utf8, valid_utf8};

use crate::error::AppError;
use crate::hash::{canonical_hash_of, fraction_valid};
use crate::image::{str_bytes, Image};
use crate::paths::is_heic_path;

verus! {

/// The fixed-width little-endian encoding of a content hash.
pub open spec fn le_bytes_of(v: u64) -> Seq<u8> {
    seq![
        (v & 0xff) as u8,
        ((v >> 8) & 0xff) as u8,
        ((v >> 16) & 0xff) as u8,
        ((v >> 24) & 0xff) as u8,
        ((v >> 32) & 0xff) as u8,
        ((v >> 40) & 0xff) as u8,
        ((v >> 48) & 0xff) as u8,
        ((v >> 56) & 0xff) as u8,
    ]
}

/// The hash stored in a record's value bytes: exactly 8 bytes, little
/// endian; anything else is a corrupt record.
pub open spec fn decoded_hash(b: Seq<u8>) -> Option<u64> {
    if b.len() == 8 {
        Some(
            (b[0] as u64) | ((b[1] as u64) << 8) | ((b[2] as u64) << 16) | ((b[3] as u64) << 24) | (
            (b[4] as u64) << 32) | ((b[5] as u64) << 40) | ((b[6] as u64) << 48) | ((
            b[7] as u64) << 56),
        )
    } else {
        None
    }
}

/// Encode a content hash for storage.
pub fn encode_hash(v: u64) -> (r: Vec<u8>)
    ensures
        r@ == le_bytes_of(v),
{
    let mut r: Vec<u8> = Vec::new();
    r.push((v & 0xff) as u8);
    r.push(((v >> 8) & 0xff) as u8);
    r.push(((v >> 16) & 0xff) as u8);
    r.push(((v >> 24) & 0xff) as u8);
    r.push(((v >> 32) & 0xff) as u8);
    r.push(((v >> 40) & 0xff) as u8);
    r.push(((v >> 48) & 0xff) as u8);
    r.push(((v >> 56) & 0xff) as u8);
    proof {
        assert(r@ =~= le_bytes_of(v));
    }
    r
}

/// Decode a stored value back into a content hash; `None` for a corrupt
/// record.
pub fn decode_hash(b: &Vec<u8>) -> (r: Option<u64>)
    ensures
        r == decoded_hash(b@),
{
    if b.len() != 8 {
        return None;
    }
    let v: u64 = (b[0] as u64) | ((b[1] as u64) << 8) | ((b[2] as u64) << 16) | ((b[3] as u64)
        << 24) | ((b[4] as u64) << 32) | ((b[5] as u64) << 40) | ((b[6] as u64) << 48) | ((
    b[7] as u64) << 56);
    Some(v)
}

/// Encoding then decoding a hash gives it back unchanged.
pub proof fn lemma_hash_codec_round_trip(v: u64)
    ensures
        decoded_hash(le_bytes_of(v)) == Some(v),
{
    assert(((v & 0xff) as u8 as u64) | (((v >> 8) & 0xff) as u8 as u64) << 8 | (((v >> 16)
        & 0xff) as u8 as u64) << 16 | (((v >> 24) & 0xff) as u8 as u64) << 24 | (((v >> 32)
        & 0xff) as u8 as u64) << 32 | (((v >> 40) & 0xff) as u8 as u64) << 40 | (((v >> 48)
        & 0xff) as u8 as u64) << 48 | (((v >> 56) & 0xff) as u8 as u64) << 56 == v) by (bit_vector);
}

/// Lexicographic order on byte strings, as fjall orders its keys.
pub open spec fn bytes_lt(a: Seq<u8>, b: Seq<u8>) -> bool
    decreases a.len(),
{
    if b.len() == 0 {
        false
    } else if a.len() == 0 {
        true
    } else if a[0] != b[0] {
        a[0] < b[0]
    } else {
        bytes_lt(a.drop_first(), b.drop_first())
    }
}

#[verifier::external_type_specification]
#[verifier::external_body]
pub struct ExKeyspace(fjall::Keyspace);

/// Every record of `m1` stands unchanged in `m2`: only removals separate
/// the two maps.
pub open spec fn within_entries(m1: Map<Seq<u8>, Seq<u8>>, m2: Map<Seq<u8>, Seq<u8>>) -> bool {
    forall|k: Seq<u8>|
        #[trigger] m1.contains_key(k) ==> m2.contains_key(k) && m1[k] == m2[k]
}

/// The persistent hash cache, backed by one fjall keyspace.
pub struct HashStore {
    pub handle: fjall::Keyspace,
}

/// What the keyspace holds on disk: a map from key bytes to value bytes.
pub uninterp spec fn keyspace_entries(k: fjall::Keyspace) -> Map<Seq<u8>, Seq<u8>>;

impl HashStore {
    /// The contents of the store.
    pub open spec fn entries(&self) -> Map<Seq<u8>, Seq<u8>> {
        keyspace_entries(self.handle)
    }

    /// Wrap an opened fjall keyspace. Nothing is known of its contents:
    /// the engine reads what is there.
    #[verifier::external_body]
    pub fn new(handle: fjall::Keyspace) -> HashStore {
        HashStore { handle }
    }

    /// Relies on `fjall::Keyspace::get`: point lookup of the stored value.
    /// The read path builds an internal key that holds at most 65535 bytes.
    #[verifier::external_body]
    pub fn get(&self, key: &Vec<u8>) -> (r: Result<Option<Vec<u8>>, AppError>)
        requires
            key@.len() <= 65535,
        ensures
            match r {
                Ok(o) => {
                    match o {
                        Some(v) => keyspace_entries(self.handle).contains_key(key@)
                            && keyspace_entries(self.handle)[key@] == v@,
                        None => !keyspace_entries(self.handle).contains_key(key@),
                    }
                },
                Err(e) => e == AppError::StoreError,
            },
    {
        match self.handle.get(key.as_slice()) {
            Ok(Some(v)) => Ok(Some(v.to_vec())),
            Ok(None) => Ok(None),
            Err(_) => Err(AppError::StoreError),
        }
    }

    /// Relies on `fjall::Keyspace::insert`: an upsert of one record. Keys
    /// must be non-empty and at most 65535 bytes; a value must fit a
    /// 32-bit length. Every error exit of the call precedes the tree
    /// mutation, so on failure the live contents are unchanged.
    #[verifier::external_body]
    pub fn insert(&mut self, key: &Vec<u8>, value: &Vec<u8>) -> (r: Result<(), AppError>)
        requires
            1 <= key@.len() <= 65535,
            value@.len() <= 0xffff_ffff,
        ensures
            match r {
                Ok(u) => keyspace_entries(final(self).handle) == keyspace_entries(
                    old(self).handle,
                ).insert(key@, value@),
                Err(e) => e == AppError::StoreError && keyspace_entries(final(self).handle)
                    == keyspace_entries(old(self).handle),
            },
    {
        match self.handle.insert(key.as_slice(), value.as_slice()) {
            Ok(_) => Ok(()),
            Err(_) => Err(AppError::StoreError),
        }
    }

    /// Relies on `fjall::Keyspace::remove`: deletes one record. Keys must
    /// be non-empty and at most 65535 bytes. Every error exit of the call
    /// precedes the tree mutation, so on failure the live contents are
    /// unchanged.
    #[verifier::external_body]
    pub fn remove(&mut self, key: &Vec<u8>) -> (r: Result<(), AppError>)
        requires
            1 <= key@.len() <= 65535,
        ensures
            match r {
                Ok(u) => keyspace_entries(final(self).handle) == keyspace_entries(
                    old(self).handle,
                ).remove(key@),
                Err(e) => e == AppError::StoreError && keyspace_entries(final(self).handle)
                    == keyspace_entries(old(self).handle),
            },
    {
        match self.handle.remove(key.as_slice()) {
            Ok(_) => Ok(()),
            Err(_) => Err(AppError::StoreError),
        }
    }

    /// Relies on `fjall::Keyspace::iter` and `fjall::Guard::into_inner`:
    /// the records in ascending key order, the LSM-tree's iteration order.
    #[verifier::external_body]
    pub fn iter_entries(&self) -> (r: Result<Vec<(Vec<u8>, Vec<u8>)>, AppError>)
        ensures
            match r {
                Ok(es) => {
                    &&& forall|i: int|
                        0 <= i < es@.len() ==> keyspace_entries(self.handle).contains_key(
                            es@[i].0@,
                        ) && keyspace_entries(self.handle)[es@[i].0@] == es@[i].1@
                    &&& forall|k: Seq<u8>|
                        keyspace_entries(self.handle).contains_key(k) ==> exists|i: int|
                            0 <= i < es@.len() && es@[i].0@ == k
                    &&& forall|i: int, j: int|
                        0 <= i < j < es@.len() ==> bytes_lt(es@[i].0@, es@[j].0@)
                },
                Err(e) => e == AppError::StoreError,
            },
    {
        let mut out: Vec<(Vec<u8>, Vec<u8>)> = Vec::new();
        for g in self.handle.iter() {
            match g.into_inner() {
                Ok((k, v)) => out.push((k.to_vec(), v.to_vec())),
                Err(_) => return Err(AppError::StoreError),
            }
        }
        Ok(out)
    }

    /// Delete every record, by iterating the keys and removing each: after
    /// a reset the store iterates as empty. On failure, part of the
    /// records may already be gone, but none is added or changed.
    pub fn clear(&mut self) -> (r: Result<(), AppError>)
        ensures
            match r {
                Ok(u) => final(self).entries() == Map::<Seq<u8>, Seq<u8>>::empty(),
                Err(e) => e == AppError::StoreError && within_entries(
                    final(self).entries(),
                    old(self).entries(),
                ),
            },
    {
        let es = match self.iter_entries() {
            Ok(es) => es,
            Err(e) => {
                return Err(e);
            },
        };
        let ghost m0: Map<Seq<u8>, Seq<u8>> = self.entries();
        let mut j: usize = 0;
        while j < es.len()
            invariant
                m0 == old(self).entries(),
                j <= es@.len(),
                forall|i: int|
                    0 <= i < es@.len() ==> m0.contains_key(es@[i].0@) && m0[es@[i].0@]
                        == es@[i].1@,
                forall|k: Seq<u8>|
                    m0.contains_key(k) ==> exists|i: int| 0 <= i < es@.len() && es@[i].0@ == k,
                forall|k: Seq<u8>|
                    self.entries().contains_key(k) <==> m0.contains_key(k) && !(exists|i: int|
                        0 <= i < j && es@[i].0@ == k),
                forall|k: Seq<u8>|
                    #[trigger] self.entries().contains_key(k) ==> self.entries()[k] == m0[k],
            decreases es@.len() - j,
        {
            let key = &es[j].0;
            if key.len() < 1 || key.len() > 65535 {
                // fjall never hands back a key it could not store
                proof {
                    assert forall|k: Seq<u8>| #[trigger]
                        self.entries().contains_key(k) implies old(self).entries().contains_key(
                        k,
                    ) && self.entries()[k] == old(self).entries()[k] by {
                        assert(m0.contains_key(k) && self.entries()[k] == m0[k]);
                    }
                }
                return Err(AppError::StoreError);
            }
            let ghost before: Map<Seq<u8>, Seq<u8>> = self.entries();
            match self.remove(key) {
                Ok(u) => {},
                Err(e) => {
                    proof {
                        assert forall|k: Seq<u8>| #[trigger]
                            self.entries().contains_key(k) implies old(
                            self,
                        ).entries().contains_key(k) && self.entries()[k] == old(
                            self,
                        ).entries()[k] by {
                            assert(m0.contains_key(k) && self.entries()[k] == m0[k]);
                        }
                    }
                    return Err(e);
                },
            }
            proof {
                assert forall|k: Seq<u8>| #[trigger]
                    self.entries().contains_key(k) <==> m0.contains_key(k) && !(exists|i: int|
                        0 <= i < j + 1 && es@[i].0@ == k) by {
                    if k == es@[j as int].0@ {
                        assert(!self.entries().contains_key(k));
                        assert(es@[j as int].0@ == k);
                    } else {
                        assert(self.entries().contains_key(k) == before.contains_key(k));
                    }
                }
                assert forall|k: Seq<u8>| #[trigger]
                    self.entries().contains_key(k) implies self.entries()[k] == m0[k] by {
                    assert(self.entries()[k] == before[k]);
                }
            }
            j = j + 1;
        }
        proof {
            assert forall|k: Seq<u8>| !(#[trigger] self.entries().contains_key(k)) by {
                if self.entries().contains_key(k) {
                    assert(m0.contains_key(k));
                }
            }
            assert(self.entries() =~= Map::<Seq<u8>, Seq<u8>>::empty());
        }
        Ok(())
    }
}

/// One record's key: the UTF-8 bytes of its path.
pub open spec fn key_of(path: Seq<char>) -> Seq<u8> {
    str_bytes(path)
}

/// Whether a key can be stored: non-empty and within the store's key limit.
pub open spec fn key_ok(k: Seq<u8>) -> bool {
    1 <= k.len() <= 65535
}

/// Whether the hashing stage can compute and store a hash for an item:
/// the path makes a usable key, is not a refused format, and its bytes
/// decode to usable pixels.
pub open spec fn item_computable(item: (String, Vec<u8>), permille: u32) -> bool {
    let k = key_of(item.0@);
    key_ok(k) && !is_heic_path(k) && canonical_hash_of(item.1@, permille) != None::<u64>
}

/// The cache after one item of the hashing stage: an already-cached path
/// is left alone; a path that cannot be hashed changes nothing (it is
/// counted as a failure); otherwise the sampled hash is computed and
/// stored under the path's key.
pub open spec fn step_entries(
    m: Map<Seq<u8>, Seq<u8>>,
    item: (String, Vec<u8>),
    permille: u32,
) -> Map<Seq<u8>, Seq<u8>> {
    let k = key_of(item.0@);
    if m.contains_key(k) || !item_computable(item, permille) {
        m
    } else {
        match canonical_hash_of(item.1@, permille) {
            Some(h) => m.insert(k, le_bytes_of(h)),
            None => m,
        }
    }
}

/// Whether one item counts as a failure: its path is unusable as a key
/// (so the store is never consulted), or it is not yet cached and cannot
/// be hashed.
pub open spec fn step_fails(m: Map<Seq<u8>, Seq<u8>>, item: (String, Vec<u8>), permille: u32) -> bool {
    let k = key_of(item.0@);
    !key_ok(k) || (!m.contains_key(k) && !item_computable(item, permille))
}

/// Whether one item has its hash computed: not yet cached, and hashable.
pub open spec fn step_computes(
    m: Map<Seq<u8>, Seq<u8>>,
    item: (String, Vec<u8>),
    permille: u32,
) -> bool {
    !m.contains_key(key_of(item.0@)) && item_computable(item, permille)
}

/// The cache contents after the hashing stage has walked the items in
/// order, starting from contents `m`.
pub open spec fn stage_entries(
    m: Map<Seq<u8>, Seq<u8>>,
    items: Seq<(String, Vec<u8>)>,
    permille: u32,
) -> Map<Seq<u8>, Seq<u8>>
    decreases items.len(),
{
    if items.len() == 0 {
        m
    } else {
        step_entries(stage_entries(m, items.drop_last(), permille), items.last(), permille)
    }
}

/// How many items the stage counts as failed.
pub open spec fn stage_failures(
    m: Map<Seq<u8>, Seq<u8>>,
    items: Seq<(String, Vec<u8>)>,
    permille: u32,
) -> int
    decreases items.len(),
{
    if items.len() == 0 {
        0
    } else {
        stage_failures(m, items.drop_last(), permille) + if step_fails(
            stage_entries(m, items.drop_last(), permille),
            items.last(),
            permille,
        ) {
            1int
        } else {
            0int
        }
    }
}

/// How many items the stage computes a hash for.
pub open spec fn stage_computed(
    m: Map<Seq<u8>, Seq<u8>>,
    items: Seq<(String, Vec<u8>)>,
    permille: u32,
) -> int
    decreases items.len(),
{
    if items.len() == 0 {
        0
    } else {
        stage_computed(m, items.drop_last(), permille) + if step_computes(
            stage_entries(m, items.drop_last(), permille),
            items.last(),
            permille,
        ) {
            1int
        } else {
            0int
        }
    }
}

/// What the hashing stage reports: how many images failed to hash, and how
/// many hashes were computed (rather than found in the cache).
#[derive(Clone, Copy, Debug, PartialEq, Eq, Structural)]
pub struct HashStageReport {
    pub failed: u64,
    pub computed: u64,
}

/// The hashing stage: walk the items in order, skip every path already in
/// the cache, compute and store the sampled hash of the rest, and count
/// the per-image failures. With `do_reset` the cache is cleared first. An
/// invalid sample fraction is refused before the cache is touched.
pub fn insert_hashes(
    store: &mut HashStore,
    items: &Vec<(String, Vec<u8>)>,
    do_reset: bool,
    sample_permille: u32,
) -> (r: Result<HashStageReport, AppError>)
    ensures
        match r {
            Ok(rep) => {
                let m0 = if do_reset {
                    Map::<Seq<u8>, Seq<u8>>::empty()
                } else {
                    old(store).entries()
                };
                &&& fraction_valid(sample_permille)
                &&& final(store).entries() == stage_entries(m0, items@, sample_permille)
                &&& rep.failed as int == stage_failures(m0, items@, sample_permille)
                &&& rep.computed as int == stage_computed(m0, items@, sample_permille)
            },
            Err(e) => {
                if !fraction_valid(sample_permille) {
                    &&& e == AppError::InvalidParameter
                    &&& final(store).entries() == old(store).entries()
                } else {
                    let m0 = if do_reset {
                        Map::<Seq<u8>, Seq<u8>>::empty()
                    } else {
                        old(store).entries()
                    };
                    &&& e == AppError::StoreError
                    &&& ((do_reset && within_entries(final(store).entries(), old(store).entries()))
                        || (exists|j: int|
                        #![trigger items@.take(j)]
                        0 <= j <= items@.len() && final(store).entries() == stage_entries(
                            m0,
                            items@.take(j),
                            sample_permille,
                        )))
                }
            },
        },
{
    if sample_permille < 1 || sample_permille > 1000 {
        return Err(AppError::InvalidParameter);
    }
    if do_reset {
        match store.clear() {
            Ok(u) => {},
            Err(e) => {
                proof {
                    assert(within_entries(store.entries(), old(store).entries()));
                }
                return Err(e);
            },
        }
    }
    let ghost m0: Map<Seq<u8>, Seq<u8>> = store.entries();
    let mut failed: u64 = 0;
    let mut computed: u64 = 0;
    let mut j: usize = 0;
    while j < items.len()
        invariant
            m0 == (if do_reset {
                Map::<Seq<u8>, Seq<u8>>::empty()
            } else {
                old(store).entries()
            }),
            1 <= sample_permille <= 1000,
            j <= items@.len(),
            store.entries() == stage_entries(m0, items@.take(j as int), sample_permille),
            failed as int == stage_failures(m0, items@.take(j as int), sample_permille),
            computed as int == stage_computed(m0, items@.take(j as int), sample_permille),
            failed as int + computed as int <= j as int,
        decreases items@.len() - j,
    {
        let ghost pre: Map<Seq<u8>, Seq<u8>> = store.entries();
        let path: &String = &items[j].0;
        let raw: &Vec<u8> = &items[j].1;
        let key: Vec<u8> = path.as_str().as_bytes_vec();
        if key.len() < 1 || key.len() > 65535 {
            failed = failed + 1;
        } else {
            let cached: bool = match store.get(&key) {
                Ok(o) => o.is_some(),
                Err(e) => {
                    proof {
                        assert(store.entries() == stage_entries(
                            m0,
                            items@.take(j as int),
                            sample_permille,
                        ));
                        assert(exists|j2: int|
                            #![trigger items@.take(j2)]
                            0 <= j2 <= items@.len() && store.entries() == stage_entries(
                                m0,
                                items@.take(j2),
                                sample_permille,
                            ));
                    }
                    return Err(e);
                },
            };
            if !cached {
                let handle = Image { path: path.clone() };
                match handle.hash(raw, sample_permille) {
                    Ok(hv) => {
                        let enc = encode_hash(hv);
                        match store.insert(&key, &enc) {
                            Ok(u) => {},
                            Err(e) => {
                                proof {
                                    assert(store.entries() == stage_entries(
                                        m0,
                                        items@.take(j as int),
                                        sample_permille,
                                    ));
                                    assert(exists|j2: int|
                                        #![trigger items@.take(j2)]
                                        0 <= j2 <= items@.len() && store.entries()
                                            == stage_entries(
                                            m0,
                                            items@.take(j2),
                                            sample_permille,
                                        ));
                                }
                                return Err(e);
                            },
                        }
                        computed = computed + 1;
                    },
                    Err(_) => {
                        failed = failed + 1;
                    },
                }
            }
        }
        proof {
            assert(items@.take(j + 1).drop_last() =~= items@.take(j as int));
            assert(items@.take(j + 1).last() == items@[j as int]);
        }
        j = j + 1;
    }
    proof {
        assert(items@.take(items@.len() as int) =~= items@);
    }
    Ok(HashStageReport { failed, computed })
}

proof fn lemma_step_monotone(
    m: Map<Seq<u8>, Seq<u8>>,
    item: (String, Vec<u8>),
    permille: u32,
    k: Seq<u8>,
)
    requires
        m.contains_key(k),
    ensures
        step_entries(m, item, permille).contains_key(k),
{
}

proof fn lemma_stage_covers(
    m: Map<Seq<u8>, Seq<u8>>,
    items: Seq<(String, Vec<u8>)>,
    permille: u32,
)
    ensures
        forall|i: int|
            0 <= i < items.len() && item_computable(#[trigger] items[i], permille)
                ==> stage_entries(m, items, permille).contains_key(key_of(items[i].0@)),
    decreases items.len(),
{
    if items.len() > 0 {
        lemma_stage_covers(m, items.drop_last(), permille);
        let pre = stage_entries(m, items.drop_last(), permille);
        assert forall|i: int|
            0 <= i < items.len() && item_computable(#[trigger] items[i], permille) implies
            stage_entries(m, items, permille).contains_key(key_of(items[i].0@)) by {
            if i < items.len() - 1 {
                assert(items.drop_last()[i] == items[i]);
                lemma_step_monotone(pre, items.last(), permille, key_of(items[i].0@));
            } else {
                assert(items.last() == items[i]);
            }
        }
    }
}

/// Re-running the hashing stage over items whose hashable paths are all
/// already cached recomputes nothing and leaves the cache untouched.
pub proof fn lemma_stage_stable(
    m: Map<Seq<u8>, Seq<u8>>,
    items: Seq<(String, Vec<u8>)>,
    permille: u32,
)
    requires
        forall|i: int|
            0 <= i < items.len() && item_computable(#[trigger] items[i], permille)
                ==> m.contains_key(key_of(items[i].0@)),
    ensures
        stage_entries(m, items, permille) == m,
        stage_computed(m, items, permille) == 0,
    decreases items.len(),
{
    if items.len() > 0 {
        assert forall|i: int|
            0 <= i < items.drop_last().len() && item_computable(
                #[trigger] items.drop_last()[i],
                permille,
            ) implies m.contains_key(key_of(items.drop_last()[i].0@)) by {
            assert(items.drop_last()[i] == items[i]);
        }
        lemma_stage_stable(m, items.drop_last(), permille);
        assert(items.last() == items[items.len() - 1]);
    }
}

/// Cache incrementality: a second run of the hashing stage over the same
/// items computes zero hashes and yields identical cache contents.
pub proof fn lemma_stage_idempotent(
    m: Map<Seq<u8>, Seq<u8>>,
    items: Seq<(String, Vec<u8>)>,
    permille: u32,
)
    ensures
        stage_entries(stage_entries(m, items, permille), items, permille) == stage_entries(
            m,
            items,
            permille,
        ),
        stage_computed(stage_entries(m, items, permille), items, permille) == 0,
{
    lemma_stage_covers(m, items, permille);
    lemma_stage_stable(stage_entries(m, items, permille), items, permille);
}

/// Relies on `String::from_utf8`: succeeds exactly on valid UTF-8, and
/// yields the characters those bytes encode.
#[verifier::external_body]
fn bytes_to_string(b: &Vec<u8>) -> (r: Option<String>)
    ensures
        match r {
            Some(s) => valid_utf8(b@) && s@ == decode_utf8(b@),
            None => !valid_utf8(b@),
        },
{
    match String::from_utf8(b.clone()) {
        Ok(s) => Some(s),
        Err(_) => None,
    }
}

/// The readable records of a listing, in listing order: each value that
/// decodes as a hash, under a key that decodes as UTF-8; corrupt records
/// are skipped, never fatal.
pub open spec fn dec_pairs(es: Seq<(Vec<u8>, Vec<u8>)>) -> Seq<(Seq<char>, u64)>
    decreases es.len(),
{
    if es.len() == 0 {
        Seq::empty()
    } else {
        let pre = dec_pairs(es.drop_last());
        let k = es.last().0@;
        if !valid_utf8(k) {
            pre
        } else {
            match decoded_hash(es.last().1@) {
                Some(h) => pre.push((decode_utf8(k), h)),
                None => pre,
            }
        }
    }
}

/// The paths recorded with hash `h`, in record order.
pub open spec fn paths_with(dec: Seq<(Seq<char>, u64)>, h: u64) -> Seq<Seq<char>>
    decreases dec.len(),
{
    if dec.len() == 0 {
        Seq::empty()
    } else {
        let pre = paths_with(dec.drop_last(), h);
        if dec.last().1 == h {
            pre.push(dec.last().0)
        } else {
            pre
        }
    }
}

/// The distinct hashes of the records, each at its first occurrence.
pub open spec fn hash_order(dec: Seq<(Seq<char>, u64)>) -> Seq<u64>
    decreases dec.len(),
{
    if dec.len() == 0 {
        Seq::empty()
    } else {
        let pre = hash_order(dec.drop_last());
        if pre.contains(dec.last().1) {
            pre
        } else {
            pre.push(dec.last().1)
        }
    }
}

/// The duplicate buckets: one group per hash, in first-occurrence order,
/// keeping only the hashes shared by at least two paths.
pub open spec fn groups_of(dec: Seq<(Seq<char>, u64)>, order: Seq<u64>) -> Seq<
    (u64, Seq<Seq<char>>),
>
    decreases order.len(),
{
    if order.len() == 0 {
        Seq::empty()
    } else {
        let pre = groups_of(dec, order.drop_last());
        let h = order.last();
        if paths_with(dec, h).len() >= 2 {
            pre.push((h, paths_with(dec, h)))
        } else {
            pre
        }
    }
}

/// The exact-duplicate groups read off a listing of the cache.
pub open spec fn duplicate_groups_of(es: Seq<(Vec<u8>, Vec<u8>)>) -> Seq<(u64, Seq<Seq<char>>)> {
    groups_of(dec_pairs(es), hash_order(dec_pairs(es)))
}

/// A sequence of records is the listing of map `m`: its keys are exactly
/// the keys of `m`, in strictly ascending byte order, with their values.
pub open spec fn is_listing_of(m: Map<Seq<u8>, Seq<u8>>, es: Seq<(Vec<u8>, Vec<u8>)>) -> bool {
    &&& forall|i: int| 0 <= i < es.len() ==> m.contains_key(#[trigger] es[i].0@) && m[es[i].0@] == es[i].1@
    &&& forall|k: Seq<u8>| m.contains_key(k) ==> exists|i: int| 0 <= i < es.len() && #[trigger] es[i].0@ == k
    &&& forall|i: int, j: int| 0 <= i < j < es.len() ==> bytes_lt(#[trigger] es[i].0@, #[trigger] es[j].0@)
}

/// Whether an executable group list denotes the mathematical one.
pub open spec fn groups_match(gs: Seq<(u64, Vec<String>)>, spec_gs: Seq<(u64, Seq<Seq<char>>)>) -> bool {
    &&& gs.len() == spec_gs.len()
    &&& forall|i: int|
        0 <= i < gs.len() ==> (#[trigger] gs[i]).0 == spec_gs[i].0 && gs[i].1.deep_view()
            == spec_gs[i].1
}

fn contains_hash(v: &Vec<u64>, h: u64) -> (r: bool)
    ensures
        r == v@.contains(h),
{
    let mut q: usize = 0;
    while q < v.len()
        invariant
            q <= v@.len(),
            forall|i: int| 0 <= i < q ==> v@[i] != h,
        decreases v@.len() - q,
    {
        if v[q] == h {
            return true;
        }
        q = q + 1;
    }
    proof {
        assert(!v@.contains(h));
    }
    false
}

/// Invert a cache listing into its exact-duplicate groups: bucket the
/// readable records by hash and keep the buckets with at least two paths.
pub fn group_entries(es: &Vec<(Vec<u8>, Vec<u8>)>) -> (r: Vec<(u64, Vec<String>)>)
    ensures
        groups_match(r@, duplicate_groups_of(es@)),
{
    let ghost gdec: Seq<(Seq<char>, u64)> = dec_pairs(es@);
    let mut dec: Vec<(String, u64)> = Vec::new();
    let mut t: usize = 0;
    while t < es.len()
        invariant
            t <= es@.len(),
            dec@.len() == dec_pairs(es@.take(t as int)).len(),
            forall|i: int|
                0 <= i < dec@.len() ==> (#[trigger] dec@[i]).0@ == dec_pairs(
                    es@.take(t as int),
                )[i].0 && dec@[i].1 == dec_pairs(es@.take(t as int))[i].1,
        decreases es@.len() - t,
    {
        let ghost pre: Seq<(Seq<char>, u64)> = dec_pairs(es@.take(t as int));
        match decode_hash(&es[t].1) {
            Some(h) => {
                match bytes_to_string(&es[t].0) {
                    Some(s) => {
                        dec.push((s, h));
                    },
                    None => {},
                }
            },
            None => {},
        }
        proof {
            assert(es@.take(t + 1).drop_last() =~= es@.take(t as int));
            assert(es@.take(t + 1).last() == es@[t as int]);
        }
        t = t + 1;
    }
    proof {
        assert(es@.take(es@.len() as int) =~= es@);
        assert(dec@.len() == gdec.len());
    }
    let mut order: Vec<u64> = Vec::new();
    let mut t2: usize = 0;
    while t2 < dec.len()
        invariant
            t2 <= dec@.len(),
            dec@.len() == gdec.len(),
            forall|i: int|
                0 <= i < dec@.len() ==> (#[trigger] dec@[i]).0@ == gdec[i].0 && dec@[i].1
                    == gdec[i].1,
            order@ == hash_order(gdec.take(t2 as int)),
        decreases dec@.len() - t2,
    {
        let h = dec[t2].1;
        let found = contains_hash(&order, h);
        if !found {
            order.push(h);
        }
        proof {
            assert(gdec.take(t2 + 1).drop_last() =~= gdec.take(t2 as int));
            assert(gdec.take(t2 + 1).last() == gdec[t2 as int]);
        }
        t2 = t2 + 1;
    }
    proof {
        assert(gdec.take(gdec.len() as int) =~= gdec);
    }
    let mut out: Vec<(u64, Vec<String>)> = Vec::new();
    let mut q: usize = 0;
    while q < order.len()
        invariant
            q <= order@.len(),
            dec@.len() == gdec.len(),
            forall|i: int|
                0 <= i < dec@.len() ==> (#[trigger] dec@[i]).0@ == gdec[i].0 && dec@[i].1
                    == gdec[i].1,
            order@ == hash_order(gdec),
            groups_match(out@, groups_of(gdec, order@.take(q as int))),
        decreases order@.len() - q,
    {
        let h = order[q];
        let mut members: Vec<String> = Vec::new();
        let mut t3: usize = 0;
        while t3 < dec.len()
            invariant
                t3 <= dec@.len(),
                dec@.len() == gdec.len(),
                forall|i: int|
                    0 <= i < dec@.len() ==> (#[trigger] dec@[i]).0@ == gdec[i].0 && dec@[i].1
                        == gdec[i].1,
                members@.len() == paths_with(gdec.take(t3 as int), h).len(),
                forall|i: int|
                    0 <= i < members@.len() ==> (#[trigger] members@[i])@ == paths_with(
                        gdec.take(t3 as int),
                        h,
                    )[i],
            decreases dec@.len() - t3,
        {
            if dec[t3].1 == h {
                members.push(dec[t3].0.clone());
            }
            proof {
                assert(gdec.take(t3 + 1).drop_last() =~= gdec.take(t3 as int));
                assert(gdec.take(t3 + 1).last() == gdec[t3 as int]);
            }
            t3 = t3 + 1;
        }
        proof {
            assert(gdec.take(gdec.len() as int) =~= gdec);
            assert(members.deep_view() =~= paths_with(gdec, h));
        }
        if members.len() >= 2 {
            out.push((h, members));
        }
        proof {
            assert(order@.take(q + 1).drop_last() =~= order@.take(q as int));
            assert(order@.take(q + 1).last() == order@[q as int]);
        }
        q = q + 1;
    }
    proof {
        assert(order@.take(order@.len() as int) =~= order@);
    }
    out
}

/// Stream the cache and invert path -> hash into hash -> paths, keeping
/// only the hashes that at least two paths share. Path order inside a
/// group follows the cache's iteration order.
pub fn get_duplicates(store: &HashStore) -> (r: Result<Vec<(u64, Vec<String>)>, AppError>)
    ensures
        match r {
            Ok(gs) => exists|es: Seq<(Vec<u8>, Vec<u8>)>|
                #![auto]
                is_listing_of(store.entries(), es) && groups_match(gs@, duplicate_groups_of(es)),
            Err(e) => e == AppError::StoreError,
        },
{
    let es = match store.iter_entries() {
        Ok(es) => es,
        Err(e) => {
            return Err(e);
        },
    };
    let gs = group_entries(&es);
    proof {
        assert(is_listing_of(store.entries(), es@) && groups_match(
            gs@,
            duplicate_groups_of(es@),
        ));
    }
    Ok(gs)
}

/// Every exact-duplicate group read off a listing has at least two
/// members, and no two groups share a hash.
pub proof fn lemma_duplicate_groups_minimal(es: Seq<(Vec<u8>, Vec<u8>)>)
    ensures
        forall|g: int|
            0 <= g < duplicate_groups_of(es).len() ==> (#[trigger] duplicate_groups_of(
                es,
            )[g]).1.len() >= 2,
        forall|g: int, g2: int|
            0 <= g < g2 < duplicate_groups_of(es).len() ==> (#[trigger] duplicate_groups_of(
                es,
            )[g]).0 != (#[trigger] duplicate_groups_of(es)[g2]).0,
{
    lemma_hash_order_distinct(dec_pairs(es));
    lemma_groups_minimal(dec_pairs(es), hash_order(dec_pairs(es)));
}

proof fn lemma_groups_minimal(dec: Seq<(Seq<char>, u64)>, order: Seq<u64>)
    requires
        forall|i: int, j: int| 0 <= i < j < order.len() ==> order[i] != order[j],
    ensures
        forall|g: int|
            0 <= g < groups_of(dec, order).len() ==> (#[trigger] groups_of(dec, order)[g]).1.len()
                >= 2,
        forall|g: int, g2: int|
            0 <= g < g2 < groups_of(dec, order).len() ==> (#[trigger] groups_of(dec, order)[g]).0
                != (#[trigger] groups_of(dec, order)[g2]).0,
    decreases order.len(),
{
    if order.len() > 0 {
        assert forall|i: int, j: int|
            0 <= i < j < order.drop_last().len() implies order.drop_last()[i]
            != order.drop_last()[j] by {
            assert(order.drop_last()[i] == order[i] && order.drop_last()[j] == order[j]);
        }
        lemma_groups_minimal(dec, order.drop_last());
        let pre = groups_of(dec, order.drop_last());
        if paths_with(dec, order.last()).len() >= 2 {
            assert forall|g: int, g2: int|
                0 <= g < g2 < groups_of(dec, order).len() implies (#[trigger] groups_of(
                dec,
                order,
            )[g]).0 != (#[trigger] groups_of(dec, order)[g2]).0 by {
                if g2 == groups_of(dec, order).len() - 1 {
                    lemma_group_hash_in_order(dec, order.drop_last(), g);
                    assert(order.drop_last()[choose|oi: int|
                        0 <= oi < order.drop_last().len() && order.drop_last()[oi] == pre[g].0]
                        == order[order.len() - 1] ==> false);
                }
            }
        }
    }
}

/// The hash of every group appears in the order list it was built from.
proof fn lemma_group_hash_in_order(dec: Seq<(Seq<char>, u64)>, order: Seq<u64>, g: int)
    requires
        0 <= g < groups_of(dec, order).len(),
    ensures
        exists|oi: int| 0 <= oi < order.len() && order[oi] == (#[trigger] groups_of(dec, order)[g]).0,
    decreases order.len(),
{
    if order.len() > 0 {
        let pre = groups_of(dec, order.drop_last());
        if paths_with(dec, order.last()).len() >= 2 && g == groups_of(dec, order).len() - 1 {
            assert(order[order.len() - 1] == groups_of(dec, order)[g].0);
        } else {
            lemma_group_hash_in_order(dec, order.drop_last(), g);
            let oi = choose|oi: int|
                0 <= oi < order.drop_last().len() && order.drop_last()[oi] == pre[g].0;
            assert(order[oi] == pre[g].0);
            assert(groups_of(dec, order)[g] == pre[g]);
        }
    }
}

/// The order list built by the grouper never repeats a hash.
proof fn lemma_hash_order_distinct(dec: Seq<(Seq<char>, u64)>)
    ensures
        forall|i: int, j: int|
            0 <= i < j < hash_order(dec).len() ==> hash_order(dec)[i] != hash_order(dec)[j],
    decreases dec.len(),
{
    if dec.len() > 0 {
        lemma_hash_order_distinct(dec.drop_last());
        let pre = hash_order(dec.drop_last());
        if !pre.contains(dec.last().1) {
            assert forall|i: int, j: int|
                0 <= i < j < hash_order(dec).len() implies hash_order(dec)[i] != hash_order(
                dec,
            )[j] by {
                if j == hash_order(dec).len() - 1 {
                    assert(pre[i] == hash_order(dec)[i]);
                    assert(pre.contains(pre[i]));
                }
            }
        }
    }
}

/// The hashing stage adds no key of its own making: every key of the
/// result was in the starting contents or belongs to one of the items.
proof fn lemma_stage_domain(
    m: Map<Seq<u8>, Seq<u8>>,
    items: Seq<(String, Vec<u8>)>,
    permille: u32,
)
    ensures
        forall|k: Seq<u8>|
            #[trigger] stage_entries(m, items, permille).contains_key(k) ==> m.contains_key(k)
                || exists|i: int| 0 <= i < items.len() && key_of((#[trigger] items[i]).0@) == k,
    decreases items.len(),
{
    if items.len() > 0 {
        lemma_stage_domain(m, items.drop_last(), permille);
        let pre = stage_entries(m, items.drop_last(), permille);
        assert forall|k: Seq<u8>| #[trigger]
            stage_entries(m, items, permille).contains_key(k) implies m.contains_key(k) || exists|
            i: int,
        |
            0 <= i < items.len() && key_of((#[trigger] items[i]).0@) == k by {
            if pre.contains_key(k) {
                if !m.contains_key(k) {
                    let i0 = choose|i: int|
                        0 <= i < items.drop_last().len() && key_of(
                            (#[trigger] items.drop_last()[i]).0@,
                        ) == k;
                    assert(items[i0] == items.drop_last()[i0]);
                    assert(key_of((items[i0]).0@) == k);
                }
            } else {
                assert(k == key_of((items[items.len() - 1]).0@));
            }
        }
    }
}

/// A refused-format file in the path list is counted as exactly one more
/// failure and changes nothing else: when its path is new to the cache
/// and to the rest of the list, the final contents and the computed count
/// are those of the same run without it.
pub proof fn lemma_heic_appended(
    m: Map<Seq<u8>, Seq<u8>>,
    items: Seq<(String, Vec<u8>)>,
    x: (String, Vec<u8>),
    permille: u32,
)
    requires
        is_heic_path(key_of(x.0@)),
        !m.contains_key(key_of(x.0@)),
        forall|i: int| 0 <= i < items.len() ==> key_of((#[trigger] items[i]).0@) != key_of(x.0@),
    ensures
        stage_entries(m, items.push(x), permille) == stage_entries(m, items, permille),
        stage_computed(m, items.push(x), permille) == stage_computed(m, items, permille),
        stage_failures(m, items.push(x), permille) == stage_failures(m, items, permille) + 1,
{
    lemma_stage_domain(m, items, permille);
    let me = stage_entries(m, items, permille);
    assert(!me.contains_key(key_of(x.0@)));
    assert(items.push(x).drop_last() =~= items);
    assert(items.push(x).last() == x);
    assert(!item_computable(x, permille));
    assert(step_fails(me, x, permille));
    assert(!step_computes(me, x, permille));
    assert(step_entries(me, x, permille) == me);
}

/// The duplicate buckets of a three-record listing whose first two
/// records carry one hash and whose third carries another: exactly one
/// group, holding the first two paths in listing order; the third path
/// stands in no group.
pub proof fn lemma_grouper_three_records(
    ka: Vec<u8>,
    va: Vec<u8>,
    kb: Vec<u8>,
    vb: Vec<u8>,
    kc: Vec<u8>,
    vc: Vec<u8>,
    h: u64,
    h2: u64,
)
    requires
        valid_utf8(ka@),
        valid_utf8(kb@),
        valid_utf8(kc@),
        va@ == le_bytes_of(h),
        vb@ == le_bytes_of(h),
        vc@ == le_bytes_of(h2),
        h != h2,
    ensures
        duplicate_groups_of(seq![(ka, va), (kb, vb), (kc, vc)]).len() == 1,
        duplicate_groups_of(seq![(ka, va), (kb, vb), (kc, vc)])[0].0 == h,
        duplicate_groups_of(seq![(ka, va), (kb, vb), (kc, vc)])[0].1 =~= seq![
            decode_utf8(ka@),
            decode_utf8(kb@),
        ],
{
    lemma_hash_codec_round_trip(h);
    lemma_hash_codec_round_trip(h2);
    let es3 = seq![(ka, va), (kb, vb), (kc, vc)];
    let es2 = seq![(ka, va), (kb, vb)];
    let es1 = seq![(ka, va)];
    let es0 = Seq::<(Vec<u8>, Vec<u8>)>::empty();
    assert(es1.drop_last() =~= es0 && es2.drop_last() =~= es1 && es3.drop_last() =~= es2);
    assert(es1.last() == (ka, va) && es2.last() == (kb, vb) && es3.last() == (kc, vc));
    let pa = decode_utf8(ka@);
    let pb = decode_utf8(kb@);
    let pc = decode_utf8(kc@);
    assert(decoded_hash(va@) == Some(h) && decoded_hash(vb@) == Some(h) && decoded_hash(vc@)
        == Some(h2));
    let d0 = dec_pairs(es0);
    let d1 = dec_pairs(es1);
    let d2 = dec_pairs(es2);
    let d3 = dec_pairs(es3);
    assert(d0 =~= Seq::<(Seq<char>, u64)>::empty());
    assert(d1 =~= seq![(pa, h)]);
    assert(d2 =~= seq![(pa, h), (pb, h)]);
    assert(d3 =~= seq![(pa, h), (pb, h), (pc, h2)]);
    assert(d1.drop_last() =~= d0 && d2.drop_last() =~= d1 && d3.drop_last() =~= d2);
    assert(d1.last() == (pa, h) && d2.last() == (pb, h) && d3.last() == (pc, h2));
    assert(hash_order(d0) =~= Seq::<u64>::empty());
    assert(!hash_order(d0).contains(h));
    assert(hash_order(d1) =~= seq![h]);
    assert(hash_order(d1)[0] == h);
    assert(hash_order(d1).contains(h));
    assert(hash_order(d2) =~= seq![h]);
    assert(!hash_order(d2).contains(h2));
    assert(hash_order(d3) =~= seq![h, h2]);
    assert(paths_with(d0, h) =~= Seq::<Seq<char>>::empty());
    assert(paths_with(d1, h) =~= seq![pa]);
    assert(paths_with(d2, h) =~= seq![pa, pb]);
    assert(paths_with(d3, h) =~= seq![pa, pb]);
    assert(paths_with(d0, h2) =~= Seq::<Seq<char>>::empty());
    assert(paths_with(d1, h2) =~= Seq::<Seq<char>>::empty());
    assert(paths_with(d2, h2) =~= Seq::<Seq<char>>::empty());
    assert(paths_with(d3, h2) =~= seq![pc]);
    let ord = hash_order(d3);
    let o1 = seq![h];
    let o0 = Seq::<u64>::empty();
    assert(ord.drop_last() =~= o1 && o1.drop_last() =~= o0);
    assert(ord.last() == h2 && o1.last() == h);
    assert(paths_with(d3, h2).len() == 1);
    assert(paths_with(d3, h).len() == 2);
    assert(groups_of(d3, o0) =~= Seq::<(u64, Seq<Seq<char>>)>::empty());
    assert(groups_of(d3, o1) =~= seq![(h, paths_with(d3, h))]);
    assert(groups_of(d3, ord) =~= groups_of(d3, o1));
    assert(duplicate_groups_of(es3).len() == 1);
    assert(duplicate_groups_of(es3)[0].0 == h);
    assert(duplicate_groups_of(es3)[0].1 =~= seq![pa, pb]);
}

} // verus!
