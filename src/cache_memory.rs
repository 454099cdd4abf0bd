use vstd::prelude::*;
use dashmap::DashMap;
use dashmap::mapref::entry::Entry;
use crate::error::ServerError;
use crate::format::{ChainEntry, algo_name};
use crate::hash::{HashAlgorithm, deterministic, digest_of};
use crate::text::{byte_text, hex_of};
use vstd::utf8::encode_utf8;

verus! {

#[verifier::external_type_specification]
#[verifier::external_body]
#[verifier::reject_recursive_types(K)]
#[verifier::reject_recursive_types(V)]
#[verifier::reject_recursive_types(S)]
pub struct ExDashMap<K, V, S>(DashMap<K, V, S>);

/// A recovered password with the hex digest it was recovered from.
#[derive(Clone, Debug)]
pub struct CrackedPassword {
    pub hash: String,
    pub password: String,
}

impl CrackedPassword {
    /// A cracked password from its digest text and plaintext.
    pub fn new(hash: String, password: String) -> (r: Self)
        ensures
            r.hash@ == hash@,
            r.password@ == password@,
    {
        CrackedPassword { hash, password }
    }
}

/// A chain as a pair of byte strings.
pub open spec fn chain_view(c: ChainEntry) -> (Seq<u8>, Seq<u8>) {
    (c.start@, c.end@)
}

/// A list of chains as pairs of byte strings.
pub open spec fn chains_view(v: Seq<ChainEntry>) -> Seq<(Seq<u8>, Seq<u8>)> {
    v.map_values(|c: ChainEntry| chain_view(c))
}

/// A bucket key: algorithm name, password length, chain length.
pub open spec fn key_view(k: (String, u8, u32)) -> (Seq<char>, u8, u32) {
    (k.0@, k.1, k.2)
}

/// Chain buckets by algorithm name, password length and chain length.
pub type BucketMap = Map<(Seq<char>, u8, u32), Seq<(Seq<u8>, Seq<u8>)>>;

/// Cracked passwords by algorithm name and hex digest: the digest text and
/// the plaintext.
pub type CrackedMap = Map<(Seq<char>, Seq<char>), (Seq<char>, Seq<char>)>;

/// The chains of bucket `k`; none when there is no such bucket.
pub open spec fn bucket_of(m: BucketMap, k: (Seq<char>, u8, u32)) -> Seq<(Seq<u8>, Seq<u8>)> {
    if m.dom().contains(k) {
        m[k]
    } else {
        Seq::empty()
    }
}

/// The chains held in a bucket map, by key, in upload order.
pub uninterp spec fn bucket_contents(m: DashMap<(String, u8, u32), Vec<ChainEntry>>) -> BucketMap;

/// The entries held in a cracked-password map.
pub uninterp spec fn cracked_contents(m: DashMap<(String, String), CrackedPassword>) -> CrackedMap;

/// Relies on `DashMap::new`: a map with no entries.
#[verifier::external_body]
fn buckets_new() -> (r: DashMap<(String, u8, u32), Vec<ChainEntry>>)
    ensures
        bucket_contents(r) == BucketMap::empty(),
{
    DashMap::new()
}

/// Relies on `DashMap::entry` and `Entry::or_default`: the bucket of `key`,
/// created empty when missing, gets `chain` at its end; no other bucket
/// changes.
#[verifier::external_body]
fn bucket_append(m: &mut DashMap<(String, u8, u32), Vec<ChainEntry>>, key: (String, u8, u32), chain: ChainEntry)
    ensures
        bucket_contents(*final(m)) == bucket_contents(*old(m)).insert(
            key_view(key),
            bucket_of(bucket_contents(*old(m)), key_view(key)).push(chain_view(chain)),
        ),
{
    m.entry(key).or_default().push(chain);
}

/// Relies on `DashMap::get`: a copy of the bucket of `key`, if there is one.
#[verifier::external_body]
fn bucket_get(m: &DashMap<(String, u8, u32), Vec<ChainEntry>>, key: &(String, u8, u32)) -> (r: Option<Vec<ChainEntry>>)
    ensures
        r is Some <==> bucket_contents(*m).dom().contains(key_view(*key)),
        r matches Some(v) ==> chains_view(v@) == bucket_contents(*m)[key_view(*key)],
{
    match m.get(key) {
        Some(entry) => Some(entry.value().clone()),
        None => None,
    }
}

/// Relies on `DashMap::new`: a map with no entries.
#[verifier::external_body]
fn cracked_new() -> (r: DashMap<(String, String), CrackedPassword>)
    ensures
        cracked_contents(r) == CrackedMap::empty(),
{
    DashMap::new()
}

/// Relies on `DashMap::entry`: when `key` is absent, `value` is stored under
/// it and the result is true; when it is present, nothing changes and the
/// result is false.
#[verifier::external_body]
fn cracked_insert_absent(m: &mut DashMap<(String, String), CrackedPassword>, key: (String, String), value: CrackedPassword) -> (r: bool)
    ensures
        r == !cracked_contents(*old(m)).dom().contains((key.0@, key.1@)),
        r ==> cracked_contents(*final(m)) == cracked_contents(*old(m)).insert((key.0@, key.1@), (value.hash@, value.password@)),
        !r ==> cracked_contents(*final(m)) == cracked_contents(*old(m)),
{
    match m.entry(key) {
        Entry::Occupied(_) => false,
        Entry::Vacant(slot) => {
            slot.insert(value);
            true
        },
    }
}

/// Relies on `DashMap::get`: a copy of the entry of `key`, if there is one.
#[verifier::external_body]
fn cracked_get(m: &DashMap<(String, String), CrackedPassword>, key: &(String, String)) -> (r: Option<CrackedPassword>)
    ensures
        r is Some <==> cracked_contents(*m).dom().contains((key.0@, key.1@)),
        r matches Some(c) ==> (c.hash@, c.password@) == cracked_contents(*m)[(key.0@, key.1@)],
{
    match m.get(key) {
        Some(entry) => Some(entry.value().clone()),
        None => None,
    }
}

/// Relies on `DashMap::iter`: each entry of the map is visited once, in no
/// set order; the keys are copied out.
#[verifier::external_body]
fn bucket_key_list(m: &DashMap<(String, u8, u32), Vec<ChainEntry>>) -> (r: Vec<(String, u8, u32)>)
    ensures
        forall|i: int| 0 <= i < r@.len() ==> bucket_contents(*m).dom().contains(key_view(#[trigger] r@[i])),
        forall|k: (Seq<char>, u8, u32)| #[trigger] bucket_contents(*m).dom().contains(k) ==> exists|i: int|
            0 <= i < r@.len() && key_view(r@[i]) == k,
        forall|i: int, j: int| 0 <= i < j < r@.len() ==> key_view(#[trigger] r@[i]) != key_view(#[trigger] r@[j]),
{
    m.iter().map(|entry| entry.key().clone()).collect()
}

/// The algorithm names held in a name map.
pub uninterp spec fn known_contents(m: DashMap<String, ()>) -> Set<Seq<char>>;

/// Relies on `DashMap::new`: a map with no entries.
#[verifier::external_body]
fn known_new() -> (r: DashMap<String, ()>)
    ensures
        known_contents(r) == Set::<Seq<char>>::empty(),
{
    DashMap::new()
}

/// Relies on `DashMap::insert`: afterwards `name` is held, and nothing else
/// changes.
#[verifier::external_body]
fn known_insert(m: &mut DashMap<String, ()>, name: String)
    ensures
        known_contents(*final(m)) == known_contents(*old(m)).insert(name@),
{
    m.insert(name, ());
}

/// Relies on `DashMap::contains_key`: whether `name` is held.
#[verifier::external_body]
fn known_contains(m: &DashMap<String, ()>, name: &str) -> (r: bool)
    ensures
        r == known_contents(*m).contains(name@),
{
    m.contains_key(name)
}

fn same_text(a: &String, b: &str) -> (r: bool)
    ensures
        r == (a@ == b@),
{
    let b2 = b.to_owned();
    *a == b2
}

/// Whether `v` lists every bucket of algorithm `a` and password length `p`
/// in `m`, once each, with its chains.
pub open spec fn buckets_listed(m: BucketMap, a: Seq<char>, p: u8, v: Seq<(u32, Vec<ChainEntry>)>) -> bool {
    &&& v.len() > 0
    &&& forall|t: int| 0 <= t < v.len() ==> m.dom().contains((a, p, #[trigger] v[t].0)) && chains_view(v[t].1@) == m[(a, p, v[t].0)]
    &&& forall|l: u32| #[trigger] m.dom().contains((a, p, l)) ==> exists|t: int| 0 <= t < v.len() && v[t].0 == l
    &&& forall|t: int, u: int| 0 <= t < u < v.len() ==> (#[trigger] v[t]).0 != (#[trigger] v[u]).0
}

/// The length in bytes of a text, as `str::len` reports it.
pub open spec fn text_len(s: Seq<char>) -> nat {
    (encode_utf8(s).len() as usize) as nat
}

/// The bytes a recovered password counts against the budget: the lengths of
/// its digest text and of its plaintext.
pub open spec fn entry_size(hash: Seq<char>, password: Seq<char>) -> nat {
    text_len(hash) + text_len(password)
}


/// The algorithm whose file name, read one character per byte, is `t`.
pub open spec fn text_algorithm(t: Seq<char>) -> Option<HashAlgorithm> {
    if t == byte_text(algo_name(HashAlgorithm::Md5)) {
        Some(HashAlgorithm::Md5)
    } else if t == byte_text(algo_name(HashAlgorithm::Sha256)) {
        Some(HashAlgorithm::Sha256)
    } else if t == byte_text(algo_name(HashAlgorithm::Sha3_512)) {
        Some(HashAlgorithm::Sha3_512)
    } else if t == byte_text(algo_name(HashAlgorithm::Scrypt)) {
        Some(HashAlgorithm::Scrypt)
    } else {
        None
    }
}

/// Each algorithm's name text stands for that algorithm.
pub proof fn lemma_text_algorithm(a: HashAlgorithm)
    ensures
        text_algorithm(byte_text(algo_name(a))) == Some(a),
{
    let md5 = byte_text(algo_name(HashAlgorithm::Md5));
    let sha256 = byte_text(algo_name(HashAlgorithm::Sha256));
    let sha3 = byte_text(algo_name(HashAlgorithm::Sha3_512));
    let scrypt = byte_text(algo_name(HashAlgorithm::Scrypt));
    assert(md5.len() == 3 && sha256.len() == 6 && sha3.len() == 8 && scrypt.len() == 6);
    assert(sha256[1] == (104u8 as char));
    assert(scrypt[1] == (99u8 as char));
    assert((104u8 as char) != (99u8 as char));
}

/// Whether an entry held under algorithm name `algo` is a genuine recovery:
/// when the name stands for a deterministic algorithm, the plaintext is a
/// byte string read one character per byte whose digest, in hex, is the
/// entry's digest text.
pub open spec fn genuine(algo: Seq<char>, e: (Seq<char>, Seq<char>)) -> bool {
    match text_algorithm(algo) {
        Some(a) => deterministic(a) ==> exists|p: Seq<u8>| e.1 == #[trigger] byte_text(p) && e.0 == hex_of(digest_of(a, p)),
        None => true,
    }
}

/// What admitting one recovered password `e` (digest text, plaintext) under
/// algorithm `a` makes of the held entries `m` and the counted size: the
/// entry goes in when its digest text is not yet held and its bytes fit in
/// what is left of the budget `max`; otherwise both stay as they are.
pub open spec fn offer_entry(m: CrackedMap, size: nat, max: nat, a: Seq<char>, e: (Seq<char>, Seq<char>)) -> (CrackedMap, nat) {
    let sz = entry_size(e.0, e.1);
    if size + sz <= max && !m.dom().contains((a, e.0)) {
        (m.insert((a, e.0), e), size + sz)
    } else {
        (m, size)
    }
}

/// Admitting the recovered passwords `es` one after the other, in order.
pub open spec fn offer_all(m: CrackedMap, size: nat, max: nat, a: Seq<char>, es: Seq<(Seq<char>, Seq<char>)>) -> (CrackedMap, nat)
    decreases es.len(),
{
    if es.len() == 0 {
        (m, size)
    } else {
        let prev = offer_all(m, size, max, a, es.drop_last());
        offer_entry(prev.0, prev.1, max, a, es.last())
    }
}

/// The server's in-memory store: chains by algorithm, password length and
/// chain length, and recovered passwords by algorithm and digest, with a byte
/// budget on the latter.
pub struct Cache {
    buckets: DashMap<(String, u8, u32), Vec<ChainEntry>>,
    cracked: DashMap<(String, String), CrackedPassword>,
    algorithms: DashMap<String, ()>,
    max_cache_size: usize,
    current_cache_size: usize,
}

impl Cache {
    /// The chains held, by bucket.
    pub closed spec fn chains(&self) -> BucketMap {
        bucket_contents(self.buckets)
    }

    /// The recovered passwords held.
    pub closed spec fn cracked(&self) -> CrackedMap {
        cracked_contents(self.cracked)
    }

    /// The algorithm names the cache has seen.
    pub closed spec fn known(&self) -> Set<Seq<char>> {
        known_contents(self.algorithms)
    }

    /// The bytes counted against the budget.
    pub closed spec fn size(&self) -> nat {
        self.current_cache_size as nat
    }

    /// The byte budget of recovered passwords.
    pub closed spec fn max_size(&self) -> nat {
        self.max_cache_size as nat
    }

    /// The counted size is within budget, and each recovered password is held
    /// under a seen algorithm and under its own digest text.
    pub closed spec fn wf(&self) -> bool {
        &&& self.current_cache_size <= self.max_cache_size
        &&& forall|k: (Seq<char>, Seq<char>)| #[trigger] self.cracked().dom().contains(k) ==> self.known().contains(k.0)
        &&& forall|k: (Seq<char>, Seq<char>)| #[trigger] self.cracked().dom().contains(k) ==> self.cracked()[k].0 == k.1
        &&& forall|k: (Seq<char>, Seq<char>)| #[trigger] self.cracked().dom().contains(k) ==> genuine(k.0, self.cracked()[k])
    }

    /// An empty cache with a budget of `max_cache_size` bytes.
    pub fn new_with_size(max_cache_size: usize) -> (r: Self)
        ensures
            r.wf(),
            r.chains() == BucketMap::empty(),
            r.cracked() == CrackedMap::empty(),
            r.known() == Set::<Seq<char>>::empty(),
            r.size() == 0,
            r.max_size() == max_cache_size,
    {
        Cache {
            buckets: buckets_new(),
            cracked: cracked_new(),
            algorithms: known_new(),
            max_cache_size,
            current_cache_size: 0,
        }
    }

    /// Appends a chain to the bucket of its algorithm, password length and
    /// chain length, creating the bucket when it is missing. Nothing is ever
    /// refused.
    pub fn insert_chain(&mut self, algorithm: &str, password_len: u8, num_links: u32, chain: ChainEntry)
        requires
            old(self).wf(),
        ensures
            final(self).wf(),
            final(self).chains() == old(self).chains().insert(
                (algorithm@, password_len, num_links),
                bucket_of(old(self).chains(), (algorithm@, password_len, num_links)).push(chain_view(chain)),
            ),
            final(self).cracked() == old(self).cracked(),
            final(self).known() == old(self).known().insert(algorithm@),
            final(self).size() == old(self).size(),
            final(self).max_size() == old(self).max_size(),
    {
        bucket_append(&mut self.buckets, (algorithm.to_owned(), password_len, num_links), chain);
        known_insert(&mut self.algorithms, algorithm.to_owned());
        proof {
            assert(self.cracked() == old(self).cracked());
            assert forall|k: (Seq<char>, Seq<char>)| #[trigger] self.cracked().dom().contains(k) implies self.known().contains(k.0) by {
                assert(old(self).cracked().dom().contains(k));
                assert(old(self).known().contains(k.0));
            }
        }
    }

    /// Every chain held for an algorithm and password length, one entry per
    /// chain length. Fails with `NoRainbowTableFound` when there is none.
    pub fn get_all_chains(&self, algorithm: &str, password_len: u8) -> (r: Result<Vec<(u32, Vec<ChainEntry>)>, ServerError>)
        requires
            self.wf(),
        ensures
            r is Err <==> forall|l: u32| !self.chains().dom().contains((algorithm@, password_len, l)),
            r is Err ==> r matches Err(ServerError::NoRainbowTableFound),
            r matches Ok(v) ==> buckets_listed(self.chains(), algorithm@, password_len, v@),
    {
        let keys = bucket_key_list(&self.buckets);
        let mut out: Vec<(u32, Vec<ChainEntry>)> = Vec::new();
        let ghost mut src: Seq<int> = Seq::empty();
        let mut i: usize = 0;
        while i < keys.len()
            invariant
                forall|i: int| 0 <= i < keys@.len() ==> self.chains().dom().contains(key_view(#[trigger] keys@[i])),
                forall|k: (Seq<char>, u8, u32)| #[trigger] self.chains().dom().contains(k) ==> exists|i: int|
                    0 <= i < keys@.len() && key_view(keys@[i]) == k,
                forall|i: int, j: int| 0 <= i < j < keys@.len() ==> key_view(#[trigger] keys@[i]) != key_view(#[trigger] keys@[j]),
                i <= keys@.len(),
                src.len() == out@.len(),
                forall|t: int| 0 <= t < src.len() ==> 0 <= #[trigger] src[t] < i,
                forall|t: int, u: int| 0 <= t < u < src.len() ==> #[trigger] src[t] < #[trigger] src[u],
                forall|t: int| 0 <= t < out@.len() ==> key_view(keys@[#[trigger] src[t]]) == (algorithm@, password_len, out@[t].0),
                forall|t: int| 0 <= t < out@.len() ==> self.chains().dom().contains((algorithm@, password_len, #[trigger] out@[t].0))
                    && chains_view(out@[t].1@) == self.chains()[(algorithm@, password_len, out@[t].0)],
                forall|j: int| 0 <= j < i && (#[trigger] keys@[j]).0@ == algorithm@ && keys@[j].1 == password_len
                    ==> exists|t: int| 0 <= t < out@.len() && out@[t].0 == keys@[j].2,
            decreases keys.len() - i,
        {
            let k = &keys[i];
            if same_text(&k.0, algorithm) && k.1 == password_len {
                let got = bucket_get(&self.buckets, k);
                proof {
                    assert(self.chains().dom().contains(key_view(keys@[i as int])));
                }
                match got {
                    Some(v) => {
                        let ghost before = out@;
                        out.push((k.2, v));
                        proof {
                            src = src.push(i as int);
                            assert forall|j: int| 0 <= j <= i && (#[trigger] keys@[j]).0@ == algorithm@ && keys@[j].1 == password_len
                                implies exists|t: int| 0 <= t < out@.len() && out@[t].0 == keys@[j].2 by {
                                if j == i {
                                    assert(out@[out@.len() - 1].0 == keys@[j].2);
                                } else {
                                    let t = choose|t: int| 0 <= t < before.len() && before[t].0 == keys@[j].2;
                                    assert(out@[t] == before[t]);
                                }
                            }
                            assert forall|t: int| 0 <= t < out@.len() implies key_view(keys@[#[trigger] src[t]]) == (algorithm@, password_len, out@[t].0) by {
                                if t < before.len() {
                                    assert(out@[t] == before[t]);
                                }
                            }
                            assert forall|t: int| 0 <= t < out@.len() implies self.chains().dom().contains((algorithm@, password_len, #[trigger] out@[t].0))
                                && chains_view(out@[t].1@) == self.chains()[(algorithm@, password_len, out@[t].0)] by {
                                if t < before.len() {
                                    assert(out@[t] == before[t]);
                                }
                            }
                        }
                    },
                    None => {},
                }
            }
            i += 1;
        }
        proof {
            assert forall|t: int, u: int| 0 <= t < u < out@.len() implies (#[trigger] out@[t]).0 != (#[trigger] out@[u]).0 by {
                assert(src[t] < src[u]);
                assert(key_view(keys@[src[t]]) != key_view(keys@[src[u]]));
            }
            assert forall|l: u32| #[trigger] self.chains().dom().contains((algorithm@, password_len, l)) implies exists|t: int|
                0 <= t < out@.len() && out@[t].0 == l by {
                let j = choose|j: int| 0 <= j < keys@.len() && key_view(keys@[j]) == (algorithm@, password_len, l);
                assert(keys@[j].0@ == algorithm@);
            }
        }
        if out.len() == 0 {
            proof {
                assert forall|l: u32| !self.chains().dom().contains((algorithm@, password_len, l)) by {
                    if self.chains().dom().contains((algorithm@, password_len, l)) {
                        let j = choose|j: int| 0 <= j < keys@.len() && key_view(keys@[j]) == (algorithm@, password_len, l);
                        assert(keys@[j].0@ == algorithm@);
                    }
                }
            }
            return Err(ServerError::NoRainbowTableFound);
        }
        proof {
            assert(self.chains().dom().contains((algorithm@, password_len, out@[0].0)));
        }
        Ok(out)
    }

    /// Each recovered password held is filed under its own digest text.
    pub proof fn lemma_entries_keyed(&self)
        requires
            self.wf(),
        ensures
            forall|k: (Seq<char>, Seq<char>)| #[trigger] self.cracked().dom().contains(k) ==> self.cracked()[k].0 == k.1,
            forall|k: (Seq<char>, Seq<char>)| #[trigger] self.cracked().dom().contains(k) ==> genuine(k.0, self.cracked()[k]),
    {
    }

    /// Records a recovered password under its algorithm and digest text. The
    /// entry is admitted only when its digest text is not yet held and its
    /// bytes (digest text plus plaintext) fit in what is left of the budget;
    /// otherwise nothing changes. A held entry never changes. Under the name
    /// of a deterministic algorithm, the plaintext must be a byte string read
    /// one character per byte whose digest, in hex, is the digest text.
    pub fn insert_cracked_password(&mut self, algorithm: &str, password: CrackedPassword)
        requires
            old(self).wf(),
            genuine(algorithm@, (password.hash@, password.password@)),
        ensures
            final(self).wf(),
            final(self).size() <= final(self).max_size(),
            final(self).max_size() == old(self).max_size(),
            final(self).chains() == old(self).chains(),
            forall|k: (Seq<char>, Seq<char>)| #[trigger] old(self).cracked().dom().contains(k) ==> final(self).cracked().dom().contains(k)
                && final(self).cracked()[k] == old(self).cracked()[k],
            ({
                let k = (algorithm@, password.hash@);
                let sz = entry_size(password.hash@, password.password@);
                if old(self).size() + sz <= old(self).max_size() && !old(self).cracked().dom().contains(k) {
                    &&& final(self).cracked() == old(self).cracked().insert(k, (password.hash@, password.password@))
                    &&& final(self).size() == old(self).size() + sz
                } else {
                    &&& final(self).cracked() == old(self).cracked()
                    &&& final(self).size() == old(self).size()
                }
            }),
            (final(self).cracked(), final(self).size()) == offer_entry(
                old(self).cracked(),
                old(self).size(),
                old(self).max_size(),
                algorithm@,
                (password.hash@, password.password@),
            ),
            old(self).size() + entry_size(password.hash@, password.password@) <= old(self).max_size()
                ==> final(self).known() == old(self).known().insert(algorithm@),
            old(self).size() + entry_size(password.hash@, password.password@) > old(self).max_size()
                ==> final(self).known() == old(self).known(),
    {
        let h = password.hash.as_str().len();
        let p = password.password.as_str().len();
        let max = self.max_cache_size;
        let cur = self.current_cache_size;
        if h > max || p > max - h || h + p > max - cur {
            return;
        }
        let size = h + p;
        known_insert(&mut self.algorithms, algorithm.to_owned());
        let ghost mid = *self;
        let key = (algorithm.to_owned(), password.hash.clone());
        let inserted = cracked_insert_absent(&mut self.cracked, key, password);
        if inserted {
            self.current_cache_size = cur + size;
        }
        proof {
            assert(mid.cracked() == old(self).cracked());
            assert forall|k: (Seq<char>, Seq<char>)| #[trigger] self.cracked().dom().contains(k) implies self.known().contains(k.0) by {
                if k.0 != algorithm@ {
                    assert(old(self).cracked().dom().contains(k));
                    assert(old(self).known().contains(k.0));
                }
            }
            assert forall|k: (Seq<char>, Seq<char>)| #[trigger] self.cracked().dom().contains(k) implies self.cracked()[k].0 == k.1
                && genuine(k.0, self.cracked()[k]) by {
                if old(self).cracked().dom().contains(k) {
                    assert(self.cracked()[k] == old(self).cracked()[k]);
                }
            }
        }
    }

    /// The recovered password held for an algorithm and digest text. Fails
    /// with `InvalidAlgorithm` for an algorithm the cache has never seen, and
    /// with `PasswordNotFoundInCache` for a digest it does not hold.
    pub fn get_cracked_password(&self, algorithm: &str, hash: &str) -> (r: Result<CrackedPassword, ServerError>)
        ensures
            !self.known().contains(algorithm@) <==> r matches Err(ServerError::InvalidAlgorithm),
            self.known().contains(algorithm@) && !self.cracked().dom().contains((algorithm@, hash@))
                <==> r matches Err(ServerError::PasswordNotFoundInCache),
            r is Ok <==> self.known().contains(algorithm@) && self.cracked().dom().contains((algorithm@, hash@)),
            r matches Ok(c) ==> (c.hash@, c.password@) == self.cracked()[(algorithm@, hash@)],
            self.wf() ==> (r is Ok <==> self.cracked().dom().contains((algorithm@, hash@))),
    {
        if !known_contains(&self.algorithms, algorithm) {
            return Err(ServerError::InvalidAlgorithm);
        }
        let key = (algorithm.to_owned(), hash.to_owned());
        match cracked_get(&self.cracked, &key) {
            Some(c) => Ok(c),
            None => Err(ServerError::PasswordNotFoundInCache),
        }
    }
}

} // verus!
