use vstd::prelude::*;
use crate::bytes::bytes_eq;
use crate::cache_memory::{Cache, CrackedMap, CrackedPassword, buckets_listed, genuine, lemma_text_algorithm, offer_all, text_algorithm};
use crate::crack::{buckets_view, deterministic_algorithm, find_in_buckets, find_password, lemma_find_in_buckets_sound};
use crate::error::ServerError;
use crate::format::{
    ChainEntry, algo_name, algorithm_from_name, algorithm_name, algorithm_named, digest_views,
    hash_framed, parse_hash_file, split_digests,
};
use crate::hash::{HashAlgorithm, deterministic, digest_of, digest_width};
use crate::text::{byte_text, bytes_to_text, hex_of, to_hex};

verus! {

/// Whether some pair of `v` has digest `h`.
pub open spec fn holds_digest(v: Seq<(Seq<u8>, Seq<u8>)>, h: Seq<u8>) -> bool {
    exists|i: int| 0 <= i < v.len() && v[i].0 == h
}

/// The digests with repeats left out, each at its first place.
pub open spec fn dedup(hs: Seq<Seq<u8>>) -> Seq<Seq<u8>>
    decreases hs.len(),
{
    if hs.len() == 0 {
        Seq::empty()
    } else {
        let prev = dedup(hs.drop_last());
        if prev.contains(hs.last()) {
            prev
        } else {
            prev.push(hs.last())
        }
    }
}

/// The passwords that cracking finds for the digests, once per digest, in
/// the order of the digests.
pub open spec fn cracked_set(
    algo: HashAlgorithm,
    hs: Seq<Seq<u8>>,
    bs: Seq<(u32, Seq<(Seq<u8>, Seq<u8>)>)>,
    len: nat,
) -> Seq<(Seq<u8>, Seq<u8>)>
    decreases hs.len(),
{
    if hs.len() == 0 {
        Seq::empty()
    } else {
        let prev = cracked_set(algo, hs.drop_last(), bs, len);
        let h = hs.last();
        if holds_digest(prev, h) {
            prev
        } else {
            match find_in_buckets(algo, h, bs, len) {
                Some(p) => prev.push((h, p)),
                None => prev,
            }
        }
    }
}

/// Every pair that cracking reports holds a password whose digest is the
/// pair's digest, and a digest that was asked about.
pub proof fn lemma_cracked_set_sound(
    algo: HashAlgorithm,
    hs: Seq<Seq<u8>>,
    bs: Seq<(u32, Seq<(Seq<u8>, Seq<u8>)>)>,
    len: nat,
)
    ensures
        forall|i: int| 0 <= i < cracked_set(algo, hs, bs, len).len() ==> digest_of(algo, (#[trigger] cracked_set(algo, hs, bs, len)[i]).1)
            == cracked_set(algo, hs, bs, len)[i].0 && hs.contains(cracked_set(algo, hs, bs, len)[i].0),
    decreases hs.len(),
{
    if hs.len() > 0 {
        let init = hs.drop_last();
        lemma_cracked_set_sound(algo, init, bs, len);
        lemma_find_in_buckets_sound(algo, hs.last(), bs, len);
        let prev = cracked_set(algo, init, bs, len);
        let cur = cracked_set(algo, hs, bs, len);
        assert forall|i: int| 0 <= i < cur.len() implies digest_of(algo, (#[trigger] cur[i]).1) == cur[i].0 && hs.contains(cur[i].0) by {
            if i < prev.len() {
                assert(cur[i] == prev[i]);
                let j = choose|j: int| 0 <= j < init.len() && init[j] == prev[i].0;
                assert(hs[j] == init[j]);
            } else {
                assert(hs[hs.len() - 1] == hs.last());
            }
        }
    }
}

/// Pairs of byte strings.
pub open spec fn pair_views(v: Seq<(Vec<u8>, Vec<u8>)>) -> Seq<(Seq<u8>, Seq<u8>)> {
    v.map_values(|x: (Vec<u8>, Vec<u8>)| (x.0@, x.1@))
}

fn holds(v: &Vec<(Vec<u8>, Vec<u8>)>, h: &Vec<u8>) -> (r: bool)
    ensures
        r == holds_digest(pair_views(v@), h@),
{
    let mut i: usize = 0;
    while i < v.len()
        invariant
            i <= v@.len(),
            forall|j: int| 0 <= j < i ==> (#[trigger] pair_views(v@)[j]).0 != h@,
        decreases v.len() - i,
    {
        if bytes_eq(v[i].0.as_slice(), h.as_slice()) {
            assert(pair_views(v@)[i as int].0 == h@);
            return true;
        }
        i += 1;
    }
    false
}

/// Cracks each digest, once, against the buckets of chains. Fails with
/// `NoPasswordsFound` when nothing is found.
pub fn crack_passwords(
    buckets: &Vec<(u32, Vec<ChainEntry>)>,
    hashes: &Vec<Vec<u8>>,
    algorithm: &HashAlgorithm,
    password_len: u8,
) -> (r: Result<Vec<(Vec<u8>, Vec<u8>)>, ServerError>)
    requires
        deterministic(*algorithm),
    ensures
        r is Err <==> cracked_set(*algorithm, digest_views(hashes@), buckets_view(buckets@), password_len as nat).len() == 0,
        r is Err ==> r matches Err(ServerError::NoPasswordsFound),
        r matches Ok(v) ==> pair_views(v@) == cracked_set(*algorithm, digest_views(hashes@), buckets_view(buckets@), password_len as nat),
{
    let ghost hs = digest_views(hashes@);
    let ghost bs = buckets_view(buckets@);
    let mut out: Vec<(Vec<u8>, Vec<u8>)> = Vec::new();
    let mut i: usize = 0;
    while i < hashes.len()
        invariant
            deterministic(*algorithm),
            hs == digest_views(hashes@),
            bs == buckets_view(buckets@),
            i <= hashes@.len(),
            pair_views(out@) == cracked_set(*algorithm, hs.subrange(0, i as int), bs, password_len as nat),
        decreases hashes.len() - i,
    {
        proof {
            let hi = hs.subrange(0, i + 1);
            assert(hi.drop_last() =~= hs.subrange(0, i as int));
            assert(hi.last() == hashes@[i as int]@);
        }
        let h = &hashes[i];
        if !holds(&out, h) {
            match find_password(h, buckets, password_len as u32, algorithm) {
                Some(p) => {
                    let ghost before = out@;
                    out.push((h.clone(), p));
                    proof {
                        assert(pair_views(out@) =~= pair_views(before).push((h@, p@)));
                    }
                },
                None => {},
            }
        }
        i += 1;
    }
    proof {
        assert(hs.subrange(0, hs.len() as int) =~= hs);
    }
    if out.len() == 0 {
        return Err(ServerError::NoPasswordsFound);
    }
    Ok(out)
}

/// The entries the cache already holds for the digests, in the order of the
/// digests; `a` is the algorithm's name.
pub open spec fn cached_hits(cracked: CrackedMap, a: Seq<char>, hs: Seq<Seq<u8>>) -> Seq<(Seq<char>, Seq<char>)>
    decreases hs.len(),
{
    if hs.len() == 0 {
        Seq::empty()
    } else {
        let prev = cached_hits(cracked, a, hs.drop_last());
        if cracked.dom().contains((a, hex_of(hs.last()))) {
            prev.push(cracked[(a, hex_of(hs.last()))])
        } else {
            prev
        }
    }
}

/// Recovered passwords as digest texts and plaintexts.
pub open spec fn cracked_views(v: Seq<CrackedPassword>) -> Seq<(Seq<char>, Seq<char>)> {
    v.map_values(|c: CrackedPassword| (c.hash@, c.password@))
}

/// Whether every reported entry carries the hex text of one of the digests
/// asked about.
pub open spec fn answers_requested(v: Seq<(Seq<char>, Seq<char>)>, hs: Seq<Seq<u8>>) -> bool {
    forall|i: int| 0 <= i < v.len() ==> exists|j: int| 0 <= j < hs.len() && (#[trigger] v[i]).0 == hex_of(hs[j])
}

/// When each held entry is filed under its own digest text, the entries the
/// cache answers with carry the hex text of digests asked about.
pub proof fn lemma_cached_hits_requested(m: CrackedMap, a: Seq<char>, hs: Seq<Seq<u8>>)
    requires
        forall|k: (Seq<char>, Seq<char>)| #[trigger] m.dom().contains(k) ==> m[k].0 == k.1,
    ensures
        answers_requested(cached_hits(m, a, hs), hs),
    decreases hs.len(),
{
    if hs.len() > 0 {
        let init = hs.drop_last();
        lemma_cached_hits_requested(m, a, init);
        let prev = cached_hits(m, a, init);
        let cur = cached_hits(m, a, hs);
        assert forall|i: int| 0 <= i < cur.len() implies exists|j: int| 0 <= j < hs.len() && (#[trigger] cur[i]).0 == hex_of(hs[j]) by {
            if i < prev.len() {
                assert(cur[i] == prev[i]);
                let j = choose|j: int| 0 <= j < init.len() && prev[i].0 == hex_of(init[j]);
                assert(hs[j] == init[j]);
            } else {
                let k = (a, hex_of(hs.last()));
                assert(m.dom().contains(k));
                assert(cur[i] == m[k]);
                assert(hs[hs.len() - 1] == hs.last());
            }
        }
    }
}

/// Whether every reported entry holds a plaintext, read one character per
/// byte, whose digest under `a` is the entry's digest text in hex.
pub open spec fn answers_genuine(v: Seq<(Seq<char>, Seq<char>)>, a: HashAlgorithm) -> bool {
    forall|i: int| 0 <= i < v.len() ==> exists|p: Seq<u8>| (#[trigger] v[i]).1 == byte_text(p) && v[i].0 == hex_of(digest_of(a, p))
}

/// The entries the cache answers with are genuine recoveries when every
/// entry it holds is.
pub proof fn lemma_cached_hits_genuine(m: CrackedMap, at: Seq<char>, hs: Seq<Seq<u8>>)
    requires
        forall|k: (Seq<char>, Seq<char>)| #[trigger] m.dom().contains(k) ==> genuine(k.0, m[k]),
    ensures
        forall|i: int| 0 <= i < cached_hits(m, at, hs).len() ==> genuine(at, #[trigger] cached_hits(m, at, hs)[i]),
    decreases hs.len(),
{
    if hs.len() > 0 {
        let init = hs.drop_last();
        lemma_cached_hits_genuine(m, at, init);
        let prev = cached_hits(m, at, init);
        let cur = cached_hits(m, at, hs);
        assert forall|i: int| 0 <= i < cur.len() implies genuine(at, #[trigger] cur[i]) by {
            if i < prev.len() {
                assert(cur[i] == prev[i]);
            } else {
                let k = (at, hex_of(hs.last()));
                assert(m.dom().contains(k));
                assert(cur[i] == m[k]);
            }
        }
    }
}

/// Found pairs as the texts the server reports: hex digest and plaintext.
pub open spec fn reported(v: Seq<(Seq<u8>, Seq<u8>)>) -> Seq<(Seq<char>, Seq<char>)> {
    v.map_values(|x: (Seq<u8>, Seq<u8>)| (hex_of(x.0), byte_text(x.1)))
}

/// The text under which the cache files an algorithm.
pub open spec fn algo_text(a: HashAlgorithm) -> Seq<char> {
    byte_text(algo_name(a))
}

/// The digests that a crack payload asks about, once each: the whole digests
/// after the header, at the width of algorithm `a`.
pub open spec fn payload_digests(d: Seq<u8>, a: HashAlgorithm) -> Seq<Seq<u8>> {
    let body = d.subrange(3 + d[1] as int, d.len() as int);
    let w = digest_width(a) as int;
    dedup(Seq::new((body.len() as int / w) as nat, |i: int| body.subrange(w * i, w * i + w)))
}

fn dedup_digests(hs: &Vec<Vec<u8>>) -> (r: Vec<Vec<u8>>)
    ensures
        digest_views(r@) == dedup(digest_views(hs@)),
{
    let ghost v = digest_views(hs@);
    let mut out: Vec<Vec<u8>> = Vec::new();
    let mut i: usize = 0;
    while i < hs.len()
        invariant
            v == digest_views(hs@),
            i <= hs@.len(),
            digest_views(out@) == dedup(v.subrange(0, i as int)),
        decreases hs.len() - i,
    {
        proof {
            let vi = v.subrange(0, i + 1);
            assert(vi.drop_last() =~= v.subrange(0, i as int));
            assert(vi.last() == hs@[i as int]@);
        }
        let mut seen = false;
        let mut j: usize = 0;
        while j < out.len()
            invariant
                j <= out@.len(),
                i < hs@.len(),
                !seen ==> forall|k: int| 0 <= k < j ==> (#[trigger] digest_views(out@)[k]) != hs@[i as int]@,
                seen ==> digest_views(out@).contains(hs@[i as int]@),
            decreases out.len() - j,
        {
            if !seen && bytes_eq(out[j].as_slice(), hs[i].as_slice()) {
                seen = true;
                proof {
                    assert(digest_views(out@)[j as int] == hs@[i as int]@);
                }
            }
            j += 1;
        }
        if !seen {
            let ghost before = out@;
            out.push(hs[i].clone());
            proof {
                assert(digest_views(out@) =~= digest_views(before).push(hs@[i as int]@));
            }
        }
        i += 1;
    }
    proof {
        assert(v.subrange(0, v.len() as int) =~= v);
    }
    out
}

/// What a crack request needs once the cache has been consulted: either the
/// answer, from the cracked passwords the cache holds, or a search of the
/// digests against the chains of the algorithm and password length.
pub enum CrackPlan {
    Answered(Vec<CrackedPassword>),
    Search {
        algorithm: HashAlgorithm,
        name: String,
        password_len: u8,
        hashes: Vec<Vec<u8>>,
        buckets: Vec<(u32, Vec<ChainEntry>)>,
    },
}

/// Reads a crack request's payload, a hash file, against the cache. Digests
/// the cache already holds are answered from it; only when it holds none of
/// them is a search planned, over every chain of the algorithm and password
/// length.
pub fn plan_crack(cache: &Cache, payload: &[u8]) -> (r: Result<CrackPlan, ServerError>)
    requires
        cache.wf(),
    ensures
        !hash_framed(payload@) ==> r matches Err(ServerError::IoError(_)),
        hash_framed(payload@) && !(algorithm_named(payload@.subrange(2, 2 + payload@[1] as int)) matches Some(a)
            && deterministic(a)) ==> r matches Err(ServerError::InvalidAlgorithm),
        hash_framed(payload@) ==> match algorithm_named(payload@.subrange(2, 2 + payload@[1] as int)) {
            None => true,
            Some(a) => deterministic(a) ==> ({
                let hs = payload_digests(payload@, a);
                let at = algo_text(a);
                let p = payload@[2 + payload@[1] as int];
                let hits = cached_hits(cache.cracked(), at, hs);
                if hits.len() > 0 {
                    &&& r is Ok
                    &&& r matches Ok(CrackPlan::Answered(v)) && cracked_views(v@) == hits
                        && answers_requested(cracked_views(v@), hs) && answers_genuine(cracked_views(v@), a)
                } else if forall|l: u32| !cache.chains().dom().contains((at, p, l)) {
                    r matches Err(ServerError::NoRainbowTableFound)
                } else {
                    &&& r is Ok
                    &&& r matches Ok(CrackPlan::Search { algorithm, name, password_len, hashes, buckets })
                        && algorithm == a && name@ == at && password_len == p && digest_views(hashes@) == hs
                        && buckets_listed(cache.chains(), at, p, buckets@)
                }
            }),
        },
{
    let file = match parse_hash_file(payload) {
        Ok(f) => f,
        Err(_) => {
            return Err(ServerError::IoError("early eof".to_owned()));
        },
    };
    let algo = match algorithm_from_name(file.algorithm.as_slice()) {
        Some(a) => a,
        None => {
            return Err(ServerError::InvalidAlgorithm);
        },
    };
    if !deterministic_algorithm(&algo) {
        return Err(ServerError::InvalidAlgorithm);
    }
    let name_bytes = algorithm_name(&algo);
    let name = bytes_to_text(name_bytes.as_slice());
    let width: usize = match algo {
        HashAlgorithm::Md5 => 16,
        HashAlgorithm::Sha256 => 32,
        _ => 64,
    };
    let pieces = split_digests(file.body.as_slice(), width);
    let hashes = dedup_digests(&pieces);
    proof {
        let body = file.body@;
        let w = width as int;
        assert(digest_views(pieces@) =~= Seq::new((body.len() as int / w) as nat, |i: int| body.subrange(w * i, w * i + w)));
    }
    let ghost hs = digest_views(hashes@);
    let ghost at = name@;
    let mut hits: Vec<CrackedPassword> = Vec::new();
    let mut i: usize = 0;
    while i < hashes.len()
        invariant
            cache.wf(),
            hs == digest_views(hashes@),
            at == name@,
            i <= hashes@.len(),
            cracked_views(hits@) == cached_hits(cache.cracked(), at, hs.subrange(0, i as int)),
        decreases hashes.len() - i,
    {
        proof {
            let hi = hs.subrange(0, i + 1);
            assert(hi.drop_last() =~= hs.subrange(0, i as int));
            assert(hi.last() == hashes@[i as int]@);
        }
        let hex = to_hex(hashes[i].as_slice());
        match cache.get_cracked_password(name.as_str(), hex.as_str()) {
            Ok(c) => {
                let ghost before = hits@;
                hits.push(c);
                proof {
                    assert(cracked_views(hits@) =~= cracked_views(before).push((c.hash@, c.password@)));
                }
            },
            Err(_) => {},
        }
        i += 1;
    }
    proof {
        assert(hs.subrange(0, hs.len() as int) =~= hs);
    }
    if hits.len() > 0 {
        proof {
            cache.lemma_entries_keyed();
            lemma_cached_hits_requested(cache.cracked(), at, hs);
            lemma_cached_hits_genuine(cache.cracked(), at, hs);
            lemma_text_algorithm(algo);
            let v = cracked_views(hits@);
            assert forall|i: int| 0 <= i < v.len() implies exists|p: Seq<u8>| (#[trigger] v[i]).1 == byte_text(p)
                && v[i].0 == hex_of(digest_of(algo, p)) by {
                assert(genuine(at, v[i]));
            }
        }
        return Ok(CrackPlan::Answered(hits));
    }
    let buckets = match cache.get_all_chains(name.as_str(), file.password_len) {
        Ok(b) => b,
        Err(e) => {
            return Err(e);
        },
    };
    Ok(CrackPlan::Search { algorithm: algo, name, password_len: file.password_len, hashes, buckets })
}

/// Offers each recovered password, whose digest under `algorithm` must be
/// the one it is paired with, to the cache under the algorithm's name, and
/// gives them back as digest texts and plaintexts, in order.
pub fn record_cracked(cache: &mut Cache, algorithm: &HashAlgorithm, found: &Vec<(Vec<u8>, Vec<u8>)>) -> (r: Vec<CrackedPassword>)
    requires
        old(cache).wf(),
        deterministic(*algorithm),
        forall|i: int| 0 <= i < found@.len() ==> digest_of(*algorithm, (#[trigger] found@[i]).1@) == found@[i].0@,
    ensures
        answers_genuine(cracked_views(r@), *algorithm),
        final(cache).wf(),
        final(cache).chains() == old(cache).chains(),
        forall|k: (Seq<char>, Seq<char>)| #[trigger] old(cache).cracked().dom().contains(k) ==> final(cache).cracked().dom().contains(k)
            && final(cache).cracked()[k] == old(cache).cracked()[k],
        cracked_views(r@) == reported(pair_views(found@)),
        final(cache).max_size() == old(cache).max_size(),
        (final(cache).cracked(), final(cache).size()) == offer_all(
            old(cache).cracked(),
            old(cache).size(),
            old(cache).max_size(),
            algo_text(*algorithm),
            reported(pair_views(found@)),
        ),
{
    let name_bytes = algorithm_name(algorithm);
    let name = bytes_to_text(name_bytes.as_slice());
    let ghost a = *algorithm;
    proof {
        lemma_text_algorithm(a);
    }
    let mut out: Vec<CrackedPassword> = Vec::new();
    let mut k: usize = 0;
    while k < found.len()
        invariant
            cache.wf(),
            a == *algorithm,
            deterministic(a),
            name@ == algo_text(a),
            text_algorithm(name@) == Some(a),
            forall|i: int| 0 <= i < found@.len() ==> digest_of(a, (#[trigger] found@[i]).1@) == found@[i].0@,
            cache.chains() == old(cache).chains(),
            forall|kk: (Seq<char>, Seq<char>)| #[trigger] old(cache).cracked().dom().contains(kk) ==> cache.cracked().dom().contains(kk)
                && cache.cracked()[kk] == old(cache).cracked()[kk],
            k <= found@.len(),
            answers_genuine(cracked_views(out@), a),
            cracked_views(out@) == reported(pair_views(found@)).subrange(0, k as int),
            cache.max_size() == old(cache).max_size(),
            (cache.cracked(), cache.size()) == offer_all(
                old(cache).cracked(),
                old(cache).size(),
                old(cache).max_size(),
                algo_text(a),
                reported(pair_views(found@)).subrange(0, k as int),
            ),
        decreases found.len() - k,
    {
        let pair = &found[k];
        let hex = to_hex(pair.0.as_slice());
        let text = bytes_to_text(pair.1.as_slice());
        let entry = CrackedPassword::new(hex.clone(), text.clone());
        let ghost mid = *cache;
        proof {
            assert(text@ == byte_text(pair.1@) && hex@ == hex_of(digest_of(a, pair.1@)));
        }
        cache.insert_cracked_password(name.as_str(), entry);
        proof {
            assert forall|kk: (Seq<char>, Seq<char>)| #[trigger] old(cache).cracked().dom().contains(kk) implies cache.cracked().dom().contains(kk)
                && cache.cracked()[kk] == old(cache).cracked()[kk] by {
                assert(mid.cracked().dom().contains(kk));
                assert(mid.cracked()[kk] == old(cache).cracked()[kk]);
            }
        }
        let ghost before = out@;
        let cp = CrackedPassword::new(hex, text);
        out.push(cp);
        proof {
            let want = reported(pair_views(found@));
            assert(cracked_views(before).len() == k);
            assert(before.len() == k);
            assert(pair_views(found@)[k as int] == (pair.0@, pair.1@));
            assert(want[k as int] == (hex_of(pair.0@), byte_text(pair.1@)));
            assert(cracked_views(out@)[k as int] == (cp.hash@, cp.password@));
            assert forall|j: int| 0 <= j < k implies cracked_views(out@)[j] == want[j] by {
                assert(out@[j] == before[j]);
                assert(cracked_views(before)[j] == want.subrange(0, k as int)[j]);
            }
            assert(cracked_views(out@) =~= want.subrange(0, k + 1));
            assert(want.subrange(0, k + 1).drop_last() =~= want.subrange(0, k as int));
            assert(want.subrange(0, k + 1).last() == (hex@, text@));
            let v = cracked_views(out@);
            assert forall|i: int| 0 <= i < v.len() implies exists|p: Seq<u8>| (#[trigger] v[i]).1 == byte_text(p)
                && v[i].0 == hex_of(digest_of(a, p)) by {
                if i < k {
                    assert(v[i] == cracked_views(before)[i]);
                } else {
                    assert(v[i].1 == byte_text(pair.1@) && v[i].0 == hex_of(digest_of(a, pair.1@)));
                }
            }
        }
        k += 1;
    }
    proof {
        assert(reported(pair_views(found@)).subrange(0, found@.len() as int) =~= reported(pair_views(found@)));
    }
    out
}

/// Handles a crack request's payload, a hash file: plans with the cache,
/// searches the chains when the cache held none of the digests, and offers
/// what is found to the cache.
pub fn crack(cache: &mut Cache, payload: &[u8]) -> (r: Result<Vec<CrackedPassword>, ServerError>)
    requires
        old(cache).wf(),
    ensures
        final(cache).wf(),
        final(cache).chains() == old(cache).chains(),
        forall|k: (Seq<char>, Seq<char>)| #[trigger] old(cache).cracked().dom().contains(k) ==> final(cache).cracked().dom().contains(k)
            && final(cache).cracked()[k] == old(cache).cracked()[k],
        !hash_framed(payload@) ==> r matches Err(ServerError::IoError(_)),
        hash_framed(payload@) && !(algorithm_named(payload@.subrange(2, 2 + payload@[1] as int)) matches Some(a)
            && deterministic(a)) ==> r matches Err(ServerError::InvalidAlgorithm),
        hash_framed(payload@) ==> match algorithm_named(payload@.subrange(2, 2 + payload@[1] as int)) {
            None => true,
            Some(a) => deterministic(a) ==> ({
                let hs = payload_digests(payload@, a);
                let at = algo_text(a);
                let p = payload@[2 + payload@[1] as int];
                let hits = cached_hits(old(cache).cracked(), at, hs);
                &&& r is Ok ==> answers_requested(cracked_views(r->Ok_0@), hs)
                &&& r is Ok ==> answers_genuine(cracked_views(r->Ok_0@), a)
                &&& if hits.len() > 0 {
                    &&& r is Ok
                    &&& r matches Ok(v) ==> cracked_views(v@) == hits
                    &&& final(cache).cracked() == old(cache).cracked()
                } else if forall|l: u32| !old(cache).chains().dom().contains((at, p, l)) {
                    r matches Err(ServerError::NoRainbowTableFound)
                } else {
                    exists|v: Seq<(u32, Vec<ChainEntry>)>| #[trigger] buckets_listed(old(cache).chains(), at, p, v) && ({
                        let found = cracked_set(a, hs, buckets_view(v), p as nat);
                        &&& found.len() == 0 ==> r is Err && r->Err_0 is NoPasswordsFound
                        &&& found.len() > 0 ==> r is Ok && cracked_views(r->Ok_0@) == reported(found)
                        &&& found.len() > 0 ==> final(cache).cracked() == offer_all(
                            old(cache).cracked(),
                            old(cache).size(),
                            old(cache).max_size(),
                            at,
                            reported(found),
                        ).0
                    })
                }
            }),
        },
{
    match plan_crack(cache, payload) {
        Err(e) => Err(e),
        Ok(CrackPlan::Answered(v)) => Ok(v),
        Ok(CrackPlan::Search { algorithm, name, password_len, hashes, buckets }) => {
            proof {
                assert(buckets_listed(old(cache).chains(), name@, password_len, buckets@));
            }
            match crack_passwords(&buckets, &hashes, &algorithm, password_len) {
                Err(e) => Err(e),
                Ok(found) => {
                    proof {
                        lemma_cracked_set_sound(algorithm, digest_views(hashes@), buckets_view(buckets@), password_len as nat);
                        assert forall|i: int| 0 <= i < found@.len() implies digest_of(algorithm, (#[trigger] found@[i]).1@) == found@[i].0@ by {
                            assert(pair_views(found@)[i] == (found@[i].0@, found@[i].1@));
                        }
                    }
                    let out = record_cracked(cache, &algorithm, &found);
                    proof {
                        let fs = pair_views(found@);
                        let hs = digest_views(hashes@);
                        lemma_cracked_set_sound(algorithm, hs, buckets_view(buckets@), password_len as nat);
                        let rep = reported(fs);
                        assert forall|i: int| 0 <= i < rep.len() implies exists|j: int| 0 <= j < hs.len() && (#[trigger] rep[i]).0 == hex_of(hs[j]) by {
                            assert(hs.contains(fs[i].0));
                            let j = choose|j: int| 0 <= j < hs.len() && hs[j] == fs[i].0;
                        }
                    }
                    Ok(out)
                },
            }
        },
    }
}

} // verus!
