use vstd::prelude::*;
use crate::bytes::append_bytes;
use crate::error::HashassinError;
use crate::format::{algo_name, algorithm_from_name, algorithm_named, concat_all, digest_views, hash_file_header, hash_header_bytes};
use crate::hash::{HashAlgorithm, deterministic, digest_of, hash_bytes, scrypt_error_prefix, scrypt_prefix, starts_with};

verus! {

/// Checks the parameters of a hashing job: at least one worker, and an
/// algorithm name that `algorithm_named` knows, ignoring ASCII case.
pub fn check_hash_job(num_threads: usize, algorithm: &[u8]) -> (r: Result<HashAlgorithm, HashassinError>)
    ensures
        num_threads == 0 ==> r matches Err(HashassinError::InvalidThreadCount),
        num_threads > 0 && algorithm_named(algorithm@) is None ==> r matches Err(HashassinError::UnknownAlgorithm(_)),
        num_threads > 0 ==> (algorithm_named(algorithm@) matches Some(a) ==> r == Ok::<HashAlgorithm, HashassinError>(a)),
{
    if num_threads < 1 {
        return Err(HashassinError::InvalidThreadCount);
    }
    match algorithm_from_name(algorithm) {
        Some(a) => Ok(a),
        None => Err(HashassinError::UnknownAlgorithm("Unknown algorithm".to_owned())),
    }
}

/// Whether scrypt put out `b`: a PHC string, or the text of its error.
pub open spec fn scrypt_output(b: Seq<u8>) -> bool {
    starts_with(b, scrypt_prefix()) || starts_with(b, scrypt_error_prefix())
}

/// The digests of the passwords under a deterministic algorithm.
pub open spec fn digests_of(algo: HashAlgorithm, ps: Seq<Seq<u8>>) -> Seq<Seq<u8>> {
    ps.map_values(|p: Seq<u8>| digest_of(algo, p))
}

/// The hash file of a list of passwords: the header, whose password length is
/// that of the first password, then each password's digest in order. No
/// passwords give an empty file. A first password longer than 255 bytes is
/// refused as `InvalidInput`.
pub fn hash_file_contents(passwords: &Vec<Vec<u8>>, algo: &HashAlgorithm) -> (r: Result<Vec<u8>, HashassinError>)
    ensures
        r is Err <==> passwords@.len() > 0 && passwords@[0]@.len() > 255,
        r is Err ==> r->Err_0 is InvalidInput,
        r matches Ok(b) ==> (passwords@.len() == 0 ==> b@.len() == 0),
        r matches Ok(b) ==> (passwords@.len() > 0 ==> b@.subrange(0, hash_header_bytes(1, algo_name(*algo), passwords@[0]@.len() as u8).len() as int)
            == hash_header_bytes(1, algo_name(*algo), passwords@[0]@.len() as u8)),
        r matches Ok(b) ==> (passwords@.len() > 0 && deterministic(*algo) ==> b@ == hash_header_bytes(1, algo_name(*algo), passwords@[0]@.len() as u8)
            + concat_all(digests_of(*algo, digest_views(passwords@)))),
        r matches Ok(b) ==> (passwords@.len() > 0 && *algo == HashAlgorithm::Scrypt ==> exists|pieces: Seq<Seq<u8>>|
            pieces.len() == passwords@.len() && (forall|j: int| 0 <= j < pieces.len() ==> scrypt_output(#[trigger] pieces[j]))
            && b@ == hash_header_bytes(1, algo_name(*algo), passwords@[0]@.len() as u8) + concat_all(pieces)),
{
    let mut out: Vec<u8> = Vec::new();
    if passwords.len() == 0 {
        return Ok(out);
    }
    if passwords[0].len() > 255 {
        return Err(HashassinError::InvalidInput("password longer than 255 bytes".to_owned()));
    }
    let header = hash_file_header(algo, passwords[0].len() as u8);
    append_bytes(&mut out, header.as_slice());
    let ghost h = header@;
    let ghost ps = digest_views(passwords@);
    let ghost mut pieces: Seq<Seq<u8>> = Seq::empty();
    let mut i: usize = 0;
    proof {
        assert(ps.subrange(0, 0) =~= Seq::<Seq<u8>>::empty());
        assert(digests_of(*algo, ps.subrange(0, 0)) =~= Seq::<Seq<u8>>::empty());
        assert(out@ =~= h + concat_all(digests_of(*algo, ps.subrange(0, 0))));
        assert(out@ =~= h + concat_all(pieces));
    }
    while i < passwords.len()
        invariant
            h == header@,
            ps == digest_views(passwords@),
            i <= passwords@.len(),
            out@.subrange(0, h.len() as int) == h,
            out@.len() >= h.len(),
            deterministic(*algo) ==> out@ == h + concat_all(digests_of(*algo, ps.subrange(0, i as int))),
            pieces.len() == i,
            forall|j: int| 0 <= j < pieces.len() ==> (*algo == HashAlgorithm::Scrypt ==> scrypt_output(#[trigger] pieces[j])),
            out@ == h + concat_all(pieces),
        decreases passwords.len() - i,
    {
        let d = hash_bytes(passwords[i].as_slice(), algo);
        let ghost before = out@;
        append_bytes(&mut out, d.as_slice());
        proof {
            let old_pieces = pieces;
            pieces = pieces.push(d@);
            assert(pieces.drop_last() =~= old_pieces);
            assert(out@ =~= h + concat_all(pieces));
            assert(out@.subrange(0, h.len() as int) =~= before.subrange(0, h.len() as int));
            if deterministic(*algo) {
                let pi = ps.subrange(0, i + 1);
                assert(pi.drop_last() =~= ps.subrange(0, i as int));
                assert(digests_of(*algo, pi).drop_last() =~= digests_of(*algo, ps.subrange(0, i as int)));
                assert(digests_of(*algo, pi).last() == d@);
                assert(out@ =~= h + concat_all(digests_of(*algo, pi)));
            }
        }
        i += 1;
    }
    proof {
        assert(ps.subrange(0, ps.len() as int) =~= ps);
    }
    Ok(out)
}

} // verus!
