use vstd::prelude::*;
use crate::bytes::append_bytes;
use crate::chain::{MAX_PASSWORD_LEN, chain_endpoint, create_chain};
use crate::error::HashassinError;
use crate::format::{algo_name, algorithm_from_name, algorithm_named, chain_record, digest_views, rainbow_table_header, records_bytes, table_header_bytes};
use crate::hash::{HashAlgorithm, deterministic};

verus! {

/// Checks the parameters of a table build, in this order: a positive chain
/// length that fits 32 bits, at least one worker, and non-empty output path,
/// algorithm name and input path.
pub fn validate_inputs(num_links: usize, threads: usize, out_file: &str, algorithm: &str, in_file: &str) -> (r: Result<(), HashassinError>)
    ensures
        r is Ok <==> 0 < num_links <= u32::MAX && threads > 0 && out_file@.len() > 0 && algorithm@.len() > 0 && in_file@.len() > 0,
        num_links == 0 || num_links > u32::MAX ==> r matches Err(HashassinError::InvalidInput(_)),
        0 < num_links <= u32::MAX && threads == 0 ==> r matches Err(HashassinError::InvalidThreadCount),
        r is Err && !(0 < num_links <= u32::MAX && threads == 0) ==> r matches Err(HashassinError::InvalidInput(_)),
{
    if num_links == 0 {
        return Err(HashassinError::InvalidInput("Number of links must be greater than 0".to_owned()));
    }
    if num_links > 0xffff_ffff {
        return Err(HashassinError::InvalidInput("Number of links must fit 32 bits".to_owned()));
    }
    if threads == 0 {
        return Err(HashassinError::InvalidThreadCount);
    }
    if out_file.is_empty() {
        return Err(HashassinError::InvalidInput("Output file path cannot be empty".to_owned()));
    }
    if algorithm.is_empty() {
        return Err(HashassinError::InvalidInput("Algorithm cannot be empty".to_owned()));
    }
    if in_file.is_empty() {
        return Err(HashassinError::InvalidInput("Input file path cannot be empty".to_owned()));
    }
    Ok(())
}

/// The algorithm a table is built with: a name `algorithm_named` knows,
/// ignoring ASCII case, and not scrypt, whose random salt would make chains
/// irreproducible.
pub fn table_algorithm(name: &[u8]) -> (r: Result<HashAlgorithm, HashassinError>)
    ensures
        r matches Ok(a) ==> algorithm_named(name@) == Some(a) && deterministic(a),
        r is Err <==> !(algorithm_named(name@) matches Some(a) && deterministic(a)),
        r is Err ==> r->Err_0 is UnknownAlgorithm,
{
    match algorithm_from_name(name) {
        Some(HashAlgorithm::Scrypt) => Err(HashassinError::UnknownAlgorithm("scrypt cannot build rainbow chains".to_owned())),
        Some(a) => Ok(a),
        None => Err(HashassinError::UnknownAlgorithm("Unknown algorithm".to_owned())),
    }
}

/// The chain record of one password: the password, then its endpoint.
pub fn rainbow_chain_record(password: &Vec<u8>, num_links: u32, algo: &HashAlgorithm) -> (r: Result<Vec<u8>, HashassinError>)
    ensures
        r is Ok <==> deterministic(*algo) && password@.len() <= MAX_PASSWORD_LEN,
        r is Err ==> r->Err_0 is InvalidInput,
        r matches Ok(b) ==> b@ == password@ + chain_endpoint(*algo, password@, num_links as nat),
{
    let end = match create_chain(password.clone(), num_links, algo) {
        Ok(e) => e,
        Err(e) => {
            return Err(e);
        },
    };
    Ok(chain_record(password.as_slice(), end.as_slice()))
}

/// The chains of a table built from passwords: each with its endpoint.
pub open spec fn built_chains(algo: HashAlgorithm, ps: Seq<Seq<u8>>, num_links: nat) -> Seq<(Seq<u8>, Seq<u8>)> {
    ps.map_values(|p: Seq<u8>| (p, chain_endpoint(algo, p, num_links)))
}

/// The rainbow-table file of a list of passwords: the header, whose password
/// length is that of the first password, then one chain record per password,
/// in order. No passwords give an empty file. Scrypt, or a password longer
/// than 255 bytes, is refused as `InvalidInput`.
pub fn rainbow_table_contents(passwords: &Vec<Vec<u8>>, num_links: u32, algo: &HashAlgorithm) -> (r: Result<Vec<u8>, HashassinError>)
    ensures
        r is Ok <==> passwords@.len() == 0 || (deterministic(*algo)
            && forall|i: int| 0 <= i < passwords@.len() ==> (#[trigger] passwords@[i])@.len() <= MAX_PASSWORD_LEN),
        r is Err ==> r->Err_0 is InvalidInput,
        r matches Ok(b) ==> (passwords@.len() == 0 ==> b@.len() == 0),
        r matches Ok(b) ==> (passwords@.len() > 0 ==> b@ == table_header_bytes(1, algo_name(*algo), passwords@[0]@.len() as u8, 95, num_links as nat, 32)
            + records_bytes(built_chains(*algo, digest_views(passwords@), num_links as nat))),
{
    let mut out: Vec<u8> = Vec::new();
    if passwords.len() == 0 {
        return Ok(out);
    }
    let ghost ps = digest_views(passwords@);
    let mut k: usize = 0;
    while k < passwords.len()
        invariant
            k <= passwords@.len(),
            forall|i: int| 0 <= i < k ==> (#[trigger] passwords@[i])@.len() <= MAX_PASSWORD_LEN,
        decreases passwords.len() - k,
    {
        if passwords[k].len() > MAX_PASSWORD_LEN {
            return Err(HashassinError::InvalidInput("password longer than 255 bytes".to_owned()));
        }
        k += 1;
    }
    if !matches!(algo, HashAlgorithm::Md5 | HashAlgorithm::Sha256 | HashAlgorithm::Sha3_512) {
        return Err(HashassinError::InvalidInput("scrypt cannot be used in a rainbow chain".to_owned()));
    }
    let header = rainbow_table_header(algo, passwords[0].len() as u8, num_links as u128);
    append_bytes(&mut out, header.as_slice());
    let ghost h = header@;
    let mut i: usize = 0;
    proof {
        assert(built_chains(*algo, ps.subrange(0, 0), num_links as nat) =~= Seq::<(Seq<u8>, Seq<u8>)>::empty());
        assert(out@ =~= h + records_bytes(built_chains(*algo, ps.subrange(0, 0), num_links as nat)));
    }
    while i < passwords.len()
        invariant
            deterministic(*algo),
            h == header@,
            ps == digest_views(passwords@),
            i <= passwords@.len(),
            forall|j: int| 0 <= j < passwords@.len() ==> (#[trigger] passwords@[j])@.len() <= MAX_PASSWORD_LEN,
            out@ == h + records_bytes(built_chains(*algo, ps.subrange(0, i as int), num_links as nat)),
        decreases passwords.len() - i,
    {
        let rec = match rainbow_chain_record(&passwords[i], num_links, algo) {
            Ok(b) => b,
            Err(e) => {
                return Err(e);
            },
        };
        let ghost before = out@;
        append_bytes(&mut out, rec.as_slice());
        proof {
            let pi = ps.subrange(0, i + 1);
            let bc = built_chains(*algo, pi, num_links as nat);
            assert(pi.drop_last() =~= ps.subrange(0, i as int));
            assert(bc.drop_last() =~= built_chains(*algo, ps.subrange(0, i as int), num_links as nat));
            assert(bc.last() == (passwords@[i as int]@, chain_endpoint(*algo, passwords@[i as int]@, num_links as nat)));
            assert(out@ =~= h + records_bytes(bc));
        }
        i += 1;
    }
    proof {
        assert(ps.subrange(0, ps.len() as int) =~= ps);
    }
    Ok(out)
}

} // verus!
