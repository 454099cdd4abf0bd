use vstd::prelude::*;
use crate::bytes::bytes_eq;
use crate::error::HashassinError;
use crate::hash::{HashAlgorithm, deterministic, digest_of, hash_bytes};
use crate::radix_type::Radix;
use crate::reduction::{reduce_spec, reduction_function};

verus! {

/// The number of symbols of the password alphabet (printable ASCII).
pub const CHARSET_SIZE: u128 = 95;

/// The longest password a table can hold.
pub const MAX_PASSWORD_LEN: usize = 255;

/// One link of a chain: hash the password, then reduce the digest, in round
/// `round`, to a password of `len` characters.
pub open spec fn link(algo: HashAlgorithm, p: Seq<u8>, round: nat, len: nat) -> Seq<u8> {
    reduce_spec(digest_of(algo, p), round, len, 95)
}

/// The password reached from `p` through the links of rounds `from` up to,
/// not including, `to`.
pub open spec fn walk(algo: HashAlgorithm, p: Seq<u8>, from: nat, to: nat, len: nat) -> Seq<u8>
    decreases to - from,
{
    if from >= to {
        p
    } else {
        walk(algo, link(algo, p, from, len), from + 1, to, len)
    }
}

/// The endpoint of the chain of `num_links` links that starts at `start`.
pub open spec fn chain_endpoint(algo: HashAlgorithm, start: Seq<u8>, num_links: nat) -> Seq<u8> {
    walk(algo, start, 0, num_links, start.len())
}

/// Whether a digest `h` that sits at depth `i` of a chain would lead, through
/// the remaining links, to the chain's endpoint `end`.
pub open spec fn reaches_end(
    algo: HashAlgorithm,
    h: Seq<u8>,
    end: Seq<u8>,
    i: nat,
    num_links: nat,
    len: nat,
) -> bool {
    walk(algo, reduce_spec(h, i, len, 95), i + 1, num_links, len) == end
}

/// What cracking `h` against the chain `(start, end)` yields when the depths
/// below `i` are tried, deepest first: the first password at a depth whose
/// remaining links reach `end` and whose digest is `h`.
pub open spec fn crack_from(
    algo: HashAlgorithm,
    h: Seq<u8>,
    start: Seq<u8>,
    end: Seq<u8>,
    num_links: nat,
    len: nat,
    i: nat,
) -> Option<Seq<u8>>
    decreases i,
{
    if i == 0 {
        None
    } else {
        let k = (i - 1) as nat;
        let cand = walk(algo, start, 0, k, len);
        if reaches_end(algo, h, end, k, num_links, len) && digest_of(algo, cand) == h {
            Some(cand)
        } else {
            crack_from(algo, h, start, end, num_links, len, k)
        }
    }
}

/// The result of cracking `h` against the chain `(start, end)` of a table
/// with `num_links` links and passwords of length `len`.
pub open spec fn crack_chain_spec(
    algo: HashAlgorithm,
    h: Seq<u8>,
    start: Seq<u8>,
    end: Seq<u8>,
    num_links: nat,
    len: nat,
) -> Option<Seq<u8>> {
    crack_from(algo, h, start, end, num_links, len, num_links)
}

/// Walking in two stretches is walking once.
pub proof fn lemma_walk_compose(algo: HashAlgorithm, p: Seq<u8>, a: nat, b: nat, c: nat, len: nat)
    requires
        a <= b <= c,
    ensures
        walk(algo, p, a, c, len) == walk(algo, walk(algo, p, a, b, len), b, c, len),
    decreases b - a,
{
    if a < b {
        lemma_walk_compose(algo, link(algo, p, a, len), a + 1, b, c, len);
    }
}

proof fn lemma_walk_last(algo: HashAlgorithm, p: Seq<u8>, a: nat, b: nat, len: nat)
    requires
        a <= b,
    ensures
        walk(algo, p, a, b + 1, len) == link(algo, walk(algo, p, a, b, len), b, len),
{
    lemma_walk_compose(algo, p, a, b, b + 1, len);
    let q = walk(algo, p, a, b, len);
    assert(walk(algo, link(algo, q, b, len), b + 1, b + 1, len) == link(algo, q, b, len));
}

proof fn lemma_crack_from_finds(
    algo: HashAlgorithm,
    start: Seq<u8>,
    num_links: nat,
    len: nat,
    j: nat,
    i: nat,
)
    requires
        j < i <= num_links,
    ensures
        ({
            let h = digest_of(algo, walk(algo, start, 0, j, len));
            let end = walk(algo, start, 0, num_links, len);
            match crack_from(algo, h, start, end, num_links, len, i) {
                Some(c) => digest_of(algo, c) == h,
                None => false,
            }
        }),
    decreases i,
{
    let h = digest_of(algo, walk(algo, start, 0, j, len));
    let end = walk(algo, start, 0, num_links, len);
    let k = (i - 1) as nat;
    if k == j {
        lemma_walk_last(algo, start, 0, j, len);
        lemma_walk_compose(algo, start, 0, j + 1, num_links, len);
        assert(reaches_end(algo, h, end, k, num_links, len));
    } else {
        lemma_crack_from_finds(algo, start, num_links, len, j, k);
    }
}

/// Chain round trip: take any start password, any chain length and any
/// password length, and any password along the chain before its endpoint.
/// Cracking the digest of that password against the chain built from the
/// start recovers a password with that same digest.
pub proof fn lemma_chain_round_trip(
    algo: HashAlgorithm,
    start: Seq<u8>,
    num_links: nat,
    len: nat,
    j: nat,
)
    requires
        j < num_links,
    ensures
        ({
            let h = digest_of(algo, walk(algo, start, 0, j, len));
            let end = walk(algo, start, 0, num_links, len);
            match crack_chain_spec(algo, h, start, end, num_links, len) {
                Some(c) => digest_of(algo, c) == h,
                None => false,
            }
        }),
{
    lemma_crack_from_finds(algo, start, num_links, len, j, num_links);
}

/// Cracking against a chain yields only passwords whose digest is the one
/// asked about.
pub proof fn lemma_crack_chain_sound(
    algo: HashAlgorithm,
    h: Seq<u8>,
    start: Seq<u8>,
    end: Seq<u8>,
    num_links: nat,
    len: nat,
    i: nat,
)
    ensures
        crack_from(algo, h, start, end, num_links, len, i) matches Some(c) ==> digest_of(algo, c) == h,
    decreases i,
{
    if i > 0 {
        lemma_crack_chain_sound(algo, h, start, end, num_links, len, (i - 1) as nat);
    }
}

/// Runs the links of rounds `from` up to `to` on `p`.
pub fn walk_links(p: Vec<u8>, from: u32, to: u32, len: u32, algo: &HashAlgorithm) -> (r: Vec<u8>)
    requires
        deterministic(*algo),
    ensures
        r@ == walk(*algo, p@, from as nat, to as nat, len as nat),
{
    let radix = Radix::new(CHARSET_SIZE);
    let mut cur = p;
    let mut round: u32 = from;
    while round < to
        invariant
            radix@ == 95,
            deterministic(*algo),
            from <= to ==> from <= round <= to,
            from > to ==> round == from,
            walk(*algo, cur@, round as nat, to as nat, len as nat) == walk(
                *algo,
                p@,
                from as nat,
                to as nat,
                len as nat,
            ),
        decreases to - round,
    {
        let digest = hash_bytes(cur.as_slice(), algo);
        cur = reduction_function(&digest, round as u128, len, &radix);
        round += 1;
    }
    cur
}

/// The endpoint of the chain of `num_links` links from `password`. Scrypt is
/// refused, for its random salt would make the chain irreproducible, and so
/// is a password longer than a table can record.
pub fn create_chain(password: Vec<u8>, num_links: u32, algo: &HashAlgorithm) -> (r: Result<Vec<u8>, HashassinError>)
    ensures
        r is Ok <==> deterministic(*algo) && password@.len() <= MAX_PASSWORD_LEN,
        r is Ok ==> r->Ok_0@ == chain_endpoint(*algo, password@, num_links as nat),
        r is Err ==> r->Err_0 is InvalidInput,
{
    if !matches!(algo, HashAlgorithm::Md5 | HashAlgorithm::Sha256 | HashAlgorithm::Sha3_512) {
        return Err(HashassinError::InvalidInput("scrypt cannot be used in a rainbow chain".to_owned()));
    }
    if password.len() > MAX_PASSWORD_LEN {
        return Err(HashassinError::InvalidInput("password longer than 255 bytes".to_owned()));
    }
    let len = password.len() as u32;
    Ok(walk_links(password, 0, num_links, len, algo))
}

/// Cracks digest `hash` against the chain `(start, end)` of a table with
/// `num_links` links and passwords of `password_len` characters: tries each
/// depth, deepest first, and returns the first candidate whose digest is
/// `hash`.
pub fn crack_chain(
    hash: &Vec<u8>,
    start: &Vec<u8>,
    end: &Vec<u8>,
    num_links: u32,
    password_len: u32,
    algo: &HashAlgorithm,
) -> (r: Option<Vec<u8>>)
    requires
        deterministic(*algo),
    ensures
        r matches Some(c) ==> crack_chain_spec(*algo, hash@, start@, end@, num_links as nat, password_len as nat) == Some(c@),
        r is None ==> crack_chain_spec(*algo, hash@, start@, end@, num_links as nat, password_len as nat) is None,
{
    let radix = Radix::new(CHARSET_SIZE);
    let mut i: u32 = num_links;
    while i > 0
        invariant
            radix@ == 95,
            deterministic(*algo),
            i <= num_links,
            crack_from(*algo, hash@, start@, end@, num_links as nat, password_len as nat, i as nat)
                == crack_chain_spec(*algo, hash@, start@, end@, num_links as nat, password_len as nat),
        decreases i,
    {
        let k = i - 1;
        let first = reduction_function(hash, k as u128, password_len, &radix);
        let reached = walk_links(first, k + 1, num_links, password_len, algo);
        if bytes_eq(reached.as_slice(), end.as_slice()) {
            let cand = walk_links(start.clone(), 0, k, password_len, algo);
            let digest = hash_bytes(cand.as_slice(), algo);
            if bytes_eq(digest.as_slice(), hash.as_slice()) {
                return Some(cand);
            }
        }
        i = k;
    }
    None
}

} // verus!
