use vstd::prelude::*;
use crate::bytes::be_value;
use crate::cache_memory::chains_view;
use crate::chain::{MAX_PASSWORD_LEN, crack_chain, crack_chain_spec, lemma_chain_round_trip, lemma_crack_chain_sound, walk};
use crate::error::HashassinError;
use crate::format::{
    ChainEntry, algo_name, algorithm_from_name, algorithm_named, ascii_lower, chain_views, table_decodes_to, digest_views, digests_split, parse_hash_file,
    parse_rainbow_table, split_digests, table_framed,
};
use crate::hash::{HashAlgorithm, deterministic, digest_of, digest_width};
use crate::text::{byte_text, bytes_to_text, hex_of, push_char, push_text, to_hex};

verus! {

/// The first password, over the chains in order, that cracking `h` yields.
pub open spec fn find_in_chains(
    algo: HashAlgorithm,
    h: Seq<u8>,
    cs: Seq<(Seq<u8>, Seq<u8>)>,
    num_links: nat,
    len: nat,
) -> Option<Seq<u8>>
    decreases cs.len(),
{
    if cs.len() == 0 {
        None
    } else {
        match crack_chain_spec(algo, h, cs[0].0, cs[0].1, num_links, len) {
            Some(p) => Some(p),
            None => find_in_chains(algo, h, cs.drop_first(), num_links, len),
        }
    }
}

/// The first password, over the buckets in order, that cracking `h` yields;
/// each bucket pairs a chain length with its chains.
pub open spec fn find_in_buckets(
    algo: HashAlgorithm,
    h: Seq<u8>,
    bs: Seq<(u32, Seq<(Seq<u8>, Seq<u8>)>)>,
    len: nat,
) -> Option<Seq<u8>>
    decreases bs.len(),
{
    if bs.len() == 0 {
        None
    } else {
        match find_in_chains(algo, h, bs[0].1, bs[0].0 as nat, len) {
            Some(p) => Some(p),
            None => find_in_buckets(algo, h, bs.drop_first(), len),
        }
    }
}

/// A password found over a list of chains has the digest asked about.
pub proof fn lemma_find_in_chains_sound(
    algo: HashAlgorithm,
    h: Seq<u8>,
    cs: Seq<(Seq<u8>, Seq<u8>)>,
    num_links: nat,
    len: nat,
)
    ensures
        find_in_chains(algo, h, cs, num_links, len) matches Some(p) ==> digest_of(algo, p) == h,
    decreases cs.len(),
{
    if cs.len() > 0 {
        lemma_crack_chain_sound(algo, h, cs[0].0, cs[0].1, num_links, len, num_links);
        lemma_find_in_chains_sound(algo, h, cs.drop_first(), num_links, len);
    }
}

/// A password found over a list of buckets has the digest asked about.
pub proof fn lemma_find_in_buckets_sound(
    algo: HashAlgorithm,
    h: Seq<u8>,
    bs: Seq<(u32, Seq<(Seq<u8>, Seq<u8>)>)>,
    len: nat,
)
    ensures
        find_in_buckets(algo, h, bs, len) matches Some(p) ==> digest_of(algo, p) == h,
    decreases bs.len(),
{
    if bs.len() > 0 {
        lemma_find_in_chains_sound(algo, h, bs[0].1, bs[0].0 as nat, len);
        lemma_find_in_buckets_sound(algo, h, bs.drop_first(), len);
    }
}

/// Buckets as chain lengths with pairs of byte strings.
pub open spec fn buckets_view(v: Seq<(u32, Vec<ChainEntry>)>) -> Seq<(u32, Seq<(Seq<u8>, Seq<u8>)>)> {
    v.map_values(|b: (u32, Vec<ChainEntry>)| (b.0, chains_view(b.1@)))
}

/// Cracks `h` against each chain in turn and returns the first password found.
pub fn find_in_chain_list(
    h: &Vec<u8>,
    chains: &Vec<ChainEntry>,
    num_links: u32,
    password_len: u32,
    algo: &HashAlgorithm,
) -> (r: Option<Vec<u8>>)
    requires
        deterministic(*algo),
    ensures
        r matches Some(p) ==> find_in_chains(*algo, h@, chains_view(chains@), num_links as nat, password_len as nat) == Some(p@),
        r is None ==> find_in_chains(*algo, h@, chains_view(chains@), num_links as nat, password_len as nat) is None,
{
    let ghost cs = chains_view(chains@);
    let mut i: usize = 0;
    proof {
        assert(cs.subrange(0, cs.len() as int) =~= cs);
    }
    while i < chains.len()
        invariant
            deterministic(*algo),
            cs == chains_view(chains@),
            i <= chains@.len(),
            find_in_chains(*algo, h@, cs.subrange(i as int, cs.len() as int), num_links as nat, password_len as nat)
                == find_in_chains(*algo, h@, cs, num_links as nat, password_len as nat),
        decreases chains.len() - i,
    {
        let c = &chains[i];
        let ghost rest = cs.subrange(i as int, cs.len() as int);
        proof {
            assert(rest[0] == (c.start@, c.end@));
            assert(rest.drop_first() =~= cs.subrange(i + 1, cs.len() as int));
        }
        match crack_chain(h, &c.start, &c.end, num_links, password_len, algo) {
            Some(p) => {
                return Some(p);
            },
            None => {},
        }
        i += 1;
    }
    proof {
        assert(cs.subrange(cs.len() as int, cs.len() as int) =~= Seq::<(Seq<u8>, Seq<u8>)>::empty());
    }
    None
}

/// Cracks `h` against each bucket in turn and returns the first password
/// found.
pub fn find_password(
    h: &Vec<u8>,
    buckets: &Vec<(u32, Vec<ChainEntry>)>,
    password_len: u32,
    algo: &HashAlgorithm,
) -> (r: Option<Vec<u8>>)
    requires
        deterministic(*algo),
    ensures
        r matches Some(p) ==> find_in_buckets(*algo, h@, buckets_view(buckets@), password_len as nat) == Some(p@),
        r is None ==> find_in_buckets(*algo, h@, buckets_view(buckets@), password_len as nat) is None,
{
    let ghost bs = buckets_view(buckets@);
    let mut i: usize = 0;
    proof {
        assert(bs.subrange(0, bs.len() as int) =~= bs);
    }
    while i < buckets.len()
        invariant
            deterministic(*algo),
            bs == buckets_view(buckets@),
            i <= buckets@.len(),
            find_in_buckets(*algo, h@, bs.subrange(i as int, bs.len() as int), password_len as nat)
                == find_in_buckets(*algo, h@, bs, password_len as nat),
        decreases buckets.len() - i,
    {
        let b = &buckets[i];
        let ghost rest = bs.subrange(i as int, bs.len() as int);
        proof {
            assert(rest[0] == (b.0, chains_view(b.1@)));
            assert(rest.drop_first() =~= bs.subrange(i + 1, bs.len() as int));
        }
        match find_in_chain_list(h, &b.1, b.0, password_len, algo) {
            Some(p) => {
                return Some(p);
            },
            None => {},
        }
        i += 1;
    }
    proof {
        assert(bs.subrange(bs.len() as int, bs.len() as int) =~= Seq::<(u32, Seq<(Seq<u8>, Seq<u8>)>)>::empty());
    }
    None
}

/// A rainbow table loaded for cracking.
pub struct RainbowTable {
    pub chains: Vec<ChainEntry>,
    pub algorithm: HashAlgorithm,
    pub password_len: usize,
    pub num_links: usize,
    pub charset: Vec<u8>,
    pub ascii_offset: u8,
}

/// The printable ASCII alphabet, codes 32 to 126.
pub open spec fn printable_charset() -> Seq<u8> {
    Seq::new(95, |i: int| (32 + i) as u8)
}

/// Loads a rainbow table from the bytes of its file. The algorithm must be
/// one usable in chains, and the chain length must fit 32 bits; a partial
/// record at the end is ignored.
pub fn load_rainbow_table(data: &[u8]) -> (r: Result<RainbowTable, HashassinError>)
    ensures
        r matches Ok(t) ==> exists|version: u8, name: Seq<u8>, charset_size: nat, trailing: nat|
            #[trigger] table_decodes_to(
                data@,
                version,
                name,
                t.password_len as u8,
                charset_size,
                t.num_links as nat,
                t.ascii_offset,
                chains_view(t.chains@),
                trailing,
            ) && ascii_lower(name) == algo_name(t.algorithm),
        r matches Ok(t) ==> deterministic(t.algorithm) && 1 <= t.password_len <= MAX_PASSWORD_LEN
            && t.num_links <= u32::MAX && t.charset@ == printable_charset(),
        r is Ok <==> table_framed(data@) && (algorithm_named(data@.subrange(14, 14 + data@[13] as int)) matches Some(a)
            && deterministic(a)) && be_value(data@.subrange(31 + data@[13] as int, 47 + data@[13] as int)) <= u32::MAX,
        table_framed(data@) && !(algorithm_named(data@.subrange(14, 14 + data@[13] as int)) matches Some(a) && deterministic(a))
            ==> r matches Err(HashassinError::UnknownAlgorithm(_)),
{
    let file = match parse_rainbow_table(data) {
        Ok(f) => f,
        Err(e) => {
            return Err(e);
        },
    };
    let algorithm = match algorithm_from_name(file.header.algorithm.as_slice()) {
        Some(a) => a,
        None => {
            return Err(HashassinError::UnknownAlgorithm("Unsupported algorithm.".to_owned()));
        },
    };
    if !deterministic_algorithm(&algorithm) {
        return Err(HashassinError::UnknownAlgorithm("Unsupported algorithm.".to_owned()));
    }
    if file.header.num_links > 0xffff_ffff {
        return Err(HashassinError::InvalidFormat("chain length beyond 32 bits".to_owned()));
    }
    let mut charset: Vec<u8> = Vec::new();
    let mut c: u8 = 32;
    while c <= 126
        invariant
            32 <= c <= 127,
            charset@ =~= printable_charset().subrange(0, c - 32),
        decreases 127 - c,
    {
        charset.push(c);
        c += 1;
    }
    proof {
        assert(charset@ =~= printable_charset());
    }
    let ghost f = file;
    let password_len = file.header.password_len as usize;
    let num_links = file.header.num_links as usize;
    let ascii_offset = file.header.ascii_offset;
    let t = RainbowTable { chains: file.chains, algorithm, password_len, num_links, charset, ascii_offset };
    proof {
        assert(chains_view(t.chains@) =~= chain_views(f.chains@));
        assert(table_decodes_to(
            data@,
            f.header.version,
            f.header.algorithm@,
            t.password_len as u8,
            f.header.charset_size as nat,
            t.num_links as nat,
            t.ascii_offset,
            chains_view(t.chains@),
            f.trailing as nat,
        ));
    }
    Ok(t)
}

/// Whether an algorithm can be used in chains.
pub fn deterministic_algorithm(a: &HashAlgorithm) -> (r: bool)
    ensures
        r == deterministic(*a),
{
    match a {
        HashAlgorithm::Scrypt => false,
        _ => true,
    }
}

/// The digests of a hash file, cut at the width of `algorithm`'s digests.
/// The header's own algorithm name is not consulted. Fails when the header is
/// incomplete or the digest bytes are not a whole number of digests.
pub fn load_hashes(data: &[u8], algorithm: &HashAlgorithm) -> (r: Result<Vec<Vec<u8>>, HashassinError>)
    requires
        deterministic(*algorithm),
    ensures
        r is Ok <==> crate::format::hash_framed(data@)
            && (data@.len() - 3 - data@[1] as int) % (digest_width(*algorithm) as int) == 0,
        r matches Ok(v) ==> digests_split(
            data@.subrange(3 + data@[1] as int, data@.len() as int),
            digest_width(*algorithm) as int,
            digest_views(v@),
        ),
{
    let file = match parse_hash_file(data) {
        Ok(f) => f,
        Err(e) => {
            return Err(e);
        },
    };
    let width: usize = match algorithm {
        HashAlgorithm::Md5 => 16,
        HashAlgorithm::Sha256 => 32,
        _ => 64,
    };
    if file.body.len() % width != 0 {
        return Err(HashassinError::InvalidHashLength("Invalid hash file length.".to_owned()));
    }
    Ok(split_digests(file.body.as_slice(), width))
}

/// Cracks one digest against a loaded table.
pub fn crack_hash(table: &RainbowTable, h: &Vec<u8>) -> (r: Option<Vec<u8>>)
    requires
        deterministic(table.algorithm),
        table.password_len <= MAX_PASSWORD_LEN,
        table.num_links <= u32::MAX,
    ensures
        r matches Some(p) ==> find_in_chains(table.algorithm, h@, chains_view(table.chains@), table.num_links as nat, table.password_len as nat) == Some(p@),
        r is None ==> find_in_chains(table.algorithm, h@, chains_view(table.chains@), table.num_links as nat, table.password_len as nat) is None,
{
    find_in_chain_list(h, &table.chains, table.num_links as u32, table.password_len as u32, &table.algorithm)
}

/// The output line of a recovered password: the digest in hex, a tab, the
/// password.
pub open spec fn crack_line(h: Seq<u8>, p: Seq<u8>) -> Seq<char> {
    hex_of(h) + seq!['\t'] + byte_text(p)
}

/// The output lines for the digests whose password was found, in the order
/// of the digests.
pub open spec fn crack_lines_spec(hs: Seq<Seq<u8>>, found: Seq<Option<Seq<u8>>>) -> Seq<Seq<char>>
    decreases hs.len(),
{
    if hs.len() == 0 || found.len() < hs.len() {
        Seq::empty()
    } else {
        let prev = crack_lines_spec(hs.drop_last(), found.subrange(0, hs.len() - 1));
        match found[hs.len() - 1] {
            Some(p) => prev.push(crack_line(hs.last(), p)),
            None => prev,
        }
    }
}

/// Found passwords as optional byte strings.
pub open spec fn found_views(v: Seq<Option<Vec<u8>>>) -> Seq<Option<Seq<u8>>> {
    v.map_values(|o: Option<Vec<u8>>| match o {
        Some(p) => Some(p@),
        None => None,
    })
}

/// Text lines as character sequences.
pub open spec fn line_views(v: Seq<String>) -> Seq<Seq<char>> {
    v.map_values(|s: String| s@)
}

/// The output line of one recovered password.
pub fn format_crack_line(h: &[u8], p: &[u8]) -> (r: String)
    ensures
        r@ == crack_line(h@, p@),
{
    let mut line = to_hex(h);
    push_char(&mut line, '\t');
    let pw = bytes_to_text(p);
    push_text(&mut line, pw.as_str());
    line
}

/// The output of the local cracker: one line per digest whose password was
/// found (`found[i]` belongs to `hashes[i]`), in the order of the digests.
/// Fails with "No passwords found." when no password was found.
pub fn cracked_lines(hashes: &Vec<Vec<u8>>, found: &Vec<Option<Vec<u8>>>) -> (r: Result<Vec<String>, HashassinError>)
    requires
        found@.len() == hashes@.len(),
    ensures
        r is Err <==> crack_lines_spec(digest_views(hashes@), found_views(found@)).len() == 0,
        r is Err ==> r->Err_0 is CustomError && r->Err_0->CustomError_0@ == "No passwords found."@,
        r matches Ok(v) ==> line_views(v@) == crack_lines_spec(digest_views(hashes@), found_views(found@)),
{
    let ghost hs = digest_views(hashes@);
    let ghost fs = found_views(found@);
    let mut out: Vec<String> = Vec::new();
    let mut i: usize = 0;
    while i < hashes.len()
        invariant
            found@.len() == hashes@.len(),
            hs == digest_views(hashes@),
            fs == found_views(found@),
            i <= hashes@.len(),
            line_views(out@) == crack_lines_spec(hs.subrange(0, i as int), fs.subrange(0, i as int)),
        decreases hashes.len() - i,
    {
        let ghost before = out@;
        proof {
            let hsi = hs.subrange(0, i + 1);
            let fsi = fs.subrange(0, i + 1);
            assert(hsi.drop_last() =~= hs.subrange(0, i as int));
            assert(fsi.subrange(0, i as int) =~= fs.subrange(0, i as int));
            assert(hsi.last() == hashes@[i as int]@);
        }
        match &found[i] {
            Some(p) => {
                let line = format_crack_line(hashes[i].as_slice(), p.as_slice());
                out.push(line);
                proof {
                    assert(fs[i as int] == Some(p@));
                    assert(line_views(out@) =~= line_views(before).push(line@));
                }
            },
            None => {
                proof {
                    assert(fs[i as int] is None);
                }
            },
        }
        i += 1;
    }
    proof {
        assert(hs.subrange(0, hs.len() as int) =~= hs);
        assert(fs.subrange(0, fs.len() as int) =~= fs);
    }
    if out.len() == 0 {
        return Err(HashassinError::CustomError("No passwords found.".to_owned()));
    }
    Ok(out)
}

/// Cracks every digest against a loaded table and gives the output lines, in
/// the order of the digests.
pub fn crack_passwords(table: &RainbowTable, hashes: &Vec<Vec<u8>>) -> (r: Result<Vec<String>, HashassinError>)
    requires
        deterministic(table.algorithm),
        table.password_len <= MAX_PASSWORD_LEN,
        table.num_links <= u32::MAX,
    ensures
        ({
            let found = Seq::new(hashes@.len(), |i: int| find_in_chains(table.algorithm, hashes@[i]@, chains_view(table.chains@), table.num_links as nat, table.password_len as nat));
            &&& r is Err <==> crack_lines_spec(digest_views(hashes@), found).len() == 0
            &&& r is Err ==> r->Err_0 is CustomError && r->Err_0->CustomError_0@ == "No passwords found."@
            &&& r matches Ok(v) ==> line_views(v@) == crack_lines_spec(digest_views(hashes@), found)
        }),
{
    let mut found: Vec<Option<Vec<u8>>> = Vec::new();
    let mut i: usize = 0;
    while i < hashes.len()
        invariant
            deterministic(table.algorithm),
            table.password_len <= MAX_PASSWORD_LEN,
            table.num_links <= u32::MAX,
            i <= hashes@.len(),
            found@.len() == i,
            forall|j: int| 0 <= j < i ==> #[trigger] found_views(found@)[j] == find_in_chains(table.algorithm, hashes@[j]@, chains_view(table.chains@), table.num_links as nat, table.password_len as nat),
        decreases hashes.len() - i,
    {
        let ghost before = found@;
        let got = crack_hash(table, &hashes[i]);
        found.push(got);
        proof {
            assert forall|j: int| 0 <= j <= i implies #[trigger] found_views(found@)[j] == find_in_chains(table.algorithm, hashes@[j]@, chains_view(table.chains@), table.num_links as nat, table.password_len as nat) by {
                if j < i {
                    assert(found@[j] == before[j]);
                    assert(found_views(before)[j] == find_in_chains(table.algorithm, hashes@[j]@, chains_view(table.chains@), table.num_links as nat, table.password_len as nat));
                }
            }
        }
        i += 1;
    }
    proof {
        let want = Seq::new(hashes@.len(), |i: int| find_in_chains(table.algorithm, hashes@[i]@, chains_view(table.chains@), table.num_links as nat, table.password_len as nat));
        assert(found_views(found@) =~= want);
    }
    cracked_lines(hashes, &found)
}

proof fn lemma_find_in_chains_some(
    algo: HashAlgorithm,
    h: Seq<u8>,
    cs: Seq<(Seq<u8>, Seq<u8>)>,
    num_links: nat,
    len: nat,
    c: int,
)
    requires
        0 <= c < cs.len(),
        crack_chain_spec(algo, h, cs[c].0, cs[c].1, num_links, len) is Some,
    ensures
        find_in_chains(algo, h, cs, num_links, len) is Some,
    decreases cs.len(),
{
    if c > 0 && crack_chain_spec(algo, h, cs[0].0, cs[0].1, num_links, len) is None {
        assert(cs.drop_first()[c - 1] == cs[c]);
        lemma_find_in_chains_some(algo, h, cs.drop_first(), num_links, len, c - 1);
    }
}

proof fn lemma_crack_lines_hold(hs: Seq<Seq<u8>>, found: Seq<Option<Seq<u8>>>, at: int, p: Seq<u8>)
    requires
        found.len() >= hs.len(),
        0 <= at < hs.len(),
        found[at] == Some(p),
    ensures
        crack_lines_spec(hs, found).contains(crack_line(hs[at], p)),
    decreases hs.len(),
{
    let n = hs.len() as int;
    let prev = crack_lines_spec(hs.drop_last(), found.subrange(0, n - 1));
    let cur = crack_lines_spec(hs, found);
    if at == n - 1 {
        assert(cur == prev.push(crack_line(hs.last(), p)));
        assert(cur[prev.len() as int] == crack_line(hs[at], p));
    } else {
        assert(hs.drop_last()[at] == hs[at]);
        assert(found.subrange(0, n - 1)[at] == found[at]);
        lemma_crack_lines_hold(hs.drop_last(), found.subrange(0, n - 1), at, p);
        let i = choose|i: int| 0 <= i < prev.len() && prev[i] == crack_line(hs[at], p);
        match found[n - 1] {
            Some(q) => {
                assert(cur == prev.push(crack_line(hs.last(), q)));
                assert(cur[i] == prev[i]);
            },
            None => {},
        }
    }
}

/// Chain round trip through the local cracker: take a table whose chain `c`
/// runs `num_links` links from its start to its endpoint, and a digest list
/// whose entry `at` is the digest of the password at depth `j < num_links` of
/// that chain. Cracking finds a password with that digest for it, and the
/// cracker's output holds that password's line.
pub proof fn lemma_local_crack_round_trip(
    algo: HashAlgorithm,
    chains: Seq<(Seq<u8>, Seq<u8>)>,
    num_links: nat,
    len: nat,
    c: int,
    j: nat,
    hashes: Seq<Seq<u8>>,
    at: int,
)
    requires
        0 <= c < chains.len(),
        j < num_links,
        chains[c].1 == walk(algo, chains[c].0, 0, num_links, len),
        0 <= at < hashes.len(),
        hashes[at] == digest_of(algo, walk(algo, chains[c].0, 0, j, len)),
    ensures
        find_in_chains(algo, hashes[at], chains, num_links, len) is Some,
        find_in_chains(algo, hashes[at], chains, num_links, len) matches Some(p) ==> digest_of(algo, p) == hashes[at]
            && crack_lines_spec(hashes, Seq::new(hashes.len(), |i: int| find_in_chains(algo, hashes[i], chains, num_links, len)))
                .contains(crack_line(hashes[at], p)),
{
    let h = hashes[at];
    lemma_chain_round_trip(algo, chains[c].0, num_links, len, j);
    lemma_find_in_chains_some(algo, h, chains, num_links, len, c);
    lemma_find_in_chains_sound(algo, h, chains, num_links, len);
    let found = Seq::new(hashes.len(), |i: int| find_in_chains(algo, hashes[i], chains, num_links, len));
    match find_in_chains(algo, h, chains, num_links, len) {
        Some(p) => {
            assert(found[at] == Some(p));
            lemma_crack_lines_hold(hashes, found, at, p);
        },
        None => {},
    }
}

} // verus!
