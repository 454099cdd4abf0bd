use vstd::prelude::*;
use crate::bytes::{
    append_bytes, be_bytes, be_value, byte_power, bytes_eq, copy_range, lemma_be_round_trip,
    push_be_u128, read_be_u128,
};
use crate::error::HashassinError;
use crate::hash::HashAlgorithm;

verus! {

/// The magic word that opens a rainbow-table file: `rainbowtable`.
pub open spec fn table_magic() -> Seq<u8> {
    seq![114u8, 97u8, 105u8, 110u8, 98u8, 111u8, 119u8, 116u8, 97u8, 98u8, 108u8, 101u8]
}

/// The lowercase name under which an algorithm is written in the files.
pub open spec fn algo_name(a: HashAlgorithm) -> Seq<u8> {
    match a {
        HashAlgorithm::Md5 => seq![109u8, 100u8, 53u8],
        HashAlgorithm::Sha256 => seq![115u8, 104u8, 97u8, 50u8, 53u8, 54u8],
        HashAlgorithm::Sha3_512 => seq![115u8, 104u8, 97u8, 51u8, 95u8, 53u8, 49u8, 50u8],
        HashAlgorithm::Scrypt => seq![115u8, 99u8, 114u8, 121u8, 112u8, 116u8],
    }
}

/// An ASCII letter in lower case; any other byte as it is.
pub open spec fn lower_byte(b: u8) -> u8 {
    if 65 <= b <= 90 {
        (b + 32) as u8
    } else {
        b
    }
}

/// A byte string with its ASCII letters in lower case.
pub open spec fn ascii_lower(s: Seq<u8>) -> Seq<u8> {
    s.map_values(|b: u8| lower_byte(b))
}

fn bytes_of(items: &[u8]) -> (r: Vec<u8>)
    ensures
        r@ == items@,
{
    let mut r: Vec<u8> = Vec::new();
    append_bytes(&mut r, items);
    r
}

proof fn lemma_names_distinct()
    ensures
        forall|a: HashAlgorithm, b: HashAlgorithm| algo_name(a) == algo_name(b) ==> a == b,
{
    assert forall|a: HashAlgorithm, b: HashAlgorithm| algo_name(a) == algo_name(b) implies a == b by {
        if a != b {
            let x = algo_name(a);
            let y = algo_name(b);
            if x.len() == y.len() {
                assert(x[1] != y[1] || x[3] != y[3]);
            }
        }
    }
}

/// The name of an algorithm as written in the files.
pub fn algorithm_name(a: &HashAlgorithm) -> (r: Vec<u8>)
    ensures
        r@ == algo_name(*a),
{
    let r = match a {
        HashAlgorithm::Md5 => bytes_of(&[109u8, 100u8, 53u8]),
        HashAlgorithm::Sha256 => bytes_of(&[115u8, 104u8, 97u8, 50u8, 53u8, 54u8]),
        HashAlgorithm::Sha3_512 => bytes_of(&[115u8, 104u8, 97u8, 51u8, 95u8, 53u8, 49u8, 50u8]),
        HashAlgorithm::Scrypt => bytes_of(&[115u8, 99u8, 114u8, 121u8, 112u8, 116u8]),
    };
    proof {
        assert(r@ =~= algo_name(*a));
    }
    r
}

/// The algorithm a name stands for, ignoring the case of ASCII letters.
pub open spec fn algorithm_named(name: Seq<u8>) -> Option<HashAlgorithm> {
    let l = ascii_lower(name);
    if l == algo_name(HashAlgorithm::Md5) {
        Some(HashAlgorithm::Md5)
    } else if l == algo_name(HashAlgorithm::Sha256) {
        Some(HashAlgorithm::Sha256)
    } else if l == algo_name(HashAlgorithm::Sha3_512) {
        Some(HashAlgorithm::Sha3_512)
    } else if l == algo_name(HashAlgorithm::Scrypt) {
        Some(HashAlgorithm::Scrypt)
    } else {
        None
    }
}

/// The algorithm a name stands for, ignoring the case of ASCII letters.
pub fn algorithm_from_name(name: &[u8]) -> (r: Option<HashAlgorithm>)
    ensures
        r == algorithm_named(name@),
        r matches Some(a) ==> ascii_lower(name@) == algo_name(a),
        r is None ==> forall|a: HashAlgorithm| ascii_lower(name@) != algo_name(a),
{
    let mut low: Vec<u8> = Vec::new();
    let mut i: usize = 0;
    while i < name.len()
        invariant
            i <= name@.len(),
            low@ =~= ascii_lower(name@.subrange(0, i as int)),
        decreases name.len() - i,
    {
        let b = name[i];
        let l = if 65 <= b && b <= 90 { b + 32 } else { b };
        low.push(l);
        i += 1;
    }
    proof {
        assert(name@.subrange(0, name@.len() as int) =~= name@);
    }
    let cands = [HashAlgorithm::Md5, HashAlgorithm::Sha256, HashAlgorithm::Sha3_512, HashAlgorithm::Scrypt];
    let mut k: usize = 0;
    while k < 4
        invariant
            k <= 4,
            cands@ == seq![HashAlgorithm::Md5, HashAlgorithm::Sha256, HashAlgorithm::Sha3_512, HashAlgorithm::Scrypt],
            low@ == ascii_lower(name@),
            forall|j: int| 0 <= j < k ==> low@ != algo_name(#[trigger] cands@[j]),
        decreases 4 - k,
    {
        let a = cands[k];
        let nm = algorithm_name(&a);
        if bytes_eq(low.as_slice(), nm.as_slice()) {
            proof {
                lemma_names_distinct();
            }
            return Some(a);
        }
        k += 1;
    }
    proof {
        assert forall|a: HashAlgorithm| ascii_lower(name@) != algo_name(a) by {
            match a {
                HashAlgorithm::Md5 => assert(cands@[0] == a),
                HashAlgorithm::Sha256 => assert(cands@[1] == a),
                HashAlgorithm::Sha3_512 => assert(cands@[2] == a),
                HashAlgorithm::Scrypt => assert(cands@[3] == a),
            }
        }
    }
    None
}


/// The metadata of a rainbow-table file.
pub struct TableHeader {
    pub version: u8,
    pub algorithm: Vec<u8>,
    pub password_len: u8,
    pub charset_size: u128,
    pub num_links: u128,
    pub ascii_offset: u8,
}

/// One chain of a table: its start password and its endpoint.
#[derive(Clone)]
pub struct ChainEntry {
    pub start: Vec<u8>,
    pub end: Vec<u8>,
}

impl ChainEntry {
    /// A chain from its start password and endpoint.
    pub fn new(start: Vec<u8>, end: Vec<u8>) -> (r: Self)
        ensures
            r.start@ == start@,
            r.end@ == end@,
    {
        ChainEntry { start, end }
    }
}

/// A rainbow-table file taken apart: its header, its complete chain records
/// in file order, and the number of bytes after the last complete record.
pub struct TableFile {
    pub header: TableHeader,
    pub chains: Vec<ChainEntry>,
    pub trailing: usize,
}

/// The chains of a table as pairs of byte strings.
pub open spec fn chain_views(v: Seq<ChainEntry>) -> Seq<(Seq<u8>, Seq<u8>)> {
    v.map_values(|c: ChainEntry| (c.start@, c.end@))
}

/// The header of a rainbow-table file with the given fields.
pub open spec fn table_header_bytes(
    version: u8,
    name: Seq<u8>,
    password_len: u8,
    charset_size: nat,
    num_links: nat,
    ascii_offset: u8,
) -> Seq<u8> {
    table_magic() + seq![version, name.len() as u8] + name + seq![password_len] + be_bytes(
        charset_size,
        16,
    ) + be_bytes(num_links, 16) + seq![ascii_offset]
}

/// The chain records of a table, back to back: each start, then its endpoint.
pub open spec fn records_bytes(chains: Seq<(Seq<u8>, Seq<u8>)>) -> Seq<u8>
    decreases chains.len(),
{
    if chains.len() == 0 {
        Seq::empty()
    } else {
        records_bytes(chains.drop_last()) + chains.last().0 + chains.last().1
    }
}

/// Where the chain records of a well-framed table begin.
pub open spec fn table_body_start(d: Seq<u8>) -> int {
    48 + d[13] as int
}

/// Whether `d` holds a whole rainbow-table header with a non-zero password
/// length.
pub open spec fn table_framed(d: Seq<u8>) -> bool {
    &&& d.len() >= 14
    &&& d.subrange(0, 12) == table_magic()
    &&& d.len() >= table_body_start(d)
    &&& d[14 + d[13] as int] > 0
}

/// Record `i` of the chain records that start at `base`, for passwords of
/// length `p`.
pub open spec fn record_at(d: Seq<u8>, base: int, p: int, i: int) -> (Seq<u8>, Seq<u8>) {
    (d.subrange(base + 2 * p * i, base + 2 * p * i + p), d.subrange(base + 2 * p * i + p, base + 2 * p * i + 2 * p))
}

/// Whether the rainbow-table file `d` holds exactly these fields, chains and
/// trailing byte count.
pub open spec fn table_decodes_to(
    d: Seq<u8>,
    version: u8,
    name: Seq<u8>,
    password_len: u8,
    charset_size: nat,
    num_links: nat,
    ascii_offset: u8,
    chains: Seq<(Seq<u8>, Seq<u8>)>,
    trailing: nat,
) -> bool {
    let n = d[13] as int;
    let base = table_body_start(d);
    let p = password_len as int;
    &&& table_framed(d)
    &&& version == d[12]
    &&& name == d.subrange(14, 14 + n)
    &&& password_len == d[14 + n]
    &&& charset_size == be_value(d.subrange(15 + n, 31 + n))
    &&& num_links == be_value(d.subrange(31 + n, 47 + n))
    &&& ascii_offset == d[47 + n]
    &&& chains.len() == (d.len() - base) / (2 * p)
    &&& trailing == (d.len() - base) % (2 * p)
    &&& forall|i: int| 0 <= i < chains.len() ==> #[trigger] chains[i] == record_at(d, base, p, i)
}

/// The header of a table, with its algorithm name no longer than a length
/// byte can say.
pub fn encode_table_header(h: &TableHeader) -> (r: Vec<u8>)
    requires
        h.algorithm@.len() <= 255,
    ensures
        r@ == table_header_bytes(
            h.version,
            h.algorithm@,
            h.password_len,
            h.charset_size as nat,
            h.num_links as nat,
            h.ascii_offset,
        ),
{
    let mut r = bytes_of(&[114u8, 97u8, 105u8, 110u8, 98u8, 111u8, 119u8, 116u8, 97u8, 98u8, 108u8, 101u8]);
    r.push(h.version);
    r.push(h.algorithm.len() as u8);
    append_bytes(&mut r, h.algorithm.as_slice());
    r.push(h.password_len);
    push_be_u128(&mut r, h.charset_size);
    push_be_u128(&mut r, h.num_links);
    r.push(h.ascii_offset);
    proof {
        assert(r@ =~= table_header_bytes(
            h.version,
            h.algorithm@,
            h.password_len,
            h.charset_size as nat,
            h.num_links as nat,
            h.ascii_offset,
        ));
    }
    r
}

/// The header that the table builder writes: version 1, the algorithm's
/// name, the password length, 95 symbols, the chain length, offset 32.
pub fn rainbow_table_header(algo: &HashAlgorithm, password_len: u8, num_links: u128) -> (r: Vec<u8>)
    ensures
        r@ == table_header_bytes(1, algo_name(*algo), password_len, 95, num_links as nat, 32),
{
    let h = TableHeader {
        version: 1,
        algorithm: algorithm_name(algo),
        password_len,
        charset_size: 95,
        num_links,
        ascii_offset: 32,
    };
    encode_table_header(&h)
}

/// One chain record: the start password followed by the endpoint.
pub fn chain_record(start: &[u8], end: &[u8]) -> (r: Vec<u8>)
    ensures
        r@ == start@ + end@,
{
    let mut r: Vec<u8> = Vec::new();
    append_bytes(&mut r, start);
    append_bytes(&mut r, end);
    proof {
        assert(r@ =~= start@ + end@);
    }
    r
}

/// Takes a rainbow-table file apart. A file shorter than its header is
/// refused as unreadable, one without the magic word as invalid input, and
/// one with password length zero as invalid format.
pub fn parse_rainbow_table(data: &[u8]) -> (r: Result<TableFile, HashassinError>)
    ensures
        r is Ok <==> table_framed(data@),
        data@.len() < 12 ==> r matches Err(HashassinError::FileRead(_)),
        data@.len() >= 12 && data@.subrange(0, 12) != table_magic() ==> r matches Err(HashassinError::InvalidInput(_)),
        data@.len() >= 12 && data@.subrange(0, 12) == table_magic() && (data@.len() < 14 || data@.len() < table_body_start(data@)) ==> r matches Err(HashassinError::FileRead(_)),
        data@.len() >= 14 && data@.subrange(0, 12) == table_magic() && data@.len() >= table_body_start(data@) && data@[14 + data@[13] as int] == 0 ==> r matches Err(HashassinError::InvalidFormat(_)),
        r matches Ok(t) ==> table_decodes_to(
            data@,
            t.header.version,
            t.header.algorithm@,
            t.header.password_len,
            t.header.charset_size as nat,
            t.header.num_links as nat,
            t.header.ascii_offset,
            chain_views(t.chains@),
            t.trailing as nat,
        ),
{
    let len = data.len();
    if len < 12 {
        return Err(HashassinError::FileRead("file shorter than the magic word".to_owned()));
    }
    let magic = bytes_of(&[114u8, 97u8, 105u8, 110u8, 98u8, 111u8, 119u8, 116u8, 97u8, 98u8, 108u8, 101u8]);
    let head = copy_range(data, 0, 12);
    if !bytes_eq(head.as_slice(), magic.as_slice()) {
        return Err(HashassinError::InvalidInput("Invalid file format: missing magic word".to_owned()));
    }
    if len < 14 {
        return Err(HashassinError::FileRead("truncated header".to_owned()));
    }
    let n = data[13] as usize;
    let base = 48 + n;
    if len < base {
        return Err(HashassinError::FileRead("truncated header".to_owned()));
    }
    let p = data[14 + n] as usize;
    if p == 0 {
        return Err(HashassinError::InvalidFormat("password length is zero".to_owned()));
    }
    let header = TableHeader {
        version: data[12],
        algorithm: copy_range(data, 14, 14 + n),
        password_len: data[14 + n],
        charset_size: read_be_u128(data, 15 + n),
        num_links: read_be_u128(data, 31 + n),
        ascii_offset: data[47 + n],
    };
    let mut chains: Vec<ChainEntry> = Vec::new();
    let mut pos: usize = base;
    let ghost d = data@;
    while len - pos >= 2 * p
        invariant
            len == d.len(),
            d == data@,
            base == table_body_start(d),
            1 <= p <= 255,
            base <= pos <= len,
            pos == base + 2 * p * chains@.len(),
            forall|i: int| 0 <= i < chains@.len() ==> #[trigger] chain_views(chains@)[i] == record_at(d, base as int, p as int, i),
        decreases len - pos,
    {
        let start = copy_range(data, pos, pos + p);
        let end = copy_range(data, pos + p, pos + 2 * p);
        let ghost k = chains@.len() as int;
        let ghost before = chains@;
        chains.push(ChainEntry { start, end });
        proof {
            assert forall|i: int| 0 <= i < chains@.len() implies #[trigger] chain_views(chains@)[i] == record_at(d, base as int, p as int, i) by {
                assert(chain_views(chains@)[i] == (chains@[i].start@, chains@[i].end@));
                if i == k {
                    assert(pos == base + 2 * p * i);
                    assert(chains@[i].start@ == d.subrange(pos as int, pos + p));
                } else {
                    assert(chains@[i] == before[i]);
                    assert(chain_views(before)[i] == (before[i].start@, before[i].end@));
                }
            }
            assert(pos + 2 * p == base + 2 * p * (k + 1)) by (nonlinear_arith)
                requires
                    pos == base + 2 * p * k,
            ;
        }
        pos = pos + 2 * p;
    }
    proof {
        let q = chains@.len() as int;
        assert((len - base) as int == q * (2 * p) + (len - pos)) by (nonlinear_arith)
            requires
                pos == base + 2 * p * q,
                base <= pos <= len,
        ;
        vstd::arithmetic::div_mod::lemma_fundamental_div_mod_converse(
            (len - base) as int,
            (2 * p) as int,
            q,
            (len - pos) as int,
        );
        assert(chain_views(chains@).len() == q);
    }
    Ok(TableFile { header, chains, trailing: len - pos })
}


proof fn lemma_records_layout(chains: Seq<(Seq<u8>, Seq<u8>)>, p: int)
    requires
        p >= 1,
        forall|i: int| 0 <= i < chains.len() ==> (#[trigger] chains[i]).0.len() == p && chains[i].1.len() == p,
    ensures
        records_bytes(chains).len() == 2 * p * chains.len(),
        forall|i: int| 0 <= i < chains.len() ==> #[trigger] chains[i] == record_at(records_bytes(chains), 0, p, i),
    decreases chains.len(),
{
    if chains.len() > 0 {
        let init = chains.drop_last();
        let last = chains.last();
        assert forall|i: int| 0 <= i < init.len() implies (#[trigger] init[i]).0.len() == p && init[i].1.len() == p by {
            assert(init[i] == chains[i]);
        }
        lemma_records_layout(init, p);
        let r0 = records_bytes(init);
        let r = records_bytes(chains);
        let m = init.len() as int;
        assert(r == r0 + last.0 + last.1);
        assert(chains[m] == last);
        assert(2 * p * m + 2 * p == 2 * p * (m + 1)) by (nonlinear_arith);
        assert forall|i: int| 0 <= i < chains.len() implies #[trigger] chains[i] == record_at(r, 0, p, i) by {
            if i < m {
                assert(init[i] == chains[i]);
                assert(init[i] == record_at(r0, 0, p, i));
                assert(2 * p * i + 2 * p <= 2 * p * m) by (nonlinear_arith)
                    requires
                        i < m,
                        p >= 1,
                ;
                assert(r.subrange(2 * p * i, 2 * p * i + p) =~= r0.subrange(2 * p * i, 2 * p * i + p));
                assert(r.subrange(2 * p * i + p, 2 * p * i + 2 * p) =~= r0.subrange(2 * p * i + p, 2 * p * i + 2 * p));
            } else {
                assert(i == m);
                assert(r.subrange(2 * p * i, 2 * p * i + p) =~= last.0);
                assert(r.subrange(2 * p * i + p, 2 * p * i + 2 * p) =~= last.1);
            }
        }
    }
}

/// Table format round trip: the file that the header writer and the record
/// writer make of any fields and any chains whose passwords all have the
/// header's length decodes to exactly those fields and chains, with no bytes
/// left over. With no chains the file is the header alone.
pub proof fn lemma_table_round_trip(
    version: u8,
    name: Seq<u8>,
    password_len: u8,
    charset_size: u128,
    num_links: u128,
    ascii_offset: u8,
    chains: Seq<(Seq<u8>, Seq<u8>)>,
)
    requires
        name.len() <= 255,
        password_len >= 1,
        forall|i: int| 0 <= i < chains.len() ==> (#[trigger] chains[i]).0.len() == password_len && chains[i].1.len() == password_len,
    ensures
        table_decodes_to(
            table_header_bytes(version, name, password_len, charset_size as nat, num_links as nat, ascii_offset) + records_bytes(chains),
            version,
            name,
            password_len,
            charset_size as nat,
            num_links as nat,
            ascii_offset,
            chains,
            0,
        ),
{
    let p = password_len as int;
    let n = name.len() as int;
    let h = table_header_bytes(version, name, password_len, charset_size as nat, num_links as nat, ascii_offset);
    let r = records_bytes(chains);
    let d = h + r;
    assert(byte_power(16) == u128::MAX + 1) by {
        reveal_with_fuel(byte_power, 17);
    }
    lemma_be_round_trip(charset_size as nat, 16);
    lemma_be_round_trip(num_links as nat, 16);
    lemma_records_layout(chains, p);
    assert(h.len() == 48 + n);
    assert(d[13] == n as u8);
    assert(d.subrange(0, 12) =~= table_magic());
    assert(d.subrange(14, 14 + n) =~= name);
    assert(d[14 + n] == password_len);
    assert(d.subrange(15 + n, 31 + n) =~= be_bytes(charset_size as nat, 16));
    assert(d.subrange(31 + n, 47 + n) =~= be_bytes(num_links as nat, 16));
    assert(d[47 + n] == ascii_offset);
    let base = 48 + n;
    assert(table_body_start(d) == base);
    assert(d.len() - base == 2 * p * chains.len());
    vstd::arithmetic::div_mod::lemma_fundamental_div_mod_converse(
        d.len() - base,
        2 * p,
        chains.len() as int,
        0,
    );
    assert forall|i: int| 0 <= i < chains.len() implies #[trigger] chains[i] == record_at(d, base, p, i) by {
        assert(chains[i] == record_at(r, 0, p, i));
        assert(2 * p * i + 2 * p <= 2 * p * chains.len()) by (nonlinear_arith)
            requires
                i < chains.len(),
                p >= 1,
        ;
        assert(d.subrange(base + 2 * p * i, base + 2 * p * i + p) =~= r.subrange(2 * p * i, 2 * p * i + p));
        assert(d.subrange(base + 2 * p * i + p, base + 2 * p * i + 2 * p) =~= r.subrange(2 * p * i + p, 2 * p * i + 2 * p));
    }
}


/// The header of a hash file: version, name length, name, password length.
pub open spec fn hash_header_bytes(version: u8, name: Seq<u8>, password_len: u8) -> Seq<u8> {
    seq![version, name.len() as u8] + name + seq![password_len]
}

/// The header that the hash generator writes: version 1, the algorithm's
/// name, and the password length.
pub fn hash_file_header(algo: &HashAlgorithm, password_len: u8) -> (r: Vec<u8>)
    ensures
        r@ == hash_header_bytes(1, algo_name(*algo), password_len),
{
    let name = algorithm_name(algo);
    let mut r: Vec<u8> = Vec::new();
    r.push(1);
    r.push(name.len() as u8);
    append_bytes(&mut r, name.as_slice());
    r.push(password_len);
    proof {
        assert(r@ =~= hash_header_bytes(1, algo_name(*algo), password_len));
    }
    r
}

/// A hash file taken apart: its header fields and the digest bytes after it.
pub struct HashFile {
    pub version: u8,
    pub algorithm: Vec<u8>,
    pub password_len: u8,
    pub body: Vec<u8>,
}

/// Whether `d` holds a whole hash-file header.
pub open spec fn hash_framed(d: Seq<u8>) -> bool {
    d.len() >= 2 && d.len() >= 3 + d[1] as int
}

/// Whether the hash file `d` holds exactly these fields and digest bytes.
pub open spec fn hash_decodes_to(d: Seq<u8>, version: u8, name: Seq<u8>, password_len: u8, body: Seq<u8>) -> bool {
    let n = d[1] as int;
    &&& hash_framed(d)
    &&& version == d[0]
    &&& name == d.subrange(2, 2 + n)
    &&& password_len == d[2 + n]
    &&& body == d.subrange(3 + n, d.len() as int)
}

/// Takes a hash file apart; a file shorter than its header is refused as
/// unreadable.
pub fn parse_hash_file(data: &[u8]) -> (r: Result<HashFile, HashassinError>)
    ensures
        r is Ok <==> hash_framed(data@),
        r is Err ==> r matches Err(HashassinError::FileRead(_)),
        r matches Ok(f) ==> hash_decodes_to(data@, f.version, f.algorithm@, f.password_len, f.body@),
{
    let len = data.len();
    if len < 2 {
        return Err(HashassinError::FileRead("truncated hash file header".to_owned()));
    }
    let n = data[1] as usize;
    if len < 3 + n {
        return Err(HashassinError::FileRead("truncated hash file header".to_owned()));
    }
    Ok(HashFile {
        version: data[0],
        algorithm: copy_range(data, 2, 2 + n),
        password_len: data[2 + n],
        body: copy_range(data, 3 + n, len),
    })
}

/// Digests back to back.
pub open spec fn concat_all(ds: Seq<Seq<u8>>) -> Seq<u8>
    decreases ds.len(),
{
    if ds.len() == 0 {
        Seq::empty()
    } else {
        concat_all(ds.drop_last()) + ds.last()
    }
}

/// Whether `ds` are the whole `w`-byte pieces of `body`, in order; bytes after
/// the last whole piece are left out.
pub open spec fn digests_split(body: Seq<u8>, w: int, ds: Seq<Seq<u8>>) -> bool {
    &&& ds.len() == (body.len() as int) / w
    &&& forall|i: int| 0 <= i < ds.len() ==> #[trigger] ds[i] == body.subrange(w * i, w * i + w)
}

/// The byte strings of a list of digests.
pub open spec fn digest_views(v: Seq<Vec<u8>>) -> Seq<Seq<u8>> {
    v.map_values(|x: Vec<u8>| x@)
}

/// Cuts the digest bytes of a hash file into digests of `width` bytes.
pub fn split_digests(body: &[u8], width: usize) -> (r: Vec<Vec<u8>>)
    requires
        width > 0,
    ensures
        digests_split(body@, width as int, digest_views(r@)),
{
    let len = body.len();
    let mut r: Vec<Vec<u8>> = Vec::new();
    let mut pos: usize = 0;
    proof {
        assert(width * r@.len() == 0) by (nonlinear_arith)
            requires
                r@.len() == 0,
        ;
    }
    while len - pos >= width
        invariant
            len == body@.len(),
            width > 0,
            pos <= len,
            pos == width * r@.len(),
            forall|i: int| 0 <= i < r@.len() ==> #[trigger] digest_views(r@)[i] == body@.subrange(width * i, width * i + width),
        decreases len - pos,
    {
        let piece = copy_range(body, pos, pos + width);
        let ghost k = r@.len() as int;
        let ghost before = r@;
        r.push(piece);
        proof {
            assert forall|i: int| 0 <= i < r@.len() implies #[trigger] digest_views(r@)[i] == body@.subrange(width * i, width * i + width) by {
                assert(digest_views(r@)[i] == r@[i]@);
                if i < k {
                    assert(r@[i] == before[i]);
                    assert(digest_views(before)[i] == before[i]@);
                }
            }
            assert(pos + width == width * (k + 1)) by (nonlinear_arith)
                requires
                    pos == width * k,
            ;
        }
        pos = pos + width;
    }
    proof {
        let q = r@.len() as int;
        assert(len as int == q * width + (len - pos)) by (nonlinear_arith)
            requires
                pos == width * q,
        ;
        vstd::arithmetic::div_mod::lemma_fundamental_div_mod_converse(len as int, width as int, q, (len - pos) as int);
        assert(digest_views(r@).len() == q);
    }
    r
}

proof fn lemma_concat_layout(ds: Seq<Seq<u8>>, w: int)
    requires
        w >= 1,
        forall|i: int| 0 <= i < ds.len() ==> (#[trigger] ds[i]).len() == w,
    ensures
        concat_all(ds).len() == w * ds.len(),
        forall|i: int| 0 <= i < ds.len() ==> #[trigger] ds[i] == concat_all(ds).subrange(w * i, w * i + w),
    decreases ds.len(),
{
    if ds.len() > 0 {
        let init = ds.drop_last();
        assert forall|i: int| 0 <= i < init.len() implies (#[trigger] init[i]).len() == w by {
            assert(init[i] == ds[i]);
        }
        lemma_concat_layout(init, w);
        let c0 = concat_all(init);
        let c = concat_all(ds);
        let m = init.len() as int;
        assert(w * m + w == w * (m + 1)) by (nonlinear_arith);
        assert forall|i: int| 0 <= i < ds.len() implies #[trigger] ds[i] == c.subrange(w * i, w * i + w) by {
            if i < m {
                assert(init[i] == ds[i]);
                assert(w * i + w <= w * m) by (nonlinear_arith)
                    requires
                        i < m,
                        w >= 1,
                ;
                assert(c.subrange(w * i, w * i + w) =~= c0.subrange(w * i, w * i + w));
            } else {
                assert(c.subrange(w * i, w * i + w) =~= ds.last());
            }
        }
    }
}

/// Hash format round trip: a hash file made of the header writer's bytes and
/// any digests of one width decodes to exactly that header, and its digest
/// bytes cut at that width give back exactly those digests.
pub proof fn lemma_hash_file_round_trip(
    version: u8,
    name: Seq<u8>,
    password_len: u8,
    width: int,
    digests: Seq<Seq<u8>>,
)
    requires
        name.len() <= 255,
        width >= 1,
        forall|i: int| 0 <= i < digests.len() ==> (#[trigger] digests[i]).len() == width,
    ensures
        hash_decodes_to(hash_header_bytes(version, name, password_len) + concat_all(digests), version, name, password_len, concat_all(digests)),
        digests_split(concat_all(digests), width, digests),
        concat_all(digests).len() == width * digests.len(),
{
    let h = hash_header_bytes(version, name, password_len);
    let c = concat_all(digests);
    let d = h + c;
    let n = name.len() as int;
    assert(d[1] == n as u8);
    assert(d.subrange(2, 2 + n) =~= name);
    assert(d[2 + n] == password_len);
    assert(d.subrange(3 + n, d.len() as int) =~= c);
    lemma_concat_layout(digests, width);
    assert(c.len() as int == digests.len() * width + 0) by (nonlinear_arith)
        requires
            c.len() == width * digests.len(),
    ;
    vstd::arithmetic::div_mod::lemma_fundamental_div_mod_converse(c.len() as int, width, digests.len() as int, 0);
}

} // verus!
