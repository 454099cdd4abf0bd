use vstd::prelude::*;
use crate::bytes::copy_range;
use crate::crack::line_views;
use crate::error::HashassinError;
use crate::format::{algorithm_from_name, algorithm_named, concat_all, hash_header_bytes, lemma_hash_file_round_trip};
use crate::hash::HashAlgorithm;
use crate::text::{decimal_of, labelled, hex_of, lossy_of, lossy_text, push_text, to_hex};

verus! {

/// The digest width that the dump reads for an algorithm; zero for scrypt,
/// whose digests are not of one width.
pub open spec fn hash_size_of(a: HashAlgorithm) -> usize {
    match a {
        HashAlgorithm::Md5 => 16,
        HashAlgorithm::Sha256 => 32,
        HashAlgorithm::Sha3_512 => 64,
        HashAlgorithm::Scrypt => 0,
    }
}

/// The digest width for an algorithm name, ignoring ASCII case; nothing for
/// an unknown name.
pub fn get_hash_size(algorithm: &[u8]) -> (r: Option<usize>)
    ensures
        r == (match algorithm_named(algorithm@) {
            Some(a) => Some(hash_size_of(a)),
            None => None::<usize>,
        }),
{
    match algorithm_from_name(algorithm) {
        Some(HashAlgorithm::Md5) => Some(16),
        Some(HashAlgorithm::Sha256) => Some(32),
        Some(HashAlgorithm::Sha3_512) => Some(64),
        Some(HashAlgorithm::Scrypt) => Some(0),
        None => None,
    }
}

/// The marker that opens each scrypt PHC string: `$scrypt`.
pub open spec fn scrypt_marker() -> Seq<u8> {
    seq![36u8, 115u8, 99u8, 114u8, 121u8, 112u8, 116u8]
}

/// Whether the marker starts at `i`.
pub open spec fn marker_at(s: Seq<u8>, i: int) -> bool {
    0 <= i && i + 7 <= s.len() && s.subrange(i, i + 7) == scrypt_marker()
}

/// The pieces of `s` between marker occurrences, scanning left to right from
/// `from` with the current piece begun at `start`.
pub open spec fn split_marker(s: Seq<u8>, from: int, start: int) -> Seq<Seq<u8>>
    decreases s.len() - from,
{
    if from >= s.len() {
        seq![s.subrange(start, s.len() as int)]
    } else if marker_at(s, from) {
        seq![s.subrange(start, from)] + split_marker(s, from + 7, from + 7)
    } else {
        split_marker(s, from + 1, start)
    }
}

/// The dump lines of scrypt digests: each non-empty piece between markers,
/// with the marker put back in front.
pub open spec fn scrypt_lines(pieces: Seq<Seq<u8>>) -> Seq<Seq<char>>
    decreases pieces.len(),
{
    if pieces.len() == 0 {
        Seq::empty()
    } else {
        let prev = scrypt_lines(pieces.drop_last());
        if pieces.last().len() == 0 {
            prev
        } else {
            prev.push("$scrypt"@ + lossy_of(pieces.last()))
        }
    }
}

/// The dump lines of fixed-width digests: each whole digest in hex.
pub open spec fn hex_lines(body: Seq<u8>, w: int) -> Seq<Seq<char>> {
    Seq::new(((body.len() as int) / w) as nat, |i: int| hex_of(body.subrange(w * i, w * i + w)))
}

/// The header lines of a hash dump.
pub open spec fn hash_dump_head(d: Seq<u8>) -> Seq<Seq<char>> {
    let n = d[1] as int;
    seq![
        "VERSION: "@ + decimal_of(d[0] as nat),
        "ALGORITHM: "@ + lossy_of(d.subrange(2, 2 + n)),
        "PASSWORD LENGTH: "@ + decimal_of(d[2 + n] as nat),
    ]
}

fn scrypt_pieces(s: &[u8]) -> (r: Vec<Vec<u8>>)
    ensures
        crate::format::digest_views(r@) == split_marker(s@, 0, 0),
{
    let marker = copy_range(&[36u8, 115u8, 99u8, 114u8, 121u8, 112u8, 116u8], 0, 7);
    proof {
        assert(marker@ =~= scrypt_marker());
    }
    let len = s.len();
    let mut out: Vec<Vec<u8>> = Vec::new();
    let mut from: usize = 0;
    let mut start: usize = 0;
    while from < len
        invariant
            len == s@.len(),
            marker@ == scrypt_marker(),
            start <= from <= len,
            split_marker(s@, 0, 0) == crate::format::digest_views(out@) + split_marker(s@, from as int, start as int),
        decreases len - from,
    {
        let ghost before = out@;
        let hit = if len - from >= 7 {
            let w = copy_range(s, from, from + 7);
            crate::bytes::bytes_eq(w.as_slice(), marker.as_slice())
        } else {
            false
        };
        if hit {
            out.push(copy_range(s, start, from));
            proof {
                assert(marker_at(s@, from as int));
                assert(crate::format::digest_views(out@) =~= crate::format::digest_views(before).push(s@.subrange(start as int, from as int)));
                assert(crate::format::digest_views(out@) + split_marker(s@, from + 7, from + 7) =~= crate::format::digest_views(before)
                    + (seq![s@.subrange(start as int, from as int)] + split_marker(s@, from + 7, from + 7)));
            }
            from = from + 7;
            start = from;
        } else {
            proof {
                assert(!marker_at(s@, from as int));
            }
            from = from + 1;
        }
    }
    let ghost before = out@;
    out.push(copy_range(s, start, len));
    proof {
        assert(crate::format::digest_views(out@) =~= crate::format::digest_views(before).push(s@.subrange(start as int, len as int)));
        assert(crate::format::digest_views(out@) =~= crate::format::digest_views(before) + split_marker(s@, from as int, start as int));
    }
    out
}

/// Whether every byte is zero.
pub open spec fn all_zero(s: Seq<u8>) -> bool {
    forall|i: int| 0 <= i < s.len() ==> s[i] == 0
}

/// Dumps a hash file as text lines: version, algorithm and password length,
/// then each digest. Scrypt digests are split at their `$scrypt` markers;
/// other digests are read at their algorithm's width and shown in hex. Bytes
/// after the last whole digest must be zeros.
pub fn dump_hashes(data: &[u8]) -> (r: Result<Vec<String>, HashassinError>)
    ensures
        data@.len() < 4 || data@.len() < 3 + data@[1] as int ==> r matches Err(HashassinError::InvalidFormat(_)),
        data@.len() >= 4 && data@.len() >= 3 + data@[1] as int ==> ({
            let d = data@;
            let n = d[1] as int;
            let body = d.subrange(3 + n, d.len() as int);
            match algorithm_named(d.subrange(2, 2 + n)) {
                None => r matches Err(HashassinError::UnknownAlgorithm(_)),
                Some(HashAlgorithm::Scrypt) => r is Ok && line_views(r->Ok_0@) == hash_dump_head(d) + scrypt_lines(split_marker(body, 0, 0)),
                Some(a) => {
                    let w = hash_size_of(a) as int;
                    let tail = body.subrange(body.len() - (body.len() as int) % w, body.len() as int);
                    &&& (r is Ok <==> all_zero(tail))
                    &&& r is Ok ==> line_views(r->Ok_0@) == hash_dump_head(d) + hex_lines(body, w)
                    &&& r is Err ==> r->Err_0 is InvalidFormat
                },
            }
        }),
{
    let len = data.len();
    if len < 4 {
        return Err(HashassinError::InvalidFormat("Invalid file format: file too small".to_owned()));
    }
    let n = data[1] as usize;
    if len < 3 + n {
        return Err(HashassinError::InvalidFormat("Invalid algorithm length".to_owned()));
    }
    let name = copy_range(data, 2, 2 + n);
    let size = match get_hash_size(name.as_slice()) {
        Some(w) => w,
        None => {
            return Err(HashassinError::UnknownAlgorithm("Unsupported algorithm".to_owned()));
        },
    };
    let mut lines: Vec<String> = Vec::new();
    lines.push(labelled("VERSION: ", data[0] as u128));
    let mut alg = String::new();
    push_text(&mut alg, "ALGORITHM: ");
    let shown = lossy_text(name.as_slice());
    push_text(&mut alg, shown.as_str());
    lines.push(alg);
    lines.push(labelled("PASSWORD LENGTH: ", data[2 + n] as u128));
    let ghost d = data@;
    let ghost head = hash_dump_head(d);
    proof {
        assert(line_views(lines@) =~= head);
    }
    let body = copy_range(data, 3 + n, len);
    if size == 0 {
        let pieces = scrypt_pieces(body.as_slice());
        let ghost ps = crate::format::digest_views(pieces@);
        let mut i: usize = 0;
        while i < pieces.len()
            invariant
                i <= pieces@.len(),
                ps == crate::format::digest_views(pieces@),
                line_views(lines@) == head + scrypt_lines(ps.subrange(0, i as int)),
            decreases pieces.len() - i,
        {
            proof {
                let pi = ps.subrange(0, i + 1);
                assert(pi.drop_last() =~= ps.subrange(0, i as int));
                assert(pi.last() == pieces@[i as int]@);
            }
            if pieces[i].len() > 0 {
                let mut line = String::new();
                push_text(&mut line, "$scrypt");
                let t = lossy_text(pieces[i].as_slice());
                push_text(&mut line, t.as_str());
                let ghost before = lines@;
                lines.push(line);
                proof {
                    assert(line_views(lines@) =~= line_views(before).push(line@));
                }
            }
            i += 1;
        }
        proof {
            assert(ps.subrange(0, ps.len() as int) =~= ps);
        }
        return Ok(lines);
    }
    let blen = body.len();
    let mut pos: usize = 0;
    let mut k: usize = 0;
    while blen - pos >= size
        invariant
            blen == body@.len(),
            size > 0,
            pos == size * k,
            k <= pos,
            pos <= blen,
            line_views(lines@) == head + Seq::new(k as nat, |i: int| hex_of(body@.subrange(size * i, size * i + size))),
        decreases blen - pos,
    {
        let h = to_hex(copy_range(body.as_slice(), pos, pos + size).as_slice());
        let ghost before = lines@;
        lines.push(h);
        proof {
            assert(line_views(lines@) =~= line_views(before).push(h@));
            assert(line_views(lines@) =~= head + Seq::new((k + 1) as nat, |i: int| hex_of(body@.subrange(size * i, size * i + size))));
            assert(pos + size == size * (k + 1)) by (nonlinear_arith)
                requires
                    pos == size * k,
            ;
            assert(k + 1 <= pos + size) by (nonlinear_arith)
                requires
                    pos == size * k,
                    size >= 1,
            ;
        }
        pos = pos + size;
        k = k + 1;
    }
    proof {
        assert(blen as int == k * size + (blen - pos)) by (nonlinear_arith)
            requires
                pos == size * k,
        ;
        vstd::arithmetic::div_mod::lemma_fundamental_div_mod_converse(blen as int, size as int, k as int, (blen - pos) as int);
        assert(hex_lines(body@, size as int) =~= Seq::new(k as nat, |i: int| hex_of(body@.subrange(size * i, size * i + size))));
    }
    let mut j: usize = pos;
    while j < blen
        invariant
            pos <= j <= blen,
            blen == body@.len(),
            size > 0,
            pos == blen - (blen as int) % (size as int),
            n == data@[1],
            3 + n <= data@.len(),
            body@ == data@.subrange(3 + n as int, data@.len() as int),
            Some(size) == (match algorithm_named(data@.subrange(2, 2 + n as int)) {
                Some(a) => Some(hash_size_of(a)),
                None => None::<usize>,
            }),
            forall|t: int| pos <= t < j ==> body@[t] == 0,
        decreases blen - j,
    {
        if body[j] != 0 {
            proof {
                assert(body@.subrange(pos as int, blen as int)[j - pos] != 0);
            }
            return Err(HashassinError::InvalidFormat("Trailing data detected after hashes".to_owned()));
        }
        j += 1;
    }
    proof {
        assert(all_zero(body@.subrange(pos as int, blen as int)));
    }
    Ok(lines)
}

/// Hash dump round trip: the dump of a hash file built from a header and
/// digests of one width shows that header's version, name and password
/// length, then exactly those digests in hex, with no trailing bytes.
pub proof fn lemma_hash_dump_round_trip(version: u8, name: Seq<u8>, password_len: u8, width: int, digests: Seq<Seq<u8>>)
    requires
        name.len() <= 255,
        width >= 1,
        forall|i: int| 0 <= i < digests.len() ==> (#[trigger] digests[i]).len() == width,
    ensures
        ({
            let d = hash_header_bytes(version, name, password_len) + concat_all(digests);
            let body = d.subrange(3 + d[1] as int, d.len() as int);
            &&& hash_dump_head(d) == seq![
                "VERSION: "@ + decimal_of(version as nat),
                "ALGORITHM: "@ + lossy_of(name),
                "PASSWORD LENGTH: "@ + decimal_of(password_len as nat),
            ]
            &&& hex_lines(body, width) == digests.map_values(|x: Seq<u8>| hex_of(x))
            &&& (body.len() as int) % width == 0
        }),
{
    lemma_hash_file_round_trip(version, name, password_len, width, digests);
    let d = hash_header_bytes(version, name, password_len) + concat_all(digests);
    let body = d.subrange(3 + d[1] as int, d.len() as int);
    assert(body == concat_all(digests));
    assert(hash_dump_head(d) =~= seq![
        "VERSION: "@ + decimal_of(version as nat),
        "ALGORITHM: "@ + lossy_of(name),
        "PASSWORD LENGTH: "@ + decimal_of(password_len as nat),
    ]);
    assert(hex_lines(body, width) =~= digests.map_values(|x: Seq<u8>| hex_of(x)));
    assert(body.len() as int == digests.len() * width + 0) by (nonlinear_arith)
        requires
            body.len() == width * digests.len(),
    ;
    vstd::arithmetic::div_mod::lemma_fundamental_div_mod_converse(body.len() as int, width, digests.len() as int, 0);
}

} // verus!
