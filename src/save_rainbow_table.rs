use vstd::prelude::*;
use vstd::utf8::{decode_utf8, valid_utf8};
use crate::cache_memory::{BucketMap, Cache, bucket_of};
use crate::error::ServerError;
use crate::format::{ChainEntry, parse_rainbow_table, record_at, table_body_start, table_framed};
use crate::text::{decimal, decimal_of, push_text, text_from_utf8};
use crate::bytes::be_value;

verus! {

/// The reply to a successful upload.
pub open spec fn upload_message(count: nat, name: Seq<char>) -> Seq<char> {
    "Successfully uploaded "@ + decimal_of(count) + " chains for algorithm '"@ + name + "'"@
}

/// The complete chain records of a well-framed table file, in file order.
pub open spec fn table_records(d: Seq<u8>) -> Seq<(Seq<u8>, Seq<u8>)> {
    let base = table_body_start(d);
    let p = d[14 + d[13] as int] as int;
    Seq::new(((d.len() - base) / (2 * p)) as nat, |i: int| record_at(d, base, p, i))
}

/// The bucket map with `cs` appended to the bucket of `k`; unchanged when
/// `cs` is empty.
pub open spec fn with_chains(m: BucketMap, k: (Seq<char>, u8, u32), cs: Seq<(Seq<u8>, Seq<u8>)>) -> BucketMap {
    if cs.len() == 0 {
        m
    } else {
        m.insert(k, bucket_of(m, k) + cs)
    }
}

/// Handles an upload request's payload, a rainbow-table file: every complete
/// chain record goes into the bucket of the table's algorithm name, password
/// length and chain length, and the reply counts them. A payload without a
/// whole header, or with a chain length beyond 32 bits, is refused as
/// `MetadataError`, and an algorithm name that is not UTF-8 as `Utf8Error`;
/// the cache is then unchanged.
pub fn upload(cache: &mut Cache, payload: &[u8]) -> (r: Result<String, ServerError>)
    requires
        old(cache).wf(),
    ensures
        final(cache).wf(),
        final(cache).cracked() == old(cache).cracked(),
        final(cache).size() == old(cache).size(),
        final(cache).max_size() == old(cache).max_size(),
        !table_framed(payload@) ==> r matches Err(ServerError::MetadataError),
        table_framed(payload@) ==> ({
            let d = payload@;
            let n = d[13] as int;
            let name = d.subrange(14, 14 + n);
            let links = be_value(d.subrange(31 + n, 47 + n));
            if !valid_utf8(name) {
                r matches Err(ServerError::Utf8Error(_))
            } else if links > u32::MAX {
                r matches Err(ServerError::MetadataError)
            } else {
                &&& r is Ok
                &&& r matches Ok(s) ==> s@ == upload_message(table_records(d).len(), decode_utf8(name))
                &&& final(cache).chains() == with_chains(
                    old(cache).chains(),
                    (decode_utf8(name), d[14 + n], links as u32),
                    table_records(d),
                )
            }
        }),
        r is Err ==> final(cache).chains() == old(cache).chains(),
{
    let file = match parse_rainbow_table(payload) {
        Ok(f) => f,
        Err(_) => {
            return Err(ServerError::MetadataError);
        },
    };
    let name = match text_from_utf8(file.header.algorithm) {
        Some(s) => s,
        None => {
            return Err(ServerError::Utf8Error("algorithm name is not UTF-8".to_owned()));
        },
    };
    if file.header.num_links > 0xffff_ffff {
        return Err(ServerError::MetadataError);
    }
    let links = file.header.num_links as u32;
    let p = file.header.password_len;
    let ghost d = payload@;
    let ghost key: (Seq<char>, u8, u32) = (name@, p, links);
    let ghost recs = table_records(d);
    proof {
        assert(crate::format::chain_views(file.chains@) =~= recs);
    }
    let mut i: usize = 0;
    while i < file.chains.len()
        invariant
            cache.wf(),
            cache.cracked() == old(cache).cracked(),
            cache.size() == old(cache).size(),
            cache.max_size() == old(cache).max_size(),
            i <= file.chains@.len(),
            crate::format::chain_views(file.chains@) == recs,
            key == (name@, p, links),
            cache.chains() == with_chains(old(cache).chains(), key, recs.subrange(0, i as int)),
        decreases file.chains.len() - i,
    {
        let c = ChainEntry::new(file.chains[i].start.clone(), file.chains[i].end.clone());
        let ghost before = cache.chains();
        let nm: &str = name.as_str();
        cache.insert_chain(nm, p, links, c);
        proof {
            let m = old(cache).chains();
            let prior = bucket_of(m, key);
            let cv = (c.start@, c.end@);
            assert(crate::format::chain_views(file.chains@)[i as int] == (file.chains@[i as int].start@, file.chains@[i as int].end@));
            assert(cv == recs[i as int]);
            assert(recs.subrange(0, i + 1) =~= recs.subrange(0, i as int).push(recs[i as int]));
            let want = with_chains(m, key, recs.subrange(0, i + 1));
            let bv = bucket_of(before, key);
            assert(cache.chains() == before.insert(key, bv.push(cv)));
            assert(recs.subrange(0, i + 1).len() == i + 1);
            if i == 0 {
                assert(before == m);
                assert(prior + recs.subrange(0, 1) =~= prior.push(cv));
            } else {
                assert(before[key] == prior + recs.subrange(0, i as int));
                assert(prior + recs.subrange(0, i + 1) =~= (prior + recs.subrange(0, i as int)).push(cv));
            }
            assert(cache.chains() =~= want);
        }
        i += 1;
    }
    proof {
        assert(recs.subrange(0, recs.len() as int) =~= recs);
    }
    let mut msg = String::new();
    push_text(&mut msg, "Successfully uploaded ");
    let count = decimal(file.chains.len() as u128);
    push_text(&mut msg, count.as_str());
    push_text(&mut msg, " chains for algorithm '");
    push_text(&mut msg, name.as_str());
    push_text(&mut msg, "'");
    proof {
        assert(msg@ =~= upload_message(recs.len(), name@));
    }
    Ok(msg)
}

} // verus!
