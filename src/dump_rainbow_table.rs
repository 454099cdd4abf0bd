use vstd::prelude::*;
use vstd::utf8::{decode_utf8, valid_utf8};
use crate::bytes::be_value;
use crate::error::HashassinError;
use crate::format::{
    chain_views, lemma_table_round_trip, parse_rainbow_table, record_at, records_bytes,
    table_body_start, table_framed, table_header_bytes, table_magic,
};
use crate::crack::line_views;
use crate::text::{decimal_of, labelled, lossy_of, lossy_text, push_text, text_from_utf8};

verus! {

/// The header lines of a table dump.
pub open spec fn dump_header_lines(
    version: u8,
    name: Seq<char>,
    password_len: u8,
    charset_size: nat,
    num_links: nat,
    ascii_offset: u8,
) -> Seq<Seq<char>> {
    seq![
        "Hashassin Rainbow Table"@,
        "VERSION: "@ + decimal_of(version as nat),
        "ALGORITHM: "@ + name,
        "PASSWORD LENGTH: "@ + decimal_of(password_len as nat),
        "CHAR SET SIZE: "@ + decimal_of(charset_size),
        "NUM LINKS: "@ + decimal_of(num_links),
        "ASCII OFFSET: "@ + decimal_of(ascii_offset as nat),
    ]
}

/// The dump line of one chain: start, a tab, endpoint.
pub open spec fn dump_chain_line(c: (Seq<u8>, Seq<u8>)) -> Seq<char> {
    lossy_of(c.0) + "\t"@ + lossy_of(c.1)
}

/// The dump of a table: its header lines, then one line per chain.
pub open spec fn dump_lines(
    version: u8,
    name: Seq<char>,
    password_len: u8,
    charset_size: nat,
    num_links: nat,
    ascii_offset: u8,
    chains: Seq<(Seq<u8>, Seq<u8>)>,
) -> Seq<Seq<char>> {
    dump_header_lines(version, name, password_len, charset_size, num_links, ascii_offset) + chains.map_values(
        |c: (Seq<u8>, Seq<u8>)| dump_chain_line(c),
    )
}

/// The dump of the table file `d`, read field by field.
pub open spec fn dump_of(d: Seq<u8>) -> Seq<Seq<char>> {
    let n = d[13] as int;
    let base = table_body_start(d);
    let p = d[14 + n] as int;
    dump_lines(
        d[12],
        decode_utf8(d.subrange(14, 14 + n)),
        d[14 + n],
        be_value(d.subrange(15 + n, 31 + n)),
        be_value(d.subrange(31 + n, 47 + n)),
        d[47 + n],
        Seq::new(((d.len() - base) / (2 * p)) as nat, |i: int| record_at(d, base, p, i)),
    )
}

/// Dumps a rainbow-table file as text lines: the header fields, then each
/// chain as start and endpoint. Fails as `rainbow_table_header` parsing does,
/// with `InvalidInput` when the algorithm name is not UTF-8 or when a partial
/// chain record ends the file.
pub fn dump_rainbow_table(data: &[u8]) -> (r: Result<Vec<String>, HashassinError>)
    ensures
        r is Ok <==> table_framed(data@) && valid_utf8(data@.subrange(14, 14 + data@[13] as int))
            && (data@.len() - table_body_start(data@)) % (2 * data@[14 + data@[13] as int] as int) == 0,
        r matches Ok(v) ==> line_views(v@) == dump_of(data@),
        data@.len() < 12 ==> r matches Err(HashassinError::FileRead(_)),
        data@.len() >= 12 && data@.subrange(0, 12) != table_magic() ==> r matches Err(HashassinError::InvalidInput(_)),
        data@.len() >= 12 && data@.subrange(0, 12) == table_magic() && (data@.len() < 14 || data@.len() < table_body_start(data@))
            ==> r matches Err(HashassinError::FileRead(_)),
        data@.len() >= 14 && data@.subrange(0, 12) == table_magic() && data@.len() >= table_body_start(data@)
            && data@[14 + data@[13] as int] == 0 ==> r matches Err(HashassinError::InvalidFormat(_)),
        table_framed(data@) && !valid_utf8(data@.subrange(14, 14 + data@[13] as int)) ==> r matches Err(HashassinError::InvalidInput(_)),
        table_framed(data@) && (data@.len() - table_body_start(data@)) % (2 * data@[14 + data@[13] as int] as int) != 0
            ==> r matches Err(HashassinError::InvalidInput(_)),
{
    let file = match parse_rainbow_table(data) {
        Ok(f) => f,
        Err(e) => {
            return Err(e);
        },
    };
    let ghost d = data@;
    let ghost name_bytes = file.header.algorithm@;
    let name = match text_from_utf8(file.header.algorithm) {
        Some(s) => s,
        None => {
            return Err(HashassinError::InvalidInput("Invalid UTF-8 in algorithm name".to_owned()));
        },
    };
    if file.trailing != 0 {
        return Err(HashassinError::InvalidInput("Invalid chain size in file".to_owned()));
    }
    let mut lines: Vec<String> = Vec::new();
    let mut title = String::new();
    push_text(&mut title, "Hashassin Rainbow Table");
    lines.push(title);
    lines.push(labelled("VERSION: ", file.header.version as u128));
    let mut alg = String::new();
    push_text(&mut alg, "ALGORITHM: ");
    push_text(&mut alg, name.as_str());
    lines.push(alg);
    lines.push(labelled("PASSWORD LENGTH: ", file.header.password_len as u128));
    lines.push(labelled("CHAR SET SIZE: ", file.header.charset_size));
    lines.push(labelled("NUM LINKS: ", file.header.num_links));
    lines.push(labelled("ASCII OFFSET: ", file.header.ascii_offset as u128));
    let ghost head = dump_header_lines(
        file.header.version,
        name@,
        file.header.password_len,
        file.header.charset_size as nat,
        file.header.num_links as nat,
        file.header.ascii_offset,
    );
    let ghost cs = chain_views(file.chains@);
    proof {
        assert(line_views(lines@) =~= head);
    }
    let mut i: usize = 0;
    while i < file.chains.len()
        invariant
            i <= file.chains@.len(),
            cs == chain_views(file.chains@),
            line_views(lines@) == head + cs.subrange(0, i as int).map_values(|c: (Seq<u8>, Seq<u8>)| dump_chain_line(c)),
        decreases file.chains.len() - i,
    {
        let c = &file.chains[i];
        let mut line = lossy_text(c.start.as_slice());
        push_text(&mut line, "\t");
        let e = lossy_text(c.end.as_slice());
        push_text(&mut line, e.as_str());
        let ghost before = lines@;
        lines.push(line);
        proof {
            assert(cs[i as int] == (c.start@, c.end@));
            assert(line_views(lines@) =~= line_views(before).push(line@));
            assert(cs.subrange(0, i + 1).map_values(|c: (Seq<u8>, Seq<u8>)| dump_chain_line(c)) =~= cs.subrange(0, i as int).map_values(
                |c: (Seq<u8>, Seq<u8>)| dump_chain_line(c),
            ).push(dump_chain_line(cs[i as int])));
        }
        i += 1;
    }
    proof {
        assert(cs.subrange(0, cs.len() as int) =~= cs);
        let n = d[13] as int;
        let base = table_body_start(d);
        let p = d[14 + n] as int;
        assert(cs =~= Seq::new(((d.len() - base) / (2 * p)) as nat, |i: int| record_at(d, base, p, i)));
        assert(line_views(lines@) =~= dump_of(data@));
    }
    Ok(lines)
}

/// Dump round trip: the dump of a table file built from a header with a
/// UTF-8 algorithm name and any chains of the header's password length shows
/// exactly that header and those chains. A table without chains dumps as
/// its header lines alone.
pub proof fn lemma_dump_round_trip(
    version: u8,
    name: Seq<u8>,
    password_len: u8,
    charset_size: u128,
    num_links: u128,
    ascii_offset: u8,
    chains: Seq<(Seq<u8>, Seq<u8>)>,
)
    requires
        name.len() <= 255,
        password_len >= 1,
        forall|i: int| 0 <= i < chains.len() ==> (#[trigger] chains[i]).0.len() == password_len && chains[i].1.len() == password_len,
    ensures
        dump_of(table_header_bytes(version, name, password_len, charset_size as nat, num_links as nat, ascii_offset) + records_bytes(chains))
            == dump_lines(version, decode_utf8(name), password_len, charset_size as nat, num_links as nat, ascii_offset, chains),
        chains.len() == 0 ==> dump_of(table_header_bytes(version, name, password_len, charset_size as nat, num_links as nat, ascii_offset))
            == dump_header_lines(version, decode_utf8(name), password_len, charset_size as nat, num_links as nat, ascii_offset),
{
    lemma_table_round_trip(version, name, password_len, charset_size, num_links, ascii_offset, chains);
    let d = table_header_bytes(version, name, password_len, charset_size as nat, num_links as nat, ascii_offset) + records_bytes(chains);
    let n = d[13] as int;
    let base = table_body_start(d);
    let p = d[14 + n] as int;
    assert(chains =~= Seq::new(((d.len() - base) / (2 * p)) as nat, |i: int| record_at(d, base, p, i)));
    if chains.len() == 0 {
        assert(records_bytes(chains) =~= Seq::<u8>::empty());
        assert(d =~= table_header_bytes(version, name, password_len, charset_size as nat, num_links as nat, ascii_offset));
        assert(dump_lines(version, decode_utf8(name), password_len, charset_size as nat, num_links as nat, ascii_offset, chains)
            =~= dump_header_lines(version, decode_utf8(name), password_len, charset_size as nat, num_links as nat, ascii_offset));
    }
}

} // verus!
