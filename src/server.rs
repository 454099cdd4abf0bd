use vstd::prelude::*;
use crate::bytes::{be_value, bytes_eq, copy_range, read_be_u64};
use crate::cache_memory::CrackedPassword;
use crate::crack_hashes::cracked_views;
use crate::error::ServerError;
use crate::text::{push_text};

verus! {

/// A request as the client framed it.
pub enum Request {
    /// A table upload: protocol version, table name, declared payload size,
    /// and the table file.
    Upload { version: u8, name: Vec<u8>, payload_size: u64, payload: Vec<u8> },
    /// A crack request: protocol version, declared payload size, and the hash
    /// file.
    Crack { version: u8, payload_size: u64, payload: Vec<u8> },
}

/// The magic word of a crack request: `crack`.
pub open spec fn crack_word() -> Seq<u8> {
    seq![99u8, 114u8, 97u8, 99u8, 107u8]
}

/// The magic word of an upload request: `upload`.
pub open spec fn upload_word() -> Seq<u8> {
    seq![117u8, 112u8, 108u8, 111u8, 97u8, 100u8]
}

/// Whether `d` frames a whole crack request.
pub open spec fn crack_framed(d: Seq<u8>) -> bool {
    &&& d.len() >= 14
    &&& d.subrange(0, 5) == crack_word()
    &&& d.len() - 14 >= be_value(d.subrange(6, 14))
}

/// Whether `d` frames a whole upload request.
pub open spec fn upload_framed(d: Seq<u8>) -> bool {
    &&& d.len() >= 8
    &&& d.subrange(0, 5) != crack_word()
    &&& d.subrange(0, 6) == upload_word()
    &&& d.len() >= 16 + d[7] as int
    &&& d.len() - 16 - d[7] as int >= be_value(d.subrange(8 + d[7] as int, 16 + d[7] as int))
}

/// Whether the magic word of `d` is neither `crack` nor `upload`.
pub open spec fn bad_magic(d: Seq<u8>) -> bool {
    d.len() >= 6 && d.subrange(0, 5) != crack_word() && d.subrange(0, 6) != upload_word()
}

fn word(items: &[u8]) -> (r: Vec<u8>)
    ensures
        r@ == items@,
{
    copy_range(items, 0, items.len())
}

/// Takes a request apart. A magic word other than `crack` or `upload` is
/// refused as `InvalidMagicWord`; a request that ends before its header or
/// its declared payload does is refused as `IoError`. The payload is the
/// declared number of bytes after the header; bytes past it are not read.
pub fn parse_request(data: &[u8]) -> (r: Result<Request, ServerError>)
    ensures
        crack_framed(data@) <==> r matches Ok(Request::Crack { .. }),
        upload_framed(data@) <==> r matches Ok(Request::Upload { .. }),
        bad_magic(data@) <==> r matches Err(ServerError::InvalidMagicWord),
        r is Err && !bad_magic(data@) ==> r matches Err(ServerError::IoError(_)),
        r matches Ok(Request::Crack { version, payload_size, payload }) ==> {
            &&& version == data@[5]
            &&& payload_size as nat == be_value(data@.subrange(6, 14))
            &&& payload@ == data@.subrange(14, 14 + payload_size)
        },
        r matches Ok(Request::Upload { version, name, payload_size, payload }) ==> {
            let n = data@[7] as int;
            &&& version == data@[6]
            &&& name@ == data@.subrange(8, 8 + n)
            &&& payload_size as nat == be_value(data@.subrange(8 + n, 16 + n))
            &&& payload@ == data@.subrange(16 + n, 16 + n + payload_size)
        },
{
    let len = data.len();
    if len < 5 {
        return Err(ServerError::IoError("early eof".to_owned()));
    }
    let crack_magic = word(&[99u8, 114u8, 97u8, 99u8, 107u8]);
    let upload_magic = word(&[117u8, 112u8, 108u8, 111u8, 97u8, 100u8]);
    let head5 = copy_range(data, 0, 5);
    proof {
        assert(crack_magic@ =~= crack_word());
        assert(upload_magic@ =~= upload_word());
    }
    if bytes_eq(head5.as_slice(), crack_magic.as_slice()) {
        if len < 14 {
            return Err(ServerError::IoError("early eof".to_owned()));
        }
        let version = data[5];
        let payload_size = read_be_u64(data, 6);
        if ((len - 14) as u64) < payload_size {
            return Err(ServerError::IoError("payload shorter than declared".to_owned()));
        }
        let payload = copy_range(data, 14, 14 + payload_size as usize);
        return Ok(Request::Crack { version, payload_size, payload });
    }
    if len < 6 {
        return Err(ServerError::IoError("early eof".to_owned()));
    }
    let head6 = copy_range(data, 0, 6);
    if !bytes_eq(head6.as_slice(), upload_magic.as_slice()) {
        return Err(ServerError::InvalidMagicWord);
    }
    if len < 8 {
        return Err(ServerError::IoError("early eof".to_owned()));
    }
    let n = data[7] as usize;
    if len < 16 + n {
        return Err(ServerError::IoError("early eof".to_owned()));
    }
    let version = data[6];
    let name = copy_range(data, 8, 8 + n);
    let payload_size = read_be_u64(data, 8 + n);
    if ((len - 16 - n) as u64) < payload_size {
        return Err(ServerError::IoError("payload shorter than declared".to_owned()));
    }
    let payload = copy_range(data, 16 + n, 16 + n + payload_size as usize);
    Ok(Request::Upload { version, name, payload_size, payload })
}

/// How many bytes the request that `d` begins needs in all, as far as `d`
/// shows it: the header read so far decides the next length to wait for,
/// and a whole header adds its declared payload size. Nothing for a magic
/// word other than `crack` or `upload`.
pub open spec fn frame_need(d: Seq<u8>) -> Option<nat> {
    if d.len() < 5 {
        Some(5)
    } else if d.subrange(0, 5) == crack_word() {
        if d.len() < 14 {
            Some(14)
        } else {
            Some(14 + be_value(d.subrange(6, 14)))
        }
    } else if d.len() < 6 {
        Some(6)
    } else if d.subrange(0, 6) != upload_word() {
        None
    } else if d.len() < 8 {
        Some(8)
    } else if d.len() < 16 + d[7] as int {
        Some((16 + d[7] as int) as nat)
    } else {
        Some((16 + d[7] as int + be_value(d.subrange(8 + d[7] as int, 16 + d[7] as int))) as nat)
    }
}

/// The number of bytes to have read before the request that `data` begins
/// can be taken apart. Once that many bytes are at hand, `parse_request`
/// frames them. A wrong magic word is refused as `InvalidMagicWord`.
pub fn request_need(data: &[u8]) -> (r: Result<u128, ServerError>)
    ensures
        frame_need(data@) is None <==> r matches Err(ServerError::InvalidMagicWord),
        r is Err ==> r matches Err(ServerError::InvalidMagicWord),
        r matches Ok(n) ==> frame_need(data@) == Some(n as nat),
        r matches Ok(n) ==> (n as nat > data@.len() || crack_framed(data@) || upload_framed(data@)),
{
    let len = data.len();
    if len < 5 {
        return Ok(5);
    }
    let crack_magic = word(&[99u8, 114u8, 97u8, 99u8, 107u8]);
    let upload_magic = word(&[117u8, 112u8, 108u8, 111u8, 97u8, 100u8]);
    let head5 = copy_range(data, 0, 5);
    proof {
        assert(crack_magic@ =~= crack_word());
        assert(upload_magic@ =~= upload_word());
    }
    if bytes_eq(head5.as_slice(), crack_magic.as_slice()) {
        if len < 14 {
            return Ok(14);
        }
        let size = read_be_u64(data, 6);
        return Ok(14 + size as u128);
    }
    if len < 6 {
        return Ok(6);
    }
    let head6 = copy_range(data, 0, 6);
    if !bytes_eq(head6.as_slice(), upload_magic.as_slice()) {
        return Err(ServerError::InvalidMagicWord);
    }
    if len < 8 {
        return Ok(8);
    }
    let n = data[7] as usize;
    if len < 16 + n {
        return Ok((16 + n) as u128);
    }
    let size = read_be_u64(data, 8 + n);
    Ok((16 + n) as u128 + size as u128)
}

/// The text a server error is reported with.
pub open spec fn error_text(e: ServerError) -> Seq<char> {
    match e {
        ServerError::IoError(m) => "IO error: "@ + m@,
        ServerError::Utf8Error(m) => "UTF-8 error: "@ + m@,
        ServerError::InvalidMagicWord => "Invalid magic word"@,
        ServerError::MetadataError => "Metadata error"@,
        ServerError::CacheError => "Cache error"@,
        ServerError::CachePoisonedError => "Cache poisoned error"@,
        ServerError::InvalidAlgorithm => "Invalid algorithm"@,
        ServerError::MutexError => "Error Reading Cache:: Mutex error"@,
        ServerError::UnableUnwrapArc => "Unable to unwrap Arc"@,
        ServerError::ChainError(m) => "Chain error: "@ + m@,
        ServerError::NoPasswordsFound => "No passwords found"@,
        ServerError::PasswordNotFoundInCache => "Password not found in cache"@,
        ServerError::NoRainbowTableFound => "Rainbow Table not found for the given hash file"@,
        ServerError::BindingError => "Could not bind server to address"@,
    }
}

impl ServerError {
    /// The text the error is reported with.
    pub fn message(&self) -> (r: String)
        ensures
            r@ == error_text(*self),
    {
        let mut s = String::new();
        match self {
            ServerError::IoError(m) => {
                push_text(&mut s, "IO error: ");
                push_text(&mut s, m.as_str());
            },
            ServerError::Utf8Error(m) => {
                push_text(&mut s, "UTF-8 error: ");
                push_text(&mut s, m.as_str());
            },
            ServerError::InvalidMagicWord => push_text(&mut s, "Invalid magic word"),
            ServerError::MetadataError => push_text(&mut s, "Metadata error"),
            ServerError::CacheError => push_text(&mut s, "Cache error"),
            ServerError::CachePoisonedError => push_text(&mut s, "Cache poisoned error"),
            ServerError::InvalidAlgorithm => push_text(&mut s, "Invalid algorithm"),
            ServerError::MutexError => push_text(&mut s, "Error Reading Cache:: Mutex error"),
            ServerError::UnableUnwrapArc => push_text(&mut s, "Unable to unwrap Arc"),
            ServerError::ChainError(m) => {
                push_text(&mut s, "Chain error: ");
                push_text(&mut s, m.as_str());
            },
            ServerError::NoPasswordsFound => push_text(&mut s, "No passwords found"),
            ServerError::PasswordNotFoundInCache => push_text(&mut s, "Password not found in cache"),
            ServerError::NoRainbowTableFound => push_text(&mut s, "Rainbow Table not found for the given hash file"),
            ServerError::BindingError => push_text(&mut s, "Could not bind server to address"),
        }
        proof {
            assert(s@ =~= error_text(*self));
        }
        s
    }
}

/// The reply to a failed crack request.
pub fn error_response(e: &ServerError) -> (r: String)
    ensures
        r@ == "Error: "@ + error_text(*e),
{
    let mut s = String::new();
    push_text(&mut s, "Error: ");
    let m = e.message();
    push_text(&mut s, m.as_str());
    proof {
        assert(s@ =~= "Error: "@ + error_text(*e));
    }
    s
}

/// The body lines of a crack reply, `<hash>: <password>`, joined by line
/// breaks.
pub open spec fn report_lines(v: Seq<(Seq<char>, Seq<char>)>) -> Seq<char>
    decreases v.len(),
{
    if v.len() == 0 {
        Seq::empty()
    } else if v.len() == 1 {
        v[0].0 + ": "@ + v[0].1
    } else {
        report_lines(v.drop_last()) + "\n"@ + v.last().0 + ": "@ + v.last().1
    }
}

/// The reply to a successful crack request: a title line, then one line per
/// recovered password.
pub fn crack_response(found: &Vec<CrackedPassword>) -> (r: String)
    ensures
        r@ == "Successfully Cracked Password\n"@ + report_lines(cracked_views(found@)),
{
    let ghost v = cracked_views(found@);
    let mut body = String::new();
    let mut i: usize = 0;
    while i < found.len()
        invariant
            v == cracked_views(found@),
            i <= found@.len(),
            body@ == report_lines(v.subrange(0, i as int)),
        decreases found.len() - i,
    {
        proof {
            let vi = v.subrange(0, i + 1);
            assert(vi.drop_last() =~= v.subrange(0, i as int));
            assert(vi.last() == (found@[i as int].hash@, found@[i as int].password@));
        }
        if i > 0 {
            push_text(&mut body, "\n");
        }
        push_text(&mut body, found[i].hash.as_str());
        push_text(&mut body, ": ");
        push_text(&mut body, found[i].password.as_str());
        proof {
            let vi = v.subrange(0, i + 1);
            if i == 0 {
                assert(body@ =~= report_lines(vi));
            } else {
                assert(body@ =~= report_lines(vi));
            }
        }
        i += 1;
    }
    proof {
        assert(v.subrange(0, v.len() as int) =~= v);
    }
    let mut s = String::new();
    push_text(&mut s, "Successfully Cracked Password\n");
    push_text(&mut s, body.as_str());
    proof {
        assert(s@ =~= "Successfully Cracked Password\n"@ + report_lines(v));
    }
    s
}

} // verus!
