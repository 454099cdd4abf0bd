use vstd::prelude::*;
use crate::text::push_text;

verus! {

/// Errors of the command-line tools: I/O, worker threads, parameter checks
/// and malformed input files.
#[derive(Debug)]
pub enum HashassinError {
    FileOpen(String),
    FileRead(String),
    CreateFile(String),
    ThreadJoin(String),
    InvalidThreadCount,
    SendError(String),
    ThreadError(String),
    WriteError(String),
    CustomError(String),
    InvalidInput(String),
    InvalidFormat(String),
    UnknownAlgorithm(String),
    InvalidHashLength(String),
}

/// Errors of the server: malformed requests, cache misses and transport faults.
#[derive(Debug)]
pub enum ServerError {
    IoError(String),
    Utf8Error(String),
    InvalidMagicWord,
    MetadataError,
    CacheError,
    CachePoisonedError,
    InvalidAlgorithm,
    MutexError,
    UnableUnwrapArc,
    ChainError(String),
    NoPasswordsFound,
    PasswordNotFoundInCache,
    NoRainbowTableFound,
    BindingError,
}


/// The text a tool error is reported with.
pub open spec fn tool_error_text(e: HashassinError) -> Seq<char> {
    match e {
        HashassinError::FileOpen(m) => "File open error: "@ + m@,
        HashassinError::FileRead(m) => "File Read error: "@ + m@,
        HashassinError::CreateFile(m) => "File create error: "@ + m@,
        HashassinError::ThreadJoin(m) => "Thread join failed: "@ + m@,
        HashassinError::InvalidThreadCount => "The number of threads must be greater than zero."@,
        HashassinError::SendError(m) => "Failed to send data over the channel: "@ + m@,
        HashassinError::ThreadError(m) => "Failed to create thread: "@ + m@,
        HashassinError::WriteError(m) => "Failed to Write error: "@ + m@,
        HashassinError::CustomError(m) => m@,
        HashassinError::InvalidInput(m) => "Invalid Input: "@ + m@,
        HashassinError::InvalidFormat(m) => "Input file as invalid Format: "@ + m@,
        HashassinError::UnknownAlgorithm(m) => "Unknown Algorithm: "@ + m@,
        HashassinError::InvalidHashLength(m) => "Invalid hash length: "@ + m@,
    }
}

impl HashassinError {
    /// The text the error is reported with.
    pub fn message(&self) -> (r: String)
        ensures
            r@ == tool_error_text(*self),
    {
        let mut s = String::new();
        match self {
            HashassinError::FileOpen(m) => {
                push_text(&mut s, "File open error: ");
                push_text(&mut s, m.as_str());
            },
            HashassinError::FileRead(m) => {
                push_text(&mut s, "File Read error: ");
                push_text(&mut s, m.as_str());
            },
            HashassinError::CreateFile(m) => {
                push_text(&mut s, "File create error: ");
                push_text(&mut s, m.as_str());
            },
            HashassinError::ThreadJoin(m) => {
                push_text(&mut s, "Thread join failed: ");
                push_text(&mut s, m.as_str());
            },
            HashassinError::InvalidThreadCount => push_text(&mut s, "The number of threads must be greater than zero."),
            HashassinError::SendError(m) => {
                push_text(&mut s, "Failed to send data over the channel: ");
                push_text(&mut s, m.as_str());
            },
            HashassinError::ThreadError(m) => {
                push_text(&mut s, "Failed to create thread: ");
                push_text(&mut s, m.as_str());
            },
            HashassinError::WriteError(m) => {
                push_text(&mut s, "Failed to Write error: ");
                push_text(&mut s, m.as_str());
            },
            HashassinError::CustomError(m) => push_text(&mut s, m.as_str()),
            HashassinError::InvalidInput(m) => {
                push_text(&mut s, "Invalid Input: ");
                push_text(&mut s, m.as_str());
            },
            HashassinError::InvalidFormat(m) => {
                push_text(&mut s, "Input file as invalid Format: ");
                push_text(&mut s, m.as_str());
            },
            HashassinError::UnknownAlgorithm(m) => {
                push_text(&mut s, "Unknown Algorithm: ");
                push_text(&mut s, m.as_str());
            },
            HashassinError::InvalidHashLength(m) => {
                push_text(&mut s, "Invalid hash length: ");
                push_text(&mut s, m.as_str());
            },
        }
        proof {
            assert(s@ =~= tool_error_text(*self));
        }
        s
    }
}

} // verus!
