//! The error model shared by every component: a raw error carrying a numeric
//! code and a domain, and the domain-tagged error type handed to callers.

use vstd::prelude::*;

verus! {

/// A decoded error as the lower layers produce it: a 32-bit code, a 32-bit
/// domain tag and a human-readable message. The two numeric halves travel
/// together as one 64-bit word; `try_from_raw_error` takes that word apart.
#[derive(Debug)]
pub struct LibNetplanError {
    pub code: u32,
    pub domain: u32,
    pub message: String,
}

impl LibNetplanError {
    /// Decodes a raw error word and its message. The domain sits in the upper
    /// 32 bits of the word and the code in the lower 32 bits. Returns `None`
    /// exactly when either half of the raw error is missing.
    pub fn try_from_raw_error(error_code: Option<u64>, message: Option<String>) -> (r: Option<Self>)
        ensures
            r is Some <==> (error_code is Some && message is Some),
            r is Some ==> {
                let e = r->Some_0;
                &&& e.domain == error_code->Some_0 >> 32u64
                &&& e.code == error_code->Some_0 & 0xFFFF_FFFFu64
                &&& e.message@ == message->Some_0@
            },
    {
        let message = match message {
            Some(m) => m,
            None => {
                return None;
            },
        };
        let error_code = match error_code {
            Some(c) => c,
            None => {
                return None;
            },
        };

        assert((error_code >> 32u64) <= 0xFFFF_FFFFu64 && (error_code & 0xFFFF_FFFFu64)
            <= 0xFFFF_FFFFu64) by (bit_vector);
        let domain = (error_code >> 32) as u32;
        let code = (error_code & 0xFFFF_FFFF) as u32;

        Some(LibNetplanError { code, domain, message })
    }
}

/// The four error domains callers react to: parser, validation and file
/// errors carry their message; anything else collapses to the generic
/// variant.
#[derive(Debug)]
pub enum NetplanErrorDomains {
    NetplanGenericError,
    NetplanParserError(String),
    NetplanValidationError(String),
    NetplanFileError(String),
}

impl NetplanErrorDomains {
    /// Tags a decoded error with its domain: 1 is the parser domain, 2 the
    /// validation domain, 3 the file domain; every other value is generic.
    pub fn from_libnetplan_error(error: &LibNetplanError) -> (r: Self)
        ensures
            error.domain == 1 ==> (r matches NetplanErrorDomains::NetplanParserError(m) && m@
                == error.message@),
            error.domain == 2 ==> (r matches NetplanErrorDomains::NetplanValidationError(m) && m@
                == error.message@),
            error.domain == 3 ==> (r matches NetplanErrorDomains::NetplanFileError(m) && m@
                == error.message@),
            !(1 <= error.domain <= 3) ==> r is NetplanGenericError,
    {
        match error.domain {
            1u32 => NetplanErrorDomains::NetplanParserError(error.message.clone()),
            2u32 => NetplanErrorDomains::NetplanValidationError(error.message.clone()),
            3u32 => NetplanErrorDomains::NetplanFileError(error.message.clone()),
            _ => NetplanErrorDomains::NetplanGenericError,
        }
    }

    /// The view of the message this error carries; the generic variant
    /// carries none and reports the empty string.
    pub open spec fn message_view(&self) -> Seq<char> {
        match self {
            NetplanErrorDomains::NetplanGenericError => Seq::empty(),
            NetplanErrorDomains::NetplanParserError(m) => m@,
            NetplanErrorDomains::NetplanValidationError(m) => m@,
            NetplanErrorDomains::NetplanFileError(m) => m@,
        }
    }

    /// The carried message, for callers that render the error.
    pub fn message(&self) -> (r: String)
        ensures
            r@ == self.message_view(),
    {
        match self {
            NetplanErrorDomains::NetplanGenericError => String::new(),
            NetplanErrorDomains::NetplanParserError(m) => m.clone(),
            NetplanErrorDomains::NetplanValidationError(m) => m.clone(),
            NetplanErrorDomains::NetplanFileError(m) => m.clone(),
        }
    }
}

/// The result type every loading, merging and serializing operation returns.
pub type NetplanResult<T> = Result<T, NetplanErrorDomains>;

} // verus!
