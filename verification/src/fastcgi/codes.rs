//! The numbers that the protocol gives to record types, roles and states.
use vstd::prelude::*;

verus! {

/// Listening socket file number
pub const LISTENSOCK_FILENO: u8 = 0;

/// The maximum number of concurrent transport connections this application will accept
///
/// e.g. "1" or "10".
/// Used with GET_VALUES / GET_VALUES_RESULT records.
pub const MAX_CONNS: &'static str = "MAX_CONNS";

/// The maximum number of concurrent requests this application will accept
///
/// e.g. "1" or "50".
/// Used with GET_VALUES / GET_VALUES_RESULT records.
pub const MAX_REQS: &'static str = "MAX_REQS";

/// If this application do multiplex connections
///
/// i.e. handle concurrent requests over each connection ("1": Yes, "0": No).
/// Used with GET_VALUES / GET_VALUES_RESULT records.
pub const MPXS_CONNS: &'static str = "MPXS_CONNS";

/// rtype of Header
#[derive(Debug, Clone, Copy, PartialEq, Eq, Structural)]
pub enum RecordType {
    /// The Web server sends a FCGI_BEGIN_REQUEST record to start a request
    BeginRequest,
    /// A Web server aborts a FastCGI request when an HTTP client closes its transport
    /// connection while the FastCGI request is running on behalf of that client
    AbortRequest,
    /// The application sends a FCGI_END_REQUEST record to terminate a request
    EndRequest,
    /// Receive name-value pairs from the Web server to the application
    Params,
    /// Byte Stream
    StdIn,
    /// Byte Stream
    StdOut,
    /// Byte Stream
    StdErr,
    /// Byte Stream
    Data,
    /// The Web server can query specific variables within the application
    /// The application receives.
    GetValues,
    /// The Web server can query specific variables within the application.
    /// The application responds.
    GetValuesResult,
    /// Unrecognized management record
    UnknownType,
}

impl RecordType {
    /// The number of this type on the wire.
    pub open spec fn code(self) -> u8 {
        match self {
            RecordType::BeginRequest => 1,
            RecordType::AbortRequest => 2,
            RecordType::EndRequest => 3,
            RecordType::Params => 4,
            RecordType::StdIn => 5,
            RecordType::StdOut => 6,
            RecordType::StdErr => 7,
            RecordType::Data => 8,
            RecordType::GetValues => 9,
            RecordType::GetValuesResult => 10,
            RecordType::UnknownType => 11,
        }
    }

    /// The type that has the number `c`, if there is one.
    pub open spec fn of_code(c: u8) -> Option<RecordType> {
        match c {
            1 => Some(RecordType::BeginRequest),
            2 => Some(RecordType::AbortRequest),
            3 => Some(RecordType::EndRequest),
            4 => Some(RecordType::Params),
            5 => Some(RecordType::StdIn),
            6 => Some(RecordType::StdOut),
            7 => Some(RecordType::StdErr),
            8 => Some(RecordType::Data),
            9 => Some(RecordType::GetValues),
            10 => Some(RecordType::GetValuesResult),
            11 => Some(RecordType::UnknownType),
            _ => None,
        }
    }

    /// The number of this type on the wire.
    pub fn to_u8(self) -> (r: u8)
        ensures
            r == self.code(),
    {
        match self {
            RecordType::BeginRequest => 1,
            RecordType::AbortRequest => 2,
            RecordType::EndRequest => 3,
            RecordType::Params => 4,
            RecordType::StdIn => 5,
            RecordType::StdOut => 6,
            RecordType::StdErr => 7,
            RecordType::Data => 8,
            RecordType::GetValues => 9,
            RecordType::GetValuesResult => 10,
            RecordType::UnknownType => 11,
        }
    }

    /// The name of this type.
    pub fn to_text(&self) -> (r: String)
        ensures
            r@ == match *self {
                RecordType::BeginRequest => "BeginRequest"@,
                RecordType::AbortRequest => "AbortRequest"@,
                RecordType::EndRequest => "EndRequest"@,
                RecordType::Params => "Params"@,
                RecordType::StdIn => "StdIn"@,
                RecordType::StdOut => "StdOut"@,
                RecordType::StdErr => "StdErr"@,
                RecordType::Data => "Data"@,
                RecordType::GetValues => "GetValues"@,
                RecordType::GetValuesResult => "GetValuesResult"@,
                RecordType::UnknownType => "UnknownType"@,
            },
    {
        let name: &str = match self {
            RecordType::BeginRequest => "BeginRequest",
            RecordType::AbortRequest => "AbortRequest",
            RecordType::EndRequest => "EndRequest",
            RecordType::Params => "Params",
            RecordType::StdIn => "StdIn",
            RecordType::StdOut => "StdOut",
            RecordType::StdErr => "StdErr",
            RecordType::Data => "Data",
            RecordType::GetValues => "GetValues",
            RecordType::GetValuesResult => "GetValuesResult",
            RecordType::UnknownType => "UnknownType",
        };
        name.to_owned()
    }
}

impl TryFrom<u8> for RecordType {
    type Error = u8;

    fn try_from(value: u8) -> (r: Result<Self, u8>) {
        match value {
            1 => Ok(RecordType::BeginRequest),
            2 => Ok(RecordType::AbortRequest),
            3 => Ok(RecordType::EndRequest),
            4 => Ok(RecordType::Params),
            5 => Ok(RecordType::StdIn),
            6 => Ok(RecordType::StdOut),
            7 => Ok(RecordType::StdErr),
            8 => Ok(RecordType::Data),
            9 => Ok(RecordType::GetValues),
            10 => Ok(RecordType::GetValuesResult),
            11 => Ok(RecordType::UnknownType),
            o => Err(o),
        }
    }
}

impl vstd::std_specs::convert::TryFromSpecImpl<u8> for RecordType {
    open spec fn obeys_try_from_spec() -> bool {
        true
    }

    open spec fn try_from_spec(value: u8) -> Result<RecordType, u8> {
        match RecordType::of_code(value) {
            Some(t) => Ok(t),
            None => Err(value),
        }
    }
}

/// FastCGI role
#[derive(Debug, Clone, Copy, PartialEq, Eq, Structural)]
pub enum FastCGIRole {
    /// emulated CGI/1.1 program
    Responder,
    /// authorized/unauthorized decision
    Authorizer,
    Filter,
}

impl FastCGIRole {
    /// The number of this role on the wire.
    pub open spec fn code(self) -> u16 {
        match self {
            FastCGIRole::Responder => 1,
            FastCGIRole::Authorizer => 2,
            FastCGIRole::Filter => 3,
        }
    }

    /// The number of this role on the wire.
    pub fn to_u16(self) -> (r: u16)
        ensures
            r == self.code(),
    {
        match self {
            FastCGIRole::Responder => 1,
            FastCGIRole::Authorizer => 2,
            FastCGIRole::Filter => 3,
        }
    }
}

/// protocol_status component of EndRequestBody
#[derive(Debug, Clone, Copy, PartialEq, Eq, Structural)]
pub enum ProtoStatus {
    /// Normal end of request
    Complete,
    /// Application is designed to process one request at a time per connection
    CantMpxCon,
    /// The application runs out of some resource, e.g. database connections
    Overloaded,
    /// Web server has specified a role that is unknown to the application
    UnknownRole,
}

impl ProtoStatus {
    /// The number of this status on the wire.
    pub open spec fn code(self) -> u8 {
        match self {
            ProtoStatus::Complete => 0,
            ProtoStatus::CantMpxCon => 1,
            ProtoStatus::Overloaded => 2,
            ProtoStatus::UnknownRole => 3,
        }
    }

    /// The status that has the number `c`, if there is one.
    pub open spec fn of_code(c: u8) -> Option<ProtoStatus> {
        match c {
            0 => Some(ProtoStatus::Complete),
            1 => Some(ProtoStatus::CantMpxCon),
            2 => Some(ProtoStatus::Overloaded),
            3 => Some(ProtoStatus::UnknownRole),
            _ => None,
        }
    }

    /// The number of this status on the wire.
    pub fn to_u8(self) -> (r: u8)
        ensures
            r == self.code(),
    {
        match self {
            ProtoStatus::Complete => 0,
            ProtoStatus::CantMpxCon => 1,
            ProtoStatus::Overloaded => 2,
            ProtoStatus::UnknownRole => 3,
        }
    }

    /// The name of this status.
    pub fn to_text(&self) -> (r: String)
        ensures
            r@ == match *self {
                ProtoStatus::Complete => "Complete"@,
                ProtoStatus::CantMpxCon => "CantMpxCon"@,
                ProtoStatus::Overloaded => "Overloaded"@,
                ProtoStatus::UnknownRole => "UnknownRole"@,
            },
    {
        let name: &str = match self {
            ProtoStatus::Complete => "Complete",
            ProtoStatus::CantMpxCon => "CantMpxCon",
            ProtoStatus::Overloaded => "Overloaded",
            ProtoStatus::UnknownRole => "UnknownRole",
        };
        name.to_owned()
    }
}

impl TryFrom<u8> for ProtoStatus {
    type Error = u8;

    fn try_from(value: u8) -> (r: Result<Self, u8>) {
        match value {
            0 => Ok(ProtoStatus::Complete),
            1 => Ok(ProtoStatus::CantMpxCon),
            2 => Ok(ProtoStatus::Overloaded),
            3 => Ok(ProtoStatus::UnknownRole),
            o => Err(o),
        }
    }
}

impl vstd::std_specs::convert::TryFromSpecImpl<u8> for ProtoStatus {
    open spec fn obeys_try_from_spec() -> bool {
        true
    }

    open spec fn try_from_spec(value: u8) -> Result<ProtoStatus, u8> {
        match ProtoStatus::of_code(value) {
            Some(t) => Ok(t),
            None => Err(value),
        }
    }
}

/// A type and its number determine each other.
pub proof fn law_record_type_code(t: RecordType, c: u8)
    ensures
        RecordType::of_code(t.code()) == Some(t),
        RecordType::of_code(c) == Some(t) <==> c == t.code(),
{
}

/// A status and its number determine each other.
pub proof fn law_proto_status_code(t: ProtoStatus, c: u8)
    ensures
        ProtoStatus::of_code(t.code()) == Some(t),
        ProtoStatus::of_code(c) == Some(t) <==> c == t.code(),
{
}

} // verus!
