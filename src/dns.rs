use vstd::prelude::*;

pub mod header;
pub mod packet;
pub mod question;
pub mod record;

pub use packet::DnsPacket;

verus! {

/// The response code of a message header.
#[derive(Debug, PartialEq, Eq, Clone, Copy, Structural)]
pub enum ResCode {
    NOERROR,
    FORMERR,
    SERVFAIL,
    NXDOMAIN,
    NOTIMP,
    REFUSED,
}

/// The response code that a 4-bit wire value stands for; unknown values read
/// as `NOERROR`.
pub open spec fn rescode_of(v: u8) -> ResCode {
    if v == 1 {
        ResCode::FORMERR
    } else if v == 2 {
        ResCode::SERVFAIL
    } else if v == 3 {
        ResCode::NXDOMAIN
    } else if v == 4 {
        ResCode::NOTIMP
    } else if v == 5 {
        ResCode::REFUSED
    } else {
        ResCode::NOERROR
    }
}

/// The wire value of a response code.
pub open spec fn rescode_value(c: ResCode) -> u8 {
    match c {
        ResCode::NOERROR => 0,
        ResCode::FORMERR => 1,
        ResCode::SERVFAIL => 2,
        ResCode::NXDOMAIN => 3,
        ResCode::NOTIMP => 4,
        ResCode::REFUSED => 5,
    }
}

impl Default for ResCode {
    fn default() -> (r: Self)
        ensures
            r == ResCode::NOERROR,
    {
        ResCode::NOERROR
    }
}

impl ResCode {
    /// The wire value of this response code.
    pub fn value(&self) -> (r: u8)
        ensures
            r == rescode_value(*self),
    {
        match self {
            ResCode::NOERROR => 0,
            ResCode::FORMERR => 1,
            ResCode::SERVFAIL => 2,
            ResCode::NXDOMAIN => 3,
            ResCode::NOTIMP => 4,
            ResCode::REFUSED => 5,
        }
    }
}

impl From<u8> for ResCode {
    fn from(value: u8) -> Self {
        match value {
            1 => Self::FORMERR,
            2 => Self::SERVFAIL,
            3 => Self::NXDOMAIN,
            4 => Self::NOTIMP,
            5 => Self::REFUSED,
            _ => Self::NOERROR,
        }
    }
}

impl vstd::std_specs::convert::FromSpecImpl<u8> for ResCode {
    open spec fn obeys_from_spec() -> bool {
        true
    }

    open spec fn from_spec(v: u8) -> Self {
        rescode_of(v)
    }
}

/// The type of a query or of a resource record.
#[derive(Debug, PartialEq, Eq, Clone, Copy, Structural)]
pub enum QueryType {
    Unknown(u16),
    A,
    NS,
    CNAME,
    MX,
    AAAA,
}

/// The type that a 16-bit wire code stands for; codes without a variant of
/// their own are kept as `Unknown`.
pub open spec fn query_type_of(v: u16) -> QueryType {
    if v == 1 {
        QueryType::A
    } else if v == 2 {
        QueryType::NS
    } else if v == 5 {
        QueryType::CNAME
    } else if v == 15 {
        QueryType::MX
    } else if v == 28 {
        QueryType::AAAA
    } else {
        QueryType::Unknown(v)
    }
}

/// The 16-bit wire code of a type.
pub open spec fn query_type_code(t: QueryType) -> u16 {
    match t {
        QueryType::Unknown(x) => x,
        QueryType::A => 1,
        QueryType::NS => 2,
        QueryType::CNAME => 5,
        QueryType::MX => 15,
        QueryType::AAAA => 28,
    }
}

impl From<QueryType> for u16 {
    fn from(value: QueryType) -> Self {
        match value {
            QueryType::Unknown(x) => x,
            QueryType::A => 1,
            QueryType::NS => 2,
            QueryType::CNAME => 5,
            QueryType::MX => 15,
            QueryType::AAAA => 28,
        }
    }
}

impl vstd::std_specs::convert::FromSpecImpl<QueryType> for u16 {
    open spec fn obeys_from_spec() -> bool {
        true
    }

    open spec fn from_spec(v: QueryType) -> Self {
        query_type_code(v)
    }
}

impl From<u16> for QueryType {
    fn from(value: u16) -> Self {
        match value {
            1 => Self::A,
            2 => Self::NS,
            5 => Self::CNAME,
            15 => Self::MX,
            28 => Self::AAAA,
            _ => Self::Unknown(value),
        }
    }
}

impl vstd::std_specs::convert::FromSpecImpl<u16> for QueryType {
    open spec fn obeys_from_spec() -> bool {
        true
    }

    open spec fn from_spec(v: u16) -> Self {
        query_type_of(v)
    }
}

} // verus!
