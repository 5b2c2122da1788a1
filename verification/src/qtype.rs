//! The query-type codes a record or question can carry.

use vstd::prelude::*;

verus! {

/// A DNS record/query type. Codes outside the known set are kept in the
/// `UNKNOWN` variant so they survive a decode/encode cycle.
#[derive(PartialEq, Eq, Debug, Clone, Copy, Hash, Structural)]
pub enum QueryType {
    UNKNOWN(u16),
    A,
    NS,
    CNAME,
    SOA,
    MX,
    AAAA,
}

/// The wire code of a query type.
pub open spec fn qt_num(qt: QueryType) -> u16 {
    match qt {
        QueryType::UNKNOWN(x) => x,
        QueryType::A => 1,
        QueryType::NS => 2,
        QueryType::CNAME => 5,
        QueryType::SOA => 6,
        QueryType::MX => 15,
        QueryType::AAAA => 28,
    }
}

/// The query type a wire code decodes to.
pub open spec fn qt_of_num(num: u16) -> QueryType {
    if num == 1 {
        QueryType::A
    } else if num == 2 {
        QueryType::NS
    } else if num == 5 {
        QueryType::CNAME
    } else if num == 6 {
        QueryType::SOA
    } else if num == 15 {
        QueryType::MX
    } else if num == 28 {
        QueryType::AAAA
    } else {
        QueryType::UNKNOWN(num)
    }
}

/// True of the query types that decoding can produce: an `UNKNOWN` code
/// never shadows a known one.
pub open spec fn qt_wf(qt: QueryType) -> bool {
    qt == qt_of_num(qt_num(qt))
}

impl QueryType {
    /// The wire code of this query type.
    pub fn to_num(&self) -> (r: u16)
        ensures
            r == qt_num(*self),
    {
        match *self {
            QueryType::UNKNOWN(x) => x,
            QueryType::A => 1,
            QueryType::NS => 2,
            QueryType::CNAME => 5,
            QueryType::SOA => 6,
            QueryType::MX => 15,
            QueryType::AAAA => 28,
        }
    }

    /// The query type for a wire code.
    pub fn from_num(num: u16) -> (r: QueryType)
        ensures
            r == qt_of_num(num),
            qt_wf(r),
            qt_num(r) == num,
    {
        match num {
            1 => QueryType::A,
            2 => QueryType::NS,
            5 => QueryType::CNAME,
            6 => QueryType::SOA,
            15 => QueryType::MX,
            28 => QueryType::AAAA,
            x => QueryType::UNKNOWN(x),
        }
    }
}

} // verus!
