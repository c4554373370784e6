//! The types of questions and records.

use vstd::prelude::*;

verus! {

/// The type of a question or of a resource record, by its 16-bit code.
#[derive(Clone, Copy, Debug, PartialEq, Eq, Hash, Structural)]
pub enum QueryType {
    UNKNOWN(u16),
    A,
    NS,
    CNAME,
    MX,
    AAAA,
}

impl QueryType {
    /// The code that stands for this type on the wire.
    pub open spec fn code(self) -> u16 {
        match self {
            QueryType::UNKNOWN(n) => n,
            QueryType::A => 1,
            QueryType::NS => 2,
            QueryType::CNAME => 5,
            QueryType::MX => 15,
            QueryType::AAAA => 28,
        }
    }

    /// The type that a code stands for; a code without a name of its own is
    /// kept as it is.
    pub open spec fn of_code(num: u16) -> QueryType {
        if num == 1 {
            QueryType::A
        } else if num == 2 {
            QueryType::NS
        } else if num == 5 {
            QueryType::CNAME
        } else if num == 15 {
            QueryType::MX
        } else if num == 28 {
            QueryType::AAAA
        } else {
            QueryType::UNKNOWN(num)
        }
    }

    pub fn to_num(&self) -> (num: u16)
        ensures
            num == self.code(),
    {
        match *self {
            QueryType::UNKNOWN(n) => n,
            QueryType::A => 1,
            QueryType::NS => 2,
            QueryType::CNAME => 5,
            QueryType::MX => 15,
            QueryType::AAAA => 28,
        }
    }

    pub fn from_num(num: u16) -> (qtype: QueryType)
        ensures
            qtype == QueryType::of_code(num),
    {
        match num {
            1 => QueryType::A,
            2 => QueryType::NS,
            5 => QueryType::CNAME,
            15 => QueryType::MX,
            28 => QueryType::AAAA,
            _ => QueryType::UNKNOWN(num),
        }
    }
}

/// Every 16-bit code survives the way into a `QueryType` and back.
pub proof fn lemma_code_round_trip(num: u16)
    ensures
        QueryType::of_code(num).code() == num,
{
}

} // verus!
