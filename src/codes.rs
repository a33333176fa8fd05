//! The record type and class codes carried by questions and records.
use vstd::prelude::*;

use crate::error::DnsError;

verus! {

/// The class of a question or record.
#[derive(Debug, Clone, Copy, PartialEq, Eq, Structural)]
pub enum Class {
    IN,
    CS,
    CH,
    HS,
}

/// The type of a question or record.
#[derive(Debug, Clone, Copy, PartialEq, Eq, Structural)]
pub enum Ty {
    A,
    NS,
    CNAME,
    SOA,
    WKS,
    PTR,
    HINFO,
    MINFO,
    MX,
    TXT,
}

/// The wire value of a class.
pub open spec fn class_code(c: Class) -> u16 {
    match c {
        Class::IN => 1,
        Class::CS => 2,
        Class::CH => 3,
        Class::HS => 4,
    }
}

/// The class that a wire value names, if any.
pub open spec fn class_of(v: u16) -> Option<Class> {
    if v == 1 {
        Some(Class::IN)
    } else if v == 2 {
        Some(Class::CS)
    } else if v == 3 {
        Some(Class::CH)
    } else if v == 4 {
        Some(Class::HS)
    } else {
        None
    }
}

/// The wire value of a type.
pub open spec fn ty_code(t: Ty) -> u16 {
    match t {
        Ty::A => 1,
        Ty::NS => 2,
        Ty::CNAME => 5,
        Ty::SOA => 6,
        Ty::WKS => 11,
        Ty::PTR => 12,
        Ty::HINFO => 13,
        Ty::MINFO => 14,
        Ty::MX => 15,
        Ty::TXT => 16,
    }
}

/// The type that a wire value names, if any.
pub open spec fn ty_of(v: u16) -> Option<Ty> {
    if v == 1 {
        Some(Ty::A)
    } else if v == 2 {
        Some(Ty::NS)
    } else if v == 5 {
        Some(Ty::CNAME)
    } else if v == 6 {
        Some(Ty::SOA)
    } else if v == 11 {
        Some(Ty::WKS)
    } else if v == 12 {
        Some(Ty::PTR)
    } else if v == 13 {
        Some(Ty::HINFO)
    } else if v == 14 {
        Some(Ty::MINFO)
    } else if v == 15 {
        Some(Ty::MX)
    } else if v == 16 {
        Some(Ty::TXT)
    } else {
        None
    }
}

/// Each code reads back as the value it encodes.
pub proof fn lemma_codes_round_trip(t: Ty, c: Class)
    ensures
        ty_of(ty_code(t)) == Some(t),
        class_of(class_code(c)) == Some(c),
        ty_code(t) < 0x100,
        class_code(c) < 0x100,
{
}

impl Class {
    /// The wire value of this class.
    pub fn code(&self) -> (r: u16)
        ensures
            r == class_code(*self),
    {
        match self {
            Class::IN => 1,
            Class::CS => 2,
            Class::CH => 3,
            Class::HS => 4,
        }
    }
}

impl Ty {
    /// The wire value of this type.
    pub fn code(&self) -> (r: u16)
        ensures
            r == ty_code(*self),
    {
        match self {
            Ty::A => 1,
            Ty::NS => 2,
            Ty::CNAME => 5,
            Ty::SOA => 6,
            Ty::WKS => 11,
            Ty::PTR => 12,
            Ty::HINFO => 13,
            Ty::MINFO => 14,
            Ty::MX => 15,
            Ty::TXT => 16,
        }
    }
}

impl TryFrom<u16> for Class {
    type Error = DnsError;

    fn try_from(value: u16) -> (r: Result<Class, DnsError>)
        ensures
            r == (match class_of(value) {
                Some(c) => Ok::<Class, DnsError>(c),
                None => Err(DnsError::UnknownClass),
            }),
    {
        match value {
            1 => Ok(Class::IN),
            2 => Ok(Class::CS),
            3 => Ok(Class::CH),
            4 => Ok(Class::HS),
            _ => Err(DnsError::UnknownClass),
        }
    }
}

impl vstd::std_specs::convert::TryFromSpecImpl<u16> for Class {
    open spec fn obeys_try_from_spec() -> bool {
        true
    }

    open spec fn try_from_spec(v: u16) -> Result<Class, DnsError> {
        match class_of(v) {
            Some(c) => Ok(c),
            None => Err(DnsError::UnknownClass),
        }
    }
}

impl TryFrom<u16> for Ty {
    type Error = DnsError;

    fn try_from(value: u16) -> (r: Result<Ty, DnsError>)
        ensures
            r == (match ty_of(value) {
                Some(t) => Ok::<Ty, DnsError>(t),
                None => Err(DnsError::UnknownType),
            }),
    {
        match value {
            1 => Ok(Ty::A),
            2 => Ok(Ty::NS),
            5 => Ok(Ty::CNAME),
            6 => Ok(Ty::SOA),
            11 => Ok(Ty::WKS),
            12 => Ok(Ty::PTR),
            13 => Ok(Ty::HINFO),
            14 => Ok(Ty::MINFO),
            15 => Ok(Ty::MX),
            16 => Ok(Ty::TXT),
            _ => Err(DnsError::UnknownType),
        }
    }
}

impl vstd::std_specs::convert::TryFromSpecImpl<u16> for Ty {
    open spec fn obeys_try_from_spec() -> bool {
        true
    }

    open spec fn try_from_spec(v: u16) -> Result<Ty, DnsError> {
        match ty_of(v) {
            Some(t) => Ok(t),
            None => Err(DnsError::UnknownType),
        }
    }
}

} // verus!
