//! The 4-bit result code of a DNS response.

use vstd::prelude::*;

verus! {

/// The outcome status of a DNS response. Reserved values decode to the
/// distinguishable `UNRECOGNIZED` variant instead of failing, to stay
/// forward-compatible with codes this library does not know.
#[derive(PartialEq, Eq, Debug, Clone, Copy, Hash, Structural)]
pub enum ResultCode {
    NOERROR,
    FORMERR,
    SERVFAIL,
    NXDOMAIN,
    NOTIMP,
    REFUSED,
    UNRECOGNIZED(u8),
}

/// The wire value of a result code.
pub open spec fn rc_num(rc: ResultCode) -> u8 {
    match rc {
        ResultCode::NOERROR => 0,
        ResultCode::FORMERR => 1,
        ResultCode::SERVFAIL => 2,
        ResultCode::NXDOMAIN => 3,
        ResultCode::NOTIMP => 4,
        ResultCode::REFUSED => 5,
        ResultCode::UNRECOGNIZED(x) => x,
    }
}

/// The result code a wire value decodes to.
pub open spec fn rc_of_num(num: u8) -> ResultCode {
    if num == 0 {
        ResultCode::NOERROR
    } else if num == 1 {
        ResultCode::FORMERR
    } else if num == 2 {
        ResultCode::SERVFAIL
    } else if num == 3 {
        ResultCode::NXDOMAIN
    } else if num == 4 {
        ResultCode::NOTIMP
    } else if num == 5 {
        ResultCode::REFUSED
    } else {
        ResultCode::UNRECOGNIZED(num)
    }
}

/// True of the result codes that decoding a 4-bit field can produce: the
/// value fits in 4 bits and an `UNRECOGNIZED` never shadows a known code.
pub open spec fn rc_wf(rc: ResultCode) -> bool {
    rc_num(rc) < 16 && rc == rc_of_num(rc_num(rc))
}

impl ResultCode {
    /// The wire value of this result code.
    pub fn to_num(&self) -> (r: u8)
        ensures
            r == rc_num(*self),
    {
        match *self {
            ResultCode::NOERROR => 0,
            ResultCode::FORMERR => 1,
            ResultCode::SERVFAIL => 2,
            ResultCode::NXDOMAIN => 3,
            ResultCode::NOTIMP => 4,
            ResultCode::REFUSED => 5,
            ResultCode::UNRECOGNIZED(x) => x,
        }
    }

    /// The result code for a wire value.
    pub fn from_num(num: u8) -> (r: ResultCode)
        ensures
            r == rc_of_num(num),
            rc_num(r) == num,
            num < 16 ==> rc_wf(r),
    {
        match num {
            0 => ResultCode::NOERROR,
            1 => ResultCode::FORMERR,
            2 => ResultCode::SERVFAIL,
            3 => ResultCode::NXDOMAIN,
            4 => ResultCode::NOTIMP,
            5 => ResultCode::REFUSED,
            x => ResultCode::UNRECOGNIZED(x),
        }
    }
}

} // verus!
