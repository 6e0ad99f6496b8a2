//! The decisions of the MCUmgr management commands. Encoding requests to and
//! decoding responses from CBOR is done by the application, which hands the
//! decoded values to these functions.
use vstd::prelude::*;

use crate::text::{decimal, decimal_string};

pub mod echo;
pub mod image;
pub mod os_info;
pub mod reset;

verus! {

/// SMP error response, version 2 part.
#[derive(Clone, Copy, Debug, PartialEq, Eq, Structural)]
pub struct ErrResponseV2 {
    pub group: u16,
    pub rc: i32,
}

/// SMP error response (v1 fields `rc` and `rsn`, and the v2 `err` map).
#[derive(Clone, Debug)]
pub struct ErrResponse {
    pub rc: Option<i32>,
    pub rsn: Option<String>,
    pub err: Option<ErrResponseV2>,
}

/// The error that a response reports, as text: a v2 error wins; a v1 error
/// is a nonzero `rc`, with its reason (empty when absent); `None` when the
/// response reports no error.
pub open spec fn smp_error_text(e: ErrResponse) -> Option<Seq<char>> {
    match e.err {
        Some(v2) => Some(
            "Device error (v2): group="@ + decimal(v2.group as int) + ", rc="@ + decimal(
                v2.rc as int,
            ),
        ),
        None => match e.rc {
            Some(rc) => if rc != 0 {
                Some(
                    "Device error (v1): rc="@ + decimal(rc as int) + " "@ + match e.rsn {
                        Some(s) => s@,
                        None => Seq::<char>::empty(),
                    },
                )
            } else {
                None
            },
            None => None,
        },
    }
}

/// Checks an SMP response for error codes before the actual response is
/// decoded.
pub fn check_smp_error(err: &ErrResponse) -> (r: Result<(), String>)
    ensures
        match r {
            Ok(()) => smp_error_text(*err) is None,
            Err(s) => smp_error_text(*err) == Some(s@),
        },
        r is Ok <==> (err.err is None && (err.rc is None || err.rc == Some(0i32))),
{
    if let Some(v2) = &err.err {
        let mut s = String::from_str("Device error (v2): group=");
        let g = decimal_string(v2.group as i64);
        s.append(g.as_str());
        s.append(", rc=");
        let c = decimal_string(v2.rc as i64);
        s.append(c.as_str());
        return Err(s);
    }
    if let Some(rc) = err.rc {
        if rc != 0 {
            let mut s = String::from_str("Device error (v1): rc=");
            let c = decimal_string(rc as i64);
            s.append(c.as_str());
            s.append(" ");
            if let Some(msg) = &err.rsn {
                s.append(msg.as_str());
            }
            return Err(s);
        }
    }
    Ok(())
}


/// A response reports an error exactly when it carries the v2 error map, or
/// a nonzero v1 `rc`, whether or not a reason comes with it.
pub proof fn lemma_smp_error_reported(e: ErrResponse)
    ensures
        smp_error_text(e) is None <==> (e.err is None && (e.rc is None || e.rc == Some(0i32))),
        e.err is None && (e.rc matches Some(c) && c != 0) ==> smp_error_text(e) is Some,
{
}

} // verus!
