//! OpenRouteService: readable messages of its error bodies.
use vstd::prelude::*;
use crate::text::push_decimal;
#[allow(unused_imports)]
use crate::text::decimal;

verus! {

/// Detail of a structured error: `{ "code": 2010, "message": "..." }`.
pub struct OrsErrorDetail {
    pub code: Option<u32>,
    pub message: String,
}

/// Error body of a failed ORS request: structured (`{ "error": { "code", "message" } }`)
/// or simple (`{ "error": "message" }`).
#[allow(inconsistent_fields)]
pub enum OrsErrorBody {
    Structured { error: OrsErrorDetail },
    Simple { error: String },
}

impl OrsErrorBody {
    /// Readable message: `ORS <code> — <message>`, or `ORS — <message>` without a code.
    pub fn message(&self) -> (r: String)
        ensures
            r@ == match self {
                OrsErrorBody::Structured { error } => match error.code {
                    Some(c) => "ORS "@ + decimal(c as nat) + " — "@ + error.message@,
                    None => "ORS — "@ + error.message@,
                },
                OrsErrorBody::Simple { error } => "ORS — "@ + error@,
            },
    {
        let mut out = String::new();
        match self {
            OrsErrorBody::Structured { error } => {
                match error.code {
                    Some(c) => {
                        out.append("ORS ");
                        push_decimal(&mut out, c as u64);
                        out.append(" — ");
                    },
                    None => {
                        out.append("ORS — ");
                    },
                }
                out.append(error.message.as_str());
            },
            OrsErrorBody::Simple { error } => {
                out.append("ORS — ");
                out.append(error.as_str());
            },
        }
        out
    }
}

} // verus!
