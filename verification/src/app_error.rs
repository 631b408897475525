use vstd::prelude::*;
use crate::error::NiphasError;
use crate::json::{jstr, push_member, Json, JsonV};
use crate::text::push_str;

verus! {

/// Errors of the eval webhook, each with the HTTP status it is answered with.
#[derive(Debug, Clone, PartialEq, Eq)]
pub enum AppError {
    InvalidInput(String),
    FlakeNotAllowed(String),
    EvalFailed(String),
    EvalTimeout,
    StorePathNotCached(String),
    ClosureResolutionFailed(String),
    Internal(String),
}

impl AppError {
    /// The HTTP status this error is answered with.
    pub open spec fn status(self) -> u16 {
        match self {
            AppError::InvalidInput(_) => 400,
            AppError::FlakeNotAllowed(_) => 403,
            AppError::EvalFailed(_) => 422,
            AppError::EvalTimeout => 408,
            AppError::StorePathNotCached(_) => 404,
            AppError::ClosureResolutionFailed(_) => 502,
            AppError::Internal(_) => 500,
        }
    }

    /// The machine-readable code of the JSON answer.
    pub open spec fn code_text(self) -> Seq<char> {
        match self {
            AppError::InvalidInput(_) => "InvalidInput"@,
            AppError::FlakeNotAllowed(_) => "FlakeNotAllowed"@,
            AppError::EvalFailed(_) => "EvalFailed"@,
            AppError::EvalTimeout => "EvalTimeout"@,
            AppError::StorePathNotCached(_) => "StorePathNotCached"@,
            AppError::ClosureResolutionFailed(_) => "ClosureResolutionFailed"@,
            AppError::Internal(_) => "InternalError"@,
        }
    }

    /// The message, as `Display` writes it.
    pub open spec fn text(self) -> Seq<char> {
        match self {
            AppError::InvalidInput(m) => "invalid input: "@ + m@,
            AppError::FlakeNotAllowed(m) => "flake not allowed: "@ + m@,
            AppError::EvalFailed(m) => "evaluation failed: "@ + m@,
            AppError::EvalTimeout => "evaluation exceeded timeout"@,
            AppError::StorePathNotCached(m) => "store path not cached: "@ + m@,
            AppError::ClosureResolutionFailed(m) => "closure resolution failed: "@ + m@,
            AppError::Internal(m) => "internal error: "@ + m@,
        }
    }

    /// HTTP status code for this error.
    pub fn status_code(&self) -> (r: u16)
        ensures
            r == self.status(),
    {
        match self {
            AppError::InvalidInput(_) => 400,
            AppError::FlakeNotAllowed(_) => 403,
            AppError::EvalFailed(_) => 422,
            AppError::EvalTimeout => 408,
            AppError::StorePathNotCached(_) => 404,
            AppError::ClosureResolutionFailed(_) => 502,
            AppError::Internal(_) => 500,
        }
    }

    /// Machine-readable error code for the JSON response.
    pub fn error_code(&self) -> (r: &'static str)
        ensures
            r@ == self.code_text(),
    {
        match self {
            AppError::InvalidInput(_) => "InvalidInput",
            AppError::FlakeNotAllowed(_) => "FlakeNotAllowed",
            AppError::EvalFailed(_) => "EvalFailed",
            AppError::EvalTimeout => "EvalTimeout",
            AppError::StorePathNotCached(_) => "StorePathNotCached",
            AppError::ClosureResolutionFailed(_) => "ClosureResolutionFailed",
            AppError::Internal(_) => "InternalError",
        }
    }

    /// The message, as `Display` writes it.
    pub fn to_string(&self) -> (r: String)
        ensures
            r@ == self.text(),
    {
        let mut r = String::new();
        match self {
            AppError::InvalidInput(m) => {
                push_str(&mut r, "invalid input: ");
                push_str(&mut r, m.as_str());
            },
            AppError::FlakeNotAllowed(m) => {
                push_str(&mut r, "flake not allowed: ");
                push_str(&mut r, m.as_str());
            },
            AppError::EvalFailed(m) => {
                push_str(&mut r, "evaluation failed: ");
                push_str(&mut r, m.as_str());
            },
            AppError::EvalTimeout => {
                push_str(&mut r, "evaluation exceeded timeout");
            },
            AppError::StorePathNotCached(m) => {
                push_str(&mut r, "store path not cached: ");
                push_str(&mut r, m.as_str());
            },
            AppError::ClosureResolutionFailed(m) => {
                push_str(&mut r, "closure resolution failed: ");
                push_str(&mut r, m.as_str());
            },
            AppError::Internal(m) => {
                push_str(&mut r, "internal error: ");
                push_str(&mut r, m.as_str());
            },
        }
        r
    }

    /// The JSON body of the answer: `{"error": <code>, "message": <message>}`.
    pub fn error_body(&self) -> (r: Json)
        ensures
            r.view() == JsonV::Obj(
                seq![("error"@, JsonV::Str(self.code_text())), ("message"@, JsonV::Str(self.text()))],
            ),
    {
        let mut m = Vec::new();
        push_member(&mut m, "error", jstr(self.error_code()));
        let t = self.to_string();
        push_member(&mut m, "message", jstr(t.as_str()));
        proof {
            assert(crate::json::obj_view(m@) =~= seq![
                ("error"@, JsonV::Str(self.code_text())),
                ("message"@, JsonV::Str(self.text())),
            ]);
        }
        Json::Obj(m)
    }
}

/// The webhook error a library error becomes: the variants the webhook answers on
/// their own keep their message, the rest become `Internal` with the whole message.
pub open spec fn converts_to(e: NiphasError, r: AppError) -> bool {
    match e {
        NiphasError::InvalidInput(m) => r == AppError::InvalidInput(m),
        NiphasError::FlakeNotAllowed(m) => r == AppError::FlakeNotAllowed(m),
        NiphasError::EvalTimeout(_) => r == AppError::EvalTimeout,
        NiphasError::StorePathNotCached(m) => r == AppError::StorePathNotCached(m),
        NiphasError::ClosureResolution(m) => r == AppError::ClosureResolutionFailed(m),
        _ => r matches AppError::Internal(t) && t@ == e.text(),
    }
}

impl AppError {
    /// The webhook error for a library error (what `From<NiphasError>` does).
    pub fn from_niphas_error(e: NiphasError) -> (r: AppError)
        ensures
            converts_to(e, r),
    {
        match e {
            NiphasError::InvalidInput(msg) => AppError::InvalidInput(msg),
            NiphasError::FlakeNotAllowed(msg) => AppError::FlakeNotAllowed(msg),
            NiphasError::EvalTimeout(_) => AppError::EvalTimeout,
            NiphasError::StorePathNotCached(msg) => AppError::StorePathNotCached(msg),
            NiphasError::ClosureResolution(msg) => AppError::ClosureResolutionFailed(msg),
            other => AppError::Internal(other.to_string()),
        }
    }
}

} // verus!
