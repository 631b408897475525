use vstd::prelude::*;
use crate::text::{push_str, push_u64};

verus! {

/// Errors of the operator.
#[derive(Debug)]
pub enum OperatorError {
    /// A Kubernetes API error, by its message.
    Kube(String),
    EvalWebhook(String),
    EvalTimeout(u64),
    EvalFailed { code: String, message: String },
    /// A serialization error, by its message.
    Serialization(String),
}

/// How long the controller waits before the next reconcile.
#[derive(Debug, Clone, Copy, PartialEq, Eq, Structural)]
pub enum Requeue {
    /// Requeue after this many seconds.
    After(u64),
    /// Wait for the next change of the object.
    AwaitChange,
}

impl OperatorError {
    /// The error's message, as `Display` writes it.
    pub open spec fn text(self) -> Seq<char> {
        match self {
            OperatorError::Kube(m) => "kubernetes api error: "@ + m@,
            OperatorError::EvalWebhook(m) => "eval webhook error: "@ + m@,
            OperatorError::EvalTimeout(s) => "eval timeout after "@ + crate::text::decimal(s as nat)
                + "s"@,
            OperatorError::EvalFailed { code, message } => "eval failed: "@ + code@ + ": "@
                + message@,
            OperatorError::Serialization(m) => "serialization error: "@ + m@,
        }
    }

    /// The reason a condition or event gives for this error.
    pub open spec fn reason_text(self) -> Seq<char> {
        match self {
            OperatorError::EvalTimeout(_) => "EvalTimeout"@,
            OperatorError::EvalFailed { code, .. } => code@,
            _ => "EvalFailed"@,
        }
    }

    /// The message a condition or event gives for this error.
    pub open spec fn message_text(self) -> Seq<char> {
        match self {
            OperatorError::EvalTimeout(s) => "Evaluation timed out after "@ + crate::text::decimal(
                s as nat,
            ) + "s"@,
            OperatorError::EvalFailed { message, .. } => message@,
            _ => self.text(),
        }
    }

    /// Whether this error is transient and should be retried.
    pub fn is_transient(&self) -> (r: bool)
        ensures
            r == (self is Kube || self is EvalWebhook || self is EvalTimeout),
    {
        match self {
            OperatorError::Kube(_) | OperatorError::EvalWebhook(_) | OperatorError::EvalTimeout(
                _,
            ) => true,
            _ => false,
        }
    }

    /// The message, as `Display` writes it.
    pub fn to_string(&self) -> (r: String)
        ensures
            r@ == self.text(),
    {
        let mut r = String::new();
        match self {
            OperatorError::Kube(m) => {
                push_str(&mut r, "kubernetes api error: ");
                push_str(&mut r, m.as_str());
            },
            OperatorError::EvalWebhook(m) => {
                push_str(&mut r, "eval webhook error: ");
                push_str(&mut r, m.as_str());
            },
            OperatorError::EvalTimeout(s) => {
                push_str(&mut r, "eval timeout after ");
                push_u64(&mut r, *s);
                push_str(&mut r, "s");
            },
            OperatorError::EvalFailed { code, message } => {
                push_str(&mut r, "eval failed: ");
                push_str(&mut r, code.as_str());
                push_str(&mut r, ": ");
                push_str(&mut r, message.as_str());
            },
            OperatorError::Serialization(m) => {
                push_str(&mut r, "serialization error: ");
                push_str(&mut r, m.as_str());
            },
        }
        r
    }

    /// Extract a machine-readable reason and human-readable message for K8s conditions/events.
    pub fn reason_and_message(&self) -> (r: (String, String))
        ensures
            r.0@ == self.reason_text(),
            r.1@ == self.message_text(),
            match self {
                OperatorError::EvalTimeout(s) => r.0@ == "EvalTimeout"@ && r.1@
                    == "Evaluation timed out after "@ + crate::text::decimal(*s as nat) + "s"@,
                OperatorError::EvalFailed { code, message } => r.0@ == code@ && r.1@ == message@,
                _ => r.0@ == "EvalFailed"@ && r.1@ == self.text(),
            },
    {
        match self {
            OperatorError::EvalTimeout(s) => {
                let mut m = String::new();
                push_str(&mut m, "Evaluation timed out after ");
                push_u64(&mut m, *s);
                push_str(&mut m, "s");
                let mut a = String::new();
                push_str(&mut a, "EvalTimeout");
                (a, m)
            },
            OperatorError::EvalFailed { code, message } => {
                let mut a = String::new();
                push_str(&mut a, code.as_str());
                let mut b = String::new();
                push_str(&mut b, message.as_str());
                (a, b)
            },
            _ => {
                let mut a = String::new();
                push_str(&mut a, "EvalFailed");
                (a, self.to_string())
            },
        }
    }
}

/// How long to wait before retrying after a failed reconcile: 10 seconds for transient
/// errors, 60 for the rest.
pub fn error_policy(error: &OperatorError) -> (r: Requeue)
    ensures
        r == if error is Kube || error is EvalWebhook || error is EvalTimeout {
            Requeue::After(10)
        } else {
            Requeue::After(60)
        },
{
    if error.is_transient() {
        Requeue::After(10)
    } else {
        Requeue::After(60)
    }
}

} // verus!
