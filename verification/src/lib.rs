use vstd::prelude::*;

pub mod allowlist;
pub mod cache_client;
pub mod closure;
pub mod closure_order;
pub mod config;
pub mod crd;
pub mod csi;
pub mod app_error;
pub mod error;
pub mod eval;
pub mod eval_client;
pub mod evaluator;
pub mod extract;
pub mod health;
pub mod hash;
pub mod json;
pub mod mount;
pub mod nar;
pub mod narinfo;
pub mod operator_error;
pub mod reconciler;
pub mod resources;
pub mod signature;
pub mod store_path;
pub mod text;

verus! {
}
