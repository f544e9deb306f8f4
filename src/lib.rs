pub mod call;
pub mod catalog;
pub mod dispatch;
pub mod infer;
pub mod libs;
pub mod pipeline;
pub mod plan;
pub mod reconcile;
pub mod scan;
pub mod sniff;
pub mod strings;
pub mod text;
pub mod trace;
