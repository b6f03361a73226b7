//! Profiling of repeated HTTPS fetches: resolving a URL into host and path,
//! framing the request, decoding the raw response, recording one outcome per
//! cycle and folding the outcomes into summary statistics.

pub mod target;
pub mod response;
pub mod status;
pub mod profile;
