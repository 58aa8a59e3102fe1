//! Reading, merging, summarising and comparing instrumentation profiles:
//! per-function execution counters and value-profiling samples collected from
//! instrumented binaries.

pub mod instrumentation_profile;
