//! Host-side logic for multi-pass scan and compaction pipelines on a compute
//! accelerator: kernel template specialisation, buffer layouts, the
//! inter-block combine step and the ordering of dispatches.

pub mod program;
pub mod compaction;
pub mod diagnostics;
pub mod layout;
pub mod pipeline;
pub mod scan;
pub mod template;
pub mod text;
