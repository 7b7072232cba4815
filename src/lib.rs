//! Core decisions of a pipeline that links many object files through a
//! parallel multi-level reduction, and that verifies generated units while
//! their generator is still running.

pub mod coordinator;
pub mod link_plan;
pub mod naming;
pub mod partition;
pub mod scan;
