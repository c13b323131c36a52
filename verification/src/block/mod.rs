//! Block phase: line scanners, the line cursor, the probe table and the container-stack engine.

pub mod cursor;
pub mod lexical;
pub mod probe;
pub mod scan;
pub mod ir;
pub mod refdef;
pub mod engine;
pub mod builder;
