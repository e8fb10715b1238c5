//! A small register machine: its binary program format, its typed register
//! file, the text conversions its instructions use, and the step function of
//! its interpreter.

pub mod text;
pub mod memory;
pub mod binary;
pub mod machine;
