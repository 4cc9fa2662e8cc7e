use vstd::prelude::*;

pub mod text;
pub mod buffer;
pub mod ranges;
pub mod generator;
pub mod html;
