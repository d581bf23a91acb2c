use vstd::prelude::*;

pub mod map;
pub mod pcf;
pub mod search;
pub mod text;
pub mod steam;
