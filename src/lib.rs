use vstd::prelude::*;

pub mod guid;
pub mod message;
pub mod node;
pub mod routing;
pub mod rpc;
pub mod table;
pub mod util;
