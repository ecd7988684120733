#![allow(non_snake_case, non_camel_case_types, unused_parens)]

pub mod block;
pub mod client;
pub mod blockchain;
pub mod fakeNet;
pub mod json;
pub mod miner;
pub mod strmap;
pub mod text;
pub mod transaction;
pub mod utils;
pub mod waiting;
pub mod walk;
