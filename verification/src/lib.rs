use vstd::prelude::*;

pub mod cell;
pub mod graph;
pub mod text;
pub mod normal_mode;
pub mod address;
pub mod lexer;
pub mod formula;
pub mod sheet;
pub mod app;
pub mod view;
pub mod layout;
pub mod storage;
