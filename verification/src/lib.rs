use vstd::prelude::*;

pub mod coord;
pub mod text;
pub mod crc32;
pub mod value;
pub mod xml;
pub mod zip;
pub mod palette;
pub mod ast;
pub mod operand;
pub mod functions;
pub mod harness;
pub mod lexer;
pub mod parser;
pub mod numeral;
pub mod graph;
pub mod workbook;
pub mod interface;
pub mod package;
pub mod text_functions;
pub mod history;
pub mod navigation;
pub mod sheets;
pub mod sheet;
pub mod recalc;
pub mod resolve;
pub mod criteria;
pub mod lookup;
pub mod position;
pub mod worksheet;
pub mod cell;
pub mod reads;
pub mod logic;
pub mod conditional;
pub mod inspect;
