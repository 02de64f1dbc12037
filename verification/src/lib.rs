pub mod date;
pub mod db;
pub mod group;
pub mod parser;
pub mod roundtrip;
pub mod text;
pub mod writer;
pub mod web;
