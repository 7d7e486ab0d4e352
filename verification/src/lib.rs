//! A typed, persistent Modbus register file: the key grammar and word codec of
//! its JSON document, the four register tables, the access lists and the
//! request dispatcher.

pub mod json;
pub mod laws;
pub mod network;
pub mod pack;
pub mod register_manager;
pub mod service;
pub mod table;
pub mod text;
pub mod validation;
pub mod words;
