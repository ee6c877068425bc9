//! Verified core of a set of PLC traffic tools: a man-in-the-middle byte
//! replacer, a log viewer and replayer, and the framing of PLC messages.

pub mod bridge;
pub mod error;
pub mod formatters;
pub mod monitor;
pub mod plc;
pub mod records;
pub mod render;
pub mod replay;
pub mod replace;
pub mod stateful_list;
pub mod viewer;
