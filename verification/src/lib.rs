//! A persistent, network-ready string key/value store built on a
//! log-structured storage engine, together with the framed wire protocol
//! that clients and servers exchange.

mod codec;
mod command;
mod engine;
mod err;
mod protocol;
mod server;

pub use codec::{encode_command, parse_command};
pub use command::{Command, CommandV};
pub use engine::kv::{get_file_ids, stale_reader_ids, IndexEntry, KvStore, Segment};
pub use engine::sled_engine::SledKvsEngine;
pub use engine::KvsEngine;
pub use err::KvsError;
pub use protocol::{
    decode_request, decode_response, encode_request, encode_response, frame_payload,
    unframe_payload, Request, RequestV, Response, ResponseV,
};
pub use server::{decode_engine, determine_engine, encode_engine, handle_request, Engine};
