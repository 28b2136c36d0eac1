//! A verified core of a RESP (Redis serialization protocol) server: the
//! frame codec, an in-memory backend, the command model and the
//! per-connection dispatch step.

pub mod backend;
pub mod cmd;
pub mod network;
pub mod resp;
pub mod respv2;

pub use backend::Backend;
pub use cmd::Command;
pub use cmd::CommandError;
pub use cmd::Echo;
pub use cmd::Get;
pub use cmd::HGet;
pub use cmd::HGetAll;
pub use cmd::HMGet;
pub use cmd::HSet;
pub use cmd::SAdd;
pub use cmd::SIsMember;
pub use cmd::SetCmd;
pub use cmd::check_utf8;
pub use cmd::extract_args;
pub use cmd::to_ascii_lower;
pub use cmd::validate_command;
pub use network::StepOutcome;
pub use network::conn_step;
pub use network::handle_request;
pub use resp::decode::cal_total_length;
pub use resp::decode::extract_fixed_data;
pub use resp::decode::extract_simple_frame_data;
pub use resp::decode::find_crlf;
pub use resp::decode::parse_length;
pub use resp::decode::parse_length_and_move;
pub use resp::encode::RespEncode;
pub use resp::err::RespError;
pub use resp::frame::BulkString;
pub use resp::frame::Double;
pub use resp::frame::RespArray;
pub use resp::frame::RespFrame;
pub use resp::frame::RespMap;
pub use resp::frame::RespNull;
pub use resp::frame::RespSet;
pub use resp::frame::SimpleError;
pub use resp::frame::SimpleString;
pub use resp::frame::bytes_eq;
pub use resp::frame::frame_eq;
pub use respv2::parser::parse_frame;
pub use respv2::parser_len::parse_frame_length;
