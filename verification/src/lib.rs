//! Indexes of an Erlang crash dump: where its `=binary:` records and its
//! process-heap `content` entries lie, what each binary record holds, and the
//! messages that the content entries spell out of those binaries.
pub mod indices;
pub mod search;
pub mod text;
pub mod types;
