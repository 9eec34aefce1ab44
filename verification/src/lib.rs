//! Telemetry ingestion for a pit-wall display.
//!
//! A car sends one `KEY:VALUE` line per sample over a serial link. This
//! library keeps what the display shows: a bounded history per channel, an
//! event log, and two counters. It never touches the link itself: the caller
//! reads a line and hands the outcome to [`connection::Connection::read`].
//!
//! - [`text`]: runs of characters, the one notion that the parsers share.
//! - [`number`]: a sample from its decimal text.
//! - [`window`]: the bounded history of one channel.
//! - [`protocol`]: what a line asks for.
//! - [`connection`]: the state of a link and the step that a read causes.
//!
//! Every function is verified against a model of plain sequences and
//! numbers: the view (`@`) of a [`window::Window`] is a
//! [`window::History`], that of a [`connection::Connection`] a
//! [`connection::ConnectionView`], and each contract says which model value
//! comes out. The proof functions named `lemma_...` state what holds of
//! those models for every input.

pub mod connection;
pub mod number;
pub mod protocol;
pub mod text;
pub mod window;
