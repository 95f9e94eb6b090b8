//! Relays chat messages that mention a subscriber's triggers to that subscriber.
//!
//! A message of a watched channel is matched against the triggers of the
//! channel's subscribers ([`engine`], [`pattern`], [`search`], [`fold`]), the
//! spans that matched are merged for each recipient ([`span`], [`span_laws`]),
//! and one notification for each recipient is handed to a bounded queue
//! ([`router`], [`message`]). The connection to the chat network is a state
//! machine that decides when to join, to leave and to reconnect ([`client`],
//! [`connection`], [`channels`]); which channels are watched follows from the
//! subscriptions ([`sync`], [`batch`]). [`commands`], [`listing`] and [`markup`]
//! hold the rules behind the commands with which subscribers register.

pub mod batch;
pub mod channels;
pub mod client;
pub mod commands;
pub mod connection;
pub mod engine;
pub mod fold;
pub mod listing;
pub mod markup;
pub mod message;
pub mod pattern;
pub mod records;
pub mod router;
pub mod search;
pub mod span;
pub mod span_laws;
pub mod sync;
pub mod text;
