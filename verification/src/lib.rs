//! Reconstructs how long each client of a voice-chat server was connected,
//! from the server's rotated session logs.
//!
//! A run lists a log directory ([`index`]), replays the primary log files
//! oldest first ([`replay`]), reads each line ([`line`]) into the ledger of
//! client records ([`ledger`]) and ranks the clients by their totals
//! ([`report`]). Reading directories and files, and printing, are left to the
//! caller: the library works on text that has been read.
//!
//! Every function states what it returns over mathematical models of its
//! data, and is verified against that statement. The one exception is the
//! decoding of date and time text, which `chrono` does ([`clock`]).

pub mod clock;
pub mod index;
pub mod ledger;
pub mod line;
pub mod order;
pub mod replay;
pub mod report;
pub mod text;
