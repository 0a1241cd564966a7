//! Verified core of a peer-to-peer voice chat: packet framing, friend codes and address
//! texts, the address book, the incoming packet queue, the sample encoding and the screen
//! and text-input state machines.

pub mod addr;
pub mod addr_text;
pub mod address_book;
pub mod app_state;
pub mod bytes;
pub mod config;
pub mod config_filter;
pub mod friend_code;
pub mod hash;
pub mod keys;
pub mod line_text_area;
pub mod net_error;
pub mod packet;
pub mod samples;
pub mod strings;
pub mod time;
pub mod traits;
pub mod version;
pub mod voice_net;
