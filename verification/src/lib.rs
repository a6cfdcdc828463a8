//! Passive traffic classification for a network tap: RTP and DTLS taggers,
//! UDP conversation bookkeeping, WebRTC conversation assembly and reporting,
//! and the decision logic of the Bluetooth capture loop.

pub mod rtp_tagger;
pub mod dtls_tagger;
pub mod bluetooth_tools;
pub mod datagrams;
pub mod net;
pub mod time;
pub mod l7_tagger;
pub mod udp_table;
pub mod webrtc_conversation;
pub mod webrtc_table;
pub mod webrtc_report;
pub mod capture;
