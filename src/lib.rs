//! Packet classification and bounded visual buffering for a live traffic monitor.
//!
//! Frames from a capture handle go through [`classify::Classifier`], which reads
//! their network and transport headers ([`packet`]) and consults a bounded flow
//! recency cache ([`flow`]) to flag fast control traffic. The resulting events feed
//! either the three lane buffers of the text display ([`lanes`]) or the particle
//! pool of the animated display ([`particles`]). [`iface`] picks the interface to
//! watch and [`stats`] reads and prints its byte counters.
pub mod proto;
pub mod flow;
pub mod packet;
pub mod classify;
pub mod lanes;
pub mod particles;
pub mod iface;
pub mod stats;
