//! Policy engine for a per-application outbound firewall.
pub mod addr;
pub mod apps;
pub mod bytes;
pub mod checksum;
pub mod cli;
pub mod daemon;
pub mod daemon_laws;
pub mod divert;
pub mod dns;
pub mod file_laws;
pub mod identity;
pub mod json;
pub mod judge_laws;
pub mod kernattr;
pub mod layout;
pub mod line;
pub mod memory_laws;
pub mod message_laws;
pub mod name_laws;
pub mod number;
pub mod order;
pub mod owner_laws;
pub mod packet_laws;
pub mod pattern;
pub mod platform;
pub mod policy;
pub mod policy_laws;
pub mod procinfo;
pub mod report;
pub mod report_laws;
pub mod resolver;
pub mod rule_laws;
pub mod rulefile;
pub mod rulefile_laws;
pub mod seen;
pub mod socket_laws;
pub mod spelling_laws;
pub mod table;
pub mod target;
pub mod text;
pub mod view_laws;
pub mod words;
