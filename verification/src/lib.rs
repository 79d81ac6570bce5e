//! Peer-to-peer backup node: transport policy, endpoint publication, request
//! scheduling, DHT record selection and recovery planning, with contracts.

pub mod address;
pub mod address_laws;
pub mod arti_config;
pub mod automation;
pub mod backup_job;
pub mod base32;
pub mod book;
pub mod catalog;
pub mod coding;
pub mod commands;
pub mod commit;
pub mod config;
pub mod connection_laws;
pub mod control;
pub mod decimal;
pub mod dht;
pub mod dht_recovery;
pub mod direct;
pub mod directory;
pub mod discovery;
pub mod endpoint_laws;
pub mod endpoints;
pub mod events;
pub mod exchange;
pub mod framing;
pub mod hashing;
pub mod head_check;
pub mod ids;
pub mod laws;
pub mod links;
pub mod listeners;
pub mod local_shards;
pub mod loop_state;
pub mod metrics;
pub mod network_commit;
pub mod network_recovery;
pub mod ordered;
pub mod paging;
pub mod paths;
pub mod peer_events;
pub mod policy;
pub mod port_mapping;
pub mod publication;
pub mod publishing;
pub mod queries;
pub mod recovery;
pub mod request_laws;
pub mod requests;
pub mod search;
pub mod sessions;
pub mod settings;
pub mod settling_laws;
pub mod shards;
pub mod snapshot;
pub mod status;
pub mod table;
pub mod tor;
pub mod tor_files;
pub mod transport;
pub mod wire;
