pub mod bencode;
pub mod types;
pub mod bytes_map;
pub mod peers_info_table;
pub mod message;
pub mod packet;
pub mod peers_info_manager;
pub mod peer_to_tracker;
pub mod keep_alive_manager;
pub mod digest;
pub mod file_manager;
pub mod peer_to_peer;
pub mod downloader;
pub mod resource_table;
pub mod rebuild;
pub mod sync;
pub mod thread_communication_message;
