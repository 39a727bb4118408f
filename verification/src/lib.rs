pub mod bookmarks;
pub mod catalog;
pub mod config;
pub mod description;
pub mod events;
pub mod http;
pub mod order;
pub mod scan;
pub mod soap;
pub mod ssdp;
pub mod text;
pub mod tokens;
pub mod xml;
