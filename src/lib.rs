//! A self-describing binary record format: typed, multi-valued, named
//! elements gathered in packs, with a defensive decoder, a matching encoder
//! and a case-insensitive query API.

pub mod encrypt;
pub mod ipv4;
pub mod mayaqua;
pub mod memory;
pub mod net_config;
pub mod pack_reader;
pub mod pack_types;
pub mod pack_writer;
pub mod round_trip;

pub use mayaqua::ErrServerIsNotVpn;
pub use memory::{read_buf_str, write_buf_str};
pub use net_config::{DhcpOptions, NetworkConfig, TunTapConfig};
pub use pack_reader::{read_element, read_pack, read_value};
pub use pack_types::{
    Element, Pack, PackError, Value, ValueType, MAX_ELEMENT_NUM, MAX_PACK_SIZE, MAX_VALUE_NUM, MAX_VALUE_SIZE,
};
