//! The raw asset store, the paths it is keyed by, and the decoder interface.

pub mod deserialize;
pub mod laws;
pub mod model;
pub mod path;
pub mod raw_assets;

pub use deserialize::Deserialize;
pub use raw_assets::RawAssets;
