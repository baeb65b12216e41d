pub mod text;
pub mod version;
pub mod markdown;
pub mod release;
pub mod preview;
