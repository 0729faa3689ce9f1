//! Assembly of application images for the ESP-IDF second-stage bootloader.

pub mod assembly;
pub mod digest;
pub mod error;
pub mod flash;
pub mod image;
pub mod layout;
pub mod partition;
pub mod segment;
