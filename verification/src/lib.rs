//! Verified core of a tool that decrypts and re-encrypts Minecraft Bedrock
//! world saves protected by a repeating-key XOR cipher.
pub mod crypto;
pub mod chunks;
pub mod ease_trojan;
pub mod text;
pub mod db;
pub mod pack_mode;
pub mod cli;
pub mod blocks;
pub mod update;
