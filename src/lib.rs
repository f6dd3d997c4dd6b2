//! A codec for NBT, the tagged binary tree format, in both byte orders.
pub mod bin;
pub mod binary;
pub mod compression;
pub mod laws;
pub mod nbt;
pub mod text;
