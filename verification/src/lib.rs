//! Verified diffing of texts, folders and images.

pub mod chars;

pub mod text;
pub mod hasher;
pub mod image;
pub mod order;
pub mod folder;
pub mod folder_laws;
