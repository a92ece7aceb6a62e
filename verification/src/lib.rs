//! Phrase segmentation for a Zhuyin input method: given the syllables typed so
//! far, choose the dictionary phrases that cover them best, and enumerate the
//! alternative segmentations a user can cycle through.
pub mod alternatives;
pub mod candidate;
pub mod cover;
pub mod dictionary;
pub mod engine;
pub mod enumeration;
pub mod laws;
pub mod order;
pub mod path;
pub mod render;
pub mod search;
pub mod sequence;
