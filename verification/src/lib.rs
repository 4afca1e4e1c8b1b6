//! Dictionary-driven Chinese text segmentation and pronunciation annotation.
//!
//! The library builds a read-only lookup store from pronunciation records,
//! scans input text with a greedy longest-match strategy, and attaches a
//! chosen reading (with a confidence tier and the alternative readings) to
//! every dictionary-recognized segment.

pub mod dict_processor;
pub mod dictionary;
pub mod production_annotator;
