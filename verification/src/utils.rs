//! Handles for dataset-specific readers.

pub mod dataset_reader;
