pub mod data_entry;
pub mod file_metadata;
pub mod get_barcode;
pub mod image_processing_algorithm;
pub mod lin_algebra;
pub mod process_files;
pub mod read_audio;
pub mod timeline;
