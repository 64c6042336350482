pub mod init_task;
pub mod install_magick;
pub mod update_input_file_list_task;
pub mod update_unsorted_file_list;
pub mod import_media_task;
pub mod schedule;
