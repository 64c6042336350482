use vstd::prelude::*;
use crate::val_hold::{ValueHolder, ValueHolderError};

verus! {

/// What the task that lists the input folder works on: the folder, and the files found in it.
pub struct UpdateNewFileListValues {
    pub input_folder: String,
    pub new_files: Vec<String>,
}

impl UpdateNewFileListValues {
    /// Borrows the input folder and the file list for task `task_id`; the list starts empty.
    /// Nothing is borrowed unless both are available.
    pub fn take(
        input_folder: &mut ValueHolder<String>,
        new_files: &mut ValueHolder<Vec<String>>,
        task_id: u64,
    ) -> (r: Option<UpdateNewFileListValues>)
        ensures
            r is Some <==> old(input_folder).spec_available() && old(new_files).spec_available(),
            r matches Some(v) ==> {
                &&& v.input_folder == old(input_folder).content()
                &&& v.new_files@.len() == 0
                &&& final(input_folder).spec_used_by() == Some(task_id)
                &&& final(new_files).spec_used_by() == Some(task_id)
                &&& cloned::<String>(old(input_folder).content(), final(input_folder).content())
                &&& cloned::<Vec<String>>(old(new_files).content(), final(new_files).content())
            },
            r is None ==> *final(input_folder) == *old(input_folder) && *final(new_files) == *old(new_files),
    {
        if !(input_folder.available() && new_files.available()) {
            return None;
        }
        let _ = new_files.depopulate(task_id);
        match input_folder.depopulate(task_id) {
            Ok(folder) => Some(UpdateNewFileListValues { input_folder: *folder, new_files: Vec::new() }),
            Err(_) => None,
        }
    }

    /// Puts the folder and the files found back into the holders, the folder first; stops at
    /// the first holder that is not borrowed.
    pub fn put_back(
        self,
        input_folder: &mut ValueHolder<String>,
        new_files: &mut ValueHolder<Vec<String>>,
    ) -> (r: Result<(), ValueHolderError>)
        ensures
            r is Ok <==> !old(input_folder).spec_available() && !old(new_files).spec_available(),
            r matches Err(e) ==> e == ValueHolderError::AlreadyPopulated,
            !old(input_folder).spec_available() ==> *final(input_folder) == ValueHolder::Value(
                Box::new(self.input_folder),
            ),
            old(input_folder).spec_available() ==> *final(input_folder) == *old(input_folder),
            !old(input_folder).spec_available() && !old(new_files).spec_available() ==> *final(new_files)
                == ValueHolder::Value(Box::new(self.new_files)),
            old(input_folder).spec_available() || old(new_files).spec_available() ==> *final(new_files)
                == *old(new_files),
    {
        input_folder.populate(Box::new(self.input_folder))?;
        new_files.populate(Box::new(self.new_files))
    }
}

} // verus!
