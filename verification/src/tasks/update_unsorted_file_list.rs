use vstd::prelude::*;
use crate::val_hold::{ValueHolder, ValueHolderError};

verus! {

/// What the task that lists the folder of unsorted files works on: the folder, and the files found in it.
pub struct UpdateUnsortedFileListValues {
    pub unsorted_folder: String,
    pub unsorted_files: Vec<String>,
}

impl UpdateUnsortedFileListValues {
    /// Borrows the input folder and the file list for task `task_id`; the list starts empty.
    /// Nothing is borrowed unless both are available.
    pub fn take(
        unsorted_folder: &mut ValueHolder<String>,
        unsorted_files: &mut ValueHolder<Vec<String>>,
        task_id: u64,
    ) -> (r: Option<UpdateUnsortedFileListValues>)
        ensures
            r is Some <==> old(unsorted_folder).spec_available() && old(unsorted_files).spec_available(),
            r matches Some(v) ==> {
                &&& v.unsorted_folder == old(unsorted_folder).content()
                &&& v.unsorted_files@.len() == 0
                &&& final(unsorted_folder).spec_used_by() == Some(task_id)
                &&& final(unsorted_files).spec_used_by() == Some(task_id)
                &&& cloned::<String>(old(unsorted_folder).content(), final(unsorted_folder).content())
                &&& cloned::<Vec<String>>(old(unsorted_files).content(), final(unsorted_files).content())
            },
            r is None ==> *final(unsorted_folder) == *old(unsorted_folder) && *final(unsorted_files) == *old(unsorted_files),
    {
        if !(unsorted_folder.available() && unsorted_files.available()) {
            return None;
        }
        let _ = unsorted_files.depopulate(task_id);
        match unsorted_folder.depopulate(task_id) {
            Ok(folder) => Some(UpdateUnsortedFileListValues { unsorted_folder: *folder, unsorted_files: Vec::new() }),
            Err(_) => None,
        }
    }

    /// Puts the folder and the files found back into the holders, the folder first; stops at
    /// the first holder that is not borrowed.
    pub fn put_back(
        self,
        unsorted_folder: &mut ValueHolder<String>,
        unsorted_files: &mut ValueHolder<Vec<String>>,
    ) -> (r: Result<(), ValueHolderError>)
        ensures
            r is Ok <==> !old(unsorted_folder).spec_available() && !old(unsorted_files).spec_available(),
            r matches Err(e) ==> e == ValueHolderError::AlreadyPopulated,
            !old(unsorted_folder).spec_available() ==> *final(unsorted_folder) == ValueHolder::Value(
                Box::new(self.unsorted_folder),
            ),
            old(unsorted_folder).spec_available() ==> *final(unsorted_folder) == *old(unsorted_folder),
            !old(unsorted_folder).spec_available() && !old(unsorted_files).spec_available() ==> *final(unsorted_files)
                == ValueHolder::Value(Box::new(self.unsorted_files)),
            old(unsorted_folder).spec_available() || old(unsorted_files).spec_available() ==> *final(unsorted_files)
                == *old(unsorted_files),
    {
        unsorted_folder.populate(Box::new(self.unsorted_folder))?;
        unsorted_files.populate(Box::new(self.unsorted_files))
    }
}

} // verus!
