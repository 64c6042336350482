use vstd::prelude::*;
use crate::val_hold::{ValueHolder, ValueHolderError};

verus! {

/// What the set-up task works on: the three folders of a project.
pub struct StateInitValues {
    pub input_folder: Box<String>,
    pub output_folder: Box<String>,
    pub unsorted_folder: Box<String>,
}

impl StateInitValues {
    /// Borrows the three folders for task `task_id`; nothing is borrowed unless all three are
    /// available.
    pub fn take(
        input_folder: &mut ValueHolder<String>,
        output_folder: &mut ValueHolder<String>,
        unsorted_folder: &mut ValueHolder<String>,
        task_id: u64,
    ) -> (r: Option<StateInitValues>)
        ensures
            r is Some <==> old(input_folder).spec_available() && old(output_folder).spec_available()
                && old(unsorted_folder).spec_available(),
            r matches Some(v) ==> {
                &&& *v.input_folder == old(input_folder).content()
                &&& *v.output_folder == old(output_folder).content()
                &&& *v.unsorted_folder == old(unsorted_folder).content()
                &&& final(input_folder).spec_used_by() == Some(task_id)
                &&& final(output_folder).spec_used_by() == Some(task_id)
                &&& final(unsorted_folder).spec_used_by() == Some(task_id)
                &&& cloned::<String>(old(input_folder).content(), final(input_folder).content())
                &&& cloned::<String>(old(output_folder).content(), final(output_folder).content())
                &&& cloned::<String>(old(unsorted_folder).content(), final(unsorted_folder).content())
            },
            r is None ==> *final(input_folder) == *old(input_folder) && *final(output_folder)
                == *old(output_folder) && *final(unsorted_folder) == *old(unsorted_folder),
    {
        if !(input_folder.available() && output_folder.available() && unsorted_folder.available()) {
            return None;
        }
        let i = input_folder.depopulate(task_id);
        let o = output_folder.depopulate(task_id);
        let u = unsorted_folder.depopulate(task_id);
        match (i, o, u) {
            (Ok(input_folder), Ok(output_folder), Ok(unsorted_folder)) => Some(
                StateInitValues { input_folder, output_folder, unsorted_folder },
            ),
            _ => None,
        }
    }

    /// Puts the three folders back into the holders, in the order input, output, unsorted;
    /// stops at the first holder that is not borrowed.
    pub fn put_back(
        self,
        input_folder: &mut ValueHolder<String>,
        output_folder: &mut ValueHolder<String>,
        unsorted_folder: &mut ValueHolder<String>,
    ) -> (r: Result<(), ValueHolderError>)
        ensures
            r is Ok <==> !old(input_folder).spec_available() && !old(output_folder).spec_available()
                && !old(unsorted_folder).spec_available(),
            r matches Err(e) ==> e == ValueHolderError::AlreadyPopulated,
            *final(input_folder) == if old(input_folder).spec_available() {
                *old(input_folder)
            } else {
                ValueHolder::Value(self.input_folder)
            },
            *final(output_folder) == if old(input_folder).spec_available() || old(
                output_folder,
            ).spec_available() {
                *old(output_folder)
            } else {
                ValueHolder::Value(self.output_folder)
            },
            *final(unsorted_folder) == if old(input_folder).spec_available() || old(
                output_folder,
            ).spec_available() || old(unsorted_folder).spec_available() {
                *old(unsorted_folder)
            } else {
                ValueHolder::Value(self.unsorted_folder)
            },
    {
        input_folder.populate(self.input_folder)?;
        output_folder.populate(self.output_folder)?;
        unsorted_folder.populate(self.unsorted_folder)
    }
}

} // verus!
