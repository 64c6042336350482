use vstd::prelude::*;
use std::collections::HashSet;
use crate::data::timeline::Timeline;
use crate::text::{chars_of, push_str, string_from};
use crate::val_hold::{populated, restored, taken, ValueHolder, ValueHolderError};

verus! {

/// Which folder levels sorted media is placed under.
#[derive(Debug, Clone, Copy, PartialEq, Eq, Structural)]
pub struct SaveLocationOptions {
    pub popup_open: bool,
    pub file_type: bool,
    pub date: bool,
    pub scene: bool,
    pub take: bool,
    pub device: bool,
}

/// The preview of where sorted files go: the output folder with `/` separators, then one
/// placeholder level per option shown in the dialog, then the file name. The scene level
/// follows the date option, and the device option adds a second take level.
pub open spec fn spec_path_preview(o: SaveLocationOptions, base: Seq<char>) -> Seq<char> {
    let b = base.map_values(|c: char| if c == '\\' { '/' } else { c });
    let b = if o.file_type { b + "/MEDIA_TYPE"@ } else { b };
    let b = if o.date { b + "/DD-MM-YYYY"@ } else { b };
    let b = if o.date { b + "/SCENE_NAME"@ } else { b };
    let b = if o.take { b + "/TAKE_NUMBER"@ } else { b };
    let b = if o.device { b + "/TAKE_NUMBER"@ } else { b };
    b + "/OG_FILE_NAME.file"@
}

impl SaveLocationOptions {
    /// Every level enabled, dialog closed.
    pub open spec fn spec_default() -> Self {
        SaveLocationOptions { popup_open: false, file_type: true, date: true, scene: true, take: true, device: true }
    }

    /// Every level enabled, dialog closed.
    pub fn new() -> (o: Self)
        ensures
            o == Self::spec_default(),
    {
        Self { popup_open: false, file_type: true, date: true, scene: true, take: true, device: true }
    }

    /// The path preview shown in the sorting dialog (see [`spec_path_preview`]).
    pub fn path_preview(&self, save_file_path: &str) -> (r: String)
        ensures
            r@ == spec_path_preview(*self, save_file_path@),
    {
        let src = chars_of(save_file_path);
        let mut v: Vec<char> = Vec::new();
        let mut i: usize = 0;
        while i < src.len()
            invariant
                src@ == save_file_path@,
                i <= src@.len(),
                v@ == src@.take(i as int).map_values(|c: char| if c == '\\' { '/' } else { c }),
            decreases src@.len() - i,
        {
            let c = src[i];
            v.push(if c == '\\' { '/' } else { c });
            i += 1;
            assert(v@ =~= src@.take(i as int).map_values(|c: char| if c == '\\' { '/' } else { c }));
        }
        assert(src@.take(src@.len() as int) =~= src@);
        if self.file_type {
            push_str(&mut v, "/MEDIA_TYPE");
        }
        if self.date {
            push_str(&mut v, "/DD-MM-YYYY");
        }
        if self.date {
            push_str(&mut v, "/SCENE_NAME");
        }
        if self.take {
            push_str(&mut v, "/TAKE_NUMBER");
        }
        if self.device {
            push_str(&mut v, "/TAKE_NUMBER");
        }
        push_str(&mut v, "/OG_FILE_NAME.file");
        string_from(v.as_slice())
    }
}

/// `after` is `before` taken by task `task_id`, which leaves a copy of the value as backup.
pub open spec fn taken_by<T: Clone>(before: ValueHolder<T>, after: ValueHolder<T>, task_id: u64) -> bool {
    &&& after == taken(after.content(), task_id)
    &&& cloned::<T>(before.content(), after.content())
}

/// The values that the tasks of a project share.
pub struct StateValues {
    pub input_folder: ValueHolder<String>,
    pub unsorted_folder: ValueHolder<String>,
    pub output_folder: ValueHolder<String>,
    pub new_files: ValueHolder<Vec<String>>,
    pub unsorted_files: ValueHolder<Vec<String>>,
    pub timeline: ValueHolder<Timeline>,
    pub save_location_options: ValueHolder<SaveLocationOptions>,
}

impl StateValues {
    /// Every value available: no folders chosen yet, no files, an empty timeline, and the
    /// default save location options.
    pub fn new() -> (s: Self)
        ensures
            s.input_folder matches ValueHolder::Value(v) && v@.len() == 0,
            s.unsorted_folder matches ValueHolder::Value(v) && v@.len() == 0,
            s.output_folder matches ValueHolder::Value(v) && v@.len() == 0,
            s.new_files matches ValueHolder::Value(v) && v@.len() == 0,
            s.unsorted_files matches ValueHolder::Value(v) && v@.len() == 0,
            s.timeline matches ValueHolder::Value(t) && t.wf() && t@.entries.is_empty() && t@.metadata.is_empty()
                && t@.time_chains.is_empty() && t@.chain_connections.is_empty(),
            s.save_location_options == ValueHolder::Value(Box::new(SaveLocationOptions::spec_default())),
    {
        StateValues {
            input_folder: ValueHolder::Value(Box::new(String::new())),
            unsorted_folder: ValueHolder::Value(Box::new(String::new())),
            output_folder: ValueHolder::Value(Box::new(String::new())),
            new_files: ValueHolder::Value(Box::new(Vec::new())),
            unsorted_files: ValueHolder::Value(Box::new(Vec::new())),
            timeline: ValueHolder::Value(Box::new(Timeline::new())),
            save_location_options: ValueHolder::Value(Box::new(SaveLocationOptions::new())),
        }
    }

    /// Gives every value whose task is no longer among `task_ids` its backup back (the save
    /// location options are not restored).
    pub fn restore_dropped_variables(&mut self, task_ids: &HashSet<u64>)
        ensures
            final(self).timeline == restored(old(self).timeline, task_ids@),
            final(self).input_folder == restored(old(self).input_folder, task_ids@),
            final(self).output_folder == restored(old(self).output_folder, task_ids@),
            final(self).unsorted_folder == restored(old(self).unsorted_folder, task_ids@),
            final(self).unsorted_files == restored(old(self).unsorted_files, task_ids@),
            final(self).new_files == restored(old(self).new_files, task_ids@),
            final(self).save_location_options == old(self).save_location_options,
    {
        self.timeline.restore_if_dropped(task_ids);
        self.input_folder.restore_if_dropped(task_ids);
        self.output_folder.restore_if_dropped(task_ids);
        self.unsorted_folder.restore_if_dropped(task_ids);
        self.unsorted_files.restore_if_dropped(task_ids);
        self.new_files.restore_if_dropped(task_ids);
    }

    /// Whether no task holds any of the values (the save location options aside), so that the
    /// program may restart.
    pub fn all_available(&self) -> (r: bool)
        ensures
            r == (self.timeline.spec_available() && self.input_folder.spec_available()
                && self.output_folder.spec_available() && self.unsorted_folder.spec_available()
                && self.unsorted_files.spec_available() && self.new_files.spec_available()),
    {
        self.timeline.available() && self.input_folder.available() && self.output_folder.available()
            && self.unsorted_folder.available() && self.unsorted_files.available() && self.new_files.available()
    }

    /// Borrows the input folder for task `task_id`, to choose a new one or import into it.
    pub fn take_input_folder(&mut self, task_id: u64) -> (r: Option<String>)
        ensures
            r is Some <==> old(self).input_folder.spec_available(),
            r matches Some(f) ==> f == old(self).input_folder.content() && taken_by(
                old(self).input_folder,
                final(self).input_folder,
                task_id,
            ),
            r is None ==> final(self).input_folder == old(self).input_folder,
            final(self).unsorted_folder == old(self).unsorted_folder,
            final(self).output_folder == old(self).output_folder,
            final(self).new_files == old(self).new_files,
            final(self).unsorted_files == old(self).unsorted_files,
            final(self).timeline == old(self).timeline,
            final(self).save_location_options == old(self).save_location_options,
    {
        if !self.input_folder.available() {
            return None;
        }
        match self.input_folder.depopulate(task_id) {
            Ok(f) => Some(*f),
            Err(_) => None,
        }
    }

    /// Puts the input folder back.
    pub fn put_back_input_folder(&mut self, folder: String) -> (r: Result<(), ValueHolderError>)
        ensures
            final(self).input_folder == populated(old(self).input_folder, folder),
            r is Ok <==> !old(self).input_folder.spec_available(),
            r matches Err(e) ==> e == ValueHolderError::AlreadyPopulated,
            final(self).unsorted_folder == old(self).unsorted_folder,
            final(self).output_folder == old(self).output_folder,
            final(self).new_files == old(self).new_files,
            final(self).unsorted_files == old(self).unsorted_files,
            final(self).timeline == old(self).timeline,
            final(self).save_location_options == old(self).save_location_options,
    {
        self.input_folder.populate(Box::new(folder))
    }

    /// Borrows the timeline for task `task_id`, to replace it with an empty one.
    pub fn take_timeline(&mut self, task_id: u64) -> (r: Option<Timeline>)
        ensures
            r is Some <==> old(self).timeline.spec_available(),
            r matches Some(t) ==> t == old(self).timeline.content() && taken_by(
                old(self).timeline,
                final(self).timeline,
                task_id,
            ),
            r is None ==> final(self).timeline == old(self).timeline,
            final(self).input_folder == old(self).input_folder,
            final(self).unsorted_folder == old(self).unsorted_folder,
            final(self).output_folder == old(self).output_folder,
            final(self).new_files == old(self).new_files,
            final(self).unsorted_files == old(self).unsorted_files,
            final(self).save_location_options == old(self).save_location_options,
    {
        if !self.timeline.available() {
            return None;
        }
        match self.timeline.depopulate(task_id) {
            Ok(t) => Some(*t),
            Err(_) => None,
        }
    }

    /// Puts a timeline back.
    pub fn put_back_timeline(&mut self, timeline: Timeline) -> (r: Result<(), ValueHolderError>)
        ensures
            final(self).timeline == populated(old(self).timeline, timeline),
            r is Ok <==> !old(self).timeline.spec_available(),
            r matches Err(e) ==> e == ValueHolderError::AlreadyPopulated,
            final(self).input_folder == old(self).input_folder,
            final(self).unsorted_folder == old(self).unsorted_folder,
            final(self).output_folder == old(self).output_folder,
            final(self).new_files == old(self).new_files,
            final(self).unsorted_files == old(self).unsorted_files,
            final(self).save_location_options == old(self).save_location_options,
    {
        self.timeline.populate(Box::new(timeline))
    }

    /// Borrows what processing new files works on for task `task_id`: the new files, the
    /// folder of processed files and the timeline; nothing unless all three are available.
    pub fn take_for_processing(&mut self, task_id: u64) -> (r: Option<(Vec<String>, String, Timeline)>)
        ensures
            r is Some <==> old(self).new_files.spec_available() && old(self).unsorted_folder.spec_available()
                && old(self).timeline.spec_available(),
            r matches Some((files, folder, timeline)) ==> {
                &&& files == old(self).new_files.content()
                &&& folder == old(self).unsorted_folder.content()
                &&& timeline == old(self).timeline.content()
                &&& taken_by(old(self).new_files, final(self).new_files, task_id)
                &&& taken_by(old(self).unsorted_folder, final(self).unsorted_folder, task_id)
                &&& taken_by(old(self).timeline, final(self).timeline, task_id)
            },
            r is None ==> final(self).new_files == old(self).new_files && final(self).unsorted_folder
                == old(self).unsorted_folder && final(self).timeline == old(self).timeline,
            final(self).input_folder == old(self).input_folder,
            final(self).output_folder == old(self).output_folder,
            final(self).unsorted_files == old(self).unsorted_files,
            final(self).save_location_options == old(self).save_location_options,
    {
        if !(self.new_files.available() && self.timeline.available() && self.unsorted_folder.available()) {
            return None;
        }
        let f = self.new_files.depopulate(task_id);
        let u = self.unsorted_folder.depopulate(task_id);
        let t = self.timeline.depopulate(task_id);
        match (f, u, t) {
            (Ok(f), Ok(u), Ok(t)) => Some((*f, *u, *t)),
            _ => None,
        }
    }

    /// Puts back what processing new files produced, in the order new files, timeline, folder
    /// of processed files; stops at the first holder that is not borrowed.
    pub fn put_back_after_processing(&mut self, files: Vec<String>, timeline: Timeline, folder: String) -> (r: Result<
        (),
        ValueHolderError,
    >)
        ensures
            r is Ok <==> !old(self).new_files.spec_available() && !old(self).timeline.spec_available()
                && !old(self).unsorted_folder.spec_available(),
            r matches Err(e) ==> e == ValueHolderError::AlreadyPopulated,
            final(self).new_files == populated(old(self).new_files, files),
            final(self).timeline == if old(self).new_files.spec_available() {
                old(self).timeline
            } else {
                populated(old(self).timeline, timeline)
            },
            final(self).unsorted_folder == if old(self).new_files.spec_available() || old(
                self,
            ).timeline.spec_available() {
                old(self).unsorted_folder
            } else {
                populated(old(self).unsorted_folder, folder)
            },
            final(self).input_folder == old(self).input_folder,
            final(self).output_folder == old(self).output_folder,
            final(self).unsorted_files == old(self).unsorted_files,
            final(self).save_location_options == old(self).save_location_options,
    {
        self.new_files.populate(Box::new(files))?;
        self.timeline.populate(Box::new(timeline))?;
        self.unsorted_folder.populate(Box::new(folder))
    }

    /// Borrows what sorting works on for task `task_id`: the processed files, the output
    /// folder and the timeline; nothing unless all three are available.
    pub fn take_for_sorting(&mut self, task_id: u64) -> (r: Option<(Vec<String>, String, Timeline)>)
        ensures
            r is Some <==> old(self).unsorted_files.spec_available() && old(self).output_folder.spec_available()
                && old(self).timeline.spec_available(),
            r matches Some((files, folder, timeline)) ==> {
                &&& files == old(self).unsorted_files.content()
                &&& folder == old(self).output_folder.content()
                &&& timeline == old(self).timeline.content()
                &&& taken_by(old(self).unsorted_files, final(self).unsorted_files, task_id)
                &&& taken_by(old(self).output_folder, final(self).output_folder, task_id)
                &&& taken_by(old(self).timeline, final(self).timeline, task_id)
            },
            r is None ==> final(self).unsorted_files == old(self).unsorted_files && final(self).output_folder
                == old(self).output_folder && final(self).timeline == old(self).timeline,
            final(self).input_folder == old(self).input_folder,
            final(self).unsorted_folder == old(self).unsorted_folder,
            final(self).new_files == old(self).new_files,
            final(self).save_location_options == old(self).save_location_options,
    {
        if !(self.unsorted_files.available() && self.timeline.available() && self.output_folder.available()) {
            return None;
        }
        let f = self.unsorted_files.depopulate(task_id);
        let o = self.output_folder.depopulate(task_id);
        let t = self.timeline.depopulate(task_id);
        match (f, o, t) {
            (Ok(f), Ok(o), Ok(t)) => Some((*f, *o, *t)),
            _ => None,
        }
    }

    /// Puts back what sorting produced, in the order processed files, timeline, output folder;
    /// stops at the first holder that is not borrowed.
    pub fn put_back_after_sorting(&mut self, files: Vec<String>, timeline: Timeline, folder: String) -> (r: Result<
        (),
        ValueHolderError,
    >)
        ensures
            r is Ok <==> !old(self).unsorted_files.spec_available() && !old(self).timeline.spec_available()
                && !old(self).output_folder.spec_available(),
            r matches Err(e) ==> e == ValueHolderError::AlreadyPopulated,
            final(self).unsorted_files == populated(old(self).unsorted_files, files),
            final(self).timeline == if old(self).unsorted_files.spec_available() {
                old(self).timeline
            } else {
                populated(old(self).timeline, timeline)
            },
            final(self).output_folder == if old(self).unsorted_files.spec_available() || old(
                self,
            ).timeline.spec_available() {
                old(self).output_folder
            } else {
                populated(old(self).output_folder, folder)
            },
            final(self).input_folder == old(self).input_folder,
            final(self).unsorted_folder == old(self).unsorted_folder,
            final(self).new_files == old(self).new_files,
            final(self).save_location_options == old(self).save_location_options,
    {
        self.unsorted_files.populate(Box::new(files))?;
        self.timeline.populate(Box::new(timeline))?;
        self.output_folder.populate(Box::new(folder))
    }

    /// Which of the four workflow hints to show (see [`spec_workflow_hints`]).
    pub fn workflow_hints(&self) -> (r: WorkflowHints)
        ensures
            r == spec_workflow_hints(
                self.new_files.content()@.len() == 0,
                self.unsorted_files.content()@.len() == 0,
                self.timeline.content().entries@.len() == 0,
            ),
    {
        let new_empty = match &self.new_files {
            ValueHolder::Value(v) => v.len() == 0,
            ValueHolder::BackupValue(v, _) => v.len() == 0,
        };
        let unsorted_empty = match &self.unsorted_files {
            ValueHolder::Value(v) => v.len() == 0,
            ValueHolder::BackupValue(v, _) => v.len() == 0,
        };
        let timeline_empty = match &self.timeline {
            ValueHolder::Value(t) => t.entries.len() == 0,
            ValueHolder::BackupValue(t, _) => t.entries.len() == 0,
        };
        WorkflowHints {
            clear_data: new_empty && unsorted_empty && !timeline_empty,
            import: !(new_empty && unsorted_empty && !timeline_empty),
            process: !(unsorted_empty && !timeline_empty) && !new_empty,
            sort: new_empty && !unsorted_empty && !timeline_empty,
        }
    }
}

/// The hints that lead a user through a project, each shown beside its button.
#[derive(Debug, Clone, Copy, PartialEq, Eq, Structural)]
pub struct WorkflowHints {
    /// Step 0: clear the data of the previous project.
    pub clear_data: bool,
    /// Step 1: import new files.
    pub import: bool,
    /// Step 2: process the imported files.
    pub process: bool,
    /// Step 3: sort the processed files.
    pub sort: bool,
}

/// The hints shown, from whether there are no new files, no processed files and no timeline
/// entries: clearing when only an old timeline is left, importing otherwise; processing when
/// there are new files, unless processed files are all gone while a timeline is left; sorting
/// when all new files are processed and a timeline is there.
pub open spec fn spec_workflow_hints(new_empty: bool, unsorted_empty: bool, timeline_empty: bool) -> WorkflowHints {
    WorkflowHints {
        clear_data: new_empty && unsorted_empty && !timeline_empty,
        import: !(new_empty && unsorted_empty && !timeline_empty),
        process: !(unsorted_empty && !timeline_empty) && !new_empty,
        sort: new_empty && !unsorted_empty && !timeline_empty,
    }
}

} // verus!
