use vstd::prelude::*;
use std::collections::HashSet;
use crate::data::timeline::Timeline;
use crate::state::SaveLocationOptions;
use crate::text::{decimal, decimal_chars, decimal_string, push_str, string_from};

verus! {

broadcast use vstd::std_specs::hash::group_hash_axioms;

/// A value of the shared state that a task can borrow.
///
/// While no task uses it, the holder holds the value itself. A task takes the value out and
/// leaves a backup copy tagged with its id; the task puts its result back when it finishes, and
/// if the task disappears without doing so the backup takes the value's place again.
pub enum ValueHolder<T> {
    Value(Box<T>),
    BackupValue(Box<T>, u64),
}

/// Why a holder refused a request.
#[derive(Debug, Clone, Copy, PartialEq, Eq, Structural)]
pub enum ValueHolderError {
    /// The value is borrowed by the task with this id.
    InUse(u64),
    /// The value is present already, so there is nothing to put back.
    AlreadyPopulated,
}

/// A holder whose value task `task_id` has taken, with `backup` in its place.
pub open spec fn taken<T>(backup: T, task_id: u64) -> ValueHolder<T> {
    ValueHolder::BackupValue(Box::new(backup), task_id)
}

/// A holder after a task's result `value` is put back: unchanged when the value is present.
pub open spec fn populated<T>(h: ValueHolder<T>, value: T) -> ValueHolder<T> {
    match h {
        ValueHolder::Value(_) => h,
        ValueHolder::BackupValue(_, _) => ValueHolder::Value(Box::new(value)),
    }
}

/// A holder after restoring against the live task ids: the backup takes the value's place
/// when the task that holds the value is not among them.
pub open spec fn restored<T>(h: ValueHolder<T>, task_ids: Set<u64>) -> ValueHolder<T> {
    match h {
        ValueHolder::BackupValue(b, id) => if task_ids.contains(id) {
            h
        } else {
            ValueHolder::Value(b)
        },
        ValueHolder::Value(_) => h,
    }
}

impl<T: Clone> ValueHolder<T> {
    /// No task holds the value.
    pub open spec fn spec_available(&self) -> bool {
        self is Value
    }

    /// The id of the task that holds the value, if any.
    pub open spec fn spec_used_by(&self) -> Option<u64> {
        match self {
            ValueHolder::Value(_) => None,
            ValueHolder::BackupValue(_, id) => Some(*id),
        }
    }

    /// The value, or the backup while a task holds the value.
    pub open spec fn content(&self) -> T {
        match self {
            ValueHolder::Value(v) => **v,
            ValueHolder::BackupValue(v, _) => **v,
        }
    }

    /// Takes the value out for task `task_id`, leaving a copy as backup; refused while another
    /// task holds it.
    pub fn depopulate(&mut self, task_id: u64) -> (r: Result<Box<T>, ValueHolderError>)
        ensures
            old(self).spec_available() ==> {
                &&& r matches Ok(v) && *v == old(self).content()
                &&& *final(self) == taken(final(self).content(), task_id)
                &&& cloned::<T>(old(self).content(), final(self).content())
            },
            !old(self).spec_available() ==> {
                &&& r matches Err(e) && e == ValueHolderError::InUse(old(self).spec_used_by()->0)
                &&& *final(self) == *old(self)
            },
    {
        match self {
            ValueHolder::Value(val) => {
                let backup = Box::new((**val).clone());
                let mut placeholder = ValueHolder::BackupValue(backup, task_id);
                std::mem::swap(self, &mut placeholder);
                match placeholder {
                    ValueHolder::Value(val2) => Ok(val2),
                    ValueHolder::BackupValue(_, id) => Err(ValueHolderError::InUse(id)),
                }
            },
            ValueHolder::BackupValue(_, id) => Err(ValueHolderError::InUse(*id)),
        }
    }

    /// Puts a task's result back in place of the backup; refused when the value is present.
    pub fn populate(&mut self, value: Box<T>) -> (r: Result<(), ValueHolderError>)
        ensures
            *final(self) == populated(*old(self), *value),
            old(self).spec_available() ==> (r matches Err(e) && e == ValueHolderError::AlreadyPopulated),
            !old(self).spec_available() ==> r is Ok,
    {
        match self {
            ValueHolder::Value(_) => Err(ValueHolderError::AlreadyPopulated),
            ValueHolder::BackupValue(_, _) => {
                *self = ValueHolder::Value(value);
                Ok(())
            },
        }
    }

    /// Whether no task holds the value.
    pub fn available(&self) -> (r: bool)
        ensures
            r == self.spec_available(),
    {
        match self {
            ValueHolder::Value(_) => true,
            ValueHolder::BackupValue(_, _) => false,
        }
    }

    /// Gives the backup its place back when the task that holds the value is no longer among
    /// the live tasks.
    pub fn restore_if_dropped(&mut self, task_ids: &HashSet<u64>)
        ensures
            *final(self) == restored(*old(self), task_ids@),
    {
        let mut restored: Option<Box<T>> = None;
        match self {
            ValueHolder::BackupValue(val, id) => {
                if !task_ids.contains(id) {
                    let copy = Box::new((**val).clone());
                    let mut taken = copy;
                    std::mem::swap(val, &mut taken);
                    restored = Some(taken);
                }
            },
            ValueHolder::Value(_) => {},
        }
        if let Some(v) = restored {
            *self = ValueHolder::Value(v);
        }
    }

    /// The id of the task that holds the value, if any.
    pub fn used_by(&self) -> (r: Option<u64>)
        ensures
            r == self.spec_used_by(),
    {
        match self {
            ValueHolder::Value(_) => None,
            ValueHolder::BackupValue(_, id) => Some(*id),
        }
    }

    /// A short label of the holding task for display: empty while the value is present, else
    /// the task id modulo 999 in decimal.
    pub fn used_by_string(&self) -> (r: String)
        ensures
            match self.spec_used_by() {
                None => r@ == Seq::<char>::empty(),
                Some(id) => r@ == decimal((id % 999) as nat),
            },
    {
        match self {
            ValueHolder::Value(_) => String::new(),
            ValueHolder::BackupValue(_, id) => decimal_string(*id % 999),
        }
    }
}

impl<T: Clone + PlaceholderDisplayValue> ValueHolder<T> {
    /// The placeholder text of the value, or of its backup while a task holds it.
    pub fn to_string(&self) -> (r: String)
        ensures
            r@ == self.content().placeholder(),
    {
        match self {
            ValueHolder::BackupValue(t, _) => t.placeholder_text(),
            ValueHolder::Value(v) => v.placeholder_text(),
        }
    }
}

/// A short text that stands for a value in the interface.
pub trait PlaceholderDisplayValue {
    /// The text.
    spec fn placeholder(&self) -> Seq<char>;

    /// The text, computed.
    fn placeholder_text(&self) -> (r: String)
        ensures
            r@ == self.placeholder(),
    ;
}

/// A path stands for itself.
impl PlaceholderDisplayValue for String {
    open spec fn placeholder(&self) -> Seq<char> {
        self@
    }

    fn placeholder_text(&self) -> (r: String) {
        self.clone()
    }
}

/// A list of files stands as `<count> files`.
impl PlaceholderDisplayValue for Vec<String> {
    open spec fn placeholder(&self) -> Seq<char> {
        decimal(self@.len()) + " files"@
    }

    fn placeholder_text(&self) -> (r: String) {
        let mut v = decimal_chars(self.len() as u64);
        push_str(&mut v, " files");
        string_from(v.as_slice())
    }
}

/// A timeline stands as `<count> timeline entries`, counting the entries not sorted yet.
impl PlaceholderDisplayValue for Timeline {
    open spec fn placeholder(&self) -> Seq<char> {
        decimal(self.entries@.len()) + " timeline entries"@
    }

    fn placeholder_text(&self) -> (r: String) {
        let mut v = decimal_chars(self.entries.len() as u64);
        push_str(&mut v, " timeline entries");
        string_from(v.as_slice())
    }
}

/// `true` or `false`.
pub open spec fn bool_text(b: bool) -> Seq<char> {
    if b {
        "true"@
    } else {
        "false"@
    }
}

/// One field line of a multi-line struct listing: indented, `name: value,`.
pub open spec fn field_line(name: Seq<char>, b: bool) -> Seq<char> {
    "    "@ + name + ": "@ + bool_text(b) + ",\n"@
}

fn push_field_line(v: &mut Vec<char>, name: &str, b: bool)
    ensures
        final(v)@ == old(v)@ + field_line(name@, b),
{
    push_str(v, "    ");
    push_str(v, name);
    push_str(v, ": ");
    if b {
        push_str(v, "true");
    } else {
        push_str(v, "false");
    }
    push_str(v, ",\n");
    assert(final(v)@ =~= old(v)@ + field_line(name@, b));
}

/// The options stand as their multi-line listing, one field per line.
impl PlaceholderDisplayValue for SaveLocationOptions {
    open spec fn placeholder(&self) -> Seq<char> {
        "SaveLocationOptions {\n"@ + field_line("popup_open"@, self.popup_open) + field_line(
            "file_type"@,
            self.file_type,
        ) + field_line("date"@, self.date) + field_line("scene"@, self.scene) + field_line(
            "take"@,
            self.take,
        ) + field_line("device"@, self.device) + "}"@
    }

    fn placeholder_text(&self) -> (r: String) {
        let mut v: Vec<char> = Vec::new();
        push_str(&mut v, "SaveLocationOptions {\n");
        push_field_line(&mut v, "popup_open", self.popup_open);
        push_field_line(&mut v, "file_type", self.file_type);
        push_field_line(&mut v, "date", self.date);
        push_field_line(&mut v, "scene", self.scene);
        push_field_line(&mut v, "take", self.take);
        push_field_line(&mut v, "device", self.device);
        push_str(&mut v, "}");
        string_from(v.as_slice())
    }
}

/// A task that takes a value and puts its result back leaves the value available, holding the
/// result.
pub proof fn law_put_back_after_take<T>(backup: T, task_id: u64, value: T)
    ensures
        populated(taken(backup, task_id), value) == ValueHolder::Value(Box::new(value)),
        populated(taken(backup, task_id), value) is Value,
{
}

/// A result is put back once: a second result is refused and the first one stays.
pub proof fn law_put_back_once<T>(backup: T, task_id: u64, first: T, second: T)
    ensures
        populated(populated(taken(backup, task_id), first), second) == ValueHolder::Value(Box::new(first)),
{
}

/// While a task holds a value it is refused to every other taker, naming the task that holds it.
pub proof fn law_taken_value_in_use<T: Clone>(backup: T, task_id: u64)
    ensures
        !taken(backup, task_id).spec_available(),
        taken(backup, task_id).spec_used_by() == Some(task_id),
{
}

/// When the task that took a value is gone, restoring gives the backup its place back; while
/// the task lives, restoring changes nothing.
pub proof fn law_restore_after_take<T>(backup: T, task_id: u64, task_ids: Set<u64>)
    ensures
        !task_ids.contains(task_id) ==> restored(taken(backup, task_id), task_ids) == ValueHolder::Value(Box::new(backup)),
        task_ids.contains(task_id) ==> restored(taken(backup, task_id), task_ids) == taken(backup, task_id),
{
}

/// Restoring never touches a value that no task holds.
pub proof fn law_restore_keeps_available<T>(value: T, task_ids: Set<u64>)
    ensures
        restored(ValueHolder::Value(Box::new(value)), task_ids) == ValueHolder::Value(Box::new(value)),
{
}

} // verus!
