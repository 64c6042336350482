use vstd::prelude::*;
use crate::text::{decimal, decimal_string, chars_eq_str, chars_of, join, lemma_split_join, parse_u16, parse_u32, parse_u64, parse_unsigned, split_char, split_chars, string_from};

verus! {

/// Identifies a recording device: either a numeric client id or a camera name.
#[derive(Debug, Eq, Hash)]
pub enum DeviceId {
    ClientId(u16),
    CameraId(String),
}

/// The mathematical value of a [`DeviceId`].
pub enum DeviceIdView {
    ClientId(u16),
    CameraId(Seq<char>),
}

impl View for DeviceId {
    type V = DeviceIdView;

    open spec fn view(&self) -> DeviceIdView {
        match self {
            DeviceId::ClientId(n) => DeviceIdView::ClientId(*n),
            DeviceId::CameraId(s) => DeviceIdView::CameraId(s@),
        }
    }
}

impl PartialEq for DeviceId {
    fn eq(&self, other: &Self) -> (r: bool) {
        match self {
            DeviceId::ClientId(a) => match other {
                DeviceId::ClientId(b) => *a == *b,
                DeviceId::CameraId(_) => false,
            },
            DeviceId::CameraId(a) => match other {
                DeviceId::ClientId(_) => false,
                DeviceId::CameraId(b) => {
                    let r = a.eq(b);
                    assert(r == (a@ == b@));
                    r
                },
            },
        }
    }
}

impl vstd::std_specs::cmp::PartialEqSpecImpl for DeviceId {
    open spec fn obeys_eq_spec() -> bool {
        true
    }

    open spec fn eq_spec(&self, other: &DeviceId) -> bool {
        self@ == other@
    }
}

/// The text shown for a device: the client id in decimal, or the camera name.
pub open spec fn device_text(d: DeviceIdView) -> Seq<char> {
    match d {
        DeviceIdView::ClientId(n) => decimal(n as nat),
        DeviceIdView::CameraId(s) => s,
    }
}

impl DeviceId {
    /// The text shown for a device: the client id in decimal, or the camera name.
    pub open spec fn spec_to_string(self) -> Seq<char> {
        device_text(self@)
    }

    /// The text shown for a device (see [`DeviceId::spec_to_string`]).
    pub fn to_string(&self) -> (s: String)
        ensures
            s@ == self.spec_to_string(),
    {
        match self {
            DeviceId::ClientId(n) => decimal_string(*n as u64),
            DeviceId::CameraId(s) => s.clone(),
        }
    }
}

impl Clone for DeviceId {
    fn clone(&self) -> (r: Self)
        ensures
            r@ == self@,
    {
        match self {
            DeviceId::ClientId(n) => DeviceId::ClientId(*n),
            DeviceId::CameraId(s) => DeviceId::CameraId(s.clone()),
        }
    }
}


/// A reading of a device's internal clock, in milliseconds.
#[derive(Debug, Eq, Hash)]
pub struct DeviceTime {
    pub internal_clock: u64,
    pub device_id: DeviceId,
}

/// The mathematical value of a [`DeviceTime`].
pub struct DeviceTimeView {
    pub internal_clock: u64,
    pub device_id: DeviceIdView,
}

impl View for DeviceTime {
    type V = DeviceTimeView;

    open spec fn view(&self) -> DeviceTimeView {
        DeviceTimeView { internal_clock: self.internal_clock, device_id: self.device_id@ }
    }
}

impl PartialEq for DeviceTime {
    fn eq(&self, other: &Self) -> (r: bool) {
        self.internal_clock == other.internal_clock && self.device_id.eq(&other.device_id)
    }
}

impl vstd::std_specs::cmp::PartialEqSpecImpl for DeviceTime {
    open spec fn obeys_eq_spec() -> bool {
        true
    }

    open spec fn eq_spec(&self, other: &DeviceTime) -> bool {
        self@ == other@
    }
}

impl Clone for DeviceTime {
    fn clone(&self) -> (r: Self)
        ensures
            r@ == self@,
    {
        DeviceTime { internal_clock: self.internal_clock, device_id: self.device_id.clone() }
    }
}

/// One piece of information recorded on the timeline.
///
/// The first group of values is recorded as comma separated text (from a QR code or a text
/// file); `ClockOffset` pairs two simultaneous clock readings; `MediaCreated` records the path of
/// a media file; `RenameDevice` gives a device a display name.
#[derive(Debug, Eq, Hash)]
pub enum DataValue {
    IsMaster(bool),
    IsDirector(bool),
    IsOperator(bool),
    ProductionName(String),
    EnableOperatorName(bool),
    OperatorName(String),
    EnableSceneName(bool),
    SceneName(String),
    EnableTakeNumber(bool),
    TakeNumber(u32),
    ClockOffset(DeviceTime),
    MediaCreated(String),
    RenameDevice((DeviceId, String)),
}

/// The mathematical value of a [`DataValue`].
pub enum DataValueView {
    IsMaster(bool),
    IsDirector(bool),
    IsOperator(bool),
    ProductionName(Seq<char>),
    EnableOperatorName(bool),
    OperatorName(Seq<char>),
    EnableSceneName(bool),
    SceneName(Seq<char>),
    EnableTakeNumber(bool),
    TakeNumber(u32),
    ClockOffset(DeviceTimeView),
    MediaCreated(Seq<char>),
    RenameDevice((DeviceIdView, Seq<char>)),
}

impl View for DataValue {
    type V = DataValueView;

    open spec fn view(&self) -> DataValueView {
        match self {
            DataValue::IsMaster(b) => DataValueView::IsMaster(*b),
            DataValue::IsDirector(b) => DataValueView::IsDirector(*b),
            DataValue::IsOperator(b) => DataValueView::IsOperator(*b),
            DataValue::ProductionName(s) => DataValueView::ProductionName(s@),
            DataValue::EnableOperatorName(b) => DataValueView::EnableOperatorName(*b),
            DataValue::OperatorName(s) => DataValueView::OperatorName(s@),
            DataValue::EnableSceneName(b) => DataValueView::EnableSceneName(*b),
            DataValue::SceneName(s) => DataValueView::SceneName(s@),
            DataValue::EnableTakeNumber(b) => DataValueView::EnableTakeNumber(*b),
            DataValue::TakeNumber(n) => DataValueView::TakeNumber(*n),
            DataValue::ClockOffset(t) => DataValueView::ClockOffset(t@),
            DataValue::MediaCreated(p) => DataValueView::MediaCreated(p@),
            DataValue::RenameDevice((d, s)) => DataValueView::RenameDevice((d@, s@)),
        }
    }
}

impl PartialEq for DataValue {
    fn eq(&self, other: &Self) -> (r: bool) {
        match self {
            DataValue::IsMaster(a) => match other {
                DataValue::IsMaster(b) => *a == *b,
                _ => false,
            },
            DataValue::IsDirector(a) => match other {
                DataValue::IsDirector(b) => *a == *b,
                _ => false,
            },
            DataValue::IsOperator(a) => match other {
                DataValue::IsOperator(b) => *a == *b,
                _ => false,
            },
            DataValue::ProductionName(a) => match other {
                DataValue::ProductionName(b) => a.eq(b),
                _ => false,
            },
            DataValue::EnableOperatorName(a) => match other {
                DataValue::EnableOperatorName(b) => *a == *b,
                _ => false,
            },
            DataValue::OperatorName(a) => match other {
                DataValue::OperatorName(b) => a.eq(b),
                _ => false,
            },
            DataValue::EnableSceneName(a) => match other {
                DataValue::EnableSceneName(b) => *a == *b,
                _ => false,
            },
            DataValue::SceneName(a) => match other {
                DataValue::SceneName(b) => a.eq(b),
                _ => false,
            },
            DataValue::EnableTakeNumber(a) => match other {
                DataValue::EnableTakeNumber(b) => *a == *b,
                _ => false,
            },
            DataValue::TakeNumber(a) => match other {
                DataValue::TakeNumber(b) => *a == *b,
                _ => false,
            },
            DataValue::ClockOffset(a) => match other {
                DataValue::ClockOffset(b) => a.eq(b),
                _ => false,
            },
            DataValue::MediaCreated(a) => match other {
                DataValue::MediaCreated(b) => a.eq(b),
                _ => false,
            },
            DataValue::RenameDevice((a, n)) => match other {
                DataValue::RenameDevice((b, m)) => a.eq(b) && n.eq(m),
                _ => false,
            },
        }
    }
}

impl vstd::std_specs::cmp::PartialEqSpecImpl for DataValue {
    open spec fn obeys_eq_spec() -> bool {
        true
    }

    open spec fn eq_spec(&self, other: &DataValue) -> bool {
        self@ == other@
    }
}

impl Clone for DataValue {
    fn clone(&self) -> (r: Self)
        ensures
            r@ == self@,
    {
        match self {
            DataValue::IsMaster(b) => DataValue::IsMaster(*b),
            DataValue::IsDirector(b) => DataValue::IsDirector(*b),
            DataValue::IsOperator(b) => DataValue::IsOperator(*b),
            DataValue::ProductionName(s) => DataValue::ProductionName(s.clone()),
            DataValue::EnableOperatorName(b) => DataValue::EnableOperatorName(*b),
            DataValue::OperatorName(s) => DataValue::OperatorName(s.clone()),
            DataValue::EnableSceneName(b) => DataValue::EnableSceneName(*b),
            DataValue::SceneName(s) => DataValue::SceneName(s.clone()),
            DataValue::EnableTakeNumber(b) => DataValue::EnableTakeNumber(*b),
            DataValue::TakeNumber(n) => DataValue::TakeNumber(*n),
            DataValue::ClockOffset(t) => DataValue::ClockOffset(t.clone()),
            DataValue::MediaCreated(p) => DataValue::MediaCreated(p.clone()),
            DataValue::RenameDevice((d, s)) => DataValue::RenameDevice((d.clone(), s.clone())),
        }
    }
}

/// An entry of the timeline: a value, stamped with the clock reading at which it was recorded.
#[derive(Debug, Eq, Hash)]
pub struct TimelineEntry {
    pub time: DeviceTime,
    pub val: DataValue,
}

/// The mathematical value of a [`TimelineEntry`].
pub struct TimelineEntryView {
    pub time: DeviceTimeView,
    pub val: DataValueView,
}

impl View for TimelineEntry {
    type V = TimelineEntryView;

    open spec fn view(&self) -> TimelineEntryView {
        TimelineEntryView { time: self.time@, val: self.val@ }
    }
}

impl PartialEq for TimelineEntry {
    fn eq(&self, other: &Self) -> (r: bool) {
        self.time.eq(&other.time) && self.val.eq(&other.val)
    }
}

impl vstd::std_specs::cmp::PartialEqSpecImpl for TimelineEntry {
    open spec fn obeys_eq_spec() -> bool {
        true
    }

    open spec fn eq_spec(&self, other: &TimelineEntry) -> bool {
        self@ == other@
    }
}

impl Clone for TimelineEntry {
    fn clone(&self) -> (r: Self)
        ensures
            r@ == self@,
    {
        TimelineEntry { time: self.time.clone(), val: self.val.clone() }
    }
}


/// Why a comma separated row was not read as a timeline entry.
#[derive(Debug, Clone, Copy, PartialEq, Eq, Structural)]
pub enum CsvRowError {
    /// The row does not have exactly four comma separated columns.
    WrongColumnCount,
    /// The second column is not a `u64` clock reading.
    InvalidClock,
    /// The first column is not a `u16` client id.
    InvalidDeviceId,
    /// A `takeNumber` value is not a `u32`.
    InvalidTakeNumber,
    /// The key and value do not form a known pair.
    UnknownPair,
}

/// `true`/`True` and `false`/`False`.
pub open spec fn spec_bool_word(v: Seq<char>) -> Option<bool> {
    if v == "true"@ || v == "True"@ {
        Some(true)
    } else if v == "false"@ || v == "False"@ {
        Some(false)
    } else {
        None
    }
}

/// The value a key/value pair of a row stands for. `renameDevice` needs the id of the device
/// that scanned the row.
pub open spec fn spec_csv_value(key: Seq<char>, v: Seq<char>, scan: Option<DeviceIdView>) -> Result<DataValueView, CsvRowError> {
    let b = spec_bool_word(v);
    if key == "isMaster"@ && b is Some {
        Ok(DataValueView::IsMaster(b->0))
    } else if key == "isDirector"@ && b is Some {
        Ok(DataValueView::IsDirector(b->0))
    } else if key == "isOperator"@ && b is Some {
        Ok(DataValueView::IsOperator(b->0))
    } else if key == "productionName"@ {
        Ok(DataValueView::ProductionName(v))
    } else if key == "enableOperatorName"@ && b is Some {
        Ok(DataValueView::EnableOperatorName(b->0))
    } else if key == "operatorName"@ {
        Ok(DataValueView::OperatorName(v))
    } else if key == "enableSceneName"@ && b is Some {
        Ok(DataValueView::EnableSceneName(b->0))
    } else if key == "sceneName"@ {
        Ok(DataValueView::SceneName(v))
    } else if key == "enableTakeNumber"@ && b is Some {
        Ok(DataValueView::EnableTakeNumber(b->0))
    } else if key == "takeNumber"@ {
        match parse_unsigned(v, u32::MAX as int) {
            Some(n) => Ok(DataValueView::TakeNumber(n as u32)),
            None => Err(CsvRowError::InvalidTakeNumber),
        }
    } else if key == "renameDevice"@ && scan is Some {
        Ok(DataValueView::RenameDevice((scan->0, v)))
    } else {
        Err(CsvRowError::UnknownPair)
    }
}

/// A row `device id,clock,key,value` read as a timeline entry stamped with the client's clock.
pub open spec fn spec_from_csv_row(row: Seq<char>, scan: Option<DeviceIdView>) -> Result<TimelineEntryView, CsvRowError> {
    let cols = split_char(row, ',');
    if cols.len() != 4 {
        Err(CsvRowError::WrongColumnCount)
    } else {
        match parse_unsigned(cols[1], u64::MAX as int) {
            None => Err(CsvRowError::InvalidClock),
            Some(clock) => match parse_unsigned(cols[0], u16::MAX as int) {
                None => Err(CsvRowError::InvalidDeviceId),
                Some(id) => match spec_csv_value(cols[2], cols[3], scan) {
                    Ok(v) => Ok(
                        TimelineEntryView {
                            time: DeviceTimeView {
                                internal_clock: clock as u64,
                                device_id: DeviceIdView::ClientId(id as u16),
                            },
                            val: v,
                        },
                    ),
                    Err(e) => Err(e),
                },
            },
        }
    }
}

/// The keys whose value is a boolean word.
pub open spec fn boolean_key(key: Seq<char>) -> bool {
    ||| key == "isMaster"@
    ||| key == "isDirector"@
    ||| key == "isOperator"@
    ||| key == "enableOperatorName"@
    ||| key == "enableSceneName"@
    ||| key == "enableTakeNumber"@
}

proof fn lemma_row_columns(id: Seq<char>, clock: Seq<char>, key: Seq<char>, v: Seq<char>)
    requires
        !id.contains(','),
        !clock.contains(','),
        !key.contains(','),
        !v.contains(','),
    ensures
        split_char(id + ","@ + clock + ","@ + key + ","@ + v, ',') == seq![id, clock, key, v],
{
    reveal_strlit(",");
    let ls = seq![id, clock, key, v];
    reveal_with_fuel(join, 4);
    assert(ls.drop_last().drop_last().drop_last() =~= seq![id]);
    assert(ls.drop_last().drop_last() =~= seq![id, clock]);
    assert(ls.drop_last() =~= seq![id, clock, key]);
    assert(join(ls, seq![',']) =~= id + ","@ + clock + ","@ + key + ","@ + v);
    assert forall|i: int| 0 <= i < ls.len() implies !(#[trigger] ls[i]).contains(',') by {
        if i == 0 {
            assert(ls[i] == id);
        } else if i == 1 {
            assert(ls[i] == clock);
        } else if i == 2 {
            assert(ls[i] == key);
        } else {
            assert(ls[i] == v);
        }
    }
    lemma_split_join(ls, ',');
}

proof fn lemma_no_comma(w: Seq<char>)
    requires
        w == "True"@ || w == "true"@ || w == "False"@ || w == "false"@ || boolean_key(w),
    ensures
        !w.contains(','),
{
    reveal_strlit("True");
    reveal_strlit("true");
    reveal_strlit("False");
    reveal_strlit("false");
    reveal_strlit("isMaster");
    reveal_strlit("isDirector");
    reveal_strlit("isOperator");
    reveal_strlit("enableOperatorName");
    reveal_strlit("enableSceneName");
    reveal_strlit("enableTakeNumber");
    assert forall|i: int| 0 <= i < w.len() implies w[i] != ',' by {}
}

/// Boolean words may be capitalised: for every key with a boolean value, the row
/// `id,clock,key,False` reads exactly as `id,clock,key,false`, and `True` as `true`; and a row
/// with `true` never reads as the same entry as the row with `false`.
pub proof fn law_capitalised_booleans(id: Seq<char>, clock: Seq<char>, key: Seq<char>, scan: Option<DeviceIdView>)
    requires
        !id.contains(','),
        !clock.contains(','),
        boolean_key(key),
    ensures
        spec_from_csv_row(id + ","@ + clock + ","@ + key + ","@ + "False"@, scan) == spec_from_csv_row(
            id + ","@ + clock + ","@ + key + ","@ + "false"@,
            scan,
        ),
        spec_from_csv_row(id + ","@ + clock + ","@ + key + ","@ + "True"@, scan) == spec_from_csv_row(
            id + ","@ + clock + ","@ + key + ","@ + "true"@,
            scan,
        ),
        spec_from_csv_row(id + ","@ + clock + ","@ + key + ","@ + "true"@, scan) matches Ok(t)
            ==> spec_from_csv_row(id + ","@ + clock + ","@ + key + ","@ + "false"@, scan) != Ok::<TimelineEntryView, CsvRowError>(t),
{
    reveal_strlit("True");
    reveal_strlit("true");
    reveal_strlit("False");
    reveal_strlit("false");
    lemma_no_comma(key);
    lemma_no_comma("True"@);
    lemma_no_comma("true"@);
    lemma_no_comma("False"@);
    lemma_no_comma("false"@);
    lemma_row_columns(id, clock, key, "True"@);
    lemma_row_columns(id, clock, key, "true"@);
    lemma_row_columns(id, clock, key, "False"@);
    lemma_row_columns(id, clock, key, "false"@);
    assert(spec_bool_word("False"@) == Some(false));
    assert(spec_bool_word("false"@) == Some(false));
    assert(spec_bool_word("True"@) == Some(true));
    assert(spec_bool_word("true"@) == Some(true));
    reveal_strlit("isMaster");
    reveal_strlit("isDirector");
    reveal_strlit("isOperator");
    reveal_strlit("enableOperatorName");
    reveal_strlit("enableSceneName");
    reveal_strlit("enableTakeNumber");
    reveal_strlit("productionName");
    reveal_strlit("operatorName");
    reveal_strlit("sceneName");
    reveal_strlit("takeNumber");
    reveal_strlit("renameDevice");
}

pub open spec fn option_device_view(d: Option<&DeviceId>) -> Option<DeviceIdView> {
    match d {
        Some(x) => Some(x@),
        None => None,
    }
}

fn bool_word(v: &[char]) -> (r: Option<bool>)
    ensures
        r == spec_bool_word(v@),
{
    if chars_eq_str(v, "true") || chars_eq_str(v, "True") {
        Some(true)
    } else if chars_eq_str(v, "false") || chars_eq_str(v, "False") {
        Some(false)
    } else {
        None
    }
}

fn csv_value(key: &[char], v: &[char], scan: Option<&DeviceId>) -> (r: Result<DataValue, CsvRowError>)
    ensures
        match spec_csv_value(key@, v@, option_device_view(scan)) {
            Ok(d) => r matches Ok(x) && x@ == d,
            Err(e) => r matches Err(x) && x == e,
        },
{
    let b = bool_word(v);
    if chars_eq_str(key, "isMaster") && b.is_some() {
        Ok(DataValue::IsMaster(b.unwrap()))
    } else if chars_eq_str(key, "isDirector") && b.is_some() {
        Ok(DataValue::IsDirector(b.unwrap()))
    } else if chars_eq_str(key, "isOperator") && b.is_some() {
        Ok(DataValue::IsOperator(b.unwrap()))
    } else if chars_eq_str(key, "productionName") {
        Ok(DataValue::ProductionName(string_from(v)))
    } else if chars_eq_str(key, "enableOperatorName") && b.is_some() {
        Ok(DataValue::EnableOperatorName(b.unwrap()))
    } else if chars_eq_str(key, "operatorName") {
        Ok(DataValue::OperatorName(string_from(v)))
    } else if chars_eq_str(key, "enableSceneName") && b.is_some() {
        Ok(DataValue::EnableSceneName(b.unwrap()))
    } else if chars_eq_str(key, "sceneName") {
        Ok(DataValue::SceneName(string_from(v)))
    } else if chars_eq_str(key, "enableTakeNumber") && b.is_some() {
        Ok(DataValue::EnableTakeNumber(b.unwrap()))
    } else if chars_eq_str(key, "takeNumber") {
        match parse_u32(v) {
            Some(n) => Ok(DataValue::TakeNumber(n)),
            None => Err(CsvRowError::InvalidTakeNumber),
        }
    } else if chars_eq_str(key, "renameDevice") && scan.is_some() {
        Ok(DataValue::RenameDevice((scan.unwrap().clone(), string_from(v))))
    } else {
        Err(CsvRowError::UnknownPair)
    }
}

/// Reads one row given as characters (see [`spec_from_csv_row`]).
pub fn timeline_entry_from_chars(row: &[char], scan_device_id: Option<&DeviceId>) -> (r: Result<TimelineEntry, CsvRowError>)
    ensures
        match spec_from_csv_row(row@, option_device_view(scan_device_id)) {
            Ok(e) => r matches Ok(x) && x@ == e,
            Err(e) => r matches Err(x) && x == e,
        },
{
    let cols = split_chars(row, ',');
    if cols.len() != 4 {
        return Err(CsvRowError::WrongColumnCount);
    }
    let internal_clock = match parse_u64(cols[1].as_slice()) {
        Some(c) => c,
        None => return Err(CsvRowError::InvalidClock),
    };
    let id = match parse_u16(cols[0].as_slice()) {
        Some(i) => i,
        None => return Err(CsvRowError::InvalidDeviceId),
    };
    let val = csv_value(cols[2].as_slice(), cols[3].as_slice(), scan_device_id)?;
    Ok(TimelineEntry { time: DeviceTime { internal_clock, device_id: DeviceId::ClientId(id) }, val })
}

impl TimelineEntry {
    /// Reads a row `device id,clock,key,value` of recorded metadata, e.g.
    /// `3,1700000000000,sceneName,Opening`. Boolean keys take `true`/`True`/`false`/`False`;
    /// `renameDevice` is only understood when the id of the scanning device is known.
    pub fn from_csv_row(row: &str, scan_device_id: Option<&DeviceId>) -> (r: Result<TimelineEntry, CsvRowError>)
        ensures
            match spec_from_csv_row(row@, option_device_view(scan_device_id)) {
                Ok(e) => r matches Ok(x) && x@ == e,
                Err(e) => r matches Err(x) && x == e,
            },
    {
        let chars = chars_of(row);
        timeline_entry_from_chars(chars.as_slice(), scan_device_id)
    }
}

} // verus!
