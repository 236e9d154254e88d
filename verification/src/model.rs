//! The vocabulary of a search: data types, find modes, relations, matches
//! and the requests that name them.

use vstd::prelude::*;

verus! {

/// Largest number of matches that a response lists, and the size above which
/// a chunk's matches go to the store at once.
pub const MAX_RESULTS: usize = 100_000;

/// Whether two strings hold the same characters.
pub(crate) fn text_eq(a: &str, b: &str) -> (same: bool)
    ensures
        same == (a@ == b@),
{
    let left = a.to_owned();
    let right = b.to_owned();
    left == right
}

/// How the bytes at an address are read.
#[derive(Clone, Copy, Debug, PartialEq, Eq, Structural)]
pub enum DataType {
    Int8,
    Int16,
    Int32,
    Int64,
    UInt8,
    UInt16,
    UInt32,
    UInt64,
    Float,
    Double,
    Utf8,
    Utf16,
    Aob,
    Regex,
    /// Any name that is none of the above.
    Other,
}

impl DataType {
    /// The data type that a request's `data_type` field names.
    pub open spec fn of_name(name: Seq<char>) -> DataType {
        if name == "int8"@ {
            DataType::Int8
        } else if name == "int16"@ {
            DataType::Int16
        } else if name == "int32"@ {
            DataType::Int32
        } else if name == "int64"@ {
            DataType::Int64
        } else if name == "uint8"@ {
            DataType::UInt8
        } else if name == "uint16"@ {
            DataType::UInt16
        } else if name == "uint32"@ {
            DataType::UInt32
        } else if name == "uint64"@ {
            DataType::UInt64
        } else if name == "float"@ {
            DataType::Float
        } else if name == "double"@ {
            DataType::Double
        } else if name == "utf-8"@ {
            DataType::Utf8
        } else if name == "utf-16"@ {
            DataType::Utf16
        } else if name == "aob"@ {
            DataType::Aob
        } else if name == "regex"@ {
            DataType::Regex
        } else {
            DataType::Other
        }
    }

    /// The data type that `name` names.
    pub fn from_name(name: &str) -> (t: DataType)
        ensures
            t == Self::of_name(name@),
    {
        if text_eq(name, "int8") {
            DataType::Int8
        } else if text_eq(name, "int16") {
            DataType::Int16
        } else if text_eq(name, "int32") {
            DataType::Int32
        } else if text_eq(name, "int64") {
            DataType::Int64
        } else if text_eq(name, "uint8") {
            DataType::UInt8
        } else if text_eq(name, "uint16") {
            DataType::UInt16
        } else if text_eq(name, "uint32") {
            DataType::UInt32
        } else if text_eq(name, "uint64") {
            DataType::UInt64
        } else if text_eq(name, "float") {
            DataType::Float
        } else if text_eq(name, "double") {
            DataType::Double
        } else if text_eq(name, "utf-8") {
            DataType::Utf8
        } else if text_eq(name, "utf-16") {
            DataType::Utf16
        } else if text_eq(name, "aob") {
            DataType::Aob
        } else if text_eq(name, "regex") {
            DataType::Regex
        } else {
            DataType::Other
        }
    }

    /// The number of bytes of one value of a numeric type; `None` for the
    /// text, byte-pattern and regex types, whose values have any length.
    pub open spec fn numeric_width(self) -> Option<nat> {
        match self {
            DataType::Int8 | DataType::UInt8 => Some(1nat),
            DataType::Int16 | DataType::UInt16 => Some(2nat),
            DataType::Int32 | DataType::UInt32 | DataType::Float => Some(4nat),
            DataType::Int64 | DataType::UInt64 | DataType::Double => Some(8nat),
            _ => None,
        }
    }

    /// The step of a snapshot scan: the width of a numeric type, and 1 for
    /// every other type.
    pub open spec fn step_width(self) -> nat {
        match self.numeric_width() {
            Some(w) => w,
            None => 1,
        }
    }

    /// The number of bytes of one value of a numeric type.
    pub fn width(self) -> (w: Option<usize>)
        ensures
            w is Some <==> self.numeric_width() is Some,
            w matches Some(n) ==> self.numeric_width() == Some(n as nat),
    {
        match self {
            DataType::Int8 | DataType::UInt8 => Some(1),
            DataType::Int16 | DataType::UInt16 => Some(2),
            DataType::Int32 | DataType::UInt32 | DataType::Float => Some(4),
            DataType::Int64 | DataType::UInt64 | DataType::Double => Some(8),
            _ => None,
        }
    }

    /// The step of a snapshot scan over values of this type.
    pub fn step(self) -> (w: usize)
        ensures
            w == self.step_width(),
            w == 1 || w == 2 || w == 4 || w == 8,
    {
        match self.width() {
            Some(w) => w,
            None => 1,
        }
    }
}

/// What a scan looks for.
#[derive(Clone, Copy, Debug, PartialEq, Eq, Structural)]
pub enum FindMode {
    /// Occurrences of a pattern.
    Exact,
    /// Every aligned value, as a baseline for later filtering.
    Unknown,
    /// Any name that is neither; such a scan finds nothing.
    Other,
}

impl FindMode {
    /// The find mode that a request's `find_type` field names.
    pub open spec fn of_name(name: Seq<char>) -> FindMode {
        if name == "exact"@ {
            FindMode::Exact
        } else if name == "unknown"@ {
            FindMode::Unknown
        } else {
            FindMode::Other
        }
    }

    /// The find mode that `name` names.
    pub fn from_name(name: &str) -> (m: FindMode)
        ensures
            m == Self::of_name(name@),
    {
        if text_eq(name, "exact") {
            FindMode::Exact
        } else if text_eq(name, "unknown") {
            FindMode::Unknown
        } else {
            FindMode::Other
        }
    }
}

/// How a filter pass compares the present value at an address with the
/// stored one.
#[derive(Clone, Copy, Debug, PartialEq, Eq, Structural)]
pub enum Relation {
    Changed,
    Unchanged,
    Increased,
    Decreased,
    /// The present bytes equal the request's pattern.
    Exact,
    /// Any name that is none of the above; it holds of nothing.
    Other,
}

impl Relation {
    /// The relation that a request's `filter_method` field names.
    pub open spec fn of_name(name: Seq<char>) -> Relation {
        if name == "changed"@ {
            Relation::Changed
        } else if name == "unchanged"@ {
            Relation::Unchanged
        } else if name == "increased"@ {
            Relation::Increased
        } else if name == "decreased"@ {
            Relation::Decreased
        } else if name == "exact"@ {
            Relation::Exact
        } else {
            Relation::Other
        }
    }

    /// The relation that `name` names.
    pub fn from_name(name: &str) -> (r: Relation)
        ensures
            r == Self::of_name(name@),
    {
        if text_eq(name, "changed") {
            Relation::Changed
        } else if text_eq(name, "unchanged") {
            Relation::Unchanged
        } else if text_eq(name, "increased") {
            Relation::Increased
        } else if text_eq(name, "decreased") {
            Relation::Decreased
        } else if text_eq(name, "exact") {
            Relation::Exact
        } else {
            Relation::Other
        }
    }
}

/// What a match is, as contracts see it: an address and the characters of
/// its value.
pub struct MatchView {
    pub address: int,
    pub value: Seq<char>,
}

/// One address of the target with the value found there, as hexadecimal
/// text.
#[derive(Debug, PartialEq, Eq)]
pub struct Match {
    pub address: usize,
    pub value: String,
}

impl View for Match {
    type V = MatchView;

    open spec fn view(&self) -> MatchView {
        MatchView { address: self.address as int, value: self.value@ }
    }
}

impl Clone for Match {
    fn clone(&self) -> (copy: Match)
        ensures
            copy@ == self@,
    {
        Match { address: self.address, value: self.value.clone() }
    }
}

/// The views of a sequence of matches, in order.
pub open spec fn views(matches: Seq<Match>) -> Seq<MatchView> {
    matches.map_values(|m: Match| m@)
}

/// A copy of the first `count` matches of `matches`.
pub fn copy_prefix(matches: &Vec<Match>, count: usize) -> (copy: Vec<Match>)
    requires
        count <= matches@.len(),
    ensures
        views(copy@) == views(matches@).take(count as int),
{
    let mut copy: Vec<Match> = Vec::new();
    let mut i: usize = 0;
    while i < count
        invariant
            i <= count <= matches@.len(),
            views(copy@) == views(matches@).take(i as int),
        decreases count - i,
    {
        let ghost before = copy@;
        let item = matches[i].clone();
        copy.push(item);
        proof {
            assert(views(before.push(item)) =~= views(before).push(item@));
            assert(views(matches@).take(i + 1) =~= views(matches@).take(i as int).push(
                matches@[i as int]@,
            ));
        }
        i = i + 1;
    }
    copy
}

/// A request to search address ranges of the target.
#[derive(Debug)]
pub struct MemoryScanRequest {
    /// Hexadecimal bytes, or a regular expression where `data_type` is
    /// `regex`; unused by a snapshot scan.
    pub pattern: String,
    /// Half-open ranges `(start, end)` of addresses.
    pub address_ranges: Vec<(usize, usize)>,
    /// `exact` or `unknown`.
    pub find_type: String,
    pub data_type: String,
    /// The key of the result set that the scan fills.
    pub scan_id: String,
    /// Only addresses that are multiples of this are reported.
    pub align: usize,
    /// Whether the response lists matches or only counts them.
    pub return_as_json: bool,
}

/// A request to narrow a stored result set against present memory.
#[derive(Debug)]
pub struct MemoryFilterRequest {
    pub pattern: String,
    pub data_type: String,
    pub scan_id: String,
    /// `changed`, `unchanged`, `increased`, `decreased` or `exact`.
    pub filter_method: String,
    pub return_as_json: bool,
}

/// A request to read `size` bytes at `address`.
#[derive(Clone, Copy, Debug, PartialEq, Eq, Structural)]
pub struct ReadMemoryRequest {
    pub address: usize,
    pub size: usize,
}

/// A request to write `buffer` at `address`.
#[derive(Debug)]
pub struct WriteMemoryRequest {
    pub address: usize,
    pub buffer: Vec<u8>,
}

/// A request to attach to the process `pid`.
#[derive(Clone, Copy, Debug, PartialEq, Eq, Structural)]
pub struct OpenProcess {
    pub pid: i32,
}

/// What a scan or a filter pass answers.
#[derive(Debug, PartialEq, Eq)]
pub enum ScanResponse {
    /// The first matches of the result set, at most `MAX_RESULTS` of them,
    /// the number of matches found, and whether the list was cut short.
    Full { matched_addresses: Vec<Match>, found: usize, is_rounded: bool },
    /// Only the number of matches found.
    Count { found: usize },
}

} // verus!
