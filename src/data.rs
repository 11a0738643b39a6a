use vstd::prelude::*;
use vstd::string::StringSliceAdditionalSpecFns;

use crate::text::{
    fixed_value, lemma_split_nonempty, parse_fixed, parse_u32, split, split_bytes, trim, trim_bytes,
    u32_value, views,
};

verus! {

/// Why a series or its metadata could not be built.
#[derive(Debug, Clone, Copy, PartialEq, Eq, Structural)]
pub enum DataError {
    /// The underlying stream could not be read.
    IoError,
    /// A cell that should hold a decimal number does not.
    ParseFloatError,
    /// A cell that should hold an unsigned integer does not.
    ParseIntError,
    /// A row has fewer cells than its schema, or required metadata is absent.
    MissingValueError,
    /// The variant label is neither `Small` nor `Large`.
    UnknownVariant,
    /// The series kind is neither `memory` nor `request`.
    UnknownKind,
    /// The observations are not in ascending time order.
    UnorderedTimestamps,
}

/// A failure to read a series, with the line of its file where it happened: 1 is the header,
/// 2 the first row; 0 when it concerns no line (an unknown kind or variant).
#[derive(Debug, Clone, Copy, PartialEq, Eq, Structural)]
pub struct LineError {
    pub line: usize,
    pub error: DataError,
}

/// The smaller of two integers.
pub open spec fn min_int(a: int, b: int) -> int {
    if a <= b { a } else { b }
}

/// The larger of two integers.
pub open spec fn max_int(a: int, b: int) -> int {
    if a >= b { a } else { b }
}

/// The extent `(min, max)` of a series in time, taken over its own observations; `(0, 0)` for
/// a series with none.
pub trait TimeRange {
    /// The extent, as mathematical integers.
    spec fn range_spec(&self) -> (int, int);

    /// The extent. Its lower end is an `i64` time; its upper end may be a start plus a
    /// duration.
    fn get_time_range(&self) -> (r: (i128, i128))
        ensures
            (r.0 as int, r.1 as int) == self.range_spec(),
            i64::MIN <= r.0 <= i64::MAX,
            2 * i64::MIN <= r.1 <= 2 * i64::MAX,
    ;
}

/// The fold of the time ranges of `items`, from `(0, 0)`, by `min` on the lower bound and
/// `max` on the upper one.
pub open spec fn combined_range<T: TimeRange>(items: Seq<T>) -> (int, int)
    decreases items.len(),
{
    if items.len() == 0 {
        (0, 0)
    } else {
        let prev = combined_range(items.drop_last());
        let last = items.last().range_spec();
        (min_int(prev.0, last.0), max_int(prev.1, last.1))
    }
}

/// The shared time extent of several series of any kind.
pub fn get_time_range<T: TimeRange>(time_ranges: &[T]) -> (r: (i128, i128))
    ensures
        (r.0 as int, r.1 as int) == combined_range(time_ranges@),
        i64::MIN <= r.0 <= 0 <= r.1 <= 2 * i64::MAX,
{
    let mut lo: i128 = 0;
    let mut hi: i128 = 0;
    let mut i: usize = 0;
    while i < time_ranges.len()
        invariant
            i <= time_ranges@.len(),
            (lo as int, hi as int) == combined_range(time_ranges@.take(i as int)),
            i64::MIN <= lo <= 0 <= hi <= 2 * i64::MAX,
        decreases time_ranges@.len() - i,
    {
        let (new_min, new_max) = time_ranges[i].get_time_range();
        proof {
            assert(time_ranges@.take(i as int + 1).drop_last() =~= time_ranges@.take(i as int));
        }
        if new_min < lo {
            lo = new_min;
        }
        if new_max > hi {
            hi = new_max;
        }
        i = i + 1;
    }
    proof {
        assert(time_ranges@.take(time_ranges@.len() as int) =~= time_ranges@);
    }
    (lo, hi)
}

/// The fold of several ranges starts no later than any of them and ends no earlier.
pub proof fn lemma_combined_range_covers<T: TimeRange>(items: Seq<T>)
    ensures
        forall|i: int|
            0 <= i < items.len() ==> combined_range(items).0 <= #[trigger] items[i].range_spec().0
                && items[i].range_spec().1 <= combined_range(items).1,
    decreases items.len(),
{
    if items.len() > 0 {
        let prev = items.drop_last();
        lemma_combined_range_covers(prev);
        assert forall|i: int| 0 <= i < items.len() implies combined_range(items).0
            <= #[trigger] items[i].range_spec().0 && items[i].range_spec().1 <= combined_range(items).1 by {
            if i < items.len() - 1 {
                assert(items[i] == prev[i]);
            }
        }
    }
}

/// The size class of the deployment a benchmark ran against.
#[derive(Debug, Clone, Copy, PartialEq, Eq, Structural)]
pub enum BenchMarkVariant {
    Small,
    Large,
}

/// The bytes of each variant's label.
pub open spec fn variant_label(v: BenchMarkVariant) -> Seq<u8> {
    match v {
        BenchMarkVariant::Small => seq![83u8, 109u8, 97u8, 108u8, 108u8],
        BenchMarkVariant::Large => seq![76u8, 97u8, 114u8, 103u8, 101u8],
    }
}

impl BenchMarkVariant {
    /// Reads a variant from its label, `Small` or `Large`; any other text is reported.
    pub fn from_label(label: &str) -> (r: Result<BenchMarkVariant, DataError>)
        ensures
            forall|v: BenchMarkVariant| r == Ok::<BenchMarkVariant, DataError>(v) <==> label.spec_bytes() == variant_label(v),
            r is Err ==> r == Err::<BenchMarkVariant, DataError>(DataError::UnknownVariant),
    {
        let b = label.as_bytes();
        if b.len() == 5 && b[0] == 76u8 && b[1] == 97u8 && b[2] == 114u8 && b[3] == 103u8 && b[4] == 101u8 {
            proof {
                assert(b@ =~= variant_label(BenchMarkVariant::Large));
            }
            Ok(BenchMarkVariant::Large)
        } else if b.len() == 5 && b[0] == 83u8 && b[1] == 109u8 && b[2] == 97u8 && b[3] == 108u8 && b[4] == 108u8 {
            proof {
                assert(b@ =~= variant_label(BenchMarkVariant::Small));
            }
            Ok(BenchMarkVariant::Small)
        } else {
            proof {
                assert(b@ != variant_label(BenchMarkVariant::Large));
                assert(b@ != variant_label(BenchMarkVariant::Small));
            }
            Err(DataError::UnknownVariant)
        }
    }
}

impl core::ops::Deref for MemoryData {
    type Target = Vec<MemoryTimeStamp>;

    fn deref(&self) -> &Vec<MemoryTimeStamp> {
        &self.samples
    }
}

impl core::ops::Deref for RequestData {
    type Target = Vec<RequestTimeStamp>;

    fn deref(&self) -> &Vec<RequestTimeStamp> {
        &self.samples
    }
}

/// One memory sample: when it was taken and the footprint then. Times are in the caller's
/// fixed unit (a whole number of ticks).
#[derive(Debug, Clone, Copy, PartialEq, Eq, Structural)]
pub struct MemoryTimeStamp {
    pub timestamp: i64,
    pub kb: i64,
}

/// The earliest and the latest timestamp of `s`; `(0, 0)` when `s` is empty.
pub open spec fn memory_range(s: Seq<MemoryTimeStamp>) -> (int, int)
    decreases s.len(),
{
    if s.len() == 0 {
        (0, 0)
    } else if s.len() == 1 {
        (s[0].timestamp as int, s[0].timestamp as int)
    } else {
        let prev = memory_range(s.drop_last());
        let t = s.last().timestamp as int;
        (min_int(prev.0, t), max_int(prev.1, t))
    }
}

/// Memory samples in ascending time order.
#[derive(Debug, Clone)]
pub struct MemoryData {
    samples: Vec<MemoryTimeStamp>,
}

/// Timestamps never decrease along `s`.
pub open spec fn memory_ordered(s: Seq<MemoryTimeStamp>) -> bool {
    forall|i: int, j: int| 0 <= i < j < s.len() ==> s[i].timestamp <= s[j].timestamp
}

impl View for MemoryData {
    type V = Seq<MemoryTimeStamp>;

    closed spec fn view(&self) -> Seq<MemoryTimeStamp> {
        self.samples@
    }
}

impl MemoryData {
    /// The series is in ascending time order.
    pub open spec fn wf(&self) -> bool {
        memory_ordered(self@)
    }

    /// An empty series.
    pub fn new() -> (r: Self)
        ensures
            r@ == Seq::<MemoryTimeStamp>::empty(),
            r.wf(),
    {
        MemoryData { samples: Vec::new() }
    }

    /// A series of the given samples, which must already be in ascending time order.
    pub fn from_samples(samples: Vec<MemoryTimeStamp>) -> (r: Result<Self, DataError>)
        ensures
            r is Ok <==> memory_ordered(samples@),
            r is Ok ==> r->Ok_0@ == samples@ && r->Ok_0.wf(),
            r is Err ==> r == Err::<Self, DataError>(DataError::UnorderedTimestamps),
    {
        let mut i: usize = 1;
        while i < samples.len()
            invariant
                1 <= i,
                forall|a: int, b: int| 0 <= a < b < i && b < samples@.len() ==> samples@[a].timestamp <= samples@[b].timestamp,
            decreases samples@.len() - i,
        {
            if samples[i - 1].timestamp > samples[i].timestamp {
                return Err(DataError::UnorderedTimestamps);
            }
            i = i + 1;
        }
        Ok(MemoryData { samples })
    }

    /// The samples, in time order.
    pub fn samples(&self) -> (r: &Vec<MemoryTimeStamp>)
        ensures
            r@ == self@,
    {
        &self.samples
    }
}

impl TimeRange for MemoryData {
    open spec fn range_spec(&self) -> (int, int) {
        memory_range(self@)
    }

    fn get_time_range(&self) -> (r: (i128, i128)) {
        if self.samples.len() == 0 {
            return (0, 0);
        }
        let mut lo: i128 = self.samples[0].timestamp as i128;
        let mut hi: i128 = lo;
        let mut i: usize = 1;
        proof {
            assert(self@.take(1) =~= seq![self@[0]]);
        }
        while i < self.samples.len()
            invariant
                1 <= i <= self@.len(),
                (lo as int, hi as int) == memory_range(self@.take(i as int)),
                i64::MIN <= lo <= i64::MAX,
                i64::MIN <= hi <= i64::MAX,
            decreases self@.len() - i,
        {
            let t = self.samples[i].timestamp as i128;
            proof {
                assert(self@.take(i as int + 1).drop_last() =~= self@.take(i as int));
            }
            if t < lo {
                lo = t;
            }
            if t > hi {
                hi = t;
            }
            i = i + 1;
        }
        proof {
            assert(self@.take(self@.len() as int) =~= self@);
        }
        (lo, hi)
    }
}

/// One request sample: when it started, how long it took, and the status it answered with.
#[derive(Debug, Clone, Copy, PartialEq, Eq, Structural)]
pub struct RequestTimeStamp {
    pub start_timestamp: i64,
    pub duration: i64,
    pub response: u32,
}

/// The earliest start and the latest end (start plus duration) of the requests of `s`; `(0, 0)`
/// when `s` is empty.
pub open spec fn request_range(s: Seq<RequestTimeStamp>) -> (int, int)
    decreases s.len(),
{
    if s.len() == 0 {
        (0, 0)
    } else if s.len() == 1 {
        (s[0].start_timestamp as int, s[0].start_timestamp + s[0].duration)
    } else {
        let prev = request_range(s.drop_last());
        let start = s.last().start_timestamp as int;
        let end = start + s.last().duration as int;
        (min_int(prev.0, start), max_int(prev.1, end))
    }
}

/// Start times never decrease along `s`.
pub open spec fn request_ordered(s: Seq<RequestTimeStamp>) -> bool {
    forall|i: int, j: int| 0 <= i < j < s.len() ==> s[i].start_timestamp <= s[j].start_timestamp
}

/// Request samples in ascending order of start time.
#[derive(Debug, Clone)]
pub struct RequestData {
    samples: Vec<RequestTimeStamp>,
}

impl View for RequestData {
    type V = Seq<RequestTimeStamp>;

    closed spec fn view(&self) -> Seq<RequestTimeStamp> {
        self.samples@
    }
}

impl RequestData {
    /// The series is in ascending order of start time.
    pub open spec fn wf(&self) -> bool {
        request_ordered(self@)
    }

    /// An empty series.
    pub fn new() -> (r: Self)
        ensures
            r@ == Seq::<RequestTimeStamp>::empty(),
            r.wf(),
    {
        RequestData { samples: Vec::new() }
    }

    /// A series of the given samples, which must already be in ascending order of start time.
    pub fn from_samples(samples: Vec<RequestTimeStamp>) -> (r: Result<Self, DataError>)
        ensures
            r is Ok <==> request_ordered(samples@),
            r is Ok ==> r->Ok_0@ == samples@ && r->Ok_0.wf(),
            r is Err ==> r == Err::<Self, DataError>(DataError::UnorderedTimestamps),
    {
        let mut i: usize = 1;
        while i < samples.len()
            invariant
                1 <= i,
                forall|a: int, b: int| 0 <= a < b < i && b < samples@.len() ==> samples@[a].start_timestamp <= samples@[b].start_timestamp,
            decreases samples@.len() - i,
        {
            if samples[i - 1].start_timestamp > samples[i].start_timestamp {
                return Err(DataError::UnorderedTimestamps);
            }
            i = i + 1;
        }
        Ok(RequestData { samples })
    }

    /// The samples, in order of start time.
    pub fn samples(&self) -> (r: &Vec<RequestTimeStamp>)
        ensures
            r@ == self@,
    {
        &self.samples
    }
}

impl TimeRange for RequestData {
    open spec fn range_spec(&self) -> (int, int) {
        request_range(self@)
    }

    fn get_time_range(&self) -> (r: (i128, i128)) {
        if self.samples.len() == 0 {
            return (0, 0);
        }
        let mut lo: i128 = self.samples[0].start_timestamp as i128;
        let mut hi: i128 = lo + self.samples[0].duration as i128;
        let mut i: usize = 1;
        proof {
            assert(self@.take(1) =~= seq![self@[0]]);
        }
        while i < self.samples.len()
            invariant
                1 <= i <= self@.len(),
                (lo as int, hi as int) == request_range(self@.take(i as int)),
                i64::MIN <= lo <= i64::MAX,
                2 * i64::MIN <= hi <= 2 * i64::MAX,
            decreases self@.len() - i,
        {
            let start = self.samples[i].start_timestamp as i128;
            let end = start + self.samples[i].duration as i128;
            proof {
                assert(self@.take(i as int + 1).drop_last() =~= self@.take(i as int));
            }
            if start < lo {
                lo = start;
            }
            if end > hi {
                hi = end;
            }
            i = i + 1;
        }
        proof {
            assert(self@.take(self@.len() as int) =~= self@);
        }
        (lo, hi)
    }
}

/// The observations of one series, of either kind.
#[derive(Debug, Clone)]
pub enum BenchMarkData {
    Memory(MemoryData),
    Request(RequestData),
}

impl TimeRange for BenchMarkData {
    open spec fn range_spec(&self) -> (int, int) {
        match self {
            BenchMarkData::Memory(d) => d.range_spec(),
            BenchMarkData::Request(d) => d.range_spec(),
        }
    }

    fn get_time_range(&self) -> (r: (i128, i128)) {
        match self {
            BenchMarkData::Memory(data) => data.get_time_range(),
            BenchMarkData::Request(data) => data.get_time_range(),
        }
    }
}

/// The bytes of each series kind's label.
pub open spec fn kind_label(memory: bool) -> Seq<u8> {
    if memory {
        seq![109u8, 101u8, 109u8, 111u8, 114u8, 121u8]
    } else {
        seq![114u8, 101u8, 113u8, 117u8, 101u8, 115u8, 116u8]
    }
}

/// A named benchmark run: its variant and its observations.
#[derive(Debug, Clone)]
pub struct BenchMark {
    pub name: String,
    pub variant: BenchMarkVariant,
    pub data: BenchMarkData,
}

impl TimeRange for BenchMark {
    open spec fn range_spec(&self) -> (int, int) {
        self.data.range_spec()
    }

    fn get_time_range(&self) -> (r: (i128, i128)) {
        self.data.get_time_range()
    }
}

/// The time range of a non-empty memory series covers every one of its timestamps, and both
/// of its ends are timestamps of the series: it runs from the earliest to the latest.
pub proof fn lemma_memory_range_covers(s: Seq<MemoryTimeStamp>)
    requires
        s.len() > 0,
    ensures
        forall|i: int|
            0 <= i < s.len() ==> memory_range(s).0 <= #[trigger] s[i].timestamp <= memory_range(s).1,
        exists|i: int| 0 <= i < s.len() && memory_range(s).0 == #[trigger] s[i].timestamp,
        exists|i: int| 0 <= i < s.len() && memory_range(s).1 == #[trigger] s[i].timestamp,
    decreases s.len(),
{
    let prev = s.drop_last();
    if s.len() > 1 {
        lemma_memory_range_covers(prev);
        let a = choose|i: int| 0 <= i < prev.len() && memory_range(prev).0 == #[trigger] prev[i].timestamp;
        let b = choose|i: int| 0 <= i < prev.len() && memory_range(prev).1 == #[trigger] prev[i].timestamp;
        let last = s.len() - 1;
        assert(prev[a] == s[a] && prev[b] == s[b]);
        if memory_range(s).0 == s[last].timestamp {
            assert(memory_range(s).0 == s[last].timestamp);
        } else {
            assert(memory_range(s).0 == s[a].timestamp);
        }
        if memory_range(s).1 == s[last].timestamp {
            assert(memory_range(s).1 == s[last].timestamp);
        } else {
            assert(memory_range(s).1 == s[b].timestamp);
        }
    } else {
        assert(memory_range(s).0 == s[0].timestamp);
    }
    assert forall|i: int| 0 <= i < s.len() implies memory_range(s).0 <= #[trigger] s[i].timestamp
        <= memory_range(s).1 by {
        if i < s.len() - 1 {
            assert(s[i] == prev[i]);
        }
    }
}

/// The time range of a non-empty request series starts no later than any request in it, and its
/// upper bound is at least the end (start plus duration) of every request; both ends are
/// attained, by the earliest start and the latest end.
pub proof fn lemma_request_range_covers(s: Seq<RequestTimeStamp>)
    requires
        s.len() > 0,
    ensures
        forall|i: int|
            0 <= i < s.len() ==> request_range(s).0 <= #[trigger] s[i].start_timestamp && s[i].start_timestamp
                + s[i].duration <= request_range(s).1,
        exists|i: int| 0 <= i < s.len() && request_range(s).0 == #[trigger] s[i].start_timestamp,
        exists|i: int|
            0 <= i < s.len() && request_range(s).1 == #[trigger] s[i].start_timestamp + s[i].duration,
    decreases s.len(),
{
    let prev = s.drop_last();
    if s.len() > 1 {
        lemma_request_range_covers(prev);
        let a = choose|i: int| 0 <= i < prev.len() && request_range(prev).0 == #[trigger] prev[i].start_timestamp;
        let b = choose|i: int|
            0 <= i < prev.len() && request_range(prev).1 == #[trigger] prev[i].start_timestamp + prev[i].duration;
        let last = s.len() - 1;
        assert(prev[a] == s[a] && prev[b] == s[b]);
        if request_range(s).0 == s[last].start_timestamp {
            assert(request_range(s).0 == s[last].start_timestamp);
        } else {
            assert(request_range(s).0 == s[a].start_timestamp);
        }
        if request_range(s).1 == s[last].start_timestamp + s[last].duration {
            assert(request_range(s).1 == s[last].start_timestamp + s[last].duration);
        } else {
            assert(request_range(s).1 == s[b].start_timestamp + s[b].duration);
        }
    } else {
        assert(request_range(s).0 == s[0].start_timestamp);
    }
    assert forall|i: int| 0 <= i < s.len() implies request_range(s).0 <= #[trigger] s[i].start_timestamp
        && s[i].start_timestamp + s[i].duration <= request_range(s).1 by {
        if i < s.len() - 1 {
            assert(s[i] == prev[i]);
        }
    }
}

/// A line holds nothing but white space.
pub open spec fn blank(line: Seq<u8>) -> bool {
    trim(line).len() == 0
}

/// The cells of a row, split at commas.
pub open spec fn cells(line: Seq<u8>) -> Seq<Seq<u8>> {
    split(line, 44)
}

/// The lines of a file after its header.
pub open spec fn data_lines(text: Seq<u8>) -> Seq<Seq<u8>> {
    split(text, 10).skip(1)
}

/// One row of a memory file, `timestamp,kb`: both decimals, read in units of `10^-d`; cells past
/// the second are ignored. The timestamp is read before the second cell is looked for.
pub open spec fn memory_row(line: Seq<u8>, d: nat) -> Result<MemoryTimeStamp, DataError> {
    let c = cells(line);
    match fixed_value(trim(c[0]), d) {
        None => Err(DataError::ParseFloatError),
        Some(t) => if c.len() < 2 {
            Err(DataError::MissingValueError)
        } else {
            match fixed_value(trim(c[1]), d) {
                None => Err(DataError::ParseFloatError),
                Some(k) => Ok(MemoryTimeStamp { timestamp: t as i64, kb: k as i64 }),
            }
        },
    }
}

/// One row of a request file, `start_timestamp,response_code,duration`: decimals for the times,
/// an unsigned integer for the code, read left to right; cells past the third are ignored.
pub open spec fn request_row(line: Seq<u8>, d: nat) -> Result<RequestTimeStamp, DataError> {
    let c = cells(line);
    match fixed_value(trim(c[0]), d) {
        None => Err(DataError::ParseFloatError),
        Some(start) => if c.len() < 2 {
            Err(DataError::MissingValueError)
        } else {
            match u32_value(trim(c[1])) {
                None => Err(DataError::ParseIntError),
                Some(code) => if c.len() < 3 {
                    Err(DataError::MissingValueError)
                } else {
                    match fixed_value(trim(c[2]), d) {
                        None => Err(DataError::ParseFloatError),
                        Some(dur) => Ok(
                            RequestTimeStamp {
                                start_timestamp: start as i64,
                                duration: dur as i64,
                                response: code as u32,
                            },
                        ),
                    }
                },
            }
        },
    }
}

/// The records of the non-blank `lines` (the rows after the header) of a memory file, or the
/// error of the first bad one: malformed, or earlier than the row before it.
pub open spec fn memory_rows(lines: Seq<Seq<u8>>, d: nat) -> Result<Seq<MemoryTimeStamp>, LineError>
    decreases lines.len(),
{
    if lines.len() == 0 {
        Ok(seq![])
    } else {
        let line = (lines.len() + 1) as usize;
        match memory_rows(lines.drop_last(), d) {
            Err(e) => Err(e),
            Ok(prev) => if blank(lines.last()) {
                Ok(prev)
            } else {
                match memory_row(lines.last(), d) {
                    Ok(r) => if prev.len() > 0 && r.timestamp < prev.last().timestamp {
                        Err(LineError { line, error: DataError::UnorderedTimestamps })
                    } else {
                        Ok(prev.push(r))
                    },
                    Err(e) => Err(LineError { line, error: e }),
                }
            },
        }
    }
}

/// The records of the non-blank `lines` (the rows after the header) of a request file, or the
/// error of the first bad one: malformed, or starting before the row before it.
pub open spec fn request_rows(lines: Seq<Seq<u8>>, d: nat) -> Result<Seq<RequestTimeStamp>, LineError>
    decreases lines.len(),
{
    if lines.len() == 0 {
        Ok(seq![])
    } else {
        let line = (lines.len() + 1) as usize;
        match request_rows(lines.drop_last(), d) {
            Err(e) => Err(e),
            Ok(prev) => if blank(lines.last()) {
                Ok(prev)
            } else {
                match request_row(lines.last(), d) {
                    Ok(r) => if prev.len() > 0 && r.start_timestamp < prev.last().start_timestamp {
                        Err(LineError { line, error: DataError::UnorderedTimestamps })
                    } else {
                        Ok(prev.push(r))
                    },
                    Err(e) => Err(LineError { line, error: e }),
                }
            },
        }
    }
}

/// Reads one row of a memory file.
pub fn parse_memory_row(line: &Vec<u8>, decimals: u32) -> (r: Result<MemoryTimeStamp, DataError>)
    ensures
        r == memory_row(line@, decimals as nat),
{
    let c = split_bytes(line.as_slice(), 44);
    proof {
        lemma_split_nonempty(line@, 44);
    }
    let t0 = trim_bytes(&c[0]);
    let timestamp = match parse_fixed(t0.as_slice(), decimals) {
        Some(v) => v,
        None => {
            return Err(DataError::ParseFloatError);
        },
    };
    if c.len() < 2 {
        return Err(DataError::MissingValueError);
    }
    let t1 = trim_bytes(&c[1]);
    let kb = match parse_fixed(t1.as_slice(), decimals) {
        Some(v) => v,
        None => {
            return Err(DataError::ParseFloatError);
        },
    };
    Ok(MemoryTimeStamp { timestamp, kb })
}

/// Reads one row of a request file.
pub fn parse_request_row(line: &Vec<u8>, decimals: u32) -> (r: Result<RequestTimeStamp, DataError>)
    ensures
        r == request_row(line@, decimals as nat),
{
    let c = split_bytes(line.as_slice(), 44);
    proof {
        lemma_split_nonempty(line@, 44);
    }
    let t0 = trim_bytes(&c[0]);
    let start_timestamp = match parse_fixed(t0.as_slice(), decimals) {
        Some(v) => v,
        None => {
            return Err(DataError::ParseFloatError);
        },
    };
    if c.len() < 2 {
        return Err(DataError::MissingValueError);
    }
    let t1 = trim_bytes(&c[1]);
    let response = match parse_u32(t1.as_slice()) {
        Some(v) => v,
        None => {
            return Err(DataError::ParseIntError);
        },
    };
    if c.len() < 3 {
        return Err(DataError::MissingValueError);
    }
    let t2 = trim_bytes(&c[2]);
    let duration = match parse_fixed(t2.as_slice(), decimals) {
        Some(v) => v,
        None => {
            return Err(DataError::ParseFloatError);
        },
    };
    Ok(RequestTimeStamp { start_timestamp, duration, response })
}

impl MemoryData {
    /// Reads a memory file: a header line, then one `timestamp,kb` row per line, decimals read
    /// in units of `10^-decimals`; blank lines are skipped. The first bad row (malformed, or
    /// earlier than the row before it) fails the whole file and is reported with its line.
    pub fn parse(text: &str, decimals: u32) -> (r: Result<MemoryData, LineError>)
        ensures
            match memory_rows(data_lines(text.spec_bytes()), decimals as nat) {
                Err(e) => r == Err::<MemoryData, LineError>(e),
                Ok(v) => r is Ok && r->Ok_0@ == v && r->Ok_0.wf(),
            },
    {
        let lines = split_bytes(text.as_bytes(), 10);
        let ghost ls = views(lines@);
        proof {
            lemma_split_nonempty(text.spec_bytes(), 10);
        }
        let mut rows: Vec<MemoryTimeStamp> = Vec::new();
        let mut i: usize = 1;
        proof {
            assert(ls.subrange(1, 1) =~= Seq::<Seq<u8>>::empty());
        }
        while i < lines.len()
            invariant
                1 <= i <= lines@.len(),
                ls == views(lines@),
                ls == split(text.spec_bytes(), 10),
                memory_rows(ls.subrange(1, i as int), decimals as nat) == Ok::<Seq<MemoryTimeStamp>, LineError>(rows@),
                memory_ordered(rows@),
            decreases lines@.len() - i,
        {
            proof {
                assert(ls.subrange(1, i as int + 1).drop_last() =~= ls.subrange(1, i as int));
                assert(ls.subrange(1, i as int + 1).last() == lines@[i as int]@);
            }
            let t = trim_bytes(&lines[i]);
            if t.len() > 0 {
                match parse_memory_row(&lines[i], decimals) {
                    Ok(row) => {
                        let n_rows = rows.len();
                        if n_rows > 0 && row.timestamp < rows[n_rows - 1].timestamp {
                            proof {
                                assert(ls.subrange(1, i as int + 1) =~= data_lines(text.spec_bytes()).take(i as int));
                                lemma_memory_rows_stop(data_lines(text.spec_bytes()), i as int, decimals as nat);
                            }
                            return Err(LineError { line: i + 1, error: DataError::UnorderedTimestamps });
                        }
                        rows.push(row);
                    },
                    Err(e) => {
                        proof {
                            assert(ls.subrange(1, i as int + 1) =~= data_lines(text.spec_bytes()).take(i as int));
                            lemma_memory_rows_stop(data_lines(text.spec_bytes()), i as int, decimals as nat);
                        }
                        return Err(LineError { line: i + 1, error: e });
                    },
                }
            }
            i = i + 1;
        }
        proof {
            assert(ls.subrange(1, lines@.len() as int) =~= data_lines(text.spec_bytes()));
        }
        Ok(MemoryData { samples: rows })
    }
}

impl RequestData {
    /// Reads a request file: a header line, then one `start_timestamp,response_code,duration`
    /// row per line, times read in units of `10^-decimals`; blank lines are skipped. The first
    /// bad row (malformed, or starting before the row before it) fails the whole file and is
    /// reported with its line.
    pub fn parse(text: &str, decimals: u32) -> (r: Result<RequestData, LineError>)
        ensures
            match request_rows(data_lines(text.spec_bytes()), decimals as nat) {
                Err(e) => r == Err::<RequestData, LineError>(e),
                Ok(v) => r is Ok && r->Ok_0@ == v && r->Ok_0.wf(),
            },
    {
        let lines = split_bytes(text.as_bytes(), 10);
        let ghost ls = views(lines@);
        proof {
            lemma_split_nonempty(text.spec_bytes(), 10);
        }
        let mut rows: Vec<RequestTimeStamp> = Vec::new();
        let mut i: usize = 1;
        proof {
            assert(ls.subrange(1, 1) =~= Seq::<Seq<u8>>::empty());
        }
        while i < lines.len()
            invariant
                1 <= i <= lines@.len(),
                ls == views(lines@),
                ls == split(text.spec_bytes(), 10),
                request_rows(ls.subrange(1, i as int), decimals as nat) == Ok::<Seq<RequestTimeStamp>, LineError>(rows@),
                request_ordered(rows@),
            decreases lines@.len() - i,
        {
            proof {
                assert(ls.subrange(1, i as int + 1).drop_last() =~= ls.subrange(1, i as int));
                assert(ls.subrange(1, i as int + 1).last() == lines@[i as int]@);
            }
            let t = trim_bytes(&lines[i]);
            if t.len() > 0 {
                match parse_request_row(&lines[i], decimals) {
                    Ok(row) => {
                        let n_rows = rows.len();
                        if n_rows > 0 && row.start_timestamp < rows[n_rows - 1].start_timestamp {
                            proof {
                                assert(ls.subrange(1, i as int + 1) =~= data_lines(text.spec_bytes()).take(i as int));
                                lemma_request_rows_stop(data_lines(text.spec_bytes()), i as int, decimals as nat);
                            }
                            return Err(LineError { line: i + 1, error: DataError::UnorderedTimestamps });
                        }
                        rows.push(row);
                    },
                    Err(e) => {
                        proof {
                            assert(ls.subrange(1, i as int + 1) =~= data_lines(text.spec_bytes()).take(i as int));
                            lemma_request_rows_stop(data_lines(text.spec_bytes()), i as int, decimals as nat);
                        }
                        return Err(LineError { line: i + 1, error: e });
                    },
                }
            }
            i = i + 1;
        }
        proof {
            assert(ls.subrange(1, lines@.len() as int) =~= data_lines(text.spec_bytes()));
        }
        Ok(RequestData { samples: rows })
    }
}

/// Once a prefix of the lines fails, the whole file fails with the same error.
proof fn lemma_memory_rows_stop(lines: Seq<Seq<u8>>, k: int, d: nat)
    requires
        0 <= k <= lines.len(),
        memory_rows(lines.take(k), d) is Err,
    ensures
        memory_rows(lines, d) == memory_rows(lines.take(k), d),
    decreases lines.len() - k,
{
    if k < lines.len() {
        assert(lines.take(k + 1).drop_last() =~= lines.take(k));
        lemma_memory_rows_stop(lines, k + 1, d);
    } else {
        assert(lines.take(k) =~= lines);
    }
}

/// Once a prefix of the lines fails, the whole file fails with the same error.
proof fn lemma_request_rows_stop(lines: Seq<Seq<u8>>, k: int, d: nat)
    requires
        0 <= k <= lines.len(),
        request_rows(lines.take(k), d) is Err,
    ensures
        request_rows(lines, d) == request_rows(lines.take(k), d),
    decreases lines.len() - k,
{
    if k < lines.len() {
        assert(lines.take(k + 1).drop_last() =~= lines.take(k));
        lemma_request_rows_stop(lines, k + 1, d);
    } else {
        assert(lines.take(k) =~= lines);
    }
}

/// Why reading a series of the kind labelled `kind` from `text` fails, if it does: an unknown
/// kind, or the first bad row.
pub open spec fn series_error(kind: Seq<u8>, text: Seq<u8>, d: nat) -> Option<LineError> {
    if kind == kind_label(true) {
        match memory_rows(data_lines(text), d) {
            Err(e) => Some(e),
            Ok(_) => None,
        }
    } else if kind == kind_label(false) {
        match request_rows(data_lines(text), d) {
            Err(e) => Some(e),
            Ok(_) => None,
        }
    } else {
        Some(LineError { line: 0, error: DataError::UnknownKind })
    }
}

/// `data` is the series of the kind labelled `kind` that `text` holds.
pub open spec fn series_matches(kind: Seq<u8>, text: Seq<u8>, d: nat, data: BenchMarkData) -> bool {
    match data {
        BenchMarkData::Memory(m) => kind == kind_label(true) && memory_rows(data_lines(text), d) == Ok::<
            Seq<MemoryTimeStamp>,
            LineError,
        >(m@) && m.wf(),
        BenchMarkData::Request(q) => kind == kind_label(false) && request_rows(data_lines(text), d) == Ok::<
            Seq<RequestTimeStamp>,
            LineError,
        >(q@) && q.wf(),
    }
}

impl BenchMarkData {
    /// Reads a series of the kind labelled `kind` (`memory` or `request`) from the text of its
    /// file; any other label is reported before the text is read.
    pub fn parse(kind: &str, text: &str, decimals: u32) -> (r: Result<BenchMarkData, LineError>)
        ensures
            match series_error(kind.spec_bytes(), text.spec_bytes(), decimals as nat) {
                Some(e) => r == Err::<BenchMarkData, LineError>(e),
                None => r is Ok && series_matches(kind.spec_bytes(), text.spec_bytes(), decimals as nat, r->Ok_0),
            },
    {
        let b = kind.as_bytes();
        if b.len() == 6 && b[0] == 109u8 && b[1] == 101u8 && b[2] == 109u8 && b[3] == 111u8 && b[4] == 114u8
            && b[5] == 121u8 {
            proof {
                assert(b@ =~= kind_label(true));
            }
            match MemoryData::parse(text, decimals) {
                Ok(m) => Ok(BenchMarkData::Memory(m)),
                Err(e) => Err(e),
            }
        } else if b.len() == 7 && b[0] == 114u8 && b[1] == 101u8 && b[2] == 113u8 && b[3] == 117u8 && b[4]
            == 101u8 && b[5] == 115u8 && b[6] == 116u8 {
            proof {
                assert(b@ =~= kind_label(false));
            }
            match RequestData::parse(text, decimals) {
                Ok(q) => Ok(BenchMarkData::Request(q)),
                Err(e) => Err(e),
            }
        } else {
            proof {
                assert(b@ != kind_label(true));
                assert(b@ != kind_label(false));
            }
            Err(LineError { line: 0, error: DataError::UnknownKind })
        }
    }
}

impl BenchMark {
    /// A benchmark named `name`, of the variant labelled `variant`, whose series of the kind
    /// labelled `kind` is read from `text`. The series is read first, so its errors come before
    /// an unknown variant.
    pub fn from_parts(kind: &str, variant: &str, name: String, text: &str, decimals: u32) -> (r: Result<BenchMark, LineError>)
        ensures
            match series_error(kind.spec_bytes(), text.spec_bytes(), decimals as nat) {
                Some(e) => r == Err::<BenchMark, LineError>(e),
                None => if exists|v: BenchMarkVariant| variant.spec_bytes() == variant_label(v) {
                    &&& r is Ok
                    &&& r->Ok_0.name@ == name@
                    &&& variant.spec_bytes() == variant_label(r->Ok_0.variant)
                    &&& series_matches(kind.spec_bytes(), text.spec_bytes(), decimals as nat, r->Ok_0.data)
                } else {
                    r == Err::<BenchMark, LineError>(LineError { line: 0, error: DataError::UnknownVariant })
                },
            },
    {
        let data = match BenchMarkData::parse(kind, text, decimals) {
            Ok(d) => d,
            Err(e) => {
                return Err(e);
            },
        };
        let variant = match BenchMarkVariant::from_label(variant) {
            Ok(v) => v,
            Err(e) => {
                return Err(LineError { line: 0, error: e });
            },
        };
        Ok(BenchMark { name, variant, data })
    }
}

} // verus!
