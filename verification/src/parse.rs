//! Snapshot parser: turns one read of the interrupt-accounting text into a
//! snapshot mapping each IRQ identifier to its per-CPU counters and its
//! device description.
//!
//! The input is treated as raw bytes. Line zero (the CPU-index header) is
//! discarded. Each remaining line is parsed as
//! `<id>: <count> [<count> ...] <description>`, where counts are runs of
//! ASCII digits and commas (commas are thousands separators with no meaning).
//! A line yields a record only if it has a colon, a non-empty trimmed id, at
//! least one counter, and a non-empty trimmed description; all other lines
//! are skipped.

use vstd::prelude::*;

use crate::text::{bytes_eq, copy_bytes, is_ws, is_ws_byte, trim, trim_range};
use vstd::slice::slice_subrange;

verus! {

/// Per-CPU counter view paired with the description: `(counts, name)`.
pub type RecView = (Seq<u64>, Seq<u8>);

/// Snapshot view: the parsed records in insertion order, keyed by id.
pub type SnapView = Seq<(Seq<u8>, RecView)>;

// ---------------------------------------------------------------------------
// Scanning primitives over byte sequences.
// ---------------------------------------------------------------------------

/// Index of the first occurrence of `b` in `s` at or after `i`, or `s.len()`.
pub open spec fn find_byte_from(s: Seq<u8>, b: u8, i: int) -> int
    decreases s.len() - i,
        when 0 <= i <= s.len()
{
    if i >= s.len() {
        s.len() as int
    } else if s[i] == b {
        i
    } else {
        find_byte_from(s, b, i + 1)
    }
}

/// The result of `find_byte_from` is the first occurrence: everything before
/// it differs from `b`, and it points at `b` unless it is the end.
pub proof fn lemma_find_byte_from_props(s: Seq<u8>, b: u8, i: int)
    requires
        0 <= i <= s.len(),
    ensures
        i <= find_byte_from(s, b, i) <= s.len(),
        forall|m: int| i <= m < find_byte_from(s, b, i) ==> s[m] != b,
        find_byte_from(s, b, i) < s.len() ==> s[find_byte_from(s, b, i)] == b,
    decreases s.len() - i,
{
    if i < s.len() && s[i] != b {
        lemma_find_byte_from_props(s, b, i + 1);
    }
}

/// Any position with the first-occurrence properties is `find_byte_from`.
pub proof fn lemma_find_byte_from_char(s: Seq<u8>, b: u8, i: int, j: int)
    requires
        0 <= i <= j <= s.len(),
        forall|m: int| i <= m < j ==> s[m] != b,
        j == s.len() || s[j] == b,
    ensures
        find_byte_from(s, b, i) == j,
    decreases j - i,
{
    if i < j {
        lemma_find_byte_from_char(s, b, i + 1, j);
    }
}

/// Index of the first non-whitespace byte in `s` at or after `i`, or `s.len()`.
pub open spec fn skip_ws_from(s: Seq<u8>, i: int) -> int
    decreases s.len() - i,
        when 0 <= i <= s.len()
{
    if i >= s.len() {
        s.len() as int
    } else if is_ws(s[i]) {
        skip_ws_from(s, i + 1)
    } else {
        i
    }
}

/// The result of `skip_ws_from` skips exactly the leading whitespace run.
pub proof fn lemma_skip_ws_from_props(s: Seq<u8>, i: int)
    requires
        0 <= i <= s.len(),
    ensures
        i <= skip_ws_from(s, i) <= s.len(),
        forall|m: int| i <= m < skip_ws_from(s, i) ==> is_ws(s[m]),
        skip_ws_from(s, i) < s.len() ==> !is_ws(s[skip_ws_from(s, i)]),
    decreases s.len() - i,
{
    if i < s.len() && is_ws(s[i]) {
        lemma_skip_ws_from_props(s, i + 1);
    }
}

/// Any position with the whitespace-run properties is `skip_ws_from`.
pub proof fn lemma_skip_ws_from_char(s: Seq<u8>, i: int, j: int)
    requires
        0 <= i <= j <= s.len(),
        forall|m: int| i <= m < j ==> is_ws(s[m]),
        j == s.len() || !is_ws(s[j]),
    ensures
        skip_ws_from(s, i) == j,
    decreases j - i,
{
    if i < j {
        lemma_skip_ws_from_char(s, i + 1, j);
    }
}

/// An ASCII digit.
pub open spec fn is_digit(b: u8) -> bool {
    48 <= b <= 57
}

/// A byte that may appear inside a counter run: a digit or a comma.
pub open spec fn is_count_byte(b: u8) -> bool {
    b == 44 || is_digit(b)
}

/// Executable test for [`is_count_byte`].
pub fn is_count_byte_exec(b: u8) -> (r: bool)
    ensures
        r == is_count_byte(b),
{
    b == 44 || (48 <= b && b <= 57)
}

/// Index of the first byte at or after `i` that is neither a digit nor a
/// comma, or `s.len()`.
pub open spec fn count_run_end(s: Seq<u8>, i: int) -> int
    decreases s.len() - i,
        when 0 <= i <= s.len()
{
    if i >= s.len() {
        s.len() as int
    } else if is_count_byte(s[i]) {
        count_run_end(s, i + 1)
    } else {
        i
    }
}

/// The result of `count_run_end` delimits exactly the leading digit/comma run.
pub proof fn lemma_count_run_end_props(s: Seq<u8>, i: int)
    requires
        0 <= i <= s.len(),
    ensures
        i <= count_run_end(s, i) <= s.len(),
        forall|m: int| i <= m < count_run_end(s, i) ==> is_count_byte(s[m]),
        count_run_end(s, i) < s.len() ==> !is_count_byte(s[count_run_end(s, i)]),
    decreases s.len() - i,
{
    if i < s.len() && is_count_byte(s[i]) {
        lemma_count_run_end_props(s, i + 1);
    }
}

/// Any position with the digit/comma-run properties is `count_run_end`.
pub proof fn lemma_count_run_end_char(s: Seq<u8>, i: int, j: int)
    requires
        0 <= i <= j <= s.len(),
        forall|m: int| i <= m < j ==> is_count_byte(s[m]),
        j == s.len() || !is_count_byte(s[j]),
    ensures
        count_run_end(s, i) == j,
    decreases j - i,
{
    if i < j {
        lemma_count_run_end_char(s, i + 1, j);
    }
}

/// Whether `s` holds an ASCII digit somewhere in `[i, j)`.
pub open spec fn has_digit(s: Seq<u8>, i: int, j: int) -> bool {
    exists|m: int| i <= m < j && is_digit(s[m])
}

// ---------------------------------------------------------------------------
// Counter values.
// ---------------------------------------------------------------------------

/// The unbounded value of the counter run `s[i..j]`: digits accumulate in
/// base ten, commas are discarded.
pub open spec fn count_value(s: Seq<u8>, i: int, j: int) -> int
    decreases j - i,
        when i <= j
{
    if j <= i {
        0
    } else if is_digit(s[j - 1]) {
        count_value(s, i, j - 1) * 10 + (s[j - 1] - 48)
    } else {
        count_value(s, i, j - 1)
    }
}

/// The value of the run `s[i..j]` clamped to the `u64` range.
pub open spec fn count_u64(s: Seq<u8>, i: int, j: int) -> u64 {
    if count_value(s, i, j) <= u64::MAX {
        count_value(s, i, j) as u64
    } else {
        u64::MAX
    }
}

/// Counter values are never negative.
pub proof fn lemma_count_value_nonneg(s: Seq<u8>, i: int, j: int)
    requires
        i <= j,
    ensures
        count_value(s, i, j) >= 0,
    decreases j - i,
{
    if j > i {
        lemma_count_value_nonneg(s, i, j - 1);
    }
}

// ---------------------------------------------------------------------------
// One line.
// ---------------------------------------------------------------------------

/// Counters of one line starting at `i`, and the index where the description
/// begins: repeatedly skip whitespace, then take a run of digits and commas;
/// the first run without a digit (or the line end) starts the description.
pub open spec fn counts_from(s: Seq<u8>, i: int) -> (Seq<u64>, int)
    decreases s.len() - i,
        when 0 <= i <= s.len()
{
    let j = skip_ws_from(s, i);
    let k = count_run_end(s, j);
    if j < k && has_digit(s, j, k) {
        proof {
            lemma_skip_ws_from_props(s, i);
            lemma_count_run_end_props(s, j);
        }
        let rest = counts_from(s, k);
        (seq![count_u64(s, j, k)] + rest.0, rest.1)
    } else {
        (seq![], j)
    }
}

/// The parse of one line: `Some((id, (counts, description)))` when the line
/// has a colon, a non-empty trimmed id, at least one counter, and a non-empty
/// trimmed description; `None` when the line is skipped.
pub open spec fn parse_line(line: Seq<u8>) -> Option<(Seq<u8>, RecView)> {
    let ce = find_byte_from(line, 58, 0);
    if ce >= line.len() {
        None
    } else {
        let id = trim(line.subrange(0, ce));
        let cs = counts_from(line, ce + 1);
        let name = trim(line.subrange(cs.1, line.len() as int));
        if id.len() > 0 && cs.0.len() > 0 && name.len() > 0 {
            Some((id, (cs.0, name)))
        } else {
            None
        }
    }
}

// ---------------------------------------------------------------------------
// Line splitting.
// ---------------------------------------------------------------------------

/// The lines of `content` from position `i` on, split on line-feed bytes.
/// A trailing line feed does not yield a final empty line.
pub open spec fn lines_from(content: Seq<u8>, i: int) -> Seq<Seq<u8>>
    decreases content.len() - i,
        when 0 <= i <= content.len()
{
    if i >= content.len() {
        seq![]
    } else {
        let e = find_byte_from(content, 10, i);
        proof {
            lemma_find_byte_from_props(content, 10, i);
        }
        if e >= content.len() {
            seq![content.subrange(i, e)]
        } else {
            seq![content.subrange(i, e)] + lines_from(content, e + 1)
        }
    }
}

// ---------------------------------------------------------------------------
// Snapshot model: an association sequence keyed by id.
// ---------------------------------------------------------------------------

/// Index of the first entry of `s` with key `id`, or `-1`.
pub open spec fn snap_index_of(s: SnapView, id: Seq<u8>) -> int
    decreases s.len(),
{
    if s.len() == 0 {
        -1
    } else if s[0].0 == id {
        0
    } else {
        let r = snap_index_of(s.drop_first(), id);
        if r == -1 {
            -1
        } else {
            r + 1
        }
    }
}

/// Whether some entry of `s` has key `id`.
pub open spec fn snap_contains(s: SnapView, id: Seq<u8>) -> bool {
    snap_index_of(s, id) >= 0
}

/// The record of the first entry of `s` with key `id`.
pub open spec fn snap_get(s: SnapView, id: Seq<u8>) -> RecView {
    s[snap_index_of(s, id)].1
}

/// `snap_index_of` finds the first entry with the key, and `-1` means the key
/// is absent.
pub proof fn lemma_snap_index_of_props(s: SnapView, id: Seq<u8>)
    ensures
        snap_index_of(s, id) == -1 || 0 <= snap_index_of(s, id) < s.len(),
        snap_index_of(s, id) >= 0 ==> s[snap_index_of(s, id)].0 == id,
        forall|m: int|
            0 <= m < s.len() && (m < snap_index_of(s, id) || snap_index_of(s, id) == -1)
                ==> (#[trigger] s[m]).0 != id,
    decreases s.len(),
{
    if s.len() > 0 && s[0].0 != id {
        let t = s.drop_first();
        lemma_snap_index_of_props(t, id);
        assert forall|m: int|
            0 <= m < s.len() && (m < snap_index_of(s, id) || snap_index_of(s, id) == -1)
                implies (#[trigger] s[m]).0 != id by {
            if m >= 1 {
                assert(s[m] == t[m - 1]);
            }
        }
    }
}

/// Any index with the first-match properties is `snap_index_of`; `-1` with
/// the absence property likewise.
pub proof fn lemma_snap_index_of_char(s: SnapView, id: Seq<u8>, r: int)
    requires
        -1 <= r,
        r == -1 ==> forall|m: int| 0 <= m < s.len() ==> (#[trigger] s[m]).0 != id,
        r >= 0 ==> 0 <= r < s.len() && s[r].0 == id && forall|m: int|
            0 <= m < r ==> (#[trigger] s[m]).0 != id,
    ensures
        snap_index_of(s, id) == r,
    decreases s.len(),
{
    if s.len() == 0 {
        assert(snap_index_of(s, id) == -1);
        assert(r == -1);
    } else if s[0].0 == id {
        assert(snap_index_of(s, id) == 0);
        if r == -1 {
            assert(s[0].0 != id);
        } else if r > 0 {
            assert(s[0].0 != id);
        }
    } else {
        let t = s.drop_first();
        if r == -1 {
            assert forall|m: int| 0 <= m < t.len() implies (#[trigger] t[m]).0 != id by {
                assert(t[m] == s[m + 1]);
            }
            lemma_snap_index_of_char(t, id, -1);
        } else {
            assert(r != 0);
            assert(t[r - 1] == s[r]);
            assert forall|m: int| 0 <= m < r - 1 implies (#[trigger] t[m]).0 != id by {
                assert(t[m] == s[m + 1]);
            }
            lemma_snap_index_of_char(t, id, r - 1);
        }
    }
}

/// Insert-or-replace: replace the first entry keyed `id`, else append.
pub open spec fn snap_upsert(s: SnapView, id: Seq<u8>, r: RecView) -> SnapView {
    let i = snap_index_of(s, id);
    if i >= 0 {
        s.update(i, (id, r))
    } else {
        s.push((id, r))
    }
}

/// Keys are pairwise distinct.
pub open spec fn snap_wf(s: SnapView) -> bool {
    forall|i: int, j: int| 0 <= i < j < s.len() ==> (#[trigger] s[i]).0 != (#[trigger] s[j]).0
}

/// `snap_upsert` preserves key distinctness.
pub proof fn lemma_snap_upsert_wf(s: SnapView, id: Seq<u8>, r: RecView)
    requires
        snap_wf(s),
    ensures
        snap_wf(snap_upsert(s, id, r)),
{
    lemma_snap_index_of_props(s, id);
}

// ---------------------------------------------------------------------------
// Whole-input parse.
// ---------------------------------------------------------------------------

/// The snapshot built by folding the line parses in order, later records of
/// the same id replacing earlier ones.
pub open spec fn parse_lines(ls: Seq<Seq<u8>>) -> SnapView
    decreases ls.len(),
{
    if ls.len() == 0 {
        seq![]
    } else {
        let prev = parse_lines(ls.drop_last());
        match parse_line(ls.last()) {
            Some(p) => snap_upsert(prev, p.0, p.1),
            None => prev,
        }
    }
}

/// The parse of the whole accounting text: the header line is discarded and
/// the remaining lines are folded into a snapshot.
pub open spec fn spec_parse(content: Seq<u8>) -> SnapView {
    let ls = lines_from(content, 0);
    if ls.len() == 0 {
        seq![]
    } else {
        parse_lines(ls.drop_first())
    }
}

/// A parsed snapshot has pairwise-distinct ids.
pub proof fn lemma_parse_lines_wf(ls: Seq<Seq<u8>>)
    ensures
        snap_wf(parse_lines(ls)),
    decreases ls.len(),
{
    if ls.len() > 0 {
        lemma_parse_lines_wf(ls.drop_last());
        match parse_line(ls.last()) {
            Some(p) => lemma_snap_upsert_wf(parse_lines(ls.drop_last()), p.0, p.1),
            None => {},
        }
    }
}

/// Every record of a parsed snapshot has a non-empty id, at least one
/// counter, and a non-empty description: malformed lines yield no record,
/// a blank line yields none, and the header line is never parsed at all.
pub proof fn lemma_parse_records_nonempty(content: Seq<u8>)
    ensures
        forall|i: int| 0 <= i < spec_parse(content).len()
            ==> (#[trigger] spec_parse(content)[i]).0.len() > 0
                && spec_parse(content)[i].1.0.len() > 0
                && spec_parse(content)[i].1.1.len() > 0,
        parse_line(Seq::<u8>::empty()) is None,
{
    let ls = lines_from(content, 0);
    if ls.len() > 0 {
        lemma_parse_lines_records_nonempty(ls.drop_first());
    }
}

/// Helper for [`lemma_parse_records_nonempty`], by induction over the lines.
proof fn lemma_parse_lines_records_nonempty(ls: Seq<Seq<u8>>)
    ensures
        forall|i: int| 0 <= i < parse_lines(ls).len()
            ==> (#[trigger] parse_lines(ls)[i]).0.len() > 0
                && parse_lines(ls)[i].1.0.len() > 0
                && parse_lines(ls)[i].1.1.len() > 0,
    decreases ls.len(),
{
    if ls.len() > 0 {
        lemma_parse_lines_records_nonempty(ls.drop_last());
        let prev = parse_lines(ls.drop_last());
        match parse_line(ls.last()) {
            Some(p) => {
                lemma_snap_index_of_props(prev, p.0);
            },
            None => {},
        }
    }
}

// ---------------------------------------------------------------------------
// Executable types.
// ---------------------------------------------------------------------------

/// One interrupt line's data: per-CPU counters and the device description.
#[derive(Debug)]
pub struct IrqStats {
    /// Cumulative interrupt counters, one per logical CPU.
    pub counts: Vec<u64>,
    /// Free-text device/driver label, as raw bytes.
    pub name: Vec<u8>,
}

impl View for IrqStats {
    type V = RecView;

    open spec fn view(&self) -> RecView {
        (self.counts@, self.name@)
    }
}

impl IrqStats {
    /// A deep copy.
    pub fn duplicate(&self) -> (r: IrqStats)
        ensures
            r@ == self@,
    {
        IrqStats { counts: copy_u64s(&self.counts), name: copy_bytes(&self.name) }
    }
}

/// A copy of a counter vector.
pub(crate) fn copy_u64s(v: &Vec<u64>) -> (r: Vec<u64>)
    ensures
        r@ == v@,
{
    let mut r: Vec<u64> = Vec::new();
    let mut i: usize = 0;
    while i < v.len()
        invariant
            i <= v@.len(),
            r@ =~= v@.subrange(0, i as int),
        decreases v@.len() - i,
    {
        r.push(v[i]);
        i = i + 1;
    }
    proof {
        assert(r@ =~= v@);
    }
    r
}

/// One full parse of the accounting source: records in insertion order,
/// keyed by IRQ id, with pairwise-distinct ids.
#[derive(Debug)]
pub struct Snapshot {
    /// The records, in the order their lines appeared.
    pub entries: Vec<(Vec<u8>, IrqStats)>,
}

impl View for Snapshot {
    type V = SnapView;

    open spec fn view(&self) -> SnapView {
        Seq::new(self.entries@.len(), |i: int| (self.entries@[i].0@, self.entries@[i].1@))
    }
}

impl Snapshot {
    /// Ids are pairwise distinct.
    pub open spec fn wf(&self) -> bool {
        snap_wf(self@)
    }

    /// An empty snapshot.
    pub fn new() -> (r: Snapshot)
        ensures
            r@ == Seq::<(Seq<u8>, RecView)>::empty(),
            r.wf(),
    {
        let r = Snapshot { entries: Vec::new() };
        proof {
            assert(r@ =~= Seq::<(Seq<u8>, RecView)>::empty());
        }
        r
    }

    /// Number of records.
    pub fn len(&self) -> (r: usize)
        ensures
            r == self@.len(),
    {
        self.entries.len()
    }

    /// The record of `id`, if the snapshot has one.
    pub fn get(&self, id: &Vec<u8>) -> (r: Option<&IrqStats>)
        ensures
            match r {
                Some(stats) => snap_contains(self@, id@) && stats@ == snap_get(self@, id@),
                None => !snap_contains(self@, id@),
            },
    {
        let mut i: usize = 0;
        while i < self.entries.len()
            invariant
                i <= self@.len(),
                forall|m: int| 0 <= m < i ==> (#[trigger] self@[m]).0 != id@,
            decreases self@.len() - i,
        {
            if bytes_eq(&self.entries[i].0, id) {
                proof {
                    lemma_snap_index_of_char(self@, id@, i as int);
                }
                return Some(&self.entries[i].1);
            }
            i = i + 1;
        }
        proof {
            lemma_snap_index_of_char(self@, id@, -1);
        }
        None
    }

    /// A deep copy.
    pub fn duplicate(&self) -> (r: Snapshot)
        ensures
            r@ == self@,
    {
        let mut entries: Vec<(Vec<u8>, IrqStats)> = Vec::new();
        let mut i: usize = 0;
        while i < self.entries.len()
            invariant
                i <= self.entries@.len(),
                entries@.len() == i,
                forall|m: int|
                    0 <= m < i ==> (#[trigger] entries@[m]).0@ == self.entries@[m].0@
                        && entries@[m].1@ == self.entries@[m].1@,
            decreases self.entries@.len() - i,
        {
            let id = copy_bytes(&self.entries[i].0);
            let stats = self.entries[i].1.duplicate();
            entries.push((id, stats));
            i = i + 1;
        }
        let r = Snapshot { entries };
        proof {
            assert(r@ =~= self@);
        }
        r
    }
}

// ---------------------------------------------------------------------------
// Executable parsing.
// ---------------------------------------------------------------------------

/// Relies on `memchr::memchr`: returns the index of the first occurrence of
/// `needle` in `haystack`, or `None` when it does not occur; a returned
/// index is less than the slice length.
#[verifier::external_body]
fn find_byte(haystack: &[u8], needle: u8) -> (r: Option<usize>)
    ensures
        match r {
            Some(i) => i < haystack@.len() && haystack@[i as int] == needle && forall|m: int|
                0 <= m < i ==> haystack@[m] != needle,
            None => forall|m: int| 0 <= m < haystack@.len() ==> haystack@[m] != needle,
        },
{
    memchr::memchr(needle, haystack)
}

/// Absolute index of the end of the line starting at `pos`: the next
/// line-feed byte, or the end of the input.
fn find_line_end(content: &Vec<u8>, pos: usize) -> (end: usize)
    requires
        pos <= content@.len(),
    ensures
        pos <= end <= content@.len(),
        end as int == find_byte_from(content@, 10, pos as int),
{
    let n = content.len();
    let tail = slice_subrange(content.as_slice(), pos, n);
    match find_byte(tail, 10) {
        Some(i) => {
            proof {
                assert forall|m: int| pos <= m < pos + i implies content@[m] != 10u8 by {
                    assert(tail@[m - pos] == content@[m]);
                }
                assert(content@[pos + i] == tail@[i as int]);
                lemma_find_byte_from_char(content@, 10, pos as int, pos + i);
            }
            pos + i
        },
        None => {
            proof {
                assert forall|m: int| pos <= m < n implies content@[m] != 10u8 by {
                    assert(tail@[m - pos] == content@[m]);
                }
                lemma_find_byte_from_char(content@, 10, pos as int, n as int);
            }
            n
        },
    }
}

/// One step of base-ten accumulation, clamped to the `u64` range.
fn mul10_add_sat(value: u64, d: u8) -> (r: u64)
    requires
        d < 10,
    ensures
        r as int == if value * 10 + d <= u64::MAX {
            value * 10 + d
        } else {
            u64::MAX as int
        },
{
    let v10 = if value > u64::MAX / 10 {
        u64::MAX
    } else {
        value * 10
    };
    if v10 > u64::MAX - (d as u64) {
        u64::MAX
    } else {
        v10 + (d as u64)
    }
}

/// The parse of the line `content[start..end)`, per [`parse_line`].
#[verifier::loop_isolation(false)]
fn parse_line_exec(content: &Vec<u8>, start: usize, end: usize) -> (r: Option<(Vec<u8>, IrqStats)>)
    requires
        start <= end <= content@.len(),
    ensures
        ({
            let line = content@.subrange(start as int, end as int);
            match r {
                Some(p) => parse_line(line) == Some::<(Seq<u8>, RecView)>((p.0@, p.1@)),
                None => parse_line(line) is None,
            }
        }),
{
    let ghost line = content@.subrange(start as int, end as int);

    // Scan for the colon that ends the id field.
    let mut ce: usize = start;
    while ce < end && content[ce] != 58
        invariant
            start <= ce <= end,
            forall|m: int| start <= m < ce ==> content@[m] != 58u8,
        decreases end - ce,
    {
        ce = ce + 1;
    }
    proof {
        assert forall|m: int| 0 <= m < ce - start implies line[m] != 58u8 by {
            assert(line[m] == content@[start + m]);
        }
        if ce < end {
            assert(line[ce - start] == content@[ce as int]);
        }
        lemma_find_byte_from_char(line, 58, 0, ce - start);
    }
    if ce >= end {
        return None;
    }

    // The id: the bytes before the colon, trimmed.
    let id = trim_range(content, start, ce);
    proof {
        assert(line.subrange(0, ce - start) =~= content@.subrange(start as int, ce as int));
    }

    // The counters: whitespace-separated runs of digits and commas, up to
    // the first run without a digit.
    let ghost c0: int = ce + 1 - start;
    let mut counts: Vec<u64> = Vec::new();
    let mut i: usize = ce + 1;
    let mut desc_start: usize = end;
    let mut done = false;
    while !done
        invariant
            ce + 1 <= i <= end,
            !done ==> counts_from(line, c0).0 == counts@ + counts_from(line, i - start).0,
            !done ==> counts_from(line, c0).1 == counts_from(line, i - start).1,
            done ==> counts_from(line, c0).0 == counts@,
            done ==> counts_from(line, c0).1 == desc_start - start,
            done ==> i <= desc_start <= end,
        decreases end - i + (if done { 0int } else { 1int }),
    {
        proof {
            assert(counts_from(line, c0).0 =~= counts@ + counts_from(line, i - start).0);
        }
        // Skip whitespace.
        let mut j: usize = i;
        while j < end && is_ws_byte(content[j])
            invariant
                i <= j <= end,
                forall|m: int| i - start <= m < j - start ==> is_ws(line[m]),
            decreases end - j,
        {
            proof {
                assert(line[j - start] == content@[j as int]);
            }
            j = j + 1;
        }
        proof {
            if j < end {
                assert(line[j - start] == content@[j as int]);
            }
            lemma_skip_ws_from_char(line, i - start, j - start);
        }

        // Take the run of digits and commas, noting whether it has a digit.
        let mut k: usize = j;
        let mut saw_digit = false;
        while k < end && is_count_byte_exec(content[k])
            invariant
                j <= k <= end,
                forall|m: int| j - start <= m < k - start ==> is_count_byte(line[m]),
                saw_digit == has_digit(line, j - start, k - start),
            decreases end - k,
        {
            proof {
                assert(line[k - start] == content@[k as int]);
            }
            if content[k] != 44 {
                saw_digit = true;
                proof {
                    assert(is_digit(line[k - start]));
                }
            }
            proof {
                if saw_digit && !has_digit(line, j - start, k - start) {
                    assert(is_digit(line[k - start]));
                }
                assert(saw_digit == has_digit(line, j - start, k + 1 - start));
            }
            k = k + 1;
        }
        proof {
            if k < end {
                assert(line[k - start] == content@[k as int]);
            }
            lemma_count_run_end_char(line, j - start, k - start);
        }

        if j < k && saw_digit {
            // Accumulate the counter value, commas discarded, clamped.
            let mut value: u64 = 0;
            let mut m: usize = j;
            while m < k
                invariant
                    j <= m <= k,
                    value as int == if count_value(line, j - start, m - start) <= u64::MAX {
                        count_value(line, j - start, m - start)
                    } else {
                        u64::MAX as int
                    },
                decreases k - m,
            {
                proof {
                    assert(line[m - start] == content@[m as int]);
                    assert(is_count_byte(line[m - start]));
                    lemma_count_value_nonneg(line, j - start, m - start);
                }
                let c = content[m];
                if c != 44 {
                    let ghost t = count_value(line, j - start, m - start);
                    value = mul10_add_sat(value, c - 48);
                    proof {
                        assert(count_value(line, j - start, m + 1 - start) == t * 10 + (c - 48));
                        if t > u64::MAX {
                            assert(t * 10 >= t * 1);
                        }
                    }
                } else {
                    proof {
                        assert(count_value(line, j - start, m + 1 - start) == count_value(
                            line,
                            j - start,
                            m - start,
                        ));
                    }
                }
                m = m + 1;
            }
            counts.push(value);
            proof {
                assert(value == count_u64(line, j - start, k - start));
                let rest = counts_from(line, k - start);
                assert(counts_from(line, i - start) == (
                    seq![count_u64(line, j - start, k - start)] + rest.0,
                    rest.1,
                ));
                assert(counts@ == counts@.drop_last().push(value));
                assert(counts_from(line, c0).0 =~= counts@ + rest.0);
            }
            i = k;
        } else {
            desc_start = j;
            proof {
                assert(counts_from(line, i - start) == (Seq::<u64>::empty(), j - start));
                assert(counts_from(line, c0).0 =~= counts@);
            }
            done = true;
        }
    }

    // The description: the rest of the line, trimmed.
    let name = trim_range(content, desc_start, end);
    proof {
        assert(line.subrange(desc_start - start, line.len() as int) =~= content@.subrange(
            desc_start as int,
            end as int,
        ));
    }

    if id.len() > 0 && counts.len() > 0 && name.len() > 0 {
        Some((id, IrqStats { counts, name }))
    } else {
        None
    }
}

/// Insert-or-replace one record: the first entry with the same id is
/// replaced, otherwise the record is appended.
#[verifier::loop_isolation(false)]
fn snap_upsert_exec(snap: &mut Snapshot, id: Vec<u8>, stats: IrqStats)
    ensures
        final(snap)@ == snap_upsert(old(snap)@, id@, stats@),
{
    let ghost s0 = snap@;
    let ghost idv = id@;
    let ghost stv = stats@;
    let mut i: usize = 0;
    while i < snap.entries.len()
        invariant
            i <= snap@.len(),
            snap@ == s0,
            snap.entries@.len() == s0.len(),
            forall|m: int| 0 <= m < i ==> (#[trigger] s0[m]).0 != idv,
        decreases snap@.len() - i,
    {
        proof {
            assert(s0[i as int].0 == snap.entries@[i as int].0@);
        }
        let entry = &snap.entries[i];
        proof {
            assert(*entry == snap.entries@[i as int]);
        }
        let hit = bytes_eq(&entry.0, &id);
        proof {
            assert(hit == (snap.entries@[i as int].0@ == idv));
        }
        if hit {
            proof {
                assert(s0[i as int].0 == idv);
                lemma_snap_index_of_char(s0, idv, i as int);
            }
            snap.entries.set(i, (id, stats));
            proof {
                assert(snap@ =~= s0.update(i as int, (idv, stv)));
            }
            return;
        }
        i = i + 1;
    }
    proof {
        lemma_snap_index_of_char(s0, idv, -1);
    }
    snap.entries.push((id, stats));
    proof {
        assert(snap@ =~= s0.push((idv, stv)));
    }
}

/// Parse one read of the accounting source into a snapshot: the header line
/// is discarded, each remaining line is parsed per [`parse_line`], and later
/// records of an id replace earlier ones.
#[verifier::loop_isolation(false)]
pub fn parse_interrupts(content: &Vec<u8>) -> (r: Snapshot)
    ensures
        r@ == spec_parse(content@),
        r.wf(),
{
    let n = content.len();
    let mut snap = Snapshot::new();
    let ghost ls = lines_from(content@, 0);
    proof {
        lemma_parse_lines_wf(ls.drop_first());
    }
    if n == 0 {
        return snap;
    }

    // Discard the header line.
    let e0 = find_line_end(content, 0);
    let mut pos: usize = if e0 >= n {
        n
    } else {
        e0 + 1
    };
    let ghost mut k: int = 1;
    proof {
        lemma_find_byte_from_props(content@, 10, 0);
        assert(lines_from(content@, pos as int) =~= ls.skip(1));
        assert(snap@ =~= parse_lines(ls.subrange(1, 1)));
    }

    while pos < n
        invariant
            pos <= n,
            1 <= k <= ls.len(),
            lines_from(content@, pos as int) == ls.skip(k),
            snap@ == parse_lines(ls.subrange(1, k)),
        decreases n - pos,
    {
        let end = find_line_end(content, pos);
        proof {
            lemma_find_byte_from_props(content@, 10, pos as int);
            assert(ls.skip(k)[0] == ls[k]);
            assert(ls[k] == content@.subrange(pos as int, end as int));
            assert(k < ls.len());
        }
        let ghost prev = snap@;
        match parse_line_exec(content, pos, end) {
            Some(p) => {
                snap_upsert_exec(&mut snap, p.0, p.1);
            },
            None => {},
        }
        proof {
            let s1 = ls.subrange(1, k + 1);
            assert(s1.drop_last() =~= ls.subrange(1, k));
            assert(s1.last() == ls[k]);
            assert(snap@ == parse_lines(s1));
        }
        let next = if end >= n {
            n
        } else {
            end + 1
        };
        proof {
            let cur = content@.subrange(pos as int, end as int);
            let tail = ls.skip(k);
            if end < n {
                assert(tail == seq![cur] + lines_from(content@, end + 1));
                assert forall|m: int| 0 <= m < tail.len() - 1 implies lines_from(
                    content@,
                    next as int,
                )[m] == ls.skip(k + 1)[m] by {
                    assert(tail[m + 1] == (seq![cur] + lines_from(content@, end + 1))[m + 1]);
                }
                assert(lines_from(content@, next as int) =~= ls.skip(k + 1));
            } else {
                assert(tail == seq![cur]);
                assert(lines_from(content@, next as int) =~= ls.skip(k + 1));
            }
            k = k + 1;
        }
        pos = next;
    }
    proof {
        assert(ls.skip(k).len() == 0);
        assert(k == ls.len());
        assert(ls.subrange(1, k) =~= ls.drop_first());
        lemma_parse_lines_wf(ls.drop_first());
    }
    snap
}

} // verus!
