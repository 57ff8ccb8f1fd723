//! The layout of a massif output file: `key: value` header lines, then
//! snapshots, each `#---` / `snapshot=<N>` / `#---`, `key=value` attribute
//! lines and a block of sample lines. The file is read line by line.
use vstd::prelude::*;

use crate::lexical::{decimal_at, decimal_value, digits_end, lit_at, match_lit, skip_digits, skip_spaces, spaces_end};
use crate::parsing::{decodes_as, sample_at, sample_fits, sample_positions, LineError, Sample};
use crate::text::copy_range;
use crate::text::{chars_of, content_chars, content_of, string_of};

verus! {

pub type Attributes = Vec<(String, String)>;

/// The value that `attributes`, read as a map, gives `key`: that of its
/// last entry for `key`, as a later entry replaces an earlier one.
pub open spec fn attribute_value(attributes: Seq<(String, String)>, key: Seq<char>) -> Option<Seq<char>>
    decreases attributes.len(),
{
    if attributes.len() == 0 {
        None
    } else if attributes.last().0@ == key {
        Some(attributes.last().1@)
    } else {
        attribute_value(attributes.drop_last(), key)
    }
}

/// The value of `key` among `attributes` (see `attribute_value`).
pub fn attribute<'b>(attributes: &'b Attributes, key: &String) -> (r: Option<&'b String>)
    ensures
        r is Some <==> attribute_value(attributes@, key@) is Some,
        r is Some ==> r.unwrap()@ == attribute_value(attributes@, key@).unwrap(),
{
    let mut k = attributes.len();
    assert(attributes@.take(k as int) =~= attributes@);
    while k > 0
        invariant
            k <= attributes@.len(),
            attribute_value(attributes@, key@) == attribute_value(attributes@.take(k as int), key@),
        decreases k,
    {
        let ghost t = attributes@.take(k as int);
        assert(t.drop_last() == attributes@.take(k - 1));
        assert(t.last() == attributes@[k - 1]);
        if attributes[k - 1].0.eq(key) {
            return Some(&attributes[k - 1].1);
        }
        k = k - 1;
    }
    None
}

/// One snapshot: its number, its attributes and its sample lines.
pub struct Snapshot {
    pub id: usize,
    pub attributes: Attributes,
    pub samples: Vec<Sample>,
}

/// A decoded file: its header attributes and its snapshots.
pub struct Massif {
    pub header: Attributes,
    pub snapshots: Vec<Snapshot>,
}

/// What the reader expects next.
#[derive(Debug, Clone, Copy, PartialEq, Eq, Structural)]
pub enum Phase {
    /// Header lines, or the separator that opens the first snapshot.
    Header,
    /// The `snapshot=<N>` line after a separator.
    SnapshotId,
    /// The separator after the snapshot number.
    SecondSeparator,
    /// Attribute lines, a sample line, or the next separator.
    Attributes,
    /// Sample lines, or the next separator.
    Samples,
}

#[derive(Debug, Clone, Copy, PartialEq, Eq, Structural)]
pub enum ParseErrorKind {
    /// The line fits nothing that may stand where it is.
    Malformed,
    /// A number of the line exceeds `usize::MAX`.
    NumberTooLarge,
    /// The input ends in a line with no line ending.
    MissingLineEnding,
    /// The input ends between a separator and the snapshot's attributes.
    Truncated,
}

/// A line that does not decode, numbered from 1.
#[derive(Debug, Clone, Copy, PartialEq, Eq, Structural)]
pub struct ParseError {
    pub line: usize,
    pub kind: ParseErrorKind,
}

/// End of the run of dashes that starts at `i`.
pub open spec fn dashes_end(s: Seq<char>, i: int) -> int
    decreases s.len() - i,
{
    if 0 <= i < s.len() && s[i] == '-' {
        dashes_end(s, i + 1)
    } else {
        i
    }
}

/// `\s*#-+`, alone on the line.
pub open spec fn is_separator(s: Seq<char>) -> bool {
    let a = spaces_end(s, 0);
    a < s.len() && s[a] == '#' && dashes_end(s, a + 1) > a + 1 && dashes_end(s, a + 1) == s.len()
}

/// `snapshot=<digits>`, alone on the line.
pub open spec fn is_snapshot_id(s: Seq<char>) -> bool {
    lit_at(s, 0, "snapshot="@) && digits_end(s, "snapshot="@.len() as int) == s.len() && s.len()
        > "snapshot="@.len()
}

/// Position of the first `c` in `s`, or `s.len()` when there is none.
pub open spec fn first_of(s: Seq<char>, c: char, i: int) -> int
    decreases s.len() - i,
{
    if 0 <= i < s.len() && s[i] != c {
        first_of(s, c, i + 1)
    } else {
        i
    }
}

/// `key: value`, the key holding no colon: the key and the value.
pub open spec fn header_attribute(s: Seq<char>) -> Option<(Seq<char>, Seq<char>)> {
    let p = first_of(s, ':', 0);
    if lit_at(s, p, ": "@) {
        Some((s.subrange(0, p), s.subrange(p + 2, s.len() as int)))
    } else {
        None
    }
}

/// `key=value`, the key holding no `=`: the key and the value.
pub open spec fn snapshot_attribute(s: Seq<char>) -> Option<(Seq<char>, Seq<char>)> {
    let p = first_of(s, '=', 0);
    if p < s.len() {
        Some((s.subrange(0, p), s.subrange(p + 1, s.len() as int)))
    } else {
        None
    }
}

fn skip_dashes(s: &Vec<char>, i: usize) -> (j: usize)
    requires
        i <= s@.len(),
    ensures
        j == dashes_end(s@, i as int),
        i <= j <= s@.len(),
{
    let mut j = i;
    while j < s.len() && s[j] == '-'
        invariant
            i <= j <= s@.len(),
            dashes_end(s@, i as int) == dashes_end(s@, j as int),
        decreases s@.len() - j,
    {
        j = j + 1;
    }
    j
}

fn find_char(s: &Vec<char>, c: char) -> (j: usize)
    ensures
        j == first_of(s@, c, 0),
        j <= s@.len(),
{
    let mut j: usize = 0;
    while j < s.len() && s[j] != c
        invariant
            j <= s@.len(),
            first_of(s@, c, 0) == first_of(s@, c, j as int),
        decreases s@.len() - j,
    {
        j = j + 1;
    }
    j
}

pub fn separator_line(s: &Vec<char>) -> (r: bool)
    ensures
        r == is_separator(s@),
{
    let a = skip_spaces(s, 0);
    if !(a < s.len() && s[a] == '#') {
        return false;
    }
    let b = skip_dashes(s, a + 1);
    b > a + 1 && b == s.len()
}

/// The number of a `snapshot=<N>` line; `Err(true)` when it exceeds
/// `usize::MAX`, `Err(false)` when the line is no such line.
pub fn snapshot_id_line(s: &Vec<char>) -> (r: Result<usize, bool>)
    ensures
        r is Ok || r == Err::<usize, bool>(true) <==> is_snapshot_id(s@),
        r is Ok <==> is_snapshot_id(s@) && decimal_value(
            s@.subrange("snapshot="@.len() as int, s@.len() as int),
        ) <= usize::MAX,
        r is Ok ==> r->Ok_0 == decimal_value(s@.subrange("snapshot="@.len() as int, s@.len() as int)),
{
    let a = match match_lit(s, 0, "snapshot=") {
        Some(a) => a,
        None => return Err(false),
    };
    let b = skip_digits(s, a);
    if !(b == s.len() && b > a) {
        return Err(false);
    }
    match decimal_at(s, a, b) {
        Some(n) => Ok(n),
        None => Err(true),
    }
}

pub fn header_attribute_line(s: &Vec<char>) -> (r: Option<(String, String)>)
    ensures
        r is Some <==> header_attribute(s@) is Some,
        r is Some ==> r.unwrap().0@ == header_attribute(s@).unwrap().0 && r.unwrap().1@
            == header_attribute(s@).unwrap().1,
{
    proof {
        reveal_strlit(": ");
    }
    let p = find_char(s, ':');
    match match_lit(s, p, ": ") {
        Some(q) => Some((string_of(s, 0, p), string_of(s, q, s.len()))),
        None => None,
    }
}

pub fn snapshot_attribute_line(s: &Vec<char>) -> (r: Option<(String, String)>)
    ensures
        r is Some <==> snapshot_attribute(s@) is Some,
        r is Some ==> r.unwrap().0@ == snapshot_attribute(s@).unwrap().0 && r.unwrap().1@
            == snapshot_attribute(s@).unwrap().1,
{
    let p = find_char(s, '=');
    if p < s.len() {
        Some((string_of(s, 0, p), string_of(s, p + 1, s.len())))
    } else {
        None
    }
}

/// Decodes a header line `key: value`, up to an optional line ending.
pub fn massif_header_attribute(line: &str) -> (r: Option<(String, String)>)
    ensures
        r is Some <==> header_attribute(content_of(line@)) is Some,
        r is Some ==> r.unwrap().0@ == header_attribute(content_of(line@)).unwrap().0 && r.unwrap().1@
            == header_attribute(content_of(line@)).unwrap().1,
{
    header_attribute_line(&content_chars(line))
}

/// Decodes a snapshot attribute line `key=value`, up to an optional line
/// ending.
pub fn massif_snapshot_attribute(line: &str) -> (r: Option<(String, String)>)
    ensures
        r is Some <==> snapshot_attribute(content_of(line@)) is Some,
        r is Some ==> r.unwrap().0@ == snapshot_attribute(content_of(line@)).unwrap().0
            && r.unwrap().1@ == snapshot_attribute(content_of(line@)).unwrap().1,
{
    snapshot_attribute_line(&content_chars(line))
}

/// Reads a massif file one line at a time.
pub struct MassifReader {
    pub phase: Phase,
    pub pending_id: usize,
    pub massif: Massif,
}

impl MassifReader {
    pub fn new() -> (r: MassifReader)
        ensures
            r.phase == Phase::Header,
            r.massif.header@.len() == 0,
            r.massif.snapshots@.len() == 0,
    {
        MassifReader {
            phase: Phase::Header,
            pending_id: 0,
            massif: Massif { header: Vec::new(), snapshots: Vec::new() },
        }
    }

    /// What reading the line `s` in the header does.
    pub open spec fn header_step(before: MassifReader, s: Seq<char>, after: MassifReader, r: Result<(), ParseErrorKind>) -> bool {
        match header_attribute(s) {
            Some((k, v)) => r == Ok::<(), ParseErrorKind>(()) && after.phase == Phase::Header && after.massif.header@.len()
                == before.massif.header@.len() + 1 && after.massif.header@.last().0@ == k
                && after.massif.header@.last().1@ == v,
            None => if is_separator(s) {
                r == Ok::<(), ParseErrorKind>(()) && after.phase == Phase::SnapshotId
            } else {
                r == Err::<(), ParseErrorKind>(ParseErrorKind::Malformed)
            },
        }
    }

    /// What reading the line `s` after a snapshot's first separator does.
    pub open spec fn snapshot_id_step(before: MassifReader, s: Seq<char>, after: MassifReader, r: Result<(), ParseErrorKind>) -> bool {
        if !is_snapshot_id(s) {
            r == Err::<(), ParseErrorKind>(ParseErrorKind::Malformed)
        } else if decimal_value(s.subrange("snapshot="@.len() as int, s.len() as int)) > usize::MAX {
            r == Err::<(), ParseErrorKind>(ParseErrorKind::NumberTooLarge)
        } else {
            r == Ok::<(), ParseErrorKind>(()) && after.phase == Phase::SecondSeparator && after.pending_id == decimal_value(
                s.subrange("snapshot="@.len() as int, s.len() as int),
            )
        }
    }

    /// What reading the line `s` after a snapshot's number does.
    pub open spec fn second_separator_step(before: MassifReader, s: Seq<char>, after: MassifReader, r: Result<(), ParseErrorKind>) -> bool {
        if is_separator(s) {
            &&& r == Ok::<(), ParseErrorKind>(())
            &&& after.phase == Phase::Attributes
            &&& after.massif.snapshots@.len() == before.massif.snapshots@.len() + 1
            &&& after.massif.snapshots@.last().id == before.pending_id
            &&& after.massif.snapshots@.last().attributes@.len() == 0
            &&& after.massif.snapshots@.last().samples@.len() == 0
        } else {
            r == Err::<(), ParseErrorKind>(ParseErrorKind::Malformed)
        }
    }

    /// What reading the line `s` among a snapshot's attribute or sample
    /// lines does.
    pub open spec fn body_step(before: MassifReader, s: Seq<char>, after: MassifReader, r: Result<(), ParseErrorKind>) -> bool {
        if (sample_positions(s) is Some) {
            if sample_fits(s) {
                &&& r == Ok::<(), ParseErrorKind>(())
                &&& after.phase == Phase::Samples
                &&& after.massif.snapshots@.len() == before.massif.snapshots@.len()
                &&& after.massif.snapshots@.last().samples@.len() == before.massif.snapshots@.last().samples@.len() + 1
                &&& after.massif.snapshots@.last().samples@.drop_last() == before.massif.snapshots@.last().samples@
                &&& decodes_as(s, after.massif.snapshots@.last().samples@.last())
            } else {
                r == Err::<(), ParseErrorKind>(ParseErrorKind::NumberTooLarge)
            }
        } else if before.phase == Phase::Attributes && (snapshot_attribute(s) is Some) {
            &&& r == Ok::<(), ParseErrorKind>(())
            &&& after.phase == Phase::Attributes
            &&& after.massif.snapshots@.len() == before.massif.snapshots@.len()
            &&& after.massif.snapshots@.last().attributes@.len() == before.massif.snapshots@.last().attributes@.len() + 1
            &&& after.massif.snapshots@.last().attributes@.last().0@
                == snapshot_attribute(s).unwrap().0
            &&& after.massif.snapshots@.last().attributes@.last().1@
                == snapshot_attribute(s).unwrap().1
        } else if is_separator(s) {
            r == Ok::<(), ParseErrorKind>(()) && after.phase == Phase::SnapshotId
        } else {
            r == Err::<(), ParseErrorKind>(ParseErrorKind::Malformed)
        }
    }

    /// What `feed_line` leaves: the reader `after` and the result `r`, from
    /// the reader `before` and the line `s`.
    pub open spec fn feed_post(before: MassifReader, s: Seq<char>, after: MassifReader, r: Result<(), ParseErrorKind>) -> bool {
        &&& (after.massif.snapshots@.len() > 0 || after.phase == Phase::Header || after.phase
            == Phase::SnapshotId || after.phase == Phase::SecondSeparator)
        &&& after.massif.header@.take(before.massif.header@.len() as int) == before.massif.header@
        &&& (before.phase == Phase::Header ==> Self::header_step(before, s, after, r))
        &&& (before.phase == Phase::SnapshotId ==> Self::snapshot_id_step(before, s, after, r))
        &&& (before.phase == Phase::SecondSeparator ==> Self::second_separator_step(before, s, after, r))
        &&& (before.phase == Phase::Attributes || before.phase == Phase::Samples ==> Self::body_step(
            before,
            s,
            after,
            r,
        ))
    }

    /// Reads the line `s`, its line ending left out.
    pub fn feed_line(&mut self, s: &Vec<char>) -> (r: Result<(), ParseErrorKind>)
        requires
            old(self).massif.snapshots@.len() > 0 || old(self).phase == Phase::Header || old(
                self,
            ).phase == Phase::SnapshotId || old(self).phase == Phase::SecondSeparator,
        ensures
            final(self).massif.snapshots@.len() > 0 || final(self).phase == Phase::Header
                || final(self).phase == Phase::SnapshotId || final(self).phase
                == Phase::SecondSeparator,
            final(self).massif.header@.take(old(self).massif.header@.len() as int) == old(
                self,
            ).massif.header@,
            old(self).phase == Phase::Header ==> Self::header_step(*old(self), s@, *final(self), r),
            old(self).phase == Phase::SnapshotId ==> Self::snapshot_id_step(*old(self), s@, *final(self), r),
            old(self).phase == Phase::SecondSeparator ==> Self::second_separator_step(
                *old(self),
                s@,
                *final(self),
                r,
            ),
            old(self).phase == Phase::Attributes || old(self).phase == Phase::Samples ==> (
                if sample_positions(s@) is Some {
                    if sample_fits(s@) {
                        &&& r == Ok::<(), ParseErrorKind>(())
                        &&& final(self).phase == Phase::Samples
                        &&& final(self).massif.snapshots@.len() == old(self).massif.snapshots@.len()
                        &&& final(self).massif.snapshots@.last().samples@.len() == old(self).massif.snapshots@.last().samples@.len() + 1
                        &&& final(self).massif.snapshots@.last().samples@.drop_last() == old(self).massif.snapshots@.last().samples@
                        &&& decodes_as(s@, final(self).massif.snapshots@.last().samples@.last())
                    } else {
                        r == Err::<(), ParseErrorKind>(ParseErrorKind::NumberTooLarge)
                    }
                } else if old(self).phase == Phase::Attributes && snapshot_attribute(s@) is Some {
                    &&& r == Ok::<(), ParseErrorKind>(())
                    &&& final(self).phase == Phase::Attributes
                    &&& final(self).massif.snapshots@.len() == old(self).massif.snapshots@.len()
                    &&& final(self).massif.snapshots@.last().attributes@.len() == old(self).massif.snapshots@.last().attributes@.len() + 1
                    &&& final(self).massif.snapshots@.last().attributes@.last().0@
                        == snapshot_attribute(s@).unwrap().0
                    &&& final(self).massif.snapshots@.last().attributes@.last().1@
                        == snapshot_attribute(s@).unwrap().1
                } else if is_separator(s@) {
                    r == Ok::<(), ParseErrorKind>(()) && final(self).phase == Phase::SnapshotId
                } else {
                    r == Err::<(), ParseErrorKind>(ParseErrorKind::Malformed)
                }
            ),
    {
        match self.phase {
            Phase::Header => {
                match header_attribute_line(s) {
                    Some(kv) => {
                        self.massif.header.push(kv);
                        Ok(())
                    },
                    None => {
                        if separator_line(s) {
                            self.phase = Phase::SnapshotId;
                            Ok(())
                        } else {
                            Err(ParseErrorKind::Malformed)
                        }
                    },
                }
            },
            Phase::SnapshotId => match snapshot_id_line(s) {
                Ok(n) => {
                    self.pending_id = n;
                    self.phase = Phase::SecondSeparator;
                    Ok(())
                },
                Err(true) => Err(ParseErrorKind::NumberTooLarge),
                Err(false) => Err(ParseErrorKind::Malformed),
            },
            Phase::SecondSeparator => {
                if separator_line(s) {
                    self.massif.snapshots.push(
                        Snapshot { id: self.pending_id, attributes: Vec::new(), samples: Vec::new() },
                    );
                    self.phase = Phase::Attributes;
                    Ok(())
                } else {
                    Err(ParseErrorKind::Malformed)
                }
            },
            Phase::Attributes | Phase::Samples => {
                match sample_at(s) {
                    Ok(sample) => {
                        let n = self.massif.snapshots.len() - 1;
                        self.massif.snapshots[n].samples.push(sample);
                        self.phase = Phase::Samples;
                        Ok(())
                    },
                    Err(LineError::NumberTooLarge) => Err(ParseErrorKind::NumberTooLarge),
                    Err(LineError::Malformed) => {
                        let attribute = if self.phase == Phase::Attributes {
                            snapshot_attribute_line(s)
                        } else {
                            None
                        };
                        match attribute {
                            Some(kv) => {
                                let n = self.massif.snapshots.len() - 1;
                                self.massif.snapshots[n].attributes.push(kv);
                                Ok(())
                            },
                            None => {
                                if separator_line(s) {
                                    self.phase = Phase::SnapshotId;
                                    Ok(())
                                } else {
                                    Err(ParseErrorKind::Malformed)
                                }
                            },
                        }
                    },
                }
            },
        }
    }
}


/// A reader that has read nothing yet.
pub open spec fn starts_reading(r: MassifReader) -> bool {
    &&& r.phase == Phase::Header
    &&& r.massif.header@.len() == 0
    &&& r.massif.snapshots@.len() == 0
}

/// Feeding `lines` one by one to a fresh reader goes through `states` and
/// leaves the whole file `m`.
pub open spec fn reads_as(lines: Seq<Seq<char>>, states: Seq<MassifReader>, m: Massif) -> bool {
    &&& states.len() == lines.len() + 1
    &&& starts_reading(states[0])
    &&& forall|i: int| 0 <= i < lines.len() ==> MassifReader::feed_post(#[trigger] states[i], lines[i], states[i + 1], Ok(()))
    &&& phase_may_end(states.last().phase)
    &&& states.last().massif == m
}

/// `m` is what reading the lines of `input` in order leaves.
pub open spec fn reads_file(input: Seq<char>, m: Massif) -> bool {
    exists|states: Seq<MassifReader>| #[trigger] reads_as(split_lines(input), states, m)
}

/// `input` ends in a line ending and its lines read without error.
pub open spec fn decodes(input: Seq<char>) -> bool {
    &&& !(input.len() > 0 && input.last() != '\n')
    &&& exists|m: Massif| #[trigger] reads_file(input, m)
}

/// What the error `e` says of `input`: it lacks its last line ending, or
/// stops inside a snapshot's opening lines, or line `e.line` is the first
/// whose reading fails, with `e.kind`.
pub open spec fn explains(input: Seq<char>, e: ParseError) -> bool {
    match e.kind {
        ParseErrorKind::MissingLineEnding => input.len() > 0 && input.last() != '\n',
        ParseErrorKind::Truncated => stops_early(input),
        _ => fails_reading(input, e.line - 1, e.kind),
    }
}

/// Feeding `lines` to a fresh reader goes through `states` without error up
/// to line `k`, which fails with `kind`.
pub open spec fn fails_at(lines: Seq<Seq<char>>, states: Seq<MassifReader>, k: int, kind: ParseErrorKind) -> bool {
    &&& 0 <= k < lines.len()
    &&& states.len() == k + 2
    &&& starts_reading(states[0])
    &&& forall|i: int| 0 <= i < k ==> MassifReader::feed_post(#[trigger] states[i], lines[i], states[i + 1], Ok(()))
    &&& MassifReader::feed_post(states[k], lines[k], states[k + 1], Err(kind))
}

/// Reading the lines of `input` in order fails at line `k` (from 0) with
/// `kind`.
pub open spec fn fails_reading(input: Seq<char>, k: int, kind: ParseErrorKind) -> bool {
    exists|states: Seq<MassifReader>| #[trigger] fails_at(split_lines(input), states, k, kind)
}

/// Every line of `input` reads without error, but the reader stops inside
/// a snapshot's opening lines.
pub open spec fn stops_early(input: Seq<char>) -> bool {
    exists|states: Seq<MassifReader>|
        #![trigger states.len()]
        {
            let lines = split_lines(input);
            &&& states.len() == lines.len() + 1
            &&& starts_reading(states[0])
            &&& forall|i: int| 0 <= i < lines.len() ==> MassifReader::feed_post(#[trigger] states[i], lines[i], states[i + 1], Ok(()))
            &&& !phase_may_end(states.last().phase)
        }
}

/// The result of a line, and the phase it leaves on success, depend only
/// on the phase before it.
proof fn lemma_feed_deterministic(
    b1: MassifReader,
    b2: MassifReader,
    s: Seq<char>,
    a1: MassifReader,
    a2: MassifReader,
    r1: Result<(), ParseErrorKind>,
    r2: Result<(), ParseErrorKind>,
)
    requires
        MassifReader::feed_post(b1, s, a1, r1),
        MassifReader::feed_post(b2, s, a2, r2),
        b1.phase == b2.phase,
    ensures
        r1 == r2,
        r1 is Ok ==> a1.phase == a2.phase,
{
    match b1.phase {
        Phase::Header => {
            assert(MassifReader::header_step(b1, s, a1, r1));
            assert(MassifReader::header_step(b2, s, a2, r2));
        },
        Phase::SnapshotId => {
            assert(MassifReader::snapshot_id_step(b1, s, a1, r1));
            assert(MassifReader::snapshot_id_step(b2, s, a2, r2));
        },
        Phase::SecondSeparator => {
            assert(MassifReader::second_separator_step(b1, s, a1, r1));
            assert(MassifReader::second_separator_step(b2, s, a2, r2));
        },
        _ => {
            assert(MassifReader::body_step(b1, s, a1, r1));
            assert(MassifReader::body_step(b2, s, a2, r2));
            if sample_positions(s) is Some {
                if sample_fits(s) {
                } else {
                }
            } else if b1.phase == Phase::Attributes && (snapshot_attribute(s) is Some) {
            } else if is_separator(s) {
            } else {
            }
        },
    }
}

/// Two error-free readings of the same lines from fresh readers pass
/// through the same phases.
proof fn lemma_runs_agree(lines: Seq<Seq<char>>, st1: Seq<MassifReader>, st2: Seq<MassifReader>, k: int)
    requires
        0 <= k < st1.len(),
        k < st2.len(),
        k <= lines.len(),
        starts_reading(st1[0]),
        starts_reading(st2[0]),
        forall|i: int| 0 <= i < k ==> MassifReader::feed_post(#[trigger] st1[i], lines[i], st1[i + 1], Ok(())),
        forall|i: int| 0 <= i < k ==> MassifReader::feed_post(#[trigger] st2[i], lines[i], st2[i + 1], Ok(())),
    ensures
        st1[k].phase == st2[k].phase,
    decreases k,
{
    if k > 0 {
        lemma_runs_agree(lines, st1, st2, k - 1);
        assert(MassifReader::feed_post(st1[k - 1], lines[k - 1], st1[k], Ok(())));
        assert(MassifReader::feed_post(st2[k - 1], lines[k - 1], st2[k], Ok(())));
        lemma_feed_deterministic(st1[k - 1], st2[k - 1], lines[k - 1], st1[k], st2[k], Ok(()), Ok(()));
    }
}

/// The reader has seen a whole file: it does not stop between a separator
/// and the attributes of a snapshot.
pub open spec fn phase_may_end(p: Phase) -> bool {
    p == Phase::Header || p == Phase::Attributes || p == Phase::Samples
}

/// The number of line endings in `s`.
pub open spec fn newline_count(s: Seq<char>) -> nat
    decreases s.len(),
{
    if s.len() == 0 {
        0
    } else {
        newline_count(s.drop_last()) + if s.last() == '\n' {
            1nat
        } else {
            0nat
        }
    }
}

/// `s` without one trailing `\r`.
pub open spec fn without_cr(s: Seq<char>) -> Seq<char> {
    if s.len() > 0 && s.last() == '\r' {
        s.drop_last()
    } else {
        s
    }
}

/// The complete lines of `s`, each without its line ending (`\n`, or
/// `\r\n`); characters after the last `\n` are no line.
pub open spec fn split_lines(s: Seq<char>) -> Seq<Seq<char>>
    decreases s.len(),
{
    let p = first_of(s, '\n', 0);
    if p < 0 || p >= s.len() {
        Seq::empty()
    } else {
        seq![without_cr(s.subrange(0, p))] + split_lines(s.subrange(p + 1, s.len() as int))
    }
}

proof fn lemma_first_of(t: Seq<char>, c: char, i: int, m: int)
    requires
        0 <= i <= m,
        m <= t.len(),
        forall|j: int| i <= j < m ==> t[j] != c,
        m < t.len() ==> t[m] == c,
    ensures
        first_of(t, c, i) == m,
    decreases m - i,
{
    if i < m {
        lemma_first_of(t, c, i + 1, m);
    }
}

/// The lines of `input`, their line endings (`\n`, optionally preceded by
/// `\r`) left out. Every line must end in one.
pub fn lines_of(input: &str) -> (r: Result<Vec<Vec<char>>, ParseError>)
    ensures
        r is Err <==> input@.len() > 0 && input@.last() != '\n',
        r matches Err(e) ==> e.line >= 1 && e.kind == ParseErrorKind::MissingLineEnding,
        r matches Ok(lines) ==> lines@.len() == split_lines(input@).len() && forall|i: int|
            0 <= i < lines@.len() ==> (#[trigger] lines@[i])@ == split_lines(input@)[i],
        r matches Ok(lines) ==> lines@.len() == newline_count(input@),
{
    let s = chars_of(input);
    let mut lines: Vec<Vec<char>> = Vec::new();
    let mut pos: usize = 0;
    proof {
        assert(s@.subrange(0, s@.len() as int) =~= s@);
    }
    while pos < s.len()
        invariant
            pos <= s@.len(),
            lines@.len() <= pos,
            s@ == input@,
            pos > 0 ==> s@[pos - 1] == '\n',
            lines@.len() == newline_count(s@.take(pos as int)),
            lines@.len() + split_lines(s@.subrange(pos as int, s@.len() as int)).len() == split_lines(s@).len(),
            forall|i: int| 0 <= i < lines@.len() ==> (#[trigger] lines@[i])@ == split_lines(s@)[i],
            forall|i: int| 0 <= i < split_lines(s@.subrange(pos as int, s@.len() as int)).len() ==>
                split_lines(s@)[lines@.len() + i] == #[trigger] split_lines(s@.subrange(pos as int, s@.len() as int))[i],
        decreases s@.len() - pos,
    {
        let mut end = pos;
        while end < s.len() && s[end] != '\n'
            invariant
                pos <= end <= s@.len(),
                forall|m: int| pos <= m < end ==> s@[m] != '\n',
                newline_count(s@.take(end as int)) == newline_count(s@.take(pos as int)),
            decreases s@.len() - end,
        {
            assert(s@.take(end + 1).drop_last() == s@.take(end as int));
            end = end + 1;
        }
        let ghost t = s@.subrange(pos as int, s@.len() as int);
        proof {
            lemma_first_of(t, '\n', 0, end - pos);
        }
        if end == s.len() {
            return Err(ParseError { line: lines.len() + 1, kind: ParseErrorKind::MissingLineEnding });
        }
        assert(s@.take(end + 1).drop_last() == s@.take(end as int));
        let content_end = if end > pos && s[end - 1] == '\r' {
            end - 1
        } else {
            end
        };
        let content = copy_range(&s, pos, content_end);
        let ghost rest = s@.subrange(end + 1, s@.len() as int);
        proof {
            assert(t.subrange(0, end - pos) =~= s@.subrange(pos as int, end as int));
            assert(t.subrange(end - pos + 1, t.len() as int) =~= rest);
            assert(content@ == without_cr(s@.subrange(pos as int, end as int))) by {
                assert(content@ =~= without_cr(s@.subrange(pos as int, end as int)));
            }
            assert(split_lines(t) == seq![content@] + split_lines(rest));
        }
        let ghost before = lines@;
        lines.push(content);
        proof {
            assert forall|i: int| 0 <= i < lines@.len() implies (#[trigger] lines@[i])@ == split_lines(s@)[i] by {
                if i < before.len() {
                    assert(lines@[i] == before[i]);
                } else {
                    assert(split_lines(t)[0] == content@);
                }
            }
            assert forall|i: int| 0 <= i < split_lines(rest).len() implies split_lines(s@)[lines@.len() + i] == #[trigger] split_lines(rest)[i] by {
                assert(split_lines(t)[i + 1] == split_lines(rest)[i]);
            }
        }
        pos = end + 1;
    }
    proof {
        assert(s@.take(pos as int) == s@);
        assert(split_lines(s@.subrange(pos as int, s@.len() as int)).len() == 0);
    }
    Ok(lines)
}

/// Decodes a whole massif file. Every line ends in `\n`, optionally
/// preceded by `\r`; the first line that does not decode ends the reading,
/// with its number (the last line's, when the input stops inside a
/// snapshot's opening lines).
pub fn parse_massif(input: &str) -> (r: Result<Massif, ParseError>)
    ensures
        r matches Err(e) ==> e.line >= 1,
        input@.len() > 0 && input@.last() != '\n' ==> (r matches Err(e) && e.kind
            == ParseErrorKind::MissingLineEnding),
        r matches Err(e) ==> e.kind != ParseErrorKind::Truncated || e.line == split_lines(
            input@,
        ).len(),
        r matches Ok(m) ==> reads_file(input@, m),
        r is Ok <==> decodes(input@),
        r matches Err(e) ==> explains(input@, e),
{
    let lines = match lines_of(input) {
        Ok(lines) => lines,
        Err(e) => return Err(e),
    };
    let mut reader = MassifReader::new();
    let ghost mut states: Seq<MassifReader> = seq![reader];
    let mut k: usize = 0;
    while k < lines.len()
        invariant
            k <= lines@.len(),
            lines@.len() == split_lines(input@).len(),
            forall|i: int| 0 <= i < lines@.len() ==> (#[trigger] lines@[i])@ == split_lines(input@)[i],
            states.len() == k + 1,
            starts_reading(states[0]),
            states.last() == reader,
            forall|i: int| 0 <= i < k ==> MassifReader::feed_post(#[trigger] states[i], split_lines(input@)[i], states[i + 1], Ok(())),
            !(input@.len() > 0 && input@.last() != '\n'),
            reader.phase != Phase::Header ==> k >= 1,
            reader.massif.snapshots@.len() > 0 || reader.phase == Phase::Header || reader.phase
                == Phase::SnapshotId || reader.phase == Phase::SecondSeparator,
        decreases lines@.len() - k,
    {
        let ghost before = reader;
        match reader.feed_line(&lines[k]) {
            Ok(()) => {},
            Err(kind) => {
                proof {
                    let lines_s = split_lines(input@);
                    let failed = states.push(reader);
                    assert(lines@[k as int]@ == lines_s[k as int]);
                    assert forall|i: int| 0 <= i < k implies MassifReader::feed_post(#[trigger] failed[i], lines_s[i], failed[i + 1], Ok(())) by {
                        assert(failed[i] == states[i]);
                        assert(failed[i + 1] == states[i + 1]);
                    }
                    assert(fails_at(lines_s, failed, k as int, kind));
                    assert(fails_reading(input@, k as int, kind));
                    assert(kind != ParseErrorKind::MissingLineEnding && kind != ParseErrorKind::Truncated);
                    if exists|m: Massif| #[trigger] reads_file(input@, m) {
                        let m = choose|m: Massif| #[trigger] reads_file(input@, m);
                        let st2 = choose|st2: Seq<MassifReader>| #[trigger] reads_as(lines_s, st2, m);
                        lemma_runs_agree(lines_s, states, st2, k as int);
                        lemma_feed_deterministic(states[k as int], st2[k as int], lines_s[k as int], reader, st2[k + 1], Err(kind), Ok(()));
                    }
                }
                return Err(ParseError { line: k + 1, kind });
            },
        }
        proof {
            assert(MassifReader::feed_post(before, lines@[k as int]@, reader, Ok(())));
            let old_states = states;
            states = states.push(reader);
            assert forall|i: int| 0 <= i < k + 1 implies MassifReader::feed_post(#[trigger] states[i], split_lines(input@)[i], states[i + 1], Ok(())) by {
                assert(states[i] == old_states[i]);
                if i < k {
                    assert(states[i + 1] == old_states[i + 1]);
                }
            }
        }
        k = k + 1;
    }
    if phase_may_end_exec(reader.phase) {
        let m = reader.massif;
        proof {
            assert(reads_as(split_lines(input@), states, m));
            assert(reads_file(input@, m));
        }
        Ok(m)
    } else {
        proof {
            let lines_s = split_lines(input@);
            assert(states.len() == lines_s.len() + 1);
            if exists|m: Massif| #[trigger] reads_file(input@, m) {
                let m = choose|m: Massif| #[trigger] reads_file(input@, m);
                let st2 = choose|st2: Seq<MassifReader>| #[trigger] reads_as(lines_s, st2, m);
                lemma_runs_agree(lines_s, states, st2, k as int);
            }
            assert(stops_early(input@));
        }
        Err(ParseError { line: k, kind: ParseErrorKind::Truncated })
    }
}

/// Decodes a block of sample lines, each ending in a line ending, into
/// the samples that they denote, in order.
pub fn parse_samples(input: &str) -> (r: Result<Vec<Sample>, ParseError>)
    ensures
        r is Ok <==> !(input@.len() > 0 && input@.last() != '\n') && forall|i: int|
            0 <= i < split_lines(input@).len() ==> sample_fits(#[trigger] split_lines(input@)[i]),
        r matches Err(e) ==> e.line >= 1,
        r matches Ok(samples) ==> samples@.len() == newline_count(input@),
        r matches Ok(samples) ==> samples@.len() == split_lines(input@).len() && forall|i: int|
            0 <= i < samples@.len() ==> decodes_as(split_lines(input@)[i], #[trigger] samples@[i]),
{
    let lines = match lines_of(input) {
        Ok(lines) => lines,
        Err(e) => return Err(e),
    };
    let mut samples: Vec<Sample> = Vec::new();
    let mut k: usize = 0;
    while k < lines.len()
        invariant
            k <= lines@.len(),
            samples@.len() == k,
            lines@.len() == newline_count(input@),
            lines@.len() == split_lines(input@).len(),
            forall|i: int| 0 <= i < lines@.len() ==> (#[trigger] lines@[i])@ == split_lines(input@)[i],
            forall|i: int| #![trigger samples@[i]] 0 <= i < k ==> decodes_as(lines@[i]@, samples@[i]),
            forall|i: int| 0 <= i < k ==> sample_fits(#[trigger] split_lines(input@)[i]),
        decreases lines@.len() - k,
    {
        assert(lines@[k as int]@ == split_lines(input@)[k as int]);
        match sample_at(&lines[k]) {
            Ok(sample) => {
                let ghost before = samples@;
                samples.push(sample);
                assert forall|i: int| #![trigger samples@[i]] 0 <= i < k + 1 implies decodes_as(
                    lines@[i]@,
                    samples@[i],
                ) by {
                    if i < k {
                        assert(samples@[i] == before[i]);
                    } else {
                        assert(samples@[k as int] == sample);
                        assert(decodes_as(lines@[k as int]@, sample));
                    }
                }
            },
            Err(LineError::Malformed) => {
                return Err(ParseError { line: k + 1, kind: ParseErrorKind::Malformed });
            },
            Err(LineError::NumberTooLarge) => {
                return Err(ParseError { line: k + 1, kind: ParseErrorKind::NumberTooLarge });
            },
        }
        k = k + 1;
    }
    proof {
        assert forall|i: int| 0 <= i < samples@.len() implies decodes_as(split_lines(input@)[i], #[trigger] samples@[i]) by {
            assert(lines@[i]@ == split_lines(input@)[i]);
        }
    }
    Ok(samples)
}

fn phase_may_end_exec(p: Phase) -> (r: bool)
    ensures
        r == phase_may_end(p),
{
    match p {
        Phase::Header | Phase::Attributes | Phase::Samples => true,
        _ => false,
    }
}

} // verus!
