//! Reading whole delegation files: which lines are records, and the records
//! of several files without repetition.

use std::collections::HashMap;
use vstd::prelude::*;

use crate::order::Keyed;

use crate::record::{lemma_record_by_view, parse_line, Record, RecordView};
use crate::text::{
    begins_with, copy_range, ends_with, ends_with_text, field_bounds, field_views, split,
    starts_with_text, texts, to_chars,
};

verus! {

/// A line without the carriage return that may end it.
pub open spec fn strip_return(line: Seq<char>) -> Seq<char> {
    if line.len() > 0 && line.last() == '\r' {
        line.drop_last()
    } else {
        line
    }
}

/// The lines of `content`. A line ends at a line feed; a carriage return just
/// before the line feed belongs to the line ending. What follows the last line
/// feed is a line of its own unless it is empty.
pub open spec fn lines(content: Seq<char>) -> Seq<Seq<char>> {
    let parts = split(content, '\n');
    let ended = parts.drop_last().map_values(|line: Seq<char>| strip_return(line));
    if parts.last().len() == 0 {
        ended
    } else {
        ended.push(parts.last())
    }
}

/// A comment line begins with `#`.
pub open spec fn is_comment(line: Seq<char>) -> bool {
    begins_with(line, "#"@)
}

/// A summary line ends with the word `summary`.
pub open spec fn is_summary(line: Seq<char>) -> bool {
    ends_with(line, "summary"@)
}

/// Whether some line of `lines` is no comment. The first such line of a file
/// is its header.
pub open spec fn has_header(lines: Seq<Seq<char>>) -> bool {
    exists|i: int| 0 <= i < lines.len() && !is_comment(#[trigger] lines[i])
}

/// Whether line `i` is read as a record: it is no comment, not the header
/// and no summary line.
pub open spec fn is_data_line(lines: Seq<Seq<char>>, i: int) -> bool {
    &&& !is_comment(lines[i])
    &&& has_header(lines.take(i))
    &&& !is_summary(lines[i])
}

/// `records` with `record` added at the end, unless it is there already.
pub open spec fn with_record(records: Seq<RecordView>, record: RecordView) -> Seq<RecordView> {
    if records.contains(record) {
        records
    } else {
        records.push(record)
    }
}

/// `records` with the records of the data lines of `lines` added in order;
/// a line that writes no record adds nothing.
pub open spec fn with_lines(records: Seq<RecordView>, lines: Seq<Seq<char>>) -> Seq<RecordView>
    decreases lines.len(),
{
    if lines.len() == 0 {
        records
    } else {
        let before = with_lines(records, lines.drop_last());
        let i = lines.len() - 1;
        if is_data_line(lines, i) {
            match parse_line(lines[i]) {
                Ok(record) => with_record(before, record),
                Err(_) => before,
            }
        } else {
            before
        }
    }
}

/// `records` with the records of the files `contents` added, file by file.
pub open spec fn with_files(records: Seq<RecordView>, contents: Seq<Seq<char>>) -> Seq<RecordView>
    decreases contents.len(),
{
    if contents.len() == 0 {
        records
    } else {
        with_lines(with_files(records, contents.drop_last()), lines(contents.last()))
    }
}

/// The values of a sequence of records.
pub open spec fn record_views(records: Seq<Record>) -> Seq<RecordView> {
    records.map_values(|r: Record| r@)
}

/// Adding a record keeps a sequence free of repetitions.
pub proof fn lemma_with_record_no_duplicates(records: Seq<RecordView>, record: RecordView)
    requires
        records.no_duplicates(),
    ensures
        with_record(records, record).no_duplicates(),
        with_record(records, record).contains(record),
        forall|other: RecordView| records.contains(other) ==> with_record(records, record).contains(other),
{
    let out = with_record(records, record);
    if !records.contains(record) {
        assert(out[records.len() as int] == record);
        assert forall|other: RecordView| records.contains(other) implies out.contains(other) by {
            let k = choose|k: int| 0 <= k < records.len() && records[k] == other;
            assert(out[k] == other);
        }
    }
}

/// The records of lines, added to a sequence free of repetitions, leave it
/// free of repetitions.
pub proof fn lemma_with_lines_no_duplicates(records: Seq<RecordView>, lines: Seq<Seq<char>>)
    requires
        records.no_duplicates(),
    ensures
        with_lines(records, lines).no_duplicates(),
    decreases lines.len(),
{
    if lines.len() > 0 {
        lemma_with_lines_no_duplicates(records, lines.drop_last());
        let before = with_lines(records, lines.drop_last());
        if is_data_line(lines, lines.len() - 1) {
            if let Ok(record) = parse_line(lines[lines.len() - 1]) {
                lemma_with_record_no_duplicates(before, record);
            }
        }
    }
}

/// No record occurs twice among the records of a set of files.
pub proof fn lemma_with_files_no_duplicates(contents: Seq<Seq<char>>)
    ensures
        with_files(Seq::<RecordView>::empty(), contents).no_duplicates(),
    decreases contents.len(),
{
    if contents.len() > 0 {
        lemma_with_files_no_duplicates(contents.drop_last());
        lemma_with_lines_no_duplicates(
            with_files(Seq::<RecordView>::empty(), contents.drop_last()),
            lines(contents.last()),
        );
    }
}

/// A line with fewer than seven fields, a comment line, a summary line and
/// the header of a file add no record.
pub proof fn lemma_skipped_lines(records: Seq<RecordView>, lines: Seq<Seq<char>>)
    requires
        lines.len() > 0,
        ({
            let line = lines.last();
            ||| split(line, '|').len() < 7
            ||| is_comment(line)
            ||| is_summary(line)
            ||| !has_header(lines.drop_last())
        }),
    ensures
        with_lines(records, lines) == with_lines(records, lines.drop_last()),
{
    assert(lines.take(lines.len() - 1) =~= lines.drop_last());
}

/// Splits `content` into its lines.
pub fn split_lines(content: &Vec<char>) -> (r: Vec<Vec<char>>)
    ensures
        field_views(r@) == lines(content@),
{
    let bounds = field_bounds(content, '\n');
    let ghost parts = split(content@, '\n');
    let mut out: Vec<Vec<char>> = Vec::new();
    let last: usize = bounds.len() - 1;
    let mut k: usize = 0;
    while k < last
        invariant
            k <= last,
            last == bounds@.len() - 1,
            parts == split(content@, '\n'),
            bounds@.len() == parts.len(),
            forall|j: int|
                0 <= j < bounds@.len() ==> (#[trigger] bounds@[j]).0 <= bounds@[j].1 <= content@.len()
                    && content@.subrange(bounds@[j].0 as int, bounds@[j].1 as int) == parts[j],
            field_views(out@) == parts.take(k as int).map_values(|line: Seq<char>| strip_return(line)),
        decreases last - k,
    {
        let from: usize = bounds[k].0;
        let mut to: usize = bounds[k].1;
        if to > from && content[to - 1] == '\r' {
            to = to - 1;
        }
        let line = copy_range(content, from, to);
        proof {
            let whole = parts[k as int];
            assert(whole == content@.subrange(from as int, bounds@[k as int].1 as int));
            if whole.len() > 0 {
                assert(whole.last() == content@[bounds@[k as int].1 - 1]);
            }
            assert(line@ =~= strip_return(whole));
        }
        let ghost before = field_views(out@);
        out.push(line);
        proof {
            assert(field_views(out@) =~= before.push(strip_return(parts[k as int])));
            assert(parts.take(k + 1).map_values(|line: Seq<char>| strip_return(line))
                =~= parts.take(k as int).map_values(|line: Seq<char>| strip_return(line)).push(
                strip_return(parts[k as int]),
            ));
        }
        k += 1;
    }
    proof {
        assert(parts.take(k as int) =~= parts.drop_last());
    }
    let from: usize = bounds[last].0;
    let to: usize = bounds[last].1;
    if to > from {
        let line = copy_range(content, from, to);
        let ghost before = field_views(out@);
        out.push(line);
        assert(field_views(out@) =~= before.push(parts.last()));
    }
    out
}

/// The number of a record's first address, by which the set finds a record again.
pub open spec fn place_key(record: Record) -> u128 {
    record.sort_key().1
}

/// Records without repetition, in the order in which they were added.
/// Beside the records the set keeps, for each number of a first address,
/// the places of the records that begin there.
pub struct RecordSet {
    records: Vec<Record>,
    places: HashMap<u128, Vec<usize>>,
}

impl View for RecordSet {
    type V = Seq<RecordView>;

    /// The records of the set, in the order in which they were added.
    closed spec fn view(&self) -> Seq<RecordView> {
        record_views(self.records@)
    }
}

impl RecordSet {
    /// The set is sound: every place that is kept holds a record with that
    /// first address, and the place of every record is kept.
    pub closed spec fn wf(&self) -> bool {
        &&& forall|k: u128, j: int|
            self.places@.dom().contains(k) && 0 <= j < self.places@[k]@.len() ==> (
            #[trigger] self.places@[k]@[j]) < self.records@.len() && place_key(
                self.records@[self.places@[k]@[j] as int],
            ) == k
        &&& forall|i: int|
            0 <= i < self.records@.len() ==> self.places@.dom().contains(
                place_key(#[trigger] self.records@[i]),
            ) && self.places@[place_key(self.records@[i])]@.contains(i as usize)
    }

    /// The empty set.
    pub fn new() -> (r: RecordSet)
        ensures
            r.wf(),
            r@ == Seq::<RecordView>::empty(),
    {
        let r = RecordSet { records: Vec::new(), places: HashMap::new() };
        assert(record_views(r.records@) =~= Seq::<RecordView>::empty());
        r
    }

    /// Whether the set holds `record`.
    pub fn contains(&self, record: &Record) -> (r: bool)
        requires
            self.wf(),
        ensures
            r == self@.contains(record@),
    {
        broadcast use vstd::std_specs::hash::group_hash_axioms;

        let key: u128 = record.key().1;
        let count: usize = self.records.len();
        let ghost views = record_views(self.records@);
        match self.places.get(&key) {
            None => {
                proof {
                    if views.contains(record@) {
                        let i = choose|i: int| 0 <= i < views.len() && views[i] == record@;
                        assert(views[i] == self.records@[i]@);
                        lemma_record_by_view(self.records@[i], *record);
                        assert(self.places@.dom().contains(place_key(self.records@[i])));
                        assert(place_key(self.records@[i]) == key);
                    }
                }
                false
            },
            Some(bucket) => {
                let mut j: usize = 0;
                while j < bucket.len()
                    invariant
                        j <= bucket@.len(),
                        self.wf(),
                        count == self.records@.len(),
                        views == record_views(self.records@),
                        key == place_key(*record),
                        self.places@.dom().contains(key),
                        self.places@[key] == *bucket,
                        forall|k: int| 0 <= k < j ==> self.records@[bucket@[k] as int] != *record,
                    decreases bucket@.len() - j,
                {
                    let place: usize = bucket[j];
                    assert(self.places@[key]@[j as int] < self.records@.len());
                    if self.records[place] == *record {
                        assert(views[place as int] == record@);
                        return true;
                    }
                    j += 1;
                }
                proof {
                    if views.contains(record@) {
                        let i = choose|i: int| 0 <= i < views.len() && views[i] == record@;
                        assert(views[i] == self.records@[i]@);
                        lemma_record_by_view(self.records@[i], *record);
                        assert(self.places@[place_key(self.records@[i])]@.contains(i as usize));
                        assert(bucket@.contains(i as usize));
                        let k = choose|k: int| 0 <= k < bucket@.len() && bucket@[k] == i as usize;
                        assert(self.records@[bucket@[k] as int] != *record);
                    }
                }
                false
            },
        }
    }

    /// Adds `record` at the end of the set, unless the set holds it already.
    /// Tells whether the record was added.
    pub fn insert(&mut self, record: Record) -> (r: bool)
        requires
            old(self).wf(),
        ensures
            final(self).wf(),
            final(self)@ == with_record(old(self)@, record@),
            r == !old(self)@.contains(record@),
    {
        broadcast use vstd::std_specs::hash::group_hash_axioms;

        if self.contains(&record) {
            return false;
        }
        let key: u128 = record.key().1;
        let place: usize = self.records.len();
        let ghost before = self.records@;
        let ghost kept = self.places@;
        self.records.push(record);
        let mut bucket: Vec<usize> = match self.places.remove(&key) {
            Some(bucket) => bucket,
            None => Vec::new(),
        };
        let ghost was = bucket@;
        bucket.push(place);
        let ghost now = bucket@;
        self.places.insert(key, bucket);
        proof {
            assert(record_views(self.records@) =~= record_views(before).push(record@));
            assert(self.places@ =~= kept.insert(key, self.places@[key]));
            assert(self.places@[key]@ == now);
            assert(kept.dom().contains(key) ==> kept[key]@ == was);
            assert forall|k: u128, j: int|
                self.places@.dom().contains(k) && 0 <= j < self.places@[k]@.len() implies (
            #[trigger] self.places@[k]@[j]) < self.records@.len() && place_key(
                self.records@[self.places@[k]@[j] as int],
            ) == k by {
                if k == key {
                    if j < was.len() {
                        assert(now[j] == was[j]);
                        assert(kept.dom().contains(key));
                        assert(kept[key]@[j] < before.len());
                        assert(self.records@[was[j] as int] == before[was[j] as int]);
                    } else {
                        assert(now[j] == place);
                    }
                } else {
                    assert(kept.dom().contains(k));
                    assert(kept[k]@[j] < before.len());
                    assert(self.records@[kept[k]@[j] as int] == before[kept[k]@[j] as int]);
                }
            }
            assert forall|i: int| 0 <= i < self.records@.len() implies self.places@.dom().contains(
                place_key(#[trigger] self.records@[i]),
            ) && self.places@[place_key(self.records@[i])]@.contains(i as usize) by {
                if i < before.len() {
                    assert(self.records@[i] == before[i]);
                    let k = place_key(before[i]);
                    assert(kept.dom().contains(k));
                    assert(kept[k]@.contains(i as usize));
                    if k == key {
                        let at = choose|at: int| 0 <= at < was.len() && was[at] == i as usize;
                        assert(now[at] == i as usize);
                    }
                } else {
                    assert(now[was.len() as int] == place);
                }
            }
        }
        true
    }

    /// The number of records in the set.
    pub fn len(&self) -> (r: usize)
        ensures
            r == self@.len(),
    {
        self.records.len()
    }

    /// The records of the set, in the order in which they were added.
    pub fn into_records(self) -> (r: Vec<Record>)
        ensures
            record_views(r@) == self@,
    {
        self.records
    }
}

/// Adds the records of one file to `records`: every data line that writes a
/// record adds it, unless `records` holds it already. Comment lines, the
/// first other line (the header), summary lines and lines that write no
/// record are passed over.
pub fn parse_content(content: &str, records: &mut RecordSet)
    requires
        old(records).wf(),
    ensures
        final(records).wf(),
        final(records)@ == with_lines(old(records)@, lines(content@)),
{
    let chars = to_chars(content);
    let all = split_lines(&chars);
    let ghost texts = lines(content@);
    let ghost start = records@;
    let mut seen_header: bool = false;
    let mut i: usize = 0;
    proof {
        assert(texts.take(0) =~= Seq::<Seq<char>>::empty());
    }
    while i < all.len()
        invariant
            i <= all.len(),
            texts == field_views(all@),
            seen_header == has_header(texts.take(i as int)),
            records.wf(),
            records@ == with_lines(start, texts.take(i as int)),
        decreases all.len() - i,
    {
        let line = &all[i];
        let ghost upto = texts.take(i as int);
        let ghost next = texts.take(i + 1);
        proof {
            assert(next.drop_last() =~= upto);
            assert(next.last() == line@);
            assert(next.take(next.len() - 1) =~= upto);
            assert(next[i as int] == line@);
        }
        let comment: bool = starts_with_text(line, "#");
        if !comment && seen_header && !ends_with_text(line, "summary") {
            if let Ok(record) = Record::from_chars(line) {
                records.insert(record);
            }
        }
        proof {
            if !comment {
                assert(!is_comment(next[i as int]));
                assert(has_header(next));
            } else if has_header(next) {
                let j = choose|j: int| 0 <= j < next.len() && !is_comment(#[trigger] next[j]);
                assert(j < i);
                assert(upto[j] == next[j]);
            } else if has_header(upto) {
                let j = choose|j: int| 0 <= j < upto.len() && !is_comment(#[trigger] upto[j]);
                assert(next[j] == upto[j]);
            }
        }
        if !comment {
            seen_header = true;
        }
        i += 1;
    }
    proof {
        assert(texts.take(i as int) =~= texts);
    }
}

/// The records of the files `contents`, read file by file and line by line,
/// each record once, in the order of first occurrence.
pub fn parse(contents: &Vec<String>) -> (r: Vec<Record>)
    ensures
        record_views(r@) == with_files(Seq::<RecordView>::empty(), texts(contents@)),
        record_views(r@).no_duplicates(),
{
    let mut records = RecordSet::new();
    let ghost all = texts(contents@);
    let mut i: usize = 0;
    proof {
        assert(all.take(0) =~= Seq::<Seq<char>>::empty());
    }
    while i < contents.len()
        invariant
            i <= contents.len(),
            all == texts(contents@),
            records.wf(),
            records@ == with_files(Seq::<RecordView>::empty(), all.take(i as int)),
        decreases contents.len() - i,
    {
        proof {
            assert(all.take(i + 1).drop_last() =~= all.take(i as int));
            assert(all.take(i + 1).last() == contents@[i as int]@);
        }
        parse_content(contents[i].as_str(), &mut records);
        i += 1;
    }
    proof {
        assert(all.take(i as int) =~= all);
        lemma_with_files_no_duplicates(all);
    }
    records.into_records()
}

} // verus!
