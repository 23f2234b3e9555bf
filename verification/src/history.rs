//! Run-length-compressed, frame-indexed time series.
//!
//! A `History<T>` stores one value per frame, inserted in order, and
//! compresses long runs of identical values into a single constant
//! record.  Reading back is completely independent of how the values
//! were compressed: `get` always returns exactly what was inserted.

use vstd::prelude::*;

verus! {

pub type FrameIndex = usize;

/// Value types storable in a history.  `value_eq` must decide exact
/// (structural) equality, since the compressor substitutes one value
/// of a run for every frame of the run.
pub trait HistoryValue: Sized {
    fn value_eq(&self, other: &Self) -> (r: bool)
        ensures
            r == (*self == *other),
    ;
}

impl HistoryValue for u64 {
    fn value_eq(&self, other: &Self) -> (r: bool) {
        *self == *other
    }
}

impl HistoryValue for i64 {
    fn value_eq(&self, other: &Self) -> (r: bool) {
        *self == *other
    }
}

/// The number of repetitions inside a variable record that will cause
/// the creation of a constant record.
pub const CONVERSION_THRESHOLD: usize = 5;

/// Longest variable record kept before it is force-terminated.
pub const MAXIMUM_RECORD_LENGTH: usize = 256;

#[derive(Clone)]
pub(crate) enum Record<T> {
    Constant { start: FrameIndex, finish: FrameIndex, value: T },
    Variable { start: FrameIndex, values: Vec<T> },
}

impl<T: Copy> Record<T> {
    pub(crate) open spec fn spec_start(self) -> int {
        match self {
            Record::Constant { start, .. } => start as int,
            Record::Variable { start, .. } => start as int,
        }
    }

    pub(crate) open spec fn spec_finish(self) -> int {
        match self {
            Record::Constant { finish, .. } => finish as int,
            Record::Variable { start, values } => start + values.len(),
        }
    }

    pub(crate) open spec fn wf(self) -> bool {
        &&& self.spec_start() < self.spec_finish()
        &&& self.spec_finish() <= usize::MAX
    }

    /// The value recorded for frame `f`, if `f` lies in this record.
    pub(crate) open spec fn at_opt(self, f: int) -> Option<T> {
        if self.spec_start() <= f < self.spec_finish() {
            match self {
                Record::Constant { value, .. } => Some(value),
                Record::Variable { start, values } => Some(values[f - start]),
            }
        } else {
            None
        }
    }

    pub(crate) fn new(start: FrameIndex, value: T) -> (r: Record<T>)
        requires
            start < usize::MAX,
        ensures
            r == (Record::Constant { start, finish: (start + 1) as usize, value }),
    {
        Record::Constant { start, finish: start + 1, value }
    }

    pub(crate) fn start(&self) -> (r: FrameIndex)
        ensures
            r == self.spec_start(),
    {
        match self {
            Record::Constant { start, .. } => *start,
            Record::Variable { start, .. } => *start,
        }
    }

    pub(crate) fn finish(&self) -> (r: FrameIndex)
        requires
            self.wf(),
        ensures
            r == self.spec_finish(),
    {
        match self {
            Record::Constant { finish, .. } => *finish,
            Record::Variable { start, values } => *start + values.len(),
        }
    }

    pub(crate) fn is_empty(&self) -> (r: bool)
        requires
            self.wf(),
        ensures
            r == (self.spec_start() >= self.spec_finish()),
    {
        self.start() >= self.finish()
    }

    pub(crate) fn get(&self, index: FrameIndex) -> (r: Option<T>)
        requires
            self.wf(),
        ensures
            r == self.at_opt(index as int),
    {
        if self.start() <= index && index < self.finish() {
            match self {
                Record::Constant { value, .. } => Some(*value),
                Record::Variable { start, values } => Some(values[index - *start]),
            }
        } else {
            None
        }
    }
}

/// The frame lookup over the pair that `Record::extend` returns: the
/// split-off record (if any) takes precedence, the updated record
/// answers the rest.
pub(crate) open spec fn ext_at<T: Copy>(upd: Record<T>, extra: Option<Record<T>>, f: int) -> Option<
    T,
> {
    match extra {
        Some(nr) => if nr.at_opt(f) is Some {
            nr.at_opt(f)
        } else {
            upd.at_opt(f)
        },
        None => upd.at_opt(f),
    }
}

/// Length of the run of elements equal to `x` at the end of `s`.
pub open spec fn trailing_run<T>(s: Seq<T>, x: T) -> int
    decreases s.len(),
{
    if s.len() == 0 {
        0
    } else if s.last() == x {
        1 + trailing_run(s.drop_last(), x)
    } else {
        0
    }
}

pub(crate) proof fn lemma_trailing_run<T>(s: Seq<T>, x: T)
    ensures
        0 <= trailing_run(s, x) <= s.len(),
        forall|j: int| s.len() - trailing_run(s, x) <= j < s.len() ==> s[j] == x,
        trailing_run(s, x) < s.len() ==> s[s.len() - trailing_run(s, x) - 1] != x,
    decreases s.len(),
{
    if s.len() > 0 && s.last() == x {
        lemma_trailing_run(s.drop_last(), x);
        assert forall|j: int| s.len() - trailing_run(s, x) <= j < s.len() implies s[j] == x by {
            if j < s.len() - 1 {
                assert(s.drop_last()[j] == x);
            }
        }
        if trailing_run(s, x) < s.len() {
            assert(s.drop_last()[s.len() - trailing_run(s, x) - 1] != x);
        }
    }
}

pub(crate) proof fn lemma_trailing_run_at_least<T>(s: Seq<T>, x: T, c: int)
    requires
        0 <= c <= s.len(),
        forall|j: int| s.len() - c <= j < s.len() ==> s[j] == x,
    ensures
        trailing_run(s, x) >= c,
    decreases c,
{
    if c > 0 {
        assert(s.last() == x);
        assert forall|j: int| s.drop_last().len() - (c - 1) <= j < s.drop_last().len() implies s.drop_last()[j]
            == x by {
            assert(s[j] == x);
        }
        lemma_trailing_run_at_least(s.drop_last(), x, c - 1);
    } else {
        lemma_trailing_run(s, x);
    }
}

impl<T: Copy + HistoryValue> Record<T> {
    fn count_trailing(values: &Vec<T>, entry: &T) -> (c: usize)
        ensures
            c == trailing_run(values@, *entry),
            c <= values@.len(),
    {
        let mut c: usize = 0;
        let mut stop: bool = false;
        let ghost s = values@;
        while !stop
            invariant
                0 <= c <= s.len(),
                s == values@,
                forall|j: int| s.len() - c <= j < s.len() ==> s[j] == *entry,
                stop ==> (c == s.len() || s[s.len() - 1 - c] != *entry),
            decreases s.len() - c + (if stop {
                0int
            } else {
                1int
            }),
        {
            if c == values.len() {
                stop = true;
            } else if !values[values.len() - 1 - c].value_eq(entry) {
                stop = true;
            } else {
                c = c + 1;
            }
        }
        proof {
            lemma_trailing_run(s, *entry);
            lemma_trailing_run_at_least(s, *entry, c as int);
            if c < s.len() && trailing_run(s, *entry) > c {
                assert(s[s.len() - 1 - c] == *entry);
            }
        }
        c
    }

    /// Append `entry` at this record's `finish` frame, compressing runs
    /// of equal values and splitting when the record cannot grow.
    pub(crate) fn extend(self, entry: T) -> (res: (Record<T>, Option<Record<T>>))
        requires
            self.wf(),
            self.spec_finish() < usize::MAX,
        ensures
            res.0.wf(),
            res.0.spec_start() == self.spec_start(),
            match res.1 {
                None => res.0.spec_finish() == self.spec_finish() + 1,
                Some(nr) => {
                    &&& nr.wf()
                    &&& res.0.spec_finish() <= nr.spec_start()
                    &&& nr.spec_finish() == self.spec_finish() + 1
                },
            },
            forall|f: int|
                #[trigger] ext_at(res.0, res.1, f) == (if f == self.spec_finish() {
                    Some(entry)
                } else {
                    self.at_opt(f)
                }),
            // Extending a constant run with its own value just bumps
            // its finish and splits nothing off.
            self matches Record::Constant { start, finish, value } ==> (value == entry ==> res
                == ((
            Record::Constant { start, finish: (finish + 1) as usize, value: entry },
            None::<Record<T>>,
            ))),
            // A one-frame constant run extended with a different value
            // becomes a two-value variable record in place.
            self matches Record::Constant { start, finish, value } ==> ((value != entry && finish
                == start + 1) ==> (res.0 matches Record::Variable { start: s2, values: v2 } && s2
                == start && v2@ =~= seq![value, entry] && res.1 is None)),
            // Appending to a variable record below both the promotion
            // and length limits just pushes the value.
            self matches Record::Variable { start, values } ==> ((!(values@.len()
                >= CONVERSION_THRESHOLD && trailing_run(values@, entry) + 1 >= CONVERSION_THRESHOLD)
                && values@.len() <= MAXIMUM_RECORD_LENGTH) ==> (res.0 matches Record::Variable {
                start: s2,
                values: v2,
            } && s2 == start && v2@ =~= values@.push(entry) && res.1 is None)),
            // A trailing run reaching the promotion threshold converts
            // to a trailing constant record: wholesale when the whole
            // record was the run, else by splitting it off.
            self matches Record::Variable { start, values } ==> ((values@.len()
                >= CONVERSION_THRESHOLD && trailing_run(values@, entry) + 1 >= CONVERSION_THRESHOLD
                && trailing_run(values@, entry) == values@.len()) ==> res == ((
            Record::Constant {
                start,
                finish: (start + values@.len() + 1) as usize,
                value: entry,
            },
            None::<Record<T>>,
            ))),
            self matches Record::Variable { start, values } ==> ((values@.len()
                >= CONVERSION_THRESHOLD && trailing_run(values@, entry) + 1 >= CONVERSION_THRESHOLD
                && trailing_run(values@, entry) < values@.len()) ==> (res.0
                matches Record::Variable { start: s2, values: v2 } && s2 == start && v2@
                =~= values@.take(values@.len() - trailing_run(values@, entry)) && res.1 == Some(
                Record::Constant {
                    start: (start + values@.len() - trailing_run(values@, entry)) as usize,
                    finish: (start + values@.len() + 1) as usize,
                    value: entry,
                },
            ))),
            // A variable record past the length cap is left as is and
            // the new value starts a fresh constant record.
            self matches Record::Variable { start, values } ==> ((!(values@.len()
                >= CONVERSION_THRESHOLD && trailing_run(values@, entry) + 1 >= CONVERSION_THRESHOLD)
                && values@.len() > MAXIMUM_RECORD_LENGTH) ==> (res.0 matches Record::Variable {
                start: s2,
                values: v2,
            } && s2 == start && v2@ == values@ && res.1 == Some(
                Record::Constant {
                    start: (start + values@.len()) as usize,
                    finish: (start + values@.len() + 1) as usize,
                    value: entry,
                },
            ))),
    {
        match self {
            Record::Constant { start, finish, value } => {
                if value.value_eq(&entry) {
                    (Record::Constant { start, finish: finish + 1, value }, None)
                } else if finish - start == 1 {
                    let mut values: Vec<T> = Vec::new();
                    values.push(value);
                    values.push(entry);
                    (Record::Variable { start, values }, None)
                } else {
                    (Record::Constant { start, finish, value }, Some(Record::new(finish, entry)))
                }
            },
            Record::Variable { start, values } => {
                let mut values = values;
                let ghost old_vals = values@;
                if values.len() >= CONVERSION_THRESHOLD {
                    let count = Self::count_trailing(&values, &entry);
                    proof {
                        lemma_trailing_run(old_vals, entry);
                    }
                    if count + 1 >= CONVERSION_THRESHOLD {
                        if values.len() == count {
                            let new_finish = start + values.len() + 1;
                            return (
                                Record::Constant { start, finish: new_finish, value: entry },
                                None,
                            );
                        } else {
                            let keep = values.len() - count;
                            values.truncate(keep);
                            let new_start = start + keep;
                            let new_finish = new_start + count + 1;
                            return (
                                Record::Variable { start, values },
                                Some(
                                    Record::Constant {
                                        start: new_start,
                                        finish: new_finish,
                                        value: entry,
                                    },
                                ),
                            );
                        }
                    }
                }
                if values.len() > MAXIMUM_RECORD_LENGTH {
                    let new_start = start + values.len();
                    (Record::Variable { start, values }, Some(Record::new(new_start, entry)))
                } else {
                    values.push(entry);
                    (Record::Variable { start, values }, None)
                }
            },
        }
    }
}

/// Records in ascending frame order, non-overlapping, possibly with
/// gaps between them.
pub(crate) open spec fn sorted_wf<T: Copy>(s: Seq<Record<T>>) -> bool {
    &&& forall|i: int| 0 <= i < s.len() ==> (#[trigger] s[i]).wf()
    &&& forall|i: int|
        0 <= i && i + 1 < s.len() ==> (#[trigger] s[i]).spec_finish() <= s[i + 1].spec_start()
}

/// The value stored for frame `f` by a sequence of records.
pub(crate) open spec fn recs_at<T: Copy>(s: Seq<Record<T>>, f: int) -> Option<T>
    decreases s.len(),
{
    if s.len() == 0 {
        None
    } else if s.last().at_opt(f) is Some {
        s.last().at_opt(f)
    } else {
        recs_at(s.drop_last(), f)
    }
}

pub(crate) proof fn lemma_recs_at_none<T: Copy>(s: Seq<Record<T>>, f: int)
    requires
        forall|i: int| 0 <= i < s.len() ==> (#[trigger] s[i]).at_opt(f) is None,
    ensures
        recs_at(s, f) is None,
    decreases s.len(),
{
    if s.len() > 0 {
        assert(s[s.len() - 1].at_opt(f) is None);
        assert forall|i: int| 0 <= i < s.drop_last().len() implies (#[trigger] s.drop_last()[i]).at_opt(
            f,
        ) is None by {
            assert(s[i].at_opt(f) is None);
        }
        lemma_recs_at_none(s.drop_last(), f);
    }
}

pub(crate) proof fn lemma_recs_at_here<T: Copy>(s: Seq<Record<T>>, f: int, i: int)
    requires
        0 <= i < s.len(),
        s[i].at_opt(f) is Some,
        forall|j: int| 0 <= j < s.len() && j != i ==> (#[trigger] s[j]).at_opt(f) is None,
    ensures
        recs_at(s, f) == s[i].at_opt(f),
    decreases s.len(),
{
    if i == s.len() - 1 {
        assert(s.last().at_opt(f) is Some);
    } else {
        assert(s[s.len() - 1].at_opt(f) is None);
        assert forall|j: int|
            0 <= j < s.drop_last().len() && j != i implies (#[trigger] s.drop_last()[j]).at_opt(f) is None by {
            assert(s[j].at_opt(f) is None);
        }
        lemma_recs_at_here(s.drop_last(), f, i);
    }
}

/// In a sorted record sequence at most one record holds any frame, so
/// a record holding `f` answers `recs_at`.
pub(crate) proof fn lemma_recs_at_sorted<T: Copy>(s: Seq<Record<T>>, f: int, i: int)
    requires
        sorted_wf(s),
        0 <= i < s.len(),
        s[i].at_opt(f) is Some,
    ensures
        recs_at(s, f) == s[i].at_opt(f),
{
    assert forall|j: int| 0 <= j < s.len() && j != i implies (#[trigger] s[j]).at_opt(f) is None by {
        if j < i {
            lemma_sorted_order(s, j, i);
        } else {
            lemma_sorted_order(s, i, j);
        }
    }
    lemma_recs_at_here(s, f, i);
}

pub(crate) proof fn lemma_sorted_order<T: Copy>(s: Seq<Record<T>>, i: int, j: int)
    requires
        sorted_wf(s),
        0 <= i < j < s.len(),
    ensures
        s[i].spec_finish() <= s[j].spec_start(),
        s[i].spec_start() < s[j].spec_start(),
    decreases j - i,
{
    if j == i + 1 {
    } else {
        lemma_sorted_order(s, i, j - 1);
        assert(s[j - 1].spec_finish() <= s[j].spec_start());
    }
}

/// If `recs_at` finds a value, some record holds the frame.
pub(crate) proof fn lemma_recs_at_exists<T: Copy>(s: Seq<Record<T>>, f: int)
    requires
        recs_at(s, f) is Some,
    ensures
        exists|i: int| 0 <= i < s.len() && (#[trigger] s[i]).at_opt(f) == recs_at(s, f),
    decreases s.len(),
{
    if s.len() > 0 {
        if s.last().at_opt(f) is Some {
            assert(s[s.len() - 1].at_opt(f) == recs_at(s, f));
        } else {
            lemma_recs_at_exists(s.drop_last(), f);
            let i = choose|i: int|
                0 <= i < s.drop_last().len() && (#[trigger] s.drop_last()[i]).at_opt(f) == recs_at(
                    s.drop_last(),
                    f,
                );
            assert(s[i].at_opt(f) == recs_at(s, f));
        }
    }
}

/// The storage cost of one record: one slot for the record itself
/// plus one per explicitly stored value.  A constant record costs a
/// single slot however many frames it covers; a variable record pays
/// per frame.
pub(crate) open spec fn rec_storage<T>(r: Record<T>) -> int {
    match r {
        Record::Constant { .. } => 1,
        Record::Variable { values, .. } => 1 + values.len(),
    }
}

pub(crate) open spec fn storage_of<T>(s: Seq<Record<T>>) -> int
    decreases s.len(),
{
    if s.len() == 0 {
        0
    } else {
        storage_of(s.drop_last()) + rec_storage(s.last())
    }
}

pub(crate) proof fn lemma_storage_take_step<T>(s: Seq<Record<T>>, i: int)
    requires
        0 <= i < s.len(),
    ensures
        storage_of(s.take(i + 1)) == storage_of(s.take(i)) + rec_storage(s[i]),
{
    assert(s.take(i + 1).drop_last() =~= s.take(i));
    assert(s.take(i + 1).last() == s[i]);
}

pub(crate) proof fn lemma_storage_bounds<T>(s: Seq<Record<T>>, i: int)
    requires
        0 <= i <= s.len(),
    ensures
        0 <= storage_of(s.take(i)) <= storage_of(s),
    decreases s.len() - i,
{
    if i == s.len() {
        assert(s.take(i) =~= s);
        lemma_storage_nonneg(s);
    } else {
        lemma_storage_take_step(s, i);
        lemma_storage_bounds(s, i + 1);
        lemma_storage_nonneg(s.take(i));
        assert(rec_storage(s[i]) >= 0);
    }
}

/// Replacing the last record changes storage by the difference of
/// the two records' costs.
pub(crate) proof fn lemma_storage_update_last<T>(s: Seq<Record<T>>, upd: Record<T>)
    requires
        s.len() > 0,
    ensures
        storage_of(s.update(s.len() - 1, upd)) == storage_of(s) - rec_storage(s.last())
            + rec_storage(upd),
{
    let t = s.update(s.len() - 1, upd);
    assert(t.drop_last() =~= s.drop_last());
    assert(t.last() == upd);
}

/// Appending a record adds its cost.
pub(crate) proof fn lemma_storage_push<T>(s: Seq<Record<T>>, nr: Record<T>)
    ensures
        storage_of(s.push(nr)) == storage_of(s) + rec_storage(nr),
{
    assert(s.push(nr).drop_last() =~= s);
}

pub(crate) proof fn lemma_storage_nonneg<T>(s: Seq<Record<T>>)
    ensures
        storage_of(s) >= 0,
    decreases s.len(),
{
    if s.len() > 0 {
        lemma_storage_nonneg(s.drop_last());
    }
}

/// A run-length-compressed, frame-indexed time series.
#[derive(Clone)]
pub struct History<T> {
    data: Vec<Record<T>>,
}

impl<T: Copy> History<T> {
    /// Well-formed: records sorted by frame, non-empty, non-overlapping.
    pub closed spec fn wf(self) -> bool {
        sorted_wf(self.data@)
    }

    /// The value recorded for frame `f`, or `None` if `f` was never
    /// inserted.  This is the whole observable content of a history.
    pub closed spec fn value_at(self, f: int) -> Option<T> {
        recs_at(self.data@, f)
    }

    pub fn default() -> (r: History<T>)
        ensures
            r.wf(),
            r.spec_records() == 0,
            forall|f: int| #[trigger] r.value_at(f) is None,
    {
        let r = History { data: Vec::new() };
        proof {
            assert forall|f: int| #[trigger] r.value_at(f) is None by {
                lemma_recs_at_none(r.data@, f);
            }
        }
        r
    }

    /// How many records the compressor currently keeps.
    pub closed spec fn spec_records(self) -> int {
        self.data@.len() as int
    }

    /// The memory cost of the store, in slots: one per record plus
    /// one per explicitly stored value, so a constant run costs a
    /// single slot however long it is.
    pub closed spec fn spec_storage(self) -> int {
        storage_of(self.data@)
    }

    /// Whether the store's trailing record is a constant run ending
    /// (exclusively) at `finish` holding `v`: the state in which the
    /// next insertion of `v` costs no new record.
    pub closed spec fn tail_constant(self, finish: int, v: T) -> bool {
        &&& self.data@.len() > 0
        &&& match self.data@.last() {
            Record::Constant { finish: f, value, .. } => f == finish && value == v,
            Record::Variable { .. } => false,
        }
    }

    /// As `tail_constant`, with the run's start exposed too.
    pub closed spec fn tail_constant_run(self, start: int, finish: int, v: T) -> bool {
        &&& self.data@.len() > 0
        &&& match self.data@.last() {
            Record::Constant { start: s, finish: f, value } => s == start && f == finish && value
                == v,
            Record::Variable { .. } => false,
        }
    }

    /// Whether the store's trailing record is a variable record
    /// starting at `start` holding exactly `vals`.
    pub closed spec fn tail_variable(self, start: int, vals: Seq<T>) -> bool {
        &&& self.data@.len() > 0
        &&& match self.data@.last() {
            Record::Variable { start: s, values } => s == start && values@ == vals,
            Record::Constant { .. } => false,
        }
    }


    pub fn records(&self) -> (r: usize)
        ensures
            r as int == self.spec_records(),
    {
        self.data.len()
    }

    /// The memory the store holds, in slots (`spec_storage`): one per
    /// record plus one per explicitly stored value.  This is the
    /// measure run-length compression keeps small: a constant run of
    /// any length costs a single slot.
    pub fn size(&self) -> (r: usize)
        requires
            self.wf(),
        ensures
            self.spec_storage() <= usize::MAX ==> r as int == self.spec_storage(),
    {
        let ghost s = self.data@;
        let mut total: usize = 0;
        let mut i: usize = 0;
        while i < self.data.len()
            invariant
                self.wf(),
                s == self.data@,
                i <= s.len(),
                storage_of(s) <= usize::MAX ==> total as int == storage_of(s.take(i as int)),
            decreases s.len() - i,
        {
            let slots: usize = match &self.data[i] {
                Record::Constant { .. } => 1,
                Record::Variable { values, .. } => {
                    let lv = values.len();
                    if lv < usize::MAX {
                        1 + lv
                    } else {
                        usize::MAX
                    }
                },
            };
            proof {
                lemma_storage_take_step(s, i as int);
                lemma_storage_bounds(s, i as int + 1);
                lemma_storage_nonneg(s.take(i as int));
                if storage_of(s) <= usize::MAX {
                    assert(rec_storage(s[i as int]) <= usize::MAX);
                    assert(slots as int == rec_storage(s[i as int]));
                }
            }
            total = if usize::MAX - total >= slots {
                total + slots
            } else {
                usize::MAX
            };
            i = i + 1;
        }
        proof {
            assert(s.take(s.len() as int) =~= s);
        }
        total
    }

    /// Binary search over record start frames, then a lookup within
    /// the record found.
    pub fn get(&self, index: FrameIndex) -> (r: Option<T>)
        requires
            self.wf(),
        ensures
            r == self.value_at(index as int),
    {
        let ghost s = self.data@;
        if self.data.len() == 0 {
            proof {
                lemma_recs_at_none(s, index as int);
            }
            return None;
        }
        // Find the first record whose start frame exceeds `index`.
        let mut lo: usize = 0;
        let mut hi: usize = self.data.len();
        while lo < hi
            invariant
                self.wf(),
                s == self.data@,
                0 <= lo <= hi <= s.len(),
                forall|i: int| 0 <= i < lo ==> (#[trigger] s[i]).spec_start() <= index,
                forall|i: int| hi <= i < s.len() ==> (#[trigger] s[i]).spec_start() > index,
            decreases hi - lo,
        {
            let mid = lo + (hi - lo) / 2;
            if self.data[mid].start() <= index {
                proof {
                    assert forall|i: int| 0 <= i < mid + 1 implies (#[trigger] s[i]).spec_start()
                        <= index by {
                        if i < mid {
                            lemma_sorted_order(s, i, mid as int);
                        }
                    }
                }
                lo = mid + 1;
            } else {
                proof {
                    assert forall|i: int| mid <= i < s.len() implies (#[trigger] s[i]).spec_start()
                        > index by {
                        if i > mid {
                            lemma_sorted_order(s, mid as int, i);
                        }
                    }
                }
                hi = mid;
            }
        }
        if lo == 0 {
            proof {
                assert forall|i: int| 0 <= i < s.len() implies (#[trigger] s[i]).at_opt(
                    index as int,
                ) is None by {}
                lemma_recs_at_none(s, index as int);
            }
            return None;
        }
        let c = lo - 1;
        let r = self.data[c].get(index);
        proof {
            if r is Some {
                lemma_recs_at_sorted(s, index as int, c as int);
            } else {
                assert forall|i: int| 0 <= i < s.len() implies (#[trigger] s[i]).at_opt(
                    index as int,
                ) is None by {
                    if i < c {
                        lemma_sorted_order(s, i, c as int);
                    }
                }
                lemma_recs_at_none(s, index as int);
            }
        }
        r
    }
}

/// Inserting a fresh one-frame record between records that all finish
/// before it and records that all start after it preserves sortedness
/// and adds exactly one frame.
pub(crate) proof fn lemma_insert_fresh<T: Copy>(s: Seq<Record<T>>, i: int, index: usize, entry: T)
    requires
        sorted_wf(s),
        0 <= i <= s.len(),
        index < usize::MAX,
        forall|j: int| 0 <= j < i ==> (#[trigger] s[j]).spec_finish() < index,
        forall|j: int| i <= j < s.len() ==> (#[trigger] s[j]).spec_start() > index,
    ensures
        sorted_wf(
            s.insert(i, Record::Constant { start: index, finish: (index + 1) as usize, value: entry }),
        ),
        recs_at(s, index as int) is None,
        forall|f: int|
            #[trigger] recs_at(
                s.insert(
                    i,
                    Record::Constant {
                        start: index,
                        finish: (index + 1) as usize,
                        value: entry,
                    },
                ),
                f,
            ) == (if f == index as int {
                Some(entry)
            } else {
                recs_at(s, f)
            }),
{
    let nr = Record::Constant { start: index, finish: (index + 1) as usize, value: entry };
    let t = s.insert(i, nr);
    s.insert_ensures(i, nr);
    assert forall|j: int| 0 <= j < s.len() implies (#[trigger] s[j]).at_opt(index as int) is None by {}
    lemma_recs_at_none(s, index as int);
    assert(sorted_wf(t)) by {
        assert forall|a: int| 0 <= a && a + 1 < t.len() implies (#[trigger] t[a]).spec_finish()
            <= t[a + 1].spec_start() by {
            if a + 1 < i {
                assert(t[a] == s[a] && t[a + 1] == s[a + 1]);
            } else if a + 1 == i {
                assert(t[a] == s[a] && t[a + 1] == nr);
            } else if a == i {
                assert(t[a] == nr && t[a + 1] == s[a]);
            } else {
                assert(t[a] == s[a - 1] && t[a + 1] == s[a]);
            }
        }
        assert forall|a: int| 0 <= a < t.len() implies (#[trigger] t[a]).wf() by {
            if a < i {
                assert(t[a] == s[a]);
            } else if a > i {
                assert(t[a] == s[a - 1]);
            }
        }
    }
    assert forall|f: int| #[trigger] recs_at(t, f) == (if f == index as int {
        Some(entry)
    } else {
        recs_at(s, f)
    }) by {
        if f == index as int {
            assert(t[i].at_opt(f) == Some(entry));
            lemma_recs_at_sorted(t, f, i);
        } else if recs_at(s, f) is Some {
            lemma_recs_at_exists(s, f);
            let j = choose|j: int|
                0 <= j < s.len() && (#[trigger] s[j]).at_opt(f) == recs_at(s, f);
            let j2: int = if j < i {
                j
            } else {
                j + 1
            };
            assert(t[j2] == s[j]);
            lemma_recs_at_sorted(t, f, j2);
        } else {
            assert forall|j: int| 0 <= j < s.len() implies (#[trigger] s[j]).at_opt(f) is None by {
                if s[j].at_opt(f) is Some {
                    lemma_recs_at_sorted(s, f, j);
                }
            }
            assert forall|a: int| 0 <= a < t.len() implies (#[trigger] t[a]).at_opt(f) is None by {
                if a < i {
                    assert(t[a] == s[a]);
                } else if a > i {
                    assert(t[a] == s[a - 1]);
                }
            }
            lemma_recs_at_none(t, f);
        }
    }
}

pub(crate) open spec fn extend_result_seq<T: Copy>(
    s: Seq<Record<T>>,
    i: int,
    upd: Record<T>,
    extra: Option<Record<T>>,
) -> Seq<Record<T>> {
    match extra {
        None => s.update(i, upd),
        Some(nr) => s.update(i, upd).insert(i + 1, nr),
    }
}

/// Replacing record `i` (which finishes exactly at `index`) by the
/// output of `Record::extend` adds exactly the frame `index`.
#[verifier::rlimit(60)]
pub(crate) proof fn lemma_extend_replace<T: Copy>(
    s: Seq<Record<T>>,
    i: int,
    index: usize,
    entry: T,
    upd: Record<T>,
    extra: Option<Record<T>>,
)
    requires
        sorted_wf(s),
        0 <= i < s.len(),
        s[i].spec_finish() == index,
        forall|j: int| i < j < s.len() ==> (#[trigger] s[j]).spec_start() > index,
        upd.wf(),
        upd.spec_start() == s[i].spec_start(),
        match extra {
            None => upd.spec_finish() == s[i].spec_finish() + 1,
            Some(nr) => {
                &&& nr.wf()
                &&& upd.spec_finish() <= nr.spec_start()
                &&& nr.spec_finish() == s[i].spec_finish() + 1
            },
        },
        forall|f: int|
            #[trigger] ext_at(upd, extra, f) == (if f == s[i].spec_finish() {
                Some(entry)
            } else {
                s[i].at_opt(f)
            }),
    ensures
        sorted_wf(extend_result_seq(s, i, upd, extra)),
        recs_at(s, index as int) is None,
        forall|f: int|
            #[trigger] recs_at(extend_result_seq(s, i, upd, extra), f) == (if f == index as int {
                Some(entry)
            } else {
                recs_at(s, f)
            }),
{
    let t = extend_result_seq(s, i, upd, extra);
    if extra is Some {
        s.update(i, upd).insert_ensures(i + 1, extra->Some_0);
    }
    // Where each old record sits in the new sequence, and where the
    // new records sit.
    assert(t[i] == upd);
    assert forall|j: int| 0 <= j < s.len() && j != i implies t[if j < i {
        j
    } else if extra is Some {
        j + 1
    } else {
        j
    }] == s[j] by {}
    // Frame `index` is fresh in the old sequence.
    assert forall|j: int| 0 <= j < s.len() implies (#[trigger] s[j]).at_opt(index as int) is None by {
        if j < i {
            lemma_sorted_order(s, j, i);
        }
    }
    lemma_recs_at_none(s, index as int);
    assert(sorted_wf(t)) by {
        assert forall|a: int| 0 <= a < t.len() implies (#[trigger] t[a]).wf() by {
            if extra is Some && a == i + 1 {
            } else if a != i {
                let j: int = if extra is Some && a > i {
                    a - 1
                } else {
                    a
                };
                assert(t[a] == s[j]);
            }
        }
        assert forall|a: int| 0 <= a && a + 1 < t.len() implies (#[trigger] t[a]).spec_finish()
            <= t[a + 1].spec_start() by {
            match extra {
                None => {
                    if a + 1 < i || a > i {
                        assert(t[a] == s[a] && t[a + 1] == s[a + 1]);
                    } else if a + 1 == i {
                        assert(t[a] == s[a]);
                    } else {
                        // a == i: upd finishes at index + 1 <= next start
                        assert(t[a + 1] == s[a + 1]);
                        assert(s[a + 1].spec_start() > index);
                    }
                },
                Some(nr) => {
                    if a + 1 < i || a > i + 1 {
                        let j: int = if a > i + 1 {
                            a - 1
                        } else {
                            a
                        };
                        assert(t[a] == s[j] && t[a + 1] == s[j + 1]);
                    } else if a + 1 == i {
                        assert(t[a] == s[a]);
                    } else if a == i {
                        // upd then nr
                    } else {
                        // a == i + 1: nr then the old record i + 1
                        assert(t[a + 1] == s[i + 1]);
                        assert(s[i + 1].spec_start() > index);
                    }
                },
            }
        }
    }
    assert forall|f: int| #[trigger] recs_at(t, f) == (if f == index as int {
        Some(entry)
    } else {
        recs_at(s, f)
    }) by {
        if f == index as int {
            assert(ext_at(upd, extra, f) == Some(entry));
            match extra {
                None => {
                    lemma_recs_at_sorted(t, f, i);
                },
                Some(nr) => {
                    if nr.at_opt(f) is Some {
                        lemma_recs_at_sorted(t, f, i + 1);
                    } else {
                        lemma_recs_at_sorted(t, f, i);
                    }
                },
            }
        } else if s[i].at_opt(f) is Some {
            lemma_recs_at_sorted(s, f, i);
            assert(ext_at(upd, extra, f) == s[i].at_opt(f));
            match extra {
                None => {
                    lemma_recs_at_sorted(t, f, i);
                },
                Some(nr) => {
                    if nr.at_opt(f) is Some {
                        lemma_recs_at_sorted(t, f, i + 1);
                    } else {
                        lemma_recs_at_sorted(t, f, i);
                    }
                },
            }
        } else if recs_at(s, f) is Some {
            lemma_recs_at_exists(s, f);
            let j = choose|j: int|
                0 <= j < s.len() && (#[trigger] s[j]).at_opt(f) == recs_at(s, f);
            let j2: int = if j < i || extra is None {
                j
            } else {
                j + 1
            };
            assert(t[j2] == s[j]);
            lemma_recs_at_sorted(t, f, j2);
        } else {
            assert forall|j: int| 0 <= j < s.len() implies (#[trigger] s[j]).at_opt(f) is None by {
                if s[j].at_opt(f) is Some {
                    lemma_recs_at_sorted(s, f, j);
                }
            }
            assert(ext_at(upd, extra, f) == s[i].at_opt(f));
            assert forall|a: int| 0 <= a < t.len() implies (#[trigger] t[a]).at_opt(f) is None by {
                if a == i {
                } else if extra is Some && a == i + 1 {
                } else {
                    let j: int = if extra is Some && a > i {
                        a - 1
                    } else {
                        a
                    };
                    assert(t[a] == s[j]);
                }
            }
            lemma_recs_at_none(t, f);
        }
    }
}

impl<T: Copy + HistoryValue> History<T> {
    /// In a well-formed store whose trailing record ends at `index`,
    /// the insertion loop can only act on that trailing record.
    proof fn lemma_tail_position(s0: Seq<Record<T>>, index: int, i: int)
        requires
            sorted_wf(s0),
            s0.len() > 0,
            s0[s0.len() - 1].spec_finish() == index,
            0 <= i < s0.len(),
            s0[i].spec_finish() >= index,
        ensures
            i == s0.len() - 1,
    {
        if i < s0.len() - 1 {
            lemma_sorted_order(s0, i, s0.len() - 1);
        }
    }

    /// Record `entry` for frame `index`.  Succeeds exactly when the
    /// frame has no value yet; on failure nothing changes.
    #[verifier::rlimit(100)]
    #[verifier::spinoff_prover]
    pub fn try_insert(&mut self, index: FrameIndex, entry: T) -> (r: Option<()>)
        requires
            old(self).wf(),
            index < usize::MAX,
        ensures
            final(self).wf(),
            r is Some <==> old(self).value_at(index as int) is None,
            r is Some ==> forall|f: int|
                #[trigger] final(self).value_at(f) == (if f == index as int {
                    Some(entry)
                } else {
                    old(self).value_at(f)
                }),
            r is None ==> *final(self) == *old(self),
            // An insertion never costs more than one new record.
            final(self).spec_records() <= old(self).spec_records() + 1,
            // Appending the next frame of a constant run keeps the
            // record count and the storage cost: a run of any length
            // compresses to one constant record costing one slot.
            old(self).tail_constant(index as int, entry)
                ==> final(self).spec_records() == old(self).spec_records()
                && final(self).tail_constant(index + 1, entry),
            forall|s: int|
                #[trigger] old(self).tail_constant_run(s, index as int, entry)
                    ==> final(self).spec_records() == old(self).spec_records()
                    && final(self).tail_constant_run(s, index + 1, entry)
                    && final(self).spec_storage() == old(self).spec_storage(),
            // A first insertion starts a one-frame constant run
            // costing one storage slot.
            old(self).spec_records() == 0 ==> final(self).spec_records() == 1
                && final(self).tail_constant_run(index as int, index + 1, entry)
                && final(self).spec_storage() == old(self).spec_storage() + 1,
            // A one-frame constant tail met by a different value turns
            // into a two-value variable tail in place.
            forall|v: T|
                #[trigger] old(self).tail_constant_run(index - 1, index as int, v) && v != entry
                    ==> final(self).spec_records() == old(self).spec_records()
                    && final(self).tail_variable(index - 1, seq![v, entry])
                    && final(self).spec_storage() == old(self).spec_storage() + 2,
            // A variable tail below the promotion and length limits
            // absorbs the next frame in place, paying one slot.
            forall|s: int, vals: Seq<T>|
                (#[trigger] old(self).tail_variable(s, vals) && index == s + vals.len() && !(
                vals.len() >= CONVERSION_THRESHOLD && trailing_run(vals, entry) + 1
                    >= CONVERSION_THRESHOLD) && vals.len() <= MAXIMUM_RECORD_LENGTH)
                    ==> final(self).spec_records() == old(self).spec_records()
                    && final(self).tail_variable(s, vals.push(entry))
                    && final(self).spec_storage() == old(self).spec_storage() + 1,
            // A variable tail that was entirely one run of `entry`
            // promotes wholesale to a constant tail, releasing the
            // per-value slots.
            forall|s: int, vals: Seq<T>|
                (#[trigger] old(self).tail_variable(s, vals) && index == s + vals.len()
                    && vals.len() >= CONVERSION_THRESHOLD && trailing_run(vals, entry) + 1
                    >= CONVERSION_THRESHOLD && trailing_run(vals, entry) == vals.len())
                    ==> final(self).spec_records() == old(self).spec_records()
                    && final(self).tail_constant_run(s, index + 1, entry)
                    && final(self).spec_storage() == old(self).spec_storage() - vals.len(),
            // A variable tail whose trailing run of `entry` reaches
            // the threshold splits that run off as a constant tail.
            forall|s: int, vals: Seq<T>|
                (#[trigger] old(self).tail_variable(s, vals) && index == s + vals.len()
                    && vals.len() >= CONVERSION_THRESHOLD && trailing_run(vals, entry) + 1
                    >= CONVERSION_THRESHOLD && trailing_run(vals, entry) < vals.len())
                    ==> final(self).spec_records() == old(self).spec_records() + 1
                    && final(self).tail_constant_run(
                    s + vals.len() - trailing_run(vals, entry),
                    index + 1,
                    entry,
                ) && final(self).spec_storage() == old(self).spec_storage() + 1 - trailing_run(
                    vals,
                    entry,
                ),
    {
        let ghost s0 = self.data@;
        let mut i: usize = 0;
        while i < self.data.len()
            invariant
                self == old(self),
                s0 == self.data@,
                sorted_wf(s0),
                index < usize::MAX,
                0 <= i <= s0.len(),
                forall|j: int| 0 <= j < i ==> (#[trigger] s0[j]).spec_finish() < index,
            decreases s0.len() - i,
        {
            let fin = self.data[i].finish();
            if fin < index {
                i = i + 1;
            } else {
                let st = self.data[i].start();
                if st > index {
                    proof {
                        assert forall|j: int| i <= j < s0.len() implies (#[trigger] s0[j]).spec_start()
                            > index by {
                            if j > i {
                                lemma_sorted_order(s0, i as int, j);
                            }
                        }
                        lemma_insert_fresh(s0, i as int, index, entry);
                        if s0.len() > 0 && s0[s0.len() - 1].spec_finish() == index {
                            // A trailing record ending exactly at the
                            // inserted frame leaves no record starting
                            // past it.
                            Self::lemma_tail_position(s0, index as int, i as int);
                            assert(false);
                        }
                    }
                    self.data.insert(i, Record::new(index, entry));
                    return Some(());
                }
                if fin == index {
                    if i + 1 < self.data.len() {
                        let nst = self.data[i + 1].start();
                        if nst <= index {
                            proof {
                                assert(s0[i + 1].at_opt(index as int) is Some);
                                lemma_recs_at_sorted(s0, index as int, i as int + 1);
                                if s0.len() > 0 && s0[s0.len() - 1].spec_finish() == index {
                                    Self::lemma_tail_position(s0, index as int, i as int);
                                    assert(false);
                                }
                            }
                            return None;
                        }
                    }
                    proof {
                        assert forall|j: int| (i as int) < j < s0.len() implies (
                        #[trigger] s0[j]).spec_start() > index by {
                            if j > i + 1 {
                                lemma_sorted_order(s0, i as int + 1, j);
                            }
                        }
                    }
                    let rec = self.data.remove(i);
                    let (upd, extra) = rec.extend(entry);
                    proof {
                        lemma_extend_replace(s0, i as int, index, entry, upd, extra);
                        s0.remove_ensures(i as int);
                        assert(s0.remove(i as int).insert(i as int, upd) =~= s0.update(
                            i as int,
                            upd,
                        )) by {
                            s0.remove(i as int).insert_ensures(i as int, upd);
                        }
                        if s0.len() > 0 && s0[s0.len() - 1].spec_finish() == index {
                            // Only the trailing record finishes at the
                            // inserted frame, so the extension acted on
                            // it, and the new trailing record is the
                            // extension's output.
                            Self::lemma_tail_position(s0, index as int, i as int);
                            assert(rec == s0[s0.len() - 1]);
                        }
                    }
                    let ghost upd_g = upd;
                    let ghost extra_g = extra;
                    self.data.insert(i, upd);
                    match extra {
                        Some(nr) => {
                            self.data.insert(i + 1, nr);
                        },
                        None => {},
                    }
                    proof {
                        if s0.len() > 0 && s0[s0.len() - 1].spec_finish() == index {
                            assert(i as int == s0.len() - 1);
                            lemma_storage_update_last(s0, upd_g);
                            match extra_g {
                                Some(nr) => {
                                    assert(self.data@ =~= s0.update(s0.len() - 1, upd_g).push(
                                        nr,
                                    ));
                                    lemma_storage_push(s0.update(s0.len() - 1, upd_g), nr);
                                    assert(self.data@.len() == s0.len() + 1);
                                    assert(self.data@.last() == nr);
                                },
                                None => {
                                    assert(self.data@.len() == s0.len());
                                    assert(self.data@.last() == upd_g);
                                },
                            }
                        }
                    }
                    return Some(());
                }
                proof {
                    assert(s0[i as int].at_opt(index as int) is Some);
                    lemma_recs_at_sorted(s0, index as int, i as int);
                    if s0.len() > 0 && s0[s0.len() - 1].spec_finish() == index {
                        Self::lemma_tail_position(s0, index as int, i as int);
                        assert(false);
                    }
                }
                return None;
            }
        }
        proof {
            lemma_insert_fresh(s0, s0.len() as int, index, entry);
            let nr = Record::Constant { start: index, finish: (index + 1) as usize, value: entry };
            assert(s0.insert(s0.len() as int, nr) =~= s0.push(nr)) by {
                s0.insert_ensures(s0.len() as int, nr);
            }
            if s0.len() > 0 && s0[s0.len() - 1].spec_finish() == index {
                // The loop would have stopped at the trailing record.
                assert(s0[s0.len() - 1].spec_finish() < index);
                assert(false);
            }
            lemma_storage_push(s0, nr);
        }
        self.data.push(Record::new(index, entry));
        Some(())
    }
}

/// The view-level effect of inserting `pairs` in order into an empty
/// history: each successful `try_insert` updates `value_at` at exactly
/// one frame, so the result is the last pair for each frame.
pub open spec fn after_inserts<T>(pairs: Seq<(FrameIndex, T)>, f: int) -> Option<T>
    decreases pairs.len(),
{
    if pairs.len() == 0 {
        None
    } else if pairs.last().0 == f {
        Some(pairs.last().1)
    } else {
        after_inserts(pairs.drop_last(), f)
    }
}

pub open spec fn frames_increasing<T>(pairs: Seq<(FrameIndex, T)>) -> bool {
    forall|i: int, j: int| 0 <= i < j < pairs.len() ==> pairs[i].0 < pairs[j].0
}

/// History round-trip: insert any sequence of (frame, value) pairs in
/// strictly increasing frame order into an empty history; then reading
/// any inserted frame yields exactly the value inserted for it, and
/// reading any other frame yields nothing.  `try_insert` ensures that
/// a history built this way satisfies
/// `value_at(f) == after_inserts(pairs, f)` for every `f`, and
/// `get` returns `value_at`, so this lemma closes the loop.
pub proof fn lemma_history_round_trip<T>(pairs: Seq<(FrameIndex, T)>)
    requires
        frames_increasing(pairs),
    ensures
        forall|i: int|
            0 <= i < pairs.len() ==> #[trigger] after_inserts(pairs, pairs[i].0 as int) == Some(
                pairs[i].1,
            ),
        forall|f: int|
            (forall|i: int| 0 <= i < pairs.len() ==> (#[trigger] pairs[i]).0 != f)
                ==> after_inserts(pairs, f) is None,
    decreases pairs.len(),
{
    if pairs.len() > 0 {
        assert forall|i: int, j: int|
            0 <= i < j < pairs.drop_last().len() implies pairs.drop_last()[i].0 < pairs.drop_last()[j].0 by {
            assert(pairs[i].0 < pairs[j].0);
        }
        lemma_history_round_trip(pairs.drop_last());
        assert forall|i: int|
            0 <= i < pairs.len() implies #[trigger] after_inserts(pairs, pairs[i].0 as int)
            == Some(pairs[i].1) by {
            if i < pairs.len() - 1 {
                // An earlier frame is strictly below the last frame, so
                // the last insert does not shadow it.
                assert(pairs[i].0 < pairs.last().0);
                assert(pairs.drop_last()[i] == pairs[i]);
                assert(after_inserts(pairs.drop_last(), pairs[i].0 as int) == Some(pairs[i].1));
            }
        }
        assert forall|f: int|
            (forall|i: int| 0 <= i < pairs.len() ==> (#[trigger] pairs[i]).0 != f) implies after_inserts(
            pairs,
            f,
        ) is None by {
            assert(pairs[pairs.len() - 1].0 != f);
            assert forall|i: int|
                0 <= i < pairs.drop_last().len() implies (#[trigger] pairs.drop_last()[i]).0
                != f by {
                assert(pairs[i].0 != f);
            }
            assert(after_inserts(pairs.drop_last(), f) is None);
        }
    }
}

/// The run of `n` insertions of one value at consecutive frames.
pub open spec fn uniform_run<T>(start: FrameIndex, v: T, n: nat) -> Seq<(FrameIndex, T)> {
    Seq::new(n, |i: int| (((start + i) as usize), v))
}

/// Compression transparency: insert one value for any number of
/// consecutive frames (the store may keep the run as one constant
/// record, a variable record, or promote between the two as the run
/// grows past the conversion threshold); reading back then yields
/// exactly that value at every frame of the run and nothing anywhere
/// else.  `try_insert`'s contract holds whatever encoding path the
/// compressor took, so `get` cannot observe the representation.
pub proof fn lemma_compression_transparent<T>(start: FrameIndex, v: T, n: nat)
    requires
        start + n <= usize::MAX,
    ensures
        frames_increasing(uniform_run(start, v, n)),
        forall|j: int|
            0 <= j < n ==> #[trigger] after_inserts(uniform_run(start, v, n), start + j) == Some(v),
        forall|f: int|
            !(start <= f < start + n) ==> #[trigger] after_inserts(uniform_run(start, v, n), f)
                is None,
{
    let pairs = uniform_run(start, v, n);
    assert(frames_increasing(pairs)) by {
        assert forall|i: int, j: int| 0 <= i < j < pairs.len() implies pairs[i].0 < pairs[j].0 by {
            assert(pairs[i].0 == (start + i) as usize);
            assert(pairs[j].0 == (start + j) as usize);
        }
    }
    lemma_history_round_trip(pairs);
    assert forall|j: int| 0 <= j < n implies #[trigger] after_inserts(pairs, start + j) == Some(
        v,
    ) by {
        assert(pairs[j] == (((start + j) as usize), v));
        assert(after_inserts(pairs, pairs[j].0 as int) == Some(pairs[j].1));
    }
    assert forall|f: int| !(start <= f < start + n) implies #[trigger] after_inserts(pairs, f)
        is None by {
        assert forall|i: int| 0 <= i < pairs.len() implies (#[trigger] pairs[i]).0 != f by {
            assert(pairs[i].0 == (start + i) as usize);
        }
    }
}

/// A per-entity-pair perception history: the same run-length store,
/// used for the smaller recorded snapshots (these stay short, so no
/// maximum record length is enforced on them by their writers).
#[derive(Clone)]
pub struct EntityHistory<T> {
    inner: History<T>,
}

impl<T: Copy> EntityHistory<T> {
    pub closed spec fn wf(self) -> bool {
        self.inner.wf()
    }

    pub closed spec fn value_at(self, f: int) -> Option<T> {
        self.inner.value_at(f)
    }

    pub fn default() -> (r: EntityHistory<T>)
        ensures
            r.wf(),
            forall|f: int| #[trigger] r.value_at(f) is None,
    {
        EntityHistory { inner: History::default() }
    }

    pub fn get(&self, index: FrameIndex) -> (r: Option<T>)
        requires
            self.wf(),
        ensures
            r == self.value_at(index as int),
    {
        self.inner.get(index)
    }
}

impl<T: Copy + HistoryValue> EntityHistory<T> {
    pub fn try_insert(&mut self, index: FrameIndex, entry: T) -> (r: Option<()>)
        requires
            old(self).wf(),
            index < usize::MAX,
        ensures
            final(self).wf(),
            r is Some <==> old(self).value_at(index as int) is None,
            r is Some ==> forall|f: int|
                #[trigger] final(self).value_at(f) == (if f == index as int {
                    Some(entry)
                } else {
                    old(self).value_at(f)
                }),
            r is None ==> *final(self) == *old(self),
    {
        self.inner.try_insert(index, entry)
    }
}

} // verus!
