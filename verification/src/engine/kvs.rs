//! The log-structured store.
//!
//! The store is a log of records and an index from each live key to the
//! place of its last `Put` record. The log is held as the image of the log
//! file: whoever keeps the file reads it into [`KvStore::open`], and after
//! each write copies the part of the image that changed back to the file.

use vstd::prelude::*;
use vstd::hash_map::StringHashMap;
use vstd::slice::slice_subrange;
use crate::err::KvsError;
use crate::engine::{apply_all, lookup, KvsEngine};
use crate::json::{
    is_space, lemma_skip_spaces_bounds, skip_spaces, skip_white_space, write_bytes,
    Fault,
};
use crate::op::{
    encode_op, lemma_op_at_bounds, lemma_op_at_local, op_at, op_text, Op, OpModel,
    OpReader,
};

verus! {

/// The redundant bytes beyond which the log is compacted.
pub const REDUNDANT_SIZE_LIMIT: usize = 1024 * 1024;

/// The place of a record in the log: from `start` up to `end`.
#[derive(Clone, Copy, Debug, PartialEq, Eq, Structural)]
pub struct Offset {
    pub start: usize,
    pub end: usize,
}

/// The place from `start` up to `end`.
pub fn new_offset(start: usize, end: usize) -> (offset: Offset)
    ensures
        offset == (Offset { start, end }),
{
    Offset { start, end }
}

impl Offset {
    /// The size of the record.
    pub fn len(&self) -> (n: usize)
        requires
            self.start <= self.end,
        ensures
            n == self.end - self.start,
    {
        self.end - self.start
    }
}

/// A record of the log and its place.
pub ghost struct Entry {
    pub op: OpModel,
    pub start: int,
    pub end: int,
}

impl Entry {
    pub open spec fn offset(self) -> Offset {
        Offset { start: self.start as usize, end: self.end as usize }
    }

    pub open spec fn size(self) -> int {
        self.end - self.start
    }
}

/// What a forward scan of a log finds.
pub ghost struct Scan {
    /// The records, in the order of the log.
    pub entries: Seq<Entry>,
    /// Where the intact part of the log ends: at the end of the log, or where
    /// the first record starts that cannot be read.
    pub end: int,
    /// Why the scan stopped before the end of the log, if it did.
    pub fault: Option<Fault>,
}

/// The forward scan of `log` from `pos` on. Records may be parted by white
/// space; a record starts at its first byte.
pub open spec fn scan_from(log: Seq<u8>, pos: int) -> Scan
    decreases log.len() - pos,
{
    let p = skip_spaces(log, pos);
    if pos < 0 || p >= log.len() {
        Scan { entries: Seq::empty(), end: log.len() as int, fault: None }
    } else {
        match op_at(log, p) {
            Ok((op, e)) => if pos <= p < e <= log.len() {
                let rest = scan_from(log, e);
                Scan {
                    entries: seq![Entry { op, start: p, end: e }] + rest.entries,
                    end: rest.end,
                    fault: rest.fault,
                }
            } else {
                Scan { entries: Seq::empty(), end: p, fault: Some(Fault::Malformed) }
            },
            Err(f) => Scan { entries: Seq::empty(), end: p, fault: Some(f) },
        }
    }
}

/// The scan of a whole log.
pub open spec fn scan(log: Seq<u8>) -> Scan {
    scan_from(log, 0)
}

/// The number of the last record about `key`, or -1 where there is none.
pub open spec fn last_of(es: Seq<Entry>, key: Seq<char>) -> int
    decreases es.len(),
{
    if es.len() == 0 {
        -1
    } else if es.last().op.key() == key {
        es.len() - 1
    } else {
        last_of(es.drop_last(), key)
    }
}

/// Record number `j` is live: a `Put` that no later record is about.
pub open spec fn live(es: Seq<Entry>, j: int) -> bool {
    &&& 0 <= j < es.len()
    &&& es[j].op is Put
    &&& last_of(es, es[j].op.key()) == j
}

/// The index that the records give: each live key with the place of its
/// last `Put`.
pub open spec fn index_of(es: Seq<Entry>) -> Map<Seq<char>, Offset> {
    Map::new(|k: Seq<char>| live(es, last_of(es, k)), |k: Seq<char>| es[last_of(es, k)].offset())
}

/// The bindings that the records give: each live key with the value of its
/// last `Put`.
pub open spec fn values_of(es: Seq<Entry>) -> Map<Seq<char>, Seq<char>> {
    Map::new(
        |k: Seq<char>| live(es, last_of(es, k)),
        |k: Seq<char>| es[last_of(es, k)].op->Put_value,
    )
}

/// The bytes of the first `n` records that are not live: each `Rm`, and each
/// `Put` that a later record is about.
pub open spec fn dead_bytes(es: Seq<Entry>, n: int) -> int
    decreases n,
{
    if n <= 0 {
        0
    } else {
        dead_bytes(es, n - 1) + if live(es, n - 1) {
            0
        } else {
            es[n - 1].size()
        }
    }
}

/// The redundant bytes of a log with these records.
pub open spec fn redundant_of(es: Seq<Entry>) -> int {
    dead_bytes(es, es.len() as int)
}

/// The records stand in `log` from `lo` on, one after the other: each where
/// the log holds it, starting at a byte that is no white space.
pub open spec fn framed(log: Seq<u8>, es: Seq<Entry>, lo: int) -> bool {
    &&& forall|j: int|
        0 <= j < es.len() ==> {
            &&& lo <= (#[trigger] es[j]).start < es[j].end <= log.len()
            &&& !is_space(log[es[j].start])
            &&& op_at(log, es[j].start) == Ok::<(OpModel, int), Fault>((es[j].op, es[j].end))
        }
    &&& forall|i: int, j: int|
        0 <= i < j < es.len() ==> (#[trigger] es[i]).end <= (#[trigger] es[j]).start
}

// ---------------------------------------------------------------------------
// Facts about scans
// ---------------------------------------------------------------------------

/// White space that reaches up to `e` is skipped up to `e`.
pub proof fn lemma_skip_spaces_is(s: Seq<u8>, i: int, e: int)
    requires
        0 <= i <= e <= s.len(),
        forall|j: int| i <= j < e ==> is_space(#[trigger] s[j]),
        e < s.len() ==> !is_space(s[e]),
    ensures
        skip_spaces(s, i) == e,
    decreases e - i,
{
    if i < e {
        lemma_skip_spaces_is(s, i + 1, e);
    }
}

/// What a scan finds stands in the log, and the scan ends within the log.
pub proof fn lemma_scan_framed(log: Seq<u8>, pos: int)
    requires
        0 <= pos <= log.len(),
    ensures
        framed(log, scan_from(log, pos).entries, pos),
        pos <= scan_from(log, pos).end <= log.len(),
        scan_from(log, pos).fault is None ==> scan_from(log, pos).end == log.len(),
    decreases log.len() - pos,
{
    let p = skip_spaces(log, pos);
    lemma_skip_spaces_bounds(log, pos);
    if p < log.len() {
        if let Ok((op, e)) = op_at(log, p) {
            lemma_op_at_bounds(log, p);
            lemma_scan_framed(log, e);
            let first = Entry { op, start: p, end: e };
            let rest = scan_from(log, e).entries;
            let es = scan_from(log, pos).entries;
            assert(es == seq![first] + rest);
            assert forall|j: int| 0 <= j < es.len() implies {
                &&& pos <= (#[trigger] es[j]).start < es[j].end <= log.len()
                &&& !is_space(log[es[j].start])
                &&& op_at(log, es[j].start) == Ok::<(OpModel, int), Fault>((es[j].op, es[j].end))
            } by {
                if j > 0 {
                    assert(es[j] == rest[j - 1]);
                }
            }
            assert forall|i: int, j: int| 0 <= i < j < es.len() implies (#[trigger] es[i]).end <= (
            #[trigger] es[j]).start by {
                assert(es[j] == rest[j - 1]);
                if i > 0 {
                    assert(es[i] == rest[i - 1]);
                }
            }
        }
    }
}

/// A log that was scanned to its end, with one more record written behind
/// it, is scanned to its new end, and the record is found last.
pub proof fn lemma_scan_append(log: Seq<u8>, rec: Seq<u8>, pos: int, op: OpModel)
    requires
        0 <= pos <= log.len(),
        scan_from(log, pos).fault is None,
        rec.len() > 0,
        !is_space(rec[0]),
        op_at(rec, 0) == Ok::<(OpModel, int), Fault>((op, rec.len() as int)),
    ensures
        scan_from(log + rec, pos) == (Scan {
            entries: scan_from(log, pos).entries.push(
                Entry { op, start: log.len() as int, end: (log.len() + rec.len()) as int },
            ),
            end: (log.len() + rec.len()) as int,
            fault: None,
        }),
    decreases log.len() - pos,
{
    let both = log + rec;
    let p = skip_spaces(log, pos);
    let n = log.len() as int;
    lemma_skip_spaces_bounds(log, pos);
    if p >= log.len() {
        assert forall|j: int| pos <= j < n implies is_space(#[trigger] both[j]) by {
            assert(both[j] == log[j]);
        }
        assert(both[n] == rec[0]);
        lemma_skip_spaces_is(both, pos, n);
        assert forall|j: int| 0 <= j < rec.len() implies rec[j] == #[trigger] both[j + n] by {}
        lemma_op_at_local(rec, both, 0, n);
        let e = n + rec.len();
        assert(skip_spaces(both, e) == e);
        assert(scan_from(both, e).entries =~= Seq::<Entry>::empty());
        assert(scan_from(log, pos).entries =~= Seq::<Entry>::empty());
        assert(scan_from(both, pos).entries =~= Seq::<Entry>::empty().push(
            Entry { op, start: n, end: e },
        ));
    } else {
        let (op1, e1) = op_at(log, p)->Ok_0;
        lemma_op_at_bounds(log, p);
        assert forall|j: int| pos <= j < p + 1 implies log[j] == #[trigger] both[j + 0] by {}
        crate::json::lemma_skip_spaces_local(log, both, pos, 0);
        assert forall|j: int| p <= j < e1 implies log[j] == #[trigger] both[j + 0] by {}
        lemma_op_at_local(log, both, p, 0);
        lemma_scan_append(log, rec, e1, op);
        let first = Entry { op: op1, start: p, end: e1 };
        let rest = scan_from(log, e1).entries;
        let last = Entry { op, start: n, end: n + rec.len() };
        assert(seq![first] + rest.push(last) =~= (seq![first] + rest).push(last));
    }
}

/// A log cut where its scan stopped is scanned to its end, and the same
/// records are found.
pub proof fn lemma_scan_cut(log: Seq<u8>, pos: int)
    requires
        0 <= pos <= log.len(),
    ensures
        scan_from(log.take(scan_from(log, pos).end), pos) == (Scan {
            entries: scan_from(log, pos).entries,
            end: scan_from(log, pos).end,
            fault: None,
        }),
    decreases log.len() - pos,
{
    let end = scan_from(log, pos).end;
    lemma_scan_framed(log, pos);
    let cut = log.take(end);
    let p = skip_spaces(log, pos);
    lemma_skip_spaces_bounds(log, pos);
    if p >= log.len() {
        assert(cut =~= log);
    } else if op_at(log, p) is Ok {
        let (op1, e1) = op_at(log, p)->Ok_0;
        lemma_op_at_bounds(log, p);
        lemma_scan_framed(log, e1);
        assert forall|j: int| pos <= j < p + 1 implies log[j] == #[trigger] cut[j + 0] by {}
        crate::json::lemma_skip_spaces_local(log, cut, pos, 0);
        assert forall|j: int| p <= j < e1 implies log[j] == #[trigger] cut[j + 0] by {}
        lemma_op_at_local(log, cut, p, 0);
        lemma_scan_cut(log, e1);
    } else {
        assert(end == p);
        assert forall|j: int| pos <= j < p implies is_space(#[trigger] cut[j]) by {
            assert(cut[j] == log[j]);
        }
        lemma_skip_spaces_is(cut, pos, p);
    }
}

// ---------------------------------------------------------------------------
// Facts about records
// ---------------------------------------------------------------------------

/// The last record about a key is about that key, and no record after it
/// is.
pub proof fn lemma_last_of_bounds(es: Seq<Entry>, key: Seq<char>)
    ensures
        -1 <= last_of(es, key) < es.len(),
        last_of(es, key) >= 0 ==> es[last_of(es, key)].op.key() == key,
        forall|j: int| last_of(es, key) < j < es.len() ==> (#[trigger] es[j]).op.key() != key,
    decreases es.len(),
{
    if es.len() > 0 && es.last().op.key() != key {
        let front = es.drop_last();
        lemma_last_of_bounds(front, key);
        assert forall|j: int| last_of(es, key) < j < es.len() implies (#[trigger] es[j]).op.key()
            != key by {
            if j < front.len() {
                assert(es[j] == front[j]);
            }
        }
    }
}

/// One more record changes the last record of its own key only.
pub proof fn lemma_last_of_push(es: Seq<Entry>, e: Entry, key: Seq<char>)
    ensures
        last_of(es.push(e), key) == if e.op.key() == key {
            es.len() as int
        } else {
            last_of(es, key)
        },
{
    assert(es.push(e).drop_last() =~= es);
}

/// Which of the old records are live once one more record is written: those
/// that were, but for the one that the new record is about.
pub proof fn lemma_live_push(es: Seq<Entry>, e: Entry, j: int)
    requires
        0 <= j < es.len(),
    ensures
        live(es.push(e), j) == (live(es, j) && es[j].op.key() != e.op.key()),
{
    lemma_last_of_push(es, e, es[j].op.key());
    lemma_last_of_bounds(es, es[j].op.key());
    assert(es.push(e)[j] == es[j]);
}

/// What one more record does to one key.
pub proof fn lemma_index_push_at(es: Seq<Entry>, e: Entry, k: Seq<char>)
    ensures
        live(es.push(e), last_of(es.push(e), k)) == (if e.op.key() == k {
            e.op is Put
        } else {
            live(es, last_of(es, k))
        }),
        live(es.push(e), last_of(es.push(e), k)) ==> es.push(e)[last_of(es.push(e), k)] == (if e.op.key()
            == k {
            e
        } else {
            es[last_of(es, k)]
        }),
{
    let more = es.push(e);
    let n = es.len() as int;
    lemma_last_of_push(es, e, k);
    lemma_last_of_bounds(es, k);
    if e.op.key() == k {
        assert(more[n] == e);
    } else {
        let j = last_of(es, k);
        if j >= 0 {
            lemma_live_push(es, e, j);
            assert(more[j] == es[j]);
        }
    }
}

/// The index after one more record: a `Put` binds its key to the new place,
/// a `Rm` unbinds its key.
pub proof fn lemma_index_push(es: Seq<Entry>, e: Entry)
    ensures
        index_of(es.push(e)) == (match e.op {
            OpModel::Put { key, .. } => index_of(es).insert(key, e.offset()),
            OpModel::Rm { key } => index_of(es).remove(key),
        }),
        values_of(es.push(e)) == (match e.op {
            OpModel::Put { key, value } => values_of(es).insert(key, value),
            OpModel::Rm { key } => values_of(es).remove(key),
        }),
{
    let more = es.push(e);
    let want_index = match e.op {
        OpModel::Put { key, .. } => index_of(es).insert(key, e.offset()),
        OpModel::Rm { key } => index_of(es).remove(key),
    };
    let want_values = match e.op {
        OpModel::Put { key, value } => values_of(es).insert(key, value),
        OpModel::Rm { key } => values_of(es).remove(key),
    };
    assert forall|k: Seq<char>|
        (#[trigger] index_of(more).dom().contains(k)) == want_index.dom().contains(k) && (index_of(
            more,
        ).dom().contains(k) ==> index_of(more)[k] == want_index[k]) by {
        lemma_index_push_at(es, e, k);
    }
    assert forall|k: Seq<char>|
        (#[trigger] values_of(more).dom().contains(k)) == want_values.dom().contains(k) && (
        values_of(more).dom().contains(k) ==> values_of(more)[k] == want_values[k]) by {
        lemma_index_push_at(es, e, k);
    }
    assert(index_of(more) =~= want_index);
    assert(values_of(more) =~= want_values);
}

/// The dead bytes among the first `m` records once one more record is
/// written: what was dead, and the record that the new one is about if it
/// was live.
pub proof fn lemma_dead_bytes_push(es: Seq<Entry>, e: Entry, m: int)
    requires
        0 <= m <= es.len(),
    ensures
        dead_bytes(es.push(e), m) == dead_bytes(es, m) + if live(es, last_of(es, e.op.key()))
            && last_of(es, e.op.key()) < m {
            es[last_of(es, e.op.key())].size()
        } else {
            0
        },
    decreases m,
{
    if m > 0 {
        lemma_dead_bytes_push(es, e, m - 1);
        lemma_live_push(es, e, m - 1);
        lemma_last_of_bounds(es, e.op.key());
        assert(es.push(e)[m - 1] == es[m - 1]);
        if live(es, m - 1) && es[m - 1].op.key() == e.op.key() {
            assert(last_of(es, e.op.key()) == m - 1);
        }
    }
}

/// The redundant bytes after one more record: what was redundant, the
/// record that the new one replaces, and the new record itself if it is a
/// `Rm`.
pub proof fn lemma_redundant_push(es: Seq<Entry>, e: Entry)
    ensures
        redundant_of(es.push(e)) == redundant_of(es) + (if index_of(es).contains_key(e.op.key()) {
            es[last_of(es, e.op.key())].size()
        } else {
            0
        }) + (if e.op is Rm {
            e.size()
        } else {
            0
        }),
{
    let more = es.push(e);
    let n = es.len() as int;
    lemma_dead_bytes_push(es, e, n);
    lemma_last_of_push(es, e, e.op.key());
    lemma_last_of_bounds(es, e.op.key());
    assert(more[n] == e);
    assert(live(more, n) == (e.op is Put));
}

/// Redundant bytes are bytes of records: no more of them than the records
/// span.
pub proof fn lemma_dead_bytes_bound(log: Seq<u8>, es: Seq<Entry>, lo: int, n: int)
    requires
        framed(log, es, lo),
        0 <= n <= es.len(),
        0 <= lo,
    ensures
        0 <= dead_bytes(es, n),
        n > 0 ==> dead_bytes(es, n) <= es[n - 1].end - lo,
        n == 0 ==> dead_bytes(es, n) == 0,
    decreases n,
{
    if n > 0 {
        lemma_dead_bytes_bound(log, es, lo, n - 1);
        if n > 1 {
            assert(es[n - 2].end <= es[n - 1].start);
        }
    }
}

/// The index points at live records: at the place of each key stands a
/// `Put` of that key with the key's value.
pub proof fn lemma_index_points(log: Seq<u8>, es: Seq<Entry>, lo: int, key: Seq<char>)
    requires
        0 <= lo,
        log.len() <= usize::MAX,
        framed(log, es, lo),
        index_of(es).contains_key(key),
    ensures
        values_of(es).contains_key(key),
        op_at(log, index_of(es)[key].start as int) == Ok::<(OpModel, int), Fault>(
            (OpModel::Put { key, value: values_of(es)[key] }, index_of(es)[key].end as int),
        ),
        index_of(es)[key].start < index_of(es)[key].end <= log.len(),
        index_of(es)[key].end - index_of(es)[key].start == es[last_of(es, key)].size(),
{
    let j = last_of(es, key);
    lemma_last_of_bounds(es, key);
    assert(lo <= es[j].start < es[j].end <= log.len());
}


/// The records of a scan that found no fault, one by one: the scan from the
/// end of a record finds the records after it.
pub proof fn lemma_scan_step(log: Seq<u8>, pos: int)
    requires
        0 <= pos <= log.len(),
        scan_from(log, pos).fault is None,
        skip_spaces(log, pos) < log.len(),
    ensures
        op_at(log, skip_spaces(log, pos)) is Ok,
        ({
            let p = skip_spaces(log, pos);
            let (op, e) = op_at(log, p)->Ok_0;
            &&& pos <= p < e <= log.len()
            &&& scan_from(log, pos).entries == seq![Entry { op, start: p, end: e }] + scan_from(
                log,
                e,
            ).entries
            &&& scan_from(log, e).fault is None
            &&& scan_from(log, e).end == scan_from(log, pos).end
        }),
{
    lemma_skip_spaces_bounds(log, pos);
}

/// The bytes of the live ones among the first `n` records, in the order of
/// the log.
pub open spec fn live_text(log: Seq<u8>, es: Seq<Entry>, n: int) -> Seq<u8>
    decreases n,
{
    if n <= 0 {
        Seq::empty()
    } else {
        live_text(log, es, n - 1) + if live(es, n - 1) {
            log.subrange(es[n - 1].start, es[n - 1].end)
        } else {
            Seq::empty()
        }
    }
}

/// The log that compaction leaves: the live records of `log`, one after the
/// other.
pub open spec fn compacted(log: Seq<u8>) -> Seq<u8> {
    live_text(log, scan(log).entries, scan(log).entries.len() as int)
}

/// The log after a write: compacted if its redundant bytes exceed the limit,
/// as it is else.
pub open spec fn settled(log: Seq<u8>) -> Seq<u8> {
    if redundant_of(scan(log).entries) > REDUNDANT_SIZE_LIMIT {
        compacted(log)
    } else {
        log
    }
}

/// The bindings of the keys whose last record is among the first `n`.
pub open spec fn values_upto(es: Seq<Entry>, n: int) -> Map<Seq<char>, Seq<char>> {
    Map::new(
        |k: Seq<char>| live(es, last_of(es, k)) && last_of(es, k) < n,
        |k: Seq<char>| es[last_of(es, k)].op->Put_value,
    )
}

/// Records that stand in a log stand there without the last of them.
pub proof fn lemma_framed_front(log: Seq<u8>, es: Seq<Entry>, e: Entry, lo: int)
    requires
        framed(log, es.push(e), lo),
    ensures
        framed(log, es, lo),
{
    let more = es.push(e);
    assert forall|j: int| 0 <= j < es.len() implies {
        &&& lo <= (#[trigger] es[j]).start < es[j].end <= log.len()
        &&& !is_space(log[es[j].start])
        &&& op_at(log, es[j].start) == Ok::<(OpModel, int), Fault>((es[j].op, es[j].end))
    } by {
        assert(more[j] == es[j]);
    }
    assert forall|i: int, j: int| 0 <= i < j < es.len() implies (#[trigger] es[i]).end <= (
    #[trigger] es[j]).start by {
        assert(more[i] == es[i]);
        assert(more[j] == es[j]);
    }
}

/// Enters the record that stands at `start..end` into the index, and returns
/// the redundant bytes of the log with it.
fn index_record(
    index: &mut StringHashMap<Offset>,
    redundant: usize,
    op: Op,
    start: usize,
    end: usize,
    Ghost(log): Ghost<Seq<u8>>,
    Ghost(es): Ghost<Seq<Entry>>,
) -> (total: usize)
    requires
        log.len() <= usize::MAX,
        framed(log, es.push(Entry { op: op@, start: start as int, end: end as int }), 0),
        old(index)@ == index_of(es),
        redundant == redundant_of(es),
    ensures
        final(index)@ == index_of(es.push(Entry { op: op@, start: start as int, end: end as int })),
        total == redundant_of(es.push(Entry { op: op@, start: start as int, end: end as int })),
{
    let ghost entry = Entry { op: op@, start: start as int, end: end as int };
    let ghost more = es.push(entry);
    proof {
        lemma_framed_front(log, es, entry, 0);
        lemma_index_push(es, entry);
        lemma_redundant_push(es, entry);
        lemma_dead_bytes_bound(log, more, 0, more.len() as int);
        lemma_dead_bytes_bound(log, es, 0, es.len() as int);
        assert(more[es.len() as int] == entry);
        assert(entry.offset() == Offset { start, end });
    }
    match op {
        Op::Put { key, value } => {
            let replaced: usize = match index.get(key.as_str()) {
                Some(offset) => {
                    proof {
                        lemma_index_points(log, es, 0, key@);
                    }
                    offset.len()
                },
                None => 0,
            };
            index.insert(key, new_offset(start, end));
            redundant + replaced
        },
        Op::Rm { key } => {
            let removed: usize = match index.get(key.as_str()) {
                Some(offset) => {
                    proof {
                        lemma_index_points(log, es, 0, key@);
                    }
                    offset.len()
                },
                None => 0,
            };
            index.remove(key.as_str());
            redundant + removed + (end - start)
        },
    }
}

/// What opening a store on `log` gives: an error where a record of the log
/// is malformed; else a sound store on the intact part of the log, which is
/// the whole log unless its last record is cut short.
pub open spec fn opened(log: Seq<u8>, r: Result<KvStore, KvsError>) -> bool {
    if scan(log).fault == Some(Fault::Malformed) {
        r matches Err(KvsError::Codec)
    } else {
        r matches Ok(store) && {
            &&& store.wf()
            &&& store.log_view() == log.take(scan(log).end)
            &&& store.entries() == scan(log).entries
            &&& store.flushed_len() == store.log_view().len()
        }
    }
}

/// The first `n` bytes of the log are what they were.
pub open spec fn unchanged_upto(before: Seq<u8>, after: Seq<u8>, n: int) -> bool {
    &&& 0 <= n <= before.len()
    &&& n <= after.len()
    &&& after.take(n) == before.take(n)
}

/// The log-structured store.
pub struct KvStore {
    /// The image of the log file.
    log: Vec<u8>,
    /// Each live key with the place of its last `Put` record.
    index: StringHashMap<Offset>,
    /// The bytes of the log that no entry of the index reaches.
    redundant_size: usize,
    /// How much of the image, from its start, the file is known to hold.
    flushed: usize,
    /// The reader of the records of the log.
    reader: OpReader,
}

impl View for KvStore {
    type V = Map<Seq<char>, Seq<char>>;

    /// The bindings of the store: each live key with its value.
    open spec fn view(&self) -> Map<Seq<char>, Seq<char>> {
        values_of(self.entries())
    }
}

impl KvStore {
    /// The image of the log.
    pub closed spec fn log_view(&self) -> Seq<u8> {
        self.log@
    }

    /// The index.
    pub closed spec fn index_view(&self) -> Map<Seq<char>, Offset> {
        self.index@
    }

    /// The counter of redundant bytes.
    pub closed spec fn redundant(&self) -> int {
        self.redundant_size as int
    }

    /// The length of the part of the image that the file is known to hold.
    pub closed spec fn flushed_len(&self) -> int {
        self.flushed as int
    }

    /// The store can read its records.
    pub closed spec fn can_read(&self) -> bool {
        self.reader.ready()
    }

    /// The records of the log.
    pub open spec fn entries(&self) -> Seq<Entry> {
        scan(self.log_view()).entries
    }

    /// The store is sound: its log is records from end to end, its index is
    /// the one that a replay of the log gives, and its counter holds the
    /// bytes of the records that are not live.
    pub open spec fn wf(&self) -> bool {
        &&& scan(self.log_view()).fault is None
        &&& self.index_view() == index_of(self.entries())
        &&& self.redundant() == redundant_of(self.entries())
        &&& 0 <= self.flushed_len() <= self.log_view().len()
        &&& self.can_read()
    }

    /// Opens the store on the image of its log file, which is empty for a
    /// new store.
    ///
    /// The log is replayed from its start. A record that cannot be read is
    /// an error, with one exception: where the log ends inside its last
    /// record, as after a write that did not finish, that partial record is
    /// cut off and the store opens on the records before it.
    pub fn open(log: Vec<u8>) -> (r: Result<KvStore, KvsError>)
        ensures
            opened(log@, r),
    {
        let ghost whole = log@;
        let mut image = log;
        let reader = OpReader::new();
        let n: usize = image.len();
        let mut index: StringHashMap<Offset> = StringHashMap::new();
        let mut redundant: usize = 0;
        let mut at: usize = 0;
        let mut intact: usize = n;
        let mut more: bool = true;
        let ghost mut done: Seq<Entry> = Seq::empty();
        proof {
            lemma_scan_framed(whole, 0);
            assert(index_of(done) =~= Map::<Seq<char>, Offset>::empty());
            assert(done + scan_from(whole, 0).entries =~= scan(whole).entries);
        }
        while more
            invariant
                reader.ready(),
                image@ == whole,
                log@ == whole,
                n == whole.len(),
                at <= n,
                intact <= n,
                index@ == index_of(done),
                redundant == redundant_of(done),
                framed(whole, done, 0),
                done.len() > 0 ==> done.last().end <= at,
                more ==> {
                    &&& scan(whole).entries == done + scan_from(whole, at as int).entries
                    &&& scan(whole).end == scan_from(whole, at as int).end
                    &&& scan(whole).fault == scan_from(whole, at as int).fault
                },
                !more ==> {
                    &&& scan(whole).entries == done
                    &&& scan(whole).end == intact
                    &&& scan(whole).fault != Some(Fault::Malformed)
                },
            decreases n - at, (if more { 1int } else { 0int }),
        {
            let p: usize = skip_white_space(image.as_slice(), at);
            if p >= n {
                more = false;
                intact = n;
                proof {
                    assert(done + Seq::<Entry>::empty() =~= done);
                }
            } else {
                match reader.read(image.as_slice(), p) {
                    Ok((op, e)) => {
                        let ghost entry = Entry { op: op@, start: p as int, end: e as int };
                        proof {
                            lemma_skip_spaces_bounds(whole, at as int);
                            let rest = scan_from(whole, e as int).entries;
                            assert(done + (seq![entry] + rest) =~= done.push(entry) + rest);
                            let grown = done.push(entry);
                            assert forall|j: int| 0 <= j < grown.len() implies {
                                &&& 0 <= (#[trigger] grown[j]).start < grown[j].end <= whole.len()
                                &&& !is_space(whole[grown[j].start])
                                &&& op_at(whole, grown[j].start) == Ok::<(OpModel, int), Fault>(
                                    (grown[j].op, grown[j].end),
                                )
                            } by {
                                if j < done.len() {
                                    assert(grown[j] == done[j]);
                                }
                            }
                            assert forall|i: int, j: int|
                                0 <= i < j < grown.len() implies (#[trigger] grown[i]).end <= (
                            #[trigger] grown[j]).start by {
                                assert(grown[i] == done[i]);
                                if j < done.len() {
                                    assert(grown[j] == done[j]);
                                } else {
                                    assert(done[i].end <= done.last().end);
                                }
                            }
                        }
                        redundant =
                        index_record(&mut index, redundant, op, p, e, Ghost(whole), Ghost(done));
                        proof {
                            done = done.push(entry);
                        }
                        at = e;
                    },
                    Err(Fault::Incomplete) => {
                        more = false;
                        intact = p;
                        proof {
                            assert(done + Seq::<Entry>::empty() =~= done);
                        }
                    },
                    Err(Fault::Malformed) => {
                        proof {
                            lemma_skip_spaces_bounds(whole, at as int);
                            assert(scan_from(whole, at as int).fault == Some(Fault::Malformed));
                        }
                        return Err(KvsError::Codec);
                    },
                }
            }
        }
        proof {
            lemma_scan_cut(whole, 0);
            lemma_scan_framed(whole, 0);
        }
        image.truncate(intact);
        proof {
            assert(image@ =~= whole.take(intact as int));
        }
        Ok(KvStore { log: image, index, redundant_size: redundant, flushed: intact, reader })
    }

    /// The image of the log: what the log file is to hold.
    pub fn log(&self) -> (bytes: &Vec<u8>)
        ensures
            bytes@ == self.log_view(),
    {
        &self.log
    }

    /// The redundant bytes of the log.
    pub fn redundant_size(&self) -> (n: usize)
        ensures
            n == self.redundant(),
    {
        self.redundant_size
    }

    /// The number of live keys.
    pub fn len(&self) -> (n: usize)
        requires
            self.wf(),
        ensures
            n == self@.len(),
            n == self.index_view().len(),
    {
        proof {
            assert(index_of(self.entries()).dom() =~= values_of(self.entries()).dom());
        }
        self.index.len()
    }

    /// From where on the image differs from what the file is known to hold.
    /// Whoever keeps the file cuts it to the length of the image and writes
    /// the image from here on.
    pub fn flushed(&self) -> (from: usize)
        ensures
            from == self.flushed_len(),
    {
        self.flushed
    }

    /// Notes that the file now holds the whole image.
    pub fn mark_flushed(&mut self)
        ensures
            final(self).log_view() == old(self).log_view(),
            final(self).index_view() == old(self).index_view(),
            final(self).redundant() == old(self).redundant(),
            final(self).flushed_len() == final(self).log_view().len(),
            old(self).wf() ==> final(self).wf(),
    {
        self.flushed = self.log.len();
    }

    /// Whether the redundant bytes exceed the limit.
    pub fn needs_compaction(&self) -> (due: bool)
        ensures
            due == (self.redundant() > REDUNDANT_SIZE_LIMIT),
    {
        self.redundant_size > REDUNDANT_SIZE_LIMIT
    }

    /// Writes the record of `op` at the end of the log and enters it into
    /// the index.
    fn append(&mut self, op: Op)
        requires
            old(self).wf(),
        ensures
            final(self).wf(),
            final(self).log_view() == old(self).log_view() + op_text(op@),
            final(self).entries() == old(self).entries().push(
                Entry {
                    op: op@,
                    start: old(self).log_view().len() as int,
                    end: final(self).log_view().len() as int,
                },
            ),
            final(self).flushed_len() == old(self).flushed_len(),
            unchanged_upto(old(self).log_view(), final(self).log_view(), final(self).flushed_len()),
    {
        let ghost before = self.log@;
        let ghost es = scan(before).entries;
        let record = encode_op(&op);
        let start: usize = self.log.len();
        write_bytes(&mut self.log, record.as_slice());
        let end: usize = self.log.len();
        proof {
            lemma_scan_append(before, record@, 0, op@);
            lemma_scan_framed(self.log@, 0);
            assert(self.log@.take(self.flushed as int) =~= before.take(self.flushed as int));
        }
        self.redundant_size =
        index_record(
            &mut self.index,
            self.redundant_size,
            op,
            start,
            end,
            Ghost(self.log@),
            Ghost(es),
        );
    }
}


/// A record is live exactly if it is a `Put` and the index holds its key
/// with its place.
pub proof fn lemma_live_test(log: Seq<u8>, es: Seq<Entry>, i: int)
    requires
        framed(log, es, 0),
        log.len() <= usize::MAX,
        0 <= i < es.len(),
    ensures
        live(es, i) == (es[i].op is Put && index_of(es).contains_key(es[i].op.key()) && index_of(
            es,
        )[es[i].op.key()].start == es[i].start),
{
    let k = es[i].op.key();
    let j = last_of(es, k);
    lemma_last_of_bounds(es, k);
    if j > i {
        assert(es[i].end <= es[j].start);
    }
}

/// The bindings of the keys whose last record is among the first `i + 1`.
pub proof fn lemma_values_upto_step(es: Seq<Entry>, i: int)
    requires
        0 <= i < es.len(),
    ensures
        values_upto(es, i + 1) == if live(es, i) {
            values_upto(es, i).insert(es[i].op.key(), es[i].op->Put_value)
        } else {
            values_upto(es, i)
        },
{
    let want = if live(es, i) {
        values_upto(es, i).insert(es[i].op.key(), es[i].op->Put_value)
    } else {
        values_upto(es, i)
    };
    assert forall|k: Seq<char>|
        (#[trigger] values_upto(es, i + 1).dom().contains(k)) == want.dom().contains(k) && (
        values_upto(es, i + 1).dom().contains(k) ==> values_upto(es, i + 1)[k] == want[k]) by {
        lemma_last_of_bounds(es, k);
    }
    assert(values_upto(es, i + 1) =~= want);
}

/// All records have been seen: the bindings are those of the store.
pub proof fn lemma_values_upto_all(es: Seq<Entry>)
    ensures
        values_upto(es, es.len() as int) == values_of(es),
{
    assert forall|k: Seq<char>|
        (#[trigger] values_upto(es, es.len() as int).dom().contains(k)) == values_of(
            es,
        ).dom().contains(k) by {
        lemma_last_of_bounds(es, k);
    }
    assert(values_upto(es, es.len() as int) =~= values_of(es));
}

/// The next record of a scan that has reached record number `i`.
pub proof fn lemma_scan_next(log: Seq<u8>, es: Seq<Entry>, at: int, i: int)
    requires
        0 <= at <= log.len(),
        log.len() <= usize::MAX,
        0 <= i <= es.len(),
        framed(log, es, 0),
        scan_from(log, at).fault is None,
        scan_from(log, at).entries == es.skip(i),
        skip_spaces(log, at) < log.len(),
    ensures
        i < es.len(),
        op_at(log, skip_spaces(log, at)) == Ok::<(OpModel, int), Fault>((es[i].op, es[i].end)),
        es[i].start == skip_spaces(log, at),
        at <= es[i].start < es[i].end <= log.len(),
        scan_from(log, es[i].end).fault is None,
        scan_from(log, es[i].end).entries == es.skip(i + 1),
        live(es, i) == (es[i].op is Put && index_of(es).contains_key(es[i].op.key()) && index_of(
            es,
        )[es[i].op.key()].start == es[i].start),
        values_upto(es, i + 1) == if live(es, i) {
            values_upto(es, i).insert(es[i].op.key(), es[i].op->Put_value)
        } else {
            values_upto(es, i)
        },
        live_text(log, es, i + 1) == live_text(log, es, i) + if live(es, i) {
            log.subrange(es[i].start, es[i].end)
        } else {
            Seq::empty()
        },
{
    lemma_scan_step(log, at);
    let p = skip_spaces(log, at);
    let (op, e) = op_at(log, p)->Ok_0;
    let entry = Entry { op, start: p, end: e };
    let rest = scan_from(log, e).entries;
    assert(es.skip(i) == seq![entry] + rest);
    assert(es.skip(i).len() > 0);
    assert(es.skip(i)[0] == entry);
    assert(es[i] == entry);
    assert(rest =~= (seq![entry] + rest).skip(1));
    assert(es.skip(i).skip(1) =~= es.skip(i + 1));
    lemma_live_test(log, es, i);
    lemma_values_upto_step(es, i);
}

/// A live record that is copied to the end of the fresh log is found there
/// by a scan, and is live there, and nothing becomes redundant by it.
pub proof fn lemma_keep(
    log: Seq<u8>,
    es: Seq<Entry>,
    i: int,
    fresh: Seq<u8>,
    kept: Seq<Entry>,
)
    requires
        log.len() <= usize::MAX,
        framed(log, es, 0),
        0 <= i < es.len(),
        live(es, i),
        scan(fresh) == (Scan { entries: kept, end: fresh.len() as int, fault: None }),
        redundant_of(kept) == 0,
        values_of(kept) == values_upto(es, i),
        forall|j: int| 0 <= j < kept.len() ==> live(kept, j),
    ensures
        ({
            let record = log.subrange(es[i].start, es[i].end);
            let copy = Entry {
                op: es[i].op,
                start: fresh.len() as int,
                end: (fresh.len() + record.len()) as int,
            };
            let grown = kept.push(copy);
            &&& scan(fresh + record) == (Scan {
                entries: grown,
                end: (fresh + record).len() as int,
                fault: None,
            })
            &&& framed(fresh + record, grown, 0)
            &&& redundant_of(grown) == 0
            &&& values_of(grown) == values_upto(es, i).insert(es[i].op.key(), es[i].op->Put_value)
            &&& forall|j: int| 0 <= j < grown.len() ==> live(grown, j)
        }),
{
    let p = es[i].start;
    let e = es[i].end;
    let op = es[i].op;
    let k = op.key();
    let record = log.subrange(p, e);
    let copy = Entry { op, start: fresh.len() as int, end: (fresh.len() + record.len()) as int };
    let grown = kept.push(copy);
    assert forall|j: int| p <= j < e implies log[j] == #[trigger] record[j + (-p)] by {}
    lemma_op_at_local(log, record, p, -p);
    assert(record[0] == log[p]);
    lemma_scan_append(fresh, record, 0, op);
    lemma_scan_framed(fresh + record, 0);
    lemma_redundant_push(kept, copy);
    lemma_index_push(kept, copy);
    assert(!values_upto(es, i).dom().contains(k));
    assert(!values_of(kept).dom().contains(k));
    assert(!index_of(kept).dom().contains(k));
    assert forall|j: int| 0 <= j < grown.len() implies live(grown, j) by {
        if j < kept.len() {
            lemma_live_push(kept, copy, j);
            assert(live(kept, j));
            if kept[j].op.key() == k {
                assert(last_of(kept, k) == j);
                assert(index_of(kept).dom().contains(k));
            }
        } else {
            lemma_last_of_push(kept, copy, k);
            assert(grown[j] == copy);
        }
    }
}

impl KvStore {
    /// Rewrites the log so that it holds the live records only, in the
    /// order in which the log held them, and points the index at their new
    /// places. The bindings stay as they are; nothing is redundant after.
    pub fn compact(&mut self)
        requires
            old(self).wf(),
        ensures
            final(self).wf(),
            final(self)@ == old(self)@,
            final(self).index_view().dom() == old(self).index_view().dom(),
            final(self).redundant() == 0,
            final(self).log_view() == compacted(old(self).log_view()),
            final(self).flushed_len() == 0,
            forall|j: int| 0 <= j < final(self).entries().len() ==> live(final(self).entries(), j),
    {
        let ghost before = self.log@;
        let ghost es = scan(before).entries;
        let n: usize = self.log.len();
        let mut fresh: Vec<u8> = Vec::new();
        let mut index: StringHashMap<Offset> = StringHashMap::new();
        let mut at: usize = 0;
        let mut more: bool = true;
        let ghost mut kept: Seq<Entry> = Seq::empty();
        let ghost mut i: int = 0;
        proof {
            lemma_scan_framed(before, 0);
            assert(es.skip(0) =~= es);
            assert(index_of(kept) =~= Map::<Seq<char>, Offset>::empty());
            assert(values_of(kept) =~= values_upto(es, 0));
        }
        while more
            invariant
                self.reader.ready(),
                self.log@ == before,
                self.index@ == index_of(es),
                n == before.len(),
                es == scan(before).entries,
                framed(before, es, 0),
                at <= n,
                0 <= i <= es.len(),
                more ==> scan_from(before, at as int).fault is None && scan_from(
                    before,
                    at as int,
                ).entries == es.skip(i),
                !more ==> i == es.len(),
                fresh@ == live_text(before, es, i),
                scan(fresh@) == (Scan { entries: kept, end: fresh@.len() as int, fault: None }),
                index@ == index_of(kept),
                redundant_of(kept) == 0,
                values_of(kept) == values_upto(es, i),
                forall|j: int| 0 <= j < kept.len() ==> live(kept, j),
            decreases n - at, (if more { 1int } else { 0int }),
        {
            let p: usize = skip_white_space(self.log.as_slice(), at);
            if p >= n {
                more = false;
                proof {
                    assert(es.skip(i).len() == 0);
                }
            } else {
                proof {
                    lemma_scan_next(before, es, at as int, i);
                }
                match self.reader.read(self.log.as_slice(), p) {
                    Ok((op, e)) => {
                        let is_live: bool = match &op {
                            Op::Put { key, .. } => match self.index.get(key.as_str()) {
                                Some(offset) => offset.start == p,
                                None => false,
                            },
                            Op::Rm { .. } => false,
                        };
                        if is_live {
                            proof {
                                lemma_keep(before, es, i, fresh@, kept);
                            }
                            let start: usize = fresh.len();
                            write_bytes(&mut fresh, slice_subrange(self.log.as_slice(), p, e));
                            let end: usize = fresh.len();
                            let ghost copy = Entry { op: op@, start: start as int, end: end as int };
                            let _total: usize =
                            index_record(
                                &mut index,
                                0,
                                op,
                                start,
                                end,
                                Ghost(fresh@),
                                Ghost(kept),
                            );
                            proof {
                                kept = kept.push(copy);
                            }
                        }
                        at = e;
                        proof {
                            i = i + 1;
                        }
                    },
                    Err(_) => {
                        more = false;
                        proof {
                            assert(false);
                        }
                    },
                }
            }
        }
        proof {
            lemma_values_upto_all(es);
            assert(index_of(kept).dom() =~= values_of(kept).dom());
            assert(index_of(es).dom() =~= values_of(es).dom());
        }
        self.log = fresh;
        self.index = index;
        self.redundant_size = 0;
        self.flushed = 0;
    }

    /// Compacts the log if its redundant bytes exceed the limit.
    fn settle(&mut self)
        requires
            old(self).wf(),
        ensures
            final(self).wf(),
            final(self)@ == old(self)@,
            final(self).log_view() == settled(old(self).log_view()),
            final(self).flushed_len() == (if old(self).redundant() > REDUNDANT_SIZE_LIMIT {
                0
            } else {
                old(self).flushed_len()
            }),
            final(self).redundant() == (if old(self).redundant() > REDUNDANT_SIZE_LIMIT {
                0
            } else {
                old(self).redundant()
            }),
    {
        if self.needs_compaction() {
            self.compact();
        }
    }
}

impl KvsEngine for KvStore {
    open spec fn contents(&self) -> Map<Seq<char>, Seq<char>> {
        self@
    }

    open spec fn valid(&self) -> bool {
        self.wf()
    }

    open spec fn described() -> bool {
        true
    }

    open spec fn unfailing() -> bool {
        true
    }

    /// Writes a `Put` record at the end of the log and points the index at
    /// it; then compacts the log if its redundant bytes exceed the limit.
    /// This never fails.
    fn set(&mut self, key: String, value: String) -> (r: Result<(), KvsError>)
        ensures
            final(self).log_view() == settled(
                old(self).log_view() + op_text(OpModel::Put { key: key@, value: value@ }),
            ),
            unchanged_upto(old(self).log_view(), final(self).log_view(), final(self).flushed_len()),
            final(self).flushed_len() <= old(self).flushed_len(),
    {
        proof {
            lemma_index_push(
                self.entries(),
                Entry {
                    op: OpModel::Put { key: key@, value: value@ },
                    start: self.log_view().len() as int,
                    end: (self.log_view() + op_text(OpModel::Put { key: key@, value: value@ })).len() as int,
                },
            );
        }
        self.append(Op::set(key, value));
        self.settle();
        proof {
            assert(self.log_view().take(0) =~= old(self).log_view().take(0));
        }
        Ok(())
    }

    /// Reads the value of `key` from its record in the log. This never
    /// fails on a sound store.
    fn get(&self, key: String) -> (r: Result<Option<String>, KvsError>)
    {
        match self.index.get(key.as_str()) {
            None => Ok(None),
            Some(offset) => {
                proof {
                    assert(self.log@.len() == self.log.len());
                    lemma_scan_framed(self.log@, 0);
                    lemma_index_points(self.log@, self.entries(), 0, key@);
                }
                match self.reader.read(self.log.as_slice(), offset.start) {
                    Ok((Op::Put { value, .. }, _)) => Ok(Some(value)),
                    _ => Err(KvsError::Internal),
                }
            },
        }
    }

    /// Writes a `Rm` record at the end of the log and takes the key out of
    /// the index; then compacts the log if its redundant bytes exceed the
    /// limit. Where the key is not bound, nothing is written and the error
    /// is `KeyNotFound`; there is no other error.
    fn remove(&mut self, key: String) -> (r: Result<(), KvsError>)
        ensures
            r is Err ==> final(self).log_view() == old(self).log_view(),
            r is Err ==> final(self).flushed_len() == old(self).flushed_len(),
            r is Ok ==> final(self).log_view() == settled(
                old(self).log_view() + op_text(OpModel::Rm { key: key@ }),
            ),
            unchanged_upto(old(self).log_view(), final(self).log_view(), final(self).flushed_len()),
            final(self).flushed_len() <= old(self).flushed_len(),
    {
        proof {
            assert(index_of(self.entries()).dom() =~= values_of(self.entries()).dom());
        }
        if !self.index.contains_key(key.as_str()) {
            return Err(KvsError::KeyNotFound);
        }
        proof {
            lemma_index_push(
                self.entries(),
                Entry {
                    op: OpModel::Rm { key: key@ },
                    start: self.log_view().len() as int,
                    end: (self.log_view() + op_text(OpModel::Rm { key: key@ })).len() as int,
                },
            );
        }
        self.append(Op::rm(key));
        self.settle();
        proof {
            assert(self.log_view().take(0) =~= old(self).log_view().take(0));
        }
        Ok(())
    }
}


/// The operations of the records, in the order of the log.
pub open spec fn ops_of(es: Seq<Entry>) -> Seq<OpModel> {
    Seq::new(es.len(), |j: int| es[j].op)
}

/// The log is the history: the bindings of a store are those that the
/// operations of its log give, done one after the other on a store that
/// holds nothing.
pub proof fn law_history(es: Seq<Entry>)
    ensures
        values_of(es) == apply_all(Map::empty(), ops_of(es)),
    decreases es.len(),
{
    if es.len() == 0 {
        assert(values_of(es) =~= Map::<Seq<char>, Seq<char>>::empty());
    } else {
        let front = es.drop_last();
        let last = es.last();
        law_history(front);
        assert(es =~= front.push(last));
        lemma_index_push(front, last);
        assert(ops_of(es).drop_last() =~= ops_of(front));
        assert(ops_of(es).last() == last.op);
    }
}

/// The index points at the live values: where the index of a sound store
/// has a key, the log holds at that place a `Put` of the key with the value
/// that the key is bound to.
pub proof fn law_index_points(store: KvStore, key: Seq<char>)
    requires
        store.wf(),
        store.log_view().len() <= usize::MAX,
        store.index_view().contains_key(key),
    ensures
        store@.contains_key(key),
        op_at(store.log_view(), store.index_view()[key].start as int) == Ok::<
            (OpModel, int),
            Fault,
        >((OpModel::Put { key, value: store@[key] }, store.index_view()[key].end as int)),
{
    lemma_scan_framed(store.log_view(), 0);
    lemma_index_points(store.log_view(), store.entries(), 0, key);
}

/// What is not in the index is dead: a record of a sound store is live
/// exactly if it is a `Put` and the index holds its key with its place; the
/// redundant bytes are the bytes of all other records.
pub proof fn law_dead_records(store: KvStore, j: int)
    requires
        store.wf(),
        store.log_view().len() <= usize::MAX,
        0 <= j < store.entries().len(),
    ensures
        live(store.entries(), j) == (store.entries()[j].op is Put && store.index_view().contains_key(
            store.entries()[j].op.key(),
        ) && store.index_view()[store.entries()[j].op.key()].start == store.entries()[j].start),
        store.redundant() == dead_bytes(store.entries(), store.entries().len() as int),
{
    lemma_scan_framed(store.log_view(), 0);
    lemma_live_test(store.log_view(), store.entries(), j);
}

/// Replay: a sound store that is closed and opened again on its log is a
/// sound store with the same bindings, the same index and the same
/// redundant bytes; so each key is found as it was.
pub proof fn law_replay(store: KvStore, reopened: Result<KvStore, KvsError>, key: Seq<char>)
    requires
        store.wf(),
        opened(store.log_view(), reopened),
    ensures
        reopened matches Ok(again) && {
            &&& again.wf()
            &&& again.log_view() == store.log_view()
            &&& again@ == store@
            &&& again.index_view() == store.index_view()
            &&& again.redundant() == store.redundant()
            &&& lookup(again@, key) == lookup(store@, key)
        },
{
    let log = store.log_view();
    lemma_scan_framed(log, 0);
    assert(log.take(log.len() as int) =~= log);
}

/// The records are all live and fill the log from end to end, with nothing
/// between them.
pub open spec fn tight(log: Seq<u8>, es: Seq<Entry>) -> bool {
    &&& forall|j: int| 0 <= j < es.len() ==> live(es, j)
    &&& es.len() == 0 ==> log.len() == 0
    &&& es.len() > 0 ==> es[0].start == 0 && es.last().end == log.len()
    &&& forall|j: int| 0 <= j < es.len() - 1 ==> (#[trigger] es[j]).end == es[j + 1].start
}

/// The log that holds the live ones of the first `i` records of a sound log
/// is sound, holds nothing else, and binds the keys whose last record is
/// among them.
pub proof fn lemma_live_text_scan(log: Seq<u8>, i: int)
    requires
        log.len() <= usize::MAX,
        scan(log).fault is None,
        0 <= i <= scan(log).entries.len(),
    ensures
        ({
            let fresh = live_text(log, scan(log).entries, i);
            let kept = scan(fresh).entries;
            &&& scan(fresh).fault is None
            &&& scan(fresh).end == fresh.len()
            &&& redundant_of(kept) == 0
            &&& values_of(kept) == values_upto(scan(log).entries, i)
            &&& tight(fresh, kept)
        }),
    decreases i,
{
    let es = scan(log).entries;
    lemma_scan_framed(log, 0);
    if i == 0 {
        let fresh = live_text(log, es, 0);
        assert(fresh =~= Seq::<u8>::empty());
        let kept = scan(fresh).entries;
        assert(kept =~= Seq::<Entry>::empty());
        assert(values_of(kept) =~= values_upto(es, 0));
    } else {
        lemma_live_text_scan(log, i - 1);
        lemma_values_upto_step(es, i - 1);
        let fresh = live_text(log, es, i - 1);
        let kept = scan(fresh).entries;
        if live(es, i - 1) {
            lemma_keep(log, es, i - 1, fresh, kept);
            let record = log.subrange(es[i - 1].start, es[i - 1].end);
            let copy = Entry {
                op: es[i - 1].op,
                start: fresh.len() as int,
                end: (fresh.len() + record.len()) as int,
            };
            let grown = kept.push(copy);
            assert(live_text(log, es, i) == fresh + record);
            assert(grown.last() == copy);
            assert forall|j: int| 0 <= j < grown.len() - 1 implies (#[trigger] grown[j]).end
                == grown[j + 1].start by {
                if j < kept.len() - 1 {
                    assert(grown[j] == kept[j]);
                    assert(grown[j + 1] == kept[j + 1]);
                } else {
                    assert(grown[j] == kept.last());
                    assert(grown[j + 1] == copy);
                }
            }
            if kept.len() > 0 {
                assert(grown[0] == kept[0]);
            }
        } else {
            assert(live_text(log, es, i) =~= fresh);
        }
    }
}

/// The live records of a tight log are the log itself.
pub proof fn lemma_tight_text(log: Seq<u8>, es: Seq<Entry>, n: int)
    requires
        tight(log, es),
        forall|j: int| 0 <= j < es.len() ==> 0 <= (#[trigger] es[j]).start <= es[j].end <= log.len(),
        0 <= n <= es.len(),
    ensures
        live_text(log, es, n) == log.take(
            if n == 0 {
                0
            } else {
                es[n - 1].end
            },
        ),
    decreases n,
{
    if n == 0 {
        assert(log.take(0) =~= Seq::<u8>::empty());
    } else {
        lemma_tight_text(log, es, n - 1);
        let e = es[n - 1];
        let front = live_text(log, es, n - 1);
        assert(live(es, n - 1));
        assert(0 <= e.start <= e.end <= log.len());
        assert(front == log.take(e.start)) by {
            if n > 1 {
                assert(es[n - 2].end == es[n - 2 + 1].start);
            }
        }
        assert(live_text(log, es, n) == front + log.subrange(e.start, e.end));
        assert(log.take(e.start) + log.subrange(e.start, e.end) =~= log.take(e.end));
    }
}

/// Compaction: the compacted log of a sound store is sound, binds each key
/// as the log did, holds the same keys in its index, and holds nothing
/// redundant: all its records are live, and they fill it from end to end.
/// To compact it again leaves it as it is.
pub proof fn law_compaction(log: Seq<u8>, key: Seq<char>)
    requires
        log.len() <= usize::MAX,
        scan(log).fault is None,
    ensures
        ({
            let before = scan(log).entries;
            let after = scan(compacted(log)).entries;
            &&& scan(compacted(log)).fault is None
            &&& values_of(after) == values_of(before)
            &&& lookup(values_of(after), key) == lookup(values_of(before), key)
            &&& index_of(after).dom() == index_of(before).dom()
            &&& redundant_of(after) == 0
            &&& tight(compacted(log), after)
            &&& compacted(compacted(log)) == compacted(log)
        }),
{
    let before = scan(log).entries;
    let fresh = compacted(log);
    let after = scan(fresh).entries;
    lemma_live_text_scan(log, before.len() as int);
    lemma_values_upto_all(before);
    assert(index_of(after).dom() =~= values_of(after).dom());
    assert(index_of(before).dom() =~= values_of(before).dom());
    lemma_scan_framed(fresh, 0);
    assert forall|j: int| 0 <= j < after.len() implies 0 <= (#[trigger] after[j]).start
        <= after[j].end <= fresh.len() by {}
    lemma_tight_text(fresh, after, after.len() as int);
    assert(fresh.take(fresh.len() as int) =~= fresh);
    if after.len() == 0 {
        assert(fresh.take(0) =~= fresh);
    }
}

} // verus!
