use vstd::prelude::*;
use vstd::string::*;

use crate::command::{Command, CommandPos, CommandView};
use crate::error::MyError;
use crate::index::KeyIndex;
use crate::writer::WriterWithPos;

verus! {

/// Once this many bytes of the log are no longer live, the log is compacted.
pub const MAX_SPACE: u64 = 1048576;

/// A record read back from the log, with the offset just past its last byte.
pub struct LogRecord {
    pub command: Command,
    pub end: u64,
}

/// The mathematical value of a [`LogRecord`].
pub struct LogRecordView {
    pub command: CommandView,
    pub end: u64,
}

impl View for LogRecord {
    type V = LogRecordView;

    open spec fn view(&self) -> LogRecordView {
        LogRecordView { command: self.command@, end: self.end }
    }
}

/// The value of a log given as a vector of records.
pub open spec fn log_view(log: Seq<LogRecord>) -> Seq<LogRecordView> {
    log.map_values(|r: LogRecord| r@)
}

/// The offsets that end the records never go down along the log.
pub open spec fn ends_ordered(log: Seq<LogRecordView>) -> bool {
    forall|i: int, j: int| 0 <= i <= j < log.len() ==> #[trigger] log[i].end <= #[trigger] log[j].end
}

/// The effect of one record on the index, when the previous record ended at `pos`:
/// a `SetValue` record points its key at itself, an `Rm` record drops its key,
/// a `Get` record does not belong in a log.
pub open spec fn replay_step(
    index: Map<Seq<char>, CommandPos>,
    pos: u64,
    rec: LogRecordView,
) -> Option<(Map<Seq<char>, CommandPos>, u64)> {
    match rec.command {
        CommandView::SetValue { key, .. } => Some(
            (index.insert(key, CommandPos { offset: pos, size: (rec.end - pos) as u64 }), rec.end),
        ),
        CommandView::Rm { key } => Some((index.remove(key), rec.end)),
        CommandView::Get { .. } => None,
    }
}

/// The index that replaying a log from its start builds, with the offset where the log ends;
/// `None` when the log holds a record that cannot be replayed.
pub open spec fn replay(log: Seq<LogRecordView>) -> Option<(Map<Seq<char>, CommandPos>, u64)>
    decreases log.len(),
{
    if log.len() == 0 {
        Some((Map::empty(), 0u64))
    } else {
        match replay(log.drop_last()) {
            None => None,
            Some((index, pos)) => replay_step(index, pos, log.last()),
        }
    }
}

proof fn lemma_replay_fails_on(log: Seq<LogRecordView>, k: int)
    requires
        0 <= k <= log.len(),
        replay(log.take(k)) is None,
    ensures
        replay(log) is None,
    decreases log.len() - k,
{
    if k == log.len() {
        assert(log.take(k) =~= log);
    } else {
        assert(log.take(k + 1).drop_last() =~= log.take(k));
        lemma_replay_fails_on(log, k + 1);
    }
}

proof fn lemma_replay_end(log: Seq<LogRecordView>)
    requires
        replay(log) is Some,
    ensures
        log.len() == 0 ==> replay(log).unwrap().1 == 0,
        log.len() > 0 ==> replay(log).unwrap().1 == log.last().end,
    decreases log.len(),
{
}

/// Rebuilds the index from the records of the log, in their order, and gives back the
/// offset at which the log ends.
pub fn read_log(log: &Vec<LogRecord>) -> (r: Result<(KeyIndex, u64), MyError>)
    requires
        ends_ordered(log_view(log@)),
    ensures
        match replay(log_view(log@)) {
            Some((index, end)) => r matches Ok((content, pos)) && content.wf() && content@
                == index && pos == end,
            None => r == Err::<(KeyIndex, u64), MyError>(MyError::UnexpectedCommand),
        },
{
    let ghost lv = log_view(log@);
    let mut content = KeyIndex::new();
    let mut pos: u64 = 0;
    let mut i: usize = 0;
    assert(lv.take(0) =~= Seq::<LogRecordView>::empty());
    while i < log.len()
        invariant
            i <= log@.len(),
            lv == log_view(log@),
            lv.len() == log@.len(),
            ends_ordered(lv),
            content.wf(),
            replay(lv.take(i as int)) == Some((content@, pos)),
            i == 0 ==> pos == 0,
            i > 0 ==> pos == lv[i - 1].end,
        decreases log@.len() - i,
    {
        let rec = &log[i];
        let offset = rec.end;
        assert(lv[i as int] == rec@);
        assert(lv.take(i as int + 1).drop_last() =~= lv.take(i as int));
        assert(lv.take(i as int + 1).last() == rec@);
        if i > 0 {
            assert(lv[i - 1].end <= lv[i as int].end);
        }
        match &rec.command {
            Command::SetValue { key, .. } => {
                let _ = content.insert(key.clone(), CommandPos { size: offset - pos, offset: pos });
            },
            Command::Rm { key } => {
                let _ = content.remove(key);
            },
            Command::Get { .. } => {
                proof {
                    lemma_replay_fails_on(lv, i as int + 1);
                }
                return Err(MyError::UnexpectedCommand);
            },
        }
        pos = offset;
        i = i + 1;
    }
    assert(lv.take(i as int) =~= lv);
    Ok((content, pos))
}

/// The path of the log file in the directory `path`, or of the file that compaction
/// writes first when `backup` holds.
pub open spec fn log_file_path(path: Seq<char>, backup: bool) -> Seq<char> {
    let log = join_path_spec(path, seq!['k', 'v', 's', '.', 'l', 'o', 'g']);
    if backup {
        join_path_spec(log, seq!['.', 't', 'm', 'p'])
    } else {
        log
    }
}

/// `base` with the relative path `name` adjoined, as a Unix path: a `/` goes between them
/// unless `base` is empty or already ends with one.
pub open spec fn join_path_spec(base: Seq<char>, name: Seq<char>) -> Seq<char> {
    if base.len() > 0 && base.last() != '/' {
        base + seq!['/'] + name
    } else {
        base + name
    }
}

fn join_path(base: &str, name: &str) -> (r: String)
    ensures
        r@ == join_path_spec(base@, name@),
{
    let n = base.unicode_len();
    let mut s = String::from_str(base);
    if n > 0 && base.get_char(n - 1) != '/' {
        s.append("/");
        proof {
            reveal_strlit("/");
        }
    }
    s.append(name);
    s
}

/// The log file in the directory `path`; with `backup`, the file that compaction writes first.
pub fn get_log_file(path: &str, backup: bool) -> (r: String)
    ensures
        r@ == log_file_path(path@, backup),
{
    let new_path = join_path(path, "kvs.log");
    proof {
        reveal_strlit("kvs.log");
        reveal_strlit(".tmp");
    }
    if backup {
        join_path(new_path.as_str(), ".tmp")
    } else {
        new_path
    }
}

/// The mathematical value of a [`KvStore`].
pub struct KvStoreView {
    pub path: Seq<char>,
    pub index: Map<Seq<char>, CommandPos>,
    pub unused_space: u64,
    pub writer_pos: u64,
}

/// Where the latest value of `key` lies in the log, if the key is live.
pub open spec fn lookup(s: KvStoreView, key: Seq<char>) -> Option<CommandPos> {
    if s.index.contains_key(key) {
        Some(s.index[key])
    } else {
        None
    }
}

/// The store after `count` more bytes went to the end of its log.
pub open spec fn record_write_spec(s: KvStoreView, count: nat) -> KvStoreView {
    KvStoreView { writer_pos: (s.writer_pos + count) as u64, ..s }
}

/// Adding the size of the record of `key`, if it is live, to the unused space stays within
/// `u64`: the arithmetic of `set` and `remove`.
pub open spec fn unused_fits(s: KvStoreView, key: Seq<char>) -> bool {
    s.index.contains_key(key) ==> s.unused_space + s.index[key].size <= u64::MAX
}

/// The store after the `SetValue` record for `key` that starts at `pos` and ends where the
/// writer stands, with whether the log is now due for compaction. The space of a record
/// that the new one replaces no longer counts as live.
pub open spec fn set_spec(s: KvStoreView, key: Seq<char>, pos: u64) -> (KvStoreView, bool) {
    let replaced = s.index.contains_key(key);
    let unused = if replaced {
        s.unused_space + s.index[key].size
    } else {
        s.unused_space as int
    };
    (
        KvStoreView {
            index: s.index.insert(key, CommandPos { offset: pos, size: (s.writer_pos - pos) as u64 }),
            unused_space: unused as u64,
            ..s
        },
        replaced && unused > MAX_SPACE,
    )
}

/// The key that a record is about.
pub open spec fn command_key(c: CommandView) -> Seq<char> {
    match c {
        CommandView::Get { key } => key,
        CommandView::SetValue { key, .. } => key,
        CommandView::Rm { key } => key,
    }
}

/// What `prepare_remove` decides: the `Rm` record to write for a live key, else `KeyNotFound`.
pub open spec fn prepare_remove_spec(s: KvStoreView, key: Seq<char>) -> Result<CommandView, MyError> {
    if s.index.contains_key(key) {
        Ok(CommandView::Rm { key })
    } else {
        Err(MyError::KeyNotFound)
    }
}

/// The store after `remove` of `key`, whose `Rm` record went to the log, with whether the log
/// is now due for compaction. The space of the value it drops no longer counts as live.
pub open spec fn remove_spec(s: KvStoreView, key: Seq<char>) -> (KvStoreView, bool) {
    let unused = if s.index.contains_key(key) {
        s.unused_space + s.index[key].size
    } else {
        s.unused_space as int
    };
    (
        KvStoreView { index: s.index.remove(key), unused_space: unused as u64, ..s },
        unused > MAX_SPACE,
    )
}

/// The store after a compaction of its log: no byte of it counts as unused any more.
pub open spec fn compact_spec(s: KvStoreView) -> KvStoreView {
    KvStoreView { unused_space: 0, ..s }
}

/// The store as `open` builds it from a replayed log: all of the log counts as unused space.
pub open spec fn open_spec(
    path: Seq<char>,
    index: Map<Seq<char>, CommandPos>,
    end: u64,
    writer_pos: u64,
) -> KvStoreView {
    KvStoreView { path, index, unused_space: end, writer_pos }
}

/// The store's index is the one that replaying `log` builds, and its writer stands where
/// `log` ends.
pub open spec fn in_sync(s: KvStoreView, log: Seq<LogRecordView>) -> bool {
    &&& replay(log) is Some
    &&& s.index == replay(log).unwrap().0
    &&& s.writer_pos == replay(log).unwrap().1
}

/// A lookup right after `set` of `key` finds the record that `set` was given, and every
/// other key is found where it was before.
pub proof fn law_get_after_set(s: KvStoreView, key: Seq<char>, pos: u64, other: Seq<char>)
    requires
        pos <= s.writer_pos,
    ensures
        lookup(set_spec(s, key, pos).0, key) == Some(
            CommandPos { offset: pos, size: (s.writer_pos - pos) as u64 },
        ),
        other != key ==> lookup(set_spec(s, key, pos).0, other) == lookup(s, other),
{
}

/// After `remove` of a key the key is no longer found, and every other key is found where
/// it was before.
pub proof fn law_get_after_remove(s: KvStoreView, key: Seq<char>, other: Seq<char>)
    ensures
        lookup(remove_spec(s, key).0, key) is None,
        other != key ==> lookup(remove_spec(s, key).0, other) == lookup(s, other),
{
}

/// Removing a key is refused with `KeyNotFound` exactly when the key is not live; a live key
/// is removed with its own `Rm` record.
pub proof fn law_remove_refused_iff_absent(s: KvStoreView, key: Seq<char>)
    ensures
        prepare_remove_spec(s, key) == Err::<CommandView, MyError>(MyError::KeyNotFound)
            <==> !s.index.contains_key(key),
        prepare_remove_spec(s, key) is Ok ==> prepare_remove_spec(s, key) == Ok::<
            CommandView,
            MyError,
        >(CommandView::Rm { key }),
{
}

/// The log file lies inside the store's directory, as `Path::join` places it: for a directory
/// that is not empty and does not end with `/`, a `/` comes between the directory and
/// `kvs.log`, whatever the directory starts with; a directory that is empty or ends with `/`
/// is followed by `kvs.log` directly. The file that compaction writes first is `.tmp` inside
/// the log file's path.
pub proof fn law_log_file_inside_directory(d: Seq<char>)
    ensures
        d.len() > 0 && d[d.len() - 1] != '/' ==> log_file_path(d, false) == d + seq![
            '/',
            'k',
            'v',
            's',
            '.',
            'l',
            'o',
            'g',
        ],
        d.len() == 0 || d[d.len() - 1] == '/' ==> log_file_path(d, false) == d + seq![
            'k',
            'v',
            's',
            '.',
            'l',
            'o',
            'g',
        ],
        log_file_path(d, true) == log_file_path(d, false) + seq!['/', '.', 't', 'm', 'p'],
{
    let log = log_file_path(d, false);
    assert(log.len() > 0);
    assert(log[log.len() - 1] == 'g');
    assert(log.last() == 'g');
    if d.len() > 0 {
        assert(d.last() == d[d.len() - 1]);
    }
}

/// `remove` counts the size of the removed key's record as unused, leaves the unused space
/// as it is for a key that is not live, and reports compaction due exactly when the unused
/// space it leaves exceeds `MAX_SPACE`.
pub proof fn law_compaction_due_after_remove(s: KvStoreView, key: Seq<char>)
    requires
        unused_fits(s, key),
    ensures
        remove_spec(s, key).0.unused_space == s.unused_space + (if s.index.contains_key(key) {
            s.index[key].size as int
        } else {
            0
        }),
        remove_spec(s, key).1 <==> remove_spec(s, key).0.unused_space > MAX_SPACE,
{
}

/// `set` counts the size of the record it replaces as unused, leaves the unused space as it is
/// for a new key, and reports compaction due only when it replaced a live value and the unused
/// space then exceeds `MAX_SPACE`.
pub proof fn law_compaction_due_after_overwrite(s: KvStoreView, key: Seq<char>, pos: u64)
    requires
        pos <= s.writer_pos,
        unused_fits(s, key),
    ensures
        set_spec(s, key, pos).0.unused_space == s.unused_space + (if s.index.contains_key(key) {
            s.index[key].size as int
        } else {
            0
        }),
        set_spec(s, key, pos).1 <==> (s.index.contains_key(key) && set_spec(s, key, pos).0.unused_space
            > MAX_SPACE),
{
}

/// `set`, `remove` and `compact` keep the directory and the writer's position; writing to the
/// log moves the writer forward by the bytes written.
pub proof fn law_operations_keep_path_and_writer(s: KvStoreView, key: Seq<char>, pos: u64, count: nat)
    requires
        pos <= s.writer_pos,
        s.writer_pos + count <= u64::MAX,
    ensures
        set_spec(s, key, pos).0.path == s.path,
        set_spec(s, key, pos).0.writer_pos == s.writer_pos,
        remove_spec(s, key).0.path == s.path,
        remove_spec(s, key).0.writer_pos == s.writer_pos,
        record_write_spec(s, count).writer_pos == s.writer_pos + count,
        record_write_spec(s, count).index == s.index,
        compact_spec(s).path == s.path,
        compact_spec(s).writer_pos == s.writer_pos,
        compact_spec(s).index == s.index,
{
}

/// A store opened from a log with its writer where the log ends agrees with that log.
pub proof fn law_open_agrees_with_log(path: Seq<char>, log: Seq<LogRecordView>)
    requires
        replay(log) is Some,
    ensures
        in_sync(open_spec(path, replay(log).unwrap().0, replay(log).unwrap().1, replay(log).unwrap().1), log),
{
}

/// Writing the `SetValue` record of `key` at the end of the log and then `set` of `key` at the
/// position where the record starts keeps the store in agreement with the log: replaying the
/// longer log builds the store's new index and ends where its writer stands.
pub proof fn law_set_keeps_log_in_sync(
    s: KvStoreView,
    log: Seq<LogRecordView>,
    key: Seq<char>,
    value: Seq<char>,
    count: nat,
)
    requires
        in_sync(s, log),
        s.writer_pos + count <= u64::MAX,
    ensures
        ({
            let written = record_write_spec(s, count);
            let rec = LogRecordView {
                command: CommandView::SetValue { key, value },
                end: written.writer_pos,
            };
            &&& in_sync(set_spec(written, key, s.writer_pos).0, log.push(rec))
            &&& ends_ordered(log) ==> ends_ordered(log.push(rec))
        }),
{
    let written = record_write_spec(s, count);
    let rec = LogRecordView { command: CommandView::SetValue { key, value }, end: written.writer_pos };
    assert(log.push(rec).drop_last() =~= log);
    lemma_replay_end(log);
    lemma_push_ordered(log, rec);
}

/// Writing the `Rm` record of `key` at the end of the log and then `remove` of `key` keeps
/// the store in agreement with the log.
pub proof fn law_remove_keeps_log_in_sync(s: KvStoreView, log: Seq<LogRecordView>, key: Seq<char>, count: nat)
    requires
        in_sync(s, log),
        s.writer_pos + count <= u64::MAX,
    ensures
        ({
            let written = record_write_spec(s, count);
            let rec = LogRecordView { command: CommandView::Rm { key }, end: written.writer_pos };
            &&& in_sync(remove_spec(written, key).0, log.push(rec))
            &&& ends_ordered(log) ==> ends_ordered(log.push(rec))
        }),
{
    let written = record_write_spec(s, count);
    let rec = LogRecordView { command: CommandView::Rm { key }, end: written.writer_pos };
    assert(log.push(rec).drop_last() =~= log);
    lemma_replay_end(log);
    lemma_push_ordered(log, rec);
}

/// Every live key's record lies in the part of the log that the writer has passed.
pub open spec fn records_within_log(s: KvStoreView) -> bool {
    forall|k: Seq<char>| #[trigger]
        s.index.contains_key(k) ==> s.index[k].offset + s.index[k].size <= s.writer_pos
}

/// Replaying an ordered log points every key at a record that ends no later than the log.
pub proof fn law_replay_records_within_log(log: Seq<LogRecordView>)
    requires
        ends_ordered(log),
        replay(log) is Some,
    ensures
        forall|k: Seq<char>| #[trigger]
            replay(log).unwrap().0.contains_key(k) ==> replay(log).unwrap().0[k].offset
                + replay(log).unwrap().0[k].size <= replay(log).unwrap().1,
    decreases log.len(),
{
    if log.len() > 0 {
        let prefix = log.drop_last();
        assert(ends_ordered(prefix)) by {
            assert forall|i: int, j: int| 0 <= i <= j < prefix.len() implies #[trigger] prefix[i].end
                <= #[trigger] prefix[j].end by {
                assert(prefix[i] == log[i] && prefix[j] == log[j]);
            }
        }
        law_replay_records_within_log(prefix);
        lemma_replay_end(prefix);
        if prefix.len() > 0 {
            assert(prefix.last() == log[log.len() - 2]);
            assert(log[log.len() - 2].end <= log[log.len() - 1].end);
        }
    }
}

/// Every operation keeps the records of live keys inside the part of the log that the writer
/// has passed, when `set` is given the position the writer had before the record was written.
pub proof fn law_records_stay_within_log(s: KvStoreView, key: Seq<char>, count: nat)
    requires
        records_within_log(s),
        s.writer_pos + count <= u64::MAX,
    ensures
        records_within_log(record_write_spec(s, count)),
        records_within_log(set_spec(record_write_spec(s, count), key, s.writer_pos).0),
        records_within_log(remove_spec(s, key).0),
        records_within_log(compact_spec(s)),
{
    let w = record_write_spec(s, count);
    assert(records_within_log(w));
    let after = set_spec(w, key, s.writer_pos).0;
    assert forall|k: Seq<char>| #[trigger] after.index.contains_key(k) implies after.index[k].offset
        + after.index[k].size <= after.writer_pos by {
        if k != key {
            assert(s.index.contains_key(k));
        }
    }
    let r = remove_spec(s, key).0;
    assert forall|k: Seq<char>| #[trigger] r.index.contains_key(k) implies r.index[k].offset
        + r.index[k].size <= r.writer_pos by {
        assert(s.index.contains_key(k));
    }
}

proof fn lemma_push_ordered(log: Seq<LogRecordView>, rec: LogRecordView)
    requires
        replay(log) is Some,
        rec.end >= replay(log).unwrap().1,
    ensures
        ends_ordered(log) ==> ends_ordered(log.push(rec)),
{
    lemma_replay_end(log);
    if ends_ordered(log) {
        let l2 = log.push(rec);
        assert forall|i: int, j: int| 0 <= i <= j < l2.len() implies #[trigger] l2[i].end
            <= #[trigger] l2[j].end by {
            if j < log.len() {
                assert(l2[i] == log[i] && l2[j] == log[j]);
            } else if i < log.len() {
                assert(l2[i] == log[i]);
                assert(log[i].end <= log[log.len() - 1].end);
            }
        }
    }
}

/// The index of the last record of `log` that is about `key`, if any.
pub open spec fn last_touch(log: Seq<LogRecordView>, key: Seq<char>) -> Option<int>
    decreases log.len(),
{
    if log.len() == 0 {
        None
    } else if command_key(log.last().command) == key {
        Some(log.len() - 1)
    } else {
        last_touch(log.drop_last(), key)
    }
}

/// The bytes of the log that record `i` takes: from the end of the record before it (or the
/// start of the log) up to its own end.
pub open spec fn record_range(log: Seq<LogRecordView>, i: int) -> CommandPos {
    let start: u64 = if i == 0 {
        0
    } else {
        log[i - 1].end
    };
    CommandPos { offset: start, size: (log[i].end - start) as u64 }
}

/// Where the value of `key` lies after the records of `log`: the bytes of the last record about
/// `key` when that record is a `SetValue`, else nowhere.
pub open spec fn last_value_pos(log: Seq<LogRecordView>, key: Seq<char>) -> Option<CommandPos> {
    match last_touch(log, key) {
        Some(i) => if log[i].command is SetValue {
            Some(record_range(log, i))
        } else {
            None
        },
        None => None,
    }
}

proof fn lemma_last_touch_bounds(log: Seq<LogRecordView>, key: Seq<char>)
    ensures
        last_touch(log, key) matches Some(i) ==> 0 <= i < log.len() && command_key(log[i].command)
            == key,
        last_touch(log, key) matches Some(i) ==> forall|j: int|
            i < j < log.len() ==> command_key(#[trigger] log[j].command) != key,
        last_touch(log, key) is None ==> forall|j: int|
            0 <= j < log.len() ==> command_key(#[trigger] log[j].command) != key,
    decreases log.len(),
{
    if log.len() > 0 {
        lemma_last_touch_bounds(log.drop_last(), key);
        let p = log.drop_last();
        assert forall|j: int| 0 <= j < p.len() implies p[j] == log[j] by {}
    }
}

/// Replaying a log points each key at the bytes of its last record when that record is a
/// `SetValue` of the key (so no `Rm` of it follows), and leaves out every other key.
pub proof fn law_replay_points_at_last_set(log: Seq<LogRecordView>, key: Seq<char>)
    requires
        ends_ordered(log),
        replay(log) is Some,
    ensures
        lookup_index(replay(log).unwrap().0, key) == last_value_pos(log, key),
        last_touch(log, key) matches Some(i) ==> 0 <= i < log.len() && command_key(log[i].command)
            == key && forall|j: int| i < j < log.len() ==> command_key(#[trigger] log[j].command)
            != key,
    decreases log.len(),
{
    lemma_last_touch_bounds(log, key);
    if log.len() > 0 {
        let p = log.drop_last();
        assert(ends_ordered(p)) by {
            assert forall|i: int, j: int| 0 <= i <= j < p.len() implies #[trigger] p[i].end
                <= #[trigger] p[j].end by {
                assert(p[i] == log[i] && p[j] == log[j]);
            }
        }
        law_replay_points_at_last_set(p, key);
        lemma_replay_end(p);
        let n = log.len() - 1;
        if command_key(log.last().command) != key {
            if let Some(i) = last_touch(p, key) {
                assert(p[i] == log[i]);
                if i > 0 {
                    assert(p[i - 1] == log[i - 1]);
                }
                assert(record_range(p, i) == record_range(log, i));
            }
        } else {
            if n > 0 {
                assert(p.last() == log[n - 1]);
            }
        }
    }
}

/// The position recorded for `key` in `index`, if any.
pub open spec fn lookup_index(index: Map<Seq<char>, CommandPos>, key: Seq<char>) -> Option<CommandPos> {
    if index.contains_key(key) {
        Some(index[key])
    } else {
        None
    }
}

/// A store that agrees with its log finds each key at the bytes of the last record about it
/// in the log, when that record is a `SetValue`, and does not find the other keys.
pub proof fn law_store_points_at_last_set(s: KvStoreView, log: Seq<LogRecordView>, key: Seq<char>)
    requires
        in_sync(s, log),
        ends_ordered(log),
    ensures
        lookup(s, key) == last_value_pos(log, key),
{
    law_replay_points_at_last_set(log, key);
}

/// One operation of a history of the store: a `set` or a `remove` of `key`, whose record took
/// `count` bytes of the log.
pub enum StoreOp {
    SetValue { key: Seq<char>, value: Seq<char>, count: nat },
    Remove { key: Seq<char>, count: nat },
}

/// The record that an operation appends to the log of the store `s`.
pub open spec fn op_record(s: KvStoreView, op: StoreOp) -> LogRecordView {
    match op {
        StoreOp::SetValue { key, value, count } => LogRecordView {
            command: CommandView::SetValue { key, value },
            end: (s.writer_pos + count) as u64,
        },
        StoreOp::Remove { key, count } => LogRecordView {
            command: CommandView::Rm { key },
            end: (s.writer_pos + count) as u64,
        },
    }
}

/// The store after an operation: its record is written, then `set` (at the position where
/// the record starts) or `remove` is applied.
pub open spec fn apply_op(s: KvStoreView, op: StoreOp) -> KvStoreView {
    match op {
        StoreOp::SetValue { key, count, .. } => set_spec(record_write_spec(s, count), key, s.writer_pos).0,
        StoreOp::Remove { key, count } => remove_spec(record_write_spec(s, count), key).0,
    }
}

/// The bytes that the records of a history take.
pub open spec fn ops_size(ops: Seq<StoreOp>) -> nat
    decreases ops.len(),
{
    if ops.len() == 0 {
        0
    } else {
        ops_size(ops.drop_last()) + match ops.last() {
            StoreOp::SetValue { count, .. } => count,
            StoreOp::Remove { count, .. } => count,
        }
    }
}

/// The store after a history of operations, with the records that the history appended.
pub open spec fn run(s: KvStoreView, ops: Seq<StoreOp>) -> (KvStoreView, Seq<LogRecordView>)
    decreases ops.len(),
{
    if ops.len() == 0 {
        (s, Seq::empty())
    } else {
        let (mid, recs) = run(s, ops.drop_last());
        (apply_op(mid, ops.last()), recs.push(op_record(mid, ops.last())))
    }
}

/// A store that agrees with its log still agrees with it after any history of operations,
/// the log grown by the records of the history; each record is the one of its operation.
pub proof fn law_history_keeps_log_in_sync(s: KvStoreView, log: Seq<LogRecordView>, ops: Seq<StoreOp>)
    requires
        in_sync(s, log),
        ends_ordered(log),
        s.writer_pos + ops_size(ops) <= u64::MAX,
    ensures
        in_sync(run(s, ops).0, log + run(s, ops).1),
        ends_ordered(log + run(s, ops).1),
        run(s, ops).0.writer_pos == s.writer_pos + ops_size(ops),
        run(s, ops).1.len() == ops.len(),
        forall|j: int| 0 <= j < ops.len() ==> #[trigger] run(s, ops).1[j].command == (match ops[j] {
            StoreOp::SetValue { key, value, .. } => CommandView::SetValue { key, value },
            StoreOp::Remove { key, .. } => CommandView::Rm { key },
        }),
    decreases ops.len(),
{
    if ops.len() > 0 {
        let prev = ops.drop_last();
        law_history_keeps_log_in_sync(s, log, prev);
        let (mid, recs) = run(s, prev);
        let op = ops.last();
        let rec = op_record(mid, op);
        assert(log + recs.push(rec) =~= (log + recs).push(rec));
        match op {
            StoreOp::SetValue { key, value, count } => {
                law_set_keeps_log_in_sync(mid, log + recs, key, value, count);
            },
            StoreOp::Remove { key, count } => {
                law_remove_keeps_log_in_sync(mid, log + recs, key, count);
            },
        }
        assert forall|j: int| 0 <= j < prev.len() implies prev[j] == ops[j] by {}
    }
}

proof fn lemma_last_touch_concat(a: Seq<LogRecordView>, b: Seq<LogRecordView>, key: Seq<char>)
    ensures
        last_touch(a + b, key) == (match last_touch(b, key) {
            Some(j) => Some(a.len() + j),
            None => last_touch(a, key),
        }),
    decreases b.len(),
{
    if b.len() == 0 {
        assert(a + b =~= a);
    } else {
        assert((a + b).drop_last() =~= a + b.drop_last());
        lemma_last_touch_concat(a, b.drop_last(), key);
    }
}

/// After any history from a store that agrees with its log, a key whose last operation in the
/// history is a `set` to `value` is found at the bytes of that operation's record, which is the
/// `SetValue` record of the key and value; a key whose last operation is a `remove` is not
/// found.
pub proof fn law_get_after_history(
    s: KvStoreView,
    log: Seq<LogRecordView>,
    ops: Seq<StoreOp>,
    j: int,
    key: Seq<char>,
)
    requires
        in_sync(s, log),
        ends_ordered(log),
        s.writer_pos + ops_size(ops) <= u64::MAX,
        0 <= j < ops.len(),
        forall|k: int| j < k < ops.len() ==> (match #[trigger] ops[k] {
            StoreOp::SetValue { key: k2, .. } => k2 != key,
            StoreOp::Remove { key: k2, .. } => k2 != key,
        }),
    ensures
        ops[j] matches StoreOp::SetValue { key: k2, value, .. } ==> (k2 == key ==> {
            let full = log + run(s, ops).1;
            &&& lookup(run(s, ops).0, key) == Some(record_range(full, log.len() + j))
            &&& full[log.len() + j].command == (CommandView::SetValue { key, value })
        }),
        ops[j] matches StoreOp::Remove { key: k2, .. } ==> (k2 == key ==> lookup(run(s, ops).0, key)
            is None),
{
    law_history_keeps_log_in_sync(s, log, ops);
    let recs = run(s, ops).1;
    let full = log + recs;
    law_store_points_at_last_set(run(s, ops).0, full, key);
    let touches_key = match ops[j] {
        StoreOp::SetValue { key: k2, .. } => k2 == key,
        StoreOp::Remove { key: k2, .. } => k2 == key,
    };
    if touches_key {
        assert(command_key(recs[j].command) == key);
        assert forall|k: int| j < k < recs.len() implies command_key(#[trigger] recs[k].command)
            != key by {
            assert(recs[k].command == (match ops[k] {
                StoreOp::SetValue { key, value, .. } => CommandView::SetValue { key, value },
                StoreOp::Remove { key, .. } => CommandView::Rm { key },
            }));
        }
        lemma_last_touch_in(recs, key, j);
        lemma_last_touch_concat(log, recs, key);
        assert(full[log.len() + j] == recs[j]);
    }
}

proof fn lemma_last_touch_in(log: Seq<LogRecordView>, key: Seq<char>, j: int)
    requires
        0 <= j < log.len(),
        command_key(log[j].command) == key,
        forall|k: int| j < k < log.len() ==> command_key(#[trigger] log[k].command) != key,
    ensures
        last_touch(log, key) == Some(j),
    decreases log.len(),
{
    if j < log.len() - 1 {
        let p = log.drop_last();
        assert(command_key(log[log.len() - 1].command) != key);
        assert forall|k: int| j < k < p.len() implies command_key(#[trigger] p[k].command) != key by {
            assert(p[k] == log[k]);
        }
        assert(p[j] == log[j]);
        lemma_last_touch_in(p, key, j);
    }
}

/// The offset where `log` ends: that of its last record, or 0 for an empty log.
pub open spec fn log_end(log: Seq<LogRecordView>) -> u64 {
    if log.len() == 0 {
        0
    } else {
        log.last().end
    }
}

/// The writer stands where `log` ends, and every live key points at the bytes of a
/// `SetValue` record of that key in `log`.
pub open spec fn addresses_set_records(s: KvStoreView, log: Seq<LogRecordView>) -> bool {
    &&& s.writer_pos == log_end(log)
    &&& forall|k: Seq<char>| #[trigger]
        s.index.contains_key(k) ==> exists|i: int|
            0 <= i < log.len() && #[trigger] log[i].command is SetValue && command_key(log[i].command)
                == k && record_range(log, i) == s.index[k]
}

proof fn lemma_record_range_push(log: Seq<LogRecordView>, rec: LogRecordView, i: int)
    requires
        0 <= i < log.len(),
    ensures
        log.push(rec)[i] == log[i],
        record_range(log.push(rec), i) == record_range(log, i),
{
    if i > 0 {
        assert(log.push(rec)[i - 1] == log[i - 1]);
    }
}

/// Writing the `SetValue` record of `key` at the end of the log, then `set` of `key` at the
/// position where the record starts, keeps every live key pointing at a `SetValue` record of
/// its own key: the key just set points at the new record, the others at the records they had.
pub proof fn law_set_keeps_records_addressed(
    s: KvStoreView,
    log: Seq<LogRecordView>,
    key: Seq<char>,
    value: Seq<char>,
    count: nat,
)
    requires
        addresses_set_records(s, log),
        s.writer_pos + count <= u64::MAX,
    ensures
        ({
            let written = record_write_spec(s, count);
            let rec = LogRecordView {
                command: CommandView::SetValue { key, value },
                end: written.writer_pos,
            };
            let after = set_spec(written, key, s.writer_pos).0;
            &&& addresses_set_records(after, log.push(rec))
            &&& lookup(after, key) == Some(record_range(log.push(rec), log.len() as int))
        }),
{
    let written = record_write_spec(s, count);
    let rec = LogRecordView { command: CommandView::SetValue { key, value }, end: written.writer_pos };
    let after = set_spec(written, key, s.writer_pos).0;
    let l2 = log.push(rec);
    let n = log.len() as int;
    assert(l2[n] == rec);
    if n > 0 {
        assert(l2[n - 1] == log[n - 1]);
    }
    assert(record_range(l2, n) == CommandPos { offset: s.writer_pos, size: count as u64 });
    assert forall|k: Seq<char>| #[trigger] after.index.contains_key(k) implies exists|i: int|
        0 <= i < l2.len() && #[trigger] l2[i].command is SetValue && command_key(l2[i].command) == k
            && record_range(l2, i) == after.index[k] by {
        if k == key {
            assert(l2[n].command is SetValue);
        } else {
            assert(s.index.contains_key(k));
            let i = choose|i: int|
                0 <= i < log.len() && #[trigger] log[i].command is SetValue && command_key(
                    log[i].command,
                ) == k && record_range(log, i) == s.index[k];
            lemma_record_range_push(log, rec, i);
            assert(l2[i].command is SetValue);
        }
    }
}

/// Writing the `Rm` record of `key` at the end of the log, then `remove` of `key`, keeps every
/// live key pointing at a `SetValue` record of its own key, and `key` is no longer found.
pub proof fn law_remove_keeps_records_addressed(
    s: KvStoreView,
    log: Seq<LogRecordView>,
    key: Seq<char>,
    count: nat,
)
    requires
        addresses_set_records(s, log),
        s.writer_pos + count <= u64::MAX,
    ensures
        ({
            let written = record_write_spec(s, count);
            let rec = LogRecordView { command: CommandView::Rm { key }, end: written.writer_pos };
            let after = remove_spec(written, key).0;
            &&& addresses_set_records(after, log.push(rec))
            &&& lookup(after, key) is None
        }),
{
    let written = record_write_spec(s, count);
    let rec = LogRecordView { command: CommandView::Rm { key }, end: written.writer_pos };
    let after = remove_spec(written, key).0;
    let l2 = log.push(rec);
    assert forall|k: Seq<char>| #[trigger] after.index.contains_key(k) implies exists|i: int|
        0 <= i < l2.len() && #[trigger] l2[i].command is SetValue && command_key(l2[i].command) == k
            && record_range(l2, i) == after.index[k] by {
        assert(s.index.contains_key(k));
        let i = choose|i: int|
            0 <= i < log.len() && #[trigger] log[i].command is SetValue && command_key(log[i].command)
                == k && record_range(log, i) == s.index[k];
        lemma_record_range_push(log, rec, i);
        assert(l2[i].command is SetValue);
    }
}

/// A store opened from an ordered log, with its writer where the log ends, points every live
/// key at a `SetValue` record of that key in the log.
pub proof fn law_open_records_addressed(path: Seq<char>, log: Seq<LogRecordView>)
    requires
        ends_ordered(log),
        replay(log) is Some,
    ensures
        addresses_set_records(
            open_spec(path, replay(log).unwrap().0, replay(log).unwrap().1, replay(log).unwrap().1),
            log,
        ),
{
    lemma_replay_end(log);
    let s = open_spec(path, replay(log).unwrap().0, replay(log).unwrap().1, replay(log).unwrap().1);
    assert forall|k: Seq<char>| #[trigger] s.index.contains_key(k) implies exists|i: int|
        0 <= i < log.len() && #[trigger] log[i].command is SetValue && command_key(log[i].command)
            == k && record_range(log, i) == s.index[k] by {
        law_replay_points_at_last_set(log, k);
        let i = last_touch(log, k).unwrap();
        assert(log[i].command is SetValue);
    }
}

/// The position of the writer before the `j`-th operation of a history.
pub open spec fn pos_before_op(s: KvStoreView, ops: Seq<StoreOp>, j: int) -> u64 {
    (s.writer_pos + ops_size(ops.take(j))) as u64
}

proof fn lemma_run_writer_pos(s: KvStoreView, ops: Seq<StoreOp>)
    requires
        s.writer_pos + ops_size(ops) <= u64::MAX,
    ensures
        run(s, ops).0.writer_pos == s.writer_pos + ops_size(ops),
        run(s, ops).0.path == s.path,
    decreases ops.len(),
{
    if ops.len() > 0 {
        lemma_run_writer_pos(s, ops.drop_last());
    }
}

/// After any history of operations, from any store, a key whose last operation is a `set`
/// is found at the bytes that operation's record took: from where the writer stood before it,
/// as many bytes as it wrote. A key whose last operation is a `remove` is not found.
pub proof fn law_get_after_any_history(s: KvStoreView, ops: Seq<StoreOp>, j: int, key: Seq<char>)
    requires
        s.writer_pos + ops_size(ops) <= u64::MAX,
        0 <= j < ops.len(),
        forall|k: int| j < k < ops.len() ==> (match #[trigger] ops[k] {
            StoreOp::SetValue { key: k2, .. } => k2 != key,
            StoreOp::Remove { key: k2, .. } => k2 != key,
        }),
    ensures
        ops[j] matches StoreOp::SetValue { key: k2, count, .. } ==> (k2 == key ==> lookup(
            run(s, ops).0,
            key,
        ) == Some(CommandPos { offset: pos_before_op(s, ops, j), size: count as u64 })),
        ops[j] matches StoreOp::Remove { key: k2, .. } ==> (k2 == key ==> lookup(run(s, ops).0, key)
            is None),
    decreases ops.len(),
{
    let prev = ops.drop_last();
    let n = ops.len() - 1;
    assert(ops_size(prev) <= ops_size(ops));
    lemma_run_writer_pos(s, prev);
    if j == n {
        assert(ops.take(j) =~= prev);
    } else {
        assert forall|k: int| j < k < prev.len() implies (match #[trigger] prev[k] {
            StoreOp::SetValue { key: k2, .. } => k2 != key,
            StoreOp::Remove { key: k2, .. } => k2 != key,
        }) by {
            assert(prev[k] == ops[k]);
        }
        assert(prev[j] == ops[j]);
        law_get_after_any_history(s, prev, j, key);
        assert(prev.take(j) =~= ops.take(j));
        assert(match ops[n] {
            StoreOp::SetValue { key: k2, .. } => k2 != key,
            StoreOp::Remove { key: k2, .. } => k2 != key,
        });
    }
}

/// A log-structured key/value store: the index of live keys, with where their values lie in
/// the log, the count of bytes of the log that are no longer live, and the writer's position.
pub struct KvStore {
    path: String,
    hmap: KeyIndex,
    unused_space: u64,
    writer: WriterWithPos,
}

impl View for KvStore {
    type V = KvStoreView;

    closed spec fn view(&self) -> KvStoreView {
        KvStoreView {
            path: self.path@,
            index: self.hmap@,
            unused_space: self.unused_space,
            writer_pos: self.writer.pos,
        }
    }
}

impl KvStore {
    /// Well-formedness of the index.
    pub closed spec fn wf(&self) -> bool {
        self.hmap.wf()
    }

    fn new(path: String, log: &Vec<LogRecord>, writer_pos: u64) -> (r: Result<Self, MyError>)
        requires
            ends_ordered(log_view(log@)),
        ensures
            match replay(log_view(log@)) {
                Some((index, end)) => r matches Ok(s) && s.wf() && s@ == open_spec(
                    path@,
                    index,
                    end,
                    writer_pos,
                ),
                None => r == Err::<KvStore, MyError>(MyError::UnexpectedCommand),
            },
    {
        let (content, size) = read_log(log)?;
        let writer = WriterWithPos::new(writer_pos);
        Ok(KvStore { path, hmap: content, unused_space: size, writer })
    }

    /// Opens the store of the directory `path` from the records of its log, with the writer
    /// at `writer_pos`, the position of the stream that appends to the log.
    pub fn open(path: String, log: &Vec<LogRecord>, writer_pos: u64) -> (r: Result<Self, MyError>)
        requires
            ends_ordered(log_view(log@)),
        ensures
            match replay(log_view(log@)) {
                Some((index, end)) => r matches Ok(s) && s.wf() && s@ == open_spec(
                    path@,
                    index,
                    end,
                    writer_pos,
                ),
                None => r == Err::<KvStore, MyError>(MyError::UnexpectedCommand),
            },
    {
        Self::new(path, log, writer_pos)
    }

    /// The directory of the store.
    pub fn path(&self) -> (p: &String)
        ensures
            p@ == self@.path,
    {
        &self.path
    }

    /// The bytes of the log that are no longer live.
    pub fn unused_space(&self) -> (n: u64)
        ensures
            n == self@.unused_space,
    {
        self.unused_space
    }

    /// The position of the writer in the log.
    pub fn writer_pos(&self) -> (n: u64)
        ensures
            n == self@.writer_pos,
    {
        self.writer.pos
    }

    /// Accounts for `count` bytes appended to the log.
    pub fn record_write(&mut self, count: usize)
        requires
            old(self).wf(),
            old(self)@.writer_pos + count <= u64::MAX,
        ensures
            final(self).wf(),
            final(self)@ == record_write_spec(old(self)@, count as nat),
    {
        self.writer.record_write(count);
    }

    /// Whether `key` is live.
    pub fn contains_key(&self, key: &String) -> (b: bool)
        requires
            self.wf(),
        ensures
            b == self@.index.contains_key(key@),
    {
        self.hmap.contains_key(key)
    }

    /// Where the latest value of `key` lies in the log, if the key is live.
    pub fn get(&self, key: &String) -> (r: Option<CommandPos>)
        requires
            self.wf(),
        ensures
            r == lookup(self@, key@),
    {
        self.hmap.get(key)
    }

    /// The value that a record read back for `get` holds: a `SetValue` record gives its value,
    /// any other record is an error.
    pub fn value_of(cmd: Command) -> (r: Result<String, MyError>)
        ensures
            match cmd {
                Command::SetValue { value, .. } => r == Ok::<String, MyError>(value),
                _ => r == Err::<String, MyError>(MyError::UnexpectedCommand),
            },
    {
        match cmd {
            Command::SetValue { value, .. } => Ok(value),
            _ => Err(MyError::UnexpectedCommand),
        }
    }

    /// The record that `set` of `key` to `value` writes, and the position of the writer,
    /// where that record will start.
    pub fn prepare_set(&self, key: String, value: String) -> (r: (Command, u64))
        ensures
            r.0 == (Command::SetValue { key, value }),
            r.1 == self@.writer_pos,
    {
        let cmd = Command::set(key, value);
        let pos = self.writer.pos;
        (cmd, pos)
    }

    /// Points the key of `cmd`, a `SetValue` record that was written from `pos` up to the
    /// writer's position, at that record; the record it replaces no longer counts as live.
    /// Gives back whether the log is now due for compaction.
    pub fn set(&mut self, cmd: Command, pos: u64) -> (needs_compaction: bool)
        requires
            old(self).wf(),
            cmd is SetValue,
            pos <= old(self)@.writer_pos,
            unused_fits(old(self)@, command_key(cmd@)),
        ensures
            final(self).wf(),
            (final(self)@, needs_compaction) == set_spec(old(self)@, command_key(cmd@), pos),
    {
        match cmd {
            Command::SetValue { key, .. } => {
                let size = self.writer.pos - pos;
                match self.hmap.insert(key, CommandPos { offset: pos, size }) {
                    Some(prev) => {
                        self.unused_space = self.unused_space + prev.size;
                        self.unused_space > MAX_SPACE
                    },
                    None => false,
                }
            },
            _ => false,
        }
    }

    /// The `Rm` record that `remove` of `key` writes, or `KeyNotFound` when the key is not live.
    pub fn prepare_remove(&self, key: String) -> (r: Result<Command, MyError>)
        requires
            self.wf(),
        ensures
            match prepare_remove_spec(self@, key@) {
                Ok(c) => r matches Ok(cmd) && cmd == (Command::Rm { key }),
                Err(e) => r == Err::<Command, MyError>(e),
            },
    {
        if self.hmap.contains_key(&key) {
            Ok(Command::rm(key))
        } else {
            Err(MyError::KeyNotFound)
        }
    }

    /// Drops the key of `cmd`, an `Rm` record that went to the log; the value it had no
    /// longer counts as live. Gives back whether the log is now due for compaction.
    pub fn remove(&mut self, cmd: Command) -> (needs_compaction: bool)
        requires
            old(self).wf(),
            cmd is Rm,
            unused_fits(old(self)@, command_key(cmd@)),
        ensures
            final(self).wf(),
            (final(self)@, needs_compaction) == remove_spec(old(self)@, command_key(cmd@)),
    {
        match cmd {
            Command::Rm { key } => {
                match self.hmap.remove(&key) {
                    Some(prev) => {
                        self.unused_space = self.unused_space + prev.size;
                    },
                    None => {},
                }
                self.unused_space > MAX_SPACE
            },
            _ => false,
        }
    }

    /// Accounts for a compaction of the log: no byte of it counts as unused any more.
    pub fn compact(&mut self)
        requires
            old(self).wf(),
        ensures
            final(self).wf(),
            final(self)@ == compact_spec(old(self)@),
    {
        self.unused_space = 0;
    }
}

} // verus!
