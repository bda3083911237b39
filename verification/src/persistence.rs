//! Persistence rules: the snapshot image, recovery by replay of the
//! append-only log, and the batching of the log writer.
//!
//! Files are not touched here. The program around the library reads and
//! writes them, and hands over their contents as plain values.

use crate::db::{
    bindings, distinct_keys, entries_map, Binding, Entry, EntryView, Store, StoreView, Timestamp,
};
use crate::server::{
    batch_effect, command_effect, command_text, execute_spec, lemma_command_text_parses_back,
    lemma_parsed_is_well_spelled, lemma_record_of_change, parse_command, parse_spec, record_lines,
    well_spelled, Command, CommandView,
};
use crate::text::{lemma_tokens_are_words, split_whitespace, tokenize};
use vstd::prelude::*;

verus! {

/// How long the log writer gathers records before it writes them, in
/// microseconds.
pub const BATCH_WINDOW_MICROS: u64 = 1000;

/// How long the log writer rests when its queue is empty, in microseconds.
pub const IDLE_PAUSE_MICROS: u64 = 10;

/// How often expired entries are swept out of the store, in seconds.
pub const SWEEP_PERIOD_SECS: u64 = 1;

/// How often the store is written out as a snapshot, in seconds.
pub const SNAPSHOT_PERIOD_SECS: u64 = 300;

/// The expiry that a log record states: the start of its second.
pub open spec fn expiry_at(ttl: Option<u64>) -> Option<Timestamp> {
    match ttl {
        Some(secs) => Some(Timestamp::at(secs)),
        None => None,
    }
}

/// The store after the log record `record` is applied to `m`. `SET` and
/// `UPDATE` both put their entry whether or not the key is held; `DELETE`
/// removes its key; other commands change nothing.
pub open spec fn replay_spec(record: CommandView, m: StoreView) -> StoreView {
    match record {
        CommandView::Insert { key, value, ttl } => m.insert(
            key,
            EntryView { value, expire_at: expiry_at(ttl) },
        ),
        CommandView::Update { key, value, ttl } => m.insert(
            key,
            EntryView { value, expire_at: expiry_at(ttl) },
        ),
        CommandView::Delete { key } => m.remove(key),
        _ => m,
    }
}

/// The store after the log line `line` is applied to `m`. A line that spells
/// no command is skipped.
pub open spec fn apply_spec(line: Seq<char>, m: StoreView) -> StoreView {
    match parse_spec(split_whitespace(line)) {
        Ok(record) => replay_spec(record, m),
        Err(_) => m,
    }
}

/// The store after the log lines `lines` are applied to `m` in order.
pub open spec fn replay_all(lines: Seq<Seq<char>>, m: StoreView) -> StoreView
    decreases lines.len(),
{
    if lines.len() == 0 {
        m
    } else {
        apply_spec(lines.last(), replay_all(lines.drop_last(), m))
    }
}

/// The store that recovery builds: the snapshot if there is one, else the
/// empty store, with the log applied on top.
pub open spec fn recovered(snapshot: Option<Seq<Binding>>, lines: Seq<Seq<char>>) -> StoreView {
    replay_all(
        lines,
        match snapshot {
            Some(image) => entries_map(image),
            None => Map::empty(),
        },
    )
}

/// The bindings of an optional snapshot image.
pub open spec fn image_view(snapshot: Option<Vec<(String, Entry)>>) -> Option<Seq<Binding>> {
    match snapshot {
        Some(image) => Some(bindings(image@)),
        None => None,
    }
}

/// The lines `records` as they stand in the log file: each followed by a
/// line feed.
pub open spec fn log_text(records: Seq<Seq<char>>) -> Seq<char>
    decreases records.len(),
{
    if records.len() == 0 {
        Seq::empty()
    } else {
        log_text(records.drop_last()) + records.last() + seq!['\n']
    }
}

/// The expiry that a log record states.
fn record_expiry(ttl: Option<u64>) -> (r: Option<Timestamp>)
    ensures
        r == expiry_at(ttl),
{
    match ttl {
        Some(secs) => Some(Timestamp::from_secs(secs)),
        None => None,
    }
}

/// Applies one log record to `store`, without the checks that a client's
/// command meets.
pub fn replay(record: Command, store: &mut Store)
    ensures
        final(store)@ == replay_spec(record@, old(store)@),
{
    match record {
        Command::Insert { key, value, ttl } => {
            store.upsert(key, Entry::new(value, record_expiry(ttl)));
        },
        Command::Update { key, value, ttl } => {
            store.upsert(key, Entry::new(value, record_expiry(ttl)));
        },
        Command::Delete { key } => {
            let _ = store.delete(&key);
        },
        Command::Get { key: _ } => {},
        Command::Quit => {},
    }
}

/// Applies one line of the log to `store`. A line that spells no command is
/// skipped.
pub fn apply_command(command: &str, store: &mut Store)
    ensures
        final(store)@ == apply_spec(command@, old(store)@),
{
    let parts = tokenize(command);
    match parse_command(&parts) {
        Ok(record) => replay(record, store),
        Err(_) => {},
    }
}

/// A copy of the whole store for the snapshot file: each key once, with its
/// entry.
pub fn snapshot(store: &Store) -> (image: Vec<(String, Entry)>)
    ensures
        distinct_keys(bindings(image@)),
        entries_map(bindings(image@)) == store@,
{
    store.snapshot_view()
}

/// Rebuilds `store` at startup: from the snapshot if there is one, else from
/// nothing, and then from the lines of the log, in order.
pub fn restore_state(
    store: &mut Store,
    snapshot: Option<Vec<(String, Entry)>>,
    log_lines: &Vec<String>,
)
    ensures
        final(store)@ == recovered(image_view(snapshot), log_lines.deep_view()),
{
    let ghost base = recovered(image_view(snapshot), Seq::empty());
    match snapshot {
        Some(image) => {
            *store = Store::from_entries(image);
        },
        None => {
            *store = Store::new();
        },
    }
    let ghost all = log_lines.deep_view();
    let n: usize = log_lines.len();
    let mut i: usize = 0;
    assert(all.take(0) =~= Seq::<Seq<char>>::empty());
    while i < n
        invariant
            i <= n,
            n == log_lines.len(),
            all == log_lines.deep_view(),
            store@ == replay_all(all.take(i as int), base),
        decreases n - i,
    {
        apply_command(log_lines[i].as_str(), store);
        proof {
            let prefix = all.take(i + 1);
            assert(prefix.drop_last() =~= all.take(i as int));
            assert(prefix.last() == log_lines[i as int]@);
        }
        i += 1;
    }
    assert(all.take(n as int) =~= all);
}

/// The text that `records` add to the log file: each record on a line of
/// its own.
pub fn render_batch(records: &Vec<String>) -> (text: String)
    ensures
        text@ == log_text(records.deep_view()),
{
    let ghost all = records.deep_view();
    let n: usize = records.len();
    let mut text = String::new();
    let mut i: usize = 0;
    assert(all.take(0) =~= Seq::<Seq<char>>::empty());
    while i < n
        invariant
            i <= n,
            n == records.len(),
            all == records.deep_view(),
            text@ == log_text(all.take(i as int)),
        decreases n - i,
    {
        proof {
            reveal_strlit("\n");
            let prefix = all.take(i + 1);
            assert(prefix.drop_last() =~= all.take(i as int));
            assert(prefix.last() == records[i as int]@);
            assert("\n"@ =~= seq!['\n']);
        }
        text.append(records[i].as_str());
        text.append("\n");
        i += 1;
    }
    assert(all.take(n as int) =~= all);
    text
}

/// What the log writer learns when it asks its queue for a record.
#[derive(Debug)]
pub enum QueueEvent {
    /// A record was waiting.
    Record(String),
    /// Nothing is waiting.
    Empty,
    /// Nothing is waiting, and no sender is left.
    Disconnected,
}

/// What the log writer does next.
#[derive(Debug)]
pub enum WriterAction {
    /// Ask the queue again at once.
    Poll,
    /// Rest for [`IDLE_PAUSE_MICROS`], then ask the queue again.
    Pause,
    /// Append `records` to the log file, in order, and flush it. Then stop
    /// if `stop` is set; else start a new window.
    Write { records: Vec<String>, stop: bool },
}

/// What a [`WriterAction`] holds, as mathematical values.
pub ghost enum WriterActionView {
    Poll,
    Pause,
    Write { records: Seq<Seq<char>>, stop: bool },
}

impl View for WriterAction {
    type V = WriterActionView;

    open spec fn view(&self) -> WriterActionView {
        match *self {
            WriterAction::Poll => WriterActionView::Poll,
            WriterAction::Pause => WriterActionView::Pause,
            WriterAction::Write { records, stop } => WriterActionView::Write {
                records: records.deep_view(),
                stop,
            },
        }
    }
}

/// What a [`QueueEvent`] holds, as mathematical values.
pub ghost enum QueueEventView {
    Record(Seq<char>),
    Empty,
    Disconnected,
}

impl View for QueueEvent {
    type V = QueueEventView;

    open spec fn view(&self) -> QueueEventView {
        match *self {
            QueueEvent::Record(r) => QueueEventView::Record(r@),
            QueueEvent::Empty => QueueEventView::Empty,
            QueueEvent::Disconnected => QueueEventView::Disconnected,
        }
    }
}

/// The records that the writer holds once it has taken in `event`.
pub open spec fn gathered(pending: Seq<Seq<char>>, event: QueueEventView) -> Seq<Seq<char>> {
    match event {
        QueueEventView::Record(r) => pending.push(r),
        _ => pending,
    }
}

/// The step of the log writer that holds `pending` on `event`, with
/// `elapsed_micros` gone since its window began: the records it holds
/// afterwards, and what it does.
///
/// The writer keeps gathering while the window is open. Once the window has
/// closed it writes all that it holds, in the order of arrival. When no
/// sender is left it writes what it holds and stops.
pub open spec fn writer_step(
    pending: Seq<Seq<char>>,
    event: QueueEventView,
    elapsed_micros: u64,
) -> (Seq<Seq<char>>, WriterActionView) {
    let held = gathered(pending, event);
    if event is Disconnected {
        (Seq::empty(), WriterActionView::Write { records: held, stop: true })
    } else if elapsed_micros >= BATCH_WINDOW_MICROS {
        (Seq::empty(), WriterActionView::Write { records: held, stop: false })
    } else if event is Empty {
        (held, WriterActionView::Pause)
    } else {
        (held, WriterActionView::Poll)
    }
}

/// The batching state of the log writer: the records gathered in the
/// current window and not yet written.
#[derive(Debug)]
pub struct LogWriter {
    batch: Vec<String>,
}

impl View for LogWriter {
    type V = Seq<Seq<char>>;

    closed spec fn view(&self) -> Seq<Seq<char>> {
        self.batch.deep_view()
    }
}

impl LogWriter {
    /// A writer that holds no record.
    pub fn new() -> (w: LogWriter)
        ensures
            w@ == Seq::<Seq<char>>::empty(),
    {
        let w = LogWriter { batch: Vec::new() };
        assert(w.batch.deep_view() =~= Seq::<Seq<char>>::empty());
        w
    }

    /// How many records wait to be written.
    pub fn pending(&self) -> (n: usize)
        ensures
            n == self@.len(),
    {
        self.batch.len()
    }

    /// Takes in what the queue said, `elapsed_micros` after the current
    /// window began, and says what to do next.
    pub fn on_event(&mut self, event: QueueEvent, elapsed_micros: u64) -> (action: WriterAction)
        ensures
            final(self)@ == writer_step(old(self)@, event@, elapsed_micros).0,
            action@ == writer_step(old(self)@, event@, elapsed_micros).1,
    {
        let ghost before = self.batch.deep_view();
        let (stop, idle) = match event {
            QueueEvent::Record(r) => {
                self.batch.push(r);
                assert(self.batch.deep_view() =~= before.push(r@));
                (false, false)
            },
            QueueEvent::Empty => (false, true),
            QueueEvent::Disconnected => (true, false),
        };
        if stop || elapsed_micros >= BATCH_WINDOW_MICROS {
            let mut records: Vec<String> = Vec::new();
            std::mem::swap(&mut records, &mut self.batch);
            assert(self.batch.deep_view() =~= Seq::<Seq<char>>::empty());
            WriterAction::Write { records, stop }
        } else if idle {
            WriterAction::Pause
        } else {
            WriterAction::Poll
        }
    }
}


/// `e` with its expiry cut to the start of its second.
pub open spec fn whole_second(e: EntryView) -> EntryView {
    EntryView {
        value: e.value,
        expire_at: match e.expire_at {
            Some(t) => Some(Timestamp::at(t.secs)),
            None => None,
        },
    }
}

/// `m` with every expiry cut to the start of its second: what the log can
/// tell of a store.
pub open spec fn whole_seconds(m: StoreView) -> StoreView {
    m.map_values(|e: EntryView| whole_second(e))
}

/// The records that `events` bring, in order.
pub open spec fn arrived(events: Seq<(QueueEventView, u64)>) -> Seq<Seq<char>>
    decreases events.len(),
{
    if events.len() == 0 {
        Seq::empty()
    } else {
        gathered(arrived(events.drop_last()), events.last().0)
    }
}

/// The log writer after `events`, each with the time gone in its window:
/// the records that it still holds, and the records that it has written.
pub open spec fn writer_run(pending: Seq<Seq<char>>, events: Seq<(QueueEventView, u64)>) -> (
    Seq<Seq<char>>,
    Seq<Seq<char>>,
)
    decreases events.len(),
{
    if events.len() == 0 {
        (pending, Seq::empty())
    } else {
        let (held, written) = writer_run(pending, events.drop_last());
        let (rest, action) = writer_step(held, events.last().0, events.last().1);
        match action {
            WriterActionView::Write { records, stop: _ } => (rest, written + records),
            _ => (rest, written),
        }
    }
}

/// A snapshot alone brings the store back: recovery from the image of a
/// store, with an empty log, builds that store.
pub proof fn lemma_snapshot_round_trip(m: StoreView, image: Seq<Binding>)
    requires
        entries_map(image) == m,
    ensures
        recovered(Some(image), Seq::empty()) == m,
{
}

/// Replay of a command's log record does to the store what the command
/// did, with the expiry cut to its second.
pub proof fn lemma_replay_follows_execute(cmd: CommandView, m: StoreView, now: Timestamp)
    ensures
        match execute_spec(cmd, m, now).record {
            Some(record) => replay_spec(record, whole_seconds(m)) == whole_seconds(
                execute_spec(cmd, m, now).store,
            ),
            None => execute_spec(cmd, m, now).store == m,
        },
{
    let e = execute_spec(cmd, m, now);
    match e.record {
        Some(record) => {
            assert(replay_spec(record, whole_seconds(m)) =~= whole_seconds(e.store));
        },
        None => {},
    }
}

/// Replay and the cut to whole seconds can go in either order.
pub proof fn lemma_replay_in_whole_seconds(record: CommandView, m: StoreView)
    ensures
        whole_seconds(replay_spec(record, m)) == replay_spec(record, whole_seconds(m)),
{
    assert(whole_seconds(replay_spec(record, m)) =~= replay_spec(record, whole_seconds(m)));
}

/// The log line of a well-spelled record replays as that record.
pub proof fn lemma_record_line_replays(record: CommandView, m: StoreView)
    requires
        well_spelled(record),
    ensures
        apply_spec(command_text(record), m) == replay_spec(record, m),
{
    lemma_command_text_parses_back(record);
}

/// The log of a run rebuilds its store: replay of the records that a batch
/// of lines logged, on a store that agrees with the batch's first store to
/// the second, gives the batch's last store to the second.
pub proof fn lemma_log_rebuilds_store(
    lines: Seq<Seq<char>>,
    m: StoreView,
    now: Timestamp,
    base: StoreView,
)
    requires
        whole_seconds(base) == whole_seconds(m),
    ensures
        whole_seconds(replay_all(batch_effect(lines, m, now).records, base)) == whole_seconds(
            batch_effect(lines, m, now).store,
        ),
    decreases lines.len(),
{
    if lines.len() > 0 {
        let init = lines.drop_last();
        lemma_log_rebuilds_store(init, m, now, base);
        let before = batch_effect(init, m, now);
        let parts = split_whitespace(lines.last());
        let e = command_effect(parts, before.store, now);
        let rebuilt = replay_all(before.records, base);
        lemma_tokens_are_words(lines.last(), 0);
        lemma_parsed_is_well_spelled(parts);
        match parse_spec(parts) {
            Ok(cmd) => {
                lemma_record_of_change(cmd, before.store, now);
                lemma_replay_follows_execute(cmd, before.store, now);
            },
            Err(_) => {},
        }
        match e.record {
            Some(record) => {
                let records = before.records + record_lines(e.record);
                assert(records.drop_last() =~= before.records);
                assert(records.last() == command_text(record));
                lemma_record_line_replays(record, rebuilt);
                lemma_replay_in_whole_seconds(record, rebuilt);
            },
            None => {
                assert(before.records + record_lines(e.record) =~= before.records);
            },
        }
    }
}

/// The log writer writes every record once, in the order of arrival: what
/// it has written, followed by what it still holds, is what it held at first
/// followed by what arrived.
pub proof fn lemma_writer_keeps_order(
    pending: Seq<Seq<char>>,
    events: Seq<(QueueEventView, u64)>,
)
    ensures
        writer_run(pending, events).1 + writer_run(pending, events).0 == pending + arrived(events),
    decreases events.len(),
{
    if events.len() == 0 {
        assert(Seq::<Seq<char>>::empty() + pending =~= pending + Seq::<Seq<char>>::empty());
    } else {
        let init = events.drop_last();
        lemma_writer_keeps_order(pending, init);
        let (held, written) = writer_run(pending, init);
        let event = events.last().0;
        let (rest, action) = writer_step(held, event, events.last().1);
        assert(written + gathered(held, event) =~= pending + gathered(arrived(init), event)) by {
            match event {
                QueueEventView::Record(r) => {
                    assert(written + held.push(r) =~= (written + held).push(r));
                    assert((pending + arrived(init)).push(r) =~= pending + arrived(init).push(r));
                },
                _ => {},
            }
        }
        assert(writer_run(pending, events).1 + writer_run(pending, events).0 =~= written
            + gathered(held, event));
    }
}

} // verus!
