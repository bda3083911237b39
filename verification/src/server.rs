//! The command engine and the per-connection session state machine.
//!
//! A command arrives as a sequence of tokens. It is parsed into a
//! [`Command`], run against the store at a given instant, and answered with a
//! [`Reply`]. A command that changed the store also yields its log record:
//! the same command with its time to live resolved to an absolute second.
//!
//! A [`Session`] decides, line by line, whether to answer at once, to queue
//! the line, or to have lines run against the store.

use crate::db::{lookup, Entry, EntryView, Store, StoreView, Timestamp};
use crate::text::{
    all_words, decimal_digits, decimal_u64, is_keyword, is_word, join_words,
    lemma_decimal_round_trip, lemma_split_join, parse_u64, render_u64, split_whitespace, tokenize,
    word_is,
};
use vstd::prelude::*;

verus! {

/// Why a command was refused.
#[derive(Clone, Copy, Debug, PartialEq, Eq, Structural)]
pub enum CommandError {
    /// `SET` with the wrong arguments.
    UsageSet,
    /// `UPDATE` with the wrong arguments.
    UsageUpdate,
    /// `GET` with the wrong arguments.
    UsageGet,
    /// `DELETE` with the wrong arguments.
    UsageDelete,
    /// `SET` on a key that is held.
    KeyExists,
    /// `UPDATE` or `DELETE` on a key that is not held.
    NoSuchKey,
    /// A verb that the engine does not know.
    UnknownCommand,
}

/// A well-formed command. In a client's command `ttl` counts seconds from
/// now; in a log record it is the second of the epoch at which the entry
/// expires.
#[derive(Debug)]
pub enum Command {
    /// `SET`: puts a value under a key that is not held.
    Insert { key: String, value: String, ttl: Option<u64> },
    /// `UPDATE`: replaces the value under a key that is held.
    Update { key: String, value: String, ttl: Option<u64> },
    /// `GET`: reads the value under a key.
    Get { key: String },
    /// `DELETE`: removes a key that is held.
    Delete { key: String },
    /// `QUIT`: ends the session.
    Quit,
}

/// What a [`Command`] holds, as mathematical values.
pub ghost enum CommandView {
    Insert { key: Seq<char>, value: Seq<char>, ttl: Option<u64> },
    Update { key: Seq<char>, value: Seq<char>, ttl: Option<u64> },
    Get { key: Seq<char> },
    Delete { key: Seq<char> },
    Quit,
}

impl View for Command {
    type V = CommandView;

    open spec fn view(&self) -> CommandView {
        match *self {
            Command::Insert { key, value, ttl } => CommandView::Insert { key: key@, value: value@, ttl },
            Command::Update { key, value, ttl } => CommandView::Update {
                key: key@,
                value: value@,
                ttl,
            },
            Command::Get { key } => CommandView::Get { key: key@ },
            Command::Delete { key } => CommandView::Delete { key: key@ },
            Command::Quit => CommandView::Quit,
        }
    }
}

/// The answer to a command.
#[derive(Debug)]
pub enum Reply {
    /// The command was carried out: `OK`.
    Done,
    /// No live entry under the key: `nil`.
    Nil,
    /// The session ends: `BYE`.
    Bye,
    /// The line was queued for a later `EXEC`: `QUEUED`.
    Queued,
    /// The value under the key.
    Value(String),
    /// The command was refused.
    Error(CommandError),
}

/// What a [`Reply`] holds, as mathematical values.
pub ghost enum ReplyView {
    Done,
    Nil,
    Bye,
    Queued,
    Value(Seq<char>),
    Error(CommandError),
}

impl View for Reply {
    type V = ReplyView;

    open spec fn view(&self) -> ReplyView {
        match *self {
            Reply::Done => ReplyView::Done,
            Reply::Nil => ReplyView::Nil,
            Reply::Bye => ReplyView::Bye,
            Reply::Queued => ReplyView::Queued,
            Reply::Value(v) => ReplyView::Value(v@),
            Reply::Error(e) => ReplyView::Error(e),
        }
    }
}

/// The view of a parse result.
pub open spec fn parsed_view(r: Result<Command, CommandError>) -> Result<
    CommandView,
    CommandError,
> {
    match r {
        Ok(c) => Ok(c@),
        Err(e) => Err(e),
    }
}

/// The view of an optional command.
pub open spec fn record_view(r: Option<Command>) -> Option<CommandView> {
    match r {
        Some(c) => Some(c@),
        None => None,
    }
}

/// The arguments of `SET` and `UPDATE`: a key and a value, or a key, a value,
/// the keyword `TTL` and a number of seconds.
pub open spec fn write_arguments(parts: Seq<Seq<char>>) -> Option<
    (Seq<char>, Seq<char>, Option<u64>),
> {
    if parts.len() == 3 {
        Some((parts[1], parts[2], None))
    } else if parts.len() == 5 && is_keyword(parts[3], "TTL"@) && decimal_u64(parts[4]) is Some {
        Some((parts[1], parts[2], decimal_u64(parts[4])))
    } else {
        None
    }
}

/// The command that the tokens `parts` spell, or the reason why they spell
/// none. The verb is read without regard to ASCII case. `QUIT` cannot fail:
/// what follows the verb is ignored.
pub open spec fn parse_spec(parts: Seq<Seq<char>>) -> Result<CommandView, CommandError> {
    if parts.len() == 0 {
        Err(CommandError::UnknownCommand)
    } else if is_keyword(parts[0], "SET"@) {
        match write_arguments(parts) {
            Some((key, value, ttl)) => Ok(CommandView::Insert { key, value, ttl }),
            None => Err(CommandError::UsageSet),
        }
    } else if is_keyword(parts[0], "UPDATE"@) {
        match write_arguments(parts) {
            Some((key, value, ttl)) => Ok(CommandView::Update { key, value, ttl }),
            None => Err(CommandError::UsageUpdate),
        }
    } else if is_keyword(parts[0], "GET"@) {
        if parts.len() == 2 {
            Ok(CommandView::Get { key: parts[1] })
        } else {
            Err(CommandError::UsageGet)
        }
    } else if is_keyword(parts[0], "DELETE"@) {
        if parts.len() == 2 {
            Ok(CommandView::Delete { key: parts[1] })
        } else {
            Err(CommandError::UsageDelete)
        }
    } else if is_keyword(parts[0], "QUIT"@) {
        Ok(CommandView::Quit)
    } else {
        Err(CommandError::UnknownCommand)
    }
}

/// The instant at which an entry written at `now` with `ttl` expires.
pub open spec fn deadline(ttl: Option<u64>, now: Timestamp) -> Option<Timestamp> {
    match ttl {
        Some(secs) => Some(now.plus(secs)),
        None => None,
    }
}

/// The second in which an entry written at `now` with `ttl` expires.
pub open spec fn deadline_secs(ttl: Option<u64>, now: Timestamp) -> Option<u64> {
    match ttl {
        Some(secs) => Some(now.plus(secs).secs),
        None => None,
    }
}

/// The log record of a command that changed the store at `now`: the command
/// with its time to live resolved to the absolute second of its expiry.
pub open spec fn canonical(cmd: CommandView, now: Timestamp) -> CommandView {
    match cmd {
        CommandView::Insert { key, value, ttl } => CommandView::Insert {
            key,
            value,
            ttl: deadline_secs(ttl, now),
        },
        CommandView::Update { key, value, ttl } => CommandView::Update {
            key,
            value,
            ttl: deadline_secs(ttl, now),
        },
        _ => cmd,
    }
}

/// What a command does: the store after it, the reply, and the log record
/// if the store changed.
pub ghost struct Effect {
    pub store: StoreView,
    pub reply: ReplyView,
    pub record: Option<CommandView>,
}

/// The effect of a command that is refused or only reads: the store stays
/// and nothing is logged.
pub open spec fn answer(m: StoreView, reply: ReplyView) -> Effect {
    Effect { store: m, reply, record: None }
}

/// The effect of `cmd` on the store `m` at `now`.
pub open spec fn execute_spec(cmd: CommandView, m: StoreView, now: Timestamp) -> Effect {
    match cmd {
        CommandView::Insert { key, value, ttl } => if m.contains_key(key) {
            answer(m, ReplyView::Error(CommandError::KeyExists))
        } else {
            Effect {
                store: m.insert(key, EntryView { value, expire_at: deadline(ttl, now) }),
                reply: ReplyView::Done,
                record: Some(canonical(cmd, now)),
            }
        },
        CommandView::Update { key, value, ttl } => if m.contains_key(key) {
            Effect {
                store: m.insert(key, EntryView { value, expire_at: deadline(ttl, now) }),
                reply: ReplyView::Done,
                record: Some(canonical(cmd, now)),
            }
        } else {
            answer(m, ReplyView::Error(CommandError::NoSuchKey))
        },
        CommandView::Get { key } => match lookup(m, key, now) {
            Some(value) => answer(m, ReplyView::Value(value)),
            None => answer(m, ReplyView::Nil),
        },
        CommandView::Delete { key } => if m.contains_key(key) {
            Effect { store: m.remove(key), reply: ReplyView::Done, record: Some(cmd) }
        } else {
            answer(m, ReplyView::Error(CommandError::NoSuchKey))
        },
        CommandView::Quit => answer(m, ReplyView::Bye),
    }
}

/// The effect of the tokens `parts` on the store `m` at `now`.
pub open spec fn command_effect(parts: Seq<Seq<char>>, m: StoreView, now: Timestamp) -> Effect {
    match parse_spec(parts) {
        Ok(cmd) => execute_spec(cmd, m, now),
        Err(e) => answer(m, ReplyView::Error(e)),
    }
}

/// The text of a refusal.
pub open spec fn error_text(e: CommandError) -> Seq<char> {
    match e {
        CommandError::UsageSet => "ERR: Usage: SET key value [TTL seconds]"@,
        CommandError::UsageUpdate => "ERR: Usage: UPDATE key value [TTL seconds]"@,
        CommandError::UsageGet => "ERR: Usage: GET key"@,
        CommandError::UsageDelete => "ERR: Usage: DELETE key"@,
        CommandError::KeyExists => "ERR: La clé existe déjà."@,
        CommandError::NoSuchKey => "ERR: La clé n'existe pas."@,
        CommandError::UnknownCommand => "ERR: Commande inconnue"@,
    }
}

/// The line that answers a command.
pub open spec fn reply_text(r: ReplyView) -> Seq<char> {
    match r {
        ReplyView::Done => "OK"@,
        ReplyView::Nil => "nil"@,
        ReplyView::Bye => "BYE"@,
        ReplyView::Queued => "QUEUED"@,
        ReplyView::Value(v) => v,
        ReplyView::Error(e) => error_text(e),
    }
}

/// The words that follow the value of `SET` and `UPDATE`.
pub open spec fn ttl_words(ttl: Option<u64>) -> Seq<Seq<char>> {
    match ttl {
        Some(n) => seq!["TTL"@, decimal_digits(n as nat)],
        None => Seq::empty(),
    }
}

/// The words of a command, verb first.
pub open spec fn command_words(cmd: CommandView) -> Seq<Seq<char>> {
    match cmd {
        CommandView::Insert { key, value, ttl } => seq!["SET"@, key, value] + ttl_words(ttl),
        CommandView::Update { key, value, ttl } => seq!["UPDATE"@, key, value] + ttl_words(ttl),
        CommandView::Get { key } => seq!["GET"@, key],
        CommandView::Delete { key } => seq!["DELETE"@, key],
        CommandView::Quit => seq!["QUIT"@],
    }
}

/// The line of a command: its words with one space between neighbours.
pub open spec fn command_text(cmd: CommandView) -> Seq<char> {
    join_words(command_words(cmd))
}

/// The lines that a command adds to the log.
pub open spec fn record_lines(record: Option<CommandView>) -> Seq<Seq<char>> {
    match record {
        Some(cmd) => seq![command_text(cmd)],
        None => Seq::empty(),
    }
}

impl CommandError {
    /// The text of the refusal.
    pub fn message(&self) -> (s: String)
        ensures
            s@ == error_text(*self),
    {
        match self {
            CommandError::UsageSet => "ERR: Usage: SET key value [TTL seconds]".to_string(),
            CommandError::UsageUpdate => "ERR: Usage: UPDATE key value [TTL seconds]".to_string(),
            CommandError::UsageGet => "ERR: Usage: GET key".to_string(),
            CommandError::UsageDelete => "ERR: Usage: DELETE key".to_string(),
            CommandError::KeyExists => "ERR: La clé existe déjà.".to_string(),
            CommandError::NoSuchKey => "ERR: La clé n'existe pas.".to_string(),
            CommandError::UnknownCommand => "ERR: Commande inconnue".to_string(),
        }
    }
}

impl Reply {
    /// The line that carries this reply to the client.
    pub fn into_line(self) -> (s: String)
        ensures
            s@ == reply_text(self@),
    {
        match self {
            Reply::Done => "OK".to_string(),
            Reply::Nil => "nil".to_string(),
            Reply::Bye => "BYE".to_string(),
            Reply::Queued => "QUEUED".to_string(),
            Reply::Value(v) => v,
            Reply::Error(e) => e.message(),
        }
    }
}

/// Appends `word` to `line`, after one space.
fn push_word(line: String, word: &str) -> (s: String)
    ensures
        s@ == line@ + seq![' '] + word@,
{
    proof {
        reveal_strlit(" ");
    }
    let spaced = line.concat(" ");
    assert(" "@ =~= seq![' ']);
    spaced.concat(word)
}

impl Command {
    /// The line of this command: its words with one space between neighbours.
    pub fn to_line(&self) -> (s: String)
        ensures
            s@ == command_text(self@),
    {
        match self {
            Command::Insert { key, value, ttl } => write_line("SET", key, value, *ttl),
            Command::Update { key, value, ttl } => write_line("UPDATE", key, value, *ttl),
            Command::Get { key } => {
                let s = push_word("GET".to_string(), key.as_str());
                proof {
                    lemma_join_two("GET"@, key@);
                }
                s
            },
            Command::Delete { key } => {
                let s = push_word("DELETE".to_string(), key.as_str());
                proof {
                    lemma_join_two("DELETE"@, key@);
                }
                s
            },
            Command::Quit => {
                let s = "QUIT".to_string();
                proof {
                    let ws = seq!["QUIT"@];
                    assert(ws.drop_last() =~= Seq::<Seq<char>>::empty());
                    assert(join_words(ws) =~= "QUIT"@);
                }
                s
            },
        }
    }
}

/// The line of `SET` or `UPDATE`.
fn write_line(verb: &str, key: &String, value: &String, ttl: Option<u64>) -> (s: String)
    ensures
        s@ == join_words(seq![verb@, key@, value@] + ttl_words(ttl)),
{
    let head = push_word(push_word(verb.to_string(), key.as_str()), value.as_str());
    match ttl {
        Some(n) => {
            let digits = render_u64(n);
            let s = push_word(push_word(head, "TTL"), digits.as_str());
            proof {
                let ws = seq![verb@, key@, value@] + ttl_words(ttl);
                assert(ws =~= seq![verb@, key@, value@, "TTL"@, digits@]);
                lemma_join_five(verb@, key@, value@, "TTL"@, digits@);
            }
            s
        },
        None => {
            proof {
                let ws = seq![verb@, key@, value@] + ttl_words(ttl);
                assert(ws =~= seq![verb@, key@, value@]);
                lemma_join_three(verb@, key@, value@);
            }
            head
        },
    }
}

/// The line of two words.
proof fn lemma_join_two(a: Seq<char>, b: Seq<char>)
    ensures
        join_words(seq![a, b]) == a + seq![' '] + b,
{
    let ws = seq![a, b];
    let init = ws.drop_last();
    assert(init =~= seq![a]);
    assert(init.subrange(1, 1) =~= Seq::<Seq<char>>::empty());
    reveal_with_fuel(crate::text::spaced, 3);
    assert(join_words(ws) =~= a + seq![' '] + b);
}

/// The line of three words.
proof fn lemma_join_three(a: Seq<char>, b: Seq<char>, c: Seq<char>)
    ensures
        join_words(seq![a, b, c]) == a + seq![' '] + b + seq![' '] + c,
{
    let ws = seq![a, b, c];
    let init = ws.drop_last();
    assert(init =~= seq![a, b]);
    assert(init.subrange(1, 2) =~= seq![b]);
    assert(seq![b].subrange(1, 1) =~= Seq::<Seq<char>>::empty());
    reveal_with_fuel(crate::text::spaced, 4);
    assert(join_words(ws) =~= a + seq![' '] + b + seq![' '] + c);
}

/// The line of five words.
proof fn lemma_join_five(a: Seq<char>, b: Seq<char>, c: Seq<char>, d: Seq<char>, e: Seq<char>)
    ensures
        join_words(seq![a, b, c, d, e]) == a + seq![' '] + b + seq![' '] + c + seq![' '] + d
            + seq![' '] + e,
{
    let ws = seq![a, b, c, d, e];
    let init = ws.drop_last();
    assert(init =~= seq![a, b, c, d]);
    assert(init.subrange(1, 4) =~= seq![b, c, d]);
    assert(seq![b, c, d].subrange(1, 3) =~= seq![c, d]);
    assert(seq![c, d].subrange(1, 2) =~= seq![d]);
    assert(seq![d].subrange(1, 1) =~= Seq::<Seq<char>>::empty());
    reveal_with_fuel(crate::text::spaced, 6);
    assert(join_words(ws) =~= a + seq![' '] + b + seq![' '] + c + seq![' '] + d + seq![' '] + e);
}

/// Reads the arguments of `SET` and `UPDATE`.
fn parse_write_arguments(parts: &Vec<String>) -> (r: Option<(String, String, Option<u64>)>)
    requires
        parts.len() > 0,
    ensures
        match r {
            Some((key, value, ttl)) => write_arguments(parts.deep_view()) == Some(
                (key@, value@, ttl),
            ),
            None => write_arguments(parts.deep_view()) is None,
        },
{
    let n: usize = parts.len();
    assert(parts.deep_view().len() == n);
    if n == 3 {
        assert(parts.deep_view()[1] == parts[1]@);
        assert(parts.deep_view()[2] == parts[2]@);
        Some((parts[1].clone(), parts[2].clone(), None))
    } else if n == 5 {
        assert(parts.deep_view()[1] == parts[1]@);
        assert(parts.deep_view()[2] == parts[2]@);
        assert(parts.deep_view()[3] == parts[3]@);
        assert(parts.deep_view()[4] == parts[4]@);
        if word_is(parts[3].as_str(), "TTL") {
            match parse_u64(parts[4].as_str()) {
                Some(secs) => Some((parts[1].clone(), parts[2].clone(), Some(secs))),
                None => None,
            }
        } else {
            None
        }
    } else {
        None
    }
}

/// Reads a command from its tokens.
pub fn parse_command(parts: &Vec<String>) -> (r: Result<Command, CommandError>)
    ensures
        parsed_view(r) == parse_spec(parts.deep_view()),
{
    let n: usize = parts.len();
    assert(parts.deep_view().len() == n);
    if n == 0 {
        return Err(CommandError::UnknownCommand);
    }
    assert(parts.deep_view()[0] == parts[0]@);
    let verb = parts[0].as_str();
    if word_is(verb, "SET") {
        match parse_write_arguments(parts) {
            Some((key, value, ttl)) => Ok(Command::Insert { key, value, ttl }),
            None => Err(CommandError::UsageSet),
        }
    } else if word_is(verb, "UPDATE") {
        match parse_write_arguments(parts) {
            Some((key, value, ttl)) => Ok(Command::Update { key, value, ttl }),
            None => Err(CommandError::UsageUpdate),
        }
    } else if word_is(verb, "GET") {
        if n == 2 {
            assert(parts.deep_view()[1] == parts[1]@);
            Ok(Command::Get { key: parts[1].clone() })
        } else {
            Err(CommandError::UsageGet)
        }
    } else if word_is(verb, "DELETE") {
        if n == 2 {
            assert(parts.deep_view()[1] == parts[1]@);
            Ok(Command::Delete { key: parts[1].clone() })
        } else {
            Err(CommandError::UsageDelete)
        }
    } else if word_is(verb, "QUIT") {
        Ok(Command::Quit)
    } else {
        Err(CommandError::UnknownCommand)
    }
}

/// Resolves a time to live, in seconds from `now`, to the instant of expiry.
pub fn resolve_ttl(ttl: Option<u64>, now: Timestamp) -> (r: Option<Timestamp>)
    ensures
        r == deadline(ttl, now),
{
    match ttl {
        Some(secs) => Some(now.after_secs(secs)),
        None => None,
    }
}

impl Command {
    /// The log record of this command, carried out at `now`: the command
    /// itself, but for `SET` and `UPDATE` with a time to live, which is
    /// replaced by the second of the epoch in which the entry expires.
    pub fn into_record(self, now: Timestamp) -> (record: Command)
        ensures
            record@ == canonical(self@, now),
    {
        match self {
            Command::Insert { key, value, ttl } => Command::Insert {
                key,
                value,
                ttl: whole_secs(resolve_ttl(ttl, now)),
            },
            Command::Update { key, value, ttl } => Command::Update {
                key,
                value,
                ttl: whole_secs(resolve_ttl(ttl, now)),
            },
            other => other,
        }
    }
}

/// The second of an optional instant.
fn whole_secs(t: Option<Timestamp>) -> (r: Option<u64>)
    ensures
        r == match t {
            Some(instant) => Some(instant.secs),
            None => None,
        },
{
    match t {
        Some(instant) => Some(instant.secs),
        None => None,
    }
}

/// Runs `cmd` against `store` at `now`. Returns the reply, and the log
/// record if the store changed.
pub fn execute(cmd: Command, store: &mut Store, now: Timestamp) -> (out: (Reply, Option<Command>))
    ensures
        final(store)@ == execute_spec(cmd@, old(store)@, now).store,
        out.0@ == execute_spec(cmd@, old(store)@, now).reply,
        record_view(out.1) == execute_spec(cmd@, old(store)@, now).record,
{
    match cmd {
        Command::Insert { key, value, ttl } => {
            if store.contains_key(&key) {
                (Reply::Error(CommandError::KeyExists), None)
            } else {
                store.upsert(key.clone(), Entry::new(value.clone(), resolve_ttl(ttl, now)));
                (Reply::Done, Some(Command::Insert { key, value, ttl }.into_record(now)))
            }
        },
        Command::Update { key, value, ttl } => {
            if store.contains_key(&key) {
                store.upsert(key.clone(), Entry::new(value.clone(), resolve_ttl(ttl, now)));
                (Reply::Done, Some(Command::Update { key, value, ttl }.into_record(now)))
            } else {
                (Reply::Error(CommandError::NoSuchKey), None)
            }
        },
        Command::Get { key } => {
            match store.get(&key, now) {
                Some(value) => (Reply::Value(value), None),
                None => (Reply::Nil, None),
            }
        },
        Command::Delete { key } => {
            if store.delete(&key) {
                (Reply::Done, Some(Command::Delete { key }))
            } else {
                assert(store@ =~= old(store)@);
                (Reply::Error(CommandError::NoSuchKey), None)
            }
        },
        Command::Quit => (Reply::Bye, None),
    }
}

/// Runs the tokens of one command against `store` at `now`: returns the line
/// that answers it, and appends the log record to `log` if the store changed.
pub fn process_command_parts(
    parts: &Vec<String>,
    store: &mut Store,
    log: &mut Vec<String>,
    now: Timestamp,
) -> (response: String)
    ensures
        final(store)@ == command_effect(parts.deep_view(), old(store)@, now).store,
        response@ == reply_text(command_effect(parts.deep_view(), old(store)@, now).reply),
        final(log).deep_view() == old(log).deep_view() + record_lines(
            command_effect(parts.deep_view(), old(store)@, now).record,
        ),
{
    match parse_command(parts) {
        Ok(cmd) => {
            let (reply, record) = execute(cmd, store, now);
            match record {
                Some(rec) => {
                    let line = rec.to_line();
                    let ghost before = log.deep_view();
                    log.push(line);
                    assert(log.deep_view() =~= before + seq![command_text(rec@)]);
                },
                None => {
                    assert(log.deep_view() =~= log.deep_view() + Seq::<Seq<char>>::empty());
                },
            }
            reply.into_line()
        },
        Err(e) => {
            assert(log.deep_view() =~= log.deep_view() + Seq::<Seq<char>>::empty());
            e.message()
        },
    }
}


/// What running a sequence of lines does: the store after the last, one reply
/// line for each, and the log records in the order of the lines.
pub ghost struct BatchEffect {
    pub store: StoreView,
    pub replies: Seq<Seq<char>>,
    pub records: Seq<Seq<char>>,
}

/// The effect of running `lines` in order on the store `m`, all at `now`:
/// each line is cut into tokens and run on the store that the line before it
/// left.
pub open spec fn batch_effect(lines: Seq<Seq<char>>, m: StoreView, now: Timestamp) -> BatchEffect
    decreases lines.len(),
{
    if lines.len() == 0 {
        BatchEffect { store: m, replies: Seq::empty(), records: Seq::empty() }
    } else {
        let before = batch_effect(lines.drop_last(), m, now);
        let e = command_effect(split_whitespace(lines.last()), before.store, now);
        BatchEffect {
            store: e.store,
            replies: before.replies.push(reply_text(e.reply)),
            records: before.records + record_lines(e.record),
        }
    }
}

/// Runs `lines` in order against `store`, all at `now`. The caller holds the
/// store for the whole call, so nothing else sees a state in between.
/// Returns one reply line per line; appends the log records to `log`.
pub fn run_batch(lines: &Vec<String>, store: &mut Store, log: &mut Vec<String>, now: Timestamp) -> (replies: Vec<String>)
    ensures
        final(store)@ == batch_effect(lines.deep_view(), old(store)@, now).store,
        replies.deep_view() == batch_effect(lines.deep_view(), old(store)@, now).replies,
        final(log).deep_view() == old(log).deep_view() + batch_effect(
            lines.deep_view(),
            old(store)@,
            now,
        ).records,
{
    let ghost start = store@;
    let ghost logged = log.deep_view();
    let ghost all = lines.deep_view();
    let n: usize = lines.len();
    let mut replies: Vec<String> = Vec::new();
    let mut i: usize = 0;
    proof {
        assert(all.take(0) =~= Seq::<Seq<char>>::empty());
        assert(replies.deep_view() =~= Seq::<Seq<char>>::empty());
        assert(log.deep_view() =~= logged + Seq::<Seq<char>>::empty());
    }
    while i < n
        invariant
            i <= n,
            n == lines.len(),
            all == lines.deep_view(),
            store@ == batch_effect(all.take(i as int), start, now).store,
            replies.deep_view() == batch_effect(all.take(i as int), start, now).replies,
            log.deep_view() == logged + batch_effect(all.take(i as int), start, now).records,
        decreases n - i,
    {
        let ghost before = batch_effect(all.take(i as int), start, now);
        let ghost said = replies.deep_view();
        let parts = tokenize(lines[i].as_str());
        let response = process_command_parts(&parts, store, log, now);
        let ghost text = response@;
        replies.push(response);
        proof {
            let prefix = all.take(i + 1);
            assert(prefix.drop_last() =~= all.take(i as int));
            assert(prefix.last() == lines[i as int]@);
            let e = command_effect(split_whitespace(prefix.last()), before.store, now);
            assert(replies.deep_view() =~= said.push(text));
            assert(log.deep_view() =~= logged + (before.records + record_lines(e.record)));
        }
        i += 1;
    }
    assert(all.take(n as int) =~= all);
    replies
}

/// The state of a session: idle, or queuing lines for a later `EXEC`.
pub ghost struct SessionView {
    pub queuing: bool,
    pub queue: Seq<Seq<char>>,
}

impl SessionView {
    /// The state of a session that queues nothing.
    pub open spec fn idle() -> SessionView {
        SessionView { queuing: false, queue: Seq::empty() }
    }
}

/// What a session asks for after a line.
#[derive(Debug)]
pub enum Action {
    /// The line was blank: nothing is sent.
    Nothing,
    /// Send this reply. The store is not touched.
    Respond(Reply),
    /// Take the store once, run `lines` in order against it, send each
    /// reply, and close the connection afterwards if `close` is set.
    Execute { lines: Vec<String>, close: bool },
}

/// What an [`Action`] holds, as mathematical values.
pub ghost enum ActionView {
    Nothing,
    Respond(ReplyView),
    Execute { lines: Seq<Seq<char>>, close: bool },
}

impl View for Action {
    type V = ActionView;

    open spec fn view(&self) -> ActionView {
        match *self {
            Action::Nothing => ActionView::Nothing,
            Action::Respond(r) => ActionView::Respond(r@),
            Action::Execute { lines, close } => ActionView::Execute {
                lines: lines.deep_view(),
                close,
            },
        }
    }
}

/// Whether `tokens` is the single word `keyword`, read without regard to
/// ASCII case.
pub open spec fn is_single(tokens: Seq<Seq<char>>, keyword: Seq<char>) -> bool {
    tokens.len() == 1 && is_keyword(tokens[0], keyword)
}

/// The step of a session in state `s` on `line`: the next state, and what
/// the session asks for.
///
/// A blank line changes nothing. While idle, `MULTI` starts a queue and
/// every other line is run at once; the line whose verb is `QUIT` also ends
/// the session. While queuing, `EXEC` hands the queue over to be run,
/// `DISCARD` drops it, and every other line, `MULTI` included, joins it.
pub open spec fn session_step(s: SessionView, line: Seq<char>) -> (SessionView, ActionView) {
    let tokens = split_whitespace(line);
    if tokens.len() == 0 {
        (s, ActionView::Nothing)
    } else if s.queuing {
        if is_single(tokens, "EXEC"@) {
            (SessionView::idle(), ActionView::Execute { lines: s.queue, close: false })
        } else if is_single(tokens, "DISCARD"@) {
            (SessionView::idle(), ActionView::Respond(ReplyView::Done))
        } else {
            (
                SessionView { queuing: true, queue: s.queue.push(line) },
                ActionView::Respond(ReplyView::Queued),
            )
        }
    } else if is_single(tokens, "MULTI"@) {
        (SessionView { queuing: true, queue: Seq::empty() }, ActionView::Respond(ReplyView::Done))
    } else {
        (s, ActionView::Execute { lines: seq![line], close: is_keyword(tokens[0], "QUIT"@) })
    }
}

/// What a line does to a session and the store: the next state, the store
/// after it, the reply lines, the log records, and whether the connection
/// closes.
pub ghost struct LineEffect {
    pub session: SessionView,
    pub store: StoreView,
    pub replies: Seq<Seq<char>>,
    pub records: Seq<Seq<char>>,
    pub close: bool,
}

/// The effect of `line` on a session in state `s` and the store `m` at `now`.
pub open spec fn line_effect(s: SessionView, line: Seq<char>, m: StoreView, now: Timestamp) -> LineEffect {
    let (session, action) = session_step(s, line);
    match action {
        ActionView::Nothing => LineEffect {
            session,
            store: m,
            replies: Seq::empty(),
            records: Seq::empty(),
            close: false,
        },
        ActionView::Respond(r) => LineEffect {
            session,
            store: m,
            replies: seq![reply_text(r)],
            records: Seq::empty(),
            close: false,
        },
        ActionView::Execute { lines, close } => {
            let b = batch_effect(lines, m, now);
            LineEffect { session, store: b.store, replies: b.replies, records: b.records, close }
        },
    }
}

/// What the connection is told after a line.
#[derive(Debug)]
pub struct Outcome {
    /// The lines to send, in order.
    pub replies: Vec<String>,
    /// Whether to close the connection after sending them.
    pub close: bool,
}

/// The transaction state of one connection.
#[derive(Debug)]
pub struct Session {
    in_transaction: bool,
    queue: Vec<String>,
}

impl View for Session {
    type V = SessionView;

    closed spec fn view(&self) -> SessionView {
        SessionView { queuing: self.in_transaction, queue: self.queue.deep_view() }
    }
}

impl Session {
    /// A session that is idle.
    pub fn new() -> (s: Session)
        ensures
            s@ == SessionView::idle(),
    {
        let s = Session { in_transaction: false, queue: Vec::new() };
        assert(s.queue.deep_view() =~= Seq::<Seq<char>>::empty());
        s
    }

    /// Whether the session queues lines for a later `EXEC`.
    pub fn in_transaction(&self) -> (b: bool)
        ensures
            b == self@.queuing,
    {
        self.in_transaction
    }

    /// How many lines wait in the queue.
    pub fn queued(&self) -> (n: usize)
        ensures
            n == self@.queue.len(),
    {
        self.queue.len()
    }

    /// Takes one line from the client and says what to do about it. The
    /// store is not needed to decide.
    pub fn on_line(&mut self, line: &str) -> (action: Action)
        ensures
            final(self)@ == session_step(old(self)@, line@).0,
            action@ == session_step(old(self)@, line@).1,
    {
        let tokens = tokenize(line);
        let n: usize = tokens.len();
        assert(tokens.deep_view().len() == n);
        if n == 0 {
            return Action::Nothing;
        }
        assert(tokens.deep_view()[0] == tokens[0]@);
        let first = tokens[0].as_str();
        if self.in_transaction {
            if n == 1 && word_is(first, "EXEC") {
                let mut lines: Vec<String> = Vec::new();
                std::mem::swap(&mut lines, &mut self.queue);
                self.in_transaction = false;
                assert(self.queue.deep_view() =~= Seq::<Seq<char>>::empty());
                Action::Execute { lines, close: false }
            } else if n == 1 && word_is(first, "DISCARD") {
                self.queue.clear();
                self.in_transaction = false;
                assert(self.queue.deep_view() =~= Seq::<Seq<char>>::empty());
                Action::Respond(Reply::Done)
            } else {
                let ghost before = self.queue.deep_view();
                self.queue.push(line.to_owned());
                assert(self.queue.deep_view() =~= before.push(line@));
                Action::Respond(Reply::Queued)
            }
        } else if n == 1 && word_is(first, "MULTI") {
            self.queue.clear();
            self.in_transaction = true;
            assert(self.queue.deep_view() =~= Seq::<Seq<char>>::empty());
            Action::Respond(Reply::Done)
        } else {
            let close = word_is(first, "QUIT");
            let mut lines: Vec<String> = Vec::new();
            lines.push(line.to_owned());
            assert(lines.deep_view() =~= seq![line@]);
            Action::Execute { lines, close }
        }
    }

    /// Takes one line from the client, runs what it asks for against `store`
    /// at `now`, and returns what to send back. Log records are appended to
    /// `log`.
    pub fn handle_line(
        &mut self,
        line: &str,
        store: &mut Store,
        log: &mut Vec<String>,
        now: Timestamp,
    ) -> (out: Outcome)
        ensures
            final(self)@ == line_effect(old(self)@, line@, old(store)@, now).session,
            final(store)@ == line_effect(old(self)@, line@, old(store)@, now).store,
            out.replies.deep_view() == line_effect(old(self)@, line@, old(store)@, now).replies,
            final(log).deep_view() == old(log).deep_view() + line_effect(
                old(self)@,
                line@,
                old(store)@,
                now,
            ).records,
            out.close == line_effect(old(self)@, line@, old(store)@, now).close,
    {
        match self.on_line(line) {
            Action::Nothing => {
                let replies: Vec<String> = Vec::new();
                assert(replies.deep_view() =~= Seq::<Seq<char>>::empty());
                assert(log.deep_view() =~= log.deep_view() + Seq::<Seq<char>>::empty());
                Outcome { replies, close: false }
            },
            Action::Respond(reply) => {
                let mut replies: Vec<String> = Vec::new();
                let ghost r = reply@;
                replies.push(reply.into_line());
                assert(replies.deep_view() =~= seq![reply_text(r)]);
                assert(log.deep_view() =~= log.deep_view() + Seq::<Seq<char>>::empty());
                Outcome { replies, close: false }
            },
            Action::Execute { lines, close } => {
                let replies = run_batch(&lines, store, log, now);
                Outcome { replies, close }
            },
        }
    }
}


/// The store after the commands of `steps` have run on `m`, each at its own
/// instant, in order.
pub open spec fn run_all(steps: Seq<(CommandView, Timestamp)>, m: StoreView) -> StoreView
    decreases steps.len(),
{
    if steps.len() == 0 {
        m
    } else {
        execute_spec(steps.last().0, run_all(steps.drop_last(), m), steps.last().1).store
    }
}

/// Whether `cmd` is a `SET` of `key`.
pub open spec fn sets_key(cmd: CommandView, key: Seq<char>) -> bool {
    match cmd {
        CommandView::Insert { key: k, value: _, ttl: _ } => k == key,
        _ => false,
    }
}

/// What a sequence of lines, each at its own instant, does to a session and
/// the store: the replies and the log records add up in order.
pub open spec fn session_run(
    s: SessionView,
    steps: Seq<(Seq<char>, Timestamp)>,
    m: StoreView,
) -> LineEffect
    decreases steps.len(),
{
    if steps.len() == 0 {
        LineEffect {
            session: s,
            store: m,
            replies: Seq::empty(),
            records: Seq::empty(),
            close: false,
        }
    } else {
        let before = session_run(s, steps.drop_last(), m);
        let e = line_effect(before.session, steps.last().0, before.store, steps.last().1);
        LineEffect {
            session: e.session,
            store: e.store,
            replies: before.replies + e.replies,
            records: before.records + e.records,
            close: e.close,
        }
    }
}

/// `GET` of a key that the store does not hold answers `nil`, and changes
/// and logs nothing.
pub proof fn lemma_get_absent_is_nil(m: StoreView, key: Seq<char>, now: Timestamp)
    requires
        !m.contains_key(key),
    ensures
        execute_spec(CommandView::Get { key }, m, now) == answer(m, ReplyView::Nil),
{
}

/// After `SET key value` on a store that does not hold `key`, `GET key`
/// answers `value`, at any instant.
pub proof fn lemma_set_then_get(
    m: StoreView,
    key: Seq<char>,
    value: Seq<char>,
    now: Timestamp,
    later: Timestamp,
)
    requires
        !m.contains_key(key),
    ensures
        ({
            let set = execute_spec(CommandView::Insert { key, value, ttl: None }, m, now);
            &&& set.reply == ReplyView::Done
            &&& execute_spec(CommandView::Get { key }, set.store, later).reply == ReplyView::Value(
                value,
            )
        }),
{
}

/// `SET` of a key that the store holds is refused: the store stays as it
/// is, nothing is logged, and a read finds what it found before.
pub proof fn lemma_second_set_is_refused(
    m: StoreView,
    key: Seq<char>,
    value: Seq<char>,
    ttl: Option<u64>,
    now: Timestamp,
    later: Timestamp,
)
    requires
        m.contains_key(key),
    ensures
        execute_spec(CommandView::Insert { key, value, ttl }, m, now) == answer(
            m,
            ReplyView::Error(CommandError::KeyExists),
        ),
        execute_spec(
            CommandView::Get { key },
            execute_spec(CommandView::Insert { key, value, ttl }, m, now).store,
            later,
        ) == execute_spec(CommandView::Get { key }, m, later),
{
}

/// After `SET key first` and `UPDATE key second`, `GET key` answers
/// `second`, at any instant and whatever the store held before.
pub proof fn lemma_update_then_get(
    m: StoreView,
    key: Seq<char>,
    first: Seq<char>,
    second: Seq<char>,
    now: Timestamp,
    later: Timestamp,
)
    ensures
        ({
            let set = execute_spec(CommandView::Insert { key, value: first, ttl: None }, m, now);
            let update = execute_spec(
                CommandView::Update { key, value: second, ttl: None },
                set.store,
                now,
            );
            &&& update.reply == ReplyView::Done
            &&& execute_spec(CommandView::Get { key }, update.store, later).reply
                == ReplyView::Value(second)
        }),
{
}

/// `UPDATE` of a key that the store does not hold is refused: the store
/// stays as it is and nothing is logged.
pub proof fn lemma_update_absent_is_refused(
    m: StoreView,
    key: Seq<char>,
    value: Seq<char>,
    ttl: Option<u64>,
    now: Timestamp,
)
    requires
        !m.contains_key(key),
    ensures
        execute_spec(CommandView::Update { key, value, ttl }, m, now) == answer(
            m,
            ReplyView::Error(CommandError::NoSuchKey),
        ),
{
}

/// After `SET key value TTL ttl` at `now`, `GET key` answers `value` before
/// the deadline and `nil` from the deadline on, with no write in between.
/// A read at `now` itself finds the value when `ttl` is not zero, and a read
/// more than `ttl` seconds after `now` finds nothing.
pub proof fn lemma_ttl_expiry(
    m: StoreView,
    key: Seq<char>,
    value: Seq<char>,
    ttl: u64,
    now: Timestamp,
    later: Timestamp,
)
    requires
        !m.contains_key(key),
    ensures
        ({
            let set = execute_spec(CommandView::Insert { key, value, ttl: Some(ttl) }, m, now);
            let read = execute_spec(CommandView::Get { key }, set.store, later);
            &&& set.reply == ReplyView::Done
            &&& later.before(now.plus(ttl)) ==> read.reply == ReplyView::Value(value)
            &&& !later.before(now.plus(ttl)) ==> read.reply == ReplyView::Nil
            &&& read.store == set.store
            &&& ttl > 0 && now.secs < u64::MAX ==> now.before(now.plus(ttl))
            &&& later.secs > now.secs + ttl ==> !later.before(now.plus(ttl))
        }),
{
}

/// After `DELETE key`, carried out or refused, the store does not hold
/// `key` and `GET key` answers `nil`, at any instant.
pub proof fn lemma_delete_then_get(
    m: StoreView,
    key: Seq<char>,
    now: Timestamp,
    later: Timestamp,
)
    ensures
        ({
            let delete = execute_spec(CommandView::Delete { key }, m, now);
            &&& !delete.store.contains_key(key)
            &&& execute_spec(CommandView::Get { key }, delete.store, later).reply == ReplyView::Nil
        }),
{
}

/// A key that the store does not hold stays out of it through every
/// sequence of commands that holds no `SET` of that key.
pub proof fn lemma_absent_until_set(
    steps: Seq<(CommandView, Timestamp)>,
    m: StoreView,
    key: Seq<char>,
)
    requires
        !m.contains_key(key),
        forall|i: int| 0 <= i < steps.len() ==> !sets_key((#[trigger] steps[i]).0, key),
    ensures
        !run_all(steps, m).contains_key(key),
    decreases steps.len(),
{
    if steps.len() > 0 {
        let init = steps.drop_last();
        assert forall|i: int| 0 <= i < init.len() implies !sets_key((#[trigger] init[i]).0, key) by {
            assert(init[i] == steps[i]);
        }
        lemma_absent_until_set(init, m, key);
        assert(!sets_key(steps[steps.len() - 1].0, key));
    }
}

/// A batch answers each of its lines with one reply line.
pub proof fn lemma_batch_reply_count(lines: Seq<Seq<char>>, m: StoreView, now: Timestamp)
    ensures
        batch_effect(lines, m, now).replies.len() == lines.len(),
    decreases lines.len(),
{
    if lines.len() > 0 {
        lemma_batch_reply_count(lines.drop_last(), m, now);
    }
}

/// Every line that is not blank is answered: `EXEC` in a transaction with
/// one reply line for each queued line, every other line with exactly one.
pub proof fn lemma_reply_count(s: SessionView, line: Seq<char>, m: StoreView, now: Timestamp)
    requires
        split_whitespace(line).len() > 0,
    ensures
        line_effect(s, line, m, now).replies.len() == if s.queuing && is_single(
            split_whitespace(line),
            "EXEC"@,
        ) {
            s.queue.len()
        } else {
            1
        },
{
    let tokens = split_whitespace(line);
    if s.queuing && is_single(tokens, "EXEC"@) {
        lemma_batch_reply_count(s.queue, m, now);
    } else if !s.queuing && !is_single(tokens, "MULTI"@) {
        let lines = seq![line];
        assert(lines.drop_last() =~= Seq::<Seq<char>>::empty());
        lemma_batch_reply_count(lines, m, now);
    }
}

/// While a session queues, a line other than `EXEC` leaves the store alone
/// and logs nothing.
pub proof fn lemma_queuing_touches_nothing(
    s: SessionView,
    line: Seq<char>,
    m: StoreView,
    now: Timestamp,
)
    requires
        s.queuing,
        !is_single(split_whitespace(line), "EXEC"@),
    ensures
        line_effect(s, line, m, now).store == m,
        line_effect(s, line, m, now).records == Seq::<Seq<char>>::empty(),
        !line_effect(s, line, m, now).close,
{
}

/// A transaction that is discarded leaves no trace: after `MULTI`, any
/// lines that are neither `EXEC` nor `DISCARD`, and then `DISCARD`, the
/// store is what it was, nothing was logged, and the session is idle.
pub proof fn lemma_discarded_transaction_leaves_no_trace(
    s: SessionView,
    steps: Seq<(Seq<char>, Timestamp)>,
    m: StoreView,
)
    requires
        steps.len() >= 2,
        !s.queuing,
        is_single(split_whitespace(steps[0].0), "MULTI"@),
        is_single(split_whitespace(steps.last().0), "DISCARD"@),
        forall|i: int|
            0 < i < steps.len() - 1 ==> !is_single(
                split_whitespace((#[trigger] steps[i]).0),
                "EXEC"@,
            ) && !is_single(split_whitespace(steps[i].0), "DISCARD"@),
    ensures
        session_run(s, steps, m).store == m,
        session_run(s, steps, m).records == Seq::<Seq<char>>::empty(),
        session_run(s, steps, m).session == SessionView::idle(),
{
    reveal_strlit("EXEC");
    reveal_strlit("DISCARD");
    let init = steps.drop_last();
    lemma_queued_lines_leave_no_trace(s, init, m);
    let before = session_run(s, init, m);
    assert(init[0] == steps[0]);
    assert(before.records + Seq::<Seq<char>>::empty() =~= before.records);
}

/// After `MULTI` and any lines that are neither `EXEC` nor `DISCARD`, the
/// session still queues, the store is what it was, and nothing was logged.
pub proof fn lemma_queued_lines_leave_no_trace(
    s: SessionView,
    steps: Seq<(Seq<char>, Timestamp)>,
    m: StoreView,
)
    requires
        steps.len() >= 1,
        !s.queuing,
        is_single(split_whitespace(steps[0].0), "MULTI"@),
        forall|i: int|
            0 < i < steps.len() ==> !is_single(split_whitespace((#[trigger] steps[i]).0), "EXEC"@)
                && !is_single(split_whitespace(steps[i].0), "DISCARD"@),
    ensures
        session_run(s, steps, m).store == m,
        session_run(s, steps, m).records == Seq::<Seq<char>>::empty(),
        session_run(s, steps, m).session.queuing,
    decreases steps.len(),
{
    let init = steps.drop_last();
    if steps.len() == 1 {
        assert(init =~= Seq::<(Seq<char>, Timestamp)>::empty());
        assert(session_run(s, init, m).session == s);
        assert(Seq::<Seq<char>>::empty() + Seq::<Seq<char>>::empty() =~= Seq::<
            Seq<char>,
        >::empty());
    } else {
        assert(init[0] == steps[0]);
        assert forall|i: int| 0 < i < init.len() implies !is_single(
            split_whitespace((#[trigger] init[i]).0),
            "EXEC"@,
        ) && !is_single(split_whitespace(init[i].0), "DISCARD"@) by {
            assert(init[i] == steps[i]);
        }
        lemma_queued_lines_leave_no_trace(s, init, m);
        let before = session_run(s, init, m);
        assert(!is_single(split_whitespace(steps[steps.len() - 1].0), "EXEC"@));
        assert(!is_single(split_whitespace(steps[steps.len() - 1].0), "DISCARD"@));
        assert(before.records + Seq::<Seq<char>>::empty() =~= before.records);
    }
}


/// Whether the key and the value that `cmd` names are words, so that the
/// command can be written on a line.
pub open spec fn well_spelled(cmd: CommandView) -> bool {
    match cmd {
        CommandView::Insert { key, value, ttl: _ } => is_word(key) && is_word(value),
        CommandView::Update { key, value, ttl: _ } => is_word(key) && is_word(value),
        CommandView::Get { key } => is_word(key),
        CommandView::Delete { key } => is_word(key),
        CommandView::Quit => true,
    }
}

/// The verbs and `TTL` are words, each reads as itself, and none reads as
/// another.
pub proof fn lemma_keywords()
    ensures
        is_word("SET"@),
        is_word("UPDATE"@),
        is_word("GET"@),
        is_word("DELETE"@),
        is_word("QUIT"@),
        is_word("TTL"@),
        is_keyword("SET"@, "SET"@),
        is_keyword("UPDATE"@, "UPDATE"@),
        is_keyword("GET"@, "GET"@),
        is_keyword("DELETE"@, "DELETE"@),
        is_keyword("QUIT"@, "QUIT"@),
        is_keyword("TTL"@, "TTL"@),
        !is_keyword("UPDATE"@, "SET"@),
        !is_keyword("GET"@, "SET"@),
        !is_keyword("GET"@, "UPDATE"@),
        !is_keyword("DELETE"@, "SET"@),
        !is_keyword("DELETE"@, "UPDATE"@),
        !is_keyword("DELETE"@, "GET"@),
        !is_keyword("QUIT"@, "SET"@),
        !is_keyword("QUIT"@, "UPDATE"@),
        !is_keyword("QUIT"@, "GET"@),
        !is_keyword("QUIT"@, "DELETE"@),
{
    reveal_strlit("SET");
    reveal_strlit("UPDATE");
    reveal_strlit("GET");
    reveal_strlit("DELETE");
    reveal_strlit("QUIT");
    reveal_strlit("TTL");
    assert(crate::text::upper_code("GET"@[0]) != "SET"@[0] as u32);
    assert(crate::text::upper_code("DELETE"@[0]) != "UPDATE"@[0] as u32);
}

/// The line of a well-spelled command reads back as that command.
pub proof fn lemma_command_text_parses_back(cmd: CommandView)
    requires
        well_spelled(cmd),
    ensures
        parse_spec(split_whitespace(command_text(cmd))) == Ok::<CommandView, CommandError>(cmd),
{
    lemma_keywords();
    let ws = command_words(cmd);
    match cmd {
        CommandView::Insert { key, value, ttl } => {
            lemma_write_words("SET"@, key, value, ttl);
        },
        CommandView::Update { key, value, ttl } => {
            lemma_write_words("UPDATE"@, key, value, ttl);
        },
        CommandView::Get { key } => {},
        CommandView::Delete { key } => {},
        CommandView::Quit => {},
    }
    assert(all_words(ws));
    lemma_split_join(ws);
}

/// The words of `SET` and `UPDATE` are words, and read back as the
/// arguments that they were written from.
proof fn lemma_write_words(verb: Seq<char>, key: Seq<char>, value: Seq<char>, ttl: Option<u64>)
    requires
        is_word(verb),
        is_word(key),
        is_word(value),
    ensures
        all_words(seq![verb, key, value] + ttl_words(ttl)),
        write_arguments(seq![verb, key, value] + ttl_words(ttl)) == Some((key, value, ttl)),
{
    lemma_keywords();
    let ws = seq![verb, key, value] + ttl_words(ttl);
    match ttl {
        Some(n) => {
            lemma_decimal_round_trip(n);
            assert(ws =~= seq![verb, key, value, "TTL"@, decimal_digits(n as nat)]);
        },
        None => {
            assert(ws =~= seq![verb, key, value]);
        },
    }
}

/// A command read from words is well spelled.
pub proof fn lemma_parsed_is_well_spelled(parts: Seq<Seq<char>>)
    requires
        all_words(parts),
    ensures
        match parse_spec(parts) {
            Ok(cmd) => well_spelled(cmd),
            Err(_) => true,
        },
{
    if parts.len() >= 3 {
        assert(is_word(parts[1]));
        assert(is_word(parts[2]));
    } else if parts.len() == 2 {
        assert(is_word(parts[1]));
    }
}

/// A command that yields no log record leaves the store as it is, and the
/// log record of one that does is well spelled when the command is.
pub proof fn lemma_record_of_change(cmd: CommandView, m: StoreView, now: Timestamp)
    ensures
        match execute_spec(cmd, m, now).record {
            Some(record) => well_spelled(cmd) ==> well_spelled(record),
            None => execute_spec(cmd, m, now).store == m,
        },
{
}

} // verus!
