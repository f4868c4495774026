//! The two message logs the table keeps: one for the console and one for the log
//! file. Every message carries a timestamp; the logs come out ordered by it.
use vstd::prelude::*;
use crate::sort::{lemma_stably_sorted_view, stable_sort_by_key, stably_sorted, view_keyed};
use crate::text::{decimal, owned, push_decimal, push_text};
use crate::line::{comma_free, fields, join_commas, lemma_decimal_reads_back, lemma_fields_of_join, parse_u32};

verus! {

/// A logged message as the contracts see it: its timestamp and its text.
pub type Message = (u64, Seq<char>);

/// A log: the messages in the order they were recorded, and two lock counters.
struct Buffer {
    locks_acquired: u32,
    locks_released: u32,
    queue: Vec<(u64, String)>,
}

impl Buffer {
    spec fn messages(&self) -> Seq<Message> {
        view_keyed(self.queue@)
    }

    fn new() -> (buffer: Self)
        ensures
            buffer.messages() == Seq::<Message>::empty(),
            buffer.locks_acquired == 0,
            buffer.locks_released == 0,
    {
        let buffer = Buffer { locks_released: 0, locks_acquired: 0, queue: Vec::new() };
        proof {
            assert(buffer.messages() =~= Seq::<Message>::empty());
        }
        buffer
    }

    fn record(&mut self, time: u64, msg: String)
        ensures
            final(self).messages() == old(self).messages().push((time, msg@)),
            final(self).locks_acquired == old(self).locks_acquired,
            final(self).locks_released == old(self).locks_released,
    {
        let ghost m = msg@;
        self.queue.push((time, msg));
        proof {
            assert(self.messages() =~= old(self).messages().push((time, m)));
        }
    }

    /// Empties the log and returns its messages, stably ordered by timestamp.
    fn take_sorted(&mut self) -> (sorted: Vec<(u64, String)>)
        ensures
            final(self).messages() == Seq::<Message>::empty(),
            final(self).locks_acquired == old(self).locks_acquired,
            final(self).locks_released == old(self).locks_released,
            stably_sorted(old(self).messages(), view_keyed(sorted@)),
    {
        let mut queue: Vec<(u64, String)> = Vec::new();
        std::mem::swap(&mut queue, &mut self.queue);
        let sorted = stable_sort_by_key(queue);
        proof {
            lemma_stably_sorted_view(old(self).queue@, sorted@);
            assert(self.messages() =~= Seq::<Message>::empty());
        }
        sorted
    }
}

/// The start of every log-file line about a thread: `"<time>: THREAD <priority>"`.
pub open spec fn thread_prefix(time: u64, priority: u32) -> Seq<char> {
    decimal(time as nat) + ": THREAD "@ + decimal(priority as nat)
}

/// `"<hash>,<name>,<salary>"`: a record as the console and the final table show it.
pub open spec fn record_text(hash: u32, name: Seq<char>, salary: u32) -> Seq<char> {
    decimal(hash as nat) + ","@ + name + ","@ + decimal(salary as nat)
}

pub open spec fn inserted_text(hash: u32, key: Seq<char>, salary: u32) -> Seq<char> {
    "Inserted "@ + record_text(hash, key, salary)
}

pub open spec fn insert_failed_text(hash: u32) -> Seq<char> {
    "Insert failed. Entry "@ + decimal(hash as nat) + " is a duplicate."@
}

pub open spec fn updated_text(hash: u32, key: Seq<char>, old_salary: u32, new_salary: u32) -> Seq<char> {
    "Updated record "@ + decimal(hash as nat) + " from "@ + record_text(hash, key, old_salary)
        + " to "@ + record_text(hash, key, new_salary)
}

pub open spec fn update_failed_text(hash: u32) -> Seq<char> {
    "Update failed. Entry "@ + decimal(hash as nat) + " not found."@
}

pub open spec fn deleted_text(hash: u32, key: Seq<char>, salary: u32) -> Seq<char> {
    "Deleted record for "@ + record_text(hash, key, salary)
}

pub open spec fn delete_failed_text(hash: u32) -> Seq<char> {
    "Entry "@ + decimal(hash as nat) + " not deleted. Not in database."@
}

pub open spec fn found_text(hash: u32, key: Seq<char>, salary: u32) -> Seq<char> {
    "Found: "@ + record_text(hash, key, salary)
}

pub open spec fn search_failed_text(key: Seq<char>) -> Seq<char> {
    key + " not found."@
}

pub open spec fn waiting_text(time: u64, priority: u32) -> Seq<char> {
    thread_prefix(time, priority) + " WAITING FOR MY TURN"@
}

pub open spec fn awakened_text(time: u64, priority: u32) -> Seq<char> {
    thread_prefix(time, priority) + " AWAKENED FOR WORK"@
}

pub open spec fn insert_request_text(time: u64, key: Seq<char>, salary: u32, priority: u32, hash: u32) -> Seq<char> {
    thread_prefix(time, priority) + " INSERT,"@ + record_text(hash, key, salary)
}

pub open spec fn update_request_text(time: u64, key: Seq<char>, salary: u32, priority: u32, hash: u32) -> Seq<char> {
    thread_prefix(time, priority) + " UPDATE,"@ + record_text(hash, key, salary)
}

pub open spec fn delete_request_text(time: u64, key: Seq<char>, priority: u32, hash: u32) -> Seq<char> {
    thread_prefix(time, priority) + " DELETE,"@ + decimal(hash as nat) + ","@ + key
}

pub open spec fn search_request_text(time: u64, key: Seq<char>, priority: u32, hash: u32) -> Seq<char> {
    thread_prefix(time, priority) + " SEARCH,"@ + decimal(hash as nat) + ","@ + key
}

pub open spec fn print_request_text(time: u64, priority: u32) -> Seq<char> {
    thread_prefix(time, priority) + " PRINT"@
}

pub open spec fn write_acquired_text(time: u64, priority: u32) -> Seq<char> {
    thread_prefix(time, priority) + " WRITE LOCK ACQUIRED"@
}

pub open spec fn write_released_text(time: u64, priority: u32) -> Seq<char> {
    thread_prefix(time, priority) + " WRITE LOCK RELEASED"@
}

pub open spec fn read_acquired_text(time: u64, priority: u32) -> Seq<char> {
    thread_prefix(time, priority) + " READ LOCK ACQUIRED"@
}

pub open spec fn read_released_text(time: u64, priority: u32) -> Seq<char> {
    thread_prefix(time, priority) + " READ LOCK RELEASED"@
}

fn thread_prefix_string(time: u64, priority: u32) -> (s: String)
    ensures
        s@ == thread_prefix(time, priority),
{
    let mut s = String::new();
    push_decimal(&mut s, time);
    push_text(&mut s, ": THREAD ");
    push_decimal(&mut s, priority as u64);
    proof {
        assert(Seq::<char>::empty() + decimal(time as nat) =~= decimal(time as nat));
    }
    s
}

/// Appends `"<hash>,<name>,<salary>"` to `out`.
fn push_record(out: &mut String, hash: u32, name: &str, salary: u32)
    ensures
        final(out)@ == old(out)@ + record_text(hash, name@, salary),
{
    push_decimal(out, hash as u64);
    push_text(out, ",");
    push_text(out, name);
    push_text(out, ",");
    push_decimal(out, salary as u64);
    proof {
        assert(final(out)@ =~= old(out)@ + record_text(hash, name@, salary));
    }
}

/// `new` is `old` with one more console message `m`.
pub open spec fn console_grew(old: Logger, new: Logger, m: Message) -> bool {
    &&& new.console() == old.console().push(m)
    &&& new.file() == old.file()
    &&& new.acquired() == old.acquired()
    &&& new.released() == old.released()
}

/// `new` is `old` with one more log-file message `m`, and the lock counters raised
/// by `acquired` and `released`.
pub open spec fn file_grew(old: Logger, new: Logger, m: Message, acquired: int, released: int) -> bool {
    &&& new.file() == old.file().push(m)
    &&& new.console() == old.console()
    &&& new.acquired() == old.acquired() + acquired
    &&& new.released() == old.released() + released
}

/// A snapshot of records `(hash, name, salary)` keyed by hash, names taken by their views.
pub open spec fn keyed_snapshot(snapshot: Seq<(u32, String, u32)>) -> Seq<(u64, (Seq<char>, u32))> {
    snapshot.map_values(|r: (u32, String, u32)| (r.0 as u64, (r.1@, r.2)))
}

/// The console lines that list `records`, all stamped `time`.
pub open spec fn database_lines(time: u64, records: Seq<(u64, (Seq<char>, u32))>) -> Seq<Message> {
    records.map_values(|e: (u64, (Seq<char>, u32))| (time, record_text(e.0 as u32, e.1.0, e.1.1)))
}

/// The log-file lines of the final table: a heading, then each entry, all stamped `u64::MAX`.
pub open spec fn final_table_lines(entries: Seq<Seq<char>>) -> Seq<Message> {
    seq![(u64::MAX, "Final Table:"@)] + last_stamped(entries)
}

/// Each entry stamped `u64::MAX`.
pub open spec fn last_stamped(entries: Seq<Seq<char>>) -> Seq<Message> {
    entries.map_values(|e: Seq<char>| (u64::MAX, e))
}

/// The log-file lines that report the lock counters, all stamped `u64::MAX - 1`.
pub open spec fn lock_count_lines(acquired: u32, released: u32) -> Seq<Message> {
    let t = (u64::MAX - 1) as u64;
    seq![
        (t, Seq::<char>::empty()),
        (t, "Number of lock acquisitions: "@ + decimal(acquired as nat)),
        (t, "Number of locks released: "@ + decimal(released as nat)),
    ]
}

/// The records of `snapshot` keyed by hash, for sorting.
pub fn keyed_records(snapshot: &Vec<(u32, String, u32)>) -> (keyed: Vec<(u64, (String, u32))>)
    ensures
        view_keyed(keyed@) == keyed_snapshot(snapshot@),
{
    let mut keyed: Vec<(u64, (String, u32))> = Vec::new();
    let mut i: usize = 0;
    while i < snapshot.len()
        invariant
            i <= snapshot@.len(),
            view_keyed(keyed@) == keyed_snapshot(snapshot@).take(i as int),
        decreases snapshot@.len() - i,
    {
        let ghost before = keyed@;
        let name = snapshot[i].1.clone();
        keyed.push((snapshot[i].0 as u64, (name, snapshot[i].2)));
        proof {
            assert(keyed@ == before.push((snapshot@[i as int].0 as u64, (name, snapshot@[i as int].2))));
            assert(view_keyed(keyed@) =~= view_keyed(before).push((snapshot@[i as int].0 as u64, (name@, snapshot@[i as int].2))));
            assert(keyed_snapshot(snapshot@).take(i + 1) =~= keyed_snapshot(snapshot@).take(i as int).push(keyed_snapshot(snapshot@)[i as int]));
        }
        i = i + 1;
    }
    proof {
        assert(keyed_snapshot(snapshot@).take(i as int) =~= keyed_snapshot(snapshot@));
    }
    keyed
}

/// Each record as `"<hash>,<name>,<salary>"`.
pub open spec fn record_lines(records: Seq<(u64, (Seq<char>, u32))>) -> Seq<Seq<char>> {
    records.map_values(|e: (u64, (Seq<char>, u32))| record_text(e.0 as u32, e.1.0, e.1.1))
}

/// Renders each record as `"<hash>,<name>,<salary>"`.
pub fn render_records(records: &Vec<(u64, (String, u32))>) -> (lines: Vec<String>)
    requires
        forall|i: int| 0 <= i < records@.len() ==> #[trigger] records@[i].0 <= u32::MAX,
    ensures
        lines@.map_values(|l: String| l@) == record_lines(view_keyed(records@)),
{
    let mut lines: Vec<String> = Vec::new();
    let mut i: usize = 0;
    while i < records.len()
        invariant
            i <= records@.len(),
            forall|k: int| 0 <= k < records@.len() ==> #[trigger] records@[k].0 <= u32::MAX,
            lines@.map_values(|l: String| l@) == record_lines(view_keyed(records@)).take(i as int),
        decreases records@.len() - i,
    {
        let ghost before = lines@;
        let mut line = String::new();
        push_record(&mut line, records[i].0 as u32, records[i].1.0.as_str(), records[i].1.1);
        proof {
            assert(Seq::<char>::empty() + record_text(records@[i as int].0 as u32, records@[i as int].1.0@, records@[i as int].1.1)
                =~= record_text(records@[i as int].0 as u32, records@[i as int].1.0@, records@[i as int].1.1));
        }
        let ghost l = line@;
        lines.push(line);
        proof {
            assert(lines@.map_values(|l: String| l@) =~= before.map_values(|l: String| l@).push(l));
            assert(record_lines(view_keyed(records@)).take(i + 1) =~= record_lines(view_keyed(records@)).take(i as int).push(l));
        }
        i = i + 1;
    }
    proof {
        assert(record_lines(view_keyed(records@)).take(i as int) =~= record_lines(view_keyed(records@)));
    }
    lines
}

/// The console log and the log-file log.
pub struct Logger {
    stdout: Buffer,
    file_io: Buffer,
}

impl Logger {
    /// The console messages recorded so far, in the order they were recorded.
    pub closed spec fn console(&self) -> Seq<Message> {
        self.stdout.messages()
    }

    /// The log-file messages recorded so far, in the order they were recorded.
    pub closed spec fn file(&self) -> Seq<Message> {
        self.file_io.messages()
    }

    /// How many lock acquisitions have been logged.
    pub closed spec fn acquired(&self) -> u32 {
        self.file_io.locks_acquired
    }

    /// How many lock releases have been logged.
    pub closed spec fn released(&self) -> u32 {
        self.file_io.locks_released
    }

    fn buffer() -> (buffer: Buffer)
        ensures
            buffer.messages() == Seq::<Message>::empty(),
            buffer.locks_acquired == 0,
            buffer.locks_released == 0,
    {
        Buffer::new()
    }

    /// Two empty logs with both counters at zero.
    pub fn new() -> (logger: Self)
        ensures
            logger.console() == Seq::<Message>::empty(),
            logger.file() == Seq::<Message>::empty(),
            logger.acquired() == 0,
            logger.released() == 0,
    {
        Logger { stdout: Self::buffer(), file_io: Self::buffer() }
    }

    /// The lock acquisitions logged so far.
    pub fn locks_acquired(&self) -> (n: u32)
        ensures
            n == self.acquired(),
    {
        self.file_io.locks_acquired
    }

    /// The lock releases logged so far.
    pub fn locks_released(&self) -> (n: u32)
        ensures
            n == self.released(),
    {
        self.file_io.locks_released
    }

    fn console_line(&mut self, time: u64, msg: String)
        ensures
            final(self).console() == old(self).console().push((time, msg@)),
            final(self).file() == old(self).file(),
            final(self).acquired() == old(self).acquired(),
            final(self).released() == old(self).released(),
    {
        self.stdout.record(time, msg);
    }

    fn file_line(&mut self, time: u64, msg: String)
        ensures
            final(self).file() == old(self).file().push((time, msg@)),
            final(self).console() == old(self).console(),
            final(self).acquired() == old(self).acquired(),
            final(self).released() == old(self).released(),
    {
        self.file_io.record(time, msg);
    }

    /// Empties the console log and returns its messages, stably ordered by timestamp.
    pub fn print_outputs(&mut self) -> (sorted: Vec<(u64, String)>)
        ensures
            stably_sorted(old(self).console(), view_keyed(sorted@)),
            final(self).console() == Seq::<Message>::empty(),
            final(self).file() == old(self).file(),
            final(self).acquired() == old(self).acquired(),
            final(self).released() == old(self).released(),
    {
        self.stdout.take_sorted()
    }

    /// Empties the log-file log and returns its messages, stably ordered by timestamp.
    pub fn write_log(&mut self) -> (sorted: Vec<(u64, String)>)
        ensures
            stably_sorted(old(self).file(), view_keyed(sorted@)),
            final(self).file() == Seq::<Message>::empty(),
            final(self).console() == old(self).console(),
            final(self).acquired() == old(self).acquired(),
            final(self).released() == old(self).released(),
    {
        self.file_io.take_sorted()
    }

    /// Logs to the console that a record was inserted.
    pub fn print_insert(&mut self, hash: u32, key: &str, salary: u32, time: u64)
        ensures
            console_grew(*old(self), *final(self), (time, inserted_text(hash, key@, salary))),
    {
        let mut m = owned("Inserted ");
        push_record(&mut m, hash, key, salary);
        self.console_line(time, m);
    }

    /// Logs to the console that an insert was refused as a duplicate.
    pub fn print_insert_failed(&mut self, hash: u32, time: u64)
        ensures
            console_grew(*old(self), *final(self), (time, insert_failed_text(hash))),
    {
        let mut m = owned("Insert failed. Entry ");
        push_decimal(&mut m, hash as u64);
        push_text(&mut m, " is a duplicate.");
        self.console_line(time, m);
    }

    /// Logs to the console that a salary was updated.
    pub fn print_update(&mut self, hash: u32, key: &str, old_salary: u32, new_salary: u32, time: u64)
        ensures
            console_grew(*old(self), *final(self), (time, updated_text(hash, key@, old_salary, new_salary))),
    {
        let mut m = owned("Updated record ");
        push_decimal(&mut m, hash as u64);
        push_text(&mut m, " from ");
        push_record(&mut m, hash, key, old_salary);
        push_text(&mut m, " to ");
        push_record(&mut m, hash, key, new_salary);
        self.console_line(time, m);
    }

    /// Logs to the console that an update found no record.
    pub fn print_update_failed(&mut self, hash: u32, time: u64)
        ensures
            console_grew(*old(self), *final(self), (time, update_failed_text(hash))),
    {
        let mut m = owned("Update failed. Entry ");
        push_decimal(&mut m, hash as u64);
        push_text(&mut m, " not found.");
        self.console_line(time, m);
    }

    /// Logs to the console that a record was deleted.
    pub fn print_delete(&mut self, hash: u32, key: &str, salary: u32, time: u64)
        ensures
            console_grew(*old(self), *final(self), (time, deleted_text(hash, key@, salary))),
    {
        let mut m = owned("Deleted record for ");
        push_record(&mut m, hash, key, salary);
        self.console_line(time, m);
    }

    /// Logs to the console that a delete found no record.
    pub fn print_delete_failed(&mut self, hash: u32, time: u64)
        ensures
            console_grew(*old(self), *final(self), (time, delete_failed_text(hash))),
    {
        let mut m = owned("Entry ");
        push_decimal(&mut m, hash as u64);
        push_text(&mut m, " not deleted. Not in database.");
        self.console_line(time, m);
    }

    /// Logs to the console that a search found a record.
    pub fn print_search(&mut self, hash: u32, key: &str, salary: u32, time: u64)
        ensures
            console_grew(*old(self), *final(self), (time, found_text(hash, key@, salary))),
    {
        let mut m = owned("Found: ");
        push_record(&mut m, hash, key, salary);
        self.console_line(time, m);
    }

    /// Logs to the console that a search found no record.
    pub fn print_search_failed(&mut self, key: &str, time: u64)
        ensures
            console_grew(*old(self), *final(self), (time, search_failed_text(key@))),
    {
        let mut m = owned(key);
        push_text(&mut m, " not found.");
        self.console_line(time, m);
    }

    /// Logs that a thread waits for its turn.
    pub fn log_waiting(&mut self, priority: u32, time: u64)
        ensures
            file_grew(*old(self), *final(self), (time, waiting_text(time, priority)), 0, 0),
    {
        let mut m = thread_prefix_string(time, priority);
        push_text(&mut m, " WAITING FOR MY TURN");
        self.file_line(time, m);
    }

    /// Logs that a thread was woken for its turn.
    pub fn log_awakened(&mut self, priority: u32, time: u64)
        ensures
            file_grew(*old(self), *final(self), (time, awakened_text(time, priority)), 0, 0),
    {
        let mut m = thread_prefix_string(time, priority);
        push_text(&mut m, " AWAKENED FOR WORK");
        self.file_line(time, m);
    }

    /// Logs that a thread asks to insert a record.
    pub fn log_insert(&mut self, key: &str, salary: u32, priority: u32, hash: u32, time: u64)
        ensures
            file_grew(*old(self), *final(self), (time, insert_request_text(time, key@, salary, priority, hash)), 0, 0),
    {
        let mut m = thread_prefix_string(time, priority);
        push_text(&mut m, " INSERT,");
        push_record(&mut m, hash, key, salary);
        self.file_line(time, m);
    }

    /// Logs that a thread asks to update a salary.
    pub fn log_update(&mut self, key: &str, salary: u32, priority: u32, hash: u32, time: u64)
        ensures
            file_grew(*old(self), *final(self), (time, update_request_text(time, key@, salary, priority, hash)), 0, 0),
    {
        let mut m = thread_prefix_string(time, priority);
        push_text(&mut m, " UPDATE,");
        push_record(&mut m, hash, key, salary);
        self.file_line(time, m);
    }

    /// Logs that a thread asks to delete a record.
    pub fn log_delete(&mut self, key: &str, priority: u32, hash: u32, time: u64)
        ensures
            file_grew(*old(self), *final(self), (time, delete_request_text(time, key@, priority, hash)), 0, 0),
    {
        let mut m = thread_prefix_string(time, priority);
        push_text(&mut m, " DELETE,");
        push_decimal(&mut m, hash as u64);
        push_text(&mut m, ",");
        push_text(&mut m, key);
        self.file_line(time, m);
    }

    /// Logs that a thread asks to search for a record.
    pub fn log_search(&mut self, key: &str, priority: u32, hash: u32, time: u64)
        ensures
            file_grew(*old(self), *final(self), (time, search_request_text(time, key@, priority, hash)), 0, 0),
    {
        let mut m = thread_prefix_string(time, priority);
        push_text(&mut m, " SEARCH,");
        push_decimal(&mut m, hash as u64);
        push_text(&mut m, ",");
        push_text(&mut m, key);
        self.file_line(time, m);
    }

    /// Logs that a thread asks to print the table.
    pub fn log_print(&mut self, priority: u32, time: u64)
        ensures
            file_grew(*old(self), *final(self), (time, print_request_text(time, priority)), 0, 0),
    {
        let mut m = thread_prefix_string(time, priority);
        push_text(&mut m, " PRINT");
        self.file_line(time, m);
    }

    /// Logs that a thread took a write lock, and counts the acquisition.
    pub fn log_write_lock_acquired(&mut self, priority: u32, time: u64)
        requires
            old(self).acquired() < u32::MAX,
        ensures
            file_grew(*old(self), *final(self), (time, write_acquired_text(time, priority)), 1, 0),
    {
        let mut m = thread_prefix_string(time, priority);
        push_text(&mut m, " WRITE LOCK ACQUIRED");
        self.file_io.locks_acquired = self.file_io.locks_acquired + 1;
        self.file_line(time, m);
    }

    /// Logs that a thread gave up a write lock, and counts the release.
    pub fn log_write_lock_released(&mut self, priority: u32, time: u64)
        requires
            old(self).released() < u32::MAX,
        ensures
            file_grew(*old(self), *final(self), (time, write_released_text(time, priority)), 0, 1),
    {
        let mut m = thread_prefix_string(time, priority);
        push_text(&mut m, " WRITE LOCK RELEASED");
        self.file_io.locks_released = self.file_io.locks_released + 1;
        self.file_line(time, m);
    }

    /// Logs that a thread took a read lock, and counts the acquisition.
    pub fn log_read_lock_acquired(&mut self, priority: u32, time: u64)
        requires
            old(self).acquired() < u32::MAX,
        ensures
            file_grew(*old(self), *final(self), (time, read_acquired_text(time, priority)), 1, 0),
    {
        let mut m = thread_prefix_string(time, priority);
        push_text(&mut m, " READ LOCK ACQUIRED");
        self.file_io.locks_acquired = self.file_io.locks_acquired + 1;
        self.file_line(time, m);
    }

    /// Logs that a thread gave up a read lock, and counts the release.
    pub fn log_read_lock_released(&mut self, priority: u32, time: u64)
        requires
            old(self).released() < u32::MAX,
        ensures
            file_grew(*old(self), *final(self), (time, read_released_text(time, priority)), 0, 1),
    {
        let mut m = thread_prefix_string(time, priority);
        push_text(&mut m, " READ LOCK RELEASED");
        self.file_io.locks_released = self.file_io.locks_released + 1;
        self.file_line(time, m);
    }

    /// Logs to the console a heading and one line per record of `snapshot`, in
    /// stable order of hash, all stamped `time`.
    pub fn print_database(&mut self, snapshot: Vec<(u32, String, u32)>, time: u64)
        ensures
            exists|sorted: Seq<(u64, (Seq<char>, u32))>|
                #[trigger] stably_sorted(keyed_snapshot(snapshot@), sorted)
                && final(self).console() == old(self).console().push((time, "Current Database:"@))
                    + database_lines(time, sorted),
            final(self).file() == old(self).file(),
            final(self).acquired() == old(self).acquired(),
            final(self).released() == old(self).released(),
    {
        let keyed = keyed_records(&snapshot);
        let sorted = stable_sort_by_key(keyed);
        proof {
            lemma_stably_sorted_view(keyed@, sorted@);
        }
        let ghost records = view_keyed(sorted@);
        let ghost base = self.console().push((time, "Current Database:"@));
        self.console_line(time, owned("Current Database:"));
        let mut j: usize = 0;
        while j < sorted.len()
            invariant
                j <= sorted@.len(),
                records == view_keyed(sorted@),
                self.console() == base + database_lines(time, records.take(j as int)),
                self.file() == old(self).file(),
                self.acquired() == old(self).acquired(),
                self.released() == old(self).released(),
            decreases sorted@.len() - j,
        {
            let mut m = String::new();
            push_record(&mut m, sorted[j].0 as u32, sorted[j].1.0.as_str(), sorted[j].1.1);
            proof {
                assert(Seq::<char>::empty() + record_text(sorted@[j as int].0 as u32, sorted@[j as int].1.0@, sorted@[j as int].1.1)
                    =~= record_text(sorted@[j as int].0 as u32, sorted@[j as int].1.0@, sorted@[j as int].1.1));
            }
            self.console_line(time, m);
            proof {
                assert(database_lines(time, records.take(j + 1)) =~= database_lines(time, records.take(j as int)).push(
                    (time, record_text(records[j as int].0 as u32, records[j as int].1.0, records[j as int].1.1))));
            }
            j = j + 1;
        }
        proof {
            assert(records.take(j as int) =~= records);
        }
    }

    /// Logs to the log file a blank line and the two lock counters, stamped `u64::MAX - 1`
    /// so that they come after every timestamped message.
    pub fn log_lock_counts(&mut self)
        ensures
            final(self).file() == old(self).file() + lock_count_lines(old(self).acquired(), old(self).released()),
            final(self).console() == old(self).console(),
            final(self).acquired() == old(self).acquired(),
            final(self).released() == old(self).released(),
    {
        let time: u64 = u64::MAX - 1;
        let acquired = self.file_io.locks_acquired;
        let released = self.file_io.locks_released;
        self.file_line(time, String::new());
        let mut m = owned("Number of lock acquisitions: ");
        push_decimal(&mut m, acquired as u64);
        self.file_line(time, m);
        let mut m = owned("Number of locks released: ");
        push_decimal(&mut m, released as u64);
        self.file_line(time, m);
        proof {
            assert(self.file() =~= old(self).file() + lock_count_lines(acquired, released));
        }
    }

    /// Logs to the log file the heading of the final table and its entries, stamped
    /// `u64::MAX` so that they come last.
    pub fn log_final_table(&mut self, entries: &Vec<String>)
        ensures
            final(self).file() == old(self).file() + final_table_lines(entries@.map_values(|e: String| e@)),
            final(self).console() == old(self).console(),
            final(self).acquired() == old(self).acquired(),
            final(self).released() == old(self).released(),
    {
        let time: u64 = u64::MAX;
        let ghost texts = entries@.map_values(|e: String| e@);
        self.file_line(time, owned("Final Table:"));
        let n = entries.len();
        let mut i: usize = 0;
        while i < n
            invariant
                n == entries@.len(),
                i <= n,
                time == u64::MAX,
                texts == entries@.map_values(|e: String| e@),
                self.file() == old(self).file() + final_table_lines(texts.take(i as int)),
                self.console() == old(self).console(),
                self.acquired() == old(self).acquired(),
                self.released() == old(self).released(),
            decreases n - i,
        {
            let entry = entries[i].clone();
            self.file_line(time, entry);
            proof {
                assert(texts.take(i + 1) =~= texts.take(i as int).push(texts[i as int]));
                assert(last_stamped(texts.take(i + 1)) =~= last_stamped(texts.take(i as int)).push((time, texts[i as int])));
                assert(final_table_lines(texts.take(i + 1)) =~= final_table_lines(texts.take(i as int)).push((time, texts[i as int])));
            }
            i = i + 1;
        }
        proof {
            assert(texts.take(i as int) =~= texts);
            assert(final_table_lines(texts.take(0)) =~= seq![(u64::MAX, "Final Table:"@)]);
        }
    }
}

/// A record's line holds three comma-separated pieces: the decimal hash, the name, and
/// the decimal salary, which read back as the hash and the salary.
pub proof fn law_record_text_reads_back(hash: u32, name: Seq<char>, salary: u32)
    requires
        comma_free(name),
    ensures
        fields(record_text(hash, name, salary)) == seq![decimal(hash as nat), name, decimal(salary as nat)],
        parse_u32(decimal(hash as nat)) == Some(hash),
        parse_u32(decimal(salary as nat)) == Some(salary),
{
    reveal_strlit(",");
    reveal_with_fuel(join_commas, 4);
    lemma_decimal_reads_back(hash);
    lemma_decimal_reads_back(salary);
    let pieces = seq![decimal(hash as nat), name, decimal(salary as nat)];
    assert(record_text(hash, name, salary) =~= join_commas(pieces));
    assert forall|i: int| 0 <= i < pieces.len() implies comma_free(#[trigger] pieces[i]) by {}
    lemma_fields_of_join(pieces);
}

/// The console lines of a print are, one for one, the records' lines stamped with the
/// print's time.
pub proof fn law_database_lines(time: u64, records: Seq<(u64, (Seq<char>, u32))>)
    ensures
        database_lines(time, records).len() == records.len(),
        forall|i: int| 0 <= i < records.len() ==> #[trigger] database_lines(time, records)[i]
            == (time, record_text(records[i].0 as u32, records[i].1.0, records[i].1.1)),
{
}

/// The final table's entries are, one for one, the records' lines.
pub proof fn law_record_lines(records: Seq<(u64, (Seq<char>, u32))>)
    ensures
        record_lines(records).len() == records.len(),
        forall|i: int| 0 <= i < records.len() ==> #[trigger] record_lines(records)[i]
            == record_text(records[i].0 as u32, records[i].1.0, records[i].1.1),
{
}

} // verus!
