//! The employee-salary table: separate chaining over a fixed number of buckets,
//! records identified by the one-at-a-time hash of the employee's name.
use vstd::prelude::*;
use crate::commands::{Command, CommandView};
use crate::hashing::{one_at_a_time, spec_hash_str};
use crate::logging::{
    delete_failed_text, delete_request_text, deleted_text, found_text, insert_failed_text,
    insert_request_text, inserted_text, keyed_snapshot, search_failed_text, search_request_text,
    update_failed_text, update_request_text, updated_text, write_acquired_text, write_released_text,
    read_acquired_text, read_released_text, print_request_text, database_lines, final_table_lines,
    record_lines, keyed_records, render_records, Logger, Message,
};
use crate::sort::{lemma_stably_sorted_view, stable_sort_by_key, stably_sorted, view_keyed};
use crate::listing::{is_listing, lemma_is_listing_is_listing, lemma_sorted_is_listing, listing, represents};

verus! {

/// What the table remembers of an employee: the name given when the record was
/// inserted, and the current salary.
pub type Employee = (Seq<char>, u32);

/// One record of a bucket's chain.
pub struct HashRecord {
    hash: u32,
    name: String,
    salary: u32,
}

impl HashRecord {
    /// The hash the record is filed under.
    pub closed spec fn hash_code(&self) -> u32 {
        self.hash
    }

    /// The name and salary the record holds.
    pub closed spec fn employee(&self) -> Employee {
        (self.name@, self.salary)
    }

    /// A record of `name` earning `salary`, filed under `hash`.
    pub fn new(hash: u32, name: String, salary: u32) -> (record: Self)
        ensures
            record.hash_code() == hash,
            record.employee() == (name@, salary),
    {
        HashRecord { hash, name, salary }
    }
}

/// A bucket: the chain of records whose hashes compress to one index.
pub struct Bucket {
    entries: Vec<HashRecord>,
}

impl Bucket {
    /// The records of the chain, in order.
    pub closed spec fn records(&self) -> Seq<HashRecord> {
        self.entries@
    }

    /// The bucket holds a record with this hash.
    pub open spec fn holds(&self, hash: u32) -> bool {
        exists|j: int| 0 <= j < self.records().len() && #[trigger] self.records()[j].hash_code() == hash
    }

    fn new() -> (bucket: Self)
        ensures
            bucket.records().len() == 0,
    {
        Bucket { entries: Vec::new() }
    }

    /// Whether the bucket holds no record.
    pub fn is_empty(&self) -> (empty: bool)
        ensures
            empty == (self.records().len() == 0),
    {
        self.entries.len() == 0
    }

    /// The position of the record with this hash, if there is one.
    fn find(&self, hash: u32) -> (found: Option<usize>)
        ensures
            found matches Some(j) ==> j < self.records().len() && self.records()[j as int].hash_code() == hash,
            found is None ==> !self.holds(hash),
    {
        let mut j: usize = 0;
        while j < self.entries.len()
            invariant
                j <= self.entries@.len(),
                forall|k: int| 0 <= k < j ==> self.entries@[k].hash != hash,
            decreases self.entries@.len() - j,
        {
            if self.entries[j].hash == hash {
                return Some(j);
            }
            j = j + 1;
        }
        None
    }
}

/// The fixed array of buckets.
struct Backing {
    vector: Vec<Bucket>,
}

impl Backing {
    fn new(capacity: usize) -> (backing: Self)
        ensures
            backing.vector@.len() == capacity,
            forall|i: int| 0 <= i < capacity ==> (#[trigger] backing.vector@[i]).records().len() == 0,
    {
        let mut vector: Vec<Bucket> = Vec::with_capacity(capacity);
        let mut i: usize = 0;
        while i < capacity
            invariant
                i <= capacity,
                vector@.len() == i,
                forall|k: int| 0 <= k < i ==> (#[trigger] vector@[k]).records().len() == 0,
            decreases capacity - i,
        {
            vector.push(Bucket::new());
            i = i + 1;
        }
        Backing { vector }
    }
}

/// The bucket that a hash compresses to in a table of `capacity` buckets.
pub open spec fn bucket_of(hash: u32, capacity: usize) -> int {
    (hash % (capacity as u32)) as int
}

/// The salary recorded under the hash of `key`, if any.
pub open spec fn lookup(m: Map<u32, Employee>, key: Seq<char>) -> Option<u32> {
    let h = spec_hash_str(key);
    if m.contains_key(h) { Some(m[h].1) } else { None }
}

/// `key` collides: its hash is already taken by a record of another name. The table
/// expects no collisions; its operations on names are not to be called with one.
pub open spec fn collides(m: Map<u32, Employee>, key: Seq<char>) -> bool {
    let h = spec_hash_str(key);
    m.contains_key(h) && m[h].0 != key
}

/// The table after inserting `key` with `salary`: unchanged if its hash is present.
pub open spec fn after_insert(m: Map<u32, Employee>, key: Seq<char>, salary: u32) -> Map<u32, Employee> {
    let h = spec_hash_str(key);
    if m.contains_key(h) { m } else { m.insert(h, (key, salary)) }
}

/// The table after updating `key` to `salary`: the record under its hash, if any, keeps
/// its name and takes the new salary.
pub open spec fn after_update(m: Map<u32, Employee>, key: Seq<char>, salary: u32) -> Map<u32, Employee> {
    let h = spec_hash_str(key);
    if m.contains_key(h) { m.insert(h, (m[h].0, salary)) } else { m }
}

/// The table after deleting `key`: no record under its hash.
pub open spec fn after_delete(m: Map<u32, Employee>, key: Seq<char>) -> Map<u32, Employee> {
    m.remove(spec_hash_str(key))
}

/// `new` is `old` with `console` and `file` appended to its two logs and its lock
/// counters raised by `acquired` and `released`.
pub open spec fn logged(
    old: Logger,
    new: Logger,
    console: Seq<Message>,
    file: Seq<Message>,
    acquired: int,
    released: int,
) -> bool {
    &&& new.console() == old.console() + console
    &&& new.file() == old.file() + file
    &&& new.acquired() == old.acquired() + acquired
    &&& new.released() == old.released() + released
}

/// The log-file lines of a print that takes and gives up `n` read locks in turn.
pub open spec fn read_lock_pairs(time: u64, priority: u32, n: nat) -> Seq<Message> {
    Seq::new(2 * n, |k: int| if k % 2 == 0 {
        (time, read_acquired_text(time, priority))
    } else {
        (time, read_released_text(time, priority))
    })
}

/// `s` holds, once each, exactly the entries of `m` whose buckets come before `upto`,
/// keyed by hash.
spec fn covers(m: Map<u32, Employee>, capacity: usize, s: Seq<(u64, Employee)>, upto: int) -> bool {
    &&& forall|t: int| 0 <= t < s.len() ==> {
        &&& #[trigger] s[t].0 <= u32::MAX
        &&& m.contains_key(s[t].0 as u32)
        &&& m[s[t].0 as u32] == s[t].1
        &&& bucket_of(s[t].0 as u32, capacity) < upto
    }
    &&& forall|h: u32| #[trigger] m.contains_key(h) && bucket_of(h, capacity) < upto
        ==> exists|t: int| 0 <= t < s.len() && #[trigger] s[t].0 == h
    &&& forall|t1: int, t2: int| 0 <= t1 < t2 < s.len() ==> #[trigger] s[t1].0 != #[trigger] s[t2].0
}

/// What an insert of `key` with `salary` logs on table `m`: the outcome on the console;
/// the request and the write lock taken and given up in the log file; one acquisition
/// and one release counted.
pub open spec fn insert_logged(old: Logger, new: Logger, m: Map<u32, Employee>, key: Seq<char>, salary: u32, priority: u32, time: u64) -> bool {
    let h = spec_hash_str(key);
    logged(
        old,
        new,
        seq![(time, if m.contains_key(h) { insert_failed_text(h) } else { inserted_text(h, key, salary) })],
        seq![
            (time, insert_request_text(time, key, salary, priority, h)),
            (time, write_acquired_text(time, priority)),
            (time, write_released_text(time, priority)),
        ],
        1,
        1,
    )
}

/// What an update of `key` to `salary` logs on table `m`. A successful update's console
/// line shows the hash where the new salary would go.
pub open spec fn update_logged(old: Logger, new: Logger, m: Map<u32, Employee>, key: Seq<char>, salary: u32, priority: u32, time: u64) -> bool {
    let h = spec_hash_str(key);
    logged(
        old,
        new,
        seq![(time, if m.contains_key(h) { updated_text(h, key, m[h].1, h) } else { update_failed_text(h) })],
        seq![
            (time, update_request_text(time, key, salary, priority, h)),
            (time, write_acquired_text(time, priority)),
            (time, write_released_text(time, priority)),
        ],
        1,
        1,
    )
}

/// What a delete of `key` logs on table `m`.
pub open spec fn delete_logged(old: Logger, new: Logger, m: Map<u32, Employee>, key: Seq<char>, priority: u32, time: u64) -> bool {
    let h = spec_hash_str(key);
    logged(
        old,
        new,
        seq![(time, if m.contains_key(h) { deleted_text(h, key, m[h].1) } else { delete_failed_text(h) })],
        seq![
            (time, delete_request_text(time, key, priority, h)),
            (time, write_acquired_text(time, priority)),
            (time, write_released_text(time, priority)),
        ],
        1,
        1,
    )
}

/// What a search for `key` logs on table `m`; the lock is a read lock.
pub open spec fn search_logged(old: Logger, new: Logger, m: Map<u32, Employee>, key: Seq<char>, priority: u32, time: u64) -> bool {
    let h = spec_hash_str(key);
    logged(
        old,
        new,
        seq![(time, if m.contains_key(h) { found_text(h, key, m[h].1) } else { search_failed_text(key) })],
        seq![
            (time, search_request_text(time, key, priority, h)),
            (time, read_acquired_text(time, priority)),
            (time, read_released_text(time, priority)),
        ],
        1,
        1,
    )
}

/// What a print logs on table `m` of `capacity` buckets: the heading and every record
/// in increasing order of hash on the console; the request and each bucket's read lock
/// taken and given up in the log file; `capacity` acquisitions and releases counted.
pub open spec fn print_logged(old: Logger, new: Logger, m: Map<u32, Employee>, capacity: nat, priority: u32, time: u64) -> bool {
    logged(
        old,
        new,
        seq![(time, "Current Database:"@)] + database_lines(time, listing(m)),
        seq![(time, print_request_text(time, priority))] + read_lock_pairs(time, priority, capacity),
        capacity as int,
        capacity as int,
    )
}

/// The table after `command` on table `m`.
pub open spec fn command_effect(m: Map<u32, Employee>, command: CommandView) -> Map<u32, Employee> {
    match command {
        CommandView::Insert { name, salary, .. } => after_insert(m, name, salary),
        CommandView::Update { name, salary, .. } => after_update(m, name, salary),
        CommandView::Delete { name, .. } => after_delete(m, name),
        CommandView::Search { .. } => m,
        CommandView::Print { .. } => m,
    }
}

/// What `command` on table `m` returns: the salary it found, for an update, a delete
/// or a search; nothing for an insert or a print.
pub open spec fn command_result(m: Map<u32, Employee>, command: CommandView) -> Option<u32> {
    match command {
        CommandView::Update { name, .. } => lookup(m, name),
        CommandView::Delete { name, .. } => lookup(m, name),
        CommandView::Search { name, .. } => lookup(m, name),
        _ => None,
    }
}

/// What `command` on table `m` of `capacity` buckets logs.
pub open spec fn command_logged(old: Logger, new: Logger, m: Map<u32, Employee>, capacity: nat, command: CommandView, time: u64) -> bool {
    match command {
        CommandView::Insert { name, salary, priority } => insert_logged(old, new, m, name, salary, priority, time),
        CommandView::Update { name, salary, priority } => update_logged(old, new, m, name, salary, priority, time),
        CommandView::Delete { name, priority } => delete_logged(old, new, m, name, priority, time),
        CommandView::Search { name, priority } => search_logged(old, new, m, name, priority, time),
        CommandView::Print { priority } => print_logged(old, new, m, capacity, priority, time),
    }
}

/// What every call on the table keeps: the number of buckets, and a well-formed table
/// stays well formed.
pub open spec fn one_call(old: ConcurrentEmployeeSalaryMap, new: ConcurrentEmployeeSalaryMap) -> bool {
    &&& new.spec_capacity() == old.spec_capacity()
    &&& old.wf() ==> new.wf()
}

/// The table of employee salaries.
pub struct ConcurrentEmployeeSalaryMap {
    logger: Logger,
    backing: Backing,
    capacity: usize,
    size: usize,
    model: Ghost<Map<u32, Employee>>,
}

impl View for ConcurrentEmployeeSalaryMap {
    type V = Map<u32, Employee>;

    closed spec fn view(&self) -> Map<u32, Employee> {
        self.model@
    }
}

impl ConcurrentEmployeeSalaryMap {
    pub closed spec fn spec_capacity(&self) -> usize {
        self.capacity
    }

    pub closed spec fn spec_size(&self) -> usize {
        self.size
    }

    pub closed spec fn spec_logger(&self) -> Logger {
        self.logger
    }

    /// Hashes can be compressed to a bucket: the capacity, taken as a `u32`, is not zero.
    pub open spec fn can_compress(&self) -> bool {
        self.spec_capacity() as u32 != 0
    }

    pub closed spec fn wf(&self) -> bool {
        let buckets = self.backing.vector@;
        &&& buckets.len() == self.capacity
        &&& self@.dom().finite()
        &&& self.size == self@.dom().len()
        &&& forall|i: int, j: int|
            0 <= i < buckets.len() && 0 <= j < buckets[i].records().len() ==> {
                let r = #[trigger] buckets[i].records()[j];
                &&& self@.contains_key(r.hash_code())
                &&& self@[r.hash_code()] == r.employee()
                &&& bucket_of(r.hash_code(), self.capacity) == i
            }
        &&& forall|i: int, j1: int, j2: int|
            0 <= i < buckets.len() && 0 <= j1 < j2 < buckets[i].records().len() ==>
                #[trigger] buckets[i].records()[j1].hash_code() != #[trigger] buckets[i].records()[j2].hash_code()
        &&& forall|h: u32| #[trigger] self@.contains_key(h) ==> {
                &&& self.can_compress()
                &&& buckets[bucket_of(h, self.capacity)].holds(h)
            }
    }

    fn backing(capacity: usize) -> (backing: Backing)
        ensures
            backing.vector@.len() == capacity,
            forall|i: int| 0 <= i < capacity ==> (#[trigger] backing.vector@[i]).records().len() == 0,
    {
        Backing::new(capacity)
    }

    /// A table with `capacity` buckets and no records.
    pub fn new_fixed_size(capacity: usize) -> (map: Self)
        ensures
            map.wf(),
            map@ == Map::<u32, Employee>::empty(),
            map.spec_capacity() == capacity,
            map.spec_size() == 0,
            map@.dom().finite(),
            map.spec_logger().console() == Seq::<Message>::empty(),
            map.spec_logger().file() == Seq::<Message>::empty(),
            map.spec_logger().acquired() == 0,
            map.spec_logger().released() == 0,
    {
        ConcurrentEmployeeSalaryMap {
            logger: Logger::new(),
            backing: Self::backing(capacity),
            capacity,
            size: 0,
            model: Ghost(Map::empty()),
        }
    }

    /// A well-formed table holds finitely many records.
    pub proof fn lemma_finite(&self)
        requires
            self.wf(),
        ensures
            self@.dom().finite(),
    {
    }

    /// The number of buckets.
    pub fn capacity(&self) -> (capacity: usize)
        ensures
            capacity == self.spec_capacity(),
    {
        self.capacity
    }

    /// The number of records.
    pub fn size(&self) -> (size: usize)
        requires
            self.wf(),
        ensures
            size == self.spec_size(),
            size == self@.dom().len(),
            self@.dom().finite(),
    {
        self.size
    }

    fn compress(&self, hash: u32) -> (index: usize)
        requires
            self.can_compress(),
        ensures
            index == bucket_of(hash, self.spec_capacity()),
            index < self.spec_capacity(),
    {
        let cap = self.capacity;
        proof {
            assert(cap as u32 <= cap) by (bit_vector);
        }
        (hash % (cap as u32)) as usize
    }

    /// Adds a record under `hash` unless one is present there; says whether it did.
    fn insert_record(&mut self, hash: u32, key: String, salary: u32) -> (inserted: bool)
        requires
            old(self).wf(),
            old(self).can_compress(),
            old(self)@.dom().len() < usize::MAX,
        ensures
            final(self).wf(),
            final(self).spec_capacity() == old(self).spec_capacity(),
            final(self).logger == old(self).logger,
            inserted == !old(self)@.contains_key(hash),
            final(self)@ == (if inserted { old(self)@.insert(hash, (key@, salary)) } else { old(self)@ }),
    {
        let index = self.compress(hash);
        let found = self.backing.vector[index].find(hash);
        if found.is_some() {
            proof {
                let j = found.unwrap() as int;
                let r = self.backing.vector@[index as int].records()[j];
                assert(self@.contains_key(r.hash_code()));
            }
            return false;
        }
        proof {
            if self@.contains_key(hash) {
                assert(self.backing.vector@[bucket_of(hash, self.capacity)].holds(hash));
            }
        }
        let ghost old_buckets = self.backing.vector@;
        let ghost old_model = self@;
        let record = HashRecord::new(hash, key, salary);
        self.backing.vector[index].entries.push(record);
        self.size = self.size + 1;
        self.model = Ghost(self.model@.insert(hash, (key@, salary)));
        proof {
            let buckets = self.backing.vector@;
            assert forall|i: int| 0 <= i < buckets.len() && i != index implies buckets[i] == old_buckets[i] by {}
            assert forall|i: int, j: int|
                0 <= i < buckets.len() && 0 <= j < buckets[i].records().len() implies {
                    let r = #[trigger] buckets[i].records()[j];
                    &&& self@.contains_key(r.hash_code())
                    &&& self@[r.hash_code()] == r.employee()
                    &&& bucket_of(r.hash_code(), self.capacity) == i
                } by {
                if i == index && j == old_buckets[i].records().len() {
                } else {
                    let r = old_buckets[i].records()[j];
                    assert(old_model.contains_key(r.hash_code()));
                    assert(r.hash_code() != hash) by {
                        if r.hash_code() == hash {
                            assert(old_buckets[index as int].holds(hash));
                        }
                    }
                }
            }
            assert forall|i: int, j1: int, j2: int|
                0 <= i < buckets.len() && 0 <= j1 < j2 < buckets[i].records().len() implies
                    #[trigger] buckets[i].records()[j1].hash_code() != #[trigger] buckets[i].records()[j2].hash_code() by {
                if i == index && j2 == old_buckets[i].records().len() {
                    let r = old_buckets[i].records()[j1];
                    if r.hash_code() == hash {
                        assert(old_buckets[index as int].holds(hash));
                    }
                }
            }
            assert forall|h: u32| #[trigger] self@.contains_key(h) implies {
                &&& self.can_compress()
                &&& buckets[bucket_of(h, self.capacity)].holds(h)
            } by {
                if h == hash {
                    let j = old_buckets[index as int].records().len() as int;
                    assert(buckets[index as int].records()[j].hash_code() == h);
                } else {
                    assert(old_model.contains_key(h));
                    let b = bucket_of(h, self.capacity);
                    let j = choose|j: int| 0 <= j < old_buckets[b].records().len() && #[trigger] old_buckets[b].records()[j].hash_code() == h;
                    assert(buckets[b].records()[j].hash_code() == h);
                }
            }
        }
        true
    }

    /// The salary recorded under `hash`, if any.
    fn search_record(&self, hash: u32) -> (found: Option<u32>)
        requires
            self.wf(),
            self.can_compress(),
        ensures
            found == (if self@.contains_key(hash) { Some(self@[hash].1) } else { None::<u32> }),
    {
        let index = self.compress(hash);
        let found = self.backing.vector[index].find(hash);
        match found {
            Some(j) => {
                let salary = self.backing.vector[index].entries[j].salary;
                proof {
                    let r = self.backing.vector@[index as int].records()[j as int];
                    assert(self@.contains_key(r.hash_code()));
                }
                Some(salary)
            },
            None => {
                proof {
                    if self@.contains_key(hash) {
                        assert(self.backing.vector@[bucket_of(hash, self.capacity)].holds(hash));
                    }
                }
                None
            },
        }
    }

    /// Whether `key` collides with a record of another name under the same hash.
    pub fn collides(&self, key: &String) -> (collision: bool)
        requires
            self.wf(),
        ensures
            collision == collides(self@, key@),
    {
        if self.capacity as u32 == 0 {
            proof {
                let h = spec_hash_str(key@);
                assert(!self@.contains_key(h));
            }
            return false;
        }
        let hash = one_at_a_time(key.as_str());
        let index = self.compress(hash);
        match self.backing.vector[index].find(hash) {
            Some(j) => {
                let record = &self.backing.vector[index].entries[j];
                proof {
                    assert(self@.contains_key(record.hash_code()));
                }
                record.name != *key
            },
            None => {
                proof {
                    if self@.contains_key(hash) {
                        assert(self.backing.vector@[bucket_of(hash, self.capacity)].holds(hash));
                    }
                }
                false
            },
        }
    }

    /// Replaces the salary recorded under `hash`, if any, and returns the old one.
    fn update_record(&mut self, hash: u32, salary: u32) -> (previous: Option<u32>)
        requires
            old(self).wf(),
            old(self).can_compress(),
        ensures
            final(self).wf(),
            final(self).spec_capacity() == old(self).spec_capacity(),
            final(self).logger == old(self).logger,
            previous == (if old(self)@.contains_key(hash) { Some(old(self)@[hash].1) } else { None::<u32> }),
            final(self)@ == (if old(self)@.contains_key(hash) {
                old(self)@.insert(hash, (old(self)@[hash].0, salary))
            } else {
                old(self)@
            }),
    {
        let index = self.compress(hash);
        let found = self.backing.vector[index].find(hash);
        match found {
            None => {
                proof {
                    if self@.contains_key(hash) {
                        assert(self.backing.vector@[bucket_of(hash, self.capacity)].holds(hash));
                    }
                }
                None
            },
            Some(j) => {
                let ghost old_buckets = self.backing.vector@;
                let ghost old_model = self@;
                proof {
                    let r = old_buckets[index as int].records()[j as int];
                    assert(old_model.contains_key(r.hash_code()));
                }
                let old_salary = self.backing.vector[index].entries[j].salary;
                self.backing.vector[index].entries[j].salary = salary;
                self.model = Ghost(self.model@.insert(hash, (self.model@[hash].0, salary)));
                proof {
                    let buckets = self.backing.vector@;
                    assert(self@.dom() =~= old_model.dom());
                    assert forall|i: int| 0 <= i < buckets.len() && i != index implies buckets[i] == old_buckets[i] by {}
                    assert forall|i: int, j2: int|
                        0 <= i < buckets.len() && 0 <= j2 < buckets[i].records().len() && !(i == index && j2 == j)
                        implies buckets[i].records()[j2] == old_buckets[i].records()[j2] by {}
                    assert forall|i: int, k: int|
                        0 <= i < buckets.len() && 0 <= k < buckets[i].records().len() implies {
                            let r = #[trigger] buckets[i].records()[k];
                            &&& self@.contains_key(r.hash_code())
                            &&& self@[r.hash_code()] == r.employee()
                            &&& bucket_of(r.hash_code(), self.capacity) == i
                        } by {
                        if i == index && k == j {
                        } else {
                            let r = old_buckets[i].records()[k];
                            assert(old_model.contains_key(r.hash_code()));
                            if r.hash_code() == hash {
                                assert(i == index);
                                assert(old_buckets[i].records()[j as int].hash_code() == hash);
                                if k < j {
                                    assert(old_buckets[i].records()[k].hash_code() != old_buckets[i].records()[j as int].hash_code());
                                } else {
                                    assert(old_buckets[i].records()[j as int].hash_code() != old_buckets[i].records()[k].hash_code());
                                }
                            }
                        }
                    }
                    assert forall|i: int, j1: int, j2: int|
                        0 <= i < buckets.len() && 0 <= j1 < j2 < buckets[i].records().len() implies
                            #[trigger] buckets[i].records()[j1].hash_code() != #[trigger] buckets[i].records()[j2].hash_code() by {
                        assert(old_buckets[i].records()[j1].hash_code() != old_buckets[i].records()[j2].hash_code());
                    }
                    assert forall|h: u32| #[trigger] self@.contains_key(h) implies {
                        &&& self.can_compress()
                        &&& buckets[bucket_of(h, self.capacity)].holds(h)
                    } by {
                        assert(old_model.contains_key(h));
                        let b = bucket_of(h, self.capacity);
                        let k = choose|k: int| 0 <= k < old_buckets[b].records().len() && #[trigger] old_buckets[b].records()[k].hash_code() == h;
                        assert(buckets[b].records()[k].hash_code() == h);
                    }
                }
                Some(old_salary)
            },
        }
    }

    /// Removes the record under `hash`, if any, and returns its salary.
    fn delete_record(&mut self, hash: u32) -> (removed: Option<u32>)
        requires
            old(self).wf(),
            old(self).can_compress(),
        ensures
            final(self).wf(),
            final(self).spec_capacity() == old(self).spec_capacity(),
            final(self).logger == old(self).logger,
            removed == (if old(self)@.contains_key(hash) { Some(old(self)@[hash].1) } else { None::<u32> }),
            final(self)@ == old(self)@.remove(hash),
    {
        let index = self.compress(hash);
        let found = self.backing.vector[index].find(hash);
        match found {
            None => {
                proof {
                    if self@.contains_key(hash) {
                        assert(self.backing.vector@[bucket_of(hash, self.capacity)].holds(hash));
                    }
                    assert(self@.remove(hash) =~= self@);
                }
                None
            },
            Some(j) => {
                let ghost old_buckets = self.backing.vector@;
                let ghost old_model = self@;
                proof {
                    let r = old_buckets[index as int].records()[j as int];
                    assert(old_model.contains_key(r.hash_code()));
                }
                let record = self.backing.vector[index].entries.remove(j);
                let salary = record.salary;
                self.size = self.size - 1;
                self.model = Ghost(self.model@.remove(hash));
                proof {
                    let buckets = self.backing.vector@;
                    assert forall|i: int| 0 <= i < buckets.len() && i != index implies buckets[i] == old_buckets[i] by {}
                    assert(buckets[index as int].records() =~= old_buckets[index as int].records().remove(j as int));
                    assert forall|i: int, k: int|
                        0 <= i < buckets.len() && 0 <= k < buckets[i].records().len() implies {
                            let r = #[trigger] buckets[i].records()[k];
                            &&& self@.contains_key(r.hash_code())
                            &&& self@[r.hash_code()] == r.employee()
                            &&& bucket_of(r.hash_code(), self.capacity) == i
                        } by {
                        let k0 = if i == index && k >= j { k + 1 } else { k };
                        let r = old_buckets[i].records()[k0];
                        assert(buckets[i].records()[k] == r);
                        assert(old_model.contains_key(r.hash_code()));
                        if r.hash_code() == hash {
                            assert(i == index);
                            if k0 < j {
                                assert(old_buckets[i].records()[k0].hash_code() != old_buckets[i].records()[j as int].hash_code());
                            } else {
                                assert(old_buckets[i].records()[j as int].hash_code() != old_buckets[i].records()[k0].hash_code());
                            }
                        }
                    }
                    assert forall|i: int, j1: int, j2: int|
                        0 <= i < buckets.len() && 0 <= j1 < j2 < buckets[i].records().len() implies
                            #[trigger] buckets[i].records()[j1].hash_code() != #[trigger] buckets[i].records()[j2].hash_code() by {
                        let a = if i == index && j1 >= j { j1 + 1 } else { j1 };
                        let b = if i == index && j2 >= j { j2 + 1 } else { j2 };
                        assert(buckets[i].records()[j1] == old_buckets[i].records()[a]);
                        assert(buckets[i].records()[j2] == old_buckets[i].records()[b]);
                        assert(old_buckets[i].records()[a].hash_code() != old_buckets[i].records()[b].hash_code());
                    }
                    assert forall|h: u32| #[trigger] self@.contains_key(h) implies {
                        &&& self.can_compress()
                        &&& buckets[bucket_of(h, self.capacity)].holds(h)
                    } by {
                        assert(old_model.contains_key(h));
                        let b = bucket_of(h, self.capacity);
                        let k = choose|k: int| 0 <= k < old_buckets[b].records().len() && #[trigger] old_buckets[b].records()[k].hash_code() == h;
                        assert(k != j || b != index);
                        let k1 = if b == index && k > j { k - 1 } else { k };
                        assert(buckets[b].records()[k1] == old_buckets[b].records()[k]);
                        assert(buckets[b].records()[k1].hash_code() == h);
                    }
                }
                Some(salary)
            },
        }
    }

    /// `s` holds, once each, exactly the records of the buckets before `upto`, keyed by hash.
    spec fn covers(&self, s: Seq<(u64, Employee)>, upto: int) -> bool {
        covers(self@, self.capacity, s, upto)
    }

    proof fn lemma_bucket_in_range(&self, h: u32)
        requires
            self.can_compress(),
        ensures
            0 <= bucket_of(h, self.capacity) < self.capacity,
    {
        let cap = self.capacity;
        assert(cap as u32 <= cap) by (bit_vector);
    }

    /// Appends the records of bucket `i` to `snapshot`.
    fn collect_bucket(&self, i: usize, snapshot: &mut Vec<(u32, String, u32)>)
        requires
            self.wf(),
            i < self.spec_capacity(),
            self.covers(keyed_snapshot(old(snapshot)@), i as int),
        ensures
            self.covers(keyed_snapshot(final(snapshot)@), i + 1),
    {
        let ghost base = keyed_snapshot(snapshot@);
        let ghost records = self.backing.vector@[i as int].records();
        let n = self.backing.vector[i].entries.len();
        let mut j: usize = 0;
        while j < n
            invariant
                self.wf(),
                i < self.spec_capacity(),
                n == records.len(),
                records == self.backing.vector@[i as int].records(),
                j <= n,
                keyed_snapshot(snapshot@).len() == base.len() + j,
                forall|t: int| 0 <= t < base.len() ==> #[trigger] keyed_snapshot(snapshot@)[t] == base[t],
                forall|t: int| 0 <= t < j ==> #[trigger] keyed_snapshot(snapshot@)[base.len() + t]
                    == (records[t].hash_code() as u64, records[t].employee()),
            decreases n - j,
        {
            let ghost prev = snapshot@;
            let record = &self.backing.vector[i].entries[j];
            let name = record.name.clone();
            snapshot.push((record.hash, name, record.salary));
            proof {
                assert(records[j as int] == *record);
                assert(keyed_snapshot(snapshot@) =~= keyed_snapshot(prev).push(
                    (records[j as int].hash_code() as u64, records[j as int].employee())));
            }
            j = j + 1;
        }
        proof {
            let s = keyed_snapshot(snapshot@);
            let buckets = self.backing.vector@;
            assert forall|t: int| 0 <= t < s.len() implies {
                &&& #[trigger] s[t].0 <= u32::MAX
                &&& self@.contains_key(s[t].0 as u32)
                &&& self@[s[t].0 as u32] == s[t].1
                &&& bucket_of(s[t].0 as u32, self.capacity) < i + 1
            } by {
                if t < base.len() {
                    assert(s[t] == base[t]);
                } else {
                    let k = t - base.len();
                    assert(s[base.len() + k] == (records[k].hash_code() as u64, records[k].employee()));
                    assert(buckets[i as int].records()[k] == records[k]);
                }
            }
            assert forall|h: u32| #[trigger] self@.contains_key(h) && bucket_of(h, self.capacity) < i + 1
                implies exists|t: int| 0 <= t < s.len() && #[trigger] s[t].0 == h by {
                if bucket_of(h, self.capacity) < i {
                    let t = choose|t: int| 0 <= t < base.len() && #[trigger] base[t].0 == h;
                    assert(s[t] == base[t]);
                } else {
                    assert(buckets[bucket_of(h, self.capacity)].holds(h));
                    assert(bucket_of(h, self.capacity) == i);
                    let k = choose|k: int| 0 <= k < buckets[i as int].records().len() && #[trigger] buckets[i as int].records()[k].hash_code() == h;
                    assert(s[base.len() + k] == (records[k].hash_code() as u64, records[k].employee()));
                    assert(s[base.len() + k].0 == h);
                }
            }
            assert forall|t1: int, t2: int| 0 <= t1 < t2 < s.len() implies #[trigger] s[t1].0 != #[trigger] s[t2].0 by {
                if t2 < base.len() {
                    assert(s[t1] == base[t1] && s[t2] == base[t2]);
                } else if t1 < base.len() {
                    let k2 = t2 - base.len();
                    assert(s[base.len() + k2] == (records[k2].hash_code() as u64, records[k2].employee()));
                    assert(buckets[i as int].records()[k2] == records[k2]);
                    assert(s[t1] == base[t1]);
                } else {
                    let k1 = t1 - base.len();
                    let k2 = t2 - base.len();
                    assert(s[base.len() + k1] == (records[k1].hash_code() as u64, records[k1].employee()));
                    assert(s[base.len() + k2] == (records[k2].hash_code() as u64, records[k2].employee()));
                    assert(buckets[i as int].records()[k1] == records[k1]);
                    assert(buckets[i as int].records()[k2] == records[k2]);
                }
            }
        }
    }

    /// The log the table writes to.
    pub fn logger(&self) -> (logger: &Logger)
        ensures
            *logger == self.spec_logger(),
    {
        &self.logger
    }

    /// The log the table writes to, for the caller to add its own messages or to empty it.
    pub fn logger_mut(&mut self) -> (logger: &mut Logger)
        ensures
            *logger == old(self).spec_logger(),
            final(self).spec_logger() == *final(logger),
            final(self)@ == old(self)@,
            final(self).spec_capacity() == old(self).spec_capacity(),
            one_call(*old(self), *final(self)),
            final(self).spec_size() == old(self).spec_size(),
            old(self).wf() ==> final(self).wf(),
    {
        &mut self.logger
    }

    /// Inserts a record for `key` unless a record with the same hash is already present,
    /// and logs the request, the write lock taken and given up, and the outcome. A key
    /// that collides with another name is not to be passed (see `collides`).
    pub fn insert(&mut self, key: String, salary: u32, priority: u32, time: u64)
        requires
            old(self).wf(),
            old(self).can_compress(),
            !collides(old(self)@, key@),
            old(self)@.dom().len() < usize::MAX,
            old(self).spec_logger().acquired() < u32::MAX,
            old(self).spec_logger().released() < u32::MAX,
        ensures
            final(self).wf(),
            final(self).spec_capacity() == old(self).spec_capacity(),
            one_call(*old(self), *final(self)),
            final(self)@ == after_insert(old(self)@, key@, salary),
            insert_logged(old(self).spec_logger(), final(self).spec_logger(), old(self)@, key@, salary, priority, time),
    {
        let hash = one_at_a_time(key.as_str());
        self.logger.log_insert(key.as_str(), salary, priority, hash, time);
        self.logger.log_write_lock_acquired(priority, time);
        let shown = key.clone();
        let inserted = self.insert_record(hash, key, salary);
        if inserted {
            self.logger.print_insert(hash, shown.as_str(), salary, time);
        } else {
            self.logger.print_insert_failed(hash, time);
        }
        self.logger.log_write_lock_released(priority, time);
        proof {
            let o = old(self).spec_logger();
            assert(self.logger.file() =~= o.file() + seq![
                (time, insert_request_text(time, shown@, salary, priority, hash)),
                (time, write_acquired_text(time, priority)),
                (time, write_released_text(time, priority)),
            ]);
            assert(self.logger.console() =~= o.console() + seq![
                (time, if inserted { inserted_text(hash, shown@, salary) } else { insert_failed_text(hash) })]);
        }
    }

    /// Replaces the salary recorded for `key`'s hash, if there is such a record, and
    /// returns the salary it had; logs the request, the write lock, and the outcome.
    /// The console line of a successful update shows the hash where the new salary would go.
    pub fn update(&mut self, key: String, salary: u32, priority: u32, time: u64) -> (previous: Option<u32>)
        requires
            old(self).wf(),
            old(self).can_compress(),
            !collides(old(self)@, key@),
            old(self).spec_logger().acquired() < u32::MAX,
            old(self).spec_logger().released() < u32::MAX,
        ensures
            final(self).wf(),
            final(self).spec_capacity() == old(self).spec_capacity(),
            one_call(*old(self), *final(self)),
            previous == lookup(old(self)@, key@),
            final(self)@ == after_update(old(self)@, key@, salary),
            update_logged(old(self).spec_logger(), final(self).spec_logger(), old(self)@, key@, salary, priority, time),
    {
        let hash = one_at_a_time(key.as_str());
        self.logger.log_update(key.as_str(), salary, priority, hash, time);
        self.logger.log_write_lock_acquired(priority, time);
        let previous = self.update_record(hash, salary);
        match previous {
            Some(old_salary) => self.logger.print_update(hash, key.as_str(), old_salary, hash, time),
            None => self.logger.print_update_failed(hash, time),
        }
        self.logger.log_write_lock_released(priority, time);
        proof {
            let o = old(self).spec_logger();
            assert(self.logger.console() =~= o.console() + seq![(time, if old(self)@.contains_key(hash) { updated_text(hash, key@, old(self)@[hash].1, hash) } else { update_failed_text(hash) })]);
            assert(self.logger.file() =~= o.file() + seq![
                (time, update_request_text(time, key@, salary, priority, hash)),
                (time, write_acquired_text(time, priority)),
                (time, write_released_text(time, priority)),
            ]);
        }
        previous
    }

    /// Removes the record for `key`'s hash, if there is one, and returns its salary;
    /// logs the request, the write lock, and the outcome.
    pub fn delete(&mut self, key: String, priority: u32, time: u64) -> (removed: Option<u32>)
        requires
            old(self).wf(),
            old(self).can_compress(),
            !collides(old(self)@, key@),
            old(self).spec_logger().acquired() < u32::MAX,
            old(self).spec_logger().released() < u32::MAX,
        ensures
            final(self).wf(),
            final(self).spec_capacity() == old(self).spec_capacity(),
            one_call(*old(self), *final(self)),
            removed == lookup(old(self)@, key@),
            final(self)@ == after_delete(old(self)@, key@),
            delete_logged(old(self).spec_logger(), final(self).spec_logger(), old(self)@, key@, priority, time),
    {
        let hash = one_at_a_time(key.as_str());
        self.logger.log_delete(key.as_str(), priority, hash, time);
        self.logger.log_write_lock_acquired(priority, time);
        let removed = self.delete_record(hash);
        match removed {
            Some(salary) => self.logger.print_delete(hash, key.as_str(), salary, time),
            None => self.logger.print_delete_failed(hash, time),
        }
        self.logger.log_write_lock_released(priority, time);
        proof {
            let o = old(self).spec_logger();
            assert(self.logger.console() =~= o.console() + seq![(time, if old(self)@.contains_key(hash) { deleted_text(hash, key@, old(self)@[hash].1) } else { delete_failed_text(hash) })]);
            assert(self.logger.file() =~= o.file() + seq![
                (time, delete_request_text(time, key@, priority, hash)),
                (time, write_acquired_text(time, priority)),
                (time, write_released_text(time, priority)),
            ]);
        }
        removed
    }

    /// The salary recorded for `key`'s hash, if there is such a record; logs the
    /// request, the read lock taken and given up, and the outcome.
    pub fn search(&mut self, key: String, priority: u32, time: u64) -> (found: Option<u32>)
        requires
            old(self).wf(),
            old(self).can_compress(),
            !collides(old(self)@, key@),
            old(self).spec_logger().acquired() < u32::MAX,
            old(self).spec_logger().released() < u32::MAX,
        ensures
            final(self).wf(),
            final(self).spec_capacity() == old(self).spec_capacity(),
            one_call(*old(self), *final(self)),
            final(self)@ == old(self)@,
            found == lookup(old(self)@, key@),
            search_logged(old(self).spec_logger(), final(self).spec_logger(), old(self)@, key@, priority, time),
    {
        let hash = one_at_a_time(key.as_str());
        self.logger.log_search(key.as_str(), priority, hash, time);
        self.logger.log_read_lock_acquired(priority, time);
        let found = self.search_record(hash);
        match found {
            Some(salary) => self.logger.print_search(hash, key.as_str(), salary, time),
            None => self.logger.print_search_failed(key.as_str(), time),
        }
        self.logger.log_read_lock_released(priority, time);
        proof {
            let o = old(self).spec_logger();
            assert(self.logger.console() =~= o.console() + seq![(time, if old(self)@.contains_key(hash) { found_text(hash, key@, old(self)@[hash].1) } else { search_failed_text(key@) })]);
            assert(self.logger.file() =~= o.file() + seq![
                (time, search_request_text(time, key@, priority, hash)),
                (time, read_acquired_text(time, priority)),
                (time, read_released_text(time, priority)),
            ]);
        }
        found
    }

    /// The table can run `command`: a name that does not collide; a usable bucket count
    /// and room in the lock counters; for an insert, room for one more record; for a
    /// print, room in the counters for every bucket's read lock.
    pub open spec fn can_run(&self, command: CommandView) -> bool {
        match command {
            CommandView::Print { .. } => {
                &&& self.spec_logger().acquired() + self.spec_capacity() <= u32::MAX
                &&& self.spec_logger().released() + self.spec_capacity() <= u32::MAX
            },
            _ => {
                &&& self.can_compress()
                &&& !collides(self@, command.name()->Some_0)
                &&& self.spec_logger().acquired() < u32::MAX
                &&& self.spec_logger().released() < u32::MAX
                &&& (command is Insert ==> self@.dom().len() < usize::MAX)
            },
        }
    }

    /// Runs one command at time `time`.
    pub fn run_command(&mut self, command: Command, time: u64) -> (result: Option<u32>)
        requires
            old(self).wf(),
            old(self).can_run(command@),
        ensures
            final(self).wf(),
            final(self).spec_capacity() == old(self).spec_capacity(),
            one_call(*old(self), *final(self)),
            final(self)@ == command_effect(old(self)@, command@),
            result == command_result(old(self)@, command@),
            command_logged(old(self).spec_logger(), final(self).spec_logger(), old(self)@, old(self).spec_capacity() as nat, command@, time),
    {
        match command {
            Command::Insert { name, salary, priority } => {
                self.insert(name, salary, priority, time);
                None
            },
            Command::Update { name, salary, priority } => self.update(name, salary, priority, time),
            Command::Delete { name, priority } => self.delete(name, priority, time),
            Command::Search { name, priority } => self.search(name, priority, time),
            Command::Print { priority } => {
                self.print(priority, time);
                None
            },
        }
    }

    proof fn lemma_covers_all(&self, s: Seq<(u64, Employee)>)
        requires
            self.wf(),
            self.covers(s, self.capacity as int),
        ensures
            represents(self@, s),
    {
        assert forall|h: u32| #[trigger] self@.contains_key(h) implies exists|t: int| 0 <= t < s.len() && #[trigger] s[t].0 == h by {
            self.lemma_bucket_in_range(h);
        }
    }

    /// The records of every bucket, keyed by hash, in bucket order.
    fn snapshot(&self) -> (snapshot: Vec<(u32, String, u32)>)
        requires
            self.wf(),
        ensures
            represents(self@, keyed_snapshot(snapshot@)),
    {
        let mut snapshot: Vec<(u32, String, u32)> = Vec::new();
        let mut i: usize = 0;
        proof {
            assert(keyed_snapshot(snapshot@) =~= Seq::<(u64, Employee)>::empty());
        }
        while i < self.capacity
            invariant
                self.wf(),
                i <= self.spec_capacity(),
                self.covers(keyed_snapshot(snapshot@), i as int),
            decreases self.spec_capacity() - i,
        {
            self.collect_bucket(i, &mut snapshot);
            i = i + 1;
        }
        proof {
            self.lemma_covers_all(keyed_snapshot(snapshot@));
        }
        snapshot
    }

    /// Logs the print request, takes and gives up each bucket's read lock in turn
    /// (logging both), and logs to the console every record in increasing order of hash.
    pub fn print(&mut self, priority: u32, time: u64)
        requires
            old(self).wf(),
            old(self).spec_logger().acquired() + old(self).spec_capacity() <= u32::MAX,
            old(self).spec_logger().released() + old(self).spec_capacity() <= u32::MAX,
        ensures
            final(self).wf(),
            final(self)@ == old(self)@,
            final(self).spec_capacity() == old(self).spec_capacity(),
            one_call(*old(self), *final(self)),
            is_listing(old(self)@, listing(old(self)@)),
            print_logged(old(self).spec_logger(), final(self).spec_logger(), old(self)@, old(self).spec_capacity() as nat, priority, time),
    {
        self.logger.log_print(priority, time);
        let ghost base = self.logger.file();
        let mut snapshot: Vec<(u32, String, u32)> = Vec::new();
        let mut i: usize = 0;
        proof {
            assert(keyed_snapshot(snapshot@) =~= Seq::<(u64, Employee)>::empty());
            assert(read_lock_pairs(time, priority, 0) =~= Seq::<Message>::empty());
        }
        while i < self.capacity
            invariant
                self.wf(),
                self@ == old(self)@,
                self.spec_capacity() == old(self).spec_capacity(),
                i <= self.spec_capacity(),
                self.covers(keyed_snapshot(snapshot@), i as int),
                self.logger.file() == base + read_lock_pairs(time, priority, i as nat),
                self.logger.console() == old(self).spec_logger().console(),
                self.logger.acquired() == old(self).spec_logger().acquired() + i,
                self.logger.released() == old(self).spec_logger().released() + i,
                old(self).spec_logger().acquired() + old(self).spec_capacity() <= u32::MAX,
                old(self).spec_logger().released() + old(self).spec_capacity() <= u32::MAX,
            decreases self.spec_capacity() - i,
        {
            self.logger.log_read_lock_acquired(priority, time);
            self.collect_bucket(i, &mut snapshot);
            self.logger.log_read_lock_released(priority, time);
            proof {
                assert(read_lock_pairs(time, priority, (i + 1) as nat) =~= read_lock_pairs(time, priority, i as nat)
                    .push((time, read_acquired_text(time, priority))).push((time, read_released_text(time, priority))));
            }
            i = i + 1;
        }
        proof {
            self.lemma_covers_all(keyed_snapshot(snapshot@));
        }
        let ghost keyed = keyed_snapshot(snapshot@);
        let ghost before = self.logger.console();
        self.logger.print_database(snapshot, time);
        proof {
            let sorted = choose|sorted: Seq<(u64, (Seq<char>, u32))>|
                #[trigger] stably_sorted(keyed, sorted)
                && self.logger.console() == before.push((time, "Current Database:"@)) + database_lines(time, sorted);
            lemma_sorted_is_listing(self@, keyed, sorted);
            lemma_is_listing_is_listing(self@, sorted);
            assert(self.logger.console() =~= before + (seq![(time, "Current Database:"@)] + database_lines(time, listing(old(self)@))));
            assert(self.logger.file() =~= old(self).spec_logger().file() + (seq![(time, print_request_text(time, priority))]
                + read_lock_pairs(time, priority, old(self).spec_capacity() as nat)));
        }
    }

    /// The records as `"<hash>,<name>,<salary>"` lines in increasing order of hash; the
    /// same lines are logged to the log file as the final table.
    pub fn log_final_database(&mut self) -> (entries: Vec<String>)
        requires
            old(self).wf(),
        ensures
            final(self).wf(),
            final(self)@ == old(self)@,
            final(self).spec_capacity() == old(self).spec_capacity(),
            one_call(*old(self), *final(self)),
            is_listing(old(self)@, listing(old(self)@)),
            entries@.map_values(|e: String| e@) == record_lines(listing(old(self)@)),
            logged(
                old(self).spec_logger(),
                final(self).spec_logger(),
                Seq::<Message>::empty(),
                final_table_lines(record_lines(listing(old(self)@))),
                0,
                0,
            ),
    {
        let snapshot = self.snapshot();
        let keyed = keyed_records(&snapshot);
        let sorted = stable_sort_by_key(keyed);
        proof {
            lemma_stably_sorted_view(keyed@, sorted@);
            lemma_sorted_is_listing(self@, keyed_snapshot(snapshot@), view_keyed(sorted@));
            lemma_is_listing_is_listing(self@, view_keyed(sorted@));
            assert forall|i: int| 0 <= i < sorted@.len() implies #[trigger] sorted@[i].0 <= u32::MAX by {
                assert(view_keyed(sorted@)[i].0 == sorted@[i].0);
            }
        }
        let entries = render_records(&sorted);
        self.logger.log_final_table(&entries);
        proof {
            assert(self.logger.console() =~= old(self).spec_logger().console() + Seq::<Message>::empty());
        }
        entries
    }
}

/// A search right after an insert finds the inserted salary, unless a record with the
/// same hash was already present, in which case it finds that record's salary.
pub proof fn law_search_after_insert(m: Map<u32, Employee>, key: Seq<char>, salary: u32)
    ensures
        lookup(after_insert(m, key, salary), key) == (if lookup(m, key) is Some {
            lookup(m, key)
        } else {
            Some(salary)
        }),
{
}

/// An insert whose hash is already present changes nothing.
pub proof fn law_duplicate_insert_changes_nothing(m: Map<u32, Employee>, key: Seq<char>, salary: u32)
    requires
        lookup(m, key) is Some,
    ensures
        after_insert(m, key, salary) == m,
{
}

/// A search right after an update finds the new salary if there was a record to update,
/// and nothing otherwise.
pub proof fn law_search_after_update(m: Map<u32, Employee>, key: Seq<char>, salary: u32)
    ensures
        lookup(after_update(m, key, salary), key) == (if lookup(m, key) is Some {
            Some(salary)
        } else {
            None::<u32>
        }),
{
}

/// A search right after a delete finds nothing.
pub proof fn law_search_after_delete(m: Map<u32, Employee>, key: Seq<char>)
    ensures
        lookup(after_delete(m, key), key) is None,
{
}

/// Deleting a record that was just inserted restores the table.
pub proof fn law_delete_undoes_insert(m: Map<u32, Employee>, key: Seq<char>, salary: u32)
    requires
        lookup(m, key) is None,
    ensures
        after_delete(after_insert(m, key, salary), key) == m,
{
    assert(after_delete(after_insert(m, key, salary), key) =~= m);
}

/// Updating a salary and then updating it back restores the table.
pub proof fn law_update_back_restores(m: Map<u32, Employee>, key: Seq<char>, salary: u32)
    requires
        lookup(m, key) is Some,
    ensures
        after_update(after_update(m, key, salary), key, lookup(m, key)->Some_0) == m,
{
    assert(after_update(after_update(m, key, salary), key, lookup(m, key)->Some_0) =~= m);
}

/// Inserting, updating or deleting one key leaves what a search for a key with another
/// hash finds unchanged.
pub proof fn law_other_hashes_unaffected(m: Map<u32, Employee>, key: Seq<char>, other: Seq<char>, salary: u32)
    requires
        spec_hash_str(key) != spec_hash_str(other),
    ensures
        lookup(after_insert(m, key, salary), other) == lookup(m, other),
        lookup(after_update(m, key, salary), other) == lookup(m, other),
        lookup(after_delete(m, key), other) == lookup(m, other),
{
}

/// Two names with the same hash stand for the same record.
pub proof fn law_same_hash_same_record(m: Map<u32, Employee>, key: Seq<char>, other: Seq<char>)
    requires
        spec_hash_str(key) == spec_hash_str(other),
    ensures
        lookup(m, key) == lookup(m, other),
{
}

/// A successful insert adds one record and a successful delete removes one; the
/// others leave the number of records as it was.
pub proof fn law_record_counts(m: Map<u32, Employee>, key: Seq<char>, salary: u32)
    requires
        m.dom().finite(),
    ensures
        after_insert(m, key, salary).dom().len() == m.dom().len() + (if lookup(m, key) is None { 1int } else { 0int }),
        after_update(m, key, salary).dom().len() == m.dom().len(),
        after_delete(m, key).dom().len() == m.dom().len() - (if lookup(m, key) is Some { 1int } else { 0int }),
{
    let h = spec_hash_str(key);
    if m.contains_key(h) {
        assert(after_update(m, key, salary).dom() =~= m.dom());
    } else {
        assert(m.remove(h).dom() =~= m.dom());
    }
}

/// The table is of a fixed size: along any sequence of calls on a table made with
/// `capacity` buckets, each call keeping what every operation keeps (`one_call`), the
/// table keeps `capacity` buckets and stays well formed.
pub proof fn law_fixed_size(tables: Seq<ConcurrentEmployeeSalaryMap>, capacity: usize)
    requires
        tables.len() > 0,
        tables[0].spec_capacity() == capacity,
        tables[0].wf(),
        forall|i: int| 0 <= i < tables.len() - 1 ==> #[trigger] one_call(tables[i], tables[i + 1]),
    ensures
        forall|i: int| 0 <= i < tables.len() ==> #[trigger] tables[i].spec_capacity() == capacity && tables[i].wf(),
    decreases tables.len(),
{
    if tables.len() > 1 {
        let front = tables.drop_last();
        assert forall|i: int| 0 <= i < front.len() - 1 implies #[trigger] one_call(front[i], front[i + 1]) by {
            assert(one_call(tables[i], tables[i + 1]));
        }
        law_fixed_size(front, capacity);
        let n = tables.len() - 1;
        assert(front[n - 1] == tables[n - 1]);
        let k = n - 1;
        assert(0 <= k < tables.len() - 1);
        assert(one_call(tables[k], tables[k + 1]));
        assert(k + 1 == n);
        assert forall|i: int| 0 <= i < tables.len() implies #[trigger] tables[i].spec_capacity() == capacity && tables[i].wf() by {
            if i < n {
                assert(front[i] == tables[i]);
            }
        }
    }
}

/// An insert stores exactly the name given and the salary under the name's hash when
/// that hash is free, keeps the record there otherwise, and leaves every other hash as
/// it was.
pub proof fn law_insert_stores_record(m: Map<u32, Employee>, key: Seq<char>, salary: u32)
    ensures
        after_insert(m, key, salary).contains_key(spec_hash_str(key)),
        after_insert(m, key, salary)[spec_hash_str(key)] == (if m.contains_key(spec_hash_str(key)) {
            m[spec_hash_str(key)]
        } else {
            (key, salary)
        }),
        forall|g: u32| g != spec_hash_str(key) ==> (#[trigger] after_insert(m, key, salary).contains_key(g)
            == m.contains_key(g)),
        forall|g: u32| g != spec_hash_str(key) && m.contains_key(g) ==> #[trigger] after_insert(m, key, salary)[g] == m[g],
{
}

/// An update of a present record keeps its name and takes the new salary; nothing else
/// changes, and a missing record stays missing.
pub proof fn law_update_keeps_name(m: Map<u32, Employee>, key: Seq<char>, salary: u32)
    ensures
        after_update(m, key, salary).dom() == m.dom(),
        m.contains_key(spec_hash_str(key)) ==> after_update(m, key, salary)[spec_hash_str(key)]
            == (m[spec_hash_str(key)].0, salary),
        forall|g: u32| g != spec_hash_str(key) && m.contains_key(g) ==> #[trigger] after_update(m, key, salary)[g] == m[g],
{
    assert(after_update(m, key, salary).dom() =~= m.dom());
}

/// A delete removes the record under the name's hash and leaves every other record.
pub proof fn law_delete_removes_record(m: Map<u32, Employee>, key: Seq<char>)
    ensures
        !after_delete(m, key).contains_key(spec_hash_str(key)),
        forall|g: u32| g != spec_hash_str(key) ==> (#[trigger] after_delete(m, key).contains_key(g) == m.contains_key(g)),
        forall|g: u32| g != spec_hash_str(key) && m.contains_key(g) ==> #[trigger] after_delete(m, key)[g] == m[g],
{
}

} // verus!
