//! The commands that drive the table, and how a line of the command file is read.
use vstd::prelude::*;
use vstd::string::StrSliceExecFns;
use crate::line::{
    chars_of, comma_free, components, field_bounds, fields, join_commas, lemma_decimal_reads_back,
    lemma_fields_of_join, lemma_trim_fixed, parse_u32, read_u32, trim, trim_bounds,
};
use crate::text::{decimal, owned, push_decimal, push_text};
use crate::sort::{lemma_sorted_keeps_items, lemma_stably_sorted_view, stable_sort_by_key, stably_sorted, view_keyed, with_key};

verus! {

/// A command for the table. Each carries the priority that orders it among the others.
pub enum Command {
    Insert { name: String, salary: u32, priority: u32 },
    Update { name: String, salary: u32, priority: u32 },
    Delete { name: String, priority: u32 },
    Search { name: String, priority: u32 },
    Print { priority: u32 },
}

/// A command as the contracts see it, names taken by their characters.
pub enum CommandView {
    Insert { name: Seq<char>, salary: u32, priority: u32 },
    Update { name: Seq<char>, salary: u32, priority: u32 },
    Delete { name: Seq<char>, priority: u32 },
    Search { name: Seq<char>, priority: u32 },
    Print { priority: u32 },
}

impl View for Command {
    type V = CommandView;

    open spec fn view(&self) -> CommandView {
        match self {
            Command::Insert { name, salary, priority } => CommandView::Insert { name: name@, salary: *salary, priority: *priority },
            Command::Update { name, salary, priority } => CommandView::Update { name: name@, salary: *salary, priority: *priority },
            Command::Delete { name, priority } => CommandView::Delete { name: name@, priority: *priority },
            Command::Search { name, priority } => CommandView::Search { name: name@, priority: *priority },
            Command::Print { priority } => CommandView::Print { priority: *priority },
        }
    }
}

impl CommandView {
    pub open spec fn name(self) -> Option<Seq<char>> {
        match self {
            CommandView::Insert { name, .. } => Some(name),
            CommandView::Update { name, .. } => Some(name),
            CommandView::Delete { name, .. } => Some(name),
            CommandView::Search { name, .. } => Some(name),
            CommandView::Print { .. } => None,
        }
    }

    pub open spec fn salary(self) -> Option<u32> {
        match self {
            CommandView::Insert { salary, .. } => Some(salary),
            CommandView::Update { salary, .. } => Some(salary),
            _ => None,
        }
    }

    pub open spec fn priority(self) -> u32 {
        match self {
            CommandView::Insert { priority, .. } => priority,
            CommandView::Update { priority, .. } => priority,
            CommandView::Delete { priority, .. } => priority,
            CommandView::Search { priority, .. } => priority,
            CommandView::Print { priority } => priority,
        }
    }

    /// The command as a line of the command file.
    pub open spec fn text(self) -> Seq<char> {
        match self {
            CommandView::Insert { name, salary, priority } =>
                "insert,"@ + name + ","@ + decimal(salary as nat) + ","@ + decimal(priority as nat),
            CommandView::Update { name, salary, priority } =>
                "update,"@ + name + ","@ + decimal(salary as nat) + ","@ + decimal(priority as nat),
            CommandView::Delete { name, priority } => "delete,"@ + name + ","@ + decimal(priority as nat),
            CommandView::Search { name, priority } => "search,"@ + name + ","@ + decimal(priority as nat),
            CommandView::Print { priority } => "print,"@ + decimal(priority as nat),
        }
    }
}

impl Command {
    /// The employee's name, for the commands that name one.
    pub fn name(&self) -> (name: Option<String>)
        ensures
            name matches Some(n) ==> self@.name() == Some(n@),
            name is None ==> self@.name() is None,
    {
        match self {
            Command::Insert { name, .. } | Command::Update { name, .. } | Command::Delete { name, .. }
            | Command::Search { name, .. } => Some(name.clone()),
            _ => None,
        }
    }

    /// The employee's name, borrowed, for the commands that name one.
    pub fn name_ref(&self) -> (name: Option<&String>)
        ensures
            name matches Some(n) ==> self@.name() == Some(n@),
            name is None ==> self@.name() is None,
    {
        match self {
            Command::Insert { name, .. } | Command::Update { name, .. } | Command::Delete { name, .. }
            | Command::Search { name, .. } => Some(name),
            _ => None,
        }
    }

    /// The salary, for the commands that carry one.
    pub fn salary(&self) -> (salary: Option<u32>)
        ensures
            salary == self@.salary(),
    {
        match self {
            Command::Insert { salary, .. } | Command::Update { salary, .. } => Some(*salary),
            _ => None,
        }
    }

    /// The priority.
    pub fn priority(&self) -> (priority: u32)
        ensures
            priority == self@.priority(),
    {
        match self {
            Command::Insert { priority, .. } | Command::Update { priority, .. } | Command::Delete { priority, .. }
            | Command::Search { priority, .. } | Command::Print { priority, .. } => *priority,
        }
    }

    /// The command as a line of the command file, e.g. `"insert,Alice,1000,3"`.
    pub fn to_text(&self) -> (text: String)
        ensures
            text@ == self@.text(),
    {
        match self {
            Command::Insert { name, salary, priority } => {
                let mut t = owned("insert,");
                push_text(&mut t, name.as_str());
                push_text(&mut t, ",");
                push_decimal(&mut t, *salary as u64);
                push_text(&mut t, ",");
                push_decimal(&mut t, *priority as u64);
                t
            },
            Command::Update { name, salary, priority } => {
                let mut t = owned("update,");
                push_text(&mut t, name.as_str());
                push_text(&mut t, ",");
                push_decimal(&mut t, *salary as u64);
                push_text(&mut t, ",");
                push_decimal(&mut t, *priority as u64);
                t
            },
            Command::Delete { name, priority } => {
                let mut t = owned("delete,");
                push_text(&mut t, name.as_str());
                push_text(&mut t, ",");
                push_decimal(&mut t, *priority as u64);
                t
            },
            Command::Search { name, priority } => {
                let mut t = owned("search,");
                push_text(&mut t, name.as_str());
                push_text(&mut t, ",");
                push_decimal(&mut t, *priority as u64);
                t
            },
            Command::Print { priority } => {
                let mut t = owned("print,");
                push_decimal(&mut t, *priority as u64);
                t
            },
        }
    }
}

/// A parameter of a command line.
#[derive(Clone, Copy, PartialEq, Eq, Debug)]
pub enum Parameter {
    Count,
    Unknown,
    Name,
    Salary,
    Priority,
}

impl Parameter {
    /// The parameter's name as the command format writes it.
    pub fn label(&self) -> (label: &'static str)
        ensures
            label@ == self.spec_label(),
    {
        match self {
            Parameter::Count => "count",
            Parameter::Unknown => "unknown",
            Parameter::Name => "name",
            Parameter::Salary => "salary",
            Parameter::Priority => "priority",
        }
    }

    pub open spec fn spec_label(&self) -> Seq<char> {
        match self {
            Parameter::Count => "count"@,
            Parameter::Unknown => "unknown"@,
            Parameter::Name => "name"@,
            Parameter::Salary => "salary"@,
            Parameter::Priority => "priority"@,
        }
    }
}

/// Why a command line cannot be read. `operation` is the line's first component.
pub enum CommandError {
    /// The line ends before the parameter.
    MissingParameter { operation: String, parameter: Parameter },
    /// The parameter is not an unsigned 32-bit integer.
    InvalidParameter { operation: String, parameter: Parameter, value: String },
    /// The operation is none of the known ones.
    UnknownCommand { operation: String },
}

/// A `CommandError` as the contracts see it.
pub enum CommandErrorView {
    MissingParameter { operation: Seq<char>, parameter: Parameter },
    InvalidParameter { operation: Seq<char>, parameter: Parameter, value: Seq<char> },
    UnknownCommand { operation: Seq<char> },
}

impl View for CommandError {
    type V = CommandErrorView;

    open spec fn view(&self) -> CommandErrorView {
        match self {
            CommandError::MissingParameter { operation, parameter } =>
                CommandErrorView::MissingParameter { operation: operation@, parameter: *parameter },
            CommandError::InvalidParameter { operation, parameter, value } =>
                CommandErrorView::InvalidParameter { operation: operation@, parameter: *parameter, value: value@ },
            CommandError::UnknownCommand { operation } => CommandErrorView::UnknownCommand { operation: operation@ },
        }
    }
}

/// What reading a line gives, as the contracts see it.
pub type Compiled = Result<Option<CommandView>, CommandErrorView>;

pub open spec fn compiled_view(r: Result<Option<Command>, CommandError>) -> Compiled {
    match r {
        Ok(Some(c)) => Ok(Some(c@)),
        Ok(None) => Ok(None),
        Err(e) => Err(e@),
    }
}

pub open spec fn missing(op: Seq<char>, p: Parameter) -> Compiled {
    Err(CommandErrorView::MissingParameter { operation: op, parameter: p })
}

pub open spec fn invalid(op: Seq<char>, p: Parameter, value: Seq<char>) -> Compiled {
    Err(CommandErrorView::InvalidParameter { operation: op, parameter: p, value })
}

/// What a line of the command file means. The line is split at commas and each piece
/// trimmed of white space; the first piece names the operation. `threads` lines and
/// blank lines mean nothing; a known operation takes its parameters in order (pieces
/// beyond them are ignored); a missing parameter, a number that does not fit in a
/// `u32`, or an unknown operation is an error.
pub open spec fn compile(line: Seq<char>) -> Compiled {
    let c = components(line);
    let op = c[0];
    let n = c.len();
    if op == "threads"@ {
        if n < 2 {
            missing(op, Parameter::Count)
        } else if n < 3 {
            missing(op, Parameter::Unknown)
        } else {
            Ok(None)
        }
    } else if op == "insert"@ || op == "update"@ {
        if n < 2 {
            missing(op, Parameter::Name)
        } else if n < 3 {
            missing(op, Parameter::Salary)
        } else if n < 4 {
            missing(op, Parameter::Priority)
        } else {
            match (parse_u32(c[2]), parse_u32(c[3])) {
                (None, _) => invalid(op, Parameter::Salary, c[2]),
                (Some(_), None) => invalid(op, Parameter::Priority, c[3]),
                (Some(salary), Some(priority)) => Ok(Some(
                    if op == "insert"@ {
                        CommandView::Insert { name: c[1], salary, priority }
                    } else {
                        CommandView::Update { name: c[1], salary, priority }
                    },
                )),
            }
        }
    } else if op == "delete"@ || op == "search"@ {
        if n < 2 {
            missing(op, Parameter::Name)
        } else if n < 3 {
            missing(op, Parameter::Priority)
        } else {
            match parse_u32(c[2]) {
                None => invalid(op, Parameter::Priority, c[2]),
                Some(priority) => Ok(Some(
                    if op == "delete"@ {
                        CommandView::Delete { name: c[1], priority }
                    } else {
                        CommandView::Search { name: c[1], priority }
                    },
                )),
            }
        }
    } else if op == "print"@ {
        if n < 2 {
            missing(op, Parameter::Priority)
        } else {
            match parse_u32(c[1]) {
                None => invalid(op, Parameter::Priority, c[1]),
                Some(priority) => Ok(Some(CommandView::Print { priority })),
            }
        }
    } else if op.len() == 0 {
        Ok(None)
    } else {
        Err(CommandErrorView::UnknownCommand { operation: op })
    }
}

/// Whether `s[a..b]` is `word`.
fn range_is(s: &Vec<char>, a: usize, b: usize, word: &str) -> (is: bool)
    requires
        a <= b <= s@.len(),
    ensures
        is == (s@.subrange(a as int, b as int) == word@),
{
    let n = word.unicode_len();
    if b - a != n {
        proof {
            if s@.subrange(a as int, b as int) == word@ {
                assert(s@.subrange(a as int, b as int).len() == word@.len());
            }
        }
        return false;
    }
    let mut i: usize = 0;
    while i < n
        invariant
            n == word@.len(),
            b - a == n,
            a <= b <= s@.len(),
            i <= n,
            forall|k: int| 0 <= k < i ==> s@[a + k] == word@[k],
        decreases n - i,
    {
        if s[a + i] != word.get_char(i) {
            proof {
                assert(s@.subrange(a as int, b as int)[i as int] != word@[i as int]);
            }
            return false;
        }
        i = i + 1;
    }
    proof {
        assert(s@.subrange(a as int, b as int) =~= word@);
    }
    true
}

/// Whether `a` and `b` hold the same characters.
fn str_equals(a: &str, b: &str) -> (same: bool)
    ensures
        same == (a@ == b@),
{
    let chars = chars_of(a);
    proof {
        assert(chars@.subrange(0, chars@.len() as int) =~= chars@);
    }
    range_is(&chars, 0, chars.len(), b)
}

/// The format that a command line with operation `op` must follow.
pub fn expected_format(op: &str) -> (format: &'static str)
    ensures
        format@ == (if op@ == "insert"@ {
            "insert,<name>,<salary>,<priority>"@
        } else if op@ == "update"@ {
            "update,<name>,<salary>,<priority>"@
        } else if op@ == "delete"@ {
            "delete,<name>,<priority>"@
        } else if op@ == "search"@ {
            "search,<name>,<priority>"@
        } else if op@ == "print"@ {
            "print,<priority>"@
        } else {
            "<not-applicable>"@
        }),
{
    if str_equals(op, "insert") {
        "insert,<name>,<salary>,<priority>"
    } else if str_equals(op, "update") {
        "update,<name>,<salary>,<priority>"
    } else if str_equals(op, "delete") {
        "delete,<name>,<priority>"
    } else if str_equals(op, "search") {
        "search,<name>,<priority>"
    } else if str_equals(op, "print") {
        "print,<priority>"
    } else {
        "<not-applicable>"
    }
}

/// The bounds of the `k`-th component of the line `s`, whose pieces are at `bounds`.
fn component(s: &Vec<char>, bounds: &Vec<(usize, usize)>, k: usize) -> (range: (usize, usize))
    requires
        k < bounds@.len(),
        bounds@.len() == fields(s@).len(),
        forall|j: int| 0 <= j < bounds@.len() ==> {
            &&& (#[trigger] bounds@[j]).0 <= bounds@[j].1 <= s@.len()
            &&& s@.subrange(bounds@[j].0 as int, bounds@[j].1 as int) == fields(s@)[j]
        },
    ensures
        range.0 <= range.1 <= s@.len(),
        s@.subrange(range.0 as int, range.1 as int) == components(s@)[k as int],
{
    let (lo, hi) = bounds[k];
    proof {
        assert(bounds@[k as int].0 <= bounds@[k as int].1 <= s@.len());
    }
    trim_bounds(s, lo, hi)
}

/// An owned copy of the characters `a..b` of `line`, whose characters are `chars`.
fn piece(line: &str, chars: &Vec<char>, a: usize, b: usize) -> (text: String)
    requires
        chars@ == line@,
        a <= b <= chars@.len(),
    ensures
        text@ == chars@.subrange(a as int, b as int),
{
    owned(line.substring_char(a, b))
}

/// Reads one line of the command file.
pub fn compile_command(cmd: &str) -> (compiled: Result<Option<Command>, CommandError>)
    ensures
        compiled_view(compiled) == compile(cmd@),
{
    let chars = chars_of(cmd);
    let bounds = field_bounds(&chars);
    let n = bounds.len();
    let ghost c = components(chars@);
    proof {
        assert(fields(chars@).len() >= 1);
    }
    let (oa, ob) = component(&chars, &bounds, 0);
    let operation = piece(cmd, &chars, oa, ob);
    if range_is(&chars, oa, ob, "threads") {
        if n < 2 {
            return Err(CommandError::MissingParameter { operation, parameter: Parameter::Count });
        } else if n < 3 {
            return Err(CommandError::MissingParameter { operation, parameter: Parameter::Unknown });
        }
        return Ok(None);
    }
    let is_insert = range_is(&chars, oa, ob, "insert");
    if is_insert || range_is(&chars, oa, ob, "update") {
        if n < 2 {
            return Err(CommandError::MissingParameter { operation, parameter: Parameter::Name });
        } else if n < 3 {
            return Err(CommandError::MissingParameter { operation, parameter: Parameter::Salary });
        } else if n < 4 {
            return Err(CommandError::MissingParameter { operation, parameter: Parameter::Priority });
        }
        let (na, nb) = component(&chars, &bounds, 1);
        let (sa, sb) = component(&chars, &bounds, 2);
        let (pa, pb) = component(&chars, &bounds, 3);
        let salary = match read_u32(&chars, sa, sb) {
            Some(v) => v,
            None => {
                let value = piece(cmd, &chars, sa, sb);
                return Err(CommandError::InvalidParameter { operation, parameter: Parameter::Salary, value });
            },
        };
        let priority = match read_u32(&chars, pa, pb) {
            Some(v) => v,
            None => {
                let value = piece(cmd, &chars, pa, pb);
                return Err(CommandError::InvalidParameter { operation, parameter: Parameter::Priority, value });
            },
        };
        let name = piece(cmd, &chars, na, nb);
        if is_insert {
            return Ok(Some(Command::Insert { name, salary, priority }));
        } else {
            return Ok(Some(Command::Update { name, salary, priority }));
        }
    }
    let is_delete = range_is(&chars, oa, ob, "delete");
    if is_delete || range_is(&chars, oa, ob, "search") {
        if n < 2 {
            return Err(CommandError::MissingParameter { operation, parameter: Parameter::Name });
        } else if n < 3 {
            return Err(CommandError::MissingParameter { operation, parameter: Parameter::Priority });
        }
        let (na, nb) = component(&chars, &bounds, 1);
        let (pa, pb) = component(&chars, &bounds, 2);
        let priority = match read_u32(&chars, pa, pb) {
            Some(v) => v,
            None => {
                let value = piece(cmd, &chars, pa, pb);
                return Err(CommandError::InvalidParameter { operation, parameter: Parameter::Priority, value });
            },
        };
        let name = piece(cmd, &chars, na, nb);
        if is_delete {
            return Ok(Some(Command::Delete { name, priority }));
        } else {
            return Ok(Some(Command::Search { name, priority }));
        }
    }
    if range_is(&chars, oa, ob, "print") {
        if n < 2 {
            return Err(CommandError::MissingParameter { operation, parameter: Parameter::Priority });
        }
        let (pa, pb) = component(&chars, &bounds, 1);
        let priority = match read_u32(&chars, pa, pb) {
            Some(v) => v,
            None => {
                let value = piece(cmd, &chars, pa, pb);
                return Err(CommandError::InvalidParameter { operation, parameter: Parameter::Priority, value });
            },
        };
        return Ok(Some(Command::Print { priority }));
    }
    if oa == ob {
        return Ok(None);
    }
    Err(CommandError::UnknownCommand { operation })
}

/// What the lines of a command file mean, read in order: the commands of the lines
/// that carry one, or the error of the first line that cannot be read.
pub open spec fn compile_all(lines: Seq<Seq<char>>) -> Result<Seq<CommandView>, CommandErrorView>
    decreases lines.len(),
{
    if lines.len() == 0 {
        Ok(Seq::empty())
    } else {
        match compile_all(lines.drop_last()) {
            Err(e) => Err(e),
            Ok(commands) => match compile(lines.last()) {
                Err(e) => Err(e),
                Ok(None) => Ok(commands),
                Ok(Some(c)) => Ok(commands.push(c)),
            },
        }
    }
}

/// How many of `commands` are inserts.
pub open spec fn count_inserts(commands: Seq<CommandView>) -> nat
    decreases commands.len(),
{
    if commands.len() == 0 {
        0
    } else {
        count_inserts(commands.drop_last()) + if commands.last() is Insert { 1nat } else { 0nat }
    }
}

/// The predicate "is an insert".
pub open spec fn is_insert() -> spec_fn(CommandView) -> bool {
    |c: CommandView| c is Insert
}

/// The insert count is the number of inserts among the commands.
pub proof fn law_count_inserts(commands: Seq<CommandView>)
    ensures
        count_inserts(commands) == commands.filter(is_insert()).len(),
    decreases commands.len(),
{
    reveal(Seq::filter);
    if commands.len() > 0 {
        law_count_inserts(commands.drop_last());
    }
}

/// Each command keyed by its priority.
pub open spec fn by_priority(commands: Seq<CommandView>) -> Seq<(u64, CommandView)> {
    commands.map_values(|c: CommandView| (c.priority() as u64, c))
}

/// The commands, each by its view.
pub open spec fn views_of(commands: Seq<Command>) -> Seq<CommandView> {
    commands.map_values(|c: Command| c@)
}

/// The predicate "has priority `p`".
pub open spec fn has_priority(p: u32) -> spec_fn(CommandView) -> bool {
    |c: CommandView| c.priority() == p
}

proof fn lemma_with_key_by_priority(s: Seq<CommandView>, p: u32)
    ensures
        with_key(by_priority(s), p as u64) == by_priority(s.filter(has_priority(p))),
    decreases s.len(),
{
    reveal(Seq::filter);
    if s.len() > 0 {
        let rest = s.drop_last();
        lemma_with_key_by_priority(rest, p);
        assert(by_priority(s).drop_last() =~= by_priority(rest));
        let f = rest.filter(has_priority(p));
        assert(by_priority(f.push(s.last())) =~= by_priority(f).push((s.last().priority() as u64, s.last())));
    } else {
        assert(by_priority(s) =~= Seq::<(u64, CommandView)>::empty());
        assert(by_priority(s.filter(has_priority(p))) =~= Seq::<(u64, CommandView)>::empty());
    }
}

proof fn lemma_by_priority_injective(a: Seq<CommandView>, b: Seq<CommandView>)
    requires
        by_priority(a) == by_priority(b),
    ensures
        a == b,
{
    assert(a.len() == by_priority(a).len());
    assert forall|i: int| 0 <= i < a.len() implies a[i] == b[i] by {
        assert(by_priority(a)[i].1 == a[i]);
        assert(by_priority(b)[i].1 == b[i]);
    }
    assert(a =~= b);
}

/// Commands ordered stably by priority: the same number of commands, each priority no
/// greater than the next, and for every priority the commands that carry it in the
/// order they were read.
pub proof fn law_sorted_by_priority(read: Seq<CommandView>, out: Seq<CommandView>)
    requires
        stably_sorted(by_priority(read), by_priority(out)),
    ensures
        out.len() == read.len(),
        forall|i: int, j: int| 0 <= i < j < out.len() ==> #[trigger] out[i].priority() <= #[trigger] out[j].priority(),
        forall|p: u32| #[trigger] out.filter(has_priority(p)) == read.filter(has_priority(p)),
{
    assert(by_priority(out).len() == out.len());
    assert forall|i: int, j: int| 0 <= i < j < out.len() implies #[trigger] out[i].priority() <= #[trigger] out[j].priority() by {
        assert(by_priority(out)[i].0 <= by_priority(out)[j].0);
        assert(by_priority(out)[i] == (out[i].priority() as u64, out[i]));
        assert(by_priority(out)[j] == (out[j].priority() as u64, out[j]));
    }
    assert forall|p: u32| #[trigger] out.filter(has_priority(p)) == read.filter(has_priority(p)) by {
        lemma_with_key_by_priority(out, p);
        lemma_with_key_by_priority(read, p);
        assert(with_key(by_priority(out), p as u64) == with_key(by_priority(read), p as u64));
        lemma_by_priority_injective(out.filter(has_priority(p)), read.filter(has_priority(p)));
    }
}

/// Reads the lines of a command file. On success, returns the commands stably sorted by
/// priority, and how many of them are inserts; otherwise the position of the first line
/// that cannot be read, and why.
pub fn collect_commands(lines: &Vec<String>) -> (collected: Result<(Vec<Command>, usize), (usize, CommandError)>)
    ensures
        match collected {
            Ok((commands, inserts)) => {
                let read = compile_all(lines@.map_values(|l: String| l@));
                &&& read is Ok
                &&& stably_sorted(by_priority(read->Ok_0), by_priority(commands@.map_values(|c: Command| c@)))
                &&& commands@.len() == (read->Ok_0).len()
                &&& forall|i: int, j: int| 0 <= i < j < commands@.len() ==>
                    (#[trigger] commands@[i])@.priority() <= (#[trigger] commands@[j])@.priority()
                &&& forall|p: u32| #[trigger] views_of(commands@).filter(has_priority(p))
                    == (read->Ok_0).filter(has_priority(p))
                &&& inserts == count_inserts(read->Ok_0)
                &&& inserts == (read->Ok_0).filter(is_insert()).len()
            },
            Err((i, e)) => {
                &&& i < lines@.len()
                &&& compile_all(lines@.map_values(|l: String| l@).take(i as int)) is Ok
                &&& compile(lines@[i as int]@) == Err::<Option<CommandView>, CommandErrorView>(e@)
                &&& compile_all(lines@.map_values(|l: String| l@)) == Err::<Seq<CommandView>, CommandErrorView>(e@)
            },
        },
{
    let ghost texts = lines@.map_values(|l: String| l@);
    let mut keyed: Vec<(u64, Command)> = Vec::new();
    let mut inserts: usize = 0;
    let mut i: usize = 0;
    proof {
        assert(texts.take(0) =~= Seq::<Seq<char>>::empty());
    }
    while i < lines.len()
        invariant
            i <= lines@.len(),
            texts == lines@.map_values(|l: String| l@),
            compile_all(texts.take(i as int)) is Ok,
            by_priority(compile_all(texts.take(i as int))->Ok_0) == view_keyed(keyed@),
            forall|k: int| 0 <= k < keyed@.len() ==> (#[trigger] keyed@[k]).0 == keyed@[k].1@.priority(),
            inserts == count_inserts(compile_all(texts.take(i as int))->Ok_0),
            inserts <= i,
        decreases lines@.len() - i,
    {
        proof {
            assert(texts.take(i + 1).drop_last() =~= texts.take(i as int));
            assert(texts.take(i + 1).last() == lines@[i as int]@);
        }
        let ghost before = compile_all(texts.take(i as int))->Ok_0;
        let ghost keyed_before = keyed@;
        match compile_command(lines[i].as_str()) {
            Err(e) => {
                proof {
                    assert(compile_all(texts.take(i + 1)) == Err::<Seq<CommandView>, CommandErrorView>(e@));
                    lemma_compile_all_err(texts, i + 1);
                    assert(texts.take(lines@.len() as int) =~= texts);
                }
                return Err((i, e));
            },
            Ok(None) => {},
            Ok(Some(command)) => {
                let is_insert = match command {
                    Command::Insert { .. } => true,
                    _ => false,
                };
                if is_insert {
                    inserts = inserts + 1;
                }
                let ghost cv = command@;
                keyed.push((command.priority() as u64, command));
                proof {
                    assert(by_priority(before.push(cv)) =~= by_priority(before).push((cv.priority() as u64, cv)));
                    assert(view_keyed(keyed@) =~= view_keyed(keyed_before).push((cv.priority() as u64, cv)));
                    assert(before.push(cv).drop_last() =~= before);
                }
            },
        }
        i = i + 1;
    }
    proof {
        assert(texts.take(i as int) =~= texts);
    }
    let ghost read = compile_all(texts)->Ok_0;
    let sorted = stable_sort_by_key(keyed);
    proof {
        lemma_stably_sorted_view(keyed@, sorted@);
        assert forall|k: int| 0 <= k < sorted@.len() implies (#[trigger] sorted@[k]).0 == sorted@[k].1@.priority() by {
            lemma_sorted_keeps_items(keyed@, sorted@, k);
            let j = choose|j: int| 0 <= j < keyed@.len() && keyed@[j] == sorted@[k];
            assert(keyed@[j].0 == keyed@[j].1@.priority());
        }
    }
    let commands = strip_keys(sorted);
    proof {
        assert(by_priority(commands@.map_values(|c: Command| c@)) =~= view_keyed(sorted@));
        law_sorted_by_priority(read, commands@.map_values(|c: Command| c@));
        law_count_inserts(read);
        assert(views_of(commands@) == commands@.map_values(|c: Command| c@));
        assert forall|i: int, j: int| 0 <= i < j < commands@.len() implies
            (#[trigger] commands@[i])@.priority() <= (#[trigger] commands@[j])@.priority() by {
            assert(commands@.map_values(|c: Command| c@)[i] == commands@[i]@);
            assert(commands@.map_values(|c: Command| c@)[j] == commands@[j]@);
        }
    }
    Ok((commands, inserts))
}

proof fn lemma_compile_all_err(lines: Seq<Seq<char>>, i: int)
    requires
        0 <= i <= lines.len(),
        compile_all(lines.take(i)) is Err,
    ensures
        compile_all(lines) == compile_all(lines.take(i)),
    decreases lines.len() - i,
{
    if i < lines.len() {
        assert(lines.take(i + 1).drop_last() =~= lines.take(i));
        lemma_compile_all_err(lines, i + 1);
    } else {
        assert(lines.take(i) =~= lines);
    }
}

/// The items of `keyed` without their keys, in order.
fn strip_keys(keyed: Vec<(u64, Command)>) -> (items: Vec<Command>)
    ensures
        items@.len() == keyed@.len(),
        forall|k: int| 0 <= k < items@.len() ==> #[trigger] items@[k] == keyed@[k].1,
{
    let ghost input = keyed@;
    let mut rest = keyed;
    let mut reversed: Vec<Command> = Vec::new();
    while rest.len() > 0
        invariant
            rest@ == input.take(rest@.len() as int),
            reversed@.len() + rest@.len() == input.len(),
            forall|k: int| 0 <= k < reversed@.len() ==> #[trigger] reversed@[k] == input[input.len() - 1 - k].1,
        decreases rest@.len(),
    {
        let (_, item) = rest.pop().unwrap();
        reversed.push(item);
        proof {
            assert(rest@ =~= input.take(rest@.len() as int));
        }
    }
    let mut items: Vec<Command> = Vec::new();
    while reversed.len() > 0
        invariant
            reversed@.len() + items@.len() == input.len(),
            forall|k: int| 0 <= k < reversed@.len() ==> #[trigger] reversed@[k] == input[input.len() - 1 - k].1,
            forall|k: int| 0 <= k < items@.len() ==> #[trigger] items@[k] == input[k].1,
        decreases reversed@.len(),
    {
        let item = reversed.pop().unwrap();
        items.push(item);
    }
    items
}

/// A name that a command line carries unchanged: no comma, and no white space at
/// either end.
pub open spec fn plain_name(name: Seq<char>) -> bool {
    comma_free(name) && trim(name) == name
}

proof fn lemma_components_of_join(pieces: Seq<Seq<char>>)
    requires
        pieces.len() >= 1,
        forall|i: int| 0 <= i < pieces.len() ==> plain_name(#[trigger] pieces[i]),
    ensures
        components(join_commas(pieces)) == pieces,
{
    assert forall|i: int| 0 <= i < pieces.len() implies comma_free(#[trigger] pieces[i]) by {
        assert(plain_name(pieces[i]));
    }
    lemma_fields_of_join(pieces);
    assert(components(join_commas(pieces)) =~= pieces);
}

#[verifier::rlimit(90)]
#[verifier::spinoff_prover]
proof fn lemma_insert_reads_back(c: CommandView)
    requires
        c is Insert,
        c.name() matches Some(n) ==> plain_name(n),
    ensures
        compile(c.text()) == Ok::<Option<CommandView>, CommandErrorView>(Some(c)),
{
    reveal_strlit("insert,");
    reveal_strlit("insert");
    reveal_strlit("threads");
    reveal_strlit("update");
    reveal_strlit("delete");
    reveal_strlit("search");
    reveal_strlit(",");
    reveal_with_fuel(join_commas, 5);
    let (name, salary, priority) = (c->Insert_name, c->Insert_salary, c->Insert_priority);
    lemma_decimal_reads_back(salary);
    lemma_decimal_reads_back(priority);
    lemma_trim_fixed("insert"@);
    let pieces = seq!["insert"@, name, decimal(salary as nat), decimal(priority as nat)];
    assert(plain_name(pieces[0]) && plain_name(pieces[1]) && plain_name(pieces[2]) && plain_name(pieces[3]));
    assert(c.text() == join_commas(pieces)) by {
        assert(c.text() =~= join_commas(pieces));
    }
    lemma_components_of_join(pieces);
    assert(components(c.text()) == pieces);
    assert(pieces[0] != "threads"@);
}

#[verifier::rlimit(90)]
#[verifier::spinoff_prover]
proof fn lemma_update_reads_back(c: CommandView)
    requires
        c is Update,
        c.name() matches Some(n) ==> plain_name(n),
    ensures
        compile(c.text()) == Ok::<Option<CommandView>, CommandErrorView>(Some(c)),
{
    reveal_strlit("update,");
    reveal_strlit("update");
    reveal_strlit("threads");
    reveal_strlit("insert");
    reveal_strlit("delete");
    reveal_strlit("search");
    reveal_strlit(",");
    reveal_with_fuel(join_commas, 5);
    let (name, salary, priority) = (c->Update_name, c->Update_salary, c->Update_priority);
    lemma_decimal_reads_back(salary);
    lemma_decimal_reads_back(priority);
    lemma_trim_fixed("update"@);
    let pieces = seq!["update"@, name, decimal(salary as nat), decimal(priority as nat)];
    assert(plain_name(pieces[0]) && plain_name(pieces[1]) && plain_name(pieces[2]) && plain_name(pieces[3]));
    assert(c.text() == join_commas(pieces)) by {
        assert(c.text() =~= join_commas(pieces));
    }
    lemma_components_of_join(pieces);
    assert(components(c.text()) == pieces);
    assert(pieces[0] != "threads"@);
}

#[verifier::rlimit(90)]
#[verifier::spinoff_prover]
proof fn lemma_delete_reads_back(c: CommandView)
    requires
        c is Delete,
        c.name() matches Some(n) ==> plain_name(n),
    ensures
        compile(c.text()) == Ok::<Option<CommandView>, CommandErrorView>(Some(c)),
{
    reveal_strlit("delete,");
    reveal_strlit("delete");
    reveal_strlit("threads");
    reveal_strlit("insert");
    reveal_strlit("update");
    reveal_strlit("search");
    reveal_strlit(",");
    reveal_with_fuel(join_commas, 5);
    let (name, priority) = (c->Delete_name, c->Delete_priority);
    lemma_decimal_reads_back(priority);
    lemma_trim_fixed("delete"@);
    let pieces = seq!["delete"@, name, decimal(priority as nat)];
    assert(plain_name(pieces[0]) && plain_name(pieces[1]) && plain_name(pieces[2]));
    assert(c.text() == join_commas(pieces)) by {
        assert(c.text() =~= join_commas(pieces));
    }
    lemma_components_of_join(pieces);
    assert(components(c.text()) == pieces);
    assert(pieces[0] != "threads"@);
}

#[verifier::rlimit(90)]
#[verifier::spinoff_prover]
proof fn lemma_search_reads_back(c: CommandView)
    requires
        c is Search,
        c.name() matches Some(n) ==> plain_name(n),
    ensures
        compile(c.text()) == Ok::<Option<CommandView>, CommandErrorView>(Some(c)),
{
    reveal_strlit("search,");
    reveal_strlit("search");
    reveal_strlit("threads");
    reveal_strlit("insert");
    reveal_strlit("update");
    reveal_strlit("delete");
    reveal_strlit(",");
    reveal_with_fuel(join_commas, 5);
    let (name, priority) = (c->Search_name, c->Search_priority);
    lemma_decimal_reads_back(priority);
    lemma_trim_fixed("search"@);
    let pieces = seq!["search"@, name, decimal(priority as nat)];
    assert(plain_name(pieces[0]) && plain_name(pieces[1]) && plain_name(pieces[2]));
    assert(c.text() == join_commas(pieces)) by {
        assert(c.text() =~= join_commas(pieces));
    }
    lemma_components_of_join(pieces);
    assert(components(c.text()) == pieces);
    assert(pieces[0] != "threads"@);
}

proof fn lemma_print_reads_back(c: CommandView)
    requires
        c is Print,
        c.name() matches Some(n) ==> plain_name(n),
    ensures
        compile(c.text()) == Ok::<Option<CommandView>, CommandErrorView>(Some(c)),
{
    reveal_strlit("print,");
    reveal_strlit("print");
    reveal_strlit("threads");
    reveal_strlit("insert");
    reveal_strlit("update");
    reveal_strlit("delete");
    reveal_strlit("search");
    reveal_strlit(",");
    reveal_with_fuel(join_commas, 5);
    let priority = c->Print_priority;
    lemma_decimal_reads_back(priority);
    lemma_trim_fixed("print"@);
    let pieces = seq!["print"@, decimal(priority as nat)];
    assert(plain_name(pieces[0]) && plain_name(pieces[1]));
    assert(c.text() == join_commas(pieces)) by {
        assert(c.text() =~= join_commas(pieces));
    }
    lemma_components_of_join(pieces);
    assert(components(c.text()) == pieces);
    assert(pieces[0] != "threads"@);
}

/// A command's text reads back as the command, for every command whose name (if it has
/// one) holds no comma and no white space at either end.
pub proof fn law_text_reads_back(c: CommandView)
    requires
        c.name() matches Some(n) ==> plain_name(n),
    ensures
        compile(c.text()) == Ok::<Option<CommandView>, CommandErrorView>(Some(c)),
{
    match c {
        CommandView::Insert { .. } => lemma_insert_reads_back(c),
        CommandView::Update { .. } => lemma_update_reads_back(c),
        CommandView::Delete { .. } => lemma_delete_reads_back(c),
        CommandView::Search { .. } => lemma_search_reads_back(c),
        CommandView::Print { .. } => lemma_print_reads_back(c),
    }
}

/// The turn order of commands that run one after another in order of priority: the
/// priority whose turn comes first, and for each command the priority whose turn comes
/// after it. `u32::MAX` stands for "no command".
pub fn turn_order(commands: &Vec<Command>) -> (order: (u32, Vec<u32>))
    ensures
        order.0 == (if commands@.len() > 0 { commands@[0]@.priority() } else { u32::MAX }),
        order.1@.len() == commands@.len(),
        forall|i: int| 0 <= i < commands@.len() ==> #[trigger] order.1@[i] == (if i + 1 < commands@.len() {
            commands@[i + 1]@.priority()
        } else {
            u32::MAX
        }),
{
    let n = commands.len();
    let first = if n > 0 { commands[0].priority() } else { u32::MAX };
    let mut next: Vec<u32> = Vec::new();
    let mut i: usize = 0;
    while i < n
        invariant
            n == commands@.len(),
            i <= n,
            next@.len() == i,
            forall|k: int| 0 <= k < i ==> #[trigger] next@[k] == (if k + 1 < n {
                commands@[k + 1]@.priority()
            } else {
                u32::MAX
            }),
        decreases n - i,
    {
        if i + 1 < n {
            next.push(commands[i + 1].priority());
        } else {
            next.push(u32::MAX);
        }
        i = i + 1;
    }
    (first, next)
}

} // verus!
