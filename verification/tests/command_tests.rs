use concurrent_hash_table::commands::{
    collect_commands, compile_command, expected_format, turn_order, Command, CommandError, Parameter,
};

fn insert(name: &str, salary: u32, priority: u32) -> Command {
    Command::Insert { name: name.to_string(), salary, priority }
}

fn describe(c: &Command) -> String {
    c.to_text()
}

#[test]
fn reads_every_kind_of_command() {
    let cases = [
        ("insert,Alice,1000,3", "insert,Alice,1000,3"),
        ("update,Bob,2000,4", "update,Bob,2000,4"),
        ("delete,Carol,5", "delete,Carol,5"),
        ("search,Dave,6", "search,Dave,6"),
        ("print,7", "print,7"),
    ];
    for (line, text) in cases {
        let c = compile_command(line).ok().unwrap().unwrap();
        assert_eq!(describe(&c), text);
    }
}

#[test]
fn trims_white_space_around_components() {
    let c = compile_command("  insert , Ada Lovelace ,\t42 , 9 ").ok().unwrap().unwrap();
    assert_eq!(c.name(), Some("Ada Lovelace".to_string()));
    assert_eq!(c.salary(), Some(42));
    assert_eq!(c.priority(), 9);
}

#[test]
fn reads_a_plus_sign_and_ignores_extra_components() {
    let c = compile_command("search,Eve,+12,extra,more").ok().unwrap().unwrap();
    assert_eq!(c.to_text(), "search,Eve,12");
}

#[test]
fn threads_and_blank_lines_mean_nothing() {
    assert!(compile_command("threads,4,0").ok().unwrap().is_none());
    assert!(compile_command("").ok().unwrap().is_none());
    assert!(compile_command("   \t").ok().unwrap().is_none());
}

#[test]
fn missing_parameters_are_reported_in_order() {
    let cases = [
        ("threads", Parameter::Count),
        ("threads,1", Parameter::Unknown),
        ("insert", Parameter::Name),
        ("insert,Al", Parameter::Salary),
        ("update,Al,5", Parameter::Priority),
        ("delete", Parameter::Name),
        ("search,Al", Parameter::Priority),
        ("print", Parameter::Priority),
    ];
    for (line, expected) in cases {
        match compile_command(line) {
            Err(CommandError::MissingParameter { operation, parameter }) => {
                assert_eq!(parameter, expected);
                assert_eq!(operation, line.split(',').next().unwrap());
            }
            _ => panic!("{} should miss a parameter", line),
        }
    }
}

#[test]
fn invalid_numbers_are_reported() {
    let cases = [
        ("insert,Al,abc,1", Parameter::Salary, "abc"),
        ("insert,Al,1,-1", Parameter::Priority, "-1"),
        ("update,Al,4294967296,1", Parameter::Salary, "4294967296"),
        ("delete,Al,+", Parameter::Priority, "+"),
        ("print,", Parameter::Priority, ""),
        ("search,Al,1 2", Parameter::Priority, "1 2"),
    ];
    for (line, expected, text) in cases {
        match compile_command(line) {
            Err(CommandError::InvalidParameter { parameter, value, .. }) => {
                assert_eq!(parameter, expected);
                assert_eq!(value, text);
            }
            _ => panic!("{} should have an invalid parameter", line),
        }
    }
}

#[test]
fn largest_u32_is_accepted() {
    let c = compile_command("print,4294967295").ok().unwrap().unwrap();
    assert_eq!(c.priority(), u32::MAX);
}

#[test]
fn unknown_operations_are_reported() {
    match compile_command(" remove ,Al,1") {
        Err(CommandError::UnknownCommand { operation }) => assert_eq!(operation, "remove"),
        _ => panic!("remove is not a command"),
    }
}

#[test]
fn accessors() {
    let c = insert("Zed", 10, 2);
    assert_eq!(c.name(), Some("Zed".to_string()));
    assert_eq!(c.name_ref(), Some(&"Zed".to_string()));
    assert_eq!(c.salary(), Some(10));
    assert_eq!(c.priority(), 2);
    let p = Command::Print { priority: 8 };
    assert_eq!(p.name(), None);
    assert_eq!(p.name_ref(), None);
    assert_eq!(p.salary(), None);
    assert_eq!(p.priority(), 8);
    let d = Command::Delete { name: "Yo".to_string(), priority: 1 };
    assert_eq!(d.salary(), None);
}

#[test]
fn text_reads_back() {
    let commands = vec![
        insert("Alice Smith", 0, 0),
        Command::Update { name: "Bob".to_string(), salary: u32::MAX, priority: 17 },
        Command::Delete { name: "".to_string(), priority: 3 },
        Command::Search { name: "Carol".to_string(), priority: 99 },
        Command::Print { priority: 5 },
    ];
    for c in commands {
        let back = compile_command(&c.to_text()).ok().unwrap().unwrap();
        assert_eq!(back.to_text(), c.to_text());
    }
}

#[test]
fn collects_sorts_and_counts() {
    let lines: Vec<String> = vec![
        "threads,3,0", "insert,A,10,5", "", "print,1", "insert,B,20,5", "search,A,3", "update,A,30,5",
    ]
    .into_iter()
    .map(|s| s.to_string())
    .collect();
    let (commands, inserts) = collect_commands(&lines).ok().unwrap();
    assert_eq!(inserts, 2);
    let texts: Vec<String> = commands.iter().map(|c| c.to_text()).collect();
    assert_eq!(texts, vec!["print,1", "search,A,3", "insert,A,10,5", "insert,B,20,5", "update,A,30,5"]);
}

#[test]
fn collecting_stops_at_the_first_bad_line() {
    let lines: Vec<String> =
        vec!["insert,A,10,5", "bogus,1", "insert,B"].into_iter().map(|s| s.to_string()).collect();
    match collect_commands(&lines) {
        Err((1, CommandError::UnknownCommand { operation })) => assert_eq!(operation, "bogus"),
        _ => panic!("the second line is bad"),
    }
}

#[test]
fn formats_of_operations() {
    assert_eq!(expected_format("insert"), "insert,<name>,<salary>,<priority>");
    assert_eq!(expected_format("update"), "update,<name>,<salary>,<priority>");
    assert_eq!(expected_format("delete"), "delete,<name>,<priority>");
    assert_eq!(expected_format("search"), "search,<name>,<priority>");
    assert_eq!(expected_format("print"), "print,<priority>");
    assert_eq!(expected_format("threads"), "<not-applicable>");
    assert_eq!(Parameter::Salary.label(), "salary");
}

#[test]
fn turn_order_follows_the_list() {
    let commands = vec![Command::Print { priority: 1 }, insert("A", 1, 4), insert("B", 2, 4), Command::Print { priority: 9 }];
    let (first, next) = turn_order(&commands);
    assert_eq!(first, 1);
    assert_eq!(next, vec![4, 4, 9, u32::MAX]);
    let (first, next) = turn_order(&Vec::new());
    assert_eq!(first, u32::MAX);
    assert!(next.is_empty());
}
