use concurrent_hash_table::commands::Command;
use concurrent_hash_table::hashing::one_at_a_time;
use concurrent_hash_table::map::{ConcurrentEmployeeSalaryMap, HashRecord};

fn texts(sorted: Vec<(u64, String)>) -> Vec<String> {
    sorted.into_iter().map(|(_, m)| m).collect()
}

#[test]
fn new_table_is_empty() {
    let map = ConcurrentEmployeeSalaryMap::new_fixed_size(7);
    assert_eq!(map.capacity(), 7);
    assert_eq!(map.size(), 0);
    assert_eq!(map.logger().locks_acquired(), 0);
    assert_eq!(map.logger().locks_released(), 0);
}

#[test]
fn search_after_insert_finds_the_salary() {
    let mut map = ConcurrentEmployeeSalaryMap::new_fixed_size(5);
    map.insert("Alice".to_string(), 1000, 1, 10);
    assert_eq!(map.size(), 1);
    assert_eq!(map.search("Alice".to_string(), 2, 11), Some(1000));
    assert_eq!(map.search("Bob".to_string(), 3, 12), None);
}

#[test]
fn duplicate_insert_is_refused() {
    let mut map = ConcurrentEmployeeSalaryMap::new_fixed_size(3);
    map.insert("Alice".to_string(), 1000, 1, 10);
    map.insert("Alice".to_string(), 2000, 2, 11);
    assert_eq!(map.size(), 1);
    assert_eq!(map.search("Alice".to_string(), 3, 12), Some(1000));
    let h = one_at_a_time("Alice");
    let console = texts(map.logger_mut().print_outputs());
    assert_eq!(console[0], format!("Inserted {},Alice,1000", h));
    assert_eq!(console[1], format!("Insert failed. Entry {} is a duplicate.", h));
    assert_eq!(console[2], format!("Found: {},Alice,1000", h));
}

#[test]
fn update_returns_the_old_salary() {
    let mut map = ConcurrentEmployeeSalaryMap::new_fixed_size(3);
    map.insert("Bob".to_string(), 500, 1, 1);
    assert_eq!(map.update("Bob".to_string(), 700, 2, 2), Some(500));
    assert_eq!(map.search("Bob".to_string(), 3, 3), Some(700));
    assert_eq!(map.update("Nobody".to_string(), 1, 4, 4), None);
    let h = one_at_a_time("Bob");
    let hn = one_at_a_time("Nobody");
    let console = texts(map.logger_mut().print_outputs());
    assert_eq!(console[1], format!("Updated record {0} from {0},Bob,500 to {0},Bob,{0}", h));
    assert_eq!(console[3], format!("Update failed. Entry {} not found.", hn));
}

#[test]
fn delete_removes_the_record() {
    let mut map = ConcurrentEmployeeSalaryMap::new_fixed_size(2);
    map.insert("Carol".to_string(), 300, 1, 1);
    map.insert("Dave".to_string(), 400, 2, 2);
    assert_eq!(map.delete("Carol".to_string(), 3, 3), Some(300));
    assert_eq!(map.size(), 1);
    assert_eq!(map.search("Carol".to_string(), 4, 4), None);
    assert_eq!(map.search("Dave".to_string(), 5, 5), Some(400));
    assert_eq!(map.delete("Carol".to_string(), 6, 6), None);
    let h = one_at_a_time("Carol");
    let console = texts(map.logger_mut().print_outputs());
    assert_eq!(console[2], format!("Deleted record for {},Carol,300", h));
    assert_eq!(console[3], "Carol not found.");
    assert_eq!(console[5], format!("Entry {} not deleted. Not in database.", h));
}

#[test]
fn delete_then_insert_again() {
    let mut map = ConcurrentEmployeeSalaryMap::new_fixed_size(1);
    map.insert("Eve".to_string(), 1, 1, 1);
    map.delete("Eve".to_string(), 2, 2);
    map.insert("Eve".to_string(), 2, 3, 3);
    assert_eq!(map.search("Eve".to_string(), 4, 4), Some(2));
    assert_eq!(map.size(), 1);
}

#[test]
fn log_file_records_requests_and_locks() {
    let mut map = ConcurrentEmployeeSalaryMap::new_fixed_size(3);
    map.insert("Ann".to_string(), 10, 4, 100);
    map.search("Ann".to_string(), 5, 200);
    map.delete("Ann".to_string(), 6, 300);
    let h = one_at_a_time("Ann");
    assert_eq!(map.logger().locks_acquired(), 3);
    assert_eq!(map.logger().locks_released(), 3);
    let file = texts(map.logger_mut().write_log());
    assert_eq!(file, vec![
        format!("100: THREAD 4 INSERT,{},Ann,10", h),
        "100: THREAD 4 WRITE LOCK ACQUIRED".to_string(),
        "100: THREAD 4 WRITE LOCK RELEASED".to_string(),
        format!("200: THREAD 5 SEARCH,{},Ann", h),
        "200: THREAD 5 READ LOCK ACQUIRED".to_string(),
        "200: THREAD 5 READ LOCK RELEASED".to_string(),
        format!("300: THREAD 6 DELETE,{},Ann", h),
        "300: THREAD 6 WRITE LOCK ACQUIRED".to_string(),
        "300: THREAD 6 WRITE LOCK RELEASED".to_string(),
    ]);
    assert!(map.logger_mut().write_log().is_empty());
}

#[test]
fn update_logs_request() {
    let mut map = ConcurrentEmployeeSalaryMap::new_fixed_size(3);
    map.update("Ann".to_string(), 10, 4, 7);
    let h = one_at_a_time("Ann");
    let file = texts(map.logger_mut().write_log());
    assert_eq!(file[0], format!("7: THREAD 4 UPDATE,{},Ann,10", h));
}

#[test]
fn final_database_is_sorted_by_hash() {
    let mut map = ConcurrentEmployeeSalaryMap::new_fixed_size(4);
    let names = ["Alice", "Bob", "Carol", "Dave", "Eve", "Frank"];
    for (i, n) in names.iter().enumerate() {
        map.insert(n.to_string(), 100 * i as u32, i as u32, i as u64);
    }
    let mut expected: Vec<(u32, String)> = names
        .iter()
        .enumerate()
        .map(|(i, n)| (one_at_a_time(n), format!("{},{},{}", one_at_a_time(n), n, 100 * i)))
        .collect();
    expected.sort();
    let expected: Vec<String> = expected.into_iter().map(|(_, s)| s).collect();
    let entries = map.log_final_database();
    assert_eq!(entries, expected);
    let file = map.logger_mut().write_log();
    let tail: Vec<(u64, String)> = file[file.len() - 7..].to_vec();
    assert_eq!(tail[0], (u64::MAX, "Final Table:".to_string()));
    for (i, e) in expected.iter().enumerate() {
        assert_eq!(tail[i + 1], (u64::MAX, e.clone()));
    }
}

#[test]
fn print_lists_the_table_and_takes_every_read_lock() {
    let mut map = ConcurrentEmployeeSalaryMap::new_fixed_size(3);
    map.insert("Zoe".to_string(), 5, 1, 1);
    map.insert("Yan".to_string(), 6, 2, 2);
    map.logger_mut().print_outputs();
    map.logger_mut().write_log();
    map.print(9, 50);
    assert_eq!(map.logger().locks_acquired(), 2 + 3);
    assert_eq!(map.logger().locks_released(), 2 + 3);
    let hz = one_at_a_time("Zoe");
    let hy = one_at_a_time("Yan");
    let mut rows = vec![(hz, format!("{},Zoe,5", hz)), (hy, format!("{},Yan,6", hy))];
    rows.sort();
    let console = map.logger_mut().print_outputs();
    assert_eq!(console[0], (50, "Current Database:".to_string()));
    assert_eq!(console[1], (50, rows[0].1.clone()));
    assert_eq!(console[2], (50, rows[1].1.clone()));
    let file = texts(map.logger_mut().write_log());
    assert_eq!(file.len(), 1 + 2 * 3);
    assert_eq!(file[0], "50: THREAD 9 PRINT");
    assert_eq!(file[1], "50: THREAD 9 READ LOCK ACQUIRED");
    assert_eq!(file[2], "50: THREAD 9 READ LOCK RELEASED");
}

#[test]
fn empty_table_prints_only_the_heading() {
    let mut map = ConcurrentEmployeeSalaryMap::new_fixed_size(0);
    map.print(1, 2);
    assert_eq!(texts(map.logger_mut().print_outputs()), vec!["Current Database:".to_string()]);
    assert!(map.log_final_database().is_empty());
}

#[test]
fn records_can_be_made() {
    let _r = HashRecord::new(1, "x".to_string(), 2);
}

#[test]
fn names_with_one_hash_collide() {
    assert_eq!(one_at_a_time("emp90100"), one_at_a_time("emp99664"));
    let mut map = ConcurrentEmployeeSalaryMap::new_fixed_size(11);
    assert!(!map.collides(&"emp90100".to_string()));
    map.insert("emp90100".to_string(), 1, 1, 1);
    assert!(!map.collides(&"emp90100".to_string()));
    assert!(map.collides(&"emp99664".to_string()));
    assert!(!map.collides(&"someone".to_string()));
}

#[test]
fn table_with_no_usable_bucket_has_no_collisions() {
    let map = ConcurrentEmployeeSalaryMap::new_fixed_size(0);
    assert!(!map.collides(&"x".to_string()));
}

#[test]
fn updating_back_restores_the_salary() {
    let mut map = ConcurrentEmployeeSalaryMap::new_fixed_size(3);
    map.insert("Gus".to_string(), 50, 1, 1);
    assert_eq!(map.update("Gus".to_string(), 80, 2, 2), Some(50));
    assert_eq!(map.update("Gus".to_string(), 50, 3, 3), Some(80));
    assert_eq!(map.log_final_database(), vec![format!("{},Gus,50", one_at_a_time("Gus"))]);
}

#[test]
fn update_keeps_the_inserted_name() {
    let mut map = ConcurrentEmployeeSalaryMap::new_fixed_size(3);
    map.insert("Hal".to_string(), 1, 1, 1);
    map.update("Hal".to_string(), 2, 2, 2);
    assert_eq!(map.log_final_database(), vec![format!("{},Hal,2", one_at_a_time("Hal"))]);
}

#[test]
fn commands_run_through_one_entry_point() {
    let mut map = ConcurrentEmployeeSalaryMap::new_fixed_size(5);
    let ins = Command::Insert { name: "Ivy".to_string(), salary: 9, priority: 1 };
    assert_eq!(map.run_command(ins, 1), None);
    let upd = Command::Update { name: "Ivy".to_string(), salary: 10, priority: 2 };
    assert_eq!(map.run_command(upd, 2), Some(9));
    let sea = Command::Search { name: "Ivy".to_string(), priority: 3 };
    assert_eq!(map.run_command(sea, 3), Some(10));
    assert_eq!(map.run_command(Command::Print { priority: 4 }, 4), None);
    let del = Command::Delete { name: "Ivy".to_string(), priority: 5 };
    assert_eq!(map.run_command(del, 5), Some(10));
    assert_eq!(map.size(), 0);
    assert_eq!(map.capacity(), 5);
    assert_eq!(map.logger().locks_acquired(), 4 + 5);
}

#[test]
fn capacity_never_changes() {
    let mut map = ConcurrentEmployeeSalaryMap::new_fixed_size(13);
    for i in 0..40u32 {
        map.insert(format!("worker{}", i), i, i, i as u64);
        assert_eq!(map.capacity(), 13);
    }
    map.delete("worker3".to_string(), 1, 1);
    map.print(2, 2);
    map.log_final_database();
    assert_eq!(map.capacity(), 13);
    assert_eq!(map.size(), 39);
}
