use concurrent_hash_table::logging::Logger;

#[test]
fn console_comes_out_ordered_by_time_and_stably() {
    let mut logger = Logger::new();
    logger.print_insert(1, "A", 10, 30);
    logger.print_search_failed("B", 10);
    logger.print_delete_failed(2, 30);
    logger.print_update_failed(3, 20);
    let out = logger.print_outputs();
    assert_eq!(out, vec![
        (10, "B not found.".to_string()),
        (20, "Update failed. Entry 3 not found.".to_string()),
        (30, "Inserted 1,A,10".to_string()),
        (30, "Entry 2 not deleted. Not in database.".to_string()),
    ]);
    assert!(logger.print_outputs().is_empty());
}

#[test]
fn every_console_message() {
    let mut logger = Logger::new();
    logger.print_insert_failed(5, 1);
    logger.print_update(6, "K", 7, 8, 2);
    logger.print_delete(9, "L", 10, 3);
    logger.print_search(11, "M", 12, 4);
    let out: Vec<String> = logger.print_outputs().into_iter().map(|(_, m)| m).collect();
    assert_eq!(out, vec![
        "Insert failed. Entry 5 is a duplicate.",
        "Updated record 6 from 6,K,7 to 6,K,8",
        "Deleted record for 9,L,10",
        "Found: 11,M,12",
    ]);
}

#[test]
fn every_file_message() {
    let mut logger = Logger::new();
    logger.log_waiting(3, 100);
    logger.log_awakened(3, 101);
    logger.log_insert("N", 1, 3, 2, 102);
    logger.log_update("N", 4, 3, 2, 103);
    logger.log_delete("N", 3, 2, 104);
    logger.log_search("N", 3, 2, 105);
    logger.log_print(3, 106);
    logger.log_write_lock_acquired(3, 107);
    logger.log_write_lock_released(3, 108);
    logger.log_read_lock_acquired(3, 109);
    logger.log_read_lock_released(3, 110);
    assert_eq!(logger.locks_acquired(), 2);
    assert_eq!(logger.locks_released(), 2);
    let out: Vec<String> = logger.write_log().into_iter().map(|(_, m)| m).collect();
    assert_eq!(out, vec![
        "100: THREAD 3 WAITING FOR MY TURN",
        "101: THREAD 3 AWAKENED FOR WORK",
        "102: THREAD 3 INSERT,2,N,1",
        "103: THREAD 3 UPDATE,2,N,4",
        "104: THREAD 3 DELETE,2,N",
        "105: THREAD 3 SEARCH,2,N",
        "106: THREAD 3 PRINT",
        "107: THREAD 3 WRITE LOCK ACQUIRED",
        "108: THREAD 3 WRITE LOCK RELEASED",
        "109: THREAD 3 READ LOCK ACQUIRED",
        "110: THREAD 3 READ LOCK RELEASED",
    ]);
}

#[test]
fn lock_counts_and_final_table_come_last() {
    let mut logger = Logger::new();
    logger.log_final_table(&vec!["1,A,2".to_string(), "3,B,4".to_string()]);
    logger.log_read_lock_acquired(1, 5);
    logger.log_read_lock_released(1, 6);
    logger.log_write_lock_acquired(1, 7);
    logger.log_lock_counts();
    let out = logger.write_log();
    let texts: Vec<&str> = out.iter().map(|(_, m)| m.as_str()).collect();
    assert_eq!(texts, vec![
        "5: THREAD 1 READ LOCK ACQUIRED",
        "6: THREAD 1 READ LOCK RELEASED",
        "7: THREAD 1 WRITE LOCK ACQUIRED",
        "",
        "Number of lock acquisitions: 2",
        "Number of locks released: 1",
        "Final Table:",
        "1,A,2",
        "3,B,4",
    ]);
    assert_eq!(out[3].0, u64::MAX - 1);
    assert_eq!(out[6].0, u64::MAX);
}

#[test]
fn database_is_printed_in_hash_order() {
    let mut logger = Logger::new();
    logger.print_database(vec![(9, "Z".to_string(), 1), (2, "Y".to_string(), 3), (5, "X".to_string(), 4)], 77);
    let out = logger.print_outputs();
    assert_eq!(out, vec![
        (77, "Current Database:".to_string()),
        (77, "2,Y,3".to_string()),
        (77, "5,X,4".to_string()),
        (77, "9,Z,1".to_string()),
    ]);
}
