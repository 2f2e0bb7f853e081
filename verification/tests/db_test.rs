use sqlite_rs::btree::get_content_len;
use sqlite_rs::constants::ROWS_PER_PAGE;
use sqlite_rs::sql::{
    execute_statement, prepare_statement, ExecuteResult, PrepareResult, Statement, StatementType,
};
use sqlite_rs::table::{insert_row, Row, Table};

fn fresh_table() -> Table {
    Table::db_open(Vec::new()).expect("empty file opens")
}

fn sample_row() -> Row {
    let mut statement = Statement {
        statement_type: StatementType::Insert,
        row_to_insert: Row::new(),
    };
    let cmd = "insert 1 user1 user1@email.com";
    let prepare_result = prepare_statement(cmd, &mut statement);
    assert_eq!(prepare_result, PrepareResult::PrepareSuccess);
    statement.row_to_insert
}

#[test]
fn insert_and_select() {
    let mut table = fresh_table();
    let mut statement = Statement {
        statement_type: StatementType::Insert,
        row_to_insert: Row::new(),
    };
    let cmd = "insert 1 user1 user1@email.com";
    let prepare_result = prepare_statement(cmd, &mut statement);
    assert_eq!(prepare_result, PrepareResult::PrepareSuccess);
    let execute_result = execute_statement(statement, &mut table);
    assert_eq!(execute_result, ExecuteResult::ExecuteSuccess);
    assert_eq!(table.pager.num_cached_pages(), 1);

    let mut statement = Statement {
        statement_type: StatementType::Select,
        row_to_insert: Row::new(),
    };
    let cmd = "select";
    let prepare_result = prepare_statement(cmd, &mut statement);
    assert_eq!(prepare_result, PrepareResult::PrepareSuccess);
    let execute_result = execute_statement(statement, &mut table);
    assert_eq!(execute_result, ExecuteResult::ExecuteSuccess);
}

#[test]
fn insert_max_rows() {
    // One page holds ROWS_PER_PAGE = (4096 - 9) / 295 = 13 cells.
    let mut table = fresh_table();
    let row = sample_row();
    for _i in 0..ROWS_PER_PAGE {
        insert_row(&mut table, row.clone()).unwrap();
    }
    let root = table.pager.get_page(0).unwrap();
    assert_eq!(get_content_len(&root.to_page()), ROWS_PER_PAGE);
}

#[test]
fn insert_max_len_strings() {
    let mut table = fresh_table();
    let mut statement = Statement {
        statement_type: StatementType::Insert,
        row_to_insert: Row::new(),
    };
    let cmd = format!("insert 1 {} {}", "a".repeat(32), "b".repeat(255));
    let prepare_result = prepare_statement(cmd.as_str(), &mut statement);
    assert_eq!(prepare_result, PrepareResult::PrepareSuccess);
    let execute_result = execute_statement(statement, &mut table);
    assert_eq!(execute_result, ExecuteResult::ExecuteSuccess);
    assert_eq!(table.pager.num_cached_pages(), 1);
}

#[test]
fn test_overflow_string_insert() {
    let mut statement = Statement {
        statement_type: StatementType::Insert,
        row_to_insert: Row::new(),
    };
    let cmd = format!("insert 1 {} {}", "a".repeat(33), "b".repeat(256));
    let prepare_result = prepare_statement(cmd.as_str(), &mut statement);
    assert_eq!(prepare_result, PrepareResult::PrepareStringTooLong);
}

#[test]
fn test_negative_id_insert() {
    let mut statement = Statement {
        statement_type: StatementType::Insert,
        row_to_insert: Row::new(),
    };
    let cmd = "insert -1 user1 user@email.com";
    let prepare_result = prepare_statement(cmd, &mut statement);
    assert_eq!(prepare_result, PrepareResult::PrepareNegativeID);
}

#[test]
fn test_duplicate_key_insert() {
    let mut table = fresh_table();
    let mut statement = Statement {
        statement_type: StatementType::Insert,
        row_to_insert: Row::new(),
    };
    let cmd = format!("insert 1 user1 user1");
    let prepare_result = prepare_statement(cmd.as_str(), &mut statement);
    assert_eq!(prepare_result, PrepareResult::PrepareSuccess);
    let execute_result = execute_statement(statement, &mut table);
    assert_eq!(execute_result, ExecuteResult::ExecuteSuccess);

    let mut statement = Statement {
        statement_type: StatementType::Insert,
        row_to_insert: Row::new(),
    };
    let cmd = format!("insert 1 user1 user1");
    let prepare_result = prepare_statement(cmd.as_str(), &mut statement);
    assert_eq!(prepare_result, PrepareResult::PrepareSuccess);
    let execute_result = execute_statement(statement, &mut table);
    assert_eq!(
        execute_result,
        ExecuteResult::ExecuteFailure("Key already exists".to_string())
    );
}
