use sqlite_rs::btree::{get_node, init_leaf_node, new_leaf, Cell, Node, NodeType};
use sqlite_rs::constants::{PAGE_SIZE, ROWS_PER_PAGE, ROW_SIZE};
use sqlite_rs::cursor::{cursor_value, table_find, table_start};
use sqlite_rs::error::DbError;
use sqlite_rs::sql::{parse_i32, prepare_statement, PrepareResult, Statement, StatementType};
use sqlite_rs::table::{
    deserialize_row, insert_row, select_all_rows, serialize_row, Pager, Row, Table,
};
use sqlite_rs::utils::{binary_search_key, vec_to_page};

fn make_row(id: u32, username: &str, email: &str) -> Row {
    let mut row = Row::new();
    row.id = id;
    row.username[..username.len()].copy_from_slice(username.as_bytes());
    row.email[..email.len()].copy_from_slice(email.as_bytes());
    row
}

fn row_ids(rows: &[Row]) -> Vec<u32> {
    rows.iter().map(|r| r.id).collect()
}

#[test]
fn row_codec_round_trip_and_layout() {
    let row = make_row(0x01020304, "alice", "alice@example.com");
    let mut buf = vec![0u8; ROW_SIZE as usize];
    serialize_row(&row, &mut buf);
    assert_eq!(buf.len(), 291);
    // Little-endian id in the first four bytes.
    assert_eq!(&buf[0..4], &[0x04, 0x03, 0x02, 0x01]);
    assert_eq!(&buf[4..9], b"alice");
    assert_eq!(&buf[36..41], b"alice");
    let back = deserialize_row(&buf).unwrap();
    assert_eq!(back.id, row.id);
    assert_eq!(back.username, row.username);
    assert_eq!(back.email, row.email);
}

#[test]
fn deserialize_short_buffer_fails() {
    let buf = vec![0u8; 290];
    assert_eq!(deserialize_row(&buf).unwrap_err(), DbError::DecodeError);
}

#[test]
fn leaf_node_round_trip() {
    let mut node = new_leaf();
    node.parent = 7;
    for id in [5u32, 1, 3] {
        let row = make_row(id, "u", "e");
        node.insert_cell(Cell::new(row));
    }
    let page = node.to_page();
    assert_eq!(page.len(), PAGE_SIZE as usize);
    let back = get_node(&page).unwrap();
    assert_eq!(back.parent, 7);
    assert_eq!(back.content_len, 3);
    match back.node_type {
        NodeType::NodeLeaf(cells) => {
            let keys: Vec<u32> = cells.iter().map(|c| c.key).collect();
            assert_eq!(keys, vec![1, 3, 5]);
            for c in &cells {
                assert_eq!(c.value.len(), ROW_SIZE as usize);
            }
        }
        NodeType::NodeInternal(_) => panic!("leaf expected"),
    }
}

#[test]
fn internal_node_round_trip() {
    let node = Node {
        node_type: NodeType::NodeInternal(vec![2, 9, 4]),
        parent: 0,
        content_len: 3,
    };
    let page = node.to_page();
    let back = get_node(&page).unwrap();
    match back.node_type {
        NodeType::NodeInternal(children) => assert_eq!(children, vec![2, 9, 4]),
        NodeType::NodeLeaf(_) => panic!("internal expected"),
    }
}

#[test]
fn decode_rejects_bad_tag_and_oversize_content() {
    let mut page = vec![0u8; PAGE_SIZE as usize];
    page[0] = 2;
    assert_eq!(get_node(&page).unwrap_err(), DbError::InvalidNodeType);
    // A leaf claiming more cells than one page can carry.
    let mut page = vec![0u8; PAGE_SIZE as usize];
    init_leaf_node(&mut page);
    page[5..9].copy_from_slice(&1000u32.to_le_bytes());
    assert_eq!(get_node(&page).unwrap_err(), DbError::CorruptNode);
}

#[test]
fn init_leaf_node_stamps_empty_leaf() {
    let mut page = vec![0xffu8; PAGE_SIZE as usize];
    init_leaf_node(&mut page);
    assert_eq!(page[0], 1);
    assert_eq!(&page[5..9], &[0, 0, 0, 0]);
    let node = get_node(&page).unwrap();
    assert_eq!(node.content_len, 0);
}

#[test]
fn vec_to_page_pads_with_zeros() {
    let page = vec_to_page(&[1u8, 2, 3]);
    assert_eq!(page.len(), PAGE_SIZE as usize);
    assert_eq!(&page[0..3], &[1, 2, 3]);
    assert!(page[3..].iter().all(|b| *b == 0));
}

#[test]
fn binary_search_returns_insertion_index() {
    let cells: Vec<Cell> = [1u32, 3, 5]
        .iter()
        .map(|k| Cell::new(make_row(*k, "u", "e")))
        .collect();
    assert_eq!(binary_search_key(&cells, 0), 0);
    assert_eq!(binary_search_key(&cells, 1), 0);
    assert_eq!(binary_search_key(&cells, 2), 1);
    assert_eq!(binary_search_key(&cells, 3), 1);
    assert_eq!(binary_search_key(&cells, 4), 2);
    assert_eq!(binary_search_key(&cells, 5), 2);
    assert_eq!(binary_search_key(&cells, 6), 3);
    let empty: Vec<Cell> = Vec::new();
    assert_eq!(binary_search_key(&empty, 7), 0);
}

#[test]
fn corrupt_file_length_is_refused() {
    // Any length that is not a whole number of pages must fail, for the
    // pager and for the table alike.
    assert_eq!(Pager::open(vec![0u8; 100]).unwrap_err(), DbError::CorruptFile);
    assert_eq!(
        Table::db_open(vec![0u8; PAGE_SIZE as usize + 1]).unwrap_err(),
        DbError::CorruptFile
    );
    assert!(Table::db_open(Vec::new()).is_ok());
}

#[test]
fn get_page_bounds_and_missing() {
    let mut pager = Pager::open(Vec::new()).unwrap();
    assert_eq!(pager.get_page(100).unwrap_err(), DbError::OutOfBounds);
    assert_eq!(pager.get_page(3).unwrap_err(), DbError::PageMissing);
}

#[test]
fn insert_page_allocates_monotonically() {
    let mut pager = Pager::open(Vec::new()).unwrap();
    let first = pager.insert_page(new_leaf()).unwrap();
    let second = pager.insert_page(new_leaf()).unwrap();
    assert_eq!(first, 0);
    assert_eq!(second, 1);
    assert_eq!(pager.num_cached_pages(), 2);
}

#[test]
fn scenario_single_insert_select() {
    // Open fresh file, insert one row, select it back unchanged.
    let mut table = Table::db_open(Vec::new()).unwrap();
    let row = make_row(1, "user1", "user1@email.com");
    insert_row(&mut table, row.clone()).unwrap();
    let rows = select_all_rows(&mut table).unwrap();
    assert_eq!(rows.len(), 1);
    assert_eq!(rows[0].id, 1);
    assert_eq!(rows[0].username, row.username);
    assert_eq!(rows[0].email, row.email);
}

#[test]
fn scenario_duplicate_key_rejected() {
    // A second insert with the same lookup key fails and changes nothing.
    let mut table = Table::db_open(Vec::new()).unwrap();
    insert_row(&mut table, make_row(1, "user1", "a@b")).unwrap();
    assert_eq!(table_find(&mut table, 1).unwrap_err(), DbError::DuplicateKey);
    let rows = select_all_rows(&mut table).unwrap();
    assert_eq!(rows.len(), 1);
}

#[test]
fn scenario_inserts_come_back_sorted() {
    // Keys inserted as [5, 1, 3] select back as [1, 3, 5].
    let mut table = Table::db_open(Vec::new()).unwrap();
    for id in [5u32, 1, 3] {
        insert_row(&mut table, make_row(id, "u", "e")).unwrap();
    }
    let rows = select_all_rows(&mut table).unwrap();
    assert_eq!(row_ids(&rows), vec![1, 3, 5]);
}

#[test]
fn persistence_across_close_and_reopen() {
    // Insert, flush, reopen over the flushed bytes: same rows, same order.
    let mut table = Table::db_open(Vec::new()).unwrap();
    for id in [5u32, 1, 3] {
        insert_row(&mut table, make_row(id, "name", "mail@x")).unwrap();
    }
    let before = select_all_rows(&mut table).unwrap();
    let file_bytes = table.db_close().unwrap();
    assert_eq!(file_bytes.len() % PAGE_SIZE as usize, 0);

    let mut reopened = Table::db_open(file_bytes).unwrap();
    let after = select_all_rows(&mut reopened).unwrap();
    assert_eq!(row_ids(&after), row_ids(&before));
    for (a, b) in after.iter().zip(before.iter()) {
        assert_eq!(a.username, b.username);
        assert_eq!(a.email, b.email);
    }
}

#[test]
fn capacity_boundary_surfaces_at_flush() {
    // ROWS_PER_PAGE = 13 cells fit; the in-memory node accepts a 14th, but
    // the page can no longer be encoded, so close reports the overflow.
    assert_eq!(ROWS_PER_PAGE, 13);
    let mut table = Table::db_open(Vec::new()).unwrap();
    for id in 0..ROWS_PER_PAGE {
        insert_row(&mut table, make_row(id, "u", "e")).unwrap();
    }
    assert!(table.db_close().is_ok());
    insert_row(&mut table, make_row(99, "u", "e")).unwrap();
    let rows = select_all_rows(&mut table).unwrap();
    assert_eq!(rows.len(), ROWS_PER_PAGE as usize + 1);
    assert_eq!(table.db_close().unwrap_err(), DbError::PageOverflow);
}

#[test]
fn cursor_value_reads_slot_in_order() {
    let mut table = Table::db_open(Vec::new()).unwrap();
    insert_row(&mut table, make_row(2, "u", "e")).unwrap();
    insert_row(&mut table, make_row(1, "u", "e")).unwrap();
    let cursor = table_start(&table);
    assert!(!cursor.end_of_table);
    let cell = cursor_value(&mut table, &cursor).unwrap();
    assert_eq!(cell.key, 1);
}

#[test]
fn internal_root_operations_fail() {
    // A file whose page 0 is an internal node: lookups are unsupported and
    // a select over its children fails rather than misbehaving.
    let root = Node {
        node_type: NodeType::NodeInternal(vec![1]),
        parent: 0,
        content_len: 1,
    };
    let file_bytes = root.to_page();
    let mut table = Table::db_open(file_bytes).unwrap();
    assert_eq!(table_find(&mut table, 1).unwrap_err(), DbError::Unsupported);
    assert_eq!(
        select_all_rows(&mut table).unwrap_err(),
        DbError::CursorError
    );
}

#[test]
fn parse_i32_accepts_signs_and_rejects_overflow() {
    assert_eq!(parse_i32(b"0"), Some(0));
    assert_eq!(parse_i32(b"+5"), Some(5));
    assert_eq!(parse_i32(b"-1"), Some(-1));
    assert_eq!(parse_i32(b"-0"), Some(0));
    assert_eq!(parse_i32(b"2147483647"), Some(i32::MAX));
    assert_eq!(parse_i32(b"-2147483648"), Some(i32::MIN));
    assert_eq!(parse_i32(b"2147483648"), None);
    assert_eq!(parse_i32(b"0012"), Some(12));
    assert_eq!(parse_i32(b""), None);
    assert_eq!(parse_i32(b"-"), None);
    assert_eq!(parse_i32(b"12a"), None);
}

#[test]
fn prepare_statement_fills_row_fields() {
    let mut statement = Statement {
        statement_type: StatementType::Select,
        row_to_insert: Row::new(),
    };
    let r = prepare_statement("insert 42 bob bob@example.com", &mut statement);
    assert_eq!(r, PrepareResult::PrepareSuccess);
    assert!(matches!(statement.statement_type, StatementType::Insert));
    assert_eq!(statement.row_to_insert.id, 42);
    assert_eq!(&statement.row_to_insert.username[..3], b"bob");
    assert_eq!(&statement.row_to_insert.email[..15], b"bob@example.com");
    assert!(statement.row_to_insert.username[3..].iter().all(|b| *b == 0));

    let r = prepare_statement("insert 1 a", &mut statement);
    assert_eq!(r, PrepareResult::PrepareSyntaxError);
    let r = prepare_statement("insert abc a b", &mut statement);
    assert_eq!(r, PrepareResult::PrepareSyntaxError);
    let r = prepare_statement("insert 2147483648 a b", &mut statement);
    assert_eq!(r, PrepareResult::PrepareSyntaxError);
    let r = prepare_statement("drop everything", &mut statement);
    assert_eq!(r, PrepareResult::PrepareUnrecognizedStatement);
}

#[test]
fn error_messages_name_their_cause() {
    assert_eq!(DbError::DuplicateKey.message(), "Key already exists");
    assert_eq!(
        DbError::CorruptFile.message(),
        "Db file is not a whole number of pages. Corrupt file."
    );
}
