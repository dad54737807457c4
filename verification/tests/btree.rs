use pagedb::cursor::Cursor;
use pagedb::error::DbError;
use pagedb::executor::{ExecuteResult, Executor};
use pagedb::meta_command::{MetaCommandResult, MetaCommandService};
use pagedb::prepare_statement::{parse_i32, PrepareResult, PrepareService};
use pagedb::row::{Row, COLUMN_EMAIL_SIZE, COLUMN_USERNAME_SIZE, EMAIL_SIZE, ROW_SIZE, USERNAME_SIZE};
use pagedb::statement::{Statement, StatementType};
use pagedb::table::Table;
use pagedb::tree::TreeLine;
use pagedb::tree::{
    get_node_type, internal_node_num_keys, internal_node_right_child, leaf_node_key,
    leaf_node_num_cells, node_parent, NodeType, LEAF_NODE_LEFT_SPLIT_COUNT, LEAF_NODE_MAX_CELLS,
    LEAF_NODE_RIGHT_SPLIT_COUNT,
};
use pagedb::PAGE_SIZE;

fn mk_row(id: u32, name: &str, email: &str) -> Row {
    let mut r = Row::default();
    r.id = id;
    r.set_username(name.as_bytes()).unwrap();
    r.set_email(email.as_bytes()).unwrap();
    r
}

fn insert(table: &mut Table, id: u32) -> ExecuteResult {
    let ex = Executor::new();
    let stmt = Statement {
        stmt_type: StatementType::StatementInsert,
        row_to_insert: mk_row(id, "user", "user@example.com"),
    };
    ex.execute_insert(&stmt, table).unwrap()
}

fn select_ids(table: &mut Table) -> Vec<u32> {
    let ex = Executor::new();
    ex.execute_select(table).unwrap().iter().map(|r| r.id).collect()
}

#[test]
fn row_round_trip() {
    let row = mk_row(42, "alice", "alice@example.org");
    let mut buf = vec![0u8; ROW_SIZE + 10];
    row.serialize_row(&mut buf, 5);
    let mut back = Row::default();
    back.deserialize_row(&buf, 5);
    assert_eq!(back.id, 42);
    assert_eq!(back.username, row.username);
    assert_eq!(back.email, row.email);
    assert_eq!(back.username.len(), USERNAME_SIZE);
    assert_eq!(back.email.len(), EMAIL_SIZE);
}

#[test]
fn row_field_overflow() {
    let mut r = Row::default();
    let long_name = [b'a'; COLUMN_USERNAME_SIZE + 1];
    assert!(matches!(r.set_username(&long_name), Err(DbError::FieldOverflow)));
    let long_email = [b'e'; COLUMN_EMAIL_SIZE + 1];
    assert!(matches!(r.set_email(&long_email), Err(DbError::FieldOverflow)));
    let ok_name = [b'a'; COLUMN_USERNAME_SIZE];
    assert!(r.set_username(&ok_name).is_ok());
}

#[test]
fn open_empty_file_makes_root_leaf() {
    let mut table = Table::db_open(Vec::new()).unwrap();
    assert_eq!(table.pager.num_pages, 1);
    assert_eq!(table.root_page_num, 0);
    table.pager.get_page(0).unwrap();
    assert!(matches!(get_node_type(&table.pager.pages[0]), NodeType::NodeLeaf));
    assert_eq!(leaf_node_num_cells(&table.pager.pages[0]), 0);
}

#[test]
fn open_corrupt_file_rejected() {
    let r = Table::db_open(vec![0u8; 100]);
    assert!(matches!(r, Err(DbError::Corruption)));
}

#[test]
fn insert_out_of_order_select_sorted() {
    let mut table = Table::db_open(Vec::new()).unwrap();
    for id in [3u32, 1, 2] {
        assert!(matches!(insert(&mut table, id), ExecuteResult::ExecuteSuccess));
    }
    assert_eq!(select_ids(&mut table), vec![1, 2, 3]);
}

#[test]
fn duplicate_key_detected_and_table_unchanged() {
    let mut table = Table::db_open(Vec::new()).unwrap();
    assert!(matches!(insert(&mut table, 5), ExecuteResult::ExecuteSuccess));
    assert!(matches!(insert(&mut table, 7), ExecuteResult::ExecuteSuccess));
    let before = table.db_close();
    assert!(matches!(insert(&mut table, 5), ExecuteResult::ExecuteDuplicateKey));
    let after = table.db_close();
    assert_eq!(before, after);
    assert_eq!(select_ids(&mut table), vec![5, 7]);
}

#[test]
fn binary_search_finds_present_and_absent_keys() {
    let mut table = Table::db_open(Vec::new()).unwrap();
    for id in [10u32, 20, 30, 40, 50] {
        insert(&mut table, id);
    }
    // a present key lands on its exact cell
    let c = Cursor::table_find(&mut table, 30).unwrap();
    assert_eq!(c.cell_num, 2);
    // an absent key lands on its insertion point
    let c = Cursor::table_find(&mut table, 35).unwrap();
    assert_eq!(c.cell_num, 3);
    let c = Cursor::table_find(&mut table, 5).unwrap();
    assert_eq!(c.cell_num, 0);
    let c = Cursor::table_find(&mut table, 60).unwrap();
    assert_eq!(c.cell_num, 5);
}

#[test]
fn split_makes_internal_root_with_balanced_halves() {
    let mut table = Table::db_open(Vec::new()).unwrap();
    let n = (LEAF_NODE_MAX_CELLS + 1) as u32;
    for id in 1..=n {
        assert!(matches!(insert(&mut table, id), ExecuteResult::ExecuteSuccess));
    }
    // root growth: the root page is now internal with one key and two children
    table.pager.get_page(0).unwrap();
    assert!(matches!(get_node_type(&table.pager.pages[0]), NodeType::NodeInternal));
    assert_eq!(internal_node_num_keys(&table.pager.pages[0]), 1);
    let right = internal_node_right_child(&table.pager.pages[0]) as usize;
    let left = pagedb::tree::internal_node_child(&table.pager.pages[0], 0).unwrap() as usize;
    assert_ne!(left, 0);
    assert_ne!(right, 0);
    // both children's parent pointer names the root page
    table.pager.get_page(left).unwrap();
    table.pager.get_page(right).unwrap();
    assert_eq!(node_parent(&table.pager.pages[left]), 0);
    assert_eq!(node_parent(&table.pager.pages[right]), 0);
    // split balance
    let lc = leaf_node_num_cells(&table.pager.pages[left]) as usize;
    let rc = leaf_node_num_cells(&table.pager.pages[right]) as usize;
    assert_eq!(lc + rc, LEAF_NODE_MAX_CELLS + 1);
    assert_eq!(lc, LEAF_NODE_LEFT_SPLIT_COUNT);
    assert_eq!(rc, LEAF_NODE_RIGHT_SPLIT_COUNT);
    // every key in the left half is below every key in the right half
    let max_left = leaf_node_key(&table.pager.pages[left], lc - 1);
    let min_right = leaf_node_key(&table.pager.pages[right], 0);
    assert!(max_left < min_right);
    // the separator key equals the left half's greatest key
    assert_eq!(pagedb::tree::internal_node_key(&table.pager.pages[0], 0), max_left);
    // the scan still returns all keys in ascending order
    let ids = select_ids(&mut table);
    assert_eq!(ids, (1..=n).collect::<Vec<u32>>());
}

#[test]
fn sibling_chain_spans_all_leaves_in_order() {
    let mut table = Table::db_open(Vec::new()).unwrap();
    // several splits in a row
    for id in 1..=(2 * LEAF_NODE_MAX_CELLS as u32) {
        assert!(matches!(insert(&mut table, id), ExecuteResult::ExecuteSuccess));
    }
    let ids = select_ids(&mut table);
    assert_eq!(ids.len(), 2 * LEAF_NODE_MAX_CELLS);
    for w in ids.windows(2) {
        assert!(w[0] < w[1]);
    }
}

#[test]
fn close_and_reopen_keeps_records() {
    let mut table = Table::db_open(Vec::new()).unwrap();
    for id in [9u32, 4, 6] {
        insert(&mut table, id);
    }
    let image = table.db_close();
    let mut file_bytes: Vec<u8> = Vec::new();
    for page in image {
        assert_eq!(page.len(), PAGE_SIZE);
        file_bytes.extend_from_slice(&page);
    }
    let mut reopened = Table::db_open(file_bytes).unwrap();
    assert_eq!(select_ids(&mut reopened), vec![4, 6, 9]);
}

#[test]
fn pager_flush_requires_materialized_page() {
    let table = Table::db_open(vec![0u8; 2 * PAGE_SIZE]).unwrap();
    assert!(matches!(table.pager.pager_flush(1), Err(DbError::PageNotMaterialized)));
}

#[test]
fn leaf_capacity_follows_from_record_width() {
    assert_eq!(ROW_SIZE, 4 + USERNAME_SIZE + EMAIL_SIZE);
    assert_eq!(LEAF_NODE_MAX_CELLS, (PAGE_SIZE - 14) / (4 + ROW_SIZE));
    assert_eq!(
        LEAF_NODE_LEFT_SPLIT_COUNT + LEAF_NODE_RIGHT_SPLIT_COUNT,
        LEAF_NODE_MAX_CELLS + 1
    );
}

#[test]
fn prepare_recognizes_statement_shapes() {
    let svc = PrepareService::new();
    let mut stmt = Statement::new();
    assert!(matches!(
        svc.prepare_statement("select;", &mut stmt),
        PrepareResult::PrepareSuccess
    ));
    assert!(matches!(stmt.stmt_type, StatementType::StatementSelect));
    let mut stmt = Statement::new();
    assert!(matches!(
        svc.prepare_statement("insert 1 user name@example.com;", &mut stmt),
        PrepareResult::PrepareSuccess
    ));
    assert!(matches!(stmt.stmt_type, StatementType::StatementInsert));
    assert_eq!(stmt.row_to_insert.id, 1);
    assert_eq!(&stmt.row_to_insert.username[..4], b"user");
    let mut stmt = Statement::new();
    assert!(matches!(
        svc.prepare_statement("bogus;", &mut stmt),
        PrepareResult::PrepareUnrecognizeStmt(_)
    ));
}

#[test]
fn prepare_validates_insert_fields() {
    let svc = PrepareService::new();
    let mut stmt = Statement::new();
    assert!(matches!(
        svc.prepare_statement("insert -3 user mail@example.com;", &mut stmt),
        PrepareResult::PrepareNegativeId
    ));
    let mut stmt = Statement::new();
    assert!(matches!(
        svc.prepare_statement("insert abc user mail@example.com;", &mut stmt),
        PrepareResult::PrepareSyntaxError
    ));
    let mut stmt = Statement::new();
    assert!(matches!(
        svc.prepare_statement("insert 1 user;", &mut stmt),
        PrepareResult::PrepareSyntaxError
    ));
    let long_name = "a".repeat(COLUMN_USERNAME_SIZE + 1);
    let line = format!("insert 1 {} mail@example.com;", long_name);
    let mut stmt = Statement::new();
    assert!(matches!(
        svc.prepare_statement(&line, &mut stmt),
        PrepareResult::PrepareStringTooLong
    ));
}

#[test]
fn parse_i32_boundaries() {
    assert_eq!(parse_i32(b"0"), Some(0));
    assert_eq!(parse_i32(b"2147483647"), Some(2147483647));
    assert_eq!(parse_i32(b"2147483648"), None);
    assert_eq!(parse_i32(b"-2147483648"), Some(-2147483648));
    assert_eq!(parse_i32(b"-2147483649"), None);
    assert_eq!(parse_i32(b"+17"), Some(17));
    assert_eq!(parse_i32(b""), None);
    assert_eq!(parse_i32(b"-"), None);
    assert_eq!(parse_i32(b"12x"), None);
}

#[test]
fn meta_commands_recognized() {
    let svc = MetaCommandService::new();
    assert!(matches!(svc.do_meta_command(".exit;"), MetaCommandResult::MetaCmdExit));
    assert!(matches!(svc.do_meta_command(".btree;"), MetaCommandResult::MetaCmdSuccess));
    assert!(matches!(
        svc.do_meta_command(".constants;"),
        MetaCommandResult::MetaCmdSuccess
    ));
    assert!(matches!(
        svc.do_meta_command(".bogus;"),
        MetaCommandResult::MetaCmdUnrecognizedCmd
    ));
}

#[test]
fn internal_split_limit_reported_as_unimplemented() {
    let mut table = Table::db_open(Vec::new()).unwrap();
    let ex = Executor::new();
    let mut hit_limit = false;
    // drive enough ascending inserts to exhaust the internal root's cells
    for id in 1..=(10 * LEAF_NODE_MAX_CELLS as u32) {
        let stmt = Statement {
            stmt_type: StatementType::StatementInsert,
            row_to_insert: mk_row(id, "u", "u@example.com"),
        };
        match ex.execute_insert(&stmt, &mut table) {
            Ok(_) => {},
            Err(DbError::UnimplementedInternalSplit) => {
                hit_limit = true;
                break;
            },
            Err(e) => panic!("unexpected error: {:?}", e),
        }
    }
    assert!(hit_limit);
}

#[test]
fn oversized_file_rejected() {
    let r = Table::db_open(vec![0u8; 101 * PAGE_SIZE]);
    assert!(matches!(r, Err(DbError::PageOutOfBounds)));
}

#[test]
fn internal_child_index_out_of_bounds() {
    let mut table = Table::db_open(Vec::new()).unwrap();
    for id in 1..=(LEAF_NODE_MAX_CELLS + 1) as u32 {
        insert(&mut table, id);
    }
    table.pager.get_page(0).unwrap();
    let nk = internal_node_num_keys(&table.pager.pages[0]) as usize;
    let r = pagedb::tree::internal_node_child(&table.pager.pages[0], nk + 1);
    assert!(matches!(r, Err(DbError::ChildOutOfBounds)));
}

#[test]
fn validate_accepts_stored_trees_and_rejects_garbage() {
    // a freshly grown tree validates
    let mut table = Table::db_open(Vec::new()).unwrap();
    for id in 1..=(LEAF_NODE_MAX_CELLS + 1) as u32 {
        insert(&mut table, id);
    }
    assert!(table.db_validate());
    // and still does after a round trip through the file image
    let mut file_bytes: Vec<u8> = Vec::new();
    for page in table.db_close() {
        file_bytes.extend_from_slice(&page);
    }
    let reopened = Table::db_open(file_bytes).unwrap();
    assert!(reopened.db_validate());
    // a page of arbitrary bytes does not
    let garbage = Table::db_open(vec![7u8; PAGE_SIZE]).unwrap();
    assert!(!garbage.db_validate());
}

#[test]
fn tree_listing_reports_structure() {
    let mut table = Table::db_open(Vec::new()).unwrap();
    for id in [2u32, 1] {
        insert(&mut table, id);
    }
    let lines = table.tree_listing();
    assert_eq!(
        lines,
        vec![
            TreeLine::LeafNode(0, 2),
            TreeLine::LeafKey(1, 1),
            TreeLine::LeafKey(1, 2),
        ]
    );
    for id in 3..=(LEAF_NODE_MAX_CELLS + 1) as u32 {
        insert(&mut table, id);
    }
    let lines = table.tree_listing();
    assert!(matches!(lines[0], TreeLine::InternalNode(0, 1)));
    assert!(matches!(lines[1], TreeLine::LeafNode(1, 7)));
    assert!(matches!(
        lines[9],
        TreeLine::InternalKey(1, k) if k == LEAF_NODE_LEFT_SPLIT_COUNT as u32
    ));
    assert!(matches!(lines[10], TreeLine::LeafNode(1, 7)));
}
