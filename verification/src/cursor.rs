use vstd::prelude::*;

use crate::btree::{
    leaf_contains_key, leaf_sorted, spec_cell_of_row, spec_insert_cell, Cell, CellView,
    lemma_insert_cell_wf_data, Node, NodeType, NodeTypeView, NodeView,
};
use crate::constants;
use crate::error::DbError;
use crate::table::{Row, Table};
use crate::utils::binary_search_key;

verus! {

/// A traversal/insertion position over a table: a page number, a slot index
/// within that page, and whether the position lies at or past the end of
/// the table. Transient — recreated per traversal, never persisted.
#[derive(Debug)]
pub struct Cursor {
    pub page_num: u32,
    pub cell_num: u32,
    pub end_of_table: bool,
}

/// A cursor at the first slot of the root page; already at the end of the
/// table exactly when the root holds nothing.
pub fn table_start(table: &Table) -> (c: Cursor)
    requires
        table.wf(),
    ensures
        c.page_num == 0,
        c.cell_num == 0,
        c.end_of_table == (table.spec_root().content_len == 0),
{
    let page_num = table.root_page_num;
    let root = table.pager.cached_node(table.root_page_num);
    let num_cells = root.content_len;
    Cursor { page_num, cell_num: 0, end_of_table: num_cells == 0 }
}

/// A cursor one past the last slot of the root page: where an append lands.
/// There is, by construction, nothing at or past this slot.
pub fn table_end(table: &Table) -> (c: Cursor)
    requires
        table.wf(),
    ensures
        c.page_num == 0,
        c.cell_num == table.spec_root().content_len,
        c.end_of_table,
{
    let page_num = table.root_page_num;
    let root = table.pager.cached_node(table.root_page_num);
    let num_cells = root.content_len;
    Cursor { page_num, cell_num: num_cells, end_of_table: true }
}

/// A copy of the node the cursor currently points at, faulting it into the
/// table's page cache when needed.
pub fn cursor_page(table: &mut Table, cursor: &Cursor) -> (r: Result<Node, DbError>)
    requires
        old(table).wf(),
    ensures
        final(table).wf(),
        final(table).root_page_num == old(table).root_page_num,
        final(table).pager@.file_image == old(table).pager@.file_image,
        final(table).pager@.num_pages == old(table).pager@.num_pages,
        match r {
            Ok(node) => {
                &&& cursor.page_num < constants::TABLE_MAX_PAGES
                &&& old(table).pager@.spec_lookup(cursor.page_num as int) == Some(node@)
                &&& final(table).pager@.pages == old(table).pager@.pages.update(
                    cursor.page_num as int,
                    Some(node@),
                )
                &&& node@.wf_data()
                &&& (old(table).pager@.pages[cursor.page_num as int] is Some ==> *final(table)
                    == *old(table))
            },
            Err(_) => {
                &&& *final(table) == *old(table)
                &&& (cursor.page_num < constants::TABLE_MAX_PAGES
                    ==> old(table).pager@.spec_lookup(cursor.page_num as int) is None)
            },
        },
{
    table.pager.get_page(cursor.page_num)
}

/// The cell the cursor points at: `Some` exactly when the cursor's page
/// resolves to a leaf and the slot index is in range. Internal nodes yield
/// `None` — value resolution through them is out of scope.
pub fn cursor_value(table: &mut Table, cursor: &Cursor) -> (r: Option<Cell>)
    requires
        old(table).wf(),
    ensures
        final(table).wf(),
        final(table).root_page_num == old(table).root_page_num,
        final(table).pager@.file_image == old(table).pager@.file_image,
        final(table).pager@.num_pages == old(table).pager@.num_pages,
        (cursor.page_num < constants::TABLE_MAX_PAGES
            && old(table).pager@.pages[cursor.page_num as int] is Some)
            ==> *final(table) == *old(table),
        final(table).pager@.pages == old(table).pager@.pages || ({
            &&& cursor.page_num < constants::TABLE_MAX_PAGES
            &&& old(table).pager@.spec_lookup(cursor.page_num as int) matches Some(n)
            &&& final(table).pager@.pages == old(table).pager@.pages.update(
                cursor.page_num as int,
                Some(n),
            )
        }),
        match r {
            Some(cell) => {
                &&& cursor.page_num < constants::TABLE_MAX_PAGES
                &&& old(table).pager@.spec_lookup(cursor.page_num as int) matches Some(n)
                &&& n.node_type matches NodeTypeView::Leaf(cells)
                &&& cursor.cell_num < cells.len()
                &&& cell@ == cells[cursor.cell_num as int]
            },
            None => !({
                &&& cursor.page_num < constants::TABLE_MAX_PAGES
                &&& old(table).pager@.spec_lookup(cursor.page_num as int) matches Some(n)
                &&& n.node_type matches NodeTypeView::Leaf(cells)
                &&& cursor.cell_num < cells.len()
            }),
        },
{
    match cursor_page(table, cursor) {
        Err(_) => None,
        Ok(node) => {
            match node.node_type {
                NodeType::NodeLeaf(cells) => {
                    if (cursor.cell_num as usize) < cells.len() {
                        let cell = cells[cursor.cell_num as usize].clone();
                        proof {
                            assert(cells@.map_values(|c: Cell| c@)[cursor.cell_num as int]
                                == cells@[cursor.cell_num as int]@);
                        }
                        Some(cell)
                    } else {
                        None
                    }
                },
                NodeType::NodeInternal(_) => None,
            }
        },
    }
}

/// Binary-searches the root leaf for `key` and returns the cursor at the
/// insertion position. An exact match is a duplicate-key error; searching
/// against an internal root is unsupported and fails rather than misbehave.
pub fn table_find(table: &mut Table, key: u32) -> (r: Result<Cursor, DbError>)
    requires
        old(table).wf(),
    ensures
        *final(table) == *old(table),
        ({
            let root = old(table).spec_root();
            match r {
                Ok(c) => {
                    &&& root.node_type matches NodeTypeView::Leaf(cells)
                    &&& c.page_num == 0
                    &&& c.cell_num <= cells.len()
                    &&& c.end_of_table == (root.content_len == 0)
                    &&& (leaf_sorted(cells) ==> {
                        &&& !leaf_contains_key(cells, key)
                        &&& (forall|j: int|
                            0 <= j < c.cell_num ==> (#[trigger] cells[j]).key < key)
                        &&& (c.cell_num < cells.len() ==> cells[c.cell_num as int].key > key)
                    })
                },
                Err(e) => {
                    &&& (root.node_type is Internal ==> e == DbError::Unsupported)
                    &&& (root.node_type matches NodeTypeView::Leaf(cells) ==> {
                        &&& e == DbError::DuplicateKey
                        &&& (leaf_sorted(cells) ==> leaf_contains_key(cells, key))
                    })
                },
            }
        }),
{
    let cursor = table_start(table);
    let root = table.pager.cached_node(table.root_page_num);
    match &root.node_type {
        NodeType::NodeLeaf(cells) => {
            let ghost vcells = cells@.map_values(|c: Cell| c@);
            proof {
                assert(vcells =~= old(table).spec_root().node_type->Leaf_0);
                assert forall|j: int| 0 <= j < vcells.len() implies (#[trigger] cells@[j])@
                    == vcells[j] by {}
            }
            let idx = binary_search_key(cells, key);
            proof {
                if leaf_sorted(vcells) {
                    assert forall|i: int, j: int| 0 <= i <= j < cells@.len() implies (
                    #[trigger] cells@[i])@.key <= (#[trigger] cells@[j])@.key by {
                        assert(cells@[i]@ == vcells[i]);
                        assert(cells@[j]@ == vcells[j]);
                    }
                }
            }
            if (idx as usize) < cells.len() && cells[idx as usize].key == key {
                proof {
                    assert(vcells[idx as int].key == key);
                }
                return Err(DbError::DuplicateKey);
            }
            proof {
                if leaf_sorted(vcells) && leaf_contains_key(vcells, key) {
                    let w = choose|i: int|
                        0 <= i < vcells.len() && (#[trigger] vcells[i]).key == key;
                    assert(cells@[w]@.key == key);
                    assert(w >= idx);
                    assert(vcells[idx as int].key <= vcells[w].key);
                    assert(cells@[idx as int]@.key >= key);
                    assert(false);
                }
            }
            Ok(Cursor { page_num: cursor.page_num, cell_num: idx, end_of_table: cursor.end_of_table })
        },
        NodeType::NodeInternal(_) => Err(DbError::Unsupported),
    }
}

/// Moves the cursor one slot forward and marks it at the end of the table
/// once the slot index reaches the node's content length.
pub fn cursor_advance(table: &mut Table, cursor: &mut Cursor)
    requires
        old(table).wf(),
        old(cursor).cell_num < u32::MAX,
    ensures
        final(table).wf(),
        final(table).root_page_num == old(table).root_page_num,
        final(table).pager@.file_image == old(table).pager@.file_image,
        final(table).pager@.num_pages == old(table).pager@.num_pages,
        final(cursor).page_num == old(cursor).page_num,
        final(cursor).cell_num == old(cursor).cell_num + 1,
        (old(cursor).page_num < constants::TABLE_MAX_PAGES
            && old(table).pager@.pages[old(cursor).page_num as int] is Some)
            ==> *final(table) == *old(table),
        final(table).pager@.pages == old(table).pager@.pages || ({
            &&& old(cursor).page_num < constants::TABLE_MAX_PAGES
            &&& old(table).pager@.spec_lookup(old(cursor).page_num as int) matches Some(n)
            &&& final(table).pager@.pages == old(table).pager@.pages.update(
                old(cursor).page_num as int,
                Some(n),
            )
        }),
        ({
            let resolvable = old(cursor).page_num < constants::TABLE_MAX_PAGES
                && old(table).pager@.spec_lookup(old(cursor).page_num as int) is Some;
            &&& (resolvable ==> final(cursor).end_of_table == (old(cursor).end_of_table
                || old(cursor).cell_num + 1 >= old(table).pager@.spec_lookup(
                old(cursor).page_num as int,
            )->Some_0.content_len))
            &&& (!resolvable ==> final(cursor).end_of_table == old(cursor).end_of_table
                && *final(table) == *old(table))
        }),
{
    cursor.cell_num = cursor.cell_num + 1;
    let n = cursor.cell_num;
    match table.pager.get_page(cursor.page_num) {
        Ok(node) => {
            if n >= node.content_len {
                cursor.end_of_table = true;
            }
        },
        Err(_) => {},
    }
}

/// Wraps `row` into a cell keyed by its id and inserts it, in key order,
/// into the node the cursor addresses. No page-overflow check happens here:
/// exceeding one page's capacity surfaces at flush, since splits are not
/// implemented. Fails with `CursorError` when the target node cannot be
/// fetched (or can take no further cell).
pub fn cursor_insert(table: &mut Table, cursor: &Cursor, row: Row) -> (r: Result<(), DbError>)
    requires
        old(table).wf(),
        row@.wf(),
    ensures
        final(table).wf(),
        final(table).root_page_num == old(table).root_page_num,
        final(table).pager@.file_image == old(table).pager@.file_image,
        final(table).pager@.num_pages == old(table).pager@.num_pages,
        ({
            let lk = if cursor.page_num < constants::TABLE_MAX_PAGES {
                old(table).pager@.spec_lookup(cursor.page_num as int)
            } else {
                None
            };
            match r {
                Ok(_) => {
                    &&& lk matches Some(n)
                    &&& n.content_len < u32::MAX
                    &&& final(table).pager@.pages == old(table).pager@.pages.update(
                        cursor.page_num as int,
                        Some(spec_insert_cell(n, spec_cell_of_row(row@))),
                    )
                },
                Err(e) => {
                    &&& e == DbError::CursorError
                    &&& (lk is None ==> *final(table) == *old(table))
                    &&& (lk matches Some(n) ==> n.content_len == u32::MAX
                        && final(table).pager@.pages == old(table).pager@.pages.update(
                        cursor.page_num as int,
                        Some(n),
                    ))
                },
            }
        }),
{
    let cell = Cell::new(row);
    match table.pager.get_page(cursor.page_num) {
        Err(_) => Err(DbError::CursorError),
        Ok(node) => {
            if node.content_len == u32::MAX {
                return Err(DbError::CursorError);
            }
            let mut node = node;
            let ghost fetched = node@;
            node.insert_cell(cell);
            proof {
                lemma_insert_cell_wf_data(fetched, spec_cell_of_row(row@));
            }
            table.pager.put_page(cursor.page_num, node);
            proof {
                assert(table.pager@.pages =~= old(table).pager@.pages.update(
                    cursor.page_num as int,
                    Some(spec_insert_cell(fetched, spec_cell_of_row(row@))),
                ));
            }
            Ok(())
        },
    }
}

} // verus!
