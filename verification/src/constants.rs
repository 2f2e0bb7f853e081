use vstd::prelude::*;

verus! {

/// The physical unit of the backing file: the unit of I/O and caching.
pub const PAGE_SIZE: u32 = 4096;

/// Upper bound on page numbers the pager will serve.
pub const TABLE_MAX_PAGES: u32 = 100;

/// Encoded size of one row: 4 (id) + 32 (username) + 255 (email).
pub const ROW_SIZE: u32 = 291;

pub const ID_SIZE: u32 = 4;

pub const USERNAME_SIZE: u32 = 32;

pub const EMAIL_SIZE: u32 = 255;

pub const LEAF_NODE_KEY_SIZE: u32 = 4;

pub const LEAF_NODE_VALUE_SIZE: u32 = ROW_SIZE;

/// One leaf entry on disk: a 4-byte key followed by the encoded row.
pub const LEAF_NODE_CELL_SIZE: u32 = LEAF_NODE_KEY_SIZE + ROW_SIZE;

pub const NODE_TYPE_SIZE: u32 = 1;

pub const NODE_PARENT_OFFSET: u32 = NODE_TYPE_SIZE;

pub const NODE_PARENT_SIZE: u32 = 4;

pub const NODE_CONTENT_LEN_OFFSET: u32 = NODE_PARENT_OFFSET + NODE_PARENT_SIZE;

pub const NODE_CONTENT_LEN_SIZE: u32 = 4;

pub const NODE_CONTENT_OFFSET: u32 = NODE_CONTENT_LEN_OFFSET + NODE_CONTENT_LEN_SIZE;

pub const NODE_METADATA_SIZE: u32 = NODE_TYPE_SIZE + NODE_PARENT_SIZE + NODE_CONTENT_LEN_SIZE;

/// How many leaf cells fit in one page's content area.
pub const ROWS_PER_PAGE: u32 = (PAGE_SIZE - NODE_METADATA_SIZE) / LEAF_NODE_CELL_SIZE;

pub const TABLE_MAX_ROWS: u32 = ROWS_PER_PAGE * TABLE_MAX_PAGES;

} // verus!
