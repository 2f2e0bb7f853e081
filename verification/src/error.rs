use vstd::prelude::*;

verus! {

/// Every way an operation of the engine can fail. The core never recovers an
/// error by guessing data: each failure surfaces its kind to the caller.
#[derive(Clone, Copy, Debug, PartialEq, Eq, Structural)]
pub enum DbError {
    /// The backing file's length is not a whole number of pages.
    CorruptFile,
    /// A page number at or past `TABLE_MAX_PAGES` was requested.
    OutOfBounds,
    /// A page that is neither cached nor on disk was requested.
    PageMissing,
    /// A page byte 0 held neither the internal nor the leaf tag.
    InvalidNodeType,
    /// A page's content length does not fit inside one page.
    CorruptNode,
    /// A row encoding was shorter than `ROW_SIZE` bytes.
    DecodeError,
    /// A keyed lookup found the key already present.
    DuplicateKey,
    /// Traversal of internal nodes is not implemented.
    Unsupported,
    /// The node a cursor addresses cannot be fetched or mutated.
    CursorError,
    /// A cached node holds more content than one page can carry.
    PageOverflow,
}

impl DbError {
    pub open spec fn spec_message(self) -> Seq<char> {
        match self {
            DbError::CorruptFile => "Db file is not a whole number of pages. Corrupt file."@,
            DbError::OutOfBounds => "Tried to fetch page number out of bounds"@,
            DbError::PageMissing => "Error loading page from disk. Probably fetching not existing page number."@,
            DbError::InvalidNodeType => "Invalid node type"@,
            DbError::CorruptNode => "Page content does not fit in one page"@,
            DbError::DecodeError => "Row value is too short to decode"@,
            DbError::DuplicateKey => "Key already exists"@,
            DbError::Unsupported => "Internal nodes not implemented"@,
            DbError::CursorError => "Cursor does not address a fetchable node"@,
            DbError::PageOverflow => "Node holds more content than one page"@,
        }
    }

    /// The human-readable description of the error, for the shell to print.
    pub fn message(&self) -> (r: String)
        ensures
            r@ == self.spec_message(),
    {
        match self {
            DbError::CorruptFile => "Db file is not a whole number of pages. Corrupt file.".to_string(),
            DbError::OutOfBounds => "Tried to fetch page number out of bounds".to_string(),
            DbError::PageMissing => "Error loading page from disk. Probably fetching not existing page number.".to_string(),
            DbError::InvalidNodeType => "Invalid node type".to_string(),
            DbError::CorruptNode => "Page content does not fit in one page".to_string(),
            DbError::DecodeError => "Row value is too short to decode".to_string(),
            DbError::DuplicateKey => "Key already exists".to_string(),
            DbError::Unsupported => "Internal nodes not implemented".to_string(),
            DbError::CursorError => "Cursor does not address a fetchable node".to_string(),
            DbError::PageOverflow => "Node holds more content than one page".to_string(),
        }
    }
}

} // verus!
