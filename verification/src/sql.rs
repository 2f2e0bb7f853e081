use vstd::prelude::*;

use vstd::slice::{slice_index_get, slice_subrange, slice_to_vec};
use vstd::string::StringSliceAdditionalSpecFns;

use crate::btree::{leaf_contains_key, leaf_sorted, NodeTypeView};
use crate::error::DbError;
use crate::table::{Row, Table};

verus! {

/// What a meta-command (a line starting with `.`) came to.
#[derive(Debug)]
pub enum MetaCommandResult {
    MetaCommandSuccess,
    MetaCommandUnrecognizedCommand(String),
}

/// The operation a prepared statement asks for.
#[derive(Debug, Clone)]
pub enum StatementType {
    Insert,
    Select,
    Invalid(String),
}

/// What preparing a statement's text came to.
#[derive(Debug, PartialEq)]
pub enum PrepareResult {
    PrepareSuccess,
    PrepareSyntaxError,
    PrepareStringTooLong,
    PrepareUnrecognizedStatement,
    PrepareNegativeID,
}

/// What executing a prepared statement came to.
#[derive(Debug, PartialEq)]
pub enum ExecuteResult {
    ExecuteSuccess,
    ExecuteFailure(String),
}

/// A prepared statement: the operation and, for an insert, the row to add.
#[derive(Debug, Clone)]
pub struct Statement {
    pub statement_type: StatementType,
    pub row_to_insert: Row,
}

/// The byte values that separate tokens: ASCII whitespace.
pub open spec fn is_ws(b: u8) -> bool {
    b == 32 || b == 9 || b == 10 || b == 11 || b == 12 || b == 13
}

/// How many leading bytes of `b` belong to the first token: the length of
/// the longest whitespace-free prefix.
pub open spec fn token_len(b: Seq<u8>) -> nat
    decreases b.len(),
{
    if b.len() == 0 || is_ws(b[0]) {
        0
    } else {
        1 + token_len(b.skip(1))
    }
}

pub proof fn lemma_token_len_le(b: Seq<u8>)
    ensures
        token_len(b) <= b.len(),
    decreases b.len(),
{
    if b.len() > 0 && !is_ws(b[0]) {
        lemma_token_len_le(b.skip(1));
    }
}

#[via_fn]
proof fn spec_tokens_decreases(b: Seq<u8>) {
    lemma_token_len_le(b);
}

/// The whitespace-separated tokens of `b`, in order.
pub open spec fn spec_tokens(b: Seq<u8>) -> Seq<Seq<u8>>
    decreases b.len(),
        via spec_tokens_decreases
{
    if b.len() == 0 {
        Seq::empty()
    } else if is_ws(b[0]) {
        spec_tokens(b.skip(1))
    } else {
        seq![b.take(token_len(b) as int)] + spec_tokens(b.skip(token_len(b) as int))
    }
}

/// An index bounding a whitespace-free prefix, with whitespace or the end
/// right after it, is the first token's length.
pub proof fn lemma_token_len_unique(b: Seq<u8>, l: int)
    requires
        0 <= l <= b.len(),
        forall|k: int| 0 <= k < l ==> !is_ws(#[trigger] b[k]),
        l < b.len() ==> is_ws(b[l]),
    ensures
        token_len(b) == l,
    decreases b.len(),
{
    if b.len() == 0 {
    } else if is_ws(b[0]) {
        assert(l == 0);
    } else {
        assert(l >= 1);
        lemma_token_len_unique(b.skip(1), l - 1);
    }
}

/// `b` begins with `prefix`.
pub open spec fn spec_starts_with(b: Seq<u8>, prefix: Seq<u8>) -> bool {
    prefix.len() <= b.len() && b.take(prefix.len() as int) == prefix
}

/// The keyword that begins an insert statement, as bytes.
pub open spec fn kw_insert() -> Seq<u8> {
    seq![105u8, 110u8, 115u8, 101u8, 114u8, 116u8]
}

/// The keyword that begins a select statement, as bytes.
pub open spec fn kw_select() -> Seq<u8> {
    seq![115u8, 101u8, 108u8, 101u8, 99u8, 116u8]
}

pub open spec fn is_digit(b: u8) -> bool {
    48u8 <= b <= 57u8
}

/// Every byte is a decimal digit.
pub open spec fn all_digits(d: Seq<u8>) -> bool {
    forall|k: int| 0 <= k < d.len() ==> is_digit(#[trigger] d[k])
}

/// The number a sequence of decimal digits denotes.
pub open spec fn digits_val(d: Seq<u8>) -> int
    decreases d.len(),
{
    if d.len() == 0 {
        0
    } else {
        digits_val(d.drop_last()) * 10 + (d.last() - 48u8)
    }
}

/// The signed 32-bit number a token denotes, if any: an optional sign, then
/// one or more decimal digits, within the type's range.
pub open spec fn spec_parse_i32(t: Seq<u8>) -> Option<int> {
    let negative = t.len() > 0 && t[0] == 45u8;
    let digits = if t.len() > 0 && (t[0] == 45u8 || t[0] == 43u8) {
        t.skip(1)
    } else {
        t
    };
    if digits.len() == 0 || !all_digits(digits) {
        None
    } else {
        let v = if negative {
            -digits_val(digits)
        } else {
            digits_val(digits)
        };
        if -0x8000_0000 <= v <= 0x7fff_ffff {
            Some(v)
        } else {
            None
        }
    }
}

/// A digit sequence's value is never negative.
pub proof fn lemma_digits_val_nonneg(d: Seq<u8>)
    requires
        forall|k: int| 0 <= k < d.len() ==> is_digit(#[trigger] d[k]),
    ensures
        digits_val(d) >= 0,
    decreases d.len(),
{
    if d.len() > 0 {
        lemma_digits_val_nonneg(d.drop_last());
    }
}

/// Appending digits never shrinks the value: every prefix denotes at most
/// the whole.
pub proof fn lemma_digits_val_prefix(d: Seq<u8>, l: int)
    requires
        forall|k: int| 0 <= k < d.len() ==> is_digit(#[trigger] d[k]),
        0 <= l <= d.len(),
    ensures
        digits_val(d.take(l)) <= digits_val(d),
    decreases d.len() - l,
{
    if l < d.len() {
        lemma_digits_val_prefix(d, l + 1);
        let shorter = d.take(l);
        let longer = d.take(l + 1);
        assert(longer.drop_last() =~= shorter);
        assert(longer.last() == d[l]);
        lemma_digits_val_nonneg(shorter);
        assert(digits_val(longer) == digits_val(shorter) * 10 + (d[l] - 48u8));
    } else {
        assert(d.take(l) =~= d);
    }
}

/// Parses a token as a signed 32-bit number: an optional `-` or `+` sign,
/// then decimal digits. Anything else, or a value outside the 32-bit range,
/// is no number.
pub fn parse_i32(t: &[u8]) -> (r: Option<i32>)
    ensures
        match r {
            Some(v) => spec_parse_i32(t@) == Some(v as int),
            None => spec_parse_i32(t@) is None,
        },
{
    let n = t.len();
    if n == 0 {
        return None;
    }
    let first = *slice_index_get(t, 0);
    let negative = first == 45u8;
    let start: usize = if first == 45u8 || first == 43u8 {
        1
    } else {
        0
    };
    let ghost digits = if first == 45u8 || first == 43u8 {
        t@.skip(1)
    } else {
        t@
    };
    if start >= n {
        return None;
    }
    let mut mag: u64 = 0;
    let mut k: usize = start;
    while k < n
        invariant
            start <= k <= n,
            n == t@.len(),
            start <= 1,
            digits == t@.skip(start as int),
            digits == (if t@.len() > 0 && (t@[0] == 45u8 || t@[0] == 43u8) {
                t@.skip(1)
            } else {
                t@
            }),
            negative == (t@.len() > 0 && t@[0] == 45u8),
            digits.len() == n - start,
            forall|j: int| 0 <= j < k - start ==> is_digit(#[trigger] digits[j]),
            mag == digits_val(digits.take(k - start)),
            mag <= 0x8000_0000u64,
        decreases n - k,
    {
        let c = *slice_index_get(t, k);
        proof {
            assert(digits[k - start] == t@[k as int]);
        }
        if !(48u8 <= c && c <= 57u8) {
            proof {
                assert(!is_digit(digits[k - start]));
                assert(!all_digits(digits));
                assert(spec_parse_i32(t@) is None);
            }
            return None;
        }
        mag = mag * 10 + ((c - 48u8) as u64);
        proof {
            assert(digits.take(k + 1 - start).drop_last() =~= digits.take(k - start));
            assert(digits.take(k + 1 - start).last() == digits[k - start]);
        }
        if mag > 0x8000_0000u64 {
            proof {
                if all_digits(digits) {
                    lemma_digits_val_prefix(digits, k + 1 - start);
                    assert(digits_val(digits) >= mag > 0x8000_0000);
                }
                assert(spec_parse_i32(t@) is None);
            }
            return None;
        }
        k = k + 1;
    }
    proof {
        assert(digits.take(n - start) =~= digits);
    }
    if negative {
        if mag == 0x8000_0000u64 {
            Some(i32::MIN)
        } else {
            Some(-((mag as i64) as i32))
        }
    } else {
        if mag > 0x7fff_ffffu64 {
            return None;
        }
        Some(mag as i32)
    }
}

/// Whether the bytes start with the six-byte keyword `kw`.
fn starts_with_kw(b: &[u8], k0: u8, k1: u8, k2: u8, k3: u8, k4: u8, k5: u8) -> (r: bool)
    ensures
        r == spec_starts_with(b@, seq![k0, k1, k2, k3, k4, k5]),
{
    if b.len() < 6 {
        return false;
    }
    let r = *slice_index_get(b, 0) == k0 && *slice_index_get(b, 1) == k1 && *slice_index_get(b, 2)
        == k2 && *slice_index_get(b, 3) == k3 && *slice_index_get(b, 4) == k4 && *slice_index_get(
        b,
        5,
    ) == k5;
    proof {
        if r {
            assert(b@.take(6) =~= seq![k0, k1, k2, k3, k4, k5]);
        } else {
            assert(b@.take(6) != seq![k0, k1, k2, k3, k4, k5]);
        }
    }
    r
}

/// Whether a byte separates tokens.
fn is_whitespace(b: u8) -> (r: bool)
    ensures
        r == is_ws(b),
{
    b == 32 || b == 9 || b == 10 || b == 11 || b == 12 || b == 13
}

/// Splits the bytes into their whitespace-separated tokens.
fn tokenize(b: &[u8]) -> (r: Vec<Vec<u8>>)
    ensures
        r@.map_values(|t: Vec<u8>| t@) == spec_tokens(b@),
{
    let mut tokens: Vec<Vec<u8>> = Vec::new();
    let n = b.len();
    let mut i: usize = 0;
    proof {
        assert(tokens@.map_values(|t: Vec<u8>| t@) =~= Seq::<Seq<u8>>::empty());
        assert(b@.skip(0) =~= b@);
        assert(Seq::<Seq<u8>>::empty() + spec_tokens(b@) =~= spec_tokens(b@));
    }
    while i < n
        invariant
            i <= n,
            n == b@.len(),
            spec_tokens(b@) == tokens@.map_values(|t: Vec<u8>| t@) + spec_tokens(
                b@.skip(i as int),
            ),
        decreases n - i,
    {
        let c = *slice_index_get(b, i);
        if is_whitespace(c) {
            proof {
                assert(b@.skip(i as int)[0] == b@[i as int]);
                assert(b@.skip(i as int).skip(1) =~= b@.skip(i + 1));
            }
            i = i + 1;
        } else {
            let mut j: usize = i + 1;
            while j < n && !is_whitespace(*slice_index_get(b, j))
                invariant
                    i < j <= n,
                    n == b@.len(),
                    forall|k: int| i <= k < j ==> !is_ws(#[trigger] b@[k]),
                decreases n - j,
            {
                j = j + 1;
            }
            let tok = slice_to_vec(slice_subrange(b, i, j));
            proof {
                let s = b@.skip(i as int);
                assert forall|k: int| 0 <= k < j - i implies !is_ws(#[trigger] s[k]) by {
                    assert(s[k] == b@[i + k]);
                }
                if j < n {
                    assert(s[j - i] == b@[j as int]);
                }
                lemma_token_len_unique(s, j - i);
                assert(s.take(j - i) =~= b@.subrange(i as int, j as int));
                assert(s.skip(j - i) =~= b@.skip(j as int));
                assert(spec_tokens(s) == seq![b@.subrange(i as int, j as int)] + spec_tokens(
                    b@.skip(j as int),
                ));
            }
            let ghost before = tokens@.map_values(|t: Vec<u8>| t@);
            tokens.push(tok);
            proof {
                assert(tokens@.map_values(|t: Vec<u8>| t@) =~= before.push(
                    b@.subrange(i as int, j as int),
                ));
                assert(before.push(b@.subrange(i as int, j as int)) + spec_tokens(
                    b@.skip(j as int),
                ) =~= before + (seq![b@.subrange(i as int, j as int)] + spec_tokens(
                    b@.skip(j as int),
                )));
            }
            i = j;
        }
    }
    proof {
        assert(b@.skip(n as int) =~= Seq::<u8>::empty());
        assert(tokens@.map_values(|t: Vec<u8>| t@) + spec_tokens(Seq::<u8>::empty())
            =~= tokens@.map_values(|t: Vec<u8>| t@));
    }
    tokens
}

/// Writes `src` over the front of `dest`, keeping `dest`'s tail bytes.
fn write_prefix(dest: &mut Vec<u8>, src: &Vec<u8>)
    requires
        src@.len() <= old(dest)@.len(),
    ensures
        final(dest)@ == src@ + old(dest)@.skip(src@.len() as int),
        final(dest)@.len() == old(dest)@.len(),
{
    let n = src.len();
    let mut i: usize = 0;
    while i < n
        invariant
            i <= n,
            n == src@.len() <= dest@.len(),
            dest@.len() == old(dest)@.len(),
            forall|j: int| 0 <= j < i ==> dest@[j] == src@[j],
            forall|j: int| i <= j < dest@.len() ==> dest@[j] == old(dest)@[j],
        decreases n - i,
    {
        let v = src[i];
        dest[i] = v;
        i = i + 1;
    }
    proof {
        assert(dest@ =~= src@ + old(dest)@.skip(src@.len() as int));
    }
}

/// What preparing an insert statement's bytes comes to: exactly four
/// tokens, a non-negative 32-bit id, a username of at most 32 bytes and an
/// email of at most 255.
pub open spec fn spec_prepare_insert(b: Seq<u8>) -> PrepareResult {
    let toks = spec_tokens(b);
    if toks.len() != 4 {
        PrepareResult::PrepareSyntaxError
    } else {
        match spec_parse_i32(toks[1]) {
            None => PrepareResult::PrepareSyntaxError,
            Some(v) => if v < 0 {
                PrepareResult::PrepareNegativeID
            } else if toks[2].len() > crate::constants::USERNAME_SIZE {
                PrepareResult::PrepareStringTooLong
            } else if toks[3].len() > crate::constants::EMAIL_SIZE {
                PrepareResult::PrepareStringTooLong
            } else {
                PrepareResult::PrepareSuccess
            },
        }
    }
}

/// What preparing a statement's bytes comes to.
pub open spec fn spec_prepare_result(b: Seq<u8>) -> PrepareResult {
    if spec_starts_with(b, kw_insert()) {
        spec_prepare_insert(b)
    } else if spec_starts_with(b, kw_select()) {
        PrepareResult::PrepareSuccess
    } else {
        PrepareResult::PrepareUnrecognizedStatement
    }
}

/// Parses a statement's text. `insert <id> <username> <email>` fills the
/// statement's row: the id as the key, the username and email bytes written
/// over the front of the row's fixed-width fields. `select` takes no
/// arguments. Anything else is unrecognized.
pub fn prepare_statement(cmd: &str, statement: &mut Statement) -> (r: PrepareResult)
    requires
        old(statement).row_to_insert@.wf(),
    ensures
        final(statement).row_to_insert@.wf(),
        r == spec_prepare_result(cmd.spec_bytes()),
        spec_starts_with(cmd.spec_bytes(), kw_insert())
            ==> final(statement).statement_type is Insert,
        (!spec_starts_with(cmd.spec_bytes(), kw_insert()) && spec_starts_with(
            cmd.spec_bytes(),
            kw_select(),
        )) ==> final(statement).statement_type is Select
            && final(statement).row_to_insert == old(statement).row_to_insert,
        (!spec_starts_with(cmd.spec_bytes(), kw_insert()) && !spec_starts_with(
            cmd.spec_bytes(),
            kw_select(),
        )) ==> *final(statement) == *old(statement),
        (spec_starts_with(cmd.spec_bytes(), kw_insert()) && r == PrepareResult::PrepareSuccess)
            ==> ({
            let toks = spec_tokens(cmd.spec_bytes());
            &&& final(statement).row_to_insert@.id == spec_parse_i32(toks[1])->Some_0
            &&& final(statement).row_to_insert@.username == toks[2]
                + old(statement).row_to_insert@.username.skip(toks[2].len() as int)
            &&& final(statement).row_to_insert@.email == toks[3]
                + old(statement).row_to_insert@.email.skip(toks[3].len() as int)
        }),
{
    let bytes = cmd.as_bytes();
    if starts_with_kw(bytes, 105u8, 110u8, 115u8, 101u8, 114u8, 116u8) {
        statement.statement_type = StatementType::Insert;
        let split_info = tokenize(bytes);
        if split_info.len() != 4 {
            return PrepareResult::PrepareSyntaxError;
        }
        proof {
            assert(split_info@.map_values(|t: Vec<u8>| t@)[1] == split_info@[1]@);
            assert(split_info@.map_values(|t: Vec<u8>| t@)[2] == split_info@[2]@);
            assert(split_info@.map_values(|t: Vec<u8>| t@)[3] == split_info@[3]@);
        }
        let id = match parse_i32(split_info[1].as_slice()) {
            Some(v) => {
                if v < 0 {
                    return PrepareResult::PrepareNegativeID;
                }
                v as u32
            },
            None => {
                return PrepareResult::PrepareSyntaxError;
            },
        };
        statement.row_to_insert.id = id;
        if split_info[2].len() > crate::constants::USERNAME_SIZE as usize {
            return PrepareResult::PrepareStringTooLong;
        }
        write_prefix(&mut statement.row_to_insert.username, &split_info[2]);
        if split_info[3].len() > crate::constants::EMAIL_SIZE as usize {
            return PrepareResult::PrepareStringTooLong;
        }
        write_prefix(&mut statement.row_to_insert.email, &split_info[3]);
        PrepareResult::PrepareSuccess
    } else if starts_with_kw(bytes, 115u8, 101u8, 108u8, 101u8, 99u8, 116u8) {
        statement.statement_type = StatementType::Select;
        PrepareResult::PrepareSuccess
    } else {
        PrepareResult::PrepareUnrecognizedStatement
    }
}

/// What the shell's insert operation does to the table: a duplicate key on
/// a sorted root leaf is rejected with the table unchanged; a fresh key is
/// inserted in order; an internal root cannot be inserted into at all.
pub open spec fn spec_insert_outcome(
    pre: Table,
    post: Table,
    row: crate::table::RowView,
    r: ExecuteResult,
) -> bool {
    let root = pre.spec_root();
    let key = row.id;
    match root.node_type {
        NodeTypeView::Internal(_) => {
            &&& r matches ExecuteResult::ExecuteFailure(m)
            &&& m@ == DbError::Unsupported.spec_message()
            &&& post == pre
        },
        NodeTypeView::Leaf(cells) => {
            &&& (leaf_sorted(cells) && leaf_contains_key(cells, key) ==> (r matches
            ExecuteResult::ExecuteFailure(m) && m@ == DbError::DuplicateKey.spec_message() && post
                == pre))
            &&& (leaf_sorted(cells) && !leaf_contains_key(cells, key) && root.content_len
                < u32::MAX ==> r == ExecuteResult::ExecuteSuccess && post.pager@.pages
                == pre.pager@.pages.update(
                0,
                Some(
                    crate::btree::spec_insert_cell(root, crate::btree::spec_cell_of_row(row)),
                ),
            ))
        },
    }
}

/// Inserts the statement's row, keyed by its id, routing through
/// `table_find` so that an existing key is rejected as a duplicate.
pub fn execute_insert(statement: Statement, table: &mut Table) -> (r: ExecuteResult)
    requires
        old(table).wf(),
        statement.row_to_insert@.wf(),
    ensures
        final(table).wf(),
        final(table).root_page_num == old(table).root_page_num,
        final(table).pager@.file_image == old(table).pager@.file_image,
        final(table).pager@.num_pages == old(table).pager@.num_pages,
        spec_insert_outcome(*old(table), *final(table), statement.row_to_insert@, r),
{
    let row = statement.row_to_insert;
    match crate::cursor::table_find(table, row.id) {
        Err(e) => ExecuteResult::ExecuteFailure(e.message()),
        Ok(cursor) => {
            match crate::cursor::cursor_insert(table, &cursor, row) {
                Ok(_) => ExecuteResult::ExecuteSuccess,
                Err(e) => ExecuteResult::ExecuteFailure(e.message()),
            }
        },
    }
}

/// Reads all rows; success is exactly a successful select-all.
pub fn execute_select(table: &mut Table) -> (r: ExecuteResult)
    requires
        old(table).wf(),
    ensures
        *final(table) == *old(table),
        ({
            let root = old(table).spec_root();
            &&& (r == ExecuteResult::ExecuteSuccess <==> (root.node_type is Leaf
                || root.content_len == 0))
        }),
{
    match crate::table::select_all_rows(table) {
        Ok(_) => ExecuteResult::ExecuteSuccess,
        Err(_) => ExecuteResult::ExecuteFailure("Error selecting rows".to_string()),
    }
}

/// Runs a prepared statement against the table. An `Invalid` statement is
/// reported as a failure, never executed.
pub fn execute_statement(statement: Statement, table: &mut Table) -> (r: ExecuteResult)
    requires
        old(table).wf(),
        statement.statement_type is Insert ==> statement.row_to_insert@.wf(),
    ensures
        final(table).wf(),
        final(table).root_page_num == old(table).root_page_num,
        statement.statement_type is Insert ==> spec_insert_outcome(
            *old(table),
            *final(table),
            statement.row_to_insert@,
            r,
        ),
        statement.statement_type is Select ==> *final(table) == *old(table) && (r
            == ExecuteResult::ExecuteSuccess <==> (old(table).spec_root().node_type is Leaf
            || old(table).spec_root().content_len == 0)),
        statement.statement_type is Invalid ==> *final(table) == *old(table) && r matches
            ExecuteResult::ExecuteFailure(m),
{
    match &statement.statement_type {
        StatementType::Insert => execute_insert(statement, table),
        StatementType::Select => execute_select(table),
        StatementType::Invalid(_) => ExecuteResult::ExecuteFailure(
            "Invalid statement".to_string(),
        ),
    }
}

} // verus!
