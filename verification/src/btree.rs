use vstd::prelude::*;

use vstd::bytes::{spec_u32_from_le_bytes, spec_u32_to_le_bytes, u32_from_le_bytes, u32_to_le_bytes};
use vstd::slice::{slice_subrange, slice_to_vec};

use crate::constants;
use crate::error::DbError;
use crate::table::{serialize_row, spec_serialize_row, Row};
use crate::utils::{zero_seq, zero_vec, Page};

verus! {

/// The mathematical value of a `Cell`.
pub struct CellView {
    pub key: u32,
    pub value: Seq<u8>,
}

impl CellView {
    /// The value is exactly one encoded row.
    pub open spec fn wf(self) -> bool {
        self.value.len() == constants::ROW_SIZE
    }
}

/// A keyed leaf entry: the ordering key and the `ROW_SIZE`-byte encoded row.
#[derive(Debug)]
pub struct Cell {
    pub key: u32,
    pub value: Vec<u8>,
}

impl View for Cell {
    type V = CellView;

    open spec fn view(&self) -> CellView {
        CellView { key: self.key, value: self.value@ }
    }
}

impl Clone for Cell {
    fn clone(&self) -> (r: Self)
        ensures
            r@ == self@,
    {
        Cell { key: self.key, value: slice_to_vec(self.value.as_slice()) }
    }
}

impl Cell {
    /// Wraps a row into a cell keyed by the row's id.
    pub fn new(row: Row) -> (c: Cell)
        requires
            row@.wf(),
        ensures
            c@.key == row@.id,
            c@.value == spec_serialize_row(row@),
            c@.wf(),
    {
        let mut value = zero_vec(constants::ROW_SIZE as usize);
        serialize_row(&row, &mut value);
        proof {
            vstd::bytes::lemma_auto_spec_u32_to_from_le_bytes();
        }
        Cell { key: row.id, value }
    }
}

/// The mathematical value of a `NodeType`.
pub enum NodeTypeView {
    Internal(Seq<u32>),
    Leaf(Seq<CellView>),
}

impl NodeTypeView {
    /// Count of children or cells.
    pub open spec fn len(self) -> nat {
        match self {
            NodeTypeView::Internal(children) => children.len(),
            NodeTypeView::Leaf(cells) => cells.len(),
        }
    }
}

/// The active variant of a node: an internal node of child page numbers, or
/// a leaf of keyed cells.
#[derive(Debug)]
pub enum NodeType {
    NodeInternal(Vec<u32>),
    NodeLeaf(Vec<Cell>),
}

impl View for NodeType {
    type V = NodeTypeView;

    open spec fn view(&self) -> NodeTypeView {
        match self {
            NodeType::NodeInternal(children) => NodeTypeView::Internal(children@),
            NodeType::NodeLeaf(cells) => NodeTypeView::Leaf(cells@.map_values(|c: Cell| c@)),
        }
    }
}

/// The mathematical value of a `Node`.
pub struct NodeView {
    pub node_type: NodeTypeView,
    pub parent: u32,
    pub content_len: u32,
}

impl NodeView {
    /// The bookkeeping invariant: `content_len` matches the active variant's
    /// length, and every leaf cell carries a full encoded row.
    pub open spec fn wf_data(self) -> bool {
        &&& self.content_len == self.node_type.len()
        &&& match self.node_type {
            NodeTypeView::Internal(_) => true,
            NodeTypeView::Leaf(cells) => forall|i: int|
                0 <= i < cells.len() ==> (#[trigger] cells[i]).wf(),
        }
    }

    /// The content area fits inside one page.
    pub open spec fn fits(self) -> bool {
        match self.node_type {
            NodeTypeView::Internal(children) => constants::NODE_CONTENT_OFFSET + children.len()
                * constants::NODE_PARENT_SIZE <= constants::PAGE_SIZE,
            NodeTypeView::Leaf(cells) => constants::NODE_CONTENT_OFFSET + cells.len()
                * constants::LEAF_NODE_CELL_SIZE <= constants::PAGE_SIZE,
        }
    }

    /// A node that the codec can persist losslessly.
    pub open spec fn wf(self) -> bool {
        self.wf_data() && self.fits()
    }
}

/// The decoded form of one page.
#[derive(Debug)]
pub struct Node {
    pub node_type: NodeType,
    pub parent: u32,
    pub content_len: u32,
}

impl View for Node {
    type V = NodeView;

    open spec fn view(&self) -> NodeView {
        NodeView { node_type: self.node_type@, parent: self.parent, content_len: self.content_len }
    }
}

impl Clone for Node {
    fn clone(&self) -> (r: Self)
        ensures
            r@ == self@,
    {
        let node_type = match &self.node_type {
            NodeType::NodeInternal(children) => NodeType::NodeInternal(
                slice_to_vec(children.as_slice()),
            ),
            NodeType::NodeLeaf(cells) => {
                let mut cs: Vec<Cell> = Vec::new();
                let mut i: usize = 0;
                while i < cells.len()
                    invariant
                        i <= cells@.len(),
                        cs@.len() == i,
                        forall|j: int| 0 <= j < i ==> (#[trigger] cs@[j])@ == cells@[j]@,
                    decreases cells@.len() - i,
                {
                    cs.push(cells[i].clone());
                    i = i + 1;
                }
                proof {
                    assert(cs@.map_values(|c: Cell| c@) =~= cells@.map_values(|c: Cell| c@));
                }
                NodeType::NodeLeaf(cs)
            },
        };
        Node { node_type, parent: self.parent, content_len: self.content_len }
    }
}

impl Node {
    /// Whether this node's content still fits inside one page; a node grown
    /// past this point cannot be persisted.
    pub fn fits(&self) -> (b: bool)
        ensures
            b == self@.fits(),
    {
        match &self.node_type {
            NodeType::NodeInternal(children) => {
                if children.len() > constants::PAGE_SIZE as usize {
                    false
                } else {
                    (children.len() as u64) * (constants::NODE_PARENT_SIZE as u64) + (
                    constants::NODE_CONTENT_OFFSET as u64) <= (constants::PAGE_SIZE as u64)
                }
            },
            NodeType::NodeLeaf(cells) => {
                if cells.len() > constants::PAGE_SIZE as usize {
                    false
                } else {
                    (cells.len() as u64) * (constants::LEAF_NODE_CELL_SIZE as u64) + (
                    constants::NODE_CONTENT_OFFSET as u64) <= (constants::PAGE_SIZE as u64)
                }
            },
        }
    }
}

/// Byte 0 of a page: 0 for internal, 1 for leaf.
pub open spec fn spec_tag(nt: NodeTypeView) -> u8 {
    match nt {
        NodeTypeView::Internal(_) => 0u8,
        NodeTypeView::Leaf(_) => 1u8,
    }
}

/// One leaf entry on disk: little-endian key, then the row value.
pub open spec fn spec_cell_bytes(c: CellView) -> Seq<u8> {
    spec_u32_to_le_bytes(c.key) + c.value
}

/// The leaf content area: the cells' encodings, back to back.
pub open spec fn spec_cells_bytes(cells: Seq<CellView>) -> Seq<u8>
    decreases cells.len(),
{
    if cells.len() == 0 {
        Seq::empty()
    } else {
        spec_cell_bytes(cells[0]) + spec_cells_bytes(cells.skip(1))
    }
}

/// The internal content area: the children's little-endian page numbers.
pub open spec fn spec_children_bytes(children: Seq<u32>) -> Seq<u8>
    decreases children.len(),
{
    if children.len() == 0 {
        Seq::empty()
    } else {
        spec_u32_to_le_bytes(children[0]) + spec_children_bytes(children.skip(1))
    }
}

pub open spec fn spec_content_bytes(nt: NodeTypeView) -> Seq<u8> {
    match nt {
        NodeTypeView::Internal(children) => spec_children_bytes(children),
        NodeTypeView::Leaf(cells) => spec_cells_bytes(cells),
    }
}

/// The persisted, bit-exact page: tag, parent, content length, content area,
/// zero padding to `PAGE_SIZE`. Every 32-bit field is stored little-endian,
/// which is the native byte order of the hosts this format targets.
pub open spec fn spec_encode_node(n: NodeView) -> Seq<u8> {
    let content = spec_content_bytes(n.node_type);
    seq![spec_tag(n.node_type)] + spec_u32_to_le_bytes(n.parent) + spec_u32_to_le_bytes(
        n.content_len,
    ) + content + zero_seq(
        (constants::PAGE_SIZE - constants::NODE_CONTENT_OFFSET - content.len()) as nat,
    )
}

/// The cell whose encoding starts `i` entries into a leaf content area.
pub open spec fn spec_decode_cell(b: Seq<u8>, i: int) -> CellView {
    CellView {
        key: spec_u32_from_le_bytes(
            b.subrange(i * constants::LEAF_NODE_CELL_SIZE, i * constants::LEAF_NODE_CELL_SIZE + 4),
        ),
        value: b.subrange(
            i * constants::LEAF_NODE_CELL_SIZE + 4,
            (i + 1) * constants::LEAF_NODE_CELL_SIZE,
        ),
    }
}

/// The first `n` cells of a leaf content area.
pub open spec fn spec_decode_cells(b: Seq<u8>, n: nat) -> Seq<CellView> {
    Seq::new(n, |i: int| spec_decode_cell(b, i))
}

/// The first `n` child page numbers of an internal content area.
pub open spec fn spec_decode_children(b: Seq<u8>, n: nat) -> Seq<u32> {
    Seq::new(n, |i: int| spec_u32_from_le_bytes(b.subrange(4 * i, 4 * i + 4)))
}

/// The node a page holds: `None` when the tag is neither 0 nor 1, or when
/// the declared content does not fit inside the page.
pub open spec fn spec_decode_node(page: Seq<u8>) -> Option<NodeView> {
    let tag = page[0];
    let parent = spec_u32_from_le_bytes(page.subrange(1, 5));
    let content_len = spec_u32_from_le_bytes(page.subrange(5, 9));
    if tag == 0u8 {
        if constants::NODE_CONTENT_OFFSET + content_len * constants::NODE_PARENT_SIZE
            <= constants::PAGE_SIZE {
            Some(
                NodeView {
                    node_type: NodeTypeView::Internal(
                        spec_decode_children(
                            page.skip(constants::NODE_CONTENT_OFFSET as int),
                            content_len as nat,
                        ),
                    ),
                    parent,
                    content_len,
                },
            )
        } else {
            None
        }
    } else if tag == 1u8 {
        if constants::NODE_CONTENT_OFFSET + content_len * constants::LEAF_NODE_CELL_SIZE
            <= constants::PAGE_SIZE {
            Some(
                NodeView {
                    node_type: NodeTypeView::Leaf(
                        spec_decode_cells(
                            page.skip(constants::NODE_CONTENT_OFFSET as int),
                            content_len as nat,
                        ),
                    ),
                    parent,
                    content_len,
                },
            )
        } else {
            None
        }
    } else {
        None
    }
}

/// A well-formed cell encodes to exactly `LEAF_NODE_CELL_SIZE` bytes.
pub proof fn lemma_cell_bytes_len(c: CellView)
    requires
        c.wf(),
    ensures
        spec_cell_bytes(c).len() == constants::LEAF_NODE_CELL_SIZE,
{
    vstd::bytes::lemma_auto_spec_u32_to_from_le_bytes();
}

/// A leaf content area is `LEAF_NODE_CELL_SIZE` bytes per cell.
pub proof fn lemma_cells_bytes_len(cells: Seq<CellView>)
    requires
        forall|i: int| 0 <= i < cells.len() ==> (#[trigger] cells[i]).wf(),
    ensures
        spec_cells_bytes(cells).len() == cells.len() * constants::LEAF_NODE_CELL_SIZE,
    decreases cells.len(),
{
    if cells.len() > 0 {
        lemma_cell_bytes_len(cells[0]);
        lemma_cells_bytes_len(cells.skip(1));
    }
}

/// An internal content area is 4 bytes per child.
pub proof fn lemma_children_bytes_len(children: Seq<u32>)
    ensures
        spec_children_bytes(children).len() == children.len() * constants::NODE_PARENT_SIZE,
    decreases children.len(),
{
    vstd::bytes::lemma_auto_spec_u32_to_from_le_bytes();
    if children.len() > 0 {
        lemma_children_bytes_len(children.skip(1));
    }
}

/// Appending one cell appends its encoding.
pub proof fn lemma_cells_bytes_push(cells: Seq<CellView>, c: CellView)
    ensures
        spec_cells_bytes(cells.push(c)) == spec_cells_bytes(cells) + spec_cell_bytes(c),
    decreases cells.len(),
{
    if cells.len() == 0 {
        assert(cells.push(c).skip(1) =~= Seq::<CellView>::empty());
        assert(cells.push(c)[0] == c);
        assert(spec_cells_bytes(Seq::<CellView>::empty()) == Seq::<u8>::empty());
        assert(spec_cells_bytes(cells.push(c)) == spec_cell_bytes(c) + Seq::<u8>::empty());
        assert(spec_cells_bytes(cells.push(c)) =~= spec_cells_bytes(cells) + spec_cell_bytes(c));
    } else {
        assert(cells.push(c).skip(1) =~= cells.skip(1).push(c));
        lemma_cells_bytes_push(cells.skip(1), c);
        assert(cells.push(c)[0] == cells[0]);
        assert(spec_cells_bytes(cells.push(c)) == spec_cell_bytes(cells[0]) + (spec_cells_bytes(
            cells.skip(1),
        ) + spec_cell_bytes(c)));
        assert(spec_cells_bytes(cells.push(c)) =~= spec_cells_bytes(cells) + spec_cell_bytes(c));
    }
}

/// Appending one child appends its encoding.
pub proof fn lemma_children_bytes_push(children: Seq<u32>, child: u32)
    ensures
        spec_children_bytes(children.push(child)) == spec_children_bytes(children)
            + spec_u32_to_le_bytes(child),
    decreases children.len(),
{
    if children.len() == 0 {
        assert(children.push(child).skip(1) =~= Seq::<u32>::empty());
        assert(children.push(child)[0] == child);
        assert(spec_children_bytes(Seq::<u32>::empty()) == Seq::<u8>::empty());
        assert(spec_children_bytes(children.push(child)) == spec_u32_to_le_bytes(child)
            + Seq::<u8>::empty());
        assert(spec_children_bytes(children.push(child)) =~= spec_children_bytes(children)
            + spec_u32_to_le_bytes(child));
    } else {
        assert(children.push(child).skip(1) =~= children.skip(1).push(child));
        lemma_children_bytes_push(children.skip(1), child);
        assert(children.push(child)[0] == children[0]);
        assert(spec_children_bytes(children.push(child)) == spec_u32_to_le_bytes(children[0]) + (
        spec_children_bytes(children.skip(1)) + spec_u32_to_le_bytes(child)));
        assert(spec_children_bytes(children.push(child)) =~= spec_children_bytes(children)
            + spec_u32_to_le_bytes(child));
    }
}

/// Cell `i`'s encoding sits `i` entries into the leaf content area.
pub proof fn lemma_cells_bytes_index(cells: Seq<CellView>, i: int)
    requires
        forall|j: int| 0 <= j < cells.len() ==> (#[trigger] cells[j]).wf(),
        0 <= i < cells.len(),
    ensures
        spec_cells_bytes(cells).subrange(
            i * constants::LEAF_NODE_CELL_SIZE,
            (i + 1) * constants::LEAF_NODE_CELL_SIZE,
        ) == spec_cell_bytes(cells[i]),
    decreases i,
{
    lemma_cells_bytes_len(cells);
    lemma_cell_bytes_len(cells[0]);
    if i == 0 {
        assert(spec_cells_bytes(cells).subrange(0, constants::LEAF_NODE_CELL_SIZE as int)
            =~= spec_cell_bytes(cells[0]));
    } else {
        lemma_cells_bytes_index(cells.skip(1), i - 1);
        lemma_cells_bytes_len(cells.skip(1));
        assert(spec_cells_bytes(cells).subrange(
            i * constants::LEAF_NODE_CELL_SIZE,
            (i + 1) * constants::LEAF_NODE_CELL_SIZE,
        ) =~= spec_cells_bytes(cells.skip(1)).subrange(
            (i - 1) * constants::LEAF_NODE_CELL_SIZE,
            i * constants::LEAF_NODE_CELL_SIZE,
        ));
    }
}

/// Child `i`'s encoding sits `i` entries into the internal content area.
pub proof fn lemma_children_bytes_index(children: Seq<u32>, i: int)
    requires
        0 <= i < children.len(),
    ensures
        spec_children_bytes(children).subrange(
            i * constants::NODE_PARENT_SIZE,
            (i + 1) * constants::NODE_PARENT_SIZE,
        ) == spec_u32_to_le_bytes(children[i]),
    decreases i,
{
    vstd::bytes::lemma_auto_spec_u32_to_from_le_bytes();
    lemma_children_bytes_len(children);
    if i == 0 {
        assert(spec_children_bytes(children).subrange(0, constants::NODE_PARENT_SIZE as int)
            =~= spec_u32_to_le_bytes(children[0]));
    } else {
        lemma_children_bytes_index(children.skip(1), i - 1);
        lemma_children_bytes_len(children.skip(1));
        assert(spec_children_bytes(children).subrange(
            i * constants::NODE_PARENT_SIZE,
            (i + 1) * constants::NODE_PARENT_SIZE,
        ) =~= spec_children_bytes(children.skip(1)).subrange(
            (i - 1) * constants::NODE_PARENT_SIZE,
            i * constants::NODE_PARENT_SIZE,
        ));
    }
}

/// A well-formed node encodes to exactly one page.
pub proof fn lemma_encode_node_len(n: NodeView)
    requires
        n.wf(),
    ensures
        spec_encode_node(n).len() == constants::PAGE_SIZE,
{
    vstd::bytes::lemma_auto_spec_u32_to_from_le_bytes();
    match n.node_type {
        NodeTypeView::Leaf(cells) => {
            lemma_cells_bytes_len(cells);
        },
        NodeTypeView::Internal(children) => {
            lemma_children_bytes_len(children);
        },
    }
}

/// Round-trip law: decoding an encoded page restores every well-formed node,
/// leaf or internal, exactly.
pub proof fn lemma_node_round_trip(n: NodeView)
    requires
        n.wf(),
    ensures
        spec_decode_node(spec_encode_node(n)) == Some(n),
{
    vstd::bytes::lemma_auto_spec_u32_to_from_le_bytes();
    let b = spec_encode_node(n);
    let content = spec_content_bytes(n.node_type);
    match n.node_type {
        NodeTypeView::Leaf(cells) => {
            lemma_cells_bytes_len(cells);
        },
        NodeTypeView::Internal(children) => {
            lemma_children_bytes_len(children);
        },
    }
    assert(b.len() == constants::PAGE_SIZE);
    assert(b[0] == spec_tag(n.node_type));
    assert(b.subrange(1, 5) =~= spec_u32_to_le_bytes(n.parent));
    assert(b.subrange(5, 9) =~= spec_u32_to_le_bytes(n.content_len));
    let body = b.skip(constants::NODE_CONTENT_OFFSET as int);
    assert(body =~= content + zero_seq(
        (constants::PAGE_SIZE - constants::NODE_CONTENT_OFFSET - content.len()) as nat,
    ));
    match n.node_type {
        NodeTypeView::Leaf(cells) => {
            let cs = constants::LEAF_NODE_CELL_SIZE as int;
            assert forall|i: int| 0 <= i < cells.len() implies spec_decode_cell(body, i)
                == cells[i] by {
                lemma_cells_bytes_index(cells, i);
                lemma_cell_bytes_len(cells[i]);
                let cb = spec_cell_bytes(cells[i]);
                assert(body.subrange(i * cs, (i + 1) * cs) =~= content.subrange(
                    i * cs,
                    (i + 1) * cs,
                ));
                assert(body.subrange(i * cs, (i + 1) * cs) == cb);
                assert(body.subrange(i * cs, i * cs + 4) =~= cb.subrange(0, 4));
                assert(cb.subrange(0, 4) =~= spec_u32_to_le_bytes(cells[i].key));
                assert(body.subrange(i * cs + 4, (i + 1) * cs) =~= cb.subrange(4, cs));
                assert(cb.subrange(4, cs) =~= cells[i].value);
            }
            assert(spec_decode_cells(body, cells.len()) =~= cells);
        },
        NodeTypeView::Internal(children) => {
            assert forall|i: int| 0 <= i < children.len() implies spec_u32_from_le_bytes(
                body.subrange(4 * i, 4 * i + 4),
            ) == children[i] by {
                lemma_children_bytes_index(children, i);
                assert(body.subrange(4 * i, 4 * i + 4) =~= content.subrange(4 * i, 4 * i + 4));
                assert(content.subrange(4 * i, 4 * i + 4) == spec_u32_to_le_bytes(children[i]));
            }
            assert(spec_decode_children(body, children.len()) =~= children);
        },
    }
}

/// Reads the content length field from a page.
pub fn get_content_len(p: &Page) -> (r: u32)
    requires
        p@.len() == constants::PAGE_SIZE,
    ensures
        r == spec_u32_from_le_bytes(
            p@.subrange(
                constants::NODE_CONTENT_LEN_OFFSET as int,
                constants::NODE_CONTENT_OFFSET as int,
            ),
        ),
{
    u32_from_le_bytes(
        slice_subrange(
            p.as_slice(),
            constants::NODE_CONTENT_LEN_OFFSET as usize,
            constants::NODE_CONTENT_OFFSET as usize,
        ),
    )
}

/// Writes the content length field of a page, leaving all other bytes as
/// they were.
pub fn set_content_len(p: &mut Page, content_len: u32)
    requires
        old(p)@.len() == constants::PAGE_SIZE,
    ensures
        final(p)@ == old(p)@.subrange(0, constants::NODE_CONTENT_LEN_OFFSET as int)
            + spec_u32_to_le_bytes(content_len) + old(p)@.subrange(
            constants::NODE_CONTENT_OFFSET as int,
            constants::PAGE_SIZE as int,
        ),
{
    let bytes = u32_to_le_bytes(content_len);
    p[5] = bytes[0];
    p[6] = bytes[1];
    p[7] = bytes[2];
    p[8] = bytes[3];
    proof {
        vstd::bytes::lemma_auto_spec_u32_to_from_le_bytes();
        assert(p@ =~= old(p)@.subrange(0, 5) + spec_u32_to_le_bytes(content_len) + old(p)@.subrange(
            9,
            constants::PAGE_SIZE as int,
        ));
    }
}

/// Reads the parent page number field from a page.
pub fn get_parent(p: &Page) -> (r: u32)
    requires
        p@.len() == constants::PAGE_SIZE,
    ensures
        r == spec_u32_from_le_bytes(
            p@.subrange(
                constants::NODE_PARENT_OFFSET as int,
                constants::NODE_CONTENT_LEN_OFFSET as int,
            ),
        ),
{
    u32_from_le_bytes(
        slice_subrange(
            p.as_slice(),
            constants::NODE_PARENT_OFFSET as usize,
            constants::NODE_CONTENT_LEN_OFFSET as usize,
        ),
    )
}

/// Writes the parent page number field of a page, leaving all other bytes
/// as they were.
pub fn set_parent(p: &mut Page, parent: u32)
    requires
        old(p)@.len() == constants::PAGE_SIZE,
    ensures
        final(p)@ == old(p)@.subrange(0, constants::NODE_PARENT_OFFSET as int)
            + spec_u32_to_le_bytes(parent) + old(p)@.subrange(
            constants::NODE_CONTENT_LEN_OFFSET as int,
            constants::PAGE_SIZE as int,
        ),
{
    let bytes = u32_to_le_bytes(parent);
    p[1] = bytes[0];
    p[2] = bytes[1];
    p[3] = bytes[2];
    p[4] = bytes[3];
    proof {
        vstd::bytes::lemma_auto_spec_u32_to_from_le_bytes();
        assert(p@ =~= old(p)@.subrange(0, 1) + spec_u32_to_le_bytes(parent) + old(p)@.subrange(
            5,
            constants::PAGE_SIZE as int,
        ));
    }
}

/// Stamps a page as an empty leaf: tag 1, content length 0. The parent
/// field and the content area keep whatever bytes they held.
pub fn init_leaf_node(p: &mut Page)
    requires
        old(p)@.len() == constants::PAGE_SIZE,
    ensures
        final(p)@ == seq![1u8] + old(p)@.subrange(
            constants::NODE_PARENT_OFFSET as int,
            constants::NODE_CONTENT_LEN_OFFSET as int,
        ) + spec_u32_to_le_bytes(0u32) + old(p)@.subrange(
            constants::NODE_CONTENT_OFFSET as int,
            constants::PAGE_SIZE as int,
        ),
{
    p[0] = 1u8;
    set_content_len(p, 0);
    proof {
        assert(p@ =~= seq![1u8] + old(p)@.subrange(1, 5) + spec_u32_to_le_bytes(0u32)
            + old(p)@.subrange(9, constants::PAGE_SIZE as int));
    }
}

/// Decodes the content area of a page into the typed variant; fails with
/// `InvalidNodeType` on an unknown tag and with `CorruptNode` when the
/// declared content cannot fit inside one page.
pub fn get_node_type(p: &Page) -> (r: Result<NodeType, DbError>)
    requires
        p@.len() == constants::PAGE_SIZE,
    ensures
        match r {
            Ok(nt) => spec_decode_node(p@) matches Some(dn) && nt@ == dn.node_type,
            Err(e) => {
                &&& spec_decode_node(p@) is None
                &&& (e == DbError::InvalidNodeType <==> (p@[0] != 0u8 && p@[0] != 1u8))
                &&& (e == DbError::InvalidNodeType || e == DbError::CorruptNode)
            },
        },
{
    let tag = p[0];
    let content_len = get_content_len(p);
    if tag == 0u8 {
        if (content_len as u64) * (constants::NODE_PARENT_SIZE as u64) + (
        constants::NODE_CONTENT_OFFSET as u64) > (constants::PAGE_SIZE as u64) {
            return Err(DbError::CorruptNode);
        }
        let n = content_len as usize;
        let mut children: Vec<u32> = Vec::new();
        let mut i: usize = 0;
        while i < n
            invariant
                p@.len() == constants::PAGE_SIZE,
                n * constants::NODE_PARENT_SIZE + constants::NODE_CONTENT_OFFSET
                    <= constants::PAGE_SIZE,
                i <= n,
                children@.len() == i,
                forall|j: int|
                    0 <= j < i ==> children@[j] == spec_u32_from_le_bytes(
                        p@.skip(constants::NODE_CONTENT_OFFSET as int).subrange(4 * j, 4 * j + 4),
                    ),
            decreases n - i,
        {
            let off = constants::NODE_CONTENT_OFFSET as usize + i * 4;
            let child = u32_from_le_bytes(slice_subrange(p.as_slice(), off, off + 4));
            proof {
                assert(p@.subrange(off as int, off + 4) =~= p@.skip(
                    constants::NODE_CONTENT_OFFSET as int,
                ).subrange(4 * i, 4 * i + 4));
            }
            children.push(child);
            i = i + 1;
        }
        proof {
            assert(children@ =~= spec_decode_children(
                p@.skip(constants::NODE_CONTENT_OFFSET as int),
                content_len as nat,
            ));
        }
        Ok(NodeType::NodeInternal(children))
    } else if tag == 1u8 {
        if (content_len as u64) * (constants::LEAF_NODE_CELL_SIZE as u64) + (
        constants::NODE_CONTENT_OFFSET as u64) > (constants::PAGE_SIZE as u64) {
            return Err(DbError::CorruptNode);
        }
        let n = content_len as usize;
        let mut cells: Vec<Cell> = Vec::new();
        let mut i: usize = 0;
        while i < n
            invariant
                p@.len() == constants::PAGE_SIZE,
                n * constants::LEAF_NODE_CELL_SIZE + constants::NODE_CONTENT_OFFSET
                    <= constants::PAGE_SIZE,
                i <= n,
                cells@.len() == i,
                forall|j: int|
                    0 <= j < i ==> (#[trigger] cells@[j])@ == spec_decode_cell(
                        p@.skip(constants::NODE_CONTENT_OFFSET as int),
                        j,
                    ),
            decreases n - i,
        {
            proof {
                assert(i * constants::LEAF_NODE_CELL_SIZE + constants::LEAF_NODE_CELL_SIZE <= n
                    * constants::LEAF_NODE_CELL_SIZE) by (nonlinear_arith)
                    requires
                        i < n,
                ;
            }
            let off = constants::NODE_CONTENT_OFFSET as usize + i * (
            constants::LEAF_NODE_CELL_SIZE as usize);
            let key = u32_from_le_bytes(slice_subrange(p.as_slice(), off, off + 4));
            let value = slice_to_vec(
                slice_subrange(
                    p.as_slice(),
                    off + 4,
                    off + constants::LEAF_NODE_CELL_SIZE as usize,
                ),
            );
            proof {
                let body = p@.skip(constants::NODE_CONTENT_OFFSET as int);
                assert((i + 1) * constants::LEAF_NODE_CELL_SIZE == i
                    * constants::LEAF_NODE_CELL_SIZE + constants::LEAF_NODE_CELL_SIZE)
                    by (nonlinear_arith);
                assert(p@.subrange(off as int, off + 4) =~= body.subrange(
                    i * constants::LEAF_NODE_CELL_SIZE,
                    i * constants::LEAF_NODE_CELL_SIZE + 4,
                ));
                assert(p@.subrange(off + 4, off + constants::LEAF_NODE_CELL_SIZE) =~= body.subrange(
                    i * constants::LEAF_NODE_CELL_SIZE + 4,
                    (i + 1) * constants::LEAF_NODE_CELL_SIZE,
                ));
            }
            cells.push(Cell { key, value });
            i = i + 1;
        }
        proof {
            assert(cells@.map_values(|c: Cell| c@) =~= spec_decode_cells(
                p@.skip(constants::NODE_CONTENT_OFFSET as int),
                content_len as nat,
            ));
        }
        Ok(NodeType::NodeLeaf(cells))
    } else {
        Err(DbError::InvalidNodeType)
    }
}

/// Decodes one page into a node; the inverse of `Node::to_page`.
pub fn get_node(p: &Page) -> (r: Result<Node, DbError>)
    requires
        p@.len() == constants::PAGE_SIZE,
    ensures
        match r {
            Ok(node) => spec_decode_node(p@) == Some(node@) && node@.wf(),
            Err(e) => {
                &&& spec_decode_node(p@) is None
                &&& (e == DbError::InvalidNodeType <==> (p@[0] != 0u8 && p@[0] != 1u8))
                &&& (e == DbError::InvalidNodeType || e == DbError::CorruptNode)
            },
        },
{
    match get_node_type(p) {
        Err(e) => Err(e),
        Ok(node_type) => {
            let node = Node { node_type, parent: get_parent(p), content_len: get_content_len(p) };
            Ok(node)
        },
    }
}

impl Node {
    /// Encodes the node into the persisted, bit-exact page form.
    pub fn to_page(&self) -> (p: Page)
        requires
            self@.wf(),
        ensures
            p@ == spec_encode_node(self@),
            p@.len() == constants::PAGE_SIZE,
    {
        let ghost content = spec_content_bytes(self@.node_type);
        let mut p: Vec<u8> = Vec::new();
        match &self.node_type {
            NodeType::NodeInternal(children) => {
                p.push(0u8);
                let mut parent_bytes = u32_to_le_bytes(self.parent);
                p.append(&mut parent_bytes);
                let mut len_bytes = u32_to_le_bytes(self.content_len);
                p.append(&mut len_bytes);
                let ghost header = p@;
                let n = children.len();
                let mut i: usize = 0;
                while i < n
                    invariant
                        i <= n,
                        n == children@.len(),
                        p@ == header + spec_children_bytes(children@.take(i as int)),
                    decreases n - i,
                {
                    let mut child_bytes = u32_to_le_bytes(children[i]);
                    proof {
                        lemma_children_bytes_push(children@.take(i as int), children@[i as int]);
                        assert(children@.take(i + 1) =~= children@.take(i as int).push(
                            children@[i as int],
                        ));
                    }
                    p.append(&mut child_bytes);
                    proof {
                        assert(p@ =~= header + spec_children_bytes(children@.take(i + 1)));
                    }
                    i = i + 1;
                }
                proof {
                    assert(children@.take(n as int) =~= children@);
                    lemma_children_bytes_len(children@);
                }
            },
            NodeType::NodeLeaf(cells) => {
                p.push(1u8);
                let mut parent_bytes = u32_to_le_bytes(self.parent);
                p.append(&mut parent_bytes);
                let mut len_bytes = u32_to_le_bytes(self.content_len);
                p.append(&mut len_bytes);
                let ghost header = p@;
                let ghost cell_views = cells@.map_values(|c: Cell| c@);
                let n = cells.len();
                let mut i: usize = 0;
                while i < n
                    invariant
                        i <= n,
                        n == cells@.len(),
                        cell_views == cells@.map_values(|c: Cell| c@),
                        forall|j: int| 0 <= j < n ==> (#[trigger] cell_views[j]).wf(),
                        p@ == header + spec_cells_bytes(cell_views.take(i as int)),
                    decreases n - i,
                {
                    let mut key_bytes = u32_to_le_bytes(cells[i].key);
                    proof {
                        lemma_cells_bytes_push(cell_views.take(i as int), cell_views[i as int]);
                        assert(cell_views.take(i + 1) =~= cell_views.take(i as int).push(
                            cell_views[i as int],
                        ));
                    }
                    p.append(&mut key_bytes);
                    p.extend_from_slice(cells[i].value.as_slice());
                    proof {
                        assert(p@ =~= header + spec_cells_bytes(cell_views.take(i + 1)));
                    }
                    i = i + 1;
                }
                proof {
                    assert(cell_views.take(n as int) =~= cell_views);
                    lemma_cells_bytes_len(cell_views);
                }
            },
        }
        let ghost filled = p@;
        proof {
            assert(filled == seq![spec_tag(self@.node_type)] + spec_u32_to_le_bytes(self.parent)
                + spec_u32_to_le_bytes(self.content_len) + content);
            vstd::bytes::lemma_auto_spec_u32_to_from_le_bytes();
        }
        while p.len() < constants::PAGE_SIZE as usize
            invariant
                filled.len() <= p@.len() <= constants::PAGE_SIZE,
                p@.subrange(0, filled.len() as int) == filled,
                forall|j: int| filled.len() <= j < p@.len() ==> p@[j] == 0u8,
            decreases constants::PAGE_SIZE - p@.len(),
        {
            p.push(0u8);
            proof {
                assert(p@.subrange(0, filled.len() as int) =~= filled);
            }
        }
        proof {
            assert(p@ =~= filled + zero_seq((constants::PAGE_SIZE - filled.len()) as nat));
            assert(p@ =~= spec_encode_node(self@));
        }
        p
    }
}

/// The ordering keys of a node's content: child page numbers of an internal
/// node, or the cells' keys of a leaf.
pub open spec fn spec_keys(nt: NodeTypeView) -> Seq<u32> {
    match nt {
        NodeTypeView::Internal(children) => children,
        NodeTypeView::Leaf(cells) => cells.map_values(|c: CellView| c.key),
    }
}

/// Keys ascend (duplicates allowed).
pub open spec fn keys_sorted(keys: Seq<u32>) -> bool {
    forall|i: int, j: int| 0 <= i <= j < keys.len() ==> keys[i] <= keys[j]
}

/// Keys ascend strictly: no duplicates.
pub open spec fn keys_strictly_sorted(keys: Seq<u32>) -> bool {
    forall|i: int, j: int| 0 <= i < j < keys.len() ==> keys[i] < keys[j]
}

/// The first index whose key exceeds `k`, or the length when none does:
/// where an ordered insert of `k` lands.
pub open spec fn spec_insert_pos(keys: Seq<u32>, k: u32) -> int
    decreases keys.len(),
{
    if keys.len() == 0 {
        0
    } else if keys[0] > k {
        0
    } else {
        1 + spec_insert_pos(keys.skip(1), k)
    }
}

/// `spec_insert_pos` is in range, everything before it is at most `k`, and
/// the entry at it (when there is one) exceeds `k`.
pub proof fn lemma_insert_pos_properties(keys: Seq<u32>, k: u32)
    ensures
        0 <= spec_insert_pos(keys, k) <= keys.len(),
        forall|j: int| 0 <= j < spec_insert_pos(keys, k) ==> keys[j] <= k,
        spec_insert_pos(keys, k) < keys.len() ==> keys[spec_insert_pos(keys, k)] > k,
    decreases keys.len(),
{
    if keys.len() > 0 && keys[0] <= k {
        lemma_insert_pos_properties(keys.skip(1), k);
        let pos = spec_insert_pos(keys, k);
        assert(pos == 1 + spec_insert_pos(keys.skip(1), k));
        assert forall|j: int| 0 <= j < pos implies keys[j] <= k by {
            if j >= 1 {
                assert(keys.skip(1)[j - 1] == keys[j]);
            }
        }
        if pos < keys.len() {
            assert(keys.skip(1)[pos - 1] == keys[pos]);
        }
    }
}

/// Any index with those three properties is `spec_insert_pos`.
pub proof fn lemma_insert_pos_unique(keys: Seq<u32>, k: u32, i: int)
    requires
        0 <= i <= keys.len(),
        forall|j: int| 0 <= j < i ==> keys[j] <= k,
        i < keys.len() ==> keys[i] > k,
    ensures
        i == spec_insert_pos(keys, k),
    decreases keys.len(),
{
    if keys.len() == 0 {
    } else if keys[0] > k {
        assert(i == 0);
    } else {
        assert(i >= 1);
        lemma_insert_pos_unique(keys.skip(1), k, i - 1);
    }
}

/// The node after an ordered insert of `c`: the cell (or, for an internal
/// node, its key) lands at `spec_insert_pos` and the content length grows
/// by one.
pub open spec fn spec_insert_cell(n: NodeView, c: CellView) -> NodeView {
    match n.node_type {
        NodeTypeView::Internal(children) => NodeView {
            node_type: NodeTypeView::Internal(
                children.insert(spec_insert_pos(children, c.key), c.key),
            ),
            parent: n.parent,
            content_len: (n.content_len + 1) as u32,
        },
        NodeTypeView::Leaf(cells) => NodeView {
            node_type: NodeTypeView::Leaf(
                cells.insert(spec_insert_pos(spec_keys(n.node_type), c.key), c),
            ),
            parent: n.parent,
            content_len: (n.content_len + 1) as u32,
        },
    }
}

/// Ordering invariant: every `insert_cell` call on a node with ascending
/// keys leaves the keys ascending — so any sequence of inserts, starting
/// from an empty node, keeps them ascending throughout.
pub proof fn lemma_insert_cell_keeps_sorted(n: NodeView, c: CellView)
    requires
        keys_sorted(spec_keys(n.node_type)),
    ensures
        keys_sorted(spec_keys(spec_insert_cell(n, c).node_type)),
{
    let keys = spec_keys(n.node_type);
    let k = c.key;
    let pos = spec_insert_pos(keys, k);
    lemma_insert_pos_properties(keys, k);
    let new_keys = keys.insert(pos, k);
    assert(spec_keys(spec_insert_cell(n, c).node_type) =~= new_keys);
    assert forall|i: int, j: int| 0 <= i <= j < new_keys.len() implies new_keys[i]
        <= new_keys[j] by {
        if i < pos {
            assert(new_keys[i] == keys[i]);
        }
        if j < pos {
            assert(new_keys[j] == keys[j]);
        }
        if i > pos {
            assert(new_keys[i] == keys[i - 1]);
        }
        if j > pos {
            assert(new_keys[j] == keys[j - 1]);
        }
    }
}

/// Ordering invariant, strict form: inserting a key that is not yet present
/// into a node with strictly ascending keys keeps them strictly ascending —
/// the codec itself introduces no duplicates. (Suppressing duplicate keys
/// is the cursor's job, not the codec's.)
pub proof fn lemma_insert_cell_keeps_strictly_sorted(n: NodeView, c: CellView)
    requires
        keys_strictly_sorted(spec_keys(n.node_type)),
        !spec_keys(n.node_type).contains(c.key),
    ensures
        keys_strictly_sorted(spec_keys(spec_insert_cell(n, c).node_type)),
{
    let keys = spec_keys(n.node_type);
    let k = c.key;
    let pos = spec_insert_pos(keys, k);
    lemma_insert_pos_properties(keys, k);
    let new_keys = keys.insert(pos, k);
    assert(spec_keys(spec_insert_cell(n, c).node_type) =~= new_keys);
    assert forall|i: int, j: int| 0 <= i < j < new_keys.len() implies new_keys[i]
        < new_keys[j] by {
        if i < pos {
            assert(new_keys[i] == keys[i]);
        }
        if j < pos {
            assert(new_keys[j] == keys[j]);
        }
        if i > pos {
            assert(new_keys[i] == keys[i - 1]);
        }
        if j > pos {
            assert(new_keys[j] == keys[j - 1]);
        }
        if i == pos && j > pos {
            assert(keys[j - 1] != k);
            assert(keys[j - 1] <= k ==> false) by {
                if keys[j - 1] <= k && pos < keys.len() {
                    assert(keys[pos] > k);
                    assert(keys[pos] <= keys[j - 1]);
                }
            }
        }
        if j == pos && i < pos {
            assert(keys[i] != k);
        }
    }
}

impl Node {
    /// Ordered insert: for a leaf the cell, for an internal node the cell's
    /// key as a new child pointer, placed so that ascending keys stay
    /// ascending; `content_len` grows by one.
    pub fn insert_cell(&mut self, cell: Cell)
        requires
            old(self)@.content_len < u32::MAX,
        ensures
            final(self)@ == spec_insert_cell(old(self)@, cell@),
    {
        match &mut self.node_type {
            NodeType::NodeInternal(children) => {
                let ghost keys = children@;
                let n = children.len();
                let mut i: usize = 0;
                while i < n && children[i] <= cell.key
                    invariant
                        i <= n,
                        n == children@.len(),
                        children@ == keys,
                        forall|j: int| 0 <= j < i ==> keys[j] <= cell@.key,
                    decreases n - i,
                {
                    i = i + 1;
                }
                proof {
                    lemma_insert_pos_unique(keys, cell@.key, i as int);
                }
                children.insert(i, cell.key);
            },
            NodeType::NodeLeaf(cells) => {
                let ghost cell_views = cells@.map_values(|c: Cell| c@);
                let ghost keys = spec_keys(NodeTypeView::Leaf(cell_views));
                proof {
                    assert(keys.len() == cell_views.len());
                    assert forall|j: int| 0 <= j < cell_views.len() implies keys[j]
                        == cell_views[j].key by {
                        assert(keys == cell_views.map_values(|c: CellView| c.key));
                    }
                }
                let n = cells.len();
                let mut i: usize = 0;
                while i < n && cells[i].key <= cell.key
                    invariant
                        i <= n,
                        n == cells@.len(),
                        cells@.map_values(|c: Cell| c@) == cell_views,
                        keys.len() == cell_views.len(),
                        forall|j: int| 0 <= j < cell_views.len() ==> keys[j] == (
                        #[trigger] cell_views[j]).key,
                        forall|j: int| 0 <= j < i ==> keys[j] <= cell@.key,
                    decreases n - i,
                {
                    proof {
                        assert(cell_views[i as int] == cells@[i as int]@);
                        assert(keys[i as int] == cell_views[i as int].key);
                    }
                    i = i + 1;
                }
                proof {
                    if i < n {
                        assert(cell_views[i as int] == cells@[i as int]@);
                        assert(keys[i as int] == cell_views[i as int].key);
                    }
                    lemma_insert_pos_unique(keys, cell@.key, i as int);
                }
                cells.insert(i, cell);
                proof {
                    assert(cells@.map_values(|c: Cell| c@) =~= cell_views.insert(
                        i as int,
                        cell@,
                    ));
                }
            },
        }
        self.content_len = self.content_len + 1;
    }
}

/// Leaf cells ascend by key (duplicates allowed): the data-model invariant
/// of a leaf node.
pub open spec fn leaf_sorted(cells: Seq<CellView>) -> bool {
    forall|i: int, j: int|
        0 <= i <= j < cells.len() ==> (#[trigger] cells[i]).key <= (#[trigger] cells[j]).key
}

/// Some cell of the leaf carries key `k`.
pub open spec fn leaf_contains_key(cells: Seq<CellView>, k: u32) -> bool {
    exists|i: int| 0 <= i < cells.len() && (#[trigger] cells[i]).key == k
}

/// A leaf's cells ascend exactly when its key sequence does: the ordering
/// that `insert_cell` maintains is the one lookups rely on.
pub proof fn lemma_leaf_sorted_iff_keys_sorted(cells: Seq<CellView>)
    ensures
        leaf_sorted(cells) <==> keys_sorted(spec_keys(NodeTypeView::Leaf(cells))),
{
    let keys = spec_keys(NodeTypeView::Leaf(cells));
    assert(keys.len() == cells.len());
    assert forall|i: int| 0 <= i < cells.len() implies keys[i] == (#[trigger] cells[i]).key by {
        assert(keys == cells.map_values(|c: CellView| c.key));
    }
}

/// Ordering invariant at the leaf: an ordered insert into a leaf whose
/// cells ascend leaves a leaf whose cells ascend — the very premise the
/// keyed lookup relies on.
pub proof fn lemma_insert_cell_keeps_leaf_sorted(n: NodeView, c: CellView)
    requires
        n.node_type is Leaf,
        leaf_sorted(n.node_type->Leaf_0),
    ensures
        spec_insert_cell(n, c).node_type is Leaf,
        leaf_sorted(spec_insert_cell(n, c).node_type->Leaf_0),
{
    lemma_leaf_sorted_iff_keys_sorted(n.node_type->Leaf_0);
    lemma_insert_cell_keeps_sorted(n, c);
    lemma_leaf_sorted_iff_keys_sorted(spec_insert_cell(n, c).node_type->Leaf_0);
}

/// The cell a row is wrapped into: keyed by the row's id, valued by the
/// row's encoding.
pub open spec fn spec_cell_of_row(r: crate::table::RowView) -> CellView {
    CellView { key: r.id, value: spec_serialize_row(r) }
}

/// An ordered insert keeps the bookkeeping invariant.
pub proof fn lemma_insert_cell_wf_data(n: NodeView, c: CellView)
    requires
        n.wf_data(),
        c.wf(),
        n.content_len < u32::MAX,
    ensures
        spec_insert_cell(n, c).wf_data(),
{
    match n.node_type {
        NodeTypeView::Internal(children) => {
            lemma_insert_pos_properties(children, c.key);
        },
        NodeTypeView::Leaf(cells) => {
            let keys = spec_keys(n.node_type);
            assert(keys.len() == cells.len());
            lemma_insert_pos_properties(keys, c.key);
            let pos = spec_insert_pos(keys, c.key);
            let new_cells = cells.insert(pos, c);
            assert forall|i: int| 0 <= i < new_cells.len() implies (#[trigger] new_cells[i]).wf() by {
                if i < pos {
                    assert(new_cells[i] == cells[i]);
                } else if i > pos {
                    assert(new_cells[i] == cells[i - 1]);
                }
            }
        },
    }
}

/// The empty leaf node with no parent: what a brand-new table's root is.
pub open spec fn spec_new_leaf() -> NodeView {
    NodeView {
        node_type: NodeTypeView::Leaf(Seq::<CellView>::empty()),
        parent: 0,
        content_len: 0,
    }
}

/// Constructs an empty leaf node with no parent.
pub fn new_leaf() -> (n: Node)
    ensures
        n@ == spec_new_leaf(),
        n@.wf(),
{
    let n = Node { node_type: NodeType::NodeLeaf(Vec::new()), parent: 0, content_len: 0 };
    proof {
        assert(n@.node_type->Leaf_0 =~= Seq::<CellView>::empty());
    }
    n
}

} // verus!
