use vstd::prelude::*;

use vstd::bytes::{spec_u32_from_le_bytes, spec_u32_to_le_bytes, u32_from_le_bytes, u32_to_le_bytes};
use vstd::slice::{slice_subrange, slice_to_vec};

use crate::btree::{get_node, new_leaf, spec_decode_node, Node, NodeTypeView, NodeView};
use crate::constants;
use crate::error::DbError;

verus! {

/// The mathematical value of a `Pager`: the bytes the backing file held
/// when it was opened, the next-free page counter, and the cache arena.
pub struct PagerView {
    pub file_image: Seq<u8>,
    pub num_pages: u32,
    pub pages: Seq<Option<NodeView>>,
}

impl PagerView {
    /// The cache arena spans all addressable page numbers, the file is a
    /// whole number of pages that a 32-bit length can count, and every
    /// cached node keeps its bookkeeping invariant.
    pub open spec fn wf(self) -> bool {
        &&& self.pages.len() == constants::TABLE_MAX_PAGES
        &&& self.file_image.len() % (constants::PAGE_SIZE as nat) == 0
        &&& self.file_image.len() <= u32::MAX
        &&& forall|i: int|
            0 <= i < self.pages.len() ==> match #[trigger] self.pages[i] {
                Some(n) => n.wf_data(),
                None => true,
            }
    }

    /// The node a page number resolves to: the cached node when present,
    /// else whatever the on-disk page decodes to, else nothing.
    pub open spec fn spec_lookup(self, page_num: int) -> Option<NodeView> {
        if self.pages[page_num] is Some {
            self.pages[page_num]
        } else if (page_num + 1) * (constants::PAGE_SIZE as nat) <= self.file_image.len() {
            spec_decode_node(
                self.file_image.subrange(
                    page_num * (constants::PAGE_SIZE as nat),
                    (page_num + 1) * (constants::PAGE_SIZE as nat),
                ),
            )
        } else {
            None
        }
    }
}

/// Owns the backing file's bytes and the page cache. Pages fault in from
/// the file image on demand and stay resident; `flush` renders the cache
/// back into file bytes. The caller does the actual file I/O.
#[derive(Debug)]
pub struct Pager {
    pub file_image: Vec<u8>,
    pub num_pages: u32,
    pub pages: Vec<Option<Node>>,
}

impl View for Pager {
    type V = PagerView;

    open spec fn view(&self) -> PagerView {
        PagerView {
            file_image: self.file_image@,
            num_pages: self.num_pages,
            pages: self.pages@.map_values(
                |o: Option<Node>|
                    match o {
                        Some(n) => Some(n@),
                        None => None::<NodeView>,
                    },
            ),
        }
    }
}

impl Pager {
    /// Opens a pager over the bytes of the backing file; a length that is
    /// not a whole number of pages is a corrupt file and is refused.
    pub fn open(file_bytes: Vec<u8>) -> (r: Result<Pager, DbError>)
        requires
            file_bytes@.len() <= u32::MAX,
        ensures
            match r {
                Ok(p) => {
                    &&& file_bytes@.len() % (constants::PAGE_SIZE as nat) == 0
                    &&& p@.wf()
                    &&& p@.file_image == file_bytes@
                    &&& p@.num_pages == file_bytes@.len() / (constants::PAGE_SIZE as nat)
                    &&& forall|i: int| 0 <= i < p@.pages.len() ==> p@.pages[i] is None
                },
                Err(e) => {
                    &&& e == DbError::CorruptFile
                    &&& file_bytes@.len() % (constants::PAGE_SIZE as nat) != 0
                },
            },
    {
        let file_length = file_bytes.len();
        if file_length % (constants::PAGE_SIZE as usize) != 0 {
            return Err(DbError::CorruptFile);
        }
        let num_pages = (file_length / (constants::PAGE_SIZE as usize)) as u32;
        let mut pages: Vec<Option<Node>> = Vec::new();
        let mut i: usize = 0;
        while i < constants::TABLE_MAX_PAGES as usize
            invariant
                i <= constants::TABLE_MAX_PAGES,
                pages@.len() == i,
                forall|j: int| 0 <= j < i ==> pages@[j] is None,
            decreases constants::TABLE_MAX_PAGES - i,
        {
            pages.push(None);
            i = i + 1;
        }
        let p = Pager { file_image: file_bytes, num_pages, pages };
        Ok(p)
    }

    /// Allocates the next unused page number — a monotonic counter, never
    /// reused — and caches `page` under it. Nothing is persisted yet.
    pub fn insert_page(&mut self, page: Node) -> (r: Result<u32, DbError>)
        requires
            old(self)@.wf(),
            page@.wf_data(),
        ensures
            final(self)@.wf(),
            final(self)@.file_image == old(self)@.file_image,
            match r {
                Ok(pn) => {
                    &&& old(self)@.num_pages < constants::TABLE_MAX_PAGES
                    &&& pn == old(self)@.num_pages
                    &&& final(self)@.num_pages == old(self)@.num_pages + 1
                    &&& final(self)@.pages == old(self)@.pages.update(pn as int, Some(page@))
                },
                Err(e) => {
                    &&& e == DbError::OutOfBounds
                    &&& old(self)@.num_pages >= constants::TABLE_MAX_PAGES
                    &&& *final(self) == *old(self)
                },
            },
    {
        if self.num_pages >= constants::TABLE_MAX_PAGES {
            return Err(DbError::OutOfBounds);
        }
        let page_num = self.num_pages;
        self.pages[page_num as usize] = Some(page);
        self.num_pages = page_num + 1;
        proof {
            assert(self@.pages =~= old(self)@.pages.update(page_num as int, Some(page@)));
        }
        Ok(page_num)
    }

    /// Returns the node for `page_num`, faulting it in from the file image
    /// and caching it when it is not resident yet. Fails with `OutOfBounds`
    /// past `TABLE_MAX_PAGES` and with `PageMissing` when the page is
    /// neither cached nor readable from the file.
    pub fn get_page(&mut self, page_num: u32) -> (r: Result<Node, DbError>)
        requires
            old(self)@.wf(),
        ensures
            final(self)@.wf(),
            final(self)@.file_image == old(self)@.file_image,
            final(self)@.num_pages == old(self)@.num_pages,
            match r {
                Ok(node) => {
                    &&& page_num < constants::TABLE_MAX_PAGES
                    &&& old(self)@.spec_lookup(page_num as int) == Some(node@)
                    &&& final(self)@.pages == old(self)@.pages.update(
                        page_num as int,
                        Some(node@),
                    )
                    &&& node@.wf_data()
                    &&& (old(self)@.pages[page_num as int] is Some ==> *final(self) == *old(self))
                },
                Err(e) => {
                    &&& *final(self) == *old(self)
                    &&& (page_num < constants::TABLE_MAX_PAGES ==> old(self)@.spec_lookup(
                        page_num as int,
                    ) is None)
                    &&& (e == DbError::OutOfBounds <==> page_num >= constants::TABLE_MAX_PAGES)
                    &&& (e == DbError::OutOfBounds || e == DbError::PageMissing)
                },
            },
    {
        if page_num >= constants::TABLE_MAX_PAGES {
            return Err(DbError::OutOfBounds);
        }
        let idx = page_num as usize;
        proof {
            assert(self@.pages[page_num as int] == match self.pages@[page_num as int] {
                Some(n) => Some(n@),
                None => None::<NodeView>,
            });
        }
        if self.pages[idx].is_some() {
            let node = self.pages[idx].as_ref().unwrap().clone();
            proof {
                assert(old(self)@.pages.update(page_num as int, Some(node@))
                    =~= old(self)@.pages);
            }
            return Ok(node);
        }
        let start = idx * (constants::PAGE_SIZE as usize);
        let end = start + constants::PAGE_SIZE as usize;
        if end > self.file_image.len() {
            return Err(DbError::PageMissing);
        }
        let page_bytes = slice_to_vec(slice_subrange(self.file_image.as_slice(), start, end));
        match get_node(&page_bytes) {
            Err(_) => Err(DbError::PageMissing),
            Ok(node) => {
                let copy = node.clone();
                self.pages[idx] = Some(node);
                proof {
                    assert(self@.pages =~= old(self)@.pages.update(page_num as int, Some(copy@)));
                }
                Ok(copy)
            },
        }
    }

    /// Renders every cached page back into the file image at its offset,
    /// extending the image with zero bytes where a cached page lies past
    /// the end. The caller writes the returned bytes to disk and syncs.
    /// Fails with `PageOverflow` when some cached node has outgrown a page
    /// — the one-leaf capacity boundary of this design surfaces here.
    pub fn flush(&self) -> (r: Result<Vec<u8>, DbError>)
        requires
            self@.wf(),
        ensures
            match r {
                Ok(img) => {
                    &&& forall|i: int|
                        0 <= i < self@.pages.len() ==> (#[trigger] self@.pages[i] matches Some(n)
                            ==> n.fits())
                    &&& img@ == spec_flush(self@)
                },
                Err(e) => {
                    &&& e == DbError::PageOverflow
                    &&& exists|i: int|
                        0 <= i < self@.pages.len() && (#[trigger] self@.pages[i] matches Some(n)
                            && !n.fits())
                },
            },
    {
        let mut img: Vec<u8> = slice_to_vec(self.file_image.as_slice());
        let mut i: usize = 0;
        proof {
            assert(img@ == spec_flush_upto(self@, 0));
        }
        while i < constants::TABLE_MAX_PAGES as usize
            invariant
                self@.wf(),
                i <= constants::TABLE_MAX_PAGES,
                self.pages@.len() == constants::TABLE_MAX_PAGES,
                forall|j: int|
                    0 <= j < i ==> (#[trigger] self@.pages[j] matches Some(n) ==> n.fits()),
                img@ == spec_flush_upto(self@, i as int),
            decreases constants::TABLE_MAX_PAGES - i,
        {
            proof {
                assert(self@.pages[i as int] == match self.pages@[i as int] {
                    Some(n) => Some(n@),
                    None => None::<NodeView>,
                });
            }
            match &self.pages[i] {
                None => {},
                Some(node) => {
                    if !node.fits() {
                        return Err(DbError::PageOverflow);
                    }
                    let page = node.to_page();
                    write_page_into(&mut img, i, &page);
                },
            }
            i = i + 1;
        }
        Ok(img)
    }

    /// Caches `node` under `page_num`, replacing whatever the slot held.
    pub fn put_page(&mut self, page_num: u32, node: Node)
        requires
            old(self)@.wf(),
            page_num < constants::TABLE_MAX_PAGES,
            node@.wf_data(),
        ensures
            final(self)@.wf(),
            final(self)@.file_image == old(self)@.file_image,
            final(self)@.num_pages == old(self)@.num_pages,
            final(self)@.pages == old(self)@.pages.update(page_num as int, Some(node@)),
    {
        self.pages[page_num as usize] = Some(node);
        proof {
            assert(self@.pages =~= old(self)@.pages.update(page_num as int, Some(node@)));
        }
    }

    /// Reads a cached node without touching the cache. The caller must know
    /// the page is resident — the table's root always is.
    pub fn cached_node(&self, page_num: u32) -> (r: &Node)
        requires
            page_num < self.pages@.len(),
            self@.pages[page_num as int] is Some,
        ensures
            Some(r@) == self@.pages[page_num as int],
    {
        proof {
            assert(self@.pages[page_num as int] == match self.pages@[page_num as int] {
                Some(n) => Some(n@),
                None => None::<NodeView>,
            });
        }
        self.pages[page_num as usize].as_ref().unwrap()
    }

    /// How many pages the cache currently holds.
    pub fn num_cached_pages(&self) -> (r: usize)
        ensures
            r == self@.pages.filter(|o: Option<NodeView>| o is Some).len(),
    {
        let ghost target = self@.pages.filter(|o: Option<NodeView>| o is Some);
        let mut count: usize = 0;
        let mut i: usize = 0;
        proof {
            assert(self@.pages.take(0) =~= Seq::<Option<NodeView>>::empty());
            assert(self@.pages.take(0).filter(|o: Option<NodeView>| o is Some) =~= Seq::<
                Option<NodeView>,
            >::empty());
        }
        while i < self.pages.len()
            invariant
                i <= self.pages@.len(),
                self@.pages.len() == self.pages@.len(),
                count == self@.pages.take(i as int).filter(|o: Option<NodeView>| o is Some).len(),
                count <= i,
            decreases self.pages@.len() - i,
        {
            proof {
                let pred = |o: Option<NodeView>| o is Some;
                let t = self@.pages.take(i + 1);
                reveal_with_fuel(Seq::filter, 2);
                assert(t.len() == i + 1);
                assert(t.drop_last() =~= self@.pages.take(i as int));
                assert(t.last() == self@.pages[i as int]);
                assert(t.filter(pred) == if pred(t.last()) {
                    t.drop_last().filter(pred).push(t.last())
                } else {
                    t.drop_last().filter(pred)
                });
                assert(self@.pages[i as int] == match self.pages@[i as int] {
                    Some(n) => Some(n@),
                    None => None::<NodeView>,
                });
            }
            if self.pages[i].is_some() {
                count = count + 1;
            }
            i = i + 1;
        }
        proof {
            assert(self@.pages.take(self.pages@.len() as int) =~= self@.pages);
        }
        count
    }
}

/// `img` with `bytes` written over page slot `i`, after extending `img`
/// with zero bytes when it ends before that slot.
pub open spec fn spec_write_page(img: Seq<u8>, i: int, bytes: Seq<u8>) -> Seq<u8> {
    let end = (i + 1) * (constants::PAGE_SIZE as int);
    let extended = if img.len() >= end {
        img
    } else {
        img + crate::utils::zero_seq((end - img.len()) as nat)
    };
    extended.subrange(0, i * (constants::PAGE_SIZE as int)) + bytes + extended.subrange(
        end,
        extended.len() as int,
    )
}

/// The file image after the first `n` cache slots are written back.
pub open spec fn spec_flush_upto(p: PagerView, n: int) -> Seq<u8>
    decreases n,
{
    if n <= 0 {
        p.file_image
    } else {
        match p.pages[n - 1] {
            Some(node) => spec_write_page(
                spec_flush_upto(p, n - 1),
                n - 1,
                crate::btree::spec_encode_node(node),
            ),
            None => spec_flush_upto(p, n - 1),
        }
    }
}

/// The file image `Pager::flush` produces: the opened image overlaid with
/// every cached page's encoding.
pub open spec fn spec_flush(p: PagerView) -> Seq<u8> {
    spec_flush_upto(p, constants::TABLE_MAX_PAGES as int)
}

/// Writes one encoded page over slot `i` of the in-memory file image,
/// extending the image with zero bytes first when it is too short.
fn write_page_into(img: &mut Vec<u8>, i: usize, page: &Vec<u8>)
    requires
        page@.len() == constants::PAGE_SIZE,
        i < constants::TABLE_MAX_PAGES,
    ensures
        final(img)@ == spec_write_page(old(img)@, i as int, page@),
{
    let end = (i + 1) * (constants::PAGE_SIZE as usize);
    while img.len() < end
        invariant
            end == (i + 1) * (constants::PAGE_SIZE as int),
            old(img)@.len() <= img@.len(),
            img@.len() <= end || img@.len() == old(img)@.len(),
            img@.subrange(0, old(img)@.len() as int) == old(img)@,
            forall|j: int| old(img)@.len() <= j < img@.len() ==> img@[j] == 0u8,
        decreases end - img@.len(),
    {
        img.push(0u8);
        proof {
            assert(img@.subrange(0, old(img)@.len() as int) =~= old(img)@);
        }
    }
    let ghost extended = img@;
    proof {
        if old(img)@.len() >= end {
            assert(extended == old(img)@);
        } else {
            assert(extended =~= old(img)@ + crate::utils::zero_seq(
                (end - old(img)@.len()) as nat,
            ));
        }
        assert(extended.len() >= end);
    }
    let start = i * (constants::PAGE_SIZE as usize);
    let mut k: usize = 0;
    while k < constants::PAGE_SIZE as usize
        invariant
            k <= constants::PAGE_SIZE,
            start == i * (constants::PAGE_SIZE as int),
            end == (i + 1) * (constants::PAGE_SIZE as int),
            start + constants::PAGE_SIZE == end,
            page@.len() == constants::PAGE_SIZE,
            extended.len() >= end,
            img@.len() == extended.len(),
            img@.subrange(0, start as int) == extended.subrange(0, start as int),
            forall|j: int| 0 <= j < k ==> img@[start + j] == page@[j],
            img@.subrange(end as int, img@.len() as int) == extended.subrange(
                end as int,
                extended.len() as int,
            ),
            forall|j: int| start + k <= j < end ==> img@[j] == extended[j],
        decreases constants::PAGE_SIZE - k,
    {
        img[start + k] = page[k];
        proof {
            assert(img@.subrange(0, start as int) =~= extended.subrange(0, start as int));
            assert(img@.subrange(end as int, img@.len() as int) =~= extended.subrange(
                end as int,
                extended.len() as int,
            ));
        }
        k = k + 1;
    }
    proof {
        assert(img@ =~= extended.subrange(0, start as int) + page@ + extended.subrange(
            end as int,
            extended.len() as int,
        ));
    }
}

/// The mathematical value of a `Row`.
pub struct RowView {
    pub id: u32,
    pub username: Seq<u8>,
    pub email: Seq<u8>,
}

impl RowView {
    /// Field sizes are fixed: 32 bytes of username, 255 of email.
    pub open spec fn wf(self) -> bool {
        &&& self.username.len() == constants::USERNAME_SIZE
        &&& self.email.len() == constants::EMAIL_SIZE
    }
}

/// A logical record: `id`, a fixed 32-byte username field and a fixed
/// 255-byte email field. Total encoded size is `ROW_SIZE` bytes.
#[derive(Clone, Debug)]
pub struct Row {
    pub id: u32,
    pub username: Vec<u8>,
    pub email: Vec<u8>,
}

impl View for Row {
    type V = RowView;

    open spec fn view(&self) -> RowView {
        RowView { id: self.id, username: self.username@, email: self.email@ }
    }
}

impl Row {
    /// A zeroed row: id 0, all username and email bytes 0.
    pub fn new() -> (r: Row)
        ensures
            r@.wf(),
            r@.id == 0,
            r@.username == crate::utils::zero_seq(constants::USERNAME_SIZE as nat),
            r@.email == crate::utils::zero_seq(constants::EMAIL_SIZE as nat),
    {
        Row {
            id: 0,
            username: crate::utils::zero_vec(constants::USERNAME_SIZE as usize),
            email: crate::utils::zero_vec(constants::EMAIL_SIZE as usize),
        }
    }
}

/// The `ROW_SIZE` bytes of a row: little-endian id, then the raw username
/// bytes, then the raw email bytes.
pub open spec fn spec_serialize_row(r: RowView) -> Seq<u8> {
    spec_u32_to_le_bytes(r.id) + r.username + r.email
}

/// The row read back from the first `ROW_SIZE` bytes of `b`.
pub open spec fn spec_deserialize_row(b: Seq<u8>) -> RowView {
    RowView {
        id: spec_u32_from_le_bytes(b.subrange(0, constants::ID_SIZE as int)),
        username: b.subrange(constants::ID_SIZE as int, (constants::ID_SIZE + constants::USERNAME_SIZE) as int),
        email: b.subrange((constants::ID_SIZE + constants::USERNAME_SIZE) as int, constants::ROW_SIZE as int),
    }
}

/// Writes the fixed-width encoding of `source` over the caller-provided
/// `ROW_SIZE`-byte window.
pub fn serialize_row(source: &Row, dest: &mut Vec<u8>)
    requires
        source@.wf(),
        old(dest)@.len() == constants::ROW_SIZE,
    ensures
        final(dest)@ == spec_serialize_row(source@),
{
    dest.clear();
    let mut id_bytes = u32_to_le_bytes(source.id);
    dest.append(&mut id_bytes);
    dest.extend_from_slice(source.username.as_slice());
    dest.extend_from_slice(source.email.as_slice());
}

/// Reads a row back from `source`; fails with `DecodeError` when fewer than
/// `ROW_SIZE` bytes are given.
pub fn deserialize_row(source: &[u8]) -> (r: Result<Row, DbError>)
    ensures
        match r {
            Ok(row) => source@.len() >= constants::ROW_SIZE && row@ == spec_deserialize_row(source@) && row@.wf(),
            Err(e) => source@.len() < constants::ROW_SIZE && e == DbError::DecodeError,
        },
{
    if source.len() < constants::ROW_SIZE as usize {
        return Err(DbError::DecodeError);
    }
    let id = u32_from_le_bytes(slice_subrange(source, 0, constants::ID_SIZE as usize));
    let username = slice_to_vec(slice_subrange(
        source,
        constants::ID_SIZE as usize,
        (constants::ID_SIZE + constants::USERNAME_SIZE) as usize,
    ));
    let email = slice_to_vec(slice_subrange(
        source,
        (constants::ID_SIZE + constants::USERNAME_SIZE) as usize,
        constants::ROW_SIZE as usize,
    ));
    Ok(Row { id, username, email })
}

/// Decoding inverts encoding: a well-formed row survives the trip through
/// its `ROW_SIZE`-byte form unchanged.
pub proof fn lemma_row_round_trip(r: RowView)
    requires
        r.wf(),
    ensures
        spec_deserialize_row(spec_serialize_row(r)) == r,
{
    vstd::bytes::lemma_auto_spec_u32_to_from_le_bytes();
    let b = spec_serialize_row(r);
    assert(b.subrange(0, 4) =~= spec_u32_to_le_bytes(r.id));
    assert(b.subrange(4, 36) =~= r.username);
    assert(b.subrange(36, 291) =~= r.email);
}

/// The root node a table opened over `bytes` starts with: the decoded first
/// page where there is a readable one, else a fresh empty leaf.
pub open spec fn spec_open_root(bytes: Seq<u8>) -> NodeView {
    if bytes.len() >= constants::PAGE_SIZE && spec_decode_node(
        bytes.subrange(0, constants::PAGE_SIZE as int),
    ) is Some {
        spec_decode_node(bytes.subrange(0, constants::PAGE_SIZE as int))->Some_0
    } else {
        crate::btree::spec_new_leaf()
    }
}

/// Owns exactly one pager and the root page number. The table is at most
/// one leaf page of records until split logic is added; the root page
/// number is always 0.
#[derive(Debug)]
pub struct Table {
    pub pager: Pager,
    pub root_page_num: u32,
}

impl Table {
    /// An open table: a well-formed pager whose root page is resident.
    pub open spec fn wf(self) -> bool {
        &&& self.pager@.wf()
        &&& self.root_page_num == 0
        &&& self.pager@.pages[0] is Some
    }

    /// The table's root node.
    pub open spec fn spec_root(self) -> NodeView {
        self.pager@.pages[0]->Some_0
    }

    /// Opens a table over the bytes of the backing file. A brand-new (empty)
    /// file, or one whose first page cannot be decoded, gets a fresh empty
    /// leaf as page 0; a file length that is not a whole number of pages is
    /// a corrupt file and is refused.
    pub fn db_open(file_bytes: Vec<u8>) -> (r: Result<Table, DbError>)
        requires
            file_bytes@.len() <= u32::MAX,
        ensures
            match r {
                Ok(t) => {
                    &&& file_bytes@.len() % (constants::PAGE_SIZE as nat) == 0
                    &&& t.wf()
                    &&& t.pager@.file_image == file_bytes@
                    &&& t.pager@.pages[0] == Some(spec_open_root(file_bytes@))
                    &&& forall|i: int| 1 <= i < t.pager@.pages.len() ==> t.pager@.pages[i] is None
                    &&& t.pager@.num_pages == if file_bytes@.len() == 0 {
                        1nat
                    } else {
                        file_bytes@.len() / (constants::PAGE_SIZE as nat)
                    }
                },
                Err(e) => {
                    &&& e == DbError::CorruptFile
                    &&& file_bytes@.len() % (constants::PAGE_SIZE as nat) != 0
                },
            },
    {
        let mut pager = match Pager::open(file_bytes) {
            Err(e) => {
                return Err(e);
            },
            Ok(p) => p,
        };
        match pager.get_page(0) {
            Ok(_) => {},
            Err(_) => {
                let root_node = new_leaf();
                pager.put_page(0, root_node);
                if pager.num_pages == 0 {
                    pager.num_pages = 1;
                }
            },
        }
        Ok(Table { root_page_num: 0, pager })
    }

    /// Flushes the pager; the returned bytes must be written back to the
    /// file before the table is discarded, or inserts since open are lost.
    pub fn db_close(&self) -> (r: Result<Vec<u8>, DbError>)
        requires
            self.wf(),
        ensures
            match r {
                Ok(img) => {
                    &&& forall|i: int|
                        0 <= i < self.pager@.pages.len() ==> (#[trigger] self.pager@.pages[i]
                            matches Some(n) ==> n.fits())
                    &&& img@ == spec_flush(self.pager@)
                },
                Err(e) => {
                    &&& e == DbError::PageOverflow
                    &&& exists|i: int|
                        0 <= i < self.pager@.pages.len() && (#[trigger] self.pager@.pages[i]
                            matches Some(n) && !n.fits())
                },
            },
    {
        self.pager.flush()
    }
}

/// How the flushed image grows: it stays a whole number of pages, never
/// shrinks, and once slot 0 is written back the first page holds exactly
/// the root node's encoding, untouched by the later slots.
proof fn lemma_flush_upto_first_page(p: PagerView, n: int)
    requires
        p.wf(),
        0 <= n <= p.pages.len(),
        forall|i: int|
            0 <= i < p.pages.len() ==> (#[trigger] p.pages[i] matches Some(m) ==> m.fits()),
    ensures
        spec_flush_upto(p, n).len() % (constants::PAGE_SIZE as nat) == 0,
        spec_flush_upto(p, n).len() >= p.file_image.len(),
        (n >= 1 && p.pages[0] is Some) ==> {
            &&& spec_flush_upto(p, n).len() >= constants::PAGE_SIZE
            &&& spec_flush_upto(p, n).subrange(0, constants::PAGE_SIZE as int)
                == crate::btree::spec_encode_node(p.pages[0]->Some_0)
        },
    decreases n,
{
    if n > 0 {
        lemma_flush_upto_first_page(p, n - 1);
        let prev = spec_flush_upto(p, n - 1);
        let cur = spec_flush_upto(p, n);
        match p.pages[n - 1] {
            None => {},
            Some(m) => {
                assert(m.wf_data() && m.fits());
                crate::btree::lemma_encode_node_len(m);
                let enc = crate::btree::spec_encode_node(m);
                let end = n * (constants::PAGE_SIZE as int);
                let extended = if prev.len() >= end {
                    prev
                } else {
                    prev + crate::utils::zero_seq((end - prev.len()) as nat)
                };
                assert(cur == extended.subrange(0, (n - 1) * (constants::PAGE_SIZE as int)) + enc
                    + extended.subrange(end, extended.len() as int));
                assert(cur.len() == extended.len());
                if n - 1 == 0 {
                    assert(cur.subrange(0, constants::PAGE_SIZE as int) =~= enc);
                } else if p.pages[0] is Some {
                    assert(extended.subrange(0, constants::PAGE_SIZE as int) =~= prev.subrange(
                        0,
                        constants::PAGE_SIZE as int,
                    ));
                    assert(cur.subrange(0, constants::PAGE_SIZE as int) =~= extended.subrange(
                        0,
                        constants::PAGE_SIZE as int,
                    ));
                }
            },
        }
    }
}

/// Persistence: flush a table whose cached pages all still fit, reopen over
/// the flushed bytes, and the root comes back as the very node that was
/// cached — reopening never fails as corrupt, and a select after the reopen
/// returns the same rows in the same order as one before the close.
pub proof fn lemma_persistence(p: PagerView, node: NodeView)
    requires
        p.wf(),
        p.pages[0] == Some(node),
        node.wf(),
        forall|i: int|
            0 <= i < p.pages.len() ==> (#[trigger] p.pages[i] matches Some(m) ==> m.fits()),
    ensures
        spec_flush(p).len() % (constants::PAGE_SIZE as nat) == 0,
        spec_open_root(spec_flush(p)) == node,
{
    lemma_flush_upto_first_page(p, constants::TABLE_MAX_PAGES as int);
    crate::btree::lemma_node_round_trip(node);
}

/// The rows a leaf's cells decode to, in cell order.
pub open spec fn spec_leaf_rows(cells: Seq<crate::btree::CellView>) -> Seq<RowView> {
    cells.map_values(|c: crate::btree::CellView| spec_deserialize_row(c.value))
}

/// Appends `row` at the end-of-table position of the root node, keyed by
/// its id. No duplicate-key check happens on this path: callers that need
/// duplicate rejection route through `table_find` first.
pub fn insert_row(table: &mut Table, row: Row) -> (r: Result<(), DbError>)
    requires
        old(table).wf(),
        row@.wf(),
    ensures
        final(table).wf(),
        final(table).root_page_num == old(table).root_page_num,
        final(table).pager@.file_image == old(table).pager@.file_image,
        final(table).pager@.num_pages == old(table).pager@.num_pages,
        ({
            let root = old(table).spec_root();
            match r {
                Ok(_) => {
                    &&& root.content_len < u32::MAX
                    &&& final(table).pager@.pages == old(table).pager@.pages.update(
                        0,
                        Some(
                            crate::btree::spec_insert_cell(
                                root,
                                crate::btree::spec_cell_of_row(row@),
                            ),
                        ),
                    )
                },
                Err(e) => {
                    &&& e == DbError::CursorError
                    &&& root.content_len == u32::MAX
                },
            }
        }),
{
    let cursor = crate::cursor::table_end(table);
    crate::cursor::cursor_insert(table, &cursor, row)
}

/// Walks the root leaf from the start and decodes every cell's value into
/// a row, in key order for a sorted leaf. Fails only when the root is a
/// non-empty internal node, whose traversal is out of scope.
pub fn select_all_rows(table: &mut Table) -> (r: Result<Vec<Row>, DbError>)
    requires
        old(table).wf(),
    ensures
        *final(table) == *old(table),
        ({
            let root = old(table).spec_root();
            match r {
                Ok(rows) => {
                    &&& (root.node_type matches NodeTypeView::Leaf(cells) ==> rows@.map_values(
                        |x: Row| x@,
                    ) == spec_leaf_rows(cells))
                    &&& (root.node_type is Internal ==> root.content_len == 0 && rows@.len() == 0)
                },
                Err(e) => {
                    &&& e == DbError::CursorError
                    &&& root.node_type is Internal
                    &&& root.content_len > 0
                },
            }
        }),
{
    let mut res: Vec<Row> = Vec::new();
    let mut cursor = crate::cursor::table_start(table);
    let ghost root = old(table).spec_root();
    proof {
        if root.node_type is Leaf {
            assert(res@.map_values(|x: Row| x@) =~= spec_leaf_rows(root.node_type->Leaf_0).take(
                0,
            ));
        }
    }
    while !cursor.end_of_table
        invariant
            table.wf(),
            *table == *old(table),
            root == old(table).spec_root(),
            cursor.page_num == 0,
            match root.node_type {
                NodeTypeView::Leaf(cells) => {
                    &&& cursor.cell_num <= cells.len()
                    &&& (cursor.end_of_table <==> cursor.cell_num == cells.len())
                    &&& res@.map_values(|x: Row| x@) == spec_leaf_rows(cells).take(
                        cursor.cell_num as int,
                    )
                },
                NodeTypeView::Internal(_) => {
                    &&& cursor.cell_num == 0
                    &&& res@.len() == 0
                    &&& (cursor.end_of_table <==> root.content_len == 0)
                },
            },
        decreases root.content_len - cursor.cell_num,
    {
        match crate::cursor::cursor_value(table, &cursor) {
            Some(slot) => {
                proof {
                    assert(root.node_type matches NodeTypeView::Leaf(cells) && slot@
                        == cells[cursor.cell_num as int]);
                }
                match deserialize_row(slot.value.as_slice()) {
                    Ok(row) => {
                        let ghost cells = root.node_type->Leaf_0;
                        proof {
                            assert(spec_leaf_rows(cells)[cursor.cell_num as int]
                                == spec_deserialize_row(cells[cursor.cell_num as int].value));
                        }
                        res.push(row);
                        proof {
                            assert(res@.map_values(|x: Row| x@) =~= spec_leaf_rows(cells).take(
                                cursor.cell_num + 1,
                            ));
                        }
                    },
                    Err(_) => {
                        proof {
                            assert(false);
                        }
                        return Err(DbError::CursorError);
                    },
                }
            },
            None => {
                return Err(DbError::CursorError);
            },
        }
        crate::cursor::cursor_advance(table, &mut cursor);
    }
    proof {
        if root.node_type is Leaf {
            let cells = root.node_type->Leaf_0;
            assert(spec_leaf_rows(cells).take(cursor.cell_num as int) =~= spec_leaf_rows(cells));
        }
    }
    Ok(res)
}

} // verus!
