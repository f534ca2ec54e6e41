//! The page store: a cache of fixed-size pages over the image of the backing
//! file, with an allocator that never hands a page number out twice.

use crate::codec::{be32, put32, read_be32, splice, write_be32};
use crate::error::DbError;
use vstd::prelude::*;

verus! {

/// Bytes in a page, the unit of allocation and of transfer to the file.
pub const PAGE_SIZE: usize = 4096;

/// The most pages a store may hold.
pub const TABLE_MAX_PAGES: u32 = 100;

/// One page: a buffer of exactly `PAGE_SIZE` bytes.
pub struct Page {
    pub data: Vec<u8>,
}

impl View for Page {
    type V = Seq<u8>;

    #[verifier::inline]
    open spec fn view(&self) -> Seq<u8> {
        self.data@
    }
}

impl Page {
    /// A page is well formed when it holds exactly `PAGE_SIZE` bytes.
    pub open spec fn wf(&self) -> bool {
        self.data@.len() == PAGE_SIZE
    }

    /// A page of zero bytes.
    pub fn zeroed() -> (p: Page)
        ensures
            p.wf(),
            forall|i: int| 0 <= i < PAGE_SIZE ==> p@[i] == 0u8,
    {
        let mut data: Vec<u8> = Vec::new();
        let mut i: usize = 0;
        while i < PAGE_SIZE
            invariant
                i <= PAGE_SIZE,
                data@.len() == i,
                forall|j: int| 0 <= j < i ==> data@[j] == 0u8,
            decreases PAGE_SIZE - i,
        {
            data.push(0u8);
            i += 1;
        }
        Page { data }
    }

    /// The byte at `off`.
    pub fn read_u8(&self, off: usize) -> (b: u8)
        requires
            self.wf(),
            off < PAGE_SIZE,
        ensures
            b == self@[off as int],
    {
        self.data[off]
    }

    /// Sets the byte at `off`.
    pub fn write_u8(&mut self, off: usize, b: u8)
        requires
            old(self).wf(),
            off < PAGE_SIZE,
        ensures
            final(self).wf(),
            final(self)@ == old(self)@.update(off as int, b),
    {
        self.data.set(off, b);
    }

    /// The big-endian integer at `off`.
    pub fn read_u32(&self, off: usize) -> (r: u32)
        requires
            self.wf(),
            off + 4 <= PAGE_SIZE,
        ensures
            r == be32(self@, off as int),
    {
        read_be32(&self.data, off)
    }

    /// Writes `x` at `off`, most significant byte first.
    pub fn write_u32(&mut self, off: usize, x: u32)
        requires
            old(self).wf(),
            off + 4 <= PAGE_SIZE,
        ensures
            final(self).wf(),
            final(self)@ == put32(old(self)@, off as int, x),
    {
        write_be32(&mut self.data, off, x);
    }

    /// A copy of the `len` bytes from `off` on.
    pub fn read_bytes(&self, off: usize, len: usize) -> (out: Vec<u8>)
        requires
            self.wf(),
            off + len <= PAGE_SIZE,
        ensures
            out@ == self@.subrange(off as int, off + len),
    {
        let mut out: Vec<u8> = Vec::new();
        let mut i: usize = 0;
        while i < len
            invariant
                self.wf(),
                off + len <= PAGE_SIZE,
                i <= len,
                out@.len() == i,
                forall|j: int| 0 <= j < i ==> out@[j] == self@[off + j],
            decreases len - i,
        {
            out.push(self.data[off + i]);
            i += 1;
        }
        assert(out@ =~= self@.subrange(off as int, off + len));
        out
    }

    /// Overwrites the bytes from `off` on with those of `src`.
    pub fn write_bytes(&mut self, off: usize, src: &Vec<u8>)
        requires
            old(self).wf(),
            off + src@.len() <= PAGE_SIZE,
        ensures
            final(self).wf(),
            final(self)@ == splice(old(self)@, off as int, src@),
    {
        let n = src.len();
        let ghost orig = self@;
        let mut i: usize = 0;
        while i < n
            invariant
                self.wf(),
                orig.len() == PAGE_SIZE,
                n == src@.len(),
                off + n <= PAGE_SIZE,
                i <= n,
                forall|j: int| 0 <= j < off + i ==> #[trigger] self.data@[j] == splice(orig, off as int, src@)[j],
                forall|j: int| off + i <= j < PAGE_SIZE ==> #[trigger] self.data@[j] == orig[j],
            decreases n - i,
        {
            let b = src[i];
            self.data.set(off + i, b);
            i += 1;
        }
        assert(self@ =~= splice(old(self)@, off as int, src@));
    }

    /// A copy of the page.
    pub fn duplicate(&self) -> (p: Page)
        requires
            self.wf(),
        ensures
            p.wf(),
            p@ == self@,
    {
        let data = self.read_bytes(0, PAGE_SIZE);
        assert(data@ =~= self@);
        Page { data }
    }
}

/// `n` bytes of zero.
pub open spec fn zero_bytes(n: nat) -> Seq<u8> {
    Seq::new(n, |i: int| 0u8)
}

/// The bytes of page `n` in a file image: what the file holds there, and zero
/// where the file has ended.
pub open spec fn file_page(file: Seq<u8>, n: int) -> Seq<u8> {
    Seq::new(
        PAGE_SIZE as nat,
        |i: int|
            if n * PAGE_SIZE + i < file.len() {
                file[n * PAGE_SIZE + i]
            } else {
                0u8
            },
    )
}

/// The page store.
pub struct Pager {
    /// The image of the backing file.
    pub file: Vec<u8>,
    /// The length the file had when the store was opened.
    pub file_length: u32,
    /// The cache: a page is `None` until it is first asked for.
    pub pages: Vec<Option<Page>>,
    /// One more than the highest page number in use.
    pub num_pages: u32,
}

impl View for Pager {
    type V = Seq<Seq<u8>>;

    /// The bytes of every page, cached or not.
    open spec fn view(&self) -> Seq<Seq<u8>> {
        Seq::new(TABLE_MAX_PAGES as nat, |n: int| self.content(n))
    }
}

impl Pager {
    /// The bytes of page `n`: the cached buffer, or else what the file holds.
    pub open spec fn content(&self, n: int) -> Seq<u8> {
        match self.pages@[n] {
            Some(p) => p@,
            None => file_page(self.file@, n),
        }
    }

    /// Whether page `n` is in the cache.
    pub open spec fn resident(&self, n: int) -> bool {
        0 <= n < self.pages@.len() && self.pages@[n] is Some
    }

    /// The cache has a place for every page that can be asked for, every
    /// page in it is a page in use, and the file image ends where the pages
    /// in use end, or before. Where more pages are in use than can be asked
    /// for, they are the pages of the file image.
    pub open spec fn wf(&self) -> bool {
        &&& self.pages@.len() == TABLE_MAX_PAGES
        &&& self.file@.len() <= self.num_pages * PAGE_SIZE
        &&& self.num_pages > TABLE_MAX_PAGES ==> self.file@.len() == self.num_pages * PAGE_SIZE
        &&& forall|n: int|
            0 <= n < TABLE_MAX_PAGES ==> ((#[trigger] self.pages@[n]) matches Some(p) ==> p.wf()
                && n < self.num_pages)
    }

    /// Every page of a well-formed store has `PAGE_SIZE` bytes.
    pub proof fn lemma_view_pages(&self)
        requires
            self.wf(),
        ensures
            self@.len() == TABLE_MAX_PAGES,
            forall|n: int| 0 <= n < TABLE_MAX_PAGES ==> (#[trigger] self@[n]).len() == PAGE_SIZE,
    {
        assert forall|n: int| 0 <= n < TABLE_MAX_PAGES implies (#[trigger] self@[n]).len()
            == PAGE_SIZE by {
            assert(self@[n] == self.content(n));
            match self.pages@[n] {
                Some(p) => {
                    assert(p.wf());
                },
                None => {},
            }
        }
    }

    /// Opens a store over the image of a file. The image must be a whole
    /// number of pages long; its length is counted in 32 bits.
    pub fn open(file: Vec<u8>) -> (r: Result<Pager, DbError>)
        requires
            file@.len() <= u32::MAX,
        ensures
            r is Ok <==> file@.len() % (PAGE_SIZE as nat) == 0,
            match r {
                Ok(p) => {
                    &&& p.wf()
                    &&& p.file@ == file@
                    &&& p.file_length == file@.len()
                    &&& p.num_pages == file@.len() / (PAGE_SIZE as nat)
                    &&& forall|n: int| !p.resident(n)
                },
                Err(e) => e == DbError::MalformedFile,
            },
    {
        let len = file.len();
        if len % PAGE_SIZE != 0 {
            return Err(DbError::MalformedFile);
        }
        let mut pages: Vec<Option<Page>> = Vec::new();
        let mut i: u32 = 0;
        while i < TABLE_MAX_PAGES
            invariant
                i <= TABLE_MAX_PAGES,
                pages@.len() == i,
                forall|n: int| 0 <= n < i ==> pages@[n] is None,
            decreases TABLE_MAX_PAGES - i,
        {
            pages.push(None);
            i += 1;
        }
        let num_pages = (len / PAGE_SIZE) as u32;
        Ok(Pager { file, file_length: len as u32, pages, num_pages })
    }

    /// The next page number that was never handed out.
    pub fn get_unused_page_num(&self) -> (n: u32)
        ensures
            n == self.num_pages,
    {
        self.num_pages
    }

    /// Brings page `n` into the cache, reading it from the file image where
    /// the image reaches and filling the rest with zero.
    fn load(&mut self, n: u32)
        requires
            old(self).wf(),
            n < TABLE_MAX_PAGES,
        ensures
            final(self).wf(),
            final(self).resident(n as int),
            final(self)@ == old(self)@,
            final(self).file == old(self).file,
            final(self).file_length == old(self).file_length,
            final(self).num_pages == if n >= old(self).num_pages {
                (n + 1) as u32
            } else {
                old(self).num_pages
            },
            forall|m: int| m != n ==> final(self).resident(m) == old(self).resident(m),
    {
        if self.pages[n as usize].is_none() {
            let mut page = Page::zeroed();
            let base: usize = n as usize * PAGE_SIZE;
            let flen = self.file.len();
            let mut i: usize = 0;
            while i < PAGE_SIZE && base + i < flen
                invariant
                    page.wf(),
                    i <= PAGE_SIZE,
                    base == n * PAGE_SIZE,
                    n < TABLE_MAX_PAGES,
                    flen == self.file@.len(),
                    i > 0 ==> base + i <= flen,
                    forall|j: int| 0 <= j < i ==> #[trigger] page.data@[j] == self.file@[base + j],
                    forall|j: int| i <= j < PAGE_SIZE ==> #[trigger] page.data@[j] == 0u8,
                decreases PAGE_SIZE - i,
            {
                let b = self.file[base + i];
                page.write_u8(i, b);
                i += 1;
            }
            assert(page@ =~= file_page(self.file@, n as int));
            let ghost before = self@;
            self.pages.set(n as usize, Some(page));
            assert(self@ =~= before);
        }
        if n >= self.num_pages {
            self.num_pages = n + 1;
        }
    }

    /// The buffer of page `n`, for reading and writing. The page is brought
    /// into the cache first; asking for a page beyond those in use puts it,
    /// and every page below it, in use.
    pub fn get_page(&mut self, n: u32) -> (r: Result<&mut Page, DbError>)
        requires
            old(self).wf(),
        ensures
            match r {
                Ok(p) => {
                    &&& n < TABLE_MAX_PAGES
                    &&& p.wf()
                    &&& p@ == old(self)@[n as int]
                    &&& final(p).wf() ==> final(self).wf()
                    &&& final(self)@ == old(self)@.update(n as int, final(p)@)
                    &&& final(self).file == old(self).file
                    &&& final(self).file_length == old(self).file_length
                    &&& final(self).num_pages == if n >= old(self).num_pages {
                        (n + 1) as u32
                    } else {
                        old(self).num_pages
                    }
                    &&& final(self).resident(n as int)
                    &&& forall|m: int| m != n ==> final(self).resident(m) == old(self).resident(m)
                },
                Err(e) => n >= TABLE_MAX_PAGES && e == DbError::PageOutOfBounds && *final(self)
                    == *old(self),
            },
    {
        if n >= TABLE_MAX_PAGES {
            return Err(DbError::PageOutOfBounds);
        }
        self.load(n);
        let slot = &mut self.pages[n as usize];
        match slot {
            Some(p) => Ok(p),
            None => Err(DbError::PageOutOfBounds),
        }
    }

    /// As `get_page`, for a page number that is known to be in bounds.
    pub fn page_mut(&mut self, n: u32) -> (p: &mut Page)
        requires
            old(self).wf(),
            n < TABLE_MAX_PAGES,
        ensures
            p.wf(),
            p@ == old(self)@[n as int],
            final(p).wf() ==> final(self).wf(),
            final(self)@ == old(self)@.update(n as int, final(p)@),
            final(self).file == old(self).file,
            final(self).file_length == old(self).file_length,
            final(self).num_pages == if n >= old(self).num_pages {
                (n + 1) as u32
            } else {
                old(self).num_pages
            },
            final(self).resident(n as int),
            forall|m: int| m != n ==> final(self).resident(m) == old(self).resident(m),
    {
        self.load(n);
        let slot = &mut self.pages[n as usize];
        match slot {
            Some(p) => p,
            None => vstd::pervasive::unreached(),
        }
    }

    /// The buffer of page `n`, for reading only.
    pub fn page(&mut self, n: u32) -> (p: &Page)
        requires
            old(self).wf(),
            n < TABLE_MAX_PAGES,
        ensures
            p.wf(),
            p@ == old(self)@[n as int],
            final(self).wf(),
            final(self)@ == old(self)@,
            final(self).file == old(self).file,
            final(self).file_length == old(self).file_length,
            final(self).num_pages == if n >= old(self).num_pages {
                (n + 1) as u32
            } else {
                old(self).num_pages
            },
            final(self).resident(n as int),
            forall|m: int| m != n ==> final(self).resident(m) == old(self).resident(m),
    {
        self.load(n);
        match &self.pages[n as usize] {
            Some(p) => p,
            None => vstd::pervasive::unreached(),
        }
    }

    /// Writes the buffer of page `n` to its place in the file image, which
    /// grows, with zero bytes in between, where it was shorter.
    pub fn flush_page(&mut self, n: usize) -> (r: Result<(), DbError>)
        requires
            old(self).wf(),
        ensures
            final(self).wf(),
            final(self)@ == old(self)@,
            final(self).file_length == old(self).file_length,
            match r {
                Ok(_) => {
                    &&& n < TABLE_MAX_PAGES
                    &&& final(self).file@ == store_page(old(self).file@, n as int, old(self)@[n as int])
                    &&& final(self).num_pages == if n >= old(self).num_pages {
                        (n + 1) as u32
                    } else {
                        old(self).num_pages
                    }
                    &&& final(self).resident(n as int)
                    &&& forall|m: int| m != n ==> final(self).resident(m) == old(self).resident(m)
                },
                Err(e) => n >= TABLE_MAX_PAGES && e == DbError::PageOutOfBounds && *final(self)
                    == *old(self),
            },
    {
        if n >= TABLE_MAX_PAGES as usize {
            return Err(DbError::PageOutOfBounds);
        }
        let data = self.page(n as u32).read_bytes(0, PAGE_SIZE);
        let ghost file0 = self.file@;
        let ghost view0 = self@;
        assert(data@ =~= view0[n as int]);
        store_bytes(&mut self.file, n, &data);
        proof {
            lemma_store_page(file0, n as int, view0[n as int]);
            assert(self@ =~= view0) by {
                assert forall|m: int| 0 <= m < TABLE_MAX_PAGES implies self.content(m)
                    == #[trigger] view0[m] by {
                    if m != n {
                        assert(file_page(self.file@, m) == file_page(file0, m));
                    }
                }
            }
        }
        Ok(())
    }
}

/// Writes a page's bytes to their place in a file image.
fn store_bytes(file: &mut Vec<u8>, n: usize, data: &Vec<u8>)
    requires
        n < TABLE_MAX_PAGES,
        data@.len() == PAGE_SIZE,
    ensures
        final(file)@ == store_page(old(file)@, n as int, data@),
{
    let ghost file0 = file@;
    let base: usize = n * PAGE_SIZE;
    let end: usize = base + PAGE_SIZE;
    while file.len() < end
        invariant
            end <= TABLE_MAX_PAGES * PAGE_SIZE,
            file0.len() <= file@.len(),
            file@.len() <= if file0.len() < end { end as int } else { file0.len() as int },
            forall|i: int| 0 <= i < file0.len() ==> #[trigger] file@[i] == file0[i],
            forall|i: int| file0.len() <= i < file@.len() ==> #[trigger] file@[i] == 0u8,
        decreases end - file@.len(),
    {
        file.push(0u8);
    }
    let ghost file1 = file@;
    let mut i: usize = 0;
    while i < PAGE_SIZE
        invariant
            i <= PAGE_SIZE,
            base + PAGE_SIZE == end,
            end <= file@.len(),
            file@.len() == file1.len(),
            data@.len() == PAGE_SIZE,
            forall|j: int| 0 <= j < file1.len() ==> #[trigger] file@[j] == if base <= j < base + i {
                data@[j - base]
            } else {
                file1[j]
            },
        decreases PAGE_SIZE - i,
    {
        let b = data[i];
        file.set(base + i, b);
        i += 1;
    }
    assert(file@ =~= store_page(file0, n as int, data@));
}

/// A file image after the bytes of page `n` were written to their place: the
/// image grows to hold the page, with zero bytes where nothing was before.
pub open spec fn store_page(file: Seq<u8>, n: int, page: Seq<u8>) -> Seq<u8> {
    Seq::new(
        if file.len() < (n + 1) * PAGE_SIZE {
            ((n + 1) * PAGE_SIZE) as nat
        } else {
            file.len()
        },
        |i: int|
            if n * PAGE_SIZE <= i < (n + 1) * PAGE_SIZE {
                page[i - n * PAGE_SIZE]
            } else if i < file.len() {
                file[i]
            } else {
                0u8
            },
    )
}

/// After `store_page`, page `n` of the image is the page written and every
/// other page is what it was.
pub proof fn lemma_store_page(file: Seq<u8>, n: int, page: Seq<u8>)
    requires
        0 <= n,
        page.len() == PAGE_SIZE,
    ensures
        file_page(store_page(file, n, page), n) == page,
        forall|m: int| 0 <= m && m != n ==> file_page(store_page(file, n, page), m) == file_page(file, m),
{
    assert(file_page(store_page(file, n, page), n) =~= page);
    assert forall|m: int| 0 <= m && m != n implies file_page(store_page(file, n, page), m)
        == file_page(file, m) by {
        assert(file_page(store_page(file, n, page), m) =~= file_page(file, m));
    }
}

} // verus!
