//! The page cache of one file: page-sized copies of its contents, addressed
//! by page number, each loaded from the disk blocks that hold it.

use vstd::prelude::*;

verus! {

/// Size in bytes of one cache page.
pub const CACHE_SZ: usize = 4096;

/// Position `r` inside page `c` is byte `c * CACHE_SZ + r` of the file.
pub proof fn lemma_page_position(c: int, r: int)
    requires
        0 <= c,
        0 <= r < CACHE_SZ,
    ensures
        (c * CACHE_SZ + r) / (CACHE_SZ as int) == c,
        (c * CACHE_SZ + r) % (CACHE_SZ as int) == r,
{
    vstd::arithmetic::div_mod::lemma_fundamental_div_mod_converse(
        c * CACHE_SZ + r,
        CACHE_SZ as int,
        c,
        r,
    );
}

/// Byte `i` of a file lies at position `i % CACHE_SZ` of page `i / CACHE_SZ`.
pub proof fn lemma_byte_position(i: int)
    requires
        0 <= i,
    ensures
        0 <= i / (CACHE_SZ as int),
        0 <= i % (CACHE_SZ as int) < CACHE_SZ,
        i == (i / (CACHE_SZ as int)) * CACHE_SZ + i % (CACHE_SZ as int),
{
    vstd::arithmetic::div_mod::lemma_fundamental_div_mod(i, CACHE_SZ as int);
}

/// The cached pages of one file, by page number. A page that is not cached
/// has to be loaded, from the disk blocks that hold it, before it is read
/// or written.
pub struct PageCacheManager {
    pages: Vec<Option<Vec<u8>>>,
}

impl PageCacheManager {
    /// Every cached page holds exactly one page of bytes.
    pub closed spec fn wf(&self) -> bool {
        forall|p: int|
            0 <= p < self.pages@.len() && (#[trigger] self.pages@[p]) is Some ==> self.pages@[p]->0@.len()
                == CACHE_SZ
    }

    /// How many page slots the cache has; pages from this number on are not
    /// cached.
    pub closed spec fn page_count(&self) -> nat {
        self.pages@.len()
    }

    /// Page `p` is cached.
    pub closed spec fn cached(&self, p: int) -> bool {
        0 <= p < self.pages@.len() && self.pages@[p] is Some
    }

    /// The page that holds byte `i` is cached.
    pub open spec fn cached_at(&self, i: int) -> bool {
        self.cached(i / (CACHE_SZ as int))
    }

    /// Every page that holds a byte from `lo` up to `hi` is cached.
    pub open spec fn covers(&self, lo: int, hi: int) -> bool {
        forall|i: int| lo <= i < hi ==> #[trigger] self.cached_at(i)
    }

    /// Byte `i` of the cached file; bytes of pages that are not cached read
    /// as zero here.
    pub closed spec fn byte(&self, i: int) -> u8 {
        if 0 <= i && self.cached(i / (CACHE_SZ as int)) {
            self.pages@[i / (CACHE_SZ as int)]->0@[i % (CACHE_SZ as int)]
        } else {
            0
        }
    }

    pub fn new() -> (c: Self)
        ensures
            c.wf(),
            c.page_count() == 0,
            forall|p: int| !(#[trigger] c.cached(p)),
            forall|i: int| #[trigger] c.byte(i) == 0,
    {
        PageCacheManager { pages: Vec::new() }
    }

    /// Whether page `cache_id` is cached.
    pub fn is_cached(&self, cache_id: usize) -> (r: bool)
        ensures
            r == self.cached(cache_id as int),
    {
        cache_id < self.pages.len() && self.pages[cache_id].is_some()
    }

    /// Copies `n` bytes of page `cache_id`, from position `from` on, into
    /// `dst` at position `at`.
    pub fn read(&self, cache_id: usize, from: usize, n: usize, dst: &mut Vec<u8>, at: usize)
        requires
            self.wf(),
            from + n <= CACHE_SZ,
            at + n <= old(dst)@.len(),
        ensures
            final(dst)@.len() == old(dst)@.len(),
            forall|k: int|
                0 <= k < n ==> #[trigger] final(dst)@[at + k] == self.byte(
                    cache_id * CACHE_SZ + from + k,
                ),
            forall|j: int|
                0 <= j < old(dst)@.len() && !(at <= j < at + n) ==> #[trigger] final(dst)@[j]
                    == old(dst)@[j],
    {
        let cached = self.is_cached(cache_id);
        let mut k: usize = 0;
        while k < n
            invariant
                self.wf(),
                from + n <= CACHE_SZ,
                at + n <= dst.len(),
                k <= n,
                cached == self.cached(cache_id as int),
                dst@.len() == old(dst)@.len(),
                forall|m: int|
                    0 <= m < k ==> #[trigger] dst@[at + m] == self.byte(
                        cache_id * CACHE_SZ + from + m,
                    ),
                forall|j: int|
                    0 <= j < old(dst)@.len() && !(at <= j < at + k) ==> #[trigger] dst@[j]
                        == old(dst)@[j],
            decreases n - k,
        {
            proof {
                lemma_page_position(cache_id as int, from + k);
            }
            let b: u8 = if cached {
                match &self.pages[cache_id] {
                    Some(page) => page[from + k],
                    None => 0,
                }
            } else {
                0
            };
            dst[at + k] = b;
            k = k + 1;
        }
    }

    /// Writes `n` bytes of `src`, from position `src_at` on, into the cached
    /// page `cache_id` at position `from`.
    pub fn modify(&mut self, cache_id: usize, from: usize, src: &Vec<u8>, src_at: usize, n: usize)
        requires
            old(self).wf(),
            from + n <= CACHE_SZ,
            src_at + n <= src@.len(),
            n > 0 ==> old(self).cached(cache_id as int),
        ensures
            final(self).wf(),
            final(self).page_count() == old(self).page_count(),
            forall|p: int| #[trigger] final(self).cached(p) == old(self).cached(p),
            forall|i: int|
                #![trigger final(self).byte(i)]
                cache_id * CACHE_SZ + from <= i < cache_id * CACHE_SZ + from + n
                    ==> final(self).byte(i) == src@[src_at + i - (cache_id * CACHE_SZ + from)],
            forall|i: int|
                #![trigger final(self).byte(i)]
                !(cache_id * CACHE_SZ + from <= i < cache_id * CACHE_SZ + from + n)
                    ==> final(self).byte(i) == old(self).byte(i),
    {
        if n == 0 {
            return ;
        }
        let ghost old_self = *self;
        let mut page: Vec<u8> = match &self.pages[cache_id] {
            Some(p) => p.clone(),
            None => Vec::new(),
        };
        proof {
            assert(page@ =~= old_self.pages@[cache_id as int]->0@);
        }
        let mut k: usize = 0;
        while k < n
            invariant
                old_self.wf(),
                old_self.cached(cache_id as int),
                from + n <= CACHE_SZ,
                src_at + n <= src.len(),
                k <= n,
                page@.len() == CACHE_SZ,
                forall|r: int|
                    0 <= r < CACHE_SZ ==> #[trigger] page@[r] == if from <= r < from + k {
                        src@[src_at + r - from]
                    } else {
                        old_self.pages@[cache_id as int]->0@[r]
                    },
            decreases n - k,
        {
            page[from + k] = src[src_at + k];
            k = k + 1;
        }
        self.pages[cache_id] = Some(page);
        proof {
            assert forall|p: int|
                0 <= p < self.pages@.len() && (#[trigger] self.pages@[p]) is Some implies self.pages@[p]->0@.len()
                    == CACHE_SZ by {
                if p != cache_id {
                    assert(self.pages@[p] == old_self.pages@[p]);
                }
            }
            assert forall|p: int| #[trigger] self.cached(p) == old_self.cached(p) by {
                if p != cache_id && 0 <= p < self.pages@.len() {
                    assert(self.pages@[p] == old_self.pages@[p]);
                }
            }
            let base = cache_id * CACHE_SZ + from;
            assert forall|i: int|
                #![trigger self.byte(i)]
                base <= i < base + n implies self.byte(i) == src@[src_at + i - base] by {
                lemma_page_position(cache_id as int, from + (i - base));
            }
            assert forall|i: int| #![trigger self.byte(i)] !(base <= i < base + n) implies self.byte(i)
                == old_self.byte(i) by {
                if 0 <= i {
                    lemma_byte_position(i);
                    let p = i / (CACHE_SZ as int);
                    let r = i % (CACHE_SZ as int);
                    if p == cache_id {
                        assert(!(from <= r < from + n));
                    } else if p < self.pages@.len() {
                        assert(self.pages@[p] == old_self.pages@[p]);
                    }
                }
            }
        }
    }

    /// Puts a page that was read from disk into the cache, as page
    /// `cache_id`, unless that page is cached already.
    pub fn load(&mut self, cache_id: usize, page: Vec<u8>)
        requires
            old(self).wf(),
            page@.len() == CACHE_SZ,
        ensures
            final(self).wf(),
            forall|p: int|
                #[trigger] final(self).cached(p) == (old(self).cached(p) || p == cache_id),
            forall|i: int|
                #![trigger final(self).byte(i)]
                final(self).byte(i) == if !old(self).cached(cache_id as int) && cache_id * CACHE_SZ
                    <= i < cache_id * CACHE_SZ + CACHE_SZ {
                    page@[i - cache_id * CACHE_SZ]
                } else {
                    old(self).byte(i)
                },
    {
        let ghost old_self = *self;
        while self.pages.len() <= cache_id
            invariant
                self.wf(),
                self.pages@.len() >= old_self.pages@.len(),
                forall|p: int| #[trigger] self.cached(p) == old_self.cached(p),
                forall|p: int|
                    0 <= p < old_self.pages@.len() ==> #[trigger] self.pages@[p] == old_self.pages@[p],
                forall|i: int| #![trigger self.byte(i)] self.byte(i) == old_self.byte(i),
            decreases cache_id + 1 - self.pages@.len(),
        {
            let ghost before = *self;
            self.pages.push(None);
            proof {
                assert forall|p: int| #[trigger] self.cached(p) == before.cached(p) by {
                    if 0 <= p < before.pages@.len() {
                        assert(self.pages@[p] == before.pages@[p]);
                    }
                }
                assert forall|i: int| #![trigger self.byte(i)] self.byte(i) == before.byte(i) by {
                    if 0 <= i && i / (CACHE_SZ as int) < before.pages@.len() {
                        assert(self.pages@[i / (CACHE_SZ as int)] == before.pages@[i / (
                        CACHE_SZ as int)]);
                    }
                }
            }
        }
        let ghost grown = *self;
        if self.pages[cache_id].is_none() {
            self.pages[cache_id] = Some(page);
            proof {
                assert forall|p: int|
                    0 <= p < self.pages@.len() && (#[trigger] self.pages@[p]) is Some implies self.pages@[p]->0@.len()
                        == CACHE_SZ by {
                    if p != cache_id {
                        assert(self.pages@[p] == grown.pages@[p]);
                    }
                }
                assert(self.pages@.len() == grown.pages@.len());
                assert(self.pages@[cache_id as int] == Some(page));
                assert forall|p: int| #[trigger] self.cached(p) == (old_self.cached(p) || p == cache_id) by {
                    assert(grown.cached(p) == old_self.cached(p));
                    if p != cache_id && 0 <= p < self.pages@.len() {
                        assert(self.pages@[p] == grown.pages@[p]);
                    }
                }
                assert forall|i: int|
                    #![trigger self.byte(i)]
                    self.byte(i) == if !old_self.cached(cache_id as int) && cache_id * CACHE_SZ <= i
                        < cache_id * CACHE_SZ + CACHE_SZ {
                        page@[i - cache_id * CACHE_SZ]
                    } else {
                        old_self.byte(i)
                    } by {
                    assert(grown.byte(i) == old_self.byte(i));
                    if cache_id * CACHE_SZ <= i < cache_id * CACHE_SZ + CACHE_SZ {
                        lemma_page_position(cache_id as int, i - cache_id * CACHE_SZ);
                    } else if 0 <= i {
                        lemma_byte_position(i);
                        let p = i / (CACHE_SZ as int);
                        if p == cache_id {
                            lemma_page_position(cache_id as int, i % (CACHE_SZ as int));
                        }
                        if p < self.pages@.len() && p != cache_id {
                            assert(self.pages@[p] == grown.pages@[p]);
                        }
                    }
                }
            }
        } else {
            proof {
                assert(self.pages@[cache_id as int] is Some);
                assert(self.cached(cache_id as int));
                assert forall|p: int| #[trigger] self.cached(p) == (old_self.cached(p) || p == cache_id) by {
                    assert(self.cached(p) == old_self.cached(p));
                    if p == cache_id {
                        assert(self.cached(cache_id as int));
                        assert(old_self.cached(cache_id as int));
                    }
                }
            }
        }
    }

    /// Tells the cache that the file now holds `new_size` bytes: the pages
    /// wholly past that size are dropped.
    pub fn notify_new_size(&mut self, new_size: usize)
        requires
            old(self).wf(),
            new_size + CACHE_SZ <= usize::MAX,
        ensures
            final(self).wf(),
            final(self).page_count() == if old(self).page_count() <= (new_size + CACHE_SZ - 1) / (
            CACHE_SZ as int) {
                old(self).page_count() as int
            } else {
                (new_size + CACHE_SZ - 1) / (CACHE_SZ as int)
            },
            forall|p: int|
                #[trigger] final(self).cached(p) == (old(self).cached(p) && p
                    < final(self).page_count()),
            forall|i: int|
                #![trigger final(self).byte(i)]
                final(self).byte(i) == if i < final(self).page_count() * CACHE_SZ {
                    old(self).byte(i)
                } else {
                    0
                },
    {
        let new_pages = (new_size + CACHE_SZ - 1) / CACHE_SZ;
        let ghost old_self = *self;
        if self.pages.len() > new_pages {
            self.pages.truncate(new_pages);
        }
        proof {
            assert forall|p: int|
                #[trigger] self.cached(p) == (old_self.cached(p) && p < self.page_count()) by {
                if 0 <= p < self.pages@.len() {
                    assert(self.pages@[p] == old_self.pages@[p]);
                }
            }
            assert forall|i: int|
                #![trigger self.byte(i)]
                self.byte(i) == if i < self.page_count() * CACHE_SZ {
                    old_self.byte(i)
                } else {
                    0
                } by {
                if 0 <= i {
                    lemma_byte_position(i);
                    let p = i / (CACHE_SZ as int);
                    if p < self.pages@.len() {
                        assert(self.pages@[p] == old_self.pages@[p]);
                        assert(i < self.page_count() * CACHE_SZ) by (nonlinear_arith)
                            requires
                                i == p * CACHE_SZ + i % (CACHE_SZ as int),
                                0 <= i % (CACHE_SZ as int) < CACHE_SZ,
                                p < self.page_count(),
                        ;
                    } else {
                        assert(i >= self.page_count() * CACHE_SZ) by (nonlinear_arith)
                            requires
                                i == p * CACHE_SZ + i % (CACHE_SZ as int),
                                0 <= i % (CACHE_SZ as int) < CACHE_SZ,
                                p >= self.page_count(),
                        ;
                    }
                }
            }
        }
    }
}

} // verus!
