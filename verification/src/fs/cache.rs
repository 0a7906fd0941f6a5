//! The page cache.
use crate::collections::{PageSet, PageView};
use crate::fs::config::PageCacheConfig;
use crate::fs::model;
use crate::path::{PathBuf, PathView};
use vstd::prelude::*;

verus! {

/// The pages without the given one.
pub open spec fn without(pages: Seq<PageView>, page: PageView) -> Seq<PageView> {
    pages.remove_value(page)
}

/// The pages after the cache has made room for one more: the oldest ones leave.
pub open spec fn with_room(pages: Seq<PageView>, max_pages: nat) -> Seq<PageView> {
    if max_pages > 0 && pages.len() >= max_pages {
        pages.skip(pages.len() - max_pages + 1)
    } else {
        pages
    }
}

/// The pages after the given one has been put into the cache: the oldest ones leave if
/// there is no room, and the page is the most recent one.
pub open spec fn with_page(pages: Seq<PageView>, max_pages: nat, page: PageView) -> Seq<PageView> {
    without(with_room(pages, max_pages), page).push(page)
}

/// The pages of all files but the given one.
pub open spec fn without_file(pages: Seq<PageView>, path: PathView) -> Seq<PageView> {
    pages.filter(|p: PageView| p.0 != path)
}

/// The pages of all files but those at the path and below it.
pub open spec fn without_tree(pages: Seq<PageView>, top: PathView) -> Seq<PageView> {
    pages.filter(|p: PageView| !model::is_within(p.0, top))
}

/// A page cache that lets the least recently used pages go.
pub struct PageCache {
    /// The pages in the cache, the most recently used one last.
    pages: PageSet,
    /// The settings.
    config: PageCacheConfig,
}

impl View for PageCache {
    type V = Seq<PageView>;

    closed spec fn view(&self) -> Seq<PageView> {
        self.pages@
    }
}

impl PageCache {
    /// The settings of the cache.
    pub closed spec fn settings(&self) -> PageCacheConfig {
        self.config
    }

    /// Whether the cache lists no page twice and no more pages than it holds.
    pub closed spec fn wf(&self) -> bool {
        &&& self.config.wf()
        &&& self.pages@.no_duplicates()
        &&& self.pages@.len() <= self.config.max_pages
    }

    /// An empty cache.
    pub fn new(config: PageCacheConfig) -> (r: PageCache)
        requires
            config.wf(),
        ensures
            r@ == Seq::<PageView>::empty(),
            r.settings() == config,
            r.wf(),
    {
        PageCache { pages: PageSet::new(), config }
    }

    /// Whether the page that holds the byte at `offset` is cached; if so it is now the
    /// most recently used one. Where chance has decided to evict the page, it leaves the
    /// cache instead, and is not found.
    pub fn access(&mut self, path: &PathBuf, offset: u64, evict: bool) -> (hit: bool)
        requires
            old(self).wf(),
        ensures
            final(self).wf(),
            final(self).settings() == old(self).settings(),
            ({
                let page = (path@, offset / old(self).settings().page_size);
                &&& hit == (!evict && old(self)@.contains(page))
                &&& final(self)@ == (if hit {
                    without(old(self)@, page).push(page)
                } else if evict {
                    without(old(self)@, page)
                } else {
                    old(self)@
                })
            }),
    {
        let page: u64 = offset / self.config.page_size;
        let ghost key = (path@, page);
        proof {
            lemma_without(self.pages@, key);
        }
        if evict {
            let _ = self.pages.shift_remove(path.clone(), page);
            return false;
        }
        if self.pages.shift_remove(path.clone(), page) {
            let _ = self.pages.insert(path.clone(), page);
            return true;
        }
        false
    }

    /// Puts the page that holds the byte at `offset` into the cache. The oldest pages
    /// leave if the cache is full.
    pub fn insert(&mut self, path: &PathBuf, offset: u64)
        requires
            old(self).wf(),
        ensures
            final(self).wf(),
            final(self).settings() == old(self).settings(),
            final(self)@ == with_page(
                old(self)@,
                old(self).settings().max_pages as nat,
                (path@, offset / old(self).settings().page_size),
            ),
    {
        let page: u64 = offset / self.config.page_size;
        let ghost key = (path@, page);
        let ghost start = self.pages@;
        while self.pages.len() >= self.config.max_pages
            invariant
                self.config == old(self).config,
                self.config.wf(),
                self.pages@.len() <= self.config.max_pages,
                start.len() <= self.config.max_pages,
                self.pages@ == start || (self.pages@ == start.skip(1) && start.len()
                    == self.config.max_pages),
                start.no_duplicates(),
            decreases self.pages@.len(),
        {
            self.pages.shift_remove_index(0);
            proof {
                assert(start.remove(0) =~= start.skip(1));
            }
        }
        proof {
            assert(self.pages@ =~= with_room(start, self.config.max_pages as nat));
            assert(self.pages@.no_duplicates());
            lemma_without(self.pages@, key);
        }
        let _ = self.pages.shift_remove(path.clone(), page);
        let _ = self.pages.insert(path.clone(), page);
    }

    /// Drops all pages of a file.
    pub fn invalidate_file(&mut self, path: &PathBuf)
        requires
            old(self).wf(),
        ensures
            final(self).wf(),
            final(self).settings() == old(self).settings(),
            final(self)@ == without_file(old(self)@, path@),
    {
        self.invalidate(path, false);
        proof {
            let keep = |p: PageView| p.0 != path@;
            assert(keep =~= |p: PageView| !is_dropped(p, path@, false));
        }
    }

    /// Drops all pages of the files at the path and below it.
    pub fn invalidate_tree(&mut self, top: &PathBuf)
        requires
            old(self).wf(),
        ensures
            final(self).wf(),
            final(self).settings() == old(self).settings(),
            final(self)@ == without_tree(old(self)@, top@),
    {
        self.invalidate(top, true);
        proof {
            let keep = |p: PageView| !model::is_within(p.0, top@);
            assert(keep =~= |p: PageView| !is_dropped(p, top@, true));
        }
    }

    /// Drops all pages of the file at the path, and where `below` holds those of the files
    /// below it too.
    fn invalidate(&mut self, path: &PathBuf, below: bool)
        requires
            old(self).wf(),
        ensures
            final(self).wf(),
            final(self).settings() == old(self).settings(),
            final(self)@ == old(self)@.filter(|p: PageView| !is_dropped(p, path@, below)),
    {
        let ghost start = self.pages@;
        let ghost keep = |p: PageView| !is_dropped(p, path@, below);
        let ghost mut seen: int = 0;
        let mut i: usize = 0;
        proof {
            reveal(Seq::filter);
            assert(start.take(0).filter(keep) + start.skip(0) =~= start);
        }
        while i < self.pages.len()
            invariant
                0 <= seen <= start.len(),
                i == start.take(seen).filter(keep).len(),
                self.pages@ == start.take(seen).filter(keep) + start.skip(seen),
                self.config == old(self).config,
                self.config.wf(),
                keep == (|p: PageView| !is_dropped(p, path@, below)),
            decreases self.pages@.len() - i,
        {
            proof {
                assert(seen < start.len());
                assert(self.pages@[i as int] == start.skip(seen)[0]);
                assert(start.skip(seen)[0] == start[seen]);
                assert(start.take(seen + 1).drop_last() =~= start.take(seen));
                assert(start.take(seen + 1).last() == start[seen]);
                reveal(Seq::filter);
            }
            let leave = match self.pages.path_at(i) {
                Some(p) => if below {
                    p.is_within(path)
                } else {
                    p.same(path)
                },
                None => false,
            };
            if leave {
                self.pages.shift_remove_index(i);
            } else {
                i += 1;
            }
            proof {
                seen = seen + 1;
                assert(self.pages@ =~= start.take(seen).filter(keep) + start.skip(seen));
            }
        }
        proof {
            assert(start.take(seen) =~= start);
            assert(self.pages@ =~= start.filter(keep));
            lemma_filter_no_duplicates(start, keep);
            start.lemma_filter_len(keep);
        }
    }
}

/// Whether the page is one of the file at the path or, where `below` holds, of a file at or
/// below it.
spec fn is_dropped(page: PageView, path: PathView, below: bool) -> bool {
    if below {
        model::is_within(page.0, path)
    } else {
        page.0 == path
    }
}

/// Removing a page keeps the others once each.
pub proof fn lemma_without(pages: Seq<PageView>, page: PageView)
    requires
        pages.no_duplicates(),
    ensures
        without(pages, page).no_duplicates(),
        !without(pages, page).contains(page),
        !pages.contains(page) ==> without(pages, page) == pages,
        without(pages, page).len() == (if pages.contains(page) {
            pages.len() - 1
        } else {
            pages.len() as int
        }),
        forall|p: PageView| p != page ==> (without(pages, page).contains(p) <==> pages.contains(p)),
{
    pages.index_of_first_ensures(page);
    if pages.contains(page) {
        let i = pages.index_of_first(page).unwrap();
        let rest = pages.remove(i);
        assert(forall|j: int| 0 <= j < i ==> rest[j] == pages[j]);
        assert(forall|j: int| i <= j < rest.len() ==> rest[j] == pages[j + 1]);
        assert forall|p: PageView| p != page implies (rest.contains(p) <==> pages.contains(p)) by {
            if pages.contains(p) {
                let k = choose|k: int| 0 <= k < pages.len() && pages[k] == p;
                if k < i {
                    assert(rest[k] == p);
                } else {
                    assert(rest[k - 1] == p);
                }
            }
        }
    }
}

proof fn lemma_filter_no_duplicates(pages: Seq<PageView>, keep: spec_fn(PageView) -> bool)
    requires
        pages.no_duplicates(),
    ensures
        pages.filter(keep).no_duplicates(),
        forall|p: PageView| pages.filter(keep).contains(p) ==> pages.contains(p),
    decreases pages.len(),
{
    reveal(Seq::filter);
    if pages.len() > 0 {
        lemma_filter_no_duplicates(pages.drop_last(), keep);
        let rest = pages.drop_last().filter(keep);
        assert(!pages.drop_last().contains(pages.last()));
        assert forall|p: PageView| pages.filter(keep).contains(p) implies pages.contains(p) by {
            if rest.contains(p) {
                assert(pages.drop_last().contains(p));
                let k = choose|k: int| 0 <= k < pages.drop_last().len() && pages.drop_last()[k] == p;
                assert(pages[k] == p);
            } else {
                assert(p == pages.last());
                assert(pages[pages.len() - 1] == p);
            }
        }
    }
}

} // verus!
