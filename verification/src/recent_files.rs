//! Recently used files: the cached list and the bounded query over it.
//! Reading the system's recently-used store happens outside the library.

use vstd::prelude::*;

verus! {

/// One recently used file.
pub struct RecentFile {
    pub name: String,
    pub path: String,
    pub timestamp: u64,
}

/// The mathematical image of a `RecentFile`.
pub ghost struct RecentFileView {
    pub name: Seq<char>,
    pub path: Seq<char>,
    pub timestamp: u64,
}

impl View for RecentFile {
    type V = RecentFileView;

    open spec fn view(&self) -> RecentFileView {
        RecentFileView { name: self.name@, path: self.path@, timestamp: self.timestamp }
    }
}

impl Clone for RecentFile {
    fn clone(&self) -> (r: Self)
        ensures
            r@ == self@,
    {
        RecentFile {
            name: self.name.clone(),
            path: self.path.clone(),
            timestamp: self.timestamp,
        }
    }
}

/// The views of a sequence of recent files.
pub open spec fn files_view(s: Seq<RecentFile>) -> Seq<RecentFileView> {
    s.map_values(|f: RecentFile| f@)
}

/// The cached list of recently accessed files.
pub struct RecentFilesService {
    files: Vec<RecentFile>,
}

impl RecentFilesService {
    /// The cached files, as plain values.
    pub closed spec fn files_vw(self) -> Seq<RecentFileView> {
        files_view(self.files@)
    }

    /// Create a service with no files cached.
    pub fn new() -> (r: Self)
        ensures
            r.files_vw() == Seq::<RecentFileView>::empty(),
    {
        let r = RecentFilesService { files: Vec::new() };
        proof {
            assert(r.files_vw() =~= Seq::<RecentFileView>::empty());
        }
        r
    }

    /// Ask for the list to be refreshed. Reading the system store is outside
    /// work; this call itself leaves the cache as it is.
    pub fn refresh(&self)
        ensures
            true,
    {
    }

    /// The first `limit` cached files, in cache order.
    pub fn get_recent_files(&self, limit: usize) -> (r: Vec<RecentFile>)
        ensures
            files_view(r@) == self.files_vw().take(
                if limit <= self.files_vw().len() {
                    limit as int
                } else {
                    self.files_vw().len() as int
                },
            ),
    {
        let n: usize = self.files.len();
        let stop: usize = if limit <= n {
            limit
        } else {
            n
        };
        let mut out: Vec<RecentFile> = Vec::new();
        let mut i: usize = 0;
        proof {
            assert(files_view(out@) =~= files_view(self.files@.take(0)));
        }
        while i < stop
            invariant
                n == self.files@.len(),
                stop <= n,
                i <= stop,
                files_view(out@) == files_view(self.files@.take(i as int)),
            decreases stop - i,
        {
            let ghost prev = out@;
            proof {
                assert(files_view(prev).len() == prev.len());
                assert(prev.len() == i as int);
            }
            let f = self.files[i].clone();
            let ghost ff = f;
            out.push(f);
            proof {
                assert(out@ == prev.push(ff));
                assert forall|k: int| 0 <= k <= i implies files_view(out@)[k] == files_view(
                    self.files@.take(i + 1),
                )[k] by {
                    assert(self.files@.take(i + 1)[k] == self.files@[k]);
                    if k < i {
                        assert(out@[k] == prev[k]);
                        assert(files_view(prev)[k] == files_view(self.files@.take(i as int))[k]);
                        assert(self.files@.take(i as int)[k] == self.files@[k]);
                    } else {
                        assert(out@[k]@ == ff@);
                    }
                }
                assert(files_view(out@) =~= files_view(self.files@.take(i + 1)));
            }
            i += 1;
        }
        proof {
            assert(files_view(self.files@.take(stop as int)) =~= self.files_vw().take(
                stop as int,
            ));
        }
        out
    }
}

} // verus!
