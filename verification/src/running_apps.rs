//! Discovery of running GUI applications: a cache of desktop entries keyed
//! by process name, and the selection of the cached apps whose process is
//! alive and not already pinned. Reading desktop files and listing processes
//! happens outside the library.

use vstd::prelude::*;
use vstd::pervasive::VecAdditionalExecFns;
use crate::text::{
    tokens_of, base_name, lower_seq, trim_spec, first_token_opt, base_name_str, to_lower_string,
    trim_str, str_eq, str_le, seq_le, strs_view,
};
use crate::desktop_entry::{DesktopEntry, spec_visible, spec_exec_command};

verus! {

/// Information about one running application shown by the dock.
pub struct RunningApp {
    pub name: String,
    pub icon: String,
    pub command: String,
    pub desktop_file: Option<String>,
    pub process_name: String,
}

/// The mathematical image of a `RunningApp`.
pub ghost struct RunAppView {
    pub name: Seq<char>,
    pub icon: Seq<char>,
    pub command: Seq<char>,
    pub desktop_file: Option<Seq<char>>,
    pub process_name: Seq<char>,
}

impl View for RunningApp {
    type V = RunAppView;

    open spec fn view(&self) -> RunAppView {
        RunAppView {
            name: self.name@,
            icon: self.icon@,
            command: self.command@,
            desktop_file: match self.desktop_file {
                Some(f) => Some(f@),
                None => None,
            },
            process_name: self.process_name@,
        }
    }
}

/// The views of a sequence of running apps.
pub open spec fn runs_view(s: Seq<RunningApp>) -> Seq<RunAppView> {
    s.map_values(|a: RunningApp| a@)
}

/// The process name a command is cached under: its first word's base name
/// (the part after the last slash), lower-cased; empty when the command has
/// no words.
pub open spec fn cache_key(cmd: Seq<char>) -> Seq<char> {
    if tokens_of(cmd).len() > 0 {
        lower_seq(base_name(tokens_of(cmd)[0]))
    } else {
        Seq::empty()
    }
}

/// The key a desktop entry is cached under: the key of its command line.
pub open spec fn entry_key(e: DesktopEntry) -> Seq<char> {
    match e.exec_line {
        Some(x) => cache_key(x@),
        None => Seq::empty(),
    }
}

/// Whether an entry goes into the cache: a visible application whose cache
/// key is non-empty.
pub open spec fn should_cache(e: DesktopEntry) -> bool {
    spec_visible(e) && entry_key(e).len() > 0
}

/// Index of the first cached entry under `q`, or -1.
pub open spec fn cache_find(s: Seq<(Seq<char>, DesktopEntry)>, q: Seq<char>) -> int
    decreases s.len(),
{
    if s.len() == 0 {
        -1
    } else if s[0].0 == q {
        0
    } else {
        let r = cache_find(s.drop_first(), q);
        if r == -1 {
            -1
        } else {
            r + 1
        }
    }
}

/// `cache_find` finds the first entry, and -1 means there is none.
pub proof fn lemma_cache_find(s: Seq<(Seq<char>, DesktopEntry)>, q: Seq<char>)
    ensures
        cache_find(s, q) == -1 ==> forall|i: int| 0 <= i < s.len() ==> s[i].0 != q,
        cache_find(s, q) != -1 ==> 0 <= cache_find(s, q) < s.len() && s[cache_find(s, q)].0 == q
            && forall|i: int| 0 <= i < cache_find(s, q) ==> s[i].0 != q,
    decreases s.len(),
{
    if s.len() > 0 && s[0].0 != q {
        let t = s.drop_first();
        lemma_cache_find(t, q);
        if cache_find(t, q) == -1 {
            assert forall|i: int| 0 <= i < s.len() implies s[i].0 != q by {
                if i > 0 {
                    assert(t[i - 1] == s[i]);
                }
            }
        } else {
            let e = cache_find(s, q);
            assert(t[e - 1] == s[e]);
            assert forall|i: int| 0 <= i < e implies s[i].0 != q by {
                if i > 0 {
                    assert(t[i - 1] == s[i]);
                }
            }
        }
    }
}

/// The lower-cased, trimmed process names of a snapshot.
pub open spec fn proc_names(names: Seq<Seq<char>>) -> Seq<Seq<char>> {
    names.map_values(|x: Seq<char>| lower_seq(trim_spec(x)))
}

/// The cache keys of the pinned commands.
pub open spec fn pinned_keys(cmds: Seq<Seq<char>>) -> Seq<Seq<char>> {
    cmds.map_values(|c: Seq<char>| cache_key(c))
}

/// The view of the app a cached entry is reported as.
pub open spec fn run_view_of(key: Seq<char>, e: DesktopEntry) -> RunAppView {
    RunAppView {
        name: match e.name {
            Some(n) => n@,
            None => key,
        },
        icon: match e.icon {
            Some(i) => i@,
            None => "application-x-executable"@,
        },
        command: match e.exec_line {
            Some(x) => spec_exec_command(x@),
            None => key,
        },
        desktop_file: Some(e.path@),
        process_name: key,
    }
}

/// The cached apps whose process is in the snapshot and whose key is not
/// pinned, in cache order.
pub open spec fn selected_apps(
    cache: Seq<(Seq<char>, DesktopEntry)>,
    procs: Seq<Seq<char>>,
    pinned: Seq<Seq<char>>,
) -> Seq<RunAppView>
    decreases cache.len(),
{
    if cache.len() == 0 {
        Seq::empty()
    } else {
        selected_apps(cache.drop_last(), procs, pinned) + (if proc_names(procs).contains(
            cache.last().0,
        ) && !pinned_keys(pinned).contains(cache.last().0) {
            seq![run_view_of(cache.last().0, cache.last().1)]
        } else {
            Seq::empty()
        })
    }
}

/// Insert an app into a name-sorted sequence: after every app whose name
/// comes at or before its own, so apps with equal names keep their arrival
/// order.
pub open spec fn insert_by_name(s: Seq<RunAppView>, x: RunAppView) -> Seq<RunAppView>
    decreases s.len(),
{
    if s.len() == 0 {
        seq![x]
    } else if seq_le(s[0].name, x.name) {
        seq![s[0]] + insert_by_name(s.drop_first(), x)
    } else {
        seq![x] + s
    }
}

/// The stable reordering of a sequence of apps ascending by name.
pub open spec fn sort_by_name(s: Seq<RunAppView>) -> Seq<RunAppView>
    decreases s.len(),
{
    if s.len() == 0 {
        Seq::empty()
    } else {
        insert_by_name(sort_by_name(s.drop_last()), s.last())
    }
}

/// An insertion lands exactly before the first app whose name comes
/// strictly after the new one.
proof fn lemma_insert_by_name_at(s: Seq<RunAppView>, x: RunAppView, p: int)
    requires
        0 <= p <= s.len(),
        forall|i: int| 0 <= i < p ==> seq_le(s[i].name, x.name),
        p < s.len() ==> !seq_le(s[p].name, x.name),
    ensures
        insert_by_name(s, x) == s.insert(p, x),
    decreases s.len(),
{
    if s.len() == 0 {
        assert(s.insert(0, x) =~= seq![x]);
    } else if p == 0 {
        assert(s.insert(0, x) =~= seq![x] + s);
    } else {
        let t = s.drop_first();
        assert(forall|i: int| 0 <= i < t.len() ==> t[i] == s[i + 1]);
        lemma_insert_by_name_at(t, x, p - 1);
        assert(seq![s[0]] + t.insert(p - 1, x) =~= s.insert(p, x));
    }
}

/// Tracks running GUI applications through a cache of desktop entries keyed
/// by process name.
pub struct RunningAppsService {
    desktop_cache: Vec<(String, DesktopEntry)>,
}

/// The cache key of a command line, as text.
fn cache_key_of(cmd: &str) -> (r: String)
    ensures
        r@ == cache_key(cmd@),
{
    match first_token_opt(cmd) {
        Some(tok) => to_lower_string(base_name_str(tok.as_str())),
        None => String::new(),
    }
}

impl RunningAppsService {
    /// The cache, as key views paired with the entries.
    pub closed spec fn cache_vw(self) -> Seq<(Seq<char>, DesktopEntry)> {
        self.desktop_cache@.map_values(|e: (String, DesktopEntry)| (e.0@, e.1))
    }

    /// Create a service with an empty cache; entries are added as desktop
    /// files are read.
    pub fn new() -> (r: Self)
        ensures
            r.cache_vw() == Seq::<(Seq<char>, DesktopEntry)>::empty(),
    {
        let r = RunningAppsService { desktop_cache: Vec::new() };
        proof {
            assert(r.cache_vw() =~= Seq::<(Seq<char>, DesktopEntry)>::empty());
        }
        r
    }

    /// Add one parsed desktop file to the cache: a visible application with
    /// a usable process name is stored under that name, replacing any entry
    /// under the same name; anything else is ignored.
    pub fn add_desktop_entry(&mut self, entry: DesktopEntry)
        ensures
            !should_cache(entry) ==> *final(self) == *old(self),
            should_cache(entry) ==> final(self).cache_vw() == (if cache_find(
                old(self).cache_vw(),
                entry_key(entry),
            ) >= 0 {
                old(self).cache_vw().update(
                    cache_find(old(self).cache_vw(), entry_key(entry)),
                    (entry_key(entry), entry),
                )
            } else {
                old(self).cache_vw().push((entry_key(entry), entry))
            }),
    {
        if !entry.is_visible_app() {
            return ;
        }
        let key: String = match &entry.exec_line {
            Some(x) => {
                proof {
                    assert(entry.exec_line is Some);
                    assert(entry.exec_line->0 == *x);
                }
                cache_key_of(x.as_str())
            },
            None => String::new(),
        };
        proof {
            assert(key@ == entry_key(entry));
        }
        if key.as_str().is_empty() {
            return ;
        }
        let ghost pre = self.cache_vw();
        let ghost k = key@;
        let n: usize = self.desktop_cache.len();
        let mut i: usize = 0;
        while i < n
            invariant
                n == self.desktop_cache@.len(),
                pre == self.cache_vw(),
                pre == old(self).cache_vw(),
                k == key@,
                k == entry_key(entry),
                should_cache(entry),
                i <= n,
                forall|j: int| 0 <= j < i ==> pre[j].0 != k,
            decreases n - i,
        {
            if str_eq(self.desktop_cache[i].0.as_str(), key.as_str()) {
                proof {
                    lemma_cache_find(pre, k);
                    assert(pre[i as int].0 == k);
                }
                self.desktop_cache.set(i, (key, entry));
                proof {
                    assert(self.cache_vw() =~= pre.update(i as int, (k, entry)));
                }
                return ;
            }
            i += 1;
        }
        proof {
            lemma_cache_find(pre, k);
        }
        self.desktop_cache.push((key, entry));
        proof {
            assert(self.cache_vw() =~= pre.push((k, entry)));
        }
    }

    /// The cached applications whose process name appears in the snapshot
    /// (trimmed and lower-cased) and is not among the pinned commands'
    /// process names, sorted ascending by name; apps with equal names keep
    /// their cache order.
    pub fn running_apps_from(
        &self,
        running_processes: &Vec<String>,
        pinned_commands: &Vec<String>,
    ) -> (r: Vec<RunningApp>)
        ensures
            runs_view(r@) == sort_by_name(
                selected_apps(
                    self.cache_vw(),
                    strs_view(running_processes@),
                    strs_view(pinned_commands@),
                ),
            ),
    {
        let ghost cv = self.cache_vw();
        let ghost procs = strs_view(running_processes@);
        let ghost pins = strs_view(pinned_commands@);
        let mut out: Vec<RunningApp> = Vec::new();
        let n: usize = self.desktop_cache.len();
        let mut i: usize = 0;
        proof {
            assert(cv.take(0) =~= Seq::<(Seq<char>, DesktopEntry)>::empty());
            assert(runs_view(out@) =~= selected_apps(cv.take(0), procs, pins));
        }
        while i < n
            invariant
                n == self.desktop_cache@.len(),
                cv == self.cache_vw(),
                procs == strs_view(running_processes@),
                pins == strs_view(pinned_commands@),
                i <= n,
                runs_view(out@) == selected_apps(cv.take(i as int), procs, pins),
            decreases n - i,
        {
            proof {
                assert(cv.take(i + 1).drop_last() =~= cv.take(i as int));
                assert(cv.take(i + 1).last() == cv[i as int]);
            }
            let key = &self.desktop_cache[i].0;
            // is the process alive?
            let mut alive: bool = false;
            let m: usize = running_processes.len();
            let mut j: usize = 0;
            while j < m && !alive
                invariant
                    n == self.desktop_cache@.len(),
                    i < n,
                    cv == self.cache_vw(),
                    procs == strs_view(running_processes@),
                    m == running_processes@.len(),
                    j <= m,
                    alive ==> proc_names(procs).contains(cv[i as int].0),
                    !alive ==> forall|t: int|
                        0 <= t < j ==> proc_names(procs)[t] != cv[i as int].0,
                decreases m - j + (if alive {
                    0int
                } else {
                    1int
                }),
            {
                let lowered = to_lower_string(trim_str(running_processes[j].as_str()));
                if str_eq(lowered.as_str(), self.desktop_cache[i].0.as_str()) {
                    proof {
                        assert(proc_names(procs)[j as int] == cv[i as int].0);
                    }
                    alive = true;
                } else {
                    proof {
                        assert(proc_names(procs)[j as int] == lowered@);
                    }
                    j += 1;
                }
            }
            proof {
                if !alive {
                    let ck = cv[i as int].0;
                    assert forall|t: int|
                        0 <= t < proc_names(procs).len() implies proc_names(procs)[t] != ck by {}
                    assert(!proc_names(procs).contains(ck));
                }
            }
            // is it pinned?
            let mut pinned: bool = false;
            let p: usize = pinned_commands.len();
            let mut q: usize = 0;
            while q < p && !pinned
                invariant
                    n == self.desktop_cache@.len(),
                    i < n,
                    cv == self.cache_vw(),
                    pins == strs_view(pinned_commands@),
                    p == pinned_commands@.len(),
                    q <= p,
                    pinned ==> pinned_keys(pins).contains(cv[i as int].0),
                    !pinned ==> forall|t: int|
                        0 <= t < q ==> pinned_keys(pins)[t] != cv[i as int].0,
                decreases p - q + (if pinned {
                    0int
                } else {
                    1int
                }),
            {
                let pk = cache_key_of(pinned_commands[q].as_str());
                if str_eq(pk.as_str(), self.desktop_cache[i].0.as_str()) {
                    proof {
                        assert(pinned_keys(pins)[q as int] == cv[i as int].0);
                    }
                    pinned = true;
                } else {
                    proof {
                        assert(pinned_keys(pins)[q as int] == pk@);
                    }
                    q += 1;
                }
            }
            proof {
                if !pinned {
                    let ck = cv[i as int].0;
                    assert forall|t: int|
                        0 <= t < pinned_keys(pins).len() implies pinned_keys(pins)[t] != ck by {}
                    assert(!pinned_keys(pins).contains(ck));
                }
            }
            if alive && !pinned {
                let entry = &self.desktop_cache[i].1;
                let name: String = match &entry.name {
                    Some(s) => s.clone(),
                    None => key.clone(),
                };
                let icon: String = match &entry.icon {
                    Some(s) => s.clone(),
                    None => "application-x-executable".to_owned(),
                };
                let command: String = match entry.exec_command() {
                    Some(c) => c,
                    None => key.clone(),
                };
                let app = RunningApp {
                    name,
                    icon,
                    command,
                    desktop_file: Some(entry.path.clone()),
                    process_name: key.clone(),
                };
                let ghost av = app@;
                proof {
                    assert(av == run_view_of(cv[i as int].0, cv[i as int].1));
                }
                let ghost prev = out@;
                out.push(app);
                proof {
                    assert(out@ == prev.push(out@[out@.len() - 1]));
                    assert(runs_view(out@) =~= selected_apps(cv.take(i + 1), procs, pins));
                }
            } else {
                proof {
                    assert(runs_view(out@) =~= selected_apps(cv.take(i + 1), procs, pins));
                }
            }
            i += 1;
        }
        proof {
            assert(cv.take(n as int) =~= cv);
        }
        let ghost picked = out@;
        let total: usize = out.len();
        let mut sorted: Vec<RunningApp> = Vec::new();
        let mut k: usize = 0;
        proof {
            assert(runs_view(picked.take(0)) =~= Seq::<RunAppView>::empty());
            assert(runs_view(sorted@) =~= sort_by_name(runs_view(picked.take(0))));
        }
        while k < total
            invariant
                total == picked.len(),
                k <= total,
                out@ == picked.skip(k as int),
                runs_view(sorted@) == sort_by_name(runs_view(picked.take(k as int))),
            decreases total - k,
        {
            proof {
                assert(picked.skip(k as int)[0] == picked[k as int]);
            }
            let app = out.remove(0);
            let ghost av = app@;
            proof {
                assert(out@ =~= picked.skip(k + 1));
                assert(av == picked[k as int]@);
            }
            let ghost sv = runs_view(sorted@);
            let slen: usize = sorted.len();
            let mut p: usize = 0;
            while p < slen && str_le(sorted[p].name.as_str(), app.name.as_str())
                invariant
                    slen == sorted@.len(),
                    sv == runs_view(sorted@),
                    av == app@,
                    p <= slen,
                    forall|t: int| 0 <= t < p ==> seq_le(sv[t].name, av.name),
                decreases slen - p,
            {
                p += 1;
            }
            proof {
                lemma_insert_by_name_at(sv, av, p as int);
            }
            let ghost prev_vec = sorted@;
            sorted.insert(p, app);
            proof {
                let pv = runs_view(picked.take(k + 1));
                assert(pv.drop_last() =~= runs_view(picked.take(k as int)));
                assert(pv.last() == av);
                assert(sort_by_name(pv) == sv.insert(p as int, av));
                assert(sorted@ == prev_vec.insert(p as int, app));
                assert forall|t: int| 0 <= t < runs_view(sorted@).len() implies runs_view(
                    sorted@,
                )[t] == sv.insert(p as int, av)[t] by {
                    if t < p {
                        assert(sorted@[t] == prev_vec[t]);
                        assert(sv.insert(p as int, av)[t] == sv[t]);
                    } else if t == p {
                        assert(sorted@[t]@ == av);
                        assert(sv.insert(p as int, av)[t] == av);
                    } else {
                        assert(sorted@[t] == prev_vec[t - 1]);
                        assert(sv.insert(p as int, av)[t] == sv[t - 1]);
                    }
                }
                assert(runs_view(sorted@) =~= sv.insert(p as int, av));
            }
            k += 1;
        }
        proof {
            assert(picked.take(total as int) =~= picked);
            assert(out@.len() == 0);
        }
        sorted
    }
}

} // verus!
