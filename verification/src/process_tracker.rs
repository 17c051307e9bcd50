//! Process-existence tracking: a coarser is-alive signal for registered
//! applications, updated from snapshots of the running process names. The
//! snapshot itself comes from outside the library; everything decided from
//! it is verified here.

use vstd::prelude::*;
use vstd::pervasive::VecAdditionalExecFns;
use crate::text::{tokens_of, first_token, str_eq, strs_view, trim_spec, trim_str};

verus! {

/// The process name an app command is tracked under: the command's first
/// word, or the whole command when it has no words.
pub open spec fn spec_process_name(c: Seq<char>) -> Seq<char> {
    if tokens_of(c).len() > 0 {
        tokens_of(c)[0]
    } else {
        c
    }
}

/// Extract the process name from an app command.
pub fn command_to_process_name(command: &str) -> (r: String)
    ensures
        r@ == spec_process_name(command@),
{
    first_token(command)
}

/// Index of the first tracked app under `q`, or -1.
pub open spec fn app_find(s: Seq<(Seq<char>, bool)>, q: Seq<char>) -> int
    decreases s.len(),
{
    if s.len() == 0 {
        -1
    } else if s[0].0 == q {
        0
    } else {
        let r = app_find(s.drop_first(), q);
        if r == -1 {
            -1
        } else {
            r + 1
        }
    }
}

/// `app_find` finds the first entry, and -1 means there is none.
pub proof fn lemma_app_find(s: Seq<(Seq<char>, bool)>, q: Seq<char>)
    ensures
        app_find(s, q) == -1 ==> forall|i: int| 0 <= i < s.len() ==> s[i].0 != q,
        app_find(s, q) != -1 ==> 0 <= app_find(s, q) < s.len() && s[app_find(s, q)].0 == q
            && forall|i: int| 0 <= i < app_find(s, q) ==> s[i].0 != q,
    decreases s.len(),
{
    if s.len() > 0 && s[0].0 != q {
        let t = s.drop_first();
        lemma_app_find(t, q);
        if app_find(t, q) == -1 {
            assert forall|i: int| 0 <= i < s.len() implies s[i].0 != q by {
                if i > 0 {
                    assert(t[i - 1] == s[i]);
                }
            }
        } else {
            let e = app_find(s, q);
            assert(t[e - 1] == s[e]);
            assert forall|i: int| 0 <= i < e implies s[i].0 != q by {
                if i > 0 {
                    assert(t[i - 1] == s[i]);
                }
            }
        }
    }
}

/// Whether the app under `q` is marked running; an unregistered app is not.
pub open spec fn app_running(s: Seq<(Seq<char>, bool)>, q: Seq<char>) -> bool {
    if app_find(s, q) >= 0 {
        s[app_find(s, q)].1
    } else {
        false
    }
}

/// The registered process names are pairwise distinct.
pub open spec fn apps_ok(s: Seq<(Seq<char>, bool)>) -> bool {
    forall|i: int, j: int| 0 <= i < j < s.len() ==> s[i].0 != s[j].0
}

/// The process names of one snapshot, each trimmed of surrounding
/// whitespace (`ps` output carries padding).
pub open spec fn snapshot_names(names: Seq<Seq<char>>) -> Seq<Seq<char>> {
    names.map_values(|x: Seq<char>| trim_spec(x))
}

/// Tracks which registered applications have a live process of their name.
pub struct ProcessTracker {
    apps: Vec<(String, bool)>,
    running: bool,
}

impl ProcessTracker {
    /// The tracked apps as plain values: each process name with its flag.
    pub closed spec fn apps_vw(self) -> Seq<(Seq<char>, bool)> {
        self.apps@.map_values(|e: (String, bool)| (e.0@, e.1))
    }

    /// Whether the refresh loop is running.
    pub closed spec fn spec_running(self) -> bool {
        self.running
    }

    /// Well-formedness: no process name is registered twice.
    pub open spec fn wf(self) -> bool {
        apps_ok(self.apps_vw())
    }

    /// Create a tracker with no registered apps.
    pub fn new() -> (r: Self)
        ensures
            r.wf(),
            r.apps_vw() == Seq::<(Seq<char>, bool)>::empty(),
            !r.spec_running(),
    {
        let r = ProcessTracker { apps: Vec::new(), running: false };
        proof {
            assert(r.apps_vw() =~= Seq::<(Seq<char>, bool)>::empty());
        }
        r
    }

    /// Register an application to track, by its command. The app starts (or
    /// is reset to) not running until the next snapshot.
    pub fn register_app(&mut self, command: &str)
        requires
            old(self).wf(),
        ensures
            final(self).wf(),
            final(self).spec_running() == old(self).spec_running(),
            final(self).apps_vw() == (if app_find(
                old(self).apps_vw(),
                spec_process_name(command@),
            ) >= 0 {
                old(self).apps_vw().update(
                    app_find(old(self).apps_vw(), spec_process_name(command@)),
                    (spec_process_name(command@), false),
                )
            } else {
                old(self).apps_vw().push((spec_process_name(command@), false))
            }),
    {
        let name = command_to_process_name(command);
        let ghost pre = self.apps_vw();
        let ghost key = name@;
        let n: usize = self.apps.len();
        let mut i: usize = 0;
        while i < n
            invariant
                n == self.apps@.len(),
                pre == self.apps_vw(),
                pre == old(self).apps_vw(),
                apps_ok(pre),
                self.spec_running() == old(self).spec_running(),
                key == name@,
                key == spec_process_name(command@),
                i <= n,
                forall|k: int| 0 <= k < i ==> pre[k].0 != key,
            decreases n - i,
        {
            if str_eq(self.apps[i].0.as_str(), name.as_str()) {
                proof {
                    lemma_app_find(pre, key);
                    assert(pre[i as int].0 == key);
                }
                self.apps.set(i, (name, false));
                proof {
                    assert(self.apps_vw() =~= pre.update(i as int, (key, false)));
                    assert forall|a: int, b: int|
                        0 <= a < b < self.apps_vw().len() implies self.apps_vw()[a].0
                        != self.apps_vw()[b].0 by {
                        let nv = self.apps_vw();
                        assert(nv[a].0 == pre[a].0);
                        assert(nv[b].0 == pre[b].0);
                    }
                }
                return ;
            }
            i += 1;
        }
        proof {
            lemma_app_find(pre, key);
        }
        self.apps.push((name, false));
        proof {
            assert(self.apps_vw() =~= pre.push((key, false)));
            assert forall|a: int, b: int|
                0 <= a < b < self.apps_vw().len() implies self.apps_vw()[a].0
                != self.apps_vw()[b].0 by {
                let nv = self.apps_vw();
                if b < pre.len() {
                    assert(nv[a] == pre[a]);
                    assert(nv[b] == pre[b]);
                } else {
                    assert(nv[a] == pre[a]);
                    assert(nv[b].0 == key);
                }
            }
        }
    }

    /// Whether the app registered under this command's process name was seen
    /// alive in the last snapshot.
    pub fn is_running(&self, command: &str) -> (r: bool)
        ensures
            r == app_running(self.apps_vw(), spec_process_name(command@)),
    {
        let name = command_to_process_name(command);
        let ghost key = name@;
        let ghost av = self.apps_vw();
        let n: usize = self.apps.len();
        let mut i: usize = 0;
        while i < n
            invariant
                n == self.apps@.len(),
                av == self.apps_vw(),
                key == spec_process_name(command@),
                key == name@,
                i <= n,
                forall|k: int| 0 <= k < i ==> av[k].0 != key,
            decreases n - i,
        {
            if str_eq(self.apps[i].0.as_str(), name.as_str()) {
                proof {
                    lemma_app_find(av, key);
                    assert(av[i as int].0 == key);
                    assert(app_find(av, key) == i as int);
                }
                return self.apps[i].1;
            }
            i += 1;
        }
        proof {
            lemma_app_find(av, key);
        }
        false
    }

    /// Start the refresh loop; starting twice changes nothing.
    pub fn start(&mut self)
        ensures
            final(self).spec_running(),
            final(self).apps_vw() == old(self).apps_vw(),
    {
        self.running = true;
    }

    /// Ask the refresh loop to stop; registered apps keep their last state.
    pub fn stop(&mut self)
        ensures
            !final(self).spec_running(),
            final(self).apps_vw() == old(self).apps_vw(),
    {
        self.running = false;
    }

    /// Update every registered app's flag from one snapshot of the running
    /// process names: an app is running exactly when its name is among the
    /// snapshot's trimmed names.
    pub fn apply_process_snapshot(&mut self, names: &Vec<String>)
        ensures
            final(self).spec_running() == old(self).spec_running(),
            final(self).apps_vw().len() == old(self).apps_vw().len(),
            forall|i: int|
                0 <= i < final(self).apps_vw().len() ==> #[trigger] final(self).apps_vw()[i].0
                    == old(self).apps_vw()[i].0 && final(self).apps_vw()[i].1 == snapshot_names(
                    strs_view(names@),
                ).contains(old(self).apps_vw()[i].0),
    {
        let ghost pre = self.apps_vw();
        let n: usize = self.apps.len();
        let mut i: usize = 0;
        while i < n
            invariant
                n == self.apps@.len(),
                pre.len() == n,
                pre == old(self).apps_vw(),
                self.spec_running() == old(self).spec_running(),
                i <= n,
                forall|k: int|
                    0 <= k < n ==> #[trigger] self.apps_vw()[k].0 == pre[k].0,
                forall|k: int|
                    i <= k < n ==> #[trigger] self.apps_vw()[k].1 == pre[k].1,
                forall|k: int|
                    0 <= k < i ==> #[trigger] self.apps_vw()[k].1 == snapshot_names(
                        strs_view(names@),
                    ).contains(pre[k].0),
            decreases n - i,
        {
            let mut found: bool = false;
            let m: usize = names.len();
            let mut j: usize = 0;
            while j < m && !found
                invariant
                    n == self.apps@.len(),
                    i < n,
                    m == names@.len(),
                    j <= m,
                    found ==> snapshot_names(strs_view(names@)).contains(
                        self.apps_vw()[i as int].0,
                    ),
                    !found ==> forall|k: int|
                        0 <= k < j ==> snapshot_names(strs_view(names@))[k] != self.apps_vw()[
                            i as int
                        ].0,
                decreases m - j + (if found {
                    0int
                } else {
                    1int
                }),
            {
                let cand = trim_str(names[j].as_str());
                if str_eq(cand, self.apps[i].0.as_str()) {
                    proof {
                        assert(snapshot_names(strs_view(names@))[j as int] == self.apps_vw()[
                            i as int
                        ].0);
                    }
                    found = true;
                } else {
                    proof {
                        assert(snapshot_names(strs_view(names@))[j as int] == cand@);
                    }
                    j += 1;
                }
            }
            proof {
                if !found {
                    let cur = self.apps_vw()[i as int].0;
                    assert forall|k: int|
                        0 <= k < snapshot_names(strs_view(names@)).len() implies snapshot_names(
                            strs_view(names@),
                        )[k] != cur by {}
                    assert(!snapshot_names(strs_view(names@)).contains(cur));
                }
            }
            let ghost before = self.apps_vw();
            let name = self.apps[i].0.clone();
            self.apps.set(i, (name, found));
            proof {
                assert(self.apps_vw() =~= before.update(
                    i as int,
                    (pre[i as int].0, found),
                ));
            }
            i += 1;
        }
    }
}

} // verus!
