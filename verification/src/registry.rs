//! The shared window registry: the last-known-good window set, the derived
//! per-application counts, the fuzzy lookup API, and the pure state of the
//! polling scheduler.

use vstd::prelude::*;
use vstd::pervasive::VecAdditionalExecFns;
use crate::text::{fuzzy_matches, fuzzy_match, lower_seq, str_eq};

verus! {

/// One normalized window fact: this window, with this title and focus state,
/// belongs to this application identifier.
pub struct WindowInfo {
    pub id: String,
    pub title: String,
    pub app_id: String,
    pub is_active: bool,
}

/// The mathematical image of a `WindowInfo`: every field as a plain value.
pub ghost struct WinView {
    pub id: Seq<char>,
    pub title: Seq<char>,
    pub app_id: Seq<char>,
    pub is_active: bool,
}

impl View for WindowInfo {
    type V = WinView;

    open spec fn view(&self) -> WinView {
        WinView { id: self.id@, title: self.title@, app_id: self.app_id@, is_active: self.is_active }
    }
}

impl Clone for WindowInfo {
    fn clone(&self) -> (r: Self)
        ensures
            r@ == self@,
    {
        WindowInfo {
            id: self.id.clone(),
            title: self.title.clone(),
            app_id: self.app_id.clone(),
            is_active: self.is_active,
        }
    }
}

/// The views of a sequence of window records.
pub open spec fn views_of(s: Seq<WindowInfo>) -> Seq<WinView> {
    s.map_values(|w: WindowInfo| w@)
}

/// Views distribute over appending one record.
pub proof fn lemma_views_of_push(s: Seq<WindowInfo>, w: WindowInfo)
    ensures
        views_of(s.push(w)) == views_of(s).push(w@),
{
    assert(views_of(s.push(w)) =~= views_of(s).push(w@));
}

/// The desktop session kind, chosen once at startup and immutable thereafter.
#[derive(Clone, Copy, PartialEq, Eq, Structural, Debug)]
pub enum DesktopEnvironment {
    KDE,
    GNOME,
    Hyprland,
    Sway,
    Unknown,
}

/// The per-application count table as plain values: each entry a key,
/// exactly as stored, with its positive count.
pub open spec fn counts_view_of(s: Seq<(String, u32)>) -> Seq<(Seq<char>, u32)> {
    s.map_values(|e: (String, u32)| (e.0@, e.1))
}

/// Index of the first entry whose key equals `q` exactly, or -1.
pub open spec fn exact_index(s: Seq<(Seq<char>, u32)>, q: Seq<char>) -> int
    decreases s.len(),
{
    if s.len() == 0 {
        -1
    } else if s[0].0 == q {
        0
    } else {
        let r = exact_index(s.drop_first(), q);
        if r == -1 {
            -1
        } else {
            r + 1
        }
    }
}

/// Index of the first entry whose key fuzzy-matches `q`, or -1.
pub open spec fn fuzzy_index(s: Seq<(Seq<char>, u32)>, q: Seq<char>) -> int
    decreases s.len(),
{
    if s.len() == 0 {
        -1
    } else if fuzzy_matches(s[0].0, q) {
        0
    } else {
        let r = fuzzy_index(s.drop_first(), q);
        if r == -1 {
            -1
        } else {
            r + 1
        }
    }
}

/// The count a lookup of `q` returns: the exactly matching entry first, then
/// the first fuzzy match, then zero.
pub open spec fn count_of(s: Seq<(Seq<char>, u32)>, q: Seq<char>) -> u32 {
    if exact_index(s, q) >= 0 {
        s[exact_index(s, q)].1
    } else if fuzzy_index(s, q) >= 0 {
        s[fuzzy_index(s, q)].1
    } else {
        0
    }
}

/// The count stored under `q` itself, ignoring fuzzy fallback; zero if absent.
pub open spec fn stored_count(s: Seq<(Seq<char>, u32)>, q: Seq<char>) -> u32 {
    if exact_index(s, q) >= 0 {
        s[exact_index(s, q)].1
    } else {
        0
    }
}

/// Well-formedness of the count table: keys are pairwise distinct and no
/// entry holds a zero count — absence means zero.
pub open spec fn counts_ok(s: Seq<(Seq<char>, u32)>) -> bool {
    (forall|i: int, j: int| 0 <= i < j < s.len() ==> s[i].0 != s[j].0) && (forall|i: int|
        0 <= i < s.len() ==> s[i].1 > 0)
}

/// `exact_index` finds the first exact match, and -1 means there is none.
pub proof fn lemma_exact_index(s: Seq<(Seq<char>, u32)>, q: Seq<char>)
    ensures
        exact_index(s, q) == -1 ==> forall|i: int| 0 <= i < s.len() ==> s[i].0 != q,
        exact_index(s, q) != -1 ==> 0 <= exact_index(s, q) < s.len() && s[exact_index(s, q)].0
            == q && forall|i: int| 0 <= i < exact_index(s, q) ==> s[i].0 != q,
    decreases s.len(),
{
    if s.len() > 0 && s[0].0 != q {
        let t = s.drop_first();
        lemma_exact_index(t, q);
        if exact_index(t, q) == -1 {
            assert forall|i: int| 0 <= i < s.len() implies s[i].0 != q by {
                if i > 0 {
                    assert(t[i - 1] == s[i]);
                }
            }
        } else {
            let e = exact_index(s, q);
            assert(t[e - 1] == s[e]);
            assert forall|i: int| 0 <= i < e implies s[i].0 != q by {
                if i > 0 {
                    assert(t[i - 1] == s[i]);
                }
            }
        }
    }
}

/// `fuzzy_index` finds the first fuzzy match, and -1 means there is none.
pub proof fn lemma_fuzzy_index(s: Seq<(Seq<char>, u32)>, q: Seq<char>)
    ensures
        fuzzy_index(s, q) == -1 ==> forall|i: int|
            0 <= i < s.len() ==> !fuzzy_matches(s[i].0, q),
        fuzzy_index(s, q) != -1 ==> 0 <= fuzzy_index(s, q) < s.len() && fuzzy_matches(
            s[fuzzy_index(s, q)].0,
            q,
        ) && forall|i: int| 0 <= i < fuzzy_index(s, q) ==> !fuzzy_matches(s[i].0, q),
    decreases s.len(),
{
    if s.len() > 0 && !fuzzy_matches(s[0].0, q) {
        let t = s.drop_first();
        lemma_fuzzy_index(t, q);
        if fuzzy_index(t, q) == -1 {
            assert forall|i: int| 0 <= i < s.len() implies !fuzzy_matches(s[i].0, q) by {
                if i > 0 {
                    assert(t[i - 1] == s[i]);
                }
            }
        } else {
            let e = fuzzy_index(s, q);
            assert(t[e - 1] == s[e]);
            assert forall|i: int| 0 <= i < e implies !fuzzy_matches(s[i].0, q) by {
                if i > 0 {
                    assert(t[i - 1] == s[i]);
                }
            }
        }
    }
}

/// How many windows of a record set belong to `app`.
pub open spec fn occ_count(ws: Seq<WinView>, app: Seq<char>) -> nat {
    ws.filter(|w: WinView| w.app_id == app).len()
}

/// The distinct application identifiers of a record set, in order of first
/// appearance.
pub open spec fn apps_in_order(ws: Seq<WinView>) -> Seq<Seq<char>>
    decreases ws.len(),
{
    if ws.len() == 0 {
        Seq::empty()
    } else {
        let pre = apps_in_order(ws.drop_last());
        if pre.contains(ws.last().app_id) {
            pre
        } else {
            pre.push(ws.last().app_id)
        }
    }
}

/// The keys of a count table, in storage order.
pub open spec fn keys_of(s: Seq<(Seq<char>, u32)>) -> Seq<Seq<char>> {
    s.map_values(|e: (Seq<char>, u32)| e.0)
}

/// Exact lookup depends only on the keys and values in their positions.
pub proof fn lemma_exact_index_same_keys(
    s1: Seq<(Seq<char>, u32)>,
    s2: Seq<(Seq<char>, u32)>,
    q: Seq<char>,
)
    requires
        s1.len() == s2.len(),
        forall|i: int| 0 <= i < s1.len() ==> s1[i].0 == s2[i].0,
    ensures
        exact_index(s1, q) == exact_index(s2, q),
{
    lemma_exact_index(s1, q);
    lemma_exact_index(s2, q);
    let e1 = exact_index(s1, q);
    let e2 = exact_index(s2, q);
    if e1 == -1 && e2 != -1 {
        assert(s1[e2].0 == q);
    } else if e1 != -1 && e2 == -1 {
        assert(s2[e1].0 == q);
    } else if e1 != -1 && e2 != -1 && e1 != e2 {
        if e1 < e2 {
            assert(s2[e1].0 == q);
        } else {
            assert(s1[e2].0 == q);
        }
    }
}

/// The count override a sequence of entries leaves for `q`: the last entry
/// under that key, or zero when there is none (a zero entry also means zero).
pub open spec fn last_count(es: Seq<(Seq<char>, u32)>, q: Seq<char>) -> u32
    decreases es.len(),
{
    if es.len() == 0 {
        0
    } else if es.last().0 == q {
        es.last().1
    } else {
        last_count(es.drop_last(), q)
    }
}

/// Appending an entry under a different key does not change a stored count.
pub proof fn lemma_stored_push_other(s: Seq<(Seq<char>, u32)>, e: (Seq<char>, u32), q: Seq<char>)
    requires
        e.0 != q,
    ensures
        stored_count(s.push(e), q) == stored_count(s, q),
{
    let t = s.push(e);
    lemma_exact_index(s, q);
    lemma_exact_index(t, q);
    let e0 = exact_index(s, q);
    let e1 = exact_index(t, q);
    assert(forall|k: int| 0 <= k < s.len() ==> t[k] == s[k]);
    if e0 == -1 {
        if e1 != -1 {
            assert(t[e1].0 == q);
            if e1 == t.len() - 1 {
                assert(false);
            } else {
                assert(s[e1].0 == q);
                assert(false);
            }
        }
    } else {
        assert(t[e0].0 == q);
        if e1 == -1 {
            assert(false);
        }
        if e1 < e0 {
            assert(s[e1].0 == q);
            assert(false);
        }
        if e1 > e0 {
            assert(false);
        }
    }
}

/// Replacing an entry's count, keeping its key, does not change the stored
/// count of any other key.
pub proof fn lemma_stored_update_other(
    s: Seq<(Seq<char>, u32)>,
    idx: int,
    e: (Seq<char>, u32),
    q: Seq<char>,
)
    requires
        0 <= idx < s.len(),
        e.0 == s[idx].0,
        e.0 != q,
    ensures
        stored_count(s.update(idx, e), q) == stored_count(s, q),
{
    let t = s.update(idx, e);
    lemma_exact_index_same_keys(s, t, q);
    lemma_exact_index(s, q);
    let e0 = exact_index(s, q);
    if e0 >= 0 {
        assert(s[e0].0 == q);
        assert(e0 != idx);
        assert(t[e0] == s[e0]);
    }
}

/// Removing an entry under a different key does not change a stored count.
pub proof fn lemma_stored_remove_other(s: Seq<(Seq<char>, u32)>, idx: int, q: Seq<char>)
    requires
        0 <= idx < s.len(),
        s[idx].0 != q,
    ensures
        stored_count(s.remove(idx), q) == stored_count(s, q),
{
    let t = s.remove(idx);
    lemma_exact_index(s, q);
    lemma_exact_index(t, q);
    let e0 = exact_index(s, q);
    let e1 = exact_index(t, q);
    assert(forall|k: int| 0 <= k < idx ==> t[k] == s[k]);
    assert(forall|k: int| idx <= k < t.len() ==> t[k] == s[k + 1]);
    if e0 == -1 {
        if e1 != -1 {
            if e1 < idx {
                assert(s[e1].0 == q);
            } else {
                assert(s[e1 + 1].0 == q);
            }
            assert(false);
        }
    } else {
        assert(s[e0].0 == q);
        assert(e0 != idx);
        if e0 < idx {
            assert(t[e0].0 == q);
            if e1 == -1 {
                assert(false);
            }
            if e1 < e0 {
                if e1 < idx {
                    assert(s[e1].0 == q);
                } else {
                    assert(s[e1 + 1].0 == q);
                }
                assert(false);
            }
            if e1 > e0 {
                assert(false);
            }
            assert(t[e1] == s[e0]);
        } else {
            assert(t[e0 - 1].0 == q);
            if e1 == -1 {
                assert(false);
            }
            if e1 < e0 - 1 {
                if e1 < idx {
                    assert(s[e1].0 == q);
                    assert(false);
                } else {
                    assert(s[e1 + 1].0 == q);
                    assert(false);
                }
            }
            if e1 > e0 - 1 {
                assert(t[e0 - 1].0 == q);
                assert(false);
            }
            assert(e1 == e0 - 1);
            assert(t[e1] == s[e0]);
        }
    }
}

/// What a counting poll leaves behind: the count table holds exactly the
/// overrides `es`, applied in order, while the record set and the scheduler
/// state are untouched.
pub open spec fn counts_replaced(
    pre: WindowTracker,
    post: WindowTracker,
    es: Seq<(Seq<char>, u32)>,
) -> bool {
    &&& post.wf()
    &&& post.windows_vw() == pre.windows_vw()
    &&& post.spec_running() == pre.spec_running()
    &&& post.spec_desktop() == pre.spec_desktop()
    &&& forall|q: Seq<char>| stored_count(post.counts_vw(), q) == last_count(es, q)
}

/// What a successful poll leaves behind: the record set is exactly `ws`, the
/// count table is derived from it (each application's stored count is its
/// number of windows, keys in order of first appearance), and the scheduler
/// state is untouched.
pub open spec fn snapshot_replaced(
    pre: WindowTracker,
    post: WindowTracker,
    ws: Seq<WinView>,
) -> bool {
    &&& post.wf()
    &&& post.windows_vw() == ws
    &&& post.spec_running() == pre.spec_running()
    &&& post.spec_desktop() == pre.spec_desktop()
    &&& forall|q: Seq<char>| stored_count(post.counts_vw(), q) as nat == occ_count(ws, q)
    &&& keys_of(post.counts_vw()) == apps_in_order(ws)
}

/// Position of the entry of a count table stored exactly under `app_id`.
fn find_entry(counts: &Vec<(String, u32)>, app_id: &str) -> (r: Option<usize>)
    ensures
        match r {
            Some(i) => exact_index(counts_view_of(counts@), app_id@) == i as int,
            None => exact_index(counts_view_of(counts@), app_id@) == -1,
        },
{
    let ghost cv = counts_view_of(counts@);
    let n: usize = counts.len();
    let mut i: usize = 0;
    while i < n
        invariant
            n == counts@.len(),
            cv == counts_view_of(counts@),
            i <= n,
            forall|k: int| 0 <= k < i ==> cv[k].0 != app_id@,
        decreases n - i,
    {
        if str_eq(counts[i].0.as_str(), app_id) {
            proof {
                lemma_exact_index(cv, app_id@);
                assert(cv[i as int].0 == app_id@);
            }
            return Some(i);
        }
        i += 1;
    }
    proof {
        lemma_exact_index(cv, app_id@);
    }
    None
}

/// The window registry and scheduler state: the record set and count table
/// are replaced together, so readers never see the one out of step with the
/// other.
pub struct WindowTracker {
    windows: Vec<WindowInfo>,
    counts: Vec<(String, u32)>,
    running: bool,
    desktop: DesktopEnvironment,
}

impl WindowTracker {
    /// The current record set, as plain values.
    pub closed spec fn windows_vw(self) -> Seq<WinView> {
        views_of(self.windows@)
    }

    /// The current count table, as plain values.
    pub closed spec fn counts_vw(self) -> Seq<(Seq<char>, u32)> {
        counts_view_of(self.counts@)
    }

    /// Whether the scheduler is running.
    pub closed spec fn spec_running(self) -> bool {
        self.running
    }

    /// The backend kind chosen at construction.
    pub closed spec fn spec_desktop(self) -> DesktopEnvironment {
        self.desktop
    }

    /// Well-formedness: the count table has distinct keys and no zero counts.
    pub open spec fn wf(self) -> bool {
        counts_ok(self.counts_vw())
    }

    /// Create an empty tracker for sessions whose kind is not yet known.
    pub fn new() -> (r: Self)
        ensures
            r.wf(),
            r.windows_vw() == Seq::<WinView>::empty(),
            r.counts_vw() == Seq::<(Seq<char>, u32)>::empty(),
            !r.spec_running(),
            r.spec_desktop() == DesktopEnvironment::Unknown,
    {
        let r = WindowTracker {
            windows: Vec::new(),
            counts: Vec::new(),
            running: false,
            desktop: DesktopEnvironment::Unknown,
        };
        proof {
            assert(views_of(r.windows@) =~= Seq::<WinView>::empty());
            assert(counts_view_of(r.counts@) =~= Seq::<(Seq<char>, u32)>::empty());
        }
        r
    }

    /// Create an empty tracker for a session of the given kind.
    pub fn new_with_environment(desktop: DesktopEnvironment) -> (r: Self)
        ensures
            r.wf(),
            r.windows_vw() == Seq::<WinView>::empty(),
            r.counts_vw() == Seq::<(Seq<char>, u32)>::empty(),
            !r.spec_running(),
            r.spec_desktop() == desktop,
    {
        let r = WindowTracker {
            windows: Vec::new(),
            counts: Vec::new(),
            running: false,
            desktop,
        };
        proof {
            assert(views_of(r.windows@) =~= Seq::<WinView>::empty());
            assert(counts_view_of(r.counts@) =~= Seq::<(Seq<char>, u32)>::empty());
        }
        r
    }

    /// Start tracking; starting an already running tracker changes nothing.
    pub fn start(&mut self)
        ensures
            final(self).spec_running(),
            final(self).windows_vw() == old(self).windows_vw(),
            final(self).counts_vw() == old(self).counts_vw(),
            final(self).spec_desktop() == old(self).spec_desktop(),
    {
        self.running = true;
    }

    /// Stop tracking; the last snapshot remains readable.
    pub fn stop(&mut self)
        ensures
            !final(self).spec_running(),
            final(self).windows_vw() == old(self).windows_vw(),
            final(self).counts_vw() == old(self).counts_vw(),
            final(self).spec_desktop() == old(self).spec_desktop(),
    {
        self.running = false;
    }

    /// Whether the scheduler is currently running.
    pub fn is_running(&self) -> (r: bool)
        ensures
            r == self.spec_running(),
    {
        self.running
    }

    /// The backend kind this tracker was created for.
    pub fn get_desktop_environment(&self) -> (r: DesktopEnvironment)
        ensures
            r == self.spec_desktop(),
    {
        self.desktop
    }

    /// All currently tracked windows, in registry order.
    pub fn get_all_windows(&self) -> (r: Vec<WindowInfo>)
        ensures
            views_of(r@) == self.windows_vw(),
    {
        let mut out: Vec<WindowInfo> = Vec::new();
        let n: usize = self.windows.len();
        let mut i: usize = 0;
        while i < n
            invariant
                n == self.windows@.len(),
                i <= n,
                views_of(out@) == views_of(self.windows@.take(i as int)),
            decreases n - i,
        {
            let ghost prev = out@;
            proof {
                assert(views_of(prev).len() == prev.len());
                assert(prev.len() == i as int);
            }
            let w = self.windows[i].clone();
            let ghost wrec = w;
            let ghost wv = w@;
            proof {
                assert(wv == self.windows@[i as int]@);
            }
            out.push(w);
            proof {
                assert(out@ == prev.push(wrec));
                assert(out@.len() == i + 1);
                assert forall|k: int| 0 <= k <= i implies views_of(out@)[k] == views_of(
                    self.windows@.take(i + 1),
                )[k] by {
                    assert(self.windows@.take(i + 1)[k] == self.windows@[k]);
                    if k < i {
                        assert(out@[k] == prev[k]);
                        assert(views_of(prev)[k] == views_of(self.windows@.take(i as int))[k]);
                        assert(self.windows@.take(i as int)[k] == self.windows@[k]);
                    } else {
                        assert(out@[k]@ == wv);
                    }
                }
                assert(views_of(out@) =~= views_of(self.windows@.take(i + 1)));
            }
            i += 1;
        }
        proof {
            assert(self.windows@.take(n as int) =~= self.windows@);
        }
        out
    }

    /// The number of windows of `app_id`: an exact lookup first, then the
    /// first case-insensitively containing key, then zero.
    pub fn get_window_count(&self, app_id: &str) -> (r: u32)
        ensures
            r == count_of(self.counts_vw(), app_id@),
    {
        let ghost cv = self.counts_vw();
        let n: usize = self.counts.len();
        let mut i: usize = 0;
        while i < n
            invariant
                n == self.counts@.len(),
                cv == self.counts_vw(),
                i <= n,
                forall|k: int| 0 <= k < i ==> cv[k].0 != app_id@,
            decreases n - i,
        {
            if str_eq(self.counts[i].0.as_str(), app_id) {
                proof {
                    lemma_exact_index(cv, app_id@);
                    assert(cv[i as int].0 == app_id@);
                    assert(exact_index(cv, app_id@) == i as int);
                }
                return self.counts[i].1;
            }
            i += 1;
        }
        proof {
            lemma_exact_index(cv, app_id@);
            assert(exact_index(cv, app_id@) == -1);
        }
        let mut j: usize = 0;
        while j < n
            invariant
                n == self.counts@.len(),
                cv == self.counts_vw(),
                exact_index(cv, app_id@) == -1,
                j <= n,
                forall|k: int| 0 <= k < j ==> !fuzzy_matches(cv[k].0, app_id@),
            decreases n - j,
        {
            if fuzzy_match(self.counts[j].0.as_str(), app_id) {
                proof {
                    lemma_fuzzy_index(cv, app_id@);
                    assert(fuzzy_matches(cv[j as int].0, app_id@));
                    assert(fuzzy_index(cv, app_id@) == j as int);
                }
                return self.counts[j].1;
            }
            j += 1;
        }
        proof {
            lemma_fuzzy_index(cv, app_id@);
            assert(fuzzy_index(cv, app_id@) == -1);
        }
        0
    }

    /// All windows whose application identifier fuzzy-matches `app_id`, in
    /// registry order.
    pub fn get_windows_for_app(&self, app_id: &str) -> (r: Vec<WindowInfo>)
        ensures
            views_of(r@) == self.windows_vw().filter(
                |w: WinView| fuzzy_matches(w.app_id, app_id@),
            ),
    {
        let mut out: Vec<WindowInfo> = Vec::new();
        let n: usize = self.windows.len();
        let mut i: usize = 0;
        while i < n
            invariant
                n == self.windows@.len(),
                i <= n,
                views_of(out@) == views_of(self.windows@.take(i as int)).filter(
                    |w: WinView| fuzzy_matches(w.app_id, app_id@),
                ),
            decreases n - i,
        {
            proof {
                let pre = views_of(self.windows@.take(i as int));
                let cur = views_of(self.windows@.take(i + 1));
                assert(cur =~= pre.push(self.windows@[i as int]@));
                reveal(Seq::filter);
                assert(cur.drop_last() =~= pre);
                assert(cur.last() == self.windows@[i as int]@);
            }
            if fuzzy_match(self.windows[i].app_id.as_str(), app_id) {
                let w = self.windows[i].clone();
                out.push(w);
            }
            i += 1;
        }
        proof {
            assert(self.windows@.take(n as int) =~= self.windows@);
        }
        out
    }

    /// External override of one application's count. A positive count is
    /// stored (replacing any entry under the same key); a zero count removes
    /// the entry — absence means zero.
    pub fn set_window_count(&mut self, app_id: &str, count: u32)
        requires
            old(self).wf(),
        ensures
            final(self).wf(),
            final(self).windows_vw() == old(self).windows_vw(),
            final(self).spec_running() == old(self).spec_running(),
            final(self).spec_desktop() == old(self).spec_desktop(),
            count == 0 ==> final(self).counts_vw() == (if exact_index(
                old(self).counts_vw(),
                app_id@,
            ) >= 0 {
                old(self).counts_vw().remove(exact_index(old(self).counts_vw(), app_id@))
            } else {
                old(self).counts_vw()
            }),
            count == 0 ==> forall|i: int|
                0 <= i < final(self).counts_vw().len() ==> final(self).counts_vw()[i].0
                    != app_id@,
            count > 0 ==> final(self).counts_vw() == (if exact_index(
                old(self).counts_vw(),
                app_id@,
            ) >= 0 {
                old(self).counts_vw().update(
                    exact_index(old(self).counts_vw(), app_id@),
                    (app_id@, count),
                )
            } else {
                old(self).counts_vw().push((app_id@, count))
            }),
            count > 0 ==> stored_count(final(self).counts_vw(), app_id@) == count,
    {
        let ghost ov = self.counts_vw();
        let found = find_entry(&self.counts, app_id);
        match found {
            Some(idx) => {
                proof {
                    lemma_exact_index(ov, app_id@);
                }
                if count == 0 {
                    self.counts.remove(idx);
                    proof {
                        let nv = self.counts_vw();
                        assert(nv =~= ov.remove(idx as int));
                        assert forall|i: int| 0 <= i < nv.len() implies nv[i].0 != app_id@ by {
                            if i < idx {
                                assert(nv[i] == ov[i]);
                            } else {
                                assert(nv[i] == ov[i + 1]);
                            }
                        }
                        assert forall|i: int, j: int| 0 <= i < j < nv.len() implies nv[i].0
                            != nv[j].0 by {
                            let i0 = if i < idx { i } else { i + 1 };
                            let j0 = if j < idx { j } else { j + 1 };
                            assert(nv[i] == ov[i0]);
                            assert(nv[j] == ov[j0]);
                        }
                    }
                } else {
                    let name = self.counts[idx].0.clone();
                    self.counts.set(idx, (name, count));
                    proof {
                        let nv = self.counts_vw();
                        assert(nv =~= ov.update(idx as int, (app_id@, count)));
                        lemma_exact_index_same_keys(ov, nv, app_id@);
                        assert(stored_count(nv, app_id@) == count);
                    }
                }
            },
            None => {
                proof {
                    lemma_exact_index(ov, app_id@);
                }
                if count > 0 {
                    self.counts.push((app_id.to_owned(), count));
                    proof {
                        let nv = self.counts_vw();
                        assert(nv =~= ov.push((app_id@, count)));
                        lemma_exact_index(nv, app_id@);
                        let e = exact_index(nv, app_id@);
                        assert(nv[nv.len() - 1].0 == app_id@);
                        if e == -1 {
                            assert(false);
                        }
                        assert(forall|i: int| 0 <= i < ov.len() ==> nv[i] == ov[i]);
                        assert(e == nv.len() - 1);
                        assert(stored_count(nv, app_id@) == count);
                    }
                }
            },
        }
    }

    /// A successful poll: replace the record set and the count table derived
    /// from it as one atomic unit. Every application's stored count is its
    /// number of windows, and the keys stand in order of first appearance.
    pub fn apply_poll_success(&mut self, windows: Vec<WindowInfo>)
        requires
            windows@.len() <= u32::MAX,
        ensures
            snapshot_replaced(*old(self), *final(self), views_of(windows@)),
    {
        let ghost wsv = views_of(windows@);
        let mut tally: Vec<(String, u32)> = Vec::new();
        proof {
            broadcast use vstd::seq_lib::group_seq_properties;

            reveal(Seq::filter);
            assert(wsv.take(0) =~= Seq::<WinView>::empty());
            assert(counts_view_of(tally@) =~= Seq::<(Seq<char>, u32)>::empty());
            assert(keys_of(counts_view_of(tally@)) =~= apps_in_order(wsv.take(0)));
        }
        let n: usize = windows.len();
        let mut i: usize = 0;
        while i < n
            invariant
                n == windows@.len(),
                n <= u32::MAX,
                wsv == views_of(windows@),
                i <= n,
                counts_ok(counts_view_of(tally@)),
                forall|q: Seq<char>|
                    stored_count(counts_view_of(tally@), q) as nat == occ_count(
                        wsv.take(i as int),
                        q,
                    ),
                keys_of(counts_view_of(tally@)) == apps_in_order(wsv.take(i as int)),
            decreases n - i,
        {
            let ghost pre_t = counts_view_of(tally@);
            let ghost pre = wsv.take(i as int);
            let ghost cur = wsv.take(i + 1);
            let ghost app = wsv[i as int].app_id;
            proof {
                assert(cur.drop_last() =~= pre);
                assert(cur.last() == wsv[i as int]);
                reveal(Seq::filter);
                assert forall|q: Seq<char>| #[trigger] occ_count(cur, q) == occ_count(pre, q)
                    + (if q == app {
                    1nat
                } else {
                    0nat
                }) by {
                    assert(cur.filter(|w: WinView| w.app_id == q) == (if cur.last().app_id == q {
                        cur.drop_last().filter(|w: WinView| w.app_id == q).push(cur.last())
                    } else {
                        cur.drop_last().filter(|w: WinView| w.app_id == q)
                    }));
                }
            }
            let found = find_entry(&tally, windows[i].app_id.as_str());
            match found {
                Some(idx) => {
                    proof {
                        lemma_exact_index(pre_t, app);
                        assert(pre_t[idx as int].0 == app);
                        broadcast use vstd::seq_lib::group_seq_properties;

                        pre.lemma_filter_len(|w: WinView| w.app_id == app);
                        assert(occ_count(pre, app) <= pre.len());
                        assert(stored_count(pre_t, app) as nat == occ_count(pre, app));
                        assert(exact_index(pre_t, app) == idx as int);
                        assert(stored_count(pre_t, app) == pre_t[idx as int].1);
                    }
                    let c: u32 = tally[idx].1;
                    let name = tally[idx].0.clone();
                    tally.set(idx, (name, c + 1));
                    proof {
                        let nv = counts_view_of(tally@);
                        assert(nv =~= pre_t.update(idx as int, (app, (c + 1) as u32)));
                        assert forall|q: Seq<char>| #[trigger] stored_count(nv, q) as nat
                            == occ_count(cur, q) by {
                            assert(stored_count(pre_t, q) as nat == occ_count(pre, q));
                            assert(occ_count(cur, q) == occ_count(pre, q) + (if q == app {
                                1nat
                            } else {
                                0nat
                            }));
                            lemma_exact_index_same_keys(pre_t, nv, q);
                            lemma_exact_index(pre_t, q);
                            let e = exact_index(pre_t, q);
                            if q == app {
                                assert(e == idx as int);
                                assert(nv[idx as int].1 == c + 1);
                                assert(stored_count(nv, q) == c + 1);
                                assert(stored_count(pre_t, q) == c);
                            } else {
                                if e == idx as int {
                                    assert(pre_t[idx as int].0 == q);
                                    assert(false);
                                }
                                if e >= 0 {
                                    assert(nv[e] == pre_t[e]);
                                    assert(stored_count(nv, q) == stored_count(pre_t, q));
                                } else {
                                    assert(stored_count(nv, q) == 0);
                                    assert(stored_count(pre_t, q) == 0);
                                }
                            }
                        }
                        assert(keys_of(nv) =~= keys_of(pre_t));
                        assert(apps_in_order(pre)[idx as int] == app);
                        assert(apps_in_order(pre).contains(app));
                        assert(apps_in_order(cur) == apps_in_order(pre));
                    }
                },
                None => {
                    proof {
                        lemma_exact_index(pre_t, app);
                    }
                    let name = windows[i].app_id.clone();
                    tally.push((name, 1));
                    proof {
                        let nv = counts_view_of(tally@);
                        assert(nv =~= pre_t.push((app, 1u32)));
                        assert forall|q: Seq<char>| #[trigger] stored_count(nv, q) as nat
                            == occ_count(cur, q) by {
                            assert(stored_count(pre_t, q) as nat == occ_count(pre, q));
                            assert(occ_count(cur, q) == occ_count(pre, q) + (if q == app {
                                1nat
                            } else {
                                0nat
                            }));
                            lemma_exact_index(pre_t, q);
                            lemma_exact_index(nv, q);
                            let e0 = exact_index(pre_t, q);
                            let e1 = exact_index(nv, q);
                            assert(forall|k: int| 0 <= k < pre_t.len() ==> nv[k] == pre_t[k]);
                            if q == app {
                                assert(e0 == -1);
                                assert(nv[nv.len() - 1].0 == q);
                                if e1 == -1 {
                                    assert(false);
                                }
                                assert(e1 == nv.len() - 1);
                                assert(stored_count(nv, q) == 1);
                                assert(occ_count(pre, q) == 0);
                            } else {
                                if e0 == -1 {
                                    if e1 != -1 {
                                        assert(nv[e1].0 == q);
                                        if e1 == nv.len() - 1 {
                                            assert(nv[e1].0 == app);
                                            assert(false);
                                        } else {
                                            assert(pre_t[e1].0 == q);
                                            assert(false);
                                        }
                                    }
                                    assert(stored_count(nv, q) == 0);
                                    assert(stored_count(pre_t, q) == 0);
                                } else {
                                    assert(nv[e0].0 == q);
                                    if e1 == -1 {
                                        assert(false);
                                    }
                                    if e1 < e0 {
                                        assert(pre_t[e1].0 == q);
                                        assert(false);
                                    }
                                    if e1 > e0 {
                                        assert(nv[e0].0 == q);
                                        assert(false);
                                    }
                                    assert(e1 == e0);
                                    assert(stored_count(nv, q) == stored_count(pre_t, q));
                                }
                            }
                        }
                        assert forall|k: int| 0 <= k < nv.len() implies nv[k].1 > 0 by {
                            if k < pre_t.len() {
                                assert(nv[k] == pre_t[k]);
                            }
                        }
                        assert forall|k: int, l: int| 0 <= k < l < nv.len() implies nv[k].0
                            != nv[l].0 by {
                            if l < pre_t.len() {
                                assert(nv[k] == pre_t[k]);
                                assert(nv[l] == pre_t[l]);
                            } else {
                                assert(nv[k] == pre_t[k]);
                                assert(nv[l].0 == app);
                            }
                        }
                        assert(keys_of(nv) =~= keys_of(pre_t).push(app));
                        if apps_in_order(pre).contains(app) {
                            let k = choose|k: int|
                                0 <= k < apps_in_order(pre).len() && apps_in_order(pre)[k] == app;
                            assert(pre_t[k].0 == app);
                            assert(false);
                        }
                        assert(apps_in_order(cur) == apps_in_order(pre).push(app));
                    }
                },
            }
            i += 1;
        }
        proof {
            assert(wsv.take(n as int) =~= wsv);
        }
        self.windows = windows;
        self.counts = tally;
    }

    /// Replace the whole count table with a sequence of per-application
    /// overrides, applied in order: a later entry under the same key wins,
    /// and a zero count means absent. The record set is not touched — this
    /// is the path for backends that report counts without window detail.
    pub fn apply_count_snapshot(&mut self, entries: &Vec<(String, u32)>)
        ensures
            counts_replaced(*old(self), *final(self), counts_view_of(entries@)),
    {
        let ghost ev = counts_view_of(entries@);
        self.counts.clear();
        proof {
            assert(self.counts_vw() =~= Seq::<(Seq<char>, u32)>::empty());
            assert(ev.take(0) =~= Seq::<(Seq<char>, u32)>::empty());
            assert forall|q: Seq<char>| #[trigger] stored_count(self.counts_vw(), q)
                == last_count(ev.take(0), q) by {
                lemma_exact_index(self.counts_vw(), q);
            }
        }
        let n: usize = entries.len();
        let mut i: usize = 0;
        while i < n
            invariant
                n == entries@.len(),
                ev == counts_view_of(entries@),
                i <= n,
                self.wf(),
                self.windows_vw() == old(self).windows_vw(),
                self.spec_running() == old(self).spec_running(),
                self.spec_desktop() == old(self).spec_desktop(),
                forall|q: Seq<char>|
                    #[trigger] stored_count(self.counts_vw(), q) == last_count(
                        ev.take(i as int),
                        q,
                    ),
            decreases n - i,
        {
            let ghost pre = self.counts_vw();
            let ghost app = ev[i as int].0;
            let c: u32 = entries[i].1;
            self.set_window_count(entries[i].0.as_str(), c);
            proof {
                let nv = self.counts_vw();
                assert(ev.take(i + 1).drop_last() =~= ev.take(i as int));
                assert(ev.take(i + 1).last() == ev[i as int]);
                lemma_exact_index(pre, app);
                assert forall|q: Seq<char>| #[trigger] stored_count(nv, q) == last_count(
                    ev.take(i + 1),
                    q,
                ) by {
                    if q == app {
                        if c > 0 {
                            assert(stored_count(nv, q) == c);
                        } else {
                            lemma_exact_index(nv, q);
                            if exact_index(nv, q) >= 0 {
                                assert(nv[exact_index(nv, q)].0 == q);
                                assert(false);
                            }
                            assert(stored_count(nv, q) == 0);
                        }
                    } else {
                        assert(stored_count(pre, q) == last_count(ev.take(i as int), q));
                        if c == 0 {
                            if exact_index(pre, app) >= 0 {
                                assert(nv == pre.remove(exact_index(pre, app)));
                                lemma_stored_remove_other(pre, exact_index(pre, app), q);
                            } else {
                                assert(nv == pre);
                            }
                        } else {
                            if exact_index(pre, app) >= 0 {
                                assert(nv == pre.update(exact_index(pre, app), (app, c)));
                                lemma_stored_update_other(
                                    pre,
                                    exact_index(pre, app),
                                    (app, c),
                                    q,
                                );
                            } else {
                                assert(nv == pre.push((app, c)));
                                lemma_stored_push_other(pre, (app, c), q);
                            }
                        }
                    }
                }
            }
            i += 1;
        }
        proof {
            assert(ev.take(n as int) =~= ev);
        }
    }

    /// A failed poll: the registry is left exactly as it was, so readers keep
    /// seeing the last good snapshot.
    pub fn apply_poll_failure(&mut self)
        ensures
            *final(self) == *old(self),
    {
    }
}

/// Case-insensitive lookup: two queries that agree after lower-casing are
/// answered with the same count, in any well-formed table in which at most
/// one stored key fuzzy-matches them. (With two such keys the answers can
/// differ: each query may hit its own key exactly.)
pub proof fn lemma_count_case_insensitive(
    s: Seq<(Seq<char>, u32)>,
    q1: Seq<char>,
    q2: Seq<char>,
)
    requires
        counts_ok(s),
        lower_seq(q1) == lower_seq(q2),
        forall|i: int, j: int|
            0 <= i < s.len() && 0 <= j < s.len() && fuzzy_matches(s[i].0, q1) && fuzzy_matches(
                s[j].0,
                q1,
            ) ==> i == j,
    ensures
        count_of(s, q1) == count_of(s, q2),
{
    assert forall|k: Seq<char>| #[trigger] fuzzy_matches(k, q1) == fuzzy_matches(k, q2) by {
        assert(lower_seq(q1) == lower_seq(q2));
    }
    lemma_exact_index(s, q1);
    lemma_exact_index(s, q2);
    lemma_fuzzy_index(s, q1);
    lemma_fuzzy_index(s, q2);
    let e1 = exact_index(s, q1);
    let e2 = exact_index(s, q2);
    let f1 = fuzzy_index(s, q1);
    let f2 = fuzzy_index(s, q2);
    // The two fuzzy searches agree: they scan the same predicate.
    if f1 == -1 && f2 != -1 {
        assert(fuzzy_matches(s[f2].0, q2));
        assert(fuzzy_matches(s[f2].0, q1));
    } else if f1 != -1 && f2 == -1 {
        assert(fuzzy_matches(s[f1].0, q2));
    } else if f1 != -1 && f2 != -1 && f1 != f2 {
        assert(fuzzy_matches(s[f1].0, q2));
        assert(fuzzy_matches(s[f2].0, q1));
    }
    assert(f1 == f2);
    if e1 >= 0 {
        crate::text::lemma_contains_self(lower_seq(q1));
        assert(fuzzy_matches(s[e1].0, q1));
        assert(f1 != -1);
        assert(fuzzy_matches(s[f1].0, q1));
        assert(f1 == e1);
    }
    if e2 >= 0 {
        crate::text::lemma_contains_self(lower_seq(q2));
        assert(fuzzy_matches(s[e2].0, q2));
        assert(f2 != -1);
        assert(fuzzy_matches(s[f2].0, q1));
        assert(f2 == e2);
    }
}

/// Round trip: a positive count stored under a key — the state
/// `set_window_count` leaves behind — is exactly what a lookup of that key
/// returns, whatever else the table holds.
pub proof fn lemma_override_round_trip(s: Seq<(Seq<char>, u32)>, q: Seq<char>, n: u32)
    requires
        n > 0,
        stored_count(s, q) == n,
    ensures
        count_of(s, q) == n,
{
}

/// Snapshot atomicity: a failed poll right after a successful one leaves
/// exactly the successful poll's record set readable — never an empty or
/// mixed one.
pub proof fn lemma_snapshot_atomicity(
    after_success: WindowTracker,
    after_failure: WindowTracker,
    ws: Seq<WinView>,
)
    requires
        after_success.windows_vw() == ws,
        after_failure == after_success,
    ensures
        after_failure.windows_vw() == ws,
{
}

} // verus!
