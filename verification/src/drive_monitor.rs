//! Drive monitoring: the cached list of mounted drives and the monitor's
//! running flag. Scanning the system for drives happens outside the library.

use vstd::prelude::*;

verus! {

/// One mounted drive.
pub struct DriveInfo {
    pub name: String,
    pub mount_point: String,
    pub is_removable: bool,
}

/// The mathematical image of a `DriveInfo`.
pub ghost struct DriveView {
    pub name: Seq<char>,
    pub mount_point: Seq<char>,
    pub is_removable: bool,
}

impl View for DriveInfo {
    type V = DriveView;

    open spec fn view(&self) -> DriveView {
        DriveView {
            name: self.name@,
            mount_point: self.mount_point@,
            is_removable: self.is_removable,
        }
    }
}

impl Clone for DriveInfo {
    fn clone(&self) -> (r: Self)
        ensures
            r@ == self@,
    {
        DriveInfo {
            name: self.name.clone(),
            mount_point: self.mount_point.clone(),
            is_removable: self.is_removable,
        }
    }
}

/// The views of a sequence of drives.
pub open spec fn drives_view(s: Seq<DriveInfo>) -> Seq<DriveView> {
    s.map_values(|d: DriveInfo| d@)
}

/// Tracks removable drives and mounted partitions.
pub struct DriveMonitor {
    drives: Vec<DriveInfo>,
    running: bool,
}

impl DriveMonitor {
    /// The cached drives, as plain values.
    pub closed spec fn drives_vw(self) -> Seq<DriveView> {
        drives_view(self.drives@)
    }

    /// Whether monitoring is on.
    pub closed spec fn spec_running(self) -> bool {
        self.running
    }

    /// Create a monitor with no drives cached.
    pub fn new() -> (r: Self)
        ensures
            r.drives_vw() == Seq::<DriveView>::empty(),
            !r.spec_running(),
    {
        let r = DriveMonitor { drives: Vec::new(), running: false };
        proof {
            assert(r.drives_vw() =~= Seq::<DriveView>::empty());
        }
        r
    }

    /// Start monitoring; starting twice changes nothing.
    pub fn start(&mut self)
        ensures
            final(self).spec_running(),
            final(self).drives_vw() == old(self).drives_vw(),
    {
        self.running = true;
    }

    /// The cached list of drives.
    pub fn get_drives(&self) -> (r: Vec<DriveInfo>)
        ensures
            drives_view(r@) == self.drives_vw(),
    {
        let mut out: Vec<DriveInfo> = Vec::new();
        let n: usize = self.drives.len();
        let mut i: usize = 0;
        proof {
            assert(drives_view(out@) =~= drives_view(self.drives@.take(0)));
        }
        while i < n
            invariant
                n == self.drives@.len(),
                i <= n,
                drives_view(out@) == drives_view(self.drives@.take(i as int)),
            decreases n - i,
        {
            let ghost prev = out@;
            proof {
                assert(drives_view(prev).len() == prev.len());
                assert(prev.len() == i as int);
            }
            let d = self.drives[i].clone();
            let ghost dd = d;
            out.push(d);
            proof {
                assert(out@ == prev.push(dd));
                assert forall|k: int| 0 <= k <= i implies drives_view(out@)[k] == drives_view(
                    self.drives@.take(i + 1),
                )[k] by {
                    assert(self.drives@.take(i + 1)[k] == self.drives@[k]);
                    if k < i {
                        assert(out@[k] == prev[k]);
                        assert(drives_view(prev)[k] == drives_view(self.drives@.take(i as int))[k]);
                        assert(self.drives@.take(i as int)[k] == self.drives@[k]);
                    } else {
                        assert(out@[k]@ == dd@);
                    }
                }
                assert(drives_view(out@) =~= drives_view(self.drives@.take(i + 1)));
            }
            i += 1;
        }
        proof {
            assert(self.drives@.take(n as int) =~= self.drives@);
        }
        out
    }

    /// Whether monitoring is on.
    pub fn is_running(&self) -> (r: bool)
        ensures
            r == self.spec_running(),
    {
        self.running
    }

    /// Stop monitoring; the cached list stays readable.
    pub fn stop(&mut self)
        ensures
            !final(self).spec_running(),
            final(self).drives_vw() == old(self).drives_vw(),
    {
        self.running = false;
    }
}

} // verus!
