//! View state for the interactive front-end: which panel is shown, how
//! tables are sorted, which directories the tree has unfolded, and the
//! small flags the menu owns. Rendering itself lives outside the library.

use vstd::prelude::*;

verus! {

/// The panel the front-end currently shows.
#[derive(Clone, Copy, PartialEq, Eq, Structural)]
pub enum ViewMode {
    Tree,
    Chart,
    Details,
    Disks,
}

/// The column a table is sorted by.
#[derive(Clone, Copy, PartialEq, Eq, Structural)]
pub enum SortColumn {
    Name,
    Size,
    Modified,
    Type,
    Count,
}

/// State of the menu and status strip.
pub struct MainPanel {
    pub show_settings: bool,
    pub show_about: bool,
    pub dark_mode: bool,
    pub scan_path_input: String,
}

impl MainPanel {
    /// A fresh menu over the given starting path: dialogs closed, dark.
    pub fn new(initial_path: String) -> (p: MainPanel)
        ensures
            !p.show_settings,
            !p.show_about,
            p.dark_mode,
            p.scan_path_input@ == initial_path@,
    {
        MainPanel { show_settings: false, show_about: false, dark_mode: true, scan_path_input: initial_path }
    }
}

/// State of the directory tree view: the set of unfolded directories.
pub struct TreePanel {
    pub expanded_dirs: Vec<String>,
}

/// The list without the entries that view as `p`, order kept.
pub open spec fn keep_others(s: Seq<String>, p: Seq<char>) -> Seq<String>
    decreases s.len(),
{
    if s.len() == 0 {
        Seq::empty()
    } else if s.last()@ == p {
        keep_others(s.drop_last(), p)
    } else {
        keep_others(s.drop_last(), p).push(s.last())
    }
}

/// Dropping one path's entries keeps every other path's membership.
pub proof fn lemma_keep_others(s: Seq<String>, p: Seq<char>)
    ensures
        forall|k: int|
            0 <= k < keep_others(s, p).len() ==> (#[trigger] keep_others(s, p)[k])@ != p,
        forall|j: int|
            0 <= j < s.len() && (#[trigger] s[j])@ != p ==> exists|k: int|
                0 <= k < keep_others(s, p).len() && (#[trigger] keep_others(s, p)[k])@ == s[j]@,
        forall|k: int|
            0 <= k < keep_others(s, p).len() ==> exists|j: int|
                0 <= j < s.len() && (#[trigger] s[j])@ == (#[trigger] keep_others(s, p)[k])@,
    decreases s.len(),
{
    if s.len() > 0 {
        lemma_keep_others(s.drop_last(), p);
        let kd = keep_others(s.drop_last(), p);
        let kk = keep_others(s, p);
        assert forall|j: int|
            0 <= j < s.len() && (#[trigger] s[j])@ != p implies exists|k: int|
            0 <= k < kk.len() && (#[trigger] kk[k])@ == s[j]@ by {
            if j == s.len() - 1 {
                assert(kk.last()@ == s[j]@);
            } else {
                assert(s.drop_last()[j]@ == s[j]@);
                let k = choose|k: int| 0 <= k < kd.len() && (#[trigger] kd[k])@ == s[j]@;
                assert(kk[k]@ == s[j]@);
            }
        }
        assert forall|k: int|
            0 <= k < kk.len() implies exists|j: int|
            0 <= j < s.len() && (#[trigger] s[j])@ == (#[trigger] kk[k])@ by {
            if s.last()@ != p && k == kk.len() - 1 {
                assert(s[s.len() - 1]@ == kk[k]@);
            } else {
                assert(kk[k] == kd[k]);
                let j = choose|j: int|
                    0 <= j < s.drop_last().len() && (#[trigger] s.drop_last()[j])@ == kd[k]@;
                assert(s[j]@ == kk[k]@);
            }
        }
    }
}

/// Replacing the unfolded list by the others-only list (plus, possibly,
/// the toggled path itself) leaves every other path's state alone.
proof fn lemma_toggle_frame(a: TreePanel, b: TreePanel, pathv: String, found: bool)
    requires
        found ==> b.expanded_dirs@ == keep_others(a.expanded_dirs@, pathv@),
        !found ==> b.expanded_dirs@ == keep_others(a.expanded_dirs@, pathv@).push(pathv),
    ensures
        forall|q: Seq<char>|
            q != pathv@ ==> #[trigger] b.spec_expanded(q) == a.spec_expanded(q),
{
    let orig = a.expanded_dirs@;
    let kept_pre = keep_others(orig, pathv@);
    lemma_keep_others(orig, pathv@);
    assert forall|q: Seq<char>|
        q != pathv@ implies #[trigger] b.spec_expanded(q) == a.spec_expanded(q) by {
        if b.spec_expanded(q) {
            let k = choose|k: int|
                0 <= k < b.expanded_dirs@.len() && (#[trigger] b.expanded_dirs@[k])@ == q;
            if k < kept_pre.len() {
                assert(b.expanded_dirs@[k] == kept_pre[k]);
                let j = choose|j: int|
                    0 <= j < orig.len() && (#[trigger] orig[j])@ == (#[trigger] kept_pre[k])@;
                assert(orig[j]@ == q);
            } else {
                assert(!found);
                assert(b.expanded_dirs@[k]@ == pathv@);
                assert(false);
            }
        }
        if a.spec_expanded(q) {
            let j = choose|j: int| 0 <= j < orig.len() && (#[trigger] orig[j])@ == q;
            let k = choose|k: int|
                0 <= k < kept_pre.len() && (#[trigger] kept_pre[k])@ == orig[j]@;
            assert(b.expanded_dirs@[k] == kept_pre[k]);
            assert(b.expanded_dirs@[k]@ == q);
        }
    }
}

impl TreePanel {
    /// Whether the path is among the unfolded ones.
    pub open spec fn spec_expanded(self, p: Seq<char>) -> bool {
        exists|i: int|
            0 <= i < self.expanded_dirs@.len() && (#[trigger] self.expanded_dirs@[i])@ == p
    }

    /// A fresh tree view with everything folded.
    pub fn new() -> (p: TreePanel)
        ensures
            p.expanded_dirs@.len() == 0,
    {
        TreePanel { expanded_dirs: Vec::new() }
    }

    /// Whether one directory is unfolded.
    pub fn is_expanded(&self, path: &String) -> (r: bool)
        ensures
            r == self.spec_expanded(path@),
    {
        let mut i: usize = 0;
        while i < self.expanded_dirs.len()
            invariant
                i <= self.expanded_dirs@.len(),
                forall|j: int| 0 <= j < i ==> (#[trigger] self.expanded_dirs@[j])@ != path@,
            decreases self.expanded_dirs@.len() - i,
        {
            if self.expanded_dirs[i] == *path {
                return true;
            }
            i = i + 1;
        }
        proof {
            if self.spec_expanded(path@) {
                let j = choose|j: int|
                    0 <= j < self.expanded_dirs@.len() && (#[trigger] self.expanded_dirs@[j])@
                        == path@;
                assert(false);
            }
        }
        false
    }

    /// Unfolds or folds one directory, leaving every other one as it was.
    pub fn toggle(&mut self, path: String)
        ensures
            final(self).spec_expanded(path@) == !old(self).spec_expanded(path@),
            forall|q: Seq<char>|
                q != path@ ==> #[trigger] final(self).spec_expanded(q) == old(self).spec_expanded(
                    q,
                ),
    {
        let ghost orig = self.expanded_dirs@;
        let mut kept: Vec<String> = Vec::new();
        let mut found = false;
        let mut i: usize = 0;
        proof {
            assert(kept@ =~= keep_others(orig.take(0), path@));
        }
        while i < self.expanded_dirs.len()
            invariant
                orig == self.expanded_dirs@,
                i <= orig.len(),
                found == exists|j: int| 0 <= j < i && (#[trigger] orig[j])@ == path@,
                kept@ == keep_others(orig.take(i as int), path@),
            decreases orig.len() - i,
        {
            proof {
                assert(orig.take(i as int + 1).drop_last() =~= orig.take(i as int));
                assert(orig.take(i as int + 1).last() == orig[i as int]);
            }
            if self.expanded_dirs[i] == *&path {
                found = true;
                proof {
                    assert((orig[i as int])@ == path@);
                }
            } else {
                kept.push(self.expanded_dirs[i].clone());
                proof {
                    assert(kept@ =~= keep_others(orig.take(i as int), path@).push(
                        orig[i as int],
                    ));
                }
            }
            i = i + 1;
        }
        proof {
            assert(orig.take(orig.len() as int) =~= orig);
        }
        let ghost was = self.spec_expanded(path@);
        let ghost kept_pre = kept@;
        let ghost pathv = path;
        proof {
            assert(was == found);
            lemma_keep_others(orig, path@);
        }
        if !found {
            kept.push(path);
        }
        let ghost before = *self;
        self.expanded_dirs = kept;
        proof {
            if found {
                assert(self.expanded_dirs@ == kept_pre);
                assert(!self.spec_expanded(path@)) by {
                    if self.spec_expanded(path@) {
                        let j = choose|j: int|
                            0 <= j < self.expanded_dirs@.len() && (
                            #[trigger] self.expanded_dirs@[j])@ == pathv@;
                        assert(false);
                    }
                }
            } else {
                assert(self.expanded_dirs@ == kept_pre.push(pathv));
                assert((self.expanded_dirs@[self.expanded_dirs@.len() - 1])@ == pathv@);
            }
            lemma_toggle_frame(before, *self, pathv, found);
        }
    }
}

/// Placeholder state of the chart view.
pub struct ChartPanel {}

impl ChartPanel {
    /// A fresh chart view.
    pub fn new() -> ChartPanel {
        ChartPanel {  }
    }
}

/// Placeholder state of the details view.
pub struct DetailsPanel {}

impl DetailsPanel {
    /// A fresh details view.
    pub fn new() -> DetailsPanel {
        DetailsPanel {  }
    }
}

} // verus!
