//! Startup preferences: which tab opens on launch, and the recent projects.

use vstd::prelude::*;

use crate::text::{chars_of, eq_chars};

verus! {

/// Which feature tab is active.
#[derive(Debug, Clone, Copy, PartialEq, Eq, Structural)]
pub enum Mode {
    Viewer,
    Flashcards,
    Impose,
    Typesetting,
}

impl Default for Mode {
    fn default() -> (r: Self)
        ensures
            r == Mode::Viewer,
    {
        Mode::Viewer
    }
}

/// How the app decides which tab to open on launch.
#[derive(Debug, Clone, Copy, PartialEq, Eq, Structural)]
pub enum StartupBehavior {
    /// Show the startup selector every launch.
    AlwaysAsk,
    /// Open straight into [`StartupSettings::default_mode`].
    AlwaysUse,
    /// Open straight into the last tab that was active.
    UseLast,
}

impl Default for StartupBehavior {
    fn default() -> (r: Self)
        ensures
            r == StartupBehavior::AlwaysAsk,
    {
        StartupBehavior::AlwaysAsk
    }
}

/// The most recent projects kept.
pub const MAX_RECENT_PROJECTS: usize = 8;

/// Persisted startup preferences.
#[derive(Debug)]
pub struct StartupSettings {
    pub behavior: StartupBehavior,
    /// Remembered choice for [`StartupBehavior::AlwaysUse`].
    pub default_mode: Mode,
    /// Last active tab; used by [`StartupBehavior::UseLast`].
    pub last_mode: Mode,
    /// Recently opened or saved project files (their paths), most recent first.
    pub recent_projects: Vec<String>,
}

impl Default for StartupSettings {
    fn default() -> (r: Self)
        ensures
            r.behavior == StartupBehavior::AlwaysAsk,
            r.default_mode == Mode::Viewer,
            r.last_mode == Mode::Viewer,
            r.recent_projects@.len() == 0,
    {
        StartupSettings {
            behavior: StartupBehavior::AlwaysAsk,
            default_mode: Mode::Viewer,
            last_mode: Mode::Viewer,
            recent_projects: Vec::new(),
        }
    }
}

/// The paths of a list, as text.
pub open spec fn path_views(v: Seq<String>) -> Seq<Seq<char>> {
    v.map_values(|p: String| p@)
}

/// `v` without the paths equal to `p`, order kept.
pub open spec fn without(v: Seq<Seq<char>>, p: Seq<char>) -> Seq<Seq<char>>
    decreases v.len(),
{
    if v.len() == 0 {
        seq![]
    } else if v.last() == p {
        without(v.drop_last(), p)
    } else {
        without(v.drop_last(), p).push(v.last())
    }
}

/// The recent list after using `p`: `p` first, earlier entries for it
/// dropped, and at most [`MAX_RECENT_PROJECTS`] entries.
pub open spec fn recent_after(v: Seq<Seq<char>>, p: Seq<char>) -> Seq<Seq<char>> {
    let l = seq![p] + without(v, p);
    if l.len() > MAX_RECENT_PROJECTS {
        l.take(MAX_RECENT_PROJECTS as int)
    } else {
        l
    }
}

/// No path occurs twice.
pub open spec fn distinct_paths(v: Seq<Seq<char>>) -> bool {
    forall|i: int, j: int| 0 <= i < j < v.len() ==> v[i] != v[j]
}

proof fn lemma_without(v: Seq<Seq<char>>, p: Seq<char>)
    ensures
        without(v, p).len() <= v.len(),
        forall|i: int| 0 <= i < without(v, p).len() ==> #[trigger] without(v, p)[i] != p,
        forall|i: int| 0 <= i < without(v, p).len() ==> v.contains(#[trigger] without(v, p)[i]),
        distinct_paths(v) ==> distinct_paths(without(v, p)),
        (forall|i: int| 0 <= i < v.len() ==> v[i] != p) ==> without(v, p) == v,
    decreases v.len(),
{
    if v.len() > 0 {
        let w = without(v.drop_last(), p);
        lemma_without(v.drop_last(), p);
        assert forall|i: int| 0 <= i < without(v, p).len() implies v.contains(
            #[trigger] without(v, p)[i],
        ) by {
            if i < w.len() {
                let k = choose|k: int| 0 <= k < v.drop_last().len() && v.drop_last()[k] == w[i];
                assert(v[k] == w[i]);
            } else {
                assert(v[v.len() - 1] == v.last());
            }
        }
        if distinct_paths(v) {
            assert(distinct_paths(v.drop_last()));
            if v.last() != p {
                assert forall|i: int, j: int|
                    0 <= i < j < without(v, p).len() implies without(v, p)[i] != without(
                    v,
                    p,
                )[j] by {
                    if j == w.len() {
                        let k = choose|k: int|
                            0 <= k < v.drop_last().len() && v.drop_last()[k] == w[i];
                        assert(v[k] != v[v.len() - 1]);
                    }
                }
            }
        }
        if forall|i: int| 0 <= i < v.len() ==> v[i] != p {
            assert(v.last() == v[v.len() - 1]);
            assert forall|i: int| 0 <= i < v.drop_last().len() implies v.drop_last()[i] != p by {
                assert(v.drop_last()[i] == v[i]);
            }
            assert(without(v, p) =~= v);
        }
    }
}

/// Recording a project puts it first, keeps it only once and keeps at most
/// [`MAX_RECENT_PROJECTS`] entries; a list without repeats stays so.
pub proof fn recorded_project_comes_first(v: Seq<Seq<char>>, p: Seq<char>)
    ensures
        recent_after(v, p).len() >= 1,
        recent_after(v, p).len() <= MAX_RECENT_PROJECTS,
        recent_after(v, p)[0] == p,
        forall|i: int| 0 < i < recent_after(v, p).len() ==> #[trigger] recent_after(v, p)[i] != p,
        distinct_paths(v) ==> distinct_paths(recent_after(v, p)),
{
    lemma_without(v, p);
    let w = without(v, p);
    let l = seq![p] + w;
    assert forall|i: int| 0 < i < l.len() implies #[trigger] l[i] != p by {
        assert(l[i] == w[i - 1]);
    }
    if distinct_paths(v) {
        assert forall|i: int, j: int| 0 <= i < j < l.len() implies l[i] != l[j] by {
            if i > 0 {
                assert(l[i] == w[i - 1]);
            }
            assert(l[j] == w[j - 1]);
        }
    }
}

/// Recording the same project twice in a row is the same as recording it
/// once.
pub proof fn recording_twice_is_recording_once(v: Seq<Seq<char>>, p: Seq<char>)
    ensures
        recent_after(recent_after(v, p), p) == recent_after(v, p),
{
    lemma_without(v, p);
    let w = without(v, p);
    let r = recent_after(v, p);
    recorded_project_comes_first(v, p);
    let t = r.drop_first();
    assert forall|i: int| 0 <= i < t.len() implies t[i] != p by {
        assert(t[i] == r[i + 1]);
    }
    lemma_without(t, p);
    assert(without(t, p) == t);
    lemma_without_first(r, p);
    assert(without(r, p) == t);
    assert(seq![p] + t =~= r);
}

/// Dropping `p` from a list that starts with `p` drops it from the rest.
proof fn lemma_without_first(r: Seq<Seq<char>>, p: Seq<char>)
    requires
        r.len() >= 1,
        r[0] == p,
    ensures
        without(r, p) == without(r.drop_first(), p),
    decreases r.len(),
{
    if r.len() == 1 {
        assert(r.drop_first() =~= Seq::<Seq<char>>::empty());
        assert(r.drop_last() =~= Seq::<Seq<char>>::empty());
    } else {
        lemma_without_first(r.drop_last(), p);
        assert(r.drop_last().drop_first() =~= r.drop_first().drop_last());
        assert(r.drop_first().last() == r.last());
    }
}

/// The tab opened on launch.
pub open spec fn launch_mode(s: StartupSettings) -> Mode {
    match s.behavior {
        StartupBehavior::AlwaysAsk | StartupBehavior::UseLast => s.last_mode,
        StartupBehavior::AlwaysUse => s.default_mode,
    }
}

impl StartupSettings {
    /// Record a project path as most recently used (deduplicated, capped).
    pub fn push_recent_project(&mut self, path: String)
        ensures
            path_views(final(self).recent_projects@) == recent_after(
                path_views(old(self).recent_projects@),
                path@,
            ),
            final(self).behavior == old(self).behavior,
            final(self).default_mode == old(self).default_mode,
            final(self).last_mode == old(self).last_mode,
    {
        let p = chars_of(path.as_str());
        let mut kept: Vec<String> = Vec::new();
        kept.push(path);
        let ghost old_v = path_views(self.recent_projects@);
        let n = self.recent_projects.len();
        let mut i: usize = 0;
        proof {
            assert(old_v.take(0) =~= Seq::<Seq<char>>::empty());
            assert(path_views(kept@) =~= seq![p@] + without(old_v.take(0), p@));
        }
        while self.recent_projects.len() > 0
            invariant
                i + self.recent_projects@.len() == n,
                n == old_v.len(),
                self.recent_projects@.len() == n - i,
                path_views(self.recent_projects@) == old_v.subrange(i as int, n as int),
                path_views(kept@) == seq![p@] + without(old_v.take(i as int), p@),
                self.behavior == old(self).behavior,
                self.default_mode == old(self).default_mode,
                self.last_mode == old(self).last_mode,
            decreases self.recent_projects@.len(),
        {
            let ghost before = self.recent_projects@;
            let q = self.recent_projects.remove(0);
            proof {
                assert(q == before[0]);
                assert(path_views(before)[0] == before[0]@);
                assert(old_v.subrange(i as int, n as int)[0] == old_v[i as int]);
                assert(q@ == old_v[i as int]);
                assert(self.recent_projects@ == before.subrange(1, before.len() as int));
                assert forall|k: int| 0 <= k < n - i - 1 implies #[trigger] path_views(
                    self.recent_projects@,
                )[k] == old_v.subrange(i + 1, n as int)[k] by {
                    assert(self.recent_projects@[k] == before[k + 1]);
                    assert(path_views(before)[k + 1] == old_v.subrange(i as int, n as int)[k + 1]);
                }
                assert(path_views(self.recent_projects@) =~= old_v.subrange(i + 1, n as int));
                assert(old_v.take(i + 1).drop_last() =~= old_v.take(i as int));
                assert(old_v.take(i + 1).last() == q@);
            }
            let qv = chars_of(q.as_str());
            if !eq_chars(&qv, &p) {
                let ghost kb = kept@;
                kept.push(q);
                proof {
                    assert(path_views(kept@) =~= path_views(kb).push(old_v[i as int]));
                }
            }
            i = i + 1;
        }
        proof {
            assert(old_v.take(n as int) =~= old_v);
        }
        if kept.len() > MAX_RECENT_PROJECTS {
            kept.truncate(MAX_RECENT_PROJECTS);
            proof {
                assert(path_views(kept@) =~= (seq![p@] + without(old_v, p@)).take(
                    MAX_RECENT_PROJECTS as int,
                ));
            }
        }
        self.recent_projects = kept;
    }

    /// The tab to open into on launch.
    pub fn initial_mode(&self) -> (m: Mode)
        ensures
            m == launch_mode(*self),
    {
        match self.behavior {
            StartupBehavior::AlwaysAsk | StartupBehavior::UseLast => self.last_mode,
            StartupBehavior::AlwaysUse => self.default_mode,
        }
    }

    /// Whether the startup selector is shown automatically on launch.
    pub fn should_show_on_launch(&self) -> (r: bool)
        ensures
            r == (self.behavior == StartupBehavior::AlwaysAsk),
    {
        match self.behavior {
            StartupBehavior::AlwaysAsk => true,
            _ => false,
        }
    }
}

} // verus!
