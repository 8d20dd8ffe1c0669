//! The traverser's decisions. Reading directories is left to the caller: the
//! walk names the next directory to list, is offered that directory's
//! entries one by one, and collects the candidates.

use crate::filter::{
    classify, consults_pattern, pattern_matches, starts_with_dot, verdict_of, within_bounds,
    Config, ConfigView, Entry, EntryView, Verdict,
};
use vstd::prelude::*;
use vstd::string::*;

verus! {

/// A file that is to be hashed.
#[derive(Clone, Debug)]
pub struct Candidate {
    pub path: String,
    pub size: u64,
}

/// The mathematical value of a [`Candidate`].
pub struct CandidateView {
    pub path: Seq<char>,
    pub size: u64,
}

impl View for Candidate {
    type V = CandidateView;

    open spec fn view(&self) -> CandidateView {
        CandidateView { path: self.path@, size: self.size }
    }
}

/// Why a walk could not go on.
#[derive(Clone, Copy, Debug, PartialEq, Eq, Structural)]
pub enum WalkError {
    /// The root is not an existing directory.
    RootNotDirectory,
    /// An entry was offered while no directory was being listed.
    NoDirectoryOpen,
    /// The name filter is not a regular expression that can be compiled.
    InvalidPattern,
}

/// The path of an entry called `name` in the directory `dir`: the two joined
/// by one separator, unless `dir` is empty or ends in one already.
pub open spec fn joined(dir: Seq<char>, name: Seq<char>) -> Seq<char> {
    if dir.len() == 0 {
        name
    } else if dir.last() == '/' {
        dir + name
    } else {
        dir + seq!['/'] + name
    }
}

/// The path reached from `root` by stepping through the entries of `trail`.
pub open spec fn path_of(root: Seq<char>, trail: Seq<EntryView>) -> Seq<char>
    decreases trail.len(),
{
    if trail.len() == 0 {
        root
    } else {
        joined(path_of(root, trail.drop_last()), trail.last().name)
    }
}

/// Every entry of the trail is a directory that the filter descends into.
pub open spec fn leads_to_directory(config: ConfigView, trail: Seq<EntryView>) -> bool {
    forall|i: int| 0 <= i < trail.len() ==> verdict_of(config, #[trigger] trail[i]) == Verdict::Descend
}

/// The trail ends in a file that the filter keeps, and every entry before it
/// is a directory that the filter descends into.
pub open spec fn leads_to_candidate(config: ConfigView, trail: Seq<EntryView>) -> bool {
    &&& trail.len() > 0
    &&& leads_to_directory(config, trail.drop_last())
    &&& verdict_of(config, trail.last()) == Verdict::Keep
}

/// Whether a candidate is one that a walk from `root` under `config` may
/// report: some trail of entries leads from the root to it.
pub open spec fn admitted(config: ConfigView, root: Seq<char>, candidate: CandidateView) -> bool {
    exists|trail: Seq<EntryView>|
        {
            &&& #[trigger] leads_to_candidate(config, trail)
            &&& candidate.path == path_of(root, trail)
            &&& candidate.size == trail.last().size
        }
}

/// Builds the path of an entry of a directory.
pub fn join_path(dir: &str, name: &str) -> (path: String)
    ensures
        path@ == joined(dir@, name@),
{
    let len: usize = dir.unicode_len();
    if len == 0 {
        proof {
            assert(dir@ =~= Seq::<char>::empty());
        }
        return String::from_str(name);
    }
    let mut path = String::from_str(dir);
    if dir.get_char(len - 1) != '/' {
        proof {
            reveal_strlit("/");
            assert("/"@ =~= seq!['/']);
        }
        path.append("/");
    }
    path.append(name);
    path
}

/// The state of a traversal.
pub struct Walk {
    config: Config,
    root: String,
    pending: Vec<String>,
    current: Option<String>,
    found: Vec<Candidate>,
    pending_trails: Ghost<Seq<Seq<EntryView>>>,
    current_trail: Ghost<Seq<EntryView>>,
    found_trails: Ghost<Seq<Seq<EntryView>>>,
}

impl Walk {
    /// The options the walk was started with.
    pub closed spec fn config(&self) -> ConfigView {
        self.config@
    }

    /// The root the walk was started at.
    pub closed spec fn root(&self) -> Seq<char> {
        self.root@
    }

    /// The directories that are still to be listed; the last is listed next.
    pub closed spec fn pending(&self) -> Seq<Seq<char>> {
        Seq::new(self.pending@.len(), |i: int| self.pending@[i]@)
    }

    /// The directory whose entries are being offered, if any.
    pub closed spec fn current(&self) -> Option<Seq<char>> {
        match self.current {
            Some(dir) => Some(dir@),
            None => None,
        }
    }

    /// The candidates collected so far, in the order in which they were kept.
    pub closed spec fn found(&self) -> Seq<CandidateView> {
        Seq::new(self.found@.len(), |i: int| self.found@[i]@)
    }

    /// The walk's invariant: every directory it holds was reached from the
    /// root through directories that the filter descends into, and every
    /// candidate through such directories and a last step that the filter
    /// keeps.
    pub closed spec fn wf(&self) -> bool {
        &&& self.pending_trails@.len() == self.pending@.len()
        &&& forall|i: int|
            0 <= i < self.pending@.len() ==> (#[trigger] self.pending@[i])@ == path_of(
                self.root@,
                self.pending_trails@[i],
            ) && leads_to_directory(self.config@, self.pending_trails@[i])
        &&& self.current is Some ==> self.current->Some_0@ == path_of(
            self.root@,
            self.current_trail@,
        ) && leads_to_directory(self.config@, self.current_trail@)
        &&& self.found_trails@.len() == self.found@.len()
        &&& forall|i: int|
            0 <= i < self.found@.len() ==> {
                &&& (#[trigger] self.found@[i]).path@ == path_of(
                    self.root@,
                    self.found_trails@[i],
                )
                &&& leads_to_candidate(self.config@, self.found_trails@[i])
                &&& self.found@[i].size == self.found_trails@[i].last().size
            }
    }

    /// Begins a walk at `root`. `root_is_directory` says whether the root
    /// names an existing directory; a walk starts only from one.
    pub fn start(config: Config, root: String, root_is_directory: bool) -> (r: Result<
        Walk,
        WalkError,
    >)
        ensures
            !root_is_directory ==> r == Err::<Walk, WalkError>(WalkError::RootNotDirectory),
            root_is_directory ==> r is Ok && {
                let walk = r->Ok_0;
                &&& walk.wf()
                &&& walk.config() == config@
                &&& walk.root() == root@
                &&& walk.pending() == seq![root@]
                &&& walk.current() is None
                &&& walk.found() == Seq::<CandidateView>::empty()
            },
    {
        if !root_is_directory {
            return Err(WalkError::RootNotDirectory);
        }
        let mut pending: Vec<String> = Vec::new();
        pending.push(root.clone());
        let ghost at_root: Seq<Seq<EntryView>> = seq![Seq::<EntryView>::empty()];
        let walk = Walk {
            config,
            root,
            pending,
            current: None,
            found: Vec::new(),
            pending_trails: Ghost(at_root),
            current_trail: Ghost(Seq::empty()),
            found_trails: Ghost(Seq::empty()),
        };
        proof {
            assert(walk.pending() =~= seq![root@]);
            assert(walk.found() =~= Seq::<CandidateView>::empty());
        }
        Ok(walk)
    }

    /// Names the directory to list next, and opens it for `offer`. `None`
    /// once no directory is left: the walk is then complete.
    pub fn next_directory(&mut self) -> (next: Option<String>)
        requires
            old(self).wf(),
        ensures
            final(self).wf(),
            final(self).config() == old(self).config(),
            final(self).root() == old(self).root(),
            final(self).found() == old(self).found(),
            old(self).pending().len() == 0 ==> next is None && final(self).current() is None
                && final(self).pending() == old(self).pending(),
            old(self).pending().len() > 0 ==> next is Some && next->Some_0@ == old(
                self,
            ).pending().last() && final(self).current() == Some(old(self).pending().last())
                && final(self).pending() == old(self).pending().drop_last(),
    {
        let ghost before = *self;
        match self.pending.pop() {
            None => {
                self.current = None;
                proof {
                    assert(self.pending() =~= before.pending());
                }
                None
            },
            Some(dir) => {
                let next = dir.clone();
                self.current = Some(dir);
                proof {
                    self.current_trail = Ghost(before.pending_trails@.last());
                    self.pending_trails = Ghost(before.pending_trails@.drop_last());
                    assert(self.pending() =~= before.pending().drop_last());
                    assert(before.pending@[before.pending@.len() - 1]@ == path_of(
                        before.root@,
                        before.pending_trails@[before.pending@.len() - 1],
                    ));
                    assert forall|i: int| 0 <= i < self.pending@.len() implies (
                    #[trigger] self.pending@[i])@ == path_of(self.root@, self.pending_trails@[i])
                        && leads_to_directory(self.config@, self.pending_trails@[i]) by {
                        assert(self.pending@[i] == before.pending@[i]);
                    }
                }
                Some(next)
            },
        }
    }

    /// Judges one entry of the directory that is open. A kept file joins the
    /// candidates; a directory to descend into joins the directories still to
    /// be listed; anything else leaves the walk as it was.
    ///
    /// Fails, and leaves the walk as it was, where no directory is open, or
    /// where the name filter had to be asked and did not compile.
    pub fn offer(&mut self, entry: Entry) -> (r: Result<Verdict, WalkError>)
        requires
            old(self).wf(),
        ensures
            final(self).wf(),
            final(self).config() == old(self).config(),
            final(self).root() == old(self).root(),
            final(self).current() == old(self).current(),
            old(self).current() is None ==> r == Err::<Verdict, WalkError>(
                WalkError::NoDirectoryOpen,
            ),
            old(self).current() is Some && !consults_pattern(old(self).config(), entry@) ==> r
                is Ok,
            r is Err ==> final(self).found() == old(self).found() && final(self).pending() == old(
                self,
            ).pending(),
            r is Err && old(self).current() is Some ==> r->Err_0 == WalkError::InvalidPattern,
            r is Ok ==> {
                let verdict = r->Ok_0;
                let path = joined(old(self).current()->Some_0, entry@.name);
                &&& old(self).current() is Some
                &&& verdict == verdict_of(old(self).config(), entry@)
                &&& final(self).found() == if verdict == Verdict::Keep {
                    old(self).found().push(CandidateView { path, size: entry.size })
                } else {
                    old(self).found()
                }
                &&& final(self).pending() == if verdict == Verdict::Descend {
                    old(self).pending().push(path)
                } else {
                    old(self).pending()
                }
            },
    {
        let ghost before = *self;
        let path = match &self.current {
            None => {
                return Err(WalkError::NoDirectoryOpen);
            },
            Some(dir) => join_path(dir.as_str(), entry.name.as_str()),
        };
        let verdict = match classify(&self.config, &entry) {
            Ok(verdict) => verdict,
            Err(_) => {
                return Err(WalkError::InvalidPattern);
            },
        };
        let ghost trail = before.current_trail@.push(entry@);
        proof {
            assert(trail.drop_last() =~= before.current_trail@);
            assert(path@ == path_of(before.root@, trail));
        }
        match verdict {
            Verdict::Keep => {
                self.found.push(Candidate { path, size: entry.size });
                proof {
                    self.found_trails = Ghost(before.found_trails@.push(trail));
                    assert(self.found() =~= before.found().push(
                        CandidateView { path: path@, size: entry.size },
                    ));
                    assert forall|i: int| 0 <= i < self.found@.len() implies {
                        &&& (#[trigger] self.found@[i]).path@ == path_of(
                            self.root@,
                            self.found_trails@[i],
                        )
                        &&& leads_to_candidate(self.config@, self.found_trails@[i])
                        &&& self.found@[i].size == self.found_trails@[i].last().size
                    } by {
                        if i < before.found@.len() {
                            assert(self.found@[i] == before.found@[i]);
                        }
                    }
                }
            },
            Verdict::Descend => {
                self.pending.push(path);
                proof {
                    self.pending_trails = Ghost(before.pending_trails@.push(trail));
                    assert(self.pending() =~= before.pending().push(path@));
                    assert forall|i: int| 0 <= i < trail.len() implies verdict_of(
                        self.config@,
                        #[trigger] trail[i],
                    ) == Verdict::Descend by {
                        if i < before.current_trail@.len() {
                            assert(trail[i] == before.current_trail@[i]);
                        }
                    }
                    assert forall|i: int| 0 <= i < self.pending@.len() implies (
                    #[trigger] self.pending@[i])@ == path_of(self.root@, self.pending_trails@[i])
                        && leads_to_directory(self.config@, self.pending_trails@[i]) by {
                        if i < before.pending@.len() {
                            assert(self.pending@[i] == before.pending@[i]);
                        }
                    }
                }
            },
            Verdict::Skip => {},
        }
        Ok(verdict)
    }

    /// Ends the walk and hands out the candidates. Each of them is admitted:
    /// a trail of entries that the filter let through leads from the root to
    /// it.
    pub fn finish(self) -> (candidates: Vec<Candidate>)
        requires
            self.wf(),
        ensures
            candidates@.len() == self.found().len(),
            forall|i: int|
                0 <= i < candidates@.len() ==> (#[trigger] candidates@[i])@ == self.found()[i],
            forall|i: int|
                0 <= i < candidates@.len() ==> admitted(
                    self.config(),
                    self.root(),
                    (#[trigger] candidates@[i])@,
                ),
    {
        proof {
            assert forall|i: int| 0 <= i < self.found@.len() implies admitted(
                self.config(),
                self.root(),
                (#[trigger] self.found@[i])@,
            ) by {
                let candidate = self.found@[i];
                let trail = self.found_trails@[i];
                assert(candidate.path@ == path_of(self.root@, trail));
                assert(leads_to_candidate(self.config@, trail));
            }
        }
        self.found
    }
}

/// With dot exclusion on, no component of an admitted path below the root
/// begins with a dot.
pub proof fn lemma_no_dot_on_trail(config: ConfigView, trail: Seq<EntryView>)
    requires
        config.exclude_dots,
        leads_to_candidate(config, trail),
    ensures
        forall|i: int| 0 <= i < trail.len() ==> !starts_with_dot((#[trigger] trail[i]).name),
{
    assert forall|i: int| 0 <= i < trail.len() implies !starts_with_dot(
        (#[trigger] trail[i]).name,
    ) by {
        if i < trail.len() - 1 {
            assert(trail.drop_last()[i] == trail[i]);
            assert(verdict_of(config, trail.drop_last()[i]) == Verdict::Descend);
        }
    }
}

/// With dot exclusion on, the walk does not descend into a directory whose
/// name begins with a dot.
pub proof fn lemma_no_descent_into_dot_directory(config: ConfigView, entry: EntryView)
    requires
        config.exclude_dots,
        starts_with_dot(entry.name),
    ensures
        verdict_of(config, entry) != Verdict::Descend,
{
}

/// The size of an admitted file lies within the configured bounds.
pub proof fn lemma_size_within_bounds(
    config: ConfigView,
    root: Seq<char>,
    candidate: CandidateView,
)
    requires
        admitted(config, root, candidate),
    ensures
        within_bounds(config, candidate.size),
        config.min is Some && config.max is Some ==> config.min->Some_0 <= candidate.size
            <= config.max->Some_0,
{
    let trail = choose|trail: Seq<EntryView>|
        {
            &&& #[trigger] leads_to_candidate(config, trail)
            &&& candidate.path == path_of(root, trail)
            &&& candidate.size == trail.last().size
        };
    assert(verdict_of(config, trail.last()) == Verdict::Keep);
}

/// Where a name filter is set, the name of an admitted file matches it.
pub proof fn lemma_name_matches_filter(config: ConfigView, trail: Seq<EntryView>)
    requires
        config.filter is Some,
        leads_to_candidate(config, trail),
    ensures
        pattern_matches(config.filter->Some_0, trail.last().name),
{
}

/// While symbolic links are not followed, no step of an admitted path is a
/// symbolic link.
pub proof fn lemma_no_link_on_trail(config: ConfigView, trail: Seq<EntryView>)
    requires
        !config.follow_symlinks,
        leads_to_candidate(config, trail),
    ensures
        forall|i: int| 0 <= i < trail.len() ==> !(#[trigger] trail[i]).is_symlink,
{
    assert forall|i: int| 0 <= i < trail.len() implies !(#[trigger] trail[i]).is_symlink by {
        if i < trail.len() - 1 {
            assert(trail.drop_last()[i] == trail[i]);
            assert(verdict_of(config, trail.drop_last()[i]) == Verdict::Descend);
        }
    }
}

/// A walk that is not recursive reports children of the root only.
pub proof fn lemma_flat_walk_stays_at_root(config: ConfigView, trail: Seq<EntryView>)
    requires
        !config.recursive,
        leads_to_candidate(config, trail),
    ensures
        trail.len() == 1,
{
    if trail.len() > 1 {
        assert(verdict_of(config, trail.drop_last()[0]) == Verdict::Descend);
    }
}

} // verus!
