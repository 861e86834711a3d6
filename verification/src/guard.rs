//! The scope guard: an allow-list of normalized directory paths, each
//! flagged recursive or non-recursive, queried before any filesystem
//! operation is permitted.

use vstd::prelude::*;
use crate::norm::{norm_spec, norm_abs, normalize, wf_segs, lemma_norm_wf};

verus! {

/// Why a grant was rejected.
#[derive(Clone, Copy, Debug, PartialEq, Eq, Structural)]
pub enum ScopeError {
    /// The supplied path cannot be normalized to an unambiguous
    /// location: it is empty, holds a NUL character, or (for the working
    /// directory) is not absolute.
    InvalidPath,
}

/// One grant: a normalized absolute path, as segments, and whether the
/// grant covers all descendants of that path.
pub struct ScopeEntry {
    /// Segments of the normalized absolute path, in order from the root.
    pub segments: Vec<String>,
    /// When true, every descendant of the path is also authorized; when
    /// false, only the exact path is.
    pub recursive: bool,
}

impl View for ScopeEntry {
    type V = (Seq<Seq<char>>, bool);

    open spec fn view(&self) -> (Seq<Seq<char>>, bool) {
        (self.segments.deep_view(), self.recursive)
    }
}

impl DeepView for ScopeEntry {
    type V = (Seq<Seq<char>>, bool);

    open spec fn deep_view(&self) -> (Seq<Seq<char>>, bool) {
        self.view()
    }
}

impl Clone for ScopeEntry {
    fn clone(&self) -> (r: Self)
        ensures
            r@ == self@,
    {
        let mut segments: Vec<String> = Vec::new();
        let mut i: usize = 0;
        while i < self.segments.len()
            invariant
                i <= self.segments.len(),
                segments@.len() == i,
                forall|j: int| 0 <= j < i ==> segments@[j]@ == self.segments@[j]@,
            decreases self.segments.len() - i,
        {
            let s: String = self.segments[i].clone();
            segments.push(s);
            i += 1;
        }
        proof {
            assert(segments.deep_view() =~= self.segments.deep_view());
        }
        ScopeEntry { segments, recursive: self.recursive }
    }
}

/// The textual form of a normalized absolute path: `/` followed by the
/// segments, separated by `/`. The empty segment sequence (the root) is
/// written `/`.
pub open spec fn join_segs(segs: Seq<Seq<char>>) -> Seq<char>
    decreases segs.len(),
{
    if segs.len() == 0 {
        Seq::empty()
    } else {
        join_segs(segs.drop_last()) + seq!['/'] + segs.last()
    }
}

impl ScopeEntry {
    /// The grant's path as one string: `/` followed by its segments,
    /// separated by `/`; `/` alone for the root.
    pub fn path_string(&self) -> (r: String)
        ensures
            r@ == if self@.0.len() == 0 {
                seq!['/']
            } else {
                join_segs(self@.0)
            },
    {
        let n: usize = self.segments.len();
        if n == 0 {
            let r: String = "/".to_owned();
            proof {
                reveal_strlit("/");
                assert(r@ =~= seq!['/']);
            }
            return r;
        }
        let mut r: String = String::new();
        proof {
            assert(self.segments.deep_view().take(0) =~= Seq::<Seq<char>>::empty());
        }
        let mut i: usize = 0;
        while i < n
            invariant
                i <= n,
                n == self.segments@.len(),
                r@ == join_segs(self.segments.deep_view().take(i as int)),
            decreases n - i,
        {
            r.append("/");
            r.append(self.segments[i].as_str());
            proof {
                let dv = self.segments.deep_view();
                assert(dv.take(i + 1).drop_last() =~= dv.take(i as int));
                assert(dv.take(i + 1).last() == dv[i as int]);
                reveal_strlit("/");
                assert(("/")@ =~= seq!['/']);
                assert(r@ =~= join_segs(dv.take(i + 1)));
            }
            i += 1;
        }
        proof {
            assert(self.segments.deep_view().take(n as int) =~= self.segments.deep_view());
        }
        r
    }
}

/// `p` is a leading run of whole segments of `q` (possibly all of them):
/// `q` is `p` itself or a descendant of `p`.
pub open spec fn segs_prefix_of(p: Seq<Seq<char>>, q: Seq<Seq<char>>) -> bool {
    p.len() <= q.len() && q.take(p.len() as int) == p
}

/// Whether one grant authorizes the normalized path `q`: the exact path
/// always, descendants only when the grant is recursive.
pub open spec fn entry_matches(e: (Seq<Seq<char>>, bool), q: Seq<Seq<char>>) -> bool {
    q == e.0 || (e.1 && segs_prefix_of(e.0, q))
}

/// Whether any grant in `entries` authorizes the normalized path `q`.
pub open spec fn allowed_by(entries: Seq<(Seq<Seq<char>>, bool)>, q: Seq<Seq<char>>) -> bool {
    exists|i: int| 0 <= i < entries.len() && entry_matches(#[trigger] entries[i], q)
}

/// True when the two segment vectors denote the same path.
fn segs_eq(a: &Vec<String>, b: &Vec<String>) -> (r: bool)
    ensures
        r == (a.deep_view() == b.deep_view()),
{
    if a.len() != b.len() {
        proof {
            assert(a.deep_view().len() != b.deep_view().len());
        }
        return false;
    }
    let mut i: usize = 0;
    while i < a.len()
        invariant
            i <= a.len(),
            a@.len() == b@.len(),
            forall|j: int| 0 <= j < i ==> a@[j]@ == b@[j]@,
        decreases a.len() - i,
    {
        if !(a[i] == b[i]) {
            proof {
                assert(a.deep_view()[i as int] != b.deep_view()[i as int]);
            }
            return false;
        }
        i += 1;
    }
    proof {
        assert(a.deep_view() =~= b.deep_view());
    }
    true
}

/// True when `p` is a leading run of whole segments of `q`.
fn segs_prefix(p: &Vec<String>, q: &Vec<String>) -> (r: bool)
    ensures
        r == segs_prefix_of(p.deep_view(), q.deep_view()),
{
    if p.len() > q.len() {
        return false;
    }
    let mut i: usize = 0;
    while i < p.len()
        invariant
            i <= p.len(),
            p@.len() <= q@.len(),
            forall|j: int| 0 <= j < i ==> p@[j]@ == q@[j]@,
        decreases p.len() - i,
    {
        if !(p[i] == q[i]) {
            proof {
                let taken = q.deep_view().take(p.deep_view().len() as int);
                assert(taken[i as int] != p.deep_view()[i as int]);
            }
            return false;
        }
        i += 1;
    }
    proof {
        assert(q.deep_view().take(p.deep_view().len() as int) =~= p.deep_view());
    }
    true
}

/// True when the grant `e` authorizes the normalized path `q`.
fn entry_matches_exec(e: &ScopeEntry, q: &Vec<String>) -> (r: bool)
    ensures
        r == entry_matches(e@, q.deep_view()),
{
    if segs_eq(&e.segments, q) {
        true
    } else if e.recursive {
        segs_prefix(&e.segments, q)
    } else {
        false
    }
}

/// A scoped filesystem access-control gate: an allow-list of normalized
/// directory paths. Created with the working directory that relative
/// paths are resolved against; populated through
/// [`ScopeGuard::allow_directory`]; queried through
/// [`ScopeGuard::is_allowed`].
pub struct ScopeGuard {
    base: Vec<String>,
    entries: Vec<ScopeEntry>,
}

impl ScopeGuard {
    /// Segments of the working directory that relative paths are
    /// resolved against.
    pub closed spec fn base_segs(&self) -> Seq<Seq<char>> {
        self.base.deep_view()
    }

    /// The grants made so far, in the order they were made: each a
    /// normalized path, as segments, with its recursive flag.
    pub closed spec fn grants(&self) -> Seq<(Seq<Seq<char>>, bool)> {
        self.entries.deep_view()
    }

    /// Well-formedness: the working directory and every grant hold only
    /// valid, fully resolved segments.
    pub closed spec fn wf(&self) -> bool {
        &&& wf_segs(self.base_segs())
        &&& forall|i: int|
            0 <= i < self.grants().len() ==> wf_segs((#[trigger] self.grants()[i]).0)
    }

    /// Whether the path string `p` is authorized by the current grants:
    /// `p` is normalized against the working directory, then matched
    /// against each grant. A string that cannot be normalized is never
    /// authorized.
    pub open spec fn path_allowed(&self, p: Seq<char>) -> bool {
        match norm_spec(self.base_segs(), p) {
            Some(q) => allowed_by(self.grants(), q),
            None => false,
        }
    }

    /// Creates a guard with no grants. `working_dir` must be an absolute
    /// path; it is normalized and kept as the directory that relative
    /// paths are resolved against.
    pub fn new(working_dir: &str) -> (r: Result<ScopeGuard, ScopeError>)
        ensures
            match norm_abs(working_dir@) {
                Some(b) => {
                    &&& r matches Ok(g)
                    &&& g.wf()
                    &&& g.base_segs() == b
                    &&& g.grants() == Seq::<(Seq<Seq<char>>, bool)>::empty()
                },
                None => r == Err::<ScopeGuard, ScopeError>(ScopeError::InvalidPath),
            },
    {
        let n: usize = working_dir.unicode_len();
        if n == 0 || working_dir.get_char(0) != '/' {
            return Err(ScopeError::InvalidPath);
        }
        let empty_base: Vec<String> = Vec::new();
        proof {
            assert(empty_base.deep_view() =~= Seq::<Seq<char>>::empty());
        }
        match normalize(&empty_base, working_dir) {
            Some(base) => {
                proof {
                    lemma_norm_wf(Seq::empty(), working_dir@);
                }
                let g = ScopeGuard { base, entries: Vec::new() };
                proof {
                    assert(g.grants() =~= Seq::<(Seq<Seq<char>>, bool)>::empty());
                }
                Ok(g)
            },
            None => Err(ScopeError::InvalidPath),
        }
    }

    /// Grants access to `path`, normalized against the working
    /// directory: appends one entry to the allow-list. When the path
    /// cannot be normalized, the error is returned and the state is left
    /// unchanged. The directory need not exist: it may be created after
    /// the grant.
    pub fn allow_directory(&mut self, path: &str, recursive: bool) -> (r: Result<
        (),
        ScopeError,
    >)
        requires
            old(self).wf(),
        ensures
            final(self).wf(),
            final(self).base_segs() == old(self).base_segs(),
            match norm_spec(old(self).base_segs(), path@) {
                Some(d) => {
                    &&& r is Ok
                    &&& final(self).grants() == old(self).grants().push((d, recursive))
                },
                None => {
                    &&& r == Err::<(), ScopeError>(ScopeError::InvalidPath)
                    &&& final(self).grants() == old(self).grants()
                },
            },
    {
        match normalize(&self.base, path) {
            Some(segments) => {
                proof {
                    lemma_norm_wf(self.base_segs(), path@);
                }
                let entry = ScopeEntry { segments, recursive };
                let ghost d = norm_spec(old(self).base_segs(), path@)->Some_0;
                self.entries.push(entry);
                proof {
                    assert(self.grants() =~= old(self).grants().push((d, recursive)));
                }
                Ok(())
            },
            None => Err(ScopeError::InvalidPath),
        }
    }

    /// Whether access to `path` is authorized: the path is normalized
    /// against the working directory exactly as in
    /// [`ScopeGuard::allow_directory`], then matched against each grant
    /// (exact match, or segment-aware descendant match for recursive
    /// grants). Fails closed: a path that cannot be normalized is denied.
    pub fn is_allowed(&self, path: &str) -> (r: bool)
        ensures
            r == self.path_allowed(path@),
    {
        match normalize(&self.base, path) {
            Some(q) => {
                let mut i: usize = 0;
                while i < self.entries.len()
                    invariant
                        i <= self.entries.len(),
                        q.deep_view() == norm_spec(self.base_segs(), path@)->Some_0,
                        norm_spec(self.base_segs(), path@) is Some,
                        forall|j: int|
                            0 <= j < i ==> !entry_matches(
                                #[trigger] self.grants()[j],
                                q.deep_view(),
                            ),
                    decreases self.entries.len() - i,
                {
                    if entry_matches_exec(&self.entries[i], &q) {
                        proof {
                            assert(entry_matches(self.grants()[i as int], q.deep_view()));
                        }
                        return true;
                    }
                    i += 1;
                }
                false
            },
            None => false,
        }
    }

    /// An ordered snapshot of the current grants, for audit. The copy is
    /// independent: later grants do not change a returned snapshot.
    pub fn list_allowed(&self) -> (r: Vec<ScopeEntry>)
        ensures
            r.deep_view() == self.grants(),
    {
        let mut r: Vec<ScopeEntry> = Vec::new();
        let mut i: usize = 0;
        while i < self.entries.len()
            invariant
                i <= self.entries.len(),
                r@.len() == i,
                forall|j: int| 0 <= j < i ==> r@[j]@ == self.entries@[j]@,
            decreases self.entries.len() - i,
        {
            let e: ScopeEntry = self.entries[i].clone();
            r.push(e);
            i += 1;
        }
        proof {
            assert(r.deep_view() =~= self.grants());
        }
        r
    }
}

} // verus!
