//! The shared file-handle cache's directory structure.
//!
//! `FileManager` maps a canonical path to the handle that was opened for it,
//! and holds at most one entry per canonical path for its whole lifetime:
//! nothing is ever evicted or re-opened. A handle here is a small index;
//! the process keeps the actual open descriptors in a table indexed by it,
//! and wraps the whole `FileManager` in one shared/exclusive lock. The
//! double-checked acquisition then is: look up under the shared lock; on a
//! miss take the exclusive lock, `lookup` again — mandatory, another task
//! may have inserted between the two locks — and only if the path is still
//! absent open the file, then record it with `insert_opened`. An entry is
//! created only for a file that actually opened: a failed open leaves the
//! directory exactly as it was, so a hit can never name a dead handle and
//! a race between two first accesses can never produce two entries.

use vstd::prelude::*;

verus! {

/// The one-step transition of the cache on an access to `path`: `fresh` is
/// the handle a new entry would get, and `open_ok` whether the underlying
/// open succeeds if one is attempted. The result is the directory after the
/// access, the handle the caller got (nothing when the open failed), and
/// whether an open was attempted. An entry is recorded only when the open
/// succeeded; a failure changes nothing, and a hit attempts no open and
/// cannot fail.
pub open spec fn cache_step(
    m: Map<Seq<char>, usize>,
    path: Seq<char>,
    fresh: usize,
    open_ok: bool,
) -> (Map<Seq<char>, usize>, Option<usize>, bool) {
    if m.dom().contains(path) {
        (m, Some(m[path]), false)
    } else if open_ok {
        (m.insert(path, fresh), Some(fresh), true)
    } else {
        (m, None, true)
    }
}

/// The directory of open handles: one entry per canonical path.
pub struct FileManager {
    entries: Vec<(String, usize)>,
}

/// The map a sequence of (path, handle) entries denotes; later entries win,
/// though a well-formed `FileManager` never holds a key twice.
pub open spec fn entries_map(s: Seq<(String, usize)>) -> Map<Seq<char>, usize>
    decreases s.len(),
{
    if s.len() == 0 {
        Map::empty()
    } else {
        entries_map(s.drop_last()).insert(s.last().0@, s.last().1)
    }
}

impl View for FileManager {
    type V = Map<Seq<char>, usize>;

    closed spec fn view(&self) -> Map<Seq<char>, usize> {
        entries_map(self.entries@)
    }
}

/// A key is in the map exactly when some entry carries it.
proof fn lemma_entries_map_domain(s: Seq<(String, usize)>, k: Seq<char>)
    ensures
        entries_map(s).dom().contains(k) <==> exists|i: int| 0 <= i < s.len() && s[i].0@ == k,
    decreases s.len(),
{
    if s.len() > 0 {
        lemma_entries_map_domain(s.drop_last(), k);
        if s.last().0@ == k {
            assert(s[s.len() - 1].0@ == k);
        } else {
            if entries_map(s).dom().contains(k) {
                let i = choose|i: int| 0 <= i < s.drop_last().len() && s.drop_last()[i].0@ == k;
                assert(s[i].0@ == k);
            }
            if exists|i: int| 0 <= i < s.len() && s[i].0@ == k {
                let i = choose|i: int| 0 <= i < s.len() && s[i].0@ == k;
                assert(s.drop_last()[i].0@ == k);
            }
        }
    }
}

/// Under distinct keys, the entry at `i` gives its key's value in the map.
proof fn lemma_entries_map_value(s: Seq<(String, usize)>, i: int)
    requires
        forall|p: int, q: int|
            0 <= p < q < s.len() ==> s[p].0@ != s[q].0@,
        0 <= i < s.len(),
    ensures
        entries_map(s).dom().contains(s[i].0@),
        entries_map(s)[s[i].0@] == s[i].1,
    decreases s.len(),
{
    if i == s.len() - 1 {
    } else {
        lemma_entries_map_value(s.drop_last(), i);
        assert(s.drop_last()[i] == s[i]);
        assert(s.last().0@ != s[i].0@);
    }
}

impl FileManager {
    /// Well-formed: no canonical path occurs twice, and each entry's handle
    /// is its position, so handles are distinct and `entries.len()` is fresh.
    pub closed spec fn wf(&self) -> bool {
        &&& forall|p: int, q: int|
            0 <= p < q < self.entries@.len() ==> self.entries@[p].0@ != self.entries@[q].0@
        &&& forall|i: int| 0 <= i < self.entries@.len() ==> (#[trigger] self.entries@[i]).1 == i
    }

    /// An empty cache: no path has a handle.
    pub fn new() -> (r: FileManager)
        ensures
            r.wf(),
            r@ == Map::<Seq<char>, usize>::empty(),
    {
        FileManager { entries: Vec::new() }
    }

    /// The fast path, run under the shared lock: the handle already opened
    /// for `path`, if there is one. Touches nothing.
    pub fn lookup(&self, path: &String) -> (r: Option<usize>)
        requires
            self.wf(),
        ensures
            r == if self@.dom().contains(path@) {
                Some(self@[path@])
            } else {
                None::<usize>
            },
    {
        let n = self.entries.len();
        let mut i: usize = 0;
        while i < n
            invariant
                self.wf(),
                n == self.entries@.len(),
                i <= n,
                forall|j: int| 0 <= j < i ==> self.entries@[j].0@ != path@,
            decreases n - i,
        {
            if String::eq(&self.entries[i].0, path) {
                proof {
                    lemma_entries_map_value(self.entries@, i as int);
                }
                return Some(self.entries[i].1);
            }
            i = i + 1;
        }
        proof {
            lemma_entries_map_domain(self.entries@, path@);
        }
        None
    }

    /// The slow path's commit, run under the exclusive lock after `lookup`
    /// has re-checked that `path` is still absent — the re-check is
    /// mandatory, since another task may have inserted the entry between
    /// the two locks — and after the file has been opened successfully.
    /// Only then is the entry recorded, with a handle fresh among all
    /// handed out, which indexes the caller's descriptor table; it grows in
    /// step with the directory. A failed open never reaches this function,
    /// so it leaves no entry behind: exactly the successful-miss case of
    /// `cache_step`.
    pub fn insert_opened(&mut self, path: String) -> (h: usize)
        requires
            old(self).wf(),
            !old(self)@.dom().contains(path@),
        ensures
            final(self).wf(),
            final(self)@ == old(self)@.insert(path@, h),
            forall|p: Seq<char>| old(self)@.dom().contains(p) ==> old(self)@[p] != h,
    {
        let handle = self.entries.len();
        proof {
            lemma_entries_map_domain(self.entries@, path@);
            assert forall|p: Seq<char>| self@.dom().contains(p) implies self@[p]
                != handle by {
                lemma_entries_map_domain(self.entries@, p);
                let i = choose|i: int|
                    0 <= i < self.entries@.len() && self.entries@[i].0@ == p;
                lemma_entries_map_value(self.entries@, i);
            }
        }
        let ghost before = self.entries@;
        self.entries.push((path, handle));
        proof {
            assert(self.entries@.drop_last() =~= before);
            assert forall|p: int, q: int|
                0 <= p < q < self.entries@.len() implies self.entries@[p].0@
                != self.entries@[q].0@ by {
                if q == self.entries@.len() - 1 {
                    lemma_entries_map_domain(before, before[p].0@);
                }
            }
        }
        handle
    }
}

/// How many of the given accesses, run in order from directory `m`, open
/// the file at `p`: each access is a path, the handle a new entry would
/// get, and whether its open would succeed, and each runs `cache_step` on
/// the directory the previous one left. Only an attempted open that
/// succeeds counts — it is the one that creates the entry.
pub open spec fn opens_of(
    m: Map<Seq<char>, usize>,
    accesses: Seq<(Seq<char>, usize, bool)>,
    p: Seq<char>,
) -> int
    decreases accesses.len(),
{
    if accesses.len() == 0 {
        0
    } else {
        let step = cache_step(m, accesses[0].0, accesses[0].1, accesses[0].2);
        let here: int = if step.2 && accesses[0].2 && accesses[0].0 == p {
            1
        } else {
            0
        };
        here + opens_of(step.0, accesses.drop_first(), p)
    }
}

/// Law: no duplicate opens. However many accesses run against the cache,
/// in whatever order, to whatever paths and with whatever open outcomes,
/// the file at one canonical path is opened successfully at most once —
/// and not at all if the cache already holds it. A failed open creates no
/// entry, so it never blocks the one successful open that does.
pub proof fn lemma_no_duplicate_opens(
    m: Map<Seq<char>, usize>,
    accesses: Seq<(Seq<char>, usize, bool)>,
    p: Seq<char>,
)
    ensures
        opens_of(m, accesses, p) <= if m.dom().contains(p) {
            0int
        } else {
            1int
        },
        opens_of(m, accesses, p) >= 0,
    decreases accesses.len(),
{
    if accesses.len() > 0 {
        let step = cache_step(m, accesses[0].0, accesses[0].1, accesses[0].2);
        lemma_no_duplicate_opens(step.0, accesses.drop_first(), p);
        if accesses[0].0 == p && accesses[0].2 && !m.dom().contains(p) {
            assert(step.0.dom().contains(p));
        }
    }
}

/// Law: cache identity. Once an access to a canonical path has produced a
/// handle — found in the cache, or freshly recorded after its open
/// succeeded — every later access to that path observes that very handle,
/// attempts no open, cannot fail, and leaves the directory exactly as it
/// was: all tasks share one handle per path.
pub proof fn lemma_cache_identity(
    m: Map<Seq<char>, usize>,
    path: Seq<char>,
    f1: usize,
    f2: usize,
    ok1: bool,
    ok2: bool,
)
    ensures
        cache_step(m, path, f1, ok1).1 is Some ==> cache_step(
            cache_step(m, path, f1, ok1).0,
            path,
            f2,
            ok2,
        ) == (cache_step(m, path, f1, ok1).0, cache_step(m, path, f1, ok1).1, false),
{
}

/// Law: a failed open leaves no trace, and a hit never fails. When the
/// path is absent and its open fails, the access reports no handle and
/// the directory is exactly as before — nothing is recorded that later
/// accesses could stumble over; when the path is present, the access
/// returns its handle without attempting any open, whatever an open's
/// outcome would have been.
pub proof fn lemma_failed_open_leaves_no_trace(
    m: Map<Seq<char>, usize>,
    path: Seq<char>,
    fresh: usize,
    open_ok: bool,
)
    ensures
        !m.dom().contains(path) && !open_ok ==> cache_step(m, path, fresh, open_ok) == (
            m,
            None::<usize>,
            true,
        ),
        m.dom().contains(path) ==> cache_step(m, path, fresh, open_ok) == (
            m,
            Some(m[path]),
            false,
        ),
{
}

/// Law: an access to one path never disturbs another's entry. Once `path`
/// has a handle, any number of accesses to other paths, however they end,
/// leave that handle in place — together with `lemma_cache_identity` and
/// `lemma_no_duplicate_opens`, a path is opened at most once for the
/// lifetime of the cache.
pub proof fn lemma_cache_stable(
    m: Map<Seq<char>, usize>,
    path: Seq<char>,
    other: Seq<char>,
    fresh: usize,
    open_ok: bool,
)
    requires
        m.dom().contains(path),
    ensures
        cache_step(m, other, fresh, open_ok).0.dom().contains(path),
        cache_step(m, other, fresh, open_ok).0[path] == m[path],
        other == path ==> cache_step(m, other, fresh, open_ok).2 == false,
{
}

} // verus!
