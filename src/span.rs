//! Source files and the spans that tie every token to where it was read.

use crate::arena::{Arena, Id};
use vstd::prelude::*;

verus! {

/// The content of one source file.
#[derive(Debug)]
pub struct Source {
    text: String,
}

impl View for Source {
    type V = Seq<char>;

    closed spec fn view(&self) -> Seq<char> {
        self.text@
    }
}

impl Source {
    pub fn new(text: String) -> (r: Source)
        ensures
            r@ == text@,
    {
        Source { text }
    }

    /// The file's text.
    pub fn text(&self) -> (r: &str)
        ensures
            r@ == self@,
    {
        self.text.as_str()
    }
}

/// A stretch of a source file, as byte offsets into its text.
#[derive(Clone, Copy, PartialEq, Eq)]
pub struct Span {
    start: usize,
    end: usize,
    source: Id<Source>,
}

/// A value together with the span it was read from.
pub type Spanned<T> = (T, Span);

impl Span {
    pub closed spec fn spec_start(self) -> usize {
        self.start
    }

    pub closed spec fn spec_end(self) -> usize {
        self.end
    }

    pub closed spec fn spec_source(self) -> Id<Source> {
        self.source
    }

    pub fn new(start: usize, end: usize, source: Id<Source>) -> (r: Span)
        requires
            start <= end,
        ensures
            r.spec_start() == start,
            r.spec_end() == end,
            r.spec_source() == source,
    {
        Span { start, end, source }
    }

    /// The source the span belongs to.
    pub fn source(&self) -> (r: Id<Source>)
        ensures
            r == self.spec_source(),
    {
        self.source
    }

    /// The offset of the span's first byte.
    pub fn start(&self) -> (r: usize)
        ensures
            r == self.spec_start(),
    {
        self.start
    }

    /// The offset just past the span's last byte.
    pub fn end(&self) -> (r: usize)
        ensures
            r == self.spec_end(),
    {
        self.end
    }
}

/// Source files by path. Each distinct path is read at most once for the
/// cache's lifetime; its content stays in an arena and is named by an id.
pub struct FileCache {
    files: Arena<Source, 8>,
    paths: Vec<(String, Id<Source>)>,
}

impl FileCache {
    pub closed spec fn wf(&self) -> bool {
        &&& self.files.wf()
        &&& forall|i: int, j: int|
            0 <= i < j < self.paths@.len() ==> (#[trigger] self.paths@[i]).0@
                != (#[trigger] self.paths@[j]).0@
        &&& forall|i: int|
            0 <= i < self.paths@.len() ==> self.files.issued(#[trigger] self.paths@[i].1)
        &&& self.paths@.len() == self.files@.len()
        &&& forall|i: int| 0 <= i < self.paths@.len() ==> (#[trigger] self.paths@[i]).1.position(8) == i
    }

    /// The id recorded for `path`, if it was resolved before.
    pub closed spec fn cached(&self, path: Seq<char>) -> Option<Id<Source>> {
        if exists|i: int| 0 <= i < self.paths@.len() && (#[trigger] self.paths@[i]).0@ == path {
            let i = choose|i: int| 0 <= i < self.paths@.len() && (#[trigger] self.paths@[i]).0@ == path;
            Some(self.paths@[i].1)
        } else {
            None
        }
    }

    /// The sources read so far, in the order they were read.
    pub closed spec fn sources(&self) -> Seq<Source> {
        self.files@
    }

    /// Whether `id` names a source of this cache.
    pub closed spec fn holds(&self, id: Id<Source>) -> bool {
        self.files.issued(id)
    }

    /// The source that `id` names.
    pub closed spec fn source_of(&self, id: Id<Source>) -> Source {
        self.files@[id.position(8)]
    }

    /// Whether one more source can be stored.
    pub closed spec fn has_room(&self) -> bool {
        self.files.has_room()
    }

    pub fn new() -> (r: Self)
        ensures
            r.wf(),
            r.sources() == Seq::<Source>::empty(),
            forall|p: Seq<char>| r.cached(p) is None,
    {
        FileCache { files: Arena::new(), paths: Vec::new() }
    }

    /// Whether one more source can be stored.
    pub fn can_add(&self) -> (r: bool)
        requires
            self.wf(),
        ensures
            r == self.has_room(),
    {
        self.files.can_insert()
    }

    /// The source that `id` names.
    pub fn get(&self, id: Id<Source>) -> (r: &Source)
        requires
            self.wf(),
            self.holds(id),
        ensures
            *r == self.source_of(id),
    {
        self.files.get(id)
    }

    /// The id recorded for `path`, looked up without reading anything.
    pub fn lookup(&self, path: &str) -> (r: Option<Id<Source>>)
        requires
            self.wf(),
        ensures
            r == self.cached(path@),
    {
        let key = path.to_owned();
        let mut i: usize = 0;
        while i < self.paths.len()
            invariant
                self.wf(),
                i <= self.paths@.len(),
                key@ == path@,
                forall|k: int| 0 <= k < i ==> (#[trigger] self.paths@[k]).0@ != path@,
            decreases self.paths@.len() - i,
        {
            if self.paths[i].0 == key {
                proof {
                    let j = choose|j: int|
                        0 <= j < self.paths@.len() && (#[trigger] self.paths@[j]).0@ == path@;
                    if j != i {
                        if j < i {
                            assert(self.paths@[j].0@ != self.paths@[i as int].0@);
                        } else {
                            assert(self.paths@[i as int].0@ != self.paths@[j].0@);
                        }
                    }
                }
                return Some(self.paths[i].1);
            }
            i = i + 1;
        }
        None
    }

    /// The id of the source at `path`. A cached path returns its id with no
    /// read, and `read` is not called. Otherwise `read` supplies the file's
    /// content, which is stored and recorded under `path`; an error from
    /// `read` is handed back and nothing is recorded.
    pub fn resolve<E, F: FnOnce() -> Result<String, E>>(&mut self, path: &str, read: F) -> (r:
        Result<Id<Source>, E>)
        requires
            old(self).wf(),
            old(self).cached(path@) is None ==> read.requires(()) && old(self).has_room(),
        ensures
            final(self).wf(),
            old(self).cached(path@) is Some ==> cache_hit(*old(self), *final(self), path@, r),
            old(self).cached(path@) is None ==> match r {
                Ok(id) => {
                    &&& final(self).cached(path@) == Some(id)
                    &&& final(self).holds(id)
                    &&& !old(self).holds(id)
                    &&& id.position(8) == old(self).sources().len()
                    &&& final(self).sources().drop_last() == old(self).sources()
                    &&& final(self).sources().len() == old(self).sources().len() + 1
                    &&& final(self).source_of(id) == final(self).sources().last()
                    &&& exists|text: String|
                        read.ensures((), Ok::<String, E>(text)) && #[trigger] text@
                            == final(self).source_of(id)@
                    &&& forall|p: Seq<char>|
                        p != path@ ==> #[trigger] final(self).cached(p) == old(self).cached(p)
                },
                Err(e) => read.ensures((), Err::<String, E>(e)) && *final(self) == *old(self),
            },
    {
        if let Some(id) = self.lookup(path) {
            return Ok(id);
        }
        match read() {
            Ok(text) => {
                let ghost content = text@;
                let ghost old_paths = self.paths@;
                let id = self.files.insert(Source::new(text));
                self.paths.push((path.to_owned(), id));
                proof {
                    let n = self.paths@.len() - 1;
                    crate::arena::lemma_handle_round_trip(self.files, id, n as nat);
                    assert(self.paths@[n].0@ == path@);
                    assert forall|i: int|
                        0 <= i < self.paths@.len() implies self.files.issued(
                        #[trigger] self.paths@[i].1,
                    ) by {
                        if i < n {
                            assert(self.paths@[i] == old_paths[i]);
                        }
                    }
                    assert forall|i: int, j: int|
                        0 <= i < j < self.paths@.len() implies (#[trigger] self.paths@[i]).0@
                        != (#[trigger] self.paths@[j]).0@ by {
                        if j == n {
                            assert(self.paths@[i] == old_paths[i]);
                            assert(!(exists|k: int|
                                0 <= k < old_paths.len() && (#[trigger] old_paths[k]).0@
                                    == path@));
                        }
                    }
                    assert(self.cached(path@) == Some(id)) by {
                        let j = choose|j: int|
                            0 <= j < self.paths@.len() && (#[trigger] self.paths@[j]).0@ == path@;
                        if j != n {
                            assert(self.paths@[j] == old_paths[j]);
                        }
                    }
                    assert forall|p: Seq<char>| p != path@ implies #[trigger] self.cached(p)
                        == old(self).cached(p) by {
                        if exists|i: int|
                            0 <= i < old_paths.len() && (#[trigger] old_paths[i]).0@ == p {
                            let i = choose|i: int|
                                0 <= i < old_paths.len() && (#[trigger] old_paths[i]).0@ == p;
                            assert(self.paths@[i] == old_paths[i]);
                            let j = choose|j: int|
                                0 <= j < self.paths@.len() && (#[trigger] self.paths@[j]).0@ == p;
                            assert(j != n);
                            assert(self.paths@[j] == old_paths[j]);
                        }
                        if exists|j: int|
                            0 <= j < self.paths@.len() && (#[trigger] self.paths@[j]).0@ == p {
                            let j = choose|j: int|
                                0 <= j < self.paths@.len() && (#[trigger] self.paths@[j]).0@ == p;
                            assert(j != n);
                            assert(self.paths@[j] == old_paths[j]);
                        }
                    }
                    assert(self.files@.drop_last() =~= old(self).files@);
                }
                Ok(id)
            },
            Err(e) => Err(e),
        }
    }

    /// The source at `path`, resolved as [`FileCache::resolve`] does.
    pub fn resolve_and_get<E, F: FnOnce() -> Result<String, E>>(&mut self, path: &str, read: F) -> (r:
        Result<&Source, E>)
        requires
            old(self).wf(),
            old(self).cached(path@) is None ==> read.requires(()) && old(self).has_room(),
        ensures
            final(self).wf(),
            old(self).cached(path@) is Some ==> *final(self) == *old(self),
            match r {
                Ok(src) => match final(self).cached(path@) {
                    Some(id) => *src == final(self).source_of(id),
                    None => false,
                },
                Err(e) => old(self).cached(path@) is None && read.ensures((), Err::<String, E>(e))
                    && *final(self) == *old(self),
            },
            old(self).cached(path@) is None ==> match r {
                Ok(src) => {
                    &&& final(self).sources() == old(self).sources().push(*src)
                    &&& exists|text: String|
                        read.ensures((), Ok::<String, E>(text)) && #[trigger] text@ == src@
                },
                Err(_) => true,
            },
    {
        let id = self.resolve(path, read)?;
        let src = self.get(id);
        proof {
            if old(self).cached(path@) is None {
                assert(self.sources() =~= old(self).sources().push(*src));
            }
        }
        Ok(src)
    }
}

/// What resolving a cached `path` on `before` does: it returns the recorded
/// id and leaves the cache as it was.
pub open spec fn cache_hit<E>(
    before: FileCache,
    after: FileCache,
    path: Seq<char>,
    r: Result<Id<Source>, E>,
) -> bool {
    match before.cached(path) {
        Some(id) => r == Ok::<Id<Source>, E>(id) && after == before,
        None => false,
    }
}

/// Distinct paths are recorded under distinct ids.
pub proof fn lemma_cached_ids_distinct(c: FileCache, p: Seq<char>, q: Seq<char>)
    requires
        c.wf(),
        p != q,
        c.cached(p) is Some,
        c.cached(q) is Some,
    ensures
        c.cached(p) != c.cached(q),
{
    let i = choose|i: int| 0 <= i < c.paths@.len() && (#[trigger] c.paths@[i]).0@ == p;
    let j = choose|j: int| 0 <= j < c.paths@.len() && (#[trigger] c.paths@[j]).0@ == q;
    assert(c.paths@[i].1.position(8) != c.paths@[j].1.position(8));
}

/// Every stored source was stored for some path, under the id that the path
/// is recorded with: nothing is held that no path leads to.
pub proof fn lemma_sources_have_paths(c: FileCache, k: int)
    requires
        c.wf(),
        0 <= k < c.sources().len(),
    ensures
        exists|p: Seq<char>|
            #[trigger] c.cached(p) is Some && c.cached(p)->0.position(8) == k,
{
    let p = c.paths@[k].0@;
    assert(c.cached(p) is Some);
    let j = choose|j: int| 0 <= j < c.paths@.len() && (#[trigger] c.paths@[j]).0@ == p;
    if j != k {
        if j < k {
            assert(c.paths@[j].0@ != c.paths@[k].0@);
        } else {
            assert(c.paths@[k].0@ != c.paths@[j].0@);
        }
    }
}

/// Resolving a path twice gives the same id both times, and the second call
/// leaves the cache as the first left it: the file is read once.
pub proof fn lemma_resolve_twice<E>(
    first: FileCache,
    second: FileCache,
    path: Seq<char>,
    r1: Result<Id<Source>, E>,
    r2: Result<Id<Source>, E>,
)
    requires
        r1 is Ok,
        first.cached(path) == Some(r1->Ok_0),
        first.cached(path) is Some ==> cache_hit(first, second, path, r2),
    ensures
        r2 == r1,
        second == first,
{
}

} // verus!
