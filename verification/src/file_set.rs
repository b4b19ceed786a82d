//! Sets of file paths.

use vstd::prelude::*;

verus! {

/// The paths that a sequence of strings spells, one for one.
pub open spec fn paths_of(v: Seq<String>) -> Seq<Seq<char>> {
    v.map_values(|s: String| s@)
}

/// The paths of `paths` that `seen` does not hold, in the order of `paths`.
pub open spec fn new_files(seen: Set<Seq<char>>, paths: Seq<Seq<char>>) -> Seq<Seq<char>> {
    paths.filter(|p: Seq<char>| !seen.contains(p))
}

/// `s` without the later occurrences of what it holds more than once.
pub open spec fn distinct<A>(s: Seq<A>) -> Seq<A>
    decreases s.len(),
{
    if s.len() == 0 {
        Seq::empty()
    } else {
        let front = distinct(s.drop_last());
        if front.contains(s.last()) {
            front
        } else {
            front.push(s.last())
        }
    }
}

/// `distinct` holds what its argument holds, and nothing twice.
pub proof fn lemma_distinct<A>(s: Seq<A>)
    ensures
        distinct(s).no_duplicates(),
        distinct(s).to_set() == s.to_set(),
        forall|x: A| distinct(s).contains(x) <==> s.contains(x),
    decreases s.len(),
{
    if s.len() == 0 {
        assert(distinct(s).to_set() =~= s.to_set());
    } else {
        let rest = s.drop_last();
        let front = distinct(rest);
        lemma_distinct(rest);
        assert forall|x: A| distinct(s).contains(x) <==> s.contains(x) by {
            assert(front.contains(x) <==> rest.contains(x));
            if s.contains(x) {
                let k = choose|k: int| 0 <= k < s.len() && s[k] == x;
                if k < s.len() - 1 {
                    assert(rest[k] == x);
                    assert(rest.contains(x));
                    let j = choose|j: int| 0 <= j < front.len() && front[j] == x;
                    assert(distinct(s)[j] == x);
                } else if !front.contains(s.last()) {
                    assert(distinct(s)[front.len() as int] == x);
                }
            }
            if distinct(s).contains(x) {
                let j = choose|j: int| 0 <= j < distinct(s).len() && distinct(s)[j] == x;
                if j < front.len() {
                    assert(front[j] == x);
                    assert(front.contains(x));
                    let k = choose|k: int| 0 <= k < rest.len() && rest[k] == x;
                    assert(s[k] == x);
                } else {
                    assert(s[s.len() - 1] == x);
                }
            }
        }
        assert(distinct(s).to_set() =~= s.to_set());
    }
}

/// Taking one more element into `distinct` adds it at the end, unless it is
/// there already.
pub proof fn lemma_distinct_push<A>(s: Seq<A>, x: A)
    ensures
        distinct(s.push(x)) == if s.contains(x) {
            distinct(s)
        } else {
            distinct(s).push(x)
        },
{
    assert(s.push(x).drop_last() =~= s);
    assert(s.push(x).last() == x);
    lemma_distinct(s);
}

/// A set of file paths: what a directory was seen to hold at one moment.
///
/// Two paths are the same when they are spelled the same. The set remembers
/// the order in which its paths were first put in.
pub struct FileSet {
    paths: Vec<String>,
}

impl View for FileSet {
    type V = Set<Seq<char>>;

    open spec fn view(&self) -> Set<Seq<char>> {
        self.order().to_set()
    }
}

impl FileSet {
    /// The paths of the set, each once, oldest first.
    pub closed spec fn order(&self) -> Seq<Seq<char>> {
        paths_of(self.paths@)
    }

    /// No path stands twice in the set.
    #[verifier::type_invariant]
    pub open spec fn wf(&self) -> bool {
        self.order().no_duplicates()
    }

    /// The empty set.
    pub fn new() -> (set: FileSet)
        ensures
            set.order() == Seq::<Seq<char>>::empty(),
            set@ == Set::<Seq<char>>::empty(),
    {
        let set = FileSet { paths: Vec::new() };
        assert(set.order() =~= Seq::<Seq<char>>::empty());
        assert(set@ =~= Set::<Seq<char>>::empty());
        set
    }

    /// The number of paths in the set.
    pub fn len(&self) -> (n: usize)
        ensures
            n == self.order().len(),
            n == self@.len(),
    {
        proof {
            use_type_invariant(self);
            self.order().unique_seq_to_set();
        }
        self.paths.len()
    }

    /// Whether the set holds no path.
    pub fn is_empty(&self) -> (empty: bool)
        ensures
            empty == (self.order().len() == 0),
            empty == (self@ == Set::<Seq<char>>::empty()),
    {
        proof {
            if self.order().len() == 0 {
                assert(self@ =~= Set::<Seq<char>>::empty());
            } else {
                assert(self.order().contains(self.order()[0]));
                assert(self@.contains(self.order()[0]));
            }
        }
        self.paths.len() == 0
    }

    /// Whether `path` is in the set.
    pub fn contains(&self, path: &String) -> (found: bool)
        ensures
            found == self@.contains(path@),
    {
        let mut i: usize = 0;
        while i < self.paths.len()
            invariant
                i <= self.paths.len(),
                forall|j: int| 0 <= j < i ==> self.order()[j] != path@,
            decreases self.paths.len() - i,
        {
            if self.paths[i] == *path {
                assert(self.order()[i as int] == path@);
                return true;
            }
            i += 1;
        }
        false
    }

    /// Puts `path` into the set unless it is there already, and says whether
    /// it was put in.
    pub fn insert(&mut self, path: String) -> (added: bool)
        ensures
            added == !old(self)@.contains(path@),
            final(self).order() == if added {
                old(self).order().push(path@)
            } else {
                old(self).order()
            },
            final(self)@ == old(self)@.insert(path@),
    {
        proof {
            use_type_invariant(&*self);
        }
        if self.contains(&path) {
            assert(self@ =~= self@.insert(path@));
            false
        } else {
            let ghost before = self.order();
            // The vector leaves the set while it grows, so that the set is
            // whole whenever it is looked at.
            let mut paths: Vec<String> = Vec::new();
            assert(paths_of(paths@) =~= Seq::<Seq<char>>::empty());
            core::mem::swap(&mut self.paths, &mut paths);
            paths.push(path);
            assert(paths_of(paths@) =~= before.push(path@));
            assert(!before.contains(path@));
            assert(before.push(path@).no_duplicates());
            core::mem::swap(&mut self.paths, &mut paths);
            assert(self.order() =~= before.push(path@));
            proof {
                before.lemma_push_to_set_commute(path@);
            }
            true
        }
    }

    /// The paths of the set as strings, oldest first.
    pub fn paths(&self) -> (paths: &Vec<String>)
        ensures
            paths_of(paths@) == self.order(),
    {
        &self.paths
    }
}

} // verus!
