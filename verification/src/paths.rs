//! Maps and sets keyed by file path.
use crate::file_path::FilePath;
use crate::file_path::PathView;
use std::sync::Arc;
use vstd::prelude::*;

verus! {

/// A list names every path of a set, each once.
pub open spec fn lists(list: Seq<FilePath>, set: Set<PathView>) -> bool {
    &&& forall|i: int| 0 <= i < list.len() ==> set.contains((#[trigger] list[i])@)
    &&& forall|path: PathView| #[trigger]
        set.contains(path) ==> exists|i: int| 0 <= i < list.len() && (#[trigger] list[i])@ == path
    &&& forall|i: int, j: int|
        0 <= i < j < list.len() ==> (#[trigger] list[i])@ != (#[trigger] list[j])@
}

/// A map from paths to values, walked in the order in which the paths came in.
pub struct PathMap<V> {
    entries: Vec<(FilePath, V)>,
}

/// The paths of a list of entries.
pub closed spec fn paths_of<V>(entries: Seq<(FilePath, V)>) -> Seq<PathView> {
    Seq::new(entries.len(), |i: int| entries[i].0@)
}

/// The map that a list of entries stands for.
pub closed spec fn map_of<V>(entries: Seq<(FilePath, V)>) -> Map<PathView, V> {
    let paths = paths_of(entries);
    Map::new(
        |path: PathView| paths.contains(path),
        |path: PathView| entries[paths.index_of(path)].1,
    )
}

impl<V> View for PathMap<V> {
    type V = Map<PathView, V>;

    closed spec fn view(&self) -> Map<PathView, V> {
        map_of(self.entries@)
    }
}

impl<V> PathMap<V> {
    /// The paths, in the order in which they came in.
    pub closed spec fn paths(&self) -> Seq<PathView> {
        paths_of(self.entries@)
    }

    /// No path occurs twice.
    #[verifier::type_invariant]
    spec fn paths_differ(self) -> bool {
        paths_of(self.entries@).no_duplicates()
    }

    pub fn new() -> (map: Self)
        ensures
            map@ == Map::<PathView, V>::empty(),
            map.paths() == Seq::<PathView>::empty(),
    {
        let map = PathMap { entries: Vec::new() };
        proof {
            assert(map.paths() =~= Seq::<PathView>::empty());
            assert(map@ =~= Map::<PathView, V>::empty());
        }
        map
    }

    /// Number of paths. The order of the walk lists every path once.
    pub fn len(&self) -> (n: usize)
        ensures
            n == self.paths().len(),
            self.paths().no_duplicates(),
            forall|path: PathView|
                #[trigger] self@.dom().contains(path) <==> self.paths().contains(path),
    {
        proof {
            use_type_invariant(self);
        }
        self.entries.len()
    }

    /// The path and the value at place `i` of the walk.
    pub fn entry(&self, i: usize) -> (entry: (&FilePath, &V))
        requires
            i < self.paths().len(),
        ensures
            entry.0@ == self.paths()[i as int],
            self@.dom().contains(entry.0@),
            *entry.1 == self@[entry.0@],
    {
        proof {
            use_type_invariant(self);
            lemma_entry(self.entries@, i as int);
        }
        let entry = &self.entries[i];
        (&entry.0, &entry.1)
    }

    /// The paths.
    pub fn keys(&self) -> (list: Vec<FilePath>)
        ensures
            lists(list@, self@.dom()),
    {
        let n = self.len();
        let mut list: Vec<FilePath> = Vec::with_capacity(n);
        let mut i: usize = 0;
        while i < n
            invariant
                n == self.paths().len(),
                i <= n,
                list@.len() == i,
                forall|k: int| 0 <= k < i ==> (#[trigger] list@[k])@ == self.paths()[k],
            decreases n - i,
        {
            list.push(self.entry(i).0.clone());
            i = i + 1;
        }
        proof {
            let order = self.paths();
            assert forall|path: PathView| #[trigger]
                self@.dom().contains(path) implies exists|i: int|
                0 <= i < list@.len() && (#[trigger] list@[i])@ == path by {
                let k = order.index_of(path);
                assert(list@[k]@ == path);
            }
            assert forall|i: int| 0 <= i < list@.len() implies self@.dom().contains(
                (#[trigger] list@[i])@,
            ) by {
                assert(order.contains(order[i]));
            }
        }
        list
    }

    /// The paths that neither another map nor a set has.
    pub fn keys_missing_in_both<W>(&self, other: &PathMap<W>, set: &PathSet) -> (list: Vec<FilePath>)
        ensures
            lists(list@, self@.dom().difference(other@.dom()).difference(set@)),
    {
        let n = self.len();
        let ghost order = self.paths();
        let ghost missing = self@.dom().difference(other@.dom()).difference(set@);
        let mut list: Vec<FilePath> = Vec::new();
        let mut i: usize = 0;
        while i < n
            invariant
                n == order.len(),
                i <= n,
                order == self.paths(),
                order.no_duplicates(),
                missing == self@.dom().difference(other@.dom()).difference(set@),
                forall|path: PathView| #[trigger]
                    self@.dom().contains(path) <==> order.contains(path),
                forall|k: int|
                    0 <= k < list@.len() ==> missing.contains((#[trigger] list@[k])@)
                        && order.take(i as int).contains(list@[k]@),
                forall|k: int|
                    0 <= k < i && missing.contains(#[trigger] order[k]) ==> exists|j: int|
                        0 <= j < list@.len() && (#[trigger] list@[j])@ == order[k],
                forall|k: int, j: int|
                    0 <= k < j < list@.len() ==> (#[trigger] list@[k])@ != (#[trigger] list@[j])@,
            decreases n - i,
        {
            let path = self.entry(i).0;
            let ghost before = list@;
            proof {
                assert(order.take(i + 1) =~= order.take(i as int).push(order[i as int]));
                assert(order.take(i + 1)[i as int] == path@);
                assert(!order.take(i as int).contains(path@)) by {
                    if order.take(i as int).contains(path@) {
                        let k = order.take(i as int).index_of(path@);
                        assert(order[k] == order[i as int]);
                    }
                }
                assert forall|p: PathView| order.take(i as int).contains(p) implies order.take(
                    i + 1,
                ).contains(p) by {
                    let k = order.take(i as int).index_of(p);
                    assert(order.take(i + 1)[k] == p);
                }
            }
            if !other.contains_key(path) && !set.contains(path) {
                list.push(path.clone());
                proof {
                    assert(list@[before.len() as int]@ == order[i as int]);
                    assert forall|k: int| 0 <= k < i && missing.contains(#[trigger] order[k]) implies exists|
                        j: int,
                    |
                        0 <= j < list@.len() && (#[trigger] list@[j])@ == order[k] by {
                        let j = choose|j: int|
                            0 <= j < before.len() && (#[trigger] before[j])@ == order[k];
                        assert(list@[j]@ == order[k]);
                    }
                }
            }
            i = i + 1;
        }
        proof {
            assert forall|path: PathView| #[trigger] missing.contains(path) implies exists|j: int|
                0 <= j < list@.len() && (#[trigger] list@[j])@ == path by {
                let k = order.index_of(path);
                assert(missing.contains(order[k]));
            }
        }
        list
    }

    /// The paths that another map does not have.
    pub fn keys_missing_in<W>(&self, other: &PathMap<W>) -> (list: Vec<FilePath>)
        ensures
            lists(list@, self@.dom().difference(other@.dom())),
    {
        let none = PathSet::new();
        assert(self@.dom().difference(other@.dom()).difference(none@) =~= self@.dom().difference(
            other@.dom(),
        ));
        self.keys_missing_in_both(other, &none)
    }

    /// Where a path stands in the walk.
    pub fn place(&self, path: &FilePath) -> (place: Option<usize>)
        ensures
            match place {
                Some(i) => i < self.paths().len() && self.paths()[i as int] == path@
                    && self@.dom().contains(path@),
                None => !self@.dom().contains(path@),
            },
    {
        self.find(path)
    }

    /// Where a path stands in the list of entries.
    fn find(&self, path: &FilePath) -> (place: Option<usize>)
        ensures
            match place {
                Some(i) => i < self.entries@.len() && self.entries@[i as int].0@ == path@
                    && self@.dom().contains(path@) && self@[path@] == self.entries@[i as int].1,
                None => !self@.dom().contains(path@),
            },
    {
        proof {
            use_type_invariant(self);
        }
        let mut i: usize = 0;
        while i < self.entries.len()
            invariant
                self.paths_differ(),
                i <= self.entries@.len(),
                forall|k: int| 0 <= k < i ==> paths_of(self.entries@)[k] != path@,
            decreases self.entries@.len() - i,
        {
            proof {
                lemma_entry(self.entries@, i as int);
            }
            if self.entries[i].0.same(path) {
                return Some(i);
            }
            i = i + 1;
        }
        None
    }

    pub fn get(&self, path: &FilePath) -> (value: Option<&V>)
        ensures
            match value {
                Some(value) => self@.dom().contains(path@) && *value == self@[path@],
                None => !self@.dom().contains(path@),
            },
    {
        match self.find(path) {
            Some(i) => Some(&self.entries[i].1),
            None => None,
        }
    }

    pub fn contains_key(&self, path: &FilePath) -> (r: bool)
        ensures
            r == self@.dom().contains(path@),
    {
        match self.find(path) {
            Some(i) => true,
            None => false,
        }
    }

    /// Remove a path and hand out its value. The other paths keep their order.
    pub fn remove(&mut self, path: &FilePath) -> (value: Option<V>)
        ensures
            final(self)@ == old(self)@.remove(path@),
            match value {
                Some(value) => old(self)@.dom().contains(path@) && value == old(self)@[path@]
                    && final(self).paths() == old(self).paths().remove(
                    old(self).paths().index_of(path@),
                ),
                None => !old(self)@.dom().contains(path@) && final(self).paths()
                    == old(self).paths(),
            },
    {
        proof {
            use_type_invariant(&*self);
        }
        let ghost before = *self;
        match self.find(path) {
            Some(i) => {
                let mut entries: Vec<(FilePath, V)> = Vec::new();
                std::mem::swap(&mut entries, &mut self.entries);
                let removed = entries.remove(i);
                proof {
                    lemma_entry(before.entries@, i as int);
                    lemma_removed(before.entries@, i as int);
                }
                self.entries = entries;
                Some(removed.1)
            },
            None => {
                assert(before@.remove(path@) =~= before@);
                None
            },
        }
    }

    /// Give a path a value. A path that is there already keeps its place in the
    /// walk and its spelling; a new one goes to the end.
    pub fn insert(&mut self, path: FilePath, value: V)
        ensures
            final(self)@ == old(self)@.insert(path@, value),
            final(self).paths() == if old(self)@.dom().contains(path@) {
                old(self).paths()
            } else {
                old(self).paths().push(path@)
            },
    {
        proof {
            use_type_invariant(&*self);
        }
        let ghost before = *self;
        match self.find(&path) {
            Some(i) => {
                let mut entries: Vec<(FilePath, V)> = Vec::new();
                std::mem::swap(&mut entries, &mut self.entries);
                let (known, replaced) = entries.remove(i);
                entries.insert(i, (known, value));
                proof {
                    assert(entries@ =~= before.entries@.update(i as int, (known, value)));
                    lemma_entry(before.entries@, i as int);
                    lemma_replaced(before.entries@, i as int, entries@[i as int]);
                }
                self.entries = entries;
            },
            None => {
                let mut entries: Vec<(FilePath, V)> = Vec::new();
                std::mem::swap(&mut entries, &mut self.entries);
                entries.push((path, value));
                proof {
                    lemma_pushed(before.entries@, entries@.last());
                }
                self.entries = entries;
            },
        }
    }
}

impl<V> Clone for PathMap<Arc<V>> {
    /// The copy shares the values.
    fn clone(&self) -> (copy: Self)
        ensures
            copy@ == self@,
            copy.paths() == self.paths(),
    {
        proof {
            use_type_invariant(self);
        }
        let mut entries: Vec<(FilePath, Arc<V>)> = Vec::with_capacity(self.entries.len());
        let mut i: usize = 0;
        while i < self.entries.len()
            invariant
                i <= self.entries@.len(),
                entries@.len() == i,
                forall|k: int|
                    0 <= k < i ==> (#[trigger] entries@[k]).0@ == self.entries@[k].0@
                        && entries@[k].1 == self.entries@[k].1,
            decreases self.entries@.len() - i,
        {
            let entry = &self.entries[i];
            entries.push((entry.0.clone(), entry.1.clone()));
            i = i + 1;
        }
        proof {
            assert(paths_of(entries@) =~= paths_of(self.entries@));
            assert forall|path: PathView| map_of(entries@).dom().contains(path) implies
                #[trigger] map_of(entries@)[path] == map_of(self.entries@)[path] by {
                let k = paths_of(entries@).index_of(path);
                assert(entries@[k].1 == self.entries@[k].1);
            }
            assert(map_of(entries@) =~= map_of(self.entries@));
        }
        PathMap { entries }
    }
}

/// `std::sync::Arc::make_mut` hands out the value for writing. Where it is
/// shared, it is cloned first, so that other holders keep what they had.
#[verifier::external_body]
pub(crate) fn make_mut<T: Clone>(this: &mut Arc<T>) -> (value: &mut T)
    ensures
        *value == **old(this) || cloned(**old(this), *value),
        **final(this) == *final(value),
{
    Arc::make_mut(this)
}

/// A set of paths.
pub struct PathSet {
    paths: PathMap<()>,
}

impl View for PathSet {
    type V = Set<PathView>;

    closed spec fn view(&self) -> Set<PathView> {
        self.paths@.dom()
    }
}

impl PathSet {
    pub fn new() -> (set: Self)
        ensures
            set@ == Set::<PathView>::empty(),
    {
        PathSet { paths: PathMap::new() }
    }

    pub fn contains(&self, path: &FilePath) -> (r: bool)
        ensures
            r == self@.contains(path@),
    {
        self.paths.contains_key(path)
    }

    /// Add a path; tells whether it is new.
    pub fn insert(&mut self, path: FilePath) -> (new: bool)
        ensures
            final(self)@ == old(self)@.insert(path@),
            new == !old(self)@.contains(path@),
    {
        let new = !self.paths.contains_key(&path);
        self.paths.insert(path, ());
        assert(self@ =~= old(self)@.insert(path@));
        new
    }

    /// Remove a path; tells whether it was there.
    pub fn remove(&mut self, path: &FilePath) -> (removed: bool)
        ensures
            final(self)@ == old(self)@.remove(path@),
            removed == old(self)@.contains(path@),
    {
        let removed = self.paths.remove(path);
        assert(self@ =~= old(self)@.remove(path@));
        removed.is_some()
    }
}

proof fn lemma_entry<V>(entries: Seq<(FilePath, V)>, i: int)
    requires
        paths_of(entries).no_duplicates(),
        0 <= i < entries.len(),
    ensures
        paths_of(entries)[i] == entries[i].0@,
        map_of(entries).dom().contains(entries[i].0@),
        map_of(entries)[entries[i].0@] == entries[i].1,
        paths_of(entries).index_of(entries[i].0@) == i,
{
    let paths = paths_of(entries);
    assert(paths[i] == entries[i].0@);
    assert(paths.contains(paths[i]));
    assert(paths.index_of(paths[i]) == i);
}

proof fn lemma_removed<V>(entries: Seq<(FilePath, V)>, i: int)
    requires
        paths_of(entries).no_duplicates(),
        0 <= i < entries.len(),
    ensures
        paths_of(entries.remove(i)) == paths_of(entries).remove(i),
        paths_of(entries.remove(i)).no_duplicates(),
        map_of(entries.remove(i)) == map_of(entries).remove(entries[i].0@),
{
    let paths = paths_of(entries);
    let rest = paths_of(entries.remove(i));
    let path = entries[i].0@;
    let expected = map_of(entries).remove(path);
    let actual = map_of(entries.remove(i));
    assert(rest =~= paths.remove(i));
    assert(paths[i] == path);
    assert forall|p: PathView| actual.dom().contains(p) == expected.dom().contains(p) by {
        if expected.dom().contains(p) {
            let k = paths.index_of(p);
            assert(paths[k] == p);
            if k < i {
                assert(rest[k] == p);
            } else {
                assert(rest[k - 1] == p);
            }
        }
        if actual.dom().contains(p) {
            let k = rest.index_of(p);
            assert(rest[k] == p);
            if k < i {
                assert(paths[k] == p);
            } else {
                assert(paths[k + 1] == p);
            }
        }
    }
    assert forall|p: PathView| actual.dom().contains(p) implies actual[p] == expected[p] by {
        let k = rest.index_of(p);
        assert(rest[k] == p);
        if k < i {
            lemma_entry(entries, k);
        } else {
            lemma_entry(entries, k + 1);
        }
    }
    assert(actual =~= expected);
}

proof fn lemma_replaced<V>(entries: Seq<(FilePath, V)>, i: int, entry: (FilePath, V))
    requires
        paths_of(entries).no_duplicates(),
        0 <= i < entries.len(),
        entry.0@ == entries[i].0@,
    ensures
        paths_of(entries.update(i, entry)) == paths_of(entries),
        map_of(entries.update(i, entry)) == map_of(entries).insert(entry.0@, entry.1),
{
    let paths = paths_of(entries);
    let expected = map_of(entries).insert(entry.0@, entry.1);
    let actual = map_of(entries.update(i, entry));
    assert(paths_of(entries.update(i, entry)) =~= paths);
    lemma_entry(entries, i);
    assert forall|p: PathView| actual.dom().contains(p) implies actual[p] == expected[p] by {
        let k = paths.index_of(p);
        assert(paths[k] == p);
        lemma_entry(entries, k);
        lemma_entry(entries.update(i, entry), k);
    }
    assert(actual =~= expected);
}

proof fn lemma_pushed<V>(entries: Seq<(FilePath, V)>, entry: (FilePath, V))
    requires
        paths_of(entries).no_duplicates(),
        !map_of(entries).dom().contains(entry.0@),
    ensures
        paths_of(entries.push(entry)) == paths_of(entries).push(entry.0@),
        paths_of(entries.push(entry)).no_duplicates(),
        map_of(entries.push(entry)) == map_of(entries).insert(entry.0@, entry.1),
{
    let paths = paths_of(entries);
    let longer = paths_of(entries.push(entry));
    let expected = map_of(entries).insert(entry.0@, entry.1);
    let actual = map_of(entries.push(entry));
    assert(longer =~= paths.push(entry.0@));
    assert(!paths.contains(entry.0@));
    assert forall|i: int, j: int| 0 <= i < longer.len() && 0 <= j < longer.len() && i != j implies
        longer[i] != longer[j] by {
        if i < paths.len() && j < paths.len() {
            assert(longer[i] == paths[i]);
            assert(longer[j] == paths[j]);
        } else if i < paths.len() {
            assert(paths.contains(paths[i]));
        } else {
            assert(paths.contains(paths[j]));
        }
    }
    assert(longer[paths.len() as int] == entry.0@);
    assert forall|p: PathView| actual.dom().contains(p) == expected.dom().contains(p) by {
        if expected.dom().contains(p) && p != entry.0@ {
            let k = paths.index_of(p);
            assert(longer[k] == p);
        }
        if actual.dom().contains(p) && p != entry.0@ {
            let k = longer.index_of(p);
            assert(longer[k] == p);
            assert(paths[k] == p);
        }
    }
    assert forall|p: PathView| actual.dom().contains(p) implies actual[p] == expected[p] by {
        let k = longer.index_of(p);
        assert(longer[k] == p);
        lemma_entry(entries.push(entry), k);
        if k < paths.len() {
            lemma_entry(entries, k);
        }
    }
    assert(actual =~= expected);
}

/// A list of a set names its members and nothing else, none of them twice.
pub proof fn law_lists(list: Seq<FilePath>, set: Set<PathView>)
    ensures
        lists(list, set) <==> {
            &&& forall|path: PathView| #[trigger]
                set.contains(path) <==> exists|i: int|
                    0 <= i < list.len() && (#[trigger] list[i])@ == path
            &&& forall|i: int, j: int|
                0 <= i < list.len() && 0 <= j < list.len() && i != j ==> (#[trigger] list[i])@ != (
                #[trigger] list[j])@
        },
{
    if lists(list, set) {
        assert forall|path: PathView| #[trigger] set.contains(path) <==> exists|i: int|
            0 <= i < list.len() && (#[trigger] list[i])@ == path by {}
        assert forall|i: int, j: int|
            0 <= i < list.len() && 0 <= j < list.len() && i != j implies (#[trigger] list[i])@ != (
        #[trigger] list[j])@ by {
            if j < i {
                assert(list[j]@ != list[i]@);
            }
        }
    }
    if forall|path: PathView| #[trigger]
        set.contains(path) <==> exists|i: int| 0 <= i < list.len() && (#[trigger] list[i])@ == path {
        assert forall|i: int| 0 <= i < list.len() implies set.contains((#[trigger] list[i])@) by {
            let path = list[i]@;
            assert(exists|k: int| 0 <= k < list.len() && (#[trigger] list[k])@ == path);
        }
    }
}

} // verus!
