use vstd::prelude::*;
use vstd::string::StringExecFns;
use vstd::utf8::encode_utf8;

verus! {

/// Why an operation on the filesystem was refused.
#[derive(Clone, Copy, Debug, PartialEq, Eq, Structural)]
pub enum FsError {
    /// The name is already bound in the directory.
    DuplicateName,
    /// No entry has that name.
    NotFound,
    /// The entry names a file where a directory was expected.
    NotADirectory,
    /// The entry names a directory where a file was expected.
    IsADirectory,
    /// The block store has no free block left.
    OutOfSpace,
}

/// One binding of a directory: a name, the inode it refers to, and whether
/// that inode is a directory.
#[derive(Clone, Debug)]
pub struct DirEntry {
    pub name: String,
    pub inode_id: usize,
    pub is_dir: bool,
}

/// One level of the hierarchy: its own name, the id of its parent (`None`
/// for the root) and its entries, whose names are unique.
#[derive(Clone, Debug)]
pub struct Directory {
    pub name: String,
    pub parent: Option<usize>,
    pub entries: Vec<DirEntry>,
}

impl Directory {
    /// No two entries share a name.
    pub closed spec fn wf(&self) -> bool {
        forall|i: int, j: int|
            0 <= i < self.entries@.len() && 0 <= j < self.entries@.len() && i != j
                ==> #[trigger] self.entries@[i].name@ != #[trigger] self.entries@[j].name@
    }

    closed spec fn holds_name(&self, k: Seq<char>) -> bool {
        exists|i: int| 0 <= i < self.entries@.len() && #[trigger] self.entries@[i].name@ == k
    }

    closed spec fn index_of(&self, k: Seq<char>) -> int {
        choose|i: int| 0 <= i < self.entries@.len() && #[trigger] self.entries@[i].name@ == k
    }

    /// The entries, as a map from name to inode id and directory flag.
    pub closed spec fn entries_map(&self) -> Map<Seq<char>, (usize, bool)> {
        Map::new(
            |k: Seq<char>| self.holds_name(k),
            |k: Seq<char>|
                (self.entries@[self.index_of(k)].inode_id, self.entries@[self.index_of(k)].is_dir),
        )
    }

    proof fn lemma_entry_in_map(&self, i: int)
        requires
            self.wf(),
            0 <= i < self.entries@.len(),
        ensures
            self.entries_map().contains_key(self.entries@[i].name@),
            self.entries_map()[self.entries@[i].name@] == (self.entries@[i].inode_id, self.entries@[i].is_dir),
    {
        let k = self.entries@[i].name@;
        assert(self.holds_name(k));
        let j = self.index_of(k);
        assert(self.entries@[j].name@ == k);
    }

    proof fn lemma_map_entries(&self)
        requires
            self.wf(),
        ensures
            forall|i: int| 0 <= i < self.entries@.len() ==> {
                &&& self.entries_map().contains_key(#[trigger] self.entries@[i].name@)
                &&& self.entries_map()[self.entries@[i].name@] == (self.entries@[i].inode_id, self.entries@[i].is_dir)
            },
            forall|k: Seq<char>| #[trigger] self.entries_map().contains_key(k)
                ==> exists|i: int| 0 <= i < self.entries@.len() && #[trigger] self.entries@[i].name@ == k,
    {
        assert forall|i: int| 0 <= i < self.entries@.len() implies {
            &&& self.entries_map().contains_key(#[trigger] self.entries@[i].name@)
            &&& self.entries_map()[self.entries@[i].name@] == (self.entries@[i].inode_id, self.entries@[i].is_dir)
        } by {
            self.lemma_entry_in_map(i);
        }
    }

    /// The index of the entry called `name`, if there is one.
    fn find(&self, name: &String) -> (r: Option<usize>)
        requires
            self.wf(),
        ensures
            r matches Some(i) ==> i < self.entries@.len() && self.entries@[i as int].name@ == name@,
            r is None ==> forall|i: int| 0 <= i < self.entries@.len() ==> #[trigger] self.entries@[i].name@ != name@,
            r is None <==> !self.entries_map().contains_key(name@),
    {
        proof {
            self.lemma_map_entries();
        }
        let mut i: usize = 0;
        while i < self.entries.len()
            invariant
                i <= self.entries@.len(),
                forall|j: int| 0 <= j < i ==> #[trigger] self.entries@[j].name@ != name@,
            decreases self.entries@.len() - i,
        {
            if self.entries[i].name == *name {
                return Some(i);
            }
            i = i + 1;
        }
        None
    }

    /// An empty directory.
    pub fn new(name: &str, parent: Option<usize>) -> (r: Self)
        ensures
            r.wf(),
            r.name@ == name@,
            r.parent == parent,
            r.entries_map() == Map::<Seq<char>, (usize, bool)>::empty(),
    {
        let r = Directory { name: name.to_owned(), parent, entries: Vec::new() };
        assert(r.entries_map() =~= Map::<Seq<char>, (usize, bool)>::empty());
        r
    }

    /// Binds `name` to `inode_id`. Fails with `DuplicateName`, changing
    /// nothing, when the name is already bound.
    pub fn add_entry(&mut self, name: &str, inode_id: usize, is_dir: bool) -> (r: Result<(), FsError>)
        requires
            old(self).wf(),
        ensures
            final(self).wf(),
            final(self).name == old(self).name,
            final(self).parent == old(self).parent,
            old(self).entries_map().contains_key(name@) ==> r == Err::<(), FsError>(FsError::DuplicateName)
                && final(self).entries_map() == old(self).entries_map(),
            !old(self).entries_map().contains_key(name@) ==> r == Ok::<(), FsError>(())
                && final(self).entries_map() == old(self).entries_map().insert(name@, (inode_id, is_dir)),
    {
        let key = name.to_owned();
        match self.find(&key) {
            Some(_) => Err(FsError::DuplicateName),
            None => {
                let ghost before = *self;
                self.entries.push(DirEntry { name: key, inode_id, is_dir });
                proof {
                    let n = before.entries@.len() as int;
                    assert(self.entries@[n].name@ == name@);
                    assert forall|i: int, j: int|
                        0 <= i < self.entries@.len() && 0 <= j < self.entries@.len() && i != j
                            implies #[trigger] self.entries@[i].name@ != #[trigger] self.entries@[j].name@ by {
                        if i < n && j < n {
                            assert(self.entries@[i] == before.entries@[i]);
                            assert(self.entries@[j] == before.entries@[j]);
                        } else if i < n {
                            assert(self.entries@[i] == before.entries@[i]);
                        } else {
                            assert(self.entries@[j] == before.entries@[j]);
                        }
                    }
                    before.lemma_map_entries();
                    self.lemma_map_entries();
                    let expected = before.entries_map().insert(name@, (inode_id, is_dir));
                    assert forall|k: Seq<char>| #[trigger] self.entries_map().contains_key(k)
                        <==> expected.contains_key(k) by {
                        if self.entries_map().contains_key(k) {
                            let i = choose|i: int| 0 <= i < self.entries@.len() && #[trigger] self.entries@[i].name@ == k;
                            if i < n {
                                assert(self.entries@[i] == before.entries@[i]);
                            }
                        }
                        if before.entries_map().contains_key(k) {
                            let i = choose|i: int| 0 <= i < before.entries@.len() && #[trigger] before.entries@[i].name@ == k;
                            assert(self.entries@[i] == before.entries@[i]);
                        }
                    }
                    assert forall|k: Seq<char>| #[trigger] self.entries_map().contains_key(k)
                        implies self.entries_map()[k] == expected[k] by {
                        let i = choose|i: int| 0 <= i < self.entries@.len() && #[trigger] self.entries@[i].name@ == k;
                        if i < n {
                            assert(self.entries@[i] == before.entries@[i]);
                        }
                    }
                    assert(self.entries_map() =~= expected);
                }
                Ok(())
            },
        }
    }

    /// Removes the binding of `name`. Fails with `NotFound`, changing
    /// nothing, when the name is not bound.
    pub fn remove_entry(&mut self, name: &str) -> (r: Result<(), FsError>)
        requires
            old(self).wf(),
        ensures
            final(self).wf(),
            final(self).name == old(self).name,
            final(self).parent == old(self).parent,
            !old(self).entries_map().contains_key(name@) ==> r == Err::<(), FsError>(FsError::NotFound)
                && final(self).entries_map() == old(self).entries_map(),
            old(self).entries_map().contains_key(name@) ==> r == Ok::<(), FsError>(())
                && final(self).entries_map() == old(self).entries_map().remove(name@),
    {
        let key = name.to_owned();
        match self.find(&key) {
            None => Err(FsError::NotFound),
            Some(idx) => {
                let ghost before = *self;
                self.entries.remove(idx);
                proof {
                    let m = idx as int;
                    assert forall|i: int| 0 <= i < self.entries@.len() implies
                        #[trigger] self.entries@[i] == before.entries@[if i < m { i } else { i + 1 }] by {}
                    assert forall|i: int, j: int|
                        0 <= i < self.entries@.len() && 0 <= j < self.entries@.len() && i != j
                            implies #[trigger] self.entries@[i].name@ != #[trigger] self.entries@[j].name@ by {
                        let bi = if i < m { i } else { i + 1 };
                        let bj = if j < m { j } else { j + 1 };
                        assert(self.entries@[i] == before.entries@[bi]);
                        assert(self.entries@[j] == before.entries@[bj]);
                    }
                    before.lemma_map_entries();
                    self.lemma_map_entries();
                    let expected = before.entries_map().remove(name@);
                    assert forall|k: Seq<char>| #[trigger] self.entries_map().contains_key(k)
                        <==> expected.contains_key(k) by {
                        if self.entries_map().contains_key(k) {
                            let i = choose|i: int| 0 <= i < self.entries@.len() && #[trigger] self.entries@[i].name@ == k;
                            let bi = if i < m { i } else { i + 1 };
                            assert(self.entries@[i] == before.entries@[bi]);
                        }
                        if expected.contains_key(k) {
                            let bi = choose|i: int| 0 <= i < before.entries@.len() && #[trigger] before.entries@[i].name@ == k;
                            assert(bi != m);
                            let i = if bi < m { bi } else { bi - 1 };
                            assert(self.entries@[i] == before.entries@[bi]);
                        }
                    }
                    assert forall|k: Seq<char>| #[trigger] self.entries_map().contains_key(k)
                        implies self.entries_map()[k] == expected[k] by {
                        let i = choose|i: int| 0 <= i < self.entries@.len() && #[trigger] self.entries@[i].name@ == k;
                        let bi = if i < m { i } else { i + 1 };
                        assert(self.entries@[i] == before.entries@[bi]);
                    }
                    assert(self.entries_map() =~= expected);
                }
                Ok(())
            },
        }
    }

    /// Whether `name` is bound.
    pub fn has_entry(&self, name: &str) -> (r: bool)
        requires
            self.wf(),
        ensures
            r == self.entries_map().contains_key(name@),
    {
        let key = name.to_owned();
        self.find(&key).is_some()
    }

    /// The entry bound to `name`, if any.
    pub fn get_entry(&self, name: &str) -> (r: Option<&DirEntry>)
        requires
            self.wf(),
        ensures
            r is None <==> !self.entries_map().contains_key(name@),
            r matches Some(e) ==> e.name@ == name@ && self.entries_map()[name@] == (e.inode_id, e.is_dir),
    {
        let key = name.to_owned();
        match self.find(&key) {
            None => None,
            Some(i) => {
                proof {
                    self.lemma_entry_in_map(i as int);
                }
                Some(&self.entries[i])
            },
        }
    }
}


/// The sum of some bytes.
pub open spec fn byte_sum(bytes: Seq<u8>) -> int
    decreases bytes.len(),
{
    if bytes.len() == 0 {
        0
    } else {
        byte_sum(bytes.drop_last()) + bytes.last() as int
    }
}

/// The identifier derived from a directory name: the sum of its UTF-8 bytes,
/// modulo 10000. Different names may share one.
pub open spec fn derived_id(name: Seq<char>) -> int {
    byte_sum(encode_utf8(name)) % 10000
}

/// The lowest index of a directory whose derived id is `id`.
#[verifier::opaque]
pub open spec fn first_with_id(dirs: Seq<Directory>, id: int) -> Option<int> {
    if exists|i: int| 0 <= i < dirs.len() && derived_id(#[trigger] dirs[i].name@) == id {
        Some(
            choose|i: int|
                0 <= i < dirs.len() && derived_id(#[trigger] dirs[i].name@) == id && forall|j: int|
                    0 <= j < i ==> derived_id(#[trigger] dirs[j].name@) != id,
        )
    } else {
        None
    }
}

/// The names met when walking up from `parent`, nearest first: each step
/// goes to the first directory of `dirs` whose derived id is the parent id,
/// and the walk ends at a missing parent, at an id that no directory has, or
/// after `fuel` steps.
#[verifier::opaque]
pub open spec fn ancestor_names(dirs: Seq<Directory>, parent: Option<usize>, fuel: nat) -> Seq<Seq<char>>
    decreases fuel,
{
    if fuel == 0 {
        Seq::empty()
    } else {
        match parent {
            None => Seq::empty(),
            Some(p) => match first_with_id(dirs, p as int) {
                None => Seq::empty(),
                Some(i) => seq![dirs[i].name@] + ancestor_names(dirs, dirs[i].parent, (fuel - 1) as nat),
            },
        }
    }
}

/// An absolute path from names listed deepest first: `[c, b, a]` gives `/a/b/c`.
pub open spec fn path_text(names: Seq<Seq<char>>) -> Seq<char>
    decreases names.len(),
{
    if names.len() == 0 {
        Seq::empty()
    } else {
        path_text(names.subrange(1, names.len() as int)) + seq!['/'] + names[0]
    }
}

proof fn lemma_ancestor_step(dirs: Seq<Directory>, p: usize, fuel: nat, i: int)
    requires
        fuel > 0,
        first_with_id(dirs, p as int) == Some(i),
    ensures
        ancestor_names(dirs, Some(p), fuel) == seq![dirs[i].name@] + ancestor_names(dirs, dirs[i].parent, (fuel - 1) as nat),
{
    reveal(ancestor_names);
}

proof fn lemma_ancestor_end(dirs: Seq<Directory>, parent: Option<usize>, fuel: nat)
    requires
        parent matches Some(p) ==> first_with_id(dirs, p as int) is None,
    ensures
        ancestor_names(dirs, parent, fuel) == Seq::<Seq<char>>::empty(),
{
    reveal(ancestor_names);
}

proof fn lemma_ancestor_no_fuel(dirs: Seq<Directory>, parent: Option<usize>)
    ensures
        ancestor_names(dirs, parent, 0) == Seq::<Seq<char>>::empty(),
{
    reveal(ancestor_names);
}

impl Directory {
    /// The entries, each once, in no particular order.
    pub fn entry_list(&self) -> (r: &[DirEntry])
        requires
            self.wf(),
        ensures
            forall|i: int, j: int|
                0 <= i < r@.len() && 0 <= j < r@.len() && i != j ==> #[trigger] r@[i].name@ != #[trigger] r@[j].name@,
            forall|i: int| 0 <= i < r@.len() ==> {
                &&& self.entries_map().contains_key(#[trigger] r@[i].name@)
                &&& self.entries_map()[r@[i].name@] == (r@[i].inode_id, r@[i].is_dir)
            },
            forall|k: Seq<char>| #[trigger] self.entries_map().contains_key(k)
                ==> exists|i: int| 0 <= i < r@.len() && #[trigger] r@[i].name@ == k,
    {
        proof {
            self.lemma_map_entries();
        }
        self.entries.as_slice()
    }

    /// Where `cd target` leads: for `..` the stored parent (`None` at the
    /// root); for a subdirectory entry its inode id. Fails with
    /// `NotADirectory` for a file entry and `NotFound` for an unbound name.
    pub fn change_dir(&self, dirs: &Vec<Directory>, current_inode: usize, target: &str) -> (r: Result<Option<usize>, FsError>)
        requires
            self.wf(),
        ensures
            target@ == seq!['.', '.'] ==> r == Ok::<Option<usize>, FsError>(self.parent),
            target@ != seq!['.', '.'] ==> r == (if !self.entries_map().contains_key(target@) {
                Err(FsError::NotFound)
            } else if self.entries_map()[target@].1 {
                Ok(Some(self.entries_map()[target@].0))
            } else {
                Err(FsError::NotADirectory)
            }),
    {
        let key = target.to_owned();
        let up = "..".to_owned();
        proof {
            reveal_strlit("..");
            assert(up@ =~= seq!['.', '.']);
        }
        if key == up {
            return Ok(self.parent);
        }
        match self.get_entry(target) {
            None => Err(FsError::NotFound),
            Some(entry) => if entry.is_dir {
                Ok(Some(entry.inode_id))
            } else {
                Err(FsError::NotADirectory)
            },
        }
    }

    /// The identifier derived from this directory's name.
    pub fn get_inode_id(&self) -> (r: usize)
        ensures
            r == derived_id(self.name@),
    {
        let bytes = self.name.as_str().as_bytes();
        let ghost b = bytes@;
        let mut acc: usize = 0;
        let mut i: usize = 0;
        while i < bytes.len()
            invariant
                bytes@ == b,
                i <= b.len(),
                acc < 10000,
                acc == byte_sum(b.subrange(0, i as int)) % 10000,
            decreases b.len() - i,
        {
            proof {
                let s = b.subrange(0, i as int + 1);
                assert(s.drop_last() =~= b.subrange(0, i as int));
                assert(byte_sum(s) == byte_sum(b.subrange(0, i as int)) + b[i as int] as int);
                vstd::arithmetic::div_mod::lemma_add_mod_noop(byte_sum(b.subrange(0, i as int)), b[i as int] as int, 10000);
                vstd::arithmetic::div_mod::lemma_small_mod(b[i as int] as nat, 10000);
            }
            acc = (acc + bytes[i] as usize) % 10000;
            i = i + 1;
        }
        assert(b.subrange(0, b.len() as int) =~= b);
        acc
    }

    /// The lowest index in `dirs` of a directory whose derived id is `id`.
    fn find_by_id(dirs: &Vec<Directory>, id: usize) -> (r: Option<usize>)
        ensures
            r matches Some(i) ==> i < dirs@.len() && first_with_id(dirs@, id as int) == Some(i as int),
            r is None ==> first_with_id(dirs@, id as int) is None,
    {
        let mut i: usize = 0;
        while i < dirs.len()
            invariant
                i <= dirs@.len(),
                forall|j: int| 0 <= j < i ==> derived_id(#[trigger] dirs@[j].name@) != id,
            decreases dirs@.len() - i,
        {
            if dirs[i].get_inode_id() == id {
                proof {
                    reveal(first_with_id);
                    let f = dirs@;
                    assert(derived_id(f[i as int].name@) == id);
                    let c = choose|c: int|
                        0 <= c < f.len() && derived_id(#[trigger] f[c].name@) == id && forall|j: int|
                            0 <= j < c ==> derived_id(#[trigger] f[j].name@) != id;
                    if c > i {
                        assert(derived_id(f[i as int].name@) != id);
                    }
                }
                return Some(i);
            }
            i = i + 1;
        }
        proof {
            reveal(first_with_id);
        }
        None
    }

    /// The names of the ancestors reached from `parent`, nearest first.
    fn ancestors(dirs: &Vec<Directory>, parent: Option<usize>) -> (names: Vec<String>)
        ensures
            names@.len() == ancestor_names(dirs@, parent, dirs@.len() as nat).len(),
            forall|k: int| 0 <= k < names@.len() ==> #[trigger] names@[k]@ == ancestor_names(dirs@, parent, dirs@.len() as nat)[k],
    {
        let ghost full = ancestor_names(dirs@, parent, dirs@.len() as nat);
        let ghost g: Seq<Seq<char>> = Seq::empty();
        let mut names: Vec<String> = Vec::new();
        let mut current = parent;
        let mut steps: usize = 0;
        let mut done = false;
        while steps < dirs.len() && !done
            invariant
                steps <= dirs@.len(),
                names@.len() == g.len(),
                forall|k: int| 0 <= k < g.len() ==> #[trigger] names@[k]@ == g[k],
                full == g + (if done { Seq::empty() } else { ancestor_names(dirs@, current, (dirs@.len() - steps) as nat) }),
            decreases (dirs@.len() - steps) * 2 + (if done { 0int } else { 1int }),
        {
            let ghost fuel = (dirs@.len() - steps) as nat;
            match current {
                None => {
                    proof {
                        lemma_ancestor_end(dirs@, current, fuel);
                    }
                    done = true;
                    assert(full =~= g + Seq::empty());
                },
                Some(p) => match Self::find_by_id(dirs, p) {
                    None => {
                        proof {
                            lemma_ancestor_end(dirs@, current, fuel);
                        }
                        done = true;
                        assert(full =~= g + Seq::empty());
                    },
                    Some(i) => {
                        let ghost rest = ancestor_names(dirs@, dirs@[i as int].parent, (fuel - 1) as nat);
                        proof {
                            lemma_ancestor_step(dirs@, p, fuel, i as int);
                        }
                        names.push(dirs[i].name.clone());
                        proof {
                            g = g.push(dirs@[i as int].name@);
                            assert(full =~= g + rest);
                        }
                        current = dirs[i].parent;
                        steps = steps + 1;
                    },
                },
            }
        }
        if !done {
            proof {
                lemma_ancestor_no_fuel(dirs@, current);
            }
        }
        assert(full =~= g);
        names
    }

    /// The absolute path of this directory: its ancestors' names, root
    /// first, then its own, each after a `/`. Ancestors are found by
    /// walking parent ids through `dirs` (see `ancestor_names`); the walk
    /// takes at most `dirs.len()` steps, so a chain that runs into a cycle
    /// is cut there.
    pub fn get_path(&self, dirs: &Vec<Directory>, self_inode: usize) -> (r: String)
        ensures
            r@ == path_text(seq![self.name@] + ancestor_names(dirs@, self.parent, dirs@.len() as nat)),
    {
        let names = Self::ancestors(dirs, self.parent);
        let ghost g = ancestor_names(dirs@, self.parent, dirs@.len() as nat);
        let mut out = String::new();
        let mut i: usize = names.len();
        while i > 0
            invariant
                i <= g.len(),
                names@.len() == g.len(),
                forall|k: int| 0 <= k < g.len() ==> #[trigger] names@[k]@ == g[k],
                out@ == path_text(g.subrange(i as int, g.len() as int)),
            decreases i,
        {
            i = i - 1;
            proof {
                reveal_strlit("/");
                let s = g.subrange(i as int, g.len() as int);
                assert(s.subrange(1, s.len() as int) =~= g.subrange(i + 1, g.len() as int));
            }
            out.append("/");
            out.append(names[i].as_str());
        }
        proof {
            reveal_strlit("/");
            let s = seq![self.name@] + g;
            assert(s.subrange(1, s.len() as int) =~= g.subrange(0, g.len() as int));
        }
        out.append("/");
        out.append(self.name.as_str());
        out
    }
}

} // verus!
