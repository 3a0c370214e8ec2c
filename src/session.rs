use vstd::prelude::*;
use vstd::string::StringExecFns;
use crate::directory::{Directory, FsError, derived_id};
use crate::disk::{VirtualDisk, TOTAL_BLOCKS};
use crate::fs::{block_set, blocks_for, free_count, remove_file, store_file};
use crate::inode::{FileType, Inode};

verus! {

/// What `cd` did to the directory stack.
#[derive(Clone, Copy, Debug, PartialEq, Eq, Structural)]
pub enum CdMove {
    /// One level was popped.
    Up,
    /// `..` at the root: nothing changed.
    AtRoot,
    /// A fresh level was pushed.
    Down,
}

/// The path of a directory stack, root first: `[a, b]` gives `/a/b`.
pub open spec fn stack_path(names: Seq<Seq<char>>) -> Seq<char>
    decreases names.len(),
{
    if names.len() == 0 {
        Seq::empty()
    } else {
        stack_path(names.drop_last()) + seq!['/'] + names.last()
    }
}

/// One working session: the block store, the stack of directories from the
/// root to the current one, the inodes created so far, and the next inode id.
pub struct Session {
    pub disk: VirtualDisk,
    pub stack: Vec<Directory>,
    pub inodes: Vec<Inode>,
    pub next_id: usize,
}

impl Session {
    /// The store is well formed, the stack is never empty and each of its
    /// directories keeps its names unique. Every block an inode lists is in
    /// use, and no block is listed twice, by one inode or by two.
    pub open spec fn wf(&self) -> bool {
        &&& self.disk.wf()
        &&& self.stack@.len() >= 1
        &&& forall|i: int| 0 <= i < self.stack@.len() ==> (#[trigger] self.stack@[i]).wf()
        &&& forall|i: int, a: int| 0 <= i < self.inodes@.len() && 0 <= a < self.inodes@[i].blocks@.len()
            ==> #[trigger] self.inodes@[i].blocks@[a] < TOTAL_BLOCKS
                && self.disk.allocated().contains(self.inodes@[i].blocks@[a] as int)
        &&& forall|i: int, a: int, j: int, b: int|
            0 <= i < self.inodes@.len() && 0 <= a < self.inodes@[i].blocks@.len()
                && 0 <= j < self.inodes@.len() && 0 <= b < self.inodes@[j].blocks@.len() && (i != j || a != b)
                ==> #[trigger] self.inodes@[i].blocks@[a] != #[trigger] self.inodes@[j].blocks@[b]
    }

    /// The directory the session is in.
    pub open spec fn cwd(&self) -> Directory {
        self.stack@.last()
    }

    /// The names along the stack, root first.
    pub open spec fn stack_names(&self) -> Seq<Seq<char>> {
        Seq::new(self.stack@.len(), |i: int| self.stack@[i].name@)
    }

    /// A session at an empty root directory called `root`, over a fresh store.
    pub fn new() -> (r: Self)
        ensures
            r.wf(),
            r.stack@.len() == 1,
            r.cwd().name@ == "root"@,
            r.cwd().parent is None,
            r.cwd().entries_map() == Map::<Seq<char>, (usize, bool)>::empty(),
            r.inodes@.len() == 0,
            forall|i: int| 0 <= i < TOTAL_BLOCKS ==> #[trigger] r.disk.free_blocks@[i],
    {
        let root = Directory::new("root", None);
        let mut stack: Vec<Directory> = Vec::new();
        stack.push(root);
        Session { disk: VirtualDisk::new(), stack, inodes: Vec::new(), next_id: 0 }
    }

    /// The current directory.
    pub fn current(&self) -> (r: &Directory)
        requires
            self.wf(),
        ensures
            *r == self.cwd(),
    {
        let n = self.stack.len();
        &self.stack[n - 1]
    }

    /// A fresh inode id, or `None` once every id has been handed out.
    fn take_id(&mut self) -> (r: Option<usize>)
        ensures
            final(self).disk == old(self).disk,
            final(self).stack == old(self).stack,
            final(self).inodes == old(self).inodes,
            old(self).next_id < usize::MAX ==> r == Some(old(self).next_id) && final(self).next_id == old(self).next_id + 1,
            old(self).next_id == usize::MAX ==> r is None && final(self).next_id == old(self).next_id,
    {
        if self.next_id == usize::MAX {
            None
        } else {
            let id = self.next_id;
            self.next_id = id + 1;
            Some(id)
        }
    }

    /// Creates an empty directory `name` in the current directory, with a
    /// new inode. Fails with `DuplicateName` when the name is bound there.
    pub fn mkdir(&mut self, name: &str) -> (r: Result<usize, FsError>)
        requires
            old(self).wf(),
        ensures
            final(self).wf(),
            final(self).stack@.len() == old(self).stack@.len(),
            final(self).stack_names() == old(self).stack_names(),
            final(self).disk == old(self).disk,
            old(self).cwd().entries_map().contains_key(name@) ==> r == Err::<usize, FsError>(FsError::DuplicateName)
                && final(self).cwd().entries_map() == old(self).cwd().entries_map(),
            !old(self).cwd().entries_map().contains_key(name@) && old(self).next_id == usize::MAX
                ==> r == Err::<usize, FsError>(FsError::OutOfSpace)
                && final(self).cwd().entries_map() == old(self).cwd().entries_map(),
            !old(self).cwd().entries_map().contains_key(name@) && old(self).next_id < usize::MAX ==> {
                &&& r == Ok::<usize, FsError>(old(self).next_id)
                &&& final(self).cwd().entries_map() == old(self).cwd().entries_map().insert(name@, (old(self).next_id, true))
                &&& final(self).inodes@.len() == old(self).inodes@.len() + 1
                &&& final(self).inodes@.last().id == old(self).next_id
                &&& final(self).inodes@.last().file_type == FileType::Directory
                &&& final(self).inodes@.last().size == 0
                &&& final(self).inodes@.last().blocks@.len() == 0
            },
    {
        if self.current().has_entry(name) {
            return Err(FsError::DuplicateName);
        }
        let id = match self.take_id() {
            Some(id) => id,
            None => return Err(FsError::OutOfSpace),
        };
        let mut dir = self.stack.pop().unwrap();
        let ghost below = self.stack@;
        let _ = dir.add_entry(name, id, true);
        self.stack.push(dir);
        self.inodes.push(Inode::new(id, name, 0, Vec::new(), FileType::Directory));
        proof {
            assert(self.stack@ == below.push(dir));
            assert(self.stack_names() =~= old(self).stack_names());
            let n = old(self).inodes@.len() as int;
            assert forall|i: int| 0 <= i < n implies #[trigger] self.inodes@[i] == old(self).inodes@[i] by {}
            assert(self.inodes@[n].blocks@.len() == 0);
        }
        Ok(id)
    }
}

impl Session {
    /// Stores `content` as a new file `name` in the current directory (see
    /// `store_file`). Fails with `DuplicateName` when the name is bound
    /// there and with `OutOfSpace` when too few blocks are free or no inode
    /// id is left; nothing changes then.
    pub fn create(&mut self, name: &str, content: &[u8]) -> (r: Result<usize, FsError>)
        requires
            old(self).wf(),
        ensures
            final(self).wf(),
            final(self).stack@.len() == old(self).stack@.len(),
            final(self).stack_names() == old(self).stack_names(),
            old(self).cwd().entries_map().contains_key(name@) ==> r == Err::<usize, FsError>(FsError::DuplicateName)
                && final(self).cwd().entries_map() == old(self).cwd().entries_map() && final(self).disk == old(self).disk,
            !old(self).cwd().entries_map().contains_key(name@) && (old(self).next_id == usize::MAX
                || free_count(old(self).disk.free_blocks@) < blocks_for(content@.len() as int))
                ==> r == Err::<usize, FsError>(FsError::OutOfSpace)
                && final(self).cwd().entries_map() == old(self).cwd().entries_map() && final(self).disk == old(self).disk,
            !old(self).cwd().entries_map().contains_key(name@) && old(self).next_id < usize::MAX
                && free_count(old(self).disk.free_blocks@) >= blocks_for(content@.len() as int) ==> {
                &&& r == Ok::<usize, FsError>(old(self).next_id)
                &&& final(self).cwd().entries_map() == old(self).cwd().entries_map().insert(name@, (old(self).next_id, false))
                &&& final(self).inodes@.len() == old(self).inodes@.len() + 1
                &&& final(self).inodes@.last().id == old(self).next_id
                &&& final(self).inodes@.last().file_type == FileType::File
                &&& final(self).inodes@.last().size == content@.len()
                &&& final(self).inodes@.last().blocks@.len() == blocks_for(content@.len() as int)
                &&& final(self).disk.allocated() == old(self).disk.allocated().union(block_set(final(self).inodes@.last().blocks@))
                &&& forall|a: int| 0 <= a < final(self).inodes@.last().blocks@.len()
                    ==> !old(self).disk.allocated().contains(#[trigger] final(self).inodes@.last().blocks@[a] as int)
            },
    {
        if self.current().has_entry(name) {
            return Err(FsError::DuplicateName);
        }
        if self.next_id == usize::MAX {
            return Err(FsError::OutOfSpace);
        }
        let id = self.next_id;
        let mut dir = self.stack.pop().unwrap();
        let ghost below = self.stack@;
        let stored = store_file(&mut self.disk, &mut dir, name, content, id);
        self.stack.push(dir);
        proof {
            assert(self.stack@ == below.push(dir));
            assert(self.stack_names() =~= old(self).stack_names());
        }
        match stored {
            Err(e) => Err(e),
            Ok(inode) => {
                self.inodes.push(inode);
                self.next_id = id + 1;
                proof {
                    let n = old(self).inodes@.len() as int;
                    let nb = self.inodes@[n].blocks@;
                    assert forall|i: int| 0 <= i < n implies #[trigger] self.inodes@[i] == old(self).inodes@[i] by {}
                    assert forall|i: int, a: int| 0 <= i < self.inodes@.len() && 0 <= a < self.inodes@[i].blocks@.len()
                        implies #[trigger] self.inodes@[i].blocks@[a] < TOTAL_BLOCKS
                            && self.disk.allocated().contains(self.inodes@[i].blocks@[a] as int) by {
                        if i == n {
                            assert(block_set(nb).contains(nb[a] as int));
                        } else {
                            assert(old(self).inodes@[i].blocks@[a] == self.inodes@[i].blocks@[a]);
                        }
                    }
                    assert forall|i: int, a: int, j: int, b: int|
                        0 <= i < self.inodes@.len() && 0 <= a < self.inodes@[i].blocks@.len()
                            && 0 <= j < self.inodes@.len() && 0 <= b < self.inodes@[j].blocks@.len() && (i != j || a != b)
                            implies #[trigger] self.inodes@[i].blocks@[a] != #[trigger] self.inodes@[j].blocks@[b] by {
                        if i < n && j < n {
                            assert(old(self).inodes@[i].blocks@[a] == self.inodes@[i].blocks@[a]);
                            assert(old(self).inodes@[j].blocks@[b] == self.inodes@[j].blocks@[b]);
                        } else if i < n {
                            assert(old(self).inodes@[i].blocks@[a] == self.inodes@[i].blocks@[a]);
                            assert(!old(self).disk.allocated().contains(nb[b] as int));
                        } else if j < n {
                            assert(old(self).inodes@[j].blocks@[b] == self.inodes@[j].blocks@[b]);
                            assert(!old(self).disk.allocated().contains(nb[a] as int));
                        } else {
                            assert(nb[a] != nb[b]);
                        }
                    }
                }
                Ok(id)
            },
        }
    }

    /// The position in the inode table of the inode numbered `id`.
    fn find_inode(&self, id: usize) -> (r: Option<usize>)
        ensures
            r matches Some(j) ==> j < self.inodes@.len() && self.inodes@[j as int].id == id,
            r is None ==> forall|j: int| 0 <= j < self.inodes@.len() ==> #[trigger] self.inodes@[j].id != id,
    {
        let mut j: usize = 0;
        while j < self.inodes.len()
            invariant
                j <= self.inodes@.len(),
                forall|k: int| 0 <= k < j ==> #[trigger] self.inodes@[k].id != id,
            decreases self.inodes@.len() - j,
        {
            if self.inodes[j].id == id {
                return Some(j);
            }
            j = j + 1;
        }
        None
    }

    /// Deletes the file `name` from the current directory; its inode leaves
    /// the table and its blocks return to the store. Fails with `NotFound`
    /// when the name is not bound and with `IsADirectory` when it names a
    /// directory; nothing changes then.
    pub fn rm(&mut self, name: &str) -> (r: Result<(), FsError>)
        requires
            old(self).wf(),
        ensures
            final(self).wf(),
            final(self).stack@.len() == old(self).stack@.len(),
            final(self).stack_names() == old(self).stack_names(),
            !old(self).cwd().entries_map().contains_key(name@) ==> r == Err::<(), FsError>(FsError::NotFound)
                && final(self).cwd().entries_map() == old(self).cwd().entries_map() && final(self).disk == old(self).disk,
            old(self).cwd().entries_map().contains_key(name@) && old(self).cwd().entries_map()[name@].1
                ==> r == Err::<(), FsError>(FsError::IsADirectory)
                && final(self).cwd().entries_map() == old(self).cwd().entries_map() && final(self).disk == old(self).disk,
            old(self).cwd().entries_map().contains_key(name@) && !old(self).cwd().entries_map()[name@].1 ==> {
                &&& r == Ok::<(), FsError>(())
                &&& final(self).cwd().entries_map() == old(self).cwd().entries_map().remove(name@)
                &&& final(self).disk.data@ == old(self).disk.data@
                &&& (forall|j: int| 0 <= j < old(self).inodes@.len()
                    ==> #[trigger] old(self).inodes@[j].id != old(self).cwd().entries_map()[name@].0)
                    ==> final(self).disk == old(self).disk && final(self).inodes == old(self).inodes
                &&& (exists|j: int| 0 <= j < old(self).inodes@.len()
                    && #[trigger] old(self).inodes@[j].id == old(self).cwd().entries_map()[name@].0)
                    ==> exists|j: int| 0 <= j < old(self).inodes@.len()
                    && #[trigger] old(self).inodes@[j].id == old(self).cwd().entries_map()[name@].0
                    && final(self).inodes@ == old(self).inodes@.remove(j)
                    && final(self).disk.allocated() == old(self).disk.allocated().difference(block_set(old(self).inodes@[j].blocks@))
            },
    {
        let (id, is_dir) = match self.current().get_entry(name) {
            None => return Err(FsError::NotFound),
            Some(entry) => (entry.inode_id, entry.is_dir),
        };
        if is_dir {
            return Err(FsError::IsADirectory);
        }
        let mut dir = self.stack.pop().unwrap();
        let ghost below = self.stack@;
        match self.find_inode(id) {
            None => {
                let _ = dir.remove_entry(name);
            },
            Some(j) => {
                let inode = self.inodes.remove(j);
                proof {
                    assert(inode == old(self).inodes@[j as int]);
                    assert forall|a: int| 0 <= a < inode.blocks@.len() implies #[trigger] inode.blocks@[a] < TOTAL_BLOCKS by {
                        assert(old(self).inodes@[j as int].blocks@[a] < TOTAL_BLOCKS);
                    }
                }
                let _ = remove_file(&mut self.disk, &mut dir, name, &inode);
            },
        }
        self.stack.push(dir);
        proof {
            assert(self.stack@ == below.push(dir));
            assert(self.stack_names() =~= old(self).stack_names());
            if self.inodes@.len() < old(self).inodes@.len() {
                let j = choose|j: int| 0 <= j < old(self).inodes@.len() && self.inodes@ == old(self).inodes@.remove(j);
                let gone = old(self).inodes@[j].blocks@;
                assert forall|i: int, a: int| 0 <= i < self.inodes@.len() && 0 <= a < self.inodes@[i].blocks@.len()
                    implies #[trigger] self.inodes@[i].blocks@[a] < TOTAL_BLOCKS
                        && self.disk.allocated().contains(self.inodes@[i].blocks@[a] as int) by {
                    let oi = if i < j { i } else { i + 1 };
                    assert(self.inodes@[i] == old(self).inodes@[oi]);
                    let x = old(self).inodes@[oi].blocks@[a];
                    if block_set(gone).contains(x as int) {
                        let b = choose|b: int| 0 <= b < gone.len() && #[trigger] gone[b] == x as int;
                        assert(old(self).inodes@[j].blocks@[b] == x);
                    }
                }
                assert forall|i: int, a: int, k: int, b: int|
                    0 <= i < self.inodes@.len() && 0 <= a < self.inodes@[i].blocks@.len()
                        && 0 <= k < self.inodes@.len() && 0 <= b < self.inodes@[k].blocks@.len() && (i != k || a != b)
                        implies #[trigger] self.inodes@[i].blocks@[a] != #[trigger] self.inodes@[k].blocks@[b] by {
                    let oi = if i < j { i } else { i + 1 };
                    let ok = if k < j { k } else { k + 1 };
                    assert(self.inodes@[i] == old(self).inodes@[oi]);
                    assert(self.inodes@[k] == old(self).inodes@[ok]);
                    assert(old(self).inodes@[oi].blocks@[a] != old(self).inodes@[ok].blocks@[b]);
                }
            }
        }
        Ok(())
    }

    /// `cd target`: `..` pops a level, or reports `AtRoot` at the root; a
    /// subdirectory entry pushes a fresh, empty level of that name whose
    /// parent is the derived id of the current directory. Fails as
    /// `change_dir` does, with `NotADirectory` or `NotFound`; nothing
    /// changes then.
    pub fn cd(&mut self, target: &str) -> (r: Result<CdMove, FsError>)
        requires
            old(self).wf(),
        ensures
            final(self).wf(),
            final(self).disk == old(self).disk,
            final(self).inodes == old(self).inodes,
            target@ == seq!['.', '.'] && old(self).stack@.len() > 1 ==> r == Ok::<CdMove, FsError>(CdMove::Up)
                && final(self).stack@ == old(self).stack@.drop_last(),
            target@ == seq!['.', '.'] && old(self).stack@.len() == 1 ==> r == Ok::<CdMove, FsError>(CdMove::AtRoot)
                && final(self).stack@ == old(self).stack@,
            target@ != seq!['.', '.'] && !old(self).cwd().entries_map().contains_key(target@)
                ==> r == Err::<CdMove, FsError>(FsError::NotFound) && final(self).stack@ == old(self).stack@,
            target@ != seq!['.', '.'] && old(self).cwd().entries_map().contains_key(target@)
                && !old(self).cwd().entries_map()[target@].1
                ==> r == Err::<CdMove, FsError>(FsError::NotADirectory) && final(self).stack@ == old(self).stack@,
            target@ != seq!['.', '.'] && old(self).cwd().entries_map().contains_key(target@)
                && old(self).cwd().entries_map()[target@].1 ==> {
                &&& r == Ok::<CdMove, FsError>(CdMove::Down)
                &&& final(self).stack@.drop_last() == old(self).stack@
                &&& final(self).cwd().name@ == target@
                &&& final(self).cwd().parent == Some(derived_id(old(self).cwd().name@) as usize)
                &&& final(self).cwd().entries_map() == Map::<Seq<char>, (usize, bool)>::empty()
            },
    {
        let dirs: Vec<Directory> = Vec::new();
        let here = self.current();
        let here_id = here.get_inode_id();
        match here.change_dir(&dirs, here_id, target) {
            Err(e) => Err(e),
            Ok(found) => {
                let key = target.to_owned();
                let up = "..".to_owned();
                proof {
                    reveal_strlit("..");
                    assert(up@ =~= seq!['.', '.']);
                }
                if key == up {
                    if self.stack.len() > 1 {
                        let _ = self.stack.pop();
                        proof {
                            assert(self.stack@ =~= old(self).stack@.drop_last());
                        }
                        Ok(CdMove::Up)
                    } else {
                        Ok(CdMove::AtRoot)
                    }
                } else {
                    self.stack.push(Directory::new(target, Some(here_id)));
                    proof {
                        assert(self.stack@.drop_last() =~= old(self).stack@);
                    }
                    Ok(CdMove::Down)
                }
            },
        }
    }

    /// The path of the current directory: each level's name after a `/`.
    pub fn pwd(&self) -> (r: String)
        requires
            self.wf(),
        ensures
            r@ == stack_path(self.stack_names()),
    {
        let mut out = String::new();
        let mut i: usize = 0;
        while i < self.stack.len()
            invariant
                i <= self.stack@.len(),
                out@ == stack_path(self.stack_names().subrange(0, i as int)),
            decreases self.stack@.len() - i,
        {
            proof {
                reveal_strlit("/");
                let s = self.stack_names().subrange(0, i as int + 1);
                assert(s.drop_last() =~= self.stack_names().subrange(0, i as int));
            }
            out.append("/");
            out.append(self.stack[i].name.as_str());
            i = i + 1;
        }
        assert(self.stack_names().subrange(0, self.stack@.len() as int) =~= self.stack_names());
        out
    }
}

} // verus!
