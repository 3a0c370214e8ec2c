use vstd::prelude::*;
use crate::directory::{Directory, FsError};
use crate::disk::{VirtualDisk, BLOCK_SIZE, TOTAL_BLOCKS, written};
use crate::inode::{FileType, Inode, default_permissions};

verus! {

/// How many blocks hold `len` bytes.
pub open spec fn blocks_for(len: int) -> int {
    (len + BLOCK_SIZE - 1) / BLOCK_SIZE as int
}

/// The part of `content` that goes to the `k`-th block of a file.
pub open spec fn chunk(content: Seq<u8>, k: int) -> Seq<u8> {
    let end = if (k + 1) * BLOCK_SIZE < content.len() { (k + 1) * BLOCK_SIZE } else { content.len() as int };
    content.subrange(k * BLOCK_SIZE, end)
}

/// The number of free flags in a bitmap.
pub open spec fn free_count(free: Seq<bool>) -> nat
    decreases free.len(),
{
    if free.len() == 0 {
        0
    } else {
        free_count(free.drop_last()) + if free.last() { 1nat } else { 0nat }
    }
}

proof fn lemma_free_count_bound(free: Seq<bool>)
    ensures
        free_count(free) <= free.len(),
        free_count(free) > 0 ==> exists|i: int| 0 <= i < free.len() && free[i],
    decreases free.len(),
{
    if free.len() > 0 {
        lemma_free_count_bound(free.drop_last());
        if free_count(free.drop_last()) > 0 {
            let i = choose|i: int| 0 <= i < free.drop_last().len() && free.drop_last()[i];
            assert(free[i]);
        }
    }
}

proof fn lemma_free_count_take(free: Seq<bool>, i: int)
    requires
        0 <= i < free.len(),
        free[i],
    ensures
        free_count(free.update(i, false)) + 1 == free_count(free),
    decreases free.len(),
{
    let u = free.update(i, false);
    if i == free.len() - 1 {
        assert(u.drop_last() =~= free.drop_last());
    } else {
        assert(u.drop_last() =~= free.drop_last().update(i, false));
        lemma_free_count_take(free.drop_last(), i);
    }
}

/// How many blocks of the store are free.
pub fn count_free(disk: &VirtualDisk) -> (r: usize)
    requires
        disk.wf(),
    ensures
        r == free_count(disk.free_blocks@),
{
    let ghost f = disk.free_blocks@;
    let mut n: usize = 0;
    let mut i: usize = 0;
    while i < TOTAL_BLOCKS
        invariant
            disk.wf(),
            f == disk.free_blocks@,
            i <= TOTAL_BLOCKS,
            n == free_count(f.subrange(0, i as int)),
            n <= i,
        decreases TOTAL_BLOCKS - i,
    {
        assert(f.subrange(0, i as int + 1).drop_last() =~= f.subrange(0, i as int));
        if disk.free_blocks[i] {
            n = n + 1;
        }
        i = i + 1;
    }
    assert(f.subrange(0, TOTAL_BLOCKS as int) =~= f);
    n
}

/// How many blocks hold `len` bytes, rounding up.
pub fn blocks_needed(len: usize) -> (r: usize)
    ensures
        r == blocks_for(len as int),
{
    let whole = len / BLOCK_SIZE;
    if len % BLOCK_SIZE == 0 {
        whole
    } else {
        whole + 1
    }
}

/// Allocates `n` blocks, lowest first; there must be that many free.
fn allocate_blocks(disk: &mut VirtualDisk, n: usize) -> (r: Vec<usize>)
    requires
        old(disk).wf(),
        n <= free_count(old(disk).free_blocks@),
    ensures
        final(disk).wf(),
        final(disk).data@ == old(disk).data@,
        r@.len() == n,
        forall|a: int, b: int| 0 <= a < r@.len() && 0 <= b < r@.len() && a != b ==> #[trigger] r@[a] != #[trigger] r@[b],
        forall|a: int| 0 <= a < r@.len() ==> #[trigger] r@[a] < TOTAL_BLOCKS && !old(disk).allocated().contains(r@[a] as int),
        final(disk).allocated() == old(disk).allocated().union(Set::new(|i: int| exists|a: int| 0 <= a < r@.len() && #[trigger] r@[a] == i)),
{
    let mut r: Vec<usize> = Vec::new();
    let mut k: usize = 0;
    while k < n
        invariant
            disk.wf(),
            disk.data@ == old(disk).data@,
            k <= n,
            r@.len() == k,
            free_count(disk.free_blocks@) + k == free_count(old(disk).free_blocks@),
            n <= free_count(old(disk).free_blocks@),
            forall|a: int, b: int| 0 <= a < r@.len() && 0 <= b < r@.len() && a != b ==> #[trigger] r@[a] != #[trigger] r@[b],
            forall|a: int| 0 <= a < r@.len() ==> #[trigger] r@[a] < TOTAL_BLOCKS && !old(disk).allocated().contains(r@[a] as int)
                && disk.allocated().contains(r@[a] as int),
            disk.allocated() == old(disk).allocated().union(Set::new(|i: int| exists|a: int| 0 <= a < r@.len() && #[trigger] r@[a] == i)),
        decreases n - k,
    {
        proof {
            lemma_free_count_bound(disk.free_blocks@);
        }
        let ghost before = disk.allocated();
        let ghost fb = disk.free_blocks@;
        let got = disk.allocate_block();
        match got {
            Some(b) => {
                proof {
                    lemma_free_count_take(fb, b as int);
                }
                let ghost old_r = r@;
                assert(!old(disk).allocated().contains(b as int)) by {
                    assert(!before.contains(b as int));
                }
                r.push(b);
                assert forall|a: int| 0 <= a < r@.len() implies #[trigger] r@[a] < TOTAL_BLOCKS && !old(disk).allocated().contains(r@[a] as int)
                    && disk.allocated().contains(r@[a] as int) by {
                    if a < k {
                        assert(r@[a] == old_r[a]);
                        assert(before.contains(old_r[a] as int));
                    }
                }
                assert(disk.allocated() =~= old(disk).allocated().union(Set::new(|i: int| exists|a: int| 0 <= a < r@.len() && #[trigger] r@[a] == i))) by {
                    assert forall|i: int| #[trigger] disk.allocated().contains(i) <==>
                        old(disk).allocated().union(Set::new(|i: int| exists|a: int| 0 <= a < r@.len() && #[trigger] r@[a] == i)).contains(i) by {
                        if i == b as int {
                            assert(r@[k as int] == b);
                        } else if exists|a: int| 0 <= a < r@.len() && #[trigger] r@[a] == i {
                            let a = choose|a: int| 0 <= a < r@.len() && #[trigger] r@[a] == i;
                            assert(old_r[a] == i);
                        } else {
                            assert forall|a: int| 0 <= a < old_r.len() implies #[trigger] old_r[a] != i by {
                                assert(r@[a] == old_r[a]);
                            }
                        }
                    }
                }
                assert forall|a: int, c: int| 0 <= a < r@.len() && 0 <= c < r@.len() && a != c implies #[trigger] r@[a] != #[trigger] r@[c] by {
                    if a < k && c < k {
                        assert(r@[a] == old_r[a] && r@[c] == old_r[c]);
                    } else if a < k {
                        assert(before.contains(old_r[a] as int));
                    } else {
                        assert(before.contains(old_r[c] as int));
                    }
                }
            },
            None => {
                assert(false);
            },
        }
        k = k + 1;
    }
    r
}


/// The set of block indices in a list.
pub open spec fn block_set(blocks: Seq<usize>) -> Set<int> {
    Set::new(|i: int| exists|a: int| 0 <= a < blocks.len() && #[trigger] blocks[a] == i)
}

/// Stores `content` as a new file called `name` in `dir`: allocates
/// `ceil(len / BLOCK_SIZE)` blocks, lowest first, writes the content into
/// them in order, records them in a new inode numbered `id` and binds the
/// name to it. Fails with `DuplicateName` when the name is bound and with
/// `OutOfSpace` when too few blocks are free; nothing changes then.
pub fn store_file(disk: &mut VirtualDisk, dir: &mut Directory, name: &str, content: &[u8], id: usize) -> (r: Result<Inode, FsError>)
    requires
        old(disk).wf(),
        old(dir).wf(),
    ensures
        final(disk).wf(),
        final(dir).wf(),
        final(dir).name == old(dir).name,
        final(dir).parent == old(dir).parent,
        old(dir).entries_map().contains_key(name@) ==> {
            &&& r == Err::<Inode, FsError>(FsError::DuplicateName)
            &&& *final(disk) == *old(disk)
            &&& final(dir).entries_map() == old(dir).entries_map()
        },
        !old(dir).entries_map().contains_key(name@) && free_count(old(disk).free_blocks@) < blocks_for(content@.len() as int) ==> {
            &&& r == Err::<Inode, FsError>(FsError::OutOfSpace)
            &&& *final(disk) == *old(disk)
            &&& final(dir).entries_map() == old(dir).entries_map()
        },
        !old(dir).entries_map().contains_key(name@) && free_count(old(disk).free_blocks@) >= blocks_for(content@.len() as int) ==> (r matches Ok(inode) && {
            &&& inode.id == id
            &&& inode.name@ == name@
            &&& inode.size == content@.len()
            &&& inode.file_type == FileType::File
            &&& inode.permissions == default_permissions(FileType::File)
            &&& inode.created_at@ == inode.modified_at@
            &&& inode.blocks@.len() == blocks_for(content@.len() as int)
            &&& forall|a: int, b: int| 0 <= a < inode.blocks@.len() && 0 <= b < inode.blocks@.len() && a != b
                ==> #[trigger] inode.blocks@[a] != #[trigger] inode.blocks@[b]
            &&& forall|a: int| 0 <= a < inode.blocks@.len() ==> #[trigger] inode.blocks@[a] < TOTAL_BLOCKS
                && !old(disk).allocated().contains(inode.blocks@[a] as int)
            &&& final(disk).allocated() == old(disk).allocated().union(block_set(inode.blocks@))
            &&& forall|a: int| 0 <= a < inode.blocks@.len() ==> final(disk).blocks()[#[trigger] inode.blocks@[a] as int]
                == written(old(disk).blocks()[inode.blocks@[a] as int], chunk(content@, a))
            &&& forall|i: int| 0 <= i < TOTAL_BLOCKS && !block_set(inode.blocks@).contains(i)
                ==> #[trigger] final(disk).blocks()[i] == old(disk).blocks()[i]
            &&& final(dir).entries_map() == old(dir).entries_map().insert(name@, (id, false))
        }),
{
    if dir.has_entry(name) {
        return Err(FsError::DuplicateName);
    }
    let n = blocks_needed(content.len());
    if count_free(disk) < n {
        return Err(FsError::OutOfSpace);
    }
    proof {
        lemma_free_count_bound(old(disk).free_blocks@);
    }
    let blocks = allocate_blocks(disk, n);
    let ghost start_blocks = disk.blocks();
    assert(start_blocks == old(disk).blocks());
    let ghost fb = disk.free_blocks@;
    let len = content.len();
    let mut k: usize = 0;
    while k < n
        invariant
            disk.wf(),
            disk.free_blocks@ == fb,
            n == blocks@.len(),
            n <= TOTAL_BLOCKS,
            n == blocks_for(len as int),
            len == content@.len(),
            k <= n,
            forall|a: int, b: int| 0 <= a < blocks@.len() && 0 <= b < blocks@.len() && a != b ==> #[trigger] blocks@[a] != #[trigger] blocks@[b],
            forall|a: int| 0 <= a < blocks@.len() ==> #[trigger] blocks@[a] < TOTAL_BLOCKS,
            forall|a: int| 0 <= a < k ==> disk.blocks()[#[trigger] blocks@[a] as int]
                == written(start_blocks[blocks@[a] as int], chunk(content@, a)),
            forall|i: int| 0 <= i < TOTAL_BLOCKS && !block_set(blocks@.subrange(0, k as int)).contains(i)
                ==> #[trigger] disk.blocks()[i] == start_blocks[i],
        decreases n - k,
    {
        assert(k * 512 < len && k * 512 + 512 <= 51200) by (nonlinear_arith)
            requires k < n, n == (len + 511) / 512, n <= 100;
        let from = k * BLOCK_SIZE;
        let to = if from + BLOCK_SIZE < len { from + BLOCK_SIZE } else { len };
        let part = &content[from..to];
        assert(part@ =~= chunk(content@, k as int));
        let b = blocks[k];
        let ghost prev = disk.blocks();
        proof {
            assert(!block_set(blocks@.subrange(0, k as int)).contains(b as int)) by {
                if block_set(blocks@.subrange(0, k as int)).contains(b as int) {
                    let a = choose|a: int| 0 <= a < k && #[trigger] blocks@.subrange(0, k as int)[a] == b as int;
                    assert(blocks@[a] == blocks@[k as int]);
                }
            }
        }
        disk.write_block(b, part);
        proof {
            assert forall|a: int| 0 <= a < k + 1 implies disk.blocks()[#[trigger] blocks@[a] as int]
                == written(start_blocks[blocks@[a] as int], chunk(content@, a)) by {
                if a < k {
                    assert(blocks@[a] != blocks@[k as int]);
                }
            }
            assert forall|i: int| 0 <= i < TOTAL_BLOCKS && !block_set(blocks@.subrange(0, k + 1)).contains(i)
                implies #[trigger] disk.blocks()[i] == start_blocks[i] by {
                assert(blocks@.subrange(0, k + 1)[k as int] == blocks@[k as int]);
                if block_set(blocks@.subrange(0, k as int)).contains(i) {
                    let a = choose|a: int| 0 <= a < k && #[trigger] blocks@.subrange(0, k as int)[a] == i;
                    assert(blocks@.subrange(0, k + 1)[a] == i);
                }
            }
        }
        k = k + 1;
    }
    assert(blocks@.subrange(0, n as int) =~= blocks@);
    assert(block_set(blocks@) =~= Set::new(|i: int| exists|a: int| 0 <= a < blocks@.len() && #[trigger] blocks@[a] == i));
    let inode = Inode::new(id, name, len, blocks, FileType::File);
    let _ = dir.add_entry(name, id, false);
    Ok(inode)
}

/// Removes the entry `name` from `dir` and returns the blocks of `inode`,
/// the inode it named, to the store. Fails with `NotFound`, changing
/// nothing, when the name is not bound.
pub fn remove_file(disk: &mut VirtualDisk, dir: &mut Directory, name: &str, inode: &Inode) -> (r: Result<(), FsError>)
    requires
        old(disk).wf(),
        old(dir).wf(),
        forall|a: int| 0 <= a < inode.blocks@.len() ==> #[trigger] inode.blocks@[a] < TOTAL_BLOCKS,
    ensures
        final(disk).wf(),
        final(dir).wf(),
        final(dir).name == old(dir).name,
        final(dir).parent == old(dir).parent,
        !old(dir).entries_map().contains_key(name@) ==> {
            &&& r == Err::<(), FsError>(FsError::NotFound)
            &&& *final(disk) == *old(disk)
            &&& final(dir).entries_map() == old(dir).entries_map()
        },
        old(dir).entries_map().contains_key(name@) ==> {
            &&& r == Ok::<(), FsError>(())
            &&& final(disk).data@ == old(disk).data@
            &&& final(disk).allocated() == old(disk).allocated().difference(block_set(inode.blocks@))
            &&& final(dir).entries_map() == old(dir).entries_map().remove(name@)
        },
{
    let removed = dir.remove_entry(name);
    if removed.is_err() {
        return removed;
    }
    let mut k: usize = 0;
    while k < inode.blocks.len()
        invariant
            disk.wf(),
            disk.data@ == old(disk).data@,
            k <= inode.blocks@.len(),
            forall|a: int| 0 <= a < inode.blocks@.len() ==> #[trigger] inode.blocks@[a] < TOTAL_BLOCKS,
            disk.allocated() == old(disk).allocated().difference(block_set(inode.blocks@.subrange(0, k as int))),
        decreases inode.blocks@.len() - k,
    {
        let b = inode.blocks[k];
        disk.free_block(b);
        proof {
            let s0 = inode.blocks@.subrange(0, k as int);
            let s1 = inode.blocks@.subrange(0, k + 1);
            assert forall|i: int| #[trigger] block_set(s1).contains(i) <==> block_set(s0).insert(b as int).contains(i) by {
                if block_set(s1).contains(i) {
                    let a = choose|a: int| 0 <= a < s1.len() && #[trigger] s1[a] == i;
                    if a < k {
                        assert(s0[a] == i);
                    }
                }
                if block_set(s0).contains(i) {
                    let a = choose|a: int| 0 <= a < s0.len() && #[trigger] s0[a] == i;
                    assert(s1[a] == i);
                }
                assert(s1[k as int] == b);
            }
            assert(block_set(s1) =~= block_set(s0).insert(b as int));
            assert(disk.allocated() =~= old(disk).allocated().difference(block_set(s1)));
        }
        k = k + 1;
    }
    assert(inode.blocks@.subrange(0, inode.blocks@.len() as int) =~= inode.blocks@);
    Ok(())
}

} // verus!
