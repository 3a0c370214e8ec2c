use vstd::prelude::*;

verus! {

/// Size of one block, in bytes.
pub const BLOCK_SIZE: usize = 512;

/// Number of blocks in the store.
pub const TOTAL_BLOCKS: usize = 100;

/// Size of a whole-disk image: every block, back to back.
pub const DISK_BYTES: usize = TOTAL_BLOCKS * BLOCK_SIZE;

/// The index of the lowest free block, if any.
pub open spec fn first_free(free: Seq<bool>) -> Option<int> {
    if exists|i: int| 0 <= i < free.len() && free[i] {
        Some(choose|i: int| 0 <= i < free.len() && free[i] && forall|j: int| 0 <= j < i ==> !free[j])
    } else {
        None
    }
}

/// What a block holds after `bytes` were written into it: the first
/// `min(len(bytes), BLOCK_SIZE)` bytes are replaced, the rest is kept.
pub open spec fn written(block: Seq<u8>, bytes: Seq<u8>) -> Seq<u8> {
    let n = if bytes.len() < BLOCK_SIZE { bytes.len() as int } else { BLOCK_SIZE as int };
    bytes.subrange(0, n) + block.subrange(n, block.len() as int)
}

/// The persisted layout: block `i` occupies bytes `[i * BLOCK_SIZE, (i + 1) * BLOCK_SIZE)`.
pub open spec fn image_of(blocks: Seq<Seq<u8>>) -> Seq<u8> {
    Seq::new(DISK_BYTES as nat, |k: int| blocks[k / BLOCK_SIZE as int][k % BLOCK_SIZE as int])
}

/// The blocks that an image holds, read back in the persisted layout.
pub open spec fn blocks_of_image(image: Seq<u8>) -> Seq<Seq<u8>> {
    Seq::new(
        TOTAL_BLOCKS as nat,
        |i: int| image.subrange(i * BLOCK_SIZE as int, (i + 1) * BLOCK_SIZE as int),
    )
}

/// A fixed pool of fixed-size blocks with a free/used bitmap.
pub struct VirtualDisk {
    pub data: Vec<Vec<u8>>,
    pub free_blocks: Vec<bool>,
}

impl VirtualDisk {
    /// The bitmap has one flag per block and each block has `BLOCK_SIZE` bytes.
    pub open spec fn wf(&self) -> bool {
        &&& self.data@.len() == TOTAL_BLOCKS
        &&& self.free_blocks@.len() == TOTAL_BLOCKS
        &&& forall|i: int| 0 <= i < TOTAL_BLOCKS ==> #[trigger] self.data@[i]@.len() == BLOCK_SIZE
    }

    /// The contents of every block.
    pub open spec fn blocks(&self) -> Seq<Seq<u8>> {
        Seq::new(self.data@.len(), |i: int| self.data@[i]@)
    }

    /// The indices of the blocks currently in use.
    pub open spec fn allocated(&self) -> Set<int> {
        Set::new(|i: int| 0 <= i < self.free_blocks@.len() && !self.free_blocks@[i])
    }

    /// A store of zeroed blocks, all free.
    pub fn new() -> (r: Self)
        ensures
            r.wf(),
            forall|i: int| 0 <= i < TOTAL_BLOCKS ==> #[trigger] r.free_blocks@[i],
            forall|i: int, j: int|
                0 <= i < TOTAL_BLOCKS && 0 <= j < BLOCK_SIZE ==> #[trigger] r.data@[i]@[j] == 0u8,
    {
        let mut data: Vec<Vec<u8>> = Vec::new();
        let mut free_blocks: Vec<bool> = Vec::new();
        let mut i: usize = 0;
        while i < TOTAL_BLOCKS
            invariant
                i <= TOTAL_BLOCKS,
                data@.len() == i,
                free_blocks@.len() == i,
                forall|k: int| 0 <= k < i ==> #[trigger] free_blocks@[k],
                forall|k: int| 0 <= k < i ==> #[trigger] data@[k]@ == Seq::new(BLOCK_SIZE as nat, |j: int| 0u8),
            decreases TOTAL_BLOCKS - i,
        {
            data.push(vec![0u8; BLOCK_SIZE]);
            free_blocks.push(true);
            i = i + 1;
        }
        VirtualDisk { data, free_blocks }
    }

    /// Marks and returns the lowest free block, or `None` when every block is in use.
    pub fn allocate_block(&mut self) -> (r: Option<usize>)
        requires
            old(self).wf(),
        ensures
            final(self).wf(),
            final(self).data@ == old(self).data@,
            r == match first_free(old(self).free_blocks@) {
                Some(i) => Some(i as usize),
                None => None::<usize>,
            },
            r is None <==> forall|j: int| 0 <= j < TOTAL_BLOCKS ==> !old(self).free_blocks@[j],
            r is None ==> final(self).free_blocks@ == old(self).free_blocks@,
            r matches Some(i) ==> {
                &&& i < TOTAL_BLOCKS
                &&& old(self).free_blocks@[i as int]
                &&& forall|j: int| 0 <= j < i ==> !old(self).free_blocks@[j]
                &&& !old(self).allocated().contains(i as int)
                &&& final(self).free_blocks@ == old(self).free_blocks@.update(i as int, false)
                &&& final(self).allocated() == old(self).allocated().insert(i as int)
            },
    {
        let mut i: usize = 0;
        while i < TOTAL_BLOCKS
            invariant
                self.wf(),
                *self == *old(self),
                i <= TOTAL_BLOCKS,
                forall|j: int| 0 <= j < i ==> !self.free_blocks@[j],
            decreases TOTAL_BLOCKS - i,
        {
            if self.free_blocks[i] {
                let ghost f = self.free_blocks@;
                assert(0 <= i < f.len() && f[i as int] && forall|j: int| 0 <= j < i ==> !f[j]);
                proof {
                    let c = choose|c: int| 0 <= c < f.len() && f[c] && forall|j: int| 0 <= j < c ==> !f[j];
                    if c < i {
                    } else if c > i {
                        assert(!f[i as int]);
                    }
                }
                self.free_blocks.set(i, false);
                assert(self.allocated() =~= old(self).allocated().insert(i as int));
                return Some(i);
            }
            i = i + 1;
        }
        None
    }

    /// Marks a block free. Freeing a block twice, or one that nobody owns,
    /// is not checked.
    pub fn free_block(&mut self, index: usize)
        requires
            old(self).wf(),
            index < TOTAL_BLOCKS,
        ensures
            final(self).wf(),
            final(self).data@ == old(self).data@,
            final(self).free_blocks@ == old(self).free_blocks@.update(index as int, true),
            final(self).allocated() == old(self).allocated().remove(index as int),
    {
        self.free_blocks.set(index, true);
        assert(self.allocated() =~= old(self).allocated().remove(index as int));
    }
}


impl VirtualDisk {
    /// Copies `min(len(data), BLOCK_SIZE)` bytes into block `index` from its
    /// start; bytes beyond the block are dropped, the rest of the block is kept.
    pub fn write_block(&mut self, index: usize, data: &[u8])
        requires
            old(self).wf(),
            index < TOTAL_BLOCKS,
        ensures
            final(self).wf(),
            final(self).free_blocks@ == old(self).free_blocks@,
            final(self).blocks() == old(self).blocks().update(
                index as int,
                written(old(self).blocks()[index as int], data@),
            ),
    {
        let n: usize = if data.len() < BLOCK_SIZE { data.len() } else { BLOCK_SIZE };
        let mut block: Vec<u8> = Vec::new();
        let mut j: usize = 0;
        while j < BLOCK_SIZE
            invariant
                self.wf(),
                *self == *old(self),
                index < TOTAL_BLOCKS,
                n == (if data@.len() < BLOCK_SIZE { data@.len() as int } else { BLOCK_SIZE as int }),
                j <= BLOCK_SIZE,
                block@.len() == j,
                forall|k: int| 0 <= k < j ==> #[trigger] block@[k] == (if k < n { data@[k] } else { self.data@[index as int]@[k] }),
            decreases BLOCK_SIZE - j,
        {
            if j < n {
                block.push(data[j]);
            } else {
                block.push(self.data[index][j]);
            }
            j = j + 1;
        }
        let ghost old_block = self.data@[index as int]@;
        assert(block@ =~= written(old_block, data@));
        self.data.set(index, block);
        assert(self.blocks() =~= old(self).blocks().update(index as int, written(old_block, data@)));
    }

    /// The whole of block `index`, trailing padding included.
    pub fn read_block(&self, index: usize) -> (r: &[u8])
        requires
            self.wf(),
            index < TOTAL_BLOCKS,
        ensures
            r@ == self.blocks()[index as int],
            r@.len() == BLOCK_SIZE,
    {
        self.data[index].as_slice()
    }

    /// The persisted image: every block, back to back, with no framing.
    pub fn to_image(&self) -> (r: Vec<u8>)
        requires
            self.wf(),
        ensures
            r@ == image_of(self.blocks()),
    {
        let mut out: Vec<u8> = Vec::new();
        let mut i: usize = 0;
        while i < TOTAL_BLOCKS
            invariant
                self.wf(),
                i <= TOTAL_BLOCKS,
                out@.len() == i * BLOCK_SIZE,
                forall|k: int| 0 <= k < out@.len() ==> #[trigger] out@[k] == self.data@[k / BLOCK_SIZE as int]@[k % BLOCK_SIZE as int],
            decreases TOTAL_BLOCKS - i,
        {
            let mut j: usize = 0;
            while j < BLOCK_SIZE
                invariant
                    self.wf(),
                    i < TOTAL_BLOCKS,
                    j <= BLOCK_SIZE,
                    out@.len() == i * BLOCK_SIZE + j,
                    forall|k: int| 0 <= k < out@.len() ==> #[trigger] out@[k] == self.data@[k / BLOCK_SIZE as int]@[k % BLOCK_SIZE as int],
                decreases BLOCK_SIZE - j,
            {
                let ghost k = out@.len() as int;
                assert(k / 512 == i && k % 512 == j) by (nonlinear_arith)
                    requires k == i * 512 + j, 0 <= j < 512;
                out.push(self.data[i][j]);
                j = j + 1;
            }
            i = i + 1;
        }
        assert(out@ =~= image_of(self.blocks()));
        out
    }

    /// Rebuilds a store from a persisted image: the blocks hold the image's
    /// first `DISK_BYTES` bytes and every block is free, since the bitmap is
    /// not part of the image. `None` when the image is shorter than that.
    pub fn from_image(image: &[u8]) -> (r: Option<Self>)
        ensures
            image@.len() < DISK_BYTES <==> r is None,
            r matches Some(d) ==> {
                &&& d.wf()
                &&& d.blocks() == blocks_of_image(image@)
                &&& forall|i: int| 0 <= i < TOTAL_BLOCKS ==> #[trigger] d.free_blocks@[i]
            },
    {
        if image.len() < DISK_BYTES {
            return None;
        }
        let mut data: Vec<Vec<u8>> = Vec::new();
        let mut free_blocks: Vec<bool> = Vec::new();
        let mut i: usize = 0;
        while i < TOTAL_BLOCKS
            invariant
                image@.len() >= DISK_BYTES,
                i <= TOTAL_BLOCKS,
                data@.len() == i,
                free_blocks@.len() == i,
                forall|k: int| 0 <= k < i ==> #[trigger] free_blocks@[k],
                forall|k: int| 0 <= k < i ==> #[trigger] data@[k]@ == blocks_of_image(image@)[k],
            decreases TOTAL_BLOCKS - i,
        {
            let mut block: Vec<u8> = Vec::new();
            let mut j: usize = 0;
            while j < BLOCK_SIZE
                invariant
                    image@.len() >= DISK_BYTES,
                    i < TOTAL_BLOCKS,
                    j <= BLOCK_SIZE,
                    block@.len() == j,
                    forall|k: int| 0 <= k < j ==> #[trigger] block@[k] == image@[i * BLOCK_SIZE + k],
                decreases BLOCK_SIZE - j,
            {
                assert(i * 512 + j < 51200) by (nonlinear_arith)
                    requires i < 100, j < 512;
                block.push(image[i * BLOCK_SIZE + j]);
                j = j + 1;
            }
            assert(block@ =~= blocks_of_image(image@)[i as int]);
            data.push(block);
            free_blocks.push(true);
            i = i + 1;
        }
        let d = VirtualDisk { data, free_blocks };
        assert(d.blocks() =~= blocks_of_image(image@));
        Some(d)
    }
}

/// Block `index` of an image of a well-formed store is that block's contents.
proof fn lemma_image_block(blocks: Seq<Seq<u8>>, i: int, j: int)
    requires
        0 <= i < TOTAL_BLOCKS,
        0 <= j < BLOCK_SIZE,
    ensures
        i * BLOCK_SIZE + j < DISK_BYTES,
        image_of(blocks)[i * BLOCK_SIZE + j] == blocks[i][j],
{
    let k = i * 512 + j;
    assert(k / 512 == i && k % 512 == j && k < 51200) by (nonlinear_arith)
        requires k == i * 512 + j, 0 <= j < 512, 0 <= i < 100;
}

/// Saving a store to its persisted image and loading that image back gives
/// the same contents in every block.
pub proof fn lemma_image_round_trip(d: VirtualDisk)
    requires
        d.wf(),
    ensures
        blocks_of_image(image_of(d.blocks())) == d.blocks(),
{
    let blocks = d.blocks();
    let back = blocks_of_image(image_of(blocks));
    assert forall|i: int| 0 <= i < TOTAL_BLOCKS implies #[trigger] back[i] == blocks[i] by {
        assert forall|j: int| 0 <= j < BLOCK_SIZE implies #[trigger] back[i][j] == blocks[i][j] by {
            lemma_image_block(blocks, i, j);
            assert((i + 1) * 512 == i * 512 + 512) by (nonlinear_arith);
        }
        assert((i + 1) * 512 == i * 512 + 512) by (nonlinear_arith);
        assert(back[i] =~= blocks[i]);
    }
    assert(back =~= blocks);
}

/// After a write, the first `min(len(bytes), BLOCK_SIZE)` bytes of the block
/// are those bytes and the rest of the block is what it held before.
pub proof fn lemma_write_then_read(block: Seq<u8>, bytes: Seq<u8>)
    requires
        block.len() == BLOCK_SIZE,
    ensures
        written(block, bytes).len() == BLOCK_SIZE,
        forall|k: int| 0 <= k < BLOCK_SIZE && k < bytes.len() ==> #[trigger] written(block, bytes)[k] == bytes[k],
        forall|k: int| bytes.len() <= k < BLOCK_SIZE ==> #[trigger] written(block, bytes)[k] == block[k],
{
}

/// One allocation on a bitmap: the lowest free block becomes used.
pub open spec fn allocate_once(free: Seq<bool>) -> Seq<bool> {
    match first_free(free) {
        Some(i) => free.update(i, false),
        None => free,
    }
}

/// The bitmap after `n` allocations and no frees.
pub open spec fn after_allocations(free: Seq<bool>, n: nat) -> Seq<bool>
    decreases n,
{
    if n == 0 {
        free
    } else {
        allocate_once(after_allocations(free, (n - 1) as nat))
    }
}

/// The bitmap of a fresh store.
pub open spec fn all_free() -> Seq<bool> {
    Seq::new(TOTAL_BLOCKS as nat, |i: int| true)
}

proof fn lemma_after_allocations_shape(n: nat)
    requires
        n <= TOTAL_BLOCKS,
    ensures
        after_allocations(all_free(), n) =~= Seq::new(TOTAL_BLOCKS as nat, |i: int| i >= n),
    decreases n,
{
    if n > 0 {
        lemma_after_allocations_shape((n - 1) as nat);
        lemma_first_free_of_suffix((n - 1) as nat);
    }
}

proof fn lemma_first_free_of_suffix(n: nat)
    ensures
        n < TOTAL_BLOCKS ==> first_free(Seq::new(TOTAL_BLOCKS as nat, |i: int| i >= n)) == Some(n as int),
        n >= TOTAL_BLOCKS ==> first_free(Seq::new(TOTAL_BLOCKS as nat, |i: int| i >= n)) is None,
{
    let f = Seq::new(TOTAL_BLOCKS as nat, |i: int| i >= n);
    if n < TOTAL_BLOCKS {
        assert(0 <= n < f.len() && f[n as int]);
        let c = choose|c: int| 0 <= c < f.len() && f[c] && forall|j: int| 0 <= j < c ==> !f[j];
        assert(n as int <= c);
        if c > n {
            assert(!f[n as int]);
        }
    }
}

/// On a fresh store with no frees, the first `TOTAL_BLOCKS` allocations hand
/// out blocks `0, 1, 2, ...` in order, and the next one finds no free block.
pub proof fn lemma_allocations_exhaust()
    ensures
        forall|k: nat| k < TOTAL_BLOCKS ==> #[trigger] first_free(after_allocations(all_free(), k)) == Some(k as int),
        first_free(after_allocations(all_free(), TOTAL_BLOCKS as nat)) is None,
{
    assert forall|k: nat| k < TOTAL_BLOCKS implies #[trigger] first_free(after_allocations(all_free(), k)) == Some(k as int) by {
        lemma_after_allocations_shape(k);
        lemma_first_free_of_suffix(k);
    }
    lemma_after_allocations_shape(TOTAL_BLOCKS as nat);
    lemma_first_free_of_suffix(TOTAL_BLOCKS as nat);
}

} // verus!
