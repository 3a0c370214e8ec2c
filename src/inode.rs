use vstd::prelude::*;

verus! {

/// The kind of object an inode describes.
#[derive(Clone, Copy, Debug, PartialEq, Eq, Structural)]
pub enum FileType {
    File,
    Directory,
    Symlink,
}

/// Read, write and execute flags.
#[derive(Clone, Copy, Debug, PartialEq, Eq, Structural)]
pub struct Permissions {
    pub read: bool,
    pub write: bool,
    pub execute: bool,
}

impl Permissions {
    /// `rw-`, the default of a file.
    pub fn default_file() -> (r: Self)
        ensures
            r == (Permissions { read: true, write: true, execute: false }),
    {
        Self { read: true, write: true, execute: false }
    }

    /// `rwx`, the default of a directory.
    pub fn default_dir() -> (r: Self)
        ensures
            r == (Permissions { read: true, write: true, execute: true }),
    {
        Self { read: true, write: true, execute: true }
    }
}

/// The permissions an inode of the given type starts with: files get `rw-`,
/// everything else `rwx`.
pub open spec fn default_permissions(t: FileType) -> Permissions {
    if t == FileType::File {
        Permissions { read: true, write: true, execute: false }
    } else {
        Permissions { read: true, write: true, execute: true }
    }
}

/// Metadata of one file or directory: its size, type, permissions,
/// timestamps and the ordered list of blocks that hold its content.
#[derive(Clone, Debug)]
pub struct Inode {
    pub id: usize,
    pub name: String,
    pub size: usize,
    pub file_type: FileType,
    pub blocks: Vec<usize>,
    pub permissions: Permissions,
    pub created_at: String,
    pub modified_at: String,
}

/// Relies on chrono's `Local::now` and `format`: the local time now, written
/// as `YYYY-MM-DD HH:MM:SS`. Nothing is claimed about the text.
#[verifier::external_body]
fn now_stamp() -> (r: String) {
    chrono::Local::now().format("%Y-%m-%d %H:%M:%S").to_string()
}

fn copy_blocks(blocks: &Vec<usize>) -> (r: Vec<usize>)
    ensures
        r@ == blocks@,
{
    let mut r: Vec<usize> = Vec::new();
    let mut i: usize = 0;
    while i < blocks.len()
        invariant
            i <= blocks@.len(),
            r@ == blocks@.subrange(0, i as int),
        decreases blocks@.len() - i,
    {
        r.push(blocks[i]);
        i = i + 1;
        assert(r@ =~= blocks@.subrange(0, i as int));
    }
    assert(blocks@.subrange(0, blocks@.len() as int) =~= blocks@);
    r
}

impl Inode {
    /// A new inode stamped with the local time now, both as creation and as
    /// modification time.
    pub fn new(id: usize, name: &str, size: usize, blocks: Vec<usize>, file_type: FileType) -> (r: Self)
        ensures
            r.id == id,
            r.name@ == name@,
            r.size == size,
            r.file_type == file_type,
            r.blocks@ == blocks@,
            r.permissions == default_permissions(file_type),
            r.created_at@ == r.modified_at@,
    {
        let now = now_stamp();
        Self::new_at(id, name, size, blocks, file_type, now)
    }

    /// A new inode whose creation and modification time are `now`, with the
    /// default permissions of its type.
    pub fn new_at(
        id: usize,
        name: &str,
        size: usize,
        blocks: Vec<usize>,
        file_type: FileType,
        now: String,
    ) -> (r: Self)
        ensures
            r.id == id,
            r.name@ == name@,
            r.size == size,
            r.file_type == file_type,
            r.blocks@ == blocks@,
            r.permissions == default_permissions(file_type),
            r.created_at@ == now@,
            r.modified_at@ == now@,
    {
        let permissions = if file_type == FileType::File {
            Permissions::default_file()
        } else {
            Permissions::default_dir()
        };
        Self {
            id,
            name: name.to_owned(),
            size,
            file_type,
            blocks,
            permissions,
            created_at: now.clone(),
            modified_at: now,
        }
    }

    /// Replaces size and block list wholesale and stamps the modification
    /// time with the local time now.
    pub fn update(&mut self, new_size: usize, new_blocks: Vec<usize>)
        ensures
            final(self).size == new_size,
            final(self).blocks@ == new_blocks@,
            final(self).id == old(self).id,
            final(self).name@ == old(self).name@,
            final(self).file_type == old(self).file_type,
            final(self).permissions == old(self).permissions,
            final(self).created_at@ == old(self).created_at@,
    {
        let now = now_stamp();
        self.update_at(new_size, new_blocks, now);
    }

    /// Replaces size and block list wholesale; the modification time becomes `now`.
    pub fn update_at(&mut self, new_size: usize, new_blocks: Vec<usize>, now: String)
        ensures
            final(self).size == new_size,
            final(self).blocks@ == new_blocks@,
            final(self).modified_at@ == now@,
            final(self).id == old(self).id,
            final(self).name@ == old(self).name@,
            final(self).file_type == old(self).file_type,
            final(self).permissions == old(self).permissions,
            final(self).created_at@ == old(self).created_at@,
    {
        self.size = new_size;
        self.blocks = new_blocks;
        self.modified_at = now;
    }

    /// An independent copy with the same field values, timestamps and
    /// permissions included.
    pub fn clone_safe(&self) -> (r: Self)
        ensures
            r.id == self.id,
            r.name@ == self.name@,
            r.size == self.size,
            r.file_type == self.file_type,
            r.blocks@ == self.blocks@,
            r.permissions == self.permissions,
            r.created_at@ == self.created_at@,
            r.modified_at@ == self.modified_at@,
    {
        Self {
            id: self.id,
            name: self.name.clone(),
            size: self.size,
            file_type: self.file_type,
            blocks: copy_blocks(&self.blocks),
            permissions: self.permissions,
            created_at: self.created_at.clone(),
            modified_at: self.modified_at.clone(),
        }
    }
}

} // verus!
