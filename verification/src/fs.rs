//! Files: a flat in-memory file system, the console, and the table of open
//! files that the descriptors of all processes point into.

use vstd::prelude::*;
use vstd::bytes::{spec_u32_to_le_bytes, spec_u64_to_le_bytes, u32_to_le_bytes, u64_to_le_bytes};
use std::collections::VecDeque;
use crate::mm::copy_bytes;
use crate::table::{first_free, free_slot, lemma_free_slot, put};

verus! {

/// Open for reading only.
pub const O_RDONLY: u32 = 0;

/// Open for writing only.
pub const O_WRONLY: u32 = 1;

/// Open for reading and writing.
pub const O_RDWR: u32 = 2;

/// Create the file if it is missing; empty it if it is there.
pub const O_CREATE: u32 = 512;

/// Empty the file.
pub const O_TRUNC: u32 = 1024;

/// Mode of a regular file.
pub const MODE_FILE: u32 = 0o100000;

/// Handle of the console's input.
pub const CONSOLE_IN: usize = 0;

/// Handle of the console's output.
pub const CONSOLE_OUT: usize = 1;

/// Whether `flags` holds known flags only.
pub open spec fn flags_valid(flags: u32) -> bool {
    flags & !(O_WRONLY | O_RDWR | O_CREATE | O_TRUNC) == 0
}

/// Whether a file opened with `flags` may be read.
pub open spec fn flags_readable(flags: u32) -> bool {
    flags & O_WRONLY == 0
}

/// Whether a file opened with `flags` may be written.
pub open spec fn flags_writable(flags: u32) -> bool {
    flags & (O_WRONLY | O_RDWR) != 0
}

/// What an open file is.
#[derive(Clone, Copy, Debug, PartialEq, Eq, Structural)]
pub enum FileKind {
    Stdin,
    Stdout,
    Regular,
}

/// An open file: how it may be used, where the next access falls, and how
/// many descriptors point to it.
#[derive(Clone, Copy, Debug, PartialEq, Eq, Structural)]
pub struct OpenFile {
    pub kind: FileKind,
    pub readable: bool,
    pub writable: bool,
    pub offset: usize,
    pub inode: usize,
    pub refs: usize,
}

/// What `fstat` reports of a file.
#[derive(Clone, Copy, Debug)]
pub struct Stat {
    pub dev: u64,
    pub ino: u64,
    pub mode: u32,
    pub nlink: u32,
    pub pad: [u64; 7],
}

/// The 80 bytes of a `Stat` in memory: the fields in order, without gaps,
/// each with its low byte first.
pub open spec fn stat_bytes(ino: u64, nlink: u32) -> Seq<u8> {
    spec_u64_to_le_bytes(0) + spec_u64_to_le_bytes(ino) + spec_u32_to_le_bytes(MODE_FILE)
        + spec_u32_to_le_bytes(nlink) + Seq::new(56, |i: int| 0u8)
}

/// The bytes of a file after `data` has been written at `offset`: the file
/// grows as far as needed, and a gap below `offset` reads as zeros.
pub open spec fn write_at(old: Seq<u8>, offset: int, data: Seq<u8>) -> Seq<u8> {
    let len = if old.len() > offset + data.len() {
        old.len()
    } else {
        (offset + data.len()) as nat
    };
    Seq::new(
        len,
        |i: int|
            if offset <= i < offset + data.len() {
                data[i - offset]
            } else if i < old.len() {
                old[i]
            } else {
                0u8
            },
    )
}

/// The mathematical content of the file system.
pub struct FsView {
    /// The bytes of each inode.
    pub datas: Seq<Seq<u8>>,
    /// The number of names of each inode.
    pub nlinks: Seq<u32>,
    /// The names in the root directory, in the order of their entries.
    pub names: Seq<Seq<u8>>,
    /// The inode that each entry names.
    pub targets: Seq<usize>,
    /// The open files, by handle.
    pub open: Seq<Option<OpenFile>>,
    /// Bytes typed at the console and not read yet.
    pub console_in: Seq<u8>,
    /// Bytes written to the console so far.
    pub console_out: Seq<u8>,
}

/// The open file that stands for the console's input.
pub open spec fn stdin_file() -> OpenFile {
    OpenFile { kind: FileKind::Stdin, readable: true, writable: false, offset: 0, inode: 0, refs: 1 }
}

/// The open file that stands for the console's output.
pub open spec fn stdout_file() -> OpenFile {
    OpenFile { kind: FileKind::Stdout, readable: false, writable: true, offset: 0, inode: 0, refs: 1 }
}

impl FsView {
    /// No name occurs twice, every entry names an inode, inodes and handles
    /// are numbers of the machine, the two console files keep the first two
    /// handles, and every other open file is a regular file on an inode,
    /// with at least one descriptor.
    pub open spec fn wf(self) -> bool {
        &&& self.datas.len() == self.nlinks.len()
        &&& self.datas.len() <= usize::MAX
        &&& self.open.len() <= usize::MAX
        &&& self.names.len() == self.targets.len()
        &&& self.names.no_duplicates()
        &&& forall|i: int| 0 <= i < self.targets.len() ==> #[trigger] self.targets[i] < self.datas.len()
        &&& self.open.len() >= 2
        &&& self.open[0] == Some(stdin_file())
        &&& self.open[1] == Some(stdout_file())
        &&& forall|h: int|
            2 <= h < self.open.len() ==> match #[trigger] self.open[h] {
                Some(f) => f.kind == FileKind::Regular && f.inode < self.datas.len() && f.refs >= 1,
                None => true,
            }
    }

    /// The inode that `name` names, if any.
    pub open spec fn find(self, name: Seq<u8>) -> Option<usize> {
        match self.names.index_of_first(name) {
            Some(i) => Some(self.targets[i]),
            None => None,
        }
    }

    /// The file system with a new, empty file under `name`.
    pub open spec fn create(self, name: Seq<u8>) -> FsView {
        FsView {
            datas: self.datas.push(Seq::empty()),
            nlinks: self.nlinks.push(1),
            names: self.names.push(name),
            targets: self.targets.push(self.datas.len() as usize),
            ..self
        }
    }

    /// The file system with inode `ino` emptied.
    pub open spec fn clear(self, ino: int) -> FsView {
        FsView { datas: self.datas.update(ino, Seq::empty()), ..self }
    }

    /// Whether `open_file` succeeds: the flags are known, a handle is left,
    /// and the file is there or will be created, for which an inode must be
    /// left.
    pub open spec fn can_open(self, name: Seq<u8>, flags: u32) -> bool {
        flags_valid(flags) && free_slot(self.open) < usize::MAX && (self.find(name) is Some || (
        flags & O_CREATE != 0 && self.datas.len() < usize::MAX))
    }

    /// The file system as `open_file` leaves the files proper: a missing
    /// file created, a file emptied if the flags ask for it.
    pub open spec fn prepared(self, name: Seq<u8>, flags: u32) -> FsView {
        match self.find(name) {
            Some(ino) => if flags & (O_CREATE | O_TRUNC) != 0 {
                self.clear(ino as int)
            } else {
                self
            },
            None => self.create(name),
        }
    }

    /// The inode that `open_file` opens.
    pub open spec fn opened_inode(self, name: Seq<u8>) -> usize {
        match self.find(name) {
            Some(ino) => ino,
            None => self.datas.len() as usize,
        }
    }

    /// The file system after a successful `open_file`: the file prepared,
    /// and a new open file at offset 0 in the first free slot.
    pub open spec fn open_file(self, name: Seq<u8>, flags: u32) -> FsView {
        let prepared = self.prepared(name, flags);
        FsView {
            open: put(
                self.open,
                free_slot(self.open),
                OpenFile {
                    kind: FileKind::Regular,
                    readable: flags_readable(flags),
                    writable: flags_writable(flags),
                    offset: 0,
                    inode: self.opened_inode(name),
                    refs: 1,
                },
            ),
            ..prepared
        }
    }

    /// Whether `h` is the handle of an open file.
    pub open spec fn is_open(self, h: int) -> bool {
        0 <= h < self.open.len() && self.open[h] is Some
    }

    /// The file system with one more descriptor on `h`; the console files
    /// do not count theirs.
    pub open spec fn dup(self, h: int) -> FsView {
        if h < 2 {
            self
        } else {
            let f = self.open[h]->0;
            FsView { open: self.open.update(h, Some(OpenFile { refs: (f.refs + 1) as usize, ..f })), ..self }
        }
    }

    /// The file system with one descriptor less on `h`; the open file goes
    /// with its last descriptor.
    pub open spec fn close(self, h: int) -> FsView {
        if h < 2 {
            self
        } else {
            let f = self.open[h]->0;
            if f.refs <= 1 {
                FsView { open: self.open.update(h, None), ..self }
            } else {
                FsView {
                    open: self.open.update(h, Some(OpenFile { refs: (f.refs - 1) as usize, ..f })),
                    ..self
                }
            }
        }
    }

    /// Whether the open file `h` may be read.
    pub open spec fn can_read(self, h: int) -> bool {
        self.is_open(h) && self.open[h]->0.readable
    }

    /// The bytes that a read of up to `len` bytes from `h` returns.
    pub open spec fn read_result(self, h: int, len: int) -> Seq<u8> {
        let f = self.open[h]->0;
        if f.kind == FileKind::Stdin {
            if len < self.console_in.len() {
                self.console_in.take(len)
            } else {
                self.console_in
            }
        } else {
            let data = self.datas[f.inode as int];
            if f.offset >= data.len() {
                Seq::empty()
            } else if f.offset + len < data.len() {
                data.subrange(f.offset as int, f.offset + len)
            } else {
                data.subrange(f.offset as int, data.len() as int)
            }
        }
    }

    /// The file system after a read of up to `len` bytes from `h`: what was
    /// read is gone from the console, or lies behind the offset.
    pub open spec fn read(self, h: int, len: int) -> FsView {
        let f = self.open[h]->0;
        let n = self.read_result(h, len).len();
        if f.kind == FileKind::Stdin {
            FsView { console_in: self.console_in.skip(n as int), ..self }
        } else {
            FsView {
                open: self.open.update(h, Some(OpenFile { offset: (f.offset + n) as usize, ..f })),
                ..self
            }
        }
    }

    /// Whether `data` can be written to the open file `h`.
    pub open spec fn can_write(self, h: int, data: Seq<u8>) -> bool {
        &&& self.is_open(h)
        &&& self.open[h]->0.writable
        &&& self.open[h]->0.kind == FileKind::Regular ==> self.open[h]->0.offset + data.len()
            <= usize::MAX
    }

    /// The file system after `data` has been written to `h`.
    pub open spec fn write(self, h: int, data: Seq<u8>) -> FsView {
        let f = self.open[h]->0;
        if f.kind == FileKind::Stdout {
            FsView { console_out: self.console_out + data, ..self }
        } else {
            FsView {
                datas: self.datas.update(
                    f.inode as int,
                    write_at(self.datas[f.inode as int], f.offset as int, data),
                ),
                open: self.open.update(
                    h,
                    Some(OpenFile { offset: (f.offset + data.len()) as usize, ..f }),
                ),
                ..self
            }
        }
    }

    /// Whether `new_name` can become another name of the file `old_name`.
    pub open spec fn can_link(self, old_name: Seq<u8>, new_name: Seq<u8>) -> bool {
        &&& old_name != new_name
        &&& self.find(old_name) is Some
        &&& self.find(new_name) is None
        &&& self.nlinks[self.find(old_name)->0 as int] < u32::MAX
    }

    /// The file system with `new_name` as another name of the file `old_name`.
    pub open spec fn link(self, old_name: Seq<u8>, new_name: Seq<u8>) -> FsView {
        let ino = self.find(old_name)->0;
        FsView {
            names: self.names.push(new_name),
            targets: self.targets.push(ino),
            nlinks: self.nlinks.update(ino as int, (self.nlinks[ino as int] + 1) as u32),
            ..self
        }
    }

    /// The file system without the entry `name`: its inode has one name
    /// less, and is emptied when that was its last.
    pub open spec fn unlink(self, name: Seq<u8>) -> FsView {
        let i = self.names.index_of_first(name)->0;
        let ino = self.targets[i] as int;
        let left = if self.nlinks[ino] > 0 {
            (self.nlinks[ino] - 1) as u32
        } else {
            0u32
        };
        FsView {
            names: self.names.remove(i),
            targets: self.targets.remove(i),
            nlinks: self.nlinks.update(ino, left),
            datas: if left == 0 {
                self.datas.update(ino, Seq::empty())
            } else {
                self.datas
            },
            ..self
        }
    }
}

/// A read returns no more bytes than were asked for.
pub proof fn lemma_read_is_short(v: FsView, h: int, len: int)
    requires
        len >= 0,
    ensures
        v.read_result(h, len).len() <= len,
{
}

/// Writing to a fresh file and reading it again gives back what was written:
/// after creating `name` for writing, writing `data`, closing, and opening
/// `name` for reading, a read of `data.len()` bytes returns `data`.
pub proof fn lemma_write_then_read(v: FsView, name: Seq<u8>, data: Seq<u8>)
    requires
        v.wf(),
        data.len() <= usize::MAX,
        v.find(name) is Some || v.datas.len() < usize::MAX,
        free_slot(v.open) < usize::MAX,
    ensures
        ({
            let h = free_slot(v.open);
            let written = v.open_file(name, O_CREATE | O_WRONLY).write(h, data).close(h);
            let again = free_slot(written.open);
            let reopened = written.open_file(name, O_RDONLY);
            &&& v.can_open(name, O_CREATE | O_WRONLY)
            &&& v.open_file(name, O_CREATE | O_WRONLY).can_write(h, data)
            &&& v.open_file(name, O_CREATE | O_WRONLY).write(h, data).is_open(h)
            &&& written.wf()
            &&& again == h
            &&& written.can_open(name, O_RDONLY)
            &&& reopened.can_read(again)
            &&& reopened.read_result(again, data.len() as int) == data
        }),
{
    let create = O_CREATE | O_WRONLY;
    assert((512u32 | 1u32) & !(1u32 | 2u32 | 512u32 | 1024u32) == 0 && (512u32 | 1u32) & (1u32
        | 2u32) != 0 && (512u32 | 1u32) & 512u32 != 0 && (512u32 | 1u32) & (512u32 | 1024u32)
        != 0) by (bit_vector);
    assert(0u32 & !(1u32 | 2u32 | 512u32 | 1024u32) == 0 && 0u32 & 1u32 == 0 && 0u32 & (512u32
        | 1024u32) == 0 && 0u32 & 512u32 == 0) by (bit_vector);
    let h = free_slot(v.open);
    lemma_free_slot(v.open);
    let ino = v.opened_inode(name);
    v.names.index_of_first_ensures(name);
    let opened = v.open_file(name, create);
    if v.find(name) is Some {
        assert(v.targets[v.names.index_of_first(name)->0] < v.datas.len());
    }
    assert(opened.datas[ino as int] == Seq::<u8>::empty());
    let wrote = opened.write(h, data);
    assert(wrote.datas[ino as int] =~= data);
    let written = wrote.close(h);
    assert(written.names == opened.names);
    assert(written.targets == opened.targets);
    opened.names.index_of_first_ensures(name);
    assert(opened.find(name) == Some(ino)) by {
        if v.find(name) is None {
            assert(opened.names[v.names.len() as int] == name);
            let i = opened.names.index_of_first(name)->0;
            if i < v.names.len() {
                assert(v.names[i] == name);
                assert(v.names.contains(name));
            }
        } else {
            assert(opened.names == v.names);
        }
    }
    let again = free_slot(written.open);
    lemma_free_slot(written.open);
    assert(h >= 2) by {
        if h < 2 {
            assert(v.open[h] is Some);
        }
    }
    assert(written.open[h] is None);
    assert(again == h) by {
        if again < h {
            assert(written.open[again] == v.open[again]);
        }
    }
    assert(written.wf()) by {
        assert forall|x: int| 2 <= x < written.open.len() implies match #[trigger] written.open[x] {
            Some(f) => f.kind == FileKind::Regular && f.inode < written.datas.len() && f.refs
                >= 1,
            None => true,
        } by {
            if x != h {
                assert(written.open[x] == v.open[x]);
            }
        }
        assert forall|x: int| 0 <= x < written.targets.len() implies #[trigger] written.targets[x]
            < written.datas.len() by {
            if x < v.targets.len() {
                assert(v.targets[x] < v.datas.len());
            }
        }
        if v.find(name) is None {
            lemma_push_unseen(v.names, name);
        }
    }
    let reopened = written.open_file(name, O_RDONLY);
    assert(reopened.datas[ino as int] == data);
    assert(reopened.read_result(again, data.len() as int) =~= data);
}

/// A link adds a name to a file, and removing a name takes one away: after
/// `link(a, b)` the file has one name more, and after `unlink(a)` the file,
/// still reachable as `b`, has as many as before, with its bytes unchanged.
pub proof fn lemma_link_then_unlink(v: FsView, a: Seq<u8>, b: Seq<u8>)
    requires
        v.wf(),
        v.can_link(a, b),
        v.nlinks[v.find(a)->0 as int] >= 1,
    ensures
        ({
            let ino = v.find(a)->0;
            let linked = v.link(a, b);
            let unlinked = linked.unlink(a);
            &&& linked.find(a) == Some(ino)
            &&& linked.find(b) == Some(ino)
            &&& linked.nlinks[ino as int] == v.nlinks[ino as int] + 1
            &&& unlinked.find(a) is None
            &&& unlinked.find(b) == Some(ino)
            &&& unlinked.nlinks[ino as int] == v.nlinks[ino as int]
            &&& unlinked.datas[ino as int] == v.datas[ino as int]
        }),
{
    let ino = v.find(a)->0;
    let linked = v.link(a, b);
    v.names.index_of_first_ensures(a);
    assert(v.targets[v.names.index_of_first(a)->0] < v.datas.len());
    v.names.index_of_first_ensures(b);
    linked.names.index_of_first_ensures(a);
    linked.names.index_of_first_ensures(b);
    let i = v.names.index_of_first(a)->0;
    assert(linked.names[i] == a);
    assert(linked.names[v.names.len() as int] == b);
    let i2 = linked.names.index_of_first(a)->0;
    assert(i2 == i) by {
        if i2 < i {
            assert(v.names[i2] == a);
        }
    }
    let j = linked.names.index_of_first(b)->0;
    assert(j == v.names.len()) by {
        if j < v.names.len() {
            assert(v.names[j] == b);
            assert(v.names.contains(b));
        }
    }
    let unlinked = linked.unlink(a);
    unlinked.names.index_of_first_ensures(a);
    unlinked.names.index_of_first_ensures(b);
    assert(unlinked.names =~= v.names.remove(i).push(b));
    assert(unlinked.targets =~= v.targets.remove(i).push(ino));
    if unlinked.names.contains(a) {
        let k = choose|k: int| 0 <= k < unlinked.names.len() && unlinked.names[k] == a;
        if k < i {
            assert(v.names[k] == a);
        } else {
            assert(v.names[k + 1] == a);
        }
        assert(false);
    }
    if unlinked.find(b) is None {
        assert(unlinked.names[v.names.len() - 1] == b);
    } else {
        let k = unlinked.names.index_of_first(b)->0;
        if k < v.names.len() - 1 {
            if k < i {
                assert(v.names[k] == b);
            } else {
                assert(v.names[k + 1] == b);
            }
            assert(v.names.contains(b));
        }
    }
}

/// The contents of a sequence of byte vectors.
pub open spec fn rows(v: Seq<Vec<u8>>) -> Seq<Seq<u8>> {
    v.map_values(|d: Vec<u8>| d@)
}

/// Whether two byte strings are equal.
pub fn bytes_eq(a: &Vec<u8>, b: &Vec<u8>) -> (same: bool)
    ensures
        same == (a@ == b@),
{
    if a.len() != b.len() {
        return false;
    }
    let n = a.len();
    let mut i: usize = 0;
    while i < n
        invariant
            n == a@.len(),
            n == b@.len(),
            i <= n,
            forall|j: int| 0 <= j < i ==> a@[j] == b@[j],
        decreases n - i,
    {
        if a[i] != b[i] {
            return false;
        }
        i = i + 1;
    }
    assert(a@ =~= b@);
    true
}

/// The file system, the console and the open files.
pub struct FileSystem {
    datas: Vec<Vec<u8>>,
    nlinks: Vec<u32>,
    names: Vec<Vec<u8>>,
    targets: Vec<usize>,
    open: Vec<Option<OpenFile>>,
    console_in: VecDeque<u8>,
    console_out: Vec<u8>,
}

impl View for FileSystem {
    type V = FsView;

    closed spec fn view(&self) -> FsView {
        FsView {
            datas: rows(self.datas@),
            nlinks: self.nlinks@,
            names: rows(self.names@),
            targets: self.targets@,
            open: self.open@,
            console_in: self.console_in@,
            console_out: self.console_out@,
        }
    }
}

impl FileSystem {
    /// The content of the file system is well formed.
    pub open spec fn wf(&self) -> bool {
        self@.wf()
    }

    /// An empty file system with a silent console.
    pub fn new() -> (fs: Self)
        ensures
            fs.wf(),
            fs@ == (FsView {
                datas: Seq::empty(),
                nlinks: Seq::empty(),
                names: Seq::empty(),
                targets: Seq::empty(),
                open: seq![Some(stdin_file()), Some(stdout_file())],
                console_in: Seq::empty(),
                console_out: Seq::empty(),
            }),
    {
        let mut open: Vec<Option<OpenFile>> = Vec::new();
        open.push(
            Some(
                OpenFile {
                    kind: FileKind::Stdin,
                    readable: true,
                    writable: false,
                    offset: 0,
                    inode: 0,
                    refs: 1,
                },
            ),
        );
        open.push(
            Some(
                OpenFile {
                    kind: FileKind::Stdout,
                    readable: false,
                    writable: true,
                    offset: 0,
                    inode: 0,
                    refs: 1,
                },
            ),
        );
        let fs = FileSystem {
            datas: Vec::new(),
            nlinks: Vec::new(),
            names: Vec::new(),
            targets: Vec::new(),
            open,
            console_in: VecDeque::new(),
            console_out: Vec::new(),
        };
        assert(fs@.datas =~= Seq::empty());
        assert(fs@.names =~= Seq::empty());
        assert(fs@.open =~= seq![Some(stdin_file()), Some(stdout_file())]);
        fs
    }

    /// The index of the directory entry `name`, if there is one.
    fn find_entry(&self, name: &Vec<u8>) -> (found: Option<usize>)
        ensures
            match found {
                Some(i) => self@.names.index_of_first(name@) == Some(i as int) && i
                    < self@.names.len(),
                None => self@.names.index_of_first(name@) is None,
            },
    {
        let n = self.names.len();
        let mut i: usize = 0;
        proof {
            self@.names.index_of_first_ensures(name@);
        }
        while i < n
            invariant
                n == self.names@.len(),
                i <= n,
                forall|j: int| 0 <= j < i ==> self@.names[j] != name@,
            decreases n - i,
        {
            if bytes_eq(&self.names[i], name) {
                proof {
                    assert(self@.names[i as int] == name@);
                    assert(self@.names.contains(name@));
                    self@.names.index_of_first_ensures(name@);
                }
                return Some(i);
            }
            i = i + 1;
        }
        proof {
            self@.names.index_of_first_ensures(name@);
        }
        None
    }

    /// The inode that `name` names, if any.
    pub fn find(&self, name: &Vec<u8>) -> (ino: Option<usize>)
        requires
            self.wf(),
        ensures
            ino == self@.find(name@),
            ino is Some ==> ino->0 < self@.datas.len(),
    {
        match self.find_entry(name) {
            Some(i) => {
                assert(self@.targets[i as int] < self@.datas.len());
                Some(self.targets[i])
            },
            None => None,
        }
    }

    /// Number of names of inode `ino`.
    pub fn get_link_num(&self, ino: usize) -> (n: u32)
        requires
            self.wf(),
            ino < self@.datas.len(),
        ensures
            n == self@.nlinks[ino as int],
    {
        self.nlinks[ino]
    }

    /// A copy of all bytes of inode `ino`.
    pub fn read_all(&self, ino: usize) -> (bytes: Vec<u8>)
        requires
            self.wf(),
            ino < self@.datas.len(),
        ensures
            bytes@ == self@.datas[ino as int],
    {
        copy_bytes(&self.datas[ino])
    }

    /// Opens the file `name`. With the create flag a missing file is made
    /// and an existing one emptied; the truncate flag empties the file too.
    /// Returns the handle of the new open file, which is the first free
    /// one; nothing, and no change, for unknown flags, a file that is
    /// missing and not to be created, or when handles or inodes have run out.
    pub fn open_file(&mut self, name: &Vec<u8>, flags: u32) -> (handle: Option<usize>)
        requires
            old(self).wf(),
        ensures
            final(self).wf(),
            match handle {
                Some(h) => old(self)@.can_open(name@, flags) && h == free_slot(old(self)@.open)
                    && final(self)@ == old(self)@.open_file(name@, flags),
                None => !old(self)@.can_open(name@, flags) && final(self)@ == old(self)@,
            },
    {
        if flags & !(O_WRONLY | O_RDWR | O_CREATE | O_TRUNC) != 0 {
            return None;
        }
        let h = first_free(&self.open);
        if h == usize::MAX {
            return None;
        }
        let found = self.find(name);
        let ino = match found {
            Some(ino) => {
                if flags & (O_CREATE | O_TRUNC) != 0 {
                    self.datas[ino] = Vec::new();
                    assert(self@.datas =~= old(self)@.datas.update(ino as int, Seq::empty()));
                }
                ino
            },
            None => {
                if flags & O_CREATE == 0 || self.datas.len() == usize::MAX {
                    return None;
                }
                let ino = self.datas.len();
                self.datas.push(Vec::new());
                self.nlinks.push(1);
                self.names.push(copy_bytes(name));
                self.targets.push(ino);
                proof {
                    assert(self@.datas =~= old(self)@.datas.push(Seq::empty()));
                    assert(self@.names =~= old(self)@.names.push(name@));
                    old(self)@.names.index_of_first_ensures(name@);
                    lemma_push_unseen(old(self)@.names, name@);
                }
                ino
            },
        };
        assert(self@ == old(self)@.prepared(name@, flags));
        let file = OpenFile {
            kind: FileKind::Regular,
            readable: flags & O_WRONLY == 0,
            writable: flags & (O_WRONLY | O_RDWR) != 0,
            offset: 0,
            inode: ino,
            refs: 1,
        };
        proof {
            lemma_free_slot(old(self)@.open);
        }
        if h < self.open.len() {
            self.open[h] = Some(file);
        } else {
            self.open.push(Some(file));
        }
        Some(h)
    }

    /// The open file with handle `h`, if there is one.
    pub fn open_file_at(&self, h: usize) -> (file: Option<OpenFile>)
        ensures
            file == (if self@.is_open(h as int) {
                self@.open[h as int]
            } else {
                None
            }),
    {
        if h < self.open.len() {
            self.open[h]
        } else {
            None
        }
    }

    /// Counts one more descriptor on the open file `h`. Returns false, and
    /// changes nothing, if the count is at its limit.
    pub fn dup(&mut self, h: usize) -> (ok: bool)
        requires
            old(self).wf(),
            old(self)@.is_open(h as int),
        ensures
            final(self).wf(),
            ok == (h < 2 || old(self)@.open[h as int]->0.refs < usize::MAX),
            final(self)@ == (if ok {
                old(self)@.dup(h as int)
            } else {
                old(self)@
            }),
    {
        if h < 2 {
            return true;
        }
        let f = self.open[h].unwrap();
        if f.refs == usize::MAX {
            return false;
        }
        self.open[h] = Some(OpenFile { refs: f.refs + 1, ..f });
        true
    }

    /// Takes one descriptor from the open file `h`; the open file goes with
    /// its last descriptor.
    pub fn close(&mut self, h: usize)
        requires
            old(self).wf(),
            old(self)@.is_open(h as int),
        ensures
            final(self).wf(),
            final(self)@ == old(self)@.close(h as int),
    {
        if h < 2 {
            return ;
        }
        let f = self.open[h].unwrap();
        if f.refs <= 1 {
            self.open[h] = None;
        } else {
            self.open[h] = Some(OpenFile { refs: f.refs - 1, ..f });
        }
    }

    /// Reads up to `len` bytes from the open file `h`: from the console what
    /// has been typed, from a regular file what lies at its offset, which
    /// moves on. Nothing, and no change, for a file that may not be read.
    pub fn read(&mut self, h: usize, len: usize) -> (bytes: Option<Vec<u8>>)
        requires
            old(self).wf(),
        ensures
            final(self).wf(),
            match bytes {
                Some(b) => old(self)@.can_read(h as int) && b@ == old(self)@.read_result(
                    h as int,
                    len as int,
                ) && final(self)@ == old(self)@.read(h as int, len as int),
                None => !old(self)@.can_read(h as int) && final(self)@ == old(self)@,
            },
    {
        if h >= self.open.len() {
            return None;
        }
        let f = match self.open[h] {
            Some(f) => f,
            None => {
                return None;
            },
        };
        if !f.readable {
            return None;
        }
        let mut out: Vec<u8> = Vec::new();
        if h == CONSOLE_IN {
            let avail = self.console_in.len();
            let n = if len < avail {
                len
            } else {
                avail
            };
            let mut i: usize = 0;
            while i < n
                invariant
                    i <= n,
                    n <= old(self).console_in@.len(),
                    out@ == old(self).console_in@.take(i as int),
                    self.console_in@ == old(self).console_in@.skip(i as int),
                    self.datas == old(self).datas,
                    self.nlinks == old(self).nlinks,
                    self.names == old(self).names,
                    self.targets == old(self).targets,
                    self.open == old(self).open,
                    self.console_out == old(self).console_out,
                decreases n - i,
            {
                let byte = self.console_in.pop_front();
                proof {
                    let q = old(self).console_in@;
                    assert(q.skip(i as int).subrange(1, q.skip(i as int).len() as int) =~= q.skip(
                        i as int + 1,
                    ));
                    assert(q.take(i as int + 1) =~= q.take(i as int).push(q[i as int]));
                }
                out.push(byte.unwrap());
                i = i + 1;
            }
            assert(old(self)@.read_result(h as int, len as int) =~= out@);
            Some(out)
        } else {
            assert(h >= 2);
            assert(f.kind == FileKind::Regular && f.inode < self@.datas.len());
            let size = self.datas[f.inode].len();
            if f.offset >= size {
                assert(old(self)@.read_result(h as int, len as int) =~= out@);
                assert(self@.open =~= old(self)@.read(h as int, len as int).open);
                return Some(out);
            }
            let n = if len < size - f.offset {
                len
            } else {
                size - f.offset
            };
            let mut i: usize = 0;
            while i < n
                invariant
                    *self == *old(self),
                    f.inode < self.datas@.len(),
                    size == self.datas@[f.inode as int]@.len(),
                    i <= n,
                    f.offset + n <= size,
                    out@ == self.datas@[f.inode as int]@.subrange(
                        f.offset as int,
                        f.offset + i,
                    ),
                decreases n - i,
            {
                out.push(self.datas[f.inode][f.offset + i]);
                proof {
                    let d = self.datas@[f.inode as int]@;
                    assert(d.subrange(f.offset as int, f.offset + i + 1) =~= d.subrange(
                        f.offset as int,
                        f.offset + i,
                    ).push(d[f.offset + i]));
                }
                i = i + 1;
            }
            assert(old(self)@.read_result(h as int, len as int) =~= out@);
            self.open[h] = Some(OpenFile { offset: f.offset + n, ..f });
            Some(out)
        }
    }

    /// Writes `data` to the open file `h`: to the console's output, or into
    /// a regular file at its offset, which moves on. Returns the number of
    /// bytes written; nothing, and no change, for a file that may not be
    /// written or an offset that would leave the machine word.
    pub fn write(&mut self, h: usize, data: &Vec<u8>) -> (written: Option<usize>)
        requires
            old(self).wf(),
        ensures
            final(self).wf(),
            match written {
                Some(n) => old(self)@.can_write(h as int, data@) && n == data@.len()
                    && final(self)@ == old(self)@.write(h as int, data@),
                None => !old(self)@.can_write(h as int, data@) && final(self)@ == old(self)@,
            },
    {
        if h >= self.open.len() {
            return None;
        }
        let f = match self.open[h] {
            Some(f) => f,
            None => {
                return None;
            },
        };
        if !f.writable {
            return None;
        }
        let len = data.len();
        if h == CONSOLE_OUT {
            let mut i: usize = 0;
            while i < len
                invariant
                    len == data@.len(),
                    i <= len,
                    self.console_out@ == old(self).console_out@ + data@.take(i as int),
                    self.datas == old(self).datas,
                    self.nlinks == old(self).nlinks,
                    self.names == old(self).names,
                    self.targets == old(self).targets,
                    self.open == old(self).open,
                    self.console_in == old(self).console_in,
                decreases len - i,
            {
                self.console_out.push(data[i]);
                assert(data@.take(i + 1) =~= data@.take(i as int).push(data@[i as int]));
                assert(old(self).console_out@ + data@.take(i as int + 1) =~= (old(
                    self,
                ).console_out@ + data@.take(i as int)).push(data@[i as int]));
                i = i + 1;
            }
            assert(data@.take(len as int) =~= data@);
            Some(len)
        } else {
            assert(h >= 2) by {
                assert(self@.open[0] == Some(stdin_file()));
            }
            assert(f.kind == FileKind::Regular && f.inode < self@.datas.len());
            if len > usize::MAX - f.offset {
                return None;
            }
            let size = self.datas[f.inode].len();
            let end = f.offset + len;
            let total = if size > end {
                size
            } else {
                end
            };
            let mut fresh: Vec<u8> = Vec::new();
            let mut i: usize = 0;
            let ghost want = write_at(self@.datas[f.inode as int], f.offset as int, data@);
            while i < total
                invariant
                    *self == *old(self),
                    f.inode < self.datas@.len(),
                    size == self.datas@[f.inode as int]@.len(),
                    len == data@.len(),
                    end == f.offset + len,
                    total == want.len(),
                    want == write_at(self.datas@[f.inode as int]@, f.offset as int, data@),
                    i <= total,
                    fresh@ == want.take(i as int),
                decreases total - i,
            {
                let byte = if f.offset <= i && i < end {
                    data[i - f.offset]
                } else if i < size {
                    self.datas[f.inode][i]
                } else {
                    0u8
                };
                fresh.push(byte);
                assert(want.take(i + 1) =~= want.take(i as int).push(want[i as int]));
                i = i + 1;
            }
            assert(want.take(total as int) =~= want);
            self.datas[f.inode] = fresh;
            self.open[h] = Some(OpenFile { offset: end, ..f });
            proof {
                assert(self@.datas =~= old(self)@.datas.update(f.inode as int, want));
            }
            Some(len)
        }
    }

    /// Whether nothing typed at the console waits to be read.
    pub fn console_is_silent(&self) -> (silent: bool)
        ensures
            silent == (self@.console_in.len() == 0),
    {
        self.console_in.len() == 0
    }

    /// Whether `new_name` can become another name of the file `old_name`.
    pub fn can_link(&self, old_name: &Vec<u8>, new_name: &Vec<u8>) -> (ok: bool)
        requires
            self.wf(),
        ensures
            ok == self@.can_link(old_name@, new_name@),
    {
        if bytes_eq(old_name, new_name) {
            return false;
        }
        match self.find(old_name) {
            None => false,
            Some(ino) => self.find(new_name).is_none() && self.nlinks[ino] < u32::MAX,
        }
    }

    /// Makes `new_name` another name of the file `old_name`. Returns false,
    /// and changes nothing, if the names are equal, the file is missing, the
    /// new name is taken, or the file has all the names it can count.
    pub fn link(&mut self, old_name: &Vec<u8>, new_name: &Vec<u8>) -> (ok: bool)
        requires
            old(self).wf(),
        ensures
            final(self).wf(),
            ok == old(self)@.can_link(old_name@, new_name@),
            final(self)@ == (if ok {
                old(self)@.link(old_name@, new_name@)
            } else {
                old(self)@
            }),
    {
        if bytes_eq(old_name, new_name) {
            return false;
        }
        let ino = match self.find(old_name) {
            Some(ino) => ino,
            None => {
                return false;
            },
        };
        if self.find(new_name).is_some() {
            return false;
        }
        if self.nlinks[ino] == u32::MAX {
            return false;
        }
        self.names.push(copy_bytes(new_name));
        self.targets.push(ino);
        self.nlinks[ino] = self.nlinks[ino] + 1;
        proof {
            assert(self@.names =~= old(self)@.names.push(new_name@));
            old(self)@.names.index_of_first_ensures(new_name@);
            lemma_push_unseen(old(self)@.names, new_name@);
        }
        true
    }

    /// Removes the name `name`; a file that loses its last name is emptied.
    /// Returns false, and changes nothing, if there is no such name.
    pub fn unlink(&mut self, name: &Vec<u8>) -> (ok: bool)
        requires
            old(self).wf(),
        ensures
            final(self).wf(),
            ok == old(self)@.find(name@) is Some,
            final(self)@ == (if ok {
                old(self)@.unlink(name@)
            } else {
                old(self)@
            }),
    {
        let i = match self.find_entry(name) {
            Some(i) => i,
            None => {
                return false;
            },
        };
        assert(self@.targets[i as int] < self@.datas.len());
        let ino = self.targets[i];
        self.names.remove(i);
        self.targets.remove(i);
        let left = self.nlinks[ino].saturating_sub(1);
        self.nlinks[ino] = left;
        if left == 0 {
            self.datas[ino] = Vec::new();
        }
        proof {
            let v = old(self)@;
            assert(self@.names =~= v.names.remove(i as int));
            if left == 0 {
                assert(self@.datas =~= v.datas.update(ino as int, Seq::empty()));
            } else {
                assert(self@.datas =~= v.datas);
            }
            assert forall|a: int, b: int|
                0 <= a < self@.names.len() && 0 <= b < self@.names.len() && a
                    != b implies self@.names[a] != self@.names[b] by {
                let a0 = if a < i {
                    a
                } else {
                    a + 1
                };
                let b0 = if b < i {
                    b
                } else {
                    b + 1
                };
                assert(self@.names[a] == v.names[a0]);
                assert(self@.names[b] == v.names[b0]);
            }
            assert forall|k: int| 0 <= k < self@.targets.len() implies #[trigger] self@.targets[k]
                < self@.datas.len() by {
                let k0 = if k < i {
                    k
                } else {
                    k + 1
                };
                assert(self@.targets[k] == v.targets[k0]);
            }
        }
        true
    }

    /// What `fstat` reports of the open file `h`: the number of its inode
    /// and the number of its names. Nothing for the console or a handle
    /// that is not open.
    pub fn stat(&self, h: usize) -> (stat: Option<Stat>)
        requires
            self.wf(),
        ensures
            match stat {
                Some(st) => self@.is_open(h as int) && h >= 2 && st.dev == 0 && st.ino
                    == self@.open[h as int]->0.inode && st.mode == MODE_FILE && st.nlink
                    == self@.nlinks[self@.open[h as int]->0.inode as int] && st.pad@ == Seq::new(
                    7,
                    |i: int| 0u64,
                ),
                None => !(self@.is_open(h as int) && h >= 2),
            },
    {
        if h < 2 || h >= self.open.len() {
            return None;
        }
        match self.open[h] {
            None => None,
            Some(f) => {
                let st = Stat {
                    dev: 0,
                    ino: f.inode as u64,
                    mode: MODE_FILE,
                    nlink: self.nlinks[f.inode],
                    pad: [0u64; 7],
                };
                assert(st.pad@ =~= Seq::new(7, |i: int| 0u64));
                Some(st)
            },
        }
    }

    /// Hands the console bytes that were typed.
    pub fn push_input(&mut self, bytes: &Vec<u8>)
        requires
            old(self).wf(),
        ensures
            final(self).wf(),
            final(self)@ == (FsView { console_in: old(self)@.console_in + bytes@, ..old(self)@ }),
    {
        let n = bytes.len();
        let mut i: usize = 0;
        while i < n
            invariant
                n == bytes@.len(),
                i <= n,
                self.console_in@ == old(self).console_in@ + bytes@.take(i as int),
                self.datas == old(self).datas,
                self.nlinks == old(self).nlinks,
                self.names == old(self).names,
                self.targets == old(self).targets,
                self.open == old(self).open,
                self.console_out == old(self).console_out,
            decreases n - i,
        {
            self.console_in.push_back(bytes[i]);
            assert(old(self).console_in@ + bytes@.take(i as int + 1) =~= (old(self).console_in@
                + bytes@.take(i as int)).push(bytes@[i as int]));
            i = i + 1;
        }
        assert(bytes@.take(n as int) =~= bytes@);
    }

    /// Takes what has been written to the console since the last call.
    pub fn take_output(&mut self) -> (bytes: Vec<u8>)
        requires
            old(self).wf(),
        ensures
            final(self).wf(),
            bytes@ == old(self)@.console_out,
            final(self)@ == (FsView { console_out: Seq::empty(), ..old(self)@ }),
    {
        let mut out: Vec<u8> = Vec::new();
        std::mem::swap(&mut self.console_out, &mut out);
        out
    }
}

/// A name that is not in a list without duplicates can be added to it.
proof fn lemma_push_unseen(names: Seq<Seq<u8>>, name: Seq<u8>)
    requires
        names.no_duplicates(),
        !names.contains(name),
    ensures
        names.push(name).no_duplicates(),
{
    let after = names.push(name);
    assert forall|a: int, b: int|
        0 <= a < after.len() && 0 <= b < after.len() && a != b implies after[a] != after[b] by {
        if a < names.len() && b < names.len() {
            assert(names[a] != names[b]);
        } else if a < names.len() {
            assert(names[a] != name);
        } else {
            assert(names[b] != name);
        }
    }
}

/// The bytes of a `Stat` in memory.
pub fn encode_stat(st: &Stat) -> (bytes: Vec<u8>)
    requires
        st.dev == 0,
        st.mode == MODE_FILE,
        st.pad@ == Seq::new(7, |i: int| 0u64),
    ensures
        bytes@ == stat_bytes(st.ino, st.nlink),
        bytes@.len() == 80,
{
    let mut out = u64_to_le_bytes(st.dev);
    let mut ino = u64_to_le_bytes(st.ino);
    let mut mode = u32_to_le_bytes(st.mode);
    let mut nlink = u32_to_le_bytes(st.nlink);
    out.append(&mut ino);
    out.append(&mut mode);
    out.append(&mut nlink);
    let mut i: usize = 0;
    let ghost head = out@;
    while i < 56
        invariant
            i <= 56,
            out@ == head + Seq::new(i as nat, |k: int| 0u8),
        decreases 56 - i,
    {
        out.push(0u8);
        assert(head + Seq::new((i + 1) as nat, |k: int| 0u8) =~= (head + Seq::new(
            i as nat,
            |k: int| 0u8,
        )).push(0u8));
        i = i + 1;
    }
    out
}

} // verus!
