//! System calls on files.

use vstd::prelude::*;
use crate::fs::{
    CONSOLE_IN, encode_stat, lemma_read_is_short, lemma_write_then_read, O_CREATE, O_RDONLY,
    O_WRONLY, stat_bytes,
};
use crate::kernel::{Kernel, lemma_keeps_running, readied, scheduled, sleepers};
use crate::mm::{page_of, string_at};
use crate::syscall::sync::NOT_YET;
use crate::table::{first_free, free_slot, lemma_free_slot, lemma_put_then_free, put};
use crate::task::process::ProcessControlBlockInner;

verus! {

/// The handle that descriptor `fd` of a process points to, if it is in use.
pub open spec fn handle_of(inner: ProcessControlBlockInner, fd: usize) -> Option<usize> {
    if fd < inner.fd_table@.len() {
        inner.fd_table@[fd as int]
    } else {
        None
    }
}

/// `new` and `old` agree in everything but the file system.
pub open spec fn only_files_changed(old: Kernel, new: Kernel) -> bool {
    &&& new.context == old.context
    &&& new.now_us == old.now_us
    &&& new.pid_allocator == old.pid_allocator
    &&& new.timers == old.timers
    &&& new.processes == old.processes
    &&& new.task_manager == old.task_manager
    &&& new.current == old.current
}

/// The handle that descriptor `fd` of the caller points to.
fn handle_at(k: &Kernel, fd: usize) -> (handle: Option<usize>)
    requires
        k.wf(),
        k.current is Some,
    ensures
        handle == handle_of(k.cur_proc().inner, fd),
{
    let pid = k.current.as_ref().unwrap().pid;
    let inner = &k.processes[pid].as_ref().unwrap().inner;
    if fd < inner.fd_table.len() {
        inner.fd_table[fd]
    } else {
        None
    }
}

/// What `sys_write(fd, buf, len)` with result `code` makes of the kernel `pre`.
pub open spec fn written(pre: Kernel, post: Kernel, fd: usize, buf: usize, len: usize, code: isize) -> bool {
    &&& only_files_changed(pre, post)
    &&& ({
        let inner = pre.cur_proc().inner;
        let mem = inner.memory_set@;
        let data = mem.bytes_at(buf as int, len as int);
        match handle_of(inner, fd) {
            Some(h) => if len <= isize::MAX && mem.accessible(buf as int, len as int) && pre.fs@.can_write(h as int, data) {
                code == len && post.fs@ == pre.fs@.write(h as int, data)
            } else {
                code == -1 && post.fs@ == pre.fs@
            },
            None => code == -1 && post.fs@ == pre.fs@,
        }
    })
}

/// Writes the `len` bytes at address `buf` of the caller's address space to
/// the file behind descriptor `fd`. Returns `len`; or -1, changing nothing,
/// if the descriptor is not in use, the bytes do not lie in framed pages,
/// or the file may not be written.
pub fn sys_write(k: &mut Kernel, fd: usize, buf: usize, len: usize) -> (code: isize)
    requires
        old(k).wf(),
        old(k).current is Some,
    ensures
        final(k).wf(),
        written(*old(k), *final(k), fd, buf, len, code),
{
    let h = match handle_at(k, fd) {
        Some(h) => h,
        None => {
            return -1;
        },
    };
    if len > isize::MAX as usize {
        return -1;
    }
    let pid = k.current.as_ref().unwrap().pid;
    let data = match k.processes[pid].as_ref().unwrap().inner.memory_set.read_bytes(buf, len) {
        Some(data) => data,
        None => {
            return -1;
        },
    };
    match k.fs.write(h, &data) {
        Some(n) => n as isize,
        None => -1,
    }
}

/// What `sys_read(fd, buf, len)` with result `code` makes of the kernel `pre`.
pub open spec fn was_read(pre: Kernel, post: Kernel, fd: usize, buf: usize, len: usize, code: isize) -> bool {
    &&& post.context == pre.context
    &&& post.now_us == pre.now_us
    &&& post.pid_allocator == pre.pid_allocator
    &&& post.timers == pre.timers
    &&& ({
        let inner = pre.cur_proc().inner;
        let mem = inner.memory_set@;
        let bad = handle_of(inner, fd) is None || len > isize::MAX || !mem.accessible(
            buf as int,
            len as int,
        ) || !pre.fs@.can_read(handle_of(inner, fd)->0 as int);
        let h = handle_of(inner, fd)->0 as int;
        if bad {
            code == -1 && post.same_state(pre)
        } else if h == CONSOLE_IN && len > 0 && pre.fs@.console_in.len() == 0 {
            &&& code == NOT_YET
            &&& post.fs@ == pre.fs@
            &&& post.processes == pre.processes
            &&& scheduled(
                pre.task_manager@.push(readied(pre.current->0)),
                post.task_manager@,
                post.current,
                pre.now_us,
            )
        } else {
            let data = pre.fs@.read_result(h, len as int);
            &&& code == data.len()
            &&& post.fs@ == pre.fs@.read(h, len as int)
            &&& post.cur_proc().inner.memory_set@ == mem.with_bytes(buf as int, data)
            &&& post.cur_proc().inner.same_but_memory(inner)
            &&& post.same_but_process(pre, pre.current->0.pid as int)
            &&& post.current == pre.current
            &&& post.task_manager == pre.task_manager
        }
    })
}

/// Reads up to `len` bytes from the file behind descriptor `fd` to address
/// `buf` of the caller's address space.
///
/// Returns -1, changing nothing, if the descriptor is not in use, the file
/// may not be read, or the `len` bytes at `buf` do not lie in framed pages.
/// A read of the console with nothing typed yields and returns -2, to be
/// made again. Otherwise the bytes read are stored at `buf` and the call
/// returns their number.
pub fn sys_read(k: &mut Kernel, fd: usize, buf: usize, len: usize) -> (code: isize)
    requires
        old(k).wf(),
        old(k).current is Some,
    ensures
        final(k).wf(),
        was_read(*old(k), *final(k), fd, buf, len, code),
{
    let h = match handle_at(k, fd) {
        Some(h) => h,
        None => {
            return -1;
        },
    };
    if len > isize::MAX as usize {
        return -1;
    }
    let pid = k.current.as_ref().unwrap().pid;
    if !k.processes[pid].as_ref().unwrap().inner.memory_set.is_accessible(buf, len) {
        return -1;
    }
    let file = match k.fs.open_file_at(h) {
        Some(file) => file,
        None => {
            return -1;
        },
    };
    if !file.readable {
        return -1;
    }
    if h == CONSOLE_IN && len > 0 && k.fs.console_is_silent() {
        k.suspend_current_and_run_next();
        return NOT_YET;
    }
    let data = k.fs.read(h, len).unwrap();
    proof {
        let got = old(k).fs@.read_result(h as int, len as int);
        lemma_read_is_short(old(k).fs@, h as int, len as int);
        assert(old(k).cur_proc().inner.memory_set@.accessible(buf as int, got.len() as int));
    }
    let stored = k.write_user(buf, &data);
    assert(stored);
    data.len() as isize
}

/// What `sys_open(path, flags)` with result `code` makes of the kernel `pre`.
pub open spec fn opened(pre: Kernel, post: Kernel, path: usize, flags: u32, code: isize) -> bool {
    &&& post.context == pre.context
    &&& post.now_us == pre.now_us
    &&& post.pid_allocator == pre.pid_allocator
    &&& post.timers == pre.timers
    &&& post.current == pre.current
    &&& post.task_manager == pre.task_manager
    &&& ({
        let inner = pre.cur_proc().inner;
        let name = string_at(inner.memory_set@, path as int);
        let fd = free_slot(inner.fd_table@);
        if name is None || fd > isize::MAX || !pre.fs@.can_open(name->0, flags) {
            code == -1 && post.same_state(pre)
        } else {
            let after = post.cur_proc().inner;
            &&& code == fd
            &&& post.fs@ == pre.fs@.open_file(name->0, flags)
            &&& handle_of(after, fd as usize) == Some(free_slot(pre.fs@.open) as usize)
            &&& free_slot(pre.fs@.open) <= usize::MAX
            &&& after.fd_table@ == put(inner.fd_table@, fd, free_slot(pre.fs@.open) as usize)
            &&& after.same_but_files(inner)
            &&& post.same_but_process(pre, pre.current->0.pid as int)
        }
    })
}

/// Opens the file whose name is the string at address `path` of the
/// caller's address space, with the given flags, on the caller's first
/// free descriptor, which then points to the first free handle. Returns
/// the descriptor; or -1, changing nothing, if there is no such string, the
/// flags are unknown, the file is missing and not to be created, or
/// descriptors, handles or inodes have run out.
pub fn sys_open(k: &mut Kernel, path: usize, flags: u32) -> (code: isize)
    requires
        old(k).wf(),
        old(k).current is Some,
    ensures
        final(k).wf(),
        opened(*old(k), *final(k), path, flags, code),
{
    let name = match k.read_user_str(path) {
        Some(name) => name,
        None => {
            return -1;
        },
    };
    let pid = k.current.as_ref().unwrap().pid;
    let fd = first_free(&k.processes[pid].as_ref().unwrap().inner.fd_table);
    if fd > isize::MAX as usize {
        return -1;
    }
    let h = match k.fs.open_file(&name, flags) {
        Some(h) => h,
        None => {
            return -1;
        },
    };
    let inner = &mut k.processes[pid].as_mut().unwrap().inner;
    proof {
        lemma_free_slot(inner.fd_table@);
    }
    let slot = inner.alloc_fd();
    inner.fd_table[slot] = Some(h);
    proof {
        assert(inner.fd_table@ =~= put(
            old(k).cur_proc().inner.fd_table@,
            fd as int,
            free_slot(old(k).fs@.open) as usize,
        ));
        lemma_keeps_running(old(k).processes@, k.processes@, k.task_manager@);
        lemma_keeps_running(old(k).processes@, k.processes@, sleepers(k.timers@));
    }
    fd as isize
}

/// What `sys_close(fd)` with result `code` makes of the kernel `pre`.
pub open spec fn closed(pre: Kernel, post: Kernel, fd: usize, code: isize) -> bool {
    &&& post.context == pre.context
    &&& post.now_us == pre.now_us
    &&& post.pid_allocator == pre.pid_allocator
    &&& post.timers == pre.timers
    &&& post.current == pre.current
    &&& post.task_manager == pre.task_manager
    &&& ({
        let inner = pre.cur_proc().inner;
        match handle_of(inner, fd) {
            None => code == -1 && post.same_state(pre),
            Some(h) => {
                let after = post.cur_proc().inner;
                &&& code == 0
                &&& after.fd_table@ == inner.fd_table@.update(fd as int, None)
                &&& after.same_but_files(inner)
                &&& post.same_but_process(pre, pre.current->0.pid as int)
                &&& post.fs@ == (if pre.fs@.is_open(h as int) {
                    pre.fs@.close(h as int)
                } else {
                    pre.fs@
                })
            },
        }
    })
}

/// Closes descriptor `fd` of the caller: the descriptor becomes free, and
/// its open file, if the handle is open, counts one descriptor less.
/// Returns 0; or -1, changing nothing, if the descriptor is not in use.
pub fn sys_close(k: &mut Kernel, fd: usize) -> (code: isize)
    requires
        old(k).wf(),
        old(k).current is Some,
    ensures
        final(k).wf(),
        closed(*old(k), *final(k), fd, code),
{
    let h = match handle_at(k, fd) {
        Some(h) => h,
        None => {
            return -1;
        },
    };
    let pid = k.current.as_ref().unwrap().pid;
    k.processes[pid].as_mut().unwrap().inner.fd_table[fd] = None;
    proof {
        lemma_keeps_running(old(k).processes@, k.processes@, k.task_manager@);
        lemma_keeps_running(old(k).processes@, k.processes@, sleepers(k.timers@));
    }
    if k.fs.open_file_at(h).is_some() {
        k.fs.close(h);
    }
    0
}

/// Stores what is known of the file behind descriptor `fd` at address `st`
/// of the caller's address space, as a `Stat`: its inode's number and the
/// number of its names. Returns 0; or -1, changing nothing, if the
/// descriptor is not in use, points to the console or to no open file, or
/// the 80 bytes at `st` do not lie in framed pages.
pub fn sys_fstat(k: &mut Kernel, fd: usize, st: usize) -> (code: isize)
    requires
        old(k).wf(),
        old(k).current is Some,
    ensures
        final(k).wf(),
        ({
            let inner = old(k).cur_proc().inner;
            let mem = inner.memory_set@;
            let fs = old(k).fs@;
            let h = handle_of(inner, fd);
            if h is None || h->0 < 2 || !fs.is_open(h->0 as int) || !mem.accessible(st as int, 80) {
                code == -1 && *final(k) == *old(k)
            } else {
                let file = fs.open[h->0 as int]->0;
                &&& code == 0
                &&& final(k).cur_proc().inner.memory_set@ == mem.with_bytes(
                    st as int,
                    stat_bytes(file.inode as u64, fs.nlinks[file.inode as int]),
                )
                &&& final(k).cur_proc().inner.same_but_memory(inner)
                &&& final(k).same_but_process(*old(k), old(k).current->0.pid as int)
                &&& final(k).same_devices(*old(k))
                &&& final(k).current == old(k).current
                &&& final(k).task_manager == old(k).task_manager
            }
        }),
{
    let h = match handle_at(k, fd) {
        Some(h) => h,
        None => {
            return -1;
        },
    };
    let stat = match k.fs.stat(h) {
        Some(stat) => stat,
        None => {
            return -1;
        },
    };
    let bytes = encode_stat(&stat);
    if k.write_user(st, &bytes) {
        0
    } else {
        -1
    }
}

/// Makes the string at address `new_name` another name of the file named
/// by the string at address `old_name`. Returns 0; or -1, changing
/// nothing, if one of the strings is missing, the names are equal, the
/// file is missing, the new name is taken, or the file can count no more
/// names.
pub fn sys_linkat(k: &mut Kernel, old_name: usize, new_name: usize) -> (code: isize)
    requires
        old(k).wf(),
        old(k).current is Some,
    ensures
        final(k).wf(),
        only_files_changed(*old(k), *final(k)),
        ({
            let mem = old(k).cur_proc().inner.memory_set@;
            let a = string_at(mem, old_name as int);
            let b = string_at(mem, new_name as int);
            if a is Some && b is Some && old(k).fs@.can_link(a->0, b->0) {
                code == 0 && final(k).fs@ == old(k).fs@.link(a->0, b->0)
            } else {
                code == -1 && final(k).fs@ == old(k).fs@
            }
        }),
{
    let a = match k.read_user_str(old_name) {
        Some(a) => a,
        None => {
            return -1;
        },
    };
    let b = match k.read_user_str(new_name) {
        Some(b) => b,
        None => {
            return -1;
        },
    };
    if k.fs.link(&a, &b) {
        0
    } else {
        -1
    }
}

/// Removes the name that is the string at address `name`; a file that
/// loses its last name is emptied. Returns 0; or -1, changing nothing, if
/// the string or the name is missing.
pub fn sys_unlinkat(k: &mut Kernel, name: usize) -> (code: isize)
    requires
        old(k).wf(),
        old(k).current is Some,
    ensures
        final(k).wf(),
        only_files_changed(*old(k), *final(k)),
        ({
            let mem = old(k).cur_proc().inner.memory_set@;
            let a = string_at(mem, name as int);
            if a is Some && old(k).fs@.find(a->0) is Some {
                code == 0 && final(k).fs@ == old(k).fs@.unlink(a->0)
            } else {
                code == -1 && final(k).fs@ == old(k).fs@
            }
        }),
{
    let a = match k.read_user_str(name) {
        Some(a) => a,
        None => {
            return -1;
        },
    };
    if k.fs.unlink(&a) {
        0
    } else {
        -1
    }
}

/// A regular file gives back what was written to it. When a thread opens
/// a file for writing, creating it; writes `n` bytes from address `src`;
/// closes the file; opens it again for reading; and reads `n` bytes to a
/// buffer at `dst` that lies in framed pages, then, if the two opens and the
/// write succeed, the close returns 0, the second open gives the same
/// descriptor, the read returns `n`, and the buffer at `dst` holds the
/// bytes that lay at `src`.
pub proof fn lemma_file_round_trip(
    k0: Kernel,
    k1: Kernel,
    k2: Kernel,
    k3: Kernel,
    k4: Kernel,
    k5: Kernel,
    path: usize,
    src: usize,
    dst: usize,
    n: usize,
    fd: isize,
    w: isize,
    c: isize,
    fd2: isize,
    r: isize,
)
    requires
        k0.wf(),
        k0.current is Some,
        k4.wf(),
        opened(k0, k1, path, O_CREATE | O_WRONLY, fd),
        fd >= 0,
        written(k1, k2, fd as usize, src, n, w),
        w >= 0,
        closed(k2, k3, fd as usize, c),
        opened(k3, k4, path, O_RDONLY, fd2),
        fd2 >= 0,
        k4.cur_proc().inner.memory_set@.accessible(dst as int, n as int),
        was_read(k4, k5, fd2 as usize, dst, n, r),
    ensures
        w == n,
        c == 0,
        fd2 == fd,
        r == n,
        k5.cur_proc().inner.memory_set@.bytes_at(dst as int, n as int)
            == k0.cur_proc().inner.memory_set@.bytes_at(src as int, n as int),
{
    let mem = k0.cur_proc().inner.memory_set@;
    let data = mem.bytes_at(src as int, n as int);
    let name = string_at(mem, path as int)->0;
    let fs0 = k0.fs@;
    let h = free_slot(fs0.open);
    lemma_write_then_read(fs0, name, data);
    lemma_put_then_free(k0.cur_proc().inner.fd_table@, h as usize);
    assert(k1.cur_proc().inner.memory_set@ == mem);
    assert(k2.cur_proc().inner.memory_set@ == mem);
    assert(k3.cur_proc().inner.memory_set@ == mem);
    assert(k3.fs@ == fs0.open_file(name, O_CREATE | O_WRONLY).write(h, data).close(h));
    assert(free_slot(k3.cur_proc().inner.fd_table@) == fd);
    let mem4 = k4.cur_proc().inner.memory_set@;
    let mem5 = k5.cur_proc().inner.memory_set@;
    assert(mem5 == mem4.with_bytes(dst as int, data));
    assert forall|i: int| 0 <= i < n implies mem5.byte_at(dst + i) == data[i] by {
        assert(mem4.is_framed(page_of(dst + i)));
        mem4.lemma_with_bytes(dst as int, data, dst + i);
        mem4.lemma_same_layout(mem5, page_of(dst + i));
    }
    assert(mem5.bytes_at(dst as int, n as int) =~= data);
}

} // verus!
