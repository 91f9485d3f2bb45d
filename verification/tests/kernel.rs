use kernel_core::config::{
    DEADLOCK, KERNEL_STACK_SIZE, MAX_THREADS, PAGE_SIZE, TRAMPOLINE, TRAP_CONTEXT, USER_STACK_SIZE,
};
use kernel_core::fs::{O_CREATE, O_RDONLY, O_WRONLY};
use kernel_core::kernel::{kernel_stack_position, Kernel, INITPROC};
use kernel_core::loader::parse_elf;
use kernel_core::mm::{PERM_R, PERM_U, PERM_W};
use kernel_core::syscall::fs::{
    sys_close, sys_fstat, sys_linkat, sys_open, sys_read, sys_unlinkat, sys_write,
};
use kernel_core::syscall::process::{
    encode_task_info, encode_time_val, sys_exec, sys_exit, sys_fork, sys_get_time, sys_getpid,
    sys_mmap, sys_munmap, sys_set_priority, sys_spawn, sys_task_info, sys_waitpid, sys_yield,
    TaskInfo, TimeVal,
};
use kernel_core::syscall::sync::{
    sys_condvar_create, sys_condvar_signal, sys_condvar_wait, sys_enable_deadlock_detect,
    sys_mutex_create, sys_mutex_lock, sys_mutex_unlock, sys_semaphore_create, sys_semaphore_down,
    sys_semaphore_up, sys_sleep, NOT_YET,
};
use kernel_core::syscall::thread::{sys_gettid, sys_thread_create};
use kernel_core::task::process::{KernelContext, ProcessControlBlock, STDIN, STDOUT};
use kernel_core::task::task::TaskStatus;

const ENTRY: usize = 0x10000;
const STACK_TOP: usize = 0x14000;
const SCRATCH: usize = 0x12100;

fn elf(entry: u64, vaddr: u64, data: &[u8], memsz: u64, flags: u32) -> Vec<u8> {
    let mut b = vec![0u8; 64];
    b[0] = 0x7f;
    b[1] = b'E';
    b[2] = b'L';
    b[3] = b'F';
    b[4] = 2;
    b[5] = 1;
    b[24..32].copy_from_slice(&entry.to_le_bytes());
    b[32..40].copy_from_slice(&64u64.to_le_bytes());
    b[54..56].copy_from_slice(&56u16.to_le_bytes());
    b[56..58].copy_from_slice(&1u16.to_le_bytes());
    b.extend_from_slice(&1u32.to_le_bytes());
    b.extend_from_slice(&flags.to_le_bytes());
    b.extend_from_slice(&120u64.to_le_bytes());
    b.extend_from_slice(&vaddr.to_le_bytes());
    b.extend_from_slice(&vaddr.to_le_bytes());
    b.extend_from_slice(&(data.len() as u64).to_le_bytes());
    b.extend_from_slice(&memsz.to_le_bytes());
    b.extend_from_slice(&4096u64.to_le_bytes());
    b.extend_from_slice(data);
    b
}

fn context() -> KernelContext {
    KernelContext { kernel_satp: 0x8000, trap_handler: 0x9000, trap_return: 0xa000 }
}

fn boot() -> Kernel {
    let mut k = Kernel::new(context());
    let image = parse_elf(&elf(ENTRY as u64, 0x10000, b"init", 0x1000, 5)).unwrap();
    assert_eq!(k.add_initproc(&image), 0);
    k.schedule();
    assert!(k.current.is_some());
    k
}

fn store(k: &mut Kernel, name: &str, bytes: &[u8]) {
    let h = k.fs.open_file(&name.as_bytes().to_vec(), O_CREATE | O_WRONLY).unwrap();
    assert_eq!(k.fs.write(h, &bytes.to_vec()), Some(bytes.len()));
    k.fs.close(h);
}

fn put_str(k: &mut Kernel, at: usize, s: &str) -> usize {
    let mut bytes = s.as_bytes().to_vec();
    bytes.push(0);
    assert!(k.write_user(at, &bytes));
    at
}

fn peek(k: &Kernel, pid: usize, at: usize, len: usize) -> Option<Vec<u8>> {
    k.processes[pid].as_ref().unwrap().inner.memory_set.read_bytes(at, len)
}

fn cur(k: &Kernel) -> (usize, usize) {
    let t = k.current.as_ref().unwrap();
    (t.pid, t.tid)
}

#[test]
fn boot_starts_the_initial_process() {
    let k = boot();
    assert_eq!(INITPROC, 0);
    assert_eq!(cur(&k), (0, 0));
    let t = k.current.as_ref().unwrap();
    assert!(t.task_status == TaskStatus::Running);
    assert_eq!(t.trap_cx.sepc, ENTRY);
    assert_eq!(t.trap_cx.x[2], STACK_TOP);
    assert_eq!(t.trap_cx.kernel_sp, TRAMPOLINE);
    assert_eq!(t.trap_cx.kernel_satp, 0x8000);
    assert_eq!(t.trap_cx.trap_handler, 0x9000);
    assert_eq!(t.task_cx.ra, 0xa000);
    assert_eq!(t.task_cx.sp, TRAMPOLINE);
    assert_eq!(t.stride, 65536);
    let p = k.processes[0].as_ref().unwrap();
    assert_eq!(p.getpid(), 0);
    assert!(!p.inner.is_zombie);
    assert_eq!(p.inner.parent, None);
    assert_eq!(p.inner.fd_table, vec![Some(STDIN), Some(STDOUT), Some(STDOUT)]);
    assert_eq!(p.inner.thread_count(), 1);
    assert_eq!(p.inner.get_task(0).ustack_base, STACK_TOP - USER_STACK_SIZE);
    assert_eq!(p.inner.get_user_token(), 0);
    assert_eq!(p.inner.mutex_ledger.thread_count(), 1);
    assert_eq!(p.inner.mutex_ledger.resource_count(), 0);
    assert_eq!(p.inner.semaphore_ledger.thread_count(), 1);
    assert_eq!(p.inner.check_deadlock_mutex(), 0);
    assert_eq!(p.inner.check_deadlock_semaphore(), 0);
    assert!(!p.inner.deadlock_detect);
    assert_eq!(sys_getpid(&k), 0);
    assert_eq!(sys_gettid(&k), 0);
    assert_eq!(k.current_user_token(), 0);
    assert_eq!(peek(&k, 0, 0x10000, 5), Some(b"init\0".to_vec()));
}

#[test]
fn boot_refuses_a_malformed_image() {
    let mut k = Kernel::new(context());
    let image = parse_elf(&elf(0, TRAMPOLINE as u64, b"", 0x1000, 5)).unwrap();
    assert_eq!(k.add_initproc(&image), -1);
    assert_eq!(k.processes.len(), 0);
    assert_eq!(k.task_manager.len(), 0);
}

#[test]
fn descriptors_and_thread_identifiers_are_recycled() {
    let mut k = boot();
    let inner = k.processes[0].as_mut().unwrap().inner_exclusive_access();
    assert_eq!(inner.alloc_fd(), 3);
    assert_eq!(inner.fd_table.len(), 4);
    assert_eq!(inner.alloc_fd(), 3);
    inner.fd_table[3] = Some(STDOUT);
    inner.fd_table[1] = None;
    assert_eq!(inner.alloc_fd(), 1);
    assert_eq!(inner.fd_table.len(), 4);
    inner.fd_table[1] = Some(STDOUT);
    assert_eq!(inner.alloc_fd(), 4);
    assert_eq!(inner.fd_table, vec![Some(STDIN), Some(STDOUT), Some(STDOUT), Some(STDOUT), None]);
    assert_eq!(inner.alloc_tid(), 1);
    assert_eq!(inner.alloc_tid(), 2);
    inner.dealloc_tid(1);
    assert_eq!(inner.alloc_tid(), 1);
    inner.dealloc_tid(2);
    inner.dealloc_tid(1);
    assert_eq!(inner.thread_count(), 1);
    assert_eq!(k.processes[0].as_ref().unwrap().getpid(), 0);
}

#[test]
fn kernel_process_is_bare() {
    let p = ProcessControlBlock::kernel_process(9);
    assert_eq!(p.getpid(), 9);
    assert_eq!(p.inner.thread_count(), 0);
    assert_eq!(p.inner.fd_table.len(), 0);
    assert_eq!(p.inner.memory_set.area_count(), 0);
    assert_eq!(p.inner.get_user_token(), 9);
}

#[test]
fn kernel_stacks_lie_below_the_trampoline() {
    let step = KERNEL_STACK_SIZE + PAGE_SIZE;
    assert_eq!(kernel_stack_position(0, 0), Some(TRAMPOLINE));
    assert_eq!(kernel_stack_position(0, 1), Some(TRAMPOLINE - step));
    assert_eq!(kernel_stack_position(2, 3), Some(TRAMPOLINE - (2 * MAX_THREADS + 3) * step));
    assert_eq!(kernel_stack_position(0, MAX_THREADS), None);
    assert_eq!(kernel_stack_position(usize::MAX / 2, 0), None);
}

#[test]
fn mmap_refuses_overlap() {
    let mut k = boot();
    assert_eq!(sys_mmap(&mut k, 0x10000000, 4096, 3), 0);
    assert_eq!(sys_mmap(&mut k, 0x10000000, 4096, 3), -1);
    assert_eq!(sys_munmap(&mut k, 0x10000000, 4096), 0);
    assert_eq!(sys_munmap(&mut k, 0x10000000, 4096), -1);
}

#[test]
fn mmap_then_munmap_restores_the_address_space() {
    let mut k = boot();
    let before = k.processes[0].as_ref().unwrap().inner.memory_set.area_count();
    assert_eq!(sys_mmap(&mut k, 0x2000_0000, 3 * 4096 + 1, 1), 0);
    let ms = &k.processes[0].as_ref().unwrap().inner.memory_set;
    assert_eq!(ms.area_count(), before + 1);
    assert_eq!(ms.area(before).start_vpn(), 0x20000);
    assert_eq!(ms.area(before).end_vpn(), 0x20004);
    assert_eq!(ms.area(before).map_perm(), PERM_U | PERM_R);
    assert_eq!(peek(&k, 0, 0x2000_0000, 4 * 4096), Some(vec![0u8; 4 * 4096]));
    assert_eq!(sys_munmap(&mut k, 0x2000_0000, 3 * 4096 + 1), 0);
    let ms = &k.processes[0].as_ref().unwrap().inner.memory_set;
    assert_eq!(ms.area_count(), before);
    assert!(!ms.is_mapped(0x20000));
    assert_eq!(peek(&k, 0, 0x10000, 4), Some(b"init".to_vec()));
}

#[test]
fn mmap_argument_errors() {
    let mut k = boot();
    assert_eq!(sys_mmap(&mut k, 0x10000001, 4096, 3), -1);
    assert_eq!(sys_mmap(&mut k, 0x10000000, 4096, 0), -1);
    assert_eq!(sys_mmap(&mut k, 0x10000000, 4096, 8), -1);
    assert_eq!(sys_mmap(&mut k, 0x10000000, 4096, 0x13), -1);
    assert_eq!(sys_mmap(&mut k, 0x10000000, usize::MAX, 3), -1);
    assert_eq!(sys_mmap(&mut k, 0x10000, 4096, 3), -1);
    assert_eq!(sys_mmap(&mut k, 0x12000 - 4096, 2 * 4096, 3), -1);
    assert_eq!(sys_munmap(&mut k, 0x10000001, 4096), -1);
    assert_eq!(sys_munmap(&mut k, 0x10000000, usize::MAX), -1);
    assert_eq!(sys_munmap(&mut k, 0x11000, 2 * 4096), -1);
    assert_eq!(k.processes[0].as_ref().unwrap().inner.memory_set.area_count(), 4);
    assert_eq!(sys_mmap(&mut k, 0x10000000, 0, 7), 0);
    assert_eq!(sys_munmap(&mut k, 0x10000000, 0), 0);
    assert_eq!(sys_mmap(&mut k, 0x10000000, 1, 7), 0);
    let ms = &k.processes[0].as_ref().unwrap().inner.memory_set;
    assert_eq!(ms.area(4).map_perm(), 30);
    assert_eq!(sys_mmap(&mut k, 0x10001000, 1, 2), 0);
    let ms = &k.processes[0].as_ref().unwrap().inner.memory_set;
    assert_eq!(ms.area(5).map_perm(), PERM_U | PERM_W);
}

#[test]
fn waitpid_lifecycle() {
    let mut k = boot();
    assert_eq!(sys_waitpid(&mut k, -1, SCRATCH), -1);
    assert_eq!(sys_fork(&mut k), 1);
    assert_eq!(sys_waitpid(&mut k, -1, SCRATCH), -2);
    assert_eq!(sys_waitpid(&mut k, 1, SCRATCH), -2);
    assert_eq!(sys_waitpid(&mut k, 5, SCRATCH), -1);
    assert_eq!(sys_yield(&mut k), 0);
    assert_eq!(cur(&k), (1, 0));
    sys_exit(&mut k, 7);
    assert_eq!(cur(&k), (0, 0));
    let child = k.processes[1].as_ref().unwrap();
    assert!(child.inner.is_zombie);
    assert_eq!(child.inner.exit_code, 7);
    assert_eq!(child.inner.memory_set.area_count(), 0);
    assert_eq!(child.inner.fd_table.len(), 0);
    // a pointer that leads nowhere leaves the child unreaped
    assert_eq!(sys_waitpid(&mut k, -1, 0x5000_0000), -1);
    assert!(k.processes[1].is_some());
    assert_eq!(sys_waitpid(&mut k, -1, SCRATCH), 1);
    assert_eq!(peek(&k, 0, SCRATCH, 4), Some(7i32.to_le_bytes().to_vec()));
    assert!(k.processes[1].is_none());
    assert_eq!(k.processes[0].as_ref().unwrap().inner.children, Vec::<usize>::new());
    assert_eq!(sys_waitpid(&mut k, -1, SCRATCH), -1);
    // the identifier is free again
    assert_eq!(sys_fork(&mut k), 1);
}

#[test]
fn waitpid_reaps_the_first_zombie_and_stores_negative_codes() {
    let mut k = boot();
    assert_eq!(sys_fork(&mut k), 1);
    assert_eq!(sys_fork(&mut k), 2);
    assert_eq!(sys_yield(&mut k), 0);
    assert_eq!(cur(&k), (1, 0));
    assert_eq!(sys_yield(&mut k), 0);
    assert_eq!(cur(&k), (2, 0));
    sys_exit(&mut k, -3);
    assert_eq!(cur(&k), (0, 0));
    assert_eq!(sys_waitpid(&mut k, 1, SCRATCH), -2);
    assert_eq!(sys_waitpid(&mut k, -1, SCRATCH), 2);
    assert_eq!(peek(&k, 0, SCRATCH, 4), Some((-3i32).to_le_bytes().to_vec()));
    assert_eq!(k.processes[0].as_ref().unwrap().inner.children, vec![1]);
}

#[test]
fn fork_copies_the_address_space_and_returns_zero_in_the_child() {
    let mut k = boot();
    assert!(k.write_user(SCRATCH, &vec![1, 2, 3]));
    k.current.as_mut().unwrap().trap_cx.x[10] = 0x55;
    k.current.as_mut().unwrap().trap_cx.x[7] = 0x77;
    k.current.as_mut().unwrap().trap_cx.sepc = 0x10044;
    assert_eq!(sys_fork(&mut k), 1);
    assert!(k.write_user(SCRATCH, &vec![9]));
    assert_eq!(peek(&k, 1, SCRATCH, 3), Some(vec![1, 2, 3]));
    assert_eq!(peek(&k, 0, SCRATCH, 3), Some(vec![9, 2, 3]));
    let child = k.processes[1].as_ref().unwrap();
    assert_eq!(child.inner.parent, Some(0));
    assert_eq!(child.inner.get_user_token(), 1);
    assert_eq!(child.inner.fd_table, vec![Some(STDIN), Some(STDOUT), Some(STDOUT)]);
    assert_eq!(child.inner.memory_set.area_count(), 4);
    assert_eq!(child.inner.get_task(0).ustack_base, STACK_TOP - USER_STACK_SIZE);
    assert_eq!(k.processes[0].as_ref().unwrap().inner.children, vec![1]);
    assert_eq!(k.current.as_ref().unwrap().trap_cx.x[10], 0x55);
    assert_eq!(sys_yield(&mut k), 0);
    let t = k.current.as_ref().unwrap();
    assert_eq!((t.pid, t.tid), (1, 0));
    assert_eq!(t.trap_cx.x[10], 0);
    assert_eq!(t.trap_cx.x[7], 0x77);
    assert_eq!(t.trap_cx.x[2], STACK_TOP);
    assert_eq!(t.trap_cx.sepc, 0x10044);
    assert_eq!(t.trap_cx.kernel_sp, kernel_stack_position(1, 0).unwrap());
    assert_eq!(sys_getpid(&k), 1);
}

#[test]
fn fork_shares_open_files() {
    let mut k = boot();
    let path = put_str(&mut k, SCRATCH, "log");
    assert_eq!(sys_open(&mut k, path, O_CREATE | O_WRONLY), 3);
    let h = k.processes[0].as_ref().unwrap().inner.fd_table[3].unwrap();
    assert_eq!(k.fs.open_file_at(h).unwrap().refs, 1);
    assert_eq!(sys_fork(&mut k), 1);
    assert_eq!(k.fs.open_file_at(h).unwrap().refs, 2);
    assert!(k.write_user(SCRATCH, &b"ab".to_vec()));
    assert_eq!(sys_write(&mut k, 3, SCRATCH, 2), 2);
    assert_eq!(sys_yield(&mut k), 0);
    assert_eq!(cur(&k), (1, 0));
    // the child writes behind the parent: the offset is shared
    assert!(k.write_user(SCRATCH, &b"cd".to_vec()));
    assert_eq!(sys_write(&mut k, 3, SCRATCH, 2), 2);
    sys_exit(&mut k, 0);
    assert_eq!(k.fs.open_file_at(h).unwrap().refs, 1);
    assert_eq!(sys_close(&mut k, 3), 0);
    assert!(k.fs.open_file_at(h).is_none());
    let ino = k.fs.find(&b"log".to_vec()).unwrap();
    assert_eq!(k.fs.read_all(ino), b"abcd".to_vec());
}

#[test]
fn exec_replaces_the_program() {
    let mut k = boot();
    store(&mut k, "prog", &elf(0x20010, 0x20000, b"new program", 0x2000, 7));
    store(&mut k, "junk", b"not a program");
    assert_eq!(sys_mutex_create(&mut k, true), 0);
    let path = put_str(&mut k, SCRATCH, "prog");
    let missing = put_str(&mut k, SCRATCH + 16, "nowhere");
    let junk = put_str(&mut k, SCRATCH + 32, "junk");
    assert_eq!(sys_exec(&mut k, missing), -1);
    assert_eq!(sys_exec(&mut k, junk), -1);
    assert_eq!(sys_exec(&mut k, 0x7000_0000), -1);
    assert_eq!(peek(&k, 0, 0x10000, 4), Some(b"init".to_vec()));
    assert_eq!(k.current.as_ref().unwrap().trap_cx.sepc, ENTRY);
    assert_eq!(sys_exec(&mut k, path), 0);
    let t = k.current.as_ref().unwrap();
    assert_eq!(t.trap_cx.sepc, 0x20010);
    assert_eq!(t.trap_cx.x[10], 0);
    assert_eq!(t.trap_cx.x[11], 0x25000 - 8);
    assert_eq!(t.trap_cx.x[2], 0x25000 - 8);
    assert_eq!(t.trap_cx.kernel_sp, TRAMPOLINE);
    assert_eq!(peek(&k, 0, 0x20000, 11), Some(b"new program".to_vec()));
    assert_eq!(peek(&k, 0, 0x10000, 4), None);
    let p = k.processes[0].as_ref().unwrap();
    assert_eq!(p.inner.get_task(0).ustack_base, 0x23000);
    assert_eq!(p.inner.mutex_list.len(), 0);
    assert_eq!(p.inner.mutex_ledger.resource_count(), 0);
    assert_eq!(p.inner.mutex_ledger.thread_count(), 1);
    assert_eq!(p.inner.fd_table.len(), 3);
}

#[test]
fn exec_lays_the_arguments_out_on_the_stack() {
    let mut k = boot();
    let image = parse_elf(&elf(ENTRY as u64, 0x10000, b"init", 0x1000, 5)).unwrap();
    let args = vec![b"ab".to_vec(), b"c".to_vec()];
    let mut task = k.current.take().unwrap();
    assert!(k.processes[0].as_mut().unwrap().exec(&mut task, &image, &args, context()));
    let base = STACK_TOP - 3 * 8;
    assert_eq!(task.trap_cx.x[10], 2);
    assert_eq!(task.trap_cx.x[11], base);
    assert_eq!(base, 0x13fe8);
    assert_eq!(task.trap_cx.x[2], 0x13fe0);
    assert_eq!(task.trap_cx.sepc, ENTRY);
    assert_eq!(peek(&k, 0, base, 8), Some(0x13fe5u64.to_le_bytes().to_vec()));
    assert_eq!(peek(&k, 0, base + 8, 8), Some(0x13fe3u64.to_le_bytes().to_vec()));
    assert_eq!(peek(&k, 0, base + 16, 8), Some(0u64.to_le_bytes().to_vec()));
    assert_eq!(peek(&k, 0, 0x13fe5, 3), Some(b"ab\0".to_vec()));
    assert_eq!(peek(&k, 0, 0x13fe3, 2), Some(b"c\0".to_vec()));
    // arguments that do not fit the stack change nothing
    let huge = vec![vec![b'x'; USER_STACK_SIZE]];
    task.trap_cx.x[10] = 99;
    assert!(!k.processes[0].as_mut().unwrap().exec(&mut task, &image, &huge, context()));
    assert_eq!(task.trap_cx.x[10], 99);
    assert_eq!(peek(&k, 0, 0x13fe5, 3), Some(b"ab\0".to_vec()));
}

#[test]
fn fork_then_exec_gives_the_layout_of_spawn() {
    let mut k = boot();
    let program = elf(0x20010, 0x20000, b"same image", 0x1800, 6);
    store(&mut k, "prog", &program);
    let path = put_str(&mut k, SCRATCH, "prog");
    assert_eq!(sys_fork(&mut k), 1);
    assert_eq!(sys_spawn(&mut k, path), 2);
    assert_eq!(sys_yield(&mut k), 0);
    assert_eq!(cur(&k), (1, 0));
    assert_eq!(sys_exec(&mut k, path), 0);
    let a = &k.processes[1].as_ref().unwrap().inner.memory_set;
    let b = &k.processes[2].as_ref().unwrap().inner.memory_set;
    assert_eq!(a.area_count(), b.area_count());
    for i in 0..a.area_count() {
        assert_eq!(a.area(i).start_vpn(), b.area(i).start_vpn());
        assert_eq!(a.area(i).end_vpn(), b.area(i).end_vpn());
        assert_eq!(a.area(i).map_perm(), b.area(i).map_perm());
        assert!(a.area(i).map_type() == b.area(i).map_type());
    }
    assert_eq!(a.read_bytes(0x20000, 0x2000), b.read_bytes(0x20000, 0x2000));
    assert_eq!(a.read_bytes(0x23000, USER_STACK_SIZE), b.read_bytes(0x23000, USER_STACK_SIZE));
    assert_eq!(a.read_bytes(TRAP_CONTEXT, PAGE_SIZE), b.read_bytes(TRAP_CONTEXT, PAGE_SIZE));
}

#[test]
fn spawn_starts_a_child_from_the_file() {
    let mut k = boot();
    store(&mut k, "child", &elf(0x30000, 0x30000, b"kid", 0x1000, 5));
    assert!(k.write_user(SCRATCH + 64, &vec![0xee]));
    let path = put_str(&mut k, SCRATCH, "child");
    let missing = put_str(&mut k, SCRATCH + 16, "x");
    assert_eq!(sys_spawn(&mut k, missing), -1);
    assert_eq!(sys_spawn(&mut k, path), 1);
    let child = k.processes[1].as_ref().unwrap();
    assert_eq!(child.inner.parent, Some(0));
    assert_eq!(child.inner.fd_table, vec![Some(STDIN), Some(STDOUT), Some(STDOUT)]);
    assert_eq!(peek(&k, 1, 0x30000, 3), Some(b"kid".to_vec()));
    assert_eq!(peek(&k, 1, SCRATCH + 64, 1), None);
    assert_eq!(k.processes[0].as_ref().unwrap().inner.children, vec![1]);
    assert_eq!(sys_yield(&mut k), 0);
    let t = k.current.as_ref().unwrap();
    assert_eq!((t.pid, t.tid), (1, 0));
    assert_eq!(t.trap_cx.sepc, 0x30000);
    assert_eq!(t.trap_cx.x[2], 0x32000 + USER_STACK_SIZE);
    assert_eq!(t.priority, 16);
    sys_exit(&mut k, 3);
    assert_eq!(sys_waitpid(&mut k, 1, SCRATCH), 1);
}

#[test]
fn exit_hands_children_to_the_initial_process() {
    let mut k = boot();
    assert_eq!(sys_fork(&mut k), 1);
    assert_eq!(sys_yield(&mut k), 0);
    assert_eq!(cur(&k), (1, 0));
    assert_eq!(sys_fork(&mut k), 2);
    assert_eq!(sys_fork(&mut k), 3);
    assert_eq!(k.processes[2].as_ref().unwrap().inner.parent, Some(1));
    sys_exit(&mut k, 1);
    assert_eq!(k.processes[2].as_ref().unwrap().inner.parent, Some(0));
    assert_eq!(k.processes[3].as_ref().unwrap().inner.parent, Some(0));
    assert_eq!(k.processes[0].as_ref().unwrap().inner.children, vec![1, 2, 3]);
    assert_eq!(k.processes[1].as_ref().unwrap().inner.children, Vec::<usize>::new());
    // run until the initial process has the processor again
    while cur(&k).0 != 0 {
        assert_eq!(sys_yield(&mut k), 0);
    }
    assert_eq!(sys_waitpid(&mut k, -1, SCRATCH), 1);
    assert_eq!(sys_waitpid(&mut k, -1, SCRATCH), -2);
    assert_eq!(k.processes[0].as_ref().unwrap().inner.children, vec![2, 3]);
}

#[test]
fn a_zombie_holds_nothing() {
    let mut k = boot();
    assert_eq!(sys_fork(&mut k), 1);
    assert_eq!(sys_yield(&mut k), 0);
    assert_eq!(cur(&k), (1, 0));
    assert_eq!(sys_semaphore_create(&mut k, 2), 0);
    assert_eq!(sys_mutex_create(&mut k, true), 0);
    assert_eq!(sys_semaphore_down(&mut k, 0), 0);
    assert_eq!(sys_mutex_lock(&mut k, 0), 0);
    {
        let inner = &k.processes[1].as_ref().unwrap().inner;
        assert_eq!(inner.semaphore_ledger.allocation(0, 0), 1);
        assert_eq!(inner.mutex_ledger.allocation(0, 0), 1);
    }
    sys_exit(&mut k, 0);
    let inner = &k.processes[1].as_ref().unwrap().inner;
    assert!(inner.is_zombie);
    assert_eq!(inner.semaphore_ledger.allocation(0, 0), 0);
    assert_eq!(inner.mutex_ledger.allocation(0, 0), 0);
    assert_eq!(inner.semaphore_ledger.need(0, 0), 0);
    assert_eq!(inner.memory_set.token(), 1);
    assert_eq!(k.task_manager.len(), 0);
    assert_eq!(cur(&k), (0, 0));
}

#[test]
fn exit_of_the_last_thread_leaves_the_processor_idle() {
    let mut k = boot();
    sys_exit(&mut k, 0);
    assert!(k.current.is_none());
    assert_eq!(k.task_manager.len(), 0);
    assert!(k.processes[0].as_ref().unwrap().inner.is_zombie);
}

#[test]
fn exit_removes_the_threads_of_the_process_everywhere() {
    let mut k = boot();
    assert_eq!(sys_fork(&mut k), 1);
    assert_eq!(sys_yield(&mut k), 0);
    assert_eq!(cur(&k), (1, 0));
    assert_eq!(sys_thread_create(&mut k, 0x10000, 0), 1);
    assert_eq!(sys_thread_create(&mut k, 0x10000, 0), 2);
    assert_eq!(sys_yield(&mut k), 0);
    assert_eq!(cur(&k), (1, 1));
    assert_eq!(sys_sleep(&mut k, 5), 0);
    assert_eq!(cur(&k), (1, 2));
    assert_eq!(sys_yield(&mut k), 0);
    // the main thread of the child exits: its other thread is only a
    // sleeper and a ready thread, and the process lives on
    while cur(&k) != (1, 0) {
        assert_eq!(sys_yield(&mut k), 0);
    }
    sys_exit(&mut k, 4);
    assert!(!k.processes[1].as_ref().unwrap().inner.is_zombie);
    while cur(&k) != (1, 2) {
        assert_eq!(sys_yield(&mut k), 0);
    }
    assert_eq!(k.timers.len(), 1);
    k.tick(10_000);
    assert_eq!(k.timers.len(), 0);
    while cur(&k) != (1, 1) {
        assert_eq!(sys_yield(&mut k), 0);
    }
    sys_exit(&mut k, 5);
    while cur(&k) != (1, 2) {
        assert_eq!(sys_yield(&mut k), 0);
    }
    sys_exit(&mut k, 6);
    let child = k.processes[1].as_ref().unwrap();
    assert!(child.inner.is_zombie);
    assert_eq!(child.inner.exit_code, 6);
    assert_eq!(cur(&k), (0, 0));
    assert_eq!(k.task_manager.len(), 0);
}

#[test]
fn yield_passes_the_processor_around() {
    let mut k = boot();
    assert_eq!(sys_yield(&mut k), 0);
    assert_eq!(cur(&k), (0, 0));
    assert_eq!(sys_fork(&mut k), 1);
    assert_eq!(sys_fork(&mut k), 2);
    let mut seen = vec![];
    for _ in 0..6 {
        assert_eq!(sys_yield(&mut k), 0);
        seen.push(cur(&k).0);
        assert!(k.current.as_ref().unwrap().task_status == TaskStatus::Running);
    }
    // the children start with stride 0 and catch up with their parent first
    assert_eq!(seen, vec![1, 2, 1, 2, 0, 1]);
}

#[test]
fn set_priority_has_a_floor_of_two() {
    let mut k = boot();
    assert_eq!(sys_set_priority(&mut k, 1), -1);
    assert_eq!(sys_set_priority(&mut k, 0), -1);
    assert_eq!(sys_set_priority(&mut k, -5), -1);
    assert_eq!(k.current.as_ref().unwrap().priority, 16);
    assert_eq!(sys_set_priority(&mut k, 2), 2);
    assert_eq!(k.current.as_ref().unwrap().priority, 2);
    assert_eq!(sys_set_priority(&mut k, isize::MAX), isize::MAX);
    assert_eq!(k.current.as_ref().unwrap().priority, isize::MAX);
    let before = k.current.as_ref().unwrap().stride;
    assert_eq!(sys_yield(&mut k), 0);
    assert_eq!(k.current.as_ref().unwrap().stride, before);
}

#[test]
fn get_time_stores_seconds_and_microseconds() {
    let mut k = boot();
    k.tick(5_000_123);
    assert_eq!(k.get_time_ms(), 5000);
    assert_eq!(sys_get_time(&mut k, SCRATCH, 0), 0);
    let mut want = 5u64.to_le_bytes().to_vec();
    want.extend_from_slice(&123u64.to_le_bytes());
    assert_eq!(peek(&k, 0, SCRATCH, 16), Some(want.clone()));
    assert_eq!(encode_time_val(&TimeVal { sec: 5, usec: 123 }), want);
    assert_eq!(sys_get_time(&mut k, 0x5000_0000, 0), -1);
    assert_eq!(sys_get_time(&mut k, STACK_TOP - 8, 0), -1);
}

#[test]
fn task_info_reports_status_histogram_and_time() {
    let mut k = boot();
    k.tick(2_000_000);
    assert_eq!(sys_fork(&mut k), 1);
    assert_eq!(sys_yield(&mut k), 0);
    assert_eq!(cur(&k), (1, 0));
    assert_eq!(k.current.as_ref().unwrap().start_time, 2_000_000);
    k.record_syscall(64);
    k.record_syscall(64);
    k.record_syscall(410);
    k.record_syscall(1000);
    k.tick(2_034_999);
    assert_eq!(sys_task_info(&mut k, SCRATCH), 0);
    let bytes = peek(&k, 1, SCRATCH, 2016).unwrap();
    assert_eq!(&bytes[0..4], &[2, 0, 0, 0]);
    assert_eq!(&bytes[4 + 4 * 64..8 + 4 * 64], &2u32.to_le_bytes());
    assert_eq!(&bytes[4 + 4 * 410..8 + 4 * 410], &1u32.to_le_bytes());
    assert_eq!(bytes[4..2004].iter().map(|b| *b as u32).sum::<u32>(), 3);
    assert_eq!(&bytes[2004..2008], &[0, 0, 0, 0]);
    assert_eq!(&bytes[2008..2016], &34u64.to_le_bytes());
    let mut times = [0u32; 500];
    times[64] = 2;
    times[410] = 1;
    let info = TaskInfo { status: TaskStatus::Running, syscall_times: times, time: 34 };
    assert_eq!(encode_task_info(&info), bytes);
    assert_eq!(sys_task_info(&mut k, STACK_TOP - 2015), -1);
}

#[test]
fn sleepers_wake_when_their_time_has_come() {
    let mut k = boot();
    assert_eq!(sys_fork(&mut k), 1);
    assert_eq!(sys_fork(&mut k), 2);
    k.tick(1_000_000);
    assert_eq!(sys_sleep(&mut k, 30), 0);
    assert_eq!(cur(&k), (1, 0));
    assert_eq!(sys_sleep(&mut k, 10), 0);
    assert_eq!(cur(&k), (2, 0));
    assert_eq!(k.timers.len(), 2);
    assert_eq!(k.timers[0].expire_ms, 1010);
    assert_eq!(k.timers[0].task.pid, 1);
    assert!(k.timers[0].task.task_status == TaskStatus::Blocked);
    assert_eq!(k.timers[1].expire_ms, 1030);
    k.tick(1_009_999);
    assert_eq!(k.timers.len(), 2);
    assert_eq!(k.task_manager.len(), 0);
    k.tick(1_010_000);
    assert_eq!(k.timers.len(), 1);
    assert_eq!(k.task_manager.len(), 1);
    assert_eq!(sys_sleep(&mut k, usize::MAX), 0);
    assert_eq!(cur(&k), (1, 0));
    assert_eq!(k.timers[1].expire_ms, usize::MAX);
    k.tick(2_000_000);
    assert_eq!(k.timers.len(), 1);
    assert_eq!(sys_yield(&mut k), 0);
    assert_eq!(cur(&k), (0, 0));
}

#[test]
fn threads_get_stacks_rows_and_identifiers() {
    let mut k = boot();
    assert_eq!(sys_semaphore_create(&mut k, 2), 0);
    assert_eq!(sys_thread_create(&mut k, 0x10020, 42), 1);
    let p = k.processes[0].as_ref().unwrap();
    assert_eq!(p.inner.thread_count(), 2);
    assert_eq!(p.inner.get_task(1).tid, 1);
    assert_eq!(p.inner.get_task(1).ustack_base, 0x12000);
    assert_eq!(p.inner.mutex_ledger.thread_count(), 2);
    assert_eq!(p.inner.semaphore_ledger.thread_count(), 2);
    assert_eq!(p.inner.semaphore_ledger.allocation(1, 0), 0);
    let stack = 0x12000 + (PAGE_SIZE + USER_STACK_SIZE);
    assert_eq!(peek(&k, 0, stack, USER_STACK_SIZE), Some(vec![0u8; USER_STACK_SIZE]));
    assert_eq!(peek(&k, 0, stack - 1, 1), None);
    assert_eq!(peek(&k, 0, TRAP_CONTEXT - PAGE_SIZE, PAGE_SIZE), Some(vec![0u8; PAGE_SIZE]));
    assert_eq!(sys_yield(&mut k), 0);
    let t = k.current.as_ref().unwrap();
    assert_eq!((t.pid, t.tid), (0, 1));
    assert_eq!(t.trap_cx.sepc, 0x10020);
    assert_eq!(t.trap_cx.x[10], 42);
    assert_eq!(t.trap_cx.x[2], stack + USER_STACK_SIZE);
    assert_eq!(t.trap_cx.kernel_sp, kernel_stack_position(0, 1).unwrap());
    assert_eq!(sys_gettid(&k), 1);
    assert_eq!(sys_getpid(&k), 0);
    // the thread exits: its stack goes, its identifier is free again
    sys_exit(&mut k, 0);
    assert_eq!(cur(&k), (0, 0));
    assert_eq!(peek(&k, 0, stack, 1), None);
    assert_eq!(peek(&k, 0, TRAP_CONTEXT - PAGE_SIZE, 1), None);
    assert!(!k.processes[0].as_ref().unwrap().inner.is_zombie);
    assert_eq!(sys_thread_create(&mut k, 0x10020, 0), 1);
    assert_eq!(k.processes[0].as_ref().unwrap().inner.thread_count(), 2);
}

#[test]
fn a_process_has_at_most_sixteen_threads() {
    let mut k = boot();
    for tid in 1..MAX_THREADS {
        assert_eq!(sys_thread_create(&mut k, 0x10000, 0), tid as isize);
    }
    assert_eq!(sys_thread_create(&mut k, 0x10000, 0), -1);
    assert_eq!(k.processes[0].as_ref().unwrap().inner.thread_count(), MAX_THREADS);
    assert_eq!(k.task_manager.len(), MAX_THREADS - 1);
    // with more than one thread the process can neither fork nor exec
    assert_eq!(sys_fork(&mut k), -1);
    let path = put_str(&mut k, SCRATCH, "prog");
    store(&mut k, "prog", &elf(0x20010, 0x20000, b"p", 0x1000, 5));
    assert_eq!(sys_exec(&mut k, path), -1);
}

#[test]
fn thread_create_fails_when_the_stack_is_taken() {
    let mut k = boot();
    let stack = 0x12000 + (PAGE_SIZE + USER_STACK_SIZE);
    assert_eq!(sys_mmap(&mut k, stack, 1, 3), 0);
    assert_eq!(sys_thread_create(&mut k, 0x10000, 0), -1);
    assert_eq!(k.processes[0].as_ref().unwrap().inner.thread_count(), 1);
    assert_eq!(k.task_manager.len(), 0);
    assert_eq!(sys_munmap(&mut k, stack, 1), 0);
    assert_eq!(sys_thread_create(&mut k, 0x10000, 0), 1);
}

#[test]
fn banker_refusal() {
    let mut k = boot();
    assert_eq!(sys_enable_deadlock_detect(&mut k, 1), 0);
    let a = sys_semaphore_create(&mut k, 1) as usize;
    let b = sys_semaphore_create(&mut k, 1) as usize;
    assert_eq!((a, b), (0, 1));
    assert_eq!(sys_thread_create(&mut k, 0x10000, 0), 1);
    // T0 takes A
    assert_eq!(sys_semaphore_down(&mut k, a), 0);
    assert_eq!(sys_yield(&mut k), 0);
    assert_eq!(cur(&k), (0, 1));
    // T1 takes B
    assert_eq!(sys_semaphore_down(&mut k, b), 0);
    assert_eq!(sys_yield(&mut k), 0);
    assert_eq!(cur(&k), (0, 0));
    // T0 asks for B: T1 can still finish, so T0 may wait
    assert_eq!(sys_semaphore_down(&mut k, b), 0);
    assert_eq!(cur(&k), (0, 1));
    // T1 asks for A: nobody could finish any more
    assert_eq!(sys_semaphore_down(&mut k, a), DEADLOCK);
    assert_eq!(sys_semaphore_down(&mut k, a), -0xDEAD);
    assert_eq!(cur(&k), (0, 1));
    {
        let l = &k.processes[0].as_ref().unwrap().inner.semaphore_ledger;
        assert_eq!(l.need(1, a), 0);
        assert_eq!(l.need(0, b), 1);
        assert_eq!(l.allocation(0, a), 1);
        assert_eq!(l.allocation(1, b), 1);
        assert_eq!(l.available(a) + l.allocation(0, a) + l.allocation(1, a), 1);
        assert_eq!(l.available(b) + l.allocation(0, b) + l.allocation(1, b), 1);
    }
    // T1 gives B up: it goes straight to T0, which is ready again
    assert_eq!(k.task_manager.len(), 0);
    assert_eq!(sys_semaphore_up(&mut k, b), 0);
    assert_eq!(k.task_manager.len(), 1);
    {
        let l = &k.processes[0].as_ref().unwrap().inner.semaphore_ledger;
        assert_eq!(l.allocation(0, b), 1);
        assert_eq!(l.allocation(1, b), 0);
        assert_eq!(l.need(0, b), 0);
        assert_eq!(l.available(b), 0);
    }
    // now T1 may wait for A
    assert_eq!(sys_semaphore_down(&mut k, a), 0);
    assert_eq!(cur(&k), (0, 0));
    assert_eq!(sys_semaphore_up(&mut k, a), 0);
    assert_eq!(sys_semaphore_up(&mut k, b), 0);
    let l = &k.processes[0].as_ref().unwrap().inner.semaphore_ledger;
    assert_eq!(l.allocation(1, a), 1);
    assert_eq!(l.available(b), 1);
}

#[test]
fn without_detection_the_second_wait_blocks() {
    let mut k = boot();
    let a = sys_semaphore_create(&mut k, 1) as usize;
    let b = sys_semaphore_create(&mut k, 1) as usize;
    assert_eq!(sys_thread_create(&mut k, 0x10000, 0), 1);
    assert_eq!(sys_semaphore_down(&mut k, a), 0);
    assert_eq!(sys_yield(&mut k), 0);
    assert_eq!(sys_semaphore_down(&mut k, b), 0);
    assert_eq!(sys_yield(&mut k), 0);
    assert_eq!(sys_semaphore_down(&mut k, b), 0);
    assert_eq!(cur(&k), (0, 1));
    assert_eq!(sys_semaphore_down(&mut k, a), 0);
    // both threads wait for each other, and nothing is left to run
    assert!(k.current.is_none());
    assert_eq!(k.task_manager.len(), 0);
    let inner = &k.processes[0].as_ref().unwrap().inner;
    assert_eq!(inner.semaphore_list[a].as_ref().unwrap().get_count(), -1);
    assert_eq!(inner.semaphore_list[b].as_ref().unwrap().get_count(), -1);
    assert_eq!(inner.semaphore_list[a].as_ref().unwrap().get_next_queue_id(), 1);
    assert_eq!(inner.semaphore_list[b].as_ref().unwrap().get_next_queue_id(), 0);
}

#[test]
fn mutex_deadlock_is_refused_too() {
    let mut k = boot();
    assert_eq!(sys_enable_deadlock_detect(&mut k, 1), 0);
    assert!(k.processes[0].as_ref().unwrap().inner.deadlock_detect);
    assert_eq!(sys_mutex_create(&mut k, true), 0);
    assert_eq!(sys_mutex_create(&mut k, true), 1);
    assert_eq!(sys_thread_create(&mut k, 0x10000, 0), 1);
    assert_eq!(sys_mutex_lock(&mut k, 0), 0);
    assert_eq!(sys_yield(&mut k), 0);
    assert_eq!(sys_mutex_lock(&mut k, 1), 0);
    assert_eq!(sys_yield(&mut k), 0);
    assert_eq!(cur(&k), (0, 0));
    assert_eq!(sys_mutex_lock(&mut k, 1), 0);
    assert_eq!(cur(&k), (0, 1));
    assert_eq!(sys_mutex_lock(&mut k, 0), DEADLOCK);
    // a thread that asks for the mutex it holds can never finish either
    assert_eq!(sys_mutex_lock(&mut k, 1), DEADLOCK);
    let l = &k.processes[0].as_ref().unwrap().inner.mutex_ledger;
    assert_eq!(l.need(1, 0), 0);
    assert_eq!(l.need(1, 1), 0);
    assert_eq!(l.allocation(1, 1), 1);
    assert_eq!(sys_enable_deadlock_detect(&mut k, 0), 0);
    assert!(!k.processes[0].as_ref().unwrap().inner.deadlock_detect);
    assert_eq!(sys_enable_deadlock_detect(&mut k, 2), -1);
}

#[test]
fn blocking_mutex_wakes_waiters_in_order() {
    let mut k = boot();
    assert_eq!(sys_mutex_create(&mut k, true), 0);
    assert_eq!(sys_thread_create(&mut k, 0x10000, 0), 1);
    assert_eq!(sys_thread_create(&mut k, 0x10000, 0), 2);
    assert_eq!(sys_mutex_lock(&mut k, 0), 0);
    assert_eq!(cur(&k), (0, 0));
    assert_eq!(sys_yield(&mut k), 0);
    assert_eq!(cur(&k), (0, 1));
    assert_eq!(sys_mutex_lock(&mut k, 0), 0);
    assert_eq!(cur(&k), (0, 2));
    assert_eq!(sys_mutex_lock(&mut k, 0), 0);
    assert_eq!(cur(&k), (0, 0));
    {
        let inner = &k.processes[0].as_ref().unwrap().inner;
        assert_eq!(inner.mutex_list[0].as_ref().unwrap().get_next_queue_id(), 1);
        assert_eq!(inner.mutex_ledger.need(1, 0), 1);
        assert_eq!(inner.mutex_ledger.need(2, 0), 1);
        assert_eq!(inner.mutex_ledger.allocation(0, 0), 1);
        assert_eq!(inner.mutex_ledger.available(0), 0);
    }
    assert_eq!(sys_mutex_unlock(&mut k, 0), 0);
    {
        let inner = &k.processes[0].as_ref().unwrap().inner;
        assert!(inner.mutex_list[0].as_ref().unwrap().is_locked());
        assert_eq!(inner.mutex_list[0].as_ref().unwrap().get_next_queue_id(), 2);
        assert_eq!(inner.mutex_ledger.allocation(0, 0), 0);
        assert_eq!(inner.mutex_ledger.allocation(1, 0), 1);
        assert_eq!(inner.mutex_ledger.need(1, 0), 0);
        assert_eq!(inner.mutex_ledger.available(0), 0);
    }
    assert_eq!(k.task_manager.len(), 1);
    assert_eq!(sys_yield(&mut k), 0);
    assert_eq!(cur(&k), (0, 1));
    assert_eq!(sys_mutex_unlock(&mut k, 0), 0);
    assert_eq!(sys_yield(&mut k), 0);
    assert_eq!(sys_yield(&mut k), 0);
    while cur(&k) != (0, 2) {
        assert_eq!(sys_yield(&mut k), 0);
    }
    assert_eq!(sys_mutex_unlock(&mut k, 0), 0);
    let inner = &k.processes[0].as_ref().unwrap().inner;
    assert!(!inner.mutex_list[0].as_ref().unwrap().is_locked());
    assert_eq!(inner.mutex_ledger.available(0), 1);
    assert_eq!(inner.mutex_ledger.allocation(2, 0), 0);
}

#[test]
fn spin_mutex_makes_the_caller_ask_again() {
    let mut k = boot();
    assert_eq!(sys_mutex_create(&mut k, false), 0);
    assert_eq!(sys_thread_create(&mut k, 0x10000, 0), 1);
    assert_eq!(sys_mutex_lock(&mut k, 0), 0);
    assert_eq!(sys_yield(&mut k), 0);
    assert_eq!(cur(&k), (0, 1));
    assert_eq!(NOT_YET, -2);
    assert_eq!(sys_mutex_lock(&mut k, 0), -2);
    assert_eq!(cur(&k), (0, 0));
    assert_eq!(k.task_manager.len(), 1);
    assert_eq!(sys_mutex_unlock(&mut k, 0), 0);
    assert_eq!(sys_yield(&mut k), 0);
    assert_eq!(cur(&k), (0, 1));
    assert_eq!(sys_mutex_lock(&mut k, 0), 0);
    assert_eq!(cur(&k), (0, 1));
    let l = &k.processes[0].as_ref().unwrap().inner.mutex_ledger;
    assert_eq!(l.allocation(1, 0), 1);
    assert_eq!(l.need(1, 0), 0);
    assert_eq!(l.available(0), 0);
}

#[test]
fn condvar_fifo() {
    let mut k = boot();
    assert_eq!(sys_mutex_create(&mut k, true), 0);
    assert_eq!(sys_condvar_create(&mut k, 0), 0);
    for tid in 1..=3 {
        assert_eq!(sys_thread_create(&mut k, 0x10000, 0), tid);
    }
    // the main thread lets the three waiters run first
    assert_eq!(sys_set_priority(&mut k, 2), 2);
    assert_eq!(sys_yield(&mut k), 0);
    for tid in 1..=3 {
        assert_eq!(cur(&k), (0, tid));
        assert_eq!(sys_mutex_lock(&mut k, 0), 0);
        assert_eq!(sys_condvar_wait(&mut k, 0, 0), 0);
    }
    assert_eq!(cur(&k), (0, 0));
    assert_eq!(k.task_manager.len(), 0);
    assert!(!k.processes[0].as_ref().unwrap().inner.mutex_list[0].as_ref().unwrap().is_locked());
    for tid in 1..=3 {
        assert_eq!(sys_condvar_signal(&mut k, 0), 0);
        assert_eq!(k.task_manager.len(), 1);
        let woken = k.task_manager.fetch().unwrap();
        assert_eq!(woken.tid, tid);
        assert!(woken.task_status == TaskStatus::Ready);
    }
    assert_eq!(sys_condvar_signal(&mut k, 0), 0);
    assert_eq!(k.task_manager.len(), 0);
}

#[test]
fn condvar_wait_gives_the_mutex_up_in_the_ledger_too() {
    let mut k = boot();
    assert_eq!(sys_mutex_create(&mut k, true), 0);
    assert_eq!(sys_condvar_create(&mut k, 0), 0);
    assert_eq!(sys_thread_create(&mut k, 0x10000, 0), 1);
    assert_eq!(sys_thread_create(&mut k, 0x10000, 0), 2);
    assert_eq!(sys_mutex_lock(&mut k, 0), 0);
    assert_eq!(sys_yield(&mut k), 0);
    assert_eq!(cur(&k), (0, 1));
    // thread 1 waits for the mutex that thread 0 holds
    assert_eq!(sys_mutex_lock(&mut k, 0), 0);
    while cur(&k) != (0, 0) {
        assert_eq!(sys_yield(&mut k), 0);
    }
    // thread 0 waits on the condition variable: the mutex goes to thread 1
    assert_eq!(sys_condvar_wait(&mut k, 0, 0), 0);
    {
        let inner = &k.processes[0].as_ref().unwrap().inner;
        assert!(inner.mutex_list[0].as_ref().unwrap().is_locked());
        assert_eq!(inner.mutex_ledger.allocation(0, 0), 0);
        assert_eq!(inner.mutex_ledger.allocation(1, 0), 1);
        assert_eq!(inner.mutex_ledger.need(1, 0), 0);
        assert_eq!(inner.mutex_ledger.available(0), 0);
    }
    while cur(&k) != (0, 1) {
        assert_eq!(sys_yield(&mut k), 0);
    }
    // thread 1 waits too: nobody is left to take the mutex, which is free
    assert_eq!(sys_condvar_wait(&mut k, 0, 0), 0);
    let inner = &k.processes[0].as_ref().unwrap().inner;
    assert!(!inner.mutex_list[0].as_ref().unwrap().is_locked());
    assert_eq!(inner.mutex_ledger.allocation(1, 0), 0);
    assert_eq!(inner.mutex_ledger.available(0), 1);
    assert_eq!(cur(&k), (0, 2));
}

#[test]
fn the_processor_idles_when_no_thread_is_ready() {
    let mut k = boot();
    let mut me = k.current.take().unwrap();
    me.task_status = TaskStatus::Blocked;
    k.add_task(me);
    k.schedule();
    assert!(k.current.is_none());
    assert_eq!(k.task_manager.len(), 1);
}

#[test]
fn synchronization_argument_errors() {
    let mut k = boot();
    assert_eq!(sys_mutex_lock(&mut k, 0), -1);
    assert_eq!(sys_mutex_unlock(&mut k, 0), -1);
    assert_eq!(sys_semaphore_up(&mut k, 0), -1);
    assert_eq!(sys_semaphore_down(&mut k, 3), -1);
    assert_eq!(sys_condvar_signal(&mut k, 0), -1);
    assert_eq!(sys_condvar_wait(&mut k, 0, 0), -1);
    assert_eq!(sys_semaphore_create(&mut k, usize::MAX), -1);
    assert_eq!(sys_mutex_create(&mut k, true), 0);
    assert_eq!(sys_mutex_create(&mut k, false), 1);
    assert_eq!(sys_condvar_create(&mut k, 7), 0);
    assert_eq!(sys_condvar_create(&mut k, 7), 1);
    assert_eq!(sys_semaphore_create(&mut k, 0), 0);
    assert_eq!(sys_semaphore_create(&mut k, isize::MAX as usize), 1);
    assert_eq!(sys_semaphore_up(&mut k, 1), -1);
    // a free mutex cannot be given up, and the condition variable needs a held one
    assert_eq!(sys_mutex_unlock(&mut k, 0), -1);
    assert_eq!(sys_condvar_wait(&mut k, 0, 0), -1);
    assert_eq!(sys_condvar_wait(&mut k, 5, 0), -1);
    assert_eq!(sys_mutex_lock(&mut k, 0), 0);
    assert_eq!(sys_condvar_wait(&mut k, 0, 9), -1);
    assert_eq!(cur(&k), (0, 0));
    let inner = &k.processes[0].as_ref().unwrap().inner;
    assert_eq!(inner.mutex_ledger.resource_count(), 2);
    assert_eq!(inner.semaphore_ledger.resource_count(), 2);
    assert_eq!(inner.semaphore_ledger.available(1), isize::MAX as usize);
    assert_eq!(inner.mutex_ledger.available(1), 1);
}

#[test]
fn a_signalling_semaphore_gains_a_unit() {
    let mut k = boot();
    assert_eq!(sys_semaphore_create(&mut k, 0), 0);
    assert_eq!(sys_thread_create(&mut k, 0x10000, 0), 1);
    assert_eq!(sys_yield(&mut k), 0);
    assert_eq!(cur(&k), (0, 1));
    assert_eq!(sys_semaphore_down(&mut k, 0), 0);
    assert_eq!(cur(&k), (0, 0));
    assert_eq!(sys_semaphore_up(&mut k, 0), 0);
    let inner = &k.processes[0].as_ref().unwrap().inner;
    assert_eq!(inner.semaphore_ledger.allocation(1, 0), 1);
    assert_eq!(inner.semaphore_ledger.allocation(0, 0), 0);
    assert_eq!(inner.semaphore_ledger.need(1, 0), 0);
    assert_eq!(inner.semaphore_ledger.available(0), 0);
    assert_eq!(inner.semaphore_list[0].as_ref().unwrap().get_count(), 0);
    assert_eq!(k.task_manager.len(), 1);
}

#[test]
fn fstat_nlink() {
    let mut k = boot();
    let a = put_str(&mut k, SCRATCH, "a");
    let b = put_str(&mut k, SCRATCH + 8, "b");
    let text = SCRATCH + 16;
    let st = SCRATCH + 64;
    assert!(k.write_user(text, &b"hello".to_vec()));
    let fd_a = sys_open(&mut k, a, O_CREATE | O_WRONLY);
    assert_eq!(fd_a, 3);
    assert_eq!(sys_write(&mut k, 3, text, 5), 5);
    assert_eq!(sys_linkat(&mut k, a, b), 0);
    assert_eq!(sys_fstat(&mut k, 3, st), 0);
    let stat = peek(&k, 0, st, 80).unwrap();
    assert_eq!(&stat[20..24], &2u32.to_le_bytes());
    assert_eq!(&stat[16..20], &0o100000u32.to_le_bytes());
    assert_eq!(sys_unlinkat(&mut k, a), 0);
    let fd_b = sys_open(&mut k, b, O_RDONLY);
    assert_eq!(fd_b, 4);
    assert_eq!(sys_fstat(&mut k, 4, st), 0);
    let stat = peek(&k, 0, st, 80).unwrap();
    assert_eq!(&stat[20..24], &1u32.to_le_bytes());
    assert_eq!(&stat[0..8], &[0u8; 8]);
    assert_eq!(&stat[8..16], &0u64.to_le_bytes());
    assert_eq!(&stat[24..80], &[0u8; 56]);
    assert_eq!(sys_read(&mut k, 4, text + 8, 5), 5);
    assert_eq!(peek(&k, 0, text + 8, 5), Some(b"hello".to_vec()));
}

#[test]
fn open_write_close_open_read() {
    let mut k = boot();
    let path = put_str(&mut k, SCRATCH, "file");
    let src = SCRATCH + 0x20;
    let dst = SCRATCH + 0x80;
    let data: Vec<u8> = (1..=40u8).collect();
    assert!(k.write_user(src, &data));
    assert_eq!(sys_open(&mut k, path, O_CREATE | O_WRONLY), 3);
    assert_eq!(sys_write(&mut k, 3, src, 40), 40);
    assert_eq!(sys_close(&mut k, 3), 0);
    assert_eq!(sys_open(&mut k, path, O_RDONLY), 3);
    assert_eq!(sys_read(&mut k, 3, dst, 40), 40);
    assert_eq!(peek(&k, 0, dst, 40), Some(data));
    assert_eq!(sys_read(&mut k, 3, dst, 40), 0);
}

#[test]
fn file_argument_errors() {
    let mut k = boot();
    let path = put_str(&mut k, SCRATCH, "f");
    let other = put_str(&mut k, SCRATCH + 8, "g");
    assert_eq!(sys_open(&mut k, path, O_RDONLY), -1);
    assert_eq!(sys_open(&mut k, 0x5000_0000, O_CREATE), -1);
    assert_eq!(sys_open(&mut k, path, O_CREATE | 4), -1);
    assert_eq!(sys_write(&mut k, 3, SCRATCH, 1), -1);
    assert_eq!(sys_read(&mut k, 3, SCRATCH, 1), -1);
    assert_eq!(sys_close(&mut k, 3), -1);
    assert_eq!(sys_close(&mut k, 99), -1);
    assert_eq!(sys_fstat(&mut k, 3, SCRATCH), -1);
    assert_eq!(sys_fstat(&mut k, 1, SCRATCH), -1);
    assert_eq!(sys_linkat(&mut k, path, other), -1);
    assert_eq!(sys_unlinkat(&mut k, path), -1);
    assert_eq!(sys_unlinkat(&mut k, 0x5000_0000), -1);
    assert_eq!(sys_open(&mut k, path, O_CREATE | O_RDONLY), 3);
    assert_eq!(sys_write(&mut k, 3, SCRATCH, 1), -1);
    assert_eq!(sys_read(&mut k, 3, 0x5000_0000, 1), -1);
    assert_eq!(sys_fstat(&mut k, 3, 0x5000_0000), -1);
    assert_eq!(sys_linkat(&mut k, path, path), -1);
    assert_eq!(sys_linkat(&mut k, other, path), -1);
    assert_eq!(sys_linkat(&mut k, path, 0x5000_0000), -1);
    assert_eq!(sys_linkat(&mut k, path, other), 0);
    assert_eq!(sys_linkat(&mut k, path, other), -1);
    assert_eq!(sys_close(&mut k, 3), 0);
    assert_eq!(sys_close(&mut k, 3), -1);
    // the lowest free descriptor is used again
    assert_eq!(sys_close(&mut k, 0), 0);
    assert_eq!(sys_open(&mut k, other, O_RDONLY), 0);
    assert_eq!(sys_open(&mut k, other, O_RDONLY), 3);
    assert_eq!(k.processes[0].as_ref().unwrap().inner.fd_table.len(), 4);
}

#[test]
fn console_reads_wait_for_input_and_writes_go_out() {
    let mut k = boot();
    assert!(k.write_user(SCRATCH, &b"hi\n".to_vec()));
    assert_eq!(sys_write(&mut k, 1, SCRATCH, 3), 3);
    assert_eq!(sys_write(&mut k, 2, SCRATCH, 2), 2);
    assert_eq!(sys_write(&mut k, 0, SCRATCH, 2), -1);
    assert_eq!(sys_write(&mut k, 1, 0x5000_0000, 2), -1);
    assert_eq!(k.fs.take_output(), b"hi\nhi".to_vec());
    assert_eq!(sys_read(&mut k, 1, SCRATCH, 1), -1);
    assert_eq!(sys_read(&mut k, 0, SCRATCH, 0), 0);
    assert_eq!(sys_fork(&mut k), 1);
    assert_eq!(sys_read(&mut k, 0, SCRATCH + 8, 1), -2);
    assert_eq!(cur(&k), (1, 0));
    k.fs.push_input(&b"xyz".to_vec());
    assert_eq!(sys_yield(&mut k), 0);
    assert_eq!(cur(&k), (0, 0));
    assert_eq!(sys_read(&mut k, 0, SCRATCH + 8, 2), 2);
    assert_eq!(peek(&k, 0, SCRATCH + 8, 3), Some(b"xy\0".to_vec()));
    assert_eq!(sys_read(&mut k, 0, SCRATCH + 8, 2), 1);
    assert_eq!(peek(&k, 0, SCRATCH + 8, 2), Some(b"zy".to_vec()));
}

#[test]
fn user_strings_are_read_through_the_address_space() {
    let mut k = boot();
    put_str(&mut k, SCRATCH, "name");
    assert_eq!(k.read_user_str(SCRATCH), Some(b"name".to_vec()));
    assert_eq!(k.read_user_str(SCRATCH + 4), Some(vec![]));
    assert_eq!(k.read_user_str(0x5000_0000), None);
    assert!(!k.write_user(STACK_TOP - 1, &vec![1, 2]));
    assert_eq!(peek(&k, 0, STACK_TOP - 1, 1), Some(vec![0]));
    let areas = k.processes[0].as_ref().unwrap().inner.memory_set.area_count();
    assert_eq!(areas, 4);
    let ms = &k.processes[0].as_ref().unwrap().inner.memory_set;
    assert_eq!(ms.area(2).map_perm(), PERM_R | PERM_W | PERM_U);
    assert_eq!(ms.area(3).map_perm(), PERM_R | PERM_W);
}
