use kernel_core::fs::{
    bytes_eq, encode_stat, FileKind, FileSystem, CONSOLE_IN, CONSOLE_OUT, MODE_FILE, O_CREATE,
    O_RDONLY, O_RDWR, O_TRUNC, O_WRONLY,
};
use kernel_core::table::first_free;

fn name(s: &str) -> Vec<u8> {
    s.as_bytes().to_vec()
}

#[test]
fn first_free_slot_of_a_table() {
    assert_eq!(first_free::<u8>(&vec![]), 0);
    assert_eq!(first_free(&vec![Some(1), Some(2)]), 2);
    assert_eq!(first_free(&vec![Some(1), None, Some(3), None]), 1);
    assert_eq!(first_free::<u8>(&vec![None, None]), 0);
}

#[test]
fn byte_strings_compare() {
    assert!(bytes_eq(&name("abc"), &name("abc")));
    assert!(!bytes_eq(&name("abc"), &name("abd")));
    assert!(!bytes_eq(&name("abc"), &name("ab")));
    assert!(bytes_eq(&vec![], &vec![]));
}

#[test]
fn new_file_system_has_only_the_console() {
    let fs = FileSystem::new();
    assert!(fs.open_file_at(CONSOLE_IN).unwrap().kind == FileKind::Stdin);
    assert!(fs.open_file_at(CONSOLE_OUT).unwrap().kind == FileKind::Stdout);
    assert!(fs.open_file_at(2).is_none());
    assert!(fs.find(&name("a")).is_none());
    assert!(fs.console_is_silent());
}

#[test]
fn write_then_read_gives_back_the_bytes() {
    let mut fs = FileSystem::new();
    let h = fs.open_file(&name("notes"), O_CREATE | O_WRONLY).unwrap();
    assert_eq!(h, 2);
    assert_eq!(fs.write(h, &name("hello, ")), Some(7));
    assert_eq!(fs.write(h, &name("world")), Some(5));
    fs.close(h);
    assert!(fs.open_file_at(h).is_none());
    let h = fs.open_file(&name("notes"), O_RDONLY).unwrap();
    assert_eq!(h, 2);
    assert_eq!(fs.read(h, 12), Some(name("hello, world")));
    assert_eq!(fs.read(h, 12), Some(vec![]));
}

#[test]
fn reads_are_short_at_the_end_and_move_the_offset() {
    let mut fs = FileSystem::new();
    let w = fs.open_file(&name("f"), O_CREATE | O_RDWR).unwrap();
    assert_eq!(fs.write(w, &name("0123456789")), Some(10));
    let r = fs.open_file(&name("f"), O_RDONLY).unwrap();
    assert_eq!(r, 3);
    assert_eq!(fs.read(r, 4), Some(name("0123")));
    assert_eq!(fs.open_file_at(r).unwrap().offset, 4);
    assert_eq!(fs.read(r, 0), Some(vec![]));
    assert_eq!(fs.read(r, 100), Some(name("456789")));
    assert_eq!(fs.read(r, 1), Some(vec![]));
    // the writer's offset is at the end: it reads nothing, and writes append
    assert_eq!(fs.read(w, 5), Some(vec![]));
    assert_eq!(fs.write(w, &name("ab")), Some(2));
    assert_eq!(fs.read_all(fs.find(&name("f")).unwrap()), name("0123456789ab"));
}

#[test]
fn writes_overwrite_at_the_offset() {
    let mut fs = FileSystem::new();
    let a = fs.open_file(&name("f"), O_CREATE | O_WRONLY).unwrap();
    assert_eq!(fs.write(a, &name("xxxxxxxx")), Some(8));
    let b = fs.open_file(&name("f"), O_WRONLY).unwrap();
    assert_eq!(fs.write(b, &name("ab")), Some(2));
    assert_eq!(fs.read_all(fs.find(&name("f")).unwrap()), name("abxxxxxx"));
    // after a truncation the first writer's offset lies beyond the end
    let c = fs.open_file(&name("f"), O_WRONLY | O_TRUNC).unwrap();
    assert_eq!(fs.read_all(fs.find(&name("f")).unwrap()), vec![]);
    assert_eq!(fs.write(a, &name("z")), Some(1));
    assert_eq!(fs.read_all(fs.find(&name("f")).unwrap()), vec![0, 0, 0, 0, 0, 0, 0, 0, b'z']);
    fs.close(c);
}

#[test]
fn open_errors() {
    let mut fs = FileSystem::new();
    assert_eq!(fs.open_file(&name("missing"), O_RDONLY), None);
    assert_eq!(fs.open_file(&name("missing"), O_TRUNC), None);
    assert_eq!(fs.open_file(&name("x"), O_CREATE | 4), None);
    assert_eq!(fs.open_file(&name("x"), 0x8000_0000), None);
    assert!(fs.find(&name("x")).is_none());
    assert!(fs.open_file_at(2).is_none());
}

#[test]
fn access_modes_are_enforced() {
    let mut fs = FileSystem::new();
    let w = fs.open_file(&name("f"), O_CREATE | O_WRONLY).unwrap();
    assert_eq!(fs.read(w, 1), None);
    let r = fs.open_file(&name("f"), O_RDONLY).unwrap();
    assert_eq!(fs.write(r, &name("a")), None);
    let rw = fs.open_file(&name("f"), O_RDWR).unwrap();
    assert_eq!(fs.write(rw, &name("a")), Some(1));
    assert_eq!(fs.read(rw, 1), Some(vec![]));
    assert_eq!(fs.read(99, 1), None);
    assert_eq!(fs.write(99, &name("a")), None);
    assert_eq!(fs.read(CONSOLE_OUT, 1), None);
    assert_eq!(fs.write(CONSOLE_IN, &name("a")), None);
}

#[test]
fn create_empties_an_existing_file() {
    let mut fs = FileSystem::new();
    let h = fs.open_file(&name("f"), O_CREATE | O_WRONLY).unwrap();
    fs.write(h, &name("old"));
    fs.close(h);
    let ino = fs.find(&name("f")).unwrap();
    let h = fs.open_file(&name("f"), O_CREATE | O_RDONLY).unwrap();
    assert_eq!(fs.find(&name("f")), Some(ino));
    assert_eq!(fs.read(h, 10), Some(vec![]));
}

#[test]
fn handles_are_shared_by_count() {
    let mut fs = FileSystem::new();
    let h = fs.open_file(&name("f"), O_CREATE | O_RDWR).unwrap();
    assert!(fs.dup(h));
    assert_eq!(fs.open_file_at(h).unwrap().refs, 2);
    fs.close(h);
    assert_eq!(fs.open_file_at(h).unwrap().refs, 1);
    fs.close(h);
    assert!(fs.open_file_at(h).is_none());
    // the console is never closed
    assert!(fs.dup(CONSOLE_OUT));
    fs.close(CONSOLE_OUT);
    fs.close(CONSOLE_OUT);
    assert!(fs.open_file_at(CONSOLE_OUT).is_some());
    // a freed handle is used again
    assert_eq!(fs.open_file(&name("g"), O_CREATE), Some(h));
}

#[test]
fn console_in_and_out() {
    let mut fs = FileSystem::new();
    assert_eq!(fs.read(CONSOLE_IN, 4), Some(vec![]));
    fs.push_input(&name("abcdef"));
    assert!(!fs.console_is_silent());
    assert_eq!(fs.read(CONSOLE_IN, 4), Some(name("abcd")));
    assert_eq!(fs.read(CONSOLE_IN, 4), Some(name("ef")));
    assert!(fs.console_is_silent());
    assert_eq!(fs.write(CONSOLE_OUT, &name("hi ")), Some(3));
    assert_eq!(fs.write(CONSOLE_OUT, &name("there")), Some(5));
    assert_eq!(fs.take_output(), name("hi there"));
    assert_eq!(fs.take_output(), vec![]);
}

#[test]
fn link_and_unlink_count_names() {
    let mut fs = FileSystem::new();
    let h = fs.open_file(&name("a"), O_CREATE | O_WRONLY).unwrap();
    assert_eq!(fs.write(h, &name("hello")), Some(5));
    let ino = fs.find(&name("a")).unwrap();
    assert_eq!(fs.get_link_num(ino), 1);
    assert!(fs.link(&name("a"), &name("b")));
    assert_eq!(fs.find(&name("b")), Some(ino));
    assert_eq!(fs.get_link_num(ino), 2);
    assert_eq!(fs.stat(h).unwrap().nlink, 2);
    assert!(fs.unlink(&name("a")));
    assert!(fs.find(&name("a")).is_none());
    assert_eq!(fs.find(&name("b")), Some(ino));
    let hb = fs.open_file(&name("b"), O_RDONLY).unwrap();
    let st = fs.stat(hb).unwrap();
    assert_eq!(st.nlink, 1);
    assert_eq!(st.ino, ino as u64);
    assert_eq!(st.dev, 0);
    assert_eq!(st.mode, MODE_FILE);
    assert_eq!(st.pad, [0u64; 7]);
    assert_eq!(fs.read(hb, 5), Some(name("hello")));
    // the last name takes the bytes with it
    assert!(fs.unlink(&name("b")));
    assert_eq!(fs.get_link_num(ino), 0);
    assert_eq!(fs.read_all(ino), vec![]);
}

#[test]
fn link_errors() {
    let mut fs = FileSystem::new();
    fs.open_file(&name("a"), O_CREATE).unwrap();
    fs.open_file(&name("c"), O_CREATE).unwrap();
    assert!(!fs.can_link(&name("a"), &name("a")));
    assert!(!fs.link(&name("a"), &name("a")));
    assert!(!fs.link(&name("missing"), &name("b")));
    assert!(!fs.link(&name("a"), &name("c")));
    assert!(fs.can_link(&name("a"), &name("b")));
    assert!(!fs.unlink(&name("missing")));
    assert_eq!(fs.get_link_num(fs.find(&name("a")).unwrap()), 1);
}

#[test]
fn stat_of_console_or_closed_handle_is_nothing() {
    let fs = FileSystem::new();
    assert!(fs.stat(CONSOLE_IN).is_none());
    assert!(fs.stat(CONSOLE_OUT).is_none());
    assert!(fs.stat(2).is_none());
}

#[test]
fn stat_is_eighty_bytes_little_endian() {
    let mut fs = FileSystem::new();
    fs.open_file(&name("zero"), O_CREATE).unwrap();
    let h = fs.open_file(&name("one"), O_CREATE).unwrap();
    assert!(fs.link(&name("one"), &name("uno")));
    let bytes = encode_stat(&fs.stat(h).unwrap());
    assert_eq!(bytes.len(), 80);
    assert_eq!(&bytes[0..8], &[0u8; 8]);
    assert_eq!(&bytes[8..16], &1u64.to_le_bytes());
    assert_eq!(&bytes[16..20], &0o100000u32.to_le_bytes());
    assert_eq!(&bytes[20..24], &2u32.to_le_bytes());
    assert_eq!(&bytes[24..80], &[0u8; 56]);
}
