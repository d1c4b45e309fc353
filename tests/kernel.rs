use os5::frame::PhysMem;
use os5::memory_set::MemorySet;
use os5::page_table::{vpn_indexes, PTEFlags, PageTable, PageTableEntry, FLAG_R, FLAG_U, FLAG_V, FLAG_W, FLAG_X};
use os5::scheduler::{Processor, TaskManager};
use os5::syscall::{
    find_app, sys_exec, sys_exit, sys_fork, sys_get_time, sys_getpid, sys_mmap, sys_munmap,
    sys_set_priority, sys_spawn, sys_task_info, sys_waitpid, sys_yield, TaskInfo, TimeVal,
};
use os5::task::{Pass, TaskStatus, TaskTable, INIT_PID};
use os5::user_access::{read_user_byte, translated_byte_buffer, translated_str, user_range_mapped, write_user_bytes};

const BASE: u64 = 0x80000;

fn fork(tasks: &mut TaskTable, manager: &mut TaskManager, cur: usize) -> isize {
    let mut mem = PhysMem::new(BASE, 4);
    let space = MemorySet::new_bare(&mut mem).unwrap();
    let (pid, copy) = sys_fork(tasks, manager, cur, &space, &mut mem);
    assert!(copy.is_some());
    pid
}

fn user_space(frames: usize) -> (PhysMem, MemorySet) {
    let mut mem = PhysMem::new(BASE, frames);
    let ms = MemorySet::new_bare(&mut mem).unwrap();
    (mem, ms)
}

fn read_bytes(mem: &PhysMem, token: u64, va: u64, n: u64) -> Vec<u8> {
    (0..n).map(|i| read_user_byte(mem, token, va + i).unwrap()).collect()
}

#[test]
fn page_table_map_translate_unmap() {
    let mut mem = PhysMem::new(BASE, 16);
    let mut pt = PageTable::new(&mut mem).unwrap();
    let flags = PTEFlags::from_bits(FLAG_R | FLAG_W | FLAG_U);
    assert!(pt.map(&mut mem, 0x1_2345, 0xABCDE, flags));
    let e = pt.translate(&mem, 0x1_2345).unwrap();
    assert_eq!(e.ppn(), 0xABCDE);
    assert_eq!(e.flags().bits, FLAG_R | FLAG_W | FLAG_U | FLAG_V);
    assert!(e.is_valid() && e.readable() && e.writable() && !e.executable());
    pt.unmap(&mut mem, 0x1_2345);
    assert!(pt.translate(&mem, 0x1_2345).is_none());
}

#[test]
fn page_table_neighbours_untouched() {
    let mut mem = PhysMem::new(BASE, 16);
    let mut pt = PageTable::new(&mut mem).unwrap();
    assert!(pt.map(&mut mem, 10, 0x111, PTEFlags::from_bits(FLAG_R)));
    assert!(pt.map(&mut mem, 11, 0x222, PTEFlags::from_bits(FLAG_X)));
    assert!(pt.map(&mut mem, 10 + 512 * 512, 0x333, PTEFlags::from_bits(FLAG_W)));
    assert_eq!(pt.translate(&mem, 10).unwrap().ppn(), 0x111);
    assert_eq!(pt.translate(&mem, 11).unwrap().ppn(), 0x222);
    assert_eq!(pt.translate(&mem, 10 + 512 * 512).unwrap().ppn(), 0x333);
    assert!(pt.translate(&mem, 12).is_none());
    pt.unmap(&mut mem, 11);
    assert_eq!(pt.translate(&mem, 10).unwrap().ppn(), 0x111);
    assert!(pt.translate(&mem, 11).is_none());
}

#[test]
fn page_table_out_of_memory() {
    let mut mem = PhysMem::new(BASE, 2);
    let mut pt = PageTable::new(&mut mem).unwrap();
    assert!(!pt.map(&mut mem, 5, 0x10, PTEFlags::from_bits(FLAG_R)));
    assert!(pt.translate(&mem, 5).is_none());
    let mut empty = PhysMem::new(BASE, 0);
    assert!(PageTable::new(&mut empty).is_none());
}

#[test]
fn token_round_trip() {
    let mut mem = PhysMem::new(BASE, 4);
    let pt = PageTable::new(&mut mem).unwrap();
    let token = pt.token();
    assert_eq!(token >> 60, 8);
    assert_eq!(token & ((1u64 << 44) - 1), BASE);
    let view = PageTable::from_token(token);
    assert_eq!(view.token(), token);
}

#[test]
fn translate_va_keeps_offset() {
    let mut mem = PhysMem::new(BASE, 8);
    let mut pt = PageTable::new(&mut mem).unwrap();
    assert!(pt.map(&mut mem, 3, 0x55, PTEFlags::from_bits(FLAG_R)));
    assert_eq!(pt.translate_va(&mem, 3 * 4096 + 0x7b), Some(0x55 * 4096 + 0x7b));
    assert_eq!(pt.translate_va(&mem, 4 * 4096), None);
}

#[test]
fn entry_fields() {
    let e = PageTableEntry::new(0xABCDE, PTEFlags::from_bits(FLAG_R | FLAG_V));
    assert_eq!(e.bits, (0xABCDE << 10) | 3);
    assert_eq!(e.ppn(), 0xABCDE);
    assert!(e.is_valid() && e.readable());
    assert!(!PageTableEntry::empty().is_valid());
    assert_eq!(vpn_indexes(0x1_2345), [0x0, 0x91, 0x145]);
}

#[test]
fn mmap_munmap_happy_path() {
    let (mut mem, mut ms) = user_space(64);
    assert_eq!(sys_mmap(&mut ms, &mut mem, 0x3f_ffff_e000, 0x2000, 0x3), 0);
    assert_eq!(sys_mmap(&mut ms, &mut mem, 0x1000_0000, 0x3000, 0x3), 0);
    assert_eq!(sys_mmap(&mut ms, &mut mem, 0x1000_1000, 0x1000, 0x1), -1);
    assert_eq!(sys_munmap(&mut ms, &mut mem, 0x1000_0000, 0x3000), 0);
    assert_eq!(sys_mmap(&mut ms, &mut mem, 0x1000_0000, 0x3000, 0x3), 0);
}

#[test]
fn mmap_argument_checks() {
    let (mut mem, mut ms) = user_space(32);
    assert_eq!(sys_mmap(&mut ms, &mut mem, 0x1000_0001, 0x1000, 0x3), -1);
    assert_eq!(sys_mmap(&mut ms, &mut mem, 0x1000_0000, 0x1000, 0x8), -1);
    assert_eq!(sys_mmap(&mut ms, &mut mem, 0x1000_0000, 0x1000, 0x0), -1);
    assert_eq!(sys_mmap(&mut ms, &mut mem, 0x1000_0000, 0, 0x3), 0);
    assert_eq!(sys_munmap(&mut ms, &mut mem, 0x1000_0000, 0x1000), -1);
    assert_eq!(sys_munmap(&mut ms, &mut mem, 0x1000_0001, 0x1000), -1);
    assert_eq!(sys_munmap(&mut ms, &mut mem, 0x1000_0000, 0), 0);
}

#[test]
fn mmap_sets_permissions() {
    let (mut mem, mut ms) = user_space(32);
    assert_eq!(sys_mmap(&mut ms, &mut mem, 0x2000_0000, 0x1000, 0x5), 0);
    let pt = PageTable::from_token(ms.token());
    let e = pt.translate(&mem, 0x2000_0000 / 4096).unwrap();
    assert_eq!(e.flags().bits, FLAG_R | FLAG_X | FLAG_U | FLAG_V);
}

#[test]
fn munmap_must_cover_whole_areas() {
    let (mut mem, mut ms) = user_space(32);
    assert_eq!(sys_mmap(&mut ms, &mut mem, 0x1000_0000, 0x2000, 0x3), 0);
    assert_eq!(sys_munmap(&mut ms, &mut mem, 0x1000_0000, 0x1000), -1);
    assert_eq!(sys_munmap(&mut ms, &mut mem, 0x1000_0000, 0x2000), 0);
    assert!(!user_range_mapped(&mem, ms.token(), 0x1000_0000, 1));
}

#[test]
fn mmap_needs_free_frames() {
    let (mut mem, mut ms) = user_space(4);
    assert_eq!(sys_mmap(&mut ms, &mut mem, 0x1000_0000, 0x2000, 0x3), -1);
    assert_eq!(sys_mmap(&mut ms, &mut mem, 0x1000_0000, 0x1000, 0x3), 0);
}

#[test]
fn byte_buffer_covers_range() {
    let (mut mem, mut ms) = user_space(32);
    assert_eq!(sys_mmap(&mut ms, &mut mem, 0x1000_0000, 0x3000, 0x3), 0);
    let token = ms.token();
    let bufs = translated_byte_buffer(&mem, token, 0x1000_0ff0, 0x1020);
    assert_eq!(bufs.len(), 3);
    assert_eq!(bufs.iter().map(|b| b.len()).sum::<usize>(), 0x1020);
    assert_eq!((bufs[0].start, bufs[0].end), (0xff0, 0x1000));
    assert_eq!((bufs[1].start, bufs[1].end), (0, 0x1000));
    assert_eq!((bufs[2].start, bufs[2].end), (0, 0x10));
    assert!(translated_byte_buffer(&mem, token, 0x1000_0000, 0).is_empty());
}

#[test]
fn write_then_read_user_string() {
    let (mut mem, mut ms) = user_space(32);
    assert_eq!(sys_mmap(&mut ms, &mut mem, 0x1000_0000, 0x2000, 0x3), 0);
    let token = ms.token();
    let text = b"initproc\0".to_vec();
    write_user_bytes(&mut mem, token, 0x1000_0ffc, &text);
    assert_eq!(translated_str(&mem, token, 0x1000_0ffc), Some(b"initproc".to_vec()));
    assert_eq!(translated_str(&mem, token, 0x1000_1ffe), Some(Vec::new()));
    assert_eq!(translated_str(&mem, token, 0x1000_2000), None);
}

#[test]
fn get_time_across_page_boundary() {
    let (mut mem, mut ms) = user_space(32);
    assert_eq!(sys_mmap(&mut ms, &mut mem, 0x1000_0000, 0x2000, 0x3), 0);
    let token = ms.token();
    let ts = 0x1000_1000 - 4;
    assert_eq!(sys_get_time(&mut mem, token, ts, 3_500_123), 0);
    let b = read_bytes(&mem, token, ts, 16);
    let sec = u64::from_le_bytes(b[0..8].try_into().unwrap());
    let usec = u64::from_le_bytes(b[8..16].try_into().unwrap());
    assert_eq!((sec, usec), (3, 500_123));
    assert_eq!(sys_get_time(&mut mem, token, 0x1000_2000 - 4, 1), -1);
}

#[test]
fn timeval_layout() {
    let tv = TimeVal::from_us(2_000_007);
    assert_eq!((tv.sec, tv.usec), (2, 7));
    let b = tv.to_bytes();
    assert_eq!(b.len(), 16);
    assert_eq!(b[0], 2);
    assert_eq!(b[8], 7);
}

#[test]
fn fork_and_waitpid() {
    let (mut mem, mut ms) = user_space(32);
    assert_eq!(sys_mmap(&mut ms, &mut mem, 0x1000_0000, 0x1000, 0x3), 0);
    let token = ms.token();
    let mut tasks = TaskTable::new();
    let mut manager = TaskManager::new();
    let mut processor = Processor::new();
    let child = fork(&mut tasks, &mut manager, INIT_PID);
    assert!(child > 0);
    assert_eq!(tasks.task(child as usize).syscall_ret, 0);
    assert_eq!(manager.len(), 1);
    assert_eq!(sys_waitpid(&mut tasks, &mut mem, token, INIT_PID, -1, 0x1000_0010), -2);
    assert_eq!(sys_waitpid(&mut tasks, &mut mem, token, INIT_PID, 7, 0x1000_0010), -1);
    assert!(sys_exit(&mut tasks, &mut processor, child as usize, 42));
    assert_eq!(tasks.task(child as usize).status, TaskStatus::Zombie);
    assert_eq!(sys_waitpid(&mut tasks, &mut mem, token, INIT_PID, -1, 0x1000_0010), child);
    let b = read_bytes(&mem, token, 0x1000_0010, 4);
    assert_eq!(i32::from_le_bytes(b[0..4].try_into().unwrap()), 42);
    assert!(!tasks.is_live(child as usize));
    assert!(tasks.task(INIT_PID).children.is_empty());
    assert_eq!(sys_waitpid(&mut tasks, &mut mem, token, INIT_PID, -1, 0x1000_0010), -1);
}

#[test]
fn waitpid_unmapped_pointer() {
    let (mut mem, ms) = user_space(8);
    let mut tasks = TaskTable::new();
    let mut manager = TaskManager::new();
    let mut processor = Processor::new();
    let child = fork(&mut tasks, &mut manager, INIT_PID);
    assert!(sys_exit(&mut tasks, &mut processor, child as usize, 1));
    assert_eq!(sys_waitpid(&mut tasks, &mut mem, ms.token(), INIT_PID, child, 0x1000_0000), -1);
    assert!(tasks.is_live(child as usize));
}

#[test]
fn exit_reparents_to_init() {
    let mut tasks = TaskTable::new();
    let mut manager = TaskManager::new();
    let mut processor = Processor::new();
    let a = fork(&mut tasks, &mut manager, INIT_PID) as usize;
    let b = fork(&mut tasks, &mut manager, a) as usize;
    assert!(sys_exit(&mut tasks, &mut processor, a, 3));
    assert_eq!(tasks.task(b).parent, Some(INIT_PID));
    assert_eq!(tasks.task(INIT_PID).children, vec![a, b]);
    assert!(tasks.task(a).children.is_empty());
    assert!(!sys_exit(&mut tasks, &mut processor, INIT_PID, 0));
}

#[test]
fn getpid_and_priority_guard() {
    let mut tasks = TaskTable::new();
    let mut manager = TaskManager::new();
    let c = fork(&mut tasks, &mut manager, INIT_PID) as usize;
    assert_eq!(sys_getpid(&tasks, c), c as isize);
    let before = tasks.task(c).priority;
    assert_eq!(sys_set_priority(&mut tasks, c, 1), -1);
    assert_eq!(tasks.task(c).priority, before);
    assert_eq!(sys_set_priority(&mut tasks, c, 5), 5);
    assert_eq!(tasks.task(c).priority, 5);
}

#[test]
fn stride_fairness() {
    let mut tasks = TaskTable::new();
    let mut manager = TaskManager::new();
    let mut processor = Processor::new();
    let mut pids = Vec::new();
    for prio in [2isize, 4, 8] {
        let mut scratch = TaskManager::new();
        let p = fork(&mut tasks, &mut scratch, INIT_PID) as usize;
        assert_eq!(sys_set_priority(&mut tasks, p, prio), prio);
        manager.add(p);
        pids.push(p);
    }
    let mut counts = [0usize; 3];
    for step in 0..14u64 {
        let p = processor.run_next(&mut manager, &mut tasks, 1000 + step).unwrap();
        assert_eq!(tasks.task(p).status, TaskStatus::Running);
        counts[pids.iter().position(|&q| q == p).unwrap()] += 1;
        assert_eq!(sys_yield(&mut processor, &mut manager, &mut tasks), 0);
    }
    assert_eq!(counts, [2, 4, 8]);
    assert_eq!(tasks.task(pids[0]).start_time, 1000);
}

#[test]
fn fetch_on_empty_queue() {
    let mut tasks = TaskTable::new();
    let mut manager = TaskManager::new();
    let mut processor = Processor::new();
    assert!(processor.run_next(&mut manager, &mut tasks, 5).is_none());
    assert!(manager.fetch(&tasks).is_none());
    assert!(processor.current().is_none());
}

#[test]
fn pass_steps_and_wraps() {
    let mut p = Pass::new();
    p.step_by_prio(2);
    assert_eq!(p.0, 1 << 19);
    let old = p;
    p.step_by_prio(16);
    assert!(old.less_than(&p) && !p.less_than(&old));
    let mut q = Pass(u64::MAX - 10);
    let before = q;
    q.step_by_prio(8);
    assert_eq!(q.0, (1 << 17) - 11);
    assert!(before.less_than(&q) && !q.less_than(&before));
    let mut big = Pass(0);
    big.step_by_prio(1 << 30);
    assert_eq!(big.0, 1);
}

#[test]
fn exec_and_spawn_by_name() {
    let (mut mem, mut ms) = user_space(32);
    assert_eq!(sys_mmap(&mut ms, &mut mem, 0x1000_0000, 0x1000, 0x3), 0);
    let token = ms.token();
    write_user_bytes(&mut mem, token, 0x1000_0100, &b"ch5_spawn0\0".to_vec());
    write_user_bytes(&mut mem, token, 0x1000_0200, &b"missing\0".to_vec());
    let apps = vec![b"initproc".to_vec(), b"ch5_spawn0".to_vec()];
    assert_eq!(find_app(&apps, &b"ch5_spawn0".to_vec()), Some(1));
    let mut tasks = TaskTable::new();
    let mut manager = TaskManager::new();
    assert_eq!(sys_exec(&mem, token, 0x1000_0100, &apps, &mut tasks, INIT_PID), 0);
    assert_eq!(sys_exec(&mem, token, 0x1000_0200, &apps, &mut tasks, INIT_PID), -1);
    let child = sys_spawn(&mem, token, 0x1000_0100, &apps, &mut tasks, &mut manager, INIT_PID);
    assert_eq!(child, 1);
    assert_eq!(tasks.task(1).parent, Some(INIT_PID));
    assert_eq!(sys_spawn(&mem, token, 0x1000_0200, &apps, &mut tasks, &mut manager, INIT_PID), -1);
    assert_eq!(manager.len(), 1);
}

#[test]
fn task_info_reports_time() {
    let (mut mem, mut ms) = user_space(32);
    assert_eq!(sys_mmap(&mut ms, &mut mem, 0x1000_0000, 0x2000, 0x3), 0);
    let token = ms.token();
    let mut tasks = TaskTable::new();
    let mut manager = TaskManager::new();
    let mut processor = Processor::new();
    manager.add(INIT_PID);
    processor.run_next(&mut manager, &mut tasks, 10_000).unwrap();
    assert_eq!(sys_task_info(&mut mem, token, 0x1000_0000, &tasks, INIT_PID, 35_000), 0);
    let info = TaskInfo { status: TaskStatus::Running, syscall_times: vec![0; 500], time: 25 };
    let expected = info.to_bytes();
    assert_eq!(read_bytes(&mem, token, 0x1000_0000, expected.len() as u64), expected);
    assert_eq!(expected[0], 2);
    assert_eq!(&expected[expected.len() - 8..], &25u64.to_le_bytes());
}

#[test]
fn fork_clones_address_space() {
    let (mut mem, mut parent) = user_space(64);
    assert_eq!(sys_mmap(&mut parent, &mut mem, 0x1000_0000, 0x2000, 0x3), 0);
    assert_eq!(sys_mmap(&mut parent, &mut mem, 0x2000_0000, 0x1000, 0x1), 0);
    let pt = parent.token();
    write_user_bytes(&mut mem, pt, 0x1000_0ffe, &b"hello, child".to_vec());
    let mut tasks = TaskTable::new();
    let mut manager = TaskManager::new();
    let (pid, copy) = sys_fork(&mut tasks, &mut manager, INIT_PID, &parent, &mut mem);
    assert_eq!(pid, 1);
    let child = copy.unwrap();
    let ct = child.token();
    assert_ne!(ct, pt);
    assert_eq!(child.areas().len(), 2);
    assert_eq!(read_bytes(&mem, ct, 0x1000_0ffe, 12), b"hello, child".to_vec());
    assert_eq!(read_bytes(&mem, ct, 0x1000_0000, 0x2000), read_bytes(&mem, pt, 0x1000_0000, 0x2000));
    write_user_bytes(&mut mem, ct, 0x1000_0ffe, &b"J".to_vec());
    assert_eq!(read_bytes(&mem, pt, 0x1000_0ffe, 1), b"h".to_vec());
    assert_eq!(read_bytes(&mem, ct, 0x1000_0ffe, 1), b"J".to_vec());
    let cpt = PageTable::from_token(ct);
    assert_eq!(cpt.translate(&mem, 0x2000_0000 / 4096).unwrap().flags().bits, FLAG_R | FLAG_U | FLAG_V);
    let mut none_left = PhysMem::new(BASE, 1);
    let lone = MemorySet::new_bare(&mut none_left).unwrap();
    let (r, c) = sys_fork(&mut tasks, &mut manager, INIT_PID, &lone, &mut none_left);
    assert_eq!(r, -1);
    assert!(c.is_none());
    assert!(!tasks.is_live(2));
}

#[test]
fn waitpid_running_child_with_unmapped_pointer() {
    let (mut mem, ms) = user_space(8);
    let mut tasks = TaskTable::new();
    let mut manager = TaskManager::new();
    let child = fork(&mut tasks, &mut manager, INIT_PID);
    assert_eq!(sys_waitpid(&mut tasks, &mut mem, ms.token(), INIT_PID, child, 0x1000_0000), -2);
    assert_eq!(sys_waitpid(&mut tasks, &mut mem, ms.token(), INIT_PID, child + 1, 0x1000_0000), -1);
}

#[test]
fn empty_ranges_succeed_anywhere() {
    let (mut mem, mut ms) = user_space(8);
    assert_eq!(sys_mmap(&mut ms, &mut mem, 0x100_0000_0000, 0, 0x3), 0);
    assert_eq!(sys_munmap(&mut ms, &mut mem, 0x100_0000_0000, 0), 0);
    assert_eq!(sys_mmap(&mut ms, &mut mem, 0x100_0000_0000, 0x1000, 0x3), -1);
    assert_eq!(sys_munmap(&mut ms, &mut mem, 0x100_0000_0000, 0x1000), -1);
}

#[test]
fn spawn_uses_default_priority() {
    let (mut mem, mut ms) = user_space(16);
    assert_eq!(sys_mmap(&mut ms, &mut mem, 0x1000_0000, 0x1000, 0x3), 0);
    let token = ms.token();
    write_user_bytes(&mut mem, token, 0x1000_0000, &b"app\0".to_vec());
    let apps = vec![b"app".to_vec()];
    let mut tasks = TaskTable::new();
    let mut manager = TaskManager::new();
    assert_eq!(sys_set_priority(&mut tasks, INIT_PID, 3), 3);
    let c = sys_spawn(&mem, token, 0x1000_0000, &apps, &mut tasks, &mut manager, INIT_PID);
    assert_eq!(c, 1);
    assert_eq!(tasks.task(1).priority, 16);
}

#[test]
fn recycle_returns_frames() {
    let (mut mem, mut ms) = user_space(32);
    let before = mem.free_frames();
    assert_eq!(sys_mmap(&mut ms, &mut mem, 0x1000_0000, 0x3000, 0x3), 0);
    assert_eq!(sys_mmap(&mut ms, &mut mem, 0x2000_0000, 0x1000, 0x3), 0);
    let mapped = mem.free_frames();
    ms.recycle_data_pages(&mut mem);
    assert_eq!(mem.free_frames(), mapped + 4);
    assert!(mem.free_frames() < before);
    assert!(ms.areas().is_empty());
    assert!(!user_range_mapped(&mem, ms.token(), 0x1000_0000, 1));
    assert_eq!(sys_munmap(&mut ms, &mut mem, 0x2000_0000, 0x1000), -1);
}

#[test]
fn fresh_pool_counts_frames() {
    let mem = PhysMem::new(BASE, 7);
    assert_eq!(mem.free_frames(), 7);
}
