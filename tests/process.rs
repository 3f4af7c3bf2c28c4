use tutorial_kernel::mm::PAGE_SIZE;
use tutorial_kernel::process::{NO_PARENT, STACK_BOTTOM_VPN, STACK_FLAGS, USER_STACK_TOP};
use tutorial_kernel::vm::{FLAG_R, FLAG_U, FLAG_V, FLAG_W, FLAG_X, PORTAL_FLAGS, TRAMPOLINE_VPN};
use tutorial_kernel::{PhysMemory, Process, TaskIdCounter};

const CODE_VADDR: u64 = 0x10000;

fn put(b: &mut Vec<u8>, at: usize, v: u64, n: usize) {
    for i in 0..n {
        b[at + i] = (v >> (8 * i)) as u8;
    }
}

/// A 64-bit little-endian ELF image with one loadable segment that starts
/// at file offset 0 and is mapped at `CODE_VADDR`.
fn image(machine: u16, kind: u16, seg_flags: u32, mem_size: u64) -> Vec<u8> {
    let mut b = vec![0u8; 132];
    b[0..4].copy_from_slice(&[0x7f, b'E', b'L', b'F']);
    b[4] = 2;
    b[5] = 1;
    b[6] = 1;
    put(&mut b, 16, kind as u64, 2);
    put(&mut b, 18, machine as u64, 2);
    put(&mut b, 20, 1, 4);
    put(&mut b, 24, CODE_VADDR + 120, 8);
    put(&mut b, 32, 64, 8);
    put(&mut b, 52, 64, 2);
    put(&mut b, 54, 56, 2);
    put(&mut b, 56, 1, 2);
    put(&mut b, 58, 64, 2);
    put(&mut b, 64, 1, 4);
    put(&mut b, 68, seg_flags as u64, 4);
    put(&mut b, 72, 0, 8);
    put(&mut b, 80, CODE_VADDR, 8);
    put(&mut b, 88, CODE_VADDR, 8);
    put(&mut b, 96, 132, 8);
    put(&mut b, 104, mem_size, 8);
    put(&mut b, 112, 0x1000, 8);
    b[120..132].copy_from_slice(&[0x13, 0x05, 0xa0, 0x02, 0x93, 0x08, 0xd0, 0x05, 0x73, 0, 0, 0]);
    b
}

fn riscv_exec() -> Vec<u8> {
    image(0xF3, 2, 5, 0x2000)
}

fn setup() -> (PhysMemory, TaskIdCounter, usize) {
    let mut mem = PhysMemory::new();
    let portal = mem.alloc_frames(1).unwrap();
    (mem, TaskIdCounter::new(), portal)
}

#[test]
fn from_elf_loads_segments_stack_and_entry() {
    let (mut mem, mut ids, portal) = setup();
    let elf = riscv_exec();
    let p = Process::from_elf(&mut mem, &mut ids, portal, &elf).unwrap();
    assert_eq!(p.pid.get_val(), 0);
    assert_eq!(p.parent.get_val(), NO_PARENT);
    assert!(p.children.is_empty());
    assert_eq!(p.context.context.pc(), CODE_VADDR + 120);
    assert_eq!(p.context.context.sp(), USER_STACK_TOP);
    assert_eq!(USER_STACK_TOP, 1u64 << 38);
    assert_eq!(p.context.satp, p.address_space.root_selector());
    let space = &p.address_space;
    assert_eq!(space.translate(TRAMPOLINE_VPN), Some((portal, PORTAL_FLAGS)));
    let (f0, fl) = space.translate(0x10).unwrap();
    assert_eq!(fl, FLAG_U | FLAG_V | FLAG_X | FLAG_R);
    for off in 0..132 {
        assert_eq!(mem.read(f0, off), elf[off]);
    }
    assert_eq!(mem.read(f0, 132), 0);
    let (f1, _) = space.translate(0x11).unwrap();
    assert_eq!(mem.read(f1, 0), 0);
    assert_eq!(space.translate(0x12), None);
    assert_eq!(space.translate(STACK_BOTTOM_VPN).map(|e| e.1), Some(STACK_FLAGS));
    assert_eq!(space.translate(STACK_BOTTOM_VPN + 1).map(|e| e.1), Some(STACK_FLAGS));
    assert_eq!(STACK_FLAGS, FLAG_U | FLAG_W | FLAG_R | FLAG_V);
    assert_eq!(space.entry_count(), 4);
    assert_eq!(PAGE_SIZE, 4096);
}

#[test]
fn from_elf_refuses_wrong_machine() {
    let (mut mem, mut ids, portal) = setup();
    let frames = mem.frame_count();
    assert!(Process::from_elf(&mut mem, &mut ids, portal, &image(0x3E, 2, 5, 0x2000)).is_none());
    assert_eq!(mem.frame_count(), frames);
    assert_eq!(tutorial_kernel::TaskId::generate(&mut ids).get_val(), 0);
}

#[test]
fn from_elf_refuses_non_executable_and_garbage() {
    let (mut mem, mut ids, portal) = setup();
    assert!(Process::from_elf(&mut mem, &mut ids, portal, &image(0xF3, 3, 5, 0x2000)).is_none());
    assert!(Process::from_elf(&mut mem, &mut ids, portal, &vec![0u8; 200]).is_none());
    assert!(Process::from_elf(&mut mem, &mut ids, portal, &vec![0x7f, b'E']).is_none());
}

#[test]
fn from_elf_refuses_misaligned_segment() {
    let (mut mem, mut ids, portal) = setup();
    let mut elf = riscv_exec();
    put(&mut elf, 80, CODE_VADDR + 8, 8);
    assert!(Process::from_elf(&mut mem, &mut ids, portal, &elf).is_none());
}

#[test]
fn from_elf_refuses_segment_past_image() {
    let (mut mem, mut ids, portal) = setup();
    let mut elf = riscv_exec();
    put(&mut elf, 96, 4000, 8);
    assert!(Process::from_elf(&mut mem, &mut ids, portal, &elf).is_none());
}

#[test]
fn fork_copies_context_and_memory() {
    let (mut mem, mut ids, portal) = setup();
    let mut parent = Process::from_elf(&mut mem, &mut ids, portal, &riscv_exec()).unwrap();
    parent.context.context.a_set(3, 77);
    let child = parent.fork(&mut mem, &mut ids).unwrap();
    assert_eq!(child.pid.get_val(), 1);
    assert_eq!(child.parent, parent.pid);
    assert_eq!(parent.children, vec![child.pid]);
    assert!(child.children.is_empty());
    assert_eq!(child.context.context.pc(), parent.context.context.pc());
    for i in 1..=31 {
        assert_eq!(child.context.context.x(i), parent.context.context.x(i));
    }
    assert_ne!(child.context.satp, parent.context.satp);
    assert_eq!(child.context.satp, child.address_space.root_selector());
    assert_eq!(
        child.address_space.translate(TRAMPOLINE_VPN),
        parent.address_space.translate(TRAMPOLINE_VPN)
    );
    let (pf, _) = parent.address_space.translate(0x10).unwrap();
    let (cf, _) = child.address_space.translate(0x10).unwrap();
    assert_ne!(pf, cf);
    for off in 0..PAGE_SIZE {
        assert_eq!(mem.read(pf, off), mem.read(cf, off));
    }
    mem.write(cf, 0, 0);
    assert_eq!(mem.read(pf, 0), 0x7f);
}

#[test]
fn exec_replaces_image_and_keeps_identity() {
    let (mut mem, mut ids, portal) = setup();
    let mut p = Process::from_elf(&mut mem, &mut ids, portal, &riscv_exec()).unwrap();
    p.context.context.pc_set(0x5000);
    let pid = p.pid;
    assert!(p.exec(&mut mem, &mut ids, &image(0xF3, 2, 6, 0x1000)));
    assert_eq!(p.pid, pid);
    assert_eq!(p.context.context.pc(), CODE_VADDR + 120);
    assert_eq!(p.context.context.sp(), USER_STACK_TOP);
    assert_eq!(p.address_space.translate(0x10).map(|e| e.1), Some(FLAG_U | FLAG_V | FLAG_W | FLAG_R));
    assert_eq!(p.address_space.translate(0x11), None);
    assert_eq!(p.address_space.translate(TRAMPOLINE_VPN), Some((portal, PORTAL_FLAGS)));
}

#[test]
fn exec_failure_leaves_process_untouched() {
    let (mut mem, mut ids, portal) = setup();
    let mut p = Process::from_elf(&mut mem, &mut ids, portal, &riscv_exec()).unwrap();
    p.context.context.pc_set(0x5000);
    let satp = p.context.satp;
    assert!(!p.exec(&mut mem, &mut ids, &image(0x3E, 2, 5, 0x1000)));
    assert_eq!(p.context.context.pc(), 0x5000);
    assert_eq!(p.context.satp, satp);
    assert!(p.address_space.translate(0x11).is_some());
}

#[test]
fn from_elf_refuses_misaligned_empty_segment() {
    let (mut mem, mut ids, portal) = setup();
    let mut elf = image(0xF3, 2, 5, 0);
    put(&mut elf, 80, CODE_VADDR + 8, 8);
    assert!(Process::from_elf(&mut mem, &mut ids, portal, &elf).is_none());
    let elf = image(0xF3, 2, 5, 0);
    let p = Process::from_elf(&mut mem, &mut ids, portal, &elf).unwrap();
    assert_eq!(p.address_space.entry_count(), 2);
}

#[test]
fn from_elf_reads_unaligned_buffer() {
    let (mut mem, mut ids, portal) = setup();
    let mut shifted = vec![0u8];
    shifted.extend_from_slice(&riscv_exec());
    let p = Process::from_elf(&mut mem, &mut ids, portal, &shifted[1..]).unwrap();
    assert_eq!(p.context.context.pc(), CODE_VADDR + 120);
}

#[test]
fn from_elf_refuses_32_bit_class_and_short_table() {
    let (mut mem, mut ids, portal) = setup();
    let mut elf = riscv_exec();
    elf[4] = 1;
    assert!(Process::from_elf(&mut mem, &mut ids, portal, &elf).is_none());
    let mut elf = riscv_exec();
    put(&mut elf, 54, 40, 2);
    assert!(Process::from_elf(&mut mem, &mut ids, portal, &elf).is_none());
}

#[test]
fn fork_child_has_its_own_selector() {
    let (mut mem, mut ids, portal) = setup();
    let mut parent = Process::from_elf(&mut mem, &mut ids, portal, &riscv_exec()).unwrap();
    let child = parent.fork(&mut mem, &mut ids).unwrap();
    assert_ne!(child.context.satp, parent.context.satp);
}

#[test]
fn empty_segment_inside_a_page_takes_that_page() {
    let (mut mem, mut ids, portal) = setup();
    let mut elf = image(0xF3, 2, 6, 0);
    put(&mut elf, 72, 8, 8);
    put(&mut elf, 80, CODE_VADDR + 8, 8);
    put(&mut elf, 96, 0, 8);
    let p = Process::from_elf(&mut mem, &mut ids, portal, &elf).unwrap();
    assert_eq!(p.address_space.entry_count(), 3);
    let (f, fl) = p.address_space.translate(0x10).unwrap();
    assert_eq!(fl, FLAG_U | FLAG_V | FLAG_W | FLAG_R);
    assert_eq!(mem.read(f, 8), 0);
}

#[test]
fn zero_table_offset_means_no_segments() {
    let (mut mem, mut ids, portal) = setup();
    let mut elf = riscv_exec();
    put(&mut elf, 32, 0, 8);
    let p = Process::from_elf(&mut mem, &mut ids, portal, &elf).unwrap();
    assert_eq!(p.address_space.entry_count(), 2);
    assert_eq!(p.address_space.translate(0x10), None);
}

#[test]
fn failed_load_gives_frames_back() {
    let (mut mem, mut ids, portal) = setup();
    let frames = mem.frame_count();
    let mut elf = riscv_exec();
    put(&mut elf, 96, 4000, 8);
    assert!(Process::from_elf(&mut mem, &mut ids, portal, &elf).is_none());
    assert_eq!(mem.frame_count(), frames);
    assert_eq!(ids.peek(), 0);
}

#[test]
fn exec_uses_one_identity_only_on_success() {
    let (mut mem, mut ids, portal) = setup();
    let mut p = Process::from_elf(&mut mem, &mut ids, portal, &riscv_exec()).unwrap();
    let frames = mem.frame_count();
    assert!(!p.exec(&mut mem, &mut ids, &image(0x3E, 2, 5, 0x1000)));
    assert_eq!(ids.peek(), 1);
    assert_eq!(mem.frame_count(), frames);
    assert!(p.exec(&mut mem, &mut ids, &riscv_exec()));
    assert_eq!(ids.peek(), 2);
}
