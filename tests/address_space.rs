use tutorial_kernel::mm::PAGE_SIZE;
use tutorial_kernel::vm::{FLAG_R, FLAG_U, FLAG_V, FLAG_W, PORTAL_FLAGS, SV39_MODE, TRAMPOLINE_VPN};
use tutorial_kernel::{AddressSpace, PhysMemory};

fn arena_with_portal() -> (PhysMemory, usize) {
    let mut mem = PhysMemory::new();
    let portal = mem.alloc_frames(1).unwrap();
    (mem, portal)
}

#[test]
fn trampoline_resolves_to_one_frame_in_every_space() {
    let (mut mem, portal) = arena_with_portal();
    let a = AddressSpace::new(&mut mem, portal).unwrap();
    let mut b = AddressSpace::new(&mut mem, portal).unwrap();
    assert!(b.map(&mut mem, 3, 5, &[1, 2, 3], 7, FLAG_U | FLAG_V | FLAG_R));
    assert_eq!(a.translate(TRAMPOLINE_VPN), Some((portal, PORTAL_FLAGS)));
    assert_eq!(b.translate(TRAMPOLINE_VPN), Some((portal, PORTAL_FLAGS)));
    assert_ne!(a.root_selector(), b.root_selector());
    assert_eq!(a.root_selector(), SV39_MODE + 1);
}

#[test]
fn map_places_bytes_at_offset_and_zero_fills() {
    let (mut mem, portal) = arena_with_portal();
    let mut a = AddressSpace::new(&mut mem, portal).unwrap();
    let flags = FLAG_U | FLAG_V | FLAG_R | FLAG_W;
    assert!(a.map(&mut mem, 16, 18, &[9, 8, 7], PAGE_SIZE - 1, flags));
    let (f0, fl0) = a.translate(16).unwrap();
    let (f1, fl1) = a.translate(17).unwrap();
    assert_eq!(fl0, flags);
    assert_eq!(fl1, flags);
    assert_ne!(f0, f1);
    assert_eq!(mem.read(f0, 0), 0);
    assert_eq!(mem.read(f0, PAGE_SIZE - 1), 9);
    assert_eq!(mem.read(f1, 0), 8);
    assert_eq!(mem.read(f1, 1), 7);
    assert_eq!(mem.read(f1, 2), 0);
    assert_eq!(a.translate(18), None);
}

#[test]
fn map_refuses_overlap_and_bad_ranges() {
    let (mut mem, portal) = arena_with_portal();
    let mut a = AddressSpace::new(&mut mem, portal).unwrap();
    let flags = FLAG_U | FLAG_V | FLAG_R;
    assert!(a.map(&mut mem, 10, 12, &[], 0, flags));
    let frames = mem.frame_count();
    assert!(!a.map(&mut mem, 11, 13, &[], 0, flags));
    assert!(!a.map(&mut mem, 5, 5, &[], 0, flags));
    assert!(!a.map(&mut mem, 20, 21, &[0u8; 10], PAGE_SIZE - 5, flags));
    assert!(!a.map(&mut mem, TRAMPOLINE_VPN, TRAMPOLINE_VPN + 1, &[], 0, flags));
    assert_eq!(mem.frame_count(), frames);
    assert_eq!(a.entry_count(), 2);
    assert!(a.map(&mut mem, 12, 13, &[], 0, flags));
}

#[test]
fn map_extern_uses_given_frames() {
    let (mut mem, portal) = arena_with_portal();
    let mut a = AddressSpace::new(&mut mem, portal).unwrap();
    let first = mem.alloc_frames(2).unwrap();
    let flags = FLAG_U | FLAG_V | FLAG_R | FLAG_W;
    assert!(a.map_extern(mem.frame_count(), 100, 102, first, flags));
    assert_eq!(a.translate(100), Some((first, flags)));
    assert_eq!(a.translate(101), Some((first + 1, flags)));
    assert!(!a.map_extern(mem.frame_count(), 101, 103, first, flags));
    assert!(!a.map_extern(mem.frame_count(), 200, 202, mem.frame_count() - 1, flags));
}

#[test]
fn clone_into_copies_pages_into_distinct_frames() {
    let (mut mem, portal) = arena_with_portal();
    let mut parent = AddressSpace::new(&mut mem, portal).unwrap();
    let flags = FLAG_U | FLAG_V | FLAG_R | FLAG_W;
    assert!(parent.map(&mut mem, 4, 6, &[1, 2, 3, 4], 10, flags));
    let other_portal = mem.alloc_frames(1).unwrap();
    let mut child = AddressSpace::new(&mut mem, other_portal).unwrap();
    assert!(parent.clone_into(&mut mem, &mut child));
    assert_eq!(child.translate(TRAMPOLINE_VPN), parent.translate(TRAMPOLINE_VPN));
    for vpn in 4..6 {
        let (pf, pfl) = parent.translate(vpn).unwrap();
        let (cf, cfl) = child.translate(vpn).unwrap();
        assert_ne!(pf, cf);
        assert_eq!(pfl, cfl);
        for off in 0..PAGE_SIZE {
            assert_eq!(mem.read(pf, off), mem.read(cf, off));
        }
    }
    let (cf, _) = child.translate(4).unwrap();
    mem.write(cf, 10, 99);
    let (pf, _) = parent.translate(4).unwrap();
    assert_eq!(mem.read(pf, 10), 1);
    assert_eq!(mem.read(cf, 10), 99);
}

#[test]
fn arena_full_refuses_allocation() {
    let mut mem = PhysMemory::new();
    assert_eq!(mem.alloc_frames(tutorial_kernel::mm::MAX_FRAMES + 1), None);
    assert_eq!(mem.frame_count(), 0);
    assert_eq!(mem.alloc_frames(2), Some(0));
    assert_eq!(mem.alloc_frames(1), Some(2));
    assert_eq!(mem.read(1, PAGE_SIZE - 1), 0);
}
