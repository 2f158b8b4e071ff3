use rcore_os::batch::{AppManager, APP_BASE_ADDRESS, APP_PAGES};
use rcore_os::mm::phys_mem::PhysMemory;
use rcore_os::config::{MMIO, TRAMPOLINE, TRAP_CONTEXT, PAGE_SIZE};
use rcore_os::drivers::plic::{IntrTargetPriority, PLIC};

#[test]
fn plic_register_addresses() {
    let p = PLIC::new(0xc00_0000);
    assert_eq!(p.priority_ptr(1), 0xc00_0004);
    assert_eq!(IntrTargetPriority::supported_number(), 2);
    assert_eq!(PLIC::hart_id_with_priority(0, IntrTargetPriority::Supervisor), 1);
    assert_eq!(PLIC::hart_id_with_priority(1, IntrTargetPriority::Machine), 2);
    assert_eq!(p.enable_ptr(0, IntrTargetPriority::Supervisor, 33), (0xc00_0000 + 0x2000 + 0x80 + 4, 1));
    assert_eq!(p.threshold_ptr_of_hart_with_priority(0, IntrTargetPriority::Supervisor), 0xc00_0000 + 0x20_0000 + 0x1000);
    assert_eq!(p.claim_comp_ptr_of_hart_with_priority(0, IntrTargetPriority::Supervisor), 0xc00_0000 + 0x20_0004 + 0x1000);
}

#[test]
fn batch_app_table() {
    let starts = [0x8040_0000usize, 0x8040_1000, 0x8040_3000];
    let mut m = AppManager::new(2, &starts);
    assert_eq!(m.num_app(), 2);
    assert_eq!(m.app_start(0), 0x8040_0000);
    assert_eq!(m.app_start(2), 0x8040_3000);
    assert_eq!(m.get_current_app(), 0);
    m.move_to_next_app();
    m.move_to_next_app();
    assert_eq!(m.get_current_app(), 2);
}

#[test]
fn layout_constants() {
    assert_eq!(TRAMPOLINE, usize::MAX - PAGE_SIZE + 1);
    assert_eq!(TRAP_CONTEXT, TRAMPOLINE - PAGE_SIZE);
    assert_eq!(MMIO, [(0x10_0000, 0x2000), (0x1000_1000, 0x1000)]);
}

#[test]
fn load_app_copies_bytes_and_clears_the_rest() {
    let starts = [0x8020_0000usize, 0x8020_1800, 0x8020_1804];
    let m = AppManager::new(2, &starts);
    let base = APP_BASE_ADDRESS / 4096;
    let mut mem = PhysMemory::new(base, APP_PAGES);
    let app0: Vec<u8> = (0..0x1800usize).map(|i| (i % 251) as u8 + 1).collect();
    assert!(m.load_app(&mut mem, 0, &app0));
    assert_eq!(mem.read_page(base), app0[..4096].to_vec());
    let second = mem.read_page(base + 1);
    assert_eq!(second[..0x800], app0[4096..]);
    assert!(second[0x800..].iter().all(|&b| b == 0));
    // the next, shorter application clears what the first left behind
    assert!(m.load_app(&mut mem, 1, &[9, 9, 9, 9]));
    let first = mem.read_page(base);
    assert_eq!(first[..4], [9, 9, 9, 9]);
    assert!(first[4..].iter().all(|&b| b == 0));
    assert!(mem.read_page(base + 1).iter().all(|&b| b == 0));
    // past the last application nothing is loaded
    assert!(!m.load_app(&mut mem, 2, &[]));
}
