use std::sync::atomic::{AtomicUsize, Ordering};
use support_crates::ctors::{Ctor, New, OwnedSlot, Slot};
use support_crates::klog::{KernelLogger, LogLevel};
use support_crates::ksync::SpinLock;
use support_crates::regs::{Reg, ReadAllowed, WriteAllowed, RO, RW, WO};
use support_crates::sifive_shutdown::{ShutdownCode, SifiveShutdown};
use support_crates::allocators::{Layout, LayoutError};

#[test]
fn test_slot_macro() {
    let _slot: Slot<usize> = OwnedSlot::new().get_slot();
}

struct DummyCtor {
    ctr: &'static AtomicUsize,
}

impl DummyCtor {
    fn new(ctr: &'static AtomicUsize) -> New<impl FnOnce() -> DummyCtor, DummyCtor> {
        New::ctor(move || {
            ctr.fetch_add(1, Ordering::SeqCst);
            DummyCtor { ctr }
        })
    }
}

impl Drop for DummyCtor {
    fn drop(&mut self) {
        self.ctr.fetch_add(1, Ordering::SeqCst);
    }
}

#[test]
fn test_ctor_calling() {
    let slot: Slot<DummyCtor> = OwnedSlot::new().get_slot();
    let ctr = Box::leak::<'static>(Box::new(AtomicUsize::new(0)));
    let _slot_box = slot.emplace(DummyCtor::new(ctr));
    assert_eq!(ctr.load(Ordering::SeqCst), 1);
}

#[test]
fn test_drop_calling() {
    let slot: Slot<DummyCtor> = OwnedSlot::new().get_slot();
    let ctr = Box::leak::<'static>(Box::new(AtomicUsize::new(0)));
    let slot_box = slot.emplace(DummyCtor::new(ctr));
    drop(slot_box);
    assert_eq!(ctr.load(Ordering::SeqCst), 2)
}

#[test]
fn test_no_double_drop_calling() {
    let ctr = Box::leak::<'static>(Box::new(AtomicUsize::new(0)));
    {
        let slot: Slot<DummyCtor> = OwnedSlot::new().get_slot();
        let slot_box = slot.emplace(DummyCtor::new(ctr));
        drop(slot_box);
        assert_eq!(ctr.load(Ordering::SeqCst), 2)
    }
    assert_eq!(ctr.load(Ordering::SeqCst), 2)
}

#[test]
fn slots_hold_what_constructors_build() {
    let slot: Slot<usize> = OwnedSlot::new().get_slot();
    let b = slot.emplace(New::ctor(|| 42usize));
    assert_eq!(*b.get(), 42);
    let c = New::ctor(|| 7u8);
    assert_eq!(c.construct(), 7);
}

#[test]
fn spin_lock_can_only_be_taken_once() {
    let mut lock = SpinLock::new(1);
    let g = lock.try_lock().unwrap();
    assert!(lock.try_lock().is_err());
    lock.set(&g, 2);
    assert_eq!(*lock.get(&g), 2);
    lock.unlock(g);
    let g2 = lock.spin_lock();
    lock.unlock(g2);
}

#[test]
fn registers_read_what_was_written() {
    let mut r: RW<u32> = Reg::<ReadAllowed, WriteAllowed, u32>::new(1);
    r.write(5);
    assert_eq!(r.read(), 5);
    r.modify(|v| v + 1);
    assert_eq!(r.read(), 6);
    let ro: RO<u8> = RO::new(3);
    assert_eq!(ro.read(), 3);
    let mut wo: WO<u8> = WO::new(0);
    wo.write(1);
}

#[test]
fn shutdown_codes_are_encoded() {
    assert_eq!(ShutdownCode::Pass.register_value(), 0x5555);
    assert_eq!(ShutdownCode::Fail(1).register_value(), 0x13333);
    assert_eq!(ShutdownCode::Fail(0xffff).register_value(), 0xffff_3333);
    assert_eq!(ShutdownCode::Reset.register_value(), 0x7777);
    let mut dev = SifiveShutdown::new(WO::new(0));
    dev.write_code(ShutdownCode::Reset);
}

#[test]
fn log_levels_have_markers() {
    let logger = KernelLogger::new(LogLevel::Info);
    assert_eq!(logger.initial_log_level, LogLevel::Info);
    assert_eq!(KernelLogger::level_marker(LogLevel::Error), "❌");
    assert_eq!(KernelLogger::level_marker(LogLevel::Trace), "👣");
}

#[test]
fn layouts_need_power_of_two_alignment() {
    assert_eq!(Layout::from_size_align(8, 3), Err(LayoutError));
    assert_eq!(Layout::from_size_align(8, 0), Err(LayoutError));
    assert!(Layout::from_size_align(8, 8).is_ok());
    assert_eq!(Layout::from_size_align(usize::MAX, 1), Err(LayoutError));
    let l = Layout::array::<u32>(4).unwrap();
    assert_eq!((l.size(), l.align()), (16, 4));
    assert_eq!(l.align_to(16).unwrap().align(), 16);
}
