use hyaline_map::CPtr;
use hyaline_map::CPtrLocal;
use hyaline_map::Padded;
use hyaline_map::PaddedAtomic;
use hyaline_map::VolatilePadded;
use hyaline_map::hyaline::Handle;
use hyaline_map::hyaline::MemoryTracker;
use hyaline_map::hyaline::MyAlloc;

#[test]
fn cptr_local_packing() {
    let p = CPtrLocal::from_ptr_sn(0xDEAD_BEEF, 7);
    assert_eq!(p.ptr(), 0xDEAD_BEEF);
    assert_eq!(p.sn(), 7);
    assert_eq!(p.all(), (0xDEAD_BEEFu64 << 32) | 7);
    let q = CPtrLocal::from_raw(p.all());
    assert_eq!(q.ptr(), 0xDEAD_BEEF);
    assert_eq!(q.sn(), 7);
}

#[test]
fn cptr_local_truncates_high_bits() {
    // Only the low 32 bits of the pointer value fit the high half.
    let p = CPtrLocal::from_ptr_sn(0x1_0000_0002, 1);
    assert_eq!(p.ptr(), 2);
    assert_eq!(p.sn(), 1);
}

#[test]
fn cptr_local_init_and_null() {
    let mut p = CPtrLocal::new();
    assert_eq!(p.all(), 0);
    p.init(5, 9);
    assert_eq!(p.ptr(), 5);
    assert_eq!(p.sn(), 9);
    p.store_null();
    assert_eq!(p.all(), 0);
    p.init_raw(77);
    assert_eq!(p.all(), 77);
}

#[test]
fn cptr_cas_bumps_sequence_number() {
    let mut c = CPtr::from_ptr_sn(1, 0);
    let seen = CPtrLocal::from_raw(c.all());
    assert!(c.cas(&seen, 2));
    assert_eq!(c.ptr(), 2);
    assert_eq!(c.sn(), 1);
    // A stale expectation fails and leaves the cell alone.
    assert!(!c.cas(&seen, 3));
    assert_eq!(c.ptr(), 2);
    assert_eq!(c.sn(), 1);
}

#[test]
fn cptr_cas_local_and_store() {
    let mut c = CPtr::new();
    assert_eq!(c.all(), 0);
    let seen = CPtrLocal::from_raw(c.all());
    let repl = CPtrLocal::from_ptr_sn(9, 40);
    assert!(c.cas_local(&seen, &repl));
    assert_eq!(c.ptr(), 9);
    assert_eq!(c.sn(), 1);
    c.store_ptr(11);
    assert_eq!(c.ptr(), 11);
    assert_eq!(c.sn(), 2);
    c.store_null();
    assert_eq!(c.all(), 0);
    c.init(3, 4);
    assert_eq!(c.sn(), 4);
    let d = CPtr::from_raw(c.all());
    assert_eq!(d.ptr(), 3);
}

#[test]
fn padded_cells() {
    let p: Padded<u32> = Padded::from_value(12);
    assert_eq!(*p.get(), 12);
    let d: Padded<u32> = Padded::new();
    assert_eq!(*d.get(), 0);
    let mut a = PaddedAtomic::new();
    assert_eq!(a.load(), 0);
    a.store(55);
    assert_eq!(a.load(), 55);
    let b = PaddedAtomic::from_value(7);
    assert_eq!(b.load(), 7);
    let mut v: VolatilePadded<i64> = VolatilePadded::new();
    assert_eq!(v.load(), 0);
    v.store(-3);
    assert_eq!(v.load(), -3);
    let w: VolatilePadded<i64> = VolatilePadded::from_value(8);
    assert_eq!(w.load(), 8);
}

#[test]
fn handle_packs_into_one_word() {
    let h = Handle::new(3, 0xABCD);
    let w = h.to_i128();
    assert_eq!(w, (3i128 << 64) | 0xABCD);
    let back = Handle::from_i128(w);
    assert_eq!(back.href_snapshot, 3);
    assert_eq!(back.hptr_snapshot, 0xABCD);
    // A negative reader count survives the round trip too.
    let odd = Handle::new(-2, 5);
    let back2 = Handle::from_i128(odd.to_i128());
    assert_eq!(back2.href_snapshot, -2);
    assert_eq!(back2.hptr_snapshot, 5);
}

#[test]
fn tracker_retire_and_collect() {
    // One reader enters, retires an unlinked node, and on leaving finds
    // the node's count at zero and frees it.
    let mut mem: MyAlloc<&str> = MyAlloc::new();
    let mut tracker = MemoryTracker::new();
    assert_eq!(tracker.current_href(), 0);
    assert_eq!(tracker.current_hptr(), 0);
    let node = mem.allocate(1, "gone", 0);
    let h = tracker.enter();
    assert_eq!(tracker.current_href(), 1);
    tracker.retire(&mut mem, node);
    assert_eq!(tracker.current_hptr(), node);
    tracker.leave(&mut mem, h);
    assert_eq!(tracker.current_href(), 0);
    assert_eq!(tracker.current_hptr(), 0);
}

#[test]
fn allocator_hands_out_fresh_blocks() {
    let mut mem: MyAlloc<u64> = MyAlloc::new();
    let a = mem.allocate(10, 100, 0);
    let b = mem.allocate(20, 200, a);
    assert_ne!(a, 0);
    assert_ne!(b, 0);
    assert_ne!(a, b);
    assert_eq!(mem.get_key(a), 10);
    assert_eq!(mem.get_key(b), 20);
    assert_eq!(mem.get_next(b), a);
    assert_eq!(mem.get_nref(a), 0);
    assert_eq!(mem.clone_value(b), 200);
    mem.set_next(b, 0);
    assert_eq!(mem.get_next(b), 0);
    assert!(mem.cas_next(b, 0, a));
    assert!(!mem.cas_next(b, 0, a));
    mem.deallocate(a);
    mem.deallocate(b);
}
