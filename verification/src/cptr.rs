//! Cache-line padded cells and 64-bit counted pointers.
//!
//! A counted pointer packs a 32-bit pointer value into the high half of a
//! `u64` and a 32-bit sequence number into the low half; the sequence number
//! advances on every successful compare-and-swap, which is what defeats ABA
//! on the cell. `CPtrLocal` is the thread-private unpacked form, `CPtr` the
//! shared cell; shared accesses are modelled as atomic state transitions.

use vstd::prelude::*;

verus! {

/// The packed word for pointer value `ptr` (truncated to its low 32 bits,
/// as the shift discards the rest) and sequence number `sn`.
pub open spec fn pack_ptr_sn(ptr: u64, sn: u32) -> u64 {
    (((ptr as int % 0x1_0000_0000) * 0x1_0000_0000) + sn as int) as u64
}

/// The pointer value held in the high 32 bits of a packed word.
pub open spec fn ptr_of(ui: u64) -> u64 {
    ui / 0x1_0000_0000
}

/// The sequence number held in the low 32 bits of a packed word.
pub open spec fn sn_of(ui: u64) -> u32 {
    (ui as int % 0x1_0000_0000) as u32
}

/// Packing then projecting recovers the low 32 bits of the pointer and the
/// sequence number exactly.
pub proof fn lemma_pack_parts(ptr: u64, sn: u32)
    ensures
        ptr_of(pack_ptr_sn(ptr, sn)) == ptr as int % 0x1_0000_0000,
        sn_of(pack_ptr_sn(ptr, sn)) == sn,
        ptr < 0x1_0000_0000 ==> ptr_of(pack_ptr_sn(ptr, sn)) == ptr,
{
    let packed = pack_ptr_sn(ptr, sn);
    assert(packed == ((ptr & 0xFFFF_FFFF) as int * 0x1_0000_0000 + sn as int) as u64
        && packed / 0x1_0000_0000 == (ptr & 0xFFFF_FFFF) as u64
        && packed as int % 0x1_0000_0000 == sn as int) by (bit_vector)
        requires
            packed == (((ptr as int % 0x1_0000_0000) * 0x1_0000_0000) + sn as int) as u64,
    ;
    assert((ptr & 0xFFFF_FFFF) == ptr as int % 0x1_0000_0000) by (bit_vector);
}

/// A value padded out to its own cache line in the original layout; the
/// padding bytes carry no meaning, so only the data field is modelled.
pub struct Padded<T> {
    data: T,
}

impl<T> Padded<T> {
    /// The held value.
    pub closed spec fn spec_data(self) -> T {
        self.data
    }

    pub fn new() -> Self where T: Default {
        Padded { data: T::default() }
    }

    pub fn from_value(value: T) -> (p: Self)
        ensures
            p.spec_data() == value,
    {
        Padded { data: value }
    }

    pub fn get(&self) -> (r: &T)
        ensures
            *r == self.spec_data(),
    {
        &self.data
    }
}

/// A padded cell holding a machine word, written and read whole; each load
/// and store is one atomic step.
pub struct PaddedAtomic {
    ui: usize,
}

impl PaddedAtomic {
    /// The current word.
    pub closed spec fn spec_value(self) -> usize {
        self.ui
    }

    pub fn new() -> (p: Self)
        ensures
            p.spec_value() == 0,
    {
        PaddedAtomic { ui: 0 }
    }

    pub fn from_value(value: usize) -> (p: Self)
        ensures
            p.spec_value() == value,
    {
        PaddedAtomic { ui: value }
    }

    pub fn load(&self) -> (r: usize)
        ensures
            r == self.spec_value(),
    {
        self.ui
    }

    pub fn store(&mut self, value: usize)
        ensures
            final(self).spec_value() == value,
    {
        self.ui = value;
    }
}

/// A padded cell read and written with volatile semantics in the original;
/// the model keeps the value alone.
pub struct VolatilePadded<T> {
    ui: T,
}

impl<T> VolatilePadded<T> {
    /// The held value.
    pub closed spec fn spec_value(self) -> T {
        self.ui
    }

    pub fn new() -> Self where T: Default {
        VolatilePadded { ui: T::default() }
    }

    pub fn from_value(val: T) -> (p: Self)
        ensures
            p.spec_value() == val,
    {
        VolatilePadded { ui: val }
    }

    pub fn load(&self) -> (r: T) where T: Copy
        ensures
            r == self.spec_value(),
    {
        self.ui
    }

    pub fn store(&mut self, val: T)
        ensures
            final(self).spec_value() == val,
    {
        self.ui = val;
    }
}

/// A thread-private counted pointer: one packed word, no sharing.
#[derive(Clone, Copy, Debug)]
pub struct CPtrLocal {
    ui: u64,
}

impl View for CPtrLocal {
    type V = u64;

    closed spec fn view(&self) -> u64 {
        self.ui
    }
}

impl CPtrLocal {
    /// A null pointer with sequence number 0.
    pub fn new() -> (r: Self)
        ensures
            r@ == 0,
    {
        CPtrLocal { ui: 0 }
    }

    pub fn init(&mut self, ptr: u64, sn: u32)
        ensures
            final(self)@ == pack_ptr_sn(ptr, sn),
    {
        let mut value: u64 = 0;
        value = value | (ptr << 32u64);
        value = value | (sn as u64);
        proof {
            let snv = sn as u64;
            assert((0u64 | (ptr << 32u64)) | snv
                == (((ptr as int % 0x1_0000_0000) * 0x1_0000_0000) + snv as int) as u64)
                by (bit_vector)
                requires
                    snv < 0x1_0000_0000,
            ;
        }
        self.ui = value;
    }

    pub fn init_raw(&mut self, value: u64)
        ensures
            final(self)@ == value,
    {
        self.ui = value;
    }

    /// The whole packed word.
    pub fn all(&self) -> (r: u64)
        ensures
            r == self@,
    {
        self.ui
    }

    /// The pointer half.
    pub fn ptr(&self) -> (r: u64)
        ensures
            r == ptr_of(self@),
    {
        let raw = self.ui;
        let r = (raw & 0xFFFF_FFFF_0000_0000) >> 32u64;
        proof {
            assert((raw & 0xFFFF_FFFF_0000_0000) >> 32u64 == raw / 0x1_0000_0000) by (bit_vector);
        }
        r
    }

    /// The sequence-number half.
    pub fn sn(&self) -> (r: u32)
        ensures
            r == sn_of(self@),
    {
        let raw = self.ui;
        let r = (raw & 0x0000_0000_FFFF_FFFF) as u32;
        proof {
            assert((raw & 0x0000_0000_FFFF_FFFF) == raw as int % 0x1_0000_0000) by (bit_vector);
        }
        r
    }

    pub fn store_null(&mut self)
        ensures
            final(self)@ == 0,
    {
        self.ui = 0;
    }

    pub fn from_raw(value: u64) -> (r: Self)
        ensures
            r@ == value,
    {
        let mut instance = Self::new();
        instance.init_raw(value);
        instance
    }

    pub fn from_ptr_sn(ptr: u64, sn: u32) -> (r: Self)
        ensures
            r@ == pack_ptr_sn(ptr, sn),
    {
        let mut instance = Self::new();
        instance.init(ptr, sn);
        instance
    }
}

/// A shared counted-pointer cell. Every method is one atomic step on the
/// packed word; a compare-and-swap succeeds exactly when the cell still
/// holds the expected word, and bumps the sequence number.
#[derive(Debug)]
pub struct CPtr {
    ui: u64,
}

impl View for CPtr {
    type V = u64;

    closed spec fn view(&self) -> u64 {
        self.ui
    }
}

impl CPtr {
    /// A null pointer with sequence number 0.
    pub fn new() -> (r: Self)
        ensures
            r@ == 0,
    {
        CPtr { ui: 0 }
    }

    pub fn init(&mut self, ptr: u64, sn: u32)
        ensures
            final(self)@ == pack_ptr_sn(ptr, sn),
    {
        let mut local = CPtrLocal::new();
        local.init(ptr, sn);
        self.ui = local.all();
    }

    pub fn init_raw(&mut self, value: u64)
        ensures
            final(self)@ == value,
    {
        self.ui = value;
    }

    /// The pointer half of the current word.
    pub fn ptr(&self) -> (r: u64)
        ensures
            r == ptr_of(self@),
    {
        let local = CPtrLocal::from_raw(self.ui);
        local.ptr()
    }

    /// The sequence-number half of the current word.
    pub fn sn(&self) -> (r: u32)
        ensures
            r == sn_of(self@),
    {
        let local = CPtrLocal::from_raw(self.ui);
        local.sn()
    }

    /// The whole packed word.
    pub fn all(&self) -> (r: u64)
        ensures
            r == self@,
    {
        self.ui
    }

    /// One compare-and-swap: succeeds iff the cell still holds `oldval`'s
    /// word, and then installs `newval` with `oldval`'s sequence number
    /// advanced by one (wrapping).
    pub fn cas(&mut self, oldval: &CPtrLocal, newval: u64) -> (ok: bool)
        ensures
            ok == (old(self)@ == oldval@),
            ok ==> final(self)@ == pack_ptr_sn(newval, sn_of(oldval@).wrapping_add(1)),
            !ok ==> final(self)@ == old(self)@,
    {
        let mut replacement = CPtrLocal::new();
        replacement.init(newval, oldval.sn().wrapping_add(1));
        let old_word = oldval.all();
        if self.ui == old_word {
            self.ui = replacement.all();
            true
        } else {
            false
        }
    }

    /// Like `cas`, taking the replacement's pointer from a local counted
    /// pointer.
    pub fn cas_local(&mut self, oldval: &CPtrLocal, newval: &CPtrLocal) -> (ok: bool)
        ensures
            ok == (old(self)@ == oldval@),
            ok ==> final(self)@ == pack_ptr_sn(ptr_of(newval@), sn_of(oldval@).wrapping_add(1)),
            !ok ==> final(self)@ == old(self)@,
    {
        let mut replacement = CPtrLocal::new();
        replacement.init(newval.ptr(), oldval.sn().wrapping_add(1));
        let old_word = oldval.all();
        if self.ui == old_word {
            self.ui = replacement.all();
            true
        } else {
            false
        }
    }

    pub fn store_null(&mut self)
        ensures
            final(self)@ == 0,
    {
        self.init(0, 0);
        proof {
            lemma_pack_parts(0, 0);
            assert(pack_ptr_sn(0, 0) == 0);
        }
    }

    /// Retries `cas` until it succeeds; in the atomic-step model the first
    /// attempt reads the current word and therefore succeeds.
    pub fn store_ptr(&mut self, newval: u64)
        ensures
            final(self)@ == pack_ptr_sn(newval, sn_of(old(self)@).wrapping_add(1)),
    {
        let oldval = CPtrLocal::from_raw(self.all());
        let ok = self.cas(&oldval, newval);
        assert(ok);
    }

    pub fn from_raw(value: u64) -> (r: Self)
        ensures
            r@ == value,
    {
        let mut instance = Self::new();
        instance.init_raw(value);
        instance
    }

    pub fn from_ptr_sn(ptr: u64, sn: u32) -> (r: Self)
        ensures
            r@ == pack_ptr_sn(ptr, sn),
    {
        let mut instance = Self::new();
        instance.init(ptr, sn);
        instance
    }
}

} // verus!
