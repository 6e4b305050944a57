//! The Hyaline-style reclamation engine: the 128-bit head word, reader
//! handles, the node arena, and the retirement list.

use vstd::prelude::*;

verus! {

broadcast use vstd::std_specs::vec::axiom_spec_len;

/// The packed 128-bit head word for reader count `href` (high 64 bits,
/// signed) and retirement-list head pointer `hptr` (low 64 bits).
pub open spec fn pack_head(href: i64, hptr: u64) -> i128 {
    (href as int * 0x1_0000_0000_0000_0000 + hptr as int) as i128
}

/// The retirement-list head pointer held in the low 64 bits of a head word.
pub open spec fn head_hptr(word: i128) -> u64 {
    (word as int % 0x1_0000_0000_0000_0000) as u64
}

/// The reader count held in the high 64 bits of a head word.
pub open spec fn head_href(word: i128) -> i64 {
    ((word as int - word as int % 0x1_0000_0000_0000_0000) / 0x1_0000_0000_0000_0000) as i64
}

/// Packing a reader count and a pointer and projecting the halves back is
/// the identity, and packing is injective.
pub proof fn lemma_pack_head_parts(href: i64, hptr: u64)
    ensures
        head_href(pack_head(href, hptr)) == href,
        head_hptr(pack_head(href, hptr)) == hptr,
{
    let word = pack_head(href, hptr);
    let m: int = 0x1_0000_0000_0000_0000;
    assert(word as int == href as int * m + hptr as int);
    assert((href as int * m + hptr as int) % m == hptr as int) by (nonlinear_arith)
        requires
            0 <= (hptr as int) && (hptr as int) < m,
    ;
    assert((href as int * m) / m == href as int) by (nonlinear_arith)
        requires
            m == 0x1_0000_0000_0000_0000,
    ;
}

fn pack_head_exec(href: i64, hptr: u64) -> (w: i128)
    ensures
        w == pack_head(href, hptr),
{
    (href as i128) * 0x1_0000_0000_0000_0000i128 + (hptr as i128)
}

fn head_hptr_exec(w: i128) -> (r: u64)
    ensures
        r == head_hptr(w),
{
    let r = #[verifier::truncate] (w as u64);
    proof {
        assert(#[verifier::truncate] (w as u64) == (w as int % 0x1_0000_0000_0000_0000) as u64)
            by (bit_vector);
    }
    r
}

fn head_href_exec(w: i128) -> (r: i64)
    ensures
        r == head_href(w),
{
    let r = #[verifier::truncate] ((w >> 64i128) as i64);
    proof {
        assert(#[verifier::truncate] ((w >> 64i128) as i64)
            == ((w as int - w as int % 0x1_0000_0000_0000_0000) / 0x1_0000_0000_0000_0000) as i64)
            by (bit_vector);
    }
    r
}

/// The ghost image of one node: its key, its payload, the packed address of
/// its successor (0 for null), and its retirement reference count.
pub struct NodeView<V> {
    pub key: u64,
    pub value: V,
    pub next: u64,
    pub nref: int,
}

pub(crate) struct Node<V> {
    pub(crate) key: u64,
    pub(crate) value: V,
    pub(crate) nref: i64,
    pub(crate) next: u64,
}

spec fn slot_view<V>(slot: Option<Node<V>>) -> NodeView<V> {
    match slot {
        Some(node) => NodeView {
            key: node.key,
            value: node.value,
            next: node.next,
            nref: node.nref as int,
        },
        None => arbitrary(),
    }
}

/// The allocator shim: hands out storage for nodes and takes it back, one
/// block per node. An address is a nonzero integer naming a block; 0 is
/// null. Its contents map each allocated address to the node it holds.
pub struct MyAlloc<V> {
    slots: Vec<Option<Node<V>>>,
}

impl<V> MyAlloc<V> {
    /// The allocated nodes, by address.
    pub closed spec fn contents(self) -> Map<u64, NodeView<V>> {
        Map::new(
            |addr: u64|
                1 <= addr && addr as int <= self.slots@.len() && self.slots@[addr as int - 1]
                    is Some,
            |addr: u64| slot_view(self.slots@[addr as int - 1]),
        )
    }

    /// How many blocks were ever handed out; addresses stay below this.
    pub closed spec fn slot_count(self) -> nat {
        self.slots@.len()
    }

    proof fn lemma_live_slot(self, addr: u64)
        requires
            self.contents().contains_key(addr),
        ensures
            1 <= addr,
            addr as int <= self.slots@.len(),
            self.slots@.len() <= usize::MAX,
            self.slots@[addr as int - 1] is Some,
            self.contents()[addr] == slot_view(self.slots@[addr as int - 1]),
    {
        assert(self.contents().dom().contains(addr));
        assert(self.slots@.len() == self.slots.len());
    }

    /// How many blocks were ever handed out, as a machine word.
    pub fn block_count(&self) -> (n: usize)
        ensures
            n == self.slot_count(),
    {
        self.slots.len()
    }

    pub fn new() -> (m: Self)
        ensures
            m.contents() == Map::<u64, NodeView<V>>::empty(),
            m.slot_count() == 0,
    {
        let m = MyAlloc { slots: Vec::new() };
        proof {
            assert(m.contents() =~= Map::<u64, NodeView<V>>::empty());
        }
        m
    }

    /// Allocates a block holding a fresh node. The address is new: nothing
    /// in the contents, and no other chain, can already name it.
    pub fn allocate(&mut self, key: u64, value: V, next: u64) -> (addr: u64)
        requires
            old(self).slot_count() < usize::MAX,
        ensures
            addr != 0,
            !old(self).contents().contains_key(addr),
            addr as int == old(self).slot_count() + 1,
            final(self).slot_count() == old(self).slot_count() + 1,
            final(self).contents() == old(self).contents().insert(
                addr,
                (NodeView { key, value, next, nref: 0 }),
            ),
    {
        self.slots.push(Some(Node { key, value, nref: 0, next }));
        let addr = self.slots.len() as u64;
        proof {
            assert(final(self).contents() =~= old(self).contents().insert(
                addr,
                (NodeView { key, value, next, nref: 0 }),
            ));
        }
        addr
    }

    /// Returns a block to the allocator. The node's payload is dropped;
    /// the address names nothing afterwards.
    pub fn deallocate(&mut self, addr: u64)
        requires
            old(self).contents().contains_key(addr),
        ensures
            final(self).contents() == old(self).contents().remove(addr),
            final(self).slot_count() == old(self).slot_count(),
    {
        proof {
            self.lemma_live_slot(addr);
        }
        let idx = (addr - 1) as usize;
        let mut slot: Option<Node<V>> = None;
        self.slots.set_and_swap(idx, &mut slot);
        proof {
            assert(final(self).contents() =~= old(self).contents().remove(addr));
        }
    }

    pub fn get_key(&self, addr: u64) -> (key: u64)
        requires
            self.contents().contains_key(addr),
        ensures
            key == self.contents()[addr].key,
    {
        proof {
            self.lemma_live_slot(addr);
        }
        let idx = (addr - 1) as usize;
        match &self.slots[idx] {
            Some(node) => node.key,
            None => {
                proof {
                    assert(false);
                }
                0
            },
        }
    }

    pub fn get_next(&self, addr: u64) -> (next: u64)
        requires
            self.contents().contains_key(addr),
        ensures
            next == self.contents()[addr].next,
    {
        proof {
            self.lemma_live_slot(addr);
        }
        let idx = (addr - 1) as usize;
        match &self.slots[idx] {
            Some(node) => node.next,
            None => {
                proof {
                    assert(false);
                }
                0
            },
        }
    }

    pub fn get_nref(&self, addr: u64) -> (nref: i64)
        requires
            self.contents().contains_key(addr),
        ensures
            nref as int == self.contents()[addr].nref,
    {
        proof {
            self.lemma_live_slot(addr);
        }
        let idx = (addr - 1) as usize;
        match &self.slots[idx] {
            Some(node) => node.nref,
            None => {
                proof {
                    assert(false);
                }
                0
            },
        }
    }

    /// A copy of the node's payload, by `clone`.
    pub fn clone_value(&self, addr: u64) -> (value: V) where V: Clone
        requires
            self.contents().contains_key(addr),
        ensures
            cloned(self.contents()[addr].value, value),
    {
        proof {
            self.lemma_live_slot(addr);
        }
        let idx = (addr - 1) as usize;
        match &self.slots[idx] {
            Some(node) => node.value.clone(),
            None => unreached(),
        }
    }

    pub fn set_next(&mut self, addr: u64, next: u64)
        requires
            old(self).contents().contains_key(addr),
        ensures
            final(self).contents() == old(self).contents().insert(
                addr,
                (NodeView {
                    key: old(self).contents()[addr].key,
                    value: old(self).contents()[addr].value,
                    next,
                    nref: old(self).contents()[addr].nref,
                }),
            ),
            final(self).slot_count() == old(self).slot_count(),
    {
        proof {
            self.lemma_live_slot(addr);
        }
        let idx = (addr - 1) as usize;
        let mut slot: Option<Node<V>> = None;
        self.slots.set_and_swap(idx, &mut slot);
        let mut node = slot.unwrap();
        node.next = next;
        self.slots.set(idx, Some(node));
        proof {
            assert(final(self).contents() =~= old(self).contents().insert(
                addr,
                (NodeView {
                    key: old(self).contents()[addr].key,
                    value: old(self).contents()[addr].value,
                    next,
                    nref: old(self).contents()[addr].nref,
                }),
            ));
        }
    }

    /// One compare-and-swap on the node's successor field: succeeds iff it
    /// still holds `expected`.
    pub fn cas_next(&mut self, addr: u64, expected: u64, new: u64) -> (ok: bool)
        requires
            old(self).contents().contains_key(addr),
        ensures
            ok == (old(self).contents()[addr].next == expected),
            ok ==> final(self).contents() == old(self).contents().insert(
                addr,
                (NodeView {
                    key: old(self).contents()[addr].key,
                    value: old(self).contents()[addr].value,
                    next: new,
                    nref: old(self).contents()[addr].nref,
                }),
            ),
            !ok ==> *final(self) == *old(self),
            final(self).slot_count() == old(self).slot_count(),
    {
        let cur = self.get_next(addr);
        if cur == expected {
            self.set_next(addr, new);
            true
        } else {
            false
        }
    }

    /// One atomic add on the node's retirement reference count.
    pub fn add_nref(&mut self, addr: u64, delta: i64)
        requires
            old(self).contents().contains_key(addr),
            i64::MIN <= old(self).contents()[addr].nref + delta <= i64::MAX,
        ensures
            final(self).contents() == old(self).contents().insert(
                addr,
                (NodeView {
                    key: old(self).contents()[addr].key,
                    value: old(self).contents()[addr].value,
                    next: old(self).contents()[addr].next,
                    nref: old(self).contents()[addr].nref + delta,
                }),
            ),
            final(self).slot_count() == old(self).slot_count(),
    {
        proof {
            self.lemma_live_slot(addr);
        }
        let idx = (addr - 1) as usize;
        let mut slot: Option<Node<V>> = None;
        self.slots.set_and_swap(idx, &mut slot);
        let mut node = slot.unwrap();
        node.nref = node.nref + delta;
        self.slots.set(idx, Some(node));
        proof {
            assert(final(self).contents() =~= old(self).contents().insert(
                addr,
                (NodeView {
                    key: old(self).contents()[addr].key,
                    value: old(self).contents()[addr].value,
                    next: old(self).contents()[addr].next,
                    nref: old(self).contents()[addr].nref + delta,
                }),
            ));
        }
    }

    /// One atomic fetch-and-subtract of 1 on the node's retirement
    /// reference count; returns the count as it stood before.
    pub fn dec_nref(&mut self, addr: u64) -> (was: i64)
        requires
            old(self).contents().contains_key(addr),
            old(self).contents()[addr].nref > i64::MIN,
        ensures
            was as int == old(self).contents()[addr].nref,
            final(self).contents() == old(self).contents().insert(
                addr,
                (NodeView {
                    key: old(self).contents()[addr].key,
                    value: old(self).contents()[addr].value,
                    next: old(self).contents()[addr].next,
                    nref: old(self).contents()[addr].nref - 1,
                }),
            ),
            final(self).slot_count() == old(self).slot_count(),
    {
        proof {
            self.lemma_live_slot(addr);
        }
        let idx = (addr - 1) as usize;
        let mut slot: Option<Node<V>> = None;
        self.slots.set_and_swap(idx, &mut slot);
        let mut node = slot.unwrap();
        let was = node.nref;
        node.nref = node.nref - 1;
        self.slots.set(idx, Some(node));
        proof {
            assert(final(self).contents() =~= old(self).contents().insert(
                addr,
                (NodeView {
                    key: old(self).contents()[addr].key,
                    value: old(self).contents()[addr].value,
                    next: old(self).contents()[addr].next,
                    nref: old(self).contents()[addr].nref - 1,
                }),
            ));
        }
        was
    }
}

/// Packing the two halves a head word projects to gives the word back.
pub proof fn lemma_head_repack(w: i128)
    ensures
        pack_head(head_href(w), head_hptr(w)) == w,
{
    let m: int = 0x1_0000_0000_0000_0000;
    let wi = w as int;
    vstd::arithmetic::div_mod::lemma_mod_bound(wi, m);
    let hp = wi % m;
    vstd::arithmetic::div_mod::lemma_fundamental_div_mod(wi, m);
    assert(wi - hp == m * (wi / m));
    vstd::arithmetic::div_mod::lemma_fundamental_div_mod_converse(wi - hp, m, wi / m, 0);
    assert((wi - hp) / m == wi / m);
    vstd::arithmetic::div_mod::lemma_fundamental_div_mod_converse(
        -0x8000_0000_0000_0000_0000_0000_0000_0000,
        m,
        -0x8000_0000_0000_0000,
        0,
    );
    vstd::arithmetic::div_mod::lemma_fundamental_div_mod_converse(
        0x7FFF_FFFF_FFFF_FFFF_FFFF_FFFF_FFFF_FFFF,
        m,
        0x7FFF_FFFF_FFFF_FFFF,
        m - 1,
    );
    vstd::arithmetic::div_mod::lemma_div_is_ordered(
        -0x8000_0000_0000_0000_0000_0000_0000_0000,
        wi,
        m,
    );
    vstd::arithmetic::div_mod::lemma_div_is_ordered(
        wi,
        0x7FFF_FFFF_FFFF_FFFF_FFFF_FFFF_FFFF_FFFF,
        m,
    );
    assert(-0x8000_0000_0000_0000 <= wi / m <= 0x7FFF_FFFF_FFFF_FFFF);
    assert(head_href(w) as int == wi / m);
    assert(head_hptr(w) as int == hp);
}

/// The nodes of `prefix` that outlive one decrement round: those whose
/// reference count stood above 1 in `s`, in their original order.
pub open spec fn survivors<V>(s: Map<u64, NodeView<V>>, prefix: Seq<u64>) -> Seq<u64>
    decreases prefix.len(),
{
    if prefix.len() == 0 {
        Seq::empty()
    } else {
        survivors(s, prefix.drop_last()) + (if s[prefix.last()].nref > 1 {
            seq![prefix.last()]
        } else {
            Seq::empty()
        })
    }
}

/// How far the decrement walk of `leave` runs: up to the first occurrence
/// of the snapshot pointer, or over the whole list when the snapshot is
/// null.
pub open spec fn cut_index(rlist: Seq<u64>, snapshot: u64) -> int {
    if snapshot != 0 && rlist.contains(snapshot) {
        rlist.index_of(snapshot)
    } else {
        rlist.len() as int
    }
}

/// Extending the walked prefix by one node extends its survivors by that
/// node exactly when its count stood above 1.
proof fn lemma_survivors_push<V>(s: Map<u64, NodeView<V>>, prefix: Seq<u64>, x: u64)
    ensures
        survivors(s, prefix.push(x)) == survivors(s, prefix) + (if s[x].nref > 1 {
            seq![x]
        } else {
            Seq::<u64>::empty()
        }),
{
    assert(prefix.push(x).drop_last() =~= prefix);
    assert(prefix.push(x).last() == x);
}

/// Every survivor comes from the walked prefix, survivors never repeat
/// when the prefix does not, and each survivor's count stood above 1.
proof fn lemma_survivors_facts<V>(s: Map<u64, NodeView<V>>, prefix: Seq<u64>)
    requires
        distinct(prefix),
    ensures
        forall|a: u64| #[trigger] survivors(s, prefix).contains(a) ==> prefix.contains(a),
        distinct(survivors(s, prefix)),
        forall|a: u64| #[trigger] survivors(s, prefix).contains(a) ==> s[a].nref > 1,
    decreases prefix.len(),
{
    if prefix.len() > 0 {
        let fore = prefix.drop_last();
        let x = prefix.last();
        assert(distinct(fore));
        lemma_survivors_facts(s, fore);
        let sv = survivors(s, prefix);
        let svf = survivors(s, fore);
        assert forall|a: u64| #[trigger] sv.contains(a) implies prefix.contains(a) && s[a].nref
            > 1 by {
            let i = choose|i: int| 0 <= i < sv.len() && #[trigger] sv[i] == a;
            if i < svf.len() {
                assert(svf.contains(a));
                let j = choose|j: int| 0 <= j < fore.len() && #[trigger] fore[j] == a;
                assert(prefix[j] == a);
            } else {
                assert(a == x);
                assert(prefix[prefix.len() - 1] == a);
            }
        }
        assert forall|i: int, j: int| 0 <= i < j < sv.len() implies sv[i] != sv[j] by {
            if j < svf.len() {
                assert(svf[i] == sv[i] && svf[j] == sv[j]);
            } else {
                assert(sv[j] == x);
                assert(svf.contains(sv[i]));
                assert(fore.contains(sv[i]));
                let k = choose|k: int| 0 <= k < fore.len() && #[trigger] fore[k] == sv[i];
                assert(prefix[k] == sv[i] && prefix[prefix.len() - 1] == x);
            }
        }
    }
}

/// `chain` lists the addresses reached from `head` by following successor
/// fields until `tail`: the walk visits exactly these nodes, in this order.
pub open spec fn linked<V>(
    s: Map<u64, NodeView<V>>,
    chain: Seq<u64>,
    head: u64,
    tail: u64,
) -> bool {
    &&& (if chain.len() == 0 {
        head == tail
    } else {
        head == chain[0]
    })
    &&& (forall|i: int|
        #![trigger chain[i]]
        0 <= i < chain.len() ==> chain[i] != 0 && s.contains_key(chain[i]))
    &&& (forall|i: int|
        #![trigger chain[i]]
        0 <= i < chain.len() - 1 ==> s[chain[i]].next == chain[i + 1])
    &&& (chain.len() > 0 ==> s[chain[chain.len() - 1]].next == tail)
}

/// No address repeats.
pub open spec fn distinct(chain: Seq<u64>) -> bool {
    forall|i: int, j: int| 0 <= i < j < chain.len() ==> chain[i] != chain[j]
}

/// The per-`enter` snapshot of the head word: the reader count and the
/// retirement-list head as they stood at the moment the reader arrived.
#[derive(Clone, Copy, Debug)]
pub struct Handle {
    pub href_snapshot: i64,
    pub hptr_snapshot: u64,
}

impl Handle {
    pub fn new(nref: i64, next: u64) -> (h: Handle)
        ensures
            h.href_snapshot == nref,
            h.hptr_snapshot == next,
    {
        Handle { href_snapshot: nref, hptr_snapshot: next }
    }

    /// The snapshot as one packed 128-bit word.
    pub fn to_i128(self) -> (w: i128)
        ensures
            w == pack_head(self.href_snapshot, self.hptr_snapshot),
            head_href(w) == self.href_snapshot,
            head_hptr(w) == self.hptr_snapshot,
    {
        proof {
            lemma_pack_head_parts(self.href_snapshot, self.hptr_snapshot);
        }
        pack_head_exec(self.href_snapshot, self.hptr_snapshot)
    }

    /// The snapshot whose packed word is `value`; the inverse of `to_i128`.
    pub fn from_i128(value: i128) -> (h: Handle)
        ensures
            h.href_snapshot == head_href(value),
            h.hptr_snapshot == head_hptr(value),
            pack_head(h.href_snapshot, h.hptr_snapshot) == value,
    {
        proof {
            lemma_head_repack(value);
        }
        Handle { href_snapshot: head_href_exec(value), hptr_snapshot: head_hptr_exec(value) }
    }
}

/// The shared head word `H = (href, hptr)`, one 128-bit cell. Every load
/// and compare-and-swap is one atomic step, and a compare-and-swap succeeds
/// exactly when the cell still holds the expected word: reader arrival,
/// reader departure and retirement pushes all serialize here.
pub struct AtomicHead {
    word: i128,
}

impl AtomicHead {
    /// The packed word currently held.
    pub closed spec fn spec_word(self) -> i128 {
        self.word
    }

    /// The reader-count half of the current word.
    pub open spec fn href(self) -> i64 {
        head_href(self.spec_word())
    }

    /// The pointer half of the current word.
    pub open spec fn hptr(self) -> u64 {
        head_hptr(self.spec_word())
    }

    pub fn new(word: i128) -> (h: Self)
        ensures
            h.spec_word() == word,
    {
        AtomicHead { word }
    }

    /// One atomic load of the whole word.
    pub fn load(&self) -> (w: i128)
        ensures
            w == self.spec_word(),
    {
        self.word
    }

    /// One atomic compare-and-swap of the whole word.
    pub fn compare_exchange(&mut self, current: i128, new: i128) -> (ok: bool)
        ensures
            ok == (old(self).spec_word() == current),
            ok ==> final(self).spec_word() == new,
            !ok ==> final(self).spec_word() == old(self).spec_word(),
    {
        if self.word == current {
            self.word = new;
            true
        } else {
            false
        }
    }

    /// One atomic load, unpacked into a handle.
    pub fn head_to_handle(&self) -> (h: Handle)
        ensures
            h.href_snapshot == self.href(),
            h.hptr_snapshot == self.hptr(),
    {
        let word = self.load();
        Handle::from_i128(word)
    }
}

/// The reclamation engine: the head word and the retirement list that hangs
/// off it. A node pushed by `retire` carries a reference count seeded from
/// the reader count current at the push; each departing reader decrements
/// the nodes retired after its arrival, and the reader that brings a count
/// to zero returns the node to the allocator.
pub struct MemoryTracker {
    head: AtomicHead,
    rlist: Ghost<Seq<u64>>,
}

impl MemoryTracker {
    /// The number of readers currently inside a protected section.
    pub closed spec fn href(self) -> int {
        self.head.href() as int
    }

    /// The address of the most recently retired node still on the
    /// retirement list, or 0.
    pub closed spec fn hptr(self) -> u64 {
        self.head.hptr()
    }

    /// The retirement list, newest first.
    pub closed spec fn rlist(self) -> Seq<u64> {
        self.rlist@
    }

    /// Well-formedness against the allocator's contents: the retirement
    /// list is a chain from the head pointer, visits no address twice, and
    /// every node on it is allocated and still awaited by at least one
    /// reader.
    pub open spec fn wf<V>(self, s: Map<u64, NodeView<V>>) -> bool {
        &&& linked(s, self.rlist(), self.hptr(), 0)
        &&& distinct(self.rlist())
        &&& (forall|i: int|
            #![trigger self.rlist()[i]]
            0 <= i < self.rlist().len() ==> s[self.rlist()[i]].nref >= 1)
    }

    pub fn new() -> (t: Self)
        ensures
            t.href() == 0,
            t.hptr() == 0,
            t.rlist() == Seq::<u64>::empty(),
    {
        let t = MemoryTracker { head: AtomicHead::new(0), rlist: Ghost(Seq::empty()) };
        proof {
            lemma_pack_head_parts(0, 0);
            assert(pack_head(0, 0) == 0);
        }
        t
    }

    /// The reader count as currently published in the head word.
    pub fn current_href(&self) -> (r: i64)
        ensures
            r as int == self.href(),
    {
        let handle = self.head.head_to_handle();
        handle.href_snapshot
    }

    /// The retirement-list head as currently published in the head word.
    pub fn current_hptr(&self) -> (r: u64)
        ensures
            r == self.hptr(),
    {
        let handle = self.head.head_to_handle();
        handle.hptr_snapshot
    }

    /// Reader arrival: one compare-and-swap moves `(href, hptr)` to
    /// `(href + 1, hptr)` and hands back the pre-increment snapshot. Until
    /// the matching `leave`, no node the caller can reach through that
    /// snapshot is freed.
    pub fn enter(&mut self) -> (h: Handle)
        requires
            old(self).href() < i64::MAX as int,
        ensures
            final(self).href() == old(self).href() + 1,
            final(self).hptr() == old(self).hptr(),
            final(self).rlist() == old(self).rlist(),
            h.href_snapshot as int == old(self).href(),
            h.hptr_snapshot == old(self).hptr(),
    {
        let current = self.head.load();
        let handle = self.head.head_to_handle();
        let href = handle.href_snapshot;
        let hptr = handle.hptr_snapshot;
        let new_value = pack_head_exec(href + 1, hptr);
        let ok = self.head.compare_exchange(current, new_value);
        proof {
            lemma_head_repack(current);
            lemma_pack_head_parts((href + 1) as i64, hptr);
        }
        assert(ok);
        handle
    }

    /// Retirement: pushes the unlinked node onto the retirement list by one
    /// compare-and-swap on the head word, then adds the reader count
    /// current at that moment to the node's reference count. The caller
    /// must hold a handle and the node must be unreachable from any bucket.
    pub fn retire<V>(&mut self, mem: &mut MyAlloc<V>, node: u64)
        requires
            old(self).wf(old(mem).contents()),
            old(self).href() >= 1,
            old(mem).contents().contains_key(node),
            node != 0,
            !old(self).rlist().contains(node),
            old(mem).contents()[node].nref == 0,
        ensures
            final(self).href() == old(self).href(),
            final(self).hptr() == node,
            final(self).rlist() == seq![node] + old(self).rlist(),
            final(mem).contents() == old(mem).contents().insert(
                node,
                (NodeView {
                    key: old(mem).contents()[node].key,
                    value: old(mem).contents()[node].value,
                    next: old(self).hptr(),
                    nref: old(self).href(),
                }),
            ),
            final(mem).slot_count() == old(mem).slot_count(),
            final(self).wf(final(mem).contents()),
    {
        let ghost old_rlist = self.rlist@;
        let current = self.head.load();
        let handle = self.head.head_to_handle();
        let href = handle.href_snapshot;
        let hptr = handle.hptr_snapshot;
        mem.set_next(node, hptr);
        let new_head = pack_head_exec(href, node);
        let ok = self.head.compare_exchange(current, new_head);
        proof {
            lemma_head_repack(current);
            lemma_pack_head_parts(href, node);
        }
        assert(ok);
        // The adjustment mirrors the paper: the node's reference count
        // takes on the reader count that is current after the push.
        let current2 = self.head.load();
        let href2 = head_href_exec(current2);
        mem.add_nref(node, href2);
        self.rlist = Ghost(seq![node] + old_rlist);
        proof {
            let s0 = old(mem).contents();
            let s2 = final(mem).contents();
            let r2 = final(self).rlist();
            assert(r2[0] == node);
            assert forall|i: int| 0 <= i < r2.len() implies r2[i] != 0 && s2.contains_key(r2[i]) by {
                if i > 0 {
                    assert(old_rlist[i - 1] == r2[i]);
                }
            }
            assert forall|i: int| 0 <= i < r2.len() - 1 implies s2[r2[i]].next == r2[i + 1] by {
                if i == 0 {
                    assert(old(self).hptr() == old_rlist[0]);
                } else {
                    assert(old_rlist[i - 1] == r2[i] && old_rlist[i] == r2[i + 1]);
                    assert(r2[i] != node);
                }
            }
            if r2.len() > 0 {
                if r2.len() == 1 {
                    assert(s2[r2[0]].next == 0);
                } else {
                    assert(r2[r2.len() - 1] == old_rlist[old_rlist.len() - 1]);
                }
            }
            assert(linked(s2, r2, node, 0));
            assert forall|i: int| 0 <= i < r2.len() implies s2[r2[i]].nref >= 1 by {
                if i > 0 {
                    assert(old_rlist[i - 1] == r2[i]);
                }
            }
        }
    }

    /// Reader departure: one compare-and-swap moves `(href, hptr)` to
    /// `(href - 1, hptr)`; then the reader walks the retirement list from
    /// the current head down to its own snapshot, subtracting one from each
    /// node's reference count. A node whose count reaches zero is unlinked
    /// - by a compare-and-swap on its predecessor's successor field, or on
    /// the head word when it is the list head - and returned to the
    /// allocator. Nodes at or below the snapshot predate this reader and
    /// are left alone.
    ///
    /// The snapshot must still name the null pointer or a node on the
    /// retirement list; that is an obligation the caller keeps, since a
    /// reader that entered after a node's count was adjusted is not
    /// counted on that node, and the node may be freed under such a
    /// reader's snapshot. With a reclaimed snapshot the walk could not
    /// tell where to stop and would reach nodes that predate this
    /// reader. The map layer keeps the obligation trivially: it retires
    /// a node and collects it within one protected section, so every
    /// snapshot it takes names the null pointer.
    #[verifier::rlimit(100)]
    pub fn leave<V>(&mut self, mem: &mut MyAlloc<V>, handle: Handle)
        requires
            old(self).wf(old(mem).contents()),
            old(self).href() >= 1,
            handle.hptr_snapshot == 0 || old(self).rlist().contains(handle.hptr_snapshot),
        ensures
            ({
                let s0 = old(mem).contents();
                let r0 = old(self).rlist();
                let prefix = r0.take(cut_index(r0, handle.hptr_snapshot));
                let suffix = r0.skip(cut_index(r0, handle.hptr_snapshot));
                &&& final(self).href() == old(self).href() - 1
                &&& final(self).rlist() == survivors(s0, prefix) + suffix
                &&& final(self).wf(final(mem).contents())
                &&& final(mem).slot_count() == old(mem).slot_count()
                &&& final(mem).contents().dom().subset_of(s0.dom())
                &&& (forall|a: u64|
                    #![trigger s0.contains_key(a)]
                    s0.contains_key(a) && !prefix.contains(a) ==> final(mem).contents().contains_key(
                        a,
                    ) && final(mem).contents()[a] == s0[a])
                &&& (forall|i: int|
                    #![trigger prefix[i]]
                    0 <= i < prefix.len() && s0[prefix[i]].nref == 1 ==> !final(mem).contents().contains_key(prefix[i]))
                &&& (forall|i: int|
                    #![trigger prefix[i]]
                    0 <= i < prefix.len() && s0[prefix[i]].nref > 1 ==> final(mem).contents().contains_key(prefix[i]) && final(mem).contents()[prefix[i]].key
                        == s0[prefix[i]].key && final(mem).contents()[prefix[i]].value
                        == s0[prefix[i]].value && final(mem).contents()[prefix[i]].nref
                        == s0[prefix[i]].nref - 1)
            }),
    {
        let ghost s0 = old(mem).contents();
        let ghost r0 = self.rlist@;
        let ghost k = cut_index(r0, handle.hptr_snapshot);
        let ghost prefix = r0.take(k);
        let ghost suffix = r0.skip(k);
        proof {
            if handle.hptr_snapshot != 0 && r0.contains(handle.hptr_snapshot) {
                assert(0 <= k < r0.len() && r0[k] == handle.hptr_snapshot);
            }
            assert(prefix.len() == k);
            assert(r0 =~= prefix + suffix);
            assert(distinct(prefix)) by {
                assert forall|a: int, b: int|
                    0 <= a < b < prefix.len() implies #[trigger] prefix[a] != #[trigger] prefix[b] by {
                    assert(r0[a] == prefix[a] && r0[b] == prefix[b]);
                }
            }
        }

        // Depart: drop the reader count by one, keeping the pointer.
        let current = self.head.load();
        let h0 = self.head.head_to_handle();
        let href = h0.href_snapshot;
        let hptr = h0.hptr_snapshot;
        let new_value = pack_head_exec(href - 1, hptr);
        let ok = self.head.compare_exchange(current, new_value);
        proof {
            lemma_head_repack(current);
            lemma_pack_head_parts((href - 1) as i64, hptr);
        }
        assert(ok);

        // Walk from the current head down to the snapshot, decrementing.
        let mut cur: u64 = hptr;
        let mut prev: u64 = 0;
        let ghost mut j: int = 0;
        let ghost target_href = self.href();
        let ghost slots0 = mem.slot_count();
        let ghost mut survived: Seq<u64> = Seq::empty();
        proof {
            assert(survived + prefix.skip(0) + suffix =~= r0);
            if prefix.len() > 0 {
                assert(r0[0] == prefix[0]);
            } else if suffix.len() > 0 {
                assert(r0[0] == suffix[0]);
            }
        }
        while cur != 0 && cur != handle.hptr_snapshot
            invariant
                // The cut of the original list, fixed for the whole walk.
                r0 == prefix + suffix,
                prefix == r0.take(prefix.len() as int),
                distinct(r0),
                distinct(prefix),
                forall|i: int|
                    #![trigger r0[i]]
                    0 <= i < r0.len() ==> r0[i] != 0 && s0.contains_key(r0[i]) && s0[r0[i]].nref
                        >= 1,
                suffix.len() > 0 ==> suffix[0] == handle.hptr_snapshot,
                forall|i: int|
                    #![trigger prefix[i]]
                    0 <= i < prefix.len() ==> prefix[i] != handle.hptr_snapshot,
                // Progress through the prefix.
                0 <= j <= prefix.len(),
                survived == survivors(s0, prefix.take(j)),
                // The store: walked nodes decremented or freed, the rest
                // untouched.
                mem.contents().dom().subset_of(s0.dom()),
                forall|a: u64|
                    #![trigger s0.contains_key(a)]
                    s0.contains_key(a) && !prefix.take(j).contains(a) ==> mem.contents(
                    ).contains_key(a) && mem.contents()[a] == s0[a],
                forall|i: int|
                    #![trigger prefix[i]]
                    0 <= i < j && s0[prefix[i]].nref == 1 ==> !mem.contents().contains_key(prefix[i]),
                forall|i: int|
                    #![trigger prefix[i]]
                    0 <= i < j && s0[prefix[i]].nref > 1 ==> mem.contents().contains_key(prefix[i])
                        && mem.contents()[prefix[i]].key == s0[prefix[i]].key && mem.contents()[prefix[i]].value
                        == s0[prefix[i]].value && mem.contents()[prefix[i]].nref == s0[prefix[i]].nref
                        - 1,
                mem.slot_count() == slots0,
                // The chain as it stands now.
                linked(mem.contents(), survived + prefix.skip(j) + suffix, self.hptr(), 0),
                self.href() == target_href,
                self.rlist@ == r0,
                survived.len() == 0 ==> prev == 0,
                survived.len() > 0 ==> prev == survived.last() && prev != 0,
                cur == (if j < prefix.len() {
                    prefix[j]
                } else if suffix.len() > 0 {
                    suffix[0]
                } else {
                    0
                }),
            decreases prefix.len() - j,
        {
            proof {
                if j == prefix.len() {
                    assert(false);
                }
            }
            let step = self.leave_step(
                mem,
                cur,
                prev,
                Ghost(s0),
                Ghost(r0),
                Ghost(prefix),
                Ghost(suffix),
                Ghost(j),
                Ghost(survived),
            );
            cur = step.0;
            prev = step.1;
            proof {
                survived = step.2@;
                j = j + 1;
            }
        }
        proof {
            assert(j == prefix.len()) by {
                if j < prefix.len() {
                    assert(cur == prefix[j]);
                    assert(prefix[j] == r0[j] && r0[j] != 0);
                }
            }
            assert(prefix.take(j) =~= prefix);
        }
        self.rlist = Ghost(survived + suffix);
        proof {
            assert(survived + prefix.skip(prefix.len() as int) + suffix =~= survived + suffix);
            lemma_leave_final(s0, mem.contents(), r0, prefix, suffix, survived);
        }
    }

    /// Departure on an empty retirement list: only the reader count
    /// moves, and the store is untouched.
    pub fn leave_quiet<V>(&mut self, mem: &mut MyAlloc<V>, handle: Handle)
        requires
            old(self).href() >= 1,
            old(self).hptr() == 0,
            old(self).rlist() == Seq::<u64>::empty(),
            handle.hptr_snapshot == 0,
        ensures
            final(self).href() == old(self).href() - 1,
            final(self).hptr() == 0,
            final(self).rlist() == Seq::<u64>::empty(),
            final(mem).contents() == old(mem).contents(),
            final(mem).slot_count() == old(mem).slot_count(),
    {
        let ghost s0 = mem.contents();
        proof {
            assert(old(self).wf(old(mem).contents()));
        }
        self.leave(mem, handle);
        proof {
            let r0 = old(self).rlist();
            let k = cut_index(r0, 0);
            assert(k == 0);
            assert(r0.take(0) =~= Seq::<u64>::empty());
            assert(r0.skip(0) =~= Seq::<u64>::empty());
            assert(self.rlist() =~= Seq::<u64>::empty());
            assert forall|a: u64| #[trigger] s0.contains_key(a) implies mem.contents(
            ).contains_key(a) && mem.contents()[a] == s0[a] by {
                assert(!r0.take(0).contains(a));
            }
            assert(mem.contents() =~= s0);
        }
    }

    /// Departure that collects the single node retired during this
    /// reader's own protected section: the node comes off the list and
    /// its block goes back to the allocator.
    pub fn leave_collect_one<V>(&mut self, mem: &mut MyAlloc<V>, handle: Handle)
        requires
            old(self).wf(old(mem).contents()),
            old(self).href() >= 1,
            old(self).rlist().len() == 1,
            old(mem).contents()[old(self).rlist()[0]].nref == 1,
            handle.hptr_snapshot == 0,
        ensures
            final(self).href() == old(self).href() - 1,
            final(self).hptr() == 0,
            final(self).rlist() == Seq::<u64>::empty(),
            final(mem).contents() == old(mem).contents().remove(old(self).rlist()[0]),
            final(mem).slot_count() == old(mem).slot_count(),
    {
        let ghost s0 = mem.contents();
        let ghost node = self.rlist@[0];
        self.leave(mem, handle);
        proof {
            let r0 = old(self).rlist();
            let k = cut_index(r0, 0);
            assert(k == 1);
            let prefix = r0.take(1);
            assert(prefix =~= r0);
            assert(r0.skip(1) =~= Seq::<u64>::empty());
            assert(prefix[0] == node);
            assert(survivors(s0, prefix) =~= Seq::<u64>::empty()) by {
                assert(prefix.drop_last() =~= Seq::<u64>::empty());
                assert(survivors(s0, prefix.drop_last()) == Seq::<u64>::empty());
                assert(prefix.last() == node);
                assert(s0[node].nref == 1);
                assert(survivors(s0, prefix) == survivors(s0, prefix.drop_last())
                    + Seq::<u64>::empty());
            }
            assert(self.rlist() =~= Seq::<u64>::empty());
            assert forall|a: u64|
                #[trigger] s0.contains_key(a) && a != node implies mem.contents().contains_key(a)
                && mem.contents()[a] == s0[a] by {
                assert(!prefix.contains(a)) by {
                    if prefix.contains(a) {
                        let i = choose|i: int| 0 <= i < prefix.len() && prefix[i] == a;
                        assert(i == 0);
                    }
                }
            }
            assert(!mem.contents().contains_key(node)) by {
                assert(prefix[0] == node && s0[node].nref == 1);
            }
            assert(mem.contents() =~= s0.remove(node));
        }
    }

    /// One step of the departure walk: read the successor, subtract one
    /// from the current node's reference count, and when it reaches zero
    /// unlink and free the node; hand back the new cursor, predecessor,
    /// and survivor record.
    #[verifier::rlimit(100)]
    fn leave_step<V>(
        &mut self,
        mem: &mut MyAlloc<V>,
        cur: u64,
        prev: u64,
        Ghost(s0): Ghost<Map<u64, NodeView<V>>>,
        Ghost(r0): Ghost<Seq<u64>>,
        Ghost(prefix): Ghost<Seq<u64>>,
        Ghost(suffix): Ghost<Seq<u64>>,
        Ghost(j): Ghost<int>,
        Ghost(survived): Ghost<Seq<u64>>,
    ) -> (step: (u64, u64, Ghost<Seq<u64>>))
        requires
            r0 == prefix + suffix,
            distinct(r0),
            distinct(prefix),
            forall|i: int|
                #![trigger r0[i]]
                0 <= i < r0.len() ==> r0[i] != 0 && s0.contains_key(r0[i]) && s0[r0[i]].nref >= 1,
            0 <= j < prefix.len(),
            cur == prefix[j],
            survived == survivors(s0, prefix.take(j)),
            old(mem).contents().dom().subset_of(s0.dom()),
            forall|a: u64|
                #![trigger s0.contains_key(a)]
                s0.contains_key(a) && !prefix.take(j).contains(a) ==> old(mem).contents(
                ).contains_key(a) && old(mem).contents()[a] == s0[a],
            forall|i: int|
                #![trigger prefix[i]]
                0 <= i < j && s0[prefix[i]].nref == 1 ==> !old(mem).contents().contains_key(prefix[i]),
            forall|i: int|
                #![trigger prefix[i]]
                0 <= i < j && s0[prefix[i]].nref > 1 ==> old(mem).contents().contains_key(prefix[i])
                    && old(mem).contents()[prefix[i]].key == s0[prefix[i]].key && old(mem).contents()[prefix[i]].value
                    == s0[prefix[i]].value && old(mem).contents()[prefix[i]].nref == s0[prefix[i]].nref
                    - 1,
            linked(
                old(mem).contents(),
                survived + prefix.skip(j) + suffix,
                old(self).hptr(),
                0,
            ),
            survived.len() == 0 ==> prev == 0,
            survived.len() > 0 ==> prev == survived.last() && prev != 0,
        ensures
            step.2@ == survivors(s0, prefix.take(j + 1)),
            final(mem).contents().dom().subset_of(s0.dom()),
            forall|a: u64|
                #![trigger s0.contains_key(a)]
                s0.contains_key(a) && !prefix.take(j + 1).contains(a) ==> final(mem).contents(
                ).contains_key(a) && final(mem).contents()[a] == s0[a],
            forall|i: int|
                #![trigger prefix[i]]
                0 <= i < j + 1 && s0[prefix[i]].nref == 1 ==> !final(mem).contents().contains_key(prefix[i]),
            forall|i: int|
                #![trigger prefix[i]]
                0 <= i < j + 1 && s0[prefix[i]].nref > 1 ==> final(mem).contents().contains_key(prefix[i]) && final(mem).contents()[prefix[i]].key == s0[prefix[i]].key && final(mem).contents()[prefix[i]].value == s0[prefix[i]].value && final(mem).contents()[prefix[i]].nref == s0[prefix[i]].nref - 1,
            final(mem).slot_count() == old(mem).slot_count(),
            linked(
                final(mem).contents(),
                step.2@ + prefix.skip(j + 1) + suffix,
                final(self).hptr(),
                0,
            ),
            final(self).href() == old(self).href(),
            final(self).rlist() == old(self).rlist(),
            step.2@.len() == 0 ==> step.1 == 0,
            step.2@.len() > 0 ==> step.1 == step.2@.last() && step.1 != 0,
            step.0 == (if j + 1 < prefix.len() {
                prefix[j + 1]
            } else if suffix.len() > 0 {
                suffix[0]
            } else {
                0
            }),
    {
        let ghost chain = survived + prefix.skip(j) + suffix;
        let ghost p = survived.len() as int;
        let ghost hbefore = self.hptr();
        let ghost sa = mem.contents();
        proof {
            assert(chain[p] == prefix.skip(j)[0] && prefix.skip(j)[0] == cur);
            assert(chain[p] != 0 && mem.contents().contains_key(chain[p]));
            lemma_chain_distinct(s0, r0, prefix, suffix, survived, j);
        }
        let next = mem.get_next(cur);
        proof {
            if p + 1 < chain.len() {
                assert(next == chain[p + 1]);
            } else {
                assert(next == 0);
            }
            assert(!prefix.take(j).contains(cur)) by {
                if prefix.take(j).contains(cur) {
                    let i = choose|i: int| 0 <= i < j && #[trigger] prefix.take(j)[i] == cur;
                    assert(prefix[i] == cur && prefix[j] == cur);
                }
            }
            assert(mem.contents()[cur] == s0[cur]);
            assert(s0[cur].nref >= 1) by {
                assert(r0[j] == cur);
            }
        }
        let ghost spre = mem.contents();
        let was = mem.dec_nref(cur);
        proof {
            // Only the count changed: the chain still stands.
            lemma_linked_same_next(spre, mem.contents(), chain, hbefore, 0);
        }
        let ghost smid = mem.contents();
        let mut new_prev = prev;
        let ghost mut new_survived = survived;
        if was == 1 {
            // The count reached zero: unlink, then free.
            if prev == 0 {
                let w = self.head.load();
                let wh = head_href_exec(w);
                let nw = pack_head_exec(wh, next);
                let ok2 = self.head.compare_exchange(w, nw);
                proof {
                    lemma_head_repack(w);
                    lemma_pack_head_parts(wh, next);
                }
                assert(ok2);
            } else {
                proof {
                    assert(p > 0 && chain[p - 1] == survived[p - 1] && survived[p - 1] == prev);
                    assert(smid.contains_key(prev)) by {
                        assert(chain[p - 1] != 0 && smid.contains_key(chain[p - 1]));
                    }
                }
                mem.set_next(prev, next);
            }
            mem.deallocate(cur);
            proof {
                let rest = prefix.skip(j + 1) + suffix;
                lemma_chain_decomp(survived, prefix, suffix, j);
                assert(chain == survived + seq![cur] + rest);
                assert(next == (if rest.len() > 0 {
                    rest[0]
                } else {
                    0
                })) by {
                    if rest.len() > 0 {
                        assert(chain[p + 1] == rest[0]);
                    }
                }
                lemma_unlink_step(
                    smid,
                    mem.contents(),
                    survived,
                    rest,
                    cur,
                    prev,
                    next,
                    hbefore,
                    self.hptr(),
                );
            }
        } else {
            new_prev = cur;
            proof {
                new_survived = survived.push(cur);
                lemma_survivors_push(s0, prefix.take(j), cur);
                assert(prefix.take(j).push(cur) =~= prefix.take(j + 1)) by {
                    assert(prefix[j] == cur);
                }
                lemma_chain_decomp(survived, prefix, suffix, j);
            }
        }
        proof {
            if s0[prefix[j]].nref <= 1 {
                lemma_survivors_push(s0, prefix.take(j), prefix[j]);
                assert(prefix.take(j).push(prefix[j]) =~= prefix.take(j + 1));
                assert(survived + Seq::<u64>::empty() =~= survived);
            } else {
                assert(survived + seq![cur] =~= survived.push(cur));
            }
            // Framing for the longer walked prefix.
            let freed = s0[prefix[j]].nref == 1;
            if freed {
                assert(mem.contents().dom() =~= sa.dom().remove(prefix[j]));
            } else {
                assert(mem.contents().dom() =~= sa.dom());
            }
            assert forall|i: int| 0 <= i < prefix.len() implies #[trigger] prefix[i] != 0 by {
                assert(r0[i] == prefix[i]);
            }
            if prev != 0 {
                assert(distinct(prefix.take(j))) by {
                    assert forall|a: int, b: int|
                        0 <= a < b < j implies #[trigger] prefix.take(j)[a] != #[trigger] prefix.take(
                        j,
                    )[b] by {
                        assert(prefix[a] == prefix.take(j)[a] && prefix[b] == prefix.take(j)[b]);
                    }
                }
                lemma_survivors_facts(s0, prefix.take(j));
                assert(survived.contains(prev));
                assert(prefix.take(j).contains(prev));
                assert(prev != cur);
            }
            lemma_frame_advance(s0, sa, mem.contents(), prefix, j + 1, survived, cur, prev);
            // The cursor stands one position further along the walk.
            if j + 1 < prefix.len() {
                assert(chain[p + 1] == prefix.skip(j)[1]);
                assert(prefix.skip(j)[1] == prefix[j + 1]);
            } else if suffix.len() > 0 {
                assert(chain[p + 1] == suffix[0]);
            } else {
                assert(p + 1 == chain.len());
            }
        }
        (next, new_prev, Ghost(new_survived))
    }
}

/// Re-associations of the walk's chain around its current node.
proof fn lemma_chain_decomp<A>(survived: Seq<A>, prefix: Seq<A>, suffix: Seq<A>, j: int)
    requires
        0 <= j < prefix.len(),
    ensures
        survived + prefix.skip(j) + suffix =~= survived + seq![prefix[j]] + (prefix.skip(j + 1)
            + suffix),
        survived + (prefix.skip(j + 1) + suffix) =~= survived + prefix.skip(j + 1) + suffix,
        survived.push(prefix[j]) + prefix.skip(j + 1) + suffix =~= survived + prefix.skip(j)
            + suffix,
{
}

/// A chain is insensitive to a store change that keeps every member
/// allocated with its successor field intact.
proof fn lemma_linked_same_next<V>(
    s1: Map<u64, NodeView<V>>,
    s2: Map<u64, NodeView<V>>,
    chain: Seq<u64>,
    head: u64,
    tail: u64,
)
    requires
        linked(s1, chain, head, tail),
        forall|i: int|
            #![trigger chain[i]]
            0 <= i < chain.len() ==> s2.contains_key(chain[i]) && s2[chain[i]].next
                == s1[chain[i]].next,
    ensures
        linked(s2, chain, head, tail),
{
}

/// One unlink of a zeroed node: with `cur` spliced out of the chain - by
/// rewriting its predecessor's successor field, or the head word when it
/// has no predecessor - and its block freed, the remaining addresses still
/// form a chain.
proof fn lemma_unlink_step<V>(
    s1: Map<u64, NodeView<V>>,
    s2: Map<u64, NodeView<V>>,
    survived: Seq<u64>,
    rest: Seq<u64>,
    cur: u64,
    prev: u64,
    next: u64,
    h1: u64,
    h2: u64,
)
    requires
        distinct(survived + seq![cur] + rest),
        linked(s1, survived + seq![cur] + rest, h1, 0),
        next == (if rest.len() > 0 {
            rest[0]
        } else {
            0
        }),
        prev == 0 ==> survived.len() == 0 && h2 == next,
        prev != 0 ==> survived.len() > 0 && prev == survived.last() && h2 == h1,
        s2 == (if prev == 0 {
            s1.remove(cur)
        } else {
            s1.insert(
                prev,
                (NodeView {
                    key: s1[prev].key,
                    value: s1[prev].value,
                    next,
                    nref: s1[prev].nref,
                }),
            ).remove(cur)
        }),
    ensures
        linked(s2, survived + rest, h2, 0),
{
    let chain = survived + seq![cur] + rest;
    let chain2 = survived + rest;
    let p = survived.len() as int;
    assert(chain[p] == cur);
    assert forall|i: int| 0 <= i < chain2.len() implies #[trigger] chain2[i] == (if i < p {
        chain[i]
    } else {
        chain[i + 1]
    }) by {
        if i >= p {
            assert(chain2[i] == rest[i - p]);
            assert(chain[i + 1] == rest[i + 1 - (p + 1)]);
        }
    }
    assert forall|i: int| 0 <= i < chain2.len() implies chain2[i] != 0 && s2.contains_key(
        chain2[i],
    ) by {
        let iold: int = if i < p {
            i
        } else {
            i + 1
        };
        assert(chain2[i] == chain[iold]);
        assert(chain[iold] != chain[p]);
    }
    assert forall|i: int| 0 <= i < chain2.len() - 1 implies s2[chain2[i]].next == chain2[i + 1] by {
        let iold: int = if i < p {
            i
        } else {
            i + 1
        };
        assert(chain2[i] == chain[iold] && chain[iold] != chain[p]);
        if i == p - 1 {
            assert(chain2[i] == chain[p - 1] && chain[p - 1] == prev);
            assert(chain2[i + 1] == chain[p + 1]);
            assert(s2[prev].next == next);
            assert(chain[p + 1] == rest[0]);
        } else {
            assert(chain2[i + 1] == chain[iold + 1]);
            if p > 0 {
                assert(chain[p - 1] == prev);
                if iold != p - 1 {
                    assert(chain[iold] != chain[p - 1]);
                }
            }
            assert(s2[chain2[i]].next == s1[chain2[i]].next);
            assert(s1[chain[iold]].next == chain[iold + 1]);
        }
    }
    if chain2.len() > 0 {
        assert(s2[chain2[chain2.len() - 1]].next == 0) by {
            let last: int = chain2.len() - 1;
            if rest.len() == 0 {
                // The freed node ended the chain; its predecessor does now.
                assert(last == p - 1);
                assert(chain2[last] == survived[last] && survived[last] == prev);
                assert(s2[prev].next == next && next == 0);
            } else {
                let iold: int = last + 1;
                assert(last >= p);
                assert(chain2[last] == chain[iold] && iold == chain.len() - 1);
                assert(chain[iold] != chain[p]);
                assert(s1[chain[iold]].next == 0);
                if p > 0 {
                    assert(chain[p - 1] == prev);
                    assert(iold != p - 1);
                    assert(chain[iold] != chain[p - 1]);
                }
                assert(s2[chain2[last]].next == s1[chain2[last]].next);
            }
        }
    }
    if chain2.len() == 0 {
        assert(survived.len() == 0 && rest.len() == 0);
        assert(prev == 0 && h2 == next && next == 0);
    } else {
        if p == 0 {
            assert(h2 == next && next == rest[0] && chain2[0] == rest[0]);
        } else {
            assert(chain2[0] == chain[0] && chain[0] == h1 && h2 == h1);
        }
    }
    assert(linked(s2, chain2, h2, 0));
}

/// After a full walk of the prefix the kept list - the prefix's survivors
/// followed by the untouched suffix - is again a well-formed retirement
/// list: no repeats, and every node still awaited by at least one reader.
proof fn lemma_leave_final<V>(
    s0: Map<u64, NodeView<V>>,
    s2: Map<u64, NodeView<V>>,
    r0: Seq<u64>,
    prefix: Seq<u64>,
    suffix: Seq<u64>,
    survived: Seq<u64>,
)
    requires
        distinct(r0),
        r0 == prefix + suffix,
        survived == survivors(s0, prefix),
        forall|i: int|
            #![trigger r0[i]]
            0 <= i < r0.len() ==> r0[i] != 0 && s0.contains_key(r0[i]) && s0[r0[i]].nref >= 1,
        forall|a: u64|
            #![trigger s0.contains_key(a)]
            s0.contains_key(a) && !prefix.contains(a) ==> s2.contains_key(a) && s2[a] == s0[a],
        forall|i: int|
            #![trigger prefix[i]]
            0 <= i < prefix.len() && s0[prefix[i]].nref > 1 ==> s2.contains_key(prefix[i])
                && s2[prefix[i]].key == s0[prefix[i]].key && s2[prefix[i]].value
                == s0[prefix[i]].value && s2[prefix[i]].nref == s0[prefix[i]].nref - 1,
    ensures
        distinct(survived + suffix),
        forall|i: int|
            #![trigger (survived + suffix)[i]]
            0 <= i < (survived + suffix).len() ==> s2[(survived + suffix)[i]].nref >= 1,
{
    let k = prefix.len() as int;
    let r2 = survived + suffix;
    assert(distinct(prefix)) by {
        assert forall|a: int, b: int| 0 <= a < b < prefix.len() implies prefix[a] != prefix[b] by {
            assert(r0[a] == prefix[a] && r0[b] == prefix[b]);
        }
    }
    lemma_survivors_facts(s0, prefix);
    assert forall|a: int, b: int| 0 <= a < b < r2.len() implies r2[a] != r2[b] by {
        if a < survived.len() && b >= survived.len() {
            assert(survived.contains(r2[a]));
            assert(prefix.contains(r2[a]));
            let i = choose|i: int| 0 <= i < prefix.len() && #[trigger] prefix[i] == r2[a];
            assert(r0[i] == r2[a]);
            assert(r2[b] == suffix[b - survived.len()]);
            assert(r0[k + (b - survived.len())] == r2[b]);
        } else if b < survived.len() {
            assert(survived[a] != survived[b]);
        } else {
            assert(r0[k + (a - survived.len())] == r2[a]);
            assert(r0[k + (b - survived.len())] == r2[b]);
        }
    }
    assert forall|i: int| 0 <= i < r2.len() implies s2[r2[i]].nref >= 1 by {
        if i < survived.len() {
            assert(survived.contains(r2[i]));
            assert(s0[r2[i]].nref > 1);
            assert(prefix.contains(r2[i]));
            let a = choose|a: int| 0 <= a < prefix.len() && #[trigger] prefix[a] == r2[i];
            assert(prefix[a] == r2[i]);
        } else {
            assert(r2[i] == suffix[i - survived.len()]);
            assert(r0[k + (i - survived.len())] == r2[i]);
            assert(s0[r2[i]].nref >= 1);
            assert(!prefix.contains(r2[i])) by {
                if prefix.contains(r2[i]) {
                    let a = choose|a: int| 0 <= a < prefix.len() && #[trigger] prefix[a] == r2[i];
                    assert(r0[a] == r2[i]);
                }
            }
            assert(s2[r2[i]] == s0[r2[i]]);
        }
    }
}

/// Walking one more node keeps the framing story: everything outside the
/// walked prefix is untouched, each walked node with a count of 1 is gone,
/// and each other walked node keeps its key and payload with its count one
/// lower.
proof fn lemma_frame_advance<V>(
    s0: Map<u64, NodeView<V>>,
    sa: Map<u64, NodeView<V>>,
    sb: Map<u64, NodeView<V>>,
    prefix: Seq<u64>,
    j: int,
    survived: Seq<u64>,
    cur: u64,
    prev: u64,
)
    requires
        1 <= j <= prefix.len(),
        distinct(prefix),
        forall|i: int| #![trigger prefix[i]] 0 <= i < prefix.len() ==> prefix[i] != 0,
        cur == prefix[j - 1],
        cur != 0,
        s0.contains_key(cur),
        sa.dom().subset_of(s0.dom()),
        forall|a: u64|
            #![trigger s0.contains_key(a)]
            s0.contains_key(a) && !prefix.take(j - 1).contains(a) ==> sa.contains_key(a) && sa[a]
                == s0[a],
        forall|i: int|
            #![trigger prefix[i]]
            0 <= i < j - 1 && s0[prefix[i]].nref == 1 ==> !sa.contains_key(prefix[i]),
        forall|i: int|
            #![trigger prefix[i]]
            0 <= i < j - 1 && s0[prefix[i]].nref > 1 ==> sa.contains_key(prefix[i])
                && sa[prefix[i]].key == s0[prefix[i]].key && sa[prefix[i]].value
                == s0[prefix[i]].value && sa[prefix[i]].nref == s0[prefix[i]].nref - 1,
        survived == survivors(s0, prefix.take(j - 1)),
        survived.len() == 0 ==> prev == 0,
        survived.len() > 0 ==> prev == survived.last(),
        // What processing the node did to the store.
        s0[cur].nref == 1 ==> sb.dom() =~= sa.dom().remove(cur),
        s0[cur].nref != 1 ==> sb.dom() =~= sa.dom(),
        forall|a: u64|
            #![trigger sb[a]]
            sb.contains_key(a) && a != cur && (prev == 0 || a != prev) ==> sb[a] == sa[a],
        (prev != 0 && sb.contains_key(prev)) ==> sb[prev].key == sa[prev].key && sb[prev].value
            == sa[prev].value && sb[prev].nref == sa[prev].nref,
        (s0[cur].nref != 1 && cur != prev) ==> sb[cur].key == sa[cur].key && sb[cur].value
            == sa[cur].value && sb[cur].nref == sa[cur].nref - 1,
    ensures
        sb.dom().subset_of(s0.dom()),
        forall|a: u64|
            #![trigger s0.contains_key(a)]
            s0.contains_key(a) && !prefix.take(j).contains(a) ==> sb.contains_key(a) && sb[a]
                == s0[a],
        forall|i: int|
            #![trigger prefix[i]]
            0 <= i < j && s0[prefix[i]].nref == 1 ==> !sb.contains_key(prefix[i]),
        forall|i: int|
            #![trigger prefix[i]]
            0 <= i < j && s0[prefix[i]].nref > 1 ==> sb.contains_key(prefix[i]) && sb[prefix[i]].key
                == s0[prefix[i]].key && sb[prefix[i]].value == s0[prefix[i]].value
                && sb[prefix[i]].nref == s0[prefix[i]].nref - 1,
{
    assert(distinct(prefix.take(j - 1))) by {
        assert forall|a: int, b: int|
            0 <= a < b < j - 1 implies #[trigger] prefix.take(j - 1)[a] != #[trigger] prefix.take(
            j - 1,
        )[b] by {
            assert(prefix[a] == prefix.take(j - 1)[a] && prefix[b] == prefix.take(j - 1)[b]);
        }
    }
    lemma_survivors_facts(s0, prefix.take(j - 1));
    let prev_ok = prev != 0;
    if prev_ok {
        assert(survived.contains(prev));
        assert(prefix.take(j - 1).contains(prev));
    }
    assert(!prefix.take(j - 1).contains(cur)) by {
        if prefix.take(j - 1).contains(cur) {
            let i = choose|i: int| 0 <= i < j - 1 && #[trigger] prefix.take(j - 1)[i] == cur;
            assert(prefix[i] == cur && prefix[j - 1] == cur);
        }
    }
    assert(sa.contains_key(cur) && sa[cur] == s0[cur]);
    assert(cur != prev) by {
        if prev_ok {
            assert(prefix.take(j - 1).contains(prev));
        }
    }
    assert forall|a: u64|
        s0.contains_key(a) && !prefix.take(j).contains(a) implies sb.contains_key(a) && sb[a]
        == s0[a] by {
        assert(!prefix.take(j - 1).contains(a)) by {
            if prefix.take(j - 1).contains(a) {
                let i = choose|i: int| 0 <= i < j - 1 && #[trigger] prefix.take(j - 1)[i] == a;
                assert(prefix.take(j)[i] == a);
            }
        }
        assert(a != cur) by {
            assert(prefix.take(j)[j - 1] == prefix[j - 1]);
        }
        assert(sa.contains_key(a) && sa[a] == s0[a]);
        if prev_ok {
            assert(a != prev) by {
                let i = choose|i: int| 0 <= i < j - 1 && #[trigger] prefix.take(j - 1)[i] == prev;
                assert(prefix.take(j)[i] == prev);
            }
        }
        assert(sb.contains_key(a));
    }
    assert forall|i: int| 0 <= i < j && s0[prefix[i]].nref == 1 implies !sb.contains_key(
        prefix[i],
    ) by {
        if i < j - 1 {
            assert(prefix[i] != cur);
            assert(!sa.contains_key(prefix[i]));
            assert(!sb.contains_key(prefix[i])) by {
                if sb.contains_key(prefix[i]) {
                    assert(sb.dom().contains(prefix[i]));
                    assert(sa.dom().contains(prefix[i]));
                }
            }
        } else {
            assert(prefix[i] == cur);
            assert(!sb.dom().contains(cur));
        }
    }
    assert forall|i: int| 0 <= i < j && s0[prefix[i]].nref > 1 implies sb.contains_key(prefix[i])
        && sb[prefix[i]].key == s0[prefix[i]].key && sb[prefix[i]].value == s0[prefix[i]].value
        && sb[prefix[i]].nref == s0[prefix[i]].nref - 1 by {
        if i < j - 1 {
            assert(prefix[i] != cur);
            assert(sa.contains_key(prefix[i]));
            assert(sb.contains_key(prefix[i])) by {
                assert(sa.dom().contains(prefix[i]));
            }
            if prefix[i] == prev {
                assert(sb[prev].nref == sa[prev].nref);
            } else {
                assert(sb[prefix[i]] == sa[prefix[i]]);
            }
        } else {
            assert(prefix[i] == cur);
            assert(sb.contains_key(cur)) by {
                assert(sa.dom().contains(cur));
            }
        }
    }
    assert(sb.dom().subset_of(s0.dom())) by {
        assert forall|a: u64| sb.dom().contains(a) implies s0.dom().contains(a) by {
            assert(sa.dom().contains(a));
        }
    }
}

/// The remaining walk, spliced after the survivors so far, never repeats
/// an address: every element traces back to its own position of the
/// original retirement list.
proof fn lemma_chain_distinct<V>(
    s0: Map<u64, NodeView<V>>,
    r0: Seq<u64>,
    prefix: Seq<u64>,
    suffix: Seq<u64>,
    survived: Seq<u64>,
    j: int,
)
    requires
        distinct(r0),
        0 <= j <= prefix.len(),
        r0 == prefix + suffix,
        survived == survivors(s0, prefix.take(j)),
    ensures
        distinct(survived + prefix.skip(j) + suffix),
        forall|a: int, b: int|
            0 <= a < b < (survived + prefix.skip(j) + suffix).len() ==> (survived + prefix.skip(j)
                + suffix)[a] != (survived + prefix.skip(j) + suffix)[b],
{
    let chain = survived + prefix.skip(j) + suffix;
    assert(distinct(prefix.take(j))) by {
        assert forall|a: int, b: int| 0 <= a < b < j implies prefix.take(j)[a]
            != prefix.take(j)[b] by {
            assert(r0[a] == prefix.take(j)[a] && r0[b] == prefix.take(j)[b]);
        }
    }
    lemma_survivors_facts(s0, prefix.take(j));
    assert forall|a: int, b: int| 0 <= a < b < chain.len() implies chain[a] != chain[b] by {
        let n1 = survived.len() as int;
        let n2 = n1 + prefix.skip(j).len();
        if a < n1 {
            assert(survived.contains(chain[a]));
            assert(prefix.take(j).contains(chain[a]));
            let i = choose|i: int| 0 <= i < j && #[trigger] prefix.take(j)[i] == chain[a];
            assert(r0[i] == chain[a]);
            if b < n1 {
                assert(survived[a] != survived[b]);
            } else if b < n2 {
                assert(chain[b] == prefix[j + (b - n1)]);
                assert(r0[j + (b - n1)] == chain[b]);
            } else {
                assert(chain[b] == suffix[b - n2]);
                assert(r0[prefix.len() + (b - n2)] == chain[b]);
            }
        } else if a < n2 {
            assert(chain[a] == prefix[j + (a - n1)]);
            assert(r0[j + (a - n1)] == chain[a]);
            if b < n2 {
                assert(chain[b] == prefix[j + (b - n1)]);
                assert(r0[j + (b - n1)] == chain[b]);
            } else {
                assert(chain[b] == suffix[b - n2]);
                assert(r0[prefix.len() + (b - n2)] == chain[b]);
            }
        } else {
            assert(chain[a] == suffix[a - n2]);
            assert(chain[b] == suffix[b - n2]);
            assert(r0[prefix.len() + (a - n2)] == chain[a]);
            assert(r0[prefix.len() + (b - n2)] == chain[b]);
        }
    }
}

} // verus!
