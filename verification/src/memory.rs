//! The guest memory manager: every buffer in shared memory is born and dies
//! here.
//!
//! Shared memory is modelled as the set of buffers that are live in it, each
//! known by the address of its first byte. An address is handed out once and
//! never again, so an address that has been reclaimed can never come back to
//! life under a stale handle.

use crate::error::GuestError;
use crate::frame::{check, is_frame};
use vstd::prelude::*;

verus! {

/// Ownership of one buffer in shared memory, known by its address.
///
/// A handle cannot be copied. Giving the buffer away means turning the handle
/// into its raw address with [`Handle::into_raw`], after which the giver has
/// nothing left to touch the buffer with; the receiver takes ownership with
/// [`Handle::from_raw`].
#[derive(Debug, PartialEq, Eq)]
pub struct Handle {
    addr: usize,
}

impl View for Handle {
    type V = usize;

    closed spec fn view(&self) -> usize {
        self.addr
    }
}

impl Handle {
    /// Takes ownership of the buffer at a raw address that came across the
    /// boundary.
    pub fn from_raw(addr: usize) -> (res: Handle)
        ensures
            res@ == addr,
    {
        Handle { addr }
    }

    /// Gives the buffer up: what is left is the raw address, to be passed
    /// across the boundary.
    pub fn into_raw(self) -> (res: usize)
        ensures
            res == self@,
    {
        self.addr
    }

    /// The address of the buffer.
    pub fn addr(&self) -> (res: usize)
        ensures
            res == self@,
    {
        self.addr
    }
}

#[derive(Debug)]
struct Block {
    addr: usize,
    bytes: Vec<u8>,
}

/// The number of addresses a buffer of `size` bytes takes up. An empty buffer
/// still takes one, so that no two buffers share an address.
pub open spec fn footprint(size: nat) -> nat {
    if size == 0 {
        1
    } else {
        size
    }
}

spec fn held(blocks: Seq<Block>, addr: usize) -> bool {
    exists|i: int| 0 <= i < blocks.len() && (#[trigger] blocks[i]).addr == addr
}

spec fn slot(blocks: Seq<Block>, addr: usize) -> int {
    choose|i: int| 0 <= i < blocks.len() && (#[trigger] blocks[i]).addr == addr
}

spec fn contents(blocks: Seq<Block>) -> Map<usize, Seq<u8>> {
    Map::new(|a: usize| held(blocks, a), |a: usize| blocks[slot(blocks, a)].bytes@)
}

spec fn end_of(block: Block) -> int {
    block.addr + footprint(block.bytes@.len())
}

spec fn laid_out(blocks: Seq<Block>, next: usize) -> bool {
    &&& forall|i: int, j: int|
        0 <= i < j < blocks.len() ==> end_of(#[trigger] blocks[i]) <= (#[trigger] blocks[j]).addr
    &&& forall|i: int| 0 <= i < blocks.len() ==> end_of(#[trigger] blocks[i]) <= next
}

proof fn lemma_slot(blocks: Seq<Block>, next: usize, i: int)
    requires
        laid_out(blocks, next),
        0 <= i < blocks.len(),
    ensures
        held(blocks, blocks[i].addr),
        slot(blocks, blocks[i].addr) == i,
{
    let k = slot(blocks, blocks[i].addr);
    assert(0 <= k < blocks.len() && blocks[k].addr == blocks[i].addr);
    if k < i {
        assert(end_of(blocks[k]) <= blocks[i].addr);
    } else if i < k {
        assert(end_of(blocks[i]) <= blocks[k].addr);
    }
}

proof fn lemma_contents(blocks: Seq<Block>, next: usize)
    requires
        laid_out(blocks, next),
    ensures
        forall|i: int|
            0 <= i < blocks.len() ==> contents(blocks).contains_key((#[trigger] blocks[i]).addr)
                && contents(blocks)[blocks[i].addr] == blocks[i].bytes@,
        forall|a: usize| #[trigger]
            contents(blocks).contains_key(a) ==> 0 <= slot(blocks, a) < blocks.len() && blocks[slot(
                blocks,
                a,
            )].addr == a,
{
    assert forall|i: int| 0 <= i < blocks.len() implies contents(blocks).contains_key(
        (#[trigger] blocks[i]).addr,
    ) && contents(blocks)[blocks[i].addr] == blocks[i].bytes@ by {
        lemma_slot(blocks, next, i);
    }
}

proof fn lemma_push(blocks: Seq<Block>, next: usize, block: Block, after: usize)
    requires
        laid_out(blocks, next),
        block.addr == next,
        after == end_of(block),
    ensures
        laid_out(blocks.push(block), after),
        contents(blocks.push(block)) == contents(blocks).insert(block.addr, block.bytes@),
        !contents(blocks).contains_key(block.addr),
{
    let grown = blocks.push(block);
    assert(laid_out(grown, after)) by {
        assert forall|i: int, j: int| 0 <= i < j < grown.len() implies end_of(#[trigger] grown[i])
            <= (#[trigger] grown[j]).addr by {
            if j < blocks.len() {
                assert(end_of(blocks[i]) <= blocks[j].addr);
            } else {
                assert(end_of(blocks[i]) <= next);
            }
        }
        assert forall|i: int| 0 <= i < grown.len() implies end_of(#[trigger] grown[i])
            <= after by {
            if i < blocks.len() {
                assert(end_of(blocks[i]) <= next);
            }
        }
    }
    lemma_contents(blocks, next);
    lemma_contents(grown, after);
    if contents(blocks).contains_key(block.addr) {
        let k = slot(blocks, block.addr);
        assert(end_of(blocks[k]) <= next);
    }
    assert forall|a: usize| #[trigger]
        contents(grown).contains_key(a) == contents(blocks).insert(
            block.addr,
            block.bytes@,
        ).contains_key(a) by {
        if contents(grown).contains_key(a) {
            let k = slot(grown, a);
            if k < blocks.len() {
                assert(blocks[k].addr == a);
            }
        }
        if contents(blocks).contains_key(a) {
            let k = slot(blocks, a);
            assert(grown[k].addr == a);
        }
        if a == block.addr {
            assert(grown[blocks.len() as int].addr == a);
        }
    }
    assert forall|a: usize| #[trigger]
        contents(grown).contains_key(a) implies contents(grown)[a] == contents(blocks).insert(
        block.addr,
        block.bytes@,
    )[a] by {
        let k = slot(grown, a);
        if k < blocks.len() {
            assert(blocks[k].addr == a);
            lemma_slot(blocks, next, k);
        }
    }
    assert(contents(grown) =~= contents(blocks).insert(block.addr, block.bytes@));
}

proof fn lemma_remove(blocks: Seq<Block>, next: usize, i: int)
    requires
        laid_out(blocks, next),
        0 <= i < blocks.len(),
    ensures
        laid_out(blocks.remove(i), next),
        contents(blocks.remove(i)) == contents(blocks).remove(blocks[i].addr),
{
    let rest = blocks.remove(i);
    assert(laid_out(rest, next)) by {
        assert forall|p: int, q: int| 0 <= p < q < rest.len() implies end_of(#[trigger] rest[p])
            <= (#[trigger] rest[q]).addr by {
            let src_p = if p < i { p } else { p + 1 };
            let src_q = if q < i { q } else { q + 1 };
            assert(end_of(blocks[src_p]) <= blocks[src_q].addr);
        }
        assert forall|p: int| 0 <= p < rest.len() implies end_of(#[trigger] rest[p]) <= next by {
            let src_p = if p < i { p } else { p + 1 };
            assert(end_of(blocks[src_p]) <= next);
        }
    }
    lemma_contents(blocks, next);
    lemma_contents(rest, next);
    lemma_slot(blocks, next, i);
    assert forall|a: usize| #[trigger]
        contents(rest).contains_key(a) == contents(blocks).remove(blocks[i].addr).contains_key(
            a,
        ) by {
        if contents(rest).contains_key(a) {
            let k = slot(rest, a);
            let src_k = if k < i { k } else { k + 1 };
            assert(blocks[src_k].addr == a);
            lemma_slot(blocks, next, src_k);
        }
        if contents(blocks).contains_key(a) && a != blocks[i].addr {
            let k = slot(blocks, a);
            let dst_k = if k < i { k } else { k - 1 };
            assert(rest[dst_k].addr == a);
        }
    }
    assert forall|a: usize| #[trigger]
        contents(rest).contains_key(a) implies contents(rest)[a] == contents(blocks).remove(
        blocks[i].addr,
    )[a] by {
        let k = slot(rest, a);
        let src_k = if k < i { k } else { k + 1 };
        assert(blocks[src_k].addr == a);
        lemma_slot(blocks, next, src_k);
    }
    assert(contents(rest) =~= contents(blocks).remove(blocks[i].addr));
}

proof fn lemma_update(blocks: Seq<Block>, next: usize, i: int, block: Block)
    requires
        laid_out(blocks, next),
        0 <= i < blocks.len(),
        block.addr == blocks[i].addr,
        block.bytes@.len() == blocks[i].bytes@.len(),
    ensures
        laid_out(blocks.update(i, block), next),
        contents(blocks.update(i, block)) == contents(blocks).insert(block.addr, block.bytes@),
{
    let changed = blocks.update(i, block);
    assert(laid_out(changed, next)) by {
        assert forall|p: int, q: int| 0 <= p < q < changed.len() implies end_of(
            #[trigger] changed[p],
        ) <= (#[trigger] changed[q]).addr by {
            assert(end_of(blocks[p]) <= blocks[q].addr);
        }
        assert forall|p: int| 0 <= p < changed.len() implies end_of(#[trigger] changed[p])
            <= next by {
            assert(end_of(blocks[p]) <= next);
        }
    }
    lemma_contents(blocks, next);
    lemma_contents(changed, next);
    assert forall|a: usize| #[trigger]
        contents(changed).contains_key(a) == contents(blocks).insert(
            block.addr,
            block.bytes@,
        ).contains_key(a) by {
        if contents(changed).contains_key(a) {
            let k = slot(changed, a);
            assert(blocks[k].addr == a);
        }
        if contents(blocks).contains_key(a) {
            let k = slot(blocks, a);
            assert(changed[k].addr == a);
        }
    }
    assert forall|a: usize| #[trigger]
        contents(changed).contains_key(a) implies contents(changed)[a] == contents(blocks).insert(
        block.addr,
        block.bytes@,
    )[a] by {
        let k = slot(changed, a);
        assert(blocks[k].addr == a);
        lemma_slot(blocks, next, k);
        lemma_slot(changed, next, k);
    }
    assert(contents(changed) =~= contents(blocks).insert(block.addr, block.bytes@));
}

proof fn lemma_count(blocks: Seq<Block>, next: usize)
    requires
        laid_out(blocks, next),
    ensures
        contents(blocks).dom().finite(),
        contents(blocks).dom().len() == blocks.len(),
    decreases blocks.len(),
{
    if blocks.len() == 0 {
        assert(contents(blocks).dom() =~= Set::<usize>::empty());
    } else {
        let last = blocks.last();
        let init = blocks.drop_last();
        assert(laid_out(init, last.addr)) by {
            assert forall|i: int, j: int| 0 <= i < j < init.len() implies end_of(
                #[trigger] init[i],
            ) <= (#[trigger] init[j]).addr by {
                assert(end_of(blocks[i]) <= blocks[j].addr);
            }
            assert forall|i: int| 0 <= i < init.len() implies end_of(#[trigger] init[i])
                <= last.addr by {
                assert(end_of(blocks[i]) <= blocks[blocks.len() - 1].addr);
            }
        }
        assert(end_of(blocks[blocks.len() - 1]) <= next);
        lemma_count(init, last.addr);
        lemma_push(init, last.addr, last, end_of(last) as usize);
        assert(init.push(last) =~= blocks);
        assert(contents(blocks).dom() =~= contents(init).dom().insert(last.addr));
    }
}

/// The buffers that are live in shared memory.
#[derive(Debug)]
pub struct GuestMemory {
    blocks: Vec<Block>,
    next: usize,
    limit: usize,
}

impl GuestMemory {
    /// The invariant of the manager: live buffers lie one behind the other
    /// without overlap, all of them below the frontier.
    pub closed spec fn wf(&self) -> bool {
        laid_out(self.blocks@, self.next)
    }

    /// The live buffers: the address of each, and the bytes it holds.
    pub closed spec fn live(&self) -> Map<usize, Seq<u8>> {
        contents(self.blocks@)
    }

    /// The address the next allocation will get. Every address below it has
    /// been handed out or skipped, and will not be handed out again.
    pub closed spec fn frontier(&self) -> nat {
        self.next as nat
    }

    /// The end of shared memory: no buffer reaches beyond it.
    pub closed spec fn limit(&self) -> nat {
        self.limit as nat
    }

    /// Whether a frame is live at `addr`: the only state in which the
    /// buffer there may be reclaimed.
    pub open spec fn frame_at(&self, addr: usize) -> bool {
        self.live().contains_key(addr) && is_frame(self.live()[addr])
    }

    /// Whether `addr` is behind the frontier and not live: a buffer that was
    /// there is gone, and no buffer will ever be there again.
    pub open spec fn retired(&self, addr: usize) -> bool {
        addr < self.frontier() && !self.live().contains_key(addr)
    }

    /// Whether this memory can have come from `before` by allocating and
    /// reclaiming: the frontier has not moved back, and whatever is live now
    /// was live before or lies at or beyond the frontier of before.
    pub open spec fn extends(&self, before: GuestMemory) -> bool {
        &&& before.limit() == self.limit()
        &&& before.frontier() <= self.frontier()
        &&& forall|addr: usize| #[trigger]
            self.live().contains_key(addr) ==> before.live().contains_key(addr)
                || before.frontier() <= addr
    }

    /// Whether `other` holds the same live buffers, and has the same frontier
    /// and the same limit.
    pub open spec fn same_as(&self, other: GuestMemory) -> bool {
        self.live() == other.live() && self.frontier() == other.frontier() && self.limit()
            == other.limit()
    }

    /// Whether an allocation of `size` bytes has room: it has where it ends
    /// at or before the limit.
    pub open spec fn has_room(&self, size: nat) -> bool {
        self.frontier() + footprint(size) <= self.limit()
    }

    /// Every live buffer lies wholly below the frontier.
    pub proof fn lemma_live_below_frontier(&self, addr: usize)
        requires
            self.wf(),
            self.live().contains_key(addr),
        ensures
            addr + footprint(self.live()[addr].len()) <= self.frontier(),
    {
        lemma_contents(self.blocks@, self.next);
        let k = slot(self.blocks@, addr);
        assert(end_of(self.blocks@[k]) <= self.next);
    }

    /// An address that was reclaimed stays dead. Whatever is allocated and
    /// reclaimed afterwards, no frame is live at it again: it cannot be
    /// reclaimed a second time, and there is nothing at it to read.
    pub proof fn lemma_retired_stays_retired(before: GuestMemory, after: GuestMemory, addr: usize)
        requires
            before.retired(addr),
            after.extends(before),
        ensures
            after.retired(addr),
            !after.frame_at(addr),
    {
    }

    /// Coming from an earlier memory is transitive: a sequence of operations
    /// extends the memory it started from.
    pub proof fn lemma_extends_transitive(first: GuestMemory, second: GuestMemory, third: GuestMemory)
        requires
            second.extends(first),
            third.extends(second),
        ensures
            third.extends(first),
    {
        assert forall|addr: usize| #[trigger] third.live().contains_key(addr) implies first.live().contains_key(
            addr,
        ) || first.frontier() <= addr by {
            if second.live().contains_key(addr) {
            }
        }
    }

    /// No two live buffers overlap.
    pub proof fn lemma_live_disjoint(&self, a: usize, b: usize)
        requires
            self.wf(),
            self.live().contains_key(a),
            self.live().contains_key(b),
            a != b,
        ensures
            a + footprint(self.live()[a].len()) <= b || b + footprint(self.live()[b].len()) <= a,
    {
        lemma_contents(self.blocks@, self.next);
        let i = slot(self.blocks@, a);
        let j = slot(self.blocks@, b);
        if i < j {
            assert(end_of(self.blocks@[i]) <= self.blocks@[j].addr);
        } else {
            assert(end_of(self.blocks@[j]) <= self.blocks@[i].addr);
        }
    }

    /// Shared memory with nothing allocated in it, as large as addresses
    /// reach. Address zero is never handed out.
    pub fn new() -> (res: GuestMemory)
        ensures
            res.wf(),
            res.live() == Map::<usize, Seq<u8>>::empty(),
            res.frontier() == 1,
            res.limit() == usize::MAX,
    {
        GuestMemory::with_limit(usize::MAX)
    }

    /// Shared memory with nothing allocated in it, which ends at `limit`.
    /// Address zero is never handed out.
    pub fn with_limit(limit: usize) -> (res: GuestMemory)
        ensures
            res.wf(),
            res.live() == Map::<usize, Seq<u8>>::empty(),
            res.frontier() == 1,
            res.limit() == limit,
    {
        let res = GuestMemory { blocks: Vec::new(), next: 1, limit };
        assert(res.live() =~= Map::<usize, Seq<u8>>::empty());
        res
    }

    fn find(&self, addr: usize) -> (res: Option<usize>)
        requires
            self.wf(),
        ensures
            match res {
                Some(i) => i < self.blocks@.len() && self.blocks@[i as int].addr == addr
                    && self.live().contains_key(addr) && self.live()[addr]
                    == self.blocks@[i as int].bytes@,
                None => !self.live().contains_key(addr),
            },
    {
        let mut i: usize = 0;
        while i < self.blocks.len()
            invariant
                0 <= i <= self.blocks@.len(),
                forall|k: int| 0 <= k < i ==> (#[trigger] self.blocks@[k]).addr != addr,
                self.wf(),
            decreases self.blocks@.len() - i,
        {
            if self.blocks[i].addr == addr {
                proof {
                    lemma_contents(self.blocks@, self.next);
                }
                return Some(i);
            }
            i += 1;
        }
        None
    }

    /// Moves `bytes` into shared memory as a new live buffer and returns
    /// ownership of it.
    ///
    /// Returns `None`, and changes nothing, exactly when shared memory has no
    /// room for a buffer of that size.
    pub fn place(&mut self, bytes: Vec<u8>) -> (res: Option<Handle>)
        requires
            old(self).wf(),
        ensures
            final(self).wf(),
            final(self).extends(*old(self)),
            match res {
                Some(handle) => {
                    &&& old(self).has_room(bytes@.len())
                    &&& handle@ == old(self).frontier()
                    &&& !old(self).live().contains_key(handle@)
                    &&& final(self).live() == old(self).live().insert(handle@, bytes@)
                    &&& final(self).frontier() == old(self).frontier() + footprint(bytes@.len())
                },
                None => {
                    &&& !old(self).has_room(bytes@.len())
                    &&& final(self).live() == old(self).live()
                    &&& final(self).frontier() == old(self).frontier()
                },
            },
    {
        let size: usize = bytes.len();
        let room: usize = if size == 0 {
            1
        } else {
            size
        };
        if self.next > self.limit || room > self.limit - self.next {
            return None;
        }
        let addr: usize = self.next;
        let block = Block { addr, bytes };
        proof {
            lemma_push(self.blocks@, self.next, block, (addr + room) as usize);
            assert forall|a: usize| #[trigger]
                self.live().contains_key(a) implies a < self.frontier() by {
                self.lemma_live_below_frontier(a);
            }
        }
        self.next = addr + room;
        self.blocks.push(block);
        Some(Handle { addr })
    }

    /// Reserves `size` bytes of zeroed shared memory and returns ownership of
    /// them.
    ///
    /// Returns `None`, and changes nothing, exactly when shared memory has no
    /// room for a buffer of that size.
    pub fn allocate(&mut self, size: usize) -> (res: Option<Handle>)
        requires
            old(self).wf(),
        ensures
            final(self).wf(),
            final(self).extends(*old(self)),
            match res {
                Some(handle) => {
                    &&& old(self).has_room(size as nat)
                    &&& handle@ == old(self).frontier()
                    &&& !old(self).live().contains_key(handle@)
                    &&& final(self).live() == old(self).live().insert(
                        handle@,
                        Seq::new(size as nat, |i: int| 0u8),
                    )
                    &&& final(self).frontier() == old(self).frontier() + footprint(size as nat)
                },
                None => {
                    &&& !old(self).has_room(size as nat)
                    &&& final(self).live() == old(self).live()
                    &&& final(self).frontier() == old(self).frontier()
                },
            },
    {
        let bytes: Vec<u8> = vec![0u8; size];
        assert(bytes@ =~= Seq::new(size as nat, |i: int| 0u8));
        self.place(bytes)
    }

    /// Whether a buffer is live at `addr`.
    pub fn is_live(&self, addr: usize) -> (res: bool)
        requires
            self.wf(),
        ensures
            res == self.live().contains_key(addr),
    {
        self.find(addr).is_some()
    }

    /// Whether a frame is live at `addr`.
    pub fn holds_frame(&self, addr: usize) -> (res: bool)
        requires
            self.wf(),
        ensures
            res == self.frame_at(addr),
    {
        match self.find(addr) {
            Some(i) => check(self.blocks[i].bytes.as_slice()),
            None => false,
        }
    }

    /// The number of live buffers: the allocations that are outstanding.
    pub fn outstanding(&self) -> (res: usize)
        requires
            self.wf(),
        ensures
            self.live().dom().finite(),
            res == self.live().dom().len(),
    {
        proof {
            lemma_count(self.blocks@, self.next);
        }
        self.blocks.len()
    }

    /// The bytes of the live buffer that `handle` owns.
    pub fn read(&self, handle: &Handle) -> (res: &[u8])
        requires
            self.wf(),
            self.live().contains_key(handle@),
        ensures
            res@ == self.live()[handle@],
    {
        let i: usize = self.index_of(handle.addr);
        self.blocks[i].bytes.as_slice()
    }

    /// Overwrites the live buffer that `handle` owns with `data`, which must
    /// fill it exactly.
    pub fn write(&mut self, handle: &Handle, data: &[u8])
        requires
            old(self).wf(),
            old(self).live().contains_key(handle@),
            old(self).live()[handle@].len() == data@.len(),
        ensures
            final(self).wf(),
            final(self).live() == old(self).live().insert(handle@, data@),
            final(self).frontier() == old(self).frontier(),
            final(self).extends(*old(self)),
    {
        let i: usize = self.index_of(handle.addr);
        let mut bytes: Vec<u8> = Vec::with_capacity(data.len());
        bytes.extend_from_slice(data);
        assert(bytes@ =~= data@);
        let block = Block { addr: handle.addr, bytes };
        proof {
            lemma_update(self.blocks@, self.next, i as int, block);
        }
        self.blocks.set(i, block);
    }

    fn index_of(&self, addr: usize) -> (res: usize)
        requires
            self.wf(),
            self.live().contains_key(addr),
        ensures
            res < self.blocks@.len(),
            self.blocks@[res as int].addr == addr,
            self.blocks@[res as int].bytes@ == self.live()[addr],
    {
        proof {
            lemma_contents(self.blocks@, self.next);
        }
        let count: usize = self.blocks.len();
        let mut i: usize = 0;
        while self.blocks[i].addr != addr
            invariant
                count == self.blocks@.len(),
                0 <= i < self.blocks@.len(),
                i <= slot(self.blocks@, addr) < self.blocks@.len(),
                self.blocks@[slot(self.blocks@, addr)].addr == addr,
            decreases self.blocks@.len() - i,
        {
            i += 1;
        }
        proof {
            lemma_slot(self.blocks@, self.next, i as int);
        }
        i
    }

    /// Takes the frame at `handle` out of shared memory and frees it: the
    /// one way in which a buffer in shared memory dies.
    ///
    /// The handle must own a live frame. What comes back is the whole frame,
    /// prefix included.
    pub fn reclaim(&mut self, handle: Handle) -> (res: Vec<u8>)
        requires
            old(self).wf(),
            old(self).frame_at(handle@),
        ensures
            final(self).wf(),
            res@ == old(self).live()[handle@],
            is_frame(res@),
            final(self).live() == old(self).live().remove(handle@),
            final(self).frontier() == old(self).frontier(),
            final(self).retired(handle@),
            final(self).extends(*old(self)),
    {
        let i: usize = self.index_of(handle.addr);
        proof {
            lemma_remove(self.blocks@, self.next, i as int);
            self.lemma_live_below_frontier(handle@);
        }
        let block: Block = self.blocks.remove(i);
        block.bytes
    }

    /// Reclaims the buffer at `addr` if a frame is live there.
    ///
    /// Fails with [`GuestError::ProtocolViolation`], and changes nothing,
    /// exactly when no frame is live at `addr`: the address was never
    /// allocated, it was reclaimed before, or the buffer there is not a frame.
    pub fn try_reclaim(&mut self, addr: usize) -> (res: Result<Vec<u8>, GuestError>)
        requires
            old(self).wf(),
        ensures
            final(self).wf(),
            final(self).frontier() == old(self).frontier(),
            final(self).extends(*old(self)),
            match res {
                Ok(bytes) => {
                    &&& old(self).frame_at(addr)
                    &&& bytes@ == old(self).live()[addr]
                    &&& final(self).live() == old(self).live().remove(addr)
                    &&& final(self).retired(addr)
                },
                Err(e) => {
                    &&& !old(self).frame_at(addr)
                    &&& e == GuestError::ProtocolViolation
                    &&& final(self).live() == old(self).live()
                },
            },
    {
        if self.holds_frame(addr) {
            Ok(self.reclaim(Handle::from_raw(addr)))
        } else {
            Err(GuestError::ProtocolViolation)
        }
    }
}

} // verus!
