//! A bump allocator over a byte buffer of fixed size.
use vstd::arithmetic::div_mod::*;
use vstd::arithmetic::power2::is_pow2;
use vstd::layout::{align_of, size_of, valid_layout};
use vstd::prelude::*;

verus! {

/// The size and the alignment of a block of memory.
#[derive(Clone, Copy, Debug)]
pub struct Layout {
    pub size: usize,
    pub align: usize,
}

pub open spec fn layout_of<T>() -> Layout {
    Layout { size: size_of::<T>() as usize, align: align_of::<T>() as usize }
}

impl Layout {
    /// The alignment is a power of two, and the size does not overflow `isize` when it is
    /// rounded up to the alignment.
    pub open spec fn wf(self) -> bool {
        valid_layout(self.size, self.align)
    }

    /// The layout of a value of type `T`.
    pub fn of<T>() -> (layout: Layout)
        ensures
            layout.wf(),
            layout == layout_of::<T>(),
            layout.size == size_of::<T>(),
            layout.align == align_of::<T>(),
    {
        vstd::layout::layout_for_type_is_valid::<T>();
        Layout { size: core::mem::size_of::<T>(), align: core::mem::align_of::<T>() }
    }
}

/// The first multiple of `align` that is not below `offset`.
pub open spec fn aligned_up(offset: nat, align: nat) -> nat {
    ((offset + align - 1) / align as int * align) as nat
}

proof fn lemma_aligned_up(offset: nat, align: nat)
    requires
        align > 0,
    ensures
        aligned_up(offset, align) == if offset % align == 0 {
            offset as int
        } else {
            offset - offset % align + align
        },
{
    let q = (offset / align) as int;
    let r = (offset % align) as int;
    let a = align as int;
    lemma_fundamental_div_mod(offset as int, a);
    assert(q * a == a * q && (q + 1) * a == a * q + a) by (nonlinear_arith);
    if r == 0 {
        lemma_fundamental_div_mod_converse(offset + a - 1, a, q, a - 1);
    } else {
        lemma_fundamental_div_mod_converse(offset + a - 1, a, q + 1, r - 1);
    }
}

/// What a bump allocator stands for: the bytes of its buffer, of which those below `offset` are
/// handed out.
#[verifier::ext_equal]
pub struct BumpModel {
    pub bytes: Seq<u8>,
    pub offset: nat,
}

impl BumpModel {
    pub open spec fn wf(self) -> bool {
        self.offset <= self.bytes.len() <= isize::MAX
    }

    /// Where a block of the given layout would begin.
    pub open spec fn place(self, layout: Layout) -> nat {
        aligned_up(self.offset, layout.align as nat)
    }

    /// Whether there is room for a block of the given layout.
    pub open spec fn fits(self, layout: Layout) -> bool {
        self.place(layout) + layout.size <= self.bytes.len()
    }

    /// The allocator once `block` is what lies at `start`.
    pub open spec fn written(self, start: nat, block: Seq<u8>) -> BumpModel {
        BumpModel {
            bytes: self.bytes.subrange(0, start as int) + block + self.bytes.subrange(
                (start + block.len()) as int,
                self.bytes.len() as int,
            ),
            ..self
        }
    }

    /// The allocator once a block of the given layout is handed out.
    pub open spec fn taken(self, layout: Layout) -> BumpModel {
        BumpModel { offset: self.place(layout) + layout.size as nat, ..self }
    }
}

pub struct Bump {
    backing: Vec<u8>,
    offset: usize,
}

impl View for Bump {
    type V = BumpModel;

    closed spec fn view(&self) -> BumpModel {
        BumpModel { bytes: self.backing@, offset: self.offset as nat }
    }
}

/// Overwrites `to` with `from`.
fn copy(to: &mut [u8], from: &[u8])
    requires
        old(to)@.len() == from@.len(),
    ensures
        final(to)@ == from@,
{
    let mut i: usize = 0;
    while i < from.len()
        invariant
            i <= to@.len() == from@.len(),
            forall|j: int| 0 <= j < i ==> to@[j] == from@[j],
        decreases from@.len() - i,
    {
        to[i] = from[i];
        i = i + 1;
    }
}

impl Bump {
    pub open spec fn wf(&self) -> bool {
        self@.wf()
    }

    /// An allocator over `size` bytes, all of them zero.
    pub fn new(size: usize) -> (bump: Bump)
        requires
            size <= isize::MAX,
        ensures
            bump.wf(),
            bump@ == (BumpModel { bytes: Seq::new(size as nat, |i: int| 0u8), offset: 0 }),
    {
        let backing = vec![0u8; size];
        Bump { backing, offset: 0 }
    }

    /// Hands out a block of the given layout: the index of its first byte, or nothing where
    /// there is no room for it.
    pub fn alloc_raw(&mut self, layout: Layout) -> (start: Option<usize>)
        requires
            old(self).wf(),
            layout.wf(),
        ensures
            final(self).wf(),
            start is Some <==> old(self)@.fits(layout),
            start matches Some(start) ==> {
                &&& start == old(self)@.place(layout)
                &&& final(self)@ == old(self)@.taken(layout)
            },
            start is None ==> final(self)@ == old(self)@,
            final(self)@.bytes == old(self)@.bytes,
            start matches Some(start) ==> {
                &&& start % layout.align == 0
                &&& old(self)@.offset <= start < old(self)@.offset + layout.align
                &&& start + layout.size == final(self)@.offset <= old(self)@.bytes.len()
            },
            start is None ==> forall|at: int|
                old(self)@.offset <= at && #[trigger] (at % layout.align as int) == 0 ==> at
                    + layout.size > old(self)@.bytes.len(),
    {
        proof {
            reveal(is_pow2);
            lemma_aligned_up(self.offset as nat, layout.align as nat);
            law_blocks_are_aligned(self@, layout);
            law_refused_only_without_room(self@, layout);
        }
        let over: usize = self.offset % layout.align;
        let padding: usize = if over == 0 {
            0
        } else {
            layout.align - over
        };
        let size: usize = self.backing.len();
        if padding > size - self.offset {
            return None;
        }
        let aligned: usize = self.offset + padding;
        if layout.size > size - aligned {
            return None;
        }
        self.offset = aligned + layout.size;
        Some(aligned)
    }

    /// The `size` bytes from `start` on.
    pub fn block(&mut self, start: usize, size: usize) -> (block: &mut [u8])
        requires
            old(self).wf(),
            start + size <= old(self)@.bytes.len(),
        ensures
            block@ == old(self)@.bytes.subrange(start as int, start + size),
            final(block)@.len() == size ==> {
                &&& final(self).wf()
                &&& final(self)@ == old(self)@.written(start as nat, final(block)@)
            },
    {
        let (_, tail) = self.backing.as_mut_slice().split_at_mut(start);
        let (block, _) = tail.split_at_mut(size);
        block
    }

    /// Places a value of type `T`, given by its bytes, and hands out the bytes where it lies.
    pub fn allocate<T>(&mut self, value: &[u8]) -> (slot: &mut [u8])
        requires
            old(self).wf(),
            value@.len() == size_of::<T>(),
            old(self)@.fits(layout_of::<T>()),
        ensures
            slot@ == value@,
            final(slot)@.len() == value@.len() ==> {
                &&& final(self).wf()
                &&& final(self)@ == old(self)@.taken(layout_of::<T>()).written(
                    old(self)@.place(layout_of::<T>()),
                    final(slot)@,
                )
            },
    {
        let layout = Layout::of::<T>();
        let start: usize = self.alloc_raw(layout).unwrap();
        let slot = self.block(start, layout.size);
        copy(slot, value);
        slot
    }

    /// Takes back every block.
    pub fn reset(&mut self)
        requires
            old(self).wf(),
        ensures
            final(self).wf(),
            final(self)@ == (BumpModel { offset: 0, ..old(self)@ }),
    {
        self.offset = 0;
    }
}

/// A block begins at the first multiple of its alignment that is not handed out yet.
pub proof fn law_blocks_are_aligned(bump: BumpModel, layout: Layout)
    requires
        layout.wf(),
    ensures
        bump.place(layout) % layout.align as nat == 0,
        bump.offset <= bump.place(layout) < bump.offset + layout.align,
{
    reveal(is_pow2);
    let align = layout.align as int;
    lemma_aligned_up(bump.offset, layout.align as nat);
    lemma_mod_bound(bump.offset as int, align);
    lemma_mod_multiples_basic((bump.offset + align - 1) / align, align);
}

/// A block is refused only where no multiple of its alignment that is not handed out yet leaves
/// room for it; and where one does, the block begins at the first of them.
pub proof fn law_refused_only_without_room(bump: BumpModel, layout: Layout)
    requires
        layout.wf(),
    ensures
        bump.fits(layout) <==> exists|at: int|
            bump.offset <= at && #[trigger] (at % layout.align as int) == 0 && at + layout.size
                <= bump.bytes.len(),
        forall|at: int|
            bump.offset <= at && #[trigger] (at % layout.align as int) == 0 ==> bump.place(layout)
                <= at,
{
    reveal(is_pow2);
    law_blocks_are_aligned(bump, layout);
    let align = layout.align as int;
    let place = bump.place(layout) as int;
    assert(place % align == 0);
    assert forall|at: int| bump.offset <= at && #[trigger] (at % align) == 0 implies place <= at by {
        lemma_fundamental_div_mod(at, align);
        lemma_fundamental_div_mod(place, align);
        if at < place {
            let a = at / align;
            let b = place / align;
            assert(a < b) by (nonlinear_arith)
                requires
                    align * a < align * b,
                    align > 0,
            ;
            assert(align * a + align <= align * b) by (nonlinear_arith)
                requires
                    a + 1 <= b,
                    align > 0,
            ;
        }
    }
}

/// A block takes its own bytes and the padding before it, and no more: bytes alone that are asked
/// for next begin right behind it.
pub proof fn law_no_bytes_are_wasted(bump: BumpModel, layout: Layout, next: Layout)
    requires
        layout.wf(),
        next.wf(),
        next.align == 1,
    ensures
        bump.taken(layout).offset == bump.place(layout) + layout.size,
        bump.taken(layout).bytes == bump.bytes,
        bump.taken(layout).place(next) == bump.place(layout) + layout.size,
        bump.place(next) == bump.offset,
{
    law_blocks_are_aligned(bump.taken(layout), next);
    law_blocks_are_aligned(bump, next);
}

/// The sizes of some layouts, added up.
pub open spec fn total_size(layouts: Seq<Layout>) -> nat
    decreases layouts.len(),
{
    if layouts.len() == 0 {
        0
    } else {
        total_size(layouts.drop_last()) + layouts.last().size as nat
    }
}

/// Bytes without an alignment all fit, one block after the other, exactly where their sizes add
/// up to no more than what is left of the buffer; they then lie without gaps.
pub proof fn law_bytes_fill_the_buffer(bump: BumpModel, layouts: Seq<Layout>)
    requires
        bump.wf(),
        forall|i: int| 0 <= i < layouts.len() ==> (#[trigger] layouts[i]).wf() && layouts[i].align
            == 1,
    ensures
        all_fit(bump, layouts) <==> bump.offset + total_size(layouts) <= bump.bytes.len(),
        taken_all(bump, layouts).offset == bump.offset + total_size(layouts),
        taken_all(bump, layouts).bytes == bump.bytes,
    decreases layouts.len(),
{
    if layouts.len() > 0 {
        let before = layouts.drop_last();
        assert forall|i: int| 0 <= i < before.len() implies (#[trigger] before[i]).wf()
            && before[i].align == 1 by {
            assert(before[i] == layouts[i]);
        }
        law_bytes_fill_the_buffer(bump, before);
        law_no_bytes_are_wasted(taken_all(bump, before), layouts.last(), layouts.last());
    }
}

/// Writing a block puts its bytes where the block lies and leaves every other byte, and what is
/// handed out, as it is.
pub proof fn law_write_changes_the_block_only(bump: BumpModel, start: nat, block: Seq<u8>)
    requires
        start + block.len() <= bump.bytes.len(),
    ensures
        bump.written(start, block).offset == bump.offset,
        bump.written(start, block).bytes.len() == bump.bytes.len(),
        forall|i: int|
            0 <= i < bump.bytes.len() ==> #[trigger] bump.written(start, block).bytes[i] == if start
                <= i < start + block.len() {
                block[i - start]
            } else {
                bump.bytes[i]
            },
{
}

/// The allocator once blocks of the given layouts are handed out, one after the other.
pub open spec fn taken_all(bump: BumpModel, layouts: Seq<Layout>) -> BumpModel
    decreases layouts.len(),
{
    if layouts.len() == 0 {
        bump
    } else {
        taken_all(bump, layouts.drop_last()).taken(layouts.last())
    }
}

/// Whether there is room for blocks of the given layouts, one after the other.
pub open spec fn all_fit(bump: BumpModel, layouts: Seq<Layout>) -> bool
    decreases layouts.len(),
{
    layouts.len() == 0 || {
        &&& layouts.last().wf()
        &&& all_fit(bump, layouts.drop_last())
        &&& taken_all(bump, layouts.drop_last()).fits(layouts.last())
    }
}

/// Blocks never move back, and none reaches beyond the buffer.
proof fn lemma_taken_all(bump: BumpModel, layouts: Seq<Layout>)
    requires
        bump.wf(),
        all_fit(bump, layouts),
    ensures
        bump.offset <= taken_all(bump, layouts).offset <= bump.bytes.len(),
        taken_all(bump, layouts).bytes == bump.bytes,
    decreases layouts.len(),
{
    if layouts.len() > 0 {
        lemma_taken_all(bump, layouts.drop_last());
        law_blocks_are_aligned(taken_all(bump, layouts.drop_last()), layouts.last());
    }
}

/// A block lies inside the buffer and does not overlap any block that is handed out later,
/// however many come in between.
pub proof fn law_blocks_are_disjoint(
    bump: BumpModel,
    first: Layout,
    between: Seq<Layout>,
    later: Layout,
)
    requires
        bump.wf(),
        first.wf(),
        later.wf(),
        bump.fits(first),
        all_fit(bump.taken(first), between),
        taken_all(bump.taken(first), between).fits(later),
    ensures
        bump.offset <= bump.place(first),
        bump.place(first) + first.size <= taken_all(bump.taken(first), between).place(later),
        taken_all(bump.taken(first), between).place(later) + later.size <= bump.bytes.len(),
{
    law_blocks_are_aligned(bump, first);
    lemma_taken_all(bump.taken(first), between);
    law_blocks_are_aligned(taken_all(bump.taken(first), between), later);
}

/// Writing a block leaves the bytes of every block handed out before as they are.
pub proof fn law_earlier_blocks_are_kept(
    bump: BumpModel,
    layout: Layout,
    block: Seq<u8>,
    index: int,
)
    requires
        layout.wf(),
        bump.fits(layout),
        block.len() == layout.size,
        0 <= index < bump.offset,
    ensures
        bump.taken(layout).written(bump.place(layout), block).bytes[index] == bump.bytes[index],
{
    law_blocks_are_aligned(bump, layout);
}

/// After a reset the whole buffer is free again: the next block begins at its start and fits if
/// it is not larger than the buffer.
pub proof fn law_reset_frees_everything(bump: BumpModel, layout: Layout)
    requires
        layout.wf(),
    ensures
        (BumpModel { offset: 0, ..bump }).place(layout) == 0,
        (BumpModel { offset: 0, ..bump }).fits(layout) <==> layout.size <= bump.bytes.len(),
{
    reveal(is_pow2);
    lemma_aligned_up(0, layout.align as nat);
    lemma_small_mod(0, layout.align as nat);
}

} // verus!
