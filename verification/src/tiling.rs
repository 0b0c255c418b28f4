//! Power-of-two blocks that tile an arena.

use crate::arith;
use vstd::arithmetic::power2::*;
use vstd::prelude::*;

verus! {

/// The block of `2^order` bytes that starts at `offset`.
pub struct Block {
    pub offset: int,
    pub order: nat,
}

impl Block {
    /// The first byte behind the block.
    pub open spec fn end(self) -> int {
        self.offset + pow2(self.order)
    }

    /// Whether byte `x` belongs to the block.
    pub open spec fn covers(self, x: int) -> bool {
        self.offset <= x < self.end()
    }

    /// Whether no byte belongs to both blocks.
    pub open spec fn disjoint(self, other: Block) -> bool {
        self.end() <= other.offset || other.end() <= self.offset
    }

    /// Whether the block starts at a multiple of its own size.
    pub open spec fn aligned(self) -> bool {
        self.offset % (pow2(self.order) as int) == 0
    }

    /// The other half of the block one order up.
    pub open spec fn buddy(self) -> Block {
        Block { offset: arith::buddy_of(self.offset, self.order), order: self.order }
    }

    /// The block one order up that this block is a half of.
    pub open spec fn parent(self) -> Block {
        Block { offset: arith::floor_to(self.offset, self.order + 1), order: self.order + 1 }
    }

    /// The first half of a block.
    pub open spec fn lower(self) -> Block {
        Block { offset: self.offset, order: (self.order - 1) as nat }
    }

    /// The second half of a block.
    pub open spec fn upper(self) -> Block {
        Block {
            offset: self.offset + pow2((self.order - 1) as nat),
            order: (self.order - 1) as nat,
        }
    }
}

/// Whether byte `x` belongs to one of the blocks.
pub open spec fn covered(blocks: Set<Block>, x: int) -> bool {
    exists|b: Block| #[trigger] blocks.contains(b) && b.covers(x)
}

/// Whether `b` is an aligned block of an arena of `2^max_order` bytes.
pub open spec fn fits(b: Block, min_order: nat, max_order: nat) -> bool {
    &&& min_order <= b.order <= max_order
    &&& 0 <= b.offset
    &&& b.aligned()
    &&& b.end() <= pow2(max_order)
}

/// Whether the blocks are aligned and every byte of an arena of `2^max_order` bytes
/// belongs to exactly one of them.
pub open spec fn tiles(blocks: Set<Block>, min_order: nat, max_order: nat) -> bool {
    &&& forall|b: Block| #[trigger] blocks.contains(b) ==> fits(b, min_order, max_order)
    &&& forall|b: Block, c: Block|
        #![trigger blocks.contains(b), blocks.contains(c)]
        blocks.contains(b) && blocks.contains(c) && b != c ==> b.disjoint(c)
    &&& forall|x: int| 0 <= x < pow2(max_order) ==> #[trigger] covered(blocks, x)
}

/// The blocks with `b` replaced by its two halves.
pub open spec fn split(blocks: Set<Block>, b: Block) -> Set<Block> {
    blocks.remove(b).insert(b.lower()).insert(b.upper())
}

/// The blocks with `b` and its buddy replaced by the block they are the halves of.
pub open spec fn join(blocks: Set<Block>, b: Block) -> Set<Block> {
    blocks.remove(b).remove(b.buddy()).insert(b.parent())
}

/// Two aligned blocks are buddies of each other and make up their parent.
pub proof fn lemma_family(b: Block)
    requires
        0 <= b.offset,
        b.aligned(),
    ensures
        b.buddy().aligned(),
        0 <= b.buddy().offset,
        b.buddy() != b,
        b.buddy().buddy() == b,
        b.buddy().parent() == b.parent(),
        b.disjoint(b.buddy()),
        b.parent().aligned(),
        0 <= b.parent().offset,
        b.parent().offset == if b.offset < b.buddy().offset { b.offset } else { b.buddy().offset },
        forall|x: int| #[trigger] b.parent().covers(x) <==> b.covers(x) || b.buddy().covers(x),
{
    arith::lemma_buddy_pair(b.offset, b.order);
    arith::lemma_pow2_double(b.order);
}

/// A block's halves are buddies of each other and make up the block.
pub proof fn lemma_halves(b: Block)
    requires
        0 <= b.offset,
        b.aligned(),
        b.order > 0,
    ensures
        b.lower().aligned(),
        b.upper().aligned(),
        b.lower().buddy() == b.upper(),
        b.upper().buddy() == b.lower(),
        b.lower().parent() == b,
        b.upper().parent() == b,
        b.lower().end() == b.upper().offset,
        b.upper().end() == b.end(),
        pow2(b.lower().order) > 0,
        forall|x: int| #[trigger] b.covers(x) <==> b.lower().covers(x) || b.upper().covers(x),
{
    let o = (b.order - 1) as nat;
    arith::lemma_lower_half(b.offset, o);
    arith::lemma_buddy_pair(b.offset, o);
    arith::lemma_pow2_double(o);
}

/// Splitting a block keeps the arena tiled.
pub proof fn lemma_split_tiles(blocks: Set<Block>, b: Block, min_order: nat, max_order: nat)
    requires
        tiles(blocks, min_order, max_order),
        blocks.contains(b),
        b.order > min_order,
    ensures
        tiles(split(blocks, b), min_order, max_order),
        !blocks.contains(b.lower()),
        !blocks.contains(b.upper()),
{
    lemma_halves(b);
    let after = split(blocks, b);
    assert(!b.disjoint(b.lower()));
    assert(!b.disjoint(b.upper()));
    assert forall|x: int| 0 <= x < pow2(max_order) implies #[trigger] covered(after, x) by {
        assert(covered(blocks, x));
        let c = choose|c: Block| #[trigger] blocks.contains(c) && c.covers(x);
        if c == b {
            assert(b.covers(x));
            assert(after.contains(b.lower()));
            assert(after.contains(b.upper()));
        } else {
            assert(after.contains(c));
        }
    }
}

/// Joining two buddies keeps the arena tiled.
pub proof fn lemma_join_tiles(blocks: Set<Block>, b: Block, min_order: nat, max_order: nat)
    requires
        tiles(blocks, min_order, max_order),
        blocks.contains(b),
        blocks.contains(b.buddy()),
        b.order < max_order,
    ensures
        tiles(join(blocks, b), min_order, max_order),
        !blocks.contains(b.parent()),
{
    lemma_family(b);
    arith::lemma_pow2_double(b.order);
    let after = join(blocks, b);
    assert(!b.disjoint(b.parent()));
    assert forall|c: Block| #[trigger] blocks.contains(c) && c != b && c != b.buddy() implies c.disjoint(
        b.parent(),
    ) by {
        lemma_pow2_pos(c.order);
        assert(c.disjoint(b) && c.disjoint(b.buddy()));
    }
    assert forall|x: int| 0 <= x < pow2(max_order) implies #[trigger] covered(after, x) by {
        assert(covered(blocks, x));
        let c = choose|c: Block| #[trigger] blocks.contains(c) && c.covers(x);
        if c == b || c == b.buddy() {
            assert(b.parent().covers(x));
            assert(after.contains(b.parent()));
        } else {
            assert(after.contains(c));
        }
    }
}

/// Where the blocks tile the arena and none of them has its buddy among them, there
/// is one block, and it is the whole arena.
pub proof fn lemma_no_buddies_one_block(blocks: Set<Block>, b: Block, min_order: nat, max_order: nat)
    requires
        tiles(blocks, min_order, max_order),
        forall|c: Block| #[trigger] blocks.contains(c) && c.order < max_order ==> !blocks.contains(c.buddy()),
        blocks.contains(b),
    ensures
        b == (Block { offset: 0, order: max_order }),
    decreases b.order,
{
    if b.order < max_order {
        lemma_family(b);
        arith::lemma_pow2_double(b.order);
        arith::lemma_pow2_le(b.order + 1, max_order);
        let whole = Block { offset: 0, order: max_order };
        assert(whole.aligned()) by {
            vstd::arithmetic::div_mod::lemma_mod_multiples_basic(0, pow2(max_order) as int);
        }
        arith::lemma_nested(0, max_order, b.parent().offset, b.order + 1, b.offset);
        let x = b.buddy().offset;
        assert(b.buddy().covers(x));
        assert(b.parent().covers(x));
        assert(covered(blocks, x));
        let c = choose|c: Block| #[trigger] blocks.contains(c) && c.covers(x);
        if c.order > b.order {
            arith::lemma_nested(c.offset, c.order, b.parent().offset, b.order + 1, x);
            assert(!c.disjoint(b));
            assert(false);
        } else if c.order == b.order {
            arith::lemma_nested(c.offset, c.order, x, b.order, x);
            assert(c == b.buddy());
            assert(false);
        } else {
            lemma_no_buddies_one_block(blocks, c, min_order, max_order);
        }
    } else {
        arith::lemma_pow2_le(b.order, max_order);
    }
}

} // verus!
