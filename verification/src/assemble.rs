//! Cutting the input stream into source blocks.

use vstd::prelude::*;

verus! {

/// What a read makes of `bytes`, those pending and those that came: the block
/// that they fill, if they do, and the bytes left.
pub open spec fn filled_by(bytes: Seq<u8>, size: nat) -> (Seq<Seq<u8>>, Seq<u8>) {
    if bytes.len() == size {
        (seq![bytes], Seq::empty())
    } else {
        (Seq::empty(), bytes)
    }
}

/// What the end of the input makes of the bytes pending: a last block with zeros
/// behind them, if there are any.
pub open spec fn padded(pending: Seq<u8>, size: nat) -> Seq<Seq<u8>> {
    if pending.len() > 0 {
        seq![pending + Seq::new((size - pending.len()) as nat, |i: int| 0u8)]
    } else {
        Seq::empty()
    }
}

/// An optional block, as the blocks there are.
pub open spec fn block_in(block: Option<Vec<u8>>) -> Seq<Seq<u8>> {
    match block {
        Some(block) => seq![block@],
        None => Seq::empty(),
    }
}

/// Collects the input into blocks of one size.
pub struct BlockAssembler {
    block_size: usize,
    block: Vec<u8>,
}

impl BlockAssembler {
    #[verifier::type_invariant]
    spec fn part_of_a_block(self) -> bool {
        self.block@.len() < self.block_size
    }

    pub closed spec fn block_size(self) -> usize {
        self.block_size
    }

    /// The bytes of the block that is being filled.
    pub closed spec fn pending(self) -> Seq<u8> {
        self.block@
    }

    pub fn new(block_size: usize) -> (assembler: Self)
        requires
            block_size > 0,
        ensures
            assembler.block_size() == block_size,
            assembler.pending() == Seq::<u8>::empty(),
    {
        BlockAssembler { block_size, block: Vec::new() }
    }

    /// How many bytes the next read may bring.
    pub fn wanted(&self) -> (n: usize)
        ensures
            self.pending().len() < self.block_size(),
            n == self.block_size() - self.pending().len(),
    {
        proof {
            use_type_invariant(self);
        }
        self.block_size - self.block.len()
    }

    /// Takes the bytes of one read, and gives the block if that fills it.
    pub fn accept(&mut self, chunk: &[u8]) -> (full: Option<Vec<u8>>)
        requires
            old(self).pending().len() + chunk@.len() <= old(self).block_size(),
        ensures
            final(self).block_size() == old(self).block_size(),
            ({
                let all = old(self).pending() + chunk@;
                if all.len() == old(self).block_size() {
                    &&& full matches Some(block) && block@ == all
                    &&& final(self).pending() == Seq::<u8>::empty()
                } else {
                    &&& full is None
                    &&& final(self).pending() == all
                }
            }),
            (block_in(full), final(self).pending()) == filled_by(
                old(self).pending() + chunk@,
                old(self).block_size() as nat,
            ),
    {
        proof {
            use_type_invariant(&*self);
        }
        let mut all: Vec<u8> = Vec::new();
        std::mem::swap(&mut all, &mut self.block);
        let ghost pending = all@;
        let mut i: usize = 0;
        while i < chunk.len()
            invariant
                i <= chunk@.len(),
                all@ =~= pending + chunk@.take(i as int),
            decreases chunk.len() - i,
        {
            all.push(chunk[i]);
            i += 1;
        }
        assert(all@ =~= pending + chunk@);
        if all.len() == self.block_size {
            Some(all)
        } else {
            self.block = all;
            None
        }
    }

    /// The input has ended: a block that was begun is padded with zeros.
    pub fn finish(self) -> (last: Option<Vec<u8>>)
        ensures
            if self.pending().len() > 0 {
                last matches Some(block) && block@ == self.pending() + Seq::new(
                    (self.block_size() - self.pending().len()) as nat,
                    |i: int| 0u8,
                )
            } else {
                last is None
            },
            block_in(last) == padded(self.pending(), self.block_size() as nat),
    {
        proof {
            use_type_invariant(&self);
        }
        if self.block.len() == 0 {
            return None;
        }
        let block_size: usize = self.block_size;
        let mut block: Vec<u8> = self.block;
        let ghost pending = block@;
        while block.len() < block_size
            invariant
                pending.len() <= block@.len() <= block_size,
                block@ =~= pending + Seq::new((block@.len() - pending.len()) as nat, |i: int| 0u8),
            decreases block_size - block.len(),
        {
            block.push(0);
        }
        Some(block)
    }
}

/// The blocks that `input` becomes, each of `size` bytes, the last one padded
/// with zeros.
pub open spec fn blocks_of(input: Seq<u8>, size: nat) -> Seq<Seq<u8>>
    decreases input.len(),
{
    if input.len() == 0 || size == 0 {
        Seq::empty()
    } else if input.len() <= size {
        seq![input + Seq::new((size - input.len()) as nat, |i: int| 0u8)]
    } else {
        seq![input.take(size as int)] + blocks_of(input.skip(size as int), size)
    }
}

/// It makes no difference how the input is cut into reads: the block that one
/// read completes, followed by those of the bytes it leaves and the input that
/// follows, are the blocks of the whole.
pub proof fn law_reads_do_not_matter(
    pending: Seq<u8>,
    chunk: Seq<u8>,
    size: nat,
    later: Seq<u8>,
)
    requires
        pending.len() < size,
        pending.len() + chunk.len() <= size,
    ensures
        pending.len() + chunk.len() == size ==> blocks_of(pending + chunk + later, size) == seq![
            pending + chunk,
        ] + blocks_of(later, size),
{
    let all = pending + chunk;
    if all.len() == size {
        let whole = all + later;
        assert(whole.take(size as int) =~= all);
        assert(whole.skip(size as int) =~= later);
        if later.len() == 0 {
            assert(whole =~= all);
            assert(all + Seq::new(0, |i: int| 0u8) =~= all);
            assert(blocks_of(later, size) =~= Seq::empty());
            assert(seq![all] + blocks_of(later, size) =~= seq![all]);
        }
    }
}

/// Nothing of the input is lost or added but zeros at the end: the blocks, put
/// together, start with the input, are a whole number of blocks long, and hold
/// less than one block of zeros behind it.
pub proof fn law_blocks_hold_the_input(input: Seq<u8>, size: nat)
    requires
        size > 0,
    ensures
        blocks_of(input, size).flatten().len() == blocks_of(input, size).len() * size,
        input.len() <= blocks_of(input, size).flatten().len() < input.len() + size,
        blocks_of(input, size).flatten().take(input.len() as int) == input,
        forall|i: int|
            input.len() <= i < blocks_of(input, size).flatten().len() ==> blocks_of(
                input,
                size,
            ).flatten()[i] == 0,
    decreases input.len(),
{
    let blocks = blocks_of(input, size);
    if input.len() == 0 {
        assert(blocks.flatten() =~= Seq::empty());
    } else if input.len() <= size {
        let rest = blocks.drop_first();
        assert(rest =~= Seq::empty());
        assert(rest.flatten() =~= Seq::empty());
        assert(blocks.flatten() == blocks.first() + rest.flatten());
        assert(blocks.flatten().take(input.len() as int) =~= input);
        assert(blocks.len() * size == size) by (nonlinear_arith)
            requires
                blocks.len() == 1,
        ;
    } else {
        let tail = input.skip(size as int);
        law_blocks_hold_the_input(tail, size);
        let rest = blocks.drop_first();
        assert(rest =~= blocks_of(tail, size));
        assert(blocks.flatten() == blocks.first() + rest.flatten());
        assert(blocks.flatten().take(input.len() as int) =~= input) by {
            assert(input =~= input.take(size as int) + tail);
            assert(blocks.flatten().take(input.len() as int) =~= input.take(size as int)
                + rest.flatten().take(tail.len() as int));
        }
        assert(blocks.len() * size == rest.len() * size + size) by (nonlinear_arith)
            requires
                blocks.len() == rest.len() + 1,
        ;
    }
}

/// The block that a read fills, followed by the blocks of the bytes it leaves and
/// the input that follows, are the blocks of the whole; and what the end of the
/// input makes of the bytes pending are their blocks.
pub proof fn law_one_read_at_a_time(bytes: Seq<u8>, size: nat, later: Seq<u8>)
    requires
        0 < size,
        bytes.len() <= size,
    ensures
        blocks_of(bytes + later, size) == filled_by(bytes, size).0 + blocks_of(
            filled_by(bytes, size).1 + later,
            size,
        ),
        filled_by(bytes, size).1.len() < size,
        bytes.len() < size ==> blocks_of(bytes, size) == padded(bytes, size),
{
    let (full, left) = filled_by(bytes, size);
    if bytes.len() == size {
        assert(left + later =~= later);
        law_reads_do_not_matter(Seq::empty(), bytes, size, later);
        assert(Seq::<u8>::empty() + bytes =~= bytes);
    } else {
        assert(full + blocks_of(left + later, size) =~= blocks_of(left + later, size));
        assert(blocks_of(bytes, size) =~= padded(bytes, size));
    }
}

/// Blocks have the size that was asked for, and block `n` starts with byte `n`
/// times the size of the input.
pub proof fn law_blocks_have_their_size(input: Seq<u8>, size: nat, n: int, i: int)
    requires
        0 < size,
        0 <= n < blocks_of(input, size).len(),
        0 <= i < size,
    ensures
        blocks_of(input, size)[n].len() == size,
        blocks_of(input, size)[n][i] == (if n * size + i < input.len() {
            input[n * size + i]
        } else {
            0
        }),
    decreases input.len(),
{
    let blocks = blocks_of(input, size);
    if n == 0 {
        assert(n * size == 0) by (nonlinear_arith)
            requires
                n == 0,
        ;
    } else {
        let tail = input.skip(size as int);
        assert(blocks[n] == blocks_of(tail, size)[n - 1]);
        law_blocks_have_their_size(tail, size, n - 1, i);
        assert(n * size == (n - 1) * size + size) by (nonlinear_arith);
        assert((n - 1) * size >= 0) by (nonlinear_arith)
            requires
                n >= 1,
        ;
    }
}

} // verus!
