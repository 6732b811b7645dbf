//! Recently sent blocks, kept alive so that idle airtime can mint more repair
//! symbols for them.

use crate::clock;
use crate::clock::nanos_since;
use crate::codec::BlockEncoder;
use std::collections::VecDeque;
use vstd::prelude::*;

verus! {

/// Hard cap on retained blocks, guarding against a very large horizon.
pub const MAX_RING: usize = 64;

/// A recently encoded block, with what has been minted for it so far.
pub struct BlockGen {
    pub encoder: BlockEncoder,
    /// Next repair symbol to generate; starts past the in-band baseline.
    pub next_repair_id: u32,
    /// Ceiling on total repair symbols for this block.
    pub max_repair: u32,
    /// When the block's source went out, in nanoseconds on the caller's clock.
    pub created: u128,
}

impl BlockGen {
    /// The block has had all the repair that it may get.
    pub open spec fn is_exhausted(self) -> bool {
        self.next_repair_id >= self.max_repair
    }

    /// The block deserves no more repair: it is exhausted, or the decoder would
    /// no longer hold it.
    pub open spec fn is_stale(self, horizon: u128, now: u128) -> bool {
        clock::elapsed(self.created, now) > horizon || self.is_exhausted()
    }

    pub fn exhausted(&self) -> (res: bool)
        ensures
            res == self.is_exhausted(),
    {
        self.next_repair_id >= self.max_repair
    }
}

/// One step of the xorshift64 generator.
pub open spec fn xorshift(x: u64) -> u64 {
    let a = x ^ (x << 13u64);
    let b = a ^ (a >> 7u64);
    b ^ (b << 17u64)
}

/// What a coin flip that drew `x` shows.
pub open spec fn heads(x: u64) -> bool {
    (x >> 33u64) & 1 == 1
}

/// The generator's state after `n` draws.
pub open spec fn drawn(state: u64, n: nat) -> u64
    decreases n,
{
    if n == 0 {
        state
    } else {
        xorshift(drawn(state, (n - 1) as nat))
    }
}

/// Cheap deterministic PRNG (xorshift64) for recency-weighted repair targeting.
pub struct Xorshift64(u64);

impl Xorshift64 {
    #[verifier::type_invariant]
    spec fn never_stuck(self) -> bool {
        self.0 != 0
    }

    pub closed spec fn state(self) -> u64 {
        self.0
    }

    pub fn new(seed: u64) -> (rng: Self)
        ensures
            rng.state() == seed | 1,
    {
        assert(seed | 1 != 0) by (bit_vector);
        Xorshift64(seed | 1)
    }

    pub fn next_u64(&mut self) -> (x: u64)
        ensures
            x != 0,
            x == xorshift(old(self).state()),
            final(self).state() == x,
    {
        proof {
            use_type_invariant(&*self);
            law_xorshift_never_sticks(self.0);
        }
        let mut x: u64 = self.0;
        x = x ^ (x << 13u64);
        x = x ^ (x >> 7u64);
        x = x ^ (x << 17u64);
        self.0 = x;
        x
    }

    /// A coin flip, about even.
    pub fn coin(&mut self) -> (res: bool)
        ensures
            final(self).state() == xorshift(old(self).state()),
            res == heads(final(self).state()),
    {
        let x: u64 = self.next_u64();
        (x >> 33u64) & 1 == 1
    }
}

/// The generator never reaches zero, where it would stay.
pub proof fn law_xorshift_never_sticks(x: u64)
    requires
        x != 0,
    ensures
        xorshift(x) != 0,
{
    assert({
        let a = x ^ (x << 13u64);
        let b = a ^ (a >> 7u64);
        b ^ (b << 17u64)
    } != 0) by (bit_vector)
        requires
            x != 0,
    ;
}

/// `ring` without the blocks beyond the cap, oldest first.
pub open spec fn capped(ring: Seq<BlockGen>) -> Seq<BlockGen> {
    if ring.len() > MAX_RING {
        ring.skip(ring.len() - MAX_RING)
    } else {
        ring
    }
}

/// `ring` without the stale blocks at its front.
pub open spec fn fresh(ring: Seq<BlockGen>, horizon: u128, now: u128) -> Seq<BlockGen>
    decreases ring.len(),
{
    if ring.len() > 0 && ring[0].is_stale(horizon, now) {
        fresh(ring.drop_first(), horizon, now)
    } else {
        ring
    }
}

/// `ring` without the blocks that have had all their repair.
pub open spec fn unexhausted(ring: Seq<BlockGen>) -> Seq<BlockGen>
    decreases ring.len(),
{
    if ring.len() == 0 {
        ring
    } else if ring.last().is_exhausted() {
        unexhausted(ring.drop_last())
    } else {
        unexhausted(ring.drop_last()).push(ring.last())
    }
}

/// What pruning leaves of `ring`.
pub open spec fn pruned(ring: Seq<BlockGen>, horizon: u128, now: u128) -> Seq<BlockGen> {
    unexhausted(fresh(capped(ring), horizon, now))
}

/// Drops blocks that the decoder would no longer hold (older than the horizon)
/// or that hit their repair ceiling, and enforces the ring cap. Created times
/// are monotonic, so only the front needs horizon checking.
pub fn prune_ring(ring: &mut VecDeque<BlockGen>, horizon: u128, now: u128)
    ensures
        final(ring)@ == pruned(old(ring)@, horizon, now),
        forall|i: int|
            0 <= i < final(ring)@.len() ==> !(#[trigger] final(ring)@[i]).is_exhausted(),
{
    let ghost all = ring@;
    while ring.len() > MAX_RING
        invariant
            capped(ring@) == capped(all),
        decreases ring.len(),
    {
        let ghost before = ring@;
        let _ = ring.pop_front();
        assert(capped(ring@) =~= capped(before));
    }
    while ring.len() > 0
        invariant
            fresh(ring@, horizon, now) == fresh(capped(all), horizon, now),
        ensures
            ring@ == fresh(capped(all), horizon, now),
        decreases ring.len(),
    {
        let front: &BlockGen = &ring[0];
        let stale: bool = nanos_since(front.created, now) > horizon || front.exhausted();
        if !stale {
            break;
        }
        let ghost before = ring@;
        let _ = ring.pop_front();
        assert(ring@ =~= before.drop_first());
    }
    // Every block passes from the front to the back once, if it is still live.
    let ghost kept = ring@;
    let n: usize = ring.len();
    let mut i: usize = 0;
    assert(ring@ =~= kept.skip(0) + unexhausted(kept.take(0)));
    while i < n
        invariant
            i <= n,
            n == kept.len(),
            ring@ == kept.skip(i as int) + unexhausted(kept.take(i as int)),
        decreases n - i,
    {
        let ghost before = unexhausted(kept.take(i as int));
        let block: BlockGen = ring.pop_front().unwrap();
        assert(block == kept[i as int]);
        assert(kept.take(i + 1).drop_last() =~= kept.take(i as int));
        assert(ring@ =~= kept.skip(i + 1) + before);
        if !block.exhausted() {
            ring.push_back(block);
        }
        i += 1;
        assert(ring@ =~= kept.skip(i as int) + unexhausted(kept.take(i as int)));
    }
    proof {
        assert(kept.take(n as int) =~= kept);
        assert(ring@ =~= unexhausted(kept));
        lemma_unexhausted(kept);
    }
}

/// Where a block of the unexhausted ones stood among all.
pub open spec fn place(ring: Seq<BlockGen>, i: int) -> int
    decreases ring.len(),
{
    if ring.len() == 0 {
        0
    } else if !ring.last().is_exhausted() && i == unexhausted(ring).len() - 1 {
        ring.len() - 1
    } else {
        place(ring.drop_last(), i)
    }
}

/// `block` is number `i` of the unexhausted ones.
pub open spec fn placed(ring: Seq<BlockGen>, i: int, block: BlockGen) -> bool {
    &&& 0 <= place(ring, i) < ring.len()
    &&& block == ring[place(ring, i)]
    &&& !block.is_exhausted()
}

pub proof fn lemma_unexhausted(ring: Seq<BlockGen>)
    ensures
        unexhausted(ring).len() <= ring.len(),
        forall|i: int|
            0 <= i < unexhausted(ring).len() ==> placed(ring, i, #[trigger] unexhausted(ring)[i]),
        forall|i: int, j: int|
            0 <= i < j < unexhausted(ring).len() ==> #[trigger] place(ring, i) < #[trigger] place(
                ring,
                j,
            ),
        forall|j: int|
            0 <= j < ring.len() && !(#[trigger] ring[j]).is_exhausted() ==> unexhausted(
                ring,
            ).contains(ring[j]),
        ring.len() > 0 && !ring[0].is_exhausted() ==> unexhausted(ring).len() > 0 && unexhausted(
            ring,
        )[0] == ring[0],
    decreases ring.len(),
{
    if ring.len() > 0 {
        let init = ring.drop_last();
        lemma_unexhausted(init);
        let (u, v) = (unexhausted(init), unexhausted(ring));
        assert forall|i: int| 0 <= i < v.len() implies placed(ring, i, #[trigger] v[i]) by {
            if i < u.len() {
                assert(placed(init, i, u[i]));
                assert(place(ring, i) == place(init, i));
            }
        }
        assert forall|i: int, j: int| 0 <= i < j < v.len() implies #[trigger] place(ring, i)
            < #[trigger] place(ring, j) by {
            assert(placed(init, i, u[i]));
            assert(place(ring, i) == place(init, i));
            if j < u.len() {
                assert(place(ring, j) == place(init, j));
            }
        }
        assert forall|j: int|
            0 <= j < ring.len() && !(#[trigger] ring[j]).is_exhausted() implies v.contains(
            ring[j],
        ) by {
            if j < init.len() {
                assert(init[j] == ring[j]);
                let i = u.index_of(ring[j]);
                assert(v[i] == ring[j]);
            } else {
                assert(v[v.len() - 1] == ring[j]);
            }
        }
    }
}

proof fn lemma_fresh_is_suffix(ring: Seq<BlockGen>, horizon: u128, now: u128)
    ensures
        fresh(ring, horizon, now).len() <= ring.len(),
        fresh(ring, horizon, now) == ring.skip(ring.len() - fresh(ring, horizon, now).len()),
        forall|i: int|
            0 <= i < ring.len() - fresh(ring, horizon, now).len() ==> (
            #[trigger] ring[i]).is_stale(horizon, now),
    decreases ring.len(),
{
    if ring.len() > 0 && ring[0].is_stale(horizon, now) {
        let rest = ring.drop_first();
        lemma_fresh_is_suffix(rest, horizon, now);
        let n = fresh(rest, horizon, now).len();
        assert(ring.skip(ring.len() - n) =~= rest.skip(rest.len() - n));
        assert forall|i: int| 0 <= i < ring.len() - n implies (#[trigger] ring[i]).is_stale(
            horizon,
            now,
        ) by {
            if i > 0 {
                assert(ring[i] == rest[i - 1]);
            }
        }
    } else {
        assert(ring.skip(0) =~= ring);
    }
}

/// How many of the oldest blocks go, to keep to the cap and the horizon.
pub open spec fn cut(ring: Seq<BlockGen>, horizon: u128, now: u128) -> int {
    ring.len() - fresh(capped(ring), horizon, now).len()
}

/// Pruning keeps blocks that had not all their repair, and no others, of the
/// most recent ones, at most [`MAX_RING`] of them. The older ones that it drops
/// within the cap were stale. If the blocks came in order of time, none that is
/// kept is beyond the horizon.
pub proof fn law_prune_keeps_the_fresh(ring: Seq<BlockGen>, horizon: u128, now: u128)
    ensures
        0 <= cut(ring, horizon, now) <= ring.len(),
        ring.len() - cut(ring, horizon, now) <= MAX_RING,
        pruned(ring, horizon, now).len() <= ring.len() - cut(ring, horizon, now),
        pruned(ring, horizon, now) == unexhausted(ring.skip(cut(ring, horizon, now))),
        forall|i: int|
            0 <= i < cut(ring, horizon, now) && i >= ring.len() - MAX_RING ==> (
            #[trigger] ring[i]).is_stale(horizon, now),
        forall|i: int|
            0 <= i < pruned(ring, horizon, now).len() ==> !(
            #[trigger] pruned(ring, horizon, now)[i]).is_exhausted() && ring.contains(
                pruned(ring, horizon, now)[i],
            ),
        forall|j: int|
            cut(ring, horizon, now) <= j < ring.len() && !(#[trigger] ring[j]).is_exhausted()
                ==> pruned(ring, horizon, now).contains(ring[j]),
        pruned(ring, horizon, now).len() > 0 ==> !pruned(ring, horizon, now)[0].is_stale(
            horizon,
            now,
        ),
        (forall|i: int, j: int|
            0 <= i <= j < ring.len() ==> (#[trigger] ring[i]).created <= (
            #[trigger] ring[j]).created) ==> forall|i: int|
            0 <= i < pruned(ring, horizon, now).len() ==> clock::elapsed(
                (#[trigger] pruned(ring, horizon, now)[i]).created,
                now,
            ) <= horizon,
{
    let cap = capped(ring);
    let young = fresh(cap, horizon, now);
    let kept = pruned(ring, horizon, now);
    let m = cut(ring, horizon, now);
    lemma_fresh_is_suffix(cap, horizon, now);
    lemma_fresh_front(cap, horizon, now);
    lemma_unexhausted(young);
    assert(young =~= ring.skip(m));
    assert forall|i: int| 0 <= i < m && i >= ring.len() - MAX_RING implies (
    #[trigger] ring[i]).is_stale(horizon, now) by {
        assert(ring[i] == cap[i - (ring.len() - cap.len())]);
    }
    assert forall|i: int| 0 <= i < kept.len() implies !(#[trigger] kept[i]).is_exhausted()
        && ring.contains(kept[i]) by {
        assert(kept[i] == ring[m + place(young, i)]);
    }
    assert forall|j: int| m <= j < ring.len() && !(#[trigger] ring[j]).is_exhausted() implies kept.contains(
        ring[j],
    ) by {
        assert(young[j - m] == ring[j]);
    }
    if forall|i: int, j: int|
        0 <= i <= j < ring.len() ==> (#[trigger] ring[i]).created <= (
        #[trigger] ring[j]).created {
        assert forall|i: int| 0 <= i < kept.len() implies clock::elapsed(
            (#[trigger] kept[i]).created,
            now,
        ) <= horizon by {
            let p = place(young, i);
            assert(kept[i] == ring[m + p]);
            assert(young[0] == ring[m]);
        }
    }
}

proof fn lemma_fresh_front(ring: Seq<BlockGen>, horizon: u128, now: u128)
    ensures
        fresh(ring, horizon, now).len() > 0 ==> !fresh(ring, horizon, now)[0].is_stale(
            horizon,
            now,
        ),
    decreases ring.len(),
{
    if ring.len() > 0 && ring[0].is_stale(horizon, now) {
        lemma_fresh_front(ring.drop_first(), horizon, now);
    }
}

/// Which blocks can still get repair.
pub open spec fn live_blocks(ring: Seq<BlockGen>) -> Seq<bool> {
    Seq::new(ring.len(), |i: int| !ring[i].is_exhausted())
}

/// The walk from block `n - 1` down to the oldest, with the generator at
/// `state`: at every live block a coin is flipped, and heads picks the block. If
/// no flip shows heads, the last block flipped for is picked, or `last` if there
/// was none. Gives the pick and the generator's state after it.
pub open spec fn pick_from(live: Seq<bool>, n: int, state: u64, last: Option<int>) -> (
    Option<int>,
    u64,
)
    decreases n,
{
    if n <= 0 {
        (last, state)
    } else if !live[n - 1] {
        pick_from(live, n - 1, state, last)
    } else if heads(xorshift(state)) {
        (Some(n - 1), xorshift(state))
    } else {
        pick_from(live, n - 1, xorshift(state), Some(n - 1))
    }
}

/// An optional index, as a number.
pub open spec fn index_of(i: Option<usize>) -> Option<int> {
    match i {
        Some(i) => Some(i as int),
        None => None,
    }
}

/// Picks which live block gets the next idle repair symbol, weighted toward the
/// freshest (geometric: freshest 1/2, next 1/4, ...). Returns an index into the
/// ring, or `None` if every retained block is exhausted.
pub fn pick_block(ring: &VecDeque<BlockGen>, rng: &mut Xorshift64) -> (pick: Option<usize>)
    ensures
        (index_of(pick), final(rng).state()) == pick_from(
            live_blocks(ring@),
            ring@.len() as int,
            old(rng).state(),
            None,
        ),
{
    let mut oldest_live: Option<usize> = None;
    let ghost live = live_blocks(ring@);
    let ghost outcome = pick_from(live, ring@.len() as int, rng.state(), None);
    let mut i: usize = ring.len();
    while i > 0
        invariant
            i <= ring@.len(),
            live == live_blocks(ring@),
            outcome == pick_from(live, ring@.len() as int, old(rng).state(), None),
            outcome == pick_from(live, i as int, rng.state(), index_of(oldest_live)),
        decreases i,
    {
        i -= 1;
        if ring[i].exhausted() {
            continue;
        }
        oldest_live = Some(i);
        if rng.coin() {
            return Some(i);
        }
    }
    oldest_live
}

/// Live blocks among `from..live.len()`.
pub open spec fn live_count(live: Seq<bool>, from: int) -> nat
    decreases live.len() - from,
{
    if from >= live.len() {
        0
    } else {
        live_count(live, from + 1) + if live[from] {
            1nat
        } else {
            0nat
        }
    }
}

/// Only a live block is ever picked, and one is picked whenever there is one.
/// The pick is geometric over the live blocks, freshest first: the block with
/// `t` fresher live ones is picked if flip `t + 1` is the first to show heads,
/// and the oldest also if no flip does. No flip is drawn beyond that one.
pub proof fn law_pick_is_geometric(live: Seq<bool>, state: u64)
    ensures
        ({
            let pick = pick_from(live, live.len() as int, state, None).0;
            &&& pick is None <==> forall|i: int| 0 <= i < live.len() ==> !#[trigger] live[i]
            &&& pick matches Some(i) ==> {
                let t = live_count(live, i + 1);
                &&& 0 <= i < live.len()
                &&& live[i]
                &&& forall|u: nat| 1 <= u <= t ==> !heads(#[trigger] drawn(state, u))
                &&& heads(drawn(state, t + 1)) || forall|j: int| 0 <= j < i ==> !#[trigger] live[j]
                &&& pick_from(live, live.len() as int, state, None).1 == drawn(state, t + 1)
            }
            &&& pick is None ==> pick_from(live, live.len() as int, state, None).1 == state
        }),
{
    lemma_pick(live, live.len() as int, state, None, state);
}

proof fn lemma_pick(live: Seq<bool>, n: int, state: u64, last: Option<int>, start: u64)
    requires
        0 <= n <= live.len(),
        state == drawn(start, live_count(live, n)),
        forall|u: nat| 1 <= u <= live_count(live, n) ==> !heads(#[trigger] drawn(start, u)),
        last is None <==> forall|i: int| n <= i < live.len() ==> !#[trigger] live[i],
        last matches Some(l) ==> n <= l < live.len() && live[l] && forall|i: int|
            n <= i < l ==> !#[trigger] live[i],
    ensures
        ({
            let pick = pick_from(live, n, state, last).0;
            &&& pick is None <==> forall|i: int| 0 <= i < live.len() ==> !#[trigger] live[i]
            &&& pick matches Some(i) ==> {
                let t = live_count(live, i + 1);
                &&& 0 <= i < live.len()
                &&& live[i]
                &&& forall|u: nat| 1 <= u <= t ==> !heads(#[trigger] drawn(start, u))
                &&& heads(drawn(start, t + 1)) || forall|j: int| 0 <= j < i ==> !#[trigger] live[j]
                &&& pick_from(live, n, state, last).1 == drawn(start, t + 1)
            }
            &&& pick is None ==> pick_from(live, n, state, last).1 == start
        }),
    decreases n,
{
    if n == 0 {
        if let Some(l) = last {
            lemma_live_count_monotonic(live, 0, l + 1);
            lemma_none_live(live, 0, l);
        } else {
            lemma_none_live(live, 0, live.len() as int);
        }
    } else if !live[n - 1] {
        lemma_pick(live, n - 1, state, last, start);
    } else {
        let t = live_count(live, n);
        assert(drawn(start, t + 1) == xorshift(state));
        if !heads(xorshift(state)) {
            lemma_pick(live, n - 1, xorshift(state), Some(n - 1), start);
        }
    }
}

proof fn lemma_none_live(live: Seq<bool>, a: int, b: int)
    requires
        0 <= a <= b <= live.len(),
        forall|i: int| a <= i < b ==> !#[trigger] live[i],
    ensures
        live_count(live, a) == live_count(live, b),
    decreases b - a,
{
    if a < b {
        lemma_none_live(live, a + 1, b);
    }
}

proof fn lemma_live_count_monotonic(live: Seq<bool>, a: int, b: int)
    requires
        0 <= a <= b,
    ensures
        live_count(live, b) <= live_count(live, a),
    decreases b - a,
{
    if a < b {
        lemma_live_count_monotonic(live, a + 1, b);
    }
}

/// The block may get repair for as long as the next one is below its ceiling, be
/// it by one.
pub proof fn law_ceiling_is_used_up(block: BlockGen)
    ensures
        block.is_exhausted() <==> block.next_repair_id >= block.max_repair,
{
}

/// The generator is the one of Marsaglia's triple 13, 7, 17: each half step can
/// be told from the state before it and the one after. The coin shows bit 33.
pub proof fn law_xorshift_mixes_by_its_triple(x: u64, n: nat)
    ensures
        exists|a: u64, b: u64| #[trigger] half_steps(x, a, b, xorshift(x)),
        heads(x) <==> x as int / 0x2_0000_0000 % 2 == 1,
        drawn(x, 0) == x,
        drawn(x, n + 1) == xorshift(drawn(x, n)),
{
    let a = x ^ (x << 13u64);
    let b = a ^ (a >> 7u64);
    let c = xorshift(x);
    assert(c == b ^ (b << 17u64));
    assert(half_steps(x, a, b, c)) by {
        assert(x ^ a == x << 13u64) by (bit_vector)
            requires
                a == x ^ (x << 13u64),
        ;
        assert(a ^ b == a >> 7u64) by (bit_vector)
            requires
                b == a ^ (a >> 7u64),
        ;
        assert(b ^ c == b << 17u64) by (bit_vector)
            requires
                c == b ^ (b << 17u64),
        ;
    }
    assert(((x >> 33u64) & 1 == 1) <==> (x / 0x2_0000_0000) % 2 == 1) by (bit_vector);
}

/// `x` differs from `a` by `x` shifted, and so on.
pub open spec fn half_steps(x: u64, a: u64, b: u64, c: u64) -> bool {
    &&& x ^ a == x << 13u64
    &&& a ^ b == a >> 7u64
    &&& b ^ c == b << 17u64
}

/// Block `j` of the ring can still use an idle slot: it is one of the last 64,
/// its next repair symbol is below its ceiling, and it is within the horizon or
/// behind a block that is, and that has repair left too.
pub open spec fn can_use(ring: Seq<BlockGen>, horizon: u128, now: u128, j: int) -> bool {
    &&& 0 <= j < ring.len()
    &&& j >= ring.len() - 64
    &&& ring[j].next_repair_id < ring[j].max_repair
    &&& exists|i: int| #[trigger]
        holds_back(ring, horizon, now, i) && ring.len() - 64 <= i <= j
}

/// Block `i` is within the horizon and has repair left.
pub open spec fn holds_back(ring: Seq<BlockGen>, horizon: u128, now: u128, i: int) -> bool {
    &&& 0 <= i < ring.len()
    &&& now <= ring[i].created || now - ring[i].created <= horizon
    &&& ring[i].next_repair_id < ring[i].max_repair
}

proof fn lemma_place_onto(ring: Seq<BlockGen>, j: int)
    requires
        0 <= j < ring.len(),
        !ring[j].is_exhausted(),
    ensures
        exists|i: int| 0 <= i < unexhausted(ring).len() && #[trigger] place(ring, i) == j,
    decreases ring.len(),
{
    let init = ring.drop_last();
    lemma_unexhausted(ring);
    if j == ring.len() - 1 {
        assert(place(ring, unexhausted(ring).len() - 1) == j);
    } else {
        assert(init[j] == ring[j]);
        lemma_place_onto(init, j);
        let i = choose|i: int|
            0 <= i < unexhausted(init).len() && #[trigger] place(init, i) == j;
        assert(place(ring, i) == j);
    }
}

/// Pruning keeps exactly the blocks that can still use an idle slot, in their
/// order, each once: `at` says where in the ring each of them stood.
pub proof fn law_prune_keeps_what_can_be_used(
    ring: Seq<BlockGen>,
    horizon: u128,
    now: u128,
) -> (at: Seq<int>)
    ensures
        at.len() == pruned(ring, horizon, now).len(),
        forall|i: int|
            0 <= i < at.len() ==> can_use(ring, horizon, now, #[trigger] at[i]) && pruned(
                ring,
                horizon,
                now,
            )[i] == ring[at[i]],
        forall|i: int, j: int| 0 <= i < j < at.len() ==> #[trigger] at[i] < #[trigger] at[j],
        forall|j: int| #[trigger] can_use(ring, horizon, now, j) ==> at.contains(j),
{
    let cap = capped(ring);
    let young = fresh(cap, horizon, now);
    let kept = pruned(ring, horizon, now);
    let m = cut(ring, horizon, now);
    law_prune_keeps_the_fresh(ring, horizon, now);
    lemma_fresh_is_suffix(cap, horizon, now);
    lemma_fresh_front(cap, horizon, now);
    lemma_unexhausted(young);
    assert(young =~= ring.skip(m));
    let at = Seq::new(kept.len(), |i: int| m + place(young, i));
    assert forall|i: int| 0 <= i < at.len() implies can_use(ring, horizon, now, #[trigger] at[i])
        && kept[i] == ring[at[i]] by {
        assert(placed(young, i, kept[i]));
        assert(young[0] == ring[m]);
        assert(holds_back(ring, horizon, now, m));
    }
    assert forall|i: int, j: int| 0 <= i < j < at.len() implies #[trigger] at[i]
        < #[trigger] at[j] by {
        assert(place(young, i) < place(young, j));
    }
    assert forall|j: int| #[trigger] can_use(ring, horizon, now, j) implies at.contains(j) by {
        let i = choose|i: int| #[trigger]
            holds_back(ring, horizon, now, i) && ring.len() - 64 <= i <= j;
        assert(!ring[i].is_stale(horizon, now));
        assert(i >= m);
        assert(young[j - m] == ring[j]);
        lemma_place_onto(young, j - m);
        let p = choose|p: int| 0 <= p < kept.len() && #[trigger] place(young, p) == j - m;
        assert(at[p] == j);
    }
    at
}

/// A slot is wasted on a ring only if each of its blocks has reached its
/// ceiling, and it never goes to one that has.
pub proof fn law_pick_spares_full_blocks(ring: Seq<BlockGen>, state: u64)
    ensures
        ({
            let pick = pick_from(live_blocks(ring), ring.len() as int, state, None).0;
            &&& pick is None <==> forall|i: int|
                0 <= i < ring.len() ==> (#[trigger] ring[i]).next_repair_id >= ring[i].max_repair
            &&& pick matches Some(i) ==> 0 <= i < ring.len() && ring[i].next_repair_id
                < ring[i].max_repair
        }),
{
    let live = live_blocks(ring);
    law_pick_is_geometric(live, state);
    assert(live.len() == ring.len());
    if pick_from(live, ring.len() as int, state, None).0 is None {
        assert forall|i: int| 0 <= i < ring.len() implies (#[trigger] ring[i]).next_repair_id
            >= ring[i].max_repair by {
            assert(!live[i]);
        }
    }
}

} // verus!
