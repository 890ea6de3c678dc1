//! The counting behind the repetition signals.
//!
//! For a "top" order the signal is the character count accumulated by the
//! most frequent gram of that order. For a "duplicate" order it is the
//! characters covered by grams seen before, where a repeat that overlaps the
//! previously counted one adds only its part that was not counted yet.
//!
//! The counting reads no text: it takes, token by token, the content hashes
//! of the grams that end at the token and the token's character length.
//! Grams are told apart by their 128-bit hashes alone, so two different
//! grams with one hash are counted as one gram.

use crate::grams::{
    gram_chars, lemma_range_chars_agree, lemma_range_chars_monotone, lemma_range_chars_split,
    range_chars, total_chars,
};
use std::collections::HashMap;
use std::collections::HashSet;
use vstd::prelude::*;

verus! {

/// The highest gram order, plus one, that has a gram ending at position
/// `pos` when `num_dup` orders are kept.
pub open spec fn reach(pos: int, num_dup: int) -> int {
    if pos < num_dup {
        pos + 1
    } else {
        num_dup
    }
}

/// What the counting reads of a document: for each token the content
/// hashes of the grams that end there, by order, and the token's character
/// length.
pub struct Grams {
    pub hashes: Seq<Seq<u128>>,
    pub chars: Seq<nat>,
}

impl Grams {
    /// No tokens.
    pub open spec fn empty() -> Grams {
        Grams { hashes: Seq::empty(), chars: Seq::empty() }
    }

    /// The number of tokens.
    pub open spec fn len(self) -> nat {
        self.chars.len()
    }

    /// These grams and one more token.
    pub open spec fn push(self, hashes: Seq<u128>, chars: nat) -> Grams {
        Grams { hashes: self.hashes.push(hashes), chars: self.chars.push(chars) }
    }

    /// Every token comes with one hash for each order that has a gram
    /// ending there.
    pub open spec fn well_formed(self, num_dup: int) -> bool {
        &&& self.hashes.len() == self.chars.len()
        &&& forall|pos: int|
            0 <= pos < self.hashes.len() ==> (#[trigger] self.hashes[pos]).len() == reach(
                pos,
                num_dup,
            )
    }
}

/// The characters accumulated under hash `h` by the grams of order `n`
/// that end before position `k`: each occurrence adds its full length.
pub open spec fn top_count(g: Grams, n: int, k: int, h: u128) -> nat
    decreases k,
{
    if k <= n || k <= 0 {
        0
    } else {
        top_count(g, n, k - 1, h) + if g.hashes[k - 1][n] == h {
            gram_chars(g.chars, k - 1, n)
        } else {
            0
        }
    }
}

/// The running maximum of the accumulated counts of order `n` over the
/// first `k` tokens.
pub open spec fn top_chars(g: Grams, n: int, k: int) -> nat
    decreases k,
{
    if k <= n || k <= 0 {
        0
    } else {
        let before = top_chars(g, n, k - 1);
        let now = top_count(g, n, k, g.hashes[k - 1][n]);
        if now > before {
            now
        } else {
            before
        }
    }
}

/// Whether a gram of order `n` with hash `h` ends before position `k`.
pub open spec fn hash_seen(g: Grams, n: int, k: int, h: u128) -> bool
    decreases k,
{
    if k <= n || k <= 0 {
        false
    } else {
        hash_seen(g, n, k - 1, h) || g.hashes[k - 1][n] == h
    }
}

/// The number of trailing tokens, less one, of a repeat at `pos` that the
/// duplicate counted last, at position `last`, has not yet accounted for.
pub open spec fn unaccounted(n: int, pos: int, last: int) -> int {
    if n <= pos - last - 1 {
        n
    } else {
        pos - last - 1
    }
}

/// The duplicate bookkeeping of order `n` after the first `k` tokens: the
/// position of the last counted repeat (0 before any), and the characters
/// counted so far.
pub open spec fn dup_state(g: Grams, n: int, k: int) -> (int, nat)
    decreases k,
{
    if k <= n || k <= 0 {
        (0, 0)
    } else {
        let (last, chars) = dup_state(g, n, k - 1);
        let pos = k - 1;
        if hash_seen(g, n, pos, g.hashes[pos][n]) {
            (pos, chars + gram_chars(g.chars, pos, unaccounted(n, pos, last)))
        } else {
            (last, chars)
        }
    }
}

/// The characters that order `n` reports for a document: the top count
/// below `num_top`, the duplicate count from there on.
pub open spec fn covered_chars(g: Grams, num_top: int, n: int) -> nat {
    if n < num_top {
        top_chars(g, n, g.len() as int)
    } else {
        dup_state(g, n, g.len() as int).1
    }
}

/// The repetition signal of one document, as exact counts: `covered[n]`
/// characters out of `total` for the grams of `n + 1` tokens.
pub struct RepetitionCounts {
    pub covered: Vec<u128>,
    pub total: usize,
}

impl RepetitionCounts {
    /// These counts are the signal of the grams `g` under `num_top` top
    /// orders and `num_dup` orders in all.
    pub open spec fn counts_of(&self, g: Grams, num_top: int, num_dup: int) -> bool {
        &&& self.covered@.len() == num_dup
        &&& self.total == total_chars(g.chars)
        &&& forall|n: int|
            0 <= n < num_dup ==> #[trigger] self.covered@[n] == covered_chars(g, num_top, n)
    }

    /// Every duplicate order, and the top order of single tokens, reports
    /// no more characters than the document has.
    pub open spec fn within_total(&self, num_top: int) -> bool {
        forall|n: int|
            0 <= n < self.covered@.len() && (n >= num_top || n == 0) ==> #[trigger] self.covered@[n]
                <= self.total
    }

    /// The denominator of every ratio: the total character count, or 1 for
    /// a document without characters, so that its ratios are all zero.
    pub fn denominator(&self) -> (d: usize)
        ensures
            d >= 1,
            d == if self.total == 0 {
                1
            } else {
                self.total as int
            },
    {
        if self.total == 0 {
            1
        } else {
            self.total
        }
    }
}

/// No hash accumulates more than every gram could give it: `k` grams of at
/// most `bound` characters each.
pub proof fn lemma_top_count_bound(g: Grams, n: int, k: int, h: u128, bound: int)
    requires
        0 <= n,
        k <= g.len(),
        total_chars(g.chars) <= bound,
    ensures
        top_count(g, n, k, h) <= (if k <= 0 {
            0
        } else {
            k * bound
        }),
    decreases k,
{
    if !(k <= n || k <= 0) {
        lemma_top_count_bound(g, n, k - 1, h, bound);
        lemma_range_chars_monotone(g.chars, 0, k - 1 - n, k, g.len() as int);
        assert((k - 1) * bound + bound == k * bound) by (nonlinear_arith);
        assert(k * bound >= 0) by (nonlinear_arith)
            requires
                k > 0,
                bound >= 0,
        ;
    } else if k > 0 {
        assert(k * bound >= 0) by (nonlinear_arith)
            requires
                k > 0,
                bound >= 0,
        ;
    }
}

/// The duplicate bookkeeping stays behind the tokens read: the last counted
/// repeat lies before position `k`, and the characters counted are among
/// those of the tokens up to that repeat.
pub proof fn lemma_dup_state_bounds(g: Grams, n: int, k: int)
    requires
        0 <= n,
        0 <= k,
    ensures
        0 <= dup_state(g, n, k).0,
        k > 0 ==> dup_state(g, n, k).0 < k,
        k == 0 ==> dup_state(g, n, k) == (0int, 0nat),
        dup_state(g, n, k).1 <= range_chars(g.chars, 0, dup_state(g, n, k).0 + 1),
    decreases k,
{
    if !(k <= n || k <= 0) {
        lemma_dup_state_bounds(g, n, k - 1);
        let (last, chars) = dup_state(g, n, k - 1);
        let pos = k - 1;
        if hash_seen(g, n, pos, g.hashes[pos][n]) {
            assert(pos > 0);
            let u = unaccounted(n, pos, last);
            lemma_range_chars_monotone(g.chars, last + 1, pos - u, pos + 1, pos + 1);
            lemma_range_chars_split(g.chars, 0, last + 1, pos + 1);
        }
    }
}

/// Two documents that agree on their first `k` tokens agree on everything
/// the counting has made of those tokens.
pub proof fn lemma_counting_reads_prefix(g1: Grams, g2: Grams, n: int, k: int, h: u128)
    requires
        0 <= n,
        0 <= k,
        forall|pos: int| 0 <= pos < k ==> g1.hashes[pos] == g2.hashes[pos],
        forall|pos: int| 0 <= pos < k ==> g1.chars[pos] == g2.chars[pos],
    ensures
        top_count(g1, n, k, h) == top_count(g2, n, k, h),
        top_chars(g1, n, k) == top_chars(g2, n, k),
        hash_seen(g1, n, k, h) == hash_seen(g2, n, k, h),
        dup_state(g1, n, k) == dup_state(g2, n, k),
    decreases k,
{
    if !(k <= n || k <= 0) {
        let pos = k - 1;
        lemma_counting_reads_prefix(g1, g2, n, k - 1, h);
        lemma_counting_reads_prefix(g1, g2, n, k - 1, g1.hashes[pos][n]);
        lemma_range_chars_agree(g1.chars, g2.chars, pos - n, k);
        assert(top_count(g1, n, k, g1.hashes[pos][n]) == top_count(g2, n, k, g2.hashes[pos][n]));
        lemma_dup_state_bounds(g1, n, k - 1);
        let last = dup_state(g1, n, k - 1).0;
        if hash_seen(g1, n, pos, g1.hashes[pos][n]) {
            assert(pos > 0);
            lemma_range_chars_agree(g1.chars, g2.chars, pos - unaccounted(n, pos, last), k);
        }
    }
}

/// Two positions less than a ring's capacity apart fall into different
/// slots of the ring.
proof fn lemma_ring_slots_distinct(q1: int, q2: int, d: int)
    requires
        0 <= q1 < q2 < q1 + d,
    ensures
        q1 % d != q2 % d,
        0 <= q1 % d < d,
        0 <= q2 % d < d,
{
    vstd::arithmetic::div_mod::lemma_fundamental_div_mod(q1, d);
    vstd::arithmetic::div_mod::lemma_fundamental_div_mod(q2, d);
    vstd::arithmetic::div_mod::lemma_mod_bound(q1, d);
    vstd::arithmetic::div_mod::lemma_mod_bound(q2, d);
    if q1 % d == q2 % d {
        let a = q1 / d;
        let b = q2 / d;
        assert(q2 - q1 == d * (b - a)) by (nonlinear_arith)
            requires
                q1 == d * a + q1 % d,
                q2 == d * b + q2 % d,
                q1 % d == q2 % d,
        ;
        assert(false) by (nonlinear_arith)
            requires
                q2 - q1 == d * (b - a),
                0 < q2 - q1 < d,
        ;
    }
}

/// What the table of a top order holds after the first `k` tokens: under
/// each hash the characters accumulated so far, and beside it their running
/// maximum.
spec fn top_inv(m: Map<u128, u128>, best: u128, g: Grams, n: int, k: int) -> bool {
    &&& forall|h: u128| #[trigger]
        top_count(g, n, k, h) == (if m.contains_key(h) {
            m[h] as nat
        } else {
            0
        })
    &&& best == top_chars(g, n, k)
}

/// What the bookkeeping of a duplicate order holds after the first `k`
/// tokens: the hashes seen, the last counted repeat and the characters
/// counted.
spec fn dup_inv(s: Set<u128>, last: usize, chars: u128, g: Grams, n: int, k: int) -> bool {
    &&& forall|h: u128|
        #![trigger s.contains(h)]
        #![trigger hash_seen(g, n, k, h)]
        s.contains(h) == hash_seen(g, n, k, h)
    &&& (last as int, chars as nat) == dup_state(g, n, k)
}

proof fn lemma_top_idle(m: Map<u128, u128>, best: u128, g: Grams, n: int, k: int)
    requires
        top_inv(m, best, g, n, k),
        k < n,
    ensures
        top_inv(m, best, g, n, k + 1),
{
    assert forall|h: u128| #[trigger]
        top_count(g, n, k + 1, h) == (if m.contains_key(h) {
            m[h] as nat
        } else {
            0
        }) by {
        assert(top_count(g, n, k, h) == 0);
    }
}

proof fn lemma_dup_idle(s: Set<u128>, last: usize, chars: u128, g: Grams, n: int, k: int)
    requires
        dup_inv(s, last, chars, g, n, k),
        k < n,
    ensures
        dup_inv(s, last, chars, g, n, k + 1),
{
    assert forall|h: u128| s.contains(h) == hash_seen(g, n, k + 1, h) by {
        assert(!hash_seen(g, n, k, h));
    }
}

proof fn lemma_top_inv_grows(
    m: Map<u128, u128>,
    best: u128,
    g: Grams,
    hashes: Seq<u128>,
    chars: nat,
    n: int,
)
    requires
        top_inv(m, best, g, n, g.len() as int),
        g.hashes.len() == g.chars.len(),
        0 <= n,
    ensures
        top_inv(m, best, g.push(hashes, chars), n, g.len() as int),
{
    let g2 = g.push(hashes, chars);
    let k = g.len() as int;
    assert forall|h: u128| #[trigger]
        top_count(g2, n, k, h) == (if m.contains_key(h) {
            m[h] as nat
        } else {
            0
        }) by {
        lemma_counting_reads_prefix(g, g2, n, k, h);
        assert(top_count(g, n, k, h) == (if m.contains_key(h) {
            m[h] as nat
        } else {
            0
        }));
    }
    lemma_counting_reads_prefix(g, g2, n, k, 0);
}

proof fn lemma_dup_inv_grows(
    s: Set<u128>,
    last: usize,
    held: u128,
    g: Grams,
    hashes: Seq<u128>,
    chars: nat,
    n: int,
)
    requires
        dup_inv(s, last, held, g, n, g.len() as int),
        g.hashes.len() == g.chars.len(),
        0 <= n,
    ensures
        dup_inv(s, last, held, g.push(hashes, chars), n, g.len() as int),
{
    let g2 = g.push(hashes, chars);
    let k = g.len() as int;
    assert forall|h: u128| s.contains(h) == hash_seen(g2, n, k, h) by {
        lemma_counting_reads_prefix(g, g2, n, k, h);
        assert(s.contains(h) == hash_seen(g, n, k, h));
    }
    lemma_counting_reads_prefix(g, g2, n, k, 0);
}

proof fn lemma_top_step(
    m: Map<u128, u128>,
    best: u128,
    g: Grams,
    n: int,
    k: int,
    h: u128,
    now: u128,
)
    requires
        top_inv(m, best, g, n, k),
        0 <= n <= k,
        h == g.hashes[k][n],
        now == (if m.contains_key(h) {
            m[h] as nat
        } else {
            0
        }) + gram_chars(g.chars, k, n),
    ensures
        top_inv(
            m.insert(h, now),
            if now > best {
                now
            } else {
                best
            },
            g,
            n,
            k + 1,
        ),
{
    let m2 = m.insert(h, now);
    assert(top_count(g, n, k, h) + gram_chars(g.chars, k, n) == now);
    assert forall|x: u128| #[trigger]
        top_count(g, n, k + 1, x) == (if m2.contains_key(x) {
            m2[x] as nat
        } else {
            0
        }) by {
        assert(top_count(g, n, k, x) == (if m.contains_key(x) {
            m[x] as nat
        } else {
            0
        }));
    }
}

proof fn lemma_dup_step(
    s: Set<u128>,
    last: usize,
    chars: u128,
    g: Grams,
    n: int,
    k: int,
    h: u128,
)
    requires
        dup_inv(s, last, chars, g, n, k),
        0 <= n <= k,
        h == g.hashes[k][n],
    ensures
        s.contains(h) == hash_seen(g, n, k, h),
        forall|x: u128|
            #![trigger s.insert(h).contains(x)]
            #![trigger hash_seen(g, n, k + 1, x)]
            s.insert(h).contains(x) == hash_seen(g, n, k + 1, x),
        dup_state(g, n, k + 1) == (if s.contains(h) {
            (k, (chars + gram_chars(g.chars, k, unaccounted(n, k, last as int))) as nat)
        } else {
            (last as int, chars as nat)
        }),
{
    assert forall|x: u128| s.insert(h).contains(x) == hash_seen(g, n, k + 1, x) by {
        assert(s.contains(x) == hash_seen(g, n, k, x));
    }
}

/// The streaming state of the counting for one document: for each top
/// order its table of accumulated counts, for each duplicate order the
/// hashes seen and the last counted repeat, and a ring of the character
/// totals that stood before each of the last `num_dup` tokens.
pub struct RepetitionState {
    num_top: usize,
    num_dup: usize,
    pos: usize,
    total: usize,
    starts: Vec<usize>,
    counts: Vec<HashMap<u128, u128>>,
    seen: Vec<HashSet<u128>>,
    last: Vec<usize>,
    covered: Vec<u128>,
    history: Ghost<Grams>,
}

impl RepetitionState {
    spec fn shape(&self) -> bool {
        &&& self.num_top <= self.num_dup
        &&& self.starts@.len() == self.num_dup
        &&& self.counts@.len() == self.num_top
        &&& self.seen@.len() == self.num_dup - self.num_top
        &&& self.last@.len() == self.num_dup
        &&& self.covered@.len() == self.num_dup
    }

    /// Order `n` has taken in the first `k` tokens of `g`.
    spec fn order_at(&self, g: Grams, n: int, k: int) -> bool {
        if n < self.num_top {
            top_inv(self.counts@[n]@, self.covered@[n], g, n, k)
        } else {
            dup_inv(self.seen@[n - self.num_top]@, self.last@[n], self.covered@[n], g, n, k)
        }
    }

    /// The ring holds, for each of the last `num_dup` positions before `k`,
    /// the characters that came before that position.
    spec fn ring_at(&self, chars: Seq<nat>, k: int) -> bool {
        forall|q: int|
            0 <= q < k && k - self.num_dup <= q ==> #[trigger] self.starts@[q % (
            self.num_dup as int)] == range_chars(chars, 0, q)
    }

    /// Orders below `n` have taken in `k + 1` tokens, the others `k`.
    spec fn orders_split(&self, g: Grams, n: int, k: int) -> bool {
        &&& forall|j: int| 0 <= j < n && j < self.num_dup ==> #[trigger] self.order_at(g, j, k + 1)
        &&& forall|j: int| n <= j < self.num_dup ==> #[trigger] self.order_at(g, j, k)
    }

    /// The tokens taken in so far.
    pub closed spec fn grams(&self) -> Grams {
        self.history@
    }

    /// The number of top-gram orders.
    pub closed spec fn top_orders(&self) -> usize {
        self.num_top
    }

    /// The number of gram orders in all.
    pub closed spec fn all_orders(&self) -> usize {
        self.num_dup
    }

    /// The state is that of the counting after the tokens taken in so far.
    pub closed spec fn wf(&self) -> bool {
        &&& self.shape()
        &&& self.history@.well_formed(self.num_dup as int)
        &&& self.pos == self.history@.len()
        &&& self.total == total_chars(self.history@.chars)
        &&& self.ring_at(self.history@.chars, self.pos as int)
        &&& self.orders_split(self.history@, 0, self.pos as int)
    }

    /// The state before any token.
    pub fn new(num_top: usize, num_dup: usize) -> (state: RepetitionState)
        requires
            num_top <= num_dup,
        ensures
            state.wf(),
            state.top_orders() == num_top,
            state.all_orders() == num_dup,
            state.grams() == Grams::empty(),
    {
        let mut starts: Vec<usize> = Vec::new();
        let mut last: Vec<usize> = Vec::new();
        let mut covered: Vec<u128> = Vec::new();
        let mut counts: Vec<HashMap<u128, u128>> = Vec::new();
        let mut seen: Vec<HashSet<u128>> = Vec::new();
        let mut i: usize = 0;
        while i < num_dup
            invariant
                i <= num_dup,
                num_top <= num_dup,
                starts@.len() == i,
                last@.len() == i,
                covered@.len() == i,
                counts@.len() == (if i <= num_top {
                    i
                } else {
                    num_top
                }),
                seen@.len() == (if i <= num_top {
                    0
                } else {
                    i - num_top
                }),
                forall|j: int| 0 <= j < i ==> #[trigger] last@[j] == 0,
                forall|j: int| 0 <= j < i ==> #[trigger] covered@[j] == 0,
                forall|j: int| 0 <= j < counts@.len() ==> (#[trigger] counts@[j])@ == Map::<
                    u128,
                    u128,
                >::empty(),
                forall|j: int| 0 <= j < seen@.len() ==> (#[trigger] seen@[j])@ == Set::<
                    u128,
                >::empty(),
            decreases num_dup - i,
        {
            starts.push(0);
            last.push(0);
            covered.push(0);
            if i < num_top {
                counts.push(HashMap::new());
            } else {
                seen.push(HashSet::new());
            }
            i = i + 1;
        }
        let state = RepetitionState {
            num_top,
            num_dup,
            pos: 0,
            total: 0,
            starts,
            counts,
            seen,
            last,
            covered,
            history: Ghost(Grams::empty()),
        };
        proof {
            let g = Grams::empty();
            assert forall|j: int| 0 <= j < state.num_dup implies #[trigger] state.order_at(
                g,
                j,
                0,
            ) by {
                if j < state.num_top {
                    assert(state.counts@[j]@ == Map::<u128, u128>::empty());
                    assert(state.covered@[j] == 0);
                } else {
                    assert(state.seen@[j - state.num_top]@ == Set::<u128>::empty());
                    assert(state.last@[j] == 0 && state.covered@[j] == 0);
                }
            }
        }
        state
    }

    /// The number of tokens taken in so far.
    pub fn observed(&self) -> (n: usize)
        requires
            self.wf(),
        ensures
            n == self.grams().len(),
    {
        self.pos
    }

    /// Takes in one token, given by the content hashes of the grams that
    /// end at it, from the single token up to the longest gram kept, and by
    /// its character length. Extends the character total and the ring, then
    /// brings every order that has a gram ending here up to date.
    ///
    /// The character total and the token count have to stay within `usize`.
    pub fn observe(&mut self, hashes: &[u128], chars: usize)
        requires
            old(self).wf(),
            hashes@.len() == reach(old(self).grams().len() as int, old(self).all_orders() as int),
            total_chars(old(self).grams().chars) + chars <= usize::MAX,
            old(self).grams().len() < usize::MAX,
        ensures
            final(self).wf(),
            final(self).top_orders() == old(self).top_orders(),
            final(self).all_orders() == old(self).all_orders(),
            final(self).grams() == old(self).grams().push(hashes@, chars as nat),
    {
        broadcast use vstd::std_specs::hash::group_hash_axioms;

        let ghost before = old(self).history@;
        let ghost g = before.push(hashes@, chars as nat);
        let num_top: usize = self.num_top;
        let num_dup: usize = self.num_dup;
        let k: usize = self.pos;
        proof {
            lemma_range_chars_agree(before.chars, g.chars, 0, k as int);
            assert(range_chars(g.chars, 0, k + 1) == range_chars(g.chars, 0, k as int) + chars);
            assert forall|q: int| 0 <= q < k && k - num_dup <= q implies #[trigger] self.starts@[q
                % (num_dup as int)] == range_chars(g.chars, 0, q) by {
                lemma_range_chars_agree(before.chars, g.chars, 0, q);
            }
            assert forall|j: int| 0 <= j < num_dup implies #[trigger] self.order_at(
                g,
                j,
                k as int,
            ) by {
                assert(self.order_at(before, j, k as int));
                if j < num_top {
                    lemma_top_inv_grows(
                        self.counts@[j]@,
                        self.covered@[j],
                        before,
                        hashes@,
                        chars as nat,
                        j,
                    );
                } else {
                    lemma_dup_inv_grows(
                        self.seen@[j - num_top]@,
                        self.last@[j],
                        self.covered@[j],
                        before,
                        hashes@,
                        chars as nat,
                        j,
                    );
                }
            }
            assert forall|pos: int| 0 <= pos < g.hashes.len() implies (#[trigger] g.hashes[pos]).len()
                == reach(pos, num_dup as int) by {
                if pos < k {
                    assert(g.hashes[pos] == before.hashes[pos]);
                }
            }
        }
        self.history = Ghost(g);
        if num_dup > 0 {
            let slot: usize = k % num_dup;
            let total_before: usize = self.total;
            let ghost ring_before = self.starts@;
            self.starts.set(slot, total_before);
            proof {
                assert forall|q: int| 0 <= q < k + 1 && k + 1 - num_dup <= q implies #[trigger] self.starts@[q
                    % (num_dup as int)] == range_chars(g.chars, 0, q) by {
                    if q < k {
                        lemma_ring_slots_distinct(q, k as int, num_dup as int);
                        assert(ring_before[q % (num_dup as int)] == range_chars(g.chars, 0, q));
                    }
                }
            }
        }
        self.total = self.total + chars;
        self.pos = k + 1;
        let total: usize = self.total;
        let reach: usize = if k < num_dup {
            k + 1
        } else {
            num_dup
        };
        proof {
            assert forall|j: int| 0 <= j < self.num_dup implies #[trigger] self.order_at(
                g,
                j,
                k as int,
            ) by {
                assert(old(self).order_at(g, j, k as int));
            }
        }
        let mut n: usize = 0;
        while n < reach
            invariant
                n <= reach <= num_dup,
                reach <= k + 1,
                reach == hashes@.len(),
                g.hashes.len() == k + 1,
                g.chars.len() == k + 1,
                g.hashes[k as int] == hashes@,
                g.well_formed(num_dup as int),
                self.shape(),
                self.num_top == num_top,
                self.num_dup == num_dup,
                self.total == total,
                self.pos == k + 1,
                self.history@ == g,
                total == range_chars(g.chars, 0, k + 1),
                self.ring_at(g.chars, k + 1),
                self.orders_split(g, n as int, k as int),
            decreases reach - n,
        {
            let ghost prev = *self;
            let h: u128 = hashes[n];
            let start: usize = self.starts[(k - n) % num_dup];
            proof {
                assert(self.starts@[(k - n) % (num_dup as int)] == range_chars(g.chars, 0, k - n));
                lemma_range_chars_split(g.chars, 0, k - n, k + 1);
            }
            let gram_len: usize = total - start;
            assert(gram_len == gram_chars(g.chars, k as int, n as int));
            assert(self.order_at(g, n as int, k as int));
            if n < num_top {
                let held: u128 = match self.counts[n].get(&h) {
                    Some(c) => *c,
                    None => 0,
                };
                proof {
                    lemma_top_count_bound(g, n as int, k as int, h, usize::MAX as int);
                    assert(held == top_count(g, n as int, k as int, h));
                    assert(k * usize::MAX + usize::MAX <= u128::MAX) by (nonlinear_arith)
                        requires
                            0 <= k <= usize::MAX,
                            usize::MAX <= 0xffff_ffff_ffff_ffff,
                    ;
                }
                let now: u128 = held + (gram_len as u128);
                let best: u128 = self.covered[n];
                proof {
                    lemma_top_step(self.counts@[n as int]@, best, g, n as int, k as int, h, now);
                }
                self.counts[n].insert(h, now);
                if now > best {
                    self.covered.set(n, now);
                }
            } else {
                let last: usize = self.last[n];
                let counted: u128 = self.covered[n];
                proof {
                    lemma_dup_step(
                        self.seen@[n - num_top]@,
                        last,
                        counted,
                        g,
                        n as int,
                        k as int,
                        h,
                    );
                    lemma_dup_state_bounds(g, n as int, k as int);
                    lemma_dup_state_bounds(g, n as int, k + 1);
                }
                let fresh: bool = self.seen[n - num_top].insert(h);
                if !fresh {
                    let gap: usize = k - last - 1;
                    let over: usize = if n <= gap {
                        n
                    } else {
                        gap
                    };
                    assert(over == unaccounted(n as int, k as int, last as int));
                    let over_start: usize = self.starts[(k - over) % num_dup];
                    proof {
                        assert(self.starts@[(k - over) % (num_dup as int)] == range_chars(
                            g.chars,
                            0,
                            k - over,
                        ));
                        lemma_range_chars_split(g.chars, 0, k - over, k + 1);
                        lemma_range_chars_monotone(g.chars, 0, 0, k + 1, k + 1);
                    }
                    let fresh_chars: usize = total - over_start;
                    assert(fresh_chars == gram_chars(g.chars, k as int, over as int));
                    self.covered.set(n, counted + (fresh_chars as u128));
                    self.last.set(n, k);
                }
            }
            proof {
                assert(self.order_at(g, n as int, k + 1));
                assert forall|j: int| 0 <= j < n + 1 && j < self.num_dup implies #[trigger] self.order_at(
                    g,
                    j,
                    k + 1,
                ) by {
                    if j < n {
                        assert(prev.order_at(g, j, k + 1));
                    }
                }
                assert forall|j: int| n + 1 <= j < self.num_dup implies #[trigger] self.order_at(
                    g,
                    j,
                    k as int,
                ) by {
                    assert(prev.order_at(g, j, k as int));
                }
            }
            n = n + 1;
        }
        proof {
            assert forall|j: int| 0 <= j < self.num_dup implies #[trigger] self.order_at(
                g,
                j,
                k + 1,
            ) by {
                if j >= reach {
                    assert(self.order_at(g, j, k as int));
                    if j < self.num_top {
                        lemma_top_idle(self.counts@[j]@, self.covered@[j], g, j, k as int);
                    } else {
                        lemma_dup_idle(
                            self.seen@[j - self.num_top]@,
                            self.last@[j],
                            self.covered@[j],
                            g,
                            j,
                            k as int,
                        );
                    }
                }
            }
        }
    }

    /// The counts of the tokens taken in.
    pub fn finish(self) -> (counts: RepetitionCounts)
        requires
            self.wf(),
        ensures
            counts.counts_of(self.grams(), self.top_orders() as int, self.all_orders() as int),
            counts.within_total(self.top_orders() as int),
    {
        let ghost g = self.history@;
        let ghost num_top = self.num_top as int;
        let ghost num_dup = self.num_dup as int;
        proof {
            assert forall|n: int| 0 <= n < num_dup implies #[trigger] self.covered@[n]
                == covered_chars(g, num_top, n) by {
                assert(self.order_at(g, n, g.len() as int));
            }
            assert forall|n: int|
                0 <= n < num_dup && (n >= num_top || n == 0) implies #[trigger] self.covered@[n]
                <= self.total by {
                lemma_counts_bounded(g, num_top, n);
            }
        }
        RepetitionCounts { covered: self.covered, total: self.total }
    }
}

/// A hash has been seen at order `n` before position `k` exactly when a
/// gram of that order with that hash ends at a position before `k`.
pub proof fn lemma_hash_seen_is_an_earlier_gram(g: Grams, n: int, k: int, h: u128)
    requires
        0 <= n,
    ensures
        hash_seen(g, n, k, h) <==> exists|pos: int| n <= pos < k && #[trigger] g.hashes[pos][n] == h,
    decreases k,
{
    if !(k <= n || k <= 0) {
        lemma_hash_seen_is_an_earlier_gram(g, n, k - 1, h);
        if hash_seen(g, n, k - 1, h) {
            let pos = choose|pos: int| n <= pos < k - 1 && #[trigger] g.hashes[pos][n] == h;
            assert(n <= pos < k && g.hashes[pos][n] == h);
        } else if g.hashes[k - 1][n] == h {
            assert(n <= k - 1 < k && g.hashes[k - 1][n] == h);
        }
    }
}

proof fn lemma_top_count_grows(g: Grams, n: int, k1: int, k2: int, h: u128)
    requires
        k1 <= k2,
    ensures
        top_count(g, n, k1, h) <= top_count(g, n, k2, h),
    decreases k2 - k1,
{
    if k1 < k2 {
        lemma_top_count_grows(g, n, k1, k2 - 1, h);
    }
}

/// The top count of an order is the greatest count that any hash of that
/// order has accumulated: no hash has more, and some gram's hash has as
/// much unless there is no gram of that order.
pub proof fn lemma_top_chars_is_greatest(g: Grams, n: int, k: int)
    requires
        0 <= n,
    ensures
        forall|h: u128| #[trigger] top_count(g, n, k, h) <= top_chars(g, n, k),
        k <= n ==> top_chars(g, n, k) == 0,
        k > n ==> exists|pos: int|
            n <= pos < k && top_chars(g, n, k) == top_count(g, n, k, #[trigger] g.hashes[pos][n]),
    decreases k,
{
    if !(k <= n || k <= 0) {
        lemma_top_chars_is_greatest(g, n, k - 1);
        let here = g.hashes[k - 1][n];
        assert forall|h: u128| #[trigger] top_count(g, n, k, h) <= top_chars(g, n, k) by {
            assert(top_count(g, n, k - 1, h) <= top_chars(g, n, k - 1));
        }
        if top_count(g, n, k, here) > top_chars(g, n, k - 1) || k - 1 <= n {
            assert(n <= k - 1 < k && top_chars(g, n, k) == top_count(g, n, k, g.hashes[k - 1][n]));
        } else {
            let pos = choose|pos: int|
                n <= pos < k - 1 && top_chars(g, n, k - 1) == top_count(
                    g,
                    n,
                    k - 1,
                    #[trigger] g.hashes[pos][n],
                );
            lemma_top_count_grows(g, n, k - 1, k, g.hashes[pos][n]);
            assert(top_count(g, n, k, g.hashes[pos][n]) <= top_chars(g, n, k));
            assert(n <= pos < k && top_chars(g, n, k) == top_count(g, n, k, g.hashes[pos][n]));
        }
    }
}

/// The characters of all grams of order `n` that end before position `k`,
/// each occurrence counted in full.
pub open spec fn grams_total(chars: Seq<nat>, n: int, k: int) -> nat
    decreases k,
{
    if k <= n || k <= 0 {
        0
    } else {
        grams_total(chars, n, k - 1) + gram_chars(chars, k - 1, n)
    }
}

proof fn lemma_grams_total_unigrams(chars: Seq<nat>, k: int)
    requires
        0 <= k,
    ensures
        grams_total(chars, 0, k) == range_chars(chars, 0, k),
    decreases k,
{
    if k > 0 {
        lemma_grams_total_unigrams(chars, k - 1);
        lemma_range_chars_split(chars, 0, k - 1, k);
        assert(range_chars(chars, k - 1, k - 1) == 0);
    }
}

proof fn lemma_grams_total_step(chars: Seq<nat>, n: int, k: int)
    requires
        1 <= n,
        0 <= k,
    ensures
        grams_total(chars, n, k) <= grams_total(chars, n - 1, k) + (if k >= n {
            range_chars(chars, 0, k - n)
        } else {
            0
        }),
    decreases k,
{
    if k > n {
        lemma_grams_total_step(chars, n, k - 1);
        lemma_range_chars_split(chars, k - 1 - n, k - n, k);
        assert(range_chars(chars, k - 1 - n, k - 1 - n) == 0);
    }
}

/// The grams of order `n` hold, counted in full, at most `n + 1` times the
/// characters of the tokens: each token lies in at most `n + 1` of them.
pub proof fn lemma_grams_total_bound(chars: Seq<nat>, n: int, k: int)
    requires
        0 <= n,
        0 <= k,
    ensures
        grams_total(chars, n, k) <= (n + 1) * range_chars(chars, 0, k),
    decreases n,
{
    if n == 0 {
        lemma_grams_total_unigrams(chars, k);
    } else {
        lemma_grams_total_bound(chars, n - 1, k);
        lemma_grams_total_step(chars, n, k);
        if k >= n {
            lemma_range_chars_monotone(chars, 0, 0, k - n, k);
        }
        assert(n * range_chars(chars, 0, k) + range_chars(chars, 0, k) == (n + 1) * range_chars(
            chars,
            0,
            k,
        )) by (nonlinear_arith);
    }
}

proof fn lemma_top_count_within_grams(g: Grams, n: int, k: int, h: u128)
    ensures
        top_count(g, n, k, h) <= grams_total(g.chars, n, k),
    decreases k,
{
    if !(k <= n || k <= 0) {
        lemma_top_count_within_grams(g, n, k - 1, h);
    }
}

proof fn lemma_top_chars_within_grams(g: Grams, n: int, k: int)
    ensures
        top_chars(g, n, k) <= grams_total(g.chars, n, k),
    decreases k,
{
    if !(k <= n || k <= 0) {
        lemma_top_chars_within_grams(g, n, k - 1);
        lemma_top_count_within_grams(g, n, k, g.hashes[k - 1][n]);
    }
}

/// What holds of the counts of every document under every valid
/// configuration, whatever the hashes are.
///
/// A duplicate order never reports more characters than the document has,
/// and neither does the top order of single tokens: their ratios lie in
/// `[0, 1]`. A top order of longer grams counts every occurrence in full,
/// overlapping ones too, so it is bounded by the gram length times the
/// total. A document without tokens reports zero everywhere.
pub proof fn lemma_counts_bounded(g: Grams, num_top: int, n: int)
    requires
        0 <= n,
    ensures
        n >= num_top || n == 0 ==> covered_chars(g, num_top, n) <= total_chars(g.chars),
        covered_chars(g, num_top, n) <= (n + 1) * total_chars(g.chars),
        g.len() == 0 ==> covered_chars(g, num_top, n) == 0 && total_chars(g.chars) == 0,
{
    let len = g.len() as int;
    lemma_top_chars_within_grams(g, n, len);
    lemma_grams_total_bound(g.chars, n, len);
    lemma_dup_state_bounds(g, n, len);
    if len > 0 {
        lemma_range_chars_monotone(g.chars, 0, 0, dup_state(g, n, len).0 + 1, len);
    }
    assert(total_chars(g.chars) <= (n + 1) * total_chars(g.chars)) by (nonlinear_arith)
        requires
            n >= 0,
    ;
}

} // verus!
