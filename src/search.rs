use vstd::prelude::*;

use crate::error::SearchError;

verus! {

/// `b^e`.
pub open spec fn power(b: nat, e: nat) -> nat
    decreases e,
{
    if e == 0 {
        1
    } else {
        b * power(b, (e - 1) as nat)
    }
}

/// Entry `j` of leaf number `g` when `depth` positions are drawn from a
/// palette of `p` entries: the `j`-th base-`p` digit of `g`, most
/// significant first.
pub open spec fn digit(g: nat, p: nat, depth: nat, j: nat) -> nat {
    (g / power(p, (depth - 1 - j) as nat)) % p
}

/// Leaf number `g` of the depth-first enumeration of all combinations of
/// length `depth` over `p` palette entries, in the order in which it is met.
pub open spec fn leaf(g: nat, p: nat, depth: nat) -> Seq<nat> {
    Seq::new(depth, |j: int| digit(g, p, depth, j as nat))
}

/// Position of the smallest key; among equal keys the first one wins.
pub open spec fn first_min_index(keys: Seq<u64>) -> nat
    decreases keys.len(),
{
    if keys.len() <= 1 {
        0
    } else {
        let i = first_min_index(keys.drop_last());
        if keys.last() < keys[i as int] {
            (keys.len() - 1) as nat
        } else {
            i
        }
    }
}

/// `first_min_index` points into the keys, at a key no larger than any
/// other and smaller than every key before it.
pub proof fn lemma_first_min_index_bound(keys: Seq<u64>)
    requires
        keys.len() >= 1,
    ensures
        first_min_index(keys) < keys.len(),
        forall|j: int| 0 <= j < keys.len() ==> keys[first_min_index(keys) as int] <= #[trigger] keys[j],
        forall|j: int| 0 <= j < first_min_index(keys) ==> keys[first_min_index(keys) as int] < #[trigger] keys[j],
    decreases keys.len(),
{
    if keys.len() > 1 {
        let init = keys.drop_last();
        lemma_first_min_index_bound(init);
        let i = first_min_index(init);
        let n = keys.len() - 1;
        if keys.last() < keys[i as int] {
            assert(first_min_index(keys) == n);
            assert forall|j: int| 0 <= j < keys.len() implies keys[n] <= #[trigger] keys[j] by {
                if j < n {
                    assert(init[j] == keys[j]);
                }
            }
            assert forall|j: int| 0 <= j < n implies keys[n] < #[trigger] keys[j] by {
                assert(init[j] == keys[j]);
            }
        } else {
            assert(first_min_index(keys) == i);
            assert forall|j: int| 0 <= j < keys.len() implies keys[i as int] <= #[trigger] keys[j] by {
                if j < n {
                    assert(init[j] == keys[j]);
                }
            }
            assert forall|j: int| 0 <= j < i implies keys[i as int] < #[trigger] keys[j] by {
                assert(init[j] == keys[j]);
            }
        }
    }
}

proof fn lemma_power_positive(b: nat, e: nat)
    requires
        b >= 1,
    ensures
        power(b, e) >= 1,
    decreases e,
{
    if e > 0 {
        lemma_power_positive(b, (e - 1) as nat);
        assert(b * power(b, (e - 1) as nat) >= 1) by (nonlinear_arith)
            requires
                b >= 1,
                power(b, (e - 1) as nat) >= 1,
        ;
    }
}

/// Computes `p^e`, or `None` where it exceeds `u64::MAX`.
fn checked_power(p: u64, e: usize) -> (r: Option<u64>)
    requires
        p >= 1,
    ensures
        r matches Some(v) ==> v == power(p as nat, e as nat),
        r is None ==> power(p as nat, e as nat) > u64::MAX,
{
    let mut acc: u64 = 1;
    let mut i: usize = 0;
    while i < e
        invariant
            p >= 1,
            i <= e,
            acc == power(p as nat, i as nat),
        decreases e - i,
    {
        proof {
            lemma_power_positive(p as nat, i as nat);
        }
        assert(power(p as nat, (i + 1) as nat) == acc * p) by (nonlinear_arith)
            requires
                power(p as nat, (i + 1) as nat) == p * power(p as nat, i as nat),
                acc == power(p as nat, i as nat),
        ;
        match acc.checked_mul(p) {
            Some(v) => {
                acc = v;
            },
            None => {
                proof {
                    lemma_power_monotone(p as nat, (i + 1) as nat, e as nat);
                }
                return None;
            },
        }
        i = i + 1;
    }
    Some(acc)
}

proof fn lemma_power_monotone(b: nat, a: nat, e: nat)
    requires
        b >= 1,
        a <= e,
    ensures
        power(b, a) <= power(b, e),
    decreases e,
{
    if a < e {
        lemma_power_monotone(b, a, (e - 1) as nat);
        lemma_power_positive(b, (e - 1) as nat);
        assert(power(b, (e - 1) as nat) <= b * power(b, (e - 1) as nat)) by (nonlinear_arith)
            requires
                b >= 1,
        ;
    }
}

/// The combination met as leaf number `g`: its `depth` positions are the
/// base-`palette_len` digits of `g`, most significant first.
pub fn combination_at(g: u64, palette_len: usize, depth: usize) -> (r: Vec<usize>)
    requires
        palette_len >= 1,
        power(palette_len as nat, depth as nat) <= u64::MAX,
    ensures
        r@.len() == depth,
        forall|j: int| 0 <= j < depth ==> r@[j] == digit(g as nat, palette_len as nat, depth as nat, j as nat),
        forall|j: int| 0 <= j < depth ==> r@[j] < palette_len,
{
    let p = palette_len as u64;
    let mut r: Vec<usize> = Vec::new();
    if depth == 0 {
        return r;
    }
    proof {
        lemma_power_monotone(p as nat, (depth - 1) as nat, depth as nat);
    }
    let mut divisor: u64 = match checked_power(p, depth - 1) {
        Some(v) => v,
        None => 1,
    };
    let mut j: usize = 0;
    while j < depth
        invariant
            p == palette_len,
            p >= 1,
            j <= depth,
            depth >= 1,
            r@.len() == j,
            j < depth ==> divisor == power(p as nat, (depth - 1 - j) as nat),
            forall|i: int| 0 <= i < j ==> r@[i] == digit(g as nat, p as nat, depth as nat, i as nat),
            forall|i: int| 0 <= i < j ==> r@[i] < palette_len,
        decreases depth - j,
    {
        proof {
            lemma_power_positive(p as nat, (depth - 1 - j) as nat);
        }
        let d = (g / divisor) % p;
        r.push(d as usize);
        if j + 1 < depth {
            proof {
                let e = (depth - 2 - j) as nat;
                assert(divisor == p * power(p as nat, e));
                assert((p * power(p as nat, e)) / (p as int) == power(p as nat, e)) by (nonlinear_arith)
                    requires
                        p >= 1,
                ;
            }
            divisor = divisor / p;
        }
        j = j + 1;
    }
    r
}

/// Leaf number of a combination: its positions read as base-`p` digits,
/// most significant first.
pub open spec fn index_of(c: Seq<nat>, p: nat) -> nat
    decreases c.len(),
{
    if c.len() == 0 {
        0
    } else {
        index_of(c.drop_last(), p) * p + c.last()
    }
}

/// Every combination of `c.len()` positions drawn from `p` palette entries
/// is met by the enumeration, as leaf number `index_of(c, p)`: there are
/// `p^depth` leaves and each combination is one of them.
pub proof fn lemma_enumeration_is_exhaustive(c: Seq<nat>, p: nat)
    requires
        p >= 1,
        forall|j: int| 0 <= j < c.len() ==> c[j] < p,
    ensures
        index_of(c, p) < power(p, c.len()),
        leaf(index_of(c, p), p, c.len()) == c,
    decreases c.len(),
{
    if c.len() > 0 {
        let init = c.drop_last();
        let n = init.len();
        lemma_enumeration_is_exhaustive(init, p);
        let h = index_of(init, p);
        let r = c.last();
        let g = index_of(c, p);
        assert(g == h * p + r);
        assert(g < power(p, c.len())) by (nonlinear_arith)
            requires
                g == h * p + r,
                r < p,
                h < power(p, n),
                power(p, c.len()) == p * power(p, n),
        ;
        vstd::arithmetic::div_mod::lemma_fundamental_div_mod_converse(g as int, p as int, h as int, r as int);
        assert forall|j: int| 0 <= j < c.len() implies #[trigger] leaf(g, p, c.len())[j] == c[j] by {
            if j == n {
                assert(power(p, 0) == 1);
                assert(g / 1 == g);
                assert(leaf(g, p, c.len())[j] == g % p);
            } else {
                let q = power(p, (n - 1 - j) as nat);
                lemma_power_positive(p, (n - 1 - j) as nat);
                assert(power(p, (n - j) as nat) == p * q);
                vstd::arithmetic::div_mod::lemma_div_denominator(g as int, p as int, q as int);
                assert(g / power(p, (n - j) as nat) == h / q);
                assert(leaf(h, p, n)[j] == init[j]);
            }
        }
        assert(leaf(g, p, c.len()) =~= c);
    }
}

/// Every leaf of the walk from `first`, that is every leaf number in
/// `first * p^(depth-1) .. (first+1) * p^(depth-1)`, begins with `first`.
pub proof fn lemma_leaf_starts_with(g: nat, first: nat, p: nat, depth: nat)
    requires
        depth >= 1,
        first < p,
        first * power(p, (depth - 1) as nat) <= g < (first + 1) * power(p, (depth - 1) as nat),
    ensures
        leaf(g, p, depth)[0] == first,
{
    let m = power(p, (depth - 1) as nat);
    lemma_power_positive(p, (depth - 1) as nat);
    let r = g - first * m;
    assert(0 <= r < m) by (nonlinear_arith)
        requires
            first * m <= g < (first + 1) * m,
            r == g - first * m,
    ;
    vstd::arithmetic::div_mod::lemma_fundamental_div_mod_converse(g as int, m as int, first as int, r as int);
    vstd::arithmetic::div_mod::lemma_fundamental_div_mod_converse(first as int, p as int, 0, first as int);
}

proof fn lemma_first_min_index_concat(a: Seq<u64>, b: Seq<u64>)
    requires
        a.len() >= 1,
        b.len() >= 1,
    ensures
        first_min_index(a + b) == if b[first_min_index(b) as int] < a[first_min_index(a) as int] {
            a.len() + first_min_index(b)
        } else {
            first_min_index(a)
        },
    decreases b.len(),
{
    lemma_first_min_index_bound(a);
    lemma_first_min_index_bound(b);
    if b.len() == 1 {
        assert((a + b).drop_last() =~= a);
    } else {
        let b0 = b.drop_last();
        assert((a + b).drop_last() =~= a + b0);
        lemma_first_min_index_concat(a, b0);
        lemma_first_min_index_bound(b0);
        assert(b[first_min_index(b0) as int] == b0[first_min_index(b0) as int]);
        assert((a + b0)[first_min_index(a) as int] == a[first_min_index(a) as int]);
        assert((a + b0)[a.len() + first_min_index(b0) as int] == b0[first_min_index(b0) as int]);
    }
}

/// Block `s` of `m` consecutive keys.
pub open spec fn block(keys: Seq<u64>, s: nat, m: nat) -> Seq<u64> {
    keys.subrange((s * m) as int, (s * m + m) as int)
}

/// Leaf kept by the walk over each block of `m` leaves.
pub open spec fn block_winners(keys: Seq<u64>, blocks: nat, m: nat) -> Seq<nat> {
    Seq::new(blocks, |s: int| (s * m + first_min_index(block(keys, s as nat, m))) as nat)
}

/// Walking the leaves in blocks (one per first palette entry) and reducing
/// the block winners gives the leaf that one walk over all leaves keeps:
/// splitting the search does not change its result.
pub proof fn lemma_split_search_agrees(keys: Seq<u64>, blocks: nat, m: nat)
    requires
        blocks >= 1,
        m >= 1,
        keys.len() == blocks * m,
    ensures
        ({
            let w = block_winners(keys, blocks, m);
            let best = Seq::new(blocks, |s: int| keys[w[s] as int]);
            w[first_min_index(best) as int] == first_min_index(keys)
        }),
    decreases blocks,
{
    let w = block_winners(keys, blocks, m);
    let best = Seq::new(blocks, |s: int| keys[w[s] as int]);
    let n = (blocks - 1) as nat;
    assert(n * m + m == blocks * m) by (nonlinear_arith)
        requires
            n == blocks - 1,
    ;
    let b = block(keys, n, m);
    lemma_first_min_index_bound(b);
    assert(best[n as int] == b[first_min_index(b) as int]);
    if blocks == 1 {
        assert(n * m == 0) by (nonlinear_arith)
            requires
                n == 0,
        ;
        assert(b =~= keys);
        lemma_first_min_index_bound(best);
    } else {
        assert(n * m >= 1) by (nonlinear_arith)
            requires
                n >= 1,
                m >= 1,
        ;
        let a = keys.take((n * m) as int);
        assert(a + b =~= keys);
        lemma_split_search_agrees(a, n, m);
        let wa = block_winners(a, n, m);
        let best_a = Seq::new(n, |s: int| a[wa[s] as int]);
        assert forall|s: int| 0 <= s < n implies #[trigger] block(a, s as nat, m) == block(
            keys,
            s as nat,
            m,
        ) by {
            assert(s * m + m <= n * m) by (nonlinear_arith)
                requires
                    s < n,
            ;
            assert(block(a, s as nat, m) =~= block(keys, s as nat, m));
        }
        assert forall|s: int| 0 <= s < n implies #[trigger] wa[s] == w[s] && best_a[s] == best[s] by {
            assert(block(a, s as nat, m) == block(keys, s as nat, m));
            assert(s * m + m <= n * m) by (nonlinear_arith)
                requires
                    s < n,
            ;
            let f = first_min_index(block(keys, s as nat, m));
            lemma_first_min_index_bound(block(keys, s as nat, m));
            assert(s * m + f < n * m) by (nonlinear_arith)
                requires
                    s < n,
                    f < m,
            ;
        }
        assert(best.drop_last() =~= best_a);
        lemma_first_min_index_bound(best_a);
        lemma_first_min_index_bound(a);
        lemma_first_min_index_concat(a, b);
        assert(a[first_min_index(a) as int] == keys[first_min_index(a) as int]);
    }
}

/// The best combination that a search found, with its key.
#[derive(Debug, Clone)]
pub struct SearchResult {
    /// How far the blend of `combination` lies from the target; smaller is
    /// closer.
    pub key: u64,
    /// Palette positions, in blending order.
    pub combination: Vec<usize>,
}

/// The keys of a sequence of results.
pub open spec fn keys_of(results: Seq<SearchResult>) -> Seq<u64> {
    Seq::new(results.len(), |i: int| results[i].key)
}

/// A combination as a sequence of naturals.
pub open spec fn as_nats(c: Seq<usize>) -> Seq<nat> {
    Seq::new(c.len(), |j: int| c[j] as nat)
}

/// Picks the result with the smallest key; on equal keys the first one
/// wins. Fails with `InvalidInput` on an empty sequence.
pub fn reduce(results: &Vec<SearchResult>) -> (r: Result<SearchResult, SearchError>)
    ensures
        results@.len() == 0 ==> r == Err::<SearchResult, SearchError>(SearchError::InvalidInput),
        results@.len() > 0 ==> (r matches Ok(best) && {
            let i = first_min_index(keys_of(results@)) as int;
            &&& best.key == results@[i].key
            &&& best.combination@ == results@[i].combination@
        }),
{
    if results.len() == 0 {
        return Err(SearchError::InvalidInput);
    }
    let mut best: usize = 0;
    let mut i: usize = 1;
    while i < results.len()
        invariant
            1 <= i <= results.len(),
            best == first_min_index(keys_of(results@).take(i as int)),
        decreases results.len() - i,
    {
        proof {
            let k = keys_of(results@);
            assert(k.take(i + 1).drop_last() =~= k.take(i as int));
            lemma_first_min_index_bound(k.take(i as int));
        }
        if results[i].key < results[best].key {
            best = i;
        }
        i = i + 1;
    }
    proof {
        assert(keys_of(results@).take(i as int) =~= keys_of(results@));
        lemma_first_min_index_bound(keys_of(results@));
    }
    let combination = results[best].combination.clone();
    assert(combination@ =~= results@[best as int].combination@);
    Ok(SearchResult { key: results[best].key, combination })
}

/// A depth-first walk over a range of leaves of the enumeration of all
/// combinations of `depth` positions over `palette_len` palette entries.
/// The caller measures each leaf that `current` shows and hands the key to
/// `record`; the walk keeps the first leaf with the smallest key.
pub struct Search {
    palette_len: usize,
    depth: usize,
    start: u64,
    end: u64,
    next: u64,
    best_key: u64,
    best_leaf: u64,
    keys: Ghost<Seq<u64>>,
}

impl Search {
    pub closed spec fn palette_len(&self) -> nat {
        self.palette_len as nat
    }

    pub closed spec fn depth(&self) -> nat {
        self.depth as nat
    }

    /// Number of the first leaf of the walk.
    pub closed spec fn start(&self) -> nat {
        self.start as nat
    }

    /// Number one past the last leaf of the walk.
    pub closed spec fn end(&self) -> nat {
        self.end as nat
    }

    /// Number of the next leaf to measure.
    pub closed spec fn next_leaf(&self) -> nat {
        self.next as nat
    }

    /// The keys recorded so far, leaf by leaf.
    pub closed spec fn keys(&self) -> Seq<u64> {
        self.keys@
    }

    pub closed spec fn wf(&self) -> bool {
        &&& self.palette_len >= 1
        &&& self.depth >= 1
        &&& power(self.palette_len as nat, self.depth as nat) <= u64::MAX
        &&& self.start < self.end <= power(self.palette_len as nat, self.depth as nat)
        &&& self.start <= self.next <= self.end
        &&& self.keys@.len() == self.next - self.start
        &&& self.keys@.len() > 0 ==> {
            &&& self.best_leaf == self.start + first_min_index(self.keys@)
            &&& self.best_key == self.keys@[first_min_index(self.keys@) as int]
        }
    }

    /// Every leaf of the walk has been recorded.
    pub open spec fn is_done(&self) -> bool {
        self.next_leaf() == self.end()
    }

    /// A walk over all `palette_len^depth` combinations. Fails with
    /// `InvalidInput` on an empty palette, a depth of zero, or more leaves
    /// than a `u64` can number.
    pub fn new(palette_len: usize, depth: usize) -> (r: Result<Search, SearchError>)
        ensures
            (palette_len == 0 || depth == 0 || power(palette_len as nat, depth as nat) > u64::MAX)
                ==> r == Err::<Search, SearchError>(SearchError::InvalidInput),
            !(palette_len == 0 || depth == 0 || power(palette_len as nat, depth as nat) > u64::MAX)
                ==> (r matches Ok(s) && {
                &&& s.wf()
                &&& s.palette_len() == palette_len
                &&& s.depth() == depth
                &&& s.start() == 0
                &&& s.end() == power(palette_len as nat, depth as nat)
                &&& s.next_leaf() == 0
                &&& s.keys() == Seq::<u64>::empty()
            }),
    {
        if palette_len == 0 || depth == 0 {
            return Err(SearchError::InvalidInput);
        }
        match checked_power(palette_len as u64, depth) {
            None => Err(SearchError::InvalidInput),
            Some(total) => {
                proof {
                    lemma_power_positive(palette_len as nat, depth as nat);
                }
                Ok(
                    Search {
                        palette_len,
                        depth,
                        start: 0,
                        end: total,
                        next: 0,
                        best_key: 0,
                        best_leaf: 0,
                        keys: Ghost(Seq::empty()),
                    },
                )
            },
        }
    }

    /// A walk over the `palette_len^(depth-1)` combinations whose first
    /// position is `first`. Fails as `new` does, and with `MissingKey` when
    /// `first` lies outside the palette.
    pub fn starting_with(first: usize, palette_len: usize, depth: usize) -> (r: Result<
        Search,
        SearchError,
    >)
        ensures
            (palette_len == 0 || depth == 0 || power(palette_len as nat, depth as nat) > u64::MAX)
                ==> r == Err::<Search, SearchError>(SearchError::InvalidInput),
            !(palette_len == 0 || depth == 0 || power(palette_len as nat, depth as nat) > u64::MAX)
                && first >= palette_len ==> r == Err::<Search, SearchError>(
                SearchError::MissingKey,
            ),
            !(palette_len == 0 || depth == 0 || power(palette_len as nat, depth as nat) > u64::MAX)
                && first < palette_len ==> (r matches Ok(s) && {
                &&& s.wf()
                &&& s.palette_len() == palette_len
                &&& s.depth() == depth
                &&& s.start() == first * power(palette_len as nat, (depth - 1) as nat)
                &&& s.end() == (first + 1) * power(palette_len as nat, (depth - 1) as nat)
                &&& s.next_leaf() == s.start()
                &&& s.keys() == Seq::<u64>::empty()
            }),
    {
        if palette_len == 0 || depth == 0 {
            return Err(SearchError::InvalidInput);
        }
        match checked_power(palette_len as u64, depth) {
            None => Err(SearchError::InvalidInput),
            Some(total) => {
                if first >= palette_len {
                    return Err(SearchError::MissingKey);
                }
                let ghost p = palette_len as nat;
                let ghost e = (depth - 1) as nat;
                proof {
                    lemma_power_positive(p, e);
                    lemma_power_monotone(p, e, depth as nat);
                    assert((first + 1) * power(p, e) <= p * power(p, e)) by (nonlinear_arith)
                        requires
                            first + 1 <= p,
                    ;
                    assert(first * power(p, e) < (first + 1) * power(p, e)) by (nonlinear_arith)
                        requires
                            power(p, e) >= 1,
                    ;
                }
                let width = match checked_power(palette_len as u64, depth - 1) {
                    Some(v) => v,
                    None => 1,
                };
                let start = first as u64 * width;
                assert(power(p, depth as nat) == p * power(p, e));
                assert(start + width <= power(p, depth as nat)) by (nonlinear_arith)
                    requires
                        start == first * power(p, e),
                        width == power(p, e),
                        first + 1 <= p,
                        power(p, depth as nat) == p * power(p, e),
                ;
                let end = start + width;
                assert(end == (first + 1) * power(p, e)) by (nonlinear_arith)
                    requires
                        end == first * power(p, e) + power(p, e),
                ;
                Ok(
                    Search {
                        palette_len,
                        depth,
                        start,
                        end,
                        next: start,
                        best_key: 0,
                        best_leaf: 0,
                        keys: Ghost(Seq::empty()),
                    },
                )
            },
        }
    }

    /// Whether every leaf of the walk has been recorded.
    pub fn done(&self) -> (r: bool)
        requires
            self.wf(),
        ensures
            r == self.is_done(),
    {
        self.next == self.end
    }

    /// The combination of the next leaf to measure.
    pub fn current(&self) -> (r: Vec<usize>)
        requires
            self.wf(),
            !self.is_done(),
        ensures
            as_nats(r@) == leaf(self.next_leaf(), self.palette_len(), self.depth()),
            forall|j: int| 0 <= j < r@.len() ==> r@[j] < self.palette_len(),
    {
        let r = combination_at(self.next, self.palette_len, self.depth);
        assert(as_nats(r@) =~= leaf(self.next_leaf(), self.palette_len(), self.depth()));
        r
    }

    /// Records the key of the leaf that `current` showed and moves on to
    /// the next one.
    pub fn record(&mut self, key: u64)
        requires
            old(self).wf(),
            !old(self).is_done(),
        ensures
            final(self).wf(),
            final(self).keys() == old(self).keys().push(key),
            final(self).keys().len() == final(self).next_leaf() - final(self).start(),
            final(self).next_leaf() == old(self).next_leaf() + 1,
            final(self).start() == old(self).start(),
            final(self).end() == old(self).end(),
            final(self).palette_len() == old(self).palette_len(),
            final(self).depth() == old(self).depth(),
    {
        let ghost old_keys = self.keys@;
        let ghost new_keys = old_keys.push(key);
        proof {
            assert(new_keys.drop_last() =~= old_keys);
            if old_keys.len() > 0 {
                lemma_first_min_index_bound(old_keys);
                assert(new_keys[first_min_index(old_keys) as int] == old_keys[first_min_index(
                    old_keys,
                ) as int]);
            }
        }
        if self.next == self.start || key < self.best_key {
            self.best_key = key;
            self.best_leaf = self.next;
        }
        self.next = self.next + 1;
        self.keys = Ghost(new_keys);
    }

    /// The first leaf with the smallest recorded key, once the walk is done.
    pub fn finish(&self) -> (r: SearchResult)
        requires
            self.wf(),
            self.is_done(),
        ensures
            self.keys().len() == self.end() - self.start(),
            first_min_index(self.keys()) < self.keys().len(),
            r.key == self.keys()[first_min_index(self.keys()) as int],
            as_nats(r.combination@) == leaf(
                self.start() + first_min_index(self.keys()),
                self.palette_len(),
                self.depth(),
            ),
    {
        proof {
            lemma_first_min_index_bound(self.keys@);
        }
        let combination = combination_at(self.best_leaf, self.palette_len, self.depth);
        assert(as_nats(combination@) =~= leaf(
            self.start() + first_min_index(self.keys()),
            self.palette_len(),
            self.depth(),
        ));
        SearchResult { key: self.best_key, combination }
    }
}

} // verus!
