use vstd::prelude::*;

use crate::color::RGB;
use crate::error::SearchError;

verus! {

/// Longest combination whose weighted sums are sure to fit in a `u64`.
pub const MAX_PANES: usize = 56;

/// `2^e`.
pub open spec fn two_pow(e: nat) -> nat
    decreases e,
{
    if e == 0 {
        1
    } else {
        2 * two_pow((e - 1) as nat)
    }
}

/// Weight of the pane at position `i`: 1 for the first two positions, then
/// doubling with every further position.
pub open spec fn weight(i: nat) -> nat {
    if i == 0 {
        1
    } else {
        two_pow((i - 1) as nat)
    }
}

/// Sum of the weights of the first `n` positions, which is also the divisor
/// of the blend: `2^(n-1)` for a non-empty combination.
pub open spec fn total_weight(n: nat) -> nat {
    if n == 0 {
        0
    } else {
        two_pow((n - 1) as nat)
    }
}

/// Channel `k` of a color: 0 is red, 1 green, anything else blue.
pub open spec fn channel(c: RGB, k: nat) -> nat {
    if k == 0 {
        c.red as nat
    } else if k == 1 {
        c.green as nat
    } else {
        c.blue as nat
    }
}

/// Weighted sum of channel `k` over a sequence of colors.
pub open spec fn weighted_sum(colors: Seq<RGB>, k: nat) -> nat
    decreases colors.len(),
{
    if colors.len() == 0 {
        0
    } else {
        weighted_sum(colors.drop_last(), k) + weight((colors.len() - 1) as nat) * channel(
            colors.last(),
            k,
        )
    }
}

/// The colors that a combination of palette positions picks out.
pub open spec fn picked(palette: Seq<RGB>, combination: Seq<usize>) -> Seq<RGB> {
    Seq::new(combination.len(), |j: int| palette[combination[j] as int])
}

/// Every position of the combination names an entry of the palette.
pub open spec fn all_in_palette(palette: Seq<RGB>, combination: Seq<usize>) -> bool {
    forall|j: int| 0 <= j < combination.len() ==> combination[j] < palette.len()
}

/// A blended color, held exactly: each channel is `channel / denominator`.
#[derive(Debug, Clone, Copy, PartialEq, Eq, Structural)]
pub struct Blend {
    pub red: u64,
    pub green: u64,
    pub blue: u64,
    pub denominator: u64,
}

impl Blend {
    /// This blend is the weighted average of `colors`.
    pub open spec fn is_blend_of(self, colors: Seq<RGB>) -> bool {
        &&& self.red == weighted_sum(colors, 0)
        &&& self.green == weighted_sum(colors, 1)
        &&& self.blue == weighted_sum(colors, 2)
        &&& self.denominator == if colors.len() == 0 {
            1
        } else {
            total_weight(colors.len())
        }
    }
}

proof fn lemma_two_pow_positive(e: nat)
    ensures
        two_pow(e) >= 1,
    decreases e,
{
    if e > 0 {
        lemma_two_pow_positive((e - 1) as nat);
    }
}

proof fn lemma_two_pow_monotone(a: nat, b: nat)
    requires
        a <= b,
    ensures
        two_pow(a) <= two_pow(b),
    decreases b,
{
    if a < b {
        lemma_two_pow_monotone(a, (b - 1) as nat);
    }
}

proof fn lemma_total_weight_step(n: nat)
    ensures
        total_weight(n + 1) == total_weight(n) + weight(n),
{
    if n > 0 {
        assert(two_pow(n) == 2 * two_pow((n - 1) as nat));
    }
}

proof fn lemma_two_pow_55()
    ensures
        two_pow(55) * 255 < 0x8000_0000_0000_0000,
{
    reveal_with_fuel(two_pow, 56);
    assert(two_pow(55) == 0x80_0000_0000_0000);
}

/// The weighted sums of `colors` are at most `255` times the total weight.
proof fn lemma_weighted_sum_bound(colors: Seq<RGB>, k: nat)
    ensures
        weighted_sum(colors, k) <= 255 * total_weight(colors.len()),
    decreases colors.len(),
{
    if colors.len() > 0 {
        let n = (colors.len() - 1) as nat;
        lemma_weighted_sum_bound(colors.drop_last(), k);
        lemma_total_weight_step(n);
        let w = weight(n);
        let c = channel(colors.last(), k);
        assert(c <= 255);
        assert(w * c <= w * 255) by (nonlinear_arith)
            requires
                c <= 255,
        ;
    }
}

/// A single pane blends to its own color, unweighted.
pub proof fn lemma_blend_single(c: RGB, b: Blend)
    requires
        b.is_blend_of(seq![c]),
    ensures
        b.red == c.red,
        b.green == c.green,
        b.blue == c.blue,
        b.denominator == 1,
{
    lemma_weighted_sum_one(c, 0);
    lemma_weighted_sum_one(c, 1);
    lemma_weighted_sum_one(c, 2);
}

proof fn lemma_weighted_sum_one(c: RGB, k: nat)
    ensures
        weighted_sum(seq![c], k) == channel(c, k),
{
    let colors = seq![c];
    assert(colors.drop_last() =~= Seq::<RGB>::empty());
    assert(weighted_sum(colors.drop_last(), k) == 0);
    assert(colors.last() == c);
    assert(weight(0) == 1);
    assert(colors.len() == 1);
    assert(weighted_sum(colors, k) == weighted_sum(colors.drop_last(), k) + weight(0) * channel(c, k));
    assert(weight(0) * channel(c, k) == channel(c, k));
}

/// Blending panes that all have the same color gives that color back: each
/// weighted sum is the channel times the divisor.
pub proof fn lemma_blend_uniform(colors: Seq<RGB>, c: RGB, b: Blend)
    requires
        colors.len() >= 1,
        forall|j: int| 0 <= j < colors.len() ==> colors[j] == c,
        b.is_blend_of(colors),
    ensures
        b.red == c.red * b.denominator,
        b.green == c.green * b.denominator,
        b.blue == c.blue * b.denominator,
{
    lemma_weighted_sum_uniform(colors, c, 0);
    lemma_weighted_sum_uniform(colors, c, 1);
    lemma_weighted_sum_uniform(colors, c, 2);
}

proof fn lemma_weighted_sum_uniform(colors: Seq<RGB>, c: RGB, k: nat)
    requires
        forall|j: int| 0 <= j < colors.len() ==> colors[j] == c,
    ensures
        weighted_sum(colors, k) == channel(c, k) * total_weight(colors.len()),
    decreases colors.len(),
{
    if colors.len() > 0 {
        let n = (colors.len() - 1) as nat;
        lemma_weighted_sum_uniform(colors.drop_last(), c, k);
        lemma_total_weight_step(n);
        assert(colors.last() == c);
        let x = channel(c, k);
        let t = total_weight(n);
        let w = weight(n);
        assert(x * t + w * x == x * (t + w)) by (nonlinear_arith);
    } else {
        assert(channel(c, k) * 0 == 0);
    }
}

/// Blends the palette entries named by `combination` (positions in
/// `palette`): position `i` weighs `1` for `i <= 1` and `2^(i-1)` after
/// that, and the sum is divided by `2^(n-1)`. An empty combination gives
/// black. Fails with `MissingKey` when a position lies outside the palette.
pub fn blend(palette: &Vec<RGB>, combination: &Vec<usize>) -> (r: Result<Blend, SearchError>)
    requires
        combination.len() <= MAX_PANES,
    ensures
        all_in_palette(palette@, combination@) ==> (r matches Ok(b) && b.is_blend_of(
            picked(palette@, combination@),
        )),
        !all_in_palette(palette@, combination@) ==> r == Err::<Blend, SearchError>(
            SearchError::MissingKey,
        ),
{
    let n = combination.len();
    let mut j: usize = 0;
    while j < n
        invariant
            n == combination.len(),
            j <= n,
            forall|i: int| 0 <= i < j ==> combination@[i] < palette.len(),
        decreases n - j,
    {
        if combination[j] >= palette.len() {
            return Err(SearchError::MissingKey);
        }
        j = j + 1;
    }
    let ghost colors = picked(palette@, combination@);
    let mut red: u64 = 0;
    let mut green: u64 = 0;
    let mut blue: u64 = 0;
    let mut w: u64 = 1;
    let mut denominator: u64 = 1;
    let mut i: usize = 0;
    proof {
        lemma_two_pow_55();
    }
    while i < n
        invariant
            n == combination.len(),
            n <= MAX_PANES,
            i <= n,
            all_in_palette(palette@, combination@),
            colors == picked(palette@, combination@),
            red == weighted_sum(colors.take(i as int), 0),
            green == weighted_sum(colors.take(i as int), 1),
            blue == weighted_sum(colors.take(i as int), 2),
            w == weight(i as nat),
            denominator == if i == 0 {
                1
            } else {
                total_weight(i as nat)
            },
            two_pow(55) * 255 < 0x8000_0000_0000_0000,
        decreases n - i,
    {
        let c = palette[combination[i]];
        proof {
            let next = colors.take(i + 1);
            assert(next.drop_last() =~= colors.take(i as int));
            assert(next.last() == c);
            lemma_weighted_sum_bound(next, 0);
            lemma_weighted_sum_bound(next, 1);
            lemma_weighted_sum_bound(next, 2);
            lemma_total_weight_step(i as nat);
            lemma_two_pow_monotone(i as nat, 55);
            lemma_two_pow_positive(i as nat);
            assert(total_weight((i + 1) as nat) == two_pow(i as nat));
            assert(255 * two_pow(i as nat) <= 255 * two_pow(55));
        }
        red = red + w * c.red as u64;
        green = green + w * c.green as u64;
        blue = blue + w * c.blue as u64;
        if i > 0 {
            denominator = denominator * 2;
        }
        if i > 0 {
            w = w * 2;
        }
        i = i + 1;
    }
    assert(colors.take(n as int) =~= colors);
    Ok(Blend { red, green, blue, denominator })
}

} // verus!
