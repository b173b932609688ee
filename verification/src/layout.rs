use vstd::prelude::*;

use vstd::arithmetic::div_mod::{
    lemma_div_is_ordered, lemma_div_plus_one, lemma_fundamental_div_mod, lemma_div_pos_is_pos,
    lemma_div_denominator, lemma_div_nonincreasing,
};
use vstd::arithmetic::mul::{lemma_mul_inequality, lemma_mul_is_distributive_add_other_way};
use vstd::arithmetic::power::{pow, lemma_pow_positive};

verus! {

/// Largest branching factor the library accepts.  Together with
/// `MAX_CAPACITY` this is the library's stated operating limit: within
/// it every slot index, subtree width and level start fits exact
/// machine arithmetic on any platform, which is what the proofs rest
/// on.  Callers of the original pass 2 to 16.
pub const MAX_DEGREE: usize = 128;

/// Largest leaf count the library accepts: two million segments.  A
/// stated operating limit, like `MAX_DEGREE`: it keeps the flat slot
/// array's indices and the subtree width products within exact bounds.
pub const MAX_CAPACITY: usize = 0x20_0000;

/// Ceiling division for non-negative n and positive d.
pub open spec fn ceil_div(n: int, d: int) -> int {
    (n + d - 1) / d
}

/// Number of real nodes on level `l` of a packed tree with `n` leaves
/// and branching factor `d`: each level groups the previous one in
/// chunks of `d`.
pub open spec fn level_size(d: int, n: int, l: nat) -> int
    decreases l,
{
    if l == 0 {
        n
    } else {
        ceil_div(level_size(d, n, (l - 1) as nat), d)
    }
}

/// Start of level `l` in the flat slot array: each level below it
/// contributes its size rounded up to a full chunk of `d`.
pub open spec fn level_start(d: int, n: int, l: nat) -> int
    decreases l,
{
    if l == 0 {
        0
    } else {
        level_start(d, n, (l - 1) as nat) + d * ceil_div(level_size(d, n, (l - 1) as nat), d)
    }
}

/// Basic facts about ceiling division.
pub proof fn lemma_ceil_div(n: int, d: int)
    requires
        0 <= n,
        1 <= d,
    ensures
        0 <= ceil_div(n, d),
        n <= d * ceil_div(n, d),
        d * ceil_div(n, d) < n + d,
        n == 0 ==> ceil_div(n, d) == 0,
        1 <= n ==> 1 <= ceil_div(n, d),
        ceil_div(n, d) <= n,
        2 <= n && 2 <= d ==> ceil_div(n, d) < n,
{
    lemma_fundamental_div_mod(n + d - 1, d);
    lemma_div_pos_is_pos(n + d - 1, d);
    vstd::arithmetic::div_mod::lemma_mod_division_less_than_divisor(n + d - 1, d);
    let q = ceil_div(n, d);
    assert(n <= d * q < n + d);
    assert((n == 0 ==> q == 0) && (1 <= n ==> 1 <= q) && q <= n && (2 <= n && 2 <= d ==> q < n))
        by (nonlinear_arith)
        requires
            n <= d * q < n + d,
            0 <= q,
            0 <= n,
            1 <= d,
    {
    }
}

/// Anything below a bound lands strictly below the bound's ceiling
/// after division.
pub proof fn lemma_div_below_ceil(x: int, m: int, d: int)
    requires
        0 <= x < m,
        1 <= d,
    ensures
        0 <= x / d < ceil_div(m, d),
{
    lemma_div_pos_is_pos(x, d);
    lemma_div_is_ordered(x, m - 1, d);
    lemma_div_plus_one(m - 1, d);
}

/// Level sizes are non-negative and weakly decreasing in `l`.
pub proof fn lemma_level_size_bounds(d: int, n: int, l: nat)
    requires
        2 <= d,
        0 <= n,
    ensures
        0 <= level_size(d, n, l) <= n,
        n >= 1 ==> level_size(d, n, l) >= 1,
    decreases l,
{
    if l > 0 {
        lemma_level_size_bounds(d, n, (l - 1) as nat);
        lemma_ceil_div(level_size(d, n, (l - 1) as nat), d);
    }
}

/// A leaf index below the leaf count stays below the level size as it
/// is divided down the levels.
pub proof fn lemma_offset_in_level(d: int, n: int, k: int, l: nat)
    requires
        2 <= d,
        0 <= k < n,
    ensures
        0 <= k / pow(d, l) < level_size(d, n, l),
    decreases l,
{
    if l == 0 {
        vstd::arithmetic::power::lemma_pow0(d);
        lemma_div_by_one(k);
    } else {
        let lp = (l - 1) as nat;
        lemma_offset_in_level(d, n, k, lp);
        lemma_level_size_bounds(d, n, lp);
        lemma_pow_positive(d, lp);
        lemma_div_below_ceil(k / pow(d, lp), level_size(d, n, lp), d);
        lemma_offset_step(d, k, l);
    }
}

/// Dividing by one changes nothing.
pub proof fn lemma_div_by_one(k: int)
    requires
        0 <= k,
    ensures
        k / 1 == k,
{
    lemma_fundamental_div_mod(k, 1);
    vstd::arithmetic::div_mod::lemma_mod_division_less_than_divisor(k, 1);
    vstd::arithmetic::mul::lemma_mul_basics(k / 1);
}

/// One unfolding of `pow`, with the factor on the right.
pub proof fn lemma_pow_step(d: int, l: nat)
    requires
        l >= 1,
    ensures
        pow(d, l) == pow(d, (l - 1) as nat) * d,
{
    vstd::arithmetic::power::lemma_pow1(d);
    vstd::arithmetic::power::lemma_pow_adds(d, (l - 1) as nat, 1);
}

/// A padding offset spans only leaf indices at or beyond the leaf count.
pub proof fn lemma_padding_span_empty(d: int, n: int, l: nat, o: int)
    requires
        2 <= d,
        0 <= n,
        o >= level_size(d, n, l),
    ensures
        o * pow(d, l) >= n,
    decreases l,
{
    if l == 0 {
        vstd::arithmetic::power::lemma_pow0(d);
        vstd::arithmetic::mul::lemma_mul_basics(o);
    } else {
        let lp = (l - 1) as nat;
        let ls = level_size(d, n, lp);
        let c = ceil_div(ls, d);
        lemma_level_size_bounds(d, n, lp);
        lemma_ceil_div(ls, d);
        assert(o * d >= ls) by (nonlinear_arith)
            requires
                o >= c,
                d * c >= ls,
                1 <= d,
                0 <= c,
        {
        }
        lemma_padding_span_empty(d, n, lp, o * d);
        lemma_pow_step(d, l);
        assert(o * pow(d, l) == (o * d) * pow(d, lp)) by (nonlinear_arith)
            requires
                pow(d, l) == pow(d, lp) * d,
        {
        }
    }
}

/// A real (non-padding) offset spans at least one leaf below the count.
pub proof fn lemma_real_span_nonempty(d: int, n: int, l: nat, o: int)
    requires
        2 <= d,
        0 <= n,
        0 <= o < level_size(d, n, l),
    ensures
        o * pow(d, l) < n,
    decreases l,
{
    if l == 0 {
        vstd::arithmetic::power::lemma_pow0(d);
        vstd::arithmetic::mul::lemma_mul_basics(o);
    } else {
        let lp = (l - 1) as nat;
        let ls = level_size(d, n, lp);
        let c = ceil_div(ls, d);
        lemma_level_size_bounds(d, n, lp);
        lemma_ceil_div(ls, d);
        assert(o * d < ls) by (nonlinear_arith)
            requires
                0 <= o < c,
                d * c < ls + d,
                1 <= d,
        {
        }
        lemma_real_span_nonempty(d, n, lp, o * d);
        lemma_pow_step(d, l);
        assert(o * pow(d, l) == (o * d) * pow(d, lp)) by (nonlinear_arith)
            requires
                pow(d, l) == pow(d, lp) * d,
        {
        }
    }
}

/// The spans of the `d` children of a node tile the span of the node.
pub proof fn lemma_child_span(d: int, l: nat, o: int, i: int)
    requires
        2 <= d,
        l >= 1,
        0 <= o,
        0 <= i <= d,
    ensures
        (d * o + i) * pow(d, (l - 1) as nat) == o * pow(d, l) + i * pow(d, (l - 1) as nat),
        (d * o + d) * pow(d, (l - 1) as nat) == (o + 1) * pow(d, l),
{
    let lp = (l - 1) as nat;
    let w = pow(d, lp);
    lemma_pow_step(d, l);
    assert((d * o + i) * w == o * (w * d) + i * w && (d * o + d) * w == (o + 1) * (w * d))
        by (nonlinear_arith)
    {
    }
}

/// The division step that walks a leaf offset one level up.
pub proof fn lemma_offset_step(d: int, k: int, l: nat)
    requires
        2 <= d,
        0 <= k,
        l >= 1,
    ensures
        k / pow(d, (l - 1) as nat) / d == k / pow(d, l),
{
    let lp = (l - 1) as nat;
    lemma_pow_positive(d, lp);
    lemma_div_denominator(k, pow(d, lp), d);
    lemma_pow_step(d, l);
}

/// A leaf index lies inside the span of its ancestor at every level.
pub proof fn lemma_offset_span(d: int, k: int, l: nat)
    requires
        2 <= d,
        0 <= k,
    ensures
        (k / pow(d, l)) * pow(d, l) <= k < (k / pow(d, l) + 1) * pow(d, l),
    decreases l,
{
    let w = pow(d, l);
    lemma_pow_positive(d, l);
    lemma_fundamental_div_mod(k, w);
    vstd::arithmetic::div_mod::lemma_mod_division_less_than_divisor(k, w);
    lemma_div_pos_is_pos(k, w);
    vstd::arithmetic::mul::lemma_mul_is_commutative(w, k / w);
    vstd::arithmetic::mul::lemma_mul_is_distributive_add_other_way(w, k / w, 1);
}

/// The exact form of the capacity computation used by the builder.
pub proof fn lemma_ceil_div_alt(n: int, d: int)
    requires
        0 <= n,
        1 <= d,
    ensures
        ceil_div(n, d) == n / d + if n % d > 0 { 1int } else { 0int },
{
    lemma_fundamental_div_mod(n, d);
    vstd::arithmetic::div_mod::lemma_mod_division_less_than_divisor(n, d);
    let q = n / d;
    let r = n % d;
    vstd::arithmetic::mul::lemma_mul_is_commutative(d, q);
    if r > 0 {
        assert(n + d - 1 == (q + 1) * d + (r - 1)) by {
            vstd::arithmetic::mul::lemma_mul_is_distributive_add_other_way(d, q, 1);
        }
        vstd::arithmetic::div_mod::lemma_fundamental_div_mod_converse_div(
            n + d - 1,
            d,
            q + 1,
            r - 1,
        );
    } else {
        assert(n + d - 1 == q * d + (d - 1));
        vstd::arithmetic::div_mod::lemma_fundamental_div_mod_converse_div(n + d - 1, d, q, d - 1);
    }
}

/// Shape of a well-formed level-index table for `n` leaves at degree `d`.
pub open spec fn levels_wf(d: int, n: int, v: Seq<usize>) -> bool {
    &&& v.len() >= 1
    &&& forall|l: nat| l < v.len() ==> #[trigger] level_start(d, n, l) == v[l as int]
    &&& level_size(d, n, (v.len() - 1) as nat) <= 1
    &&& forall|l: nat| l < v.len() - 1 ==> #[trigger] level_size(d, n, l) > 1
}

/// Compute the level start-index table for a packed tree: `r[0] == 0`,
/// each level adds the previous level's size rounded up to whole chunks
/// of `degree`, and iteration stops when one slot remains.
pub fn calculate_level_indices(degree: usize, num_items: usize) -> (r: Vec<usize>)
    requires
        2 <= degree <= MAX_DEGREE,
        num_items <= MAX_CAPACITY,
    ensures
        levels_wf(degree as int, num_items as int, r@),
        forall|l: int| 0 <= l < r@.len() ==> #[trigger] r@[l] <= 0x4000_0000,
        r@.len() <= num_items + 1,
    {
    let d = degree;
    let n = num_items;
    let ghost di = d as int;
    let ghost ni = n as int;
    let mut level_indices: Vec<usize> = Vec::new();
    level_indices.push(0);
    let mut level: usize = 0;
    let mut size: usize = num_items;
    while size > 1
        invariant
            2 <= di <= 128,
            ni <= 0x20_0000,
            di == d as int,
            level_indices@.len() == level + 1,
            size as int == level_size(di, ni, level as nat),
            forall|l: nat|
                l <= level ==> #[trigger] level_start(di, ni, l) == level_indices@[l as int],
            forall|l: nat| l < level ==> #[trigger] level_size(di, ni, l) > 1,
            size + level <= ni || level == 0,
            level_indices@[level as int] + (di + 2) * (size as int) <= (di + 2) * (ni + level),
            forall|l: int| 0 <= l <= level ==> #[trigger] level_indices@[l] <= 0x4000_0000,
        decreases size,
    {
        proof {
            lemma_ceil_div(size as int, di);
            lemma_ceil_div_alt(size as int, di);
        }
        let level_buffer: usize = if size % d > 0 {
            1
        } else {
            0
        };
        let q = size / d + level_buffer;
        proof {
            assert(q as int == ceil_div(size as int, di));
            lemma_next_level_potential(di, ni, level as nat, level_indices@[level as int] as int);
            lemma_mul_inequality(1, q as int, di);
            vstd::arithmetic::mul::lemma_mul_is_commutative(q as int, di);
            vstd::arithmetic::mul::lemma_mul_upper_bound(di, 130, q as int, 0x20_0000);
            vstd::arithmetic::mul::lemma_mul_upper_bound(
                di + 2,
                130,
                ni + level + 1,
                0x40_0001,
            );
            lemma_mul_inequality(0, q as int, di + 2);
        }
        proof {
            assert(level_start(di, ni, (level + 1) as nat) == level_start(di, ni, level as nat)
                + di * ceil_div(level_size(di, ni, level as nat), di));
            assert(level_size(di, ni, (level + 1) as nat) == ceil_div(
                level_size(di, ni, level as nat),
                di,
            ));
        }
        let level_capacity = d * q;
        let last = level_indices[level];
        level_indices.push(last + level_capacity);
        level += 1;
        proof {
            vstd::arithmetic::div_mod::lemma_div_multiples_vanish(q as int, di);
        }
        size = level_capacity / d;
    }
    proof {
        if ni >= 1 {
            lemma_level_size_bounds(di, ni, level as nat);
        }
    }
    level_indices
}

/// One step of the size bound that keeps the level table within range:
/// pushing a level keeps `start + (d+2)*size` under `(d+2)*(n+level)`.
proof fn lemma_next_level_potential(d: int, n: int, l: nat, start: int)
    requires
        2 <= d,
        2 <= level_size(d, n, l),
        0 <= n,
        0 <= start,
        start + (d + 2) * level_size(d, n, l) <= (d + 2) * (n + l),
    ensures
        start + d * ceil_div(level_size(d, n, l), d) + (d + 2) * ceil_div(level_size(d, n, l), d)
            <= (d + 2) * (n + l + 1),
{
    let s = level_size(d, n, l);
    let c = ceil_div(s, d);
    lemma_ceil_div(s, d);
    assert((2 * d + 2) * c <= (d + 2) * (s + 1)) by (nonlinear_arith)
        requires
            2 <= d,
            2 <= s,
            0 <= c,
            d * c < s + d,
            c <= s,
    {
    }
    assert((d + 2) * (n + l + 1) == (d + 2) * (n + l) + (d + 2)) by (nonlinear_arith);
    assert((d + 2) * (s + 1) == (d + 2) * s + (d + 2)) by (nonlinear_arith);
    assert(d * c + (d + 2) * c == (2 * d + 2) * c) by (nonlinear_arith);
}

} // verus!
