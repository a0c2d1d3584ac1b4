pub mod utils;

use vstd::math::min;
use vstd::prelude::*;

use crate::utils::{
    get_instructions, mapping_operator_type, operator_code, retained_of_programs, Grid, Input,
    InvalidSymbol, MechState, Operator,
};

verus! {

/// Start of the Instructions token family.
pub const OFFSET_INSTRUCTIONS: u16 = 0;

/// Start of the Mechanisms token family.
pub const OFFSET_MECHS: u16 = 2048;

/// Start of the Operators token family.
pub const OFFSET_OPERATORS: u16 = 4096;

/// Width of the per-code channel used for instruction tokens.
pub const CHANNEL_WIDTH: u16 = 128;

/// Step by which a grid channel's accumulator advances per occurrence.
pub const GRID_STEP: u16 = 1;

/// How many times `v` occurs in the first `upto` elements of `s`.
pub open spec fn occ_count(s: Seq<u16>, upto: int, v: u16) -> nat
    decreases upto,
{
    if upto <= 0 {
        0
    } else {
        occ_count(s, upto - 1, v) + if s[upto - 1] == v {
            1nat
        } else {
            0nat
        }
    }
}

/// The token emitted for position `i` of `s`: the slot taken so far within
/// the 'local_offset'-wide channel reserved for the value at `i`, shifted by
/// the channel base and the family offset.
pub open spec fn value_token(s: Seq<u16>, global_offset: u16, local_offset: u16, i: int) -> int {
    global_offset + occ_count(s, i, s[i]) + s[i] * local_offset
}

/// The full token sequence that `map_unique_values` emits for `s`.
pub open spec fn value_tokens(s: Seq<u16>, global_offset: u16, local_offset: u16) -> Seq<u16> {
    Seq::new(s.len(), |i: int| value_token(s, global_offset, local_offset, i) as u16)
}

/// Occurrence counts never shrink along a prefix.
proof fn lemma_occ_count_monotone(s: Seq<u16>, i: int, j: int, v: u16)
    requires
        0 <= i <= j,
    ensures
        occ_count(s, i, v) <= occ_count(s, j, v),
    decreases j - i,
{
    if i < j {
        lemma_occ_count_monotone(s, i, j - 1, v);
    }
}

/// The slot of position `i` is strictly below every later count of the same
/// value: the occurrence at `i` itself separates them.
proof fn lemma_occ_count_strict(s: Seq<u16>, i: int, j: int)
    requires
        0 <= i < j <= s.len(),
    ensures
        occ_count(s, i, s[i]) < occ_count(s, j, s[i]),
{
    lemma_occ_count_monotone(s, i + 1, j, s[i]);
}

pub fn map_unique_values(data: &[u16], global_offset: u16, local_offset: u16) -> (r: Vec<u16>)
    requires
        forall|i: int|
            0 <= i < data@.len() ==> value_token(data@, global_offset, local_offset, i)
                <= u16::MAX,
    ensures
        r@ == value_tokens(data@, global_offset, local_offset),
{
    let mut out: Vec<u16> = Vec::new();
    let mut i: usize = 0;
    while i < data.len()
        invariant
            0 <= i <= data@.len(),
            forall|k: int|
                0 <= k < data@.len() ==> value_token(data@, global_offset, local_offset, k)
                    <= u16::MAX,
            out@.len() == i,
            forall|k: int|
                0 <= k < i ==> out@[k] == value_token(data@, global_offset, local_offset, k),
        decreases data@.len() - i,
    {
        let v = data[i];
        let mut count: u16 = 0;
        let mut j: usize = 0;
        while j < i
            invariant
                0 <= j <= i < data@.len(),
                data@[i as int] == v,
                count == occ_count(data@, j as int, v),
                forall|k: int|
                    0 <= k < data@.len() ==> value_token(data@, global_offset, local_offset, k)
                        <= u16::MAX,
            decreases i - j,
        {
            proof {
                lemma_occ_count_monotone(data@, j + 1, i as int, v);
            }
            if data[j] == v {
                proof {
                    assert(v * local_offset >= 0) by (nonlinear_arith);
                    assert(value_token(data@, global_offset, local_offset, i as int) <= u16::MAX);
                }
                count = count + 1;
            }
            j = j + 1;
        }
        proof {
            assert(v * local_offset >= 0) by (nonlinear_arith);
            assert(value_token(data@, global_offset, local_offset, i as int) <= u16::MAX);
        }
        out.push(global_offset + count + v * local_offset);
        i = i + 1;
    }
    proof {
        assert(out@ =~= value_tokens(data@, global_offset, local_offset));
    }
    out
}

/// Uniqueness of the value encoder's tokens: as long as no value's total
/// occurrence count exceeds the channel width, and the width is positive,
/// no two positions emit the same token.
pub proof fn lemma_value_tokens_unique(s: Seq<u16>, global_offset: u16, local_offset: u16)
    requires
        local_offset >= 1,
        forall|v: u16| occ_count(s, s.len() as int, v) <= local_offset,
    ensures
        forall|i: int, j: int|
            0 <= i < j < s.len() ==> value_token(s, global_offset, local_offset, i) != value_token(
                s,
                global_offset,
                local_offset,
                j,
            ),
{
    assert forall|i: int, j: int| 0 <= i < j < s.len() implies value_token(
        s,
        global_offset,
        local_offset,
        i,
    ) != value_token(s, global_offset, local_offset, j) by {
        let vi = s[i];
        let vj = s[j];
        let ci = occ_count(s, i, vi);
        let cj = occ_count(s, j, vj);
        lemma_occ_count_strict(s, i, s.len() as int);
        lemma_occ_count_strict(s, j, s.len() as int);
        assert(occ_count(s, s.len() as int, vi) <= local_offset);
        assert(occ_count(s, s.len() as int, vj) <= local_offset);
        assert(ci < local_offset);
        assert(cj < local_offset);
        assert(value_token(s, global_offset, local_offset, i) == global_offset + ci + vi
            * local_offset);
        assert(value_token(s, global_offset, local_offset, j) == global_offset + cj + vj
            * local_offset);
        if vi == vj {
            lemma_occ_count_strict(s, i, j);
            assert(ci < cj);
        } else {
            assert((vi < vj ==> vi * local_offset + local_offset <= vj * local_offset) && (vj
                < vi ==> vj * local_offset + local_offset <= vi * local_offset))
                by (nonlinear_arith)
                requires
                    local_offset >= 1,
                    vi != vj,
            ;
        }
    }
}

/// The channel key of a board position: consecutive `y` values are 32 apart,
/// consecutive `x` values 256 apart, so every key is a multiple of 32.
pub open spec fn grid_key(g: Grid) -> int {
    g.x * 256 + g.y * 32
}

/// How many positions among the first `upto` elements of `s` share key `k`.
pub open spec fn key_count(s: Seq<Grid>, upto: int, k: int) -> nat
    decreases upto,
{
    if upto <= 0 {
        0
    } else {
        key_count(s, upto - 1, k) + if grid_key(s[upto - 1]) == k {
            1nat
        } else {
            0nat
        }
    }
}

/// The token emitted for position `i` of `s`: the accumulator reserved for
/// the key so far (`offset_increase` per earlier occurrence), plus the key,
/// plus the family offset.
pub open spec fn grid_token(s: Seq<Grid>, global_offset: u16, offset_increase: u16, i: int) -> int {
    global_offset + offset_increase * key_count(s, i, grid_key(s[i])) + grid_key(s[i])
}

/// The full token sequence that `map_unique_grid` emits for `s`.
pub open spec fn grid_tokens(s: Seq<Grid>, global_offset: u16, offset_increase: u16) -> Seq<u16> {
    Seq::new(s.len(), |i: int| grid_token(s, global_offset, offset_increase, i) as u16)
}

/// Key counts never shrink along a prefix.
proof fn lemma_key_count_monotone(s: Seq<Grid>, i: int, j: int, k: int)
    requires
        0 <= i <= j,
    ensures
        key_count(s, i, k) <= key_count(s, j, k),
    decreases j - i,
{
    if i < j {
        lemma_key_count_monotone(s, i, j - 1, k);
    }
}

/// The count before position `i` is strictly below every later count of the
/// same key: the occurrence at `i` itself separates them.
proof fn lemma_key_count_strict(s: Seq<Grid>, i: int, j: int)
    requires
        0 <= i < j <= s.len(),
    ensures
        key_count(s, i, grid_key(s[i])) < key_count(s, j, grid_key(s[i])),
{
    lemma_key_count_monotone(s, i + 1, j, grid_key(s[i]));
}

pub fn map_unique_grid(grids: &[Grid], global_offset: u16, offset_increase: u16) -> (r: Vec<u16>)
    requires
        forall|i: int| 0 <= i < grids@.len() ==> grid_key(#[trigger] grids@[i]) <= u16::MAX,
        forall|i: int|
            0 <= i < grids@.len() ==> grid_token(grids@, global_offset, offset_increase, i)
                <= u16::MAX,
    ensures
        r@ == grid_tokens(grids@, global_offset, offset_increase),
{
    let mut out: Vec<u16> = Vec::new();
    let mut i: usize = 0;
    while i < grids.len()
        invariant
            0 <= i <= grids@.len(),
            forall|k: int| 0 <= k < grids@.len() ==> grid_key(#[trigger] grids@[k]) <= u16::MAX,
            forall|k: int|
                0 <= k < grids@.len() ==> grid_token(grids@, global_offset, offset_increase, k)
                    <= u16::MAX,
            out@.len() == i,
            forall|k: int|
                0 <= k < i ==> out@[k] == grid_token(grids@, global_offset, offset_increase, k),
        decreases grids@.len() - i,
    {
        let g = grids[i];
        let key: u16 = g.x * 256 + g.y * 32;
        let mut acc: u16 = 0;
        let mut j: usize = 0;
        while j < i
            invariant
                0 <= j <= i < grids@.len(),
                grids@[i as int] == g,
                key == grid_key(g),
                acc == offset_increase * key_count(grids@, j as int, grid_key(g)),
                forall|k: int| 0 <= k < grids@.len() ==> grid_key(#[trigger] grids@[k]) <= u16::MAX,
                forall|k: int|
                    0 <= k < grids@.len() ==> grid_token(grids@, global_offset, offset_increase, k)
                        <= u16::MAX,
            decreases i - j,
        {
            let h = grids[j];
            let other: u16 = h.x * 256 + h.y * 32;
            if other == key {
                proof {
                    lemma_key_count_monotone(grids@, j + 1, i as int, grid_key(g));
                    assert(grid_token(grids@, global_offset, offset_increase, i as int)
                        <= u16::MAX);
                    assert(offset_increase * key_count(grids@, j + 1, grid_key(g))
                        == offset_increase * key_count(grids@, j as int, grid_key(g))
                        + offset_increase && offset_increase * key_count(grids@, j + 1, grid_key(g))
                        <= offset_increase * key_count(grids@, i as int, grid_key(g)))
                        by (nonlinear_arith)
                        requires
                            key_count(grids@, j + 1, grid_key(g)) == key_count(
                                grids@,
                                j as int,
                                grid_key(g),
                            ) + 1,
                            key_count(grids@, j + 1, grid_key(g)) <= key_count(
                                grids@,
                                i as int,
                                grid_key(g),
                            ),
                    ;
                }
                acc = acc + offset_increase;
            }
            j = j + 1;
        }
        proof {
            assert(grid_token(grids@, global_offset, offset_increase, i as int) <= u16::MAX);
            assert(offset_increase * key_count(grids@, i as int, grid_key(g)) >= 0)
                by (nonlinear_arith);
        }
        out.push(global_offset + acc + key);
        i = i + 1;
    }
    proof {
        assert(out@ =~= grid_tokens(grids@, global_offset, offset_increase));
    }
    out
}

/// Uniqueness of the grid encoder's tokens: every key is a multiple of 32,
/// so as long as each key's accumulator stays below the 32-wide spacing
/// between adjacent channels, no two positions emit the same token.
pub proof fn lemma_grid_tokens_unique(s: Seq<Grid>, global_offset: u16, offset_increase: u16)
    requires
        offset_increase >= 1,
        forall|k: int| offset_increase * key_count(s, s.len() as int, k) <= 32,
    ensures
        forall|i: int, j: int|
            0 <= i < j < s.len() ==> grid_token(s, global_offset, offset_increase, i)
                != grid_token(s, global_offset, offset_increase, j),
{
    assert forall|i: int, j: int| 0 <= i < j < s.len() implies grid_token(
        s,
        global_offset,
        offset_increase,
        i,
    ) != grid_token(s, global_offset, offset_increase, j) by {
        let ki = grid_key(s[i]);
        let kj = grid_key(s[j]);
        let ci = key_count(s, i, ki);
        let cj = key_count(s, j, kj);
        let ai = offset_increase * ci;
        let aj = offset_increase * cj;
        lemma_key_count_strict(s, i, s.len() as int);
        lemma_key_count_strict(s, j, s.len() as int);
        assert(offset_increase * key_count(s, s.len() as int, ki) <= 32);
        assert(offset_increase * key_count(s, s.len() as int, kj) <= 32);
        assert(ai + offset_increase <= offset_increase * key_count(s, s.len() as int, ki) && aj
            + offset_increase <= offset_increase * key_count(s, s.len() as int, kj) && ai >= 0
            && aj >= 0) by (nonlinear_arith)
            requires
                offset_increase >= 1,
                ci + 1 <= key_count(s, s.len() as int, ki),
                cj + 1 <= key_count(s, s.len() as int, kj),
                ai == offset_increase * ci,
                aj == offset_increase * cj,
        ;
        assert(ai < 32 && aj < 32);
        if ki == kj {
            lemma_key_count_strict(s, i, j);
            assert(ai < aj) by (nonlinear_arith)
                requires
                    offset_increase >= 1,
                    ci < cj,
                    ai == offset_increase * ci,
                    aj == offset_increase * cj,
            ;
        } else {
            let mi = s[i].x * 8 + s[i].y;
            let mj = s[j].x * 8 + s[j].y;
            assert(ki == 32 * mi && kj == 32 * mj);
            assert(mi != mj && (mi < mj ==> ki + 32 <= kj) && (mj < mi ==> kj + 32 <= ki));
        }
    }
}

/// The token of one cell under type code `t`: no occurrence counting, the
/// (type, x, y) triple alone decides the value.
pub open spec fn op_token(t: u16, g: Grid, global_offset: u16) -> int {
    global_offset + t * 256 + g.x * 16 + g.y
}

/// The tokens of one operator's cell list under type code `t`, in order.
pub open spec fn cell_tokens(cells: Seq<Grid>, t: u16, global_offset: u16) -> Seq<u16> {
    Seq::new(cells.len(), |i: int| op_token(t, cells[i], global_offset) as u16)
}

/// The concatenated tokens of a list of (cell list, type code) pairs.
pub open spec fn operator_tokens(pairs: Seq<(Vec<Grid>, u16)>, global_offset: u16) -> Seq<u16>
    decreases pairs.len(),
{
    if pairs.len() == 0 {
        Seq::empty()
    } else {
        operator_tokens(pairs.drop_last(), global_offset) + cell_tokens(
            pairs.last().0@,
            pairs.last().1,
            global_offset,
        )
    }
}

pub fn map_unique_operator(grids: &[(Vec<Grid>, u16)], global_offset: u16) -> (r: Vec<u16>)
    requires
        forall|i: int, j: int|
            0 <= i < grids@.len() && 0 <= j < grids@[i].0@.len() ==> op_token(
                grids@[i].1,
                grids@[i].0@[j],
                global_offset,
            ) <= u16::MAX,
    ensures
        r@ == operator_tokens(grids@, global_offset),
{
    let mut out: Vec<u16> = Vec::new();
    let mut i: usize = 0;
    while i < grids.len()
        invariant
            0 <= i <= grids@.len(),
            forall|k: int, j: int|
                0 <= k < grids@.len() && 0 <= j < grids@[k].0@.len() ==> op_token(
                    grids@[k].1,
                    grids@[k].0@[j],
                    global_offset,
                ) <= u16::MAX,
            out@ == operator_tokens(grids@.take(i as int), global_offset),
        decreases grids@.len() - i,
    {
        let pair = &grids[i];
        let t = pair.1;
        let cells = &pair.0;
        let mut j: usize = 0;
        while j < cells.len()
            invariant
                0 <= j <= cells@.len(),
                *pair == grids@[i as int],
                0 <= i < grids@.len(),
                pair.1 == t,
                pair.0 == *cells,
                forall|k: int, l: int|
                    0 <= k < grids@.len() && 0 <= l < grids@[k].0@.len() ==> op_token(
                        grids@[k].1,
                        grids@[k].0@[l],
                        global_offset,
                    ) <= u16::MAX,
                out@ == operator_tokens(grids@.take(i as int), global_offset) + cell_tokens(
                    cells@,
                    t,
                    global_offset,
                ).take(j as int),
            decreases cells@.len() - j,
        {
            let g = cells[j];
            proof {
                assert(t * 256 >= 0 && g.x * 16 >= 0) by (nonlinear_arith);
                assert(op_token(t, g, global_offset) <= u16::MAX);
            }
            out.push(global_offset + t * 256 + g.x * 16 + g.y);
            proof {
                assert(out@ =~= operator_tokens(grids@.take(i as int), global_offset)
                    + cell_tokens(cells@, t, global_offset).take(j + 1));
            }
            j = j + 1;
        }
        proof {
            assert(grids@.take(i + 1).drop_last() == grids@.take(i as int));
            assert(grids@.take(i + 1).last() == grids@[i as int]);
            assert(cell_tokens(cells@, t, global_offset).take(j as int) == cell_tokens(
                cells@,
                t,
                global_offset,
            ));
        }
        i = i + 1;
    }
    proof {
        assert(grids@.take(i as int) == grids@);
    }
    out
}

/// The affine hash of one token: `(a*t + b) mod 65537`. The modulus is the
/// prime 2^16 + 1, so the codomain is `[0, 65537)` and the residue 65536 is
/// a possible hash value.
pub open spec fn hash_value(t: u16, a: u32, b: u32) -> u32 {
    ((a * t + b) % 65537) as u32
}

/// The minimum hash over a nonempty token sequence.
pub open spec fn min_hash_value(s: Seq<u16>, a: u32, b: u32) -> u32
    recommends
        s.len() > 0,
    decreases s.len(),
{
    if s.len() <= 1 {
        hash_value(s[0], a, b)
    } else {
        let m = min_hash_value(s.drop_last(), a, b);
        let h = hash_value(s.last(), a, b);
        if h < m {
            h
        } else {
            m
        }
    }
}

/// The signature of a fingerprint under one hash function: its minimum hash,
/// or the documented default 0 for an empty fingerprint.
pub open spec fn signature(s: Seq<u16>, a: u32, b: u32) -> u32 {
    if s.len() == 0 {
        0
    } else {
        min_hash_value(s, a, b)
    }
}

/// How many of the first `n` hash functions give both fingerprints the same
/// signature.
pub open spec fn agreement_count(d1: Seq<u16>, d2: Seq<u16>, a: Seq<u32>, b: Seq<u32>, n: int) -> nat
    decreases n,
{
    if n <= 0 {
        0
    } else {
        agreement_count(d1, d2, a, b, n - 1) + if signature(d1, a[n - 1], b[n - 1]) == signature(
            d2,
            a[n - 1],
            b[n - 1],
        ) {
            1nat
        } else {
            0nat
        }
    }
}

pub fn hash(data: &[u16], a: u32, b: u32) -> (r: Option<u32>)
    requires
        a <= 65535,
        b <= 65535,
    ensures
        r is Some <==> data@.len() > 0,
        data@.len() > 0 ==> r == Some(min_hash_value(data@, a, b)),
{
    if data.len() == 0 {
        return None;
    }
    let mut m: u32 = hash_one(data[0], a, b);
    let mut i: usize = 1;
    while i < data.len()
        invariant
            1 <= i <= data@.len(),
            a <= 65535,
            b <= 65535,
            m == min_hash_value(data@.take(i as int), a, b),
        decreases data@.len() - i,
    {
        let h = hash_one(data[i], a, b);
        proof {
            assert(data@.take(i + 1).drop_last() == data@.take(i as int));
            assert(data@.take(i + 1).last() == data@[i as int]);
            assert(data@.take(i + 1).len() == i + 1);
        }
        if h < m {
            m = h;
        }
        i = i + 1;
    }
    proof {
        assert(data@.take(i as int) == data@);
    }
    Some(m)
}

/// One evaluation of the affine hash, in machine arithmetic.
fn hash_one(t: u16, a: u32, b: u32) -> (r: u32)
    requires
        a <= 65535,
        b <= 65535,
    ensures
        r == hash_value(t, a, b),
{
    proof {
        assert(a * t <= 65535 * 65535) by (nonlinear_arith)
            requires
                a <= 65535,
                t <= 65535,
        ;
    }
    (a * (t as u32) + b) % 65537
}

pub fn min_hash(d1: &[u16], d2: &[u16], a: &[u32], b: &[u32]) -> (r: u16)
    requires
        forall|i: int| 0 <= i < a@.len() ==> a@[i] <= 65535,
        forall|i: int| 0 <= i < b@.len() ==> b@[i] <= 65535,
        min(a@.len() as int, b@.len() as int) <= u16::MAX,
    ensures
        r == agreement_count(d1@, d2@, a@, b@, min(a@.len() as int, b@.len() as int)),
{
    let n: usize = if a.len() < b.len() {
        a.len()
    } else {
        b.len()
    };
    let mut equal: u16 = 0;
    let mut i: usize = 0;
    while i < n
        invariant
            0 <= i <= n,
            n == min(a@.len() as int, b@.len() as int),
            n <= u16::MAX,
            forall|k: int| 0 <= k < a@.len() ==> a@[k] <= 65535,
            forall|k: int| 0 <= k < b@.len() ==> b@[k] <= 65535,
            equal == agreement_count(d1@, d2@, a@, b@, i as int),
            equal <= i,
        decreases n - i,
    {
        let s1 = match hash(d1, a[i], b[i]) {
            Some(v) => v,
            None => 0,
        };
        let s2 = match hash(d2, a[i], b[i]) {
            Some(v) => v,
            None => 0,
        };
        if s1 == s2 {
            equal = equal + 1;
        }
        i = i + 1;
    }
    equal
}

/// Relies on rand's `thread_rng` and `Rng::gen_range`: the returned value
/// lies in the given inclusive range, here `[1, 65535]`. Nothing more is
/// stated of the draw, so callers must cope with every outcome.
#[verifier::external_body]
fn draw_coefficient() -> (r: u32)
    ensures
        1 <= r <= 65535,
{
    rand::Rng::gen_range(&mut rand::thread_rng(), 1..=65535u32)
}

/// One fresh family of `k` affine hash functions: the multipliers in the
/// first vector, the offsets in the second, each drawn from `[1, 65535]`.
/// Both fingerprints of one comparison must be evaluated against the same
/// family.
pub fn generate_hash_family(k: usize) -> (r: (Vec<u32>, Vec<u32>))
    ensures
        r.0@.len() == k,
        r.1@.len() == k,
        forall|i: int| 0 <= i < k ==> 1 <= #[trigger] r.0@[i] <= 65535,
        forall|i: int| 0 <= i < k ==> 1 <= #[trigger] r.1@[i] <= 65535,
{
    let mut a: Vec<u32> = Vec::new();
    let mut b: Vec<u32> = Vec::new();
    let mut i: usize = 0;
    while i < k
        invariant
            0 <= i <= k,
            a@.len() == i,
            b@.len() == i,
            forall|j: int| 0 <= j < i ==> 1 <= #[trigger] a@[j] <= 65535,
            forall|j: int| 0 <= j < i ==> 1 <= #[trigger] b@[j] <= 65535,
        decreases k - i,
    {
        a.push(draw_coefficient());
        b.push(draw_coefficient());
        i = i + 1;
    }
    (a, b)
}

/// Self-similarity: comparing any fingerprint against itself makes every one
/// of the first `n` hash functions agree, whatever the hash family holds.
pub proof fn lemma_self_similarity(d: Seq<u16>, a: Seq<u32>, b: Seq<u32>, n: int)
    requires
        n >= 0,
    ensures
        agreement_count(d, d, a, b, n) == n,
    decreases n,
{
    if n > 0 {
        lemma_self_similarity(d, a, b, n - 1);
    }
}

/// The board positions of a solution's mechanisms, in order.
pub open spec fn mech_grids(mechs: Seq<MechState>) -> Seq<Grid> {
    Seq::new(mechs.len(), |i: int| mechs[i].index)
}

/// The cells one operator contributes: its input cells, then its output
/// cells.
pub open spec fn operator_cells(op: Operator) -> Seq<Grid> {
    op.input@ + op.output@
}

/// The type code of one operator, 0 where the symbol is unrecognized (such
/// a solution is rejected before any token is formed).
pub open spec fn operator_type_code(op: Operator) -> u16 {
    match operator_code(op.typ.symbol@) {
        Some(c) => c,
        None => 0,
    }
}

/// Whether every operator of the list carries a recognized type symbol.
pub open spec fn all_symbols_valid(ops: Seq<Operator>) -> bool {
    forall|i: int| 0 <= i < ops.len() ==> operator_code(#[trigger] ops[i].typ.symbol@) is Some
}

/// The concatenated operator tokens of a solution's operator list.
pub open spec fn solution_op_tokens(ops: Seq<Operator>, global_offset: u16) -> Seq<u16>
    decreases ops.len(),
{
    if ops.len() == 0 {
        Seq::empty()
    } else {
        solution_op_tokens(ops.drop_last(), global_offset) + cell_tokens(
            operator_cells(ops.last()),
            operator_type_code(ops.last()),
            global_offset,
        )
    }
}

/// The instruction code stream of a solution's programs.
pub open spec fn instruction_stream(input: &Input) -> Seq<u16> {
    retained_of_programs(input.programs.deep_view())
}

/// The assembled fingerprint of one solution: instruction tokens, then
/// mechanism tokens, then operator tokens, each family under its own offset.
pub open spec fn solution_fingerprint(input: &Input) -> Seq<u16> {
    value_tokens(instruction_stream(input), OFFSET_INSTRUCTIONS, CHANNEL_WIDTH) + grid_tokens(
        mech_grids(input.mechs@),
        OFFSET_MECHS,
        GRID_STEP,
    ) + solution_op_tokens(input.operators@, OFFSET_OPERATORS)
}

/// Every token of the solution's fingerprint fits into 16 bits; this is the
/// machine-width bound under which the assembler runs.
pub open spec fn fingerprint_fits(input: &Input) -> bool {
    let codes = instruction_stream(input);
    let grids = mech_grids(input.mechs@);
    let ops = input.operators@;
    &&& forall|i: int|
        0 <= i < codes.len() ==> value_token(codes, OFFSET_INSTRUCTIONS, CHANNEL_WIDTH, i)
            <= u16::MAX
    &&& forall|i: int| 0 <= i < grids.len() ==> grid_key(#[trigger] grids[i]) <= u16::MAX
    &&& forall|i: int|
        0 <= i < grids.len() ==> grid_token(grids, OFFSET_MECHS, GRID_STEP, i) <= u16::MAX
    &&& all_symbols_valid(ops) ==> forall|i: int, j: int|
        0 <= i < ops.len() && 0 <= j < operator_cells(ops[i]).len() ==> (#[trigger] op_token(
            operator_type_code(ops[i]),
            operator_cells(ops[i])[j],
            OFFSET_OPERATORS,
        )) <= u16::MAX
}

/// Pointwise equal (cell list, type code) pairs give the same operator
/// tokens as the operator list they were taken from.
proof fn lemma_operator_tokens_match(
    pairs: Seq<(Vec<Grid>, u16)>,
    ops: Seq<Operator>,
    global_offset: u16,
)
    requires
        pairs.len() == ops.len(),
        forall|j: int|
            0 <= j < ops.len() ==> (#[trigger] pairs[j]).1 == operator_type_code(ops[j])
                && pairs[j].0@ == operator_cells(ops[j]),
    ensures
        operator_tokens(pairs, global_offset) == solution_op_tokens(ops, global_offset),
    decreases pairs.len(),
{
    if pairs.len() > 0 {
        lemma_operator_tokens_match(pairs.drop_last(), ops.drop_last(), global_offset);
        assert(pairs.last() == pairs[pairs.len() - 1]);
        assert(ops.last() == ops[ops.len() - 1]);
    }
}

/// Assemble one solution's fingerprint: encode the three substructures and
/// concatenate them, instructions first, then mechanisms, then operators.
/// Encoding is a function of the solution alone, so encoding the same
/// solution twice yields the same token sequence, value for value.
pub fn map_solution(input: &Input) -> (r: Result<Vec<u16>, InvalidSymbol>)
    requires
        fingerprint_fits(input),
    ensures
        r is Ok <==> all_symbols_valid(input.operators@),
        r is Ok ==> r->Ok_0@ == solution_fingerprint(input),
{
    let progs = input.programs.as_slice();
    let instructions = get_instructions(progs);
    proof {
        assert(progs.deep_view() =~= input.programs.deep_view());
    }
    let ghost mechseq = mech_grids(input.mechs@);
    let mut grids_mechs: Vec<Grid> = Vec::new();
    let mut i: usize = 0;
    while i < input.mechs.len()
        invariant
            0 <= i <= input.mechs@.len(),
            mechseq == mech_grids(input.mechs@),
            mechseq.len() == input.mechs@.len(),
            grids_mechs@ == mechseq.take(i as int),
        decreases input.mechs@.len() - i,
    {
        grids_mechs.push(input.mechs[i].index);
        proof {
            assert(grids_mechs@ =~= mechseq.take(i + 1));
        }
        i = i + 1;
    }
    proof {
        assert(mechseq.take(i as int) == mechseq);
    }
    let ghost ops = input.operators@;
    let mut pairs: Vec<(Vec<Grid>, u16)> = Vec::new();
    let mut k: usize = 0;
    while k < input.operators.len()
        invariant
            0 <= k <= ops.len(),
            ops == input.operators@,
            pairs@.len() == k,
            forall|j: int|
                0 <= j < k ==> operator_code(#[trigger] ops[j].typ.symbol@) is Some,
            forall|j: int|
                0 <= j < k ==> (#[trigger] pairs@[j]).1 == operator_type_code(ops[j])
                    && pairs@[j].0@ == operator_cells(ops[j]),
        decreases ops.len() - k,
    {
        let op = &input.operators[k];
        let t = match mapping_operator_type(op.typ.symbol.as_str()) {
            Ok(c) => c,
            Err(e) => {
                return Err(e);
            },
        };
        let mut cells: Vec<Grid> = Vec::new();
        let mut j: usize = 0;
        while j < op.input.len()
            invariant
                0 <= j <= op.input@.len(),
                cells@ == op.input@.take(j as int),
            decreases op.input@.len() - j,
        {
            cells.push(op.input[j]);
            proof {
                assert(cells@ =~= op.input@.take(j + 1));
            }
            j = j + 1;
        }
        proof {
            assert(op.input@.take(j as int) == op.input@);
        }
        let mut l: usize = 0;
        while l < op.output.len()
            invariant
                0 <= l <= op.output@.len(),
                cells@ == op.input@ + op.output@.take(l as int),
            decreases op.output@.len() - l,
        {
            cells.push(op.output[l]);
            proof {
                assert(cells@ =~= op.input@ + op.output@.take(l + 1));
            }
            l = l + 1;
        }
        proof {
            assert(op.output@.take(l as int) == op.output@);
            assert(cells@ == operator_cells(ops[k as int]));
        }
        pairs.push((cells, t));
        k = k + 1;
    }
    proof {
        lemma_operator_tokens_match(pairs@, ops, OFFSET_OPERATORS);
        assert(instructions@ == instruction_stream(input));
        assert(forall|i: int|
            0 <= i < instructions@.len() ==> value_token(
                instructions@,
                OFFSET_INSTRUCTIONS,
                CHANNEL_WIDTH,
                i,
            ) <= u16::MAX);
    }
    let mut out = map_unique_values(instructions.as_slice(), OFFSET_INSTRUCTIONS, CHANNEL_WIDTH);
    let mut mechs_mapping = map_unique_grid(grids_mechs.as_slice(), OFFSET_MECHS, GRID_STEP);
    let mut operators_mapping = map_unique_operator(pairs.as_slice(), OFFSET_OPERATORS);
    out.append(&mut mechs_mapping);
    out.append(&mut operators_mapping);
    Ok(out)
}

/// Validation mode for the open uniqueness questions: reports whether a
/// token sequence holds the same value twice, so that a caller can decide
/// how to treat a channel overflow or a coinciding operator cell rather
/// than let the collision pass silently.
pub fn has_duplicate_tokens(tokens: &[u16]) -> (r: bool)
    ensures
        r <==> exists|i: int, j: int|
            0 <= i < j < tokens@.len() && tokens@[i] == tokens@[j],
{
    let mut i: usize = 0;
    while i < tokens.len()
        invariant
            0 <= i <= tokens@.len(),
            forall|p: int, q: int|
                0 <= p < q < tokens@.len() && p < i ==> tokens@[p] != tokens@[q],
        decreases tokens@.len() - i,
    {
        let mut j: usize = i + 1;
        while j < tokens.len()
            invariant
                0 <= i < j <= tokens@.len(),
                forall|q: int| i < q < j ==> tokens@[q] != tokens@[i as int],
            decreases tokens@.len() - j,
        {
            if tokens[j] == tokens[i] {
                return true;
            }
            j = j + 1;
        }
        i = i + 1;
    }
    false
}

/// Family disjointness: under the channel bounds of the two counting
/// encoders and the board bound of the grid keys, every instruction token
/// lies below the Mechanisms family, every mechanism token lies inside it,
/// and every operator token lies at or above the Operators family, so no
/// token of one family can equal a token of another.
pub proof fn lemma_family_disjointness(codes: Seq<u16>, grids: Seq<Grid>)
    requires
        forall|i: int| 0 <= i < codes.len() ==> 1 <= #[trigger] codes[i] <= 8,
        forall|v: u16| occ_count(codes, codes.len() as int, v) <= CHANNEL_WIDTH,
        forall|i: int| 0 <= i < grids.len() ==> grid_key(#[trigger] grids[i]) + 32 <= 2048,
        forall|k: int| GRID_STEP * key_count(grids, grids.len() as int, k) <= 32,
    ensures
        forall|i: int|
            0 <= i < codes.len() ==> 0 <= #[trigger] value_token(
                codes,
                OFFSET_INSTRUCTIONS,
                CHANNEL_WIDTH,
                i,
            ) < 2048,
        forall|i: int|
            0 <= i < grids.len() ==> 2048 <= #[trigger] grid_token(
                grids,
                OFFSET_MECHS,
                GRID_STEP,
                i,
            ) < 4096,
        forall|t: u16, g: Grid| #[trigger] op_token(t, g, OFFSET_OPERATORS) >= 4096,
{
    assert forall|i: int| 0 <= i < codes.len() implies 0 <= #[trigger] value_token(
        codes,
        OFFSET_INSTRUCTIONS,
        CHANNEL_WIDTH,
        i,
    ) < 2048 by {
        lemma_occ_count_strict(codes, i, codes.len() as int);
        assert(occ_count(codes, codes.len() as int, codes[i]) <= CHANNEL_WIDTH);
        assert(occ_count(codes, i, codes[i]) <= 127);
        assert(codes[i] * CHANNEL_WIDTH <= 8 * 128 && codes[i] * CHANNEL_WIDTH >= 128)
            by (nonlinear_arith)
            requires
                1 <= codes[i] <= 8,
        ;
    }
    assert forall|i: int| 0 <= i < grids.len() implies 2048 <= #[trigger] grid_token(
        grids,
        OFFSET_MECHS,
        GRID_STEP,
        i,
    ) < 4096 by {
        let ki = grid_key(grids[i]);
        lemma_key_count_strict(grids, i, grids.len() as int);
        assert(GRID_STEP * key_count(grids, grids.len() as int, ki) <= 32);
        assert(key_count(grids, i, ki) <= 31);
        assert(ki >= 0);
    }
    assert forall|t: u16, g: Grid| #[trigger] op_token(t, g, OFFSET_OPERATORS) >= 4096 by {
        assert(t * 256 >= 0 && g.x * 16 >= 0) by (nonlinear_arith);
    }
}

} // verus!
