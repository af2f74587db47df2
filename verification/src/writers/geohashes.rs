//! Adaptive geohash tiling: dense regions get long codes, sparse regions
//! short ones.

use crate::geohash::{
    box_of, cell_box, code_text, code_value, decode_cell, is_binary, is_code,
    lemma_code_prefix_value, lemma_code_text_shape, lemma_code_text_value, lemma_code_value_text,
    parse_code, render_code, BoundingBox, MAX_PRECISION,
};
use crate::sorted::{increasing, sort_distinct};
use vstd::arithmetic::div_mod::{
    lemma_div_denominator, lemma_div_is_ordered, lemma_multiply_divide_lt, lemma_small_mod,
};
use vstd::arithmetic::power2::{lemma_pow2_adds, lemma_pow2_pos, pow2};
use vstd::bits::lemma_u64_shr_is_div;
use vstd::prelude::*;

verus! {

/// The most codes that a tile shorter than the full precision may cover.
pub const MAX_ALLOWED_FEATURES_IN_GEOHASH: usize = 1000;

/// A cell of the geohash grid: the codes that begin with the `len` bits `bits`.
#[derive(Clone, Copy, Debug, PartialEq, Eq, Structural)]
pub struct Cell {
    pub bits: u64,
    pub len: u8,
}

/// The first `len` bits of a code of `precision` bits.
pub open spec fn prefix_bits(value: nat, precision: nat, len: nat) -> nat {
    value / pow2((precision - len) as nat)
}

/// How many of `values` begin with the `len` bits `prefix`.
#[verifier::opaque]
pub open spec fn crowd(values: Set<nat>, precision: nat, len: nat, prefix: nat) -> nat {
    values.filter(|v: nat| prefix_bits(v, precision, len) == prefix).len()
}

/// Whether more than `limit` of `values` share the first `len` bits of `value`.
pub open spec fn crowded(
    values: Set<nat>,
    precision: nat,
    limit: nat,
    value: nat,
    len: nat,
) -> bool {
    crowd(values, precision, len, prefix_bits(value, precision, len)) > limit
}

/// Whether `value` is crowded at every length from 1 up to, not including, `len`.
pub open spec fn unresolved(
    values: Set<nat>,
    precision: nat,
    limit: nat,
    value: nat,
    len: nat,
) -> bool {
    forall|shorter: nat|
        1 <= shorter < len ==> #[trigger] crowded(values, precision, limit, value, shorter)
}

/// Whether `len` is the length of the tile that covers `value`: the least
/// length from 1 at which it is not crowded, or the full precision where it is
/// crowded at every shorter length.
pub open spec fn settles(
    values: Set<nat>,
    precision: nat,
    limit: nat,
    value: nat,
    len: nat,
) -> bool {
    &&& 1 <= len <= precision
    &&& unresolved(values, precision, limit, value, len)
    &&& len < precision ==> !crowded(values, precision, limit, value, len)
}

/// Whether `cell` is the tile that covers `value`.
pub open spec fn tile_of(
    values: Set<nat>,
    precision: nat,
    limit: nat,
    value: nat,
    cell: Cell,
) -> bool {
    &&& settles(values, precision, limit, value, cell.len as nat)
    &&& cell.bits == prefix_bits(value, precision, cell.len as nat)
}

/// Whether `cell` covers `value`: the value begins with the cell's bits.
pub open spec fn covers(cell: Cell, precision: nat, value: nat) -> bool {
    cell.len <= precision && prefix_bits(value, precision, cell.len as nat) == cell.bits
}

/// Whether `a` comes before `b` in a list of tiles: the shorter cell first,
/// and of two cells of one length the one with the smaller bits.
pub open spec fn before(a: Cell, b: Cell) -> bool {
    a.len < b.len || (a.len == b.len && a.bits < b.bits)
}

/// Whether `cells` is in order: shorter cells first, and cells of one
/// length by their bits.
pub open spec fn in_order(cells: Seq<Cell>) -> bool {
    forall|a: int, b: int|
        0 <= a < b < cells.len() ==> before(#[trigger] cells[a], #[trigger] cells[b])
}

/// Whether `cell` is the tile of one of `values`.
pub open spec fn is_tile(values: Set<nat>, precision: nat, limit: nat, cell: Cell) -> bool {
    exists|v: nat| values.contains(v) && #[trigger] tile_of(values, precision, limit, v, cell)
}

/// Whether `cells` holds the tile that covers `value`.
pub open spec fn has_tile(
    cells: Seq<Cell>,
    values: Set<nat>,
    precision: nat,
    limit: nat,
    value: nat,
) -> bool {
    exists|n: int|
        0 <= n < cells.len() && #[trigger] tile_of(values, precision, limit, value, cells[n])
}

/// Whether `cells` lists, each once and in order, the tiles of `values` and
/// nothing else.
pub open spec fn tiling(cells: Seq<Cell>, values: Set<nat>, precision: nat, limit: nat) -> bool {
    &&& in_order(cells)
    &&& cells.no_duplicates()
    &&& forall|n: int|
        0 <= n < cells.len() ==> #[trigger] is_tile(values, precision, limit, cells[n])
    &&& forall|v: nat|
        values.contains(v) ==> #[trigger] has_tile(cells, values, precision, limit, v)
}

/// Values with the same first `len` bits have the same shorter prefixes.
pub proof fn lemma_prefix_of_prefix(x: nat, y: nat, precision: nat, len: nat, shorter: nat)
    requires
        shorter <= len <= precision,
        prefix_bits(x, precision, len) == prefix_bits(y, precision, len),
    ensures
        prefix_bits(x, precision, shorter) == prefix_bits(y, precision, shorter),
{
    let low = pow2((precision - len) as nat);
    let high = pow2((len - shorter) as nat);
    lemma_pow2_pos((precision - len) as nat);
    lemma_pow2_pos((len - shorter) as nat);
    lemma_pow2_adds((precision - len) as nat, (len - shorter) as nat);
    lemma_div_denominator(x as int, low as int, high as int);
    lemma_div_denominator(y as int, low as int, high as int);
}

/// Values with the same first `len` bits are crowded at the same lengths up
/// to `len`.
pub proof fn lemma_shared_fate(
    values: Set<nat>,
    precision: nat,
    limit: nat,
    x: nat,
    y: nat,
    len: nat,
)
    requires
        len <= precision,
        prefix_bits(x, precision, len) == prefix_bits(y, precision, len),
    ensures
        forall|shorter: nat|
            shorter <= len ==> #[trigger] crowded(values, precision, limit, x, shorter) == crowded(
                values,
                precision,
                limit,
                y,
                shorter,
            ),
        unresolved(values, precision, limit, x, len) == unresolved(
            values,
            precision,
            limit,
            y,
            len,
        ),
{
    assert forall|shorter: nat| shorter <= len implies #[trigger] crowded(
        values,
        precision,
        limit,
        x,
        shorter,
    ) == crowded(values, precision, limit, y, shorter) by {
        lemma_prefix_of_prefix(x, y, precision, len, shorter);
    }
    if unresolved(values, precision, limit, x, len) {
        assert forall|shorter: nat| 1 <= shorter < len implies #[trigger] crowded(
            values,
            precision,
            limit,
            y,
            shorter,
        ) by {
            assert(crowded(values, precision, limit, x, shorter));
        }
    }
    if unresolved(values, precision, limit, y, len) {
        assert forall|shorter: nat| 1 <= shorter < len implies #[trigger] crowded(
            values,
            precision,
            limit,
            x,
            shorter,
        ) by {
            assert(crowded(values, precision, limit, y, shorter));
        }
    }
}

/// A larger value has no smaller prefix.
pub proof fn lemma_prefix_monotone(x: nat, y: nat, precision: nat, len: nat)
    requires
        x <= y,
    ensures
        prefix_bits(x, precision, len) <= prefix_bits(y, precision, len),
{
    lemma_pow2_pos((precision - len) as nat);
    lemma_div_is_ordered(x as int, y as int, pow2((precision - len) as nat) as int);
}

/// Every value has at most one tile.
pub proof fn lemma_tile_unique(
    values: Set<nat>,
    precision: nat,
    limit: nat,
    value: nat,
    a: Cell,
    b: Cell,
)
    requires
        tile_of(values, precision, limit, value, a),
        tile_of(values, precision, limit, value, b),
    ensures
        a == b,
{
    if a.len < b.len {
        assert(crowded(values, precision, limit, value, a.len as nat));
    }
    if b.len < a.len {
        assert(crowded(values, precision, limit, value, b.len as nat));
    }
}

/// The tile of a value covers a second value only where it is the tile of
/// that one too: the tiles of a set of codes part it.
pub proof fn lemma_tiles_part(
    values: Set<nat>,
    precision: nat,
    limit: nat,
    x: nat,
    y: nat,
    cell: Cell,
)
    requires
        tile_of(values, precision, limit, x, cell),
        covers(cell, precision, y),
    ensures
        tile_of(values, precision, limit, y, cell),
{
    lemma_shared_fate(values, precision, limit, x, y, cell.len as nat);
    assert(crowded(values, precision, limit, x, cell.len as nat) == crowded(
        values,
        precision,
        limit,
        y,
        cell.len as nat,
    ));
}

/// The values of `pool`, as a set.
pub open spec fn value_set(pool: Seq<u64>) -> Set<nat> {
    Set::new(|v: nat| exists|m: int| 0 <= m < pool.len() && #[trigger] pool[m] == v)
}

/// Whether `pool` lists, in increasing order, those of `values` that are
/// unresolved at `len`.
pub open spec fn pool_at(
    pool: Seq<u64>,
    values: Set<nat>,
    precision: nat,
    limit: nat,
    len: nat,
) -> bool {
    &&& increasing(pool)
    &&& forall|m: int|
        0 <= m < pool.len() ==> values.contains(#[trigger] pool[m] as nat) && unresolved(
            values,
            precision,
            limit,
            pool[m] as nat,
            len,
        )
    &&& forall|v: nat| #[trigger]
        values.contains(v) && unresolved(values, precision, limit, v, len) ==> exists|m: int|
            0 <= m < pool.len() && #[trigger] pool[m] == v
}

/// Whether `cells` lists, each once, the tiles shorter than `len` of `values`.
pub open spec fn cells_at(
    cells: Seq<Cell>,
    values: Set<nat>,
    precision: nat,
    limit: nat,
    len: nat,
) -> bool {
    &&& in_order(cells)
    &&& cells.no_duplicates()
    &&& forall|n: int|
        0 <= n < cells.len() ==> (#[trigger] cells[n]).len < len && is_tile(
            values,
            precision,
            limit,
            cells[n],
        )
    &&& forall|v: nat| #[trigger]
        values.contains(v) ==> unresolved(values, precision, limit, v, len) || has_tile(
            cells,
            values,
            precision,
            limit,
            v,
        )
}

/// Whether the items of `pool` from `start` up to `end` are all those that
/// share the first `len` bits of `pool[start]`.
pub open spec fn is_run(pool: Seq<u64>, precision: nat, len: nat, start: int, end: int) -> bool {
    &&& 0 <= start < end <= pool.len()
    &&& forall|m: int|
        start <= m < end ==> prefix_bits(#[trigger] pool[m] as nat, precision, len) == prefix_bits(
            pool[start] as nat,
            precision,
            len,
        )
    &&& start > 0 ==> prefix_bits(pool[start - 1] as nat, precision, len) != prefix_bits(
        pool[start] as nat,
        precision,
        len,
    )
    &&& end < pool.len() ==> prefix_bits(pool[end] as nat, precision, len) != prefix_bits(
        pool[start] as nat,
        precision,
        len,
    )
}

/// In a pool of the values unresolved at `len`, a run is as long as the
/// crowd of its prefix among all the values.
proof fn lemma_crowd_of_run(
    pool: Seq<u64>,
    values: Set<nat>,
    precision: nat,
    limit: nat,
    len: nat,
    start: int,
    end: int,
)
    requires
        pool_at(pool, values, precision, limit, len),
        1 <= len <= precision,
        is_run(pool, precision, len, start, end),
    ensures
        crowd(values, precision, len, prefix_bits(pool[start] as nat, precision, len)) == end
            - start,
{
    reveal(crowd);
    let prefix = prefix_bits(pool[start] as nat, precision, len);
    let group = values.filter(|v: nat| prefix_bits(v, precision, len) == prefix);
    let run = Seq::new((end - start) as nat, |t: int| pool[start + t] as nat);
    assert(run.no_duplicates()) by {
        assert forall|a: int, b: int| 0 <= a < run.len() && 0 <= b < run.len() && a != b implies run[a]
            != run[b] by {
            if a < b {
                assert(pool[start + a] < pool[start + b]);
            } else {
                assert(pool[start + b] < pool[start + a]);
            }
        }
    }
    assert forall|v: nat| run.to_set().contains(v) <==> group.contains(v) by {
        if run.to_set().contains(v) {
            let t = choose|t: int| 0 <= t < run.len() && run[t] == v;
            assert(pool[start + t] == v);
        }
        if group.contains(v) {
            lemma_shared_fate(values, precision, limit, pool[start] as nat, v, len);
            let m = choose|m: int| 0 <= m < pool.len() && #[trigger] pool[m] == v;
            if m < start {
                lemma_prefix_monotone(pool[m] as nat, pool[start - 1] as nat, precision, len);
                lemma_prefix_monotone(pool[start - 1] as nat, pool[start] as nat, precision, len);
            }
            if m >= end {
                lemma_prefix_monotone(pool[end] as nat, pool[m] as nat, precision, len);
                lemma_prefix_monotone(pool[start] as nat, pool[end] as nat, precision, len);
            }
            assert(run[m - start] == v);
        }
    }
    assert(run.to_set() =~= group);
    run.unique_seq_to_set();
}

/// The first `len` bits of `value`.
fn prefix_of(value: u64, precision: u8, len: u8) -> (prefix: u64)
    requires
        1 <= len <= precision <= MAX_PRECISION,
    ensures
        prefix == prefix_bits(value as nat, precision as nat, len as nat),
{
    let shift: u64 = (precision - len) as u64;
    proof {
        lemma_u64_shr_is_div(value, shift);
    }
    value >> shift
}

/// Where the run that begins at `start` ends.
fn run_end(pool: &Vec<u64>, precision: u8, len: u8, start: usize) -> (end: usize)
    requires
        1 <= len <= precision <= MAX_PRECISION,
        start < pool.len(),
        start > 0 ==> prefix_bits(pool[start - 1] as nat, precision as nat, len as nat)
            != prefix_bits(pool[start as int] as nat, precision as nat, len as nat),
    ensures
        is_run(pool@, precision as nat, len as nat, start as int, end as int),
{
    let prefix = prefix_of(pool[start], precision, len);
    let mut end = start + 1;
    while end < pool.len() && prefix_of(pool[end], precision, len) == prefix
        invariant
            1 <= len <= precision <= MAX_PRECISION,
            start < end <= pool.len(),
            prefix == prefix_bits(pool[start as int] as nat, precision as nat, len as nat),
            forall|m: int|
                start <= m < end ==> prefix_bits(
                    #[trigger] pool[m] as nat,
                    precision as nat,
                    len as nat,
                ) == prefix,
        decreases pool.len() - end,
    {
        end = end + 1;
    }
    end
}

/// Whether `x` is one of the first `count` items of `pool` and crowded at `len`.
pub open spec fn kept(
    pool: Seq<u64>,
    count: int,
    values: Set<nat>,
    precision: nat,
    limit: nat,
    len: nat,
    x: u64,
) -> bool {
    exists|m: int|
        0 <= m < count && #[trigger] pool[m] == x && crowded(
            values,
            precision,
            limit,
            x as nat,
            len,
        )
}

/// One level of the tiling: of the runs of `pool` at `len`, those of at most
/// `limit` values become tiles, and the values of the others are handed back.
fn split_level(
    pool: &Vec<u64>,
    precision: u8,
    len: u8,
    limit: usize,
    cells: &mut Vec<Cell>,
    Ghost(values): Ghost<Set<nat>>,
) -> (rest: Vec<u64>)
    requires
        1 <= len < precision <= MAX_PRECISION,
        pool_at(pool@, values, precision as nat, limit as nat, len as nat),
        cells_at(old(cells)@, values, precision as nat, limit as nat, len as nat),
    ensures
        pool_at(rest@, values, precision as nat, limit as nat, (len + 1) as nat),
        cells_at(final(cells)@, values, precision as nat, limit as nat, (len + 1) as nat),
{
    let ghost p = precision as nat;
    let ghost t = limit as nat;
    let ghost l = len as nat;
    let mut rest: Vec<u64> = Vec::new();
    let mut start: usize = 0;
    while start < pool.len()
        invariant
            start <= pool.len(),
            1 <= len < precision <= MAX_PRECISION,
            p == precision,
            t == limit,
            l == len,
            pool_at(pool@, values, p, t, l),
            0 < start < pool.len() ==> prefix_bits(pool[start - 1] as nat, p, l) != prefix_bits(
                pool[start as int] as nat,
                p,
                l,
            ),
            increasing(rest@),
            forall|n: int|
                0 <= n < rest.len() ==> kept(pool@, start as int, values, p, t, l, #[trigger] rest[n]),
            forall|m: int|
                0 <= m < start && crowded(values, p, t, #[trigger] pool[m] as nat, l)
                    ==> rest@.contains(pool[m]),
            in_order(cells@),
            cells@.no_duplicates(),
            forall|n: int|
                0 <= n < cells.len() ==> (#[trigger] cells[n]).len <= len && is_tile(
                    values,
                    p,
                    t,
                    cells[n],
                ),
            forall|n: int|
                0 <= n < cells.len() && (#[trigger] cells[n]).len == len ==> exists|m: int|
                    0 <= m < start && prefix_bits(#[trigger] pool[m] as nat, p, l) == cells[n].bits,
            forall|v: nat| #[trigger]
                values.contains(v) ==> unresolved(values, p, t, v, l) || has_tile(
                    cells@,
                    values,
                    p,
                    t,
                    v,
                ),
            forall|m: int|
                0 <= m < start ==> crowded(values, p, t, #[trigger] pool[m] as nat, l) || has_tile(
                    cells@,
                    values,
                    p,
                    t,
                    pool[m] as nat,
                ),
        decreases pool.len() - start,
    {
        let prefix = prefix_of(pool[start], precision, len);
        let end = run_end(pool, precision, len, start);
        let ghost old_cells = cells@;
        let ghost old_rest = rest@;
        proof {
            lemma_crowd_of_run(pool@, values, p, t, l, start as int, end as int);
            assert forall|m: int| start <= m < end implies crowded(
                values,
                p,
                t,
                #[trigger] pool[m] as nat,
                l,
            ) == (end - start > limit) by {}
        }
        if end - start <= limit {
            let cell = Cell { bits: prefix, len };
            cells.push(cell);
            proof {
                assert(tile_of(values, p, t, pool[start as int] as nat, cell));
                lemma_pushed_tile(old_cells, cell, values, p, t);
                assert forall|n: int| 0 <= n < rest.len() implies kept(
                    pool@,
                    end as int,
                    values,
                    p,
                    t,
                    l,
                    #[trigger] rest[n],
                ) by {
                    assert(kept(pool@, start as int, values, p, t, l, rest[n]));
                    let m = choose|m: int|
                        0 <= m < start && #[trigger] pool[m] == rest[n] && crowded(
                            values,
                            p,
                            t,
                            rest[n] as nat,
                            l,
                        );
                    assert(0 <= m < end && pool[m] == rest[n]);
                }
                assert forall|n: int| 0 <= n < old_cells.len() implies before(
                    old_cells[n],
                    cell,
                ) by {
                    if old_cells[n].len == len {
                        let m = choose|m: int|
                            0 <= m < start && prefix_bits(#[trigger] pool[m] as nat, p, l)
                                == old_cells[n].bits;
                        lemma_prefix_monotone(pool[m] as nat, pool[start - 1] as nat, p, l);
                        lemma_prefix_monotone(
                            pool[start - 1] as nat,
                            pool[start as int] as nat,
                            p,
                            l,
                        );
                    }
                }
                assert forall|m: int| 0 <= m < end implies crowded(
                    values,
                    p,
                    t,
                    #[trigger] pool[m] as nat,
                    l,
                ) || has_tile(cells@, values, p, t, pool[m] as nat) by {
                    if m >= start {
                        assert(tile_of(values, p, t, pool[m] as nat, cells@[old_cells.len() as int]));
                    }
                }
                assert forall|n: int|
                    0 <= n < cells.len() && (#[trigger] cells[n]).len == len implies exists|m: int|
                    0 <= m < end && prefix_bits(#[trigger] pool[m] as nat, p, l)
                        == cells[n].bits by {
                    if n < old_cells.len() {
                        let m = choose|m: int|
                            0 <= m < start && prefix_bits(#[trigger] pool[m] as nat, p, l)
                                == old_cells[n].bits;
                        assert(0 <= m < end && prefix_bits(pool[m] as nat, p, l) == cells[n].bits);
                    } else {
                        assert(prefix_bits(pool[start as int] as nat, p, l) == cells[n].bits);
                    }
                }
            }
        } else {
            let mut m = start;
            while m < end
                invariant
                    start <= m <= end <= pool.len(),
                    rest@ == old_rest + pool@.subrange(start as int, m as int),
                decreases end - m,
            {
                rest.push(pool[m]);
                m = m + 1;
                assert(rest@ =~= old_rest + pool@.subrange(start as int, m as int));
            }
            proof {
                let run = pool@.subrange(start as int, end as int);
                assert forall|a: int, b: int| 0 <= a < b < rest.len() implies rest[a] < rest[b] by {
                    if a < old_rest.len() && b >= old_rest.len() {
                        assert(kept(pool@, start as int, values, p, t, l, old_rest[a]));
                        let m = choose|m: int|
                            0 <= m < start && #[trigger] pool[m] == old_rest[a] && crowded(
                                values,
                                p,
                                t,
                                old_rest[a] as nat,
                                l,
                            );
                        assert(rest[b] == pool[start + (b - old_rest.len())]);
                    } else if a >= old_rest.len() {
                        assert(rest[a] == pool[start + (a - old_rest.len())]);
                        assert(rest[b] == pool[start + (b - old_rest.len())]);
                    } else {
                        assert(rest[a] == old_rest[a] && rest[b] == old_rest[b]);
                    }
                }
                assert forall|n: int| 0 <= n < rest.len() implies kept(
                    pool@,
                    end as int,
                    values,
                    p,
                    t,
                    l,
                    #[trigger] rest[n],
                ) by {
                    if n < old_rest.len() {
                        assert(kept(pool@, start as int, values, p, t, l, old_rest[n]));
                        let m = choose|m: int|
                            0 <= m < start && #[trigger] pool[m] == old_rest[n] && crowded(
                                values,
                                p,
                                t,
                                old_rest[n] as nat,
                                l,
                            );
                        assert(0 <= m < end && pool[m] == rest[n]);
                    } else {
                        let m = start + (n - old_rest.len());
                        assert(0 <= m < end && pool[m] == rest[n]);
                    }
                }
                assert forall|m: int|
                    0 <= m < end && crowded(
                        values,
                        p,
                        t,
                        #[trigger] pool[m] as nat,
                        l,
                    ) implies rest@.contains(pool[m]) by {
                    if m < start {
                        let n = choose|n: int| 0 <= n < old_rest.len() && old_rest[n] == pool[m];
                        assert(rest[n] == pool[m]);
                    } else {
                        assert(rest[old_rest.len() + (m - start)] == pool[m]);
                    }
                }
            }
        }
        start = end;
    }
    proof {
        let next = (len + 1) as nat;
        assert forall|n: int| 0 <= n < rest.len() implies values.contains(
            #[trigger] rest[n] as nat,
        ) && unresolved(values, p, t, rest[n] as nat, next) by {
            assert(kept(pool@, start as int, values, p, t, l, rest[n]));
            let m = choose|m: int|
                0 <= m < start && #[trigger] pool[m] == rest[n] && crowded(
                    values,
                    p,
                    t,
                    rest[n] as nat,
                    l,
                );
            lemma_unresolved_step(values, p, t, rest[n] as nat, l);
        }
        assert forall|v: nat| #[trigger]
            values.contains(v) && unresolved(values, p, t, v, next) implies exists|n: int|
            0 <= n < rest.len() && #[trigger] rest[n] == v by {
            lemma_unresolved_step(values, p, t, v, l);
            let m = choose|m: int| 0 <= m < pool.len() && #[trigger] pool[m] == v;
            assert(rest@.contains(pool[m]));
            let n = choose|n: int| 0 <= n < rest.len() && rest[n] == pool[m];
            assert(rest[n] == v);
        }
        assert forall|v: nat| #[trigger] values.contains(v) implies unresolved(
            values,
            p,
            t,
            v,
            next,
        ) || has_tile(cells@, values, p, t, v) by {
            lemma_unresolved_step(values, p, t, v, l);
            if unresolved(values, p, t, v, l) && !crowded(values, p, t, v, l) {
                let m = choose|m: int| 0 <= m < pool.len() && #[trigger] pool[m] == v;
                assert(has_tile(cells@, values, p, t, pool[m] as nat));
            }
        }
    }
    rest
}

/// A value is unresolved at the next length where it is unresolved and
/// crowded at this one.
proof fn lemma_unresolved_step(values: Set<nat>, precision: nat, limit: nat, value: nat, len: nat)
    ensures
        unresolved(values, precision, limit, value, len + 1) <==> unresolved(
            values,
            precision,
            limit,
            value,
            len,
        ) && (len >= 1 ==> crowded(values, precision, limit, value, len)),
{
    if unresolved(values, precision, limit, value, len + 1) {
        assert forall|shorter: nat| 1 <= shorter < len implies #[trigger] crowded(
            values,
            precision,
            limit,
            value,
            shorter,
        ) by {}
        if len >= 1 {
            assert(crowded(values, precision, limit, value, len));
        }
    }
}

/// A tile pushed onto a list that lacks it keeps the list free of
/// repetition, and what was in the list stays in it.
proof fn lemma_pushed_tile(
    cells: Seq<Cell>,
    cell: Cell,
    values: Set<nat>,
    precision: nat,
    limit: nat,
)
    ensures
        forall|v: nat|
            has_tile(cells, values, precision, limit, v) ==> #[trigger] has_tile(
                cells.push(cell),
                values,
                precision,
                limit,
                v,
            ),
        cells.no_duplicates() && (forall|n: int| 0 <= n < cells.len() ==> cells[n] != cell)
            ==> cells.push(cell).no_duplicates(),
        in_order(cells) && (forall|n: int| 0 <= n < cells.len() ==> before(cells[n], cell))
            ==> in_order(cells.push(cell)),
{
    let pushed = cells.push(cell);
    assert forall|v: nat| has_tile(cells, values, precision, limit, v) implies #[trigger] has_tile(
        pushed,
        values,
        precision,
        limit,
        v,
    ) by {
        let n = choose|n: int|
            0 <= n < cells.len() && #[trigger] tile_of(values, precision, limit, v, cells[n]);
        assert(tile_of(values, precision, limit, v, pushed[n]));
    }
}

/// The tiles of `values`: level by level from length 1, the runs of at most
/// `limit` values become tiles; what is left at the full precision becomes a
/// tile each.
fn tile_values(values: &Vec<u64>, precision: u8, limit: usize) -> (cells: Vec<Cell>)
    requires
        1 <= precision <= MAX_PRECISION,
    ensures
        tiling(cells@, value_set(values@), precision as nat, limit as nat),
{
    let ghost all = value_set(values@);
    let ghost p = precision as nat;
    let ghost t = limit as nat;
    let mut pool = sort_distinct(values);
    let mut cells: Vec<Cell> = Vec::new();
    proof {
        assert forall|m: int| 0 <= m < pool.len() implies all.contains(#[trigger] pool[m] as nat) by {
            assert(pool@.contains(pool[m]));
            let k = choose|k: int| 0 <= k < values.len() && values[k] == pool[m];
            assert(values[k] == pool[m] as nat);
        }
        assert forall|v: nat| #[trigger] all.contains(v) implies exists|m: int|
            0 <= m < pool.len() && #[trigger] pool[m] == v by {
            let k = choose|k: int| 0 <= k < values.len() && #[trigger] values[k] == v;
            assert(values@.contains(values[k]));
            let m = choose|m: int| 0 <= m < pool.len() && pool[m] == values[k];
            assert(pool[m] == v);
        }
    }
    let mut len: u8 = 1;
    while len < precision
        invariant
            1 <= len <= precision <= MAX_PRECISION,
            p == precision,
            t == limit,
            pool_at(pool@, all, p, t, len as nat),
            cells_at(cells@, all, p, t, len as nat),
        decreases precision - len,
    {
        pool = split_level(&pool, precision, len, limit, &mut cells, Ghost(all));
        len = len + 1;
    }
    let mut m: usize = 0;
    while m < pool.len()
        invariant
            m <= pool.len(),
            1 <= precision <= MAX_PRECISION,
            p == precision,
            t == limit,
            pool_at(pool@, all, p, t, p),
            in_order(cells@),
            cells@.no_duplicates(),
            forall|n: int|
                0 <= n < cells.len() ==> is_tile(all, p, t, #[trigger] cells[n]) && (cells[n].len
                    == precision ==> exists|k: int| 0 <= k < m && #[trigger] pool[k] == cells[n].bits),
            forall|v: nat| #[trigger]
                all.contains(v) ==> unresolved(all, p, t, v, p) || has_tile(cells@, all, p, t, v),
            forall|k: int| 0 <= k < m ==> has_tile(cells@, all, p, t, #[trigger] pool[k] as nat),
        decreases pool.len() - m,
    {
        let cell = Cell { bits: pool[m], len: precision };
        let ghost old_cells = cells@;
        cells.push(cell);
        proof {
            assert(pow2(0) == 1) by {
                vstd::arithmetic::power2::lemma2_to64();
            }
            let v = pool[m as int] as nat;
            assert(unresolved(all, p, t, v, p));
            assert(prefix_bits(v, p, p) == v) by {
                assert((p - p) as nat == 0);
                assert(v / 1 == v);
            }
            assert(settles(all, p, t, v, p));
            assert(tile_of(all, p, t, v, cell));
            lemma_pushed_tile(old_cells, cell, all, p, t);
            assert forall|n: int| 0 <= n < old_cells.len() implies before(old_cells[n], cell) by {
                if old_cells[n].len == precision {
                    let k = choose|k: int| 0 <= k < m && #[trigger] pool[k] == old_cells[n].bits;
                    assert(pool[k] < pool[m as int]);
                }
            }
            assert forall|n: int| 0 <= n < cells.len() implies is_tile(all, p, t, #[trigger] cells[n])
                && (cells[n].len == precision ==> exists|k: int|
                0 <= k < m + 1 && #[trigger] pool[k] == cells[n].bits) by {
                if n < old_cells.len() {
                    assert(cells[n] == old_cells[n]);
                    if cells[n].len == precision {
                        let k = choose|k: int| 0 <= k < m && #[trigger] pool[k] == old_cells[n].bits;
                        assert(0 <= k < m + 1 && pool[k] == cells[n].bits);
                    }
                } else {
                    assert(pool[m as int] == cells[n].bits);
                }
            }
            assert forall|k: int| 0 <= k < m + 1 implies has_tile(
                cells@,
                all,
                p,
                t,
                #[trigger] pool[k] as nat,
            ) by {
                if k == m {
                    assert(tile_of(all, p, t, pool[k] as nat, cells@[old_cells.len() as int]));
                }
            }
        }
        m = m + 1;
    }
    proof {
        assert forall|v: nat| #[trigger] all.contains(v) implies has_tile(cells@, all, p, t, v) by {
            if unresolved(all, p, t, v, p) {
                let k = choose|k: int| 0 <= k < pool.len() && #[trigger] pool[k] == v;
                assert(has_tile(cells@, all, p, t, pool[k] as nat));
            }
        }
    }
    cells
}

/// The tiles of a set of codes part it: each code is covered by one tile
/// and no other; a tile shorter than the full precision covers at most
/// `limit` codes; a tile of the full precision covers a code that more than
/// `limit` codes share every proper prefix of.
pub open spec fn parts(cells: Seq<Cell>, values: Set<nat>, precision: nat, limit: nat) -> bool {
    &&& forall|v: nat| #[trigger]
        values.contains(v) ==> exists|n: int|
            0 <= n < cells.len() && covers(#[trigger] cells[n], precision, v)
    &&& forall|v: nat, a: int, b: int|
        values.contains(v) && 0 <= a < cells.len() && 0 <= b < cells.len() && #[trigger] covers(
            cells[a],
            precision,
            v,
        ) && #[trigger] covers(cells[b], precision, v) ==> a == b
    &&& forall|n: int|
        0 <= n < cells.len() && (#[trigger] cells[n]).len < precision ==> crowd(
            values,
            precision,
            cells[n].len as nat,
            cells[n].bits as nat,
        ) <= limit
    &&& forall|n: int, shorter: nat|
        0 <= n < cells.len() && cells[n].len == precision && 1 <= shorter < precision
            ==> #[trigger] crowd(
            values,
            precision,
            shorter,
            prefix_bits(cells[n].bits as nat, precision, shorter),
        ) > limit
}

/// In a tiling, the tiles that cover one value are one tile.
proof fn lemma_one_cover(
    cells: Seq<Cell>,
    values: Set<nat>,
    precision: nat,
    limit: nat,
    v: nat,
    a: int,
    b: int,
)
    requires
        tiling(cells, values, precision, limit),
        0 <= a < cells.len(),
        0 <= b < cells.len(),
        covers(cells[a], precision, v),
        covers(cells[b], precision, v),
    ensures
        a == b,
{
    assert(is_tile(values, precision, limit, cells[a]));
    assert(is_tile(values, precision, limit, cells[b]));
    let x = choose|x: nat|
        values.contains(x) && #[trigger] tile_of(values, precision, limit, x, cells[a]);
    let y = choose|y: nat|
        values.contains(y) && #[trigger] tile_of(values, precision, limit, y, cells[b]);
    lemma_tiles_part(values, precision, limit, x, v, cells[a]);
    lemma_tiles_part(values, precision, limit, y, v, cells[b]);
    lemma_tile_unique(values, precision, limit, v, cells[a], cells[b]);
}

/// A tile of the full precision is a value that is crowded at every shorter
/// length.
proof fn lemma_full_tile(
    values: Set<nat>,
    precision: nat,
    limit: nat,
    cell: Cell,
    shorter: nat,
)
    requires
        is_tile(values, precision, limit, cell),
        cell.len == precision,
        1 <= shorter < precision,
    ensures
        crowd(values, precision, shorter, prefix_bits(cell.bits as nat, precision, shorter))
            > limit,
{
    let x = choose|x: nat|
        values.contains(x) && #[trigger] tile_of(values, precision, limit, x, cell);
    assert(pow2(0) == 1) by {
        vstd::arithmetic::power2::lemma2_to64();
    }
    assert((precision - precision) as nat == 0);
    assert(x / 1 == x);
    assert(cell.bits == x);
    assert(crowded(values, precision, limit, x, shorter));
}

/// In a tiling, every value is covered by a tile.
proof fn lemma_covered(cells: Seq<Cell>, values: Set<nat>, precision: nat, limit: nat, v: nat)
    requires
        tiling(cells, values, precision, limit),
        values.contains(v),
    ensures
        exists|n: int| 0 <= n < cells.len() && covers(#[trigger] cells[n], precision, v),
{
    assert(has_tile(cells, values, precision, limit, v));
    let n = choose|n: int|
        0 <= n < cells.len() && #[trigger] tile_of(values, precision, limit, v, cells[n]);
    assert(covers(cells[n], precision, v));
}

/// A tile shorter than the full precision covers at most `limit` values.
proof fn lemma_short_tile(values: Set<nat>, precision: nat, limit: nat, cell: Cell)
    requires
        is_tile(values, precision, limit, cell),
        cell.len < precision,
    ensures
        crowd(values, precision, cell.len as nat, cell.bits as nat) <= limit,
{
    let x = choose|x: nat|
        values.contains(x) && #[trigger] tile_of(values, precision, limit, x, cell);
    assert(!crowded(values, precision, limit, x, cell.len as nat));
}

/// A tiling parts the codes it was made of.
pub proof fn lemma_tiling_parts(cells: Seq<Cell>, values: Set<nat>, precision: nat, limit: nat)
    requires
        tiling(cells, values, precision, limit),
    ensures
        parts(cells, values, precision, limit),
{
    assert forall|v: nat| #[trigger] values.contains(v) implies exists|n: int|
        0 <= n < cells.len() && covers(#[trigger] cells[n], precision, v) by {
        lemma_covered(cells, values, precision, limit, v);
    }
    assert forall|v: nat, a: int, b: int|
        values.contains(v) && 0 <= a < cells.len() && 0 <= b < cells.len() && #[trigger] covers(
            cells[a],
            precision,
            v,
        ) && #[trigger] covers(cells[b], precision, v) implies a == b by {
        lemma_one_cover(cells, values, precision, limit, v, a, b);
    }
    assert forall|n: int| 0 <= n < cells.len() && (#[trigger] cells[n]).len < precision implies crowd(
        values,
        precision,
        cells[n].len as nat,
        cells[n].bits as nat,
    ) <= limit by {
        lemma_short_tile(values, precision, limit, cells[n]);
    }
    assert forall|n: int, shorter: nat|
        0 <= n < cells.len() && cells[n].len == precision && 1 <= shorter
            < precision implies #[trigger] crowd(
        values,
        precision,
        shorter,
        prefix_bits(cells[n].bits as nat, precision, shorter),
    ) > limit by {
        lemma_full_tile(values, precision, limit, cells[n], shorter);
    }
}

/// A tile of the index: a binary geohash code and the box it stands for.
#[derive(Clone, Debug)]
pub struct Tile {
    pub code: String,
    pub bounding_box: BoundingBox,
}

impl Tile {
    /// The cell that the tile's code spells.
    pub open spec fn cell(&self) -> Cell {
        Cell { bits: code_value(self.code@) as u64, len: self.code@.len() as u8 }
    }
}

/// Why a list of codes could not be tiled.
#[derive(Clone, Copy, Debug, PartialEq, Eq, Structural)]
pub enum TilingError {
    /// The precision is under 2, so that no level is left to split at, or
    /// over the 64 bits that a code can hold.
    Precision,
    /// The code at this index is not a binary code of the precision given.
    MalformedCode(usize),
}

/// The cells that the codes of `tiles` spell.
pub open spec fn cells_of(tiles: Seq<Tile>) -> Seq<Cell> {
    Seq::new(tiles.len(), |n: int| tiles[n].cell())
}

/// The numbers that `codes` spell, as a set.
pub open spec fn code_values(codes: Seq<String>) -> Set<nat> {
    Set::new(
        |v: nat| exists|k: int| 0 <= k < codes.len() && code_value((#[trigger] codes[k])@) == v,
    )
}

/// A cell covers the value of a binary code where the code begins with the
/// text of the cell's bits, and only there.
pub proof fn lemma_covers_is_prefix(code: Seq<char>, cell: Cell)
    requires
        is_binary(code),
        cell.len <= code.len(),
        cell.bits < pow2(cell.len as nat),
    ensures
        covers(cell, code.len(), code_value(code)) <==> code_text(
            cell.bits as nat,
            cell.len as nat,
        ).is_prefix_of(code),
{
    let head = code.take(cell.len as int);
    let text = code_text(cell.bits as nat, cell.len as nat);
    lemma_code_prefix_value(code, cell.len as nat);
    lemma_code_text_shape(cell.bits as nat, cell.len as nat);
    lemma_code_text_value(cell.bits as nat, cell.len as nat);
    lemma_small_mod(cell.bits as nat, pow2(cell.len as nat));
    assert(is_binary(head));
    lemma_code_value_text(head);
    assert(head =~= code.subrange(0, cell.len as int));
}

/// Whether `code` begins with `head`.
pub open spec fn begins_with(code: Seq<char>, head: Seq<char>) -> bool {
    head.is_prefix_of(code)
}

/// Whether `code` begins with the code of one of `tiles`.
pub open spec fn has_head(tiles: Seq<Tile>, code: Seq<char>) -> bool {
    exists|n: int| 0 <= n < tiles.len() && #[trigger] begins_with(code, tiles[n].code@)
}

/// Whether `code` begins with the code of one of `tiles` and of no other.
pub open spec fn has_one_head(tiles: Seq<Tile>, code: Seq<char>) -> bool {
    &&& has_head(tiles, code)
    &&& forall|a: int, b: int|
        0 <= a < tiles.len() && 0 <= b < tiles.len() && #[trigger] begins_with(
            code,
            tiles[a].code@,
        ) && #[trigger] begins_with(code, tiles[b].code@) ==> a == b
}

/// Whether every one of `codes` begins with the code of one of `tiles` and
/// of no other.
pub open spec fn codes_parted(tiles: Seq<Tile>, codes: Seq<String>) -> bool {
    forall|k: int| 0 <= k < codes.len() ==> has_one_head(tiles, (#[trigger] codes[k])@)
}

/// Where the cells of the tiles part the values of the codes, the codes of
/// the tiles part the codes.
proof fn lemma_codes_parted(tiles: Seq<Tile>, codes: Seq<String>, precision: nat, limit: nat)
    requires
        parts(cells_of(tiles), code_values(codes), precision, limit),
        precision <= MAX_PRECISION,
        forall|k: int| 0 <= k < codes.len() ==> is_code((#[trigger] codes[k])@, precision),
        forall|n: int|
            0 <= n < tiles.len() ==> is_binary((#[trigger] tiles[n]).code@) && tiles[n].code@.len()
                <= precision,
    ensures
        codes_parted(tiles, codes),
{
    let cells = cells_of(tiles);
    let values = code_values(codes);
    assert forall|k: int, n: int| 0 <= k < codes.len() && 0 <= n < tiles.len() implies (begins_with(
        codes[k]@,
        tiles[n].code@,
    ) <==> covers(cells[n], precision, code_value(codes[k]@))) by {
        lemma_tile_text(tiles[n]);
        lemma_covers_is_prefix(codes[k]@, cells[n]);
    }
    assert forall|k: int| 0 <= k < codes.len() implies has_one_head(
        tiles,
        (#[trigger] codes[k])@,
    ) by {
        let code = codes[k]@;
        let v = code_value(code);
        assert(values.contains(v));
        let n = choose|n: int| 0 <= n < cells.len() && covers(#[trigger] cells[n], precision, v);
        assert(begins_with(code, tiles[n].code@));
        assert forall|a: int, b: int|
            0 <= a < tiles.len() && 0 <= b < tiles.len() && #[trigger] begins_with(
                code,
                tiles[a].code@,
            ) && #[trigger] begins_with(code, tiles[b].code@) implies a == b by {
            assert(covers(cells[a], precision, v));
            assert(covers(cells[b], precision, v));
        }
    }
}

/// The code of a tile is the text of its cell.
proof fn lemma_tile_text(tile: Tile)
    requires
        is_binary(tile.code@),
        tile.code@.len() <= MAX_PRECISION,
    ensures
        tile.code@ == code_text(tile.cell().bits as nat, tile.cell().len as nat),
        tile.cell().bits < pow2(tile.cell().len as nat),
        tile.cell().len == tile.code@.len(),
{
    crate::geohash::lemma_code_value_bound(tile.code@);
    lemma_code_value_text(tile.code@);
    assert(pow2(64) == 0x10000000000000000) by {
        vstd::arithmetic::power2::lemma2_to64_rest();
    }
    if tile.code@.len() < 64 {
        vstd::arithmetic::power2::lemma_pow2_strictly_increases(tile.code@.len(), 64);
    }
}

/// A prefix of `len` bits of a value of `precision` bits fits in `len` bits.
proof fn lemma_prefix_fits(value: nat, precision: nat, len: nat)
    requires
        len <= precision,
        value < pow2(precision),
    ensures
        prefix_bits(value, precision, len) < pow2(len),
{
    lemma_pow2_pos((precision - len) as nat);
    lemma_pow2_adds((precision - len) as nat, len);
    lemma_multiply_divide_lt(value as int, pow2((precision - len) as nat) as int, pow2(len) as int);
}

/// Tiles a list of full-precision binary geohash codes.
///
/// The codes are read as numbers of `geohash_precision` bits; a code that
/// occurs several times counts once. The tile of a code is its shortest
/// prefix, of one bit or more, that at most `limit` of the codes begin with;
/// a code with no such proper prefix is a tile itself. The tiles come out
/// each once, with the box that `geohashrust` decodes from its code.
pub fn tile_codes(geohashes: &Vec<String>, geohash_precision: u8, limit: usize) -> (result: Result<
    Vec<Tile>,
    TilingError,
>)
    ensures
        match result {
            Ok(tiles) => {
                &&& 2 <= geohash_precision <= MAX_PRECISION
                &&& forall|k: int|
                    0 <= k < geohashes.len() ==> is_code(
                        (#[trigger] geohashes[k])@,
                        geohash_precision as nat,
                    )
                &&& tiling(
                    cells_of(tiles@),
                    code_values(geohashes@),
                    geohash_precision as nat,
                    limit as nat,
                )
                &&& parts(
                    cells_of(tiles@),
                    code_values(geohashes@),
                    geohash_precision as nat,
                    limit as nat,
                )
                &&& codes_parted(tiles@, geohashes@)
                &&& forall|n: int|
                    0 <= n < tiles.len() ==> {
                        &&& is_binary((#[trigger] tiles[n]).code@)
                        &&& 1 <= tiles[n].code@.len() <= geohash_precision
                        &&& tiles[n].bounding_box == box_of(cell_box(tiles[n].code@))
                    }
            },
            Err(TilingError::Precision) => geohash_precision < 2 || geohash_precision
                > MAX_PRECISION,
            Err(TilingError::MalformedCode(k)) => {
                &&& 2 <= geohash_precision <= MAX_PRECISION
                &&& k < geohashes.len()
                &&& !is_code(geohashes[k as int]@, geohash_precision as nat)
                &&& forall|j: int|
                    0 <= j < k ==> is_code((#[trigger] geohashes[j])@, geohash_precision as nat)
            },
        },
{
    if geohash_precision < 2 || geohash_precision > MAX_PRECISION {
        return Err(TilingError::Precision);
    }
    let ghost p = geohash_precision as nat;
    let ghost all = code_values(geohashes@);
    let mut values: Vec<u64> = Vec::new();
    let mut k: usize = 0;
    while k < geohashes.len()
        invariant
            k <= geohashes.len(),
            values.len() == k,
            2 <= geohash_precision <= MAX_PRECISION,
            p == geohash_precision,
            forall|j: int|
                0 <= j < k ==> is_code((#[trigger] geohashes[j])@, p) && values[j] == code_value(
                    geohashes[j]@,
                ) && values[j] < pow2(p),
        decreases geohashes.len() - k,
    {
        let ghost before = values@;
        match parse_code(geohashes[k].as_str(), geohash_precision) {
            Some(value) => {
                values.push(value);
            },
            None => {
                return Err(TilingError::MalformedCode(k));
            },
        }
        assert forall|j: int| 0 <= j < k + 1 implies is_code((#[trigger] geohashes[j])@, p)
            && values[j] == code_value(geohashes[j]@) && values[j] < pow2(p) by {
            if j < k {
                assert(values[j] == before[j]);
            }
        }
        k = k + 1;
    }
    let cells = tile_values(&values, geohash_precision, limit);
    proof {
        assert forall|v: nat| value_set(values@).contains(v) <==> all.contains(v) by {
            if value_set(values@).contains(v) {
                let m = choose|m: int| 0 <= m < values.len() && #[trigger] values[m] == v;
                assert(code_value(geohashes[m]@) == v);
            }
            if all.contains(v) {
                let j = choose|j: int|
                    0 <= j < geohashes.len() && code_value((#[trigger] geohashes[j])@) == v;
                assert(values[j] == v);
            }
        }
        assert(value_set(values@) =~= all);
    }
    let mut tiles: Vec<Tile> = Vec::new();
    let mut n: usize = 0;
    while n < cells.len()
        invariant
            n <= cells.len(),
            tiles.len() == n,
            2 <= geohash_precision <= MAX_PRECISION,
            p == geohash_precision,
            tiling(cells@, all, p, limit as nat),
            forall|v: nat| #[trigger] all.contains(v) ==> v < pow2(p),
            forall|j: int|
                0 <= j < n ==> {
                    &&& (#[trigger] tiles[j]).cell() == cells[j]
                    &&& is_binary(tiles[j].code@)
                    &&& 1 <= tiles[j].code@.len() <= geohash_precision
                    &&& tiles[j].bounding_box == box_of(cell_box(tiles[j].code@))
                },
        decreases cells.len() - n,
    {
        let cell = cells[n];
        proof {
            assert(is_tile(all, p, limit as nat, cells[n as int]));
            let v = choose|v: nat|
                all.contains(v) && #[trigger] tile_of(all, p, limit as nat, v, cell);
            lemma_prefix_fits(v, p, cell.len as nat);
            lemma_code_text_shape(cell.bits as nat, cell.len as nat);
            lemma_code_text_value(cell.bits as nat, cell.len as nat);
            lemma_small_mod(cell.bits as nat, pow2(cell.len as nat));
        }
        let code = render_code(cell.bits, cell.len);
        let bounding_box = decode_cell(code.as_str());
        tiles.push(Tile { code, bounding_box });
        n = n + 1;
    }
    proof {
        assert(cells_of(tiles@) =~= cells@);
        lemma_tiling_parts(cells@, all, p, limit as nat);
        lemma_codes_parted(tiles@, geohashes@, p, limit as nat);
    }
    Ok(tiles)
}

/// Tiles a list of full-precision binary geohash codes, with at most
/// `MAX_ALLOWED_FEATURES_IN_GEOHASH` codes to a tile shorter than the full
/// precision.
pub fn create_geohashes(geohashes: &Vec<String>, geohash_precision: u8) -> (result: Result<
    Vec<Tile>,
    TilingError,
>)
    ensures
        match result {
            Ok(tiles) => {
                &&& 2 <= geohash_precision <= MAX_PRECISION
                &&& forall|k: int|
                    0 <= k < geohashes.len() ==> is_code(
                        (#[trigger] geohashes[k])@,
                        geohash_precision as nat,
                    )
                &&& tiling(
                    cells_of(tiles@),
                    code_values(geohashes@),
                    geohash_precision as nat,
                    MAX_ALLOWED_FEATURES_IN_GEOHASH as nat,
                )
                &&& parts(
                    cells_of(tiles@),
                    code_values(geohashes@),
                    geohash_precision as nat,
                    MAX_ALLOWED_FEATURES_IN_GEOHASH as nat,
                )
                &&& codes_parted(tiles@, geohashes@)
                &&& forall|n: int|
                    0 <= n < tiles.len() ==> {
                        &&& is_binary((#[trigger] tiles[n]).code@)
                        &&& 1 <= tiles[n].code@.len() <= geohash_precision
                        &&& tiles[n].bounding_box == box_of(cell_box(tiles[n].code@))
                    }
            },
            Err(TilingError::Precision) => geohash_precision < 2 || geohash_precision
                > MAX_PRECISION,
            Err(TilingError::MalformedCode(k)) => {
                &&& 2 <= geohash_precision <= MAX_PRECISION
                &&& k < geohashes.len()
                &&& !is_code(geohashes[k as int]@, geohash_precision as nat)
                &&& forall|j: int|
                    0 <= j < k ==> is_code((#[trigger] geohashes[j])@, geohash_precision as nat)
            },
        },
{
    tile_codes(geohashes, geohash_precision, MAX_ALLOWED_FEATURES_IN_GEOHASH)
}

} // verus!
