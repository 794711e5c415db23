//! What the bundled user programs compute before they print it.
use vstd::prelude::*;

verus! {

/// How many Fibonacci numbers the Fibonacci program prints.
pub const FIBONACCI_COUNT: usize = 20;

/// The `i`-th Fibonacci number, counting from 0, in the sequence 1, 1, 2,
/// 3, 5, ...
pub open spec fn fib(i: nat) -> nat
    decreases i,
{
    if i < 2 {
        1
    } else {
        fib((i - 1) as nat) + fib((i - 2) as nat)
    }
}

/// The sequence never decreases.
pub proof fn lemma_fib_monotone(i: nat, j: nat)
    requires
        i <= j,
    ensures
        fib(i) <= fib(j),
    decreases j,
{
    if i < j {
        lemma_fib_monotone(i, (j - 1) as nat);
    }
}

/// The first `n` Fibonacci numbers.
pub fn fibonacci(n: usize) -> (r: Vec<usize>)
    requires
        n >= 2,
        fib((n - 1) as nat) <= usize::MAX,
    ensures
        r@.len() == n,
        forall|i: int| 0 <= i < n ==> #[trigger] r@[i] == fib(i as nat),
{
    let mut arr: Vec<usize> = Vec::new();
    arr.push(1);
    arr.push(1);
    let mut i: usize = 2;
    while i < n
        invariant
            2 <= i <= n,
            fib((n - 1) as nat) <= usize::MAX,
            arr@.len() == i,
            forall|k: int| 0 <= k < i ==> #[trigger] arr@[k] == fib(k as nat),
        decreases n - i,
    {
        proof {
            lemma_fib_monotone(i as nat, (n - 1) as nat);
        }
        let next = arr[i - 1] + arr[i - 2];
        arr.push(next);
        i = i + 1;
    }
    arr
}

/// Largest number the prime program looks at.
pub const PRIME_LIMIT: usize = 100;

/// `i` is prime: at least 2 and divisible by no number from 2 up to itself.
pub open spec fn is_prime(i: int) -> bool {
    i >= 2 && forall|d: int| 2 <= d < i ==> #[trigger] (i % d) != 0
}

/// Some prime below `j` divides `i`.
pub open spec fn prime_divisor_below(i: int, j: int) -> bool {
    exists|d: int| 2 <= d < j && is_prime(d) && #[trigger] (i % d) == 0
}

/// Divisibility is transitive.
proof fn lemma_divides_trans(e: int, d: int, i: int)
    requires
        e > 0,
        d > 0,
        d % e == 0,
        i % d == 0,
    ensures
        i % e == 0,
{
    vstd::arithmetic::div_mod::lemma_fundamental_div_mod(d, e);
    vstd::arithmetic::div_mod::lemma_fundamental_div_mod(i, d);
    let a = d / e;
    let b = i / d;
    assert(i == (a * b) * e) by (nonlinear_arith)
        requires
            d == e * a + 0,
            i == d * b + 0,
    ;
    vstd::arithmetic::div_mod::lemma_mod_multiples_basic(a * b, e);
}

/// Every number from 2 on has a prime divisor no larger than itself.
proof fn lemma_prime_divisor(i: int)
    requires
        i >= 2,
    ensures
        exists|d: int| 2 <= d <= i && is_prime(d) && #[trigger] (i % d) == 0,
    decreases i,
{
    if is_prime(i) {
        assert(i % i == 0);
    } else {
        let d = choose|d: int| 2 <= d < i && #[trigger] (i % d) == 0;
        lemma_prime_divisor(d);
        let e = choose|e: int| 2 <= e <= d && is_prime(e) && #[trigger] (d % e) == 0;
        lemma_divides_trans(e, d, i);
    }
}

/// A number from 2 on is not prime exactly when a prime below it divides it.
pub proof fn lemma_composite_iff_prime_divisor(i: int)
    requires
        i >= 2,
    ensures
        prime_divisor_below(i, i) <==> !is_prime(i),
{
    if !is_prime(i) {
        let d = choose|d: int| 2 <= d < i && #[trigger] (i % d) == 0;
        lemma_prime_divisor(d);
        let e = choose|e: int| 2 <= e <= d && is_prime(e) && #[trigger] (d % e) == 0;
        lemma_divides_trans(e, d, i);
        assert(2 <= e < i && is_prime(e) && i % e == 0);
    }
}

/// The sieve's table for `0..=n`: entry `i` is `i` when `i` is prime and 0
/// otherwise.
pub fn prime_table(n: usize) -> (r: Vec<usize>)
    requires
        1 <= n < usize::MAX,
    ensures
        r@.len() == n + 1,
        forall|i: int| 0 <= i <= n ==> #[trigger] r@[i] == if is_prime(i) {
            i as usize
        } else {
            0usize
        },
{
    let mut arr: Vec<usize> = Vec::new();
    let mut i: usize = 0;
    while i <= n
        invariant
            0 <= i <= n + 1,
            n < usize::MAX,
            arr@.len() == i,
            forall|k: int| 0 <= k < i ==> #[trigger] arr@[k] == k,
        decreases n + 1 - i,
    {
        arr.push(i);
        i = i + 1;
    }
    arr.set(0, 0);
    arr.set(1, 0);
    assert(!is_prime(0) && !is_prime(1) && is_prime(2));
    let mut i: usize = 3;
    while i <= n
        invariant
            3 <= i,
            i <= n + 1 || i == 3,
            n < usize::MAX,
            arr@.len() == n + 1,
            forall|k: int| 0 <= k < i && k <= n ==> #[trigger] arr@[k] == if is_prime(k) {
                k as usize
            } else {
                0usize
            },
            forall|k: int| i <= k <= n ==> #[trigger] arr@[k] == k,
        decreases n + 1 - i,
    {
        let mut j: usize = 2;
        while j < i
            invariant
                2 <= j <= i,
                3 <= i <= n,
                arr@.len() == n + 1,
                forall|k: int| 0 <= k < i ==> #[trigger] arr@[k] == if is_prime(k) {
                    k as usize
                } else {
                    0usize
                },
                forall|k: int| i < k <= n ==> #[trigger] arr@[k] == k,
                arr@[i as int] == if prime_divisor_below(i as int, j as int) {
                    0usize
                } else {
                    i
                },
            decreases i - j,
        {
            if arr[j] != 0 && i % j == 0 {
                arr.set(i, 0);
            }
            proof {
                if prime_divisor_below(i as int, j + 1) && !prime_divisor_below(i as int, j as int) {
                    let d = choose|d: int| 2 <= d < j + 1 && is_prime(d) && #[trigger] ((i as int) % d) == 0;
                    assert(d == j);
                }
            }
            j = j + 1;
        }
        proof {
            lemma_composite_iff_prime_divisor(i as int);
        }
        i = i + 1;
    }
    arr
}

/// The primes up to `n`, in increasing order: the nonzero entries of the
/// sieve's table.
pub fn prime_numbers(n: usize) -> (r: Vec<usize>)
    requires
        1 <= n < usize::MAX,
    ensures
        forall|k: int| 0 <= k < r@.len() ==> is_prime(#[trigger] r@[k] as int) && r@[k] <= n,
        forall|k: int, l: int| 0 <= k < l < r@.len() ==> #[trigger] r@[k] < #[trigger] r@[l],
        forall|p: int| 0 <= p <= n && #[trigger] is_prime(p) ==> exists|k: int| 0 <= k < r@.len() && r@[k] == p,
{
    let table = prime_table(n);
    let mut out: Vec<usize> = Vec::new();
    let mut i: usize = 0;
    while i <= n
        invariant
            0 <= i <= n + 1,
            n < usize::MAX,
            table@.len() == n + 1,
            forall|k: int| 0 <= k <= n ==> #[trigger] table@[k] == if is_prime(k) {
                k as usize
            } else {
                0usize
            },
            forall|k: int| 0 <= k < out@.len() ==> is_prime(#[trigger] out@[k] as int) && out@[k] < i,
            forall|k: int, l: int| 0 <= k < l < out@.len() ==> #[trigger] out@[k] < #[trigger] out@[l],
            forall|p: int| 0 <= p < i && #[trigger] is_prime(p) ==> exists|k: int| 0 <= k < out@.len() && out@[k] == p,
        decreases n + 1 - i,
    {
        let ghost before = out@;
        if table[i] != 0 {
            out.push(table[i]);
            proof {
                assert(out@[out@.len() - 1] == i);
                assert(is_prime(i as int));
                assert forall|k: int| 0 <= k < before.len() implies out@[k] == before[k] by {}
            }
        }
        proof {
            assert forall|p: int| 0 <= p < i + 1 && #[trigger] is_prime(p) implies exists|k: int| 0 <= k < out@.len() && out@[k] == p by {
                if p == i {
                    assert(out@[out@.len() - 1] == p);
                } else {
                    let k = choose|k: int| 0 <= k < before.len() && before[k] == p;
                    assert(out@[k] == p);
                }
            }
        }
        i = i + 1;
    }
    out
}

/// Lowest column on anti-diagonal `s` of a grid whose last row is `max_y`.
pub open spec fn diag_lo(s: int, max_y: int) -> int {
    if s - max_y > 0 {
        s - max_y
    } else {
        0
    }
}

/// Highest column on anti-diagonal `s` of a grid whose last column is
/// `max_x`.
pub open spec fn diag_hi(s: int, max_x: int) -> int {
    if s < max_x {
        s
    } else {
        max_x
    }
}

/// The cells `(row, column)` of anti-diagonal `s` (row + column == s) in
/// the order the zigzag walks them: up and to the right on even
/// diagonals, down and to the left on odd ones.
pub open spec fn diagonal(s: int, max_x: int, max_y: int) -> Seq<(int, int)> {
    let lo = diag_lo(s, max_y);
    let hi = diag_hi(s, max_x);
    Seq::new(
        (hi - lo + 1) as nat,
        |k: int|
            if s % 2 == 0 {
                (s - (lo + k), lo + k)
            } else {
                (s - (hi - k), hi - k)
            },
    )
}

/// The cells of the first `n` anti-diagonals, in zigzag order.
pub open spec fn zigzag_cells(n: int, max_x: int, max_y: int) -> Seq<(int, int)>
    decreases n,
{
    if n <= 0 {
        Seq::empty()
    } else {
        zigzag_cells(n - 1, max_x, max_y) + diagonal(n - 1, max_x, max_y)
    }
}

/// Cell `(y, x)` is among `cells`.
pub open spec fn visits(cells: Seq<(int, int)>, y: int, x: int) -> bool {
    exists|k: int| 0 <= k < cells.len() && #[trigger] cells[k] == (y, x)
}

/// The first `n` anti-diagonals hold cells of the grid, each on a diagonal
/// below `n`, every such cell, and none twice.
proof fn lemma_zigzag_prefix(n: int, max_x: int, max_y: int)
    requires
        0 <= n <= max_x + max_y + 1,
        max_x >= 0,
        max_y >= 0,
    ensures
        ({
            let cells = zigzag_cells(n, max_x, max_y);
            &&& forall|k: int|
                0 <= k < cells.len() ==> {
                    let p = #[trigger] cells[k];
                    &&& 0 <= p.0 <= max_y
                    &&& 0 <= p.1 <= max_x
                    &&& p.0 + p.1 < n
                }
            &&& forall|y: int, x: int|
                0 <= y <= max_y && 0 <= x <= max_x && y + x < n ==> #[trigger] visits(cells, y, x)
            &&& forall|k1: int, k2: int| 0 <= k1 < k2 < cells.len() ==> #[trigger] cells[k1] != #[trigger] cells[k2]
        }),
    decreases n,
{
    if n > 0 {
        lemma_zigzag_prefix(n - 1, max_x, max_y);
        let s = n - 1;
        let prev = zigzag_cells(s, max_x, max_y);
        let d = diagonal(s, max_x, max_y);
        let cells = zigzag_cells(n, max_x, max_y);
        assert(cells == prev + d);
        let lo = diag_lo(s, max_y);
        let hi = diag_hi(s, max_x);
        assert(lo <= hi);
        assert(d.len() == hi - lo + 1);
        assert forall|k: int| 0 <= k < d.len() implies {
            let p = #[trigger] d[k];
            &&& 0 <= p.0 <= max_y
            &&& 0 <= p.1 <= max_x
            &&& p.0 + p.1 == s
            &&& lo <= p.1 <= hi
        } by {}
        assert forall|k: int|
            0 <= k < cells.len() implies {
                let p = #[trigger] cells[k];
                &&& 0 <= p.0 <= max_y
                &&& 0 <= p.1 <= max_x
                &&& p.0 + p.1 < n
            } by {
            if k >= prev.len() {
                assert(cells[k] == d[k - prev.len()]);
            } else {
                assert(cells[k] == prev[k]);
            }
        }
        assert forall|y: int, x: int|
            0 <= y <= max_y && 0 <= x <= max_x && y + x < n implies #[trigger] visits(cells, y, x) by {
            if y + x < s {
                assert(visits(prev, y, x));
                let k = choose|k: int| 0 <= k < prev.len() && #[trigger] prev[k] == (y, x);
                assert(cells[k] == prev[k]);
            } else {
                let j = if s % 2 == 0 {
                    x - lo
                } else {
                    hi - x
                };
                assert(0 <= j < d.len());
                assert(d[j] == (y, x));
                assert(cells[prev.len() + j] == d[j]);
            }
        }
        assert forall|k1: int, k2: int| 0 <= k1 < k2 < cells.len() implies #[trigger] cells[k1] != #[trigger] cells[k2] by {
            if k2 < prev.len() {
                assert(cells[k1] == prev[k1] && cells[k2] == prev[k2]);
            } else if k1 < prev.len() {
                assert(cells[k1] == prev[k1]);
                assert(cells[k2] == d[k2 - prev.len()]);
            } else {
                assert(cells[k1] == d[k1 - prev.len()]);
                assert(cells[k2] == d[k2 - prev.len()]);
            }
        }
    }
}

/// The zigzag walk of a grid whose last column is `max_x` and last row is
/// `max_y` visits every cell of the grid exactly once.
pub proof fn lemma_zigzag_visits_each_cell_once(max_x: int, max_y: int)
    requires
        max_x >= 0,
        max_y >= 0,
    ensures
        ({
            let cells = zigzag_cells(max_x + max_y + 1, max_x, max_y);
            &&& forall|k: int|
                0 <= k < cells.len() ==> 0 <= (#[trigger] cells[k]).0 <= max_y && 0 <= cells[k].1 <= max_x
            &&& forall|y: int, x: int| 0 <= y <= max_y && 0 <= x <= max_x ==> #[trigger] visits(cells, y, x)
            &&& forall|k1: int, k2: int| 0 <= k1 < k2 < cells.len() ==> #[trigger] cells[k1] != #[trigger] cells[k2]
        }),
{
    lemma_zigzag_prefix(max_x + max_y + 1, max_x, max_y);
}

/// The value in cell `p` of `grid`.
pub open spec fn cell(grid: Seq<Vec<i32>>, p: (int, int)) -> i32 {
    grid[p.0]@[p.1]
}

/// `grid` has at least one row, every row has the first row's length, at
/// least one, and the sizes leave room for the walk's arithmetic.
pub open spec fn grid_ok(grid: Seq<Vec<i32>>) -> bool {
    &&& 1 <= grid.len() <= 0x3fff_ffff
    &&& 1 <= grid[0]@.len() <= 0x3fff_ffff
    &&& forall|y: int| 0 <= y < grid.len() ==> (#[trigger] grid[y])@.len() == grid[0]@.len()
}

/// The grid's values in zigzag order: anti-diagonal after anti-diagonal
/// from the top-left corner, alternating direction.
pub fn zigzag(arr: &Vec<Vec<i32>>) -> (r: Vec<i32>)
    requires
        grid_ok(arr@),
    ensures
        r@ == zigzag_cells(arr@.len() + arr@[0]@.len() - 1, arr@[0]@.len() - 1, arr@.len() - 1).map_values(
            |p: (int, int)| cell(arr@, p),
        ),
{
    let max_x: i32 = arr[0].len() as i32 - 1;
    let max_y: i32 = arr.len() as i32 - 1;
    let ghost mx = max_x as int;
    let ghost my = max_y as int;
    let mut out: Vec<i32> = Vec::new();
    let mut i: i32 = 0;
    while i <= max_x + max_y
        invariant
            grid_ok(arr@),
            mx == arr@[0]@.len() - 1,
            my == arr@.len() - 1,
            max_x == mx,
            max_y == my,
            0 <= i <= max_x + max_y + 1,
            out@ == zigzag_cells(i as int, mx, my).map_values(|p: (int, int)| cell(arr@, p)),
        decreases max_x + max_y + 1 - i,
    {
        let left_x: i32 = if i - max_y > 0 { i - max_y } else { 0 };
        let left_y: i32 = if max_y < i { max_y } else { i };
        let right_x: i32 = if i < max_x { i } else { max_x };
        let right_y: i32 = if i - max_x > 0 { i - max_x } else { 0 };
        let ghost before = out@;
        let ghost d = diagonal(i as int, mx, my);
        assert(left_x == diag_lo(i as int, my) && right_x == diag_hi(i as int, mx));
        if i % 2 == 0 {
            let mut x: i32 = left_x;
            while x <= right_x
                invariant
                    grid_ok(arr@),
                    mx == arr@[0]@.len() - 1,
                    my == arr@.len() - 1,
                    max_x == mx,
                    max_y == my,
                    0 <= i <= max_x + max_y,
                    i % 2 == 0,
                    left_x == diag_lo(i as int, my),
                    right_x == diag_hi(i as int, mx),
                    left_y == (if my < i { my } else { i as int }),
                    d == diagonal(i as int, mx, my),
                    left_x <= x <= right_x + 1,
                    out@.len() == before.len() + (x - left_x),
                    forall|k: int| 0 <= k < before.len() ==> #[trigger] out@[k] == before[k],
                    forall|k: int| 0 <= k < x - left_x ==> #[trigger] out@[before.len() + k] == cell(arr@, d[k]),
                decreases right_x + 1 - x,
            {
                let y: i32 = left_y - (x - left_x);
                proof {
                    assert(d[x - left_x] == (y as int, x as int));
                }
                out.push(arr[y as usize][x as usize]);
                x = x + 1;
            }
        } else {
            let mut x: i32 = right_x;
            while x >= left_x
                invariant
                    grid_ok(arr@),
                    mx == arr@[0]@.len() - 1,
                    my == arr@.len() - 1,
                    max_x == mx,
                    max_y == my,
                    0 <= i <= max_x + max_y,
                    i % 2 == 1,
                    left_x == diag_lo(i as int, my),
                    right_x == diag_hi(i as int, mx),
                    right_y == (if i - mx > 0 { i - mx } else { 0int }),
                    d == diagonal(i as int, mx, my),
                    left_x - 1 <= x <= right_x,
                    out@.len() == before.len() + (right_x - x),
                    forall|k: int| 0 <= k < before.len() ==> #[trigger] out@[k] == before[k],
                    forall|k: int| 0 <= k < right_x - x ==> #[trigger] out@[before.len() + k] == cell(arr@, d[k]),
                decreases x - left_x + 1,
            {
                let y: i32 = right_y + (right_x - x);
                proof {
                    assert(d[right_x - x] == (y as int, x as int));
                }
                out.push(arr[y as usize][x as usize]);
                x = x - 1;
            }
        }
        proof {
            let f = |p: (int, int)| cell(arr@, p);
            assert(zigzag_cells(i + 1, mx, my) == zigzag_cells(i as int, mx, my) + d);
            assert(out@ =~= zigzag_cells(i + 1, mx, my).map_values(f)) by {
                assert(out@.len() == before.len() + d.len());
                assert forall|k: int| 0 <= k < out@.len() implies out@[k] == zigzag_cells(i + 1, mx, my).map_values(f)[k] by {
                    if k >= before.len() {
                        assert(out@[before.len() + (k - before.len())] == cell(arr@, d[k - before.len()]));
                    }
                }
            }
        }
        i = i + 1;
    }
    out
}

} // verus!
