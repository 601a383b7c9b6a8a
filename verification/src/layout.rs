use vstd::prelude::*;

verus! {

use vstd::arithmetic::mul::{lemma_mul_is_commutative, lemma_mul_left_inequality};

/// Number of lanes held by one register: every row of the storage is padded
/// to a whole number of 16-lane registers.
pub const LANES: usize = 16;

/// Product of the first `i` axis sizes of `shape`.
pub open spec fn prod_prefix(shape: Seq<usize>, i: int) -> nat
    decreases i,
{
    if i <= 0 {
        1
    } else {
        prod_prefix(shape, i - 1) * (shape[i - 1] as nat)
    }
}

/// The number of logical elements of a shape: the product of its axis sizes.
pub open spec fn elem_count(shape: Seq<usize>) -> nat {
    prod_prefix(shape, shape.len() as int)
}

/// The number of rows: the product of every axis size but the last.
pub open spec fn row_count(shape: Seq<usize>) -> nat {
    prod_prefix(shape, shape.len() - 1)
}

/// Registers needed for one row of `cols` elements.
pub open spec fn words_per_row(cols: usize) -> nat {
    ((cols + 15) / 16) as nat
}

/// Registers in the whole storage: one row of registers per row of elements.
pub open spec fn word_count(shape: Seq<usize>) -> nat {
    row_count(shape) * words_per_row(shape.last())
}

/// Machine bound on a shape: both the element count and the padded storage
/// must be addressable.
pub open spec fn size_ok(shape: Seq<usize>) -> bool {
    elem_count(shape) <= usize::MAX && word_count(shape) * 16 <= usize::MAX
}

/// The register that holds logical element `k` of a row-major tensor whose
/// innermost axis has `cols` elements.
pub open spec fn word_index(cols: usize, k: int) -> int {
    (k / (cols as int)) * (words_per_row(cols) as int) + (k % (cols as int)) / 16
}

/// The lane within that register.
pub open spec fn lane_index(cols: usize, k: int) -> int {
    (k % (cols as int)) % 16
}

/// The flat row-major position of entry `(r, c)` in rows of length `cols`.
pub open spec fn pair_index(cols: usize, r: int, c: int) -> int {
    r * (cols as int) + c
}

/// The slot of logical element `k` in a flat buffer of 16-lane registers.
pub open spec fn data_index(cols: usize, k: int) -> int {
    word_index(cols, k) * 16 + lane_index(cols, k)
}

/// The slot of element `k` lies inside the padded buffer.
pub proof fn lemma_data_index_bounds(shape: Seq<usize>, k: int)
    requires
        shape.len() >= 1,
        0 <= k < elem_count(shape),
    ensures
        0 <= data_index(shape.last(), k) < word_count(shape) * 16,
{
    lemma_element_position(shape, k);
    assert(word_index(shape.last(), k) * 16 + lane_index(shape.last(), k) < word_count(shape)
        * 16) by (nonlinear_arith)
        requires
            0 <= word_index(shape.last(), k) < word_count(shape),
            0 <= lane_index(shape.last(), k) < 16,
    ;
    assert(0 <= word_index(shape.last(), k) * 16) by (nonlinear_arith)
        requires 0 <= word_index(shape.last(), k);
}

/// In a single row, element `k` occupies buffer slot `k`.
pub proof fn lemma_data_index_1d(cols: usize, k: int)
    requires
        0 <= k < cols,
    ensures
        data_index(cols, k) == k,
{
    lemma_position_1d(cols, k);
    vstd::arithmetic::div_mod::lemma_fundamental_div_mod(k, 16);
}

/// Two logical elements sharing a buffer slot are the same element.
pub proof fn lemma_data_index_unique(cols: usize, j: int, k: int)
    requires
        cols > 0,
        0 <= j,
        0 <= k,
        data_index(cols, j) == data_index(cols, k),
    ensures
        j == k,
{
    lemma_element_lane_bounds(cols, j);
    lemma_element_lane_bounds(cols, k);
    lemma_row_major(16, word_index(cols, j), lane_index(cols, j));
    lemma_row_major(16, word_index(cols, k), lane_index(cols, k));
    lemma_position_unique(cols, j, k);
}

/// The lane of any element is one of 16, and its register is nonnegative.
proof fn lemma_element_lane_bounds(cols: usize, k: int)
    requires
        cols > 0,
        0 <= k,
    ensures
        0 <= lane_index(cols, k) < 16,
        0 <= word_index(cols, k),
{
    let d = cols as int;
    vstd::arithmetic::div_mod::lemma_mod_bound(k, d);
    vstd::arithmetic::div_mod::lemma_div_pos_is_pos(k, d);
    vstd::arithmetic::div_mod::lemma_mod_bound(k % d, 16);
    vstd::arithmetic::div_mod::lemma_div_pos_is_pos(k % d, 16);
    lemma_cols_le_words(cols);
    assert(0 <= (k / d) * (words_per_row(cols) as int)) by (nonlinear_arith)
        requires
            0 <= k / d,
            0 <= words_per_row(cols),
    ;
}

/// An element count of zero means exactly that some axis is zero.
pub proof fn lemma_prod_prefix_zero(shape: Seq<usize>, i: int)
    requires
        0 <= i <= shape.len(),
    ensures
        (prod_prefix(shape, i) == 0) <==> (exists|j: int| 0 <= j < i && shape[j] == 0),
    decreases i,
{
    if i > 0 {
        lemma_prod_prefix_zero(shape, i - 1);
        assert((prod_prefix(shape, i - 1) * (shape[i - 1] as nat) == 0) <==> (prod_prefix(
            shape,
            i - 1,
        ) == 0 || shape[i - 1] as nat == 0)) by (nonlinear_arith);
    }
}

/// Extending a prefix by axes of positive size cannot shrink the product.
pub proof fn lemma_prod_prefix_le(shape: Seq<usize>, i: int, j: int)
    requires
        0 <= i <= j <= shape.len(),
        forall|k: int| i <= k < j ==> shape[k] >= 1,
    ensures
        prod_prefix(shape, i) <= prod_prefix(shape, j),
    decreases j - i,
{
    if i < j {
        lemma_prod_prefix_le(shape, i, j - 1);
        assert(prod_prefix(shape, j - 1) <= prod_prefix(shape, j - 1) * (shape[j - 1] as nat))
            by (nonlinear_arith)
            requires shape[j - 1] as nat >= 1;
    }
}

/// The element count splits into rows times row length.
pub proof fn lemma_elem_count_rows(shape: Seq<usize>)
    requires
        shape.len() >= 1,
    ensures
        elem_count(shape) == row_count(shape) * shape.last(),
{
}

/// A row fits within its padded registers.
pub proof fn lemma_cols_le_words(cols: usize)
    ensures
        cols <= words_per_row(cols) * 16,
        words_per_row(cols) * 16 < cols + 16,
{
    assert(cols <= ((cols + 15) / 16) * 16 < cols + 16) by (nonlinear_arith);
}

/// Position of logical element `k`: its register lies in range, its lane is
/// one of 16, and the lane lies within the row's true length.
pub proof fn lemma_element_position(shape: Seq<usize>, k: int)
    requires
        shape.len() >= 1,
        0 <= k < elem_count(shape),
    ensures
        0 <= word_index(shape.last(), k) < word_count(shape),
        0 <= lane_index(shape.last(), k) < 16,
        (k % (shape.last() as int)) / 16 < words_per_row(shape.last()),
{
    let rows = row_count(shape) as int;
    let cols = shape.last() as int;
    let wpr = words_per_row(shape.last()) as int;
    lemma_elem_count_rows(shape);
    assert(cols > 0) by {
        if cols == 0 {
            assert(rows * 0 == 0) by (nonlinear_arith);
        }
    }
    let r = k / cols;
    let c = k % cols;
    vstd::arithmetic::div_mod::lemma_fundamental_div_mod(k, cols);
    vstd::arithmetic::div_mod::lemma_mod_bound(k, cols);
    vstd::arithmetic::div_mod::lemma_div_pos_is_pos(k, cols);
    assert(r < rows) by (nonlinear_arith)
        requires
            k < rows * cols,
            k == cols * r + c,
            0 <= c < cols,
            cols > 0,
            0 <= r,
    ;
    vstd::arithmetic::div_mod::lemma_fundamental_div_mod(c, 16);
    vstd::arithmetic::div_mod::lemma_mod_bound(c, 16);
    vstd::arithmetic::div_mod::lemma_div_pos_is_pos(c, 16);
    lemma_cols_le_words(shape.last());
    assert(c / 16 < wpr);
    assert(r * wpr + c / 16 < rows * wpr && 0 <= r * wpr) by (nonlinear_arith)
        requires
            0 <= r < rows,
            0 <= c / 16 < wpr,
    ;
}

/// The counts of a rank-1 shape.
pub proof fn lemma_counts_1d(shape: Seq<usize>)
    requires
        shape.len() == 1,
    ensures
        elem_count(shape) == shape[0],
        row_count(shape) == 1,
        word_count(shape) == words_per_row(shape[0]),
{
    assert(prod_prefix(shape, 0) == 1);
    assert(prod_prefix(shape, 1) == prod_prefix(shape, 0) * (shape[0] as nat));
    assert(word_count(shape) == 1 * words_per_row(shape[0]));
}

/// The counts of a rank-2 shape.
pub proof fn lemma_counts_2d(shape: Seq<usize>)
    requires
        shape.len() == 2,
    ensures
        elem_count(shape) == (shape[0] as nat) * (shape[1] as nat),
        row_count(shape) == shape[0],
        word_count(shape) == (shape[0] as nat) * words_per_row(shape[1]),
{
    assert(prod_prefix(shape, 0) == 1);
    assert(prod_prefix(shape, 1) == prod_prefix(shape, 0) * (shape[0] as nat));
    assert(prod_prefix(shape, 2) == prod_prefix(shape, 1) * (shape[1] as nat));
}

/// Row-major decomposition: element `r * cols + c` lies in row `r`, column `c`.
pub proof fn lemma_row_major(cols: usize, r: int, c: int)
    requires
        cols > 0,
        0 <= r,
        0 <= c < cols as int,
    ensures
        (r * (cols as int) + c) / (cols as int) == r,
        (r * (cols as int) + c) % (cols as int) == c,
{
    let d = cols as int;
    lemma_mul_is_commutative(r, d);
    vstd::arithmetic::div_mod::lemma_div_multiples_vanish_fancy(r, c, d);
    vstd::arithmetic::div_mod::lemma_mod_multiples_vanish(r, c, d);
    vstd::arithmetic::div_mod::lemma_small_mod(c as nat, cols as nat);
}

/// In a single row, element `k` sits in register `k / 16`, lane `k % 16`.
pub proof fn lemma_position_1d(cols: usize, k: int)
    requires
        0 <= k < cols,
    ensures
        word_index(cols, k) == k / 16,
        lane_index(cols, k) == k % 16,
{
    vstd::arithmetic::div_mod::lemma_basic_div(k, cols as int);
    vstd::arithmetic::div_mod::lemma_small_mod(k as nat, cols as nat);
    vstd::arithmetic::div_mod::lemma_mod_bound(k, 16);
    vstd::arithmetic::div_mod::lemma_small_mod((k % 16) as nat, 16);
}

/// Two logical elements in the same register and lane are the same element.
pub proof fn lemma_position_unique(cols: usize, j: int, k: int)
    requires
        cols > 0,
        0 <= j,
        0 <= k,
        word_index(cols, j) == word_index(cols, k),
        lane_index(cols, j) == lane_index(cols, k),
    ensures
        j == k,
{
    let d = cols as int;
    let wpr = words_per_row(cols) as int;
    lemma_cols_le_words(cols);
    vstd::arithmetic::div_mod::lemma_fundamental_div_mod(j, d);
    vstd::arithmetic::div_mod::lemma_mod_bound(j, d);
    vstd::arithmetic::div_mod::lemma_div_pos_is_pos(j, d);
    vstd::arithmetic::div_mod::lemma_fundamental_div_mod(k, d);
    vstd::arithmetic::div_mod::lemma_mod_bound(k, d);
    vstd::arithmetic::div_mod::lemma_div_pos_is_pos(k, d);
    let jc = j % d;
    let kc = k % d;
    vstd::arithmetic::div_mod::lemma_fundamental_div_mod(jc, 16);
    vstd::arithmetic::div_mod::lemma_mod_bound(jc, 16);
    vstd::arithmetic::div_mod::lemma_div_pos_is_pos(jc, 16);
    vstd::arithmetic::div_mod::lemma_fundamental_div_mod(kc, 16);
    vstd::arithmetic::div_mod::lemma_mod_bound(kc, 16);
    vstd::arithmetic::div_mod::lemma_div_pos_is_pos(kc, 16);
    assert(j / d == k / d && jc / 16 == kc / 16) by (nonlinear_arith)
        requires
            (j / d) * wpr + jc / 16 == (k / d) * wpr + kc / 16,
            0 <= jc / 16 < wpr,
            0 <= kc / 16 < wpr,
            0 <= j / d,
            0 <= k / d,
    ;
}

/// When element `k`'s register closes its row, its lane lies below the tail
/// boundary `cols % 16`.
pub proof fn lemma_lane_in_tail(cols: usize, k: int)
    requires
        cols > 0,
        cols % 16 != 0,
        0 <= k,
        (word_index(cols, k) + 1) % (words_per_row(cols) as int) == 0,
    ensures
        lane_index(cols, k) < cols % 16,
{
    let d = cols as int;
    let wpr = words_per_row(cols) as int;
    let r = k / d;
    let c = k % d;
    vstd::arithmetic::div_mod::lemma_fundamental_div_mod(k, d);
    vstd::arithmetic::div_mod::lemma_mod_bound(k, d);
    vstd::arithmetic::div_mod::lemma_div_pos_is_pos(k, d);
    vstd::arithmetic::div_mod::lemma_fundamental_div_mod(c, 16);
    vstd::arithmetic::div_mod::lemma_mod_bound(c, 16);
    vstd::arithmetic::div_mod::lemma_div_pos_is_pos(c, 16);
    lemma_cols_le_words(cols);
    assert(0 <= c / 16 < wpr);
    assert(r * wpr + c / 16 + 1 == wpr * r + (c / 16 + 1)) by (nonlinear_arith);
    vstd::arithmetic::div_mod::lemma_mod_multiples_vanish(r, c / 16 + 1, wpr);
    if c / 16 + 1 < wpr {
        vstd::arithmetic::div_mod::lemma_small_mod((c / 16 + 1) as nat, wpr as nat);
        assert(false);
    }
    assert(c / 16 == wpr - 1);
    assert(c % 16 < d % 16) by (nonlinear_arith)
        requires
            0 <= c < d,
            d % 16 != 0,
            wpr == (d + 15) / 16,
            c / 16 == wpr - 1,
            c == 16 * (c / 16) + c % 16,
            0 <= c % 16 < 16,
    ;
}

/// Registers needed for one row, computed at run time.
pub fn compute_words_per_row(cols: usize) -> (n: usize)
    ensures
        n == words_per_row(cols),
{
    proof {
        vstd::arithmetic::div_mod::lemma_div_nonincreasing(cols as int, 16);
    }
    let n: usize = cols / 16 + if cols % 16 != 0 { 1 } else { 0 };
    proof {
        assert(cols / 16 + (if cols % 16 != 0 { 1int } else { 0int }) == (cols + 15) / 16)
            by (nonlinear_arith);
    }
    n
}

/// Structural equality of two shapes: the axis sizes agree everywhere.
pub fn same_shape<const D: usize>(a: &[usize; D], b: &[usize; D]) -> (r: bool)
    ensures
        r == (a@ == b@),
{
    let mut i: usize = 0;
    while i < D
        invariant
            0 <= i <= D,
            forall|j: int| 0 <= j < i ==> a@[j] == b@[j],
        decreases D - i,
    {
        if a[i] != b[i] {
            return false;
        }
        i += 1;
    }
    proof {
        assert(a@ =~= b@);
    }
    true
}

/// A shape copied into a growable vector, as error reports carry it.
pub fn shape_vec<const D: usize>(s: &[usize; D]) -> (v: Vec<usize>)
    ensures
        v@ == s@,
{
    let mut v: Vec<usize> = Vec::new();
    let mut i: usize = 0;
    while i < D
        invariant
            0 <= i <= D,
            v@.len() == i,
            forall|j: int| 0 <= j < i ==> v@[j] == s@[j],
        decreases D - i,
    {
        v.push(s[i]);
        i += 1;
    }
    proof {
        assert(v@ =~= s@);
    }
    v
}

/// A copy of a vector of plain values.
pub fn copy_vec<T: Copy>(v: &Vec<T>) -> (r: Vec<T>)
    ensures
        r@ == v@,
{
    let mut r: Vec<T> = Vec::new();
    let mut i: usize = 0;
    while i < v.len()
        invariant
            0 <= i <= v@.len(),
            r@.len() == i,
            forall|j: int| 0 <= j < i ==> r@[j] == v@[j],
        decreases v@.len() - i,
    {
        r.push(v[i]);
        i += 1;
    }
    proof {
        assert(r@ =~= v@);
    }
    r
}

/// A vector of `n` copies of `x`.
pub fn filled<T: Copy>(n: usize, x: T) -> (v: Vec<T>)
    ensures
        v@.len() == n,
        forall|i: int| 0 <= i < n ==> v@[i] == x,
{
    let mut v: Vec<T> = Vec::new();
    let mut i: usize = 0;
    while i < n
        invariant
            0 <= i <= n,
            v@.len() == i,
            forall|j: int| 0 <= j < i ==> v@[j] == x,
        decreases n - i,
    {
        v.push(x);
        i += 1;
    }
    v
}

/// Number of registers of a shape, `0` when some axis is zero.
pub fn compute_word_count<const D: usize>(shape: &[usize; D]) -> (n: usize)
    requires
        D >= 1,
        size_ok(shape@),
    ensures
        n == word_count(shape@),
{
    let mut i: usize = 0;
    while i < D
        invariant
            0 <= i <= D,
            forall|j: int| 0 <= j < i ==> shape@[j] >= 1,
        decreases D - i,
    {
        if shape[i] == 0 {
            proof {
                if i < D - 1 {
                    lemma_prod_prefix_zero(shape@, D - 1);
                    assert(row_count(shape@) * words_per_row(shape@.last()) == 0)
                        by (nonlinear_arith)
                        requires row_count(shape@) == 0;
                } else {
                    assert(words_per_row(shape@.last()) == 0);
                    assert(row_count(shape@) * 0 == 0) by (nonlinear_arith);
                }
            }
            return 0;
        }
        i += 1;
    }
    let mut n: usize = compute_words_per_row(shape[D - 1]);
    proof {
        assert(n * prod_prefix(shape@, 0) == words_per_row(shape@.last()) * 1);
        lemma_word_count_bound(shape@, 0);
    }
    let mut i: usize = 0;
    while i < D - 1
        invariant
            0 <= i <= D - 1,
            D >= 1,
            size_ok(shape@),
            forall|j: int| 0 <= j < D ==> shape@[j] >= 1,
            n == words_per_row(shape@.last()) * prod_prefix(shape@, i as int),
        decreases D - 1 - i,
    {
        proof {
            lemma_word_count_bound(shape@, i + 1);
            assert(n * shape@[i as int] == words_per_row(shape@.last()) * prod_prefix(
                shape@,
                i + 1,
            )) by (nonlinear_arith)
                requires
                    n == words_per_row(shape@.last()) * prod_prefix(shape@, i as int),
                    prod_prefix(shape@, i + 1) == prod_prefix(shape@, i as int) * shape@[i as int],
            ;
        }
        n = n * shape[i];
        i += 1;
    }
    proof {
        lemma_mul_is_commutative(
            words_per_row(shape@.last()) as int,
            prod_prefix(shape@, D - 1) as int,
        );
    }
    n
}

/// The partial products met while folding a positive shape never exceed the
/// final register count.
proof fn lemma_word_count_bound(shape: Seq<usize>, i: int)
    requires
        shape.len() >= 1,
        0 <= i <= shape.len() - 1,
        forall|j: int| 0 <= j < shape.len() ==> shape[j] >= 1,
    ensures
        words_per_row(shape.last()) * prod_prefix(shape, i) <= word_count(shape),
{
    lemma_prod_prefix_le(shape, i, shape.len() - 1);
    lemma_mul_left_inequality(
        words_per_row(shape.last()) as int,
        prod_prefix(shape, i) as int,
        prod_prefix(shape, shape.len() - 1) as int,
    );
    lemma_mul_is_commutative(words_per_row(shape.last()) as int, row_count(shape) as int);
}

/// Number of logical elements of a shape, `0` when some axis is zero.
pub fn compute_elem_count<const D: usize>(shape: &[usize; D]) -> (n: usize)
    requires
        D >= 1,
        size_ok(shape@),
    ensures
        n == elem_count(shape@),
{
    let mut i: usize = 0;
    while i < D
        invariant
            0 <= i <= D,
            forall|j: int| 0 <= j < i ==> shape@[j] >= 1,
        decreases D - i,
    {
        if shape[i] == 0 {
            proof {
                lemma_prod_prefix_zero(shape@, D as int);
            }
            return 0;
        }
        i += 1;
    }
    let mut n: usize = 1;
    let mut i: usize = 0;
    while i < D
        invariant
            0 <= i <= D,
            D >= 1,
            size_ok(shape@),
            forall|j: int| 0 <= j < D ==> shape@[j] >= 1,
            n == prod_prefix(shape@, i as int),
        decreases D - i,
    {
        proof {
            lemma_prod_prefix_le(shape@, i + 1, D as int);
        }
        n = n * shape[i];
        i += 1;
    }
    n
}

} // verus!
