//! Persistent vectors: a radix tree of 16-way segments under a header
//! segment, with the last up-to-16 elements kept apart in a tail.
//!
//! Layout of the header segment of a vector of `count` elements:
//! - while `count <= TAIL_CAP` the elements stand in the root slots, one
//!   unit each; a compact header has no tail slot before them;
//! - above that, unit 0 refers to the tail and the root slots from unit 1 on
//!   hold the tree of the first `tailoff(count)` elements, of height
//!   `digits(tailoff(count) - 1)`: at height 1 the slots are the elements,
//!   above it each slot refers to a segment one level lower.

use vstd::prelude::*;
use crate::memory::{Unit, slots_of, share};
use self::guide::Guide;
use crate::nibble::{pow16, lemma_pow16_monotone, digits, zero_digits, lemma_digits_bound, lemma_pow16_eight, lemma_zero_digits_below_digits, lemma_shift_digits, lemma_pow16_divides};

pub mod conj;
pub mod guide;

verus! {

pub const BITS: u32 = 4;

pub const ARITY: u32 = 16;

pub const TAIL_CAP: u32 = 16;

pub const MASK: u32 = 15;

/// How many base-16 digits `x` has.
pub fn digit_count(x: u32) -> (r: u32)
    ensures
        r == digits(x as nat),
        r <= 8,
{
    proof {
        lemma_pow16_eight();
        lemma_digits_bound(x as nat, 8);
    }
    let mut y = x;
    let mut n: u32 = 0;
    while y != 0
        invariant
            n + digits(y as nat) == digits(x as nat),
            digits(x as nat) <= 8,
        decreases y,
    {
        assert(y >> 4u32 == y / 16) by (bit_vector);
        y = y >> 4u32;
        n = n + 1;
    }
    n
}

/// How many trailing base-16 digits of `x` are zero.
pub fn trailing_zero_digit_count(x: u32) -> (r: u32)
    requires
        x > 0,
    ensures
        r == zero_digits(x as nat),
        r < 8,
{
    proof {
        lemma_pow16_eight();
        lemma_digits_bound(x as nat, 8);
        lemma_zero_digits_below_digits(x as nat);
    }
    let mut y = x;
    let mut n: u32 = 0;
    while y & 15 == 0
        invariant
            y > 0,
            n + zero_digits(y as nat) == zero_digits(x as nat),
            zero_digits(x as nat) < 8,
        decreases y,
    {
        assert(y & 15 == y % 16) by (bit_vector);
        assert(y >> 4u32 == y / 16) by (bit_vector);
        y = y >> 4u32;
        n = n + 1;
    }
    assert(y & 15 == y % 16) by (bit_vector);
    n
}

/// The last base-16 digit of `x`.
pub fn last_digit(x: u32) -> (r: u32)
    ensures
        r == x % 16,
{
    let r = x & MASK;
    assert(r == x % 16) by (bit_vector)
        requires
            r == x & 15u32,
    ;
    r
}

/// How many slots a node of height `h` holding `n` elements uses: at height
/// 1 one per element, above it one per child.
pub open spec fn slot_count(n: nat, h: nat) -> nat {
    if h <= 1 {
        n
    } else {
        (((n - 1) as nat) / pow16((h - 1) as nat)) + 1
    }
}

/// How many elements the child in slot `j` of such a node holds: every
/// child but the last is full.
pub open spec fn child_size(n: nat, h: nat, j: int) -> nat {
    let per = pow16((h - 1) as nat);
    if j < slot_count(n, h) - 1 {
        per
    } else {
        (n - (slot_count(n, h) - 1) * per) as nat
    }
}

/// The slots `slots` form a node of height `h` holding `n` elements: at
/// height 1 its first `n` slots are the elements; above it, its first slots
/// refer to full children one level lower, and the last child holds the rest.
pub open spec fn node_wf(slots: Seq<Unit>, h: nat, n: nat) -> bool
    decreases h,
{
    if h <= 1 {
        &&& h == 1
        &&& 0 < n <= 16
        &&& n <= slots.len()
    } else {
        &&& 0 < n <= pow16(h)
        &&& slot_count(n, h) <= slots.len()
        &&& forall|j: int|
            0 <= j < slot_count(n, h) ==> (#[trigger] slots[j] is Seg && node_wf(
                slots_of(slots[j]),
                (h - 1) as nat,
                child_size(n, h, j),
            ))
    }
}

/// Element `i` of the node of height `h` with slots `slots`.
pub open spec fn lookup(slots: Seq<Unit>, h: nat, i: nat) -> Unit
    decreases h,
{
    if h <= 1 {
        slots[i as int]
    } else {
        let per = pow16((h - 1) as nat);
        lookup(slots_of(slots[(i / per) as int]), (h - 1) as nat, i % per)
    }
}

/// The used slots of a node of height 2 or more: with `k` full children
/// there are `k` slots, the last of them full.
pub proof fn lemma_full_children(n: nat, h: nat, k: nat)
    requires
        h >= 2,
        k >= 1,
        n == k * pow16((h - 1) as nat),
    ensures
        slot_count(n, h) == k,
        forall|j: int| 0 <= j < k ==> #[trigger] child_size(n, h, j) == pow16((h - 1) as nat),
{
    let per = pow16((h - 1) as nat);
    lemma_pow16_monotone(0, (h - 1) as nat);
    assert(n >= per) by (nonlinear_arith)
        requires
            n == k * per,
            k >= 1,
            per >= 1,
    ;
    assert((n - 1) as nat == (k - 1) * per + (per - 1)) by (nonlinear_arith)
        requires
            n == k * per,
            k >= 1,
            per >= 1,
    ;
    vstd::arithmetic::div_mod::lemma_fundamental_div_mod_converse(
        (n - 1) as int,
        per as int,
        (k - 1) as int,
        (per - 1) as int,
    );
    assert(n - (k - 1) * per == per) by (nonlinear_arith)
        requires
            n == k * per,
    ;
}

/// Index `i` in slot `q` of a node whose children hold `per` elements each.
pub proof fn lemma_slot_of(i: nat, per: nat, q: nat)
    requires
        per > 0,
        q * per <= i < q * per + per,
    ensures
        i / per == q,
        i % per == i - q * per,
{
    vstd::arithmetic::div_mod::lemma_fundamental_div_mod_converse(
        i as int,
        per as int,
        q as int,
        (i - q * per) as int,
    );
}

/// Copying the used slots of a node copies the node.
pub proof fn lemma_node_congruent(s1: Seq<Unit>, s2: Seq<Unit>, h: nat, n: nat)
    requires
        node_wf(s1, h, n),
        slot_count(n, h) <= s2.len(),
        forall|j: int| 0 <= j < slot_count(n, h) ==> s2[j] == #[trigger] s1[j],
    ensures
        node_wf(s2, h, n),
        forall|i: nat| i < n ==> #[trigger] lookup(s2, h, i) == lookup(s1, h, i),
{
    if h <= 1 {
        assert forall|i: nat| i < n implies #[trigger] lookup(s2, h, i) == lookup(s1, h, i) by {
            assert(s2[i as int] == s1[i as int]);
        }
    } else {
        let per = pow16((h - 1) as nat);
        lemma_pow16_monotone(0, (h - 1) as nat);
        assert forall|j: int| 0 <= j < slot_count(n, h) implies (#[trigger] s2[j] is Seg && node_wf(
            slots_of(s2[j]),
            (h - 1) as nat,
            child_size(n, h, j),
        )) by {
            assert(s2[j] == s1[j]);
        }
        assert forall|i: nat| i < n implies #[trigger] lookup(s2, h, i) == lookup(s1, h, i) by {
            vstd::arithmetic::div_mod::lemma_div_is_ordered(i as int, (n - 1) as int, per as int);
            let q = (i / per) as int;
            assert(s2[q] == s1[q]);
        }
    }
}

/// A node whose one used slot refers to a child holding all its elements.
pub proof fn lemma_node_single(slots: Seq<Unit>, h: nat, n: nat)
    requires
        h >= 2,
        slots.len() >= 1,
        slots[0] is Seg,
        node_wf(slots_of(slots[0]), (h - 1) as nat, n),
        0 < n <= pow16((h - 1) as nat),
    ensures
        node_wf(slots, h, n),
        forall|i: nat| i < n ==> #[trigger] lookup(slots, h, i) == lookup(slots_of(slots[0]), (h - 1) as nat, i),
{
    let per = pow16((h - 1) as nat);
    lemma_slot_of((n - 1) as nat, per, 0);
    assert(slot_count(n, h) == 1);
    assert(child_size(n, h, 0) == n);
    assert forall|i: nat| i < n implies #[trigger] lookup(slots, h, i) == lookup(slots_of(slots[0]), (h - 1) as nat, i) by {
        lemma_slot_of(i, per, 0);
    }
}

/// Adding a child after the full children of a node adds its elements at
/// the end.
pub proof fn lemma_node_append(s: Seq<Unit>, s2: Seq<Unit>, h: nat, n: nat, m: nat)
    requires
        h >= 2,
        node_wf(s, h, n),
        n % pow16((h - 1) as nat) == 0,
        n / pow16((h - 1) as nat) < 16,
        n / pow16((h - 1) as nat) < s2.len(),
        forall|j: int| 0 <= j < n / pow16((h - 1) as nat) ==> s2[j] == #[trigger] s[j],
        s2[(n / pow16((h - 1) as nat)) as int] is Seg,
        node_wf(slots_of(s2[(n / pow16((h - 1) as nat)) as int]), (h - 1) as nat, m),
        0 < m <= pow16((h - 1) as nat),
    ensures
        node_wf(s2, h, n + m),
        forall|i: nat| i < n ==> #[trigger] lookup(s2, h, i) == lookup(s, h, i),
        forall|j: nat|
            j < m ==> #[trigger] lookup(s2, h, n + j) == lookup(
                slots_of(s2[(n / pow16((h - 1) as nat)) as int]),
                (h - 1) as nat,
                j,
            ),
{
    let per = pow16((h - 1) as nat);
    lemma_pow16_monotone(0, (h - 1) as nat);
    let k = n / per;
    vstd::arithmetic::div_mod::lemma_fundamental_div_mod(n as int, per as int);
    assert(n == k * per) by (nonlinear_arith)
        requires
            n == per * (n / per) + n % per,
            n % per == 0,
            k == n / per,
    ;
    assert(k >= 1) by (nonlinear_arith)
        requires
            n == k * per,
            n > 0,
    ;
    lemma_full_children(n, h, k);
    // the grown node has one slot more, the new child holding `m`
    lemma_slot_of((n + m - 1) as nat, per, k);
    assert(slot_count(n + m, h) == k + 1);
    assert(child_size(n + m, h, k as int) == m);
    assert(n + m <= pow16(h)) by (nonlinear_arith)
        requires
            n == k * per,
            k < 16,
            m <= per,
            pow16(h) == 16 * per,
    ;
    assert forall|j: int| 0 <= j < slot_count(n + m, h) implies (#[trigger] s2[j] is Seg && node_wf(
        slots_of(s2[j]),
        (h - 1) as nat,
        child_size(n + m, h, j),
    )) by {
        if j < k {
            assert(s2[j] == s[j]);
            assert(child_size(n, h, j) == per);
        }
    }
    assert forall|i: nat| i < n implies #[trigger] lookup(s2, h, i) == lookup(s, h, i) by {
        vstd::arithmetic::div_mod::lemma_div_is_ordered(i as int, (n - 1) as int, per as int);
        let q = (i / per) as int;
        assert(s2[q] == s[q]);
    }
    assert forall|j: nat| j < m implies #[trigger] lookup(s2, h, n + j) == lookup(
        slots_of(s2[k as int]),
        (h - 1) as nat,
        j,
    ) by {
        lemma_slot_of(n + j, per, k);
    }
}

/// The arithmetic of the last used slot: with `k` slots used, the first
/// `k - 1` children are full and the last holds between 1 and `per`.
pub proof fn lemma_last_slot(n: nat, h: nat)
    requires
        h >= 2,
        0 < n <= pow16(h),
    ensures
        1 <= slot_count(n, h) <= 16,
        n == (slot_count(n, h) - 1) * pow16((h - 1) as nat) + child_size(n, h, slot_count(n, h) - 1),
        0 < child_size(n, h, slot_count(n, h) - 1) <= pow16((h - 1) as nat),
{
    let per = pow16((h - 1) as nat);
    lemma_pow16_monotone(0, (h - 1) as nat);
    let last = ((n - 1) as nat) / per;
    vstd::arithmetic::div_mod::lemma_fundamental_div_mod((n - 1) as int, per as int);
    vstd::arithmetic::div_mod::lemma_mod_pos_bound((n - 1) as int, per as int);
    assert(pow16(h) == 16 * per);
    let r = ((n - 1) as nat) % per;
    let n1 = (n - 1) as int;
    assert(n1 == per * last + r);
    assert(last <= 15) by (nonlinear_arith)
        requires
            n1 == per * last + r,
            r >= 0,
            n1 < 16 * per,
            per > 0,
    ;
    assert(n == last * per + (r + 1)) by (nonlinear_arith)
        requires
            n1 == per * last + r,
            n1 == n - 1,
    ;
}

/// Growing the last child of a node by `m` elements grows the node by them,
/// at its end.
pub proof fn lemma_node_grow_last(s: Seq<Unit>, s2: Seq<Unit>, h: nat, n: nat, m: nat)
    requires
        h >= 2,
        node_wf(s, h, n),
        0 < m,
        child_size(n, h, slot_count(n, h) - 1) + m <= pow16((h - 1) as nat),
        s2.len() >= slot_count(n, h),
        forall|j: int| 0 <= j < slot_count(n, h) - 1 ==> s2[j] == #[trigger] s[j],
        s2[slot_count(n, h) - 1] is Seg,
        node_wf(
            slots_of(s2[slot_count(n, h) - 1]),
            (h - 1) as nat,
            child_size(n, h, slot_count(n, h) - 1) + m,
        ),
        forall|i: nat|
            i < child_size(n, h, slot_count(n, h) - 1) ==> #[trigger] lookup(
                slots_of(s2[slot_count(n, h) - 1]),
                (h - 1) as nat,
                i,
            ) == lookup(slots_of(s[slot_count(n, h) - 1]), (h - 1) as nat, i),
    ensures
        node_wf(s2, h, n + m),
        slot_count(n + m, h) == slot_count(n, h),
        forall|i: nat| i < n ==> #[trigger] lookup(s2, h, i) == lookup(s, h, i),
        forall|j: nat|
            j < m ==> #[trigger] lookup(s2, h, n + j) == lookup(
                slots_of(s2[slot_count(n, h) - 1]),
                (h - 1) as nat,
                child_size(n, h, slot_count(n, h) - 1) + j,
            ),
{
    let per = pow16((h - 1) as nat);
    lemma_pow16_monotone(0, (h - 1) as nat);
    lemma_last_slot(n, h);
    let k = slot_count(n, h);
    let last = (k - 1) as nat;
    let nl = child_size(n, h, last as int);
    assert(last * per <= n - 1 < last * per + per);
    lemma_slot_of((n + m - 1) as nat, per, last);
    assert(slot_count(n + m, h) == k);
    assert(child_size(n + m, h, last as int) == nl + m);
    assert(pow16(h) == 16 * per);
    assert(n + m <= pow16(h)) by (nonlinear_arith)
        requires
            n == last * per + nl,
            nl + m <= per,
            last <= 15,
            pow16(h) == 16 * per,
    ;
    assert forall|j: int| 0 <= j < slot_count(n + m, h) implies (#[trigger] s2[j] is Seg && node_wf(
        slots_of(s2[j]),
        (h - 1) as nat,
        child_size(n + m, h, j),
    )) by {
        if j < last {
            assert(s2[j] == s[j]);
        }
    }
    assert forall|i: nat| i < n implies #[trigger] lookup(s2, h, i) == lookup(s, h, i) by {
        vstd::arithmetic::div_mod::lemma_div_is_ordered(i as int, (n - 1) as int, per as int);
        let q = (i / per) as int;
        if q < last {
            assert(s2[q] == s[q]);
        } else {
            vstd::arithmetic::div_mod::lemma_fundamental_div_mod(i as int, per as int);
            assert(i >= last * per) by (nonlinear_arith)
                requires
                    i == per * q + i % per,
                    q == last,
                    i % per >= 0,
            ;
            lemma_slot_of(i, per, last);
            assert(i % per < nl);
            assert(lookup(slots_of(s2[slot_count(n, h) - 1]), (h - 1) as nat, i % per) == lookup(
                slots_of(s[slot_count(n, h) - 1]),
                (h - 1) as nat,
                i % per,
            ));
            assert(q == slot_count(n, h) - 1);
        }
    }
    assert forall|j: nat| j < m implies #[trigger] lookup(s2, h, n + j) == lookup(
        slots_of(s2[last as int]),
        (h - 1) as nat,
        nl + j,
    ) by {
        lemma_slot_of(n + j, per, last);
    }
}

/// The number of elements in the tree of a vector of `count` elements: all
/// but the last 1 to 16.
pub open spec fn spec_tailoff(count: nat) -> nat {
    (((count - 1) as nat) / 16) * 16
}

/// The height of a tree of `t` elements.
pub open spec fn height(t: nat) -> nat {
    digits((t - 1) as nat)
}

/// The allocation width for `n` units: 4, 8 or 16, above `n` while `n` is
/// below 16.
pub open spec fn spec_size(n: nat) -> u32 {
    if n < 4 {
        4
    } else if n < 8 {
        8
    } else {
        16
    }
}

/// The number of elements in the tree of a vector of `count` elements.
pub fn tailoff(count: u32) -> (r: u32)
    requires
        count > 0,
    ensures
        r == spec_tailoff(count as nat),
        r % 16 == 0,
        r < count,
        count - r <= 16,
{
    let c = count - 1;
    let r = c & !MASK;
    assert(r == (c / 16) * 16 && r % 16 == 0 && r <= c && c - r < 16) by (bit_vector)
        requires
            r == c & !15u32,
    ;
    r
}

/// The number of elements in the tail of a vector of `count` elements.
pub fn tail_count(count: u32) -> (r: u32)
    requires
        count > 0,
    ensures
        r == count - spec_tailoff(count as nat),
        1 <= r <= 16,
{
    count - tailoff(count)
}

/// The allocation width for `n` units.
pub fn size(n: u32) -> (r: u32)
    ensures
        r == spec_size(n as nat),
{
    if n < 4 {
        4
    } else if n < 8 {
        8
    } else {
        16
    }
}

/// 1 when a width is the full arity, else 0.
pub fn is_arity_bit(width: u32) -> (r: u32)
    requires
        width < 32,
    ensures
        r == if width >= ARITY { 1u32 } else { 0u32 },
{
    let r = (width >> BITS) & 1;
    assert(r == if width >= 16 { 1u32 } else { 0u32 }) by (bit_vector)
        requires
            r == (width >> 4u32) & 1u32,
            width < 32,
    ;
    r
}

/// How many root slots the tree of `tailoff` elements uses.
pub fn root_content_count(tailoff: u32) -> (r: u32)
    requires
        tailoff >= 16,
    ensures
        r == slot_count(tailoff as nat, height(tailoff as nat)),
        1 <= r <= 16,
{
    let last = tailoff - 1;
    let h = digit_count(last);
    proof {
        lemma_pow16_eight();
        lemma_digits_bound(last as nat, 8);
        lemma_digits_bound(last as nat, 0);
        lemma_digits_bound(last as nat, (h - 1) as nat);
        lemma_digits_bound(last as nat, h as nat);
        lemma_shift_digits(last, (h - 1) as nat);
        lemma_pow16_monotone(0, (h - 1) as nat);
        assert(pow16(h as nat) == 16 * pow16((h - 1) as nat));
        assert(last as nat / pow16((h - 1) as nat) < 16) by (nonlinear_arith)
            requires
                last < 16 * pow16((h - 1) as nat),
                pow16((h - 1) as nat) > 0,
        ;
        if h == 1 {
            assert(pow16(0) == 1);
            assert(last as nat / 1 == last as nat);
        }
    }
    let shift = BITS * (h - 1);
    assert(shift == (((h - 1) as nat) * 4) as u32);
    (last >> shift) + 1
}

/// Digit `h - 1` of `path`, as the index of a slot in a node of height `h`.
pub proof fn lemma_digit_of(path: u32, h: nat)
    requires
        1 <= h <= 8,
    ensures
        ((path >> (((h - 1) as nat * 4) as u32)) as nat) % 16 == (path as nat % pow16(h)) / pow16((h - 1) as nat),
        (path as nat % pow16(h)) / pow16((h - 1) as nat) < 16,
{
    let p = pow16((h - 1) as nat);
    lemma_pow16_monotone(0, (h - 1) as nat);
    lemma_shift_digits(path, (h - 1) as nat);
    assert(pow16(h) == 16 * p);
    assert(pow16(h) == p * 16) by (nonlinear_arith)
        requires
            pow16(h) == 16 * p,
    ;
    vstd::arithmetic::div_mod::lemma_breakdown(path as int, p as int, 16);
    let dd = (path as nat / p) % 16;
    let r = path as nat % p;
    vstd::arithmetic::div_mod::lemma_mod_pos_bound(path as int, p as int);
    assert(path as nat % pow16(h) == dd * p + r) by (nonlinear_arith)
        requires
            path as nat % (p * 16) == p * dd + r,
            pow16(h) == p * 16,
    ;
    lemma_slot_of(path as nat % pow16(h), p, dd);
}

/// The tree of a vector whose tail is full and which then gains an element
/// holds 16 more elements.
pub proof fn lemma_tailoff_step(t: nat)
    requires
        t % 16 == 0,
    ensures
        spec_tailoff(t + 17) == t + 16,
        spec_tailoff(t + 16) == t,
        t > 0 ==> spec_tailoff(t + 1) == t,
{
    lemma_slot_of(t + 16, 16, t / 16 + 1);
    lemma_slot_of(t + 15, 16, t / 16);
    if t > 0 {
        lemma_slot_of(t, 16, t / 16);
        lemma_slot_of((t - 1) as nat, 16, (t / 16 - 1) as nat);
    }
    vstd::arithmetic::div_mod::lemma_fundamental_div_mod(t as int, 16);
}

/// Element `i` of the node of height `height` whose slots begin at
/// `slots[offset]` and which holds `n` elements, where `i` is taken modulo
/// 16 to the height.
fn nth_in(slots: &Vec<Unit>, offset: usize, height: u32, i: u32, Ghost(n): Ghost<nat>) -> (r: Unit)
    requires
        1 <= height <= 8,
        offset <= slots@.len(),
        node_wf(slots@.skip(offset as int), height as nat, n),
        i as nat % pow16(height as nat) < n,
    ensures
        r == lookup(slots@.skip(offset as int), height as nat, i as nat % pow16(height as nat)),
    decreases height,
{
    let ghost h = height as nat;
    let ghost local = i as nat % pow16(h);
    let ghost per = pow16((h - 1) as nat);
    let ghost node = slots@.skip(offset as int);
    let slots_len = slots.len();
    let shift = (height - 1) * BITS;
    assert(shift == (((height - 1) as nat * 4) as u32));
    proof {
        lemma_digit_of(i, h);
        lemma_pow16_monotone(0, (h - 1) as nat);
    }
    let digit = last_digit(i >> shift) as usize;
    assert(digit == local / per);
    if height == 1 {
        proof {
            assert(pow16(0) == 1);
            assert(local / 1 == local);
        }
        share(&slots[offset + digit])
    } else {
        proof {
            vstd::arithmetic::div_mod::lemma_div_is_ordered(local as int, (n - 1) as int, per as int);
            lemma_last_slot(n, h);
            lemma_pow16_divides(i as nat, (h - 1) as nat, h);
            vstd::arithmetic::div_mod::lemma_fundamental_div_mod(local as int, per as int);
            vstd::arithmetic::div_mod::lemma_mod_pos_bound(local as int, per as int);
            let k = slot_count(n, h);
            if digit == k - 1 {
                assert(local % per < child_size(n, h, digit as int)) by (nonlinear_arith)
                    requires
                        local == per * digit + local % per,
                        n == (k - 1) * per + child_size(n, h, digit as int),
                        digit == k - 1,
                        local < n,
                ;
            }
            assert(node[digit as int] is Seg && node_wf(slots_of(node[digit as int]), (h - 1) as nat, child_size(n, h, digit as int)));
        }
        match &slots[offset + digit] {
            Unit::Seg(child) => {
                let r = nth_in(&child.units, 0, height - 1, i, Ghost(child_size(n, h, digit as int)));
                proof {
                    assert(child.units@.skip(0) =~= child.units@);
                    assert(node[digit as int] == slots@[offset + digit]);
                    assert(lookup(node, h, local) == lookup(child.units@, (h - 1) as nat, local % per));
                }
                r
            },
            Unit::Word(_) => {
                proof {
                    assert(false);
                }
                Unit::Word(0)
            },
        }
    }
}

/// Element `idx` of the vector.
pub fn nth(guide: &Guide, idx: u32) -> (r: Unit)
    requires
        guide.wf(),
        idx < guide.count,
    ensures
        r == guide.elements()[idx as int],
{
    let root_index = guide.root_index();
    if guide.count <= TAIL_CAP {
        share(&guide.segment.units[root_index + idx as usize])
    } else {
        let tailoff = tailoff(guide.count);
        if idx >= tailoff {
            match &guide.segment.units[0] {
                Unit::Seg(tail) => share(&tail.units[(idx - tailoff) as usize]),
                Unit::Word(_) => {
                    proof {
                        assert(false);
                    }
                    Unit::Word(0)
                },
            }
        } else {
            let height = digit_count(tailoff - 1);
            proof {
                lemma_pow16_eight();
                lemma_digits_bound((tailoff - 1) as nat, 8);
                lemma_digits_bound((tailoff - 1) as nat, 0);
                lemma_digits_bound((tailoff - 1) as nat, height as nat);
                vstd::arithmetic::div_mod::lemma_small_mod(idx as nat, pow16(height as nat));
            }
            nth_in(&guide.segment.units, root_index, height, idx, Ghost(tailoff as nat))
        }
    }
}

}
