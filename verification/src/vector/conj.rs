//! Adding an element at the end of a vector.

use std::rc::Rc;
use vstd::prelude::*;
use crate::memory::{Unit, Segment, slots_of, share, copy_units, own_or_copy};
use crate::nibble::{pow16, lemma_pow16_monotone, digits, zero_digits, lemma_digits_bound, lemma_pow16_eight, lemma_xor_digits, lemma_pow16_divides, lemma_mod_drop_multiple, lemma_zero_digits, lemma_zero_digits_pow16, lemma_digits_exact};
use super::{spec_size, digit_count, trailing_zero_digit_count, last_digit, slot_count, child_size, node_wf, lookup, lemma_full_children, lemma_slot_of, lemma_node_congruent, lemma_node_single, lemma_node_append, lemma_node_grow_last, height, tailoff, tail_count, size, is_arity_bit, root_content_count, lemma_digit_of, lemma_tailoff_step, BITS, ARITY, TAIL_CAP};
use super::guide::Guide;

verus! {

/// `u` is `end` raised by `k` levels: `k` nested segments of 4 units, each
/// holding the level below in slot 0 and the word 0 in the others.
pub open spec fn raised(u: Unit, k: nat, end: Unit) -> bool
    decreases k,
{
    if k == 0 {
        u == end
    } else {
        &&& u is Seg
        &&& slots_of(u).len() == 4
        &&& raised(slots_of(u)[0], (k - 1) as nat, end)
        &&& forall|j: int| 1 <= j < 4 ==> #[trigger] slots_of(u)[j] == Unit::Word(0)
    }
}

/// A new tail: 16 units, `x` first and the word 0 after it.
pub open spec fn fresh_tail(u: Unit, x: Unit) -> bool {
    &&& u is Seg
    &&& slots_of(u).len() == 16
    &&& slots_of(u)[0] == x
    &&& forall|j: int| 1 <= j < 16 ==> #[trigger] slots_of(u)[j] == Unit::Word(0)
}

/// A chain of `height` segments of 4 units above `end`, each holding the one
/// below in slot 0. Above a full leaf it is a subtree of height `height + 1`
/// whose only elements are the 16 of the leaf.
pub fn path_of_height(height: u32, end: Unit) -> (r: Unit)
    ensures
        raised(r, height as nat, end),
        end is Seg && node_wf(slots_of(end), 1, 16) ==> {
            &&& r is Seg
            &&& node_wf(slots_of(r), (height + 1) as nat, 16)
            &&& forall|j: nat|
                j < 16 ==> #[trigger] lookup(slots_of(r), (height + 1) as nat, j) == lookup(slots_of(end), 1, j)
        },
{
    let ghost leaf = slots_of(end);
    let ghost bottom = end;
    let ghost full_leaf = end is Seg && node_wf(slots_of(end), 1, 16);
    let mut end = end;
    let mut i: u32 = 0;
    while i < height
        invariant
            i <= height,
            raised(end, i as nat, bottom),
            leaf == slots_of(bottom),
            full_leaf == (bottom is Seg && node_wf(leaf, 1, 16)),
            full_leaf ==> {
                &&& end is Seg
                &&& node_wf(slots_of(end), (i + 1) as nat, 16)
                &&& forall|j: nat| j < 16 ==> #[trigger] lookup(slots_of(end), (i + 1) as nat, j) == lookup(leaf, 1, j)
            },
        decreases height - i,
    {
        let mut c = Segment::new(size(1));
        c.units.set(0, end);
        proof {
            if full_leaf {
                lemma_pow16_monotone(1, (i + 1) as nat);
                reveal_with_fuel(pow16, 2);
                lemma_node_single(c.units@, (i + 2) as nat, 16);
            }
        }
        let ghost below = end;
        end = Unit::Seg(Rc::new(c));
        assert(slots_of(end)[0] == below);
        i = i + 1;
    }
    end
}

/// The elements a node of height `height` below `units[offset..]` holds when
/// `path` is the index of the next element: `path` modulo 16 to the height.
pub open spec fn held(path: u32, height: u32) -> nat {
    path as nat % pow16(height as nat)
}

/// The slot that the element of index `path` goes through in a node of
/// height `h`: digit `h - 1` of `path`.
pub open spec fn path_digit(path: u32, h: nat) -> nat {
    (path as nat % pow16(h)) / pow16((h - 1) as nat)
}

/// The unit reached from the node of height `h` with slots `slots` by
/// following the digits of `path` down `len` levels (at least one).
pub open spec fn reached(slots: Seq<Unit>, h: nat, path: u32, len: nat) -> Unit
    decreases len,
{
    let d = path_digit(path, h);
    if len <= 1 {
        slots[d as int]
    } else {
        reached(slots_of(slots[d as int]), (h - 1) as nat, path, (len - 1) as nat)
    }
}

/// Along the digits of `path`, `len` levels down from the node of height `h`,
/// every slot before the one the path goes through keeps its unit, and each
/// node below the top keeps its number of units or is regrown to
/// `size(d + 1)` for the slot `d` the path takes in it.
pub open spec fn path_kept(before: Seq<Unit>, after: Seq<Unit>, h: nat, path: u32, len: nat) -> bool
    decreases len,
{
    let d = path_digit(path, h);
    &&& forall|j: int| 0 <= j < d && j < before.len() ==> #[trigger] after[j] == before[j]
    &&& len > 1 ==> {
        ||| slots_of(after[d as int]).len() == slots_of(before[d as int]).len()
        ||| slots_of(after[d as int]).len() == spec_size(path_digit(path, (h - 1) as nat) + 1)
    }
    &&& len > 1 ==> path_kept(
        slots_of(before[d as int]),
        slots_of(after[d as int]),
        (h - 1) as nat,
        path,
        (len - 1) as nat,
    )
}

/// The nodes that a walk along the digits of `path`, `len` levels down from
/// the node of height `h` with slots `slots`, passes through exist: at every
/// level but the last, the slot the path takes is there and refers to a
/// segment. The slot taken at the last level may be missing.
pub open spec fn path_open(slots: Seq<Unit>, h: nat, path: u32, len: nat) -> bool
    decreases len,
{
    let d = path_digit(path, h);
    len > 1 ==> {
        &&& d < slots.len()
        &&& slots[d as int] is Seg
        &&& path_open(slots_of(slots[d as int]), (h - 1) as nat, path, (len - 1) as nat)
    }
}

/// The walk that a vector's tree makes when its full tail moves in: below
/// `slots` stands a tree of height `height` holding the elements before
/// `path`, whose last `height - path_length` digits are zero and the next one
/// is not, and `end` is a full subtree of the remaining height.
pub open spec fn path_fits(slots: Seq<Unit>, height: u32, path: u32, path_length: u32, end: Unit) -> bool {
    &&& 2 <= height
    &&& 1 <= path_length < height
    &&& node_wf(slots, height as nat, held(path, height))
    &&& held(path, height) % pow16((height - path_length) as nat) == 0
    &&& held(path, height) % pow16((height - path_length + 1) as nat) != 0
    &&& end is Seg
    &&& node_wf(slots_of(end), (height - path_length) as nat, 16)
}

/// The unit that refers to the leaf holding element `i` of the tree of
/// height `h` (2 or more) with root slots `slots`.
pub open spec fn leaf_of(slots: Seq<Unit>, h: nat, i: u32) -> Unit {
    reached(slots, h, i, (h - 1) as nat)
}

/// Following a path `a + b` levels down is following it `a` levels, then
/// `b` more from the node reached.
pub proof fn lemma_reached_split(slots: Seq<Unit>, h: nat, path: u32, a: nat, b: nat)
    requires
        a >= 1,
        b >= 1,
        a < h,
    ensures
        reached(slots, h, path, a + b) == reached(
            slots_of(reached(slots, h, path, a)),
            (h - a) as nat,
            path,
            b,
        ),
    decreases a,
{
    if a > 1 {
        let d = path_digit(path, h);
        lemma_reached_split(slots_of(slots[d as int]), (h - 1) as nat, path, (a - 1) as nat, b);
    }
}

/// Down a unit raised by `k` levels, a path whose last `k + 1` digits are
/// zero goes through slot 0 at every level and reaches the raised unit.
pub proof fn lemma_reached_raised(u: Unit, k: nat, end: Unit, path: u32)
    requires
        k >= 1,
        raised(u, k, end),
        path as nat % pow16(k + 1) == 0,
    ensures
        reached(slots_of(u), k + 1, path, k) == end,
    decreases k,
{
    lemma_pow16_monotone(0, k);
    vstd::arithmetic::div_mod::lemma_div_of0(pow16(k) as int);
    assert(path_digit(path, k + 1) == 0);
    reveal_with_fuel(raised, 2);
    if k > 1 {
        lemma_pow16_divides(path as nat, k, k + 1);
        vstd::arithmetic::div_mod::lemma_small_mod(0, pow16(k));
        lemma_reached_raised(slots_of(u)[0], (k - 1) as nat, end, path);
    }
}

/// Slots that agree with `b` up to the path's slot (and on it, below the
/// top) are kept along the path as well as `b` is.
proof fn lemma_path_kept_from(a: Seq<Unit>, b: Seq<Unit>, after: Seq<Unit>, h: nat, path: u32, len: nat)
    requires
        path_kept(b, after, h, path, len),
        forall|j: int| 0 <= j < path_digit(path, h) && j < a.len() ==> j < b.len() && #[trigger] a[j] == b[j],
        len > 1 ==> a[path_digit(path, h) as int] == b[path_digit(path, h) as int],
    ensures
        path_kept(a, after, h, path, len),
{
    assert forall|j: int| 0 <= j < path_digit(path, h) && j < a.len() implies #[trigger] after[j] == a[j] by {
        assert(a[j] == b[j]);
    }
}

/// In the walk of a vector's tree, the slot the path takes at the top is the
/// last used one; it refers to a partial child, below which the walk goes on
/// as a walk of the same kind.
proof fn lemma_fits_child(slots: Seq<Unit>, height: u32, path: u32, path_length: u32, end: Unit)
    requires
        path_fits(slots, height, path, path_length, end),
        path_length >= 2,
        height <= 8,
    ensures
        path_digit(path, height as nat) == held(path, height) / pow16((height - 1) as nat),
        held(path, height) % pow16((height - 1) as nat) != 0,
        slot_count(held(path, height), height as nat) == path_digit(path, height as nat) + 1,
        path_digit(path, height as nat) < slots.len(),
        slots[path_digit(path, height as nat) as int] is Seg,
        child_size(held(path, height), height as nat, path_digit(path, height as nat) as int)
            == held(path, height) % pow16((height - 1) as nat),
        held(path, (height - 1) as u32) == held(path, height) % pow16((height - 1) as nat),
        path_fits(
            slots_of(slots[path_digit(path, height as nat) as int]),
            (height - 1) as u32,
            path,
            (path_length - 1) as u32,
            end,
        ),
{
    let n = held(path, height);
    let per = pow16((height - 1) as nat);
    let zc = (height - path_length) as nat;
    let d = path_digit(path, height as nat);
    lemma_pow16_monotone(0, (height - 1) as nat);
    lemma_pow16_divides(n, zc + 1, (height - 1) as nat);
    lemma_pow16_monotone(0, zc + 1);
    if n % per == 0 {
        vstd::arithmetic::div_mod::lemma_small_mod(0, pow16(zc + 1));
        assert((n % per) % pow16(zc + 1) == 0);
    }
    vstd::arithmetic::div_mod::lemma_fundamental_div_mod(n as int, per as int);
    vstd::arithmetic::div_mod::lemma_mod_pos_bound(n as int, per as int);
    assert((n / per) * per <= n - 1 < (n / per) * per + per) by (nonlinear_arith)
        requires
            n == per * (n / per) + n % per,
            0 < n % per < per,
    ;
    lemma_slot_of((n - 1) as nat, per, n / per);
    assert(slot_count(n, height as nat) == n / per + 1);
    assert(child_size(n, height as nat, d as int) == n % per);
    assert(slots[d as int] is Seg && node_wf(slots_of(slots[d as int]), (height - 1) as nat, n % per));
    lemma_pow16_divides(path as nat, (height - 1) as nat, height as nat);
    lemma_mod_drop_multiple(n, n / per, zc, (height - 1) as nat);
    lemma_mod_drop_multiple(n, n / per, zc + 1, (height - 1) as nat);
    assert(n - (n / per) * per == n % per);
}

/// The walk of a vector's tree passes through existing nodes.
proof fn lemma_fits_open(slots: Seq<Unit>, height: u32, path: u32, path_length: u32, end: Unit)
    requires
        path_fits(slots, height, path, path_length, end),
        height <= 8,
    ensures
        path_open(slots, height as nat, path, path_length as nat),
    decreases path_length,
{
    reveal_with_fuel(path_open, 2);
    if path_length >= 2 {
        lemma_fits_child(slots, height, path, path_length, end);
        let d = path_digit(path, height as nat);
        if path_length >= 3 {
            lemma_fits_open(slots_of(slots[d as int]), (height - 1) as u32, path, (path_length - 1) as u32, end);
        }
    }
}

/// Walks down `path_length` levels from the node of height `height` whose
/// slots begin at `units[offset]`, along the digits of `path`, and hangs
/// `end` in the slot reached (a `path_length` of 0 walks one level, as 1
/// does). Segments on the way that other owners share are copied first; a
/// segment too short for the slot is replaced by a longer copy. In the tree
/// of a vector, with `path` the index of the next element and `end` a full
/// subtree of the remaining height, this adds the elements of `end` at the
/// end of the tree.
#[verifier::rlimit(40)]
pub fn create_path(
    units: &mut Vec<Unit>,
    offset: usize,
    path: u32,
    height: u32,
    path_length: u32,
    end: Unit,
)
    requires
        1 <= height <= 8,
        path_length < height,
        offset + path_digit(path, height as nat) < old(units)@.len(),
        path_open(old(units)@.skip(offset as int), height as nat, path, path_length as nat),
    ensures
        final(units)@.len() == old(units)@.len(),
        forall|j: int|
            0 <= j < final(units)@.len() && j != offset + path_digit(path, height as nat)
                ==> #[trigger] final(units)@[j] == old(units)@[j],
        path_kept(old(units)@.skip(offset as int), final(units)@.skip(offset as int), height as nat, path, path_length as nat),
        reached(final(units)@.skip(offset as int), height as nat, path, path_length as nat) == end,
        path_fits(old(units)@.skip(offset as int), height, path, path_length, end) ==> {
            &&& node_wf(final(units)@.skip(offset as int), height as nat, held(path, height) + 16)
            &&& forall|i: nat|
                i < held(path, height) ==> #[trigger] lookup(final(units)@.skip(offset as int), height as nat, i)
                    == lookup(old(units)@.skip(offset as int), height as nat, i)
            &&& forall|j: nat|
                j < 16 ==> #[trigger] lookup(final(units)@.skip(offset as int), height as nat, held(path, height) + j)
                    == lookup(slots_of(end), (height - path_length) as nat, j)
        },
    decreases height,
{
    let ghost old_units = units@;
    let ghost top = old_units.skip(offset as int);
    let ghost tree = path_fits(top, height, path, path_length, end);
    proof {
        lemma_digit_of(path, height as nat);
    }
    let shift = (height - 1) * BITS;
    assert(shift == (((height - 1) as nat * 4) as u32));
    let digit = last_digit(path >> shift) as usize;
    assert(digit == path_digit(path, height as nat));
    let units_len = units.len();
    assert(offset + digit < units_len);
    if path_length <= 1 {
        units.set(offset + digit, end);
        proof {
            let s2 = units@.skip(offset as int);
            assert(s2[digit as int] == end);
            if tree {
                let n = held(path, height);
                let per = pow16((height - 1) as nat);
                lemma_pow16_monotone(1, (height - 1) as nat);
                reveal_with_fuel(pow16, 2);
                assert forall|j: int| 0 <= j < n / per implies s2[j] == #[trigger] top[j] by {}
                lemma_node_append(top, s2, height as nat, n, 16);
            }
        }
        return;
    }
    let mut slot = Unit::Word(0);
    units.set_and_swap(offset + digit, &mut slot);
    let ghost old_child = slots_of(slot);
    assert(old_child == slots_of(top[digit as int]));
    let rc = match slot {
        Unit::Seg(rc) => rc,
        Unit::Word(_) => {
            proof {
                assert(false);
            }
            return;
        },
    };
    proof {
        lemma_digit_of(path, (height - 1) as nat);
    }
    let child_shift = (height - 2) * BITS;
    assert(child_shift == (((height - 2) as nat * 4) as u32));
    let child_digit = last_digit(path >> child_shift);
    assert(child_digit == path_digit(path, (height - 1) as nat));
    let mut s = match Rc::try_unwrap(rc) {
        Ok(s) => {
            if s.has_index(child_digit) {
                s
            } else {
                let mut t = Segment::new(size(child_digit + 1));
                let keep = s.capacity();
                copy_units(&s.units, 0, &mut t.units, 0, keep);
                assert(forall|j: int| 0 <= j <= child_digit && j < old_child.len() ==> #[trigger] t.units@[j] == old_child[j]);
                t
            }
        },
        Err(shared) => {
            let mut t = Segment::new(size(child_digit + 1));
            let keep = if shared.capacity() < (child_digit + 1) as usize {
                shared.capacity()
            } else {
                (child_digit + 1) as usize
            };
            copy_units(&shared.units, 0, &mut t.units, 0, keep);
            assert(forall|j: int| 0 <= j <= child_digit && j < old_child.len() ==> #[trigger] t.units@[j] == old_child[j]);
            t
        },
    };
    // the child keeps its units up to the path's slot, which it has
    assert(forall|j: int| 0 <= j <= child_digit && j < old_child.len() ==> #[trigger] s.units@[j] == old_child[j]);
    assert(child_digit < s.units@.len());
    assert(s.units@.len() == old_child.len() || s.units@.len() == spec_size(child_digit as nat + 1));
    let ghost before = s.units@;
    proof {
        assert(before.skip(0) =~= before);
        if path_length > 2 {
            reveal_with_fuel(path_open, 2);
            assert(child_digit < old_child.len());
            assert(before[child_digit as int] == old_child[child_digit as int]);
        }
        if tree {
            lemma_fits_child(top, height, path, path_length, end);
            let n_c = held(path, (height - 1) as u32);
            let child_height = (height - 1) as nat;
            let p2 = pow16((height - 2) as nat);
            lemma_pow16_monotone(0, (height - 2) as nat);
            vstd::arithmetic::div_mod::lemma_div_is_ordered((n_c - 1) as int, n_c as int, p2 as int);
            assert(slot_count(n_c, child_height) <= child_digit + 1);
            lemma_node_congruent(old_child, before, child_height, n_c);
            assert(path_fits(before, (height - 1) as u32, path, (path_length - 1) as u32, end));
        }
    }
    create_path(&mut s.units, 0, path, height - 1, path_length - 1, end);
    units.set(offset + digit, Unit::Seg(Rc::new(s)));
    proof {
        let s_new = units@.skip(offset as int);
        assert(s.units@.skip(0) =~= s.units@);
        assert(slots_of(s_new[digit as int]) == s.units@);
        assert(reached(s_new, height as nat, path, path_length as nat) == end);
        assert forall|j: int| 0 <= j < child_digit && j < old_child.len() implies j < before.len()
            && #[trigger] old_child[j] == before[j] by {}
        lemma_path_kept_from(old_child, before, s.units@, (height - 1) as nat, path, (path_length - 1) as nat);
        assert(path_kept(top, s_new, height as nat, path, path_length as nat));
        if tree {
            let n = held(path, height);
            let per = pow16((height - 1) as nat);
            let n_c = n % per;
            let zc = (height - path_length) as nat;
            lemma_pow16_monotone(1, zc);
            reveal_with_fuel(pow16, 2);
            lemma_pow16_divides(n_c, 1, zc);
            lemma_pow16_divides(per, 1, (height - 1) as nat);
            assert(n_c + 16 <= per) by (nonlinear_arith)
                requires
                    n_c % 16 == 0,
                    per % 16 == 0,
                    n_c < per,
            ;
            assert forall|j: int| 0 <= j < slot_count(n, height as nat) - 1 implies s_new[j] == #[trigger] top[j] by {}
            lemma_node_grow_last(top, s_new, height as nat, n, 16);
        }
    }
}

/// The bits of resizing an untailed header to `width` root slots: a tail
/// slot is gained just when a compact header needs the full 16, and the
/// header is no longer compact then.
proof fn lemma_untailed_bits(compact: u32, width: u32, grew: u32, is_compact: u32, cap: u32)
    by (bit_vector)
    requires
        compact <= 1,
        width == 4 || width == 8 || width == 16,
        grew == compact & (if width >= 16 { 1u32 } else { 0u32 }),
        is_compact == compact & !grew,
        cap == width | grew,
    ensures
        grew == if compact == 1 && width >= 16 { 1u32 } else { 0u32 },
        is_compact == if grew == 1 { 0u32 } else { compact },
        cap == width + grew,
{
}

/// A width with its arity bit set, as `|`, is the width plus the bit.
proof fn lemma_width_bit(width: u32, bit: u32)
    by (bit_vector)
    requires
        width == 4 || width == 8 || width == 16,
        bit <= 1,
        bit == 1 ==> width == 16,
    ensures
        width | bit == width + bit,
{
}

/// 1 when an untailed header resized to `size(count)` root slots gains a
/// tail slot: a compact header whose root needs the full 16.
pub open spec fn grown_tail_slot(guide: Guide) -> nat {
    if guide.is_compact_bit == 1 && spec_size(guide.count as nat) >= 16 {
        1
    } else {
        0
    }
}

/// The header of an untailed vector resized to `size(count)` root slots: the
/// units before the root, a tail slot if one is gained, the `count` elements
/// of the root, and the word 0 after them.
pub open spec fn resized_untailed(guide: Guide) -> Seq<Unit> {
    let at = guide.root_at();
    let new_at = at + grown_tail_slot(guide);
    Seq::new(
        (new_at + spec_size(guide.count as nat)) as nat,
        |j: int|
            if j < at {
                guide.segment.units@[j]
            } else if new_at <= j < new_at + guide.count {
                guide.root_slots()[j - new_at]
            } else {
                Unit::Word(0)
            },
    )
}

/// A header of a tailed vector with room for `slots` root slots after the
/// tail slot (`size(slots + 1)` units, one more when that is the full 16):
/// the first `keep` units of `units`, and the word 0 after them.
pub open spec fn regrown(units: Seq<Unit>, keep: nat, slots: nat) -> Seq<Unit> {
    let w = spec_size(slots + 1) as nat;
    let cap = if w >= 16 { w + 1 } else { w };
    Seq::new(cap, |j: int| if j < keep { units[j] } else { Unit::Word(0) })
}

/// The vector `conj_untailed` leaves: a full root becomes the tree and a new
/// tail of `x` takes the tail slot; else a header with room takes `x` in
/// place, and one without a resized copy of it does.
pub open spec fn root_took(guide: Guide, x: Unit, r: Guide) -> bool {
    &&& guide.count == TAIL_CAP ==> {
        &&& r.is_compact_bit == guide.is_compact_bit
        &&& r.segment.units@ == guide.segment.units@.update(0, r.segment.units@[0])
        &&& fresh_tail(r.segment.units@[0], x)
    }
    &&& guide.count < TAIL_CAP && guide.root_at() + guide.count < guide.segment.units@.len() ==> {
        &&& r.is_compact_bit == guide.is_compact_bit
        &&& r.segment.units@ == guide.segment.units@.update(guide.root_at() + guide.count, x)
    }
    &&& guide.count < TAIL_CAP && guide.root_at() + guide.count >= guide.segment.units@.len() ==> {
        &&& r.is_compact_bit == guide.is_compact_bit - grown_tail_slot(guide)
        &&& r.segment.units@ == resized_untailed(guide).update(
            guide.root_at() + grown_tail_slot(guide) + guide.count,
            x,
        )
    }
}

/// Adds `x` to a vector that keeps its elements in the root: in the next
/// root slot, in a copy of the header with room for more root slots, or,
/// once the root holds 16, as the first element of a new tail.
pub fn conj_untailed(guide: Guide, x: Unit) -> (r: Rc<Guide>)
    requires
        guide.wf(),
        guide.count <= TAIL_CAP,
    ensures
        r.wf(),
        r.elements() == guide.elements().push(x),
        root_took(guide, x, *r),
{
    let ghost old_guide = guide;
    let mut guide = guide;
    if guide.count == TAIL_CAP {
        // complete: the root becomes the tree, x starts the tail
        let mut tail = Segment::new(TAIL_CAP);
        tail.units.set(0, x);
        guide.segment.units.set(0, Unit::Seg(Rc::new(tail)));
        let g = guide.inc_count();
        proof {
            assert(old_guide.is_compact_bit == 0);
            assert(g.root_slots() =~= old_guide.root_slots());
            lemma_tailoff_step(0);
            reveal_with_fuel(digits, 2);
            assert(height(16) == 1);
            assert(g.elements() =~= old_guide.elements().push(x));
        }
        g.store()
    } else {
        let root_index = guide.root_index();
        if guide.segment.has_index(root_index as u32 + guide.count) {
            guide.segment.units.set(root_index + guide.count as usize, x);
            let g = guide.inc_count();
            proof {
                assert(g.root_slots() =~= old_guide.root_slots().update(old_guide.count as int, x));
                assert(g.elements() =~= old_guide.elements().push(x));
            }
            g.store()
        } else {
            let width = size(guide.count);
            let grew_tail_bit = guide.is_compact_bit & is_arity_bit(width);
            let compact = guide.is_compact_bit;
            let is_compact_bit = compact & !grew_tail_bit;
            let cap = width | grew_tail_bit;
            proof {
                lemma_untailed_bits(compact, width, grew_tail_bit, is_compact_bit, cap);
            }
            let mut s = Segment::new(root_index as u32 + cap);
            let new_root_index = (1 - is_compact_bit) as usize;
            copy_units(&guide.segment.units, 0, &mut s.units, 0, root_index);
            copy_units(&guide.segment.units, root_index, &mut s.units, new_root_index, guide.count as usize);
            assert(s.units@ =~= resized_untailed(old_guide));
            s.units.set(new_root_index + guide.count as usize, x);
            let g = Guide { count: guide.count, is_compact_bit, segment: s }.inc_count();
            proof {
                assert forall|j: int| 0 <= j < old_guide.count implies #[trigger] g.root_slots()[j]
                    == old_guide.root_slots()[j] by {}
                assert(g.elements() =~= old_guide.elements().push(x));
            }
            g.store()
        }
    }
}

/// The state in which the full tail of a vector moves into its tree: the
/// tail holds 16 and the tree `tailoff` elements.
pub open spec fn tail_full(guide: Guide, tailoff: u32) -> bool {
    &&& guide.wf()
    &&& guide.count > TAIL_CAP
    &&& guide.count < u32::MAX
    &&& tailoff == guide.count - TAIL_CAP
    &&& guide.tree_size() == tailoff
}

/// A new tail of 16 units holding `x` first.
fn new_tail(x: Unit) -> (r: Unit)
    ensures
        fresh_tail(r, x),
{
    let mut t = Segment::new(TAIL_CAP);
    t.units.set(0, x);
    Unit::Seg(Rc::new(t))
}

/// The vector `growing_height` leaves: a header of a tail slot and 4 root
/// slots, with a new tail of `x`, the old root's 16 slots in the first root
/// slot, the old tail raised to their height in the second, and the word 0
/// in the others; the tree is a level higher and the old tail is the leaf of
/// the elements from `tailoff` on.
pub open spec fn grown_a_level(guide: Guide, x: Unit, tailoff: u32, r: Guide) -> bool {
    &&& r.is_compact_bit == 0
    &&& r.segment.units@.len() == 5
    &&& fresh_tail(r.segment.units@[0], x)
    &&& r.segment.units@[1] is Seg
    &&& slots_of(r.segment.units@[1]) == guide.root_slots().take(16)
    &&& raised(r.segment.units@[2], (height(tailoff as nat) - 1) as nat, guide.segment.units@[0])
    &&& r.segment.units@[3] == Unit::Word(0)
    &&& r.segment.units@[4] == Unit::Word(0)
    &&& height(r.tree_size()) == height(tailoff as nat) + 1
    &&& leaf_of(r.root_slots(), height(r.tree_size()), tailoff) == guide.segment.units@[0]
}

/// The vector `growing_root` leaves: the header, or a regrown copy when it
/// has no room, with a new tail of `x`; its used root slots keep their units
/// and the next holds the old tail raised to the height of the root's
/// children; the tree keeps its height and the old tail is the leaf of the
/// elements from `tailoff` on.
pub open spec fn grown_in_root(guide: Guide, x: Unit, tailoff: u32, r: Guide) -> bool {
    let d = slot_count(tailoff as nat, height(tailoff as nat));
    &&& r.is_compact_bit == guide.is_compact_bit
    &&& fresh_tail(r.segment.units@[0], x)
    &&& r.segment.units@ == header_for_slot(guide.segment.units@, d).update(
        1 + d as int,
        r.segment.units@[1 + d as int],
    ).update(0, r.segment.units@[0])
    &&& raised(r.segment.units@[1 + d as int], (height(tailoff as nat) - 2) as nat, guide.segment.units@[0])
    &&& forall|j: int| 0 <= j < d ==> #[trigger] r.root_slots()[j] == guide.root_slots()[j]
    &&& height(r.tree_size()) == height(tailoff as nat)
    &&& leaf_of(r.root_slots(), height(r.tree_size()), tailoff) == guide.segment.units@[0]
}

/// The vector `growing_child` leaves: the header as it stands but for a new
/// tail of `x` and the root slot of the path; down the path every slot
/// before it keeps its unit, and where the path ends hangs the old tail,
/// raised to the height of that place; the tree keeps its height and the old
/// tail is the leaf of the elements from `tailoff` on.
pub open spec fn grown_in_child(guide: Guide, x: Unit, tailoff: u32, r: Guide) -> bool {
    let h = height(tailoff as nat);
    let zc = zero_digits(tailoff as nat);
    &&& r.is_compact_bit == guide.is_compact_bit
    &&& fresh_tail(r.segment.units@[0], x)
    &&& r.segment.units@.len() == guide.segment.units@.len()
    &&& forall|j: int|
        1 <= j < r.segment.units@.len() && j != 1 + path_digit(tailoff, h)
            ==> #[trigger] r.segment.units@[j] == guide.segment.units@[j]
    &&& path_kept(guide.root_slots(), r.root_slots(), h, tailoff, (h - zc) as nat)
    &&& raised(reached(r.root_slots(), h, tailoff, (h - zc) as nat), (zc - 1) as nat, guide.segment.units@[0])
    &&& height(r.tree_size()) == h
    &&& leaf_of(r.root_slots(), height(r.tree_size()), tailoff) == guide.segment.units@[0]
}

/// The tree is full: it becomes the first child of a new root one level
/// higher, and the old tail, raised to the same height, the second.
pub fn growing_height(guide: Guide, x: Unit, tailoff: u32) -> (r: Rc<Guide>)
    requires
        tail_full(guide, tailoff),
        tailoff as nat == pow16(height(tailoff as nat)),
    ensures
        r.wf(),
        r.elements() == guide.elements().push(x),
        grown_a_level(guide, x, tailoff, *r),
{
    let ghost old_guide = guide;
    let ghost h = height(tailoff as nat);
    let ghost old_root = guide.root_slots();
    proof {
        lemma_pow16_eight();
        lemma_digits_bound((tailoff - 1) as nat, 8);
        lemma_digits_bound((tailoff - 1) as nat, 0);
        if h >= 8 {
            lemma_pow16_monotone(8, h);
        }
        lemma_pow16_monotone(1, h);
        reveal_with_fuel(pow16, 2);
        if h == 1 {
            assert(slot_count(tailoff as nat, h) == 16);
        } else {
            lemma_full_children(tailoff as nat, h, 16);
        }
    }
    let root_index = guide.root_index();
    let mut s = Segment::new(root_index as u32 + size(3));
    copy_units(&guide.segment.units, 0, &mut s.units, 0, root_index);
    let mut c = Segment::new(ARITY);
    copy_units(&guide.segment.units, root_index, &mut c.units, 0, ARITY as usize);
    proof {
        assert forall|j: int| 0 <= j < slot_count(tailoff as nat, h) implies c.units@[j]
            == #[trigger] old_root[j] by {}
        lemma_node_congruent(old_root, c.units@, h, tailoff as nat);
        assert(c.units@ =~= old_root.take(16));
    }
    s.units.set(root_index, Unit::Seg(Rc::new(c)));
    let mut g = Guide { count: guide.count, is_compact_bit: 0, segment: s };
    let end = share(&g.segment.units[0]);
    assert(end == old_guide.segment.units@[0]);
    assert(tailoff >> BITS == tailoff / 16) by (bit_vector);
    proof {
        assert(pow16(h) == 16 * pow16((h - 1) as nat));
        assert((tailoff / 16) as nat == pow16((h - 1) as nat));
        lemma_zero_digits_pow16((h - 1) as nat);
    }
    let path = path_of_height(trailing_zero_digit_count(tailoff >> BITS), end);
    let ghost raised_tail = path;
    g.segment.units.set(root_index + 1, path);
    let tail = new_tail(x);
    g.segment.units.set(0, tail);
    let g = g.inc_count();
    proof {
        // the old tail is the leaf of the new elements
        let root = g.root_slots();
        let t = tailoff as nat;
        assert(pow16(h + 1) == 16 * pow16(h));
        vstd::arithmetic::div_mod::lemma_small_mod(t, pow16(h + 1));
        vstd::arithmetic::div_mod::lemma_div_by_self(pow16(h) as int);
        assert(path_digit(tailoff, h + 1) == 1);
        assert(root[1] == raised_tail);
        if h >= 2 {
            vstd::arithmetic::div_mod::lemma_mod_self_0(pow16(h) as int);
            lemma_reached_raised(raised_tail, (h - 1) as nat, old_guide.segment.units@[0], tailoff);
        }
        assert(leaf_of(root, h + 1, tailoff) == old_guide.segment.units@[0]);
    }
    proof {
        let root = g.root_slots();
        lemma_node_single(root, h + 1, tailoff as nat);
        lemma_pow16_divides(tailoff as nat, h, h);
        vstd::arithmetic::div_mod::lemma_div_by_self(tailoff as int);
        lemma_node_append(root, root, h + 1, tailoff as nat, 16);
        lemma_tailoff_step(tailoff as nat);
        assert(g.tree_size() == tailoff + 16);
        lemma_pow16_monotone(h, h + 1);
        assert(pow16(h + 1) == 16 * pow16(h));
        lemma_digits_exact((tailoff + 15) as nat, h + 1);
        assert(height(g.tree_size()) == h + 1);
        assert forall|i: nat| i < g.count implies #[trigger] g.element(i) == old_guide.elements().push(x)[i as int] by {
            if i < tailoff {
                assert(lookup(root, h + 1, i) == lookup(c.units@, h, i));
            } else if i < tailoff + 16 {
                assert(lookup(root, h + 1, tailoff as nat + (i - tailoff) as nat) == lookup(slots_of(path), h, (i - tailoff) as nat));
            }
        }
        assert(g.elements() =~= old_guide.elements().push(x));
    }
    g.store()
}

/// The header that root slot `d` is written in: `units` itself when it has
/// room for that slot, else a regrown copy with room for `d + 1` root slots.
pub open spec fn header_for_slot(units: Seq<Unit>, d: nat) -> Seq<Unit> {
    if 1 + d < units.len() {
        units
    } else {
        regrown(units, 1 + d, d + 1)
    }
}

/// The root has a free place at the top level: the old tail, raised to the
/// height of the root's children, goes into the next root slot, in a copy of
/// the header with more root slots when the header has no room.
pub fn growing_root(guide: Guide, x: Unit, tailoff: u32) -> (r: Rc<Guide>)
    requires
        tail_full(guide, tailoff),
        height(tailoff as nat) >= 2,
        tailoff as nat % pow16((height(tailoff as nat) - 1) as nat) == 0,
        (tailoff as nat) < pow16(height(tailoff as nat)),
    ensures
        r.wf(),
        r.elements() == guide.elements().push(x),
        grown_in_root(guide, x, tailoff, *r),
{
    let ghost old_guide = guide;
    let ghost h = height(tailoff as nat);
    let ghost per = pow16((h - 1) as nat);
    let ghost old_root = guide.root_slots();
    let ghost t = tailoff as nat;
    proof {
        lemma_pow16_eight();
        lemma_digits_bound((tailoff - 1) as nat, 8);
        lemma_pow16_monotone(1, (h - 1) as nat);
        reveal_with_fuel(pow16, 2);
        vstd::arithmetic::div_mod::lemma_fundamental_div_mod(t as int, per as int);
        assert(t == (t / per) * per) by (nonlinear_arith)
            requires
                t == per * (t / per) + t % per,
                t % per == 0,
        ;
        assert(t / per >= 1) by (nonlinear_arith)
            requires
                t == (t / per) * per,
                t > 0,
        ;
        assert(pow16(h) == 16 * per);
        assert(t / per < 16) by (nonlinear_arith)
            requires
                t == (t / per) * per,
                t < 16 * per,
                per > 0,
        ;
        lemma_full_children(t, h, t / per);
    }
    let root_count = root_content_count(tailoff);
    assert(root_count == t / per);
    let root_index = guide.root_index();
    let mut g = if guide.segment.has_index(root_index as u32 + root_count) {
        guide
    } else {
        let grown_root_count = root_count + 1;
        let width = size(grown_root_count + 1);
        let bit = is_arity_bit(width);
        let cap = root_index as u32 - 1 + (width | bit);
        proof {
            lemma_width_bit(width, bit);
        }
        let mut s = Segment::new(cap);
        copy_units(&guide.segment.units, 0, &mut s.units, 0, root_index + root_count as usize);
        let g = Guide { count: guide.count, is_compact_bit: guide.is_compact_bit, segment: s };
        assert forall|j: int| 0 <= j < root_count implies #[trigger] g.root_slots()[j] == old_root[j] by {}
        assert(g.segment.units@[0] == old_guide.segment.units@[0]);
        assert(g.segment.units@ =~= regrown(old_guide.segment.units@, 1 + root_count as nat, root_count as nat + 1));
        g
    };
    assert(g.segment.units@ == header_for_slot(old_guide.segment.units@, root_count as nat));
    assert(g.is_compact_bit == old_guide.is_compact_bit);
    assert(forall|j: int| 0 <= j < root_count ==> #[trigger] g.root_slots()[j] == old_root[j]);
    assert(g.segment.units@[0] == old_guide.segment.units@[0]);
    assert(root_index + root_count < g.segment.units@.len());
    let end = share(&g.segment.units[0]);
    assert(tailoff >> BITS == tailoff / 16) by (bit_vector);
    proof {
        // the tree has h - 1 trailing zero digits, so the raised tail has height h - 1
        lemma_zero_digits(tailoff as nat, (h - 1) as nat);
        lemma_zero_digits(tailoff as nat, h);
        lemma_zero_digits(tailoff as nat, 1);
        vstd::arithmetic::div_mod::lemma_small_mod(tailoff as nat, pow16(h));
        assert(zero_digits(tailoff as nat) == h - 1);
        assert(zero_digits((tailoff / 16) as nat) == h - 2);
    }
    let path = path_of_height(trailing_zero_digit_count(tailoff >> BITS), end);
    let ghost before = g.root_slots();
    let ghost header = g.segment.units@;
    let ghost raised_tail = path;
    g.segment.units.set(root_index + root_count as usize, path);
    let tail = new_tail(x);
    g.segment.units.set(0, tail);
    let g = g.inc_count();
    assert(g.segment.units@ =~= header.update(1 + root_count as int, path).update(0, tail));
    proof {
        // the old tail is the leaf of the new elements
        let root = g.root_slots();
        vstd::arithmetic::div_mod::lemma_small_mod(t, pow16(h));
        assert(path_digit(tailoff, h) == root_count);
        assert(root[root_count as int] == raised_tail);
        if h > 2 {
            lemma_reached_raised(raised_tail, (h - 2) as nat, old_guide.segment.units@[0], tailoff);
        }
        assert(leaf_of(root, h, tailoff) == old_guide.segment.units@[0]);
    }
    proof {
        let root = g.root_slots();
        assert forall|j: int| 0 <= j < t / per implies root[j] == #[trigger] old_root[j] by {}
        lemma_node_append(old_root, root, h, tailoff as nat, 16);
        lemma_tailoff_step(tailoff as nat);
        assert(g.tree_size() == tailoff + 16);
        lemma_pow16_divides(0, 1, h);
        assert(tailoff % 16 == 0);
        assert(pow16(h) % 16 == 0) by {
            lemma_pow16_divides(0, 1, h);
        }
        assert(tailoff + 16 <= pow16(h)) by (nonlinear_arith)
            requires
                tailoff % 16 == 0,
                pow16(h) % 16 == 0,
                tailoff < pow16(h),
        ;
        lemma_digits_bound((tailoff - 1) as nat, (h - 1) as nat);
        lemma_digits_exact((tailoff + 15) as nat, h);
        assert(height(g.tree_size()) == h);
        assert forall|i: nat| i < g.count implies #[trigger] g.element(i) == old_guide.elements().push(x)[i as int] by {
            if tailoff <= i < tailoff + 16 {
                assert(lookup(root, h, tailoff as nat + (i - tailoff) as nat) == lookup(slots_of(path), (h - 1) as nat, (i - tailoff) as nat));
            }
        }
        assert(g.elements() =~= old_guide.elements().push(x));
    }
    g.store()
}

/// The last child of the root has a free place: the path down to it is
/// made writable and the old tail, raised to the height of the free place,
/// hangs there.
pub fn growing_child(guide: Guide, x: Unit, tailoff: u32) -> (r: Rc<Guide>)
    requires
        tail_full(guide, tailoff),
        zero_digits(tailoff as nat) + 1 < height(tailoff as nat),
    ensures
        r.wf(),
        r.elements() == guide.elements().push(x),
        grown_in_child(guide, x, tailoff, *r),
{
    let ghost old_guide = guide;
    let ghost t = tailoff as nat;
    let ghost h = height(t);
    let ghost zc = zero_digits(t);
    let ghost old_root = guide.root_slots();
    proof {
        lemma_pow16_eight();
        lemma_digits_bound((t - 1) as nat, 8);
        lemma_digits_bound((t - 1) as nat, h);
        lemma_digits_bound((t - 1) as nat, (h - 1) as nat);
        lemma_zero_digits(t, 1);
        lemma_zero_digits(t, zc);
        lemma_zero_digits(t, zc + 1);
        lemma_zero_digits(t, (h - 1) as nat);
        lemma_zero_digits(t, h);
        // the tree is not a power of 16, so it has as many digits as its last index
        if t == pow16(h) {
            vstd::arithmetic::div_mod::lemma_mod_self_0(t as int);
        }
        lemma_digits_exact(t, h);
        vstd::arithmetic::div_mod::lemma_small_mod(t, pow16(h));
    }
    let zero_count = trailing_zero_digit_count(tailoff);
    let digit_count = digit_count(tailoff);
    let root_index = guide.root_index();
    let end = share(&guide.segment.units[0]);
    let path = path_of_height(zero_count - 1, end);
    let mut guide = guide;
    proof {
        assert(path_fits(old_root, digit_count, tailoff, (digit_count - zero_count) as u32, path));
        lemma_fits_open(old_root, digit_count, tailoff, (digit_count - zero_count) as u32, path);
        lemma_fits_child(old_root, digit_count, tailoff, (digit_count - zero_count) as u32, path);
        assert(old_root == guide.segment.units@.skip(root_index as int));
    }
    create_path(&mut guide.segment.units, root_index, tailoff, digit_count, digit_count - zero_count, path);
    let ghost grown = guide.segment.units@.skip(1);
    assert(old_root == old_guide.segment.units@.skip(1));
    let tail = new_tail(x);
    guide.segment.units.set(0, tail);
    let g = guide.inc_count();
    proof {
        let root = g.root_slots();
        assert(root =~= grown);
        lemma_tailoff_step(t);
        assert(g.tree_size() == t + 16);
        lemma_pow16_divides(0, 1, h);
        assert(t + 16 <= pow16(h)) by (nonlinear_arith)
            requires
                t % 16 == 0,
                pow16(h) % 16 == 0,
                t < pow16(h),
        ;
        lemma_digits_exact((t + 15) as nat, h);
        assert(height(g.tree_size()) == h);
        assert(held(tailoff, digit_count) == t);
        assert forall|i: nat| i < g.count implies #[trigger] g.element(i) == old_guide.elements().push(x)[i as int] by {
            if t <= i < t + 16 {
                assert(lookup(root, h, t + (i - t) as nat) == lookup(slots_of(path), zc, (i - t) as nat));
            } else if i < t {
                assert(lookup(root, h, i) == lookup(old_root, h, i));
            }
        }
        assert(g.elements() =~= old_guide.elements().push(x));
        // the old tail is the leaf of the new elements
        let u = reached(root, h, tailoff, (h - zc) as nat);
        assert(raised(u, (zc - 1) as nat, old_guide.segment.units@[0]));
        if zc >= 2 {
            lemma_reached_split(root, h, tailoff, (h - zc) as nat, (zc - 1) as nat);
            lemma_reached_raised(u, (zc - 1) as nat, old_guide.segment.units@[0], tailoff);
        }
        assert(leaf_of(root, h, tailoff) == old_guide.segment.units@[0]);
    }
    g.store()
}

/// The vector `conj_tailed` leaves when its tail has room: the header as it
/// stands but for the tail slot, which refers to the tail with `x` written
/// in, or to a copy of its elements followed by `x` when other vectors share
/// it.
pub open spec fn tail_took(guide: Guide, x: Unit, r: Guide) -> bool {
    &&& r.is_compact_bit == guide.is_compact_bit
    &&& r.segment.units@ == guide.segment.units@.update(0, r.segment.units@[0])
    &&& r.segment.units@[0] is Seg
    &&& {
        ||| r.tail_slots() == guide.tail_slots().update(guide.count - guide.tree_size(), x)
        ||| r.tail_slots() == copied_tail(guide.tail_slots(), (guide.count - guide.tree_size()) as nat, x)
    }
}

/// The vector `conj_tailed_complete` leaves when the full tail moves into a
/// tree of `t` elements and height `h`: a full tree (`t` is 16 to the `h`)
/// grows a level, a tree with a free root slot (`t` a multiple of 16 to the
/// `h - 1`) grows there, and any other grows its last child; in every case a
/// new tail holds `x` and the old tail is the leaf of the elements from `t`
/// on.
pub open spec fn tail_moved(guide: Guide, x: Unit, r: Guide) -> bool {
    let t = guide.tree_size();
    let h = height(t);
    let tailoff = (guide.count - TAIL_CAP) as u32;
    &&& t == pow16(h) ==> grown_a_level(guide, x, tailoff, r)
    &&& t < pow16(h) && t % pow16((h - 1) as nat) == 0 ==> grown_in_root(guide, x, tailoff, r)
    &&& t % pow16((h - 1) as nat) != 0 ==> grown_in_child(guide, x, tailoff, r)
    &&& fresh_tail(r.segment.units@[0], x)
    &&& leaf_of(r.root_slots(), height(r.tree_size()), tailoff) == guide.segment.units@[0]
}

/// The shapes that `tail_moved` tells apart cover every tree of a vector
/// whose tail moves in, and no two of them hold at once.
pub proof fn lemma_tail_moved_cases(t: nat)
    requires
        t > 0,
        t % 16 == 0,
    ensures
        t <= pow16(height(t)),
        t == pow16(height(t)) ==> t % pow16((height(t) - 1) as nat) == 0,
{
    lemma_digits_bound((t - 1) as nat, height(t));
    lemma_pow16_divides(0, (height(t) - 1) as nat, height(t));
}

/// The tail is full and moves into the tree. Comparing the digits of the
/// last index of the tree with those of `tailoff ^ (tailoff - 1)` tells
/// where: a full tree grows a level, a tree with a free root slot grows
/// there, and otherwise the last child of the root grows.
pub fn conj_tailed_complete(guide: Guide, x: Unit) -> (r: Rc<Guide>)
    requires
        guide.wf(),
        guide.count > TAIL_CAP,
        guide.count < u32::MAX,
        guide.count - guide.tree_size() == TAIL_CAP,
    ensures
        r.wf(),
        r.elements() == guide.elements().push(x),
        tail_moved(guide, x, *r),
{
    let tailoff = guide.count - TAIL_CAP;
    let last_index = tailoff - 1;
    let path_diff = tailoff ^ last_index;
    let ghost t = tailoff as nat;
    let ghost h = height(t);
    proof {
        lemma_xor_digits(tailoff);
        assert(tailoff % 16 == 0);
        lemma_zero_digits(t, 1);
        lemma_zero_digits(t, h);
        lemma_zero_digits(t, (h - 1) as nat);
        lemma_digits_bound((t - 1) as nat, h);
        lemma_digits_bound((t - 1) as nat, (h - 1) as nat);
        lemma_pow16_monotone(0, h);
        lemma_pow16_divides(0, (h - 1) as nat, h);
    }
    let ghost old_guide = guide;
    let height_digits = digit_count(last_index);
    let diff_digits = digit_count(path_diff);
    if height_digits < diff_digits {
        proof {
            // t is a multiple of 16^h and at most 16^h
            vstd::arithmetic::div_mod::lemma_fundamental_div_mod(t as int, pow16(h) as int);
            let q = t / pow16(h);
            assert(t == pow16(h) * q);
            assert(q >= 1) by (nonlinear_arith)
                requires
                    t == pow16(h) * q,
                    t > 0,
            ;
            assert(q <= 1) by (nonlinear_arith)
                requires
                    t == pow16(h) * q,
                    t <= pow16(h),
                    pow16(h) > 0,
            ;
            assert(t == pow16(h)) by (nonlinear_arith)
                requires
                    t == pow16(h) * q,
                    q == 1,
            ;
        }
        let r = growing_height(guide, x, tailoff);
        assert(r.root_slots()[0] == r.segment.units@[1]);
        r
    } else if height_digits == diff_digits {
        proof {
            reveal_with_fuel(digits, 2);
            if h < 2 {
                lemma_digits_bound((t - 1) as nat, 1);
                reveal_with_fuel(pow16, 2);
            }
            if t == pow16(h) {
                vstd::arithmetic::div_mod::lemma_mod_self_0(t as int);
            }
        }
        growing_root(guide, x, tailoff)
    } else {
        proof {
            lemma_zero_digits(t, (h - 1) as nat);
        }
        let r = growing_child(guide, x, tailoff);
        proof {
            assert forall|j: int|
                0 <= j < r.root_slots().len() && j != path_digit(tailoff, h) implies #[trigger] r.root_slots()[j]
                == old_guide.root_slots()[j] by {
                assert(r.root_slots()[j] == r.segment.units@[1 + j]);
            }
        }
        r
    }
}

/// A copy of a tail of 16 units: its first `count` elements, then `x`, then
/// the word 0.
pub open spec fn copied_tail(tail: Seq<Unit>, count: nat, x: Unit) -> Seq<Unit> {
    Seq::new(
        16,
        |j: int|
            if j < count {
                tail[j]
            } else if j == count {
                x
            } else {
                Unit::Word(0)
            },
    )
}

/// Adds `x` to a vector with a tail: into the tail while it has room,
/// copying it first when other vectors share it; a full tail moves into the
/// tree.
pub fn conj_tailed(guide: Guide, x: Unit) -> (r: Rc<Guide>)
    requires
        guide.wf(),
        guide.count > TAIL_CAP,
        guide.count < u32::MAX,
    ensures
        r.wf(),
        r.elements() == guide.elements().push(x),
        guide.count - guide.tree_size() < TAIL_CAP ==> tail_took(guide, x, *r),
        guide.count - guide.tree_size() == TAIL_CAP ==> tail_moved(guide, x, *r),
{
    let ghost old_guide = guide;
    let tail_count = tail_count(guide.count);
    if tail_count != TAIL_CAP {
        let mut guide = guide;
        let mut slot = Unit::Word(0);
        guide.segment.units.set_and_swap(0, &mut slot);
        let tail = match slot {
            Unit::Seg(tail) => tail,
            Unit::Word(_) => {
                proof {
                    assert(false);
                }
                return guide.store();
            },
        };
        let ghost shared_units = tail.units@;
        let mut s = own_or_copy(tail, tail_count as usize, TAIL_CAP);
        let ghost owned = s;
        s.units.set(tail_count as usize, x);
        proof {
            let tc = tail_count as nat;
            if owned.units@ == shared_units {
                assert(s.units@ == old_guide.tail_slots().update(tc as int, x));
            } else {
                assert(s.units@ =~= copied_tail(old_guide.tail_slots(), tc, x));
            }
        }
        guide.segment.units.set(0, Unit::Seg(Rc::new(s)));
        let g = guide.inc_count();
        proof {
            let t = old_guide.tree_size();
            lemma_tailoff_step(t);
            assert(t % 16 == 0);
            vstd::arithmetic::div_mod::lemma_fundamental_div_mod((old_guide.count - 1) as int, 16);
            lemma_slot_of(old_guide.count as nat, 16, t / 16);
            assert(g.tree_size() == t);
            assert(g.root_slots() =~= old_guide.root_slots());
            assert(g.elements() =~= old_guide.elements().push(x));
            assert(g.segment.units@ =~= old_guide.segment.units@.update(0, g.segment.units@[0]));
            assert(g.tail_slots() == s.units@);
            assert(old_guide.count - old_guide.tree_size() == tail_count);
            assert(tail_took(old_guide, x, g));
        }
        g.store()
    } else {
        conj_tailed_complete(guide, x)
    }
}

/// `g` is the copy that `unalias_root` makes of `guide`: for an untailed
/// vector the header resized to `size(count)` root slots, for a tailed one a
/// header with room for the used root slots; the units it holds, the tail and
/// the children of the root among them, are `guide`'s own, shared.
pub open spec fn unaliased_copy(guide: Guide, g: Guide) -> bool {
    &&& g.count == guide.count
    &&& if guide.count <= 16 {
        &&& g.is_compact_bit == guide.is_compact_bit - grown_tail_slot(guide)
        &&& g.segment.units@ == resized_untailed(guide)
    } else {
        let rc = slot_count(guide.tree_size(), height(guide.tree_size()));
        &&& g.is_compact_bit == guide.is_compact_bit
        &&& g.segment.units@ == regrown(guide.segment.units@, 1 + rc, rc)
    }
}

/// A copy of a vector whose header other vectors share, with a header of
/// its own sized to its contents: the children of the root and the tail
/// become shared, not copied.
pub fn unalias_root(guide: &Guide) -> (g: Guide)
    requires
        guide.wf(),
    ensures
        g.wf(),
        g.count == guide.count,
        g.elements() == guide.elements(),
        unaliased_copy(*guide, g),
{
    let count = guide.count;
    let root_index = guide.root_index();
    if count <= TAIL_CAP {
        let width = size(count);
        let compact = guide.is_compact_bit;
        let grew_tail_bit = compact & is_arity_bit(width);
        let is_compact_bit = compact & !grew_tail_bit;
        let cap = width | grew_tail_bit;
        proof {
            lemma_untailed_bits(compact, width, grew_tail_bit, is_compact_bit, cap);
        }
        let mut s = Segment::new(root_index as u32 + cap);
        let new_root_index = (1 - is_compact_bit) as usize;
        copy_units(&guide.segment.units, 0, &mut s.units, 0, root_index);
        copy_units(&guide.segment.units, root_index, &mut s.units, new_root_index, count as usize);
        let g = Guide { count, is_compact_bit, segment: s };
        proof {
            assert forall|j: int| 0 <= j < count implies #[trigger] g.root_slots()[j]
                == guide.root_slots()[j] by {}
            assert(g.elements() =~= guide.elements());
            assert(g.segment.units@ =~= resized_untailed(*guide));
        }
        g
    } else {
        let ghost t = guide.tree_size();
        let ghost h = height(t);
        let root_count = root_content_count(tailoff(count));
        let width = size(root_count + 1);
        let bit = is_arity_bit(width);
        proof {
            lemma_width_bit(width, bit);
        }
        let cap = root_index as u32 - 1 + (width | bit);
        let mut s = Segment::new(cap);
        copy_units(&guide.segment.units, 0, &mut s.units, 0, root_index + root_count as usize);
        let g = Guide { count, is_compact_bit: guide.is_compact_bit, segment: s };
        proof {
            assert forall|j: int| 0 <= j < slot_count(t, h) implies #[trigger] g.root_slots()[j]
                == guide.root_slots()[j] by {}
            lemma_node_congruent(guide.root_slots(), g.root_slots(), h, t);
            assert(g.segment.units@[0] == guide.segment.units@[0]);
            assert(g.elements() =~= guide.elements());
            assert(g.segment.units@ =~= regrown(guide.segment.units@, 1 + root_count as nat, root_count as nat));
        }
        g
    }
}

/// The vector `prism` as one whose header nobody else holds: the header
/// itself when this is its only owner, else a copy.
pub fn unaliased_root(prism: Rc<Guide>) -> (g: Guide)
    requires
        prism.wf(),
    ensures
        g.wf(),
        g.count == prism.count,
        g.elements() == prism.elements(),
        g == *prism || unaliased_copy(*prism, g),
{
    match Rc::try_unwrap(prism) {
        Ok(guide) => guide,
        Err(shared) => unalias_root(&shared),
    }
}

/// What `conj` does to the vector `guide` it writes in, by its shape: the
/// work of `conj_untailed`, or of `conj_tailed` while the tail has room, or
/// the move of the full tail into the tree.
pub open spec fn conj_layout(guide: Guide, x: Unit, r: Guide) -> bool {
    &&& guide.count <= TAIL_CAP ==> root_took(guide, x, r)
    &&& guide.count > TAIL_CAP && guide.count - guide.tree_size() < TAIL_CAP ==> tail_took(guide, x, r)
    &&& guide.count > TAIL_CAP && guide.count - guide.tree_size() == TAIL_CAP ==> tail_moved(guide, x, r)
}

/// The vector `prism` with `x` added at the end. It writes in `prism`'s
/// header when nobody else holds it, else in the copy `unalias_root` makes.
pub fn conj(prism: Rc<Guide>, x: Unit) -> (r: Rc<Guide>)
    requires
        prism.wf(),
        prism.count < u32::MAX,
    ensures
        r.wf(),
        r.elements() == prism.elements().push(x),
        exists|g: Guide|
            (g == *prism || unaliased_copy(*prism, g)) && g.wf() && #[trigger] conj_layout(g, x, *r),
{
    let guide = unaliased_root(prism);
    let ghost written = guide;
    let r = if guide.count <= TAIL_CAP {
        conj_untailed(guide, x)
    } else {
        conj_tailed(guide, x)
    };
    assert(conj_layout(written, x, *r));
    r
}

/// After adding `x`, every earlier element keeps its place and `x` is the
/// last element: what `nth` reads back of a vector that `conj` returned.
pub proof fn lemma_conj_then_nth(before: Guide, x: Unit, after: Guide)
    requires
        after.elements() == before.elements().push(x),
    ensures
        after.count == before.count + 1,
        forall|i: int| 0 <= i < before.count ==> #[trigger] after.elements()[i] == before.elements()[i],
        after.elements()[before.count as int] == x,
{
    assert(after.elements().len() == before.elements().len() + 1);
}

}
