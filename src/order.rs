use std::cmp::Ordering;
use vstd::prelude::*;
use vstd::arithmetic::div_mod::lemma_mod_pos_bound;
use vstd::arithmetic::mul::lemma_mul_strict_inequality;
use vstd::arithmetic::power::{lemma0_pow, lemma_pow_positive, pow};
use vstd::arithmetic::power2::{lemma2_to64_rest, lemma_pow2_pos, lemma_pow2_strictly_increases, lemma_pow2_unfold, pow2};

use crate::element::Element;
use crate::wide::pow2_at_most_product;

verus! {

/// Why an insertion was refused.
#[derive(Debug, Clone, Copy, PartialEq, Eq, Structural)]
pub enum OmError {
    /// The structure already holds a member, so it cannot be seeded.
    NotEmpty,
    /// The anchor of an insertion is not a member.
    NoSuchElement,
    /// The value to insert is already a member.
    Duplicate,
}

/// A totally ordered collection of distinct elements. Each member carries a
/// tag; walking the ring forward from the front, tags strictly increase, so
/// two members compare as their tags do.
///
/// The ring is held in order from the front: the member after the one at
/// index `i` is at `i + 1`, and the member after the last is the front.
pub struct OrderMaintenance<T> {
    values: Vec<T>,
    tags: Vec<u64>,
}

/// Tags strictly increase along `s`.
pub open spec fn strictly_increasing(s: Seq<u64>) -> bool {
    forall|i: int, j: int| 0 <= i < j < s.len() ==> s[i] < s[j]
}

/// No two entries of `s` are equal.
pub open spec fn distinct(s: Seq<Seq<u8>>) -> bool {
    forall|i: int, j: int| 0 <= i < j < s.len() ==> s[i] != s[j]
}

/// Tags never decrease along `s`, and strictly increase between any two
/// entries other than the one at `p`.
pub open spec fn nearly_increasing(s: Seq<u64>, p: int) -> bool {
    &&& forall|i: int, j: int| 0 <= i < j < s.len() ==> s[i] <= s[j]
    &&& forall|i: int, j: int| 0 <= i < j < s.len() && i != p && j != p ==> s[i] < s[j]
}

/// The density rule of the rebalancing: a segment whose tags would be spread
/// `inc` apart after `k` widenings, in a ring of `n` members, is accepted when
/// `inc` is at least the threshold `(2 / (2n)^(1/62))^k`; raised to the
/// power 62, that is `2^(62k) <= inc^62 * (2n)^k`.
pub open spec fn density_ok(inc: nat, k: nat, n: nat) -> bool {
    pow(2, 62 * k) <= pow(inc as int, 62) * pow(2 * n as int, k)
}

fn dense_enough(inc: u128, k: u32, n: usize) -> (r: bool)
    requires
        k < 64,
        inc <= 0x1_0000_0000_0000_0000,
        n >= 1,
    ensures
        r == density_ok(inc as nat, k as nat, n as nat),
        r ==> inc >= 1,
{
    if inc == 0 {
        proof {
            lemma0_pow(62);
            lemma_pow_positive(2, 62 * k as nat);
        }
        return false;
    }
    assert(62 * k <= 62 * 63);
    pow2_at_most_product(62 * k, inc, 62, 2 * (n as u128), k)
}

/// The first tag of the block of `2^k` tags that holds `pt`; at 64 the
/// block is the whole tag range.
pub open spec fn block_base(pt: u64, k: nat) -> int {
    if k >= 64 {
        0
    } else {
        pt as int - (pt as int) % (pow2(k) as int)
    }
}

/// One past the last tag of the block of `2^k` tags that holds `pt`.
pub open spec fn block_top(pt: u64, k: nat) -> int {
    if k >= 64 {
        0x1_0000_0000_0000_0000
    } else if block_base(pt, k) + pow2(k) < 0x1_0000_0000_0000_0000 {
        block_base(pt, k) + pow2(k)
    } else {
        0x1_0000_0000_0000_0000
    }
}

/// Tag `t` lies in the block of `2^k` tags that holds `pt`.
pub open spec fn in_block(t: u64, pt: u64, k: nat) -> bool {
    block_base(pt, k) <= t < block_top(pt, k)
}

/// `lo..=hi` is the run of entries round `pivot`, not passing either end,
/// whose tags lie in the pivot's block of `2^k` tags.
pub open spec fn is_run(s: Seq<u64>, pivot: int, k: nat, lo: int, hi: int) -> bool {
    &&& 0 <= lo <= pivot <= hi < s.len()
    &&& forall|x: int| lo <= x <= hi ==> in_block(#[trigger] s[x], s[pivot], k)
    &&& lo > 0 ==> !in_block(s[lo - 1], s[pivot], k)
    &&& hi + 1 < s.len() ==> !in_block(s[hi + 1], s[pivot], k)
}

/// The spacing of the tags that the run `lo..=hi` gets in the pivot's block.
pub open spec fn run_spacing(s: Seq<u64>, pivot: int, k: nat, lo: int, hi: int) -> int {
    (block_top(s[pivot], k) - block_base(s[pivot], k)) / (hi - lo + 1)
}

/// The run is relabelled at width `k`: it meets the density rule, or the
/// block is the whole tag range.
pub open spec fn accepts(s: Seq<u64>, pivot: int, k: nat, lo: int, hi: int) -> bool {
    k == 64 || density_ok(run_spacing(s, pivot, k, lo, hi) as nat, k, s.len())
}

/// `r` is `s` rebalanced about `pivot` at width `k` over the run `lo..=hi`:
/// the run is the one of that width, the width is the least that the
/// density rule accepts, the run's tags are spread evenly from the start of
/// the block, and every other tag stays.
pub open spec fn rebalanced_at(s: Seq<u64>, r: Seq<u64>, pivot: int, k: nat, lo: int, hi: int) -> bool {
    &&& k <= 64
    &&& is_run(s, pivot, k, lo, hi)
    &&& accepts(s, pivot, k, lo, hi)
    &&& forall|k2: nat, lo2: int, hi2: int|
        k2 < k && #[trigger] is_run(s, pivot, k2, lo2, hi2) ==> !accepts(s, pivot, k2, lo2, hi2)
    &&& r.len() == s.len()
    &&& forall|x: int| 0 <= x < s.len() && !(lo <= x <= hi) ==> #[trigger] r[x] == s[x]
    &&& forall|x: int|
        lo <= x <= hi ==> #[trigger] r[x] == block_base(s[pivot], k) + (x - lo) * run_spacing(
            s,
            pivot,
            k,
            lo,
            hi,
        )
}

/// `r` is `s` rebalanced about `pivot`, at some width and run.
pub open spec fn rebalanced(s: Seq<u64>, r: Seq<u64>, pivot: int) -> bool {
    exists|k: nat, lo: int, hi: int| #[trigger] rebalanced_at(s, r, pivot, k, lo, hi)
}

/// The tag first tried for a member inserted after one tagged `p`: `p + 1`,
/// held at the largest tag.
pub open spec fn fresh_tag(p: u64) -> u64 {
    if p == u64::MAX {
        p
    } else {
        (p + 1) as u64
    }
}

/// The tag of the member after index `i` in the ring.
pub open spec fn ring_next_tag(s: Seq<u64>, i: int) -> u64 {
    if i + 1 < s.len() {
        s[i + 1]
    } else {
        s[0]
    }
}

/// The tags `r` after inserting a member after index `i` of tags `s`: where
/// the fresh tag differs from both ring neighbours it is simply put in,
/// otherwise the tags are rebalanced about the new member.
pub open spec fn tags_after_insert(s: Seq<u64>, r: Seq<u64>, i: int) -> bool {
    let t = fresh_tag(s[i]);
    if t != s[i] && t != ring_next_tag(s, i) {
        r == s.insert(i + 1, t)
    } else {
        rebalanced(s.insert(i + 1, t), r, i + 1)
    }
}

/// At one width there is at most one run round the pivot.
proof fn lemma_run_unique(s: Seq<u64>, pivot: int, k: nat, lo: int, hi: int, lo2: int, hi2: int)
    requires
        is_run(s, pivot, k, lo, hi),
        is_run(s, pivot, k, lo2, hi2),
    ensures
        lo == lo2,
        hi == hi2,
{
    if lo2 < lo {
        assert(in_block(s[lo - 1], s[pivot], k));
    }
    if lo < lo2 {
        assert(in_block(s[lo2 - 1], s[pivot], k));
    }
    if hi2 > hi {
        assert(in_block(s[hi + 1], s[pivot], k));
    }
    if hi > hi2 {
        assert(in_block(s[hi2 + 1], s[pivot], k));
    }
}

/// Inserting `t`, the tag after `s[i]` or `s[i]` itself, just after index
/// `i` leaves the tags nearly increasing about the new entry, and strictly
/// increasing where `t` differs from both neighbours.
proof fn lemma_insert_tag(s: Seq<u64>, i: int, t: u64)
    requires
        strictly_increasing(s),
        0 <= i < s.len(),
        t == s[i] || t == s[i] + 1,
    ensures
        nearly_increasing(s.insert(i + 1, t), i + 1),
        t != s[i] && (i + 1 < s.len() ==> t != s[i + 1]) ==> strictly_increasing(s.insert(i + 1, t)),
{
    let u = s.insert(i + 1, t);
    assert forall|a: int, b: int| 0 <= a < b < u.len() implies u[a] <= u[b] && (a != i + 1 && b != i + 1
        ==> u[a] < u[b]) && (t != s[i] && (i + 1 < s.len() ==> t != s[i + 1]) ==> u[a] < u[b]) by {
        if b < i + 1 {
            assert(u[a] == s[a] && u[b] == s[b]);
        } else if b == i + 1 {
            assert(u[a] == s[a]);
            if a < i {
                assert(s[a] < s[i]);
            }
        } else if a < i + 1 {
            assert(u[a] == s[a] && u[b] == s[b - 1]);
        } else if a == i + 1 {
            assert(u[b] == s[b - 1]);
            assert(s[i] < s[i + 1]);
            if b - 1 > i + 1 {
                assert(s[i + 1] < s[b - 1]);
            }
        } else {
            assert(u[a] == s[a - 1] && u[b] == s[b - 1]);
        }
    };
}

proof fn lemma_insert_distinct(s: Seq<Seq<u8>>, i: int, k: Seq<u8>)
    requires
        distinct(s),
        !s.contains(k),
        0 <= i <= s.len(),
    ensures
        distinct(s.insert(i, k)),
{
    let u = s.insert(i, k);
    assert forall|a: int, b: int| 0 <= a < b < u.len() implies u[a] != u[b] by {
        if a == i {
            assert(u[b] == s[b - 1]);
        } else if b == i {
            assert(u[a] == s[a]);
        } else {
            let a0 = if a < i { a } else { a - 1 };
            let b0 = if b < i { b } else { b - 1 };
            assert(u[a] == s[a0] && u[b] == s[b0]);
        }
    };
}

impl<T: Element> OrderMaintenance<T> {
    /// The members' identities, in ring order from the front.
    pub closed spec fn keys(&self) -> Seq<Seq<u8>> {
        Seq::new(self.values@.len(), |i: int| self.values@[i].key())
    }

    /// The members' tags, in ring order from the front.
    pub closed spec fn tag_seq(&self) -> Seq<u64> {
        self.tags@
    }

    /// The ring holds one tag per member, the members are distinct, and tags
    /// strictly increase from the front round to the member before it.
    pub open spec fn wf(&self) -> bool {
        &&& self.keys().len() == self.tag_seq().len()
        &&& distinct(self.keys())
        &&& strictly_increasing(self.tag_seq())
    }

    /// Where the member with identity `k` stands in the ring, counted from the front.
    pub open spec fn position(&self, k: Seq<u8>) -> int {
        choose|i: int| 0 <= i < self.keys().len() && self.keys()[i] == k
    }

    pub fn new() -> (r: Self)
        ensures
            r.wf(),
            r.keys().len() == 0,
    {
        OrderMaintenance { values: Vec::new(), tags: Vec::new() }
    }

    pub fn len(&self) -> (r: usize)
        ensures
            r == self.keys().len(),
    {
        self.values.len()
    }

    fn find(&self, v: &T) -> (r: Option<usize>)
        ensures
            match r {
                Some(i) => i < self.keys().len() && self.keys()[i as int] == v.key(),
                None => !self.keys().contains(v.key()),
            },
    {
        let mut i: usize = 0;
        while i < self.values.len()
            invariant
                i <= self.values@.len(),
                forall|j: int| 0 <= j < i ==> self.keys()[j] != v.key(),
            decreases self.values@.len() - i,
        {
            if self.values[i].same(v) {
                return Some(i);
            }
            i += 1;
        }
        None
    }

    /// How the members with identities `a` and `b` are ordered, or `None`
    /// where either is not a member.
    pub open spec fn spec_compare(&self, a: Seq<u8>, b: Seq<u8>) -> Option<Ordering> {
        if self.keys().contains(a) && self.keys().contains(b) {
            let (i, j) = (self.position(a), self.position(b));
            Some(if i < j { Ordering::Less } else if i == j { Ordering::Equal } else { Ordering::Greater })
        } else {
            None
        }
    }

    /// Compares two values by their places in the ring.
    pub fn compare(&self, a: &T, b: &T) -> (r: Option<Ordering>)
        requires
            self.wf(),
        ensures
            r == self.spec_compare(a.key(), b.key()),
    {
        let ia = match self.find(a) {
            Some(i) => i,
            None => return None,
        };
        let ib = match self.find(b) {
            Some(i) => i,
            None => return None,
        };
        proof {
            self.lemma_position(ia as int);
            self.lemma_position(ib as int);
        }
        let (ta, tb) = (self.tags[ia], self.tags[ib]);
        if ta < tb {
            Some(Ordering::Less)
        } else if ta == tb {
            Some(Ordering::Equal)
        } else {
            Some(Ordering::Greater)
        }
    }

    /// The member at index `i` is the one that `position` names.
    pub proof fn lemma_position(&self, i: int)
        requires
            self.wf(),
            0 <= i < self.keys().len(),
        ensures
            self.keys().contains(self.keys()[i]),
            self.position(self.keys()[i]) == i,
    {
        let k = self.keys()[i];
        assert(self.keys()[i] == k);
        let p = self.position(k);
        if p != i {
            if p < i {
                assert(self.keys()[p] != self.keys()[i]);
            } else {
                assert(self.keys()[i] != self.keys()[p]);
            }
        }
    }

    /// Takes `value` out of the ring, joining its two neighbours; tells
    /// whether it was a member.
    pub fn remove(&mut self, value: &T) -> (r: bool)
        requires
            old(self).wf(),
        ensures
            final(self).wf(),
            r == old(self).keys().contains(value.key()),
            r ==> final(self).keys() == old(self).keys().remove(old(self).position(value.key())),
            r ==> final(self).tag_seq() == old(self).tag_seq().remove(old(self).position(value.key())),
            !r ==> final(self).keys() == old(self).keys() && final(self).tag_seq() == old(self).tag_seq(),
            !final(self).keys().contains(value.key()),
    {
        match self.find(value) {
            None => false,
            Some(i) => {
                proof {
                    self.lemma_position(i as int);
                }
                let ghost before = *self;
                let _ = self.values.remove(i);
                let _ = self.tags.remove(i);
                assert(self.keys() =~= before.keys().remove(i as int));
                assert(!self.keys().contains(value.key())) by {
                    if self.keys().contains(value.key()) {
                        let j = choose|j: int| 0 <= j < self.keys().len() && self.keys()[j] == value.key();
                        if j < i {
                            assert(before.keys()[j] == before.keys()[i as int]);
                        } else {
                            assert(before.keys()[j + 1] == before.keys()[i as int]);
                        }
                    }
                };
                true
            },
        }
    }

    /// Seeds an empty structure with its first member, the front of a ring
    /// of one, with tag 0.
    pub fn insert_only(&mut self, value: T) -> (r: Result<(), OmError>)
        requires
            old(self).wf(),
        ensures
            final(self).wf(),
            old(self).keys().len() == 0 ==> r == Ok::<(), OmError>(()) && final(self).keys() == seq![value.key()]
                && final(self).tag_seq() == seq![0u64],
            old(self).keys().len() != 0 ==> r == Err::<(), OmError>(OmError::NotEmpty) && *final(self) == *old(self),
    {
        if self.values.len() != 0 {
            return Err(OmError::NotEmpty);
        }
        self.values.push(value);
        self.tags.push(0);
        assert(self.keys() =~= seq![value.key()]);
        assert(self.tags@ =~= seq![0u64]);
        Ok(())
    }

    /// Puts `value` into the ring just after the member `after`, with a tag
    /// between theirs; where no integer lies strictly between the two tags,
    /// rebalances the tags about `value` first.
    pub fn insert_after(&mut self, after: &T, value: T) -> (r: Result<(), OmError>)
        requires
            old(self).wf(),
        ensures
            final(self).wf(),
            !old(self).keys().contains(after.key()) ==> r == Err::<(), OmError>(OmError::NoSuchElement)
                && *final(self) == *old(self),
            old(self).keys().contains(after.key()) && old(self).keys().contains(value.key()) ==> r == Err::<
                (),
                OmError,
            >(OmError::Duplicate) && *final(self) == *old(self),
            old(self).keys().contains(after.key()) && !old(self).keys().contains(value.key()) ==> r == Ok::<
                (),
                OmError,
            >(()) && final(self).keys() == old(self).keys().insert(
                old(self).position(after.key()) + 1,
                value.key(),
            ) && tags_after_insert(old(self).tag_seq(), final(self).tag_seq(), old(self).position(after.key())),
    {
        let i = match self.find(after) {
            None => return Err(OmError::NoSuchElement),
            Some(i) => i,
        };
        if self.find(&value).is_some() {
            return Err(OmError::Duplicate);
        }
        proof {
            self.lemma_position(i as int);
        }
        let ghost before = *self;
        let n = self.tags.len();
        let prev_tag = self.tags[i];
        let next_tag = if i + 1 < n {
            self.tags[i + 1]
        } else {
            self.tags[0]
        };
        let tag: u64 = if prev_tag == u64::MAX {
            prev_tag
        } else {
            prev_tag + 1
        };
        let ghost k = value.key();
        self.values.insert(i + 1, value);
        self.tags.insert(i + 1, tag);
        proof {
            assert(self.keys() =~= before.keys().insert(i + 1, k));
            lemma_insert_distinct(before.keys(), i + 1, k);
            lemma_insert_tag(before.tags@, i as int, tag);
            if i + 1 >= n && tag != prev_tag {
                assert(tag == prev_tag + 1);
            }
        }
        assert(tag == fresh_tag(before.tags@[i as int]));
        assert(next_tag == ring_next_tag(before.tags@, i as int));
        if tag == prev_tag || tag == next_tag {
            self.rebalance(i + 1);
            assert(self.keys() =~= before.keys().insert(i + 1, k));
        }
        Ok(())
    }

    /// Spreads the tags of a segment about `pivot` so that they strictly
    /// increase again. The segment is the run of members round `pivot`,
    /// without passing the front, whose tags lie in the block of `2^k`
    /// tags that holds the pivot's; `k` grows from 0 until the segment
    /// meets the density rule, and at 64 the block is the whole tag range.
    fn rebalance(&mut self, pivot: usize)
        requires
            old(self).values@.len() == old(self).tags@.len(),
            pivot < old(self).tags@.len(),
            nearly_increasing(old(self).tags@, pivot as int),
        ensures
            final(self).values == old(self).values,
            rebalanced(old(self).tags@, final(self).tags@, pivot as int),
            strictly_increasing(final(self).tags@),
    {
        let n = self.tags.len();
        let pt = self.tags[pivot] as u128;
        let ghost orig = self.tags@;
        let mut k: u32 = 0;
        let mut span: u128 = 1;
        proof {
            lemma2_to64_rest();
            assert(pow2(0) == 1) by {
                vstd::arithmetic::power2::lemma2_to64();
            };
        }
        loop
            invariant
                k <= 64,
                span == pow2(k as nat),
                pow2(64) == 0x1_0000_0000_0000_0000,
                n == self.tags@.len(),
                n == old(self).tags@.len(),
                self.values == old(self).values,
                self.values@.len() == n,
                self.tags@ == old(self).tags@,
                orig == self.tags@,
                pivot < n,
                pt == orig[pivot as int],
                nearly_increasing(orig, pivot as int),
                forall|k2: nat, lo2: int, hi2: int|
                    k2 < k && #[trigger] is_run(orig, pivot as int, k2, lo2, hi2) ==> !accepts(
                        orig,
                        pivot as int,
                        k2,
                        lo2,
                        hi2,
                    ),
            decreases 64 - k,
        {
            if k < 64 {
                proof {
                    lemma_pow2_strictly_increases(k as nat, 64);
                    lemma_pow2_pos(k as nat);
                }
            }
            let (base, top): (u128, u128) = if k == 64 {
                (0, 0x1_0000_0000_0000_0000)
            } else {
                proof {
                    lemma_mod_pos_bound(pt as int, span as int);
                }
                assert(pt % span <= pt) by (nonlinear_arith)
                    requires
                        span >= 1,
                ;
                let b = pt - pt % span;
                let t = if b + span < 0x1_0000_0000_0000_0000 {
                    b + span
                } else {
                    0x1_0000_0000_0000_0000
                };
                (b, t)
            };
            assert(base == block_base(orig[pivot as int], k as nat));
            assert(top == block_top(orig[pivot as int], k as nat));
            assert(base <= pt < top <= 0x1_0000_0000_0000_0000);
            let mut lo: usize = pivot;
            while lo > 0 && base <= self.tags[lo - 1] as u128 && (self.tags[lo - 1] as u128) < top
                invariant
                    orig == self.tags@,
                    n == self.tags@.len(),
                    lo <= pivot < n,
                    base == block_base(orig[pivot as int], k as nat),
                    top == block_top(orig[pivot as int], k as nat),
                    forall|x: int| lo <= x <= pivot ==> in_block(#[trigger] orig[x], orig[pivot as int], k as nat),
                decreases lo,
            {
                lo -= 1;
            }
            let mut hi: usize = pivot;
            while hi + 1 < n && base <= self.tags[hi + 1] as u128 && (self.tags[hi + 1] as u128) < top
                invariant
                    orig == self.tags@,
                    n == self.tags@.len(),
                    lo <= pivot <= hi < n,
                    base == block_base(orig[pivot as int], k as nat),
                    top == block_top(orig[pivot as int], k as nat),
                    forall|x: int| lo <= x <= hi ==> in_block(#[trigger] orig[x], orig[pivot as int], k as nat),
                decreases n - hi,
            {
                hi += 1;
            }
            let ghost gk = k as nat;
            assert(is_run(orig, pivot as int, gk, lo as int, hi as int));
            let num: usize = hi - lo + 1;
            let inc: u128 = (top - base) / (num as u128);
            assert(inc == run_spacing(orig, pivot as int, gk, lo as int, hi as int));
            assert(inc * num <= top - base) by (nonlinear_arith)
                requires
                    inc as int == (top - base) as int / (num as int),
                    num >= 1,
            ;
            assert(inc <= top - base) by (nonlinear_arith)
                requires
                    inc as int == (top - base) as int / (num as int),
                    num >= 1,
                    top >= base,
            ;
            if k == 64 {
                assert(inc >= 1) by (nonlinear_arith)
                    requires
                        inc as int == (top - base) as int / (num as int),
                        top - base == 0x1_0000_0000_0000_0000,
                        1 <= num <= 0xffff_ffff_ffff_ffff,
                ;
            }
            if k == 64 || dense_enough(inc, k, n) {
                self.relabel(lo, hi, base, top, inc, pivot);
                proof {
                    assert(forall|x: int| lo <= x <= hi ==> base <= #[trigger] orig[x] < top);
                    assert(rebalanced_at(orig, self.tags@, pivot as int, gk, lo as int, hi as int));
                }
                return;
            }
            proof {
                assert forall|k2: nat, lo2: int, hi2: int|
                    k2 < k + 1 && #[trigger] is_run(orig, pivot as int, k2, lo2, hi2) implies !accepts(
                    orig,
                    pivot as int,
                    k2,
                    lo2,
                    hi2,
                ) by {
                    if k2 == gk {
                        lemma_run_unique(orig, pivot as int, gk, lo as int, hi as int, lo2, hi2);
                    }
                };
                lemma_pow2_unfold((k + 1) as nat);
            }
            k = k + 1;
            span = span * 2;
        }
    }

    /// Gives the members from `lo` to `hi` the tags `base`, `base + inc`, ...
    fn relabel(&mut self, lo: usize, hi: usize, base: u128, top: u128, inc: u128, pivot: usize)
        requires
            old(self).values@.len() == old(self).tags@.len(),
            lo <= pivot <= hi < old(self).tags@.len(),
            nearly_increasing(old(self).tags@, pivot as int),
            forall|x: int| lo <= x <= hi ==> base <= #[trigger] old(self).tags@[x] < top,
            lo > 0 ==> !(base <= old(self).tags@[lo - 1] < top),
            hi + 1 < old(self).tags@.len() ==> !(base <= old(self).tags@[hi + 1] < top),
            top <= 0x1_0000_0000_0000_0000,
            inc >= 1,
            inc * (hi - lo + 1) <= top - base,
        ensures
            final(self).values == old(self).values,
            final(self).tags@.len() == old(self).tags@.len(),
            strictly_increasing(final(self).tags@),
            forall|x: int|
                0 <= x < old(self).tags@.len() && !(lo <= x <= hi) ==> #[trigger] final(self).tags@[x]
                    == old(self).tags@[x],
            forall|x: int| lo <= x <= hi ==> #[trigger] final(self).tags@[x] == base + (x - lo) * inc,
    {
        let ghost orig = self.tags@;
        let n = self.tags.len();
        let num: usize = hi - lo + 1;
        let mut j: usize = 0;
        while j < num
            invariant
                self.values == old(self).values,
                orig == old(self).tags@,
                n == orig.len(),
                self.tags@.len() == n,
                num == hi - lo + 1,
                lo <= hi < n,
                j <= num,
                inc >= 1,
                inc * num <= top - base,
                top <= 0x1_0000_0000_0000_0000,
                forall|x: int| 0 <= x < n && !(lo <= x < lo + j) ==> self.tags@[x] == orig[x],
                forall|x: int| lo <= x < lo + j ==> self.tags@[x] == base + (x - lo) * inc,
            decreases num - j,
        {
            assert(base + j * inc < top) by (nonlinear_arith)
                requires
                    j < num,
                    inc >= 1,
                    inc * num <= top - base,
            ;
            let t: u128 = base + (j as u128) * inc;
            self.tags.set(lo + j, t as u64);
            j += 1;
        }
        let ghost u = self.tags@;
        assert forall|x: int| lo <= x <= hi implies base <= #[trigger] u[x] < top by {
            assert(base + (x - lo) * inc < top) by (nonlinear_arith)
                requires
                    0 <= x - lo < num,
                    inc >= 1,
                    inc * num <= top - base,
            ;
        };
        assert forall|a: int, b: int| 0 <= a < b < n implies u[a] < u[b] by {
            if lo <= a && b <= hi {
                lemma_mul_strict_inequality(a - lo, b - lo, inc as int);
            } else if a < lo && lo <= b <= hi {
                assert(orig[a] <= orig[lo - 1] && orig[lo - 1] <= orig[lo as int]);
            } else if lo <= a <= hi && hi < b {
                assert(orig[hi as int] <= orig[hi + 1] && orig[hi + 1] <= orig[b]);
            } else {
                assert(u[a] == orig[a] && u[b] == orig[b]);
            }
        };
    }

    /// Checks that each member has exactly one place in the ring: one tag per
    /// member and no member twice.
    pub fn verify_list_integrity(&self) -> (r: bool)
        ensures
            r == (self.keys().len() == self.tag_seq().len() && distinct(self.keys())),
    {
        if self.values.len() != self.tags.len() {
            return false;
        }
        let n = self.values.len();
        let mut i: usize = 0;
        while i < n
            invariant
                n == self.values@.len(),
                n == self.tags@.len(),
                i <= n,
                forall|a: int, b: int| 0 <= a < b < n && a < i ==> self.keys()[a] != self.keys()[b],
            decreases n - i,
        {
            let mut j: usize = i + 1;
            while j < n
                invariant
                    n == self.values@.len(),
                    n == self.tags@.len(),
                    i < n,
                    i + 1 <= j <= n,
                    forall|a: int, b: int| 0 <= a < b < n && a < i ==> self.keys()[a] != self.keys()[b],
                    forall|b: int| i < b < j ==> self.keys()[i as int] != self.keys()[b],
                decreases n - j,
            {
                if self.values[i].same(&self.values[j]) {
                    assert(self.keys()[i as int] == self.keys()[j as int]);
                    return false;
                }
                j += 1;
            }
            i += 1;
        }
        true
    }

    /// Checks the whole structure: the ring's integrity, and tags that
    /// strictly increase walking forward from the front.
    pub fn verify_valid_structure(&self) -> (r: bool)
        ensures
            r == self.wf(),
    {
        if !self.verify_list_integrity() {
            return false;
        }
        let n = self.tags.len();
        let mut i: usize = 1;
        while i < n
            invariant
                n == self.tags@.len(),
                1 <= i,
                forall|a: int, b: int| 0 <= a < b < n && b < i ==> self.tags@[a] < self.tags@[b],
            decreases n - i,
        {
            if self.tags[i - 1] >= self.tags[i] {
                return false;
            }
            i += 1;
        }
        true
    }

    /// The front holds the least tag of the ring.
    pub proof fn lemma_front_least_tag(&self)
        requires
            self.wf(),
            self.keys().len() > 0,
        ensures
            forall|i: int| 0 <= i < self.tag_seq().len() ==> self.tag_seq()[0] <= #[trigger] self.tag_seq()[i],
    {
    }

    /// The front of the ring, if there is one.
    pub fn front(&self) -> (r: Option<T>)
        requires
            self.wf(),
        ensures
            self.keys().len() == 0 <==> r.is_none(),
            r is Some ==> r->Some_0.key() == self.keys()[0],
    {
        if self.values.len() == 0 {
            None
        } else {
            Some(self.values[0].duplicate())
        }
    }

    /// The members with their tags, front first, each once.
    pub open spec fn traversal(&self) -> Seq<(Seq<u8>, u64)> {
        Seq::new(self.keys().len(), |i: int| (self.keys()[i], self.tag_seq()[i]))
    }

    /// Starts a walk of the ring at the front.
    pub fn iter_values_with_tags(&self) -> (r: IterWithTag<'_, T>)
        requires
            self.wf(),
        ensures
            r.wf(),
            r.source() == *self,
            r.remaining() == self.traversal(),
    {
        IterWithTag { om: self, pos: 0 }
    }
}


/// A walk of the ring from the front, one member at a time.
pub struct IterWithTag<'a, T> {
    om: &'a OrderMaintenance<T>,
    pos: usize,
}

impl<'a, T: Element> IterWithTag<'a, T> {
    pub closed spec fn wf(&self) -> bool {
        self.om.wf() && self.pos <= self.om.keys().len()
    }

    /// The structure being walked.
    pub closed spec fn source(&self) -> OrderMaintenance<T> {
        *self.om
    }

    /// What the walk has yet to yield.
    pub closed spec fn remaining(&self) -> Seq<(Seq<u8>, u64)> {
        self.om.traversal().subrange(self.pos as int, self.om.traversal().len() as int)
    }

    /// The next member and its tag; `None` once the walk is back at the front.
    pub fn next(&mut self) -> (r: Option<(T, u64)>)
        requires
            old(self).wf(),
        ensures
            final(self).wf(),
            final(self).source() == old(self).source(),
            old(self).remaining().len() == 0 ==> r is None && final(self).remaining().len() == 0,
            old(self).remaining().len() > 0 ==> r is Some && (r->Some_0.0.key(), r->Some_0.1)
                == old(self).remaining()[0] && final(self).remaining() == old(self).remaining().drop_first(),
    {
        if self.pos < self.om.values.len() {
            let v = self.om.values[self.pos].duplicate();
            let t = self.om.tags[self.pos];
            self.pos = self.pos + 1;
            assert(final(self).remaining() =~= old(self).remaining().drop_first());
            Some((v, t))
        } else {
            None
        }
    }
}

/// A member is equal to itself.
pub proof fn lemma_compare_reflexive<T: Element>(om: OrderMaintenance<T>, a: Seq<u8>)
    requires
        om.keys().contains(a),
    ensures
        om.spec_compare(a, a) == Some(Ordering::Equal),
{
}

/// Of three members met in the order `a`, `b`, `c` walking forward from the
/// front, `a` comes before `b` and `b` before `c`.
pub proof fn lemma_compare_between<T: Element>(om: OrderMaintenance<T>, a: Seq<u8>, b: Seq<u8>, c: Seq<u8>)
    requires
        om.wf(),
        om.keys().contains(a),
        om.keys().contains(b),
        om.keys().contains(c),
        om.position(a) < om.position(b) < om.position(c),
    ensures
        om.spec_compare(a, b) == Some(Ordering::Less),
        om.spec_compare(b, c) == Some(Ordering::Less),
{
}

/// Once `k` has been removed, every comparison with it reports it absent,
/// and the count of members fell by one exactly where `k` was a member.
pub proof fn lemma_removed_is_absent<T: Element>(before: OrderMaintenance<T>, after: OrderMaintenance<T>, k: Seq<u8>)
    requires
        before.wf(),
        !after.keys().contains(k),
        before.keys().contains(k) ==> after.keys() == before.keys().remove(before.position(k)),
        !before.keys().contains(k) ==> after.keys() == before.keys(),
    ensures
        forall|b: Seq<u8>| after.spec_compare(k, b).is_none() && after.spec_compare(b, k).is_none(),
        after.keys().len() == before.keys().len() - (if before.keys().contains(k) { 1int } else { 0int }),
{
}

/// Inserting after the last member of the walk puts the new member at the
/// end of the walk, so a run of such insertions reads back in insertion order.
pub proof fn lemma_insert_after_last<T: Element>(om: OrderMaintenance<T>, k: Seq<u8>)
    requires
        om.wf(),
        om.keys().len() > 0,
    ensures
        om.keys().insert(om.position(om.keys().last()) + 1, k) == om.keys().push(k),
{
    om.lemma_position(om.keys().len() - 1);
    assert(om.keys().insert(om.keys().len() as int, k) =~= om.keys().push(k));
}

} // verus!
