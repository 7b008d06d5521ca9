//! The mathematical model of the tree: level-wise reduction of a sequence of
//! digests to a root digest, the shape of an inclusion proof, and the chain
//! computation a verifier performs, together with the lemmas that relate them.
use vstd::prelude::*;
use vstd::arithmetic::power2::{pow2, lemma_pow2_unfold, lemma_pow2_strictly_increases};

use crate::hashing::sha3_of;

verus! {

/// Tag byte appended to a sibling digest that sits on the left of the node
/// being recomputed.
pub const LEFT_TAG: u8 = 108;

/// Tag byte appended to a sibling digest that sits on the right of the node
/// being recomputed.
pub const RIGHT_TAG: u8 = 114;

/// An odd level of two or more digests is padded by repeating its last digest,
/// so that pairwise combination always sees an even count.
pub open spec fn pad(l: Seq<Seq<u8>>) -> Seq<Seq<u8>> {
    if l.len() >= 2 && l.len() % 2 == 1 {
        l.push(l[l.len() - 1])
    } else {
        l
    }
}

/// One reduction step: each consecutive pair of digests is hashed, in
/// left-then-right order, into the digest of their parent.
pub open spec fn combine(l: Seq<Seq<u8>>) -> Seq<Seq<u8>> {
    Seq::new(l.len() / 2, |j: int| sha3_of(l[2 * j] + l[2 * j + 1]))
}

/// The root digest that the tree builder derives from a level of digests:
/// pad to an even count, combine pairwise, and repeat until one remains.
pub open spec fn root_of(l: Seq<Seq<u8>>) -> Seq<u8>
    decreases l.len(),
{
    if l.len() == 0 {
        Seq::empty()
    } else if l.len() == 1 {
        l[0]
    } else {
        root_of(combine(pad(l)))
    }
}

/// How many reduction rounds a level of `n` nodes needs before one node
/// remains; equivalently, the least `d` with `n <= pow2(d)`.
pub open spec fn levels_needed(n: nat) -> nat
    decreases n,
{
    if n <= 1 {
        0
    } else {
        1 + levels_needed(((n + 1) / 2) as nat)
    }
}

/// The value of a sequence of binary digits, least significant first.
pub open spec fn undigits(s: Seq<usize>) -> int
    decreases s.len(),
{
    if s.len() == 0 {
        0
    } else {
        s[0] + 2 * undigits(s.skip(1))
    }
}

/// Every element of the sequence is a binary digit.
pub open spec fn bits_ok(s: Seq<usize>) -> bool {
    forall|k: int| 0 <= k < s.len() ==> s[k] == 0 || s[k] == 1
}

/// One verifier step: an encoded proof entry is a sibling digest with a side
/// tag appended; the running digest is combined with the sibling on the side
/// the tag names.
pub open spec fn chain_step(cur: Seq<u8>, e: Seq<u8>) -> Seq<u8> {
    let sib = e.take(e.len() - 1);
    if e[e.len() - 1] == LEFT_TAG {
        sha3_of(sib + cur)
    } else {
        sha3_of(cur + sib)
    }
}

/// The digest a verifier reaches after consuming a whole encoded proof,
/// starting from a leaf digest and walking towards the root.
pub open spec fn chain_enc(cur: Seq<u8>, pf: Seq<Seq<u8>>) -> Seq<u8>
    decreases pf.len(),
{
    if pf.len() == 0 {
        cur
    } else {
        chain_enc(chain_step(cur, pf[0]), pf.skip(1))
    }
}

/// Every encoded proof entry carries at least its side tag.
pub open spec fn entries_ok(pf: Seq<Seq<u8>>) -> bool {
    forall|k: int| 0 <= k < pf.len() ==> pf[k].len() >= 1
}

/// The encoded inclusion proof for leaf `i` of a perfect level `f` of
/// digests, ordered from the leaf's immediate sibling up to the sibling just
/// below the root: the proof for the half containing `i`, then the root
/// digest of the other half, tagged with the side that half sits on.
pub open spec fn fproof(f: Seq<Seq<u8>>, i: int) -> Seq<Seq<u8>>
    decreases f.len(),
{
    if f.len() <= 1 {
        Seq::empty()
    } else {
        let half = f.len() / 2;
        if i < half {
            fproof(f.take(half as int), i) + seq![root_of(f.skip(half as int)).push(RIGHT_TAG)]
        } else {
            fproof(f.skip(half as int), i - half) + seq![root_of(f.take(half as int)).push(LEFT_TAG)]
        }
    }
}

/// The views of a sequence of byte vectors.
pub open spec fn views_of(s: Seq<Vec<u8>>) -> Seq<Seq<u8>> {
    s.map_values(|v: Vec<u8>| v@)
}

/// The root of the concatenation of two equally sized perfect levels is the
/// hash of the two halves' roots, concatenated left then right.
pub proof fn lemma_root_concat(a: Seq<Seq<u8>>, b: Seq<Seq<u8>>, h: nat)
    requires
        a.len() == pow2(h),
        b.len() == pow2(h),
    ensures
        root_of(a + b) == sha3_of(root_of(a) + root_of(b)),
    decreases h,
{
    vstd::arithmetic::power2::lemma_pow2_pos(h);
    if h == 0 {
        assert(pow2(0) == 1) by {
            vstd::arithmetic::power2::lemma2_to64();
        }
        let ab = a + b;
        assert(ab.len() == 2);
        assert(pad(ab) == ab);
        let c = combine(ab);
        assert(c.len() == 1);
        assert(c[0] == sha3_of(ab[0] + ab[1]));
        assert(ab[0] == a[0] && ab[1] == b[0]);
        assert(root_of(ab) == root_of(c));
        assert(root_of(c) == c[0]);
        assert(root_of(a) == a[0] && root_of(b) == b[0]);
    } else {
        lemma_pow2_unfold(h);
        let ab = a + b;
        assert(ab.len() == 2 * pow2((h - 1) as nat) + 2 * pow2((h - 1) as nat));
        assert(ab.len() % 2 == 0);
        assert(pad(ab) == ab);
        assert(pad(a) == a && pad(b) == b);
        let ca = combine(a);
        let cb = combine(b);
        let cab = combine(ab);
        assert(ca.len() == pow2((h - 1) as nat));
        assert(cb.len() == pow2((h - 1) as nat));
        assert(cab =~= ca + cb) by {
            assert(cab.len() == ca.len() + cb.len());
            assert forall|j: int| 0 <= j < cab.len() implies cab[j] == (ca + cb)[j] by {
                if j < ca.len() {
                    assert(ab[2 * j] == a[2 * j]);
                    assert(ab[2 * j + 1] == a[2 * j + 1]);
                } else {
                    let jb = j - ca.len();
                    assert(2 * j == a.len() + 2 * jb);
                    assert(2 * j + 1 == a.len() + 2 * jb + 1);
                    assert(ab[2 * j] == b[2 * jb]);
                    assert(ab[2 * j + 1] == b[2 * jb + 1]);
                }
            }
        }
        lemma_root_concat(ca, cb, (h - 1) as nat);
        assert(root_of(ab) == root_of(cab));
        assert(root_of(a) == root_of(ca));
        assert(root_of(b) == root_of(cb));
    }
}

/// Consuming a one-entry proof is one verifier step.
pub proof fn lemma_chain_one(cur: Seq<u8>, e: Seq<u8>)
    ensures
        chain_enc(cur, seq![e]) == chain_step(cur, e),
{
    assert(seq![e][0] == e);
    assert(seq![e].skip(1) =~= Seq::<Seq<u8>>::empty());
    assert(chain_enc(chain_step(cur, e), Seq::<Seq<u8>>::empty()) == chain_step(cur, e));
}

/// Consuming a concatenated proof is consuming its two parts in order.
pub proof fn lemma_chain_append(cur: Seq<u8>, p1: Seq<Seq<u8>>, p2: Seq<Seq<u8>>)
    ensures
        chain_enc(cur, p1 + p2) == chain_enc(chain_enc(cur, p1), p2),
    decreases p1.len(),
{
    if p1.len() == 0 {
        assert(p1 + p2 =~= p2);
    } else {
        assert((p1 + p2).skip(1) =~= p1.skip(1) + p2);
        assert((p1 + p2)[0] == p1[0]);
        lemma_chain_append(chain_step(cur, p1[0]), p1.skip(1), p2);
    }
}

/// Chaining a perfect level's inclusion proof up from its leaf recomputes the
/// level's root digest, and every entry of that proof carries a side tag.
pub proof fn lemma_fproof_chains_to_root(f: Seq<Seq<u8>>, i: int, h: nat)
    requires
        f.len() == pow2(h),
        0 <= i < f.len(),
    ensures
        chain_enc(f[i], fproof(f, i)) == root_of(f),
        entries_ok(fproof(f, i)),
    decreases h,
{
    if h == 0 {
        assert(pow2(0) == 1) by {
            vstd::arithmetic::power2::lemma2_to64();
        }
        assert(fproof(f, i) == Seq::<Seq<u8>>::empty());
        assert(root_of(f) == f[0]);
    } else {
        lemma_pow2_unfold(h);
        vstd::arithmetic::power2::lemma_pow2_pos((h - 1) as nat);
        let half = f.len() / 2;
        let fl = f.take(half as int);
        let fr = f.skip(half as int);
        assert(fl.len() == pow2((h - 1) as nat));
        assert(fr.len() == pow2((h - 1) as nat));
        assert(fl + fr =~= f);
        lemma_root_concat(fl, fr, (h - 1) as nat);
        if i < half {
            let e = root_of(fr).push(RIGHT_TAG);
            assert(fproof(f, i) == fproof(fl, i) + seq![e]);
            lemma_fproof_chains_to_root(fl, i, (h - 1) as nat);
            assert(f[i] == fl[i]);
            lemma_chain_append(f[i], fproof(fl, i), seq![e]);
            assert(e.len() == root_of(fr).len() + 1);
            assert(e[e.len() - 1] == RIGHT_TAG);
            assert(e.take(e.len() - 1) =~= root_of(fr));
            assert(seq![e].skip(1) =~= Seq::<Seq<u8>>::empty());
            assert(seq![e][0] == e);
            assert(chain_enc(root_of(fl), seq![e]) == chain_enc(
                chain_step(root_of(fl), e),
                seq![e].skip(1),
            ));
            assert(chain_enc(chain_step(root_of(fl), e), Seq::<Seq<u8>>::empty())
                == chain_step(root_of(fl), e));
            assert(chain_step(root_of(fl), e) == sha3_of(root_of(fl) + root_of(fr)));
            assert(entries_ok(fproof(f, i))) by {
                let p = fproof(fl, i) + seq![e];
                assert(forall|k: int|
                    0 <= k < p.len() - 1 ==> p[k] == #[trigger] fproof(fl, i)[k]);
                assert(p[p.len() - 1].len() >= 1);
            }
        } else {
            let e = root_of(fl).push(LEFT_TAG);
            assert(fproof(f, i) == fproof(fr, i - half) + seq![e]);
            lemma_fproof_chains_to_root(fr, i - half, (h - 1) as nat);
            assert(f[i] == fr[i - half]);
            lemma_chain_append(f[i], fproof(fr, i - half), seq![e]);
            assert(e.len() == root_of(fl).len() + 1);
            assert(e[e.len() - 1] == LEFT_TAG);
            assert(e.take(e.len() - 1) =~= root_of(fl));
            assert(seq![e].skip(1) =~= Seq::<Seq<u8>>::empty());
            assert(seq![e][0] == e);
            assert(chain_enc(root_of(fr), seq![e]) == chain_enc(
                chain_step(root_of(fr), e),
                seq![e].skip(1),
            ));
            assert(chain_enc(chain_step(root_of(fr), e), Seq::<Seq<u8>>::empty())
                == chain_step(root_of(fr), e));
            assert(chain_step(root_of(fr), e) == sha3_of(root_of(fl) + root_of(fr)));
            assert(entries_ok(fproof(f, i))) by {
                let p = fproof(fr, i - half) + seq![e];
                assert(forall|k: int|
                    0 <= k < p.len() - 1 ==> p[k] == #[trigger] fproof(fr, i - half)[k]);
                assert(p[p.len() - 1].len() >= 1);
            }
        }
    }
}

/// Appending a binary digit to a digit string adds its value at the next
/// power of two.
pub proof fn lemma_undigits_push(s: Seq<usize>, b: usize)
    requires
        b == 0 || b == 1,
    ensures
        undigits(s.push(b)) == undigits(s) + b * pow2(s.len()),
    decreases s.len(),
{
    if s.len() == 0 {
        assert(pow2(0) == 1) by {
            vstd::arithmetic::power2::lemma2_to64();
        }
        assert(s.push(b)[0] == b);
        assert(s.push(b).skip(1) =~= Seq::<usize>::empty());
        assert(undigits(Seq::<usize>::empty()) == 0);
        assert(undigits(s.push(b)) == b + 2 * undigits(s.push(b).skip(1)));
        assert(undigits(s) == 0);
    } else {
        assert(s.push(b).skip(1) =~= s.skip(1).push(b));
        lemma_undigits_push(s.skip(1), b);
        lemma_pow2_unfold(s.len());
        assert(s.push(b)[0] == s[0]);
        assert(undigits(s.push(b)) == s[0] + 2 * undigits(s.skip(1).push(b)));
        assert(undigits(s) == s[0] + 2 * undigits(s.skip(1)));
        if b == 0 {
            assert(undigits(s.skip(1).push(b)) == undigits(s.skip(1)));
            assert(b * pow2(s.len()) == 0);
        } else {
            assert(undigits(s.skip(1).push(b)) == undigits(s.skip(1)) + pow2((s.len() - 1) as nat));
            assert(b * pow2(s.len()) == pow2(s.len()));
            assert(pow2(s.len()) == 2 * pow2((s.len() - 1) as nat));
        }
    }
}

/// A string of `n` binary digits has a value below `pow2(n)`.
pub proof fn lemma_undigits_bound(s: Seq<usize>)
    requires
        bits_ok(s),
    ensures
        0 <= undigits(s) < pow2(s.len()),
    decreases s.len(),
{
    vstd::arithmetic::power2::lemma_pow2_pos(s.len());
    if s.len() == 0 {
        assert(pow2(0) == 1) by {
            vstd::arithmetic::power2::lemma2_to64();
        }
    } else {
        assert(bits_ok(s.skip(1))) by {
            assert(forall|k: int| 0 <= k < s.skip(1).len() ==> s.skip(1)[k] == #[trigger] s[k + 1]);
        }
        lemma_undigits_bound(s.skip(1));
        lemma_pow2_unfold(s.len());
        assert(s[0] == 0 || s[0] == 1);
    }
}

/// A number written as a power of two plus a remainder below that power is
/// written that way in only one way.
pub proof fn lemma_pow2_plus_unique(h: nat, j: nat, a: int, b: int)
    requires
        0 <= a < pow2(h),
        0 <= b < pow2(j),
        pow2(h) + a == pow2(j) + b,
    ensures
        h == j,
        a == b,
{
    if h < j {
        lemma_pow2_unfold((h + 1) as nat);
        if h + 1 < j {
            lemma_pow2_strictly_increases((h + 1) as nat, j);
        }
        assert(pow2(h) + a < pow2((h + 1) as nat));
        assert(pow2((h + 1) as nat) <= pow2(j));
        assert(false);
    }
    if j < h {
        lemma_pow2_unfold((j + 1) as nat);
        if j + 1 < h {
            lemma_pow2_strictly_increases((j + 1) as nat, h);
        }
        assert(pow2(j) + b < pow2((j + 1) as nat));
        assert(pow2((j + 1) as nat) <= pow2(h));
        assert(false);
    }
}

/// Two powers of two that both lie in `[n, 2 * n)` are the same power.
pub proof fn lemma_pow2_same_range(a: nat, b: nat, n: int)
    requires
        n >= 1,
        n <= pow2(a),
        pow2(a) < 2 * n,
        n <= pow2(b),
        pow2(b) < 2 * n,
    ensures
        a == b,
{
    if a < b {
        lemma_pow2_unfold((a + 1) as nat);
        if a + 1 < b {
            lemma_pow2_strictly_increases((a + 1) as nat, b);
        }
        assert(pow2((a + 1) as nat) <= pow2(b));
        assert(false);
    }
    if b < a {
        lemma_pow2_unfold((b + 1) as nat);
        if b + 1 < a {
            lemma_pow2_strictly_increases((b + 1) as nat, a);
        }
        assert(pow2((b + 1) as nat) <= pow2(a));
        assert(false);
    }
}

/// `levels_needed(n)` names the least power of two at or above `n`: `pow2` of
/// it reaches `n`, and for `n >= 2` the previous power falls short. Hence
/// that power is below `2 * n`.
pub proof fn lemma_levels_needed_bounds(n: nat)
    requires
        n >= 1,
    ensures
        n <= pow2(levels_needed(n)),
        pow2(levels_needed(n)) < 2 * n,
    decreases n,
{
    if n == 1 {
        assert(levels_needed(1) == 0);
        assert(pow2(0) == 1) by {
            vstd::arithmetic::power2::lemma2_to64();
        }
    } else {
        let c = ((n + 1) / 2) as nat;
        assert(1 <= c < n);
        lemma_levels_needed_bounds(c);
        let lc = levels_needed(c);
        assert(levels_needed(n) == 1 + lc);
        lemma_pow2_unfold((1 + lc) as nat);
        // upper direction: n <= 2 * c <= 2 * pow2(lc)
        assert(n <= 2 * c);
        // strict bound: pow2(1 + lc) == 2 * pow2(lc) < 2 * n
        if c == 1 {
            assert(lc == 0);
            assert(pow2(0) == 1) by {
                vstd::arithmetic::power2::lemma2_to64();
            }
            assert(pow2((1 + lc) as nat) == 2);
        } else {
            // pow2(lc) < 2 * c, and pow2(lc) is even while n may be odd
            assert(pow2(lc) < 2 * c);
            if n % 2 == 0 {
                assert(2 * c == n);
            } else {
                assert(2 * c == n + 1);
                assert(pow2(lc) <= n);
                assert(lc >= 1) by {
                    if lc == 0 {
                        assert(pow2(0) == 1) by {
                            vstd::arithmetic::power2::lemma2_to64();
                        }
                    }
                }
                lemma_pow2_unfold(lc);
                assert(pow2(lc) == 2 * pow2((lc - 1) as nat));
                assert(pow2(lc) != n);
            }
            assert(pow2(lc) < n);
        }
    }
}

} // verus!
