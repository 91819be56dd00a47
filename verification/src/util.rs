//! Small utilities: in-place predicate-driven removal from a vector, and
//! case conversion for ASCII identifiers.

use vstd::prelude::*;

verus! {

/// What is left of `s[i..]` when the elements marked in `removed` go.
pub open spec fn filter_by_mask<T>(s: Seq<T>, removed: Seq<bool>, i: int) -> Seq<T>
    decreases s.len() - i,
{
    if i < 0 || i >= s.len() {
        Seq::empty()
    } else {
        (if removed[i] {
            Seq::empty()
        } else {
            seq![s[i]]
        }) + filter_by_mask(s, removed, i + 1)
    }
}

proof fn lemma_filter_mask_snoc<T>(s: Seq<T>, removed: Seq<bool>, i: int, x: T, b: bool)
    requires
        0 <= i <= s.len(),
        removed.len() == s.len(),
    ensures
        filter_by_mask(s.push(x), removed.push(b), i) == filter_by_mask(s, removed, i) + (if b {
            Seq::empty()
        } else {
            seq![x]
        }),
    decreases s.len() - i,
{
    let s2 = s.push(x);
    let m2 = removed.push(b);
    if i < s.len() {
        lemma_filter_mask_snoc(s, removed, i + 1, x, b);
        assert(s2[i] == s[i]);
        assert(m2[i] == removed[i]);
        if removed[i] {
            assert(filter_by_mask(s2, m2, i) =~= filter_by_mask(s, removed, i) + (if b {
                Seq::<T>::empty()
            } else {
                seq![x]
            }));
        } else {
            assert(filter_by_mask(s2, m2, i) =~= filter_by_mask(s, removed, i) + (if b {
                Seq::<T>::empty()
            } else {
                seq![x]
            }));
        }
    } else {
        assert(s2[i] == x && m2[i] == b);
        assert(filter_by_mask(s2, m2, i + 1) == Seq::<T>::empty());
        assert(filter_by_mask(s, removed, i) == Seq::<T>::empty());
        if b {
            assert(filter_by_mask(s2, m2, i) =~= Seq::<T>::empty() + Seq::<T>::empty());
            assert(filter_by_mask(s, removed, i) + Seq::<T>::empty() =~= Seq::<T>::empty()
                + Seq::<T>::empty());
        } else {
            assert(filter_by_mask(s2, m2, i) =~= seq![x] + Seq::<T>::empty());
            assert(filter_by_mask(s, removed, i) + seq![x] =~= seq![x] + Seq::<T>::empty());
        }
    }
}

proof fn lemma_filter_mask_len<T>(s: Seq<T>, removed: Seq<bool>, i: int)
    requires
        0 <= i <= s.len(),
    ensures
        filter_by_mask(s, removed, i).len() <= s.len() - i,
    decreases s.len() - i,
{
    if i < s.len() {
        lemma_filter_mask_len(s, removed, i + 1);
    }
}

/// Remove, in place and keeping order, every element the predicate answers
/// `true` for, asking it once per element, front to back.
///
/// The predicate is an arbitrary function value, so the contract records
/// its answers: there is a mask of answers, one per original element, each
/// a possible answer of the predicate on that element, and the vector keeps
/// exactly the elements answered `false`, in their old order.
#[verifier::loop_isolation(false)]
pub fn drain_filter<T, F: Fn(&T) -> bool>(vec: &mut Vec<T>, some_predicate: F)
    requires
        forall|i: int|
            0 <= i < old(vec)@.len() ==> call_requires(some_predicate, (&old(vec)@[i],)),
    ensures
        exists|removed: Seq<bool>|
            {
                &&& removed.len() == old(vec)@.len()
                &&& (forall|i: int|
                    0 <= i < removed.len() ==> call_ensures(
                        some_predicate,
                        (&old(vec)@[i],),
                        #[trigger] removed[i],
                    ))
                &&& final(vec)@ == filter_by_mask(old(vec)@, removed, 0)
            },
{
    let ghost orig = vec@;
    let ghost mut mask = Seq::<bool>::empty();
    let mut i: usize = 0;
    proof {
        assert(orig.take(0) =~= Seq::<T>::empty());
        assert(filter_by_mask(orig.take(0), mask, 0) == Seq::<T>::empty());
        assert(vec@ =~= filter_by_mask(orig.take(0), mask, 0) + orig.skip(0));
    }
    while i < vec.len()
        invariant
            mask.len() <= orig.len(),
            i == filter_by_mask(orig.take(mask.len() as int), mask, 0).len(),
            forall|k: int|
                0 <= k < mask.len() ==> call_ensures(
                    some_predicate,
                    (&orig[k],),
                    #[trigger] mask[k],
                ),
            vec@ == filter_by_mask(orig.take(mask.len() as int), mask, 0) + orig.skip(
                mask.len() as int,
            ),
        decreases orig.len() - mask.len(),
    {
        let ghost m = mask.len() as int;
        let ghost kept = filter_by_mask(orig.take(m), mask, 0);
        proof {
            lemma_filter_mask_len(orig.take(m), mask, 0);
            assert(vec@.len() == kept.len() + orig.len() - m);
            assert(m < orig.len());
            assert(vec@[i as int] == orig.skip(m)[0]);
            assert(orig.skip(m)[0] == orig[m]);
            assert(orig.take(m).push(orig[m]) =~= orig.take(m + 1));
        }
        let verdict = some_predicate(&vec[i]);
        let ghost mask_old = mask;
        proof {
            mask = mask.push(verdict);
            lemma_filter_mask_snoc(orig.take(m), mask_old, 0, orig[m], verdict);
            assert(orig.take(m).push(orig[m]) =~= orig.take(m + 1));
            assert(mask_old.push(verdict) == mask);
            assert(filter_by_mask(orig.take(m + 1), mask, 0) == kept + (if verdict {
                Seq::<T>::empty()
            } else {
                seq![orig[m]]
            }));
        }
        if verdict {
            let _ = vec.remove(i);
            proof {
                assert(kept + Seq::<T>::empty() =~= kept);
                assert(vec@ =~= filter_by_mask(orig.take(m + 1), mask, 0) + orig.skip(m + 1)) by {
                    assert(orig.skip(m).skip(1) =~= orig.skip(m + 1));
                }
            }
        } else {
            proof {
                assert(kept + seq![orig[m]] =~= kept.push(orig[m]));
                assert(vec@ =~= filter_by_mask(orig.take(m + 1), mask, 0) + orig.skip(m + 1)) by {
                    assert(orig.skip(m) =~= seq![orig[m]] + orig.skip(m + 1));
                }
                assert(filter_by_mask(orig.take(m + 1), mask, 0).len() == i + 1);
            }
            i += 1;
        }
    }
    proof {
        assert(mask.len() == orig.len()) by {
            assert(vec@.len() == filter_by_mask(orig.take(mask.len() as int), mask, 0).len()
                + orig.len() - mask.len());
        }
        assert(orig.take(orig.len() as int) =~= orig);
        assert(orig.skip(orig.len() as int) =~= Seq::<T>::empty());
        assert(vec@ =~= filter_by_mask(orig, mask, 0));
        assert({
            &&& mask.len() == orig.len()
            &&& (forall|k: int|
                0 <= k < mask.len() ==> call_ensures(some_predicate, (&orig[k],), #[trigger] mask[k]))
            &&& vec@ == filter_by_mask(orig, mask, 0)
        });
    }
}

/// An ASCII letter uppercased; anything else untouched.
pub open spec fn upper_byte(b: u8) -> u8 {
    if 97 <= b <= 122 {
        (b - 32) as u8
    } else {
        b
    }
}

/// The identifier with its first byte uppercased.
pub open spec fn cap_seq(s: Seq<u8>) -> Seq<u8> {
    if s.len() == 0 {
        s
    } else {
        seq![upper_byte(s[0])] + s.skip(1)
    }
}

/// Uppercase the first byte of an ASCII identifier.
#[verifier::loop_isolation(false)]
pub fn capitalize(s: &Vec<u8>) -> (r: Vec<u8>)
    requires
        s@.len() > 0,
    ensures
        r@ == cap_seq(s@),
{
    let mut r: Vec<u8> = Vec::new();
    let first = s[0];
    r.push(if 97 <= first && first <= 122 {
        first - 32
    } else {
        first
    });
    let mut i: usize = 1;
    while i < s.len()
        invariant
            1 <= i <= s@.len(),
            r@ =~= cap_seq(s@).take(i as int),
        decreases s@.len() - i,
    {
        r.push(s[i]);
        proof {
            assert(r@ =~= cap_seq(s@).take(i as int + 1));
        }
        i += 1;
    }
    proof {
        assert(r@ =~= cap_seq(s@));
    }
    r
}

/// A `snake_case` identifier rewritten `PascalCase`: underscores dropped,
/// the byte after each dropped underscore (and the first byte) uppercased.
pub open spec fn pascal_of(s: Seq<u8>, at_start: bool) -> Seq<u8>
    decreases s.len(),
{
    if s.len() == 0 {
        Seq::empty()
    } else if s[0] == 95 {
        pascal_of(s.skip(1), true)
    } else {
        seq![
            if at_start {
                upper_byte(s[0])
            } else {
                s[0]
            },
        ] + pascal_of(s.skip(1), false)
    }
}

/// A segment of the identifier is empty: nothing between two underscores,
/// or before the first, or after the last, or no identifier at all.
pub open spec fn has_empty_segment(s: Seq<u8>) -> bool {
    ||| s.len() == 0
    ||| s[0] == 95
    ||| s[s.len() - 1] == 95
    ||| exists|i: int| 0 <= i < s.len() - 1 && s[i] == 95 && #[trigger] s[i + 1] == 95
}

/// Convert a `snake_case` ASCII identifier to `PascalCase`: each
/// underscore-separated segment capitalized and the segments joined.
/// Identifiers with an empty segment are left out: they have no
/// capitalizable first byte.
#[verifier::loop_isolation(false)]
pub fn snake_case_to_pascal_case(s: &Vec<u8>) -> (r: Vec<u8>)
    requires
        !has_empty_segment(s@),
    ensures
        r@ == pascal_of(s@, true),
{
    let mut r: Vec<u8> = Vec::new();
    let mut at_start = true;
    let mut i: usize = 0;
    proof {
        assert(s@.skip(0) =~= s@);
        assert(r@ =~= Seq::<u8>::empty());
        assert(Seq::<u8>::empty() + pascal_of(s@, true) =~= pascal_of(s@, true));
    }
    while i < s.len()
        invariant
            i <= s@.len(),
            pascal_of(s@, true) == r@ + pascal_of(s@.skip(i as int), at_start),
        decreases s@.len() - i,
    {
        let b = s[i];
        let ghost suffix = s@.skip(i as int);
        proof {
            assert(suffix[0] == s@[i as int]);
            assert(suffix.skip(1) =~= s@.skip(i as int + 1));
        }
        if b == 95 {
            proof {
                assert(pascal_of(suffix, at_start) == pascal_of(s@.skip(i as int + 1), true));
            }
            at_start = true;
        } else {
            let out = if at_start && 97 <= b && b <= 122 {
                b - 32
            } else {
                b
            };
            let ghost head: u8 = if at_start {
                upper_byte(suffix[0])
            } else {
                suffix[0]
            };
            let ghost rest = pascal_of(s@.skip(i as int + 1), false);
            proof {
                assert(out == head);
            }
            r.push(out);
            proof {
                assert(pascal_of(suffix, at_start) == seq![head] + rest);
                assert(r@ + rest =~= r@.drop_last() + (seq![head] + rest));
            }
            at_start = false;
        }
        i += 1;
    }
    proof {
        assert(s@.skip(s@.len() as int) =~= Seq::<u8>::empty());
        assert(pascal_of(Seq::<u8>::empty(), at_start) == Seq::<u8>::empty());
        assert(r@ + Seq::<u8>::empty() =~= r@);
    }
    r
}

} // verus!
