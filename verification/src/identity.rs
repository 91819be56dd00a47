//! The identity allocator: a deterministic token for every leaf widget,
//! stable across render passes.
//!
//! An identity is a string of decimal digits: the digits of the enclosing
//! reusable-component invocation's identity, then the digits of the leaf's
//! call-site counter, then the explicit key if one was given. It depends on
//! those three inputs alone — no randomness, no clock — so a leaf reached at
//! the same place in the tree on a later pass gets the same identity, and
//! two code-identical sites in a loop stay apart as long as their keys do.
//! A leaf in a loop without a key collides with its siblings by design: the
//! cache then treats all iterations as one widget.

use vstd::prelude::*;

verus! {

/// The decimal digits of `n` in ASCII, most significant first.
pub open spec fn dec_digits(n: nat) -> Seq<u8>
    decreases n,
{
    if n < 10 {
        seq![(48 + n) as u8]
    } else {
        dec_digits(n / 10) + seq![(48 + n % 10) as u8]
    }
}

/// An explicit key must itself be decimal digits, so that the combined
/// identity stays inside one alphabet; any other byte is a construction
/// error.
pub open spec fn is_digit_seq(s: Seq<u8>) -> bool {
    forall|i: int| 0 <= i < s.len() ==> 48 <= #[trigger] s[i] <= 57
}

/// The identity of a leaf: enclosing identity, then call-site digits, then
/// the explicit key, concatenated.
pub open spec fn identity_digits(enclosing: Seq<u8>, site: nat, key: Option<Seq<u8>>) -> Seq<u8> {
    enclosing + dec_digits(site) + match key {
        Option::Some(k) => k,
        Option::None => Seq::empty(),
    }
}

/// An identity token: the cache key under which a leaf widget's constructed
/// instance survives across render passes.
pub struct Identity {
    pub digits: Vec<u8>,
}

impl View for Identity {
    type V = Seq<u8>;

    open spec fn view(&self) -> Seq<u8> {
        self.digits@
    }
}

impl Identity {
    /// The identity handed to a tree compiled at top level, standing in for
    /// the missing enclosing invocation.
    pub fn root() -> (r: Identity)
        ensures
            r@ == dec_digits(0),
    {
        let mut digits: Vec<u8> = Vec::new();
        digits.push(48);
        proof {
            assert(digits@ =~= dec_digits(0));
        }
        Identity { digits }
    }

    /// Do two identities name the same leaf?
    pub fn same_as(&self, other: &Identity) -> (r: bool)
        ensures
            r == (self@ == other@),
    {
        bytes_eq(&self.digits, &other.digits)
    }
}

/// Byte-for-byte equality of two byte strings.
#[verifier::loop_isolation(false)]
pub fn bytes_eq(a: &Vec<u8>, b: &Vec<u8>) -> (r: bool)
    ensures
        r == (a@ == b@),
{
    if a.len() != b.len() {
        return false;
    }
    let mut i: usize = 0;
    while i < a.len()
        invariant
            i <= a@.len(),
            forall|j: int| 0 <= j < i ==> a@[j] == b@[j],
        decreases a@.len() - i,
    {
        if a[i] != b[i] {
            return false;
        }
        i += 1;
    }
    proof {
        assert(a@ =~= b@);
    }
    true
}

/// Append the decimal digits of `n` to `out`.
fn push_dec_digits(n: u32, out: &mut Vec<u8>)
    ensures
        final(out)@ == old(out)@ + dec_digits(n as nat),
    decreases n,
{
    if n < 10 {
        out.push(48 + n as u8);
        proof {
            assert(final(out)@ =~= old(out)@ + dec_digits(n as nat));
        }
    } else {
        push_dec_digits(n / 10, out);
        out.push(48 + (n % 10) as u8);
        proof {
            assert(final(out)@ =~= old(out)@ + dec_digits(n as nat));
        }
    }
}

/// Is the key expressible in the identity alphabet?
#[verifier::loop_isolation(false)]
pub fn key_is_valid(key: &Vec<u8>) -> (r: bool)
    ensures
        r == is_digit_seq(key@),
{
    let mut i: usize = 0;
    while i < key.len()
        invariant
            i <= key@.len(),
            forall|j: int| 0 <= j < i ==> 48 <= #[trigger] key@[j] <= 57,
        decreases key@.len() - i,
    {
        let b = key[i];
        if b < 48 || b > 57 {
            return false;
        }
        i += 1;
    }
    true
}

/// The explicit key as the specification sees it.
pub open spec fn spec_key(key: Option<Vec<u8>>) -> Option<Seq<u8>> {
    match key {
        Option::Some(k) => Option::Some(k@),
        Option::None => Option::None,
    }
}

/// Compute the identity of a leaf from its call-site counter, the identity
/// of the enclosing reusable-component invocation, and an optional explicit
/// key. Deterministic in its three inputs; fails exactly on a key that the
/// identity alphabet cannot express.
pub fn allocate(site: u32, enclosing: &Identity, explicit_key: &Option<Vec<u8>>) -> (r: Option<
    Identity,
>)
    ensures
        (r is Some) == (explicit_key is None || is_digit_seq(explicit_key.unwrap()@)),
        r is Some ==> r.unwrap()@ == identity_digits(
            enclosing@,
            site as nat,
            spec_key(*explicit_key),
        ),
{
    let mut digits: Vec<u8> = Vec::new();
    let mut i: usize = 0;
    #[verifier::loop_isolation(false)]
    while i < enclosing.digits.len()
        invariant
            i <= enclosing.digits@.len(),
            digits@ =~= enclosing.digits@.take(i as int),
        decreases enclosing.digits@.len() - i,
    {
        let b = enclosing.digits[i];
        digits.push(b);
        proof {
            assert(digits@ =~= enclosing.digits@.take(i as int + 1));
        }
        i += 1;
    }
    proof {
        assert(digits@ =~= enclosing@);
    }
    push_dec_digits(site, &mut digits);
    match explicit_key {
        Option::None => {
            proof {
                assert(digits@ =~= identity_digits(enclosing@, site as nat, Option::None));
            }
            Option::Some(Identity { digits })
        },
        Option::Some(key) => {
            if !key_is_valid(key) {
                return Option::None;
            }
            let ghost before = digits@;
            let mut j: usize = 0;
            #[verifier::loop_isolation(false)]
            while j < key.len()
                invariant
                    j <= key@.len(),
                    digits@ =~= before + key@.take(j as int),
                decreases key@.len() - j,
            {
                let b = key[j];
                digits.push(b);
                proof {
                    assert(digits@ =~= before + key@.take(j as int + 1));
                }
                j += 1;
            }
            proof {
                assert(key@.take(key@.len() as int) =~= key@);
                assert(digits@ =~= identity_digits(
                    enclosing@,
                    site as nat,
                    Option::Some(key@),
                ));
            }
            Option::Some(Identity { digits })
        },
    }
}

/// The strict lexicographic order on identity digit strings: identities
/// are totally ordered tokens.
pub open spec fn lex_less(a: Seq<u8>, b: Seq<u8>) -> bool
    decreases a.len(),
{
    if b.len() == 0 {
        false
    } else if a.len() == 0 {
        true
    } else if a[0] < b[0] {
        true
    } else if a[0] > b[0] {
        false
    } else {
        lex_less(a.skip(1), b.skip(1))
    }
}

proof fn lemma_lex_skip(a: Seq<u8>, b: Seq<u8>, i: int)
    requires
        0 <= i <= a.len(),
        i <= b.len(),
        forall|j: int| 0 <= j < i ==> a[j] == b[j],
    ensures
        lex_less(a, b) == lex_less(a.skip(i), b.skip(i)),
    decreases i,
{
    if i > 0 {
        lemma_lex_skip(a.skip(1), b.skip(1), i - 1);
        assert(a.skip(1).skip(i - 1) =~= a.skip(i));
        assert(b.skip(1).skip(i - 1) =~= b.skip(i));
        assert(a.skip(0) =~= a);
        assert(b.skip(0) =~= b);
    } else {
        assert(a.skip(0) =~= a);
        assert(b.skip(0) =~= b);
    }
}

/// The order is total: of two identities, exactly one is earlier, unless
/// they are the same.
pub proof fn lemma_lex_less_total(a: Seq<u8>, b: Seq<u8>)
    ensures
        lex_less(a, b) || lex_less(b, a) || a == b,
        !(lex_less(a, b) && lex_less(b, a)),
        lex_less(a, b) ==> a != b,
    decreases a.len(),
{
    if a.len() > 0 && b.len() > 0 && a[0] == b[0] {
        lemma_lex_less_total(a.skip(1), b.skip(1));
        if a.skip(1) == b.skip(1) {
            assert(a.len() == b.len());
            assert forall|j: int| 0 <= j < a.len() implies a[j] == b[j] by {
                if j >= 1 {
                    assert(a.skip(1)[j - 1] == b.skip(1)[j - 1]);
                }
            }
            assert(a =~= b);
        }
        if a == b {
            assert(a.skip(1) =~= b.skip(1));
        }
        if lex_less(a, b) && a == b {
            assert(!(lex_less(a.skip(1), b.skip(1)) && lex_less(b.skip(1), a.skip(1))));
        }
    }
}

/// The order is transitive.
pub proof fn lemma_lex_less_trans(a: Seq<u8>, b: Seq<u8>, c: Seq<u8>)
    requires
        lex_less(a, b),
        lex_less(b, c),
    ensures
        lex_less(a, c),
    decreases a.len(),
{
    if a.len() > 0 && b.len() > 0 && c.len() > 0 && a[0] == b[0] && b[0] == c[0] {
        lemma_lex_less_trans(a.skip(1), b.skip(1), c.skip(1));
    }
}

impl Identity {
    /// Does this identity come strictly before the other in the total
    /// order of identities?
    #[verifier::loop_isolation(false)]
    pub fn precedes(&self, other: &Identity) -> (r: bool)
        ensures
            r == lex_less(self@, other@),
    {
        let a = &self.digits;
        let b = &other.digits;
        let n = if a.len() < b.len() {
            a.len()
        } else {
            b.len()
        };
        let mut i: usize = 0;
        while i < n
            invariant
                i <= n,
                forall|j: int| 0 <= j < i ==> a@[j] == b@[j],
            decreases n - i,
        {
            proof {
                lemma_lex_skip(a@, b@, i as int);
            }
            if a[i] < b[i] {
                proof {
                    assert(a@.skip(i as int)[0] == a@[i as int]);
                    assert(b@.skip(i as int)[0] == b@[i as int]);
                }
                return true;
            }
            if a[i] > b[i] {
                proof {
                    assert(a@.skip(i as int)[0] == a@[i as int]);
                    assert(b@.skip(i as int)[0] == b@[i as int]);
                }
                return false;
            }
            i += 1;
        }
        proof {
            lemma_lex_skip(a@, b@, n as int);
            assert(a@.skip(n as int).len() == a@.len() - n);
            assert(b@.skip(n as int).len() == b@.len() - n);
        }
        a.len() < b.len()
    }
}

/// Distinct explicit keys at the same call site, under the same enclosing
/// invocation, always yield distinct identities — so the iterations of a
/// keyed loop never share a cached widget.
pub proof fn lemma_distinct_keys_distinct_identities(
    enclosing: Seq<u8>,
    site: nat,
    k1: Seq<u8>,
    k2: Seq<u8>,
)
    requires
        k1 != k2,
    ensures
        identity_digits(enclosing, site, Option::Some(k1)) != identity_digits(
            enclosing,
            site,
            Option::Some(k2),
        ),
{
    let p = enclosing + dec_digits(site);
    let a = identity_digits(enclosing, site, Option::Some(k1));
    let b = identity_digits(enclosing, site, Option::Some(k2));
    if a == b {
        assert(a.skip(p.len() as int) =~= k1);
        assert(b.skip(p.len() as int) =~= k2);
        assert(k1 =~= k2);
    }
}

} // verus!
