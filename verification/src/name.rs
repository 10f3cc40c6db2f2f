use crate::digits::{dec_digits, lemma_dec_digits_injective};
use vstd::prelude::*;

verus! {

/// `"<base> (<k>)"`: the decorated form the uniquifier falls back to when the
/// bare name collides.
pub open spec fn suffixed(base: Seq<u8>, k: nat) -> Seq<u8> {
    base + seq![32u8, 40u8] + dec_digits(k) + seq![41u8]
}

/// `k` is the least positive suffix whose decorated form is absent from
/// `names`.
pub open spec fn is_least_free(base: Seq<u8>, names: Seq<Seq<u8>>, k: nat) -> bool {
    &&& 1 <= k
    &&& !names.contains(suffixed(base, k))
    &&& forall|j: nat| 1 <= j < k ==> names.contains(#[trigger] suffixed(base, j))
}

/// What the uniquifier returns: the base name itself when it is not yet
/// taken, otherwise the base decorated with the least free positive suffix.
pub open spec fn spec_unique_name(base: Seq<u8>, names: Seq<Seq<u8>>) -> Seq<u8> {
    if !names.contains(base) {
        base
    } else {
        suffixed(base, choose|k: nat| is_least_free(base, names, k))
    }
}

/// Distinct suffixes decorate a base into distinct names.
pub proof fn lemma_suffixed_injective(base: Seq<u8>, k1: nat, k2: nat)
    requires
        suffixed(base, k1) == suffixed(base, k2),
    ensures
        k1 == k2,
{
    let d1 = dec_digits(k1);
    let d2 = dec_digits(k2);
    assert(suffixed(base, k1).len() == base.len() + 2 + d1.len() + 1);
    assert(suffixed(base, k2).len() == base.len() + 2 + d2.len() + 1);
    assert forall|i: int| 0 <= i < d1.len() implies d1[i] == d2[i] by {
        assert(suffixed(base, k1)[base.len() + 2 + i] == d1[i]);
        assert(suffixed(base, k2)[base.len() + 2 + i] == d2[i]);
    }
    assert(d1 =~= d2);
    lemma_dec_digits_injective(k1, k2);
}

/// At most one suffix is the least free one.
pub proof fn lemma_least_free_unique(base: Seq<u8>, names: Seq<Seq<u8>>, k1: nat, k2: nat)
    requires
        is_least_free(base, names, k1),
        is_least_free(base, names, k2),
    ensures
        k1 == k2,
{
    if k1 < k2 {
        assert(names.contains(suffixed(base, k1)));
    }
    if k2 < k1 {
        assert(names.contains(suffixed(base, k2)));
    }
}

/// Pushing a name keeps every name that was already present.
pub proof fn lemma_push_preserves_contains(names: Seq<Seq<u8>>, x: Seq<u8>, y: Seq<u8>)
    requires
        names.contains(y),
    ensures
        names.push(x).contains(y),
{
    let i = choose|i: int| 0 <= i < names.len() && names[i] == y;
    assert(names.push(x)[i] == y);
}

/// If the decorated forms of every suffix `1..=m` are all present in
/// `names`, then `names` holds at least `m` entries: the decorated forms are
/// pairwise distinct.
pub proof fn lemma_taken_suffixes_bound(base: Seq<u8>, names: Seq<Seq<u8>>, m: nat)
    requires
        forall|j: nat| 1 <= j <= m ==> names.contains(#[trigger] suffixed(base, j)),
    ensures
        m <= names.len(),
    decreases m,
{
    if m > 0 {
        assert(names.contains(suffixed(base, m)));
        let idx = choose|i: int| 0 <= i < names.len() && names[i] == suffixed(base, m);
        let rest = names.remove(idx);
        names.remove_ensures(idx);
        assert forall|j: nat| 1 <= j <= m - 1 implies rest.contains(
            #[trigger] suffixed(base, j),
        ) by {
            assert(names.contains(suffixed(base, j)));
            let i2 = choose|i: int| 0 <= i < names.len() && names[i] == suffixed(base, j);
            if names[i2] == names[idx] {
                lemma_suffixed_injective(base, j, m);
                assert(false);
            }
            if i2 < idx {
                assert(rest[i2] == suffixed(base, j));
            } else {
                assert(rest[i2 - 1] == suffixed(base, j));
            }
        }
        lemma_taken_suffixes_bound(base, rest, (m - 1) as nat);
    }
}

/// From any free suffix, a least free suffix exists below it.
proof fn lemma_least_free_from_witness(base: Seq<u8>, names: Seq<Seq<u8>>, k: nat)
    requires
        1 <= k,
        !names.contains(suffixed(base, k)),
    ensures
        exists|k2: nat| is_least_free(base, names, k2),
    decreases k,
{
    if forall|j: nat| 1 <= j < k ==> names.contains(#[trigger] suffixed(base, j)) {
        assert(is_least_free(base, names, k));
    } else {
        let j = choose|j: nat| 1 <= j < k && !names.contains(suffixed(base, j));
        lemma_least_free_from_witness(base, names, j);
    }
}

/// A least free suffix always exists: a list of `n` names cannot hold the
/// `n + 1` pairwise-distinct decorated forms of the suffixes `1..=n + 1`.
pub proof fn lemma_exists_least_free(base: Seq<u8>, names: Seq<Seq<u8>>)
    ensures
        exists|k: nat| is_least_free(base, names, k),
{
    if forall|j: nat| 1 <= j <= names.len() + 1 ==> names.contains(#[trigger] suffixed(base, j)) {
        lemma_taken_suffixes_bound(base, names, (names.len() + 1) as nat);
        assert(false);
    } else {
        let j = choose|j: nat|
            1 <= j <= names.len() + 1 && !names.contains(suffixed(base, j));
        lemma_least_free_from_witness(base, names, j);
    }
}

/// The uniquifier's result is never already present in the list.
pub proof fn lemma_unique_name_fresh(base: Seq<u8>, names: Seq<Seq<u8>>)
    ensures
        !names.contains(spec_unique_name(base, names)),
{
    if names.contains(base) {
        lemma_exists_least_free(base, names);
        let k = choose|k: nat| is_least_free(base, names, k);
        assert(!names.contains(suffixed(base, k)));
    }
}

/// Uniquifier idempotence, first half: a name that is not yet taken comes
/// back unchanged.
pub proof fn lemma_uniquifier_idempotent(base: Seq<u8>, names: Seq<Seq<u8>>)
    requires
        !names.contains(base),
    ensures
        spec_unique_name(base, names) == base,
{
}

/// Uniquifier idempotence, second half: on a collision the result carries
/// the least free suffix, and once that result is appended to the list, the
/// same base next yields a strictly higher suffix.
pub proof fn lemma_uniquifier_next_suffix(base: Seq<u8>, names: Seq<Seq<u8>>)
    requires
        names.contains(base),
    ensures
        exists|k1: nat, k2: nat|
            {
                &&& #[trigger] is_least_free(base, names, k1)
                &&& spec_unique_name(base, names) == suffixed(base, k1)
                &&& #[trigger] is_least_free(
                    base,
                    names.push(spec_unique_name(base, names)),
                    k2,
                )
                &&& spec_unique_name(base, names.push(spec_unique_name(base, names)))
                    == suffixed(base, k2)
                &&& k1 < k2
            },
{
    let r1 = spec_unique_name(base, names);
    lemma_exists_least_free(base, names);
    let k1 = choose|k: nat| is_least_free(base, names, k);
    assert(r1 == suffixed(base, k1));
    let names2 = names.push(r1);
    lemma_push_preserves_contains(names, r1, base);
    lemma_exists_least_free(base, names2);
    let k2 = choose|k: nat| is_least_free(base, names2, k);
    assert(spec_unique_name(base, names2) == suffixed(base, k2));
    assert(names2[names.len() as int] == suffixed(base, k1));
    assert(names2.contains(suffixed(base, k1)));
    if k2 == k1 {
        assert(false);
    }
    if k2 < k1 {
        assert(names.contains(suffixed(base, k2)));
        lemma_push_preserves_contains(names, r1, suffixed(base, k2));
        assert(false);
    }
}

/// Equal byte views of `Vec<u8>` and its deep view.
pub proof fn lemma_u8vec_deep_view(v: Vec<u8>)
    ensures
        v.deep_view() == v@,
{
    assert(v.deep_view() =~= v@);
}

/// Byte-exact comparison of two byte strings.
pub fn bytes_eq(a: &Vec<u8>, b: &Vec<u8>) -> (r: bool)
    ensures
        r == (a@ == b@),
{
    if a.len() != b.len() {
        return false;
    }
    let mut i: usize = 0;
    while i < a.len()
        invariant
            i <= a@.len(),
            a@.len() == b@.len(),
            forall|j: int| 0 <= j < i ==> a@[j] == b@[j],
        decreases a@.len() - i,
    {
        if a[i] != b[i] {
            return false;
        }
        i = i + 1;
    }
    proof {
        assert(a@ =~= b@);
    }
    true
}

/// Copies a byte string.
pub fn clone_bytes(v: &Vec<u8>) -> (r: Vec<u8>)
    ensures
        r@ == v@,
{
    let mut r: Vec<u8> = Vec::new();
    let mut i: usize = 0;
    while i < v.len()
        invariant
            i <= v@.len(),
            r@ =~= v@.take(i as int),
        decreases v@.len() - i,
    {
        let byte = v[i];
        r.push(byte);
        proof {
            assert(r@ =~= v@.take(i as int + 1));
        }
        i = i + 1;
    }
    proof {
        assert(v@.take(v@.len() as int) =~= v@);
    }
    r
}

/// Whether `name` occurs, byte-exactly, in `names`.
pub fn contains_name(names: &Vec<Vec<u8>>, name: &Vec<u8>) -> (r: bool)
    ensures
        r == names.deep_view().contains(name@),
{
    let mut i: usize = 0;
    while i < names.len()
        invariant
            i <= names@.len(),
            forall|j: int| 0 <= j < i ==> names.deep_view()[j] != name@,
        decreases names@.len() - i,
    {
        if bytes_eq(&names[i], name) {
            proof {
                lemma_u8vec_deep_view(names@[i as int]);
                assert(names.deep_view()[i as int] == name@);
            }
            return true;
        }
        proof {
            lemma_u8vec_deep_view(names@[i as int]);
        }
        i = i + 1;
    }
    proof {
        assert(names.deep_view().len() == names@.len());
        if names.deep_view().contains(name@) {
            let j = choose|j: int|
                0 <= j < names.deep_view().len() && names.deep_view()[j] == name@;
            assert(false);
        }
    }
    false
}

/// Builds `"<base> (<k>)"`.
fn make_suffixed(base: &Vec<u8>, k: u64) -> (r: Vec<u8>)
    ensures
        r@ == suffixed(base@, k as nat),
{
    let mut r = clone_bytes(base);
    r.push(32);
    r.push(40);
    let d = crate::digits::dec_bytes(k);
    let mut i: usize = 0;
    while i < d.len()
        invariant
            i <= d@.len(),
            r@ =~= base@ + seq![32u8, 40u8] + d@.take(i as int),
        decreases d@.len() - i,
    {
        let byte = d[i];
        r.push(byte);
        proof {
            assert(r@ =~= base@ + seq![32u8, 40u8] + d@.take(i as int + 1));
        }
        i = i + 1;
    }
    r.push(41);
    proof {
        assert(d@.take(d@.len() as int) =~= d@);
        assert(r@ =~= suffixed(base@, k as nat));
    }
    r
}

/// Turns a raw display name into a name that does not collide with any name
/// already assigned within the same parent: the base itself when free,
/// otherwise `"<base> (<k>)"` for the least free `k >= 1`.
///
/// The caller must append the result to `known_names` before uniquifying the
/// next sibling; insertion order decides which sibling keeps the bare name.
pub fn unique_name(base: &Vec<u8>, known_names: &Vec<Vec<u8>>) -> (r: Vec<u8>)
    requires
        known_names@.len() < usize::MAX,
    ensures
        r@ == spec_unique_name(base@, known_names.deep_view()),
{
    let ghost names = known_names.deep_view();
    if !contains_name(known_names, base) {
        return clone_bytes(base);
    }
    let mut k: usize = 1;
    loop
        invariant
            1 <= k,
            k <= names.len() + 1,
            names.contains(base@),
            names == known_names.deep_view(),
            names.len() < usize::MAX,
            forall|j: nat| 1 <= j < k ==> names.contains(#[trigger] suffixed(base@, j)),
        decreases names.len() + 1 - k,
    {
        let cand = make_suffixed(base, k as u64);
        if !contains_name(known_names, &cand) {
            proof {
                assert(is_least_free(base@, names, k as nat));
                let kk = choose|k2: nat| is_least_free(base@, names, k2);
                lemma_least_free_unique(base@, names, k as nat, kk);
            }
            return cand;
        }
        proof {
            assert(names.contains(suffixed(base@, k as nat)));
            lemma_taken_suffixes_bound(base@, names, k as nat);
        }
        k = k + 1;
    }
}

} // verus!
