//! Numbered names: which number is the least that is still free.

use crate::text::decimal;
use vstd::prelude::*;

verus! {

/// The name with the given number.
pub open spec fn numbered(prefix: Seq<char>, n: nat, suffix: Seq<char>) -> Seq<char> {
    prefix + decimal(n) + suffix
}

/// The first of the numbers `n`, `n + 1`, ..., `n + tries` whose name is not taken,
/// or else the last of them.
pub open spec fn first_free(
    taken: Seq<Seq<char>>,
    prefix: Seq<char>,
    suffix: Seq<char>,
    n: nat,
    tries: nat,
) -> nat
    decreases tries,
{
    if tries == 0 || !taken.contains(numbered(prefix, n, suffix)) {
        n
    } else {
        first_free(taken, prefix, suffix, n + 1, (tries - 1) as nat)
    }
}

/// The least number from 1 on whose name is not taken.
pub open spec fn free_number(taken: Seq<Seq<char>>, prefix: Seq<char>, suffix: Seq<char>) -> nat {
    first_free(taken, prefix, suffix, 1, taken.len())
}

/// Different numbers give different names.
pub proof fn law_numbered_injective(prefix: Seq<char>, suffix: Seq<char>, m: nat, n: nat)
    requires
        numbered(prefix, m, suffix) == numbered(prefix, n, suffix),
    ensures
        m == n,
{
    let a = numbered(prefix, m, suffix);
    let b = numbered(prefix, n, suffix);
    let p = prefix.len() as int;
    assert(a.subrange(p, a.len() - suffix.len()) == decimal(m));
    assert(b.subrange(p, b.len() - suffix.len()) == decimal(n));
    crate::text::law_decimal_injective(m, n);
}

proof fn lemma_taken_at_most_len(
    taken: Seq<Seq<char>>,
    prefix: Seq<char>,
    suffix: Seq<char>,
    k: nat,
)
    requires
        forall|n: nat|
            1 <= n <= k ==> taken.contains(#[trigger] numbered(prefix, n, suffix)),
    ensures
        k <= taken.len(),
    decreases k,
{
    if k > 0 {
        let last = numbered(prefix, k, suffix);
        assert(taken.contains(last));
        let i = choose|i: int| 0 <= i < taken.len() && taken[i] == last;
        let rest = taken.remove(i);
        assert forall|n: nat| 1 <= n <= k - 1 implies rest.contains(
            #[trigger] numbered(prefix, n, suffix),
        ) by {
            let name = numbered(prefix, n, suffix);
            assert(taken.contains(name));
            let j = choose|j: int| 0 <= j < taken.len() && taken[j] == name;
            if j == i {
                law_numbered_injective(prefix, suffix, n, k);
            }
            if j < i {
                assert(rest[j] == name);
            } else {
                assert(rest[j - 1] == name);
            }
        }
        lemma_taken_at_most_len(rest, prefix, suffix, (k - 1) as nat);
    }
}

proof fn lemma_first_free(
    taken: Seq<Seq<char>>,
    prefix: Seq<char>,
    suffix: Seq<char>,
    n: nat,
    tries: nat,
)
    ensures
        n <= first_free(taken, prefix, suffix, n, tries) <= n + tries,
        forall|m: nat|
            n <= m < first_free(taken, prefix, suffix, n, tries) ==> taken.contains(
                #[trigger] numbered(prefix, m, suffix),
            ),
        first_free(taken, prefix, suffix, n, tries) < n + tries ==> !taken.contains(
            numbered(prefix, first_free(taken, prefix, suffix, n, tries), suffix),
        ),
    decreases tries,
{
    if tries > 0 && taken.contains(numbered(prefix, n, suffix)) {
        lemma_first_free(taken, prefix, suffix, n + 1, (tries - 1) as nat);
    }
}

/// The free number is free, and every smaller one is taken.
pub proof fn law_free_number_is_least(taken: Seq<Seq<char>>, prefix: Seq<char>, suffix: Seq<char>)
    ensures
        1 <= free_number(taken, prefix, suffix) <= taken.len() + 1,
        !taken.contains(numbered(prefix, free_number(taken, prefix, suffix), suffix)),
        forall|m: nat|
            1 <= m < free_number(taken, prefix, suffix) ==> taken.contains(
                #[trigger] numbered(prefix, m, suffix),
            ),
{
    lemma_first_free(taken, prefix, suffix, 1, taken.len());
    let n = free_number(taken, prefix, suffix);
    if taken.contains(numbered(prefix, n, suffix)) {
        lemma_taken_at_most_len(taken, prefix, suffix, n);
    }
}

} // verus!
