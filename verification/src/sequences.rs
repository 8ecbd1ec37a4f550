//! Facts about sequences that several stages lean on.

use vstd::prelude::*;

verus! {

/// Taking one more element of `s` before filtering by `keep` and mapping
/// by `f` appends the image of that element where `keep` holds of it, and
/// changes nothing where it does not.
pub proof fn lemma_filter_map_step<A, B>(
    s: Seq<A>,
    k: int,
    keep: spec_fn(A) -> bool,
    f: spec_fn(A) -> B,
)
    requires
        0 <= k < s.len(),
    ensures
        s.take(k + 1).filter(keep).map_values(f) == if keep(s[k]) {
            s.take(k).filter(keep).map_values(f).push(f(s[k]))
        } else {
            s.take(k).filter(keep).map_values(f)
        },
{
    let head = s.take(k);
    assert(s.take(k + 1) =~= head.push(s[k]));
    Seq::lemma_filter_push(head, s[k], keep);
    if keep(s[k]) {
        assert(head.filter(keep).push(s[k]).map_values(f) =~= head.filter(keep).map_values(f).push(
            f(s[k]),
        ));
    }
}

/// What a sequence holds after a push.
pub proof fn lemma_push_contains<T>(s: Seq<T>, e: T)
    ensures
        forall|x: T| #[trigger] s.push(e).contains(x) <==> s.contains(x) || x == e,
{
    assert forall|x: T| #[trigger] s.push(e).contains(x) <==> s.contains(x) || x == e by {
        if s.push(e).contains(x) {
            let i = choose|i: int| 0 <= i < s.push(e).len() && s.push(e)[i] == x;
            if i < s.len() {
                assert(s[i] == x);
            }
        }
        if s.contains(x) {
            let i = choose|i: int| 0 <= i < s.len() && s[i] == x;
            assert(s.push(e)[i] == x);
        }
        if x == e {
            assert(s.push(e)[s.len() as int] == x);
        }
    }
}

/// What a sequence without repeats holds once its last element is dropped.
pub proof fn lemma_drop_last_contains<T>(s: Seq<T>)
    requires
        s.len() > 0,
        s.no_duplicates(),
    ensures
        s.drop_last().no_duplicates(),
        !s.drop_last().contains(s.last()),
        forall|x: T| #[trigger] s.contains(x) <==> s.drop_last().contains(x) || x == s.last(),
{
    let t = s.drop_last();
    assert forall|x: T| #[trigger] s.contains(x) <==> t.contains(x) || x == s.last() by {
        if s.contains(x) {
            let i = choose|i: int| 0 <= i < s.len() && s[i] == x;
            if i < t.len() {
                assert(t[i] == x);
            }
        }
        if t.contains(x) {
            let i = choose|i: int| 0 <= i < t.len() && t[i] == x;
            assert(s[i] == x);
        }
    }
    if t.contains(s.last()) {
        let i = choose|i: int| 0 <= i < t.len() && t[i] == s.last();
        assert(s[i] == s[s.len() - 1]);
    }
}

} // verus!
