use vstd::prelude::*;

verus! {

/// Sum of `f` over the elements of `s`.
pub open spec fn seq_sum<A>(s: Seq<A>, f: spec_fn(A) -> nat) -> nat
    decreases s.len(),
{
    if s.len() == 0 {
        0
    } else {
        seq_sum(s.drop_last(), f) + f(s.last())
    }
}

pub proof fn lemma_sum_take_next<A>(s: Seq<A>, f: spec_fn(A) -> nat, i: int)
    requires
        0 <= i < s.len(),
    ensures
        seq_sum(s.take(i + 1), f) == seq_sum(s.take(i), f) + f(s[i]),
{
    assert(s.take(i + 1).drop_last() =~= s.take(i));
}

pub proof fn lemma_sum_take_all<A>(s: Seq<A>, f: spec_fn(A) -> nat)
    ensures
        seq_sum(s.take(s.len() as int), f) == seq_sum(s, f),
{
    assert(s.take(s.len() as int) =~= s);
}

/// Mapping by a function that either fixes an element or lowers its weight
/// never raises the sum, and lowers it whenever the sequence changes.
pub proof fn lemma_sum_map_shrinks<A>(s: Seq<A>, g: spec_fn(A) -> A, f: spec_fn(A) -> nat)
    requires
        forall|a: A| #[trigger] g(a) == a || f(g(a)) < f(a),
    ensures
        seq_sum(s.map_values(g), f) <= seq_sum(s, f),
        s.map_values(g) != s ==> seq_sum(s.map_values(g), f) < seq_sum(s, f),
    decreases s.len(),
{
    if s.len() > 0 {
        let t = s.drop_last();
        lemma_sum_map_shrinks(t, g, f);
        assert(s.map_values(g).drop_last() =~= t.map_values(g));
        assert(s.map_values(g).last() == g(s.last()));
        assert(seq_sum(s.map_values(g), f) == seq_sum(t.map_values(g), f) + f(g(s.last())));
        if s.map_values(g) != s {
            if t.map_values(g) == t {
                if g(s.last()) == s.last() {
                    assert forall|i: int| 0 <= i < s.len() implies s.map_values(g)[i] == s[i] by {
                        if i < t.len() {
                            assert(t.map_values(g)[i] == t[i]);
                        }
                    }
                    assert(s.map_values(g) =~= s);
                }
            }
        }
    } else {
        assert(s.map_values(g) =~= s);
    }
}

/// A prefix sums to no more than the whole.
pub proof fn lemma_sum_prefix_le<A>(s: Seq<A>, f: spec_fn(A) -> nat, i: int)
    requires
        0 <= i <= s.len(),
    ensures
        seq_sum(s.take(i), f) <= seq_sum(s, f),
    decreases s.len(),
{
    if i < s.len() {
        lemma_sum_prefix_le(s.drop_last(), f, i);
        assert(s.drop_last().take(i) =~= s.take(i));
    } else {
        assert(s.take(i) =~= s);
    }
}

} // verus!
