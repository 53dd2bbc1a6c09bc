use vstd::prelude::*;

verus! {

/// Removes repeated elements from a sequence, keeping the first occurrence
/// of each element in its original order.
pub open spec fn dedup<A>(s: Seq<A>) -> Seq<A>
    decreases s.len(),
{
    if s.len() == 0 {
        Seq::empty()
    } else {
        let init = s.drop_last();
        if init.contains(s.last()) {
            dedup(init)
        } else {
            dedup(init).push(s.last())
        }
    }
}

/// Deduplication keeps exactly the elements of the input.
pub proof fn lemma_dedup_contains<A>(s: Seq<A>, x: A)
    ensures
        dedup(s).contains(x) <==> s.contains(x),
    decreases s.len(),
{
    if s.len() > 0 {
        let init = s.drop_last();
        lemma_dedup_contains(init, x);
        assert(s.contains(x) <==> (init.contains(x) || s.last() == x)) by {
            if s.contains(x) {
                let i = choose|i: int| 0 <= i < s.len() && s[i] == x;
                if i < s.len() - 1 {
                    assert(init[i] == x);
                } else {
                    assert(s.last() == x);
                }
            }
            if init.contains(x) {
                let i = choose|i: int| 0 <= i < init.len() && init[i] == x;
                assert(s[i] == x);
            }
            if s.last() == x {
                assert(s[s.len() - 1] == x);
            }
        }
        if !init.contains(s.last()) {
            assert(dedup(s) == dedup(init).push(s.last()));
            assert(dedup(s).contains(x) <==> (dedup(init).contains(x) || s.last() == x)) by {
                let d = dedup(init);
                if d.contains(x) {
                    let i = choose|i: int| 0 <= i < d.len() && d[i] == x;
                    assert(d.push(s.last())[i] == x);
                }
                assert(d.push(s.last())[d.len() as int] == s.last());
                if d.push(s.last()).contains(x) {
                    let i = choose|i: int| 0 <= i < d.push(s.last()).len() && d.push(s.last())[i] == x;
                    if i < d.len() {
                        assert(d[i] == x);
                    } else {
                        assert(s.last() == x);
                    }
                }
            }
        }
    }
}

/// The result of deduplication holds no element twice.
pub proof fn lemma_dedup_no_duplicates<A>(s: Seq<A>)
    ensures
        dedup(s).no_duplicates(),
    decreases s.len(),
{
    if s.len() > 0 {
        let init = s.drop_last();
        lemma_dedup_no_duplicates(init);
        if !init.contains(s.last()) {
            lemma_dedup_contains(init, s.last());
            let d = dedup(init);
            assert(!d.contains(s.last()));
            assert(d.push(s.last()).no_duplicates()) by {
                assert forall|i: int, j: int|
                    0 <= i < d.push(s.last()).len() && 0 <= j < d.push(s.last()).len() && i != j
                    implies d.push(s.last())[i] != d.push(s.last())[j] by {
                    if i < d.len() && j < d.len() {
                        assert(d[i] != d[j]);
                    } else if i < d.len() {
                        assert(d[i] == d.push(s.last())[i]);
                        if d.push(s.last())[i] == s.last() {
                            assert(d.contains(s.last()));
                        }
                    } else {
                        assert(d[j] == d.push(s.last())[j]);
                        if d.push(s.last())[j] == s.last() {
                            assert(d.contains(s.last()));
                        }
                    }
                }
            }
        }
    }
}

/// A sequence without repeats is left unchanged by deduplication.
pub proof fn lemma_dedup_of_no_duplicates<A>(s: Seq<A>)
    requires
        s.no_duplicates(),
    ensures
        dedup(s) == s,
    decreases s.len(),
{
    if s.len() == 0 {
        assert(dedup(s) =~= s);
    } else {
        let init = s.drop_last();
        assert(init.no_duplicates());
        lemma_dedup_of_no_duplicates(init);
        assert(!init.contains(s.last())) by {
            if init.contains(s.last()) {
                let i = choose|i: int| 0 <= i < init.len() && init[i] == s.last();
                assert(s[i] == s[s.len() - 1]);
            }
        }
        assert(dedup(s) == init.push(s.last()));
        assert(init.push(s.last()) =~= s);
    }
}

/// Deduplicating twice is the same as deduplicating once: projection with
/// set semantics is idempotent on the stored tuples.
pub proof fn lemma_dedup_idempotent<A>(s: Seq<A>)
    ensures
        dedup(dedup(s)) == dedup(s),
{
    lemma_dedup_no_duplicates(s);
    lemma_dedup_of_no_duplicates(dedup(s));
}

} // verus!
