use vstd::prelude::*;

verus! {

/// What `filter` keeps is what was there and passes the test.
pub proof fn lemma_filter_members<A>(s: Seq<A>, keep: spec_fn(A) -> bool)
    ensures
        forall|x: A| #[trigger] s.filter(keep).contains(x) <==> s.contains(x) && keep(x),
    decreases s.len(),
{
    if s.len() == 0 {
        reveal(Seq::filter);
    } else {
        let front = s.drop_last();
        let last = s.last();
        lemma_filter_members(front, keep);
        assert(s =~= front.push(last));
        front.lemma_filter_push(last, keep);
        assert forall|x: A| #[trigger] s.filter(keep).contains(x) <==> s.contains(x) && keep(
            x,
        ) by {
            if s.filter(keep).contains(x) {
                let i = choose|i: int| 0 <= i < s.filter(keep).len() && s.filter(keep)[i] == x;
                if keep(last) && i == front.filter(keep).len() {
                    assert(s[s.len() - 1] == x);
                } else {
                    assert(front.filter(keep)[i] == x);
                    assert(front.filter(keep).contains(x));
                    let j = choose|j: int| 0 <= j < front.len() && front[j] == x;
                    assert(s[j] == x);
                }
            }
            if s.contains(x) && keep(x) {
                let j = choose|j: int| 0 <= j < s.len() && s[j] == x;
                if j == s.len() - 1 {
                    assert(s.filter(keep)[front.filter(keep).len() as int] == x);
                } else {
                    assert(front[j] == x);
                    assert(front.filter(keep).contains(x));
                    let i = choose|i: int|
                        0 <= i < front.filter(keep).len() && front.filter(keep)[i] == x;
                    assert(s.filter(keep)[i] == x);
                }
            }
        }
    }
}

/// The members after a push are the members before it and the new one.
pub proof fn lemma_push_members<A>(s: Seq<A>, last: A, x: A)
    ensures
        s.push(last).contains(x) <==> s.contains(x) || x == last,
{
    if s.push(last).contains(x) {
        let i = choose|i: int| 0 <= i < s.push(last).len() && s.push(last)[i] == x;
        if i < s.len() {
            assert(s[i] == x);
        }
    }
    if s.contains(x) {
        let i = choose|i: int| 0 <= i < s.len() && s[i] == x;
        assert(s.push(last)[i] == x);
    }
    if x == last {
        assert(s.push(last)[s.len() as int] == x);
    }
}

/// A member of all but the last is a member of the whole.
pub proof fn lemma_front_member<A>(s: Seq<A>, x: A)
    requires
        s.len() > 0,
        s.drop_last().contains(x),
    ensures
        s.contains(x),
{
    let j = choose|j: int| 0 <= j < s.drop_last().len() && s.drop_last()[j] == x;
    assert(s[j] == x);
}

/// Filtering a sequence without repeats leaves one without repeats.
pub proof fn lemma_filter_no_duplicates<A>(s: Seq<A>, keep: spec_fn(A) -> bool)
    requires
        s.no_duplicates(),
    ensures
        s.filter(keep).no_duplicates(),
    decreases s.len(),
{
    if s.len() == 0 {
        reveal(Seq::filter);
    } else {
        let front = s.drop_last();
        let last = s.last();
        lemma_filter_no_duplicates(front, keep);
        lemma_filter_members(front, keep);
        assert(s =~= front.push(last));
        front.lemma_filter_push(last, keep);
        if keep(last) {
            assert(!front.contains(last)) by {
                if front.contains(last) {
                    let j = choose|j: int| 0 <= j < front.len() && front[j] == last;
                    assert(s[j] == s[s.len() - 1]);
                }
            }
            assert(!front.filter(keep).contains(last));
        }
    }
}

/// A test that every member passes keeps the whole sequence.
pub proof fn lemma_filter_all<A>(s: Seq<A>, keep: spec_fn(A) -> bool)
    requires
        forall|x: A| s.contains(x) ==> keep(x),
    ensures
        s.filter(keep) == s,
    decreases s.len(),
{
    if s.len() == 0 {
        reveal(Seq::filter);
    } else {
        let front = s.drop_last();
        let last = s.last();
        assert(s =~= front.push(last));
        assert forall|x: A| front.contains(x) implies keep(x) by {
            lemma_front_member(s, x);
        }
        lemma_filter_all(front, keep);
        front.lemma_filter_push(last, keep);
        assert(s[s.len() - 1] == last);
        assert(s.contains(last));
    }
}

/// Filtering twice is filtering once by both tests.
pub proof fn lemma_filter_twice<A>(
    s: Seq<A>,
    first: spec_fn(A) -> bool,
    second: spec_fn(A) -> bool,
    both: spec_fn(A) -> bool,
)
    requires
        forall|x: A| s.contains(x) ==> both(x) == (first(x) && second(x)),
    ensures
        s.filter(first).filter(second) == s.filter(both),
    decreases s.len(),
{
    if s.len() == 0 {
        reveal(Seq::filter);
    } else {
        let front = s.drop_last();
        let last = s.last();
        assert(s =~= front.push(last));
        assert forall|x: A| front.contains(x) implies both(x) == (first(x) && second(x)) by {
            lemma_front_member(s, x);
        }
        lemma_filter_twice(front, first, second, both);
        front.lemma_filter_push(last, first);
        front.lemma_filter_push(last, both);
        front.filter(first).lemma_filter_push(last, second);
        assert(s[s.len() - 1] == last);
        assert(s.contains(last));
    }
}

/// Taking one member out of a sequence without repeats is filtering by
/// a test that only that member fails.
pub proof fn lemma_remove_is_filter<A>(s: Seq<A>, i: int, keep: spec_fn(A) -> bool)
    requires
        s.no_duplicates(),
        0 <= i < s.len(),
        forall|x: A| s.contains(x) ==> keep(x) == (x != s[i]),
    ensures
        s.remove(i) == s.filter(keep),
    decreases s.len(),
{
    let front = s.drop_last();
    let last = s.last();
    assert(s =~= front.push(last));
    assert forall|x: A| front.contains(x) implies s.contains(x) by {
        lemma_front_member(s, x);
    }
    assert(s[s.len() - 1] == last);
    assert(s.contains(last));
    front.lemma_filter_push(last, keep);
    if i == s.len() - 1 {
        assert forall|x: A| front.contains(x) implies keep(x) by {
            lemma_front_member(s, x);
        }
        lemma_filter_all(front, keep);
        assert(s.remove(i) =~= front);
    } else {
        assert(front[i] == s[i]);
        lemma_remove_is_filter(front, i, keep);
        assert(s.remove(i) =~= front.remove(i).push(last));
    }
}

} // verus!
