//! Facts about joining point lists: what a joined list holds, and that the
//! order in which the lists arrive does not change it as a collection.
use vstd::prelude::*;
use vstd::seq_lib::lemma_multiset_commutative;

verus! {

/// Every element of a joined list comes from one of the lists.
pub proof fn lemma_flatten_member<A>(s: Seq<Seq<A>>, k: int)
    requires
        0 <= k < s.flatten().len(),
    ensures
        exists|i: int, j: int|
            0 <= i < s.len() && 0 <= j < s[i].len() && #[trigger] s[i][j] == s.flatten()[k],
    decreases s.len(),
{
    if s.len() > 0 {
        let first = s.first();
        let rest = s.drop_first();
        assert(s.flatten() == first + rest.flatten());
        if k < first.len() {
            assert(s[0][k] == s.flatten()[k]);
        } else {
            lemma_flatten_member(rest, k - first.len());
            let (i, j) = choose|i: int, j: int|
                0 <= i < rest.len() && 0 <= j < rest[i].len() && #[trigger] rest[i][j]
                    == rest.flatten()[k - first.len()];
            assert(s[i + 1][j] == s.flatten()[k]);
        }
    }
}

/// Every element of each list is found in the joined list.
pub proof fn lemma_flatten_keeps<A>(s: Seq<Seq<A>>, i: int, j: int)
    requires
        0 <= i < s.len(),
        0 <= j < s[i].len(),
    ensures
        s.flatten().contains(s[i][j]),
    decreases s.len(),
{
    let first = s.first();
    let rest = s.drop_first();
    assert(s.flatten() == first + rest.flatten());
    if i == 0 {
        assert(s.flatten()[j] == s[i][j]);
    } else {
        lemma_flatten_keeps(rest, i - 1, j);
        let k = choose|k: int| 0 <= k < rest.flatten().len() && rest.flatten()[k] == s[i][j];
        assert(s.flatten()[first.len() + k] == s[i][j]);
    }
}

/// Lists without elements join to a list without elements.
pub proof fn lemma_flatten_of_empty<A>(s: Seq<Seq<A>>)
    requires
        forall|i: int| 0 <= i < s.len() ==> (#[trigger] s[i]).len() == 0,
    ensures
        s.flatten().len() == 0,
    decreases s.len(),
{
    if s.len() > 0 {
        let rest = s.drop_first();
        assert forall|i: int| 0 <= i < rest.len() implies (#[trigger] rest[i]).len() == 0 by {
            assert(rest[i] == s[i + 1]);
        }
        lemma_flatten_of_empty(rest);
        assert(s.first().len() == 0);
    }
}

/// Taking one list out of the sequence takes exactly its elements out of
/// the joined list.
pub proof fn lemma_flatten_without<A>(s: Seq<Seq<A>>, j: int)
    requires
        0 <= j < s.len(),
    ensures
        s.flatten().to_multiset() =~= s.remove(j).flatten().to_multiset().add(s[j].to_multiset()),
    decreases s.len(),
{
    let first = s.first();
    let rest = s.drop_first();
    assert(s.flatten() == first + rest.flatten());
    lemma_multiset_commutative(first, rest.flatten());
    if j == 0 {
        assert(s.remove(0) =~= rest);
    } else {
        let cut = s.remove(j);
        assert(cut.first() == first);
        assert(cut.drop_first() =~= rest.remove(j - 1));
        assert(cut.flatten() == first + rest.remove(j - 1).flatten());
        lemma_multiset_commutative(first, rest.remove(j - 1).flatten());
        lemma_flatten_without(rest, j - 1);
        assert(rest[j - 1] == s[j]);
    }
}

/// The joined list holds the same elements, each as often, in whatever
/// order the lists arrive.
pub proof fn lemma_arrival_order<A>(a: Seq<Seq<A>>, b: Seq<Seq<A>>)
    requires
        a.to_multiset() == b.to_multiset(),
    ensures
        a.flatten().to_multiset() == b.flatten().to_multiset(),
        a.flatten().len() == b.flatten().len(),
    decreases a.len(),
{
    a.to_multiset_ensures();
    b.to_multiset_ensures();
    if a.len() == 0 {
        assert(b.len() == 0);
    } else {
        let x = a[0];
        assert(a.contains(x));
        assert(a.to_multiset().count(x) > 0);
        assert(b.to_multiset().count(x) > 0);
        assert(b.contains(x));
        let j = choose|j: int| 0 <= j < b.len() && b[j] == x;
        assert(a.remove(0).to_multiset() == b.remove(j).to_multiset());
        lemma_arrival_order(a.remove(0), b.remove(j));
        lemma_flatten_without(a, 0);
        lemma_flatten_without(b, j);
    }
    a.flatten().to_multiset_ensures();
    b.flatten().to_multiset_ensures();
}

/// Rating a longer prefix of a sequence adds the rated stretch between the
/// two prefix lengths.
pub proof fn lemma_filter_map_split<A, B>(s: Seq<A>, f: spec_fn(A) -> Option<B>, a: int, b: int)
    requires
        0 <= a <= b <= s.len(),
    ensures
        s.take(b).filter_map(f) == s.take(a).filter_map(f) + s.subrange(a, b).filter_map(f),
    decreases b - a,
{
    let stretch = s.subrange(a, b);
    if a == b {
        assert(stretch.filter_map(f) =~= Seq::<B>::empty());
        assert(s.take(a).filter_map(f) + Seq::<B>::empty() =~= s.take(a).filter_map(f));
    } else {
        lemma_filter_map_split(s, f, a, b - 1);
        s.lemma_filter_map_take_succ(f, b - 1);
        stretch.lemma_filter_map_take_succ(f, b - a - 1);
        assert(stretch.take(b - a) =~= stretch);
        assert(stretch.take(b - a - 1) =~= s.subrange(a, b - 1));
        assert(stretch[b - a - 1] == s[b - 1]);
        let tail = match f(s[b - 1]) {
            Option::Some(x) => seq![x],
            Option::None => Seq::empty(),
        };
        assert((s.take(a).filter_map(f) + s.subrange(a, b - 1).filter_map(f)) + tail =~= s.take(
            a,
        ).filter_map(f) + (s.subrange(a, b - 1).filter_map(f) + tail));
    }
}

} // verus!
