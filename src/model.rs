//! The sequence model of a double-ended list: what one step from either end
//! yields and leaves behind, runs of such steps, and the laws that runs of
//! pushes and pops obey.
use vstd::prelude::*;

verus! {

/// Taking from the front of `s`: its first element, if any, and the rest.
pub open spec fn take_front<T>(s: Seq<T>) -> (Option<T>, Seq<T>) {
    if s.len() == 0 {
        (None, s)
    } else {
        (Some(s[0]), s.drop_first())
    }
}

/// Taking from the back of `s`: its last element, if any, and the rest.
pub open spec fn take_back<T>(s: Seq<T>) -> (Option<T>, Seq<T>) {
    if s.len() == 0 {
        (None, s)
    } else {
        (Some(s.last()), s.drop_last())
    }
}

/// One step from the back (`true`) or from the front (`false`).
pub open spec fn take_from<T>(s: Seq<T>, from_back: bool) -> (Option<T>, Seq<T>) {
    if from_back {
        take_back(s)
    } else {
        take_front(s)
    }
}

/// A run of steps on `s`, step `i` taken from the end that `dirs[i]` names:
/// the elements handed out, in the order handed out, and what is left.
pub open spec fn take_steps<T>(s: Seq<T>, dirs: Seq<bool>) -> (Seq<T>, Seq<T>)
    decreases dirs.len(),
{
    if dirs.len() == 0 {
        (Seq::empty(), s)
    } else {
        let (taken, left) = take_steps(s, dirs.drop_last());
        let (x, rest) = take_from(left, dirs.last());
        match x {
            Some(v) => (taken.push(v), rest),
            None => (taken, rest),
        }
    }
}

/// How many of the steps `dirs` are taken from the back.
pub open spec fn count_back(dirs: Seq<bool>) -> nat
    decreases dirs.len(),
{
    if dirs.len() == 0 {
        0
    } else {
        count_back(dirs.drop_last()) + if dirs.last() {
            1nat
        } else {
            0nat
        }
    }
}

/// `n` steps, all from the back.
pub open spec fn all_back(n: nat) -> Seq<bool> {
    Seq::new(n, |i: int| true)
}

/// `n` steps, all from the front.
pub open spec fn all_front(n: nat) -> Seq<bool> {
    Seq::new(n, |i: int| false)
}

/// `s` after pushing each element of `vs` at the back, in the order of `vs`.
pub open spec fn push_all_back<T>(s: Seq<T>, vs: Seq<T>) -> Seq<T>
    decreases vs.len(),
{
    if vs.len() == 0 {
        s
    } else {
        push_all_back(s, vs.drop_last()).push(vs.last())
    }
}

/// `s` after pushing each element of `vs` at the front, in the order of `vs`.
pub open spec fn push_all_front<T>(s: Seq<T>, vs: Seq<T>) -> Seq<T>
    decreases vs.len(),
{
    if vs.len() == 0 {
        s
    } else {
        seq![vs.last()] + push_all_front(s, vs.drop_last())
    }
}

/// While no more steps are taken than there are elements, the steps hand out
/// one element each, what is left is the middle of `s` between the steps
/// taken from the front and those taken from the back, and nothing is lost
/// or doubled on the way.
pub proof fn lemma_walk_shape<T>(s: Seq<T>, dirs: Seq<bool>)
    requires
        dirs.len() <= s.len(),
    ensures
        count_back(dirs) <= dirs.len(),
        take_steps(s, dirs).0.len() == dirs.len(),
        take_steps(s, dirs).1 == s.subrange(
            dirs.len() - count_back(dirs),
            s.len() - count_back(dirs),
        ),
        take_steps(s, dirs).0.to_multiset().add(take_steps(s, dirs).1.to_multiset())
            == s.to_multiset(),
    decreases dirs.len(),
{
    broadcast use vstd::seq_lib::group_to_multiset_ensures;

    if dirs.len() == 0 {
        assert(s.subrange(0, s.len() as int) =~= s);
        assert(Seq::<T>::empty().to_multiset().add(s.to_multiset()) =~= s.to_multiset());
    } else {
        let d = dirs.drop_last();
        lemma_walk_shape(s, d);
        let (taken, left) = take_steps(s, d);
        assert(left.len() > 0);
        if dirs.last() {
            let x = left.last();
            assert(left.drop_last() =~= s.subrange(
                dirs.len() - count_back(dirs),
                s.len() - count_back(dirs),
            ));
            assert(left.drop_last().push(x) =~= left);
            assert(taken.push(x).to_multiset().add(left.drop_last().to_multiset())
                =~= taken.to_multiset().add(left.to_multiset()));
        } else {
            let x = left[0];
            assert(left.drop_first() =~= s.subrange(
                dirs.len() - count_back(dirs),
                s.len() - count_back(dirs),
            ));
            assert(left.remove(0) =~= left.drop_first());
            assert(left.contains(x));
            assert(taken.push(x).to_multiset().add(left.drop_first().to_multiset())
                =~= taken.to_multiset().add(left.to_multiset()));
        }
    }
}

/// `k` steps from the back of `s` hand out its last `k` elements, last
/// first, and leave the others.
pub proof fn lemma_back_walk<T>(s: Seq<T>, k: nat)
    requires
        k <= s.len(),
    ensures
        take_steps(s, all_back(k)) == (s.subrange(s.len() - k, s.len() as int).reverse(), s.subrange(0, s.len() - k)),
    decreases k,
{
    let n = s.len() as int;
    if k == 0 {
        assert(s.subrange(n, n).reverse() =~= Seq::<T>::empty());
        assert(s.subrange(0, n) =~= s);
    } else {
        assert(all_back(k).drop_last() =~= all_back((k - 1) as nat));
        lemma_back_walk(s, (k - 1) as nat);
        assert(s.subrange(n - (k - 1), n).reverse().push(s[n - k]) =~= s.subrange(n - k, n).reverse());
        assert(s.subrange(0, n - (k - 1)).drop_last() =~= s.subrange(0, n - k));
    }
}

/// `k` steps from the front of `s` hand out its first `k` elements, in
/// order, and leave the others.
pub proof fn lemma_front_walk<T>(s: Seq<T>, k: nat)
    requires
        k <= s.len(),
    ensures
        take_steps(s, all_front(k)) == (s.subrange(0, k as int), s.subrange(k as int, s.len() as int)),
    decreases k,
{
    let n = s.len() as int;
    if k == 0 {
        assert(s.subrange(0, 0) =~= Seq::<T>::empty());
        assert(s.subrange(0, n) =~= s);
    } else {
        assert(all_front(k).drop_last() =~= all_front((k - 1) as nat));
        lemma_front_walk(s, (k - 1) as nat);
        assert(s.subrange(0, k - 1).push(s[k - 1]) =~= s.subrange(0, k as int));
        assert(s.subrange(k - 1, n).drop_first() =~= s.subrange(k as int, n));
    }
}

/// Pushing at the back, one by one, onto an empty list gives the values in
/// the order pushed.
pub proof fn lemma_push_all_back<T>(vs: Seq<T>)
    ensures
        push_all_back(Seq::empty(), vs) == vs,
    decreases vs.len(),
{
    if vs.len() > 0 {
        lemma_push_all_back(vs.drop_last());
        assert(vs.drop_last().push(vs.last()) =~= vs);
    }
}

/// Pushing at the front, one by one, onto an empty list gives the values in
/// the reverse of the order pushed.
pub proof fn lemma_push_all_front<T>(vs: Seq<T>)
    ensures
        push_all_front(Seq::empty(), vs) == vs.reverse(),
    decreases vs.len(),
{
    if vs.len() > 0 {
        lemma_push_all_front(vs.drop_last());
        assert(seq![vs.last()] + vs.drop_last().reverse() =~= vs.reverse());
    } else {
        assert(vs.reverse() =~= Seq::<T>::empty());
    }
}

/// Pushing `N` values at the back and then taking `k <= N` from the back
/// hands out the last `k` values pushed, last first, and leaves the first
/// `N - k`, in the order pushed: nothing is lost and nothing is handed out
/// twice.
pub proof fn lemma_pushes_then_pops<T>(vs: Seq<T>, k: nat)
    requires
        k <= vs.len(),
    ensures
        take_steps(push_all_back(Seq::empty(), vs), all_back(k)).1 == vs.subrange(0, vs.len() - k),
        take_steps(push_all_back(Seq::empty(), vs), all_back(k)).1.len() == vs.len() - k,
        take_steps(push_all_back(Seq::empty(), vs), all_back(k)).0 == vs.subrange(
            vs.len() - k,
            vs.len() as int,
        ).reverse(),
{
    lemma_push_all_back(vs);
    lemma_back_walk(vs, k);
}

/// Values pushed at one end come back out of that same end in the reverse of
/// the order pushed, and the list is empty afterwards.
pub proof fn lemma_each_end_is_last_in_first_out<T>(vs: Seq<T>)
    ensures
        take_steps(push_all_back(Seq::empty(), vs), all_back(vs.len())) == (vs.reverse(), Seq::<T>::empty()),
        take_steps(push_all_front(Seq::empty(), vs), all_front(vs.len())) == (vs.reverse(), Seq::<T>::empty()),
{
    let n = vs.len() as int;
    lemma_push_all_back(vs);
    lemma_back_walk(vs, vs.len());
    assert(vs.subrange(0, n) =~= vs);
    assert(vs.subrange(0, 0) =~= Seq::<T>::empty());
    lemma_push_all_front(vs);
    lemma_front_walk(vs.reverse(), vs.len());
    assert(vs.reverse().subrange(0, n) =~= vs.reverse());
    assert(vs.reverse().subrange(n, n) =~= Seq::<T>::empty());
}

/// Walking a list from the front to its end hands out exactly its elements,
/// in order, whatever its length, zero included.
pub proof fn lemma_front_walk_round_trip<T>(s: Seq<T>)
    ensures
        take_steps(s, all_front(s.len())) == (s, Seq::<T>::empty()),
{
    let n = s.len() as int;
    lemma_front_walk(s, s.len());
    assert(s.subrange(0, n) =~= s);
    assert(s.subrange(n, n) =~= Seq::<T>::empty());
}

/// Taking from either end of an empty list hands out nothing, every time,
/// and leaves it empty.
pub proof fn lemma_empty_stays_empty<T>(dirs: Seq<bool>)
    ensures
        take_steps(Seq::<T>::empty(), dirs) == (Seq::<T>::empty(), Seq::<T>::empty()),
    decreases dirs.len(),
{
    if dirs.len() > 0 {
        lemma_empty_stays_empty::<T>(dirs.drop_last());
    }
}

/// Any mix of `L` steps from the front and the back on a list of length `L`
/// hands out every element exactly once, and a further step from either end
/// hands out nothing.
pub proof fn lemma_every_walk_takes_each_once<T>(s: Seq<T>, dirs: Seq<bool>)
    requires
        dirs.len() == s.len(),
    ensures
        take_steps(s, dirs).0.len() == s.len(),
        take_steps(s, dirs).0.to_multiset() == s.to_multiset(),
        take_steps(s, dirs).1 == Seq::<T>::empty(),
        take_front(take_steps(s, dirs).1).0 is None,
        take_back(take_steps(s, dirs).1).0 is None,
{
    broadcast use vstd::seq_lib::group_to_multiset_ensures;

    lemma_walk_shape(s, dirs);
    let (taken, left) = take_steps(s, dirs);
    assert(left =~= Seq::<T>::empty());
    assert(taken.to_multiset().add(left.to_multiset()) =~= taken.to_multiset());
}

} // verus!
