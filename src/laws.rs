//! What holds of a list over whole sequences of calls.
//!
//! Each call is stood for by an [`Op`]; [`apply`] gives the elements after it
//! exactly as the method's contract does, and [`returned`] what a removal hands
//! back. The lemmas then speak of a list built from `List::new`, whose view is
//! the empty sequence.
use vstd::prelude::*;

verus! {

/// One call that changes a list.
pub enum Op<T> {
    PushFront(T),
    PushBack(T),
    PopFront,
    PopBack,
}

/// The elements after `op` is applied to a list holding `s`.
pub open spec fn apply<T>(s: Seq<T>, op: Op<T>) -> Seq<T> {
    match op {
        Op::PushFront(x) => seq![x] + s,
        Op::PushBack(x) => s.push(x),
        Op::PopFront => if s.len() == 0 {
            s
        } else {
            s.drop_first()
        },
        Op::PopBack => if s.len() == 0 {
            s
        } else {
            s.drop_last()
        },
    }
}

/// What `op` hands back when applied to a list holding `s`: the removed
/// element, or nothing for an insertion or a removal from an empty list.
pub open spec fn returned<T>(s: Seq<T>, op: Op<T>) -> Option<T> {
    match op {
        Op::PopFront => if s.len() == 0 {
            None
        } else {
            Some(s[0])
        },
        Op::PopBack => if s.len() == 0 {
            None
        } else {
            Some(s.last())
        },
        _ => None,
    }
}

/// The elements after the calls `ops`, made in order on a list holding `s`.
pub open spec fn run<T>(s: Seq<T>, ops: Seq<Op<T>>) -> Seq<T>
    decreases ops.len(),
{
    if ops.len() == 0 {
        s
    } else {
        apply(run(s, ops.drop_last()), ops.last())
    }
}

/// The elements handed back by the calls `ops`, in the order they came.
pub open spec fn outputs<T>(s: Seq<T>, ops: Seq<Op<T>>) -> Seq<T>
    decreases ops.len(),
{
    if ops.len() == 0 {
        Seq::empty()
    } else {
        let before = outputs(s, ops.drop_last());
        match returned(run(s, ops.drop_last()), ops.last()) {
            Some(x) => before.push(x),
            None => before,
        }
    }
}

/// How many of `ops` are insertions.
pub open spec fn pushes<T>(ops: Seq<Op<T>>) -> nat
    decreases ops.len(),
{
    if ops.len() == 0 {
        0
    } else {
        pushes(ops.drop_last()) + match ops.last() {
            Op::PushFront(_) | Op::PushBack(_) => 1nat,
            _ => 0nat,
        }
    }
}

/// How many of the removals in `ops`, made on a list holding `s`, found an
/// element to remove.
pub open spec fn removals<T>(s: Seq<T>, ops: Seq<Op<T>>) -> nat
    decreases ops.len(),
{
    if ops.len() == 0 {
        0
    } else {
        removals(s, ops.drop_last()) + if returned(run(s, ops.drop_last()), ops.last()) is Some {
            1nat
        } else {
            0nat
        }
    }
}

/// One `PushBack` for each of `xs`, in order.
pub open spec fn push_backs<T>(xs: Seq<T>) -> Seq<Op<T>> {
    Seq::new(xs.len(), |i: int| Op::PushBack(xs[i]))
}

/// One `PushFront` for each of `xs`, in order.
pub open spec fn push_fronts<T>(xs: Seq<T>) -> Seq<Op<T>> {
    Seq::new(xs.len(), |i: int| Op::PushFront(xs[i]))
}

/// `n` calls of `PopFront`.
pub open spec fn pop_fronts<T>(n: nat) -> Seq<Op<T>> {
    Seq::new(n, |i: int| Op::PopFront)
}

/// The op sequence holds insertions only.
pub open spec fn only_pushes<T>(ops: Seq<Op<T>>) -> bool {
    forall|i: int| 0 <= i < ops.len() ==> !(#[trigger] ops[i] is PopFront) && !(ops[i] is PopBack)
}

/// The elements inserted by `PushFront` among `ops`, in call order.
pub open spec fn fronts<T>(ops: Seq<Op<T>>) -> Seq<T>
    decreases ops.len(),
{
    if ops.len() == 0 {
        Seq::empty()
    } else {
        match ops.last() {
            Op::PushFront(x) => fronts(ops.drop_last()).push(x),
            _ => fronts(ops.drop_last()),
        }
    }
}

/// The elements inserted by `PushBack` among `ops`, in call order.
pub open spec fn backs<T>(ops: Seq<Op<T>>) -> Seq<T>
    decreases ops.len(),
{
    if ops.len() == 0 {
        Seq::empty()
    } else {
        match ops.last() {
            Op::PushBack(x) => backs(ops.drop_last()).push(x),
            _ => backs(ops.drop_last()),
        }
    }
}

/// Running `a` and then `b` is running `a + b`.
pub proof fn lemma_run_concat<T>(s: Seq<T>, a: Seq<Op<T>>, b: Seq<Op<T>>)
    ensures
        run(s, a + b) == run(run(s, a), b),
        outputs(s, a + b) == outputs(s, a) + outputs(run(s, a), b),
    decreases b.len(),
{
    if b.len() == 0 {
        assert(a + b =~= a);
        assert(outputs(s, a) + outputs(run(s, a), b) =~= outputs(s, a));
    } else {
        lemma_run_concat(s, a, b.drop_last());
        assert((a + b).drop_last() =~= a + b.drop_last());
        assert((a + b).last() == b.last());
        match returned(run(run(s, a), b.drop_last()), b.last()) {
            Some(x) => {
                assert(outputs(s, a) + outputs(run(s, a), b.drop_last()).push(x) =~= (outputs(s, a)
                    + outputs(run(s, a), b.drop_last())).push(x));
            },
            None => {},
        }
    }
}

proof fn lemma_push_backs<T>(s: Seq<T>, xs: Seq<T>)
    ensures
        run(s, push_backs(xs)) == s + xs,
        outputs(s, push_backs(xs)) == Seq::<T>::empty(),
    decreases xs.len(),
{
    if xs.len() == 0 {
        assert(s + xs =~= s);
    } else {
        lemma_push_backs(s, xs.drop_last());
        assert(push_backs(xs).drop_last() =~= push_backs(xs.drop_last()));
        assert((s + xs.drop_last()).push(xs.last()) =~= s + xs);
    }
}

proof fn lemma_push_fronts<T>(s: Seq<T>, xs: Seq<T>)
    ensures
        run(s, push_fronts(xs)) == xs.reverse() + s,
        outputs(s, push_fronts(xs)) == Seq::<T>::empty(),
    decreases xs.len(),
{
    if xs.len() == 0 {
        assert(xs.reverse() + s =~= s);
    } else {
        lemma_push_fronts(s, xs.drop_last());
        assert(push_fronts(xs).drop_last() =~= push_fronts(xs.drop_last()));
        assert(seq![xs.last()] + (xs.drop_last().reverse() + s) =~= xs.reverse() + s);
    }
}

proof fn lemma_pop_fronts<T>(s: Seq<T>, n: nat)
    ensures
        n <= s.len() ==> run(s, pop_fronts(n)) == s.skip(n as int),
        n <= s.len() ==> outputs(s, pop_fronts(n)) == s.take(n as int),
        n > s.len() ==> run(s, pop_fronts(n)) == Seq::<T>::empty(),
        n > s.len() ==> outputs(s, pop_fronts(n)) == s,
    decreases n,
{
    if n == 0 {
        assert(s.skip(0) =~= s);
        assert(s.take(0) =~= Seq::<T>::empty());
    } else {
        lemma_pop_fronts(s, (n - 1) as nat);
        assert(pop_fronts::<T>(n).drop_last() =~= pop_fronts((n - 1) as nat));
        assert(pop_fronts::<T>(n).last() is PopFront);
        if n <= s.len() {
            assert(s.skip(n - 1).drop_first() =~= s.skip(n as int));
            assert(s.take(n - 1).push(s.skip(n - 1)[0]) =~= s.take(n as int));
        } else if n - 1 == s.len() {
            assert(s.skip(n - 1) =~= Seq::<T>::empty());
            assert(s.take(n - 1) =~= s);
        }
    }
}

/// Elements put in with `push_back` and then taken out with as many
/// `pop_front` calls come out in the order they went in.
pub proof fn lemma_push_back_pop_front_fifo<T>(xs: Seq<T>)
    ensures
        outputs(Seq::empty(), push_backs(xs) + pop_fronts(xs.len())) == xs,
        run(Seq::empty(), push_backs(xs) + pop_fronts(xs.len())) == Seq::<T>::empty(),
{
    let e = Seq::<T>::empty();
    lemma_run_concat(e, push_backs(xs), pop_fronts(xs.len()));
    lemma_push_backs(e, xs);
    assert(e + xs =~= xs);
    lemma_pop_fronts(xs, xs.len());
    assert(xs.take(xs.len() as int) =~= xs);
    assert(xs.skip(xs.len() as int) =~= e);
    assert(e + xs =~= xs);
}

/// Elements put in with `push_front` come out of `pop_front` in the reverse
/// of the order they went in, however many removals follow.
pub proof fn lemma_push_front_pop_front_lifo<T>(xs: Seq<T>, n: nat)
    ensures
        n <= xs.len() ==> outputs(Seq::empty(), push_fronts(xs) + pop_fronts(n)) == xs.reverse().take(n as int),
        n > xs.len() ==> outputs(Seq::empty(), push_fronts(xs) + pop_fronts(n)) == xs.reverse(),
{
    let e = Seq::<T>::empty();
    lemma_run_concat(e, push_fronts(xs), pop_fronts(n));
    lemma_push_fronts(e, xs);
    assert(xs.reverse() + e =~= xs.reverse());
    lemma_pop_fronts(xs.reverse(), n);
    assert(e + xs.reverse().take(n as int) =~= xs.reverse().take(n as int));
    assert(e + xs.reverse() =~= xs.reverse());
}

proof fn lemma_len_counts_from<T>(s: Seq<T>, ops: Seq<Op<T>>)
    ensures
        run(s, ops).len() + removals(s, ops) == s.len() + pushes(ops),
    decreases ops.len(),
{
    if ops.len() > 0 {
        lemma_len_counts_from(s, ops.drop_last());
    }
}

/// After any calls on a new list, its length is the number of insertions
/// less the number of removals that found an element.
pub proof fn lemma_len_counts<T>(ops: Seq<Op<T>>)
    ensures
        run(Seq::<T>::empty(), ops).len() == pushes(ops) - removals(Seq::<T>::empty(), ops),
{
    lemma_len_counts_from(Seq::<T>::empty(), ops);
}

/// After `push_front` and `push_back` calls alone on a new list, the
/// elements run from the last front insertion back to the first one, then
/// through the back insertions in the order they were made.
pub proof fn lemma_interleaved_pushes<T>(ops: Seq<Op<T>>)
    requires
        only_pushes(ops),
    ensures
        run(Seq::<T>::empty(), ops) == fronts(ops).reverse() + backs(ops),
    decreases ops.len(),
{
    if ops.len() > 0 {
        let init = ops.drop_last();
        assert(only_pushes(init)) by {
            assert forall|i: int| 0 <= i < init.len() implies !(#[trigger] init[i] is PopFront)
                && !(init[i] is PopBack) by {
                assert(init[i] == ops[i]);
            }
        }
        lemma_interleaved_pushes(init);
        assert(!(ops[ops.len() - 1] is PopFront) && !(ops[ops.len() - 1] is PopBack));
        match ops.last() {
            Op::PushFront(x) => {
                assert(seq![x] + (fronts(init).reverse() + backs(init)) =~= fronts(init).push(
                    x,
                ).reverse() + backs(init));
            },
            Op::PushBack(x) => {
                assert((fronts(init).reverse() + backs(init)).push(x) =~= fronts(init).reverse()
                    + backs(init).push(x));
            },
            _ => {},
        }
    }
}

} // verus!
