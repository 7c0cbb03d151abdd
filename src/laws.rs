use vstd::prelude::*;

verus! {

/// One operation on a queue, as seen through its contents: an enqueue of a
/// value (for `SharedQueue`, its successful tail swing), a dequeue, or a
/// dequeue that found the head not yet linked forward and returned nothing.
pub enum Step<T> {
    Enqueue(T),
    Dequeue,
    Miss,
}

/// The contents and the dequeue results, oldest first, after `steps` run in
/// order on a queue holding `q`, each step acting as the `ensures` of the
/// queues' enqueues and dequeues say.
pub open spec fn run<T>(q: Seq<T>, steps: Seq<Step<T>>) -> (Seq<T>, Seq<Option<T>>)
    decreases steps.len(),
{
    if steps.len() == 0 {
        (q, Seq::empty())
    } else {
        let (q1, out) = run(q, steps.drop_last());
        match steps.last() {
            Step::Enqueue(x) => (q1.push(x), out),
            Step::Dequeue => if q1.len() == 0 {
                (q1, out.push(None))
            } else {
                (q1.drop_first(), out.push(Some(q1[0])))
            },
            Step::Miss => (q1, out.push(None)),
        }
    }
}

/// The values that `steps` enqueue, in order.
pub open spec fn enqueued<T>(steps: Seq<Step<T>>) -> Seq<T>
    decreases steps.len(),
{
    if steps.len() == 0 {
        Seq::empty()
    } else {
        let e = enqueued(steps.drop_last());
        match steps.last() {
            Step::Enqueue(x) => e.push(x),
            Step::Dequeue | Step::Miss => e,
        }
    }
}

/// The values among dequeue results, in order, leaving out the empty ones.
pub open spec fn returned<T>(out: Seq<Option<T>>) -> Seq<T>
    decreases out.len(),
{
    if out.len() == 0 {
        Seq::empty()
    } else {
        let r = returned(out.drop_last());
        match out.last() {
            Some(x) => r.push(x),
            None => r,
        }
    }
}

/// Nothing is lost and nothing is duplicated: after any run of enqueues and
/// dequeues on a queue holding `q`, the values that the dequeues returned,
/// followed by what is still queued, are exactly `q` followed by the values
/// enqueued, in that order. So each value comes out at most once, and once
/// the queue is drained each has come out exactly once.
pub proof fn lemma_no_loss_no_duplication<T>(q: Seq<T>, steps: Seq<Step<T>>)
    ensures
        returned(run(q, steps).1) + run(q, steps).0 == q + enqueued(steps),
    decreases steps.len(),
{
    if steps.len() == 0 {
        assert(q + enqueued(steps) =~= Seq::<T>::empty() + q);
    } else {
        let pre = steps.drop_last();
        lemma_no_loss_no_duplication(q, pre);
        let (q1, out1) = run(q, pre);
        match steps.last() {
            Step::Enqueue(x) => {
                assert(returned(out1) + q1.push(x) =~= (returned(out1) + q1).push(x));
                assert((q + enqueued(pre)).push(x) =~= q + enqueued(pre).push(x));
            },
            Step::Dequeue => {
                if q1.len() == 0 {
                    assert(out1.push(None).drop_last() =~= out1);
                } else {
                    assert(out1.push(Some(q1[0])).drop_last() =~= out1);
                    assert(returned(out1).push(q1[0]) + q1.drop_first() =~= returned(out1) + q1);
                }
            },
            Step::Miss => {
                assert(out1.push(None).drop_last() =~= out1);
            },
        }
    }
}

/// First in, first out: on a queue that starts empty, the values that the
/// dequeues return, in order, are the first values enqueued, in the order
/// they were enqueued; once the queue is drained they are all of them.
pub proof fn lemma_fifo_order<T>(steps: Seq<Step<T>>)
    ensures
        ({
            let (rest, out) = run(Seq::<T>::empty(), steps);
            let r = returned(out);
            &&& r.len() <= enqueued(steps).len()
            &&& r == enqueued(steps).subrange(0, r.len() as int)
            &&& rest.len() == 0 ==> r == enqueued(steps)
        }),
{
    lemma_no_loss_no_duplication(Seq::<T>::empty(), steps);
    let (rest, out) = run(Seq::<T>::empty(), steps);
    let r = returned(out);
    let e = enqueued(steps);
    assert(Seq::<T>::empty() + e =~= e);
    assert(r =~= (r + rest).subrange(0, r.len() as int));
    if rest.len() == 0 {
        assert(r + rest =~= r);
    }
}

} // verus!
