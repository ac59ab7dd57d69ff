use vstd::prelude::*;

use crate::hot::HotState;
use crate::poll::StreamPoll;

verus! {

/// The items of `a` are some of the items of `b`, in the same order.
pub open spec fn is_subsequence<T>(a: Seq<T>, b: Seq<T>) -> bool
    decreases b.len(),
{
    if a.len() == 0 {
        true
    } else if b.len() == 0 {
        false
    } else {
        ||| a.last() == b.last() && is_subsequence(a.drop_last(), b.drop_last())
        ||| is_subsequence(a, b.drop_last())
    }
}

pub proof fn lemma_subsequence_push<T>(a: Seq<T>, b: Seq<T>, item: T)
    requires
        is_subsequence(a, b),
    ensures
        is_subsequence(a, b.push(item)),
        is_subsequence(a.push(item), b.push(item)),
{
    assert(b.push(item).drop_last() =~= b);
    assert(a.push(item).drop_last() =~= a);
}

pub proof fn lemma_subsequence_remove<T>(a: Seq<T>, b: Seq<T>, at: int)
    requires
        is_subsequence(a, b),
        0 <= at < a.len(),
    ensures
        is_subsequence(a.remove(at), b),
    decreases b.len(),
{
    let rest = b.drop_last();
    assert(rest.push(b.last()) =~= b);
    if a.last() == b.last() && is_subsequence(a.drop_last(), rest) {
        if at == a.len() - 1 {
            assert(a.remove(at) =~= a.drop_last());
            lemma_subsequence_push(a.drop_last(), rest, b.last());
        } else {
            lemma_subsequence_remove(a.drop_last(), rest, at);
            lemma_subsequence_push(a.drop_last().remove(at), rest, b.last());
            assert(a.remove(at) =~= a.drop_last().remove(at).push(b.last()));
        }
    } else {
        lemma_subsequence_remove(a, rest, at);
        lemma_subsequence_push(a.remove(at), rest, b.last());
    }
}

pub proof fn lemma_subsequence_transitive<T>(a: Seq<T>, b: Seq<T>, c: Seq<T>)
    requires
        is_subsequence(a, b),
        is_subsequence(b, c),
    ensures
        is_subsequence(a, c),
    decreases c.len(),
{
    if a.len() > 0 {
        let rest = c.drop_last();
        if b.last() == c.last() && is_subsequence(b.drop_last(), rest) {
            if a.last() == b.last() && is_subsequence(a.drop_last(), b.drop_last()) {
                lemma_subsequence_transitive(a.drop_last(), b.drop_last(), rest);
            } else {
                lemma_subsequence_transitive(a, b.drop_last(), rest);
            }
        } else {
            lemma_subsequence_transitive(a, b, rest);
        }
    }
}

/// What a consumer has taken and what is kept for it are still some of the completed
/// outputs after one more is sent, and they end with it.
pub(crate) proof fn lemma_sent<T, W>(taken: Seq<T>, output: HotState<T, W>, item: T, completed: Seq<T>)
    requires
        output.wf(),
        !output.done,
        is_subsequence(taken + output.queue, completed),
    ensures
        is_subsequence(taken + output.sent(item).queue, completed.push(item)),
        (taken + output.sent(item).queue).last() == item,
        output.sent(item).queue.len() > 0,
        output.queue.len() < output.capacity ==> taken + output.sent(item).queue == (taken
            + output.queue).push(item),
{
    let kept = output.sent(item).queue;
    let all = (taken + output.queue).push(item);
    lemma_subsequence_push(taken + output.queue, completed, item);
    if output.queue.len() < output.capacity {
        assert(kept =~= output.queue.push(item));
        assert(taken + kept =~= all);
    } else {
        assert(kept =~= output.queue.push(item).skip(1));
        lemma_subsequence_remove(all, completed.push(item), taken.len() as int);
        assert(taken + kept =~= all.remove(taken.len() as int));
    }
}

/// A consumer's poll moves an output from those that are kept to those that are
/// taken, and changes nothing else about them.
pub(crate) proof fn lemma_polled<T, W>(taken: Seq<T>, output: HotState<T, W>, waker: W)
    ensures
        (match output.poll() {
            StreamPoll::Item(item) => taken.push(item),
            _ => taken,
        }) + output.polled(waker).queue == taken + output.queue,
{
    match output.poll() {
        StreamPoll::Item(item) => {
            assert(taken.push(item) + output.queue.drop_first() =~= taken + output.queue);
        },
        _ => {},
    }
}

} // verus!
