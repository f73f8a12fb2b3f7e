use vstd::prelude::*;

verus! {

/// A history bounded by `capacity`: only the most recent entries are kept,
/// and none at all when the capacity is zero.
pub open spec fn trimmed<T>(history: Seq<T>, capacity: usize) -> Seq<T> {
    if capacity == 0 {
        Seq::empty()
    } else if history.len() > capacity {
        history.skip(history.len() - capacity)
    } else {
        history
    }
}

/// Drops the oldest entries until at most `capacity` remain.
pub fn trim_history<T>(history: &mut Vec<T>, capacity: usize)
    ensures
        final(history)@ == trimmed(old(history)@, capacity),
{
    if capacity == 0 {
        history.clear();
        return;
    }
    if history.len() > capacity {
        let excess = history.len() - capacity;
        let kept = history.split_off(excess);
        *history = kept;
        proof {
            assert(history@ =~= old(history)@.skip(excess as int));
        }
    }
}

/// Appends an entry, then trims the history to `capacity`.
pub fn push_history<T>(history: &mut Vec<T>, entry: T, capacity: usize)
    ensures
        final(history)@ == trimmed(old(history)@.push(entry), capacity),
{
    history.push(entry);
    trim_history(history, capacity);
}

/// A trimmed history never exceeds its capacity, is empty at capacity
/// zero, and keeps the most recent entries in their order.
pub proof fn lemma_trimmed_keeps_recent<T>(history: Seq<T>, capacity: usize)
    ensures
        trimmed(history, capacity).len() <= capacity,
        capacity == 0 ==> trimmed(history, capacity).len() == 0,
        trimmed(history, capacity).len() == (if capacity == 0 {
            0
        } else if history.len() > capacity {
            capacity as int
        } else {
            history.len() as int
        }),
        forall|k: int|
            0 <= k < trimmed(history, capacity).len() ==> #[trigger] trimmed(history, capacity)[k]
                == history[history.len() - trimmed(history, capacity).len() + k],
{
}

} // verus!
