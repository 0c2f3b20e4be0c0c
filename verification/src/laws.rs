//! Properties that relate several operations, proved once and for all.
use vstd::prelude::*;
use vstd::arithmetic::div_mod::lemma_fundamental_div_mod;
use crate::MAX_SYSCALL_NUM;
use crate::kernel::counter_step;
use crate::kernel::Kernel;
use crate::mem::end_page;
use crate::mem::page_of;
use crate::mem::AddressSpace;
use crate::syscall::cur;
use crate::task::bumped;
use crate::syscall::fork_post;

verus! {

/// The clock as the time syscall reports it never runs backwards: the
/// (seconds, microseconds) pair written for an earlier clock reading,
/// recombined into one microsecond counter, is no later than the pair
/// written for a later reading — each recombines to exactly its reading.
pub proof fn lemma_time_val_monotonic(us1: int, us2: int)
    requires
        0 <= us1 <= us2,
    ensures
        (us1 / 1000000) * 1000000 + us1 % 1000000 == us1,
        (us2 / 1000000) * 1000000 + us2 % 1000000 == us2,
        (us1 / 1000000) * 1000000 + us1 % 1000000
            <= (us2 / 1000000) * 1000000 + us2 % 1000000,
{
    lemma_fundamental_div_mod(us1, 1000000);
    lemma_fundamental_div_mod(us2, 1000000);
    assert((us1 / 1000000) * 1000000 == 1000000 * (us1 / 1000000)) by (nonlinear_arith);
    assert((us2 / 1000000) * 1000000 == 1000000 * (us2 / 1000000)) by (nonlinear_arith);
}

/// The run time the introspection syscall reports never decreases between
/// two calls with no image replacement in between: the start timestamp is
/// unchanged, the clock is monotonic, so elapsed time only grows.
pub proof fn lemma_task_info_time_monotonic(start: int, now1: int, now2: int)
    requires
        0 <= start <= now1 <= now2,
    ensures
        now1 - start <= now2 - start,
{
}

/// How many of the recorded syscall steps `(caller, id)` were invocations
/// of syscall `id` by task `p`.
pub open spec fn count_calls(calls: Seq<(int, int)>, p: int, id: int) -> int
    decreases calls.len(),
{
    if calls.len() == 0 {
        0
    } else {
        count_calls(calls.drop_last(), p, id) + if calls.last() == (p, id) {
            1int
        } else {
            0int
        }
    }
}

/// Every step counts at least zero and at most one invocation.
proof fn lemma_count_calls_bounds(calls: Seq<(int, int)>, p: int, id: int)
    ensures
        0 <= count_calls(calls, p, id) <= calls.len(),
    decreases calls.len(),
{
    if calls.len() > 0 {
        lemma_count_calls_bounds(calls.drop_last(), p, id);
    }
}

/// Counters count invocations, task by task. Over any run of syscall
/// steps — `states` the kernel before and after each, `calls[i]` naming
/// who invoked what in step `i` — a task's counter for syscall `id` ends
/// exactly its starting value plus the number of its own invocations of
/// `id` in the run, as long as that sum stays below the counter's ceiling.
/// In particular it is unaffected by every other task's invocations.
pub proof fn lemma_counters_count_invocations(
    states: Seq<Kernel>,
    calls: Seq<(int, int)>,
    p: int,
    id: int,
)
    requires
        states.len() == calls.len() + 1,
        0 <= id < MAX_SYSCALL_NUM,
        forall|i: int|
            0 <= i < calls.len()
                ==> counter_step(states[i], states[i + 1], (#[trigger] calls[i]).0, calls[i].1),
        forall|i: int| 0 <= i < calls.len() ==> 0 <= (#[trigger] calls[i]).1 < MAX_SYSCALL_NUM,
        forall|i: int| 0 <= i < states.len() ==> (#[trigger] states[i]).live(p),
        forall|i: int|
            0 <= i < states.len()
                ==> (#[trigger] states[i]).task(p).syscall_times@.len() == MAX_SYSCALL_NUM,
        states[0].task(p).syscall_times@[id] + count_calls(calls, p, id) <= u32::MAX,
    ensures
        states.last().task(p).syscall_times@[id]
            == states[0].task(p).syscall_times@[id] + count_calls(calls, p, id),
    decreases calls.len(),
{
    if calls.len() == 0 {
        assert(states.last() == states[0]);
    } else {
        let n = calls.len() as int;
        let prefix_states = states.drop_last();
        let prefix_calls = calls.drop_last();
        assert forall|i: int| 0 <= i < prefix_calls.len() implies counter_step(
            prefix_states[i],
            prefix_states[i + 1],
            (#[trigger] prefix_calls[i]).0,
            prefix_calls[i].1,
        ) by {
            assert(prefix_states[i] == states[i]);
            assert(prefix_states[i + 1] == states[i + 1]);
            assert(prefix_calls[i] == calls[i]);
        }
        assert forall|i: int| 0 <= i < prefix_states.len()
            implies (#[trigger] prefix_states[i]).live(p)
                && prefix_states[i].task(p).syscall_times@.len() == MAX_SYSCALL_NUM by {
            assert(prefix_states[i] == states[i]);
        }
        lemma_count_calls_bounds(prefix_calls, p, id);
        lemma_counters_count_invocations(prefix_states, prefix_calls, p, id);
        let before = states[n - 1].task(p).syscall_times@;
        let after = states[n].task(p).syscall_times@;
        assert(prefix_states.last() == states[n - 1]);
        assert(before[id] == states[0].task(p).syscall_times@[id]
            + count_calls(prefix_calls, p, id));
        let caller = calls[n - 1].0;
        let called = calls[n - 1].1;
        assert(counter_step(states[n - 1], states[n], caller, called));
        if caller == p {
            assert(after == bumped(before, called));
            if called == id {
                assert(calls.last() == (p, id));
                assert(count_calls(calls, p, id) == count_calls(prefix_calls, p, id) + 1);
                assert(before[id] < u32::MAX);
                assert(after[id] == before[id] + 1);
            } else {
                assert(calls.last() != (p, id));
                assert(after[id] == before[id]);
            }
        } else {
            assert(states[n - 1].live(p) && states[n].live(p));
            assert(after == before);
            assert(calls.last() != (p, id));
        }
    }
}

/// Unmapping is not idempotent: once a nonempty page range has been
/// unmapped, a repeated request for the same range must fail, because its
/// first page no longer translates. (A zero-length request rounds to the
/// empty page range, which trivially stays unmappable.)
pub proof fn lemma_munmap_second_fails(a: AddressSpace, b: AddressSpace, start: int, len: int)
    requires
        a.can_munmap(start, len),
        page_of(start) < end_page(start, len),
        forall|vpn: int|
            #[trigger] b.is_mapped(vpn) == (a.is_mapped(vpn)
                && !(page_of(start) <= vpn < end_page(start, len))),
    ensures
        !b.can_munmap(start, len),
{
    assert(!b.is_mapped(page_of(start)));
}

/// After a fork the two sides can tell each other apart by return value
/// alone: the child's saved return-value register reads zero, while the
/// parent received the child's pid, which is positive.
pub proof fn lemma_fork_distinguishes(pre: Kernel, post: Kernel, r: isize)
    requires
        pre.wf(),
        pre.current is Some,
        fork_post(pre, post, r),
    ensures
        r >= 1,
        post.task(r as int).trap.a0 == 0,
{
    assert(pre.live(cur(pre)));
}

} // verus!
