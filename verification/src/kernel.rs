//! The kernel state: the task table (a slot table keyed by pid), the
//! stride scheduler's ready queue, the running task, the program-image
//! table the loader serves lookups from, and the monotonic clock.
use vstd::prelude::*;
use vstd::arithmetic::div_mod::lemma_div_is_ordered;
use vstd::arithmetic::div_mod::lemma_fundamental_div_mod;
use crate::mem::AddressSpace;
use crate::task::Task;
use crate::task::TaskStatus;
use crate::task::TrapContext;
use crate::BIG_STRIDE;
use crate::DEFAULT_PRIORITY;
use crate::MAX_SYSCALL_NUM;
use crate::PAGE_SIZE;
use crate::PERM_RWXU;
use crate::USER_BASE_VPN;

verus! {

/// A loadable program image: its lookup name and the number of pages its
/// fresh address space spans.
pub struct Image {
    pub name: Vec<u8>,
    pub pages: usize,
}

/// An image whose fresh address space and initial break stay representable.
pub open spec fn image_ok(img: Image) -> bool {
    (USER_BASE_VPN + img.pages) * PAGE_SIZE <= isize::MAX
}

/// The whole per-core kernel state.
pub struct Kernel {
    /// Slot table keyed by pid; a reaped task leaves an empty slot and its
    /// pid is never reused.
    pub tasks: Vec<Option<Task>>,
    /// Pids eligible for dispatch, in enqueue order.
    pub ready: Vec<usize>,
    /// The one running task, if any.
    pub current: Option<usize>,
    /// What the loader can serve, looked up by name.
    pub images: Vec<Image>,
    /// Monotonic clock, microseconds.
    pub now_us: usize,
}

impl Kernel {
    /// Whether pid `p` denotes a task not yet reaped.
    pub open spec fn live(self, p: int) -> bool {
        0 <= p < self.tasks@.len() && self.tasks@[p] is Some
    }

    /// The task in slot `p` (meaningful when live).
    pub open spec fn task(self, p: int) -> Task {
        self.tasks@[p].unwrap()
    }

    /// The clock in milliseconds.
    pub open spec fn now_ms(self) -> int {
        self.now_us as int / 1000
    }

    pub open spec fn wf_tasks(self) -> bool {
        &&& self.tasks@.len() <= isize::MAX
        &&& forall|p: int| #[trigger] self.live(p) ==> self.task(p).pid == p
        &&& forall|p: int| #[trigger] self.live(p) ==> self.task(p).wf()
        &&& forall|p: int| #[trigger] self.live(p) ==> self.task(p).start_time_ms <= self.now_ms()
    }

    pub open spec fn wf_sched(self) -> bool {
        &&& match self.current {
            Some(c) => self.live(c as int) && self.task(c as int).status == TaskStatus::Running,
            None => true,
        }
        &&& forall|p: int|
            #[trigger] self.live(p) && self.task(p).status == TaskStatus::Running
                ==> self.current == Some(p as usize)
        &&& forall|j: int|
            0 <= j < self.ready@.len()
                ==> self.live(#[trigger] self.ready@[j] as int)
                    && self.task(self.ready@[j] as int).status == TaskStatus::Ready
        &&& forall|j1: int, j2: int|
            #![trigger self.ready@[j1], self.ready@[j2]]
            0 <= j1 < self.ready@.len() && 0 <= j2 < self.ready@.len() && j1 != j2
                ==> self.ready@[j1] != self.ready@[j2]
    }

    pub open spec fn wf_tree(self) -> bool {
        &&& forall|p: int, j: int|
            #[trigger] self.live(p) && 0 <= j < self.task(p).children@.len()
                ==> self.live(#[trigger] self.task(p).children@[j] as int)
                    && self.task(self.task(p).children@[j] as int).parent == Some(p as usize)
        &&& forall|p: int, j1: int, j2: int|
            #![trigger self.task(p).children@[j1], self.task(p).children@[j2]]
            self.live(p) && 0 <= j1 < self.task(p).children@.len()
                && 0 <= j2 < self.task(p).children@.len() && j1 != j2
                ==> self.task(p).children@[j1] != self.task(p).children@[j2]
    }

    pub open spec fn wf_images(self) -> bool {
        forall|i: int| 0 <= i < self.images@.len() ==> image_ok(#[trigger] self.images@[i])
    }

    /// The kernel's cross-cutting invariant: slots carry their own pid and a
    /// well-formed task; at most one task runs and it is `current`; the
    /// ready queue holds distinct, live, ready tasks; children are live and
    /// point back to their parent; images are representable.
    pub open spec fn wf(self) -> bool {
        &&& self.wf_tasks()
        &&& self.wf_sched()
        &&& self.wf_tree()
        &&& self.wf_images()
    }

    /// Bootstrap: one root task, pid 0, running, with an empty address
    /// space and default scheduling weight.
    pub fn boot() -> (k: Kernel)
        ensures
            k.wf(),
            k.tasks@.len() == 1,
            k.current == Some(0usize),
            k.ready@.len() == 0,
            k.images@.len() == 0,
            k.now_us == 0,
            k.live(0),
            k.task(0).pid == 0,
            k.task(0).status == TaskStatus::Running,
            k.task(0).priority == DEFAULT_PRIORITY,
            k.task(0).stride == 0,
            k.task(0).parent is None,
            k.task(0).children@.len() == 0,
            k.task(0).aspace.regions@.len() == 0,
            forall|i: int| 0 <= i < MAX_SYSCALL_NUM ==> k.task(0).syscall_times@[i] == 0,
            k.task(0).syscall_times@.len() == MAX_SYSCALL_NUM,
    {
        let root = Task {
            pid: 0,
            status: TaskStatus::Running,
            trap: TrapContext { a0: 0 },
            aspace: AddressSpace { regions: Vec::new() },
            parent: None,
            children: Vec::new(),
            exit_code: 0,
            priority: DEFAULT_PRIORITY,
            stride: 0,
            syscall_times: zero_counters(),
            start_time_ms: 0,
            heap_base: 0,
            heap_top: 0,
        };
        let mut tasks: Vec<Option<Task>> = Vec::new();
        tasks.push(Some(root));
        let k = Kernel { tasks, ready: Vec::new(), current: Some(0), images: Vec::new(), now_us: 0 };
        proof {
            assert(k.live(0));
            assert(forall|p: int| #[trigger] k.live(p) ==> p == 0);
        }
        k
    }

    /// Make an image available to the loader. Rejected (and nothing is
    /// registered) when its address space would not be representable.
    pub fn register_image(&mut self, name: Vec<u8>, pages: usize) -> (ok: bool)
        requires
            old(self).wf(),
        ensures
            final(self).wf(),
            ok == ((USER_BASE_VPN + pages) * PAGE_SIZE <= isize::MAX),
            ok ==> final(self).images@.len() == old(self).images@.len() + 1
                && final(self).images@.last().name@ == name@
                && final(self).images@.last().pages == pages
                && final(self).images@.subrange(0, old(self).images@.len() as int)
                    == old(self).images@,
            !ok ==> final(self).images@ == old(self).images@,
            final(self).tasks@ == old(self).tasks@,
            final(self).ready@ == old(self).ready@,
            final(self).current == old(self).current,
            final(self).now_us == old(self).now_us,
    {
        let sum = match USER_BASE_VPN.checked_add(pages) {
            Some(s) => s,
            None => {
                proof {
                    lemma_mul_too_big(USER_BASE_VPN + pages as int);
                }
                return false;
            },
        };
        let bytes = match sum.checked_mul(PAGE_SIZE) {
            Some(b) => b,
            None => {
                proof {
                    lemma_mul_too_big(USER_BASE_VPN + pages as int);
                }
                return false;
            },
        };
        if bytes > isize::MAX as usize {
            return false;
        }
        self.images.push(Image { name, pages });
        proof {
            assert(final(self).images@.subrange(0, old(self).images@.len() as int)
                =~= old(self).images@);
            assert forall|i: int| 0 <= i < self.images@.len()
                implies image_ok(#[trigger] self.images@[i]) by {
                if i < old(self).images@.len() {
                    assert(image_ok(old(self).images@[i]));
                }
            }
            lemma_wf_carry(*old(self), *self);
        }
        true
    }

    /// Advance the clock; it saturates rather than wraps, so it never
    /// decreases.
    pub fn tick(&mut self, delta_us: usize)
        requires
            old(self).wf(),
        ensures
            final(self).wf(),
            final(self).now_us == if old(self).now_us + delta_us > usize::MAX {
                usize::MAX
            } else {
                (old(self).now_us + delta_us) as usize
            },
            old(self).now_us <= final(self).now_us,
            final(self).tasks@ == old(self).tasks@,
            final(self).ready@ == old(self).ready@,
            final(self).current == old(self).current,
            final(self).images@ == old(self).images@,
    {
        self.now_us = self.now_us.saturating_add(delta_us);
        proof {
            lemma_div_is_ordered(old(self).now_us as int, self.now_us as int, 1000);
            lemma_wf_carry(*old(self), *self);
        }
    }
}

/// One syscall's whole effect on the invocation tables: the caller `c`
/// counts one more invocation of `id` (sticking at the counter's ceiling),
/// and no other task's table moves.
pub open spec fn counter_step(pre: Kernel, post: Kernel, c: int, id: int) -> bool {
    &&& pre.live(c)
    &&& post.live(c)
    &&& post.task(c).syscall_times@ == crate::task::bumped(pre.task(c).syscall_times@, id)
    &&& forall|q: int|
        #[trigger] pre.live(q) && post.live(q) && q != c
            ==> post.task(q).syscall_times@ == pre.task(q).syscall_times@
}

/// The invariant survives a step that touches no task and no scheduler
/// state and does not turn the clock back.
pub proof fn lemma_wf_carry(pre: Kernel, post: Kernel)
    requires
        pre.wf_tasks(),
        pre.wf_sched(),
        pre.wf_tree(),
        post.tasks@ == pre.tasks@,
        post.ready@ == pre.ready@,
        post.current == pre.current,
        pre.now_ms() <= post.now_ms(),
    ensures
        post.wf_tasks(),
        post.wf_sched(),
        post.wf_tree(),
{
    assert forall|p: int| #[trigger] post.live(p)
        implies post.task(p).pid == p && post.task(p).wf()
            && post.task(p).start_time_ms <= post.now_ms()
            && (post.task(p).status == TaskStatus::Running ==> post.current == Some(p as usize)) by {
        assert(pre.live(p));
    }
    if post.current is Some {
        let c = post.current.unwrap() as int;
        assert(pre.live(c));
    }
    assert forall|j: int| 0 <= j < post.ready@.len()
        implies post.live(#[trigger] post.ready@[j] as int)
            && post.task(post.ready@[j] as int).status == TaskStatus::Ready by {
        assert(pre.live(pre.ready@[j] as int));
    }
    assert forall|p: int, j: int|
        #[trigger] post.live(p) && 0 <= j < post.task(p).children@.len()
            implies post.live(#[trigger] post.task(p).children@[j] as int)
                && post.task(post.task(p).children@[j] as int).parent == Some(p as usize) by {
        assert(pre.live(p));
        let c = pre.task(p).children@[j] as int;
        assert(pre.live(c) && pre.task(c).parent == Some(p as usize));
    }
    assert forall|p: int, j1: int, j2: int|
        #![trigger post.task(p).children@[j1], post.task(p).children@[j2]]
        post.live(p) && 0 <= j1 < post.task(p).children@.len()
            && 0 <= j2 < post.task(p).children@.len() && j1 != j2
            implies post.task(p).children@[j1] != post.task(p).children@[j2] by {
        assert(pre.live(p));
        assert(pre.task(p).children@[j1] != pre.task(p).children@[j2]);
    }
}

/// The invariant survives a step that rewrites one live task without
/// touching its identity, status or tree links, and keeps all else.
pub proof fn lemma_wf_task_replace(pre: Kernel, post: Kernel, p: int)
    requires
        pre.wf(),
        pre.live(p),
        post.tasks@.len() == pre.tasks@.len(),
        forall|q: int| 0 <= q < pre.tasks@.len() && q != p ==> post.tasks@[q] == pre.tasks@[q],
        post.tasks@[p] is Some,
        post.task(p).pid == pre.task(p).pid,
        post.task(p).status == pre.task(p).status,
        post.task(p).parent == pre.task(p).parent,
        post.task(p).children@ == pre.task(p).children@,
        post.task(p).wf(),
        post.task(p).start_time_ms <= post.now_ms(),
        pre.now_ms() <= post.now_ms(),
        post.ready@ == pre.ready@,
        post.current == pre.current,
        post.images@ == pre.images@,
    ensures
        post.wf(),
{
    assert forall|q: int| #[trigger] post.live(q)
        implies pre.live(q) && post.task(q).pid == q && post.task(q).wf()
            && post.task(q).start_time_ms <= post.now_ms()
            && post.task(q).status == pre.task(q).status
            && post.task(q).parent == pre.task(q).parent
            && post.task(q).children@ == pre.task(q).children@ by {
        assert(pre.live(q));
        if q != p {
            assert(post.task(q) == pre.task(q));
        }
    }
    assert forall|q: int| #[trigger] pre.live(q) implies post.live(q) by {}
    assert(post.wf_tasks());
    if post.current is Some {
        let c = post.current.unwrap() as int;
        assert(pre.live(c));
    }
    assert forall|q: int|
        #[trigger] post.live(q) && post.task(q).status == TaskStatus::Running
            implies post.current == Some(q as usize) by {
        assert(pre.live(q) && pre.task(q).status == TaskStatus::Running);
    }
    assert forall|j: int| 0 <= j < post.ready@.len()
        implies post.live(#[trigger] post.ready@[j] as int)
            && post.task(post.ready@[j] as int).status == TaskStatus::Ready by {
        assert(pre.live(pre.ready@[j] as int));
    }
    assert(post.wf_sched());
    assert forall|q: int, j: int|
        #[trigger] post.live(q) && 0 <= j < post.task(q).children@.len()
            implies post.live(#[trigger] post.task(q).children@[j] as int)
                && post.task(post.task(q).children@[j] as int).parent == Some(q as usize) by {
        assert(pre.live(q));
        assert(post.task(q).children@ == pre.task(q).children@);
        let c = pre.task(q).children@[j] as int;
        assert(pre.live(c) && pre.task(c).parent == Some(q as usize));
    }
    assert forall|q: int, j1: int, j2: int|
        #![trigger post.task(q).children@[j1], post.task(q).children@[j2]]
        post.live(q) && 0 <= j1 < post.task(q).children@.len()
            && 0 <= j2 < post.task(q).children@.len() && j1 != j2
            implies post.task(q).children@[j1] != post.task(q).children@[j2] by {
        assert(pre.live(q));
        assert(pre.task(q).children@[j1] != pre.task(q).children@[j2]);
    }
    assert(post.wf_tree());
}

/// The invariant survives suspending the running task: its status leaves
/// `Running`, `current` empties, and — when it stays `Ready` — it joins
/// the back of the queue.
pub proof fn lemma_wf_park(pre: Kernel, post: Kernel, c: int)
    requires
        pre.wf(),
        pre.current == Some(c as usize),
        0 <= c <= usize::MAX,
        post.tasks@.len() == pre.tasks@.len(),
        forall|q: int| 0 <= q < pre.tasks@.len() && q != c ==> post.tasks@[q] == pre.tasks@[q],
        post.tasks@[c] is Some,
        post.task(c).pid == pre.task(c).pid,
        post.task(c).status != TaskStatus::Running,
        post.task(c).parent == pre.task(c).parent,
        post.task(c).children@ == pre.task(c).children@,
        post.task(c).wf(),
        post.task(c).start_time_ms <= post.now_ms(),
        pre.now_ms() <= post.now_ms(),
        post.ready@ == if post.task(c).status == TaskStatus::Ready {
            pre.ready@.push(c as usize)
        } else {
            pre.ready@
        },
        post.current is None,
        post.images@ == pre.images@,
    ensures
        post.wf(),
{
    assert(pre.live(c));
    assert(pre.task(c).status == TaskStatus::Running);
    assert forall|q: int| #[trigger] post.live(q)
        implies pre.live(q) && post.task(q).pid == q && post.task(q).wf()
            && post.task(q).start_time_ms <= post.now_ms()
            && post.task(q).parent == pre.task(q).parent
            && post.task(q).children@ == pre.task(q).children@ by {
        assert(pre.live(q));
        if q != c {
            assert(post.task(q) == pre.task(q));
        }
    }
    assert forall|q: int| #[trigger] pre.live(q) implies post.live(q) by {}
    assert(post.wf_tasks());
    assert forall|q: int|
        #[trigger] post.live(q) && post.task(q).status == TaskStatus::Running
            implies post.current == Some(q as usize) by {
        if q != c {
            assert(pre.live(q) && pre.task(q).status == TaskStatus::Running);
            assert(pre.current == Some(q as usize));
            assert(q == c);
        }
    }
    assert forall|j: int| 0 <= j < pre.ready@.len()
        implies pre.ready@[j] != c as usize by {
        assert(pre.live(pre.ready@[j] as int));
        assert(pre.task(pre.ready@[j] as int).status == TaskStatus::Ready);
    }
    assert forall|j: int| 0 <= j < post.ready@.len()
        implies post.live(#[trigger] post.ready@[j] as int)
            && post.task(post.ready@[j] as int).status == TaskStatus::Ready by {
        if j < pre.ready@.len() {
            assert(pre.live(pre.ready@[j] as int));
            assert(pre.ready@[j] != c as usize);
        } else {
            assert(post.ready@[j] == c as usize);
        }
    }
    assert forall|j1: int, j2: int|
        #![trigger post.ready@[j1], post.ready@[j2]]
        0 <= j1 < post.ready@.len() && 0 <= j2 < post.ready@.len() && j1 != j2
            implies post.ready@[j1] != post.ready@[j2] by {
        if j1 < pre.ready@.len() && j2 < pre.ready@.len() {
            assert(pre.ready@[j1] != pre.ready@[j2]);
        }
    }
    assert(post.wf_sched());
    assert forall|q: int, j: int|
        #[trigger] post.live(q) && 0 <= j < post.task(q).children@.len()
            implies post.live(#[trigger] post.task(q).children@[j] as int)
                && post.task(post.task(q).children@[j] as int).parent == Some(q as usize) by {
        assert(pre.live(q));
        assert(post.task(q).children@ == pre.task(q).children@);
        let ch = pre.task(q).children@[j] as int;
        assert(pre.live(ch) && pre.task(ch).parent == Some(q as usize));
    }
    assert forall|q: int, j1: int, j2: int|
        #![trigger post.task(q).children@[j1], post.task(q).children@[j2]]
        post.live(q) && 0 <= j1 < post.task(q).children@.len()
            && 0 <= j2 < post.task(q).children@.len() && j1 != j2
            implies post.task(q).children@[j1] != post.task(q).children@[j2] by {
        assert(pre.live(q));
        assert(pre.task(q).children@[j1] != pre.task(q).children@[j2]);
    }
    assert(post.wf_tree());
}

/// The invariant survives creating a child for the running task `c` under
/// the next pid `n`: the child starts `Ready` at the back of the queue,
/// pointing back at `c`, whose children list gains exactly `n`.
pub proof fn lemma_wf_new_child(pre: Kernel, post: Kernel, c: int, n: int)
    requires
        pre.wf(),
        pre.current == Some(c as usize),
        0 <= c <= usize::MAX,
        n == pre.tasks@.len(),
        n < isize::MAX,
        n <= usize::MAX,
        post.tasks@.len() == n + 1,
        forall|q: int| 0 <= q < n && q != c ==> post.tasks@[q] == pre.tasks@[q],
        post.tasks@[c] is Some,
        post.task(c).pid == pre.task(c).pid,
        post.task(c).status == pre.task(c).status,
        post.task(c).parent == pre.task(c).parent,
        post.task(c).children@ == pre.task(c).children@.push(n as usize),
        post.task(c).wf(),
        post.task(c).start_time_ms <= post.now_ms(),
        post.tasks@[n] is Some,
        post.task(n).pid == n,
        post.task(n).status == TaskStatus::Ready,
        post.task(n).parent == Some(c as usize),
        post.task(n).children@.len() == 0,
        post.task(n).wf(),
        post.task(n).start_time_ms <= post.now_ms(),
        pre.now_ms() <= post.now_ms(),
        post.ready@ == pre.ready@.push(n as usize),
        post.current == pre.current,
        post.images@ == pre.images@,
    ensures
        post.wf(),
{
    assert(pre.live(c));
    assert forall|q: int| #[trigger] post.live(q)
        implies post.task(q).pid == q && post.task(q).wf()
            && post.task(q).start_time_ms <= post.now_ms() by {
        if q < n {
            assert(pre.live(q));
            if q != c {
                assert(post.task(q) == pre.task(q));
            }
        } else {
            assert(q == n);
        }
    }
    assert(post.wf_tasks());
    assert forall|q: int|
        #[trigger] post.live(q) && post.task(q).status == TaskStatus::Running
            implies post.current == Some(q as usize) by {
        if q < n {
            assert(pre.live(q));
            if q != c {
                assert(pre.task(q).status == TaskStatus::Running);
            }
        }
    }
    assert forall|j: int| 0 <= j < post.ready@.len()
        implies post.live(#[trigger] post.ready@[j] as int)
            && post.task(post.ready@[j] as int).status == TaskStatus::Ready by {
        if j < pre.ready@.len() {
            assert(pre.live(pre.ready@[j] as int));
            assert(pre.ready@[j] as int != c);
        } else {
            assert(post.ready@[j] == n as usize);
        }
    }
    assert forall|j1: int, j2: int|
        #![trigger post.ready@[j1], post.ready@[j2]]
        0 <= j1 < post.ready@.len() && 0 <= j2 < post.ready@.len() && j1 != j2
            implies post.ready@[j1] != post.ready@[j2] by {
        if j1 < pre.ready@.len() && j2 < pre.ready@.len() {
            assert(pre.ready@[j1] != pre.ready@[j2]);
        } else if j1 < pre.ready@.len() {
            assert(pre.live(pre.ready@[j1] as int));
        } else if j2 < pre.ready@.len() {
            assert(pre.live(pre.ready@[j2] as int));
        }
    }
    assert(post.wf_sched());
    assert forall|q: int, j: int|
        #[trigger] post.live(q) && 0 <= j < post.task(q).children@.len()
            implies post.live(#[trigger] post.task(q).children@[j] as int)
                && post.task(post.task(q).children@[j] as int).parent == Some(q as usize) by {
        if q == n {
            assert(post.task(q).children@.len() == 0);
        } else {
            assert(pre.live(q));
            if q == c {
                if j < pre.task(c).children@.len() {
                    let ch = pre.task(c).children@[j] as int;
                    assert(pre.live(ch) && pre.task(ch).parent == Some(c as usize));
                    assert(ch != n);
                    assert(ch != c ==> post.task(ch) == pre.task(ch));
                    assert(ch == c ==> post.task(ch).parent == pre.task(ch).parent);
                } else {
                    assert(post.task(c).children@[j] == n as usize);
                }
            } else {
                let ch = pre.task(q).children@[j] as int;
                assert(pre.live(ch) && pre.task(ch).parent == Some(q as usize));
                assert(ch != n);
                assert(ch != c ==> post.task(ch) == pre.task(ch));
            }
        }
    }
    assert forall|q: int, j1: int, j2: int|
        #![trigger post.task(q).children@[j1], post.task(q).children@[j2]]
        post.live(q) && 0 <= j1 < post.task(q).children@.len()
            && 0 <= j2 < post.task(q).children@.len() && j1 != j2
            implies post.task(q).children@[j1] != post.task(q).children@[j2] by {
        if q != n {
            assert(pre.live(q));
            if q == c {
                if j1 < pre.task(c).children@.len() && j2 < pre.task(c).children@.len() {
                    assert(pre.task(c).children@[j1] != pre.task(c).children@[j2]);
                } else if j1 < pre.task(c).children@.len() {
                    assert(pre.live(pre.task(c).children@[j1] as int));
                } else if j2 < pre.task(c).children@.len() {
                    assert(pre.live(pre.task(c).children@[j2] as int));
                }
            } else {
                assert(pre.task(q).children@[j1] != pre.task(q).children@[j2]);
            }
        }
    }
    assert(post.wf_tree());
}

/// The invariant survives reaping: the caller `c` loses the `j`-th entry
/// of its children list — a zombie `ch` that, by the ownership discipline,
/// no other live structure references — and `ch`'s slot empties for good.
pub proof fn lemma_wf_reap(pre: Kernel, post: Kernel, c: int, ch: int, j: int)
    requires
        pre.wf(),
        pre.current == Some(c as usize),
        0 <= c <= usize::MAX,
        pre.live(ch),
        ch != c,
        pre.task(ch).status == TaskStatus::Zombie,
        0 <= j < pre.task(c).children@.len(),
        pre.task(c).children@[j] == ch as usize,
        post.tasks@.len() == pre.tasks@.len(),
        forall|q: int| 0 <= q < pre.tasks@.len() && q != c && q != ch ==> post.tasks@[q] == pre.tasks@[q],
        post.tasks@[ch] is None,
        post.tasks@[c] is Some,
        post.task(c).pid == pre.task(c).pid,
        post.task(c).status == pre.task(c).status,
        post.task(c).parent == pre.task(c).parent,
        post.task(c).children@ == pre.task(c).children@.remove(j),
        post.task(c).wf(),
        post.task(c).start_time_ms <= post.now_ms(),
        pre.now_ms() <= post.now_ms(),
        post.ready@ == pre.ready@,
        post.current == pre.current,
        post.images@ == pre.images@,
    ensures
        post.wf(),
{
    assert(pre.live(c));
    assert forall|q: int| #[trigger] post.live(q)
        implies pre.live(q) && q != ch && post.task(q).pid == q && post.task(q).wf()
            && post.task(q).start_time_ms <= post.now_ms()
            && post.task(q).status == pre.task(q).status
            && post.task(q).parent == pre.task(q).parent by {
        if q != c {
            assert(post.tasks@[q] == pre.tasks@[q]);
        }
    }
    assert(post.wf_tasks());
    assert forall|q: int|
        #[trigger] post.live(q) && post.task(q).status == TaskStatus::Running
            implies post.current == Some(q as usize) by {
        assert(pre.live(q) && pre.task(q).status == TaskStatus::Running);
    }
    assert forall|jj: int| 0 <= jj < post.ready@.len()
        implies post.live(#[trigger] post.ready@[jj] as int)
            && post.task(post.ready@[jj] as int).status == TaskStatus::Ready by {
        let e = pre.ready@[jj] as int;
        assert(pre.live(e));
        assert(pre.task(e).status == TaskStatus::Ready);
        assert(e != ch);
        if e != c {
            assert(post.tasks@[e] == pre.tasks@[e]);
        }
    }
    assert(post.wf_sched());
    assert forall|q: int, jj: int|
        #[trigger] post.live(q) && 0 <= jj < post.task(q).children@.len()
            implies post.live(#[trigger] post.task(q).children@[jj] as int)
                && post.task(post.task(q).children@[jj] as int).parent == Some(q as usize) by {
        assert(pre.live(q));
        let e: int = if q == c {
            let j0: int = if jj < j { jj } else { jj + 1 };
            assert(post.task(c).children@[jj] == pre.task(c).children@[j0]);
            pre.task(c).children@[j0] as int
        } else {
            assert(post.task(q).children@ == pre.task(q).children@);
            pre.task(q).children@[jj] as int
        };
        assert(pre.live(e) && pre.task(e).parent == Some(q as usize));
        if e == ch {
            assert(pre.task(ch).parent == Some(c as usize));
            assert(q == c);
            let j0: int = if jj < j { jj } else { jj + 1 };
            assert(pre.task(c).children@[j0] == ch as usize);
            assert(j0 != j);
            assert(pre.task(c).children@[j] == pre.task(c).children@[j0]);
        }
        assert(e != ch);
        if e != c {
            assert(post.tasks@[e] == pre.tasks@[e]);
        }
    }
    assert forall|q: int, j1: int, j2: int|
        #![trigger post.task(q).children@[j1], post.task(q).children@[j2]]
        post.live(q) && 0 <= j1 < post.task(q).children@.len()
            && 0 <= j2 < post.task(q).children@.len() && j1 != j2
            implies post.task(q).children@[j1] != post.task(q).children@[j2] by {
        assert(pre.live(q));
        if q == c {
            let a1: int = if j1 < j { j1 } else { j1 + 1 };
            let a2: int = if j2 < j { j2 } else { j2 + 1 };
            assert(post.task(c).children@[j1] == pre.task(c).children@[a1]);
            assert(post.task(c).children@[j2] == pre.task(c).children@[a2]);
            assert(pre.task(c).children@[a1] != pre.task(c).children@[a2]);
        } else {
            assert(pre.task(q).children@[j1] != pre.task(q).children@[j2]);
        }
    }
    assert(post.wf_tree());
}

/// The address space a fresh image of `pages` pages is loaded into: one
/// zero-filled region with full user permissions, or nothing for an empty
/// image.
pub open spec fn is_image_aspace(a: AddressSpace, pages: int) -> bool {
    if pages == 0 {
        a.regions@.len() == 0
    } else {
        &&& a.regions@.len() == 1
        &&& a.regions@[0].start_vpn == USER_BASE_VPN
        &&& a.regions@[0].pages == pages
        &&& a.regions@[0].perm == PERM_RWXU
        &&& a.regions@[0].data@.len() == pages * PAGE_SIZE
        &&& forall|i: int| 0 <= i < a.regions@[0].data@.len() ==> a.regions@[0].data@[i] == 0
    }
}

/// Build the address space a fresh image is loaded into.
pub fn build_image_aspace(pages: usize) -> (a: AddressSpace)
    requires
        (USER_BASE_VPN + pages) * PAGE_SIZE <= isize::MAX,
    ensures
        a.wf(),
        is_image_aspace(a, pages as int),
{
    if pages == 0 {
        AddressSpace { regions: Vec::new() }
    } else {
        proof {
            lemma_image_fits(pages as int);
        }
        let data = crate::mem::zero_vec(pages * PAGE_SIZE);
        let rg = crate::mem::Region { start_vpn: USER_BASE_VPN, pages, perm: PERM_RWXU, data };
        let mut regions: Vec<crate::mem::Region> = Vec::new();
        regions.push(rg);
        AddressSpace { regions }
    }
}

/// A representable image's page count keeps its region well-formed and its
/// byte count within `usize`.
proof fn lemma_image_fits(pages: int)
    requires
        0 < pages,
        (USER_BASE_VPN + pages) * PAGE_SIZE <= isize::MAX,
    ensures
        USER_BASE_VPN + pages <= usize::MAX as int / (PAGE_SIZE as int),
        pages * PAGE_SIZE <= usize::MAX,
{
    let p = PAGE_SIZE as int;
    let s = USER_BASE_VPN + pages;
    let m = usize::MAX as int;
    lemma_fundamental_div_mod(m, p);
    assert(0 <= m % p < p) by (nonlinear_arith)
        requires p > 0, m >= 0;
    if s > m / p {
        assert(s >= m / p + 1);
        assert(s * p >= (m / p + 1) * p) by (nonlinear_arith)
            requires s >= m / p + 1, p > 0;
        assert((m / p + 1) * p == p * (m / p) + p) by (nonlinear_arith);
        assert(s * p > m);
        assert(isize::MAX < usize::MAX);
    }
    assert(pages * p <= s * p) by (nonlinear_arith)
        requires pages <= s, p > 0;
}

/// A division bound used when a checked size computation overflows.
proof fn lemma_mul_too_big(s: int)
    requires
        s * PAGE_SIZE > usize::MAX,
    ensures
        s * PAGE_SIZE > isize::MAX,
{
}

/// A fresh, all-zero syscall counter table.
pub fn zero_counters() -> (v: Vec<u32>)
    ensures
        v@.len() == MAX_SYSCALL_NUM,
        forall|i: int| 0 <= i < MAX_SYSCALL_NUM ==> v@[i] == 0,
{
    let mut v: Vec<u32> = Vec::new();
    while v.len() < MAX_SYSCALL_NUM
        invariant
            v@.len() <= MAX_SYSCALL_NUM,
            forall|i: int| 0 <= i < v@.len() ==> v@[i] == 0,
        decreases MAX_SYSCALL_NUM - v@.len(),
    {
        v.push(0);
    }
    v
}

/// The stride of the task in slot `p`.
pub open spec fn stride_at(tasks: Seq<Option<Task>>, p: int) -> u64 {
    tasks[p].unwrap().stride
}

/// The strides of the queued tasks, in queue order.
pub open spec fn queue_strides(tasks: Seq<Option<Task>>, rq: Seq<usize>) -> Seq<u64> {
    Seq::new(rq.len(), |j: int| stride_at(tasks, rq[j] as int))
}

/// Whether `idx` is the scheduler's choice from strides `ss`: a smallest
/// stride, and the earliest-queued among equals.
pub open spec fn pick_ok(ss: Seq<u64>, idx: int) -> bool {
    &&& 0 <= idx < ss.len()
    &&& forall|j: int| 0 <= j < ss.len() ==> ss[idx] <= #[trigger] ss[j]
    &&& forall|j: int| 0 <= j < idx ==> #[trigger] ss[j] > ss[idx]
}

/// The scheduler's choice from strides `ss` (unique when one exists).
pub open spec fn sched_pick(ss: Seq<u64>) -> int {
    choose|i: int| pick_ok(ss, i)
}

/// There is exactly one position satisfying the scheduler's choice.
pub proof fn lemma_pick_unique(ss: Seq<u64>, i1: int, i2: int)
    requires
        pick_ok(ss, i1),
        pick_ok(ss, i2),
    ensures
        i1 == i2,
{
    if i1 < i2 {
        assert(ss[i1] > ss[i2]);
        assert(ss[i2] <= ss[i1]);
    }
    if i2 < i1 {
        assert(ss[i2] > ss[i1]);
        assert(ss[i1] <= ss[i2]);
    }
}

/// A task's stride after one dispatch: it accrues a pass inversely
/// proportional to its weight, saturating at the ceiling.
pub open spec fn next_stride(t: Task) -> u64 {
    if t.stride + BIG_STRIDE / (t.priority as u64) > u64::MAX {
        u64::MAX
    } else {
        (t.stride + BIG_STRIDE / (t.priority as u64)) as u64
    }
}

/// How a completed dispatch relates the kernel before and after: nothing
/// happens on an empty queue; otherwise the scheduler's choice leaves the
/// queue, starts running with its stride advanced, and all else is kept.
pub open spec fn dispatched(pre: Kernel, post: Kernel) -> bool {
    if pre.ready@.len() == 0 {
        post == pre
    } else {
        let i = sched_pick(queue_strides(pre.tasks@, pre.ready@));
        let p = pre.ready@[i] as int;
        &&& pick_ok(queue_strides(pre.tasks@, pre.ready@), i)
        &&& post.current == Some(pre.ready@[i])
        &&& post.ready@ == pre.ready@.remove(i)
        &&& post.tasks@.len() == pre.tasks@.len()
        &&& forall|q: int| 0 <= q < pre.tasks@.len() && q != p ==> post.tasks@[q] == pre.tasks@[q]
        &&& post.live(p)
        &&& post.task(p) == (Task {
            status: TaskStatus::Running,
            stride: next_stride(pre.task(p)),
            ..pre.task(p)
        })
        &&& post.images@ == pre.images@
        &&& post.now_us == pre.now_us
    }
}

impl Kernel {
    /// The queue position the scheduler picks: smallest stride, earliest
    /// among equals.
    fn pick_index(&self) -> (idx: usize)
        requires
            self.wf(),
            self.ready@.len() > 0,
        ensures
            idx < self.ready@.len(),
            pick_ok(queue_strides(self.tasks@, self.ready@), idx as int),
            idx == sched_pick(queue_strides(self.tasks@, self.ready@)),
    {
        let ghost ss = queue_strides(self.tasks@, self.ready@);
        let n = self.ready.len();
        let mut best: usize = 0;
        let mut best_stride: u64 = self.stride_of(self.ready[0]);
        let mut j: usize = 1;
        while j < n
            invariant
                self.wf(),
                n == self.ready@.len(),
                0 < n,
                1 <= j <= n,
                best < j,
                ss == queue_strides(self.tasks@, self.ready@),
                best_stride == ss[best as int],
                forall|m: int| 0 <= m < j ==> best_stride <= #[trigger] ss[m],
                forall|m: int| 0 <= m < best ==> #[trigger] ss[m] > best_stride,
            decreases n - j,
        {
            let s = self.stride_of(self.ready[j]);
            assert(s == ss[j as int]);
            if s < best_stride {
                best = j;
                best_stride = s;
            }
            j = j + 1;
        }
        proof {
            assert(pick_ok(ss, best as int));
            lemma_pick_unique(ss, best as int, sched_pick(ss));
        }
        best
    }

    /// The status of task `p`, while it has not been reaped.
    pub fn task_status_of(&self, p: usize) -> (r: Option<TaskStatus>)
        requires
            self.wf(),
        ensures
            r == if self.live(p as int) {
                Some(self.task(p as int).status)
            } else {
                None::<TaskStatus>
            },
    {
        if p < self.tasks.len() {
            match &self.tasks[p] {
                Some(t) => Some(t.status),
                None => None,
            }
        } else {
            None
        }
    }

    /// The saved return-value register of task `p`: what that task sees as
    /// its syscall result when it next runs.
    pub fn task_a0(&self, p: usize) -> (r: Option<usize>)
        requires
            self.wf(),
        ensures
            r == if self.live(p as int) {
                Some(self.task(p as int).trap.a0)
            } else {
                None::<usize>
            },
    {
        if p < self.tasks.len() {
            match &self.tasks[p] {
                Some(t) => Some(t.trap.a0),
                None => None,
            }
        } else {
            None
        }
    }

    /// The scheduling weight of task `p`.
    pub fn task_priority_of(&self, p: usize) -> (r: Option<usize>)
        requires
            self.wf(),
        ensures
            r == if self.live(p as int) {
                Some(self.task(p as int).priority)
            } else {
                None::<usize>
            },
    {
        if p < self.tasks.len() {
            match &self.tasks[p] {
                Some(t) => Some(t.priority),
                None => None,
            }
        } else {
            None
        }
    }

    /// Task `p`'s invocation count for syscall `id`.
    pub fn task_syscall_count(&self, p: usize, id: usize) -> (r: Option<u32>)
        requires
            self.wf(),
        ensures
            r == if self.live(p as int) && id < MAX_SYSCALL_NUM {
                Some(self.task(p as int).syscall_times@[id as int])
            } else {
                None::<u32>
            },
    {
        if p < self.tasks.len() && id < MAX_SYSCALL_NUM {
            match &self.tasks[p] {
                Some(t) => {
                    proof {
                        assert(self.live(p as int));
                    }
                    Some(t.syscall_times[id])
                },
                None => None,
            }
        } else {
            None
        }
    }

    /// The byte task `p`'s address space holds at `addr`, if `p` has not
    /// been reaped and the address translates.
    pub fn read_task_byte(&self, p: usize, addr: usize) -> (r: Option<u8>)
        requires
            self.wf(),
        ensures
            r == if self.live(p as int) && self.task(p as int).aspace.addr_mapped(addr as int) {
                Some(self.task(p as int).aspace.byte_at(addr as int))
            } else {
                None::<u8>
            },
    {
        if p < self.tasks.len() {
            match &self.tasks[p] {
                Some(t) => {
                    proof {
                        assert(self.live(p as int));
                    }
                    t.aspace.read_byte(addr)
                },
                None => None,
            }
        } else {
            None
        }
    }

    /// The stride of the live task `p`.
    fn stride_of(&self, p: usize) -> (s: u64)
        requires
            self.wf(),
            self.live(p as int),
        ensures
            s == stride_at(self.tasks@, p as int),
    {
        match &self.tasks[p] {
            Some(t) => t.stride,
            None => {
                proof {
                    assert(false);
                }
                0
            },
        }
    }

    /// Dispatch the scheduler's choice from the ready queue, if any task is
    /// eligible; with none the core idles.
    pub fn dispatch(&mut self)
        requires
            old(self).wf(),
            old(self).current is None,
        ensures
            final(self).wf(),
            dispatched(*old(self), *final(self)),
    {
        if self.ready.len() == 0 {
            return;
        }
        let idx = self.pick_index();
        let p = self.ready.remove(idx);
        assert(self.live(p as int));
        let mut slot = self.tasks.remove(p);
        let mut t = match slot {
            Some(t) => t,
            None => {
                proof {
                    assert(false);
                }
                return;
            },
        };
        t.status = TaskStatus::Running;
        t.stride = t.stride.saturating_add(BIG_STRIDE / (t.priority as u64));
        self.tasks.insert(p, Some(t));
        self.current = Some(p);
        proof {
            let pre = *old(self);
            assert(self.tasks@ =~= pre.tasks@.update(p as int, Some(t)));
            assert(self.task(p as int) == (Task {
                status: TaskStatus::Running,
                stride: next_stride(pre.task(p as int)),
                ..pre.task(p as int)
            }));
            assert forall|q: int| #[trigger] self.live(q) implies pre.live(q) by {}
            assert forall|q: int| #[trigger] pre.live(q) implies self.live(q) by {}
            assert(self.wf_tasks());
            assert forall|q: int|
                #[trigger] self.live(q) && self.task(q).status == TaskStatus::Running
                    implies self.current == Some(q as usize) by {
                if q != p {
                    assert(pre.live(q) && pre.task(q).status == TaskStatus::Running);
                }
            }
            assert forall|j: int| 0 <= j < self.ready@.len()
                implies self.live(#[trigger] self.ready@[j] as int)
                    && self.task(self.ready@[j] as int).status == TaskStatus::Ready by {
                let q = self.ready@[j];
                assert(pre.ready@.remove(idx as int)[j] == q);
                let j0: int = if j < idx { j } else { j + 1 };
                assert(pre.ready@[j0] == q);
                assert(q != p);
            }
            assert forall|j1: int, j2: int|
                0 <= j1 < self.ready@.len() && 0 <= j2 < self.ready@.len() && j1 != j2
                    implies self.ready@[j1] != self.ready@[j2] by {
                let a1: int = if j1 < idx { j1 } else { j1 + 1 };
                let a2: int = if j2 < idx { j2 } else { j2 + 1 };
                assert(pre.ready@[a1] == self.ready@[j1]);
                assert(pre.ready@[a2] == self.ready@[j2]);
            }
            assert(self.wf_sched());
            assert forall|q: int, j: int|
                #[trigger] self.live(q) && 0 <= j < self.task(q).children@.len()
                    implies self.live(#[trigger] self.task(q).children@[j] as int)
                        && self.task(self.task(q).children@[j] as int).parent == Some(
                        q as usize,
                    ) by {
                assert(pre.live(q));
                assert(self.task(q).children@ == pre.task(q).children@);
                let c = self.task(q).children@[j] as int;
                assert(pre.live(c) && pre.task(c).parent == Some(q as usize));
            }
            assert(self.wf_tree());
            assert(dispatched(pre, *self));
        }
    }
}

} // verus!
