//! Process-level bookkeeping of creating, forking and `exec`: the
//! descriptor tables, making a process known to the kernel, and where
//! `exec` places the program's arguments on the new user stack.
use vstd::prelude::*;
use std::collections::BTreeMap;
use crate::task::manager::{insert_into_pid2process, TaskManager};
use crate::task::id::{pid_alloc, RecycleAllocator, TaskUserResource};
use crate::mm::memory_set::{MemorySet, MapArea, MapType, area_ranges, frames_from, trampoline_vpn};
use crate::mm::frame_allocator::StackFrameAllocator;
use crate::mm::page_table::{frames_left, mem_fits_ptes};
use crate::mm::phys_mem::PhysMemory;
use crate::config::PAGE_SIZE;

verus! {

/// Bytes of a pointer on the user stack.
pub const PTR_SIZE: usize = 8;

/// The descriptor table of a forked child: slot for slot, a clone of each
/// open file of the parent, and empty where the parent's slot is empty.
pub fn clone_fd_table<F: Clone>(fd_table: &Vec<Option<F>>) -> (child: Vec<Option<F>>)
    ensures
        child@.len() == fd_table@.len(),
        forall|i: int| 0 <= i < fd_table@.len() ==> (#[trigger] child@[i] is None <==> fd_table@[i] is None),
        forall|i: int| 0 <= i < fd_table@.len() && fd_table@[i] is Some ==> cloned(fd_table@[i]->0, #[trigger] child@[i]->0),
{
    let mut child: Vec<Option<F>> = Vec::new();
    let mut i: usize = 0;
    while i < fd_table.len()
        invariant
            i <= fd_table@.len(),
            child@.len() == i,
            forall|j: int| 0 <= j < i ==> (#[trigger] child@[j] is None <==> fd_table@[j] is None),
            forall|j: int| 0 <= j < i && fd_table@[j] is Some ==> cloned(fd_table@[j]->0, #[trigger] child@[j]->0),
        decreases fd_table@.len() - i,
    {
        match &fd_table[i] {
            Some(file) => child.push(Some(file.clone())),
            None => child.push(None),
        }
        i = i + 1;
    }
    child
}

/// Where the strings of arguments with lengths `lens` start when the first
/// `i` of them are stored below address `base`, one under the other, each
/// followed by a NUL byte.
pub open spec fn arg_string_at(base: int, lens: Seq<usize>, i: nat) -> int
    decreases i,
{
    if i == 0 {
        base
    } else {
        arg_string_at(base, lens, (i - 1) as nat) - (lens[i - 1] + 1)
    }
}

/// Where `exec` puts the arguments on a user stack whose top is
/// `user_stack_top`.
pub struct ArgLayout {
    /// Address of the `argv` array: one pointer per argument, then a null one.
    pub argv_base: usize,
    /// Address of each argument's string.
    pub arg_ptrs: Vec<usize>,
    /// The stack pointer the program starts with, below the strings and
    /// aligned down to a pointer's size.
    pub user_sp: usize,
}

/// Lays out arguments of lengths `arg_lens` on a user stack whose top is
/// `user_stack_top`: the `argv` array of `arg_lens.len() + 1` pointers right
/// below the top, then the strings, the first highest, each followed by a
/// NUL byte, then the stack pointer aligned down to 8 bytes.
pub fn exec_arg_layout(user_stack_top: usize, arg_lens: &Vec<usize>) -> (layout: ArgLayout)
    requires
        arg_string_at(user_stack_top - (arg_lens@.len() + 1) * PTR_SIZE, arg_lens@, arg_lens@.len()) >= 0,
        (arg_lens@.len() + 1) * PTR_SIZE <= user_stack_top,
    ensures
        layout.argv_base == user_stack_top - (arg_lens@.len() + 1) * PTR_SIZE,
        layout.arg_ptrs@.len() == arg_lens@.len(),
        forall|i: int| 0 <= i < arg_lens@.len()
            ==> #[trigger] layout.arg_ptrs@[i] == arg_string_at(layout.argv_base as int, arg_lens@, (i + 1) as nat),
        ({
            let e = arg_string_at(layout.argv_base as int, arg_lens@, arg_lens@.len());
            layout.user_sp == e - e % (PTR_SIZE as int)
        }),
{
    let n = arg_lens.len();
    let argv_base = user_stack_top - (n + 1) * PTR_SIZE;
    let mut user_sp = argv_base;
    let mut arg_ptrs: Vec<usize> = Vec::new();
    let mut i: usize = 0;
    proof {
        lemma_arg_string_decreasing(argv_base as int, arg_lens@, n as nat);
    }
    while i < n
        invariant
            n == arg_lens@.len(),
            i <= n,
            arg_ptrs@.len() == i,
            user_sp == arg_string_at(argv_base as int, arg_lens@, i as nat),
            arg_string_at(argv_base as int, arg_lens@, n as nat) >= 0,
            forall|j: nat| j <= n ==> arg_string_at(argv_base as int, arg_lens@, j) >= arg_string_at(argv_base as int, arg_lens@, n as nat),
            forall|j: int| 0 <= j < i ==> #[trigger] arg_ptrs@[j] == arg_string_at(argv_base as int, arg_lens@, (j + 1) as nat),
        decreases n - i,
    {
        proof {
            assert(arg_string_at(argv_base as int, arg_lens@, (i + 1) as nat) >= arg_string_at(argv_base as int, arg_lens@, n as nat));
        }
        user_sp = user_sp - (arg_lens[i] + 1);
        arg_ptrs.push(user_sp);
        i = i + 1;
    }
    let aligned = user_sp - user_sp % PTR_SIZE;
    ArgLayout { argv_base, arg_ptrs, user_sp: aligned }
}

/// Each string lies below the ones before it.
proof fn lemma_arg_string_decreasing(base: int, lens: Seq<usize>, n: nat)
    requires
        n <= lens.len(),
    ensures
        forall|j: nat| j <= n ==> arg_string_at(base, lens, j) >= arg_string_at(base, lens, n),
    decreases n,
{
    if n > 0 {
        lemma_arg_string_decreasing(base, lens, (n - 1) as nat);
        assert forall|j: nat| j <= n implies arg_string_at(base, lens, j) >= arg_string_at(base, lens, n) by {
            if j < n {
                assert(arg_string_at(base, lens, j) >= arg_string_at(base, lens, (n - 1) as nat));
            }
        }
    }
}

/// The descriptor table of a new process: standard input in descriptor 0,
/// and standard output in descriptors 1 and 2 (the error output).
pub fn initial_fd_table<F: Clone>(stdin: F, stdout: F) -> (t: Vec<Option<F>>)
    ensures
        t@.len() == 3,
        t@[0] == Some(stdin),
        t@[1] matches Some(f) && cloned(stdout, f),
        t@[2] == Some(stdout),
{
    let err = stdout.clone();
    let mut t: Vec<Option<F>> = Vec::new();
    t.push(Some(stdin));
    t.push(Some(err));
    t.push(Some(stdout));
    t
}

/// Makes a new process known to the kernel: it is recorded under `pid` and
/// its main thread `main` joins the back of the ready queue.
pub fn register_process<P, T>(pid2pcb: &mut BTreeMap<usize, P>, ready: &mut TaskManager<T>, pid: usize, process: P, main: T)
    ensures
        final(pid2pcb)@ == old(pid2pcb)@.insert(pid, process),
        final(ready)@ == old(ready)@.push(main),
{
    insert_into_pid2process(pid2pcb, pid, process);
    ready.add(main);
}

/// Makes a forked child known: it joins the end of its parent's children,
/// is recorded under `pid`, and its main thread `main` joins the back of the
/// ready queue.
pub fn register_child<P: Clone, T>(
    parent_children: &mut Vec<P>,
    pid2pcb: &mut BTreeMap<usize, P>,
    ready: &mut TaskManager<T>,
    pid: usize,
    child: P,
    main: T,
)
    ensures
        final(parent_children)@.len() == old(parent_children)@.len() + 1,
        final(parent_children)@.take(old(parent_children)@.len() as int) == old(parent_children)@,
        cloned(child, final(parent_children)@.last()),
        final(pid2pcb)@ == old(pid2pcb)@.insert(pid, child),
        final(ready)@ == old(ready)@.push(main),
{
    parent_children.push(child.clone());
    proof {
        assert(parent_children@.take(old(parent_children)@.len() as int) =~= old(parent_children)@);
    }
    register_process(pid2pcb, ready, pid, child, main);
}

/// Whether area `a` lies over the same pages as `b`, backed and permitted
/// the same way.
pub open spec fn same_area_shape(a: MapArea, b: MapArea) -> bool {
    &&& a.start() == b.start()
    &&& a.end() == b.end()
    &&& a.kind() == b.kind()
    &&& a.perm() == b.perm()
}

/// A process made by `fork`, before its main thread is handed to the
/// scheduler: its id, its parent's id, its state, its address space, its
/// open files, its children, the allocator of its thread ids and the
/// resources of its main thread.
pub struct ForkedProcess<F> {
    pub pid: usize,
    pub parent: usize,
    pub is_zombie: bool,
    pub exit_code: i32,
    pub memory_set: MemorySet,
    pub fd_table: Vec<Option<F>>,
    pub children: Vec<usize>,
    pub tids: RecycleAllocator,
    pub main_res: TaskUserResource,
}

/// Forks the single-threaded process `parent_pid`, whose address space is
/// `parent_space`, whose open files are `parent_fd_table` and whose main
/// thread's user stacks lie above `user_stack_base`: the child gets a new
/// process id from `pids`, a copy of the address space (see
/// `MemorySet::from_existed_user`), a clone of each open file, no children,
/// and a main thread with thread id 0 over the same user stack base, whose
/// stack and trap context are the copied ones. The child's id joins the
/// end of the parent's children.
#[verifier::spinoff_prover]
pub fn fork<F: Clone>(
    parent_pid: usize,
    parent_space: &MemorySet,
    parent_fd_table: &Vec<Option<F>>,
    user_stack_base: usize,
    pids: &mut RecycleAllocator,
    parent_children: &mut Vec<usize>,
    strampoline: usize,
    alloc: &mut StackFrameAllocator,
    mem: &mut PhysMemory,
) -> (child: ForkedProcess<F>)
    requires
        old(pids)@.wf(),
        old(pids)@.can_alloc(),
        parent_space.wf(*old(mem), old(alloc)@),
        mem_fits_ptes(*old(mem)),
        strampoline % PAGE_SIZE == 0,
        3 + frames_from(area_ranges(parent_space.areas()), 0, 1) <= frames_left(old(alloc)@),
        forall|i: int, v: usize| 0 <= i < parent_space.areas().len() && #[trigger] parent_space.areas()[i].contains(v)
            ==> v < 134217728 && v != trampoline_vpn(),
        forall|i: int, j: int| 0 <= i < j < parent_space.areas().len()
            ==> #[trigger] parent_space.areas()[i].end() <= #[trigger] parent_space.areas()[j].start()
                || parent_space.areas()[j].end() <= parent_space.areas()[i].start(),
    ensures
        final(pids)@.wf(),
        (final(pids)@, child.pid) == old(pids)@.alloc_spec(),
        !old(pids)@.in_use(child.pid),
        child.parent == parent_pid,
        !child.is_zombie,
        child.exit_code == 0,
        child.children@ == Seq::<usize>::empty(),
        final(parent_children)@ == old(parent_children)@.push(child.pid),
        child.fd_table@.len() == parent_fd_table@.len(),
        forall|i: int| 0 <= i < parent_fd_table@.len() ==> (#[trigger] child.fd_table@[i] is None <==> parent_fd_table@[i] is None),
        forall|i: int| 0 <= i < parent_fd_table@.len() && parent_fd_table@[i] is Some
            ==> cloned(parent_fd_table@[i]->0, #[trigger] child.fd_table@[i]->0),
        child.memory_set.wf(*final(mem), final(alloc)@),
        child.memory_set.areas().len() == parent_space.areas().len(),
        forall|i: int| 0 <= i < parent_space.areas().len() ==> same_area_shape(#[trigger] child.memory_set.areas()[i], parent_space.areas()[i]),
        forall|i: int, v: usize| 0 <= i < parent_space.areas().len() && parent_space.areas()[i].kind() == MapType::Framed
            && parent_space.areas()[i].contains(v)
            ==> final(mem).page(#[trigger] child.memory_set.areas()[i].frames()[v]) == old(mem).page(parent_space.areas()[i].frames()[v]),
        child.tids@.wf(),
        child.tids@.current == 1,
        child.tids@.recycled == Seq::<usize>::empty(),
        child.main_res.tid == 0,
        child.main_res.user_stack_base == user_stack_base,
{
    proof {
        crate::task::id::lemma_id_alloc_fresh(old(pids)@);
    }
    let memory_set = MemorySet::from_existed_user(parent_space, strampoline, alloc, mem);
    proof {
        assert forall|i: int| 0 <= i < parent_space.areas().len() implies {
            &&& #[trigger] memory_set.areas()[i].start() == parent_space.areas()[i].start()
            &&& memory_set.areas()[i].end() == parent_space.areas()[i].end()
            &&& memory_set.areas()[i].kind() == parent_space.areas()[i].kind()
            &&& memory_set.areas()[i].perm() == parent_space.areas()[i].perm()
        } by {
            assert(memory_set.areas()[i].start() == parent_space.areas()[i].start());
        }
        assert forall|i: int, v: usize| 0 <= i < parent_space.areas().len() && parent_space.areas()[i].kind() == MapType::Framed
            && parent_space.areas()[i].contains(v)
            implies mem.page(#[trigger] memory_set.areas()[i].frames()[v]) == old(mem).page(parent_space.areas()[i].frames()[v]) by {
            assert(memory_set.areas()[i].start() == parent_space.areas()[i].start());
        }
    }
    let pid = pid_alloc(pids);
    let fd_table = clone_fd_table(parent_fd_table);
    let mut tids = RecycleAllocator::new();
    let main_res = TaskUserResource::new(&mut tids, user_stack_base);
    parent_children.push(pid.0);
    let child = ForkedProcess {
        pid: pid.0,
        parent: parent_pid,
        is_zombie: false,
        exit_code: 0,
        memory_set,
        fd_table,
        children: Vec::new(),
        tids,
        main_res,
    };
    proof {
        assert forall|i: int| 0 <= i < parent_space.areas().len() implies same_area_shape(
            #[trigger] child.memory_set.areas()[i], parent_space.areas()[i]) by {
            assert(memory_set.areas()[i].start() == parent_space.areas()[i].start());
        }
    }
    child
}

} // verus!
