//! The decision of `waitpid` over a process's children.
use vstd::prelude::*;

verus! {

/// What `waitpid` reads of a child process.
#[derive(Copy, Clone, Debug, PartialEq, Eq, Structural)]
pub struct ChildStatus {
    pub pid: usize,
    pub is_zombie: bool,
    pub exit_code: i32,
}

/// Whether child `c` is one that `waitpid(pid)` waits for: any child for
/// -1, else the child with that id.
pub open spec fn waited_for(c: ChildStatus, pid: isize) -> bool {
    pid == -1 || pid as usize == c.pid
}

/// Reaps a child that `pid` names: -1 when no child is named, -2 when none
/// of the named children has exited yet; otherwise removes the first named
/// child that has exited and returns its id with its exit code.
pub fn sys_waitpid(children: &mut Vec<ChildStatus>, pid: isize) -> (r: (isize, Option<i32>))
    ensures
        !(exists|i: int| 0 <= i < old(children)@.len() && waited_for(#[trigger] old(children)@[i], pid)) ==> r == (
        -1isize, None::<i32>) && final(children)@ == old(children)@,
        (exists|i: int| 0 <= i < old(children)@.len() && waited_for(#[trigger] old(children)@[i], pid)) && !(exists|i: int|
            0 <= i < old(children)@.len() && waited_for(#[trigger] old(children)@[i], pid) && old(children)@[i].is_zombie)
            ==> r == (-2isize, None::<i32>) && final(children)@ == old(children)@,
        forall|k: int| 0 <= k < old(children)@.len() && waited_for(old(children)@[k], pid) && old(children)@[k].is_zombie
            && (forall|j: int| 0 <= j < k ==> !(waited_for(old(children)@[j], pid) && #[trigger] old(children)@[j].is_zombie))
            ==> r == (old(children)@[k].pid as isize, Some(old(children)@[k].exit_code)) && final(children)@
            == old(children)@.remove(k),
{
    let mut any = false;
    let mut i: usize = 0;
    while i < children.len()
        invariant
            i <= children@.len(),
            any == exists|j: int| 0 <= j < i && waited_for(#[trigger] children@[j], pid),
        decreases children@.len() - i,
    {
        if pid == -1 || pid as usize == children[i].pid {
            any = true;
            proof {
                assert(waited_for(children@[i as int], pid));
            }
        }
        proof {
            if !any {
                assert forall|j: int| 0 <= j < i + 1 implies !waited_for(#[trigger] children@[j], pid) by {
                    if j < i {
                        assert(!(0 <= j < i && waited_for(children@[j], pid)));
                    }
                }
            }
        }
        i = i + 1;
    }
    if !any {
        return (-1, None);
    }
    let mut k: usize = 0;
    while k < children.len()
        invariant
            k <= children@.len(),
            children@ == old(children)@,
            forall|j: int| 0 <= j < k ==> !(waited_for(children@[j], pid) && #[trigger] children@[j].is_zombie),
        decreases children@.len() - k,
    {
        let c = children[k];
        if c.is_zombie && (pid == -1 || pid as usize == c.pid) {
            let child = children.remove(k);
            return (child.pid as isize, Some(child.exit_code));
        }
        k = k + 1;
    }
    (-2, None)
}

} // verus!
