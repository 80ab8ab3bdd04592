//! What a process keeps about its children and its open files.

use vstd::prelude::*;

verus! {

/// Scheduling status of a task.
#[derive(Clone, Copy, PartialEq, Eq, Structural)]
pub enum TaskStatus {
    Ready,
    Running,
    Zombie,
    Suspend,
}

/// A child of a process as its parent sees it when it waits: identifier,
/// status, exit code, and the handle that keeps the child alive.
pub struct ChildState<T> {
    pub pid: usize,
    pub status: TaskStatus,
    pub exit_code: i32,
    pub handle: T,
}

/// The answer to a wait: the return value of the system call and the child
/// that was reaped, if any (its exit code is what the caller receives).
pub struct WaitOutcome<T> {
    pub ret: isize,
    pub reaped: Option<ChildState<T>>,
}

/// `i` is the first index of `s` whose identifier is `pid`.
pub open spec fn first_with_pid<T>(s: Seq<ChildState<T>>, pid: usize, i: int) -> bool {
    &&& 0 <= i < s.len()
    &&& s[i].pid == pid
    &&& forall|j: int| 0 <= j < i ==> #[trigger] s[j].pid != pid
}

/// `i` is the first index of `s` that holds a zombie.
pub open spec fn first_zombie<T>(s: Seq<ChildState<T>>, i: int) -> bool {
    &&& 0 <= i < s.len()
    &&& s[i].status == TaskStatus::Zombie
    &&& forall|j: int| 0 <= j < i ==> #[trigger] s[j].status != TaskStatus::Zombie
}

/// What waiting for the child `pid` does to the children `old`, leaving
/// `new`, with outcome `r`.
pub open spec fn waitpid_post<T>(old: Seq<ChildState<T>>, new: Seq<ChildState<T>>, pid: isize, r: WaitOutcome<T>) -> bool {
    &&& (forall|j: int| 0 <= j < old.len() ==> #[trigger] old[j].pid != pid as usize) ==> r.ret == -1
        && new == old && r.reaped.is_none()
    &&& (exists|j: int| 0 <= j < old.len() && #[trigger] old[j].pid == pid as usize) ==> exists|i: int|
        #[trigger] first_with_pid(old, pid as usize, i) && {
            let c = old[i];
            if c.status == TaskStatus::Zombie {
                &&& r.ret == c.pid as isize
                &&& r.reaped == Some(c)
                &&& new == old.remove(i)
            } else {
                &&& r.ret == -2
                &&& r.reaped.is_none()
                &&& new == old.remove(i).push(c)
            }
        }
}

/// Waits for the child `pid`: -1 if there is no such child; if the child is a
/// zombie it is removed and reaped and its identifier returned; otherwise it
/// is moved to the end of the list and -2 returned.
pub fn waitpid<T>(children: &mut Vec<ChildState<T>>, pid: isize) -> (r: WaitOutcome<T>)
    ensures
        waitpid_post(old(children)@, final(children)@, pid, r),
{
    let target = pid as usize;
    let mut idx: usize = 0;
    while idx < children.len()
        invariant
            idx <= children@.len(),
            children@ == old(children)@,
            target == pid as usize,
            forall|j: int| 0 <= j < idx ==> #[trigger] children@[j].pid != target,
        decreases children@.len() - idx,
    {
        if children[idx].pid == target {
            let child = children.remove(idx);
            assert(first_with_pid(old(children)@, target, idx as int));
            if child.status == TaskStatus::Zombie {
                let ret = child.pid as isize;
                return WaitOutcome { ret, reaped: Some(child) };
            } else {
                children.push(child);
                return WaitOutcome { ret: -2, reaped: None };
            }
        }
        idx = idx + 1;
    }
    WaitOutcome { ret: -1, reaped: None }
}

/// What waiting for any child does to the children `old`, leaving `new`,
/// with outcome `r`.
pub open spec fn wait_post<T>(old: Seq<ChildState<T>>, new: Seq<ChildState<T>>, r: WaitOutcome<T>) -> bool {
    &&& old.len() == 0 ==> r.ret == -1 && r.reaped.is_none() && new == old
    &&& old.len() > 0 && (forall|j: int| 0 <= j < old.len() ==> #[trigger] old[j].status != TaskStatus::Zombie)
        ==> r.ret == -2 && r.reaped.is_none() && new == old
    &&& (exists|j: int| 0 <= j < old.len() && #[trigger] old[j].status == TaskStatus::Zombie) ==> exists|i: int|
        #[trigger] first_zombie(old, i) && {
            let c = old[i];
            &&& r.ret == c.pid as isize
            &&& r.reaped == Some(c)
            &&& new == old.remove(i)
        }
}

/// Waits for any child: -1 if there are none, -2 if none is a zombie,
/// otherwise the first zombie is removed and reaped and its identifier
/// returned.
pub fn wait<T>(children: &mut Vec<ChildState<T>>) -> (r: WaitOutcome<T>)
    ensures
        wait_post(old(children)@, final(children)@, r),
{
    if children.len() == 0 {
        return WaitOutcome { ret: -1, reaped: None };
    }
    let mut idx: usize = 0;
    while idx < children.len()
        invariant
            idx <= children@.len(),
            children@ == old(children)@,
            forall|j: int| 0 <= j < idx ==> #[trigger] children@[j].status != TaskStatus::Zombie,
        decreases children@.len() - idx,
    {
        if children[idx].status == TaskStatus::Zombie {
            let child = children.remove(idx);
            assert(first_zombie(old(children)@, idx as int));
            let ret = child.pid as isize;
            return WaitOutcome { ret, reaped: Some(child) };
        }
        idx = idx + 1;
    }
    WaitOutcome { ret: -2, reaped: None }
}

/// The lowest free descriptor of `fd_table`; when every slot is taken, a new
/// empty slot is appended and its index returned.
pub fn alloc_fd<T>(fd_table: &mut Vec<Option<T>>) -> (r: usize)
    ensures
        r <= old(fd_table)@.len(),
        forall|j: int| 0 <= j < r ==> #[trigger] old(fd_table)@[j].is_some(),
        r < old(fd_table)@.len() ==> old(fd_table)@[r as int].is_none() && final(fd_table)@ == old(fd_table)@,
        r == old(fd_table)@.len() ==> final(fd_table)@ == old(fd_table)@.push(None),
{
    let fd_end = fd_table.len();
    let mut fd: usize = 0;
    while fd < fd_end
        invariant
            fd <= fd_end,
            fd_end == fd_table@.len(),
            fd_table@ == old(fd_table)@,
            forall|j: int| 0 <= j < fd ==> #[trigger] fd_table@[j].is_some(),
        decreases fd_end - fd,
    {
        if fd_table[fd].is_none() {
            return fd;
        }
        fd = fd + 1;
    }
    fd_table.push(None);
    fd_end
}

} // verus!
