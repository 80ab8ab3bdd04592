//! File system calls over a descriptor table.

use vstd::prelude::*;

use crate::process::unit::alloc_fd;

verus! {

/// Closes descriptor `fd`: its slot is emptied and 0 returned; -1 when the
/// table has no such slot.
pub fn sys_close<T>(fd_table: &mut Vec<Option<T>>, fd: usize) -> (r: isize)
    ensures
        fd < old(fd_table)@.len() ==> r == 0 && final(fd_table)@ == old(fd_table)@.update(fd as int, None),
        fd >= old(fd_table)@.len() ==> r == -1 && final(fd_table)@ == old(fd_table)@,
{
    if fd < fd_table.len() {
        fd_table.set(fd, None);
        0
    } else {
        -1
    }
}

/// The lowest free descriptor of `s`, or its length when every slot is
/// taken.
pub open spec fn free_slot<T>(s: Seq<Option<T>>) -> int {
    if exists|i: int| 0 <= i < s.len() && (#[trigger] s[i]).is_none() {
        choose|i: int|
            0 <= i < s.len() && (#[trigger] s[i]).is_none() && forall|j: int| 0 <= j < i ==> (#[trigger] s[j]).is_some()
    } else {
        s.len() as int
    }
}

/// Table `s` with `v` opened in its lowest free descriptor.
pub open spec fn installed<T>(s: Seq<Option<T>>, v: T) -> Seq<Option<T>> {
    let f = free_slot(s);
    if f < s.len() {
        s.update(f, Some(v))
    } else {
        s.push(Some(v))
    }
}

/// The lowest free descriptor is the one `fd` when every slot below it is
/// taken and `fd` is free or past the end.
proof fn lemma_free_slot<T>(s: Seq<Option<T>>, fd: int)
    requires
        0 <= fd <= s.len(),
        forall|j: int| 0 <= j < fd ==> (#[trigger] s[j]).is_some(),
        fd < s.len() ==> s[fd].is_none(),
    ensures
        free_slot(s) == fd,
{
    if fd < s.len() {
        let c = choose|i: int|
            0 <= i < s.len() && (#[trigger] s[i]).is_none() && forall|j: int| 0 <= j < i ==> (#[trigger] s[j]).is_some();
        assert(exists|i: int|
            0 <= i < s.len() && (#[trigger] s[i]).is_none() && forall|j: int| 0 <= j < i ==> (#[trigger] s[j]).is_some()) by {
            assert(s[fd].is_none());
        }
        if c < fd {
            assert(s[c].is_some());
        } else if c > fd {
            assert(s[fd].is_some());
        }
    } else {
        assert forall|i: int| 0 <= i < s.len() implies !(#[trigger] s[i]).is_none() by {}
    }
}

/// Opens `v` in the lowest free descriptor of `fd_table` and returns it.
fn install<T>(fd_table: &mut Vec<Option<T>>, v: T) -> (r: usize)
    ensures
        r == free_slot(old(fd_table)@),
        r <= old(fd_table)@.len(),
        final(fd_table)@ == installed(old(fd_table)@, v),
{
    let ghost s = fd_table@;
    let fd = alloc_fd(fd_table);
    proof {
        lemma_free_slot(s, fd as int);
    }
    fd_table.set(fd, Some(v));
    proof {
        if fd < s.len() {
            assert(fd_table@ =~= s.update(fd as int, Some(v)));
        } else {
            assert(fd_table@ =~= s.push(Some(v)));
        }
    }
    fd
}

/// Opens the two ends of a pipe, the read end first, each in the lowest
/// free descriptor, and gives their descriptors.
pub fn sys_pipe<T>(fd_table: &mut Vec<Option<T>>, read_end: T, write_end: T) -> (r: (usize, usize))
    ensures
        r.0 == free_slot(old(fd_table)@),
        r.1 == free_slot(installed(old(fd_table)@, read_end)),
        final(fd_table)@ == installed(installed(old(fd_table)@, read_end), write_end),
{
    let read_fd = install(fd_table, read_end);
    let write_fd = install(fd_table, write_end);
    (read_fd, write_fd)
}

/// Opens `file`, the file found for the path if any, in the lowest free
/// descriptor and gives that descriptor; -1 when no file was found.
pub fn sys_open<T>(fd_table: &mut Vec<Option<T>>, file: Option<T>) -> (r: isize)
    requires
        old(fd_table)@.len() < isize::MAX,
    ensures
        file.is_none() ==> r == -1 && final(fd_table)@ == old(fd_table)@,
        file matches Some(f) ==> r == free_slot(old(fd_table)@) && final(fd_table)@ == installed(old(fd_table)@, f),
{
    match file {
        Some(f) => {
            let fd = install(fd_table, f);
            fd as isize
        },
        None => -1,
    }
}

} // verus!
