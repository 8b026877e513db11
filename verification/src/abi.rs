use vstd::prelude::*;
use crate::text::string_from;

verus! {

/// Version of the interface user programs are built against.
pub const KERNEL_ABI_VERSION: u64 = 3;

pub fn version() -> (r: u64)
    ensures
        r == KERNEL_ABI_VERSION,
{
    KERNEL_ABI_VERSION
}

/// The interface summary shown by the shell.
pub fn lines() -> (r: Vec<String>)
    ensures
        r@.len() == 3,
        r@[0]@ == "coolOS-userspace-abi version 3"@,
        r@[1]@ == "syscalls: exit/write/yield/getpid/mmap/open/read/close/exec"@,
        r@[2]@ == "syscalls: pipe/dup/shmem/waitpid/spawn/sleep_ms/abi/dns/http"@,
{
    let mut v: Vec<String> = Vec::new();
    v.push(string_from("coolOS-userspace-abi version 3"));
    v.push(string_from("syscalls: exit/write/yield/getpid/mmap/open/read/close/exec"));
    v.push(string_from("syscalls: pipe/dup/shmem/waitpid/spawn/sleep_ms/abi/dns/http"));
    v
}

} // verus!
