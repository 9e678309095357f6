//! The system calls that read from and write to the console.

use vstd::prelude::*;
use crate::config::MAX_CPU_NUM;
use crate::kernel::Kernel;
use crate::mm::page_table::{
    chunk_count, chunk_end, chunk_start, mem_byte, translated_byte_buffer,
};
use crate::task::processor::Processor;
use crate::task::task::TaskStatus;
use crate::task::{get_current_task, memory_changed, yield_, yielded};

verus! {

/// The file descriptor of the console's input.
pub const FD_STDIN: u64 = 0;

/// The file descriptor of the console's output.
pub const FD_STDOUT: u64 = 1;

/// How a call of `read` ended.
#[derive(Clone, Copy, Debug, PartialEq, Eq, Structural)]
pub enum ReadOutcome {
    /// The call returns this value.
    Done(i64),
    /// No byte was there: the caller has given up its hart and is to
    /// repeat the call when it runs again.
    Retry,
}

/// Whether a program of process `p` can reach every byte of the buffer of
/// `len` bytes at `buf`.
pub open spec fn buffer_readable(kernel: &Kernel, p: usize, buf: u64, len: usize) -> bool {
    buf + len <= u64::MAX && forall|i: int|
        0 <= i < len ==> (#[trigger] mem_byte(
            kernel.procs()[p].inner.memory_set.table(),
            buf + i,
        )).is_some()
}

/// Reads one byte from the console into the caller's buffer at `buf`:
/// `c` is what the console gave, 0 if it had no byte. Only descriptor 0 and
/// length 1 are served; anything else, or a buffer the caller cannot
/// reach, gives -1.
pub fn sys_read(kernel: &mut Kernel, hart: usize, fd: u64, buf: u64, len: usize, c: u64) -> (r:
    ReadOutcome)
    requires
        old(kernel).wf(),
        hart < MAX_CPU_NUM,
        old(kernel).processors@[hart as int].current.is_some(),
    ensures
        final(kernel).wf(),
        ({
            let cpu = old(kernel).processors@[hart as int];
            let p = cpu.current.unwrap();
            let before = old(kernel).procs()[p].inner;
            let after = final(kernel).procs()[p].inner;
            if fd != FD_STDIN || len != 1 {
                &&& r == ReadOutcome::Done(-1i64)
                &&& *final(kernel) == *old(kernel)
            } else if c == 0 {
                &&& r == ReadOutcome::Retry
                &&& yielded(old(kernel), final(kernel), hart as int)
            } else {
                &&& memory_changed(old(kernel), final(kernel), hart as int, p)
                &&& final(kernel).frame_allocator == old(kernel).frame_allocator
                &&& before.same_but_memory(&after)
                &&& after.program_brk == before.program_brk
                &&& after.memory_set@ == before.memory_set@
                &&& after.memory_set.areas() == before.memory_set.areas()
                &&& if mem_byte(before.memory_set.table(), buf as int).is_some() {
                    &&& r == ReadOutcome::Done(1)
                    &&& mem_byte(after.memory_set.table(), buf as int) == Some((c % 256) as u8)
                } else {
                    &&& r == ReadOutcome::Done(-1i64)
                    &&& after.memory_set.frames() == before.memory_set.frames()
                }
            }
        }),
{
    if fd != FD_STDIN || len != 1 {
        return ReadOutcome::Done(-1);
    }
    if c == 0 {
        yield_(kernel, hart);
        return ReadOutcome::Retry;
    }
    let ch = (c % 256) as u8;
    let p = get_current_task(kernel, hart);
    let ghost k1 = *kernel;
    let mut task = kernel.tasks.remove(&p).unwrap();
    let ghost before = task.inner.memory_set;
    let written = task.inner.memory_set.write_user_byte(buf, ch);
    proof {
        if written {
            crate::syscall::fs::lemma_written(before.table(), task.inner.memory_set.table(), buf, ch);
        }
    }
    kernel.tasks.insert(p, task);
    proof {
        assert(kernel.procs().dom() =~= k1.procs().dom());
        assert(foreign_same(&k1, kernel, p));
        Kernel::lemma_task_updated(&k1, kernel, p);
    }
    if written {
        ReadOutcome::Done(1)
    } else {
        ReadOutcome::Done(-1)
    }
}

/// Whether process `p` owns the same frames in both states and the
/// allocator is the same.
pub open spec fn foreign_same(k0: &Kernel, k1: &Kernel, p: usize) -> bool {
    &&& k1.frame_allocator == k0.frame_allocator
    &&& k1.procs()[p].inner.memory_set.owned() == k0.procs()[p].inner.memory_set.owned()
}

/// After a byte is stored at an address it can be read back there.
pub proof fn lemma_written(
    pt0: &crate::mm::page_table::PageTable,
    pt1: &crate::mm::page_table::PageTable,
    va: u64,
    b: u8,
)
    requires
        pt0.inv(),
        pt1@ == pt0@,
        mem_byte(pt0, va as int).is_some(),
        ({
            let a = va % 0x80_0000_0000;
            let p = pt0@[a / 4096].spec_ppn().0;
            pt1.frames() == pt0.frames().insert(p, pt0.frames()[p].update((a % 4096) as int, b))
        }),
    ensures
        mem_byte(pt1, va as int) == Some(b),
{
    pt0.lemma_inv_facts();
}

/// The bytes of the buffer of `len` bytes at `buf` in the memory of process `p`.
pub open spec fn buffer_bytes(kernel: &Kernel, p: usize, buf: u64, len: usize) -> Seq<u8> {
    Seq::new(
        len as nat,
        |i: int| mem_byte(kernel.procs()[p].inner.memory_set.table(), buf + i).unwrap(),
    )
}

proof fn lemma_chunks(va: int, len: int, k: int)
    requires
        0 <= va,
        0 < len,
        0 <= k < chunk_count(va, len),
    ensures
        chunk_start(va, k) < chunk_end(va, len, k),
        va <= chunk_start(va, k),
        chunk_end(va, len, k) <= va + len,
        k + 1 < chunk_count(va, len) ==> chunk_end(va, len, k) == chunk_start(va, k + 1),
        k + 1 == chunk_count(va, len) ==> chunk_end(va, len, k) == va + len,
{
}

/// Writes the buffer of `len` bytes at `buf` of the caller's memory to the
/// console. Returns the number of bytes, with the bytes for the caller of
/// this function to print; or -1, with no bytes, when the descriptor is
/// not 1 or the caller cannot reach the whole buffer.
pub fn sys_write(kernel: &mut Kernel, hart: usize, fd: u64, buf: u64, len: usize) -> (r: (
    i64,
    Vec<u8>,
))
    requires
        old(kernel).wf(),
        hart < MAX_CPU_NUM,
        old(kernel).processors@[hart as int].current.is_some(),
    ensures
        final(kernel).wf(),
        ({
            let cpu = old(kernel).processors@[hart as int];
            let p = cpu.current.unwrap();
            if fd == FD_STDOUT {
                &&& old(kernel).same_but_harts(final(kernel))
                &&& final(kernel).processors@ == old(kernel).processors@.update(
                    hart as int,
                    Processor { intena: cpu.interrupts, ..cpu },
                )
                &&& if buffer_readable(old(kernel), p, buf, len) && len <= i64::MAX {
                    r.0 == len && r.1@ == buffer_bytes(old(kernel), p, buf, len)
                } else {
                    r.0 == -1 && r.1@.len() == 0
                }
            } else {
                r.0 == -1 && r.1@.len() == 0 && *final(kernel) == *old(kernel)
            }
        }),
{
    let mut out: Vec<u8> = Vec::new();
    if fd != FD_STDOUT {
        return (-1, out);
    }
    let p = get_current_task(kernel, hart);
    if len as u64 > 0x7fff_ffff_ffff_ffff {
        return (-1, out);
    }
    let task = kernel.tasks.get(&p).unwrap();
    let table = task.inner.memory_set.page_table();
    let buffers = match translated_byte_buffer(table, buf, len) {
        Some(buffers) => buffers,
        None => {
            return (-1, out);
        },
    };
    let ghost va = buf as int;
    let ghost total = len as int;
    let mut k: usize = 0;
    while k < buffers.len()
        invariant
            k <= buffers@.len(),
            0 <= va,
            va == buf,
            total == len,
            buffers@.len() == chunk_count(va, total),
            forall|x: int|
                0 <= x < buffers@.len() ==> (#[trigger] buffers@[x])@.len() == chunk_end(va, total, x)
                    - chunk_start(va, x),
            forall|x: int, j: int|
                0 <= x < buffers@.len() && 0 <= j < buffers@[x]@.len() ==> mem_byte(
                    table,
                    chunk_start(va, x) + j,
                ) == Some(#[trigger] buffers@[x]@[j]),
            k < buffers@.len() ==> out@.len() == chunk_start(va, k as int) - va,
            k == buffers@.len() ==> out@.len() == total,
            forall|i: int| 0 <= i < out@.len() ==> mem_byte(table, va + i) == Some(#[trigger] out@[i]),
        decreases buffers@.len() - k,
    {
        let part = &buffers[k];
        let ghost base = out@.len() as int;
        proof {
            lemma_chunks(va, total, k as int);
            assert(buffers@[k as int]@.len() == chunk_end(va, total, k as int) - chunk_start(
                va,
                k as int,
            ));
        }
        let mut j: usize = 0;
        while j < part.len()
            invariant
                j <= part@.len(),
                0 <= k < buffers@.len(),
                part@ == buffers@[k as int]@,
                base == chunk_start(va, k as int) - va,
                out@.len() == base + j,
                forall|x: int, y: int|
                    0 <= x < buffers@.len() && 0 <= y < buffers@[x]@.len() ==> mem_byte(
                        table,
                        chunk_start(va, x) + y,
                    ) == Some(#[trigger] buffers@[x]@[y]),
                forall|i: int|
                    0 <= i < out@.len() ==> mem_byte(table, va + i) == Some(#[trigger] out@[i]),
            decreases part@.len() - j,
        {
            let ghost prev = out@;
            out.push(part[j]);
            proof {
                assert forall|i: int| 0 <= i < out@.len() implies mem_byte(table, va + i) == Some(
                    #[trigger] out@[i],
                ) by {
                    if i < prev.len() {
                        assert(out@[i] == prev[i]);
                    } else {
                        assert(mem_byte(table, chunk_start(va, k as int) + j) == Some(
                            buffers@[k as int]@[j as int],
                        ));
                    }
                }
            }
            j += 1;
        }
        k += 1;
    }
    proof {
        assert(out@.len() == total) by {
            if buffers@.len() == 0 {
                assert(total == 0);
            }
        }
        assert(out@ =~= buffer_bytes(old(kernel), p, buf, len));
    }
    (len as i64, out)
}

} // verus!
