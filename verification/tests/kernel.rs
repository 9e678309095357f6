use sv39_kernel::common::{intr_get, intr_off, intr_on, pop_off, push_off};
use sv39_kernel::config::{MAX_CPU_NUM, PID_LIMIT, TRAMPOLINE, TRAP_CONTEXT};
use sv39_kernel::error::KernelError;
use sv39_kernel::kernel::{Kernel, INITPROC_PID};
use sv39_kernel::loader::AppRegistry;
use sv39_kernel::mm::address::{PhysPageNum, VirtPageNum};
use sv39_kernel::mm::elf::read_elf;
use sv39_kernel::mm::frame_allocator::StackFrameAllocator;
use sv39_kernel::mm::memory_set::MemorySet;
use sv39_kernel::mm::user_space::{check_elf, LoadError};
use sv39_kernel::syscall::fs::{sys_read, sys_write, ReadOutcome};
use sv39_kernel::syscall::process::{
    sys_exec, sys_exit, sys_fork, sys_get_taskinfo, sys_get_time, sys_getpid, sys_sbrk,
    sys_waitpid, sys_yield,
};
use sv39_kernel::syscall::{syscall, SyscallEnv, SyscallOutcome};
use sv39_kernel::task::context::TaskContext;
use sv39_kernel::task::manager::{add_task, fetch_task, TaskManager};
use sv39_kernel::task::pid::{kernel_stack_position, pid_alloc, KernelStack, PidAllocator};
use sv39_kernel::task::processor::{
    current_cpu, current_task, current_trap_cx, current_user_token, schedule, scheduler,
    should_idle, take_current_task, Processor, Processors,
};
use sv39_kernel::task::task::TaskStatus;
use sv39_kernel::timer::{get_time_ms, next_trigger};
use sv39_kernel::task::{
    add_initproc, change_program_brk, exit, get_current_pid, get_current_task, get_current_token,
    get_current_trap_cx, init, lazy_alloc_page, yield_, ExitAction,
};
use sv39_kernel::trap::cause::{cause, ExceptionKind, InterruptKind, Trap};
use sv39_kernel::trap::context::TrapContext;
use sv39_kernel::trap::{
    fork_ret, trap_from_kernel, trap_handler, trap_return, KernelTrap, TrapAction,
};
use sv39_kernel::vars::{KernelEntries, KernelLayout};

const SSTATUS: u64 = 0x8000_0000_0000_0122;
const ECALL: u64 = 8;
const TIMER: u64 = (1 << 63) | 5;

fn layout() -> KernelLayout {
    KernelLayout {
        stext: 0x8020_0000,
        etext: 0x8021_0000,
        srodata: 0x8021_0000,
        erodata: 0x8021_8000,
        sdata: 0x8021_8000,
        edata: 0x8022_0000,
        sbss_with_stack: 0x8022_0000,
        ebss: 0x8023_0000,
        ekernel: 0x8790_0000,
        strampoline: 0x8020_1000,
    }
}

fn entries() -> KernelEntries {
    KernelEntries { trap_handler: 0x8020_2000, trap_return: 0x8020_3000, fork_ret: 0x8020_4000 }
}

fn put(buf: &mut Vec<u8>, at: usize, bytes: &[u8]) {
    if buf.len() < at + bytes.len() {
        buf.resize(at + bytes.len(), 0);
    }
    buf[at..at + bytes.len()].copy_from_slice(bytes);
}

/// A 64-bit ELF file with the given entry point and segments to load:
/// each is its address, its flags, its bytes and its size in memory.
fn elf(entry: u64, segments: &[(u64, u32, Vec<u8>, u64)]) -> Vec<u8> {
    let mut f = vec![0u8; 64];
    put(&mut f, 0, &[0x7f, b'E', b'L', b'F', 2, 1, 1, 0]);
    put(&mut f, 16, &2u16.to_le_bytes());
    put(&mut f, 18, &0xf3u16.to_le_bytes());
    put(&mut f, 20, &1u32.to_le_bytes());
    put(&mut f, 24, &entry.to_le_bytes());
    put(&mut f, 32, &64u64.to_le_bytes());
    put(&mut f, 52, &64u16.to_le_bytes());
    put(&mut f, 54, &56u16.to_le_bytes());
    put(&mut f, 56, &(segments.len() as u16).to_le_bytes());
    let mut at = 64 + 56 * segments.len();
    for (i, (vaddr, flags, data, mem_size)) in segments.iter().enumerate() {
        let ph = 64 + 56 * i;
        put(&mut f, ph, &1u32.to_le_bytes());
        put(&mut f, ph + 4, &flags.to_le_bytes());
        put(&mut f, ph + 8, &(at as u64).to_le_bytes());
        put(&mut f, ph + 16, &vaddr.to_le_bytes());
        put(&mut f, ph + 24, &vaddr.to_le_bytes());
        put(&mut f, ph + 32, &(data.len() as u64).to_le_bytes());
        put(&mut f, ph + 40, &mem_size.to_le_bytes());
        put(&mut f, ph + 48, &4096u64.to_le_bytes());
        put(&mut f, at, data);
        at += data.len();
    }
    f
}

fn init_image() -> Vec<u8> {
    let mut text = vec![0x13u8; 0x1800];
    text[0] = 0x73;
    let mut data = vec![0u8; 0x100];
    data[..6].copy_from_slice(b"hello\n");
    data[16..24].copy_from_slice(b"printer\0");
    data[32..37].copy_from_slice(b"none\0");
    elf(0x10000, &[(0x10000, 5, text, 0x1800), (0x12000, 6, data, 0x2000)])
}

fn printer_image() -> Vec<u8> {
    elf(0x40_0000, &[(0x40_0000, 5, vec![0x5a; 32], 32)])
}

fn apps() -> AppRegistry {
    AppRegistry::new(
        vec![b"printer".to_vec(), b"initproc".to_vec(), b"broken".to_vec()],
        vec![printer_image(), init_image(), vec![1, 2, 3]],
    )
    .unwrap()
}

fn boot(lazy: bool) -> Kernel {
    assert!(layout().check());
    let mut kernel = Kernel::new(layout(), entries(), apps(), lazy).unwrap();
    init(&mut kernel, SSTATUS).unwrap();
    kernel
}

fn env() -> SyscallEnv {
    SyscallEnv { console_char: 0, time: 1234 * 12500 + 7, sstatus: SSTATUS }
}

/// Makes the process that hart `hart` runs trap with system call `which`.
fn call(kernel: &mut Kernel, hart: usize, which: u64, args: [u64; 3]) -> (TrapAction, Vec<u8>) {
    call_with(kernel, hart, which, args, &env())
}

fn call_with(
    kernel: &mut Kernel,
    hart: usize,
    which: u64,
    args: [u64; 3],
    env: &SyscallEnv,
) -> (TrapAction, Vec<u8>) {
    let pid = current_cpu(kernel, hart).current().unwrap();
    let task = kernel.tasks.get_mut(&pid).unwrap();
    task.inner.trap_cx.regs[17] = which;
    task.inner.trap_cx.regs[10] = args[0];
    task.inner.trap_cx.regs[11] = args[1];
    task.inner.trap_cx.regs[12] = args[2];
    let out = trap_handler(kernel, hart, ECALL, 0, env).unwrap();
    assert!(!out.set_timer);
    (out.action, out.console)
}

fn a0(kernel: &Kernel, pid: usize) -> i64 {
    kernel.tasks.get(&pid).unwrap().inner.trap_cx.regs[10] as i64
}

fn status(kernel: &Kernel, pid: usize) -> TaskStatus {
    kernel.tasks.get(&pid).unwrap().inner.task_status
}

fn free(kernel: &Kernel) -> usize {
    kernel.frame_allocator.available()
}

fn token(kernel: &Kernel, pid: usize) -> u64 {
    kernel.tasks.get(&pid).unwrap().inner.memory_set.token()
}

#[test]
fn boot_creates_the_first_process() {
    let kernel = boot(false);
    assert_eq!(kernel.tasks.len(), 1);
    let task = kernel.tasks.get(&INITPROC_PID).unwrap();
    assert_eq!(task.get_pid(), 0);
    assert_eq!(task.inner.get_status(), TaskStatus::Ready);
    assert!(!task.inner.is_zombie());
    assert_eq!(task.inner.parent, None);
    assert!(task.inner.children.is_empty());
    assert_eq!(task.inner.heap_bottom, 0x14000);
    assert_eq!(task.inner.program_brk, 0x14000);
    assert_eq!(task.inner.task_cx.ra, 0x8020_3000);
    assert_eq!(task.inner.task_cx.sp, TRAMPOLINE - 0x1000);
    assert_eq!(task.kernel_stack.get_top(), TRAMPOLINE - 0x1000);
    let cx = task.inner.get_trap_cx();
    assert_eq!(cx.sepc, 0x10000);
    assert_eq!(cx.regs[2], TRAP_CONTEXT);
    assert_eq!(cx.regs.iter().filter(|r| **r != 0).count(), 1);
    assert_eq!(cx.sstatus, 0x8000_0000_0000_0022);
    assert_eq!(cx.kernel_satp, kernel.kernel_space.token());
    assert_eq!(cx.kernel_sp, TRAMPOLINE - 0x1000);
    assert_eq!(cx.trap_handler, 0x8020_2000);
    assert_eq!(task.inner.get_user_token(), task.inner.memory_set.token());
    assert_eq!(kernel.task_manager.len(), 1);
}

#[test]
fn image_is_laid_out_with_stack_heap_and_trap_context() {
    let kernel = boot(false);
    let ms = &kernel.tasks.get(&0).unwrap().inner.memory_set;
    let text = ms.translate(VirtPageNum(0x10)).unwrap();
    assert_eq!(text.flags().bits(), 0b11011);
    assert!(ms.translate(VirtPageNum(0x11)).is_some());
    let data = ms.translate(VirtPageNum(0x12)).unwrap();
    assert_eq!(data.flags().bits(), 0b10111);
    assert!(ms.translate(VirtPageNum(0x13)).is_some());
    assert!(ms.translate(VirtPageNum(0x14)).is_none());
    assert_eq!(ms.page_table().read_byte(0x10000), Some(0x73));
    assert_eq!(ms.page_table().read_byte(0x117ff), Some(0x13));
    assert_eq!(ms.page_table().read_byte(0x11800), Some(0));
    assert_eq!(ms.page_table().read_byte(0x12000), Some(b'h'));
    assert_eq!(ms.page_table().read_byte(0x13fff), Some(0));
    let stack = ms.translate(VirtPageNum(0x7ff_fffc)).unwrap();
    assert_eq!(stack.flags().bits(), 0b10111);
    assert!(ms.translate(VirtPageNum(0x7ff_fffd)).is_some());
    assert!(ms.translate(VirtPageNum(0x7ff_fffb)).is_none());
    let trap_cx = ms.translate(VirtPageNum(0x7ff_fffe)).unwrap();
    assert_eq!(trap_cx.flags().bits(), 0b111);
    assert_eq!(trap_cx.ppn(), kernel.tasks.get(&0).unwrap().inner.trap_cx_ppn);
    let tramp = ms.translate(VirtPageNum(0x7ff_ffff)).unwrap();
    assert_eq!(tramp.flags().bits(), 0b1011);
    assert_eq!(tramp.ppn(), PhysPageNum(0x80201));
    let heap = ms.area(VirtPageNum(0x14)).unwrap();
    assert_eq!(heap.get_end(), VirtPageNum(0x14));
    // The kernel stack of the process is mapped in the kernel's space,
    // with a free page above and below it.
    assert!(kernel.kernel_space.translate(VirtPageNum(0x7ff_fffe)).is_none());
    assert!(kernel.kernel_space.translate(VirtPageNum(0x7ff_fffd)).is_some());
    assert!(kernel.kernel_space.translate(VirtPageNum(0x7ff_fffc)).is_some());
    assert!(kernel.kernel_space.translate(VirtPageNum(0x7ff_fffb)).is_none());
}

#[test]
fn hello_world() {
    let mut kernel = boot(false);
    assert_eq!(scheduler(&mut kernel, 0), Some(0));
    assert_eq!(status(&kernel, 0), TaskStatus::Running);
    let (action, console) = call(&mut kernel, 0, 64, [1, 0x12000, 6]);
    assert_eq!(console, b"hello\n".to_vec());
    assert_eq!(action, TrapAction::Return { trap_cx_va: TRAP_CONTEXT, user_satp: token(&kernel, 0) });
    assert_eq!(a0(&kernel, 0), 6);
    assert_eq!(kernel.tasks.get(&0).unwrap().inner.trap_cx.sepc, 0x10004);
    // The first process ends the machine when it exits.
    let (action, console) = call(&mut kernel, 0, 93, [0, 0, 0]);
    assert_eq!(action, TrapAction::Shutdown);
    assert!(console.is_empty());
}

#[test]
fn write_refuses_other_descriptors_and_bad_buffers() {
    let mut kernel = boot(false);
    scheduler(&mut kernel, 0);
    assert_eq!(sys_write(&mut kernel, 0, 2, 0x12000, 6), (-1, vec![]));
    assert_eq!(sys_write(&mut kernel, 0, 1, 0x14000, 6), (-1, vec![]));
    assert_eq!(sys_write(&mut kernel, 0, 1, 0x13ffe, 6), (-1, vec![]));
    assert_eq!(sys_write(&mut kernel, 0, 1, 0x12005, 0), (0, vec![]));
    assert_eq!(sys_write(&mut kernel, 0, 1, 0x11fff, 3), (3, vec![0, b'h', b'e']));
}

#[test]
fn fork_wait_exit() {
    let mut kernel = boot(false);
    assert_eq!(scheduler(&mut kernel, 0), Some(0));
    let before = free(&kernel);
    let (action, _) = call(&mut kernel, 0, 220, [0, 0, 0]);
    assert!(matches!(action, TrapAction::Return { .. }));
    assert_eq!(a0(&kernel, 0), 1);
    assert_eq!(a0(&kernel, 1), 0);
    assert_eq!(status(&kernel, 1), TaskStatus::Ready);
    assert!(free(&kernel) < before);
    {
        let child = kernel.tasks.get(&1).unwrap();
        let parent = kernel.tasks.get(&0).unwrap();
        assert_eq!(child.inner.parent, Some(0));
        assert_eq!(parent.inner.children, vec![1]);
        assert_eq!(child.inner.trap_cx.sepc, parent.inner.trap_cx.sepc);
        assert_eq!(child.inner.trap_cx.sepc, 0x10004);
        assert_eq!(child.inner.trap_cx.regs[2], TRAP_CONTEXT);
        assert_eq!(child.inner.trap_cx.kernel_sp, TRAMPOLINE - 0x4000);
        assert_eq!(child.inner.task_cx.ra, 0x8020_4000);
        assert_eq!(child.inner.task_cx.sp, TRAMPOLINE - 0x4000);
        assert_eq!(child.inner.heap_bottom, 0x14000);
        assert_ne!(child.inner.memory_set.token(), parent.inner.memory_set.token());
        assert_eq!(child.inner.memory_set.page_table().read_byte(0x12001), Some(b'e'));
    }
    // No child has exited yet.
    call(&mut kernel, 0, 260, [u64::MAX, 0x12040, 0]);
    assert_eq!(a0(&kernel, 0), -2);
    // The parent yields; the child runs on the same hart and exits.
    let (action, _) = call(&mut kernel, 0, 124, [0, 0, 0]);
    assert_eq!(action, TrapAction::Schedule);
    assert_eq!(a0(&kernel, 0), 0);
    assert_eq!(status(&kernel, 0), TaskStatus::Ready);
    assert_eq!(scheduler(&mut kernel, 0), Some(1));
    assert_eq!(fork_ret(&mut kernel, 0), (TRAP_CONTEXT, token(&kernel, 1)));
    let (action, _) = call(&mut kernel, 0, 93, [42, 0, 0]);
    assert_eq!(action, TrapAction::Schedule);
    assert_eq!(status(&kernel, 1), TaskStatus::Zombie);
    assert!(kernel.tasks.get(&1).unwrap().inner.is_zombie());
    assert_eq!(kernel.tasks.get(&1).unwrap().inner.xcode, 42);
    // The child's frames are free again; its kernel stack still stands.
    assert_eq!(free(&kernel), before - 2);
    // The parent collects it.
    assert_eq!(scheduler(&mut kernel, 0), Some(0));
    let (action, _) = call(&mut kernel, 0, 260, [u64::MAX, 0x12040, 0]);
    assert!(matches!(action, TrapAction::Return { .. }));
    assert_eq!(a0(&kernel, 0), 1);
    let ms = &kernel.tasks.get(&0).unwrap().inner.memory_set;
    assert_eq!(ms.page_table().read_byte(0x12040), Some(42));
    assert_eq!(ms.page_table().read_byte(0x12041), Some(0));
    assert!(kernel.tasks.get(&1).is_none());
    assert!(kernel.tasks.get(&0).unwrap().inner.children.is_empty());
    assert_eq!(free(&kernel), before);
    assert!(kernel.kernel_space.translate(VirtPageNum(0x7ff_fffa)).is_none());
    // There is nothing left to wait for.
    call(&mut kernel, 0, 260, [u64::MAX, 0x12040, 0]);
    assert_eq!(a0(&kernel, 0), -1);
    // The identifier is handed out again.
    call(&mut kernel, 0, 220, [0, 0, 0]);
    assert_eq!(a0(&kernel, 0), 1);
}

#[test]
fn wait_for_one_child_only() {
    let mut kernel = boot(false);
    scheduler(&mut kernel, 0);
    assert_eq!(sys_fork(&mut kernel, 0), Ok(1));
    assert_eq!(sys_fork(&mut kernel, 0), Ok(2));
    assert_eq!(sys_waitpid(&mut kernel, 0, 7, 0x12040), -1);
    assert_eq!(sys_waitpid(&mut kernel, 0, -5, 0x12040), -1);
    assert_eq!(sys_waitpid(&mut kernel, 0, 2, 0x12040), -2);
    yield_(&mut kernel, 0);
    assert_eq!(scheduler(&mut kernel, 1), Some(1));
    assert_eq!(scheduler(&mut kernel, 2), Some(2));
    assert_eq!(scheduler(&mut kernel, 0), Some(0));
    assert_eq!(sys_exit(&mut kernel, 1, 11), ExitAction::Switch);
    assert_eq!(sys_exit(&mut kernel, 2, -7), ExitAction::Switch);
    assert_eq!(sys_waitpid(&mut kernel, 0, 2, 0x12040), 2);
    let ms = &kernel.tasks.get(&0).unwrap().inner.memory_set;
    assert_eq!(ms.page_table().read_byte(0x12040), Some(0xf9));
    assert_eq!(ms.page_table().read_byte(0x12043), Some(0xff));
    // A pointer the caller cannot reach leaves its memory alone; the child goes all the same.
    assert_eq!(sys_waitpid(&mut kernel, 0, -1, 0x20_0000), 1);
    assert_eq!(sys_waitpid(&mut kernel, 0, -1, 0x12040), -1);
}

#[test]
fn orphans_go_to_the_first_process() {
    let mut kernel = boot(false);
    scheduler(&mut kernel, 0);
    assert_eq!(sys_fork(&mut kernel, 0), Ok(1));
    yield_(&mut kernel, 0);
    assert_eq!(scheduler(&mut kernel, 0), Some(1));
    assert_eq!(sys_fork(&mut kernel, 0), Ok(2));
    assert_eq!(sys_fork(&mut kernel, 0), Ok(3));
    assert_eq!(kernel.tasks.get(&2).unwrap().inner.parent, Some(1));
    assert_eq!(exit(&mut kernel, 0, 5), ExitAction::Switch);
    assert_eq!(kernel.tasks.get(&2).unwrap().inner.parent, Some(0));
    assert_eq!(kernel.tasks.get(&3).unwrap().inner.parent, Some(0));
    assert_eq!(kernel.tasks.get(&0).unwrap().inner.children, vec![1, 2, 3]);
    assert!(kernel.tasks.get(&1).unwrap().inner.children.is_empty());
    assert_eq!(current_cpu(&kernel, 0).current(), None);
    assert_eq!(status(&kernel, 2), TaskStatus::Ready);
}

#[test]
fn timer_makes_processes_take_turns() {
    let mut kernel = boot(false);
    assert_eq!(scheduler(&mut kernel, 0), Some(0));
    assert_eq!(sys_fork(&mut kernel, 0), Ok(1));
    let mut ran = vec![];
    for _ in 0..4 {
        ran.push(current_cpu(&kernel, 0).current().unwrap());
        let out = trap_handler(&mut kernel, 0, TIMER, 0, &env()).unwrap();
        assert!(out.set_timer);
        assert_eq!(out.action, TrapAction::Schedule);
        assert!(out.console.is_empty());
        assert!(scheduler(&mut kernel, 0).is_some());
    }
    assert_eq!(ran, vec![0, 1, 0, 1]);
    // A timer tick leaves the registers of the process alone.
    assert_eq!(kernel.tasks.get(&0).unwrap().inner.trap_cx.sepc, 0x10000);
}

#[test]
fn two_harts_run_two_processes() {
    let mut kernel = boot(false);
    assert_eq!(scheduler(&mut kernel, 0), Some(0));
    assert_eq!(sys_fork(&mut kernel, 0), Ok(1));
    assert_eq!(scheduler(&mut kernel, 1), Some(1));
    assert_eq!(scheduler(&mut kernel, 2), None);
    assert_eq!(sys_getpid(&mut kernel, 0), 0);
    assert_eq!(sys_getpid(&mut kernel, 1), 1);
    assert_eq!(sys_get_taskinfo(&mut kernel, 1), 1);
    assert_eq!(get_current_pid(&mut kernel, 1), 1);
    assert_eq!(get_current_task(&mut kernel, 1), 1);
    assert_eq!(current_task(&mut kernel, 2), None);
    assert_eq!(current_user_token(&kernel, 0), Some(token(&kernel, 0)));
    assert_eq!(current_user_token(&kernel, 2), None);
    assert_eq!(get_current_token(&mut kernel, 1), token(&kernel, 1));
    assert_eq!(current_trap_cx(&kernel, 1).unwrap().kernel_sp, TRAMPOLINE - 0x4000);
    assert!(current_trap_cx(&kernel, 3).is_none());
    assert_eq!(get_current_trap_cx(&mut kernel, 0).kernel_sp, TRAMPOLINE - 0x1000);
    assert_eq!(sys_yield(&mut kernel, 1), 0);
    assert_eq!(current_cpu(&kernel, 1).current(), None);
    assert_eq!(scheduler(&mut kernel, 3), Some(1));
}

#[test]
fn heap_grows_and_shrinks() {
    let mut kernel = boot(false);
    scheduler(&mut kernel, 0);
    let b: i64 = 0x14000;
    assert_eq!(sys_sbrk(&mut kernel, 0, 0), Ok(b));
    let before = free(&kernel);
    assert_eq!(sys_sbrk(&mut kernel, 0, 4096), Ok(b));
    assert_eq!(free(&kernel), before - 1);
    {
        let ms = &mut kernel.tasks.get_mut(&0).unwrap().inner.memory_set;
        for i in 0..4096u64 {
            assert!(ms.write_user_byte(b as u64 + i, 1));
        }
        assert!(!ms.write_user_byte(b as u64 + 4096, 1));
        assert_eq!(ms.translate(VirtPageNum(0x14)).unwrap().flags().bits(), 0b10111);
    }
    assert_eq!(sys_sbrk(&mut kernel, 0, 0), Ok(b + 4096));
    assert_eq!(sys_sbrk(&mut kernel, 0, 1), Ok(b + 4096));
    assert_eq!(free(&kernel), before - 2);
    assert_eq!(sys_sbrk(&mut kernel, 0, -1), Ok(b + 4097));
    assert_eq!(free(&kernel), before - 1);
    assert_eq!(sys_sbrk(&mut kernel, 0, -4096), Ok(b + 4096));
    assert_eq!(sys_sbrk(&mut kernel, 0, 0), Ok(b));
    assert_eq!(free(&kernel), before);
    assert!(kernel.tasks.get(&0).unwrap().inner.memory_set.translate(VirtPageNum(0x14)).is_none());
    // The heap cannot shrink below its bottom.
    assert_eq!(sys_sbrk(&mut kernel, 0, -1), Ok(-1));
    assert_eq!(change_program_brk(&mut kernel, 0, -4096), Ok(None));
    assert_eq!(change_program_brk(&mut kernel, 1, 4096), Ok(None));
    // Growing further than there are frames is fatal.
    assert_eq!(sys_sbrk(&mut kernel, 0, i32::MAX), Err(KernelError::OutOfFrames));
}

#[test]
fn heap_cannot_run_into_another_area() {
    let mut kernel = boot(false);
    scheduler(&mut kernel, 0);
    {
        let task = kernel.tasks.get_mut(&0).unwrap();
        let perm = sv39_kernel::mm::flags::MapPermission { bits: 22 };
        task.inner
            .memory_set
            .insert_framed_area(
                &mut kernel.frame_allocator,
                sv39_kernel::mm::address::VirtAddr(0x16000),
                sv39_kernel::mm::address::VirtAddr(0x17000),
                perm,
            )
            .unwrap();
    }
    assert_eq!(sys_sbrk(&mut kernel, 0, 0x2000), Ok(0x14000));
    assert_eq!(sys_sbrk(&mut kernel, 0, 1), Ok(-1));
    assert_eq!(sys_sbrk(&mut kernel, 0, 0), Ok(0x16000));
}

#[test]
fn lazy_heap_gets_pages_on_fault() {
    let mut kernel = boot(true);
    scheduler(&mut kernel, 0);
    let before = free(&kernel);
    assert_eq!(sys_sbrk(&mut kernel, 0, 0x3000), Ok(0x14000));
    assert_eq!(free(&kernel), before);
    let out = trap_handler(&mut kernel, 0, 15, 0x15008, &env()).unwrap();
    assert_eq!(out.action, TrapAction::Return { trap_cx_va: TRAP_CONTEXT, user_satp: token(&kernel, 0) });
    assert_eq!(free(&kernel), before - 1);
    {
        let ms = &kernel.tasks.get(&0).unwrap().inner.memory_set;
        assert_eq!(ms.translate(VirtPageNum(0x15)).unwrap().flags().bits(), 0b10111);
        assert!(ms.translate(VirtPageNum(0x14)).is_none());
        assert_eq!(ms.page_table().read_byte(0x15008), Some(0));
    }
    assert_eq!(lazy_alloc_page(&mut kernel, 0, sv39_kernel::mm::address::VirtAddr(0x15000)), Ok(false));
    assert_eq!(lazy_alloc_page(&mut kernel, 0, sv39_kernel::mm::address::VirtAddr(0x14000)), Ok(true));
    assert_eq!(lazy_alloc_page(&mut kernel, 1, sv39_kernel::mm::address::VirtAddr(0x14000)), Ok(false));
    assert_eq!(free(&kernel), before - 2);
    // Shrinking gives the pages above the new break back.
    assert_eq!(sys_sbrk(&mut kernel, 0, -0x2000), Ok(0x17000));
    assert_eq!(free(&kernel), before - 1);
    assert!(kernel.tasks.get(&0).unwrap().inner.memory_set.translate(VirtPageNum(0x15)).is_none());
    assert!(kernel.tasks.get(&0).unwrap().inner.memory_set.translate(VirtPageNum(0x14)).is_some());
    // A second fault on a mapped page of the heap cannot be mended.
    assert_eq!(sys_fork(&mut kernel, 0), Ok(1));
    yield_(&mut kernel, 0);
    assert_eq!(scheduler(&mut kernel, 0), Some(1));
    let out = trap_handler(&mut kernel, 0, 13, 0x14010, &env()).unwrap();
    assert_eq!(out.action, TrapAction::Schedule);
    assert_eq!(kernel.tasks.get(&1).unwrap().inner.xcode, -2);
}

#[test]
fn bad_pointer_ends_the_process_only() {
    let mut kernel = boot(false);
    scheduler(&mut kernel, 0);
    assert_eq!(sys_fork(&mut kernel, 0), Ok(1));
    assert_eq!(scheduler(&mut kernel, 1), Some(1));
    for (hart, scause) in [(1usize, 13u64)] {
        let out = trap_handler(&mut kernel, hart, scause, 0, &env()).unwrap();
        assert_eq!(out.action, TrapAction::Schedule);
        assert!(!out.set_timer);
    }
    assert_eq!(status(&kernel, 1), TaskStatus::Zombie);
    assert_eq!(kernel.tasks.get(&1).unwrap().inner.xcode, -2);
    assert_eq!(status(&kernel, 0), TaskStatus::Running);
    let (action, console) = call(&mut kernel, 0, 64, [1, 0x12000, 5]);
    assert!(matches!(action, TrapAction::Return { .. }));
    assert_eq!(console, b"hello".to_vec());
    assert_eq!(sys_waitpid(&mut kernel, 0, -1, 0x12050), 1);
    let ms = &kernel.tasks.get(&0).unwrap().inner.memory_set;
    assert_eq!(ms.page_table().read_byte(0x12050), Some(0xfe));
    assert_eq!(ms.page_table().read_byte(0x12053), Some(0xff));
}

#[test]
fn other_traps_end_the_process_too() {
    for (scause, code) in [(2u64, -3), (5, -2), (7, -2), (15, -2), (3, -1), (12, -1), ((1 << 63) | 9, -1)] {
        let mut kernel = boot(false);
        scheduler(&mut kernel, 0);
        assert_eq!(sys_fork(&mut kernel, 0), Ok(1));
        assert_eq!(scheduler(&mut kernel, 1), Some(1));
        let out = trap_handler(&mut kernel, 1, scause, 0x10000, &env()).unwrap();
        assert_eq!(out.action, TrapAction::Schedule);
        assert_eq!(kernel.tasks.get(&1).unwrap().inner.xcode, code);
        // The first process would take the machine down with it.
        let out = trap_handler(&mut kernel, 0, scause, 0x10000, &env()).unwrap();
        assert_eq!(out.action, TrapAction::Shutdown);
    }
}

#[test]
fn unknown_call_ends_the_caller() {
    let mut kernel = boot(false);
    scheduler(&mut kernel, 0);
    assert_eq!(sys_fork(&mut kernel, 0), Ok(1));
    assert_eq!(scheduler(&mut kernel, 1), Some(1));
    let (action, _) = call(&mut kernel, 1, 9999, [0, 0, 0]);
    assert_eq!(action, TrapAction::Schedule);
    assert_eq!(kernel.tasks.get(&1).unwrap().inner.xcode, -1);
    let r = syscall(&mut kernel, 0, 555, [0, 0, 0], &env()).unwrap();
    assert_eq!(r.0, SyscallOutcome::Exited(ExitAction::Shutdown));
}

#[test]
fn exec_replaces_the_image() {
    let mut kernel = boot(false);
    scheduler(&mut kernel, 0);
    assert_eq!(sys_fork(&mut kernel, 0), Ok(1));
    assert_eq!(scheduler(&mut kernel, 1), Some(1));
    let parent_token = token(&kernel, 0);
    let before = free(&kernel);
    // A name that no program has, and a program that is no ELF file.
    call(&mut kernel, 1, 221, [0x12020, 0, 0]);
    assert_eq!(a0(&kernel, 1), -1);
    call(&mut kernel, 1, 221, [0x20_0000, 0, 0]);
    assert_eq!(a0(&kernel, 1), -1);
    assert_eq!(free(&kernel), before);
    let (action, _) = call(&mut kernel, 1, 221, [0x12010, 0, 0]);
    assert_eq!(action, TrapAction::Return { trap_cx_va: TRAP_CONTEXT, user_satp: token(&kernel, 1) });
    {
        let child = kernel.tasks.get(&1).unwrap();
        assert_eq!(child.inner.trap_cx.sepc, 0x40_0000);
        assert_eq!(child.inner.trap_cx.regs[10], 0);
        assert_eq!(child.inner.trap_cx.regs[2], TRAP_CONTEXT);
        assert_eq!(child.inner.trap_cx.regs[17], 0);
        assert_eq!(child.inner.trap_cx.kernel_sp, TRAMPOLINE - 0x4000);
        assert_eq!(child.inner.trap_cx.kernel_satp, kernel.kernel_space.token());
        assert_eq!(child.inner.memory_set.page_table().read_byte(0x40_0000), Some(0x5a));
        assert_eq!(child.inner.memory_set.page_table().read_byte(0x40_0020), Some(0));
        assert_eq!(child.inner.memory_set.page_table().read_byte(0x12000), None);
        assert_eq!(child.inner.parent, Some(0));
        let parent = kernel.tasks.get(&0).unwrap();
        assert_eq!(parent.inner.memory_set.token(), parent_token);
        assert_eq!(parent.inner.memory_set.page_table().read_byte(0x12000), Some(b'h'));
        assert_eq!(parent.inner.memory_set.page_table().read_byte(0x40_0000), None);
        assert_eq!(parent.inner.trap_cx.sepc, 0x10000);
    }
    // The smaller image leaves more frames free than the copy of the parent did.
    assert!(free(&kernel) > before);
    assert_eq!(sys_exit(&mut kernel, 1, 0), ExitAction::Switch);
    assert_eq!(sys_waitpid(&mut kernel, 0, 1, 0x12040), 1);
}

#[test]
fn exec_of_a_broken_program_changes_nothing() {
    let mut kernel = boot(false);
    scheduler(&mut kernel, 0);
    {
        let ms = &mut kernel.tasks.get_mut(&0).unwrap().inner.memory_set;
        for (i, b) in b"broken\0".iter().enumerate() {
            assert!(ms.write_user_byte(0x12060 + i as u64, *b));
        }
    }
    let before = free(&kernel);
    assert_eq!(sys_exec(&mut kernel, 0, 0x12060, SSTATUS), Ok(-1));
    assert_eq!(free(&kernel), before);
    assert_eq!(kernel.tasks.get(&0).unwrap().inner.trap_cx.sepc, 0x10000);
    assert_eq!(sys_exec(&mut kernel, 0, 0x12010, SSTATUS), Ok(0));
    assert_eq!(kernel.tasks.get(&0).unwrap().inner.trap_cx.sepc, 0x40_0000);
}

#[test]
fn read_waits_for_a_byte() {
    let mut kernel = boot(false);
    scheduler(&mut kernel, 0);
    let mut e = env();
    let (action, _) = call_with(&mut kernel, 0, 63, [0, 0x12080, 1], &e);
    assert_eq!(action, TrapAction::Schedule);
    // The call is to be made again: the process stands before it, its arguments in place.
    let cx = kernel.tasks.get(&0).unwrap().inner.trap_cx;
    assert_eq!(cx.sepc, 0x10000);
    assert_eq!(cx.regs[10], 0);
    assert_eq!(cx.regs[11], 0x12080);
    assert_eq!(status(&kernel, 0), TaskStatus::Ready);
    assert_eq!(scheduler(&mut kernel, 0), Some(0));
    e.console_char = b'x' as u64;
    let (action, _) = call_with(&mut kernel, 0, 63, [0, 0x12080, 1], &e);
    assert!(matches!(action, TrapAction::Return { .. }));
    assert_eq!(a0(&kernel, 0), 1);
    assert_eq!(kernel.tasks.get(&0).unwrap().inner.trap_cx.sepc, 0x10004);
    let ms = &kernel.tasks.get(&0).unwrap().inner.memory_set;
    assert_eq!(ms.page_table().read_byte(0x12080), Some(b'x'));
    assert_eq!(sys_read(&mut kernel, 0, 1, 0x12080, 1, 65), ReadOutcome::Done(-1));
    assert_eq!(sys_read(&mut kernel, 0, 0, 0x12080, 2, 65), ReadOutcome::Done(-1));
    assert_eq!(sys_read(&mut kernel, 0, 0, 0x30_0000, 1, 65), ReadOutcome::Done(-1));
    assert_eq!(sys_read(&mut kernel, 0, 0, 0x12081, 1, 0x141), ReadOutcome::Done(1));
    let ms = &kernel.tasks.get(&0).unwrap().inner.memory_set;
    assert_eq!(ms.page_table().read_byte(0x12081), Some(0x41));
}

#[test]
fn time_and_identity() {
    let mut kernel = boot(false);
    scheduler(&mut kernel, 0);
    call(&mut kernel, 0, 169, [0, 0, 0]);
    assert_eq!(a0(&kernel, 0), 1234);
    call(&mut kernel, 0, 172, [0, 0, 0]);
    assert_eq!(a0(&kernel, 0), 0);
    assert_eq!(sys_get_time(77), 0);
    assert_eq!(sys_get_time(12_499), 0);
    assert_eq!(sys_get_time(12_500), 1);
    assert_eq!(sys_get_time(12_500_000), 1000);
    assert_eq!(get_time_ms(25_001), 2);
    assert_eq!(next_trigger(1_000), 126_000);
    assert_eq!(kernel.tasks.get(&0).unwrap().inner.trap_cx.sepc, 0x10008);
}

#[test]
fn task_info_is_no_system_call() {
    let mut kernel = boot(false);
    scheduler(&mut kernel, 0);
    assert_eq!(sys_fork(&mut kernel, 0), Ok(1));
    assert_eq!(scheduler(&mut kernel, 1), Some(1));
    // The number is not in the table: the caller ends with code -1.
    let (action, console) = call(&mut kernel, 1, 114514, [0, 0, 0]);
    assert_eq!(action, TrapAction::Schedule);
    assert!(console.is_empty());
    assert_eq!(status(&kernel, 1), TaskStatus::Zombie);
    assert_eq!(kernel.tasks.get(&1).unwrap().inner.xcode, -1);
    assert_eq!(status(&kernel, 0), TaskStatus::Running);
    // The first process ends the machine the same way.
    let (action, _) = call(&mut kernel, 0, 114514, [0, 0, 0]);
    assert_eq!(action, TrapAction::Shutdown);
}

#[test]
fn fork_fails_cleanly_without_frames() {
    let mut l = layout();
    l.ekernel = 0x87fc_0000;
    let mut kernel = Kernel::new(l, entries(), apps(), false).unwrap();
    init(&mut kernel, SSTATUS).unwrap();
    scheduler(&mut kernel, 0);
    let mut made = 0;
    loop {
        match sys_fork(&mut kernel, 0) {
            Ok(_) => made += 1,
            Err(e) => {
                assert_eq!(e, KernelError::OutOfFrames);
                break;
            },
        }
    }
    assert!(made >= 1);
}

#[test]
fn boot_needs_the_first_program() {
    let no_init = AppRegistry::new(vec![b"printer".to_vec()], vec![printer_image()]).unwrap();
    let mut kernel = Kernel::new(layout(), entries(), no_init, false).unwrap();
    assert_eq!(add_initproc(&mut kernel, SSTATUS), Err(KernelError::NoSuchApp));
    assert!(kernel.tasks.is_empty());
    let bad = AppRegistry::new(vec![b"initproc".to_vec()], vec![vec![0x7f, b'E', b'L', b'F']]).unwrap();
    let mut kernel = Kernel::new(layout(), entries(), bad, false).unwrap();
    assert_eq!(init(&mut kernel, SSTATUS), Err(KernelError::BadElf));
    let mut l = layout();
    l.ekernel = 0x87ff_f000;
    let tiny = Kernel::new(l, entries(), apps(), false);
    assert!(matches!(tiny, Err(KernelError::OutOfFrames)));
    assert!(AppRegistry::new(vec![b"a".to_vec()], vec![]).is_none());
}

#[test]
fn registry_finds_programs_by_name() {
    let apps = apps();
    assert_eq!(apps.get_num_app(), 3);
    assert_eq!(apps.get_app_data(2), &vec![1, 2, 3]);
    assert_eq!(apps.get_app_data_by_name(b"broken"), Some(&vec![1, 2, 3]));
    assert_eq!(apps.get_app_data_by_name(b"printer").unwrap().len(), printer_image().len());
    assert_eq!(apps.get_app_data_by_name(b"print"), None);
    assert_eq!(apps.get_app_data_by_name(b""), None);
    assert_eq!(apps.list_apps(), &vec![b"printer".to_vec(), b"initproc".to_vec(), b"broken".to_vec()]);
    let twice = AppRegistry::new(vec![b"a".to_vec(), b"a".to_vec()], vec![vec![1], vec![2]]).unwrap();
    assert_eq!(twice.get_app_data_by_name(b"a"), Some(&vec![1]));
}

#[test]
fn elf_headers_are_read() {
    let image = read_elf(&init_image()).unwrap();
    assert_eq!(image.entry_point, 0x10000);
    assert_eq!(image.segments.len(), 2);
    let text = image.segments[0];
    assert!(text.type_ok && text.load);
    assert_eq!(text.virtual_addr, 0x10000);
    assert_eq!(text.mem_size, 0x1800);
    assert_eq!(text.file_size, 0x1800);
    assert_eq!(text.offset, 64 + 2 * 56);
    assert!(text.is_read() && text.is_execute() && !text.is_write());
    let data = image.segments[1];
    assert_eq!(data.virtual_addr, 0x12000);
    assert_eq!(data.mem_size, 0x2000);
    assert_eq!(data.file_size, 0x100);
    assert_eq!(data.offset, 64 + 2 * 56 + 0x1800);
    assert!(data.is_read() && data.is_write() && !data.is_execute());
    // A copy that does not start at an even address reads the same.
    let mut shifted = vec![0u8];
    shifted.extend_from_slice(&init_image());
    let again = read_elf(&shifted[1..]).unwrap();
    assert_eq!(again.segments, image.segments);
}

#[test]
fn broken_elf_files_are_refused() {
    let good = init_image();
    assert_eq!(check_elf(&good), Ok(()));
    assert!(read_elf(&[]).is_none());
    assert!(read_elf(&good[..63]).is_none());
    let mut magic = good.clone();
    magic[1] = b'F';
    assert!(read_elf(&magic).is_none());
    assert_eq!(check_elf(&magic), Err(LoadError::BadElf));
    let mut class = good.clone();
    class[4] = 9;
    assert!(read_elf(&class).is_none());
    // The program headers run off the file.
    assert!(read_elf(&good[..100]).is_none());
    let mut odd = good.clone();
    odd[32] = 65;
    assert!(read_elf(&odd).is_none());
    let mut small = good.clone();
    small[54] = 48;
    assert!(read_elf(&small).is_none());
    // A segment that runs off the file.
    assert_eq!(check_elf(&good[..good.len() - 1]), Err(LoadError::BadElf));
    // A segment type that is not known.
    let mut kind = good.clone();
    kind[64] = 0x63;
    assert!(read_elf(&kind).is_some());
    assert_eq!(check_elf(&kind), Err(LoadError::BadElf));
    // A segment that is not to be loaded is passed over.
    let mut note = good.clone();
    note[64] = 4;
    assert_eq!(check_elf(&note), Ok(()));
    // Segments that share a page, and one on the user stack.
    let clash = elf(0, &[(0x10000, 5, vec![1; 16], 0x1001), (0x11800, 6, vec![], 16)]);
    assert_eq!(check_elf(&clash), Err(LoadError::Overlap));
    let high = elf(0, &[(0x7f_ffff_c000, 6, vec![], 16)]);
    assert_eq!(check_elf(&high), Err(LoadError::Overlap));
    let wrap = elf(0, &[(u64::MAX, 6, vec![], 16)]);
    assert_eq!(check_elf(&wrap), Err(LoadError::BadElf));
    let mut a = StackFrameAllocator::new();
    a.init(PhysPageNum(100), PhysPageNum(200));
    assert!(matches!(MemorySet::from_elf(&mut a, &clash, 0x8020_1000), Err(LoadError::Overlap)));
    assert!(matches!(MemorySet::from_elf(&mut a, &magic, 0x8020_1000), Err(LoadError::BadElf)));
    assert_eq!(a.available(), 100);
    let mut few = StackFrameAllocator::new();
    few.init(PhysPageNum(100), PhysPageNum(104));
    assert!(matches!(MemorySet::from_elf(&mut few, &good, 0x8020_1000), Err(LoadError::OutOfFrames)));
    let (ms, sp, heap, entry) = MemorySet::from_elf(&mut a, &good, 0x8020_1000).ok().unwrap();
    assert_eq!((sp, heap, entry), (TRAP_CONTEXT, 0x14000, 0x10000));
    assert_eq!(ms.page_table().read_byte(0x12004), Some(b'o'));
}

#[test]
fn causes_are_decoded() {
    assert_eq!(cause(8), Trap::Exception(ExceptionKind::UserEnvCall));
    assert_eq!(cause(2), Trap::Exception(ExceptionKind::IllegalInstruction));
    assert_eq!(cause(0), Trap::Exception(ExceptionKind::InstructionMisaligned));
    assert_eq!(cause(1), Trap::Exception(ExceptionKind::InstructionFault));
    assert_eq!(cause(3), Trap::Exception(ExceptionKind::Breakpoint));
    assert_eq!(cause(5), Trap::Exception(ExceptionKind::LoadFault));
    assert_eq!(cause(6), Trap::Exception(ExceptionKind::StoreMisaligned));
    assert_eq!(cause(7), Trap::Exception(ExceptionKind::StoreFault));
    assert_eq!(cause(12), Trap::Exception(ExceptionKind::InstructionPageFault));
    assert_eq!(cause(13), Trap::Exception(ExceptionKind::LoadPageFault));
    assert_eq!(cause(15), Trap::Exception(ExceptionKind::StorePageFault));
    assert_eq!(cause(4), Trap::Exception(ExceptionKind::Unknown));
    assert_eq!(cause(0x1_0008), Trap::Exception(ExceptionKind::Unknown));
    assert_eq!(cause(TIMER), Trap::Interrupt(InterruptKind::SupervisorTimer));
    assert_eq!(cause(1 << 63), Trap::Interrupt(InterruptKind::UserSoft));
    assert_eq!(cause((1 << 63) | 1), Trap::Interrupt(InterruptKind::SupervisorSoft));
    assert_eq!(cause((1 << 63) | 4), Trap::Interrupt(InterruptKind::UserTimer));
    assert_eq!(cause((1 << 63) | 8), Trap::Interrupt(InterruptKind::UserExternal));
    assert_eq!(cause((1 << 63) | 9), Trap::Interrupt(InterruptKind::SupervisorExternal));
    assert_eq!(cause((1 << 63) | 2), Trap::Interrupt(InterruptKind::Unknown));
    assert_eq!(cause(u64::MAX), Trap::Interrupt(InterruptKind::Unknown));
}

#[test]
fn kernel_traps_are_fatal_but_for_the_timer() {
    let mut kernel = boot(false);
    assert_eq!(trap_from_kernel(&mut kernel, 0, TIMER), KernelTrap::Fatal);
    scheduler(&mut kernel, 0);
    // The scheduler has switched interrupts on.
    assert_eq!(trap_from_kernel(&mut kernel, 0, TIMER), KernelTrap::Fatal);
    trap_return(&mut kernel, 0);
    assert_eq!(trap_from_kernel(&mut kernel, 0, 8), KernelTrap::Fatal);
    assert_eq!(trap_from_kernel(&mut kernel, 0, 13), KernelTrap::Fatal);
    assert_eq!(trap_from_kernel(&mut kernel, 0, 2), KernelTrap::Fatal);
    assert_eq!(status(&kernel, 0), TaskStatus::Running);
    assert_eq!(trap_from_kernel(&mut kernel, 0, TIMER), KernelTrap::Yielded);
    assert_eq!(status(&kernel, 0), TaskStatus::Ready);
    assert_eq!(current_cpu(&kernel, 0).current(), None);
}

#[test]
fn leaving_for_user_mode_switches_interrupts_off() {
    let mut kernel = boot(false);
    scheduler(&mut kernel, 0);
    assert!(intr_get(current_cpu(&kernel, 0)));
    assert_eq!(trap_return(&mut kernel, 0), (TRAP_CONTEXT, token(&kernel, 0)));
    assert!(!intr_get(current_cpu(&kernel, 0)));
    assert_eq!(current_cpu(&kernel, 0).noff, 0);
}

#[test]
fn switching_interrupts_off_nests() {
    let mut cpu = Processor::new();
    assert_eq!(cpu.noff, 0);
    intr_on(&mut cpu);
    push_off(&mut cpu);
    assert!(!intr_get(&cpu));
    assert!(cpu.intena);
    push_off(&mut cpu);
    assert_eq!(cpu.noff, 2);
    pop_off(&mut cpu);
    assert!(!intr_get(&cpu));
    pop_off(&mut cpu);
    assert_eq!(cpu.noff, 0);
    assert!(intr_get(&cpu));
    intr_off(&mut cpu);
    push_off(&mut cpu);
    assert!(!cpu.intena);
    pop_off(&mut cpu);
    assert!(!intr_get(&cpu));
}

#[test]
fn harts_start_idle() {
    let mut cpus = Processors::new();
    for h in 0..MAX_CPU_NUM {
        assert_eq!(cpus.index(h).current(), None);
        assert_eq!(cpus.index(h).noff, 0);
    }
    let mut cpu = cpus.take(1);
    cpu.set_current(Some(5));
    assert_eq!(cpu.take_current(), Some(5));
    assert_eq!(cpu.take_current(), None);
    cpu.set_current(Some(6));
    cpus.set(1, cpu);
    assert_eq!(cpus.index(1).current(), Some(6));
    assert!(should_idle(0) && should_idle(1) && !should_idle(2));
}

#[test]
fn schedule_requeues_the_running_process() {
    let mut kernel = boot(false);
    scheduler(&mut kernel, 0);
    let mut cpu = kernel.take_cpu(0);
    push_off(&mut cpu);
    kernel.put_cpu(0, cpu);
    schedule(&mut kernel, 0);
    assert_eq!(status(&kernel, 0), TaskStatus::Ready);
    assert_eq!(kernel.task_manager.len(), 1);
    assert_eq!(take_current_task(&mut kernel, 0), None);
}

#[test]
fn ready_queue_is_first_in_first_out() {
    let mut q = TaskManager::new();
    assert_eq!(q.fetch(), None);
    q.add(3);
    add_task(&mut q, 1);
    q.add(2);
    assert_eq!(q.len(), 3);
    assert_eq!(fetch_task(&mut q), Some(3));
    assert_eq!(q.fetch(), Some(1));
    assert_eq!(q.fetch(), Some(2));
    assert_eq!(q.fetch(), None);
}

#[test]
fn identifiers_are_recycled() {
    let mut pids = PidAllocator::new();
    assert_eq!(pid_alloc(&mut pids).unwrap().0, 0);
    assert_eq!(pids.allocate().unwrap().0, 1);
    assert_eq!(pids.allocate().unwrap().0, 2);
    pids.dealloc(1);
    pids.dealloc(0);
    assert_eq!(pids.allocate().unwrap().0, 0);
    assert_eq!(pids.allocate().unwrap().0, 1);
    assert_eq!(pids.allocate().unwrap().0, 3);
}

#[test]
fn kernel_stacks_lie_below_the_trampoline() {
    // A guard page lies above each stack: below the trampoline, and
    // between any two stacks.
    assert_eq!(kernel_stack_position(0), (TRAMPOLINE - 0x3000, TRAMPOLINE - 0x1000));
    assert_eq!(kernel_stack_position(1), (TRAMPOLINE - 0x6000, TRAMPOLINE - 0x4000));
    assert_eq!(
        kernel_stack_position(PID_LIMIT - 1),
        (
            TRAMPOLINE - 0x1000 - (PID_LIMIT as u64 - 1) * 0x3000 - 0x2000,
            TRAMPOLINE - 0x1000 - (PID_LIMIT as u64 - 1) * 0x3000
        )
    );
    let mut a = StackFrameAllocator::new();
    a.init(PhysPageNum(100), PhysPageNum(200));
    let mut ks = MemorySet::new_bare(&mut a).unwrap();
    let mut pids = PidAllocator::new();
    let first = pids.allocate().unwrap();
    let handle = pids.allocate().unwrap();
    assert_eq!((first.0, handle.0), (0, 1));
    let stack0 = KernelStack::new(&first, &mut ks, &mut a).unwrap();
    assert_eq!(stack0.get_top(), TRAMPOLINE - 0x1000);
    assert!(ks.translate(VirtPageNum(0x7ff_fffe)).is_none());
    assert!(ks.translate(VirtPageNum(0x7ff_fffd)).is_some());
    assert!(ks.translate(VirtPageNum(0x7ff_fffc)).is_some());
    assert!(ks.translate(VirtPageNum(0x7ff_fffb)).is_none());
    let stack = KernelStack::new(&handle, &mut ks, &mut a).unwrap();
    assert_eq!(stack.get_top(), TRAMPOLINE - 0x4000);
    let low = ks.translate(VirtPageNum(0x7ff_fff9)).unwrap();
    assert_eq!(low.flags().bits(), 0b111);
    assert!(ks.translate(VirtPageNum(0x7ff_fffa)).is_some());
    assert!(ks.translate(VirtPageNum(0x7ff_fffb)).is_none());
    assert!(ks.translate(VirtPageNum(0x7ff_fff8)).is_none());
    assert_eq!(a.available(), 93);
    stack.release(&mut ks, &mut a);
    assert!(ks.translate(VirtPageNum(0x7ff_fff9)).is_none());
    assert_eq!(a.available(), 95);
}

#[test]
fn contexts_start_clean() {
    let zero = TaskContext::zero_init();
    assert_eq!((zero.ra, zero.sp, zero.regs), (0, 0, [0; 12]));
    let forked = TaskContext::goto_forkret(0x9000, 0x8020_4000);
    assert_eq!((forked.ra, forked.sp, forked.regs), (0x8020_4000, 0x9000, [0; 12]));
    let loaded = TaskContext::goto_trap_return(0x7000, 0x8020_3000);
    assert_eq!((loaded.ra, loaded.sp), (0x8020_3000, 0x7000));
    let mut cx = TrapContext::app_init_context(0x10000, 0x2000, 7, 8, 9, 0x1ff);
    assert_eq!(cx.sepc, 0x10000);
    assert_eq!(cx.regs[2], 0x2000);
    assert_eq!(cx.sstatus, 0xff);
    assert_eq!((cx.kernel_satp, cx.kernel_sp, cx.trap_handler), (7, 8, 9));
    cx.set_sp(0x3000);
    cx.set_reg(10, 5);
    assert_eq!((cx.regs[2], cx.regs[10]), (0x3000, 5));
}

/// A kernel whose image ends at `ekernel`, with the first process running on hart 0.
fn boot_with(ekernel: u64) -> Kernel {
    let mut l = layout();
    l.ekernel = ekernel;
    let mut kernel = Kernel::new(l, entries(), apps(), false).unwrap();
    init(&mut kernel, SSTATUS).unwrap();
    scheduler(&mut kernel, 0);
    kernel
}

/// A kernel as `boot_with` makes it, with exactly `spare` free frames.
fn boot_with_spare(spare: usize) -> Kernel {
    let probe = boot_with(0x87f0_0000);
    let had = free(&probe);
    assert!(had > spare);
    let kernel = boot_with(0x87f0_0000 + ((had - spare) as u64) * 4096);
    assert_eq!(free(&kernel), spare);
    kernel
}

#[test]
fn program_takes_exactly_its_frames() {
    // Root and two directories for the trampoline; two directories and four
    // pages for the segments; two pages of stack and the trap context.
    let mut a = StackFrameAllocator::new();
    a.init(PhysPageNum(100), PhysPageNum(112));
    assert!(MemorySet::from_elf(&mut a, &init_image(), 0x8020_1000).is_ok());
    assert_eq!(a.available(), 0);
    let mut b = StackFrameAllocator::new();
    b.init(PhysPageNum(100), PhysPageNum(111));
    assert!(matches!(
        MemorySet::from_elf(&mut b, &init_image(), 0x8020_1000),
        Err(LoadError::OutOfFrames)
    ));
}

#[test]
fn fork_fails_exactly_below_its_demand() {
    // Two pages of kernel stack and the twelve frames of the copy.
    let mut enough = boot_with_spare(14);
    assert_eq!(sys_fork(&mut enough, 0), Ok(1));
    assert_eq!(free(&enough), 0);
    let mut short = boot_with_spare(13);
    assert_eq!(sys_fork(&mut short, 0), Err(KernelError::OutOfFrames));
}

#[test]
fn exec_fails_exactly_below_its_demand() {
    // The new address space is built before the old one is given up.
    let mut enough = boot_with_spare(9);
    assert_eq!(sys_exec(&mut enough, 0, 0x12010, SSTATUS), Ok(0));
    assert_eq!(free(&enough), 12);
    let mut short = boot_with_spare(8);
    assert_eq!(sys_exec(&mut short, 0, 0x12010, SSTATUS), Err(KernelError::OutOfFrames));
}

#[test]
fn heap_growth_fails_exactly_below_its_demand() {
    let mut enough = boot_with_spare(3);
    assert_eq!(sys_sbrk(&mut enough, 0, 3 * 4096), Ok(0x14000));
    assert_eq!(free(&enough), 0);
    assert_eq!(sys_sbrk(&mut enough, 0, -4096), Ok(0x17000));
    assert_eq!(free(&enough), 1);
    assert_eq!(sys_sbrk(&mut enough, 0, 4096), Ok(0x16000));
    assert_eq!(free(&enough), 0);
    assert_eq!(sys_sbrk(&mut enough, 0, 1), Err(KernelError::OutOfFrames));
    let mut short = boot_with_spare(2);
    assert_eq!(sys_sbrk(&mut short, 0, 2 * 4096 + 1), Err(KernelError::OutOfFrames));
}

#[test]
fn boot_takes_exactly_the_kernel_tables() {
    // Root, two directories for the trampoline, one upper directory, one
    // leaf directory for the image and four for the memory behind it.
    let kernel = Kernel::new(layout(), entries(), apps(), false).unwrap();
    assert_eq!(free(&kernel), (0x88000 - 0x87900) - 9);
    // With the memory behind the image in one leaf directory, six in all.
    let mut l = layout();
    l.ekernel = 0x8800_0000 - 6 * 4096;
    let least = Kernel::new(l, entries(), apps(), false).unwrap();
    assert_eq!(free(&least), 0);
    l.ekernel = 0x8800_0000 - 5 * 4096;
    assert!(matches!(Kernel::new(l, entries(), apps(), false), Err(KernelError::OutOfFrames)));
}

#[test]
fn memory_test_leaves_the_kernel_ready_for_the_first_process() {
    let mut kernel = Kernel::new(layout(), entries(), apps(), false).unwrap();
    let before = free(&kernel);
    assert!(kernel.test_memory());
    assert_eq!(free(&kernel), before);
    assert!(kernel.kernel_space.translate(VirtPageNum(0x7ff_fffd)).is_none());
    init(&mut kernel, SSTATUS).unwrap();
    assert_eq!(scheduler(&mut kernel, 0), Some(0));
    assert_eq!(status(&kernel, 0), TaskStatus::Running);
}

#[test]
fn identifiers_come_in_order_and_come_back_newest_first() {
    let mut pids = PidAllocator::new();
    let a = pids.allocate().unwrap();
    let b = pids.allocate().unwrap();
    let c = pid_alloc(&mut pids).unwrap();
    assert_eq!((a.0, b.0, c.0), (0, 1, 2));
    pids.dealloc(a.0);
    pids.dealloc(c.0);
    assert_eq!(pids.allocate().unwrap().0, 2);
    assert_eq!(pids.allocate().unwrap().0, 0);
    assert_eq!(pids.allocate().unwrap().0, 3);
}
