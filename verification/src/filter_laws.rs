//! What the kernel makes of the seccomp programs, call by call.

use vstd::prelude::*;

use crate::seccomp::{
    blocked_calls, bytes_hold_the_program, filter, filter_decides_every_call, instruction_at,
    program_bytes, proxied_calls, run, Architecture, FilterInstruction, SyscallNumbers, SystemCall,
};

verus! {

/// A number of two bytes, the low one first.
pub open spec fn half_at(bytes: Seq<u8>, at: int) -> int {
    bytes[at] + 256 * bytes[at + 1]
}

/// A number of four bytes, the low one first.
pub open spec fn word_at(bytes: Seq<u8>, at: int) -> int {
    bytes[at] + 0x100 * bytes[at + 1] + 0x1_0000 * bytes[at + 2] + 0x100_0000 * bytes[at + 3]
}

/// What the kernel makes of a program, from the instruction at index `pc` on: it loads a
/// word of the call, branches on the loaded word, or returns. None where it would refuse
/// the program.
pub open spec fn kernel_verdict(bytes: Seq<u8>, call: SystemCall, pc: int, loaded: u32) -> Option<
    int,
>
    decreases
        if 8 * pc < bytes.len() {
            bytes.len() - 8 * pc
        } else {
            0
        },
{
    if pc < 0 || 8 * pc + 8 > bytes.len() {
        None
    } else {
        let at = 8 * pc;
        let code = half_at(bytes, at);
        let value = word_at(bytes, at + 4);
        if code == 0x06 {
            Some(value)
        } else if code == 0x20 {
            if value == 0 {
                kernel_verdict(bytes, call, pc + 1, call.number)
            } else if value == 4 {
                kernel_verdict(bytes, call, pc + 1, call.arch)
            } else if value == 16 {
                kernel_verdict(bytes, call, pc + 1, call.first_argument)
            } else {
                None
            }
        } else if code == 0x15 {
            if loaded == value {
                kernel_verdict(bytes, call, pc + 1 + bytes[at + 2], loaded)
            } else {
                kernel_verdict(bytes, call, pc + 1 + bytes[at + 3], loaded)
            }
        } else if code == 0x35 {
            if loaded >= value {
                kernel_verdict(bytes, call, pc + 1 + bytes[at + 2], loaded)
            } else {
                kernel_verdict(bytes, call, pc + 1 + bytes[at + 3], loaded)
            }
        } else {
            None
        }
    }
}

proof fn lemma_kernel_runs(
    program: Seq<FilterInstruction>,
    call: SystemCall,
    pc: int,
    loaded: u32,
)
    ensures
        run(program, call, pc, loaded) is Some ==> kernel_verdict(
            program_bytes(program),
            call,
            pc,
            loaded,
        ) == Some(run(program, call, pc, loaded)->0 as int),
    decreases
        if pc < program.len() {
            program.len() - pc
        } else {
            0
        },
{
    let bytes = program_bytes(program);
    bytes_hold_the_program(program);
    if 0 <= pc < program.len() {
        let at = 8 * pc;
        let instruction = program[pc];
        assert(instruction == instruction_at(bytes, at));
        assert(half_at(bytes, at) == instruction.code);
        assert(word_at(bytes, at + 4) == instruction.value);
        if instruction.code == 0x20 {
            if let Some(word) = call.word(instruction.value) {
                lemma_kernel_runs(program, call, pc + 1, word);
            }
        } else if instruction.code == 0x15 || instruction.code == 0x35 {
            lemma_kernel_runs(program, call, pc + 1 + instruction.jump_true, loaded);
            lemma_kernel_runs(program, call, pc + 1 + instruction.jump_false, loaded);
        }
    }
}

/// The number of an architecture in the kernel's audit interface.
pub open spec fn is_made_on(arch: Architecture, call: SystemCall) -> bool {
    call.arch == match arch {
        Architecture::X86_64 => 0xc000_003eu32,
        Architecture::Aarch64 => 0xc000_00b7u32,
    }
}

/// Whether a call is one of a second table of the architecture.
pub open spec fn is_of_second_table(arch: Architecture, call: SystemCall) -> bool {
    arch == Architecture::X86_64 && call.number >= 0x4000_0000
}

/// Whether a call reaches into other processes, or hands work to the kernel past its
/// filter.
pub open spec fn reaches_out(syscalls: SyscallNumbers, number: u32) -> bool {
    ||| number == syscalls.ptrace
    ||| number == syscalls.process_vm_readv
    ||| number == syscalls.process_vm_writev
    ||| number == syscalls.io_uring_setup
    ||| number == syscalls.io_uring_enter
    ||| number == syscalls.io_uring_register
}

/// Whether a call lets others connect.
pub open spec fn lets_connect(syscalls: SyscallNumbers, number: u32) -> bool {
    ||| number == syscalls.bind
    ||| number == syscalls.listen
    ||| number == syscalls.accept
    ||| number == syscalls.accept4
}

/// Whether a call uses a socket otherwise.
pub open spec fn uses_socket(syscalls: SyscallNumbers, number: u32) -> bool {
    ||| number == syscalls.connect
    ||| number == syscalls.getpeername
    ||| number == syscalls.getsockname
    ||| number == syscalls.shutdown
    ||| number == syscalls.sendto
    ||| number == syscalls.sendmmsg
    ||| number == syscalls.recvmmsg
    ||| number == syscalls.getsockopt
    ||| number == syscalls.setsockopt
}

/// Whether a call makes a socket.
pub open spec fn makes_socket(syscalls: SyscallNumbers, number: u32) -> bool {
    number == syscalls.socket || number == syscalls.socketpair
}

proof fn lemma_lists(syscalls: SyscallNumbers, number: u32)
    ensures
        syscalls.process_calls().contains(number) <==> reaches_out(syscalls, number),
        syscalls.binding_calls().contains(number) <==> lets_connect(syscalls, number),
        syscalls.network_calls().contains(number) <==> lets_connect(syscalls, number)
            || uses_socket(syscalls, number),
        syscalls.socket_calls().contains(number) <==> makes_socket(syscalls, number),
{
    let p = syscalls.process_calls();
    assert(p[0] == syscalls.ptrace && p[1] == syscalls.process_vm_readv && p[2]
        == syscalls.process_vm_writev && p[3] == syscalls.io_uring_setup && p[4]
        == syscalls.io_uring_enter && p[5] == syscalls.io_uring_register);
    let b = syscalls.binding_calls();
    assert(b[0] == syscalls.accept && b[1] == syscalls.accept4 && b[2] == syscalls.bind && b[3]
        == syscalls.listen);
    let n = syscalls.network_calls();
    assert(n[0] == syscalls.connect && n[1] == syscalls.accept && n[2] == syscalls.accept4 && n[3]
        == syscalls.bind && n[4] == syscalls.listen && n[5] == syscalls.getpeername && n[6]
        == syscalls.getsockname && n[7] == syscalls.shutdown && n[8] == syscalls.sendto && n[9]
        == syscalls.sendmmsg && n[10] == syscalls.recvmmsg && n[11] == syscalls.getsockopt && n[12]
        == syscalls.setsockopt);
    let s = syscalls.socket_calls();
    assert(s[0] == syscalls.socket && s[1] == syscalls.socketpair);
}

proof fn lemma_both(a: Seq<u32>, b: Seq<u32>, number: u32)
    ensures
        (a + b).contains(number) <==> a.contains(number) || b.contains(number),
{
    let all = a + b;
    if a.contains(number) {
        let i = choose|i: int| 0 <= i < a.len() && a[i] == number;
        assert(all[i] == number);
    }
    if b.contains(number) {
        let i = choose|i: int| 0 <= i < b.len() && b[i] == number;
        assert(all[a.len() + i] == number);
    }
    if all.contains(number) {
        let i = choose|i: int| 0 <= i < all.len() && all[i] == number;
        if i < a.len() {
            assert(a[i] == number);
        } else {
            assert(b[i - a.len()] == number);
        }
    }
}

/// A command without network is killed for a call of another architecture; is denied
/// every call that reaches into other processes or uses a socket, and every socket but a
/// local one; and may make any other call. The kernel reads this from the bytes of its
/// program.
pub proof fn blocked_commands_have_no_network(
    arch: Architecture,
    syscalls: SyscallNumbers,
    call: SystemCall,
)
    ensures
        kernel_verdict(
            program_bytes(filter(arch, blocked_calls(syscalls), syscalls.socket_calls(), true)),
            call,
            0,
            0,
        ) == Some(
            if !is_made_on(arch, call) {
                0x8000_0000int
            } else if is_of_second_table(arch, call) || reaches_out(syscalls, call.number)
                || lets_connect(syscalls, call.number) || uses_socket(syscalls, call.number) || (
            makes_socket(syscalls, call.number) && call.first_argument != 1) {
                0x0005_0001int
            } else {
                0x7fff_0000int
            },
        ),
{
    let program = filter(arch, blocked_calls(syscalls), syscalls.socket_calls(), true);
    filter_decides_every_call(arch, blocked_calls(syscalls), syscalls.socket_calls(), true, call);
    lemma_kernel_runs(program, call, 0, 0);
    lemma_lists(syscalls, call.number);
    lemma_both(syscalls.process_calls(), syscalls.network_calls(), call.number);
}

/// A command with an isolated network is killed for a call of another architecture; is
/// denied every call that reaches into other processes, every local socket, and every
/// call that lets others connect unless this is allowed; and may make any other call.
pub proof fn proxied_commands_use_their_network_alone(
    arch: Architecture,
    syscalls: SyscallNumbers,
    allow_local_binding: bool,
    call: SystemCall,
)
    ensures
        kernel_verdict(
            program_bytes(
                filter(
                    arch,
                    proxied_calls(syscalls, allow_local_binding),
                    syscalls.socket_calls(),
                    false,
                ),
            ),
            call,
            0,
            0,
        ) == Some(
            if !is_made_on(arch, call) {
                0x8000_0000int
            } else if is_of_second_table(arch, call) || reaches_out(syscalls, call.number) || (
            !allow_local_binding && lets_connect(syscalls, call.number)) || (makes_socket(
                syscalls,
                call.number,
            ) && call.first_argument == 1) {
                0x0005_0001int
            } else {
                0x7fff_0000int
            },
        ),
{
    let denied = proxied_calls(syscalls, allow_local_binding);
    let program = filter(arch, denied, syscalls.socket_calls(), false);
    filter_decides_every_call(arch, denied, syscalls.socket_calls(), false, call);
    lemma_kernel_runs(program, call, 0, 0);
    lemma_lists(syscalls, call.number);
    lemma_both(syscalls.process_calls(), syscalls.binding_calls(), call.number);
}

} // verus!
