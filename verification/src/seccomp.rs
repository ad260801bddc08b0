//! Seccomp filters for sandboxed Linux commands: the programs, what they mean,
//! and the proof that each program decides every system call as intended.

use vstd::prelude::*;

verus! {

pub const BPF_LD_W_ABS: u16 = 0x20;
pub const BPF_JMP_JEQ_K: u16 = 0x15;
pub const BPF_JMP_JGE_K: u16 = 0x35;
pub const BPF_RET_K: u16 = 0x06;
pub const SECCOMP_RET_KILL_PROCESS: u32 = 0x8000_0000;
pub const SECCOMP_RET_ERRNO: u32 = 0x0005_0000;
pub const SECCOMP_RET_ALLOW: u32 = 0x7fff_0000;
pub const SECCOMP_DATA_ARCH_OFFSET: u32 = 4;
pub const SECCOMP_DATA_ARGS_OFFSET: u32 = 16;

/// `SECCOMP_RET_ERRNO` carrying `EPERM`, which is 1 on every Linux architecture.
pub const DENY_WITH_EPERM: u32 = 0x0005_0001;

/// The `AF_UNIX` address family, which is 1 on every Linux architecture.
pub const AF_UNIX: u32 = 1;

/// First number of the x32 system call table, which shares the x86_64 audit
/// architecture.
pub const X32_FIRST_SYSCALL: u32 = 0x4000_0000;

/// An architecture that the filters know.
#[derive(Clone, Copy, Debug, PartialEq, Eq, Structural)]
pub enum Architecture {
    X86_64,
    Aarch64,
}

impl Architecture {
    /// The architecture's number in the kernel's audit interface.
    pub open spec fn audit_number(self) -> u32 {
        match self {
            Architecture::X86_64 => 0xc000_003e,
            Architecture::Aarch64 => 0xc000_00b7,
        }
    }

    /// The architecture's number in the kernel's audit interface.
    pub fn audit_arch(self) -> (number: u32)
        ensures
            number == self.audit_number(),
    {
        match self {
            Architecture::X86_64 => 0xc000_003e,
            Architecture::Aarch64 => 0xc000_00b7,
        }
    }
}

/// The native numbers of the system calls that the filters speak of.
#[derive(Clone, Copy, Debug, PartialEq, Eq, Structural)]
pub struct SyscallNumbers {
    pub ptrace: u32,
    pub process_vm_readv: u32,
    pub process_vm_writev: u32,
    pub io_uring_setup: u32,
    pub io_uring_enter: u32,
    pub io_uring_register: u32,
    pub connect: u32,
    pub accept: u32,
    pub accept4: u32,
    pub bind: u32,
    pub listen: u32,
    pub getpeername: u32,
    pub getsockname: u32,
    pub shutdown: u32,
    pub sendto: u32,
    pub sendmmsg: u32,
    pub recvmmsg: u32,
    pub getsockopt: u32,
    pub setsockopt: u32,
    pub socket: u32,
    pub socketpair: u32,
}

impl SyscallNumbers {
    /// Calls that no sandboxed command may make: they reach into other
    /// processes or submit work outside the filter.
    pub open spec fn process_calls(self) -> Seq<u32> {
        seq![
            self.ptrace,
            self.process_vm_readv,
            self.process_vm_writev,
            self.io_uring_setup,
            self.io_uring_enter,
            self.io_uring_register,
        ]
    }

    /// Calls that use a socket in ways a command without network may not.
    pub open spec fn network_calls(self) -> Seq<u32> {
        seq![
            self.connect,
            self.accept,
            self.accept4,
            self.bind,
            self.listen,
            self.getpeername,
            self.getsockname,
            self.shutdown,
            self.sendto,
            self.sendmmsg,
            self.recvmmsg,
            self.getsockopt,
            self.setsockopt,
        ]
    }

    /// Calls that accept connections.
    pub open spec fn binding_calls(self) -> Seq<u32> {
        seq![self.accept, self.accept4, self.bind, self.listen]
    }

    /// Calls that make a socket.
    pub open spec fn socket_calls(self) -> Seq<u32> {
        seq![self.socket, self.socketpair]
    }

    fn process_call_list(&self) -> (calls: Vec<u32>)
        ensures
            calls@ == self.process_calls(),
    {
        vec![
            self.ptrace,
            self.process_vm_readv,
            self.process_vm_writev,
            self.io_uring_setup,
            self.io_uring_enter,
            self.io_uring_register,
        ]
    }

    fn network_call_list(&self) -> (calls: Vec<u32>)
        ensures
            calls@ == self.network_calls(),
    {
        vec![
            self.connect,
            self.accept,
            self.accept4,
            self.bind,
            self.listen,
            self.getpeername,
            self.getsockname,
            self.shutdown,
            self.sendto,
            self.sendmmsg,
            self.recvmmsg,
            self.getsockopt,
            self.setsockopt,
        ]
    }
}

/// One classic BPF instruction.
#[derive(Clone, Copy, Debug, PartialEq, Eq, Structural)]
pub struct FilterInstruction {
    pub code: u16,
    pub jump_true: u8,
    pub jump_false: u8,
    pub value: u32,
}

/// What a filter can read of a system call: its number, the audit number of
/// the architecture it was made on, and the low word of its first argument.
pub struct SystemCall {
    pub number: u32,
    pub arch: u32,
    pub first_argument: u32,
}

impl SystemCall {
    /// The word at `offset` of the kernel's `seccomp_data`.
    pub open spec fn word(self, offset: u32) -> Option<u32> {
        if offset == 0 {
            Some(self.number)
        } else if offset == SECCOMP_DATA_ARCH_OFFSET {
            Some(self.arch)
        } else if offset == SECCOMP_DATA_ARGS_OFFSET {
            Some(self.first_argument)
        } else {
            None
        }
    }
}

/// The verdict that `program` gives on `call` when it is run from instruction
/// `pc` with `accumulator`, or `None` where the program is not one that these
/// filters are made of or runs off its end.
pub open spec fn run(
    program: Seq<FilterInstruction>,
    call: SystemCall,
    pc: int,
    accumulator: u32,
) -> Option<u32>
    decreases
        if pc < program.len() {
            program.len() - pc
        } else {
            0
        },
{
    if pc < 0 || pc >= program.len() {
        None
    } else {
        let instruction = program[pc];
        if instruction.code == BPF_RET_K {
            Some(instruction.value)
        } else if instruction.code == BPF_LD_W_ABS {
            match call.word(instruction.value) {
                Some(word) => run(program, call, pc + 1, word),
                None => None,
            }
        } else if instruction.code == BPF_JMP_JEQ_K {
            if accumulator == instruction.value {
                run(program, call, pc + 1 + instruction.jump_true, accumulator)
            } else {
                run(program, call, pc + 1 + instruction.jump_false, accumulator)
            }
        } else if instruction.code == BPF_JMP_JGE_K {
            if accumulator >= instruction.value {
                run(program, call, pc + 1 + instruction.jump_true, accumulator)
            } else {
                run(program, call, pc + 1 + instruction.jump_false, accumulator)
            }
        } else {
            None
        }
    }
}

/// An instruction that does not branch.
pub open spec fn plain(code: u16, value: u32) -> FilterInstruction {
    FilterInstruction { code, jump_true: 0, jump_false: 0, value }
}

/// An instruction that branches.
pub open spec fn branch(code: u16, value: u32, jump_true: u8, jump_false: u8) -> FilterInstruction {
    FilterInstruction { code, jump_true, jump_false, value }
}

/// Rejects calls made through another architecture's interface, and on x86_64
/// those of the x32 table, and leaves the call number in the accumulator.
pub open spec fn prologue(arch: Architecture) -> Seq<FilterInstruction> {
    let native = seq![
        plain(BPF_LD_W_ABS, SECCOMP_DATA_ARCH_OFFSET),
        branch(BPF_JMP_JEQ_K, arch.audit_number(), 1, 0),
        plain(BPF_RET_K, SECCOMP_RET_KILL_PROCESS),
        plain(BPF_LD_W_ABS, 0),
    ];
    match arch {
        Architecture::X86_64 => native + seq![
            branch(BPF_JMP_JGE_K, X32_FIRST_SYSCALL, 0, 1),
            plain(BPF_RET_K, DENY_WITH_EPERM),
        ],
        Architecture::Aarch64 => native,
    }
}

/// Denies each of `calls`.
pub open spec fn deny_calls(calls: Seq<u32>) -> Seq<FilterInstruction>
    decreases calls.len(),
{
    if calls.len() == 0 {
        Seq::empty()
    } else {
        deny_calls(calls.drop_last()) + seq![
            branch(BPF_JMP_JEQ_K, calls.last(), 0, 1),
            plain(BPF_RET_K, DENY_WITH_EPERM),
        ]
    }
}

/// Denies each of `calls` by its address family: every family but `AF_UNIX`
/// where `only_unix`, and `AF_UNIX` alone otherwise.
pub open spec fn deny_families(calls: Seq<u32>, only_unix: bool) -> Seq<FilterInstruction>
    decreases calls.len(),
{
    if calls.len() == 0 {
        Seq::empty()
    } else {
        deny_families(calls.drop_last(), only_unix) + seq![
            branch(BPF_JMP_JEQ_K, calls.last(), 0, 3),
            plain(BPF_LD_W_ABS, SECCOMP_DATA_ARGS_OFFSET),
            if only_unix {
                branch(BPF_JMP_JEQ_K, AF_UNIX, 1, 0)
            } else {
                branch(BPF_JMP_JEQ_K, AF_UNIX, 0, 1)
            },
            plain(BPF_RET_K, DENY_WITH_EPERM),
            plain(BPF_LD_W_ABS, 0),
        ]
    }
}

/// A whole filter: the prologue, the denied calls, the calls denied by address
/// family, and permission for everything else.
pub open spec fn filter(
    arch: Architecture,
    denied: Seq<u32>,
    sockets: Seq<u32>,
    only_unix: bool,
) -> Seq<FilterInstruction> {
    prologue(arch) + deny_calls(denied) + deny_families(sockets, only_unix) + seq![
        plain(BPF_RET_K, SECCOMP_RET_ALLOW),
    ]
}

/// Calls that a command without network may not make.
pub open spec fn blocked_calls(syscalls: SyscallNumbers) -> Seq<u32> {
    syscalls.process_calls() + syscalls.network_calls()
}

/// Calls that a command with an isolated network may not make.
pub open spec fn proxied_calls(syscalls: SyscallNumbers, allow_local_binding: bool) -> Seq<u32> {
    if allow_local_binding {
        syscalls.process_calls()
    } else {
        syscalls.process_calls() + syscalls.binding_calls()
    }
}

/// What a filter is to decide of `call`.
pub open spec fn verdict(
    arch: Architecture,
    denied: Seq<u32>,
    sockets: Seq<u32>,
    only_unix: bool,
    call: SystemCall,
) -> u32 {
    if call.arch != arch.audit_number() {
        SECCOMP_RET_KILL_PROCESS
    } else if arch == Architecture::X86_64 && call.number >= X32_FIRST_SYSCALL {
        DENY_WITH_EPERM
    } else if denied.contains(call.number) {
        DENY_WITH_EPERM
    } else if sockets.contains(call.number) && (call.first_argument == AF_UNIX) != only_unix {
        DENY_WITH_EPERM
    } else {
        SECCOMP_RET_ALLOW
    }
}

/// Whether `part` stands in `program` from instruction `at` on.
spec fn placed(
    program: Seq<FilterInstruction>,
    part: Seq<FilterInstruction>,
    at: int,
) -> bool {
    &&& 0 <= at
    &&& at + part.len() <= program.len()
    &&& program.subrange(at, at + part.len()) == part
}

proof fn lemma_placed_at(
    program: Seq<FilterInstruction>,
    part: Seq<FilterInstruction>,
    at: int,
    i: int,
)
    requires
        placed(program, part, at),
        0 <= i < part.len(),
    ensures
        program[at + i] == part[i],
{
    assert(program.subrange(at, at + part.len())[i] == program[at + i]);
}

proof fn lemma_placed_parts(
    program: Seq<FilterInstruction>,
    first: Seq<FilterInstruction>,
    second: Seq<FilterInstruction>,
    at: int,
)
    requires
        placed(program, first + second, at),
    ensures
        placed(program, first, at),
        placed(program, second, at + first.len()),
{
    let whole = first + second;
    assert(program.subrange(at, at + first.len()) =~= first) by {
        assert forall|i: int| 0 <= i < first.len() implies program[at + i] == first[i] by {
            lemma_placed_at(program, whole, at, i);
        }
    }
    let next = at + first.len();
    assert(program.subrange(next, next + second.len()) =~= second) by {
        assert forall|i: int| 0 <= i < second.len() implies program[next + i] == second[i] by {
            lemma_placed_at(program, whole, at, first.len() + i);
        }
    }
}

proof fn lemma_run_prologue(program: Seq<FilterInstruction>, arch: Architecture, call: SystemCall)
    requires
        placed(program, prologue(arch), 0),
    ensures
        run(program, call, 0, 0) == (if call.arch != arch.audit_number() {
            Some(SECCOMP_RET_KILL_PROCESS)
        } else if arch == Architecture::X86_64 && call.number >= X32_FIRST_SYSCALL {
            Some(DENY_WITH_EPERM)
        } else {
            run(program, call, prologue(arch).len() as int, call.number)
        }),
{
    let part = prologue(arch);
    assert(program[0] == part[0]) by {
        lemma_placed_at(program, part, 0, 0);
    }
    assert(program[1] == part[1]) by {
        lemma_placed_at(program, part, 0, 1);
    }
    assert(program[2] == part[2]) by {
        lemma_placed_at(program, part, 0, 2);
    }
    assert(program[3] == part[3]) by {
        lemma_placed_at(program, part, 0, 3);
    }
    if arch == Architecture::X86_64 {
        assert(program[4] == part[4]) by {
            lemma_placed_at(program, part, 0, 4);
        }
        assert(program[5] == part[5]) by {
            lemma_placed_at(program, part, 0, 5);
        }
    }
    reveal_with_fuel(run, 6);
}

proof fn lemma_contains_last(calls: Seq<u32>, number: u32)
    requires
        calls.len() > 0,
    ensures
        calls.contains(number) == (calls.drop_last().contains(number) || calls.last() == number),
{
    if calls.drop_last().contains(number) {
        let i = choose|i: int| 0 <= i < calls.drop_last().len() && calls.drop_last()[i] == number;
        assert(calls[i] == number);
    }
    if calls.last() == number {
        assert(calls[calls.len() - 1] == number);
    }
    if calls.contains(number) && calls.last() != number {
        let i = choose|i: int| 0 <= i < calls.len() && calls[i] == number;
        assert(calls.drop_last()[i] == number);
    }
}

proof fn lemma_run_deny_calls(
    program: Seq<FilterInstruction>,
    calls: Seq<u32>,
    call: SystemCall,
    at: int,
)
    requires
        placed(program, deny_calls(calls), at),
    ensures
        run(program, call, at, call.number) == (if calls.contains(call.number) {
            Some(DENY_WITH_EPERM)
        } else {
            run(program, call, at + deny_calls(calls).len(), call.number)
        }),
    decreases calls.len(),
{
    if calls.len() > 0 {
        let head = deny_calls(calls.drop_last());
        let tail = seq![
            branch(BPF_JMP_JEQ_K, calls.last(), 0, 1),
            plain(BPF_RET_K, DENY_WITH_EPERM),
        ];
        lemma_placed_parts(program, head, tail, at);
        lemma_run_deny_calls(program, calls.drop_last(), call, at);
        let next = at + head.len();
        lemma_placed_at(program, tail, next, 0);
        lemma_placed_at(program, tail, next, 1);
        lemma_contains_last(calls, call.number);
        reveal_with_fuel(run, 3);
    }
}

proof fn lemma_run_family(
    program: Seq<FilterInstruction>,
    number: u32,
    only_unix: bool,
    call: SystemCall,
    at: int,
)
    requires
        placed(
            program,
            seq![
                branch(BPF_JMP_JEQ_K, number, 0, 3),
                plain(BPF_LD_W_ABS, SECCOMP_DATA_ARGS_OFFSET),
                if only_unix {
                    branch(BPF_JMP_JEQ_K, AF_UNIX, 1, 0)
                } else {
                    branch(BPF_JMP_JEQ_K, AF_UNIX, 0, 1)
                },
                plain(BPF_RET_K, DENY_WITH_EPERM),
                plain(BPF_LD_W_ABS, 0),
            ],
            at,
        ),
    ensures
        run(program, call, at, call.number) == (if number == call.number && (call.first_argument
            == AF_UNIX) != only_unix {
            Some(DENY_WITH_EPERM)
        } else {
            run(program, call, at + 5, call.number)
        }),
{
    let part = seq![
        branch(BPF_JMP_JEQ_K, number, 0, 3),
        plain(BPF_LD_W_ABS, SECCOMP_DATA_ARGS_OFFSET),
        if only_unix {
            branch(BPF_JMP_JEQ_K, AF_UNIX, 1, 0)
        } else {
            branch(BPF_JMP_JEQ_K, AF_UNIX, 0, 1)
        },
        plain(BPF_RET_K, DENY_WITH_EPERM),
        plain(BPF_LD_W_ABS, 0),
    ];
    lemma_placed_at(program, part, at, 0);
    lemma_placed_at(program, part, at, 1);
    lemma_placed_at(program, part, at, 2);
    lemma_placed_at(program, part, at, 3);
    lemma_placed_at(program, part, at, 4);
    let family = call.first_argument;
    let after = run(program, call, at + 5, call.number);
    assert(run(program, call, at + 4, family) == after);
    assert(run(program, call, at + 3, family) == Some(DENY_WITH_EPERM));
    if call.number == number {
        assert(run(program, call, at + 2, family) == if (family == AF_UNIX) != only_unix {
            Some(DENY_WITH_EPERM)
        } else {
            after
        });
        assert(run(program, call, at + 1, call.number) == run(program, call, at + 2, family));
        assert(run(program, call, at, call.number) == run(program, call, at + 1, call.number));
    } else {
        assert(run(program, call, at + 4, call.number) == after);
        assert(run(program, call, at, call.number) == run(program, call, at + 4, call.number));
    }
}

proof fn lemma_run_deny_families(
    program: Seq<FilterInstruction>,
    calls: Seq<u32>,
    only_unix: bool,
    call: SystemCall,
    at: int,
)
    requires
        placed(program, deny_families(calls, only_unix), at),
    ensures
        run(program, call, at, call.number) == (if calls.contains(call.number) && (
        call.first_argument == AF_UNIX) != only_unix {
            Some(DENY_WITH_EPERM)
        } else {
            run(program, call, at + deny_families(calls, only_unix).len(), call.number)
        }),
    decreases calls.len(),
{
    if calls.len() > 0 {
        let head = deny_families(calls.drop_last(), only_unix);
        let tail = seq![
            branch(BPF_JMP_JEQ_K, calls.last(), 0, 3),
            plain(BPF_LD_W_ABS, SECCOMP_DATA_ARGS_OFFSET),
            if only_unix {
                branch(BPF_JMP_JEQ_K, AF_UNIX, 1, 0)
            } else {
                branch(BPF_JMP_JEQ_K, AF_UNIX, 0, 1)
            },
            plain(BPF_RET_K, DENY_WITH_EPERM),
            plain(BPF_LD_W_ABS, 0),
        ];
        lemma_placed_parts(program, head, tail, at);
        lemma_run_deny_families(program, calls.drop_last(), only_unix, call, at);
        lemma_contains_last(calls, call.number);
        lemma_run_family(program, calls.last(), only_unix, call, at + head.len());
    }
}

/// Every filter decides every system call: it ends in exactly the verdict that
/// its lists of calls ask for, on any architecture's numbers.
pub proof fn filter_decides_every_call(
    arch: Architecture,
    denied: Seq<u32>,
    sockets: Seq<u32>,
    only_unix: bool,
    call: SystemCall,
)
    ensures
        run(filter(arch, denied, sockets, only_unix), call, 0, 0) == Some(
            verdict(arch, denied, sockets, only_unix, call),
        ),
{
    let program = filter(arch, denied, sockets, only_unix);
    let a = prologue(arch);
    let b = deny_calls(denied);
    let c = deny_families(sockets, only_unix);
    let d = seq![plain(BPF_RET_K, SECCOMP_RET_ALLOW)];
    assert(program.subrange(0, program.len() as int) =~= program);
    lemma_placed_parts(program, a + b + c, d, 0);
    lemma_placed_parts(program, a + b, c, 0);
    lemma_placed_parts(program, a, b, 0);
    lemma_run_prologue(program, arch, call);
    lemma_run_deny_calls(program, denied, call, a.len() as int);
    lemma_run_deny_families(program, sockets, only_unix, call, (a + b).len() as int);
    lemma_placed_at(program, d, (a + b + c).len() as int, 0);
}

/// An instruction that does not branch.
pub fn statement(code: u16, value: u32) -> (instruction: FilterInstruction)
    ensures
        instruction == plain(code, value),
{
    FilterInstruction { code, jump_true: 0, jump_false: 0, value }
}

/// A branch on whether the accumulator equals `value`.
pub fn jump(value: u32, jump_true: u8, jump_false: u8) -> (instruction: FilterInstruction)
    ensures
        instruction == branch(BPF_JMP_JEQ_K, value, jump_true, jump_false),
{
    FilterInstruction { code: BPF_JMP_JEQ_K, jump_true, jump_false, value }
}

/// A branch on whether the accumulator is at least `value`.
pub fn jump_greater_or_equal(value: u32, jump_true: u8, jump_false: u8) -> (instruction:
    FilterInstruction)
    ensures
        instruction == branch(BPF_JMP_JGE_K, value, jump_true, jump_false),
{
    FilterInstruction { code: BPF_JMP_JGE_K, jump_true, jump_false, value }
}

fn push_deny_calls(program: &mut Vec<FilterInstruction>, calls: &Vec<u32>)
    ensures
        final(program)@ == old(program)@ + deny_calls(calls@),
{
    let mut i: usize = 0;
    assert(deny_calls(calls@.take(0)) =~= Seq::empty());
    assert(program@ =~= old(program)@ + deny_calls(calls@.take(0)));
    while i < calls.len()
        invariant
            i <= calls@.len(),
            program@ == old(program)@ + deny_calls(calls@.take(i as int)),
        decreases calls@.len() - i,
    {
        program.push(jump(calls[i], 0, 1));
        program.push(statement(BPF_RET_K, DENY_WITH_EPERM));
        i = i + 1;
        assert(calls@.take(i as int).drop_last() =~= calls@.take(i - 1));
        assert(program@ =~= old(program)@ + deny_calls(calls@.take(i as int)));
    }
    assert(calls@.take(i as int) =~= calls@);
}

fn push_deny_families(program: &mut Vec<FilterInstruction>, calls: &Vec<u32>, only_unix: bool)
    ensures
        final(program)@ == old(program)@ + deny_families(calls@, only_unix),
{
    let mut i: usize = 0;
    assert(deny_families(calls@.take(0), only_unix) =~= Seq::empty());
    assert(program@ =~= old(program)@ + deny_families(calls@.take(0), only_unix));
    while i < calls.len()
        invariant
            i <= calls@.len(),
            program@ == old(program)@ + deny_families(calls@.take(i as int), only_unix),
        decreases calls@.len() - i,
    {
        program.push(jump(calls[i], 0, 3));
        program.push(statement(BPF_LD_W_ABS, SECCOMP_DATA_ARGS_OFFSET));
        if only_unix {
            program.push(jump(AF_UNIX, 1, 0));
        } else {
            program.push(jump(AF_UNIX, 0, 1));
        }
        program.push(statement(BPF_RET_K, DENY_WITH_EPERM));
        program.push(statement(BPF_LD_W_ABS, 0));
        i = i + 1;
        assert(calls@.take(i as int).drop_last() =~= calls@.take(i - 1));
        assert(program@ =~= old(program)@ + deny_families(calls@.take(i as int), only_unix));
    }
    assert(calls@.take(i as int) =~= calls@);
}

fn build_filter(arch: Architecture, denied: &Vec<u32>, sockets: &Vec<u32>, only_unix: bool) -> (
program: Vec<FilterInstruction>)
    ensures
        program@ == filter(arch, denied@, sockets@, only_unix),
{
    let mut program: Vec<FilterInstruction> = vec![
        statement(BPF_LD_W_ABS, SECCOMP_DATA_ARCH_OFFSET),
        jump(arch.audit_arch(), 1, 0),
        statement(BPF_RET_K, SECCOMP_RET_KILL_PROCESS),
        statement(BPF_LD_W_ABS, 0),
    ];
    if arch == Architecture::X86_64 {
        // x32 uses the x86_64 audit architecture with its own range of call
        // numbers. Deny that range so that it cannot bypass the native table.
        program.push(jump_greater_or_equal(X32_FIRST_SYSCALL, 0, 1));
        program.push(statement(BPF_RET_K, DENY_WITH_EPERM));
    }
    assert(program@ =~= prologue(arch));
    push_deny_calls(&mut program, denied);
    push_deny_families(&mut program, sockets, only_unix);
    program.push(statement(BPF_RET_K, SECCOMP_RET_ALLOW));
    assert(program@ =~= filter(arch, denied@, sockets@, only_unix));
    program
}

/// The filter of a command without network.
pub fn blocked_filter(arch: Architecture, syscalls: &SyscallNumbers) -> (program: Vec<
    FilterInstruction,
>)
    ensures
        program@ == filter(arch, blocked_calls(*syscalls), syscalls.socket_calls(), true),
{
    let mut denied = syscalls.process_call_list();
    let mut network = syscalls.network_call_list();
    denied.append(&mut network);
    let sockets: Vec<u32> = vec![syscalls.socket, syscalls.socketpair];
    assert(denied@ =~= blocked_calls(*syscalls));
    assert(sockets@ =~= syscalls.socket_calls());
    build_filter(arch, &denied, &sockets, true)
}

/// The filter of a command whose network is isolated: it may use the internet
/// families inside its own namespace, but no Unix sockets, and it may accept
/// connections only with `allow_local_binding`.
pub fn proxied_filter(
    arch: Architecture,
    syscalls: &SyscallNumbers,
    allow_local_binding: bool,
) -> (program: Vec<FilterInstruction>)
    ensures
        program@ == filter(
            arch,
            proxied_calls(*syscalls, allow_local_binding),
            syscalls.socket_calls(),
            false,
        ),
{
    let mut denied = syscalls.process_call_list();
    if !allow_local_binding {
        denied.push(syscalls.accept);
        denied.push(syscalls.accept4);
        denied.push(syscalls.bind);
        denied.push(syscalls.listen);
    }
    let sockets: Vec<u32> = vec![syscalls.socket, syscalls.socketpair];
    assert(denied@ =~= proxied_calls(*syscalls, allow_local_binding));
    assert(sockets@ =~= syscalls.socket_calls());
    build_filter(arch, &denied, &sockets, false)
}

/// The eight bytes of an instruction in the kernel's layout, on a
/// little-endian machine, which every architecture here is.
pub open spec fn instruction_bytes(instruction: FilterInstruction) -> Seq<u8> {
    seq![
        (instruction.code % 256) as u8,
        (instruction.code / 256) as u8,
        instruction.jump_true,
        instruction.jump_false,
        (instruction.value % 256) as u8,
        (instruction.value / 0x100 % 256) as u8,
        (instruction.value / 0x1_0000 % 256) as u8,
        (instruction.value / 0x100_0000) as u8,
    ]
}

/// The bytes of a program, instruction after instruction.
pub open spec fn program_bytes(program: Seq<FilterInstruction>) -> Seq<u8>
    decreases program.len(),
{
    if program.len() == 0 {
        Seq::empty()
    } else {
        program_bytes(program.drop_last()) + instruction_bytes(program.last())
    }
}

/// The instruction that stands in `bytes` from index `at` on.
pub open spec fn instruction_at(bytes: Seq<u8>, at: int) -> FilterInstruction {
    FilterInstruction {
        code: (bytes[at] + 256 * bytes[at + 1]) as u16,
        jump_true: bytes[at + 2],
        jump_false: bytes[at + 3],
        value: (bytes[at + 4] + 0x100 * bytes[at + 5] + 0x1_0000 * bytes[at + 6] + 0x100_0000
            * bytes[at + 7]) as u32,
    }
}

/// The bytes of a program hold exactly its instructions, eight bytes each.
pub proof fn bytes_hold_the_program(program: Seq<FilterInstruction>)
    ensures
        program_bytes(program).len() == 8 * program.len(),
        forall|i: int|
            0 <= i < program.len() ==> #[trigger] program[i] == instruction_at(
                program_bytes(program),
                8 * i,
            ),
    decreases program.len(),
{
    if program.len() > 0 {
        let shorter = program.drop_last();
        bytes_hold_the_program(shorter);
        let bytes = program_bytes(program);
        assert forall|i: int| 0 <= i < program.len() implies #[trigger] program[i]
            == instruction_at(bytes, 8 * i) by {
            if i < shorter.len() {
                assert(shorter[i] == instruction_at(program_bytes(shorter), 8 * i));
            } else {
                let instruction = program[i];
                let part = instruction_bytes(instruction);
                assert forall|k: int| 0 <= k < 8 implies bytes[8 * i + k] == part[k] by {}
                let value = instruction.value;
                assert(value == value % 256 + 0x100 * (value / 0x100 % 256) + 0x1_0000 * (value
                    / 0x1_0000 % 256) + 0x100_0000 * (value / 0x100_0000));
            }
        }
    }
}

impl FilterInstruction {
    /// Appends the instruction in the kernel's layout.
    pub fn encode(self, output: &mut Vec<u8>)
        ensures
            final(output)@ == old(output)@ + instruction_bytes(self),
    {
        output.push((self.code % 256) as u8);
        output.push((self.code / 256) as u8);
        output.push(self.jump_true);
        output.push(self.jump_false);
        output.push((self.value % 256) as u8);
        output.push((self.value / 0x100 % 256) as u8);
        output.push((self.value / 0x1_0000 % 256) as u8);
        output.push((self.value / 0x100_0000) as u8);
        assert(output@ =~= old(output)@ + instruction_bytes(self));
    }
}

/// The filter of a command without network, in the layout that Bubblewrap reads.
pub fn seccomp_program(arch: Architecture, syscalls: &SyscallNumbers) -> (bytes: Vec<u8>)
    ensures
        bytes@ == program_bytes(
            filter(arch, blocked_calls(*syscalls), syscalls.socket_calls(), true),
        ),
{
    let program = blocked_filter(arch, syscalls);
    let mut bytes: Vec<u8> = Vec::new();
    let mut i: usize = 0;
    assert(program_bytes(program@.take(0)) =~= Seq::empty());
    while i < program.len()
        invariant
            i <= program@.len(),
            bytes@ == program_bytes(program@.take(i as int)),
        decreases program@.len() - i,
    {
        program[i].encode(&mut bytes);
        i = i + 1;
        assert(program@.take(i as int).drop_last() =~= program@.take(i - 1));
    }
    assert(program@.take(i as int) =~= program@);
    bytes
}

} // verus!
