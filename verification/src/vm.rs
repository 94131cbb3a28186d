use std::collections::HashMap;

use vstd::prelude::*;

use crate::error::{CompileError, RuntimeError};
use crate::ir::{
    balanced, compile, compile_spec, delta, jnz_count, jz_count, lemma_net_split, net,
    BrainfuckIR,
};

verus! {

/// Size of the byte tape a program runs against: 4 MiB.
pub const MEMORY_SIZE: usize = 4 * 1024 * 1024;

/// `r` is the `Jnz` closing the bracket opened by the `Jz` at `l`: the
/// nesting contribution of `code[l..=r]` sums to zero and stays positive
/// strictly inside the range.
pub open spec fn is_match(code: Seq<BrainfuckIR>, l: int, r: int) -> bool {
    &&& 0 <= l < r < code.len()
    &&& code[l] is Jz
    &&& code[r] is Jnz
    &&& net(code, l, r + 1) == 0
    &&& forall|k: int| l < k <= r ==> net(code, l, k) >= 1
}

/// `j` is the partner of the jump instruction at `i`, in either direction.
pub open spec fn is_pair(code: Seq<BrainfuckIR>, i: int, j: int) -> bool {
    ||| (code[i] is Jz && is_match(code, i, j))
    ||| (code[i] is Jnz && is_match(code, j, i))
}

/// The partner index of the jump instruction at `i`; well defined because a
/// partner is unique when one exists.
pub open spec fn match_of(code: Seq<BrainfuckIR>, i: int) -> int {
    choose|j: int| is_pair(code, i, j)
}

proof fn lemma_match_unique_right(code: Seq<BrainfuckIR>, l: int, r1: int, r2: int)
    requires
        is_match(code, l, r1),
        is_match(code, l, r2),
    ensures
        r1 == r2,
{
    if r1 < r2 {
        assert(net(code, l, r1 + 1) >= 1);
    } else if r2 < r1 {
        assert(net(code, l, r2 + 1) >= 1);
    }
}

proof fn lemma_match_unique_left(code: Seq<BrainfuckIR>, l1: int, l2: int, r: int)
    requires
        is_match(code, l1, r),
        is_match(code, l2, r),
    ensures
        l1 == l2,
{
    if l1 < l2 {
        lemma_net_split(code, l1, l2, r + 1);
        assert(net(code, l1, l2) >= 1);
    } else if l2 < l1 {
        lemma_net_split(code, l2, l1, r + 1);
        assert(net(code, l2, l1) >= 1);
    }
}

/// A jump instruction has at most one partner.
pub proof fn lemma_pair_unique(code: Seq<BrainfuckIR>, i: int, j1: int, j2: int)
    requires
        is_pair(code, i, j1),
        is_pair(code, i, j2),
    ensures
        j1 == j2,
{
    if code[i] is Jz {
        lemma_match_unique_right(code, i, j1, j2);
    } else {
        lemma_match_unique_left(code, j1, j2, i);
    }
}

proof fn find_match_right(code: Seq<BrainfuckIR>, l: int, k: int) -> (r: int)
    requires
        balanced(code),
        0 <= l < k <= code.len(),
        code[l] is Jz,
        net(code, l, k) >= 1,
        forall|k2: int| l < k2 <= k ==> #[trigger] net(code, l, k2) >= 1,
    ensures
        is_match(code, l, r),
    decreases code.len() - k,
{
    if k == code.len() {
        lemma_net_split(code, 0, l, code.len() as int);
        assert(net(code, 0, l) >= 0);
        assert(false);
        l
    } else {
        assert(net(code, l, k + 1) == net(code, l, k) + crate::ir::delta(code[k]));
        if net(code, l, k + 1) == 0 {
            assert(code[k] is Jnz);
            k
        } else {
            find_match_right(code, l, k + 1)
        }
    }
}

proof fn find_match_left(code: Seq<BrainfuckIR>, k: int, r: int) -> (l: int)
    requires
        balanced(code),
        0 <= k <= r < code.len(),
        code[r] is Jnz,
        net(code, k, r + 1) <= -1,
        forall|k2: int| k <= k2 <= r ==> #[trigger] net(code, k2, r + 1) <= -1,
    ensures
        is_match(code, l, r),
    decreases k,
{
    if k == 0 {
        assert(net(code, 0, r + 1) >= 0);
        assert(false);
        r
    } else {
        lemma_net_split(code, k - 1, k, r + 1);
        assert(net(code, k - 1, k - 1) == 0);
        assert(net(code, k - 1, k) == crate::ir::delta(code[k - 1]));
        assert(net(code, k - 1, r + 1) == crate::ir::delta(code[k - 1]) + net(code, k, r + 1));
        if net(code, k - 1, r + 1) == 0 {
            let l = k - 1;
            assert(crate::ir::delta(code[l]) >= 1);
            assert(code[l] is Jz);
            assert forall|k2: int| l < k2 <= r implies net(code, l, k2) >= 1 by {
                lemma_net_split(code, l, k2, r + 1);
            }
            l
        } else {
            find_match_left(code, k - 1, r)
        }
    }
}

/// In a balanced sequence every jump instruction has a partner, and
/// `match_of` denotes it.
pub proof fn lemma_match_exists(code: Seq<BrainfuckIR>, i: int)
    requires
        balanced(code),
        0 <= i < code.len(),
        code[i] is Jz || code[i] is Jnz,
    ensures
        is_pair(code, i, match_of(code, i)),
{
    if code[i] is Jz {
        assert(net(code, i, i) == 0);
        assert(net(code, i, i + 1) == 1);
        let r = find_match_right(code, i, i + 1);
        assert(is_pair(code, i, r));
    } else {
        assert(net(code, i, i) == 0);
        assert(net(code, i, i + 1) == -1);
        let l = find_match_left(code, i, i);
        assert(is_pair(code, i, l));
    }
}

/// The full execution state of a program: data pointer, program counter,
/// tape contents, the input bytes with how many of them have been read, and
/// the output bytes produced so far.
pub struct MachineState {
    pub ptr: int,
    pub pc: int,
    pub mem: Seq<u8>,
    pub input: Seq<u8>,
    pub read: int,
    pub output: Seq<u8>,
}

/// The outcome of one instruction: the next state, or a pointer-bounds
/// violation.
pub enum StepResult {
    Next(MachineState),
    Overflow,
}

/// One instruction of the small-step semantics, `code[st.pc]`.
///
/// Cell arithmetic wraps at 8 bits. Pointer moves fail if they would leave
/// `[0, mem.len())`; `mem.len()` itself counts as overflow. `GetByte` at end
/// of input leaves the cell unchanged. A taken jump sets `pc` to the partner
/// index (the matching jump re-tests and falls through); an untaken one falls
/// through.
pub open spec fn step(code: Seq<BrainfuckIR>, st: MachineState) -> StepResult {
    match code[st.pc] {
        BrainfuckIR::AddVal(v) => StepResult::Next(
            MachineState {
                mem: st.mem.update(st.ptr, st.mem[st.ptr].wrapping_add(v)),
                pc: st.pc + 1,
                ..st
            },
        ),
        BrainfuckIR::SubVal(v) => StepResult::Next(
            MachineState {
                mem: st.mem.update(st.ptr, st.mem[st.ptr].wrapping_sub(v)),
                pc: st.pc + 1,
                ..st
            },
        ),
        BrainfuckIR::AddPtr(v) => if st.ptr + v >= st.mem.len() {
            StepResult::Overflow
        } else {
            StepResult::Next(MachineState { ptr: st.ptr + v, pc: st.pc + 1, ..st })
        },
        BrainfuckIR::SubPtr(v) => if st.ptr - v < 0 {
            StepResult::Overflow
        } else {
            StepResult::Next(MachineState { ptr: st.ptr - v, pc: st.pc + 1, ..st })
        },
        BrainfuckIR::PutByte => StepResult::Next(
            MachineState { output: st.output.push(st.mem[st.ptr]), pc: st.pc + 1, ..st },
        ),
        BrainfuckIR::GetByte => if st.read < st.input.len() {
            StepResult::Next(
                MachineState {
                    mem: st.mem.update(st.ptr, st.input[st.read]),
                    read: st.read + 1,
                    pc: st.pc + 1,
                    ..st
                },
            )
        } else {
            StepResult::Next(MachineState { pc: st.pc + 1, ..st })
        },
        BrainfuckIR::Jz => if st.mem[st.ptr] == 0 {
            StepResult::Next(MachineState { pc: match_of(code, st.pc), ..st })
        } else {
            StepResult::Next(MachineState { pc: st.pc + 1, ..st })
        },
        BrainfuckIR::Jnz => if st.mem[st.ptr] != 0 {
            StepResult::Next(MachineState { pc: match_of(code, st.pc), ..st })
        } else {
            StepResult::Next(MachineState { pc: st.pc + 1, ..st })
        },
    }
}

/// Where an execution stands after at most `n` instructions.
pub enum ExecOutcome {
    /// `n` instructions ran; the program has not finished.
    Running(MachineState),
    /// The program counter reached the end of the code; the final state.
    Done(MachineState),
    /// A pointer move failed; the state just before the failing instruction.
    Overflow(MachineState),
}

/// Runs `code` from `st` for up to `n` instructions.
pub open spec fn exec_n(code: Seq<BrainfuckIR>, st: MachineState, n: nat) -> ExecOutcome
    decreases n,
{
    if st.pc < 0 || st.pc >= code.len() {
        ExecOutcome::Done(st)
    } else if n == 0 {
        ExecOutcome::Running(st)
    } else {
        match step(code, st) {
            StepResult::Next(s2) => exec_n(code, s2, (n - 1) as nat),
            StepResult::Overflow => ExecOutcome::Overflow(st),
        }
    }
}

/// Splitting a run at `n1` instructions: termination and overflow are sticky.
pub proof fn lemma_exec_n_add(code: Seq<BrainfuckIR>, st: MachineState, n1: nat, n2: nat)
    ensures
        exec_n(code, st, n1 + n2) == (match exec_n(code, st, n1) {
            ExecOutcome::Running(s) => exec_n(code, s, n2),
            ExecOutcome::Done(s) => ExecOutcome::Done(s),
            ExecOutcome::Overflow(s) => ExecOutcome::Overflow(s),
        }),
    decreases n1,
{
    if st.pc < 0 || st.pc >= code.len() {
    } else if n1 == 0 {
    } else {
        match step(code, st) {
            StepResult::Next(s2) => {
                lemma_exec_n_add(code, s2, (n1 - 1) as nat, n2);
            },
            StepResult::Overflow => {},
        }
    }
}

/// `m` is a correct bracket-pair index for `code`: every entry links a jump
/// instruction to its partner, and every jump instruction has an entry.
pub open spec fn pair_map_ok(code: Seq<BrainfuckIR>, m: Map<usize, usize>) -> bool {
    &&& forall|x: usize|
        #[trigger] m.contains_key(x) ==> x < code.len() && is_pair(code, x as int, m[x] as int)
    &&& forall|j: int|
        0 <= j < code.len() && (#[trigger] code[j] is Jz || code[j] is Jnz) ==> m.contains_key(
            j as usize,
        )
}

/// The pair index maps partners to each other both ways: it is an involution
/// on the jump indices.
pub proof fn lemma_pair_map_symmetric(code: Seq<BrainfuckIR>, m: Map<usize, usize>, i: usize)
    requires
        pair_map_ok(code, m),
        m.contains_key(i),
    ensures
        m.contains_key(m[i]),
        m[m[i]] == i,
{
    let j = m[i];
    assert(is_pair(code, i as int, j as int));
    assert(code[j as int] is Jz || code[j as int] is Jnz);
    assert(m.contains_key(j));
    assert(is_pair(code, j as int, m[j] as int));
    assert(is_pair(code, j as int, i as int));
    lemma_pair_unique(code, j as int, m[j] as int, i as int);
}

/// The set of indices below `n` holding a jump instruction.
spec fn jump_set(code: Seq<BrainfuckIR>, n: int) -> Set<usize>
    decreases n,
{
    if n <= 0 {
        Set::empty()
    } else if code[n - 1] is Jz || code[n - 1] is Jnz {
        jump_set(code, n - 1).insert((n - 1) as usize)
    } else {
        jump_set(code, n - 1)
    }
}

/// `Jz` count among the first `n` instructions.
spec fn jz_upto(code: Seq<BrainfuckIR>, n: int) -> int
    decreases n,
{
    if n <= 0 {
        0
    } else {
        jz_upto(code, n - 1) + (if code[n - 1] is Jz {
            1int
        } else {
            0int
        })
    }
}

/// `Jnz` count among the first `n` instructions.
spec fn jnz_upto(code: Seq<BrainfuckIR>, n: int) -> int
    decreases n,
{
    if n <= 0 {
        0
    } else {
        jnz_upto(code, n - 1) + (if code[n - 1] is Jnz {
            1int
        } else {
            0int
        })
    }
}

proof fn lemma_jump_set_members(code: Seq<BrainfuckIR>, n: int)
    requires
        0 <= n <= code.len(),
        code.len() <= usize::MAX,
    ensures
        forall|x: usize|
            #[trigger] jump_set(code, n).contains(x) <==> x < n && (code[x as int] is Jz
                || code[x as int] is Jnz),
    decreases n,
{
    if n > 0 {
        lemma_jump_set_members(code, n - 1);
        assert forall|x: usize|
            #[trigger] jump_set(code, n).contains(x) implies x < n && (code[x as int] is Jz
            || code[x as int] is Jnz) by {
            if code[n - 1] is Jz || code[n - 1] is Jnz {
                if x as int != n - 1 {
                    assert(jump_set(code, n - 1).contains(x));
                }
            } else {
                assert(jump_set(code, n - 1).contains(x));
            }
        }
        assert forall|x: usize|
            x < n && (code[x as int] is Jz || code[x as int] is Jnz) implies #[trigger] jump_set(
            code,
            n,
        ).contains(x) by {
            if x as int != n - 1 {
                assert(jump_set(code, n - 1).contains(x));
            }
        }
    }
}

proof fn lemma_jump_set_card(code: Seq<BrainfuckIR>, n: int)
    requires
        0 <= n <= code.len(),
        code.len() <= usize::MAX,
    ensures
        jump_set(code, n).finite(),
        jump_set(code, n).len() == jz_upto(code, n) + jnz_upto(code, n),
    decreases n,
{
    if n > 0 {
        lemma_jump_set_card(code, n - 1);
        lemma_jump_set_members(code, n - 1);
        if code[n - 1] is Jz || code[n - 1] is Jnz {
            assert(!jump_set(code, n - 1).contains((n - 1) as usize));
        }
    }
}

proof fn lemma_upto_counts(code: Seq<BrainfuckIR>)
    ensures
        jz_upto(code, code.len() as int) == jz_count(code),
        jnz_upto(code, code.len() as int) == jnz_count(code),
    decreases code.len(),
{
    if code.len() > 0 {
        let pre = code.drop_last();
        lemma_upto_counts(pre);
        lemma_upto_same(code, code.len() as int - 1);
    }
}

proof fn lemma_upto_same(code: Seq<BrainfuckIR>, b: int)
    requires
        b < code.len(),
    ensures
        jz_upto(code.drop_last(), b) == jz_upto(code, b),
        jnz_upto(code.drop_last(), b) == jnz_upto(code, b),
    decreases b,
{
    if b > 0 {
        lemma_upto_same(code, b - 1);
    }
}

/// A correct pair index has exactly one entry per jump instruction: its
/// domain size is the number of `Jz` plus the number of `Jnz` instructions —
/// for balanced code, twice the bracket count.
pub proof fn lemma_pair_map_size(code: Seq<BrainfuckIR>, m: Map<usize, usize>)
    requires
        pair_map_ok(code, m),
        m.dom().finite(),
        code.len() <= usize::MAX,
    ensures
        m.dom().len() == jz_count(code) + jnz_count(code),
{
    let n = code.len() as int;
    lemma_jump_set_members(code, n);
    assert forall|x: usize| #[trigger] m.dom().contains(x) implies jump_set(code, n).contains(
        x,
    ) by {
        assert(m.contains_key(x));
        assert(is_pair(code, x as int, m[x] as int));
    }
    assert forall|x: usize| #[trigger] jump_set(code, n).contains(x) implies m.dom().contains(
        x,
    ) by {
        assert(code[x as int] is Jz || code[x as int] is Jnz);
    }
    assert(m.dom() =~= jump_set(code, n));
    lemma_jump_set_card(code, n);
    lemma_upto_counts(code);
}

/// Whether a run finished within its step allowance.
#[derive(Debug, Clone, Copy, PartialEq, Eq, Structural)]
pub enum RunStatus {
    /// The program counter reached the end of the code.
    Halted,
    /// The step allowance ran out first.
    OutOfSteps,
}

/// An execution session: the compiled code, the 4 MiB zero-initialized tape,
/// the input bytes (with a cursor for how many are consumed) and the output
/// bytes produced so far.
pub struct VM {
    pub code: Vec<BrainfuckIR>,
    pub memory: Vec<u8>,
    pub input: Vec<u8>,
    pub read: usize,
    pub output: Vec<u8>,
}

impl VM {
    /// The machine state this session starts executing from.
    pub open spec fn st0(self) -> MachineState {
        MachineState {
            ptr: 0,
            pc: 0,
            mem: self.memory@,
            input: self.input@,
            read: self.read as int,
            output: self.output@,
        }
    }

    /// The session invariant: balanced code, a full-size tape, and an input
    /// cursor within bounds.
    pub open spec fn wf(self) -> bool {
        &&& balanced(self.code@)
        &&& self.memory@.len() == MEMORY_SIZE
        &&& self.read <= self.input@.len()
    }

    /// Compiles `source` and builds a fresh session around it: zeroed tape,
    /// the given input, nothing read, nothing output.
    pub fn new(source: &str, input: Vec<u8>) -> (r: Result<VM, CompileError>)
        requires
            source@.len() < usize::MAX,
        ensures
            (match r {
                Ok(vm) => {
                    &&& compile_spec(source@) == Ok::<Seq<BrainfuckIR>, CompileError>(vm.code@)
                    &&& vm.wf()
                    &&& vm.memory@ =~= Seq::new(MEMORY_SIZE as nat, |k: int| 0u8)
                    &&& vm.input@ == input@
                    &&& vm.read == 0
                    &&& vm.output@ == Seq::<u8>::empty()
                },
                Err(e) => compile_spec(source@) == Err::<Seq<BrainfuckIR>, CompileError>(e),
            }),
    {
        let code = match compile(source) {
            Ok(code) => code,
            Err(e) => {
                return Err(e);
            },
        };
        proof {
            crate::ir::lemma_compile_balance(source@);
        }
        let mut memory: Vec<u8> = Vec::new();
        while memory.len() < MEMORY_SIZE
            invariant
                memory@.len() <= MEMORY_SIZE,
                forall|k: int| 0 <= k < memory@.len() ==> memory@[k] == 0u8,
            decreases MEMORY_SIZE - memory@.len(),
        {
            memory.push(0u8);
        }
        proof {
            assert(memory@ =~= Seq::new(MEMORY_SIZE as nat, |k: int| 0u8));
        }
        Ok(VM { code, memory, input, read: 0, output: Vec::new() })
    }

    /// Builds the bracket-pair index of this session's code: for every
    /// matched pair (l, r) of `Jz`/`Jnz`, both l -> r and r -> l.
    pub fn mark_left_right(&self) -> (m: HashMap<usize, usize>)
        requires
            balanced(self.code@),
        ensures
            pair_map_ok(self.code@, m@),
    {
        broadcast use vstd::std_specs::hash::group_hash_axioms;

        let ghost cs = self.code@;
        let n = self.code.len();
        let mut i: usize = 0;
        let mut stack: Vec<usize> = Vec::new();
        let mut map: HashMap<usize, usize> = HashMap::new();
        while i < n
            invariant
                balanced(cs),
                cs == self.code@,
                n == cs.len(),
                i <= n,
                net(cs, 0, i as int) == stack@.len() as int,
                forall|q: int|
                    0 <= q < stack@.len() ==> 0 <= #[trigger] stack@[q] < i && cs[stack@[q] as int] is Jz,
                forall|q: int|
                    0 <= q < stack@.len() ==> #[trigger] net(cs, stack@[q] as int, i as int)
                        == stack@.len() - q,
                forall|q: int, k: int|
                    0 <= q < stack@.len() && stack@[q] < k <= i ==> #[trigger] net(
                        cs,
                        stack@[q] as int,
                        k,
                    ) >= 1,
                forall|x: usize|
                    #[trigger] map@.contains_key(x) ==> x < i && is_pair(cs, x as int, map@[x] as int),
                forall|j: int|
                    0 <= j < i && (#[trigger] cs[j] is Jz || cs[j] is Jnz) ==> map@.contains_key(
                        j as usize,
                    ) || (exists|q: int| 0 <= q < stack@.len() && #[trigger] stack@[q] == j),
            decreases n - i,
        {
            let instr = self.code[i];
            let ghost st0 = stack@;
            match instr {
                BrainfuckIR::Jz => {
                    stack.push(i);
                    proof {
                        let st1 = stack@;
                        assert forall|q: int|
                            0 <= q < st1.len() implies #[trigger] net(cs, st1[q] as int, (i + 1) as int)
                            == st1.len() - q by {
                            if q < st1.len() - 1 {
                                assert(st1[q] == st0[q]);
                                assert(net(cs, st0[q] as int, (i + 1) as int) == net(
                                    cs,
                                    st0[q] as int,
                                    i as int,
                                ) + crate::ir::delta(cs[i as int]));
                            } else {
                                assert(st1[q] == i);
                                assert(net(cs, i as int, i as int) == 0);
                                assert(net(cs, i as int, (i + 1) as int) == crate::ir::delta(
                                    cs[i as int],
                                ));
                            }
                        }
                        assert forall|q: int, k: int|
                            0 <= q < st1.len() && st1[q] < k <= i + 1 implies #[trigger] net(
                            cs,
                            st1[q] as int,
                            k,
                        ) >= 1 by {
                            if q < st1.len() - 1 {
                                assert(st1[q] == st0[q]);
                                if k <= i {
                                    assert(net(cs, st0[q] as int, k) >= 1);
                                } else {
                                    assert(net(cs, st1[q] as int, (i + 1) as int) == st1.len() - q);
                                }
                            } else {
                                assert(st1[q] == i);
                                assert(net(cs, i as int, i as int) == 0);
                                assert(net(cs, i as int, (i + 1) as int) == crate::ir::delta(
                                    cs[i as int],
                                ));
                            }
                        }
                        assert(net(cs, 0, (i + 1) as int) == net(cs, 0, i as int)
                            + crate::ir::delta(cs[i as int]));
                        assert forall|j: int|
                            0 <= j < i + 1 && (#[trigger] cs[j] is Jz || cs[j] is Jnz)
                            implies map@.contains_key(j as usize) || (exists|q: int|
                            0 <= q < st1.len() && #[trigger] st1[q] == j) by {
                            if j == i {
                                assert(st1[st0.len() as int] == i);
                            } else if !map@.contains_key(j as usize) {
                                let q0 = choose|q: int| 0 <= q < st0.len() && #[trigger] st0[q] == j;
                                assert(st1[q0] == j);
                            }
                        }
                    }
                },
                BrainfuckIR::Jnz => {
                    match stack.pop() {
                        Some(left) => {
                            proof {
                                let st1 = stack@;
                                assert(st1 == st0.drop_last());
                                assert(left == st0.last());
                                assert(net(cs, left as int, i as int) == 1);
                                assert(net(cs, left as int, (i + 1) as int) == net(
                                    cs,
                                    left as int,
                                    i as int,
                                ) + crate::ir::delta(cs[i as int]));
                                assert(is_match(cs, left as int, i as int));
                            }
                            map.insert(left, i);
                            map.insert(i, left);
                            proof {
                                let st1 = stack@;
                                assert(is_pair(cs, left as int, i as int));
                                assert(is_pair(cs, i as int, left as int));
                                assert forall|q: int|
                                    0 <= q < st1.len() implies #[trigger] net(
                                    cs,
                                    st1[q] as int,
                                    (i + 1) as int,
                                ) == st1.len() - q by {
                                    assert(st1[q] == st0[q]);
                                    assert(net(cs, st0[q] as int, (i + 1) as int) == net(
                                        cs,
                                        st0[q] as int,
                                        i as int,
                                    ) + crate::ir::delta(cs[i as int]));
                                }
                                assert forall|q: int, k: int|
                                    0 <= q < st1.len() && st1[q] < k <= i + 1 implies #[trigger] net(
                                    cs,
                                    st1[q] as int,
                                    k,
                                ) >= 1 by {
                                    assert(st1[q] == st0[q]);
                                    if k <= i {
                                        assert(net(cs, st0[q] as int, k) >= 1);
                                    } else {
                                        assert(net(cs, st1[q] as int, (i + 1) as int) == st1.len()
                                            - q);
                                    }
                                }
                                assert(net(cs, 0, (i + 1) as int) == net(cs, 0, i as int)
                                    + crate::ir::delta(cs[i as int]));
                                assert forall|j: int|
                                    0 <= j < i + 1 && (#[trigger] cs[j] is Jz || cs[j] is Jnz)
                                    implies map@.contains_key(j as usize) || (exists|q: int|
                                    0 <= q < st1.len() && #[trigger] st1[q] == j) by {
                                    if j == i || j == left as int {
                                    } else if !map@.contains_key(j as usize) {
                                        let q0 = choose|q: int|
                                            0 <= q < st0.len() && #[trigger] st0[q] == j;
                                        assert(q0 < st0.len() - 1);
                                        assert(st1[q0] == j);
                                    }
                                }
                            }
                        },
                        None => {
                            proof {
                                assert(net(cs, 0, (i + 1) as int) == net(cs, 0, i as int)
                                    + crate::ir::delta(cs[i as int]));
                                assert(net(cs, 0, (i + 1) as int) >= 0);
                                assert(false);
                            }
                        },
                    }
                },
                _ => {
                    proof {
                        assert forall|q: int|
                            0 <= q < stack@.len() implies #[trigger] net(
                            cs,
                            stack@[q] as int,
                            (i + 1) as int,
                        ) == stack@.len() - q by {
                            assert(net(cs, stack@[q] as int, (i + 1) as int) == net(
                                cs,
                                stack@[q] as int,
                                i as int,
                            ) + crate::ir::delta(cs[i as int]));
                        }
                        assert forall|q: int, k: int|
                            0 <= q < stack@.len() && stack@[q] < k <= i + 1 implies #[trigger] net(
                            cs,
                            stack@[q] as int,
                            k,
                        ) >= 1 by {
                            if k <= i {
                                assert(net(cs, stack@[q] as int, k) >= 1);
                            } else {
                                assert(net(cs, stack@[q] as int, (i + 1) as int) == net(
                                    cs,
                                    stack@[q] as int,
                                    i as int,
                                ) + crate::ir::delta(cs[i as int]));
                            }
                        }
                        assert(net(cs, 0, (i + 1) as int) == net(cs, 0, i as int)
                            + crate::ir::delta(cs[i as int]));
                    }
                },
            }
            i = i + 1;
        }
        proof {
            assert(stack@.len() == 0);
        }
        map
    }

    /// Runs the session's program for up to `fuel` instructions.
    ///
    /// The result is exactly what the small-step semantics says: `Ok(Halted)`
    /// with the final tape, input cursor and output when the program ends
    /// within `fuel` steps; `Err(PointerOverflow)` with the state reached just
    /// before the offending pointer move — no other side effect of that
    /// instruction is visible; and `Ok(OutOfSteps)` with the intermediate
    /// state when `fuel` runs out first.
    pub fn run(&mut self, fuel: u64) -> (r: Result<RunStatus, RuntimeError>)
        requires
            old(self).wf(),
        ensures
            final(self).code@ == old(self).code@,
            final(self).input@ == old(self).input@,
            final(self).wf(),
            (match exec_n(old(self).code@, old(self).st0(), fuel as nat) {
                ExecOutcome::Done(s) => r == Ok::<RunStatus, RuntimeError>(RunStatus::Halted)
                    && final(self).memory@ == s.mem && final(self).read as int == s.read
                    && final(self).output@ == s.output,
                ExecOutcome::Running(s) => r == Ok::<RunStatus, RuntimeError>(RunStatus::OutOfSteps)
                    && final(self).memory@ == s.mem && final(self).read as int == s.read
                    && final(self).output@ == s.output,
                ExecOutcome::Overflow(s) => r == Err::<RunStatus, RuntimeError>(
                    RuntimeError::PointerOverflow,
                ) && final(self).memory@ == s.mem && final(self).read as int == s.read
                    && final(self).output@ == s.output,
            }),
    {
        broadcast use vstd::std_specs::hash::group_hash_axioms;

        let map = self.mark_left_right();
        let ghost cs = self.code@;
        let ghost init = self.st0();
        let mut ptr: usize = 0;
        let mut pc: usize = 0;
        let mut steps: u64 = 0;
        let ghost mut cur = init;
        while pc < self.code.len() && steps < fuel
            invariant
                old(self).wf(),
                self.wf(),
                cs == self.code@,
                cs == old(self).code@,
                self.input@ == old(self).input@,
                init == old(self).st0(),
                pair_map_ok(cs, map@),
                ptr < MEMORY_SIZE,
                pc <= cs.len(),
                steps <= fuel,
                cur == (MachineState {
                    ptr: ptr as int,
                    pc: pc as int,
                    mem: self.memory@,
                    input: self.input@,
                    read: self.read as int,
                    output: self.output@,
                }),
                exec_n(cs, init, steps as nat) == (if (pc as int) < cs.len() {
                    ExecOutcome::Running(cur)
                } else {
                    ExecOutcome::Done(cur)
                }),
            decreases fuel - steps,
        {
            let ghost prev = cur;
            let instr = self.code[pc];
            match instr {
                BrainfuckIR::AddVal(v) => {
                    let b = self.memory[ptr];
                    self.memory[ptr] = b.wrapping_add(v);
                    pc = pc + 1;
                },
                BrainfuckIR::SubVal(v) => {
                    let b = self.memory[ptr];
                    self.memory[ptr] = b.wrapping_sub(v);
                    pc = pc + 1;
                },
                BrainfuckIR::AddPtr(v) => {
                    if (v as usize) >= MEMORY_SIZE - ptr {
                        proof {
                            assert(step(cs, cur) == StepResult::Overflow);
                            lemma_exec_n_add(cs, init, steps as nat, (fuel - steps) as nat);
                        }
                        return Err(RuntimeError::PointerOverflow);
                    }
                    ptr = ptr + (v as usize);
                    pc = pc + 1;
                },
                BrainfuckIR::SubPtr(v) => {
                    if (v as usize) > ptr {
                        proof {
                            assert(step(cs, cur) == StepResult::Overflow);
                            lemma_exec_n_add(cs, init, steps as nat, (fuel - steps) as nat);
                        }
                        return Err(RuntimeError::PointerOverflow);
                    }
                    ptr = ptr - (v as usize);
                    pc = pc + 1;
                },
                BrainfuckIR::PutByte => {
                    let b = self.memory[ptr];
                    self.output.push(b);
                    pc = pc + 1;
                },
                BrainfuckIR::GetByte => {
                    if self.read < self.input.len() {
                        let b = self.input[self.read];
                        self.memory[ptr] = b;
                        self.read = self.read + 1;
                    }
                    pc = pc + 1;
                },
                BrainfuckIR::Jz => {
                    let b = self.memory[ptr];
                    if b == 0 {
                        let t = match map.get(&pc) {
                            Some(t) => *t,
                            None => {
                                proof {
                                    assert(map@.contains_key(pc));
                                    assert(false);
                                }
                                0
                            },
                        };
                        proof {
                            assert(map@.contains_key(pc) && map@[pc] == t);
                            assert(is_pair(cs, pc as int, t as int));
                            assert(is_pair(cs, pc as int, match_of(cs, pc as int)));
                            lemma_pair_unique(cs, pc as int, t as int, match_of(cs, pc as int));
                        }
                        pc = t;
                    } else {
                        pc = pc + 1;
                    }
                },
                BrainfuckIR::Jnz => {
                    let b = self.memory[ptr];
                    if b != 0 {
                        let t = match map.get(&pc) {
                            Some(t) => *t,
                            None => {
                                proof {
                                    assert(map@.contains_key(pc));
                                    assert(false);
                                }
                                0
                            },
                        };
                        proof {
                            assert(map@.contains_key(pc) && map@[pc] == t);
                            assert(is_pair(cs, pc as int, t as int));
                            assert(is_pair(cs, pc as int, match_of(cs, pc as int)));
                            lemma_pair_unique(cs, pc as int, t as int, match_of(cs, pc as int));
                        }
                        pc = t;
                    } else {
                        pc = pc + 1;
                    }
                },
            }
            proof {
                cur = MachineState {
                    ptr: ptr as int,
                    pc: pc as int,
                    mem: self.memory@,
                    input: self.input@,
                    read: self.read as int,
                    output: self.output@,
                };
                assert(step(cs, prev) == StepResult::Next(cur));
                lemma_exec_n_add(cs, init, steps as nat, 1);
                assert(exec_n(cs, cur, 0nat) == (if (pc as int) < cs.len() {
                    ExecOutcome::Running(cur)
                } else {
                    ExecOutcome::Done(cur)
                }));
                assert(exec_n(cs, prev, 1nat) == exec_n(cs, cur, 0nat));
                assert(steps as nat + 1nat == (steps + 1) as nat);
            }
            steps = steps + 1;
        }
        proof {
            lemma_exec_n_add(cs, init, steps as nat, (fuel - steps) as nat);
        }
        if pc >= self.code.len() {
            Ok(RunStatus::Halted)
        } else {
            Ok(RunStatus::OutOfSteps)
        }
    }
}

/// Two successive cell additions fuse into one: after `AddVal(a)` then
/// `AddVal(b)` the cell holds exactly what the single instruction
/// `AddVal((a + b) mod 256)` would leave there, so the two programs are
/// observationally equivalent.
pub proof fn lemma_add_val_fuses(cell: u8, a: u8, b: u8)
    ensures
        cell.wrapping_add(a).wrapping_add(b) == cell.wrapping_add(((a + b) % 256) as u8),
{
}

/// A pointer-overflow outcome is clean: the reported state was actually
/// reached by the prior instructions, and the failing pointer move itself
/// changed nothing — in particular no output, tape or input-cursor effect of
/// it is visible.
pub proof fn lemma_overflow_preserves_state(code: Seq<BrainfuckIR>, st: MachineState, n: nat)
    requires
        exec_n(code, st, n) is Overflow,
    ensures
        (match exec_n(code, st, n) {
            ExecOutcome::Overflow(s) => step(code, s) == StepResult::Overflow && exists|m: nat|
                m < n && #[trigger] exec_n(code, st, m) == ExecOutcome::Running(s),
            _ => false,
        }),
    decreases n,
{
    if st.pc < 0 || st.pc >= code.len() {
    } else if n == 0 {
    } else {
        match step(code, st) {
            StepResult::Next(s2) => {
                lemma_overflow_preserves_state(code, s2, (n - 1) as nat);
                let s = (match exec_n(code, st, n) {
                    ExecOutcome::Overflow(s) => s,
                    _ => st,
                });
                let m0 = choose|m: nat|
                    m < ((n - 1) as nat) && #[trigger] exec_n(code, s2, m) == ExecOutcome::Running(
                        s,
                    );
                assert(exec_n(code, st, m0 + 1) == ExecOutcome::Running(s));
            },
            StepResult::Overflow => {
                assert(exec_n(code, st, 0nat) == ExecOutcome::Running(st));
            },
        }
    }
}

/// A machine state whose data pointer, program counter and input cursor are
/// in range for its code and buffers.
pub open spec fn wf_state(code: Seq<BrainfuckIR>, st: MachineState) -> bool {
    &&& 0 <= st.ptr < st.mem.len()
    &&& 0 <= st.pc <= code.len()
    &&& 0 <= st.read <= st.input.len()
}

/// One step from an in-range state stays in range and keeps the tape length.
pub proof fn lemma_step_wf(code: Seq<BrainfuckIR>, st: MachineState)
    requires
        balanced(code),
        wf_state(code, st),
        st.pc < code.len(),
    ensures
        (match step(code, st) {
            StepResult::Next(s2) => wf_state(code, s2) && s2.mem.len() == st.mem.len(),
            StepResult::Overflow => true,
        }),
{
    match code[st.pc] {
        BrainfuckIR::Jz => {
            lemma_match_exists(code, st.pc);
        },
        BrainfuckIR::Jnz => {
            lemma_match_exists(code, st.pc);
        },
        _ => {},
    }
}

/// The two instruction sequences agree on everything jumps depend on: length,
/// jump kinds at each index, hence `net`, matching and partner indices.
proof fn lemma_net_pointwise(c1: Seq<BrainfuckIR>, c2: Seq<BrainfuckIR>, x: int, y: int)
    requires
        c1.len() == c2.len(),
        forall|i: int| 0 <= i < c1.len() ==> delta(#[trigger] c2[i]) == delta(c1[i]),
        0 <= x <= y <= c1.len(),
    ensures
        net(c2, x, y) == net(c1, x, y),
    decreases y - x,
{
    if x < y {
        lemma_net_pointwise(c1, c2, x, y - 1);
    }
}

spec fn same_jumps(c1: Seq<BrainfuckIR>, c2: Seq<BrainfuckIR>) -> bool {
    &&& c1.len() == c2.len()
    &&& forall|i: int|
        0 <= i < c1.len() ==> ((#[trigger] c2[i] is Jz <==> c1[i] is Jz) && (c2[i] is Jnz
            <==> c1[i] is Jnz))
}

proof fn lemma_match_transfer(c1: Seq<BrainfuckIR>, c2: Seq<BrainfuckIR>, i: int)
    requires
        same_jumps(c1, c2),
        balanced(c1),
        0 <= i < c1.len(),
        c1[i] is Jz || c1[i] is Jnz,
    ensures
        match_of(c2, i) == match_of(c1, i),
        is_pair(c1, i, match_of(c1, i)),
{
    assert forall|i2: int| 0 <= i2 < c1.len() implies delta(#[trigger] c2[i2]) == delta(
        c1[i2],
    ) by {}
    assert forall|l: int, r: int| is_match(c1, l, r) <==> #[trigger] is_match(c2, l, r) by {
        if is_match(c1, l, r) {
            lemma_net_pointwise(c1, c2, l, r + 1);
            assert forall|k: int| l < k <= r implies net(c2, l, k) >= 1 by {
                lemma_net_pointwise(c1, c2, l, k);
            }
        }
        if is_match(c2, l, r) {
            lemma_net_pointwise(c1, c2, l, r + 1);
            assert forall|k: int| l < k <= r implies net(c1, l, k) >= 1 by {
                lemma_net_pointwise(c1, c2, l, k);
            }
        }
    }
    lemma_match_exists(c1, i);
    let j = match_of(c1, i);
    assert(is_pair(c2, i, j));
    assert(is_pair(c2, i, match_of(c2, i)));
    assert(is_pair(c1, i, match_of(c2, i)));
    lemma_pair_unique(c1, i, j, match_of(c2, i));
}

/// How the states of the original and the rewritten program relate while
/// running in lockstep: identical everywhere, except between the two halves
/// of the rewritten pair, where the second program's current cell is already
/// `b` ahead.
pub open spec fn pair_rel(p: int, b: u8, s1: MachineState, s2: MachineState) -> bool {
    &&& s2.pc == s1.pc
    &&& s2.ptr == s1.ptr
    &&& s2.input == s1.input
    &&& s2.read == s1.read
    &&& s2.output == s1.output
    &&& (if s1.pc == p + 1 {
        s2.mem == s1.mem.update(s1.ptr, s1.mem[s1.ptr].wrapping_add(b))
    } else {
        s2.mem == s1.mem
    })
}

/// Corresponding outcomes of the two programs: same verdict, and identical
/// states — in particular identical output — except mid-pair, where
/// `pair_rel` holds.
pub open spec fn pair_rel_outcome(p: int, b: u8, o1: ExecOutcome, o2: ExecOutcome) -> bool {
    match (o1, o2) {
        (ExecOutcome::Done(s1), ExecOutcome::Done(s2)) => s1 == s2,
        (ExecOutcome::Running(s1), ExecOutcome::Running(s2)) => pair_rel(p, b, s1, s2),
        (ExecOutcome::Overflow(s1), ExecOutcome::Overflow(s2)) => s1 == s2,
        _ => false,
    }
}

/// Replacing `AddVal(a)` immediately followed by `AddVal(b)` anywhere in a
/// program by `AddVal((a + b) mod 256)` followed by the no-op `AddVal(0)`
/// (keeping instruction indices aligned) is observationally equivalent: from
/// related states the two programs run in lockstep for any number of steps,
/// halting, overflowing and producing output identically.
pub proof fn lemma_add_val_pair_equivalent(
    code1: Seq<BrainfuckIR>,
    code2: Seq<BrainfuckIR>,
    p: int,
    a: u8,
    b: u8,
    s1: MachineState,
    s2: MachineState,
    n: nat,
)
    requires
        balanced(code1),
        0 <= p,
        p + 1 < code1.len(),
        code1[p] == BrainfuckIR::AddVal(a),
        code1[p + 1] == BrainfuckIR::AddVal(b),
        code2 == code1.update(p, BrainfuckIR::AddVal(((a + b) % 256) as u8)).update(
            p + 1,
            BrainfuckIR::AddVal(0),
        ),
        wf_state(code1, s1),
        wf_state(code2, s2),
        pair_rel(p, b, s1, s2),
    ensures
        pair_rel_outcome(p, b, exec_n(code1, s1, n), exec_n(code2, s2, n)),
    decreases n,
{
    assert(same_jumps(code1, code2));
    assert forall|i2: int| 0 <= i2 < code1.len() implies delta(#[trigger] code2[i2]) == delta(
        code1[i2],
    ) by {}
    assert forall|k: int| 0 <= k <= code2.len() implies net(code2, 0, k) >= 0 by {
        lemma_net_pointwise(code1, code2, 0, k);
    }
    lemma_net_pointwise(code1, code2, 0, code1.len() as int);
    assert(balanced(code2));
    if s1.pc < 0 || s1.pc >= code1.len() {
    } else if n == 0 {
    } else {
        lemma_step_wf(code1, s1);
        lemma_step_wf(code2, s2);
        let ptr = s1.ptr;
        if s1.pc == p {
            let t1 = (match step(code1, s1) {
                StepResult::Next(t) => t,
                StepResult::Overflow => s1,
            });
            let t2 = (match step(code2, s2) {
                StepResult::Next(t) => t,
                StepResult::Overflow => s2,
            });
            lemma_add_val_fuses(s1.mem[ptr], a, b);
            assert(t2.mem =~= t1.mem.update(ptr, t1.mem[ptr].wrapping_add(b)));
            lemma_add_val_pair_equivalent(code1, code2, p, a, b, t1, t2, (n - 1) as nat);
        } else if s1.pc == p + 1 {
            let t1 = (match step(code1, s1) {
                StepResult::Next(t) => t,
                StepResult::Overflow => s1,
            });
            let t2 = (match step(code2, s2) {
                StepResult::Next(t) => t,
                StepResult::Overflow => s2,
            });
            assert(t2.mem =~= s2.mem);
            assert(t1.mem == s2.mem);
            assert(t2.mem == t1.mem);
            lemma_add_val_pair_equivalent(code1, code2, p, a, b, t1, t2, (n - 1) as nat);
        } else {
            assert(code2[s1.pc] == code1[s1.pc]);
            assert(s2.mem == s1.mem);
            assert(s2 == s1);
            if code1[s1.pc] is Jz || code1[s1.pc] is Jnz {
                lemma_match_transfer(code1, code2, s1.pc);
            }
            match step(code1, s1) {
                StepResult::Next(t1) => {
                    let t2 = (match step(code2, s2) {
                        StepResult::Next(t) => t,
                        StepResult::Overflow => s2,
                    });
                    assert(step(code2, s2) == StepResult::Next(t2));
                    assert(t2 == t1);
                    lemma_add_val_pair_equivalent(code1, code2, p, a, b, t1, t2, (n - 1) as nat);
                },
                StepResult::Overflow => {
                    assert(step(code2, s2) == StepResult::Overflow);
                },
            }
        }
    }
}

/// A taken jump lands exactly on the partner bracket: `Jz` on a zero cell
/// continues at the matching `Jnz` (which re-tests the still-zero cell and
/// falls through), and `Jnz` on a non-zero cell continues at the matching
/// `Jz`; nothing but the program counter changes.
pub proof fn lemma_jump_lands_on_partner(code: Seq<BrainfuckIR>, st: MachineState)
    requires
        balanced(code),
        0 <= st.pc < code.len(),
        (code[st.pc] is Jz && st.mem[st.ptr] == 0) || (code[st.pc] is Jnz && st.mem[st.ptr] != 0),
    ensures
        (match step(code, st) {
            StepResult::Next(s2) => {
                &&& is_pair(code, st.pc, s2.pc)
                &&& (code[st.pc] is Jz ==> code[s2.pc] is Jnz && is_match(code, st.pc, s2.pc))
                &&& (code[st.pc] is Jnz ==> code[s2.pc] is Jz && is_match(code, s2.pc, st.pc))
                &&& s2.mem == st.mem
                &&& s2.output == st.output
                &&& s2.ptr == st.ptr
                &&& s2.read == st.read
            },
            StepResult::Overflow => false,
        }),
{
    lemma_match_exists(code, st.pc);
}

} // verus!
