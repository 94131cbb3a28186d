use vstd::prelude::*;

use crate::error::{CompileError, CompileErrorKind};

verus! {

/// One instruction of the intermediate representation.
///
/// `AddVal`/`SubVal` mutate the current tape cell with wrapping 8-bit
/// arithmetic; `AddPtr`/`SubPtr` move the data pointer with bounds checks;
/// `PutByte`/`GetByte` perform one byte of output or input; `Jz`/`Jnz` are the
/// two halves of a bracket loop.
#[derive(Debug, Clone, Copy, PartialEq, Eq, Structural)]
pub enum BrainfuckIR {
    AddVal(u8),
    SubVal(u8),
    AddPtr(u32),
    SubPtr(u32),
    PutByte,
    GetByte,
    Jz,
    Jnz,
}

/// +1 for `Jz`, -1 for `Jnz`, 0 otherwise: the bracket-nesting contribution.
pub open spec fn delta(x: BrainfuckIR) -> int {
    match x {
        BrainfuckIR::Jz => 1,
        BrainfuckIR::Jnz => -1,
        _ => 0,
    }
}

/// Sum of `delta` over `code[a..b]`: how much deeper the bracket nesting is
/// after those instructions.
pub open spec fn net(code: Seq<BrainfuckIR>, a: int, b: int) -> int
    decreases b - a,
{
    if a >= b {
        0
    } else {
        net(code, a, b - 1) + delta(code[b - 1])
    }
}

/// No prefix of `code` closes more brackets than it has opened.
pub open spec fn prefix_nonneg(code: Seq<BrainfuckIR>) -> bool {
    forall|k: int| 0 <= k <= code.len() ==> net(code, 0, k) >= 0
}

/// Brackets nest properly and each `Jz` is closed by a later `Jnz`.
pub open spec fn balanced(code: Seq<BrainfuckIR>) -> bool {
    prefix_nonneg(code) && net(code, 0, code.len() as int) == 0
}

/// Number of `Jz` instructions in `code`.
pub open spec fn jz_count(code: Seq<BrainfuckIR>) -> int
    decreases code.len(),
{
    if code.len() == 0 {
        0
    } else {
        jz_count(code.drop_last()) + (if code.last() is Jz {
            1int
        } else {
            0int
        })
    }
}

/// Number of `Jnz` instructions in `code`.
pub open spec fn jnz_count(code: Seq<BrainfuckIR>) -> int
    decreases code.len(),
{
    if code.len() == 0 {
        0
    } else {
        jnz_count(code.drop_last()) + (if code.last() is Jnz {
            1int
        } else {
            0int
        })
    }
}

/// Appending an instruction does not change `net` over an existing range.
pub proof fn lemma_net_push(code: Seq<BrainfuckIR>, x: BrainfuckIR, a: int, b: int)
    requires
        0 <= a,
        b <= code.len(),
    ensures
        net(code.push(x), a, b) == net(code, a, b),
    decreases b - a,
{
    if a < b {
        lemma_net_push(code, x, a, b - 1);
    }
}

/// `net` adds up over adjacent ranges.
pub proof fn lemma_net_split(code: Seq<BrainfuckIR>, a: int, b: int, c: int)
    requires
        a <= b <= c,
    ensures
        net(code, a, c) == net(code, a, b) + net(code, b, c),
    decreases c - b,
{
    if b < c {
        lemma_net_split(code, a, b, c - 1);
    }
}

/// Over the whole sequence, `net` is the difference of the two jump counts.
pub proof fn lemma_net_counts(code: Seq<BrainfuckIR>)
    ensures
        net(code, 0, code.len() as int) == jz_count(code) - jnz_count(code),
    decreases code.len(),
{
    if code.len() > 0 {
        let pre = code.drop_last();
        lemma_net_counts(pre);
        assert forall|k: int| 0 <= k <= pre.len() implies net(pre, 0, k) == net(code, 0, k) by {
            lemma_net_prefix(code, k);
        }
    }
}

/// `net` over `[0, k)` only looks at the first `k` elements.
pub proof fn lemma_net_prefix(code: Seq<BrainfuckIR>, b: int)
    requires
        b < code.len(),
    ensures
        net(code.drop_last(), 0, b) == net(code, 0, b),
    decreases b,
{
    if b > 0 {
        lemma_net_prefix(code, b - 1);
    }
}

/// The characters whose maximal runs fold into a single instruction.
pub open spec fn is_run_char(c: char) -> bool {
    c == '+' || c == '-' || c == '>' || c == '<'
}

/// Largest run length a single instruction can carry for run character `c`:
/// cell mutations use an 8-bit payload; pointer moves use a 32-bit payload but
/// are kept within a signed 32-bit immediate so the code generator can emit
/// each one as-is. Longer runs fold into several instructions.
pub open spec fn run_cap(c: char) -> int {
    if c == '+' || c == '-' {
        255
    } else {
        0x7FFF_FFFF
    }
}

/// The instruction emitted for a run of `k` copies of `c` (`1 <= k <= run_cap(c)`).
pub open spec fn run_instr(c: char, k: int) -> BrainfuckIR {
    if c == '+' {
        BrainfuckIR::AddVal(k as u8)
    } else if c == '-' {
        BrainfuckIR::SubVal(k as u8)
    } else if c == '>' {
        BrainfuckIR::AddPtr(k as u32)
    } else {
        BrainfuckIR::SubPtr(k as u32)
    }
}

/// Length of the run of copies of `src[i]` that starts at `i`, stopping after
/// at most `budget` characters.
pub open spec fn run_from(src: Seq<char>, i: int, budget: int) -> int
    decreases src.len() - i,
{
    if budget <= 1 || i + 1 >= src.len() || src[i + 1] != src[i] {
        1
    } else {
        1 + run_from(src, i + 1, budget - 1)
    }
}

/// The run length the compiler consumes at position `i`.
pub open spec fn chunk(src: Seq<char>, i: int) -> int {
    run_from(src, i, run_cap(src[i]))
}

pub proof fn lemma_run_from_bounds(src: Seq<char>, i: int, budget: int)
    requires
        i < src.len(),
        1 <= budget,
    ensures
        1 <= run_from(src, i, budget) <= budget,
        i + run_from(src, i, budget) <= src.len(),
        forall|m: int| i <= m < i + run_from(src, i, budget) ==> src[m] == src[i],
    decreases src.len() - i,
{
    if !(budget <= 1 || i + 1 >= src.len() || src[i + 1] != src[i]) {
        lemma_run_from_bounds(src, i + 1, budget - 1);
    }
}

/// A maximal run of `k` equal characters (with `k` within the cap) is consumed
/// in one step of `run_from`.
pub proof fn lemma_run_from_exact(src: Seq<char>, i: int, k: int, budget: int)
    requires
        0 <= i,
        1 <= k <= budget,
        i + k <= src.len(),
        forall|m: int| i <= m < i + k ==> src[m] == src[i],
        i + k == src.len() || src[i + k] != src[i],
    ensures
        run_from(src, i, budget) == k,
    decreases k,
{
    if k == 1 {
    } else {
        assert(src[i + 1] == src[i]);
        lemma_run_from_exact(src, i + 1, k - 1, budget - 1);
    }
}

/// The compiler's bracket stack, as the mathematical triples
/// (instruction index of the `Jz`, line, column).
spec fn stk_view(s: Seq<(usize, usize, usize)>) -> Seq<(int, int, int)>
    decreases s.len(),
{
    if s.len() == 0 {
        Seq::empty()
    } else {
        stk_view(s.drop_last()).push(
            (s.last().0 as int, s.last().1 as int, s.last().2 as int),
        )
    }
}

/// What compilation does from position `i` on, given the position counters,
/// the stack of open brackets and the instructions already emitted.
///
/// Line and column are 1-based; a newline advances the line and resets the
/// column; every consumed character advances the column by one. A maximal run
/// of a run character (capped at `run_cap`) becomes one instruction. `[` opens
/// a bracket, `]` must close one, and anything but the recognized characters,
/// space and newline fails at its own position. At the end of the source a
/// still-open bracket fails at the position of the topmost open `[`.
pub open spec fn compile_from(
    src: Seq<char>,
    i: int,
    line: int,
    col: int,
    stk: Seq<(int, int, int)>,
    code: Seq<BrainfuckIR>,
) -> Result<Seq<BrainfuckIR>, CompileError>
    decreases src.len() - i
    via compile_from_decreases
{
    if i >= src.len() {
        if stk.len() > 0 {
            Err(
                CompileError {
                    line: stk.last().1 as usize,
                    col: stk.last().2 as usize,
                    kind: CompileErrorKind::UnclosedLeftBracket,
                },
            )
        } else {
            Ok(code)
        }
    } else {
        let c = src[i];
        if c == '\n' {
            compile_from(src, i + 1, line + 1, 1, stk, code)
        } else if c == ' ' {
            compile_from(src, i + 1, line, col + 1, stk, code)
        } else if is_run_char(c) {
            let k = chunk(src, i);
            compile_from(src, i + k, line, col + k, stk, code.push(run_instr(c, k)))
        } else if c == ',' {
            compile_from(src, i + 1, line, col + 1, stk, code.push(BrainfuckIR::GetByte))
        } else if c == '.' {
            compile_from(src, i + 1, line, col + 1, stk, code.push(BrainfuckIR::PutByte))
        } else if c == '[' {
            compile_from(
                src,
                i + 1,
                line,
                col + 1,
                stk.push((code.len() as int, line, col)),
                code.push(BrainfuckIR::Jz),
            )
        } else if c == ']' {
            if stk.len() == 0 {
                Err(
                    CompileError {
                        line: line as usize,
                        col: col as usize,
                        kind: CompileErrorKind::UnexpectedRightBracket,
                    },
                )
            } else {
                compile_from(src, i + 1, line, col + 1, stk.drop_last(), code.push(BrainfuckIR::Jnz))
            }
        } else {
            Err(
                CompileError {
                    line: line as usize,
                    col: col as usize,
                    kind: CompileErrorKind::UnknownCharacter,
                },
            )
        }
    }
}

#[via_fn]
proof fn compile_from_decreases(
    src: Seq<char>,
    i: int,
    line: int,
    col: int,
    stk: Seq<(int, int, int)>,
    code: Seq<BrainfuckIR>,
) {
    if i < src.len() && is_run_char(src[i]) {
        lemma_run_from_bounds(src, i, run_cap(src[i]));
    }
}

/// What `compile` returns on a given source text.
pub open spec fn compile_spec(src: Seq<char>) -> Result<Seq<BrainfuckIR>, CompileError> {
    compile_from(src, 0, 1, 1, Seq::empty(), Seq::empty())
}

proof fn lemma_compile_from_balanced(
    src: Seq<char>,
    i: int,
    line: int,
    col: int,
    stk: Seq<(int, int, int)>,
    code: Seq<BrainfuckIR>,
)
    requires
        net(code, 0, code.len() as int) == stk.len() as int,
        prefix_nonneg(code),
    ensures
        (match compile_from(src, i, line, col, stk, code) {
            Ok(out) => balanced(out),
            Err(_) => true,
        }),
    decreases src.len() - i,
{
    if i >= src.len() {
    } else {
        let c = src[i];
        if c == '\n' {
            lemma_compile_from_balanced(src, i + 1, line + 1, 1, stk, code);
        } else if c == ' ' {
            lemma_compile_from_balanced(src, i + 1, line, col + 1, stk, code);
        } else if is_run_char(c) {
            lemma_run_from_bounds(src, i, run_cap(c));
            let k = chunk(src, i);
            lemma_push_keeps_balance_facts(code, run_instr(c, k), stk.len() as int);
            lemma_compile_from_balanced(src, i + k, line, col + k, stk, code.push(run_instr(c, k)));
        } else if c == ',' {
            lemma_push_keeps_balance_facts(code, BrainfuckIR::GetByte, stk.len() as int);
            lemma_compile_from_balanced(src, i + 1, line, col + 1, stk, code.push(BrainfuckIR::GetByte));
        } else if c == '.' {
            lemma_push_keeps_balance_facts(code, BrainfuckIR::PutByte, stk.len() as int);
            lemma_compile_from_balanced(src, i + 1, line, col + 1, stk, code.push(BrainfuckIR::PutByte));
        } else if c == '[' {
            lemma_push_keeps_balance_facts(code, BrainfuckIR::Jz, stk.len() as int);
            lemma_compile_from_balanced(
                src,
                i + 1,
                line,
                col + 1,
                stk.push((code.len() as int, line, col)),
                code.push(BrainfuckIR::Jz),
            );
        } else if c == ']' {
            if stk.len() > 0 {
                lemma_push_keeps_balance_facts(code, BrainfuckIR::Jnz, stk.len() as int);
                lemma_compile_from_balanced(
                    src,
                    i + 1,
                    line,
                    col + 1,
                    stk.drop_last(),
                    code.push(BrainfuckIR::Jnz),
                );
            }
        } else {
        }
    }
}

/// Appending one instruction moves `net` over the whole sequence by its
/// `delta` and keeps all old prefixes non-negative.
proof fn lemma_push_keeps_balance_facts(code: Seq<BrainfuckIR>, x: BrainfuckIR, depth: int)
    requires
        net(code, 0, code.len() as int) == depth,
        depth >= 0,
        prefix_nonneg(code),
        depth + delta(x) >= 0,
    ensures
        net(code.push(x), 0, code.push(x).len() as int) == depth + delta(x),
        prefix_nonneg(code.push(x)),
{
    let code2 = code.push(x);
    let n = code.len() as int;
    lemma_net_push(code, x, 0, n);
    assert(net(code2, 0, n + 1) == net(code2, 0, n) + delta(code2[n]));
    assert forall|k: int| 0 <= k <= code2.len() implies net(code2, 0, k) >= 0 by {
        if k <= n {
            lemma_net_push(code, x, 0, k);
        }
    }
}

/// Successful compilation yields a balanced instruction sequence with equally
/// many `Jz` and `Jnz` instructions, so bracket pairing is total.
pub proof fn lemma_compile_balance(src: Seq<char>)
    ensures
        (match compile_spec(src) {
            Ok(code) => balanced(code) && jz_count(code) == jnz_count(code),
            Err(_) => true,
        }),
{
    lemma_compile_from_balanced(src, 0, 1, 1, Seq::empty(), Seq::empty());
    match compile_spec(src) {
        Ok(code) => {
            lemma_net_counts(code);
        },
        Err(_) => {},
    }
}

/// Run-length folding: a maximal run of `k` equal run characters (within the
/// payload cap) is consumed in one compilation step that emits exactly one
/// instruction, whose payload is the run length `k`, and advances the column
/// by `k`.
pub proof fn lemma_run_length_folding(
    src: Seq<char>,
    i: int,
    line: int,
    col: int,
    stk: Seq<(int, int, int)>,
    code: Seq<BrainfuckIR>,
    k: int,
)
    requires
        0 <= i,
        i + k <= src.len(),
        is_run_char(src[i]),
        1 <= k <= run_cap(src[i]),
        forall|m: int| i <= m < i + k ==> src[m] == src[i],
        i + k == src.len() || src[i + k] != src[i],
    ensures
        compile_from(src, i, line, col, stk, code) == compile_from(
            src,
            i + k,
            line,
            col + k,
            stk,
            code.push(run_instr(src[i], k)),
        ),
{
    lemma_run_from_exact(src, i, k, run_cap(src[i]));
}

/// Builds the vector of the characters of `s`, in order.
fn chars_vec(s: &str) -> (v: Vec<char>)
    ensures
        v@ == s@,
{
    broadcast use vstd::string::axiom_spec_iter;
    broadcast use vstd::string::next_postcondition;

    let mut it = s.chars();
    let mut v: Vec<char> = Vec::new();
    loop
        invariant
            vstd::std_specs::iter::IteratorSpec::obeys_prophetic_iter_laws(&it),
            v@ + vstd::std_specs::iter::IteratorSpec::remaining(&it) == s@,
        ensures
            v@ == s@,
        decreases s@.len() - v@.len(),
    {
        match it.next() {
            Some(c) => {
                v.push(c);
            },
            None => {
                break ;
            },
        }
    }
    v
}

/// Counts the run of copies of `src[i]` that starts at `i`, stopping at the
/// payload cap of that character.
fn run_chunk(src: &Vec<char>, i: usize) -> (k: usize)
    requires
        i < src@.len(),
        src@.len() < usize::MAX,
        is_run_char(src@[i as int]),
    ensures
        k as int == chunk(src@, i as int),
        1 <= k,
        i + k <= src@.len(),
        k <= run_cap(src@[i as int]),
    decreases src@.len() - i,
{
    let c = src[i];
    let cap: usize = if c == '+' || c == '-' {
        255
    } else {
        0x7FFF_FFFF
    };
    let mut j: usize = i + 1;
    while j < src.len() && src[j] == c && j - i < cap
        invariant
            i < j <= src@.len(),
            j - i <= cap,
            i < src@.len(),
            src@[i as int] == c,
            cap as int == run_cap(c),
            forall|m: int| i <= m < j ==> src@[m] == c,
            run_from(src@, i as int, cap as int) == (j - i - 1) + run_from(
                src@,
                j - 1,
                cap - (j - i - 1),
            ),
        decreases cap - (j - i),
    {
        assert(run_from(src@, j - 1, cap - (j - i - 1)) == 1 + run_from(src@, j as int, cap - (j
            - i)));
        j = j + 1;
    }
    proof {
        lemma_run_from_bounds(src@, i as int, cap as int);
        assert(run_from(src@, j - 1, cap - (j - i - 1)) == 1);
    }
    j - i
}

/// Compiles a source text to its instruction sequence.
///
/// On success the result is exactly what `compile_spec` describes: maximal
/// runs of `+ - > <` fold into single instructions with the run length as
/// payload, `,` and `.` become `GetByte`/`PutByte`, brackets become `Jz`/`Jnz`
/// and must balance, space and newline are skipped, and anything else is
/// rejected at its 1-based (line, column) position.
pub fn compile(source: &str) -> (r: Result<Vec<BrainfuckIR>, CompileError>)
    requires
        source@.len() < usize::MAX,
    ensures
        (match r {
            Ok(code) => compile_spec(source@) == Ok::<Seq<BrainfuckIR>, CompileError>(code@),
            Err(e) => compile_spec(source@) == Err::<Seq<BrainfuckIR>, CompileError>(e),
        }),
{
    let src = chars_vec(source);
    let n = src.len();
    let mut code: Vec<BrainfuckIR> = Vec::new();
    let mut stack: Vec<(usize, usize, usize)> = Vec::new();
    let mut line: usize = 1;
    let mut col: usize = 1;
    let mut i: usize = 0;
    while i < n
        invariant
            src@ == source@,
            n == src@.len(),
            n < usize::MAX,
            i <= n,
            1 <= line <= i + 1,
            1 <= col <= i + 1,
            stk_view(stack@).len() == stack@.len(),
            compile_spec(source@) == compile_from(
                src@,
                i as int,
                line as int,
                col as int,
                stk_view(stack@),
                code@,
            ),
        decreases n - i,
    {
        let c = src[i];
        if c == '\n' {
            line = line + 1;
            col = 1;
            i = i + 1;
        } else if c == ' ' {
            col = col + 1;
            i = i + 1;
        } else if c == '+' || c == '-' || c == '>' || c == '<' {
            let k = run_chunk(&src, i);
            let instr = if c == '+' {
                BrainfuckIR::AddVal(k as u8)
            } else if c == '-' {
                BrainfuckIR::SubVal(k as u8)
            } else if c == '>' {
                BrainfuckIR::AddPtr(k as u32)
            } else {
                BrainfuckIR::SubPtr(k as u32)
            };
            assert(instr == run_instr(c, k as int));
            code.push(instr);
            i = i + k;
            col = col + k;
        } else if c == ',' {
            code.push(BrainfuckIR::GetByte);
            col = col + 1;
            i = i + 1;
        } else if c == '.' {
            code.push(BrainfuckIR::PutByte);
            col = col + 1;
            i = i + 1;
        } else if c == '[' {
            let pos = code.len();
            proof {
                lemma_stk_view_push(stack@, (pos, line, col));
            }
            stack.push((pos, line, col));
            code.push(BrainfuckIR::Jz);
            col = col + 1;
            i = i + 1;
        } else if c == ']' {
            proof {
                if stack@.len() > 0 {
                    lemma_stk_view_pop(stack@);
                }
            }
            match stack.pop() {
                Some(_) => {
                    code.push(BrainfuckIR::Jnz);
                    col = col + 1;
                    i = i + 1;
                },
                None => {
                    return Err(
                        CompileError { line, col, kind: CompileErrorKind::UnexpectedRightBracket },
                    );
                },
            }
        } else {
            return Err(CompileError { line, col, kind: CompileErrorKind::UnknownCharacter });
        }
    }
    proof {
        if stack@.len() > 0 {
            lemma_stk_view_pop(stack@);
        }
    }
    match stack.pop() {
        Some(top) => Err(
            CompileError { line: top.1, col: top.2, kind: CompileErrorKind::UnclosedLeftBracket },
        ),
        None => Ok(code),
    }
}

proof fn lemma_stk_view_push(s: Seq<(usize, usize, usize)>, t: (usize, usize, usize))
    ensures
        stk_view(s.push(t)) == stk_view(s).push((t.0 as int, t.1 as int, t.2 as int)),
{
    assert(s.push(t).drop_last() =~= s);
    assert(s.push(t).last() == t);
}

proof fn lemma_stk_view_pop(s: Seq<(usize, usize, usize)>)
    requires
        s.len() > 0,
    ensures
        stk_view(s.drop_last()) == stk_view(s).drop_last(),
        stk_view(s).last() == (s.last().0 as int, s.last().1 as int, s.last().2 as int),
{
    assert(stk_view(s.drop_last()).push(
        (s.last().0 as int, s.last().1 as int, s.last().2 as int),
    ).drop_last() =~= stk_view(s.drop_last()));
}

} // verus!
