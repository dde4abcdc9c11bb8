//! Why a text with balanced brackets denotes a program whose branches are
//! paired. The argument reads the text from left to right and keeps, for
//! each `[` that still waits for its `]`, its position on a stack.

use crate::program::{
    closer_of, commands, depth, instruction_at, is_command, lemma_closer_unique,
    lemma_commands_push, lemma_depth_push, lemma_level_next, lemma_nested_slice,
    lemma_opener_unique, level, matched, nested, opener_of, paired, program, Instruction,
};
use vstd::prelude::*;

verus! {

/// The `[` at `i` still waits for its `]`.
pub open spec fn waiting(stack: Seq<int>, i: int) -> bool {
    exists|m: int| 0 <= m < stack.len() && #[trigger] stack[m] == i
}

/// The instruction at `i` is the one that the command at `i` asks for, as
/// far as that is known before the text has been read to its end: a `[`
/// that still waits may hold any target.
pub open spec fn resolved(cmds: Seq<char>, code: Seq<Instruction>, stack: Seq<int>, i: int) -> bool {
    if cmds[i] == '[' {
        match code[i] {
            Instruction::BranchIfZero(target) => waiting(stack, i) || matched(
                cmds,
                i,
                target as int,
            ),
            _ => false,
        }
    } else if cmds[i] == ']' {
        match code[i] {
            Instruction::BranchIfNonzero(target) => matched(cmds, target as int, i),
            _ => false,
        }
    } else {
        code[i] == instruction_at(cmds, i)
    }
}

/// The level at `k`, named together with the waiting bracket `m` that it is
/// held against.
pub open spec fn level_above(cmds: Seq<char>, stack: Seq<int>, m: int, k: int) -> int {
    level(cmds, k)
}

/// What holds of the instructions `code` and of the `stack` of waiting
/// brackets when the commands `cmds` have been read: every instruction is
/// resolved, the stack holds the positions of the waiting `[` from the
/// outermost to the innermost, and behind the `m`-th of them the level never
/// falls back to `m`.
pub open spec fn reading(cmds: Seq<char>, code: Seq<Instruction>, stack: Seq<int>) -> bool {
    &&& code.len() == cmds.len()
    &&& depth(cmds) == stack.len()
    &&& forall|i: int| 0 <= i < cmds.len() ==> is_command(#[trigger] cmds[i])
    &&& forall|i: int| 0 <= i < cmds.len() ==> #[trigger] resolved(cmds, code, stack, i)
    &&& forall|m: int|
        0 <= m < stack.len() ==> {
            &&& 0 <= (#[trigger] stack[m]) < cmds.len()
            &&& cmds[stack[m]] == '['
            &&& level(cmds, stack[m]) == m
        }
    &&& forall|m: int, k: int|
        0 <= m < stack.len() && stack[m] < k <= cmds.len() ==> m < #[trigger] level_above(
            cmds,
            stack,
            m,
            k,
        )
}

/// Reading one more command leaves the levels and the matches of the text
/// read before as they were.
proof fn lemma_push_keeps(cmds: Seq<char>, c: char)
    ensures
        forall|k: int| 0 <= k <= cmds.len() ==> #[trigger] level(cmds.push(c), k) == level(cmds, k),
        level(cmds, cmds.len() as int) == depth(cmds),
        level(cmds.push(c), cmds.len() as int + 1) == depth(cmds.push(c)),
        forall|i: int, j: int| #[trigger]
            matched(cmds, i, j) ==> matched(cmds.push(c), i, j),
{
    let next = cmds.push(c);
    assert forall|k: int| 0 <= k <= cmds.len() implies #[trigger] level(next, k) == level(
        cmds,
        k,
    ) by {
        assert(next.take(k) =~= cmds.take(k));
    }
    assert(cmds.take(cmds.len() as int) =~= cmds);
    assert(next.take(cmds.len() as int + 1) =~= next);
    assert forall|i: int, j: int| #[trigger] matched(cmds, i, j) implies matched(next, i, j) by {
        assert(next.subrange(i + 1, j) =~= cmds.subrange(i + 1, j));
    }
}

/// Before anything is read there is no instruction and no bracket waits.
pub proof fn lemma_read_nothing()
    ensures
        reading(Seq::empty(), Seq::empty(), Seq::empty()),
{
}

/// Reading a command other than a bracket appends its instruction.
pub proof fn lemma_read_plain(cmds: Seq<char>, code: Seq<Instruction>, stack: Seq<int>, c: char)
    requires
        reading(cmds, code, stack),
        is_command(c),
        c != '[',
        c != ']',
    ensures
        reading(cmds.push(c), code.push(instruction_at(cmds.push(c), cmds.len() as int)), stack),
{
    let next = cmds.push(c);
    let len = cmds.len() as int;
    let grown = code.push(instruction_at(next, len));
    lemma_push_keeps(cmds, c);
    lemma_depth_push(cmds, c);
    assert forall|i: int| 0 <= i < next.len() implies #[trigger] resolved(next, grown, stack, i) by {
        if i < len {
            assert(resolved(cmds, code, stack, i));
        }
    }
    assert forall|m: int, k: int| 0 <= m < stack.len() && stack[m] < k <= next.len() implies m
        < #[trigger] level_above(next, stack, m, k) by {
        if k <= len {
            assert(m < level_above(cmds, stack, m, k));
        }
    }
}

/// Reading a `[` appends a branch whose target is still open, and puts its
/// position on the stack.
pub proof fn lemma_read_open(cmds: Seq<char>, code: Seq<Instruction>, stack: Seq<int>)
    requires
        reading(cmds, code, stack),
    ensures
        reading(
            cmds.push('['),
            code.push(Instruction::BranchIfZero(0)),
            stack.push(cmds.len() as int),
        ),
{
    let next = cmds.push('[');
    let len = cmds.len() as int;
    let grown = code.push(Instruction::BranchIfZero(0));
    let pushed = stack.push(len);
    lemma_push_keeps(cmds, '[');
    lemma_depth_push(cmds, '[');
    assert forall|i: int| 0 <= i < next.len() implies #[trigger] resolved(next, grown, pushed, i) by {
        if i < len {
            assert(resolved(cmds, code, stack, i));
            if waiting(stack, i) {
                let m = choose|m: int| 0 <= m < stack.len() && #[trigger] stack[m] == i;
                assert(pushed[m] == i);
            }
        } else {
            assert(pushed[stack.len() as int] == i);
        }
    }
    assert forall|m: int, k: int| 0 <= m < pushed.len() && pushed[m] < k <= next.len() implies m
        < #[trigger] level_above(next, pushed, m, k) by {
        if k <= len {
            assert(m < level_above(cmds, stack, m, k));
        }
    }
}

/// Reading a `]` while a `[` waits takes the innermost waiting `[` from the
/// stack: the two are matched, and each is given the position of the other.
pub proof fn lemma_read_close(cmds: Seq<char>, code: Seq<Instruction>, stack: Seq<int>)
    requires
        reading(cmds, code, stack),
        stack.len() > 0,
    ensures
        0 <= stack.last() < code.len(),
        reading(
            cmds.push(']'),
            code.update(stack.last(), Instruction::BranchIfZero(cmds.len())).push(
                Instruction::BranchIfNonzero(stack.last() as nat),
            ),
            stack.drop_last(),
        ),
{
    let next = cmds.push(']');
    let len = cmds.len() as int;
    let top = stack.len() - 1;
    let open = stack.last();
    let patched = code.update(open, Instruction::BranchIfZero(cmds.len())).push(
        Instruction::BranchIfNonzero(open as nat),
    );
    let popped = stack.drop_last();
    lemma_push_keeps(cmds, ']');
    lemma_depth_push(cmds, ']');
    assert(stack[top] == open);
    assert(matched(next, open, len)) by {
        lemma_level_next(cmds, open);
        lemma_nested_slice(next, open + 1, len);
        assert forall|k: int| open + 1 <= k <= len implies #[trigger] level(next, k) >= level(
            next,
            open + 1,
        ) by {
            assert(top < level_above(cmds, stack, top, k));
        }
    }
    assert forall|i: int| 0 <= i < next.len() implies #[trigger] resolved(next, patched, popped, i) by {
        if i < len && i != open {
            assert(resolved(cmds, code, stack, i));
            if waiting(stack, i) {
                let m = choose|m: int| 0 <= m < stack.len() && #[trigger] stack[m] == i;
                assert(popped[m] == i);
            }
        }
    }
    assert forall|m: int, k: int| 0 <= m < popped.len() && popped[m] < k <= next.len() implies m
        < #[trigger] level_above(next, popped, m, k) by {
        if k <= len {
            assert(m < level_above(cmds, stack, m, k));
        }
    }
}

/// When the whole text has been read and no `[` waits, the instructions are
/// those that the text denotes, and the branches are paired.
pub proof fn lemma_read_all(cmds: Seq<char>, code: Seq<Instruction>)
    requires
        reading(cmds, code, Seq::empty()),
    ensures
        code == Seq::new(cmds.len(), |i: int| instruction_at(cmds, i)),
        paired(code),
{
    let none = Seq::<int>::empty();
    let denoted = Seq::new(cmds.len(), |i: int| instruction_at(cmds, i));
    assert forall|i: int| 0 <= i < cmds.len() implies code[i] == #[trigger] denoted[i] by {
        assert(resolved(cmds, code, none, i));
        if cmds[i] == '[' {
            let target = code[i]->BranchIfZero_0 as int;
            assert(matched(cmds, i, target));
            lemma_closer_unique(cmds, i, target, closer_of(cmds, i));
        } else if cmds[i] == ']' {
            let target = code[i]->BranchIfNonzero_0 as int;
            assert(matched(cmds, target, i));
            lemma_opener_unique(cmds, target, opener_of(cmds, i), i);
        }
    }
    assert(code =~= denoted);
    assert forall|i: int| 0 <= i < code.len() implies match #[trigger] code[i] {
        Instruction::BranchIfZero(t) => i < t < code.len() && code[t as int]
            == Instruction::BranchIfNonzero(i as nat),
        Instruction::BranchIfNonzero(t) => t < i && code[t as int] == Instruction::BranchIfZero(
            i as nat,
        ),
        _ => true,
    } by {
        assert(resolved(cmds, code, none, i));
        assert(is_command(cmds[i]));
        if cmds[i] == '[' {
            let close = code[i]->BranchIfZero_0 as int;
            assert(matched(cmds, i, close));
            assert(resolved(cmds, code, none, close));
            lemma_opener_unique(cmds, i, code[close]->BranchIfNonzero_0 as int, close);
        } else if cmds[i] == ']' {
            let open = code[i]->BranchIfNonzero_0 as int;
            assert(matched(cmds, open, i));
            assert(resolved(cmds, code, none, open));
            lemma_closer_unique(cmds, open, i, code[open]->BranchIfZero_0 as int);
        }
    }
}

/// As long as no `]` comes before its `[`, the first `n` characters of a
/// text can be read, and as many `[` wait as the level at `n` says.
proof fn lemma_read_prefix(src: Seq<char>, n: int) -> (state: (Seq<Instruction>, Seq<int>))
    requires
        0 <= n <= src.len(),
        forall|k: int| 0 <= k <= n ==> #[trigger] level(src, k) >= 0,
    ensures
        reading(commands(src.take(n)), state.0, state.1),
        state.1.len() == level(src, n),
    decreases n,
{
    if n == 0 {
        assert(src.take(0) =~= Seq::<char>::empty());
        assert(commands(Seq::<char>::empty()) =~= Seq::<char>::empty()) by {
            reveal(Seq::filter);
        }
        (Seq::empty(), Seq::empty())
    } else {
        let (code, stack) = lemma_read_prefix(src, n - 1);
        let c = src[n - 1];
        let cmds = commands(src.take(n - 1));
        assert(src.take(n) =~= src.take(n - 1).push(c));
        lemma_commands_push(src.take(n - 1), c);
        lemma_level_next(src, n - 1);
        assert(level(src, n) >= 0);
        if c == '[' {
            lemma_read_open(cmds, code, stack);
            (code.push(Instruction::BranchIfZero(0)), stack.push(cmds.len() as int))
        } else if c == ']' {
            lemma_read_close(cmds, code, stack);
            (
                code.update(stack.last(), Instruction::BranchIfZero(cmds.len())).push(
                    Instruction::BranchIfNonzero(stack.last() as nat),
                ),
                stack.drop_last(),
            )
        } else if is_command(c) {
            lemma_read_plain(cmds, code, stack, c);
            (code.push(instruction_at(cmds.push(c), cmds.len() as int)), stack)
        } else {
            (code, stack)
        }
    }
}

/// A text whose brackets are balanced denotes a program in which every
/// branch points at a branch of the other kind that points back at it.
pub proof fn lemma_nested_is_paired(src: Seq<char>)
    requires
        nested(src),
    ensures
        paired(program(src)),
{
    let (code, stack) = lemma_read_prefix(src, src.len() as int);
    assert(src.take(src.len() as int) =~= src);
    assert(stack =~= Seq::empty());
    lemma_read_all(commands(src), code);
}

} // verus!
