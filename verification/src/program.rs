//! The language: which characters of a source text are commands, when its
//! brackets are nested, and which instruction sequence a text denotes.

use vstd::prelude::*;

verus! {

/// One instruction of a compiled program. The operand of a branch is the
/// position, in the same program, of the bracket that it is paired with.
pub enum Instruction {
    /// `>`
    MoveRight,
    /// `<`
    MoveLeft,
    /// `+`
    Increment,
    /// `-`
    Decrement,
    /// `.`
    Output,
    /// `,`
    Input,
    /// `[`
    BranchIfZero(nat),
    /// `]`
    BranchIfNonzero(nat),
}

/// The eight characters that denote an instruction. Every other character is
/// a comment.
pub open spec fn is_command(c: char) -> bool {
    c == '>' || c == '<' || c == '+' || c == '-' || c == '.' || c == ',' || c == '[' || c == ']'
}

/// The source text with its comments dropped.
pub open spec fn commands(src: Seq<char>) -> Seq<char> {
    src.filter(|c: char| is_command(c))
}

/// What a character adds to the bracket depth.
pub open spec fn weight(c: char) -> int {
    if c == '[' {
        1
    } else if c == ']' {
        -1
    } else {
        0
    }
}

/// The number of `[` in `s` less the number of `]`.
pub open spec fn depth(s: Seq<char>) -> int
    decreases s.len(),
{
    if s.len() == 0 {
        0
    } else {
        depth(s.drop_last()) + weight(s.last())
    }
}

/// The bracket depth after the first `k` characters of `s`.
pub open spec fn level(s: Seq<char>, k: int) -> int {
    depth(s.take(k))
}

/// The brackets of `s` are balanced: as many `[` as `]`, and no `]` before
/// the `[` that it closes.
pub open spec fn nested(s: Seq<char>) -> bool {
    &&& depth(s) == 0
    &&& forall|k: int| 0 <= k <= s.len() ==> #[trigger] level(s, k) >= 0
}

/// The `[` at `open` and the `]` at `close` belong together: the text between
/// them is balanced.
pub open spec fn matched(s: Seq<char>, open: int, close: int) -> bool {
    &&& 0 <= open < close < s.len()
    &&& s[open] == '['
    &&& s[close] == ']'
    &&& nested(s.subrange(open + 1, close))
}

/// The position of the `]` that closes the `[` at `open`.
pub open spec fn closer_of(s: Seq<char>, open: int) -> int {
    choose|close: int| matched(s, open, close)
}

/// The position of the `[` that the `]` at `close` closes.
pub open spec fn opener_of(s: Seq<char>, close: int) -> int {
    choose|open: int| matched(s, open, close)
}

/// The instruction that the command at position `i` of `cmds` denotes.
pub open spec fn instruction_at(cmds: Seq<char>, i: int) -> Instruction {
    let c = cmds[i];
    if c == '>' {
        Instruction::MoveRight
    } else if c == '<' {
        Instruction::MoveLeft
    } else if c == '+' {
        Instruction::Increment
    } else if c == '-' {
        Instruction::Decrement
    } else if c == '.' {
        Instruction::Output
    } else if c == ',' {
        Instruction::Input
    } else if c == '[' {
        Instruction::BranchIfZero(closer_of(cmds, i) as nat)
    } else {
        Instruction::BranchIfNonzero(opener_of(cmds, i) as nat)
    }
}

/// The program that a source text denotes: one instruction for each command,
/// in the order of the text.
pub open spec fn program(src: Seq<char>) -> Seq<Instruction> {
    let cmds = commands(src);
    Seq::new(cmds.len(), |i: int| instruction_at(cmds, i))
}

/// Every branch points at a branch of the other kind that points back at it,
/// the `[` before the `]`.
pub open spec fn paired(code: Seq<Instruction>) -> bool {
    forall|i: int|
        0 <= i < code.len() ==> match #[trigger] code[i] {
            Instruction::BranchIfZero(t) => i < t < code.len() && code[t as int]
                == Instruction::BranchIfNonzero(i as nat),
            Instruction::BranchIfNonzero(t) => t < i && code[t as int]
                == Instruction::BranchIfZero(i as nat),
            _ => true,
        }
}

/// Appending a character adds its weight to the depth.
pub proof fn lemma_depth_push(s: Seq<char>, c: char)
    ensures
        depth(s.push(c)) == depth(s) + weight(c),
{
    assert(s.push(c).drop_last() =~= s);
}

/// The depth of a concatenation is the sum of the depths.
pub proof fn lemma_depth_concat(a: Seq<char>, b: Seq<char>)
    ensures
        depth(a + b) == depth(a) + depth(b),
    decreases b.len(),
{
    if b.len() == 0 {
        assert(a + b =~= a);
    } else {
        lemma_depth_concat(a, b.drop_last());
        assert((a + b).drop_last() =~= a + b.drop_last());
    }
}

/// The level rises or falls by the weight of the character passed.
pub proof fn lemma_level_next(s: Seq<char>, k: int)
    requires
        0 <= k < s.len(),
    ensures
        level(s, k + 1) == level(s, k) + weight(s[k]),
{
    assert(s.take(k + 1) =~= s.take(k).push(s[k]));
    lemma_depth_push(s.take(k), s[k]);
}

/// The depth of a slice is the difference of the levels at its ends, and the
/// levels inside it are those of the whole, shifted.
pub proof fn lemma_slice_levels(s: Seq<char>, from: int, to: int)
    requires
        0 <= from <= to <= s.len(),
    ensures
        depth(s.subrange(from, to)) == level(s, to) - level(s, from),
        forall|k: int|
            0 <= k <= to - from ==> #[trigger] level(s.subrange(from, to), k) == level(s, from + k)
                - level(s, from),
{
    assert(s.take(to) =~= s.take(from) + s.subrange(from, to));
    lemma_depth_concat(s.take(from), s.subrange(from, to));
    assert forall|k: int| 0 <= k <= to - from implies #[trigger] level(s.subrange(from, to), k)
        == level(s, from + k) - level(s, from) by {
        assert(s.subrange(from, to).take(k) =~= s.subrange(from, from + k));
        assert(s.take(from + k) =~= s.take(from) + s.subrange(from, from + k));
        lemma_depth_concat(s.take(from), s.subrange(from, from + k));
    }
}

/// A slice is balanced exactly when the level at its end is the level at its
/// start and no level in between lies below that.
pub proof fn lemma_nested_slice(s: Seq<char>, from: int, to: int)
    requires
        0 <= from <= to <= s.len(),
    ensures
        nested(s.subrange(from, to)) <==> {
            &&& level(s, to) == level(s, from)
            &&& forall|k: int| from <= k <= to ==> #[trigger] level(s, k) >= level(s, from)
        },
{
    let u = s.subrange(from, to);
    lemma_slice_levels(s, from, to);
    if nested(u) {
        assert forall|k: int| from <= k <= to implies #[trigger] level(s, k) >= level(s, from) by {
            assert(level(u, k - from) >= 0);
        }
    }
    if level(s, to) == level(s, from) && (forall|k: int|
        from <= k <= to ==> #[trigger] level(s, k) >= level(s, from)) {
        assert forall|k: int| 0 <= k <= u.len() implies #[trigger] level(u, k) >= 0 by {
            assert(level(s, from + k) >= level(s, from));
        }
    }
}

/// A `[` has at most one `]` that closes it.
pub proof fn lemma_closer_unique(s: Seq<char>, open: int, a: int, b: int)
    requires
        matched(s, open, a),
        matched(s, open, b),
    ensures
        a == b,
{
    lemma_nested_slice(s, open + 1, a);
    lemma_nested_slice(s, open + 1, b);
    if a < b {
        lemma_level_next(s, a);
        assert(level(s, a + 1) >= level(s, open + 1));
    }
    if b < a {
        lemma_level_next(s, b);
        assert(level(s, b + 1) >= level(s, open + 1));
    }
}

/// A `]` closes at most one `[`.
pub proof fn lemma_opener_unique(s: Seq<char>, a: int, b: int, close: int)
    requires
        matched(s, a, close),
        matched(s, b, close),
    ensures
        a == b,
{
    lemma_nested_slice(s, a + 1, close);
    lemma_nested_slice(s, b + 1, close);
    if a < b {
        lemma_level_next(s, b);
        assert(level(s, b) >= level(s, a + 1));
    }
    if b < a {
        lemma_level_next(s, a);
        assert(level(s, a) >= level(s, b + 1));
    }
}

/// A command is kept, a comment is dropped.
pub proof fn lemma_commands_push(s: Seq<char>, c: char)
    ensures
        commands(s.push(c)) == if is_command(c) {
            commands(s).push(c)
        } else {
            commands(s)
        },
{
    reveal(Seq::filter);
    assert(s.push(c).drop_last() =~= s);
}

} // verus!
