use vstd::prelude::*;
use vstd::pervasive::VecAdditionalExecFns;

use crate::CompileError;
use crate::Instruction;

verus! {

/// The primitive instruction a source character maps to; every character
/// outside the eight meaningful ones is a comment and maps to nothing.
/// Brackets map to placeholder jumps whose targets are resolved later.
pub open spec fn instr_of_char(c: char) -> Option<Instruction> {
    if c == '>' {
        Some(Instruction::MovePointer(1))
    } else if c == '<' {
        Some(Instruction::MovePointer(-1isize))
    } else if c == '+' {
        Some(Instruction::Add(1))
    } else if c == '-' {
        Some(Instruction::Add(-1isize))
    } else if c == '.' {
        Some(Instruction::Output)
    } else if c == ',' {
        Some(Instruction::Input)
    } else if c == '[' {
        Some(Instruction::JumpIfZero(0))
    } else if c == ']' {
        Some(Instruction::JumpIfNonZero(0))
    } else {
        None
    }
}

/// The character-to-instruction pass: the raw instruction sequence together
/// with the number of still-open brackets, or a syntax error as soon as a
/// closing bracket arrives while no bracket is open.
pub open spec fn scan(src: Seq<char>) -> Result<(Seq<Instruction>, nat), CompileError>
    decreases src.len(),
{
    if src.len() == 0 {
        Ok((Seq::empty(), 0))
    } else {
        match scan(src.drop_last()) {
            Err(e) => Err(e),
            Ok(acc) => {
                let c = src.last();
                if c == ']' {
                    if acc.1 == 0 {
                        Err(CompileError::SyntaxError)
                    } else {
                        Ok((acc.0.push(Instruction::JumpIfNonZero(0)), (acc.1 - 1) as nat))
                    }
                } else if c == '[' {
                    Ok((acc.0.push(Instruction::JumpIfZero(0)), acc.1 + 1))
                } else {
                    match instr_of_char(c) {
                        Some(i) => Ok((acc.0.push(i), acc.1)),
                        None => Ok(acc),
                    }
                }
            },
        }
    }
}

/// Two adjacent instructions of the same payload-carrying kind merge into
/// one whose payload is the (wrapping) sum of the two.
pub open spec fn merged(a: Instruction, b: Instruction) -> Instruction {
    match (a, b) {
        (Instruction::MovePointer(n), Instruction::MovePointer(m)) => Instruction::MovePointer(
            vstd::wrapping::isize_specs::wrapping_add(n, m),
        ),
        (Instruction::Add(n), Instruction::Add(m)) => Instruction::Add(
            vstd::wrapping::isize_specs::wrapping_add(n, m),
        ),
        _ => b,
    }
}

/// One step of the fusion pass: the next instruction either merges into the
/// last one emitted or is appended as it is.
pub open spec fn fuse_one(acc: Seq<Instruction>, i: Instruction) -> Seq<Instruction> {
    if acc.len() > 0 && acc.last().fuses_with(i) {
        acc.update(acc.len() - 1, merged(acc.last(), i))
    } else {
        acc.push(i)
    }
}

/// The adjacency-fusion pass: a single left-to-right scan that merges every
/// run of same-kind `MovePointer` or `Add` instructions; all other kinds
/// are copied through and end a run.
pub open spec fn fuse(s: Seq<Instruction>) -> Seq<Instruction>
    decreases s.len(),
{
    if s.len() == 0 {
        Seq::empty()
    } else {
        fuse_one(fuse(s.drop_last()), s.last())
    }
}

/// A sequence with no adjacent pair left that the fusion pass could merge.
pub open spec fn fully_fused(s: Seq<Instruction>) -> bool {
    forall|k: int| 0 <= k < s.len() - 1 ==> !(#[trigger] s[k]).fuses_with(s[k + 1])
}

/// Merging two fusible instructions keeps the kind of the run.
proof fn lemma_merged_keeps_kind(a: Instruction, b: Instruction)
    requires
        a.fuses_with(b),
    ensures
        merged(a, b) is MovePointer <==> a is MovePointer,
        merged(a, b) is Add <==> a is Add,
{
}

/// The fusion pass leaves nothing more to merge.
proof fn lemma_fuse_fully_fused(s: Seq<Instruction>)
    ensures
        fully_fused(fuse(s)),
    decreases s.len(),
{
    if s.len() > 0 {
        lemma_fuse_fully_fused(s.drop_last());
        let prev = fuse(s.drop_last());
        let out = fuse(s);
        if prev.len() > 0 && prev.last().fuses_with(s.last()) {
            lemma_merged_keeps_kind(prev.last(), s.last());
            assert forall|k: int| 0 <= k < out.len() - 1 implies !(#[trigger] out[k]).fuses_with(
                out[k + 1],
            ) by {
                assert(!prev[k].fuses_with(prev[k + 1]));
            }
        } else {
            assert forall|k: int| 0 <= k < out.len() - 1 implies !(#[trigger] out[k]).fuses_with(
                out[k + 1],
            ) by {
                if k < out.len() - 2 {
                    assert(!prev[k].fuses_with(prev[k + 1]));
                }
            }
        }
    }
}

/// On a sequence with nothing left to merge, fusion changes nothing.
proof fn lemma_fuse_of_fused(s: Seq<Instruction>)
    requires
        fully_fused(s),
    ensures
        fuse(s) == s,
    decreases s.len(),
{
    if s.len() == 0 {
        assert(fuse(s) =~= s);
    } else {
        assert(fully_fused(s.drop_last())) by {
            assert forall|k: int| 0 <= k < s.drop_last().len() - 1 implies !(
            #[trigger] s.drop_last()[k]).fuses_with(s.drop_last()[k + 1]) by {
                assert(s[k] == s.drop_last()[k]);
                assert(s[k + 1] == s.drop_last()[k + 1]);
            }
        }
        lemma_fuse_of_fused(s.drop_last());
        if s.len() >= 2 {
            assert(!s[s.len() - 2].fuses_with(s[s.len() - 1]));
        }
        assert(fuse(s) =~= s);
    }
}

/// Fusion is idempotent: running the fusion pass again over an already
/// fused sequence yields the identical sequence.
pub proof fn lemma_fusion_idempotent(s: Seq<Instruction>)
    ensures
        fuse(fuse(s)) == fuse(s),
{
    lemma_fuse_fully_fused(s);
    lemma_fuse_of_fused(fuse(s));
}

/// The bracket re-resolution pass, walking `s` from position `i` with the
/// stack of indices of still-unmatched `JumpIfZero` instructions, rewriting
/// `acc` so that each member of a pair targets the other's index. A
/// `JumpIfNonZero` found with an empty stack is a fatal internal error.
pub open spec fn resolve_from(
    acc: Seq<Instruction>,
    s: Seq<Instruction>,
    i: int,
    stack: Seq<usize>,
) -> Result<Seq<Instruction>, CompileError>
    decreases s.len() - i,
{
    if i < 0 || i >= s.len() {
        Ok(acc)
    } else {
        match s[i] {
            Instruction::JumpIfZero(_) => resolve_from(acc, s, i + 1, stack.push(i as usize)),
            Instruction::JumpIfNonZero(_) => {
                if stack.len() == 0 {
                    Err(CompileError::InternalInvariantError)
                } else {
                    let j = stack.last();
                    resolve_from(
                        acc.update(j as int, Instruction::JumpIfZero(i as usize)).update(
                            i,
                            Instruction::JumpIfNonZero(j),
                        ),
                        s,
                        i + 1,
                        stack.drop_last(),
                    )
                }
            },
            _ => resolve_from(acc, s, i + 1, stack),
        }
    }
}

/// Recompute every jump target from scratch on a (fused) sequence.
pub open spec fn resolve(s: Seq<Instruction>) -> Result<Seq<Instruction>, CompileError> {
    resolve_from(s, s, 0, Seq::empty())
}

/// The character pass emits at most one instruction per character.
proof fn lemma_scan_len(src: Seq<char>)
    requires
        scan(src) is Ok,
    ensures
        scan(src)->Ok_0.0.len() <= src.len(),
    decreases src.len(),
{
    if src.len() > 0 {
        lemma_scan_len(src.drop_last());
    }
}

/// Fusion never lengthens a sequence.
proof fn lemma_fuse_len(s: Seq<Instruction>)
    ensures
        fuse(s).len() <= s.len(),
    decreases s.len(),
{
    if s.len() > 0 {
        lemma_fuse_len(s.drop_last());
    }
}

/// How many `JumpIfZero` instructions a sequence holds.
pub open spec fn jz_count(s: Seq<Instruction>) -> int
    decreases s.len(),
{
    if s.len() == 0 {
        0
    } else {
        jz_count(s.drop_last()) + if s.last() is JumpIfZero {
            1int
        } else {
            0int
        }
    }
}

/// How many `JumpIfNonZero` instructions a sequence holds.
pub open spec fn jnz_count(s: Seq<Instruction>) -> int
    decreases s.len(),
{
    if s.len() == 0 {
        0
    } else {
        jnz_count(s.drop_last()) + if s.last() is JumpIfNonZero {
            1int
        } else {
            0int
        }
    }
}

/// Brackets obey a stack discipline: no prefix closes more than it opens.
pub open spec fn prefix_balanced(s: Seq<Instruction>) -> bool {
    forall|i: int| 0 <= i <= s.len() ==> jnz_count(#[trigger] s.take(i)) <= jz_count(s.take(i))
}

/// What the character pass emits is prefix-balanced, and the number of
/// still-open brackets it reports is the count surplus.
proof fn lemma_scan_balanced(src: Seq<char>)
    requires
        scan(src) is Ok,
    ensures
        prefix_balanced(scan(src)->Ok_0.0),
        jz_count(scan(src)->Ok_0.0) - jnz_count(scan(src)->Ok_0.0) == scan(src)->Ok_0.1,
    decreases src.len(),
{
    if src.len() == 0 {
        let ir = scan(src)->Ok_0.0;
        assert forall|i: int| 0 <= i <= ir.len() implies jnz_count(#[trigger] ir.take(i))
            <= jz_count(ir.take(i)) by {
            assert(ir.take(i) =~= ir);
        }
    } else {
        lemma_scan_balanced(src.drop_last());
        let prev = scan(src.drop_last())->Ok_0.0;
        let ir = scan(src)->Ok_0.0;
        if ir == prev {
        } else {
            // exactly one instruction was appended
            assert(ir.drop_last() =~= prev);
            assert forall|i: int| 0 <= i <= ir.len() implies jnz_count(#[trigger] ir.take(i))
                <= jz_count(ir.take(i)) by {
                if i < ir.len() {
                    assert(ir.take(i) =~= prev.take(i));
                } else {
                    assert(ir.take(i) =~= ir);
                }
            }
        }
    }
}

/// Fusion only ever merges pointer moves and additions, so it keeps the
/// number of jump instructions of each kind.
proof fn lemma_fuse_counts(s: Seq<Instruction>)
    ensures
        jz_count(fuse(s)) == jz_count(s),
        jnz_count(fuse(s)) == jnz_count(s),
    decreases s.len(),
{
    if s.len() > 0 {
        lemma_fuse_counts(s.drop_last());
        let prev = fuse(s.drop_last());
        if prev.len() > 0 && prev.last().fuses_with(s.last()) {
            let out = prev.update(prev.len() - 1, merged(prev.last(), s.last()));
            assert(out.drop_last() =~= prev.drop_last());
        } else {
            assert(prev.push(s.last()).drop_last() =~= prev);
        }
    }
}

/// Fusion keeps the bracket discipline: a prefix-balanced sequence is
/// still prefix-balanced once fused.
proof fn lemma_fuse_balanced(s: Seq<Instruction>)
    requires
        prefix_balanced(s),
    ensures
        prefix_balanced(fuse(s)),
    decreases s.len(),
{
    if s.len() > 0 {
        assert(prefix_balanced(s.drop_last())) by {
            assert forall|i: int| 0 <= i <= s.drop_last().len() implies jnz_count(
                #[trigger] s.drop_last().take(i),
            ) <= jz_count(s.drop_last().take(i)) by {
                assert(s.drop_last().take(i) =~= s.take(i));
            }
        }
        lemma_fuse_balanced(s.drop_last());
        lemma_fuse_counts(s.drop_last());
        let prev = fuse(s.drop_last());
        let out = fuse(s);
        assert(s.take(s.len() as int) =~= s);
        assert(s.take(s.len() - 1) =~= s.drop_last());
        if prev.len() > 0 && prev.last().fuses_with(s.last()) {
            assert(out.drop_last() =~= prev.drop_last());
            assert forall|i: int| 0 <= i <= out.len() implies jnz_count(#[trigger] out.take(i))
                <= jz_count(out.take(i)) by {
                if i < out.len() {
                    assert(out.take(i) =~= prev.take(i));
                } else {
                    assert(out.take(i) =~= out);
                    // merging two fusible instructions never touches a jump
                    assert(jz_count(out) == jz_count(prev));
                    assert(jnz_count(out) == jnz_count(prev));
                    assert(prev.take(prev.len() as int) =~= prev);
                }
            }
        } else {
            assert(out.drop_last() =~= prev);
            assert forall|i: int| 0 <= i <= out.len() implies jnz_count(#[trigger] out.take(i))
                <= jz_count(out.take(i)) by {
                if i < out.len() {
                    assert(out.take(i) =~= prev.take(i));
                } else {
                    assert(out.take(i) =~= out);
                    lemma_fuse_counts(s);
                }
            }
        }
    }
}

/// On a prefix-balanced sequence the resolution walk never meets a close
/// with an empty stack, so it succeeds.
proof fn lemma_resolve_ok(acc: Seq<Instruction>, s: Seq<Instruction>, i: int, stack: Seq<usize>)
    requires
        0 <= i <= s.len(),
        prefix_balanced(s),
        stack.len() == jz_count(s.take(i)) - jnz_count(s.take(i)),
    ensures
        resolve_from(acc, s, i, stack) is Ok,
    decreases s.len() - i,
{
    if i < s.len() {
        assert(s.take(i + 1).drop_last() =~= s.take(i));
        assert(s.take(i + 1).last() == s[i]);
        match s[i] {
            Instruction::JumpIfZero(_) => {
                lemma_resolve_ok(acc, s, i + 1, stack.push(i as usize));
            },
            Instruction::JumpIfNonZero(_) => {
                assert(jnz_count(s.take(i + 1)) <= jz_count(s.take(i + 1)));
                let j = stack.last();
                lemma_resolve_ok(
                    acc.update(j as int, Instruction::JumpIfZero(i as usize)).update(
                        i,
                        Instruction::JumpIfNonZero(j),
                    ),
                    s,
                    i + 1,
                    stack.drop_last(),
                );
            },
            _ => {
                lemma_resolve_ok(acc, s, i + 1, stack);
            },
        }
    }
}

/// The internal invariant of the translator holds: fusion never
/// desynchronizes balanced brackets, so on any source the character pass
/// accepts, the whole translation succeeds — `InternalInvariantError`
/// would indicate a translator defect, never a user error.
pub proof fn lemma_translate_succeeds(src: Seq<char>)
    requires
        scan(src) is Ok,
    ensures
        translate(src) is Ok,
{
    let ir = scan(src)->Ok_0.0;
    lemma_scan_balanced(src);
    lemma_fuse_balanced(ir);
    let f = fuse(ir);
    assert(f.take(0) =~= Seq::<Instruction>::empty());
    lemma_resolve_ok(f, f, 0, Seq::<usize>::empty());
}

/// Two sequences carry the same jump skeleton: equal length, with
/// `JumpIfZero` and `JumpIfNonZero` standing at exactly the same positions.
pub open spec fn same_kinds(s: Seq<Instruction>, t: Seq<Instruction>) -> bool {
    &&& s.len() == t.len()
    &&& forall|k: int|
        0 <= k < s.len() ==> (((#[trigger] s[k]) is JumpIfZero <==> (#[trigger] t[k]) is JumpIfZero)
            && (s[k] is JumpIfNonZero <==> t[k] is JumpIfNonZero))
}

/// Resolution never touches a position that lies behind the walk and is
/// not an open bracket still on the stack.
proof fn lemma_resolve_frame(
    acc: Seq<Instruction>,
    s: Seq<Instruction>,
    i: int,
    stack: Seq<usize>,
    r: Seq<Instruction>,
)
    requires
        s.len() <= usize::MAX,
        acc.len() == s.len(),
        0 <= i,
        forall|q: int| 0 <= q < stack.len() ==> (#[trigger] stack[q]) < i,
        resolve_from(acc, s, i, stack) == Ok::<Seq<Instruction>, CompileError>(r),
    ensures
        r.len() == acc.len(),
        forall|k: int|
            0 <= k < acc.len() && k < i && !stack.contains(k as usize) ==> (#[trigger] r[k])
                == acc[k],
    decreases s.len() - i,
{
    if i >= s.len() {
    } else {
        match s[i] {
            Instruction::JumpIfZero(_) => {
                lemma_resolve_frame(acc, s, i + 1, stack.push(i as usize), r);
                assert forall|k: int|
                    0 <= k < acc.len() && k < i && !stack.contains(k as usize) implies (
                #[trigger] r[k]) == acc[k] by {
                    assert(!stack.push(i as usize).contains(k as usize));
                }
            },
            Instruction::JumpIfNonZero(_) => {
                let j = stack.last();
                let acc2 = acc.update(j as int, Instruction::JumpIfZero(i as usize)).update(
                    i,
                    Instruction::JumpIfNonZero(j),
                );
                lemma_resolve_frame(acc2, s, i + 1, stack.drop_last(), r);
                assert forall|k: int|
                    0 <= k < acc.len() && k < i && !stack.contains(k as usize) implies (
                #[trigger] r[k]) == acc[k] by {
                    assert(stack.contains(j)) by {
                        assert(stack[stack.len() - 1] == j);
                    }
                    assert(!stack.drop_last().contains(k as usize)) by {
                        if stack.drop_last().contains(k as usize) {
                            let q = choose|q: int|
                                0 <= q < stack.drop_last().len() && stack.drop_last()[q] == (
                                k as usize);
                            assert(stack[q] == k as usize);
                        }
                    }
                    assert(acc2[k] == acc[k]);
                }
            },
            _ => {
                lemma_resolve_frame(acc, s, i + 1, stack, r);
            },
        }
    }
}

/// Resolution rewrites only jump targets: the jump skeleton of the result
/// is the skeleton of the walked sequence.
proof fn lemma_resolve_keeps_kinds(
    acc: Seq<Instruction>,
    s: Seq<Instruction>,
    i: int,
    stack: Seq<usize>,
    r: Seq<Instruction>,
)
    requires
        s.len() <= usize::MAX,
        acc.len() == s.len(),
        0 <= i,
        same_kinds(s, acc),
        forall|q: int| 0 <= q < stack.len() ==> (#[trigger] stack[q]) < i,
        forall|q: int|
            0 <= q < stack.len() ==> s[(#[trigger] stack[q]) as int] is JumpIfZero,
        resolve_from(acc, s, i, stack) == Ok::<Seq<Instruction>, CompileError>(r),
    ensures
        same_kinds(s, r),
    decreases s.len() - i,
{
    if i >= s.len() {
    } else {
        match s[i] {
            Instruction::JumpIfZero(_) => {
                lemma_resolve_keeps_kinds(acc, s, i + 1, stack.push(i as usize), r);
            },
            Instruction::JumpIfNonZero(_) => {
                let j = stack.last();
                let acc2 = acc.update(j as int, Instruction::JumpIfZero(i as usize)).update(
                    i,
                    Instruction::JumpIfNonZero(j),
                );
                assert(s[j as int] is JumpIfZero) by {
                    assert(stack[stack.len() - 1] == j);
                }
                lemma_resolve_keeps_kinds(acc2, s, i + 1, stack.drop_last(), r);
            },
            _ => {
                lemma_resolve_keeps_kinds(acc, s, i + 1, stack, r);
            },
        }
    }
}

/// Resolution looks only at the jump skeleton of the sequence it walks:
/// two sequences with the same skeleton resolve the same accumulator alike.
proof fn lemma_resolve_same_kinds(
    acc: Seq<Instruction>,
    s: Seq<Instruction>,
    t: Seq<Instruction>,
    i: int,
    stack: Seq<usize>,
)
    requires
        0 <= i,
        same_kinds(s, t),
    ensures
        resolve_from(acc, s, i, stack) == resolve_from(acc, t, i, stack),
    decreases s.len() - i,
{
    if i >= s.len() {
    } else {
        match s[i] {
            Instruction::JumpIfZero(_) => {
                lemma_resolve_same_kinds(acc, s, t, i + 1, stack.push(i as usize));
            },
            Instruction::JumpIfNonZero(_) => {
                if stack.len() > 0 {
                    let j = stack.last();
                    let acc2 = acc.update(j as int, Instruction::JumpIfZero(i as usize)).update(
                        i,
                        Instruction::JumpIfNonZero(j),
                    );
                    lemma_resolve_same_kinds(acc2, s, t, i + 1, stack.drop_last());
                }
            },
            _ => {
                lemma_resolve_same_kinds(acc, s, t, i + 1, stack);
            },
        }
    }
}

/// Re-walking an already resolved accumulator re-applies exactly the same
/// writes, so it comes out unchanged.
proof fn lemma_resolve_again(
    acc: Seq<Instruction>,
    s: Seq<Instruction>,
    i: int,
    stack: Seq<usize>,
    r: Seq<Instruction>,
)
    requires
        s.len() <= usize::MAX,
        acc.len() == s.len(),
        0 <= i,
        stack.no_duplicates(),
        forall|q: int| 0 <= q < stack.len() ==> (#[trigger] stack[q]) < i,
        resolve_from(acc, s, i, stack) == Ok::<Seq<Instruction>, CompileError>(r),
    ensures
        resolve_from(r, s, i, stack) == Ok::<Seq<Instruction>, CompileError>(r),
    decreases s.len() - i,
{
    if i >= s.len() {
    } else {
        match s[i] {
            Instruction::JumpIfZero(_) => {
                assert(stack.push(i as usize).no_duplicates()) by {
                    assert(forall|q: int|
                        0 <= q < stack.len() ==> stack.push(i as usize)[q] == (
                        #[trigger] stack[q]));
                }
                lemma_resolve_again(acc, s, i + 1, stack.push(i as usize), r);
            },
            Instruction::JumpIfNonZero(_) => {
                let j = stack.last();
                let st2 = stack.drop_last();
                let acc2 = acc.update(j as int, Instruction::JumpIfZero(i as usize)).update(
                    i,
                    Instruction::JumpIfNonZero(j),
                );
                assert(st2.no_duplicates());
                lemma_resolve_again(acc2, s, i + 1, st2, r);
                lemma_resolve_frame(acc2, s, i + 1, st2, r);
                assert(!st2.contains(j)) by {
                    if st2.contains(j) {
                        let q = choose|q: int| 0 <= q < st2.len() && st2[q] == j;
                        assert(stack[q] == j && stack[stack.len() - 1] == j);
                    }
                }
                assert(!st2.contains(i as usize)) by {
                    if st2.contains(i as usize) {
                        let q = choose|q: int| 0 <= q < st2.len() && st2[q] == (i as usize);
                        assert(stack[q] == i as usize);
                    }
                }
                assert(r[j as int] == Instruction::JumpIfZero(i as usize));
                assert(r[i] == Instruction::JumpIfNonZero(j));
                assert(r.update(j as int, Instruction::JumpIfZero(i as usize)).update(
                    i,
                    Instruction::JumpIfNonZero(j),
                ) =~= r);
            },
            _ => {
                lemma_resolve_again(acc, s, i + 1, stack, r);
            },
        }
    }
}

/// Bracket pairing survives a round trip: when resolution succeeds, the
/// pairing recovered by re-scanning the resolved sequence is the recorded
/// one — resolving the resolved sequence again changes nothing.
pub proof fn lemma_resolution_round_trip(s: Seq<Instruction>)
    requires
        s.len() <= usize::MAX,
        resolve(s) is Ok,
    ensures
        resolve(resolve(s)->Ok_0) == resolve(s),
{
    let r = resolve(s)->Ok_0;
    let empty = Seq::<usize>::empty();
    assert(empty.no_duplicates());
    lemma_resolve_keeps_kinds(s, s, 0, empty, r);
    lemma_resolve_again(s, s, 0, empty, r);
    lemma_resolve_same_kinds(r, s, r, 0, empty);
}

/// The round trip at source level: every successfully translated program
/// carries a consistent bracket pairing, whatever the source string was.
pub proof fn lemma_translate_round_trip(src: Seq<char>)
    requires
        src.len() <= usize::MAX,
        translate(src) is Ok,
    ensures
        resolve(translate(src)->Ok_0) == Ok::<Seq<Instruction>, CompileError>(
            translate(src)->Ok_0,
        ),
{
    lemma_scan_len(src);
    lemma_fuse_len(scan(src)->Ok_0.0);
    lemma_resolution_round_trip(fuse(scan(src)->Ok_0.0));
}

/// The whole front end: character mapping, fusion, bracket re-resolution.
pub open spec fn translate(src: Seq<char>) -> Result<Seq<Instruction>, CompileError> {
    match scan(src) {
        Err(e) => Err(e),
        Ok(acc) => resolve(fuse(acc.0)),
    }
}

/// Once the character pass has failed, no further input can recover it.
proof fn lemma_scan_err_persists(src: Seq<char>, i: int)
    requires
        0 <= i <= src.len(),
        scan(src.take(i)) is Err,
    ensures
        scan(src) == scan(src.take(i)),
    decreases src.len() - i,
{
    if i == src.len() {
        assert(src.take(i) =~= src);
    } else {
        assert(src.take(i + 1).drop_last() =~= src.take(i));
        lemma_scan_err_persists(src, i + 1);
    }
}

/// The front-end translator: turns source characters into an instruction
/// sequence, fusing adjacent same-kind instructions and resolving bracket
/// jump targets.
pub struct Compiler {
    pub input: Vec<char>,
}

impl Compiler {
    pub fn new(input: Vec<char>) -> (c: Compiler)
        ensures
            c.input@ == input@,
    {
        Compiler { input }
    }

    /// Translate the whole input. Fails with `SyntaxError` exactly when a
    /// closing bracket appears while no bracket is open; otherwise the
    /// result is the fused, resolved instruction sequence. Opening brackets
    /// left unmatched at end of input are deliberately not rejected: their
    /// placeholder jumps keep target 0, as the translator has always done.
    pub fn compile(self) -> (r: Result<Vec<Instruction>, CompileError>)
        ensures
            (match r {
                Ok(v) => translate(self.input@) == Ok::<Seq<Instruction>, CompileError>(v@),
                Err(e) => translate(self.input@) == Err::<Seq<Instruction>, CompileError>(e),
            }),
            r is Ok <==> scan(self.input@) is Ok,
    {
        let mut v: Vec<Instruction> = Vec::new();
        let mut depth: usize = 0;
        let n = self.input.len();
        let mut idx: usize = 0;
        while idx < n
            invariant
                n == self.input.len(),
                idx <= n,
                depth <= idx,
                scan(self.input@.take(idx as int)) == Ok::<(Seq<Instruction>, nat), CompileError>(
                    (v@, depth as nat),
                ),
            decreases n - idx,
        {
            let ghost prefix = self.input@.take(idx as int);
            proof {
                assert(self.input@.take(idx as int + 1).drop_last() =~= prefix);
                assert(self.input@.take(idx as int + 1).last() == self.input@[idx as int]);
            }
            let c = self.input[idx];
            if c == '>' {
                v.push(Instruction::MovePointer(1));
            } else if c == '<' {
                v.push(Instruction::MovePointer(-1));
            } else if c == '+' {
                v.push(Instruction::Add(1));
            } else if c == '-' {
                v.push(Instruction::Add(-1));
            } else if c == '.' {
                v.push(Instruction::Output);
            } else if c == ',' {
                v.push(Instruction::Input);
            } else if c == '[' {
                v.push(Instruction::JumpIfZero(0));
                depth = depth + 1;
            } else if c == ']' {
                if depth == 0 {
                    proof {
                        lemma_scan_err_persists(self.input@, idx as int + 1);
                    }
                    return Err(CompileError::SyntaxError);
                }
                depth = depth - 1;
                v.push(Instruction::JumpIfNonZero(0));
            }
            idx = idx + 1;
        }
        proof {
            assert(self.input@.take(n as int) =~= self.input@);
            lemma_translate_succeeds(self.input@);
        }
        repeated_instructions_pass(v)
    }
}

/// The fusion pass followed by bracket re-resolution: merge adjacent
/// same-kind `MovePointer`/`Add` pairs by summing their payloads, then
/// recompute every jump target on the shifted sequence.
pub fn repeated_instructions_pass(instrs: Vec<Instruction>) -> (r: Result<
    Vec<Instruction>,
    CompileError,
>)
    ensures
        (match r {
            Ok(v) => resolve(fuse(instrs@)) == Ok::<Seq<Instruction>, CompileError>(v@),
            Err(e) => resolve(fuse(instrs@)) == Err::<Seq<Instruction>, CompileError>(e)
                && e == CompileError::InternalInvariantError,
        }),
{
    let n = instrs.len();
    let mut fused: Vec<Instruction> = Vec::new();
    let mut idx: usize = 0;
    while idx < n
        invariant
            n == instrs.len(),
            idx <= n,
            fused@ == fuse(instrs@.take(idx as int)),
        decreases n - idx,
    {
        proof {
            assert(instrs@.take(idx as int + 1).drop_last() =~= instrs@.take(idx as int));
            assert(instrs@.take(idx as int + 1).last() == instrs@[idx as int]);
        }
        let i = instrs[idx];
        let flen = fused.len();
        if flen > 0 {
            let last = fused[flen - 1];
            match (last, i) {
                (Instruction::MovePointer(a), Instruction::MovePointer(b)) => {
                    fused.set(flen - 1, Instruction::MovePointer(a.wrapping_add(b)));
                },
                (Instruction::Add(a), Instruction::Add(b)) => {
                    fused.set(flen - 1, Instruction::Add(a.wrapping_add(b)));
                },
                _ => {
                    fused.push(i);
                },
            }
        } else {
            fused.push(i);
        }
        idx = idx + 1;
    }
    proof {
        assert(instrs@.take(n as int) =~= instrs@);
    }
    // fix jumps after the pass
    let ghost fs = fused@;
    let m = fused.len();
    let mut stack: Vec<usize> = Vec::new();
    let mut k: usize = 0;
    while k < m
        invariant
            m == fused.len(),
            k <= m,
            fs == fuse(instrs@),
            fused@.len() == fs.len(),
            forall|j: int| k <= j < m ==> fused@[j] == fs[j],
            forall|j: int| 0 <= j < stack@.len() ==> (#[trigger] stack@[j]) < k,
            resolve(fs) == resolve_from(fused@, fs, k as int, stack@),
        decreases m - k,
    {
        let instr = fused[k];
        match instr {
            Instruction::JumpIfZero(_) => {
                stack.push(k);
            },
            Instruction::JumpIfNonZero(_) => {
                match stack.pop() {
                    None => {
                        proof {
                            assert(fs[k as int] is JumpIfNonZero);
                            assert(resolve(fs) == Err::<Seq<Instruction>, CompileError>(
                                CompileError::InternalInvariantError,
                            ));
                        }
                        return Err(CompileError::InternalInvariantError);
                    },
                    Some(j) => {
                        fused.set(j, Instruction::JumpIfZero(k));
                        fused.set(k, Instruction::JumpIfNonZero(j));
                    },
                }
            },
            _ => {},
        }
        k = k + 1;
    }
    Ok(fused)
}

} // verus!
