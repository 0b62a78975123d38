//! Rewriting the lines of a structure file: the value of each known field
//! that has instructions is replaced, and the column alignment is kept.
use crate::instructions::{chain, registered, ApplyError, Instructions};
use crate::keywords::{is_known_keyword, is_known_keyword_exec};
use crate::text::{chars_of, string_of};
use crate::utilities::{
    gap_of, has_key_and_value, key_of, line_positions, value_end, value_of,
};
use rand::rngs::StdRng;
use vstd::prelude::*;

verus! {

/// Whether the line is edited: its first token is a known field that has
/// instructions, and a value token follows.
pub open spec fn edited(line: Seq<char>, ins: &Instructions) -> bool {
    has_key_and_value(line) && is_known_keyword(key_of(line)) && registered(ins@, key_of(line))
}

/// Whether `out` is a possible rewriting of `line`: the key, the same
/// whitespace run, and a result of the field's instructions on the value;
/// the line itself where it is not edited.
pub open spec fn rewritten(line: Seq<char>, ins: &Instructions, out: Seq<char>) -> bool {
    if edited(line, ins) {
        exists|r: Seq<char>|
            #[trigger] chain(ins@, key_of(line), value_of(line), Ok(r)) && out == key_of(line)
                + gap_of(line) + r
    } else {
        out == line
    }
}

/// The number of edited lines.
pub open spec fn count_edited(lines: Seq<String>, ins: &Instructions) -> nat
    decreases lines.len(),
{
    if lines.len() == 0 {
        0
    } else {
        count_edited(lines.drop_last(), ins) + if edited(lines.last()@, ins) {
            1nat
        } else {
            0nat
        }
    }
}

/// Rewrites one line; `Ok(None)` where the line is not edited.
pub fn rewrite_line(line: &str, instructions: &Instructions, rng: &mut StdRng) -> (r: Result<
    Option<String>,
    ApplyError,
>)
    requires
        instructions.wf(),
    ensures
        match r {
            Ok(Some(o)) => edited(line@, instructions) && rewritten(line@, instructions, o@),
            Ok(None) => !edited(line@, instructions),
            Err(e) => edited(line@, instructions) && chain(
                instructions@,
                key_of(line@),
                value_of(line@),
                Err(e),
            ),
        },
{
    let v = chars_of(line);
    let (k0, k1, v0) = line_positions(&v);
    if k1 >= v.len() || v0 >= v.len() {
        return Ok(None);
    }
    let key = string_of(&v, k0, k1);
    if !is_known_keyword_exec(key.as_str()) {
        return Ok(None);
    }
    let e = value_end(&v, v0);
    let value = string_of(&v, v0, e);
    match instructions.apply(key.as_str(), value, rng) {
        Ok(None) => Ok(None),
        Ok(Some(nv)) => {
            let mut out = string_of(&v, k0, v0);
            let ghost new_value = nv@;
            out.append(nv.as_str());
            proof {
                assert(v@.subrange(k0 as int, v0 as int) =~= key_of(line@) + gap_of(line@));
                assert(chain(instructions@, key_of(line@), value_of(line@), Ok(new_value))
                    && out@ == key_of(line@) + gap_of(line@) + new_value);
            }
            Ok(Some(out))
        },
        Err(err) => Err(err),
    }
}

/// Applies the instructions to every line of a file. On success, every line
/// in its order, rewritten where it is edited, and the number of edited
/// lines; the first error of an edited line stops the whole file.
pub fn apply_instructions_to_lines(
    lines: &Vec<String>,
    instructions: &Instructions,
    rng: &mut StdRng,
) -> (r: Result<(Vec<String>, usize), ApplyError>)
    requires
        instructions.wf(),
    ensures
        match r {
            Ok((out, n)) => {
                &&& out@.len() == lines@.len()
                &&& forall|i: int|
                    0 <= i < lines@.len() ==> rewritten(
                        #[trigger] lines@[i]@,
                        instructions,
                        out@[i]@,
                    )
                &&& n == count_edited(lines@, instructions)
            },
            Err(e) => exists|i: int|
                0 <= i < lines@.len() && edited(#[trigger] lines@[i]@, instructions) && chain(
                    instructions@,
                    key_of(lines@[i]@),
                    value_of(lines@[i]@),
                    Err(e),
                ),
        },
{
    let mut out: Vec<String> = Vec::new();
    let mut n: usize = 0;
    let mut i: usize = 0;
    while i < lines.len()
        invariant
            instructions.wf(),
            i <= lines@.len(),
            out@.len() == i,
            n <= i,
            n == count_edited(lines@.subrange(0, i as int), instructions),
            forall|j: int|
                0 <= j < i ==> rewritten(#[trigger] lines@[j]@, instructions, out@[j]@),
        decreases lines@.len() - i,
    {
        let line = &lines[i];
        proof {
            assert(lines@.subrange(0, i + 1).drop_last() =~= lines@.subrange(0, i as int));
            assert(lines@.subrange(0, i + 1).last() == lines@[i as int]);
        }
        match rewrite_line(line.as_str(), instructions, rng) {
            Ok(Some(o)) => {
                out.push(o);
                n = n + 1;
            },
            Ok(None) => {
                out.push(line.clone());
            },
            Err(e) => {
                proof {
                    assert(edited(lines@[i as int]@, instructions));
                }
                return Err(e);
            },
        }
        i = i + 1;
    }
    proof {
        assert(lines@.subrange(0, lines@.len() as int) =~= lines@);
    }
    Ok((out, n))
}

} // verus!
