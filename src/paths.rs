//! Which files are edited, and where their edited copies go.
use crate::text::{chars_of, string_of};
use vstd::prelude::*;

verus! {

pub open spec fn ends_with(s: Seq<char>, t: Seq<char>) -> bool {
    s.len() >= t.len() && s.subrange(s.len() - t.len(), s.len() as int) == t
}

pub open spec fn occurs_at(s: Seq<char>, t: Seq<char>, i: int) -> bool {
    0 <= i && i + t.len() <= s.len() && s.subrange(i, i + t.len()) == t
}

pub open spec fn contains(s: Seq<char>, t: Seq<char>) -> bool {
    exists|i: int| #[trigger] occurs_at(s, t, i)
}

pub open spec fn cif_suffix() -> Seq<char> {
    seq!['.', 'c', 'i', 'f']
}

pub open spec fn modified_suffix() -> Seq<char> {
    seq!['_', 'm', 'o', 'd', 'i', 'f', 'i', 'e', 'd', '.', 'c', 'i', 'f']
}

/// `s` with every occurrence of `.cif`, from left to right, replaced by
/// `_modified.cif`.
pub open spec fn mark_modified(s: Seq<char>) -> Seq<char>
    decreases s.len(),
{
    if s.len() == 0 {
        s
    } else if occurs_at(s, cif_suffix(), 0) {
        modified_suffix() + mark_modified(s.subrange(4, s.len() as int))
    } else {
        seq![s[0]] + mark_modified(s.drop_first())
    }
}

fn occurs_at_exec(v: &Vec<char>, t: &Vec<char>, i: usize) -> (r: bool)
    ensures
        r == occurs_at(v@, t@, i as int),
{
    if i > v.len() || t.len() > v.len() - i {
        return false;
    }
    let mut j: usize = 0;
    while j < t.len()
        invariant
            i + t@.len() <= v@.len(),
            v@.len() <= usize::MAX,
            j <= t@.len(),
            forall|m: int| 0 <= m < j ==> v@[i + m] == t@[m],
        decreases t@.len() - j,
    {
        if v[i + j] != t[j] {
            proof {
                assert(v@.subrange(i as int, i + t@.len())[j as int] != t@[j as int]);
            }
            return false;
        }
        j = j + 1;
    }
    proof {
        assert(v@.subrange(i as int, i + t@.len()) =~= t@);
    }
    true
}

/// Whether the file at `path` is one to edit: a `.cif` file that is not
/// itself an edited copy.
pub fn is_target_path(path: &str) -> (r: bool)
    ensures
        r == (ends_with(path@, cif_suffix()) && !contains(path@, modified_suffix())),
{
    let v = chars_of(path);
    let suffix = chars_of(".cif");
    let marked = chars_of("_modified.cif");
    proof {
        reveal_strlit(".cif");
        reveal_strlit("_modified.cif");
        assert(suffix@ =~= cif_suffix());
        assert(marked@ =~= modified_suffix());
    }
    if v.len() < 4 || !occurs_at_exec(&v, &suffix, v.len() - 4) {
        return false;
    }
    let mut i: usize = 0;
    while i < v.len()
        invariant
            v@ == path@,
            marked@ == modified_suffix(),
            i <= v@.len(),
            forall|m: int| 0 <= m < i ==> !occurs_at(v@, marked@, m),
        decreases v@.len() - i,
    {
        if occurs_at_exec(&v, &marked, i) {
            return false;
        }
        i = i + 1;
    }
    proof {
        assert forall|m: int| !occurs_at(v@, marked@, m) by {
            if m >= v@.len() {
                assert(marked@.len() > 0);
            }
        }
    }
    true
}

/// The path of the edited copy of the file at `path`.
pub fn modified_path(path: &str) -> (r: String)
    ensures
        r@ == mark_modified(path@),
{
    let v = chars_of(path);
    let suffix = chars_of(".cif");
    let marked = chars_of("_modified.cif");
    proof {
        reveal_strlit(".cif");
        reveal_strlit("_modified.cif");
        assert(suffix@ =~= cif_suffix());
        assert(marked@ =~= modified_suffix());
    }
    let mut out: Vec<char> = Vec::new();
    let mut i: usize = 0;
    proof {
        assert(v@.subrange(0, v@.len() as int) =~= v@);
        assert(out@ + mark_modified(v@) =~= mark_modified(v@));
    }
    while i < v.len()
        invariant
            v@ == path@,
            suffix@ == cif_suffix(),
            marked@ == modified_suffix(),
            i <= v@.len(),
            mark_modified(path@) == out@ + mark_modified(v@.subrange(i as int, v@.len() as int)),
        decreases v@.len() - i,
    {
        let ghost rest = v@.subrange(i as int, v@.len() as int);
        if occurs_at_exec(&v, &suffix, i) {
            proof {
                assert(rest.subrange(0, 4) =~= v@.subrange(i as int, i + 4));
                assert(rest.subrange(4, rest.len() as int) =~= v@.subrange(i + 4, v@.len() as int));
                assert(out@ + marked@ + mark_modified(v@.subrange(i + 4, v@.len() as int))
                    =~= out@ + mark_modified(rest));
            }
            let mut j: usize = 0;
            let ghost before = out@;
            while j < marked.len()
                invariant
                    j <= marked@.len(),
                    out@ == before + marked@.subrange(0, j as int),
                decreases marked@.len() - j,
            {
                out.push(marked[j]);
                proof {
                    assert(marked@.subrange(0, j + 1) =~= marked@.subrange(0, j as int).push(marked@[j as int]));
                }
                j = j + 1;
            }
            proof {
                assert(marked@.subrange(0, marked@.len() as int) =~= marked@);
            }
            i = i + 4;
        } else {
            proof {
                assert(!occurs_at(rest, cif_suffix(), 0)) by {
                    if rest.len() >= 4 {
                        assert(rest.subrange(0, 4) =~= v@.subrange(i as int, i + 4));
                    }
                }
                assert(rest.drop_first() =~= v@.subrange(i + 1, v@.len() as int));
                assert(out@.push(v@[i as int]) + mark_modified(rest.drop_first()) =~= out@
                    + mark_modified(rest));
            }
            out.push(v[i]);
            i = i + 1;
        }
    }
    proof {
        assert(mark_modified(v@.subrange(i as int, v@.len() as int)) =~= Seq::<char>::empty());
        assert(out@ + Seq::<char>::empty() =~= out@);
    }
    string_of(&out, 0, out.len())
}

} // verus!
