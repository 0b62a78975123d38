//! The fields that instructions may edit, and their short aliases.
use crate::text::chars_of;
use vstd::prelude::*;

verus! {

/// The number of known fields.
pub const FIELD_COUNT: usize = 7;

/// The canonical name of the field at `i`.
pub open spec fn canonical(i: int) -> Seq<char> {
    if i == 0 {
        "_cell_length_a"@
    } else if i == 1 {
        "_cell_length_b"@
    } else if i == 2 {
        "_cell_length_c"@
    } else if i == 3 {
        "_cell_angle_alpha"@
    } else if i == 4 {
        "_cell_angle_beta"@
    } else if i == 5 {
        "_cell_angle_gamma"@
    } else {
        "_cell_volume"@
    }
}

/// The short alias of the field at `i`.
pub open spec fn alias(i: int) -> Seq<char> {
    if i == 0 {
        "a"@
    } else if i == 1 {
        "b"@
    } else if i == 2 {
        "c"@
    } else if i == 3 {
        "alpha"@
    } else if i == 4 {
        "beta"@
    } else if i == 5 {
        "gamma"@
    } else {
        "volume"@
    }
}

/// The first field at or after `i` whose alias is `t`.
pub open spec fn alias_from(t: Seq<char>, i: int) -> Option<int>
    decreases FIELD_COUNT - i,
{
    if i < 0 || i >= FIELD_COUNT {
        None
    } else if alias(i) == t {
        Some(i)
    } else {
        alias_from(t, i + 1)
    }
}

/// A keyword token with its alias resolved: the canonical name where `t` is
/// an alias, `t` itself otherwise.
pub open spec fn resolve(t: Seq<char>) -> Seq<char> {
    match alias_from(t, 0) {
        Some(i) => canonical(i),
        None => t,
    }
}

/// Whether `t` is the canonical name of a known field.
pub open spec fn is_known_keyword(t: Seq<char>) -> bool {
    exists|i: int| 0 <= i < FIELD_COUNT && #[trigger] canonical(i) == t
}

/// The canonical name of the field at `i`.
pub fn canonical_exec(i: usize) -> (r: &'static str)
    requires
        i < FIELD_COUNT,
    ensures
        r@ == canonical(i as int),
{
    if i == 0 {
        "_cell_length_a"
    } else if i == 1 {
        "_cell_length_b"
    } else if i == 2 {
        "_cell_length_c"
    } else if i == 3 {
        "_cell_angle_alpha"
    } else if i == 4 {
        "_cell_angle_beta"
    } else if i == 5 {
        "_cell_angle_gamma"
    } else {
        "_cell_volume"
    }
}

/// The short alias of the field at `i`.
pub fn alias_exec(i: usize) -> (r: &'static str)
    requires
        i < FIELD_COUNT,
    ensures
        r@ == alias(i as int),
{
    if i == 0 {
        "a"
    } else if i == 1 {
        "b"
    } else if i == 2 {
        "c"
    } else if i == 3 {
        "alpha"
    } else if i == 4 {
        "beta"
    } else if i == 5 {
        "gamma"
    } else {
        "volume"
    }
}

/// Whether two strings hold the same characters.
pub fn same_chars(a: &str, b: &str) -> (r: bool)
    ensures
        r == (a@ == b@),
{
    let va = chars_of(a);
    let vb = chars_of(b);
    if va.len() != vb.len() {
        return false;
    }
    let mut i: usize = 0;
    while i < va.len()
        invariant
            va@ == a@,
            vb@ == b@,
            va@.len() == vb@.len(),
            i <= va@.len(),
            forall|j: int| 0 <= j < i ==> va@[j] == vb@[j],
        decreases va@.len() - i,
    {
        if va[i] != vb[i] {
            return false;
        }
        i = i + 1;
    }
    proof {
        assert(va@ =~= vb@);
    }
    true
}

/// A keyword token with its alias resolved.
pub fn resolve_exec(t: &str) -> (r: String)
    ensures
        r@ == resolve(t@),
{
    let mut i: usize = 0;
    while i < FIELD_COUNT
        invariant
            i <= FIELD_COUNT,
            alias_from(t@, 0) == alias_from(t@, i as int),
        decreases FIELD_COUNT - i,
    {
        if same_chars(alias_exec(i), t) {
            return String::from_str(canonical_exec(i));
        }
        i = i + 1;
    }
    String::from_str(t)
}

/// Whether `t` is the canonical name of a known field.
pub fn is_known_keyword_exec(t: &str) -> (r: bool)
    ensures
        r == is_known_keyword(t@),
{
    let mut i: usize = 0;
    while i < FIELD_COUNT
        invariant
            i <= FIELD_COUNT,
            forall|j: int| 0 <= j < i ==> canonical(j) != t@,
        decreases FIELD_COUNT - i,
    {
        if same_chars(canonical_exec(i), t) {
            return true;
        }
        i = i + 1;
    }
    false
}

/// Each short alias resolves to the canonical name at the same position,
/// and a canonical name resolves to itself.
pub proof fn lemma_alias_resolves(i: int)
    requires
        0 <= i < FIELD_COUNT,
    ensures
        resolve(alias(i)) == canonical(i),
        resolve(canonical(i)) == canonical(i),
{
    reveal_strlit("a");
    reveal_strlit("b");
    reveal_strlit("c");
    reveal_strlit("alpha");
    reveal_strlit("beta");
    reveal_strlit("gamma");
    reveal_strlit("volume");
    reveal_strlit("_cell_length_a");
    reveal_strlit("_cell_length_b");
    reveal_strlit("_cell_length_c");
    reveal_strlit("_cell_angle_alpha");
    reveal_strlit("_cell_angle_beta");
    reveal_strlit("_cell_angle_gamma");
    reveal_strlit("_cell_volume");
    reveal_with_fuel(alias_from, 8);
    assert forall|j: int| 0 <= j < FIELD_COUNT implies alias(j) != canonical(i) by {
        assert(alias(j).len() != canonical(i).len());
    }
    if i >= 1 {
        assert(alias(0) != alias(i)) by {
            if i == 3 {
                assert(alias(0).len() != alias(i).len());
            } else {
                assert(alias(0)[0] != alias(i)[0]);
            }
        }
    }
    if i >= 2 {
        assert(alias(1) != alias(i)) by {
            if i == 4 {
                assert(alias(1).len() != alias(i).len());
            } else {
                assert(alias(1)[0] != alias(i)[0]);
            }
        }
    }
    if i >= 3 {
        assert(alias(2) != alias(i)) by {
            assert(alias(2).len() != alias(i).len());
        }
    }
    if i >= 4 {
        assert(alias(3) != alias(i)) by {
            assert(alias(3)[0] != alias(i)[0] || alias(3).len() != alias(i).len());
        }
    }
    if i >= 5 {
        assert(alias(4) != alias(i)) by {
            assert(alias(4)[0] != alias(i)[0]);
        }
    }
    if i >= 6 {
        assert(alias(5) != alias(i)) by {
            assert(alias(5)[0] != alias(i)[0]);
        }
    }
}

} // verus!
