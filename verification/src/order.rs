//! The order that rankings are sorted by: occurrence count descending, ties
//! broken by ascending lexicographic comparison of the line text.

use vstd::prelude::*;
use vstd::relations::total_ordering;

verus! {

/// Lexicographic "less than or equal" on character sequences, comparing by
/// scalar value position by position; a proper prefix precedes its extensions.
pub open spec fn lex_leq(a: Seq<char>, b: Seq<char>) -> bool
    decreases a.len(),
{
    if a.len() == 0 {
        true
    } else if b.len() == 0 {
        false
    } else if (a[0] as int) < (b[0] as int) {
        true
    } else if (a[0] as int) > (b[0] as int) {
        false
    } else {
        lex_leq(a.drop_first(), b.drop_first())
    }
}

pub proof fn lemma_lex_refl(a: Seq<char>)
    ensures
        lex_leq(a, a),
    decreases a.len(),
{
    if a.len() > 0 {
        lemma_lex_refl(a.drop_first());
    }
}

pub proof fn lemma_lex_total(a: Seq<char>, b: Seq<char>)
    ensures
        lex_leq(a, b) || lex_leq(b, a),
    decreases a.len(),
{
    if a.len() > 0 && b.len() > 0 && (a[0] as int) == (b[0] as int) {
        lemma_lex_total(a.drop_first(), b.drop_first());
    }
}

pub proof fn lemma_lex_antisym(a: Seq<char>, b: Seq<char>)
    requires
        lex_leq(a, b),
        lex_leq(b, a),
    ensures
        a == b,
    decreases a.len(),
{
    if a.len() == 0 {
        assert(b.len() == 0);
        assert(a =~= b);
    } else {
        assert(b.len() > 0);
        assert((a[0] as int) == (b[0] as int));
        assert(a[0] == b[0]);
        lemma_lex_antisym(a.drop_first(), b.drop_first());
        assert(a =~= Seq::<char>::empty().push(a[0]) + a.drop_first());
        assert(b =~= Seq::<char>::empty().push(b[0]) + b.drop_first());
        assert(a =~= b);
    }
}

pub proof fn lemma_lex_trans(a: Seq<char>, b: Seq<char>, c: Seq<char>)
    requires
        lex_leq(a, b),
        lex_leq(b, c),
    ensures
        lex_leq(a, c),
    decreases a.len(),
{
    if a.len() > 0 && b.len() > 0 && c.len() > 0 {
        if (a[0] as int) == (b[0] as int) && (b[0] as int) == (c[0] as int) {
            lemma_lex_trans(a.drop_first(), b.drop_first(), c.drop_first());
        }
    }
}

/// A ranking entry in the mathematical model: occurrence count and line text.
pub open spec fn rank_leq(x: (nat, Seq<char>), y: (nat, Seq<char>)) -> bool {
    x.0 > y.0 || (x.0 == y.0 && lex_leq(x.1, y.1))
}

/// The ranking order as a relation value, for use with `sorted_by`.
pub open spec fn rank_order() -> spec_fn((nat, Seq<char>), (nat, Seq<char>)) -> bool {
    |x: (nat, Seq<char>), y: (nat, Seq<char>)| rank_leq(x, y)
}

/// The ranking order is a total order: reflexive, transitive, antisymmetric
/// and strongly connected, so a sorted ranking is unique.
pub proof fn lemma_rank_total_ordering()
    ensures
        total_ordering(rank_order()),
{
    let leq = rank_order();
    assert forall|x: (nat, Seq<char>)| #[trigger] leq(x, x) by {
        lemma_lex_refl(x.1);
    }
    assert forall|x: (nat, Seq<char>), y: (nat, Seq<char>)|
        #[trigger] leq(x, y) && #[trigger] leq(y, x) implies x == y by {
        lemma_lex_antisym(x.1, y.1);
    }
    assert forall|x: (nat, Seq<char>), y: (nat, Seq<char>), z: (nat, Seq<char>)|
        #[trigger] leq(x, y) && #[trigger] leq(y, z) implies leq(x, z) by {
        if x.0 == y.0 && y.0 == z.0 {
            lemma_lex_trans(x.1, y.1, z.1);
        }
    }
    assert forall|x: (nat, Seq<char>), y: (nat, Seq<char>)|
        #[trigger] leq(x, y) || #[trigger] leq(y, x) by {
        lemma_lex_total(x.1, y.1);
    }
}

/// Executable lexicographic comparison of two strings, character by
/// character, agreeing with `lex_leq` on their views.
pub fn str_lex_leq(a: &str, b: &str) -> (r: bool)
    ensures
        r == lex_leq(a@, b@),
{
    let a_len: usize = a.unicode_len();
    let b_len: usize = b.unicode_len();
    let mut i: usize = 0;
    proof {
        assert(a@.skip(0) =~= a@);
        assert(b@.skip(0) =~= b@);
    }
    loop
        invariant
            i <= a_len,
            i <= b_len,
            a_len == a@.len(),
            b_len == b@.len(),
            lex_leq(a@, b@) == lex_leq(a@.skip(i as int), b@.skip(i as int)),
        decreases a_len - i,
    {
        if i >= a_len {
            return true;
        }
        if i >= b_len {
            return false;
        }
        let ca = a.get_char(i);
        let cb = b.get_char(i);
        proof {
            assert(a@.skip(i as int)[0] == a@[i as int]);
            assert(b@.skip(i as int)[0] == b@[i as int]);
        }
        if (ca as u32) < (cb as u32) {
            return true;
        }
        if (ca as u32) > (cb as u32) {
            return false;
        }
        proof {
            assert(a@.skip(i as int).drop_first() =~= a@.skip(i + 1));
            assert(b@.skip(i as int).drop_first() =~= b@.skip(i + 1));
        }
        i = i + 1;
    }
}

/// Executable string equality, decided by comparing both ways under the
/// lexicographic order.
pub fn str_eq(a: &str, b: &str) -> (r: bool)
    ensures
        r == (a@ == b@),
{
    let le = str_lex_leq(a, b);
    let ge = str_lex_leq(b, a);
    proof {
        if le && ge {
            lemma_lex_antisym(a@, b@);
        }
        if a@ == b@ {
            lemma_lex_refl(a@);
        }
    }
    le && ge
}

/// The view of an executable ranking entry.
pub open spec fn pair_view(p: (usize, String)) -> (nat, Seq<char>) {
    (p.0 as nat, p.1@)
}

/// The views of a sequence of executable ranking entries.
pub open spec fn pairs_view(s: Seq<(usize, String)>) -> Seq<(nat, Seq<char>)> {
    s.map_values(|p: (usize, String)| pair_view(p))
}

/// Three-way comparison of two ranking entries under the ranking order.
pub fn rank_cmp(x: &(usize, String), y: &(usize, String)) -> (r: core::cmp::Ordering)
    ensures
        (r == core::cmp::Ordering::Less || r == core::cmp::Ordering::Equal) == rank_leq(
            pair_view(*x),
            pair_view(*y),
        ),
        (r == core::cmp::Ordering::Greater || r == core::cmp::Ordering::Equal) == rank_leq(
            pair_view(*y),
            pair_view(*x),
        ),
{
    if x.0 > y.0 {
        core::cmp::Ordering::Less
    } else if x.0 < y.0 {
        core::cmp::Ordering::Greater
    } else {
        let x_before = str_lex_leq(x.1.as_str(), y.1.as_str());
        let y_before = str_lex_leq(y.1.as_str(), x.1.as_str());
        proof {
            lemma_lex_total(x.1@, y.1@);
        }
        if x_before && y_before {
            core::cmp::Ordering::Equal
        } else if x_before {
            core::cmp::Ordering::Less
        } else {
            core::cmp::Ordering::Greater
        }
    }
}

} // verus!
