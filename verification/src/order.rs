//! The order of strings, and sorting by it.
use vstd::prelude::*;
use vstd::relations::{sorted_by, total_ordering};

use crate::interval::vv;
use crate::text::{chars_lt, seq_lt};

verus! {

/// `a` sorts before `b` or equals it.
pub open spec fn seq_le(a: Seq<char>, b: Seq<char>) -> bool {
    seq_lt(a, b) || a == b
}

/// The order of strings as a relation.
pub open spec fn str_le() -> spec_fn(Seq<char>, Seq<char>) -> bool {
    |a: Seq<char>, b: Seq<char>| seq_le(a, b)
}

/// No string sorts before itself.
pub proof fn lemma_lt_irreflexive(a: Seq<char>)
    ensures
        !seq_lt(a, a),
    decreases a.len(),
{
    if a.len() > 0 {
        lemma_lt_irreflexive(a.drop_first());
    }
}

/// The order is transitive.
pub proof fn lemma_lt_transitive(a: Seq<char>, b: Seq<char>, c: Seq<char>)
    requires
        seq_lt(a, b),
        seq_lt(b, c),
    ensures
        seq_lt(a, c),
    decreases a.len(),
{
    if a.len() > 0 && b.len() > 0 && c.len() > 0 {
        if a[0] == b[0] && b[0] == c[0] {
            lemma_lt_transitive(a.drop_first(), b.drop_first(), c.drop_first());
        }
    }
}

/// Two different strings are ordered one way or the other.
pub proof fn lemma_lt_connected(a: Seq<char>, b: Seq<char>)
    requires
        a != b,
    ensures
        seq_lt(a, b) || seq_lt(b, a),
    decreases a.len(),
{
    if a.len() > 0 && b.len() > 0 && a[0] == b[0] {
        if a.drop_first() == b.drop_first() {
            assert(a =~= seq![a[0]] + a.drop_first());
            assert(b =~= seq![b[0]] + b.drop_first());
        }
        lemma_lt_connected(a.drop_first(), b.drop_first());
    } else if a.len() == 0 && b.len() == 0 {
        assert(a =~= b);
    }
}

/// The order of strings is a total order.
pub proof fn lemma_str_le_total()
    ensures
        total_ordering(str_le()),
{
    assert forall|a: Seq<char>| #[trigger] str_le()(a, a) by {}
    assert forall|a: Seq<char>, b: Seq<char>|
        #[trigger] str_le()(a, b) && #[trigger] str_le()(b, a) implies a == b by {
        if a != b {
            lemma_lt_transitive(a, b, a);
            lemma_lt_irreflexive(a);
        }
    }
    assert forall|a: Seq<char>, b: Seq<char>, c: Seq<char>|
        #[trigger] str_le()(a, b) && #[trigger] str_le()(b, c) implies str_le()(a, c) by {
        if a != b && b != c {
            lemma_lt_transitive(a, b, c);
        }
    }
    assert forall|a: Seq<char>, b: Seq<char>| #[trigger] str_le()(a, b) || #[trigger] str_le()(b, a) by {
        if a != b {
            lemma_lt_connected(a, b);
        }
    }
}

/// Sorts strings (as character vectors) in `str` order.
pub fn sort_chars(v: &Vec<Vec<char>>) -> (r: Vec<Vec<char>>)
    ensures
        vv(r@) == vv(v@).sort_by(str_le()),
{
    let mut r: Vec<Vec<char>> = Vec::new();
    let ghost src = vv(v@);
    let ghost orig = v@;
    proof {
        lemma_str_le_total();
    }
    let mut i: usize = 0;
    let n = v.len();
    assert(vv(r@) =~= vv(orig).take(0));
    while i < n
        invariant
            n == orig.len(),
            i <= n,
            src == vv(orig),
            v@ == orig,
            sorted_by(vv(r@), str_le()),
            vv(r@).to_multiset() == vv(orig).take(i as int).to_multiset(),
            total_ordering(str_le()),
        decreases n - i,
    {
        let x = crate::text::slice_of(&v[i], 0, v[i].len());
        assert(v@[i as int]@.subrange(0, v@[i as int]@.len() as int) =~= v@[i as int]@);
        assert(x@ == orig[i as int]@);
        let mut pos: usize = 0;
        while pos < r.len() && chars_lt(&r[pos], &x)
            invariant
                pos <= r.len(),
                forall|j: int| 0 <= j < pos ==> seq_lt(#[trigger] r@[j]@, x@),
            decreases r.len() - pos,
        {
            pos += 1;
        }
        let ghost before = vv(r@);
        proof {
            assert forall|j: int| pos <= j < before.len() implies seq_le(x@, #[trigger] before[j]) by {
                if !seq_lt(r@[pos as int]@, x@) {
                    if r@[pos as int]@ != x@ {
                        lemma_lt_connected(r@[pos as int]@, x@);
                    }
                    if j > pos {
                        assert(str_le()(before[pos as int], before[j]));
                        if x@ != before[pos as int] && before[pos as int] != before[j] {
                            lemma_lt_transitive(x@, before[pos as int], before[j]);
                        }
                    }
                }
            }
        }
        r.insert(pos, x);
        proof {
            let after = vv(r@);
            assert(after =~= before.insert(pos as int, orig[i as int]@));
            assert forall|a: int, b: int| 0 <= a < b < after.len() implies #[trigger] str_le()(
                after[a],
                after[b],
            ) by {
                if a < pos && b < pos {
                    assert(str_le()(before[a], before[b]));
                } else if a < pos && b == pos {
                    assert(seq_lt(r@[a]@, x@));
                } else if a < pos && b > pos {
                    assert(str_le()(before[a], before[b - 1]));
                    assert(seq_lt(before[a], x@));
                    assert(seq_le(x@, before[b - 1]));
                    if x@ != before[b - 1] {
                        lemma_lt_transitive(before[a], x@, before[b - 1]);
                    }
                } else if a == pos {
                    assert(seq_le(x@, before[b - 1]));
                } else {
                    assert(str_le()(before[a - 1], before[b - 1]));
                }
            }
            vstd::seq_lib::to_multiset_insert(before, pos as int, orig[i as int]@);
            assert(vv(orig).take(i + 1) =~= vv(orig).take(i as int).push(orig[i as int]@));
            vstd::seq_lib::to_multiset_build(vv(orig).take(i as int), orig[i as int]@);
        }
        i += 1;
    }
    proof {
        assert(vv(orig).take(n as int) =~= vv(orig));
        src.lemma_sort_by_ensures(str_le());
        vstd::seq_lib::lemma_sorted_unique(vv(r@), src.sort_by(str_le()), str_le());
    }
    r
}

} // verus!
