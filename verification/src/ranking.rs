//! The orders in which puzzle names and saved solutions are listed.
use vstd::prelude::*;
use vstd::string::StrSliceExecFns;

use crate::puzzle::Solution;

verus! {

/// `a` comes strictly before `b` when the two are compared character by
/// character from position `i` on, a string that runs out first coming first.
pub open spec fn name_before_from(a: Seq<char>, b: Seq<char>, i: nat) -> bool
    decreases a.len() - i,
{
    if i >= a.len() {
        i < b.len()
    } else if i >= b.len() {
        false
    } else if a[i as int] != b[i as int] {
        (a[i as int] as int) < (b[i as int] as int)
    } else {
        name_before_from(a, b, i + 1)
    }
}

/// `a` comes strictly before `b` in the lexicographic order of strings.
pub open spec fn name_before(a: Seq<char>, b: Seq<char>) -> bool {
    name_before_from(a, b, 0)
}

/// A saved solution ranks before another: a higher score first, and among
/// equal scores the name that comes first.
pub open spec fn ranks_before(a: (Seq<char>, int), b: (Seq<char>, int)) -> bool {
    a.1 > b.1 || (a.1 == b.1 && name_before(a.0, b.0))
}

/// What a listed solution is ranked by: its file name and its score.
pub open spec fn rank_key(e: (String, Solution)) -> (Seq<char>, int) {
    (e.0@, e.1.score as int)
}

/// No name comes after a later one.
pub open spec fn names_sorted(s: Seq<String>) -> bool {
    forall|i: int, j: int| 0 <= i < j < s.len() ==> !name_before(#[trigger] s[j]@, #[trigger] s[i]@)
}

/// No solution ranks before one listed earlier.
pub open spec fn solutions_ranked(s: Seq<(String, Solution)>) -> bool {
    forall|i: int, j: int|
        0 <= i < j < s.len() ==> !ranks_before(rank_key(#[trigger] s[j]), rank_key(#[trigger] s[i]))
}

proof fn lemma_name_before_asymmetric(a: Seq<char>, b: Seq<char>, i: nat)
    requires
        name_before_from(a, b, i),
    ensures
        !name_before_from(b, a, i),
    decreases a.len() - i,
{
    if i < a.len() && i < b.len() && a[i as int] == b[i as int] {
        lemma_name_before_asymmetric(a, b, i + 1);
    }
}

proof fn lemma_name_before_transitive(a: Seq<char>, b: Seq<char>, c: Seq<char>, i: nat)
    requires
        name_before_from(a, b, i),
        name_before_from(b, c, i),
    ensures
        name_before_from(a, c, i),
    decreases a.len() - i,
{
    if i < a.len() && i < b.len() && i < c.len() && a[i as int] == b[i as int] && b[i as int] == c[i as int] {
        lemma_name_before_transitive(a, b, c, i + 1);
    }
}

proof fn lemma_name_before_total(a: Seq<char>, b: Seq<char>, i: nat)
    requires
        i <= a.len(),
        i <= b.len(),
        !name_before_from(a, b, i),
        !name_before_from(b, a, i),
    ensures
        a.skip(i as int) == b.skip(i as int),
    decreases a.len() - i,
{
    if i < a.len() && i < b.len() && a[i as int] == b[i as int] {
        lemma_name_before_total(a, b, i + 1);
        assert(a.len() == b.len()) by {
            assert(a.skip(i + 1 as int).len() == b.skip(i + 1 as int).len());
        }
        assert(a.skip(i as int) =~= b.skip(i as int)) by {
            assert forall|k: int| 0 <= k < a.skip(i as int).len() implies a.skip(i as int)[k] == b.skip(
                i as int,
            )[k] by {
                if k > 0 {
                    assert(a.skip(i as int)[k] == a.skip(i + 1 as int)[k - 1]);
                    assert(b.skip(i as int)[k] == b.skip(i + 1 as int)[k - 1]);
                }
            }
        }
    } else {
        assert(i >= a.len() && i >= b.len());
        assert(a.skip(i as int) =~= b.skip(i as int));
    }
}

/// Of two different names exactly one comes first.
pub proof fn lemma_names_totally_ordered(a: Seq<char>, b: Seq<char>)
    ensures
        !(name_before(a, b) && name_before(b, a)),
        a != b ==> name_before(a, b) || name_before(b, a),
        !name_before(a, a),
{
    if name_before(a, b) {
        lemma_name_before_asymmetric(a, b, 0);
    }
    if !name_before(a, b) && !name_before(b, a) {
        lemma_name_before_total(a, b, 0);
        assert(a == a.skip(0));
        assert(b == b.skip(0));
    }
    if name_before(a, a) {
        lemma_name_before_asymmetric(a, a, 0);
    }
}

/// The order of names is transitive.
pub proof fn lemma_names_transitive(a: Seq<char>, b: Seq<char>, c: Seq<char>)
    requires
        name_before(a, b),
        name_before(b, c),
    ensures
        name_before(a, c),
{
    lemma_name_before_transitive(a, b, c, 0);
}

proof fn lemma_rank_step(x: (Seq<char>, int), p: (Seq<char>, int), q: (Seq<char>, int))
    requires
        ranks_before(x, p),
        !ranks_before(q, p),
    ensures
        ranks_before(x, q),
        !ranks_before(q, x),
{
    lemma_names_totally_ordered(p.0, q.0);
    lemma_names_totally_ordered(x.0, q.0);
    if ranks_before(p, q) {
        if x.1 == p.1 && p.1 == q.1 {
            lemma_names_transitive(x.0, p.0, q.0);
        }
    }
    lemma_names_totally_ordered(x.0, q.0);
}

/// Whether `a` comes strictly before `b` in the lexicographic order of strings.
pub fn is_name_before(a: &String, b: &String) -> (r: bool)
    ensures
        r == name_before(a@, b@),
{
    let sa = a.as_str();
    let sb = b.as_str();
    let la = sa.unicode_len();
    let lb = sb.unicode_len();
    let mut i: usize = 0;
    while i < la && i < lb
        invariant
            la == a@.len(),
            lb == b@.len(),
            sa@ == a@,
            sb@ == b@,
            i <= la,
            i <= lb,
            name_before(a@, b@) == name_before_from(a@, b@, i as nat),
        decreases la - i,
    {
        let ca = sa.get_char(i);
        let cb = sb.get_char(i);
        if ca != cb {
            return (ca as u32) < (cb as u32);
        }
        i = i + 1;
    }
    i >= la && i < lb
}

fn entry_ranks_before(a: &(String, Solution), b: &(String, Solution)) -> (r: bool)
    ensures
        r == ranks_before(rank_key(*a), rank_key(*b)),
{
    if a.1.score != b.1.score {
        a.1.score > b.1.score
    } else {
        is_name_before(&a.0, &b.0)
    }
}

/// Sorts names into lexicographic order.
pub fn sort_names(names: &mut Vec<String>)
    ensures
        final(names)@.to_multiset() == old(names)@.to_multiset(),
        names_sorted(final(names)@),
{
    let ghost start = names@;
    let n = names.len();
    let mut i: usize = 1;
    if n == 0 {
        return;
    }
    while i < n
        invariant
            1 <= i <= n,
            n == names@.len(),
            names@.to_multiset() == start.to_multiset(),
            names_sorted(names@.subrange(0, i as int)),
        decreases n - i,
    {
        let ghost before = names@;
        let x = names.remove(i);
        let mut p: usize = 0;
        while p < i && !is_name_before(&x, &names[p])
            invariant
                p <= i,
                i < before.len(),
                names@ == before.remove(i as int),
                forall|q: int| 0 <= q < p ==> !name_before(x@, #[trigger] names@[q]@),
            decreases i - p,
        {
            p = p + 1;
        }
        let ghost mid = names@;
        names.insert(p, x);
        proof {
            broadcast use vstd::multiset::group_multiset_axioms, vstd::seq_lib::to_multiset_contains;

            vstd::seq_lib::to_multiset_remove(before, i as int);
            vstd::seq_lib::to_multiset_insert(mid, p as int, x);
            assert(before.to_multiset().contains(x));
            assert(before.to_multiset().remove(x).insert(x) =~= before.to_multiset());
            let s = names@;
            assert(s.subrange(0, i + 1) =~= before.subrange(0, i as int).insert(p as int, x));
            assert forall|a: int, b: int| 0 <= a < b < i + 1 implies !name_before(
                #[trigger] s.subrange(0, i + 1)[b]@,
                #[trigger] s.subrange(0, i + 1)[a]@,
            ) by {
                let t = s.subrange(0, i + 1);
                let pre = before.subrange(0, i as int);
                if b < p {
                    assert(t[a] == pre[a] && t[b] == pre[b]);
                } else if b == p {
                    assert(t[b] == x && t[a] == pre[a]);
                } else if a == p {
                    assert(t[a] == x && t[b] == pre[b - 1]);
                    assert(name_before(x@, mid[p as int]@));
                    assert(mid[p as int] == pre[p as int]);
                    if p < b - 1 {
                        assert(!name_before(pre[b - 1]@, pre[p as int]@));
                        lemma_names_totally_ordered(pre[b - 1]@, pre[p as int]@);
                        if pre[b - 1]@ != pre[p as int]@ {
                            lemma_names_transitive(x@, pre[p as int]@, pre[b - 1]@);
                        }
                    }
                    lemma_names_totally_ordered(x@, pre[b - 1]@);
                } else if a < p {
                    assert(t[a] == pre[a] && t[b] == pre[b - 1]);
                } else {
                    assert(t[a] == pre[a - 1] && t[b] == pre[b - 1]);
                }
            }
        }
        i = i + 1;
    }
    assert(names@.subrange(0, n as int) =~= names@);
}

/// Lists saved solutions from the highest score down, equal scores by name.
pub fn sort_solutions(solutions: &mut Vec<(String, Solution)>)
    ensures
        final(solutions)@.to_multiset() == old(solutions)@.to_multiset(),
        solutions_ranked(final(solutions)@),
{
    let ghost start = solutions@;
    let n = solutions.len();
    let mut i: usize = 1;
    if n == 0 {
        return;
    }
    while i < n
        invariant
            1 <= i <= n,
            n == solutions@.len(),
            solutions@.to_multiset() == start.to_multiset(),
            solutions_ranked(solutions@.subrange(0, i as int)),
        decreases n - i,
    {
        let ghost before = solutions@;
        let x = solutions.remove(i);
        let mut p: usize = 0;
        while p < i && !entry_ranks_before(&x, &solutions[p])
            invariant
                p <= i,
                i < before.len(),
                solutions@ == before.remove(i as int),
                forall|q: int| 0 <= q < p ==> !ranks_before(rank_key(x), rank_key(#[trigger] solutions@[q])),
            decreases i - p,
        {
            p = p + 1;
        }
        let ghost mid = solutions@;
        solutions.insert(p, x);
        proof {
            broadcast use vstd::multiset::group_multiset_axioms, vstd::seq_lib::to_multiset_contains;

            vstd::seq_lib::to_multiset_remove(before, i as int);
            vstd::seq_lib::to_multiset_insert(mid, p as int, x);
            assert(before.to_multiset().contains(x));
            assert(before.to_multiset().remove(x).insert(x) =~= before.to_multiset());
            let s = solutions@;
            assert(s.subrange(0, i + 1) =~= before.subrange(0, i as int).insert(p as int, x));
            assert forall|a: int, b: int| 0 <= a < b < i + 1 implies !ranks_before(
                rank_key(#[trigger] s.subrange(0, i + 1)[b]),
                rank_key(#[trigger] s.subrange(0, i + 1)[a]),
            ) by {
                let t = s.subrange(0, i + 1);
                let pre = before.subrange(0, i as int);
                if b < p {
                    assert(t[a] == pre[a] && t[b] == pre[b]);
                } else if b == p {
                    assert(t[b] == x && t[a] == pre[a]);
                } else if a == p {
                    assert(t[a] == x && t[b] == pre[b - 1]);
                    assert(mid[p as int] == pre[p as int]);
                    if p < b - 1 {
                        assert(!ranks_before(rank_key(pre[b - 1]), rank_key(pre[p as int])));
                        lemma_rank_step(rank_key(x), rank_key(pre[p as int]), rank_key(pre[b - 1]));
                    } else {
                        lemma_names_totally_ordered(x.0@, pre[p as int].0@);
                    }
                } else if a < p {
                    assert(t[a] == pre[a] && t[b] == pre[b - 1]);
                } else {
                    assert(t[a] == pre[a - 1] && t[b] == pre[b - 1]);
                }
            }
        }
        i = i + 1;
    }
    assert(solutions@.subrange(0, n as int) =~= solutions@);
}

} // verus!
