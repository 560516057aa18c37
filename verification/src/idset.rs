//! Statement-id sets, kept as duplicate-free vectors. Membership, insertion
//! and union are stated over `Seq::contains`, so callers reason about these
//! vectors as sets.

use vstd::prelude::*;

use crate::statement::StatementId;

verus! {

/// A duplicate-free vector: the set representation invariant.
pub open spec fn distinct(s: Seq<StatementId>) -> bool {
    forall|i: int, j: int| 0 <= i < s.len() && 0 <= j < s.len() && i != j ==> s[i] != s[j]
}

/// Whether `id` is an element of the set `v`.
pub fn set_contains(v: &Vec<StatementId>, id: StatementId) -> (r: bool)
    ensures
        r == v@.contains(id),
{
    let n = v.len();
    let mut i: usize = 0;
    while i < n
        invariant
            n == v@.len(),
            i <= n,
            forall|k: int| 0 <= k < i ==> v@[k] != id,
        decreases n - i,
    {
        if v[i] == id {
            return true;
        }
        i = i + 1;
    }
    false
}

/// Inserts `id` unless it is already present.
pub fn set_insert(v: &mut Vec<StatementId>, id: StatementId)
    requires
        distinct(old(v)@),
    ensures
        distinct(final(v)@),
        final(v)@.contains(id),
        forall|x: StatementId| #[trigger] final(v)@.contains(x) <==> (old(v)@.contains(x) || x == id),
{
    if !set_contains(v, id) {
        let ghost pre = v@;
        v.push(id);
        assert(forall|x: StatementId|
            final(v)@.contains(x) <==> (pre.contains(x) || x == id)) by {
            assert(forall|k: int| 0 <= k < pre.len() ==> final(v)@[k] == pre[k]);
            assert(final(v)@[pre.len() as int] == id);
            assert(forall|x: StatementId| pre.contains(x) ==> final(v)@.contains(x));
        }
    }
}

/// Unions `src` into `dst`.
pub fn set_union_into(dst: &mut Vec<StatementId>, src: &Vec<StatementId>)
    requires
        distinct(old(dst)@),
    ensures
        distinct(final(dst)@),
        forall|x: StatementId|
            #[trigger] final(dst)@.contains(x) <==> (old(dst)@.contains(x) || src@.contains(x)),
{
    let n = src.len();
    let mut i: usize = 0;
    while i < n
        invariant
            n == src@.len(),
            i <= n,
            distinct(dst@),
            forall|x: StatementId|
                dst@.contains(x)
                    <==> (old(dst)@.contains(x) || exists|k: int| 0 <= k < i && src@[k] == x),
        decreases n - i,
    {
        let ghost seen = i as int;
        set_insert(dst, src[i]);
        assert forall|x: StatementId|
            dst@.contains(x)
                <==> (old(dst)@.contains(x) || exists|k: int| 0 <= k < seen + 1 && src@[k] == x) by {
            if dst@.contains(x) {
                if !old(dst)@.contains(x) {
                    if x == src@[seen] {
                        assert(0 <= seen < seen + 1 && src@[seen] == x);
                    }
                }
            }
            if exists|k: int| 0 <= k < seen + 1 && src@[k] == x {
                let k = choose|k: int| 0 <= k < seen + 1 && src@[k] == x;
                if k < seen {
                    assert(exists|k2: int| 0 <= k2 < seen && src@[k2] == x);
                } else {
                    assert(x == src@[seen]);
                }
            }
        }
        i = i + 1;
    }
    assert forall|x: StatementId| src@.contains(x)
        implies exists|k: int| 0 <= k < n && src@[k] == x by {
        let k = choose|k: int| 0 <= k < src@.len() && src@[k] == x;
        assert(0 <= k < n && src@[k] == x);
    }
}

/// Pushing an element extends a sequence's membership by exactly that
/// element.
pub proof fn lemma_push_contains<T>(s: Seq<T>, x: T)
    ensures
        forall|y: T| #[trigger] s.push(x).contains(y) <==> (s.contains(y) || y == x),
{
    assert forall|y: T| #[trigger] s.push(x).contains(y) <==> (s.contains(y) || y == x) by {
        if s.push(x).contains(y) {
            let k = choose|k: int| 0 <= k < s.push(x).len() && s.push(x)[k] == y;
            if k < s.len() {
                assert(s[k] == y);
            }
        }
        if s.contains(y) {
            let k = choose|k: int| 0 <= k < s.len() && s[k] == y;
            assert(s.push(x)[k] == y);
        }
        if y == x {
            assert(s.push(x)[s.len() as int] == y);
        }
    }
}

/// Concatenation holds exactly the elements of the two parts.
pub proof fn lemma_concat_contains<T>(a: Seq<T>, b: Seq<T>)
    ensures
        forall|y: T| #[trigger] (a + b).contains(y) <==> (a.contains(y) || b.contains(y)),
{
    assert forall|y: T| #[trigger] (a + b).contains(y) <==> (a.contains(y) || b.contains(y)) by {
        if (a + b).contains(y) {
            let k = choose|k: int| 0 <= k < (a + b).len() && (a + b)[k] == y;
            if k < a.len() {
                assert(a[k] == y);
            } else {
                assert(b[k - a.len()] == y);
            }
        }
        if a.contains(y) {
            let k = choose|k: int| 0 <= k < a.len() && a[k] == y;
            assert((a + b)[k] == y);
        }
        if b.contains(y) {
            let k = choose|k: int| 0 <= k < b.len() && b[k] == y;
            assert((a + b)[k + a.len()] == y);
        }
    }
}

/// A duplicate-free vector is no longer than any duplicate-free vector
/// holding all of its elements.
pub proof fn lemma_distinct_subset_len(a: Seq<StatementId>, b: Seq<StatementId>)
    requires
        distinct(a),
        distinct(b),
        forall|id: StatementId| #[trigger] a.contains(id) ==> b.contains(id),
    ensures
        a.len() <= b.len(),
{
    assert(a.no_duplicates());
    a.unique_seq_to_set();
    b.lemma_cardinality_of_set();
    vstd::seq_lib::seq_to_set_is_finite(b);
    assert(a.to_set().subset_of(b.to_set()));
    vstd::set_lib::lemma_len_subset(a.to_set(), b.to_set());
}

/// Two duplicate-free vectors, one holding all elements of the other and
/// no longer than it, hold exactly the same elements.
pub proof fn lemma_distinct_same_len_same_elems(a: Seq<StatementId>, b: Seq<StatementId>)
    requires
        distinct(a),
        distinct(b),
        forall|id: StatementId| #[trigger] a.contains(id) ==> b.contains(id),
        b.len() <= a.len(),
    ensures
        forall|id: StatementId| #[trigger] b.contains(id) ==> a.contains(id),
{
    assert(a.no_duplicates());
    assert(b.no_duplicates());
    a.unique_seq_to_set();
    b.unique_seq_to_set();
    vstd::seq_lib::seq_to_set_is_finite(a);
    vstd::seq_lib::seq_to_set_is_finite(b);
    assert(a.to_set().subset_of(b.to_set()));
    vstd::set_lib::lemma_len_subset(a.to_set(), b.to_set());
    assert forall|id: StatementId| #[trigger] b.contains(id) implies a.contains(id) by {
        if !a.contains(id) {
            assert(a.to_set().subset_of(b.to_set().remove(id)));
            vstd::set::axiom_set_remove_len(b.to_set(), id);
            vstd::set_lib::lemma_len_subset(a.to_set(), b.to_set().remove(id));
        }
    }
}

/// A fresh copy of the set.
pub fn set_copy(src: &Vec<StatementId>) -> (r: Vec<StatementId>)
    ensures
        r@ == src@,
{
    let n = src.len();
    let mut r: Vec<StatementId> = Vec::new();
    let mut i: usize = 0;
    while i < n
        invariant
            n == src@.len(),
            i <= n,
            r@ == src@.subrange(0, i as int),
        decreases n - i,
    {
        r.push(src[i]);
        assert(r@ =~= src@.subrange(0, i + 1 as int));
        i = i + 1;
    }
    assert(src@.subrange(0, n as int) =~= src@);
    r
}

} // verus!
