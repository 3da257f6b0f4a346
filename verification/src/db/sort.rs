//! Sorting tuples by their labels: a merge sort that keeps tuples with
//! one label in their order.

use vstd::prelude::*;
use vstd::slice::slice_subrange;
use super::batch::{
    insert_by_label, insert_point, label_of, lemma_insert_by_label, lemma_insert_keeps_sorted,
    lemma_sort_by_label, sort_by_label, sorted_by_label,
};
use super::{tuple_bytes, PungTuple};
use crate::util::{label_lt, lemma_lex_lt_total, lemma_lex_lt_transitive, lex_le, lex_lt};

verus! {

/// An ascending sequence with the tuples of another put in one after the
/// other, each behind the tuples that do not come after it.
pub open spec fn merged(base: Seq<Seq<u8>>, more: Seq<Seq<u8>>) -> Seq<Seq<u8>>
    decreases more.len(),
{
    if more.len() == 0 {
        base
    } else {
        insert_by_label(merged(base, more.drop_last()), more.last())
    }
}

/// Putting tuples into an ascending sequence leaves it ascending.
pub proof fn lemma_merged_sorted(base: Seq<Seq<u8>>, more: Seq<Seq<u8>>)
    requires
        sorted_by_label(base),
    ensures
        sorted_by_label(merged(base, more)),
        merged(base, more).len() == base.len() + more.len(),
    decreases more.len(),
{
    if more.len() > 0 {
        lemma_merged_sorted(base, more.drop_last());
        lemma_insert_keeps_sorted(merged(base, more.drop_last()), more.last());
        lemma_insert_by_label(merged(base, more.drop_last()), more.last());
    }
}

/// Sorting two sequences in a row is sorting the first and putting the
/// tuples of the second in.
pub proof fn lemma_sort_of_two(a: Seq<Seq<u8>>, b: Seq<Seq<u8>>)
    ensures
        sort_by_label(a + b) == merged(sort_by_label(a), b),
    decreases b.len(),
{
    if b.len() == 0 {
        assert(a + b =~= a);
    } else {
        lemma_sort_of_two(a, b.drop_last());
        assert((a + b).drop_last() =~= a + b.drop_last());
        assert((a + b).last() == b.last());
    }
}

/// The place where a tuple goes in is the only one behind all tuples that
/// do not come after it and before all that do.
pub proof fn lemma_insert_point_is(s: Seq<Seq<u8>>, t: Seq<u8>, q: int)
    requires
        0 <= q <= s.len(),
        forall|i: int| q <= i < s.len() ==> lex_lt(label_of(t), label_of(#[trigger] s[i])),
        q > 0 ==> lex_le(label_of(s[q - 1]), label_of(t)),
    ensures
        insert_point(s, t) == q,
    decreases s.len(),
{
    if s.len() > 0 {
        if q < s.len() {
            assert(lex_lt(label_of(t), label_of(s[s.len() - 1])));
            assert forall|i: int| q <= i < s.drop_last().len() implies lex_lt(
                label_of(t),
                label_of(#[trigger] s.drop_last()[i]),
            ) by {
                assert(s.drop_last()[i] == s[i]);
            }
            if q > 0 {
                assert(s.drop_last()[q - 1] == s[q - 1]);
            }
            lemma_insert_point_is(s.drop_last(), t, q);
        }
    }
}

/// Two tuples with different labels go into an ascending sequence in
/// either order.
pub proof fn lemma_insert_twice(s: Seq<Seq<u8>>, t: Seq<u8>, u: Seq<u8>)
    requires
        sorted_by_label(s),
        lex_lt(label_of(t), label_of(u)),
    ensures
        insert_by_label(insert_by_label(s, t), u) == insert_by_label(insert_by_label(s, u), t),
{
    lemma_insert_by_label(s, t);
    lemma_insert_by_label(s, u);
    let pt = insert_point(s, t);
    let pu = insert_point(s, u);
    let lt = label_of(t);
    let lu = label_of(u);
    lemma_lex_lt_total(lt, lu);
    // everything before the place of a tuple does not come after the tuple
    assert forall|i: int| 0 <= i < pt implies lex_le(label_of(#[trigger] s[i]), lt) by {
        if i < pt - 1 {
            assert(lex_le(label_of(s[i]), label_of(s[pt - 1])));
            if lex_lt(lt, label_of(s[i])) {
                lemma_lex_lt_total(label_of(s[i]), label_of(s[pt - 1]));
                lemma_lex_lt_total(lt, label_of(s[pt - 1]));
                if label_of(s[i]) != label_of(s[pt - 1]) {
                    lemma_lex_lt_transitive(lt, label_of(s[i]), label_of(s[pt - 1]));
                }
            }
        }
    }
    if pu < pt {
        assert(lex_le(label_of(s[pu]), lt));
        assert(lex_lt(lu, label_of(s[pu])));
        lemma_lex_lt_total(label_of(s[pu]), lt);
        if label_of(s[pu]) != lt {
            lemma_lex_lt_transitive(lu, label_of(s[pu]), lt);
        }
        assert(false);
    }
    let s1 = s.insert(pt, t);
    let s2 = s.insert(pu, u);
    assert forall|i: int| pu + 1 <= i < s1.len() implies lex_lt(lu, label_of(#[trigger] s1[i])) by {
        assert(s1[i] == s[i - 1]);
    }
    if pu == pt {
        assert(s1[pu] == t);
    } else {
        assert(s1[pu] == s[pu - 1]);
    }
    lemma_insert_point_is(s1, u, pu + 1);
    assert forall|i: int| pt <= i < s2.len() implies lex_lt(lt, label_of(#[trigger] s2[i])) by {
        if i < pu {
            assert(s2[i] == s[i]);
        } else if i == pu {
            assert(s2[i] == u);
        } else {
            assert(s2[i] == s[i - 1]);
            lemma_lex_lt_transitive(lt, lu, label_of(s[i - 1]));
        }
    }
    if pt > 0 {
        assert(s2[pt - 1] == s[pt - 1]);
    }
    lemma_insert_point_is(s2, t, pt);
    lemma_insert_by_label(s1, u);
    lemma_insert_by_label(s2, t);
    assert(s1.insert(pu + 1, u) =~= s2.insert(pt, t));
}

/// A tuple that comes before all tuples from some place on can be put in
/// at that place or last.
pub proof fn lemma_merged_insert(base: Seq<Seq<u8>>, more: Seq<Seq<u8>>, p: int, t: Seq<u8>)
    requires
        sorted_by_label(base),
        0 <= p <= more.len(),
        forall|i: int| p <= i < more.len() ==> lex_lt(label_of(t), label_of(#[trigger] more[i])),
    ensures
        merged(base, more.insert(p, t)) == insert_by_label(merged(base, more), t),
    decreases more.len() - p,
{
    if p == more.len() {
        assert(more.insert(p, t).drop_last() =~= more);
        assert(more.insert(p, t).last() == t);
    } else {
        let u = more.last();
        let head = more.drop_last();
        assert forall|i: int| p <= i < head.len() implies lex_lt(label_of(t), label_of(#[trigger] head[i])) by {
            assert(head[i] == more[i]);
        }
        lemma_merged_insert(base, head, p, t);
        assert(more.insert(p, t).drop_last() =~= head.insert(p, t));
        assert(more.insert(p, t).last() == u);
        lemma_merged_sorted(base, head);
        lemma_insert_twice(merged(base, head), t, u);
    }
}

/// Putting tuples in gives the same whether they are sorted before or
/// not.
pub proof fn lemma_merged_with_sorted(base: Seq<Seq<u8>>, more: Seq<Seq<u8>>)
    requires
        sorted_by_label(base),
    ensures
        merged(base, sort_by_label(more)) == merged(base, more),
    decreases more.len(),
{
    if more.len() > 0 {
        let head = more.drop_last();
        let t = more.last();
        lemma_merged_with_sorted(base, head);
        lemma_insert_by_label(sort_by_label(head), t);
        lemma_merged_insert(base, sort_by_label(head), insert_point(sort_by_label(head), t), t);
    }
}

/// With a tuple behind the base that comes after all tuples that are put
/// in, the merged sequence has that tuple last.
pub proof fn lemma_merged_push(base: Seq<Seq<u8>>, m: Seq<u8>, more: Seq<Seq<u8>>)
    requires
        forall|i: int| 0 <= i < more.len() ==> lex_lt(label_of(#[trigger] more[i]), label_of(m)),
    ensures
        merged(base.push(m), more) == merged(base, more).push(m),
    decreases more.len(),
{
    if more.len() > 0 {
        let head = more.drop_last();
        assert forall|i: int| 0 <= i < head.len() implies lex_lt(label_of(#[trigger] head[i]), label_of(m)) by {
            assert(head[i] == more[i]);
        }
        lemma_merged_push(base, m, head);
        let w = merged(base, head);
        assert(w.push(m).drop_last() =~= w);
        assert(lex_lt(label_of(more.last()), label_of(m)));
    }
}

/// Merges two ascending lists into one; of tuples with one label those of
/// the first list come first.
fn merge(a: &Vec<PungTuple>, b: &Vec<PungTuple>) -> (out: Vec<PungTuple>)
    requires
        sorted_by_label(tuple_bytes(a@)),
        sorted_by_label(tuple_bytes(b@)),
        a@.len() + b@.len() <= usize::MAX,
    ensures
        tuple_bytes(out@) == merged(tuple_bytes(a@), tuple_bytes(b@)),
{
    let ghost x = tuple_bytes(a@);
    let ghost y = tuple_bytes(b@);
    let mut out: Vec<PungTuple> = Vec::with_capacity(a.len() + b.len());
    let mut i: usize = 0;
    let mut j: usize = 0;
    proof {
        assert(x.take(0) =~= Seq::<Seq<u8>>::empty());
        assert(y.take(0) =~= Seq::<Seq<u8>>::empty());
        assert(tuple_bytes(out@) =~= merged(x.take(0), y.take(0)));
    }
    while i < a.len() || j < b.len()
        invariant
            i <= a@.len(),
            j <= b@.len(),
            x == tuple_bytes(a@),
            y == tuple_bytes(b@),
            sorted_by_label(x),
            sorted_by_label(y),
            out@.len() == i + j,
            tuple_bytes(out@) == merged(x.take(i as int), y.take(j as int)),
            j < b@.len() ==> forall|k: int| 0 <= k < i ==> lex_le(label_of(#[trigger] x[k]), label_of(y[j as int])),
            i < a@.len() ==> forall|k: int| 0 <= k < j ==> lex_lt(label_of(#[trigger] y[k]), label_of(x[i as int])),
        decreases a@.len() - i + b@.len() - j,
    {
        let ghost before = tuple_bytes(out@);
        let from_first = if i == a.len() {
            false
        } else if j == b.len() {
            true
        } else {
            !label_lt(b[j].label(), a[i].label())
        };
        if from_first {
            let t = a[i];
            out.push(t);
            proof {
                let yj = y.take(j as int);
                assert(x.take(i as int + 1) =~= x.take(i as int).push(t@));
                assert forall|k: int| 0 <= k < yj.len() implies lex_lt(label_of(#[trigger] yj[k]), label_of(t@)) by {
                    assert(yj[k] == y[k]);
                }
                lemma_merged_push(x.take(i as int), t@, yj);
                assert(tuple_bytes(out@) =~= before.push(t@));
                if j < b@.len() {
                    assert forall|k: int| 0 <= k < i + 1 implies lex_le(label_of(#[trigger] x[k]), label_of(y[j as int])) by {
                        if k == i {
                        }
                    }
                }
                if i + 1 < a@.len() {
                    assert forall|k: int| 0 <= k < j implies lex_lt(label_of(#[trigger] y[k]), label_of(x[i as int + 1])) by {
                        assert(lex_le(label_of(x[i as int]), label_of(x[i as int + 1])));
                        lemma_lex_lt_total(label_of(x[i as int]), label_of(x[i as int + 1]));
                        if label_of(x[i as int]) != label_of(x[i as int + 1]) {
                            lemma_lex_lt_transitive(label_of(y[k]), label_of(x[i as int]), label_of(x[i as int + 1]));
                        }
                    }
                }
            }
            i += 1;
        } else {
            let t = b[j];
            out.push(t);
            proof {
                let w = merged(x.take(i as int), y.take(j as int));
                assert(y.take(j as int + 1).drop_last() =~= y.take(j as int));
                assert(y.take(j as int + 1).last() == t@);
                // the tuple does not come before any that is out
                let xi = x.take(i as int);
                let yj = y.take(j as int);
                assert forall|p: int, q: int| 0 <= p < q < xi.len() implies lex_le(
                    label_of(#[trigger] xi[p]),
                    label_of(#[trigger] xi[q]),
                ) by {
                    assert(lex_le(label_of(x[p]), label_of(x[q])));
                }
                assert forall|k: int| 0 <= k < xi.len() implies lex_le(label_of(#[trigger] xi[k]), label_of(t@)) by {
                    assert(lex_le(label_of(x[k]), label_of(y[j as int])));
                }
                assert forall|k: int| 0 <= k < yj.len() implies lex_le(label_of(#[trigger] yj[k]), label_of(t@)) by {
                    if k < j {
                        assert(lex_le(label_of(y[k]), label_of(y[j as int])));
                    }
                }
                lemma_last_of_merged(xi, yj, t@);
                assert(tuple_bytes(out@) =~= before.push(t@));
                if j + 1 < b@.len() {
                    assert forall|k: int| 0 <= k < i implies lex_le(label_of(#[trigger] x[k]), label_of(y[j as int + 1])) by {
                        assert(lex_le(label_of(y[j as int]), label_of(y[j as int + 1])));
                        lemma_le_transitive(label_of(x[k]), label_of(y[j as int]), label_of(y[j as int + 1]));
                    }
                }
                if i < a@.len() {
                    assert forall|k: int| 0 <= k < j + 1 implies lex_lt(label_of(#[trigger] y[k]), label_of(x[i as int])) by {
                        if k == j {
                        }
                    }
                }
            }
            j += 1;
        }
    }
    proof {
        assert(x.take(a@.len() as int) =~= x);
        assert(y.take(b@.len() as int) =~= y);
    }
    out
}

/// The order of labels goes on from one label to the next.
pub proof fn lemma_le_transitive(a: Seq<u8>, b: Seq<u8>, c: Seq<u8>)
    requires
        lex_le(a, b),
        lex_le(b, c),
    ensures
        lex_le(a, c),
{
    lemma_lex_lt_total(a, b);
    lemma_lex_lt_total(b, c);
    lemma_lex_lt_total(a, c);
    if lex_lt(c, a) {
        if a != b && b != c {
            lemma_lex_lt_transitive(a, b, c);
        }
    }
}

/// A tuple that comes before none of those merged goes last.
pub proof fn lemma_last_of_merged(base: Seq<Seq<u8>>, more: Seq<Seq<u8>>, t: Seq<u8>)
    requires
        sorted_by_label(base),
        forall|k: int| 0 <= k < base.len() ==> lex_le(label_of(#[trigger] base[k]), label_of(t)),
        forall|k: int| 0 <= k < more.len() ==> lex_le(label_of(#[trigger] more[k]), label_of(t)),
    ensures
        insert_by_label(merged(base, more), t) == merged(base, more).push(t),
{
    let w = merged(base, more);
    lemma_merged_sorted(base, more);
    if w.len() > 0 {
        lemma_merged_holds(base, more, w.len() - 1);
    }
}

/// Every tuple of a merged sequence is one of those merged.
pub proof fn lemma_merged_holds(base: Seq<Seq<u8>>, more: Seq<Seq<u8>>, i: int)
    requires
        0 <= i < merged(base, more).len(),
    ensures
        base.contains(merged(base, more)[i]) || more.contains(merged(base, more)[i]),
    decreases more.len(),
{
    if more.len() == 0 {
        assert(base[i] == merged(base, more)[i]);
    } else {
        let head = more.drop_last();
        let w = merged(base, head);
        lemma_insert_by_label(w, more.last());
        let p = insert_point(w, more.last());
        if i == p {
            assert(more[more.len() - 1] == more.last());
        } else {
            let k = if i < p {
                i
            } else {
                i - 1
            };
            lemma_merged_holds(base, head, k);
            if head.contains(w[k]) {
                let at = choose|at: int| 0 <= at < head.len() && head[at] == w[k];
                assert(more[at] == w[k]);
            }
        }
    }
}

/// The tuples of a list in ascending order of their labels; tuples with
/// one label keep their order.
pub fn sort_tuples(tuples: &[PungTuple]) -> (out: Vec<PungTuple>)
    ensures
        tuple_bytes(out@) == sort_by_label(tuple_bytes(tuples@)),
    decreases tuples@.len(),
{
    let n = tuples.len();
    let ghost all = tuple_bytes(tuples@);
    if n <= 1 {
        let mut out: Vec<PungTuple> = Vec::with_capacity(n);
        if n == 1 {
            out.push(tuples[0]);
            proof {
                let none = all.drop_last();
                assert(none.len() == 0);
                assert(sort_by_label(none) == none);
                assert(insert_by_label(none, all.last()) == seq![all.last()]);
                assert(tuple_bytes(out@) =~= seq![all.last()]);
            }
        } else {
            assert(tuple_bytes(out@) =~= all);
            assert(sort_by_label(all) == all);
        }
        return out;
    }
    let mid = n / 2;
    let left = slice_subrange(tuples, 0, mid);
    let right = slice_subrange(tuples, mid, n);
    let a = sort_tuples(left);
    let b = sort_tuples(right);
    proof {
        let l = tuple_bytes(left@);
        let r = tuple_bytes(right@);
        assert(all =~= l + r);
        lemma_sort_by_label(l);
        lemma_sort_by_label(r);
        lemma_sort_of_two(l, r);
        lemma_merged_with_sorted(sort_by_label(l), r);
    }
    merge(&a, &b)
}

} // verus!
