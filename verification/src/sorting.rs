//! In-place sorting of record vectors, with the result pinned to the unique
//! sorted permutation of the input.
use vstd::prelude::*;
use vstd::relations::{sorted_by, total_ordering};
use vstd::seq_lib::lemma_sorted_unique;

use crate::order::{record_le, sorted, RecordOrder};

verus! {

broadcast use vstd::seq_lib::group_to_multiset_ensures;

/// The record order is a total ordering in the sense of `vstd::relations`.
pub proof fn lemma_record_total_ordering<T: RecordOrder>()
    ensures
        total_ordering(record_le::<T>()),
{
    let leq = record_le::<T>();
    assert forall|a: T, b: T| #[trigger] leq(a, b) || #[trigger] leq(b, a) by {
        T::lemma_le_total(&a, &b);
    }
    assert forall|a: T| #[trigger] leq(a, a) by {
        T::lemma_le_total(&a, &a);
    }
    assert forall|a: T, b: T| #[trigger] leq(a, b) && #[trigger] leq(b, a) implies a == b by {
        T::lemma_le_antisymmetric(&a, &b);
    }
    assert forall|a: T, b: T, c: T| #[trigger] leq(a, b) && #[trigger] leq(b, c) implies leq(
        a,
        c,
    ) by {
        T::lemma_le_transitive(&a, &b, &c);
    }
}

/// `sorted` and vstd's `sorted_by` under the record order coincide.
pub proof fn lemma_sorted_is_sorted_by<T: RecordOrder>(s: Seq<T>)
    ensures
        sorted(s) == sorted_by(s, record_le::<T>()),
{
    if sorted(s) {
        assert forall|p: int, q: int| 0 <= p < q < s.len() implies #[trigger] record_le::<T>()(
            s[p],
            s[q],
        ) by {
            assert(s[p].le_spec(&s[q]));
        }
    }
    if sorted_by(s, record_le::<T>()) {
        assert forall|p: int, q: int| 0 <= p < q < s.len() implies #[trigger] s[p].le_spec(
            &s[q],
        ) by {
            assert(record_le::<T>()(s[p], s[q]));
        }
    }
}

/// Sort the records ascending. Under a total order the sorted permutation of
/// the input is unique, so the result is pinned exactly.
pub fn sort_records<T: RecordOrder>(v: &mut Vec<T>)
    ensures
        final(v)@ == old(v)@.sort_by(record_le::<T>()),
        sorted(final(v)@),
        final(v)@.to_multiset() == old(v)@.to_multiset(),
        final(v)@.len() == old(v)@.len(),
{
    let ghost orig = v@;
    let mut i: usize = 1;
    while i < v.len()
        invariant
            1 <= i,
            i as int <= v@.len() || (i == 1 && v@.len() == 0),
            v@.len() == orig.len(),
            v@.to_multiset() == orig.to_multiset(),
            i as int <= v@.len() ==> sorted(v@.take(i as int)),
        decreases v@.len() - i,
    {
        let ghost cur = v@;
        let x = v.remove(i);
        let ghost ar = v@;
        let ghost ii = i as int;
        proof {
            assert(ar.take(ii) =~= cur.take(ii));
            assert(sorted(ar.take(ii)));
        }
        let mut j: usize = 0;
        while j < i && !x.le(&v[j])
            invariant
                j <= i < orig.len(),
                v@ == ar,
                ar.len() == orig.len() - 1,
                forall|p: int| 0 <= p < j ==> !(#[trigger] x.le_spec(&ar[p])),
            decreases i - j,
        {
            j += 1;
        }
        let ghost jj = j as int;
        v.insert(j, x);
        proof {
            let nw = v@;
            assert(nw == ar.insert(jj, x));
            // how the new sequence indexes into the old one
            assert forall|t: int| 0 <= t <= ii implies nw[t] == (if t < jj {
                ar[t]
            } else if t == jj {
                x
            } else {
                ar[t - 1]
            }) by {
                ar.insert_ensures(jj, x);
                if t < jj {
                    assert(ar.insert(jj, x)[t] == ar[t]);
                } else if t > jj {
                    assert(ar.insert(jj, x)[(t - 1) + 1] == ar[t - 1]);
                }
            }
            // elements before the insertion point are at most x
            assert forall|p: int| 0 <= p < jj implies #[trigger] ar[p].le_spec(&x) by {
                assert(!x.le_spec(&ar[p]));
                T::lemma_le_total(&x, &ar[p]);
            }
            // x is at most every element from the insertion point on
            assert forall|q: int| jj <= q < ii implies #[trigger] x.le_spec(&ar[q]) by {
                assert(x.le_spec(&ar[jj]));
                if jj < q {
                    assert(ar.take(ii)[jj].le_spec(&ar.take(ii)[q]));
                    assert(ar[jj].le_spec(&ar[q]));
                    T::lemma_le_transitive(&x, &ar[jj], &ar[q]);
                }
            }
            assert forall|p: int, q: int| 0 <= p < q < ii + 1 implies #[trigger] nw.take(ii + 1)[p]
                .le_spec(&nw.take(ii + 1)[q]) by {
                assert(nw.take(ii + 1)[p] == nw[p] && nw.take(ii + 1)[q] == nw[q]);
                if q < jj {
                    assert(ar.take(ii)[p].le_spec(&ar.take(ii)[q]));
                } else if q == jj {
                    assert(ar[p].le_spec(&x));
                } else {
                    if p < jj {
                        assert(ar.take(ii)[p].le_spec(&ar.take(ii)[q - 1]));
                        assert(ar[p].le_spec(&ar[q - 1]));
                    } else if p == jj {
                        assert(x.le_spec(&ar[q - 1]));
                    } else {
                        assert(ar.take(ii)[p - 1].le_spec(&ar.take(ii)[q - 1]));
                    }
                }
            }
            assert(sorted(nw.take(ii + 1)));
            assert(nw.to_multiset() =~= cur.to_multiset()) by {
                assert(ar.to_multiset() == cur.to_multiset().remove(cur[ii]));
                assert(nw.to_multiset() == ar.to_multiset().insert(x));
            }
        }
        i += 1;
    }
    proof {
        assert(sorted(v@)) by {
            if v@.len() > 0 {
                assert(i as int == v@.len());
                assert(v@.take(v@.len() as int) =~= v@);
            }
        }
        let leq = record_le::<T>();
        lemma_record_total_ordering::<T>();
        orig.lemma_sort_by_ensures(leq);
        lemma_sorted_is_sorted_by::<T>(v@);
        lemma_sorted_unique(v@, orig.sort_by(leq), leq);
    }
}

/// Removal of adjacent duplicates, as `Vec::dedup` does it: of every run of
/// equal consecutive elements only the first is kept.
pub open spec fn dedup_spec<T>(s: Seq<T>) -> Seq<T>
    decreases s.len(),
{
    if s.len() == 0 {
        Seq::empty()
    } else {
        let rest = dedup_spec(s.drop_last());
        if rest.len() > 0 && rest.last() == s.last() {
            rest
        } else {
            rest.push(s.last())
        }
    }
}

/// On a sorted sequence, removing adjacent duplicates leaves a sorted
/// duplicate-free sequence with the same elements.
pub proof fn lemma_dedup_sorted<T: RecordOrder>(s: Seq<T>)
    requires
        sorted(s),
    ensures
        sorted(dedup_spec(s)),
        dedup_spec(s).no_duplicates(),
        forall|x: T| dedup_spec(s).contains(x) == s.contains(x),
        (dedup_spec(s).len() > 0) == (s.len() > 0),
        s.len() > 0 ==> dedup_spec(s).last() == s.last(),
    decreases s.len(),
{
    if s.len() == 0 {
        assert forall|x: T| dedup_spec(s).contains(x) == s.contains(x) by {
            assert(!dedup_spec(s).contains(x) && !s.contains(x));
        }
    } else {
        let d = s.drop_last();
        let z = s.last();
        let rest = dedup_spec(d);
        assert(sorted(d)) by {
            assert forall|p: int, q: int| 0 <= p < q < d.len() implies #[trigger] d[p].le_spec(
                &d[q],
            ) by {
                assert(s[p].le_spec(&s[q]));
            }
        }
        lemma_dedup_sorted(d);
        // every element already collected is at most the last element
        assert forall|y: T| rest.contains(y) implies #[trigger] y.le_spec(&z) by {
            assert(d.contains(y));
            let p = choose|p: int| 0 <= p < d.len() && d[p] == y;
            assert(s[p].le_spec(&s[s.len() - 1]));
        }
        assert forall|x: T| s.contains(x) implies (d.contains(x) || x == z) by {
            let p = choose|p: int| 0 <= p < s.len() && s[p] == x;
            if p < s.len() - 1 {
                assert(d[p] == x);
            }
        }
        assert forall|x: T| d.contains(x) implies s.contains(x) by {
            let p = choose|p: int| 0 <= p < d.len() && d[p] == x;
            assert(s[p] == x);
        }
        assert(s.contains(z)) by {
            assert(s[s.len() - 1] == z);
        }
        if rest.len() > 0 && rest.last() == z {
            assert(dedup_spec(s) == rest);
            assert(rest.contains(z)) by {
                assert(rest[rest.len() - 1] == z);
            }
        } else {
            let r = rest.push(z);
            assert(dedup_spec(s) == r);
            // the pushed element differs from everything collected so far
            assert forall|y: T| rest.contains(y) implies y != z by {
                if y == z && rest.len() > 0 {
                    let p = choose|p: int| 0 <= p < rest.len() && rest[p] == y;
                    if p < rest.len() - 1 {
                        assert(rest[p].le_spec(&rest[rest.len() - 1]));
                    } else {
                        assert(rest.last() == y);
                    }
                    assert(y.le_spec(&rest.last()));
                    assert(rest.contains(rest.last())) by {
                        assert(rest[rest.len() - 1] == rest.last());
                    }
                    assert(rest.last().le_spec(&z));
                    T::lemma_le_antisymmetric(&rest.last(), &y);
                    assert(rest.last() == z);
                }
            }
            assert(sorted(r)) by {
                assert forall|p: int, q: int| 0 <= p < q < r.len() implies #[trigger] r[p].le_spec(
                    &r[q],
                ) by {
                    if q < r.len() - 1 {
                        assert(rest[p].le_spec(&rest[q]));
                    } else {
                        assert(rest.contains(r[p])) by {
                            assert(rest[p] == r[p]);
                        }
                        assert(r[p].le_spec(&z));
                    }
                }
            }
            assert(r.no_duplicates()) by {
                assert forall|p: int, q: int|
                    0 <= p < r.len() && 0 <= q < r.len() && p != q implies r[p] != r[q] by {
                    if p < r.len() - 1 && q < r.len() - 1 {
                        assert(rest[p] != rest[q]);
                    } else if p < r.len() - 1 {
                        assert(rest.contains(r[p])) by {
                            assert(rest[p] == r[p]);
                        }
                    } else if q < r.len() - 1 {
                        assert(rest.contains(r[q])) by {
                            assert(rest[q] == r[q]);
                        }
                    }
                }
            }
            assert forall|x: T| r.contains(x) implies s.contains(x) by {
                let p = choose|p: int| 0 <= p < r.len() && r[p] == x;
                if p < r.len() - 1 {
                    assert(rest.contains(x)) by {
                        assert(rest[p] == x);
                    }
                }
            }
            assert forall|x: T| s.contains(x) implies r.contains(x) by {
                if x == z {
                    assert(r[r.len() - 1] == x);
                } else {
                    assert(d.contains(x));
                    assert(rest.contains(x));
                    let p = choose|p: int| 0 <= p < rest.len() && rest[p] == x;
                    assert(r[p] == x);
                }
            }
        }
    }
}

/// Remove adjacent equal records in place, as the spec-level `dedup_spec`
/// does.
pub fn dedup_records<T: RecordOrder + Copy>(v: &mut Vec<T>)
    ensures
        final(v)@ == dedup_spec(old(v)@),
{
    let ghost orig = v@;
    let mut out: Vec<T> = Vec::new();
    let mut i: usize = 0;
    while i < v.len()
        invariant
            i <= v@.len(),
            v@ == orig,
            out@ == dedup_spec(orig.take(i as int)),
        decreases v@.len() - i,
    {
        let x = v[i];
        let n = out.len();
        let push = if n == 0 {
            true
        } else {
            let last = &out[n - 1];
            !(last.le(&x) && x.le(last))
        };
        proof {
            let t = orig.take(i as int + 1);
            assert(t.drop_last() =~= orig.take(i as int));
            assert(t.last() == orig[i as int]);
            if n > 0 {
                if out@.last() == x {
                    T::lemma_le_total(&out@.last(), &out@.last());
                } else {
                    if out@[n - 1].le_spec(&x) && x.le_spec(&out@[n - 1]) {
                        T::lemma_le_antisymmetric(&out@[n - 1], &x);
                    }
                }
            }
            assert(push == !(out@.len() > 0 && out@.last() == x));
        }
        if push {
            out.push(x);
        }
        i += 1;
    }
    proof {
        assert(orig.take(orig.len() as int) =~= orig);
    }
    *v = out;
}

} // verus!
