//! Small sequence lemmas shared by the layout, focus and workspace modules,
//! mostly about filtering a duplicate-free sequence of handles.

use vstd::prelude::*;
use crate::focus::{ne, without};

verus! {

/// Filtering drops nothing when every element satisfies the predicate.
pub proof fn lemma_filter_all<A>(s: Seq<A>, pred: spec_fn(A) -> bool)
    requires
        forall|i: int| 0 <= i < s.len() ==> pred(#[trigger] s[i]),
    ensures
        s.filter(pred) == s,
    decreases s.len(),
{
    reveal(Seq::filter);
    if s.len() > 0 {
        lemma_filter_all(s.drop_last(), pred);
        assert(s.drop_last().push(s.last()) =~= s);
    }
}

/// Filtering a duplicate-free sequence keeps it duplicate-free.
pub proof fn lemma_filter_no_dup<A>(s: Seq<A>, pred: spec_fn(A) -> bool)
    requires
        s.no_duplicates(),
    ensures
        s.filter(pred).no_duplicates(),
    decreases s.len(),
{
    reveal(Seq::filter);
    if s.len() > 0 {
        let d = s.drop_last();
        lemma_filter_no_dup(d, pred);
        if pred(s.last()) {
            if d.filter(pred).contains(s.last()) {
                let i = choose|i: int| 0 <= i < d.filter(pred).len() && d.filter(pred)[i]
                    == s.last();
                d.lemma_filter_contains_rev(pred, s.last());
                let k = choose|k: int| 0 <= k < d.len() && d[k] == s.last();
                assert(s[k] == s.last());
                assert(false);
            }
        }
    }
}

/// On a duplicate-free sequence, removing the index holding `w` is the same
/// as filtering `w` out.
pub proof fn lemma_nodup_remove_is_filter(s: Seq<u64>, j: int, w: u64)
    requires
        s.no_duplicates(),
        0 <= j < s.len(),
        s[j] == w,
    ensures
        s.remove(j) == without(s, w),
    decreases s.len(),
{
    reveal(Seq::filter);
    let pred = ne(w);
    if j == s.len() - 1 {
        assert forall|i: int| 0 <= i < s.drop_last().len() implies pred(
            #[trigger] s.drop_last()[i],
        ) by {
            assert(s[i] == s.drop_last()[i]);
        }
        lemma_filter_all(s.drop_last(), pred);
        assert(s.remove(j) =~= s.drop_last());
    } else {
        assert(s.drop_last().no_duplicates()) by {
            assert forall|a: int, b: int|
                0 <= a < b < s.drop_last().len() implies s.drop_last()[a] != s.drop_last()[b] by {
                assert(s.drop_last()[a] == s[a] && s.drop_last()[b] == s[b]);
            }
        }
        lemma_nodup_remove_is_filter(s.drop_last(), j, w);
        assert(s.drop_last()[j] == s[j]);
        assert(pred(s.last()));
        assert(s.filter(pred) == s.drop_last().filter(pred).push(s.last()));
        assert(s.remove(j) =~= s.drop_last().remove(j).push(s.last()));
    }
}

/// `s` with every element whose key is listed in `dead` dropped, order kept.
pub open spec fn retain_live<A>(s: Seq<A>, key: spec_fn(A) -> u64, dead: Seq<u64>) -> Seq<A>
    decreases s.len(),
{
    if s.len() == 0 {
        Seq::<A>::empty()
    } else {
        let r = retain_live(s.drop_last(), key, dead);
        if dead.contains(key(s.last())) {
            r
        } else {
            r.push(s.last())
        }
    }
}

/// Dropping dead keys keeps the live ones, drops the dead ones, and keeps a
/// duplicate-free key sequence duplicate-free.
pub proof fn lemma_retain_live<A>(s: Seq<A>, key: spec_fn(A) -> u64, dead: Seq<u64>)
    ensures
        s.map_values(key).no_duplicates() ==> retain_live(
            s,
            key,
            dead,
        ).map_values(key).no_duplicates(),
        forall|x: u64|
            #[trigger] retain_live(s, key, dead).map_values(key).contains(x) == (s.map_values(
                key,
            ).contains(x) && !dead.contains(x)),
    decreases s.len(),
{
    let r = retain_live(s, key, dead);
    if s.len() == 0 {
        assert(r.map_values(key) =~= Seq::<u64>::empty());
    } else {
        let d = s.drop_last();
        lemma_retain_live(d, key, dead);
        let rd = retain_live(d, key, dead);
        assert(s.map_values(key) =~= d.map_values(key).push(key(s.last())));
        assert forall|x: u64| d.map_values(key).contains(x) implies s.map_values(key).contains(
            x,
        ) by {
            let i = choose|i: int| 0 <= i < d.map_values(key).len() && d.map_values(key)[i] == x;
            assert(s.map_values(key)[i] == x);
        }
        if s.map_values(key).no_duplicates() {
            assert(d.map_values(key).no_duplicates()) by {
                assert forall|a: int, b: int|
                    0 <= a < b < d.map_values(key).len() implies d.map_values(key)[a]
                    != d.map_values(key)[b] by {
                    assert(s.map_values(key)[a] == d.map_values(key)[a]);
                    assert(s.map_values(key)[b] == d.map_values(key)[b]);
                }
            }
        }
        if dead.contains(key(s.last())) {
            assert(r == rd);
            assert forall|x: u64| #[trigger] r.map_values(key).contains(x) implies (s.map_values(
                key,
            ).contains(x) && !dead.contains(x)) by {}
            assert forall|x: u64| s.map_values(key).contains(x) && !dead.contains(
                x,
            ) implies #[trigger] r.map_values(key).contains(x) by {
                let i = choose|i: int|
                    0 <= i < s.map_values(key).len() && s.map_values(key)[i] == x;
                if i < s.len() - 1 {
                    assert(d.map_values(key)[i] == x);
                }
            }
        } else {
            assert(r.map_values(key) =~= rd.map_values(key).push(key(s.last())));
            assert forall|x: u64| #[trigger] r.map_values(key).contains(x) implies (s.map_values(
                key,
            ).contains(x) && !dead.contains(x)) by {
                let i = choose|i: int|
                    0 <= i < r.map_values(key).len() && r.map_values(key)[i] == x;
                if i < rd.map_values(key).len() {
                    assert(rd.map_values(key).contains(x));
                } else {
                    assert(x == key(s.last()));
                    assert(s.map_values(key)[s.len() - 1] == x);
                }
            }
            assert forall|x: u64| s.map_values(key).contains(x) && !dead.contains(
                x,
            ) implies #[trigger] r.map_values(key).contains(x) by {
                let i = choose|i: int|
                    0 <= i < s.map_values(key).len() && s.map_values(key)[i] == x;
                if i < s.len() - 1 {
                    assert(d.map_values(key)[i] == x);
                    assert(rd.map_values(key).contains(x));
                    let k = choose|k: int|
                        0 <= k < rd.map_values(key).len() && rd.map_values(key)[k] == x;
                    assert(r.map_values(key)[k] == x);
                } else {
                    assert(r.map_values(key).last() == x);
                }
            }
            if s.map_values(key).no_duplicates() {
                assert(!rd.map_values(key).contains(key(s.last()))) by {
                    if rd.map_values(key).contains(key(s.last())) {
                        assert(d.map_values(key).contains(key(s.last())));
                        let i = choose|i: int|
                            0 <= i < d.map_values(key).len() && d.map_values(key)[i] == key(
                                s.last(),
                            );
                        assert(s.map_values(key)[i] == s.map_values(key)[s.len() - 1]);
                    }
                }
            }
        }
    }
}

/// Dropping dead keys never invents values under any projection `g`, and
/// keeps a duplicate-free projection duplicate-free; every kept element comes
/// from the original sequence.
pub proof fn lemma_retain_live_other<A>(
    s: Seq<A>,
    key: spec_fn(A) -> u64,
    g: spec_fn(A) -> u64,
    dead: Seq<u64>,
)
    ensures
        forall|i: int|
            0 <= i < retain_live(s, key, dead).len() ==> s.contains(
                #[trigger] retain_live(s, key, dead)[i],
            ),
        forall|y: u64|
            #[trigger] retain_live(s, key, dead).map_values(g).contains(y) ==> s.map_values(
                g,
            ).contains(y),
        s.map_values(g).no_duplicates() ==> retain_live(s, key, dead).map_values(
            g,
        ).no_duplicates(),
    decreases s.len(),
{
    let r = retain_live(s, key, dead);
    if s.len() == 0 {
        assert(r.map_values(g) =~= Seq::<u64>::empty());
    } else {
        let d = s.drop_last();
        lemma_retain_live_other(d, key, g, dead);
        let rd = retain_live(d, key, dead);
        assert forall|i: int| 0 <= i < d.len() implies s.contains(#[trigger] d[i]) by {
            assert(s[i] == d[i]);
        }
        assert(s.map_values(g) =~= d.map_values(g).push(g(s.last())));
        assert forall|y: u64| d.map_values(g).contains(y) implies s.map_values(g).contains(y) by {
            let i = choose|i: int| 0 <= i < d.map_values(g).len() && d.map_values(g)[i] == y;
            assert(s.map_values(g)[i] == y);
        }
        if s.map_values(g).no_duplicates() {
            assert(d.map_values(g).no_duplicates()) by {
                assert forall|a: int, b: int|
                    0 <= a < b < d.map_values(g).len() implies d.map_values(g)[a] != d.map_values(
                    g,
                )[b] by {
                    assert(s.map_values(g)[a] == d.map_values(g)[a]);
                    assert(s.map_values(g)[b] == d.map_values(g)[b]);
                }
            }
        }
        if dead.contains(key(s.last())) {
            assert(r == rd);
            assert forall|i: int| 0 <= i < r.len() implies s.contains(#[trigger] r[i]) by {
                assert(d.contains(rd[i]));
            }
        } else {
            assert(r == rd.push(s.last()));
            assert(r.map_values(g) =~= rd.map_values(g).push(g(s.last())));
            assert forall|i: int| 0 <= i < r.len() implies s.contains(#[trigger] r[i]) by {
                if i < rd.len() {
                    assert(d.contains(rd[i]));
                    let k = choose|k: int| 0 <= k < d.len() && d[k] == rd[i];
                    assert(s[k] == rd[i]);
                } else {
                    assert(r[i] == s.last());
                    assert(s[s.len() - 1] == s.last());
                }
            }
            assert forall|y: u64| #[trigger] r.map_values(g).contains(y) implies s.map_values(
                g,
            ).contains(y) by {
                let i = choose|i: int| 0 <= i < r.map_values(g).len() && r.map_values(g)[i] == y;
                if i < rd.map_values(g).len() {
                    assert(rd.map_values(g).contains(y));
                } else {
                    assert(y == g(s.last()));
                    assert(s.map_values(g)[s.len() - 1] == y);
                }
            }
            if s.map_values(g).no_duplicates() {
                assert(!rd.map_values(g).contains(g(s.last()))) by {
                    if rd.map_values(g).contains(g(s.last())) {
                        assert(d.map_values(g).contains(g(s.last())));
                        let i = choose|i: int|
                            0 <= i < d.map_values(g).len() && d.map_values(g)[i] == g(s.last());
                        assert(s.map_values(g)[i] == s.map_values(g)[s.len() - 1]);
                    }
                }
            }
        }
    }
}

/// Whether `ids` holds `x`, by linear scan.
pub fn contains_id(ids: &Vec<u64>, x: u64) -> (r: bool)
    ensures
        r == ids@.contains(x),
{
    let mut k: usize = 0;
    while k < ids.len()
        invariant
            k <= ids@.len(),
            forall|i: int| 0 <= i < k ==> (#[trigger] ids@[i]) != x,
        decreases ids@.len() - k,
    {
        if ids[k] == x {
            return true;
        }
        k += 1;
    }
    false
}

/// After filtering `w` out, `w` is gone.
pub proof fn lemma_without_absent(s: Seq<u64>, w: u64)
    ensures
        !without(s, w).contains(w),
{
    let pred = ne(w);
    if without(s, w).contains(w) {
        let i = choose|i: int| 0 <= i < s.filter(pred).len() && s.filter(pred)[i] == w;
        s.lemma_filter_pred(pred, i);
    }
}

/// Filtering `w` out keeps every other element.
pub proof fn lemma_without_keeps(s: Seq<u64>, w: u64, x: u64)
    requires
        x != w,
    ensures
        without(s, w).contains(x) == s.contains(x),
{
    let pred = ne(w);
    if s.contains(x) {
        let i = choose|i: int| 0 <= i < s.len() && s[i] == x;
        s.lemma_filter_contains(pred, i);
    }
    if without(s, w).contains(x) {
        s.lemma_filter_contains_rev(pred, x);
    }
}

} // verus!
