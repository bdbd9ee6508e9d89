//! Merging two ranked sequences, and the laws of repeated merges that follow from it.

use vstd::prelude::*;
use vstd::multiset::Multiset;

use crate::order_book::{
    insert_all, insert_position, insert_ranked, lemma_insert_all_members, lemma_insert_all_sorted,
    lemma_insert_all_multiset, lemma_without_exchange, merged, sorted, top, without_exchange,
    key_above, Ranked, TOP_K,
};
use vstd::relations::{sorted_by, total_ordering};
use vstd::seq_lib::lemma_sorted_unique;

verus! {

/// The stable merge of two ranked sequences: a level of `b` goes before the levels of
/// `a` that it ranks above, and after those that rank equal to it or above it.
pub open spec fn merge_ranked<T: Ranked>(a: Seq<T>, b: Seq<T>) -> Seq<T>
    decreases a.len() + b.len(),
{
    if a.len() == 0 {
        b
    } else if b.len() == 0 {
        a
    } else if b[0].ranks_above(a[0]) {
        seq![b[0]] + merge_ranked(a, b.drop_first())
    } else {
        seq![a[0]] + merge_ranked(a.drop_first(), b)
    }
}

/// How many of the first `k` levels of `merge_ranked(a, b)` come from `a`.
pub open spec fn taken_from_first<T: Ranked>(a: Seq<T>, b: Seq<T>, k: nat) -> nat
    decreases k,
{
    if k == 0 || a.len() == 0 {
        0
    } else if b.len() > 0 && b[0].ranks_above(a[0]) {
        taken_from_first(a, b.drop_first(), (k - 1) as nat)
    } else {
        1 + taken_from_first(a.drop_first(), b, (k - 1) as nat)
    }
}

pub proof fn lemma_merge_len<T: Ranked>(a: Seq<T>, b: Seq<T>)
    ensures
        merge_ranked(a, b).len() == a.len() + b.len(),
    decreases a.len() + b.len(),
{
    if a.len() > 0 && b.len() > 0 {
        if b[0].ranks_above(a[0]) {
            lemma_merge_len(a, b.drop_first());
        } else {
            lemma_merge_len(a.drop_first(), b);
        }
    }
}

proof fn lemma_insert_position_shift<T: Ranked>(s: Seq<T>, x: T, from: int)
    requires
        1 <= from,
        s.len() > 0,
    ensures
        insert_position(s, x, from) == insert_position(s.drop_first(), x, from - 1) + 1,
    decreases s.len() - from,
{
    if from < s.len() && !x.ranks_above(s[from]) {
        lemma_insert_position_shift(s, x, from + 1);
    }
}

/// `insert_ranked` looks at the first level and goes on with the rest.
pub proof fn lemma_insert_ranked_cons<T: Ranked>(s: Seq<T>, x: T)
    ensures
        s.len() == 0 ==> insert_ranked(s, x) == seq![x],
        s.len() > 0 && x.ranks_above(s[0]) ==> insert_ranked(s, x) == seq![x] + s,
        s.len() > 0 && !x.ranks_above(s[0]) ==> insert_ranked(s, x) == seq![s[0]] + insert_ranked(
            s.drop_first(),
            x,
        ),
{
    if s.len() == 0 {
        assert(insert_ranked(s, x) =~= seq![x]);
    } else if x.ranks_above(s[0]) {
        assert(insert_ranked(s, x) =~= seq![x] + s);
    } else {
        lemma_insert_position_shift(s, x, 1);
        let p = insert_position(s.drop_first(), x, 0);
        assert(insert_position(s, x, 0) == insert_position(s, x, 1));
        crate::order_book::lemma_insert_position_bounds(s.drop_first(), x);
        assert(insert_ranked(s, x) =~= seq![s[0]] + insert_ranked(s.drop_first(), x));
    }
}

/// Inserting into a merge is merging with an insertion into the second sequence.
pub proof fn lemma_insert_into_merge<T: Ranked>(a: Seq<T>, b: Seq<T>, x: T)
    ensures
        insert_ranked(merge_ranked(a, b), x) == merge_ranked(a, insert_ranked(b, x)),
    decreases a.len() + b.len(),
{
    lemma_insert_ranked_cons(b, x);
    if a.len() == 0 {
    } else if b.len() == 0 {
        lemma_insert_ranked_cons(a, x);
        assert(seq![x].drop_first() =~= Seq::<T>::empty());
        if x.ranks_above(a[0]) {
            assert(merge_ranked(a, seq![x].drop_first()) == a);
            assert(seq![x][0] == x);
            assert(merge_ranked(a, seq![x]) == seq![x] + merge_ranked(a, seq![x].drop_first()));
        } else {
            lemma_insert_into_merge(a.drop_first(), b, x);
            assert(merge_ranked(a, seq![x]) == seq![a[0]] + merge_ranked(a.drop_first(), seq![x]));
        }
    } else {
        let m = merge_ranked(a, b);
        T::lemma_strict_order(x, a[0], b[0]);
        T::lemma_strict_order(x, b[0], a[0]);
        T::lemma_strict_order(b[0], a[0], x);
        lemma_insert_ranked_cons(m, x);
        if b[0].ranks_above(a[0]) {
            assert(m == seq![b[0]] + merge_ranked(a, b.drop_first()));
            assert(m[0] == b[0]);
            assert(m.drop_first() =~= merge_ranked(a, b.drop_first()));
            if x.ranks_above(b[0]) {
                assert((seq![x] + b).drop_first() =~= b);
                assert(merge_ranked(a, seq![x] + b) == seq![x] + merge_ranked(a, b));
            } else {
                lemma_insert_into_merge(a, b.drop_first(), x);
                let ib = insert_ranked(b.drop_first(), x);
                assert((seq![b[0]] + ib).drop_first() =~= ib);
                assert(merge_ranked(a, seq![b[0]] + ib) == seq![b[0]] + merge_ranked(a, ib));
            }
        } else {
            assert(m == seq![a[0]] + merge_ranked(a.drop_first(), b));
            assert(m[0] == a[0]);
            assert(m.drop_first() =~= merge_ranked(a.drop_first(), b));
            if x.ranks_above(a[0]) {
                if x.ranks_above(b[0]) {
                    assert((seq![x] + b).drop_first() =~= b);
                    assert(merge_ranked(a, seq![x] + b) == seq![x] + merge_ranked(a, b));
                } else {
                    assert(false);
                }
            } else {
                lemma_insert_into_merge(a.drop_first(), b, x);
                let ib = insert_ranked(b, x);
                assert(ib.len() > 0);
                assert(ib[0] == b[0] || ib[0] == x);
                assert(merge_ranked(a, ib) == seq![a[0]] + merge_ranked(a.drop_first(), ib));
            }
        }
    }
}

/// Placing the levels of `xs` one after the other into `s` merges `s` with the
/// levels of `xs` placed into an empty side.
pub proof fn lemma_insert_all_is_merge<T: Ranked>(s: Seq<T>, xs: Seq<T>)
    ensures
        insert_all(s, xs) == merge_ranked(s, insert_all(Seq::<T>::empty(), xs)),
    decreases xs.len(),
{
    if xs.len() == 0 {
        assert(merge_ranked(s, Seq::<T>::empty()) == s);
    } else {
        lemma_insert_all_is_merge(s, xs.drop_last());
        lemma_insert_into_merge(s, insert_all(Seq::<T>::empty(), xs.drop_last()), xs.last());
    }
}

pub proof fn lemma_taken_bounds<T: Ranked>(a: Seq<T>, b: Seq<T>, k: nat)
    requires
        k <= a.len() + b.len(),
    ensures
        taken_from_first(a, b, k) <= a.len(),
        taken_from_first(a, b, k) <= k,
        k <= taken_from_first(a, b, k) + b.len(),
    decreases k,
{
    if k > 0 && a.len() > 0 {
        if b.len() > 0 && b[0].ranks_above(a[0]) {
            lemma_taken_bounds(a, b.drop_first(), (k - 1) as nat);
        } else {
            lemma_taken_bounds(a.drop_first(), b, (k - 1) as nat);
        }
    }
}

/// The first `k` levels of a merge are those of the merge with `a` cut to any length
/// that keeps the levels of `a` among them.
pub proof fn lemma_merge_prefix<T: Ranked>(a: Seq<T>, b: Seq<T>, k: nat, j: int)
    requires
        k <= a.len() + b.len(),
        taken_from_first(a, b, k) <= j <= a.len(),
    ensures
        merge_ranked(a.take(j), b).len() >= k,
        merge_ranked(a.take(j), b).take(k as int) == merge_ranked(a, b).take(k as int),
    decreases k,
{
    lemma_taken_bounds(a, b, k);
    lemma_merge_len(a.take(j), b);
    lemma_merge_len(a, b);
    if k == 0 {
        assert(merge_ranked(a.take(j), b).take(0) =~= merge_ranked(a, b).take(0));
    } else if a.len() == 0 {
        assert(a.take(j) =~= a);
    } else if b.len() > 0 && b[0].ranks_above(a[0]) {
        let b1 = b.drop_first();
        lemma_merge_prefix(a, b1, (k - 1) as nat, j);
        assert(merge_ranked(a, b) == seq![b[0]] + merge_ranked(a, b1));
        assert(merge_ranked(a, b).take(k as int) =~= seq![b[0]] + merge_ranked(a, b1).take(k - 1));
        if j == 0 {
            assert(a.take(0) =~= Seq::<T>::empty());
            assert(merge_ranked(a.take(0), b) == b);
            assert(merge_ranked(a.take(0), b1) == b1);
            assert(b.take(k as int) =~= seq![b[0]] + b1.take(k - 1));
        } else {
            assert(a.take(j)[0] == a[0]);
            assert(merge_ranked(a.take(j), b) == seq![b[0]] + merge_ranked(a.take(j), b1));
            assert(merge_ranked(a.take(j), b).take(k as int) =~= seq![b[0]] + merge_ranked(
                a.take(j),
                b1,
            ).take(k - 1));
        }
    } else {
        let a1 = a.drop_first();
        lemma_merge_prefix(a1, b, (k - 1) as nat, j - 1);
        assert(a.take(j).drop_first() =~= a1.take(j - 1));
        assert(a.take(j)[0] == a[0]);
        assert(merge_ranked(a, b) == seq![a[0]] + merge_ranked(a1, b));
        if b.len() == 0 {
            assert(merge_ranked(a1.take(j - 1), b) == a1.take(j - 1));
            assert(merge_ranked(a.take(j), b) == a.take(j));
            assert(a.take(j) =~= seq![a[0]] + a1.take(j - 1));
            assert(merge_ranked(a1, b) == a1);
        } else {
            assert(merge_ranked(a.take(j), b) == seq![a[0]] + merge_ranked(a1.take(j - 1), b));
        }
        assert(merge_ranked(a.take(j), b) == seq![a[0]] + merge_ranked(a1.take(j - 1), b));
        assert(merge_ranked(a.take(j), b).take(k as int) =~= seq![a[0]] + merge_ranked(
            a1.take(j - 1),
            b,
        ).take(k - 1));
        assert(merge_ranked(a, b).take(k as int) =~= seq![a[0]] + merge_ranked(a1, b).take(k - 1));
    }
}

/// Every level of `s` belongs to the exchange `name`.
pub open spec fn all_of_exchange<T: Ranked>(s: Seq<T>, name: Seq<char>) -> bool {
    forall|i: int| 0 <= i < s.len() ==> (#[trigger] s[i]).level().exchange_name@ == name
}

/// No level of `s` belongs to the exchange `name`.
pub open spec fn none_of_exchange<T: Ranked>(s: Seq<T>, name: Seq<char>) -> bool {
    forall|i: int| 0 <= i < s.len() ==> (#[trigger] s[i]).level().exchange_name@ != name
}

pub proof fn lemma_without_cons<T: Ranked>(h: T, s: Seq<T>, name: Seq<char>)
    ensures
        without_exchange(seq![h] + s, name) == if h.level().exchange_name@ == name {
            without_exchange(s, name)
        } else {
            seq![h] + without_exchange(s, name)
        },
    decreases s.len(),
{
    let t = seq![h] + s;
    if s.len() == 0 {
        assert(t =~= seq![h]);
        assert(t.drop_last() =~= Seq::<T>::empty());
        assert(without_exchange(Seq::<T>::empty(), name) == Seq::<T>::empty());
        assert(without_exchange(t, name) =~= if h.level().exchange_name@ == name {
            without_exchange(s, name)
        } else {
            seq![h] + without_exchange(s, name)
        });
    } else {
        lemma_without_cons(h, s.drop_last(), name);
        assert(t.drop_last() =~= seq![h] + s.drop_last());
        assert(t.last() == s.last());
        assert(without_exchange(t, name) =~= if h.level().exchange_name@ == name {
            without_exchange(s, name)
        } else {
            seq![h] + without_exchange(s, name)
        });
    }
}

pub proof fn lemma_without_all_of<T: Ranked>(s: Seq<T>, name: Seq<char>)
    requires
        all_of_exchange(s, name),
    ensures
        without_exchange(s, name) == Seq::<T>::empty(),
    decreases s.len(),
{
    if s.len() > 0 {
        assert(s[s.len() - 1] == s.last());
        lemma_without_all_of(s.drop_last(), name);
    }
}

pub proof fn lemma_without_none_of<T: Ranked>(s: Seq<T>, name: Seq<char>)
    requires
        none_of_exchange(s, name),
    ensures
        without_exchange(s, name) == s,
    decreases s.len(),
{
    if s.len() > 0 {
        assert(s[s.len() - 1] == s.last());
        lemma_without_none_of(s.drop_last(), name);
        assert(s.drop_last().push(s.last()) =~= s);
    }
}

/// The levels of the first `k` of a merge that are not of the exchange `name` are the
/// first levels of `a`, when the levels of `a` are not of it and those of `b` are.
pub proof fn lemma_merge_prefix_without<T: Ranked>(a: Seq<T>, b: Seq<T>, name: Seq<char>, k: nat)
    requires
        k <= a.len() + b.len(),
        none_of_exchange(a, name),
        all_of_exchange(b, name),
    ensures
        without_exchange(merge_ranked(a, b).take(k as int), name) == a.take(
            taken_from_first(a, b, k) as int,
        ),
    decreases k,
{
    lemma_taken_bounds(a, b, k);
    lemma_merge_len(a, b);
    let m = merge_ranked(a, b);
    if k == 0 {
        assert(m.take(0) =~= Seq::<T>::empty());
        assert(a.take(0) =~= Seq::<T>::empty());
    } else if a.len() == 0 {
        assert(all_of_exchange(m.take(k as int), name));
        lemma_without_all_of(m.take(k as int), name);
        assert(a.take(0) =~= Seq::<T>::empty());
    } else if b.len() > 0 && b[0].ranks_above(a[0]) {
        let b1 = b.drop_first();
        assert(all_of_exchange(b1, name)) by {
            assert forall|i: int| 0 <= i < b1.len() implies (#[trigger] b1[i]).level().exchange_name@ == name by {
                assert(b1[i] == b[i + 1]);
            }
        }
        lemma_merge_prefix_without(a, b1, name, (k - 1) as nat);
        assert(m.take(k as int) =~= seq![b[0]] + merge_ranked(a, b1).take(k - 1));
        lemma_without_cons(b[0], merge_ranked(a, b1).take(k - 1), name);
    } else {
        let a1 = a.drop_first();
        assert(none_of_exchange(a1, name)) by {
            assert forall|i: int| 0 <= i < a1.len() implies (#[trigger] a1[i]).level().exchange_name@ != name by {
                assert(a1[i] == a[i + 1]);
            }
        }
        lemma_merge_prefix_without(a1, b, name, (k - 1) as nat);
        lemma_merge_len(a1, b);
        if b.len() == 0 {
            assert(m == a);
            assert(m.take(k as int) =~= seq![a[0]] + a1.take(k - 1));
            assert(merge_ranked(a1, b) == a1);
        } else {
            assert(m.take(k as int) =~= seq![a[0]] + merge_ranked(a1, b).take(k - 1));
        }
        lemma_without_cons(a[0], merge_ranked(a1, b).take(k - 1), name);
        assert(a.take(taken_from_first(a, b, k) as int) =~= seq![a[0]] + a1.take(
            taken_from_first(a1, b, (k - 1) as nat) as int,
        ));
    }
}

/// The side `merged(side, name, fresh)` as a merge: the levels of the other exchanges,
/// merged with the fresh levels placed into an empty side, capped.
pub proof fn lemma_merged_as_merge<T: Ranked>(side: Seq<T>, name: Seq<char>, fresh: Seq<T>)
    requires
        all_of_exchange(fresh, name),
    ensures
        none_of_exchange(without_exchange(side, name), name),
        all_of_exchange(insert_all(Seq::<T>::empty(), fresh), name),
        insert_all(Seq::<T>::empty(), fresh).len() == fresh.len(),
        insert_all(without_exchange(side, name), fresh) == merge_ranked(
            without_exchange(side, name),
            insert_all(Seq::<T>::empty(), fresh),
        ),
        merged(side, name, fresh) == top(
            merge_ranked(without_exchange(side, name), insert_all(Seq::<T>::empty(), fresh)),
            TOP_K as nat,
        ),
{
    let w = without_exchange(side, name);
    let g = insert_all(Seq::<T>::empty(), fresh);
    lemma_without_exchange(side, name);
    assert(none_of_exchange(w, name)) by {
        assert forall|i: int| 0 <= i < w.len() implies (#[trigger] w[i]).level().exchange_name@ != name by {
            assert(without_exchange(side, name)[i].level().exchange_name@ != name);
        }
    }
    lemma_insert_all_members(Seq::<T>::empty(), fresh);
    lemma_insert_all_sorted(Seq::<T>::empty(), fresh);
    assert(all_of_exchange(g, name)) by {
        assert forall|i: int| 0 <= i < g.len() implies (#[trigger] g[i]).level().exchange_name@ == name by {
            assert(Seq::<T>::empty().contains(g[i]) || fresh.contains(g[i]));
            let k = choose|k: int| 0 <= k < fresh.len() && fresh[k] == g[i];
            assert(fresh[k].level().exchange_name@ == name);
        }
    }
    lemma_insert_all_is_merge(w, fresh);
}

/// Merging a snapshot a second time changes nothing: its levels replace themselves.
pub proof fn law_merge_twice_is_merge_once<T: Ranked>(side: Seq<T>, name: Seq<char>, fresh: Seq<T>)
    requires
        all_of_exchange(fresh, name),
    ensures
        merged(merged(side, name, fresh), name, fresh) == merged(side, name, fresh),
{
    let w = without_exchange(side, name);
    let g = insert_all(Seq::<T>::empty(), fresh);
    lemma_merged_as_merge(side, name, fresh);
    let r = merge_ranked(w, g);
    lemma_merge_len(w, g);
    let m = top(r, TOP_K as nat);
    if r.len() <= TOP_K {
        lemma_merge_prefix_without(w, g, name, r.len());
        lemma_taken_bounds(w, g, r.len());
        assert(r.take(r.len() as int) =~= r);
        assert(w.take(w.len() as int) =~= w);
        assert(without_exchange(m, name) == w);
    } else {
        let k = TOP_K as nat;
        let c = taken_from_first(w, g, k);
        lemma_merge_prefix_without(w, g, name, k);
        lemma_taken_bounds(w, g, k);
        assert(without_exchange(m, name) == w.take(c as int));
        lemma_merged_as_merge(m, name, fresh);
        lemma_merge_prefix(w, g, k, c as int);
        let r2 = merge_ranked(w.take(c as int), g);
        if r2.len() == TOP_K {
            assert(r2 =~= r2.take(TOP_K as int));
        }
        assert(top(r2, TOP_K as nat) == m);
    }
}

/// The rank keys of the levels of `s`.
pub open spec fn rank_keys<T: Ranked>(s: Seq<T>) -> Seq<(int, int)> {
    s.map_values(|x: T| x.rank_key())
}

/// The order of keys, best first: `x` comes no later than `y`.
pub open spec fn key_no_later(x: (int, int), y: (int, int)) -> bool {
    !key_above(y, x)
}

proof fn lemma_key_order_total()
    ensures
        total_ordering(|x: (int, int), y: (int, int)| key_no_later(x, y)),
{
}

proof fn lemma_rank_keys_cons<T: Ranked>(h: T, s: Seq<T>)
    ensures
        rank_keys(seq![h] + s) == seq![h.rank_key()] + rank_keys(s),
{
    assert(rank_keys(seq![h] + s) =~= seq![h.rank_key()] + rank_keys(s));
}

proof fn lemma_cons_multiset<A>(h: A, s: Seq<A>)
    ensures
        (seq![h] + s).to_multiset() == s.to_multiset().insert(h),
{
    broadcast use vstd::seq_lib::group_to_multiset_ensures, vstd::multiset::group_multiset_axioms;

    vstd::seq_lib::lemma_multiset_commutative(seq![h], s);
    assert(seq![h] =~= Seq::<A>::empty().push(h));
    assert(Seq::<A>::empty().to_multiset().len() == 0);
    vstd::multiset::lemma_multiset_empty_len(Seq::<A>::empty().to_multiset());
    assert(seq![h].to_multiset() =~= Multiset::<A>::empty().insert(h));
    assert((seq![h] + s).to_multiset() =~= s.to_multiset().insert(h));
}

/// The keys of a merge are the keys of both sequences.
proof fn lemma_merge_key_multiset<T: Ranked>(a: Seq<T>, b: Seq<T>)
    ensures
        rank_keys(merge_ranked(a, b)).to_multiset() == rank_keys(a).to_multiset().add(
            rank_keys(b).to_multiset(),
        ),
    decreases a.len() + b.len(),
{
    broadcast use vstd::seq_lib::group_to_multiset_ensures, vstd::multiset::group_multiset_axioms;

    if a.len() == 0 {
        assert(rank_keys(a) =~= Seq::<(int, int)>::empty());
        vstd::multiset::lemma_multiset_empty_len(rank_keys(a).to_multiset());
        assert(rank_keys(merge_ranked(a, b)).to_multiset() =~= rank_keys(a).to_multiset().add(
            rank_keys(b).to_multiset(),
        ));
    } else if b.len() == 0 {
        assert(rank_keys(b) =~= Seq::<(int, int)>::empty());
        vstd::multiset::lemma_multiset_empty_len(rank_keys(b).to_multiset());
        assert(rank_keys(merge_ranked(a, b)).to_multiset() =~= rank_keys(a).to_multiset().add(
            rank_keys(b).to_multiset(),
        ));
    } else if b[0].ranks_above(a[0]) {
        let b1 = b.drop_first();
        lemma_merge_key_multiset(a, b1);
        assert(b =~= seq![b[0]] + b1);
        lemma_rank_keys_cons(b[0], merge_ranked(a, b1));
        lemma_rank_keys_cons(b[0], b1);
        lemma_cons_multiset(b[0].rank_key(), rank_keys(merge_ranked(a, b1)));
        lemma_cons_multiset(b[0].rank_key(), rank_keys(b1));
        assert(rank_keys(merge_ranked(a, b)).to_multiset() =~= rank_keys(a).to_multiset().add(
            rank_keys(b).to_multiset(),
        ));
    } else {
        let a1 = a.drop_first();
        lemma_merge_key_multiset(a1, b);
        assert(a =~= seq![a[0]] + a1);
        lemma_rank_keys_cons(a[0], merge_ranked(a1, b));
        lemma_rank_keys_cons(a[0], a1);
        lemma_cons_multiset(a[0].rank_key(), rank_keys(merge_ranked(a1, b)));
        lemma_cons_multiset(a[0].rank_key(), rank_keys(a1));
        assert(rank_keys(merge_ranked(a, b)).to_multiset() =~= rank_keys(a).to_multiset().add(
            rank_keys(b).to_multiset(),
        ));
    }
}

proof fn lemma_sorted_keys<T: Ranked>(s: Seq<T>)
    requires
        sorted(s),
    ensures
        sorted_by(rank_keys(s), |x: (int, int), y: (int, int)| key_no_later(x, y)),
{
    assert forall|i: int, j: int| 0 <= i < j < rank_keys(s).len() implies key_no_later(
        #[trigger] rank_keys(s)[i],
        #[trigger] rank_keys(s)[j],
    ) by {
        T::lemma_rank_key(s[j], s[i]);
    }
}

/// A side merged from the snapshots of two exchanges into an empty book, with the
/// capped side taken as the first `k` levels of one merge.
proof fn lemma_two_snapshots<T: Ranked>(a: Seq<char>, fa: Seq<T>, b: Seq<char>, fb: Seq<T>)
    requires
        a != b,
        all_of_exchange(fa, a),
        all_of_exchange(fb, b),
    ensures
        ({
            let ga = insert_all(Seq::<T>::empty(), fa);
            let gb = insert_all(Seq::<T>::empty(), fb);
            let k = if TOP_K <= ga.len() + gb.len() {
                TOP_K as int
            } else {
                (ga.len() + gb.len()) as int
            };
            &&& merged(merged(Seq::<T>::empty(), a, fa), b, fb) == merge_ranked(ga, gb).take(k)
            &&& merge_ranked(ga, gb).len() == ga.len() + gb.len()
            &&& sorted(merge_ranked(ga, gb))
            &&& sorted(ga)
            &&& sorted(gb)
        }),
{
    let e = Seq::<T>::empty();
    let ga = insert_all(e, fa);
    let gb = insert_all(e, fb);
    lemma_merged_as_merge(e, a, fa);
    assert(without_exchange(e, a) == e);
    assert(merge_ranked(e, ga) == ga);
    let m1 = top(ga, TOP_K as nat);
    assert(merged(e, a, fa) == m1);
    assert(none_of_exchange(m1, b)) by {
        assert forall|i: int| 0 <= i < m1.len() implies (#[trigger] m1[i]).level().exchange_name@ != b by {
            assert(m1[i] == ga[i]);
        }
    }
    lemma_without_none_of(m1, b);
    lemma_merged_as_merge(m1, b, fb);
    lemma_merge_len(ga, gb);
    lemma_merge_len(m1, gb);
    lemma_insert_all_sorted(e, fa);
    lemma_insert_all_sorted(e, fb);
    let k = if TOP_K <= ga.len() + gb.len() {
        TOP_K as int
    } else {
        (ga.len() + gb.len()) as int
    };
    let j = if TOP_K <= ga.len() {
        TOP_K as int
    } else {
        ga.len() as int
    };
    assert(m1 == ga.take(j)) by {
        if ga.len() <= TOP_K {
            assert(ga.take(j) =~= ga);
        }
    }
    lemma_taken_bounds(ga, gb, k as nat);
    lemma_merge_prefix(ga, gb, k as nat, j);
    let r = merge_ranked(m1, gb);
    if r.len() <= TOP_K {
        assert(r =~= r.take(k));
    }
    assert(merged(m1, b, fb) == r.take(k));
    lemma_insert_all_is_merge(ga, fb);
    lemma_insert_all_sorted(ga, fb);
}

/// Merging the snapshots of two exchanges into an empty book gives, in either order,
/// the same prices and quantities at each place of each side.
pub proof fn law_merge_order_of_exchanges<T: Ranked>(
    a: Seq<char>,
    fa: Seq<T>,
    b: Seq<char>,
    fb: Seq<T>,
)
    requires
        a != b,
        all_of_exchange(fa, a),
        all_of_exchange(fb, b),
    ensures
        ({
            let one = merged(merged(Seq::<T>::empty(), a, fa), b, fb);
            let other = merged(merged(Seq::<T>::empty(), b, fb), a, fa);
            &&& one.len() == other.len()
            &&& forall|i: int|
                0 <= i < one.len() ==> (#[trigger] one[i]).level().price@.value() == other[i].level().price@.value()
                    && one[i].level().qty@.value() == other[i].level().qty@.value()
        }),
{
    let e = Seq::<T>::empty();
    let ga = insert_all(e, fa);
    let gb = insert_all(e, fb);
    lemma_two_snapshots(a, fa, b, fb);
    lemma_two_snapshots(b, fb, a, fa);
    let one = merged(merged(e, a, fa), b, fb);
    let other = merged(merged(e, b, fb), a, fa);
    let x = merge_ranked(ga, gb);
    let y = merge_ranked(gb, ga);
    lemma_merge_key_multiset(ga, gb);
    lemma_merge_key_multiset(gb, ga);
    assert(rank_keys(x).to_multiset() =~= rank_keys(y).to_multiset()) by {
        broadcast use vstd::multiset::group_multiset_axioms;

    }
    lemma_sorted_keys(x);
    lemma_sorted_keys(y);
    lemma_key_order_total();
    lemma_sorted_unique(rank_keys(x), rank_keys(y), |p: (int, int), q: (int, int)| key_no_later(p, q));
    assert forall|i: int| 0 <= i < one.len() implies (#[trigger] one[i]).level().price@.value()
        == other[i].level().price@.value() && one[i].level().qty@.value()
        == other[i].level().qty@.value() by {
        assert(one[i] == x[i]);
        assert(other[i] == y[i]);
        assert(rank_keys(x)[i] == rank_keys(y)[i]);
        T::lemma_rank_key(x[i], y[i]);
    }
}

/// The levels of `s` that belong to the exchange `name`, in their order.
pub open spec fn only_exchange<T: Ranked>(s: Seq<T>, name: Seq<char>) -> Seq<T>
    decreases s.len(),
{
    if s.len() == 0 {
        s
    } else {
        let rest = only_exchange(s.drop_last(), name);
        if s.last().level().exchange_name@ == name {
            rest.push(s.last())
        } else {
            rest
        }
    }
}

pub proof fn lemma_only_cons<T: Ranked>(h: T, s: Seq<T>, name: Seq<char>)
    ensures
        only_exchange(seq![h] + s, name) == if h.level().exchange_name@ == name {
            seq![h] + only_exchange(s, name)
        } else {
            only_exchange(s, name)
        },
    decreases s.len(),
{
    let t = seq![h] + s;
    if s.len() == 0 {
        assert(t =~= seq![h]);
        assert(t.drop_last() =~= Seq::<T>::empty());
        assert(only_exchange(Seq::<T>::empty(), name) == Seq::<T>::empty());
        assert(only_exchange(t, name) =~= if h.level().exchange_name@ == name {
            seq![h] + only_exchange(s, name)
        } else {
            only_exchange(s, name)
        });
    } else {
        lemma_only_cons(h, s.drop_last(), name);
        assert(t.drop_last() =~= seq![h] + s.drop_last());
        assert(t.last() == s.last());
        assert(only_exchange(t, name) =~= if h.level().exchange_name@ == name {
            seq![h] + only_exchange(s, name)
        } else {
            only_exchange(s, name)
        });
    }
}

pub proof fn lemma_only_none_of<T: Ranked>(s: Seq<T>, name: Seq<char>)
    requires
        none_of_exchange(s, name),
    ensures
        only_exchange(s, name) == Seq::<T>::empty(),
    decreases s.len(),
{
    if s.len() > 0 {
        assert(s[s.len() - 1] == s.last());
        lemma_only_none_of(s.drop_last(), name);
    }
}

pub proof fn lemma_only_all_of<T: Ranked>(s: Seq<T>, name: Seq<char>)
    requires
        all_of_exchange(s, name),
    ensures
        only_exchange(s, name) == s,
    decreases s.len(),
{
    if s.len() > 0 {
        assert(s[s.len() - 1] == s.last());
        lemma_only_all_of(s.drop_last(), name);
        assert(s.drop_last().push(s.last()) =~= s);
    }
}

/// The levels of the first `k` of a merge that are of the exchange `name` are the
/// first levels of `b`, when the levels of `a` are not of it and those of `b` are.
pub proof fn lemma_merge_prefix_only<T: Ranked>(a: Seq<T>, b: Seq<T>, name: Seq<char>, k: nat)
    requires
        k <= a.len() + b.len(),
        none_of_exchange(a, name),
        all_of_exchange(b, name),
    ensures
        only_exchange(merge_ranked(a, b).take(k as int), name) == b.take(
            k - taken_from_first(a, b, k),
        ),
    decreases k,
{
    lemma_taken_bounds(a, b, k);
    lemma_merge_len(a, b);
    let m = merge_ranked(a, b);
    if k == 0 {
        assert(m.take(0) =~= Seq::<T>::empty());
        assert(b.take(0) =~= Seq::<T>::empty());
    } else if a.len() == 0 {
        assert(all_of_exchange(m.take(k as int), name));
        lemma_only_all_of(m.take(k as int), name);
    } else if b.len() > 0 && b[0].ranks_above(a[0]) {
        let b1 = b.drop_first();
        assert(all_of_exchange(b1, name)) by {
            assert forall|i: int| 0 <= i < b1.len() implies (#[trigger] b1[i]).level().exchange_name@ == name by {
                assert(b1[i] == b[i + 1]);
            }
        }
        lemma_merge_prefix_only(a, b1, name, (k - 1) as nat);
        assert(m.take(k as int) =~= seq![b[0]] + merge_ranked(a, b1).take(k - 1));
        lemma_only_cons(b[0], merge_ranked(a, b1).take(k - 1), name);
        lemma_taken_bounds(a, b1, (k - 1) as nat);
        assert(b.take(k - taken_from_first(a, b, k)) =~= seq![b[0]] + b1.take(
            (k - 1) - taken_from_first(a, b1, (k - 1) as nat),
        ));
    } else {
        let a1 = a.drop_first();
        assert(none_of_exchange(a1, name)) by {
            assert forall|i: int| 0 <= i < a1.len() implies (#[trigger] a1[i]).level().exchange_name@ != name by {
                assert(a1[i] == a[i + 1]);
            }
        }
        lemma_merge_prefix_only(a1, b, name, (k - 1) as nat);
        lemma_merge_len(a1, b);
        if b.len() == 0 {
            assert(m == a);
            assert(m.take(k as int) =~= seq![a[0]] + a1.take(k - 1));
            assert(merge_ranked(a1, b) == a1);
        } else {
            assert(m.take(k as int) =~= seq![a[0]] + merge_ranked(a1, b).take(k - 1));
        }
        lemma_only_cons(a[0], merge_ranked(a1, b).take(k - 1), name);
    }
}

/// Every level of a merge comes from one of the two sequences, and a level of the
/// exchange `name` (from `b`) stands before a level of another exchange (from the
/// ordered `a`) only where it ranks above it.
pub proof fn lemma_merge_fresh_above<T: Ranked>(a: Seq<T>, b: Seq<T>, name: Seq<char>)
    requires
        sorted(a),
        none_of_exchange(a, name),
        all_of_exchange(b, name),
    ensures
        forall|i: int|
            0 <= i < merge_ranked(a, b).len() ==> a.contains(#[trigger] merge_ranked(a, b)[i])
                || b.contains(merge_ranked(a, b)[i]),
        forall|i: int, j: int|
            0 <= i < j < merge_ranked(a, b).len() && (#[trigger] merge_ranked(a, b)[i]).level().exchange_name@
                == name && (#[trigger] merge_ranked(a, b)[j]).level().exchange_name@ != name
                ==> merge_ranked(a, b)[i].ranks_above(merge_ranked(a, b)[j]),
    decreases a.len() + b.len(),
{
    lemma_merge_len(a, b);
    let m = merge_ranked(a, b);
    if a.len() == 0 {
        assert forall|i: int| 0 <= i < m.len() implies a.contains(#[trigger] m[i]) || b.contains(m[i]) by {
            assert(b[i] == m[i]);
        }
    } else if b.len() == 0 {
        assert forall|i: int| 0 <= i < m.len() implies a.contains(#[trigger] m[i]) || b.contains(m[i]) by {
            assert(a[i] == m[i]);
        }
    } else if b[0].ranks_above(a[0]) {
        let b1 = b.drop_first();
        assert(all_of_exchange(b1, name)) by {
            assert forall|i: int| 0 <= i < b1.len() implies (#[trigger] b1[i]).level().exchange_name@ == name by {
                assert(b1[i] == b[i + 1]);
            }
        }
        lemma_merge_fresh_above(a, b1, name);
        let t = merge_ranked(a, b1);
        assert(m == seq![b[0]] + t);
        assert forall|i: int| 0 <= i < m.len() implies a.contains(#[trigger] m[i]) || b.contains(m[i]) by {
            if i == 0 {
                assert(b[0] == m[i]);
            } else {
                assert(m[i] == t[i - 1]);
                if b1.contains(t[i - 1]) {
                    let k = choose|k: int| 0 <= k < b1.len() && b1[k] == t[i - 1];
                    assert(b[k + 1] == m[i]);
                }
            }
        }
        assert forall|i: int, j: int|
            0 <= i < j < m.len() && (#[trigger] m[i]).level().exchange_name@ == name
                && (#[trigger] m[j]).level().exchange_name@ != name implies m[i].ranks_above(m[j]) by {
            assert(m[j] == t[j - 1]);
            if i == 0 {
                if b1.contains(t[j - 1]) {
                    let k = choose|k: int| 0 <= k < b1.len() && b1[k] == t[j - 1];
                    assert(b1[k].level().exchange_name@ == name);
                }
                let k = choose|k: int| 0 <= k < a.len() && a[k] == t[j - 1];
                if k > 0 {
                    assert(!a[k].ranks_above(a[0]));
                }
                T::lemma_strict_order(a[k], a[0], a[k]);
                T::lemma_strict_order(b[0], a[0], a[k]);
            } else {
                assert(m[i] == t[i - 1]);
            }
        }
    } else {
        let a1 = a.drop_first();
        assert(none_of_exchange(a1, name)) by {
            assert forall|i: int| 0 <= i < a1.len() implies (#[trigger] a1[i]).level().exchange_name@ != name by {
                assert(a1[i] == a[i + 1]);
            }
        }
        lemma_merge_fresh_above(a1, b, name);
        let t = merge_ranked(a1, b);
        assert(m == seq![a[0]] + t);
        assert forall|i: int| 0 <= i < m.len() implies a.contains(#[trigger] m[i]) || b.contains(m[i]) by {
            if i == 0 {
                assert(a[0] == m[i]);
            } else {
                assert(m[i] == t[i - 1]);
                if a1.contains(t[i - 1]) {
                    let k = choose|k: int| 0 <= k < a1.len() && a1[k] == t[i - 1];
                    assert(a[k + 1] == m[i]);
                }
            }
        }
        assert forall|i: int, j: int|
            0 <= i < j < m.len() && (#[trigger] m[i]).level().exchange_name@ == name
                && (#[trigger] m[j]).level().exchange_name@ != name implies m[i].ranks_above(m[j]) by {
            assert(m[j] == t[j - 1]);
            if i == 0 {
                assert(m[0] == a[0]);
            } else {
                assert(m[i] == t[i - 1]);
            }
        }
    }
}

/// What a merge of the snapshot levels `fresh` of the exchange `name` into the side
/// `old` gives, said directly: the side is in order and holds the `TOP_K` best of the
/// other exchanges' levels and the fresh ones, each level at most as often as it is
/// offered; the other exchanges' levels keep their order and only their worst leave;
/// a fresh level stands before another exchange's level only where it ranks above
/// it; and fresh levels that came in order keep that order.
pub open spec fn replaces_exchange<T: Ranked>(
    old: Seq<T>,
    name: Seq<char>,
    fresh: Seq<T>,
    new: Seq<T>,
) -> bool {
    let kept = without_exchange(old, name);
    let offered = kept.to_multiset().add(fresh.to_multiset());
    &&& sorted(new)
    &&& new.len() == if kept.len() + fresh.len() <= TOP_K {
        kept.len() + fresh.len()
    } else {
        TOP_K as nat
    }
    &&& new.to_multiset().subset_of(offered)
    &&& forall|x: T, i: int|
        0 <= i < new.len() && offered.count(x) > new.to_multiset().count(x) ==> !(
        #[trigger] x.ranks_above(new[i]))
    &&& without_exchange(new, name).is_prefix_of(kept)
    &&& forall|i: int, j: int|
        0 <= i < j < new.len() && (#[trigger] new[i]).level().exchange_name@ == name
            && (#[trigger] new[j]).level().exchange_name@ != name ==> new[i].ranks_above(new[j])
    &&& sorted(fresh) ==> only_exchange(new, name).is_prefix_of(fresh)
}

/// `merged` means what `replaces_exchange` says.
pub proof fn law_merged_replaces_exchange<T: Ranked>(old: Seq<T>, name: Seq<char>, fresh: Seq<T>)
    requires
        sorted(old),
        all_of_exchange(fresh, name),
    ensures
        replaces_exchange(old, name, fresh, merged(old, name, fresh)),
{
    broadcast use vstd::seq_lib::group_to_multiset_ensures, vstd::multiset::group_multiset_axioms;

    let e = Seq::<T>::empty();
    let w = without_exchange(old, name);
    let g = insert_all(e, fresh);
    lemma_merged_as_merge(old, name, fresh);
    lemma_without_exchange(old, name);
    let r = merge_ranked(w, g);
    lemma_merge_len(w, g);
    lemma_insert_all_sorted(w, fresh);
    lemma_insert_all_multiset(w, fresh);
    let new = merged(old, name, fresh);
    let k = new.len();
    crate::order_book::law_merge_in_order_and_capped(old, name, fresh);
    assert(new == r.take(k as int)) by {
        if r.len() <= TOP_K {
            assert(r.take(k as int) =~= r);
        }
    }
    // the dropped levels rank no higher than the kept ones
    let rest = r.skip(k as int);
    assert(r =~= new + rest);
    vstd::seq_lib::lemma_multiset_commutative(new, rest);
    let offered = w.to_multiset().add(fresh.to_multiset());
    assert(r.to_multiset() == offered);
    assert(new.to_multiset().subset_of(offered)) by {
        assert forall|v: T| new.to_multiset().count(v) <= offered.count(v) by {
        }
    }
    assert forall|x: T, i: int|
        0 <= i < new.len() && offered.count(x) > new.to_multiset().count(x) implies !(
        #[trigger] x.ranks_above(new[i])) by {
        assert(rest.to_multiset().count(x) > 0);
        assert(rest.contains(x));
        let j = choose|j: int| 0 <= j < rest.len() && rest[j] == x;
        assert(r[k + j] == x);
        assert(r[i] == new[i]);
    }
    // the other exchanges' levels
    lemma_merge_prefix_without(w, g, name, k);
    lemma_taken_bounds(w, g, k);
    assert(w.take(taken_from_first(w, g, k) as int).is_prefix_of(w));
    // fresh levels before other levels
    lemma_merge_fresh_above(w, g, name);
    assert forall|i: int, j: int|
        0 <= i < j < new.len() && (#[trigger] new[i]).level().exchange_name@ == name
            && (#[trigger] new[j]).level().exchange_name@ != name implies new[i].ranks_above(new[j]) by {
        assert(new[i] == r[i] && new[j] == r[j]);
    }
    // fresh levels that came in order
    if sorted(fresh) {
        crate::order_book::lemma_insert_all_into_empty(fresh);
        lemma_merge_prefix_only(w, g, name, k);
        assert(g.take(k - taken_from_first(w, g, k)).is_prefix_of(fresh));
    }
}

} // verus!
