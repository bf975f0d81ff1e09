//! Key-based deduplication and partitioning, specified over sequences.
//!
//! Every stage of the detection pipeline is an instance of one of three
//! operations, each parameterised by a key-equality predicate:
//!
//! * [`dedup_keep_last`] keeps, for every key, only the last entry bearing it;
//! * [`partition_by`] splits a sequence into the classes of the predicate,
//!   dropping classes with fewer than two members;
//! * [`split_by`] applies [`partition_by`] to every group of a partition and
//!   concatenates the results.
//!
//! The lemmas below characterise membership and grouping for these
//! operations; the executable stages prove their results equal to these
//! functions, so the lemmas carry over to the running code.

use vstd::prelude::*;

verus! {

broadcast use vstd::seq_lib::group_seq_lib_default;

/// `eq` holds of every element and itself.
pub open spec fn key_reflexive<T>(eq: spec_fn(T, T) -> bool) -> bool {
    forall|x: T| #[trigger] eq(x, x)
}

/// `eq` is insensitive to argument order.
pub open spec fn key_symmetric<T>(eq: spec_fn(T, T) -> bool) -> bool {
    forall|x: T, y: T| #[trigger] eq(x, y) == eq(y, x)
}

/// `eq` carries over chains.
pub open spec fn key_transitive<T>(eq: spec_fn(T, T) -> bool) -> bool {
    forall|x: T, y: T, z: T| #[trigger] eq(x, y) && #[trigger] eq(y, z) ==> eq(x, z)
}

/// `eq` is an equivalence relation.
pub open spec fn key_equivalence<T>(eq: spec_fn(T, T) -> bool) -> bool {
    key_reflexive(eq) && key_symmetric(eq) && key_transitive(eq)
}

/// `x` and `y` are members of one and the same group of `gs`.
pub open spec fn same_group<T>(gs: Seq<Seq<T>>, x: T, y: T) -> bool {
    exists|j: int| 0 <= j < gs.len() && gs[j].contains(x) && gs[j].contains(y)
}

/// Some group of `gs` has `x` as a member.
pub open spec fn groups_contain<T>(gs: Seq<Seq<T>>, x: T) -> bool {
    exists|j: int| 0 <= j < gs.len() && gs[j].contains(x)
}

/// Any two members of `g` share a key.
pub open spec fn group_uniform<T>(g: Seq<T>, eq: spec_fn(T, T) -> bool) -> bool {
    forall|i: int, j: int| 0 <= i < g.len() && 0 <= j < g.len() ==> eq(g[i], g[j])
}

/// Every member of `a` is a member of `b`.
pub open spec fn seq_subset<T>(a: Seq<T>, b: Seq<T>) -> bool {
    forall|x: T| #[trigger] a.contains(x) ==> b.contains(x)
}

/// A later entry of `s` bears the same key as the first one.
pub open spec fn first_repeats<T>(s: Seq<T>, eq: spec_fn(T, T) -> bool) -> bool {
    exists|k: int| 1 <= k < s.len() && #[trigger] eq(s[k], s[0])
}

/// Keeps exactly the entries that are the last of their key, in order of
/// their (last) occurrence.
pub open spec fn dedup_keep_last<T>(s: Seq<T>, eq: spec_fn(T, T) -> bool) -> Seq<T>
    decreases s.len(),
{
    if s.len() == 0 {
        Seq::empty()
    } else if first_repeats(s, eq) {
        dedup_keep_last(s.drop_first(), eq)
    } else {
        seq![s[0]] + dedup_keep_last(s.drop_first(), eq)
    }
}

/// The elements bearing the same key as `pivot`.
pub open spec fn match_key<T>(eq: spec_fn(T, T) -> bool, pivot: T) -> spec_fn(T) -> bool {
    |t: T| eq(t, pivot)
}

/// The elements bearing another key than `pivot`.
pub open spec fn differ_key<T>(eq: spec_fn(T, T) -> bool, pivot: T) -> spec_fn(T) -> bool {
    |t: T| !eq(t, pivot)
}

/// The class of the first element of `s`: itself and every later element
/// bearing its key, in input order.
pub open spec fn head_class<T>(s: Seq<T>, eq: spec_fn(T, T) -> bool) -> Seq<T> {
    seq![s[0]] + s.drop_first().filter(match_key(eq, s[0]))
}

/// What remains of `s` once the class of its first element is taken out.
pub open spec fn tail_rest<T>(s: Seq<T>, eq: spec_fn(T, T) -> bool) -> Seq<T> {
    s.drop_first().filter(differ_key(eq, s[0]))
}

/// The classes of `eq` on `s`, in order of first occurrence, each class in
/// input order; classes with fewer than two members are dropped.
pub open spec fn partition_by<T>(s: Seq<T>, eq: spec_fn(T, T) -> bool) -> Seq<Seq<T>>
    decreases s.len(),
{
    if s.len() == 0 {
        Seq::empty()
    } else {
        let g = head_class(s, eq);
        let rest = partition_by(tail_rest(s, eq), eq);
        if g.len() >= 2 {
            seq![g] + rest
        } else {
            rest
        }
    }
}

/// [`partition_by`] applied to every group, results concatenated.
pub open spec fn split_by<T>(gs: Seq<Seq<T>>, eq: spec_fn(T, T) -> bool) -> Seq<Seq<T>>
    decreases gs.len(),
{
    if gs.len() == 0 {
        Seq::empty()
    } else {
        partition_by(gs[0], eq) + split_by(gs.drop_first(), eq)
    }
}

/// Deduplication only removes entries: every member of the result was a
/// member of the input.
pub proof fn lemma_dedup_subset<T>(s: Seq<T>, eq: spec_fn(T, T) -> bool)
    ensures
        seq_subset(dedup_keep_last(s, eq), s),
    decreases s.len(),
{
    if s.len() != 0 {
        lemma_dedup_subset(s.drop_first(), eq);
        assert forall|x: T| #[trigger] dedup_keep_last(s, eq).contains(x) implies s.contains(
            x,
        ) by {
            if first_repeats(s, eq) {
                assert(s.drop_first().contains(x));
                let i = choose|i: int| 0 <= i < s.drop_first().len() && s.drop_first()[i] == x;
                assert(s[i + 1] == x);
            } else {
                lemma_concat_contains(seq![s[0]], dedup_keep_last(s.drop_first(), eq), x);
                if x == s[0] {
                    assert(s[0] == x);
                } else {
                    assert(dedup_keep_last(s.drop_first(), eq).contains(x));
                    assert(s.drop_first().contains(x));
                    let j = choose|j: int|
                        0 <= j < s.drop_first().len() && s.drop_first()[j] == x;
                    assert(s[j + 1] == x);
                }
            }
        }
    }
}

/// No two distinct values in a deduplicated sequence share a key.
pub proof fn lemma_dedup_distinct_keys<T>(s: Seq<T>, eq: spec_fn(T, T) -> bool)
    requires
        key_symmetric(eq),
        key_transitive(eq),
    ensures
        forall|x: T, y: T|
            dedup_keep_last(s, eq).contains(x) && dedup_keep_last(s, eq).contains(y) && x != y
                ==> !eq(x, y),
    decreases s.len(),
{
    if s.len() != 0 {
        lemma_dedup_distinct_keys(s.drop_first(), eq);
        let d = dedup_keep_last(s, eq);
        let dt = dedup_keep_last(s.drop_first(), eq);
        if !first_repeats(s, eq) {
            assert forall|x: T, y: T| d.contains(x) && d.contains(y) && x != y implies !eq(
                x,
                y,
            ) by {
                lemma_dedup_subset(s.drop_first(), eq);
                if x == s[0] && dt.contains(y) {
                    let j = choose|j: int|
                        0 <= j < s.drop_first().len() && s.drop_first()[j] == y;
                    assert(s[j + 1] == y);
                    assert(!eq(s[j + 1], s[0]));
                } else if y == s[0] && dt.contains(x) {
                    let j = choose|j: int|
                        0 <= j < s.drop_first().len() && s.drop_first()[j] == x;
                    assert(s[j + 1] == x);
                    assert(!eq(s[j + 1], s[0]));
                } else {
                    lemma_concat_contains(seq![s[0]], dt, x);
                    lemma_concat_contains(seq![s[0]], dt, y);
                }
            }
        }
    }
}

/// Deduplication loses no key: every entry of the input has some entry of the
/// result bearing its key.
pub proof fn lemma_dedup_key_represented<T>(s: Seq<T>, eq: spec_fn(T, T) -> bool)
    requires
        key_equivalence(eq),
    ensures
        forall|x: T| #[trigger] s.contains(x) ==> exists|y: T|
            #[trigger] dedup_keep_last(s, eq).contains(y) && eq(x, y),
    decreases s.len(),
{
    if s.len() != 0 {
        lemma_dedup_key_represented(s.drop_first(), eq);
        let d = dedup_keep_last(s, eq);
        let dt = dedup_keep_last(s.drop_first(), eq);
        assert(s =~= seq![s[0]] + s.drop_first());
        assert forall|x: T| #[trigger] s.contains(x) implies exists|y: T|
            #[trigger] d.contains(y) && eq(x, y) by {
            lemma_concat_contains(seq![s[0]], s.drop_first(), x);
            if first_repeats(s, eq) {
                if x == s[0] {
                    let k = choose|k: int| 1 <= k < s.len() && #[trigger] eq(s[k], s[0]);
                    assert(s.drop_first()[k - 1] == s[k]);
                    assert(s.drop_first().contains(s[k]));
                    let y = choose|y: T| #[trigger] dt.contains(y) && eq(s[k], y);
                    assert(eq(x, s[k]));
                    assert(eq(x, y));
                } else {
                    assert(s.drop_first().contains(x));
                    let y = choose|y: T| #[trigger] dt.contains(y) && eq(x, y);
                    assert(d.contains(y));
                }
            } else {
                if x == s[0] {
                    assert(d[0] == s[0]);
                    assert(d.contains(s[0]));
                    assert(eq(x, s[0]));
                } else {
                    assert(s.drop_first().contains(x));
                    let y = choose|y: T| #[trigger] dt.contains(y) && eq(x, y);
                    lemma_concat_contains(seq![s[0]], dt, y);
                    assert(d.contains(y));
                }
            }
        }
    }
}

/// Membership in a filtered sequence is membership plus the predicate.
pub proof fn lemma_filter_membership<T>(s: Seq<T>, pred: spec_fn(T) -> bool, x: T)
    ensures
        s.filter(pred).contains(x) <==> s.contains(x) && pred(x),
    decreases s.len(),
{
    reveal(Seq::filter);
    if s.len() != 0 {
        lemma_filter_membership(s.drop_last(), pred, x);
        let f = s.filter(pred);
        let fd = s.drop_last().filter(pred);
        if pred(s.last()) {
            assert(f =~= fd + seq![s.last()]);
            lemma_concat_contains(fd, seq![s.last()], x);
        }
        assert(s =~= s.drop_last() + seq![s.last()]);
        lemma_concat_contains(s.drop_last(), seq![s.last()], x);
    }
}

/// Filtering a sequence extended by one element.
pub proof fn lemma_filter_push<T>(s: Seq<T>, pred: spec_fn(T) -> bool, x: T)
    ensures
        s.push(x).filter(pred) == if pred(x) {
            s.filter(pred).push(x)
        } else {
            s.filter(pred)
        },
{
    reveal(Seq::filter);
    assert(s.push(x).drop_last() =~= s);
    assert(s.push(x).last() == x);
}

/// Filtering with a predicate that holds everywhere changes nothing.
pub proof fn lemma_filter_all_true<T>(s: Seq<T>, pred: spec_fn(T) -> bool)
    requires
        forall|i: int| 0 <= i < s.len() ==> pred(#[trigger] s[i]),
    ensures
        s.filter(pred) =~= s,
    decreases s.len(),
{
    reveal(Seq::filter);
    if s.len() != 0 {
        lemma_filter_all_true(s.drop_last(), pred);
    }
}

/// Filtering with a predicate that holds nowhere leaves nothing.
pub proof fn lemma_filter_all_false<T>(s: Seq<T>, pred: spec_fn(T) -> bool)
    requires
        forall|i: int| 0 <= i < s.len() ==> !pred(#[trigger] s[i]),
    ensures
        s.filter(pred) =~= Seq::<T>::empty(),
    decreases s.len(),
{
    reveal(Seq::filter);
    if s.len() != 0 {
        lemma_filter_all_false(s.drop_last(), pred);
    }
}

/// Every group of a partition has at least two members, all members share a
/// key, and all of them come from the input.
pub proof fn lemma_partition_wf<T>(s: Seq<T>, eq: spec_fn(T, T) -> bool)
    requires
        key_equivalence(eq),
    ensures
        forall|j: int|
            0 <= j < partition_by(s, eq).len() ==> #[trigger] partition_by(s, eq)[j].len() >= 2,
        forall|j: int|
            0 <= j < partition_by(s, eq).len() ==> group_uniform(
                #[trigger] partition_by(s, eq)[j],
                eq,
            ),
        forall|j: int|
            0 <= j < partition_by(s, eq).len() ==> seq_subset(
                #[trigger] partition_by(s, eq)[j],
                s,
            ),
    decreases s.len(),
{
    if s.len() != 0 {
        let g = head_class(s, eq);
        let s1 = tail_rest(s, eq);
        lemma_partition_wf(s1, eq);
        assert(group_uniform(g, eq)) by {
            assert forall|i: int, j: int| 0 <= i < g.len() && 0 <= j < g.len() implies eq(
                g[i],
                g[j],
            ) by {
                lemma_group_member_key(s, eq, i);
                lemma_group_member_key(s, eq, j);
            }
        }
        assert(seq_subset(g, s)) by {
            assert forall|x: T| #[trigger] g.contains(x) implies s.contains(x) by {
                lemma_concat_contains(seq![s[0]], s.drop_first().filter(match_key(eq, s[0])), x);
                lemma_filter_membership(s.drop_first(), match_key(eq, s[0]), x);
                assert(s =~= seq![s[0]] + s.drop_first());
                lemma_concat_contains(seq![s[0]], s.drop_first(), x);
            }
        }
        assert forall|j: int|
            0 <= j < partition_by(s1, eq).len() implies seq_subset(
            #[trigger] partition_by(s1, eq)[j],
            s,
        ) by {
            assert forall|x: T| #[trigger] partition_by(s1, eq)[j].contains(x) implies s.contains(
                x,
            ) by {
                assert(s1.contains(x));
                lemma_filter_membership(s.drop_first(), differ_key(eq, s[0]), x);
                assert(s =~= seq![s[0]] + s.drop_first());
                lemma_concat_contains(seq![s[0]], s.drop_first(), x);
            }
        }
        if g.len() >= 2 {
            assert forall|j: int|
                0 <= j < partition_by(s, eq).len() implies #[trigger] partition_by(s, eq)[j].len()
                >= 2 && group_uniform(partition_by(s, eq)[j], eq) && seq_subset(
                partition_by(s, eq)[j],
                s,
            ) by {
                if j == 0 {
                    assert(partition_by(s, eq)[0] == g);
                } else {
                    assert(partition_by(s, eq)[j] == partition_by(s1, eq)[j - 1]);
                }
            }
        } else {
            assert forall|j: int|
                0 <= j < partition_by(s, eq).len() implies #[trigger] partition_by(s, eq)[j].len()
                >= 2 && group_uniform(partition_by(s, eq)[j], eq) && seq_subset(
                partition_by(s, eq)[j],
                s,
            ) by {
                assert(partition_by(s, eq)[j] == partition_by(s1, eq)[j]);
            }
        }
    }
}

/// Every member of the leading partition class bears the key of the head.
proof fn lemma_group_member_key<T>(s: Seq<T>, eq: spec_fn(T, T) -> bool, i: int)
    requires
        key_equivalence(eq),
        s.len() > 0,
        0 <= i < head_class(s, eq).len(),
    ensures
        eq(head_class(s, eq)[i], s[0]),
{
    let fs = s.drop_first().filter(match_key(eq, s[0]));
    if i == 0 {
        assert(eq(s[0], s[0]));
    } else {
        assert(head_class(s, eq)[i] == fs[i - 1]);
        lemma_filter_membership(s.drop_first(), match_key(eq, s[0]), fs[i - 1]);
        assert(fs.contains(fs[i - 1]));
    }
}

/// Two distinct values share a partition class exactly when both occur in the
/// input and bear the same key.
pub proof fn lemma_partition_same_group<T>(s: Seq<T>, eq: spec_fn(T, T) -> bool, x: T, y: T)
    requires
        key_equivalence(eq),
        x != y,
    ensures
        same_group(partition_by(s, eq), x, y) <==> s.contains(x) && s.contains(y) && eq(x, y),
    decreases s.len(),
{
    if s.len() == 0 {
        assert(!s.contains(x));
    } else {
        let g = head_class(s, eq);
        let s1 = tail_rest(s, eq);
        let p = partition_by(s, eq);
        let rest = partition_by(s1, eq);
        lemma_partition_same_group(s1, eq, x, y);
        lemma_member_of_head_class(s, eq, x);
        lemma_member_of_head_class(s, eq, y);
        assert(s =~= seq![s[0]] + s.drop_first());
        lemma_concat_contains(seq![s[0]], s.drop_first(), x);
        lemma_concat_contains(seq![s[0]], s.drop_first(), y);
        lemma_filter_membership(s.drop_first(), differ_key(eq, s[0]), x);
        lemma_filter_membership(s.drop_first(), differ_key(eq, s[0]), y);

        if same_group(p, x, y) {
            let j = choose|j: int| 0 <= j < p.len() && p[j].contains(x) && p[j].contains(y);
            if g.len() >= 2 && j == 0 {
                assert(p[0] == g);
                let ix = choose|i: int| 0 <= i < g.len() && g[i] == x;
                let iy = choose|i: int| 0 <= i < g.len() && g[i] == y;
                lemma_group_member_key(s, eq, ix);
                lemma_group_member_key(s, eq, iy);
                assert(eq(x, s[0]) && eq(y, s[0]));
                assert(eq(x, y));
                assert(s.contains(x) && s.contains(y));
            } else {
                let j1 = if g.len() >= 2 {
                    j - 1
                } else {
                    j
                };
                assert(p[j] == rest[j1]);
                assert(same_group(rest, x, y));
                assert(s1.contains(x) && s1.contains(y) && eq(x, y));
                assert(s.contains(x) && s.contains(y));
            }
        }
        if s.contains(x) && s.contains(y) && eq(x, y) {
            if eq(x, s[0]) {
                assert(eq(y, x));
                assert(eq(y, s[0]));
                assert(g.contains(x) && g.contains(y));
                let ix = choose|i: int| 0 <= i < g.len() && g[i] == x;
                let iy = choose|i: int| 0 <= i < g.len() && g[i] == y;
                assert(ix != iy);
                assert(g.len() >= 2);
                assert(p[0] == g);
                assert(same_group(p, x, y));
            } else {
                assert(!eq(y, s[0])) by {
                    if eq(y, s[0]) {
                        assert(eq(x, y) && eq(y, s[0]));
                        assert(eq(x, s[0]));
                    }
                }
                assert(x != s[0] && y != s[0]) by {
                    assert(eq(s[0], s[0]));
                }
                assert(s1.contains(x) && s1.contains(y));
                assert(same_group(rest, x, y));
                let j = choose|j: int|
                    0 <= j < rest.len() && rest[j].contains(x) && rest[j].contains(y);
                let off: int = if g.len() >= 2 {
                    1
                } else {
                    0
                };
                assert(p[j + off] == rest[j]);
                assert(same_group(p, x, y));
            }
        }
    }
}

/// A value lies in the leading class exactly when it occurs in the input and
/// bears the key of the head.
proof fn lemma_member_of_head_class<T>(s: Seq<T>, eq: spec_fn(T, T) -> bool, x: T)
    requires
        key_equivalence(eq),
        s.len() > 0,
    ensures
        head_class(s, eq).contains(x) <==> (s.contains(x) && eq(x, s[0])),
{
    let fs = s.drop_first().filter(match_key(eq, s[0]));
    lemma_concat_contains(seq![s[0]], fs, x);
    lemma_filter_membership(s.drop_first(), match_key(eq, s[0]), x);
    assert(s =~= seq![s[0]] + s.drop_first());
    lemma_concat_contains(seq![s[0]], s.drop_first(), x);
    assert(eq(s[0], s[0]));
}

/// Two distinct values share a class of `split_by(gs, eq)` exactly when they
/// share a group of `gs` and bear the same key.
pub proof fn lemma_split_same_group<T>(gs: Seq<Seq<T>>, eq: spec_fn(T, T) -> bool, x: T, y: T)
    requires
        key_equivalence(eq),
        x != y,
    ensures
        same_group(split_by(gs, eq), x, y) <==> (same_group(gs, x, y) && eq(x, y)),
    decreases gs.len(),
{
    if gs.len() == 0 {
    } else {
        let a = partition_by(gs[0], eq);
        let b = split_by(gs.drop_first(), eq);
        lemma_split_same_group(gs.drop_first(), eq, x, y);
        lemma_partition_same_group(gs[0], eq, x, y);
        lemma_same_group_concat(a, b, x, y);
        if same_group(gs.drop_first(), x, y) {
            let j = choose|j: int|
                0 <= j < gs.drop_first().len() && gs.drop_first()[j].contains(x)
                    && gs.drop_first()[j].contains(y);
            assert(gs[j + 1] == gs.drop_first()[j]);
        }
        if same_group(gs, x, y) && !(gs[0].contains(x) && gs[0].contains(y)) {
            let j = choose|j: int| 0 <= j < gs.len() && gs[j].contains(x) && gs[j].contains(y);
            assert(j >= 1);
            assert(gs.drop_first()[j - 1] == gs[j]);
            assert(same_group(gs.drop_first(), x, y));
        }
    }
}

/// Sharing a group of a concatenation is sharing a group of either part.
proof fn lemma_same_group_concat<T>(a: Seq<Seq<T>>, b: Seq<Seq<T>>, x: T, y: T)
    ensures
        same_group(a + b, x, y) <==> same_group(a, x, y) || same_group(b, x, y),
{
    if same_group(a, x, y) {
        let j = choose|j: int| 0 <= j < a.len() && a[j].contains(x) && a[j].contains(y);
        assert((a + b)[j] == a[j]);
    }
    if same_group(b, x, y) {
        let j = choose|j: int| 0 <= j < b.len() && b[j].contains(x) && b[j].contains(y);
        assert((a + b)[a.len() + j] == b[j]);
    }
    if same_group(a + b, x, y) {
        let j = choose|j: int|
            0 <= j < (a + b).len() && (a + b)[j].contains(x) && (a + b)[j].contains(y);
        if j < a.len() {
            assert(a[j] == (a + b)[j]);
        } else {
            assert(b[j - a.len()] == (a + b)[j]);
        }
    }
}

/// Every member of a class of `split_by(gs, eq)` comes from some group of
/// `gs`, and the classes are at least pairs with a common key.
pub proof fn lemma_split_wf<T>(gs: Seq<Seq<T>>, eq: spec_fn(T, T) -> bool)
    requires
        key_equivalence(eq),
    ensures
        forall|j: int|
            0 <= j < split_by(gs, eq).len() ==> #[trigger] split_by(gs, eq)[j].len() >= 2,
        forall|j: int|
            0 <= j < split_by(gs, eq).len() ==> group_uniform(#[trigger] split_by(gs, eq)[j], eq),
        forall|j: int, x: T|
            0 <= j < split_by(gs, eq).len() && #[trigger] split_by(gs, eq)[j].contains(x)
                ==> groups_contain(gs, x),
    decreases gs.len(),
{
    if gs.len() != 0 {
        let a = partition_by(gs[0], eq);
        let b = split_by(gs.drop_first(), eq);
        lemma_split_wf(gs.drop_first(), eq);
        lemma_partition_wf(gs[0], eq);
        assert forall|j: int, x: T|
            0 <= j < split_by(gs, eq).len() && #[trigger] split_by(gs, eq)[j].contains(
                x,
            ) implies groups_contain(gs, x) by {
            if j < a.len() {
                assert(split_by(gs, eq)[j] == a[j]);
                assert(seq_subset(a[j], gs[0]));
                assert(gs[0].contains(x));
            } else {
                assert(split_by(gs, eq)[j] == b[j - a.len()]);
                assert(groups_contain(gs.drop_first(), x));
                let i = choose|i: int|
                    0 <= i < gs.drop_first().len() && gs.drop_first()[i].contains(x);
                assert(gs[i + 1] == gs.drop_first()[i]);
            }
        }
        assert forall|j: int| 0 <= j < split_by(gs, eq).len() implies #[trigger] split_by(
            gs,
            eq,
        )[j].len() >= 2 && group_uniform(split_by(gs, eq)[j], eq) by {
            if j < a.len() {
                assert(split_by(gs, eq)[j] == a[j]);
            } else {
                assert(split_by(gs, eq)[j] == b[j - a.len()]);
            }
        }
    }
}

/// No class of a partition has more members than the input.
pub proof fn lemma_partition_class_len<T>(s: Seq<T>, eq: spec_fn(T, T) -> bool)
    requires
        key_equivalence(eq),
    ensures
        forall|j: int|
            0 <= j < partition_by(s, eq).len() ==> #[trigger] partition_by(s, eq)[j].len()
                <= s.len(),
    decreases s.len(),
{
    if s.len() != 0 {
        let g = head_class(s, eq);
        let s1 = tail_rest(s, eq);
        lemma_partition_class_len(s1, eq);
        s.drop_first().lemma_filter_len(match_key(eq, s[0]));
        s.drop_first().lemma_filter_len(differ_key(eq, s[0]));
        assert forall|j: int|
            0 <= j < partition_by(s, eq).len() implies #[trigger] partition_by(s, eq)[j].len()
            <= s.len() by {
            if g.len() >= 2 {
                if j == 0 {
                    assert(partition_by(s, eq)[0] == g);
                } else {
                    assert(partition_by(s, eq)[j] == partition_by(s1, eq)[j - 1]);
                }
            } else {
                assert(partition_by(s, eq)[j] == partition_by(s1, eq)[j]);
            }
        }
    }
}

/// Every class of `split_by(gs, eq)` is drawn from a single group of `gs` and
/// has no more members than that group.
pub proof fn lemma_split_class_origin<T>(gs: Seq<Seq<T>>, eq: spec_fn(T, T) -> bool)
    requires
        key_equivalence(eq),
    ensures
        forall|j: int|
            0 <= j < split_by(gs, eq).len() ==> exists|i: int|
                0 <= i < gs.len() && seq_subset(#[trigger] split_by(gs, eq)[j], #[trigger] gs[i])
                    && split_by(gs, eq)[j].len() <= gs[i].len(),
    decreases gs.len(),
{
    if gs.len() != 0 {
        let a = partition_by(gs[0], eq);
        lemma_split_class_origin(gs.drop_first(), eq);
        lemma_partition_wf(gs[0], eq);
        lemma_partition_class_len(gs[0], eq);
        assert forall|j: int| 0 <= j < split_by(gs, eq).len() implies exists|i: int|
            0 <= i < gs.len() && seq_subset(#[trigger] split_by(gs, eq)[j], #[trigger] gs[i])
                && split_by(gs, eq)[j].len() <= gs[i].len() by {
            if j < a.len() {
                assert(split_by(gs, eq)[j] == a[j]);
                assert(seq_subset(split_by(gs, eq)[j], gs[0]) && split_by(gs, eq)[j].len()
                    <= gs[0].len());
            } else {
                assert(split_by(gs, eq)[j] == split_by(gs.drop_first(), eq)[j - a.len()]);
                let i = choose|i: int|
                    0 <= i < gs.drop_first().len() && seq_subset(
                        split_by(gs.drop_first(), eq)[j - a.len()],
                        #[trigger] gs.drop_first()[i],
                    ) && split_by(gs.drop_first(), eq)[j - a.len()].len()
                        <= gs.drop_first()[i].len();
                assert(gs[i + 1] == gs.drop_first()[i]);
                assert(seq_subset(split_by(gs, eq)[j], gs[i + 1]) && split_by(gs, eq)[j].len()
                    <= gs[i + 1].len());
            }
        }
    }
}

/// Partitioning a set of at least two elements that already share one key
/// returns that set as the single class.
pub proof fn lemma_partition_of_uniform<T>(g: Seq<T>, eq: spec_fn(T, T) -> bool)
    requires
        key_equivalence(eq),
        group_uniform(g, eq),
        g.len() >= 2,
    ensures
        partition_by(g, eq) == seq![g],
{
    let cls = head_class(g, eq);
    let s1 = tail_rest(g, eq);
    assert forall|i: int| 0 <= i < g.drop_first().len() implies match_key(eq, g[0])(
        #[trigger] g.drop_first()[i],
    ) by {
        assert(g.drop_first()[i] == g[i + 1]);
        assert(eq(g[i + 1], g[0]));
    }
    lemma_filter_all_true(g.drop_first(), match_key(eq, g[0]));
    assert forall|i: int| 0 <= i < g.drop_first().len() implies !(differ_key(eq, g[0])(
        #[trigger] g.drop_first()[i],
    )) by {
        assert(g.drop_first()[i] == g[i + 1]);
        assert(eq(g[i + 1], g[0]));
    }
    lemma_filter_all_false(g.drop_first(), differ_key(eq, g[0]));
    assert(cls =~= g);
    assert(partition_by(s1, eq) =~= Seq::<Seq<T>>::empty());
    assert(partition_by(g, eq) =~= seq![g]);
}

/// Re-partitioning a partition leaves it unchanged: the second size pass of
/// the pipeline is a no-op.
pub proof fn lemma_split_partition_idempotent<T>(s: Seq<T>, eq: spec_fn(T, T) -> bool)
    requires
        key_equivalence(eq),
    ensures
        split_by(partition_by(s, eq), eq) == partition_by(s, eq),
{
    lemma_partition_wf(s, eq);
    lemma_split_of_wf_groups(partition_by(s, eq), eq);
}

/// Splitting leaves a list of groups unchanged when every group is already a
/// single class of at least two members.
pub proof fn lemma_split_of_wf_groups<T>(gs: Seq<Seq<T>>, eq: spec_fn(T, T) -> bool)
    requires
        key_equivalence(eq),
        forall|j: int| 0 <= j < gs.len() ==> #[trigger] gs[j].len() >= 2,
        forall|j: int| 0 <= j < gs.len() ==> group_uniform(#[trigger] gs[j], eq),
    ensures
        split_by(gs, eq) == gs,
    decreases gs.len(),
{
    if gs.len() != 0 {
        lemma_split_of_wf_groups(gs.drop_first(), eq);
        assert(gs[0].len() >= 2);
        assert(group_uniform(gs[0], eq));
        lemma_partition_of_uniform(gs[0], eq);
        assert(split_by(gs, eq) =~= seq![gs[0]] + gs.drop_first());
        assert(seq![gs[0]] + gs.drop_first() =~= gs);
    }
}

/// Membership in a concatenation is membership in either part.
pub proof fn lemma_concat_contains<T>(a: Seq<T>, b: Seq<T>, x: T)
    ensures
        (a + b).contains(x) <==> a.contains(x) || b.contains(x),
{
    if a.contains(x) {
        let i = choose|i: int| 0 <= i < a.len() && a[i] == x;
        assert((a + b)[i] == x);
    }
    if b.contains(x) {
        let i = choose|i: int| 0 <= i < b.len() && b[i] == x;
        assert((a + b)[a.len() + i] == x);
    }
    if (a + b).contains(x) {
        let i = choose|i: int| 0 <= i < (a + b).len() && (a + b)[i] == x;
        if i < a.len() {
            assert(a[i] == x);
        } else {
            assert(b[i - a.len()] == x);
        }
    }
}

} // verus!
