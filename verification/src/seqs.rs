//! Facts about sequences: search, lexicographic order and stable sorting.
use vstd::prelude::*;

verus! {

/// The index of the first `c` in `s`, or the length of `s` if it holds none.
pub open spec fn position<A>(s: Seq<A>, c: A) -> int
    decreases s.len(),
{
    if s.len() == 0 || s[0] == c {
        0
    } else {
        1 + position(s.skip(1), c)
    }
}

/// What `position` says of the characters on either side of it.
pub proof fn lemma_position<A>(s: Seq<A>, c: A)
    ensures
        0 <= position(s, c) <= s.len(),
        forall|i: int| 0 <= i < position(s, c) ==> s[i] != c,
        position(s, c) < s.len() ==> s[position(s, c)] == c,
    decreases s.len(),
{
    if s.len() > 0 && s[0] != c {
        lemma_position(s.skip(1), c);
        assert forall|i: int| 0 <= i < position(s, c) implies s[i] != c by {
            if i > 0 {
                assert(s.skip(1)[i - 1] != c);
            }
        }
    }
}

/// `position` is the only index that fits that description.
pub proof fn lemma_position_is<A>(s: Seq<A>, c: A, k: int)
    requires
        0 <= k <= s.len(),
        forall|i: int| 0 <= i < k ==> s[i] != c,
        k < s.len() ==> s[k] == c,
    ensures
        position(s, c) == k,
{
    lemma_position(s, c);
    let p = position(s, c);
    if p < k {
        assert(s[p] != c);
    } else if k < p {
        assert(s[k] != c);
    }
}

/// Which items two sequences hold together.
pub proof fn lemma_concat_contains<A>(a: Seq<A>, b: Seq<A>)
    ensures
        forall|y: A| #[trigger] (a + b).contains(y) <==> a.contains(y) || b.contains(y),
        a.no_duplicates() && b.no_duplicates() && (forall|y: A|
            !(#[trigger] a.contains(y) && b.contains(y))) ==> (a + b).no_duplicates(),
{
    let r = a + b;
    assert forall|y: A| #[trigger] r.contains(y) <==> a.contains(y) || b.contains(y) by {
        if a.contains(y) {
            let i = choose|i: int| 0 <= i < a.len() && a[i] == y;
            assert(r[i] == y);
        }
        if b.contains(y) {
            let i = choose|i: int| 0 <= i < b.len() && b[i] == y;
            assert(r[a.len() + i] == y);
        }
    }
    if a.no_duplicates() && b.no_duplicates() && (forall|y: A|
        !(#[trigger] a.contains(y) && b.contains(y))) {
        assert forall|i: int, j: int| 0 <= i < j < r.len() implies r[i] != r[j] by {
            if i < a.len() && j >= a.len() {
                assert(a.contains(r[i]));
                assert(b[j - a.len()] == r[j]);
                assert(b.contains(r[j]));
            }
        }
    }
}

/// Whether `lt` is a strict total order.
pub open spec fn strict_order<A>(lt: spec_fn(A, A) -> bool) -> bool {
    &&& forall|a: A| !#[trigger] lt(a, a)
    &&& forall|a: A, b: A, c: A| #[trigger] lt(a, b) && #[trigger] lt(b, c) ==> lt(a, c)
    &&& forall|a: A, b: A| #[trigger] lt(a, b) || a == b || lt(b, a)
}

/// Lexicographic order over sequences whose items `lt` orders. A proper
/// prefix comes first.
pub open spec fn lex_lt<A>(lt: spec_fn(A, A) -> bool, a: Seq<A>, b: Seq<A>) -> bool
    decreases a.len(),
{
    if b.len() == 0 {
        false
    } else if a.len() == 0 {
        true
    } else if a[0] == b[0] {
        lex_lt(lt, a.skip(1), b.skip(1))
    } else {
        lt(a[0], b[0])
    }
}

/// No sequence comes before itself.
pub proof fn lemma_lex_irreflexive<A>(lt: spec_fn(A, A) -> bool, a: Seq<A>)
    ensures
        !lex_lt(lt, a, a),
    decreases a.len(),
{
    if a.len() > 0 {
        lemma_lex_irreflexive(lt, a.skip(1));
    }
}

/// Lexicographic order is transitive where the order of the items is.
pub proof fn lemma_lex_transitive<A>(lt: spec_fn(A, A) -> bool, a: Seq<A>, b: Seq<A>, c: Seq<A>)
    requires
        strict_order(lt),
        lex_lt(lt, a, b),
        lex_lt(lt, b, c),
    ensures
        lex_lt(lt, a, c),
    decreases a.len(),
{
    if a.len() > 0 && b.len() > 0 && c.len() > 0 {
        if a[0] == b[0] && b[0] == c[0] {
            lemma_lex_transitive(lt, a.skip(1), b.skip(1), c.skip(1));
        } else if a[0] != b[0] && b[0] != c[0] {
            assert(lt(a[0], b[0]) && lt(b[0], c[0]));
            if a[0] == c[0] {
                assert(lt(a[0], a[0]));
            }
        }
    }
}

/// Two sequences are equal or one comes before the other.
pub proof fn lemma_lex_total<A>(lt: spec_fn(A, A) -> bool, a: Seq<A>, b: Seq<A>)
    requires
        strict_order(lt),
    ensures
        lex_lt(lt, a, b) || a == b || lex_lt(lt, b, a),
    decreases a.len(),
{
    if a.len() == 0 || b.len() == 0 {
        if a.len() == 0 && b.len() == 0 {
            assert(a =~= b);
        }
    } else if a[0] == b[0] {
        lemma_lex_total(lt, a.skip(1), b.skip(1));
        if a.skip(1) == b.skip(1) {
            assert(a =~= seq![a[0]] + a.skip(1));
            assert(b =~= seq![b[0]] + b.skip(1));
        }
    } else {
        assert(lt(a[0], b[0]) || lt(b[0], a[0]));
    }
}

/// Lexicographic order is a strict total order where the order of the items is.
pub proof fn lemma_lex_strict<A>(lt: spec_fn(A, A) -> bool)
    requires
        strict_order(lt),
    ensures
        strict_order(|a: Seq<A>, b: Seq<A>| lex_lt(lt, a, b)),
{
    let f = |a: Seq<A>, b: Seq<A>| lex_lt(lt, a, b);
    assert forall|a: Seq<A>| !#[trigger] f(a, a) by {
        lemma_lex_irreflexive(lt, a);
    }
    assert forall|a: Seq<A>, b: Seq<A>, c: Seq<A>| #[trigger] f(a, b) && #[trigger] f(b, c) implies f(
        a,
        c,
    ) by {
        lemma_lex_transitive(lt, a, b, c);
    }
    assert forall|a: Seq<A>, b: Seq<A>| #[trigger] f(a, b) || a == b || f(b, a) by {
        lemma_lex_total(lt, a, b);
    }
}

/// Whether `lt` is a strict weak order: items that it does not order either
/// way form classes, and it orders the classes strictly and totally.
pub open spec fn weak_order<A>(lt: spec_fn(A, A) -> bool) -> bool {
    &&& forall|a: A| !#[trigger] lt(a, a)
    &&& forall|a: A, b: A, c: A| #[trigger] lt(a, b) && #[trigger] lt(b, c) ==> lt(a, c)
    &&& forall|a: A, b: A, c: A| #![trigger lt(a, c), lt(a, b)] lt(a, c) ==> lt(a, b) || lt(b, c)
}

/// A sorted sequence with `x` added behind all items that do not come after it.
pub open spec fn inserted<A>(lt: spec_fn(A, A) -> bool, s: Seq<A>, x: A) -> Seq<A>
    decreases s.len(),
{
    if s.len() > 0 && lt(x, s.last()) {
        inserted(lt, s.drop_last(), x).push(s.last())
    } else {
        s.push(x)
    }
}

/// The items of `s`, sorted by `lt`; items of one class keep their order.
pub open spec fn sorted<A>(lt: spec_fn(A, A) -> bool, s: Seq<A>) -> Seq<A>
    decreases s.len(),
{
    if s.len() == 0 {
        s
    } else {
        inserted(lt, sorted(lt, s.drop_last()), s.last())
    }
}

/// Whether no item of `s` comes before an earlier one.
pub open spec fn ordered<A>(lt: spec_fn(A, A) -> bool, s: Seq<A>) -> bool {
    forall|i: int, j: int| 0 <= i < j < s.len() ==> !lt(#[trigger] s[j], #[trigger] s[i])
}

/// Whether `lt` orders two items neither way.
pub open spec fn same_class<A>(lt: spec_fn(A, A) -> bool, a: A, b: A) -> bool {
    !lt(a, b) && !lt(b, a)
}

/// The items of `s` in the class of `y`, in order.
pub open spec fn class_of<A>(lt: spec_fn(A, A) -> bool, s: Seq<A>, y: A) -> Seq<A>
    decreases s.len(),
{
    if s.len() == 0 {
        s
    } else if same_class(lt, s.last(), y) {
        class_of(lt, s.drop_last(), y).push(s.last())
    } else {
        class_of(lt, s.drop_last(), y)
    }
}

/// Where `inserted` puts the new item.
pub proof fn lemma_inserted_at<A>(lt: spec_fn(A, A) -> bool, s: Seq<A>, x: A, j: int)
    requires
        0 <= j <= s.len(),
        forall|k: int| j <= k < s.len() ==> lt(x, #[trigger] s[k]),
        j > 0 ==> !lt(x, s[j - 1]),
    ensures
        inserted(lt, s, x) == s.take(j).push(x) + s.skip(j),
    decreases s.len(),
{
    if j < s.len() {
        let d = s.drop_last();
        assert forall|k: int| j <= k < d.len() implies lt(x, #[trigger] d[k]) by {
            assert(d[k] == s[k]);
        }
        lemma_inserted_at(lt, d, x, j);
        assert(s.last() == s[s.len() - 1]);
        assert(d.take(j) == s.take(j));
        assert((s.take(j).push(x) + d.skip(j)).push(s.last()) == s.take(j).push(x) + s.skip(j));
    } else {
        assert(s.take(j) == s);
        assert(s.push(x) == s.take(j).push(x) + s.skip(j));
    }
}

/// Insertion keeps the sequence ordered, adds one item and appends it to its
/// class.
proof fn lemma_inserted<A>(lt: spec_fn(A, A) -> bool, s: Seq<A>, x: A)
    requires
        weak_order(lt),
        ordered(lt, s),
    ensures
        ordered(lt, inserted(lt, s, x)),
        inserted(lt, s, x).len() == s.len() + 1,
        inserted(lt, s, x).to_multiset() == s.to_multiset().insert(x),
        forall|y: A| #[trigger]
            class_of(lt, inserted(lt, s, x), y) == if same_class(lt, x, y) {
                class_of(lt, s, y).push(x)
            } else {
                class_of(lt, s, y)
            },
    decreases s.len(),
{
    let r = inserted(lt, s, x);
    broadcast use vstd::seq_lib::group_to_multiset_ensures;

    if s.len() > 0 && lt(x, s.last()) {
        let d = s.drop_last();
        let last = s.last();
        assert(ordered(lt, d)) by {
            assert forall|i: int, j: int| 0 <= i < j < d.len() implies !lt(
                #[trigger] d[j],
                #[trigger] d[i],
            ) by {
                assert(d[i] == s[i] && d[j] == s[j]);
            }
        }
        lemma_inserted(lt, d, x);
        let m = inserted(lt, d, x);
        assert(r == m.push(last));
        assert(d.push(last) == s);
        assert(r.to_multiset() =~= s.to_multiset().insert(x));
        assert forall|i: int| 0 <= i < m.len() implies !lt(last, #[trigger] m[i]) by {
            assert(m.to_multiset().contains(m[i]));
            if m[i] != x {
                assert(d.to_multiset().contains(m[i]));
                assert(d.contains(m[i]));
                let k = choose|k: int| 0 <= k < d.len() && d[k] == m[i];
                assert(s[k] == m[i] && s[s.len() - 1] == last);
            } else {
                if lt(last, x) {
                    assert(lt(last, last));
                }
            }
        }
        assert forall|i: int, j: int| 0 <= i < j < r.len() implies !lt(
            #[trigger] r[j],
            #[trigger] r[i],
        ) by {
            assert(r[i] == m[i]);
            if j < m.len() {
                assert(r[j] == m[j]);
            }
        }
        assert forall|y: A| #[trigger] class_of(lt, r, y) == if same_class(lt, x, y) {
            class_of(lt, s, y).push(x)
        } else {
            class_of(lt, s, y)
        } by {
            assert(r.drop_last() == m);
            assert(r.last() == last);
            assert(class_of(lt, m, y) == if same_class(lt, x, y) {
                class_of(lt, d, y).push(x)
            } else {
                class_of(lt, d, y)
            });
            if same_class(lt, x, y) && same_class(lt, last, y) {
                assert(lt(x, y) || lt(y, last)) by {
                    assert(lt(x, last));
                }
            }
        }
    } else {
        assert(r == s.push(x));
        assert forall|i: int, j: int| 0 <= i < j < r.len() implies !lt(
            #[trigger] r[j],
            #[trigger] r[i],
        ) by {
            if j == s.len() {
                assert(r[j] == x && r[i] == s[i]);
                if lt(x, s[i]) {
                    if i < s.len() - 1 {
                        let last = s[s.len() - 1];
                        assert(!lt(last, s[i]));
                        assert(lt(x, last) || lt(last, s[i]));
                    }
                }
            } else {
                assert(r[i] == s[i] && r[j] == s[j]);
            }
        }
        assert(r.drop_last() == s);
        assert(r.last() == x);
    }
}

/// Law: sorting yields the same items, in order, and keeps the order of items
/// of one class.
pub proof fn law_sorted<A>(lt: spec_fn(A, A) -> bool, s: Seq<A>)
    requires
        weak_order(lt),
    ensures
        ordered(lt, sorted(lt, s)),
        sorted(lt, s).len() == s.len(),
        sorted(lt, s).to_multiset() == s.to_multiset(),
        forall|y: A| #[trigger] class_of(lt, sorted(lt, s), y) == class_of(lt, s, y),
    decreases s.len(),
{
    broadcast use vstd::seq_lib::group_to_multiset_ensures;

    if s.len() > 0 {
        let d = s.drop_last();
        law_sorted(lt, d);
        lemma_inserted(lt, sorted(lt, d), s.last());
        assert(d.push(s.last()) == s);
        assert(sorted(lt, s).to_multiset() =~= s.to_multiset());
        assert forall|y: A| #[trigger] class_of(lt, sorted(lt, s), y) == class_of(lt, s, y) by {
            assert(class_of(lt, sorted(lt, d), y) == class_of(lt, d, y));
        }
    }
}

/// Law: sorting changes nothing of a sequence that is in order.
pub proof fn law_sorted_idempotent<A>(lt: spec_fn(A, A) -> bool, s: Seq<A>)
    requires
        ordered(lt, s),
    ensures
        sorted(lt, s) == s,
    decreases s.len(),
{
    if s.len() > 0 {
        let d = s.drop_last();
        assert forall|i: int, j: int| 0 <= i < j < d.len() implies !lt(
            #[trigger] d[j],
            #[trigger] d[i],
        ) by {
            assert(d[i] == s[i] && d[j] == s[j]);
        }
        law_sorted_idempotent(lt, d);
        if d.len() > 0 {
            assert(d.last() == s[s.len() - 2]);
            assert(s.last() == s[s.len() - 1]);
        }
        assert(d.push(s.last()) == s);
    }
}

/// The sum of the weights of the items.
pub open spec fn weight<A>(w: spec_fn(A) -> nat, s: Seq<A>) -> nat
    decreases s.len(),
{
    if s.len() == 0 {
        0
    } else {
        weight(w, s.drop_last()) + w(s.last())
    }
}

/// Insertion adds the weight of the new item.
proof fn lemma_inserted_weight<A>(lt: spec_fn(A, A) -> bool, w: spec_fn(A) -> nat, s: Seq<A>, x: A)
    ensures
        weight(w, inserted(lt, s, x)) == weight(w, s) + w(x),
    decreases s.len(),
{
    let r = inserted(lt, s, x);
    if s.len() > 0 && lt(x, s.last()) {
        lemma_inserted_weight(lt, w, s.drop_last(), x);
        assert(r.drop_last() == inserted(lt, s.drop_last(), x));
    } else {
        assert(r.drop_last() == s);
    }
}

/// Sorting changes no weight.
pub proof fn lemma_sorted_weight<A>(lt: spec_fn(A, A) -> bool, w: spec_fn(A) -> nat, s: Seq<A>)
    ensures
        weight(w, sorted(lt, s)) == weight(w, s),
    decreases s.len(),
{
    if s.len() > 0 {
        lemma_sorted_weight(lt, w, s.drop_last());
        lemma_inserted_weight(lt, w, sorted(lt, s.drop_last()), s.last());
    }
}

/// Insertion adds the image of the new item.
proof fn lemma_inserted_image<A, B>(
    lt: spec_fn(A, A) -> bool,
    f: spec_fn(A) -> B,
    s: Seq<A>,
    x: A,
)
    ensures
        inserted(lt, s, x).map_values(f).to_multiset() == s.map_values(f).to_multiset().insert(
            f(x),
        ),
    decreases s.len(),
{
    broadcast use vstd::seq_lib::group_to_multiset_ensures;

    let r = inserted(lt, s, x);
    if s.len() > 0 && lt(x, s.last()) {
        let d = s.drop_last();
        lemma_inserted_image(lt, f, d, x);
        assert(r.map_values(f) =~= inserted(lt, d, x).map_values(f).push(f(s.last())));
        assert(s.map_values(f) =~= d.map_values(f).push(f(s.last())));
        assert(r.map_values(f).to_multiset() =~= s.map_values(f).to_multiset().insert(f(x)));
    } else {
        assert(r.map_values(f) =~= s.map_values(f).push(f(x)));
    }
}

/// Sorting keeps the images of the items.
pub proof fn lemma_sorted_image<A, B>(
    lt: spec_fn(A, A) -> bool,
    f: spec_fn(A) -> B,
    s: Seq<A>,
)
    ensures
        sorted(lt, s).map_values(f).to_multiset() == s.map_values(f).to_multiset(),
    decreases s.len(),
{
    broadcast use vstd::seq_lib::group_to_multiset_ensures;

    if s.len() > 0 {
        let d = s.drop_last();
        lemma_sorted_image(lt, f, d);
        lemma_inserted_image(lt, f, sorted(lt, d), s.last());
        assert(s.map_values(f) =~= d.map_values(f).push(f(s.last())));
    }
}

/// Law: of two sequences that agree up to an index, the one that ends there comes
/// first, and otherwise the items there decide.
pub proof fn law_lex<A>(lt: spec_fn(A, A) -> bool, a: Seq<A>, b: Seq<A>, k: int)
    requires
        0 <= k <= a.len(),
        k <= b.len(),
        a.take(k) == b.take(k),
    ensures
        k == a.len() && k < b.len() ==> lex_lt(lt, a, b),
        k == b.len() ==> !lex_lt(lt, a, b),
        k < a.len() && k < b.len() && a[k] != b[k] ==> (lex_lt(lt, a, b) <==> lt(a[k], b[k])),
    decreases k,
{
    if k > 0 {
        assert(a[0] == a.take(k)[0] && b[0] == b.take(k)[0]);
        let x = a.skip(1);
        let y = b.skip(1);
        assert(x.take(k - 1) =~= y.take(k - 1)) by {
            assert forall|i: int| 0 <= i < k - 1 implies #[trigger] x.take(k - 1)[i] == y.take(k - 1)[i] by {
                assert(a.take(k)[i + 1] == b.take(k)[i + 1]);
                assert(a.take(k)[i + 1] == a[i + 1] && b.take(k)[i + 1] == b[i + 1]);
                assert(x[i] == a[i + 1] && y[i] == b[i + 1]);
            }
        }
        law_lex(lt, x, y, k - 1);
    }
}

/// Law: `position` finds the first occurrence: nothing before it, and the end if
/// there is none.
pub proof fn law_position<A>(before: Seq<A>, c: A, after: Seq<A>)
    requires
        !before.contains(c),
    ensures
        position(before + seq![c] + after, c) == before.len(),
        position(before, c) == before.len(),
{
    let s = before + seq![c] + after;
    assert forall|i: int| 0 <= i < before.len() implies s[i] != c && before[i] != c by {
        assert(before.contains(before[i]));
        assert(s[i] == before[i]);
    }
    assert(s[before.len() as int] == c);
    lemma_position_is(s, c, before.len() as int);
    lemma_position_is(before, c, before.len() as int);
}

} // verus!
