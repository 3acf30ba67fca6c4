use vstd::prelude::*;

verus! {

/// Puts `x` into `s` from the back: `x` moves left past an element `e` only
/// while `before(x, e)` holds, so it lands behind every element it need not precede.
pub open spec fn insert_in_order<T>(s: Seq<T>, x: T, before: spec_fn(T, T) -> bool) -> Seq<T>
    decreases s.len(),
{
    if s.len() == 0 {
        seq![x]
    } else if before(x, s.last()) {
        insert_in_order(s.drop_last(), x, before).push(s.last())
    } else {
        s.push(x)
    }
}

/// Where `insert_in_order` puts `x`.
pub open spec fn insert_position<T>(s: Seq<T>, x: T, before: spec_fn(T, T) -> bool) -> int
    decreases s.len(),
{
    if s.len() == 0 {
        0
    } else if before(x, s.last()) {
        insert_position(s.drop_last(), x, before)
    } else {
        s.len() as int
    }
}

/// The stable sort of `s` under the strict precedence `before`: the elements
/// are taken in order and each is put in with `insert_in_order`.
pub open spec fn stable_sort<T>(s: Seq<T>, before: spec_fn(T, T) -> bool) -> Seq<T>
    decreases s.len(),
{
    if s.len() == 0 {
        s
    } else {
        insert_in_order(stable_sort(s.drop_last(), before), s.last(), before)
    }
}

/// Precedence of pairs by their integer key, larger keys first.
pub open spec fn larger_key_first<T>() -> spec_fn((i64, T), (i64, T)) -> bool {
    |a: (i64, T), b: (i64, T)| a.0 > b.0
}

/// Strict lexicographic order on texts, comparing characters by code point.
pub open spec fn text_less(a: Seq<char>, b: Seq<char>) -> bool
    decreases a.len(),
{
    if b.len() == 0 {
        false
    } else if a.len() == 0 {
        true
    } else if a[0] != b[0] {
        (a[0] as int) < (b[0] as int)
    } else {
        text_less(a.drop_first(), b.drop_first())
    }
}

/// Precedence of pairs by their text key, in increasing lexicographic order.
pub open spec fn smaller_text_first<T>() -> spec_fn((Vec<char>, T), (Vec<char>, T)) -> bool {
    |a: (Vec<char>, T), b: (Vec<char>, T)| text_less(a.0@, b.0@)
}

/// `insert_in_order` is an insertion at `insert_position`; every element behind
/// that position is one that `x` precedes, and the one in front of it is not.
pub proof fn lemma_insert_position<T>(s: Seq<T>, x: T, before: spec_fn(T, T) -> bool)
    ensures
        0 <= insert_position(s, x, before) <= s.len(),
        insert_in_order(s, x, before) == s.insert(insert_position(s, x, before), x),
        forall|i: int|
            insert_position(s, x, before) <= i < s.len() ==> #[trigger] before(x, s[i]),
        insert_position(s, x, before) > 0 ==> !before(x, s[insert_position(s, x, before) - 1]),
    decreases s.len(),
{
    if s.len() > 0 && before(x, s.last()) {
        lemma_insert_position(s.drop_last(), x, before);
        let p = insert_position(s, x, before);
        assert(insert_in_order(s, x, before) =~= s.insert(p, x));
        assert forall|i: int| p <= i < s.len() implies #[trigger] before(x, s[i]) by {
            if i < s.len() - 1 {
                assert(s.drop_last()[i] == s[i]);
            }
        }
    } else if s.len() > 0 {
        assert(insert_in_order(s, x, before) =~= s.insert(s.len() as int, x));
    } else {
        assert(insert_in_order(s, x, before) =~= s.insert(0, x));
    }
}

/// An insertion point fixed by the precedence alone: behind it only
/// elements that `x` precedes, in front of it one that `x` does not.
proof fn lemma_insert_at<T>(s: Seq<T>, x: T, before: spec_fn(T, T) -> bool, j: int)
    requires
        0 <= j <= s.len(),
        forall|i: int| j <= i < s.len() ==> #[trigger] before(x, s[i]),
        j > 0 ==> !before(x, s[j - 1]),
    ensures
        insert_in_order(s, x, before) == s.insert(j, x),
    decreases s.len(),
{
    if j < s.len() {
        assert(before(x, s[s.len() - 1]));
        lemma_insert_at(s.drop_last(), x, before, j);
        assert(insert_in_order(s, x, before) =~= s.insert(j, x));
    } else if s.len() > 0 {
        assert(insert_in_order(s, x, before) =~= s.insert(j, x));
    } else {
        assert(insert_in_order(s, x, before) =~= s.insert(j, x));
    }
}

proof fn lemma_sort_step<T>(s: Seq<T>, k: int, before: spec_fn(T, T) -> bool)
    requires
        0 <= k < s.len(),
    ensures
        stable_sort(s.take(k + 1), before) == insert_in_order(
            stable_sort(s.take(k), before),
            s[k],
            before,
        ),
{
    assert(s.take(k + 1).drop_last() =~= s.take(k));
}

/// Stable sort of key/value pairs, larger keys first.
pub fn sort_by_key_desc<T>(items: Vec<(i64, T)>) -> (r: Vec<(i64, T)>)
    ensures
        r@ == stable_sort(items@, larger_key_first::<T>()),
{
    let ghost orig = items@;
    let mut input = items;
    let mut out: Vec<(i64, T)> = Vec::new();
    let ghost mut k: int = 0;
    assert(orig.take(0) =~= Seq::<(i64, T)>::empty());
    while input.len() > 0
        invariant
            0 <= k <= orig.len(),
            input@ == orig.skip(k),
            out@ == stable_sort(orig.take(k), larger_key_first::<T>()),
        decreases input.len(),
    {
        let x = input.remove(0);
        assert(x == orig[k]);
        let mut j = out.len();
        while j > 0 && x.0 > out[j - 1].0
            invariant
                j <= out.len(),
                forall|i: int| j <= i < out.len() ==> x.0 > #[trigger] out@[i].0,
            decreases j,
        {
            j = j - 1;
        }
        proof {
            let before = larger_key_first::<T>();
            assert forall|i: int| j <= i < out@.len() implies #[trigger] before(x, out@[i]) by {}
            lemma_insert_at(out@, x, before, j as int);
            lemma_sort_step(orig, k, before);
            assert(input@ =~= orig.skip(k + 1));
        }
        out.insert(j, x);
        proof {
            k = k + 1;
        }
    }
    assert(orig.take(k) =~= orig);
    out
}

/// Decides `text_less` on two character vectors.
pub fn is_text_less(a: &Vec<char>, b: &Vec<char>) -> (r: bool)
    ensures
        r == text_less(a@, b@),
{
    let mut i: usize = 0;
    assert(a@.skip(0) =~= a@ && b@.skip(0) =~= b@);
    while i < a.len() && i < b.len() && a[i] == b[i]
        invariant
            i <= a.len(),
            i <= b.len(),
            text_less(a@, b@) == text_less(a@.skip(i as int), b@.skip(i as int)),
        decreases a.len() - i,
    {
        proof {
            let sa = a@.skip(i as int);
            let sb = b@.skip(i as int);
            assert(sa.drop_first() =~= a@.skip(i + 1));
            assert(sb.drop_first() =~= b@.skip(i + 1));
        }
        i = i + 1;
    }
    proof {
        if i < a.len() && i < b.len() {
            assert(a@.skip(i as int)[0] == a@[i as int]);
            assert(b@.skip(i as int)[0] == b@[i as int]);
        }
    }
    if i == b.len() {
        false
    } else if i == a.len() {
        true
    } else {
        a[i] < b[i]
    }
}

/// Stable sort of text-keyed pairs, in increasing lexicographic order of the keys.
pub fn sort_by_text_asc<T>(items: Vec<(Vec<char>, T)>) -> (r: Vec<(Vec<char>, T)>)
    ensures
        r@ == stable_sort(items@, smaller_text_first::<T>()),
{
    let ghost orig = items@;
    let mut input = items;
    let mut out: Vec<(Vec<char>, T)> = Vec::new();
    let ghost mut k: int = 0;
    assert(orig.take(0) =~= Seq::<(Vec<char>, T)>::empty());
    while input.len() > 0
        invariant
            0 <= k <= orig.len(),
            input@ == orig.skip(k),
            out@ == stable_sort(orig.take(k), smaller_text_first::<T>()),
        decreases input.len(),
    {
        let x = input.remove(0);
        assert(x == orig[k]);
        let mut j = out.len();
        while j > 0 && is_text_less(&x.0, &out[j - 1].0)
            invariant
                j <= out.len(),
                forall|i: int| j <= i < out.len() ==> text_less(x.0@, #[trigger] out@[i].0@),
            decreases j,
        {
            j = j - 1;
        }
        proof {
            let before = smaller_text_first::<T>();
            assert forall|i: int| j <= i < out@.len() implies #[trigger] before(x, out@[i]) by {}
            lemma_insert_at(out@, x, before, j as int);
            lemma_sort_step(orig, k, before);
            assert(input@ =~= orig.skip(k + 1));
        }
        out.insert(j, x);
        proof {
            k = k + 1;
        }
    }
    assert(orig.take(k) =~= orig);
    out
}


/// `before` is a strict weak order: irreflexive, transitive, and its
/// incomparability is transitive too.
pub open spec fn is_strict_weak_order<T>(before: spec_fn(T, T) -> bool) -> bool {
    &&& forall|a: T| !#[trigger] before(a, a)
    &&& forall|a: T, b: T, c: T|
        #![trigger before(a, b), before(b, c)]
        before(a, b) && before(b, c) ==> before(a, c)
    &&& forall|a: T, b: T, c: T|
        #![trigger before(a, b), before(b, c)]
        #![trigger before(a, b), before(a, c)]
        #![trigger before(b, c), before(a, c)]
        !before(a, b) && !before(b, c) ==> !before(a, c)
}

/// Neither of `a` and `b` precedes the other.
pub open spec fn tied<T>(before: spec_fn(T, T) -> bool, a: T, b: T) -> bool {
    !before(a, b) && !before(b, a)
}

/// The elements tied with `x`.
pub open spec fn tied_with<T>(before: spec_fn(T, T) -> bool, x: T) -> spec_fn(T) -> bool {
    |y: T| tied(before, x, y)
}

/// No element is preceded by one that stands behind it.
pub open spec fn is_sorted_by<T>(s: Seq<T>, before: spec_fn(T, T) -> bool) -> bool {
    forall|i: int, j: int| 0 <= i < j < s.len() ==> !before(#[trigger] s[j], #[trigger] s[i])
}

proof fn lemma_insert_keeps_sorted<T>(s: Seq<T>, x: T, before: spec_fn(T, T) -> bool)
    requires
        is_strict_weak_order(before),
        is_sorted_by(s, before),
    ensures
        is_sorted_by(insert_in_order(s, x, before), before),
{
    lemma_insert_position(s, x, before);
    let p = insert_position(s, x, before);
    let o = s.insert(p, x);
    assert forall|i: int, j: int| 0 <= i < j < o.len() implies !before(#[trigger] o[j], #[trigger] o[i]) by {
        if i < p && j < p {
            assert(o[i] == s[i] && o[j] == s[j]);
        } else if i < p && j == p {
            assert(o[i] == s[i] && o[j] == x);
            if i < p - 1 {
                assert(!before(s[p - 1], s[i]));
                assert(!before(x, s[p - 1]));
                assert(!before(x, s[i]));
            }
        } else if i < p {
            assert(o[i] == s[i] && o[j] == s[j - 1]);
        } else if i == p {
            assert(o[i] == x && o[j] == s[j - 1]);
            assert(before(x, s[j - 1]));
            if before(s[j - 1], x) {
                assert(before(x, x));
            }
        } else {
            assert(o[i] == s[i - 1] && o[j] == s[j - 1]);
        }
    }
}

/// Law: a stable sort is sorted.
pub proof fn lemma_stable_sort_sorted<T>(s: Seq<T>, before: spec_fn(T, T) -> bool)
    requires
        is_strict_weak_order(before),
    ensures
        is_sorted_by(stable_sort(s, before), before),
    decreases s.len(),
{
    if s.len() > 0 {
        lemma_stable_sort_sorted(s.drop_last(), before);
        lemma_insert_keeps_sorted(stable_sort(s.drop_last(), before), s.last(), before);
    }
}

/// Law: a stable sort holds exactly the elements of its input, each as often.
pub proof fn lemma_stable_sort_permutes<T>(s: Seq<T>, before: spec_fn(T, T) -> bool)
    ensures
        stable_sort(s, before).to_multiset() == s.to_multiset(),
    decreases s.len(),
{
    broadcast use vstd::seq_lib::group_to_multiset_ensures;

    if s.len() > 0 {
        lemma_stable_sort_permutes(s.drop_last(), before);
        let r = stable_sort(s.drop_last(), before);
        lemma_insert_position(r, s.last(), before);
        vstd::seq_lib::to_multiset_insert(r, insert_position(r, s.last(), before), s.last());
        assert(s =~= s.drop_last().push(s.last()));
        vstd::seq_lib::to_multiset_build(s.drop_last(), s.last());
    }
}

proof fn lemma_filter_singleton<T>(x: T, pred: spec_fn(T) -> bool)
    ensures
        seq![x].filter(pred) == (if pred(x) { seq![x] } else { Seq::<T>::empty() }),
{
    reveal(Seq::filter);
    assert(seq![x].drop_last() =~= Seq::<T>::empty());
    assert(Seq::<T>::empty().filter(pred) =~= Seq::<T>::empty());
    assert(Seq::<T>::empty().push(x) =~= seq![x]);
}

proof fn lemma_insert_keeps_ties<T>(s: Seq<T>, x: T, before: spec_fn(T, T) -> bool, x0: T)
    requires
        is_strict_weak_order(before),
    ensures
        insert_in_order(s, x, before).filter(tied_with(before, x0)) == s.push(x).filter(
            tied_with(before, x0),
        ),
{
    let pred = tied_with(before, x0);
    lemma_insert_position(s, x, before);
    let p = insert_position(s, x, before);
    let front = s.take(p);
    let back = s.skip(p);
    assert(s =~= front + back);
    assert(s.insert(p, x) =~= front + seq![x] + back);
    Seq::filter_distributes_over_add(front, back, pred);
    Seq::filter_distributes_over_add(front + seq![x], back, pred);
    Seq::filter_distributes_over_add(front, seq![x], pred);
    lemma_filter_singleton(x, pred);
    s.lemma_filter_push(x, pred);
    if pred(x) {
        assert forall|i: int| 0 <= i < back.len() implies !pred(#[trigger] back[i]) by {
            assert(back[i] == s[p + i]);
            assert(before(x, s[p + i]));
            if pred(back[i]) {
                assert(!before(x, x0) && !before(x0, back[i]));
                assert(!before(x, back[i]));
            }
        }
        back.lemma_all_neg_filter_empty(pred);
        assert(back.filter(pred) =~= Seq::<T>::empty());
        assert(front.filter(pred) + seq![x] + back.filter(pred) =~= (front.filter(pred)
            + back.filter(pred)).push(x));
    } else {
        assert(front.filter(pred) + Seq::<T>::empty() =~= front.filter(pred));
    }
}

/// Law: a stable sort keeps tied elements in the order of its input: the
/// elements tied with any `x` come out as the same sequence as they went in.
pub proof fn lemma_stable_sort_stable<T>(s: Seq<T>, before: spec_fn(T, T) -> bool, x: T)
    requires
        is_strict_weak_order(before),
    ensures
        stable_sort(s, before).filter(tied_with(before, x)) == s.filter(tied_with(before, x)),
    decreases s.len(),
{
    if s.len() > 0 {
        lemma_stable_sort_stable(s.drop_last(), before, x);
        let r = stable_sort(s.drop_last(), before);
        lemma_insert_keeps_ties(r, s.last(), before, x);
        r.lemma_filter_push(s.last(), tied_with(before, x));
        s.drop_last().lemma_filter_push(s.last(), tied_with(before, x));
        assert(s =~= s.drop_last().push(s.last()));
    }
}

/// `text_less` never holds of a text and itself.
pub proof fn lemma_text_less_irreflexive(a: Seq<char>)
    ensures
        !text_less(a, a),
    decreases a.len(),
{
    if a.len() > 0 {
        lemma_text_less_irreflexive(a.drop_first());
    }
}

/// `text_less` is transitive.
pub proof fn lemma_text_less_transitive(a: Seq<char>, b: Seq<char>, c: Seq<char>)
    requires
        text_less(a, b),
        text_less(b, c),
    ensures
        text_less(a, c),
    decreases a.len(),
{
    if a.len() > 0 && b.len() > 0 && c.len() > 0 {
        if a[0] == b[0] && b[0] == c[0] {
            lemma_text_less_transitive(a.drop_first(), b.drop_first(), c.drop_first());
        }
    }
}

/// Of two different texts, one is `text_less` than the other.
pub proof fn lemma_text_less_total(a: Seq<char>, b: Seq<char>)
    requires
        a != b,
    ensures
        text_less(a, b) || text_less(b, a),
    decreases a.len(),
{
    if a.len() > 0 && b.len() > 0 && a[0] == b[0] {
        if a.drop_first() == b.drop_first() {
            assert(a =~= seq![a[0]] + a.drop_first());
            assert(b =~= seq![b[0]] + b.drop_first());
        }
        lemma_text_less_total(a.drop_first(), b.drop_first());
    } else if a.len() == 0 && b.len() == 0 {
        assert(a =~= b);
    } else if a.len() > 0 && b.len() > 0 {
        assert((a[0] as int) != (b[0] as int));
    }
}

/// Ordering by a text key, in increasing lexicographic order, is a strict weak order.
pub proof fn lemma_text_key_order<T>(key: spec_fn(T) -> Seq<char>)
    ensures
        is_strict_weak_order(|a: T, b: T| text_less(key(a), key(b))),
{
    let before = |a: T, b: T| text_less(key(a), key(b));
    assert forall|a: T| !#[trigger] before(a, a) by {
        lemma_text_less_irreflexive(key(a));
    }
    assert forall|a: T, b: T, c: T|
        #![trigger before(a, b), before(b, c)]
        before(a, b) && before(b, c) implies before(a, c) by {
        lemma_text_less_transitive(key(a), key(b), key(c));
    }
    assert forall|a: T, b: T, c: T|
        #![trigger before(a, b), before(b, c)]
        !before(a, b) && !before(b, c) implies !before(a, c) by {
        let (ka, kb, kc) = (key(a), key(b), key(c));
        if text_less(ka, kc) {
            if ka != kb {
                lemma_text_less_total(ka, kb);
            }
            if kb != kc {
                lemma_text_less_total(kb, kc);
            }
            if ka == kb {
                if kb != kc {
                    lemma_text_less_transitive(kc, kb, ka);
                    lemma_text_less_transitive(ka, kc, ka);
                    lemma_text_less_irreflexive(ka);
                } else {
                    lemma_text_less_irreflexive(ka);
                }
            } else if kb == kc {
                lemma_text_less_irreflexive(kc);
            } else {
                lemma_text_less_transitive(kc, kb, ka);
                lemma_text_less_transitive(ka, kc, ka);
                lemma_text_less_irreflexive(ka);
            }
        }
    }
}

/// A property held by every input element is held by every element of the sort.
pub proof fn lemma_stable_sort_preserves<T>(
    s: Seq<T>,
    before: spec_fn(T, T) -> bool,
    prop: spec_fn(T) -> bool,
)
    requires
        forall|i: int| 0 <= i < s.len() ==> #[trigger] prop(s[i]),
    ensures
        forall|i: int|
            0 <= i < stable_sort(s, before).len() ==> #[trigger] prop(stable_sort(s, before)[i]),
        stable_sort(s, before).len() == s.len(),
    decreases s.len(),
{
    if s.len() > 0 {
        assert forall|i: int| 0 <= i < s.drop_last().len() implies #[trigger] prop(
            s.drop_last()[i],
        ) by {
            assert(s.drop_last()[i] == s[i]);
        }
        lemma_stable_sort_preserves(s.drop_last(), before, prop);
        let r = stable_sort(s.drop_last(), before);
        lemma_insert_position(r, s.last(), before);
        let p = insert_position(r, s.last(), before);
        let o = r.insert(p, s.last());
        assert forall|i: int| 0 <= i < o.len() implies #[trigger] prop(o[i]) by {
            if i < p {
                assert(o[i] == r[i]);
            } else if i > p {
                assert(o[i] == r[i - 1]);
            }
        }
    }
}

/// Filters by predicates that agree on every element give the same result.
pub proof fn lemma_filter_agreeing<A>(a: Seq<A>, p: spec_fn(A) -> bool, q: spec_fn(A) -> bool)
    requires
        forall|i: int| 0 <= i < a.len() ==> p(#[trigger] a[i]) == q(a[i]),
    ensures
        a.filter(p) == a.filter(q),
    decreases a.len(),
{
    reveal(Seq::filter);
    if a.len() > 0 {
        assert forall|i: int| 0 <= i < a.drop_last().len() implies p(#[trigger] a.drop_last()[i])
            == q(a.drop_last()[i]) by {
            assert(a.drop_last()[i] == a[i]);
        }
        lemma_filter_agreeing(a.drop_last(), p, q);
        assert(p(a[a.len() - 1]) == q(a[a.len() - 1]));
    }
}


proof fn lemma_insert_map<A, B>(
    s: Seq<A>,
    x: A,
    p: spec_fn(A, A) -> bool,
    g: spec_fn(A) -> B,
    q: spec_fn(B, B) -> bool,
    ok: spec_fn(A) -> bool,
)
    requires
        ok(x),
        forall|i: int| 0 <= i < s.len() ==> #[trigger] ok(s[i]),
        forall|a: A, b: A| #![trigger p(a, b)] ok(a) && ok(b) ==> p(a, b) == q(g(a), g(b)),
    ensures
        insert_in_order(s, x, p).map_values(g) == insert_in_order(s.map_values(g), g(x), q),
    decreases s.len(),
{
    if s.len() == 0 {
        assert(insert_in_order(s, x, p).map_values(g) =~= seq![g(x)]);
    } else {
        assert(ok(s.last()));
        assert(p(x, s.last()) == q(g(x), g(s.last())));
        assert(s.map_values(g).last() == g(s.last()));
        assert(s.map_values(g).drop_last() =~= s.drop_last().map_values(g));
        if p(x, s.last()) {
            assert forall|i: int| 0 <= i < s.drop_last().len() implies #[trigger] ok(
                s.drop_last()[i],
            ) by {
                assert(s.drop_last()[i] == s[i]);
            }
            lemma_insert_map(s.drop_last(), x, p, g, q, ok);
            assert(insert_in_order(s, x, p).map_values(g) =~= insert_in_order(
                s.drop_last(),
                x,
                p,
            ).map_values(g).push(g(s.last())));
        } else {
            assert(insert_in_order(s, x, p).map_values(g) =~= s.map_values(g).push(g(x)));
        }
    }
}

/// Sorting and then mapping is mapping and then sorting, when the two
/// precedences agree through the map on the elements.
pub proof fn lemma_stable_sort_map<A, B>(
    s: Seq<A>,
    p: spec_fn(A, A) -> bool,
    g: spec_fn(A) -> B,
    q: spec_fn(B, B) -> bool,
    ok: spec_fn(A) -> bool,
)
    requires
        forall|i: int| 0 <= i < s.len() ==> #[trigger] ok(s[i]),
        forall|a: A, b: A| #![trigger p(a, b)] ok(a) && ok(b) ==> p(a, b) == q(g(a), g(b)),
    ensures
        stable_sort(s, p).map_values(g) == stable_sort(s.map_values(g), q),
    decreases s.len(),
{
    if s.len() == 0 {
        assert(stable_sort(s, p).map_values(g) =~= stable_sort(s.map_values(g), q));
    } else {
        assert forall|i: int| 0 <= i < s.drop_last().len() implies #[trigger] ok(s.drop_last()[i]) by {
            assert(s.drop_last()[i] == s[i]);
        }
        lemma_stable_sort_map(s.drop_last(), p, g, q, ok);
        lemma_stable_sort_preserves(s.drop_last(), p, ok);
        assert(ok(s.last()));
        lemma_insert_map(stable_sort(s.drop_last(), p), s.last(), p, g, q, ok);
        assert(s.map_values(g).drop_last() =~= s.drop_last().map_values(g));
    }
}


/// The values of key/value pairs, in order.
pub fn strip_keys<K, T>(items: Vec<(K, T)>) -> (r: Vec<T>)
    ensures
        r@ == items@.map_values(|p: (K, T)| p.1),
{
    let ghost orig = items@;
    let mut rest = items;
    let mut out: Vec<T> = Vec::new();
    let ghost mut m: int = 0;
    while rest.len() > 0
        invariant
            0 <= m <= orig.len(),
            rest@ == orig.skip(m),
            out@ == orig.take(m).map_values(|p: (K, T)| p.1),
        decreases rest.len(),
    {
        let pair = rest.remove(0);
        assert(pair == orig[m]);
        out.push(pair.1);
        proof {
            assert(orig.take(m + 1).map_values(|p: (K, T)| p.1) =~= orig.take(m).map_values(
                |p: (K, T)| p.1,
            ).push(pair.1));
            assert(rest@ =~= orig.skip(m + 1));
            m = m + 1;
        }
    }
    assert(orig.take(m) =~= orig);
    out
}


/// Filtering a mapped sequence is mapping the filtered one.
pub proof fn lemma_filter_map_values<A, B>(a: Seq<A>, f: spec_fn(A) -> B, pred: spec_fn(B) -> bool)
    ensures
        a.map_values(f).filter(pred) == a.filter(|x: A| pred(f(x))).map_values(f),
    decreases a.len(),
{
    reveal(Seq::filter);
    if a.len() > 0 {
        lemma_filter_map_values(a.drop_last(), f, pred);
        assert(a.map_values(f).drop_last() =~= a.drop_last().map_values(f));
        let rest = a.drop_last().filter(|x: A| pred(f(x)));
        assert(rest.push(a.last()).map_values(f) =~= rest.map_values(f).push(f(a.last())));
    } else {
        assert(a.map_values(f) =~= Seq::<B>::empty());
        assert(a.filter(|x: A| pred(f(x))).map_values(f) =~= Seq::<B>::empty());
    }
}

/// A filter that keeps every element gives the sequence back.
pub proof fn lemma_filter_keeps_all<A>(a: Seq<A>, pred: spec_fn(A) -> bool)
    requires
        forall|i: int| 0 <= i < a.len() ==> #[trigger] pred(a[i]),
    ensures
        a.filter(pred) == a,
    decreases a.len(),
{
    reveal(Seq::filter);
    if a.len() > 0 {
        assert forall|i: int| 0 <= i < a.drop_last().len() implies #[trigger] pred(a.drop_last()[i]) by {
            assert(a.drop_last()[i] == a[i]);
        }
        lemma_filter_keeps_all(a.drop_last(), pred);
        assert(pred(a[a.len() - 1]));
        assert(a.drop_last().push(a.last()) =~= a);
    }
}

/// A sorted sequence is its own stable sort.
pub proof fn lemma_sorted_is_fixed<T>(s: Seq<T>, before: spec_fn(T, T) -> bool)
    requires
        is_sorted_by(s, before),
    ensures
        stable_sort(s, before) == s,
    decreases s.len(),
{
    if s.len() > 0 {
        let init = s.drop_last();
        assert forall|i: int, j: int| 0 <= i < j < init.len() implies !before(
            #[trigger] init[j],
            #[trigger] init[i],
        ) by {
            assert(init[i] == s[i] && init[j] == s[j]);
        }
        lemma_sorted_is_fixed(init, before);
        if init.len() > 0 {
            assert(!before(s[s.len() - 1], s[s.len() - 2]));
            assert(init.last() == s[s.len() - 2]);
        }
        assert(init.push(s.last()) =~= s);
        if init.len() == 0 {
            assert(seq![s.last()] =~= s);
        }
    }
}

/// How often `f(y)` occurs among the images of `a` is how often `y` occurs
/// in `a`, when only `y` itself has that image.
pub proof fn lemma_map_count<A, B>(a: Seq<A>, f: spec_fn(A) -> B, y: A)
    requires
        forall|i: int| 0 <= i < a.len() && f(a[i]) == f(y) ==> #[trigger] a[i] == y,
    ensures
        a.map_values(f).to_multiset().count(f(y)) == a.to_multiset().count(y),
    decreases a.len(),
{
    broadcast use vstd::seq_lib::group_to_multiset_ensures;
    broadcast use vstd::multiset::group_multiset_axioms;

    if a.len() > 0 {
        let init = a.drop_last();
        assert forall|i: int| 0 <= i < init.len() && f(init[i]) == f(y) implies #[trigger] init[i]
            == y by {
            assert(init[i] == a[i]);
        }
        lemma_map_count(init, f, y);
        assert(init.push(a.last()) =~= a);
        assert(init.map_values(f).push(f(a.last())) =~= a.map_values(f));
        vstd::seq_lib::to_multiset_build(init, a.last());
        vstd::seq_lib::to_multiset_build(init.map_values(f), f(a.last()));
        if f(a.last()) == f(y) {
            assert(a[a.len() - 1] == y);
        }
    } else {
        assert(a.map_values(f) =~= Seq::<B>::empty());
    }
}

/// How often `e` occurs in a filtered sequence: as often as in the
/// sequence if the filter keeps it, else never.
pub proof fn lemma_filter_count<A>(a: Seq<A>, pred: spec_fn(A) -> bool, e: A)
    ensures
        a.filter(pred).to_multiset().count(e) == if pred(e) {
            a.to_multiset().count(e)
        } else {
            0
        },
    decreases a.len(),
{
    broadcast use vstd::seq_lib::group_to_multiset_ensures;
    broadcast use vstd::multiset::group_multiset_axioms;

    reveal(Seq::filter);
    if a.len() > 0 {
        let init = a.drop_last();
        lemma_filter_count(init, pred, e);
        assert(init.push(a.last()) =~= a);
        init.lemma_filter_push(a.last(), pred);
        vstd::seq_lib::to_multiset_build(init, a.last());
        vstd::seq_lib::to_multiset_build(init.filter(pred), a.last());
    } else {
        assert(a.filter(pred) =~= a);
    }
}
} // verus!
