//! Stable orderings: by a number attached to each item, and by the text of each item.
//! An ordering is given as the sequence of original positions in their new order.

use vstd::prelude::*;

verus! {

/// Position `a` comes before position `b` when sorting stably by `keys`: a smaller key first,
/// and among equal keys the earlier position first.
pub open spec fn number_before(keys: Seq<usize>, a: int, b: int) -> bool {
    keys[a] < keys[b] || (keys[a] == keys[b] && a < b)
}

/// `order` lists every position of `keys` once, in the order of a stable sort by key.
pub open spec fn is_stable_number_order(keys: Seq<usize>, order: Seq<usize>) -> bool {
    &&& order.len() == keys.len()
    &&& forall|k: int| 0 <= k < order.len() ==> #[trigger] order[k] < keys.len()
    &&& forall|x: usize| x < keys.len() ==> #[trigger] order.contains(x)
    &&& forall|a: int, b: int|
        0 <= a < b < order.len() ==> number_before(keys, #[trigger] order[a] as int, #[trigger] order[b] as int)
}

/// The positions of `keys` in the order of a stable sort by key (`sort_by` on the keys).
pub fn stable_number_order(keys: &Vec<usize>) -> (order: Vec<usize>)
    ensures
        is_stable_number_order(keys@, order@),
{
    let n = keys.len();
    let mut order: Vec<usize> = Vec::new();
    for i in 0..n
        invariant
            n == keys@.len(),
            order@.len() == i,
            forall|k: int| 0 <= k < order@.len() ==> #[trigger] order@[k] < i,
            forall|x: usize| x < i ==> #[trigger] order@.contains(x),
            forall|a: int, b: int|
                0 <= a < b < order@.len() ==> number_before(
                    keys@,
                    #[trigger] order@[a] as int,
                    #[trigger] order@[b] as int,
                ),
    {
        let key = keys[i];
        let len = order.len();
        let mut p: usize = 0;
        while p < len && keys[order[p]] <= key
            invariant
                len == order@.len(),
                n == keys@.len(),
                p <= len,
                forall|k: int| 0 <= k < order@.len() ==> #[trigger] order@[k] < i,
                i < n,
                key == keys@[i as int],
                forall|q: int| 0 <= q < p ==> keys@[#[trigger] order@[q] as int] <= key,
            decreases len - p,
        {
            p = p + 1;
        }
        let ghost old_order = order@;
        order.insert(p, i);
        proof {
            old_order.insert_ensures(p as int, i);
            assert forall|q: int| p <= q < old_order.len() implies key < keys@[#[trigger] old_order[q] as int] by {
                if q > p {
                    assert(number_before(keys@, old_order[p as int] as int, old_order[q] as int));
                }
            }
            assert forall|k: int| 0 <= k < order@.len() implies #[trigger] order@[k] < i + 1 by {
                if k < p {
                } else if k > p {
                    assert(order@[k] == old_order[k - 1]);
                }
            }
            assert forall|x: usize| x < i + 1 implies #[trigger] order@.contains(x) by {
                if x == i {
                    assert(order@[p as int] == i);
                } else {
                    assert(old_order.contains(x));
                    let q = choose|q: int| 0 <= q < old_order.len() && old_order[q] == x;
                    if q < p {
                        assert(order@[q] == x);
                    } else {
                        assert(order@[q + 1] == x);
                    }
                }
            }
            assert forall|a: int, b: int| 0 <= a < b < order@.len() implies number_before(
                keys@,
                #[trigger] order@[a] as int,
                #[trigger] order@[b] as int,
            ) by {
                if b < p {
                } else if b == p {
                } else if a < p {
                    assert(order@[b] == old_order[b - 1]);
                } else if a == p {
                    assert(order@[b] == old_order[b - 1]);
                } else {
                    assert(order@[a] == old_order[a - 1]);
                    assert(order@[b] == old_order[b - 1]);
                }
            }
        }
    }
    order
}

proof fn lemma_number_orders_agree_at(keys: Seq<usize>, o1: Seq<usize>, o2: Seq<usize>, k: int)
    requires
        is_stable_number_order(keys, o1),
        is_stable_number_order(keys, o2),
        0 <= k < o1.len(),
        forall|j: int| 0 <= j < k ==> o1[j] == o2[j],
    ensures
        o1[k] == o2[k],
{
    let a = o1[k];
    let b = o2[k];
    if a != b {
        assert(o2.contains(a));
        let m = choose|m: int| 0 <= m < o2.len() && o2[m] == a;
        if m < k {
            assert(o1[m] == a);
            assert(number_before(keys, o1[m] as int, o1[k] as int));
        }
        assert(number_before(keys, o2[k] as int, o2[m] as int));
        assert(o1.contains(b));
        let m2 = choose|m2: int| 0 <= m2 < o1.len() && o1[m2] == b;
        if m2 < k {
            assert(o2[m2] == b);
            assert(number_before(keys, o2[m2] as int, o2[k] as int));
        }
        assert(number_before(keys, o1[k] as int, o1[m2] as int));
    }
}

proof fn lemma_number_orders_agree_below(keys: Seq<usize>, o1: Seq<usize>, o2: Seq<usize>, k: int)
    requires
        is_stable_number_order(keys, o1),
        is_stable_number_order(keys, o2),
        0 <= k <= o1.len(),
    ensures
        forall|j: int| 0 <= j < k ==> o1[j] == o2[j],
    decreases k,
{
    if k > 0 {
        lemma_number_orders_agree_below(keys, o1, o2, k - 1);
        lemma_number_orders_agree_at(keys, o1, o2, k - 1);
    }
}

/// A stable order by number is unique: two orders that both sort `keys` stably are equal.
pub proof fn lemma_stable_number_order_unique(keys: Seq<usize>, o1: Seq<usize>, o2: Seq<usize>)
    requires
        is_stable_number_order(keys, o1),
        is_stable_number_order(keys, o2),
    ensures
        o1 == o2,
{
    lemma_number_orders_agree_below(keys, o1, o2, o1.len() as int);
    assert(o1 =~= o2);
}

/// `a` comes strictly before `b` in lexicographic order of characters. For `String`s this is
/// the order of `<` on `String`, which compares UTF-8 bytes: the UTF-8 encoding keeps the
/// order of code points.
pub open spec fn text_lt(a: Seq<char>, b: Seq<char>) -> bool
    decreases a.len(),
{
    if a.len() == 0 {
        b.len() > 0
    } else if b.len() == 0 {
        false
    } else if a[0] != b[0] {
        a[0] < b[0]
    } else {
        text_lt(a.drop_first(), b.drop_first())
    }
}

/// Where two texts first differ: they agree on their first `i` characters, and then either
/// `a` ends while `b` goes on, or `a`'s next character has the smaller code point.
pub open spec fn differs_first_at(a: Seq<char>, b: Seq<char>, i: int) -> bool {
    &&& 0 <= i <= a.len()
    &&& i <= b.len()
    &&& a.take(i) == b.take(i)
    &&& ((i == a.len() && i < b.len()) || (i < a.len() && i < b.len() && (a[i] as int) < (
    b[i] as int)))
}

/// The text order is the order of `String`'s `<`: `a` comes before `b` exactly when `a` is a
/// proper prefix of `b`, or at the first position where they differ `a`'s character has the
/// smaller code point (UTF-8 keeps code-point order, so this is also the order of the bytes).
pub proof fn lemma_text_lt_is_code_point_order(a: Seq<char>, b: Seq<char>)
    ensures
        text_lt(a, b) <==> exists|i: int| differs_first_at(a, b, i),
    decreases a.len(),
{
    if a.len() == 0 || b.len() == 0 || a[0] != b[0] {
        if text_lt(a, b) {
            assert(a.take(0) =~= b.take(0));
            assert(differs_first_at(a, b, 0));
        }
        if exists|i: int| differs_first_at(a, b, i) {
            let i = choose|i: int| differs_first_at(a, b, i);
            if i > 0 {
                assert(a.take(i)[0] == b.take(i)[0]);
            }
        }
    } else {
        let a1 = a.drop_first();
        let b1 = b.drop_first();
        lemma_text_lt_is_code_point_order(a1, b1);
        if text_lt(a, b) {
            let j = choose|j: int| differs_first_at(a1, b1, j);
            assert(a.take(j + 1) =~= seq![a[0]] + a1.take(j));
            assert(b.take(j + 1) =~= seq![b[0]] + b1.take(j));
            assert(differs_first_at(a, b, j + 1));
        }
        if exists|i: int| differs_first_at(a, b, i) {
            let i = choose|i: int| differs_first_at(a, b, i);
            assert(i > 0) by {
                if i == 0 {
                    assert(a[0] == b[0]);
                }
            }
            assert(a1.take(i - 1) =~= a.take(i).drop_first());
            assert(b1.take(i - 1) =~= b.take(i).drop_first());
            assert(differs_first_at(a1, b1, i - 1));
        }
    }
}

/// After a common prefix, the comparison is decided by what follows it.
pub proof fn lemma_text_lt_skip(a: Seq<char>, b: Seq<char>, i: int)
    requires
        0 <= i <= a.len(),
        i <= b.len(),
        forall|j: int| 0 <= j < i ==> a[j] == b[j],
    ensures
        text_lt(a, b) == text_lt(a.skip(i), b.skip(i)),
    decreases i,
{
    if i > 0 {
        lemma_text_lt_skip(a, b, i - 1);
        assert(a.skip(i - 1)[0] == b.skip(i - 1)[0]);
        assert(a.skip(i - 1).drop_first() =~= a.skip(i));
        assert(b.skip(i - 1).drop_first() =~= b.skip(i));
    } else {
        assert(a.skip(0) =~= a);
        assert(b.skip(0) =~= b);
    }
}

/// No text comes before itself.
pub proof fn lemma_text_lt_irreflexive(a: Seq<char>)
    ensures
        !text_lt(a, a),
    decreases a.len(),
{
    if a.len() > 0 {
        lemma_text_lt_irreflexive(a.drop_first());
    }
}

/// The text order is transitive.
pub proof fn lemma_text_lt_transitive(a: Seq<char>, b: Seq<char>, c: Seq<char>)
    requires
        text_lt(a, b),
        text_lt(b, c),
    ensures
        text_lt(a, c),
    decreases a.len(),
{
    if a.len() > 0 && b.len() > 0 && c.len() > 0 && a[0] == b[0] && b[0] == c[0] {
        lemma_text_lt_transitive(a.drop_first(), b.drop_first(), c.drop_first());
    }
}

/// Two different texts are ordered one way or the other.
pub proof fn lemma_text_lt_total(a: Seq<char>, b: Seq<char>)
    ensures
        a == b || text_lt(a, b) || text_lt(b, a),
    decreases a.len(),
{
    if a.len() > 0 && b.len() > 0 && a[0] == b[0] {
        lemma_text_lt_total(a.drop_first(), b.drop_first());
        if a.drop_first() == b.drop_first() {
            assert(a =~= seq![a[0]] + a.drop_first());
            assert(b =~= seq![b[0]] + b.drop_first());
        }
    } else if a.len() == 0 && b.len() == 0 {
        assert(a =~= b);
    }
}

/// Whether `a` comes strictly before `b` in text order.
pub fn text_less(a: &Vec<char>, b: &Vec<char>) -> (r: bool)
    ensures
        r == text_lt(a@, b@),
{
    let la = a.len();
    let lb = b.len();
    let mut i: usize = 0;
    while i < la && i < lb && a[i] == b[i]
        invariant
            la == a@.len(),
            lb == b@.len(),
            i <= la,
            i <= lb,
            forall|j: int| 0 <= j < i ==> a@[j] == b@[j],
        decreases la - i,
    {
        i = i + 1;
    }
    proof {
        lemma_text_lt_skip(a@, b@, i as int);
    }
    if i == la {
        i < lb
    } else if i == lb {
        false
    } else {
        assert(a@.skip(i as int)[0] == a@[i as int]);
        assert(b@.skip(i as int)[0] == b@[i as int]);
        a[i] < b[i]
    }
}

/// Position `a` comes before position `b` when sorting `texts` stably: the smaller text first,
/// and among equal texts the earlier position first.
pub open spec fn text_before(texts: Seq<Seq<char>>, a: int, b: int) -> bool {
    text_lt(texts[a], texts[b]) || (texts[a] == texts[b] && a < b)
}

/// `order` lists every position of `texts` once, in the order of a stable sort of the texts.
pub open spec fn is_stable_text_order(texts: Seq<Seq<char>>, order: Seq<usize>) -> bool {
    &&& order.len() == texts.len()
    &&& forall|k: int| 0 <= k < order.len() ==> #[trigger] order[k] < texts.len()
    &&& forall|x: usize| x < texts.len() ==> #[trigger] order.contains(x)
    &&& forall|a: int, b: int|
        0 <= a < b < order.len() ==> text_before(texts, #[trigger] order[a] as int, #[trigger] order[b] as int)
}

/// The texts of a vector of strings.
pub open spec fn texts_of(v: Seq<String>) -> Seq<Seq<char>> {
    v.map_values(|s: String| s@)
}

/// The texts of a vector with one more string.
pub proof fn lemma_texts_of_push(v: Seq<String>, s: String)
    ensures
        texts_of(v.push(s)) == texts_of(v).push(s@),
{
    assert(texts_of(v.push(s)) =~= texts_of(v).push(s@));
}

proof fn lemma_text_before_asymmetric(texts: Seq<Seq<char>>, a: int, b: int)
    ensures
        !(text_before(texts, a, b) && text_before(texts, b, a)),
{
    lemma_text_lt_irreflexive(texts[a]);
    if text_lt(texts[a], texts[b]) && text_lt(texts[b], texts[a]) {
        lemma_text_lt_transitive(texts[a], texts[b], texts[a]);
    }
}

/// The positions of `texts` in the order of a stable sort of the texts.
pub fn stable_text_order(texts: &Vec<String>) -> (order: Vec<usize>)
    ensures
        is_stable_text_order(texts_of(texts@), order@),
{
    let ghost t = texts_of(texts@);
    let n = texts.len();
    let mut chars: Vec<Vec<char>> = Vec::new();
    for i in 0..n
        invariant
            n == texts@.len(),
            t == texts_of(texts@),
            chars@.len() == i,
            forall|k: int| 0 <= k < i ==> (#[trigger] chars@[k])@ == t[k],
    {
        chars.push(crate::text::chars_of(texts[i].as_str()));
    }
    let mut order: Vec<usize> = Vec::new();
    for i in 0..n
        invariant
            n == t.len(),
            chars@.len() == n,
            forall|k: int| 0 <= k < n ==> (#[trigger] chars@[k])@ == t[k],
            order@.len() == i,
            forall|k: int| 0 <= k < order@.len() ==> #[trigger] order@[k] < i,
            forall|x: usize| x < i ==> #[trigger] order@.contains(x),
            forall|a: int, b: int|
                0 <= a < b < order@.len() ==> text_before(
                    t,
                    #[trigger] order@[a] as int,
                    #[trigger] order@[b] as int,
                ),
    {
        let key = &chars[i];
        let len = order.len();
        let mut p: usize = 0;
        while p < len && !text_less(key, &chars[order[p]])
            invariant
                len == order@.len(),
                n == t.len(),
                chars@.len() == n,
                forall|k: int| 0 <= k < n ==> (#[trigger] chars@[k])@ == t[k],
                p <= len,
                forall|k: int| 0 <= k < order@.len() ==> #[trigger] order@[k] < i,
                i < n,
                key@ == t[i as int],
                forall|q: int| 0 <= q < p ==> !text_lt(t[i as int], t[#[trigger] order@[q] as int]),
            decreases len - p,
        {
            p = p + 1;
        }
        let ghost old_order = order@;
        order.insert(p, i);
        proof {
            old_order.insert_ensures(p as int, i);
            assert forall|q: int| p <= q < old_order.len() implies text_lt(
                t[i as int],
                t[#[trigger] old_order[q] as int],
            ) by {
                if q > p {
                    let x = old_order[p as int] as int;
                    let y = old_order[q] as int;
                    assert(text_before(t, x, y));
                    if text_lt(t[x], t[y]) {
                        lemma_text_lt_transitive(t[i as int], t[x], t[y]);
                    }
                }
            }
            assert forall|q: int| 0 <= q < p implies text_before(
                t,
                #[trigger] old_order[q] as int,
                i as int,
            ) by {
                lemma_text_lt_total(t[i as int], t[old_order[q] as int]);
            }
            assert forall|k: int| 0 <= k < order@.len() implies #[trigger] order@[k] < i + 1 by {
                if k < p {
                } else if k > p {
                    assert(order@[k] == old_order[k - 1]);
                }
            }
            assert forall|x: usize| x < i + 1 implies #[trigger] order@.contains(x) by {
                if x == i {
                    assert(order@[p as int] == i);
                } else {
                    assert(old_order.contains(x));
                    let q = choose|q: int| 0 <= q < old_order.len() && old_order[q] == x;
                    if q < p {
                        assert(order@[q] == x);
                    } else {
                        assert(order@[q + 1] == x);
                    }
                }
            }
            assert forall|a: int, b: int| 0 <= a < b < order@.len() implies text_before(
                t,
                #[trigger] order@[a] as int,
                #[trigger] order@[b] as int,
            ) by {
                if b < p {
                } else if b == p {
                } else if a < p {
                    assert(order@[b] == old_order[b - 1]);
                    let x = order@[a] as int;
                    let y = order@[b] as int;
                    assert(text_before(t, x, i as int));
                    assert(text_lt(t[i as int], t[y]));
                    if text_lt(t[x], t[i as int]) {
                        lemma_text_lt_transitive(t[x], t[i as int], t[y]);
                    }
                } else if a == p {
                    assert(order@[b] == old_order[b - 1]);
                } else {
                    assert(order@[a] == old_order[a - 1]);
                    assert(order@[b] == old_order[b - 1]);
                }
            }
        }
    }
    order
}

proof fn lemma_text_orders_agree_at(t: Seq<Seq<char>>, o1: Seq<usize>, o2: Seq<usize>, k: int)
    requires
        is_stable_text_order(t, o1),
        is_stable_text_order(t, o2),
        0 <= k < o1.len(),
        forall|j: int| 0 <= j < k ==> o1[j] == o2[j],
    ensures
        o1[k] == o2[k],
{
    let a = o1[k];
    let b = o2[k];
    if a != b {
        assert(o2.contains(a));
        let m = choose|m: int| 0 <= m < o2.len() && o2[m] == a;
        if m < k {
            assert(o1[m] == a);
            assert(text_before(t, o1[m] as int, o1[k] as int));
            lemma_text_before_asymmetric(t, a as int, a as int);
        }
        assert(text_before(t, o2[k] as int, o2[m] as int));
        assert(o1.contains(b));
        let m2 = choose|m2: int| 0 <= m2 < o1.len() && o1[m2] == b;
        if m2 < k {
            assert(o2[m2] == b);
            assert(text_before(t, o2[m2] as int, o2[k] as int));
            lemma_text_before_asymmetric(t, b as int, b as int);
        }
        assert(text_before(t, o1[k] as int, o1[m2] as int));
        lemma_text_before_asymmetric(t, a as int, b as int);
    }
}

proof fn lemma_text_orders_agree_below(t: Seq<Seq<char>>, o1: Seq<usize>, o2: Seq<usize>, k: int)
    requires
        is_stable_text_order(t, o1),
        is_stable_text_order(t, o2),
        0 <= k <= o1.len(),
    ensures
        forall|j: int| 0 <= j < k ==> o1[j] == o2[j],
    decreases k,
{
    if k > 0 {
        lemma_text_orders_agree_below(t, o1, o2, k - 1);
        lemma_text_orders_agree_at(t, o1, o2, k - 1);
    }
}

/// A stable text order is unique: two orders that both sort `texts` stably are equal.
pub proof fn lemma_stable_text_order_unique(texts: Seq<Seq<char>>, o1: Seq<usize>, o2: Seq<usize>)
    requires
        is_stable_text_order(texts, o1),
        is_stable_text_order(texts, o2),
    ensures
        o1 == o2,
{
    lemma_text_orders_agree_below(texts, o1, o2, o1.len() as int);
    assert(o1 =~= o2);
}

/// The texts at the positions of `order`, in that order.
pub open spec fn arranged(t: Seq<Seq<char>>, order: Seq<usize>) -> Seq<Seq<char>> {
    order.map_values(|k: usize| t[k as int])
}

/// `sorted` holds the texts of `t` as a stable sort of them arranges them.
pub open spec fn is_text_sorting(t: Seq<Seq<char>>, sorted: Seq<Seq<char>>) -> bool {
    exists|order: Seq<usize>| is_stable_text_order(t, order) && sorted == arranged(t, order)
}

/// A text sorting is in ascending text order.
pub proof fn lemma_text_sorting_ascends(t: Seq<Seq<char>>, sorted: Seq<Seq<char>>)
    requires
        is_text_sorting(t, sorted),
    ensures
        sorted.len() == t.len(),
        forall|i: int, j: int| 0 <= i < j < sorted.len() ==> !text_lt(sorted[j], sorted[i]),
{
    let order = choose|order: Seq<usize>| is_stable_text_order(t, order) && sorted == arranged(t, order);
    assert forall|i: int, j: int| 0 <= i < j < sorted.len() implies !text_lt(sorted[j], sorted[i]) by {
        assert(text_before(t, order[i] as int, order[j] as int));
        lemma_text_lt_irreflexive(sorted[i]);
        if text_lt(sorted[j], sorted[i]) && text_lt(sorted[i], sorted[j]) {
            lemma_text_lt_transitive(sorted[i], sorted[j], sorted[i]);
        }
    }
}

/// The strings of `items` at the positions of `order`, in that order.
pub fn pick_in_order(items: &Vec<String>, order: &Vec<usize>) -> (r: Vec<String>)
    requires
        forall|k: int| 0 <= k < order@.len() ==> #[trigger] order@[k] < items@.len(),
    ensures
        texts_of(r@) == arranged(texts_of(items@), order@),
{
    let mut r: Vec<String> = Vec::new();
    let n = order.len();
    for k in 0..n
        invariant
            n == order@.len(),
            forall|k: int| 0 <= k < order@.len() ==> #[trigger] order@[k] < items@.len(),
            texts_of(r@) == arranged(texts_of(items@), order@).take(k as int),
    {
        let ghost before = r@;
        let item = items[order[k]].clone();
        r.push(item);
        assert(r@ == before.push(item));
        assert(item@ == texts_of(items@)[order@[k as int] as int]);
        assert(texts_of(r@) =~= texts_of(before).push(item@));
        assert(texts_of(r@) =~= arranged(texts_of(items@), order@).take(k + 1));
    }
    assert(arranged(texts_of(items@), order@).take(n as int) =~= arranged(texts_of(items@), order@));
    r
}

/// The strings of `texts` in ascending text order (`sort` on a `Vec<String>`).
pub fn sort_texts(texts: &Vec<String>) -> (sorted: Vec<String>)
    ensures
        is_text_sorting(texts_of(texts@), texts_of(sorted@)),
{
    let order = stable_text_order(texts);
    let sorted = pick_in_order(texts, &order);
    assert(is_stable_text_order(texts_of(texts@), order@) && texts_of(sorted@) == arranged(
        texts_of(texts@),
        order@,
    ));
    sorted
}

} // verus!
