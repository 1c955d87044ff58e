//! The order in which entries and results are listed, and a stable sort by it.
use vstd::prelude::*;

verus! {

/// What a listed item is placed by: a greater weight comes first, then a smaller rank, then the
/// name that is smaller by code points.
#[derive(Debug)]
pub struct RankKey {
    pub weight: i64,
    pub rank: u8,
    pub name: Vec<char>,
}

/// The model of a [`RankKey`].
#[verifier::ext_equal]
pub struct KeyView {
    pub weight: int,
    pub rank: int,
    pub name: Seq<char>,
}

impl View for RankKey {
    type V = KeyView;

    open spec fn view(&self) -> KeyView {
        KeyView { weight: self.weight as int, rank: self.rank as int, name: self.name@ }
    }
}

/// The models of a list of keys.
pub open spec fn key_views(keys: Seq<RankKey>) -> Seq<KeyView> {
    Seq::new(keys.len(), |i: int| keys[i]@)
}

/// Whether a text comes before another by code points, a prefix before what it is a prefix of.
pub open spec fn text_less(a: Seq<char>, b: Seq<char>) -> bool
    decreases a.len(),
{
    if b.len() == 0 {
        false
    } else if a.len() == 0 {
        true
    } else if a[0] != b[0] {
        a[0] < b[0]
    } else {
        text_less(a.drop_first(), b.drop_first())
    }
}

/// Whether a key comes before another.
pub open spec fn key_less(a: KeyView, b: KeyView) -> bool {
    a.weight > b.weight || (a.weight == b.weight && (a.rank < b.rank || (a.rank == b.rank
        && text_less(a.name, b.name))))
}

/// Whether item `p` is listed before item `q`: by key, and by position among equal keys.
pub open spec fn precedes(keys: Seq<KeyView>, p: int, q: int) -> bool {
    key_less(keys[p], keys[q]) || (keys[p] == keys[q] && p < q)
}

/// Whether `order` lists the positions of all keys, each before the ones it precedes.
pub open spec fn is_rank_order(keys: Seq<KeyView>, order: Seq<int>) -> bool {
    &&& order.len() == keys.len()
    &&& forall|i: int| 0 <= i < order.len() ==> 0 <= #[trigger] order[i] < keys.len()
    &&& forall|p: int| 0 <= p < keys.len() ==> #[trigger] order.contains(p)
    &&& forall|i: int, j: int|
        0 <= i < j < order.len() ==> precedes(keys, #[trigger] order[i], #[trigger] order[j])
}

/// The positions of the keys in listing order.
pub open spec fn rank_order(keys: Seq<KeyView>) -> Seq<int> {
    choose|order: Seq<int>| is_rank_order(keys, order)
}

/// The items in the listing order of their keys.
pub open spec fn ranked<T>(items: Seq<T>, keys: Seq<KeyView>) -> Seq<T> {
    Seq::new(items.len(), |i: int| items[rank_order(keys)[i]])
}

proof fn lemma_text_less_irreflexive(a: Seq<char>)
    ensures
        !text_less(a, a),
    decreases a.len(),
{
    if a.len() > 0 {
        lemma_text_less_irreflexive(a.drop_first());
    }
}

proof fn lemma_text_less_transitive(a: Seq<char>, b: Seq<char>, c: Seq<char>)
    requires
        text_less(a, b),
        text_less(b, c),
    ensures
        text_less(a, c),
    decreases a.len(),
{
    if a.len() > 0 && a[0] == b[0] && b[0] == c[0] {
        lemma_text_less_transitive(a.drop_first(), b.drop_first(), c.drop_first());
    }
}

proof fn lemma_text_less_total(a: Seq<char>, b: Seq<char>)
    requires
        !text_less(a, b),
        !text_less(b, a),
    ensures
        a == b,
    decreases a.len(),
{
    if a.len() > 0 && b.len() > 0 {
        assert(a[0] == b[0]);
        lemma_text_less_total(a.drop_first(), b.drop_first());
        assert(a =~= seq![a[0]] + a.drop_first());
        assert(b =~= seq![b[0]] + b.drop_first());
    } else {
        assert(a =~= b);
    }
}

/// No text comes before itself, and no two come before each other.
pub proof fn lemma_text_less_strict(a: Seq<char>, b: Seq<char>)
    ensures
        !text_less(a, a),
        !(text_less(a, b) && text_less(b, a)),
{
    lemma_text_less_irreflexive(a);
    if text_less(a, b) && text_less(b, a) {
        lemma_text_less_transitive(a, b, a);
    }
}

/// No key comes before itself.
pub proof fn lemma_key_less_irreflexive(a: KeyView)
    ensures
        !key_less(a, a),
{
    lemma_text_less_irreflexive(a.name);
}

/// A key comes before what the keys after it come before.
pub proof fn lemma_key_less_transitive(a: KeyView, b: KeyView, c: KeyView)
    requires
        key_less(a, b),
        key_less(b, c),
    ensures
        key_less(a, c),
{
    if text_less(a.name, b.name) && text_less(b.name, c.name) {
        lemma_text_less_transitive(a.name, b.name, c.name);
    }
}

/// Of two different keys, one comes before the other.
pub proof fn lemma_key_less_total(a: KeyView, b: KeyView)
    requires
        !key_less(a, b),
        !key_less(b, a),
    ensures
        a == b,
{
    lemma_text_less_total(a.name, b.name);
    assert(a =~= b);
}

/// Listing order is a strict order: no item precedes itself, none precedes the other both ways,
/// and it carries over.
pub proof fn lemma_precedes_strict(keys: Seq<KeyView>, p: int, q: int, r: int)
    ensures
        !precedes(keys, p, p),
        !(precedes(keys, p, q) && precedes(keys, q, p)),
        precedes(keys, p, q) && precedes(keys, q, r) ==> precedes(keys, p, r),
        p != q ==> precedes(keys, p, q) || precedes(keys, q, p),
{
    lemma_key_less_irreflexive(keys[p]);
    if key_less(keys[p], keys[q]) && key_less(keys[q], keys[p]) {
        lemma_key_less_transitive(keys[p], keys[q], keys[p]);
    }
    if key_less(keys[p], keys[q]) && key_less(keys[q], keys[r]) {
        lemma_key_less_transitive(keys[p], keys[q], keys[r]);
    }
    if !key_less(keys[p], keys[q]) && !key_less(keys[q], keys[p]) {
        lemma_key_less_total(keys[p], keys[q]);
    }
}

proof fn lemma_rank_order_agrees(keys: Seq<KeyView>, a: Seq<int>, b: Seq<int>, i: int)
    requires
        is_rank_order(keys, a),
        is_rank_order(keys, b),
        0 <= i < keys.len(),
    ensures
        a[i] == b[i],
    decreases i,
{
    assert forall|k: int| 0 <= k < i implies a[k] == b[k] by {
        lemma_rank_order_agrees(keys, a, b, k);
    }
    assert(b.contains(a[i]));
    let j = choose|j: int| 0 <= j < b.len() && b[j] == a[i];
    assert(a.contains(b[i]));
    let k = choose|k: int| 0 <= k < a.len() && a[k] == b[i];
    if a[i] != b[i] {
        lemma_precedes_strict(keys, a[i], b[i], a[i]);
        if j < i {
            assert(a[j] == b[j]);
            assert(precedes(keys, a[j], a[i]));
        } else if k < i {
            assert(a[k] == b[k]);
            assert(precedes(keys, b[k], b[i]));
            lemma_precedes_strict(keys, b[i], b[i], b[i]);
        } else {
            assert(precedes(keys, b[i], b[j]));
            assert(precedes(keys, a[i], a[k]));
        }
    }
}

/// There is only one listing order.
pub proof fn lemma_rank_order_unique(keys: Seq<KeyView>, order: Seq<int>)
    requires
        is_rank_order(keys, order),
    ensures
        rank_order(keys) == order,
{
    let chosen = rank_order(keys);
    assert(is_rank_order(keys, chosen));
    assert forall|i: int| 0 <= i < keys.len() implies chosen[i] == order[i] by {
        lemma_rank_order_agrees(keys, chosen, order, i);
    }
    assert(chosen =~= order);
}

/// Whether `order` lists the positions from `from` on, each before the ones it precedes.
spec fn is_suffix_order(keys: Seq<KeyView>, order: Seq<int>, from: int) -> bool {
    &&& 0 <= from <= keys.len()
    &&& order.len() == keys.len() - from
    &&& forall|i: int| 0 <= i < order.len() ==> from <= #[trigger] order[i] < keys.len()
    &&& forall|p: int| from <= p < keys.len() ==> #[trigger] order.contains(p)
    &&& forall|i: int, j: int|
        0 <= i < j < order.len() ==> precedes(keys, #[trigger] order[i], #[trigger] order[j])
}

proof fn lemma_insert_in_order(keys: Seq<KeyView>, order: Seq<int>, from: int, at: int)
    requires
        from > 0,
        is_suffix_order(keys, order, from),
        0 <= at <= order.len(),
        forall|i: int| 0 <= i < at ==> precedes(keys, #[trigger] order[i], from - 1),
        forall|i: int| at <= i < order.len() ==> precedes(keys, from - 1, #[trigger] order[i]),
    ensures
        is_suffix_order(keys, order.insert(at, from - 1), from - 1),
{
    let next = order.insert(at, from - 1);
    assert forall|p: int| from - 1 <= p < keys.len() implies #[trigger] next.contains(p) by {
        if p == from - 1 {
            assert(next[at] == p);
        } else {
            assert(order.contains(p));
            let i = choose|i: int| 0 <= i < order.len() && order[i] == p;
            if i < at {
                assert(next[i] == p);
            } else {
                assert(next[i + 1] == p);
            }
        }
    }
    assert forall|i: int, j: int| 0 <= i < j < next.len() implies precedes(
        keys,
        #[trigger] next[i],
        #[trigger] next[j],
    ) by {
        let old_i = if i < at {
            i
        } else {
            i - 1
        };
        let old_j = if j < at {
            j
        } else {
            j - 1
        };
        if i != at && j != at {
            assert(precedes(keys, order[old_i], order[old_j]));
        } else if i == at {
            assert(precedes(keys, from - 1, order[old_j]));
        } else {
            assert(precedes(keys, order[old_i], from - 1));
        }
    }
}

proof fn lemma_suffix_order_exists(keys: Seq<KeyView>, from: int) -> (order: Seq<int>)
    requires
        0 <= from <= keys.len(),
    ensures
        is_suffix_order(keys, order, from),
    decreases keys.len() - from,
{
    if from == keys.len() {
        Seq::empty()
    } else {
        let rest = lemma_suffix_order_exists(keys, from + 1);
        let at = lemma_place_exists(keys, rest, from + 1, rest.len() as int);
        lemma_insert_in_order(keys, rest, from + 1, at);
        rest.insert(at, from)
    }
}

proof fn lemma_place_exists(keys: Seq<KeyView>, order: Seq<int>, from: int, below: int) -> (at: int)
    requires
        from > 0,
        is_suffix_order(keys, order, from),
        0 <= below <= order.len(),
        forall|i: int| below <= i < order.len() ==> precedes(keys, from - 1, #[trigger] order[i]),
    ensures
        0 <= at <= below,
        forall|i: int| 0 <= i < at ==> precedes(keys, #[trigger] order[i], from - 1),
        forall|i: int| at <= i < order.len() ==> precedes(keys, from - 1, #[trigger] order[i]),
    decreases below,
{
    if below == 0 {
        0
    } else {
        let last = order[below - 1];
        lemma_precedes_strict(keys, last, from - 1, last);
        if precedes(keys, last, from - 1) {
            assert forall|i: int| 0 <= i < below implies precedes(
                keys,
                #[trigger] order[i],
                from - 1,
            ) by {
                if i < below - 1 {
                    assert(precedes(keys, order[i], order[below - 1]));
                    lemma_precedes_strict(keys, order[i], last, from - 1);
                }
            }
            below
        } else {
            lemma_place_exists(keys, order, from, below - 1)
        }
    }
}

/// Every list of keys has a listing order.
pub proof fn lemma_rank_order(keys: Seq<KeyView>)
    ensures
        is_rank_order(keys, rank_order(keys)),
{
    let order = lemma_suffix_order_exists(keys, 0);
    assert(is_rank_order(keys, order));
}

/// Listing keeps every item and adds none: each place of the list takes one item, no two places
/// take the same one, and an item never stands after one that its key comes before.
pub proof fn lemma_ranked<T>(items: Seq<T>, keys: Seq<KeyView>)
    requires
        items.len() == keys.len(),
    ensures
        ranked(items, keys).len() == items.len(),
        rank_order(keys).len() == items.len(),
        forall|i: int|
            0 <= i < items.len() ==> 0 <= #[trigger] rank_order(keys)[i] < items.len() && ranked(
                items,
                keys,
            )[i] == items[rank_order(keys)[i]],
        forall|p: int| 0 <= p < items.len() ==> #[trigger] rank_order(keys).contains(p),
        forall|i: int, j: int|
            0 <= i < j < items.len() ==> #[trigger] rank_order(keys)[i]
                != #[trigger] rank_order(keys)[j] && !key_less(
                keys[rank_order(keys)[j]],
                keys[rank_order(keys)[i]],
            ),
{
    lemma_rank_order(keys);
    let order = rank_order(keys);
    assert forall|i: int, j: int| 0 <= i < j < items.len() implies #[trigger] order[i]
        != #[trigger] order[j] && !key_less(keys[order[j]], keys[order[i]]) by {
        assert(precedes(keys, order[i], order[j]));
        lemma_precedes_strict(keys, order[i], order[j], order[i]);
    }
}

/// Whether a text comes before another by code points.
pub fn text_before(a: &[char], b: &[char]) -> (res: bool)
    ensures
        res == text_less(a@, b@),
{
    let mut i: usize = 0;
    assert(a@.skip(0) =~= a@);
    assert(b@.skip(0) =~= b@);
    while i < a.len() && i < b.len()
        invariant
            i <= a@.len(),
            i <= b@.len(),
            text_less(a@, b@) == text_less(a@.skip(i as int), b@.skip(i as int)),
        decreases a@.len() - i,
    {
        if a[i] != b[i] {
            return a[i] < b[i];
        }
        assert(a@.skip(i as int).drop_first() =~= a@.skip(i + 1));
        assert(b@.skip(i as int).drop_first() =~= b@.skip(i + 1));
        i += 1;
    }
    i < b.len()
}

impl RankKey {
    /// Whether this key comes before another.
    pub fn before(&self, other: &RankKey) -> (res: bool)
        ensures
            res == key_less(self@, other@),
    {
        if self.weight != other.weight {
            self.weight > other.weight
        } else if self.rank != other.rank {
            self.rank < other.rank
        } else {
            text_before(self.name.as_slice(), other.name.as_slice())
        }
    }
}

/// Sorts items by their keys; items with equal keys keep their places among each other.
pub fn sort_by_rank<T>(items: Vec<T>, keys: Vec<RankKey>) -> (res: Vec<T>)
    requires
        items@.len() == keys@.len(),
    ensures
        res@ == ranked(items@, key_views(keys@)),
{
    let ghost views = key_views(keys@);
    let ghost all_items = items@;
    let mut items: Vec<T> = items;
    let mut keys: Vec<RankKey> = keys;
    let mut out: Vec<T> = Vec::new();
    let mut out_keys: Vec<RankKey> = Vec::new();
    let ghost mut order: Seq<int> = Seq::empty();
    assert(all_items.take(all_items.len() as int) =~= all_items);
    assert(views.take(views.len() as int) =~= views);
    while items.len() > 0
        invariant
            items@.len() == keys@.len(),
            items@.len() <= all_items.len(),
            views.len() == all_items.len(),
            items@ == all_items.take(items@.len() as int),
            key_views(keys@) == views.take(keys@.len() as int),
            is_suffix_order(views, order, items@.len() as int),
            out@.len() == order.len(),
            out_keys@.len() == order.len(),
            forall|i: int| 0 <= i < order.len() ==> #[trigger] out@[i] == all_items[order[i]],
            forall|i: int| 0 <= i < order.len() ==> (#[trigger] out_keys@[i])@ == views[order[i]],
        decreases items@.len(),
    {
        let ghost from = items@.len() as int;
        let ghost old_keys = keys@;
        let (Some(item), Some(key)) = (items.pop(), keys.pop()) else {
            return out;
        };
        proof {
            assert(item == all_items[from - 1]);
            assert(key_views(old_keys)[from - 1] == views.take(from)[from - 1]);
            assert(key@ == views[from - 1]);
            assert(items@ =~= all_items.take(from - 1));
            assert(key_views(keys@) =~= views.take(from - 1)) by {
                assert forall|i: int| 0 <= i < from - 1 implies key_views(keys@)[i] == views.take(
                    from - 1,
                )[i] by {
                    assert(key_views(old_keys)[i] == views.take(from)[i]);
                }
            }
        }
        let mut low: usize = 0;
        let mut high: usize = out.len();
        while low < high
            invariant
                from > 0,
                is_suffix_order(views, order, from),
                out_keys@.len() == order.len(),
                low <= high <= order.len(),
                key@ == views[from - 1],
                forall|i: int| 0 <= i < order.len() ==> (#[trigger] out_keys@[i])@ == views[order[i]],
                forall|i: int| 0 <= i < low ==> precedes(views, #[trigger] order[i], from - 1),
                forall|i: int|
                    high <= i < order.len() ==> precedes(views, from - 1, #[trigger] order[i]),
            decreases high - low,
        {
            let middle: usize = low + (high - low) / 2;
            let ghost there = order[middle as int];
            proof {
                lemma_precedes_strict(views, there, from - 1, there);
            }
            if out_keys[middle].before(&key) {
                proof {
                    assert forall|i: int| 0 <= i <= middle implies precedes(
                        views,
                        #[trigger] order[i],
                        from - 1,
                    ) by {
                        if i < middle {
                            assert(precedes(views, order[i], there));
                            lemma_precedes_strict(views, order[i], there, from - 1);
                        }
                    }
                }
                low = middle + 1;
            } else {
                proof {
                    assert(precedes(views, from - 1, there));
                    assert forall|i: int| middle <= i < order.len() implies precedes(
                        views,
                        from - 1,
                        #[trigger] order[i],
                    ) by {
                        if i > middle {
                            assert(precedes(views, there, order[i]));
                            lemma_precedes_strict(views, from - 1, there, order[i]);
                        }
                    }
                }
                high = middle;
            }
        }
        proof {
            lemma_insert_in_order(views, order, from, low as int);
        }
        let ghost old_order = order;
        let ghost old_out = out@;
        let ghost old_out_keys = out_keys@;
        out.insert(low, item);
        out_keys.insert(low, key);
        proof {
            order = order.insert(low as int, from - 1);
            assert forall|i: int| 0 <= i < order.len() implies #[trigger] out@[i]
                == all_items[order[i]] by {
                if i < low {
                    assert(out@[i] == old_out[i]);
                    assert(order[i] == old_order[i]);
                } else if i > low {
                    assert(out@[i] == old_out[i - 1]);
                    assert(order[i] == old_order[i - 1]);
                }
            }
            assert forall|i: int| 0 <= i < order.len() implies (#[trigger] out_keys@[i])@
                == views[order[i]] by {
                if i < low {
                    assert(out_keys@[i] == old_out_keys[i]);
                    assert(order[i] == old_order[i]);
                } else if i > low {
                    assert(out_keys@[i] == old_out_keys[i - 1]);
                    assert(order[i] == old_order[i - 1]);
                }
            }
        }
    }
    proof {
        assert(is_rank_order(views, order));
        lemma_rank_order_unique(views, order);
        assert(out@ =~= ranked(all_items, views));
    }
    out
}

} // verus!
