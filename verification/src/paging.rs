//! Keyset pages: runs of an ordered listing, each going on where the one before it ended.
use vstd::prelude::*;
use crate::api::window;
use crate::table::{
    ascending, in_order, lemma_ascending_unique, lemma_lists_in_order, lists, TableKey,
};

verus! {

/// Whether exactly the first `place` keys stand at `key` or before it.
pub open spec fn splits<K: TableKey>(keys: Seq<K::V>, key: K::V, place: nat) -> bool {
    &&& place <= keys.len()
    &&& forall|j: int| 0 <= j < place ==> !K::before(key, #[trigger] keys[j])
    &&& forall|j: int| place <= j < keys.len() ==> K::before(key, #[trigger] keys[j])
}

/// How many keys stand at a position or before it; without a position, none do.
pub open spec fn place_after<K: TableKey>(keys: Seq<K::V>, after: Option<K::V>) -> nat {
    match after {
        None => 0,
        Some(key) => choose|place: nat| splits::<K>(keys, key, place),
    }
}

/// The page of at most `limit` keys after a position.
pub open spec fn page_after<K: TableKey>(keys: Seq<K::V>, after: Option<K::V>, limit: nat) -> Seq<
    K::V,
> {
    window(keys, place_after::<K>(keys, after), limit)
}

/// Whether keys are left after the page of at most `limit` keys after a position.
pub open spec fn more_after<K: TableKey>(keys: Seq<K::V>, after: Option<K::V>, limit: nat) -> bool {
    place_after::<K>(keys, after) + limit < keys.len()
}

pub proof fn lemma_place<K: TableKey>(keys: Seq<K::V>, key: K::V, place: nat)
    requires
        splits::<K>(keys, key, place),
    ensures
        place_after::<K>(keys, Some(key)) == place,
{
    let other = place_after::<K>(keys, Some(key));
    if other < place {
        assert(K::before(key, keys[other as int]));
    } else if place < other {
        assert(K::before(key, keys[place as int]));
    }
}

/// Every ascending listing is split by every key.
pub proof fn lemma_split_exists<K: TableKey>(keys: Seq<K::V>, key: K::V) -> (place: nat)
    requires
        ascending::<K>(keys),
    ensures
        splits::<K>(keys, key, place),
        place_after::<K>(keys, Some(key)) == place,
    decreases keys.len(),
{
    if keys.len() == 0 {
        lemma_place::<K>(keys, key, 0);
        0
    } else if K::before(key, keys.last()) {
        let shorter = keys.drop_last();
        let place = lemma_split_exists::<K>(shorter, key);
        assert forall|j: int| 0 <= j < place implies !K::before(key, #[trigger] keys[j]) by {
            assert(keys[j] == shorter[j]);
        }
        assert forall|j: int| place <= j < keys.len() implies K::before(key, #[trigger] keys[j]) by {
            if j < shorter.len() {
                assert(keys[j] == shorter[j]);
            }
        }
        lemma_place::<K>(keys, key, place);
        place
    } else {
        assert forall|j: int| 0 <= j < keys.len() implies !K::before(key, #[trigger] keys[j]) by {
            if j < keys.len() - 1 && K::before(key, keys[j]) {
                K::before_transitive(key, keys[j], keys.last());
            }
        }
        lemma_place::<K>(keys, key, keys.len());
        keys.len()
    }
}

/// A traversal that goes on after the last key of each page leaves nothing out and shows nothing
/// twice: when a page ends before the listing does, the page after its last key begins with the
/// very next key.
pub proof fn law_pages_join<K: TableKey>(keys: Seq<K::V>, after: Option<K::V>, limit: nat)
    requires
        ascending::<K>(keys),
        limit > 0,
        more_after::<K>(keys, after, limit),
    ensures
        ({
            let page = page_after::<K>(keys, after, limit);
            let begin = place_after::<K>(keys, after);
            &&& page.len() == limit
            &&& page == keys.subrange(begin as int, (begin + limit) as int)
            &&& place_after::<K>(keys, Some(page.last())) == begin + limit
        }),
{
    let begin = place_after::<K>(keys, after);
    if after is Some {
        lemma_split_exists::<K>(keys, after->0);
    }
    let page = page_after::<K>(keys, after, limit);
    let last = page.last();
    assert(last == keys[begin + limit - 1]);
    assert(splits::<K>(keys, last, begin + limit)) by {
        assert forall|j: int| 0 <= j < begin + limit implies !K::before(
            last,
            #[trigger] keys[j],
        ) by {
            K::before_irreflexive(last);
            if j < begin + limit - 1 && K::before(last, keys[j]) {
                assert(K::before(keys[j], keys[begin + limit - 1]));
                K::before_transitive(last, keys[j], last);
            }
        }
        assert forall|j: int| begin + limit <= j < keys.len() implies K::before(
            last,
            #[trigger] keys[j],
        ) by {
            assert(K::before(keys[begin + limit - 1], keys[j]));
        }
    }
    lemma_place::<K>(keys, last, begin + limit);
}

/// A traversal of several pages: the listing that each page is taken of, and its limit. The listings
/// may differ, for what is listed may change between the pages.
pub struct Traversal<V> {
    pub listings: Seq<Seq<V>>,
    pub limits: Seq<nat>,
}

impl<V> Traversal<V> {
    /// The position after the first `n` pages: the last key of the page before.
    pub open spec fn position<K: TableKey<V = V>>(self, n: nat) -> Option<V>
        decreases n, 0nat,
    {
        if n == 0 {
            None
        } else {
            Some(self.page::<K>((n - 1) as nat).last())
        }
    }

    /// A page.
    pub open spec fn page<K: TableKey<V = V>>(self, i: nat) -> Seq<V>
        decreases i, 1nat,
    {
        page_after::<K>(self.listings[i as int], self.position::<K>(i), self.limits[i as int])
    }

    /// Whether keys are left after a page.
    pub open spec fn goes_on<K: TableKey<V = V>>(self, i: nat) -> bool {
        more_after::<K>(self.listings[i as int], self.position::<K>(i), self.limits[i as int])
    }

    /// The first `n` pages, one after the other.
    pub open spec fn joined<K: TableKey<V = V>>(self, n: nat) -> Seq<V>
        decreases n,
    {
        if n == 0 {
            Seq::empty()
        } else {
            self.joined::<K>((n - 1) as nat) + self.page::<K>((n - 1) as nat)
        }
    }

    /// Whether this is a traversal of `n` pages: of listings in order, with limits above 0, where
    /// keys were left after each page but perhaps the last.
    pub open spec fn runs<K: TableKey<V = V>>(self, n: nat) -> bool {
        &&& self.listings.len() == n
        &&& self.limits.len() == n
        &&& forall|i: int| 0 <= i < n ==> ascending::<K>(#[trigger] self.listings[i])
        &&& forall|i: int| 0 <= i < n ==> #[trigger] self.limits[i] > 0
        &&& forall|i: nat| i + 1 < n ==> #[trigger] self.goes_on::<K>(i)
    }
}

/// Whether a key stands after a position.
pub open spec fn stands_after<K: TableKey>(after: Option<K::V>, key: K::V) -> bool {
    match after {
        None => true,
        Some(position) => K::before(position, key),
    }
}

/// What a page holds: keys of the listing after the position, in order, without a gap.
pub proof fn lemma_page<K: TableKey>(keys: Seq<K::V>, after: Option<K::V>, limit: nat)
    requires
        ascending::<K>(keys),
        limit > 0,
    ensures
        ({
            let page = page_after::<K>(keys, after, limit);
            &&& ascending::<K>(page)
            &&& page.len() <= limit
            &&& more_after::<K>(keys, after, limit) ==> page.len() == limit
            &&& forall|i: int|
                0 <= i < page.len() ==> keys.contains(#[trigger] page[i]) && stands_after::<K>(
                    after,
                    page[i],
                )
            &&& forall|k: K::V| #[trigger]
                keys.contains(k) && stands_after::<K>(after, k) && (!more_after::<K>(
                    keys,
                    after,
                    limit,
                ) || !K::before(page.last(), k)) ==> page.contains(k)
        }),
{
    let page = page_after::<K>(keys, after, limit);
    let begin = place_after::<K>(keys, after);
    if after is Some {
        lemma_split_exists::<K>(keys, after->0);
    }
    assert forall|i: int| 0 <= i < page.len() implies keys.contains(#[trigger] page[i])
        && stands_after::<K>(after, page[i]) by {
        assert(page[i] == keys[begin + i]);
    }
    assert forall|i: int, j: int| 0 <= i < j < page.len() implies K::before(
        #[trigger] page[i],
        #[trigger] page[j],
    ) by {
        assert(K::before(keys[begin + i], keys[begin + j]));
    }
    assert forall|k: K::V| #[trigger]
        keys.contains(k) && stands_after::<K>(after, k) && (!more_after::<K>(keys, after, limit)
            || !K::before(page.last(), k)) implies page.contains(k) by {
        let j = keys.index_of(k);
        if j < begin {
            assert(!K::before(after->0, keys[j]));
        }
        if more_after::<K>(keys, after, limit) {
            assert(page.last() == keys[begin + limit - 1]);
            if j >= begin + limit {
                assert(K::before(keys[begin + limit - 1], keys[j]));
            }
        }
        assert(page[j - begin] == k);
    }
}

proof fn lemma_joined<K: TableKey>(t: Traversal<K::V>, n: nat, of: nat)
    requires
        t.runs::<K>(of),
        n <= of,
    ensures
        ascending::<K>(t.joined::<K>(n)),
        n > 0 ==> t.joined::<K>(n).len() >= t.page::<K>((n - 1) as nat).len(),
        forall|j: int|
            0 <= j < t.joined::<K>(n).len() ==> n > 0 && (n < of ==> !K::before(
                t.position::<K>(n)->0,
                #[trigger] t.joined::<K>(n)[j],
            )),
        forall|j: int|
            0 <= j < t.joined::<K>(n).len() ==> exists|i: int|
                0 <= i < n && t.listings[i].contains(#[trigger] t.joined::<K>(n)[j]),
    decreases n,
{
    if n > 0 {
        let i = (n - 1) as nat;
        lemma_joined::<K>(t, i, of);
        let head = t.joined::<K>(i);
        let page = t.page::<K>(i);
        let all = t.joined::<K>(n);
        assert(ascending::<K>(t.listings[i as int]) && t.limits[i as int] > 0);
        lemma_page::<K>(t.listings[i as int], t.position::<K>(i), t.limits[i as int]);
        assert forall|a: int, b: int| 0 <= a < b < all.len() implies K::before(
            #[trigger] all[a],
            #[trigger] all[b],
        ) by {
            if b < head.len() {
                assert(K::before(head[a], head[b]));
            } else if a >= head.len() {
                assert(K::before(page[a - head.len()], page[b - head.len()]));
            } else {
                let p = t.position::<K>(i)->0;
                assert(!K::before(p, head[a]));
                assert(stands_after::<K>(t.position::<K>(i), page[b - head.len()]));
                K::before_total(p, head[a]);
                if p != head[a] {
                    K::before_transitive(head[a], p, page[b - head.len()]);
                }
            }
        }
        if n < of {
            assert(t.goes_on::<K>(i));
            let last = page.last();
            assert(t.position::<K>(n) == Some(last));
            assert forall|j: int| 0 <= j < all.len() implies !K::before(
                last,
                #[trigger] all[j],
            ) by {
                K::before_irreflexive(last);
                assert(all[all.len() - 1] == last);
                if j < all.len() - 1 && K::before(last, all[j]) {
                    assert(K::before(all[j], all[all.len() - 1]));
                    K::before_transitive(last, all[j], last);
                }
            }
        }
        assert forall|j: int| 0 <= j < all.len() implies exists|k: int|
            0 <= k < n && t.listings[k].contains(#[trigger] all[j]) by {
            if j < head.len() {
                assert(all[j] == head[j]);
                let k = choose|k: int| 0 <= k < i && t.listings[k].contains(head[j]);
                assert(t.listings[k].contains(all[j]));
            } else {
                assert(all[j] == page[j - head.len()]);
                assert(t.listings[i as int].contains(all[j]));
            }
        }
    }
}

/// Over all the pages of a traversal no key comes twice, and they come in order, even where the
/// listing changes between the pages and the limits differ. Every key stood in the listing that its
/// page was taken of.
pub proof fn law_traversal_repeats_nothing<K: TableKey>(t: Traversal<K::V>, n: nat)
    requires
        t.runs::<K>(n),
    ensures
        ascending::<K>(t.joined::<K>(n)),
        forall|j: int|
            0 <= j < t.joined::<K>(n).len() ==> exists|i: int|
                0 <= i < n && t.listings[i].contains(#[trigger] t.joined::<K>(n)[j]),
{
    lemma_joined::<K>(t, n, n);
}

proof fn lemma_reached<K: TableKey>(t: Traversal<K::V>, n: nat, of: nat, key: K::V)
    requires
        t.runs::<K>(of),
        n < of,
        forall|i: int| 0 <= i < of ==> (#[trigger] t.listings[i]).contains(key),
    ensures
        t.joined::<K>(n).contains(key) || stands_after::<K>(t.position::<K>(n), key),
    decreases n,
{
    if n > 0 {
        let i = (n - 1) as nat;
        lemma_reached::<K>(t, i, of, key);
        let head = t.joined::<K>(i);
        let page = t.page::<K>(i);
        assert(ascending::<K>(t.listings[i as int]) && t.limits[i as int] > 0);
        lemma_page::<K>(t.listings[i as int], t.position::<K>(i), t.limits[i as int]);
        if head.contains(key) {
            let j = head.index_of(key);
            assert(t.joined::<K>(n)[j] == key);
        } else {
            assert(t.goes_on::<K>(i));
            assert(t.listings[i as int].contains(key));
            if !K::before(page.last(), key) {
                assert(page.contains(key));
                let j = page.index_of(key);
                assert(t.joined::<K>(n)[head.len() + j] == key);
            }
        }
    }
}

/// A traversal to the end leaves out no key that stood in all the listings that its pages were
/// taken of.
pub proof fn law_traversal_loses_nothing<K: TableKey>(t: Traversal<K::V>, n: nat, key: K::V)
    requires
        n > 0,
        t.runs::<K>(n),
        !t.goes_on::<K>((n - 1) as nat),
        forall|i: int| 0 <= i < n ==> (#[trigger] t.listings[i]).contains(key),
    ensures
        t.joined::<K>(n).contains(key),
{
    let i = (n - 1) as nat;
    lemma_reached::<K>(t, i, n, key);
    let head = t.joined::<K>(i);
    let page = t.page::<K>(i);
    assert(ascending::<K>(t.listings[i as int]) && t.limits[i as int] > 0);
    lemma_page::<K>(t.listings[i as int], t.position::<K>(i), t.limits[i as int]);
    if head.contains(key) {
        let j = head.index_of(key);
        assert(t.joined::<K>(n)[j] == key);
    } else {
        assert(t.listings[i as int].contains(key));
        assert(page.contains(key));
        let j = page.index_of(key);
        assert(t.joined::<K>(n)[head.len() + j] == key);
    }
}

/// The pages of a traversal of one listing to its end, one after the other, are the whole listing,
/// whatever the limits, each of them above 0.
pub proof fn law_traversal_is_complete<K: TableKey>(
    keys: Seq<K::V>,
    t: Traversal<K::V>,
    n: nat,
)
    requires
        n > 0,
        t.runs::<K>(n),
        !t.goes_on::<K>((n - 1) as nat),
        forall|i: int| 0 <= i < n ==> #[trigger] t.listings[i] == keys,
    ensures
        t.joined::<K>(n) == keys,
{
    let all = t.joined::<K>(n);
    law_traversal_repeats_nothing::<K>(t, n);
    assert(t.listings[0] == keys);
    assert forall|k: K::V| #[trigger] all.contains(k) <==> keys.contains(k) by {
        if all.contains(k) {
            let j = all.index_of(k);
            assert(all[j] == k);
            let i = choose|i: int| 0 <= i < n && t.listings[i].contains(all[j]);
            assert(t.listings[i] == keys);
        }
        if keys.contains(k) {
            assert forall|i: int| 0 <= i < n implies (#[trigger] t.listings[i]).contains(k) by {}
            law_traversal_loses_nothing::<K>(t, n, k);
        }
    }
    assert(ascending::<K>(t.listings[0]));
    lemma_ascending_unique::<K>(all, keys);
}

/// Every finite set of keys has its members in order.
pub proof fn lemma_in_order_lists<K: TableKey>(dom: Set<K::V>)
    requires
        dom.finite(),
    ensures
        lists::<K>(in_order::<K>(dom), dom),
        in_order::<K>(dom).len() == dom.len(),
    decreases dom.len(),
{
    let s = lemma_listing_exists::<K>(dom);
    lemma_lists_in_order::<K>(s, dom);
}

proof fn lemma_listing_exists<K: TableKey>(dom: Set<K::V>) -> (s: Seq<K::V>)
    requires
        dom.finite(),
    ensures
        lists::<K>(s, dom),
        s.len() == dom.len(),
    decreases dom.len(),
{
    if dom.is_empty() {
        let s = Seq::<K::V>::empty();
        assert(dom =~= Set::empty());
        s
    } else {
        let a = dom.choose();
        let rest = dom.remove(a);
        let t = lemma_listing_exists::<K>(rest);
        let place = lemma_split_exists::<K>(t, a);
        let s = t.insert(place as int, a);
        assert(!rest.contains(a));
        assert forall|j: int| 0 <= j < place implies K::before(#[trigger] t[j], a) by {
            assert(t.contains(t[j]));
            K::before_total(t[j], a);
        }
        assert forall|i: int, j: int| 0 <= i < j < s.len() implies K::before(
            #[trigger] s[i],
            #[trigger] s[j],
        ) by {
            if j == place {
                assert(s[i] == t[i]);
            } else if i == place {
                assert(s[j] == t[j - 1]);
            } else {
                let p = if i < place {
                    i
                } else {
                    i - 1
                };
                let q = if j < place {
                    j
                } else {
                    j - 1
                };
                assert(s[i] == t[p] && s[j] == t[q]);
            }
        }
        assert forall|k: K::V| #[trigger] s.contains(k) <==> dom.contains(k) by {
            if s.contains(k) {
                let i = s.index_of(k);
                if i != place {
                    let p = if i < place {
                        i
                    } else {
                        i - 1
                    };
                    assert(t[p] == k);
                    assert(t.contains(k));
                }
            }
            if dom.contains(k) && k != a {
                assert(rest.contains(k));
                assert(t.contains(k));
                let i = t.index_of(k);
                let q = if i < place {
                    i
                } else {
                    i + 1
                };
                assert(s[q] == k);
            }
            assert(s[place as int] == a);
        }
        s
    }
}

/// A page begins behind the position it goes on from: it shows the keys that stand behind it, from the
/// first such key on, without a gap, and as many as its limit where there are that many. There is more
/// exactly where it leaves a key behind its last.
pub proof fn law_page_shows_what_follows<K: TableKey>(
    keys: Seq<K::V>,
    after: Option<K::V>,
    limit: nat,
)
    requires
        ascending::<K>(keys),
        limit > 0,
    ensures
        ({
            let page = page_after::<K>(keys, after, limit);
            let left = keys.filter(|k: K::V| stands_after::<K>(after, k));
            &&& page == window(left, 0, limit)
            &&& more_after::<K>(keys, after, limit) <==> left.len() > limit
            &&& after is None ==> left == keys
        }),
{
    let later = |k: K::V| stands_after::<K>(after, k);
    let place = place_after::<K>(keys, after);
    match after {
        None => {
            lemma_filter_tail::<K>(keys, after, 0);
        },
        Some(key) => {
            let split = lemma_split_exists::<K>(keys, key);
            assert(splits::<K>(keys, key, split));
            lemma_filter_tail::<K>(keys, after, place);
        },
    }
    let left = keys.filter(later);
    assert(left == keys.skip(place as int));
    assert(page_after::<K>(keys, after, limit) =~= window(left, 0, limit));
    if after is None {
        assert(keys.skip(0) =~= keys);
    }
}

proof fn lemma_filter_tail<K: TableKey>(keys: Seq<K::V>, after: Option<K::V>, place: nat)
    requires
        place <= keys.len(),
        forall|j: int| 0 <= j < place ==> !stands_after::<K>(after, #[trigger] keys[j]),
        forall|j: int| place <= j < keys.len() ==> stands_after::<K>(after, #[trigger] keys[j]),
    ensures
        keys.filter(|k: K::V| stands_after::<K>(after, k)) == keys.skip(place as int),
    decreases keys.len(),
{
    reveal(Seq::filter);
    let later = |k: K::V| stands_after::<K>(after, k);
    if keys.len() == 0 {
        assert(keys.filter(later) =~= keys.skip(place as int));
    } else {
        let rest = keys.drop_last();
        if place == keys.len() {
            assert(!stands_after::<K>(after, keys[keys.len() - 1]));
            lemma_filter_tail::<K>(rest, after, (place - 1) as nat);
            assert(keys.filter(later) =~= keys.skip(place as int));
        } else {
            assert(stands_after::<K>(after, keys[keys.len() - 1]));
            lemma_filter_tail::<K>(rest, after, place);
            assert(keys.skip(place as int) =~= rest.skip(place as int).push(keys.last()));
        }
    }
}

} // verus!
