//! One associative set: a fixed row of ways, with lookup and the three
//! replacement policies.
use crate::cache::{Data, ReplacementPolicy};
use crate::random::random_way;
use rand::rngs::StdRng;
use vstd::prelude::*;

verus! {

/// Some initialized way of `s` holds `tag`.
pub open spec fn holds_tag(s: Seq<Data>, tag: usize) -> bool {
    exists|i: int| 0 <= i < s.len() && s[i].is_initialized && s[i].tag == tag
}

/// `i` is the first initialized way of `s` that holds `tag`.
pub open spec fn is_tag_way(s: Seq<Data>, tag: usize, i: int) -> bool {
    &&& 0 <= i < s.len()
    &&& s[i].is_initialized
    &&& s[i].tag == tag
    &&& forall|j: int| 0 <= j < i ==> !(s[j].is_initialized && s[j].tag == tag)
}

/// The first initialized way of `s` that holds `tag`.
pub open spec fn tag_way(s: Seq<Data>, tag: usize) -> int {
    choose|i: int| is_tag_way(s, tag, i)
}

/// Number of ways of `s` that were never filled.
pub open spec fn vacancies(s: Seq<Data>) -> nat
    decreases s.len(),
{
    if s.len() == 0 {
        0
    } else {
        vacancies(s.drop_last()) + if s.last().is_initialized {
            0nat
        } else {
            1nat
        }
    }
}

/// `v` is the first way of `s` that was never filled.
pub open spec fn is_first_vacancy(s: Seq<Data>, v: int) -> bool {
    &&& 0 <= v < s.len()
    &&& !s[v].is_initialized
    &&& forall|j: int| 0 <= j < v ==> s[j].is_initialized
}

/// The first way of `s` that was never filled.
pub open spec fn first_vacancy(s: Seq<Data>) -> int {
    choose|v: int| is_first_vacancy(s, v)
}

/// `v` is the eviction candidate of `s`: an initialized way of largest
/// replaceability, the first one in way order among equals.
pub open spec fn is_victim(s: Seq<Data>, v: int) -> bool {
    &&& 0 <= v < s.len()
    &&& s[v].is_initialized
    &&& forall|j: int|
        0 <= j < s.len() && s[j].is_initialized ==> s[j].replaceability <= s[v].replaceability
    &&& forall|j: int|
        0 <= j < v && s[j].is_initialized ==> s[j].replaceability < s[v].replaceability
}

/// The eviction candidate of `s`.
pub open spec fn victim(s: Seq<Data>) -> int {
    choose|v: int| is_victim(s, v)
}

/// Way `k` of `s` now holds `tag`; its replaceability is kept.
pub open spec fn installed(s: Seq<Data>, k: int, tag: usize) -> Seq<Data> {
    s.update(k, Data { tag, is_initialized: true, replaceability: s[k].replaceability })
}

/// Way `k` gets replaceability `fresh`, every other way one more than before.
pub open spec fn aged(s: Seq<Data>, k: int, fresh: usize) -> Seq<Data> {
    Seq::new(
        s.len(),
        |i: int|
            if i == k {
                Data { replaceability: fresh, ..s[i] }
            } else {
                Data { replaceability: (s[i].replaceability + 1) as usize, ..s[i] }
            },
    )
}

/// Bookkeeping after way `k` was used or filled: LRU sets it to 0 and ages the
/// others; FIFO only on a fill, sets it to 0 and ages all ways, itself
/// included; random keeps no bookkeeping.
pub open spec fn refreshed(s: Seq<Data>, k: int, policy: ReplacementPolicy) -> Seq<Data> {
    match policy {
        ReplacementPolicy::Lru => aged(s, k, 0),
        ReplacementPolicy::Fifo => aged(s, k, 1),
        ReplacementPolicy::Random => s,
    }
}

/// The set after a hit on `tag`: only LRU updates its bookkeeping.
pub open spec fn after_hit(s: Seq<Data>, tag: usize, policy: ReplacementPolicy) -> Seq<Data> {
    match policy {
        ReplacementPolicy::Lru => aged(s, tag_way(s, tag), 0),
        _ => s,
    }
}

/// Installing a tag that `s` does not hold must draw a random way: the set is
/// full and the policy is random.
pub open spec fn needs_draw(s: Seq<Data>, tag: usize, policy: ReplacementPolicy) -> bool {
    &&& policy == ReplacementPolicy::Random
    &&& !holds_tag(s, tag)
    &&& vacancies(s) == 0
}

/// The set after installing `tag` under `policy`. A tag already held counts
/// as a hit. Otherwise the first vacancy is filled, or, in a full set, the
/// victim is evicted (LRU, FIFO) or way `draw` is (random).
pub open spec fn after_insert(
    s: Seq<Data>,
    tag: usize,
    policy: ReplacementPolicy,
    draw: int,
) -> Seq<Data> {
    if holds_tag(s, tag) {
        after_hit(s, tag, policy)
    } else {
        let k = if vacancies(s) > 0 {
            first_vacancy(s)
        } else if policy == ReplacementPolicy::Random {
            draw
        } else {
            victim(s)
        };
        refreshed(installed(s, k, tag), k, policy)
    }
}

/// Every replaceability of `s` is at most `bound`.
pub open spec fn ages_at_most(s: Seq<Data>, bound: nat) -> bool {
    forall|i: int| 0 <= i < s.len() ==> s[i].replaceability <= bound
}

// ---------------------------------------------------------------------------
// Facts about the model
/// No vacancy means every way is initialized.
pub proof fn lemma_vacancies(s: Seq<Data>)
    ensures
        vacancies(s) <= s.len(),
        vacancies(s) == 0 <==> forall|i: int| 0 <= i < s.len() ==> s[i].is_initialized,
    decreases s.len(),
{
    if s.len() > 0 {
        lemma_vacancies(s.drop_last());
        if vacancies(s) == 0 {
            assert forall|i: int| 0 <= i < s.len() implies s[i].is_initialized by {
                if i < s.len() - 1 {
                    assert(s.drop_last()[i] == s[i]);
                }
            }
        }
        if forall|i: int| 0 <= i < s.len() ==> s[i].is_initialized {
            assert forall|i: int| 0 <= i < s.drop_last().len() implies s.drop_last()[i].is_initialized by {
                assert(s.drop_last()[i] == s[i]);
            }
        }
    }
}

/// Filling one vacancy leaves one fewer; a change that keeps which ways are
/// initialized keeps the count.
pub proof fn lemma_vacancies_fill(s: Seq<Data>, t: Seq<Data>, k: int)
    requires
        s.len() == t.len(),
        0 <= k < s.len(),
        !s[k].is_initialized,
        t[k].is_initialized,
        forall|i: int| 0 <= i < s.len() && i != k ==> t[i].is_initialized == s[i].is_initialized,
    ensures
        vacancies(t) + 1 == vacancies(s),
    decreases s.len(),
{
    if k < s.len() - 1 {
        lemma_vacancies_fill(s.drop_last(), t.drop_last(), k);
    } else {
        lemma_vacancies_same(s.drop_last(), t.drop_last());
    }
}

/// Sets that agree on which ways are initialized have equal vacancies.
pub proof fn lemma_vacancies_same(s: Seq<Data>, t: Seq<Data>)
    requires
        s.len() == t.len(),
        forall|i: int| 0 <= i < s.len() ==> t[i].is_initialized == s[i].is_initialized,
    ensures
        vacancies(t) == vacancies(s),
    decreases s.len(),
{
    if s.len() > 0 {
        lemma_vacancies_same(s.drop_last(), t.drop_last());
    }
}

/// The first vacancy exists when some way is vacant, and is unique.
pub proof fn lemma_first_vacancy(s: Seq<Data>)
    requires
        vacancies(s) > 0,
    ensures
        is_first_vacancy(s, first_vacancy(s)),
        forall|v: int| is_first_vacancy(s, v) ==> v == first_vacancy(s),
{
    lemma_vacancies(s);
    let w = choose|w: int| 0 <= w < s.len() && !s[w].is_initialized;
    lemma_first_vacancy_below(s, w);
    let v = first_vacancy(s);
    assert forall|u: int| is_first_vacancy(s, u) implies u == v by {
        if u < v {
            assert(s[u].is_initialized);
        }
        if v < u {
            assert(s[v].is_initialized);
        }
    }
}

proof fn lemma_first_vacancy_below(s: Seq<Data>, w: int)
    requires
        0 <= w < s.len(),
        !s[w].is_initialized,
    ensures
        exists|v: int| is_first_vacancy(s, v),
    decreases w,
{
    if exists|j: int| 0 <= j < w && !s[j].is_initialized {
        let j = choose|j: int| 0 <= j < w && !s[j].is_initialized;
        lemma_first_vacancy_below(s, j);
    } else {
        assert(is_first_vacancy(s, w));
    }
}

/// The way holding a tag exists when the tag is held, and is unique.
pub proof fn lemma_tag_way(s: Seq<Data>, tag: usize)
    requires
        holds_tag(s, tag),
    ensures
        is_tag_way(s, tag, tag_way(s, tag)),
        forall|i: int| is_tag_way(s, tag, i) ==> i == tag_way(s, tag),
{
    let w = choose|w: int| 0 <= w < s.len() && s[w].is_initialized && s[w].tag == tag;
    lemma_tag_way_below(s, tag, w);
    let v = tag_way(s, tag);
    assert forall|u: int| is_tag_way(s, tag, u) implies u == v by {
        if u < v {
            assert(!(s[u].is_initialized && s[u].tag == tag));
        }
        if v < u {
            assert(!(s[v].is_initialized && s[v].tag == tag));
        }
    }
}

proof fn lemma_tag_way_below(s: Seq<Data>, tag: usize, w: int)
    requires
        0 <= w < s.len(),
        s[w].is_initialized,
        s[w].tag == tag,
    ensures
        exists|i: int| is_tag_way(s, tag, i),
    decreases w,
{
    if exists|j: int| 0 <= j < w && s[j].is_initialized && s[j].tag == tag {
        let j = choose|j: int| 0 <= j < w && s[j].is_initialized && s[j].tag == tag;
        lemma_tag_way_below(s, tag, j);
    } else {
        assert(is_tag_way(s, tag, w));
    }
}

/// A victim is unique.
pub proof fn lemma_victim_unique(s: Seq<Data>, v: int)
    requires
        is_victim(s, v),
    ensures
        victim(s) == v,
{
    let u = victim(s);
    assert(is_victim(s, u));
    if u < v {
        assert(s[u].replaceability < s[v].replaceability);
    }
    if v < u {
        assert(s[v].replaceability < s[u].replaceability);
    }
}

/// What one installation does to a set: its length is kept, ages grow by at
/// most one, the tag is held afterwards and no other tag is gained; a hit
/// keeps the vacancies, a miss fills one if there is any.
pub proof fn lemma_after_insert(s: Seq<Data>, tag: usize, policy: ReplacementPolicy, draw: int, bound: nat)
    requires
        0 <= draw < s.len(),
    ensures
        after_insert(s, tag, policy, draw).len() == s.len(),
        ages_at_most(s, bound) && bound < usize::MAX ==> ages_at_most(
            after_insert(s, tag, policy, draw),
            bound + 1,
        ),
        holds_tag(after_insert(s, tag, policy, draw), tag),
        forall|x: usize|
            holds_tag(after_insert(s, tag, policy, draw), x) ==> holds_tag(s, x) || x == tag,
        holds_tag(s, tag) ==> vacancies(after_insert(s, tag, policy, draw)) == vacancies(s),
        !holds_tag(s, tag) && vacancies(s) > 0 ==> vacancies(after_insert(s, tag, policy, draw))
            + 1 == vacancies(s),
        !holds_tag(s, tag) && vacancies(s) == 0 ==> vacancies(after_insert(s, tag, policy, draw))
            == 0,
{
    let t = after_insert(s, tag, policy, draw);
    if holds_tag(s, tag) {
        lemma_tag_way(s, tag);
        lemma_vacancies_same(s, t);
        let k = tag_way(s, tag);
        assert(t[k].is_initialized && t[k].tag == tag);
        assert forall|x: usize| holds_tag(t, x) implies holds_tag(s, x) || x == tag by {
            let i = choose|i: int| 0 <= i < t.len() && t[i].is_initialized && t[i].tag == x;
            assert(s[i].is_initialized && s[i].tag == x);
        }
    } else {
        let k = if vacancies(s) > 0 {
            first_vacancy(s)
        } else if policy == ReplacementPolicy::Random {
            draw
        } else {
            victim(s)
        };
        lemma_vacancies(s);
        if vacancies(s) > 0 {
            lemma_first_vacancy(s);
        } else if policy != ReplacementPolicy::Random {
            assert(s[0].is_initialized);
            lemma_victim_exists(s);
        }
        assert(0 <= k < s.len());
        let u = installed(s, k, tag);
        assert(t == refreshed(u, k, policy));
        assert(t[k].is_initialized && t[k].tag == tag);
        assert forall|x: usize| holds_tag(t, x) implies holds_tag(s, x) || x == tag by {
            let i = choose|i: int| 0 <= i < t.len() && t[i].is_initialized && t[i].tag == x;
            if i != k {
                assert(s[i].is_initialized && s[i].tag == x);
            }
        }
        if vacancies(s) > 0 {
            lemma_vacancies_fill(s, t, k);
        } else {
            lemma_vacancies_same(s, t);
        }
    }
}

/// A set whose ways are all initialized, and not empty, has a victim.
pub proof fn lemma_victim_exists(s: Seq<Data>)
    requires
        s.len() > 0,
        forall|i: int| 0 <= i < s.len() ==> s[i].is_initialized,
    ensures
        is_victim(s, victim(s)),
{
    let v = lemma_victim_of_prefix(s, s.len() as int);
    assert(is_victim(s, v));
}

/// The victim among the first `n` ways.
proof fn lemma_victim_of_prefix(s: Seq<Data>, n: int) -> (v: int)
    requires
        0 < n <= s.len(),
        forall|i: int| 0 <= i < s.len() ==> s[i].is_initialized,
    ensures
        0 <= v < n,
        forall|j: int| 0 <= j < n ==> s[j].replaceability <= s[v].replaceability,
        forall|j: int| 0 <= j < v ==> s[j].replaceability < s[v].replaceability,
    decreases n,
{
    if n == 1 {
        0
    } else {
        let b = lemma_victim_of_prefix(s, n - 1);
        if s[b].replaceability < s[n - 1].replaceability {
            n - 1
        } else {
            b
        }
    }
}

/// Position in `h` of the last access of `t`, or -1 if there is none.
pub open spec fn last_access(h: Seq<usize>, t: usize) -> int
    decreases h.len(),
{
    if h.len() == 0 {
        -1
    } else if h.last() == t {
        h.len() - 1
    } else {
        last_access(h.drop_last(), t)
    }
}

/// A set of `assoc` ways, none filled.
pub open spec fn empty_set(assoc: nat) -> Seq<Data> {
    Seq::new(assoc, |j: int| Data { tag: 0, is_initialized: false, replaceability: 0 })
}

/// An empty LRU set after the accesses of the tags `h`, in order.
pub open spec fn lru_set_after(h: Seq<usize>, assoc: nat) -> Seq<Data>
    decreases h.len(),
{
    if h.len() == 0 {
        empty_set(assoc)
    } else {
        after_insert(lru_set_after(h.drop_last(), assoc), h.last(), ReplacementPolicy::Lru, 0)
    }
}

/// The ages of `s` rank its tags by their last access in `h`: every held tag
/// was accessed, held tags differ, and the younger a way the later its tag's
/// last access.
pub open spec fn recency_ordered(s: Seq<Data>, h: Seq<usize>) -> bool {
    &&& forall|i: int| 0 <= i < s.len() && s[i].is_initialized ==> last_access(h, #[trigger] s[i].tag) >= 0
    &&& forall|i: int, j: int|
        0 <= i < s.len() && 0 <= j < s.len() && s[i].is_initialized && s[j].is_initialized && i
            != j ==> #[trigger] s[i].tag != #[trigger] s[j].tag
    &&& forall|i: int, j: int|
        0 <= i < s.len() && 0 <= j < s.len() && s[i].is_initialized && s[j].is_initialized ==> (
        #[trigger] s[i].replaceability < #[trigger] s[j].replaceability <==> last_access(h, s[i].tag)
            > last_access(h, s[j].tag))
}

proof fn lemma_last_access(h: Seq<usize>, t: usize)
    ensures
        -1 <= last_access(h, t) < h.len(),
        last_access(h, t) >= 0 ==> h[last_access(h, t)] == t,
    decreases h.len(),
{
    if h.len() > 0 {
        lemma_last_access(h.drop_last(), t);
    }
}

/// One LRU access keeps the ages ranked by recency.
proof fn lemma_recency_step(s: Seq<Data>, h: Seq<usize>, t: usize)
    requires
        s.len() > 0,
        recency_ordered(s, h),
        ages_at_most(s, h.len()),
        h.len() < usize::MAX,
    ensures
        recency_ordered(after_insert(s, t, ReplacementPolicy::Lru, 0), h.push(t)),
        ages_at_most(after_insert(s, t, ReplacementPolicy::Lru, 0), h.len() + 1),
{
    let a = after_insert(s, t, ReplacementPolicy::Lru, 0);
    let g = h.push(t);
    lemma_after_insert(s, t, ReplacementPolicy::Lru, 0, h.len());
    assert(g.drop_last() =~= h);
    let k = if holds_tag(s, t) {
        tag_way(s, t)
    } else if vacancies(s) > 0 {
        first_vacancy(s)
    } else {
        victim(s)
    };
    lemma_vacancies(s);
    if holds_tag(s, t) {
        lemma_tag_way(s, t);
    } else if vacancies(s) > 0 {
        lemma_first_vacancy(s);
    } else {
        lemma_victim_exists(s);
    }
    assert(a == aged(if holds_tag(s, t) { s } else { installed(s, k, t) }, k, 0));
    assert forall|x: usize| x != t implies last_access(g, x) == last_access(h, x) by {}
    assert(last_access(g, t) == h.len());
    assert forall|x: usize| #![auto] last_access(h, x) < h.len() by {
        lemma_last_access(h, x);
    }
    assert forall|i: int| 0 <= i < a.len() && a[i].is_initialized implies last_access(g, #[trigger] a[i].tag) >= 0 by {
        if i != k && a[i].tag != t {
            assert(s[i].is_initialized && s[i].tag == a[i].tag);
        }
    }
    assert forall|i: int, j: int|
        0 <= i < a.len() && 0 <= j < a.len() && a[i].is_initialized && a[j].is_initialized && i
            != j implies #[trigger] a[i].tag != #[trigger] a[j].tag by {
        if i != k && j != k {
            assert(s[i].tag != s[j].tag);
        } else if i == k {
            assert(s[j].is_initialized);
            if s[j].tag == t {
                lemma_tag_way(s, t);
            }
        } else {
            assert(s[i].is_initialized);
            if s[i].tag == t {
                lemma_tag_way(s, t);
            }
        }
    }
    assert forall|i: int, j: int|
        0 <= i < a.len() && 0 <= j < a.len() && a[i].is_initialized && a[j].is_initialized implies (
        #[trigger] a[i].replaceability < #[trigger] a[j].replaceability <==> last_access(g, a[i].tag)
            > last_access(g, a[j].tag)) by {
        if i != k && j != k {
            assert(s[i].is_initialized && s[j].is_initialized);
            assert(s[i].replaceability < s[j].replaceability <==> last_access(h, s[i].tag)
                > last_access(h, s[j].tag));
            if s[i].tag == t {
                lemma_tag_way(s, t);
                assert(s[k].tag == t);
            }
            if s[j].tag == t {
                lemma_tag_way(s, t);
                assert(s[k].tag == t);
            }
        } else if i == k && j != k {
            assert(s[j].is_initialized);
            if s[j].tag == t {
                lemma_tag_way(s, t);
            }
            assert(s[j].replaceability <= h.len());
        } else if j == k && i != k {
            assert(s[i].is_initialized);
            if s[i].tag == t {
                lemma_tag_way(s, t);
            }
            assert(s[i].replaceability <= h.len());
        }
    }
}

/// An empty LRU set after the accesses `h` has `assoc` ways whose ages rank
/// its tags by recency.
proof fn lemma_lru_set_after(h: Seq<usize>, assoc: nat)
    requires
        assoc > 0,
        h.len() < usize::MAX,
    ensures
        lru_set_after(h, assoc).len() == assoc,
        recency_ordered(lru_set_after(h, assoc), h),
        ages_at_most(lru_set_after(h, assoc), h.len()),
    decreases h.len(),
{
    if h.len() > 0 {
        lemma_lru_set_after(h.drop_last(), assoc);
        lemma_recency_step(lru_set_after(h.drop_last(), assoc), h.drop_last(), h.last());
        assert(h.drop_last().push(h.last()) =~= h);
        lemma_after_insert(lru_set_after(h.drop_last(), assoc), h.last(), ReplacementPolicy::Lru, 0, 0);
    }
}

/// Under LRU, a full set evicts the way whose tag was accessed least
/// recently: after the accesses `h` to a set that started empty, the victim's
/// tag has an earlier last access than the tag of every other way.
pub proof fn lemma_lru_evicts_least_recent(h: Seq<usize>, assoc: nat, j: int)
    requires
        assoc > 0,
        h.len() < usize::MAX,
        vacancies(lru_set_after(h, assoc)) == 0,
        0 <= j < assoc,
        j != victim(lru_set_after(h, assoc)),
    ensures
        last_access(h, lru_set_after(h, assoc)[victim(lru_set_after(h, assoc))].tag) < last_access(
            h,
            lru_set_after(h, assoc)[j].tag,
        ),
{
    let s = lru_set_after(h, assoc);
    lemma_lru_set_after(h, assoc);
    lemma_vacancies(s);
    lemma_victim_exists(s);
    let v = victim(s);
    assert(s[j].is_initialized && s[v].is_initialized);
    assert(s[j].tag != s[v].tag);
    assert(s[j].replaceability <= s[v].replaceability);
    lemma_last_access(h, s[j].tag);
    lemma_last_access(h, s[v].tag);
    if s[j].replaceability == s[v].replaceability {
        assert(last_access(h, s[j].tag) == last_access(h, s[v].tag));
    }
}

/// An empty FIFO set after the accesses of the tags `h`, in order.
pub open spec fn fifo_set_after(h: Seq<usize>, assoc: nat) -> Seq<Data>
    decreases h.len(),
{
    if h.len() == 0 {
        empty_set(assoc)
    } else {
        after_insert(fifo_set_after(h.drop_last(), assoc), h.last(), ReplacementPolicy::Fifo, 0)
    }
}

/// Position in `h` of the access that last installed `t` in an empty FIFO
/// set of `assoc` ways (a miss on `t`), or -1 if there is none.
pub open spec fn inserted_at(h: Seq<usize>, assoc: nat, t: usize) -> int
    decreases h.len(),
{
    if h.len() == 0 {
        -1
    } else if h.last() == t && !holds_tag(fifo_set_after(h.drop_last(), assoc), t) {
        h.len() - 1
    } else {
        inserted_at(h.drop_last(), assoc, t)
    }
}

/// The ages of `s` rank its tags by when they were installed: every held tag
/// was installed, held tags differ, every filled way has age at least 1, and
/// the younger a way the later its tag was installed.
pub open spec fn insertion_ordered(s: Seq<Data>, h: Seq<usize>, assoc: nat) -> bool {
    &&& forall|i: int|
        0 <= i < s.len() && s[i].is_initialized ==> inserted_at(h, assoc, #[trigger] s[i].tag) >= 0
            && s[i].replaceability >= 1
    &&& forall|i: int, j: int|
        0 <= i < s.len() && 0 <= j < s.len() && s[i].is_initialized && s[j].is_initialized && i
            != j ==> #[trigger] s[i].tag != #[trigger] s[j].tag
    &&& forall|i: int, j: int|
        0 <= i < s.len() && 0 <= j < s.len() && s[i].is_initialized && s[j].is_initialized ==> (
        #[trigger] s[i].replaceability < #[trigger] s[j].replaceability <==> inserted_at(
            h,
            assoc,
            s[i].tag,
        ) > inserted_at(h, assoc, s[j].tag))
}

proof fn lemma_inserted_at(h: Seq<usize>, assoc: nat, t: usize)
    ensures
        -1 <= inserted_at(h, assoc, t) < h.len(),
        inserted_at(h, assoc, t) >= 0 ==> h[inserted_at(h, assoc, t)] == t,
    decreases h.len(),
{
    if h.len() > 0 {
        lemma_inserted_at(h.drop_last(), assoc, t);
    }
}

/// One FIFO access keeps the ages ranked by installation.
proof fn lemma_insertion_step(h: Seq<usize>, assoc: nat, t: usize)
    requires
        assoc > 0,
        fifo_set_after(h, assoc).len() == assoc,
        insertion_ordered(fifo_set_after(h, assoc), h, assoc),
        ages_at_most(fifo_set_after(h, assoc), h.len()),
        h.len() < usize::MAX,
    ensures
        fifo_set_after(h.push(t), assoc).len() == assoc,
        insertion_ordered(fifo_set_after(h.push(t), assoc), h.push(t), assoc),
        ages_at_most(fifo_set_after(h.push(t), assoc), h.len() + 1),
{
    let s = fifo_set_after(h, assoc);
    let g = h.push(t);
    assert(g.drop_last() =~= h);
    let a = fifo_set_after(g, assoc);
    assert(a == after_insert(s, t, ReplacementPolicy::Fifo, 0));
    lemma_after_insert(s, t, ReplacementPolicy::Fifo, 0, h.len());
    assert forall|x: usize| #![auto] inserted_at(h, assoc, x) < h.len() by {
        lemma_inserted_at(h, assoc, x);
    }
    if holds_tag(s, t) {
        assert(a == s);
        assert forall|x: usize| #![auto] inserted_at(g, assoc, x) == inserted_at(h, assoc, x) by {}
        assert forall|i: int| 0 <= i < a.len() && a[i].is_initialized implies a[i].replaceability <= h.len() + 1 by {}
    } else {
        let k = if vacancies(s) > 0 {
            first_vacancy(s)
        } else {
            victim(s)
        };
        lemma_vacancies(s);
        if vacancies(s) > 0 {
            lemma_first_vacancy(s);
        } else {
            lemma_victim_exists(s);
        }
        assert(a == aged(installed(s, k, t), k, 1));
        assert forall|x: usize| x != t implies #[trigger] inserted_at(g, assoc, x) == inserted_at(h, assoc, x) by {}
        assert(inserted_at(g, assoc, t) == h.len());
        assert forall|i: int| 0 <= i < a.len() && a[i].is_initialized implies inserted_at(
            g,
            assoc,
            #[trigger] a[i].tag,
        ) >= 0 && a[i].replaceability >= 1 by {
            if i != k {
                assert(s[i].is_initialized);
                assert(s[i].tag != t);
            }
        }
        assert forall|i: int, j: int|
            0 <= i < a.len() && 0 <= j < a.len() && a[i].is_initialized && a[j].is_initialized && i
                != j implies #[trigger] a[i].tag != #[trigger] a[j].tag by {
            if i != k && j != k {
                assert(s[i].tag != s[j].tag);
            } else if i == k {
                assert(s[j].is_initialized);
            } else {
                assert(s[i].is_initialized);
            }
        }
        assert forall|i: int, j: int|
            0 <= i < a.len() && 0 <= j < a.len() && a[i].is_initialized && a[j].is_initialized implies (
            #[trigger] a[i].replaceability < #[trigger] a[j].replaceability <==> inserted_at(
                g,
                assoc,
                a[i].tag,
            ) > inserted_at(g, assoc, a[j].tag)) by {
            if i != k && j != k {
                assert(s[i].is_initialized && s[j].is_initialized);
                assert(s[i].tag != t && s[j].tag != t);
            } else if i == k && j != k {
                assert(s[j].is_initialized && s[j].tag != t);
            } else if j == k && i != k {
                assert(s[i].is_initialized && s[i].tag != t);
            }
        }
    }
}

/// An empty FIFO set after the accesses `h` has `assoc` ways whose ages rank
/// its tags by installation.
proof fn lemma_fifo_set_after(h: Seq<usize>, assoc: nat)
    requires
        assoc > 0,
        h.len() < usize::MAX,
    ensures
        fifo_set_after(h, assoc).len() == assoc,
        insertion_ordered(fifo_set_after(h, assoc), h, assoc),
        ages_at_most(fifo_set_after(h, assoc), h.len()),
    decreases h.len(),
{
    if h.len() > 0 {
        lemma_fifo_set_after(h.drop_last(), assoc);
        lemma_insertion_step(h.drop_last(), assoc, h.last());
        assert(h.drop_last().push(h.last()) =~= h);
    }
}

/// Under FIFO, a full set evicts the way whose tag was installed first,
/// whatever hits came since: after the accesses `h` to a set that started
/// empty, the victim's tag was installed before the tag of every other way.
pub proof fn lemma_fifo_evicts_first_inserted(h: Seq<usize>, assoc: nat, j: int)
    requires
        assoc > 0,
        h.len() < usize::MAX,
        vacancies(fifo_set_after(h, assoc)) == 0,
        0 <= j < assoc,
        j != victim(fifo_set_after(h, assoc)),
    ensures
        inserted_at(h, assoc, fifo_set_after(h, assoc)[victim(fifo_set_after(h, assoc))].tag)
            < inserted_at(h, assoc, fifo_set_after(h, assoc)[j].tag),
{
    let s = fifo_set_after(h, assoc);
    lemma_fifo_set_after(h, assoc);
    lemma_vacancies(s);
    lemma_victim_exists(s);
    let v = victim(s);
    assert(s[j].is_initialized && s[v].is_initialized);
    assert(s[j].tag != s[v].tag);
    assert(s[j].replaceability <= s[v].replaceability);
    lemma_inserted_at(h, assoc, s[j].tag);
    lemma_inserted_at(h, assoc, s[v].tag);
    if s[j].replaceability == s[v].replaceability {
        assert(inserted_at(h, assoc, s[j].tag) == inserted_at(h, assoc, s[v].tag));
    }
}

// ---------------------------------------------------------------------------
// Executable operations
/// Whether some initialized way holds `tag`.
pub fn has_tag(set: &Vec<Data>, tag: usize) -> (r: bool)
    ensures
        r == holds_tag(set@, tag),
{
    let mut i: usize = 0;
    while i < set.len()
        invariant
            i <= set@.len(),
            forall|j: int| 0 <= j < i ==> !(set@[j].is_initialized && set@[j].tag == tag),
        decreases set@.len() - i,
    {
        if set[i].is_initialized && set[i].tag == tag {
            return true;
        }
        i = i + 1;
    }
    false
}

/// The first initialized way that holds `tag`, if any.
pub fn get_index_by_tag(set: &Vec<Data>, tag: usize) -> (r: Option<usize>)
    ensures
        r is None <==> !holds_tag(set@, tag),
        r matches Some(i) ==> i == tag_way(set@, tag) && is_tag_way(set@, tag, i as int),
{
    let mut i: usize = 0;
    while i < set.len()
        invariant
            i <= set@.len(),
            forall|j: int| 0 <= j < i ==> !(set@[j].is_initialized && set@[j].tag == tag),
        decreases set@.len() - i,
    {
        if set[i].is_initialized && set[i].tag == tag {
            proof {
                lemma_tag_way(set@, tag);
            }
            return Some(i);
        }
        i = i + 1;
    }
    None
}

/// Number of ways never filled.
pub fn uninitialized_slots(set: &Vec<Data>) -> (r: usize)
    ensures
        r == vacancies(set@),
{
    let mut count: usize = 0;
    let mut i: usize = 0;
    while i < set.len()
        invariant
            i <= set@.len(),
            count == vacancies(set@.subrange(0, i as int)),
            count <= i,
        decreases set@.len() - i,
    {
        proof {
            assert(set@.subrange(0, i + 1).drop_last() =~= set@.subrange(0, i as int));
        }
        if !set[i].is_initialized {
            count = count + 1;
        }
        i = i + 1;
    }
    proof {
        assert(set@.subrange(0, i as int) =~= set@);
    }
    count
}

/// The first way never filled, if any.
pub fn first_vacant_slot_index(set: &Vec<Data>) -> (r: Option<usize>)
    ensures
        r is None <==> vacancies(set@) == 0,
        r matches Some(v) ==> v == first_vacancy(set@) && is_first_vacancy(set@, v as int),
{
    proof {
        lemma_vacancies(set@);
    }
    let mut i: usize = 0;
    while i < set.len()
        invariant
            i <= set@.len(),
            forall|j: int| 0 <= j < i ==> set@[j].is_initialized,
        decreases set@.len() - i,
    {
        if !set[i].is_initialized {
            proof {
                assert(!set@[i as int].is_initialized);
                lemma_vacancies(set@);
                lemma_first_vacancy(set@);
            }
            return Some(i);
        }
        i = i + 1;
    }
    None
}

/// The eviction candidate: the first initialized way of largest
/// replaceability; `None` when no way is initialized.
pub fn get_highest_replaceability_index(set: &Vec<Data>) -> (r: Option<usize>)
    ensures
        r is None <==> forall|i: int| 0 <= i < set@.len() ==> !set@[i].is_initialized,
        r matches Some(v) ==> v == victim(set@) && is_victim(set@, v as int),
{
    let mut best: Option<usize> = None;
    let mut i: usize = 0;
    while i < set.len()
        invariant
            i <= set@.len(),
            best is None ==> forall|j: int| 0 <= j < i ==> !set@[j].is_initialized,
            best matches Some(b) ==> {
                &&& b < i
                &&& set@[b as int].is_initialized
                &&& forall|j: int|
                    0 <= j < i && set@[j].is_initialized ==> set@[j].replaceability
                        <= set@[b as int].replaceability
                &&& forall|j: int|
                    0 <= j < b && set@[j].is_initialized ==> set@[j].replaceability
                        < set@[b as int].replaceability
            },
        decreases set@.len() - i,
    {
        if set[i].is_initialized {
            match best {
                None => {
                    best = Some(i);
                },
                Some(b) => {
                    if set[b].replaceability < set[i].replaceability {
                        best = Some(i);
                    }
                },
            }
        }
        i = i + 1;
    }
    if let Some(b) = best {
        proof {
            lemma_victim_unique(set@, b as int);
        }
    }
    best
}

/// Way `k` gets replaceability `fresh`, every other way ages by one.
fn age_ways(set: &mut Vec<Data>, k: usize, fresh: usize)
    requires
        k < old(set)@.len(),
        ages_at_most(old(set)@, (usize::MAX - 1) as nat),
    ensures
        final(set)@ == aged(old(set)@, k as int, fresh),
{
    let ghost start = set@;
    let mut i: usize = 0;
    while i < set.len()
        invariant
            i <= set@.len(),
            set@.len() == start.len(),
            k < start.len(),
            ages_at_most(start, (usize::MAX - 1) as nat),
            forall|j: int| 0 <= j < i ==> set@[j] == aged(start, k as int, fresh)[j],
            forall|j: int| i <= j < set@.len() ==> set@[j] == start[j],
        decreases set@.len() - i,
    {
        if i == k {
            set[i].replaceability = fresh;
        } else {
            assert(set@[i as int] == start[i as int]);
            assert(start[i as int].replaceability <= usize::MAX - 1);
            set[i].replaceability = set[i].replaceability + 1;
        }
        i = i + 1;
    }
    proof {
        assert(set@ =~= aged(start, k as int, fresh));
    }
}

/// Way `k` now holds `tag`.
fn install(set: &mut Vec<Data>, k: usize, tag: usize)
    requires
        k < old(set)@.len(),
    ensures
        final(set)@ == installed(old(set)@, k as int, tag),
{
    set[k].tag = tag;
    set[k].is_initialized = true;
    proof {
        assert(set@ =~= installed(old(set)@, k as int, tag));
    }
}

/// Bookkeeping of `policy` after way `k` was used or filled.
fn refresh(set: &mut Vec<Data>, k: usize, policy: ReplacementPolicy)
    requires
        k < old(set)@.len(),
        ages_at_most(old(set)@, (usize::MAX - 1) as nat),
    ensures
        final(set)@ == refreshed(old(set)@, k as int, policy),
{
    match policy {
        ReplacementPolicy::Lru => age_ways(set, k, 0),
        ReplacementPolicy::Fifo => age_ways(set, k, 1),
        ReplacementPolicy::Random => {},
    }
}

/// Updates the bookkeeping of a set on a hit on `tag`; only LRU keeps any.
pub fn register_hit(set: &mut Vec<Data>, tag: usize, policy: ReplacementPolicy)
    requires
        holds_tag(old(set)@, tag),
        ages_at_most(old(set)@, (usize::MAX - 1) as nat),
    ensures
        final(set)@ == after_hit(old(set)@, tag, policy),
{
    if let ReplacementPolicy::Lru = policy {
        match get_index_by_tag(set, tag) {
            Some(k) => age_ways(set, k, 0),
            None => {},
        }
    }
}

/// Installs `tag` as `after_insert` describes, with `draw` as the way that a
/// random eviction takes.
pub fn place_tag(set: &mut Vec<Data>, tag: usize, policy: ReplacementPolicy, draw: usize)
    requires
        draw < old(set)@.len(),
        ages_at_most(old(set)@, (usize::MAX - 1) as nat),
    ensures
        final(set)@ == after_insert(old(set)@, tag, policy, draw as int),
{
    if has_tag(set, tag) {
        register_hit(set, tag, policy);
        return;
    }
    let k = match first_vacant_slot_index(set) {
        Some(v) => v,
        None => match policy {
            ReplacementPolicy::Random => draw,
            _ => match get_highest_replaceability_index(set) {
                Some(v) => v,
                None => {
                    proof {
                        lemma_vacancies(set@);
                        assert(set@[0].is_initialized);
                    }
                    draw
                },
            },
        },
    };
    install(set, k, tag);
    refresh(set, k, policy);
}

/// Installs `tag` into the set under `policy`, evicting when the set is full
/// and does not hold it; a random eviction draws its way from `rng`.
pub fn insert_tag(set: &mut Vec<Data>, tag: usize, policy: ReplacementPolicy, rng: &mut StdRng)
    requires
        old(set)@.len() > 0,
        ages_at_most(old(set)@, (usize::MAX - 1) as nat),
    ensures
        exists|w: int|
            0 <= w < old(set)@.len() && final(set)@ == after_insert(old(set)@, tag, policy, w),
        !needs_draw(old(set)@, tag, policy) ==> final(set)@ == after_insert(
            old(set)@,
            tag,
            policy,
            0,
        ),
        !needs_draw(old(set)@, tag, policy) ==> *final(rng) == *old(rng),
{
    let draw = if matches!(policy, ReplacementPolicy::Random) && !has_tag(set, tag)
        && uninitialized_slots(set) == 0 {
        random_way(set.len(), rng)
    } else {
        0
    };
    place_tag(set, tag, policy, draw);
}

} // verus!
