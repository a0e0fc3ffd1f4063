//! Filtering debt items by kind, author and age, and ordering them oldest
//! first.
use vstd::prelude::*;

use crate::text::{contains_seq, contains_str};
use crate::types::{str_lower, to_lowercase, CommentType, DebtItem};

verus! {

/// `<[T]>::swap` exchanges the elements at two positions; it panics when
/// either is out of bounds.
pub assume_specification<T>[ <[T]>::swap ](s: &mut [T], a: usize, b: usize)
    requires
        a < old(s)@.len(),
        b < old(s)@.len(),
    ensures
        final(s)@ == old(s)@.update(a as int, old(s)@[b as int]).update(b as int, old(s)@[a as int]),
;

/// Filter criteria for debt items.
#[derive(Debug, Clone)]
pub struct Filters {
    /// Keep only these kinds.
    pub types: Option<Vec<CommentType>>,
    /// Keep only items whose author contains this, ignoring case.
    pub author: Option<String>,
    /// Keep only items older than this many days.
    pub older_than: Option<i64>,
}

impl Default for Filters {
    fn default() -> (res: Self)
        ensures
            res.types is None,
            res.author is None,
            res.older_than is None,
    {
        Filters { types: None, author: None, older_than: None }
    }
}

/// The kind criterion.
pub open spec fn type_ok(f: Filters, it: DebtItem) -> bool {
    f.types matches Some(ts) ==> ts@.contains(it.comment_type)
}

/// The author criterion: the lower-cased author contains the lower-cased
/// filter; an item with no author fails it.
pub open spec fn author_ok(f: Filters, it: DebtItem) -> bool {
    f.author matches Some(a) ==> (it.author matches Some(x) && contains_seq(
        str_lower(x@),
        str_lower(a@),
    ))
}

/// The age criterion: strictly older than the threshold; an item of
/// unknown age fails it.
pub open spec fn age_ok(f: Filters, it: DebtItem) -> bool {
    f.older_than matches Some(m) ==> (it.days_ago matches Some(d) && d > m)
}

/// An item passes the filters when it meets every criterion that is set.
pub open spec fn keeps(f: Filters, it: DebtItem) -> bool {
    type_ok(f, it) && author_ok(f, it) && age_ok(f, it)
}

/// The items that pass, in their order.
pub open spec fn filtered(s: Seq<DebtItem>, f: Filters) -> Seq<DebtItem>
    decreases s.len(),
{
    if s.len() == 0 {
        Seq::empty()
    } else if keeps(f, s.last()) {
        filtered(s.drop_last(), f).push(s.last())
    } else {
        filtered(s.drop_last(), f)
    }
}

fn contains_type(ts: &Vec<CommentType>, t: CommentType) -> (res: bool)
    ensures
        res == ts@.contains(t),
{
    let mut i: usize = 0;
    while i < ts.len()
        invariant
            i <= ts@.len(),
            forall|k: int| 0 <= k < i ==> ts@[k] != t,
        decreases ts@.len() - i,
    {
        if ts[i] == t {
            assert(ts@[i as int] == t);
            return true;
        }
        i = i + 1;
    }
    false
}

fn passes(it: &DebtItem, filters: &Filters) -> (res: bool)
    ensures
        res == keeps(*filters, *it),
{
    match &filters.types {
        Some(ts) => {
            if !contains_type(ts, it.comment_type) {
                return false;
            }
        },
        None => {},
    }
    match &filters.author {
        Some(a) => match &it.author {
            Some(x) => {
                let xl = to_lowercase(x.as_str());
                let al = to_lowercase(a.as_str());
                if !contains_str(xl.as_str(), al.as_str()) {
                    return false;
                }
            },
            None => {
                return false;
            },
        },
        None => {},
    }
    match filters.older_than {
        Some(m) => match it.days_ago {
            Some(d) => {
                if d <= m {
                    return false;
                }
            },
            None => {
                return false;
            },
        },
        None => {},
    }
    true
}

/// The items that pass the filters, in the order they came in.
pub fn apply_filters(items: Vec<DebtItem>, filters: &Filters) -> (res: Vec<DebtItem>)
    ensures
        res@ == filtered(items@, *filters),
{
    let mut out: Vec<DebtItem> = Vec::new();
    let ghost all = items@;
    for it in iter: items
        invariant
            iter.seq() == all,
            out@ == filtered(all.take(iter.index() as int), *filters),
    {
        let ghost i = iter.index();
        assert(all.take(i + 1).drop_last() =~= all.take(i as int));
        if passes(&it, filters) {
            out.push(it);
        }
    }
    assert(all.take(all.len() as int) =~= all);
    out
}

// ---------------------------------------------------------------------------
// Laws of filtering
// ---------------------------------------------------------------------------

/// The filtered items are among the input, each passes, and every input item
/// that passes is kept.
pub proof fn lemma_filtered_members(s: Seq<DebtItem>, f: Filters)
    ensures
        forall|i: int|
            0 <= i < filtered(s, f).len() ==> keeps(f, #[trigger] filtered(s, f)[i]) && s.contains(
                filtered(s, f)[i],
            ),
        forall|i: int| 0 <= i < s.len() && keeps(f, #[trigger] s[i]) ==> filtered(s, f).contains(
            s[i],
        ),
        filtered(s, f).len() <= s.len(),
    decreases s.len(),
{
    if s.len() > 0 {
        let p = s.drop_last();
        lemma_filtered_members(p, f);
        let fp = filtered(p, f);
        assert forall|i: int| 0 <= i < filtered(s, f).len() implies keeps(
            f,
            #[trigger] filtered(s, f)[i],
        ) && s.contains(filtered(s, f)[i]) by {
            if i < fp.len() {
                assert(filtered(s, f)[i] == fp[i]);
                assert(p.contains(fp[i]));
                let k = choose|k: int| 0 <= k < p.len() && p[k] == fp[i];
                assert(s[k] == fp[i]);
            } else {
                assert(s[s.len() - 1] == filtered(s, f)[i]);
            }
        }
        assert forall|i: int| 0 <= i < s.len() && keeps(f, #[trigger] s[i]) implies filtered(
            s,
            f,
        ).contains(s[i]) by {
            if i < s.len() - 1 {
                assert(p[i] == s[i]);
                assert(fp.contains(p[i]));
                if keeps(f, s.last()) {
                    let k = choose|k: int| 0 <= k < fp.len() && fp[k] == p[i];
                    assert(fp.push(s.last())[k] == s[i]);
                }
            } else {
                assert(fp.push(s.last())[fp.len() as int] == s[i]);
            }
        }
    }
}

/// `a` stands in `x` character by character from position `i` on.
pub open spec fn stands_at(x: Seq<char>, a: Seq<char>, i: int) -> bool {
    0 <= i && i + a.len() <= x.len() && forall|k: int| 0 <= k < a.len() ==> #[trigger] x[i + k] == a[k]
}

/// The author criterion is a case-insensitive substring test: with an
/// author filter set, an item passes it exactly when it has an author and
/// the lower-cased filter stands at some position (not only the first) of
/// the lower-cased author.
pub proof fn lemma_author_filter_substring(f: Filters, it: DebtItem)
    requires
        f.author is Some,
    ensures
        author_ok(f, it) <==> (it.author is Some && exists|i: int|
            #[trigger] stands_at(str_lower(it.author->0@), str_lower(f.author->0@), i)),
{
    if it.author is Some {
        let x = str_lower(it.author->0@);
        let a = str_lower(f.author->0@);
        if contains_seq(x, a) {
            let i = choose|i: int| #[trigger] crate::text::occurs_at(x, a, i);
            assert forall|k: int| 0 <= k < a.len() implies #[trigger] x[i + k] == a[k] by {
                assert(x.subrange(i, i + a.len())[k] == x[i + k]);
            }
            assert(stands_at(x, a, i));
        }
        if exists|i: int| #[trigger] stands_at(x, a, i) {
            let i = choose|i: int| #[trigger] stands_at(x, a, i);
            assert forall|k: int| 0 <= k < a.len() implies #[trigger] x.subrange(
                i,
                i + a.len(),
            )[k] == a[k] by {
                assert(x[i + k] == a[k]);
            }
            assert(x.subrange(i, i + a.len()) =~= a);
            assert(crate::text::occurs_at(x, a, i));
        }
    }
}

/// With no criterion set, every item is kept.
pub proof fn lemma_no_filters_keep_all(s: Seq<DebtItem>, f: Filters)
    requires
        f.types is None,
        f.author is None,
        f.older_than is None,
    ensures
        filtered(s, f) == s,
    decreases s.len(),
{
    if s.len() > 0 {
        lemma_no_filters_keep_all(s.drop_last(), f);
        assert(s.drop_last().push(s.last()) =~= s);
    }
}

/// Filtering twice with the same criteria is filtering once.
pub proof fn lemma_filter_idempotent(s: Seq<DebtItem>, f: Filters)
    ensures
        filtered(filtered(s, f), f) == filtered(s, f),
    decreases s.len(),
{
    if s.len() > 0 {
        lemma_filter_idempotent(s.drop_last(), f);
        let fp = filtered(s.drop_last(), f);
        if keeps(f, s.last()) {
            assert(fp.push(s.last()).drop_last() =~= fp);
        }
    }
}

/// The kind criterion alone.
pub open spec fn only_types(f: Filters) -> Filters {
    Filters { author: None, older_than: None, ..f }
}

/// The author criterion alone.
pub open spec fn only_author(f: Filters) -> Filters {
    Filters { types: None, older_than: None, ..f }
}

/// The age criterion alone.
pub open spec fn only_age(f: Filters) -> Filters {
    Filters { types: None, author: None, ..f }
}

/// Filtering by all criteria at once is filtering by kind, then by author,
/// then by age.
pub proof fn lemma_filters_compose(s: Seq<DebtItem>, f: Filters)
    ensures
        filtered(s, f) == filtered(filtered(filtered(s, only_types(f)), only_author(f)), only_age(f)),
    decreases s.len(),
{
    if s.len() > 0 {
        let p = s.drop_last();
        let x = s.last();
        lemma_filters_compose(p, f);
        let a = filtered(p, only_types(f));
        let b = filtered(a, only_author(f));
        if type_ok(f, x) {
            assert(a.push(x).drop_last() =~= a);
            if author_ok(f, x) {
                assert(b.push(x).drop_last() =~= b);
            }
        }
    }
}

// ---------------------------------------------------------------------------
// Oldest first
// ---------------------------------------------------------------------------

/// The age by which items are ordered: an unknown age counts as younger
/// than every known one.
pub open spec fn age_key(it: DebtItem) -> int {
    match it.days_ago {
        Some(d) => d as int,
        None => i64::MIN - 1,
    }
}

/// `x` put into `s` after every element at least as old as it.
pub open spec fn insert_by_age(s: Seq<DebtItem>, x: DebtItem) -> Seq<DebtItem>
    decreases s.len(),
{
    if s.len() == 0 {
        seq![x]
    } else if age_key(s.last()) >= age_key(x) {
        s.push(x)
    } else {
        insert_by_age(s.drop_last(), x).push(s.last())
    }
}

/// The items oldest first; items of equal age keep their order (a stable
/// sort by descending age).
pub open spec fn oldest_first(s: Seq<DebtItem>) -> Seq<DebtItem>
    decreases s.len(),
{
    if s.len() == 0 {
        Seq::empty()
    } else {
        insert_by_age(oldest_first(s.drop_last()), s.last())
    }
}

pub open spec fn is_oldest_first(s: Seq<DebtItem>) -> bool {
    forall|i: int, j: int| 0 <= i < j < s.len() ==> age_key(s[i]) >= age_key(s[j])
}

fn key_of(it: &DebtItem) -> (res: i128)
    ensures
        res == age_key(*it),
{
    match it.days_ago {
        Some(d) => d as i128,
        None => i64::MIN as i128 - 1,
    }
}

proof fn lemma_insert_step(p: Seq<DebtItem>, x: DebtItem, j: int)
    requires
        0 <= j < p.len(),
        age_key(p[j]) < age_key(x),
    ensures
        insert_by_age(p.take(j + 1), x) + p.skip(j + 1) == insert_by_age(p.take(j), x) + p.skip(j),
{
    assert(p.take(j + 1).drop_last() =~= p.take(j));
    assert(p.take(j + 1).last() == p[j]);
    assert(insert_by_age(p.take(j), x).push(p[j]) + p.skip(j + 1) =~= insert_by_age(p.take(j), x)
        + p.skip(j));
}

/// Orders the items oldest first (largest `days_ago` first); items with no
/// age go last.  Items of equal age keep their relative order.
pub fn sort_oldest_first(items: &mut [DebtItem])
    ensures
        final(items)@ == oldest_first(old(items)@),
{
    let ghost orig = items@;
    let n = items.len();
    if n == 0 {
        assert(orig =~= Seq::<DebtItem>::empty());
        return;
    }
    let mut i: usize = 1;
    assert(orig.take(1).drop_last() =~= Seq::<DebtItem>::empty());
    assert(oldest_first(orig.take(1).drop_last()) =~= Seq::<DebtItem>::empty());
    assert(insert_by_age(Seq::<DebtItem>::empty(), orig.take(1).last()) =~= seq![orig[0]]);
    assert(oldest_first(orig.take(1)) =~= orig.take(1));
    assert(items@ =~= orig.take(1) + orig.skip(1));
    while i < n
        invariant
            1 <= i <= n == items@.len() == orig.len(),
            items@ == oldest_first(orig.take(i as int)) + orig.skip(i as int),
        decreases n - i,
    {
        let ghost p = oldest_first(orig.take(i as int));
        let ghost x = orig[i as int];
        assert(orig.take(i + 1).drop_last() =~= orig.take(i as int));
        assert(orig.take(i + 1).last() == x);
        assert(p.len() == i) by {
            lemma_oldest_first_len(orig.take(i as int));
        }
        let mut j: usize = i;
        assert(items@ =~= p.take(j as int) + seq![x] + p.skip(j as int) + orig.skip(i + 1));
        assert(insert_by_age(p, x) + p.skip(i as int) =~= insert_by_age(p.take(i as int), x) + p.skip(
            i as int,
        )) by {
            assert(p.take(i as int) =~= p);
        }
        while j > 0 && key_of(&items[j - 1]) < key_of(&items[j])
            invariant
                0 <= j <= i < n == items@.len() == orig.len(),
                p.len() == i,
                items@ == p.take(j as int) + seq![x] + p.skip(j as int) + orig.skip(i + 1),
                insert_by_age(p, x) + p.skip(i as int) == insert_by_age(p.take(j as int), x) + p.skip(
                    j as int,
                ),
            decreases j,
        {
            assert(items@[j - 1] == p[j - 1]);
            assert(items@[j as int] == x);
            proof {
                lemma_insert_step(p, x, j - 1);
            }
            items.swap(j - 1, j);
            j = j - 1;
            assert(items@ =~= p.take(j as int) + seq![x] + p.skip(j as int) + orig.skip(i + 1));
        }
        assert(insert_by_age(p.take(j as int), x) =~= p.take(j as int).push(x)) by {
            if j > 0 {
                assert(items@[j - 1] == p[j - 1]);
                assert(items@[j as int] == x);
                assert(p.take(j as int).last() == p[j - 1]);
            }
        }
        assert(p.skip(i as int) =~= Seq::<DebtItem>::empty());
        assert(items@ =~= insert_by_age(p, x) + orig.skip(i + 1));
        i = i + 1;
    }
    assert(orig.take(n as int) =~= orig);
    assert(orig.skip(n as int) =~= Seq::<DebtItem>::empty());
    assert(items@ =~= oldest_first(orig));
}

proof fn lemma_insert_len(s: Seq<DebtItem>, x: DebtItem)
    ensures
        insert_by_age(s, x).len() == s.len() + 1,
    decreases s.len(),
{
    if s.len() > 0 {
        lemma_insert_len(s.drop_last(), x);
    }
}

proof fn lemma_oldest_first_len(s: Seq<DebtItem>)
    ensures
        oldest_first(s).len() == s.len(),
    decreases s.len(),
{
    if s.len() > 0 {
        lemma_oldest_first_len(s.drop_last());
        lemma_insert_len(oldest_first(s.drop_last()), s.last());
    }
}

proof fn lemma_insert_sorted(s: Seq<DebtItem>, x: DebtItem)
    requires
        is_oldest_first(s),
    ensures
        is_oldest_first(insert_by_age(s, x)),
        insert_by_age(s, x).to_multiset() == s.to_multiset().insert(x),
        forall|i: int|
            0 <= i < insert_by_age(s, x).len() ==> (age_key(#[trigger] insert_by_age(s, x)[i])
                == age_key(x) || exists|k: int|
                0 <= k < s.len() && age_key(s[k]) == age_key(insert_by_age(s, x)[i])),
    decreases s.len(),
{
    broadcast use vstd::seq_lib::group_to_multiset_ensures;

    if s.len() == 0 {
        assert(seq![x] =~= Seq::<DebtItem>::empty().push(x));
    } else if age_key(s.last()) >= age_key(x) {
        assert forall|i: int| 0 <= i < s.push(x).len() implies (age_key(#[trigger] s.push(x)[i])
            == age_key(x) || exists|k: int|
            0 <= k < s.len() && age_key(s[k]) == age_key(s.push(x)[i])) by {
            if i < s.len() {
                assert(s.push(x)[i] == s[i]);
            }
        }
    } else {
        let p = s.drop_last();
        let y = s.last();
        assert(is_oldest_first(p));
        lemma_insert_sorted(p, x);
        let q = insert_by_age(p, x);
        lemma_insert_len(p, x);
        assert forall|i: int| 0 <= i < q.len() implies age_key(#[trigger] q[i]) >= age_key(y) by {
            if age_key(q[i]) != age_key(x) {
                let k = choose|k: int| 0 <= k < p.len() && age_key(p[k]) == age_key(q[i]);
                assert(s[k] == p[k]);
            }
        }
        assert(is_oldest_first(q.push(y)));
        assert(s =~= p.push(y));
        assert(q.push(y).to_multiset() == s.to_multiset().insert(x));
        assert forall|i: int| 0 <= i < q.push(y).len() implies (age_key(#[trigger] q.push(y)[i])
            == age_key(x) || exists|k: int|
            0 <= k < s.len() && age_key(s[k]) == age_key(q.push(y)[i])) by {
            if i < q.len() {
                if age_key(q[i]) != age_key(x) {
                    let k = choose|k: int| 0 <= k < p.len() && age_key(p[k]) == age_key(q[i]);
                    assert(s[k] == p[k]);
                }
            } else {
                assert(s[s.len() - 1] == y);
            }
        }
    }
}

/// The ordering puts older items first and is a permutation of its input.
pub proof fn lemma_oldest_first_sorted(s: Seq<DebtItem>)
    ensures
        is_oldest_first(oldest_first(s)),
        oldest_first(s).to_multiset() == s.to_multiset(),
        oldest_first(s).len() == s.len(),
    decreases s.len(),
{
    broadcast use vstd::seq_lib::group_to_multiset_ensures;

    lemma_oldest_first_len(s);
    if s.len() > 0 {
        lemma_oldest_first_sorted(s.drop_last());
        lemma_insert_sorted(oldest_first(s.drop_last()), s.last());
        assert(s =~= s.drop_last().push(s.last()));
    }
}

/// Items already oldest first are left as they are.
pub proof fn lemma_oldest_first_fixed(s: Seq<DebtItem>)
    requires
        is_oldest_first(s),
    ensures
        oldest_first(s) == s,
    decreases s.len(),
{
    if s.len() > 0 {
        assert(is_oldest_first(s.drop_last()));
        lemma_oldest_first_fixed(s.drop_last());
        assert(s.drop_last().push(s.last()) =~= s);
    }
}

/// Ordering twice is ordering once.
pub proof fn lemma_oldest_first_idempotent(s: Seq<DebtItem>)
    ensures
        oldest_first(oldest_first(s)) == oldest_first(s),
{
    lemma_oldest_first_sorted(s);
    lemma_oldest_first_fixed(oldest_first(s));
}

/// The items of age `k`, in their order.
pub open spec fn of_age(s: Seq<DebtItem>, k: int) -> Seq<DebtItem>
    decreases s.len(),
{
    if s.len() == 0 {
        Seq::empty()
    } else if age_key(s.last()) == k {
        of_age(s.drop_last(), k).push(s.last())
    } else {
        of_age(s.drop_last(), k)
    }
}

proof fn lemma_of_age_insert(t: Seq<DebtItem>, x: DebtItem, k: int)
    ensures
        of_age(insert_by_age(t, x), k) == if age_key(x) == k {
            of_age(t, k).push(x)
        } else {
            of_age(t, k)
        },
    decreases t.len(),
{
    if t.len() == 0 {
        assert(seq![x].drop_last() =~= Seq::<DebtItem>::empty());
        assert(of_age(Seq::<DebtItem>::empty(), k) =~= Seq::<DebtItem>::empty());
    } else if age_key(t.last()) >= age_key(x) {
        assert(t.push(x).drop_last() =~= t);
    } else {
        let p = t.drop_last();
        let y = t.last();
        lemma_of_age_insert(p, x, k);
        let q = insert_by_age(p, x);
        assert(q.push(y).drop_last() =~= q);
        if age_key(x) == k {
            assert(of_age(p, k).push(x) =~= of_age(t, k).push(x));
        }
    }
}

/// Ordering oldest first is stable: the items of any one age come out in the
/// order they went in.
pub proof fn lemma_oldest_first_stable(s: Seq<DebtItem>, k: int)
    ensures
        of_age(oldest_first(s), k) == of_age(s, k),
    decreases s.len(),
{
    if s.len() > 0 {
        lemma_oldest_first_stable(s.drop_last(), k);
        lemma_of_age_insert(oldest_first(s.drop_last()), s.last(), k);
    }
}

/// Items without a known age come after every item whose age is known.
pub proof fn lemma_unknown_age_last(s: Seq<DebtItem>)
    ensures
        forall|i: int, j: int|
            0 <= i < j < oldest_first(s).len() && (#[trigger] oldest_first(s)[j]).days_ago is Some
                ==> (#[trigger] oldest_first(s)[i]).days_ago is Some,
{
    lemma_oldest_first_sorted(s);
}

} // verus!
