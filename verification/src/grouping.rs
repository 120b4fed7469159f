//! Runs of rows, rows in order of their product names, and packages of a
//! given size: what they are, and the `itertools` calls that make them.

use crate::order::{ItemView, OrderItem};
use crate::row::{RowView, WooCommerceRow};
use crate::text::{lemma_str_le_antisym, str_le};
use itertools::Itertools;
use vstd::prelude::*;

verus! {

/// The product name of a row.
pub open spec fn row_name() -> spec_fn(RowView) -> Seq<char> {
    |row: RowView| row.product_name
}

/// The product name of an item.
pub open spec fn item_name() -> spec_fn(ItemView) -> Seq<char> {
    |item: ItemView| item.product_name
}

/// Those of `s` whose key is `k`, in the order in which they stand in `s`.
pub open spec fn keyed<T>(s: Seq<T>, key: spec_fn(T) -> Seq<char>, k: Seq<char>) -> Seq<T>
    decreases s.len(),
{
    if s.len() == 0 {
        s
    } else if key(s.last()) == k {
        keyed(s.drop_last(), key, k).push(s.last())
    } else {
        keyed(s.drop_last(), key, k)
    }
}

/// The keys of `s` never go down.
pub open spec fn ordered_by<T>(s: Seq<T>, key: spec_fn(T) -> Seq<char>) -> bool {
    forall|i: int, j: int|
        0 <= i <= j < s.len() ==> str_le(key(#[trigger] s[i]), key(#[trigger] s[j]))
}

/// `output` is `input` sorted by key, and what shares a key has kept its
/// order.
pub open spec fn is_stable_sort<T>(
    input: Seq<T>,
    output: Seq<T>,
    key: spec_fn(T) -> Seq<char>,
) -> bool {
    &&& output.len() == input.len()
    &&& ordered_by(output, key)
    &&& forall|k: Seq<char>| #[trigger] keyed(output, key, k) == keyed(input, key, k)
}

/// `groups` cuts `rows` into its runs: each group is a stretch of rows of
/// one order id, as long as it can be.
pub open spec fn is_run_partition(rows: Seq<RowView>, groups: Seq<Seq<RowView>>) -> bool {
    &&& groups.flatten() == rows
    &&& forall|k: int| 0 <= k < groups.len() ==> (#[trigger] groups[k]).len() > 0
    &&& forall|k: int, j: int|
        0 <= k < groups.len() && 0 <= j < groups[k].len() ==> (#[trigger] groups[k][j]).order_id
            == groups[k][0].order_id
    &&& forall|k: int|
        0 < k < groups.len() ==> (#[trigger] groups[k])[0].order_id != groups[k - 1][0].order_id
}

/// The runs of `rows`, found by going through the rows once: a row joins
/// the run before it if it has that run's order id, and starts a run of its
/// own if not. An order id that comes back later starts a run again.
pub open spec fn order_runs(rows: Seq<RowView>) -> Seq<Seq<RowView>>
    decreases rows.len(),
{
    if rows.len() == 0 {
        Seq::empty()
    } else {
        let earlier = order_runs(rows.drop_last());
        let row = rows.last();
        if earlier.len() > 0 && earlier.last().last().order_id == row.order_id {
            earlier.drop_last().push(earlier.last().push(row))
        } else {
            earlier.push(seq![row])
        }
    }
}

/// `chunks` cuts `items` into stretches of `size`, the last of which may be
/// shorter.
pub open spec fn is_chunking<T>(items: Seq<T>, chunks: Seq<Seq<T>>, size: int) -> bool {
    &&& chunks.flatten() == items
    &&& forall|c: int| 0 <= c < chunks.len() ==> 1 <= (#[trigger] chunks[c]).len() <= size
    &&& forall|c: int| 0 <= c < chunks.len() - 1 ==> (#[trigger] chunks[c]).len() == size
}

/// Groups rows by order id.
///
/// Trusted: this is `Itertools::group_by` with the order id as key, each
/// group collected as it comes. Its documentation says that consecutive
/// elements with the same key, a run, make one group.
#[verifier::external_body]
pub(crate) fn group_by_order<'a>(rows: &'a Vec<WooCommerceRow>) -> (groups: Vec<
    Vec<&'a WooCommerceRow>,
>)
    ensures
        is_run_partition(rows.deep_view(), groups.deep_view()),
{
    rows.iter().group_by(|row| row.order_id).into_iter().map(|(_, group)| group.collect()).collect()
}

/// Sorts rows by product name.
///
/// Trusted: this is `Itertools::sorted_by_key` with the product name as
/// key, which sorts with `slice::sort_by_key`. That sort is stable, and
/// `String` is ordered by its bytes, which is the order of its characters.
#[verifier::external_body]
pub(crate) fn sort_by_product_name<'a>(rows: &Vec<&'a WooCommerceRow>) -> (sorted: Vec<
    &'a WooCommerceRow,
>)
    ensures
        is_stable_sort(rows.deep_view(), sorted.deep_view(), row_name()),
{
    rows.iter().copied().sorted_by_key(|row| &row.product_name).collect()
}

/// Cuts items into packages of `size`.
///
/// Trusted: this is `Itertools::chunks`, each chunk collected as it comes.
/// Its documentation says that every chunk has `size` elements but the
/// last, which has what is left; it panics on a size of 0.
#[verifier::external_body]
pub(crate) fn chunk_items(items: Vec<OrderItem>, size: usize) -> (chunks: Vec<Vec<OrderItem>>)
    requires
        size > 0,
    ensures
        is_chunking(items.deep_view(), chunks.deep_view(), size as int),
{
    items.into_iter().chunks(size).into_iter().map(|chunk| chunk.collect()).collect()
}

/// What has a key in `s` stands in `keyed` under that key.
pub proof fn lemma_keyed_holds<T>(s: Seq<T>, key: spec_fn(T) -> Seq<char>, i: int)
    requires
        0 <= i < s.len(),
    ensures
        keyed(s, key, key(s[i])).contains(s[i]),
    decreases s.len(),
{
    let k = key(s[i]);
    if i == s.len() - 1 {
        let rest = keyed(s.drop_last(), key, k);
        assert(rest.push(s.last())[rest.len() as int] == s[i]);
    } else {
        lemma_keyed_holds(s.drop_last(), key, i);
        let rest = keyed(s.drop_last(), key, k);
        let at = choose|m: int| 0 <= m < rest.len() && rest[m] == s[i];
        assert(keyed(s, key, k)[at] == s[i]);
    }
}

/// What stands in `keyed` stands in `s`.
pub proof fn lemma_keyed_within<T>(s: Seq<T>, key: spec_fn(T) -> Seq<char>, k: Seq<char>, x: T)
    requires
        keyed(s, key, k).contains(x),
    ensures
        s.contains(x),
    decreases s.len(),
{
    if s.len() > 0 {
        let rest = keyed(s.drop_last(), key, k);
        if rest.contains(x) {
            lemma_keyed_within(s.drop_last(), key, k, x);
            let at = choose|m: int| 0 <= m < s.drop_last().len() && s.drop_last()[m] == x;
            assert(s[at] == x);
        } else {
            assert(s[s.len() - 1] == x);
        }
    }
}

/// A sort loses nothing and adds nothing.
pub proof fn lemma_sort_keeps_members<T>(a: Seq<T>, b: Seq<T>, key: spec_fn(T) -> Seq<char>, i: int)
    requires
        forall|k: Seq<char>| #[trigger] keyed(a, key, k) == keyed(b, key, k),
        0 <= i < a.len(),
    ensures
        b.contains(a[i]),
{
    lemma_keyed_holds(a, key, i);
    lemma_keyed_within(b, key, key(a[i]), a[i]);
}

/// Where nothing has the key `k`, `keyed` finds nothing.
pub proof fn lemma_keyed_none<T>(s: Seq<T>, key: spec_fn(T) -> Seq<char>, k: Seq<char>)
    requires
        forall|j: int| 0 <= j < s.len() ==> key(#[trigger] s[j]) != k,
    ensures
        keyed(s, key, k).len() == 0,
    decreases s.len(),
{
    if s.len() > 0 {
        assert(key(s[s.len() - 1]) != k);
        assert forall|j: int| 0 <= j < s.drop_last().len() implies key(
            #[trigger] s.drop_last()[j],
        ) != k by {
            assert(s.drop_last()[j] == s[j]);
        }
        lemma_keyed_none(s.drop_last(), key, k);
    }
}

/// `keyed` finds no more than there is.
pub proof fn lemma_keyed_len<T>(s: Seq<T>, key: spec_fn(T) -> Seq<char>, k: Seq<char>)
    ensures
        keyed(s, key, k).len() <= s.len(),
    decreases s.len(),
{
    if s.len() > 0 {
        lemma_keyed_len(s.drop_last(), key, k);
    }
}

/// Rows that are cut into runs are cut as `order_runs` cuts them.
pub proof fn lemma_runs_unique(rows: Seq<RowView>, groups: Seq<Seq<RowView>>)
    requires
        is_run_partition(rows, groups),
    ensures
        groups == order_runs(rows),
    decreases rows.len(),
{
    broadcast use Seq::lemma_flatten_push;

    if groups.len() == 0 {
        assert(groups =~= order_runs(rows));
    } else {
        let front = groups.drop_last();
        let last = groups.last();
        assert(groups == front.push(last));
        assert(rows == front.flatten() + last);
        assert(last.len() > 0);
        assert(rows.last() == last.last());
        if last.len() == 1 {
            assert(rows.drop_last() =~= front.flatten());
            assert forall|k: int| 0 < k < front.len() implies (#[trigger] front[k])[0].order_id
                != front[k - 1][0].order_id by {
                assert(front[k] == groups[k]);
                assert(front[k - 1] == groups[k - 1]);
            }
            assert(is_run_partition(rows.drop_last(), front));
            lemma_runs_unique(rows.drop_last(), front);
            if front.len() > 0 {
                let before = groups[groups.len() - 2];
                assert(front.last() == before);
                assert(before.len() > 0);
                assert(before[before.len() - 1].order_id == before[0].order_id);
                assert(groups[groups.len() - 1][0].order_id != before[0].order_id);
            }
            assert(last =~= seq![rows.last()]);
        } else {
            let shorter = front.push(last.drop_last());
            assert(rows.drop_last() =~= front.flatten() + last.drop_last());
            assert(shorter.flatten() == rows.drop_last());
            assert forall|k: int| 0 <= k < shorter.len() implies (#[trigger] shorter[k]).len()
                > 0 by {
                if k < front.len() {
                    assert(shorter[k] == groups[k]);
                }
            }
            assert forall|k: int, j: int|
                0 <= k < shorter.len() && 0 <= j < shorter[k].len() implies (
            #[trigger] shorter[k][j]).order_id == shorter[k][0].order_id by {
                assert(shorter[k][j] == groups[k][j]);
                assert(shorter[k][0] == groups[k][0]);
            }
            assert forall|k: int| 0 < k < shorter.len() implies (
            #[trigger] shorter[k])[0].order_id != shorter[k - 1][0].order_id by {
                assert(shorter[k][0] == groups[k][0]);
                assert(shorter[k - 1][0] == groups[k - 1][0]);
            }
            assert(is_run_partition(rows.drop_last(), shorter));
            lemma_runs_unique(rows.drop_last(), shorter);
            let earlier = order_runs(rows.drop_last());
            assert(earlier.last() == last.drop_last());
            assert(last.drop_last().last() == last[last.len() - 2]);
            assert(groups[groups.len() - 1][last.len() - 2].order_id == last[0].order_id);
            assert(groups[groups.len() - 1][last.len() - 1].order_id == last[0].order_id);
            assert(earlier.drop_last() =~= front);
            assert(last.drop_last().push(rows.last()) =~= last);
        }
    }
}

/// `order_runs` cuts rows into their runs.
pub proof fn lemma_order_runs_are_runs(rows: Seq<RowView>)
    ensures
        is_run_partition(rows, order_runs(rows)),
    decreases rows.len(),
{
    broadcast use Seq::lemma_flatten_push;

    let runs = order_runs(rows);
    if rows.len() == 0 {
        assert(runs.flatten() =~= rows);
    } else {
        let earlier = order_runs(rows.drop_last());
        let row = rows.last();
        lemma_order_runs_are_runs(rows.drop_last());
        assert(rows =~= rows.drop_last().push(row));
        if earlier.len() > 0 && earlier.last().last().order_id == row.order_id {
            let front = earlier.drop_last();
            let tail = earlier.last();
            assert(earlier == front.push(tail));
            assert(runs == front.push(tail.push(row)));
            assert(runs.flatten() =~= rows);
            assert(tail.len() > 0);
            assert(earlier[earlier.len() - 1][tail.len() - 1].order_id == tail[0].order_id);
            assert forall|k: int, j: int|
                0 <= k < runs.len() && 0 <= j < runs[k].len() implies (
            #[trigger] runs[k][j]).order_id == runs[k][0].order_id by {
                if j < earlier[k].len() {
                    assert(runs[k][j] == earlier[k][j]);
                }
                assert(runs[k][0] == earlier[k][0]);
            }
            assert forall|k: int| 0 < k < runs.len() implies (#[trigger] runs[k])[0].order_id
                != runs[k - 1][0].order_id by {
                assert(runs[k][0] == earlier[k][0]);
                assert(runs[k - 1][0] == earlier[k - 1][0]);
            }
        } else {
            assert(runs == earlier.push(seq![row]));
            assert(runs.flatten() =~= rows);
            assert forall|k: int, j: int|
                0 <= k < runs.len() && 0 <= j < runs[k].len() implies (
            #[trigger] runs[k][j]).order_id == runs[k][0].order_id by {
                if k < earlier.len() {
                    assert(runs[k][j] == earlier[k][j]);
                }
            }
            assert forall|k: int| 0 < k < runs.len() implies (#[trigger] runs[k])[0].order_id
                != runs[k - 1][0].order_id by {
                if k < earlier.len() {
                    assert(runs[k][0] == earlier[k][0]);
                    assert(runs[k - 1][0] == earlier[k - 1][0]);
                } else {
                    let tail = earlier.last();
                    assert(tail.len() > 0);
                    assert(earlier[earlier.len() - 1][tail.len() - 1].order_id
                        == tail[0].order_id);
                }
            }
        }
    }
}

/// Full chunks hold their size times their number.
pub proof fn lemma_full_chunks<T>(chunks: Seq<Seq<T>>, size: int)
    requires
        forall|c: int| 0 <= c < chunks.len() ==> (#[trigger] chunks[c]).len() == size,
    ensures
        chunks.flatten().len() == chunks.len() * size,
    decreases chunks.len(),
{
    broadcast use Seq::lemma_flatten_push;

    if chunks.len() > 0 {
        let front = chunks.drop_last();
        assert(chunks == front.push(chunks.last()));
        lemma_full_chunks(front, size);
        assert((front.len() + 1) * size == front.len() * size + size) by (nonlinear_arith);
    }
}

/// Chunks of a size are as many as it takes to hold every item, and no
/// more.
pub proof fn lemma_chunk_count<T>(items: Seq<T>, chunks: Seq<Seq<T>>, size: int)
    requires
        is_chunking(items, chunks, size),
        size > 0,
    ensures
        (chunks.len() - 1) * size < items.len() <= chunks.len() * size,
        items.len() == 0 <==> chunks.len() == 0,
{
    broadcast use Seq::lemma_flatten_push;

    if chunks.len() > 0 {
        let front = chunks.drop_last();
        assert(chunks == front.push(chunks.last()));
        lemma_full_chunks(front, size);
        assert((front.len() + 1) * size == front.len() * size + size) by (nonlinear_arith);
    } else {
        assert((0 - 1) * size < 0) by (nonlinear_arith)
            requires
                size > 0,
        ;
    }
}

/// What `keyed` finds has the key.
pub proof fn lemma_keyed_has_key<T>(s: Seq<T>, key: spec_fn(T) -> Seq<char>, k: Seq<char>, i: int)
    requires
        0 <= i < keyed(s, key, k).len(),
    ensures
        key(keyed(s, key, k)[i]) == k,
    decreases s.len(),
{
    if s.len() > 0 {
        let rest = keyed(s.drop_last(), key, k);
        if i < rest.len() {
            lemma_keyed_has_key(s.drop_last(), key, k, i);
        }
    }
}

/// There is one way only to sort a sequence so that what shares a key
/// keeps its order.
pub proof fn lemma_stable_sort_is_unique<T>(
    input: Seq<T>,
    a: Seq<T>,
    b: Seq<T>,
    key: spec_fn(T) -> Seq<char>,
)
    requires
        is_stable_sort(input, a, key),
        is_stable_sort(input, b, key),
    ensures
        a == b,
    decreases a.len(),
{
    if a.len() == 0 {
        assert(a =~= b);
    } else {
        let n = a.len() as int;
        let x = a[n - 1];
        let y = b[n - 1];
        let front_a = a.drop_last();
        let front_b = b.drop_last();
        assert(keyed(a, key, key(y)) == keyed(b, key, key(y)));
        assert(keyed(a, key, key(x)) == keyed(b, key, key(x)));
        lemma_sort_keeps_members(b, a, key, n - 1);
        lemma_sort_keeps_members(a, b, key, n - 1);
        let i = choose|i: int| 0 <= i < a.len() && a[i] == y;
        let j = choose|j: int| 0 <= j < b.len() && b[j] == x;
        assert(str_le(key(a[i]), key(a[n - 1])));
        assert(str_le(key(b[j]), key(b[n - 1])));
        lemma_str_le_antisym(key(x), key(y));
        let k = key(x);
        let kept_a = keyed(front_a, key, k);
        let kept_b = keyed(front_b, key, k);
        assert(keyed(a, key, k) == kept_a.push(x));
        assert(keyed(b, key, k) == kept_b.push(y));
        assert(kept_a.push(x).last() == x);
        assert(kept_b.push(y).last() == y);
        assert(x == y);
        assert(kept_a.push(x).drop_last() == kept_a);
        assert(kept_b.push(y).drop_last() == kept_b);
        assert forall|i: int, j: int| 0 <= i <= j < front_a.len() implies str_le(
            key(#[trigger] front_a[i]),
            key(#[trigger] front_a[j]),
        ) by {
            assert(str_le(key(a[i]), key(a[j])));
        }
        assert forall|i: int, j: int| 0 <= i <= j < front_b.len() implies str_le(
            key(#[trigger] front_b[i]),
            key(#[trigger] front_b[j]),
        ) by {
            assert(str_le(key(b[i]), key(b[j])));
        }
        assert forall|other: Seq<char>| #[trigger]
            keyed(front_b, key, other) == keyed(front_a, key, other) by {
            assert(keyed(a, key, other) == keyed(b, key, other));
        }
        lemma_stable_sort_is_unique(front_a, front_a, front_b, key);
        assert(a =~= front_a.push(x));
        assert(b =~= front_b.push(y));
    }
}

/// Each chunk is the stretch of the items that begins where the chunks
/// before it end.
pub proof fn lemma_chunk_is_slice<T>(items: Seq<T>, chunks: Seq<Seq<T>>, size: int, c: int)
    requires
        is_chunking(items, chunks, size),
        0 <= c < chunks.len(),
    ensures
        0 <= c * size,
        c * size + chunks[c].len() <= items.len(),
        chunks[c] == items.subrange(c * size, c * size + chunks[c].len()),
{
    let before = chunks.take(c);
    let after = chunks.skip(c + 1);
    lemma_full_chunks(before, size);
    assert(chunks =~= before + seq![chunks[c]] + after);
    vstd::seq_lib::lemma_flatten_concat(before + seq![chunks[c]], after);
    vstd::seq_lib::lemma_flatten_concat(before, seq![chunks[c]]);
    seq![chunks[c]].lemma_flatten_one_element();
    assert(items == before.flatten() + chunks[c] + after.flatten());
    assert(c * size >= 0) by (nonlinear_arith)
        requires
            c >= 0,
            size >= 1,
    ;
    assert(chunks[c] =~= items.subrange(c * size, c * size + chunks[c].len()));
}

/// There is one way only to cut items into chunks of a size.
pub proof fn lemma_chunking_is_unique<T>(
    items: Seq<T>,
    a: Seq<Seq<T>>,
    b: Seq<Seq<T>>,
    size: int,
)
    requires
        is_chunking(items, a, size),
        is_chunking(items, b, size),
        size > 0,
    ensures
        a == b,
{
    lemma_chunk_count(items, a, size);
    lemma_chunk_count(items, b, size);
    let made_a = a.len() as int;
    let made_b = b.len() as int;
    let n = items.len() as int;
    assert(made_a == made_b) by (nonlinear_arith)
        requires
            (made_a - 1) * size < n <= made_a * size,
            (made_b - 1) * size < n <= made_b * size,
            size > 0,
    ;
    assert forall|c: int| 0 <= c < a.len() implies #[trigger] a[c] == b[c] by {
        lemma_chunk_is_slice(items, a, size, c);
        lemma_chunk_is_slice(items, b, size, c);
        if c == a.len() - 1 {
            let front_a = a.drop_last();
            let front_b = b.drop_last();
            lemma_full_chunks(front_a, size);
            lemma_full_chunks(front_b, size);
            assert(a == front_a.push(a.last()));
            assert(b == front_b.push(b.last()));
            front_a.lemma_flatten_push(a.last());
            front_b.lemma_flatten_push(b.last());
            assert(a[c].len() == b[c].len());
        }
    }
    assert(a =~= b);
}

} // verus!
