//! How many lines of the export name each product.

use crate::grouping::{
    keyed, lemma_keyed_has_key, lemma_keyed_len, lemma_keyed_none, lemma_keyed_within,
    lemma_sort_keeps_members, ordered_by, row_name, sort_by_product_name,
};
use crate::input::InputData;
use crate::row::{RowView, WooCommerceRow};
use crate::text::{lemma_str_le_antisym, lemma_str_le_trans, str_le, str_lt};
use vstd::prelude::*;

verus! {

/// A product and the number of rows that name it.
#[derive(Debug)]
pub struct SummaryRow {
    pub product_name: String,
    pub total_quantity: u32,
}

impl Clone for SummaryRow {
    fn clone(&self) -> (res: Self)
        ensures
            res.product_name@ == self.product_name@,
            res.total_quantity == self.total_quantity,
    {
        SummaryRow { product_name: self.product_name.clone(), total_quantity: self.total_quantity }
    }
}

/// How many of `rows` name the product `name`. Each row counts once,
/// whatever its quantity.
pub open spec fn row_count(rows: Seq<RowView>, name: Seq<char>) -> nat {
    keyed(rows, row_name(), name).len()
}

/// The names of `entries` go up strictly.
pub open spec fn names_ascend(entries: Seq<(Seq<char>, u32)>) -> bool {
    forall|i: int, j: int|
        0 <= i < j < entries.len() ==> str_lt((#[trigger] entries[i]).0, (#[trigger] entries[j]).0)
}

/// Each of `entries` counts the rows of `rows` that name its product.
pub open spec fn counts_match(rows: Seq<RowView>, entries: Seq<(Seq<char>, u32)>) -> bool {
    forall|i: int|
        0 <= i < entries.len() ==> (#[trigger] entries[i]).1 >= 1 && entries[i].1 == row_count(
            rows,
            entries[i].0,
        )
}

/// `entries` names the product `name`.
pub open spec fn names_product(entries: Seq<(Seq<char>, u32)>, name: Seq<char>) -> bool {
    exists|i: int| 0 <= i < entries.len() && (#[trigger] entries[i]).0 == name
}

/// `entries` is the summary of `rows`: one entry for each product that a
/// row names, with the number of rows that name it, the entries in order of
/// the product names.
pub open spec fn is_summary(rows: Seq<RowView>, entries: Seq<(Seq<char>, u32)>) -> bool {
    &&& names_ascend(entries)
    &&& counts_match(rows, entries)
    &&& forall|j: int|
        0 <= j < rows.len() ==> names_product(entries, (#[trigger] rows[j]).product_name)
}

/// A reference to each row.
fn row_refs<'a>(rows: &'a Vec<WooCommerceRow>) -> (refs: Vec<&'a WooCommerceRow>)
    ensures
        refs.deep_view() == rows.deep_view(),
{
    let mut refs: Vec<&WooCommerceRow> = Vec::new();
    let mut i: usize = 0;
    while i < rows.len()
        invariant
            i <= rows.len(),
            refs.len() == i,
            forall|j: int| 0 <= j < i ==> (#[trigger] refs@[j])@ == rows@[j]@,
        decreases rows.len() - i,
    {
        refs.push(&rows[i]);
        i = i + 1;
    }
    assert(refs.deep_view() =~= rows.deep_view());
    refs
}

impl InputData {
    /// The summary of the export: for each product the number of rows that
    /// name it, in order of the product names.
    pub fn summary(&self) -> (entries: Vec<(String, u32)>)
        requires
            self.data.len() <= u32::MAX,
        ensures
            is_summary(self.data.deep_view(), entries.deep_view()),
            self.data.len() == 0 ==> entries.len() == 0,
    {
        let ghost rows = self.data.deep_view();
        let refs = row_refs(&self.data);
        let sorted = sort_by_product_name(&refs);
        let ghost sv = sorted.deep_view();
        let mut entries: Vec<(String, u32)> = Vec::new();
        let mut i: usize = 0;
        while i < sorted.len()
            invariant
                i <= sorted.len(),
                sorted.len() <= u32::MAX,
                sv == sorted.deep_view(),
                ordered_by(sv, row_name()),
                names_ascend(entries.deep_view()),
                counts_match(sv.take(i as int), entries.deep_view()),
                forall|j: int|
                    0 <= j < i ==> names_product(
                        entries.deep_view(),
                        (#[trigger] sv[j]).product_name,
                    ),
                i > 0 ==> entries.len() > 0 && entries.deep_view().last().0
                    == sv[i - 1].product_name,
            decreases sorted.len() - i,
        {
            let row: &WooCommerceRow = sorted[i];
            let ghost name = row.product_name@;
            let ghost before = entries.deep_view();
            let ghost seen = sv.take(i as int);
            let ghost now = sv.take(i + 1);
            assert(sv[i as int] == row@);
            assert(now.drop_last() == seen);
            assert(now.last() == sv[i as int]);
            let last: usize = entries.len();
            let same: bool = last > 0 && entries[last - 1].0 == row.product_name;
            if same {
                let count: u32 = entries[last - 1].1;
                proof {
                    lemma_keyed_len(seen, row_name(), name);
                    assert(before[last - 1].1 == row_count(seen, before[last - 1].0));
                }
                entries.pop();
                entries.push((row.product_name.clone(), count + 1));
                let ghost after = entries.deep_view();
                assert(after =~= before.drop_last().push((name, (count + 1) as u32)));
                assert forall|a: int, b: int| 0 <= a < b < after.len() implies str_lt(
                    (#[trigger] after[a]).0,
                    (#[trigger] after[b]).0,
                ) by {
                    assert(after[a].0 == before[a].0);
                    assert(after[b].0 == before[b].0);
                }
                assert forall|a: int| 0 <= a < after.len() implies (#[trigger] after[a]).1 >= 1
                    && after[a].1 == row_count(now, after[a].0) by {
                    if a < last - 1 {
                        assert(after[a] == before[a]);
                        assert(str_lt(before[a].0, before[last - 1].0));
                    }
                }
                assert forall|j: int| 0 <= j < i + 1 implies names_product(
                    after,
                    (#[trigger] sv[j]).product_name,
                ) by {
                    if j < i {
                        assert(names_product(before, sv[j].product_name));
                        let at = choose|at: int|
                            0 <= at < before.len() && (#[trigger] before[at]).0
                                == sv[j].product_name;
                        assert(after[at].0 == sv[j].product_name);
                    } else {
                        assert(after[last - 1].0 == name);
                    }
                }
            } else {
                proof {
                    assert forall|a: int| 0 <= a < before.len() implies str_lt(
                        (#[trigger] before[a]).0,
                        name,
                    ) by {
                        let tail = before[last - 1].0;
                        assert(tail == sv[i - 1].product_name);
                        assert(str_le(row_name()(sv[i - 1]), row_name()(sv[i as int])));
                        if a < last - 1 {
                            assert(str_lt(before[a].0, before[last - 1].0));
                            lemma_str_le_trans(before[a].0, tail, name);
                            if before[a].0 == name {
                                lemma_str_le_antisym(tail, name);
                            }
                        }
                    }
                    assert forall|j: int| 0 <= j < seen.len() implies row_name()(
                        #[trigger] seen[j],
                    ) != name by {
                        assert(seen[j] == sv[j]);
                        assert(names_product(before, sv[j].product_name));
                        let at = choose|at: int|
                            0 <= at < before.len() && (#[trigger] before[at]).0
                                == sv[j].product_name;
                        assert(str_lt(before[at].0, name));
                    }
                    lemma_keyed_none(seen, row_name(), name);
                }
                entries.push((row.product_name.clone(), 1));
                let ghost after = entries.deep_view();
                assert(after =~= before.push((name, 1u32)));
                assert forall|a: int, b: int| 0 <= a < b < after.len() implies str_lt(
                    (#[trigger] after[a]).0,
                    (#[trigger] after[b]).0,
                ) by {
                    assert(after[a] == before[a]);
                    if b < last {
                        assert(after[b] == before[b]);
                    }
                }
                assert forall|a: int| 0 <= a < after.len() implies (#[trigger] after[a]).1 >= 1
                    && after[a].1 == row_count(now, after[a].0) by {
                    if a < last {
                        assert(after[a] == before[a]);
                        assert(str_lt(before[a].0, name));
                    }
                }
                assert forall|j: int| 0 <= j < i + 1 implies names_product(
                    after,
                    (#[trigger] sv[j]).product_name,
                ) by {
                    if j < i {
                        assert(names_product(before, sv[j].product_name));
                        let at = choose|at: int|
                            0 <= at < before.len() && (#[trigger] before[at]).0
                                == sv[j].product_name;
                        assert(after[at].0 == sv[j].product_name);
                    } else {
                        assert(after[last as int].0 == name);
                    }
                }
            }
            i = i + 1;
        }
        proof {
            let ev = entries.deep_view();
            assert(sv.take(i as int) == sv);
            assert forall|a: int| 0 <= a < ev.len() implies (#[trigger] ev[a]).1 >= 1 && ev[a].1
                == row_count(rows, ev[a].0) by {
                assert(keyed(sv, row_name(), ev[a].0) == keyed(rows, row_name(), ev[a].0));
            }
            assert forall|j: int| 0 <= j < rows.len() implies names_product(
                ev,
                (#[trigger] rows[j]).product_name,
            ) by {
                lemma_sort_keeps_members(rows, sv, row_name(), j);
                let at = choose|m: int| 0 <= m < sv.len() && sv[m] == rows[j];
                assert(names_product(ev, sv[at].product_name));
            }
        }
        entries
    }
}

/// A product that a summary names stands on some row.
proof fn lemma_entry_has_row(rows: Seq<RowView>, entries: Seq<(Seq<char>, u32)>, i: int)
    requires
        counts_match(rows, entries),
        0 <= i < entries.len(),
    ensures
        exists|j: int| 0 <= j < rows.len() && (#[trigger] rows[j]).product_name == entries[i].0,
{
    let name = entries[i].0;
    let found = keyed(rows, row_name(), name);
    assert(found.len() >= 1);
    lemma_keyed_has_key(rows, row_name(), name, 0);
    assert(found.contains(found[0]));
    lemma_keyed_within(rows, row_name(), name, found[0]);
    let j = choose|j: int| 0 <= j < rows.len() && rows[j] == found[0];
    assert(rows[j].product_name == name);
}

/// Two lists of names that go up strictly and hold the same names are one
/// list.
proof fn lemma_ascending_names_are_unique(
    a: Seq<(Seq<char>, u32)>,
    b: Seq<(Seq<char>, u32)>,
)
    requires
        names_ascend(a),
        names_ascend(b),
        forall|i: int| 0 <= i < a.len() ==> names_product(b, (#[trigger] a[i]).0),
        forall|i: int| 0 <= i < b.len() ==> names_product(a, (#[trigger] b[i]).0),
    ensures
        a.len() == b.len(),
        forall|i: int| 0 <= i < a.len() ==> (#[trigger] a[i]).0 == b[i].0,
    decreases a.len(),
{
    if a.len() == 0 {
        if b.len() > 0 {
            assert(names_product(a, b[0].0));
        }
    } else {
        let top = a.last();
        assert(names_product(b, a[a.len() - 1].0));
        let at = choose|at: int| 0 <= at < b.len() && (#[trigger] b[at]).0 == top.0;
        let other = b.last();
        assert(names_product(a, b[b.len() - 1].0));
        let back = choose|back: int| 0 <= back < a.len() && (#[trigger] a[back]).0 == other.0;
        if at < b.len() - 1 {
            assert(str_lt(b[at].0, b[b.len() - 1].0));
            if back < a.len() - 1 {
                assert(str_lt(a[back].0, a[a.len() - 1].0));
                lemma_str_le_antisym(top.0, other.0);
            }
        }
        assert(top.0 == other.0);
        let front_a = a.drop_last();
        let front_b = b.drop_last();
        assert forall|i: int| 0 <= i < front_a.len() implies names_product(
            front_b,
            (#[trigger] front_a[i]).0,
        ) by {
            assert(names_product(b, a[i].0));
            let m = choose|m: int| 0 <= m < b.len() && (#[trigger] b[m]).0 == a[i].0;
            assert(str_lt(a[i].0, a[a.len() - 1].0));
            assert(front_b[m].0 == a[i].0);
        }
        assert forall|i: int| 0 <= i < front_b.len() implies names_product(
            front_a,
            (#[trigger] front_b[i]).0,
        ) by {
            assert(names_product(a, b[i].0));
            let m = choose|m: int| 0 <= m < a.len() && (#[trigger] a[m]).0 == b[i].0;
            assert(str_lt(b[i].0, b[b.len() - 1].0));
            assert(front_a[m].0 == b[i].0);
        }
        assert forall|i: int, j: int| 0 <= i < j < front_a.len() implies str_lt(
            (#[trigger] front_a[i]).0,
            (#[trigger] front_a[j]).0,
        ) by {
            assert(str_lt(a[i].0, a[j].0));
        }
        assert forall|i: int, j: int| 0 <= i < j < front_b.len() implies str_lt(
            (#[trigger] front_b[i]).0,
            (#[trigger] front_b[j]).0,
        ) by {
            assert(str_lt(b[i].0, b[j].0));
        }
        lemma_ascending_names_are_unique(front_a, front_b);
        assert forall|i: int| 0 <= i < a.len() implies (#[trigger] a[i]).0 == b[i].0 by {
            if i < front_a.len() {
                assert(front_a[i].0 == front_b[i].0);
            }
        }
    }
}

/// The rows decide the summary: two summaries of the same rows are one.
pub proof fn lemma_summary_is_unique(
    rows: Seq<RowView>,
    a: Seq<(Seq<char>, u32)>,
    b: Seq<(Seq<char>, u32)>,
)
    requires
        is_summary(rows, a),
        is_summary(rows, b),
    ensures
        a == b,
{
    assert forall|i: int| 0 <= i < a.len() implies names_product(b, (#[trigger] a[i]).0) by {
        lemma_entry_has_row(rows, a, i);
        let j = choose|j: int|
            0 <= j < rows.len() && (#[trigger] rows[j]).product_name == a[i].0;
        assert(names_product(b, rows[j].product_name));
    }
    assert forall|i: int| 0 <= i < b.len() implies names_product(a, (#[trigger] b[i]).0) by {
        lemma_entry_has_row(rows, b, i);
        let j = choose|j: int|
            0 <= j < rows.len() && (#[trigger] rows[j]).product_name == b[i].0;
        assert(names_product(a, rows[j].product_name));
    }
    lemma_ascending_names_are_unique(a, b);
    assert forall|i: int| 0 <= i < a.len() implies #[trigger] a[i] == b[i] by {
        assert(a[i].0 == b[i].0);
        assert(a[i].1 == row_count(rows, a[i].0));
        assert(b[i].1 == row_count(rows, b[i].0));
    }
    assert(a =~= b);
}

} // verus!
