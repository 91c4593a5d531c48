use vstd::prelude::*;

use crate::entry::{entries_view, DesktopEntryBase, EntryView};
use crate::textops::{lex_le, name_le};

verus! {

/// Where an insertion sort places `e` in `s`: after every record whose name
/// is less than or equal, so records with equal names keep their original
/// order (the sort is stable).
pub open spec fn insert_sorted_spec(s: Seq<EntryView>, e: EntryView) -> Seq<EntryView>
    decreases s.len(),
{
    if s.len() == 0 {
        seq![e]
    } else if lex_le(s[0].name, e.name) {
        seq![s[0]] + insert_sorted_spec(s.drop_first(), e)
    } else {
        seq![e] + s
    }
}

/// The canonical order of a snapshot: a stable insertion sort of the records
/// by name, ascending in the lexicographic code-point order.
pub open spec fn sort_by_name_spec(s: Seq<EntryView>) -> Seq<EntryView>
    decreases s.len(),
{
    if s.len() == 0 {
        Seq::empty()
    } else {
        insert_sorted_spec(sort_by_name_spec(s.drop_last()), s.last())
    }
}

proof fn lemma_insert_at(s: Seq<EntryView>, e: EntryView, j: int)
    requires
        0 <= j <= s.len(),
        forall|k: int| 0 <= k < j ==> lex_le(#[trigger] s[k].name, e.name),
        j < s.len() ==> !lex_le(s[j].name, e.name),
    ensures
        insert_sorted_spec(s, e) == s.take(j) + seq![e] + s.skip(j),
    decreases s.len(),
{
    if s.len() == 0 {
        assert(s.take(j) + seq![e] + s.skip(j) =~= seq![e]);
    } else if j == 0 {
        assert(!lex_le(s[0].name, e.name));
        assert(s.take(0) + seq![e] + s.skip(0) =~= seq![e] + s);
    } else {
        assert(lex_le(s[0].name, e.name));
        let rest = s.drop_first();
        assert(forall|k: int| 0 <= k < j - 1 ==> lex_le(#[trigger] rest[k].name, e.name)) by {
            assert(forall|k: int| 0 <= k < j - 1 ==> rest[k] == s[k + 1]);
        }
        assert(j - 1 < rest.len() ==> !lex_le(rest[j - 1].name, e.name));
        lemma_insert_at(rest, e, j - 1);
        assert(seq![s[0]] + (rest.take(j - 1) + seq![e] + rest.skip(j - 1)) =~= s.take(j) + seq![e]
            + s.skip(j));
    }
}

/// The canonical order of every downstream consumer: each record's name is
/// less than or equal to every later record's name.
pub open spec fn sorted_by_name(s: Seq<EntryView>) -> bool {
    forall|i: int, j: int| 0 <= i < j < s.len() ==> lex_le(#[trigger] s[i].name, #[trigger] s[j].name)
}

proof fn lemma_lex_le_total(a: Seq<char>, b: Seq<char>)
    ensures
        lex_le(a, b) || lex_le(b, a),
    decreases a.len(),
{
    if a.len() == 0 {
    } else if b.len() == 0 {
    } else if (a[0] as u32) == (b[0] as u32) {
        lemma_lex_le_total(a.drop_first(), b.drop_first());
    }
}

proof fn lemma_lex_le_refl(a: Seq<char>)
    ensures
        lex_le(a, a),
    decreases a.len(),
{
    if a.len() > 0 {
        lemma_lex_le_refl(a.drop_first());
    }
}

proof fn lemma_lex_le_trans(a: Seq<char>, b: Seq<char>, c: Seq<char>)
    requires
        lex_le(a, b),
        lex_le(b, c),
    ensures
        lex_le(a, c),
    decreases a.len(),
{
    if a.len() == 0 {
    } else {
        assert(b.len() > 0);
        assert(c.len() > 0);
        if (a[0] as u32) == (b[0] as u32) && (b[0] as u32) == (c[0] as u32) {
            lemma_lex_le_trans(a.drop_first(), b.drop_first(), c.drop_first());
        }
    }
}

proof fn lemma_insert_sorted_elems(s: Seq<EntryView>, e: EntryView)
    ensures
        forall|k: int|
            0 <= k < insert_sorted_spec(s, e).len() ==> (#[trigger] insert_sorted_spec(s, e)[k]
                == e || s.contains(insert_sorted_spec(s, e)[k])),
        insert_sorted_spec(s, e).len() == s.len() + 1,
    decreases s.len(),
{
    if s.len() == 0 {
    } else if lex_le(s[0].name, e.name) {
        lemma_insert_sorted_elems(s.drop_first(), e);
        let r = insert_sorted_spec(s, e);
        let r1 = insert_sorted_spec(s.drop_first(), e);
        assert(r == seq![s[0]] + r1);
        assert(forall|k: int| 0 <= k < r.len() ==> (r[k] == e || s.contains(#[trigger] r[k]))) by {
            assert(r[0] == s[0] && s.contains(s[0]));
            assert(forall|k: int| 1 <= k < r.len() ==> r[k] == #[trigger] r1[k - 1]);
            assert(forall|k: int|
                0 <= k < r1.len() && s.drop_first().contains(#[trigger] r1[k]) ==> s.contains(
                    r1[k],
                )) by {
                assert(forall|m: int|
                    0 <= m < s.drop_first().len() ==> #[trigger] s.drop_first()[m] == s[m + 1]);
            }
        }
    } else {
    }
}

proof fn lemma_insert_sorted_keeps_order(s: Seq<EntryView>, e: EntryView)
    requires
        sorted_by_name(s),
    ensures
        sorted_by_name(insert_sorted_spec(s, e)),
    decreases s.len(),
{
    let r = insert_sorted_spec(s, e);
    if s.len() == 0 {
        assert(sorted_by_name(r));
    } else if lex_le(s[0].name, e.name) {
        let rest = s.drop_first();
        let r1 = insert_sorted_spec(rest, e);
        assert(r == seq![s[0]] + r1);
        assert(forall|m: int| 0 <= m < rest.len() ==> #[trigger] rest[m] == s[m + 1]);
        assert(sorted_by_name(rest));
        lemma_insert_sorted_keeps_order(rest, e);
        lemma_insert_sorted_elems(rest, e);
        assert(forall|k: int| 0 <= k < r1.len() ==> lex_le(s[0].name, #[trigger] r1[k].name)) by {
            assert(forall|k: int|
                0 <= k < r1.len() && r1[k] != e ==> rest.contains(#[trigger] r1[k]));
            assert(forall|k: int|
                0 <= k < rest.len() ==> lex_le(s[0].name, #[trigger] rest[k].name)) by {
                assert(forall|k: int| 0 <= k < rest.len() ==> #[trigger] rest[k] == s[k + 1]);
            }
        }
        assert(forall|i: int, j: int| 0 <= i < j < r.len() ==> lex_le(
            #[trigger] r[i].name,
            #[trigger] r[j].name,
        )) by {
            assert(forall|j: int| 1 <= j < r.len() ==> #[trigger] r[j] == r1[j - 1]);
        }
    } else {
        lemma_lex_le_total(s[0].name, e.name);
        assert(lex_le(e.name, s[0].name));
        assert(r == seq![e] + s);
        assert(forall|j: int| 1 <= j < r.len() ==> #[trigger] r[j] == s[j - 1]);
        assert(forall|j: int| 1 <= j < r.len() ==> lex_le(e.name, #[trigger] r[j].name)) by {
            assert(forall|j: int|
                1 <= j < r.len() ==> lex_le(s[0].name, #[trigger] r[j].name)) by {
                lemma_lex_le_refl(s[0].name);
                assert(r[1] == s[0]);
                assert(forall|j: int| 2 <= j < r.len() ==> lex_le(s[0].name, #[trigger] s[j - 1].name));
            }
            assert(forall|j: int|
                1 <= j < r.len() && lex_le(s[0].name, #[trigger] r[j].name) ==> lex_le(
                    e.name,
                    r[j].name,
                )) by {
                assert forall|j: int|
                    1 <= j < r.len() && lex_le(s[0].name, #[trigger] r[j].name) implies lex_le(
                    e.name,
                    r[j].name,
                ) by {
                    lemma_lex_le_trans(e.name, s[0].name, r[j].name);
                }
            }
        }
    }
}

/// Sorting neither invents nor drops records: the sorted sequence has the
/// same length, and every record in it stands somewhere in the input.
pub proof fn lemma_sort_by_name_elems(s: Seq<EntryView>)
    ensures
        sort_by_name_spec(s).len() == s.len(),
        forall|k: int|
            0 <= k < sort_by_name_spec(s).len() ==> s.contains(#[trigger] sort_by_name_spec(s)[k]),
    decreases s.len(),
{
    if s.len() == 0 {
    } else {
        lemma_sort_by_name_elems(s.drop_last());
        let r1 = sort_by_name_spec(s.drop_last());
        lemma_insert_sorted_elems(r1, s.last());
        let r = sort_by_name_spec(s);
        assert(r == insert_sorted_spec(r1, s.last()));
        assert forall|k: int| 0 <= k < r.len() implies s.contains(r[k]) by {
            if r[k] == s.last() {
                assert(s[s.len() - 1] == r[k]);
            } else {
                assert(r1.contains(r[k]));
                let m = choose|m: int| 0 <= m < r1.len() && r1[m] == r[k];
                assert(s.drop_last().contains(r1[m]));
                let m2 = choose|m2: int| 0 <= m2 < s.drop_last().len() && s.drop_last()[m2] == r[k];
                assert(s[m2] == r[k]);
            }
        }
    }
}

/// The canonical snapshot order really is sorted: in `sort_by_name_spec` of
/// any records, every name is less than or equal to every later name.
pub proof fn lemma_sort_by_name_sorted(s: Seq<EntryView>)
    ensures
        sorted_by_name(sort_by_name_spec(s)),
    decreases s.len(),
{
    if s.len() == 0 {
    } else {
        lemma_sort_by_name_sorted(s.drop_last());
        lemma_insert_sorted_keeps_order(sort_by_name_spec(s.drop_last()), s.last());
    }
}

/// Sorts the records by name, ascending; a stable insertion sort, so two
/// records with equal names keep the order in which they arrived.
pub fn sort_by_name(entries: Vec<DesktopEntryBase>) -> (r: Vec<DesktopEntryBase>)
    ensures
        entries_view(r@) == sort_by_name_spec(entries_view(entries@)),
{
    let ghost orig = entries@;
    let mut entries = entries;
    let mut out: Vec<DesktopEntryBase> = Vec::new();
    proof {
        assert(orig.skip(0) =~= orig);
        assert(entries_view(orig.take(0)) =~= Seq::<EntryView>::empty());
    }
    while entries.len() > 0
        invariant
            entries@ == orig.skip(orig.len() - entries.len()),
            entries.len() <= orig.len(),
            entries_view(out@) == sort_by_name_spec(
                entries_view(orig.take(orig.len() - entries.len())),
            ),
        decreases entries.len(),
    {
        let ghost k = orig.len() - entries.len();
        assert(entries@[0] == orig[k as int]);
        let e = entries.remove(0);
        assert(entries@ =~= orig.skip(k + 1));
        let ghost out_old = out@;
        let mut j: usize = 0;
        while j < out.len() && name_le(out[j].name.as_str(), e.name.as_str())
            invariant
                j <= out.len(),
                out@ == out_old,
                forall|k2: int|
                    0 <= k2 < j ==> lex_le(#[trigger] entries_view(out@)[k2].name, e@.name),
            decreases out.len() - j,
        {
            assert(entries_view(out@)[j as int].name == out@[j as int]@.name);
            j = j + 1;
        }
        proof {
            assert(j < out@.len() ==> !lex_le(entries_view(out@)[j as int].name, e@.name)) by {
                if j < out@.len() {
                    assert(entries_view(out@)[j as int].name == out@[j as int]@.name);
                }
            }
            lemma_insert_at(entries_view(out@), e@, j as int);
        }
        out.insert(j, e);
        proof {
            let prev = entries_view(out_old);
            assert(entries_view(out@) =~= prev.take(j as int) + seq![e@] + prev.skip(j as int));
            assert(orig.take(k + 1).drop_last() =~= orig.take(k as int));
            assert(orig.take(k + 1).last() == orig[k as int]);
            assert(entries_view(orig.take(k + 1)).drop_last() =~= entries_view(orig.take(
                k as int,
            )));
            assert(entries_view(orig.take(k + 1)).last() == orig[k as int]@);
            assert(entries_view(orig.take(k + 1)).len() > 0);
            assert(sort_by_name_spec(entries_view(orig.take(k + 1))) == insert_sorted_spec(
                sort_by_name_spec(entries_view(orig.take(k as int))),
                orig[k as int]@,
            ));
        }
    }
    proof {
        assert(orig.take(orig.len() as int) =~= orig);
    }
    out
}

} // verus!
