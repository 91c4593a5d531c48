use vstd::prelude::*;

use crate::cache::{decode_spec, CacheError, CacheView, CachedEntries};
use crate::entry::{
    entries_view, eq_except_icon, has_searchable_field, seq_eq_except_icon, DesktopEntryBase,
    EntryView,
};
use crate::icon::resolve_icons;
use crate::matching::{cached_match, cached_match_exec};
use crate::scan::{
    files_view, get_desktop_entry, lemma_scan_spec_searchable, scan_spec, FileView, ScanFile,
};
use crate::sort::{lemma_sort_by_name_elems, sort_by_name, sort_by_name_spec};
use crate::textops::{lower_of, to_lowercase};

verus! {

/// What a cache-backed search returns: the stored records that match the
/// lower-cased query under the cache-path policy, in stored order, cut off
/// once `limit` matches have accumulated.
pub open spec fn cache_filter_spec(entries: Seq<EntryView>, q_lower: Seq<char>, limit: nat) -> Seq<
    EntryView,
>
    decreases entries.len(),
{
    if limit == 0 || entries.len() == 0 {
        Seq::empty()
    } else {
        let rest = entries.drop_first();
        if cached_match(entries[0], q_lower) {
            seq![entries[0]] + cache_filter_spec(rest, q_lower, (limit - 1) as nat)
        } else {
            cache_filter_spec(rest, q_lower, limit)
        }
    }
}

/// Filters a loaded snapshot in memory: keeps, in stored order, the records
/// that match the query under the cache-path policy, and never returns more
/// than `limit` records.
pub fn get_matches_from_cache(entries: Vec<DesktopEntryBase>, query: &str, limit: usize) -> (r:
    Vec<DesktopEntryBase>)
    ensures
        entries_view(r@) == cache_filter_spec(
            entries_view(entries@),
            lower_of(query@),
            limit as nat,
        ),
        r@.len() <= limit,
{
    let q_lower = to_lowercase(query);
    let ghost orig = entries_view(entries@);
    let mut entries = entries;
    let mut out: Vec<DesktopEntryBase> = Vec::new();
    proof {
        assert(orig.skip(0) =~= orig);
        assert(entries_view(out@) =~= Seq::<EntryView>::empty());
        assert(Seq::<EntryView>::empty() + cache_filter_spec(orig, lower_of(query@), limit as nat)
            =~= cache_filter_spec(orig, lower_of(query@), limit as nat));
    }
    while entries.len() > 0 && out.len() < limit
        invariant
            entries_view(entries@) =~= orig.skip(orig.len() - entries.len()),
            entries.len() <= orig.len(),
            out.len() <= limit,
            q_lower@ == lower_of(query@),
            entries_view(out@) + cache_filter_spec(
                orig.skip(orig.len() - entries.len()),
                lower_of(query@),
                (limit - out.len()) as nat,
            ) == cache_filter_spec(orig, lower_of(query@), limit as nat),
        decreases entries.len(),
    {
        let ghost k = orig.len() - entries.len();
        let ghost rem = (limit - out.len()) as nat;
        let ghost out_old = out@;
        assert(entries_view(entries@)[0] == entries@[0]@);
        assert(orig.skip(k as int)[0] == entries@[0]@);
        assert(orig.skip(k as int).drop_first() =~= orig.skip(k + 1));
        let e = entries.remove(0);
        assert(entries_view(entries@) =~= orig.skip(k + 1));
        if cached_match_exec(&e, q_lower.as_str()) {
            out.push(e);
            proof {
                assert(entries_view(out@) =~= entries_view(out_old) + seq![e@]);
                assert(cache_filter_spec(orig.skip(k as int), lower_of(query@), rem) == seq![e@]
                    + cache_filter_spec(orig.skip(k + 1), lower_of(query@), (rem - 1) as nat));
                assert(entries_view(out@) + cache_filter_spec(
                    orig.skip(k + 1),
                    lower_of(query@),
                    (limit - out.len()) as nat,
                ) =~= entries_view(out_old) + cache_filter_spec(
                    orig.skip(k as int),
                    lower_of(query@),
                    rem,
                ));
            }
        } else {
            proof {
                assert(cache_filter_spec(orig.skip(k as int), lower_of(query@), rem)
                    == cache_filter_spec(orig.skip(k + 1), lower_of(query@), rem));
            }
        }
    }
    proof {
        let ghost k = orig.len() - entries.len();
        if entries.len() == 0 {
            assert(orig.skip(k as int).len() == 0);
            assert(cache_filter_spec(orig.skip(k as int), lower_of(query@), (limit - out.len()) as nat)
                =~= Seq::<EntryView>::empty());
        } else {
            assert(out.len() == limit);
            assert(cache_filter_spec(orig.skip(k as int), lower_of(query@), 0nat) =~= Seq::<
                EntryView,
            >::empty());
        }
        assert(entries_view(out@) + Seq::<EntryView>::empty() =~= entries_view(out@));
    }
    out
}

/// A cache-backed search never keeps more records than its limit.
pub proof fn lemma_cache_filter_len(entries: Seq<EntryView>, q_lower: Seq<char>, limit: nat)
    ensures
        cache_filter_spec(entries, q_lower, limit).len() <= limit,
    decreases entries.len(),
{
    if limit == 0 || entries.len() == 0 {
    } else {
        let rest = entries.drop_first();
        if cached_match(entries[0], q_lower) {
            lemma_cache_filter_len(rest, q_lower, (limit - 1) as nat);
        } else {
            lemma_cache_filter_len(rest, q_lower, limit);
        }
    }
}

/// Filtering a snapshot in two parts: the second part goes on with
/// whatever budget the first part left over, so the records before a
/// position fully determine how much of the budget it sees.
pub proof fn lemma_cache_filter_concat(
    a: Seq<EntryView>,
    b: Seq<EntryView>,
    q_lower: Seq<char>,
    limit: nat,
)
    ensures
        cache_filter_spec(a + b, q_lower, limit) == cache_filter_spec(a, q_lower, limit)
            + cache_filter_spec(
            b,
            q_lower,
            (limit - cache_filter_spec(a, q_lower, limit).len()) as nat,
        ),
    decreases a.len(),
{
    lemma_cache_filter_len(a, q_lower, limit);
    if a.len() == 0 {
        assert(a + b =~= b);
        assert(cache_filter_spec(a, q_lower, limit) == Seq::<EntryView>::empty());
        assert(Seq::<EntryView>::empty() + cache_filter_spec(b, q_lower, limit)
            =~= cache_filter_spec(b, q_lower, limit));
    } else if limit == 0 {
        assert(cache_filter_spec(a + b, q_lower, 0nat) == Seq::<EntryView>::empty());
        assert(cache_filter_spec(a, q_lower, 0nat) == Seq::<EntryView>::empty());
        assert(cache_filter_spec(b, q_lower, 0nat) == Seq::<EntryView>::empty());
        assert(Seq::<EntryView>::empty() + Seq::<EntryView>::empty() =~= Seq::<
            EntryView,
        >::empty());
    } else {
        assert((a + b).len() > 0);
        assert((a + b)[0] == a[0]);
        assert((a + b).drop_first() =~= a.drop_first() + b);
        if cached_match(a[0], q_lower) {
            lemma_cache_filter_concat(a.drop_first(), b, q_lower, (limit - 1) as nat);
            lemma_cache_filter_len(a.drop_first(), q_lower, (limit - 1) as nat);
            let fa = cache_filter_spec(a.drop_first(), q_lower, (limit - 1) as nat);
            assert(cache_filter_spec(a, q_lower, limit) == seq![a[0]] + fa);
            assert((seq![a[0]] + fa).len() == 1 + fa.len());
            assert(((limit - 1) as nat - fa.len()) as nat == (limit - (seq![a[0]]
                + fa).len()) as nat);
            assert(seq![a[0]] + (fa + cache_filter_spec(
                b,
                q_lower,
                ((limit - 1) as nat - fa.len()) as nat,
            )) =~= (seq![a[0]] + fa) + cache_filter_spec(
                b,
                q_lower,
                ((limit - 1) as nat - fa.len()) as nat,
            ));
        } else {
            lemma_cache_filter_concat(a.drop_first(), b, q_lower, limit);
        }
    }
}

/// The cache-path law at each position of the snapshot: while fewer than
/// `limit` records have been kept from the entries before position `i`,
/// the record at `i` is appended to the result exactly when the
/// case-insensitive substring test on its tested field holds; once `limit`
/// is reached nothing more is appended.
pub proof fn lemma_cache_filter_step(
    entries: Seq<EntryView>,
    q_lower: Seq<char>,
    limit: nat,
    i: int,
)
    requires
        0 <= i < entries.len(),
    ensures
        cache_filter_spec(entries.take(i + 1), q_lower, limit) == (if cache_filter_spec(
            entries.take(i),
            q_lower,
            limit,
        ).len() < limit && cached_match(entries[i], q_lower) {
            cache_filter_spec(entries.take(i), q_lower, limit).push(entries[i])
        } else {
            cache_filter_spec(entries.take(i), q_lower, limit)
        }),
{
    let fa = cache_filter_spec(entries.take(i), q_lower, limit);
    lemma_cache_filter_len(entries.take(i), q_lower, limit);
    assert(entries.take(i + 1) =~= entries.take(i) + seq![entries[i]]);
    lemma_cache_filter_concat(entries.take(i), seq![entries[i]], q_lower, limit);
    let rem = (limit - fa.len()) as nat;
    if rem == 0 {
        assert(cache_filter_spec(seq![entries[i]], q_lower, 0nat) == Seq::<EntryView>::empty());
        assert(fa.len() == limit);
        assert(fa + Seq::<EntryView>::empty() =~= fa);
    } else {
        assert(seq![entries[i]][0] == entries[i]);
        assert(seq![entries[i]].drop_first() =~= Seq::<EntryView>::empty());
        if cached_match(entries[i], q_lower) {
            assert(cache_filter_spec(Seq::<EntryView>::empty(), q_lower, (rem - 1) as nat)
                == Seq::<EntryView>::empty());
            assert(cache_filter_spec(seq![entries[i]], q_lower, rem) == seq![entries[i]] + Seq::<
                EntryView,
            >::empty());
            assert(fa + (seq![entries[i]] + Seq::<EntryView>::empty()) =~= fa.push(entries[i]));
        } else {
            assert(cache_filter_spec(Seq::<EntryView>::empty(), q_lower, rem) == Seq::<
                EntryView,
            >::empty());
            assert(cache_filter_spec(seq![entries[i]], q_lower, rem) == Seq::<
                EntryView,
            >::empty());
            assert(fa + Seq::<EntryView>::empty() =~= fa);
        }
    }
}

/// Searches a loaded cache document: decodes it and filters the snapshot.
/// A malformed document is a hard decode error; it is never treated as an
/// absent cache.
pub fn search_cache_text(cache_text: &str, query: &str, limit: usize) -> (r: Result<
    Vec<DesktopEntryBase>,
    CacheError,
>)
    ensures
        match r {
            Ok(v) => (decode_spec(cache_text@) matches Some(c) && entries_view(v@)
                == cache_filter_spec(c.entries, lower_of(query@), limit as nat) && v@.len()
                <= limit),
            Err(e) => (decode_spec(cache_text@) is None && e == CacheError::Decode),
        },
{
    match crate::cache::decode_cache(cache_text) {
        Err(e) => Err(e),
        Ok(c) => Ok(get_matches_from_cache(c.entries, query, limit)),
    }
}

/// The views of a sequence of scanned directories.
pub open spec fn dirs_view(s: Seq<Vec<ScanFile>>) -> Seq<Seq<FileView>> {
    s.map_values(|d: Vec<ScanFile>| files_view(d@))
}

/// What the concurrent aggregation gathers before sorting: each directory's
/// scan, each with its own budget of `limit`, one after the other.
pub open spec fn concat_scans(dirs: Seq<Seq<FileView>>, q_lower: Seq<char>, limit: nat) -> Seq<
    EntryView,
>
    decreases dirs.len(),
{
    if dirs.len() == 0 {
        Seq::empty()
    } else {
        scan_spec(dirs[0], q_lower, limit) + concat_scans(dirs.drop_first(), q_lower, limit)
    }
}

/// What a live scan returns: the per-directory scans merged and sorted by
/// name.
pub open spec fn live_results_spec(dirs: Seq<Seq<FileView>>, q_lower: Seq<char>, limit: nat) -> Seq<
    EntryView,
> {
    sort_by_name_spec(concat_scans(dirs, q_lower, limit))
}

proof fn lemma_concat_scans_push(dirs: Seq<Seq<FileView>>, d: Seq<FileView>, q_lower: Seq<char>, limit: nat)
    ensures
        concat_scans(dirs.push(d), q_lower, limit) == concat_scans(dirs, q_lower, limit)
            + scan_spec(d, q_lower, limit),
    decreases dirs.len(),
{
    if dirs.len() == 0 {
        assert(dirs.push(d)[0] == d);
        assert(dirs.push(d).drop_first() =~= Seq::<Seq<FileView>>::empty());
        assert(concat_scans(Seq::<Seq<FileView>>::empty(), q_lower, limit) == Seq::<
            EntryView,
        >::empty());
        assert(scan_spec(d, q_lower, limit) + Seq::<EntryView>::empty() =~= scan_spec(
            d,
            q_lower,
            limit,
        ));
        assert(Seq::<EntryView>::empty() + scan_spec(d, q_lower, limit) =~= scan_spec(
            d,
            q_lower,
            limit,
        ));
    } else {
        assert(dirs.push(d)[0] == dirs[0]);
        assert(dirs.push(d).drop_first() =~= dirs.drop_first().push(d));
        lemma_concat_scans_push(dirs.drop_first(), d, q_lower, limit);
        assert(scan_spec(dirs[0], q_lower, limit) + (concat_scans(dirs.drop_first(), q_lower, limit)
            + scan_spec(d, q_lower, limit)) =~= concat_scans(dirs, q_lower, limit) + scan_spec(
            d,
            q_lower,
            limit,
        ));
    }
}

proof fn lemma_concat_scans_searchable(dirs: Seq<Seq<FileView>>, q_lower: Seq<char>, limit: nat)
    ensures
        forall|i: int|
            0 <= i < concat_scans(dirs, q_lower, limit).len() ==> has_searchable_field(
                #[trigger] concat_scans(dirs, q_lower, limit)[i],
            ),
    decreases dirs.len(),
{
    if dirs.len() == 0 {
    } else {
        lemma_scan_spec_searchable(dirs[0], q_lower, limit);
        lemma_concat_scans_searchable(dirs.drop_first(), q_lower, limit);
        let c = concat_scans(dirs, q_lower, limit);
        let s0 = scan_spec(dirs[0], q_lower, limit);
        let c1 = concat_scans(dirs.drop_first(), q_lower, limit);
        assert(c == s0 + c1);
        assert forall|i: int| 0 <= i < c.len() implies has_searchable_field(c[i]) by {
            if i < s0.len() {
                assert(c[i] == s0[i]);
            } else {
                assert(c[i] == c1[i - s0.len()]);
            }
        }
    }
}

/// The live-scan search: runs the scanner over every source directory, each
/// with its own budget of `limit`, merges the results, sorts them by name,
/// and resolves each record's icon. Everything but the resolved icons is
/// exactly `live_results_spec`, and every returned record has a searchable
/// field.
pub fn get_matches_live(dirs: &Vec<Vec<ScanFile>>, query: &str, limit: usize) -> (r: Vec<
    DesktopEntryBase,
>)
    ensures
        seq_eq_except_icon(
            entries_view(r@),
            live_results_spec(dirs_view(dirs@), lower_of(query@), limit as nat),
        ),
        forall|i: int|
            0 <= i < r@.len() ==> has_searchable_field(#[trigger] entries_view(r@)[i]),
{
    let ghost dv = dirs_view(dirs@);
    let mut all: Vec<DesktopEntryBase> = Vec::new();
    let mut i: usize = 0;
    proof {
        assert(dv.take(0) =~= Seq::<Seq<FileView>>::empty());
        assert(entries_view(all@) =~= Seq::<EntryView>::empty());
    }
    while i < dirs.len()
        invariant
            i <= dirs.len(),
            dv == dirs_view(dirs@),
            dv.len() == dirs@.len(),
            entries_view(all@) == concat_scans(
                dv.take(i as int),
                lower_of(query@),
                limit as nat,
            ),
        decreases dirs.len() - i,
    {
        let mut part = get_desktop_entry(&dirs[i], query, limit);
        let ghost all_old = all@;
        let ghost part_v = part@;
        all.append(&mut part);
        proof {
            assert(dv[i as int] == files_view(dirs@[i as int]@));
            assert(entries_view(all@) =~= entries_view(all_old) + entries_view(part_v));
            assert(dv.take(i + 1) =~= dv.take(i as int).push(dv[i as int]));
            lemma_concat_scans_push(dv.take(i as int), dv[i as int], lower_of(query@), limit as nat);
            assert(entries_view(all@) =~= concat_scans(dv.take(i + 1), lower_of(query@), limit as nat));
        }
        i = i + 1;
    }
    proof {
        assert(dv.take(dv.len() as int) =~= dv);
    }
    let sorted = sort_by_name(all);
    let resolved = resolve_icons(sorted);
    proof {
        let q = lower_of(query@);
        let cc = concat_scans(dv, q, limit as nat);
        let spec_r = sort_by_name_spec(cc);
        lemma_concat_scans_searchable(dv, q, limit as nat);
        lemma_sort_by_name_elems(cc);
        assert forall|ix: int| 0 <= ix < resolved@.len() implies has_searchable_field(
            entries_view(resolved@)[ix],
        ) by {
            assert(eq_except_icon(entries_view(resolved@)[ix], spec_r[ix]));
            assert(cc.contains(spec_r[ix]));
            let m = choose|m: int| 0 <= m < cc.len() && cc[m] == spec_r[ix];
            assert(has_searchable_field(cc[m]));
        }
    }
    resolved
}

/// Rebuilds the full snapshot: an unfiltered aggregation (the empty query
/// matches every indexable record) over every source directory, stamped
/// with the given epoch second. This is the only way the cache is ever
/// refreshed. Every stored record has a searchable field.
pub fn rebuild_snapshot(dirs: &Vec<Vec<ScanFile>>, now: u64) -> (r: CachedEntries)
    ensures
        seq_eq_except_icon(r@.entries, rebuild_entries_spec(dirs_view(dirs@))),
        r@.last_update == now,
        forall|i: int|
            0 <= i < r@.entries.len() ==> has_searchable_field(#[trigger] r@.entries[i]),
{
    let entries = get_matches_live(dirs, "", 1000);
    CachedEntries { entries, last_update: now }
}

/// The records a rebuild stores, up to icon resolution: the live results of
/// the empty query with a budget of a thousand records for each directory.
pub open spec fn rebuild_entries_spec(dirs: Seq<Seq<FileView>>) -> Seq<EntryView> {
    live_results_spec(dirs, lower_of(""@), 1000)
}

/// Rebuilding twice with no filesystem changes in between yields the
/// entries in identical order (the sort by name is stable and the scan is
/// deterministic); only the timestamps differ.
pub proof fn lemma_rebuild_idempotent(
    dirs: Seq<Seq<FileView>>,
    t1: u64,
    t2: u64,
    c1: CacheView,
    c2: CacheView,
)
    requires
        c1.entries == rebuild_entries_spec(dirs),
        c1.last_update == t1,
        c2.entries == rebuild_entries_spec(dirs),
        c2.last_update == t2,
    ensures
        c1.entries == c2.entries,
{
}

/// Two snapshots rebuilt from the same files agree on every stored field
/// except the resolved icons, whatever their timestamps: what the rebuild
/// promises of each run already pins the records and their order.
pub proof fn lemma_rebuild_agreement(
    dirs: Seq<Seq<FileView>>,
    a: Seq<EntryView>,
    b: Seq<EntryView>,
)
    requires
        seq_eq_except_icon(a, rebuild_entries_spec(dirs)),
        seq_eq_except_icon(b, rebuild_entries_spec(dirs)),
    ensures
        a.len() == b.len(),
        forall|i: int| 0 <= i < a.len() ==> eq_except_icon(#[trigger] a[i], b[i]),
{
    assert forall|i: int| 0 <= i < a.len() implies eq_except_icon(a[i], b[i]) by {
        assert(eq_except_icon(a[i], rebuild_entries_spec(dirs)[i]));
        assert(eq_except_icon(b[i], rebuild_entries_spec(dirs)[i]));
    }
}

/// Answers the adapter's two downstream questions over a result list: there
/// is a first match exactly when the result set is not empty, and it is the
/// list's head.
pub fn first_match(matches: &Vec<DesktopEntryBase>) -> (r: Option<&DesktopEntryBase>)
    ensures
        r is Some <==> matches@.len() > 0,
        r matches Some(e) ==> *e == matches@[0],
{
    if matches.len() > 0 {
        Some(&matches[0])
    } else {
        None
    }
}

} // verus!
