use vstd::prelude::*;

use crate::entry::{
    entries_view, entry_has_searchable, has_searchable_field, DesktopEntryBase, EntryView,
    ParsedView,
};
use crate::matching::{live_match, live_match_exec};
use crate::parse::{parse_desktop_fields, parsed_view_of};
use crate::textops::{ends_with_spec, lower_of, str_ends_with, to_lowercase};

verus! {

/// One directory entry handed to the scanner: the file's name and the full
/// text read from it.
#[derive(Debug)]
pub struct ScanFile {
    pub file_name: String,
    pub contents: String,
}

/// Mathematical value of a `ScanFile`.
#[verifier::ext_equal]
pub ghost struct FileView {
    pub file_name: Seq<char>,
    pub contents: Seq<char>,
}

impl View for ScanFile {
    type V = FileView;

    open spec fn view(&self) -> FileView {
        FileView { file_name: self.file_name@, contents: self.contents@ }
    }
}

/// The views of a sequence of scan files.
pub open spec fn files_view(s: Seq<ScanFile>) -> Seq<FileView> {
    s.map_values(|f: ScanFile| f@)
}

/// Only files whose name carries the descriptor suffix are considered.
pub open spec fn is_desktop_file(file_name: Seq<char>) -> bool {
    ends_with_spec(file_name, ".desktop"@)
}

pub open spec fn or_empty(o: Option<Seq<char>>) -> Seq<char> {
    match o {
        Some(s) => s,
        None => Seq::empty(),
    }
}

/// The record a matching file contributes to the index: `name` and the
/// launch command default to the empty string when absent, and the icon
/// still holds the raw value of the descriptor's `Icon` key.
pub open spec fn base_of(p: ParsedView) -> EntryView {
    EntryView {
        name: or_empty(p.name),
        exec_cmd: or_empty(p.exec_cmd),
        icon: p.icon,
        comment: p.comment,
        generic_name: p.generic_name,
    }
}

/// Whether one file contributes a record to a scan: its name carries the
/// descriptor suffix, its record matches the lower-cased query under the
/// live policy, and the record has a searchable field.
pub open spec fn scan_accepts(f: FileView, q_lower: Seq<char>) -> bool {
    is_desktop_file(f.file_name) && live_match(parsed_view_of(f.contents), q_lower)
        && has_searchable_field(base_of(parsed_view_of(f.contents)))
}

/// What one directory scan returns: the records of the accepted files, in
/// directory order, cut off once `limit` matches have accumulated.
pub open spec fn scan_spec(files: Seq<FileView>, q_lower: Seq<char>, limit: nat) -> Seq<
    EntryView,
>
    decreases files.len(),
{
    if limit == 0 || files.len() == 0 {
        Seq::empty()
    } else {
        let rest = files.drop_first();
        if scan_accepts(files[0], q_lower) {
            seq![base_of(parsed_view_of(files[0].contents))] + scan_spec(
                rest,
                q_lower,
                (limit - 1) as nat,
            )
        } else {
            scan_spec(rest, q_lower, limit)
        }
    }
}

/// No scan returns more than its budget of records.
pub proof fn lemma_scan_spec_len(files: Seq<FileView>, q_lower: Seq<char>, limit: nat)
    ensures
        scan_spec(files, q_lower, limit).len() <= limit,
    decreases files.len(),
{
    if limit == 0 || files.len() == 0 {
    } else {
        let rest = files.drop_first();
        if scan_accepts(files[0], q_lower) {
            lemma_scan_spec_len(rest, q_lower, (limit - 1) as nat);
        } else {
            lemma_scan_spec_len(rest, q_lower, limit);
        }
    }
}

/// Every record a scan returns satisfies the searchable-field invariant.
pub proof fn lemma_scan_spec_searchable(files: Seq<FileView>, q_lower: Seq<char>, limit: nat)
    ensures
        forall|i: int|
            0 <= i < scan_spec(files, q_lower, limit).len() ==> has_searchable_field(
                #[trigger] scan_spec(files, q_lower, limit)[i],
            ),
    decreases files.len(),
{
    if limit == 0 || files.len() == 0 {
    } else {
        let rest = files.drop_first();
        let r = scan_spec(files, q_lower, limit);
        if scan_accepts(files[0], q_lower) {
            lemma_scan_spec_searchable(rest, q_lower, (limit - 1) as nat);
            let r1 = scan_spec(rest, q_lower, (limit - 1) as nat);
            assert(r == seq![base_of(parsed_view_of(files[0].contents))] + r1);
            assert forall|i: int| 0 <= i < r.len() implies has_searchable_field(r[i]) by {
                if i == 0 {
                    assert(r[0] == base_of(parsed_view_of(files[0].contents)));
                } else {
                    assert(r[i] == r1[i - 1]);
                }
            }
        } else {
            lemma_scan_spec_searchable(rest, q_lower, limit);
            assert(r == scan_spec(rest, q_lower, limit));
            assert forall|i: int| 0 <= i < r.len() implies has_searchable_field(r[i]) by {
                assert(r[i] == scan_spec(rest, q_lower, limit)[i]);
            }
        }
    }
}

/// Scanning a directory listing in two parts: the second part goes on with
/// whatever budget the first part left over, so what precedes a file fully
/// determines how much of the budget it sees.
pub proof fn lemma_scan_spec_concat(
    a: Seq<FileView>,
    b: Seq<FileView>,
    q_lower: Seq<char>,
    limit: nat,
)
    ensures
        scan_spec(a + b, q_lower, limit) == scan_spec(a, q_lower, limit) + scan_spec(
            b,
            q_lower,
            (limit - scan_spec(a, q_lower, limit).len()) as nat,
        ),
    decreases a.len(),
{
    lemma_scan_spec_len(a, q_lower, limit);
    if a.len() == 0 {
        assert(a + b =~= b);
        assert(scan_spec(a, q_lower, limit) == Seq::<EntryView>::empty());
        assert(Seq::<EntryView>::empty() + scan_spec(b, q_lower, limit) =~= scan_spec(
            b,
            q_lower,
            limit,
        ));
    } else if limit == 0 {
        assert(scan_spec(a + b, q_lower, 0nat) == Seq::<EntryView>::empty());
        assert(scan_spec(a, q_lower, 0nat) == Seq::<EntryView>::empty());
        assert(scan_spec(b, q_lower, 0nat) == Seq::<EntryView>::empty());
        assert(Seq::<EntryView>::empty() + Seq::<EntryView>::empty() =~= Seq::<
            EntryView,
        >::empty());
    } else {
        assert((a + b).len() > 0);
        assert((a + b)[0] == a[0]);
        assert((a + b).drop_first() =~= a.drop_first() + b);
        if scan_accepts(a[0], q_lower) {
            lemma_scan_spec_concat(a.drop_first(), b, q_lower, (limit - 1) as nat);
            lemma_scan_spec_len(a.drop_first(), q_lower, (limit - 1) as nat);
            let e0 = base_of(parsed_view_of(a[0].contents));
            let fa = scan_spec(a.drop_first(), q_lower, (limit - 1) as nat);
            assert(scan_spec(a, q_lower, limit) == seq![e0] + fa);
            assert((seq![e0] + fa).len() == 1 + fa.len());
            assert(((limit - 1) as nat - fa.len()) as nat == (limit - (seq![e0] + fa).len()) as nat);
            assert(seq![e0] + (fa + scan_spec(
                b,
                q_lower,
                ((limit - 1) as nat - fa.len()) as nat,
            )) =~= (seq![e0] + fa) + scan_spec(b, q_lower, ((limit - 1) as nat - fa.len()) as nat));
        } else {
            lemma_scan_spec_concat(a.drop_first(), b, q_lower, limit);
        }
    }
}

/// The scanner's law at each position of the directory listing: while
/// fewer than `limit` records have been kept from the files before
/// position `i`, the file at `i` contributes its record exactly when the
/// scan accepts it — descriptor suffix, live-policy match on the
/// lower-cased query, searchable field — and once `limit` is reached
/// nothing more is contributed.
pub proof fn lemma_scan_spec_step(files: Seq<FileView>, q_lower: Seq<char>, limit: nat, i: int)
    requires
        0 <= i < files.len(),
    ensures
        scan_spec(files.take(i + 1), q_lower, limit) == (if scan_spec(
            files.take(i),
            q_lower,
            limit,
        ).len() < limit && scan_accepts(files[i], q_lower) {
            scan_spec(files.take(i), q_lower, limit).push(
                base_of(parsed_view_of(files[i].contents)),
            )
        } else {
            scan_spec(files.take(i), q_lower, limit)
        }),
{
    let fa = scan_spec(files.take(i), q_lower, limit);
    lemma_scan_spec_len(files.take(i), q_lower, limit);
    assert(files.take(i + 1) =~= files.take(i) + seq![files[i]]);
    lemma_scan_spec_concat(files.take(i), seq![files[i]], q_lower, limit);
    let rem = (limit - fa.len()) as nat;
    if rem == 0 {
        assert(scan_spec(seq![files[i]], q_lower, 0nat) == Seq::<EntryView>::empty());
        assert(fa.len() == limit);
        assert(fa + Seq::<EntryView>::empty() =~= fa);
    } else {
        assert(seq![files[i]][0] == files[i]);
        assert(seq![files[i]].drop_first() =~= Seq::<FileView>::empty());
        if scan_accepts(files[i], q_lower) {
            let e = base_of(parsed_view_of(files[i].contents));
            assert(scan_spec(Seq::<FileView>::empty(), q_lower, (rem - 1) as nat) == Seq::<
                EntryView,
            >::empty());
            assert(scan_spec(seq![files[i]], q_lower, rem) == seq![e] + Seq::<
                EntryView,
            >::empty());
            assert(fa + (seq![e] + Seq::<EntryView>::empty()) =~= fa.push(e));
        } else {
            assert(scan_spec(Seq::<FileView>::empty(), q_lower, rem) == Seq::<
                EntryView,
            >::empty());
            assert(scan_spec(seq![files[i]], q_lower, rem) == Seq::<EntryView>::empty());
            assert(fa + Seq::<EntryView>::empty() =~= fa);
        }
    }
}

/// Scans one directory's files: each accepted descriptor file contributes
/// one record, until `limit` matches have accumulated. Unparseable files
/// yield empty records and simply fail to match; they never abort the
/// scan. Every returned record has a searchable field.
pub fn get_desktop_entry(files: &Vec<ScanFile>, query: &str, limit: usize) -> (r: Vec<
    DesktopEntryBase,
>)
    ensures
        entries_view(r@) == scan_spec(files_view(files@), lower_of(query@), limit as nat),
        r@.len() <= limit,
        forall|i: int|
            0 <= i < r@.len() ==> has_searchable_field(#[trigger] entries_view(r@)[i]),
{
    let q_lower = to_lowercase(query);
    let mut out: Vec<DesktopEntryBase> = Vec::new();
    let mut i: usize = 0;
    let ghost fv = files_view(files@);
    assert(fv.skip(0) =~= fv);
    assert(entries_view(out@) + scan_spec(fv, lower_of(query@), limit as nat) =~= scan_spec(
        fv,
        lower_of(query@),
        limit as nat,
    ));
    while i < files.len() && out.len() < limit
        invariant
            i <= files.len(),
            out.len() <= limit,
            fv == files_view(files@),
            q_lower@ == lower_of(query@),
            entries_view(out@) + scan_spec(
                fv.skip(i as int),
                lower_of(query@),
                (limit - out.len()) as nat,
            ) == scan_spec(fv, lower_of(query@), limit as nat),
        decreases files.len() - i,
    {
        let ghost out_old = out@;
        let ghost rem = (limit - out.len()) as nat;
        assert(fv.skip(i as int).len() == fv.len() - i);
        assert(fv.skip(i as int)[0] == fv[i as int]);
        assert(fv[i as int] == files@[i as int]@);
        assert(fv.skip(i as int).drop_first() =~= fv.skip(i + 1));
        let f = &files[i];
        let mut pushed = false;
        if str_ends_with(f.file_name.as_str(), ".desktop") {
            let p = parse_desktop_fields(f.contents.as_str());
            if live_match_exec(&p, q_lower.as_str()) {
                let name = match p.name {
                    Some(s) => s,
                    None => String::new(),
                };
                let exec_cmd = match p.exec_cmd {
                    Some(s) => s,
                    None => String::new(),
                };
                let rec = DesktopEntryBase {
                    name,
                    exec_cmd,
                    icon: p.icon,
                    comment: p.comment,
                    generic_name: p.generic_name,
                };
                assert(rec@ =~= base_of(parsed_view_of(files@[i as int]@.contents)));
                if entry_has_searchable(&rec) {
                    out.push(rec);
                    pushed = true;
                    assert(entries_view(out@) =~= entries_view(out_old) + seq![
                        base_of(parsed_view_of(fv[i as int].contents)),
                    ]);
                    assert(scan_spec(fv.skip(i as int), lower_of(query@), rem) == seq![
                        base_of(parsed_view_of(fv[i as int].contents)),
                    ] + scan_spec(fv.skip(i + 1), lower_of(query@), (rem - 1) as nat));
                    assert(entries_view(out@) + scan_spec(
                        fv.skip(i + 1),
                        lower_of(query@),
                        (limit - out.len()) as nat,
                    ) =~= entries_view(out_old) + scan_spec(
                        fv.skip(i as int),
                        lower_of(query@),
                        rem,
                    ));
                }
            }
        }
        if !pushed {
            assert(entries_view(out@) + scan_spec(
                fv.skip(i + 1),
                lower_of(query@),
                (limit - out.len()) as nat,
            ) =~= entries_view(out_old) + scan_spec(
                fv.skip(i as int),
                lower_of(query@),
                rem,
            ));
        }
        i = i + 1;
    }
    proof {
        if i == files.len() {
            assert(fv.skip(i as int).len() == 0);
            assert(scan_spec(fv.skip(i as int), lower_of(query@), (limit - out.len()) as nat)
                =~= Seq::<EntryView>::empty());
        } else {
            assert(out.len() == limit);
            assert(scan_spec(fv.skip(i as int), lower_of(query@), 0nat) =~= Seq::<
                EntryView,
            >::empty());
        }
        assert(entries_view(out@) + Seq::<EntryView>::empty() =~= entries_view(out@));
        lemma_scan_spec_searchable(fv, lower_of(query@), limit as nat);
        assert forall|ix: int| 0 <= ix < out@.len() implies has_searchable_field(
            entries_view(out@)[ix],
        ) by {
            assert(entries_view(out@)[ix] == scan_spec(fv, lower_of(query@), limit as nat)[ix]);
        }
    }
    out
}

} // verus!
