use vstd::prelude::*;

use crate::entry::{
    entries_view, eq_except_icon, opt_view, seq_eq_except_icon, DesktopEntryBase, EntryView,
};

verus! {

/// Relies on `std::path::Path::exists`: whether the path names an existing
/// file on this machine right now; nothing more can be promised of the
/// result.
#[verifier::external_body]
pub(crate) fn path_exists(p: &str) -> bool {
    std::path::Path::new(p).exists()
}

/// Relies on xdgkit's `icon_finder::find_icon`: looks a bare icon name up in
/// the machine's installed icon themes; the result depends on those themes,
/// so nothing is promised of it. A found path that is not UTF-8 is treated
/// as not found. The lookup reads `index.theme` files from disk and can
/// panic on a malformed one (a theme with directories but no name); no
/// condition on the arguments can rule that out.
#[verifier::external_body]
pub(crate) fn find_icon_file(name: &str, size: i32, scale: i32) -> Option<String> {
    xdgkit::icon_finder::find_icon(name.to_string(), size, scale).and_then(
        |p| p.to_str().map(|s| s.to_string()),
    )
}

/// The priority of icon resolution: a raw value that already names an
/// existing path is kept as it is; otherwise the theme lookup's answer is
/// taken, found or not.
pub fn choose_icon(icon_name: String, exists: bool, resolved: Option<String>) -> (r: Option<
    String,
>)
    ensures
        opt_view(r) == (if exists {
            Some(icon_name@)
        } else {
            opt_view(resolved)
        }),
{
    if exists {
        Some(icon_name)
    } else {
        resolved
    }
}

/// Resolves one raw icon value: a value that already names an existing path
/// is kept; otherwise the bare name is looked up in the icon themes at a
/// fixed preferred size; `None` when both fail. Which branch applies
/// depends on the machine's disk and themes, so only the priority itself —
/// `choose_icon` — carries a contract.
pub fn get_icon_path(icon_name: String) -> Option<String> {
    let exists = path_exists(icon_name.as_str());
    let resolved = if exists {
        None
    } else {
        find_icon_file(icon_name.as_str(), 128, 1)
    };
    choose_icon(icon_name, exists, resolved)
}

/// Replaces each record's raw icon value with its resolved form. A record
/// whose descriptor carried no icon value keeps none — the presentation
/// layer supplies its own default. All other fields are kept exactly.
pub fn resolve_icons(entries: Vec<DesktopEntryBase>) -> (r: Vec<DesktopEntryBase>)
    ensures
        seq_eq_except_icon(entries_view(r@), entries_view(entries@)),
        forall|i: int|
            0 <= i < entries@.len() && entries_view(entries@)[i].icon is None ==> (#[trigger] entries_view(
                r@,
            )[i].icon) is None,
{
    let ghost orig = entries@;
    let mut entries = entries;
    let mut out: Vec<DesktopEntryBase> = Vec::new();
    proof {
        assert(orig.skip(0) =~= orig);
    }
    while entries.len() > 0
        invariant
            entries@ == orig.skip(orig.len() - entries.len()),
            entries.len() <= orig.len(),
            out.len() == orig.len() - entries.len(),
            forall|i: int|
                0 <= i < out.len() ==> eq_except_icon(
                    #[trigger] entries_view(out@)[i],
                    entries_view(orig)[i],
                ),
            forall|i: int|
                0 <= i < out.len() && entries_view(orig)[i].icon is None ==> (#[trigger] entries_view(
                    out@,
                )[i].icon) is None,
        decreases entries.len(),
    {
        let ghost k = orig.len() - entries.len();
        assert(entries@[0] == orig[k as int]);
        let e = entries.remove(0);
        assert(entries@ =~= orig.skip(k + 1));
        let resolved = match e.icon {
            Some(raw) => get_icon_path(raw),
            None => None,
        };
        let rec = DesktopEntryBase {
            name: e.name,
            exec_cmd: e.exec_cmd,
            icon: resolved,
            comment: e.comment,
            generic_name: e.generic_name,
        };
        let ghost out_old = out@;
        out.push(rec);
        proof {
            assert(eq_except_icon(rec@, orig[k as int]@));
            assert(forall|i: int|
                0 <= i < out_old.len() ==> #[trigger] entries_view(out@)[i] == entries_view(
                    out_old,
                )[i]);
            assert(entries_view(out@)[out_old.len() as int] == rec@);
            assert(entries_view(orig)[k as int] == orig[k as int]@);
        }
    }
    assert(entries_view(out@).len() == entries_view(orig).len());
    out
}

} // verus!
