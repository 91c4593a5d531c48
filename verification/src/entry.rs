use vstd::prelude::*;

verus! {

/// The fields this index reads from one descriptor file, each absent when the
/// source text does not carry the key.
#[derive(Debug)]
pub struct ParsedEntry {
    pub name: Option<String>,
    pub generic_name: Option<String>,
    pub comment: Option<String>,
    pub exec_cmd: Option<String>,
    pub icon: Option<String>,
}

/// One indexed application record: the unit the cache stores and queries
/// return.
#[derive(Debug)]
pub struct DesktopEntryBase {
    pub name: String,
    pub exec_cmd: String,
    pub icon: Option<String>,
    pub comment: Option<String>,
    pub generic_name: Option<String>,
}

/// Mathematical value of a `ParsedEntry`.
#[verifier::ext_equal]
pub ghost struct ParsedView {
    pub name: Option<Seq<char>>,
    pub generic_name: Option<Seq<char>>,
    pub comment: Option<Seq<char>>,
    pub exec_cmd: Option<Seq<char>>,
    pub icon: Option<Seq<char>>,
}

/// Mathematical value of a `DesktopEntryBase`.
#[verifier::ext_equal]
pub ghost struct EntryView {
    pub name: Seq<char>,
    pub exec_cmd: Seq<char>,
    pub icon: Option<Seq<char>>,
    pub comment: Option<Seq<char>>,
    pub generic_name: Option<Seq<char>>,
}

pub open spec fn opt_view(o: Option<String>) -> Option<Seq<char>> {
    match o {
        Some(s) => Some(s@),
        None => None,
    }
}

impl View for ParsedEntry {
    type V = ParsedView;

    open spec fn view(&self) -> ParsedView {
        ParsedView {
            name: opt_view(self.name),
            generic_name: opt_view(self.generic_name),
            comment: opt_view(self.comment),
            exec_cmd: opt_view(self.exec_cmd),
            icon: opt_view(self.icon),
        }
    }
}

impl View for DesktopEntryBase {
    type V = EntryView;

    open spec fn view(&self) -> EntryView {
        EntryView {
            name: self.name@,
            exec_cmd: self.exec_cmd@,
            icon: opt_view(self.icon),
            comment: opt_view(self.comment),
            generic_name: opt_view(self.generic_name),
        }
    }
}

/// The views of a sequence of records.
pub open spec fn entries_view(s: Seq<DesktopEntryBase>) -> Seq<EntryView> {
    s.map_values(|e: DesktopEntryBase| e@)
}

/// True when the two records agree on every field except the icon, whose
/// value comes from the machine's icon themes rather than the descriptor
/// text.
pub open spec fn eq_except_icon(a: EntryView, b: EntryView) -> bool {
    a.name == b.name && a.exec_cmd == b.exec_cmd && a.comment == b.comment && a.generic_name
        == b.generic_name
}

/// Pointwise `eq_except_icon` over two sequences of records.
pub open spec fn seq_eq_except_icon(a: Seq<EntryView>, b: Seq<EntryView>) -> bool {
    a.len() == b.len() && forall|i: int| 0 <= i < a.len() ==> eq_except_icon(a[i], b[i])
}

/// The invariant of every indexed record: at least one searchable field —
/// the name, the generic name or the comment — is present and non-empty.
pub open spec fn has_searchable_field(e: EntryView) -> bool {
    e.name.len() > 0 || (match e.generic_name {
        Some(g) => g.len() > 0,
        None => false,
    }) || (match e.comment {
        Some(c) => c.len() > 0,
        None => false,
    })
}

/// Decides the searchable-field invariant for one record.
pub fn entry_has_searchable(e: &DesktopEntryBase) -> (r: bool)
    ensures
        r == has_searchable_field(e@),
{
    if !e.name.as_str().is_empty() {
        true
    } else {
        let generic_ok = match &e.generic_name {
            Some(g) => !g.as_str().is_empty(),
            None => false,
        };
        if generic_ok {
            true
        } else {
            match &e.comment {
                Some(c) => !c.as_str().is_empty(),
                None => false,
            }
        }
    }
}

} // verus!
