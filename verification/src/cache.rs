use vstd::prelude::*;

use crate::entry::{entries_view, opt_view, DesktopEntryBase, EntryView};
use crate::textops::{str_chars, string_from_chars};

verus! {

/// A full snapshot of the index: every record, alphabetical by name, with
/// the epoch second at which it was built. The timestamp is recorded but
/// never consulted for expiry; invalidation is always an explicit rebuild.
#[derive(Debug)]
pub struct CachedEntries {
    pub entries: Vec<DesktopEntryBase>,
    pub last_update: u64,
}

/// Mathematical value of a snapshot.
#[verifier::ext_equal]
pub ghost struct CacheView {
    pub entries: Seq<EntryView>,
    pub last_update: u64,
}

impl View for CachedEntries {
    type V = CacheView;

    open spec fn view(&self) -> CacheView {
        CacheView { entries: entries_view(self.entries@), last_update: self.last_update }
    }
}

/// A snapshot document that exists but cannot be decoded is a hard error,
/// never a silent fallback to a rescan.
#[derive(Debug, PartialEq, Eq, Structural)]
pub enum CacheError {
    Decode,
}

// ---------------------------------------------------------------------------
// The document the cache store writes: one JSON object
//   {"entries":[{"name":...,"exec":...,"icon":...,"comment":...,"generic_name":...},...],"last_update":N}
// Strings escape only the quote and the backslash; string fields that are
// absent are written as `null`.
// ---------------------------------------------------------------------------

pub open spec fn digit_char(d: int) -> char {
    if d == 0 {
        '0'
    } else if d == 1 {
        '1'
    } else if d == 2 {
        '2'
    } else if d == 3 {
        '3'
    } else if d == 4 {
        '4'
    } else if d == 5 {
        '5'
    } else if d == 6 {
        '6'
    } else if d == 7 {
        '7'
    } else if d == 8 {
        '8'
    } else {
        '9'
    }
}

/// The decimal digits of `n`, most significant first.
pub open spec fn dec_digits(n: nat) -> Seq<char>
    decreases n,
{
    if n < 10 {
        seq![digit_char(n as int)]
    } else {
        dec_digits(n / 10) + seq![digit_char((n % 10) as int)]
    }
}

/// How one character is written inside a quoted string: the quote and the
/// backslash take a backslash in front; every other character stands as it
/// is.
pub open spec fn esc_char(c: char) -> Seq<char> {
    if c == '"' || c == '\\' {
        seq!['\\', c]
    } else {
        seq![c]
    }
}

pub open spec fn esc_str(s: Seq<char>) -> Seq<char>
    decreases s.len(),
{
    if s.len() == 0 {
        Seq::empty()
    } else {
        esc_char(s[0]) + esc_str(s.drop_first())
    }
}

pub open spec fn enc_string(s: Seq<char>) -> Seq<char> {
    seq!['"'] + esc_str(s) + seq!['"']
}

pub open spec fn enc_opt(o: Option<Seq<char>>) -> Seq<char> {
    match o {
        None => "null"@,
        Some(s) => enc_string(s),
    }
}

pub open spec fn enc_entry(e: EntryView) -> Seq<char> {
    "{\"name\":"@ + enc_string(e.name) + ",\"exec\":"@ + enc_string(e.exec_cmd) + ",\"icon\":"@
        + enc_opt(e.icon) + ",\"comment\":"@ + enc_opt(e.comment) + ",\"generic_name\":"@
        + enc_opt(e.generic_name) + "}"@
}

pub open spec fn enc_entries_tail(es: Seq<EntryView>) -> Seq<char>
    decreases es.len(),
{
    if es.len() == 0 {
        Seq::empty()
    } else {
        seq![','] + enc_entry(es[0]) + enc_entries_tail(es.drop_first())
    }
}

pub open spec fn enc_entries(es: Seq<EntryView>) -> Seq<char> {
    if es.len() == 0 {
        Seq::empty()
    } else {
        enc_entry(es[0]) + enc_entries_tail(es.drop_first())
    }
}

/// The exact text the cache store writes for a snapshot.
pub open spec fn enc_cache(c: CacheView) -> Seq<char> {
    "{\"entries\":["@ + enc_entries(c.entries) + "],\"last_update\":"@ + dec_digits(
        c.last_update as nat,
    ) + "}"@
}

// ---------------------------------------------------------------------------
// The exec encoder.
// ---------------------------------------------------------------------------

fn push_lit(out: &mut Vec<char>, lit: &str)
    ensures
        final(out)@ == old(out)@ + lit@,
{
    let mut l = str_chars(lit);
    out.append(&mut l);
}

proof fn lemma_esc_str_push(s: Seq<char>, c: char)
    ensures
        esc_str(s.push(c)) == esc_str(s) + esc_char(c),
    decreases s.len(),
{
    if s.len() == 0 {
        assert(s.push(c)[0] == c);
        assert(s.push(c).drop_first() =~= Seq::<char>::empty());
        assert(esc_str(Seq::<char>::empty()) == Seq::<char>::empty());
        assert(esc_str(s.push(c)) == esc_char(c) + esc_str(Seq::<char>::empty()));
        assert(esc_char(c) + Seq::<char>::empty() =~= esc_char(c));
        assert(esc_str(s) + esc_char(c) =~= esc_char(c));
    } else {
        assert(s.push(c).drop_first() =~= s.drop_first().push(c));
        lemma_esc_str_push(s.drop_first(), c);
        assert(esc_str(s.push(c)) == esc_char(s[0]) + (esc_str(s.drop_first()) + esc_char(c)));
        assert(esc_char(s[0]) + (esc_str(s.drop_first()) + esc_char(c)) =~= esc_str(s) + esc_char(
            c,
        ));
    }
}

fn push_escaped(out: &mut Vec<char>, s: &str)
    ensures
        final(out)@ == old(out)@ + esc_str(s@),
{
    let cs = str_chars(s);
    let mut i: usize = 0;
    proof {
        assert(cs@.take(0) =~= Seq::<char>::empty());
        assert(old(out)@ + esc_str(cs@.take(0)) =~= old(out)@);
    }
    while i < cs.len()
        invariant
            i <= cs.len(),
            cs@ == s@,
            out@ == old(out)@ + esc_str(cs@.take(i as int)),
        decreases cs.len() - i,
    {
        let c = cs[i];
        if c == '"' || c == '\\' {
            out.push('\\');
            out.push(c);
        } else {
            out.push(c);
        }
        proof {
            assert(cs@.take(i + 1) =~= cs@.take(i as int).push(cs@[i as int]));
            lemma_esc_str_push(cs@.take(i as int), cs@[i as int]);
            assert(out@ =~= old(out)@ + esc_str(cs@.take(i + 1)));
        }
        i = i + 1;
    }
    proof {
        assert(cs@.take(cs@.len() as int) =~= s@);
    }
}

fn push_string_enc(out: &mut Vec<char>, s: &str)
    ensures
        final(out)@ == old(out)@ + enc_string(s@),
{
    out.push('"');
    push_escaped(out, s);
    out.push('"');
    proof {
        assert(out@ =~= old(out)@ + enc_string(s@));
    }
}

fn push_opt_enc(out: &mut Vec<char>, o: &Option<String>)
    ensures
        final(out)@ == old(out)@ + enc_opt(opt_view(*o)),
{
    match o {
        None => push_lit(out, "null"),
        Some(s) => push_string_enc(out, s.as_str()),
    }
}

fn digit_char_exec(d: u64) -> (r: char)
    requires
        d < 10,
    ensures
        r == digit_char(d as int),
{
    if d == 0 {
        '0'
    } else if d == 1 {
        '1'
    } else if d == 2 {
        '2'
    } else if d == 3 {
        '3'
    } else if d == 4 {
        '4'
    } else if d == 5 {
        '5'
    } else if d == 6 {
        '6'
    } else if d == 7 {
        '7'
    } else if d == 8 {
        '8'
    } else {
        '9'
    }
}

fn push_u64(out: &mut Vec<char>, n: u64)
    ensures
        final(out)@ == old(out)@ + dec_digits(n as nat),
    decreases n,
{
    if n < 10 {
        out.push(digit_char_exec(n));
        assert(out@ =~= old(out)@ + dec_digits(n as nat));
    } else {
        push_u64(out, n / 10);
        out.push(digit_char_exec(n % 10));
        assert(out@ =~= old(out)@ + dec_digits(n as nat));
    }
}

fn push_entry_enc(out: &mut Vec<char>, e: &DesktopEntryBase)
    ensures
        final(out)@ == old(out)@ + enc_entry(e@),
{
    push_lit(out, "{\"name\":");
    push_string_enc(out, e.name.as_str());
    push_lit(out, ",\"exec\":");
    push_string_enc(out, e.exec_cmd.as_str());
    push_lit(out, ",\"icon\":");
    push_opt_enc(out, &e.icon);
    push_lit(out, ",\"comment\":");
    push_opt_enc(out, &e.comment);
    push_lit(out, ",\"generic_name\":");
    push_opt_enc(out, &e.generic_name);
    push_lit(out, "}");
    proof {
        assert(out@ =~= old(out)@ + enc_entry(e@));
    }
}

proof fn lemma_enc_entries_tail_push(es: Seq<EntryView>, e: EntryView)
    ensures
        enc_entries_tail(es.push(e)) == enc_entries_tail(es) + seq![','] + enc_entry(e),
    decreases es.len(),
{
    if es.len() == 0 {
        assert(es.push(e)[0] == e);
        assert(es.push(e).drop_first() =~= Seq::<EntryView>::empty());
        assert(enc_entries_tail(Seq::<EntryView>::empty()) == Seq::<char>::empty());
        assert(enc_entries_tail(es.push(e)) == seq![','] + enc_entry(e) + Seq::<char>::empty());
        assert(seq![','] + enc_entry(e) + Seq::<char>::empty() =~= enc_entries_tail(es) + seq![
            ',',
        ] + enc_entry(e));
    } else {
        assert(es.push(e)[0] == es[0]);
        assert(es.push(e).drop_first() =~= es.drop_first().push(e));
        lemma_enc_entries_tail_push(es.drop_first(), e);
        assert(enc_entries_tail(es.push(e)) == seq![','] + enc_entry(es[0]) + (enc_entries_tail(
            es.drop_first(),
        ) + seq![','] + enc_entry(e)));
        assert(seq![','] + enc_entry(es[0]) + (enc_entries_tail(es.drop_first()) + seq![',']
            + enc_entry(e)) =~= enc_entries_tail(es) + seq![','] + enc_entry(e));
    }
}

/// Writes a snapshot as its cache document. The text is exactly
/// `enc_cache` of the snapshot's value, so encoding is deterministic.
pub fn encode_cache(c: &CachedEntries) -> (r: String)
    ensures
        r@ == enc_cache(c@),
{
    let mut out: Vec<char> = Vec::new();
    push_lit(&mut out, "{\"entries\":[");
    let ghost ev = entries_view(c.entries@);
    if c.entries.len() > 0 {
        push_entry_enc(&mut out, &c.entries[0]);
        assert(ev[0] == c.entries@[0]@);
        let mut i: usize = 1;
        proof {
            assert(ev.subrange(1, 1) =~= Seq::<EntryView>::empty());
            assert(out@ =~= "{\"entries\":["@ + enc_entry(ev[0]) + enc_entries_tail(
                ev.subrange(1, 1),
            ));
        }
        while i < c.entries.len()
            invariant
                1 <= i <= c.entries.len(),
                ev == entries_view(c.entries@),
                ev.len() == c.entries@.len(),
                out@ == "{\"entries\":["@ + enc_entry(ev[0]) + enc_entries_tail(
                    ev.subrange(1, i as int),
                ),
            decreases c.entries.len() - i,
        {
            out.push(',');
            push_entry_enc(&mut out, &c.entries[i]);
            proof {
                assert(ev[i as int] == c.entries@[i as int]@);
                assert(ev.subrange(1, i + 1) =~= ev.subrange(1, i as int).push(ev[i as int]));
                lemma_enc_entries_tail_push(ev.subrange(1, i as int), ev[i as int]);
                assert(out@ =~= "{\"entries\":["@ + enc_entry(ev[0]) + enc_entries_tail(
                    ev.subrange(1, i + 1),
                ));
            }
            i = i + 1;
        }
        proof {
            assert(ev.subrange(1, ev.len() as int) =~= ev.drop_first());
            assert(out@ =~= "{\"entries\":["@ + enc_entries(ev));
        }
    } else {
        proof {
            assert(out@ =~= "{\"entries\":["@ + enc_entries(ev));
        }
    }
    push_lit(&mut out, "],\"last_update\":");
    push_u64(&mut out, c.last_update);
    push_lit(&mut out, "}");
    proof {
        assert(out@ =~= enc_cache(c@));
    }
    string_from_chars(out)
}

// ---------------------------------------------------------------------------
// The mathematical decoder: each function consumes a prefix of the text and
// returns the value it denotes together with the remaining text, or nothing
// when the text is malformed.
// ---------------------------------------------------------------------------

pub open spec fn p_lit(s: Seq<char>, l: Seq<char>) -> Option<Seq<char>> {
    if s.len() >= l.len() && s.subrange(0, l.len() as int) == l {
        Some(s.skip(l.len() as int))
    } else {
        None
    }
}

pub open spec fn p_str_body(s: Seq<char>) -> Option<(Seq<char>, Seq<char>)>
    decreases s.len(),
{
    if s.len() == 0 {
        None
    } else if s[0] == '"' {
        Some((Seq::empty(), s.drop_first()))
    } else if s[0] == '\\' {
        if s.len() >= 2 && (s[1] == '"' || s[1] == '\\') {
            match p_str_body(s.skip(2)) {
                None => None,
                Some(t) => Some((seq![s[1]] + t.0, t.1)),
            }
        } else {
            None
        }
    } else {
        match p_str_body(s.drop_first()) {
            None => None,
            Some(t) => Some((seq![s[0]] + t.0, t.1)),
        }
    }
}

pub open spec fn p_string(s: Seq<char>) -> Option<(Seq<char>, Seq<char>)> {
    if s.len() > 0 && s[0] == '"' {
        p_str_body(s.drop_first())
    } else {
        None
    }
}

pub open spec fn p_opt(s: Seq<char>) -> Option<(Option<Seq<char>>, Seq<char>)> {
    if s.len() > 0 && s[0] == '"' {
        match p_string(s) {
            None => None,
            Some(t) => Some((Some(t.0), t.1)),
        }
    } else {
        match p_lit(s, "null"@) {
            None => None,
            Some(r) => Some((None, r)),
        }
    }
}

pub open spec fn is_digit(c: char) -> bool {
    '0' as u32 <= c as u32 && c as u32 <= '9' as u32
}

pub open spec fn dval(c: char) -> int {
    c as u32 - '0' as u32
}

pub open spec fn p_digits(s: Seq<char>) -> (Seq<char>, Seq<char>)
    decreases s.len(),
{
    if s.len() > 0 && is_digit(s[0]) {
        let t = p_digits(s.drop_first());
        (seq![s[0]] + t.0, t.1)
    } else {
        (Seq::empty(), s)
    }
}

pub open spec fn digits_val(d: Seq<char>) -> int
    decreases d.len(),
{
    if d.len() == 0 {
        0
    } else {
        digits_val(d.drop_last()) * 10 + dval(d.last())
    }
}

pub open spec fn p_u64(s: Seq<char>) -> Option<(u64, Seq<char>)> {
    let t = p_digits(s);
    if t.0.len() == 0 || digits_val(t.0) > u64::MAX {
        None
    } else {
        Some((digits_val(t.0) as u64, t.1))
    }
}

pub open spec fn p_entry(s: Seq<char>) -> Option<(EntryView, Seq<char>)> {
    match p_lit(s, "{\"name\":"@) {
        None => None,
        Some(s1) => match p_string(s1) {
            None => None,
            Some(t_name) => match p_lit(t_name.1, ",\"exec\":"@) {
                None => None,
                Some(s3) => match p_string(s3) {
                    None => None,
                    Some(t_exec) => match p_lit(t_exec.1, ",\"icon\":"@) {
                        None => None,
                        Some(s5) => match p_opt(s5) {
                            None => None,
                            Some(t_icon) => match p_lit(t_icon.1, ",\"comment\":"@) {
                                None => None,
                                Some(s7) => match p_opt(s7) {
                                    None => None,
                                    Some(t_com) => match p_lit(t_com.1, ",\"generic_name\":"@) {
                                        None => None,
                                        Some(s9) => match p_opt(s9) {
                                            None => None,
                                            Some(t_gen) => match p_lit(t_gen.1, "}"@) {
                                                None => None,
                                                Some(s11) => Some(
                                                    (
                                                        EntryView {
                                                            name: t_name.0,
                                                            exec_cmd: t_exec.0,
                                                            icon: t_icon.0,
                                                            comment: t_com.0,
                                                            generic_name: t_gen.0,
                                                        },
                                                        s11,
                                                    ),
                                                ),
                                            },
                                        },
                                    },
                                },
                            },
                        },
                    },
                },
            },
        },
    }
}

pub open spec fn p_entries_tail(s: Seq<char>) -> Option<(Seq<EntryView>, Seq<char>)>
    decreases s.len(),
{
    if s.len() == 0 {
        None
    } else if s[0] == ']' {
        Some((Seq::empty(), s.drop_first()))
    } else if s[0] == ',' {
        match p_entry(s.drop_first()) {
            None => None,
            Some(t) => if t.1.len() < s.len() {
                match p_entries_tail(t.1) {
                    None => None,
                    Some(t2) => Some((seq![t.0] + t2.0, t2.1)),
                }
            } else {
                None
            },
        }
    } else {
        None
    }
}

pub open spec fn p_entries(s: Seq<char>) -> Option<(Seq<EntryView>, Seq<char>)> {
    if s.len() > 0 && s[0] == ']' {
        Some((Seq::empty(), s.drop_first()))
    } else {
        match p_entry(s) {
            None => None,
            Some(t) => if t.1.len() < s.len() {
                match p_entries_tail(t.1) {
                    None => None,
                    Some(t2) => Some((seq![t.0] + t2.0, t2.1)),
                }
            } else {
                None
            },
        }
    }
}

pub open spec fn p_cache(s: Seq<char>) -> Option<(CacheView, Seq<char>)> {
    match p_lit(s, "{\"entries\":["@) {
        None => None,
        Some(s1) => match p_entries(s1) {
            None => None,
            Some(t_es) => match p_lit(t_es.1, ",\"last_update\":"@) {
                None => None,
                Some(s3) => match p_u64(s3) {
                    None => None,
                    Some(t_n) => match p_lit(t_n.1, "}"@) {
                        None => None,
                        Some(s5) => Some(
                            (CacheView { entries: t_es.0, last_update: t_n.0 }, s5),
                        ),
                    },
                },
            },
        },
    }
}

/// What a cache document denotes: a snapshot exactly when the whole text is
/// one well-formed snapshot document, and nothing otherwise.
pub open spec fn decode_spec(s: Seq<char>) -> Option<CacheView> {
    match p_cache(s) {
        None => None,
        Some(t) => if t.1.len() == 0 {
            Some(t.0)
        } else {
            None
        },
    }
}

// ---------------------------------------------------------------------------
// Round trip: decoding an encoded snapshot yields the snapshot back.
// ---------------------------------------------------------------------------

proof fn lemma_p_lit_rt(l: Seq<char>, rest: Seq<char>)
    ensures
        p_lit(l + rest, l) == Some(rest),
{
    assert((l + rest).subrange(0, l.len() as int) =~= l);
    assert((l + rest).skip(l.len() as int) =~= rest);
}

proof fn lemma_str_body_rt(s: Seq<char>, rest: Seq<char>)
    ensures
        p_str_body(esc_str(s) + seq!['"'] + rest) == Some((s, rest)),
    decreases s.len(),
{
    let t = esc_str(s) + seq!['"'] + rest;
    if s.len() == 0 {
        assert(t =~= seq!['"'] + rest);
        assert(t[0] == '"');
        assert(t.drop_first() =~= rest);
        assert(p_str_body(t) == Some((Seq::<char>::empty(), rest)));
    } else {
        let c = s[0];
        lemma_str_body_rt(s.drop_first(), rest);
        if c == '"' || c == '\\' {
            assert(esc_char(c) =~= seq!['\\', c]);
            assert(t =~= seq!['\\', c] + (esc_str(s.drop_first()) + seq!['"'] + rest));
            assert(t[0] == '\\');
            assert(t[1] == c);
            assert(t.len() >= 2);
            assert(t.skip(2) =~= esc_str(s.drop_first()) + seq!['"'] + rest);
            assert(p_str_body(t.skip(2)) == Some((s.drop_first(), rest)));
            assert(seq![t[1]] + s.drop_first() =~= s);
        } else {
            assert(esc_char(c) =~= seq![c]);
            assert(t =~= seq![c] + (esc_str(s.drop_first()) + seq!['"'] + rest));
            assert(t[0] == c);
            assert(t[0] != '"' && t[0] != '\\');
            assert(t.drop_first() =~= esc_str(s.drop_first()) + seq!['"'] + rest);
            assert(p_str_body(t.drop_first()) == Some((s.drop_first(), rest)));
            assert(seq![t[0]] + s.drop_first() =~= s);
        }
    }
}

proof fn lemma_string_rt(s: Seq<char>, rest: Seq<char>)
    ensures
        p_string(enc_string(s) + rest) == Some((s, rest)),
{
    let t = enc_string(s) + rest;
    assert(t[0] == '"');
    assert(t.len() > 0);
    assert(t.drop_first() =~= esc_str(s) + seq!['"'] + rest);
    lemma_str_body_rt(s, rest);
}

proof fn lemma_opt_rt(o: Option<Seq<char>>, rest: Seq<char>)
    ensures
        p_opt(enc_opt(o) + rest) == Some((o, rest)),
{
    match o {
        Some(s) => {
            let t = enc_string(s) + rest;
            assert(t[0] == '"' && t.len() > 0);
            lemma_string_rt(s, rest);
        },
        None => {
            reveal_strlit("null");
            let t = "null"@ + rest;
            assert("null"@.len() == 4);
            assert(t[0] == 'n');
            assert(t[0] != '"');
            lemma_p_lit_rt("null"@, rest);
        },
    }
}

proof fn lemma_dec_digits_are_digits(n: nat)
    ensures
        dec_digits(n).len() >= 1,
        forall|i: int| 0 <= i < dec_digits(n).len() ==> is_digit(#[trigger] dec_digits(n)[i]),
    decreases n,
{
    if n < 10 {
        assert(is_digit(digit_char(n as int)));
    } else {
        lemma_dec_digits_are_digits(n / 10);
        assert(is_digit(digit_char((n % 10) as int)));
        assert(forall|i: int|
            0 <= i < dec_digits(n).len() ==> is_digit(#[trigger] dec_digits(n)[i])) by {
            assert(forall|i: int|
                0 <= i < dec_digits(n / 10).len() ==> dec_digits(n)[i] == #[trigger] dec_digits(
                    n / 10,
                )[i]);
            assert(dec_digits(n)[dec_digits(n).len() - 1] == digit_char((n % 10) as int));
        }
    }
}

proof fn lemma_p_digits_split(d: Seq<char>, rest: Seq<char>)
    requires
        forall|i: int| 0 <= i < d.len() ==> is_digit(#[trigger] d[i]),
        rest.len() == 0 || !is_digit(rest[0]),
    ensures
        p_digits(d + rest) == (d, rest),
    decreases d.len(),
{
    if d.len() == 0 {
        assert(d + rest =~= rest);
        assert(p_digits(rest) == (Seq::<char>::empty(), rest));
    } else {
        assert((d + rest)[0] == d[0]);
        assert(is_digit(d[0]));
        assert((d + rest).drop_first() =~= d.drop_first() + rest);
        assert(forall|i: int|
            0 <= i < d.drop_first().len() ==> is_digit(#[trigger] d.drop_first()[i])) by {
            assert(forall|i: int|
                0 <= i < d.drop_first().len() ==> d.drop_first()[i] == #[trigger] d[i + 1]);
        }
        lemma_p_digits_split(d.drop_first(), rest);
        assert(seq![d[0]] + d.drop_first() =~= d);
    }
}

proof fn lemma_digits_val_of(n: nat)
    ensures
        digits_val(dec_digits(n)) == n,
    decreases n,
{
    if n < 10 {
        let d = dec_digits(n);
        assert(d =~= seq![digit_char(n as int)]);
        assert(d.drop_last() =~= Seq::<char>::empty());
        assert(d.last() == digit_char(n as int));
        assert(dval(digit_char(n as int)) == n);
        assert(digits_val(Seq::<char>::empty()) == 0);
        assert(d.len() == 1);
        assert(digits_val(d) == digits_val(d.drop_last()) * 10 + dval(d.last()));
        assert(digits_val(d) == n);
    } else {
        lemma_digits_val_of(n / 10);
        let d = dec_digits(n);
        assert(d == dec_digits(n / 10) + seq![digit_char((n % 10) as int)]);
        assert(d.drop_last() =~= dec_digits(n / 10));
        assert(d.last() == digit_char((n % 10) as int));
        assert(dval(digit_char((n % 10) as int)) == n % 10);
        assert(d.len() > 0);
        assert(digits_val(d) == digits_val(d.drop_last()) * 10 + dval(d.last()));
        assert(digits_val(d.drop_last()) == n / 10);
        assert(digits_val(d) == (n / 10) * 10 + (n % 10));
        vstd::arithmetic::div_mod::lemma_fundamental_div_mod(n as int, 10);
        assert((n / 10) as int == n as int / 10);
        assert((n % 10) as int == n as int % 10);
        assert(n as int == 10 * (n as int / 10) + n as int % 10);
    }
}

proof fn lemma_u64_rt(n: u64, rest: Seq<char>)
    requires
        rest.len() == 0 || !is_digit(rest[0]),
    ensures
        p_u64(dec_digits(n as nat) + rest) == Some((n, rest)),
{
    lemma_dec_digits_are_digits(n as nat);
    lemma_p_digits_split(dec_digits(n as nat), rest);
    lemma_digits_val_of(n as nat);
}

proof fn lemma_entry_shape(e: EntryView)
    ensures
        enc_entry(e).len() > 0,
        enc_entry(e)[0] == '{',
{
    reveal_strlit("{\"name\":");
    assert("{\"name\":"@.len() == 8);
    assert("{\"name\":"@[0] == '{');
    assert(enc_entry(e)[0] == "{\"name\":"@[0]);
}

#[verifier::rlimit(100)]
proof fn lemma_entry_rt(e: EntryView, rest: Seq<char>)
    ensures
        p_entry(enc_entry(e) + rest) == Some((e, rest)),
{
    let r11 = rest;
    let r10 = "}"@ + r11;
    let r9 = enc_opt(e.generic_name) + r10;
    let r8 = ",\"generic_name\":"@ + r9;
    let r7 = enc_opt(e.comment) + r8;
    let r6 = ",\"comment\":"@ + r7;
    let r5 = enc_opt(e.icon) + r6;
    let r4 = ",\"icon\":"@ + r5;
    let r3 = enc_string(e.exec_cmd) + r4;
    let r2 = ",\"exec\":"@ + r3;
    let r1 = enc_string(e.name) + r2;
    let t = enc_entry(e) + rest;
    assert(t =~= "{\"name\":"@ + r1);
    lemma_p_lit_rt("{\"name\":"@, r1);
    lemma_string_rt(e.name, r2);
    lemma_p_lit_rt(",\"exec\":"@, r3);
    lemma_string_rt(e.exec_cmd, r4);
    lemma_p_lit_rt(",\"icon\":"@, r5);
    lemma_opt_rt(e.icon, r6);
    lemma_p_lit_rt(",\"comment\":"@, r7);
    lemma_opt_rt(e.comment, r8);
    lemma_p_lit_rt(",\"generic_name\":"@, r9);
    lemma_opt_rt(e.generic_name, r10);
    lemma_p_lit_rt("}"@, r11);
    assert(EntryView {
        name: e.name,
        exec_cmd: e.exec_cmd,
        icon: e.icon,
        comment: e.comment,
        generic_name: e.generic_name,
    } =~= e);
}

#[verifier::rlimit(100)]
proof fn lemma_entries_tail_rt(es: Seq<EntryView>, rest: Seq<char>)
    ensures
        p_entries_tail(enc_entries_tail(es) + seq![']'] + rest) == Some((es, rest)),
    decreases es.len(),
{
    let t = enc_entries_tail(es) + seq![']'] + rest;
    if es.len() == 0 {
        assert(t =~= seq![']'] + rest);
        assert(t[0] == ']');
        assert(t.drop_first() =~= rest);
    } else {
        let r1 = enc_entries_tail(es.drop_first()) + seq![']'] + rest;
        assert(t =~= seq![','] + (enc_entry(es[0]) + r1));
        assert(t[0] == ',');
        assert(t[0] != ']');
        assert(t.drop_first() =~= enc_entry(es[0]) + r1);
        lemma_entry_rt(es[0], r1);
        lemma_entry_shape(es[0]);
        assert(r1.len() < t.len());
        lemma_entries_tail_rt(es.drop_first(), rest);
        assert(seq![es[0]] + es.drop_first() =~= es);
    }
}

#[verifier::rlimit(100)]
proof fn lemma_entries_rt(es: Seq<EntryView>, rest: Seq<char>)
    ensures
        p_entries(enc_entries(es) + seq![']'] + rest) == Some((es, rest)),
{
    let t = enc_entries(es) + seq![']'] + rest;
    if es.len() == 0 {
        assert(t =~= seq![']'] + rest);
        assert(t[0] == ']');
        assert(t.drop_first() =~= rest);
    } else {
        let r1 = enc_entries_tail(es.drop_first()) + seq![']'] + rest;
        assert(t =~= enc_entry(es[0]) + r1);
        lemma_entry_shape(es[0]);
        assert(t[0] == '{');
        assert(t[0] != ']');
        lemma_entry_rt(es[0], r1);
        assert(r1.len() < t.len());
        lemma_entries_tail_rt(es.drop_first(), rest);
        assert(seq![es[0]] + es.drop_first() =~= es);
    }
}

/// Writing a snapshot and reading the text back yields the same snapshot:
/// the decoder inverts the encoder on every snapshot value.
pub proof fn lemma_cache_round_trip(c: CacheView)
    ensures
        decode_spec(enc_cache(c)) == Some(c),
{
    reveal_strlit("],\"last_update\":");
    reveal_strlit(",\"last_update\":");
    reveal_strlit("}");
    let rEnd = "}"@;
    let rNum = dec_digits(c.last_update as nat) + rEnd;
    let rMid = ",\"last_update\":"@ + rNum;
    let t = enc_cache(c);
    assert("],\"last_update\":"@ =~= seq![']'] + ",\"last_update\":"@);
    assert(t =~= "{\"entries\":["@ + (enc_entries(c.entries) + seq![']'] + rMid));
    lemma_p_lit_rt("{\"entries\":["@, enc_entries(c.entries) + seq![']'] + rMid);
    lemma_entries_rt(c.entries, rMid);
    lemma_p_lit_rt(",\"last_update\":"@, rNum);
    assert(rEnd[0] == '}');
    assert(!is_digit('}'));
    lemma_u64_rt(c.last_update, rEnd);
    lemma_p_lit_rt("}"@, Seq::<char>::empty());
    assert(rEnd =~= "}"@ + Seq::<char>::empty());
    assert(CacheView { entries: c.entries, last_update: c.last_update } =~= c);
}


// ---------------------------------------------------------------------------
// The exec decoder: each function mirrors one function of the mathematical
// decoder and is proved to agree with it on every input.
// ---------------------------------------------------------------------------

fn d_lit(v: &Vec<char>, pos: usize, lit: &str) -> (r: Option<usize>)
    requires
        pos <= v.len(),
    ensures
        match r {
            Some(p2) => (pos <= p2 <= v.len() && p2 - pos == lit@.len() && p_lit(
                v@.skip(pos as int),
                lit@,
            ) == Some(v@.skip(p2 as int))),
            None => p_lit(v@.skip(pos as int), lit@) is None,
        },
{
    let lc = str_chars(lit);
    if v.len() - pos < lc.len() {
        assert(v@.skip(pos as int).len() < lit@.len());
        None
    } else {
        let mut j: usize = 0;
        while j < lc.len()
            invariant
                j <= lc.len(),
                lc@ == lit@,
                pos + lc.len() <= v.len(),
                pos <= v.len(),
                forall|k: int| 0 <= k < j ==> v@[pos + k] == lc@[k],
            decreases lc.len() - j,
        {
            if v[pos + j] != lc[j] {
                proof {
                    let s = v@.skip(pos as int);
                    assert(s.len() >= lit@.len());
                    assert(s.subrange(0, lit@.len() as int)[j as int] == s[j as int]);
                    assert(s[j as int] == v@[pos + j]);
                    assert(s.subrange(0, lit@.len() as int) != lit@);
                }
                return None;
            }
            j = j + 1;
        }
        proof {
            let s = v@.skip(pos as int);
            assert(forall|k: int| 0 <= k < lit@.len() ==> s.subrange(0, lit@.len() as int)[k]
                == v@[pos + k]);
            assert(s.subrange(0, lit@.len() as int) =~= lit@);
            assert(s.skip(lit@.len() as int) =~= v@.skip(pos + lc@.len()));
        }
        Some(pos + lc.len())
    }
}

fn d_str_body(v: &Vec<char>, pos: usize) -> (r: Option<(Vec<char>, usize)>)
    requires
        pos <= v.len(),
    ensures
        match r {
            Some(t) => (pos <= t.1 <= v.len() && p_str_body(v@.skip(pos as int)) == Some(
                (t.0@, v@.skip(t.1 as int)),
            )),
            None => p_str_body(v@.skip(pos as int)) is None,
        },
    decreases v.len() - pos,
{
    if pos == v.len() {
        assert(v@.skip(pos as int).len() == 0);
        None
    } else {
        let c = v[pos];
        assert(v@.skip(pos as int)[0] == v@[pos as int]);
        if c == '"' {
            assert(v@.skip(pos as int).drop_first() =~= v@.skip(pos + 1));
            let empty: Vec<char> = Vec::new();
            assert(empty@ =~= Seq::<char>::empty());
            Some((empty, pos + 1))
        } else if c == '\\' {
            if pos + 1 < v.len() {
                let c2 = v[pos + 1];
                assert(v@.skip(pos as int)[1] == v@[pos + 1]);
                assert(v@.skip(pos as int).len() >= 2);
                if c2 == '"' || c2 == '\\' {
                    assert(v@.skip(pos as int).skip(2) =~= v@.skip(pos + 2));
                    match d_str_body(v, pos + 2) {
                        None => None,
                        Some((tail, p2)) => {
                            let ghost tail_old = tail@;
                            let mut sv: Vec<char> = Vec::new();
                            sv.push(c2);
                            let mut tail2 = tail;
                            sv.append(&mut tail2);
                            assert(sv@ =~= seq![v@.skip(pos as int)[1]] + tail_old);
                            Some((sv, p2))
                        },
                    }
                } else {
                    None
                }
            } else {
                assert(v@.skip(pos as int).len() < 2);
                None
            }
        } else {
            assert(v@.skip(pos as int).drop_first() =~= v@.skip(pos + 1));
            match d_str_body(v, pos + 1) {
                None => None,
                Some((tail, p2)) => {
                    let ghost tail_old = tail@;
                    let mut sv: Vec<char> = Vec::new();
                    sv.push(c);
                    let mut tail2 = tail;
                    sv.append(&mut tail2);
                    assert(sv@ =~= seq![v@.skip(pos as int)[0]] + tail_old);
                    Some((sv, p2))
                },
            }
        }
    }
}

fn d_string(v: &Vec<char>, pos: usize) -> (r: Option<(Vec<char>, usize)>)
    requires
        pos <= v.len(),
    ensures
        match r {
            Some(t) => (pos < t.1 <= v.len() && p_string(v@.skip(pos as int)) == Some(
                (t.0@, v@.skip(t.1 as int)),
            )),
            None => p_string(v@.skip(pos as int)) is None,
        },
{
    if pos < v.len() {
        let c = v[pos];
        assert(v@.skip(pos as int)[0] == v@[pos as int]);
        assert(v@.skip(pos as int).len() > 0);
        if c == '"' {
            assert(v@.skip(pos as int).drop_first() =~= v@.skip(pos + 1));
            d_str_body(v, pos + 1)
        } else {
            None
        }
    } else {
        assert(v@.skip(pos as int).len() == 0);
        None
    }
}

fn d_opt(v: &Vec<char>, pos: usize) -> (r: Option<(Option<String>, usize)>)
    requires
        pos <= v.len(),
    ensures
        match r {
            Some(t) => (pos < t.1 <= v.len() && p_opt(v@.skip(pos as int)) == Some(
                (opt_view(t.0), v@.skip(t.1 as int)),
            )),
            None => p_opt(v@.skip(pos as int)) is None,
        },
{
    if pos < v.len() && v[pos] == '"' {
        assert(v@.skip(pos as int)[0] == v@[pos as int]);
        match d_string(v, pos) {
            None => None,
            Some((sv, p2)) => {
                let s = string_from_chars(sv);
                Some((Some(s), p2))
            },
        }
    } else {
        proof {
            if pos < v.len() {
                assert(v@.skip(pos as int)[0] == v@[pos as int]);
            } else {
                assert(v@.skip(pos as int).len() == 0);
            }
            reveal_strlit("null");
        }
        match d_lit(v, pos, "null") {
            None => None,
            Some(p2) => {
                assert("null"@.len() == 4) by {
                    reveal_strlit("null");
                }
                Some((None, p2))
            },
        }
    }
}

fn is_digit_exec(c: char) -> (r: bool)
    ensures
        r == is_digit(c),
{
    let cu = c as u32;
    cu >= '0' as u32 && cu <= '9' as u32
}

proof fn lemma_p_digits_all_digits(s: Seq<char>)
    ensures
        forall|i: int|
            0 <= i < p_digits(s).0.len() ==> is_digit(#[trigger] p_digits(s).0[i]),
        p_digits(s).0.len() <= s.len(),
    decreases s.len(),
{
    if s.len() > 0 && is_digit(s[0]) {
        lemma_p_digits_all_digits(s.drop_first());
        assert(forall|i: int|
            0 <= i < p_digits(s).0.len() ==> is_digit(#[trigger] p_digits(s).0[i])) by {
            let t = p_digits(s.drop_first());
            assert(p_digits(s).0 == seq![s[0]] + t.0);
            assert(p_digits(s).0[0] == s[0]);
            assert(forall|i: int|
                1 <= i < p_digits(s).0.len() ==> p_digits(s).0[i] == #[trigger] t.0[i - 1]);
        }
    }
}

fn d_digits_end(v: &Vec<char>, pos: usize) -> (end: usize)
    requires
        pos <= v.len(),
    ensures
        pos <= end <= v.len(),
        p_digits(v@.skip(pos as int)).0 == v@.subrange(pos as int, end as int),
        p_digits(v@.skip(pos as int)).1 == v@.skip(end as int),
    decreases v.len() - pos,
{
    if pos < v.len() {
        let c = v[pos];
        assert(v@.skip(pos as int)[0] == v@[pos as int]);
        if is_digit_exec(c) {
            assert(v@.skip(pos as int).drop_first() =~= v@.skip(pos + 1));
            let end = d_digits_end(v, pos + 1);
            proof {
                assert(v@.subrange(pos as int, end as int) =~= seq![v@[pos as int]] + v@.subrange(
                    pos + 1,
                    end as int,
                ));
            }
            end
        } else {
            assert(v@.subrange(pos as int, pos as int) =~= Seq::<char>::empty());
            pos
        }
    } else {
        assert(v@.skip(pos as int).len() == 0);
        assert(v@.subrange(pos as int, pos as int) =~= Seq::<char>::empty());
        pos
    }
}

proof fn lemma_digits_val_nonneg(s: Seq<char>)
    requires
        forall|i: int| 0 <= i < s.len() ==> is_digit(#[trigger] s[i]),
    ensures
        digits_val(s) >= 0,
    decreases s.len(),
{
    if s.len() > 0 {
        assert(forall|i: int| 0 <= i < s.drop_last().len() ==> is_digit(#[trigger] s.drop_last()[i]))
            by {
            assert(forall|i: int| 0 <= i < s.drop_last().len() ==> s.drop_last()[i] == #[trigger] s[
                i
            ]);
        }
        lemma_digits_val_nonneg(s.drop_last());
        assert(is_digit(s.last()));
        assert(dval(s.last()) >= 0);
    }
}

proof fn lemma_digits_val_prefix(s: Seq<char>, k: int)
    requires
        forall|i: int| 0 <= i < s.len() ==> is_digit(#[trigger] s[i]),
        0 <= k <= s.len(),
    ensures
        digits_val(s.take(k)) <= digits_val(s),
    decreases s.len() - k,
{
    if k == s.len() {
        assert(s.take(k) =~= s);
    } else {
        assert(forall|i: int| 0 <= i < s.drop_last().len() ==> is_digit(#[trigger] s.drop_last()[i]))
            by {
            assert(forall|i: int| 0 <= i < s.drop_last().len() ==> s.drop_last()[i] == #[trigger] s[
                i
            ]);
        }
        lemma_digits_val_prefix(s.drop_last(), k);
        assert(s.drop_last().take(k) =~= s.take(k));
        lemma_digits_val_nonneg(s.drop_last());
        assert(is_digit(s.last()));
        assert(dval(s.last()) >= 0);
        assert(digits_val(s) == digits_val(s.drop_last()) * 10 + dval(s.last()));
        assert(digits_val(s.drop_last()) * 10 >= digits_val(s.drop_last()));
    }
}

#[verifier::rlimit(100)]
fn d_u64(v: &Vec<char>, pos: usize) -> (r: Option<(u64, usize)>)
    requires
        pos <= v.len(),
    ensures
        match r {
            Some(t) => (pos < t.1 <= v.len() && p_u64(v@.skip(pos as int)) == Some(
                (t.0, v@.skip(t.1 as int)),
            )),
            None => p_u64(v@.skip(pos as int)) is None,
        },
{
    let end = d_digits_end(v, pos);
    let ghost d = p_digits(v@.skip(pos as int)).0;
    proof {
        lemma_p_digits_all_digits(v@.skip(pos as int));
    }
    if end == pos {
        assert(d.len() == 0);
        return None;
    }
    let mut val: u64 = 0;
    let mut i: usize = pos;
    proof {
        assert(v@.subrange(pos as int, pos as int) =~= Seq::<char>::empty());
        assert(digits_val(Seq::<char>::empty()) == 0);
    }
    while i < end
        invariant
            pos <= i <= end <= v.len(),
            d == v@.subrange(pos as int, end as int),
            d == p_digits(v@.skip(pos as int)).0,
            d.len() > 0,
            forall|k: int| 0 <= k < d.len() ==> is_digit(#[trigger] d[k]),
            val as int == digits_val(v@.subrange(pos as int, i as int)),
        decreases end - i,
    {
        let c = v[i];
        proof {
            assert(d[i - pos] == v@[i as int]);
            assert(is_digit(v@[i as int]));
        }
        let dv = (c as u32 - '0' as u32) as u64;
        assert(dv as int == dval(v@[i as int]));
        assert(0 <= dv < 10);
        let ghost pre = v@.subrange(pos as int, i as int);
        let ghost cur = v@.subrange(pos as int, i + 1);
        proof {
            assert(cur.drop_last() =~= pre);
            assert(cur.last() == v@[i as int]);
            assert(digits_val(cur) == digits_val(pre) * 10 + dval(v@[i as int]));
            vstd::arithmetic::div_mod::lemma_fundamental_div_mod(u64::MAX as int, 10);
        }
        if val > u64::MAX / 10 || (val == u64::MAX / 10 && dv > u64::MAX % 10) {
            proof {
                assert(u64::MAX as int == 10 * (u64::MAX as int / 10) + u64::MAX as int % 10);
                assert(val as int * 10 + dv as int > u64::MAX as int) by {
                    if val > u64::MAX / 10 {
                        assert(val as int >= u64::MAX as int / 10 + 1);
                        assert(val as int * 10 >= (u64::MAX as int / 10) * 10 + 10);
                        assert(u64::MAX as int % 10 < 10);
                    } else {
                        assert(val as int == u64::MAX as int / 10);
                        assert(dv as int > u64::MAX as int % 10);
                    }
                }
                assert(digits_val(cur) == val as int * 10 + dv as int);
                assert(digits_val(cur) > u64::MAX);
                assert(cur =~= d.take(i + 1 - pos));
                lemma_digits_val_prefix(d, i + 1 - pos);
                assert(digits_val(d) > u64::MAX);
            }
            return None;
        }
        assert(val * 10 + dv <= u64::MAX);
        val = val * 10 + dv;
        i = i + 1;
    }
    proof {
        assert(v@.subrange(pos as int, end as int) == d);
        assert(val as int == digits_val(d));
        assert(d.len() > 0);
        lemma_digits_val_nonneg(d);
    }
    Some((val, end))
}

#[verifier::rlimit(100)]
fn d_entry(v: &Vec<char>, pos: usize) -> (r: Option<(DesktopEntryBase, usize)>)
    requires
        pos <= v.len(),
    ensures
        match r {
            Some(t) => (pos < t.1 <= v.len() && p_entry(v@.skip(pos as int)) == Some(
                (t.0@, v@.skip(t.1 as int)),
            )),
            None => p_entry(v@.skip(pos as int)) is None,
        },
{
    proof {
        reveal_strlit("{\"name\":");
    }
    let p1 = match d_lit(v, pos, "{\"name\":") {
        None => {
            return None;
        },
        Some(p) => p,
    };
    let (name_cs, p2) = match d_string(v, p1) {
        None => {
            return None;
        },
        Some(t) => t,
    };
    let p3 = match d_lit(v, p2, ",\"exec\":") {
        None => {
            return None;
        },
        Some(p) => p,
    };
    let (exec_cs, p4) = match d_string(v, p3) {
        None => {
            return None;
        },
        Some(t) => t,
    };
    let p5 = match d_lit(v, p4, ",\"icon\":") {
        None => {
            return None;
        },
        Some(p) => p,
    };
    let (icon_v, p6) = match d_opt(v, p5) {
        None => {
            return None;
        },
        Some(t) => t,
    };
    let p7 = match d_lit(v, p6, ",\"comment\":") {
        None => {
            return None;
        },
        Some(p) => p,
    };
    let (comment_v, p8) = match d_opt(v, p7) {
        None => {
            return None;
        },
        Some(t) => t,
    };
    let p9 = match d_lit(v, p8, ",\"generic_name\":") {
        None => {
            return None;
        },
        Some(p) => p,
    };
    let (generic_v, p10) = match d_opt(v, p9) {
        None => {
            return None;
        },
        Some(t) => t,
    };
    let p11 = match d_lit(v, p10, "}") {
        None => {
            return None;
        },
        Some(p) => p,
    };
    let rec = DesktopEntryBase {
        name: string_from_chars(name_cs),
        exec_cmd: string_from_chars(exec_cs),
        icon: icon_v,
        comment: comment_v,
        generic_name: generic_v,
    };
    proof {
        assert(p_entry(v@.skip(pos as int)) == Some((rec@, v@.skip(p11 as int)))) by {
            assert(rec@ =~= EntryView {
                name: rec.name@,
                exec_cmd: rec.exec_cmd@,
                icon: opt_view(rec.icon),
                comment: opt_view(rec.comment),
                generic_name: opt_view(rec.generic_name),
            });
        }
    }
    Some((rec, p11))
}

fn d_entries_tail(v: &Vec<char>, pos: usize) -> (r: Option<(Vec<DesktopEntryBase>, usize)>)
    requires
        pos <= v.len(),
    ensures
        match r {
            Some(t) => (pos <= t.1 <= v.len() && p_entries_tail(v@.skip(pos as int)) == Some(
                (entries_view(t.0@), v@.skip(t.1 as int)),
            )),
            None => p_entries_tail(v@.skip(pos as int)) is None,
        },
    decreases v.len() - pos,
{
    if pos >= v.len() {
        assert(v@.skip(pos as int).len() == 0);
        return None;
    }
    let c = v[pos];
    assert(v@.skip(pos as int)[0] == v@[pos as int]);
    if c == ']' {
        assert(v@.skip(pos as int).drop_first() =~= v@.skip(pos + 1));
        let empty: Vec<DesktopEntryBase> = Vec::new();
        assert(entries_view(empty@) =~= Seq::<EntryView>::empty());
        Some((empty, pos + 1))
    } else if c == ',' {
        assert(v@.skip(pos as int).drop_first() =~= v@.skip(pos + 1));
        match d_entry(v, pos + 1) {
            None => None,
            Some((e, p2)) => {
                proof {
                    assert(v@.skip(p2 as int).len() < v@.skip(pos as int).len());
                }
                match d_entries_tail(v, p2) {
                    None => None,
                    Some((es, p3)) => {
                        let mut es2 = es;
                        es2.insert(0, e);
                        proof {
                            assert(entries_view(es2@)[0] == e@);
                            assert(entries_view(es2@) =~= seq![e@] + entries_view(
                                es2@.drop_first(),
                            ));
                            assert(es2@.drop_first() =~= es2@.subrange(1, es2@.len() as int));
                        }
                        Some((es2, p3))
                    },
                }
            },
        }
    } else {
        None
    }
}

fn d_entries(v: &Vec<char>, pos: usize) -> (r: Option<(Vec<DesktopEntryBase>, usize)>)
    requires
        pos <= v.len(),
    ensures
        match r {
            Some(t) => (pos <= t.1 <= v.len() && p_entries(v@.skip(pos as int)) == Some(
                (entries_view(t.0@), v@.skip(t.1 as int)),
            )),
            None => p_entries(v@.skip(pos as int)) is None,
        },
{
    if pos < v.len() && v[pos] == ']' {
        assert(v@.skip(pos as int)[0] == v@[pos as int]);
        assert(v@.skip(pos as int).drop_first() =~= v@.skip(pos + 1));
        let empty: Vec<DesktopEntryBase> = Vec::new();
        assert(entries_view(empty@) =~= Seq::<EntryView>::empty());
        return Some((empty, pos + 1));
    }
    proof {
        if pos < v.len() {
            assert(v@.skip(pos as int)[0] == v@[pos as int]);
        } else {
            assert(v@.skip(pos as int).len() == 0);
        }
    }
    match d_entry(v, pos) {
        None => None,
        Some((e, p2)) => {
            proof {
                assert(v@.skip(p2 as int).len() < v@.skip(pos as int).len());
            }
            match d_entries_tail(v, p2) {
                None => None,
                Some((es, p3)) => {
                    let mut es2 = es;
                    es2.insert(0, e);
                    proof {
                        assert(entries_view(es2@)[0] == e@);
                        assert(entries_view(es2@) =~= seq![e@] + entries_view(es2@.drop_first()));
                        assert(es2@.drop_first() =~= es2@.subrange(1, es2@.len() as int));
                    }
                    Some((es2, p3))
                },
            }
        },
    }
}

/// Reads a cache document back into a snapshot. Succeeds exactly on the
/// texts that denote a snapshot; any other text is a hard decode error,
/// never silently treated as an absent cache.
pub fn decode_cache(text: &str) -> (r: Result<CachedEntries, CacheError>)
    ensures
        match r {
            Ok(c) => decode_spec(text@) == Some(c@),
            Err(e) => (decode_spec(text@) is None && e == CacheError::Decode),
        },
{
    let v = str_chars(text);
    proof {
        assert(v@.skip(0) =~= v@);
    }
    let p1 = match d_lit(&v, 0, "{\"entries\":[") {
        None => {
            return Err(CacheError::Decode);
        },
        Some(p) => p,
    };
    let (entries, p2) = match d_entries(&v, p1) {
        None => {
            return Err(CacheError::Decode);
        },
        Some(t) => t,
    };
    let p3 = match d_lit(&v, p2, ",\"last_update\":") {
        None => {
            return Err(CacheError::Decode);
        },
        Some(p) => p,
    };
    let (lu, p4) = match d_u64(&v, p3) {
        None => {
            return Err(CacheError::Decode);
        },
        Some(t) => t,
    };
    let p5 = match d_lit(&v, p4, "}") {
        None => {
            return Err(CacheError::Decode);
        },
        Some(p) => p,
    };
    if p5 != v.len() {
        assert(v@.skip(p5 as int).len() > 0);
        return Err(CacheError::Decode);
    }
    let c = CachedEntries { entries, last_update: lu };
    proof {
        assert(v@.skip(p5 as int).len() == 0);
        assert(c@ =~= CacheView { entries: entries_view(c.entries@), last_update: lu });
    }
    Ok(c)
}

} // verus!
