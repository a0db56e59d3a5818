//! Document → design-first genome. Markdown headings become nodes (often
//! path-less, since the code may not exist yet); the first paragraph under each
//! becomes a scan-extracted summary, left for enrichment to turn into a
//! plain-language why.
use vstd::prelude::*;
use pulldown_cmark::{Event, Tag, TagEnd};
use crate::json::{JVal, Json, minsert, members_view, lemma_object_view, obj_insert, lit, key_index, lemma_key_index, is_first_key, has_key};
use crate::resolve::strings_view;
use crate::validate::{honest, honesty_findings, lemma_honesty_clean};
use crate::text::{digit_char, chars_of, push_char, push_chars, push_str, string_of, trim, trim_chars, decimal, push_decimal, chars_eq};

verus! {

// ---------------------------------------------------------------------------
// Markdown events.
// ---------------------------------------------------------------------------

/// What the markdown parser reports, as far as ingestion reads it.
pub enum MdEvent {
    StartHeading(u8),
    EndHeading(u8),
    StartParagraph,
    EndParagraph,
    Text(String),
    Code(String),
    SoftBreak,
    HardBreak,
    Other,
}

pub enum MdEventV {
    StartHeading(u8),
    EndHeading(u8),
    StartParagraph,
    EndParagraph,
    Text(Seq<char>),
    Code(Seq<char>),
    SoftBreak,
    HardBreak,
    Other,
}

impl View for MdEvent {
    type V = MdEventV;

    open spec fn view(&self) -> MdEventV {
        match self {
            MdEvent::StartHeading(l) => MdEventV::StartHeading(*l),
            MdEvent::EndHeading(l) => MdEventV::EndHeading(*l),
            MdEvent::StartParagraph => MdEventV::StartParagraph,
            MdEvent::EndParagraph => MdEventV::EndParagraph,
            MdEvent::Text(t) => MdEventV::Text(t@),
            MdEvent::Code(t) => MdEventV::Code(t@),
            MdEvent::SoftBreak => MdEventV::SoftBreak,
            MdEvent::HardBreak => MdEventV::HardBreak,
            MdEvent::Other => MdEventV::Other,
        }
    }
}

pub open spec fn events_view(v: Seq<MdEvent>) -> Seq<MdEventV> {
    v.map_values(|e: MdEvent| e@)
}

/// The events CommonMark parsing of `text` yields (pulldown-cmark with default
/// options), reduced to the kinds above.
pub uninterp spec fn markdown_events(text: Seq<char>) -> Seq<MdEventV>;

/// The event stream of `pulldown_cmark::Parser::new(text)`, each event mapped to
/// its kind (heading levels as 1..=6); the contract claims only that the result
/// is a function of the text.
#[verifier::external_body]
pub(crate) fn parse_markdown(text: &str) -> (r: Vec<MdEvent>)
    ensures
        events_view(r@) == markdown_events(text@),
{
    let mut out = Vec::new();
    for ev in pulldown_cmark::Parser::new(text) {
        out.push(match ev {
            Event::Start(Tag::Heading { level, .. }) => MdEvent::StartHeading(level as u8),
            Event::End(TagEnd::Heading(level)) => MdEvent::EndHeading(level as u8),
            Event::Start(Tag::Paragraph) => MdEvent::StartParagraph,
            Event::End(TagEnd::Paragraph) => MdEvent::EndParagraph,
            Event::Text(t) => MdEvent::Text(t.to_string()),
            Event::Code(t) => MdEvent::Code(t.to_string()),
            Event::SoftBreak => MdEvent::SoftBreak,
            Event::HardBreak => MdEvent::HardBreak,
            _ => MdEvent::Other,
        });
    }
    out
}

// ---------------------------------------------------------------------------
// Sections: (heading, first paragraph) pairs in document order.
// ---------------------------------------------------------------------------

pub struct Section {
    pub level: u8,
    pub title: String,
    pub summary: Option<String>,
}

pub struct SectionV {
    pub level: u8,
    pub title: Seq<char>,
    pub summary: Option<Seq<char>>,
}

pub open spec fn opt_str_view(o: Option<String>) -> Option<Seq<char>> {
    match o {
        Some(s) => Some(s@),
        None => None,
    }
}

impl View for Section {
    type V = SectionV;

    open spec fn view(&self) -> SectionV {
        SectionV { level: self.level, title: self.title@, summary: opt_str_view(self.summary) }
    }
}

pub open spec fn sections_view(v: Seq<Section>) -> Seq<SectionV> {
    v.map_values(|s: Section| s@)
}

pub struct ScanState {
    pub out: Seq<SectionV>,
    pub buf: Seq<char>,
    pub in_head: bool,
    pub in_para: bool,
    pub level: u8,
}

/// A paragraph ends: its trimmed text becomes the summary of the latest section
/// that has none yet (when the text is not empty).
pub open spec fn close_paragraph(out: Seq<SectionV>, buf: Seq<char>) -> Seq<SectionV> {
    let s = trim(buf);
    if out.len() > 0 && out.last().summary is None && s.len() > 0 {
        out.update(
            out.len() - 1,
            SectionV { level: out.last().level, title: out.last().title, summary: Some(s) },
        )
    } else {
        out
    }
}

pub open spec fn scan_step(st: ScanState, ev: MdEventV) -> ScanState {
    match ev {
        MdEventV::StartHeading(l) => ScanState { in_head: true, buf: Seq::empty(), level: l, ..st },
        MdEventV::EndHeading(_) => ScanState {
            in_head: false,
            out: st.out.push(SectionV { level: st.level, title: trim(st.buf), summary: None }),
            buf: Seq::empty(),
            ..st
        },
        MdEventV::StartParagraph => ScanState { in_para: true, buf: Seq::empty(), ..st },
        MdEventV::EndParagraph => ScanState {
            out: if st.in_para { close_paragraph(st.out, st.buf) } else { st.out },
            in_para: false,
            buf: Seq::empty(),
            ..st
        },
        MdEventV::Text(t) => if st.in_head || st.in_para {
            ScanState { buf: st.buf + t, ..st }
        } else {
            st
        },
        MdEventV::Code(t) => if st.in_head || st.in_para {
            ScanState { buf: st.buf + t, ..st }
        } else {
            st
        },
        MdEventV::SoftBreak => if st.in_head || st.in_para {
            ScanState { buf: st.buf.push(' '), ..st }
        } else {
            st
        },
        MdEventV::HardBreak => if st.in_head || st.in_para {
            ScanState { buf: st.buf.push(' '), ..st }
        } else {
            st
        },
        MdEventV::Other => st,
    }
}

pub open spec fn scan(evs: Seq<MdEventV>) -> ScanState {
    evs.fold_left(
        ScanState { out: Seq::empty(), buf: Seq::empty(), in_head: false, in_para: false, level: 1 },
        |st: ScanState, e: MdEventV| scan_step(st, e),
    )
}

/// The sections of an event stream: every heading, with the first non-empty
/// paragraph that follows it.
pub open spec fn sections_of(evs: Seq<MdEventV>) -> Seq<SectionV> {
    scan(evs).out
}

/// Walk the events, collecting (heading, first-paragraph) pairs in order.
pub fn sections_from_events(events: &Vec<MdEvent>) -> (r: Vec<Section>)
    ensures
        sections_view(r@) == sections_of(events_view(events@)),
{
    let ghost ev = events_view(events@);
    let mut out: Vec<Section> = Vec::new();
    let mut buf: Vec<char> = Vec::new();
    let mut in_head = false;
    let mut in_para = false;
    let mut level: u8 = 1;
    let mut i: usize = 0;
    proof {
        assert(sections_view(out@) =~= Seq::<SectionV>::empty());
    }
    while i < events.len()
        invariant
            i <= events@.len(),
            ev == events_view(events@),
            scan(ev.take(i as int)) == (ScanState {
                out: sections_view(out@),
                buf: buf@,
                in_head,
                in_para,
                level,
            }),
        decreases events@.len() - i,
    {
        proof {
            assert(ev.take(i + 1).drop_last() =~= ev.take(i as int));
        }
        let ghost before = sections_view(out@);
        match &events[i] {
            MdEvent::StartHeading(l) => {
                in_head = true;
                buf = Vec::new();
                level = *l;
            },
            MdEvent::EndHeading(_) => {
                in_head = false;
                let t = trim_chars(&buf);
                let s = Section { level, title: string_of(&t), summary: None };
                out.push(s);
                proof {
                    assert(sections_view(out@) =~= before.push(s@));
                }
                buf = Vec::new();
            },
            MdEvent::StartParagraph => {
                in_para = true;
                buf = Vec::new();
            },
            MdEvent::EndParagraph => {
                if in_para {
                    let t = trim_chars(&buf);
                    let n = out.len();
                    if n > 0 && out[n - 1].summary.is_none() && t.len() > 0 {
                        let last = out.pop().unwrap();
                        let s = Section { level: last.level, title: last.title, summary: Some(string_of(&t)) };
                        out.push(s);
                        proof {
                            assert(sections_view(out@) =~= close_paragraph(before, buf@));
                        }
                    }
                }
                in_para = false;
                buf = Vec::new();
            },
            MdEvent::Text(t) | MdEvent::Code(t) => {
                if in_head || in_para {
                    let c = chars_of(t.as_str());
                    let mut j: usize = 0;
                    let ghost b0 = buf@;
                    while j < c.len()
                        invariant
                            j <= c@.len(),
                            buf@ == b0 + c@.take(j as int),
                        decreases c@.len() - j,
                    {
                        buf.push(c[j]);
                        j = j + 1;
                        assert(buf@ =~= b0 + c@.take(j as int));
                    }
                    assert(c@.take(j as int) =~= c@);
                }
            },
            MdEvent::SoftBreak | MdEvent::HardBreak => {
                if in_head || in_para {
                    buf.push(' ');
                }
            },
            MdEvent::Other => {},
        }
        i = i + 1;
    }
    assert(ev.take(i as int) =~= ev);
    out
}

// ---------------------------------------------------------------------------
// Slugs: unique ids made from titles.
// ---------------------------------------------------------------------------

pub open spec fn is_ascii_alnum(c: char) -> bool {
    ('0' <= c && c <= '9') || ('a' <= c && c <= 'z') || ('A' <= c && c <= 'Z')
}

pub open spec fn ascii_lower(c: char) -> char {
    if 'A' <= c && c <= 'Z' {
        ((c as u8) + 32) as char
    } else {
        c
    }
}

/// An ASCII letter or digit lower-cased; anything else becomes `_`.
pub open spec fn slug_char(c: char) -> char {
    if is_ascii_alnum(c) { ascii_lower(c) } else { '_' }
}

pub open spec fn us_trim_start(s: Seq<char>) -> Seq<char>
    decreases s.len(),
{
    if s.len() > 0 && s[0] == '_' { us_trim_start(s.drop_first()) } else { s }
}

pub open spec fn us_trim_end(s: Seq<char>) -> Seq<char>
    decreases s.len(),
{
    if s.len() > 0 && s.last() == '_' { us_trim_end(s.drop_last()) } else { s }
}

/// Each `__`, left to right and without overlap, replaced by `_`.
pub open spec fn halve_pairs(s: Seq<char>) -> Seq<char>
    decreases s.len(),
{
    if s.len() >= 2 && s[0] == '_' && s[1] == '_' {
        seq!['_'] + halve_pairs(s.skip(2))
    } else if s.len() == 0 {
        Seq::empty()
    } else {
        seq![s[0]] + halve_pairs(s.skip(1))
    }
}

/// The slug a title asks for: its characters mapped by `slug_char`, leading and
/// trailing `_` removed, `__` halved; `section` when nothing is left.
pub open spec fn slug_base(title: Seq<char>) -> Seq<char> {
    let b = halve_pairs(us_trim_end(us_trim_start(title.map_values(|c: char| slug_char(c)))));
    if b.len() == 0 { "section"@ } else { b }
}

/// The `n`-th choice for a base: the base itself, then `base_2`, `base_3`, ...
pub open spec fn candidate(base: Seq<char>, n: int) -> Seq<char> {
    if n <= 1 { base } else { base + "_"@ + decimal(n as nat) }
}

pub open spec fn is_first_free(taken: Seq<Seq<char>>, base: Seq<char>, n: int) -> bool {
    &&& n >= 1
    &&& !taken.contains(candidate(base, n))
    &&& forall|j: int| 1 <= j < n ==> taken.contains(#[trigger] candidate(base, j))
}

/// The slug given to `title` when `taken` are already used: the first free choice.
pub open spec fn slug_for(taken: Seq<Seq<char>>, title: Seq<char>) -> Seq<char> {
    candidate(slug_base(title), choose|n: int| is_first_free(taken, slug_base(title), n))
}

pub proof fn lemma_decimal_nonempty(n: nat)
    ensures
        decimal(n).len() >= 1,
        n >= 10 ==> decimal(n).len() >= 2,
    decreases n,
{
    if n >= 10 {
        lemma_decimal_nonempty(n / 10);
    }
}

pub proof fn lemma_decimal_injective(a: nat, b: nat)
    requires
        decimal(a) == decimal(b),
    ensures
        a == b,
    decreases a,
{
    lemma_decimal_nonempty(a);
    lemma_decimal_nonempty(b);
    if a >= 10 && b >= 10 {
        assert(decimal(a).drop_last() =~= decimal(a / 10));
        assert(decimal(b).drop_last() =~= decimal(b / 10));
        lemma_decimal_injective(a / 10, b / 10);
        assert(decimal(a).last() == digit_char((a % 10) as int));
        assert(decimal(b).last() == digit_char((b % 10) as int));
        assert(a % 10 == b % 10);
    } else if a < 10 && b < 10 {
        assert(decimal(a)[0] == digit_char(a as int));
        assert(decimal(b)[0] == digit_char(b as int));
    }
}

pub proof fn lemma_candidate_injective(base: Seq<char>, n: int, m: int)
    requires
        1 <= n,
        1 <= m,
        candidate(base, n) == candidate(base, m),
    ensures
        n == m,
{
    if n >= 2 && m >= 2 {
        reveal_strlit("_");
        lemma_decimal_nonempty(n as nat);
        let k: int = base.len() as int + 1;
        assert(candidate(base, n).skip(k) =~= decimal(n as nat));
        assert(candidate(base, m).skip(k) =~= decimal(m as nat));
        lemma_decimal_injective(n as nat, m as nat);
    } else if n >= 2 {
        lemma_decimal_nonempty(n as nat);
        assert(candidate(base, n).len() > candidate(base, m).len());
    } else if m >= 2 {
        lemma_decimal_nonempty(m as nat);
        assert(candidate(base, m).len() > candidate(base, n).len());
    }
}

/// When the first `n - 1` choices are all taken, there are at least `n - 1` taken ids.
pub proof fn lemma_taken_bound(taken: Seq<Seq<char>>, base: Seq<char>, n: int)
    requires
        n >= 1,
        forall|j: int| 1 <= j < n ==> taken.contains(#[trigger] candidate(base, j)),
    ensures
        n - 1 <= taken.len(),
{
    let f = |j: int| candidate(base, j);
    let r = vstd::set_lib::set_int_range(1, n);
    vstd::set_lib::lemma_int_range(1, n);
    assert(vstd::relations::injective_on(f, r)) by {
        assert forall|x: int, y: int| r.contains(x) && r.contains(y) && #[trigger] f(x) == #[trigger] f(y) implies x == y by {
            lemma_candidate_injective(base, x, y);
        }
    }
    let img = r.map(f);
    vstd::set_lib::lemma_map_size(r, img, f);
    assert(img.subset_of(taken.to_set())) by {
        assert forall|x: Seq<char>| img.contains(x) implies taken.to_set().contains(x) by {
            let j = choose|j: int| r.contains(j) && f(j) == x;
            assert(taken.contains(candidate(base, j)));
        }
    }
    taken.lemma_cardinality_of_set();
    vstd::set_lib::lemma_len_subset(img, taken.to_set());
}

/// A character an id may hold: a lower-case ASCII letter, a digit, or `_`.
pub open spec fn slug_ok_char(c: char) -> bool {
    ('a' <= c && c <= 'z') || ('0' <= c && c <= '9') || c == '_'
}

/// The shape of every id: non-empty, made of `[a-z0-9_]` only, and neither
/// starting nor ending with `_`.
pub open spec fn slug_shaped(s: Seq<char>) -> bool {
    &&& s.len() > 0
    &&& forall|i: int| 0 <= i < s.len() ==> slug_ok_char(#[trigger] s[i])
    &&& s[0] != '_'
    &&& s.last() != '_'
}

pub open spec fn all_ok(s: Seq<char>) -> bool {
    forall|i: int| 0 <= i < s.len() ==> slug_ok_char(#[trigger] s[i])
}

proof fn lemma_slug_char_ok(c: char)
    ensures
        slug_ok_char(slug_char(c)),
{
    if is_ascii_alnum(c) && 'A' <= c && c <= 'Z' {
        assert(('a' as u8) <= (c as u8) + 32 <= ('z' as u8));
    }
}

proof fn lemma_us_trim_start(s: Seq<char>)
    ensures
        exists|k: int| 0 <= k <= s.len() && us_trim_start(s) == s.skip(k),
        us_trim_start(s).len() > 0 ==> us_trim_start(s)[0] != '_',
    decreases s.len(),
{
    if s.len() > 0 && s[0] == '_' {
        lemma_us_trim_start(s.drop_first());
        let k = choose|k: int| 0 <= k <= s.drop_first().len() && us_trim_start(s.drop_first()) == s.drop_first().skip(k);
        assert(s.drop_first().skip(k) =~= s.skip(k + 1));
    } else {
        assert(s.skip(0) =~= s);
    }
}

proof fn lemma_us_trim_end(s: Seq<char>)
    ensures
        exists|k: int| 0 <= k <= s.len() && us_trim_end(s) == s.take(k),
        us_trim_end(s).len() > 0 ==> us_trim_end(s).last() != '_',
    decreases s.len(),
{
    if s.len() > 0 && s.last() == '_' {
        lemma_us_trim_end(s.drop_last());
        let k = choose|k: int| 0 <= k <= s.drop_last().len() && us_trim_end(s.drop_last()) == s.drop_last().take(k);
        assert(s.drop_last().take(k) =~= s.take(k));
    } else {
        assert(s.take(s.len() as int) =~= s);
    }
}

proof fn lemma_halve_pairs(s: Seq<char>)
    ensures
        all_ok(s) ==> all_ok(halve_pairs(s)),
        halve_pairs(s).len() > 0 <==> s.len() > 0,
        s.len() > 0 ==> halve_pairs(s)[0] == s[0],
        s.len() > 0 && s.last() != '_' ==> halve_pairs(s).last() == s.last(),
    decreases s.len(),
{
    if s.len() >= 2 && s[0] == '_' && s[1] == '_' {
        let t = s.skip(2);
        lemma_halve_pairs(t);
        if all_ok(s) {
            assert forall|i: int| 0 <= i < t.len() implies slug_ok_char(#[trigger] t[i]) by {
                assert(t[i] == s[i + 2]);
            }
            let r = seq!['_'] + halve_pairs(t);
            assert forall|i: int| 0 <= i < r.len() implies slug_ok_char(#[trigger] r[i]) by {
                if i > 0 {
                    assert(r[i] == halve_pairs(t)[i - 1]);
                }
            }
        }
        if s.last() != '_' {
            assert(t.len() > 0);
            assert(t.last() == s.last());
        }
    } else if s.len() > 0 {
        let t = s.skip(1);
        lemma_halve_pairs(t);
        let r = seq![s[0]] + halve_pairs(t);
        if all_ok(s) {
            assert forall|i: int| 0 <= i < t.len() implies slug_ok_char(#[trigger] t[i]) by {
                assert(t[i] == s[i + 1]);
            }
            assert forall|i: int| 0 <= i < r.len() implies slug_ok_char(#[trigger] r[i]) by {
                if i > 0 {
                    assert(r[i] == halve_pairs(t)[i - 1]);
                } else {
                    assert(slug_ok_char(s[0]));
                }
            }
        }
        if s.last() != '_' && t.len() > 0 {
            assert(t.last() == s.last());
        }
    }
}

/// Every base a title asks for is a well-shaped id.
pub proof fn lemma_slug_base_shaped(title: Seq<char>)
    ensures
        slug_shaped(slug_base(title)),
{
    let m = title.map_values(|c: char| slug_char(c));
    assert forall|i: int| 0 <= i < m.len() implies slug_ok_char(#[trigger] m[i]) by {
        lemma_slug_char_ok(title[i]);
    }
    let a = us_trim_start(m);
    lemma_us_trim_start(m);
    let ka = choose|k: int| 0 <= k <= m.len() && a == m.skip(k);
    assert forall|i: int| 0 <= i < a.len() implies slug_ok_char(#[trigger] a[i]) by {
        assert(a[i] == m[i + ka]);
    }
    let b = us_trim_end(a);
    lemma_us_trim_end(a);
    let kb = choose|k: int| 0 <= k <= a.len() && b == a.take(k);
    assert forall|i: int| 0 <= i < b.len() implies slug_ok_char(#[trigger] b[i]) by {
        assert(b[i] == a[i]);
    }
    if b.len() > 0 {
        assert(b[0] == a[0]);
    }
    lemma_halve_pairs(b);
    if halve_pairs(b).len() == 0 {
        reveal_strlit("section");
        assert(slug_shaped("section"@));
    }
}

proof fn lemma_decimal_digits(n: nat)
    ensures
        decimal(n).len() > 0,
        forall|i: int| 0 <= i < decimal(n).len() ==> '0' <= #[trigger] decimal(n)[i] <= '9',
    decreases n,
{
    if n >= 10 {
        lemma_decimal_digits(n / 10);
    }
}

/// Every id a set of taken ids gives a title is well shaped: non-empty, only
/// `[a-z0-9_]`, no leading or trailing `_`.
pub proof fn lemma_slug_shaped(taken: Seq<Seq<char>>, title: Seq<char>)
    ensures
        slug_shaped(slug_for(taken, title)),
{
    let base = slug_base(title);
    lemma_slug_base_shaped(title);
    let n = choose|n: int| is_first_free(taken, base, n);
    if n > 1 {
        reveal_strlit("_");
        lemma_decimal_digits(n as nat);
        let d = decimal(n as nat);
        let c = base + "_"@ + d;
        assert forall|i: int| 0 <= i < c.len() implies slug_ok_char(#[trigger] c[i]) by {
            if i < base.len() {
                assert(c[i] == base[i]);
            } else if i == base.len() {
                assert(c[i] == '_');
            } else {
                assert(c[i] == d[i - base.len() - 1]);
            }
        }
        assert(c[0] == base[0]);
        assert(c.last() == d.last());
    }
}

pub proof fn lemma_first_free(taken: Seq<Seq<char>>, base: Seq<char>, n: int)
    requires
        is_first_free(taken, base, n),
    ensures
        (choose|k: int| is_first_free(taken, base, k)) == n,
{
    let k = choose|k: int| is_first_free(taken, base, k);
    assert(is_first_free(taken, base, k));
    if k < n {
        assert(taken.contains(candidate(base, k)));
    } else if n < k {
        assert(taken.contains(candidate(base, n)));
    }
}

fn slug_char_exec(c: char) -> (r: char)
    ensures
        r == slug_char(c),
{
    if ('0' <= c && c <= '9') || ('a' <= c && c <= 'z') {
        c
    } else if 'A' <= c && c <= 'Z' {
        ((c as u8) + 32) as char
    } else {
        '_'
    }
}

fn slug_base_exec(title: &str) -> (r: Vec<char>)
    ensures
        r@ == slug_base(title@),
{
    let v = chars_of(title);
    let ghost mapped = title@.map_values(|c: char| slug_char(c));
    let mut m: Vec<char> = Vec::new();
    let mut i: usize = 0;
    while i < v.len()
        invariant
            i <= v@.len(),
            v@ == title@,
            mapped == title@.map_values(|c: char| slug_char(c)),
            m@ == mapped.take(i as int),
        decreases v@.len() - i,
    {
        m.push(slug_char_exec(v[i]));
        i = i + 1;
        assert(m@ =~= mapped.take(i as int));
    }
    assert(mapped.take(i as int) =~= mapped);
    // trim `_` at both ends
    let mut a: usize = 0;
    while a < m.len() && m[a] == '_'
        invariant
            a <= m@.len(),
            us_trim_start(m@) == us_trim_start(m@.skip(a as int)),
        decreases m@.len() - a,
    {
        assert(m@.skip(a as int).drop_first() =~= m@.skip(a + 1));
        a = a + 1;
    }
    let ghost t = m@.skip(a as int);
    assert(us_trim_start(m@) == t);
    let mut b: usize = m.len();
    while b > a && m[b - 1] == '_'
        invariant
            a <= b <= m@.len(),
            t == m@.skip(a as int),
            us_trim_end(t) == us_trim_end(m@.subrange(a as int, b as int)),
        decreases b,
    {
        assert(m@.subrange(a as int, b as int).drop_last() =~= m@.subrange(a as int, b - 1));
        b = b - 1;
    }
    proof {
        assert(t =~= m@.subrange(a as int, m@.len() as int));
    }
    let ghost u = m@.subrange(a as int, b as int);
    assert(us_trim_end(t) == u);
    // halve `__`
    let mut out: Vec<char> = Vec::new();
    let mut k: usize = a;
    while k < b
        invariant
            a <= k <= b,
            b <= m@.len(),
            u == m@.subrange(a as int, b as int),
            halve_pairs(u) == out@ + halve_pairs(m@.subrange(k as int, b as int)),
        decreases b - k,
    {
        let ghost rest = m@.subrange(k as int, b as int);
        if k + 1 < b && m[k] == '_' && m[k + 1] == '_' {
            out.push('_');
            assert(rest.skip(2) =~= m@.subrange(k + 2, b as int));
            k = k + 2;
        } else {
            out.push(m[k]);
            assert(rest.skip(1) =~= m@.subrange(k + 1, b as int));
            k = k + 1;
        }
    }
    proof {
        assert(m@.subrange(k as int, b as int) =~= Seq::<char>::empty());
    }
    if out.len() == 0 {
        chars_of("section")
    } else {
        out
    }
}

/// The ids handed out so far.
pub struct SlugSet(pub Vec<String>);

impl SlugSet {
    pub open spec fn taken(&self) -> Seq<Seq<char>> {
        self.0@.map_values(|s: String| s@)
    }

    pub fn new() -> (r: SlugSet)
        ensures
            r.taken() == Seq::<Seq<char>>::empty(),
    {
        let r = SlugSet(Vec::new());
        assert(r.taken() =~= Seq::<Seq<char>>::empty());
        r
    }

    fn contains(&self, s: &Vec<char>) -> (r: bool)
        ensures
            r == self.taken().contains(s@),
    {
        let mut i: usize = 0;
        while i < self.0.len()
            invariant
                i <= self.0@.len(),
                forall|j: int| 0 <= j < i ==> self.0@[j]@ != s@,
            decreases self.0@.len() - i,
        {
            let c = chars_of(self.0[i].as_str());
            if chars_eq(&c, s) {
                assert(self.taken()[i as int] == s@);
                return true;
            }
            i = i + 1;
        }
        proof {
            if self.taken().contains(s@) {
                let k = choose|k: int| 0 <= k < self.taken().len() && self.taken()[k] == s@;
                assert(self.0@[k]@ == s@);
            }
        }
        false
    }

    /// A fresh id for `title`: its slug, or the slug with `_2`, `_3`, ...
    /// appended, whichever is first unused. The id is then taken.
    pub fn make(&mut self, title: &str) -> (r: String)
        ensures
            r@ == slug_for(old(self).taken(), title@),
            !old(self).taken().contains(r@),
            final(self).taken() == old(self).taken().push(r@),
            slug_shaped(r@),
            old(self).taken().no_duplicates() ==> final(self).taken().no_duplicates(),
    {
        let ghost taken = self.taken();
        proof {
            lemma_slug_shaped(taken, title@);
        }
        let base = slug_base_exec(title);
        let mut id = base.clone();
        let mut n: u128 = 2;
        let count = self.0.len();
        assert(taken.len() == count);
        assert(id@ == candidate(base@, 1));
        while self.contains(&id)
            invariant
                2 <= n,
                self.taken() == taken,
                id@ == candidate(base@, n - 1),
                forall|j: int| 1 <= j < n - 1 ==> taken.contains(#[trigger] candidate(base@, j)),
                n - 2 <= taken.len(),
                taken.len() <= usize::MAX,
            decreases taken.len() + 2 - n,
        {
            proof {
                lemma_taken_bound(taken, base@, n as int);
            }
            let mut next = String::new();
            push_chars(&mut next, &base);
            push_str(&mut next, "_");
            push_decimal(&mut next, n);
            id = chars_of(next.as_str());
            n = n + 1;
        }
        proof {
            assert(is_first_free(taken, base@, n - 1));
            lemma_first_free(taken, base@, n - 1);
        }
        let r = string_of(&id);
        self.0.push(r.clone());
        assert(self.taken() =~= taken.push(r@));
        proof {
            if taken.no_duplicates() {
                let t2 = taken.push(r@);
                assert forall|i: int, j: int| 0 <= i < t2.len() && 0 <= j < t2.len() && i != j implies t2[i] != t2[j] by {
                    if i < taken.len() && j < taken.len() {
                        assert(t2[i] == taken[i] && t2[j] == taken[j]);
                    } else if i < taken.len() {
                        assert(t2[i] == taken[i]);
                    } else {
                        assert(t2[j] == taken[j]);
                    }
                }
            }
        }
        r
    }
}

// ---------------------------------------------------------------------------
// Title case.
// ---------------------------------------------------------------------------

/// The upper-case form of `c` (Unicode case mapping; may be several characters).
pub uninterp spec fn uppercase_of(c: char) -> Seq<char>;

/// `char::to_uppercase`, collected into a string; its result is given a name
/// that depends on `c` alone, and nothing more is claimed of it.
#[verifier::external_body]
fn upper(c: char) -> (r: String)
    ensures
        r@ == uppercase_of(c),
{
    c.to_uppercase().collect()
}

pub open spec fn is_word_sep(c: char) -> bool {
    c == '-' || c == '_' || c == ' '
}

pub open spec fn word_step(st: (Seq<Seq<char>>, Seq<char>), c: char) -> (Seq<Seq<char>>, Seq<char>) {
    if is_word_sep(c) {
        if st.1.len() > 0 { (st.0.push(st.1), Seq::empty()) } else { (st.0, Seq::empty()) }
    } else {
        (st.0, st.1.push(c))
    }
}

pub open spec fn word_state(s: Seq<char>) -> (Seq<Seq<char>>, Seq<char>) {
    s.fold_left(
        (Seq::<Seq<char>>::empty(), Seq::<char>::empty()),
        |st: (Seq<Seq<char>>, Seq<char>), c: char| word_step(st, c),
    )
}

/// The non-empty pieces of `s` between `-`, `_` and spaces.
pub open spec fn words(s: Seq<char>) -> Seq<Seq<char>> {
    let st = word_state(s);
    if st.1.len() > 0 { st.0.push(st.1) } else { st.0 }
}

/// A word with its first character upper-cased.
pub open spec fn capitalized(w: Seq<char>) -> Seq<char> {
    if w.len() > 0 { uppercase_of(w[0]) + w.drop_first() } else { Seq::empty() }
}

/// Words joined by single spaces.
pub open spec fn join_words(ws: Seq<Seq<char>>) -> Seq<char>
    decreases ws.len(),
{
    if ws.len() == 0 {
        Seq::empty()
    } else if ws.len() == 1 {
        ws[0]
    } else {
        join_words(ws.drop_last()) + seq![' '] + ws.last()
    }
}

/// The words of `s`, each capitalised, joined by spaces.
pub open spec fn titlecase_spec(s: Seq<char>) -> Seq<char> {
    join_words(words(s).map_values(|w: Seq<char>| capitalized(w)))
}

/// `my-doc_name` → `My Doc Name`.
pub fn titlecase(s: &str) -> (r: String)
    ensures
        r@ == titlecase_spec(s@),
{
    let v = chars_of(s);
    let mut done: Vec<Vec<char>> = Vec::new();
    let mut cur: Vec<char> = Vec::new();
    let mut i: usize = 0;
    while i < v.len()
        invariant
            i <= v@.len(),
            v@ == s@,
            word_state(v@.take(i as int)) == (done@.map_values(|w: Vec<char>| w@), cur@),
            forall|j: int| 0 <= j < done@.len() ==> (#[trigger] done@[j])@.len() > 0,
        decreases v@.len() - i,
    {
        proof {
            assert(v@.take(i + 1).drop_last() =~= v@.take(i as int));
        }
        let c = v[i];
        if c == '-' || c == '_' || c == ' ' {
            if cur.len() > 0 {
                let ghost before = done@;
                done.push(cur);
                proof {
                    assert(done@.map_values(|w: Vec<char>| w@) =~= before.map_values(
                        |w: Vec<char>| w@,
                    ).push(done@.last()@));
                }
            }
            cur = Vec::new();
        } else {
            cur.push(c);
        }
        i = i + 1;
    }
    proof {
        assert(v@.take(i as int) =~= v@);
    }
    if cur.len() > 0 {
        let ghost before = done@;
        done.push(cur);
        proof {
            assert(done@.map_values(|w: Vec<char>| w@) =~= before.map_values(|w: Vec<char>| w@).push(
                done@.last()@,
            ));
        }
    }
    let ghost ws = words(s@);
    assert(ws == done@.map_values(|w: Vec<char>| w@));
    assert forall|j: int| 0 <= j < ws.len() implies (#[trigger] ws[j]).len() > 0 by {
        assert(ws[j] == done@[j]@);
    }
    let mut wstrs: Vec<String> = Vec::new();
    let mut heads: Vec<String> = Vec::new();
    let mut k: usize = 0;
    while k < done.len()
        invariant
            k <= done@.len(),
            ws == done@.map_values(|w: Vec<char>| w@),
            forall|j: int| 0 <= j < ws.len() ==> (#[trigger] ws[j]).len() > 0,
            strings_view(wstrs@) == ws.take(k as int),
            heads@.len() == k,
            forall|j: int| 0 <= j < k ==> (#[trigger] heads@[j])@ == uppercase_of(ws[j][0]),
        decreases done@.len() - k,
    {
        let w = &done[k];
        assert(w@ == ws[k as int]);
        let h = upper(w[0]);
        let ws_str = string_of(w);
        let ghost before = wstrs@;
        wstrs.push(ws_str);
        heads.push(h);
        proof {
            assert(wstrs@ == before.push(ws_str));
            assert(strings_view(before.push(ws_str)) =~= strings_view(before).push(ws_str@));
            assert(ws.take(k + 1) =~= ws.take(k as int).push(ws[k as int]));
        }
        k = k + 1;
    }
    assert(ws.take(k as int) =~= ws);
    let r = join_capitalized(&wstrs, &heads);
    assert(capitalize_all(ws, strings_view(heads@)) =~= ws.map_values(|w: Seq<char>| capitalized(w)));
    r
}

/// A word with its first character replaced by `head`.
pub open spec fn capitalize_with(w: Seq<char>, head: Seq<char>) -> Seq<char> {
    if w.len() > 0 { head + w.drop_first() } else { Seq::empty() }
}

pub open spec fn capitalize_all(ws: Seq<Seq<char>>, heads: Seq<Seq<char>>) -> Seq<Seq<char>> {
    Seq::new(ws.len(), |i: int| capitalize_with(ws[i], heads[i]))
}

/// The words joined by single spaces, each with its first character replaced by
/// the head of the same position (in `titlecase`, that character upper-cased).
pub fn join_capitalized(ws: &Vec<String>, heads: &Vec<String>) -> (r: String)
    requires
        ws@.len() == heads@.len(),
    ensures
        r@ == join_words(capitalize_all(strings_view(ws@), strings_view(heads@))),
{
    let ghost caps = capitalize_all(strings_view(ws@), strings_view(heads@));
    let mut out = String::new();
    let mut k: usize = 0;
    while k < ws.len()
        invariant
            k <= ws@.len(),
            ws@.len() == heads@.len(),
            caps == capitalize_all(strings_view(ws@), strings_view(heads@)),
            out@ == join_words(caps.take(k as int)),
        decreases ws@.len() - k,
    {
        proof {
            assert(caps.take(k + 1).drop_last() =~= caps.take(k as int));
        }
        if k > 0 {
            push_char(&mut out, ' ');
        }
        let w = chars_of(ws[k].as_str());
        let ghost o0 = out@;
        if w.len() > 0 {
            push_str(&mut out, heads[k].as_str());
            let ghost o1 = out@;
            let mut j: usize = 1;
            while j < w.len()
                invariant
                    1 <= j <= w@.len(),
                    out@ == o1 + w@.subrange(1, j as int),
                decreases w@.len() - j,
            {
                push_char(&mut out, w[j]);
                j = j + 1;
                assert(out@ =~= o1 + w@.subrange(1, j as int));
            }
            assert(w@.subrange(1, j as int) =~= w@.drop_first());
        }
        proof {
            assert(out@ =~= o0 + caps[k as int]);
            if k > 0 {
                assert(out@ =~= join_words(caps.take(k as int)) + seq![' '] + caps[k as int]);
            } else {
                assert(out@ =~= caps[0]);
            }
        }
        k = k + 1;
    }
    assert(caps.take(k as int) =~= caps);
    out
}

// ---------------------------------------------------------------------------
// Sections → genome.
// ---------------------------------------------------------------------------

/// Bit pattern of the double `1.0`, the confidence of a scanned summary.
pub const ONE_BITS: u64 = 0x3ff0_0000_0000_0000u64;

pub open spec fn jstr(s: Seq<char>) -> JVal {
    JVal::Str(s)
}

/// One section → one component node: the scanned summary is stamped `by=scan`
/// with full confidence; `why` is left for enrichment.
pub open spec fn component_val(s: SectionV, layer: Seq<char>) -> JVal {
    let base = seq![
        ("label"@, jstr(s.title)),
        ("layer"@, jstr(layer)),
        ("status"@, jstr("draft"@)),
    ];
    match s.summary {
        Some(sum) => JVal::Object(
            base + seq![
                ("summary"@, jstr(sum)),
                (
                    "provenance"@,
                    JVal::Object(
                        seq![
                            (
                                "summary"@,
                                JVal::Object(
                                    seq![("by"@, jstr("scan"@)), ("confidence"@, JVal::Float(ONE_BITS))],
                                ),
                            ),
                        ],
                    ),
                ),
            ],
        ),
        None => JVal::Object(base),
    }
}

/// The single layer of a document without sub-sections.
pub open spec fn outline_layer() -> JVal {
    JVal::Object(
        seq![
            ("order"@, JVal::Int(1)),
            ("label"@, jstr("Outline"@)),
            ("role"@, jstr("The document's sections."@)),
        ],
    )
}

/// A second-level heading as a layer.
pub open spec fn layer_val(order: int, s: SectionV) -> JVal {
    let base = seq![("order"@, JVal::Int(order)), ("label"@, jstr(s.title))];
    match s.summary {
        Some(r) => JVal::Object(base.push(("role"@, jstr(r)))),
        None => JVal::Object(base),
    }
}

pub struct GenomeState {
    pub taken: Seq<Seq<char>>,
    pub layers: Seq<(Seq<char>, JVal)>,
    pub comps: Seq<(Seq<char>, JVal)>,
    pub order: int,
    pub cur: Seq<char>,
}

/// One section placed: with sub-sections present, a second-level heading opens
/// a layer; every other section becomes a component of the current layer.
pub open spec fn place(has_h3: bool, st: GenomeState, s: SectionV) -> GenomeState {
    let id = slug_for(st.taken, s.title);
    if s.level == 2 && has_h3 {
        GenomeState {
            taken: st.taken.push(id),
            layers: minsert(st.layers, id, layer_val(st.order + 1, s)),
            order: st.order + 1,
            cur: id,
            ..st
        }
    } else {
        GenomeState {
            taken: st.taken.push(id),
            comps: minsert(st.comps, id, component_val(s, st.cur)),
            ..st
        }
    }
}

pub open spec fn place_all(has_h3: bool, init: GenomeState, secs: Seq<SectionV>) -> GenomeState {
    secs.fold_left(init, |st: GenomeState, s: SectionV| place(has_h3, st, s))
}

/// Position of the first top-level heading, or -1.
pub open spec fn h1_index(secs: Seq<SectionV>) -> int
    decreases secs.len(),
{
    if secs.len() == 0 {
        -1
    } else if secs[0].level == 1 {
        0
    } else {
        let r = h1_index(secs.drop_first());
        if r < 0 { -1 } else { r + 1 }
    }
}

pub open spec fn has_sub_sections(secs: Seq<SectionV>) -> bool {
    exists|j: int| 0 <= j < secs.len() && (#[trigger] secs[j]).level >= 3
}

/// The genome of a document named `stem` with these sections: the first
/// top-level heading names the project (else the title-cased stem) and its
/// paragraph summarises it; second-level headings are layers when there are
/// sub-sections (else everything sits in one `outline` layer); every other
/// heading is a component.
pub open spec fn genome_of(stem: Seq<char>, secs: Seq<SectionV>) -> JVal {
    let i = h1_index(secs);
    let name = if i >= 0 { secs[i].title } else { titlecase_spec(stem) };
    let summary = if i >= 0 {
        match secs[i].summary {
            Some(x) => x,
            None => Seq::empty(),
        }
    } else {
        Seq::empty()
    };
    let rest = if i >= 0 { secs.remove(i) } else { secs };
    let h3 = has_sub_sections(rest);
    let init = if h3 {
        GenomeState { taken: Seq::empty(), layers: Seq::empty(), comps: Seq::empty(), order: 0, cur: Seq::empty() }
    } else {
        GenomeState {
            taken: Seq::empty(),
            layers: seq![("outline"@, outline_layer())],
            comps: Seq::empty(),
            order: 0,
            cur: "outline"@,
        }
    };
    let fin = place_all(h3, init, rest);
    JVal::Object(
        seq![
            (
                "project"@,
                JVal::Object(
                    seq![
                        ("name"@, jstr(name)),
                        ("kind"@, jstr("document"@)),
                        ("domain"@, jstr("document"@)),
                        ("summary"@, jstr(if summary.len() == 0 { "—"@ } else { summary })),
                        ("source"@, jstr("document"@)),
                        ("schema"@, jstr("nexovia/2"@)),
                        ("status"@, jstr("draft"@)),
                    ],
                ),
            ),
            (
                "architecture"@,
                JVal::Object(
                    seq![
                        ("pattern"@, jstr("outline"@)),
                        ("description"@, jstr("Sections of the document, as an outline."@)),
                        ("layers"@, JVal::Object(fin.layers)),
                    ],
                ),
            ),
            ("components"@, JVal::Object(fin.comps)),
        ],
    )
}

fn str_json(s: &str) -> (r: Json)
    ensures
        r@ == jstr(s@),
{
    Json::Str(lit(s))
}

/// One section → one component node.
fn component(s: &Section, layer: &str) -> (r: Json)
    ensures
        r@ == component_val(s@, layer@),
{
    let mut c: Vec<(String, Json)> = Vec::new();
    c.push((lit("label"), Json::Str(s.title.clone())));
    c.push((lit("layer"), str_json(layer)));
    c.push((lit("status"), str_json("draft")));
    match &s.summary {
        Some(sum) => {
            let mut by: Vec<(String, Json)> = Vec::new();
            by.push((lit("by"), str_json("scan")));
            by.push((lit("confidence"), Json::Float(ONE_BITS)));
            proof {
                lemma_object_view(by);
                assert(members_view(by@) =~= seq![("by"@, jstr("scan"@)), ("confidence"@, JVal::Float(ONE_BITS))]);
            }
            let by = Json::Object(by);
            let mut prov: Vec<(String, Json)> = Vec::new();
            prov.push((lit("summary"), by));
            proof {
                lemma_object_view(prov);
                assert(members_view(prov@) =~= seq![("summary"@, by@)]);
            }
            let prov = Json::Object(prov);
            c.push((lit("summary"), Json::Str(sum.clone())));
            c.push((lit("provenance"), prov));
            proof {
                lemma_object_view(c);
                match component_val(s@, layer@) {
                    JVal::Object(spec_m) => {
                        assert(members_view(c@) =~= spec_m);
                    },
                    _ => {},
                }
            }
            Json::Object(c)
        },
        None => {
            proof {
                lemma_object_view(c);
                match component_val(s@, layer@) {
                    JVal::Object(spec_m) => {
                        assert(members_view(c@) =~= spec_m);
                    },
                    _ => {},
                }
            }
            Json::Object(c)
        },
    }
}

fn layer_json(order: usize, s: &Section) -> (r: Json)
    ensures
        r@ == layer_val(order as int, s@),
{
    let mut l: Vec<(String, Json)> = Vec::new();
    l.push((lit("order"), Json::Int(order as i128)));
    l.push((lit("label"), Json::Str(s.title.clone())));
    match &s.summary {
        Some(r) => {
            l.push((lit("role"), Json::Str(r.clone())));
        },
        None => {},
    }
    proof {
        lemma_object_view(l);
        match layer_val(order as int, s@) {
            JVal::Object(spec_m) => {
                assert(members_view(l@) =~= spec_m);
            },
            _ => {},
        }
    }
    Json::Object(l)
}

/// Map sections to a genome (see `genome_of`).
pub fn build_genome(stem: &str, secs: Vec<Section>) -> (r: Json)
    ensures
        r@ == genome_of(stem@, sections_view(secs@)),
{
    let ghost sv = sections_view(secs@);
    let mut secs = secs;
    // the first top-level heading names the project
    let mut h1: usize = 0;
    while h1 < secs.len() && secs[h1].level != 1
        invariant
            h1 <= secs@.len(),
            sv == sections_view(secs@),
            forall|j: int| 0 <= j < h1 ==> sv[j].level != 1,
        decreases secs@.len() - h1,
    {
        h1 = h1 + 1;
    }
    proof {
        lemma_h1_index(sv, h1 as int);
    }
    let (name, summary) = if h1 < secs.len() {
        let first = secs.remove(h1);
        let summary = match first.summary {
            Some(x) => x,
            None => String::new(),
        };
        (first.title, summary)
    } else {
        (titlecase(stem), String::new())
    };
    let ghost rest = sections_view(secs@);
    proof {
        if (h1 as int) < sv.len() {
            assert(rest =~= sv.remove(h1 as int));
        } else {
            assert(rest =~= sv);
        }
    }
    // sub-sections present?
    let mut has_h3 = false;
    let mut j: usize = 0;
    while j < secs.len()
        invariant
            j <= secs@.len(),
            rest == sections_view(secs@),
            has_h3 <==> exists|k: int| 0 <= k < j && (#[trigger] rest[k]).level >= 3,
        decreases secs@.len() - j,
    {
        if secs[j].level >= 3 {
            assert(rest[j as int].level >= 3);
            has_h3 = true;
        }
        j = j + 1;
    }
    assert(has_h3 == has_sub_sections(rest));
    let mut slugs = SlugSet::new();
    let mut layers: Vec<(String, Json)> = Vec::new();
    let mut comps: Vec<(String, Json)> = Vec::new();
    let mut order: usize = 0;
    let mut cur_layer = String::new();
    if !has_h3 {
        let mut ol: Vec<(String, Json)> = Vec::new();
        ol.push((lit("order"), Json::Int(1)));
        ol.push((lit("label"), str_json("Outline")));
        ol.push((lit("role"), str_json("The document's sections.")));
        proof {
            lemma_object_view(ol);
            assert(members_view(ol@) =~= seq![
                ("order"@, JVal::Int(1)),
                ("label"@, jstr("Outline"@)),
                ("role"@, jstr("The document's sections."@)),
            ]);
        }
        let ol = Json::Object(ol);
        layers.push((lit("outline"), ol));
        cur_layer = lit("outline");
        assert(members_view(layers@) =~= seq![("outline"@, outline_layer())]);
    } else {
        assert(members_view(layers@) =~= Seq::<(Seq<char>, JVal)>::empty());
    }
    assert(members_view(comps@) =~= Seq::<(Seq<char>, JVal)>::empty());
    let ghost init = GenomeState {
        taken: slugs.taken(),
        layers: members_view(layers@),
        comps: members_view(comps@),
        order: order as int,
        cur: cur_layer@,
    };
    let mut i: usize = 0;
    while i < secs.len()
        invariant
            i <= secs@.len(),
            rest == sections_view(secs@),
            order <= i,
            place_all(has_h3, init, rest.take(i as int)) == (GenomeState {
                taken: slugs.taken(),
                layers: members_view(layers@),
                comps: members_view(comps@),
                order: order as int,
                cur: cur_layer@,
            }),
        decreases secs@.len() - i,
    {
        proof {
            assert(rest.take(i + 1).drop_last() =~= rest.take(i as int));
        }
        let s = &secs[i];
        let id = slugs.make(s.title.as_str());
        if s.level == 2 && has_h3 {
            order = order + 1;
            let layer = layer_json(order, s);
            obj_insert(&mut layers, id.clone(), layer);
            cur_layer = id;
        } else {
            let c = component(s, cur_layer.as_str());
            obj_insert(&mut comps, id, c);
        }
        i = i + 1;
    }
    assert(rest.take(i as int) =~= rest);
    // assemble
    let mut project: Vec<(String, Json)> = Vec::new();
    project.push((lit("name"), Json::Str(name)));
    project.push((lit("kind"), str_json("document")));
    project.push((lit("domain"), str_json("document")));
    let summary_text = if summary.as_str().is_empty() { lit("—") } else { summary };
    project.push((lit("summary"), Json::Str(summary_text)));
    project.push((lit("source"), str_json("document")));
    project.push((lit("schema"), str_json("nexovia/2")));
    project.push((lit("status"), str_json("draft")));
    let mut arch: Vec<(String, Json)> = Vec::new();
    arch.push((lit("pattern"), str_json("outline")));
    arch.push((lit("description"), str_json("Sections of the document, as an outline.")));
    arch.push((lit("layers"), Json::Object(layers)));
    let mut out: Vec<(String, Json)> = Vec::new();
    out.push((lit("project"), Json::Object(project)));
    out.push((lit("architecture"), Json::Object(arch)));
    out.push((lit("components"), Json::Object(comps)));
    proof {
        lemma_object_view(project);
        lemma_object_view(arch);
        lemma_object_view(layers);
        lemma_object_view(comps);
        lemma_object_view(out);
        match genome_of(stem@, sv) {
            JVal::Object(spec_m) => {
                let spec_p = spec_m[0].1;
                let spec_a = spec_m[1].1;
                match (spec_p, spec_a) {
                    (JVal::Object(pm), JVal::Object(am)) => {
                        assert(members_view(project@) =~= pm);
                        assert(members_view(arch@) =~= am);
                    },
                    _ => {},
                }
                assert(members_view(out@) =~= spec_m);
            },
            _ => {},
        }
    }
    Json::Object(out)
}

proof fn lemma_h1_index(secs: Seq<SectionV>, k: int)
    requires
        0 <= k <= secs.len(),
        forall|j: int| 0 <= j < k ==> secs[j].level != 1,
        k == secs.len() || secs[k].level == 1,
    ensures
        h1_index(secs) == if k < secs.len() { k } else { -1 },
    decreases secs.len(),
{
    if secs.len() > 0 && k > 0 {
        lemma_h1_index(secs.drop_first(), k - 1);
    }
}

/// Ingest a markdown document named `stem` into a self-contained genome value.
pub fn from_doc(stem: &str, text: &str) -> (r: Json)
    ensures
        r@ == genome_of(stem@, sections_of(markdown_events(text@))),
{
    let events = parse_markdown(text);
    let secs = sections_from_events(&events);
    build_genome(stem, secs)
}


// ---------------------------------------------------------------------------
// Honest by construction.
// ---------------------------------------------------------------------------

/// Every member of `ms` is an honest component (see `validate::honest`).
pub open spec fn all_honest(ms: Seq<(Seq<char>, JVal)>) -> bool {
    forall|i: int| 0 <= i < ms.len() ==> honest(#[trigger] ms[i].1)
}

proof fn lemma_component_honest(s: SectionV, layer: Seq<char>)
    ensures
        honest(component_val(s, layer)),
{
    reveal_strlit("label");
    reveal_strlit("layer");
    reveal_strlit("status");
    reveal_strlit("summary");
    reveal_strlit("provenance");
    reveal_strlit("why");
    let m = component_val(s, layer).own_members();
    lemma_key_index(m, "provenance"@);
    lemma_key_index(m, "summary"@);
    lemma_key_index(m, "why"@);
    match s.summary {
        Some(sum) => {
            assert(m[4].0 == "provenance"@);
            assert(is_first_key(m, "provenance"@, 4));
            let p = seq![
                ("summary"@, JVal::Object(seq![("by"@, jstr("scan"@)), ("confidence"@, JVal::Float(ONE_BITS))])),
            ];
            assert(m[4].1 == JVal::Object(p));
            assert(p[0].0 == "summary"@);
            assert forall|i: int| 0 <= i < m.len() implies m[i].0 != "why"@ by {
                if i == 0 {} else if i == 1 {} else if i == 2 {} else if i == 3 {} else {}
                assert(m[i].0.len() != "why"@.len());
            }
        },
        None => {
            assert forall|i: int| 0 <= i < m.len() implies m[i].0 != "why"@ && m[i].0 != "summary"@
                && m[i].0 != "provenance"@ by {
                if i == 0 {} else if i == 1 {} else {}
                assert(m[i].0.len() != "why"@.len());
                assert(m[i].0.len() != "summary"@.len());
                assert(m[i].0.len() != "provenance"@.len());
            }
        },
    }
}

proof fn lemma_minsert_honest(m: Seq<(Seq<char>, JVal)>, k: Seq<char>, v: JVal)
    requires
        all_honest(m),
        honest(v),
    ensures
        all_honest(minsert(m, k, v)),
{
    lemma_key_index(m, k);
    let r = minsert(m, k, v);
    assert forall|i: int| 0 <= i < r.len() implies honest(#[trigger] r[i].1) by {
        if key_index(m, k) >= 0 && i != key_index(m, k) {
            assert(r[i] == m[i]);
        } else if key_index(m, k) < 0 && i < m.len() {
            assert(r[i] == m[i]);
        }
    }
}

proof fn lemma_place_all_honest(h3: bool, init: GenomeState, secs: Seq<SectionV>)
    requires
        all_honest(init.comps),
    ensures
        all_honest(place_all(h3, init, secs).comps),
    decreases secs.len(),
{
    if secs.len() > 0 {
        lemma_place_all_honest(h3, init, secs.drop_last());
        let st = place_all(h3, init, secs.drop_last());
        let s = secs.last();
        assert(place_all(h3, init, secs) == place(h3, st, s));
        lemma_component_honest(s, st.cur);
        lemma_minsert_honest(st.comps, slug_for(st.taken, s.title), component_val(s, st.cur));
    }
}

/// Honest by construction: every component a document is ingested into carries
/// a provenance entry for its scanned summary, so the genome has no honesty
/// finding, neither error nor warning.
pub proof fn lemma_ingested_honest(stem: Seq<char>, secs: Seq<SectionV>)
    ensures
        honesty_findings(genome_of(stem, secs)).len() == 0,
{
    reveal_strlit("project");
    reveal_strlit("architecture");
    reveal_strlit("components");
    let g = genome_of(stem, secs);
    let top = g.own_members();
    let i = h1_index(secs);
    let rest = if i >= 0 { secs.remove(i) } else { secs };
    let h3 = has_sub_sections(rest);
    let init = if h3 {
        GenomeState { taken: Seq::empty(), layers: Seq::empty(), comps: Seq::empty(), order: 0, cur: Seq::empty() }
    } else {
        GenomeState {
            taken: Seq::empty(),
            layers: seq![("outline"@, outline_layer())],
            comps: Seq::empty(),
            order: 0,
            cur: "outline"@,
        }
    };
    lemma_place_all_honest(h3, init, rest);
    let fin = place_all(h3, init, rest);
    lemma_key_index(top, "components"@);
    assert(top[0].0.len() != "components"@.len() && top[1].0.len() != "components"@.len());
    assert(top[2].0 == "components"@);
    assert(is_first_key(top, "components"@, 2));
    assert(g.members("components"@) == fin.comps);
    lemma_honesty_clean(g);
}

// ---------------------------------------------------------------------------
// Every section that is no layer becomes a component.
// ---------------------------------------------------------------------------

proof fn lemma_exists_first_free(taken: Seq<Seq<char>>, base: Seq<char>, n: int)
    requires
        n >= 1,
        !taken.contains(candidate(base, n)),
    ensures
        exists|m: int| is_first_free(taken, base, m),
    decreases n,
{
    if forall|j: int| 1 <= j < n ==> taken.contains(#[trigger] candidate(base, j)) {
        assert(is_first_free(taken, base, n));
    } else {
        let j = choose|j: int| 1 <= j < n && !taken.contains(#[trigger] candidate(base, j));
        lemma_exists_first_free(taken, base, j);
    }
}

/// The id given to a title is never one already taken.
pub proof fn lemma_slug_fresh(taken: Seq<Seq<char>>, title: Seq<char>)
    ensures
        !taken.contains(slug_for(taken, title)),
{
    let base = slug_base(title);
    let n: int = taken.len() as int + 2;
    if forall|j: int| 1 <= j < n ==> taken.contains(#[trigger] candidate(base, j)) {
        lemma_taken_bound(taken, base, n);
    } else {
        let j = choose|j: int| 1 <= j < n && !taken.contains(#[trigger] candidate(base, j));
        lemma_exists_first_free(taken, base, j);
    }
    let m = choose|m: int| is_first_free(taken, base, m);
    assert(is_first_free(taken, base, m));
}

/// The component a section becomes carries its title as label and its first
/// paragraph (if any) as summary.
proof fn lemma_component_fields(s: SectionV, layer: Seq<char>)
    ensures
        component_val(s, layer).get_str("label"@) == Some(s.title),
        component_val(s, layer).get_str("summary"@) == s.summary,
{
    reveal_strlit("label");
    reveal_strlit("layer");
    reveal_strlit("status");
    reveal_strlit("summary");
    let m = component_val(s, layer).own_members();
    lemma_key_index(m, "label"@);
    lemma_key_index(m, "summary"@);
    assert(is_first_key(m, "label"@, 0));
    assert(m[1].0.len() != "summary"@.len() && m[0].0.len() != "summary"@.len() && m[2].0.len() != "summary"@.len());
    match s.summary {
        Some(x) => {
            assert(is_first_key(m, "summary"@, 3));
        },
        None => {
            assert forall|i: int| 0 <= i < m.len() implies m[i].0 != "summary"@ by {
                if i == 0 {} else if i == 1 {} else {}
            }
        },
    }
}

/// A section is turned into a component carrying its label and summary.
pub open spec fn carries(comps: Seq<(Seq<char>, JVal)>, s: SectionV) -> bool {
    exists|k: int|
        0 <= k < comps.len() && (#[trigger] comps[k]).1.get_str("label"@) == Some(s.title) && comps[k].1.get_str(
            "summary"@,
        ) == s.summary
}

pub open spec fn keys_taken(comps: Seq<(Seq<char>, JVal)>, taken: Seq<Seq<char>>) -> bool {
    forall|k: int| 0 <= k < comps.len() ==> taken.contains(#[trigger] comps[k].0)
}

proof fn lemma_place_all_components(h3: bool, init: GenomeState, secs: Seq<SectionV>)
    requires
        keys_taken(init.comps, init.taken),
    ensures
        keys_taken(place_all(h3, init, secs).comps, place_all(h3, init, secs).taken),
        forall|j: int|
            0 <= j < secs.len() && !((#[trigger] secs[j]).level == 2 && h3) ==> carries(
                place_all(h3, init, secs).comps,
                secs[j],
            ),
        forall|s: SectionV| carries(init.comps, s) ==> carries(place_all(h3, init, secs).comps, s),
    decreases secs.len(),
{
    if secs.len() > 0 {
        let pre = secs.drop_last();
        lemma_place_all_components(h3, init, pre);
        let st = place_all(h3, init, pre);
        let s = secs.last();
        assert(place_all(h3, init, secs) == place(h3, st, s));
        let id = slug_for(st.taken, s.title);
        lemma_slug_fresh(st.taken, s.title);
        let fin = place(h3, st, s);
        assert forall|k: int| 0 <= k < fin.comps.len() implies fin.taken.contains(#[trigger] fin.comps[k].0) by {
            if k < st.comps.len() {
                assert(st.taken.contains(st.comps[k].0));
                let i = choose|i: int| 0 <= i < st.taken.len() && st.taken[i] == st.comps[k].0;
                assert(fin.taken[i] == st.taken[i]);
            } else {
                assert(fin.taken[st.taken.len() as int] == id);
            }
        }
        if !(s.level == 2 && h3) {
            let v = component_val(s, st.cur);
            lemma_key_index(st.comps, id);
            if has_key(st.comps, id) {
                let k = choose|k: int| 0 <= k < st.comps.len() && st.comps[k].0 == id;
                assert(st.taken.contains(st.comps[k].0));
            }
            assert(fin.comps == st.comps.push((id, v)));
            lemma_component_fields(s, st.cur);
            assert(fin.comps[st.comps.len() as int] == (id, v));
            assert(carries(fin.comps, s));
            assert forall|t: SectionV| carries(st.comps, t) implies carries(fin.comps, t) by {
                let k = choose|k: int|
                    0 <= k < st.comps.len() && (#[trigger] st.comps[k]).1.get_str("label"@) == Some(t.title)
                        && st.comps[k].1.get_str("summary"@) == t.summary;
                assert(fin.comps[k] == st.comps[k]);
            }
        }
        assert forall|j: int| 0 <= j < secs.len() && !((#[trigger] secs[j]).level == 2 && h3) implies carries(
            fin.comps,
            secs[j],
        ) by {
            if j < pre.len() {
                assert(pre[j] == secs[j]);
            }
        }
    }
}

proof fn lemma_h1_index_props(secs: Seq<SectionV>)
    ensures
        h1_index(secs) < secs.len(),
        h1_index(secs) >= 0 ==> secs[h1_index(secs)].level == 1,
        h1_index(secs) >= 0 ==> forall|k: int| 0 <= k < h1_index(secs) ==> secs[k].level != 1,
        h1_index(secs) < 0 ==> h1_index(secs) == -1 && forall|k: int| 0 <= k < secs.len() ==> secs[k].level != 1,
    decreases secs.len(),
{
    if secs.len() > 0 && secs[0].level != 1 {
        let t = secs.drop_first();
        lemma_h1_index_props(t);
        assert forall|k: int| 1 <= k < secs.len() implies secs[k] == t[k - 1] by {}
    }
}

/// Every section of a document that is neither the project's heading (the first
/// top-level one) nor a layer (a second-level heading in a document with
/// sub-sections) becomes a component labelled with its title that carries its
/// first paragraph, if it has one, as summary, whether or not the document
/// has sub-sections.
pub proof fn lemma_sections_kept(stem: Seq<char>, secs: Seq<SectionV>, j: int)
    requires
        0 <= j < secs.len(),
        !(secs[j].level == 1 && forall|k: int| 0 <= k < j ==> secs[k].level != 1),
        !(secs[j].level == 2 && exists|k: int| 0 <= k < secs.len() && secs[k].level >= 3),
    ensures
        exists|k: int|
            0 <= k < genome_of(stem, secs).members("components"@).len() && (#[trigger] genome_of(
                stem,
                secs,
            ).members("components"@)[k]).1.get_str("label"@) == Some(secs[j].title) && genome_of(stem, secs).members(
                "components"@,
            )[k].1.get_str("summary"@) == secs[j].summary,
{
    reveal_strlit("project");
    reveal_strlit("architecture");
    reveal_strlit("components");
    let g = genome_of(stem, secs);
    let top = g.own_members();
    let i = h1_index(secs);
    lemma_h1_index_props(secs);
    let rest = if i >= 0 { secs.remove(i) } else { secs };
    let h3 = has_sub_sections(rest);
    let init = if h3 {
        GenomeState { taken: Seq::empty(), layers: Seq::empty(), comps: Seq::empty(), order: 0, cur: Seq::empty() }
    } else {
        GenomeState {
            taken: Seq::empty(),
            layers: seq![("outline"@, outline_layer())],
            comps: Seq::empty(),
            order: 0,
            cur: "outline"@,
        }
    };
    lemma_place_all_components(h3, init, rest);
    let fin = place_all(h3, init, rest);
    lemma_key_index(top, "components"@);
    assert(top[0].0.len() != "components"@.len() && top[1].0.len() != "components"@.len());
    assert(top[2].0 == "components"@);
    assert(is_first_key(top, "components"@, 2));
    assert(g.members("components"@) == fin.comps);
    // where section `j` stands among the sections after the project's heading
    let jr = if i >= 0 && j > i { j - 1 } else { j };
    if i >= 0 {
        assert(j != i);
        assert(rest[jr] == secs[j]);
    }
    assert(0 <= jr < rest.len());
    // sub-sections of the rest are those of the whole document
    if h3 {
        let k = choose|k: int| 0 <= k < rest.len() && (#[trigger] rest[k]).level >= 3;
        if i >= 0 && k >= i {
            assert(rest[k] == secs[k + 1]);
        } else {
            assert(rest[k] == secs[k]);
        }
    }
    if exists|k: int| 0 <= k < secs.len() && secs[k].level >= 3 {
        let k = choose|k: int| 0 <= k < secs.len() && secs[k].level >= 3;
        if i >= 0 {
            assert(k != i);
            if k > i {
                assert(rest[k - 1] == secs[k]);
            } else {
                assert(rest[k] == secs[k]);
            }
        } else {
            assert(rest[k] == secs[k]);
        }
    }
    assert(!(rest[jr].level == 2 && h3));
    assert(carries(fin.comps, rest[jr]));
}

} // verus!
