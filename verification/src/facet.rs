//! The control-plane write path: `ask` and `approve` compose the question or
//! sign-off entry that is appended to the genome's facet file. Appending text
//! keeps the human-authored headers and comments of that file intact.
use vstd::prelude::*;
use crate::calendar::{civil_from_days, valid_date, day_number, lemma_day_number_injective};
use crate::json::{JVal, Json, has_key, members_view, items_view, find_key, lemma_key_index, lit};
use crate::resolve::include_table;
use crate::validate::{comp_ids, target_resolves};
use crate::text::{is_ws, trim_start, trim_end, digit_char, chars_of, chars_eq, push_char, push_chars, push_str, push_decimal, push_padded, decimal, zero_pad, trim, trim_chars, str_eq};

verus! {

/// Why an entry cannot be written.
#[derive(Debug)]
pub enum FacetError {
    /// The target is neither `*` nor a component of the resolved genome.
    NotAComponent(String),
    /// The anchor names no `[include].<facet>` file to append to.
    NoFacetFile(String),
}

/// Text to append to a facet file (a path relative to the genome root).
pub struct Appended {
    pub file: String,
    pub block: String,
}

// ---------------------------------------------------------------------------
// TOML basic-string escaping.
// ---------------------------------------------------------------------------

pub open spec fn esc_char(c: char) -> Seq<char> {
    if c == '\\' {
        seq!['\\', '\\']
    } else if c == '"' {
        seq!['\\', '"']
    } else if c == '\n' || c == '\r' || c == '\t' {
        seq![' ']
    } else {
        seq![c]
    }
}

/// `s` as the body of a TOML basic string on one line: backslashes and quotes
/// escaped, newlines, carriage returns and tabs turned into spaces.
pub open spec fn esc_spec(s: Seq<char>) -> Seq<char>
    decreases s.len(),
{
    if s.len() == 0 {
        Seq::empty()
    } else {
        esc_spec(s.drop_last()) + esc_char(s.last())
    }
}

/// No line break or tab survives escaping: an escaped value stays on its line.
pub proof fn lemma_esc_one_line(s: Seq<char>)
    ensures
        !esc_spec(s).contains('\n'),
        !esc_spec(s).contains('\r'),
        !esc_spec(s).contains('\t'),
    decreases s.len(),
{
    if s.len() > 0 {
        lemma_esc_one_line(s.drop_last());
        let a = esc_spec(s.drop_last());
        let b = esc_char(s.last());
        assert forall|c: char| (c == '\n' || c == '\r' || c == '\t') implies !(a + b).contains(c) by {
            if (a + b).contains(c) {
                let i = choose|i: int| 0 <= i < (a + b).len() && (a + b)[i] == c;
                if i < a.len() {
                    assert(a[i] == c);
                } else {
                    assert(b[i - a.len()] == c);
                }
            }
        }
    }
}

/// A control character that a TOML basic string may not hold unescaped: any of
/// U+0000 to U+001F except tab, and U+007F.
pub open spec fn toml_control(c: char) -> bool {
    (c <= '\u{1f}' && c != '\t') || c == '\u{7f}'
}

/// The character a one-letter escape `\x` of a TOML basic string stands for.
pub open spec fn simple_escape(x: char) -> Option<char> {
    if x == 'b' {
        Some('\u{8}')
    } else if x == 't' {
        Some('\t')
    } else if x == 'n' {
        Some('\n')
    } else if x == 'f' {
        Some('\u{c}')
    } else if x == 'r' {
        Some('\r')
    } else if x == '"' {
        Some('"')
    } else if x == '\\' {
        Some('\\')
    } else {
        None
    }
}

/// The value a TOML basic string whose text between the quotes is `t` reads
/// back as; `None` where `t` is no such text (an unescaped `"`, a control
/// character other than tab, a bad or unfinished escape). The Unicode escapes
/// `\uXXXX` and `\UXXXXXXXX` are not decoded here and also give `None`.
pub open spec fn basic_string_value(t: Seq<char>) -> Option<Seq<char>>
    decreases t.len(),
{
    if t.len() == 0 {
        Some(Seq::empty())
    } else if t[0] == '\\' {
        if t.len() < 2 {
            None
        } else {
            match simple_escape(t[1]) {
                Some(c) => match basic_string_value(t.skip(2)) {
                    Some(r) => Some(seq![c] + r),
                    None => None,
                },
                None => None,
            }
        }
    } else if t[0] == '"' || toml_control(t[0]) {
        None
    } else {
        match basic_string_value(t.skip(1)) {
            Some(r) => Some(seq![t[0]] + r),
            None => None,
        }
    }
}

/// A newline, carriage return or tab turned into a space.
pub open spec fn blank_break(c: char) -> char {
    if c == '\n' || c == '\r' || c == '\t' { ' ' } else { c }
}

proof fn lemma_esc_front(s: Seq<char>)
    requires
        s.len() > 0,
    ensures
        esc_spec(s) == esc_char(s[0]) + esc_spec(s.drop_first()),
    decreases s.len(),
{
    if s.len() == 1 {
        assert(s.drop_last() =~= Seq::<char>::empty());
        assert(s.drop_first() =~= Seq::<char>::empty());
        assert(esc_spec(s) =~= esc_char(s[0]) + esc_spec(s.drop_first()));
    } else {
        lemma_esc_front(s.drop_last());
        assert(s.drop_last().drop_first() =~= s.drop_first().drop_last());
        assert(s.drop_first().last() == s.last());
        assert(esc_spec(s) =~= esc_char(s[0]) + esc_spec(s.drop_first()));
    }
}

/// Escaping round-trips through TOML: for a value without control characters
/// other than line breaks and tabs, `"` + `esc(s)` + `"` is a TOML basic string
/// that reads back as `s` with each newline, carriage return and tab a space.
pub proof fn lemma_esc_round_trip(s: Seq<char>)
    requires
        forall|i: int| 0 <= i < s.len() && toml_control(#[trigger] s[i]) ==> s[i] == '\n' || s[i] == '\r',
    ensures
        basic_string_value(esc_spec(s)) == Some(s.map_values(|c: char| blank_break(c))),
    decreases s.len(),
{
    let sp = s.map_values(|c: char| blank_break(c));
    if s.len() == 0 {
        assert(sp =~= Seq::<char>::empty());
    } else {
        let r = s.drop_first();
        assert forall|i: int| 0 <= i < r.len() && toml_control(#[trigger] r[i]) implies r[i] == '\n' || r[i] == '\r' by {
            assert(r[i] == s[i + 1]);
        }
        lemma_esc_round_trip(r);
        lemma_esc_front(s);
        let rt = esc_spec(r);
        let rv = r.map_values(|c: char| blank_break(c));
        assert(sp =~= seq![blank_break(s[0])] + rv);
        let t = esc_spec(s);
        let c = s[0];
        if c == '\\' || c == '"' {
            assert(t =~= seq!['\\', c] + rt);
            assert(t.skip(2) =~= rt);
        } else if c == '\n' || c == '\r' || c == '\t' {
            assert(t =~= seq![' '] + rt);
            assert(t.skip(1) =~= rt);
        } else {
            assert(t =~= seq![c] + rt);
            assert(t.skip(1) =~= rt);
        }
    }
}

/// Escape a TOML basic-string value; collapse newlines so entries stay one line.
pub fn esc(s: &str) -> (r: String)
    ensures
        r@ == esc_spec(s@),
        !r@.contains('\n') && !r@.contains('\r') && !r@.contains('\t'),
        (forall|i: int| 0 <= i < s@.len() && toml_control(#[trigger] s@[i]) ==> s@[i] == '\n' || s@[i] == '\r')
            ==> basic_string_value(r@) == Some(s@.map_values(|c: char| blank_break(c))),
{
    proof {
        lemma_esc_one_line(s@);
        if forall|i: int| 0 <= i < s@.len() && toml_control(#[trigger] s@[i]) ==> s@[i] == '\n' || s@[i] == '\r' {
            lemma_esc_round_trip(s@);
        }
    }
    let v = chars_of(s);
    let mut out = String::new();
    let mut i: usize = 0;
    while i < v.len()
        invariant
            i <= v@.len(),
            v@ == s@,
            out@ == esc_spec(v@.take(i as int)),
        decreases v@.len() - i,
    {
        let c = v[i];
        proof {
            assert(v@.take(i + 1).drop_last() =~= v@.take(i as int));
        }
        if c == '\\' {
            push_char(&mut out, '\\');
            push_char(&mut out, '\\');
        } else if c == '"' {
            push_char(&mut out, '\\');
            push_char(&mut out, '"');
        } else if c == '\n' || c == '\r' || c == '\t' {
            push_char(&mut out, ' ');
        } else {
            push_char(&mut out, c);
        }
        i = i + 1;
        assert(out@ =~= esc_spec(v@.take(i as int)));
    }
    assert(v@.take(i as int) =~= v@);
    out
}

// ---------------------------------------------------------------------------
// Dates.
// ---------------------------------------------------------------------------

pub open spec fn date_text(y: int, m: int, d: int) -> Seq<char> {
    zero_pad(decimal(y as nat), 4) + "-"@ + zero_pad(decimal(m as nat), 2) + "-"@ + zero_pad(
        decimal(d as nat),
        2,
    )
}

/// `text` is the `YYYY-MM-DD` form of the civil date of Unix time `secs`.
pub open spec fn is_date_of(text: Seq<char>, secs: u64) -> bool {
    exists|y: int, m: int, d: int|
        valid_date(y, m, d) && day_number(y, m, d) == secs as int / 86400 && #[trigger] date_text(
            y,
            m,
            d,
        ) == text
}

/// A moment has one date: two texts that are both the date of `secs` are equal.
pub proof fn lemma_date_of_unique(t1: Seq<char>, t2: Seq<char>, secs: u64)
    requires
        is_date_of(t1, secs),
        is_date_of(t2, secs),
    ensures
        t1 == t2,
{
    let (y1, m1, d1) = choose|y: int, m: int, d: int|
        valid_date(y, m, d) && day_number(y, m, d) == secs as int / 86400 && #[trigger] date_text(y, m, d) == t1;
    let (y2, m2, d2) = choose|y: int, m: int, d: int|
        valid_date(y, m, d) && day_number(y, m, d) == secs as int / 86400 && #[trigger] date_text(y, m, d) == t2;
    lemma_day_number_injective(y1, m1, d1, y2, m2, d2);
}

/// The date of Unix time `secs` as YYYY-MM-DD.
pub fn today(secs: u64) -> (r: String)
    ensures
        is_date_of(r@, secs),
{
    let (y, m, d) = civil_from_days(secs / 86400);
    let mut s = String::new();
    push_padded(&mut s, y, 4);
    push_str(&mut s, "-");
    push_padded(&mut s, m, 2);
    push_str(&mut s, "-");
    push_padded(&mut s, d, 2);
    proof {
        assert(s@ =~= date_text(y as int, m as int, d as int));
    }
    s
}

// ---------------------------------------------------------------------------
// Counting entries already in a facet file.
// ---------------------------------------------------------------------------

pub open spec fn line_step(st: (Seq<Seq<char>>, Seq<char>), c: char) -> (Seq<Seq<char>>, Seq<char>) {
    if c == '\n' {
        (st.0.push(st.1), Seq::empty())
    } else {
        (st.0, st.1.push(c))
    }
}

pub open spec fn line_state(s: Seq<char>) -> (Seq<Seq<char>>, Seq<char>) {
    s.fold_left(
        (Seq::<Seq<char>>::empty(), Seq::<char>::empty()),
        |st: (Seq<Seq<char>>, Seq<char>), c: char| line_step(st, c),
    )
}

/// The lines of a text, split at `\n` (a final newline ends the last line
/// rather than starting an empty one).
pub open spec fn text_lines(s: Seq<char>) -> Seq<Seq<char>> {
    let st = line_state(s);
    if st.1.len() > 0 { st.0.push(st.1) } else { st.0 }
}

pub open spec fn count_marked(lines: Seq<Seq<char>>, marker: Seq<char>) -> nat
    decreases lines.len(),
{
    if lines.len() == 0 {
        0
    } else {
        count_marked(lines.drop_last(), marker) + if trim(lines.last()) == marker { 1nat } else { 0nat }
    }
}

/// The number of lines of `s` that read `marker` once trimmed.
pub open spec fn marker_count(s: Seq<char>, marker: Seq<char>) -> nat {
    count_marked(text_lines(s), marker)
}

proof fn lemma_count_bound(lines: Seq<Seq<char>>, marker: Seq<char>)
    ensures
        count_marked(lines, marker) <= lines.len(),
    decreases lines.len(),
{
    if lines.len() > 0 {
        lemma_count_bound(lines.drop_last(), marker);
    }
}

proof fn lemma_line_state_len(s: Seq<char>)
    ensures
        line_state(s).0.len() + line_state(s).1.len() <= s.len(),
    decreases s.len(),
{
    if s.len() > 0 {
        lemma_line_state_len(s.drop_last());
    }
}

/// How many lines of `text` read `marker` once trimmed.
pub fn count(text: &str, marker: &str) -> (r: usize)
    ensures
        r == marker_count(text@, marker@),
{
    let v = chars_of(text);
    let mk = chars_of(marker);
    let mut cur: Vec<char> = Vec::new();
    let mut n: usize = 0;
    let mut i: usize = 0;
    while i < v.len()
        invariant
            i <= v@.len(),
            v@ == text@,
            mk@ == marker@,
            cur@ == line_state(v@.take(i as int)).1,
            n == count_marked(line_state(v@.take(i as int)).0, marker@),
            line_state(v@.take(i as int)).0.len() + cur@.len() <= i,
        decreases v@.len() - i,
    {
        proof {
            assert(v@.take(i + 1).drop_last() =~= v@.take(i as int));
            lemma_count_bound(line_state(v@.take(i as int)).0, marker@);
        }
        let c = v[i];
        if c == '\n' {
            let t = trim_chars(&cur);
            let ghost lines = line_state(v@.take(i as int)).0;
            if chars_eq(&t, &mk) {
                n = n + 1;
            }
            proof {
                assert(lines.push(cur@).drop_last() =~= lines);
            }
            cur = Vec::new();
        } else {
            cur.push(c);
        }
        i = i + 1;
    }
    proof {
        assert(v@.take(i as int) =~= v@);
        let st = line_state(v@);
        if st.1.len() > 0 {
            assert(st.0.push(st.1).drop_last() =~= st.0);
        }
        lemma_count_bound(st.0, marker@);
        lemma_line_state_len(v@);
    }
    if cur.len() > 0 {
        let t = trim_chars(&cur);
        if chars_eq(&t, &mk) {
            n = n + 1;
        }
    }
    n
}

// ---------------------------------------------------------------------------
// Targets and facet files.
// ---------------------------------------------------------------------------

/// A target is `*` (the whole snapshot) or the id of a resolved component.
pub open spec fn target_ok(embed: JVal, target: Seq<char>) -> bool {
    target == "*"@ || has_key(embed.members("components"@), target)
}

/// A target must be "*" (the snapshot) or an existing component.
pub fn check_target(embed: &Json, target: &str) -> (r: Result<(), FacetError>)
    ensures
        match r {
            Ok(()) => target_ok(embed@, target@),
            Err(FacetError::NotAComponent(t)) => !target_ok(embed@, target@) && t@ == target@,
            Err(_) => false,
        },
{
    if str_eq(target, "*") {
        return Ok(());
    }
    let comps = crate::json::members_of(embed, "components");
    proof {
        lemma_key_index(members_view(comps@), target@);
    }
    if find_key(&comps, target).is_some() {
        Ok(())
    } else {
        Err(FacetError::NotAComponent(lit(target)))
    }
}

/// `ask` and `approve` accept a target exactly when the validator accepts it
/// on a question or approval of the same resolved genome: an item whose target
/// was accepted passes the target check, and one refused would fail it.
pub proof fn lemma_accepted_targets_validate(embed: JVal, item: JVal, target: Seq<char>)
    requires
        item.get_str("target"@) == Some(target),
    ensures
        target_resolves(item, comp_ids(embed)) <==> target_ok(embed, target),
{
    let ms = embed.members("components"@);
    if has_key(ms, target) {
        let i = choose|i: int| 0 <= i < ms.len() && ms[i].0 == target;
        assert(comp_ids(embed)[i] == target);
    }
    if comp_ids(embed).contains(target) {
        let i = choose|i: int| 0 <= i < comp_ids(embed).len() && comp_ids(embed)[i] == target;
        assert(ms[i].0 == target);
    }
}

/// The facet file: the first path under `[include].<facet>`, when it is a string.
pub open spec fn facet_rel(g: JVal, facet: Seq<char>) -> Option<Seq<char>> {
    match include_table(g).get_array(facet) {
        Some(a) => if a.len() > 0 {
            a[0].as_str()
        } else {
            None
        },
        None => None,
    }
}

/// Resolve the facet file (first path under [include].<facet>), relative to the root.
pub fn facet_file(genome: &Json, facet: &str) -> (r: Option<String>)
    ensures
        match r {
            Some(f) => facet_rel(genome@, facet@) == Some(f@),
            None => facet_rel(genome@, facet@) is None,
        },
{
    let arr = match genome.get("include") {
        Some(inc) => inc.get_array(facet),
        None => None,
    };
    match arr {
        Some(a) => {
            if a.len() > 0 {
                match a[0].as_str() {
                    Some(s) => Some(s.clone()),
                    None => None,
                }
            } else {
                None
            }
        },
        None => None,
    }
}

// ---------------------------------------------------------------------------
// Entries.
// ---------------------------------------------------------------------------

/// A question entry: a newline, then its lines (see `question_lines`), each
/// ending in a newline.
pub open spec fn question_block(id: Seq<char>, target: Seq<char>, role: Seq<char>, text: Seq<char>, date: Seq<char>) -> Seq<char> {
    seq!['\n'] + joined(question_lines(id, target, role, text, date))
}

/// An approval entry: a newline, then its lines (see `approval_lines`).
pub open spec fn approval_block(target: Seq<char>, role: Seq<char>, decision: Seq<char>, note: Option<Seq<char>>, date: Seq<char>) -> Seq<char> {
    seq!['\n'] + joined(approval_lines(target, role, decision, note, date))
}

/// The id of the next question in a file that already holds `n`.
pub open spec fn question_id(n: nat) -> Seq<char> {
    "q"@ + decimal(n + 1)
}

pub open spec fn strs_view(v: Seq<String>) -> Seq<Seq<char>> {
    v.map_values(|s: String| s@)
}

/// `key "value"` as one line.
fn kv(key: &str, v: &str) -> (r: String)
    ensures
        r@ == kv_line(key@, v@),
{
    let mut s = lit(key);
    push_str(&mut s, "\"");
    push_str(&mut s, v);
    push_str(&mut s, "\"");
    s
}

proof fn lemma_joined_push(ls: Seq<Seq<char>>, l: Seq<char>)
    ensures
        joined(ls.push(l)) == joined(ls) + l + seq!['\n'],
    decreases ls.len(),
{
    reveal_with_fuel(joined, 2);
    if ls.len() == 0 {
        assert(ls.push(l).drop_first() =~= Seq::<Seq<char>>::empty());
        assert(joined(ls.push(l)) =~= joined(ls) + l + seq!['\n']);
    } else {
        lemma_joined_push(ls.drop_first(), l);
        assert(ls.push(l).drop_first() =~= ls.drop_first().push(l));
        assert(joined(ls.push(l)) =~= joined(ls) + l + seq!['\n']);
    }
}

/// Appends each line followed by a newline.
fn push_joined(s: &mut String, lines: &Vec<String>)
    ensures
        final(s)@ == old(s)@ + joined(strs_view(lines@)),
{
    let ghost start = s@;
    let mut i: usize = 0;
    while i < lines.len()
        invariant
            i <= lines@.len(),
            s@ == start + joined(strs_view(lines@).take(i as int)),
        decreases lines@.len() - i,
    {
        proof {
            lemma_joined_push(strs_view(lines@).take(i as int), lines@[i as int]@);
            assert(strs_view(lines@).take(i + 1) =~= strs_view(lines@).take(i as int).push(lines@[i as int]@));
        }
        push_str(s, lines[i].as_str());
        push_char(s, '\n');
        i = i + 1;
    }
    assert(strs_view(lines@).take(i as int) =~= strs_view(lines@));
}

/// Compose a question targeting `target` (a component id of `embed`, or `*`),
/// to go into the anchor's first `[include].questions` file, whose current text
/// is `existing`. Returns the question's id and the entry.
pub fn ask(embed: &Json, genome: &Json, target: &str, role: &str, text: &str, existing: &str, now_secs: u64) -> (r: Result<(String, Appended), FacetError>)
    ensures
        match r {
            Ok((id, a)) => {
                &&& target_ok(embed@, target@)
                &&& facet_rel(genome@, "questions"@) == Some(a.file@)
                &&& id@ == question_id(marker_count(existing@, "[[question]]"@))
                &&& exists|date: Seq<char>|
                    is_date_of(date, now_secs) && a.block@ == #[trigger] question_block(
                        id@,
                        target@,
                        role@,
                        text@,
                        date,
                    )
            },
            Err(FacetError::NotAComponent(t)) => !target_ok(embed@, target@) && t@ == target@,
            Err(FacetError::NoFacetFile(f)) => target_ok(embed@, target@) && facet_rel(
                genome@,
                "questions"@,
            ) is None && f@ == "questions"@,
        },
{
    check_target(embed, target)?;
    let file = match facet_file(genome, "questions") {
        Some(f) => f,
        None => {
            return Err(FacetError::NoFacetFile(lit("questions")));
        },
    };
    let n = count(existing, "[[question]]");
    let mut id = String::new();
    push_str(&mut id, "q");
    push_decimal(&mut id, n as u128 + 1);
    let date = today(now_secs);
    let mut b = String::new();
    let mut lines: Vec<String> = Vec::new();
    lines.push(lit("[[question]]"));
    lines.push(kv("id     = ", id.as_str()));
    lines.push(kv("target = ", esc(target).as_str()));
    lines.push(kv("role   = ", esc(role).as_str()));
    lines.push(kv("text   = ", esc(text).as_str()));
    lines.push(lit("status = \"open\""));
    lines.push(lit("by     = \"human\""));
    lines.push(kv("at     = ", date.as_str()));
    push_char(&mut b, '\n');
    push_joined(&mut b, &lines);
    assert(strs_view(lines@) =~= question_lines(id@, target@, role@, text@, date@));
    assert(b@ == question_block(id@, target@, role@, text@, date@));
    Ok((id, Appended { file, block: b }))
}

pub open spec fn note_view(note: Option<&str>) -> Option<Seq<char>> {
    match note {
        Some(n) => Some(n@),
        None => None,
    }
}

/// Compose an approval/decision targeting `target` (a component id of `embed`,
/// or `*`), to go into the anchor's first `[include].approvals` file.
pub fn approve(embed: &Json, genome: &Json, target: &str, role: &str, decision: &str, note: Option<&str>, now_secs: u64) -> (r: Result<Appended, FacetError>)
    ensures
        match r {
            Ok(a) => {
                &&& target_ok(embed@, target@)
                &&& facet_rel(genome@, "approvals"@) == Some(a.file@)
                &&& exists|date: Seq<char>|
                    is_date_of(date, now_secs) && a.block@ == #[trigger] approval_block(
                        target@,
                        role@,
                        decision@,
                        note_view(note),
                        date,
                    )
            },
            Err(FacetError::NotAComponent(t)) => !target_ok(embed@, target@) && t@ == target@,
            Err(FacetError::NoFacetFile(f)) => target_ok(embed@, target@) && facet_rel(
                genome@,
                "approvals"@,
            ) is None && f@ == "approvals"@,
        },
{
    check_target(embed, target)?;
    let file = match facet_file(genome, "approvals") {
        Some(f) => f,
        None => {
            return Err(FacetError::NoFacetFile(lit("approvals")));
        },
    };
    let date = today(now_secs);
    let mut b = String::new();
    let mut lines: Vec<String> = Vec::new();
    lines.push(lit("[[approval]]"));
    lines.push(kv("target   = ", esc(target).as_str()));
    lines.push(kv("role     = ", esc(role).as_str()));
    lines.push(kv("decision = ", esc(decision).as_str()));
    match note {
        Some(n) => {
            lines.push(kv("note     = ", esc(n).as_str()));
        },
        None => {},
    }
    lines.push(lit("by       = \"human\""));
    lines.push(kv("at       = ", date.as_str()));
    push_char(&mut b, '\n');
    push_joined(&mut b, &lines);
    assert(strs_view(lines@) =~= approval_lines(target@, role@, decision@, note_view(note), date@));
    assert(b@ == approval_block(target@, role@, decision@, note_view(note), date@));
    Ok(Appended { file, block: b })
}

// ---------------------------------------------------------------------------
// Appending an entry adds one entry.
// ---------------------------------------------------------------------------

pub open spec fn lines_from(st: (Seq<Seq<char>>, Seq<char>), b: Seq<char>) -> (Seq<Seq<char>>, Seq<char>) {
    b.fold_left(st, |st: (Seq<Seq<char>>, Seq<char>), c: char| line_step(st, c))
}

proof fn lemma_lines_concat(st: (Seq<Seq<char>>, Seq<char>), a: Seq<char>, b: Seq<char>)
    ensures
        lines_from(st, a + b) == lines_from(lines_from(st, a), b),
{
    let f = |st: (Seq<Seq<char>>, Seq<char>), c: char| line_step(st, c);
    (a + b).lemma_fold_left_split(st, f, a.len() as int);
    assert((a + b).subrange(0, a.len() as int) =~= a);
    assert((a + b).subrange(a.len() as int, (a + b).len() as int) =~= b);
}

proof fn lemma_lines_plain(st: (Seq<Seq<char>>, Seq<char>), w: Seq<char>)
    requires
        !w.contains('\n'),
    ensures
        lines_from(st, w) == (st.0, st.1 + w),
    decreases w.len(),
{
    if w.len() == 0 {
        assert(st.1 + w =~= st.1);
    } else {
        assert(!w.drop_last().contains('\n')) by {
            if w.drop_last().contains('\n') {
                let i = choose|i: int| 0 <= i < w.drop_last().len() && w.drop_last()[i] == '\n';
                assert(w[i] == '\n');
            }
        }
        lemma_lines_plain(st, w.drop_last());
        assert(w.last() != '\n') by {
            assert(w[w.len() - 1] == w.last());
        }
        assert((st.1 + w.drop_last()).push(w.last()) =~= st.1 + w);
    }
}

proof fn lemma_lines_newline(st: (Seq<Seq<char>>, Seq<char>))
    ensures
        lines_from(st, seq!['\n']) == (st.0.push(st.1), Seq::<char>::empty()),
{
    reveal_with_fuel(Seq::fold_left, 2);
    assert(seq!['\n'].drop_last() =~= Seq::<char>::empty());
    assert(seq!['\n'].last() == '\n');
}

/// Feeding a line and its newline.
proof fn lemma_lines_line(st: (Seq<Seq<char>>, Seq<char>), w: Seq<char>)
    requires
        !w.contains('\n'),
    ensures
        lines_from(st, w + seq!['\n']) == (st.0.push(st.1 + w), Seq::<char>::empty()),
{
    lemma_lines_concat(st, w, seq!['\n']);
    lemma_lines_plain(st, w);
    lemma_lines_newline((st.0, st.1 + w));
}

proof fn lemma_trim_keeps_first(s: Seq<char>)
    requires
        s.len() > 0,
        !is_ws(s[0]),
    ensures
        trim(s).len() > 0,
        trim(s)[0] == s[0],
    decreases s.len(),
{
    assert(trim_start(s) == s);
    lemma_trim_end_keeps_first(s);
}

proof fn lemma_trim_end_keeps_first(s: Seq<char>)
    requires
        s.len() > 0,
        !is_ws(s[0]),
    ensures
        trim_end(s).len() > 0,
        trim_end(s)[0] == s[0],
    decreases s.len(),
{
    if is_ws(s.last()) {
        assert(s.len() > 1);
        lemma_trim_end_keeps_first(s.drop_last());
    }
}

proof fn lemma_decimal_digits(n: nat)
    ensures
        !decimal(n).contains('\n'),
    decreases n,
{
    if n >= 10 {
        lemma_decimal_digits(n / 10);
        assert forall|i: int| 0 <= i < decimal(n).len() implies decimal(n)[i] != '\n' by {
            if i < decimal(n).len() - 1 {
                assert(decimal(n)[i] == decimal(n / 10)[i]);
            }
        }
    } else {
        assert(decimal(n)[0] == digit_char(n as int));
    }
}

proof fn lemma_no_newline_concat(a: Seq<char>, b: Seq<char>)
    requires
        !a.contains('\n'),
        !b.contains('\n'),
    ensures
        !(a + b).contains('\n'),
{
    if (a + b).contains('\n') {
        let i = choose|i: int| 0 <= i < (a + b).len() && (a + b)[i] == '\n';
        if i < a.len() {
            assert(a[i] == '\n');
        } else {
            assert(b[i - a.len()] == '\n');
        }
    }
}

proof fn lemma_padded_digits(n: nat, w: nat)
    ensures
        !zero_pad(decimal(n), w).contains('\n'),
{
    lemma_decimal_digits(n);
    if decimal(n).len() < w {
        let z = Seq::new((w - decimal(n).len()) as nat, |_i: int| '0');
        assert(!z.contains('\n'));
        lemma_no_newline_concat(z, decimal(n));
    }
}

proof fn lemma_date_one_line(date: Seq<char>, secs: u64)
    requires
        is_date_of(date, secs),
    ensures
        !date.contains('\n'),
{
    let (y, m, d) = choose|y: int, m: int, d: int|
        valid_date(y, m, d) && day_number(y, m, d) == secs as int / 86400 && #[trigger] date_text(y, m, d) == date;
    reveal_strlit("-");
    lemma_padded_digits(y as nat, 4);
    lemma_padded_digits(m as nat, 2);
    lemma_padded_digits(d as nat, 2);
    let a = zero_pad(decimal(y as nat), 4);
    let b = zero_pad(decimal(m as nat), 2);
    let c = zero_pad(decimal(d as nat), 2);
    assert(!"-"@.contains('\n'));
    lemma_no_newline_concat(a, "-"@);
    lemma_no_newline_concat(a + "-"@, b);
    lemma_no_newline_concat(a + "-"@ + b, "-"@);
    lemma_no_newline_concat(a + "-"@ + b + "-"@, c);
}

/// `key = "value"`, one line of an entry.
pub open spec fn kv_line(key: Seq<char>, v: Seq<char>) -> Seq<char> {
    key + "\""@ + v + "\""@
}

proof fn lemma_kv_line(key: Seq<char>, v: Seq<char>)
    requires
        !key.contains('\n'),
        !v.contains('\n'),
        key.len() > 0,
        !is_ws(key[0]),
        key[0] != '[',
    ensures
        !kv_line(key, v).contains('\n'),
        trim(kv_line(key, v)) != "[[question]]"@,
{
    reveal_strlit("\"");
    reveal_strlit("[[question]]");
    lemma_no_newline_concat(key, "\""@);
    lemma_no_newline_concat(key + "\""@, v);
    lemma_no_newline_concat(key + "\""@ + v, "\""@);
    assert(kv_line(key, v)[0] == key[0]);
    lemma_trim_keeps_first(kv_line(key, v));
}

/// The lines of an approval entry after its leading newline; the note line only
/// when a note is given.
pub open spec fn approval_lines(target: Seq<char>, role: Seq<char>, decision: Seq<char>, note: Option<Seq<char>>, date: Seq<char>) -> Seq<Seq<char>> {
    seq![
        "[[approval]]"@,
        kv_line("target   = "@, esc_spec(target)),
        kv_line("role     = "@, esc_spec(role)),
        kv_line("decision = "@, esc_spec(decision)),
    ] + match note {
        Some(n) => seq![kv_line("note     = "@, esc_spec(n))],
        None => Seq::<Seq<char>>::empty(),
    } + seq!["by       = \"human\""@, kv_line("at       = "@, date)]
}

/// The lines of a question entry after its leading newline.
pub open spec fn question_lines(id: Seq<char>, target: Seq<char>, role: Seq<char>, text: Seq<char>, date: Seq<char>) -> Seq<Seq<char>> {
    seq![
        "[[question]]"@,
        kv_line("id     = "@, id),
        kv_line("target = "@, esc_spec(target)),
        kv_line("role   = "@, esc_spec(role)),
        kv_line("text   = "@, esc_spec(text)),
        "status = \"open\""@,
        "by     = \"human\""@,
        kv_line("at     = "@, date),
    ]
}

proof fn lemma_question_lines_count(id: Seq<char>, target: Seq<char>, role: Seq<char>, text: Seq<char>, date: Seq<char>)
    requires
        !id.contains('\n'),
        !date.contains('\n'),
    ensures
        count_marked(question_lines(id, target, role, text, date), "[[question]]"@) == 1,
        forall|i: int|
            0 <= i < question_lines(id, target, role, text, date).len() ==> !(#[trigger] question_lines(
                id,
                target,
                role,
                text,
                date,
            )[i]).contains('\n'),
{
    let mk = "[[question]]"@;
    reveal_strlit("[[question]]");
    reveal_strlit("id     = ");
    reveal_strlit("target = ");
    reveal_strlit("role   = ");
    reveal_strlit("text   = ");
    reveal_strlit("status = \"open\"");
    reveal_strlit("by     = \"human\"");
    reveal_strlit("at     = ");
    lemma_esc_one_line(target);
    lemma_esc_one_line(role);
    lemma_esc_one_line(text);
    lemma_kv_line("id     = "@, id);
    lemma_kv_line("target = "@, esc_spec(target));
    lemma_kv_line("role   = "@, esc_spec(role));
    lemma_kv_line("text   = "@, esc_spec(text));
    lemma_kv_line("at     = "@, date);
    let l5 = "status = \"open\""@;
    let l6 = "by     = \"human\""@;
    lemma_trim_keeps_first(l5);
    lemma_trim_keeps_first(l6);
    assert(trim(mk) == mk) by {
        assert(trim_start(mk) == mk);
        assert(trim_end(mk) == mk);
    }
    let ls = question_lines(id, target, role, text, date);
    reveal_with_fuel(count_marked, 9);
    assert(ls.drop_last().drop_last().drop_last().drop_last().drop_last().drop_last().drop_last() =~= seq![mk]);
    assert(seq![mk].drop_last() =~= Seq::<Seq<char>>::empty());
}

/// Appending the entry `ask` composes adds exactly one question line to the
/// facet file, so the next question asked gets the next id (`q1`, `q2`, ...).
pub proof fn lemma_ask_adds_one(existing: Seq<char>, target: Seq<char>, role: Seq<char>, text: Seq<char>, date: Seq<char>, secs: u64)
    requires
        is_date_of(date, secs),
    ensures
        marker_count(
            existing + question_block(
                question_id(marker_count(existing, "[[question]]"@)),
                target,
                role,
                text,
                date,
            ),
            "[[question]]"@,
        ) == marker_count(existing, "[[question]]"@) + 1,
{
    let mk = "[[question]]"@;
    let n = marker_count(existing, mk);
    let id = question_id(n);
    reveal_strlit("q");
    lemma_decimal_digits(n + 1);
    assert(!"q"@.contains('\n'));
    lemma_no_newline_concat("q"@, decimal(n + 1));
    lemma_date_one_line(date, secs);
    lemma_question_lines_count(id, target, role, text, date);
    let ls = question_lines(id, target, role, text, date);
    let block = question_block(id, target, role, text, date);
    let st0 = line_state(existing);
    lemma_lines_concat((Seq::<Seq<char>>::empty(), Seq::<char>::empty()), existing, block);
    lemma_lines_concat(st0, seq!['\n'], joined(ls));
    lemma_lines_newline(st0);
    let st1 = (st0.0.push(st0.1), Seq::<char>::empty());
    lemma_feed_lines(st1, ls);
    assert(line_state(existing + block) == (st1.0 + ls, Seq::<char>::empty()));
    assert(text_lines(existing + block) == st1.0 + ls);
    lemma_count_append(st1.0, ls, mk);
    assert(st1.0.drop_last() =~= st0.0);
    if st0.1.len() == 0 {
        assert(trim(st0.1) != mk) by {
            reveal_strlit("[[question]]");
            assert(trim_start(st0.1) == st0.1);
            assert(trim_end(st0.1) == st0.1);
        }
    }
}

/// Lines, each followed by a newline.
pub open spec fn joined(lines: Seq<Seq<char>>) -> Seq<char>
    decreases lines.len(),
{
    if lines.len() == 0 {
        Seq::empty()
    } else {
        lines[0] + seq!['\n'] + joined(lines.drop_first())
    }
}

proof fn lemma_feed_lines(st: (Seq<Seq<char>>, Seq<char>), lines: Seq<Seq<char>>)
    requires
        st.1.len() == 0,
        forall|i: int| 0 <= i < lines.len() ==> !(#[trigger] lines[i]).contains('\n'),
    ensures
        lines_from(st, joined(lines)) == (st.0 + lines, Seq::<char>::empty()),
    decreases lines.len(),
{
    if lines.len() == 0 {
        assert(st.0 + lines =~= st.0);
        assert(st.1 =~= Seq::<char>::empty());
    } else {
        let w = lines[0];
        lemma_lines_concat(st, w + seq!['\n'], joined(lines.drop_first()));
        lemma_lines_line(st, w);
        assert(st.1 + w =~= w);
        let st2 = (st.0.push(w), Seq::<char>::empty());
        assert forall|i: int| 0 <= i < lines.drop_first().len() implies !(#[trigger] lines.drop_first()[i]).contains('\n') by {
            assert(lines.drop_first()[i] == lines[i + 1]);
        }
        lemma_feed_lines(st2, lines.drop_first());
        assert(st.0.push(w) + lines.drop_first() =~= st.0 + lines);
        assert(w + seq!['\n'] + joined(lines.drop_first()) == joined(lines));
    }
}

proof fn lemma_count_append(a: Seq<Seq<char>>, b: Seq<Seq<char>>, mk: Seq<char>)
    ensures
        count_marked(a + b, mk) == count_marked(a, mk) + count_marked(b, mk),
    decreases b.len(),
{
    if b.len() == 0 {
        assert(a + b =~= a);
    } else {
        lemma_count_append(a, b.drop_last(), mk);
        assert((a + b).drop_last() =~= a + b.drop_last());
        assert((a + b).last() == b.last());
    }
}

} // verus!
