//! Enrichment's own logic: which components may be filled (only blanks, so
//! human and scan fields are never overwritten), the question put to the model,
//! and the clean-up of its answer. Running the model is the caller's part.
use vstd::prelude::*;
use crate::json::{JVal, Json, members_view, lit};
use crate::text::{occurs, occurs_at, is_piece, lemma_piece_free, lemma_piece_trans, lemma_piece_skip, lemma_trim_piece, lemma_collapse_no_new, is_ws, single_spaced, lemma_collapse_single_spaced, chars_of, trim, trim_chars, collapse_ws, collapse_chars, has_prefix, string_of, push_str, chars_eq};
use crate::validate::{str_or_empty, contains_str};
use crate::resolve::strings_view;

verus! {

// ---------------------------------------------------------------------------
// Blanks to fill.
// ---------------------------------------------------------------------------

/// A component that has a summary but no why, as (id, label, summary); the
/// label defaults to the id.
pub open spec fn why_target(id: Seq<char>, c: JVal) -> Seq<(Seq<char>, Seq<char>, Seq<char>)> {
    match c {
        JVal::Object(_) => {
            let summary = str_or_empty(c.get_str("summary"@));
            let why = str_or_empty(c.get_str("why"@));
            if summary.len() > 0 && why.len() == 0 {
                seq![
                    (
                        id,
                        match c.get_str("label"@) {
                            Some(l) => l,
                            None => id,
                        },
                        summary,
                    ),
                ]
            } else {
                Seq::empty()
            }
        },
        _ => Seq::empty(),
    }
}

/// A component as a blank to fill, when it is written as a table (`[components.<id>]`,
/// one of `tables`); a component written as an inline table is never filled.
pub open spec fn why_target_in(tables: Seq<Seq<char>>, id: Seq<char>, c: JVal) -> Seq<(Seq<char>, Seq<char>, Seq<char>)> {
    if tables.contains(id) { why_target(id, c) } else { Seq::empty() }
}

/// The blanks of a genome document, in component order; `tables` are the ids
/// of the components written as tables.
pub open spec fn empty_why_spec(doc: JVal, tables: Seq<Seq<char>>) -> Seq<(Seq<char>, Seq<char>, Seq<char>)> {
    doc.members("components"@).fold_left(
        Seq::<(Seq<char>, Seq<char>, Seq<char>)>::empty(),
        |acc: Seq<(Seq<char>, Seq<char>, Seq<char>)>, m: (Seq<char>, JVal)| acc + why_target_in(tables, m.0, m.1),
    )
}

pub open spec fn triples_view(v: Seq<(String, String, String)>) -> Seq<(Seq<char>, Seq<char>, Seq<char>)> {
    v.map_values(|t: (String, String, String)| (t.0@, t.1@, t.2@))
}

/// Components that have a summary but no why — the blanks enrichment may fill.
/// `tables` are the ids of the components written as tables (`[components.<id>]`);
/// a component written as an inline table is not a table and is never filled,
/// and when `components` is itself inline no component is.
pub fn empty_why(doc: &Json, tables: &Vec<String>) -> (r: Vec<(String, String, String)>)
    ensures
        triples_view(r@) == empty_why_spec(doc@, strings_view(tables@)),
{
    let ghost tv = strings_view(tables@);
    let comps = crate::json::members_of(doc, "components");
    let ghost cv = members_view(comps@);
    let mut out: Vec<(String, String, String)> = Vec::new();
    let mut i: usize = 0;
    proof {
        assert(triples_view(out@) =~= cv.take(0).fold_left(
            Seq::<(Seq<char>, Seq<char>, Seq<char>)>::empty(),
            |acc: Seq<(Seq<char>, Seq<char>, Seq<char>)>, m: (Seq<char>, JVal)| acc + why_target_in(tv, m.0, m.1),
        ));
    }
    while i < comps.len()
        invariant
            i <= comps@.len(),
            cv == members_view(comps@),
            tv == strings_view(tables@),
            triples_view(out@) == cv.take(i as int).fold_left(
                Seq::<(Seq<char>, Seq<char>, Seq<char>)>::empty(),
                |acc: Seq<(Seq<char>, Seq<char>, Seq<char>)>, m: (Seq<char>, JVal)| acc + why_target_in(tv, m.0, m.1),
            ),
        decreases comps@.len() - i,
    {
        proof {
            assert(cv.take(i + 1).drop_last() =~= cv.take(i as int));
        }
        let id = &comps[i].0;
        let c = &comps[i].1;
        let ghost before = triples_view(out@);
        if !contains_str(tables, id.as_str()) {
            assert(triples_view(out@) =~= before + why_target_in(tv, cv[i as int].0, cv[i as int].1));
        } else {
            match c {
                Json::Object(_) => {
                    let summary = match c.get_str("summary") {
                        Some(s) => s.clone(),
                        None => String::new(),
                    };
                    let why_empty = match c.get_str("why") {
                        Some(w) => w.as_str().is_empty(),
                        None => true,
                    };
                    if !summary.as_str().is_empty() && why_empty {
                        let label = match c.get_str("label") {
                            Some(l) => l.clone(),
                            None => id.clone(),
                        };
                        out.push((id.clone(), label, summary));
                        proof {
                            assert(triples_view(out@) =~= before + why_target_in(tv, cv[i as int].0, cv[i as int].1));
                        }
                    } else {
                        assert(triples_view(out@) =~= before + why_target_in(tv, cv[i as int].0, cv[i as int].1));
                    }
                },
                _ => {
                    assert(triples_view(out@) =~= before + why_target_in(tv, cv[i as int].0, cv[i as int].1));
                },
            }
        }
        i = i + 1;
    }
    assert(cv.take(i as int) =~= cv);
    out
}

/// The project's name as the model is told it: `[project].name` when it is a
/// string, else `the project`.
pub open spec fn project_name_spec(doc: JVal) -> Seq<char> {
    match doc.get("project"@) {
        Some(p) => match p.get_str("name"@) {
            Some(n) => n,
            None => "the project"@,
        },
        None => "the project"@,
    }
}

pub fn project_name(doc: &Json) -> (r: String)
    ensures
        r@ == project_name_spec(doc@),
{
    match doc.get("project") {
        Some(p) => match p.get_str("name") {
            Some(n) => n.clone(),
            None => lit("the project"),
        },
        None => lit("the project"),
    }
}

// ---------------------------------------------------------------------------
// The question to the model.
// ---------------------------------------------------------------------------

pub open spec fn prompt_spec(project: Seq<char>, label: Seq<char>, summary: Seq<char>) -> Seq<char> {
    "<|im_start|>system\nYou explain why a part of a system matters, in exactly one concise sentence. Start directly with the reason — never restate the project or part name, never add a preamble.<|im_end|>\n<|im_start|>user\nProject: "@
        + project + "\nPart: "@ + label + "\nWhat it is: "@ + summary
        + "\n\nWhy does this part matter? Answer in one sentence, starting with a capital letter.<|im_end|>\n<|im_start|>assistant\n"@
}

/// The chat prompt asking why the part `label` of `project` matters.
pub fn prompt(project: &str, label: &str, summary: &str) -> (r: String)
    ensures
        r@ == prompt_spec(project@, label@, summary@),
{
    let mut p = lit(
        "<|im_start|>system\nYou explain why a part of a system matters, in exactly one concise sentence. Start directly with the reason — never restate the project or part name, never add a preamble.<|im_end|>\n<|im_start|>user\nProject: ",
    );
    push_str(&mut p, project);
    push_str(&mut p, "\nPart: ");
    push_str(&mut p, label);
    push_str(&mut p, "\nWhat it is: ");
    push_str(&mut p, summary);
    push_str(
        &mut p,
        "\n\nWhy does this part matter? Answer in one sentence, starting with a capital letter.<|im_end|>\n<|im_start|>assistant\n",
    );
    p
}

// ---------------------------------------------------------------------------
// Cleaning the answer.
// ---------------------------------------------------------------------------

/// `c` has Unicode's Alphabetic property.
pub uninterp spec fn alphabetic(c: char) -> bool;

/// `char::is_alphabetic`; its result is given a name that depends on `c` alone.
#[verifier::external_body]
fn is_alphabetic(c: char) -> (r: bool)
    ensures
        r == alphabetic(c),
{
    c.is_alphabetic()
}

/// Position of the first occurrence of `m` in `s`, or -1.
pub open spec fn find(s: Seq<char>, m: Seq<char>) -> int
    decreases s.len(),
{
    if has_prefix(s, m) {
        0
    } else if s.len() == 0 {
        -1
    } else {
        let r = find(s.drop_first(), m);
        if r < 0 { -1 } else { r + 1 }
    }
}

/// The part of `s` before the first `m` (all of `s` when there is none).
pub open spec fn before(s: Seq<char>, m: Seq<char>) -> Seq<char> {
    let i = find(s, m);
    if i >= 0 { s.take(i) } else { s }
}

/// `s` without leading characters that are neither `.` nor alphabetic.
pub open spec fn strip_noise(s: Seq<char>) -> Seq<char>
    decreases s.len(),
{
    if s.len() > 0 && s[0] != '.' && !alphabetic(s[0]) { strip_noise(s.drop_first()) } else { s }
}

/// Dropping an echoed `prefix` (and the punctuation after it).
pub open spec fn strip_echo(s: Seq<char>, prefix: Seq<char>) -> Seq<char> {
    if has_prefix(s, prefix) { trim(strip_noise(s.skip(prefix.len() as int))) } else { s }
}

/// The model output trimmed to one clean sentence: what precedes the end-of-turn
/// marker, its first line, any echoed `Project:`/`Part:`/`Why:`/`Answer:` lead
/// dropped, white space collapsed.
pub open spec fn clean_spec(s: Seq<char>) -> Seq<char> {
    let a = trim(before(trim(before(s, "<|im_end|>"@)), "\n"@));
    collapse_ws(
        strip_echo(strip_echo(strip_echo(strip_echo(a, "Project:"@), "Part:"@), "Why:"@), "Answer:"@),
    )
}

fn find_exec(v: &Vec<char>, m: &Vec<char>) -> (r: Option<usize>)
    ensures
        match r {
            Some(i) => find(v@, m@) == i as int && i <= v@.len(),
            None => find(v@, m@) == -1,
        },
{
    let mut i: usize = 0;
    assert(v@.skip(0) =~= v@);
    loop
        invariant
            i <= v@.len(),
            find(v@, m@) == (if find(v@.skip(i as int), m@) < 0 { -1 } else { i + find(v@.skip(i as int), m@) }),
        decreases v@.len() - i,
    {
        let ghost rest = v@.skip(i as int);
        // does `m` start at `i`?
        let mut ok = m.len() <= v.len() - i;
        let mut j: usize = 0;
        while ok && j < m.len()
            invariant
                i <= v@.len(),
                rest == v@.skip(i as int),
                rest.len() == v@.len() - i,
                j <= m@.len(),
                ok ==> m@.len() <= rest.len(),
                ok ==> forall|k: int| 0 <= k < j ==> rest[k] == m@[k],
                !ok ==> !has_prefix(rest, m@),
            decreases m@.len() - j + (if ok { 1int } else { 0int }),
        {
            assert(j < m@.len() && m@.len() <= rest.len());
            let vn = v.len();
            assert(i + j < vn);
            if v[i + j] != m[j] {
                assert(rest.take(m@.len() as int)[j as int] != m@[j as int]);
                ok = false;
            } else {
                j = j + 1;
            }
        }
        if ok {
            assert(rest.take(m@.len() as int) =~= m@);
            return Some(i);
        }
        if i == v.len() {
            return None;
        }
        assert(rest.drop_first() =~= v@.skip(i + 1));
        i = i + 1;
    }
}

fn before_exec(v: &Vec<char>, m: &str) -> (r: Vec<char>)
    ensures
        r@ == before(v@, m@),
{
    let mc = chars_of(m);
    match find_exec(v, &mc) {
        Some(i) => {
            let mut out: Vec<char> = Vec::new();
            let mut k: usize = 0;
            while k < i
                invariant
                    k <= i <= v@.len(),
                    out@ == v@.take(k as int),
                decreases i - k,
            {
                out.push(v[k]);
                k = k + 1;
                assert(out@ =~= v@.take(k as int));
            }
            out
        },
        None => {
            let mut out: Vec<char> = Vec::new();
            let mut k: usize = 0;
            while k < v.len()
                invariant
                    k <= v@.len(),
                    out@ == v@.take(k as int),
                decreases v@.len() - k,
            {
                out.push(v[k]);
                k = k + 1;
                assert(out@ =~= v@.take(k as int));
            }
            assert(v@.take(k as int) =~= v@);
            out
        },
    }
}

/// `strip_noise` with the alphabetic test read from `f`, one flag per character.
pub open spec fn strip_noise_flags(s: Seq<char>, f: Seq<bool>) -> Seq<char>
    decreases s.len(),
{
    if s.len() > 0 && s[0] != '.' && !f[0] { strip_noise_flags(s.drop_first(), f.drop_first()) } else { s }
}

/// `strip_echo` with the alphabetic test read from `f`, one flag per character.
pub open spec fn strip_echo_flags(s: Seq<char>, prefix: Seq<char>, f: Seq<bool>) -> Seq<char> {
    if has_prefix(s, prefix) {
        trim(strip_noise_flags(s.skip(prefix.len() as int), f.skip(prefix.len() as int)))
    } else {
        s
    }
}

/// The flags of a text are its characters' alphabetic property.
pub open spec fn alphabetic_flags(s: Seq<char>, f: Seq<bool>) -> bool {
    f.len() == s.len() && forall|i: int| 0 <= i < s.len() ==> f[i] == alphabetic(#[trigger] s[i])
}

proof fn lemma_strip_noise_flags(s: Seq<char>, f: Seq<bool>)
    requires
        alphabetic_flags(s, f),
    ensures
        strip_noise_flags(s, f) == strip_noise(s),
    decreases s.len(),
{
    if s.len() > 0 {
        assert(f[0] == alphabetic(s[0]));
        let (s1, f1) = (s.drop_first(), f.drop_first());
        assert forall|i: int| 0 <= i < s1.len() implies f1[i] == alphabetic(#[trigger] s1[i]) by {
            assert(f[i + 1] == alphabetic(s[i + 1]));
        }
        lemma_strip_noise_flags(s1, f1);
    }
}

/// Drops an echoed `prefix` (and the punctuation after it), given the alphabetic
/// property of each character of `v` in `alpha`.
pub fn strip_echo_with(v: Vec<char>, prefix: &str, alpha: &Vec<bool>) -> (r: Vec<char>)
    requires
        alpha@.len() == v@.len(),
    ensures
        r@ == strip_echo_flags(v@, prefix@, alpha@),
{
    let p = chars_of(prefix);
    if p.len() > v.len() {
        return v;
    }
    let mut k: usize = 0;
    while k < p.len()
        invariant
            p@ == prefix@,
            p@.len() <= v@.len(),
            k <= p@.len(),
            forall|j: int| 0 <= j < k ==> v@[j] == p@[j],
        decreases p@.len() - k,
    {
        if v[k] != p[k] {
            assert(v@.take(p@.len() as int)[k as int] != p@[k as int]);
            return v;
        }
        k = k + 1;
    }
    assert(v@.take(p@.len() as int) =~= p@);
    let mut a = p.len();
    while a < v.len() && v[a] != '.' && !alpha[a]
        invariant
            p@.len() <= a <= v@.len(),
            p@ == prefix@,
            alpha@.len() == v@.len(),
            strip_noise_flags(v@.skip(p@.len() as int), alpha@.skip(p@.len() as int))
                == strip_noise_flags(v@.skip(a as int), alpha@.skip(a as int)),
        decreases v@.len() - a,
    {
        assert(v@.skip(a as int).drop_first() =~= v@.skip(a + 1));
        assert(alpha@.skip(a as int).drop_first() =~= alpha@.skip(a + 1));
        a = a + 1;
    }
    let mut rest: Vec<char> = Vec::new();
    let mut k2: usize = a;
    while k2 < v.len()
        invariant
            a <= k2 <= v@.len(),
            rest@ == v@.subrange(a as int, k2 as int),
        decreases v@.len() - k2,
    {
        rest.push(v[k2]);
        k2 = k2 + 1;
        assert(rest@ =~= v@.subrange(a as int, k2 as int));
    }
    assert(rest@ =~= v@.skip(a as int));
    trim_chars(&rest)
}

fn strip_echo_exec(v: Vec<char>, prefix: &str) -> (r: Vec<char>)
    ensures
        r@ == strip_echo(v@, prefix@),
{
    let mut alpha: Vec<bool> = Vec::new();
    let mut i: usize = 0;
    while i < v.len()
        invariant
            i <= v@.len(),
            alpha@.len() == i,
            forall|j: int| 0 <= j < i ==> alpha@[j] == alphabetic(#[trigger] v@[j]),
        decreases v@.len() - i,
    {
        alpha.push(is_alphabetic(v[i]));
        i = i + 1;
    }
    let ghost vv = v@;
    proof {
        let n = prefix@.len() as int;
        if has_prefix(vv, prefix@) {
            let (s1, f1) = (vv.skip(n), alpha@.skip(n));
            assert forall|j: int| 0 <= j < s1.len() implies f1[j] == alphabetic(#[trigger] s1[j]) by {
                assert(alpha@[j + n] == alphabetic(vv[j + n]));
            }
            lemma_strip_noise_flags(s1, f1);
        }
    }
    strip_echo_with(v, prefix, &alpha)
}

proof fn lemma_occurs_shift(t: Seq<char>, m: Seq<char>, j: int)
    requires
        t.len() > 0,
        j >= 0,
    ensures
        occurs_at(t, m, j + 1) <==> occurs_at(t.drop_first(), m, j),
        occurs_at(t, m, 0) <==> has_prefix(t, m),
{
    if j + 1 + m.len() <= t.len() {
        assert(t.subrange(j + 1, j + 1 + m.len()) =~= t.drop_first().subrange(j, j + m.len()));
    }
    if m.len() <= t.len() {
        assert(t.take(m.len() as int) =~= t.subrange(0, m.len() as int));
    }
}

proof fn lemma_find(t: Seq<char>, m: Seq<char>)
    requires
        m.len() > 0,
    ensures
        find(t, m) < 0 ==> !occurs(t, m),
        find(t, m) >= 0 ==> find(t, m) <= t.len() && forall|j: int| 0 <= j < find(t, m) ==> !occurs_at(t, m, j),
    decreases t.len(),
{
    if has_prefix(t, m) {
    } else if t.len() == 0 {
        if occurs(t, m) {
            let i = choose|i: int| occurs_at(t, m, i);
        }
    } else {
        let t1 = t.drop_first();
        lemma_find(t1, m);
        assert forall|j: int| j >= 0 implies (occurs_at(t, m, j + 1) <==> occurs_at(t1, m, j)) by {
            lemma_occurs_shift(t, m, j);
        }
        lemma_occurs_shift(t, m, 0);
        if find(t, m) < 0 && occurs(t, m) {
            let i = choose|i: int| occurs_at(t, m, i);
            assert(i >= 1);
            assert(occurs_at(t1, m, i - 1));
        }
        if find(t, m) >= 0 {
            assert forall|j: int| 0 <= j < find(t, m) implies !occurs_at(t, m, j) by {
                if j >= 1 {
                    assert(!occurs_at(t1, m, j - 1));
                }
            }
        }
    }
}

/// What precedes the first `m` holds no `m`, and is a piece of the text.
proof fn lemma_before(s: Seq<char>, m: Seq<char>)
    requires
        m.len() > 0,
    ensures
        !occurs(before(s, m), m),
        is_piece(before(s, m), s),
{
    lemma_find(s, m);
    let k = find(s, m);
    if k >= 0 {
        lemma_piece_skip(s, k);
        let b = s.take(k);
        if occurs(b, m) {
            let i = choose|i: int| occurs_at(b, m, i);
            assert(s.subrange(i, i + m.len()) =~= b.subrange(i, i + m.len()));
            assert(occurs_at(s, m, i));
        }
    } else {
        lemma_piece_skip(s, 0);
    }
}

proof fn lemma_strip_noise_piece(s: Seq<char>)
    ensures
        is_piece(strip_noise(s), s),
    decreases s.len(),
{
    lemma_piece_skip(s, 0);
    if s.len() > 0 && s[0] != '.' && !alphabetic(s[0]) {
        lemma_strip_noise_piece(s.drop_first());
        lemma_piece_skip(s, 1);
        assert(s.drop_first() =~= s.skip(1));
        lemma_piece_trans(strip_noise(s.drop_first()), s.drop_first(), s);
    }
}

proof fn lemma_strip_echo_piece(s: Seq<char>, prefix: Seq<char>)
    ensures
        is_piece(strip_echo(s, prefix), s),
{
    lemma_piece_skip(s, 0);
    if has_prefix(s, prefix) {
        let t = s.skip(prefix.len() as int);
        lemma_piece_skip(s, prefix.len() as int);
        lemma_strip_noise_piece(t);
        lemma_trim_piece(strip_noise(t));
        lemma_piece_trans(strip_noise(t), t, s);
        lemma_piece_trans(trim(strip_noise(t)), strip_noise(t), s);
    }
}

proof fn lemma_echo_free(x: Seq<char>, prefix: Seq<char>, m: Seq<char>)
    requires
        !occurs(x, m),
    ensures
        !occurs(strip_echo(x, prefix), m),
{
    lemma_strip_echo_piece(x, prefix);
    lemma_piece_free(strip_echo(x, prefix), x, m);
}

proof fn lemma_trim_free(x: Seq<char>, m: Seq<char>)
    requires
        !occurs(x, m),
    ensures
        !occurs(trim(x), m),
{
    lemma_trim_piece(x);
    lemma_piece_free(trim(x), x, m);
}

proof fn lemma_before_free(x: Seq<char>, sep: Seq<char>, m: Seq<char>)
    requires
        !occurs(x, m),
        sep.len() > 0,
    ensures
        !occurs(before(x, sep), m),
{
    lemma_before(x, sep);
    lemma_piece_free(before(x, sep), x, m);
}

proof fn lemma_marker_shape()
    ensures
        end_marker().len() > 0,
        forall|j: int| 0 <= j < end_marker().len() ==> !is_ws(#[trigger] end_marker()[j]),
        "\n"@.len() > 0,
{
    reveal_strlit("<|im_end|>");
    reveal_strlit("\n");
}

/// A cleaned answer never holds the end-of-turn marker.
pub proof fn lemma_clean_no_marker(s: Seq<char>)
    ensures
        !occurs(clean_spec(s), end_marker()),
{
    let mk = end_marker();
    lemma_marker_shape();
    lemma_before(s, mk);
    let a = trim(before(s, mk));
    lemma_trim_free(before(s, mk), mk);
    lemma_before_free(a, "\n"@, mk);
    let b = trim(before(a, "\n"@));
    lemma_trim_free(before(a, "\n"@), mk);
    let e1 = strip_echo(b, "Project:"@);
    lemma_echo_free(b, "Project:"@, mk);
    let e2 = strip_echo(e1, "Part:"@);
    lemma_echo_free(e1, "Part:"@, mk);
    let e3 = strip_echo(e2, "Why:"@);
    lemma_echo_free(e2, "Why:"@, mk);
    let e4 = strip_echo(e3, "Answer:"@);
    lemma_echo_free(e3, "Answer:"@, mk);
    lemma_collapse_no_new(e4, mk);
}

/// Trim the model output to one clean sentence, dropping any prompt echo
/// (a small model sometimes restates the `Project:`/`Part:` context).
pub fn clean(s: &str) -> (r: String)
    ensures
        r@ == clean_spec(s@),
        single_spaced(r@),
        !r@.contains('\n'),
        !occurs(r@, end_marker()),
{
    proof {
        lemma_collapse_single_spaced(
            strip_echo(
                strip_echo(
                    strip_echo(
                        strip_echo(trim(before(trim(before(s@, "<|im_end|>"@)), "\n"@)), "Project:"@),
                        "Part:"@,
                    ),
                    "Why:"@,
                ),
                "Answer:"@,
            ),
        );
    }
    proof {
        lemma_clean_no_marker(s@);
    }
    let v = chars_of(s);
    let a = trim_chars(&before_exec(&v, "<|im_end|>"));
    let b = trim_chars(&before_exec(&a, "\n"));
    let b = strip_echo_exec(b, "Project:");
    let b = strip_echo_exec(b, "Part:");
    let b = strip_echo_exec(b, "Why:");
    let b = strip_echo_exec(b, "Answer:");
    let r = string_of(&collapse_chars(&b));
    proof {
        if r@.contains('\n') {
            let i = choose|i: int| 0 <= i < r@.len() && r@[i] == '\n';
            assert(is_ws(r@[i]));
        }
    }
    r
}

// ---------------------------------------------------------------------------
// Decoding: what follows each token the model produces.
// ---------------------------------------------------------------------------

/// The end-of-turn marker of the chat template.
pub open spec fn end_marker() -> Seq<char> {
    "<|im_end|>"@
}

/// What the model produced at one step of greedy decoding.
pub enum Produced {
    /// An end-of-generation token.
    End,
    /// A token, as the text it stands for.
    Piece(String),
}

/// The answer decoded so far, the position of the next token, and the last
/// position decoding may reach.
pub struct Decoding {
    pub answer: String,
    pub pos: i32,
    pub limit: i32,
}

/// After a step: stop, or feed the sampled token back at this position and go on
/// while the position stays under the limit.
#[derive(PartialEq, Eq, Structural)]
pub enum Step {
    Stop,
    Feed(i32),
}

/// One step of decoding: an end-of-generation token stops it; a piece is added
/// to the answer, which stops it once the answer holds the end-of-turn marker,
/// and otherwise the token is fed back at the current position.
pub fn decode_step(st: &mut Decoding, p: Produced) -> (r: Step)
    requires
        old(st).pos < old(st).limit,
    ensures
        match p {
            Produced::End => r == Step::Stop && *final(st) == *old(st),
            Produced::Piece(t) => {
                &&& final(st).answer@ == old(st).answer@ + t@
                &&& final(st).limit == old(st).limit
                &&& if find(final(st).answer@, end_marker()) >= 0 {
                    r == Step::Stop && final(st).pos == old(st).pos
                } else {
                    r == Step::Feed(old(st).pos) && final(st).pos == old(st).pos + 1
                }
            },
        },
{
    match p {
        Produced::End => Step::Stop,
        Produced::Piece(t) => {
            push_str(&mut st.answer, t.as_str());
            let v = chars_of(st.answer.as_str());
            let m = chars_of("<|im_end|>");
            if find_exec(&v, &m).is_some() {
                Step::Stop
            } else {
                let pos = st.pos;
                st.pos = pos + 1;
                Step::Feed(pos)
            }
        },
    }
}

/// A component enrichment may fill: written as a table, with a non-empty
/// summary and no why.
pub open spec fn fillable(tables: Seq<Seq<char>>, id: Seq<char>, c: JVal) -> bool {
    tables.contains(id) && c is Object && str_or_empty(c.get_str("summary"@)).len() > 0 && str_or_empty(
        c.get_str("why"@),
    ).len() == 0
}

/// `t` names a fillable component of `ms` and carries its summary.
pub open spec fn names_blank(ms: Seq<(Seq<char>, JVal)>, tables: Seq<Seq<char>>, t: (Seq<char>, Seq<char>, Seq<char>)) -> bool {
    exists|j: int|
        0 <= j < ms.len() && (#[trigger] ms[j]).0 == t.0 && fillable(tables, ms[j].0, ms[j].1) && str_or_empty(
            ms[j].1.get_str("summary"@),
        ) == t.2
}

pub open spec fn count_fillable(ms: Seq<(Seq<char>, JVal)>, tables: Seq<Seq<char>>) -> nat
    decreases ms.len(),
{
    if ms.len() == 0 {
        0
    } else {
        count_fillable(ms.drop_last(), tables) + if fillable(tables, ms.last().0, ms.last().1) {
            1nat
        } else {
            0nat
        }
    }
}

/// Enrichment only ever fills blanks: each target it returns is a component
/// written as a table that has a summary and no why, with that summary; and
/// there is one target for each such component.
pub proof fn lemma_only_blanks(doc: JVal, tables: Seq<Seq<char>>)
    ensures
        forall|i: int|
            0 <= i < empty_why_spec(doc, tables).len() ==> names_blank(
                doc.members("components"@),
                tables,
                #[trigger] empty_why_spec(doc, tables)[i],
            ),
        empty_why_spec(doc, tables).len() == count_fillable(doc.members("components"@), tables),
{
    lemma_blanks_fold(doc.members("components"@), tables);
}

proof fn lemma_blanks_fold(ms: Seq<(Seq<char>, JVal)>, tables: Seq<Seq<char>>)
    ensures
        ({
            let r = ms.fold_left(
                Seq::<(Seq<char>, Seq<char>, Seq<char>)>::empty(),
                |acc: Seq<(Seq<char>, Seq<char>, Seq<char>)>, m: (Seq<char>, JVal)| acc + why_target_in(tables, m.0, m.1),
            );
            &&& r.len() == count_fillable(ms, tables)
            &&& forall|i: int| 0 <= i < r.len() ==> names_blank(ms, tables, #[trigger] r[i])
        }),
    decreases ms.len(),
{
    if ms.len() > 0 {
        let pre = ms.drop_last();
        lemma_blanks_fold(pre, tables);
        let f = |acc: Seq<(Seq<char>, Seq<char>, Seq<char>)>, m: (Seq<char>, JVal)| acc + why_target_in(tables, m.0, m.1);
        let r0 = pre.fold_left(Seq::<(Seq<char>, Seq<char>, Seq<char>)>::empty(), f);
        let w = why_target_in(tables, ms.last().0, ms.last().1);
        let r = r0 + w;
        assert(ms.fold_left(Seq::<(Seq<char>, Seq<char>, Seq<char>)>::empty(), f) == r);
        assert forall|i: int| 0 <= i < r.len() implies names_blank(ms, tables, #[trigger] r[i]) by {
            if i < r0.len() {
                assert(r[i] == r0[i]);
                assert(names_blank(pre, tables, r0[i]));
                let j = choose|j: int|
                    0 <= j < pre.len() && (#[trigger] pre[j]).0 == r0[i].0 && fillable(tables, pre[j].0, pre[j].1)
                        && str_or_empty(pre[j].1.get_str("summary"@)) == r0[i].2;
                assert(ms[j] == pre[j]);
            } else {
                assert(ms[ms.len() - 1] == ms.last());
            }
        }
    }
}

} // verus!
