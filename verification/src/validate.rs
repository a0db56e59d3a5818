//! Governance: a resolved genome checked against the grammar it declares.
//! Integrity (no dangling links, no unknown enumerated values), honesty (no
//! semantic field without provenance), the architecture dependency rule, and
//! question/approval targets that resolve.
use vstd::prelude::*;
use crate::json::{JVal, Json, keys_of, members_view, items_view, has_key, mget, lemma_key_index, find_key, lit};
use crate::resolve::{strings_view, keys_in};
use crate::text::{push_str, str_eq};

verus! {

#[derive(Debug, PartialEq, Eq, Structural, Clone, Copy)]
pub enum Severity {
    Error,
    Warn,
}

/// One finding: the rule it breaks, how serious it is, and what was found.
#[derive(Debug)]
pub struct Issue {
    pub rule: String,
    pub severity: Severity,
    pub message: String,
}

/// The model of an issue.
pub struct IssueV {
    pub rule: Seq<char>,
    pub severity: Severity,
    pub message: Seq<char>,
}

impl View for Issue {
    type V = IssueV;

    open spec fn view(&self) -> IssueV {
        IssueV { rule: self.rule@, severity: self.severity, message: self.message@ }
    }
}

pub open spec fn issues_view(v: Seq<Issue>) -> Seq<IssueV> {
    v.map_values(|i: Issue| i@)
}

pub open spec fn error_of(rule: Seq<char>, message: Seq<char>) -> IssueV {
    IssueV { rule, severity: Severity::Error, message }
}

pub open spec fn warn_of(rule: Seq<char>, message: Seq<char>) -> IssueV {
    IssueV { rule, severity: Severity::Warn, message }
}

/// `s` in double quotes.
pub open spec fn quoted(s: Seq<char>) -> Seq<char> {
    "\""@ + s + "\""@
}

impl Issue {
    pub fn error(rule: &str, message: String) -> (r: Issue)
        ensures
            r@ == error_of(rule@, message@),
    {
        Issue { rule: lit(rule), severity: Severity::Error, message }
    }

    pub fn warn(rule: &str, message: String) -> (r: Issue)
        ensures
            r@ == warn_of(rule@, message@),
    {
        Issue { rule: lit(rule), severity: Severity::Warn, message }
    }

    /// The issue as one report line: `error [rule] message` or `warn [rule] message`.
    pub fn to_line(&self) -> (r: String)
        ensures
            r@ == (match self.severity {
                Severity::Error => "error"@,
                Severity::Warn => "warn"@,
            }) + " ["@ + self.rule@ + "] "@ + self.message@,
    {
        let mut s = String::new();
        match self.severity {
            Severity::Error => push_str(&mut s, "error"),
            Severity::Warn => push_str(&mut s, "warn"),
        }
        push_str(&mut s, " [");
        push_str(&mut s, self.rule.as_str());
        push_str(&mut s, "] ");
        push_str(&mut s, self.message.as_str());
        s
    }
}

/// Appends `more` to `out`.
pub fn append_issues(out: &mut Vec<Issue>, more: Vec<Issue>)
    ensures
        issues_view(final(out)@) == issues_view(old(out)@) + issues_view(more@),
{
    let ghost a = out@;
    let mut more = more;
    let ghost b = more@;
    out.append(&mut more);
    assert(issues_view(out@) =~= issues_view(a) + issues_view(b));
}

// ---------------------------------------------------------------------------
// Messages.
// ---------------------------------------------------------------------------

pub open spec fn link_msg(end: Seq<char>, id: Seq<char>) -> Seq<char> {
    "link "@ + end + "="@ + quoted(id) + " does not resolve to a component"@
}

pub open spec fn warn_msg(id: Seq<char>, field: Seq<char>) -> Seq<char> {
    "component "@ + quoted(id) + ": "@ + quoted(field) + " present but the node declares no provenance"@
}

pub open spec fn honesty_msg(id: Seq<char>, field: Seq<char>) -> Seq<char> {
    "component "@ + quoted(id) + ": semantic field "@ + quoted(field) + " has no provenance"@
}

pub open spec fn dep_msg(f: Seq<char>, rel: Seq<char>, t: Seq<char>, tl: Seq<char>) -> Seq<char> {
    quoted(f) + " (execution) must not "@ + rel + " "@ + quoted(t) + " ("@ + tl
        + ") — core stays independent"@
}

pub open spec fn component_ctx(id: Seq<char>) -> Seq<char> {
    "component "@ + quoted(id)
}

pub open spec fn enum_msg(ctx: Seq<char>, en: Seq<char>, v: Seq<char>) -> Seq<char> {
    ctx + ": unknown "@ + en + " "@ + quoted(v)
}

pub open spec fn target_msg(kind: Seq<char>, id: Seq<char>, t: Seq<char>) -> Seq<char> {
    kind + " "@ + quoted(id) + ": target "@ + quoted(t) + " does not resolve to a component"@
}

fn push_quoted(s: &mut String, x: &str)
    ensures
        final(s)@ == old(s)@ + quoted(x@),
{
    push_str(s, "\"");
    push_str(s, x);
    push_str(s, "\"");
    assert(s@ =~= old(s)@ + quoted(x@));
}

// ---------------------------------------------------------------------------
// What each check finds.
// ---------------------------------------------------------------------------

/// The ids of the resolved components, in order.
pub open spec fn comp_ids(e: JVal) -> Seq<Seq<char>> {
    keys_of(e.members("components"@))
}

pub open spec fn end_issues(ids: Seq<Seq<char>>, link: JVal, end: Seq<char>) -> Seq<IssueV> {
    match link.get_str(end) {
        Some(id) => if ids.contains(id) {
            Seq::empty()
        } else {
            seq![error_of("forbid_dangling_links"@, link_msg(end, id))]
        },
        None => Seq::empty(),
    }
}

pub open spec fn links_issues(ids: Seq<Seq<char>>, links: Seq<JVal>) -> Seq<IssueV> {
    links.fold_left(
        Seq::<IssueV>::empty(),
        |acc: Seq<IssueV>, l: JVal| acc + end_issues(ids, l, "from"@) + end_issues(ids, l, "to"@),
    )
}

/// Every link end (`from`, then `to`) that names no component, in link order.
pub open spec fn link_findings(e: JVal) -> Seq<IssueV> {
    links_issues(comp_ids(e), e.items("links"@))
}

/// `field` holds a non-empty string.
pub open spec fn present(c: JVal, field: Seq<char>) -> bool {
    match c.get_str(field) {
        Some(s) => s.len() > 0,
        None => false,
    }
}

pub open spec fn field_honesty(id: Seq<char>, c: JVal, field: Seq<char>) -> Seq<IssueV> {
    match c.get_object("provenance"@) {
        None => if present(c, field) {
            seq![warn_of("require_provenance_on_semantic"@, warn_msg(id, field))]
        } else {
            Seq::empty()
        },
        Some(p) => if present(c, field) && !has_key(p, field) {
            seq![error_of("require_provenance_on_semantic"@, honesty_msg(id, field))]
        } else {
            Seq::empty()
        },
    }
}

pub open spec fn comp_honesty(id: Seq<char>, c: JVal) -> Seq<IssueV> {
    field_honesty(id, c, "summary"@) + field_honesty(id, c, "why"@)
}

/// For each component, in order: a present `summary`/`why` without a provenance
/// entry is an error; where the component has no provenance table at all, a
/// warning.
pub open spec fn honesty_findings(e: JVal) -> Seq<IssueV> {
    e.members("components"@).fold_left(
        Seq::<IssueV>::empty(),
        |acc: Seq<IssueV>, m: (Seq<char>, JVal)| acc + comp_honesty(m.0, m.1),
    )
}

pub open spec fn str_or_empty(v: Option<Seq<char>>) -> Seq<char> {
    match v {
        Some(s) => s,
        None => Seq::empty(),
    }
}

/// The layer a component declares ("" when it declares none).
pub open spec fn layer_of(comps: Seq<(Seq<char>, JVal)>, id: Seq<char>) -> Seq<char> {
    match mget(comps, id) {
        Some(c) => str_or_empty(c.get_str("layer"@)),
        None => Seq::empty(),
    }
}

pub open spec fn link_dep(comps: Seq<(Seq<char>, JVal)>, link: JVal) -> Seq<IssueV> {
    let rel = str_or_empty(link.get_str("relation"@));
    if rel != "depends_on"@ && rel != "calls"@ {
        Seq::empty()
    } else {
        match (link.get_str("from"@), link.get_str("to"@)) {
            (Some(f), Some(t)) => {
                let fl = layer_of(comps, f);
                let tl = layer_of(comps, t);
                if fl == "execution"@ && (tl == "persistence"@ || tl == "surface"@) {
                    seq![error_of("enforce_layer_dependency_rule"@, dep_msg(f, rel, t, tl))]
                } else {
                    Seq::empty()
                }
            },
            _ => Seq::empty(),
        }
    }
}

/// The genome's declared dependency rule.
pub open spec fn dependency_rule(e: JVal) -> Option<Seq<char>> {
    match e.get("architecture"@) {
        Some(a) => a.get_str("dependency_rule"@),
        None => None,
    }
}

/// Under the `core-independent` rule, each `depends_on`/`calls` link from an
/// execution-layer component to a persistence- or surface-layer one; nothing
/// under any other rule.
pub open spec fn dependency_findings(e: JVal) -> Seq<IssueV> {
    if dependency_rule(e) == Some("core-independent"@) {
        let comps = e.members("components"@);
        e.items("links"@).fold_left(
            Seq::<IssueV>::empty(),
            |acc: Seq<IssueV>, l: JVal| acc + link_dep(comps, l),
        )
    } else {
        Seq::empty()
    }
}

/// `v` is listed among the known values of enumeration `en`.
pub open spec fn enum_known(enums: JVal, en: Seq<char>, v: Seq<char>) -> bool {
    exists|i: int| 0 <= i < enums.items(en).len() && #[trigger] enums.items(en)[i] == JVal::Str(v)
}

pub open spec fn check_value(enums: JVal, val: Option<Seq<char>>, en: Seq<char>, ctx: Seq<char>) -> Seq<IssueV> {
    match val {
        Some(v) => if enum_known(enums, en, v) {
            Seq::empty()
        } else {
            seq![error_of("require_known_enums"@, enum_msg(ctx, en, v))]
        },
        None => Seq::empty(),
    }
}

pub open spec fn sub_str(v: Option<JVal>, key: Seq<char>) -> Option<Seq<char>> {
    match v {
        Some(p) => p.get_str(key),
        None => None,
    }
}

pub open spec fn project_enum_findings(e: JVal, enums: JVal) -> Seq<IssueV> {
    let p = e.get("project"@);
    check_value(enums, sub_str(p, "domain"@), "domain"@, "project.domain"@) + check_value(
        enums,
        sub_str(p, "status"@),
        "status"@,
        "project.status"@,
    ) + check_value(enums, sub_str(p, "source"@), "source"@, "project.source"@)
}

pub open spec fn component_enum_findings(e: JVal, enums: JVal) -> Seq<IssueV> {
    e.members("components"@).fold_left(
        Seq::<IssueV>::empty(),
        |acc: Seq<IssueV>, m: (Seq<char>, JVal)|
            acc + check_value(enums, m.1.get_str("status"@), "status"@, component_ctx(m.0)),
    )
}

pub open spec fn link_enum_findings(e: JVal, enums: JVal) -> Seq<IssueV> {
    e.items("links"@).fold_left(
        Seq::<IssueV>::empty(),
        |acc: Seq<IssueV>, l: JVal|
            acc + check_value(enums, l.get_str("relation"@), "relation"@, "link.relation"@)
                + check_value(enums, sub_str(l.get("provenance"@), "by"@), "by"@, "link.provenance.by"@),
    )
}

pub open spec fn lifecycle_enum_findings(e: JVal, enums: JVal) -> Seq<IssueV> {
    e.items("lifecycle"@).fold_left(
        Seq::<IssueV>::empty(),
        |acc: Seq<IssueV>, it: JVal|
            acc + check_value(enums, it.get_str("kind"@), "item_kind"@, "lifecycle.kind"@)
                + check_value(enums, it.get_str("status"@), "status"@, "lifecycle.status"@),
    )
}

/// Every enumerated field that holds a value the schema does not list: project
/// domain/status/source, each component's status, each link's relation and
/// provenance author, each lifecycle item's kind and status, in that order.
pub open spec fn enum_findings(e: JVal, enums: JVal) -> Seq<IssueV> {
    project_enum_findings(e, enums) + component_enum_findings(e, enums) + link_enum_findings(e, enums)
        + lifecycle_enum_findings(e, enums)
}

pub open spec fn id_or_unknown(item: JVal) -> Seq<char> {
    match item.get_str("id"@) {
        Some(i) => i,
        None => "?"@,
    }
}

pub open spec fn target_issue(item: JVal, kind: Seq<char>, ids: Seq<Seq<char>>) -> Seq<IssueV> {
    match item.get_str("target"@) {
        Some(t) => if t != "*"@ && !ids.contains(t) {
            seq![error_of("resolve_facet_targets"@, target_msg(kind, id_or_unknown(item), t))]
        } else {
            Seq::empty()
        },
        None => Seq::empty(),
    }
}

/// Each item whose `target` is neither `*` nor one of `ids`, in order.
pub open spec fn target_findings(items: Seq<JVal>, kind: Seq<char>, ids: Seq<Seq<char>>) -> Seq<IssueV> {
    items.fold_left(
        Seq::<IssueV>::empty(),
        |acc: Seq<IssueV>, it: JVal| acc + target_issue(it, kind, ids),
    )
}

// ---------------------------------------------------------------------------
// The checks.
// ---------------------------------------------------------------------------

/// `s` is one of `v`.
pub fn contains_str(v: &Vec<String>, s: &str) -> (r: bool)
    ensures
        r == strings_view(v@).contains(s@),
{
    let mut i: usize = 0;
    while i < v.len()
        invariant
            i <= v@.len(),
            forall|j: int| 0 <= j < i ==> v@[j]@ != s@,
        decreases v@.len() - i,
    {
        if str_eq(v[i].as_str(), s) {
            assert(strings_view(v@)[i as int] == s@);
            return true;
        }
        i = i + 1;
    }
    proof {
        if strings_view(v@).contains(s@) {
            let k = choose|k: int| 0 <= k < strings_view(v@).len() && strings_view(v@)[k] == s@;
            assert(v@[k]@ == s@);
        }
    }
    false
}

/// The ids of the resolved components, in order.
pub fn component_ids(embed: &Json) -> (r: Vec<String>)
    ensures
        strings_view(r@) == comp_ids(embed@),
{
    let m = crate::json::members_of(embed, "components");
    keys_in(&m)
}

fn one(i: Issue) -> (r: Vec<Issue>)
    ensures
        issues_view(r@) == seq![i@],
{
    let mut v: Vec<Issue> = Vec::new();
    v.push(i);
    assert(issues_view(v@) =~= seq![i@]);
    v
}

fn none() -> (r: Vec<Issue>)
    ensures
        issues_view(r@) == Seq::<IssueV>::empty(),
{
    let v: Vec<Issue> = Vec::new();
    assert(issues_view(v@) =~= Seq::<IssueV>::empty());
    v
}

fn end_issues_exec(ids: &Vec<String>, link: &Json, end: &str) -> (r: Vec<Issue>)
    ensures
        issues_view(r@) == end_issues(strings_view(ids@), link@, end@),
{
    match link.get_str(end) {
        Some(id) => {
            if contains_str(ids, id.as_str()) {
                none()
            } else {
                let mut m = String::new();
                push_str(&mut m, "link ");
                push_str(&mut m, end);
                push_str(&mut m, "=");
                push_quoted(&mut m, id.as_str());
                push_str(&mut m, " does not resolve to a component");
                assert(m@ =~= link_msg(end@, id@));
                one(Issue::error("forbid_dangling_links", m))
            }
        },
        None => none(),
    }
}

/// Every link's `from`/`to` must resolve to a known component.
pub fn check_links(embed: &Json) -> (r: Vec<Issue>)
    ensures
        issues_view(r@) == link_findings(embed@),
{
    let ids = component_ids(embed);
    let links = crate::json::items_of(embed, "links");
    let ghost idv = strings_view(ids@);
    let ghost lv = items_view(links@);
    let mut out: Vec<Issue> = Vec::new();
    let mut i: usize = 0;
    proof {
        assert(issues_view(out@) =~= links_issues(idv, lv.take(0)));
    }
    while i < links.len()
        invariant
            i <= links@.len(),
            idv == strings_view(ids@),
            lv == items_view(links@),
            issues_view(out@) == links_issues(idv, lv.take(i as int)),
        decreases links@.len() - i,
    {
        proof {
            assert(lv.take(i + 1).drop_last() =~= lv.take(i as int));
        }
        let a = end_issues_exec(&ids, &links[i], "from");
        append_issues(&mut out, a);
        let b = end_issues_exec(&ids, &links[i], "to");
        append_issues(&mut out, b);
        i = i + 1;
    }
    assert(lv.take(i as int) =~= lv);
    out
}

fn present_exec(c: &Json, field: &str) -> (r: bool)
    ensures
        r == present(c@, field@),
{
    match c.get_str(field) {
        Some(s) => !s.as_str().is_empty(),
        None => false,
    }
}

fn field_honesty_exec(id: &str, c: &Json, field: &str) -> (r: Vec<Issue>)
    ensures
        issues_view(r@) == field_honesty(id@, c@, field@),
{
    match c.get_object("provenance") {
        None => {
            if present_exec(c, field) {
                let mut m = String::new();
                push_str(&mut m, "component ");
                push_quoted(&mut m, id);
                push_str(&mut m, ": ");
                push_quoted(&mut m, field);
                push_str(&mut m, " present but the node declares no provenance");
                assert(m@ =~= warn_msg(id@, field@));
                one(Issue::warn("require_provenance_on_semantic", m))
            } else {
                none()
            }
        },
        Some(p) => {
            proof {
                lemma_key_index(members_view(p@), field@);
            }
            if present_exec(c, field) && find_key(p, field).is_none() {
                let mut m = String::new();
                push_str(&mut m, "component ");
                push_quoted(&mut m, id);
                push_str(&mut m, ": semantic field ");
                push_quoted(&mut m, field);
                push_str(&mut m, " has no provenance");
                assert(m@ =~= honesty_msg(id@, field@));
                one(Issue::error("require_provenance_on_semantic", m))
            } else {
                none()
            }
        },
    }
}

/// A semantic field that is present must carry a provenance entry; a component
/// with no provenance table at all draws a warning instead.
pub fn check_honesty(embed: &Json) -> (r: Vec<Issue>)
    ensures
        issues_view(r@) == honesty_findings(embed@),
{
    let comps = crate::json::members_of(embed, "components");
    let ghost cv = members_view(comps@);
    let mut out: Vec<Issue> = Vec::new();
    let mut i: usize = 0;
    proof {
        assert(issues_view(out@) =~= cv.take(0).fold_left(
            Seq::<IssueV>::empty(),
            |acc: Seq<IssueV>, m: (Seq<char>, JVal)| acc + comp_honesty(m.0, m.1),
        ));
    }
    while i < comps.len()
        invariant
            i <= comps@.len(),
            cv == members_view(comps@),
            issues_view(out@) == cv.take(i as int).fold_left(
                Seq::<IssueV>::empty(),
                |acc: Seq<IssueV>, m: (Seq<char>, JVal)| acc + comp_honesty(m.0, m.1),
            ),
        decreases comps@.len() - i,
    {
        proof {
            assert(cv.take(i + 1).drop_last() =~= cv.take(i as int));
        }
        let a = field_honesty_exec(comps[i].0.as_str(), &comps[i].1, "summary");
        append_issues(&mut out, a);
        let b = field_honesty_exec(comps[i].0.as_str(), &comps[i].1, "why");
        append_issues(&mut out, b);
        i = i + 1;
    }
    assert(cv.take(i as int) =~= cv);
    out
}

fn str_or_empty_exec(v: Option<&String>) -> (r: String)
    ensures
        r@ == str_or_empty(match v {
            Some(s) => Some(s@),
            None => None,
        }),
{
    match v {
        Some(s) => s.clone(),
        None => String::new(),
    }
}

fn layer_of_exec(comps: &Vec<(String, Json)>, id: &str) -> (r: String)
    ensures
        r@ == layer_of(members_view(comps@), id@),
{
    proof {
        lemma_key_index(members_view(comps@), id@);
    }
    match find_key(comps, id) {
        Some(i) => str_or_empty_exec(comps[i].1.get_str("layer")),
        None => String::new(),
    }
}

fn link_dep_exec(comps: &Vec<(String, Json)>, link: &Json) -> (r: Vec<Issue>)
    ensures
        issues_view(r@) == link_dep(members_view(comps@), link@),
{
    let rel = str_or_empty_exec(link.get_str("relation"));
    if !str_eq(rel.as_str(), "depends_on") && !str_eq(rel.as_str(), "calls") {
        return none();
    }
    match (link.get_str("from"), link.get_str("to")) {
        (Some(f), Some(t)) => {
            let fl = layer_of_exec(comps, f.as_str());
            let tl = layer_of_exec(comps, t.as_str());
            if str_eq(fl.as_str(), "execution") && (str_eq(tl.as_str(), "persistence") || str_eq(
                tl.as_str(),
                "surface",
            )) {
                let mut m = String::new();
                push_quoted(&mut m, f.as_str());
                push_str(&mut m, " (execution) must not ");
                push_str(&mut m, rel.as_str());
                push_str(&mut m, " ");
                push_quoted(&mut m, t.as_str());
                push_str(&mut m, " (");
                push_str(&mut m, tl.as_str());
                push_str(&mut m, ") — core stays independent");
                assert(m@ =~= dep_msg(f@, rel@, t@, tl@));
                one(Issue::error("enforce_layer_dependency_rule", m))
            } else {
                none()
            }
        },
        _ => none(),
    }
}

/// Under the `core-independent` rule, the execution core must not depend
/// outward (on persistence or surface).
pub fn check_dependency_rule(embed: &Json) -> (r: Vec<Issue>)
    ensures
        issues_view(r@) == dependency_findings(embed@),
{
    let rule = match embed.get("architecture") {
        Some(a) => a.get_str("dependency_rule"),
        None => None,
    };
    let core = match rule {
        Some(x) => str_eq(x.as_str(), "core-independent"),
        None => false,
    };
    if !core {
        return none();
    }
    let comps = crate::json::members_of(embed, "components");
    let links = crate::json::items_of(embed, "links");
    let ghost cv = members_view(comps@);
    let ghost lv = items_view(links@);
    let mut out: Vec<Issue> = Vec::new();
    let mut i: usize = 0;
    proof {
        assert(issues_view(out@) =~= lv.take(0).fold_left(
            Seq::<IssueV>::empty(),
            |acc: Seq<IssueV>, l: JVal| acc + link_dep(cv, l),
        ));
    }
    while i < links.len()
        invariant
            i <= links@.len(),
            cv == members_view(comps@),
            lv == items_view(links@),
            issues_view(out@) == lv.take(i as int).fold_left(
                Seq::<IssueV>::empty(),
                |acc: Seq<IssueV>, l: JVal| acc + link_dep(cv, l),
            ),
        decreases links@.len() - i,
    {
        proof {
            assert(lv.take(i + 1).drop_last() =~= lv.take(i as int));
        }
        let a = link_dep_exec(&comps, &links[i]);
        append_issues(&mut out, a);
        i = i + 1;
    }
    assert(lv.take(i as int) =~= lv);
    out
}

fn enum_known_exec(enums: &Json, en: &str, v: &str) -> (r: bool)
    ensures
        r == enum_known(enums@, en@, v@),
{
    let a = crate::json::items_of(enums, en);
    let ghost av = items_view(a@);
    let mut i: usize = 0;
    while i < a.len()
        invariant
            i <= a@.len(),
            av == items_view(a@),
            av == enums@.items(en@),
            forall|j: int| 0 <= j < i ==> av[j] != JVal::Str(v@),
        decreases a@.len() - i,
    {
        match a[i].as_str() {
            Some(x) => {
                if str_eq(x.as_str(), v) {
                    assert(av[i as int] == JVal::Str(v@));
                    return true;
                }
            },
            None => {},
        }
        i = i + 1;
    }
    false
}

fn check_value_exec(enums: &Json, val: Option<&String>, en: &str, ctx: &str) -> (r: Vec<Issue>)
    ensures
        issues_view(r@) == check_value(
            enums@,
            match val {
                Some(s) => Some(s@),
                None => None,
            },
            en@,
            ctx@,
        ),
{
    match val {
        Some(v) => {
            if enum_known_exec(enums, en, v.as_str()) {
                none()
            } else {
                let mut m = String::new();
                push_str(&mut m, ctx);
                push_str(&mut m, ": unknown ");
                push_str(&mut m, en);
                push_str(&mut m, " ");
                push_quoted(&mut m, v.as_str());
                assert(m@ =~= enum_msg(ctx@, en@, v@));
                one(Issue::error("require_known_enums", m))
            }
        },
        None => none(),
    }
}

fn sub_str_exec<'a>(v: Option<&'a Json>, key: &str) -> (r: Option<&'a String>)
    ensures
        match r {
            Some(s) => sub_str(
                match v {
                    Some(p) => Some(p@),
                    None => None,
                },
                key@,
            ) == Some(s@),
            None => sub_str(
                match v {
                    Some(p) => Some(p@),
                    None => None,
                },
                key@,
            ) is None,
        },
{
    match v {
        Some(p) => p.get_str(key),
        None => None,
    }
}

/// Enumerated fields must use known values (status / relation / by / kind / …).
pub fn check_enums(embed: &Json, enums: &Json) -> (r: Vec<Issue>)
    ensures
        issues_view(r@) == enum_findings(embed@, enums@),
{
    let mut out: Vec<Issue> = Vec::new();
    let p = embed.get("project");
    append_issues(&mut out, check_value_exec(enums, sub_str_exec(p, "domain"), "domain", "project.domain"));
    append_issues(&mut out, check_value_exec(enums, sub_str_exec(p, "status"), "status", "project.status"));
    append_issues(&mut out, check_value_exec(enums, sub_str_exec(p, "source"), "source", "project.source"));
    assert(issues_view(out@) =~= project_enum_findings(embed@, enums@));
    let ghost after_project = issues_view(out@);
    // components
    let comps = crate::json::members_of(embed, "components");
    let ghost cv = members_view(comps@);
    let mut i: usize = 0;
    proof {
        assert(component_enum_findings(embed@, enums@) == cv.fold_left(
            Seq::<IssueV>::empty(),
            |acc: Seq<IssueV>, m: (Seq<char>, JVal)|
                acc + check_value(enums@, m.1.get_str("status"@), "status"@, component_ctx(m.0)),
        ));
        assert(issues_view(out@) =~= after_project + cv.take(0).fold_left(
            Seq::<IssueV>::empty(),
            |acc: Seq<IssueV>, m: (Seq<char>, JVal)|
                acc + check_value(enums@, m.1.get_str("status"@), "status"@, component_ctx(m.0)),
        ));
    }
    while i < comps.len()
        invariant
            i <= comps@.len(),
            cv == members_view(comps@),
            issues_view(out@) == after_project + cv.take(i as int).fold_left(
                Seq::<IssueV>::empty(),
                |acc: Seq<IssueV>, m: (Seq<char>, JVal)|
                    acc + check_value(enums@, m.1.get_str("status"@), "status"@, component_ctx(m.0)),
            ),
        decreases comps@.len() - i,
    {
        proof {
            assert(cv.take(i + 1).drop_last() =~= cv.take(i as int));
        }
        let mut ctx = String::new();
        push_str(&mut ctx, "component ");
        push_quoted(&mut ctx, comps[i].0.as_str());
        assert(ctx@ =~= component_ctx(cv[i as int].0));
        let a = check_value_exec(enums, comps[i].1.get_str("status"), "status", ctx.as_str());
        let ghost before = issues_view(out@);
        append_issues(&mut out, a);
        i = i + 1;
        proof {
            assert(issues_view(out@) =~= after_project + cv.take(i as int).fold_left(
                Seq::<IssueV>::empty(),
                |acc: Seq<IssueV>, m: (Seq<char>, JVal)|
                    acc + check_value(enums@, m.1.get_str("status"@), "status"@, component_ctx(m.0)),
            ));
        }
    }
    assert(cv.take(i as int) =~= cv);
    let ghost after_comps = issues_view(out@);
    // links
    let links = crate::json::items_of(embed, "links");
    let ghost lv = items_view(links@);
    let mut k: usize = 0;
    proof {
        assert(issues_view(out@) =~= after_comps + lv.take(0).fold_left(
            Seq::<IssueV>::empty(),
            |acc: Seq<IssueV>, l: JVal|
                acc + check_value(enums@, l.get_str("relation"@), "relation"@, "link.relation"@)
                    + check_value(enums@, sub_str(l.get("provenance"@), "by"@), "by"@, "link.provenance.by"@),
        ));
    }
    while k < links.len()
        invariant
            k <= links@.len(),
            lv == items_view(links@),
            issues_view(out@) == after_comps + lv.take(k as int).fold_left(
                Seq::<IssueV>::empty(),
                |acc: Seq<IssueV>, l: JVal|
                    acc + check_value(enums@, l.get_str("relation"@), "relation"@, "link.relation"@)
                        + check_value(enums@, sub_str(l.get("provenance"@), "by"@), "by"@, "link.provenance.by"@),
            ),
        decreases links@.len() - k,
    {
        proof {
            assert(lv.take(k + 1).drop_last() =~= lv.take(k as int));
        }
        let a = check_value_exec(enums, links[k].get_str("relation"), "relation", "link.relation");
        let b = check_value_exec(
            enums,
            sub_str_exec(links[k].get("provenance"), "by"),
            "by",
            "link.provenance.by",
        );
        append_issues(&mut out, a);
        append_issues(&mut out, b);
        k = k + 1;
        proof {
            assert(issues_view(out@) =~= after_comps + lv.take(k as int).fold_left(
                Seq::<IssueV>::empty(),
                |acc: Seq<IssueV>, l: JVal|
                    acc + check_value(enums@, l.get_str("relation"@), "relation"@, "link.relation"@)
                        + check_value(enums@, sub_str(l.get("provenance"@), "by"@), "by"@, "link.provenance.by"@),
            ));
        }
    }
    assert(lv.take(k as int) =~= lv);
    let ghost after_links = issues_view(out@);
    // lifecycle
    let items = crate::json::items_of(embed, "lifecycle");
    let ghost iv = items_view(items@);
    let mut n: usize = 0;
    proof {
        assert(issues_view(out@) =~= after_links + iv.take(0).fold_left(
            Seq::<IssueV>::empty(),
            |acc: Seq<IssueV>, it: JVal|
                acc + check_value(enums@, it.get_str("kind"@), "item_kind"@, "lifecycle.kind"@)
                    + check_value(enums@, it.get_str("status"@), "status"@, "lifecycle.status"@),
        ));
    }
    while n < items.len()
        invariant
            n <= items@.len(),
            iv == items_view(items@),
            issues_view(out@) == after_links + iv.take(n as int).fold_left(
                Seq::<IssueV>::empty(),
                |acc: Seq<IssueV>, it: JVal|
                    acc + check_value(enums@, it.get_str("kind"@), "item_kind"@, "lifecycle.kind"@)
                        + check_value(enums@, it.get_str("status"@), "status"@, "lifecycle.status"@),
            ),
        decreases items@.len() - n,
    {
        proof {
            assert(iv.take(n + 1).drop_last() =~= iv.take(n as int));
        }
        let a = check_value_exec(enums, items[n].get_str("kind"), "item_kind", "lifecycle.kind");
        let b = check_value_exec(enums, items[n].get_str("status"), "status", "lifecycle.status");
        append_issues(&mut out, a);
        append_issues(&mut out, b);
        n = n + 1;
        proof {
            assert(issues_view(out@) =~= after_links + iv.take(n as int).fold_left(
                Seq::<IssueV>::empty(),
                |acc: Seq<IssueV>, it: JVal|
                    acc + check_value(enums@, it.get_str("kind"@), "item_kind"@, "lifecycle.kind"@)
                        + check_value(enums@, it.get_str("status"@), "status"@, "lifecycle.status"@),
            ));
        }
    }
    assert(iv.take(n as int) =~= iv);
    out
}

fn target_issue_exec(item: &Json, kind: &str, ids: &Vec<String>) -> (r: Vec<Issue>)
    ensures
        issues_view(r@) == target_issue(item@, kind@, strings_view(ids@)),
{
    match item.get_str("target") {
        Some(t) => {
            if !str_eq(t.as_str(), "*") && !contains_str(ids, t.as_str()) {
                let id = match item.get_str("id") {
                    Some(i) => i.clone(),
                    None => lit("?"),
                };
                let mut m = String::new();
                push_str(&mut m, kind);
                push_str(&mut m, " ");
                push_quoted(&mut m, id.as_str());
                push_str(&mut m, ": target ");
                push_quoted(&mut m, t.as_str());
                push_str(&mut m, " does not resolve to a component");
                assert(m@ =~= target_msg(kind@, id_or_unknown(item@), t@));
                one(Issue::error("resolve_facet_targets", m))
            } else {
                none()
            }
        },
        None => none(),
    }
}

/// A question/approval `target` must be "*" (the snapshot) or a known component.
pub fn check_targets(items: &Vec<Json>, kind: &str, comp_ids: &Vec<String>) -> (r: Vec<Issue>)
    ensures
        issues_view(r@) == target_findings(items_view(items@), kind@, strings_view(comp_ids@)),
{
    let ghost iv = items_view(items@);
    let ghost idv = strings_view(comp_ids@);
    let mut out: Vec<Issue> = Vec::new();
    let mut i: usize = 0;
    proof {
        assert(issues_view(out@) =~= target_findings(iv.take(0), kind@, idv));
    }
    while i < items.len()
        invariant
            i <= items@.len(),
            iv == items_view(items@),
            idv == strings_view(comp_ids@),
            issues_view(out@) == target_findings(iv.take(i as int), kind@, idv),
        decreases items@.len() - i,
    {
        proof {
            assert(iv.take(i + 1).drop_last() =~= iv.take(i as int));
        }
        let a = target_issue_exec(&items[i], kind, comp_ids);
        append_issues(&mut out, a);
        i = i + 1;
    }
    assert(iv.take(i as int) =~= iv);
    out
}

/// The enumeration findings, when the schema declares `[enums]`.
pub open spec fn schema_findings(e: JVal, schema: Option<JVal>) -> Seq<IssueV> {
    match schema {
        Some(s) => match s.get("enums"@) {
            Some(en) => enum_findings(e, en),
            None => Seq::empty(),
        },
        None => Seq::empty(),
    }
}

/// Target findings over each loaded facet file's `key` array, in file order.
pub open spec fn file_targets(files: Seq<JVal>, key: Seq<char>, ids: Seq<Seq<char>>) -> Seq<IssueV> {
    files.fold_left(
        Seq::<IssueV>::empty(),
        |acc: Seq<IssueV>, f: JVal|
            acc + match f.get_array(key) {
                Some(items) => target_findings(items, key, ids),
                None => Seq::empty(),
            },
    )
}

/// Everything `validate` reports, in report order.
pub open spec fn findings(e: JVal, schema: Option<JVal>, questions: Seq<JVal>, approvals: Seq<JVal>) -> Seq<IssueV> {
    link_findings(e) + honesty_findings(e) + dependency_findings(e) + schema_findings(e, schema)
        + file_targets(questions, "question"@, comp_ids(e)) + file_targets(
        approvals,
        "approval"@,
        comp_ids(e),
    )
}

fn file_targets_exec(files: &Vec<Json>, key: &str, ids: &Vec<String>) -> (r: Vec<Issue>)
    ensures
        issues_view(r@) == file_targets(items_view(files@), key@, strings_view(ids@)),
{
    let ghost fv = items_view(files@);
    let mut out: Vec<Issue> = Vec::new();
    let mut i: usize = 0;
    proof {
        assert(issues_view(out@) =~= file_targets(fv.take(0), key@, strings_view(ids@)));
    }
    while i < files.len()
        invariant
            i <= files@.len(),
            fv == items_view(files@),
            issues_view(out@) == file_targets(fv.take(i as int), key@, strings_view(ids@)),
        decreases files@.len() - i,
    {
        proof {
            assert(fv.take(i + 1).drop_last() =~= fv.take(i as int));
        }
        match files[i].get_array(key) {
            Some(items) => {
                let a = check_targets(items, key, ids);
                append_issues(&mut out, a);
            },
            None => {},
        }
        i = i + 1;
    }
    assert(fv.take(i as int) =~= fv);
    out
}

/// Validates a resolved genome: links, honesty, the dependency rule, the
/// enumerations of `schema` (when one was loaded), and the targets of the
/// loaded question and approval files. Returns every issue found (empty =
/// clean).
pub fn validate(embed: &Json, schema: Option<&Json>, questions: &Vec<Json>, approvals: &Vec<Json>) -> (r: Vec<Issue>)
    ensures
        issues_view(r@) == findings(
            embed@,
            match schema {
                Some(s) => Some(s@),
                None => None,
            },
            items_view(questions@),
            items_view(approvals@),
        ),
{
    let mut issues: Vec<Issue> = Vec::new();
    append_issues(&mut issues, check_links(embed));
    append_issues(&mut issues, check_honesty(embed));
    append_issues(&mut issues, check_dependency_rule(embed));
    match schema {
        Some(s) => match s.get("enums") {
            Some(enums) => append_issues(&mut issues, check_enums(embed, enums)),
            None => {},
        },
        None => {},
    }
    let ids = component_ids(embed);
    append_issues(&mut issues, file_targets_exec(questions, "question", &ids));
    append_issues(&mut issues, file_targets_exec(approvals, "approval", &ids));
    assert(issues_view(issues@) =~= findings(
        embed@,
        match schema {
            Some(s) => Some(s@),
            None => None,
        },
        items_view(questions@),
        items_view(approvals@),
    ));
    issues
}

// ---------------------------------------------------------------------------
// Laws.
// ---------------------------------------------------------------------------

/// A link end that names no component, or none at all.
pub open spec fn end_resolves(ids: Seq<Seq<char>>, link: JVal, end: Seq<char>) -> bool {
    match link.get_str(end) {
        Some(id) => ids.contains(id),
        None => true,
    }
}

proof fn lemma_links_issues_empty(ids: Seq<Seq<char>>, links: Seq<JVal>)
    ensures
        links_issues(ids, links).len() == 0 <==> forall|i: int|
            0 <= i < links.len() ==> end_resolves(ids, #[trigger] links[i], "from"@) && end_resolves(
                ids,
                links[i],
                "to"@,
            ),
    decreases links.len(),
{
    if links.len() > 0 {
        let pre = links.drop_last();
        let l = links.last();
        lemma_links_issues_empty(ids, pre);
        let piece = end_issues(ids, l, "from"@) + end_issues(ids, l, "to"@);
        assert(links_issues(ids, links) == links_issues(ids, pre) + piece);
        assert(piece.len() == 0 <==> end_resolves(ids, l, "from"@) && end_resolves(ids, l, "to"@));
        if forall|i: int| 0 <= i < links.len() ==> end_resolves(ids, #[trigger] links[i], "from"@) && end_resolves(ids, links[i], "to"@) {
            assert forall|i: int| 0 <= i < pre.len() implies end_resolves(ids, #[trigger] pre[i], "from"@) && end_resolves(ids, pre[i], "to"@) by {
                assert(pre[i] == links[i]);
            }
            assert(links[links.len() - 1] == l);
        }
        if links_issues(ids, links).len() == 0 {
            assert forall|i: int| 0 <= i < links.len() implies end_resolves(ids, #[trigger] links[i], "from"@) && end_resolves(ids, links[i], "to"@) by {
                if i < pre.len() {
                    assert(pre[i] == links[i]);
                }
            }
        }
    }
}

/// Links are clean exactly when every `from`/`to` names a component.
pub proof fn lemma_links_clean(e: JVal)
    ensures
        link_findings(e).len() == 0 <==> forall|i: int|
            0 <= i < e.items("links"@).len() ==> end_resolves(comp_ids(e), #[trigger] e.items("links"@)[i], "from"@)
                && end_resolves(comp_ids(e), e.items("links"@)[i], "to"@),
{
    lemma_links_issues_empty(comp_ids(e), e.items("links"@));
}

/// The target of an item resolves: `*`, a component id, or no target at all.
pub open spec fn target_resolves(item: JVal, ids: Seq<Seq<char>>) -> bool {
    match item.get_str("target"@) {
        Some(t) => t == "*"@ || ids.contains(t),
        None => true,
    }
}

/// Question/approval items are clean exactly when every target resolves.
pub proof fn lemma_targets_clean(items: Seq<JVal>, kind: Seq<char>, ids: Seq<Seq<char>>)
    ensures
        target_findings(items, kind, ids).len() == 0 <==> forall|i: int|
            0 <= i < items.len() ==> target_resolves(#[trigger] items[i], ids),
    decreases items.len(),
{
    if items.len() > 0 {
        let pre = items.drop_last();
        let it = items.last();
        lemma_targets_clean(pre, kind, ids);
        let piece = target_issue(it, kind, ids);
        assert(target_findings(items, kind, ids) == target_findings(pre, kind, ids) + piece);
        assert(piece.len() == 0 <==> target_resolves(it, ids));
        if forall|i: int| 0 <= i < items.len() ==> target_resolves(#[trigger] items[i], ids) {
            assert forall|i: int| 0 <= i < pre.len() implies target_resolves(#[trigger] pre[i], ids) by {
                assert(pre[i] == items[i]);
            }
            assert(items[items.len() - 1] == it);
        }
        if target_findings(items, kind, ids).len() == 0 {
            assert forall|i: int| 0 <= i < items.len() implies target_resolves(#[trigger] items[i], ids) by {
                if i < pre.len() {
                    assert(pre[i] == items[i]);
                }
            }
        }
    }
}

/// The dependency rule is enforced only when the genome declares it.
pub proof fn lemma_rule_only_when_declared(e: JVal)
    requires
        dependency_rule(e) != Some("core-independent"@),
    ensures
        dependency_findings(e).len() == 0,
{
}

/// A component is honest when each present semantic field has a provenance
/// entry, or — lacking a provenance table — when it has no semantic field at all.
pub open spec fn honest(c: JVal) -> bool {
    match c.get_object("provenance"@) {
        None => !present(c, "summary"@) && !present(c, "why"@),
        Some(p) => (present(c, "summary"@) ==> has_key(p, "summary"@)) && (present(c, "why"@) ==> has_key(
            p,
            "why"@,
        )),
    }
}

proof fn lemma_honesty_fold(ms: Seq<(Seq<char>, JVal)>)
    ensures
        ms.fold_left(
            Seq::<IssueV>::empty(),
            |acc: Seq<IssueV>, m: (Seq<char>, JVal)| acc + comp_honesty(m.0, m.1),
        ).len() == 0 <==> forall|i: int| 0 <= i < ms.len() ==> honest(#[trigger] ms[i].1),
    decreases ms.len(),
{
    if ms.len() > 0 {
        let pre = ms.drop_last();
        let m = ms.last();
        lemma_honesty_fold(pre);
        let f = |acc: Seq<IssueV>, m: (Seq<char>, JVal)| acc + comp_honesty(m.0, m.1);
        let whole = ms.fold_left(Seq::<IssueV>::empty(), f);
        let prev = pre.fold_left(Seq::<IssueV>::empty(), f);
        let piece = comp_honesty(m.0, m.1);
        assert(whole == prev + piece);
        assert(piece.len() == 0 <==> honest(m.1));
        if forall|i: int| 0 <= i < ms.len() ==> honest(#[trigger] ms[i].1) {
            assert forall|i: int| 0 <= i < pre.len() implies honest(#[trigger] pre[i].1) by {
                assert(pre[i] == ms[i]);
            }
            assert(ms[ms.len() - 1] == m);
        }
        if whole.len() == 0 {
            assert forall|i: int| 0 <= i < ms.len() implies honest(#[trigger] ms[i].1) by {
                if i < pre.len() {
                    assert(pre[i] == ms[i]);
                }
            }
        }
    }
}

/// No honesty issue (error or warning) exactly when every component is honest.
pub proof fn lemma_honesty_clean(e: JVal)
    ensures
        honesty_findings(e).len() == 0 <==> forall|i: int|
            0 <= i < e.members("components"@).len() ==> honest(#[trigger] e.members("components"@)[i].1),
{
    lemma_honesty_fold(e.members("components"@));
}


// ---------------------------------------------------------------------------
// Severity of the honesty findings.
// ---------------------------------------------------------------------------

/// `field` of `c` holds a non-empty string.
pub open spec fn filled(c: JVal, field: Seq<char>) -> bool {
    c.get_str(field) matches Some(s) && s.len() > 0
}

/// `c` declares a provenance table (empty or not) that has no entry for a
/// filled `summary` or `why`.
pub open spec fn unstamped_with_table(c: JVal) -> bool {
    c.get_object("provenance"@) matches Some(p) && ((filled(c, "summary"@) && !has_key(p, "summary"@)) || (
    filled(c, "why"@) && !has_key(p, "why"@)))
}

/// `c` has a filled `summary` or `why` and no provenance table at all.
pub open spec fn unstamped_without_table(c: JVal) -> bool {
    c.get_object("provenance"@) is None && (filled(c, "summary"@) || filled(c, "why"@))
}

pub open spec fn has_severity(v: Seq<IssueV>, sev: Severity) -> bool {
    exists|i: int| 0 <= i < v.len() && (#[trigger] v[i]).severity == sev
}

proof fn lemma_has_severity_concat(a: Seq<IssueV>, b: Seq<IssueV>, sev: Severity)
    ensures
        has_severity(a + b, sev) <==> has_severity(a, sev) || has_severity(b, sev),
{
    if has_severity(a + b, sev) {
        let i = choose|i: int| 0 <= i < (a + b).len() && (#[trigger] (a + b)[i]).severity == sev;
        if i < a.len() {
            assert(a[i] == (a + b)[i]);
        } else {
            assert(b[i - a.len()] == (a + b)[i]);
        }
    }
    if has_severity(a, sev) {
        let i = choose|i: int| 0 <= i < a.len() && (#[trigger] a[i]).severity == sev;
        assert((a + b)[i] == a[i]);
    }
    if has_severity(b, sev) {
        let i = choose|i: int| 0 <= i < b.len() && (#[trigger] b[i]).severity == sev;
        assert((a + b)[i + a.len()] == b[i]);
    }
}

proof fn lemma_field_honesty_severity(id: Seq<char>, c: JVal, f: Seq<char>)
    ensures
        has_severity(field_honesty(id, c, f), Severity::Error) <==> (c.get_object("provenance"@) matches Some(p)
            && filled(c, f) && !has_key(p, f)),
        has_severity(field_honesty(id, c, f), Severity::Warn) <==> (c.get_object("provenance"@) is None && filled(
            c,
            f,
        )),
{
    let v = field_honesty(id, c, f);
    assert(present(c, f) == filled(c, f));
    if v.len() > 0 {
        assert(v.len() == 1);
        if has_severity(v, Severity::Error) || has_severity(v, Severity::Warn) {
            let i = choose|i: int| 0 <= i < v.len() && ((#[trigger] v[i]).severity == Severity::Error || v[i].severity == Severity::Warn);
            assert(i == 0);
        }
        assert(v[0].severity == Severity::Error || v[0].severity == Severity::Warn);
    }
}

proof fn lemma_comp_honesty_severity(id: Seq<char>, c: JVal)
    ensures
        has_severity(comp_honesty(id, c), Severity::Error) <==> unstamped_with_table(c),
        has_severity(comp_honesty(id, c), Severity::Warn) <==> unstamped_without_table(c),
{
    let a = field_honesty(id, c, "summary"@);
    let b = field_honesty(id, c, "why"@);
    lemma_has_severity_concat(a, b, Severity::Error);
    lemma_has_severity_concat(a, b, Severity::Warn);
    lemma_field_honesty_severity(id, c, "summary"@);
    lemma_field_honesty_severity(id, c, "why"@);
}

proof fn lemma_honesty_fold_severity(ms: Seq<(Seq<char>, JVal)>)
    ensures
        ({
            let f = ms.fold_left(
                Seq::<IssueV>::empty(),
                |acc: Seq<IssueV>, m: (Seq<char>, JVal)| acc + comp_honesty(m.0, m.1),
            );
            &&& has_severity(f, Severity::Error) <==> exists|j: int|
                0 <= j < ms.len() && unstamped_with_table(#[trigger] ms[j].1)
            &&& has_severity(f, Severity::Warn) <==> exists|j: int|
                0 <= j < ms.len() && unstamped_without_table(#[trigger] ms[j].1)
        }),
    decreases ms.len(),
{
    if ms.len() > 0 {
        let pre = ms.drop_last();
        let m = ms.last();
        lemma_honesty_fold_severity(pre);
        let fl = |acc: Seq<IssueV>, m: (Seq<char>, JVal)| acc + comp_honesty(m.0, m.1);
        let prev = pre.fold_left(Seq::<IssueV>::empty(), fl);
        assert(ms.fold_left(Seq::<IssueV>::empty(), fl) == prev + comp_honesty(m.0, m.1));
        lemma_has_severity_concat(prev, comp_honesty(m.0, m.1), Severity::Error);
        lemma_has_severity_concat(prev, comp_honesty(m.0, m.1), Severity::Warn);
        lemma_comp_honesty_severity(m.0, m.1);
        assert(ms[ms.len() - 1] == m);
        if exists|j: int| 0 <= j < ms.len() && unstamped_with_table(#[trigger] ms[j].1) {
            let j = choose|j: int| 0 <= j < ms.len() && unstamped_with_table(#[trigger] ms[j].1);
            if j < pre.len() {
                assert(pre[j] == ms[j]);
            }
        }
        if exists|j: int| 0 <= j < pre.len() && unstamped_with_table(#[trigger] pre[j].1) {
            let j = choose|j: int| 0 <= j < pre.len() && unstamped_with_table(#[trigger] pre[j].1);
            assert(pre[j] == ms[j]);
        }
        if exists|j: int| 0 <= j < ms.len() && unstamped_without_table(#[trigger] ms[j].1) {
            let j = choose|j: int| 0 <= j < ms.len() && unstamped_without_table(#[trigger] ms[j].1);
            if j < pre.len() {
                assert(pre[j] == ms[j]);
            }
        }
        if exists|j: int| 0 <= j < pre.len() && unstamped_without_table(#[trigger] pre[j].1) {
            let j = choose|j: int| 0 <= j < pre.len() && unstamped_without_table(#[trigger] pre[j].1);
            assert(pre[j] == ms[j]);
        }
    }
}

/// The severity of the honesty check: there is an error exactly when some
/// component declares a provenance table (even an empty one) and has a filled
/// `summary` or `why` without an entry in it; there is a warning exactly when
/// some component has a filled `summary` or `why` and no provenance table at all.
pub proof fn lemma_honesty_severity(e: JVal)
    ensures
        has_severity(honesty_findings(e), Severity::Error) <==> exists|j: int|
            0 <= j < e.members("components"@).len() && unstamped_with_table(#[trigger] e.members("components"@)[j].1),
        has_severity(honesty_findings(e), Severity::Warn) <==> exists|j: int|
            0 <= j < e.members("components"@).len() && unstamped_without_table(
                #[trigger] e.members("components"@)[j].1,
            ),
{
    lemma_honesty_fold_severity(e.members("components"@));
}

// ---------------------------------------------------------------------------
// Enumerated values.
// ---------------------------------------------------------------------------

/// `v` is one of the strings the schema lists under `en`.
pub open spec fn listed(enums: JVal, en: Seq<char>, v: Seq<char>) -> bool {
    enums.items(en).contains(JVal::Str(v))
}

/// An optional value is acceptable: absent, or listed.
pub open spec fn opt_listed(enums: JVal, en: Seq<char>, val: Option<Seq<char>>) -> bool {
    match val {
        Some(v) => listed(enums, en, v),
        None => true,
    }
}

/// An optional value is present and not listed.
pub open spec fn unknown_val(enums: JVal, en: Seq<char>, val: Option<Seq<char>>) -> bool {
    val matches Some(v) && !listed(enums, en, v)
}

pub open spec fn unknown_error(ctx: Seq<char>, en: Seq<char>, v: Seq<char>) -> IssueV {
    error_of("require_known_enums"@, enum_msg(ctx, en, v))
}

proof fn lemma_check_value(enums: JVal, val: Option<Seq<char>>, en: Seq<char>, ctx: Seq<char>)
    ensures
        opt_listed(enums, en, val) ==> check_value(enums, val, en, ctx).len() == 0,
        unknown_val(enums, en, val) ==> check_value(enums, val, en, ctx) == seq![
            unknown_error(ctx, en, val->Some_0),
        ],
{
    if let Some(v) = val {
        if listed(enums, en, v) {
            let i = choose|i: int| 0 <= i < enums.items(en).len() && enums.items(en)[i] == JVal::Str(v);
            assert(enum_known(enums, en, v));
        } else {
            if enum_known(enums, en, v) {
                let i = choose|i: int| 0 <= i < enums.items(en).len() && #[trigger] enums.items(en)[i] == JVal::Str(v);
                assert(enums.items(en).contains(JVal::Str(v)));
            }
        }
    }
}

proof fn lemma_contains_concat(a: Seq<IssueV>, b: Seq<IssueV>, x: IssueV)
    ensures
        a.contains(x) ==> (a + b).contains(x),
        b.contains(x) ==> (a + b).contains(x),
{
    if a.contains(x) {
        let i = choose|i: int| 0 <= i < a.len() && a[i] == x;
        assert((a + b)[i] == x);
    }
    if b.contains(x) {
        let i = choose|i: int| 0 <= i < b.len() && b[i] == x;
        assert((a + b)[i + a.len()] == x);
    }
}

proof fn lemma_component_enum_fold(ms: Seq<(Seq<char>, JVal)>, enums: JVal)
    ensures
        ({
            let f = ms.fold_left(
                Seq::<IssueV>::empty(),
                |acc: Seq<IssueV>, m: (Seq<char>, JVal)|
                    acc + check_value(enums, m.1.get_str("status"@), "status"@, component_ctx(m.0)),
            );
            &&& forall|j: int|
                0 <= j < ms.len() && unknown_val(enums, "status"@, (#[trigger] ms[j]).1.get_str("status"@))
                    ==> f.contains(unknown_error(component_ctx(ms[j].0), "status"@, ms[j].1.get_str("status"@)->Some_0))
            &&& (forall|j: int| 0 <= j < ms.len() ==> opt_listed(enums, "status"@, (#[trigger] ms[j]).1.get_str("status"@)))
                ==> f.len() == 0
        }),
    decreases ms.len(),
{
    if ms.len() > 0 {
        let pre = ms.drop_last();
        let m = ms.last();
        lemma_component_enum_fold(pre, enums);
        let fl = |acc: Seq<IssueV>, m: (Seq<char>, JVal)|
            acc + check_value(enums, m.1.get_str("status"@), "status"@, component_ctx(m.0));
        let prev = pre.fold_left(Seq::<IssueV>::empty(), fl);
        let piece = check_value(enums, m.1.get_str("status"@), "status"@, component_ctx(m.0));
        assert(ms.fold_left(Seq::<IssueV>::empty(), fl) == prev + piece);
        lemma_check_value(enums, m.1.get_str("status"@), "status"@, component_ctx(m.0));
        assert(ms[ms.len() - 1] == m);
        assert forall|j: int|
            0 <= j < ms.len() && unknown_val(enums, "status"@, (#[trigger] ms[j]).1.get_str("status"@)) implies (prev
            + piece).contains(unknown_error(component_ctx(ms[j].0), "status"@, ms[j].1.get_str("status"@)->Some_0)) by {
            let x = unknown_error(component_ctx(ms[j].0), "status"@, ms[j].1.get_str("status"@)->Some_0);
            if j < pre.len() {
                assert(pre[j] == ms[j]);
                lemma_contains_concat(prev, piece, x);
            } else {
                assert(piece[0] == x);
                lemma_contains_concat(prev, piece, x);
            }
        }
        if forall|j: int| 0 <= j < ms.len() ==> opt_listed(enums, "status"@, (#[trigger] ms[j]).1.get_str("status"@)) {
            assert forall|j: int| 0 <= j < pre.len() implies opt_listed(enums, "status"@, (#[trigger] pre[j]).1.get_str("status"@)) by {
                assert(pre[j] == ms[j]);
            }
        }
    }
}

/// The two enumerated values of a link: its relation and its provenance `by`.
pub open spec fn link_by(l: JVal) -> Option<Seq<char>> {
    sub_str(l.get("provenance"@), "by"@)
}

pub open spec fn link_ok(enums: JVal, l: JVal) -> bool {
    opt_listed(enums, "relation"@, l.get_str("relation"@)) && opt_listed(enums, "by"@, link_by(l))
}

proof fn lemma_link_enum_fold(ls: Seq<JVal>, enums: JVal)
    ensures
        ({
            let f = ls.fold_left(
                Seq::<IssueV>::empty(),
                |acc: Seq<IssueV>, l: JVal|
                    acc + check_value(enums, l.get_str("relation"@), "relation"@, "link.relation"@)
                        + check_value(enums, sub_str(l.get("provenance"@), "by"@), "by"@, "link.provenance.by"@),
            );
            &&& forall|j: int|
                0 <= j < ls.len() && unknown_val(enums, "relation"@, (#[trigger] ls[j]).get_str("relation"@)) ==> f.contains(
                    unknown_error("link.relation"@, "relation"@, ls[j].get_str("relation"@)->Some_0),
                )
            &&& forall|j: int|
                0 <= j < ls.len() && unknown_val(enums, "by"@, link_by(#[trigger] ls[j])) ==> f.contains(
                    unknown_error("link.provenance.by"@, "by"@, link_by(ls[j])->Some_0),
                )
            &&& (forall|j: int| 0 <= j < ls.len() ==> link_ok(enums, #[trigger] ls[j])) ==> f.len() == 0
        }),
    decreases ls.len(),
{
    if ls.len() > 0 {
        let pre = ls.drop_last();
        let l = ls.last();
        lemma_link_enum_fold(pre, enums);
        let fl = |acc: Seq<IssueV>, l: JVal|
            acc + check_value(enums, l.get_str("relation"@), "relation"@, "link.relation"@)
                + check_value(enums, sub_str(l.get("provenance"@), "by"@), "by"@, "link.provenance.by"@);
        let prev = pre.fold_left(Seq::<IssueV>::empty(), fl);
        let p1 = check_value(enums, l.get_str("relation"@), "relation"@, "link.relation"@);
        let p2 = check_value(enums, link_by(l), "by"@, "link.provenance.by"@);
        assert(ls.fold_left(Seq::<IssueV>::empty(), fl) == prev + p1 + p2);
        lemma_check_value(enums, l.get_str("relation"@), "relation"@, "link.relation"@);
        lemma_check_value(enums, link_by(l), "by"@, "link.provenance.by"@);
        assert(ls[ls.len() - 1] == l);
        assert forall|j: int|
            0 <= j < ls.len() && unknown_val(enums, "relation"@, (#[trigger] ls[j]).get_str("relation"@)) implies (prev + p1
            + p2).contains(unknown_error("link.relation"@, "relation"@, ls[j].get_str("relation"@)->Some_0)) by {
            let x = unknown_error("link.relation"@, "relation"@, ls[j].get_str("relation"@)->Some_0);
            if j < pre.len() {
                assert(pre[j] == ls[j]);
                lemma_contains_concat(prev, p1, x);
            } else {
                assert(p1[0] == x);
                lemma_contains_concat(prev, p1, x);
            }
            lemma_contains_concat(prev + p1, p2, x);
        }
        assert forall|j: int|
            0 <= j < ls.len() && unknown_val(enums, "by"@, link_by(#[trigger] ls[j])) implies (prev + p1 + p2).contains(
            unknown_error("link.provenance.by"@, "by"@, link_by(ls[j])->Some_0),
        ) by {
            let x = unknown_error("link.provenance.by"@, "by"@, link_by(ls[j])->Some_0);
            if j < pre.len() {
                assert(pre[j] == ls[j]);
                lemma_contains_concat(prev, p1, x);
                lemma_contains_concat(prev + p1, p2, x);
            } else {
                assert(p2[0] == x);
                lemma_contains_concat(prev + p1, p2, x);
            }
        }
        if forall|j: int| 0 <= j < ls.len() ==> link_ok(enums, #[trigger] ls[j]) {
            assert forall|j: int| 0 <= j < pre.len() implies link_ok(enums, #[trigger] pre[j]) by {
                assert(pre[j] == ls[j]);
            }
            assert(link_ok(enums, ls[ls.len() - 1]));
        }
    }
}

/// The two enumerated values of a lifecycle item: its kind and its status.
pub open spec fn item_ok(enums: JVal, it: JVal) -> bool {
    opt_listed(enums, "item_kind"@, it.get_str("kind"@)) && opt_listed(enums, "status"@, it.get_str("status"@))
}

proof fn lemma_lifecycle_enum_fold(ls: Seq<JVal>, enums: JVal)
    ensures
        ({
            let f = ls.fold_left(
                Seq::<IssueV>::empty(),
                |acc: Seq<IssueV>, it: JVal|
                    acc + check_value(enums, it.get_str("kind"@), "item_kind"@, "lifecycle.kind"@)
                        + check_value(enums, it.get_str("status"@), "status"@, "lifecycle.status"@),
            );
            &&& forall|j: int|
                0 <= j < ls.len() && unknown_val(enums, "item_kind"@, (#[trigger] ls[j]).get_str("kind"@)) ==> f.contains(
                    unknown_error("lifecycle.kind"@, "item_kind"@, ls[j].get_str("kind"@)->Some_0),
                )
            &&& forall|j: int|
                0 <= j < ls.len() && unknown_val(enums, "status"@, (#[trigger] ls[j]).get_str("status"@)) ==> f.contains(
                    unknown_error("lifecycle.status"@, "status"@, ls[j].get_str("status"@)->Some_0),
                )
            &&& (forall|j: int| 0 <= j < ls.len() ==> item_ok(enums, #[trigger] ls[j])) ==> f.len() == 0
        }),
    decreases ls.len(),
{
    if ls.len() > 0 {
        let pre = ls.drop_last();
        let l = ls.last();
        lemma_lifecycle_enum_fold(pre, enums);
        let fl = |acc: Seq<IssueV>, it: JVal|
            acc + check_value(enums, it.get_str("kind"@), "item_kind"@, "lifecycle.kind"@)
                + check_value(enums, it.get_str("status"@), "status"@, "lifecycle.status"@);
        let prev = pre.fold_left(Seq::<IssueV>::empty(), fl);
        let p1 = check_value(enums, l.get_str("kind"@), "item_kind"@, "lifecycle.kind"@);
        let p2 = check_value(enums, l.get_str("status"@), "status"@, "lifecycle.status"@);
        assert(ls.fold_left(Seq::<IssueV>::empty(), fl) == prev + p1 + p2);
        lemma_check_value(enums, l.get_str("kind"@), "item_kind"@, "lifecycle.kind"@);
        lemma_check_value(enums, l.get_str("status"@), "status"@, "lifecycle.status"@);
        assert(ls[ls.len() - 1] == l);
        assert forall|j: int|
            0 <= j < ls.len() && unknown_val(enums, "item_kind"@, (#[trigger] ls[j]).get_str("kind"@)) implies (prev + p1
            + p2).contains(unknown_error("lifecycle.kind"@, "item_kind"@, ls[j].get_str("kind"@)->Some_0)) by {
            let x = unknown_error("lifecycle.kind"@, "item_kind"@, ls[j].get_str("kind"@)->Some_0);
            if j < pre.len() {
                assert(pre[j] == ls[j]);
                lemma_contains_concat(prev, p1, x);
            } else {
                assert(p1[0] == x);
                lemma_contains_concat(prev, p1, x);
            }
            lemma_contains_concat(prev + p1, p2, x);
        }
        assert forall|j: int|
            0 <= j < ls.len() && unknown_val(enums, "status"@, (#[trigger] ls[j]).get_str("status"@)) implies (prev + p1
            + p2).contains(unknown_error("lifecycle.status"@, "status"@, ls[j].get_str("status"@)->Some_0)) by {
            let x = unknown_error("lifecycle.status"@, "status"@, ls[j].get_str("status"@)->Some_0);
            if j < pre.len() {
                assert(pre[j] == ls[j]);
                lemma_contains_concat(prev, p1, x);
                lemma_contains_concat(prev + p1, p2, x);
            } else {
                assert(p2[0] == x);
                lemma_contains_concat(prev + p1, p2, x);
            }
        }
        if forall|j: int| 0 <= j < ls.len() ==> item_ok(enums, #[trigger] ls[j]) {
            assert forall|j: int| 0 <= j < pre.len() implies item_ok(enums, #[trigger] pre[j]) by {
                assert(pre[j] == ls[j]);
            }
            assert(item_ok(enums, ls[ls.len() - 1]));
        }
    }
}

/// Every value the genome uses for an enumerated field and the schema does not
/// list is reported as an error: the project's domain, status and source, each
/// component's status, each link's relation and provenance `by`, each lifecycle
/// item's kind and status. When every such value is listed, nothing is reported.
pub proof fn lemma_unknown_values_reported(e: JVal, enums: JVal)
    ensures
        unknown_val(enums, "domain"@, sub_str(e.get("project"@), "domain"@)) ==> enum_findings(e, enums).contains(
            unknown_error("project.domain"@, "domain"@, sub_str(e.get("project"@), "domain"@)->Some_0),
        ),
        unknown_val(enums, "status"@, sub_str(e.get("project"@), "status"@)) ==> enum_findings(e, enums).contains(
            unknown_error("project.status"@, "status"@, sub_str(e.get("project"@), "status"@)->Some_0),
        ),
        unknown_val(enums, "source"@, sub_str(e.get("project"@), "source"@)) ==> enum_findings(e, enums).contains(
            unknown_error("project.source"@, "source"@, sub_str(e.get("project"@), "source"@)->Some_0),
        ),
        forall|j: int|
            0 <= j < e.members("components"@).len() && unknown_val(
                enums,
                "status"@,
                (#[trigger] e.members("components"@)[j]).1.get_str("status"@),
            ) ==> enum_findings(e, enums).contains(
                unknown_error(
                    component_ctx(e.members("components"@)[j].0),
                    "status"@,
                    e.members("components"@)[j].1.get_str("status"@)->Some_0,
                ),
            ),
        forall|j: int|
            0 <= j < e.items("links"@).len() && unknown_val(enums, "relation"@, (#[trigger] e.items("links"@)[j]).get_str("relation"@))
                ==> enum_findings(e, enums).contains(
                unknown_error("link.relation"@, "relation"@, e.items("links"@)[j].get_str("relation"@)->Some_0),
            ),
        forall|j: int|
            0 <= j < e.items("links"@).len() && unknown_val(enums, "by"@, link_by(#[trigger] e.items("links"@)[j]))
                ==> enum_findings(e, enums).contains(
                unknown_error("link.provenance.by"@, "by"@, link_by(e.items("links"@)[j])->Some_0),
            ),
        forall|j: int|
            0 <= j < e.items("lifecycle"@).len() && unknown_val(
                enums,
                "item_kind"@,
                (#[trigger] e.items("lifecycle"@)[j]).get_str("kind"@),
            ) ==> enum_findings(e, enums).contains(
                unknown_error("lifecycle.kind"@, "item_kind"@, e.items("lifecycle"@)[j].get_str("kind"@)->Some_0),
            ),
        forall|j: int|
            0 <= j < e.items("lifecycle"@).len() && unknown_val(
                enums,
                "status"@,
                (#[trigger] e.items("lifecycle"@)[j]).get_str("status"@),
            ) ==> enum_findings(e, enums).contains(
                unknown_error("lifecycle.status"@, "status"@, e.items("lifecycle"@)[j].get_str("status"@)->Some_0),
            ),
        (opt_listed(enums, "domain"@, sub_str(e.get("project"@), "domain"@)) && opt_listed(
            enums,
            "status"@,
            sub_str(e.get("project"@), "status"@),
        ) && opt_listed(enums, "source"@, sub_str(e.get("project"@), "source"@)) && (forall|j: int|
            0 <= j < e.members("components"@).len() ==> opt_listed(
                enums,
                "status"@,
                (#[trigger] e.members("components"@)[j]).1.get_str("status"@),
            )) && (forall|j: int| 0 <= j < e.items("links"@).len() ==> link_ok(enums, #[trigger] e.items("links"@)[j]))
            && (forall|j: int| 0 <= j < e.items("lifecycle"@).len() ==> item_ok(enums, #[trigger] e.items("lifecycle"@)[j])))
            ==> enum_findings(e, enums).len() == 0,
{
    let p = e.get("project"@);
    let d = check_value(enums, sub_str(p, "domain"@), "domain"@, "project.domain"@);
    let st = check_value(enums, sub_str(p, "status"@), "status"@, "project.status"@);
    let so = check_value(enums, sub_str(p, "source"@), "source"@, "project.source"@);
    lemma_check_value(enums, sub_str(p, "domain"@), "domain"@, "project.domain"@);
    lemma_check_value(enums, sub_str(p, "status"@), "status"@, "project.status"@);
    lemma_check_value(enums, sub_str(p, "source"@), "source"@, "project.source"@);
    lemma_component_enum_fold(e.members("components"@), enums);
    lemma_link_enum_fold(e.items("links"@), enums);
    lemma_lifecycle_enum_fold(e.items("lifecycle"@), enums);
    let pr = project_enum_findings(e, enums);
    let c = component_enum_findings(e, enums);
    let l = link_enum_findings(e, enums);
    let lc = lifecycle_enum_findings(e, enums);
    assert(pr == d + st + so);
    assert(enum_findings(e, enums) == pr + c + l + lc);
    assert forall|x: IssueV| pr.contains(x) || c.contains(x) || l.contains(x) || lc.contains(x) implies enum_findings(
        e,
        enums,
    ).contains(x) by {
        lemma_contains_concat(pr, c, x);
        lemma_contains_concat(pr + c, l, x);
        lemma_contains_concat(pr + c + l, lc, x);
    }
    assert forall|x: IssueV| d.contains(x) || st.contains(x) || so.contains(x) implies pr.contains(x) by {
        lemma_contains_concat(d, st, x);
        lemma_contains_concat(d + st, so, x);
    }
    if unknown_val(enums, "domain"@, sub_str(p, "domain"@)) {
        let x = unknown_error("project.domain"@, "domain"@, sub_str(p, "domain"@)->Some_0);
        assert(d[0] == x);
        assert(d.contains(x));
        lemma_contains_concat(d, st, x);
        lemma_contains_concat(d + st, so, x);
        lemma_contains_concat(pr, c, x);
        lemma_contains_concat(pr + c, l, x);
        lemma_contains_concat(pr + c + l, lc, x);
    }
    if unknown_val(enums, "status"@, sub_str(p, "status"@)) {
        let x = unknown_error("project.status"@, "status"@, sub_str(p, "status"@)->Some_0);
        assert(st[0] == x);
        assert(st.contains(x));
        lemma_contains_concat(d, st, x);
        lemma_contains_concat(d + st, so, x);
        lemma_contains_concat(pr, c, x);
        lemma_contains_concat(pr + c, l, x);
        lemma_contains_concat(pr + c + l, lc, x);
    }
    if unknown_val(enums, "source"@, sub_str(p, "source"@)) {
        let x = unknown_error("project.source"@, "source"@, sub_str(p, "source"@)->Some_0);
        assert(so[0] == x);
        assert(so.contains(x));
        lemma_contains_concat(d, st, x);
        lemma_contains_concat(d + st, so, x);
        lemma_contains_concat(pr, c, x);
        lemma_contains_concat(pr + c, l, x);
        lemma_contains_concat(pr + c + l, lc, x);
    }
}

} // verus!
