//! Resolution of a genome: the anchor's own sections composed with the
//! fragments it includes, base layers and policies under local overrides,
//! each tagged with where it came from. This is the view the report and the
//! validator read.
use vstd::prelude::*;
use crate::json::{
    lemma_minsert_get, lemma_minsert_all_get, last_value, is_first_key,
    clone_members, jv,
    JVal, Json, mget, minsert, minsert_all, has_key, keys_of, str_vals, jequiv, members_view,
    items_view, key_index, lemma_key_index, lemma_object_view, lemma_array_view, find_key, json_eq,
    obj_insert, obj_insert_all, lit, own_members_of, members_of, items_of, get_or, append_items,
};
use crate::text::{collapse_ws, has_prefix, chars_of, collapse_chars, string_of, starts_with, str_eq};

verus! {

// ---------------------------------------------------------------------------
// What resolution reads.
// ---------------------------------------------------------------------------

/// The strings of an array, in order, skipping other values.
pub open spec fn strs_of(a: Seq<JVal>) -> Seq<Seq<char>>
    decreases a.len(),
{
    if a.len() == 0 {
        Seq::empty()
    } else {
        let r = strs_of(a.drop_last());
        match a.last() {
            JVal::Str(s) => r.push(s),
            _ => r,
        }
    }
}

/// The `[include]` table of the anchor (an empty table when absent).
pub open spec fn include_table(g: JVal) -> JVal {
    match g.get("include"@) {
        Some(v) => v,
        None => JVal::Object(Seq::empty()),
    }
}

/// The fragment paths the anchor lists under `[include].<facet>`.
pub open spec fn include_list(g: JVal, facet: Seq<char>) -> Seq<Seq<char>> {
    strs_of(include_table(g).items(facet))
}

/// The first path of a list, as a list of at most one.
pub open spec fn first_only(s: Seq<Seq<char>>) -> Seq<Seq<char>> {
    if s.len() > 0 { seq![s[0]] } else { Seq::empty() }
}

/// The anchor's `[architecture]` table (an empty table when absent).
pub open spec fn arch_of(g: JVal) -> JVal {
    match g.get("architecture"@) {
        Some(v) => v,
        None => JVal::Object(Seq::empty()),
    }
}

/// Every fragment resolution reads, in the order it reads them.
pub open spec fn needed(g: JVal) -> Seq<Seq<char>> {
    let ext = match arch_of(g).get_str("extends"@) {
        Some(e) => seq![e],
        None => Seq::empty(),
    };
    ext + include_list(g, "components"@) + include_list(g, "policies"@) + include_list(
        g,
        "lifecycle"@,
    ) + first_only(include_list(g, "delivery"@)) + first_only(include_list(g, "deployment"@))
        + first_only(include_list(g, "quality"@)) + include_list(g, "questions"@) + include_list(
        g,
        "approvals"@,
    )
}

/// A loaded fragment (`Null` when it is not among the loaded files).
pub open spec fn load(fs: Seq<(Seq<char>, JVal)>, rel: Seq<char>) -> JVal {
    match mget(fs, rel) {
        Some(v) => v,
        None => JVal::Null,
    }
}

/// Every needed fragment is loaded.
pub open spec fn all_loaded(g: JVal, fs: Seq<(Seq<char>, JVal)>) -> bool {
    forall|i: int| 0 <= i < needed(g).len() ==> has_key(fs, #[trigger] needed(g)[i])
}

/// `rel` is the first needed fragment that is not loaded.
pub open spec fn first_missing(g: JVal, fs: Seq<(Seq<char>, JVal)>, rel: Seq<char>) -> bool {
    exists|i: int|
        0 <= i < needed(g).len() && needed(g)[i] == rel && !has_key(fs, rel) && forall|j: int|
            0 <= j < i ==> has_key(fs, #[trigger] needed(g)[j])
}

pub open spec fn empty_obj() -> JVal {
    JVal::Object(Seq::empty())
}

pub open spec fn empty_arr() -> JVal {
    JVal::Array(Seq::empty())
}

pub open spec fn or_else(v: Option<JVal>, d: JVal) -> JVal {
    match v {
        Some(x) => x,
        None => d,
    }
}

/// `m` with a provenance tag: `_src` first, then `_ov`.
pub open spec fn tag_src_ov(m: Seq<(Seq<char>, JVal)>, src: Seq<char>, ov: Seq<Seq<char>>) -> JVal {
    JVal::Object(minsert(minsert(m, "_src"@, JVal::Str(src)), "_ov"@, JVal::Array(str_vals(ov))))
}

/// `m` with a provenance tag: `_ov` first, then `_src`.
pub open spec fn tag_ov_src(m: Seq<(Seq<char>, JVal)>, ov: Seq<Seq<char>>, src: Seq<char>) -> JVal {
    JVal::Object(minsert(minsert(m, "_ov"@, JVal::Array(str_vals(ov))), "_src"@, JVal::Str(src)))
}

/// `m` already maps `k` to a value equal to `v`.
pub open spec fn same_value(m: Seq<(Seq<char>, JVal)>, k: Seq<char>, v: JVal) -> bool {
    match mget(m, k) {
        Some(x) => jequiv(x, v),
        None => false,
    }
}

// ---------------------------------------------------------------------------
// Architecture.
// ---------------------------------------------------------------------------

/// Overlaying one layer's overrides: the merged table, and the keys whose value
/// the overlay changed (compared against the table as merged so far).
pub open spec fn overlay(l: Seq<(Seq<char>, JVal)>, o: Seq<(Seq<char>, JVal)>) -> (
    Seq<(Seq<char>, JVal)>,
    Seq<Seq<char>>,
) {
    o.fold_left(
        (l, Seq::<Seq<char>>::empty()),
        |st: (Seq<(Seq<char>, JVal)>, Seq<Seq<char>>), e: (Seq<char>, JVal)|
            (minsert(st.0, e.0, e.1), if same_value(st.0, e.0, e.1) { st.1 } else { st.1.push(e.0) }),
    )
}

/// A base layer as resolved: overlaid by the override of the same name when that
/// override is a table, tagged `override` when the overlay changed something and
/// `inherited` otherwise.
pub open spec fn base_layer(l: JVal, o: Option<JVal>) -> JVal {
    let r = match o {
        Some(JVal::Object(om)) => overlay(l.own_members(), om),
        _ => (l.own_members(), Seq::empty()),
    };
    tag_ov_src(r.0, r.1, if r.1.len() == 0 { "inherited"@ } else { "override"@ })
}

/// A layer the anchor adds: every key counts as overridden, tagged `local` and `_added`.
pub open spec fn added_layer(l: JVal) -> JVal {
    let m = l.own_members();
    match tag_ov_src(m, keys_of(m), "local"@) {
        JVal::Object(t) => JVal::Object(minsert(t, "_added"@, JVal::Bool(true))),
        other => other,
    }
}

pub open spec fn base_layers(base: Seq<(Seq<char>, JVal)>, ovr: Seq<(Seq<char>, JVal)>) -> Seq<
    (Seq<char>, JVal),
> {
    base.fold_left(
        Seq::<(Seq<char>, JVal)>::empty(),
        |acc: Seq<(Seq<char>, JVal)>, e: (Seq<char>, JVal)|
            minsert(acc, e.0, base_layer(e.1, mget(ovr, e.0))),
    )
}

pub open spec fn add_layers(acc0: Seq<(Seq<char>, JVal)>, ovr: Seq<(Seq<char>, JVal)>) -> Seq<
    (Seq<char>, JVal),
> {
    ovr.fold_left(
        acc0,
        |acc: Seq<(Seq<char>, JVal)>, e: (Seq<char>, JVal)|
            if has_key(acc, e.0) { acc } else { minsert(acc, e.0, added_layer(e.1)) },
    )
}

/// Architecture composed from the base topology it extends: the base layers in
/// base order, then the layers only the anchor declares; the descriptive fields
/// from the base, `extends` and `fluid` from the anchor.
pub open spec fn arch_extends(base: JVal, arch: JVal) -> JVal {
    let ovr = arch.members("layers"@);
    let layers = add_layers(base_layers(base.members("layers"@), ovr), ovr);
    JVal::Object(
        seq![
            ("pattern"@, or_else(base.get("pattern"@), JVal::Null)),
            ("basis"@, or_else(base.get("basis"@), JVal::Null)),
            ("dependency_rule"@, or_else(base.get("dependency_rule"@), JVal::Null)),
            ("description"@, or_else(base.get("description"@), JVal::Null)),
            ("extends"@, or_else(arch.get("extends"@), JVal::Null)),
            ("fluid"@, or_else(arch.get("fluid"@), JVal::Bool(false))),
            ("layers"@, JVal::Object(layers)),
        ],
    )
}

pub open spec fn local_layers(ls: Seq<(Seq<char>, JVal)>) -> Seq<(Seq<char>, JVal)> {
    ls.fold_left(
        Seq::<(Seq<char>, JVal)>::empty(),
        |acc: Seq<(Seq<char>, JVal)>, e: (Seq<char>, JVal)|
            minsert(acc, e.0, tag_ov_src(e.1.own_members(), Seq::empty(), "local"@)),
    )
}

pub open spec fn without_layers(ms: Seq<(Seq<char>, JVal)>) -> Seq<(Seq<char>, JVal)> {
    ms.fold_left(
        Seq::<(Seq<char>, JVal)>::empty(),
        |acc: Seq<(Seq<char>, JVal)>, e: (Seq<char>, JVal)|
            if e.0 == "layers"@ { acc } else { minsert(acc, e.0, e.1) },
    )
}

/// A self-contained architecture: its own fields in order, then every layer
/// tagged `local`.
pub open spec fn arch_inline(arch: JVal) -> JVal {
    JVal::Object(
        minsert(
            without_layers(arch.own_members()),
            "layers"@,
            JVal::Object(local_layers(arch.members("layers"@))),
        ),
    )
}

pub open spec fn resolved_arch(g: JVal, fs: Seq<(Seq<char>, JVal)>) -> JVal {
    let arch = arch_of(g);
    match arch.get_str("extends"@) {
        Some(e) => arch_extends(load(fs, e), arch),
        None => arch_inline(arch),
    }
}

// ---------------------------------------------------------------------------
// Components, links, lifecycle, facets.
// ---------------------------------------------------------------------------

/// The loaded fragments named by a list of paths.
pub open spec fn loads(fs: Seq<(Seq<char>, JVal)>, rels: Seq<Seq<char>>) -> Seq<JVal> {
    rels.map_values(|r: Seq<char>| load(fs, r))
}

/// The sources of nodes and edges: the anchor, then each included components fragment.
pub open spec fn node_sources(g: JVal, fs: Seq<(Seq<char>, JVal)>) -> Seq<JVal> {
    seq![g] + loads(fs, include_list(g, "components"@))
}

/// Nodes: every source's `components` table merged in order (a later node of the
/// same id replaces the earlier one in its place).
pub open spec fn merged_tables(srcs: Seq<JVal>, key: Seq<char>) -> Seq<(Seq<char>, JVal)> {
    srcs.fold_left(
        Seq::<(Seq<char>, JVal)>::empty(),
        |acc: Seq<(Seq<char>, JVal)>, d: JVal| minsert_all(acc, d.members(key)),
    )
}

/// The arrays stored under `key` in each source, concatenated.
pub open spec fn concat_arrays(srcs: Seq<JVal>, key: Seq<char>) -> Seq<JVal> {
    srcs.fold_left(Seq::<JVal>::empty(), |acc: Seq<JVal>, d: JVal| acc + d.items(key))
}

/// The lifecycle: the anchor's own items, then each lifecycle fragment's `item`s.
pub open spec fn lifecycle_of(g: JVal, fs: Seq<(Seq<char>, JVal)>) -> Seq<JVal> {
    g.items("lifecycle"@) + concat_arrays(loads(fs, include_list(g, "lifecycle"@)), "item"@)
}

/// A planning facet: the first fragment's `section` table with extra keys taken
/// from array entries of the fragment (an empty array where absent).
pub open spec fn with_arrays(d: JVal, section: Seq<char>, extra: Seq<(Seq<char>, Seq<char>)>) -> JVal
    decreases extra.len(),
{
    if extra.len() == 0 {
        JVal::Object(d.members(section))
    } else {
        let last = extra.last();
        match with_arrays(d, section, extra.drop_last()) {
            JVal::Object(m) => JVal::Object(minsert(m, last.0, or_else(d.get(last.1), empty_arr()))),
            other => other,
        }
    }
}

pub open spec fn delivery_of(g: JVal, fs: Seq<(Seq<char>, JVal)>) -> JVal {
    let l = include_list(g, "delivery"@);
    if l.len() > 0 {
        with_arrays(load(fs, l[0]), "delivery"@, seq![("estimates"@, "estimate"@)])
    } else {
        empty_obj()
    }
}

pub open spec fn deployment_of(g: JVal, fs: Seq<(Seq<char>, JVal)>) -> JVal {
    let l = include_list(g, "deployment"@);
    if l.len() > 0 {
        or_else(load(fs, l[0]).get("deployment"@), empty_obj())
    } else {
        empty_obj()
    }
}

pub open spec fn quality_of(g: JVal, fs: Seq<(Seq<char>, JVal)>) -> JVal {
    let l = include_list(g, "quality"@);
    if l.len() > 0 {
        with_arrays(load(fs, l[0]), "quality"@, seq![("budgets"@, "budget"@), ("gates"@, "gate"@)])
    } else {
        empty_obj()
    }
}

/// Questions or approvals: the `item_key` arrays of each fragment of `facet`, in order.
pub open spec fn facet_items(g: JVal, fs: Seq<(Seq<char>, JVal)>, facet: Seq<char>, item_key: Seq<char>) -> Seq<JVal> {
    concat_arrays(loads(fs, include_list(g, facet)), item_key)
}

/// The project table, its `intent` (when a string) reduced to single-spaced words.
pub open spec fn project_of(g: JVal) -> Seq<(Seq<char>, JVal)> {
    let p = g.members("project"@);
    match mget(p, "intent"@) {
        Some(JVal::Str(s)) => minsert(p, "intent"@, JVal::Str(collapse_ws(s))),
        _ => p,
    }
}

// ---------------------------------------------------------------------------
// Policies.
// ---------------------------------------------------------------------------

/// A policies fragment is shared (organisation-wide) when it lives under `org/`.
pub open spec fn is_shared(rel: Seq<char>) -> bool {
    has_prefix(rel, "org/"@)
}

/// The table-valued entries of `t`, merged into `acc`.
pub open spec fn merge_tables(acc: Seq<(Seq<char>, JVal)>, t: Seq<(Seq<char>, JVal)>) -> Seq<(Seq<char>, JVal)> {
    t.fold_left(
        acc,
        |a: Seq<(Seq<char>, JVal)>, e: (Seq<char>, JVal)|
            match e.1 {
                JVal::Object(_) => minsert(a, e.0, e.1),
                _ => a,
            },
    )
}

/// The policy bodies of the fragments at `rels` whose sharedness is `shared`.
pub open spec fn policy_bodies(fs: Seq<(Seq<char>, JVal)>, rels: Seq<Seq<char>>, shared: bool) -> Seq<
    (Seq<char>, JVal),
> {
    rels.fold_left(
        Seq::<(Seq<char>, JVal)>::empty(),
        |acc: Seq<(Seq<char>, JVal)>, r: Seq<char>|
            if is_shared(r) == shared { merge_tables(acc, load(fs, r).own_members()) } else { acc },
    )
}

/// The keys of `body` whose value differs from the one in `existing`, in body order.
pub open spec fn changed_keys(existing: Seq<(Seq<char>, JVal)>, body: Seq<(Seq<char>, JVal)>) -> Seq<Seq<char>>
    decreases body.len(),
{
    if body.len() == 0 {
        Seq::empty()
    } else {
        let r = changed_keys(existing, body.drop_last());
        let e = body.last();
        if same_value(existing, e.0, e.1) { r } else { r.push(e.0) }
    }
}

/// Shared bases, each tagged `inherited`.
pub open spec fn inherited_policies(base: Seq<(Seq<char>, JVal)>) -> Seq<(Seq<char>, JVal)> {
    base.fold_left(
        Seq::<(Seq<char>, JVal)>::empty(),
        |acc: Seq<(Seq<char>, JVal)>, e: (Seq<char>, JVal)|
            minsert(acc, e.0, tag_src_ov(e.1.own_members(), "inherited"@, Seq::empty())),
    )
}

/// A local policy over the policies so far: it overrides a base of the same name
/// (its keys win, those it changed are listed in `_ov`), or stands `local`.
pub open spec fn local_policy(acc: Seq<(Seq<char>, JVal)>, name: Seq<char>, body: JVal) -> Seq<(Seq<char>, JVal)> {
    let b = body.own_members();
    match mget(acc, name) {
        Some(JVal::Object(ex)) => minsert(
            acc,
            name,
            tag_src_ov(minsert_all(ex, b), "override"@, changed_keys(ex, b)),
        ),
        _ => minsert(acc, name, tag_src_ov(b, "local"@, Seq::empty())),
    }
}

pub open spec fn apply_local(acc0: Seq<(Seq<char>, JVal)>, local: Seq<(Seq<char>, JVal)>) -> Seq<(Seq<char>, JVal)> {
    local.fold_left(
        acc0,
        |acc: Seq<(Seq<char>, JVal)>, e: (Seq<char>, JVal)| local_policy(acc, e.0, e.1),
    )
}

pub open spec fn policies_of(g: JVal, fs: Seq<(Seq<char>, JVal)>) -> Seq<(Seq<char>, JVal)> {
    let rels = include_list(g, "policies"@);
    apply_local(inherited_policies(policy_bodies(fs, rels, true)), policy_bodies(fs, rels, false))
}

/// The shared paths of a list, in order.
pub open spec fn shared_only(s: Seq<Seq<char>>) -> Seq<Seq<char>>
    decreases s.len(),
{
    if s.len() == 0 {
        Seq::empty()
    } else if is_shared(s.last()) {
        shared_only(s.drop_last()).push(s.last())
    } else {
        shared_only(s.drop_last())
    }
}

/// The shared policy fragments the anchor includes.
pub open spec fn shared_includes(g: JVal) -> Seq<Seq<char>> {
    shared_only(include_list(g, "policies"@))
}

// ---------------------------------------------------------------------------
// The resolved genome.
// ---------------------------------------------------------------------------

/// The resolved view, with its keys in this order.
pub open spec fn embed_of(g: JVal, fs: Seq<(Seq<char>, JVal)>) -> JVal {
    let srcs = node_sources(g, fs);
    JVal::Object(
        seq![
            ("project"@, JVal::Object(project_of(g))),
            ("architecture"@, resolved_arch(g, fs)),
            ("policies"@, JVal::Object(policies_of(g, fs))),
            ("policy_includes"@, JVal::Array(str_vals(shared_includes(g)))),
            ("components"@, JVal::Object(merged_tables(srcs, "components"@))),
            ("links"@, JVal::Array(concat_arrays(srcs, "links"@))),
            ("lifecycle"@, JVal::Array(lifecycle_of(g, fs))),
            ("delivery"@, delivery_of(g, fs)),
            ("deployment"@, deployment_of(g, fs)),
            ("quality"@, quality_of(g, fs)),
            ("questions"@, JVal::Array(facet_items(g, fs, "questions"@, "question"@))),
            ("approvals"@, JVal::Array(facet_items(g, fs, "approvals"@, "approval"@))),
        ],
    )
}

// ---------------------------------------------------------------------------
// Executable resolution.
// ---------------------------------------------------------------------------

pub open spec fn strings_view(v: Seq<String>) -> Seq<Seq<char>> {
    v.map_values(|s: String| s@)
}

/// The strings of an array, in order (`arr` in the composition).
pub fn strings_in(a: &Vec<Json>) -> (r: Vec<String>)
    ensures
        strings_view(r@) == strs_of(items_view(a@)),
{
    let ghost av = items_view(a@);
    let mut out: Vec<String> = Vec::new();
    let mut i: usize = 0;
    while i < a.len()
        invariant
            i <= a@.len(),
            av == items_view(a@),
            strings_view(out@) == strs_of(av.take(i as int)),
        decreases a@.len() - i,
    {
        proof {
            assert(av.take(i + 1).drop_last() =~= av.take(i as int));
        }
        match a[i].as_str() {
            Some(s) => {
                out.push(s.clone());
                proof {
                    assert(strings_view(out@) =~= strings_view(out@.drop_last()).push(s@));
                }
            },
            None => {},
        }
        i = i + 1;
    }
    assert(av.take(i as int) =~= av);
    out
}

/// The fragment paths the anchor lists under `[include].<facet>`.
pub fn include_list_of(g: &Json, facet: &str) -> (r: Vec<String>)
    ensures
        strings_view(r@) == include_list(g@, facet@),
{
    match g.get("include") {
        Some(inc) => match inc.get_array(facet) {
            Some(a) => strings_in(a),
            None => {
                let r: Vec<String> = Vec::new();
                assert(strings_view(r@) =~= strs_of(Seq::empty()));
                r
            },
        },
        None => {
            let r: Vec<String> = Vec::new();
            assert(strings_view(r@) =~= strs_of(Seq::empty()));
            r
        },
    }
}

fn append_strings(out: &mut Vec<String>, more: Vec<String>, only_first: bool)
    ensures
        strings_view(final(out)@) == strings_view(old(out)@) + (if only_first {
            first_only(strings_view(more@))
        } else {
            strings_view(more@)
        }),
{
    let ghost start = strings_view(out@);
    let n = if only_first && more.len() > 1 { 1 } else { more.len() };
    let ghost added = if only_first { first_only(strings_view(more@)) } else { strings_view(more@) };
    assert(added =~= strings_view(more@).take(n as int));
    let mut i: usize = 0;
    while i < n
        invariant
            i <= n <= more@.len(),
            added == strings_view(more@).take(n as int),
            strings_view(out@) == start + strings_view(more@).take(i as int),
        decreases n - i,
    {
        let c = more[i].clone();
        let ghost before = out@;
        out.push(c);
        proof {
            assert(strings_view(out@) =~= strings_view(before).push(c@));
            assert(strings_view(more@).take(i + 1) =~= strings_view(more@).take(i as int).push(c@));
        }
        i = i + 1;
    }
}

/// Every fragment resolution reads, in the order it reads them; a caller loads
/// these (stopping at the first that fails) and hands them to `resolve`.
pub fn needed_files(g: &Json) -> (r: Vec<String>)
    ensures
        strings_view(r@) == needed(g@),
{
    let mut out: Vec<String> = Vec::new();
    match g.get("architecture") {
        Some(arch) => match arch.get_str("extends") {
            Some(e) => out.push(e.clone()),
            None => {},
        },
        None => {},
    }
    proof {
        let ext = match arch_of(g@).get_str("extends"@) {
            Some(e) => seq![e],
            None => Seq::empty(),
        };
        assert(strings_view(out@) =~= ext);
    }
    append_strings(&mut out, include_list_of(g, "components"), false);
    append_strings(&mut out, include_list_of(g, "policies"), false);
    append_strings(&mut out, include_list_of(g, "lifecycle"), false);
    append_strings(&mut out, include_list_of(g, "delivery"), true);
    append_strings(&mut out, include_list_of(g, "deployment"), true);
    append_strings(&mut out, include_list_of(g, "quality"), true);
    append_strings(&mut out, include_list_of(g, "questions"), false);
    append_strings(&mut out, include_list_of(g, "approvals"), false);
    out
}

/// String values as a JSON array.
pub fn str_array(v: &Vec<String>) -> (r: Json)
    ensures
        r@ == JVal::Array(str_vals(strings_view(v@))),
{
    let mut out: Vec<Json> = Vec::new();
    let mut i: usize = 0;
    while i < v.len()
        invariant
            i <= v@.len(),
            items_view(out@) == str_vals(strings_view(v@)).take(i as int),
        decreases v@.len() - i,
    {
        let ghost before = out@;
        out.push(Json::Str(v[i].clone()));
        proof {
            assert(items_view(out@) =~= items_view(before).push(JVal::Str(v@[i as int]@)));
            assert(str_vals(strings_view(v@)).take(i + 1) =~= str_vals(strings_view(v@)).take(
                i as int,
            ).push(JVal::Str(v@[i as int]@)));
        }
        i = i + 1;
    }
    proof {
        assert(str_vals(strings_view(v@)).take(i as int) =~= str_vals(strings_view(v@)));
        lemma_array_view(out);
    }
    Json::Array(out)
}

/// The keys of a member list, in order.
pub fn keys_in(m: &Vec<(String, Json)>) -> (r: Vec<String>)
    ensures
        strings_view(r@) == keys_of(members_view(m@)),
{
    let mut out: Vec<String> = Vec::new();
    let mut i: usize = 0;
    while i < m.len()
        invariant
            i <= m@.len(),
            strings_view(out@) == keys_of(members_view(m@)).take(i as int),
        decreases m@.len() - i,
    {
        let k = m[i].0.clone();
        let ghost before = out@;
        out.push(k);
        proof {
            assert(strings_view(out@) =~= strings_view(before).push(k@));
            assert(keys_of(members_view(m@)).take(i + 1) =~= keys_of(members_view(m@)).take(
                i as int,
            ).push(k@));
        }
        i = i + 1;
    }
    assert(keys_of(members_view(m@)).take(i as int) =~= keys_of(members_view(m@)));
    out
}

/// Adds `_ov` (the keys `ov`) then `_src`.
fn tag_ov_src_members(m: Vec<(String, Json)>, ov: &Vec<String>, src: &str) -> (r: Vec<(String, Json)>)
    ensures
        JVal::Object(members_view(r@)) == tag_ov_src(members_view(m@), strings_view(ov@), src@),
{
    let mut m = m;
    obj_insert(&mut m, lit("_ov"), str_array(ov));
    obj_insert(&mut m, lit("_src"), Json::Str(lit(src)));
    m
}

/// Adds `_src` then `_ov` (the keys `ov`).
fn tag_src_ov_members(m: Vec<(String, Json)>, src: &str, ov: &Vec<String>) -> (r: Vec<(String, Json)>)
    ensures
        JVal::Object(members_view(r@)) == tag_src_ov(members_view(m@), src@, strings_view(ov@)),
{
    let mut m = m;
    obj_insert(&mut m, lit("_src"), Json::Str(lit(src)));
    obj_insert(&mut m, lit("_ov"), str_array(ov));
    m
}

/// The value stored under `key` in `m` equals `v`.
fn same_value_in(m: &Vec<(String, Json)>, key: &str, v: &Json) -> (r: bool)
    ensures
        r == same_value(members_view(m@), key@, v@),
{
    match find_key(m, key) {
        Some(j) => json_eq(&m[j].1, v),
        None => false,
    }
}

fn overlay_exec(l: Vec<(String, Json)>, o: &Vec<(String, Json)>) -> (r: (Vec<(String, Json)>, Vec<String>))
    ensures
        (members_view(r.0@), strings_view(r.1@)) == overlay(members_view(l@), members_view(o@)),
{
    let ghost lv = members_view(l@);
    let ghost ovv = members_view(o@);
    let mut merged = l;
    let mut ov: Vec<String> = Vec::new();
    let mut i: usize = 0;
    proof {
        assert(ovv.take(0) =~= Seq::<(Seq<char>, JVal)>::empty());
        assert(strings_view(ov@) =~= Seq::<Seq<char>>::empty());
    }
    while i < o.len()
        invariant
            i <= o@.len(),
            ovv == members_view(o@),
            (members_view(merged@), strings_view(ov@)) == overlay(lv, ovv.take(i as int)),
        decreases o@.len() - i,
    {
        proof {
            assert(ovv.take(i + 1).drop_last() =~= ovv.take(i as int));
        }
        let same = same_value_in(&merged, o[i].0.as_str(), &o[i].1);
        obj_insert(&mut merged, o[i].0.clone(), o[i].1.deep_clone());
        if !same {
            let k = o[i].0.clone();
            let ghost before = ov@;
            ov.push(k);
            proof {
                assert(strings_view(ov@) =~= strings_view(before).push(k@));
            }
        }
        i = i + 1;
    }
    assert(ovv.take(i as int) =~= ovv);
    (merged, ov)
}

fn base_layer_exec(l: &Json, o: Option<&Json>) -> (r: Json)
    ensures
        r@ == base_layer(
            l@,
            match o {
                Some(x) => Some(x@),
                None => None,
            },
        ),
{
    let (merged, ov) = match o {
        Some(Json::Object(om)) => {
            proof {
                lemma_object_view(*om);
            }
            overlay_exec(own_members_of(l), om)
        },
        _ => {
            let ov: Vec<String> = Vec::new();
            assert(strings_view(ov@) =~= Seq::<Seq<char>>::empty());
            (own_members_of(l), ov)
        },
    };
    let src = if ov.len() == 0 { "inherited" } else { "override" };
    let t = tag_ov_src_members(merged, &ov, src);
    proof {
        lemma_object_view(t);
    }
    Json::Object(t)
}

fn added_layer_exec(l: &Json) -> (r: Json)
    ensures
        r@ == added_layer(l@),
{
    let m = own_members_of(l);
    let keys = keys_in(&m);
    let mut t = tag_ov_src_members(m, &keys, "local");
    obj_insert(&mut t, lit("_added"), Json::Bool(true));
    proof {
        lemma_object_view(t);
    }
    Json::Object(t)
}

/// Architecture composed from the base topology it extends (see `arch_extends`).
pub fn resolve_arch_extends(base: &Json, arch: &Json) -> (r: Json)
    ensures
        r@ == arch_extends(base@, arch@),
{
    let ovr = members_of(arch, "layers");
    let bl = members_of(base, "layers");
    let ghost ovv = members_view(ovr@);
    let ghost blv = members_view(bl@);
    let mut layers: Vec<(String, Json)> = Vec::new();
    let mut i: usize = 0;
    proof {
        assert(members_view(layers@) =~= base_layers(blv.take(0), ovv));
    }
    while i < bl.len()
        invariant
            i <= bl@.len(),
            ovv == members_view(ovr@),
            blv == members_view(bl@),
            members_view(layers@) == base_layers(blv.take(i as int), ovv),
        decreases bl@.len() - i,
    {
        proof {
            assert(blv.take(i + 1).drop_last() =~= blv.take(i as int));
            lemma_key_index(ovv, blv[i as int].0);
        }
        let o = match find_key(&ovr, bl[i].0.as_str()) {
            Some(j) => Some(&ovr[j].1),
            None => None,
        };
        let layer = base_layer_exec(&bl[i].1, o);
        obj_insert(&mut layers, bl[i].0.clone(), layer);
        i = i + 1;
    }
    proof {
        assert(blv.take(i as int) =~= blv);
    }
    let ghost acc0 = members_view(layers@);
    let mut k: usize = 0;
    while k < ovr.len()
        invariant
            k <= ovr@.len(),
            ovv == members_view(ovr@),
            members_view(layers@) == add_layers(acc0, ovv.take(k as int)),
        decreases ovr@.len() - k,
    {
        proof {
            assert(ovv.take(k + 1).drop_last() =~= ovv.take(k as int));
            lemma_key_index(members_view(layers@), ovv[k as int].0);
        }
        match find_key(&layers, ovr[k].0.as_str()) {
            Some(_) => {},
            None => {
                let layer = added_layer_exec(&ovr[k].1);
                obj_insert(&mut layers, ovr[k].0.clone(), layer);
            },
        }
        k = k + 1;
    }
    proof {
        assert(ovv.take(k as int) =~= ovv);
        lemma_object_view(layers);
    }
    let mut out: Vec<(String, Json)> = Vec::new();
    out.push((lit("pattern"), get_or(base, "pattern", Json::Null)));
    out.push((lit("basis"), get_or(base, "basis", Json::Null)));
    out.push((lit("dependency_rule"), get_or(base, "dependency_rule", Json::Null)));
    out.push((lit("description"), get_or(base, "description", Json::Null)));
    out.push((lit("extends"), get_or(arch, "extends", Json::Null)));
    out.push((lit("fluid"), get_or(arch, "fluid", Json::Bool(false))));
    out.push((lit("layers"), Json::Object(layers)));
    proof {
        lemma_object_view(out);
        match arch_extends(base@, arch@) {
            JVal::Object(spec_m) => {
                assert(members_view(out@) =~= spec_m);
            },
            _ => {},
        }
    }
    Json::Object(out)
}

/// A self-contained architecture (see `arch_inline`).
pub fn resolve_arch_inline(arch: &Json) -> (r: Json)
    ensures
        r@ == arch_inline(arch@),
{
    let ls = members_of(arch, "layers");
    let ghost lsv = members_view(ls@);
    let mut layers: Vec<(String, Json)> = Vec::new();
    let mut i: usize = 0;
    proof {
        assert(members_view(layers@) =~= local_layers(lsv.take(0)));
    }
    while i < ls.len()
        invariant
            i <= ls@.len(),
            lsv == members_view(ls@),
            members_view(layers@) == local_layers(lsv.take(i as int)),
        decreases ls@.len() - i,
    {
        proof {
            assert(lsv.take(i + 1).drop_last() =~= lsv.take(i as int));
        }
        let none: Vec<String> = Vec::new();
        assert(strings_view(none@) =~= Seq::<Seq<char>>::empty());
        let t = tag_ov_src_members(own_members_of(&ls[i].1), &none, "local");
        proof {
            lemma_object_view(t);
        }
        obj_insert(&mut layers, ls[i].0.clone(), Json::Object(t));
        i = i + 1;
    }
    proof {
        assert(lsv.take(i as int) =~= lsv);
        lemma_object_view(layers);
    }
    let own = own_members_of(arch);
    let ghost ownv = members_view(own@);
    let mut out: Vec<(String, Json)> = Vec::new();
    let mut k: usize = 0;
    proof {
        assert(members_view(out@) =~= without_layers(ownv.take(0)));
    }
    while k < own.len()
        invariant
            k <= own@.len(),
            ownv == members_view(own@),
            members_view(out@) == without_layers(ownv.take(k as int)),
        decreases own@.len() - k,
    {
        proof {
            assert(ownv.take(k + 1).drop_last() =~= ownv.take(k as int));
        }
        if !str_eq(own[k].0.as_str(), "layers") {
            obj_insert(&mut out, own[k].0.clone(), own[k].1.deep_clone());
        }
        k = k + 1;
    }
    proof {
        assert(ownv.take(k as int) =~= ownv);
    }
    obj_insert(&mut out, lit("layers"), Json::Object(layers));
    proof {
        lemma_object_view(out);
    }
    Json::Object(out)
}

/// A copy of the fragment loaded for `rel` (`Null` when absent).
fn load_of(files: &Vec<(String, Json)>, rel: &str) -> (r: Json)
    ensures
        r@ == load(members_view(files@), rel@),
{
    proof {
        lemma_key_index(members_view(files@), rel@);
    }
    match find_key(files, rel) {
        Some(i) => files[i].1.deep_clone(),
        None => Json::Null,
    }
}

fn loads_of(files: &Vec<(String, Json)>, rels: &Vec<String>) -> (r: Vec<Json>)
    ensures
        items_view(r@) == loads(members_view(files@), strings_view(rels@)),
{
    let ghost target = loads(members_view(files@), strings_view(rels@));
    let mut out: Vec<Json> = Vec::new();
    let mut i: usize = 0;
    while i < rels.len()
        invariant
            i <= rels@.len(),
            target == loads(members_view(files@), strings_view(rels@)),
            items_view(out@) == target.take(i as int),
        decreases rels@.len() - i,
    {
        let d = load_of(files, rels[i].as_str());
        let ghost before = out@;
        out.push(d);
        proof {
            assert(items_view(out@) =~= items_view(before).push(d@));
            assert(target.take(i + 1) =~= target.take(i as int).push(d@));
        }
        i = i + 1;
    }
    assert(target.take(i as int) =~= target);
    out
}

fn merged_tables_exec(srcs: &Vec<Json>, key: &str) -> (r: Vec<(String, Json)>)
    ensures
        members_view(r@) == merged_tables(items_view(srcs@), key@),
{
    let ghost sv = items_view(srcs@);
    let mut acc: Vec<(String, Json)> = Vec::new();
    let mut i: usize = 0;
    proof {
        assert(members_view(acc@) =~= merged_tables(sv.take(0), key@));
    }
    while i < srcs.len()
        invariant
            i <= srcs@.len(),
            sv == items_view(srcs@),
            members_view(acc@) == merged_tables(sv.take(i as int), key@),
        decreases srcs@.len() - i,
    {
        proof {
            assert(sv.take(i + 1).drop_last() =~= sv.take(i as int));
        }
        let t = members_of(&srcs[i], key);
        obj_insert_all(&mut acc, &t);
        i = i + 1;
    }
    assert(sv.take(i as int) =~= sv);
    acc
}

fn concat_arrays_exec(srcs: &Vec<Json>, key: &str) -> (r: Vec<Json>)
    ensures
        items_view(r@) == concat_arrays(items_view(srcs@), key@),
{
    let ghost sv = items_view(srcs@);
    let mut acc: Vec<Json> = Vec::new();
    let mut i: usize = 0;
    proof {
        assert(items_view(acc@) =~= concat_arrays(sv.take(0), key@));
    }
    while i < srcs.len()
        invariant
            i <= srcs@.len(),
            sv == items_view(srcs@),
            items_view(acc@) == concat_arrays(sv.take(i as int), key@),
        decreases srcs@.len() - i,
    {
        proof {
            assert(sv.take(i + 1).drop_last() =~= sv.take(i as int));
        }
        let t = items_of(&srcs[i], key);
        append_items(&mut acc, &t);
        i = i + 1;
    }
    assert(sv.take(i as int) =~= sv);
    acc
}

proof fn lemma_empty_values(m: Vec<(String, Json)>, a: Vec<Json>)
    requires
        m@.len() == 0,
        a@.len() == 0,
    ensures
        jv(Json::Object(m)) == empty_obj(),
        jv(Json::Array(a)) == empty_arr(),
{
    lemma_object_view(m);
    lemma_array_view(a);
    assert(members_view(m@) =~= Seq::empty());
    assert(items_view(a@) =~= Seq::empty());
}

fn project_exec(g: &Json) -> (r: Vec<(String, Json)>)
    ensures
        members_view(r@) == project_of(g@),
{
    let mut p = members_of(g, "project");
    let ghost pv = members_view(p@);
    proof {
        lemma_key_index(pv, "intent"@);
    }
    let collapsed = match find_key(&p, "intent") {
        Some(i) => match &p[i].1 {
            Json::Str(s) => {
                let c = collapse_chars(&chars_of(s.as_str()));
                Some(string_of(&c))
            },
            _ => None,
        },
        None => None,
    };
    match collapsed {
        Some(c) => {
            obj_insert(&mut p, lit("intent"), Json::Str(c));
        },
        None => {},
    }
    p
}

/// Merges the table-valued entries of `t` into `acc`.
fn merge_tables_exec(acc: &mut Vec<(String, Json)>, t: &Vec<(String, Json)>)
    ensures
        members_view(final(acc)@) == merge_tables(members_view(old(acc)@), members_view(t@)),
{
    let ghost start = members_view(acc@);
    let ghost tv = members_view(t@);
    let mut i: usize = 0;
    while i < t.len()
        invariant
            i <= t@.len(),
            tv == members_view(t@),
            members_view(acc@) == merge_tables(start, tv.take(i as int)),
        decreases t@.len() - i,
    {
        proof {
            assert(tv.take(i + 1).drop_last() =~= tv.take(i as int));
        }
        match &t[i].1 {
            Json::Object(_) => {
                obj_insert(acc, t[i].0.clone(), t[i].1.deep_clone());
            },
            _ => {},
        }
        i = i + 1;
    }
    assert(tv.take(i as int) =~= tv);
}

fn policy_bodies_exec(files: &Vec<(String, Json)>, rels: &Vec<String>, shared: bool) -> (r: Vec<(String, Json)>)
    ensures
        members_view(r@) == policy_bodies(members_view(files@), strings_view(rels@), shared),
{
    let ghost rv = strings_view(rels@);
    let ghost fv = members_view(files@);
    let mut acc: Vec<(String, Json)> = Vec::new();
    let mut i: usize = 0;
    proof {
        assert(members_view(acc@) =~= policy_bodies(fv, rv.take(0), shared));
    }
    while i < rels.len()
        invariant
            i <= rels@.len(),
            rv == strings_view(rels@),
            fv == members_view(files@),
            members_view(acc@) == policy_bodies(fv, rv.take(i as int), shared),
        decreases rels@.len() - i,
    {
        proof {
            assert(rv.take(i + 1).drop_last() =~= rv.take(i as int));
            assert(rv[i as int] == rels@[i as int]@);
        }
        if starts_with(rels[i].as_str(), "org/") == shared {
            let d = load_of(files, rels[i].as_str());
            let t = own_members_of(&d);
            merge_tables_exec(&mut acc, &t);
        }
        i = i + 1;
    }
    assert(rv.take(i as int) =~= rv);
    acc
}

fn inherited_policies_exec(base: &Vec<(String, Json)>) -> (r: Vec<(String, Json)>)
    ensures
        members_view(r@) == inherited_policies(members_view(base@)),
{
    let ghost bv = members_view(base@);
    let mut acc: Vec<(String, Json)> = Vec::new();
    let mut i: usize = 0;
    proof {
        assert(members_view(acc@) =~= inherited_policies(bv.take(0)));
    }
    while i < base.len()
        invariant
            i <= base@.len(),
            bv == members_view(base@),
            members_view(acc@) == inherited_policies(bv.take(i as int)),
        decreases base@.len() - i,
    {
        proof {
            assert(bv.take(i + 1).drop_last() =~= bv.take(i as int));
        }
        let none: Vec<String> = Vec::new();
        assert(strings_view(none@) =~= Seq::<Seq<char>>::empty());
        let t = tag_src_ov_members(own_members_of(&base[i].1), "inherited", &none);
        proof {
            lemma_object_view(t);
        }
        obj_insert(&mut acc, base[i].0.clone(), Json::Object(t));
        i = i + 1;
    }
    assert(bv.take(i as int) =~= bv);
    acc
}

fn changed_keys_exec(existing: &Vec<(String, Json)>, body: &Vec<(String, Json)>) -> (r: Vec<String>)
    ensures
        strings_view(r@) == changed_keys(members_view(existing@), members_view(body@)),
{
    let ghost ev = members_view(existing@);
    let ghost bv = members_view(body@);
    let mut out: Vec<String> = Vec::new();
    let mut i: usize = 0;
    proof {
        assert(strings_view(out@) =~= changed_keys(ev, bv.take(0)));
    }
    while i < body.len()
        invariant
            i <= body@.len(),
            ev == members_view(existing@),
            bv == members_view(body@),
            strings_view(out@) == changed_keys(ev, bv.take(i as int)),
        decreases body@.len() - i,
    {
        proof {
            assert(bv.take(i + 1).drop_last() =~= bv.take(i as int));
        }
        if !same_value_in(existing, body[i].0.as_str(), &body[i].1) {
            let k = body[i].0.clone();
            let ghost before = out@;
            out.push(k);
            proof {
                assert(strings_view(out@) =~= strings_view(before).push(k@));
            }
        }
        i = i + 1;
    }
    assert(bv.take(i as int) =~= bv);
    out
}

fn apply_local_exec(acc: &mut Vec<(String, Json)>, local: &Vec<(String, Json)>)
    ensures
        members_view(final(acc)@) == apply_local(members_view(old(acc)@), members_view(local@)),
{
    let ghost start = members_view(acc@);
    let ghost lv = members_view(local@);
    let mut i: usize = 0;
    while i < local.len()
        invariant
            i <= local@.len(),
            lv == members_view(local@),
            members_view(acc@) == apply_local(start, lv.take(i as int)),
        decreases local@.len() - i,
    {
        proof {
            assert(lv.take(i + 1).drop_last() =~= lv.take(i as int));
            lemma_key_index(members_view(acc@), lv[i as int].0);
        }
        let b = own_members_of(&local[i].1);
        let tagged = match find_key(acc, local[i].0.as_str()) {
            Some(j) => match &acc[j].1 {
                Json::Object(ex) => {
                    proof {
                        lemma_object_view(*ex);
                    }
                    let ov = changed_keys_exec(ex, &b);
                    let mut m = clone_members(ex);
                    obj_insert_all(&mut m, &b);
                    let t = tag_src_ov_members(m, "override", &ov);
                    proof {
                        lemma_object_view(t);
                    }
                    Json::Object(t)
                },
                _ => {
                    let none: Vec<String> = Vec::new();
                    assert(strings_view(none@) =~= Seq::<Seq<char>>::empty());
                    let t = tag_src_ov_members(b, "local", &none);
                    proof {
                        lemma_object_view(t);
                    }
                    Json::Object(t)
                },
            },
            None => {
                let none: Vec<String> = Vec::new();
                assert(strings_view(none@) =~= Seq::<Seq<char>>::empty());
                let t = tag_src_ov_members(b, "local", &none);
                proof {
                    lemma_object_view(t);
                }
                Json::Object(t)
            },
        };
        obj_insert(acc, local[i].0.clone(), tagged);
        i = i + 1;
    }
    assert(lv.take(i as int) =~= lv);
}

fn shared_only_exec(rels: &Vec<String>) -> (r: Vec<String>)
    ensures
        strings_view(r@) == shared_only(strings_view(rels@)),
{
    let ghost rv = strings_view(rels@);
    let mut out: Vec<String> = Vec::new();
    let mut i: usize = 0;
    proof {
        assert(strings_view(out@) =~= shared_only(rv.take(0)));
    }
    while i < rels.len()
        invariant
            i <= rels@.len(),
            rv == strings_view(rels@),
            strings_view(out@) == shared_only(rv.take(i as int)),
        decreases rels@.len() - i,
    {
        proof {
            assert(rv.take(i + 1).drop_last() =~= rv.take(i as int));
            assert(rv[i as int] == rels@[i as int]@);
        }
        if starts_with(rels[i].as_str(), "org/") {
            let k = rels[i].clone();
            let ghost before = out@;
            out.push(k);
            proof {
                assert(strings_view(out@) =~= strings_view(before).push(k@));
            }
        }
        i = i + 1;
    }
    assert(rv.take(i as int) =~= rv);
    out
}

/// `{}`.
pub fn empty_object() -> (r: Json)
    ensures
        r@ == empty_obj(),
{
    let m: Vec<(String, Json)> = Vec::new();
    let a: Vec<Json> = Vec::new();
    proof {
        lemma_empty_values(m, a);
    }
    Json::Object(m)
}

/// `[]`.
pub fn empty_array() -> (r: Json)
    ensures
        r@ == empty_arr(),
{
    let m: Vec<(String, Json)> = Vec::new();
    let a: Vec<Json> = Vec::new();
    proof {
        lemma_empty_values(m, a);
    }
    Json::Array(a)
}

fn facet_items_exec(g: &Json, files: &Vec<(String, Json)>, facet: &str, item_key: &str) -> (r: Vec<Json>)
    ensures
        items_view(r@) == facet_items(g@, members_view(files@), facet@, item_key@),
{
    let rels = include_list_of(g, facet);
    let loaded = loads_of(files, &rels);
    concat_arrays_exec(&loaded, item_key)
}

/// The resolved view of the anchor `g` over the loaded fragments `files`.
fn compose(g: &Json, files: &Vec<(String, Json)>) -> (r: Json)
    ensures
        r@ == embed_of(g@, members_view(files@)),
{
    let ghost fs = members_view(files@);
    let ghost gv = g@;
    // architecture: composed over its base, or self-contained
    let arch = get_or(g, "architecture", empty_object());
    let architecture = match arch.get_str("extends") {
        Some(e) => {
            let base = load_of(files, e.as_str());
            resolve_arch_extends(&base, &arch)
        },
        None => resolve_arch_inline(&arch),
    };
    assert(architecture@ == resolved_arch(gv, fs));
    // nodes and edges: the anchor's own, then each components fragment
    let comp_rels = include_list_of(g, "components");
    let mut srcs: Vec<Json> = Vec::new();
    let gc = g.deep_clone();
    srcs.push(gc);
    let loaded = loads_of(files, &comp_rels);
    append_items(&mut srcs, &loaded);
    proof {
        assert(items_view(seq![gc]) =~= seq![gv]);
        assert(items_view(srcs@) =~= node_sources(gv, fs));
    }
    let nodes = merged_tables_exec(&srcs, "components");
    let edges = concat_arrays_exec(&srcs, "links");
    // policies: shared bases under local overrides
    let prels = include_list_of(g, "policies");
    let base_pol = policy_bodies_exec(files, &prels, true);
    let local_pol = policy_bodies_exec(files, &prels, false);
    let mut policies = inherited_policies_exec(&base_pol);
    apply_local_exec(&mut policies, &local_pol);
    // lifecycle
    let mut lifecycle = items_of(g, "lifecycle");
    let lrels = include_list_of(g, "lifecycle");
    let lloaded = loads_of(files, &lrels);
    let litems = concat_arrays_exec(&lloaded, "item");
    append_items(&mut lifecycle, &litems);
    // planning facets
    let dl = include_list_of(g, "delivery");
    let delivery = if dl.len() > 0 {
        let d = load_of(files, dl[0].as_str());
        let mut m = members_of(&d, "delivery");
        obj_insert(&mut m, lit("estimates"), get_or(&d, "estimate", empty_array()));
        proof {
            reveal_with_fuel(with_arrays, 2);
            lemma_object_view(m);
        }
        Json::Object(m)
    } else {
        empty_object()
    };
    assert(delivery@ == delivery_of(gv, fs));
    let pl = include_list_of(g, "deployment");
    let deployment = if pl.len() > 0 {
        let d = load_of(files, pl[0].as_str());
        get_or(&d, "deployment", empty_object())
    } else {
        empty_object()
    };
    let ql = include_list_of(g, "quality");
    let quality = if ql.len() > 0 {
        let q = load_of(files, ql[0].as_str());
        let mut m = members_of(&q, "quality");
        obj_insert(&mut m, lit("budgets"), get_or(&q, "budget", empty_array()));
        obj_insert(&mut m, lit("gates"), get_or(&q, "gate", empty_array()));
        proof {
            reveal_with_fuel(with_arrays, 3);
            lemma_object_view(m);
        }
        Json::Object(m)
    } else {
        empty_object()
    };
    assert(quality@ == quality_of(gv, fs));
    // control plane
    let questions = facet_items_exec(g, files, "questions", "question");
    let approvals = facet_items_exec(g, files, "approvals", "approval");
    // the embed, in its fixed key order
    let project = project_exec(g);
    let shared = shared_only_exec(&prels);
    let mut out: Vec<(String, Json)> = Vec::new();
    out.push((lit("project"), Json::Object(project)));
    out.push((lit("architecture"), architecture));
    out.push((lit("policies"), Json::Object(policies)));
    out.push((lit("policy_includes"), str_array(&shared)));
    out.push((lit("components"), Json::Object(nodes)));
    out.push((lit("links"), Json::Array(edges)));
    out.push((lit("lifecycle"), Json::Array(lifecycle)));
    out.push((lit("delivery"), delivery));
    out.push((lit("deployment"), deployment));
    out.push((lit("quality"), quality));
    out.push((lit("questions"), Json::Array(questions)));
    out.push((lit("approvals"), Json::Array(approvals)));
    proof {
        lemma_object_view(out);
        lemma_object_view(project);
        lemma_object_view(policies);
        lemma_object_view(nodes);
        lemma_array_view(edges);
        lemma_array_view(lifecycle);
        lemma_array_view(questions);
        lemma_array_view(approvals);
        match embed_of(gv, fs) {
            JVal::Object(spec_m) => {
                assert(members_view(out@) =~= spec_m);
            },
            _ => {},
        }
    }
    Json::Object(out)
}

/// Resolves the anchor `genome` over `files`, the fragments loaded so far, each
/// under the path the anchor names it by. Fails with the first needed fragment
/// (in `needed_files` order) that is not among them; otherwise gives the
/// resolved view.
pub fn resolve(genome: &Json, files: &Vec<(String, Json)>) -> (r: Result<Json, String>)
    ensures
        match r {
            Ok(e) => all_loaded(genome@, members_view(files@)) && e@ == embed_of(
                genome@,
                members_view(files@),
            ),
            Err(rel) => first_missing(genome@, members_view(files@), rel@),
        },
{
    let ghost fs = members_view(files@);
    let need = needed_files(genome);
    let ghost nv = needed(genome@);
    let mut i: usize = 0;
    while i < need.len()
        invariant
            i <= need@.len(),
            strings_view(need@) == nv,
            nv == needed(genome@),
            fs == members_view(files@),
            forall|j: int| 0 <= j < i ==> has_key(fs, #[trigger] nv[j]),
        decreases need@.len() - i,
    {
        proof {
            assert(nv[i as int] == need@[i as int]@);
            lemma_key_index(fs, nv[i as int]);
        }
        match find_key(files, need[i].as_str()) {
            Some(_) => {},
            None => {
                return Err(need[i].clone());
            },
        }
        i = i + 1;
    }
    Ok(compose(genome, files))
}

// ---------------------------------------------------------------------------
// Laws of resolution.
// ---------------------------------------------------------------------------

/// `v` is a table tagged with where it came from.
pub open spec fn src_tagged(v: JVal) -> bool {
    match v {
        JVal::Object(m) => {
            ||| mget(m, "_src"@) == Some(JVal::Str("inherited"@))
            ||| mget(m, "_src"@) == Some(JVal::Str("override"@))
            ||| mget(m, "_src"@) == Some(JVal::Str("local"@))
        },
        _ => false,
    }
}

pub open spec fn all_tagged(m: Seq<(Seq<char>, JVal)>) -> bool {
    forall|i: int| 0 <= i < m.len() ==> src_tagged(#[trigger] m[i].1)
}

proof fn lemma_minsert_tagged(m: Seq<(Seq<char>, JVal)>, k: Seq<char>, v: JVal)
    requires
        all_tagged(m),
        src_tagged(v),
    ensures
        all_tagged(minsert(m, k, v)),
{
    lemma_key_index(m, k);
}

proof fn lemma_tag_src_ov(m: Seq<(Seq<char>, JVal)>, src: Seq<char>, ov: Seq<Seq<char>>)
    ensures
        tag_src_ov(m, src, ov) matches JVal::Object(t) && mget(t, "_src"@) == Some(JVal::Str(src)),
{
    reveal_strlit("_src");
    reveal_strlit("_ov");
    assert("_src"@.len() != "_ov"@.len());
    let a = minsert(m, "_src"@, JVal::Str(src));
    lemma_minsert_get(m, "_src"@, JVal::Str(src), "_src"@);
    lemma_minsert_get(a, "_ov"@, JVal::Array(str_vals(ov)), "_src"@);
}

proof fn lemma_tag_ov_src(m: Seq<(Seq<char>, JVal)>, ov: Seq<Seq<char>>, src: Seq<char>)
    ensures
        tag_ov_src(m, ov, src) matches JVal::Object(t) && mget(t, "_src"@) == Some(JVal::Str(src)),
{
    let a = minsert(m, "_ov"@, JVal::Array(str_vals(ov)));
    lemma_minsert_get(a, "_src"@, JVal::Str(src), "_src"@);
}

proof fn lemma_inherited_tagged(base: Seq<(Seq<char>, JVal)>)
    ensures
        all_tagged(inherited_policies(base)),
    decreases base.len(),
{
    if base.len() > 0 {
        lemma_inherited_tagged(base.drop_last());
        let e = base.last();
        lemma_tag_src_ov(e.1.own_members(), "inherited"@, Seq::empty());
        lemma_minsert_tagged(
            inherited_policies(base.drop_last()),
            e.0,
            tag_src_ov(e.1.own_members(), "inherited"@, Seq::empty()),
        );
    }
}

proof fn lemma_apply_local_tagged(acc: Seq<(Seq<char>, JVal)>, local: Seq<(Seq<char>, JVal)>)
    requires
        all_tagged(acc),
    ensures
        all_tagged(apply_local(acc, local)),
    decreases local.len(),
{
    if local.len() > 0 {
        lemma_apply_local_tagged(acc, local.drop_last());
        let a = apply_local(acc, local.drop_last());
        let e = local.last();
        let b = e.1.own_members();
        match mget(a, e.0) {
            Some(JVal::Object(ex)) => {
                lemma_tag_src_ov(minsert_all(ex, b), "override"@, changed_keys(ex, b));
                lemma_minsert_tagged(a, e.0, tag_src_ov(minsert_all(ex, b), "override"@, changed_keys(ex, b)));
            },
            _ => {
                lemma_tag_src_ov(b, "local"@, Seq::empty());
                lemma_minsert_tagged(a, e.0, tag_src_ov(b, "local"@, Seq::empty()));
            },
        }
    }
}

/// Every resolved policy is a table tagged `inherited` (a shared base nobody
/// overrides), `override` (a base a local policy changes) or `local`.
pub proof fn lemma_policies_tagged(g: JVal, fs: Seq<(Seq<char>, JVal)>)
    ensures
        all_tagged(policies_of(g, fs)),
{
    let rels = include_list(g, "policies"@);
    lemma_inherited_tagged(policy_bodies(fs, rels, true));
    lemma_apply_local_tagged(inherited_policies(policy_bodies(fs, rels, true)), policy_bodies(fs, rels, false));
}

/// A local policy over a base of the same name: each key the local body sets
/// takes its (last) local value, every other key keeps the base's value, and the
/// policy is tagged `override`.
pub proof fn lemma_local_overrides_base(acc: Seq<(Seq<char>, JVal)>, name: Seq<char>, body: JVal, k: Seq<char>)
    requires
        mget(acc, name) matches Some(JVal::Object(_)),
        k != "_src"@,
        k != "_ov"@,
    ensures
        ({
            let ex = mget(acc, name)->Some_0->Object_0;
            mget(local_policy(acc, name, body), name) matches Some(JVal::Object(m)) && mget(m, k) == match last_value(body.own_members(), k) {
                Some(v) => Some(v),
                None => mget(ex, k),
            } && mget(m, "_src"@) == Some(JVal::Str("override"@))
        }),
{
    let ex = mget(acc, name)->Some_0->Object_0;
    let b = body.own_members();
    let merged = minsert_all(ex, b);
    lemma_minsert_all_get(ex, b, k);
    let t1 = minsert(merged, "_src"@, JVal::Str("override"@));
    lemma_minsert_get(merged, "_src"@, JVal::Str("override"@), k);
    lemma_minsert_get(t1, "_ov"@, JVal::Array(str_vals(changed_keys(ex, b))), k);
    lemma_tag_src_ov(merged, "override"@, changed_keys(ex, b));
    lemma_minsert_get(acc, name, tag_src_ov(merged, "override"@, changed_keys(ex, b)), name);
}

proof fn lemma_changed_keys_members(ex: Seq<(Seq<char>, JVal)>, b: Seq<(Seq<char>, JVal)>, k: Seq<char>)
    ensures
        changed_keys(ex, b).contains(k) <==> exists|j: int|
            0 <= j < b.len() && (#[trigger] b[j]).0 == k && !(mget(ex, k) matches Some(x) && jequiv(x, b[j].1)),
    decreases b.len(),
{
    if b.len() > 0 {
        let pre = b.drop_last();
        lemma_changed_keys_members(ex, pre, k);
        let r = changed_keys(ex, pre);
        let e = b.last();
        if exists|j: int| 0 <= j < b.len() && (#[trigger] b[j]).0 == k && !(mget(ex, k) matches Some(x) && jequiv(x, b[j].1)) {
            let j = choose|j: int| 0 <= j < b.len() && (#[trigger] b[j]).0 == k && !(mget(ex, k) matches Some(x) && jequiv(x, b[j].1));
            if j < pre.len() {
                assert(pre[j] == b[j]);
                assert(r.contains(k));
                let i = choose|i: int| 0 <= i < r.len() && r[i] == k;
                if !same_value(ex, e.0, e.1) {
                    assert(r.push(e.0)[i] == k);
                }
            } else {
                assert(b[j] == e);
                assert(!same_value(ex, e.0, e.1));
                assert(r.push(e.0)[r.len() as int] == k);
            }
        }
        if changed_keys(ex, b).contains(k) {
            if r.contains(k) {
                let j = choose|j: int| 0 <= j < pre.len() && (#[trigger] pre[j]).0 == k && !(mget(ex, k) matches Some(x) && jequiv(x, pre[j].1));
                assert(b[j] == pre[j]);
            } else {
                assert(!same_value(ex, e.0, e.1));
                let i = choose|i: int| 0 <= i < r.push(e.0).len() && r.push(e.0)[i] == k;
                assert(i == r.len());
                assert(b[b.len() - 1] == e);
            }
        }
    }
}

/// A local policy over a base of the same name lists as overridden (`_ov`)
/// exactly the keys the local body sets to a value the base does not hold
/// under that key (a different value, or the key absent from the base).
pub proof fn lemma_override_lists_changed(acc: Seq<(Seq<char>, JVal)>, name: Seq<char>, body: JVal, k: Seq<char>)
    requires
        mget(acc, name) matches Some(JVal::Object(_)),
    ensures
        ({
            let ex = mget(acc, name)->Some_0->Object_0;
            let b = body.own_members();
            mget(local_policy(acc, name, body), name) matches Some(JVal::Object(m)) && mget(m, "_ov"@) matches Some(
                JVal::Array(ov),
            ) && (ov.contains(JVal::Str(k)) <==> exists|j: int|
                0 <= j < b.len() && (#[trigger] b[j]).0 == k && !(mget(ex, k) matches Some(x) && jequiv(x, b[j].1)))
        }),
{
    let ex = mget(acc, name)->Some_0->Object_0;
    let b = body.own_members();
    let merged = minsert_all(ex, b);
    let ck = changed_keys(ex, b);
    let t1 = minsert(merged, "_src"@, JVal::Str("override"@));
    lemma_minsert_get(t1, "_ov"@, JVal::Array(str_vals(ck)), "_ov"@);
    lemma_minsert_get(acc, name, tag_src_ov(merged, "override"@, ck), name);
    lemma_changed_keys_members(ex, b, k);
    let ov = str_vals(ck);
    if ov.contains(JVal::Str(k)) {
        let i = choose|i: int| 0 <= i < ov.len() && ov[i] == JVal::Str(k);
        assert(ck[i] == k);
    }
    if ck.contains(k) {
        let i = choose|i: int| 0 <= i < ck.len() && ck[i] == k;
        assert(ov[i] == JVal::Str(k));
    }
}

proof fn lemma_base_layers_tagged(base: Seq<(Seq<char>, JVal)>, ovr: Seq<(Seq<char>, JVal)>)
    ensures
        all_tagged(base_layers(base, ovr)),
    decreases base.len(),
{
    if base.len() > 0 {
        lemma_base_layers_tagged(base.drop_last(), ovr);
        let e = base.last();
        let o = mget(ovr, e.0);
        let r = match o {
            Some(JVal::Object(om)) => overlay(e.1.own_members(), om),
            _ => (e.1.own_members(), Seq::empty()),
        };
        lemma_tag_ov_src(r.0, r.1, if r.1.len() == 0 { "inherited"@ } else { "override"@ });
        lemma_minsert_tagged(base_layers(base.drop_last(), ovr), e.0, base_layer(e.1, o));
    }
}

proof fn lemma_added_tagged(l: JVal)
    ensures
        src_tagged(added_layer(l)),
{
    let m = l.own_members();
    lemma_tag_ov_src(m, keys_of(m), "local"@);
    match tag_ov_src(m, keys_of(m), "local"@) {
        JVal::Object(t) => {
            reveal_strlit("_src");
            reveal_strlit("_added");
            assert("_src"@.len() != "_added"@.len());
            lemma_minsert_get(t, "_added"@, JVal::Bool(true), "_src"@);
        },
        _ => {},
    }
}

proof fn lemma_add_layers_tagged(acc: Seq<(Seq<char>, JVal)>, ovr: Seq<(Seq<char>, JVal)>)
    requires
        all_tagged(acc),
    ensures
        all_tagged(add_layers(acc, ovr)),
    decreases ovr.len(),
{
    if ovr.len() > 0 {
        lemma_add_layers_tagged(acc, ovr.drop_last());
        let a = add_layers(acc, ovr.drop_last());
        let e = ovr.last();
        if !has_key(a, e.0) {
            lemma_added_tagged(e.1);
            lemma_minsert_tagged(a, e.0, added_layer(e.1));
        }
    }
}

proof fn lemma_local_layers_tagged(ls: Seq<(Seq<char>, JVal)>)
    ensures
        all_tagged(local_layers(ls)),
    decreases ls.len(),
{
    if ls.len() > 0 {
        lemma_local_layers_tagged(ls.drop_last());
        let e = ls.last();
        lemma_tag_ov_src(e.1.own_members(), Seq::empty(), "local"@);
        lemma_minsert_tagged(
            local_layers(ls.drop_last()),
            e.0,
            tag_ov_src(e.1.own_members(), Seq::empty(), "local"@),
        );
    }
}

/// Every resolved layer is tagged `inherited`, `override` or `local`, whether
/// the architecture extends a base topology or stands on its own.
pub proof fn lemma_layers_tagged(g: JVal, fs: Seq<(Seq<char>, JVal)>)
    ensures
        resolved_arch(g, fs).get("layers"@) matches Some(JVal::Object(ls)) && all_tagged(ls),
{
    let arch = arch_of(g);
    reveal_strlit("layers");
    reveal_strlit("pattern");
    reveal_strlit("basis");
    reveal_strlit("dependency_rule");
    reveal_strlit("description");
    reveal_strlit("extends");
    reveal_strlit("fluid");
    match arch.get_str("extends"@) {
        Some(e) => {
            let base = load(fs, e);
            let ovr = arch.members("layers"@);
            lemma_base_layers_tagged(base.members("layers"@), ovr);
            lemma_add_layers_tagged(base_layers(base.members("layers"@), ovr), ovr);
            let out = match arch_extends(base, arch) {
                JVal::Object(o) => o,
                _ => Seq::empty(),
            };
            lemma_key_index(out, "layers"@);
            assert("pattern"@.len() != "layers"@.len());
            assert("basis"@.len() != "layers"@.len());
            assert("dependency_rule"@.len() != "layers"@.len());
            assert("description"@.len() != "layers"@.len());
            assert("extends"@.len() != "layers"@.len());
            assert("fluid"@.len() != "layers"@.len());
            assert(out[6].0 == "layers"@);
            assert(is_first_key(out, "layers"@, 6));
        },
        None => {
            lemma_local_layers_tagged(arch.members("layers"@));
            lemma_minsert_get(
                without_layers(arch.own_members()),
                "layers"@,
                JVal::Object(local_layers(arch.members("layers"@))),
                "layers"@,
            );
        },
    }
}

} // verus!
