//! The report page: the resolved genome, serialised as compact JSON, put in
//! place of the template's placeholder.
use vstd::prelude::*;
use crate::text::{chars_of, has_prefix, push_char, push_str};

verus! {

/// The marker in the report template that the genome's JSON replaces.
pub open spec fn placeholder() -> Seq<char> {
    "__GENOME_JSON__"@
}

/// `t` with every occurrence of `pat` replaced by `rep`, scanning left to
/// right and resuming after each replaced occurrence (occurrences do not overlap).
pub open spec fn replace_all(t: Seq<char>, pat: Seq<char>, rep: Seq<char>) -> Seq<char>
    decreases t.len(),
{
    if t.len() == 0 || pat.len() == 0 {
        t
    } else if has_prefix(t, pat) {
        rep + replace_all(t.skip(pat.len() as int), pat, rep)
    } else {
        seq![t[0]] + replace_all(t.skip(1), pat, rep)
    }
}

/// Does `p` occur in `t` at index `i`?
fn occurs_at(t: &Vec<char>, p: &Vec<char>, i: usize) -> (r: bool)
    requires
        i <= t@.len(),
    ensures
        r == has_prefix(t@.skip(i as int), p@),
{
    if p.len() > t.len() - i {
        return false;
    }
    let mut k: usize = 0;
    while k < p.len()
        invariant
            i + p@.len() <= t@.len(),
            t@.len() == t.len(),
            k <= p@.len(),
            forall|j: int| 0 <= j < k ==> t@[i + j] == p@[j],
        decreases p@.len() - k,
    {
        if t[i + k] != p[k] {
            assert(t@.skip(i as int).take(p@.len() as int)[k as int] != p@[k as int]);
            return false;
        }
        k = k + 1;
    }
    assert(t@.skip(i as int).take(p@.len() as int) =~= p@);
    true
}

/// The report page: `template` with each placeholder replaced by `js`, the
/// resolved genome as compact JSON.
pub fn fill_template(template: &str, js: &str) -> (r: String)
    ensures
        r@ == replace_all(template@, placeholder(), js@),
{
    proof {
        reveal_strlit("__GENOME_JSON__");
    }
    let t = chars_of(template);
    let p = chars_of("__GENOME_JSON__");
    let ghost pat = placeholder();
    assert(p@.len() > 0);
    let mut out = String::new();
    let mut i: usize = 0;
    assert(t@.skip(0) =~= t@);
    while i < t.len()
        invariant
            i <= t@.len(),
            t@ == template@,
            p@ == pat,
            pat.len() > 0,
            replace_all(template@, pat, js@) == out@ + replace_all(t@.skip(i as int), pat, js@),
        decreases t@.len() - i,
    {
        let ghost rest = t@.skip(i as int);
        if occurs_at(&t, &p, i) {
            assert(rest.skip(pat.len() as int) =~= t@.skip(i + pat.len()));
            push_str(&mut out, js);
            i = i + p.len();
        } else {
            assert(rest[0] == t@[i as int]);
            assert(rest.skip(1) =~= t@.skip(i + 1));
            push_char(&mut out, t[i]);
            i = i + 1;
        }
    }
    assert(t@.skip(i as int).len() == 0);
    out
}

} // verus!
