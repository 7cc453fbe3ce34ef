//! Who holds an API token: plugin grants, made when a plugin is approved,
//! and tokens issued to agents by name. Tokens themselves are random and
//! minted elsewhere; these rules decide which token a grant keeps.

use vstd::prelude::*;
use crate::links::{ascii_eq_ignore_case, ascii_eq_ignore_case_exec};
use crate::names::str_eq;
use crate::text::{chars_of, concat_chars, string_of, trim, trim_chars};

verus! {

/// What a token may do: read only or read and change, in one basket and
/// everything under it or in the whole document.
#[derive(Clone, Copy, PartialEq, Eq, Structural)]
pub struct Scope {
    pub read_only: bool,
    pub subtree: Option<u64>,
}

impl Default for Scope {
    fn default() -> (r: Self)
        ensures
            !r.read_only,
            r.subtree is None,
    {
        Scope { read_only: false, subtree: None }
    }
}

/// A token held by a plugin, or (`standalone`) issued to an agent, under a
/// name.
pub struct Grant {
    pub plugin: String,
    pub token: String,
    pub scope: Scope,
    pub standalone: bool,
}

/// A grant as the spec sees it: name, token, scope, standalone.
pub type GrantView = (Seq<char>, Seq<char>, Scope, bool);

/// The view of a grant.
pub open spec fn grant_view(g: Grant) -> GrantView {
    (g.plugin@, g.token@, g.scope, g.standalone)
}

/// The view of a list of grants.
pub open spec fn grants_view(v: Seq<Grant>) -> Seq<GrantView> {
    v.map_values(|g: Grant| grant_view(g))
}

/// The position of the first plugin grant named `name` at or after `i`.
pub open spec fn first_plugin(gs: Seq<GrantView>, name: Seq<char>, i: int) -> int
    decreases gs.len() - i,
{
    if i < 0 || i >= gs.len() {
        gs.len() as int
    } else if gs[i].0 == name && !gs[i].3 {
        i
    } else {
        first_plugin(gs, name, i + 1)
    }
}

/// The grants after approving plugin `name` for `want`, and its token: an
/// existing grant with the same scope keeps its token; one with another
/// scope takes the new scope and the fresh token; a plugin without a grant
/// gets one with the fresh token.
pub open spec fn spec_plugin_grant(gs: Seq<GrantView>, name: Seq<char>, want: Scope, fresh: Seq<char>) -> (
    Seq<GrantView>,
    Seq<char>,
) {
    let i = first_plugin(gs, name, 0);
    if i < gs.len() {
        if gs[i].2 == want {
            (gs, gs[i].1)
        } else {
            (gs.update(i, (gs[i].0, fresh, want, false)), fresh)
        }
    } else {
        (gs.push((name, fresh, want, false)), fresh)
    }
}

fn copy_grant(g: &Grant) -> (r: Grant)
    ensures
        grant_view(r) == grant_view(*g),
{
    Grant { plugin: g.plugin.clone(), token: g.token.clone(), scope: g.scope, standalone: g.standalone }
}

fn find_plugin(gs: &Vec<Grant>, name: &str) -> (r: usize)
    ensures
        r as int == first_plugin(grants_view(gs@), name@, 0),
{
    let ghost v = grants_view(gs@);
    let mut i: usize = 0;
    while i < gs.len()
        invariant
            i <= gs@.len(),
            v == grants_view(gs@),
            first_plugin(v, name@, 0) == first_plugin(v, name@, i as int),
        decreases gs@.len() - i,
    {
        assert(v[i as int] == grant_view(gs@[i as int]));
        if !gs[i].standalone && str_eq(gs[i].plugin.as_str(), name) {
            return i;
        }
        i += 1;
    }
    i
}

/// The token for plugin `name`, approved for `want`, with `fresh` as the
/// token should a new one be needed. A plugin never takes over a token
/// issued to an agent of the same name, and cannot widen its access while
/// keeping the token it was granted under another scope.
pub fn plugin_grant(grants: &mut Vec<Grant>, name: &str, want: Scope, fresh: String) -> (r: String)
    ensures
        (grants_view(final(grants)@), r@) == spec_plugin_grant(
            grants_view(old(grants)@),
            name@,
            want,
            fresh@,
        ),
{
    let ghost v = grants_view(grants@);
    let i = find_plugin(grants, name);
    if i < grants.len() {
        assert(v[i as int] == grant_view(grants@[i as int]));
        if grants[i].scope == want {
            return grants[i].token.clone();
        }
        let g = Grant {
            plugin: grants[i].plugin.clone(),
            token: fresh.clone(),
            scope: want,
            standalone: false,
        };
        grants.set(i, g);
        assert(grants_view(grants@) =~= v.update(i as int, (v[i as int].0, fresh@, want, false)));
        fresh
    } else {
        let g = Grant { plugin: name.to_owned(), token: fresh.clone(), scope: want, standalone: false };
        grants.push(g);
        assert(grants_view(grants@) =~= v.push((name@, fresh@, want, false)));
        fresh
    }
}

/// Whether plugin `name` has been approved.
pub fn is_approved(grants: &Vec<Grant>, name: &str) -> (r: bool)
    ensures
        r == (first_plugin(grants_view(grants@), name@, 0) < grants@.len()),
{
    find_plugin(grants, name) < grants.len()
}

/// `gs` without the grants that `drop` names, in order.
pub open spec fn without(gs: Seq<GrantView>, name: Seq<char>, agents: bool) -> Seq<GrantView>
    decreases gs.len(),
{
    if gs.len() == 0 {
        seq![]
    } else {
        let r = without(gs.drop_last(), name, agents);
        let g = gs.last();
        if g.0 == name && g.3 == agents {
            r
        } else {
            r.push(g)
        }
    }
}

fn remove_named(grants: &mut Vec<Grant>, name: &str, agents: bool)
    ensures
        grants_view(final(grants)@) == without(grants_view(old(grants)@), name@, agents),
{
    let ghost v = grants_view(grants@);
    let mut kept: Vec<Grant> = Vec::new();
    let mut i: usize = 0;
    assert(v.take(0) =~= Seq::<GrantView>::empty());
    while i < grants.len()
        invariant
            i <= grants@.len(),
            v == grants_view(grants@),
            grants_view(kept@) == without(v.take(i as int), name@, agents),
        decreases grants@.len() - i,
    {
        assert(v.take(i + 1).drop_last() =~= v.take(i as int));
        assert(v.take(i + 1).last() == grant_view(grants@[i as int]));
        let named = grants[i].standalone == agents && str_eq(grants[i].plugin.as_str(), name);
        if !named {
            let ghost before = grants_view(kept@);
            let g = copy_grant(&grants[i]);
            kept.push(g);
            assert(grants_view(kept@) =~= before.push(grant_view(g)));
        }
        i += 1;
    }
    assert(v.take(i as int) =~= v);
    *grants = kept;
}

/// Withdraw plugin `name`'s grant; tokens issued to agents stay.
pub fn revoke_plugin(grants: &mut Vec<Grant>, name: &str)
    ensures
        grants_view(final(grants)@) == without(grants_view(old(grants)@), name@, false),
{
    remove_named(grants, name, false);
}

/// Revoke the token issued to the agent named exactly `label`; other
/// agents' tokens and plugin grants stay.
pub fn revoke_agent_token(grants: &mut Vec<Grant>, label: &str)
    ensures
        grants_view(final(grants)@) == without(grants_view(old(grants)@), label@, true),
{
    remove_named(grants, label, true);
}

/// Whether some agent token is named `label`, ignoring ASCII case.
pub open spec fn agent_named(gs: Seq<GrantView>, label: Seq<char>) -> bool {
    exists|i: int| 0 <= i < gs.len() && gs[i].3 && ascii_eq_ignore_case(#[trigger] gs[i].0, label)
}

/// What issuing a token to an agent called `label` does: a blank name and
/// a name already taken (ignoring ASCII case) are refused; otherwise the
/// trimmed name holds `fresh`.
pub open spec fn spec_mint_agent(gs: Seq<GrantView>, label: Seq<char>, scope: Scope, fresh: Seq<char>) -> (
    Seq<GrantView>,
    Result<Seq<char>, Seq<char>>,
) {
    let t = trim(label);
    if t.len() == 0 {
        (gs, Err("Give the token a name — the agent's own name."@))
    } else if agent_named(gs, t) {
        (gs, Err("There is already a token named "@ + t + ". Revoke it first."@))
    } else {
        (gs.push((t, fresh, scope, true)), Ok(fresh))
    }
}

/// Issue `fresh` as the token of an agent called `label`, for `scope`.
/// Two agents sharing a name would make revocation ambiguous, so a taken
/// name is refused rather than replaced.
pub fn mint_agent_token(grants: &mut Vec<Grant>, label: &str, scope: Scope, fresh: String) -> (r: Result<String, String>)
    ensures
        ({
            let (after, res) = spec_mint_agent(grants_view(old(grants)@), label@, scope, fresh@);
            &&& grants_view(final(grants)@) == after
            &&& match r {
                Ok(t) => res == Ok::<Seq<char>, Seq<char>>(t@),
                Err(e) => res == Err::<Seq<char>, Seq<char>>(e@),
            }
        }),
{
    let ghost v = grants_view(grants@);
    let t = trim_chars(&chars_of(label));
    if t.len() == 0 {
        return Err("Give the token a name — the agent's own name.".to_owned());
    }
    let mut i: usize = 0;
    while i < grants.len()
        invariant
            i <= grants@.len(),
            v == grants_view(grants@),
            t@ == trim(label@),
            t@.len() > 0,
            forall|k: int|
                0 <= k < i ==> !(v[k].3 && ascii_eq_ignore_case(#[trigger] v[k].0, t@)),
        decreases grants@.len() - i,
    {
        assert(v[i as int] == grant_view(grants@[i as int]));
        if grants[i].standalone && ascii_eq_ignore_case_exec(&chars_of(grants[i].plugin.as_str()), &t) {
            assert(v[i as int].3 && ascii_eq_ignore_case(v[i as int].0, t@));
            assert(agent_named(v, t@));
            let a = concat_chars(&chars_of("There is already a token named "), &t);
            let m = concat_chars(&a, &chars_of(". Revoke it first."));
            return Err(string_of(&m));
        }
        i += 1;
    }
    let g = Grant { plugin: string_of(&t), token: fresh.clone(), scope, standalone: true };
    grants.push(g);
    assert(grants_view(grants@) =~= v.push((t@, fresh@, scope, true)));
    Ok(fresh)
}

/// The agent tokens among `gs`, in order, as (name, scope, token).
pub open spec fn agent_tokens_of(gs: Seq<GrantView>) -> Seq<(Seq<char>, Scope, Seq<char>)>
    decreases gs.len(),
{
    if gs.len() == 0 {
        seq![]
    } else {
        let r = agent_tokens_of(gs.drop_last());
        let g = gs.last();
        if g.3 {
            r.push((g.0, g.2, g.1))
        } else {
            r
        }
    }
}

/// Every token issued to an agent, as (name, scope, token).
pub fn agent_tokens(grants: &Vec<Grant>) -> (r: Vec<(String, Scope, String)>)
    ensures
        r@.map_values(|x: (String, Scope, String)| (x.0@, x.1, x.2@)) == agent_tokens_of(
            grants_view(grants@),
        ),
{
    let ghost v = grants_view(grants@);
    let mut out: Vec<(String, Scope, String)> = Vec::new();
    let mut i: usize = 0;
    assert(v.take(0) =~= Seq::<GrantView>::empty());
    while i < grants.len()
        invariant
            i <= grants@.len(),
            v == grants_view(grants@),
            out@.map_values(|x: (String, Scope, String)| (x.0@, x.1, x.2@)) == agent_tokens_of(
                v.take(i as int),
            ),
        decreases grants@.len() - i,
    {
        assert(v.take(i + 1).drop_last() =~= v.take(i as int));
        assert(v.take(i + 1).last() == grant_view(grants@[i as int]));
        if grants[i].standalone {
            let ghost before = out@.map_values(|x: (String, Scope, String)| (x.0@, x.1, x.2@));
            let x = (grants[i].plugin.clone(), grants[i].scope, grants[i].token.clone());
            out.push(x);
            assert(out@.map_values(|x: (String, Scope, String)| (x.0@, x.1, x.2@)) =~= before.push(
                (x.0@, x.1, x.2@),
            ));
        }
        i += 1;
    }
    assert(v.take(i as int) =~= v);
    out
}

} // verus!
