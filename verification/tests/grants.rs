use trellis::grants::{
    agent_tokens, is_approved, mint_agent_token, plugin_grant, revoke_agent_token, revoke_plugin,
    Grant, Scope,
};

#[test]
fn agent_tokens_are_independent_of_each_other_and_of_plugins() {
    let mut g: Vec<Grant> = Vec::new();
    g.push(Grant {
        plugin: "SCOUT".into(),
        token: "agent_a".into(),
        scope: Scope { read_only: false, subtree: Some(7) },
        standalone: true,
    });
    g.push(Grant {
        plugin: "BOB".into(),
        token: "agent_b".into(),
        scope: Scope { read_only: true, subtree: Some(9) },
        standalone: true,
    });
    // A *plugin* that happens to share a name with an agent.
    g.push(Grant {
        plugin: "SCOUT".into(),
        token: "plug_x".into(),
        scope: Scope::default(),
        standalone: false,
    });
    // Revoking the agent leaves the other agent and the plugin alone.
    revoke_agent_token(&mut g, "SCOUT");
    let tokens: Vec<&str> = g.iter().map(|g| g.token.as_str()).collect();
    assert!(!tokens.contains(&"agent_a"), "the agent's token is gone");
    assert!(tokens.contains(&"agent_b"), "the other agent is untouched");
    assert!(tokens.contains(&"plug_x"), "the plugin's grant is untouched");
}

#[test]
fn agent_names_are_required_and_unique() {
    let mut g: Vec<Grant> = Vec::new();
    let rw = Scope { read_only: false, subtree: None };
    assert_eq!(
        mint_agent_token(&mut g, "   ", rw, "agent_1".into()),
        Err("Give the token a name — the agent's own name.".to_string())
    );
    assert_eq!(mint_agent_token(&mut g, "  Scout ", rw, "agent_1".into()), Ok("agent_1".to_string()));
    assert_eq!(g[0].plugin, "Scout");
    assert_eq!(
        mint_agent_token(&mut g, "SCOUT", rw, "agent_2".into()),
        Err("There is already a token named SCOUT. Revoke it first.".to_string())
    );
    assert_eq!(g.len(), 1);
    // Revoking matches the name exactly.
    revoke_agent_token(&mut g, "scout");
    assert_eq!(g.len(), 1);
    let listed = agent_tokens(&g);
    assert_eq!(listed.len(), 1);
    assert_eq!(listed[0].0, "Scout");
    assert_eq!(listed[0].2, "agent_1");
}

#[test]
fn a_plugin_keeps_its_token_only_for_the_scope_approved() {
    let mut g: Vec<Grant> = Vec::new();
    g.push(Grant { plugin: "x".into(), token: "agent_x".into(), scope: Scope::default(), standalone: true });
    let ro = Scope { read_only: true, subtree: Some(3) };
    assert!(!is_approved(&g, "x"));
    assert_eq!(plugin_grant(&mut g, "x", ro, "plug_1".into()), "plug_1");
    assert!(is_approved(&g, "x"));
    assert_eq!(plugin_grant(&mut g, "x", ro, "plug_2".into()), "plug_1");
    assert_eq!(plugin_grant(&mut g, "x", Scope::default(), "plug_3".into()), "plug_3");
    assert_eq!(g.len(), 2);
    assert_eq!(g[0].token, "agent_x");
    revoke_plugin(&mut g, "x");
    assert_eq!(g.len(), 1);
    assert_eq!(g[0].token, "agent_x");
}
