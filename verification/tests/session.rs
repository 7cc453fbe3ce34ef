use trellis::session::{
    startup_document, MasterRef, OpenOutcome, Startup, StartupSource, TokenTarget,
};

#[test]
fn a_bare_start_overrides_nothing() {
    let s = Startup::default();
    assert!(s.doc.is_none() && s.port.is_none() && s.data_dir.is_none());
    let m = MasterRef { node: 3, card: 9 };
    let copy = m;
    assert!(copy == m);
    assert!(TokenTarget::Existing(4) != TokenTarget::Existing(5));
    assert!(TokenTarget::NewBasket != TokenTarget::WholeDocument);
}

#[test]
fn startup_prefers_the_named_document() {
    let r = startup_document(Some("/n/a.ron".into()), OpenOutcome::Loaded, Some("/n/last.ron".into()), true, true);
    assert_eq!(r.source, StartupSource::Named);
    assert_eq!(r.path.as_deref(), Some("/n/a.ron"));
    assert_eq!(r.status, "Ready");
    let r = startup_document(Some("/n/new.ron".into()), OpenOutcome::Missing, None, false, true);
    assert_eq!(r.source, StartupSource::NewAt);
    assert_eq!(r.path.as_deref(), Some("/n/new.ron"));
    assert_eq!(r.status, "New document \u{2014} saves to /n/new.ron");
}

#[test]
fn a_named_document_that_will_not_load_keeps_no_path() {
    let r = startup_document(Some("/n/bad.ron".into()), OpenOutcome::Failed("bad data".into()), Some("/n/last.ron".into()), true, true);
    assert_eq!(r.source, StartupSource::Autosave);
    assert!(r.path.is_none());
    assert_eq!(r.status, "Could not open /n/bad.ron: bad data");
    let r = startup_document(Some("/n/bad.ron".into()), OpenOutcome::Failed("x".into()), None, false, false);
    assert_eq!(r.source, StartupSource::Welcome);
}

#[test]
fn without_a_named_document_the_last_session_then_the_autosave_opens() {
    let r = startup_document(None, OpenOutcome::Loaded, Some("/n/last.ron".into()), true, true);
    assert_eq!(r.source, StartupSource::LastSession);
    assert_eq!(r.path.as_deref(), Some("/n/last.ron"));
    let r = startup_document(None, OpenOutcome::Loaded, Some("/n/last.ron".into()), false, true);
    assert_eq!(r.source, StartupSource::Autosave);
    assert!(r.path.is_none());
    let r = startup_document(None, OpenOutcome::Missing, None, false, false);
    assert_eq!((r.source, r.status.as_str()), (StartupSource::Welcome, "Ready"));
}
