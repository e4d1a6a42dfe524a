use nettoolkit::bgpq4::config::ExpanderConfig;
use nettoolkit::bgpq4::expander::Expander;
use nettoolkit::bgpq4::expansion::{ExpandAction, ExpandEvent, ExpandRun, Stage};

fn query(s: &str) -> ExpandAction {
    ExpandAction::Query(String::from(s))
}

fn data(items: &[&str]) -> ExpandEvent {
    ExpandEvent::Data(Some(items.iter().map(|s| s.to_string()).collect()))
}

#[test]
fn one_level_expansion_then_origins() {
    let mut e = Expander::new(ExpanderConfig::default());
    assert!(e.add_object("AS-FOO"));
    let mut run = ExpandRun::new();
    assert_eq!(run.step(&mut e, ExpandEvent::Done), ExpandAction::Identify(String::from("bgpq4-rs")));
    assert_eq!(run.step(&mut e, ExpandEvent::Done), ExpandAction::CheckAQuery);
    assert_eq!(run.step(&mut e, ExpandEvent::AQuery(false)), ExpandAction::GetSources);
    assert_eq!(run.step(&mut e, ExpandEvent::Sources(Some(String::from("RADB,RIPE")))), query("!iAS-FOO,1\n"));
    assert_eq!(e.config.defaultsources, "RADB,RIPE");
    assert_eq!(run.step(&mut e, data(&["AS1", "AS2"])), ExpandAction::SetSources(String::from("RADB,RIPE")));
    assert!(e.asn_list.contains(&1) && e.asn_list.contains(&2));
    assert_eq!(run.step(&mut e, ExpandEvent::Done), query("!gas1\n"));
    let routes = vec![String::from("192.0.2.0/24")];
    assert!(run.data_acceptable(&routes));
    assert_eq!(run.step(&mut e, ExpandEvent::Data(Some(routes))), query("!gas2\n"));
    assert_eq!(run.step(&mut e, ExpandEvent::Data(None)), ExpandAction::Quit(true));
    assert_eq!(run.stage, Stage::Finished);
    assert!(!e.tree.is_empty());
}

#[test]
fn aquery_expansion_with_configured_sources() {
    let mut config = ExpanderConfig::default();
    config.identify = false;
    config.sources = String::from("RIPE");
    let mut e = Expander::new(config);
    assert!(e.add_object("AS-FOO"));
    let mut run = ExpandRun::new();
    assert_eq!(run.step(&mut e, ExpandEvent::Done), ExpandAction::CheckAQuery);
    assert_eq!(run.step(&mut e, ExpandEvent::AQuery(true)), ExpandAction::SetSources(String::from("RIPE")));
    assert_eq!(run.step(&mut e, ExpandEvent::SourcesSet(true)), query("!a4AS-FOO\n"));
    assert_eq!(run.step(&mut e, data(&["10.0.0.0/8^16-24"])), ExpandAction::SetSources(String::from("RIPE")));
    assert_eq!(run.step(&mut e, ExpandEvent::Done), ExpandAction::Quit(true));
}

#[test]
fn refused_sources_stop_the_run() {
    let mut config = ExpanderConfig::default();
    config.identify = false;
    config.sources = String::from("NOPE");
    let mut e = Expander::new(config);
    let mut run = ExpandRun::new();
    assert_eq!(run.step(&mut e, ExpandEvent::Done), ExpandAction::SetSources(String::from("NOPE")));
    assert_eq!(
        run.step(&mut e, ExpandEvent::SourcesSet(false)),
        ExpandAction::Fatal(String::from("Invalid source(s) 'NOPE'"))
    );
    assert_eq!(run.stage, Stage::Failed);
}

#[test]
fn nested_expansion_with_depth_limit() {
    let mut config = ExpanderConfig::default();
    config.identify = false;
    config.maxdepth = 5;
    let mut e = Expander::new(config);
    assert!(e.add_object("AS-TOP"));
    let mut run = ExpandRun::new();
    assert_eq!(run.step(&mut e, ExpandEvent::Done), ExpandAction::CheckAQuery);
    assert_eq!(run.step(&mut e, ExpandEvent::AQuery(false)), ExpandAction::GetSources);
    assert_eq!(run.step(&mut e, ExpandEvent::Sources(None)), query("!iAS-TOP\n"));
    assert_eq!(run.step(&mut e, data(&["AS-SUB", "AS10", "ANY", "FOO"])), query("!iAS-SUB\n"));
    assert_eq!(
        run.step(&mut e, data(&["AS20", "AS-TOP"])),
        ExpandAction::Warn(String::from("unexpected object 'FOO' in expanded_macro_limit"))
    );
    assert!(e.asn_list.contains(&10) && e.asn_list.contains(&20));
    assert_eq!(run.step(&mut e, ExpandEvent::Done), query("!gas10\n"));
    assert_eq!(run.step(&mut e, ExpandEvent::Data(None)), query("!gas20\n"));
    assert_eq!(run.step(&mut e, ExpandEvent::Data(None)), ExpandAction::Quit(true));
    assert_eq!(e.already, vec![String::from("as-top"), String::from("as-sub")]);
}

#[test]
fn route_sets_with_own_sources() {
    let mut config = ExpanderConfig::default();
    config.identify = false;
    let mut e = Expander::new(config);
    assert!(e.add_object("RADB::RS-BAR"));
    assert!(e.config.usesource);
    let mut run = ExpandRun::new();
    assert_eq!(run.step(&mut e, ExpandEvent::Done), ExpandAction::GetSources);
    assert_eq!(run.step(&mut e, ExpandEvent::Sources(Some(String::from("RIPE")))), ExpandAction::SetSources(String::from("RIPE")));
    assert_eq!(run.step(&mut e, ExpandEvent::Done), ExpandAction::SetSources(String::from("RADB")));
    assert_eq!(run.step(&mut e, ExpandEvent::Done), query("!iRS-BAR,1\n"));
    let bad = vec![String::from("10.0.0.0/8^16")];
    assert!(run.data_acceptable(&bad));
    assert_eq!(run.step(&mut e, data(&["198.51.100.0/24"])), ExpandAction::Quit(true));
    assert!(!e.tree.is_empty());
}

#[test]
fn run_without_objects_ends_after_sources() {
    let mut config = ExpanderConfig::default();
    config.identify = false;
    let mut e = Expander::new(config);
    let mut run = ExpandRun::new();
    assert_eq!(run.step(&mut e, ExpandEvent::Done), ExpandAction::GetSources);
    assert_eq!(run.stage, Stage::GettingSources);
    assert_eq!(run.step(&mut e, ExpandEvent::Sources(None)), ExpandAction::Quit(true));
    assert_eq!(run.stage, Stage::Finished);
    assert!(e.tree.is_empty());
}
