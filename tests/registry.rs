use l10nregistry::locale::Locale;
use l10nregistry::registry::{L10nRegistry, L10nRegistrySetupError};
use l10nregistry::source::FileSource;

fn en() -> Locale {
    Locale::parse("en-US").unwrap()
}

#[test]
fn register_appends_to_group() {
    let mut reg: L10nRegistry<(), ()> = L10nRegistry::with_provider(());
    reg.register_sources(vec![
        FileSource::new("p1".to_string(), "app".to_string(), vec![en()]),
        FileSource::new("p2".to_string(), "app".to_string(), vec![en()]),
    ])
    .unwrap();
    let lock = reg.lock();
    assert_eq!(lock.metasources_len(), 1);
    assert_eq!(lock.len(0), 2);
    assert_eq!(lock.source_idx(0, 0).name(), "p2");
    assert_eq!(lock.source_idx(0, 1).name(), "p1");
}

fn names(reg: &L10nRegistry<(), ()>) -> Vec<String> {
    reg.get_source_names().unwrap()
}

#[test]
fn groups_by_metasource() {
    let mut reg: L10nRegistry<(), ()> = L10nRegistry::with_provider(());
    reg.register_sources(vec![
        FileSource::new("a".to_string(), "app".to_string(), vec![en()]),
        FileSource::new("b".to_string(), "langpack".to_string(), vec![en()]),
        FileSource::new("c".to_string(), "app".to_string(), vec![en()]),
    ])
    .unwrap();
    let lock = reg.lock();
    assert_eq!(lock.metasources_len(), 2);
    assert_eq!(lock.len(0), 2);
    assert_eq!(lock.len(1), 1);
    assert!(!lock.is_empty(1));
    assert_eq!(lock.iter(0).iter().map(|s| s.name().to_string()).collect::<Vec<_>>(), vec!["a", "c"]);
    drop(lock);
    assert_eq!(names(&reg), vec!["a", "c", "b"]);
}

#[test]
fn update_replaces_by_identity() {
    let mut reg: L10nRegistry<(), ()> = L10nRegistry::with_provider(());
    reg.register_sources(vec![FileSource::new("a".to_string(), "app".to_string(), vec![en()])])
        .unwrap();
    let de = Locale::parse("de").unwrap();
    reg.update_sources(vec![FileSource::new("a".to_string(), "app".to_string(), vec![de])])
        .unwrap();
    let s = reg.get_source("a").unwrap().unwrap();
    assert_eq!(s.locales().len(), 1);
    assert_eq!(s.locales()[0].tag(), "de");
}

#[test]
fn update_of_unknown_source_fails() {
    let mut reg: L10nRegistry<(), ()> = L10nRegistry::with_provider(());
    reg.register_sources(vec![FileSource::new("a".to_string(), "app".to_string(), vec![en()])])
        .unwrap();
    let r = reg.update_sources(vec![FileSource::new("zz".to_string(), "app".to_string(), vec![en()])]);
    assert_eq!(r, Err(L10nRegistrySetupError::MissingSource { name: "zz".to_string() }));
    let r = reg.update_sources(vec![FileSource::new("zz".to_string(), "other".to_string(), vec![en()])]);
    assert_eq!(r, Err(L10nRegistrySetupError::MissingSource { name: "zz".to_string() }));
    assert_eq!(reg.lock().metasources_len(), 1);
}

#[test]
fn remove_and_clear() {
    let mut reg: L10nRegistry<(), ()> = L10nRegistry::with_provider(());
    reg.register_sources(vec![
        FileSource::new("a".to_string(), "app".to_string(), vec![en()]),
        FileSource::new("b".to_string(), "app".to_string(), vec![en()]),
    ])
    .unwrap();
    reg.remove_sources(vec!["a".to_string()]).unwrap();
    assert_eq!(names(&reg), vec!["b"]);
    assert_eq!(reg.has_source("a"), Ok(false));
    assert_eq!(reg.has_source("b"), Ok(true));
    reg.clear_sources().unwrap();
    assert!(names(&reg).is_empty());
    assert_eq!(reg.lock().metasources_len(), 0);
}

#[test]
fn get_source_finds_first_by_name() {
    let mut reg: L10nRegistry<(), ()> = L10nRegistry::with_provider(());
    reg.register_sources(vec![
        FileSource::new("a".to_string(), "app".to_string(), vec![en()]),
        FileSource::new("a".to_string(), "other".to_string(), vec![]),
    ])
    .unwrap();
    assert_eq!(reg.get_source("a").unwrap().unwrap().metasource(), "app");
    assert!(reg.get_source("nope").unwrap().is_none());
    assert_eq!(reg.lock().get_source(1, "a").unwrap().metasource(), "other");
}

#[test]
fn available_locales_are_distinct() {
    let mut reg: L10nRegistry<(), ()> = L10nRegistry::with_provider(());
    let de = || Locale::parse("de").unwrap();
    reg.register_sources(vec![
        FileSource::new("a".to_string(), "app".to_string(), vec![en(), de()]),
        FileSource::new("b".to_string(), "app".to_string(), vec![de()]),
    ])
    .unwrap();
    let locs: Vec<String> = reg.get_available_locales().unwrap().iter().map(|l| l.tag().to_string()).collect();
    assert_eq!(locs, vec!["en-US", "de"]);
}

#[test]
fn adapter_and_provider() {
    let mut reg: L10nRegistry<u32, &'static str> = L10nRegistry::with_provider(7);
    assert!(reg.adapt_bundle().is_none());
    assert_eq!(reg.set_adapt_bundle("adapt"), Ok(()));
    assert_eq!(reg.adapt_bundle(), &Some("adapt"));
    assert_eq!(*reg.provider(), 7);
}

#[test]
fn candidate_sources_skip_known_absent() {
    let mut reg: L10nRegistry<(), ()> = L10nRegistry::with_provider(());
    reg.register_sources(vec![
        FileSource::new("p1".to_string(), "app".to_string(), vec![en()]),
        FileSource::new("p2".to_string(), "app".to_string(), vec![en()]),
        FileSource::new("p3".to_string(), "app".to_string(), vec![]),
    ])
    .unwrap();
    assert_eq!(reg.record_probe(0, 1, &en(), "x.res", false), false);
    let lock = reg.lock();
    assert_eq!(lock.generate_sources_for_file(0, &en(), "x.res"), vec![2]);
    assert_eq!(lock.generate_sources_for_file(0, &en(), "y.res"), vec![1, 2]);
}

#[test]
fn locale_tags_are_canonical() {
    assert_eq!(Locale::parse("en-us").unwrap().tag(), "en-US");
    assert_eq!(Locale::parse("SR-latn-rs").unwrap().tag(), "sr-Latn-RS");
    assert!(Locale::parse("not a tag!").is_none());
    assert!(Locale::parse("en-US").unwrap().same(&Locale::parse("en-us").unwrap()));
}

#[test]
fn cache_cell_commits_once() {
    let mut s = FileSource::new("a".to_string(), "app".to_string(), vec![en()]);
    assert_eq!(s.has_file(&en(), "x.res"), None);
    assert_eq!(s.record_file(&en(), "x.res", true), true);
    assert_eq!(s.record_file(&en(), "x.res", false), true);
    assert_eq!(s.has_file(&en(), "x.res"), Some(true));
    assert_eq!(s.has_file(&en(), "y.res"), None);
    let de = Locale::parse("de").unwrap();
    assert_eq!(s.has_file(&de, "x.res"), Some(false));
    assert!(s.duplicate().same_source(&s));
}
