use std::collections::HashMap;

use l10nregistry::driver::{GenerateBundles, Resolution};
use l10nregistry::locale::Locale;
use l10nregistry::registry::L10nRegistry;
use l10nregistry::source::FileSource;

fn loc(tag: &str) -> Locale {
    Locale::parse(tag).unwrap()
}

fn source(name: &str, group: &str, locales: &[&str]) -> FileSource {
    FileSource::new(
        name.to_string(),
        group.to_string(),
        locales.iter().map(|l| loc(l)).collect(),
    )
}

fn ids(list: &[&str]) -> Vec<String> {
    list.iter().map(|s| s.to_string()).collect()
}

#[derive(Default)]
struct Outcome {
    builds: Vec<(String, Vec<String>)>,
    missing: Vec<(String, String)>,
    probes: HashMap<(String, String, String), u32>,
}

/// Runs a resolution to its end; `files` lists (source, locale, resource)
/// triples that exist.
fn run(reg: &mut L10nRegistry<(), ()>, gen: &mut GenerateBundles, files: &[(&str, &str, &str)]) -> Outcome {
    let mut out = Outcome::default();
    loop {
        let step = {
            let lock = reg.lock();
            gen.poll_next(&lock)
        };
        let locale = gen.current_locale().map(|l| l.tag().to_string());
        match step {
            None => break,
            Some(Resolution::Probe(batch)) => {
                let locale = locale.unwrap();
                let results: Vec<bool> = {
                    let lock = reg.lock();
                    batch
                        .iter()
                        .map(|&(i, c)| {
                            let name = lock.source_idx(0, c).name().to_string();
                            let res = gen.res_ids()[i].clone();
                            *out.probes.entry((locale.clone(), name.clone(), res.clone())).or_insert(0) += 1;
                            files.iter().any(|&(s, l, r)| s == name && l == locale && r == res)
                        })
                        .collect()
                };
                for (q, &(i, c)) in batch.iter().enumerate() {
                    gen.apply_probe(reg, i, c, results[q]);
                }
            }
            Some(Resolution::Build(a)) => {
                let lock = reg.lock();
                let names = a.iter().map(|&c| lock.source_idx(0, c).name().to_string()).collect();
                out.builds.push((locale.unwrap(), names));
            }
            Some(Resolution::Missing(i)) => {
                out.missing.push((locale.unwrap(), gen.res_ids()[i].clone()));
            }
            Some(Resolution::Exhausted) => {}
        }
    }
    out
}

fn app_registry() -> L10nRegistry<(), ()> {
    let mut reg: L10nRegistry<(), ()> = L10nRegistry::with_provider(());
    reg.register_sources(vec![source("p1", "app", &["en-US"]), source("p2", "app", &["en-US"])])
        .unwrap();
    reg
}

const FILES: &[(&str, &str, &str)] = &[
    ("p1", "en-US", "a.res"),
    ("p2", "en-US", "a.res"),
    ("p2", "en-US", "b.res"),
];

#[test]
fn override_scenario_selects_latest_for_both() {
    let mut reg = app_registry();
    let mut gen = reg.generate_bundles_for_lang(loc("en-US"), ids(&["a.res", "b.res"]));
    let out = run(&mut reg, &mut gen, FILES);
    assert_eq!(out.builds, vec![("en-US".to_string(), vec!["p2".to_string(), "p2".to_string()])]);
    assert!(out.missing.is_empty());
    assert!(out.probes.values().all(|&n| n <= 1));
}

#[test]
fn missing_resource_is_reported_and_no_bundle() {
    let mut reg = app_registry();
    let mut gen = reg.generate_bundles_for_lang(loc("en-US"), ids(&["a.res", "c.res"]));
    let out = run(&mut reg, &mut gen, FILES);
    assert!(out.builds.is_empty());
    assert_eq!(out.missing, vec![("en-US".to_string(), "c.res".to_string())]);
}

#[test]
fn earlier_source_used_when_later_lacks_resource() {
    let mut reg = app_registry();
    let files = &[("p1", "en-US", "a.res")];
    let mut gen = reg.generate_bundles_for_lang(loc("en-US"), ids(&["a.res"]));
    let out = run(&mut reg, &mut gen, files);
    assert_eq!(out.builds, vec![("en-US".to_string(), vec!["p1".to_string()])]);
    assert!(out.missing.is_empty());
}

#[test]
fn fallback_caches_absence_in_top_source() {
    let mut reg = app_registry();
    let files = &[("p1", "en-US", "a.res")];
    let mut gen = reg.generate_bundles_for_lang(loc("en-US"), ids(&["a.res"]));
    let _ = run(&mut reg, &mut gen, files);
    let lock = reg.lock();
    let top = lock.get_source(0, "p2").unwrap();
    assert_eq!(top.has_file(&loc("en-US"), "a.res"), Some(false));
    let low = lock.get_source(0, "p1").unwrap();
    assert_eq!(low.has_file(&loc("en-US"), "a.res"), Some(true));
}

#[test]
fn exhaustion_moves_to_next_locale() {
    let mut reg: L10nRegistry<(), ()> = L10nRegistry::with_provider(());
    reg.register_sources(vec![source("p1", "app", &["de", "en-US"])]).unwrap();
    let files = &[("p1", "en-US", "a.res")];
    let mut gen = reg.generate_bundles(vec![loc("de"), loc("en-US")], ids(&["a.res"]));
    let out = run(&mut reg, &mut gen, files);
    assert_eq!(out.missing, vec![("de".to_string(), "a.res".to_string())]);
    assert_eq!(out.builds, vec![("en-US".to_string(), vec!["p1".to_string()])]);
}

#[test]
fn exhaustion_with_one_locale_ends_empty() {
    let mut reg = app_registry();
    let mut gen = reg.generate_bundles_for_lang(loc("en-US"), ids(&["z.res"]));
    let out = run(&mut reg, &mut gen, FILES);
    assert!(out.builds.is_empty());
    assert_eq!(out.missing, vec![("en-US".to_string(), "z.res".to_string())]);
}

#[test]
fn second_resolution_probes_nothing() {
    let mut reg = app_registry();
    let mut gen = reg.generate_bundles_for_lang(loc("en-US"), ids(&["a.res", "b.res"]));
    let first = run(&mut reg, &mut gen, FILES);
    let mut gen2 = reg.generate_bundles_for_lang(loc("en-US"), ids(&["a.res", "b.res"]));
    let second = run(&mut reg, &mut gen2, FILES);
    assert!(!first.probes.is_empty());
    assert_eq!(second.probes.get(&("en-US".to_string(), "p2".to_string(), "a.res".to_string())), None);
    assert_eq!(second.probes.get(&("en-US".to_string(), "p2".to_string(), "b.res".to_string())), None);
    assert_eq!(first.builds, second.builds);
}

#[test]
fn repeated_resolution_is_deterministic() {
    let mut reg1 = app_registry();
    let mut reg2 = app_registry();
    let mut g1 = reg1.generate_bundles_for_lang(loc("en-US"), ids(&["a.res", "b.res"]));
    let mut g2 = reg2.generate_bundles_for_lang(loc("en-US"), ids(&["a.res", "b.res"]));
    let o1 = run(&mut reg1, &mut g1, FILES);
    let o2 = run(&mut reg2, &mut g2, FILES);
    assert_eq!(o1.builds, o2.builds);
    assert_eq!(o1.missing, o2.missing);
    assert_eq!(o1.probes, o2.probes);
}

#[test]
fn dropped_resolution_leaves_registry_usable() {
    let mut reg = app_registry();
    {
        let mut gen = reg.generate_bundles_for_lang(loc("en-US"), ids(&["a.res", "b.res"]));
        let step = {
            let lock = reg.lock();
            gen.poll_next(&lock)
        };
        assert_eq!(step, Some(Resolution::Probe(vec![(0, 0), (1, 0)])));
        gen.apply_probe(&mut reg, 0, 0, true);
    }
    assert!(reg.register_sources(vec![source("p3", "app", &["en-US"])]).is_ok());
    let mut gen = reg.generate_bundles_for_lang(loc("en-US"), ids(&["a.res"]));
    let files = &[("p3", "en-US", "a.res")];
    let out = run(&mut reg, &mut gen, files);
    // The cancelled run committed that p2 holds a.res: that stays valid.
    assert_eq!(
        out.builds,
        vec![
            ("en-US".to_string(), vec!["p3".to_string()]),
            ("en-US".to_string(), vec!["p2".to_string()]),
        ]
    );
    assert!(out.probes.get(&("en-US".to_string(), "p2".to_string(), "a.res".to_string())).is_none());
}

#[test]
fn no_locales_means_done() {
    let mut reg = app_registry();
    let mut gen = reg.generate_bundles(vec![], ids(&["a.res"]));
    let lock = reg.lock();
    assert_eq!(gen.poll_next(&lock), None);
}

#[test]
fn unserved_locale_is_absent_without_probe() {
    let mut reg = app_registry();
    let mut gen = reg.generate_bundles_for_lang(loc("fr"), ids(&["a.res"]));
    let out = run(&mut reg, &mut gen, FILES);
    assert!(out.probes.is_empty());
    assert_eq!(out.missing, vec![("fr".to_string(), "a.res".to_string())]);
}

#[test]
fn rejected_assignment_moves_to_alternative() {
    let mut reg = app_registry();
    let mut gen = reg.generate_bundles_for_lang(loc("en-US"), ids(&["a.res"]));
    let out = run(&mut reg, &mut gen, FILES);
    assert_eq!(
        out.builds,
        vec![
            ("en-US".to_string(), vec!["p2".to_string()]),
            ("en-US".to_string(), vec!["p1".to_string()]),
        ]
    );
    assert!(out.missing.is_empty());
}

#[test]
fn interleaved_resolutions_share_the_first_commit() {
    let mut reg = app_registry();
    let mut g1 = reg.generate_bundles_for_lang(loc("en-US"), ids(&["a.res"]));
    let mut g2 = reg.generate_bundles_for_lang(loc("en-US"), ids(&["a.res"]));
    let s1 = {
        let lock = reg.lock();
        g1.poll_next(&lock)
    };
    let s2 = {
        let lock = reg.lock();
        g2.poll_next(&lock)
    };
    assert_eq!(s1, Some(Resolution::Probe(vec![(0, 0)])));
    assert_eq!(s2, Some(Resolution::Probe(vec![(0, 0)])));
    g1.apply_probe(&mut reg, 0, 0, true);
    // A late, differing answer does not override the committed one.
    g2.apply_probe(&mut reg, 0, 0, false);
    let lock = reg.lock();
    assert_eq!(g1.poll_next(&lock), Some(Resolution::Build(vec![0])));
    assert_eq!(g2.poll_next(&lock), Some(Resolution::Build(vec![0])));
    assert_eq!(lock.source_idx(0, 0).has_file(&loc("en-US"), "a.res"), Some(true));
}

#[test]
fn committed_cells_are_not_probed_again_by_a_live_resolution() {
    let mut reg = app_registry();
    let mut g1 = reg.generate_bundles_for_lang(loc("en-US"), ids(&["a.res"]));
    let mut g2 = reg.generate_bundles_for_lang(loc("en-US"), ids(&["a.res"]));
    // g2 selects its locale and is handed out a first assignment.
    let s = {
        let lock = reg.lock();
        g2.poll_next(&lock)
    };
    assert_eq!(s, Some(Resolution::Probe(vec![(0, 0)])));
    g2.apply_probe(&mut reg, 0, 0, true);
    let lock = reg.lock();
    assert_eq!(g2.poll_next(&lock), Some(Resolution::Build(vec![0])));
    drop(lock);
    // g1 is seeded from the cache: nothing left to probe.
    {
        let lock = reg.lock();
        assert_eq!(g1.poll_next(&lock), Some(Resolution::Build(vec![0])));
    }
    // Another resolution commits that p1 lacks a.res; g2 reads it instead
    // of probing it.
    reg.record_probe(0, 1, &loc("en-US"), "a.res", false);
    let lock = reg.lock();
    assert_eq!(g2.poll_next(&lock), Some(Resolution::Exhausted));
}
