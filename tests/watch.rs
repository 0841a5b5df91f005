use gd_death_counter::cache::FileCache;
use gd_death_counter::level::Level;
use gd_death_counter::watch::{is_metric_path, ChangeEvent, DataWatcher, Reading};

fn level(deaths: &[(&str, u32)], runs: &[(&str, u32)]) -> Level {
    Level::new(
        deaths.iter().map(|(k, v)| (k.to_string(), *v)).collect(),
        runs.iter().map(|(k, v)| (k.to_string(), *v)).collect(),
    )
}

fn good(path: &str, deaths: &[(&str, u32)], runs: &[(&str, u32)]) -> Reading {
    Reading { path: path.to_string(), level: Some(level(deaths, runs)) }
}

fn bad(path: &str) -> Reading {
    Reading { path: path.to_string(), level: None }
}

/// Records an emitted total as written.
fn offer(w: &mut DataWatcher, total: Option<u32>) -> Option<u32> {
    if let Some(t) = total {
        w.mark_written(t);
    }
    total
}

#[test]
fn worked_scenario() {
    let mut w = DataWatcher::new(5);
    w.compute_all_deaths(&vec![
        good("/d/a.json", &[("x", 2)], &[]),
        good("/d/b.json", &[], &[("y", 3)]),
    ]);
    let first = w.emission_for(w.get_total_deaths());
    assert_eq!(offer(&mut w, first), Some(10));

    let r = w.handle(&ChangeEvent::Removed(vec!["/d/a.json".to_string()]));
    assert_eq!(offer(&mut w, r), Some(8));

    let r = w.handle(&ChangeEvent::Created(vec![good("/d/c.json", &[("z", 1)], &[])]));
    assert_eq!(offer(&mut w, r), Some(9));

    let r = w.handle(&ChangeEvent::Modified(vec![good("/d/b.json", &[], &[("y", 3), ("w", 1)])]));
    assert_eq!(offer(&mut w, r), Some(10));
    assert_eq!(w.previous(), Some(10));
}

#[test]
fn total_deaths_sums_both_maps() {
    assert_eq!(level(&[("a", 1), ("b", 2)], &[("c", 4)]).total_deaths(), 7);
    assert_eq!(level(&[], &[]).total_deaths(), 0);
    assert_eq!(Level::default().total_deaths(), 0);
}

#[test]
fn total_deaths_saturates() {
    assert_eq!(level(&[("a", u32::MAX)], &[("b", 1)]).total_deaths(), u32::MAX);
    assert_eq!(level(&[("a", u32::MAX - 1), ("b", 1)], &[]).total_deaths(), u32::MAX);
}

#[test]
fn level_accessors_keep_entries() {
    let l = level(&[("a", 1)], &[("b", 2), ("c", 3)]);
    assert_eq!(l.deaths().len(), 1);
    assert_eq!(l.runs()[1], ("c".to_string(), 3));
}

#[test]
fn metric_path_extension() {
    assert!(is_metric_path(&"/d/a.json".to_string()));
    assert!(is_metric_path(&"a.json".to_string()));
    assert!(is_metric_path(&"/d/..json".to_string()));
    assert!(!is_metric_path(&"/d/.json".to_string()));
    assert!(!is_metric_path(&".json".to_string()));
    assert!(!is_metric_path(&"/d/a.JSON".to_string()));
    assert!(!is_metric_path(&"/d/a.jsonx".to_string()));
    assert!(!is_metric_path(&"/d/a.txt".to_string()));
    assert!(!is_metric_path(&"".to_string()));
}

#[test]
fn cache_upsert_remove_sum() {
    let mut c = FileCache::new();
    c.upsert("/a".to_string(), 3);
    c.upsert("/b".to_string(), 4);
    assert_eq!(c.sum(), 7);
    c.upsert("/a".to_string(), 10);
    assert_eq!(c.len(), 2);
    assert_eq!(c.get(&"/a".to_string()), Some(10));
    assert_eq!(c.sum(), 14);
    c.remove(&"/a".to_string());
    assert_eq!(c.get(&"/a".to_string()), None);
    assert_eq!(c.sum(), 4);
    c.remove(&"/a".to_string());
    assert_eq!(c.sum(), 4);
    assert_eq!(c.len(), 1);
    c.clear();
    assert_eq!(c.len(), 0);
    assert_eq!(c.sum(), 0);
}

#[test]
fn cache_sum_saturates() {
    let mut c = FileCache::new();
    c.upsert("/a".to_string(), u32::MAX);
    c.upsert("/b".to_string(), 2);
    assert_eq!(c.sum(), u32::MAX);
}

#[test]
fn total_with_baseline_saturates() {
    let mut w = DataWatcher::new(u32::MAX - 1);
    w.compute_deaths(&vec![good("/d/a.json", &[("x", 5)], &[])]);
    assert_eq!(w.get_total_deaths(), u32::MAX);
}

#[test]
fn snapshot_total_is_baseline_plus_file_sums() {
    let mut w = DataWatcher::new(2);
    w.compute_all_deaths(&vec![
        good("/d/a.json", &[("x", 1), ("y", 2)], &[("r", 3)]),
        good("/d/b.json", &[("x", 10)], &[]),
    ]);
    assert_eq!(w.get_total_deaths(), 18);

    let mut v = DataWatcher::new(2);
    v.handle(&ChangeEvent::Created(vec![good("/d/b.json", &[("x", 7)], &[])]));
    v.handle(&ChangeEvent::Created(vec![good("/d/c.json", &[("x", 7)], &[])]));
    v.handle(&ChangeEvent::Modified(vec![good("/d/b.json", &[("x", 10)], &[])]));
    v.handle(&ChangeEvent::Removed(vec!["/d/c.json".to_string()]));
    v.handle(&ChangeEvent::Created(vec![good("/d/a.json", &[("x", 1), ("y", 2)], &[("r", 3)])]));
    assert_eq!(v.get_total_deaths(), w.get_total_deaths());
}

#[test]
fn same_total_twice_emits_once() {
    let mut w = DataWatcher::new(0);
    let mut writes = 0;
    for _ in 0..2 {
        if let Some(t) = w.emission_for(42) {
            w.mark_written(t);
            writes += 1;
        }
    }
    assert_eq!(writes, 1);
    assert_eq!(w.emission_for(43), Some(43));
}

#[test]
fn unchanged_total_is_suppressed() {
    let mut w = DataWatcher::new(1);
    let r = w.handle(&ChangeEvent::Created(vec![good("/d/a.json", &[("x", 1)], &[])]));
    assert_eq!(offer(&mut w, r), Some(2));
    let r = w.handle(&ChangeEvent::Modified(vec![good("/d/a.json", &[], &[("y", 1)])]));
    assert_eq!(r, None);
}

#[test]
fn remove_decreases_by_cached_value() {
    let mut w = DataWatcher::new(1);
    w.compute_deaths(&vec![good("/d/a.json", &[("x", 4)], &[]), good("/d/b.json", &[("x", 6)], &[])]);
    assert_eq!(w.get_total_deaths(), 11);
    w.remove_file(&"/d/a.json".to_string());
    assert_eq!(w.get_total_deaths(), 7);
    w.remove_file(&"/d/zzz.json".to_string());
    assert_eq!(w.get_total_deaths(), 7);
    assert_eq!(w.cached(&"/d/b.json".to_string()), Some(6));
    assert_eq!(w.cached_len(), 1);
}

#[test]
fn remove_files_batch() {
    let mut w = DataWatcher::new(0);
    w.compute_deaths(&vec![
        good("/d/a.json", &[("x", 1)], &[]),
        good("/d/b.json", &[("x", 2)], &[]),
        good("/d/c.json", &[("x", 4)], &[]),
    ]);
    w.remove_files(&vec!["/d/a.json".to_string(), "/d/c.json".to_string(), "/d/a.json".to_string()]);
    assert_eq!(w.get_total_deaths(), 2);
    assert_eq!(w.cached_len(), 1);
}

#[test]
fn malformed_file_is_excluded() {
    let mut w = DataWatcher::new(0);
    let r = w.handle(&ChangeEvent::Created(vec![bad("/d/a.json"), good("/d/b.json", &[("x", 3)], &[])]));
    assert_eq!(r, Some(3));
    assert_eq!(w.cached(&"/d/a.json".to_string()), None);
}

#[test]
fn malformed_file_keeps_prior_value() {
    let mut w = DataWatcher::new(0);
    w.handle(&ChangeEvent::Created(vec![good("/d/a.json", &[("x", 3)], &[])]));
    let r = w.handle(&ChangeEvent::Modified(vec![bad("/d/a.json")]));
    assert_eq!(r, Some(3));
    assert_eq!(w.cached(&"/d/a.json".to_string()), Some(3));
    let r = w.handle(&ChangeEvent::Modified(vec![good("/d/a.json", &[("x", 5)], &[])]));
    assert_eq!(r, Some(5));
}

#[test]
fn non_metric_path_is_ignored() {
    let mut w = DataWatcher::new(0);
    w.handle(&ChangeEvent::Created(vec![good("/d/notes.txt", &[("x", 3)], &[])]));
    assert_eq!(w.get_total_deaths(), 0);
    assert_eq!(w.cached_len(), 0);
}

#[test]
fn ambiguous_rename_rebuilds_from_scan() {
    let mut w = DataWatcher::new(1);
    w.compute_deaths(&vec![good("/d/old.json", &[("x", 50)], &[]), good("/d/b.json", &[("x", 2)], &[])]);
    let scan = vec![good("/d/new.json", &[("x", 50)], &[]), good("/d/b.json", &[("x", 2)], &[]), bad("/d/broken.json")];
    let r = w.handle(&ChangeEvent::AmbiguousRename(scan));
    assert_eq!(r, Some(53));
    assert_eq!(w.cached(&"/d/old.json".to_string()), None);
    assert_eq!(w.cached(&"/d/new.json".to_string()), Some(50));

    let mut fresh = DataWatcher::new(1);
    fresh.compute_all_deaths(&vec![good("/d/new.json", &[("x", 50)], &[]), good("/d/b.json", &[("x", 2)], &[])]);
    assert_eq!(fresh.get_total_deaths(), w.get_total_deaths());
}

#[test]
fn ignored_event_emits_nothing() {
    let mut w = DataWatcher::new(3);
    assert_eq!(w.handle(&ChangeEvent::Ignored), None);
    assert_eq!(w.baseline(), 3);
    assert_eq!(w.previous(), None);
}
