use vstd::prelude::*;
use vstd::string::*;

use crate::cache::{
    as_map, entries_sum, key_pos, keys_distinct, lemma_entries_sum_nonneg, lemma_entry_in_map,
    lemma_key_pos, lemma_removed, lemma_same_contents_same_sum, lemma_sum_push, removed, upserted,
    Entry, FileCache,
};
use crate::level::{capped, Level};

verus! {

/// A path names a metric file when its file name has the extension `json`:
/// it ends in `.json` with at least one character of file name before it.
pub open spec fn metric_path(s: Seq<char>) -> bool {
    &&& s.len() >= 6
    &&& s[s.len() - 5] == '.'
    &&& s[s.len() - 4] == 'j'
    &&& s[s.len() - 3] == 's'
    &&& s[s.len() - 2] == 'o'
    &&& s[s.len() - 1] == 'n'
    &&& s[s.len() - 6] != '/'
}

/// Whether `path` names a metric file (extension exactly `json`).
pub fn is_metric_path(path: &String) -> (r: bool)
    ensures
        r == metric_path(path@),
{
    let s = path.as_str();
    let n = s.unicode_len();
    if n < 6 {
        return false;
    }
    s.get_char(n - 5) == '.' && s.get_char(n - 4) == 'j' && s.get_char(n - 3) == 's'
        && s.get_char(n - 2) == 'o' && s.get_char(n - 1) == 'n' && s.get_char(n - 6) != '/'
}

/// The outcome of reading one file: its path, and its parsed counters, or
/// `None` when the file could not be opened or parsed.
pub struct Reading {
    pub path: String,
    pub level: Option<Level>,
}

/// What a reading contributes: the file's metric when the path qualifies and
/// the file parsed, nothing otherwise.
pub open spec fn reading_metric(r: Reading) -> Option<u32> {
    if metric_path(r.path@) && r.level is Some {
        Some(capped(r.level->Some_0.metric()))
    } else {
        None
    }
}

/// The cache after the readings are applied in order: a reading that
/// contributes sets its path's metric; any other leaves the cache as it was,
/// so a file that fails to parse keeps the value it had before.
pub open spec fn applied(s: Seq<Entry>, rs: Seq<Reading>) -> Seq<Entry>
    decreases rs.len(),
{
    if rs.len() == 0 {
        s
    } else {
        let t = applied(s, rs.drop_last());
        match reading_metric(rs.last()) {
            Some(v) => upserted(t, rs.last().path@, v),
            None => t,
        }
    }
}

/// The cache built from scratch out of a scan of the directory.
pub open spec fn snapshot(rs: Seq<Reading>) -> Seq<Entry> {
    applied(Seq::empty(), rs)
}

/// The cache after each of the paths is dropped.
pub open spec fn removed_all(s: Seq<Entry>, paths: Seq<String>) -> Seq<Entry>
    decreases paths.len(),
{
    if paths.len() == 0 {
        s
    } else {
        removed(removed_all(s, paths.drop_last()), paths.last()@)
    }
}

/// The aggregate: the baseline plus every cached metric, saturating at `u32::MAX`.
pub open spec fn total_of(baseline: u32, s: Seq<Entry>) -> u32 {
    capped(baseline + entries_sum(s))
}

/// What is emitted for a total: it is sent unless it equals the last one sent.
pub open spec fn to_emit(previous: Option<u32>, total: u32) -> Option<u32> {
    if previous == Some(total) {
        None
    } else {
        Some(total)
    }
}

/// The sum of the contributions of readings that all contribute.
pub open spec fn readings_sum(rs: Seq<Reading>) -> int
    decreases rs.len(),
{
    if rs.len() == 0 {
        0
    } else {
        readings_sum(rs.drop_last()) + reading_metric(rs.last())->Some_0
    }
}

/// One change notification, with what was read for it.
pub enum ChangeEvent {
    /// Files were created; one reading per path.
    Created(Vec<Reading>),
    /// Files were modified; one reading per path.
    Modified(Vec<Reading>),
    /// Files were removed.
    Removed(Vec<String>),
    /// A rename whose source and destination cannot be told apart; carries a
    /// fresh scan of the whole directory.
    AmbiguousRename(Vec<Reading>),
    /// Any other notification; it changes nothing.
    Ignored,
}

/// The cache after an event.
pub open spec fn after_event(s: Seq<Entry>, e: ChangeEvent) -> Seq<Entry> {
    match e {
        ChangeEvent::Created(rs) => applied(s, rs@),
        ChangeEvent::Modified(rs) => applied(s, rs@),
        ChangeEvent::Removed(ps) => removed_all(s, ps@),
        ChangeEvent::AmbiguousRename(rs) => snapshot(rs@),
        ChangeEvent::Ignored => s,
    }
}

/// The running state: the baseline, the cache of per-file metrics, and the
/// last total that reached the output.
pub struct DataWatcher {
    baseline: u32,
    deaths: FileCache,
    previous: Option<u32>,
}

impl DataWatcher {
    /// The fixed offset added to every total.
    pub closed spec fn baseline_spec(&self) -> u32 {
        self.baseline
    }

    /// The cached entries, in the order they were first recorded.
    pub closed spec fn cache(&self) -> Seq<Entry> {
        self.deaths@
    }

    /// The last total that reached the output, or `None` before the first.
    pub closed spec fn previous_spec(&self) -> Option<u32> {
        self.previous
    }

    /// The cache holds no path twice, and only paths of metric files.
    pub closed spec fn wf(&self) -> bool {
        &&& self.deaths.wf()
        &&& forall|k: Seq<char>| #[trigger] self.contents().contains_key(k) ==> metric_path(k)
    }

    /// The cached metrics as a map from path to metric.
    pub open spec fn contents(&self) -> Map<Seq<char>, u32> {
        as_map(self.cache())
    }

    /// The exact sum of the cached metrics.
    pub open spec fn cache_sum(&self) -> int {
        entries_sum(self.cache())
    }

    /// The current aggregate.
    pub open spec fn total_spec(&self) -> u32 {
        total_of(self.baseline_spec(), self.cache())
    }

    /// A watcher with the given baseline, an empty cache, and nothing emitted.
    pub fn new(baseline: u32) -> (r: Self)
        ensures
            r.wf(),
            r.baseline_spec() == baseline,
            r.cache() == Seq::<Entry>::empty(),
            r.previous_spec() == None::<u32>,
    {
        let w = DataWatcher { baseline, deaths: FileCache::new(), previous: None };
        assert(w.deaths.contents() =~= Map::<Seq<char>, u32>::empty());
        w
    }

    /// The baseline added to every total.
    pub fn baseline(&self) -> (r: u32)
        ensures
            r == self.baseline_spec(),
    {
        self.baseline
    }

    /// The last total that reached the output, if any.
    pub fn previous(&self) -> (r: Option<u32>)
        ensures
            r == self.previous_spec(),
    {
        self.previous
    }

    /// The metric cached for `path`, if any.
    pub fn cached(&self, path: &String) -> (r: Option<u32>)
        requires
            self.wf(),
        ensures
            r == (if self.contents().contains_key(path@) {
                Some(self.contents()[path@])
            } else {
                None::<u32>
            }),
    {
        self.deaths.get(path)
    }

    /// The number of cached files.
    pub fn cached_len(&self) -> (r: usize)
        ensures
            r == self.cache().len(),
    {
        self.deaths.len()
    }

    /// The current aggregate: the baseline plus every cached metric,
    /// saturating at `u32::MAX`.
    pub fn get_total_deaths(&self) -> (r: u32)
        ensures
            r == self.total_spec(),
    {
        proof {
            lemma_entries_sum_nonneg(self.cache());
        }
        let sum = self.deaths.sum();
        sum.saturating_add(self.baseline)
    }

    /// Forgets a removed file. The cache sum drops by exactly the file's last
    /// cached metric; a path that is not cached changes nothing.
    pub fn remove_file(&mut self, path: &String)
        requires
            old(self).wf(),
        ensures
            final(self).wf(),
            final(self).baseline_spec() == old(self).baseline_spec(),
            final(self).previous_spec() == old(self).previous_spec(),
            final(self).cache() == removed(old(self).cache(), path@),
            final(self).contents() == old(self).contents().remove(path@),
            old(self).contents().contains_key(path@) ==> final(self).cache_sum() == old(
                self,
            ).cache_sum() - old(self).contents()[path@],
            old(self).contents().contains_key(path@) && old(self).baseline_spec()
                + old(self).cache_sum() <= u32::MAX ==> final(self).total_spec() == old(
                self,
            ).total_spec() - old(self).contents()[path@],
            !old(self).contents().contains_key(path@) ==> final(self).cache() == old(self).cache(),
    {
        proof {
            lemma_removed(self.cache(), path@);
            lemma_entries_sum_nonneg(removed(self.cache(), path@));
        }
        self.deaths.remove(path);
        assert(self.contents() == old(self).contents().remove(path@));
        assert forall|k: Seq<char>| #[trigger] self.contents().contains_key(k) implies metric_path(
            k,
        ) by {
            assert(old(self).contents().contains_key(k));
        }
    }

    /// Forgets each of the removed files, in order.
    pub fn remove_files(&mut self, paths: &Vec<String>)
        requires
            old(self).wf(),
        ensures
            final(self).wf(),
            final(self).baseline_spec() == old(self).baseline_spec(),
            final(self).previous_spec() == old(self).previous_spec(),
            final(self).cache() == removed_all(old(self).cache(), paths@),
            forall|k: Seq<char>| #[trigger]
                final(self).contents().contains_key(k) <==> (old(self).contents().contains_key(k)
                    && forall|j: int| 0 <= j < paths@.len() ==> paths@[j]@ != k),
            forall|k: Seq<char>| #[trigger]
                final(self).contents().contains_key(k) ==> final(self).contents()[k] == old(
                    self,
                ).contents()[k],
    {
        let ghost s0 = self.cache();
        let ghost m0 = self.contents();
        let mut i: usize = 0;
        while i < paths.len()
            invariant
                i <= paths.len(),
                self.wf(),
                self.baseline_spec() == old(self).baseline_spec(),
                self.previous_spec() == old(self).previous_spec(),
                self.cache() == removed_all(s0, paths@.subrange(0, i as int)),
                forall|k: Seq<char>| #[trigger]
                    self.contents().contains_key(k) <==> (m0.contains_key(k) && forall|j: int|
                        0 <= j < i ==> paths@[j]@ != k),
                forall|k: Seq<char>| #[trigger]
                    self.contents().contains_key(k) ==> self.contents()[k] == m0[k],
            decreases paths.len() - i,
        {
            assert(paths@.subrange(0, i + 1).drop_last() =~= paths@.subrange(0, i as int));
            self.remove_file(&paths[i]);
            i += 1;
        }
        assert(paths@.subrange(0, paths@.len() as int) =~= paths@);
    }

    /// Applies the readings of created or modified files in order. A reading
    /// of a metric file that parsed sets that file's metric; a reading that
    /// failed leaves any earlier value in place; other paths are ignored.
    pub fn compute_deaths(&mut self, readings: &Vec<Reading>)
        requires
            old(self).wf(),
        ensures
            final(self).wf(),
            final(self).baseline_spec() == old(self).baseline_spec(),
            final(self).previous_spec() == old(self).previous_spec(),
            final(self).cache() == applied(old(self).cache(), readings@),
    {
        let ghost s0 = self.cache();
        let mut i: usize = 0;
        while i < readings.len()
            invariant
                i <= readings.len(),
                self.wf(),
                self.baseline_spec() == old(self).baseline_spec(),
                self.previous_spec() == old(self).previous_spec(),
                self.cache() == applied(s0, readings@.subrange(0, i as int)),
            decreases readings.len() - i,
        {
            let r = &readings[i];
            assert(readings@.subrange(0, i + 1).drop_last() =~= readings@.subrange(0, i as int));
            assert(readings@.subrange(0, i + 1).last() == readings@[i as int]);
            if is_metric_path(&r.path) {
                match &r.level {
                    Some(level) => {
                        let metric = level.total_deaths();
                        let ghost m0 = self.contents();
                        self.deaths.upsert(r.path.clone(), metric);
                        assert(self.contents() == m0.insert(r.path@, metric));
                        assert forall|k: Seq<char>| #[trigger]
                            self.contents().contains_key(k) implies metric_path(k) by {
                            if k != r.path@ {
                                assert(m0.contains_key(k));
                            }
                        }
                    },
                    None => {},
                }
            }
            i += 1;
        }
        assert(readings@.subrange(0, readings@.len() as int) =~= readings@);
    }

    /// Rebuilds the cache from scratch out of a scan of the whole directory.
    pub fn compute_all_deaths(&mut self, readings: &Vec<Reading>)
        requires
            old(self).wf(),
        ensures
            final(self).wf(),
            final(self).baseline_spec() == old(self).baseline_spec(),
            final(self).previous_spec() == old(self).previous_spec(),
            final(self).cache() == snapshot(readings@),
    {
        self.deaths.clear();
        assert(self.deaths.contents() =~= Map::<Seq<char>, u32>::empty());
        self.compute_deaths(readings);
    }

    /// What is emitted for `deaths`: the value, unless it
    /// is the last one that reached the output.
    pub fn emission_for(&self, deaths: u32) -> (r: Option<u32>)
        ensures
            r == to_emit(self.previous_spec(), deaths),
    {
        match self.previous {
            Some(p) => if p == deaths {
                None
            } else {
                Some(deaths)
            },
            None => Some(deaths),
        }
    }

    /// Records that `deaths` reached the output.
    pub fn mark_written(&mut self, deaths: u32)
        ensures
            final(self).previous_spec() == Some(deaths),
            final(self).baseline_spec() == old(self).baseline_spec(),
            final(self).cache() == old(self).cache(),
            old(self).wf() ==> final(self).wf(),
    {
        self.previous = Some(deaths);
        assert(self.contents() == old(self).contents());
    }

    /// Handles one change notification: updates the cache as the event
    /// demands and returns the total to emit, if one is due.
    /// The emitted state changes only through `mark_written`, once the
    /// output has taken the value.
    pub fn handle(&mut self, event: &ChangeEvent) -> (r: Option<u32>)
        requires
            old(self).wf(),
        ensures
            final(self).wf(),
            final(self).baseline_spec() == old(self).baseline_spec(),
            final(self).previous_spec() == old(self).previous_spec(),
            final(self).cache() == after_event(old(self).cache(), *event),
            forall|k: Seq<char>| #[trigger]
                final(self).contents().contains_key(k) ==> metric_path(k),
            event is AmbiguousRename ==> final(self).cache() == snapshot(
                event->AmbiguousRename_0@,
            ),
            r == (if event is Ignored {
                None::<u32>
            } else {
                to_emit(old(self).previous_spec(), final(self).total_spec())
            }),
    {
        match event {
            ChangeEvent::Created(rs) => self.compute_deaths(rs),
            ChangeEvent::Modified(rs) => self.compute_deaths(rs),
            ChangeEvent::Removed(ps) => self.remove_files(ps),
            ChangeEvent::AmbiguousRename(rs) => self.compute_all_deaths(rs),
            ChangeEvent::Ignored => {
                return None;
            },
        }
        let total = self.get_total_deaths();
        self.emission_for(total)
    }
}

/// The entries that a scan yields when every file in it contributes.
pub open spec fn scan_entries(rs: Seq<Reading>) -> Seq<Entry> {
    rs.map_values(|r: Reading| (r.path@, reading_metric(r)->Some_0))
}

/// A scan of files that all qualify and all parse, with no path twice,
/// yields a cache that maps each file to its own metric, and a total equal to
/// the baseline plus the sum of those metrics.
pub proof fn lemma_snapshot_total(baseline: u32, rs: Seq<Reading>)
    requires
        forall|i: int| 0 <= i < rs.len() ==> #[trigger] reading_metric(rs[i]) is Some,
        forall|i: int, j: int| 0 <= i < j < rs.len() ==> rs[i].path@ != rs[j].path@,
    ensures
        snapshot(rs) == scan_entries(rs),
        keys_distinct(snapshot(rs)),
        forall|i: int|
            0 <= i < rs.len() ==> as_map(snapshot(rs)).contains_key(#[trigger] rs[i].path@)
                && as_map(snapshot(rs))[rs[i].path@] == reading_metric(rs[i])->Some_0,
        entries_sum(snapshot(rs)) == readings_sum(rs),
        total_of(baseline, snapshot(rs)) == capped(baseline + readings_sum(rs)),
    decreases rs.len(),
{
    if rs.len() > 0 {
        let t = rs.drop_last();
        lemma_snapshot_total(baseline, t);
        let e = scan_entries(t);
        let k = rs.last().path@;
        let v = reading_metric(rs.last())->Some_0;
        assert(reading_metric(rs[rs.len() - 1]) is Some);
        lemma_key_pos(e, k);
        if key_pos(e, k) >= 0 {
            assert(e[key_pos(e, k)].0 == t[key_pos(e, k)].path@);
            assert(false);
        }
        assert(scan_entries(rs) =~= e.push((k, v)));
        lemma_sum_push(e, (k, v));
    }
    let s = snapshot(rs);
    assert forall|i: int| 0 <= i < rs.len() implies as_map(s).contains_key(#[trigger] rs[i].path@)
        && as_map(s)[rs[i].path@] == reading_metric(rs[i])->Some_0 by {
        lemma_entry_in_map(s, i);
    }
}

/// Two watchers with the same baseline whose caches hold the same files with
/// the same metrics report the same total, however each cache came to be:
/// incremental updates that reach a directory's contents agree with a fresh
/// scan of it.
pub proof fn lemma_same_contents_same_total(a: &DataWatcher, b: &DataWatcher)
    requires
        a.wf(),
        b.wf(),
        a.baseline_spec() == b.baseline_spec(),
        a.contents() == b.contents(),
    ensures
        a.total_spec() == b.total_spec(),
{
    lemma_same_contents_same_sum(a.cache(), b.cache());
}

/// The emitted state after a total is offered and, when
/// due, written.
pub open spec fn after_offer(previous: Option<u32>, total: u32) -> Option<u32> {
    if to_emit(previous, total) is Some {
        Some(total)
    } else {
        previous
    }
}

/// How many times the output is invoked when the same total is offered twice
/// in a row.
pub open spec fn writes_for_repeat(previous: Option<u32>, total: u32) -> int {
    (if to_emit(previous, total) is Some {
        1int
    } else {
        0int
    }) + (if to_emit(after_offer(previous, total), total) is Some {
        1int
    } else {
        0int
    })
}

/// Offering the same total twice in a row reaches the output exactly once,
/// or not at all when that total was already the last one written.
pub proof fn lemma_repeat_total_written_once(previous: Option<u32>, total: u32)
    ensures
        previous != Some(total) ==> writes_for_repeat(previous, total) == 1,
        previous == Some(total) ==> writes_for_repeat(previous, total) == 0,
        to_emit(after_offer(previous, total), total) is None,
{
}

/// A reading that does not contribute (the file failed to open or parse, or
/// its path does not qualify) leaves the cache exactly as it was, so earlier
/// values are kept and later readings apply as usual.
pub proof fn lemma_failed_reading_keeps_cache(
    s: Seq<Entry>,
    rs: Seq<Reading>,
    bad: Reading,
    later: Seq<Reading>,
)
    requires
        reading_metric(bad) is None,
    ensures
        applied(s, rs.push(bad)) == applied(s, rs),
        applied(s, rs.push(bad) + later) == applied(s, rs + later),
    decreases later.len(),
{
    assert(rs.push(bad).drop_last() =~= rs);
    if later.len() == 0 {
        assert(rs.push(bad) + later =~= rs.push(bad));
        assert(rs + later =~= rs);
    } else {
        lemma_failed_reading_keeps_cache(s, rs, bad, later.drop_last());
        assert((rs.push(bad) + later).drop_last() =~= rs.push(bad) + later.drop_last());
        assert((rs + later).drop_last() =~= rs + later.drop_last());
        assert((rs.push(bad) + later).last() == later.last());
        assert((rs + later).last() == later.last());
    }
}

/// An ambiguous rename leaves the watcher with the total of a fresh scan of
/// the directory, whatever its cache held before.
pub proof fn lemma_rename_is_fresh_scan(old_cache: Seq<Entry>, baseline: u32, scan: Vec<Reading>)
    ensures
        after_event(old_cache, ChangeEvent::AmbiguousRename(scan)) == snapshot(scan@),
        total_of(baseline, after_event(old_cache, ChangeEvent::AmbiguousRename(scan)))
            == total_of(baseline, applied(Seq::empty(), scan@)),
{
}

} // verus!
