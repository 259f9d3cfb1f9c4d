//! Configuration model: interval, modes, autostart and the per-monitor folder
//! assignments, with the edits the settings window makes to it.

use vstd::prelude::*;
use crate::model::{CycleMode, FitMode, MonitorId, MonitorInfo};
use crate::text::{
    clone_strings,
    lemma_lex_irreflexive,
    lemma_lex_transitive,
    lex_lt,
    string_lt,
    strings_eq,
    views,
};

verus! {

/// Shortest rotation interval, in seconds.
pub const MIN_INTERVAL_SECS: u64 = 60;

/// Rotation interval of a fresh configuration, in seconds.
pub const DEFAULT_INTERVAL_SECS: u64 = 1800;

/// The folders assigned to one monitor; empty means unconfigured.
#[derive(Clone, Debug, PartialEq)]
pub struct MonitorConfig {
    pub folders: Vec<String>,
}

impl Default for MonitorConfig {
    fn default() -> (c: MonitorConfig)
        ensures
            c.folders@.len() == 0,
    {
        MonitorConfig { folders: Vec::new() }
    }
}

/// The whole configuration.  `monitors` holds the per-monitor assignments
/// keyed by monitor id, in strictly increasing id order (a sorted map).
#[derive(Clone, Debug, PartialEq)]
pub struct Config {
    pub interval_secs: u64,
    pub cycle_mode: CycleMode,
    pub fit_mode: FitMode,
    pub autostart: bool,
    pub monitors: Vec<(MonitorId, MonitorConfig)>,
}

/// One assignment as text: the monitor id and its folders.
pub type EntryView = (Seq<char>, Seq<Seq<char>>);

pub open spec fn entry_view(e: (MonitorId, MonitorConfig)) -> EntryView {
    (e.0@, views(e.1.folders@))
}

/// The mathematical state of a configuration.
pub struct ConfigView {
    pub interval_secs: u64,
    pub cycle_mode: CycleMode,
    pub fit_mode: FitMode,
    pub autostart: bool,
    pub entries: Seq<EntryView>,
}

impl View for Config {
    type V = ConfigView;

    open spec fn view(&self) -> ConfigView {
        ConfigView {
            interval_secs: self.interval_secs,
            cycle_mode: self.cycle_mode,
            fit_mode: self.fit_mode,
            autostart: self.autostart,
            entries: self.monitors@.map_values(|e: (MonitorId, MonitorConfig)| entry_view(e)),
        }
    }
}

/// The ids of the entries are strictly increasing.
pub open spec fn keys_sorted(s: Seq<EntryView>) -> bool {
    forall|i: int, j: int| 0 <= i < j < s.len() ==> lex_lt(#[trigger] s[i].0, #[trigger] s[j].0)
}

/// Some entry has id `k`.
pub open spec fn has_key(s: Seq<EntryView>, k: Seq<char>) -> bool {
    exists|i: int| 0 <= i < s.len() && (#[trigger] s[i]).0 == k
}

/// The map from monitor id to folders that a sequence of entries denotes
/// (a later entry wins, which only matters when ids repeat).
pub open spec fn entries_map(s: Seq<EntryView>) -> Map<Seq<char>, Seq<Seq<char>>>
    decreases s.len(),
{
    if s.len() == 0 {
        Map::empty()
    } else {
        entries_map(s.drop_last()).insert(s.last().0, s.last().1)
    }
}

/// The folders of `id` in `m`, empty when `id` is not assigned.
pub open spec fn folders_in(m: Map<Seq<char>, Seq<Seq<char>>>, id: Seq<char>) -> Seq<Seq<char>> {
    if m.contains_key(id) {
        m[id]
    } else {
        Seq::empty()
    }
}

impl ConfigView {
    /// The ids are strictly sorted, as in a sorted map.
    pub open spec fn wf(self) -> bool {
        keys_sorted(self.entries)
    }

    /// The assignments as a map.
    pub open spec fn assignments(self) -> Map<Seq<char>, Seq<Seq<char>>> {
        entries_map(self.entries)
    }

    /// The folders assigned to `id` (empty when unassigned).
    pub open spec fn folders_of(self, id: Seq<char>) -> Seq<Seq<char>> {
        folders_in(self.assignments(), id)
    }
}

/// With distinct ids, the map holds exactly the entries' ids, each with its
/// entry's folders.
pub proof fn lemma_entries_map(s: Seq<EntryView>)
    requires
        keys_sorted(s),
    ensures
        forall|k: Seq<char>| #[trigger] entries_map(s).contains_key(k) <==> has_key(s, k),
        forall|i: int| 0 <= i < s.len() ==> entries_map(s)[(#[trigger] s[i]).0] == s[i].1,
    decreases s.len(),
{
    if s.len() > 0 {
        let t = s.drop_last();
        assert(keys_sorted(t)) by {
            assert forall|i: int, j: int| 0 <= i < j < t.len() implies lex_lt(
                #[trigger] t[i].0,
                #[trigger] t[j].0,
            ) by {
                assert(t[i] == s[i] && t[j] == s[j]);
            }
        }
        lemma_entries_map(t);
        assert forall|k: Seq<char>| #[trigger] entries_map(s).contains_key(k) <==> has_key(s, k) by {
            if entries_map(s).contains_key(k) {
                if k == s.last().0 {
                    assert(s[s.len() - 1].0 == k);
                } else {
                    assert(entries_map(t).contains_key(k));
                    assert(has_key(t, k));
                    let i = choose|i: int| 0 <= i < t.len() && (#[trigger] t[i]).0 == k;
                    assert(s[i] == t[i]);
                    assert(s[i].0 == k);
                }
            }
            if has_key(s, k) {
                let i = choose|i: int| 0 <= i < s.len() && (#[trigger] s[i]).0 == k;
                if i < s.len() - 1 {
                    assert(t[i] == s[i]);
                    assert(has_key(t, k));
                }
            }
        }
        assert forall|i: int| 0 <= i < s.len() implies entries_map(s)[(#[trigger] s[i]).0]
            == s[i].1 by {
            if i < s.len() - 1 {
                assert(t[i] == s[i]);
                assert(lex_lt(s[i].0, s[s.len() - 1].0));
                lemma_lex_irreflexive(s[i].0);
            }
        }
    }
}

/// Inserting a fresh id at its sorted place, or replacing the folders of an
/// existing id, changes the map by one `insert`.
proof fn lemma_entries_map_edit(s: Seq<EntryView>, t: Seq<EntryView>, id: Seq<char>, f: Seq<Seq<char>>)
    requires
        keys_sorted(s),
        keys_sorted(t),
        forall|k: Seq<char>| #[trigger] has_key(t, k) <==> (k == id || has_key(s, k)),
        exists|i: int| 0 <= i < t.len() && #[trigger] t[i] == (id, f),
        forall|i: int|
            0 <= i < t.len() && (#[trigger] t[i]).0 != id ==> exists|j: int|
                0 <= j < s.len() && #[trigger] s[j] == t[i],
    ensures
        entries_map(t) == entries_map(s).insert(id, f),
{
    lemma_entries_map(s);
    lemma_entries_map(t);
    let ms = entries_map(s).insert(id, f);
    let mt = entries_map(t);
    assert forall|k: Seq<char>| #[trigger] mt.contains_key(k) <==> ms.contains_key(k) by {}
    assert forall|k: Seq<char>| mt.contains_key(k) implies #[trigger] mt[k] == ms[k] by {
        let i = choose|i: int| 0 <= i < t.len() && (#[trigger] t[i]).0 == k;
        if k == id {
            let i2 = choose|i: int| 0 <= i < t.len() && #[trigger] t[i] == (id, f);
            assert(mt[t[i2].0] == t[i2].1);
        } else {
            let j = choose|j: int| 0 <= j < s.len() && #[trigger] s[j] == t[i];
            assert(mt[t[i].0] == t[i].1);
            assert(entries_map(s)[s[j].0] == s[j].1);
        }
    }
    assert(mt =~= ms);
}

impl Default for Config {
    /// Defaults: 30-minute interval, Sequential, Fill, autostart on, no
    /// assignments.
    fn default() -> (c: Config)
        ensures
            c@.interval_secs == DEFAULT_INTERVAL_SECS,
            c@.cycle_mode == CycleMode::Sequential,
            c@.fit_mode == FitMode::Fill,
            c@.autostart,
            c@.entries.len() == 0,
    {
        Config {
            interval_secs: DEFAULT_INTERVAL_SECS,
            cycle_mode: CycleMode::Sequential,
            fit_mode: FitMode::Fill,
            autostart: true,
            monitors: Vec::new(),
        }
    }
}

/// The interval raised to the minimum.
pub open spec fn clamp_interval(secs: u64) -> u64 {
    if secs < MIN_INTERVAL_SECS {
        MIN_INTERVAL_SECS
    } else {
        secs
    }
}

impl Config {
    /// Raise the interval to at least `MIN_INTERVAL_SECS`; everything else is
    /// kept.  Applied after loading and after edits.
    pub fn clamped(self) -> (c: Config)
        ensures
            c@ == (ConfigView { interval_secs: clamp_interval(self.interval_secs), ..self@ }),
    {
        let mut c = self;
        if c.interval_secs < MIN_INTERVAL_SECS {
            c.interval_secs = MIN_INTERVAL_SECS;
        }
        c
    }

    /// Whether the ids are strictly sorted (`ConfigView::wf`).
    pub fn is_well_formed(&self) -> (r: bool)
        ensures
            r == self@.wf(),
    {
        let n = self.monitors.len();
        if n == 0 {
            return true;
        }
        let mut i: usize = 0;
        while i + 1 < n
            invariant
                n == self.monitors@.len(),
                n > 0,
                i < n,
                forall|a: int, b: int|
                    0 <= a < b <= i ==> lex_lt(
                        #[trigger] self@.entries[a].0,
                        #[trigger] self@.entries[b].0,
                    ),
            decreases n - i,
        {
            if !string_lt(&self.monitors[i].0, &self.monitors[i + 1].0) {
                assert(!lex_lt(self@.entries[i as int].0, self@.entries[i + 1].0));
                return false;
            }
            proof {
                assert forall|a: int, b: int| 0 <= a < b <= i + 1 implies lex_lt(
                    #[trigger] self@.entries[a].0,
                    #[trigger] self@.entries[b].0,
                ) by {
                    if b == i + 1 && a < i {
                        lemma_lex_transitive(
                            self@.entries[a].0,
                            self@.entries[i as int].0,
                            self@.entries[b].0,
                        );
                    }
                }
            }
            i = i + 1;
        }
        true
    }

    /// Position of the entry for `id`, if any.
    fn find(&self, id: &String) -> (r: Option<usize>)
        ensures
            match r {
                Some(i) => i < self@.entries.len() && self@.entries[i as int].0 == id@,
                None => forall|i: int| 0 <= i < self@.entries.len() ==> self@.entries[i].0 != id@,
            },
    {
        let mut i: usize = 0;
        while i < self.monitors.len()
            invariant
                i <= self.monitors@.len(),
                forall|k: int| 0 <= k < i ==> self@.entries[k].0 != id@,
            decreases self.monitors@.len() - i,
        {
            if self.monitors[i].0 == *id {
                return Some(i);
            }
            i = i + 1;
        }
        None
    }

    /// The folders assigned to `id`, empty when it is unassigned.
    pub fn folders_for(&self, id: &String) -> (r: Vec<String>)
        requires
            self@.wf(),
        ensures
            views(r@) == self@.folders_of(id@),
    {
        proof {
            lemma_entries_map(self@.entries);
        }
        match self.find(id) {
            Some(i) => clone_strings(&self.monitors[i].1.folders),
            None => {
                let r: Vec<String> = Vec::new();
                assert(views(r@) =~= Seq::<Seq<char>>::empty());
                r
            },
        }
    }

    /// Assign `folders` to `id`, adding the id at its sorted place when it is
    /// new; the other assignments and settings are kept.
    pub fn set_folders(&mut self, id: &String, folders: Vec<String>)
        requires
            old(self)@.wf(),
        ensures
            final(self)@.wf(),
            final(self)@.assignments() == old(self)@.assignments().insert(id@, views(folders@)),
            final(self)@.interval_secs == old(self)@.interval_secs,
            final(self)@.cycle_mode == old(self)@.cycle_mode,
            final(self)@.fit_mode == old(self)@.fit_mode,
            final(self)@.autostart == old(self)@.autostart,
    {
        let ghost s = self@.entries;
        let ghost f = views(folders@);
        match self.find(id) {
            Some(i) => {
                self.monitors[i].1.folders = folders;
                proof {
                    let t = self@.entries;
                    assert(t =~= s.update(i as int, (id@, f)));
                    assert(keys_sorted(t)) by {
                        assert forall|a: int, b: int| 0 <= a < b < t.len() implies lex_lt(
                            #[trigger] t[a].0,
                            #[trigger] t[b].0,
                        ) by {
                            assert(t[a].0 == s[a].0 && t[b].0 == s[b].0);
                        }
                    }
                    assert(t[i as int] == (id@, f));
                    assert forall|k: int| 0 <= k < t.len() && (#[trigger] t[k]).0 != id@ implies exists|
                        j: int,
                    |
                        0 <= j < s.len() && #[trigger] s[j] == t[k] by {
                        assert(s[k] == t[k]);
                    }
                    assert forall|k: Seq<char>| #[trigger] has_key(t, k) <==> (k == id@ || has_key(s, k)) by {
                        if has_key(s, k) {
                            let a = choose|a: int| 0 <= a < s.len() && (#[trigger] s[a]).0 == k;
                            assert(t[a].0 == k);
                        }
                        if has_key(t, k) {
                            let a = choose|a: int| 0 <= a < t.len() && (#[trigger] t[a]).0 == k;
                            assert(s[a].0 == k);
                        }
                    }
                    lemma_entries_map_edit(s, t, id@, f);
                }
            },
            None => {
                let mut pos: usize = 0;
                while pos < self.monitors.len() && !string_lt(id, &self.monitors[pos].0)
                    invariant
                        self@.entries == s,
                        pos <= s.len(),
                        forall|k: int| 0 <= k < pos ==> !lex_lt(id@, #[trigger] s[k].0),
                    decreases s.len() - pos,
                {
                    pos = pos + 1;
                }
                self.monitors.insert(pos, (id.clone(), MonitorConfig { folders }));
                proof {
                    let t = self@.entries;
                    assert(t =~= s.insert(pos as int, (id@, f)));
                    assert forall|k: int| 0 <= k < pos implies lex_lt(#[trigger] s[k].0, id@) by {
                        crate::text::lemma_lex_total(s[k].0, id@);
                    }
                    assert forall|k: int| pos <= k < s.len() implies lex_lt(id@, #[trigger] s[k].0) by {
                        if k > pos {
                            lemma_lex_transitive(id@, s[pos as int].0, s[k].0);
                        }
                    }
                    assert(keys_sorted(t)) by {
                        assert forall|a: int, b: int| 0 <= a < b < t.len() implies lex_lt(
                            #[trigger] t[a].0,
                            #[trigger] t[b].0,
                        ) by {
                            if b < pos {
                                assert(t[a] == s[a] && t[b] == s[b]);
                            } else if b == pos {
                                assert(t[a] == s[a]);
                            } else if a == pos {
                                assert(t[b] == s[b - 1]);
                            } else if a < pos {
                                assert(t[a] == s[a] && t[b] == s[b - 1]);
                                lemma_lex_transitive(s[a].0, id@, s[b - 1].0);
                            } else {
                                assert(t[a] == s[a - 1] && t[b] == s[b - 1]);
                            }
                        }
                    }
                    assert(t[pos as int] == (id@, f));
                    assert forall|k: int| 0 <= k < t.len() && (#[trigger] t[k]).0 != id@ implies exists|
                        j: int,
                    |
                        0 <= j < s.len() && #[trigger] s[j] == t[k] by {
                        if k < pos {
                            assert(s[k] == t[k]);
                        } else {
                            assert(s[k - 1] == t[k]);
                        }
                    }
                    assert forall|k: Seq<char>| #[trigger] has_key(t, k) <==> (k == id@ || has_key(s, k)) by {
                        if has_key(s, k) {
                            let a = choose|a: int| 0 <= a < s.len() && (#[trigger] s[a]).0 == k;
                            if a < pos {
                                assert(t[a].0 == k);
                            } else {
                                assert(t[a + 1].0 == k);
                            }
                        }
                        if has_key(t, k) {
                            let a = choose|a: int| 0 <= a < t.len() && (#[trigger] t[a]).0 == k;
                            if a < pos {
                                assert(s[a].0 == k);
                            } else if a > pos {
                                assert(s[a - 1].0 == k);
                            }
                        }
                    }
                    lemma_entries_map_edit(s, t, id@, f);
                }
            },
        }
    }
}

/// The (monitor id, folders) assignment of each available monitor, in
/// monitor order; unconfigured monitors get no folders.
pub open spec fn assignments_of(ms: Seq<MonitorInfo>, cfg: ConfigView) -> Seq<EntryView>
    decreases ms.len(),
{
    if ms.len() == 0 {
        Seq::empty()
    } else {
        let rest = assignments_of(ms.drop_last(), cfg);
        let m = ms.last();
        if m.available {
            rest.push((m.id@, cfg.folders_of(m.id@)))
        } else {
            rest
        }
    }
}

pub open spec fn assignment_view(a: (MonitorId, Vec<String>)) -> EntryView {
    (a.0@, views(a.1@))
}

/// The assignment list the scheduler is built from: available monitors only,
/// each with its configured folders (none when unconfigured).
pub fn build_assignments(monitors: &[MonitorInfo], config: &Config) -> (r: Vec<(MonitorId, Vec<String>)>)
    requires
        config@.wf(),
    ensures
        r@.map_values(|a: (MonitorId, Vec<String>)| assignment_view(a)) == assignments_of(
            monitors@,
            config@,
        ),
{
    let mut r: Vec<(MonitorId, Vec<String>)> = Vec::new();
    let mut i: usize = 0;
    while i < monitors.len()
        invariant
            config@.wf(),
            i <= monitors@.len(),
            r@.map_values(|a: (MonitorId, Vec<String>)| assignment_view(a)) == assignments_of(
                monitors@.take(i as int),
                config@,
            ),
        decreases monitors@.len() - i,
    {
        let m = &monitors[i];
        assert(monitors@.take(i + 1).drop_last() =~= monitors@.take(i as int));
        if m.available {
            let folders = config.folders_for(&m.id);
            r.push((m.id.clone(), folders));
            assert(r@.map_values(|a: (MonitorId, Vec<String>)| assignment_view(a)) =~= assignments_of(
                monitors@.take(i + 1),
                config@,
            ));
        }
        i = i + 1;
    }
    assert(monitors@.take(monitors@.len() as int) =~= monitors@);
    r
}

/// The assignments after the settings window writes each monitor's working
/// folder list back (monitor `i` gets `working[i]`, or none when there is no
/// such list), with whether any monitor's folders differ from what the
/// configuration held just before that monitor was written.
pub open spec fn merge_working(
    m: Map<Seq<char>, Seq<Seq<char>>>,
    ids: Seq<Seq<char>>,
    working: Seq<Seq<Seq<char>>>,
) -> (Map<Seq<char>, Seq<Seq<char>>>, bool)
    decreases ids.len(),
{
    if ids.len() == 0 {
        (m, false)
    } else {
        let prev = merge_working(m, ids.drop_last(), working);
        let i = ids.len() - 1;
        let new_folders = if i < working.len() {
            working[i]
        } else {
            Seq::empty()
        };
        let old_folders = folders_in(prev.0, ids[i]);
        (prev.0.insert(ids[i], new_folders), prev.1 || new_folders != old_folders)
    }
}

pub open spec fn monitor_ids(ms: Seq<MonitorInfo>) -> Seq<Seq<char>> {
    ms.map_values(|m: MonitorInfo| m.id@)
}

pub open spec fn working_views(w: Seq<Vec<String>>) -> Seq<Seq<Seq<char>>> {
    w.map_values(|f: Vec<String>| views(f@))
}

impl Config {
    /// Write the settings window's working folder lists back: monitor `i`
    /// (of `monitors`) gets `working[i]`, or an empty list when there is
    /// none; returns whether any folder list changed.
    pub fn apply_working_folders(&mut self, monitors: &[MonitorInfo], working: &Vec<Vec<String>>) -> (changed: bool)
        requires
            old(self)@.wf(),
        ensures
            final(self)@.wf(),
            (final(self)@.assignments(), changed) == merge_working(
                old(self)@.assignments(),
                monitor_ids(monitors@),
                working_views(working@),
            ),
            final(self)@.interval_secs == old(self)@.interval_secs,
            final(self)@.cycle_mode == old(self)@.cycle_mode,
            final(self)@.fit_mode == old(self)@.fit_mode,
            final(self)@.autostart == old(self)@.autostart,
    {
        let ghost m0 = self@.assignments();
        let ghost ids = monitor_ids(monitors@);
        let ghost wv = working_views(working@);
        let mut changed = false;
        let mut i: usize = 0;
        while i < monitors.len()
            invariant
                self@.wf(),
                ids == monitor_ids(monitors@),
                wv == working_views(working@),
                i <= monitors@.len(),
                (self@.assignments(), changed) == merge_working(m0, ids.take(i as int), wv),
                self@.interval_secs == old(self)@.interval_secs,
                self@.cycle_mode == old(self)@.cycle_mode,
                self@.fit_mode == old(self)@.fit_mode,
                self@.autostart == old(self)@.autostart,
            decreases monitors@.len() - i,
        {
            let m = &monitors[i];
            let new_folders = if i < working.len() {
                clone_strings(&working[i])
            } else {
                Vec::new()
            };
            let old_folders = self.folders_for(&m.id);
            if !strings_eq(&new_folders, &old_folders) {
                changed = true;
            }
            proof {
                assert(ids.take(i + 1).drop_last() =~= ids.take(i as int));
                assert(ids.take(i + 1)[i as int] == m.id@);
                if i >= working.len() {
                    assert(views(new_folders@) =~= Seq::<Seq<char>>::empty());
                }
            }
            self.set_folders(&m.id, new_folders);
            i = i + 1;
        }
        assert(ids.take(monitors@.len() as int) =~= ids);
        changed
    }
}

/// What applying edited settings amounts to: the edited configuration with
/// its interval clamped, and which of the global settings changed.
pub struct SettingsPlan {
    pub config: Config,
    pub interval_changed: bool,
    pub mode_changed: bool,
    pub fit_changed: bool,
    pub autostart_changed: bool,
}

/// Plan the application of `edited` over `current`: clamp the edited
/// interval, then compare each global setting with the current one.
pub fn plan_settings(current: &Config, edited: Config) -> (p: SettingsPlan)
    ensures
        p.config@ == (ConfigView { interval_secs: clamp_interval(edited.interval_secs), ..edited@ }),
        p.interval_changed == (clamp_interval(edited.interval_secs) != current.interval_secs),
        p.mode_changed == (edited.cycle_mode != current.cycle_mode),
        p.fit_changed == (edited.fit_mode != current.fit_mode),
        p.autostart_changed == (edited.autostart != current.autostart),
{
    let config = edited.clamped();
    let interval_changed = config.interval_secs != current.interval_secs;
    let mode_changed = config.cycle_mode != current.cycle_mode;
    let fit_changed = config.fit_mode != current.fit_mode;
    let autostart_changed = config.autostart != current.autostart;
    SettingsPlan { config, interval_changed, mode_changed, fit_changed, autostart_changed }
}

// ---------------------------------------------------------------------------
// Laws
// ---------------------------------------------------------------------------

/// Law: the clamped interval is at least the minimum, an interval already at
/// or above the minimum is kept, and clamping twice is clamping once.
pub proof fn law_clamp_interval(secs: u64)
    ensures
        clamp_interval(secs) >= MIN_INTERVAL_SECS,
        secs >= MIN_INTERVAL_SECS ==> clamp_interval(secs) == secs,
        clamp_interval(clamp_interval(secs)) == clamp_interval(secs),
{
}

/// Law: after assigning folders `f` to `id`, looking `id` up gives `f`, and
/// every other monitor keeps its folders.
pub proof fn law_assignment_read_after_write(
    before: ConfigView,
    after: ConfigView,
    id: Seq<char>,
    f: Seq<Seq<char>>,
    other: Seq<char>,
)
    requires
        after.assignments() == before.assignments().insert(id, f),
    ensures
        after.folders_of(id) == f,
        other != id ==> after.folders_of(other) == before.folders_of(other),
{
}

/// Law: assignments are keyed by monitor id: every assignment built for a
/// monitor list carries exactly the configured folders of that monitor's id,
/// whatever the other monitors are (so a re-enumerated monitor keeps its
/// folders).
pub proof fn law_assignments_follow_monitor_id(ms: Seq<MonitorInfo>, cfg: ConfigView)
    ensures
        forall|i: int|
            0 <= i < assignments_of(ms, cfg).len() ==> (#[trigger] assignments_of(ms, cfg)[i]).1
                == cfg.folders_of(assignments_of(ms, cfg)[i].0),
    decreases ms.len(),
{
    if ms.len() > 0 {
        law_assignments_follow_monitor_id(ms.drop_last(), cfg);
        let rest = assignments_of(ms.drop_last(), cfg);
        assert forall|i: int| 0 <= i < assignments_of(ms, cfg).len() implies (
        #[trigger] assignments_of(ms, cfg)[i]).1 == cfg.folders_of(assignments_of(ms, cfg)[i].0) by {
            if i < rest.len() {
                assert(assignments_of(ms, cfg)[i] == rest[i]);
            }
        }
    }
}

/// Law: writing back the working folder lists the settings window started
/// from (each monitor's configured folders) reports no change, and every
/// monitor keeps its folders.
pub proof fn law_unedited_working_lists_change_nothing(
    m: Map<Seq<char>, Seq<Seq<char>>>,
    ids: Seq<Seq<char>>,
    working: Seq<Seq<Seq<char>>>,
)
    requires
        working.len() >= ids.len(),
        forall|i: int| 0 <= i < ids.len() ==> #[trigger] working[i] == folders_in(m, ids[i]),
    ensures
        !merge_working(m, ids, working).1,
        forall|id: Seq<char>|
            #[trigger] folders_in(merge_working(m, ids, working).0, id) == folders_in(m, id),
    decreases ids.len(),
{
    if ids.len() > 0 {
        let prefix = ids.drop_last();
        assert forall|i: int| 0 <= i < prefix.len() implies #[trigger] working[i] == folders_in(
            m,
            prefix[i],
        ) by {
            assert(prefix[i] == ids[i]);
        }
        law_unedited_working_lists_change_nothing(m, prefix, working);
        let i = ids.len() - 1;
        assert(working[i] == folders_in(m, ids[i]));
        let prev = merge_working(m, prefix, working);
        assert(folders_in(prev.0, ids[i]) == folders_in(m, ids[i]));
        let next = prev.0.insert(ids[i], working[i]);
        assert forall|id: Seq<char>| #[trigger] folders_in(next, id) == folders_in(m, id) by {
            if id != ids[i] {
                assert(folders_in(prev.0, id) == folders_in(m, id));
            }
        }
    }
}

/// Writing back the working lists changes no monitor outside the list.
proof fn lemma_merge_keeps_other_monitors(
    m: Map<Seq<char>, Seq<Seq<char>>>,
    ids: Seq<Seq<char>>,
    working: Seq<Seq<Seq<char>>>,
    k: Seq<char>,
)
    requires
        !ids.contains(k),
    ensures
        folders_in(merge_working(m, ids, working).0, k) == folders_in(m, k),
    decreases ids.len(),
{
    if ids.len() > 0 {
        assert(!ids.drop_last().contains(k)) by {
            if ids.drop_last().contains(k) {
                let j = choose|j: int| 0 <= j < ids.drop_last().len() && ids.drop_last()[j] == k;
                assert(ids[j] == k);
            }
        }
        lemma_merge_keeps_other_monitors(m, ids.drop_last(), working, k);
        assert(ids[ids.len() - 1] != k);
    }
}

/// Law: for monitors with distinct ids, writing the settings window's
/// working lists back reports a change exactly when some monitor's written
/// list (its working list, or none when there is none) differs, as a
/// sequence of paths, from the folders the configuration held for it; and
/// afterwards each monitor holds its written list.
pub proof fn law_working_folders_change_flag(
    m: Map<Seq<char>, Seq<Seq<char>>>,
    ids: Seq<Seq<char>>,
    working: Seq<Seq<Seq<char>>>,
)
    requires
        ids.no_duplicates(),
    ensures
        merge_working(m, ids, working).1 <==> exists|i: int|
            0 <= i < ids.len() && (if i < working.len() {
                working[i]
            } else {
                Seq::empty()
            }) != folders_in(m, #[trigger] ids[i]),
        forall|i: int|
            0 <= i < ids.len() ==> folders_in(merge_working(m, ids, working).0, #[trigger] ids[i])
                == (if i < working.len() {
                working[i]
            } else {
                Seq::empty()
            }),
    decreases ids.len(),
{
    if ids.len() > 0 {
        let t = ids.drop_last();
        let last = ids.len() - 1;
        assert(t.no_duplicates()) by {
            assert forall|a: int, b: int| 0 <= a < t.len() && 0 <= b < t.len() && a != b implies t[a]
                != t[b] by {
                assert(t[a] == ids[a] && t[b] == ids[b]);
            }
        }
        law_working_folders_change_flag(m, t, working);
        assert(!t.contains(ids[last])) by {
            if t.contains(ids[last]) {
                let j = choose|j: int| 0 <= j < t.len() && t[j] == ids[last];
                assert(ids[j] == ids[last]);
            }
        }
        lemma_merge_keeps_other_monitors(m, t, working, ids[last]);
        let written = |i: int|
            if i < working.len() {
                working[i]
            } else {
                Seq::<Seq<char>>::empty()
            };
        let prev = merge_working(m, t, working);
        assert(folders_in(prev.0, ids[last]) == folders_in(m, ids[last]));
        if merge_working(m, ids, working).1 {
            if prev.1 {
                let i = choose|i: int|
                    0 <= i < t.len() && written(i) != folders_in(m, #[trigger] t[i]);
                assert(t[i] == ids[i]);
            } else {
                assert(written(last) != folders_in(m, ids[last]));
            }
        }
        if exists|i: int| 0 <= i < ids.len() && written(i) != folders_in(m, #[trigger] ids[i]) {
            let i = choose|i: int| 0 <= i < ids.len() && written(i) != folders_in(m, #[trigger] ids[i]);
            if i < last {
                assert(t[i] == ids[i]);
                assert(written(i) != folders_in(m, t[i]));
            }
        }
        assert forall|i: int| 0 <= i < ids.len() implies folders_in(
            merge_working(m, ids, working).0,
            #[trigger] ids[i],
        ) == written(i) by {
            if i < last {
                assert(t[i] == ids[i]);
                assert(ids[i] != ids[last]);
            }
        }
    }
}

} // verus!
