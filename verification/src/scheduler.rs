//! The global rotation: every monitor advances on the same tick, with one
//! retry after an unreadable image.

use rand::rngs::StdRng;
use vstd::prelude::*;
use crate::model::{AppError, CycleMode, FitMode, MonitorId, WallpaperSetter};
use crate::text::{clone_strings, views};
use crate::playlist::{
    Playlist,
    PlaylistView,
    built_from_files,
    lemma_next_picks_own_image,
    lemma_remove_all,
    lemma_removal_wf,
    next_step,
    opt_view,
    remove_all,
};

verus! {

/// What happened on one monitor during a tick.
pub enum TickResult {
    Applied(String),
    SkippedEmpty,
    Failed(String),
}

pub struct TickOutcome {
    pub monitor: MonitorId,
    pub result: TickResult,
}

#[verifier::ext_equal]
pub enum TickResultView {
    Applied(Seq<char>),
    SkippedEmpty,
    Failed(Seq<char>),
}

impl View for TickResult {
    type V = TickResultView;

    open spec fn view(&self) -> TickResultView {
        match self {
            TickResult::Applied(p) => TickResultView::Applied(p@),
            TickResult::SkippedEmpty => TickResultView::SkippedEmpty,
            TickResult::Failed(m) => TickResultView::Failed(m@),
        }
    }
}

/// The log line of a monitor's outcome.
pub open spec fn outcome_log_text(monitor: Seq<char>, result: TickResultView) -> Seq<char> {
    match result {
        TickResultView::Applied(p) => "[applied] "@ + monitor + " -> "@ + p,
        TickResultView::SkippedEmpty => "[skip-empty] "@ + monitor,
        TickResultView::Failed(m) => "[failed] "@ + monitor + " : "@ + m,
    }
}

impl TickOutcome {
    /// The log line: `[applied] <monitor> -> <path>`, `[skip-empty]
    /// <monitor>` or `[failed] <monitor> : <message>`.
    pub fn log_line(&self) -> (r: String)
        ensures
            r@ == outcome_log_text(self.monitor@, self.result@),
    {
        match &self.result {
            TickResult::Applied(p) => {
                let mut r = String::from_str("[applied] ");
                r.append(self.monitor.as_str());
                r.append(" -> ");
                r.append(p.as_str());
                r
            },
            TickResult::SkippedEmpty => {
                let mut r = String::from_str("[skip-empty] ");
                r.append(self.monitor.as_str());
                r
            },
            TickResult::Failed(m) => {
                let mut r = String::from_str("[failed] ");
                r.append(self.monitor.as_str());
                r.append(" : ");
                r.append(m.as_str());
                r
            },
        }
    }
}

/// The log line of an error message: `[error] <message>`.
pub fn error_log_line(message: &str) -> (r: String)
    ensures
        r@ == "[error] "@ + message@,
{
    let mut r = String::from_str("[error] ");
    r.append(message);
    r
}

/// The decision after the first attempt to set an image.
pub enum FirstAttempt {
    /// The monitor's outcome is settled.
    Done(TickResult),
    /// The image was unreadable: drop it and try the following one.
    Retry,
}

/// What `Debug` (`{:?}`) writes for a string: the text in double quotes,
/// with quotes, backslashes, control and other non-printable characters
/// escaped.  It depends on the text alone.
pub uninterp spec fn debug_text(s: Seq<char>) -> Seq<char>;

/// `format!("{s:?}")` of a string.
#[verifier::external_body]
fn debug_string(s: &str) -> (r: String)
    ensures
        r@ == debug_text(s@),
{
    format!("{s:?}")
}

/// `format!("{e:?}")` of an I/O error.  Its text comes from the operating
/// system, so nothing is claimed of it.
#[verifier::external_body]
fn debug_io_error(e: &std::io::Error) -> String {
    format!("{e:?}")
}

/// The `Debug` text of an error that is not an I/O error, as the derived
/// `Debug` writes it: the variant's name, then the `Debug` text of its
/// message in parentheses.
pub open spec fn error_text(e: AppError) -> Seq<char> {
    match e {
        AppError::Config(m) => "Config("@ + debug_text(m@) + ")"@,
        AppError::Os(m) => "Os("@ + debug_text(m@) + ")"@,
        AppError::BadImage(m) => "BadImage("@ + debug_text(m@) + ")"@,
        AppError::Io(_) => Seq::empty(),
    }
}

/// The `Debug` text of an error, for the log (see `error_text`); an I/O
/// error reads `Io(...)` with the operating system's text inside.
pub fn describe_error(e: &AppError) -> (r: String)
    ensures
        !(e is Io) ==> r@ == error_text(*e),
{
    let (name, inner) = match e {
        AppError::Io(err) => ("Io(", debug_io_error(err)),
        AppError::Config(m) => ("Config(", debug_string(m.as_str())),
        AppError::Os(m) => ("Os(", debug_string(m.as_str())),
        AppError::BadImage(m) => ("BadImage(", debug_string(m.as_str())),
    };
    let mut r = String::from_str(name);
    r.append(inner.as_str());
    r.append(")");
    r
}

/// Decide after the first `set` of `path`: success applies it, an
/// unreadable image asks for a retry with the next image, any other error
/// fails the monitor (with the error's `Debug` text).
pub fn after_first_set(path: String, result: Result<(), AppError>) -> (a: FirstAttempt)
    ensures
        match result {
            Ok(()) => a matches FirstAttempt::Done(t) && t@ == TickResultView::Applied(path@),
            Err(AppError::BadImage(_)) => a is Retry,
            Err(e) => a matches FirstAttempt::Done(t) && t is Failed && (!(e is Io) ==> t@
                == TickResultView::Failed(error_text(e))),
        },
{
    match result {
        Ok(()) => FirstAttempt::Done(TickResult::Applied(path)),
        Err(AppError::BadImage(_)) => FirstAttempt::Retry,
        Err(e) => FirstAttempt::Done(TickResult::Failed(describe_error(&e))),
    }
}

/// Decide after the retry's `set` of `path`: success applies it, any error
/// (an unreadable image too) fails the monitor.
pub fn after_retry_set(path: String, result: Result<(), AppError>) -> (t: TickResult)
    ensures
        match result {
            Ok(()) => t@ == TickResultView::Applied(path@),
            Err(e) => t is Failed && (!(e is Io) ==> t@ == TickResultView::Failed(error_text(e))),
        },
{
    match result {
        Ok(()) => TickResult::Applied(path),
        Err(e) => TickResult::Failed(describe_error(&e)),
    }
}

/// The answer reports an unreadable image.
pub open spec fn is_bad_image(answer: Result<(), AppError>) -> bool {
    answer matches Err(AppError::BadImage(_))
}

/// The outcome `res` settles a request for `path` that got `answer`: applied
/// on success, failed on an error, with the error's `Debug` text (stated for
/// every error but an I/O one).
pub open spec fn settles(path: Seq<char>, answer: Result<(), AppError>, res: TickResultView) -> bool {
    match answer {
        Ok(()) => res == TickResultView::Applied(path),
        Err(e) => res is Failed && (!(e is Io) ==> res == TickResultView::Failed(error_text(e))),
    }
}

/// One monitor's part of a tick, from playlist state `old` to `new` with
/// outcome `res`, the monitor being `id` and its requests going to `setter`
/// with fit `fit`:
/// - an empty playlist is skipped and left unchanged;
/// - otherwise the next image `first` is drawn and `(id, first, fit)` is
///   asked; unless the answer is "unreadable image", the playlist stays as
///   after the draw and the answer settles the outcome;
/// - on "unreadable image", `skip_and_next(first)` draws `second`: none left
///   means skipped, else `(id, second, fit)` is asked once more and that
///   answer settles the outcome.
pub open spec fn monitor_step<W: WallpaperSetter>(
    setter: W,
    id: Seq<char>,
    fit: FitMode,
    old: PlaylistView,
    new: PlaylistView,
    mode: CycleMode,
    res: TickResultView,
) -> bool {
    ||| old.images.len() == 0 && new == old && res == TickResultView::SkippedEmpty
    ||| exists|mid: PlaylistView, first: Seq<char>, a1: Result<(), AppError>|
        #![trigger next_step(old, mid, mode, Some(first)), setter.answered(id, first, fit, a1)]
        {
            &&& next_step(old, mid, mode, Some(first))
            &&& setter.answered(id, first, fit, a1)
            &&& !is_bad_image(a1) ==> new == mid && settles(first, a1, res)
            &&& is_bad_image(a1) ==> exists|second: Option<Seq<char>>|
                #![trigger skip_step(mid, new, first, mode, second)]
                skip_step(mid, new, first, mode, second) && match second {
                    None => res == TickResultView::SkippedEmpty,
                    Some(p) => exists|a2: Result<(), AppError>|
                        #![trigger setter.answered(id, p, fit, a2)]
                        setter.answered(id, p, fit, a2) && settles(p, a2, res),
                }
        }
}

/// `skip_and_next(bad)` in `mode` leads from `old` to `new`, returning `r`.
pub open spec fn skip_step(
    old: PlaylistView,
    new: PlaylistView,
    bad: Seq<char>,
    mode: CycleMode,
    r: Option<Seq<char>>,
) -> bool {
    next_step(remove_all(old, bad, mode), new, mode, r)
}

/// Advance one monitor and apply its image through `setter`.
fn advance_one<W: WallpaperSetter>(
    setter: &W,
    rng: &mut StdRng,
    id: &MonitorId,
    playlist: &mut Playlist,
    mode: CycleMode,
    fit: FitMode,
) -> (res: TickResult)
    requires
        old(playlist)@.wf(),
    ensures
        final(playlist)@.wf(),
        monitor_step(*setter, id@, fit, old(playlist)@, final(playlist)@, mode, res@),
{
    let ghost start = playlist@;
    match playlist.next(mode, rng) {
        None => TickResult::SkippedEmpty,
        Some(path) => {
            let ghost mid = playlist@;
            let ghost first = path@;
            assert(next_step(start, mid, mode, Some(first)));
            let result = setter.set(id, &path, fit);
            let ghost a1 = result;
            assert(setter.answered(id@, first, fit, a1));
            match after_first_set(path.clone(), result) {
                FirstAttempt::Done(t) => {
                    assert(!is_bad_image(a1));
                    assert(settles(first, a1, t@));
                    t
                },
                FirstAttempt::Retry => {
                    assert(is_bad_image(a1));
                    let second = playlist.skip_and_next(&path, mode, rng);
                    let ghost after = playlist@;
                    assert(skip_step(mid, after, first, mode, opt_view(second)));
                    match second {
                        None => TickResult::SkippedEmpty,
                        Some(next_path) => {
                            let ghost p = next_path@;
                            let result2 = setter.set(id, &next_path, fit);
                            let ghost a2 = result2;
                            assert(setter.answered(id@, p, fit, a2));
                            let t = after_retry_set(next_path, result2);
                            assert(settles(p, a2, t@));
                            t
                        },
                    }
                },
            }
        },
    }
}

/// The mathematical state of a scheduler.
pub struct SchedulerView {
    pub mode: CycleMode,
    pub fit: FitMode,
    pub paused: bool,
    pub ids: Seq<Seq<char>>,
    pub playlists: Seq<PlaylistView>,
}

impl SchedulerView {
    /// Every playlist is well formed.
    pub open spec fn wf(self) -> bool {
        &&& self.ids.len() == self.playlists.len()
        &&& forall|i: int| 0 <= i < self.playlists.len() ==> (#[trigger] self.playlists[i]).wf()
    }
}

/// The global tick driver over all monitors.
pub struct Scheduler<W: WallpaperSetter> {
    setter: W,
    rng: StdRng,
    mode: CycleMode,
    fit: FitMode,
    paused: bool,
    /// Per-monitor (id, playlist).
    monitors: Vec<(MonitorId, Playlist)>,
}

impl<W: WallpaperSetter> View for Scheduler<W> {
    type V = SchedulerView;

    closed spec fn view(&self) -> SchedulerView {
        SchedulerView {
            mode: self.mode,
            fit: self.fit,
            paused: self.paused,
            ids: self.monitors@.map_values(|m: (MonitorId, Playlist)| m.0@),
            playlists: self.monitors@.map_values(|m: (MonitorId, Playlist)| m.1@),
        }
    }
}

impl<W: WallpaperSetter> Scheduler<W> {
    /// The wallpaper setter the scheduler sends its requests to.
    pub closed spec fn wallpaper_setter(&self) -> W {
        self.setter
    }

    /// The random source of the random modes.
    pub closed spec fn random_source(&self) -> StdRng {
        self.rng
    }
}

/// The outcomes of a tick that advanced every monitor of `old` into `new`,
/// each monitor's requests going to `setter`.
pub open spec fn advanced_all<W: WallpaperSetter>(
    old: SchedulerView,
    new: SchedulerView,
    outcomes: Seq<TickOutcome>,
    setter: W,
) -> bool {
    &&& new.mode == old.mode
    &&& new.fit == old.fit
    &&& new.paused == old.paused
    &&& new.ids == old.ids
    &&& new.playlists.len() == old.playlists.len()
    &&& outcomes.len() == old.playlists.len()
    &&& forall|i: int|
        0 <= i < outcomes.len() ==> (#[trigger] outcomes[i]).monitor@ == old.ids[i] && monitor_step(
            setter,
            old.ids[i],
            old.fit,
            old.playlists[i],
            new.playlists[i],
            old.mode,
            outcomes[i].result@,
        )
}

impl<W: WallpaperSetter> Scheduler<W> {
    /// A scheduler with no monitors, not paused.
    pub fn new(setter: W, rng: StdRng, mode: CycleMode, fit: FitMode) -> (s: Self)
        ensures
            s@.mode == mode,
            s@.fit == fit,
            !s@.paused,
            s@.ids.len() == 0,
            s@.playlists.len() == 0,
            s@.wf(),
            s.wallpaper_setter() == setter,
            s.random_source() == rng,
    {
        Scheduler { setter, rng, mode, fit, paused: false, monitors: Vec::new() }
    }

    /// Replace the playlists with fresh ones, one per monitor, each built
    /// from that monitor's scanned files.
    pub fn rebuild(&mut self, assignments: &[(MonitorId, Vec<String>)])
        requires
            old(self)@.wf(),
        ensures
            final(self)@.wf(),
            final(self)@.mode == old(self)@.mode,
            final(self)@.fit == old(self)@.fit,
            final(self)@.paused == old(self)@.paused,
            final(self)@.ids == assignments@.map_values(|a: (MonitorId, Vec<String>)| a.0@),
            forall|i: int|
                0 <= i < assignments@.len() ==> built_from_files(
                    views(assignments@[i].1@),
                    #[trigger] final(self)@.playlists[i],
                ),
            final(self).wallpaper_setter() == old(self).wallpaper_setter(),
            final(self).random_source() == old(self).random_source(),
    {
        let mut monitors: Vec<(MonitorId, Playlist)> = Vec::new();
        let mut i: usize = 0;
        while i < assignments.len()
            invariant
                i <= assignments@.len(),
                monitors@.len() == i,
                forall|k: int| 0 <= k < i ==> (#[trigger] monitors@[k]).0@ == assignments@[k].0@,
                forall|k: int|
                    0 <= k < i ==> built_from_files(
                        views(assignments@[k].1@),
                        (#[trigger] monitors@[k]).1@,
                    ),
            decreases assignments@.len() - i,
        {
            let id = assignments[i].0.clone();
            let files = clone_strings(&assignments[i].1);
            let pl = Playlist::from_files(files);
            monitors.push((id, pl));
            i = i + 1;
        }
        self.monitors = monitors;
        proof {
            assert(self@.ids =~= assignments@.map_values(|a: (MonitorId, Vec<String>)| a.0@));
            assert forall|k: int| 0 <= k < self@.playlists.len() implies (
            #[trigger] self@.playlists[k]).wf() by {
                assert(self@.playlists[k] == monitors@[k].1@);
            }
        }
    }

    pub fn set_mode(&mut self, mode: CycleMode)
        ensures
            final(self)@ == (SchedulerView { mode, ..old(self)@ }),
            final(self).wallpaper_setter() == old(self).wallpaper_setter(),
            final(self).random_source() == old(self).random_source(),
    {
        self.mode = mode;
    }

    pub fn set_fit(&mut self, fit: FitMode)
        ensures
            final(self)@ == (SchedulerView { fit, ..old(self)@ }),
            final(self).wallpaper_setter() == old(self).wallpaper_setter(),
            final(self).random_source() == old(self).random_source(),
    {
        self.fit = fit;
    }

    pub fn pause(&mut self)
        ensures
            final(self)@ == (SchedulerView { paused: true, ..old(self)@ }),
            final(self).wallpaper_setter() == old(self).wallpaper_setter(),
            final(self).random_source() == old(self).random_source(),
    {
        self.paused = true;
    }

    pub fn resume(&mut self)
        ensures
            final(self)@ == (SchedulerView { paused: false, ..old(self)@ }),
            final(self).wallpaper_setter() == old(self).wallpaper_setter(),
            final(self).random_source() == old(self).random_source(),
    {
        self.paused = false;
    }

    pub fn is_paused(&self) -> (r: bool)
        ensures
            r == self@.paused,
    {
        self.paused
    }

    /// Advance every monitor and apply its image; no-op while paused.  An
    /// unreadable image is dropped and the following one tried once; any
    /// other failure marks that monitor Failed while the others still apply.
    /// Not paused, it is `next_now`.
    pub fn tick(&mut self) -> (outcomes: Vec<TickOutcome>)
        requires
            old(self)@.wf(),
        ensures
            final(self)@.wf(),
            old(self)@.paused ==> outcomes@.len() == 0 && *final(self) == *old(self),
            !old(self)@.paused ==> advanced_all(
                old(self)@,
                final(self)@,
                outcomes@,
                old(self).wallpaper_setter(),
            ),
            final(self).wallpaper_setter() == old(self).wallpaper_setter(),
    {
        if self.paused {
            return Vec::new();
        }
        self.advance_and_apply()
    }

    /// Same as `tick`, ignoring the pause (manual Next).
    pub fn next_now(&mut self) -> (outcomes: Vec<TickOutcome>)
        requires
            old(self)@.wf(),
        ensures
            final(self)@.wf(),
            advanced_all(old(self)@, final(self)@, outcomes@, old(self).wallpaper_setter()),
            final(self).wallpaper_setter() == old(self).wallpaper_setter(),
    {
        self.advance_and_apply()
    }

    fn advance_and_apply(&mut self) -> (outcomes: Vec<TickOutcome>)
        requires
            old(self)@.wf(),
        ensures
            final(self)@.wf(),
            advanced_all(old(self)@, final(self)@, outcomes@, old(self).wallpaper_setter()),
            final(self).wallpaper_setter() == old(self).wallpaper_setter(),
    {
        let ghost start = self@;
        let ghost setter = self.setter;
        let mode = self.mode;
        let fit = self.fit;
        let n = self.monitors.len();
        let mut outcomes: Vec<TickOutcome> = Vec::new();
        let mut i: usize = 0;
        while i < n
            invariant
                n == self.monitors@.len(),
                n == start.playlists.len(),
                mode == start.mode,
                fit == start.fit,
                self.setter == setter,
                self@.mode == start.mode,
                self@.fit == start.fit,
                self@.paused == start.paused,
                self@.ids == start.ids,
                self@.wf(),
                i <= n,
                outcomes@.len() == i,
                forall|k: int| i <= k < n ==> self@.playlists[k] == start.playlists[k],
                forall|k: int|
                    0 <= k < i ==> (#[trigger] outcomes@[k]).monitor@ == start.ids[k]
                        && monitor_step(
                        setter,
                        start.ids[k],
                        fit,
                        start.playlists[k],
                        self@.playlists[k],
                        mode,
                        outcomes@[k].result@,
                    ),
            decreases n - i,
        {
            let id = self.monitors[i].0.clone();
            assert(self@.playlists[i as int] == self.monitors@[i as int].1@);
            assert(self@.ids[i as int] == id@);
            let ghost before = self@;
            let ghost before_m = self.monitors@;
            let res = advance_one(&self.setter, &mut self.rng, &id, &mut self.monitors[i].1, mode, fit);
            proof {
                assert forall|k: int| 0 <= k < n && k != i implies self.monitors@[k] == before_m[k] by {}
                assert(self.monitors@.len() == n);
                assert forall|k: int| 0 <= k < n implies (#[trigger] self@.playlists[k]).wf() by {
                    if k != i {
                        assert(self@.playlists[k] == before.playlists[k]);
                    }
                }
                assert(self@.ids =~= before.ids) by {
                    assert forall|k: int| 0 <= k < n implies self@.ids[k] == before.ids[k] by {
                        if k != i {
                            assert(self.monitors@[k] == before_m[k]);
                        }
                    }
                }
            }
            outcomes.push(TickOutcome { monitor: id, result: res });
            i = i + 1;
        }
        outcomes
    }
}

// ---------------------------------------------------------------------------
// Laws
// ---------------------------------------------------------------------------

/// Law: a monitor whose playlist is empty comes out `SkippedEmpty`, with its
/// playlist unchanged.
pub proof fn law_empty_monitor_is_skipped<W: WallpaperSetter>(
    setter: W,
    id: Seq<char>,
    fit: FitMode,
    old: PlaylistView,
    new: PlaylistView,
    mode: CycleMode,
    res: TickResultView,
)
    requires
        old.images.len() == 0,
        monitor_step(setter, id, fit, old, new, mode, res),
    ensures
        res == TickResultView::SkippedEmpty,
        new == old,
{
    if exists|mid: PlaylistView, first: Seq<char>, a1: Result<(), AppError>|
        #![trigger next_step(old, mid, mode, Some(first)), setter.answered(id, first, fit, a1)]
        next_step(old, mid, mode, Some(first)) && setter.answered(id, first, fit, a1) {
        let (mid, first, a1) = choose|mid: PlaylistView, first: Seq<char>, a1: Result<(), AppError>|
            #![trigger next_step(old, mid, mode, Some(first)), setter.answered(id, first, fit, a1)]
            next_step(old, mid, mode, Some(first)) && setter.answered(id, first, fit, a1);
        assert(false);
    }
}

/// Law: an applied image always comes from the monitor's own playlist, in
/// every mode and after a retry too, and the setter accepted a request for
/// exactly that image on that monitor with the scheduler's fit.
pub proof fn law_applied_image_is_from_the_playlist<W: WallpaperSetter>(
    setter: W,
    id: Seq<char>,
    fit: FitMode,
    old: PlaylistView,
    new: PlaylistView,
    mode: CycleMode,
    p: Seq<char>,
)
    requires
        old.wf(),
        old.images.len() <= usize::MAX,
        monitor_step(setter, id, fit, old, new, mode, TickResultView::Applied(p)),
    ensures
        old.images.contains(p),
        exists|a: Result<(), AppError>| #[trigger] setter.answered(id, p, fit, a) && a is Ok,
{
    let res = TickResultView::Applied(p);
    if old.images.len() == 0 {
        law_empty_monitor_is_skipped(setter, id, fit, old, new, mode, res);
    } else {
        let (mid, first, a1) = choose|mid: PlaylistView, first: Seq<char>, a1: Result<(), AppError>|
            #![trigger next_step(old, mid, mode, Some(first)), setter.answered(id, first, fit, a1)]
            {
                &&& next_step(old, mid, mode, Some(first))
                &&& setter.answered(id, first, fit, a1)
                &&& !is_bad_image(a1) ==> new == mid && settles(first, a1, res)
                &&& is_bad_image(a1) ==> exists|second: Option<Seq<char>>|
                    #![trigger skip_step(mid, new, first, mode, second)]
                    skip_step(mid, new, first, mode, second) && match second {
                        None => res == TickResultView::SkippedEmpty,
                        Some(q) => exists|a2: Result<(), AppError>|
                            #![trigger setter.answered(id, q, fit, a2)]
                            setter.answered(id, q, fit, a2) && settles(q, a2, res),
                    }
            };
        lemma_next_picks_own_image(old, mid, mode, first);
        if is_bad_image(a1) {
            let second = choose|second: Option<Seq<char>>|
                #![trigger skip_step(mid, new, first, mode, second)]
                skip_step(mid, new, first, mode, second) && match second {
                    None => res == TickResultView::SkippedEmpty,
                    Some(q) => exists|a2: Result<(), AppError>|
                        #![trigger setter.answered(id, q, fit, a2)]
                        setter.answered(id, q, fit, a2) && settles(q, a2, res),
                };
            assert(second is Some);
            let q = second->0;
            let a2 = choose|a2: Result<(), AppError>|
                #![trigger setter.answered(id, q, fit, a2)]
                setter.answered(id, q, fit, a2) && settles(q, a2, res);
            assert(a2 is Ok && q == p);
            assert(mid.images == old.images);
            assert(mid.wf()) by {
                lemma_next_step_keeps_wf(old, mid, mode, first);
            }
            lemma_remove_all(mid, first, mode);
            lemma_next_picks_own_image(remove_all(mid, first, mode), new, mode, p);
        } else {
            assert(a1 is Ok && first == p);
        }
    }
}

/// A step keeps the playlist well formed.
proof fn lemma_next_step_keeps_wf(old: PlaylistView, new: PlaylistView, mode: CycleMode, r: Seq<char>)
    requires
        old.wf(),
        next_step(old, new, mode, Some(r)),
    ensures
        new.wf(),
{
    if mode == CycleMode::Shuffle && old.cursor >= old.order.len() {
        broadcast use vstd::seq_lib::group_to_multiset_ensures;

        assert(new.order.len() == old.order.to_multiset().len());
        crate::playlist::lemma_same_multiset_wf(old, new.order, 1);
    }
    if mode == CycleMode::Sequential {
        assert(new.cursor < old.images.len());
    }
}

/// Law: pausing then resuming gives back the scheduler as it was (`pause`
/// and `resume` change the pause flag alone).
pub proof fn law_pause_then_resume_restores(s: SchedulerView)
    requires
        !s.paused,
    ensures
        (SchedulerView { paused: false, ..(SchedulerView { paused: true, ..s }) }) == s,
{
}

/// Law: after `set_mode(m)` the next tick advances every monitor in mode `m`.
pub proof fn law_set_mode_applies_to_next_tick<W: WallpaperSetter>(
    s0: SchedulerView,
    m: CycleMode,
    s2: SchedulerView,
    outcomes: Seq<TickOutcome>,
    setter: W,
)
    requires
        advanced_all(SchedulerView { mode: m, ..s0 }, s2, outcomes, setter),
    ensures
        s2.mode == m,
        forall|i: int|
            0 <= i < outcomes.len() ==> monitor_step(
                setter,
                s0.ids[i],
                s0.fit,
                s0.playlists[i],
                s2.playlists[i],
                m,
                (#[trigger] outcomes[i]).result@,
            ),
{
}

} // verus!
