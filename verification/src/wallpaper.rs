//! The wallpaper command interface: the decisions taken on each command,
//! each answer of the system, and each clock tick.  The work that reaches
//! outside (monitors, files, the wallpaper API, saving) is handed out as one
//! request at a time, and its answer comes back as a reply.
use vstd::prelude::*;
use vstd::string::*;
use crate::config::{
    AppConfig, ConfigView, FitMode, ModeView, MonitorConfig, MonitorConfigView, WallpaperMode, texts,
};
use crate::monitor_registry::{
    Monitor, MonitorRegistry, MonitorView, ids_of, monitor_views, reconciliation_of, saved_placeholder,
};
use crate::ordered_map::{Duplicate, lemma_filter_no_duplicates, lemma_filter_to_set, sorted_keys, sorted_of};
use crate::slideshow::{
    Attempts, Schedule, Slideshow, SlideshowView, dated_view, dealt_in_order, deadline_after, draws, due_set,
    image_verdict,
    is_supported_image,
};
use crate::text::push_lower_hex_pair;

verus! {

/// What the user asks for.
#[derive(Debug)]
pub enum Command {
    Apply { monitor_id: String, mode: WallpaperMode },
    ApplyFit(FitMode),
    Refresh,
    Next(String),
    NextAll,
    SetLaunchAtLogin(bool),
    Stop,
}

/// What the user interface is told.
#[derive(Debug)]
pub enum Event {
    State { monitors: Vec<Monitor>, config: AppConfig },
    Status(String),
    Busy(bool),
}

/// Outside work whose answer the command interface waits for.
#[derive(Debug)]
pub enum Request {
    /// The connected monitors.
    ListMonitors,
    /// Whether a path names an existing file.
    CheckPicture { path: String },
    /// The path of the one-pixel color wallpaper, written into the color
    /// cache under `file_name` when it is not there yet.
    MakeColorFile { rgb: [u8; 3], file_name: String },
    /// The images of a slideshow folder, each with the time it was added.
    ListImages { folder: String },
    /// Shows a wallpaper on a monitor.
    SetWallpaper { monitor_id: String, path: String },
    /// Sets the fit shared by every monitor.
    SetFit(FitMode),
    /// Writes the configuration as it is now.
    Save,
}

/// The answer to a request.
#[derive(Debug)]
pub enum Reply {
    Monitors(Result<Vec<Monitor>, String>),
    PictureChecked(bool),
    ColorFile(Result<String, String>),
    Images(Result<Vec<(String, u64)>, String>),
    Done(Result<(), String>),
}

/// Work waiting its turn.
pub enum Job {
    Apply { monitor_id: String, mode: WallpaperMode },
    Fit(FitMode),
    Refresh { restore_all: bool, force_publish: bool },
    Advance { monitor_id: String, publish: bool },
    AdvanceAll,
    Restore { monitor_id: String },
    Publish,
    SetLaunch(bool),
}

/// Why a slideshow is being advanced.
pub enum Purpose {
    Apply(WallpaperMode),
    Advance { publish: bool, mode: WallpaperMode },
    Restore,
}

/// A slideshow being advanced for one monitor.
pub struct SlideRun {
    pub monitor_id: String,
    pub slideshow: Slideshow,
    pub purpose: Purpose,
}

/// What follows a save.
#[derive(Clone, Copy, Debug, PartialEq, Eq, Structural)]
pub enum AfterSave {
    Apply,
    Fit,
    Launch,
    Advance(bool),
    Restore,
}

/// The step that waits for the reply to the pending request.
pub enum Waiting {
    Monitors { restore_all: bool, force_publish: bool },
    Picture { monitor_id: String, mode: Option<WallpaperMode>, path: String },
    ColorFile { monitor_id: String, mode: Option<WallpaperMode>, rgb: [u8; 3] },
    Wallpaper { monitor_id: String, mode: Option<WallpaperMode>, path: String },
    Images(SlideRun),
    Attempt { run: SlideRun, attempts: Attempts, candidate: String },
    Fit(FitMode),
    Saved(AfterSave),
}

/// A command with its texts as character sequences.
#[verifier::ext_equal]
pub enum CommandView {
    Apply { monitor_id: Seq<char>, mode: ModeView },
    ApplyFit(FitMode),
    Refresh,
    Next(Seq<char>),
    NextAll,
    SetLaunchAtLogin(bool),
    Stop,
}

impl View for Command {
    type V = CommandView;

    open spec fn view(&self) -> CommandView {
        match self {
            Command::Apply { monitor_id, mode } => CommandView::Apply { monitor_id: monitor_id@, mode: mode@ },
            Command::ApplyFit(fit) => CommandView::ApplyFit(*fit),
            Command::Refresh => CommandView::Refresh,
            Command::Next(id) => CommandView::Next(id@),
            Command::NextAll => CommandView::NextAll,
            Command::SetLaunchAtLogin(b) => CommandView::SetLaunchAtLogin(*b),
            Command::Stop => CommandView::Stop,
        }
    }
}

/// An event with its texts as character sequences.
#[verifier::ext_equal]
pub enum EventView {
    State { monitors: Seq<MonitorView>, config: ConfigView },
    Status(Seq<char>),
    Busy(bool),
}

impl View for Event {
    type V = EventView;

    open spec fn view(&self) -> EventView {
        match self {
            Event::State { monitors, config } => EventView::State {
                monitors: monitor_views(monitors@),
                config: config@,
            },
            Event::Status(message) => EventView::Status(message@),
            Event::Busy(b) => EventView::Busy(*b),
        }
    }
}

/// A request with its texts as character sequences.
#[verifier::ext_equal]
pub enum RequestView {
    ListMonitors,
    CheckPicture { path: Seq<char> },
    MakeColorFile { rgb: Seq<u8>, file_name: Seq<char> },
    ListImages { folder: Seq<char> },
    SetWallpaper { monitor_id: Seq<char>, path: Seq<char> },
    SetFit(FitMode),
    Save,
}

impl View for Request {
    type V = RequestView;

    open spec fn view(&self) -> RequestView {
        match self {
            Request::ListMonitors => RequestView::ListMonitors,
            Request::CheckPicture { path } => RequestView::CheckPicture { path: path@ },
            Request::MakeColorFile { rgb, file_name } => RequestView::MakeColorFile {
                rgb: rgb@,
                file_name: file_name@,
            },
            Request::ListImages { folder } => RequestView::ListImages { folder: folder@ },
            Request::SetWallpaper { monitor_id, path } => RequestView::SetWallpaper {
                monitor_id: monitor_id@,
                path: path@,
            },
            Request::SetFit(fit) => RequestView::SetFit(*fit),
            Request::Save => RequestView::Save,
        }
    }
}

/// A reply with its texts as character sequences.
#[verifier::ext_equal]
pub enum ReplyView {
    Monitors(Result<Seq<Monitor>, Seq<char>>),
    PictureChecked(bool),
    ColorFile(Result<Seq<char>, Seq<char>>),
    Images(Result<Seq<(Seq<char>, u64)>, Seq<char>>),
    Done(Result<(), Seq<char>>),
}

impl View for Reply {
    type V = ReplyView;

    open spec fn view(&self) -> ReplyView {
        match self {
            Reply::Monitors(Ok(m)) => ReplyView::Monitors(Ok(m@)),
            Reply::Monitors(Err(e)) => ReplyView::Monitors(Err(e@)),
            Reply::PictureChecked(b) => ReplyView::PictureChecked(*b),
            Reply::ColorFile(Ok(p)) => ReplyView::ColorFile(Ok(p@)),
            Reply::ColorFile(Err(e)) => ReplyView::ColorFile(Err(e@)),
            Reply::Images(Ok(v)) => ReplyView::Images(Ok(dated_view(v@))),
            Reply::Images(Err(e)) => ReplyView::Images(Err(e@)),
            Reply::Done(Ok(())) => ReplyView::Done(Ok(())),
            Reply::Done(Err(e)) => ReplyView::Done(Err(e@)),
        }
    }
}

/// A job with its texts as character sequences.
#[verifier::ext_equal]
pub enum JobView {
    Apply { monitor_id: Seq<char>, mode: ModeView },
    Fit(FitMode),
    Refresh { restore_all: bool, force_publish: bool },
    Advance { monitor_id: Seq<char>, publish: bool },
    AdvanceAll,
    Restore { monitor_id: Seq<char> },
    Publish,
    SetLaunch(bool),
}

impl View for Job {
    type V = JobView;

    open spec fn view(&self) -> JobView {
        match self {
            Job::Apply { monitor_id, mode } => JobView::Apply { monitor_id: monitor_id@, mode: mode@ },
            Job::Fit(fit) => JobView::Fit(*fit),
            Job::Refresh { restore_all, force_publish } => JobView::Refresh {
                restore_all: *restore_all,
                force_publish: *force_publish,
            },
            Job::Advance { monitor_id, publish } => JobView::Advance {
                monitor_id: monitor_id@,
                publish: *publish,
            },
            Job::AdvanceAll => JobView::AdvanceAll,
            Job::Restore { monitor_id } => JobView::Restore { monitor_id: monitor_id@ },
            Job::Publish => JobView::Publish,
            Job::SetLaunch(b) => JobView::SetLaunch(*b),
        }
    }
}

/// A purpose with its texts as character sequences.
#[verifier::ext_equal]
pub enum PurposeView {
    Apply(ModeView),
    Advance { publish: bool, mode: ModeView },
    Restore,
}

/// A slideshow run with its texts as character sequences.
#[verifier::ext_equal]
pub struct RunView {
    pub monitor_id: Seq<char>,
    pub slideshow: SlideshowView,
    pub purpose: PurposeView,
}

impl View for SlideRun {
    type V = RunView;

    open spec fn view(&self) -> RunView {
        RunView {
            monitor_id: self.monitor_id@,
            slideshow: self.slideshow@,
            purpose: match self.purpose {
                Purpose::Apply(m) => PurposeView::Apply(m@),
                Purpose::Advance { publish, mode } => PurposeView::Advance { publish, mode: mode@ },
                Purpose::Restore => PurposeView::Restore,
            },
        }
    }
}

/// The view of an optional mode.
pub open spec fn opt_mode(o: Option<WallpaperMode>) -> Option<ModeView> {
    match o {
        Some(m) => Some(m@),
        None => None,
    }
}

/// A waiting step with its texts as character sequences.
#[verifier::ext_equal]
pub enum WaitingView {
    Monitors { restore_all: bool, force_publish: bool },
    Picture { monitor_id: Seq<char>, mode: Option<ModeView>, path: Seq<char> },
    ColorFile { monitor_id: Seq<char>, mode: Option<ModeView>, rgb: Seq<u8> },
    Wallpaper { monitor_id: Seq<char>, mode: Option<ModeView>, path: Seq<char> },
    Images(RunView),
    Attempt { run: RunView, images: Seq<Seq<char>>, tries: nat, candidate: Seq<char> },
    Fit(FitMode),
    Saved(AfterSave),
}

impl View for Waiting {
    type V = WaitingView;

    open spec fn view(&self) -> WaitingView {
        match self {
            Waiting::Monitors { restore_all, force_publish } => WaitingView::Monitors {
                restore_all: *restore_all,
                force_publish: *force_publish,
            },
            Waiting::Picture { monitor_id, mode, path } => WaitingView::Picture {
                monitor_id: monitor_id@,
                mode: opt_mode(*mode),
                path: path@,
            },
            Waiting::ColorFile { monitor_id, mode, rgb } => WaitingView::ColorFile {
                monitor_id: monitor_id@,
                mode: opt_mode(*mode),
                rgb: rgb@,
            },
            Waiting::Wallpaper { monitor_id, mode, path } => WaitingView::Wallpaper {
                monitor_id: monitor_id@,
                mode: opt_mode(*mode),
                path: path@,
            },
            Waiting::Images(run) => WaitingView::Images(run@),
            Waiting::Attempt { run, attempts, candidate } => WaitingView::Attempt {
                run: run@,
                images: attempts.images(),
                tries: attempts.tries(),
                candidate: candidate@,
            },
            Waiting::Fit(fit) => WaitingView::Fit(*fit),
            Waiting::Saved(after) => WaitingView::Saved(*after),
        }
    }
}

/// The file name of a color wallpaper: its color in lower-case hexadecimal.
pub open spec fn color_file_name(rgb: Seq<u8>) -> Seq<char> {
    crate::text::lower_hex_pair(rgb[0]) + crate::text::lower_hex_pair(rgb[1])
        + crate::text::lower_hex_pair(rgb[2]) + ".bmp"@
}

/// Names the cached wallpaper file of a color.
pub fn color_file(rgb: [u8; 3]) -> (r: String)
    ensures
        r@ == color_file_name(rgb@),
{
    let mut r = String::new();
    push_lower_hex_pair(&mut r, rgb[0]);
    push_lower_hex_pair(&mut r, rgb[1]);
    push_lower_hex_pair(&mut r, rgb[2]);
    r.append(".bmp");
    r
}

/// The state of the command interface, with its texts as character
/// sequences.
#[verifier::ext_equal]
pub struct TransitionsView {
    pub config: ConfigView,
    pub connected: Seq<Monitor>,
    pub deadlines: Map<Seq<char>, u128>,
    pub next_poll: u128,
    pub jobs: Seq<JobView>,
    pub waiting: Option<WaitingView>,
    pub events: Seq<EventView>,
}

/// The request a waiting step stands for.
pub open spec fn request_for(w: WaitingView) -> RequestView {
    match w {
        WaitingView::Monitors { .. } => RequestView::ListMonitors,
        WaitingView::Picture { path, .. } => RequestView::CheckPicture { path },
        WaitingView::ColorFile { rgb, .. } => RequestView::MakeColorFile {
            rgb,
            file_name: color_file_name(rgb),
        },
        WaitingView::Wallpaper { monitor_id, path, .. } => RequestView::SetWallpaper { monitor_id, path },
        WaitingView::Images(run) => RequestView::ListImages { folder: run.slideshow.folder },
        WaitingView::Attempt { run, candidate, .. } => RequestView::SetWallpaper {
            monitor_id: run.monitor_id,
            path: candidate,
        },
        WaitingView::Fit(fit) => RequestView::SetFit(fit),
        WaitingView::Saved(_) => RequestView::Save,
    }
}

/// The job a command asks for.
pub open spec fn job_for(c: CommandView) -> JobView {
    match c {
        CommandView::Apply { monitor_id, mode } => JobView::Apply { monitor_id, mode },
        CommandView::ApplyFit(fit) => JobView::Fit(fit),
        CommandView::Refresh => JobView::Refresh { restore_all: false, force_publish: true },
        CommandView::Next(id) => JobView::Advance { monitor_id: id, publish: true },
        CommandView::NextAll => JobView::AdvanceAll,
        CommandView::SetLaunchAtLogin(b) => JobView::SetLaunch(b),
        CommandView::Stop => JobView::Publish,
    }
}

/// The monitors shown to the user: the connected ones, then every saved
/// monitor that is not connected, in ascending order.
pub open spec fn shown_monitors(s: TransitionsView) -> Seq<MonitorView> {
    monitor_views(s.connected) + sorted_of(s.config.monitors.dom()).filter(
        |id: Seq<char>| !ids_of(s.connected).contains(id),
    ).map_values(|id: Seq<char>| saved_placeholder(id))
}

/// The state event that describes `s`.
pub open spec fn published(s: TransitionsView) -> EventView {
    EventView::State { monitors: shown_monitors(s), config: s.config }
}

/// `s` after telling the user `message`.
pub open spec fn with_status(s: TransitionsView, message: Seq<char>) -> TransitionsView {
    TransitionsView { events: s.events.push(EventView::Status(message)), ..s }
}

/// `s` after publishing its state.
pub open spec fn with_published(s: TransitionsView) -> TransitionsView {
    TransitionsView { events: s.events.push(published(s)), ..s }
}

/// `s` after an apply ends: its outcome, the end of the busy state, and the
/// state are told.
pub open spec fn applied(s: TransitionsView, result: Result<(), Seq<char>>) -> TransitionsView {
    let s1 = with_status(
        s,
        match result {
            Ok(()) => "Wallpaper applied"@,
            Err(e) => e,
        },
    );
    with_published(TransitionsView { events: s1.events.push(EventView::Busy(false)), ..s1 })
}

/// `s` waiting for the reply to `w`'s request.
pub open spec fn awaiting(s: TransitionsView, w: WaitingView) -> TransitionsView {
    TransitionsView { waiting: Some(w), ..s }
}

/// `s` with `id`'s saved configuration set.
pub open spec fn with_saved(s: TransitionsView, id: Seq<char>, c: MonitorConfigView) -> TransitionsView {
    TransitionsView {
        config: ConfigView { monitors: s.config.monitors.insert(id, c), ..s.config },
        ..s
    }
}

/// The monitors whose saved mode is a slideshow, in ascending order.
pub open spec fn slideshow_ids(c: ConfigView) -> Seq<Seq<char>> {
    sorted_of(c.monitors.dom()).filter(|id: Seq<char>| c.monitors[id].mode is Slideshow)
}

/// What beginning a job does, once the job is off the queue.
pub open spec fn begun(s: TransitionsView, job: JobView) -> TransitionsView {
    match job {
        JobView::Apply { monitor_id, mode } => {
            let s1 = TransitionsView { events: s.events.push(EventView::Busy(true)), ..s };
            if !ids_of(s.connected).contains(monitor_id) {
                applied(s1, Err("The selected monitor is disconnected"@))
            } else {
                match mode {
                    ModeView::Picture { path } => awaiting(
                        s1,
                        WaitingView::Picture { monitor_id, mode: Some(mode), path },
                    ),
                    ModeView::Color { rgb } => awaiting(
                        s1,
                        WaitingView::ColorFile { monitor_id, mode: Some(mode), rgb },
                    ),
                    ModeView::Slideshow { folder, interval_seconds, order } => if interval_seconds < 60 {
                        applied(s1, Err("The minimum slideshow interval is one minute"@))
                    } else {
                        awaiting(
                            s1,
                            WaitingView::Images(
                                RunView {
                                    monitor_id,
                                    slideshow: SlideshowView {
                                        folder,
                                        interval_seconds,
                                        order,
                                        current_image: None,
                                        remaining_deck: Seq::empty(),
                                    },
                                    purpose: PurposeView::Apply(mode),
                                },
                            ),
                        )
                    },
                }
            }
        },
        JobView::Fit(fit) => awaiting(s, WaitingView::Fit(fit)),
        JobView::Refresh { restore_all, force_publish } => awaiting(
            s,
            WaitingView::Monitors { restore_all, force_publish },
        ),
        JobView::Advance { monitor_id, publish } => {
            if !ids_of(s.connected).contains(monitor_id) || !s.config.monitors.contains_key(monitor_id) {
                s
            } else {
                let c = s.config.monitors[monitor_id];
                match c.mode {
                    ModeView::Slideshow { folder, interval_seconds, order } => awaiting(
                        s,
                        WaitingView::Images(
                            RunView {
                                monitor_id,
                                slideshow: SlideshowView {
                                    folder,
                                    interval_seconds,
                                    order,
                                    current_image: c.current_image,
                                    remaining_deck: c.remaining_shuffle_deck,
                                },
                                purpose: PurposeView::Advance { publish, mode: c.mode },
                            },
                        ),
                    ),
                    _ => awaiting(
                        with_status(
                            TransitionsView { deadlines: s.deadlines.remove(monitor_id), ..s },
                            "The selected monitor is not using a slideshow"@,
                        ),
                        WaitingView::Saved(AfterSave::Advance(publish)),
                    ),
                }
            }
        },
        JobView::AdvanceAll => TransitionsView {
            jobs: slideshow_ids(s.config).map_values(
                |id: Seq<char>| JobView::Advance { monitor_id: id, publish: false },
            ).push(JobView::Publish) + s.jobs,
            ..s
        },
        JobView::Restore { monitor_id } => {
            if !s.config.monitors.contains_key(monitor_id) {
                s
            } else {
                let c = s.config.monitors[monitor_id];
                match c.mode {
                    ModeView::Picture { path } => awaiting(
                        s,
                        WaitingView::Picture { monitor_id, mode: None, path },
                    ),
                    ModeView::Color { rgb } => awaiting(
                        s,
                        WaitingView::ColorFile { monitor_id, mode: None, rgb },
                    ),
                    ModeView::Slideshow { folder, interval_seconds, order } => awaiting(
                        s,
                        WaitingView::Images(
                            RunView {
                                monitor_id,
                                slideshow: SlideshowView {
                                    folder,
                                    interval_seconds,
                                    order,
                                    current_image: c.current_image,
                                    remaining_deck: c.remaining_shuffle_deck,
                                },
                                purpose: PurposeView::Restore,
                            },
                        ),
                    ),
                }
            }
        },
        JobView::Publish => with_published(s),
        JobView::SetLaunch(enabled) => awaiting(
            TransitionsView { config: ConfigView { launch_at_login: enabled, ..s.config }, ..s },
            WaitingView::Saved(AfterSave::Launch),
        ),
    }
}

/// What ending a slideshow run does.
pub open spec fn run_ended(s: TransitionsView, run: RunView, result: Result<(), Seq<char>>, now: u64) -> TransitionsView {
    let id = run.monitor_id;
    let show = run.slideshow;
    let deadline = deadline_after(now, show.interval_seconds);
    match run.purpose {
        PurposeView::Apply(mode) => match result {
            Ok(()) => awaiting(
                with_saved(
                    TransitionsView { deadlines: s.deadlines.insert(id, deadline), ..s },
                    id,
                    MonitorConfigView {
                        mode,
                        current_image: show.current_image,
                        remaining_shuffle_deck: show.remaining_deck,
                    },
                ),
                WaitingView::Saved(AfterSave::Apply),
            ),
            Err(e) => applied(s, Err(e)),
        },
        PurposeView::Advance { publish, mode } => {
            let s1 = with_saved(
                TransitionsView {
                    deadlines: match result {
                        Ok(()) => s.deadlines.insert(id, deadline),
                        Err(_) => s.deadlines.remove(id),
                    },
                    ..s
                },
                id,
                MonitorConfigView {
                    mode,
                    current_image: show.current_image,
                    remaining_shuffle_deck: show.remaining_deck,
                },
            );
            let s2 = match result {
                Err(e) => with_status(s1, e),
                Ok(()) => if publish {
                    with_status(s1, "Wallpaper advanced"@)
                } else {
                    s1
                },
            };
            awaiting(s2, WaitingView::Saved(AfterSave::Advance(publish)))
        },
        PurposeView::Restore => match result {
            Ok(()) => {
                let s1 = TransitionsView { deadlines: s.deadlines.insert(id, deadline), ..s };
                let s2 = if s.config.monitors.contains_key(id) {
                    with_saved(
                        s1,
                        id,
                        MonitorConfigView {
                            mode: s.config.monitors[id].mode,
                            current_image: show.current_image,
                            remaining_shuffle_deck: show.remaining_deck,
                        },
                    )
                } else {
                    s1
                };
                awaiting(s2, WaitingView::Saved(AfterSave::Restore))
            },
            Err(e) => with_status(s, e),
        },
    }
}

/// What trying the next image of a run does: draw one and ask to show it,
/// or end the run when every image was tried.
pub open spec fn tried(
    s: TransitionsView,
    run: RunView,
    images: Seq<Seq<char>>,
    tries: nat,
    now: u64,
    t: TransitionsView,
) -> bool {
    if tries < images.len() {
        exists|deck: Seq<Seq<char>>, c: Seq<char>|
            #![trigger draws(run.slideshow.order, images, run.slideshow.current_image, run.slideshow.remaining_deck, deck, Some(c))]
            draws(run.slideshow.order, images, run.slideshow.current_image, run.slideshow.remaining_deck, deck, Some(c))
                && t == awaiting(
                s,
                WaitingView::Attempt {
                    run: RunView {
                        slideshow: SlideshowView { remaining_deck: deck, ..run.slideshow },
                        ..run
                    },
                    images,
                    tries: tries + 1,
                    candidate: c,
                },
            )
    } else {
        t == run_ended(s, run, Err("No slideshow image could be applied"@), now)
    }
}

/// What ends after a save.
pub open spec fn after_save(s: TransitionsView, after: AfterSave, result: Result<(), Seq<char>>) -> TransitionsView {
    let told = match result {
        Err(e) => with_status(s, e),
        Ok(()) => s,
    };
    match after {
        AfterSave::Apply => applied(s, result),
        AfterSave::Fit => with_published(
            with_status(
                s,
                match result {
                    Err(e) => e,
                    Ok(()) => "Image fit applied to all monitors"@,
                },
            ),
        ),
        AfterSave::Launch => with_published(told),
        AfterSave::Advance(publish) => if publish {
            with_published(told)
        } else {
            told
        },
        AfterSave::Restore => told,
    }
}

/// One `Restore` job for each monitor, in order.
pub open spec fn restore_jobs(ids: Seq<Seq<char>>) -> Seq<JobView> {
    ids.map_values(|id: Seq<char>| JobView::Restore { monitor_id: id })
}

/// The monitors restored after a reconciliation, as `Restore` jobs, followed
/// by a state event when anything changed or the state is owed.
pub open spec fn refreshed(s: TransitionsView, monitors: Seq<Monitor>, restore_all: bool, force_publish: bool, t: TransitionsView) -> bool {
    exists|restored: Seq<Seq<char>>| #[trigger] refreshed_with(s, monitors, restore_all, force_publish, t, restored)
}

/// A reconciliation that restores the monitors `restored`, in that order.
pub open spec fn refreshed_with(
    s: TransitionsView,
    monitors: Seq<Monitor>,
    restore_all: bool,
    force_publish: bool,
    t: TransitionsView,
    restored: Seq<Seq<char>>,
) -> bool {
    let (changed, newly) = reconciliation_of(ids_of(s.connected), ids_of(monitors));
    {
        &&& (restore_all ==> restored == sorted_of(s.config.monitors.dom()).filter(
            |id: Seq<char>| ids_of(monitors).contains(id),
        ))
        &&& (!restore_all ==> restored.no_duplicates() && restored.to_set() == newly.filter(
            |id: Seq<char>| s.config.monitors.contains_key(id),
        ))
        &&& t == TransitionsView {
            connected: monitors,
            jobs: restore_jobs(restored) + (if force_publish
                || restore_all || changed || restored.len() > 0 {
                seq![JobView::Publish]
            } else {
                Seq::empty()
            }) + s.jobs,
            ..s
        }
    }
}

/// What a reply to a waiting step does; a reply of the wrong kind leaves the
/// step waiting.
pub open spec fn resumed(s: TransitionsView, w: WaitingView, reply: ReplyView, now: u64, t: TransitionsView) -> bool {
    match (w, reply) {
        (WaitingView::Monitors { restore_all, force_publish }, ReplyView::Monitors(Ok(monitors))) => refreshed(
            s,
            monitors,
            restore_all,
            force_publish,
            t,
        ),
        (WaitingView::Monitors { .. }, ReplyView::Monitors(Err(e))) => t == with_status(s, e),
        (WaitingView::Picture { monitor_id, mode: Some(mode), path }, ReplyView::PictureChecked(found)) => {
            let refused = applied(s, Err("Choose an existing JPEG, PNG, or BMP image"@));
            let accepted = awaiting(s, WaitingView::Wallpaper { monitor_id, mode: Some(mode), path });
            if !found || image_verdict(path) == Some(false) {
                t == refused
            } else if image_verdict(path) == Some(true) {
                t == accepted
            } else {
                t == refused || t == accepted
            }
        },
        (WaitingView::Picture { monitor_id, mode: None, path }, ReplyView::PictureChecked(found)) => if found {
            t == awaiting(s, WaitingView::Wallpaper { monitor_id, mode: None, path })
        } else {
            t == with_status(s, "Saved wallpaper is missing: "@ + path)
        },
        (WaitingView::ColorFile { monitor_id, mode, .. }, ReplyView::ColorFile(Ok(path))) => t == awaiting(
            s,
            WaitingView::Wallpaper { monitor_id, mode, path },
        ),
        (WaitingView::ColorFile { mode, .. }, ReplyView::ColorFile(Err(e))) => t == if mode is Some {
            applied(s, Err(e))
        } else {
            with_status(s, e)
        },
        (WaitingView::Wallpaper { monitor_id, mode, path }, ReplyView::Done(Ok(()))) => t == match mode {
            Some(mode) => awaiting(
                with_saved(
                    TransitionsView { deadlines: s.deadlines.remove(monitor_id), ..s },
                    monitor_id,
                    MonitorConfigView {
                        mode,
                        current_image: Some(path),
                        remaining_shuffle_deck: Seq::empty(),
                    },
                ),
                WaitingView::Saved(AfterSave::Apply),
            ),
            None => s,
        },
        (WaitingView::Wallpaper { mode, .. }, ReplyView::Done(Err(e))) => t == if mode is Some {
            applied(s, Err(e))
        } else {
            with_status(s, e)
        },
        (WaitingView::Images(run), ReplyView::Images(Err(e))) => t == run_ended(s, run, Err(e), now),
        (WaitingView::Images(run), ReplyView::Images(Ok(listed))) => if listed.len() == 0 {
            t == run_ended(s, run, Err("The slideshow folder is empty"@), now)
        } else {
            exists|images: Seq<Seq<char>>|
                dealt_in_order(run.slideshow.order, listed, images) && tried(s, run, images, 0, now, t)
        },
        (WaitingView::Attempt { run, candidate, .. }, ReplyView::Done(Ok(()))) => t == run_ended(
            s,
            RunView { slideshow: SlideshowView { current_image: Some(candidate), ..run.slideshow }, ..run },
            Ok(()),
            now,
        ),
        (WaitingView::Attempt { run, images, tries, .. }, ReplyView::Done(Err(_))) => tried(
            s,
            run,
            images,
            tries,
            now,
            t,
        ),
        (WaitingView::Fit(fit), ReplyView::Done(Ok(()))) => t == awaiting(
            TransitionsView { config: ConfigView { shared_fit: fit, ..s.config }, ..s },
            WaitingView::Saved(AfterSave::Fit),
        ),
        (WaitingView::Fit(_), ReplyView::Done(Err(e))) => t == with_published(with_status(s, e)),
        (WaitingView::Saved(after), ReplyView::Done(result)) => t == after_save(s, after, result),
        _ => t == awaiting(s, w),
    }
}

/// The view of an optional waiting step.
pub open spec fn opt_waiting(o: Option<Waiting>) -> Option<WaitingView> {
    match o {
        Some(w) => Some(w@),
        None => None,
    }
}

/// The state of the command interface.
pub struct Transitions {
    config: AppConfig,
    registry: MonitorRegistry,
    slideshows: Schedule,
    next_monitor_poll: u128,
    jobs: Vec<Job>,
    waiting: Option<Waiting>,
    events: Vec<Event>,
}

impl View for Transitions {
    type V = TransitionsView;

    closed spec fn view(&self) -> TransitionsView {
        TransitionsView {
            config: self.config@,
            connected: self.registry.connected_monitors(),
            deadlines: self.slideshows.deadlines(),
            next_poll: self.next_monitor_poll,
            jobs: self.jobs@.map_values(|j: Job| j@),
            waiting: opt_waiting(self.waiting),
            events: self.events@.map_values(|e: Event| e@),
        }
    }
}

impl Transitions {
    /// Starts from a configuration, with no monitor known and nothing due.
    pub fn new(config: AppConfig) -> (r: Self)
        ensures
            r@ == (TransitionsView {
                config: config@,
                connected: Seq::empty(),
                deadlines: Map::empty(),
                next_poll: 0,
                jobs: Seq::empty(),
                waiting: None,
                events: Seq::empty(),
            }),
    {
        let r = Transitions {
            config,
            registry: MonitorRegistry::default(),
            slideshows: Schedule::new(),
            next_monitor_poll: 0,
            jobs: Vec::new(),
            waiting: None,
            events: Vec::new(),
        };
        assert(r@.jobs =~= Seq::<JobView>::empty());
        assert(r@.events =~= Seq::<EventView>::empty());
        r
    }

    /// The configuration as it is now.
    pub fn current_config(&self) -> (r: &AppConfig)
        ensures
            r@ == self@.config,
    {
        &self.config
    }

    /// The request waiting for its reply, if any.
    pub fn pending_request(&self) -> (r: Option<Request>)
        ensures
            match r {
                Some(q) => self@.waiting matches Some(w) && q@ == request_for(w),
                None => self@.waiting is None,
            },
            self@.waiting matches Some(WaitingView::ColorFile { rgb, .. }) ==> (r matches Some(
                Request::MakeColorFile { rgb: c, file_name },
            ) && c@ == rgb && file_name@ == color_file_name(rgb)),
    {
        match &self.waiting {
            None => None,
            Some(waiting) => Some(
                match waiting {
                    Waiting::Monitors { .. } => Request::ListMonitors,
                    Waiting::Picture { path, .. } => Request::CheckPicture { path: path.clone() },
                    Waiting::ColorFile { rgb, .. } => Request::MakeColorFile {
                        rgb: *rgb,
                        file_name: color_file(*rgb),
                    },
                    Waiting::Wallpaper { monitor_id, path, .. } => Request::SetWallpaper {
                        monitor_id: monitor_id.clone(),
                        path: path.clone(),
                    },
                    Waiting::Images(run) => Request::ListImages { folder: run.slideshow.folder.clone() },
                    Waiting::Attempt { run, candidate, .. } => Request::SetWallpaper {
                        monitor_id: run.monitor_id.clone(),
                        path: candidate.clone(),
                    },
                    Waiting::Fit(fit) => Request::SetFit(*fit),
                    Waiting::Saved(_) => Request::Save,
                },
            ),
        }
    }

    /// Whether work is waiting and no reply is.
    pub fn has_work(&self) -> (r: bool)
        ensures
            r == (self@.waiting is None && self@.jobs.len() > 0),
    {
        self.waiting.is_none() && self.jobs.len() > 0
    }

    /// Hands out the events told so far.
    pub fn take_events(&mut self) -> (r: Vec<Event>)
        ensures
            r@.map_values(|e: Event| e@) == old(self)@.events,
            final(self)@ == (TransitionsView { events: Seq::empty(), ..old(self)@ }),
    {
        let mut r: Vec<Event> = Vec::new();
        std::mem::swap(&mut r, &mut self.events);
        assert(self@.events =~= Seq::<EventView>::empty());
        assert(self@ =~= TransitionsView { events: Seq::empty(), ..old(self)@ });
        r
    }

    fn status(&mut self, message: String)
        ensures
            final(self)@ == with_status(old(self)@, message@),
    {
        self.events.push(Event::Status(message));
        assert(self@ =~= with_status(old(self)@, message@));
    }

    fn publish_state(&mut self)
        ensures
            final(self)@ == with_published(old(self)@),
    {
        let keys = self.config.monitors.keys();
        let slice = keys.as_slice();
        let monitors = self.registry.view(slice);
        let config = self.config.duplicate();
        let event = Event::State { monitors, config };
        assert(event@ == published(old(self)@)) by {
            assert(texts(keys@) == keys@.map_values(|s: String| s@));
            assert(slice@ == keys@);
        }
        self.events.push(event);
        assert(self@ =~= with_published(old(self)@));
    }

    fn ask(&mut self, waiting: Waiting)
        ensures
            final(self)@ == awaiting(old(self)@, waiting@),
    {
        self.waiting = Some(waiting);
        assert(self@ =~= awaiting(old(self)@, waiting@));
    }

    fn finish_apply(&mut self, result: Result<(), String>)
        ensures
            final(self)@ == applied(
                old(self)@,
                match result {
                    Ok(()) => Ok(()),
                    Err(e) => Err(e@),
                },
            ),
    {
        match result {
            Ok(()) => self.status(String::from_str("Wallpaper applied")),
            Err(error) => self.status(error),
        }
        let ghost s1 = self@;
        self.events.push(Event::Busy(false));
        assert(self@ =~= TransitionsView { events: s1.events.push(EventView::Busy(false)), ..s1 });
        self.publish_state();
    }

    /// Takes a command: it waits its turn behind the work already queued.
    /// `false` means the interface stops.
    pub fn handle(&mut self, command: Command) -> (r: bool)
        ensures
            r == !(command is Stop),
            command is Stop ==> final(self)@ == old(self)@,
            !(command is Stop) ==> final(self)@ == (TransitionsView {
                jobs: old(self)@.jobs.push(job_for(command@)),
                ..old(self)@
            }),
    {
        let ghost c = command@;
        let job = match command {
            Command::Apply { monitor_id, mode } => Job::Apply { monitor_id, mode },
            Command::ApplyFit(fit) => Job::Fit(fit),
            Command::Refresh => Job::Refresh { restore_all: false, force_publish: true },
            Command::Next(monitor_id) => Job::Advance { monitor_id, publish: true },
            Command::NextAll => Job::AdvanceAll,
            Command::SetLaunchAtLogin(enabled) => Job::SetLaunch(enabled),
            Command::Stop => {
                return false;
            },
        };
        assert(job@ == job_for(c));
        self.jobs.push(job);
        assert(self@ =~= TransitionsView { jobs: old(self)@.jobs.push(job_for(c)), ..old(self)@ });
        true
    }

    /// First run: queues a refresh that restores every connected monitor and
    /// publishes the state, and polls the monitors again five seconds on.
    pub fn start(&mut self, now: u64)
        ensures
            final(self)@ == (TransitionsView {
                jobs: old(self)@.jobs.push(JobView::Refresh { restore_all: true, force_publish: true }),
                next_poll: (now + 5000) as u128,
                ..old(self)@
            }),
    {
        self.jobs.push(Job::Refresh { restore_all: true, force_publish: true });
        self.next_monitor_poll = now as u128 + 5000;
        assert(self@ =~= TransitionsView {
            jobs: old(self)@.jobs.push(JobView::Refresh { restore_all: true, force_publish: true }),
            next_poll: (now + 5000) as u128,
            ..old(self)@
        });
    }

    /// A clock tick: queues an advance of every slideshow that is due, in
    /// ascending order, and a refresh of the monitors every five seconds.
    pub fn tick(&mut self, now: u64)
        ensures
            exists|ids: Seq<Seq<char>>| {
                &&& sorted_keys(ids)
                &&& ids.to_set() == due_set(old(self)@.deadlines, now)
                &&& final(self)@ == (TransitionsView {
                    deadlines: old(self)@.deadlines.remove_keys(ids.to_set()),
                    jobs: old(self)@.jobs + ids.map_values(
                        |id: Seq<char>| JobView::Advance { monitor_id: id, publish: false },
                    ) + if now >= old(self)@.next_poll {
                        seq![JobView::Refresh { restore_all: false, force_publish: false }]
                    } else {
                        Seq::empty()
                    },
                    next_poll: if now >= old(self)@.next_poll {
                        (now + 5000) as u128
                    } else {
                        old(self)@.next_poll
                    },
                    ..old(self)@
                })
            },
    {
        let due = self.slideshows.due(now);
        let ghost ids = texts(due@);
        let ghost advance = |id: Seq<char>| JobView::Advance { monitor_id: id, publish: false };
        let ghost before = self@.jobs;
        let ghost s0 = self@;
        let mut i: usize = 0;
        while i < due.len()
            invariant
                i <= due@.len(),
                ids == texts(due@),
                advance == (|id: Seq<char>| JobView::Advance { monitor_id: id, publish: false }),
                self.jobs@.map_values(|j: Job| j@) == before + ids.subrange(0, i as int).map_values(advance),
                self@ == (TransitionsView { jobs: self@.jobs, ..s0 }),
            decreases due@.len() - i,
        {
            let ghost old_jobs = self.jobs@;
            let job = Job::Advance { monitor_id: due[i].clone(), publish: false };
            assert(job@ == advance(ids[i as int]));
            self.jobs.push(job);
            assert(self.jobs@.map_values(|j: Job| j@) =~= old_jobs.map_values(|j: Job| j@).push(advance(ids[i as int])));
            assert(self.jobs@.map_values(|j: Job| j@) =~= before + ids.subrange(0, i + 1).map_values(advance));
            assert(self@ =~= TransitionsView { jobs: self@.jobs, ..s0 });
            i = i + 1;
        }
        assert(ids.subrange(0, i as int) =~= ids);
        let ghost mid = self@;
        let ghost mid_jobs = self.jobs@;
        if now as u128 >= self.next_monitor_poll {
            self.jobs.push(Job::Refresh { restore_all: false, force_publish: false });
            self.next_monitor_poll = now as u128 + 5000;
            assert(self.jobs@.map_values(|j: Job| j@) =~= mid_jobs.map_values(|j: Job| j@).push(
                JobView::Refresh { restore_all: false, force_publish: false },
            ));
        }
        assert(self@ =~= TransitionsView {
            deadlines: old(self)@.deadlines.remove_keys(ids.to_set()),
            jobs: old(self)@.jobs + ids.map_values(advance) + if now >= old(self)@.next_poll {
                seq![JobView::Refresh { restore_all: false, force_publish: false }]
            } else {
                Seq::empty()
            },
            next_poll: if now >= old(self)@.next_poll {
                (now + 5000) as u128
            } else {
                old(self)@.next_poll
            },
            ..old(self)@
        });
    }

    fn push_front(&mut self, front: Vec<Job>)
        ensures
            final(self)@ == (TransitionsView {
                jobs: front@.map_values(|j: Job| j@) + old(self)@.jobs,
                ..old(self)@
            }),
    {
        let mut front = front;
        let ghost f = front@.map_values(|j: Job| j@);
        let mut rest: Vec<Job> = Vec::new();
        std::mem::swap(&mut rest, &mut self.jobs);
        let ghost r = rest@;
        front.append(&mut rest);
        assert(front@.map_values(|j: Job| j@) =~= f + r.map_values(|j: Job| j@));
        self.jobs = front;
        assert(self@ =~= TransitionsView { jobs: f + old(self)@.jobs, ..old(self)@ });
    }

    /// Begins the next job when no reply is awaited.
    pub fn step(&mut self, now: u64)
        ensures
            old(self)@.waiting is Some || old(self)@.jobs.len() == 0 ==> final(self)@ == old(self)@,
            old(self)@.waiting is None && old(self)@.jobs.len() > 0 ==> final(self)@ == begun(
                TransitionsView { jobs: old(self)@.jobs.drop_first(), ..old(self)@ },
                old(self)@.jobs[0],
            ),
    {
        if self.waiting.is_some() || self.jobs.len() == 0 {
            return;
        }
        let job = self.jobs.remove(0);
        assert(self@ =~= TransitionsView { jobs: old(self)@.jobs.drop_first(), ..old(self)@ });
        match job {
            Job::Apply { monitor_id, mode } => self.begin_apply(monitor_id, mode),
            Job::Fit(fit) => self.ask(Waiting::Fit(fit)),
            Job::Refresh { restore_all, force_publish } => self.ask(Waiting::Monitors { restore_all, force_publish }),
            Job::Advance { monitor_id, publish } => self.begin_advance(monitor_id, publish),
            Job::AdvanceAll => self.begin_advance_all(),
            Job::Restore { monitor_id } => self.begin_restore(monitor_id),
            Job::Publish => self.publish_state(),
            Job::SetLaunch(enabled) => {
                let ghost s0 = self@;
                self.config.launch_at_login = enabled;
                assert(self@ =~= TransitionsView { config: ConfigView { launch_at_login: enabled, ..s0.config }, ..s0 });
                self.ask(Waiting::Saved(AfterSave::Launch));
            },
        }
    }

    fn begin_apply(&mut self, monitor_id: String, mode: WallpaperMode)
        ensures
            final(self)@ == begun(old(self)@, JobView::Apply { monitor_id: monitor_id@, mode: mode@ }),
    {
        self.events.push(Event::Busy(true));
        assert(self@ =~= TransitionsView { events: old(self)@.events.push(EventView::Busy(true)), ..old(self)@ });
        if !self.registry.is_connected(monitor_id.as_str()) {
            self.finish_apply(Err(String::from_str("The selected monitor is disconnected")));
            return;
        }
        match &mode {
            WallpaperMode::Picture { path } => {
                let path = path.clone();
                self.ask(Waiting::Picture { monitor_id, mode: Some(mode), path });
            },
            WallpaperMode::Color { rgb } => {
                let rgb = *rgb;
                self.ask(Waiting::ColorFile { monitor_id, mode: Some(mode), rgb });
            },
            WallpaperMode::Slideshow { folder, interval_seconds, order } => {
                if *interval_seconds < 60 {
                    self.finish_apply(Err(String::from_str("The minimum slideshow interval is one minute")));
                    return;
                }
                let slideshow = Slideshow {
                    folder: folder.clone(),
                    interval_seconds: *interval_seconds,
                    order: *order,
                    current_image: None,
                    remaining_deck: Vec::new(),
                };
                assert(slideshow@.remaining_deck =~= Seq::<Seq<char>>::empty());
                self.ask(Waiting::Images(SlideRun { monitor_id, slideshow, purpose: Purpose::Apply(mode) }));
            },
        }
    }

    fn begin_advance(&mut self, monitor_id: String, publish: bool)
        ensures
            final(self)@ == begun(old(self)@, JobView::Advance { monitor_id: monitor_id@, publish }),
    {
        if !self.registry.is_connected(monitor_id.as_str()) {
            return;
        }
        let config = match self.config.monitors.get(monitor_id.as_str()) {
            Some(c) => c.duplicate(),
            None => {
                return;
            },
        };
        match &config.mode {
            WallpaperMode::Slideshow { folder, interval_seconds, order } => {
                let slideshow = Slideshow {
                    folder: folder.clone(),
                    interval_seconds: *interval_seconds,
                    order: *order,
                    current_image: config.current_image,
                    remaining_deck: config.remaining_shuffle_deck,
                };
                self.ask(
                    Waiting::Images(
                        SlideRun { monitor_id, slideshow, purpose: Purpose::Advance { publish, mode: config.mode } },
                    ),
                );
            },
            _ => {
                let ghost s0 = self@;
                self.slideshows.cancel(monitor_id.as_str());
                assert(self@ =~= TransitionsView { deadlines: s0.deadlines.remove(monitor_id@), ..s0 });
                self.status(String::from_str("The selected monitor is not using a slideshow"));
                self.ask(Waiting::Saved(AfterSave::Advance(publish)));
            },
        }
    }

    fn begin_advance_all(&mut self)
        ensures
            final(self)@ == begun(old(self)@, JobView::AdvanceAll),
    {
        let keys = self.config.monitors.keys();
        let ghost order = texts(keys@);
        let ghost monitors = self.config.monitors@;
        let ghost is_show = |id: Seq<char>| monitors[id].mode is Slideshow;
        let ghost advance = |id: Seq<char>| JobView::Advance { monitor_id: id, publish: false };
        proof {
            self.config.monitors.lemma_keys();
        }
        let mut front: Vec<Job> = Vec::new();
        let mut i: usize = 0;
        while i < keys.len()
            invariant
                i <= keys@.len(),
                order == texts(keys@),
                monitors == self.config.monitors@,
                order.to_set() == monitors.dom(),
                is_show == (|id: Seq<char>| monitors[id].mode is Slideshow),
                advance == (|id: Seq<char>| JobView::Advance { monitor_id: id, publish: false }),
                front@.map_values(|j: Job| j@) == order.subrange(0, i as int).filter(is_show).map_values(advance),
            decreases keys@.len() - i,
        {
            let ghost prefix = order.subrange(0, i as int);
            let ghost before = front@;
            assert(order[i as int] == keys@[i as int]@);
            assert(order.subrange(0, i + 1) =~= prefix.push(keys@[i as int]@));
            proof {
                reveal_with_fuel(Seq::filter, 1);
                assert(prefix.push(keys@[i as int]@).drop_last() =~= prefix);
                assert(order.contains(order[i as int]));
            }
            let is_slideshow = match self.config.monitors.get(keys[i].as_str()) {
                Some(c) => match c.mode {
                    WallpaperMode::Slideshow { .. } => true,
                    _ => false,
                },
                None => false,
            };
            if is_slideshow {
                front.push(Job::Advance { monitor_id: keys[i].clone(), publish: false });
                assert(front@.map_values(|j: Job| j@) =~= before.map_values(|j: Job| j@).push(
                    advance(keys@[i as int]@),
                ));
            }
            assert(front@.map_values(|j: Job| j@) =~= order.subrange(0, i + 1).filter(is_show).map_values(advance));
            i = i + 1;
        }
        assert(order.subrange(0, i as int) =~= order);
        proof {
            self.config.monitors.lemma_keys();
        }
        let ghost before = front@;
        front.push(Job::Publish);
        assert(front@.map_values(|j: Job| j@) =~= before.map_values(|j: Job| j@).push(JobView::Publish));
        self.push_front(front);
    }

    fn begin_restore(&mut self, monitor_id: String)
        ensures
            final(self)@ == begun(old(self)@, JobView::Restore { monitor_id: monitor_id@ }),
    {
        let config = match self.config.monitors.get(monitor_id.as_str()) {
            Some(c) => c.duplicate(),
            None => {
                return;
            },
        };
        match config.mode {
            WallpaperMode::Picture { path } => {
                self.ask(Waiting::Picture { monitor_id, mode: None, path });
            },
            WallpaperMode::Color { rgb } => {
                self.ask(Waiting::ColorFile { monitor_id, mode: None, rgb });
            },
            WallpaperMode::Slideshow { folder, interval_seconds, order } => {
                let slideshow = Slideshow {
                    folder,
                    interval_seconds,
                    order,
                    current_image: config.current_image,
                    remaining_deck: config.remaining_shuffle_deck,
                };
                self.ask(Waiting::Images(SlideRun { monitor_id, slideshow, purpose: Purpose::Restore }));
            },
        }
    }

    fn try_next(&mut self, run: SlideRun, attempts: Attempts, now: u64)
        requires
            old(self)@.waiting is None,
        ensures
            tried(old(self)@, run@, attempts.images(), attempts.tries(), now, final(self)@),
    {
        let mut run = run;
        let mut attempts = attempts;
        let ghost r0 = run@;
        let ghost a0 = attempts;
        match attempts.next_candidate(&mut run.slideshow) {
            Some(candidate) => {
                let ghost deck = run.slideshow@.remaining_deck;
                let ghost c = candidate@;
                self.ask(Waiting::Attempt { run, attempts, candidate });
                assert(draws(r0.slideshow.order, a0.images(), r0.slideshow.current_image, r0.slideshow.remaining_deck, deck, Some(c)));
                assert(self@ =~= awaiting(
                    old(self)@,
                    WaitingView::Attempt {
                        run: RunView {
                            slideshow: SlideshowView { remaining_deck: deck, ..r0.slideshow },
                            ..r0
                        },
                        images: a0.images(),
                        tries: a0.tries() + 1,
                        candidate: c,
                    },
                ));
            },
            None => {
                assert(run@ == r0);
                self.run_finished(run, Err(String::from_str("No slideshow image could be applied")), now);
            },
        }
    }

    fn run_finished(&mut self, run: SlideRun, result: Result<(), String>, now: u64)
        requires
            old(self)@.waiting is None,
        ensures
            final(self)@ == run_ended(
                old(self)@,
                run@,
                match result {
                    Ok(()) => Ok(()),
                    Err(e) => Err(e@),
                },
                now,
            ),
    {
        let ghost rv = run@;
        let SlideRun { monitor_id, slideshow, purpose } = run;
        let ghost id = monitor_id@;
        let ghost deadline = deadline_after(now, slideshow.interval_seconds);
        match purpose {
            Purpose::Apply(mode) => match result {
                Ok(()) => {
                    let ghost s0 = self@;
                    self.slideshows.schedule(monitor_id.as_str(), now, slideshow.interval_seconds);
                    let ghost s1 = self@;
                    assert(s1 =~= TransitionsView { deadlines: s0.deadlines.insert(id, deadline), ..s0 });
                    let entry = MonitorConfig {
                        mode,
                        current_image: slideshow.current_image,
                        remaining_shuffle_deck: slideshow.remaining_deck,
                    };
                    let ghost ev = entry@;
                    self.config.monitors.insert(monitor_id, entry);
                    assert(self@ =~= with_saved(s1, id, ev));
                    self.ask(Waiting::Saved(AfterSave::Apply));
                },
                Err(error) => self.finish_apply(Err(error)),
            },
            Purpose::Advance { publish, mode } => {
                let ghost s0 = self@;
                match &result {
                    Ok(()) => self.slideshows.schedule(monitor_id.as_str(), now, slideshow.interval_seconds),
                    Err(_) => self.slideshows.cancel(monitor_id.as_str()),
                }
                let ghost s1 = self@;
                let entry = MonitorConfig {
                    mode,
                    current_image: slideshow.current_image,
                    remaining_shuffle_deck: slideshow.remaining_deck,
                };
                let ghost ev = entry@;
                self.config.monitors.insert(monitor_id, entry);
                assert(self@ =~= with_saved(s1, id, ev));
                match result {
                    Err(error) => self.status(error),
                    Ok(()) => {
                        if publish {
                            self.status(String::from_str("Wallpaper advanced"));
                        }
                    },
                }
                self.ask(Waiting::Saved(AfterSave::Advance(publish)));
            },
            Purpose::Restore => match result {
                Ok(()) => {
                    let ghost s0 = self@;
                    self.slideshows.schedule(monitor_id.as_str(), now, slideshow.interval_seconds);
                    let ghost s1 = self@;
                    assert(s1 =~= TransitionsView { deadlines: s0.deadlines.insert(id, deadline), ..s0 });
                    let saved = match self.config.monitors.get(monitor_id.as_str()) {
                        Some(c) => Some(c.mode.duplicate()),
                        None => None,
                    };
                    match saved {
                        Some(mode) => {
                            let entry = MonitorConfig {
                                mode,
                                current_image: slideshow.current_image,
                                remaining_shuffle_deck: slideshow.remaining_deck,
                            };
                            let ghost ev = entry@;
                            self.config.monitors.insert(monitor_id, entry);
                            assert(self@ =~= with_saved(s1, id, ev));
                        },
                        None => {},
                    }
                    self.ask(Waiting::Saved(AfterSave::Restore));
                },
                Err(error) => self.status(error),
            },
        }
    }

    fn picture_checked(&mut self, monitor_id: String, mode: Option<WallpaperMode>, path: String, found: bool)
        requires
            old(self)@.waiting is None,
        ensures
            resumed(
                old(self)@,
                WaitingView::Picture { monitor_id: monitor_id@, mode: opt_mode(mode), path: path@ },
                ReplyView::PictureChecked(found),
                0,
                final(self)@,
            ),
    {
        match mode {
            Some(mode) => {
                if !found || !is_supported_image(path.as_str()) {
                    self.finish_apply(Err(String::from_str("Choose an existing JPEG, PNG, or BMP image")));
                } else {
                    self.ask(Waiting::Wallpaper { monitor_id, mode: Some(mode), path });
                }
            },
            None => {
                if found {
                    self.ask(Waiting::Wallpaper { monitor_id, mode: None, path });
                } else {
                    let mut message = String::from_str("Saved wallpaper is missing: ");
                    message.append(path.as_str());
                    self.status(message);
                }
            },
        }
    }

    fn saved(&mut self, after: AfterSave, result: Result<(), String>)
        requires
            old(self)@.waiting is None,
        ensures
            final(self)@ == after_save(
                old(self)@,
                after,
                match result {
                    Ok(()) => Ok(()),
                    Err(e) => Err(e@),
                },
            ),
    {
        match after {
            AfterSave::Apply => self.finish_apply(result),
            AfterSave::Fit => {
                match result {
                    Err(error) => self.status(error),
                    Ok(()) => self.status(String::from_str("Image fit applied to all monitors")),
                }
                self.publish_state();
            },
            AfterSave::Launch => {
                if let Err(error) = result {
                    self.status(error);
                }
                self.publish_state();
            },
            AfterSave::Advance(publish) => {
                if let Err(error) = result {
                    self.status(error);
                }
                if publish {
                    self.publish_state();
                }
            },
            AfterSave::Restore => {
                if let Err(error) = result {
                    self.status(error);
                }
            },
        }
    }

    fn reconciled(&mut self, monitors: Vec<Monitor>, restore_all: bool, force_publish: bool)
        requires
            old(self)@.waiting is None,
        ensures
            refreshed(old(self)@, monitors@, restore_all, force_publish, final(self)@),
    {
        let ghost s0 = self@;
        let ghost ms = monitors@;
        let reconciliation = self.registry.reconcile(monitors);
        let ghost s1 = self@;
        assert(s1 =~= TransitionsView { connected: ms, ..s0 });
        let ghost restore = |id: Seq<char>| JobView::Restore { monitor_id: id };
        let ghost connected_now = |id: Seq<char>| ids_of(ms).contains(id);
        let ghost saved_here = |id: Seq<char>| s0.config.monitors.contains_key(id);
        let mut front: Vec<Job> = Vec::new();
        let ghost mut restored: Seq<Seq<char>> = Seq::empty();
        if restore_all {
            let keys = self.config.monitors.keys();
            let ghost order = texts(keys@);
            let mut i: usize = 0;
            while i < keys.len()
                invariant
                    i <= keys@.len(),
                    order == texts(keys@),
                    self@ == s1,
                    ids_of(self.registry.connected_monitors()) == ids_of(ms),
                    connected_now == (|id: Seq<char>| ids_of(ms).contains(id)),
                    restore == (|id: Seq<char>| JobView::Restore { monitor_id: id }),
                    front@.map_values(|j: Job| j@) == order.subrange(0, i as int).filter(connected_now).map_values(
                        restore,
                    ),
                decreases keys@.len() - i,
            {
                let ghost prefix = order.subrange(0, i as int);
                let ghost before = front@;
                assert(order[i as int] == keys@[i as int]@);
                assert(order.subrange(0, i + 1) =~= prefix.push(keys@[i as int]@));
                proof {
                    reveal_with_fuel(Seq::filter, 1);
                    assert(prefix.push(keys@[i as int]@).drop_last() =~= prefix);
                }
                if self.registry.is_connected(keys[i].as_str()) {
                    front.push(Job::Restore { monitor_id: keys[i].clone() });
                    assert(front@.map_values(|j: Job| j@) =~= before.map_values(|j: Job| j@).push(
                        restore(keys@[i as int]@),
                    ));
                }
                assert(front@.map_values(|j: Job| j@) =~= order.subrange(0, i + 1).filter(connected_now).map_values(
                    restore,
                ));
                i = i + 1;
            }
            assert(order.subrange(0, i as int) =~= order);
            proof {
                restored = order.filter(connected_now);
            }
        } else {
            let newly = &reconciliation.newly_connected;
            let ghost fresh = texts(newly@);
            let mut i: usize = 0;
            while i < newly.len()
                invariant
                    i <= newly@.len(),
                    fresh == texts(newly@),
                    self@ == s1,
                    self.config@ == s0.config,
                    saved_here == (|id: Seq<char>| s0.config.monitors.contains_key(id)),
                    restore == (|id: Seq<char>| JobView::Restore { monitor_id: id }),
                    front@.map_values(|j: Job| j@) == fresh.subrange(0, i as int).filter(saved_here).map_values(
                        restore,
                    ),
                decreases newly@.len() - i,
            {
                let ghost prefix = fresh.subrange(0, i as int);
                let ghost before = front@;
                assert(fresh[i as int] == newly@[i as int]@);
                assert(fresh.subrange(0, i + 1) =~= prefix.push(newly@[i as int]@));
                proof {
                    reveal_with_fuel(Seq::filter, 1);
                    assert(prefix.push(newly@[i as int]@).drop_last() =~= prefix);
                }
                if self.config.monitors.contains_key(newly[i].as_str()) {
                    front.push(Job::Restore { monitor_id: newly[i].clone() });
                    assert(front@.map_values(|j: Job| j@) =~= before.map_values(|j: Job| j@).push(
                        restore(newly@[i as int]@),
                    ));
                }
                assert(front@.map_values(|j: Job| j@) =~= fresh.subrange(0, i + 1).filter(saved_here).map_values(
                    restore,
                ));
                i = i + 1;
            }
            assert(fresh.subrange(0, i as int) =~= fresh);
            proof {
                restored = fresh.filter(saved_here);
                lemma_filter_no_duplicates(fresh, saved_here);
                lemma_filter_to_set(fresh, saved_here);
                assert(fresh.to_set().filter(saved_here) =~= reconciliation_of(ids_of(s0.connected), ids_of(ms)).1.filter(
                    |id: Seq<char>| s0.config.monitors.contains_key(id),
                ));
            }
        }
        let restored_any = front.len() > 0;
        let ghost listed = front@;
        assert(listed.map_values(|j: Job| j@) == restored.map_values(restore));
        assert(restored_any == (restored.len() > 0)) by {
            assert(listed.map_values(|j: Job| j@).len() == listed.len());
        }
        assert(reconciliation.topology_changed == reconciliation_of(ids_of(s0.connected), ids_of(ms)).0);
        assert(restore_all ==> restored == sorted_of(s0.config.monitors.dom()).filter(connected_now));
        if force_publish || restore_all || reconciliation.topology_changed || restored_any {
            front.push(Job::Publish);
            assert(front@.map_values(|j: Job| j@) =~= listed.map_values(|j: Job| j@) + seq![JobView::Publish]);
        } else {
            assert(front@.map_values(|j: Job| j@) =~= listed.map_values(|j: Job| j@) + Seq::<JobView>::empty());
        }
        let ghost pubs: Seq<JobView> = if force_publish || restore_all || reconciliation.topology_changed
            || restored_any {
            seq![JobView::Publish]
        } else {
            Seq::empty()
        };
        assert(front@.map_values(|j: Job| j@) == restored.map_values(restore) + pubs);
        self.push_front(front);
        assert(restore_jobs(restored) =~= restored.map_values(restore));
        assert(self@ =~= TransitionsView {
            connected: ms,
            jobs: restore_jobs(restored) + pubs + s0.jobs,
            ..s0
        });
        assert(refreshed_with(s0, ms, restore_all, force_publish, self@, restored));
    }

    /// Takes the reply to the pending request and decides what follows.  A
    /// reply of the wrong kind leaves the request pending.
    pub fn resume(&mut self, reply: Reply, now: u64)
        ensures
            old(self)@.waiting is None ==> final(self)@ == old(self)@,
            old(self)@.waiting matches Some(w) ==> resumed(
                TransitionsView { waiting: None, ..old(self)@ },
                w,
                reply@,
                now,
                final(self)@,
            ),
    {
        let waiting = match self.waiting.take() {
            Some(w) => w,
            None => {
                return;
            },
        };
        let ghost w = waiting@;
        let ghost rv = reply@;
        assert(self@ =~= TransitionsView { waiting: None, ..old(self)@ });
        match waiting {
            Waiting::Monitors { restore_all, force_publish } => self.on_monitors(restore_all, force_publish, reply, now),
            Waiting::Picture { monitor_id, mode, path } => match reply {
                Reply::PictureChecked(found) => self.picture_checked(monitor_id, mode, path, found),
                _ => self.ask(Waiting::Picture { monitor_id, mode, path }),
            },
            Waiting::ColorFile { monitor_id, mode, rgb } => self.on_color_file(monitor_id, mode, rgb, reply, now),
            Waiting::Wallpaper { monitor_id, mode, path } => self.on_wallpaper(monitor_id, mode, path, reply, now),
            Waiting::Images(run) => self.on_images(run, reply, now),
            Waiting::Attempt { run, attempts, candidate } => self.on_attempt(run, attempts, candidate, reply, now),
            Waiting::Fit(fit) => self.on_fit(fit, reply, now),
            Waiting::Saved(after) => self.on_saved(after, reply, now),
        }
    }

    fn on_monitors(&mut self, restore_all: bool, force_publish: bool, reply: Reply, now: u64)
        requires
            old(self)@.waiting is None,
        ensures
            resumed(old(self)@, WaitingView::Monitors { restore_all, force_publish }, reply@, now, final(self)@),
    {
        match reply {
            Reply::Monitors(Ok(monitors)) => self.reconciled(monitors, restore_all, force_publish),
            Reply::Monitors(Err(error)) => self.status(error),
            _ => self.ask(Waiting::Monitors { restore_all, force_publish }),
        }
    }

    fn on_color_file(&mut self, monitor_id: String, mode: Option<WallpaperMode>, rgb: [u8; 3], reply: Reply, now: u64)
        requires
            old(self)@.waiting is None,
        ensures
            resumed(
                old(self)@,
                WaitingView::ColorFile { monitor_id: monitor_id@, mode: opt_mode(mode), rgb: rgb@ },
                reply@,
                now,
                final(self)@,
            ),
    {
        match reply {
            Reply::ColorFile(Ok(path)) => self.ask(Waiting::Wallpaper { monitor_id, mode, path }),
            Reply::ColorFile(Err(error)) => match mode {
                Some(_) => self.finish_apply(Err(error)),
                None => self.status(error),
            },
            _ => self.ask(Waiting::ColorFile { monitor_id, mode, rgb }),
        }
    }

    fn on_wallpaper(&mut self, monitor_id: String, mode: Option<WallpaperMode>, path: String, reply: Reply, now: u64)
        requires
            old(self)@.waiting is None,
        ensures
            resumed(
                old(self)@,
                WaitingView::Wallpaper { monitor_id: monitor_id@, mode: opt_mode(mode), path: path@ },
                reply@,
                now,
                final(self)@,
            ),
    {
        match reply {
            Reply::Done(Ok(())) => {
                match mode {
                    Some(mode) => {
                        let ghost s0 = self@;
                        self.slideshows.cancel(monitor_id.as_str());
                        let ghost s1 = self@;
                        assert(s1 =~= TransitionsView { deadlines: s0.deadlines.remove(monitor_id@), ..s0 });
                        let entry = MonitorConfig { mode, current_image: Some(path), remaining_shuffle_deck: Vec::new() };
                        let ghost ev = entry@;
                        assert(ev.remaining_shuffle_deck =~= Seq::<Seq<char>>::empty());
                        let ghost id = monitor_id@;
                        self.config.monitors.insert(monitor_id, entry);
                        assert(self@ =~= with_saved(s1, id, ev));
                        self.ask(Waiting::Saved(AfterSave::Apply));
                    },
                    None => {},
                }
            },
            Reply::Done(Err(error)) => match mode {
                Some(_) => self.finish_apply(Err(error)),
                None => self.status(error),
            },
            _ => self.ask(Waiting::Wallpaper { monitor_id, mode, path }),
        }
    }

    fn on_images(&mut self, run: SlideRun, reply: Reply, now: u64)
        requires
            old(self)@.waiting is None,
        ensures
            resumed(old(self)@, WaitingView::Images(run@), reply@, now, final(self)@),
    {
        match reply {
            Reply::Images(listing) => match Attempts::open(listing, run.slideshow.order) {
                Ok(attempts) => self.try_next(run, attempts, now),
                Err(error) => self.run_finished(run, Err(error), now),
            },
            _ => self.ask(Waiting::Images(run)),
        }
    }

    fn on_attempt(&mut self, run: SlideRun, attempts: Attempts, candidate: String, reply: Reply, now: u64)
        requires
            old(self)@.waiting is None,
        ensures
            resumed(
                old(self)@,
                WaitingView::Attempt {
                    run: run@,
                    images: attempts.images(),
                    tries: attempts.tries(),
                    candidate: candidate@,
                },
                reply@,
                now,
                final(self)@,
            ),
    {
        match reply {
            Reply::Done(Ok(())) => {
                let mut run = run;
                run.slideshow.current_image = Some(candidate);
                self.run_finished(run, Ok(()), now);
            },
            Reply::Done(Err(_)) => self.try_next(run, attempts, now),
            _ => self.ask(Waiting::Attempt { run, attempts, candidate }),
        }
    }

    fn on_fit(&mut self, fit: FitMode, reply: Reply, now: u64)
        requires
            old(self)@.waiting is None,
        ensures
            resumed(old(self)@, WaitingView::Fit(fit), reply@, now, final(self)@),
    {
        match reply {
            Reply::Done(Ok(())) => {
                let ghost s0 = self@;
                self.config.shared_fit = fit;
                assert(self@ =~= TransitionsView { config: ConfigView { shared_fit: fit, ..s0.config }, ..s0 });
                self.ask(Waiting::Saved(AfterSave::Fit));
            },
            Reply::Done(Err(error)) => {
                self.status(error);
                self.publish_state();
            },
            _ => self.ask(Waiting::Fit(fit)),
        }
    }

    fn on_saved(&mut self, after: AfterSave, reply: Reply, now: u64)
        requires
            old(self)@.waiting is None,
        ensures
            resumed(old(self)@, WaitingView::Saved(after), reply@, now, final(self)@),
    {
        match reply {
            Reply::Done(result) => self.saved(after, result),
            _ => self.ask(Waiting::Saved(after)),
        }
    }
}

/// A failed save never rolls the configuration back: what the user applied
/// stays the configuration the interface works with and publishes.
pub proof fn lemma_failed_save_keeps_config(s: TransitionsView, after: AfterSave, error: Seq<char>)
    ensures
        after_save(s, after, Err(error)).config == s.config,
        after_save(s, after, Err(error)).events.contains(EventView::Status(error)),
{
    let t = after_save(s, after, Err(error));
    let told = with_status(s, error);
    assert(told.events[told.events.len() - 1] == EventView::Status(error));
    match after {
        AfterSave::Apply => {
            let s1 = with_status(s, error);
            assert(t.events[s1.events.len() - 1] == EventView::Status(error));
        },
        AfterSave::Fit => {
            assert(t.events[told.events.len() - 1] == EventView::Status(error));
        },
        AfterSave::Launch => {
            assert(t.events[told.events.len() - 1] == EventView::Status(error));
        },
        AfterSave::Advance(publish) => {
            assert(t.events[told.events.len() - 1] == EventView::Status(error));
        },
        AfterSave::Restore => {},
    }
}

/// Reconciling the monitors never touches the saved configuration, so the
/// settings of a disconnected monitor are kept until it comes back.
pub proof fn lemma_refresh_keeps_config(
    s: TransitionsView,
    monitors: Seq<Monitor>,
    restore_all: bool,
    force_publish: bool,
    t: TransitionsView,
)
    requires
        refreshed(s, monitors, restore_all, force_publish, t),
    ensures
        t.config == s.config,
        t.deadlines == s.deadlines,
        t.connected == monitors,
{
}

/// A saved picture that is missing is reported, and its configuration is
/// kept rather than discarded.
pub proof fn lemma_missing_picture_kept(s: TransitionsView, monitor_id: Seq<char>, path: Seq<char>, t: TransitionsView)
    requires
        resumed(
            s,
            WaitingView::Picture { monitor_id, mode: None, path },
            ReplyView::PictureChecked(false),
            0,
            t,
        ),
    ensures
        t.config == s.config,
        t.events.last() == EventView::Status("Saved wallpaper is missing: "@ + path),
{
}

/// Every saved monitor is shown: connected ones as the system reports them,
/// the others as unavailable entries that keep their device path.
pub proof fn lemma_saved_monitors_are_shown(s: TransitionsView, id: Seq<char>)
    requires
        s.config.monitors.contains_key(id),
        s.config.monitors.dom().finite(),
    ensures
        exists|i: int| 0 <= i < shown_monitors(s).len() && (#[trigger] shown_monitors(s)[i]).id == id,
        !ids_of(s.connected).contains(id) ==> exists|i: int|
            0 <= i < shown_monitors(s).len() && (#[trigger] shown_monitors(s)[i]).id == id
                && !shown_monitors(s)[i].available,
{
    let order = sorted_of(s.config.monitors.dom());
    let pred = |x: Seq<char>| !ids_of(s.connected).contains(x);
    crate::ordered_map::lemma_sorted_of_exists(s.config.monitors.dom());
    assert(order.to_set().contains(id));
    if ids_of(s.connected).contains(id) {
        let j = choose|j: int| 0 <= j < s.connected.len() && (#[trigger] s.connected[j]).id@ == id;
        assert(shown_monitors(s)[j] == monitor_views(s.connected)[j]);
    } else {
        assert(order.contains(id));
        let k = choose|k: int| 0 <= k < order.len() && order[k] == id;
        #[allow(deprecated)]
        order.filter_lemma(pred);
        assert(order.filter(pred).contains(order[k]));
        let m = choose|m: int| 0 <= m < order.filter(pred).len() && order.filter(pred)[m] == id;
        let i = monitor_views(s.connected).len() + m;
        assert(shown_monitors(s)[i] == saved_placeholder(id));
    }
}

/// Applying a color to a connected monitor asks for the color file of that
/// very color: the request carries the color being applied, and the file is
/// named after it.
pub proof fn lemma_color_apply_asks_for_its_color(s: TransitionsView, monitor_id: Seq<char>, rgb: Seq<u8>)
    requires
        ids_of(s.connected).contains(monitor_id),
    ensures
        ({
            let t = begun(s, JobView::Apply { monitor_id, mode: ModeView::Color { rgb } });
            &&& t.waiting is Some
            &&& request_for(t.waiting->0) == RequestView::MakeColorFile { rgb, file_name: color_file_name(rgb) }
        }),
{
}

/// A slideshow run that shows an image schedules its monitor one interval
/// from now, whatever started it (apply, a manual or timed advance, or a
/// restore at launch or on reconnection); a run that shows nothing stops an
/// advanced slideshow and leaves every schedule of an apply or a restore as
/// it was.  No other monitor's schedule changes.
pub proof fn lemma_finished_run_schedule(s: TransitionsView, run: RunView, result: Result<(), Seq<char>>, now: u64)
    ensures
        result is Ok ==> run_ended(s, run, result, now).deadlines == s.deadlines.insert(
            run.monitor_id,
            (now + run.slideshow.interval_seconds * 1000) as u128,
        ),
        result is Err && run.purpose is Advance ==> run_ended(s, run, result, now).deadlines
            == s.deadlines.remove(run.monitor_id),
        result is Err && !(run.purpose is Advance) ==> run_ended(s, run, result, now).deadlines == s.deadlines,
{
}

/// A monitor that comes back with saved configuration is restored: after a
/// reconciliation, every monitor connected now that has saved configuration
/// and was not connected before (or every one, on a full restore) gets a
/// `Restore` job; and a `Restore` job that was not queued before is only ever
/// for a connected monitor with saved configuration.
pub proof fn lemma_reconnected_monitors_are_restored(
    s: TransitionsView,
    monitors: Seq<Monitor>,
    restore_all: bool,
    force_publish: bool,
    t: TransitionsView,
    id: Seq<char>,
)
    requires
        refreshed(s, monitors, restore_all, force_publish, t),
        s.config.monitors.dom().finite(),
    ensures
        ids_of(monitors).contains(id) && s.config.monitors.contains_key(id) && (restore_all || !ids_of(
            s.connected,
        ).contains(id)) ==> t.jobs.contains(JobView::Restore { monitor_id: id }),
        t.jobs.contains(JobView::Restore { monitor_id: id }) && !s.jobs.contains(JobView::Restore { monitor_id: id })
            ==> ids_of(monitors).contains(id) && s.config.monitors.contains_key(id),
{
    let (changed, newly) = reconciliation_of(ids_of(s.connected), ids_of(monitors));
    let restored = choose|restored: Seq<Seq<char>>| refreshed_with(s, monitors, restore_all, force_publish, t, restored);
    let tail = (if force_publish || restore_all || changed || restored.len() > 0 {
        seq![JobView::Publish]
    } else {
        Seq::<JobView>::empty()
    }) + s.jobs;
    assert(t.jobs == restore_jobs(restored) + tail);
    let order = sorted_of(s.config.monitors.dom());
    crate::ordered_map::lemma_sorted_of_exists(s.config.monitors.dom());
    let connected_now = |x: Seq<char>| ids_of(monitors).contains(x);
    if ids_of(monitors).contains(id) && s.config.monitors.contains_key(id) && (restore_all || !ids_of(
        s.connected,
    ).contains(id)) {
        if restore_all {
            assert(order.to_set().contains(id));
            let k = choose|k: int| 0 <= k < order.len() && order[k] == id;
            order.lemma_filter_contains(connected_now, k);
        } else {
            assert(newly.contains(id));
            assert(restored.to_set().contains(id));
        }
        assert(restored.contains(id));
        let k = choose|k: int| 0 <= k < restored.len() && restored[k] == id;
        assert(restore_jobs(restored)[k] == JobView::Restore { monitor_id: id });
        assert(t.jobs[k] == JobView::Restore { monitor_id: id });
    }
    if t.jobs.contains(JobView::Restore { monitor_id: id }) && !s.jobs.contains(JobView::Restore { monitor_id: id }) {
        let j = choose|j: int| 0 <= j < t.jobs.len() && t.jobs[j] == JobView::Restore { monitor_id: id };
        if j >= restored.len() {
            if j - restored.len() < tail.len() - s.jobs.len() {
                assert(tail[j - restored.len()] == JobView::Publish);
            } else {
                assert(s.jobs[j - restored.len() - (tail.len() - s.jobs.len())] == t.jobs[j]);
            }
        }
        assert(restored[j] == id);
        assert(restored.contains(id));
        if restore_all {
            order.lemma_filter_pred(connected_now, j);
            order.lemma_filter_contains_rev(connected_now, id);
            assert(order.to_set().contains(id));
        } else {
            assert(restored.to_set().contains(id));
        }
    }
}

} // verus!
