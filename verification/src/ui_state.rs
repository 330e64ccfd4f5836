//! What the settings window shows and decides: the monitor list, which
//! monitor is selected, the draft loaded for it, and what the apply button
//! does with an edited draft.
use vstd::prelude::*;
use vstd::string::*;
use crate::config::{AppConfig, ModeView, WallpaperMode, copy_opt_text, opt_text};
use crate::monitor_registry::{Monitor, first_with_id, ids_of};
use crate::text::same_text;
use crate::text::{decimal, is_white_space, parse_u64_spec, without_plus};
use crate::wallpaper_draft::{
    DraftView, WallpaperDraft, draft_of, intent_of, lemma_decimal, lemma_draft_round_trip,
    lemma_trimmed_unchanged,
};

verus! {

/// The window's state: the monitors and configuration last published, and
/// the selected monitor.
pub struct UiState {
    pub monitors: Vec<Monitor>,
    pub config: AppConfig,
    pub selected_id: Option<String>,
}

/// One row of the monitor list.
pub struct MonitorRow {
    pub id: String,
    pub name: String,
    pub detail: String,
    /// Whether the monitor has saved configuration.
    pub managed: bool,
    pub available: bool,
}

/// What pressing apply does with the edited draft.
pub enum ApplyChoice {
    /// Ask the wallpaper runtime to apply this mode to this monitor.
    Apply { monitor_id: String, mode: WallpaperMode },
    /// The draft asks for the saved mode: nothing to apply.
    Unchanged,
    /// The reason shown in the status line.
    Refused(String),
}

/// The selection after new monitors are published: the selected monitor
/// while it is still listed, else the first listed one.
pub open spec fn reselected(old: Option<Seq<char>>, monitors: Seq<Monitor>) -> Option<Seq<char>> {
    match old {
        Some(id) if ids_of(monitors).contains(id) => Some(id),
        _ => if monitors.len() > 0 {
            Some(monitors[0].id@)
        } else {
            None
        },
    }
}

/// The mode saved for a monitor, if it has one.
pub open spec fn saved_mode(config: AppConfig, id: Seq<char>) -> Option<ModeView> {
    if config@.monitors.contains_key(id) {
        Some(config@.monitors[id].mode)
    } else {
        None
    }
}

/// The draft loaded for the selection: the saved mode of a managed monitor,
/// else the wallpaper the system reports for it.
pub open spec fn draft_for(monitors: Seq<Monitor>, config: AppConfig, selected: Option<Seq<char>>) -> DraftView {
    match selected {
        None => DraftView::Current { path: None },
        Some(id) => match saved_mode(config, id) {
            Some(mode) => draft_of(mode),
            None => DraftView::Current {
                path: match first_with_id(monitors, id) {
                    Some(i) => opt_text(monitors[i].current_wallpaper),
                    None => None,
                },
            },
        },
    }
}

/// Whether a draft may be applied to the selection: a monitor is selected,
/// the draft asks for a mode, and that mode is not the saved one.
pub open spec fn applyable(config: AppConfig, selected: Option<Seq<char>>, draft: DraftView) -> bool {
    &&& selected is Some
    &&& intent_of(draft) is Ok
    &&& match saved_mode(config, selected->0) {
        Some(m) => m != intent_of(draft)->Ok_0,
        None => true,
    }
}

/// The position of the first monitor with a device path.
fn position_of(monitors: &Vec<Monitor>, id: &str) -> (r: Option<usize>)
    ensures
        match first_with_id(monitors@, id@) {
            Some(i) => r matches Some(k) && k == i,
            None => r is None,
        },
        r matches Some(k) ==> k < monitors@.len(),
{
    let mut i: usize = 0;
    while i < monitors.len()
        invariant
            i <= monitors@.len(),
            forall|j: int| 0 <= j < i ==> (#[trigger] monitors@[j]).id@ != id@,
        decreases monitors@.len() - i,
    {
        if same_text(monitors[i].id.as_str(), id) {
            proof {
                let s = monitors@;
                assert(s[i as int].id@ == id@);
                let c = choose|c: int|
                    0 <= c < s.len() && (#[trigger] s[c]).id@ == id@ && forall|j: int|
                        0 <= j < c ==> (#[trigger] s[j]).id@ != id@;
                assert(0 <= c < s.len() && s[c].id@ == id@ && forall|j: int|
                    0 <= j < c ==> (#[trigger] s[j]).id@ != id@);
                if c < i {
                    assert(s[c].id@ != id@);
                } else if c > i {
                    assert(s[i as int].id@ != id@);
                }
            }
            return Some(i);
        }
        i = i + 1;
    }
    None
}

impl UiState {
    /// Starts from the configuration that was loaded, before any monitor is
    /// published.
    pub fn new(config: AppConfig) -> (r: Self)
        ensures
            r.monitors@.len() == 0,
            r.config == config,
            r.selected_id is None,
    {
        UiState { monitors: Vec::new(), config, selected_id: None }
    }

    /// Selects the monitor at a position of the list; a position past its
    /// end changes nothing.
    pub fn select_monitor(&mut self, index: usize) -> (r: bool)
        ensures
            r == (index < old(self).monitors@.len()),
            final(self).monitors == old(self).monitors,
            final(self).config == old(self).config,
            r ==> opt_text(final(self).selected_id) == Some(old(self).monitors@[index as int].id@),
            !r ==> final(self).selected_id == old(self).selected_id,
    {
        if index >= self.monitors.len() {
            return false;
        }
        self.selected_id = Some(self.monitors[index].id.clone());
        true
    }

    /// Takes newly published monitors and configuration; the selection
    /// stays on its monitor while that is listed, else moves to the first.
    pub fn receive_state(&mut self, monitors: Vec<Monitor>, config: AppConfig)
        ensures
            final(self).monitors == monitors,
            final(self).config == config,
            opt_text(final(self).selected_id) == reselected(opt_text(old(self).selected_id), monitors@),
    {
        let keep = match &self.selected_id {
            Some(id) => position_of(&monitors, id.as_str()).is_some(),
            None => false,
        };
        if !keep {
            self.selected_id = if monitors.len() > 0 {
                Some(monitors[0].id.clone())
            } else {
                None
            };
        }
        proof {
            if let Some(id) = old(self).selected_id {
                if ids_of(monitors@).contains(id@) {
                    let i = choose|i: int| 0 <= i < monitors@.len() && (#[trigger] monitors@[i]).id@ == id@;
                    assert(monitors@[i].id@ == id@);
                }
            }
        }
        self.monitors = monitors;
        self.config = config;
    }

    /// The position of the selected monitor in the list, or the first
    /// position when none is selected or it is not listed.
    pub fn selected_index(&self) -> (r: usize)
        ensures
            r == match opt_text(self.selected_id) {
                Some(id) => match first_with_id(self.monitors@, id) {
                    Some(i) => i,
                    None => 0,
                },
                None => 0,
            },
    {
        match &self.selected_id {
            Some(id) => {
                assert(opt_text(self.selected_id) == Some(id@));
                match position_of(&self.monitors, id.as_str()) {
                    Some(i) => i,
                    None => 0,
                }
            },
            None => 0,
        }
    }

    /// The rows of the monitor list, one per published monitor, each marked
    /// managed when the monitor has saved configuration.
    pub fn monitor_rows(&self) -> (r: Vec<MonitorRow>)
        ensures
            r@.len() == self.monitors@.len(),
            forall|k: int|
                0 <= k < r@.len() ==> {
                    let row = #[trigger] r@[k];
                    let m = self.monitors@[k];
                    &&& row.id@ == m.id@
                    &&& row.name@ == m.name@
                    &&& row.detail@ == m.detail@
                    &&& row.available == m.available
                    &&& row.managed == self.config@.monitors.contains_key(m.id@)
                },
    {
        let mut rows: Vec<MonitorRow> = Vec::new();
        let mut i: usize = 0;
        while i < self.monitors.len()
            invariant
                i <= self.monitors@.len(),
                rows@.len() == i,
                forall|k: int|
                    0 <= k < i ==> {
                        let row = #[trigger] rows@[k];
                        let m = self.monitors@[k];
                        &&& row.id@ == m.id@
                        &&& row.name@ == m.name@
                        &&& row.detail@ == m.detail@
                        &&& row.available == m.available
                        &&& row.managed == self.config@.monitors.contains_key(m.id@)
                    },
            decreases self.monitors@.len() - i,
        {
            let m = &self.monitors[i];
            let managed = self.config.monitors.contains_key(m.id.as_str());
            rows.push(
                MonitorRow {
                    id: m.id.clone(),
                    name: m.name.clone(),
                    detail: m.detail.clone(),
                    managed,
                    available: m.available,
                },
            );
            i = i + 1;
        }
        rows
    }

    /// The draft the form shows for the selection.
    pub fn selected_draft(&self) -> (r: WallpaperDraft)
        ensures
            r@ == draft_for(self.monitors@, self.config, opt_text(self.selected_id)),
    {
        match &self.selected_id {
            None => WallpaperDraft::Current { path: None },
            Some(id) => {
                assert(opt_text(self.selected_id) == Some(id@));
                match self.config.monitors.get(id.as_str()) {
                    Some(saved) => WallpaperDraft::from_mode(&saved.mode),
                    None => {
                        let path = match position_of(&self.monitors, id.as_str()) {
                            Some(i) => copy_opt_text(&self.monitors[i].current_wallpaper),
                            None => None,
                        };
                        WallpaperDraft::Current { path }
                    },
                }
            },
        }
    }

    /// Whether the apply button is enabled for an edited draft.
    pub fn can_apply(&self, draft: &WallpaperDraft) -> (r: bool)
        ensures
            r == applyable(self.config, opt_text(self.selected_id), draft@),
    {
        match &self.selected_id {
            None => false,
            Some(id) => {
                assert(opt_text(self.selected_id) == Some(id@));
                let saved = match self.config.monitors.get(id.as_str()) {
                    Some(c) => Some(&c.mode),
                    None => None,
                };
                draft.is_applyable_against(saved)
            },
        }
    }

    /// What pressing apply does with an edited draft: without a selection
    /// it is refused; a draft that asks for no mode is refused with its
    /// reason; a draft that asks for the saved mode changes nothing; any other
    /// is applied to the selected monitor.
    pub fn apply_choice(&self, draft: &WallpaperDraft) -> (r: ApplyChoice)
        ensures
            match opt_text(self.selected_id) {
                None => r matches ApplyChoice::Refused(m) && m@ == "Select a monitor first"@,
                Some(id) => match intent_of(draft@) {
                    Err(e) => r matches ApplyChoice::Refused(m) && m@ == e,
                    Ok(mode) => if saved_mode(self.config, id) == Some(mode) {
                        r is Unchanged
                    } else {
                        r matches ApplyChoice::Apply { monitor_id, mode: m } && monitor_id@ == id && m@
                            == mode
                    },
                },
            },
    {
        let id = match &self.selected_id {
            None => {
                return ApplyChoice::Refused(String::from_str("Select a monitor first"));
            },
            Some(id) => id,
        };
        assert(opt_text(self.selected_id) == Some(id@));
        match draft.apply_intent() {
            Err(e) => ApplyChoice::Refused(e),
            Ok(mode) => {
                let unchanged = match self.config.monitors.get(id.as_str()) {
                    Some(c) => c.mode.same_as(&mode),
                    None => false,
                };
                if unchanged {
                    ApplyChoice::Unchanged
                } else {
                    ApplyChoice::Apply { monitor_id: id.clone(), mode }
                }
            },
        }
    }
}

/// The form loaded for a managed monitor shows its saved mode, which the
/// apply button does not offer to apply again, as long as a saved slideshow
/// interval is a whole number of minutes.
pub proof fn lemma_loaded_draft_is_not_applyable(s: UiState, mode: WallpaperMode)
    requires
        s.selected_id is Some,
        saved_mode(s.config, s.selected_id->0@) == Some(mode@),
        mode matches WallpaperMode::Slideshow { interval_seconds, .. } ==> interval_seconds % 60 == 0,
    ensures
        !applyable(s.config, opt_text(s.selected_id), draft_for(s.monitors@, s.config, opt_text(s.selected_id))),
{
    let id = s.selected_id->0@;
    assert(opt_text(s.selected_id) == Some(id));
    match mode {
        WallpaperMode::Slideshow { interval_seconds, .. } if interval_seconds == 0 => {
            lemma_decimal(0);
            let d = decimal(0);
            assert(!is_white_space(d[0]));
            assert(!is_white_space(d.last()));
            lemma_trimmed_unchanged(d);
            assert(without_plus(d) == d);
            assert(parse_u64_spec(d) == Some(0u64));
            assert(intent_of(draft_of(mode@)) is Err);
        },
        _ => {
            lemma_draft_round_trip(mode);
        },
    }
}

} // verus!
