//! The coherent view formed by reconciling connected monitors with the
//! monitors that have saved configuration.
use vstd::prelude::*;
use vstd::string::*;
use crate::config::{copy_opt_text, opt_text, texts};
use crate::ordered_map::Duplicate;
use crate::text::{decimal, push_decimal, push_signed_decimal, same_text, signed_decimal};

verus! {

/// A physical display, identified by its stable device path.
#[derive(Clone, Debug, PartialEq)]
pub struct Monitor {
    pub id: String,
    pub name: String,
    pub detail: String,
    pub current_wallpaper: Option<String>,
    pub available: bool,
}

/// A monitor with its texts as character sequences.
pub struct MonitorView {
    pub id: Seq<char>,
    pub name: Seq<char>,
    pub detail: Seq<char>,
    pub current_wallpaper: Option<Seq<char>>,
    pub available: bool,
}

impl View for Monitor {
    type V = MonitorView;

    open spec fn view(&self) -> MonitorView {
        MonitorView {
            id: self.id@,
            name: self.name@,
            detail: self.detail@,
            current_wallpaper: opt_text(self.current_wallpaper),
            available: self.available,
        }
    }
}

impl Duplicate for Monitor {
    fn duplicate(&self) -> (r: Self) {
        Monitor {
            id: self.id.clone(),
            name: self.name.clone(),
            detail: self.detail.clone(),
            current_wallpaper: copy_opt_text(&self.current_wallpaper),
            available: self.available,
        }
    }
}

/// The views of a list of monitors.
pub open spec fn monitor_views(s: Seq<Monitor>) -> Seq<MonitorView> {
    s.map_values(|m: Monitor| m@)
}

/// The device paths in a list of monitors.
pub open spec fn ids_of(s: Seq<Monitor>) -> Set<Seq<char>> {
    Set::new(|id: Seq<char>| exists|i: int| 0 <= i < s.len() && (#[trigger] s[i]).id@ == id)
}

/// What a reconciliation reports: whether the set of connected monitors
/// changed, and which monitors were not connected before.
pub open spec fn reconciliation_of(old_ids: Set<Seq<char>>, next_ids: Set<Seq<char>>) -> (
    bool,
    Set<Seq<char>>,
) {
    (next_ids != old_ids, next_ids.difference(old_ids))
}

/// The entry shown for a saved monitor that is not connected.
pub open spec fn saved_placeholder(id: Seq<char>) -> MonitorView {
    MonitorView {
        id,
        name: "Saved display"@,
        detail: "Configuration retained"@,
        current_wallpaper: None,
        available: false,
    }
}

/// The index of the first monitor with a device path, if any.
pub open spec fn first_with_id(s: Seq<Monitor>, id: Seq<char>) -> Option<int> {
    if exists|i: int| 0 <= i < s.len() && (#[trigger] s[i]).id@ == id {
        let i = choose|i: int|
            0 <= i < s.len() && (#[trigger] s[i]).id@ == id && forall|j: int|
                0 <= j < i ==> (#[trigger] s[j]).id@ != id;
        Some(i)
    } else {
        None
    }
}

/// The monitors that are connected now.
pub struct MonitorRegistry {
    connected: Vec<Monitor>,
}

/// What changed in the last reconciliation.
pub struct Reconciliation {
    pub topology_changed: bool,
    pub newly_connected: Vec<String>,
}

impl Default for MonitorRegistry {
    fn default() -> (r: Self)
        ensures
            r.connected_monitors() == Seq::<Monitor>::empty(),
    {
        MonitorRegistry { connected: Vec::new() }
    }
}

impl MonitorRegistry {
    /// The connected monitors, in the order the system reported them.
    pub closed spec fn connected_monitors(&self) -> Seq<Monitor> {
        self.connected@
    }

    fn has_id(s: &Vec<Monitor>, id: &str) -> (r: bool)
        ensures
            r == ids_of(s@).contains(id@),
    {
        let mut i: usize = 0;
        while i < s.len()
            invariant
                i <= s@.len(),
                forall|j: int| 0 <= j < i ==> (#[trigger] s@[j]).id@ != id@,
            decreases s@.len() - i,
        {
            if same_text(s[i].id.as_str(), id) {
                assert(ids_of(s@).contains(id@));
                return true;
            }
            i = i + 1;
        }
        false
    }

    /// Takes the monitors the system reports now as the connected ones and
    /// says what changed.
    pub fn reconcile(&mut self, monitors: Vec<Monitor>) -> (r: Reconciliation)
        ensures
            final(self).connected_monitors() == monitors@,
            (r.topology_changed, texts(r.newly_connected@).to_set()) == reconciliation_of(
                ids_of(old(self).connected_monitors()),
                ids_of(monitors@),
            ),
            texts(r.newly_connected@).no_duplicates(),
    {
        let ghost old_ids = ids_of(self.connected@);
        let ghost next_ids = ids_of(monitors@);
        let mut newly: Vec<String> = Vec::new();
        let mut i: usize = 0;
        while i < monitors.len()
            invariant
                i <= monitors@.len(),
                old_ids == ids_of(self.connected@),
                next_ids == ids_of(monitors@),
                texts(newly@).no_duplicates(),
                forall|id: Seq<char>| #[trigger] texts(newly@).contains(id) <==> (!old_ids.contains(id)
                    && exists|j: int| 0 <= j < i && (#[trigger] monitors@[j]).id@ == id),
            decreases monitors@.len() - i,
        {
            let id = &monitors[i].id;
            let known = Self::has_id(&self.connected, id.as_str());
            let mut listed = false;
            let mut k: usize = 0;
            while k < newly.len()
                invariant
                    k <= newly@.len(),
                    !listed ==> forall|j: int| 0 <= j < k ==> (#[trigger] newly@[j])@ != id@,
                    listed ==> texts(newly@).contains(id@),
                decreases newly@.len() - k,
            {
                if same_text(newly[k].as_str(), id.as_str()) {
                    listed = true;
                    assert(texts(newly@)[k as int] == id@);
                }
                k = k + 1;
            }
            proof {
                if !listed {
                    assert forall|j: int| 0 <= j < texts(newly@).len() implies texts(newly@)[j] != id@ by {
                        assert(newly@[j]@ != id@);
                    }
                }
            }
            let ghost before = newly@;
            if !known && !listed {
                newly.push(id.clone());
                proof {
                    assert(texts(newly@) =~= texts(before).push(id@));
                    assert forall|a: int, b: int| 0 <= a < b < texts(newly@).len() implies texts(newly@)[a]
                        != texts(newly@)[b] by {
                        if b == texts(before).len() {
                            assert(texts(before).contains(texts(before)[a]));
                        } else {
                            assert(texts(before).no_duplicates());
                        }
                    }
                }
            }
            proof {
                assert forall|x: Seq<char>| #[trigger] texts(newly@).contains(x) <==> (!old_ids.contains(x)
                    && exists|j: int| 0 <= j < i + 1 && (#[trigger] monitors@[j]).id@ == x) by {
                    if x == id@ {
                        assert(monitors@[i as int].id@ == x);
                        if !known && !listed {
                            assert(texts(newly@)[texts(newly@).len() - 1] == x);
                        }
                    } else {
                        if !known && !listed {
                            assert(texts(newly@) =~= texts(before).push(id@));
                            if texts(newly@).contains(x) {
                                let j = choose|j: int| 0 <= j < texts(newly@).len() && texts(newly@)[j] == x;
                                assert(texts(before)[j] == x);
                            }
                            if texts(before).contains(x) {
                                let j = choose|j: int| 0 <= j < texts(before).len() && texts(before)[j] == x;
                                assert(texts(newly@)[j] == x);
                            }
                        }
                        if exists|j: int| 0 <= j < i + 1 && (#[trigger] monitors@[j]).id@ == x {
                            let j = choose|j: int| 0 <= j < i + 1 && (#[trigger] monitors@[j]).id@ == x;
                            assert(j < i);
                        }
                    }
                }
            }
            i = i + 1;
        }
        let mut changed = newly.len() > 0;
        let mut m: usize = 0;
        while m < self.connected.len()
            invariant
                m <= self.connected@.len(),
                old_ids == ids_of(self.connected@),
                next_ids == ids_of(monitors@),
                changed == (texts(newly@).len() > 0 || exists|j: int| 0 <= j < m && !next_ids.contains(
                    (#[trigger] self.connected@[j]).id@,
                )),
            decreases self.connected@.len() - m,
        {
            if !Self::has_id(&monitors, self.connected[m].id.as_str()) {
                changed = true;
            }
            m = m + 1;
        }
        proof {
            assert(texts(newly@).to_set() =~= next_ids.difference(old_ids)) by {
                assert forall|x: Seq<char>| next_ids.contains(x) implies (exists|j: int|
                    0 <= j < monitors@.len() && (#[trigger] monitors@[j]).id@ == x) by {}
            }
            if changed != (next_ids != old_ids) {
                if changed {
                    if texts(newly@).len() > 0 {
                        assert(texts(newly@).contains(texts(newly@)[0]));
                        assert(!old_ids.contains(texts(newly@)[0]));
                        assert(next_ids.contains(texts(newly@)[0]));
                    } else {
                        let j = choose|j: int| 0 <= j < self.connected@.len() && !next_ids.contains(
                            (#[trigger] self.connected@[j]).id@,
                        );
                        assert(old_ids.contains(self.connected@[j].id@));
                    }
                } else {
                    assert(next_ids =~= old_ids) by {
                        assert forall|x: Seq<char>| next_ids.contains(x) implies old_ids.contains(x) by {
                            if !old_ids.contains(x) {
                                assert(texts(newly@).to_set().contains(x));
                                assert(texts(newly@).contains(x));
                            }
                        }
                        assert forall|x: Seq<char>| old_ids.contains(x) implies next_ids.contains(x) by {
                            let j = choose|j: int| 0 <= j < self.connected@.len() && (#[trigger] self.connected@[j]).id@ == x;
                        }
                    }
                }
            }
        }
        self.connected = monitors;
        Reconciliation { topology_changed: changed, newly_connected: newly }
    }

    /// Whether a monitor is connected now.
    pub fn is_connected(&self, monitor_id: &str) -> (r: bool)
        ensures
            r == ids_of(self.connected_monitors()).contains(monitor_id@),
    {
        Self::has_id(&self.connected, monitor_id)
    }

    /// The wallpaper the system reports for the first connected monitor with
    /// this device path.
    pub fn current_wallpaper(&self, monitor_id: &str) -> (r: Option<&String>)
        ensures
            match first_with_id(self.connected_monitors(), monitor_id@) {
                Some(i) => match r {
                    Some(p) => self.connected_monitors()[i].current_wallpaper == Some(*p),
                    None => self.connected_monitors()[i].current_wallpaper.is_none(),
                },
                None => r.is_none(),
            },
    {
        let mut i: usize = 0;
        while i < self.connected.len()
            invariant
                i <= self.connected@.len(),
                forall|j: int| 0 <= j < i ==> (#[trigger] self.connected@[j]).id@ != monitor_id@,
            decreases self.connected@.len() - i,
        {
            if same_text(self.connected[i].id.as_str(), monitor_id) {
                proof {
                    let s = self.connected@;
                    assert(s[i as int].id@ == monitor_id@);
                    let c = choose|c: int|
                        0 <= c < s.len() && (#[trigger] s[c]).id@ == monitor_id@ && forall|j: int|
                            0 <= j < c ==> (#[trigger] s[j]).id@ != monitor_id@;
                    assert(0 <= c < s.len() && s[c].id@ == monitor_id@ && forall|j: int|
                        0 <= j < c ==> (#[trigger] s[j]).id@ != monitor_id@);
                    if c < i {
                        assert(s[c].id@ != monitor_id@);
                    } else if c > i {
                        assert(s[i as int].id@ != monitor_id@);
                    }
                    assert(first_with_id(s, monitor_id@) == Some(i as int));
                }
                return self.connected[i].current_wallpaper.as_ref();
            }
            i = i + 1;
        }
        None
    }

    /// The connected monitors followed by one unavailable entry for each saved
    /// monitor that is not connected, in the order the saved ones are given.
    pub fn view(&self, saved_ids: &[String]) -> (r: Vec<Monitor>)
        ensures
            monitor_views(r@) == monitor_views(self.connected_monitors()) + texts(saved_ids@).filter(
                |id: Seq<char>| !ids_of(self.connected_monitors()).contains(id),
            ).map_values(|id: Seq<char>| saved_placeholder(id)),
    {
        let ghost connected_ids = ids_of(self.connected@);
        let ghost pred = |id: Seq<char>| !connected_ids.contains(id);
        let mut r: Vec<Monitor> = Vec::new();
        let mut i: usize = 0;
        while i < self.connected.len()
            invariant
                i <= self.connected@.len(),
                monitor_views(r@) == monitor_views(self.connected@).subrange(0, i as int),
            decreases self.connected@.len() - i,
        {
            let ghost before = r@;
            r.push(self.connected[i].duplicate());
            assert(monitor_views(r@) =~= monitor_views(self.connected@).subrange(0, i + 1)) by {
                assert(monitor_views(r@) =~= monitor_views(before).push(r@[i as int]@));
            }
            i = i + 1;
        }
        assert(monitor_views(self.connected@).subrange(0, i as int) =~= monitor_views(self.connected@));
        let mut k: usize = 0;
        while k < saved_ids.len()
            invariant
                k <= saved_ids@.len(),
                connected_ids == ids_of(self.connected@),
                pred == (|id: Seq<char>| !connected_ids.contains(id)),
                monitor_views(r@) == monitor_views(self.connected@) + texts(saved_ids@).subrange(0, k as int).filter(
                    pred,
                ).map_values(|id: Seq<char>| saved_placeholder(id)),
            decreases saved_ids@.len() - k,
        {
            let id = &saved_ids[k];
            let ghost before = r@;
            let ghost prefix = texts(saved_ids@).subrange(0, k as int);
            assert(texts(saved_ids@).subrange(0, k + 1) =~= prefix.push(id@));
            proof {
                reveal_with_fuel(Seq::filter, 1);
                assert(prefix.push(id@).drop_last() =~= prefix);
            }
            if !Self::has_id(&self.connected, id.as_str()) {
                r.push(
                    Monitor {
                        id: id.clone(),
                        name: String::from_str("Saved display"),
                        detail: String::from_str("Configuration retained"),
                        current_wallpaper: None,
                        available: false,
                    },
                );
                assert(monitor_views(r@) =~= monitor_views(before).push(saved_placeholder(id@)));
                assert(prefix.push(id@).filter(pred) == prefix.filter(pred).push(id@));
            } else {
                assert(prefix.push(id@).filter(pred) == prefix.filter(pred));
            }
            assert(monitor_views(r@) =~= monitor_views(self.connected@) + texts(saved_ids@).subrange(0, k + 1).filter(
                pred,
            ).map_values(|id: Seq<char>| saved_placeholder(id)));
            k = k + 1;
        }
        assert(texts(saved_ids@).subrange(0, k as int) =~= texts(saved_ids@));
        r
    }
}

/// A reconciliation that finds the same monitors connected as before reports
/// no topology change and no newly connected monitor.
pub proof fn lemma_reconcile_unchanged(ids: Set<Seq<char>>)
    ensures
        reconciliation_of(ids, ids) == (false, Set::<Seq<char>>::empty()),
{
    assert(ids.difference(ids) =~= Set::<Seq<char>>::empty());
}

/// The name a monitor is listed under: its position counted from one, and
/// whether it is the primary display (its top-left corner at the origin).
pub open spec fn monitor_name(index: u32, left: i32, top: i32) -> Seq<char> {
    "Display "@ + decimal(index as nat + 1) + if left == 0 && top == 0 {
        " · Primary"@
    } else {
        Seq::empty()
    }
}

/// A monitor's size as `width × height`.
pub open spec fn monitor_detail(left: i32, top: i32, right: i32, bottom: i32) -> Seq<char> {
    signed_decimal(right - left) + " × "@ + signed_decimal(bottom - top)
}

/// Describes a connected monitor from what the system reports of it: its
/// device path, its position in the system's list, its rectangle and its
/// wallpaper, an empty wallpaper path meaning none.
pub fn describe_monitor(
    id: String,
    index: u32,
    left: i32,
    top: i32,
    right: i32,
    bottom: i32,
    wallpaper: Option<String>,
) -> (r: Monitor)
    ensures
        r.id == id,
        r.name@ == monitor_name(index, left, top),
        r.detail@ == monitor_detail(left, top, right, bottom),
        r.current_wallpaper == match wallpaper {
            Some(w) => if w@.len() > 0 {
                Some(w)
            } else {
                None
            },
            None => None,
        },
        r.available,
{
    let mut name = String::from_str("Display ");
    push_decimal(&mut name, index as u64 + 1);
    if left == 0 && top == 0 {
        name.append(" · Primary");
    }
    let mut detail = String::new();
    push_signed_decimal(&mut detail, right as i64 - left as i64);
    detail.append(" × ");
    push_signed_decimal(&mut detail, bottom as i64 - top as i64);
    let current_wallpaper = match wallpaper {
        Some(w) => if w.as_str().unicode_len() > 0 {
            Some(w)
        } else {
            None
        },
        None => None,
    };
    Monitor { id, name, detail, current_wallpaper, available: true }
}

} // verus!
