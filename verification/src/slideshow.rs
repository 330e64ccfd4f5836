//! Slideshow ordering and scheduling: a persisted deck drawn from the images
//! of one folder, shuffled or newest first by date added, advanced on a
//! per-monitor interval.
use vstd::prelude::*;
use vstd::string::*;
use rand::seq::SliceRandom;
use crate::config::{SlideshowOrder, copy_texts, opt_text, texts};
use crate::ordered_map::{OrderedMap, lemma_filter_to_set, sorted_keys};
use crate::text::{same_text, text_less, text_lt};

verus! {

/// The state of one monitor's slideshow.
#[derive(Clone, Debug, PartialEq)]
pub struct Slideshow {
    pub folder: String,
    pub interval_seconds: u64,
    pub order: SlideshowOrder,
    pub current_image: Option<String>,
    pub remaining_deck: Vec<String>,
}

/// A slideshow with its texts as character sequences.
pub struct SlideshowView {
    pub folder: Seq<char>,
    pub interval_seconds: u64,
    pub order: SlideshowOrder,
    pub current_image: Option<Seq<char>>,
    pub remaining_deck: Seq<Seq<char>>,
}

impl View for Slideshow {
    type V = SlideshowView;

    open spec fn view(&self) -> SlideshowView {
        SlideshowView {
            folder: self.folder@,
            interval_seconds: self.interval_seconds,
            order: self.order,
            current_image: opt_text(self.current_image),
            remaining_deck: texts(self.remaining_deck@),
        }
    }
}

/// The deck left after dropping images that are no longer in the folder.
pub open spec fn kept_deck(deck: Seq<Seq<char>>, images: Seq<Seq<char>>) -> Seq<Seq<char>> {
    deck.filter(|x: Seq<char>| images.contains(x))
}

/// The images a fresh deck is dealt from: every image but the one shown.
pub open spec fn fresh_deck(images: Seq<Seq<char>>, current: Option<Seq<char>>) -> Seq<Seq<char>> {
    images.filter(|x: Seq<char>| current != Some(x))
}

/// How one image is drawn: from the end of the kept deck when anything is
/// left in it, else from a fresh deck of the images that are not shown, else
/// from the folder's images as they are.  A fresh deck holds those images in
/// some order for a random slideshow, and in reverse for one ordered by date
/// added, so that it is drawn in the order the images are given.
pub open spec fn draws(
    order: SlideshowOrder,
    images: Seq<Seq<char>>,
    current: Option<Seq<char>>,
    deck: Seq<Seq<char>>,
    new_deck: Seq<Seq<char>>,
    drawn: Option<Seq<char>>,
) -> bool {
    let kept = kept_deck(deck, images);
    let fresh = fresh_deck(images, current);
    if kept.len() > 0 {
        drawn == Some(kept.last()) && new_deck == kept.drop_last()
    } else if fresh.len() > 0 {
        drawn matches Some(p) && new_deck.push(p).to_multiset() == fresh.to_multiset() && (order is DateAdded
            ==> new_deck.push(p) == fresh.reverse())
    } else if images.len() > 0 {
        drawn == Some(images.last()) && new_deck == images.drop_last()
    } else {
        drawn.is_none() && new_deck.len() == 0
    }
}

/// Puts a deck in random order with rand's `SliceRandom::shuffle` and the
/// thread-local generator `rand::rng()`.  The shuffle only swaps elements,
/// so the deck keeps its images; which order comes out rests on chance and
/// is left open.
#[verifier::external_body]
fn shuffle_deck(deck: &mut Vec<String>)
    ensures
        texts(final(deck)@).to_multiset() == texts(old(deck)@).to_multiset(),
{
    deck.shuffle(&mut rand::rng());
}

fn contains_text(list: &Vec<String>, item: &str) -> (r: bool)
    ensures
        r == texts(list@).contains(item@),
{
    let mut i: usize = 0;
    while i < list.len()
        invariant
            i <= list@.len(),
            forall|j: int| 0 <= j < i ==> (#[trigger] list@[j])@ != item@,
        decreases list@.len() - i,
    {
        if same_text(list[i].as_str(), item) {
            assert(texts(list@)[i as int] == item@);
            return true;
        }
        i = i + 1;
    }
    proof {
        if texts(list@).contains(item@) {
            let j = choose|j: int| 0 <= j < texts(list@).len() && texts(list@)[j] == item@;
            assert(list@[j]@ == item@);
        }
    }
    false
}

/// Picks the next image to show: drops images that left the folder from the
/// deck, deals a fresh deck of the other images when it runs out (all of them
/// when the shown one is the only image), shuffled for a random slideshow and
/// in the order given for one by date added, and draws from its end.
pub fn next_image(
    images: &Vec<String>,
    current: &Option<String>,
    remaining: &mut Vec<String>,
    order: SlideshowOrder,
) -> (r: Option<String>)
    ensures
        draws(
            order,
            texts(images@),
            opt_text(*current),
            texts(old(remaining)@),
            texts(final(remaining)@),
            opt_text(r),
        ),
{
    let ghost catalog = texts(images@);
    let ghost pred = |x: Seq<char>| catalog.contains(x);
    let ghost deck = texts(remaining@);
    let mut kept: Vec<String> = Vec::new();
    let mut i: usize = 0;
    while i < remaining.len()
        invariant
            i <= remaining@.len(),
            deck == texts(remaining@),
            catalog == texts(images@),
            pred == (|x: Seq<char>| catalog.contains(x)),
            texts(kept@) == deck.subrange(0, i as int).filter(pred),
        decreases remaining@.len() - i,
    {
        let ghost prefix = deck.subrange(0, i as int);
        let ghost before = kept@;
        assert(deck.subrange(0, i + 1) =~= prefix.push(remaining@[i as int]@));
        proof {
            reveal_with_fuel(Seq::filter, 1);
            assert(prefix.push(remaining@[i as int]@).drop_last() =~= prefix);
        }
        if contains_text(images, remaining[i].as_str()) {
            kept.push(remaining[i].clone());
            assert(texts(kept@) =~= texts(before).push(remaining@[i as int]@));
        }
        i = i + 1;
    }
    assert(deck.subrange(0, i as int) =~= deck);
    *remaining = kept;
    if remaining.len() == 0 {
        let ghost cur = opt_text(*current);
        let ghost keep_fresh = |x: Seq<char>| cur != Some(x);
        let mut fresh: Vec<String> = Vec::new();
        let mut k: usize = 0;
        while k < images.len()
            invariant
                k <= images@.len(),
                catalog == texts(images@),
                cur == opt_text(*current),
                keep_fresh == (|x: Seq<char>| cur != Some(x)),
                texts(fresh@) == catalog.subrange(0, k as int).filter(keep_fresh),
            decreases images@.len() - k,
        {
            let ghost prefix = catalog.subrange(0, k as int);
            let ghost before = fresh@;
            assert(catalog.subrange(0, k + 1) =~= prefix.push(images@[k as int]@));
            proof {
                reveal_with_fuel(Seq::filter, 1);
                assert(prefix.push(images@[k as int]@).drop_last() =~= prefix);
            }
            let shown = match current {
                Some(c) => same_text(images[k].as_str(), c.as_str()),
                None => false,
            };
            if !shown {
                fresh.push(images[k].clone());
                assert(texts(fresh@) =~= texts(before).push(images@[k as int]@));
            }
            k = k + 1;
        }
        assert(catalog.subrange(0, k as int) =~= catalog);
        let ghost dealt = texts(fresh@);
        match order {
            SlideshowOrder::Random => shuffle_deck(&mut fresh),
            SlideshowOrder::DateAdded => {
                fresh = reversed(fresh);
                proof {
                    dealt.lemma_reverse_to_multiset();
                }
            },
        }
        proof {
            texts(fresh@).to_multiset_ensures();
            dealt.to_multiset_ensures();
        }
        if fresh.len() == 0 {
            fresh = copy_texts(images);
        }
        *remaining = fresh;
    }
    let ghost before_pop = remaining@;
    let r = remaining.pop();
    proof {
        if before_pop.len() > 0 {
            assert(texts(remaining@) =~= texts(before_pop).drop_last());
            assert(texts(remaining@).push(r->Some_0@) =~= texts(before_pop));
        }
    }
    r
}

/// The texts of a list in reverse order.
fn reversed(v: Vec<String>) -> (r: Vec<String>)
    ensures
        texts(r@) == texts(v@).reverse(),
{
    let mut r: Vec<String> = Vec::new();
    let mut i: usize = v.len();
    while i > 0
        invariant
            i <= v@.len(),
            r@.len() == v@.len() - i,
            forall|k: int| 0 <= k < r@.len() ==> #[trigger] r@[k]@ == v@[v@.len() - 1 - k]@,
        decreases i,
    {
        i = i - 1;
        r.push(v[i].clone());
    }
    assert(texts(r@) =~= texts(v@).reverse());
    r
}

/// A fresh deck holds only images of the folder, and the image drawn from it
/// is never the one that was shown.
pub proof fn lemma_fresh_draw_is_new(
    images: Seq<Seq<char>>,
    current: Option<Seq<char>>,
    drawn: Seq<char>,
    rest: Seq<Seq<char>>,
)
    requires
        rest.push(drawn).to_multiset() == fresh_deck(images, current).to_multiset(),
    ensures
        images.contains(drawn),
        current != Some(drawn),
{
    let fresh = fresh_deck(images, current);
    let pred = |x: Seq<char>| current != Some(x);
    rest.push(drawn).to_multiset_ensures();
    fresh.to_multiset_ensures();
    assert(rest.push(drawn)[rest.len() as int] == drawn);
    assert(rest.push(drawn).contains(drawn));
    assert(rest.push(drawn).to_multiset().count(drawn) > 0);
    assert(fresh.to_multiset().count(drawn) > 0);
    assert(fresh.contains(drawn));
    assert(fresh == images.filter(pred));
    images.lemma_filter_contains_rev(pred, drawn);
    #[allow(deprecated)]
    images.filter_lemma(pred);
    let j = choose|j: int| 0 <= j < fresh.len() && fresh[j] == drawn;
    assert(pred(fresh[j]));
}

/// When a monitor's slideshow is next due: `interval_seconds` after `now`,
/// both in milliseconds of one clock.
pub open spec fn deadline_after(now: u64, interval_seconds: u64) -> u128 {
    (now + interval_seconds * 1000) as u128
}

/// The monitors whose deadline has passed at `now`, in the walk order.
pub open spec fn due_ids(order: Seq<Seq<char>>, deadlines: Map<Seq<char>, u128>, now: u64) -> Seq<Seq<char>> {
    order.filter(|k: Seq<char>| deadlines[k] <= now)
}

/// The monitors whose deadline has passed at `now`.
pub open spec fn due_set(deadlines: Map<Seq<char>, u128>, now: u64) -> Set<Seq<char>> {
    Set::new(|k: Seq<char>| deadlines.contains_key(k) && deadlines[k] <= now)
}

proof fn lemma_filter_sorted(s: Seq<Seq<char>>, pred: spec_fn(Seq<char>) -> bool)
    requires
        sorted_keys(s),
    ensures
        sorted_keys(s.filter(pred)),
    decreases s.len(),
{
    reveal_with_fuel(Seq::filter, 1);
    if s.len() > 0 {
        let t = s.drop_last();
        assert(sorted_keys(t));
        lemma_filter_sorted(t, pred);
        if pred(s.last()) {
            let f = t.filter(pred);
            assert forall|i: int, j: int| 0 <= i < j < f.push(s.last()).len() implies text_less(
                #[trigger] f.push(s.last())[i],
                #[trigger] f.push(s.last())[j],
            ) by {
                if j == f.len() {
                    assert(f.contains(f[i]));
                    t.lemma_filter_contains_rev(pred, f[i]);
                    let k = choose|k: int| 0 <= k < t.len() && t[k] == f[i];
                    assert(text_less(s[k], s[s.len() - 1]));
                }
            }
        }
    }
}

/// The next deadline of each monitor with a running slideshow.
pub struct Schedule {
    deadlines: OrderedMap<u128>,
}

impl Schedule {
    /// Deadlines by monitor.
    pub closed spec fn deadlines(&self) -> Map<Seq<char>, u128> {
        self.deadlines@
    }

    /// The monitors in the order they are reported, ascending by device path.
    pub closed spec fn order(&self) -> Seq<Seq<char>> {
        self.deadlines.keys_seq()
    }

    /// No deadlines.
    pub fn new() -> (r: Self)
        ensures
            r.deadlines() == Map::<Seq<char>, u128>::empty(),
    {
        Schedule { deadlines: OrderedMap::new() }
    }

    /// Sets the monitor's next deadline `interval_seconds` after `now`.
    pub fn schedule(&mut self, monitor_id: &str, now: u64, interval_seconds: u64)
        ensures
            final(self).deadlines() == old(self).deadlines().insert(
                monitor_id@,
                deadline_after(now, interval_seconds),
            ),
    {
        let deadline = now as u128 + interval_seconds as u128 * 1000;
        self.deadlines.insert(String::from_str(monitor_id), deadline);
    }

    /// Drops the monitor's deadline.
    pub fn cancel(&mut self, monitor_id: &str)
        ensures
            final(self).deadlines() == old(self).deadlines().remove(monitor_id@),
    {
        let _ = self.deadlines.remove(monitor_id);
    }

    /// Reports, once, every monitor whose deadline has passed, and drops
    /// those deadlines.
    pub fn due(&mut self, now: u64) -> (r: Vec<String>)
        ensures
            texts(r@) == due_ids(old(self).order(), old(self).deadlines(), now),
            final(self).deadlines() == old(self).deadlines().remove_keys(texts(r@).to_set()),
            old(self).order().to_set() == old(self).deadlines().dom(),
            sorted_keys(texts(r@)),
            texts(r@).to_set() == due_set(old(self).deadlines(), now),
    {
        let ghost old_map = self.deadlines@;
        let keys = self.deadlines.keys();
        proof {
            self.deadlines.lemma_keys();
            lemma_filter_sorted(self.deadlines.keys_seq(), |k: Seq<char>| old_map[k] <= now);
            lemma_filter_to_set(self.deadlines.keys_seq(), |k: Seq<char>| old_map[k] <= now);
            assert(self.deadlines.keys_seq().to_set().filter(|k: Seq<char>| old_map[k] <= now) =~= due_set(old_map, now));
            crate::ordered_map::lemma_sorted_no_duplicates(self.deadlines.keys_seq());
        }
        let ghost order = texts(keys@);
        let ghost pred = |k: Seq<char>| old_map[k] <= now;
        let mut due: Vec<String> = Vec::new();
        let mut i: usize = 0;
        while i < keys.len()
            invariant
                i <= keys@.len(),
                order == texts(keys@),
                order.to_set() == old_map.dom(),
                distinct_keys(order),
                pred == (|k: Seq<char>| old_map[k] <= now),
                texts(due@) == order.subrange(0, i as int).filter(pred),
                self.deadlines@ == old_map.remove_keys(texts(due@).to_set()),
            decreases keys@.len() - i,
        {
            let ghost prefix = order.subrange(0, i as int);
            let ghost before = due@;
            let key = &keys[i];
            assert(order[i as int] == key@);
            assert(order.subrange(0, i + 1) =~= prefix.push(key@));
            proof {
                reveal_with_fuel(Seq::filter, 1);
                assert(prefix.push(key@).drop_last() =~= prefix);
                assert(order.contains(key@));
                assert(old_map.dom().contains(key@));
                assert(!texts(due@).contains(key@)) by {
                    if texts(due@).contains(key@) {
                        prefix.lemma_filter_contains_rev(pred, key@);
                        let j = choose|j: int| 0 <= j < prefix.len() && prefix[j] == key@;
                        assert(order[j] == order[i as int]);
                    }
                }
            }
            match self.deadlines.get(key.as_str()) {
                Some(d) => {
                    if *d <= now as u128 {
                        let _ = self.deadlines.remove(key.as_str());
                        due.push(key.clone());
                        proof {
                            assert(texts(due@) =~= texts(before).push(key@));
                            assert(texts(due@).to_set() =~= texts(before).to_set().insert(key@)) by {
                                assert forall|x: Seq<char>| texts(due@).to_set().contains(x) <==> texts(before).to_set().insert(key@).contains(x) by {
                                    if texts(due@).contains(x) {
                                        let j = choose|j: int| 0 <= j < texts(due@).len() && texts(due@)[j] == x;
                                        if j < texts(before).len() {
                                            assert(texts(before)[j] == x);
                                        }
                                    }
                                    if texts(before).contains(x) {
                                        let j = choose|j: int| 0 <= j < texts(before).len() && texts(before)[j] == x;
                                        assert(texts(due@)[j] == x);
                                    }
                                    if x == key@ {
                                        assert(texts(due@)[texts(before).len() as int] == x);
                                    }
                                }
                            }
                            assert(self.deadlines@ =~= old_map.remove_keys(texts(due@).to_set()));
                        }
                    }
                },
                None => {},
            }
            i = i + 1;
        }
        assert(order.subrange(0, i as int) =~= order);
        due
    }
}

/// Distinct keys in a list.
pub open spec fn distinct_keys(keys: Seq<Seq<char>>) -> bool {
    keys.no_duplicates()
}

/// A monitor reported due is not reported by the next check unless its
/// slideshow was scheduled again in between.
pub proof fn lemma_due_reported_once(
    order: Seq<Seq<char>>,
    deadlines: Map<Seq<char>, u128>,
    now: u64,
    later_order: Seq<Seq<char>>,
    later: u64,
    id: Seq<char>,
)
    requires
        due_ids(order, deadlines, now).contains(id),
        later_order.to_set() == deadlines.remove_keys(due_ids(order, deadlines, now).to_set()).dom(),
    ensures
        !due_ids(
            later_order,
            deadlines.remove_keys(due_ids(order, deadlines, now).to_set()),
            later,
        ).contains(id),
{
    let rest = deadlines.remove_keys(due_ids(order, deadlines, now).to_set());
    let pred = |k: Seq<char>| rest[k] <= later;
    assert(due_ids(order, deadlines, now).to_set().contains(id));
    if due_ids(later_order, rest, later).contains(id) {
        later_order.lemma_filter_contains_rev(pred, id);
        assert(later_order.contains(id));
        assert(later_order.to_set().contains(id));
    }
}

/// A dated listing with its texts as character sequences.
pub open spec fn dated_view(v: Seq<(String, u64)>) -> Seq<(Seq<char>, u64)> {
    v.map_values(|e: (String, u64)| (e.0@, e.1))
}

/// The paths of a dated listing, in its order.
pub open spec fn paths_of(listed: Seq<(Seq<char>, u64)>) -> Seq<Seq<char>> {
    listed.map_values(|e: (Seq<char>, u64)| e.0)
}

/// The times the images of a dated listing were added, in its order.
pub open spec fn dates_of(listed: Seq<(Seq<char>, u64)>) -> Seq<u64> {
    listed.map_values(|e: (Seq<char>, u64)| e.1)
}

/// `out` is `paths` newest first through `idx`: `out[k]` is
/// `paths[idx[k]]`, no path is taken twice, the times added never go up, and
/// paths added at the same time keep the order they had.
pub open spec fn newest_first_by(paths: Seq<Seq<char>>, dates: Seq<u64>, out: Seq<Seq<char>>, idx: Seq<int>) -> bool {
    &&& dates.len() == paths.len()
    &&& idx.len() == out.len()
    &&& out.len() == paths.len()
    &&& forall|k: int| 0 <= k < idx.len() ==> 0 <= #[trigger] idx[k] < paths.len() && out[k] == paths[idx[k]]
    &&& forall|k: int, l: int|
        0 <= k < l < idx.len() ==> {
            &&& #[trigger] idx[k] != #[trigger] idx[l]
            &&& dates[idx[k]] >= dates[idx[l]]
            &&& dates[idx[k]] == dates[idx[l]] ==> idx[k] < idx[l]
        }
}

/// The order a slideshow deals the images of a listing in: as listed for a
/// random slideshow, newest first for one by date added.
pub open spec fn dealt_in_order(order: SlideshowOrder, listed: Seq<(Seq<char>, u64)>, images: Seq<Seq<char>>) -> bool {
    match order {
        SlideshowOrder::Random => images == paths_of(listed),
        SlideshowOrder::DateAdded => exists|idx: Seq<int>|
            newest_first_by(paths_of(listed), dates_of(listed), images, idx),
    }
}

/// The paths of a dated listing, in its order.
fn listed_paths_of(listed: &Vec<(String, u64)>) -> (r: Vec<String>)
    ensures
        texts(r@) == paths_of(dated_view(listed@)),
{
    let mut r: Vec<String> = Vec::new();
    let mut i: usize = 0;
    while i < listed.len()
        invariant
            i <= listed@.len(),
            r@.len() == i,
            forall|k: int| 0 <= k < i ==> #[trigger] r@[k]@ == listed@[k].0@,
        decreases listed@.len() - i,
    {
        r.push(listed[i].0.clone());
        i = i + 1;
    }
    assert(texts(r@) =~= paths_of(dated_view(listed@)));
    r
}

/// The paths of a dated listing, newest first; paths added at the same time
/// keep the order they had.
pub fn newest_first(listed: &Vec<(String, u64)>) -> (r: Vec<String>)
    ensures
        exists|idx: Seq<int>|
            newest_first_by(paths_of(dated_view(listed@)), dates_of(dated_view(listed@)), texts(r@), idx),
{
    let ghost paths = paths_of(dated_view(listed@));
    let ghost dates = dates_of(dated_view(listed@));
    let mut sorted: Vec<String> = Vec::new();
    let mut placed: Vec<u64> = Vec::new();
    let ghost mut idx: Seq<int> = Seq::empty();
    let mut i: usize = 0;
    while i < listed.len()
        invariant
            i <= listed@.len(),
            paths == paths_of(dated_view(listed@)),
            dates == dates_of(dated_view(listed@)),
            sorted@.len() == i,
            placed@.len() == i,
            idx.len() == i,
            forall|k: int|
                0 <= k < idx.len() ==> 0 <= #[trigger] idx[k] < i && sorted@[k]@ == paths[idx[k]]
                    && placed@[k] == dates[idx[k]],
            forall|k: int, l: int|
                0 <= k < l < idx.len() ==> #[trigger] idx[k] != #[trigger] idx[l] && placed@[k] >= placed@[l]
                    && (placed@[k] == placed@[l] ==> idx[k] < idx[l]),
        decreases listed@.len() - i,
    {
        let date = listed[i].1;
        let mut p: usize = sorted.len();
        while p > 0 && placed[p - 1] < date
            invariant
                p <= placed@.len(),
                placed@.len() == sorted@.len(),
                forall|k: int| p <= k < placed@.len() ==> #[trigger] placed@[k] < date,
            decreases p,
        {
            p = p - 1;
        }
        let ghost old_placed = placed@;
        let ghost old_sorted = sorted@;
        let ghost old_idx = idx;
        placed.insert(p, date);
        sorted.insert(p, listed[i].0.clone());
        proof {
            idx = old_idx.insert(p as int, i as int);
            assert(paths[i as int] == listed@[i as int].0@);
            assert(dates[i as int] == date);
            assert forall|k: int| 0 <= k < idx.len() implies 0 <= #[trigger] idx[k] < i + 1
                && sorted@[k]@ == paths[idx[k]] && placed@[k] == dates[idx[k]] by {
                if k < p {
                    assert(idx[k] == old_idx[k]);
                    assert(sorted@[k] == old_sorted[k]);
                    assert(placed@[k] == old_placed[k]);
                } else if k > p {
                    assert(idx[k] == old_idx[k - 1]);
                    assert(sorted@[k] == old_sorted[k - 1]);
                    assert(placed@[k] == old_placed[k - 1]);
                }
            }
            assert forall|k: int, l: int| 0 <= k < l < idx.len() implies #[trigger] idx[k] != #[trigger] idx[l]
                && placed@[k] >= placed@[l] && (placed@[k] == placed@[l] ==> idx[k] < idx[l]) by {
                if k == p {
                    assert(placed@[l] == old_placed[l - 1]);
                    assert(old_placed[l - 1] < date);
                    assert(old_idx[l - 1] < i);
                } else if l == p {
                    assert(idx[k] == old_idx[k]);
                    assert(placed@[k] == old_placed[k]);
                    if p > 0 && k < p - 1 {
                        assert(old_placed[k] >= old_placed[p - 1]);
                    }
                } else if k < p && l > p {
                    assert(placed@[k] == old_placed[k]);
                    assert(placed@[l] == old_placed[l - 1]);
                    assert(old_idx[k] != old_idx[l - 1]);
                } else if k > p {
                    assert(placed@[k] == old_placed[k - 1]);
                    assert(placed@[l] == old_placed[l - 1]);
                    assert(old_idx[k - 1] != old_idx[l - 1]);
                } else {
                    assert(placed@[k] == old_placed[k]);
                    assert(placed@[l] == old_placed[l]);
                    assert(old_idx[k] != old_idx[l]);
                }
            }
        }
        i = i + 1;
    }
    proof {
        assert(newest_first_by(paths, dates, texts(sorted@), idx));
    }
    sorted
}

/// One round of trying the images of a slideshow folder, at most once per
/// image.
pub struct Attempts {
    images: Vec<String>,
    tries: usize,
}

impl Attempts {
    /// The images of the folder.
    pub closed spec fn images(&self) -> Seq<Seq<char>> {
        texts(self.images@)
    }

    /// How many images were tried.
    pub closed spec fn tries(&self) -> nat {
        self.tries as nat
    }

    /// Starts a round from the folder's listing, each image with the time it
    /// was added: a listing that failed gives its error, an empty folder is
    /// refused, and the images are taken in the order the slideshow deals
    /// them.
    pub fn open(listing: Result<Vec<(String, u64)>, String>, order: SlideshowOrder) -> (r: Result<
        Attempts,
        String,
    >)
        ensures
            match listing {
                Err(e) => r matches Err(m) && m@ == e@,
                Ok(v) => if v@.len() == 0 {
                    r matches Err(m) && m@ == "The slideshow folder is empty"@
                } else {
                    r matches Ok(a) && dealt_in_order(order, dated_view(v@), a.images()) && a.tries() == 0
                },
            },
    {
        match listing {
            Err(e) => Err(e),
            Ok(listed) => {
                if listed.len() == 0 {
                    return Err(String::from_str("The slideshow folder is empty"));
                }
                let images = match order {
                    SlideshowOrder::Random => listed_paths_of(&listed),
                    SlideshowOrder::DateAdded => newest_first(&listed),
                };
                Ok(Attempts { images, tries: 0 })
            },
        }
    }

    /// The next image to try, drawn from the slideshow's deck, or nothing
    /// once every image of the folder was tried.
    pub fn next_candidate(&mut self, slideshow: &mut Slideshow) -> (r: Option<String>)
        ensures
            final(self).images() == old(self).images(),
            final(slideshow).folder == old(slideshow).folder,
            final(slideshow).interval_seconds == old(slideshow).interval_seconds,
            final(slideshow).current_image == old(slideshow).current_image,
            final(slideshow).order == old(slideshow).order,
            if old(self).tries() < old(self).images().len() {
                &&& final(self).tries() == old(self).tries() + 1
                &&& r is Some
                &&& draws(
                    old(slideshow).order,
                    old(self).images(),
                    opt_text(old(slideshow).current_image),
                    texts(old(slideshow).remaining_deck@),
                    texts(final(slideshow).remaining_deck@),
                    opt_text(r),
                )
            } else {
                &&& r is None
                &&& final(self).tries() == old(self).tries()
                &&& final(slideshow).remaining_deck == old(slideshow).remaining_deck
            },
    {
        if self.tries >= self.images.len() {
            return None;
        }
        self.tries = self.tries + 1;
        let r = next_image(&self.images, &slideshow.current_image, &mut slideshow.remaining_deck, slideshow.order);
        proof {
            assert(self.images@.len() > 0);
            assert(texts(self.images@).len() > 0);
            if kept_deck(texts(old(slideshow).remaining_deck@), texts(self.images@)).len() == 0
                && fresh_deck(texts(self.images@), opt_text(slideshow.current_image)).len() == 0 {
            }
        }
        r
    }
}

/// Whether a path was accepted by a call of `apply`.
pub open spec fn accepted_by<F: FnMut(&str) -> Result<(), String>>(apply: F, path: Seq<char>) -> bool {
    exists|s: &str, res: Result<(), String>| s@ == path && res is Ok && call_ensures(apply, (s,), res)
}

/// Whether `apply` accepts every path it is called with.
pub open spec fn accepts_all<F: FnMut(&str) -> Result<(), String>>(apply: F) -> bool {
    forall|s: &str, res: Result<(), String>| call_ensures(apply, (s,), res) ==> res is Ok
}

/// Whether a path was refused by a call of `apply`.
pub open spec fn refused_by<F: FnMut(&str) -> Result<(), String>>(apply: F, path: Seq<char>) -> bool {
    exists|s: &str, res: Result<(), String>| s@ == path && res is Err && call_ensures(apply, (s,), res)
}

/// A listing with its texts as character sequences.
pub open spec fn listing_view(listing: Result<Vec<(String, u64)>, String>) -> Result<Seq<(Seq<char>, u64)>, Seq<char>> {
    match listing {
        Ok(v) => Ok(dated_view(v@)),
        Err(e) => Err(e@),
    }
}

/// An outcome with its message as a character sequence.
pub open spec fn outcome(r: Result<(), String>) -> Result<(), Seq<char>> {
    match r {
        Ok(()) => Ok(()),
        Err(e) => Err(e@),
    }
}

/// The outcome of starting a slideshow, with its message as a character
/// sequence.
pub open spec fn start_outcome(r: Result<Slideshow, String>) -> Result<(), Seq<char>> {
    match r {
        Ok(_) => Ok(()),
        Err(e) => Err(e@),
    }
}

/// A slideshow of a folder before its first image.
pub open spec fn unstarted(folder: Seq<char>, interval_seconds: u64, order: SlideshowOrder) -> SlideshowView {
    SlideshowView { folder, interval_seconds, order, current_image: None, remaining_deck: Seq::empty() }
}

/// The images of a folder tried in turn while `before` was shown: each is
/// the next draw from the deck (`decks[k]` before the `k`-th draw, the last
/// deck kept), every one but the last was refused by `apply`, and the last
/// decides: accepted, it is shown; refused, every image of the folder had its
/// turn and nothing changed on screen.
pub open spec fn tried_in_turn<F: FnMut(&str) -> Result<(), String>>(
    images: Seq<Seq<char>>,
    before: SlideshowView,
    apply: F,
    tried: Seq<Seq<char>>,
    decks: Seq<Seq<Seq<char>>>,
    r: Result<(), Seq<char>>,
    after: SlideshowView,
) -> bool {
    &&& 0 < tried.len() <= images.len()
    &&& decks.len() == tried.len() + 1
    &&& decks[0] == before.remaining_deck
    &&& after.remaining_deck == decks[tried.len() as int]
    &&& forall|k: int|
        0 <= k < tried.len() ==> images.contains(#[trigger] tried[k]) && draws(
            before.order,
            images,
            before.current_image,
            decks[k],
            decks[k + 1],
            Some(tried[k]),
        )
    &&& forall|k: int| 0 <= k < tried.len() - 1 ==> refused_by(apply, #[trigger] tried[k])
    &&& match r {
        Ok(()) => after.current_image == Some(tried.last()) && accepted_by(apply, tried.last()),
        Err(m) => {
            &&& m == "No slideshow image could be applied"@
            &&& tried.len() == images.len()
            &&& refused_by(apply, tried.last())
            &&& after.current_image == before.current_image
        },
    }
}

/// What showing the next image of a slideshow does with a listing of its
/// folder: a failed listing gives its error and an empty folder is refused,
/// both changing nothing; otherwise the folder's images are tried in turn.
pub open spec fn shown<F: FnMut(&str) -> Result<(), String>>(
    before: SlideshowView,
    listing: Result<Seq<(Seq<char>, u64)>, Seq<char>>,
    apply: F,
    r: Result<(), Seq<char>>,
    after: SlideshowView,
) -> bool {
    &&& after.folder == before.folder
    &&& after.interval_seconds == before.interval_seconds
    &&& after.order == before.order
    &&& match listing {
        Err(e) => r == Err::<(), Seq<char>>(e) && after == before,
        Ok(listed) => if listed.len() == 0 {
            r == Err::<(), Seq<char>>("The slideshow folder is empty"@) && after == before
        } else {
            exists|images: Seq<Seq<char>>, tried: Seq<Seq<char>>, decks: Seq<Seq<Seq<char>>>|
                dealt_in_order(before.order, listed, images) && tried_in_turn(
                    images,
                    before,
                    apply,
                    tried,
                    decks,
                    r,
                    after,
                )
        },
    }
}

/// An image drawn from a deck is one of the folder's images.
pub proof fn lemma_draw_is_listed(
    order: SlideshowOrder,
    images: Seq<Seq<char>>,
    current: Option<Seq<char>>,
    deck: Seq<Seq<char>>,
    new_deck: Seq<Seq<char>>,
    p: Seq<char>,
)
    requires
        draws(order, images, current, deck, new_deck, Some(p)),
    ensures
        images.contains(p),
{
    let kept = kept_deck(deck, images);
    let fresh = fresh_deck(images, current);
    if kept.len() > 0 {
        deck.lemma_filter_pred(|x: Seq<char>| images.contains(x), kept.len() - 1);
    } else if fresh.len() > 0 {
        let t = new_deck.push(p);
        t.to_multiset_ensures();
        fresh.to_multiset_ensures();
        assert(t[new_deck.len() as int] == p);
        assert(t.contains(p));
        assert(t.to_multiset().count(p) > 0);
        assert(fresh.to_multiset().count(p) > 0);
        assert(fresh.contains(p));
        images.lemma_filter_contains_rev(|x: Seq<char>| current != Some(x), p);
    } else {
        assert(images[images.len() - 1] == p);
    }
}

/// A slideshow by date added draws its images in the order they are dealt,
/// newest first: once its deck has run out, the image drawn is the first of
/// the folder's images other than the one shown.
pub proof fn lemma_date_added_draws_first_unshown(
    images: Seq<Seq<char>>,
    current: Option<Seq<char>>,
    deck: Seq<Seq<char>>,
    new_deck: Seq<Seq<char>>,
    p: Seq<char>,
)
    requires
        draws(SlideshowOrder::DateAdded, images, current, deck, new_deck, Some(p)),
        kept_deck(deck, images).len() == 0,
        fresh_deck(images, current).len() > 0,
    ensures
        p == fresh_deck(images, current)[0],
{
    let fresh = fresh_deck(images, current);
    let t = new_deck.push(p);
    assert(t == fresh.reverse());
    assert(fresh.reverse().len() == fresh.len());
    assert(t.len() == fresh.len());
    assert(t[new_deck.len() as int] == p);
    assert(fresh.reverse()[fresh.len() - 1] == fresh[0]);
}

proof fn lemma_filter_keeps_all(s: Seq<Seq<char>>, pred: spec_fn(Seq<char>) -> bool)
    requires
        forall|i: int| 0 <= i < s.len() ==> pred(#[trigger] s[i]),
    ensures
        s.filter(pred) == s,
    decreases s.len(),
{
    reveal_with_fuel(Seq::filter, 1);
    if s.len() == 0 {
        assert(s.filter(pred) =~= s);
    } else {
        lemma_filter_keeps_all(s.drop_last(), pred);
        assert(s.drop_last().push(s.last()) =~= s);
    }
}

/// The images drawn in a slideshow's first round, one after the other, with
/// each image shown until the next is drawn.
pub open spec fn first_round(
    order: SlideshowOrder,
    images: Seq<Seq<char>>,
    drawn: Seq<Seq<char>>,
    decks: Seq<Seq<Seq<char>>>,
) -> bool {
    &&& drawn.len() <= images.len()
    &&& decks.len() == drawn.len() + 1
    &&& decks[0].len() == 0
    &&& forall|k: int|
        0 <= k < drawn.len() ==> draws(
            order,
            images,
            if k == 0 {
                None
            } else {
                Some(drawn[k - 1])
            },
            decks[k],
            decks[k + 1],
            Some(#[trigger] drawn[k]),
        )
}

proof fn lemma_first_round_keeps_every_image(
    order: SlideshowOrder,
    images: Seq<Seq<char>>,
    drawn: Seq<Seq<char>>,
    decks: Seq<Seq<Seq<char>>>,
    k: int,
)
    requires
        first_round(order, images, drawn, decks),
        1 <= k <= drawn.len(),
    ensures
        (decks[k] + drawn.take(k)).to_multiset() == images.to_multiset(),
    decreases k,
{
    broadcast use vstd::multiset::group_multiset_axioms;
    broadcast use vstd::seq_lib::lemma_multiset_commutative;

    if k == 1 {
        let first = drawn[0];
        assert(draws(order, images, None, decks[0], decks[1], Some(first)));
        let in_folder = |x: Seq<char>| images.contains(x);
        let not_shown = |x: Seq<char>| None::<Seq<char>> != Some(x);
        assert(kept_deck(decks[0], images) =~= Seq::<Seq<char>>::empty()) by {
            reveal_with_fuel(Seq::filter, 1);
        }
        lemma_filter_keeps_all(images, not_shown);
        assert(fresh_deck(images, None) == images);
        assert(decks[1] + drawn.take(1) =~= decks[1].push(first));
    } else {
        lemma_first_round_keeps_every_image(order, images, drawn, decks, k - 1);
        let d = decks[k - 1];
        let t = drawn.take(k - 1);
        let p = drawn[k - 1];
        (d + t).to_multiset_ensures();
        images.to_multiset_ensures();
        assert((d + t).len() == images.len());
        assert(d.len() > 0);
        assert forall|i: int| 0 <= i < d.len() implies #[trigger] images.contains(d[i]) by {
            assert((d + t)[i] == d[i]);
            assert((d + t).contains(d[i]));
            assert((d + t).to_multiset().count(d[i]) > 0);
        }
        lemma_filter_keeps_all(d, |x: Seq<char>| images.contains(x));
        assert(draws(order, images, Some(drawn[k - 2]), d, decks[k], Some(p)));
        assert(kept_deck(d, images) == d);
        assert(p == d.last());
        assert(decks[k] == d.drop_last());
        assert(d =~= decks[k].push(p));
        assert(drawn.take(k) =~= t.push(p));
        assert(decks[k] + drawn.take(k) =~= (decks[k] + t).push(p));
        (decks[k] + t).to_multiset_ensures();
        decks[k].to_multiset_ensures();
        assert((decks[k] + drawn.take(k)).to_multiset() =~= (d + t).to_multiset());
    }
}

/// No image repeats within a slideshow's first round: drawn one after the
/// other from an empty deck with nothing shown, from a folder that keeps the
/// same images, none twice, the images drawn are all different, as long as
/// no more are drawn than the folder holds.
pub proof fn lemma_first_round_has_no_repeats(
    order: SlideshowOrder,
    images: Seq<Seq<char>>,
    drawn: Seq<Seq<char>>,
    decks: Seq<Seq<Seq<char>>>,
)
    requires
        images.no_duplicates(),
        first_round(order, images, drawn, decks),
    ensures
        drawn.no_duplicates(),
{
    if drawn.len() > 0 {
        let n = drawn.len() as int;
        lemma_first_round_keeps_every_image(order, images, drawn, decks, n);
        let all = decks[n] + drawn;
        assert(drawn.take(n) =~= drawn);
        images.lemma_multiset_has_no_duplicates();
        all.to_multiset_ensures();
        images.to_multiset_ensures();
        all.lemma_multiset_has_no_duplicates_conv();
        assert forall|i: int, j: int| 0 <= i < drawn.len() && 0 <= j < drawn.len() && i != j implies drawn[i]
            != drawn[j] by {
            assert(all[decks[n].len() + i] == drawn[i]);
            assert(all[decks[n].len() + j] == drawn[j]);
        }
    }
}

/// A deck worth drawing from: no image in it twice, and not the one shown.
pub open spec fn sound_deck(deck: Seq<Seq<char>>, current: Option<Seq<char>>) -> bool {
    &&& deck.no_duplicates()
    &&& current matches Some(c) ==> !deck.contains(c)
}

/// Drawing from a folder with no image twice keeps the deck sound: the deck
/// left holds only images of the folder, none twice and not the one drawn,
/// so no image repeats within a round of the deck; and the image drawn is not
/// the one shown before whenever the folder has another image.
pub proof fn lemma_draw_keeps_deck_sound(
    order: SlideshowOrder,
    images: Seq<Seq<char>>,
    current: Option<Seq<char>>,
    deck: Seq<Seq<char>>,
    new_deck: Seq<Seq<char>>,
    p: Seq<char>,
)
    requires
        images.no_duplicates(),
        sound_deck(deck, current),
        draws(order, images, current, deck, new_deck, Some(p)),
    ensures
        sound_deck(new_deck, Some(p)),
        forall|x: Seq<char>| new_deck.contains(x) ==> images.contains(x),
        (exists|x: Seq<char>| images.contains(x) && Some(x) != current) ==> Some(p) != current,
{
    let in_folder = |x: Seq<char>| images.contains(x);
    let not_shown = |x: Seq<char>| current != Some(x);
    let kept = kept_deck(deck, images);
    let fresh = fresh_deck(images, current);
    if kept.len() > 0 {
        crate::ordered_map::lemma_filter_no_duplicates(deck, in_folder);
        let last = kept.len() - 1;
        assert(kept[last] == p);
        assert(new_deck == kept.drop_last());
        assert forall|x: Seq<char>| new_deck.contains(x) implies images.contains(x) by {
            let i = choose|i: int| 0 <= i < new_deck.len() && new_deck[i] == x;
            deck.lemma_filter_pred(in_folder, i);
        }
        assert(!new_deck.contains(p)) by {
            if new_deck.contains(p) {
                let i = choose|i: int| 0 <= i < new_deck.len() && new_deck[i] == p;
                assert(kept[i] == kept[last]);
            }
        }
        assert(kept.contains(p));
        deck.lemma_filter_contains_rev(in_folder, p);
    } else if fresh.len() > 0 {
        crate::ordered_map::lemma_filter_no_duplicates(images, not_shown);
        let t = new_deck.push(p);
        fresh.lemma_multiset_has_no_duplicates();
        t.to_multiset_ensures();
        fresh.to_multiset_ensures();
        assert forall|x: Seq<char>| t.to_multiset().contains(x) implies t.to_multiset().count(x) == 1 by {
            assert(fresh.to_multiset().contains(x));
        }
        t.lemma_multiset_has_no_duplicates_conv();
        assert(t[new_deck.len() as int] == p);
        assert(!new_deck.contains(p)) by {
            if new_deck.contains(p) {
                let i = choose|i: int| 0 <= i < new_deck.len() && new_deck[i] == p;
                assert(t[i] == t[new_deck.len() as int]);
            }
        }
        assert(new_deck.no_duplicates()) by {
            assert forall|i: int, j: int| 0 <= i < new_deck.len() && 0 <= j < new_deck.len() && i != j implies new_deck[i]
                != new_deck[j] by {
                assert(t[i] == new_deck[i] && t[j] == new_deck[j]);
            }
        }
        assert forall|x: Seq<char>| new_deck.contains(x) implies images.contains(x) by {
            let i = choose|i: int| 0 <= i < new_deck.len() && new_deck[i] == x;
            assert(t[i] == x);
            assert(t.contains(x));
            assert(t.to_multiset().count(x) > 0);
            assert(fresh.contains(x));
            images.lemma_filter_contains_rev(not_shown, x);
        }
        assert(t.contains(p));
        assert(t.to_multiset().count(p) > 0);
        assert(fresh.contains(p));
        let k = choose|k: int| 0 <= k < fresh.len() && fresh[k] == p;
        images.lemma_filter_pred(not_shown, k);
    } else {
        assert(new_deck == images.drop_last());
        assert(p == images.last());
        assert(!new_deck.contains(p)) by {
            if new_deck.contains(p) {
                let i = choose|i: int| 0 <= i < new_deck.len() && new_deck[i] == p;
                assert(images[i] == images[images.len() - 1]);
            }
        }
        assert(new_deck.no_duplicates()) by {
            assert forall|i: int, j: int| 0 <= i < new_deck.len() && 0 <= j < new_deck.len() && i != j implies new_deck[i]
                != new_deck[j] by {
                assert(images[i] == new_deck[i] && images[j] == new_deck[j]);
            }
        }
        assert forall|x: Seq<char>| new_deck.contains(x) implies images.contains(x) by {
            let i = choose|i: int| 0 <= i < new_deck.len() && new_deck[i] == x;
            assert(images[i] == x);
        }
        if exists|x: Seq<char>| images.contains(x) && Some(x) != current {
            let x = choose|x: Seq<char>| images.contains(x) && Some(x) != current;
            let i = choose|i: int| 0 <= i < images.len() && images[i] == x;
            images.lemma_filter_contains(not_shown, i);
        }
    }
}

/// A slideshow keeps its deck sound across an advance when its folder lists
/// distinct images and `apply` accepts every path: the next image is shown,
/// it is one of the folder's, the deck left holds only images of the folder,
/// none twice and not the one shown, and when the folder has two images or
/// more the image shown is not the one shown before.
pub proof fn lemma_shown_keeps_deck_sound<F: FnMut(&str) -> Result<(), String>>(
    before: SlideshowView,
    listed: Seq<(Seq<char>, u64)>,
    apply: F,
    r: Result<(), Seq<char>>,
    after: SlideshowView,
)
    requires
        shown(before, Ok(listed), apply, r, after),
        listed.len() > 0,
        paths_of(listed).no_duplicates(),
        sound_deck(before.remaining_deck, before.current_image),
        accepts_all(apply),
    ensures
        r is Ok,
        after.current_image matches Some(p) && paths_of(listed).contains(p),
        sound_deck(after.remaining_deck, after.current_image),
        forall|x: Seq<char>| after.remaining_deck.contains(x) ==> paths_of(listed).contains(x),
        listed.len() >= 2 ==> after.current_image != before.current_image,
{
    let paths = paths_of(listed);
    let (images, tried, decks) = choose|images: Seq<Seq<char>>, tried: Seq<Seq<char>>, decks: Seq<Seq<Seq<char>>>|
        dealt_in_order(before.order, listed, images) && tried_in_turn(
            images,
            before,
            apply,
            tried,
            decks,
            r,
            after,
        );
    assert(images.len() == paths.len() && images.no_duplicates() && forall|x: Seq<char>|
        images.contains(x) ==> paths.contains(x)) by {
        match before.order {
            SlideshowOrder::Random => {},
            SlideshowOrder::DateAdded => {
                let idx = choose|idx: Seq<int>| newest_first_by(paths, dates_of(listed), images, idx);
                assert forall|x: Seq<char>| images.contains(x) implies paths.contains(x) by {
                    let k = choose|k: int| 0 <= k < images.len() && images[k] == x;
                    assert(images[k] == paths[idx[k]]);
                }
                assert forall|i: int, j: int| 0 <= i < images.len() && 0 <= j < images.len() && i != j implies images[i]
                    != images[j] by {
                    if i < j {
                        assert(idx[i] != idx[j]);
                    } else {
                        assert(idx[j] != idx[i]);
                    }
                }
            },
        }
    }
    if tried.len() > 1 {
        assert(refused_by(apply, tried[0]));
        let (s, res) = choose|s: &str, res: Result<(), String>| s@ == tried[0] && res is Err && call_ensures(apply, (s,), res);
        assert(false);
    }
    if r is Err {
        let (s, res) = choose|s: &str, res: Result<(), String>|
            s@ == tried.last() && res is Err && call_ensures(apply, (s,), res);
        assert(false);
    }
    let p = tried[0];
    assert(draws(before.order, images, before.current_image, decks[0], decks[1], Some(p)));
    lemma_draw_keeps_deck_sound(before.order, images, before.current_image, decks[0], decks[1], p);
    assert(tried.last() == p);
    if listed.len() >= 2 {
        assert(images[0] != images[1]);
        if Some(images[0]) != before.current_image {
            assert(images.contains(images[0]));
        } else {
            assert(images.contains(images[1]));
        }
    }
}

/// Shows the next image of a slideshow given its folder's listing: a failed
/// listing gives its error and an empty folder is refused, both leaving the
/// slideshow as it was; otherwise images are drawn from the deck and handed
/// to `apply` until one is accepted, and it becomes the current image, at
/// most once per image of the folder.  When `apply` accepts every path, it
/// succeeds.
pub fn show_next_image<F: FnMut(&str) -> Result<(), String>>(
    slideshow: &mut Slideshow,
    listing: Result<Vec<(String, u64)>, String>,
    apply: &mut F,
) -> (r: Result<(), String>)
    requires
        forall|p: &str| call_requires(*old(apply), (p,)),
    ensures
        final(slideshow).folder == old(slideshow).folder,
        final(slideshow).interval_seconds == old(slideshow).interval_seconds,
        final(slideshow).order == old(slideshow).order,
        match listing {
            Err(e) => r matches Err(m) && m@ == e@ && *final(slideshow) == *old(slideshow),
            Ok(v) => if v@.len() == 0 {
                r matches Err(m) && m@ == "The slideshow folder is empty"@ && *final(slideshow) == *old(
                    slideshow,
                )
            } else {
                &&& r matches Err(m) ==> (m@ == "No slideshow image could be applied"@
                    && final(slideshow).current_image == old(slideshow).current_image)
                &&& r is Ok ==> (final(slideshow).current_image matches Some(p) && accepted_by(*old(apply), p@))
                &&& accepts_all(*old(apply)) ==> r is Ok
            },
        },
        shown(old(slideshow)@, listing_view(listing), *old(apply), outcome(r), final(slideshow)@),
{
    let ghost given = listing;
    let mut attempts = match Attempts::open(listing, slideshow.order) {
        Ok(a) => a,
        Err(e) => {
            return Err(e);
        },
    };
    let ghost images = attempts.images();
    let ghost mut tried: Seq<Seq<char>> = Seq::empty();
    let ghost mut decks: Seq<Seq<Seq<char>>> = seq![texts(old(slideshow).remaining_deck@)];
    loop
        invariant
            forall|p: &str| call_requires(*apply, (p,)),
            *apply == *old(apply),
            images == attempts.images(),
            tried.len() == attempts.tries(),
            decks.len() == tried.len() + 1,
            decks[0] == texts(old(slideshow).remaining_deck@),
            decks[tried.len() as int] == texts(slideshow.remaining_deck@),
            forall|k: int|
                0 <= k < tried.len() ==> images.contains(#[trigger] tried[k]) && draws(
                    old(slideshow).order,
                    images,
                    opt_text(old(slideshow).current_image),
                    decks[k],
                    decks[k + 1],
                    Some(tried[k]),
                ),
            forall|k: int| 0 <= k < tried.len() ==> refused_by(*old(apply), #[trigger] tried[k]),
            slideshow.folder == old(slideshow).folder,
            slideshow.interval_seconds == old(slideshow).interval_seconds,
            slideshow.current_image == old(slideshow).current_image,
            slideshow.order == old(slideshow).order,
            attempts.tries() <= attempts.images().len(),
            attempts.images().len() > 0,
            given == listing,
            given matches Ok(v) && v@.len() > 0 && dealt_in_order(old(slideshow).order, dated_view(v@), images),
            accepts_all(*old(apply)) ==> attempts.tries() == 0 && slideshow@ == old(slideshow)@,
        decreases attempts.images().len() - attempts.tries(),
    {
        let ghost deck_before = texts(slideshow.remaining_deck@);
        match attempts.next_candidate(slideshow) {
            None => {
                let r = Err(String::from_str("No slideshow image could be applied"));
                proof {
                    assert(tried_in_turn(images, old(slideshow)@, *old(apply), tried, decks, outcome(r), slideshow@));
                }
                return r;
            },
            Some(next) => {
                proof {
                    lemma_draw_is_listed(
                        old(slideshow).order,
                        images,
                        opt_text(old(slideshow).current_image),
                        deck_before,
                        texts(slideshow.remaining_deck@),
                        next@,
                    );
                    tried = tried.push(next@);
                    decks = decks.push(texts(slideshow.remaining_deck@));
                }
                let candidate = next.as_str();
                let ghost pre = *apply;
                let result = apply(candidate);
                assert(call_ensures(pre, (candidate,), result)) by {
                    broadcast use vstd::function::group_function_axioms;
                }
                match result {
                    Ok(()) => {
                        slideshow.current_image = Some(next);
                        proof {
                            assert(tried_in_turn(images, old(slideshow)@, *old(apply), tried, decks, Ok(()), slideshow@));
                        }
                        return Ok(());
                    },
                    Err(_) => {},
                }
            },
        }
    }
}

/// Lists the images of a slideshow folder.
pub trait ImageCatalog {
    /// Whether `listing` is an answer the catalog may give when asked for
    /// the images of `folder`.  A catalog that does not say may give any.
    open spec fn lists(&self, folder: Seq<char>, listing: Result<Seq<(Seq<char>, u64)>, Seq<char>>) -> bool {
        true
    }

    /// The images of a folder, each with the time it was added, or why they
    /// cannot be listed.
    fn images(&self, folder: &str) -> (r: Result<Vec<(String, u64)>, String>)
        ensures
            self.lists(folder@, listing_view(r)),
    ;
}

/// The slideshows of all monitors: where their images come from and when
/// each is next due.
pub struct Lifecycle<C> {
    catalog: C,
    schedule: Schedule,
}

impl<C: ImageCatalog> Lifecycle<C> {
    /// No slideshow is scheduled.
    pub fn new(catalog: C) -> (r: Self)
        ensures
            r.deadlines() == Map::<Seq<char>, u128>::empty(),
            r.catalog() == catalog,
    {
        Lifecycle { catalog, schedule: Schedule::new() }
    }

    /// Where the slideshows' images come from.
    pub closed spec fn catalog(&self) -> C {
        self.catalog
    }

    /// Deadlines by monitor.
    pub closed spec fn deadlines(&self) -> Map<Seq<char>, u128> {
        self.schedule.deadlines()
    }

    /// The monitors in the order they are reported.
    pub closed spec fn order(&self) -> Seq<Seq<char>> {
        self.schedule.order()
    }

    /// Starts a slideshow: an interval under a minute is refused; otherwise the
    /// first image that applies is shown and the monitor is scheduled.
    pub fn start<F: FnMut(&str) -> Result<(), String>>(
        &mut self,
        monitor_id: &str,
        folder: String,
        interval_seconds: u64,
        order: SlideshowOrder,
        now: u64,
        apply: F,
    ) -> (r: Result<Slideshow, String>)
        requires
            forall|p: &str| call_requires(apply, (p,)),
        ensures
            interval_seconds < 60 ==> (r matches Err(m) && m@ == "The minimum slideshow interval is one minute"@),
            r matches Ok(s) ==> {
                &&& s.folder@ == folder@
                &&& s.interval_seconds == interval_seconds
                &&& s.order == order
                &&& s.current_image is Some
                &&& final(self).deadlines() == old(self).deadlines().insert(
                    monitor_id@,
                    deadline_after(now, interval_seconds),
                )
            },
            r is Err ==> final(self).deadlines() == old(self).deadlines(),
            final(self).catalog() == old(self).catalog(),
            interval_seconds >= 60 ==> exists|listing: Result<Seq<(Seq<char>, u64)>, Seq<char>>, after: SlideshowView|
                {
                    &&& old(self).catalog().lists(folder@, listing)
                    &&& shown(unstarted(folder@, interval_seconds, order), listing, apply, start_outcome(r), after)
                    &&& r matches Ok(s) ==> s@ == after
                },
    {
        if interval_seconds < 60 {
            return Err(String::from_str("The minimum slideshow interval is one minute"));
        }
        let mut apply = apply;
        let mut slideshow = Slideshow {
            folder,
            interval_seconds,
            order,
            current_image: None,
            remaining_deck: Vec::new(),
        };
        let ghost before = slideshow@;
        assert(texts(slideshow.remaining_deck@) =~= Seq::<Seq<char>>::empty());
        assert(before == unstarted(slideshow.folder@, interval_seconds, order));
        match self.advance_image(&mut slideshow, &mut apply) {
            Ok(()) => {},
            Err(e) => {
                let r = Err(e);
                assert(start_outcome(r) == outcome(Err(e)));
                return r;
            },
        }
        self.schedule.schedule(monitor_id, now, interval_seconds);
        Ok(slideshow)
    }

    /// Shows the next image of a saved slideshow and schedules it.
    pub fn restore<F: FnMut(&str) -> Result<(), String>>(
        &mut self,
        monitor_id: &str,
        slideshow: &mut Slideshow,
        now: u64,
        apply: F,
    ) -> (r: Result<(), String>)
        requires
            forall|p: &str| call_requires(apply, (p,)),
        ensures
            final(slideshow).folder == old(slideshow).folder,
            final(slideshow).interval_seconds == old(slideshow).interval_seconds,
            r is Ok ==> final(slideshow).current_image is Some && final(self).deadlines() == old(
                self,
            ).deadlines().insert(monitor_id@, deadline_after(now, old(slideshow).interval_seconds)),
            r is Ok ==> (final(slideshow).current_image matches Some(p) && accepted_by(apply, p@)),
            r is Err ==> final(self).deadlines() == old(self).deadlines() && final(slideshow).current_image
                == old(slideshow).current_image,
            final(self).catalog() == old(self).catalog(),
            exists|listing: Result<Seq<(Seq<char>, u64)>, Seq<char>>|
                old(self).catalog().lists(old(slideshow).folder@, listing) && shown(
                    old(slideshow)@,
                    listing,
                    apply,
                    outcome(r),
                    final(slideshow)@,
                ),
    {
        let mut apply = apply;
        self.advance_image(slideshow, &mut apply)?;
        self.schedule.schedule(monitor_id, now, slideshow.interval_seconds);
        Ok(())
    }

    /// Shows the next image of a running slideshow; it is scheduled again
    /// when that works and stopped when it does not.
    pub fn advance<F: FnMut(&str) -> Result<(), String>>(
        &mut self,
        monitor_id: &str,
        slideshow: &mut Slideshow,
        now: u64,
        apply: F,
    ) -> (r: Result<(), String>)
        requires
            forall|p: &str| call_requires(apply, (p,)),
        ensures
            final(slideshow).folder == old(slideshow).folder,
            final(slideshow).interval_seconds == old(slideshow).interval_seconds,
            r is Ok ==> final(slideshow).current_image is Some && final(self).deadlines() == old(
                self,
            ).deadlines().insert(monitor_id@, deadline_after(now, old(slideshow).interval_seconds)),
            r is Err ==> final(self).deadlines() == old(self).deadlines().remove(monitor_id@),
            r is Ok ==> (final(slideshow).current_image matches Some(p) && accepted_by(apply, p@)),
            r is Err ==> final(slideshow).current_image == old(slideshow).current_image,
            final(self).catalog() == old(self).catalog(),
            exists|listing: Result<Seq<(Seq<char>, u64)>, Seq<char>>|
                old(self).catalog().lists(old(slideshow).folder@, listing) && shown(
                    old(slideshow)@,
                    listing,
                    apply,
                    outcome(r),
                    final(slideshow)@,
                ),
    {
        let mut apply = apply;
        let result = self.advance_image(slideshow, &mut apply);
        match result {
            Ok(()) => self.schedule.schedule(monitor_id, now, slideshow.interval_seconds),
            Err(_) => self.schedule.cancel(monitor_id),
        }
        result
    }

    /// Stops scheduling a monitor's slideshow.
    pub fn cancel(&mut self, monitor_id: &str)
        ensures
            final(self).deadlines() == old(self).deadlines().remove(monitor_id@),
            final(self).catalog() == old(self).catalog(),
    {
        self.schedule.cancel(monitor_id);
    }

    /// Reports, once, every monitor whose slideshow is due.
    pub fn due(&mut self, now: u64) -> (r: Vec<String>)
        ensures
            texts(r@) == due_ids(old(self).order(), old(self).deadlines(), now),
            final(self).deadlines() == old(self).deadlines().remove_keys(texts(r@).to_set()),
            sorted_keys(texts(r@)),
            texts(r@).to_set() == due_set(old(self).deadlines(), now),
            final(self).catalog() == old(self).catalog(),
    {
        self.schedule.due(now)
    }

    fn advance_image<F: FnMut(&str) -> Result<(), String>>(&self, slideshow: &mut Slideshow, apply: &mut F) -> (r: Result<(), String>)
        requires
            forall|p: &str| call_requires(*old(apply), (p,)),
        ensures
            final(slideshow).folder == old(slideshow).folder,
            final(slideshow).interval_seconds == old(slideshow).interval_seconds,
            r is Ok ==> (final(slideshow).current_image matches Some(p) && accepted_by(*old(apply), p@)),
            r is Err ==> final(slideshow).current_image == old(slideshow).current_image,
            exists|listing: Result<Seq<(Seq<char>, u64)>, Seq<char>>|
                self.catalog().lists(old(slideshow).folder@, listing) && shown(
                    old(slideshow)@,
                    listing,
                    *old(apply),
                    outcome(r),
                    final(slideshow)@,
                ),
    {
        let listing = self.catalog.images(slideshow.folder.as_str());
        let ghost given = listing_view(listing);
        let r = show_next_image(slideshow, listing, apply);
        assert(self.catalog().lists(old(slideshow).folder@, given));
        r
    }
}

/// Whether a text equals a lower-case ASCII word once its ASCII letters are
/// made lower case.
pub open spec fn ascii_ci_equal(s: Seq<char>, lower: Seq<char>) -> bool {
    &&& s.len() == lower.len()
    &&& forall|i: int|
        0 <= i < s.len() ==> #[trigger] s[i] == lower[i] || (97 <= (lower[i] as int) <= 122 && (
        s[i] as int) == (lower[i] as int) - 32)
}

/// The extensions of the images a slideshow or picture may use, in any case.
pub open spec fn supported_extension(e: Seq<char>) -> bool {
    ||| ascii_ci_equal(e, "jpg"@)
    ||| ascii_ci_equal(e, "jpeg"@)
    ||| ascii_ci_equal(e, "png"@)
    ||| ascii_ci_equal(e, "bmp"@)
}

fn equals_ignoring_ascii_case(s: &str, lower: &str) -> (r: bool)
    ensures
        r == ascii_ci_equal(s@, lower@),
{
    let n = s.unicode_len();
    if n != lower.unicode_len() {
        return false;
    }
    let mut i: usize = 0;
    while i < n
        invariant
            n == s@.len(),
            n == lower@.len(),
            i <= n,
            forall|j: int|
                0 <= j < i ==> #[trigger] s@[j] == lower@[j] || (97 <= (lower@[j] as int) <= 122 && (
                s@[j] as int) == (lower@[j] as int) - 32),
        decreases n - i,
    {
        let a = s.get_char(i);
        let b = lower.get_char(i);
        let x = a as u32;
        let y = b as u32;
        if !(a == b || (97 <= y && y <= 122 && x + 32 == y)) {
            return false;
        }
        i = i + 1;
    }
    true
}

/// Whether an extension names an image this library can show.
pub fn is_supported_extension(extension: Option<&str>) -> (r: bool)
    ensures
        r == match extension {
            Some(e) => supported_extension(e@),
            None => false,
        },
{
    match extension {
        Some(e) => {
            let jpg = "jpg";
            let jpeg = "jpeg";
            let png = "png";
            let bmp = "bmp";
            equals_ignoring_ascii_case(e, jpg) || equals_ignoring_ascii_case(e, jpeg)
                || equals_ignoring_ascii_case(e, png) || equals_ignoring_ascii_case(e, bmp)
        },
        None => false,
    }
}

/// A path separator on some platform: `/` everywhere, `\\` on Windows.
pub open spec fn is_separator(c: char) -> bool {
    c == '/' || c == '\\'
}

/// Whether a path begins with two separators, as a network share, a device
/// or a verbatim path does on Windows.
pub open spec fn double_separator_start(path: Seq<char>) -> bool {
    path.len() >= 2 && is_separator(path[0]) && is_separator(path[1])
}

/// Whether no dot, separator or colon comes after position `i`.
pub open spec fn plain_after(path: Seq<char>, i: int) -> bool {
    forall|k: int| i < k < path.len() ==> #[trigger] path[k] != '.' && !is_separator(path[k]) && path[k] != ':'
}

/// Whether the dot at `i` begins the extension of the path's last
/// component on every platform: it is the component's last dot, something of
/// the component stands before it, and the component is not `..`.
pub open spec fn extension_dot(path: Seq<char>, i: int) -> bool {
    &&& 0 < i < path.len()
    &&& path[i] == '.'
    &&& plain_after(path, i)
    &&& !double_separator_start(path)
    &&& !is_separator(path[i - 1])
    &&& path[i - 1] != ':'
    &&& !(i + 1 == path.len() && path[i - 1] == '.' && (i == 1 || is_separator(path[i - 2]) || path[i - 2] == ':'))
}

/// Whether the dot at `i` begins the path's last component on every
/// platform, with nothing but the text after it in that component, so the
/// component has no extension.
pub open spec fn leading_dot(path: Seq<char>, i: int) -> bool {
    &&& 0 <= i < path.len() - 1
    &&& path[i] == '.'
    &&& i == 0 || path[i - 1] == '/'
    &&& plain_after(path, i)
    &&& !double_separator_start(path)
}

/// `Path::extension`, read as text: the part of the path's last component
/// after its last dot, when something stands before that dot and the
/// component is not `..`.  Which characters separate components, and whether
/// a path starts with a drive or a share, depends on the platform, so this
/// is claimed: an extension holds no `.` and stands in the path right after a
/// `.`; where the dot at `i` begins the extension on every platform
/// (`extension_dot`), the extension is what follows it; and a path with no
/// dot, or whose last component is a dot and a name on every platform
/// (`leading_dot`), has none.
#[verifier::external_body]
fn path_extension(path: &str) -> (r: Option<String>)
    ensures
        r matches Some(e) ==> !e@.contains('.') && exists|i: int|
            0 <= i && i + e@.len() < path@.len() && path@[i] == '.' && path@.subrange(
                i + 1,
                i + 1 + e@.len(),
            ) == e@,
        r is Some || !(exists|i: int| extension_dot(path@, i)),
        r matches Some(e) ==> ((exists|i: int| extension_dot(path@, i)) ==> extension_dot(
            path@,
            path@.len() - 1 - e@.len(),
        ) && e@ == path@.subrange(path@.len() - e@.len(), path@.len() as int)),
        r is Some ==> path@.contains('.') && !(exists|i: int| leading_dot(path@, i)),
{
    match std::path::Path::new(path).extension() {
        Some(extension) => match extension.to_str() {
            Some(text) => Some(text.to_owned()),
            None => None,
        },
        None => None,
    }
}

/// Whether a path names an image by its extension, where every platform
/// agrees on that extension: `Some` of the verdict, else `None`.
pub open spec fn image_verdict(path: Seq<char>) -> Option<bool> {
    if exists|i: int| extension_dot(path, i) {
        let i = choose|i: int| extension_dot(path, i);
        Some(supported_extension(path.subrange(i + 1, path.len() as int)))
    } else if !path.contains('.') || exists|i: int| leading_dot(path, i) {
        Some(false)
    } else {
        None
    }
}

/// Whether a path names a JPEG, PNG or BMP image by its extension, in any
/// case.  Where every platform agrees on the extension, the verdict is
/// `image_verdict`; on any path a `true` means such an extension stands
/// after a dot.
pub fn is_supported_image(path: &str) -> (r: bool)
    ensures
        image_verdict(path@) matches Some(v) ==> r == v,
        r ==> exists|i: int, e: Seq<char>|
            0 <= i && i + e.len() < path@.len() && path@[i] == '.' && path@.subrange(i + 1, i + 1 + e.len())
                == e && !e.contains('.') && supported_extension(e),
{
    let extension = path_extension(path);
    proof {
        if exists|i: int| extension_dot(path@, i) {
            let i = choose|i: int| extension_dot(path@, i);
            let e = extension->0;
            let j = path@.len() - 1 - e@.len();
            assert(extension_dot(path@, j));
            if i < j {
                assert(path@[j] == '.');
            } else if j < i {
                assert(path@[i] == '.');
            }
            assert(e@ == path@.subrange(i + 1, path@.len() as int));
        }
    }
    match &extension {
        Some(e) => is_supported_extension(Some(e.as_str())),
        None => false,
    }
}

/// What `str::to_lowercase` gives for a text.
pub uninterp spec fn lowercase_of(text: Seq<char>) -> Seq<char>;

/// `str::to_lowercase`: the text with every character in lower case, by the
/// Unicode tables of the standard library.  Its result is named, not stated.
#[verifier::external_body]
fn lowercase(text: &str) -> (r: String)
    ensures
        r@ == lowercase_of(text@),
{
    text.to_lowercase()
}

/// Keys in non-decreasing `text_less` order.
pub open spec fn non_decreasing(keys: Seq<Seq<char>>) -> bool {
    forall|i: int, j: int| 0 <= i < j < keys.len() ==> !text_less(#[trigger] keys[j], #[trigger] keys[i])
}

/// `out` is `paths` ordered by `keys` (`keys[i]` belongs to `paths[i]`)
/// through `idx`: `out[k]` is `paths[idx[k]]`, no path is taken twice, the
/// keys of the paths taken never go down in `text_less` order, and paths
/// with equal keys keep the order they had.
pub open spec fn ordered_by_keys(paths: Seq<Seq<char>>, keys: Seq<Seq<char>>, out: Seq<Seq<char>>, idx: Seq<int>) -> bool {
    &&& idx.len() == out.len()
    &&& out.len() == paths.len()
    &&& forall|k: int| 0 <= k < idx.len() ==> 0 <= #[trigger] idx[k] < paths.len() && out[k] == paths[idx[k]]
    &&& forall|k: int, l: int|
        0 <= k < l < idx.len() ==> {
            &&& #[trigger] idx[k] != #[trigger] idx[l]
            &&& !text_less(keys[idx[l]], keys[idx[k]])
            &&& keys[idx[k]] == keys[idx[l]] ==> idx[k] < idx[l]
        }
}

/// Orders paths by their keys, `keys[i]` being the key of `paths[i]`, and
/// keeps paths with equal keys in the order they came.
pub fn order_by_keys(paths: Vec<String>, keys: Vec<String>) -> (r: Vec<String>)
    requires
        keys@.len() == paths@.len(),
    ensures
        texts(r@).to_multiset() == texts(paths@).to_multiset(),
        exists|idx: Seq<int>| ordered_by_keys(texts(paths@), texts(keys@), texts(r@), idx),
{
    let mut sorted: Vec<String> = Vec::new();
    let mut placed: Vec<String> = Vec::new();
    let ghost mut idx: Seq<int> = Seq::empty();
    let mut i: usize = 0;
    assert(texts(sorted@) =~= texts(paths@.subrange(0, 0)));
    while i < paths.len()
        invariant
            i <= paths@.len(),
            keys@.len() == paths@.len(),
            placed@.len() == sorted@.len(),
            sorted@.len() == i,
            idx.len() == i,
            non_decreasing(texts(placed@)),
            texts(sorted@).to_multiset() == texts(paths@.subrange(0, i as int)).to_multiset(),
            forall|k: int|
                0 <= k < idx.len() ==> 0 <= #[trigger] idx[k] < i && sorted@[k]@ == paths@[idx[k]]@
                    && placed@[k]@ == keys@[idx[k]]@,
            forall|k: int, l: int|
                0 <= k < l < idx.len() ==> #[trigger] idx[k] != #[trigger] idx[l] && (placed@[k]@
                    == placed@[l]@ ==> idx[k] < idx[l]),
        decreases paths@.len() - i,
    {
        let key = keys[i].clone();
        let mut p: usize = sorted.len();
        while p > 0 && text_lt(key.as_str(), placed[p - 1].as_str())
            invariant
                p <= placed@.len(),
                placed@.len() == sorted@.len(),
                forall|k: int| p <= k < placed@.len() ==> text_less(key@, #[trigger] placed@[k]@),
            decreases p,
        {
            p = p - 1;
        }
        let ghost old_keys = texts(placed@);
        let ghost old_placed = placed@;
        let ghost old_sorted = sorted@;
        let ghost old_idx = idx;
        proof {
            if p > 0 {
                crate::text::lemma_text_less_total(key@, placed@[p - 1]@);
            }
        }
        placed.insert(p, key);
        sorted.insert(p, paths[i].clone());
        proof {
            idx = old_idx.insert(p as int, i as int);
            assert(texts(placed@) =~= old_keys.insert(p as int, key@));
            assert forall|a: int, b: int| 0 <= a < b < texts(placed@).len() implies !text_less(
                #[trigger] texts(placed@)[b],
                #[trigger] texts(placed@)[a],
            ) by {
                if a < p && b == p {
                    if text_less(key@, old_keys[a]) {
                        if a < p - 1 {
                            assert(!text_less(old_keys[p - 1], old_keys[a]));
                            crate::text::lemma_text_less_total(old_keys[a], old_keys[p - 1]);
                            if old_keys[a] != old_keys[p - 1] {
                                crate::text::lemma_text_less_transitive(key@, old_keys[a], old_keys[p - 1]);
                            }
                        }
                    }
                } else if a == p && b > p {
                    crate::text::lemma_text_less_total(key@, old_keys[b - 1]);
                } else if a < p && b > p {
                    assert(!text_less(old_keys[b - 1], old_keys[a]));
                } else if a > p {
                    assert(!text_less(old_keys[b - 1], old_keys[a - 1]));
                } else {
                    assert(!text_less(old_keys[b], old_keys[a]));
                }
            }
            assert forall|k: int| 0 <= k < idx.len() implies 0 <= #[trigger] idx[k] < i + 1
                && sorted@[k]@ == paths@[idx[k]]@ && placed@[k]@ == keys@[idx[k]]@ by {
                if k < p {
                    assert(idx[k] == old_idx[k]);
                    assert(sorted@[k] == old_sorted[k]);
                    assert(placed@[k] == old_placed[k]);
                } else if k > p {
                    assert(idx[k] == old_idx[k - 1]);
                    assert(sorted@[k] == old_sorted[k - 1]);
                    assert(placed@[k] == old_placed[k - 1]);
                }
            }
            assert forall|k: int, l: int| 0 <= k < l < idx.len() implies #[trigger] idx[k] != #[trigger] idx[l]
                && (placed@[k]@ == placed@[l]@ ==> idx[k] < idx[l]) by {
                if k == p {
                    assert(placed@[l] == old_placed[l - 1]);
                    assert(text_less(key@, old_placed[l - 1]@));
                    crate::text::lemma_text_less_irreflexive(key@);
                    assert(old_idx[l - 1] < i);
                } else if l == p {
                    assert(idx[k] == old_idx[k]);
                } else if k < p && l > p {
                    assert(placed@[k] == old_placed[k]);
                    assert(placed@[l] == old_placed[l - 1]);
                    assert(old_idx[k] != old_idx[l - 1]);
                } else if k > p {
                    assert(placed@[k] == old_placed[k - 1]);
                    assert(placed@[l] == old_placed[l - 1]);
                    assert(old_idx[k - 1] != old_idx[l - 1]);
                } else {
                    assert(placed@[k] == old_placed[k]);
                    assert(placed@[l] == old_placed[l]);
                    assert(old_idx[k] != old_idx[l]);
                }
            }
            let x = paths@[i as int]@;
            let t = texts(old_sorted).insert(p as int, x);
            assert(texts(sorted@) =~= t);
            assert(t.remove(p as int) =~= texts(old_sorted));
            t.to_multiset_ensures();
            assert(t[p as int] == x);
            assert(t.contains(x));
            assert(texts(old_sorted).to_multiset() == t.to_multiset().remove(x));
            assert(t.to_multiset() =~= texts(old_sorted).to_multiset().insert(x)) by {
                broadcast use vstd::multiset::group_multiset_axioms;
            }
            assert(paths@.subrange(0, i + 1) =~= paths@.subrange(0, i as int).push(paths@[i as int]));
            assert(texts(paths@.subrange(0, i + 1)) =~= texts(paths@.subrange(0, i as int)).push(x));
            texts(paths@.subrange(0, i as int)).to_multiset_ensures();
        }
        i = i + 1;
    }
    assert(paths@.subrange(0, i as int) =~= paths@);
    proof {
        assert forall|k: int, l: int| 0 <= k < l < idx.len() implies {
            &&& #[trigger] idx[k] != #[trigger] idx[l]
            &&& !text_less(texts(keys@)[idx[l]], texts(keys@)[idx[k]])
            &&& texts(keys@)[idx[k]] == texts(keys@)[idx[l]] ==> idx[k] < idx[l]
        } by {
            assert(!text_less(texts(placed@)[l], texts(placed@)[k]));
        }
        assert(ordered_by_keys(texts(paths@), texts(keys@), texts(sorted@), idx));
    }
    sorted
}

/// The lower-case forms of a list of paths.
pub open spec fn lowercase_keys(paths: Seq<Seq<char>>) -> Seq<Seq<char>> {
    paths.map_values(|p: Seq<char>| lowercase_of(p))
}

/// Orders a folder listing by the lower-case form of each path, keeping
/// paths whose lower-case forms are equal in the order they came.
pub fn order_listing(paths: Vec<String>) -> (r: Vec<String>)
    ensures
        texts(r@).to_multiset() == texts(paths@).to_multiset(),
        exists|idx: Seq<int>| ordered_by_keys(texts(paths@), lowercase_keys(texts(paths@)), texts(r@), idx),
{
    let mut keys: Vec<String> = Vec::new();
    let mut i: usize = 0;
    while i < paths.len()
        invariant
            i <= paths@.len(),
            keys@.len() == i,
            forall|k: int| 0 <= k < i ==> #[trigger] keys@[k]@ == lowercase_of(paths@[k]@),
        decreases paths@.len() - i,
    {
        keys.push(lowercase(paths[i].as_str()));
        i = i + 1;
    }
    assert(texts(keys@) =~= lowercase_keys(texts(paths@)));
    order_by_keys(paths, keys)
}

} // verus!
