//! The editable wallpaper mode shown for the selected monitor, and its
//! conversion to and from a configured wallpaper mode.
use vstd::prelude::*;
use vstd::string::*;
use crate::config::{ModeView, SlideshowOrder, WallpaperMode, opt_text};
use crate::text::{
    all_decimal_digits, decimal, digit_chars, digits_value, hex_byte, hex_pair, hex_value,
    is_white_space, parse_hex_byte, parse_u64, parse_u64_spec, push_decimal, push_hex_pair, trim,
    trim_end_seq, trim_start_seq, trimmed, without_plus,
};

verus! {

/// The unit a slideshow interval is typed in.
#[derive(Clone, Copy, Debug, PartialEq, Eq, Structural)]
pub enum IntervalUnit {
    Minutes,
    Hours,
}

/// The editable state of the wallpaper form.
#[derive(Clone, Debug, PartialEq)]
pub enum WallpaperDraft {
    Current { path: Option<String> },
    Picture { path: String },
    Color { value: String },
    Slideshow {
        folder: String,
        interval_value: String,
        interval_unit: IntervalUnit,
        order: SlideshowOrder,
    },
}

/// A draft with its texts as character sequences.
pub enum DraftView {
    Current { path: Option<Seq<char>> },
    Picture { path: Seq<char> },
    Color { value: Seq<char> },
    Slideshow {
        folder: Seq<char>,
        interval_value: Seq<char>,
        interval_unit: IntervalUnit,
        order: SlideshowOrder,
    },
}

impl View for WallpaperDraft {
    type V = DraftView;

    open spec fn view(&self) -> DraftView {
        match self {
            WallpaperDraft::Current { path } => DraftView::Current { path: opt_text(*path) },
            WallpaperDraft::Picture { path } => DraftView::Picture { path: path@ },
            WallpaperDraft::Color { value } => DraftView::Color { value: value@ },
            WallpaperDraft::Slideshow { folder, interval_value, interval_unit, order } =>
                DraftView::Slideshow {
                folder: folder@,
                interval_value: interval_value@,
                interval_unit: *interval_unit,
                order: *order,
            },
        }
    }
}

/// `#RRGGBB` in upper-case hexadecimal.
pub open spec fn color_text(rgb: Seq<u8>) -> Seq<char> {
    seq!['#'] + hex_pair(rgb[0]) + hex_pair(rgb[1]) + hex_pair(rgb[2])
}

/// The draft that shows a configured mode: a slideshow interval is shown in
/// hours when it is a whole number of hours, else in whole minutes.
pub open spec fn draft_of(mode: ModeView) -> DraftView {
    match mode {
        ModeView::Picture { path } => DraftView::Picture { path },
        ModeView::Color { rgb } => DraftView::Color { value: color_text(rgb) },
        ModeView::Slideshow { folder, interval_seconds, order } => if interval_seconds % 3600 == 0 {
            DraftView::Slideshow {
                folder,
                interval_value: decimal((interval_seconds / 3600) as nat),
                interval_unit: IntervalUnit::Hours,
                order,
            }
        } else {
            DraftView::Slideshow {
                folder,
                interval_value: decimal((interval_seconds / 60) as nat),
                interval_unit: IntervalUnit::Minutes,
                order,
            }
        },
    }
}

/// Every character is ASCII.
pub open spec fn ascii_only(s: Seq<char>) -> bool {
    forall|i: int| 0 <= i < s.len() ==> (#[trigger] s[i] as int) < 128
}

/// The text after one leading `#`, if there is one.
pub open spec fn without_hash(s: Seq<char>) -> Seq<char> {
    if s.len() > 0 && s[0] == '#' {
        s.drop_first()
    } else {
        s
    }
}

/// The color a text names: after trimming and one optional `#`, six ASCII
/// hexadecimal digits that read as three bytes.
pub open spec fn parse_color_spec(value: Seq<char>) -> Option<Seq<u8>> {
    let hex = without_hash(trimmed(value));
    if hex.len() == 6 && ascii_only(hex) {
        match (
            parse_hex_byte(hex[0], hex[1]),
            parse_hex_byte(hex[2], hex[3]),
            parse_hex_byte(hex[4], hex[5]),
        ) {
            (Some(r), Some(g), Some(b)) => Some(seq![r, g, b]),
            _ => None,
        }
    } else {
        None
    }
}

/// The seconds one interval unit stands for.
pub open spec fn unit_seconds(unit: IntervalUnit) -> nat {
    match unit {
        IntervalUnit::Minutes => 60,
        IntervalUnit::Hours => 3600,
    }
}

/// The mode a draft asks to apply, or the message that says why it cannot.
pub open spec fn intent_of(draft: DraftView) -> Result<ModeView, Seq<char>> {
    match draft {
        DraftView::Current { .. } => Err("Choose Picture, Color, or Slideshow"@),
        DraftView::Picture { path } => Ok(ModeView::Picture { path }),
        DraftView::Color { value } => match parse_color_spec(value) {
            Some(rgb) => Ok(ModeView::Color { rgb }),
            None => Err("Enter a color as #RRGGBB"@),
        },
        DraftView::Slideshow { folder, interval_value, interval_unit, order } => match parse_u64_spec(
            trimmed(interval_value),
        ) {
            None => Err("Enter a whole-number interval"@),
            Some(v) => {
                let seconds = v * unit_seconds(interval_unit);
                if seconds > u64::MAX {
                    Err("The interval is too large"@)
                } else if seconds < 60 {
                    Err("The minimum interval is one minute"@)
                } else {
                    Ok(
                        ModeView::Slideshow {
                            folder,
                            interval_seconds: seconds as u64,
                            order,
                        },
                    )
                }
            },
        },
    }
}

fn parse_color(value: &str) -> (r: Option<[u8; 3]>)
    ensures
        match r {
            Some(a) => parse_color_spec(value@) == Some(a@),
            None => parse_color_spec(value@).is_none(),
        },
{
    let t = trim(value);
    let n = t.unicode_len();
    let hex = if n > 0 && t.get_char(0) == '#' {
        t.substring_char(1, n)
    } else {
        t
    };
    assert(hex@ =~= without_hash(trimmed(value@)));
    if hex.unicode_len() != 6 {
        return None;
    }
    let c0 = hex.get_char(0);
    let c1 = hex.get_char(1);
    let c2 = hex.get_char(2);
    let c3 = hex.get_char(3);
    let c4 = hex.get_char(4);
    let c5 = hex.get_char(5);
    let r = hex_byte(c0, c1);
    let g = hex_byte(c2, c3);
    let b = hex_byte(c4, c5);
    match (r, g, b) {
        (Some(r), Some(g), Some(b)) => {
            assert(ascii_only(hex@)) by {
                assert forall|i: int| 0 <= i < 6 implies (#[trigger] hex@[i] as int) < 128 by {
                    assert(hex_value(hex@[i]).is_some());
                }
            }
            let a = [r, g, b];
            assert(a@ =~= seq![r, g, b]);
            Some(a)
        },
        _ => None,
    }
}

impl WallpaperDraft {
    /// The draft that shows a configured mode.
    pub fn from_mode(mode: &WallpaperMode) -> (r: Self)
        ensures
            r@ == draft_of(mode@),
    {
        match mode {
            WallpaperMode::Picture { path } => WallpaperDraft::Picture { path: path.clone() },
            WallpaperMode::Color { rgb } => {
                let mut value = String::from_str("#");
                push_hex_pair(&mut value, rgb[0]);
                push_hex_pair(&mut value, rgb[1]);
                push_hex_pair(&mut value, rgb[2]);
                proof {
                    reveal_strlit("#");
                    assert(value@ =~= color_text(rgb@));
                }
                WallpaperDraft::Color { value }
            },
            WallpaperMode::Slideshow { folder, interval_seconds, order } => {
                let mut interval_value = String::new();
                let interval_unit = if *interval_seconds % 3600 == 0 {
                    push_decimal(&mut interval_value, *interval_seconds / 3600);
                    IntervalUnit::Hours
                } else {
                    push_decimal(&mut interval_value, *interval_seconds / 60);
                    IntervalUnit::Minutes
                };
                assert(interval_value@ =~= draft_of(mode@)->Slideshow_interval_value);
                WallpaperDraft::Slideshow {
                    folder: folder.clone(),
                    interval_value,
                    interval_unit,
                    order: *order,
                }
            },
        }
    }

    /// The mode this draft asks to apply, or why it cannot be applied.
    pub fn apply_intent(&self) -> (r: Result<WallpaperMode, String>)
        ensures
            match r {
                Ok(m) => intent_of(self@) == Ok::<ModeView, Seq<char>>(m@),
                Err(e) => intent_of(self@) == Err::<ModeView, Seq<char>>(e@),
            },
    {
        match self {
            WallpaperDraft::Current { .. } => Err(String::from_str("Choose Picture, Color, or Slideshow")),
            WallpaperDraft::Picture { path } => Ok(WallpaperMode::Picture { path: path.clone() }),
            WallpaperDraft::Color { value } => match parse_color(value.as_str()) {
                Some(rgb) => Ok(WallpaperMode::Color { rgb }),
                None => Err(String::from_str("Enter a color as #RRGGBB")),
            },
            WallpaperDraft::Slideshow { folder, interval_value, interval_unit, order } => {
                let value = match parse_u64(trim(interval_value.as_str())) {
                    Some(v) => v,
                    None => {
                        return Err(String::from_str("Enter a whole-number interval"));
                    },
                };
                let multiplier: u64 = match interval_unit {
                    IntervalUnit::Minutes => 60,
                    IntervalUnit::Hours => 3600,
                };
                let interval_seconds = match value.checked_mul(multiplier) {
                    Some(s) => s,
                    None => {
                        return Err(String::from_str("The interval is too large"));
                    },
                };
                if interval_seconds < 60 {
                    return Err(String::from_str("The minimum interval is one minute"));
                }
                Ok(
                    WallpaperMode::Slideshow {
                        folder: folder.clone(),
                        interval_seconds,
                        order: *order,
                    },
                )
            },
        }
    }

    /// The color a color draft names, if it names one.
    pub fn color_rgb(&self) -> (r: Option<[u8; 3]>)
        ensures
            match self@ {
                DraftView::Color { value } => match r {
                    Some(a) => parse_color_spec(value) == Some(a@),
                    None => parse_color_spec(value).is_none(),
                },
                _ => r.is_none(),
            },
    {
        match self {
            WallpaperDraft::Color { value } => parse_color(value.as_str()),
            _ => None,
        }
    }

    /// Whether applying this draft would change what is saved: it must ask
    /// for a mode, and that mode must differ from the saved one.
    pub fn is_applyable_against(&self, saved: Option<&WallpaperMode>) -> (r: bool)
        ensures
            r == (intent_of(self@) is Ok && match saved {
                Some(m) => m@ != intent_of(self@)->Ok_0,
                None => true,
            }),
    {
        match self.apply_intent() {
            Ok(mode) => match saved {
                Some(m) => !m.same_as(&mode),
                None => true,
            },
            Err(_) => false,
        }
    }
}

pub(crate) proof fn lemma_decimal(n: nat)
    ensures
        decimal(n).len() > 0,
        all_decimal_digits(decimal(n)),
        digits_value(decimal(n)) == n,
    decreases n,
{
    let d = (n % 10) as int;
    assert((digit_chars()[d] as int) == 48 + d) by {
        assert(('0' as int) == 48);
    }
    if n >= 10 {
        lemma_decimal(n / 10);
        let s = decimal(n);
        assert(s.drop_last() =~= decimal(n / 10));
        assert forall|i: int| 0 <= i < s.len() implies crate::text::is_decimal_digit(#[trigger] s[i]) by {
            if i < s.len() - 1 {
                assert(s[i] == decimal(n / 10)[i]);
            }
        }
        assert(s.last() == digit_chars()[d]);
        assert(digits_value(s) == digits_value(decimal(n / 10)) * 10 + ((s.last() as int) - 48) as nat);
    } else {
        let s = decimal(n);
        assert(s.drop_last() =~= Seq::<char>::empty());
        assert(digits_value(s.drop_last()) == 0);
        assert(s.last() == digit_chars()[d]);
        assert(crate::text::is_decimal_digit(s[0]));
    }
}

pub(crate) proof fn lemma_trimmed_unchanged(s: Seq<char>)
    requires
        s.len() > 0,
        !is_white_space(s[0]),
        !is_white_space(s.last()),
    ensures
        trimmed(s) == s,
{
    assert(trim_start_seq(s) == s);
    assert(trim_end_seq(s) == s);
}

proof fn lemma_hex_pair_parses(b: u8)
    ensures
        parse_hex_byte(hex_pair(b)[0], hex_pair(b)[1]) == Some(b),
        (hex_pair(b)[0] as int) < 128,
        (hex_pair(b)[1] as int) < 128,
        !is_white_space(hex_pair(b)[1]),
{
    let hi = (b / 16) as int;
    let lo = (b % 16) as int;
    assert(hex_value(digit_chars()[hi]) == Some(hi as u8));
    assert(hex_value(digit_chars()[lo]) == Some(lo as u8));
}

/// Every mode shown as a draft asks to apply that same mode again, as long
/// as a slideshow interval is a whole number of minutes, at least one.
pub proof fn lemma_draft_round_trip(mode: WallpaperMode)
    requires
        mode matches WallpaperMode::Slideshow { interval_seconds, .. } ==> interval_seconds % 60 == 0
            && interval_seconds >= 60,
    ensures
        intent_of(draft_of(mode@)) == Ok::<ModeView, Seq<char>>(mode@),
{
    match mode {
        WallpaperMode::Picture { .. } => {},
        WallpaperMode::Color { rgb } => {
            let t = color_text(rgb@);
            assert(rgb@.len() == 3);
            lemma_hex_pair_parses(rgb@[0]);
            lemma_hex_pair_parses(rgb@[1]);
            lemma_hex_pair_parses(rgb@[2]);
            assert(t.len() == 7);
            assert(t.last() == hex_pair(rgb@[2])[1]);
            lemma_trimmed_unchanged(t);
            let hex = without_hash(t);
            assert(hex =~= hex_pair(rgb@[0]) + hex_pair(rgb@[1]) + hex_pair(rgb@[2]));
            assert(ascii_only(hex));
            assert(seq![rgb@[0], rgb@[1], rgb@[2]] =~= rgb@);
        },
        WallpaperMode::Slideshow { folder, interval_seconds, order } => {
            let n: nat = if interval_seconds % 3600 == 0 {
                (interval_seconds / 3600) as nat
            } else {
                (interval_seconds / 60) as nat
            };
            lemma_decimal(n);
            let d = decimal(n);
            assert(!is_white_space(d[0]));
            assert(!is_white_space(d.last()));
            lemma_trimmed_unchanged(d);
            assert(without_plus(d) == d);
            assert(parse_u64_spec(d) == Some(n as u64));
        },
    }
}

} // verus!
