//! The decisions of the settings window and tray menu: monitor labels, the
//! interval and mode fields, and the working folder lists.

use vstd::prelude::*;
use crate::config::{Config, ConfigView, MIN_INTERVAL_SECS};
use crate::model::{CycleMode, FitMode, MonitorInfo, Orientation};
use crate::text::{chars_of, is_whitespace, push_char, views, whitespace};

verus! {

// ---------------------------------------------------------------------------
// Character scanning
// ---------------------------------------------------------------------------

/// Position of the first `c` in `s`, or `s.len()` when there is none.
pub open spec fn char_pos(s: Seq<char>, c: char) -> int
    decreases s.len(),
{
    if s.len() == 0 {
        0
    } else if s[0] == c {
        0
    } else {
        1 + char_pos(s.drop_first(), c)
    }
}

proof fn lemma_char_pos_bounds(s: Seq<char>, c: char)
    ensures
        0 <= char_pos(s, c) <= s.len(),
        char_pos(s, c) < s.len() ==> s[char_pos(s, c)] == c,
    decreases s.len(),
{
    if s.len() > 0 && s[0] != c {
        lemma_char_pos_bounds(s.drop_first(), c);
    }
}

/// `from + char_pos(v[from..], c)`.
fn find_char(v: &Vec<char>, from: usize, c: char) -> (r: usize)
    requires
        from <= v@.len(),
    ensures
        r == from + char_pos(v@.skip(from as int), c),
        r <= v@.len(),
{
    let mut i = from;
    while i < v.len() && v[i] != c
        invariant
            from <= i <= v@.len(),
            from + char_pos(v@.skip(from as int), c) == i + char_pos(v@.skip(i as int), c),
        decreases v@.len() - i,
    {
        assert(v@.skip(i as int).drop_first() =~= v@.skip(i + 1));
        i = i + 1;
    }
    if i < v.len() {
        assert(v@.skip(i as int)[0] == c);
    } else {
        assert(v@.skip(i as int).len() == 0);
    }
    i
}

/// The characters `v[a..b]` as a `String`.
fn chars_range(v: &Vec<char>, a: usize, b: usize) -> (s: String)
    requires
        a <= b <= v@.len(),
    ensures
        s@ == v@.subrange(a as int, b as int),
{
    let mut s = String::new();
    let mut i = a;
    while i < b
        invariant
            a <= i <= b,
            b <= v@.len(),
            s@ == v@.subrange(a as int, i as int),
        decreases b - i,
    {
        push_char(&mut s, v[i]);
        i = i + 1;
        assert(s@ =~= v@.subrange(a as int, i as int));
    }
    s
}

// ---------------------------------------------------------------------------
// Monitor labels
// ---------------------------------------------------------------------------

/// Characters stripped from the front of a device path when it has no
/// `#`-separated token: `\`, `?`, `.`.
pub open spec fn is_path_prefix_char(c: char) -> bool {
    c == '\\' || c == '?' || c == '.'
}

/// Number of leading path-prefix characters.
pub open spec fn prefix_len(s: Seq<char>) -> int
    decreases s.len(),
{
    if s.len() > 0 && is_path_prefix_char(s[0]) {
        1 + prefix_len(s.drop_first())
    } else {
        0
    }
}

proof fn lemma_prefix_len_bounds(s: Seq<char>)
    ensures
        0 <= prefix_len(s) <= s.len(),
    decreases s.len(),
{
    if s.len() > 0 && is_path_prefix_char(s[0]) {
        lemma_prefix_len_bounds(s.drop_first());
    }
}

/// A readable short form of a device-path id: the second `#`-separated token
/// (device paths look like `\\?\DISPLAY#DELA1B2#...`), or, when there is no
/// `#`, the id without leading `\`, `?`, `.` and cut to 24 characters.
pub open spec fn short_id_of(s: Seq<char>) -> Seq<char> {
    let a = char_pos(s, '#');
    if a < s.len() {
        let rest = s.skip(a + 1);
        rest.take(char_pos(rest, '#'))
    } else {
        let t = s.skip(prefix_len(s));
        if t.len() <= 24 {
            t
        } else {
            t.take(24)
        }
    }
}

/// The short form of a device-path id (see `short_id_of`).
pub fn short_id(id: &str) -> (r: String)
    ensures
        r@ == short_id_of(id@),
{
    let v = chars_of(id);
    let a = find_char(&v, 0, '#');
    assert(v@.skip(0) =~= v@);
    if a < v.len() {
        let b = find_char(&v, a + 1, '#');
        proof {
            lemma_char_pos_bounds(v@.skip(a + 1), '#');
        }
        let r = chars_range(&v, a + 1, b);
        assert(r@ =~= short_id_of(id@));
        r
    } else {
        let mut i: usize = 0;
        while i < v.len() && (v[i] == '\\' || v[i] == '?' || v[i] == '.')
            invariant
                i <= v@.len(),
                prefix_len(v@) == i + prefix_len(v@.skip(i as int)),
            decreases v@.len() - i,
        {
            assert(v@.skip(i as int).drop_first() =~= v@.skip(i + 1));
            i = i + 1;
        }
        proof {
            if i < v.len() {
                assert(v@.skip(i as int)[0] == v@[i as int]);
            }
        }
        let end = if v.len() - i <= 24 {
            v.len()
        } else {
            i + 24
        };
        let r = chars_range(&v, i, end);
        assert(r@ =~= short_id_of(id@));
        r
    }
}

/// The label of an orientation; a monitor whose dimensions are unknown has
/// none and is labelled "Unknown".
pub fn orientation_label(o: Option<Orientation>) -> (r: &'static str)
    ensures
        r@ == orientation_text(o),
{
    match o {
        Some(Orientation::Landscape) => "Landscape",
        Some(Orientation::Portrait) => "Portrait",
        None => "Unknown",
    }
}

/// The label of an orientation (`Unknown` when there is none).
pub open spec fn orientation_text(o: Option<Orientation>) -> Seq<char> {
    match o {
        Some(Orientation::Landscape) => "Landscape"@,
        Some(Orientation::Portrait) => "Portrait"@,
        None => "Unknown"@,
    }
}

/// `<short id> [<orientation>]`, followed by ` (unconfigured)` when the
/// monitor has no folders.
pub open spec fn monitor_label_of(id: Seq<char>, o: Option<Orientation>, unconfigured: bool) -> Seq<
    char,
> {
    short_id_of(id) + " ["@ + orientation_text(o) + "]"@ + if unconfigured {
        " (unconfigured)"@
    } else {
        Seq::empty()
    }
}

/// The settings list's label of a monitor (see `monitor_label_of`).
pub fn monitor_label(id: &str, o: Option<Orientation>, unconfigured: bool) -> (r: String)
    ensures
        r@ == monitor_label_of(id@, o, unconfigured),
{
    let mut r = short_id(id);
    r.append(" [");
    r.append(orientation_label(o));
    r.append("]");
    if unconfigured {
        r.append(" (unconfigured)");
    } else {
        assert(r@ =~= r@ + Seq::<char>::empty());
    }
    r
}

/// The labels of all monitors, monitor `i` flagged unconfigured when its
/// working folder list is empty.
pub fn monitor_labels(monitors: &[MonitorInfo], working: &Vec<Vec<String>>) -> (r: Vec<String>)
    requires
        working@.len() >= monitors@.len(),
    ensures
        r@.len() == monitors@.len(),
        forall|i: int|
            0 <= i < monitors@.len() ==> (#[trigger] r@[i])@ == monitor_label_of(
                monitors@[i].id@,
                monitors@[i].orientation,
                working@[i]@.len() == 0,
            ),
{
    let mut r: Vec<String> = Vec::new();
    let mut i: usize = 0;
    while i < monitors.len()
        invariant
            working@.len() >= monitors@.len(),
            i <= monitors@.len(),
            r@.len() == i,
            forall|k: int|
                0 <= k < i ==> (#[trigger] r@[k])@ == monitor_label_of(
                    monitors@[k].id@,
                    monitors@[k].orientation,
                    working@[k]@.len() == 0,
                ),
        decreases monitors@.len() - i,
    {
        let m = &monitors[i];
        r.push(monitor_label(m.id.as_str(), m.orientation, working[i].len() == 0));
        i = i + 1;
    }
    r
}

/// The working folder lists the settings window starts from: each monitor's
/// configured folders (none when unconfigured).
pub fn working_folders_from(monitors: &[MonitorInfo], config: &Config) -> (r: Vec<Vec<String>>)
    requires
        config@.wf(),
    ensures
        r@.len() == monitors@.len(),
        forall|i: int|
            0 <= i < monitors@.len() ==> views((#[trigger] r@[i])@) == config@.folders_of(
                monitors@[i].id@,
            ),
{
    let mut r: Vec<Vec<String>> = Vec::new();
    let mut i: usize = 0;
    while i < monitors.len()
        invariant
            config@.wf(),
            i <= monitors@.len(),
            r@.len() == i,
            forall|k: int|
                0 <= k < i ==> views((#[trigger] r@[k])@) == config@.folders_of(monitors@[k].id@),
        decreases monitors@.len() - i,
    {
        r.push(config.folders_for(&monitors[i].id));
        i = i + 1;
    }
    r
}

/// The tray's pause item reads "Resume" while paused, else "Pause".
pub fn pause_menu_label(paused: bool) -> (r: &'static str)
    ensures
        r@ == if paused {
            "Resume"@
        } else {
            "Pause"@
        },
{
    if paused {
        "Resume"
    } else {
        "Pause"
    }
}

// ---------------------------------------------------------------------------
// Global settings fields
// ---------------------------------------------------------------------------

/// The interval shown in the settings window, in whole minutes (rounded
/// down), at least 1.
pub open spec fn minutes_shown(interval_secs: u64) -> u64 {
    if interval_secs / 60 >= 1 {
        (interval_secs / 60) as u64
    } else {
        1
    }
}

/// See `minutes_shown`.
pub fn interval_minutes_for_display(interval_secs: u64) -> (m: u64)
    ensures
        m == minutes_shown(interval_secs),
{
    let m = interval_secs / 60;
    if m >= 1 {
        m
    } else {
        1
    }
}

/// The interval in seconds for a number of minutes typed in: at least one
/// minute, and at least `MIN_INTERVAL_SECS`.
pub open spec fn interval_secs_of_minutes(minutes: u64) -> int {
    let m = if minutes >= 1 {
        minutes as int
    } else {
        1
    };
    if m * 60 >= MIN_INTERVAL_SECS {
        m * 60
    } else {
        MIN_INTERVAL_SECS as int
    }
}

/// See `interval_secs_of_minutes`; the product must fit a `u64`.
pub fn interval_secs_from_minutes(minutes: u64) -> (s: u64)
    requires
        minutes <= u64::MAX / 60,
    ensures
        s == interval_secs_of_minutes(minutes),
{
    let m = if minutes >= 1 {
        minutes
    } else {
        1
    };
    let secs = m * 60;
    if secs >= MIN_INTERVAL_SECS {
        secs
    } else {
        MIN_INTERVAL_SECS
    }
}

/// Law: an interval of whole minutes (at least one) shown in the settings
/// window and read back unchanged gives the same interval.
pub proof fn law_interval_field_round_trip(interval_secs: u64)
    requires
        interval_secs >= 60,
        interval_secs % 60 == 0,
    ensures
        interval_secs_of_minutes(minutes_shown(interval_secs)) == interval_secs,
{
    let m = interval_secs / 60;
    assert(m >= 1);
    assert(m * 60 == interval_secs) by (nonlinear_arith)
        requires
            m == interval_secs / 60,
            interval_secs % 60 == 0,
    ;
}

/// An ASCII decimal digit.
pub open spec fn is_decimal_digit(c: char) -> bool {
    '0' <= c <= '9'
}

/// The value of a sequence of decimal digits (0 for none).
pub open spec fn decimal_value(digits: Seq<char>) -> nat
    decreases digits.len(),
{
    if digits.len() == 0 {
        0
    } else {
        decimal_value(digits.drop_last()) * 10 + ((digits.last() as int) - ('0' as int)) as nat
    }
}

/// The text without a leading `+`, if it has one.
pub open spec fn sign_stripped(s: Seq<char>) -> Seq<char> {
    if s.len() > 0 && s[0] == '+' {
        s.drop_first()
    } else {
        s
    }
}

/// Every character is a decimal digit.
pub open spec fn all_decimal_digits(t: Seq<char>) -> bool {
    forall|i: int| 0 <= i < t.len() ==> is_decimal_digit(#[trigger] t[i])
}

/// What `str::parse::<u64>` makes of a text, as `u64::from_str_radix`
/// documents it: an optional `+` followed by one or more decimal digits and
/// nothing else, whose value fits a `u64`; anything else (a sign alone,
/// white space, `_`, `-`, overflow) is an error, here `None`.
pub open spec fn parsed_u64(s: Seq<char>) -> Option<u64> {
    let digits = sign_stripped(s);
    if digits.len() > 0 && all_decimal_digits(digits) && decimal_value(digits) <= u64::MAX {
        Some(decimal_value(digits) as u64)
    } else {
        None
    }
}

/// A longer run of digits has at least the value of its prefix.
proof fn lemma_decimal_value_prefix(t: Seq<char>, k: int)
    requires
        0 <= k <= t.len(),
        all_decimal_digits(t),
    ensures
        decimal_value(t.take(k)) <= decimal_value(t),
    decreases t.len(),
{
    if k < t.len() {
        let u = t.drop_last();
        assert forall|i: int| 0 <= i < u.len() implies is_decimal_digit(#[trigger] u[i]) by {
            assert(u[i] == t[i]);
        }
        lemma_decimal_value_prefix(u, k);
        assert(u.take(k) =~= t.take(k));
        assert(is_decimal_digit(t[t.len() - 1]));
    } else {
        assert(t.take(k) =~= t);
    }
}

/// Parse a text as `str::parse::<u64>` does (see `parsed_u64`).
fn parse_u64(s: &str) -> (r: Option<u64>)
    ensures
        r == parsed_u64(s@),
{
    let v = chars_of(s);
    let start: usize = if v.len() > 0 && v[0] == '+' {
        1
    } else {
        0
    };
    let ghost digits = s@.skip(start as int);
    assert(digits =~= sign_stripped(s@));
    if start >= v.len() {
        return None;
    }
    let mut acc: u64 = 0;
    let mut i: usize = start;
    while i < v.len()
        invariant
            v@ == s@,
            digits == s@.skip(start as int),
            digits == sign_stripped(s@),
            start <= i <= v@.len(),
            all_decimal_digits(digits.take(i - start)),
            acc == decimal_value(digits.take(i - start)),
        decreases v@.len() - i,
    {
        let c = v[i];
        assert(digits[i - start] == c);
        if !('0' <= c && c <= '9') {
            assert(!all_decimal_digits(digits));
            return None;
        }
        let d = (c as u32 - '0' as u32) as u64;
        let ghost prefix = digits.take(i - start);
        let ghost next = digits.take(i + 1 - start);
        assert(next.drop_last() =~= prefix);
        assert(next.last() == c);
        assert(decimal_value(next) == acc * 10 + d);
        assert(all_decimal_digits(next)) by {
            assert forall|k: int| 0 <= k < next.len() implies is_decimal_digit(#[trigger] next[k]) by {
                if k < prefix.len() {
                    assert(next[k] == prefix[k]);
                }
            }
        }
        if acc > (u64::MAX - d) / 10 {
            assert(acc * 10 + d > u64::MAX) by (nonlinear_arith)
                requires
                    acc > (u64::MAX - d) / 10,
                    d <= 9,
            ;
            proof {
                if all_decimal_digits(digits) {
                    lemma_decimal_value_prefix(digits, i + 1 - start);
                }
            }
            return None;
        }
        assert(acc * 10 + d <= u64::MAX) by (nonlinear_arith)
            requires
                acc <= (u64::MAX - d) / 10,
                d <= 9,
        ;
        acc = acc * 10 + d;
        i = i + 1;
    }
    assert(digits.take(digits.len() as int) =~= digits);
    Some(acc)
}

/// Number of leading white-space characters.
pub open spec fn leading_ws(s: Seq<char>) -> int
    decreases s.len(),
{
    if s.len() > 0 && whitespace(s[0]) {
        1 + leading_ws(s.drop_first())
    } else {
        0
    }
}

/// Number of trailing white-space characters.
pub open spec fn trailing_ws(s: Seq<char>) -> int
    decreases s.len(),
{
    if s.len() > 0 && whitespace(s.last()) {
        1 + trailing_ws(s.drop_last())
    } else {
        0
    }
}

proof fn lemma_ws_bounds(s: Seq<char>)
    ensures
        0 <= leading_ws(s) <= s.len(),
        0 <= trailing_ws(s) <= s.len(),
    decreases s.len(),
{
    if s.len() > 0 {
        lemma_ws_bounds(s.drop_first());
        lemma_ws_bounds(s.drop_last());
    }
}

/// The text with white space removed from both ends (`str::trim`).
pub open spec fn trimmed(s: Seq<char>) -> Seq<char> {
    let t = s.skip(leading_ws(s));
    t.take(t.len() - trailing_ws(t))
}

/// `str::trim`, as a `String`.
pub fn trim(s: &str) -> (r: String)
    ensures
        r@ == trimmed(s@),
{
    let v = chars_of(s);
    let mut a: usize = 0;
    assert(v@.skip(0) =~= v@);
    while a < v.len() && is_whitespace(v[a])
        invariant
            v@ == s@,
            a <= v@.len(),
            leading_ws(v@) == a + leading_ws(v@.skip(a as int)),
        decreases v@.len() - a,
    {
        assert(v@.skip(a as int).drop_first() =~= v@.skip(a + 1));
        a = a + 1;
    }
    proof {
        if a < v.len() {
            assert(v@.skip(a as int)[0] == v@[a as int]);
        }
    }
    let ghost t = v@.skip(a as int);
    let mut b: usize = v.len();
    assert(t.take(t.len() as int) =~= t);
    while b > a && is_whitespace(v[b - 1])
        invariant
            t == v@.skip(a as int),
            a <= b <= v@.len(),
            trailing_ws(t) == (v@.len() - b) + trailing_ws(t.take(b - a)),
        decreases b,
    {
        assert(t.take(b - a).drop_last() =~= t.take(b - 1 - a));
        assert(t.take(b - a).last() == v@[b - 1]);
        b = b - 1;
    }
    proof {
        if b > a {
            assert(t.take(b - a).last() == v@[b - 1]);
        }
        lemma_ws_bounds(t.take(b - a));
    }
    let r = chars_range(&v, a, b);
    assert(r@ =~= trimmed(s@));
    r
}

/// The interval typed in the settings window, in seconds: the trimmed text
/// read as a number of minutes (0 when it is not one), at least one minute
/// and at least `MIN_INTERVAL_SECS`.  `None` when the minutes times 60
/// overflow a `u64`.
pub fn parse_interval_minutes(text: &str) -> (r: Option<u64>)
    ensures
        ({
            let minutes = match parsed_u64(trimmed(text@)) {
                Some(m) => m,
                None => 0,
            };
            if minutes <= u64::MAX / 60 {
                r == Some(interval_secs_of_minutes(minutes) as u64)
            } else {
                r is None
            }
        }),
{
    let t = trim(text);
    let minutes = match parse_u64(t.as_str()) {
        Some(m) => m,
        None => 0,
    };
    if minutes <= u64::MAX / 60 {
        Some(interval_secs_from_minutes(minutes))
    } else {
        None
    }
}

/// Position of a cycle mode in the settings combo box.
pub fn cycle_mode_index(mode: CycleMode) -> (i: usize)
    ensures
        i == match mode {
            CycleMode::Sequential => 0usize,
            CycleMode::Shuffle => 1usize,
            CycleMode::PureRandom => 2usize,
        },
{
    match mode {
        CycleMode::Sequential => 0,
        CycleMode::Shuffle => 1,
        CycleMode::PureRandom => 2,
    }
}

/// The cycle mode selected in the combo box (Sequential when nothing, or
/// an unknown position, is selected).
pub fn cycle_mode_from_selection(sel: Option<usize>) -> (mode: CycleMode)
    ensures
        mode == match sel {
            Some(1) => CycleMode::Shuffle,
            Some(2) => CycleMode::PureRandom,
            _ => CycleMode::Sequential,
        },
{
    match sel {
        Some(1) => CycleMode::Shuffle,
        Some(2) => CycleMode::PureRandom,
        _ => CycleMode::Sequential,
    }
}

/// Position of a fit mode in the settings combo box.
pub fn fit_mode_index(fit: FitMode) -> (i: usize)
    ensures
        i == match fit {
            FitMode::Fill => 0usize,
            FitMode::Fit => 1usize,
            FitMode::Stretch => 2usize,
            FitMode::Center => 3usize,
            FitMode::Tile => 4usize,
        },
{
    match fit {
        FitMode::Fill => 0,
        FitMode::Fit => 1,
        FitMode::Stretch => 2,
        FitMode::Center => 3,
        FitMode::Tile => 4,
    }
}

/// The fit mode selected in the combo box (Fill when nothing, or an
/// unknown position, is selected).
pub fn fit_mode_from_selection(sel: Option<usize>) -> (fit: FitMode)
    ensures
        fit == match sel {
            Some(1) => FitMode::Fit,
            Some(2) => FitMode::Stretch,
            Some(3) => FitMode::Center,
            Some(4) => FitMode::Tile,
            _ => FitMode::Fill,
        },
{
    match sel {
        Some(1) => FitMode::Fit,
        Some(2) => FitMode::Stretch,
        Some(3) => FitMode::Center,
        Some(4) => FitMode::Tile,
        _ => FitMode::Fill,
    }
}

// ---------------------------------------------------------------------------
// Working folder lists
// ---------------------------------------------------------------------------

/// Add `path` to a monitor's folder list unless it is already there.
pub fn add_folder(folders: &mut Vec<String>, path: String)
    ensures
        views(old(folders)@).contains(path@) ==> final(folders)@ == old(folders)@,
        !views(old(folders)@).contains(path@) ==> views(final(folders)@) == views(
            old(folders)@,
        ).push(path@),
{
    let mut i: usize = 0;
    while i < folders.len()
        invariant
            i <= folders@.len(),
            forall|k: int| 0 <= k < i ==> folders@[k]@ != path@,
        decreases folders@.len() - i,
    {
        if folders[i] == path {
            assert(views(folders@)[i as int] == path@);
            return;
        }
        i = i + 1;
    }
    let ghost before = folders@;
    assert(!views(before).contains(path@)) by {
        if views(before).contains(path@) {
            let k = choose|k: int| 0 <= k < views(before).len() && views(before)[k] == path@;
            assert(before[k]@ == path@);
        }
    }
    folders.push(path);
    assert(views(folders@) =~= views(before).push(path@));
}

/// Remove the folder at `index` from a monitor's list; an index out of range
/// removes nothing.
pub fn remove_folder(folders: &mut Vec<String>, index: usize)
    ensures
        index < old(folders)@.len() ==> final(folders)@ == old(folders)@.remove(index as int),
        index >= old(folders)@.len() ==> final(folders)@ == old(folders)@,
{
    if index < folders.len() {
        folders.remove(index);
    }
}

} // verus!
