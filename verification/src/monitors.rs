//! The decisions behind live monitor enumeration: dimensions from the shell's
//! rectangle, the display-adapter fallback table, and the three-step policy
//! that turns them into a `MonitorInfo`.

use vstd::prelude::*;
use crate::model::{MonitorInfo, Orientation, orientation_from_dims, orientation_of};
use crate::playlist::opt_view;
use crate::wide::{lemma_utf16_encode_injective, lemma_utf16_encode_len, lemma_utf16_encode_nonzero, utf16_encode};
use crate::text::{all_whitespace, is_blank, lowercase, to_lowercase};

verus! {

/// The first entry of the fallback table whose path equals `path` after case
/// folding, as its (width, height).
pub open spec fn fallback_dims(path: Seq<char>, table: Seq<(String, u32, u32)>) -> Option<(u32, u32)>
    decreases table.len(),
{
    if table.len() == 0 {
        None
    } else if lowercase(table[0].0@) == lowercase(path) {
        Some((table[0].1, table[0].2))
    } else {
        fallback_dims(path, table.drop_first())
    }
}

/// Case-insensitive lookup of `device_path` in the adapter fallback table:
/// the (width, height) of the first matching entry, if any.
pub fn match_fallback_dims(device_path: &str, table: &[(String, u32, u32)]) -> (r: Option<(u32, u32)>)
    ensures
        r == fallback_dims(device_path@, table@),
{
    let path_lower = to_lowercase(device_path);
    let mut i: usize = 0;
    assert(table@.skip(0) =~= table@);
    while i < table.len()
        invariant
            i <= table@.len(),
            path_lower@ == lowercase(device_path@),
            fallback_dims(device_path@, table@) == fallback_dims(device_path@, table@.skip(i as int)),
        decreases table@.len() - i,
    {
        let entry_lower = to_lowercase(table[i].0.as_str());
        assert(table@.skip(i as int)[0] == table@[i as int]);
        if entry_lower == path_lower {
            return Some((table[i].1, table[i].2));
        }
        assert(table@.skip(i as int).drop_first() =~= table@.skip(i + 1));
        i = i + 1;
    }
    None
}

/// The monitor that the three-step policy makes of an id and its dimensions:
/// 1. primary dimensions known: available, with them;
/// 2. else a fallback-table match: available, with the recovered ones;
/// 3. else unavailable, 0 x 0, no orientation.
/// An available monitor's orientation is derived from its dimensions.
pub open spec fn monitor_from(
    id: Seq<char>,
    primary: Option<(u32, u32)>,
    table: Seq<(String, u32, u32)>,
    mi: MonitorInfo,
) -> bool {
    let dims = match primary {
        Some(d) => Some(d),
        None => fallback_dims(id, table),
    };
    &&& mi.id@ == id
    &&& match dims {
        Some((w, h)) => {
            &&& mi.available
            &&& mi.width == w
            &&& mi.height == h
            &&& mi.orientation == Some(orientation_of(w, h))
        },
        None => {
            &&& !mi.available
            &&& mi.width == 0
            &&& mi.height == 0
            &&& mi.orientation is None
        },
    }
}

/// Build a `MonitorInfo` from a device path, optional primary dimensions and
/// the fallback table (see `monitor_from`).  `None` only when the path is
/// empty or white space (an undecodable id); an unavailable monitor is still
/// returned.
pub fn build_monitor_info(
    device_path: String,
    primary_dims: Option<(u32, u32)>,
    fallback: &[(String, u32, u32)],
) -> (r: Option<MonitorInfo>)
    ensures
        all_whitespace(device_path@) ==> r is None,
        !all_whitespace(device_path@) ==> (r matches Some(mi) && monitor_from(
            device_path@,
            primary_dims,
            fallback@,
            mi,
        )),
{
    if is_blank(device_path.as_str()) {
        return None;
    }
    let (width, height, available) = match primary_dims {
        Some((w, h)) => (w, h, true),
        None => match match_fallback_dims(device_path.as_str(), fallback) {
            Some((w, h)) => (w, h, true),
            None => (0, 0, false),
        },
    };
    let orientation = if available {
        Some(orientation_from_dims(width, height))
    } else {
        None
    };
    Some(MonitorInfo { id: device_path, width, height, orientation, available })
}

/// `|a - b|` of two coordinates whose difference fits an `i32`.
pub open spec fn span(a: i32, b: i32) -> int {
    if a >= b {
        a - b
    } else {
        b - a
    }
}

/// Width and height of the shell's monitor rectangle, as
/// `(right - left).unsigned_abs()` and `(bottom - top).unsigned_abs()`; a
/// rectangle of zero width or height (power save, virtual or buggy driver)
/// gives `None`.  The differences must fit an `i32`, as `i32` subtraction
/// demands.
pub fn dims_from_rect(left: i32, top: i32, right: i32, bottom: i32) -> (r: Option<(u32, u32)>)
    requires
        i32::MIN <= right - left <= i32::MAX,
        i32::MIN <= bottom - top <= i32::MAX,
    ensures
        r matches Some((w, h)) ==> w == span(right, left) && h == span(bottom, top),
        r is Some <==> (span(right, left) > 0 && span(bottom, top) > 0),
{
    let dx = right - left;
    let dy = bottom - top;
    let w: u32 = if dx >= 0 {
        dx as u32
    } else {
        (0i64 - dx as i64) as u32
    };
    let h: u32 = if dy >= 0 {
        dy as u32
    } else {
        (0i64 - dy as i64) as u32
    };
    if w > 0 && h > 0 {
        Some((w, h))
    } else {
        None
    }
}

/// The display-adapter state flag `DISPLAY_DEVICE_ACTIVE`.
pub const DISPLAY_DEVICE_ACTIVE: u32 = 1;

/// Whether an adapter's state flags mark it active.
pub fn adapter_is_active(state_flags: u32) -> (r: bool)
    ensures
        r == (state_flags & DISPLAY_DEVICE_ACTIVE != 0),
{
    state_flags & DISPLAY_DEVICE_ACTIVE != 0
}

/// Length of the text in a NUL-terminated UTF-16 buffer: the position of
/// the first 0 unit, or the whole buffer when there is none.
pub fn nul_terminated_len(units: &[u16]) -> (n: usize)
    ensures
        n <= units@.len(),
        forall|k: int| 0 <= k < n ==> units@[k] != 0,
        n < units@.len() ==> units@[n as int] == 0,
{
    let mut i: usize = 0;
    while i < units.len() && units[i] != 0
        invariant
            i <= units@.len(),
            forall|k: int| 0 <= k < i ==> units@[k] != 0,
        decreases units@.len() - i,
    {
        i = i + 1;
    }
    i
}

/// `units` is the UTF-16 encoding of some text.
pub open spec fn is_utf16(units: Seq<u16>) -> bool {
    exists|t: Seq<char>| #[trigger] utf16_encode(t) == units
}

/// `String::from_utf16` on the first `n` units: the text whose UTF-16
/// encoding they are, or `None` when they are not valid UTF-16 (an unpaired
/// surrogate).
#[verifier::external_body]
fn decode_utf16_prefix(units: &[u16], n: usize) -> (r: Option<String>)
    requires
        n <= units@.len(),
    ensures
        match r {
            Some(s) => utf16_encode(s@) == units@.take(n as int),
            None => !is_utf16(units@.take(n as int)),
        },
{
    String::from_utf16(&units[..n]).ok()
}

/// `r` is the device path held in the UTF-16 buffer `units`: the text
/// before the first 0 unit, `None` when that is not valid UTF-16 or is
/// empty.
pub open spec fn device_path_of(units: Seq<u16>, r: Option<Seq<char>>) -> bool {
    let text = units.take(first_nul(units));
    match r {
        Some(p) => utf16_encode(p) == text && p.len() > 0,
        None => !is_utf16(text) || text.len() == 0,
    }
}

/// The device-interface path held in a NUL-terminated UTF-16 buffer (see
/// `device_path_of`).
pub fn device_path_from_units(units: &[u16]) -> (r: Option<String>)
    ensures
        device_path_of(units@, opt_view(r)),
{
    let n = nul_terminated_len(units);
    proof {
        lemma_first_nul(units@, n as int);
    }
    match decode_utf16_prefix(units, n) {
        Some(s) => if !s.as_str().is_empty() {
            Some(s)
        } else {
            assert(utf16_encode(s@) =~= Seq::<u16>::empty());
            None
        },
        None => None,
    }
}

/// Position of the first 0 unit, or the length when there is none.
pub open spec fn first_nul(units: Seq<u16>) -> int
    decreases units.len(),
{
    if units.len() == 0 {
        0
    } else if units[0] == 0 {
        0
    } else {
        1 + first_nul(units.drop_first())
    }
}

proof fn lemma_first_nul(units: Seq<u16>, n: int)
    requires
        0 <= n <= units.len(),
        forall|k: int| 0 <= k < n ==> units[k] != 0,
        n < units.len() ==> units[n] == 0,
    ensures
        first_nul(units) == n,
    decreases units.len(),
{
    if units.len() > 0 && n > 0 {
        lemma_first_nul(units.drop_first(), n - 1);
    }
}


/// Law: a non-empty id without U+0000, written as a NUL-terminated UTF-16
/// string (`to_wide`), reads back as the same id (`device_path_from_units`).
pub proof fn law_wide_id_reads_back(id: Seq<char>, r: Option<Seq<char>>)
    requires
        id.len() > 0,
        !id.contains('\0'),
        device_path_of(utf16_encode(id).push(0u16), r),
    ensures
        r == Some(id),
{
    let e = utf16_encode(id);
    let units = e.push(0u16);
    lemma_utf16_encode_nonzero(id);
    lemma_first_nul(units, e.len() as int);
    assert(units.take(e.len() as int) =~= e);
    match r {
        Some(p) => {
            lemma_utf16_encode_injective(p, id);
        },
        None => {
            assert(is_utf16(e));
            lemma_utf16_encode_len(id);
        },
    }
}

/// Law: the fallback lookup is case-insensitive and takes the first match:
/// when it gives dimensions, they are those of the first table entry whose
/// path equals the device path after case folding (no entry before it
/// matches); when it gives none, no entry matches.
pub proof fn law_fallback_lookup_first_case_insensitive_match(
    path: Seq<char>,
    table: Seq<(String, u32, u32)>,
)
    ensures
        match fallback_dims(path, table) {
            Some((w, h)) => exists|i: int|
                0 <= i < table.len() && lowercase((#[trigger] table[i]).0@) == lowercase(path)
                    && table[i].1 == w && table[i].2 == h && forall|j: int|
                    0 <= j < i ==> lowercase(table[j].0@) != lowercase(path),
            None => forall|i: int|
                0 <= i < table.len() ==> lowercase((#[trigger] table[i]).0@) != lowercase(path),
        },
    decreases table.len(),
{
    if table.len() > 0 {
        let t = table.drop_first();
        law_fallback_lookup_first_case_insensitive_match(path, t);
        if lowercase(table[0].0@) == lowercase(path) {
            assert(lowercase(table[0].0@) == lowercase(path));
        } else {
            match fallback_dims(path, t) {
                Some((w, h)) => {
                    let i = choose|i: int|
                        0 <= i < t.len() && lowercase((#[trigger] t[i]).0@) == lowercase(path)
                            && t[i].1 == w && t[i].2 == h && forall|j: int|
                            0 <= j < i ==> lowercase(t[j].0@) != lowercase(path);
                    assert(table[i + 1] == t[i]);
                    assert forall|j: int| 0 <= j < i + 1 implies lowercase(table[j].0@) != lowercase(
                        path,
                    ) by {
                        if j > 0 {
                            assert(table[j] == t[j - 1]);
                        }
                    }
                },
                None => {
                    assert forall|i: int| 0 <= i < table.len() implies lowercase(
                        (#[trigger] table[i]).0@,
                    ) != lowercase(path) by {
                        if i > 0 {
                            assert(table[i] == t[i - 1]);
                        }
                    }
                },
            }
        }
    }
}

} // verus!
