//! Per-monitor image playlist: the sorted image list, a cursor and the
//! current shuffle permutation.

use rand::rngs::StdRng;
use vstd::prelude::*;
use crate::model::CycleMode;
use crate::random::{drew, random_index, shuffle_indices};
use crate::sorting::{is_stable_order, lemma_stable_order_unique, stable_order};
use crate::text::{chars_eq, chars_of, lowercase, to_lowercase, views};

verus! {

// ---------------------------------------------------------------------------
// Supported image files
// ---------------------------------------------------------------------------

/// The supported image extensions after case folding: jpg, jpeg, png, bmp
/// (webp and everything else are ignored).
pub open spec fn supported_lowercase_extension(e: Seq<char>) -> bool {
    ||| e == seq!['j', 'p', 'g']
    ||| e == seq!['j', 'p', 'e', 'g']
    ||| e == seq!['p', 'n', 'g']
    ||| e == seq!['b', 'm', 'p']
}

/// An extension is supported when its lower-case form is one of the
/// supported ones (so `JPG`, `Png`, `BMP` are accepted).
pub open spec fn supported_extension(e: Seq<char>) -> bool {
    supported_lowercase_extension(lowercase(e))
}

fn lit3(a: char, b: char, c: char) -> (v: Vec<char>)
    ensures
        v@ == seq![a, b, c],
{
    let mut v: Vec<char> = Vec::new();
    v.push(a);
    v.push(b);
    v.push(c);
    assert(v@ =~= seq![a, b, c]);
    v
}

/// Whether an extension already in lower case is one of jpg, jpeg, png,
/// bmp.
pub fn lowercase_extension_is_supported(lower: &str) -> (r: bool)
    ensures
        r == supported_lowercase_extension(lower@),
{
    let l = chars_of(lower);
    let mut jpeg = lit3('j', 'p', 'e');
    jpeg.push('g');
    assert(jpeg@ =~= seq!['j', 'p', 'e', 'g']);
    chars_eq(&l, &lit3('j', 'p', 'g')) || chars_eq(&l, &jpeg) || chars_eq(&l, &lit3('p', 'n', 'g'))
        || chars_eq(&l, &lit3('b', 'm', 'p'))
}

/// Whether a file extension (without the dot) names a supported image type,
/// case-insensitively.
pub fn extension_is_supported(ext: &str) -> (r: bool)
    ensures
        r == supported_extension(ext@),
{
    let lower = to_lowercase(ext);
    lowercase_extension_is_supported(lower.as_str())
}

/// `t` occurs in `s` starting at position `i`.
pub open spec fn occurs_at(s: Seq<char>, t: Seq<char>, i: int) -> bool {
    &&& 0 <= i
    &&& i + t.len() <= s.len()
    &&& s.subrange(i, i + t.len()) == t
}

/// The text after the last `/` (all of it when there is none).
pub open spec fn last_component(s: Seq<char>) -> Seq<char>
    decreases s.len(),
{
    if s.len() == 0 {
        s
    } else if s.last() == '/' {
        Seq::empty()
    } else {
        last_component(s.drop_last()).push(s.last())
    }
}

/// The text after the last `.` (all of it when there is none).
pub open spec fn after_last_dot(s: Seq<char>) -> Seq<char>
    decreases s.len(),
{
    if s.len() == 0 {
        s
    } else if s.last() == '.' {
        Seq::empty()
    } else {
        after_last_dot(s.drop_last()).push(s.last())
    }
}

/// A path separator on some platform: `/` everywhere, `\` on Windows.
pub open spec fn is_separator_char(c: char) -> bool {
    c == '/' || c == '\\'
}

/// The text after the last `/` or `\` (all of it when there is none).
pub open spec fn after_last_separator(s: Seq<char>) -> Seq<char>
    decreases s.len(),
{
    if s.len() == 0 {
        s
    } else if is_separator_char(s.last()) {
        Seq::empty()
    } else {
        after_last_separator(s.drop_last()).push(s.last())
    }
}

/// A path whose last piece (after the last `/` or `\`) is a plain name
/// every platform finds as its final component or at the end of it: the
/// path does not start with two separators (no Windows UNC, device or
/// verbatim prefix), and the piece is not empty, `.` or `..`, and holds no
/// `:` (no Windows drive prefix).  On Windows the final component is that
/// piece; where `\` is no separator it is the text after the last `/`,
/// which ends with the piece.
pub open spec fn clean_tail(path: Seq<char>) -> bool {
    let n = after_last_separator(path);
    &&& !(path.len() >= 2 && is_separator_char(path[0]) && is_separator_char(path[1]))
    &&& n.len() > 0
    &&& !n.contains(':')
    &&& n != seq!['.']
    &&& n != seq!['.', '.']
}

/// The name has a `.` after its first character.
pub open spec fn has_inner_dot(n: Seq<char>) -> bool {
    exists|i: int| 1 <= i < n.len() && n[i] == '.'
}

/// Every platform finds the same extension: that of the path's last piece.
/// So it is when the path has a clean tail and either no `\` at all, or a
/// last piece with a `.` after its first character (the last `.` of the
/// final component, wherever that starts, is then the piece's).
pub open spec fn extension_settled(path: Seq<char>) -> bool {
    clean_tail(path) && (!path.contains('\\') || has_inner_dot(after_last_separator(path)))
}

/// The extension of a file name as `Path::extension` documents it: none
/// when the name has no `.`, none when its only `.` is the first
/// character, else the text after the final `.`.
pub open spec fn extension_of_name(n: Seq<char>) -> Option<Seq<char>> {
    if !n.contains('.') {
        None
    } else if n[0] == '.' && !n.drop_first().contains('.') {
        None
    } else {
        Some(after_last_dot(n))
    }
}

/// What `Path::extension` is documented to give, on every platform: nothing
/// when the path has no `.`; otherwise, when there is an extension, a piece
/// of the path right after a `.` that holds no `.` itself; and, where every
/// platform agrees (`extension_settled`), exactly the extension of the
/// path's last piece.
pub open spec fn extension_fits(path: Seq<char>, ext: Option<Seq<char>>) -> bool {
    &&& !path.contains('.') ==> ext is None
    &&& ext matches Some(e) ==> !e.contains('.') && exists|i: int|
        1 <= i && path[i - 1] == '.' && #[trigger] occurs_at(path, e, i)
    &&& extension_settled(path) ==> ext == extension_of_name(after_last_separator(path))
}

/// What `Path::file_name` is documented to give, on every platform: when
/// there is a final component, a piece of the path; for a path with a
/// clean tail, the text after its last separator, which is the text after
/// its last `/` or after its last `\` depending on whether the platform
/// separates at `\` (the two agree when the path has no `\`).
pub open spec fn file_name_fits(path: Seq<char>, name: Option<Seq<char>>) -> bool {
    &&& name matches Some(n) ==> exists|i: int| #[trigger] occurs_at(path, n, i)
    &&& clean_tail(path) ==> (name == Some(after_last_separator(path)) || name == Some(
        last_component(path),
    ))
}

/// `std::path::Path::extension` of a path, as text.  Where the final
/// component starts depends on the platform's separators and prefixes; what
/// is claimed holds on every platform.
#[verifier::external_body]
fn path_extension(path: &str) -> (r: Option<String>)
    ensures
        extension_fits(path@, opt_view(r)),
{
    std::path::Path::new(path).extension().map(|e| e.to_string_lossy().into_owned())
}

/// `std::path::Path::file_name` of a path, as text.  Where the final
/// component starts depends on the platform's separators and prefixes; what
/// is claimed holds on every platform.
#[verifier::external_body]
fn path_file_name(path: &str) -> (r: Option<String>)
    ensures
        file_name_fits(path@, opt_view(r)),
{
    std::path::Path::new(path).file_name().map(|n| n.to_string_lossy().into_owned())
}

/// Whether the path's extension (as `Path::extension` finds it) is a
/// supported image extension, case-insensitively; a path without an
/// extension is not supported.
pub fn is_supported_extension(path: &str) -> (r: bool)
    ensures
        extension_settled(path@) ==> r == match extension_of_name(after_last_separator(path@)) {
            Some(e) => supported_extension(e),
            None => false,
        },
        r ==> exists|e: Seq<char>|
            #![trigger supported_extension(e)]
            extension_fits(path@, Some(e)) && supported_extension(e),
        !path@.contains('.') ==> !r,
{
    match path_extension(path) {
        Some(e) => extension_is_supported(e.as_str()),
        None => false,
    }
}

// ---------------------------------------------------------------------------
// Candidate files
// ---------------------------------------------------------------------------

/// A scanned file as the playlist reads it: its path, and the extension and
/// final path component that `std::path::Path` finds in that path.
pub struct FileEntry {
    pub path: String,
    pub extension: Option<String>,
    pub file_name: Option<String>,
}

pub struct FileEntryView {
    pub path: Seq<char>,
    pub extension: Option<Seq<char>>,
    pub file_name: Option<Seq<char>>,
}

pub open spec fn opt_view(o: Option<String>) -> Option<Seq<char>> {
    match o {
        Some(s) => Some(s@),
        None => None,
    }
}

impl View for FileEntry {
    type V = FileEntryView;

    open spec fn view(&self) -> FileEntryView {
        FileEntryView {
            path: self.path@,
            extension: opt_view(self.extension),
            file_name: opt_view(self.file_name),
        }
    }
}

/// The entry is an image of a supported type.
pub open spec fn entry_is_image(e: FileEntryView) -> bool {
    match e.extension {
        Some(x) => supported_extension(x),
        None => false,
    }
}

/// The sort key of an entry: its final component in lower case, or the
/// empty sequence when the path has none.
pub open spec fn entry_sort_key(e: FileEntryView) -> Seq<char> {
    match e.file_name {
        Some(n) => lowercase(n),
        None => Seq::empty(),
    }
}

/// The images among the entries, in scan order.
pub open spec fn image_entries(es: Seq<FileEntryView>) -> Seq<FileEntryView> {
    es.filter(|e: FileEntryView| entry_is_image(e))
}

/// The sort keys of the entries, in order.
pub open spec fn sort_keys(kept: Seq<FileEntryView>) -> Seq<Seq<char>> {
    kept.map_values(|e: FileEntryView| entry_sort_key(e))
}

/// `images` lists the paths of `kept` in the stable order of their sort
/// keys (the order `Vec::sort_by` gives with these keys).
pub open spec fn sorted_paths(kept: Seq<FileEntryView>, images: Seq<Seq<char>>) -> bool {
    exists|p: Seq<usize>|
        #![trigger is_stable_order(sort_keys(kept), p)]
        is_stable_order(sort_keys(kept), p) && images
            =~= p.map_values(|i: usize| kept[i as int].path)
}

/// The identity permutation `0, 1, ..., n - 1`.
pub open spec fn identity_order(n: nat) -> Seq<usize> {
    Seq::new(n, |i: int| i as usize)
}

/// `pl` is the fresh playlist of the scanned files `paths`: for the extension
/// and file name that `std::path::Path` finds in each path (of which only
/// the documented facts are known), the images among them in stable order
/// of their lower-cased file names, shuffle order the identity, and the
/// cursor past the end: the first Sequential step starts at the first image
/// and the first Shuffle step draws a fresh permutation.
pub open spec fn built_from_files(paths: Seq<Seq<char>>, pl: PlaylistView) -> bool {
    &&& pl.wf()
    &&& pl.cursor == pl.images.len()
    &&& pl.order == identity_order(pl.images.len())
    &&& exists|es: Seq<FileEntryView>|
        #![trigger image_entries(es)]
        {
            &&& es.map_values(|e: FileEntryView| e.path) == paths
            &&& forall|i: int|
                0 <= i < es.len() ==> extension_fits((#[trigger] es[i]).path, es[i].extension)
                    && file_name_fits(es[i].path, es[i].file_name)
            &&& sorted_paths(image_entries(es), pl.images)
        }
}

// ---------------------------------------------------------------------------
// The playlist
// ---------------------------------------------------------------------------

/// Per-monitor image playlist with cursor and shuffle state.
pub struct Playlist {
    /// Sorted by file name (case-insensitive, stable).
    images: Vec<String>,
    /// Next position: an index into `images` (Sequential) or into
    /// `shuffle_order` (Shuffle).
    cursor: usize,
    /// Current shuffle permutation (indices into `images`).
    shuffle_order: Vec<usize>,
}

/// The mathematical state of a playlist.
#[verifier::ext_equal]
pub struct PlaylistView {
    pub images: Seq<Seq<char>>,
    pub cursor: nat,
    pub order: Seq<usize>,
}

impl PlaylistView {
    /// The playlist invariant: `order` is a permutation of the image indices
    /// and the cursor lies within `0..=len`.
    pub open spec fn wf(self) -> bool {
        &&& self.order.len() == self.images.len()
        &&& forall|k: int| 0 <= k < self.order.len() ==> (#[trigger] self.order[k]) < self.images.len()
        &&& self.order.no_duplicates()
        &&& forall|i: usize| i < self.images.len() ==> #[trigger] self.order.contains(i)
        &&& self.cursor <= self.images.len()
    }

    /// The image a Sequential step reads: the cursor's, or the first one when
    /// the cursor stands past the end (after a build or a Shuffle pass).
    pub open spec fn sequential_position(self) -> int {
        if self.cursor < self.images.len() {
            self.cursor as int
        } else {
            0
        }
    }
}

/// One `next` step from `old` to `new` in `mode`, returning `r`.
pub open spec fn next_step(
    old: PlaylistView,
    new: PlaylistView,
    mode: CycleMode,
    r: Option<Seq<char>>,
) -> bool {
    if old.images.len() == 0 {
        new == old && r is None
    } else {
        &&& new.images == old.images
        &&& r is Some
        &&& match mode {
            CycleMode::Sequential => {
                &&& r->0 == old.images[old.sequential_position()]
                &&& new.cursor == (old.sequential_position() + 1) % (old.images.len() as int)
                &&& new.order == old.order
            },
            CycleMode::Shuffle => if old.cursor < old.order.len() {
                &&& new.order == old.order
                &&& new.cursor == old.cursor + 1
                &&& r->0 == old.images[old.order[old.cursor as int] as int]
            } else {
                &&& new.order.to_multiset() == old.order.to_multiset()
                &&& new.cursor == 1
                &&& r->0 == old.images[new.order[0] as int]
            },
            CycleMode::PureRandom => {
                &&& new.order == old.order
                &&& new.cursor == old.cursor
                &&& exists|i: int| 0 <= i < old.images.len() && r->0 == #[trigger] old.images[i]
            },
        }
    }
}

/// A PureRandom step on `v` that moved the random source from `before` to
/// `after` returned `r`: on a non-empty playlist, the image at the index the
/// source drew over the whole playlist.
pub open spec fn random_draw(
    v: PlaylistView,
    before: StdRng,
    after: StdRng,
    r: Option<Seq<char>>,
) -> bool {
    v.images.len() > 0 ==> exists|i: usize|
        #![trigger drew(before, after, v.images.len() as usize, i)]
        drew(before, after, v.images.len() as usize, i) && i < v.images.len() && r == Some(
            v.images[i as int],
        )
}

/// `pos` is the first position of `x` in `s`.
pub open spec fn first_position(s: Seq<Seq<char>>, x: Seq<char>, pos: int) -> bool {
    &&& 0 <= pos < s.len()
    &&& s[pos] == x
    &&& forall|k: int| 0 <= k < pos ==> s[k] != x
}

/// The permutation with entry `pos` dropped and every entry above `pos`
/// decremented, so it indexes the image list with `pos` removed.
pub open spec fn reindex(s: Seq<usize>, pos: usize) -> Seq<usize>
    decreases s.len(),
{
    if s.len() == 0 {
        s
    } else {
        let rest = reindex(s.drop_last(), pos);
        let x = s.last();
        if x == pos {
            rest
        } else if x > pos {
            rest.push((x - 1) as usize)
        } else {
            rest.push(x)
        }
    }
}

/// The playlist after the image at `pos` is removed, cursor adjusted for
/// `mode`: in Sequential it keeps pointing at the same following image; in
/// Shuffle it counts the permutation entries already walked that remain, so
/// the rest of the pass is unchanged; in PureRandom it is only kept within
/// the shorter permutation.
pub open spec fn removal(v: PlaylistView, pos: int, mode: CycleMode) -> PlaylistView {
    let images = v.images.remove(pos);
    let order = reindex(v.order, pos as usize);
    let cursor = match mode {
        CycleMode::Sequential => if images.len() == 0 {
            0
        } else if pos < v.cursor {
            (v.cursor - 1) as nat
        } else if v.cursor >= images.len() {
            0
        } else {
            v.cursor
        },
        CycleMode::Shuffle => reindex(v.order.take(v.cursor as int), pos as usize).len(),
        CycleMode::PureRandom => if v.cursor > order.len() {
            order.len()
        } else {
            v.cursor
        },
    };
    PlaylistView { images, cursor, order }
}

/// Position of the first `x` in `s` (`s.len()` when there is none).
pub open spec fn first_index(s: Seq<Seq<char>>, x: Seq<char>) -> int
    decreases s.len(),
{
    if s.len() == 0 {
        0
    } else if s[0] == x {
        0
    } else {
        1 + first_index(s.drop_first(), x)
    }
}

/// `first_index` is the first position of `x` when `s` holds it, and the
/// only position that `first_position` admits.
pub proof fn lemma_first_index(s: Seq<Seq<char>>, x: Seq<char>)
    ensures
        s.contains(x) ==> first_position(s, x, first_index(s, x)),
        forall|p: int| #[trigger] first_position(s, x, p) ==> p == first_index(s, x),
    decreases s.len(),
{
    if s.len() > 0 {
        let t = s.drop_first();
        lemma_first_index(t, x);
        if s[0] != x {
            if s.contains(x) {
                let k = choose|k: int| 0 <= k < s.len() && s[k] == x;
                assert(t[k - 1] == x);
                assert(first_position(t, x, first_index(t, x)));
                assert forall|j: int| 0 <= j < first_index(s, x) implies s[j] != x by {
                    if j > 0 {
                        assert(s[j] == t[j - 1]);
                    }
                }
            }
            assert forall|p: int| #[trigger] first_position(s, x, p) implies p == first_index(s, x) by {
                assert(p > 0);
                assert forall|j: int| 0 <= j < p - 1 implies t[j] != x by {
                    assert(t[j] == s[j + 1]);
                }
                assert(first_position(t, x, p - 1));
            }
        }
    }
}

/// The playlist after every occurrence of `bad` is removed, one first
/// occurrence after another, each by `removal` in `mode`.
pub open spec fn remove_all(v: PlaylistView, bad: Seq<char>, mode: CycleMode) -> PlaylistView
    decreases v.images.len(),
{
    if v.images.contains(bad) {
        let pos = first_index(v.images, bad);
        proof {
            lemma_first_index(v.images, bad);
        }
        remove_all(removal(v, pos, mode), bad, mode)
    } else {
        v
    }
}

/// `s` without its elements equal to `x`, the others in order.
pub open spec fn without(s: Seq<Seq<char>>, x: Seq<char>) -> Seq<Seq<char>>
    decreases s.len(),
{
    if s.len() == 0 {
        s
    } else if s.last() == x {
        without(s.drop_last(), x)
    } else {
        without(s.drop_last(), x).push(s.last())
    }
}

proof fn lemma_without_absent(s: Seq<Seq<char>>, x: Seq<char>)
    requires
        !s.contains(x),
    ensures
        without(s, x) == s,
    decreases s.len(),
{
    if s.len() > 0 {
        assert(!s.drop_last().contains(x)) by {
            if s.drop_last().contains(x) {
                let k = choose|k: int| 0 <= k < s.drop_last().len() && s.drop_last()[k] == x;
                assert(s[k] == x);
            }
        }
        assert(s[s.len() - 1] == s.last());
        lemma_without_absent(s.drop_last(), x);
        assert(s.drop_last().push(s.last()) =~= s);
    }
}

proof fn lemma_without_remove(s: Seq<Seq<char>>, x: Seq<char>, i: int)
    requires
        0 <= i < s.len(),
        s[i] == x,
    ensures
        without(s.remove(i), x) == without(s, x),
    decreases s.len(),
{
    if i == s.len() - 1 {
        assert(s.remove(i) =~= s.drop_last());
    } else {
        let r = s.remove(i);
        assert(r.drop_last() =~= s.drop_last().remove(i));
        assert(r.last() == s.last());
        lemma_without_remove(s.drop_last(), x, i);
    }
}

proof fn lemma_without_contains(s: Seq<Seq<char>>, x: Seq<char>, y: Seq<char>)
    ensures
        without(s, x).contains(y) <==> (s.contains(y) && y != x),
    decreases s.len(),
{
    if s.len() > 0 {
        let t = s.drop_last();
        let l = s.last();
        lemma_without_contains(t, x, y);
        assert(s.contains(y) <==> (t.contains(y) || l == y)) by {
            if s.contains(y) {
                let k = choose|k: int| 0 <= k < s.len() && s[k] == y;
                if k < t.len() {
                    assert(t[k] == y);
                }
            }
            if t.contains(y) {
                let k = choose|k: int| 0 <= k < t.len() && t[k] == y;
                assert(s[k] == y);
            }
            if l == y {
                assert(s[s.len() - 1] == y);
            }
        }
        let w = without(t, x);
        if l != x {
            assert(w.push(l).contains(y) <==> (w.contains(y) || l == y)) by {
                if w.push(l).contains(y) {
                    let k = choose|k: int| 0 <= k < w.push(l).len() && w.push(l)[k] == y;
                    if k < w.len() {
                        assert(w[k] == y);
                    }
                }
                if w.contains(y) {
                    let k = choose|k: int| 0 <= k < w.len() && w[k] == y;
                    assert(w.push(l)[k] == y);
                }
                if l == y {
                    assert(w.push(l)[w.len() as int] == y);
                }
            }
        }
    }
}

/// Removing every occurrence keeps the playlist well formed, and leaves the
/// other images in their order.
pub proof fn lemma_remove_all(v: PlaylistView, bad: Seq<char>, mode: CycleMode)
    requires
        v.wf(),
        v.images.len() <= usize::MAX,
    ensures
        remove_all(v, bad, mode).wf(),
        remove_all(v, bad, mode).images == without(v.images, bad),
        !remove_all(v, bad, mode).images.contains(bad),
        forall|y: Seq<char>| #[trigger] remove_all(v, bad, mode).images.contains(y) ==> v.images.contains(y),
    decreases v.images.len(),
{
    if v.images.contains(bad) {
        let pos = first_index(v.images, bad);
        lemma_first_index(v.images, bad);
        lemma_removal_wf(v, pos, mode);
        lemma_remove_all(removal(v, pos, mode), bad, mode);
        lemma_without_remove(v.images, bad, pos);
        assert forall|y: Seq<char>| #[trigger] remove_all(v, bad, mode).images.contains(y) implies v.images.contains(y) by {
            lemma_removal_images(v, pos, mode, y);
        }
    } else {
        lemma_without_absent(v.images, bad);
    }
    lemma_without_contains(v.images, bad, bad);
}

/// Facts about `reindex` on a duplicate-free sequence of indices below `n`.
proof fn lemma_reindex(s: Seq<usize>, pos: usize, n: nat)
    requires
        s.no_duplicates(),
        forall|k: int| 0 <= k < s.len() ==> (#[trigger] s[k]) < n,
        pos < n,
    ensures
        reindex(s, pos).len() == if s.contains(pos) {
            s.len() - 1
        } else {
            s.len() as int
        },
        reindex(s, pos).no_duplicates(),
        forall|k: int| 0 <= k < reindex(s, pos).len() ==> (#[trigger] reindex(s, pos)[k]) < n - 1,
        forall|x: usize| #[trigger]
            s.contains(x) && x != pos ==> reindex(s, pos).contains(
                if x > pos {
                    (x - 1) as usize
                } else {
                    x
                },
            ),
        forall|y: usize| #[trigger]
            reindex(s, pos).contains(y) ==> (s.contains(y) && y < pos) || (s.contains(
                (y + 1) as usize,
            ) && y + 1 > pos),
    decreases s.len(),
{
    if s.len() > 0 {
        let t = s.drop_last();
        let x = s.last();
        assert(t.no_duplicates());
        assert forall|k: int| 0 <= k < t.len() implies (#[trigger] t[k]) < n by {
            assert(t[k] == s[k]);
        }
        lemma_reindex(t, pos, n);
        let rt = reindex(t, pos);
        assert(!t.contains(x)) by {
            if t.contains(x) {
                let k = choose|k: int| 0 <= k < t.len() && t[k] == x;
                assert(s[k] == s[s.len() - 1]);
            }
        }
        assert forall|z: usize| s.contains(z) <==> (t.contains(z) || z == x) by {
            if s.contains(z) {
                let k = choose|k: int| 0 <= k < s.len() && s[k] == z;
                if k < s.len() - 1 {
                    assert(t[k] == z);
                }
            }
            if t.contains(z) {
                let k = choose|k: int| 0 <= k < t.len() && t[k] == z;
                assert(s[k] == z);
            }
            if z == x {
                assert(s[s.len() - 1] == z);
            }
        }
        if x != pos {
            let y: usize = if x > pos {
                (x - 1) as usize
            } else {
                x
            };
            let r = rt.push(y);
            assert(reindex(s, pos) == r);
            assert(!rt.contains(y)) by {
                if rt.contains(y) {
                    if t.contains(y) && y < pos {
                        assert(y == x);
                    } else {
                        assert(t.contains((y + 1) as usize) && y + 1 > pos);
                        assert((y + 1) as usize == x);
                    }
                }
            }
            assert forall|a: int, b: int| 0 <= a < b < r.len() implies r[a] != r[b] by {
                if b == r.len() - 1 {
                    assert(rt.contains(r[a]));
                }
            }
            assert forall|w: usize| #[trigger] r.contains(w) <==> (rt.contains(w) || w == y) by {
                if r.contains(w) {
                    let k = choose|k: int| 0 <= k < r.len() && r[k] == w;
                    if k < rt.len() {
                        assert(rt[k] == w);
                    }
                }
                if rt.contains(w) {
                    let k = choose|k: int| 0 <= k < rt.len() && rt[k] == w;
                    assert(r[k] == w);
                }
                if w == y {
                    assert(r[r.len() - 1] == w);
                }
            }
            assert forall|k: int| 0 <= k < r.len() implies (#[trigger] r[k]) < n - 1 by {
                if k < rt.len() {
                    assert(r[k] == rt[k]);
                }
            }
        } else {
            assert(reindex(s, pos) == rt);
            assert(!t.contains(pos));
        }
    } else {
        assert(!s.contains(pos));
    }
}

/// `reindex` of a prefix is no longer than `reindex` of the whole.
proof fn lemma_reindex_prefix(s: Seq<usize>, k: int, pos: usize)
    requires
        0 <= k <= s.len(),
    ensures
        reindex(s.take(k), pos).len() <= reindex(s, pos).len(),
    decreases s.len(),
{
    if k == s.len() {
        assert(s.take(k) =~= s);
    } else {
        lemma_reindex_prefix(s.drop_last(), k, pos);
        assert(s.drop_last().take(k) =~= s.take(k));
    }
}

/// Removing an image keeps the playlist well formed.
pub proof fn lemma_removal_wf(v: PlaylistView, pos: int, mode: CycleMode)
    requires
        v.wf(),
        0 <= pos < v.images.len(),
        v.images.len() <= usize::MAX,
    ensures
        removal(v, pos, mode).wf(),
{
    let n = v.images.len();
    lemma_reindex(v.order, pos as usize, n);
    lemma_reindex_prefix(v.order, v.cursor as int, pos as usize);
    let w = removal(v, pos, mode);
    assert(v.order.contains(pos as usize));
    assert(w.images.len() == n - 1);
    assert forall|i: usize| i < w.images.len() implies #[trigger] w.order.contains(i) by {
        if i < pos {
            assert(v.order.contains(i));
        } else {
            assert(v.order.contains((i + 1) as usize));
            assert((i + 1) as usize > pos as usize);
            assert(((i + 1) as usize - 1) as usize == i);
        }
    }
}

/// A permutation of the same indices keeps the playlist well formed.
pub proof fn lemma_same_multiset_wf(v: PlaylistView, order: Seq<usize>, cursor: nat)
    requires
        v.wf(),
        order.len() == v.order.len(),
        order.to_multiset() == v.order.to_multiset(),
        cursor <= v.images.len(),
    ensures
        (PlaylistView { images: v.images, cursor, order }).wf(),
{
    broadcast use vstd::seq_lib::group_to_multiset_ensures;

    assert forall|x: usize| order.contains(x) <==> v.order.contains(x) by {
        assert(order.contains(x) <==> order.to_multiset().count(x) > 0);
        assert(v.order.contains(x) <==> v.order.to_multiset().count(x) > 0);
    }
    assert forall|k: int| 0 <= k < order.len() implies (#[trigger] order[k]) < v.images.len() by {
        assert(order.contains(order[k]));
        let j = choose|j: int| 0 <= j < v.order.len() && v.order[j] == order[k];
        assert(v.order[j] < v.images.len());
    }
    v.order.lemma_multiset_has_no_duplicates();
    order.lemma_multiset_has_no_duplicates_conv();
}

impl View for Playlist {
    type V = PlaylistView;

    closed spec fn view(&self) -> PlaylistView {
        PlaylistView {
            images: self.images@.map_values(|s: String| s@),
            cursor: self.cursor as nat,
            order: self.shuffle_order@,
        }
    }
}

impl Playlist {
    /// The playlist of the image files among `entries`: entries whose
    /// extension is a supported image type, sorted by lower-cased file name
    /// (stable, so equal names keep their scan order).  Shuffle order the
    /// identity, cursor past the end (so the first Sequential step starts at
    /// the first image and the first Shuffle step draws a permutation).  An
    /// empty result is valid.
    pub fn from_entries(entries: Vec<FileEntry>) -> (pl: Playlist)
        ensures
            pl@.wf(),
            pl@.cursor == pl@.images.len(),
            pl@.order == identity_order(pl@.images.len()),
            sorted_paths(
                image_entries(entries@.map_values(|e: FileEntry| e@)),
                pl@.images,
            ),
    {
        let ghost es = entries@.map_values(|e: FileEntry| e@);
        let ghost pred = |e: FileEntryView| entry_is_image(e);
        let mut kept: Vec<String> = Vec::new();
        let mut keys: Vec<Vec<char>> = Vec::new();
        let ghost mut kept_entries: Seq<FileEntryView> = Seq::empty();
        let mut i: usize = 0;
        assert(es.take(0) =~= Seq::<FileEntryView>::empty());
        assert(Seq::<FileEntryView>::empty().filter(pred) =~= Seq::<FileEntryView>::empty()) by {
            reveal_with_fuel(Seq::filter, 1);
        }
        while i < entries.len()
            invariant
                es == entries@.map_values(|e: FileEntry| e@),
                pred == (|e: FileEntryView| entry_is_image(e)),
                i <= entries.len(),
                kept_entries == es.take(i as int).filter(pred),
                kept@.len() == kept_entries.len(),
                keys@.len() == kept_entries.len(),
                forall|k: int| 0 <= k < kept@.len() ==> (#[trigger] kept@[k])@ == kept_entries[k].path,
                forall|k: int|
                    0 <= k < keys@.len() ==> (#[trigger] keys@[k])@ == entry_sort_key(
                        kept_entries[k],
                    ),
            decreases entries.len() - i,
        {
            let e = &entries[i];
            let is_image = match &e.extension {
                Some(x) => extension_is_supported(x.as_str()),
                None => false,
            };
            proof {
                assert(es[i as int] == e@);
                assert(es.take(i + 1).drop_last() =~= es.take(i as int));
                es.take(i + 1).lemma_filter_push(es[i as int], pred);
                reveal_with_fuel(Seq::filter, 1);
            }
            if is_image {
                let key = match &e.file_name {
                    Some(n) => {
                        let l = to_lowercase(n.as_str());
                        chars_of(l.as_str())
                    },
                    None => Vec::new(),
                };
                assert(key@ == entry_sort_key(e@)) by {
                    if e.file_name.is_none() {
                        assert(key@ =~= Seq::<char>::empty());
                    }
                }
                kept.push(e.path.clone());
                keys.push(key);
                proof {
                    kept_entries = kept_entries.push(e@);
                }
            }
            i = i + 1;
            assert(es.take(i as int).filter(pred) == kept_entries);
        }
        assert(es.take(entries.len() as int) =~= es);
        let p = stable_order(&keys);
        let ghost ks = keys@.map_values(|k: Vec<char>| k@);
        assert(ks =~= sort_keys(kept_entries));
        let n = p.len();
        let mut images: Vec<String> = Vec::new();
        let mut order: Vec<usize> = Vec::new();
        let mut j: usize = 0;
        while j < n
            invariant
                n == p.len(),
                n == kept@.len(),
                is_stable_order(ks, p@),
                forall|k: int| 0 <= k < kept@.len() ==> (#[trigger] kept@[k])@ == kept_entries[k].path,
                j <= n,
                images@.len() == j,
                order@ == identity_order(j as nat),
                forall|k: int|
                    0 <= k < j ==> (#[trigger] images@[k])@ == kept_entries[p@[k] as int].path,
            decreases n - j,
        {
            images.push(kept[p[j]].clone());
            order.push(j);
            j = j + 1;
            assert(order@ =~= identity_order(j as nat));
        }
        let pl = Playlist { images, cursor: n, shuffle_order: order };
        proof {
            assert(pl@.images =~= p@.map_values(|i: usize| kept_entries[i as int].path));
            assert(is_stable_order(sort_keys(kept_entries), p@));
            assert forall|i: usize| i < pl@.images.len() implies #[trigger] pl@.order.contains(i) by {
                assert(pl@.order[i as int] == i);
            }
        }
        pl
    }

    /// The playlist of the scanned files `paths` (each path's extension and
    /// file name read with `std::path::Path`), as `from_entries` builds it.
    pub fn from_files(paths: Vec<String>) -> (pl: Playlist)
        ensures
            built_from_files(views(paths@), pl@),
    {
        let mut entries: Vec<FileEntry> = Vec::new();
        let mut i: usize = 0;
        while i < paths.len()
            invariant
                i <= paths.len(),
                entries@.len() == i,
                forall|k: int| 0 <= k < i ==> (#[trigger] entries@[k]).path@ == paths@[k]@,
                forall|k: int|
                    0 <= k < i ==> extension_fits((#[trigger] entries@[k])@.path, entries@[k]@.extension)
                        && file_name_fits(entries@[k]@.path, entries@[k]@.file_name),
            decreases paths.len() - i,
        {
            let p = &paths[i];
            let entry = FileEntry {
                path: p.clone(),
                extension: path_extension(p.as_str()),
                file_name: path_file_name(p.as_str()),
            };
            entries.push(entry);
            i = i + 1;
        }
        let ghost es = entries@.map_values(|e: FileEntry| e@);
        let pl = Playlist::from_entries(entries);
        assert(es.map_values(|e: FileEntryView| e.path) =~= views(paths@));
        pl
    }

    /// The images, in playlist (sorted) order.
    pub fn images(&self) -> (r: &Vec<String>)
        ensures
            r@.map_values(|s: String| s@) == self@.images,
    {
        &self.images
    }

    pub fn is_empty(&self) -> (r: bool)
        ensures
            r == (self@.images.len() == 0),
    {
        self.images.len() == 0
    }

    pub fn len(&self) -> (r: usize)
        ensures
            r == self@.images.len(),
    {
        self.images.len()
    }

    /// Advance and return the next image for `mode`; `None` iff the playlist
    /// is empty.
    /// - Sequential: returns the image at the cursor (the first one when the
    ///   cursor stands past the end), then moves the cursor on with
    ///   wrap-around.
    /// - Shuffle: walks the permutation; when it is exhausted (or fresh from a
    ///   build), reshuffles it and starts again from its first entry.
    /// - PureRandom: a uniformly drawn image; repeats allowed.
    pub fn next(&mut self, mode: CycleMode, rng: &mut StdRng) -> (r: Option<String>)
        requires
            old(self)@.wf(),
        ensures
            final(self)@.wf(),
            next_step(old(self)@, final(self)@, mode, opt_view(r)),
            mode == CycleMode::PureRandom ==> random_draw(
                old(self)@,
                *old(rng),
                *final(rng),
                opt_view(r),
            ),
    {
        if self.images.len() == 0 {
            return None;
        }
        let len = self.images.len();
        match mode {
            CycleMode::Sequential => {
                let at = if self.cursor < len {
                    self.cursor
                } else {
                    0
                };
                let path = self.images[at].clone();
                self.cursor = (at + 1) % len;
                Some(path)
            },
            CycleMode::Shuffle => {
                if self.cursor >= self.shuffle_order.len() {
                    let ghost before = self@;
                    shuffle_indices(&mut self.shuffle_order, rng);
                    self.cursor = 0;
                    proof {
                        lemma_same_multiset_wf(before, self.shuffle_order@, 0);
                    }
                }
                let idx = self.shuffle_order[self.cursor];
                self.cursor = self.cursor + 1;
                let path = self.images[idx].clone();
                assert(self@.images[idx as int] == path@);
                Some(path)
            },
            CycleMode::PureRandom => {
                let ghost before = *rng;
                let ghost v = self@;
                let idx = random_index(rng, len);
                let path = self.images[idx].clone();
                proof {
                    assert(v.images.len() as usize == len);
                    assert(v.images[idx as int] == path@);
                    assert(drew(before, *rng, v.images.len() as usize, idx));
                    assert(random_draw(v, before, *rng, Some(path@)));
                }
                Some(path)
            },
        }
    }

    /// Remove the image at `pos`, adjusting the cursor and the shuffle
    /// permutation (see `removal`).
    fn remove_at(&mut self, pos: usize, mode: CycleMode)
        requires
            old(self)@.wf(),
            pos < old(self)@.images.len(),
        ensures
            final(self)@.wf(),
            final(self)@ == removal(old(self)@, pos as int, mode),
    {
        let ghost old_v = self@;
        self.images.remove(pos);
        let n = self.shuffle_order.len();
        let cursor = self.cursor;
        let mut walked: usize = 0;
        let mut order: Vec<usize> = Vec::new();
        let mut i: usize = 0;
        while i < n
            invariant
                n == old_v.order.len(),
                self.shuffle_order@ == old_v.order,
                cursor == old_v.cursor,
                cursor <= n,
                i <= n,
                order@ == reindex(old_v.order.take(i as int), pos),
                i > cursor ==> walked == reindex(old_v.order.take(cursor as int), pos).len(),
            decreases n - i,
        {
            if i == cursor {
                walked = order.len();
            }
            let x = self.shuffle_order[i];
            assert(old_v.order.take(i + 1).drop_last() =~= old_v.order.take(i as int));
            if x > pos {
                order.push(x - 1);
            } else if x < pos {
                order.push(x);
            }
            i = i + 1;
        }
        assert(old_v.order.take(n as int) =~= old_v.order);
        if cursor == n {
            walked = order.len();
        }
        self.shuffle_order = order;
        match mode {
            CycleMode::Sequential => {
                if self.images.len() == 0 {
                    self.cursor = 0;
                } else if pos < self.cursor {
                    self.cursor = self.cursor - 1;
                } else if self.cursor >= self.images.len() {
                    self.cursor = 0;
                }
            },
            CycleMode::Shuffle => {
                self.cursor = walked;
            },
            CycleMode::PureRandom => {
                if self.cursor > self.shuffle_order.len() {
                    self.cursor = self.shuffle_order.len();
                }
            },
        }
        proof {
            assert(self@.images =~= old_v.images.remove(pos as int));
            assert(self@ =~= removal(old_v, pos as int, mode));
            lemma_removal_wf(old_v, pos as int, mode);
        }
    }

    /// Remove every occurrence of `bad` from the playlist, then return the
    /// following `next()`.  Used when an image turns out to be unreadable.
    /// The cursor and shuffle permutation are adjusted at each removal so
    /// the playlist stays consistent (see `removal`: the rest of a Shuffle
    /// pass is kept); a path not in the playlist removes nothing.
    pub fn skip_and_next(&mut self, bad: &String, mode: CycleMode, rng: &mut StdRng) -> (r: Option<
        String,
    >)
        requires
            old(self)@.wf(),
        ensures
            final(self)@.wf(),
            next_step(remove_all(old(self)@, bad@, mode), final(self)@, mode, opt_view(r)),
    {
        let ghost target = remove_all(self@, bad@, mode);
        loop
            invariant
                self@.wf(),
                remove_all(self@, bad@, mode) == target,
            ensures
                self@.wf(),
                remove_all(self@, bad@, mode) == target,
                !self@.images.contains(bad@),
            decreases self@.images.len(),
        {
            let ghost before = self@;
            let mut pos: usize = 0;
            while pos < self.images.len() && !(self.images[pos] == *bad)
                invariant
                    self@ == before,
                    pos <= self.images.len(),
                    forall|k: int| 0 <= k < pos ==> before.images[k] != bad@,
                decreases self.images.len() - pos,
            {
                pos = pos + 1;
            }
            if pos == self.images.len() {
                assert(!before.images.contains(bad@));
                break;
            }
            proof {
                assert(first_position(before.images, bad@, pos as int));
                lemma_first_index(before.images, bad@);
                assert(remove_all(before, bad@, mode) == remove_all(
                    removal(before, pos as int, mode),
                    bad@,
                    mode,
                ));
            }
            self.remove_at(pos, mode);
        }
        assert(self@ == target);
        self.next(mode, rng)
    }
}

// ---------------------------------------------------------------------------
// Laws
// ---------------------------------------------------------------------------

/// `states` is a run of `next` calls in `mode` returning `picks`.
pub open spec fn is_run(states: Seq<PlaylistView>, picks: Seq<Seq<char>>, mode: CycleMode) -> bool {
    &&& states.len() == picks.len() + 1
    &&& forall|k: int|
        #![trigger picks[k]]
        0 <= k < picks.len() ==> next_step(states[k], states[k + 1], mode, Some(picks[k]))
}

proof fn lemma_sequential_run(states: Seq<PlaylistView>, picks: Seq<Seq<char>>, k: int)
    requires
        is_run(states, picks, CycleMode::Sequential),
        states[0].images.len() > 0,
        0 <= k <= picks.len(),
    ensures
        states[k].images == states[0].images,
        states[k].sequential_position() == (states[0].sequential_position() + k) % (
        states[0].images.len() as int),
    decreases k,
{
    let n = states[0].images.len() as int;
    let p0 = states[0].sequential_position();
    if k == 0 {
        vstd::arithmetic::div_mod::lemma_small_mod(p0 as nat, n as nat);
    } else {
        lemma_sequential_run(states, picks, k - 1);
        assert(next_step(states[k - 1], states[k], CycleMode::Sequential, Some(picks[k - 1])));
        vstd::arithmetic::div_mod::lemma_add_mod_noop_right(1, p0 + k - 1, n);
        assert(states[k].cursor == (p0 + k) % n);
        vstd::arithmetic::div_mod::lemma_mod_bound(p0 + k, n);
    }
}

/// Law: in Sequential mode the playlist walks the sorted images in order and
/// wraps around: from the image a step would read first (the cursor's, or
/// the first image when the cursor stands past the end), the `k`-th call
/// returns image `(start + k) % len`, so every `len` calls the same images
/// come back.
pub proof fn law_sequential_order_and_wraparound(states: Seq<PlaylistView>, picks: Seq<Seq<char>>)
    requires
        is_run(states, picks, CycleMode::Sequential),
        states[0].images.len() > 0,
    ensures
        forall|k: int|
            0 <= k < picks.len() ==> #[trigger] picks[k] == states[0].images[(
            states[0].sequential_position() + k) % (states[0].images.len() as int)],
        forall|k: int|
            0 <= k && k + states[0].images.len() < picks.len() ==> #[trigger] picks[k
                + states[0].images.len()] == picks[k],
{
    let n = states[0].images.len() as int;
    let p0 = states[0].sequential_position();
    assert forall|k: int| 0 <= k < picks.len() implies #[trigger] picks[k] == states[0].images[(p0
        + k) % n] by {
        lemma_sequential_run(states, picks, k);
        assert(next_step(states[k], states[k + 1], CycleMode::Sequential, Some(picks[k])));
    }
    assert forall|k: int| 0 <= k && k + n < picks.len() implies #[trigger] picks[k + n]
        == picks[k] by {
        assert(picks[k] == states[0].images[(p0 + k) % n]);
        assert(picks[k + n] == states[0].images[(p0 + (k + n)) % n]);
        vstd::arithmetic::div_mod::lemma_mod_add_multiples_vanish(p0 + k, n);
        assert(p0 + (k + n) == n + (p0 + k));
    }
}

proof fn lemma_shuffle_run(states: Seq<PlaylistView>, picks: Seq<Seq<char>>, k: int)
    requires
        is_run(states, picks, CycleMode::Shuffle),
        states[0].wf(),
        states[0].images.len() > 0,
        states[0].cursor == 0 || states[0].cursor == states[0].images.len(),
        1 <= k <= picks.len(),
        picks.len() <= states[0].images.len(),
    ensures
        states[k].images == states[0].images,
        states[k].order == states[1].order,
        states[k].cursor == k,
        states[k].order.len() == states[0].images.len(),
        forall|j: int| 0 <= j < k ==> picks[j] == states[0].images[states[1].order[j] as int],
    decreases k,
{
    assert(picks[0] == picks[0]);
    assert(next_step(states[0], states[1], CycleMode::Shuffle, Some(picks[0])));
    if k > 1 {
        lemma_shuffle_run(states, picks, k - 1);
        assert(next_step(states[k - 1], states[k], CycleMode::Shuffle, Some(picks[k - 1])));
    } else {
        if states[0].cursor == states[0].images.len() {
            broadcast use vstd::seq_lib::group_to_multiset_ensures;

            assert(states[1].order.len() == states[0].order.to_multiset().len());
        }
    }
}

/// Law: a Shuffle pass yields every image exactly once.  From the start of a
/// pass (cursor 0, or at the end so that the first call reshuffles), the
/// `len` following calls return the images at pairwise distinct positions,
/// i.e. a permutation of the playlist.
pub proof fn law_shuffle_pass_visits_each_image_once(states: Seq<PlaylistView>, picks: Seq<Seq<char>>)
    requires
        is_run(states, picks, CycleMode::Shuffle),
        states[0].wf(),
        states[0].images.len() > 0,
        states[0].cursor == 0 || states[0].cursor == states[0].images.len(),
        picks.len() == states[0].images.len(),
    ensures
        exists|idx: Seq<usize>|
            #![trigger idx.no_duplicates()]
            idx.len() == picks.len() && idx.no_duplicates() && (forall|j: int|
                0 <= j < idx.len() ==> (#[trigger] idx[j]) < states[0].images.len() && picks[j]
                    == states[0].images[idx[j] as int]),
{
    let n = picks.len() as int;
    lemma_shuffle_run(states, picks, n);
    let order = states[1].order;
    assert(picks[0] == picks[0]);
    assert(next_step(states[0], states[1], CycleMode::Shuffle, Some(picks[0])));
    assert(order.no_duplicates() && forall|k: int| 0 <= k < order.len() ==> order[k] < states[0].images.len()) by {
        if states[0].cursor == states[0].images.len() {
            lemma_same_multiset_wf(states[0], order, 1);
        }
    }
    assert(order.len() == n);
}

/// Law: `skip_and_next` never hands back the image it removed: after every
/// occurrence of the unreadable image is gone, the following image is
/// another one (or there is none).
pub proof fn law_skip_never_returns_removed_image(
    old: PlaylistView,
    new: PlaylistView,
    bad: Seq<char>,
    mode: CycleMode,
    r: Seq<char>,
)
    requires
        old.wf(),
        old.images.len() <= usize::MAX,
        next_step(remove_all(old, bad, mode), new, mode, Some(r)),
    ensures
        r != bad,
        old.images.contains(r),
{
    lemma_remove_all(old, bad, mode);
    lemma_next_picks_own_image(remove_all(old, bad, mode), new, mode, r);
}

/// Law: the playlist order is determined by the scanned files: the images
/// sorted stably by lower-cased file name come out in one order only (equal
/// names keep their scan order), so two builds from the same files agree.
pub proof fn law_sorted_order_is_determined(
    kept: Seq<FileEntryView>,
    a: Seq<Seq<char>>,
    b: Seq<Seq<char>>,
)
    requires
        sorted_paths(kept, a),
        sorted_paths(kept, b),
    ensures
        a == b,
{
    let p = choose|p: Seq<usize>|
        #![trigger is_stable_order(sort_keys(kept), p)]
        is_stable_order(sort_keys(kept), p) && a =~= p.map_values(|i: usize| kept[i as int].path);
    let q = choose|q: Seq<usize>|
        #![trigger is_stable_order(sort_keys(kept), q)]
        is_stable_order(sort_keys(kept), q) && b =~= q.map_values(|i: usize| kept[i as int].path);
    lemma_stable_order_unique(sort_keys(kept), p, q);
}

/// `reindex` of a concatenation is the concatenation of the `reindex`es.
proof fn lemma_reindex_concat(a: Seq<usize>, b: Seq<usize>, pos: usize)
    ensures
        reindex(a + b, pos) == reindex(a, pos) + reindex(b, pos),
    decreases b.len(),
{
    if b.len() == 0 {
        assert(a + b =~= a);
        assert(reindex(a, pos) + reindex(b, pos) =~= reindex(a, pos));
    } else {
        lemma_reindex_concat(a, b.drop_last(), pos);
        assert((a + b).drop_last() =~= a + b.drop_last());
        assert((a + b).last() == b.last());
        let ra = reindex(a, pos);
        let rb = reindex(b.drop_last(), pos);
        assert((ra + rb).push(b.last()) =~= ra + rb.push(b.last()));
        assert((ra + rb).push((b.last() - 1) as usize) =~= ra + rb.push((b.last() - 1) as usize));
    }
}

/// The permutation entries still to walk after removing the image at `pos`
/// in Shuffle mode: those that were still to walk, re-indexed.
proof fn lemma_shuffle_removal_rest(v: PlaylistView, pos: int)
    requires
        v.wf(),
        0 <= pos < v.images.len(),
    ensures
        ({
            let w = removal(v, pos, CycleMode::Shuffle);
            w.order.skip(w.cursor as int) == reindex(v.order.skip(v.cursor as int), pos as usize)
        }),
{
    let c = v.cursor as int;
    let a = v.order.take(c);
    let b = v.order.skip(c);
    assert(v.order =~= a + b);
    lemma_reindex_concat(a, b, pos as usize);
    let w = removal(v, pos, CycleMode::Shuffle);
    assert(w.order == reindex(a, pos as usize) + reindex(b, pos as usize));
    assert(w.order.skip(w.cursor as int) =~= reindex(b, pos as usize));
}

/// Re-indexing entries that avoid `pos` against the list with `pos` removed
/// names the same images.
proof fn lemma_reindex_same_images(s: Seq<usize>, images: Seq<Seq<char>>, pos: usize)
    requires
        pos < images.len(),
        !s.contains(pos),
        forall|k: int| 0 <= k < s.len() ==> (#[trigger] s[k]) < images.len(),
    ensures
        reindex(s, pos).len() == s.len(),
        forall|k: int|
            0 <= k < s.len() ==> images.remove(pos as int)[(#[trigger] reindex(s, pos)[k]) as int]
                == images[s[k] as int],
    decreases s.len(),
{
    if s.len() > 0 {
        let t = s.drop_last();
        assert(!t.contains(pos)) by {
            if t.contains(pos) {
                let k = choose|k: int| 0 <= k < t.len() && t[k] == pos;
                assert(s[k] == pos);
            }
        }
        assert forall|k: int| 0 <= k < t.len() implies (#[trigger] t[k]) < images.len() by {
            assert(t[k] == s[k]);
        }
        lemma_reindex_same_images(t, images, pos);
        let x = s.last();
        assert(s[s.len() - 1] == x);
        assert forall|k: int| 0 <= k < s.len() implies images.remove(pos as int)[(
        #[trigger] reindex(s, pos)[k]) as int] == images[s[k] as int] by {
            if k < t.len() {
                assert(reindex(s, pos)[k] == reindex(t, pos)[k]);
                assert(s[k] == t[k]);
            }
        }
    }
}

/// The images still to come in the current Shuffle pass, in order.
pub open spec fn rest_of_pass(v: PlaylistView) -> Seq<Seq<char>> {
    v.order.skip(v.cursor as int).map_values(|i: usize| v.images[i as int])
}

/// Law: skipping the image the Shuffle pass just returned keeps the rest of
/// the pass: when it occurs once in the playlist, the images still to come
/// are exactly those that were still to come, in the same order.
pub proof fn law_shuffle_skip_keeps_rest_of_pass(v: PlaylistView, bad: Seq<char>)
    requires
        v.wf(),
        v.images.len() <= usize::MAX,
        1 <= v.cursor,
        v.images[v.order[v.cursor - 1] as int] == bad,
        forall|k: int| 0 <= k < v.images.len() && v.images[k] == bad ==> k == v.order[v.cursor - 1],
    ensures
        rest_of_pass(remove_all(v, bad, CycleMode::Shuffle)) == rest_of_pass(v),
{
    let pos = v.order[v.cursor - 1] as int;
    assert(first_position(v.images, bad, pos));
    lemma_first_index(v.images, bad);
    let w = removal(v, pos, CycleMode::Shuffle);
    lemma_removal_wf(v, pos, CycleMode::Shuffle);
    assert(!w.images.contains(bad)) by {
        if w.images.contains(bad) {
            let k = choose|k: int| 0 <= k < w.images.len() && w.images[k] == bad;
            if k < pos {
                assert(v.images[k] == bad);
            } else {
                assert(v.images[k + 1] == bad);
            }
        }
    }
    assert(remove_all(v, bad, CycleMode::Shuffle) == remove_all(w, bad, CycleMode::Shuffle));
    assert(remove_all(w, bad, CycleMode::Shuffle) == w);
    lemma_shuffle_removal_rest(v, pos);
    let b = v.order.skip(v.cursor as int);
    assert(!b.contains(pos as usize)) by {
        if b.contains(pos as usize) {
            let k = choose|k: int| 0 <= k < b.len() && b[k] == pos as usize;
            assert(v.order[v.cursor + k] == v.order[v.cursor - 1]);
        }
    }
    assert forall|k: int| 0 <= k < b.len() implies (#[trigger] b[k]) < v.images.len() by {
        assert(b[k] == v.order[v.cursor + k]);
    }
    lemma_reindex_same_images(b, v.images, pos as usize);
    assert(rest_of_pass(w) =~= rest_of_pass(v));
}

/// A picked image always comes from the playlist it was drawn from.
pub proof fn lemma_next_picks_own_image(old: PlaylistView, new: PlaylistView, mode: CycleMode, r: Seq<char>)
    requires
        old.wf(),
        next_step(old, new, mode, Some(r)),
    ensures
        old.images.contains(r),
{
    match mode {
        CycleMode::Sequential => {
            assert(old.images[old.sequential_position()] == r);
        },
        CycleMode::Shuffle => {
            if old.cursor < old.order.len() {
                assert(old.images[old.order[old.cursor as int] as int] == r);
            } else {
                broadcast use vstd::seq_lib::group_to_multiset_ensures;

                assert(new.order.len() == old.order.to_multiset().len());
                lemma_same_multiset_wf(old, new.order, 1);
                assert(old.images[new.order[0] as int] == r);
            }
        },
        CycleMode::PureRandom => {
            let i = choose|i: int| 0 <= i < old.images.len() && r == #[trigger] old.images[i];
            assert(old.images[i] == r);
        },
    }
}

/// Every image left after a removal was in the playlist before.
pub proof fn lemma_removal_images(v: PlaylistView, pos: int, mode: CycleMode, x: Seq<char>)
    requires
        0 <= pos < v.images.len(),
        removal(v, pos, mode).images.contains(x),
    ensures
        v.images.contains(x),
{
    let w = removal(v, pos, mode);
    let k = choose|k: int| 0 <= k < w.images.len() && w.images[k] == x;
    if k < pos {
        assert(v.images[k] == x);
    } else {
        assert(v.images[k + 1] == x);
    }
}

/// Law: the supported image formats are exactly jpg, jpeg, png and bmp, in
/// any letter case: an extension is supported exactly when its lower-case
/// form is one of those four (so gif, webp, txt and the empty extension are
/// not).
pub proof fn law_supported_formats(e: Seq<char>)
    ensures
        supported_extension(e) <==> {
            let l = lowercase(e);
            ||| l =~= seq!['j', 'p', 'g']
            ||| l =~= seq!['j', 'p', 'e', 'g']
            ||| l =~= seq!['p', 'n', 'g']
            ||| l =~= seq!['b', 'm', 'p']
        },
        lowercase(e) =~= seq!['g', 'i', 'f'] ==> !supported_extension(e),
        lowercase(e) =~= seq!['w', 'e', 'b', 'p'] ==> !supported_extension(e),
        lowercase(e).len() == 0 ==> !supported_extension(e),
{
}

/// Law: in Sequential mode, skipping the image that the previous step just
/// returned (when it occurs once, at position `p` of a list of two or more)
/// returns the image that followed it: the one after position `p`, or the
/// first image when `p` was the last position.
pub proof fn law_sequential_skip_returns_following_image(
    v0: PlaylistView,
    v: PlaylistView,
    w: PlaylistView,
    bad: Seq<char>,
    p: int,
    r: Seq<char>,
)
    requires
        v0.wf(),
        2 <= v0.images.len() <= usize::MAX,
        0 <= p < v0.images.len(),
        v0.images[p] == bad,
        forall|k: int| 0 <= k < v0.images.len() && v0.images[k] == bad ==> k == p,
        next_step(v0, v, CycleMode::Sequential, Some(bad)),
        next_step(remove_all(v, bad, CycleMode::Sequential), w, CycleMode::Sequential, Some(r)),
    ensures
        r == if p < v0.images.len() - 1 {
            v0.images[p + 1]
        } else {
            v0.images[0]
        },
{
    let n = v0.images.len() as int;
    let sp = v0.sequential_position();
    assert(v0.images[sp] == bad);
    assert(sp == p);
    if p + 1 < n {
        vstd::arithmetic::div_mod::lemma_small_mod((p + 1) as nat, n as nat);
    } else {
        vstd::arithmetic::div_mod::lemma_mod_self_0(n);
    }
    assert(v.images == v0.images);
    assert(first_position(v.images, bad, p));
    lemma_first_index(v.images, bad);
    let u = removal(v, p, CycleMode::Sequential);
    assert(!u.images.contains(bad)) by {
        if u.images.contains(bad) {
            let k = choose|k: int| 0 <= k < u.images.len() && u.images[k] == bad;
            if k < p {
                assert(v0.images[k] == bad);
            } else {
                assert(v0.images[k + 1] == bad);
            }
        }
    }
    assert(remove_all(v, bad, CycleMode::Sequential) == remove_all(u, bad, CycleMode::Sequential));
    assert(remove_all(u, bad, CycleMode::Sequential) == u);
    if p + 1 < n {
        assert(u.cursor == p);
        assert(u.images[p] == v0.images[p + 1]);
    } else {
        assert(u.cursor == 0);
        assert(u.images[0] == v0.images[0]);
    }
}

/// Law: in PureRandom mode a step on a non-empty playlist returns the image
/// at the index that the random source drew over the whole playlist, whatever
/// the cursor and the shuffle permutation hold, and leaves the playlist as it
/// was.
pub proof fn law_pure_random_returns_drawn_image(
    v: PlaylistView,
    w: PlaylistView,
    before: StdRng,
    after: StdRng,
    r: Option<Seq<char>>,
)
    requires
        v.wf(),
        v.images.len() > 0,
        next_step(v, w, CycleMode::PureRandom, r),
        random_draw(v, before, after, r),
    ensures
        w == v,
        exists|i: usize|
            #![trigger drew(before, after, v.images.len() as usize, i)]
            drew(before, after, v.images.len() as usize, i) && i < v.images.len() && r == Some(
                v.images[i as int],
            ),
{
    assert(w =~= v);
}

} // verus!
