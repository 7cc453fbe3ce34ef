//! Names the application shows or writes: window titles, download and
//! export names, labels, settings keys, and the binary a restart relaunches.

use vstd::prelude::*;
use crate::text::{
    chars_of, concat_chars, decimal, push_decimal, string_of, trim, trim_chars, trim_end_char,
    trim_end_char_exec, trim_start_char, trim_start_char_exec,
};

verus! {

/// The name a downloaded card image is saved under: its stored name, or
/// `image-N.png` (1-based) when it has none.
pub open spec fn spec_download_image_name(stored: Seq<char>, index: nat) -> Seq<char> {
    if trim(stored).len() == 0 {
        "image-"@ + decimal(index + 1) + ".png"@
    } else {
        stored
    }
}

/// Filename to pre-fill when downloading an image from a card: the image's
/// stored name, or a synthesized `image-N.png` (1-based) when it has none.
pub fn download_image_name(stored: &str, index: usize) -> (r: String)
    requires
        index < usize::MAX,
    ensures
        r@ == spec_download_image_name(stored@, index as nat),
{
    if trim_chars(&chars_of(stored)).len() == 0 {
        let mut out = chars_of("image-");
        push_decimal(&mut out, (index + 1) as u64);
        string_of(&concat_chars(&out, &chars_of(".png")))
    } else {
        stored.to_owned()
    }
}

/// Error text when a card lookup fails during export (it was deleted between
/// opening the menu and the action running).
pub fn card_gone() -> (r: String)
    ensures
        r@ == "card not found"@,
{
    "card not found".to_owned()
}

/// The kinds of card a basket holds.
#[derive(Clone, Copy, PartialEq, Eq, Structural)]
pub enum CardKind {
    Text,
    Code,
    Checklist,
    Table,
    Image,
    Sketch,
}

/// The short label of a card kind.
pub open spec fn spec_card_kind_label(k: CardKind) -> Seq<char> {
    match k {
        CardKind::Text => "text"@,
        CardKind::Code => "code"@,
        CardKind::Checklist => "checklist"@,
        CardKind::Table => "table"@,
        CardKind::Image => "image"@,
        CardKind::Sketch => "sketch"@,
    }
}

/// A short human label for a card kind, used in status messages.
pub fn card_kind_label(kind: &CardKind) -> (r: &'static str)
    ensures
        r@ == spec_card_kind_label(*kind),
{
    match kind {
        CardKind::Text => "text",
        CardKind::Code => "code",
        CardKind::Checklist => "checklist",
        CardKind::Table => "table",
        CardKind::Image => "image",
        CardKind::Sketch => "sketch",
    }
}

/// Whether two string slices hold the same characters.
pub fn str_eq(a: &str, b: &str) -> (r: bool)
    ensures
        r == (a@ == b@),
{
    let x = chars_of(a);
    let y = chars_of(b);
    if x.len() != y.len() {
        return false;
    }
    let mut i: usize = 0;
    while i < x.len()
        invariant
            x@ == a@,
            y@ == b@,
            x@.len() == y@.len(),
            i <= x@.len(),
            forall|k: int| 0 <= k < i ==> x@[k] == y@[k],
        decreases x@.len() - i,
    {
        if x[i] != y[i] {
            proof {
                if a@ == b@ {
                    assert(x@[i as int] == y@[i as int]);
                }
            }
            return false;
        }
        i += 1;
    }
    assert(x@ =~= y@);
    true
}

/// Selectable themes, listed under View → Themes.
#[derive(Clone, Copy, PartialEq, Eq, Structural)]
pub enum Theme {
    Trellis,
    Light,
    TerminalGreen,
    StickyNotes,
    Futuristic,
    SynthWave,
    Blueprint,
    Silkscreen,
    Phosphor,
}

/// The settings key a theme is saved under.
pub open spec fn spec_theme_key(t: Theme) -> Seq<char> {
    match t {
        Theme::Trellis => "Trellis"@,
        Theme::Light => "Light"@,
        Theme::TerminalGreen => "TerminalGreen"@,
        Theme::StickyNotes => "StickyNotes"@,
        Theme::Futuristic => "Futuristic"@,
        Theme::SynthWave => "SynthWave"@,
        Theme::Blueprint => "Blueprint"@,
        Theme::Silkscreen => "Silkscreen"@,
        Theme::Phosphor => "Phosphor"@,
    }
}

/// The theme a saved key names; any other key (such as the pre-rename
/// `Dark`) is the default look.
pub open spec fn spec_theme_from_key(s: Seq<char>) -> Theme {
    if s == "Light"@ {
        Theme::Light
    } else if s == "TerminalGreen"@ {
        Theme::TerminalGreen
    } else if s == "StickyNotes"@ {
        Theme::StickyNotes
    } else if s == "Futuristic"@ {
        Theme::Futuristic
    } else if s == "SynthWave"@ {
        Theme::SynthWave
    } else if s == "Blueprint"@ {
        Theme::Blueprint
    } else if s == "Silkscreen"@ {
        Theme::Silkscreen
    } else if s == "Phosphor"@ {
        Theme::Phosphor
    } else {
        Theme::Trellis
    }
}

impl Theme {
    /// The theme a saved key names.
    pub fn from_key(s: &str) -> (r: Theme)
        ensures
            r == spec_theme_from_key(s@),
    {
        if str_eq(s, "Light") {
            Theme::Light
        } else if str_eq(s, "TerminalGreen") {
            Theme::TerminalGreen
        } else if str_eq(s, "StickyNotes") {
            Theme::StickyNotes
        } else if str_eq(s, "Futuristic") {
            Theme::Futuristic
        } else if str_eq(s, "SynthWave") {
            Theme::SynthWave
        } else if str_eq(s, "Blueprint") {
            Theme::Blueprint
        } else if str_eq(s, "Silkscreen") {
            Theme::Silkscreen
        } else if str_eq(s, "Phosphor") {
            Theme::Phosphor
        } else {
            Theme::Trellis
        }
    }

    /// The key this theme is saved under.
    pub fn key(self) -> (r: &'static str)
        ensures
            r@ == spec_theme_key(self),
    {
        match self {
            Theme::Trellis => "Trellis",
            Theme::Light => "Light",
            Theme::TerminalGreen => "TerminalGreen",
            Theme::StickyNotes => "StickyNotes",
            Theme::Futuristic => "Futuristic",
            Theme::SynthWave => "SynthWave",
            Theme::Blueprint => "Blueprint",
            Theme::Silkscreen => "Silkscreen",
            Theme::Phosphor => "Phosphor",
        }
    }
}

/// Where a panel lives: inside the main window, or in one of its own.
#[derive(Clone, Copy, PartialEq, Eq, Structural)]
pub enum Placement {
    Docked,
    Window,
}

/// The settings value of a placement.
pub open spec fn spec_placement_str(p: Placement) -> Seq<char> {
    match p {
        Placement::Window => "window"@,
        Placement::Docked => "docked"@,
    }
}

/// The button label of a placement: what clicking it does.
pub open spec fn spec_placement_label(p: Placement) -> Seq<char> {
    match p {
        Placement::Docked => "⧉ Detach"@,
        Placement::Window => "⧉ Dock"@,
    }
}

/// The other placement.
pub open spec fn spec_toggled(p: Placement) -> Placement {
    match p {
        Placement::Docked => Placement::Window,
        Placement::Window => Placement::Docked,
    }
}

impl Placement {
    /// The placement a saved value names; anything but `window` is docked.
    pub fn from_str(s: &str) -> (r: Self)
        ensures
            r == (if s@ == "window"@ {
                Placement::Window
            } else {
                Placement::Docked
            }),
    {
        if str_eq(s, "window") {
            Placement::Window
        } else {
            Placement::Docked
        }
    }

    /// The value this placement is saved as.
    pub fn as_str(self) -> (r: &'static str)
        ensures
            r@ == spec_placement_str(self),
    {
        match self {
            Placement::Window => "window",
            Placement::Docked => "docked",
        }
    }

    /// Says what clicking it does, not what state you are in.
    pub fn label(self) -> (r: &'static str)
        ensures
            r@ == spec_placement_label(self),
    {
        match self {
            Placement::Docked => "⧉ Detach",
            Placement::Window => "⧉ Dock",
        }
    }

    /// The other placement.
    pub fn toggled(self) -> (r: Self)
        ensures
            r == spec_toggled(self),
    {
        match self {
            Placement::Docked => Placement::Window,
            Placement::Window => Placement::Docked,
        }
    }
}

/// The Settings status line describing where the API listens.
pub open spec fn spec_api_status_line(lan: bool, port: nat, lan_host: Option<Seq<char>>) -> Seq<
    char,
> {
    if lan {
        let host = match lan_host {
            Some(h) => h,
            None => "0.0.0.0"@,
        };
        "Listening on http://"@ + host + ":"@ + decimal(port) + "/api (LAN)"@
    } else {
        "Listening on http://127.0.0.1:"@ + decimal(port) + "/api"@
    }
}

/// The Settings status line describing where the API is listening, given
/// the machine's LAN address when it could be found.
pub fn api_status_line(lan: bool, port: u16, lan_host: Option<&str>) -> (r: String)
    ensures
        r@ == spec_api_status_line(lan, port as nat, crate::palette::opt_view(lan_host)),
{
    let mut port_digits: Vec<char> = Vec::new();
    push_decimal(&mut port_digits, port as u64);
    if lan {
        let host = match lan_host {
            Some(h) => chars_of(h),
            None => chars_of("0.0.0.0"),
        };
        let a = concat_chars(&chars_of("Listening on http://"), &host);
        let b = concat_chars(&concat_chars(&a, &chars_of(":")), &port_digits);
        string_of(&concat_chars(&b, &chars_of("/api (LAN)")))
    } else {
        let a = concat_chars(&chars_of("Listening on http://127.0.0.1:"), &port_digits);
        string_of(&concat_chars(&a, &chars_of("/api")))
    }
}


/// The file-name component of a path, as `Path::file_name` gives it.
pub uninterp spec fn spec_path_file_name(path: Seq<char>) -> Option<Seq<char>>;

/// Calls `Path::file_name` on `path` and converts the component to a
/// `String` (lossless, since the path is UTF-8). The result is named by
/// `spec_path_file_name`; nothing more is claimed of it.
#[verifier::external_body]
pub(crate) fn path_file_name(path: &str) -> (r: Option<String>)
    ensures
        match r {
            Some(n) => spec_path_file_name(path@) == Some(n@),
            None => spec_path_file_name(path@) is None,
        },
{
    match std::path::Path::new(path).file_name() {
        Some(n) => Some(n.to_string_lossy().into_owned()),
        None => None,
    }
}

/// A file name, or `untitled` when there is none.
pub open spec fn spec_name_or_untitled(name: Option<Seq<char>>) -> Seq<char> {
    match name {
        Some(n) => n,
        None => "untitled"@,
    }
}

/// A document's file name, or `untitled` when it has none.
pub fn name_or_untitled(name: Option<String>) -> (r: String)
    ensures
        r@ == spec_name_or_untitled(match name {
            Some(n) => Some(n@),
            None => None,
        }),
{
    match name {
        Some(n) => n,
        None => "untitled".to_owned(),
    }
}

/// The display name of a document at `path` (none for an unsaved one).
pub open spec fn spec_doc_display_name(path: Option<Seq<char>>) -> Seq<char> {
    match path {
        Some(p) => spec_name_or_untitled(spec_path_file_name(p)),
        None => "untitled"@,
    }
}

/// The open document's file name, or `untitled`: what identifies an instance
/// to a human (window title) and to an agent.
pub fn doc_display_name(path: Option<&str>) -> (r: String)
    ensures
        r@ == spec_doc_display_name(crate::palette::opt_view(path)),
{
    match path {
        Some(p) => name_or_untitled(path_file_name(p)),
        None => "untitled".to_owned(),
    }
}

/// Window/taskbar title for a document: the file name first, so two
/// instances stay distinguishable in a window list.
pub fn window_title(path: Option<&str>) -> (r: String)
    ensures
        r@ == spec_doc_display_name(crate::palette::opt_view(path)) + " — Trellis"@,
{
    let name = doc_display_name(path);
    string_of(&concat_chars(&chars_of(name.as_str()), &chars_of(" — Trellis")))
}

/// `s` without a trailing ` (deleted)` marker.
pub open spec fn strip_deleted(s: Seq<char>) -> Seq<char> {
    if crate::text::ends_with(s, " (deleted)"@) {
        s.take(s.len() - " (deleted)"@.len())
    } else {
        s
    }
}

/// The binaries a restart may relaunch, in order of preference: the running
/// executable without its ` (deleted)` marker, then `argv[0]` when it is a
/// path rather than a bare name.
pub open spec fn exe_candidates(current: Option<Seq<char>>, argv0: Option<Seq<char>>) -> Seq<
    Seq<char>,
> {
    let a: Seq<Seq<char>> = match current {
        Some(s) => seq![strip_deleted(s)],
        None => seq![],
    };
    let b: Seq<Seq<char>> = match argv0 {
        Some(s) => if s.contains('/') {
            seq![s]
        } else {
            seq![]
        },
        None => seq![],
    };
    a + b
}

/// The view of an optional owned string.
pub open spec fn opt_string_view(o: Option<String>) -> Option<Seq<char>> {
    match o {
        Some(s) => Some(s@),
        None => None,
    }
}

/// Whether a call of `is_file` on a path with view `p` answered `b`.
pub open spec fn answered<F: Fn(&str) -> bool>(is_file: F, p: Seq<char>, b: bool) -> bool {
    exists|q: &str| q@ == p && #[trigger] is_file.ensures((q,), b)
}

/// Whether `c[i]` is the first candidate `is_file` accepted.
pub open spec fn first_accepted<F: Fn(&str) -> bool>(is_file: F, c: Seq<Seq<char>>, i: int) -> bool {
    &&& 0 <= i < c.len()
    &&& answered(is_file, c[i], true)
    &&& forall|j: int| 0 <= j < i ==> answered(is_file, #[trigger] c[j], false)
}

/// The choosing half of finding the binary to relaunch on restart, with the
/// filesystem check passed in: the first candidate that exists.
pub fn pick_exe(current: Option<String>, argv0: Option<String>, is_file: impl Fn(&str) -> bool) -> (r:
    Option<String>)
    requires
        forall|q: &str| #[trigger] is_file.requires((q,)),
    ensures
        ({
            let c = exe_candidates(opt_string_view(current), opt_string_view(argv0));
            match r {
                Some(x) => exists|i: int| #[trigger] first_accepted(is_file, c, i) && x@ == c[i],
                None => forall|j: int| 0 <= j < c.len() ==> answered(is_file, #[trigger] c[j], false),
            }
        }),
{
    let ghost c = exe_candidates(opt_string_view(current), opt_string_view(argv0));
    let mut candidates: Vec<String> = Vec::new();
    if let Some(s) = current {
        let v = chars_of(s.as_str());
        let marker = chars_of(" (deleted)");
        let kept = if crate::text::ends_with_exec(&v, &marker) {
            crate::text::sub_chars(&v, 0, v.len() - marker.len())
        } else {
            v
        };
        assert(kept@ =~= strip_deleted(s@));
        candidates.push(string_of(&kept));
    }
    if let Some(a0) = argv0 {
        let v = chars_of(a0.as_str());
        let mut has_slash = false;
        let mut i: usize = 0;
        while i < v.len()
            invariant
                i <= v@.len(),
                has_slash <==> exists|k: int| 0 <= k < i && v@[k] == '/',
            decreases v@.len() - i,
        {
            if v[i] == '/' {
                has_slash = true;
            }
            i += 1;
        }
        proof {
            if v@.contains('/') {
                let k = choose|k: int| 0 <= k < v@.len() && v@[k] == '/';
                assert(has_slash);
            }
        }
        if has_slash {
            candidates.push(a0);
        }
    }
    assert(candidates.deep_view() =~= c);
    let mut k: usize = 0;
    #[verifier::loop_isolation(false)]
    while k < candidates.len()
        invariant
            k <= candidates@.len(),
            candidates.deep_view() == c,
            forall|q: &str| #[trigger] is_file.requires((q,)),
            forall|j: int| 0 <= j < k ==> answered(is_file, #[trigger] c[j], false),
        decreases candidates@.len() - k,
    {
        let here = is_file(candidates[k].as_str());
        assert(c[k as int] == candidates@[k as int]@);
        assert(answered(is_file, c[k as int], here));
        if here {
            let x = candidates[k].clone();
            assert(x@ == c[k as int]);
            assert(first_accepted(is_file, c, k as int));
            return Some(x);
        }
        k += 1;
    }
    None
}


/// Whether `char::is_alphanumeric` holds of `c` (Unicode letters and
/// numbers).
pub uninterp spec fn spec_is_alphanumeric(c: char) -> bool;

/// Calls `char::is_alphanumeric`. Its result, which follows Unicode's
/// tables, is named by `spec_is_alphanumeric`; nothing more is claimed.
#[verifier::external_body]
fn is_alphanumeric(c: char) -> (r: bool)
    ensures
        r == spec_is_alphanumeric(c),
{
    c.is_alphanumeric()
}

/// Whether an export file name keeps `c` as it is.
pub open spec fn name_safe(c: char) -> bool {
    spec_is_alphanumeric(c) || c == ' ' || c == '-' || c == '_' || c == '.'
}

/// `s` with every character a file name should not carry replaced by `_`.
pub open spec fn sanitized(s: Seq<char>) -> Seq<char> {
    s.map_values(|c: char| if name_safe(c) {
        c
    } else {
        '_'
    })
}

/// The file name an export is offered under: the title, trimmed, with
/// unsafe characters replaced by `_`, without leading or trailing dots; the
/// fallback when nothing is left.
pub open spec fn spec_export_basename(title: Seq<char>, fallback: Seq<char>) -> Seq<char> {
    let c = trim(
        trim_start_char(trim_end_char(trim(sanitized(trim(title))), '.'), '.'),
    );
    if c.len() == 0 {
        fallback
    } else {
        c
    }
}

/// The base file name to pre-fill when exporting a card or basket titled
/// `title`: `fallback` (`card`, `basket`) when the title leaves nothing.
pub fn export_basename(title: &str, fallback: &str) -> (r: String)
    ensures
        r@ == spec_export_basename(title@, fallback@),
{
    let raw = trim_chars(&chars_of(title));
    let mut mapped: Vec<char> = Vec::new();
    let mut i: usize = 0;
    while i < raw.len()
        invariant
            i <= raw@.len(),
            mapped@ == sanitized(raw@.take(i as int)),
        decreases raw@.len() - i,
    {
        let c = raw[i];
        let keep = is_alphanumeric(c) || c == ' ' || c == '-' || c == '_' || c == '.';
        mapped.push(if keep {
            c
        } else {
            '_'
        });
        assert(mapped@ =~= sanitized(raw@.take(i + 1)));
        i += 1;
    }
    assert(raw@.take(i as int) =~= raw@);
    let a = trim_chars(&mapped);
    let b = trim_end_char_exec(&a, '.');
    let c = trim_start_char_exec(&b, '.');
    let d = trim_chars(&c);
    if d.len() == 0 {
        fallback.to_owned()
    } else {
        string_of(&d)
    }
}

/// The colours that tell untagged projects apart, in order.
pub open spec fn spec_fallback_color(i: nat) -> (u8, u8, u8) {
    if i == 0 {
        (0x5c, 0xa8, 0xe6)
    } else if i == 1 {
        (0xe1, 0x6f, 0x6f)
    } else if i == 2 {
        (0x54, 0xbd, 0x86)
    } else if i == 3 {
        (0xe3, 0xac, 0x53)
    } else if i == 4 {
        (0xa4, 0x8b, 0xe0)
    } else if i == 5 {
        (0x4c, 0xbf, 0xbf)
    } else if i == 6 {
        (0xdd, 0x7f, 0xbb)
    } else {
        (0x9a, 0xa8, 0xb5)
    }
}

/// How many fallback colours there are before they repeat.
pub const FALLBACK_COLORS: u64 = 8;

/// The colour of a project (a top-level node, `root`) in task views: the
/// node's own colour tag when it has one, so the agenda matches the dot in
/// the tree; otherwise a fixed colour picked by the node's id, stable for
/// the life of the document and not repeated until the list wraps.
pub fn project_color(node_color: Option<(u8, u8, u8)>, root: u64) -> (r: (u8, u8, u8))
    ensures
        r == (match node_color {
            Some(c) => c,
            None => spec_fallback_color((root % FALLBACK_COLORS) as nat),
        }),
{
    match node_color {
        Some(c) => c,
        None => {
            let i = root % FALLBACK_COLORS;
            if i == 0 {
                (0x5c, 0xa8, 0xe6)
            } else if i == 1 {
                (0xe1, 0x6f, 0x6f)
            } else if i == 2 {
                (0x54, 0xbd, 0x86)
            } else if i == 3 {
                (0xe3, 0xac, 0x53)
            } else if i == 4 {
                (0xa4, 0x8b, 0xe0)
            } else if i == 5 {
                (0x4c, 0xbf, 0xbf)
            } else if i == 6 {
                (0xdd, 0x7f, 0xbb)
            } else {
                (0x9a, 0xa8, 0xb5)
            }
        },
    }
}

} // verus!
