//! `trellis://` links: the links minted for cards and groups, the check a
//! link's document name gets, the desktop handler entry registration writes,
//! and reading back which binary an existing entry launches.

use vstd::prelude::*;
use crate::journal::{ascii_lower, ascii_lower_exec};
use crate::text::{
    chars_of, concat_chars, decimal, find_chars, find_from, lines, push_decimal, split_lines,
    starts_with, starts_with_exec, string_of, sub_chars, trim, trim_chars,
};

verus! {

/// The `.desktop` file that makes `exe` the handler of `scheme` links: `%u`
/// hands the link over as the first argument, and `NoDisplay` keeps the
/// handler out of the application menu.
pub open spec fn spec_desktop_entry(exe: Seq<char>, scheme: Seq<char>) -> Seq<char> {
    "[Desktop Entry]\nType=Application\nName=Trellis link handler\nExec="@ + exe
        + " %u\nNoDisplay=true\nTerminal=false\nMimeType=x-scheme-handler/"@ + scheme + ";\n"@
}

/// The handler entry for `scheme` links launching `exe`.
pub fn desktop_entry(exe: &str, scheme: &str) -> (r: String)
    ensures
        r@ == spec_desktop_entry(exe@, scheme@),
{
    let a = concat_chars(
        &chars_of("[Desktop Entry]\nType=Application\nName=Trellis link handler\nExec="),
        &chars_of(exe),
    );
    let b = concat_chars(
        &a,
        &chars_of(" %u\nNoDisplay=true\nTerminal=false\nMimeType=x-scheme-handler/"),
    );
    let c = concat_chars(&concat_chars(&b, &chars_of(scheme)), &chars_of(";\n"));
    string_of(&c)
}

/// What follows `Exec=` on the first line that starts with it.
pub open spec fn exec_value(ls: Seq<Seq<char>>) -> Option<Seq<char>>
    decreases ls.len(),
{
    if ls.len() == 0 {
        None
    } else if starts_with(ls[0], "Exec="@) {
        Some(ls[0].skip(5))
    } else {
        exec_value(ls.drop_first())
    }
}

/// `s` up to the first occurrence of `m`, or all of it.
pub open spec fn before(s: Seq<char>, m: Seq<char>) -> Seq<char> {
    match find_from(s, m, 0) {
        Some(i) => s.take(i),
        None => s,
    }
}

/// The binary a handler entry launches: its `Exec=` value up to the ` %`
/// that starts the arguments, trimmed; `None` without one.
pub open spec fn spec_desktop_exec_path(text: Seq<char>) -> Option<Seq<char>> {
    match exec_value(lines(text)) {
        Some(v) => {
            let p = trim(before(v, " %"@));
            if p.len() == 0 {
                None
            } else {
                Some(p)
            }
        },
        None => None,
    }
}

/// Read the path of the binary an existing handler entry launches, so a
/// caller can check that it is still there.
pub fn desktop_exec_path(text: &str) -> (r: Option<String>)
    ensures
        match r {
            Some(p) => spec_desktop_exec_path(text@) == Some(p@),
            None => spec_desktop_exec_path(text@) is None,
        },
{
    let ls = split_lines(&chars_of(text));
    let ghost all = ls.deep_view();
    let prefix = chars_of("Exec=");
    proof {
        reveal_strlit("Exec=");
    }
    let mut i: usize = 0;
    assert(all.skip(0) =~= all);
    while i < ls.len()
        invariant
            i <= ls@.len(),
            all == ls.deep_view(),
            all == lines(text@),
            prefix@ == "Exec="@,
            prefix@.len() == 5,
            exec_value(all) == exec_value(all.skip(i as int)),
        decreases ls@.len() - i,
    {
        assert(all.skip(i as int)[0] == ls@[i as int]@);
        assert(all.skip(i as int).drop_first() =~= all.skip(i + 1));
        if starts_with_exec(&ls[i], &prefix) {
            let v = sub_chars(&ls[i], 5, ls[i].len());
            assert(v@ =~= ls@[i as int]@.skip(5));
            let marker = chars_of(" %");
            let head = match find_chars(&v, &marker) {
                Some(k) => {
                    proof {
                        crate::text::lemma_find_from_bound(v@, marker@, 0);
                    }
                    sub_chars(&v, 0, k)
                },
                None => v,
            };
            let p = trim_chars(&head);
            if p.len() == 0 {
                return None;
            } else {
                return Some(string_of(&p));
            }
        }
        i += 1;
    }
    assert(all.skip(i as int) =~= Seq::<Seq<char>>::empty());
    None
}


/// What an item link points at.
#[derive(Clone, Copy, PartialEq, Eq, Structural)]
pub enum LinkKind {
    Card,
    Group,
}

/// The links minted for a card or a group.
pub struct ItemLinks {
    /// `trellis://127.0.0.1:<port>/<kind>/<id>`: what you paste.
    pub link: String,
    /// The same with `?doc=<document>`, so a different document on that
    /// port is an error rather than a silent landing on the wrong item.
    pub link_verified: String,
    /// `http://127.0.0.1:<port>/open/<kind>/<id>`, which works with nothing
    /// registered.
    pub http: String,
    /// For a group, the in-document form `[[#g<id>]]`.
    pub wikilink: Option<String>,
}

/// The path word of a link kind.
pub open spec fn kind_word(k: LinkKind) -> Seq<char> {
    match k {
        LinkKind::Card => "card"@,
        LinkKind::Group => "group"@,
    }
}

/// `trellis://127.0.0.1:<port>/<kind>/<id>`. The host is spelled out so
/// that the port sits in the port position: a bare number in the host
/// position is a legal IPv4 address, and URL parsers rewrite it.
pub open spec fn spec_item_link(k: LinkKind, id: nat, port: nat) -> Seq<char> {
    "trellis://127.0.0.1:"@ + decimal(port) + "/"@ + kind_word(k) + "/"@ + decimal(id)
}

/// `http://127.0.0.1:<port>/open/<kind>/<id>`.
pub open spec fn spec_http_link(k: LinkKind, id: nat, port: nat) -> Seq<char> {
    "http://127.0.0.1:"@ + decimal(port) + "/open/"@ + kind_word(k) + "/"@ + decimal(id)
}

/// The wiki link of a group, `[[#g<id>]]`; cards have none.
pub open spec fn spec_wikilink(k: LinkKind, id: nat) -> Option<Seq<char>> {
    match k {
        LinkKind::Card => None,
        LinkKind::Group => Some("[[#g"@ + decimal(id) + "]]"@),
    }
}

fn kind_word_exec(k: LinkKind) -> (r: Vec<char>)
    ensures
        r@ == kind_word(k),
{
    match k {
        LinkKind::Card => chars_of("card"),
        LinkKind::Group => chars_of("group"),
    }
}

/// The links to card or group `id` of the document `doc` served on `port`.
pub fn item_links(kind: LinkKind, id: u64, port: u16, doc: &str) -> (r: ItemLinks)
    ensures
        r.link@ == spec_item_link(kind, id as nat, port as nat),
        r.link_verified@ == spec_item_link(kind, id as nat, port as nat) + "?doc="@ + doc@,
        r.http@ == spec_http_link(kind, id as nat, port as nat),
        match r.wikilink {
            Some(w) => spec_wikilink(kind, id as nat) == Some(w@),
            None => spec_wikilink(kind, id as nat) is None,
        },
{
    proof {
        reveal_strlit("/");
        reveal_strlit("/open");
        reveal_strlit("/open/");
    }
    let word = kind_word_exec(kind);
    let mut tail = chars_of("/");
    tail = concat_chars(&tail, &word);
    tail.push('/');
    push_decimal(&mut tail, id);
    let mut a = chars_of("trellis://127.0.0.1:");
    push_decimal(&mut a, port as u64);
    let link = concat_chars(&a, &tail);
    assert(link@ =~= spec_item_link(kind, id as nat, port as nat));
    let verified = concat_chars(&concat_chars(&link, &chars_of("?doc=")), &chars_of(doc));
    let mut h = chars_of("http://127.0.0.1:");
    push_decimal(&mut h, port as u64);
    let h2 = concat_chars(&concat_chars(&h, &chars_of("/open")), &tail);
    assert(h2@ =~= spec_http_link(kind, id as nat, port as nat));
    let wikilink = match kind {
        LinkKind::Card => None,
        LinkKind::Group => {
            let mut w = chars_of("[[#g");
            push_decimal(&mut w, id);
            let w2 = concat_chars(&w, &chars_of("]]"));
            Some(string_of(&w2))
        },
    };
    ItemLinks {
        link: string_of(&link),
        link_verified: string_of(&verified),
        http: string_of(&h2),
        wikilink,
    }
}

/// Whether `a` and `b` are equal once ASCII letters are lower-cased.
pub open spec fn ascii_eq_ignore_case(a: Seq<char>, b: Seq<char>) -> bool {
    a.len() == b.len() && forall|i: int| 0 <= i < a.len() ==> #[trigger] ascii_lower(a[i])
        == ascii_lower(b[i])
}

/// Whether `a` and `b` agree up to the case of ASCII letters.
pub fn ascii_eq_ignore_case_exec(a: &Vec<char>, b: &Vec<char>) -> (r: bool)
    ensures
        r == ascii_eq_ignore_case(a@, b@),
{
    if a.len() != b.len() {
        return false;
    }
    let mut i: usize = 0;
    while i < a.len()
        invariant
            i <= a@.len(),
            a@.len() == b@.len(),
            forall|k: int| 0 <= k < i ==> #[trigger] ascii_lower(a@[k]) == ascii_lower(b@[k]),
        decreases a@.len() - i,
    {
        if ascii_lower_exec(a[i]) != ascii_lower_exec(b[i]) {
            return false;
        }
        i += 1;
    }
    true
}

/// The answer to opening a link that names document `want` on a port
/// serving document `have`: fine when no document is named or the names
/// agree up to ASCII case, else the error saying which is served.
pub fn open_doc_check(have: &str, want: &str) -> (r: Result<(), String>)
    ensures
        r is Ok <==> (want@.len() == 0 || ascii_eq_ignore_case(have@, want@)),
        r matches Err(m) ==> m@ == "this port is serving "@ + have@ + ", not "@ + want@,
{
    let h = chars_of(have);
    let w = chars_of(want);
    if w.len() == 0 {
        return Ok(());
    }
    let same = ascii_eq_ignore_case_exec(&h, &w);
    if same {
        Ok(())
    } else {
        let a = concat_chars(&chars_of("this port is serving "), &h);
        let b = concat_chars(&concat_chars(&a, &chars_of(", not ")), &w);
        Err(string_of(&b))
    }
}


/// The page served for a link opened in a browser, up to the title.
pub const GO_PAGE_HEAD: &'static str = r##"<!doctype html>
<html lang="en"><head>
<meta charset="utf-8">
<meta name="viewport" content="width=device-width, initial-scale=1">
<title>Open in Trellis</title>
<style>
  :root { color-scheme: light dark; }
  body { margin: 0; min-height: 100vh; display: flex; align-items: center;
         justify-content: center; font: 16px/1.5 system-ui, sans-serif;
         background: #faf9f7; color: #1c1917; padding: 24px; }
  main { max-width: 30rem; width: 100%; text-align: center; }
  h1 { font-size: 1.05rem; font-weight: 600; margin: 0 0 .25rem; }
  .where { margin: 0 0 1.5rem; font-size: .85rem; opacity: .65; }
  a.go { display: block; padding: .9rem 1.25rem; border-radius: .6rem;
          background: #4f46e5; color: #fff; text-decoration: none;
          font-weight: 600; }
  code { display: block; margin-top: 1.5rem; font-size: .72rem; opacity: .55;
          word-break: break-all; }
  @media (prefers-color-scheme: dark) {
    body { background: #1c1917; color: #f5f5f4; }
  }
</style>
</head><body><main>
<h1>"##;

/// The page after the subtitle, up to the item's path in the link.
pub const GO_PAGE_LINK: &'static str = r##"
<a class="go" id="go" href="#">Open in Trellis</a>
<code id="url"></code>
<script>
  // location.host is the only address known to be reachable from THIS device:
  // the desktop would have written 127.0.0.1, which on a phone is the phone.
  var url = "trellis://" + location.host + "/"##;

/// The page after the document name.
pub const GO_PAGE_TAIL: &'static str = r##"");
  document.getElementById("go").href = url;
  document.getElementById("url").textContent = url;
</script>
</main></body></html>
"##;

/// A character as written inside a JavaScript string literal: a backslash
/// or a double quote gets a backslash before it.
pub open spec fn js_char(c: char) -> Seq<char> {
    if c == '\\' || c == '"' {
        seq!['\\', c]
    } else {
        seq![c]
    }
}

/// `s` as the body of a double-quoted JavaScript string literal.
pub open spec fn js_escape(s: Seq<char>) -> Seq<char>
    decreases s.len(),
{
    if s.len() == 0 {
        Seq::empty()
    } else {
        js_escape(s.drop_last()) + js_char(s.last())
    }
}

/// The line under the title naming where the item is, when it is anywhere.
pub open spec fn go_subtitle(place_html: Seq<char>) -> Seq<char> {
    if place_html.len() == 0 {
        Seq::empty()
    } else {
        "<p class=\"where\">"@ + place_html + "</p>"@
    }
}

/// The page for a link opened in a browser: the item's title and place,
/// and a button whose `trellis://` link is built on the device that shows
/// the page, with this page's own host and the item's `path` and document.
pub open spec fn spec_go_page(
    path: Seq<char>,
    doc: Seq<char>,
    title_html: Seq<char>,
    place_html: Seq<char>,
) -> Seq<char> {
    GO_PAGE_HEAD@ + title_html + "</h1>\n"@ + go_subtitle(place_html) + GO_PAGE_LINK@ + path
        + "?doc=\" + encodeURIComponent(\""@ + js_escape(doc) + GO_PAGE_TAIL@
}

/// Writes `s` as the body of a JavaScript string literal.
pub fn js_escape_exec(s: &str) -> (r: Vec<char>)
    ensures
        r@ == js_escape(s@),
{
    let cs = chars_of(s);
    let mut r: Vec<char> = Vec::new();
    let mut i: usize = 0;
    while i < cs.len()
        invariant
            i <= cs@.len(),
            cs@ == s@,
            r@ == js_escape(cs@.take(i as int)),
        decreases cs@.len() - i,
    {
        let c = cs[i];
        assert(cs@.take(i + 1).drop_last() =~= cs@.take(i as int));
        if c == '\\' || c == '"' {
            r.push('\\');
        }
        r.push(c);
        i += 1;
    }
    assert(cs@.take(cs@.len() as int) =~= cs@);
    r
}

/// The page served for a link opened in a browser. `title_html` and
/// `place_html` are the item's title and place, already escaped for HTML;
/// `doc` goes into a script, so it is escaped for a JavaScript string here.
pub fn go_page(path: &str, doc: &str, title_html: &str, place_html: &str) -> (r: String)
    ensures
        r@ == spec_go_page(path@, doc@, title_html@, place_html@),
{
    let place = chars_of(place_html);
    let sub = if place.len() == 0 {
        Vec::new()
    } else {
        concat_chars(&concat_chars(&chars_of("<p class=\"where\">"), &place), &chars_of("</p>"))
    };
    assert(sub@ =~= go_subtitle(place_html@));
    let mut v = concat_chars(&chars_of(GO_PAGE_HEAD), &chars_of(title_html));
    v = concat_chars(&v, &chars_of("</h1>\n"));
    v = concat_chars(&v, &sub);
    v = concat_chars(&v, &chars_of(GO_PAGE_LINK));
    v = concat_chars(&v, &chars_of(path));
    v = concat_chars(&v, &chars_of("?doc=\" + encodeURIComponent(\""));
    v = concat_chars(&v, &js_escape_exec(doc));
    v = concat_chars(&v, &chars_of(GO_PAGE_TAIL));
    string_of(&v)
}

/// What startup does about the `trellis://` link handler.
#[derive(Clone, Copy, PartialEq, Eq, Structural, Debug)]
pub enum SchemeStartup {
    /// Leave the installed handler, and the record of it, alone.
    Keep,
    /// Install this binary as the handler.
    Register,
}

/// The startup rule for the link handler: register only when this binary's
/// path is known and no working handler is installed. A working handler is
/// never replaced, whichever binary it points at: several instances share
/// one desktop-wide handler, and re-pointing it at a scratch build would
/// break every link once that build is gone.
pub open spec fn spec_scheme_startup(exe_known: bool, handler_healthy: bool) -> SchemeStartup {
    if exe_known && !handler_healthy {
        SchemeStartup::Register
    } else {
        SchemeStartup::Keep
    }
}

/// Decides whether startup registers this binary as the link handler.
pub fn scheme_startup(exe_known: bool, handler_healthy: bool) -> (r: SchemeStartup)
    ensures
        r == spec_scheme_startup(exe_known, handler_healthy),
{
    if exe_known && !handler_healthy {
        SchemeStartup::Register
    } else {
        SchemeStartup::Keep
    }
}

/// Which binary is on record as the handler after startup: the record as
/// it was when nothing was done; after a registration, this binary when it
/// succeeded and nothing when it failed.
pub fn scheme_recorded(
    action: SchemeStartup,
    exe_now: Option<String>,
    registered_for: Option<String>,
    registration_ok: bool,
) -> (r: Option<String>)
    ensures
        action == SchemeStartup::Keep ==> r == registered_for,
        action == SchemeStartup::Register ==> r == (if registration_ok {
            exe_now
        } else {
            None
        }),
{
    match action {
        SchemeStartup::Keep => registered_for,
        SchemeStartup::Register => if registration_ok {
            exe_now
        } else {
            None
        },
    }
}

} // verus!
