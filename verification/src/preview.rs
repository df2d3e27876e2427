//! What the pane is showing, and every rule that decides it.
//!
//! [`Preview`] is the state a compile writes — the text the pane holds, the
//! last good PDF bytes, how long they took, the asset list, whether the page
//! still belongs to that text, and the error when there is one — and it is
//! where the refusals, the receipts and the counters the window reads are
//! decided: **every sentence the window shows and every counter it reads is
//! produced here.**
//!
//! **What stays with the host is time, threads and the engine.** A command
//! that falls due for a compile marks it due; the host takes the plan with
//! [`Preview::compile`] or [`Preview::plan`], runs the engine over it outside
//! any lock, times it, and hands the answer back to [`Preview::absorb`].
//!
//! **The buffer is what compiles.** The file beside it need never have held
//! that text, and the two are compared rather than conflated:
//! [`external_change`] is the whole of what an event naming the open document
//! now means.
use vstd::prelude::*;

use crate::document::{rows, Anchor, Entry, Render, Row};
use crate::files::MemFiles;
use crate::remote::{Fetched, Progress, Web, WebLine};
use crate::text::{strings, text_eq};

verus! {

/// What the window says about the last compile.
#[derive(Debug, Clone, Copy, PartialEq, Eq, Structural)]
pub enum State {
    /// No document has been opened.
    Empty,
    /// The last compile succeeded, and the page belongs to it.
    Current,
    /// The last compile failed, and an older page is still drawn.
    Stale,
    /// The last compile failed with no page to keep.
    Failed,
}

/// Which palette the window wears, as the author asked for it. Following the
/// system is one of the three, not the absence of the other two.
#[derive(Debug, Clone, Copy, PartialEq, Eq, Structural)]
pub enum Appearance {
    System,
    Light,
    Dark,
}

impl Default for Appearance {
    fn default() -> (a: Appearance)
        ensures
            a == Appearance::System,
    {
        Appearance::System
    }
}

/// What an external change to the open document did.
#[derive(Debug, Clone, Copy, PartialEq, Eq, Structural)]
pub enum External {
    /// The file already says what the buffer says — the app's own save
    /// arriving back, or a change that changed nothing.
    Unchanged,
    /// The buffer was clean, so nothing could be lost: the disk copy is the
    /// pane's text now.
    Taken,
    /// The buffer held unsaved edits and the disk moved under them: the work
    /// is kept and the divergence is named.
    Diverged,
}

/// The report a refused external change leaves for the author: both ways
/// out, and neither taken.
pub const DIVERGED: &'static str = "this file changed on disk, and the pane holds unsaved edits. Save to write the pane over the file, or open the file again to take it.";

/// The report a refused *switch* leaves: nothing moved on disk, the author
/// asked to put another file in the pane.
pub const SWITCHING: &'static str = "the pane holds unsaved edits, so it is still holding this file. Save to keep them, or discard them to open the other file.";

/// The report a refused *delete* leaves: nothing is being opened by a delete.
pub const TRASHING: &'static str = "the pane holds unsaved edits, and this is the file it is holding. Save to keep them, or discard them to move it to the Trash.";

/// The receipt a plain save leaves in the bar. No path: the bar already
/// carries one.
pub const SAVED: &'static str = "saved";

/// What an event naming the open document means, given what the disk holds
/// now, what the pane holds, and the text as it stood at the last open or
/// save.
pub open spec fn external_spec(file: Seq<char>, buffer: Seq<char>, saved: Seq<char>) -> External {
    if file == buffer {
        External::Unchanged
    } else if buffer == saved {
        External::Taken
    } else {
        External::Diverged
    }
}

/// The rule for an event naming the open document: the file equal to the
/// buffer is decided first, whatever the last-saved text is, and the rest
/// splits on whether the buffer holds unsaved edits. Both of its limits err
/// toward keeping work.
pub fn external_change(file: &str, buffer: &str, saved: &str) -> (e: External)
    ensures
        e == external_spec(file@, buffer@, saved@),
{
    if text_eq(file, buffer) {
        External::Unchanged
    } else if text_eq(buffer, saved) {
        External::Taken
    } else {
        External::Diverged
    }
}

/// The status line, as a value rather than as chrome: every word in it is
/// chosen here and the page only places it.
#[derive(Debug, Clone, PartialEq, Eq)]
pub struct Status {
    /// Which of the four states the pane is in.
    pub state: State,
    /// How long the compile that drew the page took, worded for the window:
    /// `"28 ms"`. `None` when no page is drawn.
    pub time: Option<String>,
    /// The message from the last compile, if it failed — left out exactly
    /// while it is the refusal of an image that is on its way.
    pub error: Option<String>,
    /// Is a page drawn under the message?
    pub page: bool,
    /// The report a refused change left, if there is one.
    pub divergence: Option<String>,
    /// How many times a compile has drawn a page.
    pub revision: u64,
    /// How many times the buffer has been replaced from disk.
    pub reloaded: u64,
    /// Where each heading landed in the page the pane is showing.
    pub anchors: Vec<Anchor>,
    /// The project's files, in the order the panel draws them.
    pub entries: Vec<Entry>,
    /// Which of them compiles.
    pub main: Option<String>,
    /// Which of them the pane is holding.
    pub edited: Option<String>,
    /// Which palette the window is wearing; a preview does not know it, and
    /// says [`Appearance::System`].
    pub appearance: Appearance,
    /// What the page says about the images the document names by URL.
    pub web: Option<WebLine>,
}

/// One compile's three inputs, owned, the order it started in, and the
/// images fetched by URL that it may read. Nothing that runs it borrows a
/// [`Preview`].
#[derive(Debug)]
pub struct Compile {
    main: String,
    edited: String,
    buffer: String,
    serial: u64,
    fetched: Fetched,
    read: Vec<(String, u64)>,
}

/// A plan, as the rules see it.
pub struct Planned {
    pub main: Seq<char>,
    pub edited: Seq<char>,
    pub buffer: Seq<char>,
    pub serial: u64,
    pub fetched: Seq<crate::remote::FetchedRow>,
    pub read: Seq<(Seq<char>, u64)>,
}

impl View for Compile {
    type V = Planned;

    closed spec fn view(&self) -> Planned {
        Planned {
            main: self.main@,
            edited: self.edited@,
            buffer: self.buffer@,
            serial: self.serial,
            fetched: crate::remote::fetched_rows(self.fetched@),
            read: crate::remote::read_rows(self.read@),
        }
    }
}

impl Compile {
    /// Which compile this is, in the order they started.
    pub fn serial(&self) -> (s: u64)
        ensures
            s == self@.serial,
    {
        self.serial
    }

    /// The file that compiles.
    pub fn main(&self) -> (m: &str)
        ensures
            m@ == self@.main,
    {
        self.main.as_str()
    }

    /// The file the pane held, whose text the buffer stands in for.
    pub fn edited(&self) -> (e: &str)
        ensures
            e@ == self@.edited,
    {
        self.edited.as_str()
    }

    /// The pane's text as it stood when this compile was planned.
    pub fn buffer(&self) -> (b: &str)
        ensures
            b@ == self@.buffer,
    {
        self.buffer.as_str()
    }

    /// The fetches this compile may read.
    pub fn fetched(&self) -> (f: &Fetched)
        ensures
            crate::remote::fetched_rows(f@) == self@.fetched,
    {
        &self.fetched
    }

    /// What the engine is handed for this compile.
    pub fn input(&self, files: &MemFiles) -> (r: Result<crate::document::Input, String>)
        ensures
            match crate::document::master_text(files@, self@.main, self@.edited, self@.buffer) {
                Err(m) => r matches Err(x) && x@ == m,
                Ok(t) => r matches Ok(input) && input.markdown@ == t
                    && input.directory@ == crate::path::directory_spec(self@.main)
                    && input.master == (self@.main == self@.edited),
            },
    {
        crate::document::render_project(files, self.main.as_str(), self.edited.as_str(), self.buffer.as_str())
    }

    /// The door this compile reads every other file through: the project,
    /// with the planned buffer standing in for the file the pane held.
    pub fn source<'a>(&'a self, files: &'a MemFiles) -> (s: crate::document::Source<'a>)
        ensures
            s.files@ == files@,
            s.edited@ == self@.edited,
            s.buffer@ == self@.buffer,
    {
        crate::document::Source { files, edited: crate::text::owned(self.edited.as_str()), buffer: self.buffer.as_str() }
    }
}

/// The pane, as the rules see it.
pub struct Showing {
    pub files: Option<Map<Seq<char>, Seq<u8>>>,
    pub images: Seq<Seq<char>>,
    pub main: Option<Seq<char>>,
    pub edited: Option<Seq<char>>,
    pub tree: Seq<Row>,
    pub buffer: Seq<char>,
    pub saved: Seq<char>,
    pub assets: Seq<Seq<char>>,
    pub sections: Seq<Seq<char>>,
    pub pdf: Option<Seq<u8>>,
    pub anchors: Seq<Anchor>,
    pub elapsed: Option<u64>,
    pub revision: u64,
    pub reloaded: u64,
    pub started: u64,
    pub landed: u64,
    pub stale: bool,
    pub error: Option<Seq<char>>,
    pub divergence: Option<Seq<char>>,
    pub urls: Seq<Seq<char>>,
    pub refused: Option<Seq<char>>,
    pub sites: Set<Seq<char>>,
    pub fetches: Map<Seq<char>, Progress>,
    pub landings: u64,
    pub claims: bool,
    pub due: bool,
}

/// An optional text, as the rules see it.
pub open spec fn opt_text(o: Option<String>) -> Option<Seq<char>> {
    match o {
        Some(s) => Some(s@),
        None => None,
    }
}

/// The pane's state, as the rules derive it. An open document with no bytes
/// and no failure is called failed, which is the safe direction: a failed
/// pane refuses an export.
pub open spec fn state_spec(p: Showing) -> State {
    if p.edited is None {
        State::Empty
    } else if p.pdf is None {
        State::Failed
    } else if p.stale {
        State::Stale
    } else {
        State::Current
    }
}

/// The state of the pane: the text it holds, the last good PDF bytes, and
/// everything the window reads about them.
///
/// **The bytes live here**, because the export has to write the same bytes
/// the pane is showing. **The text lives here too**, because the rule that
/// decides what an external change does is comparisons over strings.
pub struct Preview {
    /// The project the panel lists. It does not move when a row is clicked;
    /// it changes on an explicit open and at no other time.
    files: Option<MemFiles>,
    /// The image extensions the engine reads, which decide what the panel
    /// lists as a figure.
    images: Vec<String>,
    /// Which file under the root compiles.
    main: Option<String>,
    /// Which file the pane holds and a save writes.
    edited: Option<String>,
    /// The files under the root, as the last walk found them: refreshed on an
    /// open and when the host says the tree moved, never on a render.
    tree: Vec<Entry>,
    buffer: String,
    saved: String,
    assets: Vec<String>,
    sections: Vec<String>,
    /// The last good page, and how long the compile that drew it took, in
    /// milliseconds: a time is kept only beside the page it belongs to.
    page: Option<(Vec<u8>, u64)>,
    anchors: Vec<Anchor>,
    revision: u64,
    reloaded: u64,
    /// How many compiles have been planned, and the serial of the newest
    /// written: the newest-started answer wins, and an older one is dropped.
    started: u64,
    landed: u64,
    stale: bool,
    error: Option<String>,
    divergence: Option<String>,
    /// The images the document names by URL, off the last walk that answered.
    urls: Vec<String>,
    /// The URL the last compile was refused on, if it was one.
    refused: Option<String>,
    /// The sites the open project allows, and every URL asked about.
    web: Web,
    /// Whether the host has a fetch worker to hand a claim to. A preview with
    /// none claims nothing and marks nothing: a URL marked waiting with nobody
    /// to take it would hide its refusal for good.
    claims: bool,
    /// Whether a command has fallen due for a compile the host has not yet
    /// taken.
    due: bool,
}

impl View for Preview {
    type V = Showing;

    closed spec fn view(&self) -> Showing {
        Showing {
            files: match self.files {
                Some(f) => Some(f@),
                None => None,
            },
            images: strings(self.images@),
            main: opt_text(self.main),
            edited: opt_text(self.edited),
            tree: rows(self.tree@),
            buffer: self.buffer@,
            saved: self.saved@,
            assets: strings(self.assets@),
            sections: strings(self.sections@),
            pdf: match self.page {
                Some(d) => Some(d.0@),
                None => None,
            },
            anchors: self.anchors@,
            elapsed: match self.page {
                Some(d) => Some(d.1),
                None => None,
            },
            revision: self.revision,
            reloaded: self.reloaded,
            started: self.started,
            landed: self.landed,
            stale: self.stale,
            error: opt_text(self.error),
            divergence: opt_text(self.divergence),
            urls: strings(self.urls@),
            refused: opt_text(self.refused),
            sites: self.web.allowed_sites(),
            fetches: self.web.fetch_map(),
            landings: self.web.landings(),
            claims: self.claims,
            due: self.due,
        }
    }
}

/// A preview with nothing open, as the rules see it.
pub open spec fn fresh(images: Seq<Seq<char>>, claims: bool) -> Showing {
    Showing {
        files: None,
        images,
        main: None,
        edited: None,
        tree: Seq::<Row>::empty(),
        buffer: Seq::<char>::empty(),
        saved: Seq::<char>::empty(),
        assets: Seq::<Seq<char>>::empty(),
        sections: Seq::<Seq<char>>::empty(),
        pdf: None,
        anchors: Seq::<Anchor>::empty(),
        elapsed: None,
        revision: 0,
        reloaded: 0,
        started: 0,
        landed: 0,
        stale: false,
        error: None,
        divergence: None,
        urls: Seq::<Seq<char>>::empty(),
        refused: None,
        sites: Set::<Seq<char>>::empty(),
        fetches: Map::<Seq<char>, Progress>::empty(),
        landings: 0,
        claims,
        due: false,
    }
}

/// The sentence every command that needs an open project refuses with.
pub open spec fn nothing_open_spec() -> Seq<char> {
    "no document is open"@
}

fn nothing_open() -> (s: String)
    ensures
        s@ == nothing_open_spec(),
{
    crate::text::owned("no document is open")
}

impl Default for Preview {
    fn default() -> (p: Preview)
        ensures
            p@ == fresh(Seq::<Seq<char>>::empty(), false),
    {
        let images: Vec<String> = Vec::new();
        assert(strings(images@) =~= Seq::<Seq<char>>::empty());
        Preview::new(images, false)
    }
}

impl Preview {
    /// A preview with nothing open, listing the image kinds in `images` as
    /// figures, and claiming URLs for a fetch worker when `claims` says the
    /// host has one.
    pub fn new(images: Vec<String>, claims: bool) -> (p: Preview)
        ensures
            p@ == fresh(strings(images@), claims),
    {
        let p = Preview {
            files: None,
            images,
            main: None,
            edited: None,
            tree: Vec::new(),
            buffer: String::new(),
            saved: String::new(),
            assets: Vec::new(),
            sections: Vec::new(),
            page: None,
            anchors: Vec::new(),
            revision: 0,
            reloaded: 0,
            started: 0,
            landed: 0,
            stale: false,
            error: None,
            divergence: None,
            urls: Vec::new(),
            refused: None,
            web: Web::new(),
            claims,
            due: false,
        };
        assert(rows(p.tree@) =~= Seq::<Row>::empty());
        assert(strings(p.assets@) =~= Seq::<Seq<char>>::empty());
        assert(strings(p.sections@) =~= Seq::<Seq<char>>::empty());
        assert(strings(p.urls@) =~= Seq::<Seq<char>>::empty());
        assert(p.anchors@ =~= Seq::<Anchor>::empty());
        p
    }

    /// The last good bytes, whether or not they are still current.
    pub fn pdf(&self) -> (r: Option<&[u8]>)
        ensures
            match r {
                Some(p) => self@.pdf == Some(p@),
                None => self@.pdf is None,
            },
    {
        match &self.page {
            Some(d) => Some(d.0.as_slice()),
            None => None,
        }
    }

    /// The project the panel is listing, if one is open.
    pub fn files(&self) -> (r: Option<&MemFiles>)
        ensures
            match r {
                Some(f) => self@.files == Some(f@),
                None => self@.files is None,
            },
    {
        match &self.files {
            Some(f) => Some(f),
            None => None,
        }
    }

    /// Which file compiles.
    pub fn main(&self) -> (r: Option<&str>)
        ensures
            match r {
                Some(m) => self@.main == Some(m@),
                None => self@.main is None,
            },
    {
        match &self.main {
            Some(m) => Some(m.as_str()),
            None => None,
        }
    }

    /// Which file the pane holds.
    pub fn edited(&self) -> (r: Option<&str>)
        ensures
            match r {
                Some(m) => self@.edited == Some(m@),
                None => self@.edited is None,
            },
    {
        match &self.edited {
            Some(m) => Some(m.as_str()),
            None => None,
        }
    }

    /// The text the pane holds, which is the text that compiles.
    pub fn text(&self) -> (r: &str)
        ensures
            r@ == self@.buffer,
    {
        self.buffer.as_str()
    }

    /// The text as it stood at the last open or save.
    pub fn saved(&self) -> (r: &str)
        ensures
            r@ == self@.saved,
    {
        self.saved.as_str()
    }

    /// Does the page belong to older text than the pane holds?
    pub fn is_stale(&self) -> (r: bool)
        ensures
            r == self@.stale,
    {
        self.stale
    }

    /// The message from the last compile, if it failed.
    pub fn error(&self) -> (r: Option<&str>)
        ensures
            match r {
                Some(m) => self@.error == Some(m@),
                None => self@.error is None,
            },
    {
        match &self.error {
            Some(m) => Some(m.as_str()),
            None => None,
        }
    }

    /// Every path the last compile that answered names: the host's watch
    /// filter.
    pub fn assets(&self) -> (r: &[String])
        ensures
            strings(r@) == self@.assets,
    {
        self.assets.as_slice()
    }

    /// The sections the master names, off the last compile.
    pub fn sections(&self) -> (r: &[String])
        ensures
            strings(r@) == self@.sections,
    {
        self.sections.as_slice()
    }

    /// Where the drawn page's headings landed.
    pub fn anchors(&self) -> (r: &[Anchor])
        ensures
            r@ == self@.anchors,
    {
        self.anchors.as_slice()
    }

    /// The images the document names by URL.
    pub fn urls(&self) -> (r: &[String])
        ensures
            strings(r@) == self@.urls,
    {
        self.urls.as_slice()
    }

    /// The URL the last compile was refused on, if it was one.
    pub fn refused(&self) -> (r: Option<&str>)
        ensures
            match r {
                Some(m) => self@.refused == Some(m@),
                None => self@.refused is None,
            },
    {
        match &self.refused {
            Some(m) => Some(m.as_str()),
            None => None,
        }
    }

    /// How many compiles have drawn a page.
    pub fn revision(&self) -> (r: u64)
        ensures
            r == self@.revision,
    {
        self.revision
    }

    /// How many times the buffer has been replaced from disk.
    pub fn reloaded(&self) -> (r: u64)
        ensures
            r == self@.reloaded,
    {
        self.reloaded
    }

    /// How many compiles have been planned.
    pub fn started(&self) -> (r: u64)
        ensures
            r == self@.started,
    {
        self.started
    }

    /// The serial of the newest compile written.
    pub fn landed(&self) -> (r: u64)
        ensures
            r == self@.landed,
    {
        self.landed
    }

    /// Has a command fallen due for a compile the host has not yet taken?
    pub fn due(&self) -> (r: bool)
        ensures
            r == self@.due,
    {
        self.due
    }

    /// The images fetched by URL, and the sites allowed.
    pub fn web(&self) -> (r: &Web)
        ensures
            r.allowed_sites() == self@.sites,
            r.fetch_map() == self@.fetches,
            r.landings() == self@.landings,
    {
        &self.web
    }

    /// Which of the four states the pane is in.
    pub fn state(&self) -> (s: State)
        ensures
            s == state_spec(self@),
    {
        if self.edited.is_none() {
            State::Empty
        } else if self.page.is_none() {
            State::Failed
        } else if self.stale {
            State::Stale
        } else {
            State::Current
        }
    }
}


/// What a gesture the pane's unsaved work can block came to.
#[derive(Debug, Clone, Copy, PartialEq, Eq, Structural)]
pub enum Asked {
    /// The pane holds unsaved edits: the divergence sentence is set and
    /// nothing moved.
    Refused,
    /// Nothing stood in the way.
    Granted,
}

/// What a delete came to.
#[derive(Debug, Clone, Copy, PartialEq, Eq, Structural)]
pub enum Trashed {
    /// The file is the one in the pane and the pane holds unsaved edits.
    Refused,
    /// The file is gone; `holding` says whether the pane was holding it, in
    /// which case it now holds the main.
    Removed { holding: bool },
}

/// What a Save-as came to: whether the pane followed the write, and the
/// receipt the window shows.
#[derive(Debug, Clone, PartialEq, Eq)]
pub struct SavedAs {
    pub moved: bool,
    pub receipt: String,
}

/// What a compile answered, as the rules see it.
pub struct Rendered {
    pub assets: Option<Seq<Seq<char>>>,
    pub sections: Seq<Seq<char>>,
    pub pdf: Result<Seq<u8>, Seq<char>>,
    pub anchors: Seq<Anchor>,
    pub urls: Option<Seq<Seq<char>>>,
    pub refused: Option<Seq<char>>,
}

pub open spec fn rendered(r: Render) -> Rendered {
    Rendered {
        assets: match r.assets {
            Some(a) => Some(strings(a@)),
            None => None,
        },
        sections: strings(r.sections@),
        pdf: match r.pdf {
            Ok(b) => Ok(b@),
            Err(m) => Err(m@),
        },
        anchors: r.anchors@,
        urls: match r.urls {
            Some(u) => Some(strings(u@)),
            None => None,
        },
        refused: opt_text(r.refused),
    }
}

pub open spec fn outcome_view(o: Result<Render, String>) -> Result<Rendered, Seq<char>> {
    match o {
        Ok(r) => Ok(rendered(r)),
        Err(m) => Err(m@),
    }
}

/// Does the pane hold text its file does not?
pub open spec fn dirty(p: Showing) -> bool {
    p.buffer != p.saved
}

/// A text from disk taken as both the buffer and the last-saved text. The
/// count it bumps is how the page knows to re-read.
pub open spec fn took_text(p: Showing, t: Seq<char>) -> Showing {
    Showing { buffer: t, saved: t, reloaded: (p.reloaded + 1) as u64, divergence: None, ..p }
}

/// What a load does: the file the pane holds read into the buffer, and a
/// compile due; or the sentence the terminal prints, as a failure.
pub open spec fn loaded_spec(p: Showing) -> Showing {
    match p.files {
        Some(f) => match p.edited {
            Some(e) => match crate::document::read_document_spec(f, e) {
                Ok(t) => Showing { due: true, ..took_text(p, t) },
                Err(m) => Showing { stale: true, error: Some(m), refused: None, ..p },
            },
            None => p,
        },
        None => p,
    }
}

/// What a save does: the buffer written to the file the pane holds, and the
/// buffer clean again.
pub open spec fn save_spec(p: Showing) -> (Showing, Result<Seq<char>, Seq<char>>) {
    match p.files {
        Some(f) => match p.edited {
            Some(e) => match crate::files::normal_spec(e) {
                Some(k) => (
                    Showing {
                        files: Some(f.insert(k, vstd::utf8::encode_utf8(p.buffer))),
                        saved: p.buffer,
                        divergence: None,
                        ..p
                    },
                    Ok("saved"@),
                ),
                None => (p, Err("cannot write "@ + e + ": "@ + crate::files::no_such_file())),
            },
            None => (p, Err(nothing_open_spec())),
        },
        None => (p, Err(nothing_open_spec())),
    }
}

/// The receipt a Save-as leaves: the name it wrote, and the folder as the
/// dialog spelled it.
pub open spec fn receipt_spec(path: Seq<char>) -> Seq<char> {
    "saved as "@ + match crate::path::file_name_spec(path) {
        Some(n) => n,
        None => Seq::<char>::empty(),
    } + " in "@ + crate::path::directory_spec(path)
}

/// The receipt a Save-as leaves: `saved as <name> in <folder>`, the folder
/// spelled as the dialog spelled it.
pub fn save_receipt(path: &str) -> (r: String)
    ensures
        r@ == receipt_spec(path@),
{
    let mut receipt = crate::text::owned("saved as ");
    match crate::path::file_name(path) {
        Some(n) => receipt.append(n.as_str()),
        None => {},
    }
    receipt.append(" in ");
    let folder = crate::path::directory(path);
    receipt.append(folder.as_str());
    receipt
}

/// What a Save-as does, given the listing taken after it: a kind the panel
/// cannot list is refused before anything is written; a path inside the
/// project is written and the pane follows it there, clean, with a compile
/// due.
pub open spec fn save_as_spec(p: Showing, path: Seq<char>, tree: Seq<Row>) -> (Showing, Result<(bool, Seq<char>), Seq<char>>) {
    if p.edited is None || p.files is None {
        (p, Err(nothing_open_spec()))
    } else if crate::document::text_kind(path) is None {
        (p, Err(crate::document::not_creatable(path)))
    } else {
        match crate::files::normal_spec(path) {
            None => (p, Err("cannot write "@ + path + ": "@ + crate::files::outside_this_project())),
            Some(k) => (
                Showing {
                    files: Some(p.files->0.insert(k, vstd::utf8::encode_utf8(p.buffer))),
                    saved: p.buffer,
                    divergence: None,
                    edited: Some(k),
                    tree,
                    due: true,
                    ..p
                },
                Ok((true, receipt_spec(path))),
            ),
        }
    }
}

/// What a Save-as comes to on a host that wrote the file itself, given
/// where the write landed — the project's spelling of it, or nothing when it
/// landed outside — and the listing taken after it. Outside, the save is a
/// copy: the pane keeps its file, its last-saved text and its divergence, so
/// its unsaved edits stay unsaved, and nothing compiles. Inside, the pane
/// follows the write there, clean, with a compile due.
pub open spec fn saved_as_spec(
    p: Showing,
    path: Seq<char>,
    inside: Option<Seq<char>>,
    tree: Seq<Row>,
) -> (Showing, Result<(bool, Seq<char>), Seq<char>>) {
    if p.edited is None || p.files is None {
        (p, Err(nothing_open_spec()))
    } else if crate::document::text_kind(path) is None {
        (p, Err(crate::document::not_creatable(path)))
    } else {
        match inside {
            None => (Showing { tree, ..p }, Ok((false, receipt_spec(path)))),
            Some(k) => (
                Showing {
                    files: Some(match crate::files::normal_spec(k) {
                        Some(nk) => p.files->0.insert(nk, vstd::utf8::encode_utf8(p.buffer)),
                        None => p.files->0,
                    }),
                    saved: p.buffer,
                    divergence: None,
                    edited: Some(k),
                    tree,
                    due: true,
                    ..p
                },
                Ok((true, receipt_spec(path))),
            ),
        }
    }
}

/// What an event naming the open document does to the pane, and what it
/// came to. A file that will not read at this instant counts as unchanged.
pub open spec fn reload_spec(p: Showing) -> (Showing, External) {
    match p.files {
        Some(f) => match p.edited {
            Some(e) => match crate::document::read_document_spec(f, e) {
                Err(_) => (p, External::Unchanged),
                Ok(t) => match external_spec(t, p.buffer, p.saved) {
                    External::Unchanged => (p, External::Unchanged),
                    External::Taken => (Showing { due: true, ..took_text(p, t) }, External::Taken),
                    External::Diverged => (Showing { divergence: Some(DIVERGED@), ..p }, External::Diverged),
                },
            },
            None => (p, External::Unchanged),
        },
        None => (p, External::Unchanged),
    }
}

/// Would this plan still read what it read, if it were made now?
pub open spec fn current_spec(p: Showing, plan: Planned) -> bool {
    p.main == Some(plan.main) && p.edited == Some(plan.edited) && p.buffer == plan.buffer
}

/// What taking in an answer does, and the URLs it hands the fetch worker.
///
/// An answer older than the one already written, or for text that has moved
/// on, changes nothing. Past that guard the plan's landings are promoted; a
/// success replaces the bytes, the anchors and the time and counts a page; a
/// failure keeps them, records the message and marks the page stale. The
/// lists the text names are taken either way.
pub open spec fn absorbed(p: Showing, plan: Planned, outcome: Result<Rendered, Seq<char>>, took: u64) -> (Showing, Seq<Seq<char>>) {
    if plan.serial <= p.landed || !current_spec(p, plan) {
        (p, Seq::<Seq<char>>::empty())
    } else {
        let q = Showing { landed: plan.serial, fetches: crate::remote::promoted(p.fetches, plan.read), ..p };
        match outcome {
            Err(m) => (Showing { stale: true, error: Some(m), refused: None, ..q }, Seq::<Seq<char>>::empty()),
            Ok(r) => {
                let claim: (Map<Seq<char>, Progress>, Seq<Seq<char>>) = match r.urls {
                    Some(u) => if q.claims {
                        crate::remote::claim_spec(q.sites, q.fetches, u, false)
                    } else {
                        (q.fetches, Seq::<Seq<char>>::empty())
                    },
                    None => (q.fetches, Seq::<Seq<char>>::empty()),
                };
                let q2 = Showing {
                    assets: match r.assets {
                        Some(a) => a,
                        None => q.assets,
                    },
                    refused: r.refused,
                    urls: match r.urls {
                        Some(u) => u,
                        None => q.urls,
                    },
                    fetches: claim.0,
                    sections: r.sections,
                    ..q
                };
                match r.pdf {
                    Ok(b) => (
                        Showing {
                            pdf: Some(b),
                            anchors: r.anchors,
                            elapsed: Some(took),
                            revision: (q.revision + 1) as u64,
                            stale: false,
                            error: None,
                            ..q2
                        },
                        claim.1,
                    ),
                    Err(m) => (Showing { stale: true, error: Some(m), ..q2 }, claim.1),
                }
            },
        }
    }
}

/// A refusal over unsaved work: the sentence set and nothing else moved.
pub open spec fn refuse_spec(p: Showing, sentence: Seq<char>) -> (Showing, bool) {
    if p.buffer == p.saved {
        (p, false)
    } else {
        (Showing { divergence: Some(sentence), ..p }, true)
    }
}

/// What asking for another main comes to.
pub open spec fn ask_main_spec(p: Showing, main: Seq<char>) -> (Showing, Result<Asked, Seq<char>>) {
    match p.files {
        None => (p, Err(nothing_open_spec())),
        Some(f) => if !crate::files::holds_spec(f, main) {
            (p, Err(crate::document::not_a_file_spec(main)))
        } else if dirty(p) {
            (refuse_spec(p, SWITCHING@).0, Ok(Asked::Refused))
        } else {
            (p, Ok(Asked::Granted))
        },
    }
}

/// What putting another of the project's files in the pane comes to.
pub open spec fn set_edited_spec(p: Showing, path: Seq<char>) -> (Showing, Result<Asked, Seq<char>>) {
    if p.files is None || p.main is None {
        (p, Err(nothing_open_spec()))
    } else if !crate::files::holds_spec(p.files->0, path) {
        (p, Err(crate::document::not_a_file_spec(path)))
    } else if dirty(p) {
        (refuse_spec(p, SWITCHING@).0, Ok(Asked::Refused))
    } else {
        (loaded_spec(Showing { edited: Some(path), ..p }), Ok(Asked::Granted))
    }
}

/// The refusal of a delete of the file that compiles.
pub open spec fn compiles_sentence(path: Seq<char>) -> Seq<char> {
    path + " is the file this project compiles. Set another file as main first."@
}

/// What a delete comes to, given the listing taken after it.
pub open spec fn trash_spec(p: Showing, path: Seq<char>, tree: Seq<Row>) -> (Showing, Result<Trashed, Seq<char>>) {
    if p.files is None || p.main is None {
        (p, Err(nothing_open_spec()))
    } else if path == p.main->0 {
        (p, Err(compiles_sentence(path)))
    } else {
        let holding = p.edited == Some(path);
        if holding && dirty(p) {
            (refuse_spec(p, TRASHING@).0, Ok(Trashed::Refused))
        } else {
            match crate::files::remove_refusal(p.files->0, path) {
                Some(r) => (p, Err(crate::files::refusal_sentence(r, path, path))),
                None => {
                    let q = Showing {
                        files: Some(p.files->0.remove(crate::files::normal_spec(path)->0)),
                        tree,
                        ..p
                    };
                    if holding {
                        (loaded_spec(Showing { edited: p.main, ..q }), Ok(Trashed::Removed { holding: true }))
                    } else {
                        (q, Ok(Trashed::Removed { holding: false }))
                    }
                },
            }
        }
    }
}

/// What asking to delete comes to, before anything is removed: the refusals
/// of a delete, and leave to go on.
pub open spec fn ask_trash_spec(p: Showing, path: Seq<char>) -> (Showing, Result<Asked, Seq<char>>) {
    if p.files is None || p.main is None {
        (p, Err(nothing_open_spec()))
    } else if path == p.main->0 {
        (p, Err(compiles_sentence(path)))
    } else if p.edited == Some(path) && dirty(p) {
        (refuse_spec(p, TRASHING@).0, Ok(Asked::Refused))
    } else {
        (p, Ok(Asked::Granted))
    }
}

/// Is the refusal on record about an image that is on its way?
pub open spec fn hidden(p: Showing) -> bool {
    match p.refused {
        Some(u) => p.fetches.contains_key(u) && !(p.fetches[u] is Done) && p.sites.contains(crate::remote::site(u)),
        None => false,
    }
}

/// The sections the master names, each spelled from the root.
pub open spec fn besides(main: Seq<char>, sections: Seq<Seq<char>>) -> Seq<Seq<char>> {
    sections.map_values(|s: Seq<char>| crate::document::beside_spec(main, s))
}

/// The sentence an export of a page that is not current refuses with.
pub open spec fn out_of_date() -> Seq<char> {
    "the last compile failed, so the page is out of date"@
}

/// The name a path takes with its extension replaced by `pdf`: the part of
/// its last segment from the last dot that is not that segment's first
/// character goes, and `.pdf` is added.
pub open spec fn with_pdf(path: Seq<char>) -> Seq<char> {
    let slash = crate::text::last_index(path, '/');
    let dot = crate::text::last_index(path, '.');
    if dot > slash + 1 {
        path.subrange(0, dot) + ".pdf"@
    } else {
        path + ".pdf"@
    }
}

/// [`with_pdf`], written out.
fn with_pdf_of(path: &str) -> (p: String)
    ensures
        p@ == with_pdf(path@),
{
    let cs = crate::text::chars_of(path);
    let slash = crate::text::find_last(&cs, '/');
    let dot = crate::text::find_last(&cs, '.');
    let cut: Option<usize> = match dot {
        Some(d) => match slash {
            Some(k) => if d > k && d - k > 1 {
                Some(d)
            } else {
                None
            },
            None => if d > 0 {
                Some(d)
            } else {
                None
            },
        },
        None => None,
    };
    match cut {
        Some(d) => {
            let mut out: Vec<char> = Vec::new();
            let mut i: usize = 0;
            while i < d
                invariant
                    i <= d,
                    d <= cs@.len(),
                    out@ == cs@.subrange(0, i as int),
                decreases d - i,
            {
                out.push(cs[i]);
                assert(out@ =~= cs@.subrange(0, i + 1));
                i = i + 1;
            }
            let mut p = crate::text::string_of(out.as_slice());
            p.append(".pdf");
            p
        },
        None => crate::text::cat(path, ".pdf"),
    }
}


/// A copy of an optional text.
fn copy_text(o: &Option<String>) -> (c: Option<String>)
    ensures
        opt_text(c) == opt_text(*o),
{
    match o {
        Some(s) => Some(s.clone()),
        None => None,
    }
}

/// A copy of a list of anchors.
fn copy_anchors(v: &Vec<Anchor>) -> (c: Vec<Anchor>)
    ensures
        c@ == v@,
{
    let mut c: Vec<Anchor> = Vec::new();
    let mut i: usize = 0;
    while i < v.len()
        invariant
            i <= v@.len(),
            c@ == v@.subrange(0, i as int),
        decreases v.len() - i,
    {
        c.push(v[i]);
        assert(c@ =~= v@.subrange(0, i + 1));
        i = i + 1;
    }
    assert(v@.subrange(0, v@.len() as int) =~= v@);
    c
}

/// A copy of a list of entries.
fn copy_entries(v: &Vec<Entry>) -> (c: Vec<Entry>)
    ensures
        rows(c@) == rows(v@),
{
    let mut c: Vec<Entry> = Vec::new();
    let mut i: usize = 0;
    while i < v.len()
        invariant
            i <= v@.len(),
            rows(c@) == rows(v@).subrange(0, i as int),
        decreases v.len() - i,
    {
        let ghost pre = rows(c@);
        c.push(crate::document::copy_entry(&v[i]));
        assert(rows(c@) =~= pre.push(rows(v@)[i as int]));
        assert(rows(c@) =~= rows(v@).subrange(0, i + 1));
        i = i + 1;
    }
    assert(rows(v@).subrange(0, v@.len() as int) =~= rows(v@));
    c
}

pub open spec fn text_result(r: Result<String, String>) -> Result<Seq<char>, Seq<char>> {
    match r {
        Ok(x) => Ok(x@),
        Err(x) => Err(x@),
    }
}

pub open spec fn asked_result(r: Result<Asked, String>) -> Result<Asked, Seq<char>> {
    match r {
        Ok(a) => Ok(a),
        Err(x) => Err(x@),
    }
}

pub open spec fn trashed_result(r: Result<Trashed, String>) -> Result<Trashed, Seq<char>> {
    match r {
        Ok(a) => Ok(a),
        Err(x) => Err(x@),
    }
}

pub open spec fn saved_as_result(r: Result<SavedAs, String>) -> Result<(bool, Seq<char>), Seq<char>> {
    match r {
        Ok(a) => Ok((a.moved, a.receipt@)),
        Err(x) => Err(x@),
    }
}

/// Can a compile be planned: an open project, a main and a file in the pane.
pub open spec fn plannable(p: Showing) -> bool {
    p.files is Some && p.main is Some && p.edited is Some
}

/// Is this the plan the pane makes now, numbered after every plan before it?
pub open spec fn planned_from(p: Showing, c: Planned) -> bool {
    &&& c.main == p.main->0
    &&& c.edited == p.edited->0
    &&& c.buffer == p.buffer
    &&& c.serial == p.started + 1
    &&& forall|u: Seq<char>|
        #[trigger] crate::remote::fetched_get(c.fetched, u) == crate::remote::ready(p.sites, p.fetches, u)
    &&& forall|u: Seq<char>, g: u64|
        #[trigger] c.read.contains((u, g)) == (crate::remote::ready(p.sites, p.fetches, u) is Some
            && crate::remote::landing(p.fetches[u]) == Some(g))
}

impl Preview {
    /// The panel's rows: the disk walk, plus the sections the master names
    /// that the walk did not find, marked missing.
    fn entries(&self) -> (e: Vec<Entry>)
        ensures
            match self@.main {
                None => e@.len() == 0,
                Some(m) => rows(e@).to_multiset() == crate::document::named_rows(
                    self@.tree,
                    besides(m, self@.sections),
                ).to_multiset() && crate::document::in_panel_order(rows(e@)),
            },
    {
        match &self.main {
            None => Vec::new(),
            Some(main) => {
                let mut named: Vec<String> = Vec::new();
                let mut i: usize = 0;
                while i < self.sections.len()
                    invariant
                        i <= self.sections@.len(),
                        strings(named@) == besides(main@, strings(self.sections@)).subrange(0, i as int),
                    decreases self.sections.len() - i,
                {
                    let ghost pre = strings(named@);
                    named.push(crate::document::beside(main.as_str(), self.sections[i].as_str()));
                    assert(strings(named@) =~= pre.push(crate::document::beside_spec(main@, self.sections@[i as int]@)));
                    assert(besides(main@, strings(self.sections@))[i as int] == crate::document::beside_spec(
                        main@,
                        self.sections@[i as int]@,
                    ));
                    assert(strings(named@) =~= besides(main@, strings(self.sections@)).subrange(0, i + 1));
                    i = i + 1;
                }
                assert(besides(main@, strings(self.sections@)).subrange(0, self.sections@.len() as int)
                    =~= besides(main@, strings(self.sections@)));
                crate::document::merge(copy_entries(&self.tree), named.as_slice())
            },
        }
    }

    /// Everything the window says about the last compile, in one value. The
    /// panel's two halves are put together here and nothing is read off the
    /// project; the error is left out exactly while it is the refusal of an
    /// image that is on its way.
    pub fn status(&self) -> (s: Status)
        ensures
            s.state == state_spec(self@),
            opt_text(s.time) == match self@.elapsed {
                Some(ms) => Some(crate::text::decimal(ms as nat) + " ms"@),
                None => None,
            },
            opt_text(s.error) == if hidden(self@) {
                None
            } else {
                self@.error
            },
            s.page == self@.pdf is Some,
            (self@.elapsed is Some) == (self@.pdf is Some),
            s.time is Some ==> s.page,
            opt_text(s.divergence) == self@.divergence,
            s.revision == self@.revision,
            s.reloaded == self@.reloaded,
            s.anchors@ == self@.anchors,
            match self@.main {
                None => s.entries@.len() == 0,
                Some(m) => rows(s.entries@).to_multiset() == crate::document::named_rows(
                    self@.tree,
                    besides(m, self@.sections),
                ).to_multiset() && crate::document::in_panel_order(rows(s.entries@)),
            },
            opt_text(s.main) == self@.main,
            opt_text(s.edited) == self@.edited,
            s.appearance == Appearance::System,
            match crate::remote::line_spec(self@.sites, self@.fetches, self@.urls) {
                None => s.web is None,
                Some(l) => s.web matches Some(w) && w.sentence@ == l.0 && match l.1 {
                    Some(a) => w.action matches Some(x) && x@ == a,
                    None => w.action is None,
                },
            },
    {
        let hide = match &self.refused {
            Some(u) => self.web.on_its_way(u.as_str()),
            None => false,
        };
        let time = match &self.page {
            Some(d) => {
                let mut t = crate::text::decimal_of(d.1);
                t.append(" ms");
                Some(t)
            },
            None => None,
        };
        Status {
            state: self.state(),
            time,
            error: if hide {
                None
            } else {
                copy_text(&self.error)
            },
            page: self.page.is_some(),
            divergence: copy_text(&self.divergence),
            revision: self.revision,
            reloaded: self.reloaded,
            anchors: copy_anchors(&self.anchors),
            entries: self.entries(),
            main: copy_text(&self.main),
            edited: copy_text(&self.edited),
            appearance: Appearance::System,
            web: self.web.line(self.urls.as_slice()),
        }
    }

    /// The bytes an export may write, or why it may not: an empty pane holds
    /// no bytes at all, where a stale or failed one holds bytes known to
    /// belong to older text.
    pub fn exportable(&self) -> (r: Result<&[u8], String>)
        ensures
            match state_spec(self@) {
                State::Current => r matches Ok(b) && self@.pdf == Some(b@),
                State::Empty => r matches Err(e) && e@ == nothing_open_spec(),
                _ => r matches Err(e) && e@ == out_of_date(),
            },
    {
        match self.state() {
            State::Current => match &self.page {
                Some(d) => Ok(d.0.as_slice()),
                None => Err(crate::text::owned("the last compile failed, so the page is out of date")),
            },
            State::Empty => Err(nothing_open()),
            _ => Err(crate::text::owned("the last compile failed, so the page is out of date")),
        }
    }

    /// Where a Save-a-copy dialog opens, or why it does not open at all: the
    /// file that compiles, with a `.pdf` extension.
    pub fn export_path(&self) -> (r: Result<String, String>)
        ensures
            match state_spec(self@) {
                State::Current => match self@.main {
                    Some(m) => r matches Ok(p) && p@ == with_pdf(m),
                    None => r matches Err(e) && e@ == nothing_open_spec(),
                },
                State::Empty => r matches Err(e) && e@ == nothing_open_spec(),
                _ => r matches Err(e) && e@ == out_of_date(),
            },
    {
        match self.exportable() {
            Err(e) => Err(e),
            Ok(_) => match &self.main {
                Some(m) => Ok(with_pdf_of(m.as_str())),
                None => Err(nothing_open()),
            },
        }
    }

    /// Take the pane's text. It compiles nothing: one keystroke is not a
    /// document.
    pub fn edit(&mut self, text: String)
        ensures
            old(self)@.edited is Some ==> final(self)@ == (Showing { buffer: text@, ..old(self)@ }),
            old(self)@.edited is None ==> final(self)@ == old(self)@,
    {
        if self.edited.is_some() {
            self.buffer = text;
        }
    }

    /// Hold a project: these files, this main compiling, this file in the
    /// pane, and these sites allowed. It reads and compiles nothing.
    ///
    /// **Everything about the previous document goes, and three things
    /// stay.** The count of compiles started survives and the count landed
    /// meets it, so an open discards every answer in flight; the fetches
    /// survive with only the sites replaced, since the bytes are the
    /// process's and consent is the folder's; and the host's worker stays.
    pub fn open(&mut self, files: MemFiles, main: String, edited: String, allowed: Vec<String>)
        ensures
            crate::document::panel_listing(files@, old(self)@.images, final(self)@.tree),
            final(self)@ == (Showing {
                files: Some(files@),
                main: Some(main@),
                edited: Some(edited@),
                tree: final(self)@.tree,
                started: old(self)@.started,
                landed: old(self)@.started,
                sites: strings(allowed@).to_set(),
                fetches: old(self)@.fetches,
                landings: old(self)@.landings,
                ..fresh(old(self)@.images, old(self)@.claims)
            }),
    {
        let tree = crate::document::files_under(&files, self.images.as_slice());
        self.web.install(allowed);
        self.files = Some(files);
        self.main = Some(main);
        self.edited = Some(edited);
        self.tree = tree;
        self.buffer = String::new();
        self.saved = String::new();
        self.assets = Vec::new();
        self.sections = Vec::new();
        self.page = None;
        self.anchors = Vec::new();
        self.revision = 0;
        self.reloaded = 0;
        self.landed = self.started;
        self.stale = false;
        self.error = None;
        self.divergence = None;
        self.urls = Vec::new();
        self.refused = None;
        self.due = false;
        assert(strings(self.assets@) =~= Seq::<Seq<char>>::empty());
        assert(strings(self.sections@) =~= Seq::<Seq<char>>::empty());
        assert(strings(self.urls@) =~= Seq::<Seq<char>>::empty());
        assert(self.anchors@ =~= Seq::<Anchor>::empty());
    }

    /// Take a text from disk as both the buffer and the last-saved text.
    fn take(&mut self, text: String)
        requires
            old(self)@.reloaded < u64::MAX,
        ensures
            final(self)@ == took_text(old(self)@, text@),
    {
        self.saved = text.clone();
        self.buffer = text;
        self.reloaded = self.reloaded + 1;
        self.divergence = None;
    }

    /// Read the file the pane holds into the buffer, and fall due for a
    /// compile. A file that will not read leaves the same message and the
    /// same failed state a compile failure leaves.
    pub fn load(&mut self)
        requires
            old(self)@.reloaded < u64::MAX,
        ensures
            final(self)@ == loaded_spec(old(self)@),
    {
        let read = match &self.files {
            Some(f) => match &self.edited {
                Some(e) => Some(crate::document::read_document(f, e.as_str())),
                None => None,
            },
            None => None,
        };
        match read {
            None => {},
            Some(Ok(text)) => {
                self.take(text);
                self.due = true;
            },
            Some(Err(message)) => {
                self.stale = true;
                self.error = Some(message);
                self.refused = None;
            },
        }
    }

    /// Write the buffer to the file the pane holds. The last-saved text moves
    /// with it, which makes the buffer clean again — and makes this save's
    /// own event arrive back unchanged.
    pub fn save(&mut self) -> (r: Result<String, String>)
        ensures
            final(self)@ == save_spec(old(self)@).0,
            text_result(r) == save_spec(old(self)@).1,
    {
        if self.files.is_none() || self.edited.is_none() {
            return Err(nothing_open());
        }
        let edited = match &self.edited {
            Some(e) => e.clone(),
            None => String::new(),
        };
        let mut held: Option<MemFiles> = None;
        std::mem::swap(&mut held, &mut self.files);
        let mut files = held.unwrap();
        let written = files.write(edited.as_str(), self.buffer.as_str().as_bytes());
        self.files = Some(files);
        match written {
            Err(e) => {
                let mut m = crate::text::cat("cannot write ", edited.as_str());
                m.append(": ");
                m.append(e.as_str());
                Err(m)
            },
            Ok(()) => {
                self.saved = self.buffer.clone();
                self.divergence = None;
                Ok(crate::text::owned(SAVED))
            },
        }
    }

    /// Replace the panel's stored half: the host saw the tree move.
    pub fn refresh_tree(&mut self)
        ensures
            old(self)@.files is None ==> final(self)@ == old(self)@,
            old(self)@.files is Some ==> crate::document::panel_listing(
                old(self)@.files->0,
                old(self)@.images,
                final(self)@.tree,
            ) && final(self)@ == (Showing { tree: final(self)@.tree, ..old(self)@ }),
    {
        let tree = match &self.files {
            Some(f) => Some(crate::document::files_under(f, self.images.as_slice())),
            None => None,
        };
        match tree {
            Some(t) => {
                self.tree = t;
            },
            None => {},
        }
    }

    /// Write the buffer where the author pointed, and hold that file: a save
    /// inside the project moves the pane there, clean, and falls due for a
    /// compile. A kind the panel cannot list is refused before anything is
    /// written.
    pub fn save_as(&mut self, path: &str) -> (r: Result<SavedAs, String>)
        ensures
            final(self)@ == save_as_spec(old(self)@, path@, final(self)@.tree).0,
            saved_as_result(r) == save_as_spec(old(self)@, path@, final(self)@.tree).1,
            r is Ok ==> crate::document::panel_listing(final(self)@.files->0, old(self)@.images, final(self)@.tree),
    {
        if self.edited.is_none() || self.files.is_none() {
            return Err(nothing_open());
        }
        match crate::document::creatable(path) {
            Err(e) => return Err(e),
            Ok(()) => {},
        }
        let mut held: Option<MemFiles> = None;
        std::mem::swap(&mut held, &mut self.files);
        let mut files = held.unwrap();
        let landed = files.save_as(path, self.buffer.as_str().as_bytes());
        self.files = Some(files);
        match landed {
            Err(e) => {
                let mut m = crate::text::cat("cannot write ", path);
                m.append(": ");
                m.append(e.as_str());
                Err(m)
            },
            Ok(inside) => {
                let moved = inside.is_some();
                match inside {
                    Some(spelled) => {
                        self.saved = self.buffer.clone();
                        self.divergence = None;
                        self.edited = Some(spelled);
                    },
                    None => {},
                }
                self.refresh_tree();
                if moved {
                    self.due = true;
                }
                Ok(SavedAs { moved, receipt: save_receipt(path) })
            },
        }
    }

    /// Take in a Save-as a host wrote itself: `inside` is where the write
    /// landed as the project spells it, or nothing when it landed outside the
    /// project. Outside, the pane keeps its file and its unsaved edits stay
    /// unsaved — a save elsewhere is a copy, and the buffer is still dirty
    /// against the file the pane holds. Inside, the pane follows the write.
    pub fn saved_as(&mut self, path: &str, inside: Option<String>) -> (r: Result<SavedAs, String>)
        ensures
            final(self)@ == saved_as_spec(old(self)@, path@, opt_text(inside), final(self)@.tree).0,
            saved_as_result(r) == saved_as_spec(old(self)@, path@, opt_text(inside), final(self)@.tree).1,
            r is Ok ==> crate::document::panel_listing(final(self)@.files->0, old(self)@.images, final(self)@.tree),
    {
        if self.edited.is_none() || self.files.is_none() {
            return Err(nothing_open());
        }
        match crate::document::creatable(path) {
            Err(e) => return Err(e),
            Ok(()) => {},
        }
        match inside {
            None => {
                self.refresh_tree();
                Ok(SavedAs { moved: false, receipt: save_receipt(path) })
            },
            Some(spelled) => {
                let mut held: Option<MemFiles> = None;
                std::mem::swap(&mut held, &mut self.files);
                let mut files = held.unwrap();
                let _ = files.write(spelled.as_str(), self.buffer.as_str().as_bytes());
                self.files = Some(files);
                self.saved = self.buffer.clone();
                self.divergence = None;
                self.edited = Some(spelled);
                self.refresh_tree();
                self.due = true;
                Ok(SavedAs { moved: true, receipt: save_receipt(path) })
            },
        }
    }

    /// The disk moved under the open document: decide what that means, with
    /// [`external_change`], and carry it out.
    pub fn reload(&mut self) -> (e: External)
        requires
            old(self)@.reloaded < u64::MAX,
        ensures
            (final(self)@, e) == reload_spec(old(self)@),
    {
        let read = match &self.files {
            Some(f) => match &self.edited {
                Some(d) => Some(crate::document::read_document(f, d.as_str())),
                None => None,
            },
            None => None,
        };
        let file = match read {
            Some(Ok(t)) => t,
            _ => return External::Unchanged,
        };
        let outcome = external_change(file.as_str(), self.buffer.as_str(), self.saved.as_str());
        match outcome {
            External::Unchanged => {},
            External::Taken => {
                self.take(file);
                self.due = true;
            },
            External::Diverged => {
                self.divergence = Some(crate::text::owned(DIVERGED));
            },
        }
        outcome
    }

    /// What the next compile would read, and the number that orders it: the
    /// count of compiles started is bumped here and nowhere else.
    pub fn plan(&mut self) -> (r: Option<Compile>)
        requires
            old(self)@.started < u64::MAX,
        ensures
            !plannable(old(self)@) ==> r is None && final(self)@ == old(self)@,
            plannable(old(self)@) ==> (r matches Some(c) && planned_from(old(self)@, c@)),
            plannable(old(self)@) ==> final(self)@ == (Showing { started: (old(self)@.started + 1) as u64, ..old(self)@ }),
    {
        if self.files.is_none() {
            return None;
        }
        let main = match &self.main {
            Some(m) => m.clone(),
            None => return None,
        };
        let edited = match &self.edited {
            Some(e) => e.clone(),
            None => return None,
        };
        let (fetched, read) = self.web.finished();
        self.started = self.started + 1;
        Some(Compile { main, edited, buffer: self.buffer.clone(), serial: self.started, fetched, read })
    }

    /// The compile the pane's text falls due for: what [`Preview::plan`]
    /// makes, with nothing left due.
    pub fn compile(&mut self) -> (r: Option<Compile>)
        requires
            old(self)@.started < u64::MAX,
        ensures
            !plannable(old(self)@) ==> r is None && final(self)@ == (Showing { due: false, ..old(self)@ }),
            plannable(old(self)@) ==> (r matches Some(c) && planned_from(old(self)@, c@)),
            plannable(old(self)@) ==> final(self)@ == (Showing {
                started: (old(self)@.started + 1) as u64,
                due: false,
                ..old(self)@
            }),
    {
        self.due = false;
        self.plan()
    }

    /// Would this plan still read what it read, if it were made now?
    fn current(&self, plan: &Compile) -> (r: bool)
        ensures
            r == current_spec(self@, plan@),
    {
        let main = match &self.main {
            Some(m) => text_eq(m.as_str(), plan.main.as_str()),
            None => false,
        };
        let edited = match &self.edited {
            Some(e) => text_eq(e.as_str(), plan.edited.as_str()),
            None => false,
        };
        main && edited && text_eq(self.buffer.as_str(), plan.buffer.as_str())
    }

    /// Take in what a compile came back with — if it is still wanted — and
    /// answer the URLs it hands the host's fetch worker.
    ///
    /// A render older than the one already written is dropped, and so is one
    /// for text that has moved on; a fresher one is always already coming.
    /// Past that guard a success replaces the bytes and clears the error and
    /// the stale mark, and **a failure keeps the bytes**, records the message
    /// and sets the mark. The duration and the anchors travel with the bytes.
    pub fn absorb(&mut self, plan: &Compile, outcome: Result<Render, String>, took: u64) -> (claimed: Vec<String>)
        requires
            old(self)@.revision < u64::MAX,
        ensures
            final(self)@ == absorbed(old(self)@, plan@, outcome_view(outcome), took).0,
            strings(claimed@) == absorbed(old(self)@, plan@, outcome_view(outcome), took).1,
    {
        if plan.serial <= self.landed || !self.current(plan) {
            let none: Vec<String> = Vec::new();
            assert(strings(none@) =~= Seq::<Seq<char>>::empty());
            return none;
        }
        self.landed = plan.serial;
        self.web.promote(plan.read.as_slice());
        let mut claimed: Vec<String> = Vec::new();
        assert(strings(claimed@) =~= Seq::<Seq<char>>::empty());
        match outcome {
            Err(message) => {
                self.stale = true;
                self.error = Some(message);
                self.refused = None;
            },
            Ok(render) => {
                let Render { assets, sections, pdf, anchors, urls, refused } = render;
                match assets {
                    Some(a) => {
                        self.assets = a;
                    },
                    None => {},
                }
                self.refused = refused;
                match urls {
                    Some(u) => {
                        self.urls = u;
                        if self.claims {
                            claimed = self.web.claim(self.urls.as_slice(), false);
                        }
                    },
                    None => {},
                }
                self.sections = sections;
                match pdf {
                    Ok(bytes) => {
                        self.page = Some((bytes, took));
                        self.anchors = anchors;
                        self.revision = self.revision + 1;
                        self.stale = false;
                        self.error = None;
                    },
                    Err(message) => {
                        self.stale = true;
                        self.error = Some(message);
                    },
                }
            },
        }
        claimed
    }

    /// Is there unsaved work this gesture would throw away? Then say so, in
    /// the caller's sentence, and stop.
    pub fn refused_while_dirty(&mut self, sentence: &str) -> (r: bool)
        ensures
            (final(self)@, r) == refuse_spec(old(self)@, sentence@),
    {
        if text_eq(self.buffer.as_str(), self.saved.as_str()) {
            return false;
        }
        self.divergence = Some(crate::text::owned(sentence));
        true
    }

    /// May the main become this file? It must be one of the project's, and
    /// the pane must hold no unsaved edits.
    pub fn ask_main(&mut self, main: &str) -> (r: Result<Asked, String>)
        ensures
            final(self)@ == ask_main_spec(old(self)@, main@).0,
            asked_result(r) == ask_main_spec(old(self)@, main@).1,
    {
        let holds = match &self.files {
            Some(f) => f.holds(main),
            None => return Err(nothing_open()),
        };
        if !holds {
            return Err(crate::document::not_a_file(main));
        }
        if self.refused_while_dirty(SWITCHING) {
            return Ok(Asked::Refused);
        }
        Ok(Asked::Granted)
    }

    /// Put another of the project's files in the pane, leaving the main, the
    /// listing, the bytes and the counters as they were.
    pub fn set_edited(&mut self, path: &str) -> (r: Result<Asked, String>)
        requires
            old(self)@.reloaded < u64::MAX,
        ensures
            final(self)@ == set_edited_spec(old(self)@, path@).0,
            asked_result(r) == set_edited_spec(old(self)@, path@).1,
    {
        if self.files.is_none() || self.main.is_none() {
            return Err(nothing_open());
        }
        let holds = match &self.files {
            Some(f) => f.holds(path),
            None => false,
        };
        if !holds {
            return Err(crate::document::not_a_file(path));
        }
        if self.refused_while_dirty(SWITCHING) {
            return Ok(Asked::Refused);
        }
        self.edited = Some(crate::text::owned(path));
        self.load();
        Ok(Asked::Granted)
    }

    /// Delete one of the project's files. The main is refused; the file the
    /// pane holds is refused while it holds unsaved edits; when the pane held
    /// the file it falls back to the main, and loads it.
    pub fn trash(&mut self, path: &str) -> (r: Result<Trashed, String>)
        requires
            old(self)@.reloaded < u64::MAX,
        ensures
            final(self)@ == trash_spec(old(self)@, path@, final(self)@.tree).0,
            trashed_result(r) == trash_spec(old(self)@, path@, final(self)@.tree).1,
            r matches Ok(Trashed::Removed { .. }) ==> crate::document::panel_listing(
                final(self)@.files->0,
                old(self)@.images,
                final(self)@.tree,
            ),
    {
        if self.files.is_none() {
            return Err(nothing_open());
        }
        let main = match &self.main {
            Some(m) => m.clone(),
            None => return Err(nothing_open()),
        };
        if text_eq(path, main.as_str()) {
            return Err(crate::text::cat(path, " is the file this project compiles. Set another file as main first."));
        }
        let holding = match &self.edited {
            Some(e) => text_eq(e.as_str(), path),
            None => false,
        };
        if holding && self.refused_while_dirty(TRASHING) {
            return Ok(Trashed::Refused);
        }
        let mut held: Option<MemFiles> = None;
        std::mem::swap(&mut held, &mut self.files);
        let mut files = held.unwrap();
        let removed = crate::document::remove_file(&mut files, path);
        self.files = Some(files);
        match removed {
            Err(e) => return Err(e),
            Ok(()) => {},
        }
        self.refresh_tree();
        if holding {
            self.edited = Some(main);
            self.load();
        }
        Ok(Trashed::Removed { holding })
    }

    /// May this file be deleted? The main may not; the file the pane holds
    /// may not while it holds unsaved edits. Nothing is removed: a host whose
    /// files live elsewhere removes them there, then calls
    /// [`Preview::trash`].
    pub fn ask_trash(&mut self, path: &str) -> (r: Result<Asked, String>)
        ensures
            final(self)@ == ask_trash_spec(old(self)@, path@).0,
            asked_result(r) == ask_trash_spec(old(self)@, path@).1,
    {
        if self.files.is_none() {
            return Err(nothing_open());
        }
        let main = match &self.main {
            Some(m) => m.clone(),
            None => return Err(nothing_open()),
        };
        if text_eq(path, main.as_str()) {
            return Err(crate::text::cat(path, " is the file this project compiles. Set another file as main first."));
        }
        let holding = match &self.edited {
            Some(e) => text_eq(e.as_str(), path),
            None => false,
        };
        if holding && self.refused_while_dirty(TRASHING) {
            return Ok(Asked::Refused);
        }
        Ok(Asked::Granted)
    }

    /// Move the pane and read nothing: for a host's suite that must move the
    /// pane without the load a command runs.
    pub fn hold(&mut self, edited: &str)
        ensures
            final(self)@ == (Showing { edited: Some(edited@), ..old(self)@ }),
    {
        self.edited = Some(crate::text::owned(edited));
    }

    /// Drop what the pane holds and take the file again: the second way out
    /// every refusal names.
    pub fn discard(&mut self)
        requires
            old(self)@.reloaded < u64::MAX,
        ensures
            final(self)@ == loaded_spec(old(self)@),
    {
        self.load();
    }

    /// The images fetched by URL, for the host's fetch worker to move a URL
    /// along.
    pub fn web_mut(&mut self) -> (r: &mut Web)
        ensures
            r.allowed_sites() == old(self)@.sites,
            r.fetch_map() == old(self)@.fetches,
            r.landings() == old(self)@.landings,
            final(self)@ == (Showing {
                sites: final(r).allowed_sites(),
                fetches: final(r).fetch_map(),
                landings: final(r).landings(),
                ..old(self)@
            }),
    {
        &mut self.web
    }

    /// The project the panel is listing, to write through.
    pub fn files_mut(&mut self) -> (r: Option<&mut MemFiles>)
        ensures
            old(self)@.files is None ==> r is None && final(self)@ == old(self)@,
            old(self)@.files is Some ==> (r matches Some(f) && f@ == old(self)@.files->0 && final(self)@ == (
            Showing { files: Some(final(f)@), ..old(self)@ })),
    {
        match &mut self.files {
            Some(f) => Some(f),
            None => None,
        }
    }
    /// The wait for a URL is over: it is fetched now if it is still waiting,
    /// the text still names it, and the open project allows its site;
    /// otherwise it is dropped.
    pub fn begin(&mut self, url: &str) -> (r: bool)
        ensures
            ({
                let m = old(self)@.fetches;
                let named = old(self)@.urls.contains(url@);
                if !(m.contains_key(url@) && m[url@] is Waiting) {
                    !r && final(self)@ == old(self)@
                } else if named && old(self)@.sites.contains(crate::remote::site(url@)) {
                    r && final(self)@ == (Showing { fetches: m.insert(url@, Progress::Fetching), ..old(self)@ })
                } else {
                    !r && final(self)@ == (Showing { fetches: m.remove(url@), ..old(self)@ })
                }
            }),
    {
        let named = crate::text::holds_text(self.urls.as_slice(), url);
        self.web.begin(url, named)
    }

    /// A fetch came back.
    pub fn land(&mut self, url: &str, result: Result<Vec<u8>, String>)
        requires
            old(self)@.landings < u64::MAX,
        ensures
            final(self)@ == (Showing {
                fetches: old(self)@.fetches.insert(
                    url@,
                    Progress::Arrived(crate::remote::bytes_view(result), (old(self)@.landings + 1) as u64),
                ),
                landings: (old(self)@.landings + 1) as u64,
                ..old(self)@
            }),
    {
        self.web.land(url, result);
    }

    /// The sites allowed now, and the sites the document's URLs are on: what
    /// the press allows, computed before it is worn so the host can write it
    /// down first.
    pub fn widened(&self) -> (w: Vec<String>)
        ensures
            strings(w@).to_set() == self@.sites + self@.urls.map_values(|u: Seq<char>| crate::remote::site(u)).to_set(),
            crate::text::ascending(strings(w@)),
            strings(w@).no_duplicates(),
    {
        self.web.widened(self.urls.as_slice())
    }

    /// The press: wear these sites, and ask again about every URL the
    /// document names on them — a failure included. Answers the URLs handed
    /// to the fetch worker.
    pub fn allow(&mut self, allowed: Vec<String>) -> (claimed: Vec<String>)
        ensures
            ({
                let sites = strings(allowed@).to_set();
                let c = crate::remote::claim_spec(sites, old(self)@.fetches, old(self)@.urls, true);
                &&& final(self)@ == (Showing { sites, fetches: c.0, ..old(self)@ })
                &&& strings(claimed@) == c.1
            }),
    {
        self.web.install(allowed);
        self.web.claim(self.urls.as_slice(), true)
    }

    /// What an event from the project's files does: a change to the file in
    /// the pane is [`Preview::reload`]'s to decide; a change to the master or
    /// to a file it names falls due for a compile unless the reload took the
    /// file and has one due already; a change to the tree refreshes the
    /// panel. Answers whether the window must hear of it, and the compile to
    /// run.
    pub fn on_change(&mut self, changed: Changed) -> (r: Reaction)
        requires
            old(self)@.reloaded < u64::MAX,
            old(self)@.started < u64::MAX,
        ensures
            ({
                let (p1, e) = if changed.edited {
                    reload_spec(old(self)@)
                } else {
                    (old(self)@, External::Unchanged)
                };
                let taken = changed.edited && e == External::Taken;
                let planning = taken || changed.document || changed.assets;
                let p2 = if planning && plannable(p1) {
                    Showing { started: (p1.started + 1) as u64, due: if taken { false } else { p1.due }, ..p1 }
                } else if taken {
                    Showing { due: false, ..p1 }
                } else {
                    p1
                };
                &&& r.announce == ((changed.edited && e != External::Unchanged) || ((changed.document
                    || changed.assets) && !taken) || changed.tree)
                &&& (planning && plannable(p1)) ==> (r.compile matches Some(c) && planned_from(p1, c@))
                &&& !(planning && plannable(p1)) ==> r.compile is None
                &&& !changed.tree ==> final(self)@ == p2
                &&& changed.tree && p2.files is None ==> final(self)@ == p2
                &&& changed.tree && p2.files is Some ==> final(self)@ == (Showing { tree: final(self)@.tree, ..p2 })
                    && crate::document::panel_listing(p2.files->0, p2.images, final(self)@.tree)
            }),
    {
        let mut announce = false;
        let taken = if changed.edited {
            let outcome = self.reload();
            announce = match outcome {
                External::Unchanged => false,
                _ => true,
            };
            match outcome {
                External::Taken => true,
                _ => false,
            }
        } else {
            false
        };
        let compile = if taken {
            self.compile()
        } else if changed.document || changed.assets {
            announce = true;
            self.plan()
        } else {
            None
        };
        if changed.tree {
            self.refresh_tree();
            announce = true;
        }
        Reaction { announce, compile }
    }
}


/// Which files an event from the project touched: the one in the pane, the
/// master, one the document names, or the tree the panel lists.
#[derive(Debug, Clone, Copy, PartialEq, Eq, Structural)]
pub struct Changed {
    pub edited: bool,
    pub document: bool,
    pub assets: bool,
    pub tree: bool,
}

/// What an event came to: whether the window must hear of it, and the
/// compile it falls due for.
#[derive(Debug)]
pub struct Reaction {
    pub announce: bool,
    pub compile: Option<Compile>,
}

/// **The app's own save arrives back unchanged.** Reading the file the pane
/// holds right after a save gives back exactly the text saved, so the event
/// that save raises is [`External::Unchanged`]: no second compile, and no
/// divergence named over the author's own write.
pub proof fn lemma_a_save_reads_back(p: Showing)
    requires
        p.files is Some,
        p.edited is Some,
        crate::files::normal_spec(p.edited->0) is Some,
    ensures
        save_spec(p).1 == Ok::<Seq<char>, Seq<char>>("saved"@),
        crate::document::read_document_spec(save_spec(p).0.files->0, p.edited->0) == Ok::<Seq<char>, Seq<char>>(p.buffer),
        !dirty(save_spec(p).0),
        reload_spec(save_spec(p).0) == (save_spec(p).0, External::Unchanged),
{
    vstd::utf8::encode_utf8_valid_utf8(p.buffer);
    vstd::utf8::encode_utf8_decode_utf8(p.buffer);
    let e = p.edited->0;
    let k = crate::files::normal_spec(e)->0;
    crate::files::lemma_normal_is_a_fixed_point(e);
    let f = save_spec(p).0.files->0;
    assert(f.contains_key(k));
    assert(f[k] == vstd::utf8::encode_utf8(p.buffer));
}

/// **An answer older than the one written, or for text that has moved on,
/// changes nothing** — which is what an open relies on to discard every
/// answer in flight, since it leaves the count landed equal to the count
/// started.
pub proof fn lemma_a_stale_answer_changes_nothing(
    p: Showing,
    plan: Planned,
    outcome: Result<Rendered, Seq<char>>,
    took: u64,
)
    requires
        plan.serial <= p.landed || !current_spec(p, plan),
    ensures
        absorbed(p, plan, outcome, took) == (p, Seq::<Seq<char>>::empty()),
{
}

/// **The count of pages rises on a page and not on a failure, and a failure
/// keeps the page it had.** A taken answer that typeset counts one page; a
/// taken answer that failed keeps the bytes, the anchors and the time, and
/// marks the page stale.
pub proof fn lemma_a_page_counts_and_a_failure_keeps_the_page(
    p: Showing,
    plan: Planned,
    outcome: Result<Rendered, Seq<char>>,
    took: u64,
)
    requires
        plan.serial > p.landed,
        current_spec(p, plan),
        p.revision < u64::MAX,
    ensures
        ({
            let q = absorbed(p, plan, outcome, took).0;
            match outcome {
                Ok(r) => match r.pdf {
                    Ok(b) => q.revision == p.revision + 1 && q.pdf == Some(b) && !q.stale && q.error is None,
                    Err(m) => q.revision == p.revision && q.pdf == p.pdf && q.anchors == p.anchors
                        && q.elapsed == p.elapsed && q.stale && q.error == Some(m),
                },
                Err(m) => q.revision == p.revision && q.pdf == p.pdf && q.anchors == p.anchors
                    && q.elapsed == p.elapsed && q.stale && q.error == Some(m),
            }
        }),
        absorbed(p, plan, outcome, took).0.landed == plan.serial,
{
}

/// **No answer lands ahead of the plans made**: while the count landed is at
/// most the count started, taking in any plan this pane made keeps it so,
/// and so does making one.
pub proof fn lemma_landed_never_passes_started(
    p: Showing,
    plan: Planned,
    outcome: Result<Rendered, Seq<char>>,
    took: u64,
)
    requires
        p.landed <= p.started,
        plan.serial <= p.started,
    ensures
        absorbed(p, plan, outcome, took).0.landed <= absorbed(p, plan, outcome, took).0.started,
{
}

/// **A gesture refused over unsaved work moves nothing**: a refused switch,
/// main or delete leaves the project, the pane's file and its text exactly
/// as they were, and names both ways out.
pub proof fn lemma_a_refusal_moves_nothing(p: Showing, path: Seq<char>, tree: Seq<Row>)
    ensures
        set_edited_spec(p, path).1 == Ok::<Asked, Seq<char>>(Asked::Refused) ==> {
            let q = set_edited_spec(p, path).0;
            q.files == p.files && q.edited == p.edited && q.buffer == p.buffer && q.saved == p.saved
                && q.divergence == Some(SWITCHING@)
        },
        ask_main_spec(p, path).1 == Ok::<Asked, Seq<char>>(Asked::Refused) ==> {
            let q = ask_main_spec(p, path).0;
            q.files == p.files && q.main == p.main && q.buffer == p.buffer && q.divergence == Some(SWITCHING@)
        },
        trash_spec(p, path, tree).1 == Ok::<Trashed, Seq<char>>(Trashed::Refused) ==> {
            let q = trash_spec(p, path, tree).0;
            q.files == p.files && q.edited == p.edited && q.buffer == p.buffer && q.divergence == Some(TRASHING@)
        },
{
}

/// **A switch is granted only over a clean pane, and then the pane holds the
/// file asked for, read from the project.**
pub proof fn lemma_a_granted_switch_reads_the_file(p: Showing, path: Seq<char>)
    requires
        set_edited_spec(p, path).1 == Ok::<Asked, Seq<char>>(Asked::Granted),
    ensures
        !dirty(p),
        ({
            let q = set_edited_spec(p, path).0;
            &&& q.edited == Some(path)
            &&& q.main == p.main
            &&& q.files == p.files
            &&& match crate::document::read_document_spec(p.files->0, path) {
                Ok(t) => q.buffer == t && q.saved == t && q.due,
                Err(m) => q.buffer == p.buffer && q.error == Some(m),
            }
        }),
{
}

/// **A delete never takes the file that compiles**, and one that goes
/// through takes exactly that file from the project.
pub proof fn lemma_a_delete_takes_one_file(p: Showing, path: Seq<char>, tree: Seq<Row>)
    ensures
        p.main == Some(path) && p.files is Some ==> trash_spec(p, path, tree).1 == Err::<Trashed, Seq<char>>(
            compiles_sentence(path),
        ) && trash_spec(p, path, tree).0 == p,
        trash_spec(p, path, tree).1 is Ok && trash_spec(p, path, tree).1 != Ok::<Trashed, Seq<char>>(Trashed::Refused)
            ==> trash_spec(p, path, tree).0.files == Some(
            p.files->0.remove(crate::files::normal_spec(path)->0),
        ),
{
}


/// **A Save-as inside the project moves the pane, and the next save goes
/// there**: the file written is the one the Save-as named, the pane is clean,
/// and the file that compiles stays where it was.
pub proof fn lemma_the_next_save_follows_a_save_as(p: Showing, path: Seq<char>, tree: Seq<Row>)
    requires
        save_as_spec(p, path, tree).1 is Ok,
    ensures
        ({
            let q = save_as_spec(p, path, tree).0;
            let k = crate::files::normal_spec(path)->0;
            &&& q.edited == Some(k)
            &&& q.main == p.main
            &&& !dirty(q)
            &&& q.files->0[k] == vstd::utf8::encode_utf8(p.buffer)
            &&& save_spec(q).1 is Ok
            &&& save_spec(q).0.files->0 == q.files->0.insert(k, vstd::utf8::encode_utf8(q.buffer))
        }),
{
    crate::files::lemma_normal_is_a_fixed_point(path);
}


/// **A Save-as outside the project is a copy, and keeps the author's work
/// unsaved**: the pane keeps its file, its text, its last-saved text and its
/// divergence, so a pane that was dirty is dirty still, and nothing compiles.
pub proof fn lemma_a_save_outside_keeps_the_work(p: Showing, path: Seq<char>, tree: Seq<Row>)
    requires
        saved_as_spec(p, path, None, tree).1 is Ok,
    ensures
        ({
            let q = saved_as_spec(p, path, None, tree).0;
            &&& q.edited == p.edited
            &&& q.main == p.main
            &&& q.files == p.files
            &&& q.buffer == p.buffer
            &&& q.saved == p.saved
            &&& q.divergence == p.divergence
            &&& dirty(q) == dirty(p)
            &&& q.due == p.due
            &&& q.revision == p.revision
        }),
        saved_as_spec(p, path, None, tree).1 == Ok::<(bool, Seq<char>), Seq<char>>((false, receipt_spec(path))),
{
}

/// **A page taken in is drawn with its own anchors, files and time.** Once an
/// answer is taken (it is newer than what landed and its plan is current), a
/// page it brings replaces the page, its anchors and its time; the files to
/// watch and the sections are what that compile read; and a compile that drew
/// no page keeps the page and the anchors on screen.
pub proof fn lemma_a_taken_answer_brings_its_anchors_and_files(
    p: Showing,
    plan: Planned,
    r: Rendered,
    took: u64,
)
    requires
        plan.serial > p.landed,
        current_spec(p, plan),
    ensures
        ({
            let q = absorbed(p, plan, Ok::<Rendered, Seq<char>>(r), took).0;
            &&& q.landed == plan.serial
            &&& q.sections == r.sections
            &&& q.refused == r.refused
            &&& r.assets matches Some(a) ==> q.assets == a
            &&& r.assets is None ==> q.assets == p.assets
            &&& r.urls matches Some(u) ==> q.urls == u
            &&& r.urls is None ==> q.urls == p.urls
            &&& r.pdf matches Ok(b) ==> q.pdf == Some(b) && q.anchors == r.anchors && q.elapsed == Some(took)
            &&& r.pdf is Err ==> q.pdf == p.pdf && q.anchors == p.anchors && q.elapsed == p.elapsed
        }),
{
}

/// `last_index` over a tail that does not hold the character.
proof fn lemma_last_index_append(s: Seq<char>, t: Seq<char>, c: char)
    requires
        forall|i: int| 0 <= i < t.len() ==> t[i] != c,
    ensures
        crate::text::last_index(s + t, c) == crate::text::last_index(s, c),
    decreases t.len(),
{
    if t.len() == 0 {
        assert(s + t =~= s);
    } else {
        assert((s + t).drop_last() =~= s + t.drop_last());
        assert((s + t).last() == t.last());
        lemma_last_index_append(s, t.drop_last(), c);
    }
}

/// **Save a Copy offers the main with its extension replaced by `pdf`**: a
/// main `dir/name.ext` — in any folder or none, with a name of at least one
/// character and an extension holding no dot — is offered as `dir/name.pdf`.
pub proof fn lemma_the_copy_is_the_main_with_a_pdf_extension(dir: Seq<char>, name: Seq<char>, ext: Seq<char>)
    requires
        dir.len() == 0 || dir.last() == '/',
        name.len() > 0,
        forall|i: int| 0 <= i < name.len() ==> name[i] != '/',
        forall|i: int| 0 <= i < ext.len() ==> ext[i] != '/' && ext[i] != '.',
    ensures
        with_pdf(dir + name + seq!['.'] + ext) == dir + name + ".pdf"@,
{
    let path = dir + name + seq!['.'] + ext;
    let head = dir + name;
    // The last slash is the folder's own.
    lemma_last_index_append(head + seq!['.'], ext, '/');
    lemma_last_index_append(dir, name + seq!['.'], '/');
    assert(head + seq!['.'] =~= dir + (name + seq!['.']));
    assert forall|i: int| 0 <= i < (name + seq!['.']).len() implies (name + seq!['.'])[i] != '/' by {
        if i < name.len() {
            assert((name + seq!['.'])[i] == name[i]);
        }
    }
    if dir.len() > 0 {
        assert(dir.drop_last().push(dir.last()) =~= dir);
    }
    assert(crate::text::last_index(dir, '/') == dir.len() - 1);
    assert(crate::text::last_index(path, '/') == dir.len() - 1);
    // The last dot is the one before the extension.
    lemma_last_index_append(head + seq!['.'], ext, '.');
    assert((head + seq!['.']).drop_last() =~= head);
    assert(crate::text::last_index(head + seq!['.'], '.') == head.len());
    assert(path =~= (head + seq!['.']) + ext);
    assert(crate::text::last_index(path, '.') == head.len());
    assert(path.subrange(0, head.len() as int) =~= head);
}

proof fn lemma_last_index_below(s: Seq<char>, c: char)
    ensures
        -1 <= crate::text::last_index(s, c) < s.len(),
    decreases s.len(),
{
    if s.len() > 0 {
        lemma_last_index_below(s.drop_last(), c);
    }
}

/// **A main with no extension keeps its name and gains `.pdf`**: where the
/// last segment holds no dot after its first character (`README`,
/// `.notes`), the copy is offered as the main with `.pdf` added.
pub proof fn lemma_a_main_with_no_extension_gains_one(dir: Seq<char>, name: Seq<char>)
    requires
        dir.len() == 0 || dir.last() == '/',
        forall|i: int| 0 <= i < name.len() ==> name[i] != '/',
        forall|i: int| 0 < i < name.len() ==> name[i] != '.',
    ensures
        with_pdf(dir + name) == dir + name + ".pdf"@,
{
    let path = dir + name;
    lemma_last_index_append(dir, name, '/');
    if dir.len() > 0 {
        assert(dir.drop_last().push(dir.last()) =~= dir);
    }
    assert(crate::text::last_index(path, '/') == dir.len() - 1);
    if name.len() > 0 && name[0] == '.' {
        let rest = name.drop_first();
        assert forall|i: int| 0 <= i < rest.len() implies rest[i] != '.' by {
            assert(rest[i] == name[i + 1]);
        }
        lemma_last_index_append(dir.push('.'), rest, '.');
        assert(path =~= dir.push('.') + rest);
        assert(dir.push('.').drop_last() =~= dir);
        assert(crate::text::last_index(path, '.') == dir.len());
    } else {
        assert forall|i: int| 0 <= i < name.len() implies name[i] != '.' by {}
        lemma_last_index_append(dir, name, '.');
        lemma_last_index_below(dir, '.');
    }
}

} // verus!
