//! What the sidebar and the status bar show: the rows of the tree, their text, and how the list
//! follows the selection and the pointer.
//!
//! The tree is **virtualised**: only the rows actually on screen are laid out. That is why it is
//! flattened into a list of rows here, which needs its own collapse state.
use vstd::prelude::*;
use crate::app;
use crate::app::{Action, App, AppFacts, Effects, Outcome};
use crate::path;
use crate::prefetch::{Prefetcher, Ring, State};
use crate::scan;
use crate::scan::{DirFacts, DirNode, FileMeta, Group, GroupFacts, MetaStore, WallTime};
use crate::text;
use crate::trash;
use crate::trash::{Bin, Call};

verus! {

/// Column widths for the monospaced row layout.
pub const STEM_W: usize = 20;

pub const KIND_W: usize = 8;

pub const SIZE_W: usize = 9;

/// How long the pointer must rest on a row before it is preloaded, in nanoseconds.
pub const HOVER_DELAY: u64 = 60_000_000;

/// One line in the flattened tree.
#[derive(Clone, Copy, PartialEq, Eq, Debug, Structural)]
pub enum Row {
    /// A directory, by its position in the tree.
    Dir { dir: usize, collapsed: bool },
    /// A group, by its position in its directory, and its index in the list that navigation
    /// goes by.
    Group { dir: usize, offset: usize, index: usize },
}

/// The directories that the user has collapsed.
pub struct Collapsed {
    dirs: vstd::hash_set::StringHashSet,
}

impl View for Collapsed {
    type V = Set<Seq<char>>;

    /// The canonical forms of the paths.
    closed spec fn view(&self) -> Set<Seq<char>> {
        self.dirs@
    }
}

impl Collapsed {
    pub fn new() -> (c: Self)
        ensures
            c@ == Set::<Seq<char>>::empty(),
    {
        Collapsed { dirs: vstd::hash_set::StringHashSet::new() }
    }

    pub fn contains(&self, dir: &str) -> (r: bool)
        ensures
            r == self@.contains(path::canonical(dir@)),
    {
        self.dirs.contains(path::canonical_text(dir).as_str())
    }

    /// Collapse a directory, or open it again.
    pub fn toggle(&mut self, dir: &str)
        ensures
            final(self)@ == (if old(self)@.contains(path::canonical(dir@)) {
                old(self)@.remove(path::canonical(dir@))
            } else {
                old(self)@.insert(path::canonical(dir@))
            }),
    {
        let dir = path::canonical_text(dir);
        if !self.dirs.remove(dir.as_str()) {
            self.dirs.insert(dir);
        }
    }
}

impl Default for Collapsed {
    fn default() -> (c: Self)
        ensures
            c@ == Set::<Seq<char>>::empty(),
    {
        Collapsed::new()
    }
}

/// A row for each of the groups of directory `dir`, which are `base` and the following ones of
/// the whole list.
pub open spec fn group_rows(dir: int, n: nat, base: nat) -> Seq<Row> {
    Seq::new(
        n,
        |i: int| Row::Group { dir: dir as usize, offset: i as usize, index: (base + i) as usize },
    )
}

/// The rows of the tree: each directory, followed by its groups unless it is collapsed.
pub open spec fn rows_of(dirs: Seq<DirFacts>, collapsed: Set<Seq<char>>) -> Seq<Row>
    decreases dirs.len(),
{
    if dirs.len() == 0 {
        Seq::empty()
    } else {
        let init = dirs.drop_last();
        let last = dirs.last();
        let hidden = collapsed.contains(path::canonical(last.path));
        rows_of(init, collapsed).push(
            Row::Dir { dir: init.len() as usize, collapsed: hidden },
        ) + if hidden {
            Seq::empty()
        } else {
            group_rows(init.len() as int, last.groups.len(), scan::flat(init).len())
        }
    }
}

proof fn lemma_flat_grows(dirs: Seq<DirFacts>, n: int)
    requires
        0 <= n <= dirs.len(),
    ensures
        scan::flat(dirs.take(n)).len() <= scan::flat(dirs).len(),
    decreases dirs.len() - n,
{
    if n < dirs.len() {
        lemma_flat_grows(dirs, n + 1);
        assert(dirs.take(n + 1).drop_last() == dirs.take(n));
    } else {
        assert(dirs.take(n) == dirs);
    }
}

/// Flatten the directory tree into a list of rows, honouring collapse state.
///
/// Group indices are assigned from the full list regardless of visibility, so they always match
/// the ordering the app and the prefetch ring use.
pub fn build_rows(dirs: &Vec<DirNode>, collapsed: &Collapsed) -> (rows: Vec<Row>)
    requires
        scan::flat(scan::dir_facts(dirs@)).len() <= usize::MAX,
    ensures
        rows@ == rows_of(scan::dir_facts(dirs@), collapsed@),
{
    let ghost facts = scan::dir_facts(dirs@);
    let mut rows: Vec<Row> = Vec::new();
    let mut base: usize = 0;
    for d in 0..dirs.len()
        invariant
            facts == scan::dir_facts(dirs@),
            scan::flat(facts).len() <= usize::MAX,
            base == scan::flat(facts.take(d as int)).len(),
            rows@ == rows_of(facts.take(d as int), collapsed@),
    {
        let ghost init = facts.take(d as int);
        let ghost next = facts.take(d + 1);
        proof {
            assert(next.drop_last() == init);
            assert(next.last() == dirs@[d as int]@);
            lemma_flat_grows(facts, d + 1);
        }
        let hidden = collapsed.contains(dirs[d].path.as_str());
        rows.push(Row::Dir { dir: d, collapsed: hidden });
        let n: usize = dirs[d].groups.len();
        let ghost head = rows@;
        if !hidden {
            assert(head + group_rows(d as int, 0, base as nat) == head);
            for offset in 0..n
                invariant
                    base + n <= usize::MAX,
                    rows@ == head + group_rows(d as int, offset as nat, base as nat),
            {
                rows.push(Row::Group { dir: d, offset, index: base + offset });
                assert(group_rows(d as int, (offset + 1) as nat, base as nat) == group_rows(
                    d as int,
                    offset as nat,
                    base as nat,
                ).push(Row::Group { dir: d, offset, index: (base + offset) as usize }));
            }
        } else {
            assert(head + Seq::<Row>::empty() == head);
        }
        assert(rows@ == rows_of(next, collapsed@));
        base = base + n;
    }
    assert(facts.take(facts.len() as int) == facts);
    rows
}

/// The row of a group has the index under which the whole list holds that group, whichever
/// directories are collapsed. So clicking a row below a collapsed directory selects the image
/// that the row names.
pub proof fn law_rows_match_the_list(dirs: Seq<DirFacts>, collapsed: Set<Seq<char>>, k: int)
    requires
        scan::flat(dirs).len() <= usize::MAX,
        dirs.len() <= usize::MAX,
        0 <= k < rows_of(dirs, collapsed).len(),
    ensures
        match rows_of(dirs, collapsed)[k] {
            Row::Group { dir, offset, index } => {
                &&& dir < dirs.len()
                &&& offset < dirs[dir as int].groups.len()
                &&& index < scan::flat(dirs).len()
                &&& scan::flat(dirs)[index as int] == dirs[dir as int].groups[offset as int]
                &&& !collapsed.contains(path::canonical(dirs[dir as int].path))
            },
            Row::Dir { dir, collapsed: hidden } => {
                &&& dir < dirs.len()
                &&& hidden == collapsed.contains(path::canonical(dirs[dir as int].path))
            },
        },
    decreases dirs.len(),
{
    let init = dirs.drop_last();
    let head = rows_of(init, collapsed);
    if k < head.len() {
        lemma_flat_grows(dirs, dirs.len() - 1);
        assert(dirs.take(dirs.len() - 1) == init);
        law_rows_match_the_list(init, collapsed, k);
        assert(rows_of(dirs, collapsed)[k] == head[k]);
    } else if k > head.len() {
        let i = k - head.len() - 1;
        assert(rows_of(dirs, collapsed)[k] == group_rows(
            init.len() as int,
            dirs.last().groups.len(),
            scan::flat(init).len(),
        )[i]);
        assert(dirs[dirs.len() - 1] == dirs.last());
    }
}

/// Every group of a directory that is not collapsed has a row.
pub proof fn law_open_directories_show_their_groups(
    dirs: Seq<DirFacts>,
    collapsed: Set<Seq<char>>,
    dir: int,
    offset: int,
)
    requires
        scan::flat(dirs).len() <= usize::MAX,
        dirs.len() <= usize::MAX,
        0 <= dir < dirs.len(),
        0 <= offset < dirs[dir].groups.len(),
        !collapsed.contains(path::canonical(dirs[dir].path)),
    ensures
        exists|k: int|
            0 <= k < rows_of(dirs, collapsed).len() && (#[trigger] rows_of(dirs, collapsed)[k])
                == (Row::Group {
                dir: dir as usize,
                offset: offset as usize,
                index: (scan::flat(dirs.take(dir)).len() + offset) as usize,
            }),
    decreases dirs.len(),
{
    let rows = rows_of(dirs, collapsed);
    let init = dirs.drop_last();
    let head = rows_of(init, collapsed);
    if dir < init.len() {
        lemma_flat_grows(dirs, dirs.len() - 1);
        assert(dirs.take(dirs.len() - 1) == init);
        assert(init.take(dir) == dirs.take(dir));
        law_open_directories_show_their_groups(init, collapsed, dir, offset);
        let k = choose|k: int|
            0 <= k < head.len() && (#[trigger] head[k]) == (Row::Group {
                dir: dir as usize,
                offset: offset as usize,
                index: (scan::flat(init.take(dir)).len() + offset) as usize,
            });
        assert(rows[k] == head[k]);
    } else {
        assert(dirs.take(dir) == init);
        let k = head.len() + 1 + offset;
        assert(rows[k] == group_rows(dir, dirs.last().groups.len(), scan::flat(init).len())[offset]);
    }
}

/// The row of the group at `index` from row `k` on, or -1 where it has none.
pub open spec fn row_from(rows: Seq<Row>, index: usize, k: int) -> int
    decreases rows.len() - k,
{
    if k < 0 || k >= rows.len() {
        -1
    } else if rows[k] matches Row::Group { index: i, .. } && i == index {
        k
    } else {
        row_from(rows, index, k + 1)
    }
}

/// Where the group at `index` stands among the rows; nowhere when its directory is collapsed.
pub fn row_position(rows: &Vec<Row>, index: usize) -> (r: Option<usize>)
    ensures
        match r {
            Some(k) => row_from(rows@, index, 0) == k,
            None => row_from(rows@, index, 0) == -1,
        },
{
    for k in 0..rows.len()
        invariant
            row_from(rows@, index, 0) == row_from(rows@, index, k as int),
    {
        if let Row::Group { index: i, .. } = rows[k] {
            if i == index {
                return Some(k);
            }
        }
    }
    None
}

/// The name that a directory goes by: its own, or the whole path where it has none.
pub open spec fn dir_name(p: Seq<char>) -> Seq<char> {
    match path::spec_file_name(p) {
        Some(name) => name,
        None => p,
    }
}

/// The label of a directory row.
pub open spec fn dir_text(p: Seq<char>, n: nat, collapsed: bool) -> Seq<char> {
    (if collapsed {
        "\u{25b6}"@
    } else {
        "\u{25bc}"@
    }) + " "@ + dir_name(p) + "  ("@ + text::decimal(n) + ")"@
}

/// The label of a directory row.
pub fn dir_label(path: &str, groups: usize, collapsed: bool) -> (s: String)
    ensures
        s@ == dir_text(path@, groups as nat, collapsed),
{
    let mut s = if collapsed {
        String::from_str("\u{25b6}")
    } else {
        String::from_str("\u{25bc}")
    };
    s.append(" ");
    match path::file_name(path) {
        Some(name) => {
            s.append(name.as_str());
        },
        None => {
            s.append(path);
        },
    }
    s.append("  (");
    text::push_decimal(&mut s, groups as u64);
    s.append(")");
    s
}

/// The text of a group row: stem, kind and size in columns, and the capture time.
pub open spec fn row_line(
    stem: Seq<char>,
    kind: Seq<char>,
    size: Seq<char>,
    when: Seq<char>,
) -> Seq<char> {
    text::pad_right(stem, ' ', STEM_W as nat) + " "@ + text::pad_right(kind, ' ', KIND_W as nat)
        + text::pad_left(size, ' ', SIZE_W as nat) + "  "@ + when
}

/// Render one row's text.
pub fn row_text(stem: &str, kind: &str, size: &str, when: &str) -> (s: String)
    ensures
        s@ == row_line(stem@, kind@, size@, when@),
{
    let mut s = String::new();
    text::push_padded_right(&mut s, stem, ' ', STEM_W);
    s.append(" ");
    text::push_padded_right(&mut s, kind, ' ', KIND_W);
    text::push_padded_left(&mut s, size, ' ', SIZE_W);
    s.append("  ");
    s.append(when);
    assert(s@ == row_line(stem@, kind@, size@, when@));
    s
}

/// The columns line up: whatever stands in a row whose fields fit their widths, its size ends at
/// the same place, and the capture time starts two characters further on.
pub proof fn law_columns_line_up(stem: Seq<char>, kind: Seq<char>, size: Seq<char>, when: Seq<char>)
    requires
        stem.len() <= STEM_W,
        kind.len() <= KIND_W,
        size.len() <= SIZE_W,
    ensures
        ({
            let end = STEM_W + 1 + KIND_W + SIZE_W;
            let line = row_line(stem, kind, size, when);
            &&& line.len() == end + 2 + when.len()
            &&& line.subrange(0, stem.len() as int) == stem
            &&& line.subrange(end - size.len(), end) == size
            &&& line.subrange(end + 2, line.len() as int) == when
        }),
{
    reveal_strlit(" ");
    reveal_strlit("  ");
    let end = STEM_W + 1 + KIND_W + SIZE_W;
    let line = row_line(stem, kind, size, when);
    assert(line.subrange(0, stem.len() as int) == stem);
    assert(line.subrange(end - size.len(), end) == size);
    assert(line.subrange(end + 2, line.len() as int) == when);
}

/// `s` shows the time `t`, as far as it is known.
pub open spec fn shows_when(t: Option<WallTime>, s: Seq<char>) -> bool {
    match t {
        Some(t) => if t.secs < 0 {
            s == "-"@
        } else {
            crate::format::shows_time(t.secs as nat, s)
        },
        None => s == "-"@,
    }
}

/// The size of a group, as far as it is known.
pub open spec fn known_size(known: Map<Seq<char>, FileMeta>, g: GroupFacts) -> Seq<char> {
    if scan::all_known(known, g.members) {
        crate::format::size_text(scan::known_bytes(known, g.members))
    } else {
        "-"@
    }
}

/// `line` is the row of a group, with its earliest file's time.
pub open spec fn shows_group(
    known: Map<Seq<char>, FileMeta>,
    g: GroupFacts,
    t: Option<WallTime>,
    when: Seq<char>,
    line: Seq<char>,
) -> bool {
    &&& scan::earliest(known, g.members, t)
    &&& shows_when(t, when)
    &&& line == row_line(g.stem, g.kind(), known_size(known, g), when)
}

/// One tree row: stem, kind, size and capture time.
///
/// Size and time come from the background stat pass, so they show `-` for the moment after
/// launch before it completes.
pub fn row_label(group: &Group, meta: &MetaStore) -> (line: String)
    requires
        scan::known_bytes(meta@, group@.members) <= u64::MAX,
    ensures
        exists|t: Option<WallTime>, when: Seq<char>| #[trigger]
            shows_group(meta@, group@, t, when, line@),
{
    let size = match meta.group_bytes(group) {
        Some(n) => crate::format::format_size(n),
        None => String::from_str("-"),
    };
    let modified = meta.group_modified(group);
    let when = match modified {
        Some(t) => crate::format::format_time(t),
        None => String::from_str("-"),
    };
    let line = row_text(group.stem.as_str(), group.kind(), size.as_str(), when.as_str());
    assert(shows_group(meta@, group@, modified, when@, line@));
    line
}

/// How a row is coloured.
#[derive(Clone, Copy, PartialEq, Eq, Debug, Structural)]
pub enum Tone {
    Plain,
    /// Shown from an embedded preview rather than a sidecar JPEG; worth marking.
    RawOnly,
    Failed,
}

/// The tone of a group's row; see [`row_tone`].
pub open spec fn tone_of(g: GroupFacts, failed: bool) -> Tone {
    if failed {
        Tone::Failed
    } else if g.is_raw_only() {
        Tone::RawOnly
    } else {
        Tone::Plain
    }
}

/// A group that failed to load is marked as such, whatever it holds; of the others those that are
/// shown from a RAW are marked.
pub proof fn law_failure_shows_first(g: GroupFacts, failed: bool)
    ensures
        failed <==> tone_of(g, failed) == Tone::Failed,
        !failed && g.is_raw_only() <==> tone_of(g, failed) == Tone::RawOnly,
        !failed && !g.is_raw_only() <==> tone_of(g, failed) == Tone::Plain,
{
}

/// The tone of a group's row, given whether the group failed to load.
pub fn row_tone(group: &Group, failed: bool) -> (t: Tone)
    ensures
        t == (if failed {
            Tone::Failed
        } else if group@.is_raw_only() {
            Tone::RawOnly
        } else {
            Tone::Plain
        }),
        t == tone_of(group@, failed),
{
    if failed {
        Tone::Failed
    } else if group.is_raw_only() {
        Tone::RawOnly
    } else {
        Tone::Plain
    }
}

/// The sign that a slot is loading or failed, so a cold one does not look like a hang.
#[derive(Clone, Copy, PartialEq, Eq, Debug, Structural)]
pub enum Indicator {
    Nothing,
    Spinner,
    Failed,
}

impl Indicator {
    pub open spec fn spec_of(s: State) -> Indicator {
        match s {
            State::Queued => Indicator::Spinner,
            State::Decoding => Indicator::Spinner,
            State::Failed => Indicator::Failed,
            _ => Indicator::Nothing,
        }
    }

    pub fn of(s: State) -> (i: Self)
        ensures
            i == Indicator::spec_of(s),
    {
        match s {
            State::Queued => Indicator::Spinner,
            State::Decoding => Indicator::Spinner,
            State::Failed => Indicator::Failed,
            _ => Indicator::Nothing,
        }
    }
}

/// What the status bar says of the image on screen.
pub struct ImageLabels {
    pub size: String,
    /// Only for an image that is turned.
    pub rotation: Option<String>,
    /// Only where the colours may be wrong.
    pub warning: Option<String>,
}

/// What the status bar says, but for the zoom.
pub struct Status {
    /// Position and stem of the selected group.
    pub selected: Option<(String, String)>,
    pub image: Option<ImageLabels>,
    pub mode: String,
    pub indicator: Indicator,
    pub scrolling: bool,
    /// The label of the undo button, when there is something to undo.
    pub undo: Option<String>,
    pub message: String,
    /// A delete is armed, so the message asks for it to be confirmed.
    pub armed: bool,
}

/// The mathematical content of an optional string.
pub open spec fn optional(s: Option<String>) -> Option<Seq<char>> {
    match s {
        Some(s) => Some(s@),
        None => None,
    }
}

/// A position in a list of `n`, counted from one.
pub open spec fn position_text(index: nat, n: nat) -> Seq<char> {
    text::decimal(index + 1) + "/"@ + text::decimal(n)
}

/// The stored size of an image.
pub open spec fn size_text(width: nat, height: nat) -> Seq<char> {
    text::decimal(width) + "x"@ + text::decimal(height) + " ("@ + crate::format::megapixels_text(
        width,
        height,
    ) + " MP)"@
}

/// The orientation of an image that is turned.
pub open spec fn rotation_text(orientation: u16) -> Option<Seq<char>> {
    if orientation != 1 {
        Some("rot "@ + text::decimal(orientation as nat))
    } else {
        None
    }
}

/// The label of the undo button.
pub open spec fn undo_text(n: nat) -> Option<Seq<char>> {
    if n > 0 {
        Some("undo ("@ + text::decimal(n) + ")"@)
    } else {
        None
    }
}

/// `labels` describe the image on screen.
pub open spec fn describes(labels: ImageLabels, s: app::ShownFacts) -> bool {
    &&& labels.size@ == size_text(s.stored.0 as nat, s.stored.1 as nat)
    &&& optional(labels.rotation) == rotation_text(s.orientation)
    &&& optional(labels.warning) == (if s.colour is NotSrgb || s.colour is Unparsable {
        Some(s.colour.spec_describe())
    } else {
        None
    })
}

fn image_labels(s: &app::Shown) -> (labels: ImageLabels)
    ensures
        describes(labels, s@),
{
    let mut size = String::new();
    text::push_decimal(&mut size, s.stored.0 as u64);
    size.append("x");
    text::push_decimal(&mut size, s.stored.1 as u64);
    size.append(" (");
    size.append(crate::format::format_megapixels(s.stored.0, s.stored.1).as_str());
    size.append(" MP)");
    let orientation: u16 = s.orientation.value();
    let rotation = if orientation != 1 {
        let mut r = String::from_str("rot ");
        text::push_decimal(&mut r, orientation as u64);
        Some(r)
    } else {
        None
    };
    let warning = if s.colour.needs_warning() {
        Some(s.colour.describe())
    } else {
        None
    };
    ImageLabels { size, rotation, warning }
}

/// What the status bar says.
pub fn status(app: &App, ring: &Prefetcher) -> (s: Status)
    ensures
        match s.selected {
            Some((position, stem)) => {
                &&& app@.current() is Some
                &&& position@ == position_text(app@.index as nat, app@.groups.len())
                &&& stem@ == app@.current()->0.stem
            },
            None => app@.current() is None,
        },
        match s.image {
            Some(labels) => app@.shown is Some && describes(labels, app@.shown->0),
            None => app@.shown is None,
        },
        s.mode@ == app::mode_message(app@.fit_mode),
        s.indicator == Indicator::spec_of(ring@.state(app@.index)),
        s.scrolling == app@.fast_scroll,
        optional(s.undo) == undo_text(app@.history.len()),
        s.message@ == app@.status,
        s.armed == (app@.pending_delete is Some),
{
    let selected = match app.current() {
        Some(g) => {
            let n: usize = app.len();
            let mut position = String::new();
            text::push_decimal(&mut position, app.index() as u64 + 1);
            position.append("/");
            text::push_decimal(&mut position, n as u64);
            Some((position, g.stem.clone()))
        },
        None => None,
    };
    let image = match app.shown() {
        Some(s) => Some(image_labels(s)),
        None => None,
    };
    let mut mode = String::from_str("mode: ");
    mode.append(app.mode().label());
    let steps: usize = app.history_len();
    let undo = if steps > 0 {
        let mut u = String::from_str("undo (");
        text::push_decimal(&mut u, steps as u64);
        u.append(")");
        Some(u)
    } else {
        None
    };
    Status {
        selected,
        image,
        mode,
        indicator: Indicator::of(app.current_state(ring)),
        scrolling: app.fast_scrolling(),
        undo,
        message: app.message(),
        armed: app.delete_pending(),
    }
}

/// The state of the sidebar between frames.
pub struct Sidebar {
    pub collapsed: Collapsed,
    /// Index the tree has already scrolled to. The list only follows the selection when this
    /// disagrees with it, so scrolling is corrected on a *move* and not on every frame --
    /// otherwise the user could not scroll away from whatever is selected.
    followed: Option<usize>,
    /// Row under the pointer and when it got there, so a hover only triggers a preload once it
    /// has settled. Sweeping the pointer down a list would otherwise thrash the decoders with
    /// work the user never asked for.
    hover: Option<(usize, u64)>,
    /// Index most recently handed to the prefetcher as a hint.
    hinted: Option<usize>,
}

/// The mathematical content of a [`Sidebar`].
#[verifier::ext_equal]
pub struct SidebarFacts {
    pub collapsed: Set<Seq<char>>,
    pub followed: Option<usize>,
    pub hover: Option<(usize, u64)>,
    pub hinted: Option<usize>,
}

impl View for Sidebar {
    type V = SidebarFacts;

    closed spec fn view(&self) -> SidebarFacts {
        SidebarFacts {
            collapsed: self.collapsed@,
            followed: self.followed,
            hover: self.hover,
            hinted: self.hinted,
        }
    }
}

/// What the user did in the sidebar during a frame.
pub struct Picked {
    /// The row that was clicked.
    pub selected: Option<usize>,
    /// The row under the pointer.
    pub hovered: Option<usize>,
    /// The button that was clicked.
    pub action: Option<Action>,
    /// The directory whose row was clicked.
    pub toggled_dir: Option<String>,
}

impl SidebarFacts {
    /// What a directory's row does when it is clicked.
    pub open spec fn toggled(self, dir: Seq<char>) -> SidebarFacts {
        let d = path::canonical(dir);
        SidebarFacts {
            collapsed: if self.collapsed.contains(d) {
                self.collapsed.remove(d)
            } else {
                self.collapsed.insert(d)
            },
            ..self
        }
    }

    /// Since when the pointer has been on the row of `index`.
    pub open spec fn hovered_since(self, index: usize, now: u64) -> u64 {
        match self.hover {
            Some((i, at)) => if i == index {
                at
            } else {
                now
            },
            None => now,
        }
    }

    /// The sidebar and the ring once the pointer is on a row, or on none, and whether that has
    /// to be looked at again.
    pub open spec fn hovered(self, r: Ring, row: Option<usize>, now: u64) -> (
        SidebarFacts,
        Ring,
        bool,
    ) {
        match row {
            None => (
                SidebarFacts { hover: None, hinted: None, ..self },
                if self.hinted is Some {
                    Ring { hint: None, ..r }
                } else {
                    r
                },
                false,
            ),
            Some(index) => {
                let since = self.hovered_since(index, now);
                let s = SidebarFacts { hover: Some((index, since)), ..self };
                if app::elapsed(now, since) < HOVER_DELAY {
                    (s, r, true)
                } else if self.hinted == Some(index) {
                    (s, r, false)
                } else {
                    (SidebarFacts { hinted: Some(index), ..s }, r.hinted(index), false)
                }
            },
        }
    }
}

/// What a click on a row leads to, if there was one.
pub open spec fn row_clicked(a: AppFacts, r: Ring, row: Option<usize>, now: u64) -> Outcome {
    match row {
        Some(i) => app::selected(a, r, i as int, now),
        None => Outcome { app: a, ring: r, effects: Effects::nothing() },
    }
}

/// What a button can lead to, if one was clicked, and the calls on the trash that it takes.
pub open spec fn button_pressed(
    calls: Seq<Call>,
    a: AppFacts,
    r: Ring,
    button: Option<Action>,
    now: u64,
    out: Outcome,
) -> bool {
    match button {
        Some(action) => app::acts(calls, Map::empty(), 0, a, r, action, now, out),
        None => calls.len() == 0 && out == (Outcome { app: a, ring: r, effects: Effects::nothing() }),
    }
}

fn press<B: Bin>(
    app: &mut App,
    ring: &mut Prefetcher,
    button: Option<Action>,
    now: u64,
    bin: &mut B,
) -> (e: Effects)
    requires
        button != Some(Action::Delete),
    ensures
        final(bin).log() == old(bin).log() + trash::since(old(bin).log(), final(bin).log()),
        button_pressed(
            trash::since(old(bin).log(), final(bin).log()),
            old(app)@,
            old(ring)@,
            button,
            now,
            Outcome { app: final(app)@, ring: final(ring)@, effects: e },
        ),
{
    match button {
        Some(action) => {
            let meta = MetaStore::new();
            app.act(action, now, ring, bin, &meta, 0)
        },
        None => {
            assert(bin.log() == bin.log() + trash::since(bin.log(), bin.log()));
            Effects::default()
        },
    }
}

/// What a frame's clicks can lead to: `clicked` after the rows, `out` after the buttons. Only a
/// button can touch the trash.
pub open spec fn responds(
    calls: Seq<Call>,
    s: SidebarFacts,
    a: AppFacts,
    r: Ring,
    p: Picked,
    now: u64,
    clicked: Outcome,
    out: Outcome,
    after: SidebarFacts,
    ring: Ring,
    again: bool,
) -> bool {
    let opened = match p.toggled_dir {
        Some(dir) => s.toggled(dir@),
        None => s,
    };
    let following = s.followed != Some(a.index);
    let hovered = opened.hovered(out.ring, p.hovered, now);
    &&& clicked == row_clicked(a, r, p.selected, now)
    &&& button_pressed(calls, clicked.app, clicked.ring, p.action, now, out)
    &&& after == (SidebarFacts {
        followed: if following {
            Some(out.app.index)
        } else if p.selected is Some {
            Some(clicked.app.index)
        } else {
            s.followed
        },
        ..hovered.0
    })
    &&& ring == hovered.1
    &&& again == hovered.2
}

/// What a frame's clicks can lead to, and what comes of it: the effects of the row, those of
/// the button, and whether the hover has to be looked at again.
pub open spec fn responded(
    calls: Seq<Call>,
    s: SidebarFacts,
    a: AppFacts,
    r: Ring,
    p: Picked,
    now: u64,
    after: SidebarFacts,
    app: AppFacts,
    ring: Ring,
    given: (Effects, Effects, bool),
) -> bool {
    exists|clicked: Outcome, out: Outcome|
        {
            &&& #[trigger] responds(calls, s, a, r, p, now, clicked, out, after, ring, given.2)
            &&& given.0 == clicked.effects
            &&& given.1 == out.effects
            &&& app == out.app
        }
}

proof fn lemma_responded(
    calls: Seq<Call>,
    s: SidebarFacts,
    a: AppFacts,
    r: Ring,
    p: Picked,
    now: u64,
    clicked: Outcome,
    out: Outcome,
    after: SidebarFacts,
    ring: Ring,
    again: bool,
)
    requires
        responds(calls, s, a, r, p, now, clicked, out, after, ring, again),
    ensures
        responded(calls, s, a, r, p, now, after, out.app, ring, (clicked.effects, out.effects, again)),
{
    let given = (clicked.effects, out.effects, again);
    assert(responds(calls, s, a, r, p, now, clicked, out, after, ring, given.2));
}

impl Sidebar {
    pub fn new() -> (s: Self)
        ensures
            s@ == (SidebarFacts {
                collapsed: Set::empty(),
                followed: None,
                hover: None,
                hinted: None,
            }),
    {
        Sidebar { collapsed: Collapsed::new(), followed: None, hover: None, hinted: None }
    }

    /// True when the selection has moved since the tree last followed it.
    pub fn follows(&self, index: usize) -> (r: bool)
        ensures
            r == (self@.followed != Some(index)),
    {
        match self.followed {
            Some(i) => i != index,
            None => true,
        }
    }

    /// Index most recently handed to the prefetcher as a hint.
    pub fn hinted(&self) -> (r: Option<usize>)
        ensures
            r == self@.hinted,
    {
        self.hinted
    }

    /// Apply the debounced hover hint. Returns true if a later frame is needed to re-check a
    /// hover that has not yet settled.
    pub fn update_hover(
        &mut self,
        hovered: Option<usize>,
        now: u64,
        ring: &mut Prefetcher,
    ) -> (again: bool)
        ensures
            (final(self)@, final(ring)@, again) == old(self)@.hovered(old(ring)@, hovered, now),
    {
        match hovered {
            None => {
                self.hover = None;
                if self.hinted.is_some() {
                    self.hinted = None;
                    ring.clear_hint();
                }
                false
            },
            Some(index) => {
                // Restart the clock whenever the row under the pointer changes.
                let since: u64 = match self.hover {
                    Some((i, at)) => if i == index {
                        at
                    } else {
                        now
                    },
                    None => now,
                };
                self.hover = Some((index, since));
                if now < since || now - since < HOVER_DELAY {
                    // Not settled yet; ask for another frame to re-check.
                    return true;
                }
                let known = match self.hinted {
                    Some(i) => i == index,
                    None => false,
                };
                if !known {
                    ring.hint(index);
                    self.hinted = Some(index);
                }
                false
            },
        }
    }

    /// Carry out what the user did in the sidebar during a frame. Returns the effects of the
    /// row that was clicked, those of the button, and whether the hover has to be looked at
    /// again. The sidebar has no button that arms a delete.
    pub fn respond<B: Bin>(
        &mut self,
        app: &mut App,
        ring: &mut Prefetcher,
        picked: Picked,
        now: u64,
        bin: &mut B,
    ) -> (r: (Effects, Effects, bool))
        requires
            picked.action != Some(Action::Delete),
        ensures
            final(bin).log() == old(bin).log() + trash::since(old(bin).log(), final(bin).log()),
            responded(
                trash::since(old(bin).log(), final(bin).log()),
                old(self)@,
                old(app)@,
                old(ring)@,
                picked,
                now,
                final(self)@,
                final(app)@,
                final(ring)@,
                r,
            ),
    {
        let following = self.follows(app.index());
        let ghost s = self@;
        let ghost a = app@;
        let ghost g = ring@;
        let ghost p = picked;
        let ghost before = bin.log();
        let Picked { selected, hovered, action, toggled_dir } = picked;
        if let Some(dir) = toggled_dir {
            self.collapsed.toggle(dir.as_str());
        }
        let ghost opened = self@;
        assert(opened == (match p.toggled_dir {
            Some(dir) => s.toggled(dir@),
            None => s,
        }));
        let clicked = match selected {
            Some(index) => {
                let e = app.select(index, now, ring);
                // Clicking a row must not then scroll the list under the pointer: the user
                // picked something they could already see.
                self.followed = Some(app.index());
                e
            },
            None => Effects::default(),
        };
        let ghost first = Outcome { app: app@, ring: ring@, effects: clicked };
        assert(first == row_clicked(a, g, selected, now));
        let pressed = press(app, ring, action, now, bin);
        let ghost second = Outcome { app: app@, ring: ring@, effects: pressed };
        let ghost calls = trash::since(before, bin.log());
        if following {
            self.followed = Some(app.index());
        }
        assert(self@ == (SidebarFacts { followed: self@.followed, ..opened }));
        let again = self.update_hover(hovered, now, ring);
        assert(responds(calls, s, a, g, p, now, first, second, self@, ring@, again));
        let given = (clicked, pressed, again);
        proof {
            lemma_responded(calls, s, a, g, p, now, first, second, self@, ring@, again);
        }
        given
    }
}

/// Sweeping the pointer over the rows hints nothing: a row that it has only just reached leaves
/// the ring alone, and asks to be looked at again.
pub proof fn law_sweeping_the_pointer_hints_nothing(
    s: SidebarFacts,
    r: Ring,
    index: usize,
    now: u64,
)
    requires
        s.hover is None || (s.hover->0).0 != index,
    ensures
        ({
            let (t, ring, again) = s.hovered(r, Some(index), now);
            ring == r && again && t.hinted == s.hinted && t.hover == Some((index, now))
        }),
{
}

/// A row on which the pointer rests is hinted, once.
pub proof fn law_resting_pointer_is_hinted_once(
    s: SidebarFacts,
    r: Ring,
    index: usize,
    at: u64,
    now: u64,
    later: u64,
)
    requires
        s.hover == Some((index, at)),
        s.hinted != Some(index),
        at + HOVER_DELAY <= now <= later,
    ensures
        ({
            let (t, ring, again) = s.hovered(r, Some(index), now);
            &&& ring == r.hinted(index)
            &&& !again
            &&& t.hovered(ring, Some(index), later) == (t, ring, false)
        }),
{
}

/// Collapsing a directory and opening it again changes nothing.
pub proof fn law_toggling_twice_is_harmless(s: SidebarFacts, dir: Seq<char>)
    ensures
        s.toggled(dir).toggled(dir) == s,
{
    let d = path::canonical(dir);
    if s.collapsed.contains(d) {
        assert(s.collapsed.remove(d).insert(d) == s.collapsed);
    } else {
        assert(s.collapsed.insert(d).remove(d) == s.collapsed);
    }
}

/// The list follows a move once: after the frame it no longer chases the selection, so the user
/// can scroll away from it. A click on a row does not make it chase either.
pub proof fn law_list_follows_a_move_once(
    calls: Seq<Call>,
    s: SidebarFacts,
    a: AppFacts,
    r: Ring,
    p: Picked,
    now: u64,
    clicked: Outcome,
    out: Outcome,
    after: SidebarFacts,
    ring: Ring,
    again: bool,
)
    requires
        responds(calls, s, a, r, p, now, clicked, out, after, ring, again),
        p.action is None,
    ensures
        after.followed == Some(out.app.index),
{
}

/// A click on the row of a group selects that group, wherever the row stands and whichever
/// directories are collapsed.
pub proof fn law_clicked_row_is_selected(
    a: AppFacts,
    r: Ring,
    collapsed: Set<Seq<char>>,
    k: int,
    dir: usize,
    offset: usize,
    index: usize,
    now: u64,
)
    requires
        a.groups == scan::flat(a.dirs),
        a.groups.len() <= usize::MAX,
        a.dirs.len() <= usize::MAX,
        a.index < a.groups.len(),
        0 <= k < rows_of(a.dirs, collapsed).len(),
        rows_of(a.dirs, collapsed)[k] == (Row::Group { dir, offset, index }),
    ensures
        ({
            let o = row_clicked(a, r, Some(index), now);
            &&& o.app.index < o.app.groups.len()
            &&& o.app.groups[o.app.index as int] == a.dirs[dir as int].groups[offset as int]
            &&& o.app.index != a.index ==> o.effects.image_changed && o.effects.redraw
                && o.app.pending_delete is None
        }),
        row_clicked(a, r, None, now).app == a,
        row_clicked(a, r, None, now).ring == r,
        !row_clicked(a, r, None, now).effects.redraw,
{
    law_rows_match_the_list(a.dirs, collapsed, k);
}

/// The tree shows every directory once and in order, and under each that is open its groups in
/// order; a directory that is added adds its row and theirs at the end.
pub proof fn law_tree_grows_by_a_directory(
    dirs: Seq<DirFacts>,
    d: DirFacts,
    collapsed: Set<Seq<char>>,
)
    requires
        dirs.len() < usize::MAX,
        scan::flat(dirs).len() + d.groups.len() <= usize::MAX,
    ensures
        rows_of(Seq::empty(), collapsed).len() == 0,
        ({
            let before = rows_of(dirs, collapsed);
            let after = rows_of(dirs.push(d), collapsed);
            let hidden = collapsed.contains(path::canonical(d.path));
            &&& after.len() == before.len() + 1 + (if hidden {
                0
            } else {
                d.groups.len() as int
            })
            &&& forall|k: int| 0 <= k < before.len() ==> #[trigger] after[k] == before[k]
            &&& after[before.len() as int] == (Row::Dir {
                dir: dirs.len() as usize,
                collapsed: hidden,
            })
            &&& !hidden ==> forall|i: int|
                0 <= i < d.groups.len() ==> #[trigger] after[before.len() + 1 + i] == (Row::Group {
                    dir: dirs.len() as usize,
                    offset: i as usize,
                    index: (scan::flat(dirs).len() + i) as usize,
                })
        }),
{
    assert(dirs.push(d).drop_last() == dirs);
    let before = rows_of(dirs, collapsed);
    let after = rows_of(dirs.push(d), collapsed);
    let n = before.len() as int;
    if !collapsed.contains(path::canonical(d.path)) {
        let g = group_rows(dirs.len() as int, d.groups.len(), scan::flat(dirs).len());
        assert forall|i: int| 0 <= i < d.groups.len() implies #[trigger] after[n + 1 + i]
            == (Row::Group {
            dir: dirs.len() as usize,
            offset: i as usize,
            index: (scan::flat(dirs).len() + i) as usize,
        }) by {
            assert(after[n + 1 + i] == g[i]);
        }
    }
}

/// The row of a group is found if, and only if, there is one; and it is the first.
pub proof fn law_row_is_found(rows: Seq<Row>, index: usize, k: int)
    requires
        0 <= k <= rows.len(),
        forall|i: int|
            0 <= i < k ==> !(#[trigger] rows[i] is Group && rows[i]->index == index),
        k < rows.len() ==> rows[k] is Group && rows[k]->index == index,
    ensures
        k < rows.len() ==> row_from(rows, index, 0) == k,
        k == rows.len() ==> row_from(rows, index, 0) == -1,
{
    lemma_row_from(rows, index, 0, k);
}

proof fn lemma_row_from(rows: Seq<Row>, index: usize, from: int, k: int)
    requires
        0 <= from <= k <= rows.len(),
        forall|i: int|
            0 <= i < k ==> !(#[trigger] rows[i] is Group && rows[i]->index == index),
        k < rows.len() ==> rows[k] is Group && rows[k]->index == index,
    ensures
        k < rows.len() ==> row_from(rows, index, from) == k,
        k == rows.len() ==> row_from(rows, index, from) == -1,
    decreases k - from,
{
    if from < k {
        assert(!(rows[from] is Group && rows[from]->index == index));
        lemma_row_from(rows, index, from + 1, k);
    }
}

/// A row is hinted once the pointer has rested on it for 60 ms, and not before; leaving the rows
/// takes the hint back. While it has not rested for long enough it has to be looked at again.
pub proof fn law_pointer_has_to_rest(
    s: SidebarFacts,
    r: Ring,
    index: usize,
    at: u64,
    now: u64,
)
    requires
        s.hover == Some((index, at)),
        at <= now,
    ensures
        ({
            let (t, ring, again) = s.hovered(r, Some(index), now);
            &&& t.hover == s.hover
            &&& t.collapsed == s.collapsed && t.followed == s.followed
            &&& now - at < 60_000_000 ==> ring == r && again && t.hinted == s.hinted
            &&& now - at >= 60_000_000 ==> !again && t.hinted == Some(index)
            &&& now - at >= 60_000_000 && s.hinted != Some(index) && index < r.paths.len()
                ==> ring.hint == Some(index)
            &&& now - at >= 60_000_000 && s.hinted == Some(index) ==> ring == r
        }),
        ({
            let (t, ring, again) = s.hovered(r, None, now);
            &&& t.hover is None && t.hinted is None && !again
            &&& s.hinted is Some ==> ring.hint is None
            &&& ring.slots == r.slots && ring.queue == r.queue && ring.centre == r.centre
        }),
{
}

/// A click on a directory's row collapses it if it was open and opens it if it was collapsed, and
/// does so to no other.
pub proof fn law_click_toggles_one_directory(s: SidebarFacts, dir: Seq<char>, other: Seq<char>)
    ensures
        s.toggled(dir).collapsed.contains(path::canonical(dir)) <==> !s.collapsed.contains(
            path::canonical(dir),
        ),
        path::canonical(other) != path::canonical(dir) ==> (s.toggled(dir).collapsed.contains(
            path::canonical(other),
        ) <==> s.collapsed.contains(path::canonical(other))),
        s.toggled(dir).followed == s.followed,
        s.toggled(dir).hover == s.hover,
        s.toggled(dir).hinted == s.hinted,
{
}

/// What happens in the sidebar during a frame happens: the row that was clicked is selected, the
/// button that was pressed acts on what the click left, and the directory that was clicked is
/// toggled. Where nothing was clicked nothing changes, and the trash is left alone.
pub proof fn law_sidebar_does_what_was_clicked(
    calls: Seq<Call>,
    s: SidebarFacts,
    a: AppFacts,
    r: Ring,
    p: Picked,
    now: u64,
    after: SidebarFacts,
    app: AppFacts,
    ring: Ring,
    given: (Effects, Effects, bool),
)
    requires
        responded(calls, s, a, r, p, now, after, app, ring, given),
        a.index < a.groups.len() <= usize::MAX,
    ensures
        p.action is None ==> calls.len() == 0 && !given.1.redraw && app.groups == a.groups,
        p.action is None && p.selected is None ==> app == a && !given.0.redraw,
        p.action is None && p.selected is Some && p.selected->0 < a.groups.len() ==> app.index
            == p.selected->0,
        p.action is None && p.selected is Some && p.selected->0 < a.groups.len() && p.selected->0
            != a.index ==> given.0.redraw && given.0.image_changed,
        p.action matches Some(action) && p.selected is None ==> exists|out: Outcome| #[trigger]
            app::acts(calls, Map::empty(), 0, a, r, p.action->0, now, out) && app == out.app
                && given.1 == out.effects,
        p.toggled_dir is None ==> after.collapsed == s.collapsed,
        p.toggled_dir matches Some(dir) ==> (after.collapsed.contains(path::canonical(dir@))
            <==> !s.collapsed.contains(path::canonical(dir@))),
        p.hovered is None ==> after.hinted is None && after.hover is None,
{
    let (clicked, out) = choose|clicked: Outcome, out: Outcome|
        {
            &&& #[trigger] responds(calls, s, a, r, p, now, clicked, out, after, ring, given.2)
            &&& given.0 == clicked.effects
            &&& given.1 == out.effects
            &&& app == out.app
        };
    assert(button_pressed(calls, clicked.app, clicked.ring, p.action, now, out));
}

/// The labels say what they are for: a directory's its name, how many groups it has and whether
/// it is open; the position counts from one; the undo button how many steps there are, if any.
pub proof fn law_labels_say_what_is_there(
    parent: Seq<char>,
    name: Seq<char>,
    n: nat,
    index: nat,
    orientation: u16,
    w: nat,
    h: nat,
)
    requires
        path::is_name(name),
    ensures
        dir_text(parent + seq!['/'] + name, n, true) == "\u{25b6}"@ + " "@ + name + "  ("@
            + text::decimal(n) + ")"@,
        dir_text(parent + seq!['/'] + name, n, false) == "\u{25bc}"@ + " "@ + name + "  ("@
            + text::decimal(n) + ")"@,
        dir_text(seq!['/'], n, false) == "\u{25bc}"@ + " "@ + seq!['/'] + "  ("@ + text::decimal(n)
            + ")"@,
        position_text(index, n) == text::decimal(index + 1) + "/"@ + text::decimal(n),
        undo_text(0) is None,
        n > 0 ==> undo_text(n) == Some("undo ("@ + text::decimal(n) + ")"@),
        rotation_text(1) is None,
        orientation != 1 ==> rotation_text(orientation) == Some(
            "rot "@ + text::decimal(orientation as nat),
        ),
        size_text(w, h) == text::decimal(w) + "x"@ + text::decimal(h) + " ("@
            + crate::format::megapixels_text(w, h) + " MP)"@,
{
    path::law_file_name_follows_the_last_separator(parent, name);
}

/// The status bar warns of colours that may be wrong, and of no others; it shows the stored size,
/// and the orientation of an image that is turned.
pub proof fn law_status_warns_of_wrong_colours(labels: ImageLabels, s: app::ShownFacts)
    requires
        describes(labels, s),
    ensures
        labels.size@ == size_text(s.stored.0 as nat, s.stored.1 as nat),
        s.colour is AssumedSrgb || s.colour is Srgb ==> labels.warning is None,
        s.colour is Unparsable ==> labels.warning is Some && labels.warning->0@
            == "unreadable colour profile - shown as sRGB"@,
        s.colour matches crate::icc::Verdict::NotSrgb(what) ==> labels.warning is Some
            && labels.warning->0@ == what@ + " - shown as sRGB, colours will be off"@,
        labels.rotation is None <==> s.orientation == 1,
        labels.rotation is Some ==> labels.rotation->0@ == "rot "@ + text::decimal(
            s.orientation as nat,
        ),
        Indicator::spec_of(State::Queued) == Indicator::Spinner,
        Indicator::spec_of(State::Decoding) == Indicator::Spinner,
        Indicator::spec_of(State::Failed) == Indicator::Failed,
        Indicator::spec_of(State::Ready) == Indicator::Nothing,
        Indicator::spec_of(State::Collected) == Indicator::Nothing,
        Indicator::spec_of(State::Absent) == Indicator::Nothing,
{
}

/// The row of a group shows its stem, what it holds, its size and when its oldest file was
/// modified; what is not known yet is a dash.
pub proof fn law_row_shows_the_group(
    known: Map<Seq<char>, FileMeta>,
    g: GroupFacts,
    t: Option<WallTime>,
    when: Seq<char>,
    line: Seq<char>,
)
    requires
        shows_group(known, g, t, when, line),
        g.members.len() > 0,
    ensures
        t is None ==> when == "-"@,
        t is Some && t->0.secs < 0 ==> when == "-"@,
        t is Some && t->0.secs >= 0 ==> crate::format::shows_time(t->0.secs as nat, when),
        (exists|i: int|
            0 <= i < g.members.len() && !known.contains_key(
                path::canonical((#[trigger] g.members[i]).path),
            )) ==> line == row_line(g.stem, g.kind(), "-"@, when),
        (forall|i: int|
            0 <= i < g.members.len() ==> known.contains_key(
                path::canonical((#[trigger] g.members[i]).path),
            )) ==> line == row_line(
            g.stem,
            g.kind(),
            crate::format::size_text(scan::known_bytes(known, g.members)),
            when,
        ),
        STEM_W == 20 && KIND_W == 8 && SIZE_W == 9,
{
}

} // verus!
