//! Descriptors, discovery and icon sizes.

use crate::entry::{borrowed_text, owned_text, str_of, text_of, Entry, EntryView};
use crate::outside::{
    comment_run, comment_runs_within, descriptor_sections, descriptor_values, is_blank,
    opens_comment, parse_descriptor, parsed_sections, section_values, Sections,
    COMMENT_RUN_LIMIT,
};
use crate::text::{
    chars_equal, chars_of, decimal_u32, find_char, find_last_char, first_index, last_index,
    parse_u32, split_on, split_text,
};
use freedesktop_entry_parser::Entry as ParsedDescriptor;
use vstd::prelude::*;

verus! {

/// The pixel size of one directory of fixed-size icons.
#[derive(Debug, Clone, Copy, PartialEq, Eq, Structural)]
pub struct FixedIconSize {
    pub width: u32,
    pub height: u32,
    pub scale: u32,
}

/// The size that the name of an icon directory announces.
#[derive(Debug, Clone, Copy, PartialEq, Eq, Structural)]
pub enum IconSize {
    Scalable,
    Fixed(FixedIconSize),
}

/// A resolved icon: where the file is, which size it has, and the theme it
/// was found in.
#[derive(Debug, PartialEq, Eq)]
pub struct Icon {
    pub theme: Option<String>,
    pub path: String,
    pub size: IconSize,
}

/// The mathematical content of an [`Icon`].
pub struct IconView {
    pub theme: Option<Seq<char>>,
    pub path: Seq<char>,
    pub size: IconSize,
}

impl View for Icon {
    type V = IconView;

    open spec fn view(&self) -> IconView {
        IconView { theme: text_of(self.theme), path: self.path@, size: self.size }
    }
}

impl DeepView for Icon {
    type V = IconView;

    open spec fn deep_view(&self) -> IconView {
        self@
    }
}

impl Clone for Icon {
    fn clone(&self) -> (r: Icon)
        ensures
            r@ == self@,
    {
        Icon {
            theme: owned_text(borrowed_text(&self.theme)),
            path: self.path.clone(),
            size: self.size,
        }
    }
}

/// The size that a directory name denotes: `scalable`, or `WxH`, or `WxH@S`,
/// where `W`, `H` and `S` are decimal numbers. Without `@S` the scale is 1.
/// No other name denotes a size.
pub open spec fn icon_size_of(s: Seq<char>) -> Option<IconSize> {
    if s == "scalable"@ {
        Some(IconSize::Scalable)
    } else {
        let at = first_index(s, '@');
        let dims = s.take(at);
        let x = first_index(dims, 'x');
        let scale = if at < s.len() {
            decimal_u32(s.skip(at + 1))
        } else {
            Some(1u32)
        };
        if x < dims.len() {
            match (decimal_u32(dims.take(x)), decimal_u32(dims.skip(x + 1)), scale) {
                (Some(width), Some(height), Some(scale)) => Some(
                    IconSize::Fixed(FixedIconSize { width, height, scale }),
                ),
                _ => None,
            }
        } else {
            None
        }
    }
}

/// Reads the name of an icon directory as a size.
pub fn parse_icon_size(icon_size: &str) -> (r: Option<IconSize>)
    ensures
        r == icon_size_of(icon_size@),
{
    let v = chars_of(icon_size);
    let scalable = chars_of("scalable");
    if chars_equal(&v, &scalable) {
        return Some(IconSize::Scalable);
    }
    let n = v.len();
    let at = find_char(&v, 0, n, '@');
    let x = find_char(&v, 0, at, 'x');
    let ghost s = icon_size@;
    let ghost dims = s.take(at as int);
    proof {
        assert(v@.subrange(0, n as int) =~= s);
        assert(v@.subrange(0, at as int) =~= dims);
    }
    if x >= at {
        return None;
    }
    proof {
        assert(v@.subrange(0, x as int) =~= dims.take(x as int));
        assert(v@.subrange(x + 1, at as int) =~= dims.skip(x + 1));
        if at < n {
            assert(v@.subrange(at + 1, n as int) =~= s.skip(at + 1));
        }
    }
    let width = parse_u32(&v, 0, x);
    let height = parse_u32(&v, x + 1, at);
    let scale = if at < n {
        parse_u32(&v, at + 1, n)
    } else {
        Some(1)
    };
    match (width, height, scale) {
        (Some(width), Some(height), Some(scale)) => Some(
            IconSize::Fixed(FixedIconSize { width, height, scale }),
        ),
        _ => None,
    }
}

/// A descriptor could not be read as one.
#[derive(Debug, Clone, Copy, PartialEq, Eq, Structural)]
pub enum ParseError {
    /// The contents hold more comments in a row than a descriptor may.
    TooManyComments,
    /// The contents are not a well-formed descriptor: the structure is
    /// broken, or the text is not UTF-8.
    Malformed,
}

impl ParseError {
    /// A sentence for the log.
    pub fn message(&self) -> (r: &'static str)
        ensures
            r@ == match *self {
                ParseError::TooManyComments => "too many comments in a row"@,
                ParseError::Malformed => "malformed descriptor"@,
            },
    {
        match self {
            ParseError::TooManyComments => "too many comments in a row",
            ParseError::Malformed => "malformed descriptor",
        }
    }
}

/// A run of comments is no longer than the bytes it is made of.
proof fn lemma_comment_run_bound(bytes: Seq<u8>, at: int, inside: bool)
    requires
        0 <= at <= bytes.len(),
    ensures
        comment_run(bytes, at, inside) <= bytes.len() - at,
    decreases bytes.len() - at,
{
    if at < bytes.len() {
        lemma_comment_run_bound(bytes, at + 1, true);
        lemma_comment_run_bound(bytes, at + 1, false);
    }
}

/// Whether no run of comments in `bytes` is longer than a descriptor may
/// hold.
pub fn comment_runs_fit(bytes: &[u8]) -> (r: bool)
    ensures
        r == comment_runs_within(bytes@, COMMENT_RUN_LIMIT as int),
{
    let n = bytes.len();
    let mut at: usize = n;
    let mut outside: usize = 0;
    let mut inside: usize = 0;
    while at > 0
        invariant
            at <= n,
            n == bytes.len(),
            outside == comment_run(bytes@, at as int, false),
            inside == comment_run(bytes@, at as int, true),
            outside <= n - at,
            inside <= n - at,
            forall|k: int| at <= k <= n ==> #[trigger] comment_run(bytes@, k, false) <= COMMENT_RUN_LIMIT,
        decreases at,
    {
        at -= 1;
        let byte = bytes[at];
        proof {
            lemma_comment_run_bound(bytes@, at as int, false);
            lemma_comment_run_bound(bytes@, at as int, true);
        }
        let next_inside = if byte == 10 {
            outside
        } else {
            inside
        };
        let next_outside = if byte == 10 || byte == 9 || byte == 13 || byte == 32 {
            outside
        } else if byte == 35 || byte == 59 {
            inside + 1
        } else {
            0
        };
        inside = next_inside;
        outside = next_outside;
        if outside > COMMENT_RUN_LIMIT {
            return false;
        }
    }
    true
}

/// One descriptor as it was read from disk: where, and what.
#[derive(Debug)]
pub struct DescriptorFile {
    pub path: String,
    pub contents: Vec<u8>,
}

/// The mathematical content of a [`DescriptorFile`].
pub struct DescriptorFileView {
    pub path: Seq<char>,
    pub contents: Seq<u8>,
}

impl View for DescriptorFile {
    type V = DescriptorFileView;

    open spec fn view(&self) -> DescriptorFileView {
        DescriptorFileView { path: self.path@, contents: self.contents@ }
    }
}

impl DeepView for DescriptorFile {
    type V = DescriptorFileView;

    open spec fn deep_view(&self) -> DescriptorFileView {
        self@
    }
}

/// The values that a descriptor's `Desktop Entry` section gives to the keys
/// this launcher reads. A key may occur several times, so each holds a list,
/// in file order; a missing key holds none.
#[derive(Debug)]
pub struct DescriptorKeys {
    pub entry_type: Vec<String>,
    pub no_display: Vec<String>,
    pub hidden: Vec<String>,
    pub name: Vec<String>,
    pub generic_name: Vec<String>,
    pub comment: Vec<String>,
    pub icon: Vec<String>,
    pub command: Vec<String>,
    pub terminal: Vec<String>,
}

/// The mathematical content of [`DescriptorKeys`].
pub struct DescriptorKeysView {
    pub entry_type: Seq<Seq<char>>,
    pub no_display: Seq<Seq<char>>,
    pub hidden: Seq<Seq<char>>,
    pub name: Seq<Seq<char>>,
    pub generic_name: Seq<Seq<char>>,
    pub comment: Seq<Seq<char>>,
    pub icon: Seq<Seq<char>>,
    pub command: Seq<Seq<char>>,
    pub terminal: Seq<Seq<char>>,
}

impl View for DescriptorKeys {
    type V = DescriptorKeysView;

    open spec fn view(&self) -> DescriptorKeysView {
        DescriptorKeysView {
            entry_type: self.entry_type.deep_view(),
            no_display: self.no_display.deep_view(),
            hidden: self.hidden.deep_view(),
            name: self.name.deep_view(),
            generic_name: self.generic_name.deep_view(),
            comment: self.comment.deep_view(),
            icon: self.icon.deep_view(),
            command: self.command.deep_view(),
            terminal: self.terminal.deep_view(),
        }
    }
}

/// The value a key has where one is wanted: its first.
pub open spec fn first_text(values: Seq<Seq<char>>) -> Option<Seq<char>> {
    if values.len() > 0 {
        Some(values[0])
    } else {
        None
    }
}

/// A boolean key is on exactly when one of its values is the text `true`.
/// No other spelling counts.
pub open spec fn says_true(values: Seq<Seq<char>>) -> bool {
    values.contains("true"@)
}

/// The first value of a key, if it has any.
pub fn first_value(values: &Vec<String>) -> (r: Option<String>)
    ensures
        text_of(r) == first_text(values.deep_view()),
{
    if values.len() > 0 {
        let first = values[0].clone();
        proof {
            assert(values.deep_view()[0] == values[0]@);
        }
        Some(first)
    } else {
        None
    }
}

/// Whether one of a key's values is exactly `true`.
pub fn has_true(values: &Vec<String>) -> (r: bool)
    ensures
        r == says_true(values.deep_view()),
{
    let wanted = chars_of("true");
    let mut i: usize = 0;
    while i < values.len()
        invariant
            i <= values.len(),
            wanted@ == "true"@,
            forall|j: int| 0 <= j < i ==> values.deep_view()[j] != "true"@,
        decreases values.len() - i,
    {
        let value = chars_of(values[i].as_str());
        proof {
            assert(values.deep_view()[i as int] == values[i as int]@);
        }
        if chars_equal(&value, &wanted) {
            return true;
        }
        i += 1;
    }
    false
}

/// The mathematical content of a [`DesktopEntry`].
pub struct DesktopEntryView {
    pub path: Seq<char>,
    pub entry_type: Option<Seq<char>>,
    pub no_display: bool,
    pub hidden: bool,
    pub title: Seq<char>,
    pub generic_name: Option<Seq<char>>,
    pub description: Option<Seq<char>>,
    pub icon: Option<Seq<char>>,
    pub launch_command: Option<Seq<char>>,
    pub is_terminal: bool,
}

impl DesktopEntryView {
    /// Whether the descriptor belongs in the launcher: it describes an
    /// application and is neither hidden nor kept from display.
    pub open spec fn discoverable(self) -> bool {
        self.entry_type == Some("Application"@) && !self.no_display && !self.hidden
    }

    /// The description as it is read: the descriptor's comment where it has
    /// one, otherwise its generic name.
    pub open spec fn shown_description(self) -> Option<Seq<char>> {
        match self.description {
            Some(d) => Some(d),
            None => self.generic_name,
        }
    }

    /// The launchable item this descriptor stands for. Its identifier is the
    /// descriptor's path; a descriptor never asks for confirmation.
    pub open spec fn entry(self) -> EntryView {
        EntryView {
            id: self.path,
            title: self.title,
            generic_name: self.generic_name,
            description: self.description,
            icon: self.icon,
            launch_command: self.launch_command,
            is_terminal: self.is_terminal,
            user_confirm: false,
        }
    }
}

/// How key values become a descriptor: `Name` gives the title, `Unnamed`
/// where it is missing; `GenericName`, `Comment`, `Icon` and `Exec` are taken
/// as they are or left absent; `Type` is kept for the filter; `NoDisplay`,
/// `Hidden` and `Terminal` are booleans.
pub open spec fn described(path: Seq<char>, keys: DescriptorKeysView) -> DesktopEntryView {
    DesktopEntryView {
        path,
        entry_type: first_text(keys.entry_type),
        no_display: says_true(keys.no_display),
        hidden: says_true(keys.hidden),
        title: match first_text(keys.name) {
            Some(name) => name,
            None => "Unnamed"@,
        },
        generic_name: first_text(keys.generic_name),
        description: first_text(keys.comment),
        icon: first_text(keys.icon),
        launch_command: first_text(keys.command),
        is_terminal: says_true(keys.terminal),
    }
}

/// A descriptor without `Name` is titled `Unnamed`, whatever else it holds.
pub proof fn lemma_missing_name_is_unnamed(path: Seq<char>, keys: DescriptorKeysView)
    requires
        keys.name.len() == 0,
    ensures
        described(path, keys).title == "Unnamed"@,
        described(path, keys).entry().title == "Unnamed"@,
{
}

/// A descriptor whose `NoDisplay` or `Hidden` says `true` is not
/// discoverable, whatever else it holds.
pub proof fn lemma_hidden_is_not_discoverable(path: Seq<char>, keys: DescriptorKeysView)
    requires
        says_true(keys.no_display) || says_true(keys.hidden),
    ensures
        !described(path, keys).discoverable(),
{
}

/// The description of a descriptor is its `Comment` where it has one,
/// otherwise its `GenericName`, otherwise nothing; the entry made of the
/// descriptor reads the same.
pub proof fn lemma_description_falls_back(path: Seq<char>, keys: DescriptorKeysView)
    ensures
        described(path, keys).shown_description() == match first_text(keys.comment) {
            Some(comment) => Some(comment),
            None => first_text(keys.generic_name),
        },
        described(path, keys).entry().shown_description() == described(
            path,
            keys,
        ).shown_description(),
{
}

/// The values of one key of the `Desktop Entry` section; none where the key
/// or the whole section is missing.
pub open spec fn main_values(sections: Sections, key: Seq<char>) -> Seq<Seq<char>> {
    match section_values(sections, "Desktop Entry"@, key) {
        Some(values) => values,
        None => Seq::empty(),
    }
}

/// The keys this launcher reads, as a parsed descriptor holds them.
pub open spec fn keys_of(sections: Sections) -> DescriptorKeysView {
    DescriptorKeysView {
        entry_type: main_values(sections, "Type"@),
        no_display: main_values(sections, "NoDisplay"@),
        hidden: main_values(sections, "Hidden"@),
        name: main_values(sections, "Name"@),
        generic_name: main_values(sections, "GenericName"@),
        comment: main_values(sections, "Comment"@),
        icon: main_values(sections, "Icon"@),
        command: main_values(sections, "Exec"@),
        terminal: main_values(sections, "Terminal"@),
    }
}

/// What becomes of the contents of a descriptor file at `path`: contents
/// with too long a run of comments are turned away unread, contents that do
/// not parse are malformed, and the rest is a descriptor.
pub open spec fn parse_outcome(path: Seq<char>, contents: Seq<u8>) -> Result<
    DesktopEntryView,
    ParseError,
> {
    if !comment_runs_within(contents, COMMENT_RUN_LIMIT as int) {
        Err(ParseError::TooManyComments)
    } else {
        match parsed_sections(contents) {
            Some(sections) => Ok(described(path, keys_of(sections))),
            None => Err(ParseError::Malformed),
        }
    }
}

/// What the contents of a descriptor file at `path` amount to, or nothing
/// where they are turned away or do not parse.
pub open spec fn descriptor_of(path: Seq<char>, contents: Seq<u8>) -> Option<DesktopEntryView> {
    match parse_outcome(path, contents) {
        Ok(entry) => Some(entry),
        Err(_) => None,
    }
}

/// One application descriptor, reduced to what the launcher reads.
#[derive(Debug)]
pub struct DesktopEntry {
    path: String,
    entry_type: Option<String>,
    no_display: bool,
    hidden: bool,
    title: String,
    generic_name: Option<String>,
    description: Option<String>,
    icon: Option<String>,
    launch_command: Option<String>,
    is_terminal: bool,
}

impl View for DesktopEntry {
    type V = DesktopEntryView;

    closed spec fn view(&self) -> DesktopEntryView {
        DesktopEntryView {
            path: self.path@,
            entry_type: text_of(self.entry_type),
            no_display: self.no_display,
            hidden: self.hidden,
            title: self.title@,
            generic_name: text_of(self.generic_name),
            description: text_of(self.description),
            icon: text_of(self.icon),
            launch_command: text_of(self.launch_command),
            is_terminal: self.is_terminal,
        }
    }
}

impl DeepView for DesktopEntry {
    type V = DesktopEntryView;

    open spec fn deep_view(&self) -> DesktopEntryView {
        self@
    }
}

impl Clone for DesktopEntry {
    fn clone(&self) -> (r: DesktopEntry)
        ensures
            r@ == self@,
    {
        DesktopEntry {
            path: self.path.clone(),
            entry_type: owned_text(borrowed_text(&self.entry_type)),
            no_display: self.no_display,
            hidden: self.hidden,
            title: self.title.clone(),
            generic_name: owned_text(borrowed_text(&self.generic_name)),
            description: owned_text(borrowed_text(&self.description)),
            icon: owned_text(borrowed_text(&self.icon)),
            launch_command: owned_text(borrowed_text(&self.launch_command)),
            is_terminal: self.is_terminal,
        }
    }
}

impl DesktopEntry {
    /// Builds the descriptor at `path` from the values of its keys. A
    /// descriptor without `Name` is titled `Unnamed`.
    pub fn from_keys(path: &str, keys: &DescriptorKeys) -> (r: DesktopEntry)
        ensures
            r@ == described(path@, keys@),
            keys@.name.len() == 0 ==> r@.title == "Unnamed"@,
            (says_true(keys@.no_display) || says_true(keys@.hidden)) ==> !r@.discoverable(),
    {
        let title = match first_value(&keys.name) {
            Some(name) => name,
            None => "Unnamed".to_owned(),
        };
        DesktopEntry {
            path: path.to_owned(),
            entry_type: first_value(&keys.entry_type),
            no_display: has_true(&keys.no_display),
            hidden: has_true(&keys.hidden),
            title,
            generic_name: first_value(&keys.generic_name),
            description: first_value(&keys.comment),
            icon: first_value(&keys.icon),
            launch_command: first_value(&keys.command),
            is_terminal: has_true(&keys.terminal),
        }
    }

    /// The identifier: the descriptor's own path.
    pub fn id(&self) -> (r: &str)
        ensures
            r@ == self@.path,
    {
        self.path.as_str()
    }

    /// The display name.
    pub fn title(&self) -> (r: &str)
        ensures
            r@ == self@.title,
    {
        self.title.as_str()
    }

    /// The generic name, if the descriptor has one.
    pub fn generic_name(&self) -> (r: Option<&str>)
        ensures
            str_of(r) == self@.generic_name,
    {
        borrowed_text(&self.generic_name)
    }

    /// The description to show: the comment, else the generic name, else
    /// nothing.
    pub fn description(&self) -> (r: Option<&str>)
        ensures
            str_of(r) == self@.shown_description(),
    {
        match &self.description {
            Some(d) => Some(d.as_str()),
            None => borrowed_text(&self.generic_name),
        }
    }

    /// The icon name or path, unresolved.
    pub fn icon(&self) -> (r: Option<&str>)
        ensures
            str_of(r) == self@.icon,
    {
        borrowed_text(&self.icon)
    }

    /// The raw command template.
    pub fn launch_command(&self) -> (r: Option<&str>)
        ensures
            str_of(r) == self@.launch_command,
    {
        borrowed_text(&self.launch_command)
    }

    /// Whether the command wants a terminal.
    pub fn is_terminal(&self) -> (r: bool)
        ensures
            r == self@.is_terminal,
    {
        self.is_terminal
    }

    /// Whether the descriptor belongs in the launcher.
    pub fn is_discoverable(&self) -> (r: bool)
        ensures
            r == self@.discoverable(),
    {
        if self.no_display || self.hidden {
            return false;
        }
        match &self.entry_type {
            Some(kind) => {
                let kind = chars_of(kind.as_str());
                let wanted = chars_of("Application");
                chars_equal(&kind, &wanted)
            },
            None => false,
        }
    }

    /// The launchable item this descriptor stands for.
    pub fn to_entry(&self) -> (r: Entry)
        ensures
            r@ == self@.entry(),
            r@.shown_description() == self@.shown_description(),
    {
        Entry::builder()
            .id(self.path.as_str())
            .title(self.title.as_str())
            .generic_name(borrowed_text(&self.generic_name))
            .description(borrowed_text(&self.description))
            .icon(borrowed_text(&self.icon))
            .launch_command(borrowed_text(&self.launch_command))
            .is_terminal(self.is_terminal)
            .build()
    }
}

/// A missing section counts as a section without values.
fn values_or_empty(values: Option<Vec<String>>) -> (r: Vec<String>)
    ensures
        r.deep_view() == match values.deep_view() {
            Some(v) => v,
            None => Seq::empty(),
        },
{
    match values {
        Some(v) => v,
        None => {
            let v: Vec<String> = Vec::new();
            assert(v.deep_view() =~= Seq::<Seq<char>>::empty());
            v
        },
    }
}

/// Reads one key of the `Desktop Entry` section.
fn read_key(parsed: &ParsedDescriptor, key: &str) -> (r: Vec<String>)
    ensures
        r.deep_view() == main_values(descriptor_sections(*parsed), key@),
{
    values_or_empty(descriptor_values(parsed, "Desktop Entry", key))
}

/// Reads the keys this launcher consumes from a parsed descriptor.
fn read_keys(parsed: &ParsedDescriptor) -> (r: DescriptorKeys)
    ensures
        r@ == keys_of(descriptor_sections(*parsed)),
{
    DescriptorKeys {
        entry_type: read_key(parsed, "Type"),
        no_display: read_key(parsed, "NoDisplay"),
        hidden: read_key(parsed, "Hidden"),
        name: read_key(parsed, "Name"),
        generic_name: read_key(parsed, "GenericName"),
        comment: read_key(parsed, "Comment"),
        icon: read_key(parsed, "Icon"),
        command: read_key(parsed, "Exec"),
        terminal: read_key(parsed, "Terminal"),
    }
}

/// Parses the contents of the descriptor file at `path`. Contents with more
/// than `COMMENT_RUN_LIMIT` comments in a row are turned away before the
/// parser sees them; contents that do not parse are malformed. Every
/// visibility filter is left to the caller.
pub fn parse_desktop_entry(path: &str, contents: &[u8]) -> (r: Result<DesktopEntry, ParseError>)
    ensures
        match r {
            Ok(entry) => parse_outcome(path@, contents@) == Ok::<DesktopEntryView, ParseError>(
                entry@,
            ),
            Err(e) => parse_outcome(path@, contents@) == Err::<DesktopEntryView, ParseError>(e),
        },
        match r {
            Ok(entry) => descriptor_of(path@, contents@) == Some(entry@),
            Err(_) => descriptor_of(path@, contents@) is None,
        },
{
    if !comment_runs_fit(contents) {
        return Err(ParseError::TooManyComments);
    }
    match parse_descriptor(contents) {
        Ok(parsed) => {
            let keys = read_keys(&parsed);
            Ok(DesktopEntry::from_keys(path, &keys))
        },
        Err(_) => Err(ParseError::Malformed),
    }
}

/// The descriptors that discovery keeps, in the order of their files: those
/// that parse and are discoverable.
pub open spec fn discovered(files: Seq<DescriptorFileView>) -> Seq<DesktopEntryView>
    decreases files.len(),
{
    if files.len() == 0 {
        Seq::empty()
    } else {
        let before = discovered(files.drop_last());
        match descriptor_of(files.last().path, files.last().contents) {
            Some(entry) => if entry.discoverable() {
                before.push(entry)
            } else {
                before
            },
            None => before,
        }
    }
}

/// Nothing that discovery keeps is hidden, kept from display, or of another
/// type than `Application`.
pub proof fn lemma_discovered_visible(files: Seq<DescriptorFileView>)
    ensures
        forall|i: int|
            0 <= i < discovered(files).len() ==> {
                &&& (#[trigger] discovered(files)[i]).discoverable()
                &&& !discovered(files)[i].no_display
                &&& !discovered(files)[i].hidden
            },
    decreases files.len(),
{
    if files.len() > 0 {
        lemma_discovered_visible(files.drop_last());
    }
}

/// Files are handled one by one: discovery over two batches, one after the
/// other, finds what discovery over each batch finds. A batch may therefore
/// be cut up and its pieces handled side by side.
pub proof fn lemma_discovered_concat(a: Seq<DescriptorFileView>, b: Seq<DescriptorFileView>)
    ensures
        discovered(a + b) == discovered(a) + discovered(b),
    decreases b.len(),
{
    if b.len() == 0 {
        assert(a + b =~= a);
        assert(discovered(a) + discovered(b) =~= discovered(a));
    } else {
        assert((a + b).drop_last() =~= a + b.drop_last());
        assert((a + b).last() == b.last());
        lemma_discovered_concat(a, b.drop_last());
        let before = discovered(a) + discovered(b.drop_last());
        match descriptor_of(b.last().path, b.last().contents) {
            Some(entry) => {
                assert(before.push(entry) =~= discovered(a) + discovered(b.drop_last()).push(entry));
            },
            None => {},
        }
    }
}

/// Parses every file and keeps the descriptors that belong in the launcher.
/// A file that does not parse is skipped; it never fails the batch.
pub fn get_desktop_entries(files: &Vec<DescriptorFile>) -> (r: Vec<DesktopEntry>)
    ensures
        r.deep_view() == discovered(files.deep_view()),
        forall|i: int| 0 <= i < r.len() ==> (#[trigger] r[i])@.discoverable(),
        files.len() == 0 ==> r.len() == 0,
{
    let ghost views = files.deep_view();
    let mut out: Vec<DesktopEntry> = Vec::new();
    let mut i: usize = 0;
    proof {
        assert(views.take(0) =~= Seq::empty());
        assert(out.deep_view() =~= Seq::<DesktopEntryView>::empty());
    }
    while i < files.len()
        invariant
            i <= files.len(),
            views == files.deep_view(),
            out.deep_view() == discovered(views.take(i as int)),
        decreases files.len() - i,
    {
        let file = &files[i];
        let ghost before = out.deep_view();
        proof {
            assert(views.take(i + 1).drop_last() =~= views.take(i as int));
            assert(views.take(i + 1).last() == file@);
        }
        match parse_desktop_entry(file.path.as_str(), file.contents.as_slice()) {
            Ok(entry) => {
                if entry.is_discoverable() {
                    let ghost kept = entry@;
                    out.push(entry);
                    proof {
                        assert(out.deep_view() =~= before.push(kept));
                    }
                }
            },
            Err(_) => {},
        }
        i += 1;
    }
    proof {
        assert(views.take(files.len() as int) =~= views);
        lemma_discovered_visible(views);
        assert forall|k: int| 0 <= k < out.len() implies (#[trigger] out[k])@.discoverable() by {
            assert(out.deep_view()[k] == out[k]@);
        }
    }
    out
}

/// The directories that a search-path value names: its pieces between
/// colons, in order, without the empty ones. An empty value names none.
pub open spec fn data_dirs_of(dirs_string: Seq<char>) -> Seq<Seq<char>> {
    split_on(dirs_string, ':').filter(|piece: Seq<char>| piece.len() > 0)
}

/// The empty search path names no directory.
pub proof fn lemma_empty_path_names_nothing()
    ensures
        data_dirs_of(Seq::<char>::empty()).len() == 0,
{
    let pieces = split_on(Seq::<char>::empty(), ':');
    assert(pieces =~= seq![Seq::<char>::empty()]);
    reveal(Seq::filter);
    assert(pieces.drop_last() =~= Seq::<Seq<char>>::empty());
    assert(pieces.drop_last().filter(|piece: Seq<char>| piece.len() > 0) =~= Seq::<
        Seq<char>,
    >::empty());
}

/// The directories named by a search-path value. A value that is empty, as
/// an unset one is, gives no directory, so that nothing is scanned.
pub fn get_data_dirs(dirs_string: &str) -> (r: Vec<String>)
    ensures
        r.deep_view() == data_dirs_of(dirs_string@),
        dirs_string@.len() == 0 ==> r.len() == 0,
        forall|i: int| 0 <= i < r.len() ==> (#[trigger] r.deep_view()[i]).len() > 0,
{
    let pieces = split_text(dirs_string, ':');
    let ghost all = pieces.deep_view();
    let ghost kept = |piece: Seq<char>| piece.len() > 0;
    let mut dirs: Vec<String> = Vec::new();
    let mut i: usize = 0;
    proof {
        reveal(Seq::filter);
        assert(all.take(0) =~= Seq::<Seq<char>>::empty());
        assert(dirs.deep_view() =~= all.take(0).filter(kept));
    }
    while i < pieces.len()
        invariant
            i <= pieces.len(),
            all == pieces.deep_view(),
            kept == |piece: Seq<char>| piece.len() > 0,
            dirs.deep_view() == all.take(i as int).filter(kept),
            forall|k: int| 0 <= k < dirs.len() ==> (#[trigger] dirs.deep_view()[k]).len() > 0,
        decreases pieces.len() - i,
    {
        let ghost before = dirs.deep_view();
        proof {
            reveal(Seq::filter);
            assert(all.take(i + 1).drop_last() =~= all.take(i as int));
            assert(all.take(i + 1).last() == pieces[i as int]@);
        }
        if !pieces[i].as_str().is_empty() {
            dirs.push(pieces[i].clone());
            proof {
                assert(dirs.deep_view() =~= before.push(pieces[i as int]@));
            }
        }
        i += 1;
    }
    proof {
        assert(all.take(pieces.len() as int) =~= all);
        if dirs_string@.len() == 0 {
            lemma_empty_path_names_nothing();
        }
    }
    dirs
}

/// The last component of a path: what follows its last `/`.
pub open spec fn file_name_of(path: Seq<char>) -> Seq<char> {
    path.skip(last_index(path, '/') + 1)
}

/// The extension of a path: what follows the last `.` of its file name. A
/// file name without `.`, or whose only `.` is its first character, has none.
pub open spec fn extension_of(path: Seq<char>) -> Option<Seq<char>> {
    let name = file_name_of(path);
    let dot = last_index(name, '.');
    if dot <= 0 {
        None
    } else {
        Some(name.skip(dot + 1))
    }
}

/// A descriptor file is one with the extension `desktop`.
pub open spec fn is_descriptor_path(path: Seq<char>) -> bool {
    extension_of(path) == Some("desktop"@)
}

/// Whether `path` names a descriptor file.
pub fn has_descriptor_extension(path: &str) -> (r: bool)
    ensures
        r == is_descriptor_path(path@),
{
    let v = chars_of(path);
    let n = v.len();
    let slash = find_last_char(&v, 0, n, '/');
    let start: usize = if slash == n {
        0
    } else {
        slash + 1
    };
    proof {
        assert(v@.subrange(0, n as int) =~= path@);
        assert(v@.subrange(start as int, n as int) =~= file_name_of(path@));
    }
    let dot = find_last_char(&v, start, n, '.');
    if dot == n || dot == start {
        return false;
    }
    let ghost name = file_name_of(path@);
    let mut extension: Vec<char> = Vec::new();
    let mut i: usize = dot + 1;
    while i < n
        invariant
            dot + 1 <= i <= n,
            n == v.len(),
            extension@ == v@.subrange(dot + 1, i as int),
        decreases n - i,
    {
        extension.push(v[i]);
        proof {
            assert(extension@ =~= v@.subrange(dot + 1, i + 1));
        }
        i += 1;
    }
    proof {
        assert(v@.subrange(dot + 1, n as int) =~= name.skip(dot - start + 1));
    }
    let wanted = chars_of("desktop");
    chars_equal(&extension, &wanted)
}

/// The descriptor files among the listings of the search directories: the
/// listings are taken in order, each keeps its own order, and only paths with
/// the extension `desktop` stay.
pub open spec fn descriptor_paths(listings: Seq<Seq<Seq<char>>>) -> Seq<Seq<char>>
    decreases listings.len(),
{
    if listings.len() == 0 {
        Seq::empty()
    } else {
        descriptor_paths(listings.drop_last()) + listings.last().filter(
            |p: Seq<char>| is_descriptor_path(p),
        )
    }
}

/// Picks the descriptor files out of the directory listings. `listings` holds
/// one list of paths per search directory, in search-path order; a directory
/// that is missing or unreadable has an empty list.
pub fn get_desktop_entry_paths(listings: &Vec<Vec<String>>) -> (r: Vec<String>)
    ensures
        r.deep_view() == descriptor_paths(listings.deep_view()),
        listings.len() == 0 ==> r.len() == 0,
{
    let ghost all = listings.deep_view();
    let ghost wanted = |p: Seq<char>| is_descriptor_path(p);
    let mut out: Vec<String> = Vec::new();
    let mut i: usize = 0;
    proof {
        assert(all.take(0) =~= Seq::empty());
        assert(out.deep_view() =~= Seq::<Seq<char>>::empty());
    }
    while i < listings.len()
        invariant
            i <= listings.len(),
            all == listings.deep_view(),
            wanted == |p: Seq<char>| is_descriptor_path(p),
            out.deep_view() == descriptor_paths(all.take(i as int)),
        decreases listings.len() - i,
    {
        let listing = &listings[i];
        let ghost paths = listing.deep_view();
        let ghost before = out.deep_view();
        let mut j: usize = 0;
        proof {
            assert(all.take(i + 1).drop_last() =~= all.take(i as int));
            assert(all.take(i + 1).last() == paths);
            reveal(Seq::filter);
            assert(paths.take(0) =~= Seq::empty());
            assert(paths.take(0).filter(wanted) =~= Seq::empty());
        }
        while j < listing.len()
            invariant
                j <= listing.len(),
                paths == listing.deep_view(),
                wanted == |p: Seq<char>| is_descriptor_path(p),
                out.deep_view() == before + paths.take(j as int).filter(wanted),
            decreases listing.len() - j,
        {
            let ghost sofar = out.deep_view();
            proof {
                reveal(Seq::filter);
                assert(paths.take(j + 1).drop_last() =~= paths.take(j as int));
                assert(paths.take(j + 1).last() == listing[j as int]@);
            }
            if has_descriptor_extension(listing[j].as_str()) {
                out.push(listing[j].clone());
                proof {
                    assert(out.deep_view() =~= sofar.push(listing[j as int]@));
                }
            }
            j += 1;
        }
        proof {
            assert(paths.take(listing.len() as int) =~= paths);
        }
        i += 1;
    }
    proof {
        assert(all.take(listings.len() as int) =~= all);
    }
    out
}

} // verus!
