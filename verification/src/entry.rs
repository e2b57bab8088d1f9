//! The launchable item: an application or a built-in action.

use vstd::prelude::*;

verus! {

/// What an optional owned text holds.
pub open spec fn text_of(o: Option<String>) -> Option<Seq<char>> {
    match o {
        Some(s) => Some(s@),
        None => None,
    }
}

/// What an optional borrowed text holds.
pub open spec fn str_of(o: Option<&str>) -> Option<Seq<char>> {
    match o {
        Some(s) => Some(s@),
        None => None,
    }
}

/// An owned copy of an optional borrowed text.
pub fn owned_text(o: Option<&str>) -> (r: Option<String>)
    ensures
        text_of(r) == str_of(o),
{
    match o {
        Some(s) => Some(s.to_owned()),
        None => None,
    }
}

/// A borrowed look at an optional owned text.
pub fn borrowed_text(o: &Option<String>) -> (r: Option<&str>)
    ensures
        str_of(r) == text_of(*o),
{
    match o {
        Some(s) => Some(s.as_str()),
        None => None,
    }
}

/// The mathematical content of an [`Entry`].
pub struct EntryView {
    pub id: Seq<char>,
    pub title: Seq<char>,
    pub generic_name: Option<Seq<char>>,
    pub description: Option<Seq<char>>,
    pub icon: Option<Seq<char>>,
    pub launch_command: Option<Seq<char>>,
    pub is_terminal: bool,
    pub user_confirm: bool,
}

impl EntryView {
    /// The entry a fresh builder starts from: titled `Unnamed`, everything
    /// else empty, absent or off.
    pub open spec fn unnamed() -> EntryView {
        EntryView {
            id: Seq::empty(),
            title: "Unnamed"@,
            generic_name: None,
            description: None,
            icon: None,
            launch_command: None,
            is_terminal: false,
            user_confirm: false,
        }
    }

    /// The description as it is read: the entry's own where it has one,
    /// otherwise its generic name.
    pub open spec fn shown_description(self) -> Option<Seq<char>> {
        match self.description {
            Some(d) => Some(d),
            None => self.generic_name,
        }
    }
}

/// One launchable item. It is built once and never changed afterwards.
#[derive(Debug)]
pub struct Entry {
    id: String,
    title: String,
    generic_name: Option<String>,
    description: Option<String>,
    icon: Option<String>,
    launch_command: Option<String>,
    is_terminal: bool,
    user_confirm: bool,
}

impl View for Entry {
    type V = EntryView;

    closed spec fn view(&self) -> EntryView {
        EntryView {
            id: self.id@,
            title: self.title@,
            generic_name: text_of(self.generic_name),
            description: text_of(self.description),
            icon: text_of(self.icon),
            launch_command: text_of(self.launch_command),
            is_terminal: self.is_terminal,
            user_confirm: self.user_confirm,
        }
    }
}

impl DeepView for Entry {
    type V = EntryView;

    open spec fn deep_view(&self) -> EntryView {
        self@
    }
}

impl Default for Entry {
    fn default() -> (r: Entry)
        ensures
            r@ == EntryView::unnamed(),
    {
        Entry {
            id: String::new(),
            title: "Unnamed".to_owned(),
            generic_name: None,
            description: None,
            icon: None,
            launch_command: None,
            is_terminal: false,
            user_confirm: false,
        }
    }
}

impl Clone for Entry {
    fn clone(&self) -> (r: Entry)
        ensures
            r@ == self@,
    {
        Entry {
            id: self.id.clone(),
            title: self.title.clone(),
            generic_name: owned_text(borrowed_text(&self.generic_name)),
            description: owned_text(borrowed_text(&self.description)),
            icon: owned_text(borrowed_text(&self.icon)),
            launch_command: owned_text(borrowed_text(&self.launch_command)),
            is_terminal: self.is_terminal,
            user_confirm: self.user_confirm,
        }
    }
}

impl Entry {
    /// The stable identifier: a descriptor's path, or a fixed name for a
    /// built-in action.
    pub fn id(&self) -> (r: &str)
        ensures
            r@ == self@.id,
    {
        self.id.as_str()
    }

    /// The display name.
    pub fn title(&self) -> (r: &str)
        ensures
            r@ == self@.title,
    {
        self.title.as_str()
    }

    /// The secondary name, which is searched as well.
    pub fn generic_name(&self) -> (r: Option<&str>)
        ensures
            str_of(r) == self@.generic_name,
    {
        borrowed_text(&self.generic_name)
    }

    /// The description to show: the entry's own, else its generic name, else
    /// nothing.
    pub fn description(&self) -> (r: Option<&str>)
        ensures
            str_of(r) == self@.shown_description(),
            self@.description is Some ==> str_of(r) == self@.description,
            self@.description is None ==> str_of(r) == self@.generic_name,
    {
        match &self.description {
            Some(d) => Some(d.as_str()),
            None => borrowed_text(&self.generic_name),
        }
    }

    /// The logical icon name or absolute path, unresolved.
    pub fn icon(&self) -> (r: Option<&str>)
        ensures
            str_of(r) == self@.icon,
    {
        borrowed_text(&self.icon)
    }

    /// The raw command template, unexpanded.
    pub fn launch_command(&self) -> (r: Option<&str>)
        ensures
            str_of(r) == self@.launch_command,
    {
        borrowed_text(&self.launch_command)
    }

    /// Whether the command has to run inside a terminal emulator.
    pub fn is_terminal(&self) -> (r: bool)
        ensures
            r == self@.is_terminal,
    {
        self.is_terminal
    }

    /// Whether a launch has to be confirmed first.
    pub fn user_confirm(&self) -> (r: bool)
        ensures
            r == self@.user_confirm,
    {
        self.user_confirm
    }

    /// Starts a builder at the unnamed entry.
    pub fn builder() -> (r: EntryBuilder)
        ensures
            r@ == EntryView::unnamed(),
    {
        EntryBuilder::new()
    }
}

/// Builds an [`Entry`] field by field.
pub struct EntryBuilder {
    entry: Entry,
}

impl View for EntryBuilder {
    type V = EntryView;

    closed spec fn view(&self) -> EntryView {
        self.entry@
    }
}

impl EntryBuilder {
    /// A builder at the unnamed entry.
    pub fn new() -> (r: EntryBuilder)
        ensures
            r@ == EntryView::unnamed(),
    {
        EntryBuilder { entry: Entry::default() }
    }

    /// Sets the identifier.
    pub fn id(self, id: &str) -> (r: EntryBuilder)
        ensures
            r@ == (EntryView { id: id@, ..self@ }),
    {
        let mut entry = self.entry;
        entry.id = id.to_owned();
        EntryBuilder { entry }
    }

    /// Sets the display name.
    pub fn title(self, title: &str) -> (r: EntryBuilder)
        ensures
            r@ == (EntryView { title: title@, ..self@ }),
    {
        let mut entry = self.entry;
        entry.title = title.to_owned();
        EntryBuilder { entry }
    }

    /// Sets or clears the generic name.
    pub fn generic_name(self, generic_name: Option<&str>) -> (r: EntryBuilder)
        ensures
            r@ == (EntryView { generic_name: str_of(generic_name), ..self@ }),
    {
        let mut entry = self.entry;
        entry.generic_name = owned_text(generic_name);
        EntryBuilder { entry }
    }

    /// Sets or clears the entry's own description.
    pub fn description(self, description: Option<&str>) -> (r: EntryBuilder)
        ensures
            r@ == (EntryView { description: str_of(description), ..self@ }),
    {
        let mut entry = self.entry;
        entry.description = owned_text(description);
        EntryBuilder { entry }
    }

    /// Sets or clears the icon.
    pub fn icon(self, icon: Option<&str>) -> (r: EntryBuilder)
        ensures
            r@ == (EntryView { icon: str_of(icon), ..self@ }),
    {
        let mut entry = self.entry;
        entry.icon = owned_text(icon);
        EntryBuilder { entry }
    }

    /// Sets or clears the command template.
    pub fn launch_command(self, launch_command: Option<&str>) -> (r: EntryBuilder)
        ensures
            r@ == (EntryView { launch_command: str_of(launch_command), ..self@ }),
    {
        let mut entry = self.entry;
        entry.launch_command = owned_text(launch_command);
        EntryBuilder { entry }
    }

    /// Says whether the command runs in a terminal.
    pub fn is_terminal(self, is_terminal: bool) -> (r: EntryBuilder)
        ensures
            r@ == (EntryView { is_terminal, ..self@ }),
    {
        let mut entry = self.entry;
        entry.is_terminal = is_terminal;
        EntryBuilder { entry }
    }

    /// Says whether a launch has to be confirmed.
    pub fn user_confirm(self, must_confirm: bool) -> (r: EntryBuilder)
        ensures
            r@ == (EntryView { user_confirm: must_confirm, ..self@ }),
    {
        let mut entry = self.entry;
        entry.user_confirm = must_confirm;
        EntryBuilder { entry }
    }

    /// The finished entry.
    pub fn build(self) -> (r: Entry)
        ensures
            r@ == self@,
    {
        self.entry
    }
}

} // verus!
