//! Icon resolution: from a logical icon name to the file to show.
//!
//! The library decides where to look and which file to take; looking itself
//! is the caller's part.

use crate::data::{icon_size_of, parse_icon_size, FixedIconSize, Icon, IconSize, IconView};
use crate::entry::{str_of, text_of};
use crate::text::chars_of;
use vstd::hash_map::StringHashMap;
use vstd::prelude::*;
use vstd::string::StringExecFns;

verus! {

/// An absolute path starts with `/`.
pub open spec fn is_absolute(name: Seq<char>) -> bool {
    name.len() > 0 && name[0] == '/'
}

/// Whether an icon value is an absolute path rather than a logical name.
pub fn is_absolute_path(name: &str) -> (r: bool)
    ensures
        r == is_absolute(name@),
{
    let letters = chars_of(name);
    letters.len() > 0 && letters[0] == '/'
}

/// The theme every search falls back to.
pub open spec fn fallback_theme() -> Seq<char> {
    "hicolor"@
}

/// The themes to search, in order: the active theme where there is one, then
/// the fallback theme.
pub open spec fn chain_of(active_theme: Option<Seq<char>>) -> Seq<Seq<char>> {
    match active_theme {
        Some(theme) => seq![theme, fallback_theme()],
        None => seq![fallback_theme()],
    }
}

/// The themes to search for a logical name, in order.
pub fn theme_chain(active_theme: Option<&str>) -> (r: Vec<String>)
    ensures
        r.deep_view() == chain_of(str_of(active_theme)),
{
    let mut chain: Vec<String> = Vec::new();
    match active_theme {
        Some(theme) => {
            chain.push(theme.to_owned());
        },
        None => {},
    }
    chain.push("hicolor".to_owned());
    assert(chain.deep_view() =~= chain_of(str_of(active_theme)));
    chain
}

/// What the caller does next for one icon.
#[derive(Debug)]
pub enum IconStep {
    /// The search is over: here is the file, or there is none.
    Done(Option<String>),
    /// Search this theme for the name and report what was found.
    Search(String),
}

/// The mathematical content of an [`IconStep`].
pub enum IconStepView {
    Done(Option<Seq<char>>),
    Search(Seq<char>),
}

impl View for IconStep {
    type V = IconStepView;

    open spec fn view(&self) -> IconStepView {
        match *self {
            IconStep::Done(path) => IconStepView::Done(text_of(path)),
            IconStep::Search(theme) => IconStepView::Search(theme@),
        }
    }
}

/// The next step of a resolution in which `searched` themes of the chain have
/// been searched and the last search reported `hit`. An absolute path is its
/// own answer and no theme is searched for it. Otherwise a hit ends the
/// search, a miss moves on to the next theme, and after the last theme there
/// is no icon.
pub open spec fn step_of(
    name: Seq<char>,
    active_theme: Option<Seq<char>>,
    searched: int,
    hit: Option<Seq<char>>,
) -> IconStepView {
    if is_absolute(name) {
        IconStepView::Done(Some(name))
    } else if hit is Some {
        IconStepView::Done(hit)
    } else if 0 <= searched < chain_of(active_theme).len() {
        IconStepView::Search(chain_of(active_theme)[searched])
    } else {
        IconStepView::Done(None)
    }
}

/// Decides the next step of the resolution of `name`. The caller starts with
/// `searched == 0` and no hit, performs each `Search` it is handed, and comes
/// back with one more theme searched and what that search found.
pub fn resolve_step(name: &str, active_theme: Option<&str>, searched: usize, hit: Option<String>) -> (r:
    IconStep)
    ensures
        r@ == step_of(name@, str_of(active_theme), searched as int, text_of(hit)),
        is_absolute(name@) ==> r@ == IconStepView::Done(Some(name@)),
{
    if is_absolute_path(name) {
        return IconStep::Done(Some(name.to_owned()));
    }
    match hit {
        Some(path) => IconStep::Done(Some(path)),
        None => {
            let mut chain = theme_chain(active_theme);
            let ghost themes = chain.deep_view();
            if searched < chain.len() {
                let theme = chain.swap_remove(searched);
                proof {
                    assert(themes[searched as int] == theme@);
                }
                IconStep::Search(theme)
            } else {
                IconStep::Done(None)
            }
        },
    }
}

/// The answer of a whole resolution, given what the search of each theme of
/// the chain finds: the name itself where it is an absolute path, otherwise
/// the first hit in chain order, otherwise nothing.
pub open spec fn resolved(name: Seq<char>, hits: Seq<Option<Seq<char>>>) -> Option<Seq<char>>
    decreases hits.len(),
{
    if is_absolute(name) {
        Some(name)
    } else if hits.len() == 0 {
        None
    } else if hits[0] is Some {
        hits[0]
    } else {
        resolved(name, hits.drop_first())
    }
}

/// The answer that the steps reach from the point where `searched` themes
/// have been searched, when the search of each theme finds what `hits` says.
pub open spec fn reached(
    name: Seq<char>,
    active_theme: Option<Seq<char>>,
    hits: Seq<Option<Seq<char>>>,
    searched: int,
) -> Option<Seq<char>>
    decreases hits.len() - searched,
{
    let hit = if 0 < searched <= hits.len() {
        hits[searched - 1]
    } else {
        None
    };
    match step_of(name, active_theme, searched, hit) {
        IconStepView::Done(answer) => answer,
        IconStepView::Search(_) => if 0 <= searched < hits.len() {
            reached(name, active_theme, hits, searched + 1)
        } else {
            None
        },
    }
}

/// Following the steps from some point on gives the first hit from there on.
proof fn lemma_reached_from(
    name: Seq<char>,
    active_theme: Option<Seq<char>>,
    hits: Seq<Option<Seq<char>>>,
    searched: int,
)
    requires
        !is_absolute(name),
        hits.len() == chain_of(active_theme).len(),
        1 <= searched <= hits.len(),
    ensures
        reached(name, active_theme, hits, searched) == resolved(name, hits.skip(searched - 1)),
    decreases hits.len() - searched,
{
    let rest = hits.skip(searched - 1);
    assert(rest[0] == hits[searched - 1]);
    assert(rest.drop_first() =~= hits.skip(searched));
    if hits[searched - 1] is None {
        if searched < hits.len() {
            lemma_reached_from(name, active_theme, hits, searched + 1);
        }
    }
}

/// Step by step the caller arrives at the answer of the whole resolution:
/// the path itself for an absolute path, otherwise the first hit in chain
/// order, otherwise nothing.
pub proof fn lemma_steps_resolve(
    name: Seq<char>,
    active_theme: Option<Seq<char>>,
    hits: Seq<Option<Seq<char>>>,
)
    requires
        hits.len() == chain_of(active_theme).len(),
    ensures
        reached(name, active_theme, hits, 0) == resolved(name, hits),
        is_absolute(name) ==> reached(name, active_theme, hits, 0) == Some(name),
{
    if !is_absolute(name) {
        lemma_reached_from(name, active_theme, hits, 1);
        assert(hits.skip(0) =~= hits);
    }
}

/// Resolves `name` from the results of searching the chain's themes, given
/// in chain order.
pub fn resolve(name: &str, hits: &Vec<Option<String>>) -> (r: Option<String>)
    ensures
        text_of(r) == resolved(name@, hits.deep_view()),
        is_absolute(name@) ==> text_of(r) == Some(name@),
{
    if is_absolute_path(name) {
        return Some(name.to_owned());
    }
    let ghost all = hits.deep_view();
    let mut i: usize = 0;
    proof {
        assert(all.skip(0) =~= all);
    }
    while i < hits.len()
        invariant
            i <= hits.len(),
            all == hits.deep_view(),
            !is_absolute(name@),
            resolved(name@, all) == resolved(name@, all.skip(i as int)),
        decreases hits.len() - i,
    {
        proof {
            assert(all.skip(i as int)[0] == hits[i as int].deep_view());
            assert(all.skip(i as int).drop_first() =~= all.skip(i + 1));
        }
        match &hits[i] {
            Some(path) => {
                return Some(path.clone());
            },
            None => {},
        }
        i += 1;
    }
    None
}

/// The file extension of icons of a size: scalable icons are SVG files,
/// fixed-size icons PNG files.
pub open spec fn extension_for(size: IconSize) -> Seq<char> {
    match size {
        IconSize::Scalable => "svg"@,
        IconSize::Fixed(_) => "png"@,
    }
}

/// Where the icon `name` of a size would lie in a theme directory:
/// `<theme_dir>/<size_dir>/apps/<name>.<ext>`.
pub open spec fn icon_file(
    theme_dir: Seq<char>,
    size_dir: Seq<char>,
    name: Seq<char>,
    size: IconSize,
) -> Seq<char> {
    theme_dir + "/"@ + size_dir + "/apps/"@ + name + "."@ + extension_for(size)
}

/// The path at which to look for the icon `name` in one size directory.
pub fn icon_path(theme_dir: &str, size_dir: &str, name: &str, size: IconSize) -> (r: String)
    ensures
        r@ == icon_file(theme_dir@, size_dir@, name@, size),
{
    let mut path = String::new();
    path.append(theme_dir);
    path.append("/");
    path.append(size_dir);
    path.append("/apps/");
    path.append(name);
    path.append(".");
    match size {
        IconSize::Scalable => path.append("svg"),
        IconSize::Fixed(_) => path.append("png"),
    }
    assert(path@ =~= icon_file(theme_dir@, size_dir@, name@, size));
    path
}

/// The files to look for in one theme: one for each child directory whose
/// name denotes a size, in the order of the children.
pub open spec fn candidates_of(
    theme_dir: Seq<char>,
    theme: Seq<char>,
    children: Seq<Seq<char>>,
    name: Seq<char>,
) -> Seq<IconView>
    decreases children.len(),
{
    if children.len() == 0 {
        Seq::empty()
    } else {
        let before = candidates_of(theme_dir, theme, children.drop_last(), name);
        match icon_size_of(children.last()) {
            Some(size) => before.push(
                IconView {
                    theme: Some(theme),
                    path: icon_file(theme_dir, children.last(), name, size),
                    size,
                },
            ),
            None => before,
        }
    }
}

/// Lists the files to look for in the directory of one theme. `children`
/// holds the names of the directories directly under `theme_dir`.
pub fn theme_candidates(theme_dir: &str, theme: &str, children: &Vec<String>, name: &str) -> (r:
    Vec<Icon>)
    ensures
        r.deep_view() == candidates_of(theme_dir@, theme@, children.deep_view(), name@),
{
    let ghost all = children.deep_view();
    let mut out: Vec<Icon> = Vec::new();
    let mut i: usize = 0;
    proof {
        assert(all.take(0) =~= Seq::empty());
        assert(out.deep_view() =~= Seq::<IconView>::empty());
    }
    while i < children.len()
        invariant
            i <= children.len(),
            all == children.deep_view(),
            out.deep_view() == candidates_of(theme_dir@, theme@, all.take(i as int), name@),
        decreases children.len() - i,
    {
        let child = children[i].as_str();
        let ghost before = out.deep_view();
        proof {
            assert(all.take(i + 1).drop_last() =~= all.take(i as int));
            assert(all.take(i + 1).last() == child@);
        }
        match parse_icon_size(child) {
            Some(size) => {
                let icon = Icon {
                    theme: Some(theme.to_owned()),
                    path: icon_path(theme_dir, child, name, size),
                    size,
                };
                let ghost added = icon@;
                out.push(icon);
                proof {
                    assert(out.deep_view() =~= before.push(added));
                }
            },
            None => {},
        }
        i += 1;
    }
    proof {
        assert(all.take(children.len() as int) =~= all);
    }
    out
}

/// A fixed size reaches the wanted minimum in both directions.
pub open spec fn fits(size: FixedIconSize, min_width: u32, min_height: u32) -> bool {
    size.width >= min_width && size.height >= min_height
}

/// Size `a` is smaller than size `b`: narrower, or as wide and lower.
pub open spec fn smaller(a: FixedIconSize, b: FixedIconSize) -> bool {
    a.width < b.width || (a.width == b.width && a.height < b.height)
}

/// Icon `k` is the one to take among `found`. A scalable icon wins over
/// every fixed one, the first scalable over the others. Without a scalable
/// icon the smallest fixed size that reaches the minimum wins, the first of
/// that width and height over the others; the scale plays no part.
pub open spec fn is_best(found: Seq<IconView>, min_width: u32, min_height: u32, k: int) -> bool {
    &&& 0 <= k < found.len()
    &&& match found[k].size {
        IconSize::Scalable => forall|j: int| 0 <= j < k ==> (#[trigger] found[j]).size != IconSize::Scalable,
        IconSize::Fixed(size) => {
            &&& fits(size, min_width, min_height)
            &&& forall|j: int|
                0 <= j < found.len() ==> match (#[trigger] found[j]).size {
                    IconSize::Scalable => false,
                    IconSize::Fixed(other) => fits(other, min_width, min_height) ==> !smaller(
                        other,
                        size,
                    ) && (j < k ==> smaller(size, other)),
                }
        },
    }
}

/// No icon among `found` can be taken: none is scalable and no fixed size
/// reaches the minimum.
pub open spec fn none_fits(found: Seq<IconView>, min_width: u32, min_height: u32) -> bool {
    forall|j: int|
        0 <= j < found.len() ==> match (#[trigger] found[j]).size {
            IconSize::Scalable => false,
            IconSize::Fixed(size) => !fits(size, min_width, min_height),
        }
}

/// Chooses among the icons that exist the one to show at a wanted minimum
/// size, and returns its position. Where nothing reaches the minimum there
/// is no icon; a smaller one is never taken instead.
pub fn select_best(found: &Vec<Icon>, min_width: u32, min_height: u32) -> (r: Option<usize>)
    ensures
        match r {
            Some(k) => is_best(found.deep_view(), min_width, min_height, k as int),
            None => none_fits(found.deep_view(), min_width, min_height),
        },
{
    let ghost all = found.deep_view();
    let mut best: Option<usize> = None;
    let mut i: usize = 0;
    while i < found.len()
        invariant
            i <= found.len(),
            all == found.deep_view(),
            match best {
                Some(k) => k < i && is_best(all.take(i as int), min_width, min_height, k as int)
                    && all[k as int].size != IconSize::Scalable,
                None => none_fits(all.take(i as int), min_width, min_height),
            },
        decreases found.len() - i,
    {
        let ghost seen = all.take(i as int);
        let ghost next = all.take(i + 1);
        proof {
            assert(all[i as int] == found[i as int]@);
            assert(next[i as int] == all[i as int]);
            assert forall|j: int| 0 <= j < i implies next[j] == seen[j] by {}
        }
        match found[i].size {
            IconSize::Scalable => {
                proof {
                    assert forall|j: int| 0 <= j < i implies (#[trigger] all[j]).size
                        != IconSize::Scalable by {
                        assert(seen[j] == all[j]);
                    }
                    assert(is_best(all, min_width, min_height, i as int));
                }
                return Some(i);
            },
            IconSize::Fixed(size) => {
                if size.width >= min_width && size.height >= min_height {
                    let better = match best {
                        Some(k) => match found[k].size {
                            IconSize::Fixed(held) => size.width < held.width || (size.width
                                == held.width && size.height < held.height),
                            IconSize::Scalable => false,
                        },
                        None => true,
                    };
                    proof {
                        if let Some(k) = best {
                            assert(seen[k as int] == all[k as int]);
                            assert(next[k as int] == all[k as int]);
                        }
                    }
                    if better {
                        best = Some(i);
                    }
                } else {
                    proof {
                        if let Some(k) = best {
                            assert(seen[k as int] == all[k as int]);
                            assert(next[k as int] == all[k as int]);
                        }
                    }
                }
            },
        }
        i += 1;
    }
    proof {
        assert(all.take(found.len() as int) =~= all);
    }
    best
}

/// At most one position is the best: the choice is determined.
pub proof fn lemma_best_unique(found: Seq<IconView>, min_width: u32, min_height: u32, a: int, b: int)
    requires
        is_best(found, min_width, min_height, a),
        is_best(found, min_width, min_height, b),
    ensures
        a == b,
{
}

/// A choice and no choice exclude each other.
pub proof fn lemma_best_excludes_none(found: Seq<IconView>, min_width: u32, min_height: u32, k: int)
    requires
        is_best(found, min_width, min_height, k),
    ensures
        !none_fits(found, min_width, min_height),
{
}

/// What a list of (name, path) records amounts to: each name leads to the
/// path of its last record.
pub open spec fn pairs_map(pairs: Seq<(Seq<char>, Seq<char>)>) -> Map<Seq<char>, Seq<char>>
    decreases pairs.len(),
{
    if pairs.len() == 0 {
        Map::empty()
    } else {
        pairs_map(pairs.drop_last()).insert(pairs.last().0, pairs.last().1)
    }
}

/// Where each resolved icon name leads. It lives as long as one set of
/// entries and is filled once per refresh. The names are kept in a hash map;
/// beside it stands the list of the names that were put in, which a copy is
/// made from.
pub struct IconMap {
    paths: StringHashMap<String>,
    names: Vec<String>,
}

impl View for IconMap {
    type V = Map<Seq<char>, Seq<char>>;

    closed spec fn view(&self) -> Map<Seq<char>, Seq<char>> {
        self.paths@.map_values(|path: String| path@)
    }
}

/// Every name of the map is in the list of names.
spec fn all_listed(paths: Map<Seq<char>, String>, names: Seq<String>) -> bool {
    forall|name: Seq<char>| #[trigger]
        paths.contains_key(name) ==> exists|i: int|
            0 <= i < names.len() && (#[trigger] names[i])@ == name
}

impl IconMap {
    /// Every name of the map is in the list of names.
    #[verifier::type_invariant]
    spec fn names_are_listed(self) -> bool {
        all_listed(self.paths@, self.names@)
    }
}

impl Clone for IconMap {
    fn clone(&self) -> (r: IconMap)
        ensures
            r@ == self@,
    {
        proof {
            use_type_invariant(self);
        }
        let mut paths: StringHashMap<String> = StringHashMap::new();
        let mut names: Vec<String> = Vec::new();
        let mut i: usize = 0;
        while i < self.names.len()
            invariant
                i <= self.names.len(),
                names.len() == i,
                forall|k: int| 0 <= k < i ==> (#[trigger] names[k])@ == self.names[k]@,
                forall|name: Seq<char>| #[trigger]
                    paths@.contains_key(name) <==> self.paths@.contains_key(name) && exists|k: int|
                        0 <= k < i && (#[trigger] self.names[k])@ == name,
                forall|name: Seq<char>| #[trigger]
                    paths@.contains_key(name) ==> paths@[name] == self.paths@[name],
            decreases self.names.len() - i,
        {
            let name = &self.names[i];
            let ghost before = paths@;
            match self.paths.get(name.as_str()) {
                Some(path) => {
                    paths.insert(name.clone(), path.clone());
                },
                None => {},
            }
            names.push(name.clone());
            proof {
                assert forall|other: Seq<char>| #[trigger]
                    paths@.contains_key(other) <==> self.paths@.contains_key(other) && exists|
                        k: int,
                    |
                        0 <= k < i + 1 && (#[trigger] self.names[k])@ == other by {
                    if other == name@ {
                        assert(self.names[i as int]@ == other);
                    } else if before.contains_key(other) {
                        let k = choose|k: int| 0 <= k < i && (#[trigger] self.names[k])@ == other;
                        assert(0 <= k < i + 1 && self.names[k]@ == other);
                    } else if self.paths@.contains_key(other) && exists|k: int|
                        0 <= k < i + 1 && (#[trigger] self.names[k])@ == other {
                        let k = choose|k: int|
                            0 <= k < i + 1 && (#[trigger] self.names[k])@ == other;
                        assert(k < i);
                    }
                }
            }
            i += 1;
        }
        proof {
            assert(paths@ =~= self.paths@);
            assert forall|name: Seq<char>| #[trigger] paths@.contains_key(name) implies exists|
                k: int,
            |
                0 <= k < names@.len() && (#[trigger] names@[k])@ == name by {
                let k = choose|k: int|
                    0 <= k < self.names@.len() && (#[trigger] self.names@[k])@ == name;
                assert(names@[k]@ == name);
            }
            assert(all_listed(paths@, names@));
        }
        IconMap { paths, names }
    }
}

impl IconMap {
    /// A map without names.
    pub fn new() -> (r: IconMap)
        ensures
            r@ == Map::<Seq<char>, Seq<char>>::empty(),
    {
        let r = IconMap { paths: StringHashMap::new(), names: Vec::new() };
        assert(r@ =~= Map::<Seq<char>, Seq<char>>::empty());
        r
    }

    /// Makes `name` lead to `path`, whatever it led to before.
    pub fn insert(&mut self, name: String, path: String)
        ensures
            final(self)@ == old(self)@.insert(name@, path@),
    {
        let mut held = IconMap::new();
        std::mem::swap(self, &mut held);
        proof {
            use_type_invariant(&held);
        }
        let IconMap { mut paths, mut names } = held;
        let ghost listed = names@;
        let ghost before = paths@;
        names.push(name.clone());
        paths.insert(name, path);
        proof {
            assert(names[names.len() - 1]@ == name@);
            assert forall|other: Seq<char>| #[trigger] paths@.contains_key(other) implies exists|
                i: int,
            |
                0 <= i < names@.len() && (#[trigger] names@[i])@ == other by {
                if other != name@ {
                    assert(before.contains_key(other));
                    let i = choose|i: int| 0 <= i < listed.len() && (#[trigger] listed[i])@ == other;
                    assert(names@[i] == listed[i]);
                } else {
                    assert(names@[names@.len() - 1]@ == other);
                }
            }
            assert(all_listed(paths@, names@));
            assert(paths@.map_values(|path: String| path@) =~= before.map_values(
                |path: String| path@,
            ).insert(name@, path@));
        }
        *self = IconMap { paths, names };
    }

    /// Where `name` leads, if anywhere.
    pub fn get(&self, name: &str) -> (r: Option<&str>)
        ensures
            str_of(r) == if self@.contains_key(name@) {
                Some(self@[name@])
            } else {
                None
            },
    {
        match self.paths.get(name) {
            Some(path) => Some(path.as_str()),
            None => None,
        }
    }

    /// Forgets every name.
    pub fn clear(&mut self)
        ensures
            final(self)@ == Map::<Seq<char>, Seq<char>>::empty(),
    {
        *self = IconMap::new();
    }
}

} // verus!
