//! Assembling the shortened path of a working directory.
//!
//! A path is a sequence of components, outermost first. An absolute path
//! starts with the root symbol `/`; every further component is the name of a
//! directory. The shortened path keeps the root and the final component, and
//! replaces every component between them by its shortest unique prefix among
//! the entries of the directory that holds it. A working directory that lies
//! under the home directory has the home directory's components replaced by
//! the single marker `~`.
//!
//! The caller walks from the working directory up to the root and hands over
//! what it met, nearest directory first: the name of each directory above the
//! working directory, and the names listed in that directory's parent.

use crate::prefix::{get_shortest, lemma_shortest_unique_prefix, shortest_unique_prefix};
use vstd::prelude::*;
use vstd::string::StringExecFns;

verus! {

/// A directory above the working directory, as the walk to the root met it.
#[derive(Clone, Debug)]
pub struct Ancestor {
    /// The directory's name.
    pub name: String,
    /// The names of the entries of this directory's parent. They usually hold
    /// `name` itself.
    pub siblings: Vec<String>,
}

/// What an [`Ancestor`] stands for.
pub struct AncestorView {
    /// The directory's name.
    pub name: Seq<char>,
    /// The names listed in the directory's parent, in the order of the listing.
    pub siblings: Seq<Seq<char>>,
}

impl AncestorView {
    /// The ancestor's name, shortened against its siblings.
    pub open spec fn short_name(self) -> Seq<char> {
        shortest_unique_prefix(self.siblings, self.name)
    }
}

impl View for Ancestor {
    type V = AncestorView;

    open spec fn view(&self) -> AncestorView {
        AncestorView { name: self.name@, siblings: self.siblings.deep_view() }
    }
}

impl DeepView for Ancestor {
    type V = AncestorView;

    open spec fn deep_view(&self) -> AncestorView {
        self.view()
    }
}

/// The component that stands for the root of the file system.
pub open spec fn root_symbol() -> Seq<char> {
    seq!['/']
}

/// The component that stands for the home directory.
pub open spec fn home_marker() -> Seq<char> {
    seq!['~']
}

/// The character written between two components.
pub open spec fn separator() -> char {
    '/'
}

/// The names of the ancestors, outermost first. The walk met them nearest
/// first.
pub open spec fn ancestor_names(walk: Seq<AncestorView>) -> Seq<Seq<char>> {
    Seq::new(walk.len(), |i: int| walk[walk.len() - 1 - i].name)
}

/// The shortened names of the ancestors, outermost first.
pub open spec fn short_ancestor_names(walk: Seq<AncestorView>) -> Seq<Seq<char>> {
    Seq::new(walk.len(), |i: int| walk[walk.len() - 1 - i].short_name())
}

/// The components of the working directory named `leaf` below the ancestors
/// of `walk`: the root, the ancestors' names, and `leaf`.
pub open spec fn full_path(walk: Seq<AncestorView>, leaf: Seq<char>) -> Seq<Seq<char>> {
    seq![root_symbol()] + ancestor_names(walk) + seq![leaf]
}

/// The components of the shortened path: the root, every ancestor's shortened
/// name, and `leaf` in full.
pub open spec fn shortened_path(walk: Seq<AncestorView>, leaf: Seq<char>) -> Seq<Seq<char>> {
    seq![root_symbol()] + short_ancestor_names(walk) + seq![leaf]
}

/// Whether `path` lies under `home`: `home` has at least one component, and
/// its components are, one by one, the first components of `path`. Components
/// are compared whole, so `/home/al` does not hold `/home/alice`.
pub open spec fn lies_under(path: Seq<Seq<char>>, home: Seq<Seq<char>>) -> bool {
    home.len() > 0 && home.is_prefix_of(path)
}

/// `short` with its first `depth` components replaced by the home marker. The
/// components behind them stay as they are.
pub open spec fn home_relative(short: Seq<Seq<char>>, depth: nat) -> Seq<Seq<char>> {
    seq![home_marker()] + if depth <= short.len() {
        short.skip(depth as int)
    } else {
        Seq::empty()
    }
}

/// The shortened path of a working directory.
///
/// `leaf` is the working directory's own name, `None` where the working
/// directory is the root; nothing else is looked at then. `home` holds the
/// components of the home directory, `None` where none is known.
pub open spec fn short_path_of(
    walk: Seq<AncestorView>,
    leaf: Option<Seq<char>>,
    home: Option<Seq<Seq<char>>>,
) -> Seq<Seq<char>> {
    match leaf {
        None => seq![root_symbol()],
        Some(leaf) => match home {
            Some(home) if lies_under(full_path(walk, leaf), home) => home_relative(
                shortened_path(walk, leaf),
                home.len(),
            ),
            _ => shortened_path(walk, leaf),
        },
    }
}

/// `parts` with a separator between every two of them.
pub open spec fn joined(parts: Seq<Seq<char>>) -> Seq<char>
    decreases parts.len(),
{
    if parts.len() == 0 {
        Seq::empty()
    } else if parts.len() == 1 {
        parts[0]
    } else {
        joined(parts.drop_last()) + seq![separator()] + parts.last()
    }
}

/// The text of a path. Components are separated by `/`; a root at the front is
/// written directly before the component that follows it.
pub open spec fn rendered(parts: Seq<Seq<char>>) -> Seq<char> {
    if parts.len() > 0 && parts[0] == root_symbol() {
        root_symbol() + joined(parts.skip(1))
    } else {
        joined(parts)
    }
}

/// Components joined by separators begin with the first of them and end with
/// the last.
pub proof fn lemma_joined_ends(parts: Seq<Seq<char>>)
    requires
        parts.len() > 0,
    ensures
        parts.first().is_prefix_of(joined(parts)),
        parts.last().is_suffix_of(joined(parts)),
    decreases parts.len(),
{
    if parts.len() > 1 {
        let front = parts.drop_last();
        lemma_joined_ends(front);
        let text = joined(parts);
        assert(front.first() == parts.first());
        assert(parts.first() =~= text.subrange(0, parts.first().len() as int));
        assert(parts.last() =~= text.subrange(text.len() - parts.last().len(), text.len() as int));
    } else {
        assert(parts[0] =~= parts[0].subrange(0, parts[0].len() as int));
    }
}

/// The text of a path begins with its first component and ends with its last.
pub proof fn lemma_rendered_ends(parts: Seq<Seq<char>>)
    requires
        parts.len() > 0,
    ensures
        parts.first().is_prefix_of(rendered(parts)),
        parts.last().is_suffix_of(rendered(parts)),
{
    let text = rendered(parts);
    if parts[0] == root_symbol() {
        let rest = parts.skip(1);
        assert(root_symbol() =~= text.subrange(0, 1));
        if rest.len() > 0 {
            lemma_joined_ends(rest);
            assert(rest.last() == parts.last());
            assert(parts.last() =~= text.subrange(text.len() - parts.last().len(), text.len() as int));
        } else {
            assert(text =~= root_symbol());
            assert(parts.last() =~= text.subrange(0, text.len() as int));
        }
    } else {
        lemma_joined_ends(parts);
    }
}

/// Shortening changes what the components hold, never how many there are:
/// each component of the shortened path is a prefix of the component of the
/// full path at its place, and not empty unless that one is.
pub proof fn lemma_shortening_keeps_components(walk: Seq<AncestorView>, leaf: Seq<char>)
    ensures
        shortened_path(walk, leaf).len() == full_path(walk, leaf).len(),
        shortened_path(walk, leaf).len() == walk.len() + 2,
        forall|i: int|
            0 <= i < full_path(walk, leaf).len() ==> (#[trigger] shortened_path(
                walk,
                leaf,
            )[i]).is_prefix_of(full_path(walk, leaf)[i]),
        forall|i: int|
            0 <= i < full_path(walk, leaf).len() && full_path(walk, leaf)[i].len() > 0
                ==> (#[trigger] shortened_path(walk, leaf)[i]).len() > 0,
{
    let full = full_path(walk, leaf);
    let short = shortened_path(walk, leaf);
    assert forall|i: int| 0 <= i < full.len() implies (#[trigger] short[i]).is_prefix_of(full[i])
        && (full[i].len() > 0 ==> short[i].len() > 0) by {
        if 1 <= i <= walk.len() {
            let a = walk[walk.len() - i];
            lemma_shortest_unique_prefix(a.siblings, a.name);
            assert(short[i] == a.short_name());
            assert(full[i] == a.name);
        } else {
            assert(short[i] == full[i]);
        }
    }
}

/// The final component is never shortened: the shortened path ends with the
/// working directory's own name, and so does what is printed, unless the
/// working directory is the home directory itself.
pub proof fn lemma_leaf_in_full(
    walk: Seq<AncestorView>,
    leaf: Seq<char>,
    home: Option<Seq<Seq<char>>>,
)
    requires
        home is Some ==> home->0 != full_path(walk, leaf),
    ensures
        shortened_path(walk, leaf).last() == leaf,
        short_path_of(walk, Some(leaf), home).last() == leaf,
        leaf.is_suffix_of(rendered(short_path_of(walk, Some(leaf), home))),
{
    let full = full_path(walk, leaf);
    let short = shortened_path(walk, leaf);
    if home is Some && lies_under(full, home->0) {
        let h = home->0;
        if h.len() == full.len() {
            assert(h =~= full);
        }
        assert(short.skip(h.len() as int).last() == leaf);
    }
    lemma_rendered_ends(short_path_of(walk, Some(leaf), home));
}

/// The root has no name to shorten and no home to lie under: its shortened
/// path is the root symbol and nothing else.
pub proof fn lemma_root_alone(walk: Seq<AncestorView>, home: Option<Seq<Seq<char>>>)
    ensures
        short_path_of(walk, None, home) == seq![root_symbol()],
        rendered(short_path_of(walk, None, home)) == root_symbol(),
{
    let parts = seq![root_symbol()];
    assert(parts.skip(1) =~= Seq::<Seq<char>>::empty());
    assert(rendered(parts) =~= root_symbol());
}

/// A working directory under the home directory is shown from the home
/// marker on: the marker comes first, and behind it stand as many components
/// as the working directory lies below the home directory, each as the
/// shortened path has it.
pub proof fn lemma_home_replaced(walk: Seq<AncestorView>, leaf: Seq<char>, home: Seq<Seq<char>>)
    requires
        lies_under(full_path(walk, leaf), home),
    ensures
        short_path_of(walk, Some(leaf), Some(home))[0] == home_marker(),
        short_path_of(walk, Some(leaf), Some(home)).len() - 1 == full_path(walk, leaf).len()
            - home.len(),
        forall|i: int|
            1 <= i < short_path_of(walk, Some(leaf), Some(home)).len() ==> #[trigger] short_path_of(
                walk,
                Some(leaf),
                Some(home),
            )[i] == shortened_path(walk, leaf)[home.len() - 1 + i],
        home_marker().is_prefix_of(rendered(short_path_of(walk, Some(leaf), Some(home)))),
{
    lemma_rendered_ends(short_path_of(walk, Some(leaf), Some(home)));
}

/// Where no home directory is known, or the working directory does not lie
/// under it, the shortened path starts at the root.
pub proof fn lemma_outside_home(
    walk: Seq<AncestorView>,
    leaf: Seq<char>,
    home: Option<Seq<Seq<char>>>,
)
    requires
        home is Some ==> !lies_under(full_path(walk, leaf), home->0),
    ensures
        short_path_of(walk, Some(leaf), home) == shortened_path(walk, leaf),
        short_path_of(walk, Some(leaf), home)[0] == root_symbol(),
        root_symbol().is_prefix_of(rendered(short_path_of(walk, Some(leaf), home))),
{
    lemma_rendered_ends(short_path_of(walk, Some(leaf), home));
}

/// The root symbol.
pub fn root() -> (s: String)
    ensures
        s@ == root_symbol(),
{
    proof {
        reveal_strlit("/");
    }
    let s = "/".to_owned();
    assert(s@ =~= root_symbol());
    s
}

/// The home marker.
pub fn marker() -> (s: String)
    ensures
        s@ == home_marker(),
{
    proof {
        reveal_strlit("~");
    }
    let s = "~".to_owned();
    assert(s@ =~= home_marker());
    s
}

/// Shortens the name of every ancestor against its siblings. `walk` holds the
/// ancestors nearest first; the result holds them outermost first.
pub fn shorten_ancestors(walk: &[Ancestor]) -> (out: Vec<String>)
    ensures
        out.deep_view() == short_ancestor_names(walk.deep_view()),
{
    let ghost all = walk.deep_view();
    let n: usize = walk.len();
    let mut out: Vec<String> = Vec::new();
    let mut left: usize = n;
    while left > 0
        invariant
            left <= n,
            n == walk.len(),
            all == walk.deep_view(),
            out.len() == n - left,
            forall|i: int| 0 <= i < out.len() ==> out[i]@ == all[n - 1 - i].short_name(),
        decreases left,
    {
        left -= 1;
        let ancestor = &walk[left];
        let siblings = ancestor.siblings.as_slice();
        assert(siblings.deep_view() =~= ancestor.siblings.deep_view());
        let short = get_shortest(siblings, ancestor.name.as_str());
        assert(all[left as int] == ancestor@);
        out.push(short.to_owned());
    }
    assert(out.deep_view() =~= short_ancestor_names(all));
    out
}

/// The components of the working directory named `leaf` below the ancestors
/// of `walk`, outermost first.
pub fn full_components(walk: &[Ancestor], leaf: &str) -> (out: Vec<String>)
    ensures
        out.deep_view() == full_path(walk.deep_view(), leaf@),
{
    let ghost all = walk.deep_view();
    let n: usize = walk.len();
    let mut out: Vec<String> = Vec::new();
    out.push(root());
    let mut left: usize = n;
    while left > 0
        invariant
            left <= n,
            n == walk.len(),
            all == walk.deep_view(),
            out.len() == 1 + n - left,
            out[0]@ == root_symbol(),
            forall|i: int| 1 <= i < out.len() ==> out[i]@ == all[n - i].name,
        decreases left,
    {
        left -= 1;
        assert(all[left as int] == walk[left as int]@);
        out.push(walk[left].name.clone());
    }
    out.push(leaf.to_owned());
    assert(out.deep_view() =~= full_path(all, leaf@));
    out
}

/// The shortened path of the working directory named `leaf` below the
/// ancestors of `walk`: the root, the ancestors' shortened names from the
/// outermost to the nearest, and `leaf` in full.
pub fn shortened_components(walk: &[Ancestor], leaf: &str) -> (out: Vec<String>)
    ensures
        out.deep_view() == shortened_path(walk.deep_view(), leaf@),
{
    let mut out: Vec<String> = Vec::new();
    out.push(root());
    let mut names = shorten_ancestors(walk);
    let ghost shorts = names.deep_view();
    let ghost head = out.deep_view();
    out.append(&mut names);
    assert(out.deep_view() =~= head + shorts);
    let ghost front = out.deep_view();
    out.push(leaf.to_owned());
    assert(out.deep_view() =~= front.push(leaf@));
    assert(out.deep_view() =~= shortened_path(walk.deep_view(), leaf@));
    out
}

/// Whether the components of `lead` are, one by one, the first components of
/// `path`.
pub fn starts_with_components(path: &[String], lead: &[String]) -> (r: bool)
    ensures
        r == lead.deep_view().is_prefix_of(path.deep_view()),
{
    if lead.len() > path.len() {
        return false;
    }
    let mut i: usize = 0;
    while i < lead.len()
        invariant
            i <= lead.len() <= path.len(),
            forall|j: int| 0 <= j < i ==> lead[j]@ == path[j]@,
        decreases lead.len() - i,
    {
        if lead[i] != path[i] {
            assert(lead.deep_view()[i as int] != path.deep_view()[i as int]);
            return false;
        }
        i += 1;
    }
    assert(lead.deep_view() =~= path.deep_view().subrange(0, lead.len() as int));
    true
}

/// Replaces the first `depth` components of `short` by the home marker.
pub fn replace_home(short: &[String], depth: usize) -> (out: Vec<String>)
    ensures
        out.deep_view() == home_relative(short.deep_view(), depth as nat),
{
    let mut out: Vec<String> = Vec::new();
    out.push(marker());
    let mut i: usize = depth;
    while i < short.len()
        invariant
            depth <= i,
            depth <= short.len() ==> i <= short.len(),
            depth > short.len() ==> i == depth,
            out.len() == 1 + i - depth,
            out[0]@ == home_marker(),
            forall|j: int| 1 <= j < out.len() ==> out[j]@ == short[depth - 1 + j]@,
        decreases short.len() - i,
    {
        out.push(short[i].clone());
        i += 1;
    }
    proof {
        let kept = home_relative(short.deep_view(), depth as nat);
        assert(out.deep_view().len() == kept.len());
        assert forall|j: int| 0 <= j < kept.len() implies out.deep_view()[j] == kept[j] by {
            if j >= 1 {
                assert(short.deep_view()[depth - 1 + j] == short[depth - 1 + j]@);
            }
        }
        assert(out.deep_view() =~= kept);
    }
    out
}

/// Computes the shortened path of a working directory, as components from
/// the outermost to the working directory's own.
///
/// `walk` holds the directories above the working directory, nearest first,
/// each with the names beside it. `leaf` is the working directory's own name,
/// `None` where the working directory is the root: the result is then the root
/// symbol alone. `home` holds the components of the home directory, `None`
/// where none is known. Where the working directory lies under it, the marker
/// `~` stands for as many leading components as `home` has.
pub fn short_path(
    walk: &[Ancestor],
    leaf: Option<&str>,
    home: Option<&[String]>,
) -> (out: Vec<String>)
    ensures
        out.deep_view() == short_path_of(walk.deep_view(), leaf.deep_view(), home.deep_view()),
        leaf is None ==> out.deep_view() == seq![root_symbol()],
        leaf is Some ==> out.len() >= 1,
        leaf is Some && (home is Some ==> home->0.deep_view() != full_path(
            walk.deep_view(),
            leaf->0@,
        )) ==> out.deep_view().last() == leaf->0@,
        leaf is Some && home is Some && lies_under(
            full_path(walk.deep_view(), leaf->0@),
            home->0.deep_view(),
        ) ==> out[0]@ == home_marker() && out.len() - 1 == walk.len() + 2 - home->0.len(),
{
    let leaf = match leaf {
        None => {
            let mut out: Vec<String> = Vec::new();
            out.push(root());
            assert(out.deep_view() =~= seq![root_symbol()]);
            return out;
        },
        Some(leaf) => leaf,
    };
    proof {
        lemma_shortening_keeps_components(walk.deep_view(), leaf@);
        if home is Some ==> home->0.deep_view() != full_path(walk.deep_view(), leaf@) {
            lemma_leaf_in_full(walk.deep_view(), leaf@, home.deep_view());
        }
    }
    let short = shortened_components(walk, leaf);
    match home {
        Some(home) => {
            let full = full_components(walk, leaf);
            let full_parts = full.as_slice();
            assert(full_parts.deep_view() =~= full.deep_view());
            if home.len() > 0 && starts_with_components(full_parts, home) {
                let short_parts = short.as_slice();
                assert(short_parts.deep_view() =~= short.deep_view());
                proof {
                    lemma_home_replaced(walk.deep_view(), leaf@, home.deep_view());
                }
                replace_home(short_parts, home.len())
            } else {
                short
            }
        },
        None => short,
    }
}

/// Writes a path out as text: its components with `/` between them, a root at
/// the front directly before what follows it.
pub fn render(parts: &[String]) -> (text: String)
    ensures
        text@ == rendered(parts.deep_view()),
{
    let ghost all = parts.deep_view();
    let mut text = String::new();
    let mut start: usize = 0;
    if parts.len() > 0 && parts[0] == root() {
        text = root();
        start = 1;
    }
    let ghost lead = text@;
    proof {
        reveal_strlit("/");
        assert(all.subrange(start as int, start as int) =~= Seq::<Seq<char>>::empty());
    }
    let mut i: usize = start;
    while i < parts.len()
        invariant
            start <= i <= parts.len(),
            all == parts.deep_view(),
            "/"@ == seq![separator()],
            text@ == lead + joined(all.subrange(start as int, i as int)),
        decreases parts.len() - i,
    {
        let ghost before = all.subrange(start as int, i as int);
        let ghost after = all.subrange(start as int, i + 1);
        proof {
            assert(after.drop_last() =~= before);
            assert(after.last() == parts[i as int]@);
        }
        if i > start {
            text.append("/");
        }
        text.append(parts[i].as_str());
        assert(text@ =~= lead + joined(after));
        i += 1;
    }
    proof {
        assert(all.subrange(start as int, i as int) =~= all.skip(start as int));
        assert(all.skip(0) =~= all);
    }
    text
}

} // verus!
