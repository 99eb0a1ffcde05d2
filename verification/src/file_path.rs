//! File paths, which are compared by their components.
use std::path::Component;
use std::path::PathBuf;
use vstd::prelude::*;
use vstd::utf8;

verus! {

/// A component of a path. Names are kept as the bytes that the system has for them.
#[derive(Debug, PartialEq, Eq, PartialOrd, Ord, Hash)]
pub enum PathPart {
    /// A drive or a share.
    Prefix(Vec<u8>),
    /// The root of the file system, or of a drive.
    Root,
    /// `.`, where a path starts with it.
    Current,
    /// `..`
    Parent,
    /// A file or a directory.
    Normal(Vec<u8>),
}

/// What a [`PathPart`] stands for.
pub enum PartView {
    Prefix(Seq<u8>),
    Root,
    Current,
    Parent,
    Normal(Seq<u8>),
}

/// What a path is compared by: its components.
pub type PathView = Seq<PartView>;

impl View for PathPart {
    type V = PartView;

    open spec fn view(&self) -> PartView {
        match self {
            PathPart::Prefix(name) => PartView::Prefix(name@),
            PathPart::Root => PartView::Root,
            PathPart::Current => PartView::Current,
            PathPart::Parent => PartView::Parent,
            PathPart::Normal(name) => PartView::Normal(name@),
        }
    }
}

/// The components of a list.
pub open spec fn views(parts: Seq<PathPart>) -> PathView {
    Seq::new(parts.len(), |i: int| parts[i]@)
}

// ── Paths as text ────────────────────────────────────────────────────────────
/// The pieces of a text between its slashes.
pub open spec fn pieces(s: Seq<char>) -> Seq<Seq<char>>
    decreases s.len(),
{
    if s.len() == 0 {
        seq![seq![]]
    } else {
        let before = pieces(s.drop_last());
        if s.last() == '/' {
            before.push(seq![])
        } else {
            before.drop_last().push(before.last().push(s.last()))
        }
    }
}

/// The components that pieces make, in order. Empty pieces make none, and a `.`
/// makes one only where it is the first piece.
pub open spec fn components_of(all: Seq<Seq<char>>) -> PathView
    decreases all.len(),
{
    if all.len() == 0 {
        seq![]
    } else {
        let before = components_of(all.drop_last());
        let piece = all.last();
        if piece.len() == 0 {
            before
        } else if piece == seq!['.'] {
            if all.len() == 1 {
                before.push(PartView::Current)
            } else {
                before
            }
        } else if piece == seq!['.', '.'] {
            before.push(PartView::Parent)
        } else {
            before.push(PartView::Normal(utf8::encode_utf8(piece)))
        }
    }
}

/// The components of a path that is spelled with slashes.
pub open spec fn components(s: Seq<char>) -> PathView {
    if s.len() > 0 && s[0] == '/' {
        seq![PartView::Root] + components_of(pieces(s))
    } else {
        components_of(pieces(s))
    }
}

/// Every system reads a spelling alike: it has no backslash and no colon, and does
/// not start with two slashes.
pub open spec fn is_portable(s: Seq<char>) -> bool {
    &&& forall|i: int| 0 <= i < s.len() ==> #[trigger] s[i] != '\\' && s[i] != ':'
    &&& s.len() < 2 || s[0] != '/' || s[1] != '/'
}

// ── Paths of the system ──────────────────────────────────────────────────────
/// `std::path::PathBuf`, a path as the system writes it.
#[verifier::external_type_specification]
#[verifier::external_body]
pub struct ExPathBuf(PathBuf);

/// The text of a path, where it is Unicode.
pub uninterp spec fn path_text(path: PathBuf) -> Option<Seq<char>>;

/// A path as it is shown to the user.
pub uninterp spec fn path_shown(path: PathBuf) -> Seq<char>;

/// `std::path::PathBuf::from` on a text makes the path with that text.
#[verifier::external_body]
fn path_from_text(spelling: &str) -> (path: PathBuf)
    ensures
        path_text(path) == Some(spelling@),
{
    PathBuf::from(spelling)
}

/// `clone` of a `std::path::PathBuf` is the same path.
pub assume_specification[ <PathBuf as Clone>::clone ](path: &PathBuf) -> (copy: PathBuf)
    ensures
        copy == *path,
;

/// `std::path::Path::components` takes a path apart. How depends on the system;
/// where all systems read the text of a path alike, its components are those
/// between the slashes. Repeated and trailing slashes do not count, nor does a `.`
/// that is not at the start.
#[verifier::external_body]
fn path_parts(path: &PathBuf) -> (parts: Vec<PathPart>)
    ensures
        path_text(*path) matches Some(s) ==> (is_portable(s) ==> views(parts@) == components(s)),
{
    let part = |part: Component| match part {
        Component::Prefix(prefix) => PathPart::Prefix(format!("{:?}", prefix.kind()).into_bytes()),
        Component::RootDir => PathPart::Root,
        Component::CurDir => PathPart::Current,
        Component::ParentDir => PathPart::Parent,
        Component::Normal(name) => PathPart::Normal(name.as_encoded_bytes().to_vec()),
    };
    path.components().map(part).collect()
}

/// `std::path::Path::display`, written out: the text of the path, with stand-ins
/// for what is not Unicode.
#[verifier::external_body]
fn path_display(path: &PathBuf) -> (text: String)
    ensures
        text@ == path_shown(*path),
        path_text(*path) matches Some(s) ==> text@ == s,
{
    path.display().to_string()
}

/// The system, asked for the components of a path, gave these.
pub closed spec fn are_components_of(path: PathBuf, parts: PathView) -> bool {
    exists|answer: Vec<PathPart>| #[trigger]
        call_ensures(path_parts, (&path,), answer) && views(answer@) == parts
}

/// A path to a file. Two paths are the same if they have the same components,
/// however they are spelled.
#[derive(Debug, PartialEq, Eq, PartialOrd, Ord, Hash)]
pub struct FilePath {
    path: PathBuf,
    parts: Vec<PathPart>,
}

impl View for FilePath {
    type V = PathView;

    closed spec fn view(&self) -> PathView {
        views(self.parts@)
    }
}

impl Clone for PathPart {
    fn clone(&self) -> (copy: Self)
        ensures
            copy@ == self@,
    {
        match self {
            PathPart::Prefix(name) => PathPart::Prefix(copy_bytes(name)),
            PathPart::Root => PathPart::Root,
            PathPart::Current => PathPart::Current,
            PathPart::Parent => PathPart::Parent,
            PathPart::Normal(name) => PathPart::Normal(copy_bytes(name)),
        }
    }
}

/// A copy of some bytes.
fn copy_bytes(bytes: &Vec<u8>) -> (copy: Vec<u8>)
    ensures
        copy@ == bytes@,
{
    let copy = bytes.clone();
    assert(copy@ =~= bytes@);
    copy
}

/// Whether two runs of bytes are equal.
fn same_bytes(a: &Vec<u8>, b: &Vec<u8>) -> (r: bool)
    ensures
        r == (a@ == b@),
{
    if a.len() != b.len() {
        return false;
    }
    let mut i: usize = 0;
    while i < a.len()
        invariant
            i <= a@.len() == b@.len(),
            forall|k: int| 0 <= k < i ==> a@[k] == b@[k],
        decreases a@.len() - i,
    {
        if a[i] != b[i] {
            return false;
        }
        i = i + 1;
    }
    assert(a@ =~= b@);
    true
}

impl PathPart {
    /// Whether two components are the same.
    pub fn same(&self, other: &PathPart) -> (r: bool)
        ensures
            r == (self@ == other@),
    {
        match (self, other) {
            (PathPart::Prefix(a), PathPart::Prefix(b)) => same_bytes(a, b),
            (PathPart::Normal(a), PathPart::Normal(b)) => same_bytes(a, b),
            (PathPart::Root, PathPart::Root) => true,
            (PathPart::Current, PathPart::Current) => true,
            (PathPart::Parent, PathPart::Parent) => true,
            _ => false,
        }
    }
}

impl Clone for FilePath {
    fn clone(&self) -> (copy: Self)
        ensures
            copy@ == self@,
            copy.source() == self.source(),
    {
        let mut parts: Vec<PathPart> = Vec::with_capacity(self.parts.len());
        let mut i: usize = 0;
        while i < self.parts.len()
            invariant
                i <= self.parts@.len(),
                parts@.len() == i,
                forall|k: int| 0 <= k < i ==> (#[trigger] parts@[k])@ == self.parts@[k]@,
            decreases self.parts@.len() - i,
        {
            parts.push(self.parts[i].clone());
            i = i + 1;
        }
        assert(views(parts@) =~= views(self.parts@));
        FilePath { path: self.path.clone(), parts }
    }
}

/// Two paths are the same, and spelled the same.
pub open spec fn spelled_alike(a: FilePath, b: FilePath) -> bool {
    a@ == b@ && a.source() == b.source()
}

impl FilePath {
    /// The path as it is spelled.
    pub closed spec fn source(&self) -> PathBuf {
        self.path
    }

    /// The path that a text spells.
    pub fn new(spelling: &str) -> (path: FilePath)
        ensures
            path_text(path.source()) == Some(spelling@),
            are_components_of(path.source(), path@),
            is_portable(spelling@) ==> path@ == components(spelling@),
    {
        FilePath::from_path(path_from_text(spelling))
    }

    /// A path of the system.
    pub fn from_path(source: PathBuf) -> (path: FilePath)
        ensures
            path.source() == source,
            are_components_of(source, path@),
            path_text(source) matches Some(s) ==> (is_portable(s) ==> path@ == components(s)),
    {
        let parts = path_parts(&source);
        assert(are_components_of(source, views(parts@)));
        FilePath { path: source, parts }
    }

    /// The path of the system.
    pub fn as_path(&self) -> (path: &PathBuf)
        ensures
            *path == self.source(),
    {
        &self.path
    }

    /// The path as it is shown to the user: as it is spelled.
    pub fn display(&self) -> (text: String)
        ensures
            text@ == path_shown(self.source()),
            path_text(self.source()) matches Some(s) ==> text@ == s,
    {
        path_display(&self.path)
    }

    /// Whether two paths are the same.
    pub fn same(&self, other: &FilePath) -> (r: bool)
        ensures
            r == (self@ == other@),
    {
        if self.parts.len() != other.parts.len() {
            assert(self@.len() != other@.len());
            return false;
        }
        let mut i: usize = 0;
        while i < self.parts.len()
            invariant
                i <= self.parts@.len() == other.parts@.len(),
                forall|k: int| 0 <= k < i ==> (#[trigger] self.parts@[k])@ == other.parts@[k]@,
            decreases self.parts@.len() - i,
        {
            if !self.parts[i].same(&other.parts[i]) {
                assert(self@[i as int] != other@[i as int]);
                return false;
            }
            i = i + 1;
        }
        assert(self@ =~= other@);
        true
    }
}

// ── Laws ─────────────────────────────────────────────────────────────────────
proof fn lemma_pieces_after_separator(base: Seq<char>, name: Seq<char>)
    requires
        forall|i: int| 0 <= i < name.len() ==> name[i] != '/',
    ensures
        pieces(base).len() > 0,
        pieces(base.push('/') + name) == pieces(base).push(name),
    decreases base.len(), name.len(),
{
    if base.len() > 0 {
        lemma_pieces_after_separator(base.drop_last(), seq![]);
    }
    if name.len() == 0 {
        assert(base.push('/') + name =~= base.push('/'));
        assert(base.push('/').drop_last() =~= base);
        assert(name =~= seq![]);
    } else {
        let shorter = base.push('/') + name.drop_last();
        lemma_pieces_after_separator(base, name.drop_last());
        assert(base.push('/') + name =~= shorter.push(name.last()));
        assert((base.push('/') + name).drop_last() =~= shorter);
        assert(name.last() == name[name.len() - 1]);
        assert(pieces(shorter).drop_last() =~= pieces(base));
        assert(name.drop_last().push(name.last()) =~= name);
    }
}

proof fn lemma_pieces_of_one_name(name: Seq<char>)
    requires
        forall|i: int| 0 <= i < name.len() ==> name[i] != '/',
    ensures
        pieces(name) == seq![name],
    decreases name.len(),
{
    if name.len() == 0 {
        assert(name =~= seq![]);
    } else {
        lemma_pieces_of_one_name(name.drop_last());
        assert(name.last() == name[name.len() - 1]);
        assert(seq![name.drop_last()].drop_last() =~= seq![]);
        assert(name.drop_last().push(name.last()) =~= name);
        assert(pieces(name) =~= seq![name]);
    }
}

/// A path goes on behind a separator by one component, which is the name that
/// stands there; an empty name and a dot add none, and two dots lead to the parent.
pub proof fn law_path_goes_on_by_a_component(base: Seq<char>, name: Seq<char>)
    requires
        base.len() > 0,
        forall|i: int| 0 <= i < name.len() ==> name[i] != '/',
    ensures
        name.len() == 0 || name == seq!['.'] ==> components(base.push('/') + name) == components(
            base,
        ),
        name == seq!['.', '.'] ==> components(base.push('/') + name) == components(base).push(
            PartView::Parent,
        ),
        name.len() > 0 && name != seq!['.'] && name != seq!['.', '.'] ==> components(
            base.push('/') + name,
        ) == components(base).push(PartView::Normal(utf8::encode_utf8(name))),
{
    lemma_pieces_after_separator(base, name);
    assert(pieces(base).push(name).drop_last() =~= pieces(base));
    let start = seq![PartView::Root];
    let whole = base.push('/') + name;
    assert(whole[0] == base[0]);
    let before = components_of(pieces(base));
    let last = components_of(pieces(whole)).last();
    assert((start + before).push(last) =~= start + before.push(last));
}

/// A path starts at the root if it starts with a separator, and otherwise with its
/// first name; a dot in front of all is kept.
pub proof fn law_path_starts_with_its_first_name(name: Seq<char>)
    requires
        forall|i: int| 0 <= i < name.len() ==> name[i] != '/',
    ensures
        ({
            let relative = if name.len() == 0 {
                seq![]
            } else if name == seq!['.'] {
                seq![PartView::Current]
            } else if name == seq!['.', '.'] {
                seq![PartView::Parent]
            } else {
                seq![PartView::Normal(utf8::encode_utf8(name))]
            };
            &&& components(name) == relative
            &&& components(seq!['/'] + name) == if name == seq!['.'] {
                seq![PartView::Root]
            } else {
                seq![PartView::Root] + relative
            }
        }),
{
    lemma_pieces_of_one_name(name);
    lemma_pieces_after_separator(seq![], name);
    assert(seq![name].drop_last() =~= seq![]);
    let empty = Seq::<char>::empty();
    assert(empty.push('/') =~= seq!['/']);
    assert(pieces(empty) =~= seq![empty]);
    assert(seq![empty].push(name).drop_last() =~= seq![empty]);
    assert(seq![empty].drop_last() =~= seq![]);
    assert(seq![PartView::Root] + seq![] =~= seq![PartView::Root]);
    if name.len() > 0 {
        assert(name[0] != '/');
    }
    let none = Seq::<PartView>::empty();
    assert(components_of(seq![]) =~= none);
    assert(components_of(seq![empty]) =~= none);
    assert(pieces(seq!['/'] + name) =~= seq![empty].push(name));
    assert(seq![name].last() == name && seq![name].len() == 1);
    assert(none.push(PartView::Current) =~= seq![PartView::Current]);
    assert(none.push(PartView::Parent) =~= seq![PartView::Parent]);
    let normal = PartView::Normal(utf8::encode_utf8(name));
    assert(none.push(normal) =~= seq![normal]);
}

/// A spelling means the same on every system if it holds no backslash and no colon
/// and does not start with two separators.
pub proof fn law_portable_spellings(s: Seq<char>)
    ensures
        is_portable(s) <==> !s.contains('\\') && !s.contains(':') && !seq!['/', '/'].is_prefix_of(s),
{
    if s.len() >= 2 && s[0] == '/' && s[1] == '/' {
        assert(s.subrange(0, 2) =~= seq!['/', '/']);
    }
    if seq!['/', '/'].is_prefix_of(s) {
        assert(seq!['/', '/'][0] == s[0]);
        assert(seq!['/', '/'][1] == s[1]);
    }
}

/// Components are those that the system gave when it was asked about the path.
proof fn law_components_are_what_the_system_gave(path: PathBuf, parts: PathView)
    requires
        are_components_of(path, parts),
    ensures
        exists|answer: Vec<PathPart>| #[trigger]
            call_ensures(path_parts, (&path,), answer) && answer@.len() == parts.len() && forall|
                i: int,
            |
                0 <= i < parts.len() ==> (#[trigger] answer@[i])@ == parts[i],
{
}

} // verus!
