//! Local file paths as text, read component by component.
//!
//! A path is a piece of text whose components are separated by `/`. Empty
//! components are skipped, and so is `.` except at the very start of a relative
//! path. Two paths name the same place when their components are the same.

use vstd::prelude::*;

use crate::text;

verus! {

/// How a system reads paths.
#[derive(Debug, Clone, Copy, PartialEq, Eq, Structural)]
pub enum PathStyle {
    /// Components are separated by slashes.
    Unix,
    /// Components are separated by slashes or backslashes, and a path may start with
    /// the letter of a drive.
    Windows,
}

/// One component of a path.
#[derive(Debug, Clone)]
pub enum Component {
    /// The `/` that an absolute path starts with.
    RootDir,
    /// A `.` at the start of a relative path.
    CurDir,
    /// `..`.
    ParentDir,
    /// A name.
    Normal(String),
}

/// What a [`Component`] stands for.
#[verifier::ext_equal]
pub enum Part {
    /// The root directory.
    Root,
    /// The current directory.
    Current,
    /// The parent directory.
    Parent,
    /// A named entry.
    Name(Seq<char>),
}

impl View for Component {
    type V = Part;

    open spec fn view(&self) -> Part {
        match self {
            Component::RootDir => Part::Root,
            Component::CurDir => Part::Current,
            Component::ParentDir => Part::Parent,
            Component::Normal(name) => Part::Name(name@),
        }
    }
}

/// What a list of components stands for.
pub open spec fn components_view(components: Seq<Component>) -> Seq<Part> {
    components.map_values(|c: Component| c@)
}

/// The components that one piece between two slashes contributes. `first` says
/// whether it is the first piece of the path.
pub open spec fn piece_parts(piece: Seq<char>, first: bool) -> Seq<Part> {
    if piece.len() == 0 {
        Seq::empty()
    } else if piece == seq!['.'] {
        if first {
            seq![Part::Current]
        } else {
            Seq::empty()
        }
    } else if piece == seq!['.', '.'] {
        seq![Part::Parent]
    } else {
        seq![Part::Name(piece)]
    }
}

/// The components that the pieces of a path contribute.
pub open spec fn pieces_parts(pieces: Seq<Seq<char>>) -> Seq<Part>
    decreases pieces.len(),
{
    if pieces.len() == 0 {
        Seq::empty()
    } else {
        pieces_parts(pieces.drop_last()) + piece_parts(pieces.last(), pieces.len() == 1)
    }
}

/// Whether a path starts at the root directory.
pub open spec fn is_absolute(path: Seq<char>) -> bool {
    path.len() > 0 && path[0] == '/'
}

/// The components of a path.
pub open spec fn parts(path: Seq<char>) -> Seq<Part> {
    (if is_absolute(path) {
        seq![Part::Root]
    } else {
        Seq::empty()
    }) + pieces_parts(text::split(path, '/'))
}

/// A path with slashes in place of whatever else separates its components.
pub open spec fn slashed(path: Seq<char>, style: PathStyle) -> Seq<char> {
    match style {
        PathStyle::Unix => path,
        PathStyle::Windows => path.map_values(
            |c: char|
                if c == '\\' {
                    '/'
                } else {
                    c
                },
        ),
    }
}

/// Whether a path starts with the letter of a drive.
pub open spec fn has_drive(path: Seq<char>, style: PathStyle) -> bool {
    &&& style == PathStyle::Windows
    &&& path.len() >= 2
    &&& 'a' <= path[0] <= 'z' || 'A' <= path[0] <= 'Z'
    &&& path[1] == ':'
}

/// Whether a system reads a path as names only: no drive, no root directory, no `..`,
/// and no `.` at the start.
pub open spec fn is_names_only(path: Seq<char>, style: PathStyle) -> bool {
    &&& !has_drive(path, style)
    &&& forall|i: int|
        0 <= i < parts(slashed(path, style)).len() ==> #[trigger] parts(slashed(path, style))[i] is Name
}

/// The text of `path` after `tail` was pushed onto it: an absolute tail replaces
/// the path, any other is appended behind a single separator.
pub open spec fn pushed(path: Seq<char>, tail: Seq<char>) -> Seq<char> {
    if is_absolute(tail) {
        tail
    } else if path.len() == 0 || path.last() == '/' {
        path + tail
    } else {
        path.push('/') + tail
    }
}

/// A text that can be a single file name: not empty, not `.` or `..`, and without
/// a separator.
pub open spec fn is_plain_name(name: Seq<char>) -> bool {
    &&& name.len() > 0
    &&& name != seq!['.']
    &&& name != seq!['.', '.']
    &&& !name.contains('/')
}

/// Every component is a name, and there is at least one.
pub open spec fn is_nested(path: Seq<char>) -> bool {
    &&& parts(path).len() > 0
    &&& forall|i: int| 0 <= i < parts(path).len() ==> #[trigger] parts(path)[i] is Name
}

/// A path on the local file system.
#[derive(Debug, Clone)]
pub struct LocalPath {
    /// The path as written.
    text: String,
}

impl View for LocalPath {
    type V = Seq<char>;

    closed spec fn view(&self) -> Seq<char> {
        self.text@
    }
}

impl LocalPath {
    /// The path written as `text`.
    pub fn from_text(text: &str) -> (path: LocalPath)
        ensures
            path@ == text@,
    {
        LocalPath { text: text.to_owned() }
    }

    /// The path as written.
    pub fn as_str(&self) -> (text: &str)
        ensures
            text@ == self@,
    {
        self.text.as_str()
    }

    /// A copy of the path.
    pub fn duplicate(&self) -> (path: LocalPath)
        ensures
            path@ == self@,
    {
        LocalPath { text: self.text.clone() }
    }

    /// Whether nothing is written.
    pub fn is_empty(&self) -> (empty: bool)
        ensures
            empty == (self@.len() == 0),
    {
        self.text.as_str().is_empty()
    }

    /// Appends `tail` as further components.
    pub fn push(&mut self, tail: &str)
        ensures
            final(self)@ == pushed(old(self)@, tail@),
    {
        if starts_with_slash(tail) {
            self.text = tail.to_owned();
        } else {
            let chars = text::chars_of(self.text.as_str());
            if chars.len() > 0 && chars[chars.len() - 1] != '/' {
                self.text.push('/');
            }
            self.text.append(tail);
        }
    }

    /// The path with `tail` appended.
    pub fn join(&self, tail: &LocalPath) -> (path: LocalPath)
        ensures
            path@ == pushed(self@, tail@),
    {
        let mut path = self.duplicate();
        path.push(tail.as_str());
        path
    }

    /// Whether a system reads the path as names only.
    pub fn is_names_only(&self, style: PathStyle) -> (names: bool)
        ensures
            names == is_names_only(self@, style),
    {
        let chars = text::chars_of(self.text.as_str());
        match style {
            PathStyle::Unix => {
                self.all_names()
            },
            PathStyle::Windows => {
                if chars.len() >= 2 && (('a' <= chars[0] && chars[0] <= 'z') || ('A' <= chars[0]
                    && chars[0] <= 'Z')) && chars[1] == ':' {
                    return false;
                }
                let mut text = String::new();
                let mut i: usize = 0;
                let ghost whole = slashed(self@, style);
                assert(text@ =~= whole.take(0));
                while i < chars.len()
                    invariant
                        i <= chars.len(),
                        chars@ == self@,
                        style == PathStyle::Windows,
                        whole == slashed(self@, style),
                        text@ == whole.take(i as int),
                    decreases chars.len() - i,
                {
                    let c: char = if chars[i] == '\\' {
                        '/'
                    } else {
                        chars[i]
                    };
                    assert(whole.take(i + 1) =~= whole.take(i as int).push(c));
                    text.push(c);
                    i += 1;
                }
                assert(whole.take(i as int) =~= whole);
                LocalPath { text }.all_names()
            },
        }
    }

    fn all_names(&self) -> (names: bool)
        ensures
            names == (forall|i: int|
                0 <= i < parts(self@).len() ==> #[trigger] parts(self@)[i] is Name),
    {
        let components = self.components();
        let ghost all = parts(self@);
        let mut i: usize = 0;
        while i < components.len()
            invariant
                i <= components.len(),
                all == parts(self@),
                components_view(components@) == all,
                forall|j: int| 0 <= j < i ==> #[trigger] all[j] is Name,
            decreases components.len() - i,
        {
            assert(all[i as int] == components@[i as int]@);
            match &components[i] {
                Component::Normal(_) => {},
                _ => {
                    assert(!(parts(self@)[i as int] is Name));
                    return false;
                },
            }
            i += 1;
        }
        true
    }

    /// The components, in order.
    pub fn components(&self) -> (components: Vec<Component>)
        ensures
            components_view(components@) == parts(self@),
    {
        let pieces = text::split_text(self.text.as_str(), '/');
        let ghost texts = text::texts(pieces@);
        let mut components: Vec<Component> = Vec::new();
        if starts_with_slash(self.text.as_str()) {
            components.push(Component::RootDir);
        }
        let ghost head = components_view(components@);
        let mut i: usize = 0;
        assert(pieces_parts(texts.take(0)) =~= Seq::<Part>::empty());
        while i < pieces.len()
            invariant
                i <= pieces.len(),
                texts == text::texts(pieces@),
                components_view(components@) == head + pieces_parts(texts.take(i as int)),
            decreases pieces.len() - i,
        {
            let piece = &pieces[i];
            let ghost before = components@;
            proof {
                assert(texts.take(i + 1).drop_last() =~= texts.take(i as int));
                assert(texts[i as int] == piece@);
                reveal_strlit(".");
                reveal_strlit("..");
                assert("."@ =~= seq!['.']);
                assert(".."@ =~= seq!['.', '.']);
            }
            if !piece.as_str().is_empty() {
                if text::same_text(piece.as_str(), ".") {
                    if i == 0 {
                        components.push(Component::CurDir);
                    }
                } else if text::same_text(piece.as_str(), "..") {
                    components.push(Component::ParentDir);
                } else {
                    components.push(Component::Normal(piece.clone()));
                }
            }
            assert(components_view(components@) =~= components_view(before) + piece_parts(
                piece@,
                i == 0,
            ));
            i += 1;
        }
        assert(texts.take(texts.len() as int) =~= texts);
        assert(head =~= (if is_absolute(self@) {
            seq![Part::Root]
        } else {
            Seq::empty()
        }));
        components
    }
}

fn starts_with_slash(text: &str) -> (out: bool)
    ensures
        out == is_absolute(text@),
{
    let chars = text::chars_of(text);
    chars.len() > 0 && chars[0] == '/'
}

/// A piece that is a plain name contributes itself.
pub proof fn lemma_plain_pieces(names: Seq<Seq<char>>)
    requires
        forall|i: int| 0 <= i < names.len() ==> is_plain_name(#[trigger] names[i]),
    ensures
        pieces_parts(names) == names.map_values(|name: Seq<char>| Part::Name(name)),
    decreases names.len(),
{
    if names.len() > 0 {
        lemma_plain_pieces(names.drop_last());
        let f = |name: Seq<char>| Part::Name(name);
        assert(names.last() == names[names.len() - 1]);
        assert(names.map_values(f) =~= names.drop_last().map_values(f).push(
            Part::Name(names.last()),
        ));
        assert(names.drop_last().map_values(f) + seq![Part::Name(names.last())]
            =~= names.drop_last().map_values(f).push(Part::Name(names.last())));
    } else {
        assert(names.map_values(|name: Seq<char>| Part::Name(name)) =~= Seq::<Part>::empty());
    }
}

/// The first character of joined pieces is the first of the first piece.
pub proof fn lemma_join_starts(pieces: Seq<Seq<char>>, separator: char)
    requires
        pieces.len() > 0,
        pieces[0].len() > 0,
    ensures
        text::join(pieces, separator).len() > 0,
        text::join(pieces, separator)[0] == pieces[0][0],
    decreases pieces.len(),
{
    if pieces.len() > 1 {
        lemma_join_starts(pieces.drop_last(), separator);
    }
}

/// Plain names joined by slashes are a path with exactly these components.
pub proof fn law_joined_names_are_components(names: Seq<Seq<char>>)
    requires
        names.len() > 0,
        forall|i: int| 0 <= i < names.len() ==> is_plain_name(#[trigger] names[i]),
    ensures
        parts(text::join(names, '/')) == names.map_values(|name: Seq<char>| Part::Name(name)),
        is_nested(text::join(names, '/')),
        !is_absolute(text::join(names, '/')),
{
    let path = text::join(names, '/');
    text::lemma_split_join(names, '/');
    lemma_plain_pieces(names);
    lemma_join_starts(names, '/');
    assert(is_plain_name(names[0]));
    assert(path[0] == names[0][0]);
    if path[0] == '/' {
        assert(names[0].contains(names[0][0]));
    }
    let named = names.map_values(|name: Seq<char>| Part::Name(name));
    assert(parts(path) =~= named);
    assert forall|i: int| 0 <= i < parts(path).len() implies #[trigger] parts(path)[i] is Name by {
        assert(named[i] is Name);
    }
}

/// The last character of joined pieces is the last of the last piece.
pub proof fn lemma_join_ends(pieces: Seq<Seq<char>>, separator: char)
    requires
        pieces.len() > 0,
        pieces.last().len() > 0,
    ensures
        text::join(pieces, separator).len() > 0,
        text::join(pieces, separator).last() == pieces.last().last(),
{
}

/// Pushing one more plain name onto joined names joins it too.
pub proof fn lemma_push_name(names: Seq<Seq<char>>, name: Seq<char>)
    requires
        forall|i: int| 0 <= i < names.len() ==> is_plain_name(#[trigger] names[i]),
        is_plain_name(name),
    ensures
        pushed(text::join(names, '/'), name) == text::join(names.push(name), '/'),
{
    assert(names.push(name).drop_last() =~= names);
    assert(name.contains(name[0]));
    if names.len() > 0 {
        let last = names[names.len() - 1];
        assert(is_plain_name(last));
        lemma_join_ends(names, '/');
        assert(last.contains(last.last()));
    } else {
        assert(text::join(names, '/') + name =~= name);
    }
}

/// Splitting what was joined by a separator splits both sides.
pub proof fn lemma_split_both(a: Seq<char>, b: Seq<char>, separator: char)
    ensures
        text::split(a.push(separator) + b, separator) == text::split(a, separator) + text::split(
            b,
            separator,
        ),
    decreases b.len(),
{
    let whole = a.push(separator) + b;
    if b.len() == 0 {
        assert(whole =~= a.push(separator));
        text::lemma_split_separator(a, separator);
        assert(text::split(a, separator).push(Seq::empty()) =~= text::split(a, separator) + seq![
            Seq::empty(),
        ]);
    } else {
        lemma_split_both(a, b.drop_last(), separator);
        text::lemma_split_nonempty(b.drop_last(), separator);
        assert(whole.drop_last() =~= a.push(separator) + b.drop_last());
        let left = text::split(a, separator);
        let right = text::split(b.drop_last(), separator);
        let before = left + right;
        assert(before.last() == right.last());
        if b.last() == separator {
            assert(before.push(Seq::empty()) =~= left + right.push(Seq::empty()));
        } else {
            assert(before.drop_last().push(before.last().push(b.last())) =~= left
                + right.drop_last().push(right.last().push(b.last())));
        }
    }
}

/// Pieces that follow others contribute the same components, unless the first of
/// them is a dot.
pub proof fn lemma_pieces_follow(left: Seq<Seq<char>>, right: Seq<Seq<char>>)
    requires
        left.len() > 0,
        right.len() > 0 ==> right[0] != seq!['.'],
    ensures
        pieces_parts(left + right) == pieces_parts(left) + pieces_parts(right),
    decreases right.len(),
{
    if right.len() == 0 {
        assert(left + right =~= left);
        assert(pieces_parts(left) + pieces_parts(right) =~= pieces_parts(left));
    } else {
        lemma_pieces_follow(left, right.drop_last());
        assert((left + right).drop_last() =~= left + right.drop_last());
        assert((left + right).last() == right.last());
        assert(pieces_parts(left) + pieces_parts(right.drop_last()) + piece_parts(
            right.last(),
            right.len() == 1,
        ) =~= pieces_parts(left) + pieces_parts(right));
    }
}

/// The first component of a path that starts with a dot is not a name.
proof fn lemma_leading_dot(pieces: Seq<Seq<char>>)
    requires
        pieces.len() > 0,
        pieces[0] == seq!['.'],
    ensures
        pieces_parts(pieces).len() > 0,
        pieces_parts(pieces)[0] == Part::Current,
    decreases pieces.len(),
{
    if pieces.len() > 1 {
        lemma_leading_dot(pieces.drop_last());
    } else {
        assert(pieces_parts(pieces.drop_last()) =~= Seq::<Part>::empty());
        assert(pieces_parts(pieces) =~= seq![Part::Current]);
    }
}

/// A nested path pushed onto a directory names an entry below that directory: its
/// components are those of the directory, followed by the names of the nested path.
pub proof fn law_nested_stays_inside(root: Seq<char>, relative: Seq<char>)
    requires
        is_nested(relative),
    ensures
        parts(pushed(root, relative)) == parts(root) + parts(relative),
{
    let pieces = text::split(relative, '/');
    text::lemma_split_nonempty(relative, '/');
    assert(parts(relative)[0] is Name);
    assert(!is_absolute(relative));
    assert(parts(relative) =~= pieces_parts(pieces));
    if pieces[0] == seq!['.'] {
        lemma_leading_dot(pieces);
    }
    if relative.len() == 0 {
        assert(pieces_parts(pieces) =~= Seq::<Part>::empty()) by {
            assert(pieces.drop_last() =~= Seq::<Seq<char>>::empty());
            assert(pieces_parts(pieces.drop_last()) =~= Seq::<Part>::empty());
        }
    }
    if root.len() == 0 {
        assert(root + relative =~= relative);
        let empty = text::split(root, '/');
        assert(empty.drop_last() =~= Seq::<Seq<char>>::empty());
        assert(pieces_parts(empty.drop_last()) =~= Seq::<Part>::empty());
        assert(parts(root) =~= Seq::<Part>::empty());
        assert(parts(root) + parts(relative) =~= parts(relative));
    } else {
        let stem = if root.last() == '/' {
            root.drop_last()
        } else {
            root
        };
        let above = text::split(stem, '/');
        let whole = pushed(root, relative);
        text::lemma_split_nonempty(stem, '/');
        lemma_split_both(stem, relative, '/');
        lemma_pieces_follow(above, pieces);
        if root.last() == '/' {
            assert(stem.push('/') =~= root);
            text::lemma_split_separator(stem, '/');
            assert(text::split(root, '/').drop_last() =~= above);
            assert(pieces_parts(above) + Seq::<Part>::empty() =~= pieces_parts(above));
        }
        assert(whole == stem.push('/') + relative);
        assert(is_absolute(whole) == is_absolute(root));
        assert(parts(whole) =~= parts(root) + parts(relative));
    }
}

proof fn lemma_names_free_of_slash(pieces: Seq<Seq<char>>)
    requires
        forall|i: int| 0 <= i < pieces.len() ==> !(#[trigger] pieces[i]).contains('/'),
    ensures
        forall|i: int|
            0 <= i < pieces_parts(pieces).len() ==> (#[trigger] pieces_parts(
                pieces,
            )[i] matches Part::Name(name) ==> !name.contains('/')),
    decreases pieces.len(),
{
    if pieces.len() > 0 {
        lemma_names_free_of_slash(pieces.drop_last());
        assert(!pieces[pieces.len() - 1].contains('/'));
    }
}

/// No name among the components of a path holds a separator.
pub proof fn lemma_components_free_of_slash(path: Seq<char>)
    ensures
        forall|i: int|
            0 <= i < parts(path).len() ==> (#[trigger] parts(path)[i] matches Part::Name(name)
                ==> !name.contains('/')),
{
    text::lemma_pieces_free_of_separator(path, '/');
    let pieces = text::split(path, '/');
    lemma_names_free_of_slash(pieces);
    let head = if is_absolute(path) {
        seq![Part::Root]
    } else {
        Seq::empty()
    };
    assert forall|i: int| 0 <= i < parts(path).len() implies (#[trigger] parts(
        path,
    )[i] matches Part::Name(name) ==> !name.contains('/')) by {
        if i >= head.len() {
            assert(parts(path)[i] == pieces_parts(pieces)[i - head.len()]);
        }
    }
}

/// A slash at the end adds no component.
pub proof fn lemma_trailing_slash(path: Seq<char>)
    requires
        path.len() > 0,
    ensures
        parts(path.push('/')) == parts(path),
{
    text::lemma_split_separator(path, '/');
    text::lemma_split_nonempty(path, '/');
    let pieces = text::split(path, '/');
    assert(pieces.push(Seq::empty()).drop_last() =~= pieces);
    assert(pieces_parts(pieces) + Seq::<Part>::empty() =~= pieces_parts(pieces));
}

/// The components of a path whose file name got a suffix: the suffix is a file name
/// of its own where the path does not end in a name.
pub open spec fn suffixed_parts(parts: Seq<Part>, suffix: Seq<char>) -> Seq<Part> {
    match parts.last() {
        Part::Name(name) if parts.len() > 0 => parts.drop_last().push(Part::Name(name + suffix)),
        _ => parts.push(Part::Name(suffix)),
    }
}

/// Whether a piece of a path contributes a component.
pub open spec fn contributes(piece: Seq<char>, first: bool) -> bool {
    piece_parts(piece, first).len() > 0
}

/// The last `n` pieces contribute nothing, so they can be left out.
proof fn lemma_silent_tail(pieces: Seq<Seq<char>>, n: int)
    requires
        0 < n <= pieces.len(),
        forall|i: int| n <= i < pieces.len() ==> !contributes(#[trigger] pieces[i], false),
    ensures
        pieces_parts(pieces) == pieces_parts(pieces.take(n)),
    decreases pieces.len(),
{
    if n < pieces.len() {
        let front = pieces.drop_last();
        assert(!contributes(pieces[pieces.len() - 1], false));
        assert forall|i: int| n <= i < front.len() implies !contributes(
            #[trigger] front[i],
            false,
        ) by {
            assert(!contributes(pieces[i], false));
        }
        lemma_silent_tail(front, n);
        assert(front.take(n) =~= pieces.take(n));
        assert(pieces_parts(front) + Seq::<Part>::empty() =~= pieces_parts(front));
    } else {
        assert(pieces.take(n) =~= pieces);
    }
}

/// A path is absolute exactly when its first piece is empty and not the only one.
proof fn lemma_absolute(path: Seq<char>)
    ensures
        is_absolute(path) <==> {
            &&& text::split(path, '/').len() > 1
            &&& text::split(path, '/')[0].len() == 0
        },
        text::split(path, '/').len() == 1 ==> text::split(path, '/')[0] == path,
    decreases path.len(),
{
    if path.len() > 0 {
        let front = path.drop_last();
        let before = text::split(front, '/');
        lemma_absolute(front);
        text::lemma_split_nonempty(front, '/');
        assert(path =~= front.push(path.last()));
        if front.len() > 0 {
            assert(front[0] == path[0]);
        } else {
            assert(before =~= seq![Seq::<char>::empty()]);
        }
    }
}

/// The path with a suffix behind its file name.
pub fn with_suffix(path: &LocalPath, suffix: &str) -> (out: LocalPath)
    requires
        is_plain_name(suffix@),
    ensures
        parts(out@) == suffixed_parts(parts(path@), suffix@),
{
    let pieces = text::split_text(path.as_str(), '/');
    let ghost texts = text::split(path@, '/');
    proof {
        text::lemma_split_nonempty(path@, '/');
        text::lemma_pieces_free_of_separator(path@, '/');
        lemma_absolute(path@);
        reveal_strlit(".");
        reveal_strlit("..");
        assert("."@ =~= seq!['.']);
        assert(".."@ =~= seq!['.', '.']);
        assert(texts.len() == pieces@.len());
    }
    // Pieces at the end that name nothing are left out.
    let mut n: usize = pieces.len();
    while n > 1 && (pieces[n - 1].as_str().is_empty() || text::same_text(
        pieces[n - 1].as_str(),
        ".",
    ))
        invariant
            0 < n <= pieces.len(),
            texts == text::texts(pieces@),
            "."@ == seq!['.'],
            forall|i: int| n <= i < texts.len() ==> !contributes(#[trigger] texts[i], false),
        decreases n,
    {
        assert(texts[n - 1] == pieces@[n - 1]@);
        n -= 1;
    }
    let last = pieces[n - 1].as_str();
    assert(texts[n - 1] == last@);
    let ghost kept = texts.take(n as int);
    proof {
        lemma_silent_tail(texts, n as int);
        assert(kept.last() == last@);
        assert(kept.drop_last() =~= texts.take(n - 1));
    }
    let named = !last.is_empty() && !text::same_text(last, ".") && !text::same_text(last, "..");
    if !named {
        let mut out = path.duplicate();
        out.push(suffix);
        proof {
            law_joined_names_are_components(seq![suffix@]);
            law_nested_stays_inside(path@, suffix@);
            assert(parts(suffix@) =~= seq![Part::Name(suffix@)]);
            let head = pieces_parts(kept.drop_last());
            let own = piece_parts(last@, n == 1);
            assert(parts(path@).len() == 0 || !(parts(path@).last() is Name)) by {
                if n == 1 {
                    assert(kept.drop_last() =~= Seq::<Seq<char>>::empty());
                    assert(head =~= Seq::<Part>::empty());
                }
                assert(pieces_parts(texts) == head + own);
                if own.len() > 0 {
                    assert(parts(path@).last() == own.last());
                } else {
                    assert(n == 1);
                    assert(pieces_parts(texts) =~= Seq::<Part>::empty());
                }
            }
            assert(parts(path@) + seq![Part::Name(suffix@)] =~= parts(path@).push(
                Part::Name(suffix@),
            ));
        }
        return out;
    }
    let mut whole = pieces[0].clone();
    let mut i: usize = 1;
    assert(texts[0] == pieces@[0]@);
    assert(text::join(texts.take(1), '/') =~= texts[0]);
    while i < n
        invariant
            1 <= i <= n <= pieces.len(),
            texts == text::texts(pieces@),
            whole@ == text::join(texts.take(i as int), '/'),
        decreases n - i,
    {
        proof {
            assert(texts[i as int] == pieces@[i as int]@);
            assert(texts.take(i + 1).drop_last() =~= texts.take(i as int));
        }
        whole.push('/');
        whole.append(pieces[i].as_str());
        i += 1;
    }
    let ghost stem = whole@;
    whole.append(suffix);
    proof {
        let renamed = kept.drop_last().push(last@ + suffix@);
        assert forall|j: int| 0 <= j < kept.len() implies !(#[trigger] kept[j]).contains('/') by {
            assert(kept[j] == texts[j]);
        }
        text::lemma_split_join(kept, '/');
        text::lemma_split_append(stem, suffix@, '/');
        assert(text::split(whole@, '/') == renamed);
        let name = last@ + suffix@;
        assert(name.len() > 0 && name != seq!['.'] && name != seq!['.', '.']) by {
            lemma_longer_name(last@, suffix@);
        }
        assert(renamed.drop_last() =~= kept.drop_last());
        let head = pieces_parts(kept.drop_last());
        assert(pieces_parts(renamed) =~= head.push(Part::Name(name)));
        assert(pieces_parts(kept) =~= head.push(Part::Name(last@)));
        lemma_absolute(whole@);
        assert(is_absolute(whole@) == is_absolute(path@)) by {
            if n > 1 {
                assert(renamed[0] == texts[0]);
            } else {
                assert(renamed[0] == name);
                assert(texts[0] == last@);
            }
        }
        assert(parts(whole@) =~= suffixed_parts(parts(path@), suffix@));
    }
    LocalPath { text: whole }
}

/// A plain name does not become a dot by growing.
proof fn lemma_longer_name(name: Seq<char>, suffix: Seq<char>)
    requires
        name.len() > 0,
        name != seq!['.'],
        name != seq!['.', '.'],
        suffix.len() > 0,
    ensures
        name + suffix != seq!['.'],
        name + suffix != seq!['.', '.'],
{
    let longer = name + suffix;
    assert(longer.len() == name.len() + suffix.len());
    assert(seq!['.'].len() == 1 && seq!['.', '.'].len() == 2);
    if longer == seq!['.', '.'] {
        assert(name.len() == 1);
        assert(name[0] == longer[0]);
        assert(name =~= seq!['.']);
    }
}

/// Paths are read piece by piece. What is added behind a slash adds a component of its
/// own: the parent directory for `..`, nothing for `.` or nothing, and a name for
/// anything else. Only at the start does `.` count, and a slash stands for the root.
pub proof fn law_components_are_read_in_turn(front: Seq<char>, piece: Seq<char>)
    requires
        !piece.contains('/'),
    ensures
        ({
            let silent = piece.len() == 0 || piece.len() == 1 && piece[0] == '.';
            let up = piece.len() == 2 && piece[0] == '.' && piece[1] == '.';
            let added = if silent {
                Seq::empty()
            } else if up {
                seq![Part::Parent]
            } else {
                seq![Part::Name(piece)]
            };
            let path = front + seq!['/'] + piece;
            &&& front.len() > 0 ==> parts(path) == parts(front) + added
            &&& front.len() == 0 ==> parts(path) == seq![Part::Root] + added
            &&& parts(piece) == (if piece.len() == 1 && piece[0] == '.' {
                seq![Part::Current]
            } else {
                added
            })
        }),
{
    let path = front + seq!['/'] + piece;
    if piece.len() == 1 && piece[0] == '.' {
        assert(piece =~= seq!['.']);
    }
    if piece.len() == 2 && piece[0] == '.' && piece[1] == '.' {
        assert(piece =~= seq!['.', '.']);
    }
    text::law_split_cuts_at_separators(piece, Seq::empty(), '/');
    assert(seq![piece].drop_last() =~= Seq::<Seq<char>>::empty());
    assert(pieces_parts(seq![piece].drop_last()) =~= Seq::<Part>::empty());
    if piece.len() > 0 {
        assert(piece.contains(piece[0]));
    }
    assert(parts(piece) =~= piece_parts(piece, true));
    let head = front.push('/');
    assert(path =~= head + piece);
    text::lemma_split_separator(front, '/');
    text::lemma_split_behind(head, piece, '/');
    text::lemma_split_nonempty(front, '/');
    let before = text::split(front, '/');
    assert(text::split(head, '/').drop_last() =~= before);
    let all = text::split(path, '/');
    assert(all =~= before.push(piece));
    assert(all.drop_last() =~= before);
    if front.len() > 0 {
        assert(path[0] == front[0]);
        assert(parts(path) =~= parts(front) + piece_parts(piece, false));
    } else {
        let empty = Seq::<Seq<char>>::empty();
        assert(before =~= seq![Seq::<char>::empty()]);
        assert(before.drop_last() =~= empty);
        assert(pieces_parts(before.drop_last()) =~= Seq::<Part>::empty());
        assert(pieces_parts(before) =~= Seq::<Part>::empty());
        assert(parts(path) =~= seq![Part::Root] + piece_parts(piece, false));
    }
}

/// On Windows a backslash separates like a slash, and no other character changes;
/// elsewhere none does.
pub proof fn law_backslashes_separate_on_windows(path: Seq<char>, i: int)
    requires
        0 <= i < path.len(),
    ensures
        slashed(path, PathStyle::Unix) == path,
        slashed(path, PathStyle::Windows).len() == path.len(),
        slashed(path, PathStyle::Windows)[i] == '/' <==> path[i] == '/' || path[i] == '\\',
        path[i] != '\\' ==> slashed(path, PathStyle::Windows)[i] == path[i],
{
}

proof fn lemma_named_pieces(pieces: Seq<Seq<char>>)
    ensures
        (forall|i: int|
            0 <= i < pieces_parts(pieces).len() ==> #[trigger] pieces_parts(pieces)[i] is Name)
            <==> (forall|i: int|
            0 <= i < pieces.len() ==> #[trigger] pieces[i] != seq!['.', '.'] && !(i == 0
                && pieces[i] == seq!['.'])),
    decreases pieces.len(),
{
    if pieces.len() > 0 {
        let front = pieces.drop_last();
        let last = pieces.last();
        let first = pieces.len() == 1;
        lemma_named_pieces(front);
        let before = pieces_parts(front);
        let own = piece_parts(last, first);
        let all = pieces_parts(pieces);
        assert(all == before + own);
        let dots = seq!['.', '.'];
        let dot = seq!['.'];
        assert(dots[0] == '.' && dots.len() == 2 && dot.len() == 1);
        if forall|i: int| 0 <= i < all.len() ==> #[trigger] all[i] is Name {
            assert forall|i: int| 0 <= i < before.len() implies #[trigger] before[i] is Name by {
                assert(all[i] is Name);
            }
            assert forall|i: int| 0 <= i < pieces.len() implies #[trigger] pieces[i] != dots && !(i
                == 0 && pieces[i] == dot) by {
                if i < front.len() {
                    assert(pieces[i] == front[i]);
                } else if own.len() > 0 {
                    assert(all[before.len() as int] == own[0]);
                }
            }
        }
        if forall|i: int|
            0 <= i < pieces.len() ==> #[trigger] pieces[i] != dots && !(i == 0 && pieces[i] == dot) {
            assert forall|i: int| 0 <= i < front.len() implies #[trigger] front[i] != dots && !(i
                == 0 && front[i] == dot) by {
                assert(pieces[i] == front[i]);
            }
            assert(pieces[pieces.len() - 1] == last);
            assert forall|i: int| 0 <= i < all.len() implies #[trigger] all[i] is Name by {
                if i < before.len() {
                    assert(all[i] == before[i]);
                } else {
                    assert(all[i] == own[i - before.len()]);
                }
            }
        }
    }
}

/// Which paths are refused: those that start with a separator or, on Windows, with a
/// letter and a colon, those with a `..` between two separators, and those that start
/// with a `.` of its own. All others are made of names only.
pub proof fn law_only_names_are_accepted(path: Seq<char>, style: PathStyle)
    ensures
        ({
            let pieces = text::split(slashed(path, style), '/');
            let letter = 'a' <= path[0] <= 'z' || 'A' <= path[0] <= 'Z';
            let drive = style == PathStyle::Windows && path.len() >= 2 && letter && path[1] == ':';
            let rooted = path.len() > 0 && (path[0] == '/' || style == PathStyle::Windows
                && path[0] == '\\');
            is_names_only(path, style) <==> !drive && !rooted && forall|i: int|
                0 <= i < pieces.len() ==> #[trigger] pieces[i] != seq!['.', '.'] && !(i == 0
                    && pieces[i] == seq!['.'])
        }),
{
    let read = slashed(path, style);
    let pieces = text::split(read, '/');
    lemma_named_pieces(pieces);
    let named = pieces_parts(pieces);
    let all = parts(read);
    if path.len() > 0 {
        law_backslashes_separate_on_windows(path, 0);
        assert(is_absolute(read) <==> (path[0] == '/' || style == PathStyle::Windows && path[0]
            == '\\'));
    }
    if is_absolute(read) {
        assert(all[0] is Root);
    } else {
        assert(all =~= named);
    }
}

/// Pushing keeps what was there and adds what is pushed, with one separator between them
/// where there was none; an absolute tail replaces everything.
pub proof fn law_pushing_appends(path: Seq<char>, tail: Seq<char>)
    ensures
        tail.len() > 0 && tail[0] == '/' ==> pushed(path, tail) == tail,
        !(tail.len() > 0 && tail[0] == '/') ==> pushed(path, tail) == path + (if path.len() == 0
            || path[path.len() - 1] == '/' {
            Seq::empty()
        } else {
            seq!['/']
        }) + tail,
{
    assert(path + Seq::<char>::empty() + tail =~= path + tail);
    assert(path + seq!['/'] =~= path.push('/'));
}

/// A suffix extends the last name of a path and leaves what comes before it alone. A path
/// that does not end in a name gets the suffix as a name of its own.
pub proof fn law_suffix_extends_the_name(front: Seq<Part>, last: Part, suffix: Seq<char>)
    ensures
        suffixed_parts(Seq::empty(), suffix) == seq![Part::Name(suffix)],
        match last {
            Part::Name(name) => suffixed_parts(front.push(last), suffix) == front.push(
                Part::Name(name + suffix),
            ),
            _ => suffixed_parts(front.push(last), suffix) == front.push(last).push(
                Part::Name(suffix),
            ),
        },
{
    assert(front.push(last).drop_last() =~= front);
    assert(Seq::<Part>::empty().push(Part::Name(suffix)) =~= seq![Part::Name(suffix)]);
}

} // verus!
