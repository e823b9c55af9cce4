//! Unix paths as text, read lexically: no function here looks at a file system.

use vstd::prelude::*;
use vstd::string::*;

use crate::text;

verus! {

/// One component of a path.
#[derive(Debug)]
pub enum Component {
    /// The `/` that an absolute path begins with.
    RootDir,
    /// A `.` that a relative path begins with.
    CurDir,
    /// A `..` anywhere in a path.
    ParentDir,
    /// A file or directory name.
    Normal(String),
}

/// The mathematical form of a [`Component`].
pub enum Segment {
    RootDir,
    CurDir,
    ParentDir,
    Normal(Seq<char>),
}

impl View for Component {
    type V = Segment;

    open spec fn view(&self) -> Segment {
        match self {
            Component::RootDir => Segment::RootDir,
            Component::CurDir => Segment::CurDir,
            Component::ParentDir => Segment::ParentDir,
            Component::Normal(name) => Segment::Normal(name@),
        }
    }
}

/// The mathematical form of a list of components.
pub open spec fn segment_list(components: Seq<Component>) -> Seq<Segment> {
    Seq::new(components.len(), |i: int| components[i]@)
}

/// The stretches of `path` between its slashes, empty ones too.
pub open spec fn pieces(path: Seq<char>) -> Seq<Seq<char>>
    decreases path.len(),
{
    if path.len() == 0 {
        seq![Seq::empty()]
    } else {
        let before = pieces(path.drop_last());
        if path.last() == '/' {
            before.push(Seq::empty())
        } else {
            before.drop_last().push(before.last().push(path.last()))
        }
    }
}

/// A piece that names something: neither empty nor a single dot.
pub open spec fn names_something(piece: Seq<char>) -> bool {
    piece.len() > 0 && piece != seq!['.']
}

/// The component that a naming piece stands for.
pub open spec fn piece_segment(piece: Seq<char>) -> Segment {
    if piece == seq!['.', '.'] {
        Segment::ParentDir
    } else {
        Segment::Normal(piece)
    }
}

/// The components that the naming pieces of a path stand for, in order.
pub open spec fn named_segments(list: Seq<Seq<char>>) -> Seq<Segment>
    decreases list.len(),
{
    if list.len() == 0 {
        Seq::empty()
    } else {
        let before = named_segments(list.drop_last());
        if names_something(list.last()) {
            before.push(piece_segment(list.last()))
        } else {
            before
        }
    }
}

/// A path that begins with a slash.
pub open spec fn absolute(path: Seq<char>) -> bool {
    path.len() > 0 && path[0] == '/'
}

/// A relative path whose first piece is a single dot.
pub open spec fn begins_with_dot(path: Seq<char>) -> bool {
    path.len() > 0 && path[0] == '.' && (path.len() == 1 || path[1] == '/')
}

/// The component that the beginning of a path stands for, if any.
pub open spec fn leading_segment(path: Seq<char>) -> Seq<Segment> {
    if absolute(path) {
        seq![Segment::RootDir]
    } else if begins_with_dot(path) {
        seq![Segment::CurDir]
    } else {
        Seq::empty()
    }
}

/// The components of a path. Repeated and trailing slashes stand for nothing, and neither does a
/// single dot, unless a relative path begins with it.
pub open spec fn segments(path: Seq<char>) -> Seq<Segment> {
    leading_segment(path) + named_segments(pieces(path))
}

/// Whether a path begins with a slash.
pub fn is_absolute(path: &str) -> (result: bool)
    ensures
        result == absolute(path@),
{
    !path.is_empty() && path.get_char(0) == '/'
}

/// The component that the piece of `path` from `from` up to `to` stands for, if any.
fn read_piece(path: &str, from: usize, to: usize) -> (component: Option<Component>)
    requires
        from <= to <= path@.len(),
    ensures
        match component {
            Some(component) => names_something(path@.subrange(from as int, to as int))
                && component@ == piece_segment(path@.subrange(from as int, to as int)),
            None => !names_something(path@.subrange(from as int, to as int)),
        },
{
    let piece = path.substring_char(from, to);
    proof {
        reveal_strlit(".");
        reveal_strlit("..");
        assert("."@ =~= seq!['.']);
        assert(".."@ =~= seq!['.', '.']);
    }
    if from == to || text::same_text(piece, ".") {
        None
    } else if text::same_text(piece, "..") {
        Some(Component::ParentDir)
    } else {
        Some(Component::Normal(piece.to_owned()))
    }
}

/// The components of `path`.
pub fn components(path: &str) -> (list: Vec<Component>)
    ensures
        segment_list(list@) == segments(path@),
{
    let chars = text::char_vec(path);
    let length = chars.len();
    let mut list: Vec<Component> = Vec::new();
    if length > 0 && chars[0] == '/' {
        list.push(Component::RootDir);
    } else if length > 0 && chars[0] == '.' && (length == 1 || chars[1] == '/') {
        list.push(Component::CurDir);
    }
    assert(segment_list(list@) =~= leading_segment(path@));
    let mut from: usize = 0;
    let mut at: usize = 0;
    let ghost mut done: Seq<Seq<char>> = Seq::empty();
    proof {
        assert(path@.take(0) =~= Seq::empty());
        assert(pieces(path@.take(0)) =~= done.push(path@.subrange(0, 0)));
        assert(segment_list(list@) =~= leading_segment(path@) + named_segments(done));
    }
    while at < length
        invariant
            chars@ == path@,
            length == chars@.len(),
            from <= at <= length,
            pieces(path@.take(at as int)) == done.push(path@.subrange(from as int, at as int)),
            segment_list(list@) == leading_segment(path@) + named_segments(done),
        decreases length - at,
    {
        let ghost piece = path@.subrange(from as int, at as int);
        assert(path@.take(at + 1).drop_last() == path@.take(at as int));
        if chars[at] == '/' {
            let ghost before = list@;
            match read_piece(path, from, at) {
                Some(component) => {
                    list.push(component);
                    assert(segment_list(list@) =~= segment_list(before).push(component@));
                },
                None => {},
            }
            proof {
                let next = done.push(piece);
                assert(next.drop_last() =~= done);
                assert(segment_list(list@) =~= leading_segment(path@) + named_segments(next));
                assert(path@.subrange(at + 1, at + 1) =~= Seq::empty());
                assert(pieces(path@.take(at + 1)) =~= next.push(path@.subrange(at + 1, at + 1)));
                done = next;
            }
            from = at + 1;
        } else {
            proof {
                assert(path@.subrange(from as int, at + 1) =~= piece.push(path@[at as int]));
                assert(done.push(piece).drop_last() =~= done);
                assert(pieces(path@.take(at + 1)) =~= done.push(
                    path@.subrange(from as int, at + 1),
                ));
            }
        }
        at += 1;
    }
    assert(path@.take(length as int) == path@);
    let ghost before = list@;
    match read_piece(path, from, length) {
        Some(component) => {
            list.push(component);
            assert(segment_list(list@) =~= segment_list(before).push(component@));
        },
        None => {},
    }
    proof {
        let all = done.push(path@.subrange(from as int, length as int));
        assert(all.drop_last() =~= done);
        assert(segment_list(list@) =~= leading_segment(path@) + named_segments(all));
    }
    list
}

/// Whether two components are the same.
fn same_component(left: &Component, right: &Component) -> (same: bool)
    ensures
        same == (left@ == right@),
{
    match (left, right) {
        (Component::RootDir, Component::RootDir) => true,
        (Component::CurDir, Component::CurDir) => true,
        (Component::ParentDir, Component::ParentDir) => true,
        (Component::Normal(first), Component::Normal(second)) => *first == *second,
        _ => false,
    }
}

/// Whether `list` begins with all of `prefix`.
fn begins_with_components(list: &Vec<Component>, prefix: &Vec<Component>) -> (result: bool)
    ensures
        result == segment_list(prefix@).is_prefix_of(segment_list(list@)),
{
    if prefix.len() > list.len() {
        return false;
    }
    let ghost all = segment_list(list@);
    let ghost first = segment_list(prefix@);
    let mut i: usize = 0;
    while i < prefix.len()
        invariant
            i <= prefix@.len() <= list@.len(),
            all == segment_list(list@),
            first == segment_list(prefix@),
            forall|k: int| 0 <= k < i ==> all[k] == first[k],
        decreases prefix@.len() - i,
    {
        if !same_component(&list[i], &prefix[i]) {
            assert(all[i as int] != first[i as int]);
            assert(all.subrange(0, first.len() as int)[i as int] == all[i as int]);
            return false;
        }
        i += 1;
    }
    assert(all.subrange(0, first.len() as int) =~= first);
    true
}

/// Whether `path` begins with the components of `base`.
pub fn starts_with(path: &str, base: &str) -> (result: bool)
    ensures
        result == segments(base@).is_prefix_of(segments(path@)),
{
    begins_with_components(&components(path), &components(base))
}

/// Whether two lists hold the same components.
pub fn same_components(left: &Vec<Component>, right: &Vec<Component>) -> (same: bool)
    ensures
        same == (segment_list(left@) == segment_list(right@)),
{
    proof {
        let all = segment_list(left@);
        assert(all.subrange(0, all.len() as int) =~= all);
        assert(segment_list(right@).len() == right@.len());
    }
    left.len() == right.len() && begins_with_components(left, right)
}

/// Whether two paths have the same components.
pub fn same_path(left: &str, right: &str) -> (same: bool)
    ensures
        same == (segments(left@) == segments(right@)),
{
    same_components(&components(left), &components(right))
}

/// A component of its own that stands for the same as `component`.
fn copy_component(component: &Component) -> (copy: Component)
    ensures
        copy@ == component@,
{
    match component {
        Component::RootDir => Component::RootDir,
        Component::CurDir => Component::CurDir,
        Component::ParentDir => Component::ParentDir,
        Component::Normal(name) => Component::Normal(name.clone()),
    }
}

/// The components of `path` after those of `base`, or nothing where `path` does not begin with
/// `base`.
pub fn strip_prefix(path: &str, base: &str) -> (rest: Option<Vec<Component>>)
    ensures
        match rest {
            Some(rest) => segments(base@).is_prefix_of(segments(path@)) && segment_list(rest@)
                == segments(path@).skip(segments(base@).len() as int),
            None => !segments(base@).is_prefix_of(segments(path@)),
        },
{
    let list = components(path);
    let prefix = components(base);
    if !begins_with_components(&list, &prefix) {
        return None;
    }
    let ghost all = segments(path@);
    let skipped = prefix.len();
    let mut rest: Vec<Component> = Vec::new();
    let mut i: usize = skipped;
    while i < list.len()
        invariant
            skipped <= i <= list@.len(),
            all == segment_list(list@),
            segment_list(rest@) == all.subrange(skipped as int, i as int),
        decreases list@.len() - i,
    {
        let ghost before = rest@;
        rest.push(copy_component(&list[i]));
        assert(segment_list(rest@) =~= segment_list(before).push(all[i as int]));
        assert(all.subrange(skipped as int, i + 1) =~= all.subrange(skipped as int, i as int).push(
            all[i as int],
        ));
        i += 1;
    }
    assert(all.subrange(skipped as int, all.len() as int) =~= all.skip(skipped as int));
    Some(rest)
}

/// The name that a path ends with: its last component, if that is a name.
pub open spec fn final_name(path: Seq<char>) -> Option<Seq<char>> {
    if segments(path).len() == 0 {
        None
    } else {
        match segments(path).last() {
            Segment::Normal(name) => Some(name),
            _ => None,
        }
    }
}

/// The name that `path` ends with, if its last component is a name.
pub fn file_name(path: &str) -> (name: Option<String>)
    ensures
        match name {
            Some(name) => final_name(path@) == Some(name@),
            None => final_name(path@) is None,
        },
{
    let mut list = components(path);
    let ghost all = list@;
    match list.pop() {
        Some(last) => {
            assert(segment_list(all).last() == last@);
            match last {
                Component::Normal(name) => Some(name),
                _ => None,
            }
        },
        None => None,
    }
}

/// The text of a component by itself.
pub open spec fn segment_text(segment: Segment) -> Seq<char> {
    match segment {
        Segment::RootDir => seq!['/'],
        Segment::CurDir => seq!['.'],
        Segment::ParentDir => seq!['.', '.'],
        Segment::Normal(name) => name,
    }
}

/// The text of a component by itself.
pub fn component_text(component: &Component) -> (text: String)
    ensures
        text@ == segment_text(component@),
{
    proof {
        reveal_strlit("/");
        reveal_strlit(".");
        reveal_strlit("..");
    }
    let text = match component {
        Component::RootDir => "/".to_owned(),
        Component::CurDir => ".".to_owned(),
        Component::ParentDir => "..".to_owned(),
        Component::Normal(name) => name.clone(),
    };
    assert(text@ =~= segment_text(component@));
    text
}

/// `base` with `path` below it; an absolute `path` takes the place of `base`.
pub open spec fn joined(base: Seq<char>, path: Seq<char>) -> Seq<char> {
    if absolute(path) {
        path
    } else if base.len() == 0 || base.last() == '/' {
        base + path
    } else {
        base.push('/') + path
    }
}

/// `base` with `path` below it; an absolute `path` takes the place of `base`.
pub fn join(base: &str, path: &str) -> (result: String)
    ensures
        result@ == joined(base@, path@),
{
    if is_absolute(path) {
        return path.to_owned();
    }
    let length = base.unicode_len();
    let mut result = base.to_owned();
    if length > 0 && base.get_char(length - 1) != '/' {
        proof {
            reveal_strlit("/");
        }
        result.append("/");
        assert(result@ =~= base@.push('/'));
    }
    result.append(path);
    result
}

/// `path` without the slashes and single dots that stand for nothing at its end.
pub open spec fn trim_path(path: Seq<char>) -> Seq<char>
    decreases path.len(),
{
    if path.len() > 1 && (path.last() == '/' || (path.last() == '.' && path[path.len() - 2]
        == '/')) {
        trim_path(path.drop_last())
    } else {
        path
    }
}

/// `path` up to and including its last slash.
pub open spec fn drop_name(path: Seq<char>) -> Seq<char>
    decreases path.len(),
{
    if path.len() > 0 && path.last() != '/' {
        drop_name(path.drop_last())
    } else {
        path
    }
}

/// The text of a path that ends just before its last component.
pub open spec fn parent_text(path: Seq<char>) -> Seq<char> {
    trim_path(drop_name(trim_path(path)))
}

/// A path with a last component other than the root.
pub open spec fn has_parent(path: Seq<char>) -> bool {
    segments(path).len() > 0 && segments(path).last() != Segment::RootDir
}

/// A path has at least one piece.
proof fn lemma_pieces_nonempty(path: Seq<char>)
    ensures
        pieces(path).len() > 0,
    decreases path.len(),
{
    if path.len() > 0 {
        lemma_pieces_nonempty(path.drop_last());
    }
}

/// A trailing slash adds no component to a path that is not empty.
proof fn lemma_trailing_slash(path: Seq<char>)
    requires
        path.len() > 0,
    ensures
        segments(path.push('/')) == segments(path),
{
    let longer = path.push('/');
    assert(longer.drop_last() =~= path);
    assert(pieces(longer).drop_last() =~= pieces(path));
}

/// A single dot after a slash adds no component.
proof fn lemma_trailing_dot(path: Seq<char>)
    requires
        path.len() > 0,
        path.last() == '/',
    ensures
        segments(path.push('.')) == segments(path),
{
    let longer = path.push('.');
    let before = pieces(path.drop_last());
    assert(longer.drop_last() =~= path);
    assert(pieces(path) == before.push(Seq::empty()));
    assert(pieces(path).drop_last() =~= before);
    assert(Seq::<char>::empty().push('.') =~= seq!['.']);
    assert(pieces(longer) =~= before.push(seq!['.']));
    assert(pieces(longer).drop_last() =~= before);
}

/// Trimming a path keeps its components; what is left is empty, the root alone, or ends in a name.
proof fn lemma_trim_path(path: Seq<char>)
    ensures
        segments(trim_path(path)) == segments(path),
        trim_path(path).len() <= path.len(),
        trim_path(path) == path.take(trim_path(path).len() as int),
        trim_path(path).len() > 1 ==> trim_path(path).last() != '/' && !(trim_path(path).last()
            == '.' && trim_path(path)[trim_path(path).len() - 2] == '/'),
    decreases path.len(),
{
    if path.len() > 1 && path.last() == '/' {
        assert(path.drop_last().push('/') =~= path);
        lemma_trailing_slash(path.drop_last());
        lemma_trim_path(path.drop_last());
        let length = trim_path(path).len() as int;
        assert(path.drop_last().take(length) =~= path.take(length));
    } else if path.len() > 1 && path.last() == '.' && path[path.len() - 2] == '/' {
        assert(path.drop_last().push('.') =~= path);
        lemma_trailing_dot(path.drop_last());
        lemma_trim_path(path.drop_last());
        let length = trim_path(path).len() as int;
        assert(path.drop_last().take(length) =~= path.take(length));
    } else {
        assert(path.take(path.len() as int) =~= path);
    }
}

/// Dropping the text after the last slash empties the last piece and keeps the others.
proof fn lemma_drop_name(path: Seq<char>)
    ensures
        pieces(drop_name(path)) == pieces(path).drop_last().push(Seq::empty()),
        drop_name(path).len() <= path.len(),
        drop_name(path) == path.take(drop_name(path).len() as int),
        drop_name(path).len() > 0 ==> drop_name(path).last() == '/',
        drop_name(path).len() == path.len() - pieces(path).last().len(),
        forall|i: int| drop_name(path).len() <= i < path.len() ==> path[i] != '/',
        pieces(path).last() == path.skip(drop_name(path).len() as int),
    decreases path.len(),
{
    lemma_pieces_nonempty(path);
    if path.len() > 0 && path.last() != '/' {
        let shorter = path.drop_last();
        lemma_drop_name(shorter);
        lemma_pieces_nonempty(shorter);
        assert(pieces(path).drop_last() =~= pieces(shorter).drop_last());
        let length = drop_name(path).len() as int;
        assert(shorter.take(length) =~= path.take(length));
        assert forall|i: int| length <= i < path.len() implies path[i] != '/' by {
            if i < shorter.len() {
                assert(shorter[i] != '/');
            }
        }
        assert(path.skip(length) =~= shorter.skip(length).push(path.last()));
    } else {
        assert(pieces(path).last() =~= Seq::empty());
        assert(pieces(path) =~= pieces(path).drop_last().push(Seq::empty()));
        assert(path.take(path.len() as int) =~= path);
        assert(path.skip(path.len() as int) =~= Seq::empty());
    }
}

/// The components of the empty path, of the root and of a single dot.
pub proof fn shortest_paths()
    ensures
        segments(Seq::empty()) == Seq::<Segment>::empty(),
        segments(seq!['/']) == seq![Segment::RootDir],
        segments(seq!['.']) == seq![Segment::CurDir],
{
    let nothing = Seq::<char>::empty();
    let no_pieces = Seq::<Seq<char>>::empty();
    assert(seq![nothing].drop_last() =~= no_pieces);
    assert(named_segments(no_pieces) =~= Seq::empty());
    assert(named_segments(seq![nothing]) =~= Seq::empty());
    assert(segments(nothing) =~= Seq::empty());
    assert(seq!['/'].drop_last() =~= nothing);
    assert(pieces(seq!['/']) =~= seq![nothing].push(nothing));
    assert(seq![nothing].push(nothing).drop_last() =~= seq![nothing]);
    assert(segments(seq!['/']) =~= seq![Segment::RootDir]);
    assert(seq!['.'].drop_last() =~= nothing);
    assert(nothing.push('.') =~= seq!['.']);
    assert(pieces(seq!['.']) =~= seq![seq!['.']]);
    assert(seq![seq!['.']].drop_last() =~= no_pieces);
    assert(segments(seq!['.']) =~= seq![Segment::CurDir]);
}

/// The parent of a path has all its components but the last, and exactly the paths with a last
/// component other than the root end in a name once they are trimmed.
pub proof fn parent_drops_last_component(path: Seq<char>)
    ensures
        has_parent(path) <==> trim_path(path).len() > 0 && trim_path(path).last() != '/',
        has_parent(path) ==> segments(parent_text(path)) == segments(path).drop_last(),
        parent_text(path).len() <= path.len(),
        parent_text(path) == path.take(parent_text(path).len() as int),
{
    let short = trim_path(path);
    lemma_trim_path(path);
    lemma_drop_name(short);
    let dir = drop_name(short);
    lemma_trim_path(dir);
    let length = parent_text(path).len() as int;
    assert(path.take(short.len() as int).take(dir.len() as int).take(length) =~= path.take(
        length,
    ));
    lemma_pieces_nonempty(short);
    shortest_paths();
    if short.len() == 0 {
        assert(short =~= Seq::empty());
    } else if short.last() == '/' {
        assert(short =~= seq!['/']);
    } else {
        let last = pieces(short).last();
        assert(last.len() > 0);
        assert(pieces(dir).drop_last() =~= pieces(short).drop_last());
        if last == seq!['.'] {
            assert(short =~= seq!['.']) by {
                assert(short.skip(dir.len() as int)[0] == '.');
                assert(dir.len() == short.len() - 1);
                if dir.len() > 0 {
                    assert(short[dir.len() - 1] == '/');
                }
            }
            assert(dir =~= Seq::empty());
            assert(segments(short).drop_last() =~= segments(dir));
        } else {
            assert(leading_segment(dir) == leading_segment(short)) by {
                if dir.len() == 0 {
                    assert(short.skip(0) =~= short);
                    if begins_with_dot(short) {
                        assert(short =~= seq!['.']);
                    }
                }
            }
            assert(segments(short).drop_last() =~= segments(dir));
            assert(segments(short).last() == piece_segment(last));
        }
    }
}

/// The length of what is left of the first `length` characters of a path once they are trimmed.
fn trimmed_length(chars: &Vec<char>, length: usize) -> (end: usize)
    requires
        length <= chars@.len(),
    ensures
        end <= length,
        chars@.take(end as int) == trim_path(chars@.take(length as int)),
{
    let mut end: usize = length;
    while end > 1 && (chars[end - 1] == '/' || (chars[end - 1] == '.' && chars[end - 2] == '/'))
        invariant
            end <= length <= chars@.len(),
            trim_path(chars@.take(end as int)) == trim_path(chars@.take(length as int)),
        decreases end,
    {
        assert(chars@.take(end as int).drop_last() =~= chars@.take(end - 1));
        end -= 1;
    }
    end
}

/// The path that ends just before the last component of `path`, if that is not the root.
pub fn parent(path: &str) -> (result: Option<String>)
    ensures
        match result {
            Some(parent) => has_parent(path@) && parent@ == parent_text(path@),
            None => !has_parent(path@),
        },
{
    let chars = text::char_vec(path);
    let length = chars.len();
    let end = trimmed_length(&chars, length);
    proof {
        assert(path@.take(length as int) =~= path@);
        parent_drops_last_component(path@);
    }
    if end == 0 || chars[end - 1] == '/' {
        return None;
    }
    let mut dir: usize = end;
    while dir > 0 && chars[dir - 1] != '/'
        invariant
            chars@ == path@,
            dir <= end <= chars@.len(),
            drop_name(path@.take(dir as int)) == drop_name(path@.take(end as int)),
        decreases dir,
    {
        assert(path@.take(dir as int).drop_last() =~= path@.take(dir - 1));
        dir -= 1;
    }
    let stop = trimmed_length(&chars, dir);
    assert(path@.subrange(0, stop as int) =~= path@.take(stop as int));
    Some(path.substring_char(0, stop).to_owned())
}

/// The pieces of two texts with a slash between them are those of the first and those of the
/// second.
proof fn lemma_pieces_across_slash(first: Seq<char>, second: Seq<char>)
    ensures
        pieces(first.push('/') + second) == pieces(first) + pieces(second),
    decreases second.len(),
{
    let whole = first.push('/') + second;
    if second.len() == 0 {
        assert(whole =~= first.push('/'));
        assert(whole.drop_last() =~= first);
        assert(pieces(whole) =~= pieces(first) + pieces(second));
    } else {
        lemma_pieces_across_slash(first, second.drop_last());
        lemma_pieces_nonempty(second.drop_last());
        assert(whole.drop_last() =~= first.push('/') + second.drop_last());
        assert(pieces(whole) =~= pieces(first) + pieces(second));
    }
}

/// The components of two lists of pieces, one after the other.
proof fn lemma_named_segments_of_both(first: Seq<Seq<char>>, second: Seq<Seq<char>>)
    ensures
        named_segments(first + second) == named_segments(first) + named_segments(second),
    decreases second.len(),
{
    if second.len() == 0 {
        assert(first + second =~= first);
        assert(named_segments(first) + named_segments(second) =~= named_segments(first));
    } else {
        lemma_named_segments_of_both(first, second.drop_last());
        assert((first + second).drop_last() =~= first + second.drop_last());
        assert(named_segments(first + second) =~= named_segments(first) + named_segments(second));
    }
}

/// A relative path that begins with no single dot adds exactly its own components to the path that
/// it is joined to.
pub proof fn join_appends_components(base: Seq<char>, path: Seq<char>)
    requires
        !absolute(path),
        !begins_with_dot(path),
    ensures
        segments(joined(base, path)) == segments(base) + segments(path),
{
    let whole = joined(base, path);
    if base.len() == 0 {
        shortest_paths();
        assert(base =~= Seq::empty());
        assert(whole =~= path);
        assert(segments(whole) =~= segments(base) + segments(path));
    } else {
        assert(leading_segment(whole) == leading_segment(base));
        let stem = if base.last() == '/' {
            base.drop_last()
        } else {
            base
        };
        assert(whole =~= stem.push('/') + path);
        lemma_pieces_across_slash(stem, path);
        lemma_named_segments_of_both(pieces(stem), pieces(path));
        if base.last() == '/' {
            assert(pieces(base).drop_last() =~= pieces(stem));
        }
        assert(segments(whole) =~= segments(base) + segments(path));
    }
}

/// A non-empty relative path that begins with no single dot has a component.
pub proof fn relative_path_names_something(path: Seq<char>)
    requires
        path.len() > 0,
        !absolute(path),
        !begins_with_dot(path),
    ensures
        segments(path).len() > 0,
    decreases path.len(),
{
    let shorter = path.drop_last();
    if shorter.len() == 0 || shorter == seq!['.'] {
        assert(!path.contains('/')) by {
            assert forall|i: int| 0 <= i < path.len() implies path[i] != '/' by {
                if shorter.len() > 0 {
                    assert(shorter[0] == path[0]);
                }
            }
        }
        lemma_slashless_piece(path);
        assert(names_something(path));
        assert(seq![path].last() == path);
    } else {
        assert(shorter[0] == path[0]);
        if begins_with_dot(shorter) {
            assert(shorter.len() > 1 || shorter =~= seq!['.']);
        }
        relative_path_names_something(shorter);
        lemma_pieces_nonempty(shorter);
        let list = pieces(shorter);
        if path.last() == '/' {
            assert(list.push(Seq::empty()).drop_last() =~= list);
        } else {
            assert(pieces(path).drop_last() =~= list.drop_last());
        }
    }
}

/// `path` lies properly below `base`: its components are those of `base`, then names only, and at
/// least one.
pub open spec fn strictly_below(base: Seq<char>, path: Seq<char>) -> bool {
    &&& segments(base).len() < segments(path).len()
    &&& segments(base).is_prefix_of(segments(path))
    &&& forall|i: int|
        segments(base).len() <= i < segments(path).len() ==> #[trigger] segments(path)[i] is Normal
}

/// A non-empty text without a slash that is neither one dot nor two is a single name.
pub proof fn plain_name_is_one_component(name: Seq<char>)
    requires
        name.len() > 0,
        !name.contains('/'),
        name != seq!['.'],
        name != seq!['.', '.'],
    ensures
        segments(name) == seq![Segment::Normal(name)],
{
    lemma_slashless_piece(name);
    assert(!absolute(name)) by {
        if name[0] == '/' {
            assert(name.contains('/'));
        }
    }
    assert(!begins_with_dot(name)) by {
        if name.len() == 1 && name[0] == '.' {
            assert(name =~= seq!['.']);
        }
        if name.len() > 1 && name[1] == '/' {
            assert(name.contains('/'));
        }
    }
    assert(seq![name].drop_last() =~= Seq::empty());
    assert(named_segments(seq![name].drop_last()) =~= Seq::empty());
    assert(segments(name) =~= seq![Segment::Normal(name)]);
}

/// A text without a slash is one piece.
proof fn lemma_slashless_piece(text: Seq<char>)
    requires
        !text.contains('/'),
    ensures
        pieces(text) == seq![text],
    decreases text.len(),
{
    if text.len() > 0 {
        let shorter = text.drop_last();
        assert(!shorter.contains('/')) by {
            if shorter.contains('/') {
                let i = choose|i: int| 0 <= i < shorter.len() && shorter[i] == '/';
                assert(text[i] == '/');
            }
        }
        lemma_slashless_piece(shorter);
        assert(text[text.len() - 1] != '/');
        assert(shorter.push(text.last()) =~= text);
        assert(pieces(text) =~= seq![text]);
    } else {
        assert(text =~= Seq::empty());
    }
}

/// No piece of a path holds a slash.
proof fn lemma_pieces_have_no_slash(path: Seq<char>)
    ensures
        forall|i: int| 0 <= i < pieces(path).len() ==> !(#[trigger] pieces(path)[i]).contains('/'),
    decreases path.len(),
{
    if path.len() > 0 {
        let shorter = path.drop_last();
        lemma_pieces_have_no_slash(shorter);
        lemma_pieces_nonempty(shorter);
        assert forall|i: int| 0 <= i < pieces(path).len() implies !(
        #[trigger] pieces(path)[i]).contains('/') by {
            if i < pieces(shorter).len() {
                let before = pieces(shorter)[i];
                assert(!before.contains('/'));
                if pieces(path)[i].contains('/') {
                    let k = choose|k: int|
                        0 <= k < pieces(path)[i].len() && pieces(path)[i][k] == '/';
                    assert(before[k] == '/');
                    assert(before.contains('/'));
                }
            }
        }
    }
}

/// A name among the components of a list of pieces is one of the pieces.
proof fn lemma_name_is_a_piece(list: Seq<Seq<char>>, at: int, name: Seq<char>)
    requires
        0 <= at < named_segments(list).len(),
        named_segments(list)[at] == Segment::Normal(name),
    ensures
        list.contains(name),
        names_something(name),
        name != seq!['.', '.'],
    decreases list.len(),
{
    let before = named_segments(list.drop_last());
    if at < before.len() {
        lemma_name_is_a_piece(list.drop_last(), at, name);
        let i = choose|i: int| 0 <= i < list.drop_last().len() && list.drop_last()[i] == name;
        assert(list[i] == name);
    } else {
        assert(list[list.len() - 1] == name);
    }
}

/// A name that is a component of a path is by itself a path with that one component.
pub proof fn name_is_its_own_path(path: Seq<char>, at: int, name: Seq<char>)
    requires
        0 <= at < segments(path).len(),
        segments(path)[at] == Segment::Normal(name),
    ensures
        segments(name) == seq![Segment::Normal(name)],
{
    let skipped = leading_segment(path).len() as int;
    assert(at >= skipped);
    lemma_name_is_a_piece(pieces(path), at - skipped, name);
    lemma_pieces_have_no_slash(path);
    plain_name_is_one_component(name);
}

/// A text that can be a name in a path: it is not empty, holds no slash, and is neither one dot nor
/// two.
pub open spec fn plain_name(name: Seq<char>) -> bool {
    &&& name.len() > 0
    &&& forall|i: int| 0 <= i < name.len() ==> #[trigger] name[i] != '/'
    &&& name != seq!['.']
    &&& name != seq!['.', '.']
}

/// A slash separates components: what stands before it and what stands behind it are read each by
/// itself, unless what stands behind begins with another slash or is a single dot.
pub proof fn slash_separates_components(base: Seq<char>, path: Seq<char>)
    requires
        path.len() > 0,
        path[0] != '/',
        !(path[0] == '.' && (path.len() == 1 || path[1] == '/')),
    ensures
        base.len() > 0 ==> segments(base.push('/') + path) == segments(base) + segments(path),
        segments(seq!['/'] + path) == seq![Segment::RootDir] + segments(path),
{
    if base.len() > 0 {
        let longer = base.push('/');
        assert(joined(longer, path) =~= longer + path);
        join_appends_components(longer, path);
        lemma_trailing_slash(base);
    }
    assert(joined(seq!['/'], path) =~= seq!['/'] + path);
    join_appends_components(seq!['/'], path);
    shortest_paths();
}

/// A slash behind a path adds no component, and neither does a single dot behind a slash.
pub proof fn trailing_slashes_and_dots_add_nothing(path: Seq<char>)
    requires
        path.len() > 0,
    ensures
        segments(path.push('/')) == segments(path),
        path.last() == '/' ==> segments(path.push('.')) == segments(path),
{
    lemma_trailing_slash(path);
    if path.last() == '/' {
        lemma_trailing_dot(path);
    }
}

/// What a path without a slash stands for: nothing, the place itself, the place above, or a name.
pub proof fn lone_components(path: Seq<char>)
    ensures
        path.len() == 0 ==> segments(path) == Seq::<Segment>::empty(),
        path == seq!['/'] ==> segments(path) == seq![Segment::RootDir],
        path == seq!['.'] ==> segments(path) == seq![Segment::CurDir],
        path == seq!['.', '.'] ==> segments(path) == seq![Segment::ParentDir],
        plain_name(path) ==> segments(path) == seq![Segment::Normal(path)],
{
    shortest_paths();
    if path.len() == 0 {
        assert(path =~= Seq::empty());
    }
    if path == seq!['.', '.'] {
        assert(!path.contains('/'));
        lemma_slashless_piece(path);
        assert(seq![path].drop_last() =~= Seq::empty());
        assert(named_segments(seq![path].drop_last()) =~= Seq::empty());
        assert(path != seq!['.']) by {
            assert(seq!['.', '.'].len() != seq!['.'].len());
        }
        assert(segments(path) =~= seq![Segment::ParentDir]);
    }
    if plain_name(path) {
        plain_name_is_one_component(path);
    }
}

/// Joining puts a relative path behind the base with a slash between them, unless the base has one
/// already or is empty; an absolute path stays as it is.
pub proof fn joining_puts_one_slash_between(base: Seq<char>, path: Seq<char>)
    ensures
        path.len() > 0 && path[0] == '/' ==> joined(base, path) == path,
        !(path.len() > 0 && path[0] == '/') ==> joined(base.push('/'), path) == base.push('/')
            + path,
        !(path.len() > 0 && path[0] == '/') && base.len() > 0 && base.last() != '/' ==> joined(
            base,
            path,
        ) == base.push('/') + path,
        !(path.len() > 0 && path[0] == '/') ==> joined(Seq::empty(), path) == path,
{
    assert(Seq::<char>::empty() + path =~= path);
}

/// Dropping a name leaves what stands up to the slash before it.
proof fn lemma_drop_plain_name(base: Seq<char>, name: Seq<char>)
    requires
        forall|i: int| 0 <= i < name.len() ==> #[trigger] name[i] != '/',
    ensures
        drop_name(base.push('/') + name) == base.push('/'),
        drop_name(name) == Seq::<char>::empty(),
    decreases name.len(),
{
    let whole = base.push('/') + name;
    if name.len() > 0 {
        let shorter = name.drop_last();
        assert(whole.drop_last() =~= base.push('/') + shorter);
        assert(whole.last() == name[name.len() - 1]);
        assert forall|i: int| 0 <= i < shorter.len() implies #[trigger] shorter[i] != '/' by {
            assert(shorter[i] == name[i]);
        }
        lemma_drop_plain_name(base, shorter);
    } else {
        assert(whole =~= base.push('/'));
        assert(name =~= Seq::empty());
    }
}

/// The parent of a name below a directory is the directory, the parent of a name at the root is the
/// root, and that of a name alone is empty. The root and the empty path have none.
pub proof fn parent_of_a_name_is_its_directory(base: Seq<char>, name: Seq<char>)
    requires
        plain_name(name),
        base.len() > 0,
        base.last() != '/',
        !(base.last() == '.' && base.len() > 1 && base[base.len() - 2] == '/'),
    ensures
        has_parent(base.push('/') + name),
        parent_text(base.push('/') + name) == base,
        has_parent(seq!['/'] + name),
        parent_text(seq!['/'] + name) == seq!['/'],
        has_parent(name),
        parent_text(name) == Seq::<char>::empty(),
        !has_parent(seq!['/']),
        !has_parent(Seq::empty()),
{
    let root = seq!['/'];
    let nothing = Seq::<char>::empty();
    lone_components(name);
    assert(!begins_with_dot(name)) by {
        if name.len() == 1 && name[0] == '.' {
            assert(name =~= seq!['.']);
        }
    }
    slash_separates_components(base, name);
    shortest_paths();
    assert(nothing.push('/') =~= root);
    let below = base.push('/') + name;
    let top = root + name;
    assert(segments(below).last() == Segment::Normal(name));
    assert(segments(top).last() == Segment::Normal(name));
    assert(name[name.len() - 1] != '/');
    assert(below.last() == name.last() && top.last() == name.last());
    if name.len() == 1 && name.last() == '.' {
        assert(name =~= seq!['.']);
    }
    if name.len() > 1 {
        assert(name[name.len() - 2] != '/');
        assert(below[below.len() - 2] == name[name.len() - 2]);
        assert(top[top.len() - 2] == name[name.len() - 2]);
    }
    assert(trim_path(below) == below);
    assert(trim_path(top) == top);
    assert(trim_path(name) == name);
    lemma_drop_plain_name(base, name);
    lemma_drop_plain_name(nothing, name);
    assert(base.push('/').drop_last() =~= base);
    assert(trim_path(base) == base);
    assert(trim_path(root) == root);
    assert(trim_path(nothing) == nothing);
}

/// The final name of a path is what stands behind its last slash, or before the slashes that it ends
/// with; the root and a path that leads upwards have none.
pub proof fn final_name_stands_behind_the_last_slash(base: Seq<char>, name: Seq<char>)
    requires
        plain_name(name),
    ensures
        final_name(base.push('/') + name) == Some(name),
        final_name((base.push('/') + name).push('/')) == Some(name),
        final_name(name) == Some(name),
        final_name(base.push('/') + seq!['.', '.']) is None,
        final_name(seq!['/']) is None,
        final_name(Seq::empty()) is None,
{
    lone_components(name);
    lone_components(seq!['.', '.']);
    shortest_paths();
    assert(!begins_with_dot(name)) by {
        if name.len() == 1 && name[0] == '.' {
            assert(name =~= seq!['.']);
        }
    }
    let up = seq!['.', '.'];
    slash_separates_components(base, name);
    slash_separates_components(base, up);
    if base.len() == 0 {
        assert(base.push('/') =~= seq!['/']);
    }
    let whole = base.push('/') + name;
    assert(segments(whole).last() == Segment::Normal(name));
    assert(segments(base.push('/') + up).last() == Segment::ParentDir);
    lemma_trailing_slash(whole);
}

/// The characters from `from` up to `to` are one whole stretch of `path` between slashes.
pub open spec fn stretch(path: Seq<char>, from: int, to: int) -> bool {
    &&& 0 <= from <= to <= path.len()
    &&& forall|k: int| from <= k < to ==> path[k] != '/'
    &&& from == 0 || path[from - 1] == '/'
    &&& to == path.len() || path[to] == '/'
}

/// The pieces of a path are the stretches between its slashes.
proof fn lemma_pieces_are_stretches(path: Seq<char>, piece: Seq<char>)
    ensures
        pieces(path).contains(piece) <==> exists|from: int, to: int| #[trigger]
            stretch(path, from, to) && path.subrange(from, to) == piece,
    decreases path.len(),
{
    let dir = drop_name(path);
    lemma_drop_name(path);
    let length = path.len() as int;
    if dir.len() == 0 {
        assert(!path.contains('/'));
        lemma_slashless_piece(path);
        assert(path.subrange(0, length) =~= path);
        assert(stretch(path, 0, length));
        if exists|from: int, to: int| #[trigger]
            stretch(path, from, to) && path.subrange(from, to) == piece {
            let (from, to) = choose|from: int, to: int| #[trigger]
                stretch(path, from, to) && path.subrange(from, to) == piece;
            assert(from == 0 && to == length);
            assert(seq![path][0] == piece);
        }
    } else {
        let at = dir.len() - 1;
        let first = path.take(at);
        let last = path.skip(at + 1);
        assert(path[at] == '/') by {
            assert(dir[at] == path.take(dir.len() as int)[at]);
        }
        assert(path =~= first.push('/') + last);
        assert(!last.contains('/'));
        lemma_pieces_across_slash(first, last);
        lemma_slashless_piece(last);
        lemma_pieces_are_stretches(first, piece);
        let all = pieces(path);
        assert(all =~= pieces(first).push(last));
        assert(path.subrange(at + 1, length) =~= last);
        assert(stretch(path, at + 1, length));
        if pieces(first).contains(piece) {
            let k = choose|k: int| 0 <= k < pieces(first).len() && pieces(first)[k] == piece;
            assert(all[k] == piece);
            let (from, to) = choose|from: int, to: int| #[trigger]
                stretch(first, from, to) && first.subrange(from, to) == piece;
            assert(path.subrange(from, to) =~= first.subrange(from, to));
            assert(stretch(path, from, to)) by {
                assert forall|k: int| from <= k < to implies path[k] != '/' by {
                    assert(first[k] == path[k]);
                }
                if from > 0 {
                    assert(first[from - 1] == path[from - 1]);
                }
                if to < first.len() {
                    assert(first[to] == path[to]);
                }
            }
        }
        if piece == last {
            assert(all[all.len() - 1] == piece);
        }
        if exists|from: int, to: int| #[trigger]
            stretch(path, from, to) && path.subrange(from, to) == piece {
            let (from, to) = choose|from: int, to: int| #[trigger]
                stretch(path, from, to) && path.subrange(from, to) == piece;
            if to > at {
                assert(from > at);
                assert(from == at + 1) by {
                    if from > at + 1 {
                        assert(path[from - 1] != '/');
                    }
                }
                assert(to == length);
            } else {
                assert(first.subrange(from, to) =~= path.subrange(from, to));
                assert(stretch(first, from, to)) by {
                    assert forall|k: int| from <= k < to implies first[k] != '/' by {
                        assert(first[k] == path[k]);
                    }
                }
                let k = choose|k: int| 0 <= k < pieces(first).len() && pieces(first)[k] == piece;
                assert(all[k] == piece);
            }
        }
        if all.contains(piece) && piece != last {
            let k = choose|k: int| 0 <= k < all.len() && all[k] == piece;
            assert(pieces(first)[k] == piece);
        }
    }
}

/// The components that pieces stand for lead upwards exactly if one of the pieces is two dots, and
/// are names otherwise.
proof fn lemma_upward_pieces(list: Seq<Seq<char>>)
    ensures
        named_segments(list).contains(Segment::ParentDir) <==> list.contains(seq!['.', '.']),
        forall|i: int|
            0 <= i < named_segments(list).len() ==> #[trigger] named_segments(list)[i] is Normal
                || named_segments(list)[i] is ParentDir,
    decreases list.len(),
{
    let up = seq!['.', '.'];
    if list.len() > 0 {
        let front = list.drop_last();
        lemma_upward_pieces(front);
        let before = named_segments(front);
        let all = named_segments(list);
        assert(names_something(up)) by {
            assert(up.len() != seq!['.'].len());
        }
        if front.contains(up) {
            let k = choose|k: int| 0 <= k < front.len() && front[k] == up;
            assert(list[k] == up);
            let j = choose|j: int| 0 <= j < before.len() && before[j] == Segment::ParentDir;
            assert(all[j] == Segment::ParentDir);
        }
        if list.last() == up {
            assert(list[list.len() - 1] == up);
            assert(all[all.len() - 1] == Segment::ParentDir);
        }
        if list.contains(up) && list.last() != up {
            let k = choose|k: int| 0 <= k < list.len() && list[k] == up;
            assert(front[k] == up);
        }
        if all.contains(Segment::ParentDir) && list.last() != up {
            let j = choose|j: int| 0 <= j < all.len() && all[j] == Segment::ParentDir;
            if j >= before.len() {
                assert(all[j] == piece_segment(list.last()));
            }
            assert(before[j] == Segment::ParentDir);
        }
    }
}

/// Two dots stand in a path from `at` on, by themselves between slashes or the ends of the path.
pub open spec fn leads_upwards_at(path: Seq<char>, at: int) -> bool {
    &&& 0 <= at
    &&& at + 2 <= path.len()
    &&& path[at] == '.' && path[at + 1] == '.'
    &&& at == 0 || path[at - 1] == '/'
    &&& at + 2 == path.len() || path[at + 2] == '/'
}

/// A path leads upwards exactly if two dots stand somewhere in it by themselves. All its other
/// components are names, but for the slash or the single dot that it may begin with.
pub proof fn only_two_dots_lead_upwards(path: Seq<char>)
    ensures
        (exists|i: int|
            0 <= i < segments(path).len() && #[trigger] segments(path)[i] == Segment::ParentDir)
            <==> exists|at: int| leads_upwards_at(path, at),
        forall|i: int|
            0 <= i < segments(path).len() ==> {
                ||| #[trigger] segments(path)[i] is Normal
                ||| segments(path)[i] == Segment::ParentDir
                ||| i == 0 && segments(path)[i] == Segment::RootDir && path.len() > 0 && path[0]
                    == '/'
                ||| i == 0 && segments(path)[i] == Segment::CurDir && path.len() > 0 && path[0]
                    == '.' && (path.len() == 1 || path[1] == '/')
            },
        path.len() > 0 && path[0] == '/' ==> segments(path).len() > 0 && segments(path)[0]
            == Segment::RootDir,
        path.len() > 0 && path[0] == '.' && (path.len() == 1 || path[1] == '/') ==> segments(
            path,
        ).len() > 0 && segments(path)[0] == Segment::CurDir,
{
    let up = seq!['.', '.'];
    let list = pieces(path);
    let named = named_segments(list);
    let skipped = leading_segment(path).len() as int;
    let all = segments(path);
    lemma_pieces_are_stretches(path, up);
    lemma_upward_pieces(list);
    assert forall|i: int| skipped <= i < all.len() implies #[trigger] all[i] == named[i
        - skipped] by {}
    if exists|at: int| leads_upwards_at(path, at) {
        let at = choose|at: int| leads_upwards_at(path, at);
        assert(path.subrange(at, at + 2) =~= up);
        assert(stretch(path, at, at + 2));
        let j = choose|j: int| 0 <= j < named.len() && named[j] == Segment::ParentDir;
        assert(all[j + skipped] == Segment::ParentDir);
    }
    if exists|i: int| 0 <= i < all.len() && #[trigger] all[i] == Segment::ParentDir {
        let i = choose|i: int| 0 <= i < all.len() && #[trigger] all[i] == Segment::ParentDir;
        assert(named[i - skipped] == Segment::ParentDir);
        assert(named.contains(Segment::ParentDir));
        let (from, to) = choose|from: int, to: int| #[trigger]
            stretch(path, from, to) && path.subrange(from, to) == up;
        assert(path.subrange(from, to).len() == up.len());
        assert(path.subrange(from, to)[0] == path[from]);
        assert(path.subrange(from, to)[1] == path[from + 1]);
        assert(leads_upwards_at(path, from));
    }
    assert forall|i: int| 0 <= i < all.len() implies {
        ||| #[trigger] all[i] is Normal
        ||| all[i] == Segment::ParentDir
        ||| i == 0 && all[i] == Segment::RootDir && path.len() > 0 && path[0] == '/'
        ||| i == 0 && all[i] == Segment::CurDir && path.len() > 0 && path[0] == '.' && (path.len()
            == 1 || path[1] == '/')
    } by {
        if i >= skipped {
            assert(all[i] == named[i - skipped]);
        }
    }
}

} // verus!
