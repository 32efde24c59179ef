//! File paths, and keeping them under a root.
//!
//! A path is a string of names with slashes between them. Repeated slashes
//! count as one, and a `.` after the start says nothing.

use vstd::prelude::*;
use vstd::string::*;

use crate::text;

verus! {

// ---------------------------------------------------------------------------
// What a path says
// ---------------------------------------------------------------------------

/// What a path says: whether it starts at the root of the file system, and its
/// names in order.
#[verifier::ext_equal]
pub struct Parts {
    pub rooted: bool,
    pub names: Seq<Seq<char>>,
}

/// The pieces between slashes that are names. Empty pieces are none, nor is a
/// dot, except as the first piece.
pub open spec fn names_in(pieces: Seq<Seq<char>>, first: bool) -> Seq<Seq<char>>
    decreases pieces.len(),
{
    if pieces.len() == 0 {
        Seq::empty()
    } else if pieces[0].len() == 0 || (pieces[0] == "."@ && !first) {
        names_in(pieces.drop_first(), false)
    } else {
        seq![pieces[0]] + names_in(pieces.drop_first(), false)
    }
}

/// What a path says.
pub open spec fn parts(path: Seq<char>) -> Parts {
    Parts {
        rooted: path.len() > 0 && path[0] == '/',
        names: names_in(text::split_on(path, '/'), true),
    }
}

/// Names with a slash between them.
pub open spec fn joined_names(names: Seq<Seq<char>>) -> Seq<char>
    decreases names.len(),
{
    if names.len() == 0 {
        Seq::empty()
    } else if names.len() == 1 {
        names[0]
    } else {
        names[0] + seq!['/'] + joined_names(names.drop_first())
    }
}

/// The plain way to write a path.
pub open spec fn rendered(p: Parts) -> Seq<char> {
    if p.rooted {
        seq!['/'] + joined_names(p.names)
    } else {
        joined_names(p.names)
    }
}

/// Names with `.` left out and `..` carried through: it takes away the name
/// before it, if there is one.
pub open spec fn settled(names: Seq<Seq<char>>) -> Seq<Seq<char>>
    decreases names.len(),
{
    if names.len() == 0 {
        names
    } else {
        let before = settled(names.drop_last());
        if names.last() == ".."@ {
            if before.len() > 0 {
                before.drop_last()
            } else {
                before
            }
        } else if names.last() == "."@ {
            before
        } else {
            before.push(names.last())
        }
    }
}

/// What a path says once `.` and `..` are carried through.
pub open spec fn normal(path: Seq<char>) -> Parts {
    Parts { rooted: parts(path).rooted, names: settled(parts(path).names) }
}

/// A path lies at or under another.
pub open spec fn under(p: Parts, root: Parts) -> bool {
    &&& p.rooted == root.rooted || (!root.rooted && root.names.len() == 0)
    &&& root.names.len() <= p.names.len()
    &&& p.names.take(root.names.len() as int) == root.names
}

/// A text without the slashes in front of it.
pub open spec fn strip_slashes(s: Seq<char>) -> Seq<char>
    decreases s.len(),
{
    if s.len() > 0 && s[0] == '/' {
        strip_slashes(s.drop_first())
    } else {
        s
    }
}

/// A path, behind a directory; one that starts at the root of the file system
/// stands for itself.
pub open spec fn joined(dir: Seq<char>, rel: Seq<char>) -> Seq<char> {
    if dir.len() == 0 || (rel.len() > 0 && rel[0] == '/') {
        rel
    } else if dir.last() == '/' {
        dir + rel
    } else {
        dir + seq!['/'] + rel
    }
}

/// The path of a URL, behind a directory.
pub open spec fn url_joined(dir: Seq<char>, url: Seq<char>) -> Seq<char> {
    joined(dir, strip_slashes(url))
}

// ---------------------------------------------------------------------------
// Reading and writing paths
// ---------------------------------------------------------------------------

/// The names in a path.
fn names_of(path: &str) -> (r: Vec<String>)
    ensures
        text::views(r@) == parts(path@).names,
{
    let pieces = text::split_text(path, '/');
    let ghost all = text::views(pieces@);
    let mut out: Vec<String> = Vec::new();
    let mut i: usize = 0;
    proof {
        assert(all.skip(0) =~= all);
        assert(text::views(out@) + names_in(all, true) =~= names_in(all, true));
    }
    while i < pieces.len()
        invariant
            i <= pieces@.len(),
            all == text::views(pieces@),
            all == text::split_on(path@, '/'),
            text::views(out@) + names_in(all.skip(i as int), i == 0) == names_in(all, true),
        decreases pieces@.len() - i,
    {
        let ghost rest = all.skip(i as int);
        let piece: &str = pieces[i].as_str();
        proof {
            assert(rest[0] == piece@);
            assert(rest.drop_first() =~= all.skip(i + 1));
        }
        if text::chars_of(piece).len() > 0 && !(i > 0 && text::same(piece, ".")) {
            let ghost before = out@;
            out.push(text::owned(piece));
            proof {
                assert(text::views(out@) =~= text::views(before).push(piece@));
                assert(text::views(out@) + names_in(all.skip(i + 1), false) =~= text::views(before)
                    + (seq![piece@] + names_in(all.skip(i + 1), false)));
            }
        }
        i = i + 1;
    }
    proof {
        assert(all.skip(i as int) =~= Seq::empty());
        assert(text::views(out@) + Seq::<Seq<char>>::empty() =~= text::views(out@));
    }
    out
}

/// Whether a path starts at the root of the file system.
fn is_rooted(path: &str) -> (r: bool)
    ensures
        r == parts(path@).rooted,
{
    let v = text::chars_of(path);
    v.len() > 0 && v[0] == '/'
}

/// Writes a path.
fn render(rooted: bool, names: &[String]) -> (r: String)
    ensures
        r@ == rendered(Parts { rooted, names: text::views(names@) }),
{
    let ghost all = text::views(names@);
    let mut s = String::new();
    if rooted {
        s.push('/');
    }
    let ghost lead = s@;
    let mut i: usize = 0;
    proof {
        assert(all.skip(0) =~= all);
        assert(lead =~= if rooted {
            seq!['/']
        } else {
            Seq::empty()
        });
        assert(lead + joined_names(all) =~= rendered(Parts { rooted, names: all }));
    }
    while i < names.len()
        invariant
            i <= names@.len(),
            all == text::views(names@),
            s@ + joined_names(all.skip(i as int)) == lead + joined_names(all),
            lead + joined_names(all) == rendered(Parts { rooted, names: all }),
        decreases names@.len() - i,
    {
        let ghost rest = all.skip(i as int);
        let ghost before = s@;
        assert(rest[0] == names@[i as int]@);
        assert(rest.drop_first() =~= all.skip(i + 1));
        s.append(names[i].as_str());
        if i + 1 < names.len() {
            s.push('/');
            assert(s@ + joined_names(all.skip(i + 1)) =~= before + (rest[0] + seq!['/']
                + joined_names(all.skip(i + 1))));
        } else {
            assert(s@ + joined_names(all.skip(i + 1)) =~= before + rest[0]);
        }
        i = i + 1;
    }
    proof {
        assert(s@ + joined_names(all.skip(i as int)) =~= s@);
    }
    s
}

/// Carries `.` and `..` through.
fn settle(names: &[String]) -> (r: Vec<String>)
    ensures
        text::views(r@) == settled(text::views(names@)),
{
    let ghost all = text::views(names@);
    let mut stack: Vec<String> = Vec::new();
    let mut i: usize = 0;
    proof {
        assert(all.take(0) =~= Seq::empty());
        assert(text::views(stack@) =~= Seq::empty());
    }
    while i < names.len()
        invariant
            i <= names@.len(),
            all == text::views(names@),
            text::views(stack@) == settled(all.take(i as int)),
        decreases names@.len() - i,
    {
        let name: &str = names[i].as_str();
        let ghost before = stack@;
        proof {
            let t = all.take(i + 1);
            assert(t.last() == name@);
            assert(t.drop_last() =~= all.take(i as int));
        }
        if text::same(name, "..") {
            if stack.len() > 0 {
                let _ = stack.pop();
                assert(text::views(stack@) =~= text::views(before).drop_last());
            }
        } else if !text::same(name, ".") {
            stack.push(text::owned(name));
            assert(text::views(stack@) =~= text::views(before).push(name@));
        }
        i = i + 1;
    }
    assert(all.take(i as int) =~= all);
    stack
}

/// Carries `.` and `..` through a path, without looking at the disk.
pub fn lexical_normalize(path: &str) -> (r: String)
    ensures
        r@ == rendered(normal(path@)),
{
    let names = names_of(path);
    let stack = settle(names.as_slice());
    render(is_rooted(path), stack.as_slice())
}

/// Whether the names of one path begin with those of another.
fn begins_with(names: &[String], root: &[String]) -> (r: bool)
    ensures
        r == (root@.len() <= names@.len() && text::views(names@).take(root@.len() as int)
            == text::views(root@)),
{
    if root.len() > names.len() {
        return false;
    }
    let mut i: usize = 0;
    while i < root.len()
        invariant
            i <= root@.len() <= names@.len(),
            forall|k: int| 0 <= k < i ==> (#[trigger] names@[k])@ == root@[k]@,
        decreases root@.len() - i,
    {
        if !text::same(names[i].as_str(), root[i].as_str()) {
            proof {
                assert(text::views(names@).take(root@.len() as int)[i as int] != text::views(
                    root@,
                )[i as int]);
            }
            return false;
        }
        i = i + 1;
    }
    proof {
        assert(text::views(names@).take(root@.len() as int) =~= text::views(root@));
    }
    true
}

/// Whether one path lies at or under another.
pub fn starts_with(path: &str, root: &str) -> (r: bool)
    ensures
        r == under(parts(path@), parts(root@)),
{
    let p = names_of(path);
    let q = names_of(root);
    let rooted = is_rooted(root);
    (is_rooted(path) == rooted || (!rooted && q.len() == 0)) && begins_with(
        p.as_slice(),
        q.as_slice(),
    )
}

/// A path, behind a directory.
pub fn join(dir: &str, rel: &str) -> (r: String)
    ensures
        r@ == joined(dir@, rel@),
{
    if is_rooted(rel) {
        return text::owned(rel);
    }
    let v = text::chars_of(dir);
    let mut s = text::owned(dir);
    if v.len() > 0 && v[v.len() - 1] != '/' {
        s.push('/');
    }
    s.append(rel);
    assert(s@ =~= joined(dir@, rel@));
    s
}

/// The path of a URL, behind a directory: the place that is looked up on disk.
pub fn join_url(dir: &str, url_path: &str) -> (r: String)
    ensures
        r@ == url_joined(dir@, url_path@),
{
    let v = text::chars_of(url_path);
    let mut i: usize = 0;
    assert(url_path@.skip(0) =~= url_path@);
    while i < v.len() && v[i] == '/'
        invariant
            i <= v@.len(),
            v@ == url_path@,
            strip_slashes(url_path@) == strip_slashes(url_path@.skip(i as int)),
        decreases v@.len() - i,
    {
        assert(url_path@.skip(i as int).drop_first() =~= url_path@.skip(i + 1));
        i = i + 1;
    }
    assert(url_path@.skip(i as int) =~= url_path@.subrange(i as int, url_path@.len() as int));
    join(dir, url_path.substring_char(i, v.len()))
}

/// The directory that a path lies in; none for the root of the file system and
/// for the empty path.
pub open spec fn parent(p: Parts) -> Option<Seq<char>> {
    if p.names.len() == 0 {
        None
    } else {
        Some(rendered(Parts { rooted: p.rooted, names: p.names.drop_last() }))
    }
}

/// The directory that a path lies in.
pub fn parent_dir(path: &str) -> (r: Option<String>)
    ensures
        text::opt(r) == parent(parts(path@)),
{
    let mut names = names_of(path);
    let ghost all = text::views(names@);
    if names.len() == 0 {
        return None;
    }
    let _ = names.pop();
    assert(text::views(names@) =~= all.drop_last());
    Some(render(is_rooted(path), names.as_slice()))
}

/// Whether two paths say the same.
pub fn same_path(a: &str, b: &str) -> (r: bool)
    ensures
        r == (parts(a@) == parts(b@)),
{
    let p = names_of(a);
    let q = names_of(b);
    proof {
        if p@.len() == q@.len() {
            assert(text::views(p@).take(q@.len() as int) =~= text::views(p@));
        }
        assert(text::views(p@).len() == p@.len() && text::views(q@).len() == q@.len());
    }
    is_rooted(a) == is_rooted(b) && p.len() == q.len() && begins_with(p.as_slice(), q.as_slice())
}

// ---------------------------------------------------------------------------
// Resolving
// ---------------------------------------------------------------------------

/// Why a path cannot be resolved.
#[derive(Debug)]
pub enum PathError {
    /// It leads out of the root.
    Traversal,
    /// The root is not there.
    InvalidRoot(String),
}

/// A [`PathError`] with a text for its string.
#[verifier::ext_equal]
pub enum PathErrorView {
    Traversal,
    InvalidRoot(Seq<char>),
}

impl View for PathError {
    type V = PathErrorView;

    open spec fn view(&self) -> PathErrorView {
        match self {
            PathError::Traversal => PathErrorView::Traversal,
            PathError::InvalidRoot(r) => PathErrorView::InvalidRoot(r@),
        }
    }
}

impl PathError {
    /// The error as a sentence.
    pub fn message(&self) -> (r: String)
        ensures
            r@ == match self@ {
                PathErrorView::Traversal => "path traversal detected"@,
                PathErrorView::InvalidRoot(root) => "invalid root: "@ + root,
            },
    {
        match self {
            PathError::Traversal => text::owned("path traversal detected"),
            PathError::InvalidRoot(root) => text::joined("invalid root: ", root.as_str()),
        }
    }
}

/// Where the path of a URL leads under a root. `real_root` is the root as it
/// is on disk, with links followed, and `real_path` the place of the path, with
/// links followed, where there is anything. Where there is nothing, the path is
/// taken by its names.
pub open spec fn resolved(
    root: Seq<char>,
    url: Seq<char>,
    real_root: Option<Seq<char>>,
    real_path: Option<Seq<char>>,
) -> Result<Seq<char>, PathErrorView> {
    match real_root {
        None => Err(PathErrorView::InvalidRoot(root)),
        Some(r) => {
            let place = match real_path {
                Some(p) => p,
                None => rendered(normal(url_joined(r, url))),
            };
            if under(parts(place), parts(r)) {
                Ok(place)
            } else {
                Err(PathErrorView::Traversal)
            }
        },
    }
}

/// Where the path of a URL leads under a root, by its names alone.
pub open spec fn resolved_by_name(root: Seq<char>, url: Seq<char>) -> Result<
    Seq<char>,
    PathErrorView,
> {
    let place = rendered(normal(url_joined(root, url)));
    if under(parts(place), parts(rendered(normal(root)))) {
        Ok(place)
    } else {
        Err(PathErrorView::Traversal)
    }
}

/// Resolves the path of a URL under a root, given what following links on disk
/// made of the root, and of the root with the path behind it (see
/// [`join_url`]).
pub fn resolve_safe(
    root: &str,
    url_path: &str,
    real_root: Option<&str>,
    real_path: Option<&str>,
) -> (r: Result<String, PathError>)
    ensures
        match resolved(root@, url_path@, text::opt_str(real_root), text::opt_str(real_path)) {
            Ok(p) => r matches Ok(q) && q@ == p,
            Err(e) => r matches Err(f) && f@ == e,
        },
{
    let base = match real_root {
        Some(b) => b,
        None => {
            return Err(PathError::InvalidRoot(text::owned(root)));
        },
    };
    let place: String = match real_path {
        Some(p) => text::owned(p),
        None => lexical_normalize(join_url(base, url_path).as_str()),
    };
    if !starts_with(place.as_str(), base) {
        return Err(PathError::Traversal);
    }
    Ok(place)
}

/// Resolves the path of a URL under a root by its names alone, for places where
/// nothing need be yet.
pub fn resolve_safe_virtual(root: &str, url_path: &str) -> (r: Result<String, PathError>)
    ensures
        match resolved_by_name(root@, url_path@) {
            Ok(p) => r matches Ok(q) && q@ == p,
            Err(e) => r matches Err(f) && f@ == e,
        },
{
    let place = lexical_normalize(join_url(root, url_path).as_str());
    let base = lexical_normalize(root);
    if !starts_with(place.as_str(), base.as_str()) {
        return Err(PathError::Traversal);
    }
    Ok(place)
}

// ---------------------------------------------------------------------------
// Laws
// ---------------------------------------------------------------------------

/// Whether a text can stand as a name: it is not empty, no `.`, no `..`, and
/// holds no slash.
pub open spec fn plain_name(n: Seq<char>) -> bool {
    n.len() > 0 && n != "."@ && n != ".."@ && !n.contains('/')
}

/// Whether all names are plain.
pub open spec fn plain(names: Seq<Seq<char>>) -> bool {
    forall|i: int| 0 <= i < names.len() ==> plain_name(#[trigger] names[i])
}

/// No piece between slashes holds one.
proof fn lemma_split_pieces(s: Seq<char>)
    ensures
        forall|i: int|
            0 <= i < text::split_on(s, '/').len() ==> !(#[trigger] text::split_on(s, '/')[i]).contains(
                '/',
            ),
    decreases s.len(),
{
    let i = text::index_of(s, '/');
    text::lemma_index_of(s, '/');
    if i < s.len() {
        let rest = s.skip(i + 1);
        lemma_split_pieces(rest);
        let all = text::split_on(s, '/');
        assert forall|k: int| 0 <= k < all.len() implies !(#[trigger] all[k]).contains('/') by {
            if k == 0 {
                assert(all[0] == s.take(i));
            } else {
                assert(all[k] == text::split_on(rest, '/')[k - 1]);
            }
        }
    }
}

proof fn lemma_names_in(pieces: Seq<Seq<char>>, first: bool)
    requires
        forall|i: int| 0 <= i < pieces.len() ==> !(#[trigger] pieces[i]).contains('/'),
    ensures
        forall|i: int|
            0 <= i < names_in(pieces, first).len() ==> (#[trigger] names_in(pieces, first)[i]).len()
                > 0 && !names_in(pieces, first)[i].contains('/'),
    decreases pieces.len(),
{
    if pieces.len() > 0 {
        let rest = pieces.drop_first();
        assert forall|i: int| 0 <= i < rest.len() implies !(#[trigger] rest[i]).contains('/') by {
            assert(rest[i] == pieces[i + 1]);
        }
        lemma_names_in(rest, false);
        let all = names_in(pieces, first);
        let tail = names_in(rest, false);
        assert forall|i: int| 0 <= i < all.len() implies (#[trigger] all[i]).len() > 0
            && !all[i].contains('/') by {
            if all.len() == tail.len() + 1 {
                if i > 0 {
                    assert(all[i] == tail[i - 1]);
                }
            } else {
                assert(all[i] == tail[i]);
            }
        }
    }
}

proof fn lemma_settled_plain(names: Seq<Seq<char>>)
    requires
        forall|i: int|
            0 <= i < names.len() ==> (#[trigger] names[i]).len() > 0 && !names[i].contains('/'),
    ensures
        plain(settled(names)),
    decreases names.len(),
{
    if names.len() > 0 {
        lemma_settled_plain(names.drop_last());
    }
}

/// What a path says once it is normal is in plain names.
pub proof fn lemma_normal_plain(path: Seq<char>)
    ensures
        plain(normal(path).names),
{
    lemma_split_pieces(path);
    lemma_names_in(text::split_on(path, '/'), true);
    lemma_settled_plain(parts(path).names);
}

proof fn lemma_settled_of_plain(names: Seq<Seq<char>>)
    requires
        plain(names),
    ensures
        settled(names) == names,
    decreases names.len(),
{
    if names.len() > 0 {
        assert(plain_name(names[names.len() - 1]));
        lemma_settled_of_plain(names.drop_last());
        assert(names.drop_last().push(names.last()) =~= names);
    }
}

proof fn lemma_names_in_plain(names: Seq<Seq<char>>, first: bool)
    requires
        plain(names),
    ensures
        names_in(names, first) == names,
    decreases names.len(),
{
    if names.len() > 0 {
        assert(plain_name(names[0]));
        let rest = names.drop_first();
        assert forall|i: int| 0 <= i < rest.len() implies plain_name(#[trigger] rest[i]) by {
            assert(rest[i] == names[i + 1]);
        }
        lemma_names_in_plain(rest, false);
        assert(seq![names[0]] + rest =~= names);
    }
}

proof fn lemma_split_joined(names: Seq<Seq<char>>)
    requires
        plain(names),
        names.len() > 0,
    ensures
        text::split_on(joined_names(names), '/') == names,
        joined_names(names).len() > 0,
        joined_names(names)[0] == names[0][0],
    decreases names.len(),
{
    let s = joined_names(names);
    assert(plain_name(names[0]));
    if names.len() == 1 {
        text::lemma_index_of(s, '/');
        assert(seq![s] =~= names);
    } else {
        let rest = names.drop_first();
        assert forall|i: int| 0 <= i < rest.len() implies plain_name(#[trigger] rest[i]) by {
            assert(rest[i] == names[i + 1]);
        }
        lemma_split_joined(rest);
        let n = names[0].len() as int;
        assert(s[n] == '/');
        assert forall|j: int| 0 <= j < n implies s[j] != '/' by {
            assert(names[0].contains(names[0][j]));
            assert(s[j] == names[0][j]);
        }
        text::lemma_index_of_is(s, '/', n);
        assert(s.take(n) =~= names[0]);
        assert(s.skip(n + 1) =~= joined_names(rest));
        assert(seq![names[0]] + rest =~= names);
    }
}

/// A path written from plain names says those names.
pub proof fn lemma_parts_of_rendered(p: Parts)
    requires
        plain(p.names),
    ensures
        parts(rendered(p)) == p,
{
    let s = rendered(p);
    if p.names.len() == 0 {
        let j = joined_names(p.names);
        assert(j =~= Seq::empty());
        if p.rooted {
            assert(s =~= seq!['/']);
            text::lemma_index_of_is(s, '/', 0);
            assert(s.take(0) =~= Seq::empty());
            assert(s.skip(1) =~= Seq::empty());
            text::lemma_index_of(Seq::<char>::empty(), '/');
            let e = Seq::<char>::empty();
            assert(text::split_on(e, '/') =~= seq![e]);
            assert(text::split_on(s, '/') =~= seq![e, e]);
            reveal_with_fuel(names_in, 3);
            assert(seq![e, e].drop_first() =~= seq![e]);
            assert(seq![e].drop_first() =~= Seq::empty());
        } else {
            text::lemma_index_of(s, '/');
            assert(text::split_on(s, '/') =~= seq![s]);
            reveal_with_fuel(names_in, 2);
            assert(seq![s].drop_first() =~= Seq::empty());
        }
        assert(parts(s).names =~= p.names);
    } else {
        let j = joined_names(p.names);
        lemma_split_joined(p.names);
        assert(plain_name(p.names[0]));
        assert(p.names[0].contains(p.names[0][0]));
        if p.rooted {
            text::lemma_index_of_is(s, '/', 0);
            let e = Seq::<char>::empty();
            assert(s.take(0) =~= e);
            assert(s.skip(1) =~= j);
            let all = text::split_on(s, '/');
            assert(all == seq![e] + p.names);
            assert(all[0] =~= e);
            assert(all.drop_first() =~= p.names);
            lemma_names_in_plain(p.names, false);
        } else {
            lemma_names_in_plain(p.names, true);
        }
    }
}

/// Normalising a path once more changes nothing.
pub proof fn lemma_normalize_idempotent(path: Seq<char>)
    ensures
        rendered(normal(rendered(normal(path)))) == rendered(normal(path)),
{
    lemma_normal_plain(path);
    lemma_parts_of_rendered(normal(path));
    lemma_settled_of_plain(normal(path).names);
}

/// A path resolved by its names lies at or under the root, and holds no `..`
/// that could lead out of it.
pub proof fn lemma_resolved_by_name_stays(root: Seq<char>, url: Seq<char>)
    ensures
        resolved_by_name(root, url) matches Ok(p) ==> under(parts(p), normal(root)) && plain(
            parts(p).names,
        ),
{
    lemma_normal_plain(url_joined(root, url));
    lemma_parts_of_rendered(normal(url_joined(root, url)));
    lemma_normal_plain(root);
    lemma_parts_of_rendered(normal(root));
}

/// A path resolved on disk lies at or under the root on disk.
pub proof fn lemma_resolved_stays(
    root: Seq<char>,
    url: Seq<char>,
    real_root: Option<Seq<char>>,
    real_path: Option<Seq<char>>,
)
    ensures
        resolved(root, url, real_root, real_path) matches Ok(p) ==> (real_root matches Some(r)
            && under(parts(p), parts(r))),
{
}

proof fn lemma_names_in_parts(x: Seq<Seq<char>>, y: Seq<Seq<char>>, first: bool)
    ensures
        names_in(x + y, first) == names_in(x, first) + names_in(y, first && x.len() == 0),
    decreases x.len(),
{
    if x.len() == 0 {
        assert(x + y =~= y);
        assert(names_in(x, first) + names_in(y, first) =~= names_in(y, first));
    } else {
        lemma_names_in_parts(x.drop_first(), y, false);
        assert((x + y).drop_first() =~= x.drop_first() + y);
        assert((x + y)[0] == x[0]);
        assert(names_in(x + y, first) =~= names_in(x, first) + names_in(y, false));
    }
}

proof fn lemma_settled_parts(x: Seq<Seq<char>>, ns: Seq<Seq<char>>)
    requires
        plain(ns),
    ensures
        settled(x + ns) == settled(x) + ns,
    decreases ns.len(),
{
    if ns.len() == 0 {
        assert(x + ns =~= x);
        assert(settled(x) + ns =~= settled(x));
    } else {
        let less = ns.drop_last();
        assert forall|i: int| 0 <= i < less.len() implies plain_name(#[trigger] less[i]) by {
            assert(less[i] == ns[i]);
        }
        assert(plain_name(ns[ns.len() - 1]));
        lemma_settled_parts(x, less);
        assert((x + ns).drop_last() =~= x + less);
        assert((x + ns).last() == ns.last());
        assert(settled(x + ns) =~= settled(x) + ns);
    }
}

/// A dot says nothing, and two dots take away the name before them, or nothing
/// where there is none; other names stay, in their order.
pub proof fn lemma_dots(x: Seq<Seq<char>>, n: Seq<char>, ns: Seq<Seq<char>>)
    requires
        plain_name(n),
        plain(ns),
    ensures
        settled(x.push("."@)) == settled(x),
        settled(x.push(n).push(".."@)) == settled(x),
        settled(seq![".."@]).len() == 0,
        settled(x + ns) == settled(x) + ns,
        settled(ns) == ns,
{
    reveal_strlit(".");
    reveal_strlit("..");
    assert("."@.len() != ".."@.len());
    assert(x.push("."@).drop_last() =~= x);
    assert(x.push(n).push(".."@).drop_last() =~= x.push(n));
    assert(x.push(n).drop_last() =~= x);
    assert(settled(x.push(n)) == settled(x).push(n));
    assert((settled(x).push(n)).drop_last() =~= settled(x));
    let one = seq![".."@];
    assert(one.drop_last() =~= Seq::empty());
    assert(settled(one.drop_last()) =~= Seq::empty());
    assert(one.last() == ".."@);
    let two = x.push(n).push(".."@);
    assert(two.last() == ".."@);
    assert(settled(two) == settled(x.push(n)).drop_last());
    lemma_settled_parts(x, ns);
    lemma_settled_of_plain(ns);
}

/// One more name is written behind a slash.
pub proof fn lemma_one_more_name(names: Seq<Seq<char>>, n: Seq<char>)
    ensures
        names.len() > 0 ==> joined_names(names.push(n)) == joined_names(names) + seq!['/'] + n,
        joined_names(seq![n]) == n,
    decreases names.len(),
{
    let more = names.push(n);
    if names.len() == 1 {
        assert(more.drop_first() =~= seq![n]);
        assert(joined_names(seq![n]) == n);
        assert(joined_names(more) =~= joined_names(names) + seq!['/'] + n);
    } else if names.len() > 1 {
        lemma_one_more_name(names.drop_first(), n);
        assert(more.drop_first() =~= names.drop_first().push(n));
        assert(joined_names(more) =~= joined_names(names) + seq!['/'] + n);
    }
}

/// A path behind a directory is the directory, a slash and the path, with one
/// slash where the directory ends in one; and it says the names of the directory
/// and then its own.
pub proof fn lemma_behind(dir: Seq<char>, ns: Seq<Seq<char>>)
    requires
        dir.len() > 0,
        ns.len() > 0,
        plain(ns),
    ensures
        dir.last() != '/' ==> url_joined(dir, seq!['/'] + joined_names(ns)) == dir + seq!['/']
            + joined_names(ns),
        dir.last() == '/' ==> url_joined(dir, seq!['/'] + joined_names(ns)) == dir + joined_names(
            ns,
        ),
        joined(dir, joined_names(ns)) == url_joined(dir, seq!['/'] + joined_names(ns)),
        parts(joined(dir, joined_names(ns))) == (Parts {
            rooted: dir[0] == '/',
            names: parts(dir).names + ns,
        }),
{
    let rel = joined_names(ns);
    lemma_split_joined(ns);
    assert(plain_name(ns[0]));
    assert(ns[0].contains(ns[0][0]));
    let url = seq!['/'] + rel;
    assert(url.drop_first() =~= rel);
    assert(strip_slashes(rel) == rel);
    assert(strip_slashes(url) == rel);
    let whole = joined(dir, rel);
    let pieces = text::split_on(rel, '/');
    assert(pieces == ns);
    lemma_names_in_plain(ns, false);
    text::lemma_split_on_pieces(dir, '/');
    if dir.last() == '/' {
        let d = dir.drop_last();
        let e = Seq::<char>::empty();
        assert(dir =~= d + seq!['/'] + e);
        text::lemma_split_on_parts(d, '/', e);
        text::lemma_split_on_parts(e, '/', e);
        assert(!e.contains('/'));
        assert(whole =~= d + seq!['/'] + rel);
        text::lemma_split_on_parts(d, '/', rel);
        text::lemma_split_on_pieces(d, '/');
        lemma_names_in_parts(text::split_on(d, '/'), ns, true);
        lemma_names_in_parts(text::split_on(d, '/'), seq![e], true);
        assert(seq![e].drop_first() =~= Seq::empty());
        reveal_with_fuel(names_in, 2);
        assert(names_in(seq![e], false) =~= Seq::empty());
        assert(parts(dir).names =~= names_in(text::split_on(d, '/'), true));
    } else {
        assert(whole =~= dir + seq!['/'] + rel);
        text::lemma_split_on_parts(dir, '/', rel);
        lemma_names_in_parts(text::split_on(dir, '/'), ns, true);
    }
    assert(whole[0] == dir[0]);
    assert(parts(whole).names =~= parts(dir).names + ns);
}

/// A path of plain names leads where they say: to the root and then by each of
/// them, in order. With a root that is written plainly, that is the root, a slash
/// and the names.
pub proof fn lemma_leads_where_named(root: Seq<char>, ns: Seq<Seq<char>>)
    requires
        root.len() > 0,
        ns.len() > 0,
        plain(ns),
    ensures
        resolved_by_name(root, seq!['/'] + joined_names(ns)) == Ok::<Seq<char>, PathErrorView>(
            rendered(Parts { rooted: root[0] == '/', names: normal(root).names + ns }),
        ),
        rendered(normal(root)) == root && normal(root).names.len() > 0 ==> resolved_by_name(
            root,
            seq!['/'] + joined_names(ns),
        ) == Ok::<Seq<char>, PathErrorView>(root + seq!['/'] + joined_names(ns)),
{
    lemma_behind(root, ns);
    let place = url_joined(root, seq!['/'] + joined_names(ns));
    lemma_settled_parts(parts(root).names, ns);
    lemma_normal_plain(root);
    let p = Parts { rooted: root[0] == '/', names: normal(root).names + ns };
    assert(normal(place) == p);
    assert(plain(p.names)) by {
        assert forall|i: int| 0 <= i < p.names.len() implies plain_name(#[trigger] p.names[i]) by {
            if i < normal(root).names.len() {
                assert(p.names[i] == normal(root).names[i]);
            } else {
                assert(p.names[i] == ns[i - normal(root).names.len()]);
            }
        }
    }
    lemma_parts_of_rendered(p);
    lemma_parts_of_rendered(normal(root));
    assert(p.names.take(normal(root).names.len() as int) =~= normal(root).names);
    if rendered(normal(root)) == root && normal(root).names.len() > 0 {
        lemma_join_names(normal(root).names, ns);
        assert(rendered(p) =~= root + seq!['/'] + joined_names(ns));
    }
}

proof fn lemma_join_names(a: Seq<Seq<char>>, b: Seq<Seq<char>>)
    requires
        a.len() > 0,
        b.len() > 0,
    ensures
        joined_names(a + b) == joined_names(a) + seq!['/'] + joined_names(b),
    decreases a.len(),
{
    if a.len() == 1 {
        assert((a + b).drop_first() =~= b);
        assert(joined_names(a + b) =~= joined_names(a) + seq!['/'] + joined_names(b));
    } else {
        lemma_join_names(a.drop_first(), b);
        assert((a + b).drop_first() =~= a.drop_first() + b);
        assert(joined_names(a + b) =~= joined_names(a) + seq!['/'] + joined_names(b));
    }
}

/// What stands on disk is served where it lies at the root or under it, as the
/// names say, and nowhere else; and nothing is where the root is not there.
pub proof fn lemma_on_disk(
    root: Seq<char>,
    url: Seq<char>,
    at: Parts,
    more: Seq<Seq<char>>,
    other: Parts,
)
    requires
        plain(at.names),
        plain(more),
        plain(other.names),
        at.rooted,
        other.rooted,
    ensures
        resolved(
            root,
            url,
            Some(rendered(at)),
            Some(rendered(Parts { rooted: true, names: at.names + more })),
        ) == Ok::<Seq<char>, PathErrorView>(
            rendered(Parts { rooted: true, names: at.names + more }),
        ),
        (other.names.len() < at.names.len() || exists|i: int|
            0 <= i < at.names.len() && i < other.names.len() && #[trigger] other.names[i]
                != at.names[i]) ==> resolved(
            root,
            url,
            Some(rendered(at)),
            Some(rendered(other)),
        ) == Err::<Seq<char>, PathErrorView>(PathErrorView::Traversal),
        resolved(root, url, None, Some(rendered(other))) == Err::<Seq<char>, PathErrorView>(
            PathErrorView::InvalidRoot(root),
        ),
{
    let p = Parts { rooted: true, names: at.names + more };
    assert(plain(p.names)) by {
        assert forall|i: int| 0 <= i < p.names.len() implies plain_name(#[trigger] p.names[i]) by {
            if i < at.names.len() {
                assert(p.names[i] == at.names[i]);
            } else {
                assert(p.names[i] == more[i - at.names.len()]);
            }
        }
    }
    lemma_parts_of_rendered(p);
    lemma_parts_of_rendered(at);
    lemma_parts_of_rendered(other);
    assert(p.names.take(at.names.len() as int) =~= at.names);
    if exists|i: int|
        0 <= i < at.names.len() && i < other.names.len() && #[trigger] other.names[i]
            != at.names[i] {
        let i = choose|i: int|
            0 <= i < at.names.len() && i < other.names.len() && #[trigger] other.names[i]
                != at.names[i];
        if other.names.len() >= at.names.len() {
            assert(other.names.take(at.names.len() as int)[i] == other.names[i]);
        }
    }
}

/// The directory of a path is the path without its last name.
pub proof fn lemma_parent(p: Parts, n: Seq<char>)
    requires
        plain(p.names),
        plain_name(n),
    ensures
        parent(parts(rendered(Parts { rooted: p.rooted, names: p.names.push(n) }))) == Some(
            rendered(p),
        ),
{
    let q = Parts { rooted: p.rooted, names: p.names.push(n) };
    assert forall|i: int| 0 <= i < q.names.len() implies plain_name(#[trigger] q.names[i]) by {
        if i < p.names.len() {
            assert(q.names[i] == p.names[i]);
        }
    }
    lemma_parts_of_rendered(q);
    assert(q.names.drop_last() =~= p.names);
    assert(p == (Parts { rooted: p.rooted, names: p.names }));
}

/// A path says one name more for what stands behind its last slash; nothing
/// and a dot are no names there, but a path that is a dot, or begins with one, says
/// it.
pub proof fn lemma_parts_of(a: Seq<char>, n: Seq<char>)
    requires
        !n.contains('/'),
    ensures
        parts(a + seq!['/'] + n).names == parts(a).names + if n.len() == 0 || n == "."@ {
            Seq::empty()
        } else {
            seq![n]
        },
        n.len() > 0 ==> parts(n) == (Parts { rooted: false, names: seq![n] }),
        parts(Seq::empty()) == (Parts { rooted: false, names: Seq::empty() }),
        parts(a + seq!['/'] + n).rooted == (a.len() == 0 || a[0] == '/'),
{
    reveal_with_fuel(names_in, 2);
    let e = Seq::<char>::empty();
    assert(!e.contains('/'));
    text::lemma_split_on_parts(a, '/', n);
    text::lemma_split_on_parts(n, '/', e);
    text::lemma_split_on_parts(e, '/', e);
    text::lemma_split_on_pieces(a, '/');
    let x = text::split_on(a, '/');
    lemma_names_in_parts(x, seq![n], true);
    assert(seq![n].drop_first() =~= Seq::empty());
    assert(seq![e].drop_first() =~= Seq::empty());
    assert(names_in(seq![n], false) =~= if n.len() == 0 || n == "."@ {
        Seq::empty()
    } else {
        seq![n]
    });
    if n.len() > 0 {
        assert(n.contains(n[0]));
        assert(parts(n).names =~= seq![n]);
    }
    assert(parts(e).names =~= Seq::empty());
    let s = a + seq!['/'] + n;
    if a.len() > 0 {
        assert(s[0] == a[0]);
    } else {
        assert(s[0] == '/');
    }
}

/// All the slashes in front of a URL are left out, however many there are.
pub proof fn lemma_slashes(k: nat, s: Seq<char>)
    requires
        s.len() > 0 ==> s[0] != '/',
    ensures
        strip_slashes(Seq::new(k, |i: int| '/') + s) == s,
    decreases k,
{
    let t = Seq::new(k, |i: int| '/') + s;
    if k > 0 {
        lemma_slashes((k - 1) as nat, s);
        assert(t[0] == '/');
        assert(t.drop_first() =~= Seq::new((k - 1) as nat, |i: int| '/') + s);
    } else {
        assert(t =~= s);
    }
}

/// A path that begins with a slash stands for itself behind any directory, and so
/// does every path behind no directory; else the two have one slash between them.
pub proof fn lemma_joined(dir: Seq<char>, rel: Seq<char>)
    ensures
        joined(dir, seq!['/'] + rel) == seq!['/'] + rel,
        joined(Seq::empty(), rel) == rel,
        !(rel.len() > 0 && rel[0] == '/') ==> joined(dir + seq!['/'], rel) == dir + seq!['/'] + rel,
        !(rel.len() > 0 && rel[0] == '/') && dir.len() > 0 && dir.last() != '/' ==> joined(dir, rel)
            == dir + seq!['/'] + rel,
{
}

/// A path of plain names leads where they say under the root on disk, where
/// nothing stands there yet.
pub proof fn lemma_nothing_there(root: Seq<char>, at: Parts, ns: Seq<Seq<char>>)
    requires
        at.rooted,
        plain(at.names),
        plain(ns),
        ns.len() > 0,
    ensures
        resolved(root, seq!['/'] + joined_names(ns), Some(rendered(at)), None) == Ok::<
            Seq<char>,
            PathErrorView,
        >(rendered(Parts { rooted: true, names: at.names + ns })),
{
    let dir = rendered(at);
    lemma_parts_of_rendered(at);
    lemma_behind(dir, ns);
    lemma_settled_parts(at.names, ns);
    lemma_settled_of_plain(at.names);
    let p = Parts { rooted: true, names: at.names + ns };
    assert(normal(url_joined(dir, seq!['/'] + joined_names(ns))) == p);
    assert(plain(p.names)) by {
        assert forall|i: int| 0 <= i < p.names.len() implies plain_name(#[trigger] p.names[i]) by {
            if i < at.names.len() {
                assert(p.names[i] == at.names[i]);
            } else {
                assert(p.names[i] == ns[i - at.names.len()]);
            }
        }
    }
    lemma_parts_of_rendered(p);
    assert(p.names.take(at.names.len() as int) =~= at.names);
}

/// A path lies under another where it says its names, and then others or none;
/// every path lies under the empty one.
pub proof fn lemma_under(p: Parts, more: Seq<Seq<char>>, other: Parts)
    ensures
        under((Parts { rooted: p.rooted, names: p.names + more }), p),
        under(p, (Parts { rooted: false, names: Seq::empty() })),
        under(other, p) ==> other.names == p.names + other.names.skip(p.names.len() as int),
        under(other, p) && (p.rooted || p.names.len() > 0) ==> other.rooted == p.rooted,
{
    assert((p.names + more).take(p.names.len() as int) =~= p.names);
    assert(p.names.take(0) =~= Seq::empty());
    if under(other, p) {
        assert(other.names =~= other.names.take(p.names.len() as int) + other.names.skip(
            p.names.len() as int,
        ));
    }
}

} // verus!
