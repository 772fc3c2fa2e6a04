//! Paths written with `/`: the names they hold, their extensions, and the
//! paths that every platform reads the same way.

use vstd::prelude::*;
use crate::store::{name_start, last_dot};

verus! {

/// The pieces of `p` between its `/` characters, in order (a path without
/// `/` is one piece, the empty path one empty piece).
pub open spec fn slash_pieces(p: Seq<char>) -> Seq<Seq<char>>
    decreases p.len(),
{
    if p.len() == 0 {
        seq![Seq::empty()]
    } else {
        let ps = slash_pieces(p.drop_last());
        if p.last() == '/' {
            ps.push(Seq::empty())
        } else {
            ps.update(ps.len() - 1, ps.last().push(p.last()))
        }
    }
}

/// A piece that names a file or a folder: not empty, `.` or `..`.
pub open spec fn is_name_piece(s: Seq<char>) -> bool {
    s.len() > 0 && s != seq!['.'] && s != seq!['.', '.']
}

/// The pieces of `ps` that name something, in order.
pub open spec fn kept_pieces(ps: Seq<Seq<char>>) -> Seq<Seq<char>>
    decreases ps.len(),
{
    if ps.len() == 0 {
        Seq::empty()
    } else {
        let rest = kept_pieces(ps.drop_last());
        if is_name_piece(ps.last()) {
            rest.push(ps.last())
        } else {
            rest
        }
    }
}

/// The file and folder names of a `/` path, in order: empty pieces, `.`
/// and `..` are no names.
pub open spec fn slash_names(p: Seq<char>) -> Seq<Seq<char>> {
    kept_pieces(slash_pieces(p))
}

/// A component of a path as a plain value: its kind (0 for a drive or
/// share prefix, 1 for the root, 2 for `.`, 3 for `..`, 4 for a name) and
/// its text (for a prefix or a name).
pub type PartView = (int, Seq<char>);

/// The components that the pieces `ps` of a path give, the path being
/// rooted or not: empty pieces give none; `.` gives one only as the first
/// piece of a path that is not rooted; `..` and names give one each.
pub open spec fn piece_parts(ps: Seq<Seq<char>>, rooted: bool) -> Seq<PartView>
    decreases ps.len(),
{
    if ps.len() == 0 {
        Seq::empty()
    } else {
        let rest = piece_parts(ps.drop_last(), rooted);
        let s = ps.last();
        if s.len() == 0 {
            rest
        } else if s == seq!['.'] {
            if ps.len() == 1 && !rooted {
                rest.push((2, Seq::empty()))
            } else {
                rest
            }
        } else if s == seq!['.', '.'] {
            rest.push((3, Seq::empty()))
        } else {
            rest.push((4, s))
        }
    }
}

/// Whether a path starts at the root.
pub open spec fn rooted(p: Seq<char>) -> bool {
    p.len() > 0 && p[0] == '/'
}

/// The components of a `/` path: the root when it starts with `/`, then
/// those of its pieces.
pub open spec fn slash_components(p: Seq<char>) -> Seq<PartView> {
    (if rooted(p) {
        seq![(1int, Seq::<char>::empty())]
    } else {
        Seq::empty()
    }) + piece_parts(slash_pieces(p), rooted(p))
}

/// The names among components, in order.
pub open spec fn part_names(parts: Seq<PartView>) -> Seq<Seq<char>>
    decreases parts.len(),
{
    if parts.len() == 0 {
        Seq::empty()
    } else {
        let rest = part_names(parts.drop_last());
        if parts.last().0 == 4 {
            rest.push(parts.last().1)
        } else {
            rest
        }
    }
}

/// A path that reads the same on every platform: no `\` (a separator on
/// Windows only), no `:` (drive prefixes) and no leading `//` (network
/// shares).
pub open spec fn portable_path(p: Seq<char>) -> bool {
    &&& !p.contains('\\')
    &&& !p.contains(':')
    &&& !(p.len() >= 2 && p[0] == '/' && p[1] == '/')
}

/// What follows the last `/` or `\` of a path.
pub open spec fn last_part(p: Seq<char>) -> Seq<char> {
    p.subrange(name_start(p) as int, p.len() as int)
}

/// A portable path to a file: its last part names something.
pub open spec fn plain_file_path(p: Seq<char>) -> bool {
    portable_path(p) && is_name_piece(last_part(p))
}

/// The extension of a file name: what follows its last `.`, unless that
/// `.` is its first character (`.profile` has none).
pub open spec fn extension_in_name(name: Seq<char>) -> Option<Seq<char>> {
    match last_dot(name) {
        Some(d) => if d > 0 {
            Some(name.subrange(d + 1 as int, name.len() as int))
        } else {
            None
        },
        None => None,
    }
}

/// A character of plain file names: a lower-case ASCII letter, a digit,
/// `.` or `_`.
pub open spec fn is_plain_char(c: char) -> bool {
    ('a' <= c && c <= 'z') || ('0' <= c && c <= '9') || c == '.' || c == '_'
}

/// Whether every character of `s` is plain.
pub open spec fn all_plain(s: Seq<char>) -> bool
    decreases s.len(),
{
    s.len() == 0 || (is_plain_char(s.last()) && all_plain(s.drop_last()))
}

/// [`all_plain`] says that each character is plain.
pub proof fn lemma_all_plain(s: Seq<char>)
    requires
        all_plain(s),
    ensures
        forall|k: int| 0 <= k < s.len() ==> is_plain_char(#[trigger] s[k]),
    decreases s.len(),
{
    if s.len() > 0 {
        lemma_all_plain(s.drop_last());
        assert forall|k: int| 0 <= k < s.len() implies is_plain_char(#[trigger] s[k]) by {
            if k < s.len() - 1 {
                assert(s[k] == s.drop_last()[k]);
            }
        }
    }
}

/// Whether `e` follows a `.` somewhere in `p`.
pub open spec fn follows_a_dot(p: Seq<char>, e: Seq<char>) -> bool {
    exists|i: int| 0 <= i && i + 1 + e.len() <= p.len() && p[i] == '.' && #[trigger] p.subrange(i + 1, i + 1 + e.len()) == e
}

/// A path without separators starts its own last part.
pub proof fn lemma_no_separator_start(p: Seq<char>)
    requires
        !p.contains('/'),
        !p.contains('\\'),
    ensures
        name_start(p) == 0,
        last_part(p) == p,
    decreases p.len(),
{
    if p.len() > 0 {
        let q = p.drop_last();
        assert(!q.contains('/') && !q.contains('\\')) by {
            if q.contains('/') {
                let k = choose|k: int| 0 <= k < q.len() && q[k] == '/';
                assert(p[k] == '/');
            }
            if q.contains('\\') {
                let k = choose|k: int| 0 <= k < q.len() && q[k] == '\\';
                assert(p[k] == '\\');
            }
        }
        assert(p.last() == p[p.len() - 1]);
        lemma_no_separator_start(q);
    }
    assert(p.subrange(0, p.len() as int) =~= p);
}

/// The last `.` of `a.e` is the one after `a` when `e` has none.
pub proof fn lemma_last_dot_before(a: Seq<char>, e: Seq<char>)
    requires
        !e.contains('.'),
    ensures
        last_dot(a + seq!['.'] + e) == Some(a.len()),
    decreases e.len(),
{
    let p = a + seq!['.'] + e;
    if e.len() == 0 {
        assert(p.last() == '.');
    } else {
        assert(p.last() == e[e.len() - 1]);
        let e2 = e.drop_last();
        assert(!e2.contains('.')) by {
            if e2.contains('.') {
                let k = choose|k: int| 0 <= k < e2.len() && e2[k] == '.';
                assert(e[k] == '.');
            }
        }
        lemma_last_dot_before(a, e2);
        assert(p.drop_last() =~= a + seq!['.'] + e2);
    }
}

/// A name without `/` is a single piece.
pub proof fn lemma_single_piece(p: Seq<char>)
    requires
        !p.contains('/'),
    ensures
        slash_pieces(p) == seq![p],
    decreases p.len(),
{
    if p.len() > 0 {
        let q = p.drop_last();
        assert(!q.contains('/')) by {
            if q.contains('/') {
                let k = choose|k: int| 0 <= k < q.len() && q[k] == '/';
                assert(p[k] == '/');
            }
        }
        lemma_single_piece(q);
        assert(p.last() != '/') by {
            assert(p[p.len() - 1] == p.last());
        }
        assert(q.push(p.last()) =~= p);
    } else {
        assert(p =~= Seq::<char>::empty());
    }
}

/// A name without `/` that names something is its own list of names, and
/// joins back to itself.
pub proof fn lemma_single_name(p: Seq<char>)
    requires
        !p.contains('/'),
        is_name_piece(p),
    ensures
        slash_pieces(p) == seq![p],
        slash_names(p) == seq![p],
{
    lemma_single_piece(p);
    let ps = seq![p];
    assert(ps.drop_last() =~= Seq::<Seq<char>>::empty());
    assert(kept_pieces(ps.drop_last()) =~= Seq::<Seq<char>>::empty());
    assert(kept_pieces(ps) =~= seq![p]);
}

} // verus!
