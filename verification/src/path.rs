//! What a path is made of, as far as that is the same on Unix and on Windows.
use crate::text::{joined, law_split_of_texts, lemma_one_piece, split_at_each};
use vstd::prelude::*;
use vstd::string::*;

verus! {

/// A path that Unix and Windows take apart in the same way, at its slashes: no drives, no
/// backslashes and no network names.
pub open spec fn is_portable(path: Seq<char>) -> bool {
    &&& !path.contains('\\')
    &&& !path.contains(':')
    &&& !(path.len() >= 2 && path[0] == '/' && path[1] == '/')
}

/// Pieces without those that stand for nothing: empty ones, and dots that are not in front.
pub open spec fn kept_pieces(pieces: Seq<Seq<char>>) -> Seq<Seq<char>>
    decreases pieces.len(),
{
    if pieces.len() == 0 {
        Seq::empty()
    } else {
        let before = kept_pieces(pieces.drop_last());
        if pieces.last().len() == 0 || (pieces.last() == "."@ && pieces.len() > 1) {
            before
        } else {
            before.push(pieces.last())
        }
    }
}

/// What lies between the slashes of a path, behind the slash that it may start with. Repeated
/// slashes, slashes at the end and dots are no part of it, except for a dot in front.
pub open spec fn components(path: Seq<char>) -> Seq<Seq<char>> {
    kept_pieces(split_at_each(path, '/'))
}

/// A character that separates the parts of a path on Unix or on Windows.
pub open spec fn is_separator(c: char) -> bool {
    c == '/' || c == '\\'
}

/// Two separators in front can be the start of a network name, in which every one of them counts.
pub open spec fn can_be_network_name(path: Seq<char>) -> bool {
    path.len() >= 2 && is_separator(path[0]) && is_separator(path[1])
}

/// A path without the slashes and dots that stand for nothing. The slash behind a drive stands for
/// its root, and stays.
pub open spec fn without_extra_slashes(path: Seq<char>) -> Seq<char> {
    let parts = components(path);
    let rest = joined(parts, "/"@);
    if path.len() > 0 && path[0] == '/' {
        "/"@ + rest
    } else if parts.len() == 1 && parts[0].last() == ':' && path.contains('/') {
        rest + "/"@
    } else {
        rest
    }
}

/// The plainest way to write a path that is the same path on Unix and on Windows alike.
pub open spec fn normal_path(path: Seq<char>) -> Seq<char> {
    let plain = without_extra_slashes(path);
    if can_be_network_name(path) || can_be_network_name(plain) {
        path
    } else {
        plain
    }
}

/// The file name of a portable path: its last component, unless that stands for another directory.
pub open spec fn file_name(path: Seq<char>) -> Option<Seq<char>> {
    let parts = components(path);
    if parts.len() > 0 && parts.last() != "."@ && parts.last() != ".."@ {
        Some(parts.last())
    } else {
        None
    }
}

/// Where the last occurrence of a character is, or minus one.
pub open spec fn last_position(s: Seq<char>, c: char) -> int
    decreases s.len(),
{
    if s.len() == 0 {
        -1
    } else if s.last() == c {
        s.len() - 1
    } else {
        last_position(s.drop_last(), c)
    }
}

/// The extension of a file name: what follows its last dot, unless that is also its first
/// character.
pub open spec fn name_extension(name: Seq<char>) -> Option<Seq<char>> {
    let dot = last_position(name, '.');
    if dot > 0 {
        Some(name.subrange(dot + 1, name.len() as int))
    } else {
        None
    }
}

/// The extension of a portable path: that of its file name.
pub open spec fn extension(path: Seq<char>) -> Option<Seq<char>> {
    match file_name(path) {
        Some(name) => name_extension(name),
        None => None,
    }
}

/// What follows the last separator or colon of a path.
pub open spec fn last_part(path: Seq<char>) -> Seq<char>
    decreases path.len(),
{
    if path.len() == 0 || is_separator(path.last()) || path.last() == ':' {
        Seq::empty()
    } else {
        last_part(path.drop_last()).push(path.last())
    }
}

/// A path whose last part belongs to its file name on Unix and on Windows, whatever else does.
pub open spec fn ends_in_a_name(path: Seq<char>) -> bool {
    &&& !can_be_network_name(path)
    &&& last_part(path).len() > 0
    &&& last_part(path)[0] != '.'
}

/// The extension of a path, on the platform that the program is built for.
pub uninterp spec fn std_extension(path: Seq<char>) -> Option<Seq<char>>;

/// What an optional string says.
pub open spec fn option_view(s: Option<String>) -> Option<Seq<char>> {
    match s {
        Some(s) => Some(s@),
        None => None,
    }
}

/// The extension of a path, as `std::path::Path::extension` gives it: the portion of its file name
/// behind the final dot. `std_extension` is the name of the result, since what the file name of a
/// path is depends on the platform, and is settled when the program is built. Two things are the
/// same on Unix and on Windows. The file name of a portable path is known. And where a path ends in a name, a
/// dot in that is the final one; without such a dot, an extension can only start further in front,
/// where backslashes and colons can be part of a file name, and then holds one of them.
#[verifier::external_body]
pub(crate) fn path_extension(path: &str) -> (r: Option<String>)
    ensures
        option_view(r) == std_extension(path@),
        is_portable(path@) ==> option_view(r) == extension(path@),
        ends_in_a_name(path@) ==> match name_extension(last_part(path@)) {
            Some(word) => option_view(r) == Some(word),
            None => r matches Some(word) ==> word@.contains('\\') || word@.contains(':'),
        },
{
    std::path::Path::new(path).extension().map(|e| e.to_string_lossy().into_owned())
}

/// Pieces are kept one by one, whatever follows.
proof fn lemma_kept_concat(front: Seq<Seq<char>>, a: Seq<Seq<char>>, b: Seq<Seq<char>>)
    requires
        kept_pieces(front) == kept_pieces(a),
        front.len() > 0,
        a.len() > 0,
    ensures
        kept_pieces(front + b) == kept_pieces(a + b),
    decreases b.len(),
{
    if b.len() == 0 {
        assert(front + b =~= front);
        assert(a + b =~= a);
    } else {
        lemma_kept_concat(front, a, b.drop_last());
        assert((front + b).drop_last() =~= front + b.drop_last());
        assert((a + b).drop_last() =~= a + b.drop_last());
    }
}

/// An empty piece, or a dot, behind something else stands for nothing.
proof fn lemma_extra_piece(front: Seq<char>, piece: Seq<char>, rest: Seq<char>)
    requires
        front.len() > 0,
        piece.len() == 0 || piece == "."@,
        rest.len() == 0 || rest[0] == '/',
    ensures
        components(front + seq!['/'] + piece + rest) == components(front + rest),
{
    reveal_strlit(".");
    let slash = seq!['/'];
    let x = split_at_each(front, '/');
    let y = split_at_each(rest, '/');
    let longer = x.push(piece);
    law_split_of_texts(front, rest, '/');
    law_split_of_texts(front + slash + piece, rest, '/');
    lemma_first_piece_is_empty(rest);
    assert((front + slash).drop_last() =~= front);
    assert(split_at_each(front + slash, '/') == x.push(Seq::empty()));
    assert(split_at_each(front + slash + piece, '/') =~= longer) by {
        if piece.len() == 0 {
            assert(front + slash + piece =~= front + slash);
            assert(piece =~= Seq::<char>::empty());
        } else {
            assert(piece =~= seq!['.']);
            assert((front + slash + piece).drop_last() =~= front + slash);
            assert(Seq::<char>::empty().push('.') =~= piece);
        }
    }
    assert(x.last() + y[0] =~= x.last());
    assert(longer.last() + y[0] =~= piece);
    assert(split_at_each(front + rest, '/') =~= x + y.drop_first());
    assert(split_at_each(front + slash + piece + rest, '/') =~= longer + y.drop_first());
    assert(longer.drop_last() =~= x);
    assert(kept_pieces(longer) == kept_pieces(x));
    lemma_kept_concat(longer, x, y.drop_first());
}

/// Repeated slashes, slashes at the end, and dots behind a slash do not matter: it is the same path
/// without them, with the same extension. Only the first slash behind a drive stands for something.
pub proof fn law_extra_slashes_do_not_matter(front: Seq<char>, dot: bool, rest: Seq<char>)
    requires
        front.len() > 0,
        rest.len() == 0 || rest[0] == '/',
        rest.len() > 0 || front.contains('/') || front.last() != ':',
        !can_be_network_name(front + rest),
        !can_be_network_name(front + seq!['/'] + rest),
    ensures
        ({
            let piece = if dot {
                "."@
            } else {
                Seq::empty()
            };
            &&& without_extra_slashes(front + seq!['/'] + piece + rest) == without_extra_slashes(
                front + rest,
            )
            &&& extension(front + seq!['/'] + piece + rest) == extension(front + rest)
            &&& !can_be_network_name(without_extra_slashes(front + rest)) ==> normal_path(
                front + seq!['/'] + piece + rest,
            ) == normal_path(front + rest)
        }),
{
    reveal_strlit(".");
    let piece = if dot {
        "."@
    } else {
        Seq::empty()
    };
    let longer = front + seq!['/'] + piece + rest;
    let shorter = front + rest;
    lemma_extra_piece(front, piece, rest);
    assert(longer[0] == front[0] && shorter[0] == front[0]);
    assert(longer[front.len() as int] == '/');
    assert(longer.contains('/'));
    if rest.len() > 0 {
        assert(shorter[front.len() as int] == '/');
        assert(shorter.contains('/'));
    } else {
        assert(shorter =~= front);
        if !front.contains('/') {
            lemma_no_slash(front);
        }
    }
    if front.len() >= 2 {
        assert(longer[1] == front[1] && shorter[1] == front[1]);
    } else {
        assert(longer[1] == '/');
        assert((front + seq!['/'] + rest)[1] == '/');
    }
}

/// Without a slash, all of a path is one component, if there is anything.
proof fn lemma_no_slash(path: Seq<char>)
    requires
        !path.contains('/'),
        path.len() > 0,
    ensures
        components(path) == seq![path],
{
    lemma_one_piece(path, '/');
    reveal_with_fuel(kept_pieces, 2);
    assert(seq![path].drop_last() =~= Seq::<Seq<char>>::empty());
    assert(kept_pieces(seq![path]) =~= seq![path]);
}

/// A text that is empty, or starts with a slash, has nothing in front of its first slash.
proof fn lemma_first_piece_is_empty(text: Seq<char>)
    requires
        text.len() == 0 || text[0] == '/',
    ensures
        split_at_each(text, '/')[0] == Seq::<char>::empty(),
        split_at_each(text, '/').len() > 0,
        text.len() > 0 ==> split_at_each(text, '/').len() > 1,
    decreases text.len(),
{
    if text.len() > 0 {
        lemma_first_piece_is_empty(text.drop_last());
    }
}

/// What stands behind the dot at the end of a path is its extension.
pub proof fn lemma_extension_of_a_name(front: Seq<char>, word: Seq<char>)
    requires
        ends_in_a_name(front),
        !word.contains('.'),
        !word.contains('/'),
        !word.contains('\\'),
        !word.contains(':'),
    ensures
        ends_in_a_name(front + seq!['.'] + word),
        last_part(front + seq!['.'] + word) == last_part(front) + seq!['.'] + word,
        name_extension(last_part(front + seq!['.'] + word)) == Some(word),
{
    let path = front + seq!['.'] + word;
    lemma_last_part_grows(front, seq!['.'] + word);
    assert(front + (seq!['.'] + word) =~= path);
    let name = last_part(front) + seq!['.'] + word;
    assert(last_part(front) + (seq!['.'] + word) =~= name);
    lemma_last_dot(last_part(front), word);
    assert(name.subrange(last_part(front).len() as int + 1, name.len() as int) =~= word);
    lemma_last_part_is_shorter(front);
    if front.len() >= 2 {
        assert(path[0] == front[0] && path[1] == front[1]);
    } else {
        assert(path[1] == '.');
    }
}

/// The last part of a path is no longer than the path.
proof fn lemma_last_part_is_shorter(path: Seq<char>)
    ensures
        last_part(path).len() <= path.len(),
    decreases path.len(),
{
    if path.len() > 0 {
        lemma_last_part_is_shorter(path.drop_last());
    }
}

/// More of a name belongs to the last part.
proof fn lemma_last_part_grows(front: Seq<char>, more: Seq<char>)
    requires
        forall|k: int|
            0 <= k < more.len() ==> !is_separator(#[trigger] more[k]) && more[k] != ':',
    ensures
        last_part(front + more) == last_part(front) + more,
    decreases more.len(),
{
    if more.len() == 0 {
        assert(front + more =~= front);
        assert(last_part(front) + more =~= last_part(front));
    } else {
        let less = more.drop_last();
        lemma_last_part_grows(front, less);
        assert((front + more).drop_last() =~= front + less);
        assert((front + more).last() == more[more.len() - 1]);
        assert(last_part(front) + more =~= (last_part(front) + less).push(more.last()));
    }
}

/// The last dot is the one that no other follows.
proof fn lemma_last_dot(front: Seq<char>, word: Seq<char>)
    requires
        !word.contains('.'),
    ensures
        last_position(front + seq!['.'] + word, '.') == front.len(),
    decreases word.len(),
{
    let name = front + seq!['.'] + word;
    if word.len() == 0 {
        assert(name =~= front + seq!['.']);
    } else {
        let less = word.drop_last();
        assert(!less.contains('.')) by {
            if less.contains('.') {
                let k = choose|k: int| 0 <= k < less.len() && less[k] == '.';
                assert(word[k] == '.');
            }
        }
        assert(word[word.len() - 1] == word.last());
        lemma_last_dot(front, less);
        assert(name.drop_last() =~= front + seq!['.'] + less);
        assert(name.last() == word.last());
    }
}

} // verus!
