//! Splitting a path into the names of its components.

use vstd::prelude::*;

verus! {

pub const SEPARATOR: char = '/';

/// The pieces of `path` between separators, empty ones among them.
pub open spec fn pieces(path: Seq<char>) -> Seq<Seq<char>>
    decreases path.len(),
{
    if path.len() == 0 {
        seq![Seq::<char>::empty()]
    } else {
        let before = pieces(path.drop_last());
        if path.last() == SEPARATOR {
            before.push(Seq::<char>::empty())
        } else {
            before.drop_last().push(before.last().push(path.last()))
        }
    }
}

/// The names that `path` is made of: its non-empty pieces, in order.
pub open spec fn components(path: Seq<char>) -> Seq<Seq<char>> {
    pieces(path).filter(|piece: Seq<char>| piece.len() > 0)
}

/// The names of `names`, as sequences of characters.
pub open spec fn texts(names: Seq<String>) -> Seq<Seq<char>> {
    names.map_values(|name: String| name@)
}

proof fn lemma_filter_push(pieces: Seq<Seq<char>>, piece: Seq<char>)
    ensures
        pieces.push(piece).filter(|p: Seq<char>| p.len() > 0) == if piece.len() > 0 {
            pieces.filter(|p: Seq<char>| p.len() > 0).push(piece)
        } else {
            pieces.filter(|p: Seq<char>| p.len() > 0)
        },
{
    reveal(Seq::filter);
    assert(pieces.push(piece).drop_last() =~= pieces);
}

/// Splits `path` at separators and drops the empty pieces, so that leading,
/// trailing and doubled separators do not matter.
pub fn split_path(path: &str) -> (names: Vec<String>)
    ensures
        texts(names@) == components(path@),
{
    let mut names: Vec<String> = Vec::new();
    let len: usize = path.unicode_len();
    let mut start: usize = 0;
    let mut i: usize = 0;
    proof {
        reveal(Seq::filter);
        assert(path@.subrange(0, 0) =~= Seq::<char>::empty());
        assert(pieces(Seq::<char>::empty()).drop_last() =~= Seq::<Seq<char>>::empty());
    }
    for c in it: path.chars()
        invariant
            it.seq() == path@,
            len == path@.len(),
            i == it.index(),
            start <= i <= len,
            pieces(path@.subrange(0, i as int)).len() > 0,
            pieces(path@.subrange(0, i as int)).last() == path@.subrange(start as int, i as int),
            texts(names@) == pieces(path@.subrange(0, i as int)).drop_last().filter(
                |p: Seq<char>| p.len() > 0,
            ),
    {
        let ghost before = path@.subrange(0, i as int);
        let ghost after = path@.subrange(0, i + 1);
        assert(after.drop_last() =~= before);
        if c == SEPARATOR {
            proof {
                lemma_filter_push(pieces(before).drop_last(), pieces(before).last());
                assert(pieces(before).drop_last().push(pieces(before).last()) =~= pieces(before));
                assert(pieces(after).drop_last() =~= pieces(before));
            }
            if start < i {
                let ghost old_names = names@;
                names.push(path.substring_char(start, i).to_owned());
                assert(texts(names@) =~= texts(old_names).push(names@.last()@));
            }
            start = i + 1;
        } else {
            assert(pieces(after).drop_last() =~= pieces(before).drop_last());
            assert(path@.subrange(start as int, i + 1) =~= path@.subrange(
                start as int,
                i as int,
            ).push(c));
        }
        i += 1;
    }
    proof {
        assert(path@.subrange(0, i as int) =~= path@);
        lemma_filter_push(pieces(path@).drop_last(), pieces(path@).last());
        assert(pieces(path@).drop_last().push(pieces(path@).last()) =~= pieces(path@));
    }
    if start < i {
        let ghost old_names = names@;
        names.push(path.substring_char(start, i).to_owned());
        assert(texts(names@) =~= texts(old_names).push(names@.last()@));
    }
    names
}

proof fn lemma_pieces_some(path: Seq<char>)
    ensures
        pieces(path).len() > 0,
    decreases path.len(),
{
    if path.len() > 0 {
        lemma_pieces_some(path.drop_last());
    }
}

proof fn lemma_pieces_joined(front: Seq<char>, back: Seq<char>)
    ensures
        pieces(front.push(SEPARATOR) + back) == pieces(front) + pieces(back),
    decreases back.len(),
{
    let path = front.push(SEPARATOR) + back;
    if back.len() == 0 {
        assert(path =~= front.push(SEPARATOR));
        assert(path.drop_last() =~= front);
    } else {
        lemma_pieces_some(back.drop_last());
        lemma_pieces_joined(front, back.drop_last());
        assert(path.drop_last() =~= front.push(SEPARATOR) + back.drop_last());
        let before = pieces(front) + pieces(back.drop_last());
        assert(before.drop_last() =~= pieces(front) + pieces(back.drop_last()).drop_last());
    }
}

/// A separator joins two paths: the components are those of the one followed
/// by those of the other. So a separator in front, at the end or after
/// another one adds nothing.
pub proof fn law_separator_joins(front: Seq<char>, back: Seq<char>)
    ensures
        components(front.push(SEPARATOR) + back) == components(front) + components(back),
        components(Seq::<char>::empty()) == Seq::<Seq<char>>::empty(),
        components(seq![SEPARATOR] + back) == components(back),
        components(front.push(SEPARATOR)) == components(front),
        components(front.push(SEPARATOR).push(SEPARATOR) + back) == components(
            front.push(SEPARATOR) + back,
        ),
{
    let none = Seq::<char>::empty();
    assert(components(none) == Seq::<Seq<char>>::empty()) by {
        reveal(Seq::filter);
        lemma_filter_push(Seq::<Seq<char>>::empty(), none);
        assert(Seq::<Seq<char>>::empty().push(none) =~= pieces(none));
    }
    lemma_joined(front, back);
    lemma_joined(none, back);
    assert(none.push(SEPARATOR) =~= seq![SEPARATOR]);
    lemma_joined(front, none);
    assert(front.push(SEPARATOR) + none =~= front.push(SEPARATOR));
    lemma_joined(front.push(SEPARATOR), back);
}

proof fn lemma_joined(front: Seq<char>, back: Seq<char>)
    ensures
        components(front.push(SEPARATOR) + back) == components(front) + components(back),
{
    lemma_pieces_joined(front, back);
    Seq::filter_distributes_over_add(
        pieces(front),
        pieces(back),
        |piece: Seq<char>| piece.len() > 0,
    );
}

/// A name can stand between two separators: it is not empty and holds none.
pub open spec fn is_name(name: Seq<char>) -> bool {
    name.len() > 0 && !name.contains(SEPARATOR)
}

/// Names, one after the other, with a separator after each.
pub open spec fn joined(names: Seq<Seq<char>>) -> Seq<char>
    decreases names.len(),
{
    if names.len() == 0 {
        Seq::empty()
    } else {
        (joined(names.drop_last()) + names.last()).push(SEPARATOR)
    }
}

proof fn lemma_one_piece(name: Seq<char>)
    requires
        !name.contains(SEPARATOR),
    ensures
        pieces(name) == seq![name],
    decreases name.len(),
{
    if name.len() > 0 {
        assert forall|c: char| name.drop_last().contains(c) implies name.contains(c) by {
            let i = choose|i: int| 0 <= i < name.len() - 1 && name.drop_last()[i] == c;
            assert(name[i] == c);
        }
        lemma_one_piece(name.drop_last());
        assert(name.contains(name.last()));
        assert(name.drop_last().push(name.last()) =~= name);
        assert(pieces(name) =~= seq![name]);
    } else {
        assert(name =~= Seq::<char>::empty());
    }
}

/// A path made of names has those names as its components.
pub proof fn law_joined_names_are_components(names: Seq<Seq<char>>)
    requires
        forall|i: int| 0 <= i < names.len() ==> is_name(#[trigger] names[i]),
    ensures
        components(joined(names)) == names,
    decreases names.len(),
{
    if names.len() == 0 {
        law_separator_joins(Seq::empty(), Seq::empty());
    } else {
        let front = names.drop_last();
        let name = names.last();
        law_joined_names_are_components(front);
        law_separator_joins(joined(front) + name, Seq::empty());
        lemma_one_piece(name);
        assert(is_name(name));
        assert(components(name) == seq![name]) by {
            lemma_filter_push(Seq::<Seq<char>>::empty(), name);
            reveal(Seq::filter);
            assert(Seq::<Seq<char>>::empty().push(name) =~= seq![name]);
        }
        if front.len() == 0 {
            assert(joined(front) + name =~= name);
        } else {
            let way = joined(front.drop_last()) + front.last();
            lemma_joined(way, name);
            assert(joined(front) + name =~= way.push(SEPARATOR) + name);
            law_separator_joins(way, Seq::empty());
        }
        assert(names =~= front + seq![name]);
    }
}

proof fn lemma_pieces_clean(path: Seq<char>, i: int)
    requires
        0 <= i < pieces(path).len(),
    ensures
        !pieces(path)[i].contains(SEPARATOR),
    decreases path.len(),
{
    if path.len() > 0 {
        let before = pieces(path.drop_last());
        lemma_pieces_some(path.drop_last());
        if i < before.len() {
            lemma_pieces_clean(path.drop_last(), i);
        }
        if path.last() != SEPARATOR && i == before.len() - 1 {
            let piece = before.last().push(path.last());
            if piece.contains(SEPARATOR) {
                let k = choose|k: int| 0 <= k < piece.len() && piece[k] == SEPARATOR;
                assert(before.last()[k] == SEPARATOR);
            }
        }
    }
}

/// Every component of a path is a name.
pub proof fn law_components_are_names(path: Seq<char>, i: int)
    requires
        0 <= i < components(path).len(),
    ensures
        is_name(components(path)[i]),
{
    let named = |piece: Seq<char>| piece.len() > 0;
    let all = pieces(path);
    all.lemma_filter_contains_rev(named, components(path)[i]);
    let k = choose|k: int| 0 <= k < all.len() && all[k] == components(path)[i];
    lemma_pieces_clean(path, k);
    all.lemma_filter_pred(named, i);
}

} // verus!
