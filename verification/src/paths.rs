//! Paths of files as lists of components: two paths are the same where their
//! components are, however many slashes their texts hold.

use crate::endpoints::texts;
use vstd::prelude::*;
use vstd::string::{StrSliceExecFns, StringExecFns};

verus! {

/// The parts of a text between its slashes, empty ones too.
pub open spec fn parts(text: Seq<char>) -> Seq<Seq<char>>
    decreases text.len(),
{
    if text.len() == 0 {
        seq![text]
    } else {
        let before = parts(text.drop_last());
        if text.last() == '/' {
            before.push(Seq::empty())
        } else {
            before.drop_last().push(before.last().push(text.last()))
        }
    }
}

/// A part of a path is a component: it is neither empty nor a single dot.
pub open spec fn counts(part: Seq<char>) -> bool {
    part.len() > 0 && part != "."@
}

/// What stands before the first slash-separated component: the root of an
/// absolute path, or the dot with which a relative path begins.
pub open spec fn path_start(text: Seq<char>) -> Seq<Seq<char>> {
    if text.len() > 0 && text[0] == '/' {
        seq!["/"@]
    } else if parts(text)[0] == "."@ {
        seq!["."@]
    } else {
        Seq::empty()
    }
}

/// The components of a path: where it starts, and then its parts but for empty
/// ones and single dots.
pub open spec fn path_components(text: Seq<char>) -> Seq<Seq<char>> {
    path_start(text) + parts(text).filter(|part: Seq<char>| counts(part))
}

/// One path lies in another, or is the same; paths are lists of components.
pub open spec fn lies_in(inner: Seq<Seq<char>>, outer: Seq<Seq<char>>) -> bool {
    outer.len() <= inner.len() && inner.take(outer.len() as int) == outer
}

/// There is always a part, and a part holds no slash.
proof fn lemma_parts(text: Seq<char>)
    ensures
        parts(text).len() > 0,
        parts(text)[0].len() <= text.len(),
        forall|k: int| 0 <= k < parts(text)[0].len() ==> parts(text)[0][k] == text[k],
        parts(text)[0].len() < text.len() ==> text[parts(text)[0].len() as int] == '/',
        parts(text).len() == 1 <==> parts(text)[0].len() == text.len(),
        forall|k: int| 0 <= k < parts(text)[0].len() ==> text[k] != '/',
    decreases text.len(),
{
    if text.len() > 0 {
        let shorter = text.drop_last();
        lemma_parts(shorter);
        assert forall|k: int| 0 <= k < shorter.len() implies shorter[k] == text[k] by {}
        let first = parts(shorter)[0];
        if text.last() != '/' && parts(shorter).len() == 1 {
            assert(parts(text)[0] == first.push(text.last()));
        } else {
            assert(parts(text)[0] == first);
            assert(first.len() < shorter.len() ==> shorter[first.len() as int] == '/');
        }
    }
}

proof fn lemma_filter_push(list: Seq<Seq<char>>, part: Seq<char>)
    ensures
        list.push(part).filter(|part: Seq<char>| counts(part)) == (if counts(part) {
            list.filter(|part: Seq<char>| counts(part)).push(part)
        } else {
            list.filter(|part: Seq<char>| counts(part))
        }),
{
    reveal(Seq::filter);
    assert(list.push(part).drop_last() =~= list);
}

fn starts_at(text: &str) -> (start: Vec<String>)
    ensures
        texts(start@) == path_start(text@),
{
    proof {
        lemma_parts(text@);
        reveal_strlit(".");
    }
    let mut start: Vec<String> = Vec::new();
    let length: usize = text.unicode_len();
    if length == 0 {
        assert(texts(start@) =~= path_start(text@));
        return start;
    }
    if text.get_char(0) == '/' {
        start.push("/".to_owned());
        assert(texts(start@) =~= path_start(text@));
        return start;
    }
    let dot = text.get_char(0) == '.' && (length == 1 || text.get_char(1) == '/');
    proof {
        let first = parts(text@)[0];
        assert(first.len() > 0);
        if dot {
            assert(first.len() == 1) by {
                if first.len() > 1 {
                    assert(text@[1] != '/');
                }
            }
            assert(first =~= "."@);
        } else {
            assert(first != "."@) by {
                if first == "."@ {
                    assert(first[0] == '.' && first.len() == 1);
                }
            }
        }
    }
    if dot {
        start.push(".".to_owned());
    }
    assert(texts(start@) =~= path_start(text@));
    start
}

fn add_part(list: &mut Vec<String>, text: &str, from: usize, to: usize)
    requires
        from <= to <= text@.len(),
    ensures
        texts(final(list)@) == (if counts(text@.subrange(from as int, to as int)) {
            texts(old(list)@).push(text@.subrange(from as int, to as int))
        } else {
            texts(old(list)@)
        }),
{
    let part = text.substring_char(from, to).to_owned();
    if part.as_str().unicode_len() == 0 {
        return;
    }
    if part == String::from_str(".") {
        return;
    }
    list.push(part);
    assert(texts(list@) =~= texts(old(list)@).push(text@.subrange(from as int, to as int)));
}

/// The components of a path.
pub fn components_of(text: &str) -> (components: Vec<String>)
    ensures
        texts(components@) == path_components(text@),
{
    let mut components = starts_at(text);
    let ghost start = texts(components@);
    let length: usize = text.unicode_len();
    let mut from: usize = 0;
    let mut i: usize = 0;
    proof {
        reveal(Seq::filter);
        assert(parts(text@.take(0)) =~= seq![text@.subrange(0, 0)]);
        assert(parts(text@.take(0)).drop_last() =~= Seq::empty());
        assert(texts(components@) =~= start + parts(text@.take(0)).drop_last().filter(
            |part: Seq<char>| counts(part),
        ));
    }
    while i < length
        invariant
            from <= i <= length == text@.len(),
            parts(text@.take(i as int)).len() > 0,
            parts(text@.take(i as int)).last() == text@.subrange(from as int, i as int),
            texts(components@) == start + parts(text@.take(i as int)).drop_last().filter(
                |part: Seq<char>| counts(part),
            ),
        decreases length - i,
    {
        let ghost before = parts(text@.take(i as int));
        assert(text@.take(i + 1).drop_last() =~= text@.take(i as int));
        if text.get_char(i) == '/' {
            let ghost part = text@.subrange(from as int, i as int);
            let ghost earlier = texts(components@);
            add_part(&mut components, text, from, i);
            from = i + 1;
            proof {
                lemma_filter_push(before.drop_last(), part);
                assert(before.drop_last().push(part) =~= before);
                assert(parts(text@.take(i + 1)).drop_last() =~= before);
                assert(text@.subrange(i + 1, i + 1) =~= Seq::empty());
                assert(texts(components@) =~= start + before.filter(
                    |part: Seq<char>| counts(part),
                ));
            }
        } else {
            proof {
                assert(parts(text@.take(i + 1)).drop_last() =~= before.drop_last());
                assert(text@.subrange(from as int, i + 1) =~= before.last().push(text@[i as int]));
            }
        }
        i += 1;
    }
    proof {
        assert(text@.take(length as int) =~= text@);
        let all = parts(text@);
        lemma_filter_push(all.drop_last(), all.last());
        assert(all.drop_last().push(all.last()) =~= all);
    }
    add_part(&mut components, text, from, length);
    assert(texts(components@) =~= path_components(text@));
    components
}

fn starts_with(inner: &Vec<String>, outer: &Vec<String>) -> (result: bool)
    ensures
        result == lies_in(texts(inner@), texts(outer@)),
{
    if outer.len() > inner.len() {
        return false;
    }
    let ghost all = texts(inner@);
    let ghost prefix = texts(outer@);
    let mut i: usize = 0;
    while i < outer.len()
        invariant
            i <= outer@.len() <= inner@.len(),
            all == texts(inner@),
            prefix == texts(outer@),
            forall|k: int| 0 <= k < i ==> #[trigger] all[k] == prefix[k],
        decreases outer@.len() - i,
    {
        assert(all[i as int] == inner@[i as int]@);
        assert(prefix[i as int] == outer@[i as int]@);
        if inner[i] != outer[i] {
            proof {
                if lies_in(all, prefix) {
                    assert(all.take(prefix.len() as int)[i as int] == prefix[i as int]);
                }
            }
            return false;
        }
        i += 1;
    }
    assert(all.take(prefix.len() as int) =~= prefix);
    true
}

/// Whether two texts are the same path.
pub fn same_path(a: &str, b: &str) -> (same: bool)
    ensures
        same == (path_components(a@) == path_components(b@)),
{
    let left = components_of(a);
    let right = components_of(b);
    proof {
        overlap_is_mutual(texts(left@), texts(right@));
    }
    starts_with(&left, &right) && starts_with(&right, &left)
}

/// Whether one of two paths lies in the other, or they are the same.
pub fn directories_overlap(state: &str, cache: &str) -> (overlap: bool)
    ensures
        overlap == (lies_in(path_components(state@), path_components(cache@)) || lies_in(
            path_components(cache@),
            path_components(state@),
        )),
{
    let state = components_of(state);
    let cache = components_of(cache);
    starts_with(&state, &cache) || starts_with(&cache, &state)
}

/// Whether two directories overlap does not depend on which is named first,
/// and a directory overlaps with itself.
pub proof fn overlap_is_mutual(a: Seq<Seq<char>>, b: Seq<Seq<char>>)
    ensures
        lies_in(a, a),
        (lies_in(a, b) && lies_in(b, a)) == (a == b),
{
    assert(a.take(a.len() as int) =~= a);
    if lies_in(a, b) && lies_in(b, a) {
        assert(a.take(b.len() as int) =~= a);
    }
}

/// The parts of two texts with a slash between them are those of the one and
/// those of the other.
proof fn lemma_parts_joined(a: Seq<char>, b: Seq<char>)
    ensures
        parts(a.push('/') + b) == parts(a) + parts(b),
    decreases b.len(),
{
    lemma_parts(b);
    let whole = a.push('/') + b;
    if b.len() == 0 {
        assert(whole.drop_last() =~= a);
        assert(b =~= Seq::empty());
        assert(parts(whole) =~= parts(a) + parts(b));
    } else {
        lemma_parts_joined(a, b.drop_last());
        lemma_parts(b.drop_last());
        assert(whole.drop_last() =~= a.push('/') + b.drop_last());
        assert(parts(whole) =~= parts(a) + parts(b));
    }
}

proof fn lemma_filter_joined(a: Seq<Seq<char>>, b: Seq<Seq<char>>)
    ensures
        (a + b).filter(|part: Seq<char>| counts(part)) == a.filter(|part: Seq<char>| counts(part))
            + b.filter(|part: Seq<char>| counts(part)),
    decreases b.len(),
{
    if b.len() == 0 {
        reveal(Seq::filter);
        assert(a + b =~= a);
        assert(a.filter(|part: Seq<char>| counts(part)) =~= a.filter(
            |part: Seq<char>| counts(part),
        ) + b.filter(|part: Seq<char>| counts(part)));
    } else {
        lemma_filter_joined(a, b.drop_last());
        assert((a + b) =~= (a + b.drop_last()).push(b.last()));
        assert(b =~= b.drop_last().push(b.last()));
        lemma_filter_push(a + b.drop_last(), b.last());
        lemma_filter_push(b.drop_last(), b.last());
        assert((a + b).filter(|part: Seq<char>| counts(part)) =~= a.filter(
            |part: Seq<char>| counts(part),
        ) + b.filter(|part: Seq<char>| counts(part)));
    }
}

/// A part on its own counts, or nothing does.
proof fn lemma_filter_one(part: Seq<char>)
    ensures
        seq![part].filter(|part: Seq<char>| counts(part)) == (if counts(part) {
            seq![part]
        } else {
            Seq::empty()
        }),
{
    reveal(Seq::filter);
    let none = Seq::<Seq<char>>::empty();
    lemma_filter_push(none, part);
    assert(none.push(part) =~= seq![part]);
}

proof fn lemma_joined(a: Seq<char>, b: Seq<char>)
    requires
        a.len() > 0,
    ensures
        path_components(a.push('/') + b) == path_start(a) + parts(a).filter(
            |part: Seq<char>| counts(part),
        ) + parts(b).filter(|part: Seq<char>| counts(part)),
{
    lemma_parts(a);
    lemma_parts_joined(a, b);
    lemma_filter_joined(parts(a), parts(b));
    let whole = a.push('/') + b;
    assert(whole[0] == a[0]);
    assert(path_start(whole) == path_start(a));
    assert(path_components(whole) =~= path_start(a) + parts(a).filter(
        |part: Seq<char>| counts(part),
    ) + parts(b).filter(|part: Seq<char>| counts(part)));
}

/// A path is the same with a slash at its end, with two slashes in place of one,
/// and with a single dot between two slashes.
pub proof fn slashes_and_dots_change_no_path(a: Seq<char>, b: Seq<char>)
    requires
        a.len() > 0,
    ensures
        path_components(a.push('/')) == path_components(a),
        path_components(a.push('/').push('/') + b) == path_components(a.push('/') + b),
        path_components(a.push('/').push('.').push('/') + b) == path_components(a.push('/') + b),
{
    reveal_strlit(".");
    let none = Seq::<char>::empty();
    assert(parts(none) =~= seq![none]);
    lemma_filter_one(none);
    lemma_joined(a, none);
    assert(a.push('/') + none =~= a.push('/'));
    assert(path_components(a.push('/')) =~= path_components(a));
    lemma_joined(a, b);
    lemma_parts_joined(none, b);
    lemma_filter_joined(parts(none), parts(b));
    lemma_joined(a, none.push('/') + b);
    assert(a.push('/') + (none.push('/') + b) =~= a.push('/').push('/') + b);
    let dot = none.push('.');
    assert(dot =~= "."@);
    assert(dot.drop_last() =~= none);
    assert(parts(dot) =~= seq![dot]);
    lemma_filter_one(dot);
    lemma_parts_joined(dot, b);
    lemma_filter_joined(parts(dot), parts(b));
    lemma_joined(a, dot.push('/') + b);
    assert(a.push('/') + (dot.push('/') + b) =~= a.push('/').push('.').push('/') + b);
    assert(path_components(a.push('/').push('/') + b) =~= path_components(a.push('/') + b));
    assert(path_components(a.push('/').push('.').push('/') + b) =~= path_components(
        a.push('/') + b,
    ));
}

} // verus!
