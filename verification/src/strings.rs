//! Strings: membership in a list, and splitting at `::`.

use vstd::prelude::*;
use vstd::string::StrSliceExecFns;

use crate::sequences::views;

verus! {

/// Whether a string is in a list.
pub fn contains_string(list: &Vec<String>, string: &String) -> (found: bool)
    ensures
        found == views(list@).contains(string@),
{
    for i in 0..list.len()
        invariant
            forall|j: int| 0 <= j < i ==> views(list@)[j] != string@,
    {
        assert(views(list@)[i as int] == list@[i as int]@);
        if list[i] == *string {
            return true;
        }
    }
    false
}

/// A copy of a list of strings.
pub fn clone_strings(list: &Vec<String>) -> (copy: Vec<String>)
    ensures
        copy@ == list@,
{
    let mut copy: Vec<String> = Vec::new();
    for i in 0..list.len()
        invariant
            copy@ == list@.take(i as int),
    {
        copy.push(list[i].clone());
        assert(copy@ =~= list@.take(i + 1));
    }
    assert(copy@ =~= list@);
    copy
}

/// There is a `::` at position `i`.
pub open spec fn separator_at(text: Seq<char>, i: int) -> bool {
    0 <= i < text.len() - 1 && text[i] == ':' && text[i + 1] == ':'
}

/// The leftmost `::` is at position `i`.
pub open spec fn first_separator_at(text: Seq<char>, i: int) -> bool {
    separator_at(text, i) && forall|j: int| 0 <= j < i ==> !separator_at(text, j)
}

/// The parts of a text between its `::`, which are found from left to right and do not overlap.
pub open spec fn split_path(text: Seq<char>) -> Seq<Seq<char>>
    decreases text.len(),
{
    if exists|i: int| first_separator_at(text, i) {
        let i = choose|i: int| first_separator_at(text, i);
        seq![text.take(i)] + split_path(text.skip(i + 2))
    } else {
        seq![text]
    }
}

proof fn lemma_split_at_first(text: Seq<char>, i: int)
    requires
        first_separator_at(text, i),
    ensures
        split_path(text) == seq![text.take(i)] + split_path(text.skip(i + 2)),
{
    let chosen = choose|k: int| first_separator_at(text, k);
    assert(first_separator_at(text, chosen));
    if chosen < i {
        assert(separator_at(text, chosen));
    } else if i < chosen {
        assert(separator_at(text, i));
    }
}

fn chars_of(text: &str) -> (chars: Vec<char>)
    ensures
        chars@ == text@,
{
    let mut chars: Vec<char> = Vec::new();
    for c in it: text.chars()
        invariant
            it.seq() == text@,
            chars@ == it.seq().take(it.index() as int),
    {
        chars.push(c);
        assert(chars@ =~= it.seq().take(it.index() + 1));
    }
    assert(chars@ =~= text@);
    chars
}

/// Splits a text at every `::`.
pub fn split_at_separators(text: &str) -> (parts: Vec<String>)
    ensures
        views(parts@) == split_path(text@),
{
    let chars = chars_of(text);
    let mut parts: Vec<String> = Vec::new();
    let mut start: usize = 0;
    let mut i: usize = 0;
    assert(text@.skip(0) =~= text@);
    assert(views(parts@) + split_path(text@.skip(0)) =~= split_path(text@));
    while i < chars.len()
        invariant
            chars@ == text@,
            start <= i <= chars.len(),
            views(parts@) + split_path(text@.skip(start as int)) == split_path(text@),
            forall|j: int| 0 <= j < i - start ==> !separator_at(text@.skip(start as int), j),
        decreases chars.len() - i,
    {
        let ghost rest = text@.skip(start as int);
        if chars.len() - i > 1 && chars[i] == ':' && chars[i + 1] == ':' {
            let part = text.substring_char(start, i).to_string();
            let ghost before = parts@;
            parts.push(part);
            proof {
                assert(first_separator_at(rest, i - start));
                lemma_split_at_first(rest, i - start);
                assert(rest.take(i - start) =~= part@);
                assert(rest.skip(i - start + 2) =~= text@.skip(i + 2));
                assert(views(parts@) =~= views(before).push(part@));
                assert(views(parts@) + split_path(text@.skip(i + 2)) =~= views(before)
                    + split_path(rest));
            }
            i = i + 2;
            start = i;
        } else {
            assert(!separator_at(rest, i - start));
            i = i + 1;
        }
    }
    let ghost rest = text@.skip(start as int);
    let last = text.substring_char(start, chars.len()).to_string();
    let ghost before = parts@;
    parts.push(last);
    proof {
        assert forall|j: int| !first_separator_at(rest, j) by {
            if separator_at(rest, j) {
                assert(j < rest.len());
            }
        }
        assert(last@ =~= rest);
        assert(views(parts@) =~= views(before) + seq![rest]);
    }
    parts
}

/// Parts put together with `::` between them.
pub open spec fn join_path(parts: Seq<Seq<char>>) -> Seq<char>
    decreases parts.len(),
{
    if parts.len() == 0 {
        seq![]
    } else if parts.len() == 1 {
        parts[0]
    } else {
        parts[0] + seq![':', ':'] + join_path(parts.drop_first())
    }
}

/// A text that has a `::` has a leftmost one, at or before it.
proof fn lemma_first_separator(text: Seq<char>, i: int)
    requires
        separator_at(text, i),
    ensures
        exists|k: int| first_separator_at(text, k),
    decreases i,
{
    if exists|j: int| 0 <= j < i && separator_at(text, j) {
        let j = choose|j: int| 0 <= j < i && separator_at(text, j);
        lemma_first_separator(text, j);
    } else {
        assert(first_separator_at(text, i));
    }
}

/// Splitting loses nothing: the parts put together again are the text.
pub proof fn law_parts_join_back(text: Seq<char>)
    ensures
        split_path(text).len() > 0,
        join_path(split_path(text)) == text,
    decreases text.len(),
{
    if exists|i: int| first_separator_at(text, i) {
        let i = choose|i: int| first_separator_at(text, i);
        let rest = text.skip(i + 2);
        law_parts_join_back(rest);
        lemma_split_at_first(text, i);
        assert(split_path(text).drop_first() =~= split_path(rest));
        assert(text.take(i) + seq![':', ':'] + rest =~= text);
    } else {
        assert(join_path(seq![text]) == text);
    }
}

/// No part has a `::` in it.
pub proof fn law_parts_have_no_separator(text: Seq<char>, part: int, i: int)
    requires
        0 <= part < split_path(text).len(),
    ensures
        !separator_at(split_path(text)[part], i),
    decreases text.len(),
{
    if exists|k: int| first_separator_at(text, k) {
        let k = choose|k: int| first_separator_at(text, k);
        lemma_split_at_first(text, k);
        if part == 0 {
            if separator_at(text.take(k), i) {
                assert(separator_at(text, i));
            }
        } else {
            law_parts_have_no_separator(text.skip(k + 2), part - 1, i);
        }
    } else if separator_at(text, i) {
        lemma_first_separator(text, i);
    }
}

/// A part that goes before a `::` and has no colon in it is split off as it is.
proof fn lemma_split_off(part: Seq<char>, rest: Seq<char>)
    requires
        !part.contains(':'),
    ensures
        split_path(part + seq![':', ':'] + rest) == seq![part] + split_path(rest),
{
    let text = part + seq![':', ':'] + rest;
    let i = part.len() as int;
    assert(first_separator_at(text, i)) by {
        assert forall|j: int| 0 <= j < i implies !separator_at(text, j) by {
            assert(part.contains(part[j]));
            assert(text[j] == part[j]);
        }
    }
    lemma_split_at_first(text, i);
    assert(text.take(i) =~= part);
    assert(text.skip(i + 2) =~= rest);
}

/// An address, a module and a name without colons, put together with `::`, come apart again.
pub proof fn law_path_of_parts(address: Seq<char>, module: Seq<char>, name: Seq<char>)
    requires
        !address.contains(':'),
        !module.contains(':'),
        !name.contains(':'),
    ensures
        split_path(address + seq![':', ':'] + (module + seq![':', ':'] + name)) == seq![
            address,
            module,
            name,
        ],
{
    lemma_split_off(address, module + seq![':', ':'] + name);
    lemma_split_off(module, name);
    assert(split_path(name) == seq![name]) by {
        assert forall|j: int| !first_separator_at(name, j) by {
            if separator_at(name, j) {
                assert(name.contains(name[j]));
            }
        }
    }
    assert(seq![address] + (seq![module] + seq![name]) =~= seq![address, module, name]);
}

/// Splitting undoes putting together: parts in which there is no `::`, and of which none but the
/// last ends in a colon, come apart again as they were, however many they are.
pub proof fn law_split_undoes_join(parts: Seq<Seq<char>>)
    requires
        parts.len() > 0,
        forall|k: int, i: int|
            0 <= k < parts.len() && 0 <= i < parts[k].len() - 1 ==> !(#[trigger] parts[k][i] == ':'
                && parts[k][i + 1] == ':'),
        forall|k: int|
            0 <= k < parts.len() - 1 && (#[trigger] parts[k]).len() > 0 ==> parts[k].last() != ':',
    ensures
        split_path(join_path(parts)) == parts,
    decreases parts.len(),
{
    let first = parts[0];
    if parts.len() == 1 {
        assert forall|j: int| !first_separator_at(first, j) by {
            if separator_at(first, j) {
                assert(parts[0][j] == ':' && parts[0][j + 1] == ':');
            }
        }
        assert(parts =~= seq![first]);
    } else {
        let rest = parts.drop_first();
        assert forall|k: int, i: int|
            0 <= k < rest.len() && 0 <= i < rest[k].len() - 1 implies !(#[trigger] rest[k][i] == ':'
            && rest[k][i + 1] == ':') by {
            assert(rest[k][i] == parts[k + 1][i]);
        }
        assert forall|k: int| 0 <= k < rest.len() - 1 && (#[trigger] rest[k]).len() > 0 implies
            rest[k].last() != ':' by {
            assert(rest[k] == parts[k + 1]);
        }
        law_split_undoes_join(rest);
        let text = join_path(parts);
        let i = first.len() as int;
        assert(text =~= first + seq![':', ':'] + join_path(rest));
        assert(first_separator_at(text, i)) by {
            assert forall|j: int| 0 <= j < i implies !separator_at(text, j) by {
                if separator_at(text, j) {
                    assert(text[j] == first[j]);
                    if j < i - 1 {
                        assert(text[j + 1] == first[j + 1]);
                        assert(parts[0][j] == ':' && parts[0][j + 1] == ':');
                    } else {
                        assert(parts[0].len() > 0 && parts[0].last() == first[j]);
                    }
                }
            }
        }
        lemma_split_at_first(text, i);
        assert(text.take(i) =~= first);
        assert(text.skip(i + 2) =~= join_path(rest));
        assert(seq![first] + rest =~= parts);
    }
}

/// The parts of a text have no `::` in them, and none but the last ends in a colon: a `::` is found
/// as far to the left as there is one.
pub proof fn law_separators_are_found_leftmost(text: Seq<char>, part: int)
    requires
        0 <= part < split_path(text).len(),
    ensures
        forall|i: int|
            0 <= i < split_path(text)[part].len() - 1 ==> !(#[trigger] split_path(text)[part][i]
                == ':' && split_path(text)[part][i + 1] == ':'),
        part < split_path(text).len() - 1 && split_path(text)[part].len() > 0 ==> split_path(
            text,
        )[part].last() != ':',
    decreases text.len(),
{
    assert forall|i: int| 0 <= i < split_path(text)[part].len() - 1 implies !(
    #[trigger] split_path(text)[part][i] == ':' && split_path(text)[part][i + 1] == ':') by {
        law_parts_have_no_separator(text, part, i);
    }
    if exists|k: int| first_separator_at(text, k) {
        let k = choose|k: int| first_separator_at(text, k);
        lemma_split_at_first(text, k);
        if part == 0 {
            if k > 0 && text[k - 1] == ':' {
                assert(separator_at(text, k - 1));
            }
        } else {
            law_separators_are_found_leftmost(text.skip(k + 2), part - 1);
        }
    }
}

} // verus!
