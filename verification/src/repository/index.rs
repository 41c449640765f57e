//! The staging index: from each staged path to the address of its blob,
//! written one entry to the line as the address, a space and the path.

use crate::path_map::{ascending, lemma_map_of_next, map_of, PathMap};
use crate::repository::repo::Repository;
use crate::scan::{find_char, find_from, lemma_find_from};
use crate::text::{
    chars_of, lemma_lines_append_from, lemma_one_line, lines, push_char, split_lines, string_of,
    views, without_cr,
};
use vstd::prelude::*;
use vstd::slice::slice_subrange;
use vstd::string::StringExecFns;

verus! {

/// The index that lines of text stand for. A line with a space sets the
/// path behind its first space to the address before it, replacing what an
/// earlier line set for that path; a line without a space sets nothing.
pub open spec fn index_of_lines(all: Seq<Seq<char>>) -> Map<Seq<char>, Seq<char>>
    decreases all.len(),
{
    if all.len() == 0 {
        Map::empty()
    } else {
        let earlier = index_of_lines(all.drop_last());
        let line = all.last();
        let space = find_from(line, 0, ' ');
        if space < line.len() {
            earlier.insert(line.skip(space + 1), line.take(space))
        } else {
            earlier
        }
    }
}

/// The index that the text of an index file stands for.
pub open spec fn parsed_index(text: Seq<char>) -> Map<Seq<char>, Seq<char>> {
    index_of_lines(lines(text))
}

/// Reads the text of an index file: from each path to the address of its
/// blob. Where a path stands on several lines, the last one counts.
pub fn read_index(text: &str) -> (index: PathMap)
    ensures
        index.wf(),
        index@ == parsed_index(text@),
{
    let chars = chars_of(text);
    let all = split_lines(chars.as_slice());
    let mut index = PathMap::new();
    let mut i: usize = 0;
    proof {
        assert(views(all@).take(0) =~= Seq::<Seq<char>>::empty());
    }
    while i < all.len()
        invariant
            i <= all.len(),
            index.wf(),
            index@ == index_of_lines(views(all@).take(i as int)),
        decreases all.len() - i,
    {
        let line = all[i].as_slice();
        let space: usize = find_char(line, 0, ' ');
        proof {
            assert(views(all@).take(i + 1).drop_last() =~= views(all@).take(i as int));
            assert(views(all@).take(i + 1).last() == line@);
        }
        if space < line.len() {
            let hash = string_of(slice_subrange(line, 0, space));
            let path = string_of(slice_subrange(line, space + 1, line.len()));
            proof {
                assert(hash@ =~= line@.take(space as int));
                assert(path@ =~= line@.skip(space + 1));
            }
            index.insert(path, hash);
        }
        i += 1;
    }
    proof {
        assert(views(all@).take(i as int) =~= views(all@));
    }
    index
}

/// Clears the index: afterwards the repository has none, and nothing else
/// of it has changed.
pub fn clear_index(repo: &mut Repository)
    ensures
        final(repo).objects == old(repo).objects,
        final(repo).refs == old(repo).refs,
        final(repo).config == old(repo).config,
        final(repo).index is None,
{
    repo.index = None;
}

/// The lines of an index file for the given entries, each a path with its
/// address: the address, a space, the path and a line feed.
pub open spec fn index_text(entries: Seq<(Seq<char>, Seq<char>)>) -> Seq<char>
    decreases entries.len(),
{
    if entries.len() == 0 {
        Seq::empty()
    } else {
        index_text(entries.drop_last()) + entries.last().1 + seq![' '] + entries.last().0 + seq![
            '\n',
        ]
    }
}

/// An entry that reads back from its line as it was written: the address
/// holds no space, neither holds a line feed, and the path does not end in a
/// carriage return.
pub open spec fn entry_clean(entry: (Seq<char>, Seq<char>)) -> bool {
    &&& !entry.1.contains(' ')
    &&& !entry.1.contains('\n')
    &&& !entry.0.contains('\n')
    &&& entry.0.len() == 0 || entry.0.last() != '\r'
}

/// The line of an entry: the address, a space and the path.
pub open spec fn index_line(entry: (Seq<char>, Seq<char>)) -> Seq<char> {
    entry.1 + seq![' '] + entry.0
}

/// The text of clean entries has one line for each, in order.
proof fn lemma_index_text_lines(entries: Seq<(Seq<char>, Seq<char>)>)
    requires
        forall|i: int| 0 <= i < entries.len() ==> entry_clean(#[trigger] entries[i]),
    ensures
        lines(index_text(entries)) == entries.map_values(|e: (Seq<char>, Seq<char>)| index_line(e)),
        index_text(entries).len() == 0 || index_text(entries).last() == '\n',
    decreases entries.len(),
{
    let line_of = |e: (Seq<char>, Seq<char>)| index_line(e);
    if entries.len() == 0 {
        assert(lines(index_text(entries)) =~= entries.map_values(line_of));
    } else {
        let earlier = entries.drop_last();
        let last = entries.last();
        let line = index_line(last);
        assert forall|i: int| 0 <= i < earlier.len() implies entry_clean(#[trigger] earlier[i]) by {
            assert(earlier[i] == entries[i]);
        }
        lemma_index_text_lines(earlier);
        assert(entry_clean(entries[entries.len() - 1]));
        assert(!line.contains('\n')) by {
            if line.contains('\n') {
                let j = choose|j: int| 0 <= j < line.len() && line[j] == '\n';
                if j < last.1.len() {
                    assert(last.1[j] == '\n');
                } else if j > last.1.len() {
                    assert(last.0[j - last.1.len() - 1] == '\n');
                }
            }
        }
        assert(without_cr(line) == line) by {
            if last.0.len() > 0 {
                assert(line.last() == last.0.last());
            } else {
                assert(line.last() == ' ');
            }
        }
        lemma_one_line(line);
        assert(index_text(entries) =~= index_text(earlier) + (line + seq!['\n']));
        lemma_lines_append_from(index_text(earlier), line + seq!['\n'], 0);
        assert(earlier.map_values(line_of) + seq![line] =~= entries.map_values(line_of));
    }
}

/// The lines of clean entries in ascending order stand for the map of those
/// entries.
proof fn lemma_index_of_written_lines(entries: Seq<(Seq<char>, Seq<char>)>, i: int)
    requires
        ascending(entries),
        forall|j: int| 0 <= j < entries.len() ==> entry_clean(#[trigger] entries[j]),
        0 <= i <= entries.len(),
    ensures
        index_of_lines(
            entries.map_values(|e: (Seq<char>, Seq<char>)| index_line(e)).take(i),
        ) == map_of(entries.take(i)),
    decreases i,
{
    let all = entries.map_values(|e: (Seq<char>, Seq<char>)| index_line(e));
    if i == 0 {
        assert(all.take(0) =~= Seq::<Seq<char>>::empty());
        assert(map_of(entries.take(0)) =~= Map::<Seq<char>, Seq<char>>::empty());
    } else {
        lemma_index_of_written_lines(entries, i - 1);
        let entry = entries[i - 1];
        let line = index_line(entry);
        assert(all.take(i).drop_last() =~= all.take(i - 1));
        assert(all.take(i).last() == line);
        assert(entry_clean(entries[i - 1]));
        assert forall|j: int| 0 <= j < entry.1.len() implies line[j] != ' ' by {
            assert(line[j] == entry.1[j]);
            assert(entry.1.contains(entry.1[j]));
        }
        lemma_find_from(line, 0, ' ', entry.1.len() as int);
        assert(line.take(entry.1.len() as int) =~= entry.1);
        assert(line.skip(entry.1.len() as int + 1) =~= entry.0);
        lemma_map_of_next(entries, i - 1);
    }
}

/// What was written can be read: the text of the index file, read back,
/// gives the index again.
///
/// This holds for an index of clean entries.
pub proof fn lemma_index_round_trip(entries: Seq<(Seq<char>, Seq<char>)>)
    requires
        ascending(entries),
        forall|i: int| 0 <= i < entries.len() ==> entry_clean(#[trigger] entries[i]),
    ensures
        parsed_index(index_text(entries)) == map_of(entries),
{
    let all = entries.map_values(|e: (Seq<char>, Seq<char>)| index_line(e));
    lemma_index_text_lines(entries);
    lemma_index_of_written_lines(entries, entries.len() as int);
    assert(all.take(entries.len() as int) =~= all);
    assert(entries.take(entries.len() as int) =~= entries);
}

/// The text of the index file: one line for each entry, in ascending
/// byte-wise order of the paths.
pub fn write_index(index: &PathMap) -> (text: String)
    requires
        index.wf(),
    ensures
        text@ == index_text(index.entries()),
{
    let mut text = String::new();
    let mut i: usize = 0;
    proof {
        assert(index.entries().take(0) =~= Seq::<(Seq<char>, Seq<char>)>::empty());
    }
    while i < index.len()
        invariant
            i <= index.entries().len(),
            text@ == index_text(index.entries().take(i as int)),
        decreases index.entries().len() - i,
    {
        proof {
            assert(index.entries().take(i + 1).drop_last() =~= index.entries().take(i as int));
        }
        text.append(index.value_at(i));
        push_char(&mut text, ' ');
        text.append(index.key_at(i));
        push_char(&mut text, '\n');
        i += 1;
    }
    proof {
        assert(index.entries().take(i as int) =~= index.entries());
    }
    text
}

} // verus!
