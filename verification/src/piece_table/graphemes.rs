//! Grapheme clusters: the unit in which text is measured.
//!
//! Segmentation itself is done by the `unicode-segmentation` crate; this
//! module gives its result a name and states the few facts about it that the
//! rest of the crate relies on.

use unicode_segmentation::UnicodeSegmentation;
use vstd::prelude::*;

verus! {

/// The extended grapheme clusters of `text`, in order, as
/// `UnicodeSegmentation::graphemes(text, true)` yields them.
pub uninterp spec fn grapheme_clusters(text: Seq<char>) -> Seq<Seq<char>>;

/// The character sequences held by a sequence of strings.
pub open spec fn texts(strings: Seq<String>) -> Seq<Seq<char>> {
    strings.map_values(|s: String| s@)
}

/// Whether every unit holds at least one character.
pub open spec fn all_nonempty(units: Seq<Seq<char>>) -> bool {
    forall|i: int| 0 <= i < units.len() ==> (#[trigger] units[i]).len() > 0
}

/// Whether `unit` is a line terminator: a lone line feed, or a carriage return
/// followed by a line feed (which segmentation keeps together as one cluster).
pub open spec fn is_line_break(unit: Seq<char>) -> bool {
    unit == seq!['\n'] || unit == seq!['\r', '\n']
}

/// Segments `text` into its extended grapheme clusters.
///
/// Trusted: calls `UnicodeSegmentation::graphemes(text, true)` and copies each
/// yielded slice into a `String`. The contract names the result and claims of
/// it what the iterator's source shows: it hands out consecutive, non-empty
/// slices of `text` that together cover all of it.
#[verifier::external_body]
pub(crate) fn split_graphemes(text: &str) -> (clusters: Vec<String>)
    ensures
        texts(clusters@) == grapheme_clusters(text@),
        texts(clusters@).flatten() == text@,
        all_nonempty(texts(clusters@)),
{
    UnicodeSegmentation::graphemes(text, true).map(|cluster| cluster.to_string()).collect()
}

/// Decides [`is_line_break`] for one cluster.
pub fn is_line_break_cluster(cluster: &str) -> (found: bool)
    ensures
        found == is_line_break(cluster@),
{
    let count = cluster.unicode_len();
    if count == 1 {
        let found = cluster.get_char(0) == '\n';
        proof {
            assert(found ==> cluster@ =~= seq!['\n']);
            assert(seq!['\n'][0] == '\n');
            assert(seq!['\r', '\n'].len() == 2);
        }
        found
    } else if count == 2 {
        let found = cluster.get_char(0) == '\r' && cluster.get_char(1) == '\n';
        proof {
            assert(found ==> cluster@ =~= seq!['\r', '\n']);
            assert(seq!['\r', '\n'][0] == '\r' && seq!['\r', '\n'][1] == '\n');
            assert(seq!['\n'].len() == 1);
        }
        found
    } else {
        proof {
            assert(seq!['\n'].len() == 1);
            assert(seq!['\r', '\n'].len() == 2);
        }
        false
    }
}

/// The offsets of the line terminators among `units`, ascending.
pub open spec fn break_offsets(units: Seq<Seq<char>>) -> Seq<usize>
    decreases units.len(),
{
    if units.len() == 0 {
        Seq::empty()
    } else if is_line_break(units.last()) {
        break_offsets(units.drop_last()).push((units.len() - 1) as usize)
    } else {
        break_offsets(units.drop_last())
    }
}

/// Whether `list` is a record of line terminators among `units`: ascending
/// offsets, each of which holds a terminator. A record may be partial.
pub open spec fn marks_breaks(units: Seq<Seq<char>>, list: Seq<usize>) -> bool {
    &&& forall|i: int|
        0 <= i < list.len() ==> (#[trigger] list[i] as int) < units.len() && is_line_break(
            units[list[i] as int],
        )
    &&& forall|i: int, j: int| 0 <= i < j < list.len() ==> #[trigger] list[i] < #[trigger] list[j]
}

/// A record is kept only when it has entries.
pub open spec fn some_if_nonempty(list: Seq<usize>) -> Option<Seq<usize>> {
    if list.len() > 0 {
        Some(list)
    } else {
        None
    }
}

/// The entries of `list` that lie below `cut`, in order.
pub open spec fn breaks_before(list: Seq<usize>, cut: usize) -> Seq<usize>
    decreases list.len(),
{
    if list.len() == 0 {
        Seq::empty()
    } else if list.last() < cut {
        breaks_before(list.drop_last(), cut).push(list.last())
    } else {
        breaks_before(list.drop_last(), cut)
    }
}

/// The entries of `list` that lie above `cut`, in order, each counted from
/// `cut`. An entry equal to `cut` is not kept.
pub open spec fn breaks_after(list: Seq<usize>, cut: usize) -> Seq<usize>
    decreases list.len(),
{
    if list.len() == 0 {
        Seq::empty()
    } else if list.last() > cut {
        breaks_after(list.drop_last(), cut).push((list.last() - cut) as usize)
    } else {
        breaks_after(list.drop_last(), cut)
    }
}

/// The entries of `list`, each moved up by `shift`.
pub open spec fn breaks_shifted(list: Seq<usize>, shift: usize) -> Seq<usize> {
    Seq::new(list.len(), |i: int| (list[i] + shift) as usize)
}

/// Non-empty units are at most as many as their characters.
pub proof fn lemma_units_count(units: Seq<Seq<char>>)
    requires
        all_nonempty(units),
    ensures
        units.len() <= units.flatten().len(),
    decreases units.len(),
{
    if units.len() > 0 {
        let rest = units.drop_first();
        assert forall|i: int| 0 <= i < rest.len() implies (#[trigger] rest[i]).len() > 0 by {
            assert(rest[i] == units[i + 1]);
        }
        lemma_units_count(rest);
        assert(units[0].len() > 0);
    }
}

} // verus!
