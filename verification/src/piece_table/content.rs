//! Content buffers: append-only stores of grapheme clusters.

use super::graphemes::{
    all_nonempty, break_offsets, grapheme_clusters, is_line_break_cluster, some_if_nonempty,
    split_graphemes, texts,
};
use super::span::{Span, SpanView};
use vstd::prelude::*;

verus! {

/// Which of the two buffers a span points into.
#[derive(Clone, Copy, Debug, PartialEq, Eq, Structural)]
pub enum Source {
    /// The text the document was opened with.
    Original,
    /// Everything inserted since.
    Added,
}

/// An append-only store of text, kept as one string per grapheme cluster.
/// Clusters already stored never move or change, so a span handed out by
/// [`Content::append`] denotes the same text for the life of the buffer.
pub struct Content {
    pub source: Source,
    pub buffer: Vec<String>,
}

/// The span that describes `clusters` once they are stored behind the first
/// `position` clusters of the buffer named `source`.
pub open spec fn appended_span(source: Source, position: usize, clusters: Seq<Seq<char>>)
    -> SpanView {
    SpanView {
        source,
        position,
        length: clusters.len() as usize,
        line_breaks: some_if_nonempty(break_offsets(clusters)),
    }
}

/// The part of a span that a read of at most `limit` clusters from `offset`
/// covers, as a pair of buffer positions: `offset` is clamped to the span's
/// length, the read stops at the span's end, and neither bound passes the
/// `stored` clusters that the buffer holds.
pub open spec fn read_bounds(span: SpanView, offset: usize, limit: usize, stored: nat) -> (
    int,
    int,
) {
    let skipped = if offset < span.length {
        offset
    } else {
        span.length
    };
    let taken = if limit < span.length - skipped {
        limit as int
    } else {
        span.length - skipped
    };
    let start = span.position + skipped;
    let end = start + taken;
    (
        if start < stored {
            start
        } else {
            stored as int
        },
        if end < stored {
            end
        } else {
            stored as int
        },
    )
}

impl Content {
    /// The stored text, cluster by cluster.
    pub open spec fn units(&self) -> Seq<Seq<char>> {
        texts(self.buffer@)
    }

    /// An empty buffer tagged `source`.
    pub fn new(source: Source) -> (content: Self)
        ensures
            content.source == source,
            content.units() == Seq::<Seq<char>>::empty(),
    {
        let content = Content { source, buffer: Vec::new() };
        proof {
            assert(content.units() =~= Seq::<Seq<char>>::empty());
        }
        content
    }

    /// Stores `clusters` at the end of the buffer, one unit each, and returns
    /// the span that describes exactly the stored region: it starts at the
    /// previous cluster count, is as long as `clusters`, and records every
    /// line terminator among them.
    pub fn append_clusters(&mut self, clusters: Vec<String>) -> (span: Span)
        ensures
            final(self).source == old(self).source,
            final(self).units() == old(self).units() + texts(clusters@),
            span@ == appended_span(
                old(self).source,
                old(self).units().len() as usize,
                texts(clusters@),
            ),
    {
        let mut clusters = clusters;
        let line_breaks = Self::line_breaks_for_content(&clusters);
        let span = Span {
            source: self.source,
            position: self.buffer.len(),
            length: clusters.len(),
            line_breaks,
        };
        let ghost stored = clusters@;
        self.buffer.append(&mut clusters);
        proof {
            assert(texts(old(self).buffer@ + stored) =~= texts(old(self).buffer@) + texts(stored));
        }
        span
    }

    /// Stores `content` at the end of the buffer, cluster by cluster, and
    /// returns the span that describes exactly the stored region; see
    /// [`Content::append_clusters`]. The clusters stored are non-empty and
    /// make up `content`.
    pub fn append(&mut self, content: &str) -> (span: Span)
        ensures
            final(self).source == old(self).source,
            grapheme_clusters(content@).flatten() == content@,
            all_nonempty(grapheme_clusters(content@)),
            final(self).units() == old(self).units() + grapheme_clusters(content@),
            span@ == appended_span(
                old(self).source,
                old(self).units().len() as usize,
                grapheme_clusters(content@),
            ),
    {
        let clusters = split_graphemes(content);
        self.append_clusters(clusters)
    }

    /// The text of the part of `span` that starts `offset` clusters into it
    /// and holds at most `limit` clusters; see [`read_bounds`] for the
    /// clamping.
    pub fn content_for_span(&self, span: &Span, offset: usize, limit: usize) -> (text: String)
        ensures
            ({
                let (start, end) = read_bounds(span@, offset, limit, self.units().len());
                text@ == self.units().subrange(start, end).flatten()
            }),
    {
        let stored = self.buffer.len();
        let offset = if offset < span.length {
            offset
        } else {
            span.length
        };
        let length = if limit < span.length - offset {
            limit
        } else {
            span.length - offset
        };
        let start = if span.position < stored && offset < stored - span.position {
            span.position + offset
        } else {
            stored
        };
        let end = if length < stored - start {
            start + length
        } else {
            stored
        };
        let mut text = String::new();
        let mut index = start;
        proof {
            assert(self.units().subrange(start as int, start as int) =~= Seq::empty());
        }
        while index < end
            invariant
                start <= index <= end <= stored,
                stored == self.buffer@.len(),
                text@ == self.units().subrange(start as int, index as int).flatten(),
            decreases end - index,
        {
            text.append(self.buffer[index].as_str());
            proof {
                let before = self.units().subrange(start as int, index as int);
                assert(self.units().subrange(start as int, index + 1) =~= before.push(
                    self.units()[index as int],
                ));
                before.lemma_flatten_push(self.units()[index as int]);
            }
            index += 1;
        }
        text
    }

    /// The offsets of the line terminators among `clusters`, or `None` when
    /// there is none.
    fn line_breaks_for_content(clusters: &Vec<String>) -> (line_breaks: Option<Vec<usize>>)
        ensures
            super::span::breaks_view(line_breaks) == some_if_nonempty(
                break_offsets(texts(clusters@)),
            ),
    {
        let mut line_breaks: Vec<usize> = Vec::new();
        let mut index: usize = 0;
        proof {
            assert(texts(clusters@).subrange(0, 0) =~= Seq::empty());
        }
        while index < clusters.len()
            invariant
                index <= clusters.len(),
                line_breaks@ == break_offsets(texts(clusters@).subrange(0, index as int)),
            decreases clusters.len() - index,
        {
            let found = is_line_break_cluster(clusters[index].as_str());
            proof {
                let next = texts(clusters@).subrange(0, index + 1);
                assert(next.drop_last() =~= texts(clusters@).subrange(0, index as int));
                assert(next.last() == clusters@[index as int]@);
            }
            if found {
                line_breaks.push(index);
            }
            index += 1;
        }
        proof {
            assert(texts(clusters@).subrange(0, index as int) =~= texts(clusters@));
        }
        if line_breaks.len() > 0 {
            Some(line_breaks)
        } else {
            None
        }
    }
}

} // verus!
