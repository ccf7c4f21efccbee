//! Spans: descriptors of contiguous runs inside one content buffer.

use super::content::Source;
use super::graphemes::{breaks_after, breaks_before, breaks_shifted, some_if_nonempty};
use vstd::prelude::*;

verus! {

/// A run of `length` grapheme clusters starting at cluster `position` of the
/// buffer named by `source`, with the recorded offsets (relative to the run)
/// of line terminators inside it. Spans are values: the piece table replaces
/// them, it never edits one in place.
#[derive(Debug, PartialEq)]
pub struct Span {
    pub source: Source,
    pub position: usize,
    pub length: usize,
    pub line_breaks: Option<Vec<usize>>,
}

/// The mathematical content of a [`Span`].
pub ghost struct SpanView {
    pub source: Source,
    pub position: usize,
    pub length: usize,
    pub line_breaks: Option<Seq<usize>>,
}

/// The content of an optional list of offsets.
pub open spec fn breaks_view(line_breaks: Option<Vec<usize>>) -> Option<Seq<usize>> {
    match line_breaks {
        Some(list) => Some(list@),
        None => None,
    }
}

/// The contents of a sequence of spans.
pub open spec fn span_views(spans: Seq<Span>) -> Seq<SpanView> {
    spans.map_values(|span: Span| span@)
}

impl View for Span {
    type V = SpanView;

    open spec fn view(&self) -> SpanView {
        SpanView {
            source: self.source,
            position: self.position,
            length: self.length,
            line_breaks: breaks_view(self.line_breaks),
        }
    }
}

impl SpanView {
    /// The empty span that ends every span sequence.
    pub open spec fn sentinel() -> SpanView {
        SpanView { source: Source::Original, position: 0, length: 0, line_breaks: None }
    }

    /// The recorded line terminators, empty when none are recorded.
    pub open spec fn breaks(self) -> Seq<usize> {
        match self.line_breaks {
            Some(list) => list,
            None => Seq::empty(),
        }
    }

    /// The first `cut` clusters of this span, keeping the recorded
    /// terminators that fall inside them.
    pub open spec fn head(self, cut: usize) -> SpanView {
        SpanView {
            source: self.source,
            position: self.position,
            length: cut,
            line_breaks: match self.line_breaks {
                Some(list) => some_if_nonempty(breaks_before(list, cut)),
                None => None,
            },
        }
    }

    /// This span without its first `cut` clusters, keeping the recorded
    /// terminators that lie beyond the cut.
    pub open spec fn tail(self, cut: usize) -> SpanView {
        SpanView {
            source: self.source,
            position: (self.position + cut) as usize,
            length: (self.length - cut) as usize,
            line_breaks: match self.line_breaks {
                Some(list) => some_if_nonempty(breaks_after(list, cut)),
                None => None,
            },
        }
    }

    /// This span grown by `more`, a span that follows it directly in the same
    /// buffer: the lengths add up and the records are joined.
    pub open spec fn extended(self, more: SpanView) -> SpanView {
        SpanView {
            source: self.source,
            position: self.position,
            length: (self.length + more.length) as usize,
            line_breaks: some_if_nonempty(
                self.breaks() + breaks_shifted(more.breaks(), self.length),
            ),
        }
    }
}

impl Span {
    /// The empty span that ends every span sequence.
    pub fn new_sentinel() -> (span: Self)
        ensures
            span@ == SpanView::sentinel(),
    {
        Span { source: Source::Original, position: 0, length: 0, line_breaks: None }
    }

    /// The first `cut` clusters of this span; see [`SpanView::head`].
    pub fn head(&self, cut: usize) -> (span: Self)
        ensures
            span@ == self@.head(cut),
    {
        let line_breaks = match &self.line_breaks {
            Some(list) => {
                let mut kept: Vec<usize> = Vec::new();
                let mut index: usize = 0;
                proof {
                    assert(list@.take(0) =~= Seq::empty());
                }
                while index < list.len()
                    invariant
                        index <= list.len(),
                        kept@ == breaks_before(list@.take(index as int), cut),
                    decreases list.len() - index,
                {
                    proof {
                        assert(list@.take(index + 1).drop_last() =~= list@.take(index as int));
                    }
                    if list[index] < cut {
                        kept.push(list[index]);
                    }
                    index += 1;
                }
                proof {
                    assert(list@.take(index as int) =~= list@);
                }
                if kept.len() > 0 {
                    Some(kept)
                } else {
                    None
                }
            },
            None => None,
        };
        Span { source: self.source, position: self.position, length: cut, line_breaks }
    }

    /// This span without its first `cut` clusters; see [`SpanView::tail`].
    pub fn tail(&self, cut: usize) -> (span: Self)
        requires
            cut <= self.length,
            self.position + cut <= usize::MAX,
        ensures
            span@ == self@.tail(cut),
    {
        let line_breaks = match &self.line_breaks {
            Some(list) => {
                let mut kept: Vec<usize> = Vec::new();
                let mut index: usize = 0;
                proof {
                    assert(list@.take(0) =~= Seq::empty());
                }
                while index < list.len()
                    invariant
                        index <= list.len(),
                        kept@ == breaks_after(list@.take(index as int), cut),
                    decreases list.len() - index,
                {
                    proof {
                        assert(list@.take(index + 1).drop_last() =~= list@.take(index as int));
                    }
                    if list[index] > cut {
                        kept.push(list[index] - cut);
                    }
                    index += 1;
                }
                proof {
                    assert(list@.take(index as int) =~= list@);
                }
                if kept.len() > 0 {
                    Some(kept)
                } else {
                    None
                }
            },
            None => None,
        };
        Span {
            source: self.source,
            position: self.position + cut,
            length: self.length - cut,
            line_breaks,
        }
    }

    /// This span grown by `more`, a span that follows it directly in the same
    /// buffer; see [`SpanView::extended`].
    pub fn extended(&self, more: &Span) -> (span: Self)
        requires
            self.length + more.length <= usize::MAX,
            forall|k: int|
                0 <= k < more@.breaks().len() ==> #[trigger] more@.breaks()[k] + self.length
                    <= usize::MAX,
        ensures
            span@ == self@.extended(more@),
    {
        let mut joined: Vec<usize> = Vec::new();
        if let Some(list) = &self.line_breaks {
            let mut index: usize = 0;
            while index < list.len()
                invariant
                    index <= list.len(),
                    joined@ == list@.take(index as int),
                decreases list.len() - index,
            {
                joined.push(list[index]);
                proof {
                    assert(joined@ =~= list@.take(index + 1));
                }
                index += 1;
            }
            proof {
                assert(list@.take(index as int) =~= list@);
            }
        }
        proof {
            assert(joined@ =~= self@.breaks());
        }
        if let Some(list) = &more.line_breaks {
            let mut index: usize = 0;
            proof {
                assert(breaks_shifted(list@, self.length).take(0) =~= Seq::empty());
                assert(joined@ =~= self@.breaks() + Seq::empty());
            }
            while index < list.len()
                invariant
                    index <= list.len(),
                    list@ == more@.breaks(),
                    forall|k: int|
                        0 <= k < more@.breaks().len() ==> #[trigger] more@.breaks()[k]
                            + self.length <= usize::MAX,
                    joined@ == self@.breaks() + breaks_shifted(list@, self.length).take(
                        index as int,
                    ),
                decreases list.len() - index,
            {
                joined.push(list[index] + self.length);
                proof {
                    assert(joined@ =~= self@.breaks() + breaks_shifted(list@, self.length).take(
                        index + 1,
                    ));
                }
                index += 1;
            }
            proof {
                assert(breaks_shifted(list@, self.length).take(index as int)
                    =~= breaks_shifted(list@, self.length));
            }
        } else {
            proof {
                assert(breaks_shifted(more@.breaks(), self.length) =~= Seq::empty());
                assert(joined@ =~= self@.breaks() + breaks_shifted(more@.breaks(), self.length));
            }
        }
        let line_breaks = if joined.len() > 0 {
            Some(joined)
        } else {
            None
        };
        Span {
            source: self.source,
            position: self.position,
            length: self.length + more.length,
            line_breaks,
        }
    }
}

/// A copy of the spans of `spans` from index `from` up to index `to`.
pub fn clone_span_range(spans: &Vec<Span>, from: usize, to: usize) -> (copy: Vec<Span>)
    requires
        from <= to <= spans.len(),
    ensures
        span_views(copy@) == span_views(spans@).subrange(from as int, to as int),
{
    let mut copy: Vec<Span> = Vec::new();
    let mut index: usize = from;
    while index < to
        invariant
            from <= index <= to <= spans.len(),
            copy@.len() == index - from,
            span_views(copy@) == span_views(spans@).subrange(from as int, index as int),
        decreases to - index,
    {
        let span = spans[index].clone();
        let ghost before = copy@;
        copy.push(span);
        proof {
            assert(span@ == spans@[index as int]@);
            assert forall|k: int| 0 <= k < copy@.len() implies span_views(copy@)[k] == span_views(
                spans@,
            ).subrange(from as int, index + 1)[k] by {
                if k < index - from {
                    assert(span_views(before)[k] == span_views(spans@).subrange(
                        from as int,
                        index as int,
                    )[k]);
                }
            }
            assert(span_views(copy@) =~= span_views(spans@).subrange(from as int, index + 1));
        }
        index += 1;
    }
    copy
}

/// A copy of `spans`, span by span.
pub fn clone_spans(spans: &Vec<Span>) -> (copy: Vec<Span>)
    ensures
        span_views(copy@) == span_views(spans@),
{
    let copy = clone_span_range(spans, 0, spans.len());
    proof {
        assert(span_views(spans@).subrange(0, spans@.len() as int) =~= span_views(spans@));
    }
    copy
}

impl Clone for Span {
    fn clone(&self) -> (copy: Self)
        ensures
            copy@ == self@,
    {
        let line_breaks = match &self.line_breaks {
            Some(list) => {
                let copy = list.clone();
                proof {
                    assert(copy@ =~= list@);
                }
                Some(copy)
            },
            None => None,
        };
        Span { source: self.source, position: self.position, length: self.length, line_breaks }
    }
}

} // verus!
