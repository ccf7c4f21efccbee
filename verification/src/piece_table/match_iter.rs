//! Matches: the places in the document where a pattern is found.
//!
//! Pattern matching itself is done by the `regex` crate; this module gives
//! its result a name and does the bookkeeping around it: where the search
//! goes on, and what a match's byte offsets are in grapheme clusters.

use super::graphemes::{grapheme_clusters, split_graphemes};
use regex::Regex;
use vstd::prelude::*;
use vstd::utf8::{
    decode_utf8, decode_utf8_split, encode_utf8, encode_utf8_decode_utf8, encode_utf8_valid_utf8,
    is_char_boundary, is_char_boundary_iff_not_is_continuation_byte,
    is_char_boundary_start_end_of_seq, valid_utf8, valid_utf8_split,
};

verus! {

/// A compiled pattern of the `regex` crate. Nothing of its inside is used
/// here; it is kept and handed back to the crate.
#[verifier::external_type_specification]
#[verifier::external_body]
pub struct ExRegex(Regex);

/// The first match of `regex` in `haystack` as `Regex::find` reports it: the
/// byte offsets of its start and of its end in the UTF-8 encoding of
/// `haystack`, or `None` when the pattern is not found.
pub uninterp spec fn regex_first_match(regex: Regex, haystack: Seq<char>) -> Option<(usize, usize)>;

/// Whether `offset` is a byte offset into the UTF-8 encoding of `text` that
/// falls between two characters, or at either end.
pub open spec fn is_boundary(text: Seq<char>, offset: int) -> bool {
    0 <= offset <= encode_utf8(text).len() && is_char_boundary(encode_utf8(text), offset)
}

/// The characters that the bytes from `from` up to `to` of the UTF-8 encoding
/// of `text` encode.
pub open spec fn utf8_slice(text: Seq<char>, from: int, to: int) -> Seq<char> {
    decode_utf8(encode_utf8(text).subrange(from, to))
}

/// Whether `found` may be what a search in `haystack` reported: nothing, or a
/// start and an end in this order, both between characters.
pub open spec fn plausible(haystack: Seq<char>, found: Option<(usize, usize)>) -> bool {
    match found {
        Some((start, end)) => start <= end && is_boundary(haystack, start as int) && is_boundary(
            haystack,
            end as int,
        ),
        None => true,
    }
}

/// Searches `haystack` for the first match of `regex`.
///
/// Trusted: calls `Regex::find` and takes the start and end of the match it
/// returns. The contract names the result and claims what the documentation
/// of `Match::start` and `Match::end` guarantees: the start is not behind the
/// end, and both fall on character boundaries of `haystack`.
#[verifier::external_body]
pub(crate) fn regex_find(regex: &Regex, haystack: &str) -> (found: Option<(usize, usize)>)
    ensures
        found == regex_first_match(*regex, haystack@),
        plausible(haystack@, found),
{
    regex.find(haystack).map(|m| (m.start(), m.end()))
}

/// A place where the pattern was found: the cluster it starts at, counted
/// from the start of the document, and the number of clusters it covers.
#[derive(Clone, Copy, Debug, PartialEq, Eq, Structural)]
pub struct Match {
    pub position: usize,
    pub length: usize,
}

/// The mathematical content of a search in progress: the text already
/// searched, the text still to search, and whether the search has ended.
pub ghost struct SearchView {
    pub before: Seq<char>,
    pub after: Seq<char>,
    pub finished: bool,
}

impl SearchView {
    /// The match to report when the search of `after` reported `found`:
    /// counted in grapheme clusters of the text before the match and of the
    /// matched text itself.
    pub open spec fn match_for(self, found: Option<(usize, usize)>) -> Option<Match> {
        if self.finished {
            None
        } else {
            match found {
                Some((start, end)) => Some(
                    Match {
                        position: grapheme_clusters(
                            self.before + utf8_slice(self.after, 0, start as int),
                        ).len() as usize,
                        length: grapheme_clusters(
                            utf8_slice(self.after, start as int, end as int),
                        ).len() as usize,
                    },
                ),
                None => None,
            }
        }
    }

    /// The search once `found` is reported: it goes on behind the match. An
    /// empty match would be found again at once, so the search moves one
    /// character further, and ends if there is none.
    pub open spec fn after_match(self, found: Option<(usize, usize)>) -> SearchView {
        if self.finished {
            self
        } else {
            match found {
                Some((start, end)) => {
                    let taken = utf8_slice(self.after, 0, end as int);
                    let rest = utf8_slice(
                        self.after,
                        end as int,
                        encode_utf8(self.after).len() as int,
                    );
                    if start < end {
                        SearchView { before: self.before + taken, after: rest, finished: false }
                    } else if rest.len() > 0 {
                        SearchView {
                            before: self.before + taken + rest.take(1),
                            after: rest.skip(1),
                            finished: false,
                        }
                    } else {
                        SearchView { before: self.before + taken, after: rest, finished: true }
                    }
                },
                None => self,
            }
        }
    }

    /// A measure of the work left: it drops with every match reported.
    pub open spec fn remaining(self) -> nat {
        if self.finished {
            0
        } else {
            self.after.len() + 1
        }
    }

    /// The match that a search with `regex` reports next.
    pub open spec fn next_match(self, regex: Regex) -> Option<Match> {
        self.match_for(regex_first_match(regex, self.after))
    }

    /// The search once `regex` has been looked for `count` times.
    pub open spec fn searched(self, regex: Regex, count: nat) -> SearchView
        decreases count,
    {
        if count == 0 {
            self
        } else {
            self.after_match(regex_first_match(regex, self.after)).searched(
                regex,
                (count - 1) as nat,
            )
        }
    }
}

/// Text splits at a character boundary of its encoding: the two parts are
/// valid encodings and decode to the text before and behind it.
pub proof fn lemma_split_text(text: Seq<char>, offset: int)
    requires
        is_boundary(text, offset),
    ensures
        utf8_slice(text, 0, offset) + utf8_slice(text, offset, encode_utf8(text).len() as int)
            == text,
        valid_utf8(encode_utf8(text).subrange(0, offset)),
        valid_utf8(encode_utf8(text).subrange(offset, encode_utf8(text).len() as int)),
{
    let bytes = encode_utf8(text);
    encode_utf8_valid_utf8(text);
    encode_utf8_decode_utf8(text);
    valid_utf8_split(bytes, offset);
    decode_utf8_split(bytes, offset);
}

/// A character boundary of a text is one of every prefix that reaches it.
pub proof fn lemma_boundary_in_prefix(text: Seq<char>, start: int, end: int)
    requires
        start <= end,
        is_boundary(text, start),
        is_boundary(text, end),
    ensures
        valid_utf8(encode_utf8(text).subrange(0, end)),
        is_char_boundary(encode_utf8(text).subrange(0, end), start),
{
    let bytes = encode_utf8(text);
    let prefix = bytes.subrange(0, end);
    encode_utf8_valid_utf8(text);
    valid_utf8_split(bytes, end);
    is_char_boundary_start_end_of_seq(prefix);
    if start < end {
        is_char_boundary_iff_not_is_continuation_byte(bytes, start);
        is_char_boundary_iff_not_is_continuation_byte(prefix, start);
    }
}

/// Bytes that are there decode to characters that are there.
pub proof fn lemma_decode_nonempty(bytes: Seq<u8>)
    requires
        valid_utf8(bytes),
        bytes.len() > 0,
    ensures
        decode_utf8(bytes).len() > 0,
{
}

/// A forward-only search for one pattern through the text of a document, as
/// it was when the search began.
pub struct MatchIter {
    regex: Regex,
    before: String,
    after: String,
    finished: bool,
}

impl View for MatchIter {
    type V = SearchView;

    closed spec fn view(&self) -> SearchView {
        SearchView { before: self.before@, after: self.after@, finished: self.finished }
    }
}

impl MatchIter {
    /// The pattern that is searched for.
    pub closed spec fn regex(&self) -> Regex {
        self.regex
    }

    /// A search for `regex` that has `before` behind it and `after` ahead.
    pub fn new(before: String, after: String, regex: Regex) -> (matches: Self)
        ensures
            matches@ == (SearchView { before: before@, after: after@, finished: false }),
            matches.regex() == regex,
    {
        MatchIter { regex, before, after, finished: false }
    }

    /// Records what a search of the text ahead reported: returns the match in
    /// grapheme clusters and moves the search behind it.
    pub fn take_match(&mut self, found: Option<(usize, usize)>) -> (result: Option<Match>)
        requires
            plausible(old(self)@.after, found),
        ensures
            result == old(self)@.match_for(found),
            final(self)@ == old(self)@.after_match(found),
            final(self).regex() == old(self).regex(),
            final(self)@.before + final(self)@.after == old(self)@.before + old(self)@.after,
            result is Some ==> final(self)@.remaining() < old(self)@.remaining(),
    {
        if self.finished {
            return None;
        }
        match found {
            None => None,
            Some((start, end)) => {
                let ghost text = self.after@;
                let ghost searched = self.before@;
                let ghost bytes = encode_utf8(text);
                proof {
                    lemma_split_text(text, end as int);
                    lemma_boundary_in_prefix(text, start as int, end as int);
                }
                let (head, tail) = self.after.as_str().split_at(end);
                proof {
                    encode_utf8_decode_utf8(head@);
                    encode_utf8_decode_utf8(tail@);
                    assert(head@ == utf8_slice(text, 0, end as int));
                    assert(tail@ == utf8_slice(text, end as int, bytes.len() as int));
                    lemma_split_text(head@, start as int);
                }
                let (pre, mid) = head.split_at(start);
                proof {
                    encode_utf8_decode_utf8(pre@);
                    encode_utf8_decode_utf8(mid@);
                    assert(bytes.subrange(0, end as int).subrange(0, start as int)
                        =~= bytes.subrange(0, start as int));
                    assert(bytes.subrange(0, end as int).subrange(start as int, end as int)
                        =~= bytes.subrange(start as int, end as int));
                    assert(pre@ == utf8_slice(text, 0, start as int));
                    assert(mid@ == utf8_slice(text, start as int, end as int));
                    assert(pre@ + mid@ == head@);
                    if start < end {
                        lemma_decode_nonempty(bytes.subrange(start as int, end as int));
                    }
                }
                self.before.append(pre);
                let position = split_graphemes(self.before.as_str()).len();
                let length = split_graphemes(mid).len();
                self.before.append(mid);
                proof {
                    assert(self.before@ =~= searched + head@);
                }
                let mut rest = tail.to_owned();
                if start == end {
                    let count = tail.unicode_len();
                    if count > 0 {
                        self.before.append(tail.substring_char(0, 1));
                        rest = tail.substring_char(1, count).to_owned();
                        proof {
                            assert(tail@.subrange(0, 1) =~= tail@.take(1));
                            assert(tail@.subrange(1, count as int) =~= tail@.skip(1));
                        }
                    } else {
                        self.finished = true;
                    }
                }
                self.after = rest;
                proof {
                    if tail@.len() > 0 {
                        assert(tail@.take(1) + tail@.skip(1) =~= tail@);
                    }
                    assert(self.before@ + self.after@ =~= searched + text);
                }
                Some(Match { position, length })
            },
        }
    }

    /// The next match, if there is one: searches the text ahead and reports
    /// what [`MatchIter::take_match`] makes of the result. A search that
    /// found nothing stays where it is.
    pub fn next(&mut self) -> (result: Option<Match>)
        ensures
            result == old(self)@.next_match(old(self).regex()),
            final(self)@ == old(self)@.after_match(
                regex_first_match(old(self).regex(), old(self)@.after),
            ),
            final(self).regex() == old(self).regex(),
            final(self)@.before + final(self)@.after == old(self)@.before + old(self)@.after,
            result is Some ==> final(self)@.remaining() < old(self)@.remaining(),
    {
        if self.finished {
            return None;
        }
        let found = regex_find(&self.regex, self.after.as_str());
        self.take_match(found)
    }

    /// All matches that are left, in order: match number `i` of the result is
    /// the one reported after `i` earlier ones, and after all of them none is
    /// left.
    pub fn collect(self) -> (matches: Vec<Match>)
        ensures
            forall|i: int|
                0 <= i < matches@.len() ==> Some(#[trigger] matches@[i]) == self@.searched(
                    self.regex(),
                    i as nat,
                ).next_match(self.regex()),
            self@.searched(self.regex(), matches@.len()).next_match(self.regex()) is None,
    {
        let mut search = self;
        let mut matches: Vec<Match> = Vec::new();
        loop
            invariant
                search.regex() == self.regex(),
                search@ == self@.searched(self.regex(), matches@.len()),
                forall|i: int|
                    0 <= i < matches@.len() ==> Some(#[trigger] matches@[i]) == self@.searched(
                        self.regex(),
                        i as nat,
                    ).next_match(self.regex()),
            decreases search@.remaining(),
        {
            let ghost count = matches@.len();
            match search.next() {
                Some(found) => {
                    proof {
                        lemma_search_one_more(self@, self.regex(), count);
                    }
                    matches.push(found);
                },
                None => {
                    return matches;
                },
            }
        }
    }
}

/// Searching once more goes on from where the earlier searches ended.
pub proof fn lemma_search_one_more(search: SearchView, regex: Regex, count: nat)
    ensures
        search.searched(regex, count + 1) == search.searched(regex, count).after_match(
            regex_first_match(regex, search.searched(regex, count).after),
        ),
    decreases count,
{
    reveal_with_fuel(SearchView::searched, 2);
    if count > 0 {
        lemma_search_one_more(
            search.after_match(regex_first_match(regex, search.after)),
            regex,
            (count - 1) as nat,
        );
    }
}

} // verus!
