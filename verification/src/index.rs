//! The bracket indexer: a linear scan of the document's lines that records
//! an ordered open/close event for every structural brace line, skipping
//! comment lines, together with the balance check on the event sequence.

use vstd::prelude::*;
use crate::text::{
    contains_char, contains_substr, has_substr, spec_starts_with, spec_trim, starts_with_str,
    trim_str,
};

verus! {

/// The two kinds of structural brace event.
#[derive(Clone, Copy, Debug, PartialEq, Eq, Structural)]
pub enum BracketKind {
    Open,
    Close,
}

/// One structural brace event: the index of the line it stands on and
/// whether that line opens or closes a node.
#[derive(Clone, Copy, Debug, PartialEq, Eq, Structural)]
pub struct BracketEvent {
    pub line: usize,
    pub kind: BracketKind,
}

/// The errors of this library.
#[derive(Clone, Copy, Debug, PartialEq, Eq, Structural)]
pub enum DtbError {
    /// The document's structure is inconsistent: a line both opens and
    /// closes a node, brackets are unbalanced or mis-nested, a node is
    /// never closed, a node header lacks its opening brace, or a property
    /// line cannot be classified.
    MalformedDocument,
}

/// A comment line: its trimmed text begins with the line-comment marker.
pub open spec fn spec_is_comment(l: Seq<char>) -> bool {
    spec_starts_with(spec_trim(l), "//"@)
}

/// An open line: contains the opening brace and is not a comment.
pub open spec fn spec_is_open(l: Seq<char>) -> bool {
    l.contains('{') && !spec_is_comment(l)
}

/// A close line: contains the node terminator `};` and is not a comment.
pub open spec fn spec_is_close(l: Seq<char>) -> bool {
    has_substr(l, "};"@) && !spec_is_comment(l)
}

/// Some line is classified as both an open and a close: malformed input
/// that the indexer must reject rather than guess about.
pub open spec fn spec_ambiguous(lines: Seq<Seq<char>>) -> bool {
    exists|i: int| 0 <= i < lines.len() && spec_is_open(lines[i]) && spec_is_close(lines[i])
}

/// The events contributed by one line.
pub open spec fn spec_line_events(l: Seq<char>, idx: usize) -> Seq<BracketEvent> {
    if spec_is_open(l) && !spec_is_close(l) {
        seq![BracketEvent { line: idx, kind: BracketKind::Open }]
    } else if spec_is_close(l) && !spec_is_open(l) {
        seq![BracketEvent { line: idx, kind: BracketKind::Close }]
    } else {
        Seq::empty()
    }
}

/// The events of the first `i` lines, in line order.
pub open spec fn spec_events_upto(lines: Seq<Seq<char>>, i: int) -> Seq<BracketEvent>
    decreases i,
{
    if i <= 0 {
        Seq::empty()
    } else {
        spec_events_upto(lines, i - 1) + spec_line_events(lines[i - 1], (i - 1) as usize)
    }
}

/// The ordered event sequence of the whole document.
pub open spec fn spec_events(lines: Seq<Seq<char>>) -> Seq<BracketEvent> {
    spec_events_upto(lines, lines.len() as int)
}

/// How many events of kind `kind` the sequence holds.
pub open spec fn count_kind(evs: Seq<BracketEvent>, kind: BracketKind) -> int
    decreases evs.len(),
{
    if evs.len() == 0 {
        0
    } else {
        count_kind(evs.drop_last(), kind) + if evs.last().kind == kind {
            1int
        } else {
            0int
        }
    }
}

/// The event sequence is balanced: as many opens as closes in all, and at
/// every prefix at least as many opens as closes.
pub open spec fn spec_balanced(evs: Seq<BracketEvent>) -> bool {
    &&& count_kind(evs, BracketKind::Open) == count_kind(evs, BracketKind::Close)
    &&& forall|i: int|
        0 <= i <= evs.len() ==> count_kind(evs.subrange(0, i), BracketKind::Close) <= count_kind(
            evs.subrange(0, i),
            BracketKind::Open,
        )
}

/// Scan the document's lines and produce the ordered bracket event
/// sequence; a line that would count both as an open and as a close is
/// rejected as malformed rather than guessed about.
pub fn index_brackets(lines: &Vec<String>) -> (r: Result<Vec<BracketEvent>, DtbError>)
    ensures
        match r {
            Ok(evs) => !spec_ambiguous(lines.deep_view()) && evs@ == spec_events(
                lines.deep_view(),
            ),
            Err(e) => spec_ambiguous(lines.deep_view()) && e == DtbError::MalformedDocument,
        },
{
    let ghost dv = lines.deep_view();
    let n = lines.len();
    let mut evs: Vec<BracketEvent> = Vec::new();
    let mut i: usize = 0;
    while i < n
        invariant
            0 <= i <= n,
            n == lines@.len(),
            dv == lines.deep_view(),
            dv.len() == n,
            forall|k: int| 0 <= k < n ==> dv[k] == lines@[k]@,
            evs@ == spec_events_upto(dv, i as int),
            forall|k: int| 0 <= k < i ==> !(spec_is_open(dv[k]) && spec_is_close(dv[k])),
        decreases n - i,
    {
        let l: &String = &lines[i];
        let t = trim_str(l.as_str());
        let comment = starts_with_str(t, "//");
        let open = contains_char(l.as_str(), '{') && !comment;
        let close = contains_substr(l.as_str(), "};") && !comment;
        if open && close {
            assert(spec_is_open(dv[i as int]) && spec_is_close(dv[i as int]));
            return Err(DtbError::MalformedDocument);
        }
        if open {
            evs.push(BracketEvent { line: i, kind: BracketKind::Open });
        } else if close {
            evs.push(BracketEvent { line: i, kind: BracketKind::Close });
        }
        proof {
            assert(spec_events_upto(dv, i + 1) == spec_events_upto(dv, i as int)
                + spec_line_events(dv[i as int], i));
            assert(evs@ =~= spec_events_upto(dv, i + 1));
        }
        i = i + 1;
    }
    Ok(evs)
}

/// Decide whether the event sequence is balanced.
pub fn check_balanced(events: &Vec<BracketEvent>) -> (r: bool)
    ensures
        r == spec_balanced(events@),
{
    let n = events.len();
    let mut opens: usize = 0;
    let mut closes: usize = 0;
    let mut i: usize = 0;
    while i < n
        invariant
            0 <= i <= n,
            n == events@.len(),
            opens == count_kind(events@.subrange(0, i as int), BracketKind::Open),
            closes == count_kind(events@.subrange(0, i as int), BracketKind::Close),
            opens <= i,
            closes <= i,
            forall|k: int|
                0 <= k <= i ==> count_kind(events@.subrange(0, k), BracketKind::Close)
                    <= count_kind(events@.subrange(0, k), BracketKind::Open),
        decreases n - i,
    {
        let ev = events[i];
        proof {
            assert(events@.subrange(0, i + 1).drop_last() =~= events@.subrange(0, i as int));
            assert(events@.subrange(0, i + 1).last() == events@[i as int]);
        }
        match ev.kind {
            BracketKind::Open => {
                opens = opens + 1;
            },
            BracketKind::Close => {
                closes = closes + 1;
            },
        }
        if closes > opens {
            assert(count_kind(events@.subrange(0, i + 1), BracketKind::Close) > count_kind(
                events@.subrange(0, i + 1),
                BracketKind::Open,
            ));
            return false;
        }
        i = i + 1;
    }
    proof {
        assert(events@.subrange(0, n as int) =~= events@);
    }
    opens == closes
}

} // verus!
