//! The recursive-descent node tree parser: consumes the document's lines and
//! its bracket event sequence and builds the node tree, failing with a
//! malformed-document error instead of guessing on inconsistent input.

use vstd::prelude::*;
use crate::index::{
    check_balanced, index_brackets, spec_ambiguous, spec_balanced, spec_events, BracketEvent,
    BracketKind, DtbError,
};
use crate::render::{spec_indent, spec_prop_line};
use crate::text::{
    contains_char, contains_substr, find_substr, has_substr, lemma_spec_find_from,
    lemma_trim_of_padded, lemma_trimmed_ends, match_at, spec_find, spec_trim, trim_str,
};
use crate::tree::{
    boxes_models, lemma_node_children_model, node_model, props_model, DtbNode, DtbProperty,
    NodeModel, PropModel,
};

verus! {

/// The document text split at each newline character.
pub open spec fn spec_split_lines(s: Seq<char>) -> Seq<Seq<char>>
    decreases s.len(),
    via spec_split_lines_decreases
{
    match spec_find(s, "\n"@) {
        Some(p) => seq![s.subrange(0, p)] + spec_split_lines(
            s.subrange(p + 1, s.len() as int),
        ),
        None => seq![s],
    }
}

#[via_fn]
proof fn spec_split_lines_decreases(s: Seq<char>) {
    reveal_strlit("\n");
    crate::text::lemma_spec_find_from(s, "\n"@, 0);
}

/// How the parser reads one line that is not a bracket-event line.
pub enum LineParse {
    /// A property line: `key = value;` or `key;`.
    Prop(PropModel),
    /// A line that contributes nothing: blank, a comment, the version
    /// header, or any other text that is not a property.
    Skip,
    /// A line that should be a property but cannot be classified: the
    /// document is malformed.
    Bad,
}

/// Classify one line of a node's body. A line holding the key/value
/// separator is split at its first occurrence: both halves are trimmed and
/// the value loses its trailing `;`, which must be present, as must a
/// nonempty key. A line with a `;` but no `=` at all is a property without
/// a value. Anything else is skipped.
pub open spec fn spec_classify_property(l: Seq<char>) -> LineParse {
    if has_substr(l, " = "@) {
        let t = spec_trim(l);
        match spec_find(t, " = "@) {
            None => LineParse::Bad,
            Some(p) => {
                let key = spec_trim(t.subrange(0, p));
                let rhs = spec_trim(t.subrange(p + 3, t.len() as int));
                if key.len() == 0 || rhs.len() == 0 || rhs.last() != ';' {
                    LineParse::Bad
                } else {
                    LineParse::Prop(PropModel { key, value: Some(rhs.drop_last()) })
                }
            },
        }
    } else if !l.contains('=') && l.contains(';') {
        let t = spec_trim(l);
        if t.len() < 2 || t.last() != ';' {
            LineParse::Bad
        } else {
            LineParse::Prop(PropModel { key: t.drop_last(), value: None })
        }
    } else {
        LineParse::Skip
    }
}

/// What parsing the body of a node yields, scanning lines from `lidx` with
/// `events[bidx + 1]` as the next unconsumed bracket event: the index of
/// the node's own close event, its properties in line order, and its
/// children in line order — or nothing, when the document is malformed
/// (the lines run out before the close, a property line cannot be
/// classified, or the events are inconsistent).
pub open spec fn spec_parse_body(
    lines: Seq<Seq<char>>,
    events: Seq<BracketEvent>,
    bidx: int,
    lidx: int,
) -> Option<(int, Seq<PropModel>, Seq<NodeModel>)>
    decreases events.len() - bidx, lines.len() - lidx,
{
    if lidx < 0 || lidx >= lines.len() || bidx + 1 >= events.len() {
        None
    } else if events[bidx + 1].line == lidx && events[bidx + 1].kind == BracketKind::Close {
        Some((bidx + 1, Seq::empty(), Seq::empty()))
    } else if events[bidx + 1].line == lidx {
        match spec_parse_node(lines, events, bidx + 1) {
            None => None,
            Some((b2, child)) => if b2 <= bidx + 1 || b2 >= events.len() {
                None
            } else {
                match spec_parse_body(lines, events, b2, events[b2].line + 1) {
                    None => None,
                    Some((b3, props, kids)) => Some((b3, props, seq![child] + kids)),
                }
            },
        }
    } else {
        match spec_classify_property(lines[lidx]) {
            LineParse::Bad => None,
            LineParse::Skip => spec_parse_body(lines, events, bidx, lidx + 1),
            LineParse::Prop(p) => match spec_parse_body(lines, events, bidx, lidx + 1) {
                None => None,
                Some((b3, props, kids)) => Some((b3, seq![p] + props, kids)),
            },
        }
    }
}

/// What parsing the node whose open event is `events[bidx]` yields: the
/// index of its matching close event and its model — or nothing, when the
/// document is malformed (no such open event, a header line without its
/// trailing opening brace, or a malformed body).
pub open spec fn spec_parse_node(lines: Seq<Seq<char>>, events: Seq<BracketEvent>, bidx: int) -> Option<
    (int, NodeModel),
>
    decreases events.len() - bidx, lines.len() + 1,
{
    if bidx < 0 || bidx >= events.len() || events[bidx].kind != BracketKind::Open
        || events[bidx].line >= lines.len() {
        None
    } else {
        let header = spec_trim(lines[events[bidx].line as int]);
        if header.len() == 0 || header.last() != '{' {
            None
        } else {
            let name = spec_trim(header.drop_last());
            match spec_parse_body(lines, events, bidx, events[bidx].line + 1) {
                None => None,
                Some((b2, props, kids)) => Some(
                    (b2, NodeModel { name, props, children: kids }),
                ),
            }
        }
    }
}

/// What loading a whole document yields: the model of its root node, or
/// nothing when the document is malformed — an ambiguous brace line, an
/// unbalanced event sequence, no node at all, a parse failure, or bracket
/// events left over after the root node's close.
pub open spec fn spec_document(content: Seq<char>) -> Option<NodeModel> {
    let lines = spec_split_lines(content);
    let evs = spec_events(lines);
    if spec_ambiguous(lines) || !spec_balanced(evs) || evs.len() == 0 {
        None
    } else {
        match spec_parse_node(lines, evs, 0) {
            None => None,
            Some((b, model)) => if b == evs.len() - 1 {
                Some(model)
            } else {
                None
            },
        }
    }
}

/// Value fidelity for a property with a value: the line it renders to,
/// stripped of its newline, classifies back to exactly the same key and
/// the same raw value, quotes and all.
pub proof fn lemma_value_fidelity(depth: nat, key: Seq<char>, value: Seq<char>)
    requires
        spec_trim(key) == key,
        key.len() > 0,
        !key.contains('='),
        spec_trim(value) == value,
    ensures
        spec_prop_line(PropModel { key, value: Some(value) }, depth) == (spec_indent(depth + 1)
            + key + " = "@ + value + ";"@) + "\n"@,
        spec_classify_property(spec_indent(depth + 1) + key + " = "@ + value + ";"@)
            == LineParse::Prop(PropModel { key, value: Some(value) }),
{
    reveal_strlit(" = ");
    reveal_strlit(";");
    reveal_strlit(";\n");
    reveal_strlit("\n");
    let pad = spec_indent(depth + 1);
    let body = key + " = "@ + value + ";"@;
    let l = pad + body;
    assert(spec_prop_line(PropModel { key, value: Some(value) }, depth) =~= l + "\n"@);
    lemma_trimmed_ends(key);
    assert(body[0] == key[0]);
    assert(body.last() == ';');
    lemma_trim_of_padded(pad, body);
    let t = spec_trim(l);
    assert(t == body);
    let klen = key.len() as int;
    assert(match_at(t, " = "@, klen)) by {
        assert(t.subrange(klen, klen + 3) =~= " = "@);
    }
    assert(match_at(l, " = "@, pad.len() + klen)) by {
        assert(l.subrange(pad.len() as int + klen, pad.len() as int + klen + 3) =~= " = "@);
    }
    lemma_spec_find_from(l, " = "@, 0);
    assert(has_substr(l, " = "@));
    lemma_spec_find_from(t, " = "@, 0);
    match spec_find(t, " = "@) {
        None => {
            assert(false);
        },
        Some(p) => {
            if p < klen {
                assert(t[p + 1] == t.subrange(p, p + 3)[1]);
                assert(t[p + 1] == '=');
                if p + 1 < klen {
                    assert(key[p + 1] == t[p + 1]);
                    assert(key.contains('='));
                } else {
                    assert(t[klen] == ' ');
                }
                assert(false);
            }
            assert(p == klen);
            assert(t.subrange(0, klen) =~= key);
            let rhs_raw = t.subrange(klen + 3, t.len() as int);
            assert(rhs_raw =~= value + ";"@);
            if value.len() == 0 {
                assert(value + ";"@ =~= ";"@);
                assert(!crate::text::is_space(';'));
                lemma_trim_of_padded(Seq::empty(), ";"@);
                assert(Seq::<char>::empty() + ";"@ =~= ";"@);
            } else {
                lemma_trimmed_ends(value);
                lemma_trim_of_padded(Seq::empty(), value + ";"@);
                assert(Seq::<char>::empty() + (value + ";"@) =~= value + ";"@);
            }
            let rhs = spec_trim(rhs_raw);
            assert(rhs == value + ";"@);
            assert(rhs.last() == ';');
            assert(rhs.drop_last() =~= value);
        },
    }
    assert(spec_indent(depth + 1) + key + " = "@ + value + ";"@ =~= l);
    assert((spec_indent(depth + 1) + key + " = "@ + value + ";"@) + "\n"@ =~= l + "\n"@);
}

/// Value fidelity for a property without a value: it renders to `key;`,
/// which classifies back to the same key and no value segment at all.
pub proof fn lemma_flag_fidelity(depth: nat, key: Seq<char>)
    requires
        spec_trim(key) == key,
        key.len() > 0,
        !key.contains('='),
    ensures
        spec_prop_line(PropModel { key, value: None }, depth) == (spec_indent(depth + 1) + key
            + ";"@) + "\n"@,
        spec_classify_property(spec_indent(depth + 1) + key + ";"@) == LineParse::Prop(
            PropModel { key, value: None },
        ),
{
    reveal_strlit(" = ");
    reveal_strlit(";");
    reveal_strlit(";\n");
    reveal_strlit("\n");
    let pad = spec_indent(depth + 1);
    let body = key + ";"@;
    let l = pad + body;
    assert(spec_prop_line(PropModel { key, value: None }, depth) =~= l + "\n"@);
    assert forall|k: int| 0 <= k < l.len() implies l[k] != '=' by {
        if k < pad.len() {
            assert(l[k] == '\t');
        } else if k < pad.len() + key.len() {
            assert(l[k] == key[k - pad.len()]);
            if l[k] == '=' {
                assert(key.contains('='));
            }
        } else {
            assert(l[k] == ';');
        }
    }
    assert(!l.contains('='));
    assert(!has_substr(l, " = "@)) by {
        lemma_spec_find_from(l, " = "@, 0);
        match spec_find(l, " = "@) {
            Some(p) => {
                assert(l[p + 1] == l.subrange(p, p + 3)[1]);
                assert(l[p + 1] == '=');
                assert(false);
            },
            None => {},
        }
    }
    assert(l.contains(';')) by {
        assert(l[l.len() - 1] == ';');
    }
    lemma_trimmed_ends(key);
    assert(body[0] == key[0]);
    assert(body.last() == ';');
    lemma_trim_of_padded(pad, body);
    let t = spec_trim(l);
    assert(t == body);
    assert(t.len() >= 2);
    assert(t.last() == ';');
    assert(t.drop_last() =~= key);
    assert(spec_indent(depth + 1) + key + ";"@ =~= l);
    assert((spec_indent(depth + 1) + key + ";"@) + "\n"@ =~= l + "\n"@);
}

/// Balanced-brackets invariant: every document that loading accepts has as
/// many open events as close events, and at every prefix of the event
/// sequence at least as many opens as closes.
pub proof fn lemma_accepted_document_balanced(content: Seq<char>)
    requires
        spec_document(content) is Some,
    ensures
        spec_balanced(spec_events(spec_split_lines(content))),
        spec_events(spec_split_lines(content)).len() > 0,
{
}

/// Split the document at each newline character.
pub fn split_lines(s: &str) -> (r: Vec<String>)
    ensures
        r.deep_view() == spec_split_lines(s@),
{
    let mut r: Vec<String> = Vec::new();
    let mut rest: &str = s;
    loop
        invariant
            spec_split_lines(s@) == r.deep_view() + spec_split_lines(rest@),
        decreases rest@.len(),
    {
        let ghost dv0 = r.deep_view();
        match find_substr(rest, "\n") {
            Some(p) => {
                proof {
                    reveal_strlit("\n");
                    crate::text::lemma_spec_find_from(rest@, "\n"@, 0);
                }
                let n = rest.unicode_len();
                let piece = rest.substring_char(0, p);
                r.push(piece.to_owned());
                proof {
                    assert(r.deep_view() =~= dv0 + seq![piece@]);
                }
                rest = rest.substring_char(p + 1, n);
                proof {
                    assert(spec_split_lines(s@) =~= r.deep_view() + spec_split_lines(rest@));
                }
            },
            None => {
                r.push(rest.to_owned());
                proof {
                    assert(r.deep_view() =~= dv0 + seq![rest@]);
                    assert(spec_split_lines(rest@) == seq![rest@]);
                    assert(spec_split_lines(s@) =~= r.deep_view());
                }
                return r;
            },
        }
    }
}

impl DtbNode {
    /// Parse the body of one node: properties and child nodes, up to and
    /// including the node's own close event.
    fn parse_body(lines: &Vec<String>, events: &Vec<BracketEvent>, bidx: usize, lidx: usize) -> (r:
        Result<(usize, Vec<DtbProperty>, Vec<Box<DtbNode>>), DtbError>)
        ensures
            match r {
                Ok((b3, props, kids)) => b3 < events@.len() && spec_parse_body(
                    lines.deep_view(),
                    events@,
                    bidx as int,
                    lidx as int,
                ) == Some((b3 as int, props_model(props@), boxes_models(kids@))),
                Err(e) => spec_parse_body(lines.deep_view(), events@, bidx as int, lidx as int)
                    is None && e == DtbError::MalformedDocument,
            },
        decreases events@.len() - bidx, lines@.len() - lidx,
    {
        let ghost dv = lines.deep_view();
        let nl = lines.len();
        let ne = events.len();
        proof {
            assert(forall|k: int| 0 <= k < nl ==> dv[k] == lines@[k]@);
        }
        if lidx >= nl || bidx >= ne {
            return Err(DtbError::MalformedDocument);
        }
        if bidx + 1 >= ne {
            return Err(DtbError::MalformedDocument);
        }
        let ev = events[bidx + 1];
        if ev.line == lidx && ev.kind == BracketKind::Close {
            let props: Vec<DtbProperty> = Vec::new();
            let kids: Vec<Box<DtbNode>> = Vec::new();
            proof {
                assert(props_model(props@) =~= Seq::<PropModel>::empty());
                assert(boxes_models(kids@) =~= Seq::<NodeModel>::empty());
            }
            return Ok((bidx + 1, props, kids));
        }
        if ev.line == lidx {
            let (b2, child) = match Self::parse(lines, events, bidx + 1, ev) {
                Ok(x) => x,
                Err(e) => {
                    return Err(e);
                },
            };
            if b2 <= bidx + 1 || b2 >= ne {
                return Err(DtbError::MalformedDocument);
            }
            let line2 = events[b2].line;
            if line2 >= nl {
                proof {
                    assert(spec_parse_body(dv, events@, b2 as int, line2 + 1) is None);
                }
                return Err(DtbError::MalformedDocument);
            }
            let (b3, props, mut kids) = match Self::parse_body(lines, events, b2, line2 + 1) {
                Ok(x) => x,
                Err(e) => {
                    return Err(e);
                },
            };
            let ghost kids0 = kids@;
            kids.insert(0, Box::new(child));
            proof {
                assert(boxes_models(kids@) =~= seq![node_model(child)] + boxes_models(kids0));
            }
            return Ok((b3, props, kids));
        }
        let l: &String = &lines[lidx];
        if contains_substr(l.as_str(), " = ") {
            let t = trim_str(l.as_str());
            let p = match find_substr(t, " = ") {
                Some(p) => p,
                None => {
                    return Err(DtbError::MalformedDocument);
                },
            };
            proof {
                reveal_strlit(" = ");
                crate::text::lemma_spec_find_from(t@, " = "@, 0);
            }
            let tn = t.unicode_len();
            let key = trim_str(t.substring_char(0, p));
            let rhs = trim_str(t.substring_char(p + 3, tn));
            let kn = key.unicode_len();
            let rn = rhs.unicode_len();
            if kn == 0 || rn == 0 {
                return Err(DtbError::MalformedDocument);
            }
            if rhs.get_char(rn - 1) != ';' {
                return Err(DtbError::MalformedDocument);
            }
            let value = rhs.substring_char(0, rn - 1);
            proof {
                assert(value@ =~= spec_trim(
                    spec_trim(dv[lidx as int]).subrange(
                        p + 3,
                        spec_trim(dv[lidx as int]).len() as int,
                    ),
                ).drop_last());
            }
            let (b3, mut props, kids) = match Self::parse_body(lines, events, bidx, lidx + 1) {
                Ok(x) => x,
                Err(e) => {
                    return Err(e);
                },
            };
            let ghost props0 = props@;
            props.insert(0, DtbProperty { key: key.to_owned(), value: Some(value.to_owned()) });
            proof {
                assert(props_model(props@) =~= seq![
                    PropModel { key: key@, value: Some(value@) },
                ] + props_model(props0));
            }
            return Ok((b3, props, kids));
        } else if !contains_char(l.as_str(), '=') && contains_char(l.as_str(), ';') {
            let t = trim_str(l.as_str());
            let tn = t.unicode_len();
            if tn < 2 {
                return Err(DtbError::MalformedDocument);
            }
            if t.get_char(tn - 1) != ';' {
                return Err(DtbError::MalformedDocument);
            }
            let key = t.substring_char(0, tn - 1);
            proof {
                assert(key@ =~= spec_trim(dv[lidx as int]).drop_last());
            }
            let (b3, mut props, kids) = match Self::parse_body(lines, events, bidx, lidx + 1) {
                Ok(x) => x,
                Err(e) => {
                    return Err(e);
                },
            };
            let ghost props0 = props@;
            props.insert(0, DtbProperty { key: key.to_owned(), value: None });
            proof {
                assert(props_model(props@) =~= seq![PropModel { key: key@, value: None }]
                    + props_model(props0));
            }
            return Ok((b3, props, kids));
        } else {
            return Self::parse_body(lines, events, bidx, lidx + 1);
        }
    }

    /// Parse the node whose open event is `events[index]`: its name is the
    /// open line's text with the trailing brace stripped and trimmed, its
    /// body everything up to the matching close event, whose index is
    /// returned beside the node.
    pub fn parse(lines: &Vec<String>, events: &Vec<BracketEvent>, index: usize, start: BracketEvent) -> (r:
        Result<(usize, DtbNode), DtbError>)
        requires
            index < events@.len(),
            events@[index as int] == start,
        ensures
            match r {
                Ok((next, node)) => next < events@.len() && spec_parse_node(
                    lines.deep_view(),
                    events@,
                    index as int,
                ) == Some((next as int, node@)),
                Err(e) => spec_parse_node(lines.deep_view(), events@, index as int) is None && e
                    == DtbError::MalformedDocument,
            },
        decreases events@.len() - index, lines@.len() + 1,
    {
        let ghost dv = lines.deep_view();
        proof {
            assert(forall|k: int| 0 <= k < lines@.len() ==> dv[k] == lines@[k]@);
        }
        match start.kind {
            BracketKind::Close => {
                return Err(DtbError::MalformedDocument);
            },
            BracketKind::Open => {},
        }
        let line0 = start.line;
        if line0 >= lines.len() {
            return Err(DtbError::MalformedDocument);
        }
        let header = trim_str(lines[line0].as_str());
        let hn = header.unicode_len();
        if hn == 0 {
            return Err(DtbError::MalformedDocument);
        }
        if header.get_char(hn - 1) != '{' {
            return Err(DtbError::MalformedDocument);
        }
        let name = trim_str(header.substring_char(0, hn - 1));
        proof {
            assert(name@ =~= spec_trim(spec_trim(dv[line0 as int]).drop_last()));
        }
        let (b2, props, kids) = match Self::parse_body(lines, events, index, line0 + 1) {
            Ok(x) => x,
            Err(e) => {
                return Err(e);
            },
        };
        let node = DtbNode { node_name: name.to_owned(), properties: props, child_nodes: kids };
        proof {
            lemma_node_children_model(node);
            assert(node_model(node) == NodeModel {
                name: name@,
                props: props_model(props@),
                children: boxes_models(kids@),
            });
        }
        Ok((b2, node))
    }

    /// Load a whole document into this node: split it into lines, index the
    /// brackets, insist that the events balance, parse the root node from
    /// the first open event, and insist that the root's close is the last
    /// event; on any inconsistency report a malformed document and leave
    /// this node untouched.
    pub fn init(&mut self, content: String) -> (r: Result<(), DtbError>)
        ensures
            match r {
                Ok(_) => spec_document(content@) == Some(node_model(*final(self))),
                Err(e) => spec_document(content@) is None && e == DtbError::MalformedDocument
                    && *final(self) == *old(self),
            },
    {
        let lines = split_lines(content.as_str());
        let events = match index_brackets(&lines) {
            Ok(e) => e,
            Err(e) => {
                return Err(e);
            },
        };
        if events.len() == 0 {
            return Err(DtbError::MalformedDocument);
        }
        if !check_balanced(&events) {
            return Err(DtbError::MalformedDocument);
        }
        let first = events[0];
        let (next, node) = match Self::parse(&lines, &events, 0, first) {
            Ok(x) => x,
            Err(e) => {
                return Err(e);
            },
        };
        if next != events.len() - 1 {
            return Err(DtbError::MalformedDocument);
        }
        *self = node;
        Ok(())
    }
}

} // verus!
