//! Proved laws relating the serializer to the parser: the rendered text of
//! a well-formed leaf node splits into the expected lines, indexes to a
//! balanced event pair, and re-parses to the node's own model.

use vstd::prelude::*;
use crate::index::{
    spec_ambiguous, spec_balanced, spec_events, spec_events_upto, spec_is_close, spec_is_comment,
    spec_is_open, spec_line_events, count_kind, BracketEvent, BracketKind,
};
use crate::parse::{
    lemma_flag_fidelity, lemma_value_fidelity, spec_classify_property, spec_document,
    spec_parse_body, spec_parse_node, spec_split_lines, LineParse,
};
use crate::render::{spec_indent, spec_prop_line, spec_props_upto, spec_stringify};
use crate::text::{
    has_substr, lemma_spec_find_from, lemma_trim_of_padded, lemma_trimmed_ends, match_at,
    spec_find, spec_starts_with, spec_trim,
};
use crate::tree::{node_model, props_model, DtbNode, NodeModel, PropModel};

verus! {

/// Text that can stand inside one rendered line without disturbing the
/// document's structure: no newline and no brace.
pub open spec fn wf_text(s: Seq<char>) -> bool {
    &&& !s.contains('\n')
    &&& !s.contains('{')
    &&& !s.contains('}')
}

/// A property whose rendered line reads back as the same property: a
/// trimmed nonempty key free of the separator character, of structure
/// characters and of the comment marker; a value, if any, trimmed and free
/// of structure characters.
pub open spec fn wf_prop(p: PropModel) -> bool {
    &&& spec_trim(p.key) == p.key
    &&& p.key.len() > 0
    &&& !p.key.contains('=')
    &&& wf_text(p.key)
    &&& !spec_starts_with(p.key, "//"@)
    &&& match p.value {
        Some(v) => spec_trim(v) == v && wf_text(v),
        None => true,
    }
}

/// A node name whose rendered header line reads back as the same name.
pub open spec fn wf_name(name: Seq<char>) -> bool {
    &&& spec_trim(name) == name
    &&& name.len() > 0
    &&& wf_text(name)
    &&& !spec_starts_with(name, "//"@)
}

/// The text of a rendered property line, without its newline.
pub open spec fn prop_line_body(p: PropModel, depth: nat) -> Seq<char> {
    match p.value {
        Some(v) => spec_indent(depth + 1) + p.key + " = "@ + v + ";"@,
        None => spec_indent(depth + 1) + p.key + ";"@,
    }
}

proof fn lemma_concat_contains(a: Seq<char>, b: Seq<char>, c: char)
    ensures
        (a + b).contains(c) == (a.contains(c) || b.contains(c)),
{
    if a.contains(c) {
        let k = choose|k: int| 0 <= k < a.len() && a[k] == c;
        assert((a + b)[k] == c);
    }
    if b.contains(c) {
        let k = choose|k: int| 0 <= k < b.len() && b[k] == c;
        assert((a + b)[a.len() + k] == c);
    }
    if (a + b).contains(c) {
        let k = choose|k: int| 0 <= k < (a + b).len() && (a + b)[k] == c;
        if k < a.len() {
            assert(a[k] == c);
        } else {
            assert(b[k - a.len()] == c);
        }
    }
}

proof fn lemma_indent_contains(n: nat, c: char)
    requires
        c != '\t',
    ensures
        !spec_indent(n).contains(c),
{
    assert forall|k: int| 0 <= k < spec_indent(n).len() implies spec_indent(n)[k] != c by {
        assert(spec_indent(n)[k] == '\t');
    }
}

/// A rendered property line holds no newline and no structure character.
proof fn lemma_prop_line_chars(p: PropModel, depth: nat, c: char)
    requires
        wf_prop(p),
        c != '\t' && c != ' ' && c != '=' && c != ';',
        !p.key.contains(c),
        match p.value {
            Some(v) => !v.contains(c),
            None => true,
        },
    ensures
        !prop_line_body(p, depth).contains(c),
{
    reveal_strlit(" = ");
    reveal_strlit(";");
    let pad = spec_indent((depth + 1) as nat);
    lemma_indent_contains((depth + 1) as nat, c);
    assert(!" = "@.contains(c)) by {
        assert forall|k: int| 0 <= k < " = "@.len() implies " = "@[k] != c by {}
    }
    assert(!";"@.contains(c)) by {
        assert forall|k: int| 0 <= k < ";"@.len() implies ";"@[k] != c by {}
    }
    match p.value {
        Some(v) => {
            lemma_concat_contains(pad, p.key, c);
            lemma_concat_contains(pad + p.key, " = "@, c);
            lemma_concat_contains(pad + p.key + " = "@, v, c);
            lemma_concat_contains(pad + p.key + " = "@ + v, ";"@, c);
        },
        None => {
            lemma_concat_contains(pad, p.key, c);
            lemma_concat_contains(pad + p.key, ";"@, c);
        },
    }
}

/// A line without braces contributes no bracket event.
proof fn lemma_line_no_events(l: Seq<char>)
    requires
        !l.contains('{'),
        !l.contains('}'),
    ensures
        !spec_is_open(l),
        !spec_is_close(l),
{
    reveal_strlit("};");
    assert(!has_substr(l, "};"@)) by {
        lemma_spec_find_from(l, "};"@, 0);
        match spec_find(l, "};"@) {
            Some(p) => {
                assert(l[p] == l.subrange(p, p + 2)[0]);
                assert(l[p] == '}');
                assert(false);
            },
            None => {},
        }
    }
}

/// The header line of a well-formed name is an open event and nothing else.
proof fn lemma_header_line(name: Seq<char>)
    requires
        wf_name(name),
    ensures
        spec_is_open(name + " {"@),
        !spec_is_close(name + " {"@),
        !(name + " {"@).contains('\n'),
        spec_trim(name + " {"@) == name + " {"@,
        (name + " {"@).len() == name.len() + 2,
        (name + " {"@).last() == '{',
{
    reveal_strlit(" {");
    reveal_strlit("//");
    reveal_strlit("};");
    let h = name + " {"@;
    assert(h[h.len() - 1] == '{');
    assert(h.contains('{'));
    lemma_trimmed_ends(name);
    assert(h[0] == name[0]);
    assert(!crate::text::is_space(h.last()));
    lemma_trim_of_padded(Seq::empty(), h);
    assert(Seq::<char>::empty() + h =~= h);
    assert(spec_trim(h) == h);
    if spec_starts_with(h, "//"@) {
        assert(h[1] == h.subrange(0, 2)[1]);
        assert(h[1] == '/');
        if name.len() >= 2 {
            assert(name.subrange(0, 2) =~= h.subrange(0, 2));
            assert(spec_starts_with(name, "//"@));
        } else {
            assert(h[1] == ' ');
        }
        assert(false);
    }
    assert(!spec_is_comment(h));
    assert(!" {"@.contains('}')) by {
        assert forall|k: int| 0 <= k < " {"@.len() implies " {"@[k] != '}' by {}
    }
    lemma_concat_contains(name, " {"@, '}');
    assert(!has_substr(h, "};"@)) by {
        lemma_spec_find_from(h, "};"@, 0);
        match spec_find(h, "};"@) {
            Some(p) => {
                assert(h[p] == h.subrange(p, p + 2)[0]);
                assert(h[p] == '}');
                assert(false);
            },
            None => {},
        }
    }
    assert(!" {"@.contains('\n')) by {
        assert forall|k: int| 0 <= k < " {"@.len() implies " {"@[k] != '\n' by {}
    }
    lemma_concat_contains(name, " {"@, '\n');
}

/// The closing line is a close event and nothing else.
proof fn lemma_close_line()
    ensures
        spec_is_close("};"@),
        !spec_is_open("};"@),
        !"};"@.contains('\n'),
{
    reveal_strlit("};");
    reveal_strlit("//");
    let l = "};"@;
    assert(match_at(l, "};"@, 0)) by {
        assert(l.subrange(0, 2) =~= "};"@);
    }
    lemma_spec_find_from(l, "};"@, 0);
    match spec_find(l, "};"@) {
        Some(_) => {},
        None => {
            assert(false);
        },
    }
    assert(has_substr(l, "};"@));
    lemma_trim_of_padded(Seq::empty(), l);
    assert(Seq::<char>::empty() + l =~= l);
    assert(spec_trim(l) == l);
    if spec_starts_with(l, "//"@) {
        assert(l[0] == l.subrange(0, 2)[0]);
        assert(false);
    }
    assert(!spec_is_comment(l));
    assert(!l.contains('{')) by {
        assert forall|k: int| 0 <= k < l.len() implies l[k] != '{' by {}
    }
    assert(!l.contains('\n')) by {
        assert forall|k: int| 0 <= k < l.len() implies l[k] != '\n' by {}
    }
}

/// Splitting at newlines takes one newline-free line off the front at a
/// time.
proof fn lemma_split_lines_cons(a: Seq<char>, rest: Seq<char>)
    requires
        !a.contains('\n'),
    ensures
        spec_split_lines(a + "\n"@ + rest) == seq![a] + spec_split_lines(rest),
{
    reveal_strlit("\n");
    let s = a + "\n"@ + rest;
    let alen = a.len() as int;
    assert(match_at(s, "\n"@, alen)) by {
        assert(s.subrange(alen, alen + 1) =~= "\n"@);
    }
    lemma_spec_find_from(s, "\n"@, 0);
    match spec_find(s, "\n"@) {
        None => {
            assert(false);
        },
        Some(p) => {
            if p < alen {
                assert(s[p] == s.subrange(p, p + 1)[0]);
                assert(s[p] == '\n');
                assert(a[p] == '\n');
                assert(false);
            }
            assert(p == alen);
            assert(s.subrange(0, p) =~= a);
            assert(s.subrange(p + 1, s.len() as int) =~= rest);
        },
    }
}

/// The rendered text of the properties from index `j` on.
pub open spec fn props_text_from(ps: Seq<PropModel>, j: int, depth: nat) -> Seq<char>
    decreases ps.len() - j,
{
    if j < 0 || j >= ps.len() {
        Seq::empty()
    } else {
        spec_prop_line(ps[j], depth) + props_text_from(ps, j + 1, depth)
    }
}

/// The line texts of the properties from index `j` on.
pub open spec fn prop_line_bodies_from(ps: Seq<PropModel>, j: int, depth: nat) -> Seq<Seq<char>> {
    Seq::new((ps.len() - j) as nat, |t: int| prop_line_body(ps[j + t], depth))
}

proof fn lemma_props_upto_from(ps: Seq<PropModel>, i: int, depth: nat)
    requires
        0 <= i <= ps.len(),
    ensures
        spec_props_upto(ps, i, depth) + props_text_from(ps, i, depth) == props_text_from(
            ps,
            0,
            depth,
        ),
    decreases i,
{
    if i == 0 {
        assert(spec_props_upto(ps, 0, depth) + props_text_from(ps, 0, depth) =~= props_text_from(
            ps,
            0,
            depth,
        ));
    } else {
        lemma_props_upto_from(ps, i - 1, depth);
        assert(spec_props_upto(ps, i, depth) + props_text_from(ps, i, depth) =~= spec_props_upto(
            ps,
            i - 1,
            depth,
        ) + props_text_from(ps, i - 1, depth));
    }
}

proof fn lemma_split_props(ps: Seq<PropModel>, j: int, depth: nat)
    requires
        0 <= j <= ps.len(),
        forall|i: int| 0 <= i < ps.len() ==> wf_prop(#[trigger] ps[i]),
    ensures
        spec_split_lines(props_text_from(ps, j, depth) + ("};"@ + "\n"@)) == prop_line_bodies_from(
            ps,
            j,
            depth,
        ) + seq!["};"@, Seq::<char>::empty()],
    decreases ps.len() - j,
{
    reveal_strlit("\n");
    if j == ps.len() {
        lemma_close_line();
        assert(props_text_from(ps, j, depth) + ("};"@ + "\n"@) =~= "};"@ + "\n"@
            + Seq::<char>::empty());
        lemma_split_lines_cons("};"@, Seq::empty());
        assert(spec_split_lines(Seq::<char>::empty()) == seq![Seq::<char>::empty()]);
        assert(spec_split_lines(props_text_from(ps, j, depth) + ("};"@ + "\n"@))
            =~= prop_line_bodies_from(ps, j, depth) + seq!["};"@, Seq::<char>::empty()]);
    } else {
        let body = prop_line_body(ps[j], depth);
        match ps[j].value {
            Some(v) => {
                lemma_value_fidelity(depth, ps[j].key, v);
            },
            None => {
                lemma_flag_fidelity(depth, ps[j].key);
            },
        }
        assert(ps[j] == PropModel { key: ps[j].key, value: ps[j].value });
        assert(spec_prop_line(ps[j], depth) == body + "\n"@);
        lemma_prop_line_chars(ps[j], depth, '\n');
        lemma_split_props(ps, j + 1, depth);
        assert(props_text_from(ps, j, depth) + ("};"@ + "\n"@) =~= body + "\n"@ + (props_text_from(
            ps,
            j + 1,
            depth,
        ) + ("};"@ + "\n"@)));
        lemma_split_lines_cons(body, props_text_from(ps, j + 1, depth) + ("};"@ + "\n"@));
        assert(spec_split_lines(props_text_from(ps, j, depth) + ("};"@ + "\n"@))
            =~= prop_line_bodies_from(ps, j, depth) + seq!["};"@, Seq::<char>::empty()]);
    }
}

proof fn lemma_events_upto_none(L: Seq<Seq<char>>, i: int)
    requires
        0 <= i <= L.len(),
        forall|j: int| 0 <= j < i ==> !spec_is_open(#[trigger] L[j]) && !spec_is_close(L[j]),
    ensures
        spec_events_upto(L, i) == Seq::<BracketEvent>::empty(),
    decreases i,
{
    if i > 0 {
        lemma_events_upto_none(L, i - 1);
        assert(spec_line_events(L[i - 1], (i - 1) as usize) =~= Seq::<BracketEvent>::empty());
        assert(spec_events_upto(L, i) =~= Seq::<BracketEvent>::empty());
    }
}

proof fn lemma_events_upto_mid(L: Seq<Seq<char>>, off: int, k: int, i: int)
    requires
        L.len() == off + k + 3,
        0 <= off,
        0 <= k,
        off + k + 1 <= usize::MAX,
        forall|j: int| 0 <= j < off ==> !spec_is_open(#[trigger] L[j]) && !spec_is_close(L[j]),
        spec_is_open(L[off]) && !spec_is_close(L[off]),
        forall|j: int|
            off + 1 <= j <= off + k ==> !spec_is_open(#[trigger] L[j]) && !spec_is_close(L[j]),
        off + 1 <= i <= off + k + 1,
    ensures
        spec_events_upto(L, i) == seq![
            BracketEvent { line: off as usize, kind: BracketKind::Open },
        ],
    decreases i,
{
    if i == off + 1 {
        lemma_events_upto_none(L, off);
        assert(spec_events_upto(L, off + 1) =~= seq![
            BracketEvent { line: off as usize, kind: BracketKind::Open },
        ]);
    } else {
        lemma_events_upto_mid(L, off, k, i - 1);
        assert(spec_line_events(L[i - 1], (i - 1) as usize) =~= Seq::<BracketEvent>::empty());
        assert(spec_events_upto(L, i) =~= seq![
            BracketEvent { line: off as usize, kind: BracketKind::Open },
        ]);
    }
}

proof fn lemma_events_structure(L: Seq<Seq<char>>, off: int, k: int)
    requires
        L.len() == off + k + 3,
        0 <= off,
        0 <= k,
        off + k + 1 <= usize::MAX,
        forall|j: int| 0 <= j < off ==> !spec_is_open(#[trigger] L[j]) && !spec_is_close(L[j]),
        spec_is_open(L[off]) && !spec_is_close(L[off]),
        forall|j: int|
            off + 1 <= j <= off + k ==> !spec_is_open(#[trigger] L[j]) && !spec_is_close(L[j]),
        spec_is_close(L[off + k + 1]) && !spec_is_open(L[off + k + 1]),
        !spec_is_open(L[off + k + 2]) && !spec_is_close(L[off + k + 2]),
    ensures
        spec_events(L) == seq![
            BracketEvent { line: off as usize, kind: BracketKind::Open },
            BracketEvent { line: (off + k + 1) as usize, kind: BracketKind::Close },
        ],
        !spec_ambiguous(L),
{
    let open_ev = BracketEvent { line: off as usize, kind: BracketKind::Open };
    let close_ev = BracketEvent { line: (off + k + 1) as usize, kind: BracketKind::Close };
    lemma_events_upto_mid(L, off, k, off + k + 1);
    assert(spec_line_events(L[off + k + 1], (off + k + 1) as usize) == seq![close_ev]);
    assert(spec_events_upto(L, off + k + 2) =~= seq![open_ev, close_ev]);
    assert(spec_line_events(L[off + k + 2], (off + k + 2) as usize)
        =~= Seq::<BracketEvent>::empty());
    assert(spec_events_upto(L, off + k + 3) =~= seq![open_ev, close_ev]);
    assert(spec_events(L) == spec_events_upto(L, L.len() as int));
}

proof fn lemma_pair_balanced(a: usize, b: usize)
    ensures
        spec_balanced(
            seq![
                BracketEvent { line: a, kind: BracketKind::Open },
                BracketEvent { line: b, kind: BracketKind::Close },
            ],
        ),
{
    let open_ev = BracketEvent { line: a, kind: BracketKind::Open };
    let close_ev = BracketEvent { line: b, kind: BracketKind::Close };
    let e = seq![open_ev, close_ev];
    let e1 = seq![open_ev];
    assert(e.drop_last() =~= e1);
    assert(e1.drop_last() =~= Seq::<BracketEvent>::empty());
    assert(count_kind(Seq::<BracketEvent>::empty(), BracketKind::Open) == 0);
    assert(count_kind(Seq::<BracketEvent>::empty(), BracketKind::Close) == 0);
    assert(count_kind(e1, BracketKind::Open) == 1);
    assert(count_kind(e1, BracketKind::Close) == 0);
    assert(count_kind(e, BracketKind::Open) == 1);
    assert(count_kind(e, BracketKind::Close) == 1);
    assert forall|i: int|
        0 <= i <= e.len() implies count_kind(e.subrange(0, i), BracketKind::Close) <= count_kind(
        e.subrange(0, i),
        BracketKind::Open,
    ) by {
        if i == 0 {
            assert(e.subrange(0, 0) =~= Seq::<BracketEvent>::empty());
        } else if i == 1 {
            assert(e.subrange(0, 1) =~= e1);
        } else {
            assert(e.subrange(0, 2) =~= e);
        }
    }
}

proof fn lemma_scan(
    L: Seq<Seq<char>>,
    e: Seq<BracketEvent>,
    ps: Seq<PropModel>,
    off: int,
    k: int,
    j: int,
)
    requires
        k == ps.len(),
        0 <= off,
        off + k + 3 <= usize::MAX,
        L.len() == off + k + 3,
        forall|i: int| 0 <= i < k ==> wf_prop(#[trigger] ps[i]),
        forall|i: int| 0 <= i < k ==> L[off + 1 + i] == prop_line_body(#[trigger] ps[i], 0),
        e == seq![
            BracketEvent { line: off as usize, kind: BracketKind::Open },
            BracketEvent { line: (off + k + 1) as usize, kind: BracketKind::Close },
        ],
        0 <= j <= k,
    ensures
        spec_parse_body(L, e, 0, off + 1 + j) == Some(
            (1int, ps.subrange(j, k), Seq::<NodeModel>::empty()),
        ),
    decreases k - j,
{
    let lidx: int = off + 1 + j;
    assert(e[1].line == off + k + 1);
    if j == k {
        assert(ps.subrange(k, k) =~= Seq::<PropModel>::empty());
        assert(spec_parse_body(L, e, 0, lidx) == Some(
            (1int, Seq::<PropModel>::empty(), Seq::<NodeModel>::empty()),
        ));
    } else {
        assert(e[1].line != lidx);
        assert(L[lidx] == prop_line_body(ps[j], 0));
        match ps[j].value {
            Some(v) => {
                lemma_value_fidelity(0, ps[j].key, v);
            },
            None => {
                lemma_flag_fidelity(0, ps[j].key);
            },
        }
        assert(ps[j] == PropModel { key: ps[j].key, value: ps[j].value });
        assert(spec_classify_property(L[lidx]) == LineParse::Prop(ps[j]));
        lemma_scan(L, e, ps, off, k, j + 1);
        assert(seq![ps[j]] + ps.subrange(j + 1, k) =~= ps.subrange(j, k));
    }
}

/// Everything a node renders before its property at index `i`: the
/// version header if any, the header line, and the earlier properties.
pub open spec fn edit_prefix(n: DtbNode, i: int, depth: nat) -> Seq<char> {
    (if n.node_name@ == "/"@ && depth == 0 {
        "/dts-v1/;\n\n"@
    } else {
        Seq::<char>::empty()
    }) + spec_indent(depth) + n.node_name@ + " {\n"@ + spec_props_upto(
        props_model(n.properties@),
        i,
        depth,
    )
}

/// Everything a node renders after its property at index `i`: the later
/// properties, the children with their separating blank lines, and the
/// closing line.
pub open spec fn edit_suffix(n: DtbNode, i: int, depth: nat) -> Seq<char> {
    props_text_from(props_model(n.properties@), i + 1, depth) + (if n.child_nodes@.len() > 0 {
        "\n"@
    } else {
        Seq::<char>::empty()
    }) + crate::render::spec_children_upto(n, n.child_nodes@.len() as int, depth) + spec_indent(
        depth,
    ) + "};\n"@
}

proof fn lemma_props_upto_agree(ps1: Seq<PropModel>, ps2: Seq<PropModel>, m: int, depth: nat)
    requires
        0 <= m <= ps1.len(),
        ps2.len() == ps1.len(),
        forall|j: int| 0 <= j < m ==> ps2[j] == ps1[j],
    ensures
        spec_props_upto(ps2, m, depth) == spec_props_upto(ps1, m, depth),
    decreases m,
{
    if m > 0 {
        lemma_props_upto_agree(ps1, ps2, m - 1, depth);
    }
}

proof fn lemma_props_from_agree(ps1: Seq<PropModel>, ps2: Seq<PropModel>, m: int, depth: nat)
    requires
        ps2.len() == ps1.len(),
        forall|j: int| m <= j < ps1.len() ==> ps2[j] == ps1[j],
    ensures
        props_text_from(ps2, m, depth) == props_text_from(ps1, m, depth),
    decreases ps1.len() - m,
{
    if 0 <= m && m < ps1.len() {
        lemma_props_from_agree(ps1, ps2, m + 1, depth);
    }
}

proof fn lemma_children_upto_same(a: DtbNode, b: DtbNode, i: int, depth: nat)
    requires
        a.child_nodes == b.child_nodes,
    ensures
        crate::render::spec_children_upto(a, i, depth) == crate::render::spec_children_upto(
            b,
            i,
            depth,
        ),
    decreases i,
{
    if i > 0 && i <= a.child_nodes@.len() {
        lemma_children_upto_same(a, b, i - 1, depth);
    }
}

proof fn lemma_render_decompose(n: DtbNode, i: int, depth: nat)
    requires
        0 <= i < n.properties@.len(),
    ensures
        spec_stringify(n, depth) == edit_prefix(n, i, depth) + spec_prop_line(
            props_model(n.properties@)[i],
            depth,
        ) + edit_suffix(n, i, depth),
{
    let ps = props_model(n.properties@);
    let m = ps.len() as int;
    lemma_props_upto_from(ps, i, depth);
    lemma_props_upto_from(ps, m, depth);
    assert(props_text_from(ps, m, depth) =~= Seq::<char>::empty());
    assert(spec_props_upto(ps, m, depth) + props_text_from(ps, m, depth) =~= spec_props_upto(
        ps,
        m,
        depth,
    ));
    assert(props_text_from(ps, i, depth) == spec_prop_line(ps[i], depth) + props_text_from(
        ps,
        i + 1,
        depth,
    ));
    assert(spec_stringify(n, depth) =~= edit_prefix(n, i, depth) + spec_prop_line(ps[i], depth)
        + edit_suffix(n, i, depth));
}

/// Edit isolation in the rendered text: two nodes that agree on their
/// name, their children, and every property but the one at index `i`
/// render to texts with identical surroundings — each is that shared
/// prefix, then its own version of the one property line, then that shared
/// suffix.
pub proof fn lemma_edit_render_isolation(n1: DtbNode, n2: DtbNode, i: int, depth: nat)
    requires
        0 <= i < n1.properties@.len(),
        n2.node_name == n1.node_name,
        n2.child_nodes == n1.child_nodes,
        n2.properties@.len() == n1.properties@.len(),
        forall|j: int|
            0 <= j < n1.properties@.len() && j != i ==> n2.properties@[j] == n1.properties@[j],
    ensures
        spec_stringify(n1, depth) == edit_prefix(n1, i, depth) + spec_prop_line(
            props_model(n1.properties@)[i],
            depth,
        ) + edit_suffix(n1, i, depth),
        spec_stringify(n2, depth) == edit_prefix(n1, i, depth) + spec_prop_line(
            props_model(n2.properties@)[i],
            depth,
        ) + edit_suffix(n1, i, depth),
{
    let ps1 = props_model(n1.properties@);
    let ps2 = props_model(n2.properties@);
    assert(forall|j: int| 0 <= j < ps1.len() && j != i ==> ps2[j] == ps1[j]);
    lemma_render_decompose(n1, i, depth);
    lemma_render_decompose(n2, i, depth);
    lemma_props_upto_agree(ps1, ps2, i, depth);
    lemma_props_from_agree(ps1, ps2, i + 1, depth);
    lemma_children_upto_same(n1, n2, n1.child_nodes@.len() as int, depth);
    assert(edit_prefix(n2, i, depth) == edit_prefix(n1, i, depth));
    assert(edit_suffix(n2, i, depth) == edit_suffix(n1, i, depth));
}

/// Round trip for a leaf: rendering a well-formed node without children at
/// the top of a document and loading that text back yields exactly the
/// node's own model.
pub proof fn lemma_leaf_round_trip(n: DtbNode)
    requires
        n.child_nodes@.len() == 0,
        n.properties@.len() + 3 <= usize::MAX,
        wf_name(n.node_name@),
        n.node_name@ != "/"@,
        forall|i: int| 0 <= i < n.properties@.len() ==> wf_prop(#[trigger] n.properties@[i]@),
    ensures
        spec_document(spec_stringify(n, 0)) == Some(node_model(n)),
{
    reveal_strlit(" {\n");
    reveal_strlit(" {");
    reveal_strlit("\n");
    reveal_strlit("};\n");
    reveal_strlit("};");
    let name = n.node_name@;
    let ps = props_model(n.properties@);
    let k = ps.len() as int;
    assert forall|i: int| 0 <= i < k implies wf_prop(ps[i]) by {
        assert(ps[i] == n.properties@[i]@);
    }
    let header = name + " {"@;
    let bodies = prop_line_bodies_from(ps, 0, 0);
    let line_list = seq![header] + bodies + seq!["};"@, Seq::<char>::empty()];
    let rendered = spec_stringify(n, 0);
    // the rendered text, line by line
    lemma_props_upto_from(ps, k, 0);
    assert(props_text_from(ps, k, 0) =~= Seq::<char>::empty());
    assert(spec_props_upto(ps, k, 0) + props_text_from(ps, k, 0) =~= spec_props_upto(ps, k, 0));
    assert(rendered =~= header + "\n"@ + (props_text_from(ps, 0, 0) + ("};"@ + "\n"@)));
    lemma_header_line(name);
    lemma_split_lines_cons(header, props_text_from(ps, 0, 0) + ("};"@ + "\n"@));
    lemma_split_props(ps, 0, 0);
    assert(spec_split_lines(rendered) =~= line_list);
    // the event sequence of those lines
    assert forall|j: int| 1 <= j <= k implies !spec_is_open(#[trigger] line_list[j])
        && !spec_is_close(line_list[j]) by {
        assert(line_list[j] == prop_line_body(ps[j - 1], 0));
        lemma_prop_line_chars(ps[j - 1], 0, '{');
        lemma_prop_line_chars(ps[j - 1], 0, '}');
        lemma_line_no_events(line_list[j]);
    }
    lemma_close_line();
    assert(!Seq::<char>::empty().contains('{'));
    assert(!Seq::<char>::empty().contains('}'));
    lemma_line_no_events(Seq::empty());
    lemma_events_structure(line_list, 0, k);
    let open_ev = BracketEvent { line: 0, kind: BracketKind::Open };
    let close_ev = BracketEvent { line: (k + 1) as usize, kind: BracketKind::Close };
    let evs = seq![open_ev, close_ev];
    lemma_pair_balanced(0, (k + 1) as usize);
    // parsing those lines from the first event
    assert(line_list[0] == header);
    assert(spec_trim(line_list[0]) == header);
    assert(header.last() == '{');
    let hd = header.drop_last();
    assert(hd.last() == ' ');
    assert(hd.drop_last() =~= name);
    lemma_trimmed_ends(name);
    assert(spec_trim(hd) == name) by {
        assert(hd[0] == name[0]);
        assert(crate::text::spec_trim_start(hd) == hd);
        assert(crate::text::spec_trim_end(hd) == crate::text::spec_trim_end(hd.drop_last()));
        assert(crate::text::spec_trim_end(name) == name);
    }
    assert forall|i: int| 0 <= i < k implies line_list[i + 1] == prop_line_body(
        #[trigger] ps[i],
        0,
    ) by {}
    lemma_scan(line_list, evs, ps, 0, k, 0);
    assert(ps.subrange(0, k) =~= ps);
    assert(spec_parse_node(line_list, evs, 0) == Some(
        (1int, NodeModel { name, props: ps, children: Seq::<NodeModel>::empty() }),
    ));
    // the whole document
    assert(node_model(n).children =~= Seq::<NodeModel>::empty());
    assert(node_model(n) == NodeModel { name, props: ps, children: Seq::<NodeModel>::empty() });
    assert(spec_document(rendered) == Some(node_model(n)));
}

/// Round trip for a childless root node: rendering the root `/` emits the
/// version header first, and loading the whole text back yields exactly
/// the node's own model.
pub proof fn lemma_root_round_trip(n: DtbNode)
    requires
        n.child_nodes@.len() == 0,
        n.properties@.len() + 5 <= usize::MAX,
        n.node_name@ == "/"@,
        forall|i: int| 0 <= i < n.properties@.len() ==> wf_prop(#[trigger] n.properties@[i]@),
    ensures
        spec_document(spec_stringify(n, 0)) == Some(node_model(n)),
{
    reveal_strlit("/dts-v1/;\n\n");
    reveal_strlit("/dts-v1/;");
    reveal_strlit("/");
    reveal_strlit("//");
    reveal_strlit(" {\n");
    reveal_strlit(" {");
    reveal_strlit("\n");
    reveal_strlit("};\n");
    reveal_strlit("};");
    let name = n.node_name@;
    let ps = props_model(n.properties@);
    let k = ps.len() as int;
    assert forall|i: int| 0 <= i < k implies wf_prop(ps[i]) by {
        assert(ps[i] == n.properties@[i]@);
    }
    // the root's one-character name is well formed
    assert(wf_name(name)) by {
        assert(!crate::text::is_space('/'));
        lemma_trim_of_padded(Seq::empty(), name);
        assert(Seq::<char>::empty() + name =~= name);
        assert(!name.contains('\n') && !name.contains('{') && !name.contains('}')) by {
            assert(forall|t: int| 0 <= t < name.len() ==> name[t] == '/');
        }
    }
    let ver = "/dts-v1/;"@;
    let header = name + " {"@;
    let bodies = prop_line_bodies_from(ps, 0, 0);
    let line_list = seq![ver, Seq::<char>::empty(), header] + bodies + seq![
        "};"@,
        Seq::<char>::empty(),
    ];
    let rendered = spec_stringify(n, 0);
    // the rendered text, line by line
    lemma_props_upto_from(ps, k, 0);
    assert(props_text_from(ps, k, 0) =~= Seq::<char>::empty());
    assert(spec_props_upto(ps, k, 0) + props_text_from(ps, k, 0) =~= spec_props_upto(ps, k, 0));
    let tail2 = header + "\n"@ + (props_text_from(ps, 0, 0) + ("};"@ + "\n"@));
    let tail1 = Seq::<char>::empty() + "\n"@ + tail2;
    assert(rendered =~= ver + "\n"@ + tail1);
    assert(!ver.contains('\n')) by {
        assert(forall|t: int| 0 <= t < ver.len() ==> ver[t] != '\n');
    }
    lemma_split_lines_cons(ver, tail1);
    assert(!Seq::<char>::empty().contains('\n'));
    lemma_split_lines_cons(Seq::empty(), tail2);
    lemma_header_line(name);
    lemma_split_lines_cons(header, props_text_from(ps, 0, 0) + ("};"@ + "\n"@));
    lemma_split_props(ps, 0, 0);
    assert(spec_split_lines(rendered) =~= line_list);
    // the event sequence of those lines
    assert(!ver.contains('{') && !ver.contains('}')) by {
        assert(forall|t: int| 0 <= t < ver.len() ==> ver[t] != '{' && ver[t] != '}');
    }
    lemma_line_no_events(ver);
    assert(!Seq::<char>::empty().contains('{'));
    assert(!Seq::<char>::empty().contains('}'));
    lemma_line_no_events(Seq::empty());
    assert forall|j: int| 3 <= j <= k + 2 implies !spec_is_open(#[trigger] line_list[j])
        && !spec_is_close(line_list[j]) by {
        assert(line_list[j] == prop_line_body(ps[j - 3], 0));
        lemma_prop_line_chars(ps[j - 3], 0, '{');
        lemma_prop_line_chars(ps[j - 3], 0, '}');
        lemma_line_no_events(line_list[j]);
    }
    lemma_close_line();
    lemma_events_structure(line_list, 2, k);
    let open_ev = BracketEvent { line: 2, kind: BracketKind::Open };
    let close_ev = BracketEvent { line: (k + 3) as usize, kind: BracketKind::Close };
    let evs = seq![open_ev, close_ev];
    lemma_pair_balanced(2, (k + 3) as usize);
    // parsing those lines from the first event
    assert(line_list[2] == header);
    assert(spec_trim(line_list[2]) == header);
    assert(header.last() == '{');
    let hd = header.drop_last();
    assert(hd.last() == ' ');
    assert(hd.drop_last() =~= name);
    lemma_trimmed_ends(name);
    assert(spec_trim(hd) == name) by {
        assert(hd[0] == name[0]);
        assert(crate::text::spec_trim_start(hd) == hd);
        assert(crate::text::spec_trim_end(hd) == crate::text::spec_trim_end(hd.drop_last()));
        assert(crate::text::spec_trim_end(name) == name);
    }
    assert forall|i: int| 0 <= i < k implies line_list[2 + 1 + i] == prop_line_body(
        #[trigger] ps[i],
        0,
    ) by {}
    lemma_scan(line_list, evs, ps, 2, k, 0);
    assert(ps.subrange(0, k) =~= ps);
    assert(spec_parse_node(line_list, evs, 0) == Some(
        (1int, NodeModel { name, props: ps, children: Seq::<NodeModel>::empty() }),
    ));
    // the whole document
    assert(node_model(n).children =~= Seq::<NodeModel>::empty());
    assert(node_model(n) == NodeModel { name, props: ps, children: Seq::<NodeModel>::empty() });
    assert(spec_document(rendered) == Some(node_model(n)));
}

} // verus!
