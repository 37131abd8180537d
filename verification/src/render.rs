//! The serializer: renders a node tree back to source text with one tab per
//! depth level, properties before children, one blank line before the first
//! child and between consecutive children, and a version header in front of
//! the root node.

use vstd::prelude::*;
use crate::text::str_eq;
use crate::tree::{props_model, DtbNode, PropModel};

verus! {

/// `n` tab characters.
pub open spec fn spec_indent(n: nat) -> Seq<char> {
    Seq::new(n, |i: int| '\t')
}

/// The rendered text of one property at depth `depth`:
/// `<indent+1><key>` then ` = <value>` when a value is present, then `;`
/// and a newline.
pub open spec fn spec_prop_line(p: PropModel, depth: nat) -> Seq<char> {
    spec_indent(depth + 1) + p.key + (match p.value {
        Some(v) => " = "@ + v,
        None => Seq::<char>::empty(),
    }) + ";\n"@
}

/// The rendered text of the first `i` properties, in order.
pub open spec fn spec_props_upto(ps: Seq<PropModel>, i: int, depth: nat) -> Seq<char>
    decreases i,
{
    if i <= 0 {
        Seq::empty()
    } else {
        spec_props_upto(ps, i - 1, depth) + spec_prop_line(ps[i - 1], depth)
    }
}

/// The larger of two naturals.
pub open spec fn nat_max(a: nat, b: nat) -> nat {
    if a >= b {
        a
    } else {
        b
    }
}

/// The height of the subtrees of `n` from child `i` on.
pub open spec fn children_height_from(n: DtbNode, i: int) -> nat
    decreases n, n.child_nodes@.len() - i,
{
    if i < 0 || i >= n.child_nodes@.len() {
        0
    } else {
        nat_max(node_height(*n.child_nodes@[i]), children_height_from(n, i + 1))
    }
}

/// The height of a node: one more than the height of its tallest child.
pub open spec fn node_height(n: DtbNode) -> nat
    decreases n, n.child_nodes@.len() + 1,
{
    1 + children_height_from(n, 0)
}

/// Every child's height is bounded by the children height from any earlier
/// index.
pub proof fn lemma_children_height_from(n: DtbNode, i: int)
    requires
        0 <= i <= n.child_nodes@.len(),
    ensures
        forall|k: int|
            i <= k < n.child_nodes@.len() ==> node_height(*n.child_nodes@[k])
                <= children_height_from(n, i),
    decreases n.child_nodes@.len() - i,
{
    if i < n.child_nodes@.len() {
        lemma_children_height_from(n, i + 1);
    }
}

/// The rendered text of the first `i` children of `n` at depth `depth`:
/// each child rendered one level deeper, consecutive children separated by
/// one blank line, no blank line after the last child.
pub open spec fn spec_children_upto(n: DtbNode, i: int, depth: nat) -> Seq<char>
    decreases n, i,
{
    if i <= 0 || i > n.child_nodes@.len() {
        Seq::empty()
    } else {
        spec_children_upto(n, i - 1, depth) + spec_stringify(*n.child_nodes@[i - 1], depth + 1) + (
        if i < n.child_nodes@.len() {
            "\n"@
        } else {
            Seq::<char>::empty()
        })
    }
}

/// The rendered text of the whole subtree at `n`, at depth `depth`: an
/// optional version header (root only), the header line, the properties,
/// one blank line if and only if there is at least one child, the children,
/// and the closing line.
pub open spec fn spec_stringify(n: DtbNode, depth: nat) -> Seq<char>
    decreases n, n.child_nodes@.len() + 1,
{
    (if n.node_name@ == "/"@ && depth == 0 {
        "/dts-v1/;\n\n"@
    } else {
        Seq::<char>::empty()
    }) + spec_indent(depth) + n.node_name@ + " {\n"@ + spec_props_upto(
        props_model(n.properties@),
        n.properties@.len() as int,
        depth,
    ) + (if n.child_nodes@.len() > 0 {
        "\n"@
    } else {
        Seq::<char>::empty()
    }) + spec_children_upto(n, n.child_nodes@.len() as int, depth) + spec_indent(depth) + "};\n"@
}

impl DtbNode {
    /// One tab character per depth level.
    pub fn indent(n: usize) -> (r: String)
        ensures
            r@ == spec_indent(n as nat),
    {
        let mut r = String::new();
        let mut i: usize = 0;
        while i < n
            invariant
                0 <= i <= n,
                r@ == spec_indent(i as nat),
            decreases n - i,
        {
            r.append("\t");
            proof {
                reveal_strlit("\t");
                assert(r@ =~= spec_indent((i + 1) as nat));
            }
            i = i + 1;
        }
        r
    }

    /// Render the subtree rooted at this node at the given depth.
    ///
    /// The result is exactly the text that [`spec_stringify`] describes.
    pub fn stringify(&self, depth: usize) -> (r: String)
        requires
            depth + node_height(*self) <= usize::MAX,
        ensures
            r@ == spec_stringify(*self, depth as nat),
        decreases *self,
    {
        proof {
            lemma_children_height_from(*self, 0);
        }
        let mut ret = String::new();
        if depth == 0 && str_eq(self.node_name.as_str(), "/") {
            ret.append("/dts-v1/;\n\n");
        }
        let ghost header0: Seq<char> = if self.node_name@ == "/"@ && depth == 0 {
            "/dts-v1/;\n\n"@
        } else {
            Seq::<char>::empty()
        };
        assert(ret@ == header0);
        let ind = Self::indent(depth);
        ret.append(ind.as_str());
        ret.append(self.node_name.as_str());
        ret.append(" {\n");
        let ghost header: Seq<char> = header0 + spec_indent(depth as nat) + self.node_name@
            + " {\n"@;
        assert(ret@ == header);
        let ghost pm = props_model(self.properties@);
        let np = self.properties.len();
        let mut i: usize = 0;
        while i < np
            invariant
                0 <= i <= np,
                np == self.properties@.len(),
                pm == props_model(self.properties@),
                depth + node_height(*self) <= usize::MAX,
                node_height(*self) >= 1,
                ret@ == header + spec_props_upto(pm, i as int, depth as nat),
            decreases np - i,
        {
            let pind = Self::indent(depth + 1);
            ret.append(pind.as_str());
            ret.append(self.properties[i].key.as_str());
            match &self.properties[i].value {
                Some(v) => {
                    ret.append(" = ");
                    ret.append(v.as_str());
                },
                None => {},
            }
            ret.append(";\n");
            proof {
                assert(pm[i as int] == self.properties@[i as int]@);
                assert(ret@ =~= header + (spec_props_upto(pm, i as int, depth as nat)
                    + spec_prop_line(pm[i as int], depth as nat)));
            }
            i = i + 1;
        }
        let ghost with_props: Seq<char> = header + spec_props_upto(
            pm,
            self.properties@.len() as int,
            depth as nat,
        );
        assert(ret@ == with_props);
        let nc = self.child_nodes.len();
        if nc > 0 {
            ret.append("\n");
        }
        let ghost with_blank: Seq<char> = with_props + (if self.child_nodes@.len() > 0 {
            "\n"@
        } else {
            Seq::<char>::empty()
        });
        assert(ret@ == with_blank);
        let mut j: usize = 0;
        while j < nc
            invariant
                0 <= j <= nc,
                nc == self.child_nodes@.len(),
                depth + node_height(*self) <= usize::MAX,
                node_height(*self) >= 1,
                forall|k: int|
                    0 <= k < nc ==> node_height(*self.child_nodes@[k]) <= children_height_from(
                        *self,
                        0,
                    ),
                node_height(*self) == 1 + children_height_from(*self, 0),
                ret@ == with_blank + spec_children_upto(*self, j as int, depth as nat),
            decreases nc - j,
        {
            let s = self.child_nodes[j].stringify(depth + 1);
            ret.append(s.as_str());
            if j < nc - 1 {
                ret.append("\n");
            }
            proof {
                assert(spec_children_upto(*self, j + 1, depth as nat) == spec_children_upto(
                    *self,
                    j as int,
                    depth as nat,
                ) + spec_stringify(*self.child_nodes@[j as int], depth as nat + 1) + (if j + 1
                    < self.child_nodes@.len() {
                    "\n"@
                } else {
                    Seq::<char>::empty()
                }));
                assert(ret@ =~= with_blank + spec_children_upto(*self, j + 1, depth as nat));
            }
            j = j + 1;
        }
        let ghost with_children: Seq<char> = with_blank + spec_children_upto(
            *self,
            self.child_nodes@.len() as int,
            depth as nat,
        );
        assert(ret@ == with_children);
        ret.append(ind.as_str());
        ret.append("};\n");
        proof {
            assert(ret@ =~= spec_stringify(*self, depth as nat));
        }
        ret
    }
}

} // verus!
