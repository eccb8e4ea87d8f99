//! Serialization of a tree back to markup text.
use vstd::prelude::*;
use crate::model::{NodeModel, NodeType, TreeModel, XMLTree, XMLNode, attrs_view};
use crate::scanner::{find_char, push_char, chars_of};
use crate::tag::find_char_exec;

verus! {

/// The quote that delimits a value: `"` unless the value holds one.
pub open spec fn quote_for(v: Seq<char>) -> char {
    if find_char(v, 0, '"') < v.len() {
        '\''
    } else {
        '"'
    }
}

/// `v` between the quotes that `quote_for` picks.
pub open spec fn render_value(v: Seq<char>) -> Seq<char> {
    seq![quote_for(v)] + v + seq![quote_for(v)]
}

/// ` key=value` for each attribute, in order.
pub open spec fn render_attrs(a: Seq<(Seq<char>, Seq<char>)>) -> Seq<char>
    decreases a.len(),
{
    if a.len() == 0 {
        Seq::empty()
    } else {
        let kv = a[a.len() - 1];
        render_attrs(a.subrange(0, a.len() - 1)) + seq![' '] + kv.0 + seq!['='] + render_value(kv.1)
    }
}

/// The text of a node: a text node's content as it is; an element without
/// children as `<name attrs/>`; any other as `<name attrs>children</name>`.
pub open spec fn render_node(n: NodeModel) -> Seq<char>
    decreases n,
{
    match n {
        NodeModel::Text(t) => t,
        NodeModel::Element { name, attrs, children } => if children.len() == 0 {
            seq!['<'] + name + render_attrs(attrs) + seq!['/', '>']
        } else {
            seq!['<'] + name + render_attrs(attrs) + seq!['>'] + render_nodes(children) + seq![
                '<',
                '/',
            ] + name + seq!['>']
        },
    }
}

/// The texts of the nodes, one after another.
pub open spec fn render_nodes(cs: Seq<NodeModel>) -> Seq<char>
    decreases cs,
{
    if cs.len() == 0 {
        Seq::empty()
    } else {
        render_nodes(cs.subrange(0, cs.len() - 1)) + render_node(cs[cs.len() - 1])
    }
}

/// The text of a document: a declaration with its version and encoding,
/// then the root.
pub open spec fn render_tree(t: TreeModel) -> Seq<char> {
    seq!['<', '?', 'x', 'm', 'l', ' ', 'v', 'e', 'r', 's', 'i', 'o', 'n', '='] + render_value(
        t.version,
    ) + seq![' ', 'e', 'n', 'c', 'o', 'd', 'i', 'n', 'g', '='] + render_value(t.encoding) + seq![
        '?',
        '>',
    ] + render_node(t.root)
}

fn write_str(out: &mut String, s: &str)
    ensures
        final(out)@ == old(out)@ + s@,
{
    out.append(s);
}

fn write_value(out: &mut String, v: &String)
    ensures
        final(out)@ == old(out)@ + render_value(v@),
{
    let cs = chars_of(v.as_str());
    let q = if find_char_exec(&cs, 0, '"') < cs.len() {
        '\''
    } else {
        '"'
    };
    push_char(out, q);
    write_str(out, v.as_str());
    push_char(out, q);
    assert(final(out)@ =~= old(out)@ + render_value(v@));
}

fn write_attrs(out: &mut String, a: &Vec<(String, String)>)
    ensures
        final(out)@ == old(out)@ + render_attrs(attrs_view(a@)),
{
    let ghost start = out@;
    let mut i: usize = 0;
    assert(attrs_view(a@).subrange(0, 0) =~= Seq::empty());
    assert(out@ =~= start + render_attrs(attrs_view(a@).subrange(0, 0)));
    while i < a.len()
        invariant
            i <= a@.len(),
            out@ == start + render_attrs(attrs_view(a@).subrange(0, i as int)),
        decreases a@.len() - i,
    {
        push_char(out, ' ');
        write_str(out, a[i].0.as_str());
        push_char(out, '=');
        write_value(out, &a[i].1);
        let ghost av = attrs_view(a@);
        assert(av.subrange(0, i + 1).subrange(0, i as int) =~= av.subrange(0, i as int));
        i = i + 1;
        assert(out@ =~= start + render_attrs(av.subrange(0, i as int)));
    }
    assert(attrs_view(a@).subrange(0, a@.len() as int) =~= attrs_view(a@));
}

fn write_node(out: &mut String, n: &XMLNode)
    ensures
        final(out)@ == old(out)@ + render_node(n@),
    decreases n,
{
    proof {
        reveal_strlit("/>");
        reveal_strlit("</");
    }
    match &n.node_contents {
        NodeType::Text(t) => {
            write_str(out, t.as_str());
        },
        NodeType::Element(e) => {
            let ghost start = out@;
            let ghost cv = n@->children;
            push_char(out, '<');
            write_str(out, e.tag_name.as_str());
            write_attrs(out, &e.attributes);
            if n.children.len() == 0 {
                write_str(out, "/>");
                assert(out@ =~= start + render_node(n@));
            } else {
                push_char(out, '>');
                let ghost mid = out@;
                let mut i: usize = 0;
                assert(render_nodes(cv.subrange(0, 0)) =~= Seq::<char>::empty());
                assert(out@ =~= mid + render_nodes(cv.subrange(0, 0)));
                while i < n.children.len()
                    invariant
                        i <= n.children@.len(),
                        cv.len() == n.children@.len(),
                        forall|k: int| 0 <= k < cv.len() ==> cv[k] == n.children@[k]@,
                        out@ == mid + render_nodes(cv.subrange(0, i as int)),
                    decreases n.children@.len() - i,
                {
                    write_node(out, &n.children[i]);
                    assert(cv.subrange(0, i + 1).subrange(0, i as int) =~= cv.subrange(0, i as int));
                    i = i + 1;
                    assert(out@ =~= mid + render_nodes(cv.subrange(0, i as int)));
                }
                assert(cv.subrange(0, cv.len() as int) =~= cv);
                write_str(out, "</");
                write_str(out, e.tag_name.as_str());
                push_char(out, '>');
                assert(out@ =~= start + render_node(n@));
            }
        },
    }
}

/// The text of a tree: exactly `render_tree` of its model.
pub fn serialize(tree: &XMLTree) -> (r: String)
    ensures
        r@ == render_tree(tree@),
{
    proof {
        reveal_strlit("<?xml version=");
        reveal_strlit(" encoding=");
        reveal_strlit("?>");
    }
    let mut out = String::new();
    write_str(&mut out, "<?xml version=");
    write_value(&mut out, &tree.version);
    write_str(&mut out, " encoding=");
    write_value(&mut out, &tree.encoding);
    write_str(&mut out, "?>");
    write_node(&mut out, &tree.root);
    assert(out@ =~= render_tree(tree@));
    out
}

} // verus!
