//! Properties that relate the parser and the serializer.
use vstd::prelude::*;
use crate::model::{Fault, NodeModel, TreeModel};
use crate::scanner::{is_ws, find_char, skip_ws, find_ws, trim_end_at, trim, lemma_find_char, lemma_skip_ws, lemma_find_ws, lemma_trim_end_at};
use crate::tag::{TagKind, TagModel, is_name_stop, name_end, lemma_name_end, lemma_spec_tag_end, kind_of, body_of, has_key, unquote, spec_attr, spec_attrs, spec_tag_inner, spec_tag};
use crate::writer::{quote_for, render_value, render_attrs, render_node, render_nodes, render_tree};
use crate::builder::{MAX_DEPTH, default_version, default_encoding, element_of, spec_content, spec_at_tag, spec_element, spec_declaration, spec_document, lookup, starts_declaration};

verus! {

/// A tag name as the parser produces it: not empty, and free of whitespace,
/// `/` and `>`.
pub open spec fn valid_name(n: Seq<char>) -> bool {
    n.len() > 0 && forall|k: int| 0 <= k < n.len() ==> !is_ws(#[trigger] n[k]) && n[k] != '/' && n[k] != '>'
}

/// An attribute name as the parser produces it: not empty, and free of
/// whitespace, `=` and `>`.
pub open spec fn valid_key(n: Seq<char>) -> bool {
    n.len() > 0 && forall|k: int| 0 <= k < n.len() ==> !is_ws(#[trigger] n[k]) && n[k] != '=' && n[k] != '>'
}

/// An attribute value as the parser produces it: free of whitespace and `>`,
/// and not holding both kinds of quote.
pub open spec fn valid_value(v: Seq<char>) -> bool {
    (forall|k: int| 0 <= k < v.len() ==> !is_ws(#[trigger] v[k]) && v[k] != '>') && ((forall|k: int|
        0 <= k < v.len() ==> #[trigger] v[k] != '"') || (forall|k: int| 0 <= k < v.len() ==> #[trigger] v[k] != '\''))
}

/// Attributes as the parser produces them: valid names and values, names
/// unique.
pub open spec fn valid_attrs(a: Seq<(Seq<char>, Seq<char>)>) -> bool {
    &&& forall|i: int| 0 <= i < a.len() ==> valid_key(#[trigger] a[i].0) && valid_value(a[i].1)
    &&& forall|i: int, j: int| 0 <= i < j < a.len() ==> #[trigger] a[i].0 != #[trigger] a[j].0
}

/// The text of one attribute: ` key=value`.
pub open spec fn attr_text(kv: (Seq<char>, Seq<char>)) -> Seq<char> {
    seq![' '] + kv.0 + seq!['='] + render_value(kv.1)
}

pub proof fn lemma_find_char_skip(s: Seq<char>, from: int, to: int, c: char)
    requires
        0 <= from <= to <= s.len(),
        forall|k: int| from <= k < to ==> s[k] != c,
    ensures
        find_char(s, from, c) == find_char(s, to, c),
    decreases to - from,
{
    if from < to {
        lemma_find_char_skip(s, from + 1, to, c);
    }
}

pub proof fn lemma_find_ws_skip(s: Seq<char>, from: int, to: int)
    requires
        0 <= from <= to <= s.len(),
        forall|k: int| from <= k < to ==> !is_ws(s[k]),
    ensures
        find_ws(s, from) == find_ws(s, to),
    decreases to - from,
{
    if from < to {
        lemma_find_ws_skip(s, from + 1, to);
    }
}

pub proof fn lemma_name_end_skip(s: Seq<char>, from: int, to: int)
    requires
        0 <= from <= to <= s.len(),
        forall|k: int| from <= k < to ==> !is_name_stop(s[k]),
    ensures
        name_end(s, from) == name_end(s, to),
    decreases to - from,
{
    if from < to {
        lemma_name_end_skip(s, from + 1, to);
    }
}

/// Trimming leaves a sequence whose ends are not whitespace as it is.
pub proof fn lemma_trim_id(b: Seq<char>)
    requires
        b.len() > 0,
        !is_ws(b[0]),
        !is_ws(b[b.len() - 1]),
    ensures
        trim(b) == b,
{
    assert(skip_ws(b, 0) == 0);
    assert(trim_end_at(b, b.len() as int) == b.len());
    assert(b.subrange(0, b.len() as int) =~= b);
}

/// The rendered attributes of a prefix are a prefix of the rendered
/// attributes.
pub proof fn lemma_render_attrs_prefix(a: Seq<(Seq<char>, Seq<char>)>, i: int)
    requires
        0 <= i <= a.len(),
    ensures
        render_attrs(a.subrange(0, i)).len() <= render_attrs(a).len(),
        render_attrs(a).subrange(0, render_attrs(a.subrange(0, i)).len() as int) == render_attrs(
            a.subrange(0, i),
        ),
    decreases a.len(),
{
    if i == a.len() {
        assert(a.subrange(0, i) =~= a);
        assert(render_attrs(a).subrange(0, render_attrs(a).len() as int) =~= render_attrs(a));
    } else {
        let b = a.subrange(0, a.len() - 1);
        lemma_render_attrs_prefix(b, i);
        assert(b.subrange(0, i) =~= a.subrange(0, i));
        assert(render_attrs(a) == render_attrs(b) + attr_text(a[a.len() - 1]));
        assert(render_attrs(a).subrange(0, render_attrs(a.subrange(0, i)).len() as int)
            =~= render_attrs(b).subrange(0, render_attrs(b.subrange(0, i)).len() as int));
    }
}

pub proof fn lemma_render_attrs_step(a: Seq<(Seq<char>, Seq<char>)>, i: int)
    requires
        0 <= i < a.len(),
    ensures
        render_attrs(a.subrange(0, i + 1)) == render_attrs(a.subrange(0, i)) + attr_text(a[i]),
{
    assert(a.subrange(0, i + 1).subrange(0, i) =~= a.subrange(0, i));
}

/// The rendered attributes hold no `>`, and when there are any, they start
/// with a space and end with a quote.
pub proof fn lemma_render_attrs_shape(a: Seq<(Seq<char>, Seq<char>)>)
    requires
        valid_attrs(a),
    ensures
        forall|k: int| 0 <= k < render_attrs(a).len() ==> #[trigger] render_attrs(a)[k] != '>',
        a.len() > 0 ==> render_attrs(a).len() > 0 && render_attrs(a)[0] == ' ',
        a.len() > 0 ==> (render_attrs(a)[render_attrs(a).len() - 1] == '"'
            || render_attrs(a)[render_attrs(a).len() - 1] == '\''),
    decreases a.len(),
{
    if a.len() > 0 {
        let b = a.subrange(0, a.len() - 1);
        assert(valid_attrs(b)) by {
            assert forall|i: int, j: int| 0 <= i < j < b.len() implies #[trigger] b[i].0 != #[trigger] b[j].0 by {
                assert(b[i] == a[i] && b[j] == a[j]);
                assert(a[i].0 != a[j].0);
            }
            assert forall|i: int| 0 <= i < b.len() implies valid_key(#[trigger] b[i].0) && valid_value(b[i].1) by {
                assert(b[i] == a[i]);
                assert(valid_key(a[i].0) && valid_value(a[i].1));
            }
        }
        lemma_render_attrs_shape(b);
        let kv = a[a.len() - 1];
        assert(valid_key(kv.0) && valid_value(kv.1));
        let t = attr_text(kv);
        let rb = render_attrs(b);
        assert(render_attrs(a) == rb + t);
        assert forall|k: int| 0 <= k < t.len() implies #[trigger] t[k] != '>' by {
            if 1 <= k < 1 + kv.0.len() {
                assert(t[k] == kv.0[k - 1]);
            } else if 2 + kv.0.len() < k < t.len() - 1 {
                assert(t[k] == kv.1[k - 3 - kv.0.len()]);
            }
        }
        assert forall|k: int| 0 <= k < render_attrs(a).len() implies #[trigger] render_attrs(a)[k] != '>' by {
            if k < rb.len() {
                assert(render_attrs(a)[k] == rb[k]);
            } else {
                assert(render_attrs(a)[k] == t[k - rb.len()]);
            }
        }
        if b.len() == 0 {
            assert(render_attrs(a)[0] == t[0]);
        }
    }
}

/// The value of a rendered attribute reads back as that value.
pub proof fn lemma_unquote_render(v: Seq<char>)
    requires
        valid_value(v),
    ensures
        unquote(render_value(v)) == Some(v),
{
    let q = quote_for(v);
    let raw = render_value(v);
    lemma_find_char(v, 0, '"');
    assert(forall|k: int| 0 <= k < v.len() ==> v[k] != q);
    lemma_find_char_skip(raw, 1, raw.len() - 1, q);
    assert(raw.subrange(1, raw.len() - 1) =~= v);
}

/// One rendered attribute token reads back as that attribute.
pub proof fn lemma_attr_token(kv: (Seq<char>, Seq<char>))
    requires
        valid_key(kv.0),
        valid_value(kv.1),
    ensures
        spec_attr(attr_text(kv).subrange(1, attr_text(kv).len() as int)) == Ok::<
            (Seq<char>, Seq<char>),
            Fault,
        >(kv),
{
    let tok = attr_text(kv).subrange(1, attr_text(kv).len() as int);
    let k = kv.0;
    assert(tok =~= k + seq!['='] + render_value(kv.1));
    lemma_find_char_skip(tok, 0, k.len() as int, '=');
    assert(tok[k.len() as int] == '=');
    assert(find_char(tok, 0, '=') == k.len());
    assert(tok.subrange(k.len() as int + 1, tok.len() as int) =~= render_value(kv.1));
    assert(tok.subrange(0, k.len() as int) =~= k);
    lemma_unquote_render(kv.1);
}

/// Rendered attributes read back as the same attributes.
pub proof fn lemma_attrs_round_trip(a: Seq<(Seq<char>, Seq<char>)>, i: int)
    requires
        valid_attrs(a),
        0 <= i <= a.len(),
    ensures
        spec_attrs(render_attrs(a), render_attrs(a.subrange(0, i)).len() as int, a.subrange(0, i))
            == Ok::<Seq<(Seq<char>, Seq<char>)>, Fault>(a),
    decreases a.len() - i,
{
    let r = render_attrs(a);
    let p = render_attrs(a.subrange(0, i)).len() as int;
    lemma_render_attrs_prefix(a, i);
    if i == a.len() {
        assert(a.subrange(0, i) =~= a);
        assert(skip_ws(r, p) == r.len());
    } else {
        lemma_render_attrs_prefix(a, i + 1);
        lemma_render_attrs_step(a, i);
        let kv = a[i];
        assert(valid_key(kv.0) && valid_value(kv.1));
        let t = attr_text(kv);
        let p1 = p + t.len();
        assert(r.subrange(0, p1) == render_attrs(a.subrange(0, i)) + t);
        assert forall|k: int| 0 <= k < t.len() implies r[p + k] == #[trigger] t[k] by {
            assert(r.subrange(0, p1)[p + k] == r[p + k]);
        }
        assert(t[0] == ' ');
        assert(r[p] == ' ');
        assert(t[1] == kv.0[0]);
        assert(r[p + 1] == kv.0[0]);
        assert(skip_ws(r, p + 1) == p + 1);
        assert(skip_ws(r, p) == p + 1);
        assert forall|k: int| p + 1 <= k < p1 implies !is_ws(r[k]) by {
            assert(r[k] == t[k - p]);
            let j = k - p;
            if 1 <= j < 1 + kv.0.len() {
                assert(t[j] == kv.0[j - 1]);
            } else if 2 + kv.0.len() < j < t.len() - 1 {
                assert(t[j] == kv.1[j - 3 - kv.0.len()]);
            }
        }
        lemma_find_ws_skip(r, p + 1, p1);
        if i + 1 < a.len() {
            lemma_render_attrs_prefix(a, i + 2);
            lemma_render_attrs_step(a, i + 1);
            let r2 = render_attrs(a.subrange(0, i + 2));
            assert(r2 == render_attrs(a.subrange(0, i + 1)) + attr_text(a[i + 1]));
            assert(r2[p1] == ' ');
            assert(r.subrange(0, r2.len() as int)[p1] == r[p1]);
        }
        assert(find_ws(r, p + 1) == p1);
        assert(r.subrange(p + 1, p1) =~= t.subrange(1, t.len() as int));
        lemma_attr_token(kv);
        assert(!has_key(a.subrange(0, i), kv.0)) by {
            if has_key(a.subrange(0, i), kv.0) {
                let j = choose|j: int| 0 <= j < i && a.subrange(0, i)[j].0 == kv.0;
                assert(a[j].0 != a[i].0);
            }
        }
        assert(a.subrange(0, i).push(kv) =~= a.subrange(0, i + 1));
        lemma_attrs_round_trip(a, i + 1);
    }
}

/// The text of an opening or self-closing tag.
pub open spec fn open_tag_text(name: Seq<char>, attrs: Seq<(Seq<char>, Seq<char>)>, self_close: bool) -> Seq<char> {
    seq!['<'] + name + render_attrs(attrs) + if self_close {
        seq!['/', '>']
    } else {
        seq!['>']
    }
}

/// A rendered opening tag, wherever it stands, reads back as its name and
/// attributes.
pub proof fn lemma_open_tag(
    s: Seq<char>,
    p: int,
    name: Seq<char>,
    attrs: Seq<(Seq<char>, Seq<char>)>,
    self_close: bool,
)
    requires
        valid_name(name),
        valid_attrs(attrs),
        0 <= p,
        p + open_tag_text(name, attrs, self_close).len() <= s.len(),
        s.subrange(p, p + open_tag_text(name, attrs, self_close).len()) == open_tag_text(name, attrs, self_close),
    ensures
        spec_tag(s, p) == Ok::<(TagModel, int), Fault>((
            TagModel {
                kind: if self_close { TagKind::SelfClose } else { TagKind::Open },
                name,
                attrs,
            },
            p + open_tag_text(name, attrs, self_close).len(),
        )),
        spec_tag_inner(s.subrange(p + 1, p + open_tag_text(name, attrs, self_close).len() - 1)) == Ok::<
            TagModel,
            Fault,
        >(
            TagModel {
                kind: if self_close { TagKind::SelfClose } else { TagKind::Open },
                name,
                attrs,
            },
        ),
{
    let t = open_tag_text(name, attrs, self_close);
    let ra = render_attrs(attrs);
    let n = name.len() as int;
    let l = t.len() as int;
    lemma_render_attrs_shape(attrs);
    assert forall|k: int| 0 <= k < l implies s[p + k] == #[trigger] t[k] by {
        assert(s.subrange(p, p + l)[k] == s[p + k]);
    }
    assert(t[0] == '<');
    assert(s[p] == '<');
    assert(t[l - 1] == '>');
    assert forall|k: int| p + 1 <= k < p + l - 1 implies s[k] != '>' by {
        assert(s[k] == t[k - p]);
        let j = k - p;
        if 1 <= j < 1 + n {
            assert(t[j] == name[j - 1]);
        } else if 1 + n <= j < 1 + n + ra.len() {
            assert(t[j] == ra[j - 1 - n]);
        }
    }
    lemma_find_char_skip(s, p + 1, p + l - 1, '>');
    assert(s[p + l - 1] == '>');
    assert(find_char(s, p + 1, '>') == p + l - 1);
    let inner = s.subrange(p + 1, p + l - 1);
    let body = name + ra;
    let tail: Seq<char> = if self_close { seq!['/'] } else { Seq::empty() };
    assert(t =~= seq!['<'] + (body + tail) + seq!['>']);
    assert forall|k: int| 0 <= k < l - 2 implies inner[k] == #[trigger] (body + tail)[k] by {
        assert(s[p + 1 + k] == t[1 + k]);
    }
    assert(inner =~= body + tail);
    assert(inner[0] == name[0]);
    if !self_close && ra.len() == 0 {
        assert(inner[inner.len() - 1] == name[n - 1]);
    }
    if !self_close && ra.len() > 0 {
        assert(inner[inner.len() - 1] == ra[ra.len() - 1]);
    }
    assert(kind_of(inner) == if self_close { TagKind::SelfClose } else { TagKind::Open });
    assert(body_of(inner) =~= body);
    if ra.len() > 0 {
        assert(body[body.len() - 1] == ra[ra.len() - 1]);
    } else {
        assert(body[body.len() - 1] == name[n - 1]);
    }
    lemma_trim_id(body);
    assert forall|k: int| 0 <= k < n implies !is_name_stop(body[k]) by {
        assert(body[k] == name[k]);
    }
    lemma_name_end_skip(body, 0, n);
    if ra.len() > 0 {
        assert(body[n] == ' ');
    }
    assert(name_end(body, 0) == n);
    assert(body.subrange(0, n) =~= name);
    assert(body.subrange(n, body.len() as int) =~= ra);
    lemma_attrs_round_trip(attrs, 0);
    assert(attrs.subrange(0, 0) =~= Seq::<(Seq<char>, Seq<char>)>::empty());
    assert(render_attrs(attrs.subrange(0, 0)).len() == 0);
}

/// The text of a closing tag.
pub open spec fn close_tag_text(name: Seq<char>) -> Seq<char> {
    seq!['<', '/'] + name + seq!['>']
}

/// A rendered closing tag, wherever it stands, reads back as its name.
pub proof fn lemma_close_tag(s: Seq<char>, p: int, name: Seq<char>)
    requires
        valid_name(name),
        0 <= p,
        p + close_tag_text(name).len() <= s.len(),
        s.subrange(p, p + close_tag_text(name).len()) == close_tag_text(name),
    ensures
        spec_tag(s, p) == Ok::<(TagModel, int), Fault>((
            TagModel { kind: TagKind::Close, name, attrs: Seq::empty() },
            p + close_tag_text(name).len(),
        )),
{
    let t = close_tag_text(name);
    let n = name.len() as int;
    let l = t.len() as int;
    assert forall|k: int| 0 <= k < l implies s[p + k] == #[trigger] t[k] by {
        assert(s.subrange(p, p + l)[k] == s[p + k]);
    }
    assert forall|k: int| p + 1 <= k < p + l - 1 implies s[k] != '>' by {
        assert(s[k] == t[k - p]);
        if 2 <= k - p {
            assert(t[k - p] == name[k - p - 2]);
        }
    }
    assert(t[l - 1] == '>');
    assert(t[0] == '<');
    assert(s[p] == '<');
    lemma_find_char_skip(s, p + 1, p + l - 1, '>');
    assert(find_char(s, p + 1, '>') == p + l - 1);
    let inner = s.subrange(p + 1, p + l - 1);
    assert(t =~= seq!['<'] + (seq!['/'] + name) + seq!['>']);
    assert forall|k: int| 0 <= k < l - 2 implies inner[k] == #[trigger] (seq!['/'] + name)[k] by {
        assert(s[p + 1 + k] == t[1 + k]);
    }
    assert(inner =~= seq!['/'] + name);
    assert(kind_of(inner) == TagKind::Close);
    assert(body_of(inner) =~= name);
    lemma_trim_id(name);
    lemma_name_end_skip(name, 0, n);
    assert(name.subrange(0, n) =~= name);
    assert(name.subrange(n, n) =~= Seq::<char>::empty());
    assert(trim(Seq::<char>::empty()) =~= Seq::<char>::empty());
}


/// Text as the parser produces it: not empty, without `<`, and with no
/// whitespace at either end.
pub open spec fn valid_text(t: Seq<char>) -> bool {
    &&& t.len() > 0
    &&& !is_ws(t[0])
    &&& !is_ws(t[t.len() - 1])
    &&& forall|k: int| 0 <= k < t.len() ==> #[trigger] t[k] != '<'
}

/// A node as the parser produces it at nesting depth `depth`: valid text,
/// or an element with a valid name and attributes whose children are valid
/// one level deeper, with no two text children side by side; an element
/// with children lies within the nesting limit.
pub open spec fn valid_node(n: NodeModel, depth: nat) -> bool
    decreases n,
{
    match n {
        NodeModel::Text(t) => valid_text(t),
        NodeModel::Element { name, attrs, children } => {
            &&& valid_name(name)
            &&& valid_attrs(attrs)
            &&& (children.len() > 0 ==> depth <= MAX_DEPTH)
            &&& forall|i: int| 0 <= i < children.len() ==> valid_node(#[trigger] children[i], depth + 1)
            &&& forall|i: int|
                0 <= i < children.len() - 1 ==> !(#[trigger] children[i] is Text && children[i + 1] is Text)
        },
    }
}

/// A tree as the parser produces it: an element root at depth one, and
/// valid version and encoding values.
pub open spec fn valid_tree(t: TreeModel) -> bool {
    &&& t.root is Element
    &&& valid_node(t.root, 1)
    &&& valid_value(t.version)
    &&& valid_value(t.encoding)
}

pub proof fn lemma_embed(s: Seq<char>, p: int, x: Seq<char>, a: int, b: int)
    requires
        0 <= p,
        p + x.len() <= s.len(),
        s.subrange(p, p + x.len()) == x,
        0 <= a <= b <= x.len(),
    ensures
        s.subrange(p + a, p + b) == x.subrange(a, b),
{
    assert forall|k: int| 0 <= k < b - a implies s.subrange(p + a, p + b)[k] == x.subrange(a, b)[k] by {
        assert(s.subrange(p, p + x.len())[a + k] == s[p + a + k]);
    }
    assert(s.subrange(p + a, p + b) =~= x.subrange(a, b));
}

pub proof fn lemma_render_nodes_prefix(cs: Seq<NodeModel>, i: int)
    requires
        0 <= i <= cs.len(),
    ensures
        render_nodes(cs.subrange(0, i)).len() <= render_nodes(cs).len(),
        render_nodes(cs).subrange(0, render_nodes(cs.subrange(0, i)).len() as int) == render_nodes(
            cs.subrange(0, i),
        ),
    decreases cs.len(),
{
    if i == cs.len() {
        assert(cs.subrange(0, i) =~= cs);
        assert(render_nodes(cs).subrange(0, render_nodes(cs).len() as int) =~= render_nodes(cs));
    } else {
        let b = cs.subrange(0, cs.len() - 1);
        lemma_render_nodes_prefix(b, i);
        assert(b.subrange(0, i) =~= cs.subrange(0, i));
        assert(render_nodes(cs) == render_nodes(b) + render_node(cs[cs.len() - 1]));
        assert(render_nodes(cs).subrange(0, render_nodes(cs.subrange(0, i)).len() as int)
            =~= render_nodes(b).subrange(0, render_nodes(b.subrange(0, i)).len() as int));
    }
}

pub proof fn lemma_render_nodes_step(cs: Seq<NodeModel>, i: int)
    requires
        0 <= i < cs.len(),
    ensures
        render_nodes(cs.subrange(0, i + 1)) == render_nodes(cs.subrange(0, i)) + render_node(cs[i]),
{
    assert(cs.subrange(0, i + 1).subrange(0, i) =~= cs.subrange(0, i));
}

/// A text run followed by `<` becomes one text child.
pub proof fn lemma_text_step(s: Seq<char>, p: int, t: Seq<char>, name: Seq<char>, d: nat, acc: Seq<NodeModel>)
    requires
        valid_text(t),
        0 <= p,
        p + t.len() < s.len(),
        s.subrange(p, p + t.len()) == t,
        s[p + t.len()] == '<',
    ensures
        spec_content(s, p, name, d, acc) == spec_content(s, p + t.len(), name, d, acc.push(NodeModel::Text(t))),
{
    let q = p + t.len();
    assert forall|k: int| p <= k < q implies s[k] != '<' by {
        assert(s.subrange(p, q)[k - p] == s[k]);
    }
    lemma_find_char_skip(s, p, q, '<');
    assert(find_char(s, p, '<') == q);
    assert(find_char(s, q, '<') == q);
    lemma_trim_id(t);
    assert(trim(s.subrange(p, q)) == t);
    assert(s.subrange(q, q) =~= Seq::<char>::empty());
    assert(trim(Seq::<char>::empty()) =~= Seq::<char>::empty());
    assert(trim(s.subrange(q, q)).len() == 0);
}

/// A valid element child, rendered at `s[p]`, is read as that child.
#[verifier::rlimit(50)]
pub proof fn lemma_element_step(
    s: Seq<char>,
    p: int,
    name: Seq<char>,
    d: nat,
    acc: Seq<NodeModel>,
    cs: Seq<NodeModel>,
    i: int,
)
    requires
        0 <= i < cs.len(),
        cs[i] is Element,
        valid_node(cs[i], d + 1),
        0 <= p,
        p + render_node(cs[i]).len() <= s.len(),
        s.subrange(p, p + render_node(cs[i]).len()) == render_node(cs[i]),
    ensures
        spec_at_tag(s, p, name, d, acc) == spec_content(s, p + render_node(cs[i]).len(), name, d, acc.push(cs[i])),
    decreases cs, cs.len() - i,
{
    let c = cs[i];
    let rc = render_node(c);
    match c {
        NodeModel::Element { name: cn, attrs: ca, children: cc } => {
            if cc.len() == 0 {
                assert(rc =~= open_tag_text(cn, ca, true));
                lemma_open_tag(s, p, cn, ca, true);
                assert(cc =~= Seq::<NodeModel>::empty());
            } else {
                let ot = open_tag_text(cn, ca, false);
                assert(rc =~= ot + (render_nodes(cc) + close_tag_text(cn)));
                lemma_embed(s, p, rc, 0, ot.len() as int);
                assert(rc.subrange(0, ot.len() as int) =~= ot);
                lemma_open_tag(s, p, cn, ca, false);
                let e = p + ot.len();
                lemma_embed(s, p, rc, ot.len() as int, rc.len() as int);
                assert(rc.subrange(ot.len() as int, rc.len() as int) =~= render_nodes(cc) + close_tag_text(cn));
                assert(cc.subrange(0, 0) =~= Seq::<NodeModel>::empty());
                assert(render_nodes(Seq::<NodeModel>::empty()).len() == 0);
                assert(forall|j: int| 0 <= j < cc.len() ==> valid_node(#[trigger] cc[j], d + 2));
                lemma_content(s, e, cn, d + 1, cc, 0);
            }
        },
        _ => {},
    }
}

/// The children of a valid element, rendered and followed by its closing
/// tag, read back as those children, from any child index on.
#[verifier::rlimit(50)]
pub proof fn lemma_content(s: Seq<char>, p: int, name: Seq<char>, d: nat, cs: Seq<NodeModel>, i: int)
    requires
        valid_name(name),
        forall|j: int| 0 <= j < cs.len() ==> valid_node(#[trigger] cs[j], d + 1),
        forall|j: int| 0 <= j < cs.len() - 1 ==> !(#[trigger] cs[j] is Text && cs[j + 1] is Text),
        cs.len() > 0 ==> d <= MAX_DEPTH,
        0 <= p,
        p + (render_nodes(cs) + close_tag_text(name)).len() <= s.len(),
        s.subrange(p, p + (render_nodes(cs) + close_tag_text(name)).len()) == render_nodes(cs)
            + close_tag_text(name),
        0 <= i <= cs.len(),
    ensures
        spec_content(s, p + render_nodes(cs.subrange(0, i)).len(), name, d, cs.subrange(0, i))
            == Ok::<(Seq<NodeModel>, int), Fault>((cs, p + (render_nodes(cs) + close_tag_text(name)).len())),
    decreases cs, cs.len() - i + 1,
{
    let x = render_nodes(cs) + close_tag_text(name);
    let rn = render_nodes(cs);
    let pi = p + render_nodes(cs.subrange(0, i)).len();
    lemma_render_nodes_prefix(cs, i);
    assert(x.subrange(0, rn.len() as int) =~= rn);
    if i == cs.len() {
        assert(cs.subrange(0, i) =~= cs);
        lemma_embed(s, p, x, rn.len() as int, x.len() as int);
        assert(x.subrange(rn.len() as int, x.len() as int) =~= close_tag_text(name));
        lemma_close_tag(s, pi, name);
        assert(close_tag_text(name)[0] == '<');
        assert(s.subrange(pi, pi + close_tag_text(name).len())[0] == s[pi]);
        assert(find_char(s, pi, '<') == pi);
        assert(s.subrange(pi, pi) =~= Seq::<char>::empty());
        assert(trim(Seq::<char>::empty()) =~= Seq::<char>::empty());
    } else {
        lemma_render_nodes_prefix(cs, i + 1);
        lemma_render_nodes_step(cs, i);
        let c = cs[i];
        let rc = render_node(c);
        let pj = pi + rc.len();
        let li = render_nodes(cs.subrange(0, i)).len() as int;
        lemma_embed(s, p, x, li, li + rc.len());
        assert(x.subrange(li, li + rc.len()) =~= rn.subrange(0, li + rc.len()).subrange(li, li + rc.len()));
        assert(rn.subrange(0, li + rc.len()).subrange(li, li + rc.len()) =~= rc);
        assert(s.subrange(pi, pj) == rc);
        assert(valid_node(c, d + 1));
        assert(cs.subrange(0, i).push(c) =~= cs.subrange(0, i + 1));
        lemma_content(s, p, name, d, cs, i + 1);
        if c is Text {
            // the character after a text child starts a tag
            assert(s[pj] == '<' && pj < s.len()) by {
                if i + 1 < cs.len() {
                    lemma_render_nodes_prefix(cs, i + 2);
                    lemma_render_nodes_step(cs, i + 1);
                    let c2 = cs[i + 1];
                    assert(!(c2 is Text));
                    let l2 = li + rc.len() + render_node(c2).len();
                    lemma_embed(s, p, x, li + rc.len(), l2);
                    assert(x.subrange(li + rc.len(), l2) =~= rn.subrange(0, l2).subrange(li + rc.len(), l2));
                    assert(rn.subrange(0, l2).subrange(li + rc.len(), l2) =~= render_node(c2));
                    assert(render_node(c2)[0] == '<');
                    assert(s.subrange(pj, pj + render_node(c2).len())[0] == s[pj]);
                } else {
                    assert(cs.subrange(0, i + 1) =~= cs);
                    lemma_embed(s, p, x, rn.len() as int, x.len() as int);
                    assert(x.subrange(rn.len() as int, x.len() as int) =~= close_tag_text(name));
                    assert(s.subrange(pj, pj + close_tag_text(name).len())[0] == s[pj]);
                }
            }
            lemma_text_step(s, pi, c->Text_0, name, d, cs.subrange(0, i));
        } else {
            assert(rc[0] == '<');
            assert(s.subrange(pi, pj)[0] == s[pi]);
            assert(find_char(s, pi, '<') == pi);
            assert(s.subrange(pi, pi) =~= Seq::<char>::empty());
            assert(trim(Seq::<char>::empty()) =~= Seq::<char>::empty());
            lemma_element_step(s, pi, name, d, cs.subrange(0, i), cs, i);
        }
    }
}

/// A valid element, rendered anywhere, reads back as itself.
pub proof fn lemma_element(s: Seq<char>, p: int, n: NodeModel)
    requires
        n is Element,
        valid_node(n, 1),
        0 <= p,
        p + render_node(n).len() <= s.len(),
        s.subrange(p, p + render_node(n).len()) == render_node(n),
    ensures
        spec_element(s, p) == Ok::<(NodeModel, int), Fault>((n, p + render_node(n).len())),
{
    let rc = render_node(n);
    assert(rc[0] == '<');
    assert(s.subrange(p, p + rc.len())[0] == s[p]);
    assert(skip_ws(s, p) == p);
    match n {
        NodeModel::Element { name: cn, attrs: ca, children: cc } => {
            if cc.len() == 0 {
                assert(rc =~= open_tag_text(cn, ca, true));
                lemma_open_tag(s, p, cn, ca, true);
                assert(cc =~= Seq::<NodeModel>::empty());
            } else {
                let ot = open_tag_text(cn, ca, false);
                assert(rc =~= ot + (render_nodes(cc) + close_tag_text(cn)));
                lemma_embed(s, p, rc, 0, ot.len() as int);
                assert(rc.subrange(0, ot.len() as int) =~= ot);
                lemma_open_tag(s, p, cn, ca, false);
                let e = p + ot.len();
                lemma_embed(s, p, rc, ot.len() as int, rc.len() as int);
                assert(rc.subrange(ot.len() as int, rc.len() as int) =~= render_nodes(cc) + close_tag_text(cn));
                assert(cc.subrange(0, 0) =~= Seq::<NodeModel>::empty());
                assert(render_nodes(Seq::<NodeModel>::empty()).len() == 0);
                lemma_content(s, e, cn, 1, cc, 0);
            }
        },
        _ => {},
    }
}


/// The attributes that a rendered declaration holds.
pub open spec fn declaration_attrs(t: TreeModel) -> Seq<(Seq<char>, Seq<char>)> {
    seq![
        (seq!['v', 'e', 'r', 's', 'i', 'o', 'n'], t.version),
        (seq!['e', 'n', 'c', 'o', 'd', 'i', 'n', 'g'], t.encoding),
    ]
}

/// The text between `<?` and `?>` of a rendered declaration.
pub open spec fn declaration_inner(t: TreeModel) -> Seq<char> {
    seq!['x', 'm', 'l'] + render_attrs(declaration_attrs(t))
}

pub proof fn lemma_declaration_text(t: TreeModel)
    ensures
        render_tree(t) == seq!['<', '?'] + declaration_inner(t) + seq!['?', '>'] + render_node(t.root),
        valid_value(t.version) && valid_value(t.encoding) ==> valid_attrs(declaration_attrs(t)),
{
    let a = declaration_attrs(t);
    assert(a.subrange(0, 1).subrange(0, 0) =~= a.subrange(0, 0));
    assert(a.subrange(0, 0) =~= Seq::<(Seq<char>, Seq<char>)>::empty());
    lemma_render_attrs_step(a, 0);
    lemma_render_attrs_step(a, 1);
    assert(a.subrange(0, 2) =~= a);
    assert(render_attrs(a) =~= attr_text(a[0]) + attr_text(a[1]));
    assert(render_tree(t) =~= seq!['<', '?'] + declaration_inner(t) + seq!['?', '>'] + render_node(t.root));
    assert(a[0].0.len() != a[1].0.len());
}

/// A rendered declaration reads back as the tree's version and encoding.
#[verifier::rlimit(50)]
pub proof fn lemma_declaration(s: Seq<char>, t: TreeModel)
    requires
        valid_value(t.version),
        valid_value(t.encoding),
        s.len() >= declaration_inner(t).len() + 4,
        s.subrange(0, declaration_inner(t).len() as int + 4) == seq!['<', '?'] + declaration_inner(t) + seq!['?', '>'],
    ensures
        starts_declaration(s, 0),
        skip_ws(s, 0) == 0,
        spec_declaration(s, 0) == Ok::<(Seq<char>, Seq<char>, int), Fault>(
            (t.version, t.encoding, declaration_inner(t).len() as int + 4),
        ),
{
    lemma_declaration_text(t);
    let a = declaration_attrs(t);
    let xml = seq!['x', 'm', 'l'];
    let inner = declaration_inner(t);
    let decl = seq!['<', '?'] + inner + seq!['?', '>'];
    let dl = decl.len() as int;
    assert forall|k: int| 0 <= k < dl implies s[k] == #[trigger] decl[k] by {
        assert(s.subrange(0, dl)[k] == s[k]);
    }
    let st = seq!['<'] + inner + seq!['>'];
    assert(st =~= open_tag_text(xml, a, false));
    assert(st.subrange(0, st.len() as int) =~= st);
    lemma_open_tag(st, 0, xml, a, false);
    assert(st.subrange(1, st.len() - 1) =~= inner);
    lemma_render_attrs_shape(a);
    assert(decl[0] == '<' && decl[1] == '?');
    assert(s[0] == '<' && s[1] == '?');
    assert(skip_ws(s, 0) == 0);
    assert forall|k: int| 2 <= k < dl - 1 implies s[k] != '>' by {
        assert(s[k] == decl[k]);
        assert(decl[k] == (inner + seq!['?'])[k - 2]);
        if k < 5 {
            assert(inner[k - 2] == xml[k - 2]);
        } else if k < dl - 2 {
            assert(inner[k - 2] == render_attrs(a)[k - 5]);
        }
    }
    lemma_find_char_skip(s, 2, dl - 1, '>');
    assert(decl[dl - 1] == '>');
    assert(find_char(s, 2, '>') == dl - 1);
    assert(decl[dl - 2] == '?');
    assert(s.subrange(2, dl - 2) =~= inner) by {
        assert forall|k: int| 0 <= k < inner.len() implies s.subrange(2, dl - 2)[k] == inner[k] by {
            assert(decl[k + 2] == inner[k]);
        }
    }
    assert(a[0].0 != a[1].0) by {
        assert(a[0].0.len() != a[1].0.len());
    }
    assert(lookup(a, a[0].0) == Some(t.version));
    assert(a.subrange(1, a.len() as int)[0] == a[1]);
    assert(lookup(a.subrange(1, a.len() as int), a[1].0) == Some(t.encoding));
    assert(lookup(a, a[1].0) == Some(t.encoding));
}

/// A valid tree, serialized, parses back to itself.
pub proof fn lemma_parse_render(t: TreeModel)
    requires
        valid_tree(t),
    ensures
        spec_document(render_tree(t)) == Ok::<TreeModel, Fault>(t),
{
    let s = render_tree(t);
    lemma_declaration_text(t);
    let inner = declaration_inner(t);
    let decl = seq!['<', '?'] + inner + seq!['?', '>'];
    let root = render_node(t.root);
    let dl = decl.len() as int;
    assert(s.subrange(0, dl) =~= decl);
    lemma_declaration(s, t);
    assert(s.subrange(dl, dl + root.len()) =~= root);
    lemma_element(s, dl, t.root);
    assert(skip_ws(s, s.len() as int) == s.len());
}


/// Whether `c` occurs nowhere in `x`.
pub open spec fn lacks(x: Seq<char>, c: char) -> bool {
    forall|k: int| 0 <= k < x.len() ==> #[trigger] x[k] != c
}

/// Trimming keeps a contiguous part, whose ends are not whitespace.
pub proof fn lemma_trim_part(x: Seq<char>)
    ensures
        exists|a: int, b: int| 0 <= a <= b <= x.len() && trim(x) == x.subrange(a, b),
        trim(x).len() > 0 ==> !is_ws(trim(x)[0]) && !is_ws(trim(x)[trim(x).len() - 1]),
{
    lemma_skip_ws(x, 0);
    lemma_trim_end_at(x, x.len() as int);
    let a = skip_ws(x, 0);
    let b = trim_end_at(x, x.len() as int);
    if a < b {
        assert(trim(x) == x.subrange(a, b));
    } else {
        assert(trim(x) == x.subrange(0, 0));
    }
}

pub proof fn lemma_lacks_part(x: Seq<char>, a: int, b: int, c: char)
    requires
        lacks(x, c),
        0 <= a <= b <= x.len(),
    ensures
        lacks(x.subrange(a, b), c),
{
    assert forall|k: int| 0 <= k < b - a implies #[trigger] x.subrange(a, b)[k] != c by {
        assert(x.subrange(a, b)[k] == x[a + k]);
    }
}

pub proof fn lemma_lacks_trim(x: Seq<char>, c: char)
    requires
        lacks(x, c),
    ensures
        lacks(trim(x), c),
{
    lemma_trim_part(x);
    let (a, b) = choose|a: int, b: int| 0 <= a <= b <= x.len() && trim(x) == x.subrange(a, b);
    lemma_lacks_part(x, a, b, c);
}

/// A token read by the attribute reader gives a valid name and value.
pub proof fn lemma_attr_valid(tok: Seq<char>)
    requires
        lacks(tok, '>'),
        forall|k: int| 0 <= k < tok.len() ==> !is_ws(#[trigger] tok[k]),
    ensures
        spec_attr(tok) is Ok ==> valid_key(spec_attr(tok)->Ok_0.0) && valid_value(spec_attr(tok)->Ok_0.1),
{
    lemma_find_char(tok, 0, '=');
    let e = find_char(tok, 0, '=');
    if spec_attr(tok) is Ok {
        let k = tok.subrange(0, e);
        assert forall|i: int| 0 <= i < k.len() implies !is_ws(#[trigger] k[i]) && k[i] != '=' && k[i] != '>' by {
            assert(k[i] == tok[i]);
        }
        let raw = tok.subrange(e + 1, tok.len() as int);
        assert forall|i: int| 0 <= i < raw.len() implies !is_ws(#[trigger] raw[i]) && raw[i] != '>' by {
            assert(raw[i] == tok[e + 1 + i]);
        }
        let v = spec_attr(tok)->Ok_0.1;
        if raw.len() > 0 && (raw[0] == '"' || raw[0] == '\'') {
            let q = raw[0];
            lemma_find_char(raw, 1, q);
            assert(v == raw.subrange(1, raw.len() - 1));
            assert forall|i: int| 0 <= i < v.len() implies !is_ws(#[trigger] v[i]) && v[i] != '>' && v[i] != q by {
                assert(v[i] == raw[1 + i]);
            }
        } else {
            lemma_find_char(raw, 0, '"');
            lemma_find_char(raw, 0, '\'');
            assert(v == raw);
        }
    }
}

/// The attribute reader yields valid attributes.
pub proof fn lemma_attrs_valid(r: Seq<char>, p: int, acc: Seq<(Seq<char>, Seq<char>)>)
    requires
        lacks(r, '>'),
        valid_attrs(acc),
    ensures
        spec_attrs(r, p, acc) is Ok ==> valid_attrs(spec_attrs(r, p, acc)->Ok_0),
    decreases r.len() - p,
{
    if 0 <= p <= r.len() {
        lemma_skip_ws(r, p);
        let a = skip_ws(r, p);
        if a < r.len() {
            lemma_find_ws(r, a);
            let b = find_ws(r, a);
            let tok = r.subrange(a, b);
            lemma_lacks_part(r, a, b, '>');
            assert forall|k: int| 0 <= k < tok.len() implies !is_ws(#[trigger] tok[k]) by {
                assert(tok[k] == r[a + k]);
            }
            lemma_attr_valid(tok);
            if spec_attr(tok) is Ok {
                let kv = spec_attr(tok)->Ok_0;
                if !has_key(acc, kv.0) {
                    let acc2 = acc.push(kv);
                    assert(valid_attrs(acc2)) by {
                        assert forall|i: int, j: int| 0 <= i < j < acc2.len() implies #[trigger] acc2[i].0
                            != #[trigger] acc2[j].0 by {
                            if j == acc.len() {
                                assert(acc2[i] == acc[i]);
                            } else {
                                assert(acc2[i] == acc[i] && acc2[j] == acc[j]);
                            }
                        }
                        assert forall|i: int| 0 <= i < acc2.len() implies valid_key(#[trigger] acc2[i].0)
                            && valid_value(acc2[i].1) by {
                            if i < acc.len() {
                                assert(acc2[i] == acc[i]);
                            }
                        }
                    }
                    lemma_attrs_valid(r, b, acc2);
                }
            }
        }
    }
}

/// A tag read by the tag reader has a valid name and valid attributes.
pub proof fn lemma_tag_valid(s: Seq<char>, q: int)
    ensures
        spec_tag(s, q) is Ok ==> valid_name(spec_tag(s, q)->Ok_0.0.name) && valid_attrs(
            spec_tag(s, q)->Ok_0.0.attrs,
        ),
{
    if 0 <= q < s.len() && s[q] == '<' {
        lemma_find_char(s, q + 1, '>');
        let j = find_char(s, q + 1, '>');
        if j < s.len() {
            let inner = s.subrange(q + 1, j);
            assert forall|k: int| 0 <= k < inner.len() implies #[trigger] inner[k] != '>' by {
                assert(inner[k] == s[q + 1 + k]);
            }
            let body = body_of(inner);
            if kind_of(inner) == TagKind::Close {
                lemma_lacks_part(inner, 1, inner.len() as int, '>');
            } else if kind_of(inner) == TagKind::SelfClose {
                lemma_lacks_part(inner, 0, inner.len() - 1, '>');
            }
            assert(lacks(body, '>'));
            lemma_lacks_trim(body, '>');
            let b = trim(body);
            lemma_name_end(b, 0);
            let n = name_end(b, 0);
            if spec_tag_inner(inner) is Ok {
                let name = b.subrange(0, n);
                assert forall|k: int| 0 <= k < name.len() implies !is_ws(#[trigger] name[k]) && name[k] != '/'
                    && name[k] != '>' by {
                    assert(name[k] == b[k]);
                }
                lemma_lacks_part(b, n, b.len() as int, '>');
                assert(valid_attrs(Seq::<(Seq<char>, Seq<char>)>::empty()));
                lemma_attrs_valid(b.subrange(n, b.len() as int), 0, Seq::empty());
            }
        }
    }
}

/// Nodes as the content reader leaves them: each valid at `depth`, and no
/// two text nodes side by side.
pub open spec fn valid_run(acc: Seq<NodeModel>, depth: nat) -> bool {
    &&& forall|j: int| 0 <= j < acc.len() ==> valid_node(#[trigger] acc[j], depth)
    &&& forall|j: int| 0 <= j < acc.len() - 1 ==> !(#[trigger] acc[j] is Text && acc[j + 1] is Text)
}

pub proof fn lemma_run_push(acc: Seq<NodeModel>, depth: nat, n: NodeModel)
    requires
        valid_run(acc, depth),
        valid_node(n, depth),
        n is Text ==> acc.len() == 0 || !(acc[acc.len() - 1] is Text),
    ensures
        valid_run(acc.push(n), depth),
{
    let a2 = acc.push(n);
    assert forall|j: int| 0 <= j < a2.len() implies valid_node(#[trigger] a2[j], depth) by {
        if j < acc.len() {
            assert(a2[j] == acc[j]);
        }
    }
    assert forall|j: int| 0 <= j < a2.len() - 1 implies !(#[trigger] a2[j] is Text && a2[j + 1] is Text) by {
        assert(a2[j] == acc[j]);
        if j + 1 < acc.len() {
            assert(a2[j + 1] == acc[j + 1]);
        }
    }
}

/// The content reader yields valid children.
pub proof fn lemma_content_valid(s: Seq<char>, p: int, name: Seq<char>, d: nat, acc: Seq<NodeModel>)
    requires
        valid_run(acc, d + 1),
        acc.len() == 0 || !(acc[acc.len() - 1] is Text),
    ensures
        spec_content(s, p, name, d, acc) is Ok ==> valid_run(spec_content(s, p, name, d, acc)->Ok_0.0, d + 1),
    decreases s.len() - p, 1nat,
{
    if 0 <= p <= s.len() {
        lemma_find_char(s, p, '<');
        let q = find_char(s, p, '<');
        if q < s.len() {
            let x = s.subrange(p, q);
            let text = trim(x);
            assert forall|k: int| 0 <= k < x.len() implies #[trigger] x[k] != '<' by {
                assert(x[k] == s[p + k]);
            }
            lemma_lacks_trim(x, '<');
            lemma_trim_part(x);
            if text.len() > 0 {
                lemma_run_push(acc, d + 1, NodeModel::Text(text));
                lemma_at_tag_valid(s, q, name, d, acc.push(NodeModel::Text(text)));
            } else {
                lemma_at_tag_valid(s, q, name, d, acc);
            }
        }
    }
}

pub proof fn lemma_at_tag_valid(s: Seq<char>, q: int, name: Seq<char>, d: nat, acc: Seq<NodeModel>)
    requires
        valid_run(acc, d + 1),
    ensures
        spec_at_tag(s, q, name, d, acc) is Ok ==> valid_run(spec_at_tag(s, q, name, d, acc)->Ok_0.0, d + 1),
    decreases s.len() - q, 0nat,
{
    if 0 <= q < s.len() {
        lemma_spec_tag_end(s, q);
        lemma_tag_valid(s, q);
        if spec_tag(s, q) is Ok {
            let t = spec_tag(s, q)->Ok_0.0;
            let e = spec_tag(s, q)->Ok_0.1;
            if t.kind == TagKind::SelfClose {
                let c = element_of(t, Seq::empty());
                assert(valid_node(c, d + 1));
                lemma_run_push(acc, d + 1, c);
                lemma_content_valid(s, e, name, d, acc.push(c));
            } else if t.kind == TagKind::Open && d < MAX_DEPTH {
                assert(valid_run(Seq::<NodeModel>::empty(), d + 2));
                lemma_content_valid(s, e, t.name, d + 1, Seq::empty());
                let r = spec_content(s, e, t.name, d + 1, Seq::empty());
                if r is Ok {
                    let ke = r->Ok_0;
                    if q < ke.1 <= s.len() {
                        let c = element_of(t, ke.0);
                        assert(valid_node(c, d + 1));
                        lemma_run_push(acc, d + 1, c);
                        lemma_content_valid(s, ke.1, name, d, acc.push(c));
                    }
                }
            }
        }
    }
}

/// The element reader yields a valid element.
pub proof fn lemma_element_valid(s: Seq<char>, p: int)
    ensures
        spec_element(s, p) is Ok ==> spec_element(s, p)->Ok_0.0 is Element && valid_node(
            spec_element(s, p)->Ok_0.0,
            1,
        ),
{
    let q = skip_ws(s, p);
    lemma_tag_valid(s, q);
    if spec_tag(s, q) is Ok {
        let t = spec_tag(s, q)->Ok_0.0;
        let e = spec_tag(s, q)->Ok_0.1;
        if t.kind == TagKind::Open {
            assert(valid_run(Seq::<NodeModel>::empty(), 2));
            lemma_content_valid(s, e, t.name, 1, Seq::empty());
        }
    }
}

pub proof fn lemma_lookup_valid(a: Seq<(Seq<char>, Seq<char>)>, k: Seq<char>)
    requires
        valid_attrs(a),
    ensures
        lookup(a, k) is Some ==> valid_value(lookup(a, k)->Some_0),
    decreases a.len(),
{
    if a.len() > 0 {
        assert(valid_key(a[0].0) && valid_value(a[0].1));
        let b = a.subrange(1, a.len() as int);
        assert(valid_attrs(b)) by {
            assert forall|i: int, j: int| 0 <= i < j < b.len() implies #[trigger] b[i].0 != #[trigger] b[j].0 by {
                assert(b[i] == a[i + 1] && b[j] == a[j + 1]);
            }
            assert forall|i: int| 0 <= i < b.len() implies valid_key(#[trigger] b[i].0) && valid_value(b[i].1) by {
                assert(b[i] == a[i + 1]);
            }
        }
        lemma_lookup_valid(b, k);
    }
}

/// The parser yields valid trees.
pub proof fn lemma_document_valid(s: Seq<char>)
    ensures
        spec_document(s) is Ok ==> valid_tree(spec_document(s)->Ok_0),
{
    let q = skip_ws(s, 0);
    assert(valid_value(default_version()));
    assert(valid_value(default_encoding()));
    if starts_declaration(s, q) {
        lemma_find_char(s, q + 2, '>');
        let j = find_char(s, q + 2, '>');
        if j < s.len() && j != q + 2 && s[j - 1] == '?' {
            let inner = s.subrange(q + 2, j - 1);
            let st = seq!['<'] + inner + seq!['>'];
            assert forall|k: int| 0 <= k < inner.len() implies #[trigger] inner[k] != '>' by {
                assert(inner[k] == s[q + 2 + k]);
            }
            lemma_find_char_skip(st, 1, st.len() - 1, '>');
            assert(find_char(st, 1, '>') == st.len() - 1);
            assert(st.subrange(1, st.len() - 1) =~= inner);
            lemma_tag_valid(st, 0);
            if spec_tag_inner(inner) is Ok {
                let a = spec_tag_inner(inner)->Ok_0.attrs;
                lemma_lookup_valid(a, seq!['v', 'e', 'r', 's', 'i', 'o', 'n']);
                lemma_lookup_valid(a, seq!['e', 'n', 'c', 'o', 'd', 'i', 'n', 'g']);
            }
        }
    }
    if spec_document(s) is Ok {
        let h = if starts_declaration(s, q) {
            spec_declaration(s, q)->Ok_0
        } else {
            (default_version(), default_encoding(), 0)
        };
        lemma_element_valid(s, h.2);
    }
}

/// Parsing the serialization of a parsed document gives the same tree.
pub proof fn lemma_round_trip(s: Seq<char>)
    requires
        spec_document(s) is Ok,
    ensures
        spec_document(render_tree(spec_document(s)->Ok_0)) == spec_document(s),
{
    lemma_document_valid(s);
    lemma_parse_render(spec_document(s)->Ok_0);
}

} // verus!
