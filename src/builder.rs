//! The node builder: recursive assembly of elements, their attributes and
//! their mixed text and element children; and the document entry point.
use vstd::prelude::*;
use crate::model::{Fault, NodeModel, TreeModel, XMLTree, XMLNode, XMLError, NodeError, ClosingTagError, nodes_view, attrs_view};
use crate::scanner::{Scanner, find_char, skip_ws, trim, string_of, lemma_find_char, lemma_skip_ws};
use crate::tag::{TagKind, TagModel, spec_tag, spec_tag_inner, read_tag, lemma_spec_tag_end, find_char_exec, skip_ws_exec, slice_chars, trim_exec, tag_inner_exec};

verus! {

/// The deepest nesting of elements that the parser accepts; the root is at
/// depth one.
pub const MAX_DEPTH: usize = 256;

/// The element `Element { name, attrs, children }` of a tag.
pub open spec fn element_of(t: TagModel, children: Seq<NodeModel>) -> NodeModel {
    NodeModel::Element { name: t.name, attrs: t.attrs, children }
}

/// The content of an open element named `name` at nesting depth `depth`,
/// read from `s[p..]` through its closing tag: the children after `acc`,
/// and the index just past the closing tag. Text up to the next `<` becomes
/// a child, trimmed, when it is not all whitespace.
pub open spec fn spec_content(
    s: Seq<char>,
    p: int,
    name: Seq<char>,
    depth: nat,
    acc: Seq<NodeModel>,
) -> Result<(Seq<NodeModel>, int), Fault>
    decreases s.len() - p, 1nat,
{
    if p < 0 || p > s.len() {
        Err(Fault::UnterminatedElement(name))
    } else {
        let q = find_char(s, p, '<');
        if q >= s.len() {
            Err(Fault::UnterminatedElement(name))
        } else {
            let text = trim(s.subrange(p, q));
            proof {
                lemma_find_char(s, p, '<');
            }
            spec_at_tag(
                s,
                q,
                name,
                depth,
                if text.len() > 0 {
                    acc.push(NodeModel::Text(text))
                } else {
                    acc
                },
            )
        }
    }
}

/// The content of the open element `name` from the tag at `s[q]` on: a
/// closing tag ends it, a self-closing tag adds a leaf, and an opening tag
/// adds an element with its own content.
pub open spec fn spec_at_tag(
    s: Seq<char>,
    q: int,
    name: Seq<char>,
    depth: nat,
    acc: Seq<NodeModel>,
) -> Result<(Seq<NodeModel>, int), Fault>
    decreases s.len() - q, 0nat,
{
    if q < 0 || q >= s.len() {
        Err(Fault::UnterminatedElement(name))
    } else {
        proof {
            lemma_spec_tag_end(s, q);
        }
        match spec_tag(s, q) {
            Err(e) => Err(e),
            Ok(te) => {
                let t = te.0;
                let e = te.1;
                match t.kind {
                    TagKind::Close => if t.name == name {
                        Ok((acc, e))
                    } else {
                        Err(Fault::UnmatchedClosingTag(name, t.name))
                    },
                    TagKind::SelfClose => spec_content(s, e, name, depth, acc.push(element_of(t, Seq::empty()))),
                    TagKind::Open => if depth >= MAX_DEPTH {
                        Err(Fault::NestingTooDeep)
                    } else {
                        match spec_content(s, e, t.name, depth + 1, Seq::empty()) {
                            Err(x) => Err(x),
                            Ok(ke) => if ke.1 <= q || ke.1 > s.len() {
                                Err(Fault::UnterminatedElement(name))
                            } else {
                                spec_content(s, ke.1, name, depth, acc.push(element_of(t, ke.0)))
                            },
                        }
                    },
                }
            },
        }
    }
}

/// The element that starts at the first non-whitespace character at or
/// after `p`, and the index just past it.
pub open spec fn spec_element(s: Seq<char>, p: int) -> Result<(NodeModel, int), Fault> {
    match spec_tag(s, skip_ws(s, p)) {
        Err(e) => Err(e),
        Ok(te) => match te.0.kind {
            TagKind::Close => Err(Fault::MalformedTag('/')),
            TagKind::SelfClose => Ok((element_of(te.0, Seq::empty()), te.1)),
            TagKind::Open => match spec_content(s, te.1, te.0.name, 1, Seq::empty()) {
                Ok(ke) => Ok((element_of(te.0, ke.0), ke.1)),
                Err(x) => Err(x),
            },
        },
    }
}

/// The value of the first attribute named `k`.
pub open spec fn lookup(attrs: Seq<(Seq<char>, Seq<char>)>, k: Seq<char>) -> Option<Seq<char>>
    decreases attrs.len(),
{
    if attrs.len() == 0 {
        None
    } else if attrs[0].0 == k {
        Some(attrs[0].1)
    } else {
        lookup(attrs.subrange(1, attrs.len() as int), k)
    }
}

pub open spec fn default_version() -> Seq<char> {
    seq!['1', '.', '0']
}

pub open spec fn default_encoding() -> Seq<char> {
    seq!['U', 'T', 'F', '-', '8']
}

/// A declaration `<?xml ...?>` that starts at `s[q]`: its version and
/// encoding, defaults where absent, and the index just past its `>`.
pub open spec fn spec_declaration(s: Seq<char>, q: int) -> Result<(Seq<char>, Seq<char>, int), Fault> {
    let j = find_char(s, q + 2, '>');
    if j >= s.len() {
        Err(Fault::UnterminatedTag)
    } else if j == q + 2 || s[j - 1] != '?' {
        Err(Fault::MalformedTag('?'))
    } else {
        match spec_tag_inner(s.subrange(q + 2, j - 1)) {
            Err(e) => Err(e),
            Ok(t) => if t.kind == TagKind::Open && t.name == seq!['x', 'm', 'l'] {
                let v = lookup(t.attrs, seq!['v', 'e', 'r', 's', 'i', 'o', 'n']);
                let e = lookup(t.attrs, seq!['e', 'n', 'c', 'o', 'd', 'i', 'n', 'g']);
                Ok((
                    if v is Some { v->Some_0 } else { default_version() },
                    if e is Some { e->Some_0 } else { default_encoding() },
                    j + 1,
                ))
            } else {
                Err(Fault::MalformedTag('?'))
            },
        }
    }
}

/// Whether a declaration starts at `s[q]`.
pub open spec fn starts_declaration(s: Seq<char>, q: int) -> bool {
    0 <= q && q + 1 < s.len() && s[q] == '<' && s[q + 1] == '?'
}

/// A whole document: an optional declaration, one root element, and nothing
/// after it but whitespace.
pub open spec fn spec_document(s: Seq<char>) -> Result<TreeModel, Fault> {
    let q = skip_ws(s, 0);
    let head: Result<(Seq<char>, Seq<char>, int), Fault> = if starts_declaration(s, q) {
        spec_declaration(s, q)
    } else {
        Ok((default_version(), default_encoding(), 0))
    };
    match head {
        Err(e) => Err(e),
        Ok(h) => match spec_element(s, h.2) {
            Err(e) => Err(e),
            Ok(ne) => {
                let z = skip_ws(s, ne.1);
                if 0 <= z < s.len() {
                    Err(Fault::TrailingContent(s[z]))
                } else {
                    Ok(TreeModel { version: h.0, encoding: h.1, root: ne.0 })
                }
            },
        },
    }
}

fn content_exec(sc: &mut Scanner, name: &String, depth: usize) -> (r: Result<Vec<XMLNode>, XMLError>)
    requires
        old(sc).wf(),
        1 <= depth <= MAX_DEPTH,
    ensures
        final(sc).wf(),
        final(sc).input() == old(sc).input(),
        match (r, spec_content(old(sc).input(), old(sc).position(), name@, depth as nat, Seq::empty())) {
            (Ok(x), Ok(y)) => nodes_view(x@) == y.0 && final(sc).position() == y.1 && old(sc).position() < y.1,
            (Err(x), Err(y)) => x@ == y,
            _ => false,
        },
    decreases MAX_DEPTH - depth,
{
    let ghost s = sc.input();
    let ghost p0 = sc.position();
    let mut kids: Vec<XMLNode> = Vec::new();
    assert(nodes_view(kids@) =~= Seq::empty());
    loop
        invariant
            sc.wf(),
            sc.input() == s,
            s == old(sc).input(),
            p0 == old(sc).position(),
            p0 <= sc.position() <= s.len(),
            1 <= depth <= MAX_DEPTH,
            spec_content(s, sc.position(), name@, depth as nat, nodes_view(kids@))
                == spec_content(s, p0, name@, depth as nat, Seq::empty()),
        decreases s.len() - sc.position(),
    {
        let p = sc.offset();
        let q = find_char_exec(sc.chars(), p, '<');
        proof {
            lemma_find_char(s, p as int, '<');
        }
        if q >= sc.chars().len() {
            return Err(XMLError::ClosingTagError(ClosingTagError(name.clone())));
        }
        let raw = slice_chars(sc.chars(), p, q);
        let t = trim_exec(&raw);
        let ghost acc = nodes_view(kids@);
        if t.len() > 0 {
            kids.push(XMLNode::text(string_of(&t, 0, t.len())));
            assert(t@.subrange(0, t@.len() as int) =~= t@);
            assert(nodes_view(kids@) =~= acc.push(NodeModel::Text(t@)));
        }
        let ghost acc1 = nodes_view(kids@);
        sc.skip_to(q);
        proof {
            lemma_spec_tag_end(s, q as int);
        }
        match read_tag(sc) {
            Err(e) => {
                return Err(e);
            },
            Ok(tok) => {
                let ghost tm = tok@;
                match tok.kind {
                    TagKind::Close => {
                        if tok.name == *name {
                            return Ok(kids);
                        } else {
                            return Err(XMLError::UnmatchedClosingTag(name.clone(), tok.name));
                        }
                    },
                    TagKind::SelfClose => {
                        kids.push(XMLNode::element(tok.name, tok.attributes, Vec::new()));
                        assert(nodes_view(Seq::<XMLNode>::empty()) =~= Seq::empty());
                        assert(nodes_view(kids@) =~= acc1.push(element_of(tm, Seq::empty())));
                    },
                    TagKind::Open => {
                        if depth >= MAX_DEPTH {
                            return Err(XMLError::NestingTooDeep);
                        }
                        let sub = match content_exec(sc, &tok.name, depth + 1) {
                            Ok(sub) => sub,
                            Err(e) => {
                                return Err(e);
                            },
                        };
                        let ghost kv = nodes_view(sub@);
                        kids.push(XMLNode::element(tok.name, tok.attributes, sub));
                        assert(nodes_view(kids@) =~= acc1.push(element_of(tm, kv)));
                    },
                }
            },
        }
    }
}

/// Builds the element that starts at the first non-whitespace character at
/// the scanner's position, through its matching closing tag, and moves the
/// scanner just past it. The result is exactly `spec_element` of the input
/// at that position.
pub fn parse_tag(sc: &mut Scanner) -> (r: Result<XMLNode, XMLError>)
    requires
        old(sc).wf(),
    ensures
        final(sc).wf(),
        final(sc).input() == old(sc).input(),
        match (r, spec_element(old(sc).input(), old(sc).position())) {
            (Ok(x), Ok(y)) => x@ == y.0 && final(sc).position() == y.1,
            (Err(x), Err(y)) => x@ == y,
            _ => false,
        },
{
    let ghost s = sc.input();
    let q = skip_ws_exec(sc.chars(), sc.offset());
    proof {
        lemma_skip_ws(s, sc.position());
    }
    sc.skip_to(q);
    let tok = match read_tag(sc) {
        Ok(tok) => tok,
        Err(e) => {
            return Err(e);
        },
    };
    match tok.kind {
        TagKind::Close => Err(XMLError::NodeError(NodeError('/'))),
        TagKind::SelfClose => {
            assert(nodes_view(Seq::<XMLNode>::empty()) =~= Seq::empty());
            Ok(XMLNode::element(tok.name, tok.attributes, Vec::new()))
        },
        TagKind::Open => {
            match content_exec(sc, &tok.name, 1) {
                Ok(kids) => Ok(XMLNode::element(tok.name, tok.attributes, kids)),
                Err(e) => Err(e),
            }
        },
    }
}

/// A `String` holding the characters of `s`.
fn owned(s: &str) -> (r: String)
    ensures
        r@ == s@,
{
    String::from_str(s)
}

fn lookup_exec(attrs: &Vec<(String, String)>, k: &String) -> (r: Option<String>)
    ensures
        match (r, lookup(attrs_view(attrs@), k@)) {
            (Some(x), Some(y)) => x@ == y,
            (None, None) => true,
            _ => false,
        },
{
    let mut i: usize = 0;
    assert(attrs_view(attrs@).subrange(0, attrs@.len() as int) =~= attrs_view(attrs@));
    while i < attrs.len()
        invariant
            i <= attrs@.len(),
            lookup(attrs_view(attrs@), k@) == lookup(
                attrs_view(attrs@).subrange(i as int, attrs@.len() as int),
                k@,
            ),
        decreases attrs@.len() - i,
    {
        let ghost rest = attrs_view(attrs@).subrange(i as int, attrs@.len() as int);
        assert(rest.subrange(1, rest.len() as int) =~= attrs_view(attrs@).subrange(
            i + 1,
            attrs@.len() as int,
        ));
        if attrs[i].0 == *k {
            return Some(attrs[i].1.clone());
        }
        i = i + 1;
    }
    None
}

fn declaration_exec(v: &Vec<char>, q: usize) -> (r: Result<(String, String, usize), XMLError>)
    requires
        q + 2 <= v@.len(),
    ensures
        match (r, spec_declaration(v@, q as int)) {
            (Ok(x), Ok(y)) => x.0@ == y.0 && x.1@ == y.1 && x.2 == y.2,
            (Err(x), Err(y)) => x@ == y,
            _ => false,
        },
{
    let n = v.len();
    let j = find_char_exec(v, q + 2, '>');
    proof {
        lemma_find_char(v@, q + 2, '>');
    }
    if j >= v.len() {
        return Err(XMLError::UnterminatedTag);
    }
    if j == q + 2 || v[j - 1] != '?' {
        return Err(XMLError::NodeError(NodeError('?')));
    }
    let inner = slice_chars(v, q + 2, j - 1);
    let t = match tag_inner_exec(&inner) {
        Ok(t) => t,
        Err(e) => {
            return Err(e);
        },
    };
    let xml = owned("xml");
    proof {
        reveal_strlit("xml");
        reveal_strlit("version");
        reveal_strlit("encoding");
        reveal_strlit("1.0");
        reveal_strlit("UTF-8");
        assert("xml"@ =~= seq!['x', 'm', 'l']);
        assert("version"@ =~= seq!['v', 'e', 'r', 's', 'i', 'o', 'n']);
        assert("encoding"@ =~= seq!['e', 'n', 'c', 'o', 'd', 'i', 'n', 'g']);
        assert("1.0"@ =~= default_version());
        assert("UTF-8"@ =~= default_encoding());
    }
    if !(t.kind == TagKind::Open && t.name == xml) {
        return Err(XMLError::NodeError(NodeError('?')));
    }
    let version = match lookup_exec(&t.attributes, &owned("version")) {
        Some(x) => x,
        None => owned("1.0"),
    };
    let encoding = match lookup_exec(&t.attributes, &owned("encoding")) {
        Some(x) => x,
        None => owned("UTF-8"),
    };
    Ok((version, encoding, j + 1))
}

/// Parses a whole document: an optional declaration, one root element, and
/// nothing after it but whitespace. The result is exactly `spec_document`.
pub fn parse(text: &str) -> (r: Result<XMLTree, XMLError>)
    ensures
        match (r, spec_document(text@)) {
            (Ok(x), Ok(y)) => x@ == y,
            (Err(x), Err(y)) => x@ == y,
            _ => false,
        },
{
    let mut sc = Scanner::new(text);
    let ghost s = text@;
    let q = skip_ws_exec(sc.chars(), 0);
    proof {
        lemma_skip_ws(s, 0);
        reveal_strlit("1.0");
        reveal_strlit("UTF-8");
        assert("1.0"@ =~= default_version());
        assert("UTF-8"@ =~= default_encoding());
    }
    let n = sc.chars().len();
    let (version, encoding) = if q < n && n - q > 1 && sc.chars()[q] == '<' && sc.chars()[q + 1] == '?' {
        match declaration_exec(sc.chars(), q) {
            Err(e) => {
                return Err(e);
            },
            Ok(h) => {
                let (version, encoding, end) = h;
                sc.skip_to(end);
                (version, encoding)
            },
        }
    } else {
        (owned("1.0"), owned("UTF-8"))
    };
    let root = match parse_tag(&mut sc) {
        Ok(root) => root,
        Err(e) => {
            return Err(e);
        },
    };
    let z = skip_ws_exec(sc.chars(), sc.offset());
    proof {
        lemma_skip_ws(s, sc.position());
    }
    if z < n {
        return Err(XMLError::TrailingContent(sc.chars()[z]));
    }
    Ok(XMLTree { version, encoding, root })
}

} // verus!
