//! The tag reader: one tag token, `<...>`, split into kind, name and attributes.
use vstd::prelude::*;
use crate::model::{Fault, XMLError, NodeError, attrs_view};
use crate::scanner::{Scanner, is_ws, is_space, find_char, skip_ws, find_ws, trim_end_at, trim, string_of, lemma_find_char, lemma_skip_ws, lemma_find_ws, lemma_trim_end_at};

verus! {

#[derive(Debug, Clone, Copy, PartialEq, Eq, Structural)]
pub enum TagKind {
    Open,
    Close,
    SelfClose,
}

/// The model of a tag token.
pub struct TagModel {
    pub kind: TagKind,
    pub name: Seq<char>,
    pub attrs: Seq<(Seq<char>, Seq<char>)>,
}

/// One tag: its kind, its name, and for opening tags its attributes in
/// source order with unique names.
#[derive(Debug)]
pub struct TagToken {
    pub kind: TagKind,
    pub name: String,
    pub attributes: Vec<(String, String)>,
}

impl View for TagToken {
    type V = TagModel;

    open spec fn view(&self) -> TagModel {
        TagModel { kind: self.kind, name: self.name@, attrs: attrs_view(self.attributes@) }
    }
}

/// A character that ends a tag name.
pub open spec fn is_name_stop(c: char) -> bool {
    is_ws(c) || c == '/'
}

/// The least index `i >= from` whose character ends a name, or `s.len()`.
pub open spec fn name_end(s: Seq<char>, from: int) -> int
    decreases s.len() - from,
{
    if from < 0 || from >= s.len() {
        s.len() as int
    } else if is_name_stop(s[from]) {
        from
    } else {
        name_end(s, from + 1)
    }
}

/// The kind of a tag from the text between `<` and `>`: a leading `/` makes
/// a closing tag, else a trailing `/` a self-closing one.
pub open spec fn kind_of(inner: Seq<char>) -> TagKind {
    if inner.len() > 0 && inner[0] == '/' {
        TagKind::Close
    } else if inner.len() > 0 && inner[inner.len() - 1] == '/' {
        TagKind::SelfClose
    } else {
        TagKind::Open
    }
}

/// The text between `<` and `>` without the `/` that gave the kind.
pub open spec fn body_of(inner: Seq<char>) -> Seq<char> {
    match kind_of(inner) {
        TagKind::Close => inner.subrange(1, inner.len() as int),
        TagKind::SelfClose => inner.subrange(0, inner.len() - 1),
        TagKind::Open => inner,
    }
}

/// Whether `acc` already holds an attribute named `k`.
pub open spec fn has_key(acc: Seq<(Seq<char>, Seq<char>)>, k: Seq<char>) -> bool {
    exists|i: int| 0 <= i < acc.len() && acc[i].0 == k
}

/// The value of an attribute as written after `=`: a quoted value loses its
/// quotes and may not hold its own quote; an unquoted one may hold no quote.
pub open spec fn unquote(raw: Seq<char>) -> Option<Seq<char>> {
    if raw.len() > 0 && (raw[0] == '"' || raw[0] == '\'') {
        let q = raw[0];
        if raw.len() >= 2 && find_char(raw, 1, q) == raw.len() - 1 {
            Some(raw.subrange(1, raw.len() - 1))
        } else {
            None
        }
    } else if find_char(raw, 0, '"') == raw.len() && find_char(raw, 0, '\'') == raw.len() {
        Some(raw)
    } else {
        None
    }
}

/// One `key=value` token: the key is what precedes the first `=` and may not
/// be empty.
pub open spec fn spec_attr(tok: Seq<char>) -> Result<(Seq<char>, Seq<char>), Fault> {
    let e = find_char(tok, 0, '=');
    if e >= tok.len() || e == 0 {
        Err(Fault::MalformedAttribute(tok))
    } else {
        match unquote(tok.subrange(e + 1, tok.len() as int)) {
            Some(v) => Ok((tok.subrange(0, e), v)),
            None => Err(Fault::MalformedAttribute(tok)),
        }
    }
}

/// The attributes of the whitespace-separated tokens of `r` from `p` on,
/// appended to `acc`; a repeated name is refused.
pub open spec fn spec_attrs(r: Seq<char>, p: int, acc: Seq<(Seq<char>, Seq<char>)>) -> Result<
    Seq<(Seq<char>, Seq<char>)>,
    Fault,
>
    decreases r.len() - p,
{
    if p < 0 || p > r.len() {
        Ok(acc)
    } else {
        let a = skip_ws(r, p);
        if a >= r.len() {
            Ok(acc)
        } else {
            let b = find_ws(r, a);
            proof {
                lemma_skip_ws(r, p);
                lemma_find_ws(r, a);
            }
            match spec_attr(r.subrange(a, b)) {
                Err(e) => Err(e),
                Ok(kv) => if has_key(acc, kv.0) {
                    Err(Fault::DuplicateAttribute(kv.0))
                } else {
                    spec_attrs(r, b, acc.push(kv))
                },
            }
        }
    }
}

/// The tag whose text between `<` and `>` is `inner`.
pub open spec fn spec_tag_inner(inner: Seq<char>) -> Result<TagModel, Fault> {
    let kind = kind_of(inner);
    let b = trim(body_of(inner));
    let n = name_end(b, 0);
    if n == 0 {
        Err(Fault::MalformedTag(if b.len() > 0 { b[0] } else { '>' }))
    } else {
        let name = b.subrange(0, n);
        let rest = b.subrange(n, b.len() as int);
        if kind == TagKind::Close {
            let t = trim(rest);
            if t.len() > 0 {
                Err(Fault::MalformedTag(t[0]))
            } else {
                Ok(TagModel { kind, name, attrs: Seq::empty() })
            }
        } else {
            match spec_attrs(rest, 0, Seq::empty()) {
                Ok(a) => Ok(TagModel { kind, name, attrs: a }),
                Err(e) => Err(e),
            }
        }
    }
}

/// The tag that starts at `s[q]`, and the index just past its `>`.
pub open spec fn spec_tag(s: Seq<char>, q: int) -> Result<(TagModel, int), Fault> {
    if q < 0 || q >= s.len() {
        Err(Fault::UnterminatedTag)
    } else if s[q] != '<' {
        Err(Fault::MalformedTag(s[q]))
    } else {
        let j = find_char(s, q + 1, '>');
        if j >= s.len() {
            Err(Fault::UnterminatedTag)
        } else {
            match spec_tag_inner(s.subrange(q + 1, j)) {
                Ok(t) => Ok((t, j + 1)),
                Err(e) => Err(e),
            }
        }
    }
}

pub proof fn lemma_spec_tag_end(s: Seq<char>, q: int)
    ensures
        spec_tag(s, q) is Ok ==> q < spec_tag(s, q)->Ok_0.1 <= s.len(),
{
    if 0 <= q < s.len() && s[q] == '<' {
        lemma_find_char(s, q + 1, '>');
    }
}

pub(crate) fn find_char_exec(v: &Vec<char>, from: usize, c: char) -> (r: usize)
    requires
        from <= v@.len(),
    ensures
        r == find_char(v@, from as int, c),
{
    let mut i = from;
    while i < v.len() && v[i] != c
        invariant
            from <= i <= v@.len(),
            find_char(v@, i as int, c) == find_char(v@, from as int, c),
        decreases v@.len() - i,
    {
        i = i + 1;
    }
    i
}

pub(crate) fn skip_ws_exec(v: &Vec<char>, from: usize) -> (r: usize)
    requires
        from <= v@.len(),
    ensures
        r == skip_ws(v@, from as int),
{
    let mut i = from;
    while i < v.len() && is_space(v[i])
        invariant
            from <= i <= v@.len(),
            skip_ws(v@, i as int) == skip_ws(v@, from as int),
        decreases v@.len() - i,
    {
        i = i + 1;
    }
    i
}

fn find_ws_exec(v: &Vec<char>, from: usize) -> (r: usize)
    requires
        from <= v@.len(),
    ensures
        r == find_ws(v@, from as int),
{
    let mut i = from;
    while i < v.len() && !is_space(v[i])
        invariant
            from <= i <= v@.len(),
            find_ws(v@, i as int) == find_ws(v@, from as int),
        decreases v@.len() - i,
    {
        i = i + 1;
    }
    i
}

fn name_end_exec(v: &Vec<char>) -> (r: usize)
    ensures
        r == name_end(v@, 0),
{
    let mut i: usize = 0;
    while i < v.len() && !(is_space(v[i]) || v[i] == '/')
        invariant
            i <= v@.len(),
            name_end(v@, i as int) == name_end(v@, 0),
        decreases v@.len() - i,
    {
        i = i + 1;
    }
    i
}

fn trim_end_exec(v: &Vec<char>) -> (r: usize)
    ensures
        r == trim_end_at(v@, v@.len() as int),
{
    let mut j = v.len();
    while j > 0 && is_space(v[j - 1])
        invariant
            j <= v@.len(),
            trim_end_at(v@, j as int) == trim_end_at(v@, v@.len() as int),
        decreases j,
    {
        j = j - 1;
    }
    j
}

/// The characters `v[from..to]`.
pub(crate) fn slice_chars(v: &Vec<char>, from: usize, to: usize) -> (r: Vec<char>)
    requires
        from <= to <= v@.len(),
    ensures
        r@ == v@.subrange(from as int, to as int),
{
    let mut r: Vec<char> = Vec::new();
    let mut i = from;
    while i < to
        invariant
            from <= i <= to <= v@.len(),
            r@ == v@.subrange(from as int, i as int),
        decreases to - i,
    {
        r.push(v[i]);
        i = i + 1;
        assert(r@ =~= v@.subrange(from as int, i as int));
    }
    r
}

/// `v` without leading and trailing whitespace.
pub(crate) fn trim_exec(v: &Vec<char>) -> (r: Vec<char>)
    ensures
        r@ == trim(v@),
{
    let a = skip_ws_exec(v, 0);
    let b = trim_end_exec(v);
    proof {
        lemma_trim_end_at(v@, v@.len() as int);
    }
    if a < b {
        slice_chars(v, a, b)
    } else {
        Vec::new()
    }
}

fn unquote_exec(raw: &Vec<char>) -> (r: Option<Vec<char>>)
    ensures
        match (r, unquote(raw@)) {
            (Some(x), Some(y)) => x@ == y,
            (None, None) => true,
            _ => false,
        },
{
    let n = raw.len();
    if n > 0 && (raw[0] == '"' || raw[0] == '\'') {
        let q = raw[0];
        if n >= 2 && find_char_exec(raw, 1, q) == n - 1 {
            Some(slice_chars(raw, 1, n - 1))
        } else {
            None
        }
    } else if find_char_exec(raw, 0, '"') == n && find_char_exec(raw, 0, '\'') == n {
        Some(slice_chars(raw, 0, n))
    } else {
        None
    }
}

fn attr_exec(tok: &Vec<char>) -> (r: Result<(String, String), XMLError>)
    ensures
        match (r, spec_attr(tok@)) {
            (Ok(x), Ok(y)) => x.0@ == y.0 && x.1@ == y.1,
            (Err(x), Err(y)) => x@ == y,
            _ => false,
        },
{
    let n = tok.len();
    let e = find_char_exec(tok, 0, '=');
    assert(tok@.subrange(0, n as int) =~= tok@);
    if e >= n || e == 0 {
        return Err(XMLError::MalformedAttribute(string_of(tok, 0, n)));
    }
    proof {
        lemma_find_char(tok@, 0, '=');
    }
    let raw = slice_chars(tok, e + 1, n);
    match unquote_exec(&raw) {
        Some(v) => Ok((string_of(tok, 0, e), string_of(&v, 0, v.len()))),
        None => Err(XMLError::MalformedAttribute(string_of(tok, 0, n))),
    }
}

fn has_key_exec(acc: &Vec<(String, String)>, k: &String) -> (r: bool)
    ensures
        r == has_key(attrs_view(acc@), k@),
{
    let mut i: usize = 0;
    while i < acc.len()
        invariant
            i <= acc@.len(),
            forall|j: int| 0 <= j < i ==> attrs_view(acc@)[j].0 != k@,
        decreases acc@.len() - i,
    {
        if acc[i].0 == *k {
            assert(attrs_view(acc@)[i as int].0 == k@);
            return true;
        }
        i = i + 1;
    }
    false
}

fn attrs_exec(r: &Vec<char>) -> (res: Result<Vec<(String, String)>, XMLError>)
    ensures
        match (res, spec_attrs(r@, 0, Seq::empty())) {
            (Ok(x), Ok(y)) => attrs_view(x@) == y,
            (Err(x), Err(y)) => x@ == y,
            _ => false,
        },
{
    let mut acc: Vec<(String, String)> = Vec::new();
    let mut p: usize = 0;
    assert(attrs_view(acc@) =~= Seq::empty());
    loop
        invariant
            p <= r@.len(),
            spec_attrs(r@, p as int, attrs_view(acc@)) == spec_attrs(r@, 0, Seq::empty()),
        decreases r@.len() - p,
    {
        let a = skip_ws_exec(r, p);
        proof {
            lemma_skip_ws(r@, p as int);
        }
        if a >= r.len() {
            return Ok(acc);
        }
        let b = find_ws_exec(r, a);
        proof {
            lemma_find_ws(r@, a as int);
        }
        let tok = slice_chars(r, a, b);
        match attr_exec(&tok) {
            Err(e) => {
                return Err(e);
            },
            Ok(kv) => {
                if has_key_exec(&acc, &kv.0) {
                    return Err(XMLError::DuplicateAttribute(kv.0));
                }
                let ghost old_acc = acc@;
                acc.push(kv);
                assert(attrs_view(acc@) =~= attrs_view(old_acc).push((kv.0@, kv.1@)));
                p = b;
            },
        }
    }
}

/// The tag whose text between `<` and `>` is `inner`.
pub(crate) fn tag_inner_exec(inner: &Vec<char>) -> (r: Result<TagToken, XMLError>)
    ensures
        match (r, spec_tag_inner(inner@)) {
            (Ok(x), Ok(y)) => x@ == y,
            (Err(x), Err(y)) => x@ == y,
            _ => false,
        },
{
    let n = inner.len();
    let kind = if n > 0 && inner[0] == '/' {
        TagKind::Close
    } else if n > 0 && inner[n - 1] == '/' {
        TagKind::SelfClose
    } else {
        TagKind::Open
    };
    let body = match kind {
        TagKind::Close => slice_chars(inner, 1, n),
        TagKind::SelfClose => slice_chars(inner, 0, n - 1),
        TagKind::Open => slice_chars(inner, 0, n),
    };
    assert(body@ =~= body_of(inner@));
    let b = trim_exec(&body);
    let ne = name_end_exec(&b);
    if ne == 0 {
        let c = if b.len() > 0 { b[0] } else { '>' };
        return Err(XMLError::NodeError(NodeError(c)));
    }
    proof {
        assert(0 < ne <= b@.len()) by {
            lemma_name_end(b@, 0);
        }
    }
    let name = string_of(&b, 0, ne);
    let rest = slice_chars(&b, ne, b.len());
    if kind == TagKind::Close {
        let t = trim_exec(&rest);
        if t.len() > 0 {
            return Err(XMLError::NodeError(NodeError(t[0])));
        }
        let attributes: Vec<(String, String)> = Vec::new();
        assert(attrs_view(attributes@) =~= Seq::empty());
        return Ok(TagToken { kind, name, attributes });
    }
    match attrs_exec(&rest) {
        Ok(attributes) => Ok(TagToken { kind, name, attributes }),
        Err(e) => Err(e),
    }
}

pub proof fn lemma_name_end(s: Seq<char>, from: int)
    requires
        0 <= from <= s.len(),
    ensures
        from <= name_end(s, from) <= s.len(),
        name_end(s, from) < s.len() ==> is_name_stop(s[name_end(s, from)]),
        forall|k: int| from <= k < name_end(s, from) ==> !is_name_stop(s[k]),
    decreases s.len() - from,
{
    if from < s.len() && !is_name_stop(s[from]) {
        lemma_name_end(s, from + 1);
    }
}

/// Reads the tag at the scanner's position and moves the scanner just past
/// its `>`. The result is exactly `spec_tag` of the input at that position;
/// on failure the scanner's input is unchanged.
pub fn read_tag(scanner: &mut Scanner) -> (r: Result<TagToken, XMLError>)
    requires
        old(scanner).wf(),
    ensures
        final(scanner).wf(),
        final(scanner).input() == old(scanner).input(),
        match (r, spec_tag(old(scanner).input(), old(scanner).position())) {
            (Ok(x), Ok(y)) => x@ == y.0 && final(scanner).position() == y.1,
            (Err(x), Err(y)) => x@ == y,
            _ => false,
        },
{
    let q = scanner.offset();
    let v = scanner.chars();
    if q >= v.len() {
        return Err(XMLError::UnterminatedTag);
    }
    if v[q] != '<' {
        return Err(XMLError::NodeError(NodeError(v[q])));
    }
    let j = find_char_exec(v, q + 1, '>');
    if j >= v.len() {
        return Err(XMLError::UnterminatedTag);
    }
    proof {
        lemma_find_char(v@, q + 1, '>');
    }
    let inner = slice_chars(v, q + 1, j);
    match tag_inner_exec(&inner) {
        Ok(t) => {
            scanner.skip_to(j + 1);
            Ok(t)
        },
        Err(e) => Err(e),
    }
}

} // verus!
