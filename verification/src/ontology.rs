//! Ontology ingestion: the hierarchical markup document is scanned for
//! class nodes, each is normalized into a trait node, duplicates by id are
//! collapsed (the last occurrence wins, as in an id-keyed map), and the
//! children sets are backfilled from the parent references.
use vstd::prelude::*;
use crate::data::{Efo, EfoView};
use crate::errors::GwasError;
use crate::catalog::{last_seg, is_efo_prefixed};
use crate::text::{parse_u32, all_digits, digits_value, trim, trim_of, to_upper, upper_of};

verus! {

/// One attribute of a markup element.
pub struct Attr {
    pub name: String,
    pub value: String,
}

#[verifier::ext_equal]
pub struct AttrView {
    pub name: Seq<char>,
    pub value: Seq<char>,
}

impl View for Attr {
    type V = AttrView;

    open spec fn view(&self) -> AttrView {
        AttrView { name: self.name@, value: self.value@ }
    }
}

/// One element of the markup document, completed when its closing tag is
/// read: elements therefore appear children-first, and `children` holds
/// the indices of the direct child elements, each smaller than the
/// element's own index.
pub struct RawNode {
    pub tag: String,
    pub attrs: Vec<Attr>,
    pub text: String,
    pub children: Vec<usize>,
}

/// The mathematical content of an element: what the extraction below reads.
#[verifier::ext_equal]
pub struct RawNodeView {
    pub tag: Seq<char>,
    pub attrs: Seq<AttrView>,
    pub text: Seq<char>,
    pub children: Seq<usize>,
}

impl View for RawNode {
    type V = RawNodeView;

    open spec fn view(&self) -> RawNodeView {
        RawNodeView {
            tag: self.tag@,
            attrs: self.attrs.deep_view_attrs(),
            text: self.text@,
            children: self.children@,
        }
    }
}

pub open spec fn raw_views(v: Seq<RawNode>) -> Seq<RawNodeView> {
    v.map_values(|n: RawNode| n@)
}

/// Child indices stay below the parent's own index.
pub open spec fn markup_shape(v: Seq<RawNode>) -> bool {
    forall|j: int, k: int|
        0 <= j < v.len() && 0 <= k < v[j].children@.len() ==> (#[trigger] v[j].children@[k]) < j
}

/// An element still being read.
struct Open {
    tag: String,
    attrs: Vec<Attr>,
    text: String,
    children: Vec<usize>,
}

impl View for Open {
    type V = RawNodeView;

    closed spec fn view(&self) -> RawNodeView {
        RawNodeView {
            tag: self.tag@,
            attrs: self.attrs.deep_view_attrs(),
            text: self.text@,
            children: self.children@,
        }
    }
}

spec fn open_views(v: Seq<Open>) -> Seq<RawNodeView> {
    v.map_values(|o: Open| o@)
}

// ---------------------------------------------------------------------------
// The accepted grammar, as a specification-level parser: tags with
// double-quoted attributes, self-closing tags, character data, and skipped
// `<?..>`, `<!..>` constructs. Character references are kept literally; a
// mismatched closing tag or unterminated construct yields nothing.
// ---------------------------------------------------------------------------
pub open spec fn is_ws(c: char) -> bool {
    c == ' ' || c == '\t' || c == '\n' || c == '\r'
}

pub open spec fn tag_stop(c: char) -> bool {
    is_ws(c) || c == '>' || c == '/'
}

pub open spec fn attr_stop(c: char) -> bool {
    c == '=' || tag_stop(c)
}

/// First position at or after `from` where a tag name ends.
pub open spec fn tag_name_end(s: Seq<char>, from: int) -> int
    decreases s.len() - from,
{
    if from < 0 || from >= s.len() {
        s.len() as int
    } else if tag_stop(s[from]) {
        from
    } else {
        tag_name_end(s, from + 1)
    }
}

pub proof fn lemma_tag_name_end_ge(s: Seq<char>, from: int)
    requires
        0 <= from <= s.len(),
    ensures
        from <= tag_name_end(s, from) <= s.len(),
    decreases s.len() - from,
{
    if from < s.len() && !tag_stop(s[from]) {
        lemma_tag_name_end_ge(s, from + 1);
    }
}

pub proof fn lemma_tag_name_end_skip(s: Seq<char>, from: int, i: int)
    requires
        0 <= from <= i < s.len(),
        tag_name_end(s, from) >= i,
        !tag_stop(s[i]),
    ensures
        tag_name_end(s, from) >= i + 1,
    decreases i - from,
{
    if from == i {
        lemma_tag_name_end_ge(s, from + 1);
    } else {
        assert(!tag_stop(s[from]));
        lemma_tag_name_end_skip(s, from + 1, i);
    }
}

pub proof fn lemma_tag_name_end_hit(s: Seq<char>, from: int, i: int)
    requires
        0 <= from <= i < s.len(),
        tag_stop(s[i]),
    ensures
        tag_name_end(s, from) <= i,
    decreases i - from,
{
    if from < i && !tag_stop(s[from]) {
        lemma_tag_name_end_hit(s, from + 1, i);
    }
}

/// First position at or after `from` where an attribute name ends.
pub open spec fn attr_name_end(s: Seq<char>, from: int) -> int
    decreases s.len() - from,
{
    if from < 0 || from >= s.len() {
        s.len() as int
    } else if attr_stop(s[from]) {
        from
    } else {
        attr_name_end(s, from + 1)
    }
}

pub proof fn lemma_attr_name_end_ge(s: Seq<char>, from: int)
    requires
        0 <= from <= s.len(),
    ensures
        from <= attr_name_end(s, from) <= s.len(),
    decreases s.len() - from,
{
    if from < s.len() && !attr_stop(s[from]) {
        lemma_attr_name_end_ge(s, from + 1);
    }
}

pub proof fn lemma_attr_name_end_skip(s: Seq<char>, from: int, i: int)
    requires
        0 <= from <= i < s.len(),
        attr_name_end(s, from) >= i,
        !attr_stop(s[i]),
    ensures
        attr_name_end(s, from) >= i + 1,
    decreases i - from,
{
    if from == i {
        lemma_attr_name_end_ge(s, from + 1);
    } else {
        assert(!attr_stop(s[from]));
        lemma_attr_name_end_skip(s, from + 1, i);
    }
}

pub proof fn lemma_attr_name_end_hit(s: Seq<char>, from: int, i: int)
    requires
        0 <= from <= i < s.len(),
        attr_stop(s[i]),
    ensures
        attr_name_end(s, from) <= i,
    decreases i - from,
{
    if from < i && !attr_stop(s[from]) {
        lemma_attr_name_end_hit(s, from + 1, i);
    }
}

/// The attribute list of an opening tag, read from position `k`: the
/// collected attributes, the position of the closing angle, and whether
/// the tag closes itself.
pub open spec fn attrs_from(t: Seq<char>, k: int, acc: Seq<AttrView>) -> Option<
    (Seq<AttrView>, int, bool),
>
    decreases t.len() - k when 0 <= k <= t.len() via attrs_from_decreases
{
    if k >= t.len() {
        None
    } else if is_ws(t[k]) {
        attrs_from(t, k + 1, acc)
    } else if t[k] == '>' {
        Some((acc, k, false))
    } else if t[k] == '/' {
        if k + 1 < t.len() && t[k + 1] == '>' {
            Some((acc, k + 1, true))
        } else {
            None
        }
    } else {
        let m = attr_name_end(t, k);
        if m >= t.len() || t[m] != '=' || m == k {
            None
        } else if m >= t.len() - 2 || t[m + 1] != '"' {
            None
        } else {
            let q = crate::text::find_sep(t, '"', m + 2);
            if q >= t.len() {
                None
            } else {
                attrs_from(
                    t,
                    q + 1,
                    acc.push(AttrView { name: t.subrange(k, m), value: t.subrange(m + 2, q) }),
                )
            }
        }
    }
}

#[via_fn]
proof fn attrs_from_decreases(t: Seq<char>, k: int, acc: Seq<AttrView>) {
    if 0 <= k < t.len() && !is_ws(t[k]) && t[k] != '>' && t[k] != '/' {
        lemma_attr_name_end_ge(t, k);
        let m = attr_name_end(t, k);
        if !(m >= t.len() || t[m] != '=' || m == k) && !(m >= t.len() - 2 || t[m + 1] != '"') {
            crate::text::lemma_find_sep_ge(t, '"', m + 2);
        }
    }
}

/// A successful attribute read ends at the closing angle, within the text.
proof fn lemma_attrs_from_range(t: Seq<char>, k: int, acc: Seq<AttrView>)
    requires
        0 <= k <= t.len(),
    ensures
        attrs_from(t, k, acc) matches Some(r) ==> k <= r.1 < t.len(),
    decreases t.len() - k,
{
    if k < t.len() {
        if is_ws(t[k]) {
            lemma_attrs_from_range(t, k + 1, acc);
        } else if t[k] == '>' || t[k] == '/' {
        } else {
            lemma_attr_name_end_ge(t, k);
            let m = attr_name_end(t, k);
            if !(m >= t.len() || t[m] != '=' || m == k) && !(m >= t.len() - 2 || t[m + 1] != '"') {
                crate::text::lemma_find_sep_ge(t, '"', m + 2);
                let q = crate::text::find_sep(t, '"', m + 2);
                if q < t.len() {
                    lemma_attrs_from_range(
                        t,
                        q + 1,
                        acc.push(
                            AttrView { name: t.subrange(k, m), value: t.subrange(m + 2, q) },
                        ),
                    );
                }
            }
        }
    }
}

/// One parsing step at position `i`, where a character is available:
/// character data, a skipped construct, a closing tag, or an opening tag.
pub open spec fn mk_step(
    t: Seq<char>,
    i: int,
    nodes: Seq<RawNodeView>,
    stack: Seq<RawNodeView>,
) -> Option<(int, Seq<RawNodeView>, Seq<RawNodeView>)> {
    if t[i] != '<' {
        // character data up to the next tag, attached to the innermost
        // open element
        let j = crate::text::find_sep(t, '<', i + 1);
        if stack.len() > 0 {
            let top = stack.last();
            let top2 = RawNodeView {
                tag: top.tag,
                attrs: top.attrs,
                text: top.text + t.subrange(i, j),
                children: top.children,
            };
            Some((j, nodes, stack.update(stack.len() - 1, top2)))
        } else {
            Some((j, nodes, stack))
        }
    } else if i + 1 >= t.len() {
        None
    } else if t[i + 1] == '?' || t[i + 1] == '!' {
        // declaration or comment: skipped to the closing angle
        let j = crate::text::find_sep(t, '>', i + 2);
        if j >= t.len() {
            None
        } else {
            Some((j + 1, nodes, stack))
        }
    } else if t[i + 1] == '/' {
        // closing tag: completes the innermost open element
        let j = crate::text::find_sep(t, '>', i + 2);
        if j >= t.len() {
            None
        } else if stack.len() == 0 {
            None
        } else {
            let top = stack.last();
            if trim_of(t.subrange(i + 2, j)) != top.tag {
                None
            } else {
                let idx = nodes.len() as usize;
                let nodes2 = nodes.push(top);
                let stack2 = stack.drop_last();
                let stack3 = if stack2.len() > 0 {
                    let p = stack2.last();
                    stack2.update(
                        stack2.len() - 1,
                        RawNodeView {
                            tag: p.tag,
                            attrs: p.attrs,
                            text: p.text,
                            children: p.children.push(idx),
                        },
                    )
                } else {
                    stack2
                };
                Some((j + 1, nodes2, stack3))
            }
        }
    } else {
        // opening tag
        let j = tag_name_end(t, i + 1);
        if j >= t.len() {
            None
        } else if j == i + 1 {
            None
        } else {
            match attrs_from(t, j, Seq::empty()) {
                None => None,
                Some((attrs, k, closed)) => {
                    let fresh = RawNodeView {
                        tag: t.subrange(i + 1, j),
                        attrs,
                        text: Seq::empty(),
                        children: Seq::empty(),
                    };
                    if closed {
                        let idx = nodes.len() as usize;
                        let nodes2 = nodes.push(fresh);
                        let stack2 = if stack.len() > 0 {
                            let p = stack.last();
                            stack.update(
                                stack.len() - 1,
                                RawNodeView {
                                    tag: p.tag,
                                    attrs: p.attrs,
                                    text: p.text,
                                    children: p.children.push(idx),
                                },
                            )
                        } else {
                            stack
                        };
                        Some((k + 1, nodes2, stack2))
                    } else {
                        Some((k + 1, nodes, stack.push(fresh)))
                    }
                },
            }
        }
    }
}

/// Every successful step moves forward and stays within the text.
proof fn lemma_mk_step_advances(
    t: Seq<char>,
    i: int,
    nodes: Seq<RawNodeView>,
    stack: Seq<RawNodeView>,
)
    requires
        0 <= i < t.len(),
    ensures
        mk_step(t, i, nodes, stack) matches Some(st) ==> i < st.0 <= t.len(),
{
    if t[i] != '<' {
        crate::text::lemma_find_sep_ge(t, '<', i + 1);
    } else if i + 1 < t.len() {
        if t[i + 1] == '?' || t[i + 1] == '!' || t[i + 1] == '/' {
            crate::text::lemma_find_sep_ge(t, '>', i + 2);
        } else {
            lemma_tag_name_end_ge(t, i + 1);
            let j = tag_name_end(t, i + 1);
            if j < t.len() && j > i + 1 {
                lemma_attrs_from_range(t, j, Seq::empty());
            }
        }
    }
}

/// Runs the parser from position `i` with the given completed elements and
/// open-element stack; a document that ends with elements still open is
/// malformed.
pub open spec fn mk_run(
    t: Seq<char>,
    i: int,
    nodes: Seq<RawNodeView>,
    stack: Seq<RawNodeView>,
) -> Option<Seq<RawNodeView>>
    decreases t.len() - i when 0 <= i <= t.len() via mk_run_decreases
{
    if i >= t.len() {
        if stack.len() == 0 {
            Some(nodes)
        } else {
            None
        }
    } else {
        match mk_step(t, i, nodes, stack) {
            None => None,
            Some((j, n2, s2)) => mk_run(t, j, n2, s2),
        }
    }
}

#[via_fn]
proof fn mk_run_decreases(t: Seq<char>, i: int, nodes: Seq<RawNodeView>, stack: Seq<RawNodeView>) {
    if 0 <= i < t.len() {
        lemma_mk_step_advances(t, i, nodes, stack);
    }
}

/// What the markup text denotes: its completed elements, children first,
/// or nothing when it is malformed.
pub open spec fn spec_parse_markup(t: Seq<char>) -> Option<Seq<RawNodeView>> {
    mk_run(t, 0, Seq::empty(), Seq::empty())
}

/// Parses the markup text into completed elements, children first.
pub fn parse_markup(text: &str) -> (r: Option<Vec<RawNode>>)
    ensures
        r is Some <==> spec_parse_markup(text@) is Some,
        r matches Some(v) ==> raw_views(v@) == spec_parse_markup(text@).unwrap() && markup_shape(
            v@,
        ),
{
    let n = text.unicode_len();
    let mut nodes: Vec<RawNode> = Vec::new();
    let mut stack: Vec<Open> = Vec::new();
    let mut i: usize = 0;
    proof {
        assert(raw_views(nodes@) =~= Seq::<RawNodeView>::empty());
        assert(open_views(stack@) =~= Seq::<RawNodeView>::empty());
    }
    while i < n
        invariant
            0 <= i <= n,
            n == text@.len(),
            markup_shape(nodes@),
            forall|s: int, k: int|
                0 <= s < stack@.len() && 0 <= k < stack@[s].children@.len()
                    ==> (#[trigger] stack@[s].children@[k]) < nodes@.len(),
            spec_parse_markup(text@) == mk_run(
                text@,
                i as int,
                raw_views(nodes@),
                open_views(stack@),
            ),
        decreases n - i,
    {
        let ghost nv = raw_views(nodes@);
        let ghost sv = open_views(stack@);
        let c = text.get_char(i);
        if c != '<' {
            // character data: attach to the innermost open element
            let mut j = i + 1;
            proof {
                crate::text::lemma_find_sep_ge(text@, '<', i as int + 1);
            }
            while j < n
                invariant_except_break
                    i + 1 <= j <= n,
                    n == text@.len(),
                    j <= crate::text::find_sep(text@, '<', i as int + 1) <= n,
                ensures
                    i + 1 <= j <= n,
                    j as int == crate::text::find_sep(text@, '<', i as int + 1),
                decreases n - j,
            {
                if text.get_char(j) == '<' {
                    proof {
                        crate::text::lemma_find_sep_hit(text@, '<', i as int + 1, j as int);
                    }
                    break;
                }
                proof {
                    crate::text::lemma_find_sep_skip(text@, '<', i as int + 1, j as int);
                }
                j += 1;
            }
            if stack.len() > 0 {
                let ghost old_stack = stack@;
                let mut top = match stack.pop() {
                    Some(t) => t,
                    None => {
                        return None;
                    },
                };
                proof {
                    assert(sv[sv.len() - 1] == old_stack.last()@);
                }
                let mut buf = top.text;
                let piece = text.substring_char(i, j);
                buf.append(piece);
                top.text = buf;
                let ghost tv = top@;
                stack.push(top);
                proof {
                    assert(tv == RawNodeView {
                        tag: sv.last().tag,
                        attrs: sv.last().attrs,
                        text: sv.last().text + text@.subrange(i as int, j as int),
                        children: sv.last().children,
                    });
                    assert(open_views(stack@) =~= sv.update(sv.len() - 1, tv));
                }
            }
            proof {
                assert(mk_step(text@, i as int, nv, sv) == Some(
                    (j as int, raw_views(nodes@), open_views(stack@)),
                ));
            }
            i = j;
            continue;
        }
        // a tag of some kind
        if i + 1 >= n {
            proof {
                assert(mk_step(text@, i as int, nv, sv) is None);
            }
            return None;
        }
        let c2 = text.get_char(i + 1);
        if c2 == '?' || c2 == '!' {
            // declaration or comment: skip to the closing angle
            let mut j = i + 2;
            proof {
                crate::text::lemma_find_sep_ge(text@, '>', i as int + 2);
            }
            while j < n
                invariant_except_break
                    i + 2 <= j <= n,
                    n == text@.len(),
                    j <= crate::text::find_sep(text@, '>', i as int + 2) <= n,
                ensures
                    i + 2 <= j <= n,
                    j as int == crate::text::find_sep(text@, '>', i as int + 2),
                decreases n - j,
            {
                if text.get_char(j) == '>' {
                    proof {
                        crate::text::lemma_find_sep_hit(text@, '>', i as int + 2, j as int);
                    }
                    break;
                }
                proof {
                    crate::text::lemma_find_sep_skip(text@, '>', i as int + 2, j as int);
                }
                j += 1;
            }
            if j == n {
                proof {
                    assert(mk_step(text@, i as int, nv, sv) is None);
                }
                return None;
            }
            proof {
                assert(mk_step(text@, i as int, nv, sv) == Some(
                    (j as int + 1, raw_views(nodes@), open_views(stack@)),
                ));
            }
            i = j + 1;
            continue;
        }
        if c2 == '/' {
            // closing tag
            let mut j = i + 2;
            proof {
                crate::text::lemma_find_sep_ge(text@, '>', i as int + 2);
            }
            while j < n
                invariant_except_break
                    i + 2 <= j <= n,
                    n == text@.len(),
                    j <= crate::text::find_sep(text@, '>', i as int + 2) <= n,
                ensures
                    i + 2 <= j <= n,
                    j as int == crate::text::find_sep(text@, '>', i as int + 2),
                decreases n - j,
            {
                if text.get_char(j) == '>' {
                    proof {
                        crate::text::lemma_find_sep_hit(text@, '>', i as int + 2, j as int);
                    }
                    break;
                }
                proof {
                    crate::text::lemma_find_sep_skip(text@, '>', i as int + 2, j as int);
                }
                j += 1;
            }
            if j == n {
                proof {
                    assert(mk_step(text@, i as int, nv, sv) is None);
                }
                return None;
            }
            let name = text.substring_char(i + 2, j);
            let ghost old_stack = stack@;
            let top = match stack.pop() {
                Some(t) => t,
                None => {
                    proof {
                        assert(sv.len() == 0);
                        assert(mk_step(text@, i as int, nv, sv) is None);
                    }
                    return None;
                },
            };
            proof {
                assert(sv[sv.len() - 1] == old_stack.last()@);
            }
            let trimmed = trim(name);
            if !(trimmed == top.tag) {
                proof {
                    assert(trim_of(text@.subrange(i as int + 2, j as int)) != sv.last().tag);
                    assert(mk_step(text@, i as int, nv, sv) is None);
                }
                return None;
            }
            let idx = nodes.len();
            let ghost prev_nodes = nodes@;
            nodes.push(
                RawNode { tag: top.tag, attrs: top.attrs, text: top.text, children: top.children },
            );
            proof {
                assert(nodes@.last()@ == sv.last());
                assert(raw_views(nodes@) =~= nv.push(sv.last()));
                assert forall|a: int, k: int|
                    0 <= a < nodes@.len() && 0 <= k < nodes@[a].children@.len()
                        implies (#[trigger] nodes@[a].children@[k]) < a by {
                    if a < idx {
                        assert(nodes@[a] == prev_nodes[a]);
                    }
                }
            }
            if stack.len() > 0 {
                let ghost mid_stack = stack@;
                let mut parent = match stack.pop() {
                    Some(t) => t,
                    None => {
                        return None;
                    },
                };
                proof {
                    assert(sv.drop_last()[sv.drop_last().len() - 1] == mid_stack.last()@);
                }
                parent.children.push(idx);
                let ghost pv2 = parent@;
                stack.push(parent);
                proof {
                    let s2 = sv.drop_last();
                    assert(pv2 == RawNodeView {
                        tag: s2.last().tag,
                        attrs: s2.last().attrs,
                        text: s2.last().text,
                        children: s2.last().children.push(idx),
                    });
                    assert(open_views(stack@) =~= s2.update(s2.len() - 1, pv2));
                }
            } else {
                proof {
                    assert(open_views(stack@) =~= sv.drop_last());
                }
            }
            proof {
                assert(mk_step(text@, i as int, nv, sv) == Some(
                    (j as int + 1, raw_views(nodes@), open_views(stack@)),
                ));
            }
            i = j + 1;
            continue;
        }
        // opening tag: read the name
        let mut j = i + 1;
        proof {
            lemma_tag_name_end_ge(text@, i as int + 1);
        }
        while j < n
            invariant_except_break
                i + 1 <= j <= n,
                n == text@.len(),
                j <= tag_name_end(text@, i as int + 1) <= n,
            ensures
                i + 1 <= j <= n,
                j as int == tag_name_end(text@, i as int + 1),
            decreases n - j,
        {
            let d = text.get_char(j);
            if d == ' ' || d == '\t' || d == '\n' || d == '\r' || d == '>' || d == '/' {
                proof {
                    assert(tag_stop(text@[j as int]));
                    lemma_tag_name_end_hit(text@, i as int + 1, j as int);
                }
                break;
            }
            proof {
                assert(!tag_stop(text@[j as int]));
                lemma_tag_name_end_skip(text@, i as int + 1, j as int);
            }
            j += 1;
        }
        if j == n {
            proof {
                assert(mk_step(text@, i as int, nv, sv) is None);
            }
            return None;
        }
        let tag = text.substring_char(i + 1, j).to_owned();
        if tag.as_str().is_empty() {
            proof {
                assert(j == i + 1);
                assert(mk_step(text@, i as int, nv, sv) is None);
            }
            return None;
        }
        let mut attrs: Vec<Attr> = Vec::new();
        // attributes until '>' or '/>'
        let mut k = j;
        let mut closed = false;
        let mut fine = true;
        proof {
            assert(attrs.deep_view_attrs() =~= Seq::<AttrView>::empty());
        }
        loop
            invariant_except_break
                j <= k <= n,
                n == text@.len(),
                i + 1 <= j,
                !closed,
                fine,
                attrs_from(text@, j as int, Seq::empty()) == attrs_from(
                    text@,
                    k as int,
                    attrs.deep_view_attrs(),
                ),
            ensures
                j <= k <= n,
                fine ==> k < n && attrs_from(text@, j as int, Seq::empty()) == Some(
                    (attrs.deep_view_attrs(), k as int, closed),
                ),
                !fine ==> attrs_from(text@, j as int, Seq::empty()) is None,
            decreases n - k,
        {
            // skip whitespace
            if k == n {
                fine = false;
                break;
            }
            let d = text.get_char(k);
            if d == ' ' || d == '\t' || d == '\n' || d == '\r' {
                proof {
                    assert(is_ws(text@[k as int]));
                }
                k += 1;
                continue;
            }
            proof {
                assert(!is_ws(text@[k as int]));
            }
            if d == '>' {
                break;
            }
            if d == '/' {
                if k + 1 < n && text.get_char(k + 1) == '>' {
                    closed = true;
                    k += 1;
                    break;
                }
                fine = false;
                break;
            }
            // attribute name
            let mut m = k;
            proof {
                lemma_attr_name_end_ge(text@, k as int);
            }
            while m < n
                invariant_except_break
                    k <= m <= n,
                    n == text@.len(),
                    m <= attr_name_end(text@, k as int) <= n,
                ensures
                    k <= m <= n,
                    m as int == attr_name_end(text@, k as int),
                decreases n - m,
            {
                let e = text.get_char(m);
                if e == '=' || e == ' ' || e == '\t' || e == '\n' || e == '\r' || e == '>' || e
                    == '/' {
                    proof {
                        assert(attr_stop(text@[m as int]));
                        lemma_attr_name_end_hit(text@, k as int, m as int);
                    }
                    break;
                }
                proof {
                    assert(!attr_stop(text@[m as int]));
                    lemma_attr_name_end_skip(text@, k as int, m as int);
                }
                m += 1;
            }
            if m == n || text.get_char(m) != '=' || m == k {
                fine = false;
                break;
            }
            let name = text.substring_char(k, m).to_owned();
            if m >= n - 2 || text.get_char(m + 1) != '"' {
                fine = false;
                break;
            }
            let mut q = m + 2;
            proof {
                crate::text::lemma_find_sep_ge(text@, '"', m as int + 2);
            }
            while q < n
                invariant_except_break
                    m + 2 <= q <= n,
                    n == text@.len(),
                    q <= crate::text::find_sep(text@, '"', m as int + 2) <= n,
                ensures
                    m + 2 <= q <= n,
                    q as int == crate::text::find_sep(text@, '"', m as int + 2),
                decreases n - q,
            {
                if text.get_char(q) == '"' {
                    proof {
                        crate::text::lemma_find_sep_hit(text@, '"', m as int + 2, q as int);
                    }
                    break;
                }
                proof {
                    crate::text::lemma_find_sep_skip(text@, '"', m as int + 2, q as int);
                }
                q += 1;
            }
            if q == n {
                fine = false;
                break;
            }
            let value = text.substring_char(m + 2, q).to_owned();
            let ghost prev_attrs = attrs.deep_view_attrs();
            attrs.push(Attr { name, value });
            proof {
                assert(attrs.deep_view_attrs() =~= prev_attrs.push(
                    AttrView {
                        name: text@.subrange(k as int, m as int),
                        value: text@.subrange(m as int + 2, q as int),
                    },
                ));
            }
            k = q + 1;
        }
        if !fine {
            proof {
                assert(mk_step(text@, i as int, nv, sv) is None);
            }
            return None;
        }
        let ghost fresh = RawNodeView {
            tag: text@.subrange(i as int + 1, j as int),
            attrs: attrs.deep_view_attrs(),
            text: Seq::empty(),
            children: Seq::empty(),
        };
        if closed {
            // self-closing element
            let idx = nodes.len();
            let ghost prev_nodes = nodes@;
            nodes.push(RawNode { tag, attrs, text: String::new(), children: Vec::new() });
            proof {
                assert(nodes@.last()@ =~= fresh);
                assert(raw_views(nodes@) =~= nv.push(fresh));
                assert forall|a: int, kk: int|
                    0 <= a < nodes@.len() && 0 <= kk < nodes@[a].children@.len()
                        implies (#[trigger] nodes@[a].children@[kk]) < a by {
                    if a < idx {
                        assert(nodes@[a] == prev_nodes[a]);
                    }
                }
            }
            if stack.len() > 0 {
                let ghost old_stack = stack@;
                let mut parent = match stack.pop() {
                    Some(t) => t,
                    None => {
                        return None;
                    },
                };
                proof {
                    assert(sv[sv.len() - 1] == old_stack.last()@);
                }
                parent.children.push(idx);
                let ghost pv2 = parent@;
                stack.push(parent);
                proof {
                    assert(pv2 == RawNodeView {
                        tag: sv.last().tag,
                        attrs: sv.last().attrs,
                        text: sv.last().text,
                        children: sv.last().children.push(idx),
                    });
                    assert(open_views(stack@) =~= sv.update(sv.len() - 1, pv2));
                }
            }
        } else {
            stack.push(Open { tag, attrs, text: String::new(), children: Vec::new() });
            proof {
                assert(stack@.last()@ =~= fresh);
                assert(open_views(stack@) =~= sv.push(fresh));
            }
        }
        proof {
            assert(mk_step(text@, i as int, nv, sv) == Some(
                (k as int + 1, raw_views(nodes@), open_views(stack@)),
            ));
        }
        i = k + 1;
    }
    if stack.len() > 0 {
        proof {
            assert(open_views(stack@).len() > 0);
            assert(spec_parse_markup(text@) is None);
        }
        return None;
    }
    proof {
        assert(open_views(stack@).len() == 0);
        assert(spec_parse_markup(text@) == Some(raw_views(nodes@)));
    }
    Some(nodes)
}

/// First attribute with the given name.
pub open spec fn find_attr_spec(attrs: Seq<AttrView>, name: Seq<char>) -> int
    decreases attrs.len(),
{
    if attrs.len() == 0 {
        0
    } else if attrs[0].name == name {
        0
    } else {
        1 + find_attr_spec(attrs.drop_first(), name)
    }
}

fn find_attr(attrs: &Vec<Attr>, name: &str) -> (r: Option<usize>)
    ensures
        ({
            let fs = find_attr_spec(attrs.deep_view_attrs(), name@);
            match r {
                Some(i) => fs == i && i < attrs@.len(),
                None => fs == attrs@.len(),
            }
        }),
{
    let ghost w = attrs.deep_view_attrs();
    let mut i: usize = 0;
    proof {
        assert(w.skip(0) =~= w);
    }
    while i < attrs.len()
        invariant
            0 <= i <= attrs@.len(),
            w == attrs.deep_view_attrs(),
            w.len() == attrs@.len(),
            find_attr_spec(w, name@) == i + find_attr_spec(w.skip(i as int), name@),
            forall|k: int| 0 <= k < i ==> w[k].name != name@,
        decreases attrs@.len() - i,
    {
        proof {
            assert(w.skip(i as int)[0] == w[i as int]);
            assert(w[i as int] == attrs@[i as int]@);
            assert(w.skip(i as int).drop_first() =~= w.skip(i + 1));
        }
        let cand = &attrs[i].name;
        let want = name.to_owned();
        if *cand == want {
            return Some(i);
        }
        i += 1;
    }
    proof {
        assert(w.skip(i as int) =~= Seq::<AttrView>::empty());
    }
    None
}

/// Deep view of an attribute list.
pub trait AttrsDeepView {
    spec fn deep_view_attrs(&self) -> Seq<AttrView>;
}

impl AttrsDeepView for Vec<Attr> {
    open spec fn deep_view_attrs(&self) -> Seq<AttrView> {
        Seq::new(self@.len(), |i: int| self@[i]@)
    }
}

/// Position in `ch` of the first child whose tag is `tag`, or the length.
pub open spec fn find_child(nodes: Seq<RawNodeView>, ch: Seq<usize>, tag: Seq<char>) -> int
    decreases ch.len(),
{
    if ch.len() == 0 {
        0
    } else if ch[0] < nodes.len() && nodes[ch[0] as int].tag == tag {
        0
    } else {
        1 + find_child(nodes, ch.drop_first(), tag)
    }
}

fn find_child_exec(nodes: &Vec<RawNode>, ch: &Vec<usize>, tag: &str) -> (r: Option<usize>)
    requires
        forall|k: int| 0 <= k < ch@.len() ==> (#[trigger] ch@[k]) < nodes@.len(),
    ensures
        ({
            let fp = find_child(raw_views(nodes@), ch@, tag@);
            match r {
                Some(p) => fp == p && p < ch@.len(),
                None => fp == ch@.len(),
            }
        }),
{
    let ghost nv = raw_views(nodes@);
    let mut i: usize = 0;
    proof {
        assert(ch@.skip(0) =~= ch@);
    }
    while i < ch.len()
        invariant
            0 <= i <= ch@.len(),
            nv == raw_views(nodes@),
            nv.len() == nodes@.len(),
            forall|k: int| 0 <= k < ch@.len() ==> (#[trigger] ch@[k]) < nodes@.len(),
            find_child(nv, ch@, tag@) == i + find_child(nv, ch@.skip(i as int), tag@),
        decreases ch@.len() - i,
    {
        proof {
            assert(ch@.skip(i as int)[0] == ch@[i as int]);
            assert(ch@.skip(i as int).drop_first() =~= ch@.skip(i + 1));
            assert(nv[ch@[i as int] as int] == nodes@[ch@[i as int] as int]@);
        }
        let c = ch[i];
        let want = tag.to_owned();
        if nodes[c].tag == want {
            return Some(i);
        }
        i += 1;
    }
    proof {
        assert(ch@.skip(i as int) =~= Seq::<usize>::empty());
    }
    None
}

// ---------------------------------------------------------------------------
// What one class node denotes.
// ---------------------------------------------------------------------------
/// The identifying resource attribute of a class node, if this is one.
pub open spec fn class_about(nodes: Seq<RawNodeView>, j: int) -> Option<Seq<char>> {
    if nodes[j].tag == "owl:Class"@ {
        let av = nodes[j].attrs;
        let ai = find_attr_spec(av, "rdf:about"@);
        if ai < av.len() {
            Some(av[ai].value)
        } else {
            None
        }
    } else {
        None
    }
}

pub open spec fn parses_id(d: Seq<char>) -> bool {
    d.len() >= 1 && all_digits(d) && digits_value(d) <= u32::MAX
}

/// The digits of a prefixed identifier: everything after the last
/// underscore of the last path segment.
pub open spec fn id_digits(uri: Seq<char>) -> Seq<char> {
    last_seg(last_seg(uri, '/'), '_')
}

/// A node that will produce a trait entry: a class with an identifying
/// attribute, a direct label child, and the ontology-id prefix.
pub open spec fn class_candidate(nodes: Seq<RawNodeView>, j: int) -> bool {
    &&& class_about(nodes, j) is Some
    &&& find_child(nodes, nodes[j].children, "rdfs:label"@) < nodes[j].children.len()
    &&& is_efo_prefixed(last_seg(class_about(nodes, j).unwrap(), '/'))
}

pub open spec fn subclass_pos(nodes: Seq<RawNodeView>, j: int) -> int {
    find_child(nodes, nodes[j].children, "rdfs:subClassOf"@)
}

pub open spec fn has_subclass(nodes: Seq<RawNodeView>, j: int) -> bool {
    subclass_pos(nodes, j) < nodes[j].children.len()
}

pub open spec fn subclass_resource(nodes: Seq<RawNodeView>, j: int) -> Option<Seq<char>> {
    let c = nodes[j].children[subclass_pos(nodes, j)] as int;
    let av = nodes[c].attrs;
    let ai = find_attr_spec(av, "rdf:resource"@);
    if ai < av.len() {
        Some(av[ai].value)
    } else {
        None
    }
}

/// Processing a candidate aborts when its own id does not parse, or when a
/// subclass reference has no resource attribute or a prefixed resource
/// whose id does not parse.
pub open spec fn node_fatal(nodes: Seq<RawNodeView>, j: int) -> bool {
    class_candidate(nodes, j) && {
        ||| !parses_id(id_digits(class_about(nodes, j).unwrap()))
        ||| (has_subclass(nodes, j) && (subclass_resource(nodes, j) is None || {
            let r = subclass_resource(nodes, j).unwrap();
            is_efo_prefixed(last_seg(r, '/')) && !parses_id(id_digits(r))
        }))
    }
}

/// The parent reference: the parsed id when the resource is prefixed, the
/// sentinel id zero when it is not, and nothing when there is no subclass
/// child at all.
pub open spec fn node_parent(nodes: Seq<RawNodeView>, j: int) -> Option<u32> {
    if !has_subclass(nodes, j) {
        None
    } else {
        let r = subclass_resource(nodes, j).unwrap();
        if is_efo_prefixed(last_seg(r, '/')) {
            Some(digits_value(id_digits(r)) as u32)
        } else {
            Some(0)
        }
    }
}

/// The synonym strings of the first `k` children, first occurrence kept.
pub open spec fn syns_upto(nodes: Seq<RawNodeView>, ch: Seq<usize>, k: int) -> Seq<Seq<char>>
    decreases k,
{
    if k <= 0 {
        Seq::empty()
    } else {
        let prev = syns_upto(nodes, ch, k - 1);
        let c = ch[k - 1];
        if c < nodes.len() && nodes[c as int].tag == "oboInOwl:hasExactSynonym"@ {
            let t = upper_of(trim_of(nodes[c as int].text));
            if prev.contains(t) {
                prev
            } else {
                prev.push(t)
            }
        } else {
            prev
        }
    }
}

pub open spec fn node_synonyms(nodes: Seq<RawNodeView>, j: int) -> Seq<Seq<char>> {
    syns_upto(nodes, nodes[j].children, nodes[j].children.len() as int)
}

/// The trait entry a candidate node denotes, children still empty.
pub open spec fn node_efo(nodes: Seq<RawNodeView>, j: int) -> EfoView {
    let lp = find_child(nodes, nodes[j].children, "rdfs:label"@);
    let ln = nodes[j].children[lp] as int;
    EfoView {
        id: digits_value(id_digits(class_about(nodes, j).unwrap())) as u32,
        label: upper_of(trim_of(nodes[ln].text)),
        parent: node_parent(nodes, j),
        children: Seq::empty(),
        synonyms: node_synonyms(nodes, j),
    }
}

/// The trait entries of the first `n` nodes, in order.
pub open spec fn extracted_upto(nodes: Seq<RawNodeView>, n: int) -> Seq<EfoView>
    decreases n,
{
    if n <= 0 {
        Seq::empty()
    } else {
        let prev = extracted_upto(nodes, n - 1);
        if class_candidate(nodes, n - 1) && !node_fatal(nodes, n - 1) {
            prev.push(node_efo(nodes, n - 1))
        } else {
            prev
        }
    }
}

pub open spec fn extraction_fatal(nodes: Seq<RawNodeView>) -> bool {
    exists|j: int| 0 <= j < nodes.len() && node_fatal(nodes, j)
}

pub open spec fn efo_views(s: Seq<Efo>) -> Seq<EfoView> {
    s.map_values(|e: Efo| e@)
}

/// No duplicate synonym strings.
pub open spec fn syns_distinct(s: Seq<Seq<char>>) -> bool {
    forall|i: int, j: int| 0 <= i < j < s.len() ==> s[i] != s[j]
}

proof fn lemma_syns_distinct(nodes: Seq<RawNodeView>, ch: Seq<usize>, k: int)
    ensures
        syns_distinct(syns_upto(nodes, ch, k)),
    decreases k,
{
    if k > 0 {
        lemma_syns_distinct(nodes, ch, k - 1);
        let prev = syns_upto(nodes, ch, k - 1);
        let cur = syns_upto(nodes, ch, k);
        if cur.len() == prev.len() + 1 {
            assert forall|i: int, j: int| 0 <= i < j < cur.len() implies cur[i] != cur[j] by {
                if j < cur.len() - 1 {
                    assert(prev[i] != prev[j]);
                } else {
                    assert(!prev.contains(cur[j]));
                    assert(prev[i] == cur[i]);
                }
            }
        }
    }
}

/// Extracts one node's trait entry.
fn extract_one(nodes: &Vec<RawNode>, j: usize) -> (r: Result<Option<Efo>, GwasError>)
    requires
        markup_shape(nodes@),
        j < nodes@.len(),
    ensures
        r is Err <==> node_fatal(raw_views(nodes@), j as int),
        r matches Err(e) ==> e == GwasError::Parse,
        r matches Ok(oe) ==> ((oe is Some) <==> (class_candidate(raw_views(nodes@), j as int)
            && !node_fatal(raw_views(nodes@), j as int))),
        r matches Ok(oe) ==> (oe matches Some(e) ==> e@ == node_efo(raw_views(nodes@), j as int)
            && e.wf()),
{
    let ghost nv = raw_views(nodes@);
    proof {
        assert(nv[j as int] == nodes@[j as int]@);
    }
    let node = &nodes[j];
    let want = "owl:Class".to_owned();
    if !(node.tag == want) {
        return Ok(None);
    }
    let about_idx = match find_attr(&node.attrs, "rdf:about") {
        Some(ai) => ai,
        None => {
            return Ok(None);
        },
    };
    proof {
        assert(node.attrs.deep_view_attrs()[about_idx as int] == node.attrs@[about_idx as int]@);
    }
    let about = &node.attrs[about_idx].value;
    let label_pos = match find_child_exec(nodes, &node.children, "rdfs:label") {
        Some(p) => p,
        None => {
            return Ok(None);
        },
    };
    let seg = crate::catalog::last_segment(about.as_str(), '/');
    if !crate::catalog::is_efo_prefixed_exec(&seg) {
        return Ok(None);
    }
    proof {
        assert(class_candidate(nv, j as int));
    }
    // the node's own id
    let own_digits = crate::catalog::last_segment(seg.as_str(), '_');
    let id = match parse_u32(own_digits.as_str()) {
        Some(v) => v,
        None => {
            return Err(GwasError::Parse);
        },
    };
    proof {
        crate::text::lemma_digits_value_nonneg(own_digits@);
    }
    // the parent reference
    let mut parent: Option<u32> = None;
    match find_child_exec(nodes, &node.children, "rdfs:subClassOf") {
        Some(sp) => {
            let sub_idx = node.children[sp];
            proof {
                assert(nv[sub_idx as int] == nodes@[sub_idx as int]@);
            }
            let sub = &nodes[sub_idx];
            let res_idx = match find_attr(&sub.attrs, "rdf:resource") {
                Some(ri) => ri,
                None => {
                    return Err(GwasError::Parse);
                },
            };
            proof {
                assert(sub.attrs.deep_view_attrs()[res_idx as int] == sub.attrs@[res_idx as int]@);
            }
            let resource = &sub.attrs[res_idx].value;
            let rseg = crate::catalog::last_segment(resource.as_str(), '/');
            if crate::catalog::is_efo_prefixed_exec(&rseg) {
                let rdigits = crate::catalog::last_segment(rseg.as_str(), '_');
                match parse_u32(rdigits.as_str()) {
                    Some(p) => {
                        proof {
                            crate::text::lemma_digits_value_nonneg(rdigits@);
                        }
                        parent = Some(p);
                    },
                    None => {
                        return Err(GwasError::Parse);
                    },
                }
            } else {
                parent = Some(0);
            }
        },
        None => {},
    }
    proof {
        assert(!node_fatal(nv, j as int));
        assert(parent == node_parent(nv, j as int));
    }
    // the label text
    let label_node = node.children[label_pos];
    proof {
        assert(nv[label_node as int] == nodes@[label_node as int]@);
    }
    let label_trim = trim(nodes[label_node].text.as_str());
    let label = to_upper(label_trim.as_str());
    // the synonyms, first occurrence kept
    let mut synonyms: Vec<String> = Vec::new();
    let mut k: usize = 0;
    let ghost ch = node.children@;
    while k < node.children.len()
        invariant
            0 <= k <= node.children@.len(),
            ch == node.children@,
            markup_shape(nodes@),
            j < nodes@.len(),
            nv == raw_views(nodes@),
            nv.len() == nodes@.len(),
            *node == nodes@[j as int],
            forall|t: int| 0 <= t < ch.len() ==> (#[trigger] ch[t]) < nodes@.len(),
            synonyms.deep_view() =~= syns_upto(nv, ch, k as int),
        decreases node.children@.len() - k,
    {
        let c = node.children[k];
        proof {
            assert(nv[c as int] == nodes@[c as int]@);
        }
        let syn_want = "oboInOwl:hasExactSynonym".to_owned();
        if nodes[c].tag == syn_want {
            let t_trim = trim(nodes[c].text.as_str());
            let t = to_upper(t_trim.as_str());
            let mut present = false;
            let mut q: usize = 0;
            while q < synonyms.len()
                invariant
                    0 <= q <= synonyms@.len(),
                    present <==> exists|w: int| 0 <= w < q && synonyms.deep_view()[w] == t@,
                decreases synonyms@.len() - q,
            {
                if synonyms[q] == t {
                    proof {
                        assert(synonyms.deep_view()[q as int] == synonyms@[q as int]@);
                    }
                    present = true;
                }
                proof {
                    assert(synonyms.deep_view()[q as int] == synonyms@[q as int]@);
                }
                q += 1;
            }
            proof {
                assert(present <==> synonyms.deep_view().contains(t@));
            }
            if !present {
                let ghost prevs = synonyms.deep_view();
                synonyms.push(t);
                proof {
                    assert(synonyms.deep_view() =~= prevs.push(t@));
                }
            }
        }
        k += 1;
    }
    let e = Efo { id, label, parent, children: Vec::new(), synonyms };
    proof {
        lemma_syns_distinct(nv, ch, ch.len() as int);
        assert(e@ =~= node_efo(nv, j as int));
    }
    Ok(Some(e))
}


// ---------------------------------------------------------------------------
// The pipeline: extract, collapse duplicate ids, backfill children.
// ---------------------------------------------------------------------------
/// Extracts the trait entries of every node, in order.
pub fn extract_efos(nodes: &Vec<RawNode>) -> (r: Result<Vec<Efo>, GwasError>)
    requires
        markup_shape(nodes@),
    ensures
        r is Err <==> extraction_fatal(raw_views(nodes@)),
        r matches Err(e) ==> e == GwasError::Parse,
        r matches Ok(v) ==> efo_views(v@) == extracted_upto(
            raw_views(nodes@),
            nodes@.len() as int,
        ) && (forall|i: int| 0 <= i < v@.len() ==> (#[trigger] v@[i]).wf()),
{
    let ghost nv = raw_views(nodes@);
    let mut out: Vec<Efo> = Vec::new();
    let mut j: usize = 0;
    while j < nodes.len()
        invariant
            0 <= j <= nodes@.len(),
            markup_shape(nodes@),
            nv == raw_views(nodes@),
            nv.len() == nodes@.len(),
            forall|k: int| 0 <= k < j ==> !node_fatal(nv, k),
            efo_views(out@) =~= extracted_upto(nv, j as int),
            forall|i: int| 0 <= i < out@.len() ==> (#[trigger] out@[i]).wf(),
        decreases nodes@.len() - j,
    {
        let ghost prev = out@;
        match extract_one(nodes, j) {
            Ok(Some(e)) => {
                out.push(e);
                proof {
                    assert(efo_views(out@) =~= efo_views(prev).push(e@));
                }
            },
            Ok(None) => {},
            Err(e) => {
                return Err(e);
            },
        }
        j += 1;
    }
    proof {
        assert(!extraction_fatal(nv));
    }
    Ok(out)
}

/// Whether position `j` survives the id-keyed collapse: no later entry
/// carries the same id.
pub open spec fn keep_at(s: Seq<EfoView>, j: int) -> bool {
    forall|k: int| j < k < s.len() ==> s[k].id != s[j].id
}

/// The entries of the first `n` positions that survive the collapse.
pub open spec fn kept_upto(s: Seq<EfoView>, n: int) -> Seq<EfoView>
    decreases n,
{
    if n <= 0 {
        Seq::empty()
    } else {
        let prev = kept_upto(s, n - 1);
        if keep_at(s, n - 1) {
            prev.push(s[n - 1])
        } else {
            prev
        }
    }
}

pub open spec fn kept(s: Seq<EfoView>) -> Seq<EfoView> {
    kept_upto(s, s.len() as int)
}

/// The ids of the entries (in order) whose parent is `x`, among the first
/// `n` entries.
pub open spec fn childs_upto(s: Seq<EfoView>, x: u32, n: int) -> Seq<u32>
    decreases n,
{
    if n <= 0 {
        Seq::empty()
    } else {
        let prev = childs_upto(s, x, n - 1);
        if s[n - 1].parent == Some(x) {
            prev.push(s[n - 1].id)
        } else {
            prev
        }
    }
}

/// The collection after the backfill pass: every entry's children set is
/// the ids of the entries that name it as parent.
pub open spec fn with_children(s: Seq<EfoView>) -> Seq<EfoView> {
    Seq::new(
        s.len(),
        |i: int|
            EfoView {
                id: s[i].id,
                label: s[i].label,
                parent: s[i].parent,
                children: childs_upto(s, s[i].id, s.len() as int),
                synonyms: s[i].synonyms,
            },
    )
}

pub open spec fn ids_distinct(s: Seq<EfoView>) -> bool {
    forall|i: int, j: int| 0 <= i < j < s.len() ==> s[i].id != s[j].id
}

proof fn lemma_kept_distinct(s: Seq<EfoView>, n: int)
    requires
        n <= s.len(),
    ensures
        ids_distinct(kept_upto(s, n)),
        forall|i: int|
            #![trigger kept_upto(s, n)[i]]
            0 <= i < kept_upto(s, n).len() ==> exists|j: int|
                0 <= j < n && (#[trigger] s[j]).id == kept_upto(s, n)[i].id && keep_at(s, j),
    decreases n,
{
    if n > 0 {
        lemma_kept_distinct(s, n - 1);
        let prev = kept_upto(s, n - 1);
        let cur = kept_upto(s, n);
        assert forall|i: int| #![trigger cur[i]] 0 <= i < cur.len() implies exists|j: int|
            0 <= j < n && (#[trigger] s[j]).id == cur[i].id && keep_at(s, j) by {
            if keep_at(s, n - 1) && i == cur.len() - 1 {
                assert((s[n - 1]).id == cur[i].id && keep_at(s, n - 1));
            } else {
                assert(cur[i] == prev[i]);
                let j = choose|j: int|
                    0 <= j < n - 1 && (#[trigger] s[j]).id == prev[i].id && keep_at(s, j);
                assert((s[j]).id == cur[i].id && keep_at(s, j));
            }
        }
        if keep_at(s, n - 1) {
            assert forall|i: int, j: int| 0 <= i < j < cur.len() implies cur[i].id != cur[j].id by {
                if j < cur.len() - 1 {
                    assert(cur[i] == prev[i] && cur[j] == prev[j]);
                    assert(prev[i].id != prev[j].id);
                } else {
                    assert(cur[i] == prev[i]);
                    let jj = choose|jj: int|
                        0 <= jj < n - 1 && (#[trigger] s[jj]).id == prev[i].id && keep_at(s, jj);
                    assert(s[n - 1].id != s[jj].id);
                }
            }
        } else {
            assert(cur == prev);
        }
    }
}

/// Membership in the backfilled children list.
proof fn lemma_childs_contains(s: Seq<EfoView>, x: u32, n: int, j: int)
    requires
        0 <= j < n <= s.len(),
        s[j].parent == Some(x),
    ensures
        childs_upto(s, x, n).contains(s[j].id),
    decreases n,
{
    if j == n - 1 {
        assert(childs_upto(s, x, n).last() == s[j].id);
    } else {
        lemma_childs_contains(s, x, n - 1, j);
        let prev = childs_upto(s, x, n - 1);
        let i = choose|i: int| 0 <= i < prev.len() && prev[i] == s[j].id;
        assert(childs_upto(s, x, n)[i] == s[j].id);
    }
}

/// The children lists of a duplicate-free collection are duplicate-free.
proof fn lemma_childs_distinct(s: Seq<EfoView>, x: u32, n: int)
    requires
        n <= s.len(),
        ids_distinct(s),
    ensures
        crate::data::no_dup_u32s(childs_upto(s, x, n)),
        forall|i: int|
            0 <= i < childs_upto(s, x, n).len() ==> exists|j: int|
                0 <= j < n && #[trigger] childs_upto(s, x, n)[i] == s[j].id && s[j].parent
                    == Some(x),
    decreases n,
{
    if n > 0 {
        lemma_childs_distinct(s, x, n - 1);
        let prev = childs_upto(s, x, n - 1);
        let cur = childs_upto(s, x, n);
        if s[n - 1].parent == Some(x) {
            assert forall|i: int, j: int| 0 <= i < j < cur.len() implies cur[i] != cur[j] by {
                if j < cur.len() - 1 {
                    assert(prev[i] != prev[j]);
                } else {
                    let jj = choose|jj: int|
                        0 <= jj < n - 1 && prev[i] == s[jj].id && s[jj].parent == Some(x);
                    assert(s[jj].id != s[n - 1].id);
                }
            }
            assert forall|i: int| 0 <= i < cur.len() implies exists|j: int|
                0 <= j < n && #[trigger] cur[i] == s[j].id && s[j].parent == Some(x) by {
                if i < cur.len() - 1 {
                    let j = choose|j: int|
                        0 <= j < n - 1 && prev[i] == s[j].id && s[j].parent == Some(x);
                    assert(cur[i] == s[j].id && s[j].parent == Some(x));
                } else {
                    assert(cur[i] == s[n - 1].id && s[n - 1].parent == Some(x));
                }
            }
        }
    }
}

/// Collapses duplicate ids (the last occurrence wins) and backfills every
/// surviving entry's children from the parent references. For every entry
/// whose parent id is present in the collection, the parent's children set
/// contains the entry's id.
pub fn backfill(raw: Vec<Efo>) -> (r: Vec<Efo>)
    requires
        forall|i: int| 0 <= i < raw@.len() ==> (#[trigger] raw@[i]).wf(),
        forall|i: int| 0 <= i < raw@.len() ==> (#[trigger] raw@[i])@.children.len() == 0,
    ensures
        efo_views(r@) == with_children(kept(efo_views(raw@))),
        ids_distinct(efo_views(r@)),
        forall|i: int| 0 <= i < r@.len() ==> (#[trigger] r@[i]).wf(),
        forall|i: int, j: int|
            #![trigger r@[i]@.children.contains(r@[j]@.id)]
            0 <= i < r@.len() && 0 <= j < r@.len() && r@[j]@.parent == Some(r@[i]@.id)
                ==> r@[i]@.children.contains(r@[j]@.id),
{
    let ghost s0 = efo_views(raw@);
    let mut work = raw;
    let mut keptv: Vec<Efo> = Vec::new();
    let ghost mut seen: int = 0;
    while work.len() > 0
        invariant
            0 <= seen <= s0.len(),
            efo_views(work@) =~= s0.skip(seen),
            efo_views(keptv@) =~= kept_upto(s0, seen),
            forall|i: int| 0 <= i < keptv@.len() ==> (#[trigger] keptv@[i]).wf(),
            forall|i: int| 0 <= i < keptv@.len() ==> (#[trigger] keptv@[i])@.children.len() == 0,
            forall|i: int| 0 <= i < work@.len() ==> (#[trigger] work@[i]).wf(),
            forall|i: int| 0 <= i < work@.len() ==> (#[trigger] work@[i])@.children.len() == 0,
        decreases work@.len(),
    {
        let ghost oldw = work@;
        let e = work.remove(0);
        proof {
            assert(efo_views(oldw).len() == oldw.len());
            assert(seen < s0.len());
            assert(efo_views(oldw)[0] == oldw[0]@);
            assert(s0.skip(seen)[0] == s0[seen]);
            assert(e@ == s0[seen]);
            assert forall|w: int| 0 <= w < efo_views(work@).len() implies efo_views(work@)[w]
                == s0.skip(seen + 1)[w] by {
                assert(efo_views(work@)[w] == work@[w]@);
                assert(work@[w] == oldw[w + 1]);
                assert(efo_views(oldw)[w + 1] == oldw[w + 1]@);
                assert(s0.skip(seen)[w + 1] == s0[seen + 1 + w]);
                assert(s0.skip(seen + 1)[w] == s0[seen + 1 + w]);
            }
            assert(efo_views(work@) =~= s0.skip(seen + 1));
        }
        // the id-keyed map keeps the last occurrence of each id
        let mut dup = false;
        let mut k: usize = 0;
        while k < work.len()
            invariant
                0 <= k <= work@.len(),
                efo_views(work@) =~= s0.skip(seen + 1),
                0 <= seen < s0.len(),
                e@ == s0[seen as int],
                dup <==> exists|w: int| 0 <= w < k && (#[trigger] s0.skip(seen + 1)[w]).id == s0[seen as int].id,
            decreases work@.len() - k,
        {
            proof {
                assert(efo_views(work@)[k as int] == work@[k as int]@);
            }
            if work[k].id == e.id {
                dup = true;
            }
            k += 1;
        }
        proof {
            assert(dup <==> !keep_at(s0, seen)) by {
                if dup {
                    let w = choose|w: int|
                        0 <= w < work@.len() && (#[trigger] s0.skip(seen + 1)[w]).id == s0[seen as int].id;
                    assert(s0[seen + 1 + w].id == s0[seen as int].id);
                }
                if !keep_at(s0, seen) {
                    let k2 = choose|k2: int|
                        seen < k2 < s0.len() && s0[k2].id == s0[seen as int].id;
                    assert(s0.skip(seen + 1)[k2 - seen - 1].id == s0[seen as int].id);
                }
            }
        }
        let ghost prevk = keptv@;
        if !dup {
            keptv.push(e);
            proof {
                assert(efo_views(keptv@) =~= efo_views(prevk).push(s0[seen as int]));
            }
        }
        proof {
            seen = seen + 1;
        }
    }
    proof {
        assert(seen == s0.len());
        assert(kept(s0) == kept_upto(s0, s0.len() as int));
        lemma_kept_distinct(s0, s0.len() as int);
    }
    let ghost kv = kept(s0);
    // record the (id, parent) pairs before the entries are consumed
    let mut ids: Vec<u32> = Vec::new();
    let mut parents: Vec<Option<u32>> = Vec::new();
    let mut i: usize = 0;
    while i < keptv.len()
        invariant
            0 <= i <= keptv@.len(),
            efo_views(keptv@) =~= kv,
            ids@.len() == i,
            parents@.len() == i,
            forall|k: int| 0 <= k < i ==> ids@[k] == kv[k].id && parents@[k] == kv[k].parent,
        decreases keptv@.len() - i,
    {
        proof {
            assert(efo_views(keptv@)[i as int] == keptv@[i as int]@);
        }
        ids.push(keptv[i].id);
        parents.push(keptv[i].parent);
        i += 1;
    }
    // attach the children lists
    let mut out: Vec<Efo> = Vec::new();
    let ghost mut done: int = 0;
    let kn = keptv.len();
    proof {
        assert(kn == kv.len());
    }
    while keptv.len() > 0
        invariant
            0 <= done <= kv.len(),
            kn == kv.len(),
            ids@.len() == kv.len(),
            parents@.len() == kv.len(),
            forall|k: int| 0 <= k < kv.len() ==> ids@[k] == kv[k].id && parents@[k] == kv[k].parent,
            efo_views(keptv@) =~= kv.skip(done),
            efo_views(out@) =~= with_children(kv).subrange(0, done),
            ids_distinct(kv),
            forall|i2: int| 0 <= i2 < keptv@.len() ==> (#[trigger] keptv@[i2]).wf(),
            forall|i2: int| 0 <= i2 < out@.len() ==> (#[trigger] out@[i2]).wf(),
        decreases keptv@.len(),
    {
        let ghost oldk = keptv@;
        let e = keptv.remove(0);
        proof {
            assert(efo_views(oldk).len() == oldk.len());
            assert(done < kv.len());
            assert(efo_views(oldk)[0] == oldk[0]@);
            assert(kv.skip(done)[0] == kv[done]);
            assert(e@ == kv[done]);
            assert forall|w: int| 0 <= w < efo_views(keptv@).len() implies efo_views(keptv@)[w]
                == kv.skip(done + 1)[w] by {
                assert(efo_views(keptv@)[w] == keptv@[w]@);
                assert(keptv@[w] == oldk[w + 1]);
                assert(efo_views(oldk)[w + 1] == oldk[w + 1]@);
                assert(kv.skip(done)[w + 1] == kv[done + 1 + w]);
                assert(kv.skip(done + 1)[w] == kv[done + 1 + w]);
            }
            assert(efo_views(keptv@) =~= kv.skip(done + 1));
        }
        let mut children: Vec<u32> = Vec::new();
        let mut k: usize = 0;
        while k < kn
            invariant
                0 <= k <= kn,
                kn == kv.len(),
                ids@.len() == kv.len(),
                parents@.len() == kv.len(),
                forall|w: int|
                    0 <= w < kv.len() ==> ids@[w] == kv[w].id && parents@[w] == kv[w].parent,
                0 <= done < kv.len(),
                e@ == kv[done as int],
                children@ =~= childs_upto(kv, kv[done as int].id, k as int),
            decreases kn - k,
        {
            let is_child = match parents[k] {
                Some(p) => p == e.id,
                None => false,
            };
            if is_child {
                children.push(ids[k]);
            }
            k += 1;
        }
        let finished = Efo {
            id: e.id,
            label: e.label,
            parent: e.parent,
            children,
            synonyms: e.synonyms,
        };
        let ghost prevo = out@;
        out.push(finished);
        proof {
            lemma_childs_distinct(kv, kv[done as int].id, kv.len() as int);
            assert(finished@ =~= with_children(kv)[done as int]);
            assert(efo_views(out@) =~= efo_views(prevo).push(finished@));
            assert(efo_views(out@) =~= with_children(kv).subrange(0, done + 1));
            done = done + 1;
        }
    }
    proof {
        assert(done == kv.len());
        assert(efo_views(out@) =~= with_children(kv).subrange(0, kv.len() as int));
        assert(with_children(kv).subrange(0, kv.len() as int) =~= with_children(kv));
        // the backfill law: a present parent's children hold the child's id
        assert forall|i2: int, j2: int|
            #![trigger out@[i2]@.children.contains(out@[j2]@.id)]
            0 <= i2 < out@.len() && 0 <= j2 < out@.len() && out@[j2]@.parent == Some(out@[i2]@.id)
                implies out@[i2]@.children.contains(out@[j2]@.id) by {
            assert(efo_views(out@)[i2] == out@[i2]@);
            assert(efo_views(out@)[j2] == out@[j2]@);
            assert(kv[j2].parent == Some(kv[i2].id));
            lemma_childs_contains(kv, kv[i2].id, kv.len() as int, j2);
        }
        assert forall|i2: int, j2: int| 0 <= i2 < j2 < out@.len() implies out@[i2]@.id
            != out@[j2]@.id by {
            assert(efo_views(out@)[i2] == out@[i2]@);
            assert(efo_views(out@)[j2] == out@[j2]@);
        }
    }
    out
}

/// Ingests the raw ontology document: parses the markup, extracts every
/// class node, collapses duplicate ids and backfills the children sets.
pub fn process_ontology(text: &str) -> (r: Result<Vec<Efo>, GwasError>)
    ensures
        r is Err <==> (spec_parse_markup(text@) is None || extraction_fatal(
            spec_parse_markup(text@).unwrap(),
        )),
        r matches Err(e) ==> e == GwasError::Parse,
        r matches Ok(v) ==> ({
            let nodes = spec_parse_markup(text@).unwrap();
            efo_views(v@) == with_children(kept(extracted_upto(nodes, nodes.len() as int)))
        }),
        r matches Ok(v) ==> ids_distinct(efo_views(v@)) && (forall|i: int|
            0 <= i < v@.len() ==> (#[trigger] v@[i]).wf()) && (forall|i: int, j: int|
            #![trigger v@[i]@.children.contains(v@[j]@.id)]
            0 <= i < v@.len() && 0 <= j < v@.len() && v@[j]@.parent == Some(v@[i]@.id)
                ==> v@[i]@.children.contains(v@[j]@.id)),
{
    let nodes = match parse_markup(text) {
        Some(v) => v,
        None => {
            return Err(GwasError::Parse);
        },
    };
    proof {
        assert(raw_views(nodes@) == spec_parse_markup(text@).unwrap());
        assert(raw_views(nodes@).len() == nodes@.len());
    }
    let raw = match extract_efos(&nodes) {
        Ok(v) => v,
        Err(e) => {
            return Err(e);
        },
    };
    proof {
        let rv = raw@;
        assert forall|i: int| 0 <= i < rv.len() implies (#[trigger] rv[i])@.children.len() == 0 by {
            lemma_extracted_children_empty(raw_views(nodes@), nodes@.len() as int);
            assert(efo_views(rv)[i] == rv[i]@);
        }
    }
    let out = backfill(raw);
    Ok(out)
}

/// Every freshly extracted entry has an empty children list.
proof fn lemma_extracted_children_empty(nodes: Seq<RawNodeView>, n: int)
    requires
        n <= nodes.len(),
    ensures
        forall|i: int|
            0 <= i < extracted_upto(nodes, n).len() ==> (#[trigger] extracted_upto(nodes, n)[i]).children.len() == 0,
    decreases n,
{
    if n > 0 {
        lemma_extracted_children_empty(nodes, n - 1);
        let prev = extracted_upto(nodes, n - 1);
        let cur = extracted_upto(nodes, n);
        assert forall|i: int| 0 <= i < cur.len() implies (#[trigger] cur[i]).children.len() == 0 by {
            if i < prev.len() {
                assert(cur[i] == prev[i]);
            }
        }
    }
}

} // verus!
