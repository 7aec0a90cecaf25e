//! The markup tree the extractor works on: element and text nodes with the
//! spec-level queries the extraction tiers are defined over.

use vstd::prelude::*;
use crate::text;

verus! {

/// One node of a parsed markup tree.
pub enum DomNode {
    /// An element with its tag name and child nodes, in document order.
    Element { tag: String, children: Vec<DomNode> },
    /// A run of character data.
    Text(String),
}

/// Mathematical model of a markup node.
#[verifier::ext_equal]
pub ghost enum DomView {
    Elem { tag: Seq<char>, children: Seq<DomView> },
    Text(Seq<char>),
}

/// The model of one node.
pub open spec fn node_view(n: DomNode) -> DomView
    decreases n,
{
    match n {
        DomNode::Text(s) => DomView::Text(s@),
        DomNode::Element { tag, children } => DomView::Elem {
            tag: tag@,
            children: nodes_view(children@),
        },
    }
}

/// The models of a sequence of nodes.
pub open spec fn nodes_view(ns: Seq<DomNode>) -> Seq<DomView>
    decreases ns,
{
    if ns.len() == 0 {
        Seq::<DomView>::empty()
    } else {
        nodes_view(ns.drop_last()).push(node_view(ns.last()))
    }
}

/// `nodes_view` maps `node_view` over the sequence.
pub proof fn lemma_nodes_view(ns: Seq<DomNode>)
    ensures
        nodes_view(ns).len() == ns.len(),
        forall|i: int| 0 <= i < ns.len() ==> nodes_view(ns)[i] == node_view(ns[i]),
    decreases ns.len(),
{
    if ns.len() > 0 {
        lemma_nodes_view(ns.drop_last());
    }
}

/// The text content of a subtree: its text runs concatenated in document
/// order.
pub open spec fn node_text(d: DomView) -> Seq<char>
    decreases d,
{
    match d {
        DomView::Text(t) => t,
        DomView::Elem { tag, children } => texts_of(children),
    }
}

/// The concatenated text content of a sequence of subtrees.
pub open spec fn texts_of(cs: Seq<DomView>) -> Seq<char>
    decreases cs,
{
    if cs.len() == 0 {
        Seq::<char>::empty()
    } else {
        texts_of(cs.drop_last()) + node_text(cs.last())
    }
}

/// Whether `d` is an element with the given tag.
pub open spec fn elem_tag_is(d: DomView, t: Seq<char>) -> bool {
    match d {
        DomView::Elem { tag, children } => tag == t,
        DomView::Text(_) => false,
    }
}

/// The number of image elements in a subtree.
pub open spec fn img_count(d: DomView) -> nat
    decreases d,
{
    match d {
        DomView::Text(_) => 0,
        DomView::Elem { tag, children } => (if tag == "img"@ {
            1nat
        } else {
            0nat
        }) + imgs_of(children),
    }
}

/// The number of image elements in a sequence of subtrees.
pub open spec fn imgs_of(cs: Seq<DomView>) -> nat
    decreases cs,
{
    if cs.len() == 0 {
        0
    } else {
        imgs_of(cs.drop_last()) + img_count(cs.last())
    }
}

/// Whether a subtree holds a container: a non-image element whose own
/// subtree holds at least one image.
pub open spec fn holds_container(d: DomView) -> bool
    decreases d,
{
    match d {
        DomView::Text(_) => false,
        DomView::Elem { tag, children } => (tag != "img"@ && img_count(d) >= 1) || any_container(
            children,
        ),
    }
}

/// Whether any of the subtrees holds a container.
pub open spec fn any_container(cs: Seq<DomView>) -> bool
    decreases cs,
{
    if cs.len() == 0 {
        false
    } else {
        any_container(cs.drop_last()) || holds_container(cs.last())
    }
}

/// A profile card: an element holding exactly one image and no nested
/// container with an image of its own, so the innermost
/// one-person-one-picture block.
pub open spec fn is_card(d: DomView) -> bool {
    match d {
        DomView::Elem { tag, children } => tag != "img"@ && img_count(d) == 1 && !any_container(
            children,
        ),
        DomView::Text(_) => false,
    }
}

/// The text content of every card in a subtree, in document order.
pub open spec fn card_texts_of(d: DomView) -> Seq<Seq<char>>
    decreases d,
{
    if is_card(d) {
        seq![node_text(d)]
    } else {
        match d {
            DomView::Text(_) => Seq::<Seq<char>>::empty(),
            DomView::Elem { tag, children } => card_texts_in(children),
        }
    }
}

/// The text content of every card in a sequence of subtrees.
pub open spec fn card_texts_in(cs: Seq<DomView>) -> Seq<Seq<char>>
    decreases cs,
{
    if cs.len() == 0 {
        Seq::<Seq<char>>::empty()
    } else {
        card_texts_in(cs.drop_last()) + card_texts_of(cs.last())
    }
}

/// The heading that anchors the supporter section.
pub open spec fn is_support_heading(d: DomView) -> bool {
    elem_tag_is(d, "h3"@) && text::trim_spec(node_text(d)) == "Support"@
}

/// The prefix of the siblings before the next heading of the section's
/// level.
pub open spec fn until_heading(cs: Seq<DomView>) -> Seq<DomView>
    decreases cs.len(),
{
    if cs.len() == 0 {
        Seq::<DomView>::empty()
    } else if elem_tag_is(cs[0], "h3"@) {
        Seq::<DomView>::empty()
    } else {
        seq![cs[0]] + until_heading(cs.drop_first())
    }
}

/// The supporter section found inside one subtree.
pub open spec fn section_in(d: DomView) -> Option<Seq<DomView>>
    decreases d,
{
    match d {
        DomView::Text(_) => Option::None,
        DomView::Elem { tag, children } => section_at(children),
    }
}

/// The supporter section anchored at a support heading among these
/// siblings, or found deeper.
pub open spec fn section_at(cs: Seq<DomView>) -> Option<Seq<DomView>>
    decreases cs,
{
    if cs.len() == 0 {
        Option::None
    } else if is_support_heading(cs[0]) {
        Option::Some(until_heading(cs.drop_first()))
    } else {
        match section_in(cs[0]) {
            Option::Some(sec) => Option::Some(sec),
            Option::None => section_at(cs.drop_first()),
        }
    }
}

/// Whether a subtree holds a support heading.
pub open spec fn has_support_heading(d: DomView) -> bool
    decreases d,
{
    is_support_heading(d) || (match d {
        DomView::Text(_) => false,
        DomView::Elem { tag, children } => any_support_heading(children),
    })
}

/// Whether any of the subtrees holds a support heading.
pub open spec fn any_support_heading(cs: Seq<DomView>) -> bool
    decreases cs,
{
    if cs.len() == 0 {
        false
    } else {
        has_support_heading(cs[0]) || any_support_heading(cs.drop_first())
    }
}

/// Node models commute with subranges.
pub proof fn lemma_nodes_view_subrange(ns: Seq<DomNode>, a: int, b: int)
    requires
        0 <= a <= b <= ns.len(),
    ensures
        nodes_view(ns.subrange(a, b)) == nodes_view(ns).subrange(a, b),
{
    lemma_nodes_view(ns);
    lemma_nodes_view(ns.subrange(a, b));
    assert(nodes_view(ns.subrange(a, b)) =~= nodes_view(ns).subrange(a, b));
}

/// `until_heading` keeps exactly the prefix before the first heading.
pub proof fn lemma_until_heading_take(cs: Seq<DomView>, k: int)
    requires
        0 <= k <= cs.len(),
        forall|j: int| 0 <= j < k ==> !elem_tag_is(cs[j], "h3"@),
        k == cs.len() || elem_tag_is(cs[k], "h3"@),
    ensures
        until_heading(cs) == cs.take(k),
    decreases k,
{
    if k == 0 {
        assert(cs.take(0) =~= Seq::<DomView>::empty());
    } else {
        let t = cs.drop_first();
        assert(forall|j: int| 0 <= j < k - 1 ==> !elem_tag_is(#[trigger] t[j], "h3"@));
        lemma_until_heading_take(t, k - 1);
        assert(seq![cs[0]] + t.take(k - 1) =~= cs.take(k));
    }
}

/// Without a support heading there is no section.
pub proof fn lemma_no_heading_no_section(cs: Seq<DomView>)
    requires
        !any_support_heading(cs),
    ensures
        section_at(cs) is None,
    decreases cs,
{
    if cs.len() > 0 {
        lemma_no_heading_no_section_in(cs[0]);
        lemma_no_heading_no_section(cs.drop_first());
    }
}

proof fn lemma_no_heading_no_section_in(d: DomView)
    requires
        !has_support_heading(d),
    ensures
        section_in(d) is None,
    decreases d,
{
    match d {
        DomView::Text(_) => {},
        DomView::Elem { tag, children } => {
            lemma_no_heading_no_section(children);
        },
    }
}


/// The text content of a subtree.
pub fn node_text_exec(n: &DomNode) -> (r: Vec<char>)
    ensures
        r@ == node_text(node_view(*n)),
    decreases *n,
{
    match n {
        DomNode::Text(s) => text::chars_of(s.as_str()),
        DomNode::Element { tag, children } => {
            let ghost vs = nodes_view(children@);
            let m = children.len();
            proof {
                lemma_nodes_view(children@);
            }
            let mut r: Vec<char> = Vec::new();
            let mut i: usize = 0;
            while i < m
                invariant
                    m == children.len(),
                    i <= m,
                    vs == nodes_view(children@),
                    vs.len() == m,
                    r@ =~= texts_of(vs.take(i as int)),
                    decreases_to!(*n => *children),
                decreases m - i,
            {
                proof {
                    lemma_nodes_view(children@);
                    assert(decreases_to!(*children => children@));
                    assert(decreases_to!(children@ => children@[i as int]));
                }
                let t = node_text_exec(&children[i]);
                let tn = t.len();
                let ghost base = r@;
                let mut j: usize = 0;
                while j < tn
                    invariant
                        tn == t.len(),
                        j <= tn,
                        r@ =~= base + t@.take(j as int),
                    decreases tn - j,
                {
                    r.push(t[j]);
                    j += 1;
                }
                proof {
                    assert(t@.take(tn as int) =~= t@);
                    assert(vs.take(i as int + 1).drop_last() =~= vs.take(i as int));
                    assert(vs.take(i as int + 1).last() == vs[i as int]);
                    assert(vs[i as int] == node_view(children@[i as int]));
                }
                i += 1;
            }
            proof {
                assert(vs.take(m as int) =~= vs);
            }
            r
        },
    }
}

/// `x`, capped at two; the extraction only has to tell zero, one, and many
/// images apart.
pub open spec fn cap2(x: nat) -> nat {
    if x >= 2 {
        2
    } else {
        x
    }
}

/// The subtree's image count, capped at two.
pub fn img_capped(n: &DomNode) -> (r: usize)
    ensures
        r == cap2(img_count(node_view(*n))),
    decreases *n,
{
    match n {
        DomNode::Text(_) => 0,
        DomNode::Element { tag, children } => {
            let base: usize = if text::str_eq(tag.as_str(), "img") {
                1
            } else {
                0
            };
            proof {
                assert(decreases_to!(*n => *children));
            }
            let inner = imgs_capped(children);
            let total = base + inner;
            if total >= 2 {
                2
            } else {
                total
            }
        },
    }
}

/// The image count over a sequence of subtrees, capped at two.
pub fn imgs_capped(cs: &Vec<DomNode>) -> (r: usize)
    ensures
        r == cap2(imgs_of(nodes_view(cs@))),
    decreases cs,
{
    let ghost vs = nodes_view(cs@);
    let m = cs.len();
    proof {
        lemma_nodes_view(cs@);
    }
    let mut r: usize = 0;
    let mut i: usize = 0;
    while i < m
        invariant
            m == cs.len(),
            i <= m,
            vs == nodes_view(cs@),
            vs.len() == m,
            r == cap2(imgs_of(vs.take(i as int))),
        decreases m - i,
    {
        proof {
            lemma_nodes_view(cs@);
            assert(decreases_to!(cs => cs@));
            assert(decreases_to!(cs@ => cs@[i as int]));
        }
        let c = img_capped(&cs[i]);
        let total = r + c;
        proof {
            assert(vs.take(i as int + 1).drop_last() =~= vs.take(i as int));
            assert(vs.take(i as int + 1).last() == vs[i as int]);
            assert(vs[i as int] == node_view(cs@[i as int]));
        }
        r = if total >= 2 {
            2
        } else {
            total
        };
        i += 1;
    }
    proof {
        assert(vs.take(m as int) =~= vs);
    }
    r
}

/// Whether the subtree holds a container.
pub fn holds_container_exec(n: &DomNode) -> (r: bool)
    ensures
        r == holds_container(node_view(*n)),
    decreases *n,
{
    match n {
        DomNode::Text(_) => false,
        DomNode::Element { tag, children } => {
            let own = !text::str_eq(tag.as_str(), "img") && img_capped(n) >= 1;
            proof {
                assert(decreases_to!(*n => *children));
            }
            own || any_container_exec(children)
        },
    }
}

/// Whether any of the subtrees holds a container.
pub fn any_container_exec(cs: &Vec<DomNode>) -> (r: bool)
    ensures
        r == any_container(nodes_view(cs@)),
    decreases cs,
{
    let ghost vs = nodes_view(cs@);
    let m = cs.len();
    proof {
        lemma_nodes_view(cs@);
    }
    let mut i: usize = 0;
    while i < m
        invariant
            m == cs.len(),
            i <= m,
            vs == nodes_view(cs@),
            vs.len() == m,
            !any_container(vs.take(i as int)),
        decreases m - i,
    {
        proof {
            lemma_nodes_view(cs@);
            assert(decreases_to!(cs => cs@));
            assert(decreases_to!(cs@ => cs@[i as int]));
        }
        let h = holds_container_exec(&cs[i]);
        proof {
            assert(vs.take(i as int + 1).drop_last() =~= vs.take(i as int));
            assert(vs.take(i as int + 1).last() == vs[i as int]);
            assert(vs[i as int] == node_view(cs@[i as int]));
        }
        if h {
            proof {
                lemma_any_container_prefix(vs, i as int + 1);
            }
            return true;
        }
        i += 1;
    }
    proof {
        assert(vs.take(m as int) =~= vs);
    }
    false
}

proof fn lemma_any_container_prefix(cs: Seq<DomView>, k: int)
    requires
        0 < k <= cs.len(),
        any_container(cs.take(k)),
    ensures
        any_container(cs),
    decreases cs.len() - k,
{
    if k < cs.len() {
        assert(cs.take(k + 1).drop_last() =~= cs.take(k));
        assert(cs.take(k + 1).last() == cs[k]);
        lemma_any_container_prefix(cs, k + 1);
    } else {
        assert(cs.take(k) =~= cs);
    }
}

/// Whether the node is a profile card.
pub fn is_card_exec(n: &DomNode) -> (r: bool)
    ensures
        r == is_card(node_view(*n)),
    decreases *n,
{
    match n {
        DomNode::Text(_) => false,
        DomNode::Element { tag, children } => {
            let not_img = !text::str_eq(tag.as_str(), "img");
            let one = img_capped(n) == 1;
            proof {
                assert(decreases_to!(*n => *children));
            }
            not_img && one && !any_container_exec(children)
        },
    }
}

/// Appends the text of every card in the subtree to `out`.
pub fn collect_card_texts(n: &DomNode, out: &mut Vec<Vec<char>>)
    ensures
        text::seq_views(final(out)@) == text::seq_views(old(out)@) + card_texts_of(node_view(*n)),
    decreases *n,
{
    if is_card_exec(n) {
        let t = node_text_exec(n);
        out.push(t);
        proof {
            assert(text::seq_views(out@) =~= text::seq_views(old(out)@) + card_texts_of(
                node_view(*n),
            ));
        }
    } else {
        match n {
            DomNode::Text(_) => {
                proof {
                    assert(text::seq_views(out@) =~= text::seq_views(old(out)@) + card_texts_of(
                        node_view(*n),
                    ));
                }
            },
            DomNode::Element { tag, children } => {
                let ghost vs = nodes_view(children@);
                let m = children.len();
                proof {
                    lemma_nodes_view(children@);
                }
                let mut i: usize = 0;
                while i < m
                    invariant
                        m == children.len(),
                        i <= m,
                        vs == nodes_view(children@),
                        vs.len() == m,
                        text::seq_views(out@) =~= text::seq_views(old(out)@) + card_texts_in(
                            vs.take(i as int),
                        ),
                        decreases_to!(*n => *children),
                    decreases m - i,
                {
                    proof {
                        lemma_nodes_view(children@);
                        assert(decreases_to!(*children => children@));
                        assert(decreases_to!(children@ => children@[i as int]));
                    }
                    let ghost pre = text::seq_views(out@);
                    collect_card_texts(&children[i], out);
                    proof {
                        assert(vs.take(i as int + 1).drop_last() =~= vs.take(i as int));
                        assert(vs.take(i as int + 1).last() == vs[i as int]);
                        assert(vs[i as int] == node_view(children@[i as int]));
                        assert(text::seq_views(out@) =~= text::seq_views(old(out)@)
                            + card_texts_in(vs.take(i as int + 1)));
                    }
                    i += 1;
                }
                proof {
                    assert(vs.take(m as int) =~= vs);
                    assert(!is_card(node_view(*n)));
                }
            },
        }
    }
}

/// Whether the node is an element with the given tag.
pub fn elem_tag_is_exec(n: &DomNode, t: &str) -> (r: bool)
    ensures
        r == elem_tag_is(node_view(*n), t@),
{
    match n {
        DomNode::Text(_) => false,
        DomNode::Element { tag, children } => text::str_eq(tag.as_str(), t),
    }
}

/// Whether the node is the heading that anchors the supporter section.
pub fn is_support_heading_exec(n: &DomNode) -> (r: bool)
    ensures
        r == is_support_heading(node_view(*n)),
{
    if !elem_tag_is_exec(n, "h3") {
        return false;
    }
    let t = node_text_exec(n);
    let trimmed = text::trim(&t);
    text::chars_eq_str(&trimmed, "Support")
}

/// Finds the supporter section among these siblings or below them: the
/// result names the sibling vector that holds it and the range of the
/// section within it.
pub fn section_at_exec<'a>(cs: &'a Vec<DomNode>) -> (r: Option<(&'a Vec<DomNode>, usize, usize)>)
    ensures
        match r {
            Option::Some(t) => t.1 <= t.2 <= t.0.len() && section_at(nodes_view(cs@)) == Some(
                nodes_view(t.0@.subrange(t.1 as int, t.2 as int)),
            ),
            Option::None => section_at(nodes_view(cs@)) is None,
        },
    decreases cs,
{
    let ghost full = nodes_view(cs@);
    proof {
        lemma_nodes_view(cs@);
        assert(full.skip(0) =~= full);
    }
    let n = cs.len();
    let mut i: usize = 0;
    while i < n
        invariant
            n == cs.len(),
            i <= n,
            full == nodes_view(cs@),
            full.len() == n,
            section_at(full) == section_at(full.skip(i as int)),
        decreases n - i,
    {
        proof {
            lemma_nodes_view(cs@);
            assert(full.skip(i as int)[0] == full[i as int]);
            assert(full.skip(i as int).drop_first() =~= full.skip(i as int + 1));
        }
        if is_support_heading_exec(&cs[i]) {
            let mut k: usize = i + 1;
            while k < n && !elem_tag_is_exec(&cs[k], "h3")
                invariant
                    n == cs.len(),
                    i + 1 <= k <= n,
                    full == nodes_view(cs@),
                    full.len() == n,
                    forall|j: int| i + 1 <= j < k ==> !elem_tag_is(full[j], "h3"@),
                decreases n - k,
            {
                proof {
                    lemma_nodes_view(cs@);
                }
                k += 1;
            }
            proof {
                lemma_nodes_view(cs@);
                let tail = full.skip(i as int + 1);
                assert(forall|j: int|
                    0 <= j < k - i - 1 ==> !elem_tag_is(#[trigger] tail[j], "h3"@));
                if k < n {
                    assert(elem_tag_is(tail[k - i - 1], "h3"@));
                }
                lemma_until_heading_take(tail, k - i - 1);
                assert(tail.take(k - i - 1) =~= full.subrange(i as int + 1, k as int));
                lemma_nodes_view_subrange(cs@, i as int + 1, k as int);
            }
            return Some((cs, i + 1, k));
        }
        proof {
            assert(decreases_to!(cs => cs@));
            assert(decreases_to!(cs@ => cs@[i as int]));
        }
        let inner = section_in_exec(&cs[i]);
        if inner.is_some() {
            return inner;
        }
        i += 1;
    }
    proof {
        assert(full.skip(n as int) =~= Seq::<DomView>::empty());
    }
    None
}

/// Finds the supporter section inside one subtree.
pub fn section_in_exec<'a>(n: &'a DomNode) -> (r: Option<(&'a Vec<DomNode>, usize, usize)>)
    ensures
        match r {
            Option::Some(t) => t.1 <= t.2 <= t.0.len() && section_in(node_view(*n)) == Some(
                nodes_view(t.0@.subrange(t.1 as int, t.2 as int)),
            ),
            Option::None => section_in(node_view(*n)) is None,
        },
    decreases *n,
{
    match n {
        DomNode::Text(_) => None,
        DomNode::Element { tag, children } => {
            proof {
                assert(decreases_to!(*n => *children));
            }
            section_at_exec(children)
        },
    }
}

} // verus!
