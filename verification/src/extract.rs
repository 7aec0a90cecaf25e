//! The page extractor: turns a parsed markup tree into the set of supporter
//! records below the section heading, by three tiers applied in fixed
//! precedence order.
//!
//! Tier one reads profile cards (innermost one-image blocks). Tier two falls
//! back to reading a whole section sibling as one card when it holds an
//! image but no card. Tier three reads a plain textual supporter list and is
//! deduplicated against the earlier tiers by name, so it never overwrites a
//! richer record.

use vstd::prelude::*;
use vstd::string::StrSliceExecFns;
use crate::dom;
use crate::dom::{DomNode, DomView};
use crate::record;
use crate::record::{Record, RecordSet, RecView};
use crate::text;
use crate::text::STAR;

verus! {

/// The lines of a card's comment: every line after the first, up to a line
/// that begins the plain-list phrase.
pub open spec fn comment_lines(ls: Seq<Seq<char>>) -> Seq<Seq<char>>
    decreases ls.len(),
{
    if ls.len() == 0 {
        Seq::<Seq<char>>::empty()
    } else if text::starts_with(ls[0], "Support from"@) {
        Seq::<Seq<char>>::empty()
    } else {
        seq![ls[0]] + comment_lines(ls.drop_first())
    }
}

proof fn lemma_comment_lines_take(ls: Seq<Seq<char>>, m: int)
    requires
        0 <= m <= ls.len(),
        forall|j: int| 0 <= j < m ==> !text::starts_with(#[trigger] ls[j], "Support from"@),
        m == ls.len() || text::starts_with(ls[m], "Support from"@),
    ensures
        comment_lines(ls) == ls.take(m),
    decreases m,
{
    if m == 0 {
        assert(ls.take(0) =~= Seq::<Seq<char>>::empty());
    } else {
        let t = ls.drop_first();
        assert(forall|j: int|
            0 <= j < m - 1 ==> !text::starts_with(#[trigger] t[j], "Support from"@));
        lemma_comment_lines_take(t, m - 1);
        assert(seq![ls[0]] + t.take(m - 1) =~= ls.take(m));
    }
}

/// Parses the text of one card: line zero up to the first rating glyph is
/// the name, the following lines up to the plain-list phrase join into the
/// comment, and the rating is the number of glyphs anywhere in the text
/// (capped at 255), absent when zero. The card is accepted only if the name
/// is non-empty and under 100 characters; with `need_two`, only if there are
/// at least two lines.
pub open spec fn parse_card(t: Seq<char>, need_two: bool) -> Option<RecView> {
    let lines = text::clean_lines(t);
    if lines.len() == 0 || (need_two && lines.len() < 2) {
        Option::None
    } else {
        let name = text::trim_spec(lines[0].take(text::find_char(lines[0], STAR)));
        let cmt = text::join_space(comment_lines(lines.drop_first()));
        let stars = text::count_char(t, STAR);
        if 0 < name.len() < 100 {
            Option::Some(
                RecView {
                    name,
                    comment: if cmt.len() > 0 {
                        Option::Some(cmt)
                    } else {
                        Option::None
                    },
                    rating: if stars == 0 {
                        Option::None
                    } else if stars > 255 {
                        Option::Some(255u8)
                    } else {
                        Option::Some(stars as u8)
                    },
                },
            )
        } else {
            Option::None
        }
    }
}

/// Executable card parsing; the result meets the record invariant.
pub fn parse_card_exec(t: &Vec<char>, need_two: bool) -> (r: Option<Record>)
    ensures
        match r {
            Option::Some(rec) => parse_card(t@, need_two) == Option::Some(rec@)
                && record::valid_rec(rec@),
            Option::None => parse_card(t@, need_two) is None,
        },
{
    let lines = text::clean_lines_in(t);
    let ghost lv = text::seq_views(lines@);
    let ln = lines.len();
    if ln == 0 || (need_two && ln < 2) {
        return None;
    }
    let line0 = &lines[0];
    proof {
        assert(line0@ == lv[0]);
    }
    let f = text::find_char_in(line0, STAR);
    let prefix = text::subvec(line0, 0, f);
    proof {
        assert(prefix@ =~= lv[0].take(text::find_char(lv[0], STAR)));
    }
    let name_chars = text::trim(&prefix);
    let nl = name_chars.len();
    if nl == 0 || nl >= 100 {
        return None;
    }
    let mut cl: Vec<Vec<char>> = Vec::new();
    let mut i: usize = 1;
    proof {
        assert(text::seq_views(cl@) =~= lv.subrange(1, 1));
    }
    while i < ln && !text::starts_with_at(&lines[i], "Support from", 0)
        invariant
            1 <= i <= ln,
            ln == lines.len(),
            lv == text::seq_views(lines@),
            forall|j: int| 1 <= j < i ==> !text::starts_with(#[trigger] lv[j], "Support from"@),
            text::seq_views(cl@) =~= lv.subrange(1, i as int),
        decreases ln - i,
    {
        let piece = text::subvec(&lines[i], 0, lines[i].len());
        proof {
            assert(piece@ =~= lines@[i as int]@);
        }
        cl.push(piece);
        proof {
            assert(lv.subrange(1, i as int + 1) =~= lv.subrange(1, i as int).push(lv[i as int]));
            assert(text::seq_views(cl@) =~= lv.subrange(1, i as int + 1));
        }
        i += 1;
    }
    let ghost rest = lv.drop_first();
    proof {
        assert(forall|j: int|
            0 <= j < i - 1 ==> !text::starts_with(#[trigger] rest[j], "Support from"@));
        if i < ln {
            assert(text::starts_with(rest[i - 1], "Support from"@));
        }
        lemma_comment_lines_take(rest, i as int - 1);
        assert(rest.take(i as int - 1) =~= lv.subrange(1, i as int));
    }
    let cmt = text::join_space_in(&cl);
    let stars = text::count_char_in(t, STAR);
    let name = text::string_of(&name_chars);
    let comment = if cmt.len() > 0 {
        Some(text::string_of(&cmt))
    } else {
        None
    };
    let rating: Option<u8> = if stars == 0 {
        None
    } else if stars > 255 {
        Some(255)
    } else {
        Some(stars as u8)
    };
    let rec = Record { name, comment, rating };
    proof {
        text::lemma_trim_spec_trimmed(prefix@);
        text::lemma_trim_spec_contains(prefix@);
        text::lemma_find_char_props(lv[0], STAR);
        assert forall|k: int| 0 <= k < name_chars@.len() implies name_chars@[k] != STAR by {
            assert(prefix@.contains(name_chars@[k]));
            let j = choose|j: int| 0 <= j < prefix@.len() && prefix@[j] == name_chars@[k];
            assert(prefix@[j] == lv[0][j]);
        }
        text::lemma_clean_pieces_trimmed(text::split_char(t@, '\n'));
        assert forall|k: int|
            0 <= k < text::seq_views(cl@).len() implies (#[trigger] text::seq_views(cl@)[k]).len()
            > 0 && text::is_trimmed(text::seq_views(cl@)[k]) by {
            assert(text::seq_views(cl@)[k] == lv[1 + k]);
        }
        text::lemma_join_space_trimmed(text::seq_views(cl@));
        assert(rec@ =~= parse_card(t@, need_two)->Some_0);
    }
    Some(rec)
}

/// The records parsed out of a sequence of card texts, in order.
pub open spec fn opt_rec(o: Option<RecView>) -> Seq<RecView> {
    match o {
        Option::Some(r) => seq![r],
        Option::None => Seq::<RecView>::empty(),
    }
}

/// The records of all cards, in document order.
pub open spec fn parse_cards(ts: Seq<Seq<char>>) -> Seq<RecView>
    decreases ts.len(),
{
    if ts.len() == 0 {
        Seq::<RecView>::empty()
    } else {
        parse_cards(ts.drop_last()) + opt_rec(parse_card(ts.last(), false))
    }
}

/// The tier-one/tier-two records contributed by one section sibling: its
/// cards if it has any; else, if its subtree holds an image, the whole
/// sibling read as a single card that needs at least two lines.
pub open spec fn sibling_records(d: DomView) -> Seq<RecView> {
    let ct = dom::card_texts_of(d);
    if ct.len() > 0 {
        parse_cards(ct)
    } else if dom::img_count(d) >= 1 {
        opt_rec(parse_card(dom::node_text(d), true))
    } else {
        Seq::<RecView>::empty()
    }
}

/// The tier-one/tier-two records of the whole section, in order.
pub open spec fn tier12(sec: Seq<DomView>) -> Seq<RecView>
    decreases sec.len(),
{
    if sec.len() == 0 {
        Seq::<RecView>::empty()
    } else {
        tier12(sec.drop_last()) + sibling_records(sec.last())
    }
}

/// A plain-list name is acceptable: non-empty, under 100 characters, free of
/// the rating glyph, and not one of the two known noise phrases.
pub open spec fn good_name(s: Seq<char>) -> bool {
    &&& 0 < s.len() < 100
    &&& !text::starts_with(s, "Get Mad"@)
    &&& !text::starts_with(s, "Currently subscribed"@)
    &&& forall|k: int| 0 <= k < s.len() ==> s[k] != STAR
}

/// The acceptable trimmed names among the comma-split pieces, in order.
pub open spec fn listed_names(ps: Seq<Seq<char>>) -> Seq<Seq<char>>
    decreases ps.len(),
{
    if ps.len() == 0 {
        Seq::<Seq<char>>::empty()
    } else {
        let r = listed_names(ps.drop_last());
        let t = text::trim_spec(ps.last());
        if good_name(t) {
            r.push(t)
        } else {
            r
        }
    }
}

/// The plain-list names in a text: everything after the first occurrence of
/// the list phrase, with the conjunction normalized to a comma, split on
/// commas.
pub open spec fn names_after(t: Seq<char>) -> Seq<Seq<char>> {
    match text::find_sub(t, "Support from"@) {
        Option::None => Seq::<Seq<char>>::empty(),
        Option::Some(i) => listed_names(
            text::split_char(
                text::replace_sub(t.skip(i + "Support from"@.len()), " and "@, ", "@),
                ',',
            ),
        ),
    }
}

/// The tier-three names of the whole section, in order.
pub open spec fn tier3(sec: Seq<DomView>) -> Seq<Seq<char>>
    decreases sec.len(),
{
    if sec.len() == 0 {
        Seq::<Seq<char>>::empty()
    } else {
        tier3(sec.drop_last()) + names_after(dom::node_text(sec.last()))
    }
}

/// Folds card records into the accumulated set, skipping structural
/// duplicates.
pub open spec fn fold_records(acc: Seq<RecView>, rs: Seq<RecView>) -> Seq<RecView>
    decreases rs.len(),
{
    if rs.len() == 0 {
        acc
    } else {
        fold_records(record::add_unique(acc, rs[0]), rs.drop_first())
    }
}

/// Folds plain-list names into the accumulated set, skipping names already
/// present.
pub open spec fn fold_names(acc: Seq<RecView>, ns: Seq<Seq<char>>) -> Seq<RecView>
    decreases ns.len(),
{
    if ns.len() == 0 {
        acc
    } else {
        fold_names(record::add_name_only(acc, ns[0]), ns.drop_first())
    }
}

proof fn lemma_fold_records_concat(acc: Seq<RecView>, xs: Seq<RecView>, ys: Seq<RecView>)
    ensures
        fold_records(acc, xs + ys) == fold_records(fold_records(acc, xs), ys),
    decreases xs.len(),
{
    if xs.len() == 0 {
        assert(xs + ys =~= ys);
    } else {
        assert((xs + ys)[0] == xs[0]);
        assert((xs + ys).drop_first() =~= xs.drop_first() + ys);
        lemma_fold_records_concat(record::add_unique(acc, xs[0]), xs.drop_first(), ys);
    }
}

proof fn lemma_fold_names_concat(acc: Seq<RecView>, xs: Seq<Seq<char>>, ys: Seq<Seq<char>>)
    ensures
        fold_names(acc, xs + ys) == fold_names(fold_names(acc, xs), ys),
    decreases xs.len(),
{
    if xs.len() == 0 {
        assert(xs + ys =~= ys);
    } else {
        assert((xs + ys)[0] == xs[0]);
        assert((xs + ys).drop_first() =~= xs.drop_first() + ys);
        lemma_fold_names_concat(record::add_name_only(acc, xs[0]), xs.drop_first(), ys);
    }
}

/// Folding records that are pairwise distinct, none of which the
/// accumulator holds, appends them all in order.
pub proof fn lemma_fold_records_distinct(acc: Seq<RecView>, rs: Seq<RecView>)
    requires
        crate::diff::distinct(acc + rs),
    ensures
        fold_records(acc, rs) == acc + rs,
    decreases rs.len(),
{
    if rs.len() == 0 {
        assert(acc + rs =~= acc);
    } else {
        let x = rs[0];
        assert(!acc.contains(x)) by {
            if acc.contains(x) {
                let k = choose|k: int| 0 <= k < acc.len() && acc[k] == x;
                assert((acc + rs)[k] == x);
                assert((acc + rs)[acc.len() as int] == x);
            }
        }
        assert(record::add_unique(acc, x) == acc.push(x));
        assert(acc.push(x) + rs.drop_first() =~= acc + rs);
        lemma_fold_records_distinct(acc.push(x), rs.drop_first());
    }
}

/// What extraction yields on a whole tree: nothing without the section; with
/// it, the cards of tiers one and two folded in first, then the plain-list
/// names, deduplicated against them.
pub open spec fn extract_spec(roots: Seq<DomView>) -> Seq<RecView> {
    match dom::section_at(roots) {
        Option::None => Seq::<RecView>::empty(),
        Option::Some(sec) => fold_names(
            fold_records(Seq::<RecView>::empty(), tier12(sec)),
            tier3(sec),
        ),
    }
}

/// The plain-list tier never drops or replaces an earlier record: every
/// member of the accumulated set survives the folding of the tier-three
/// names, so a name-only entry can never overwrite a richer card entry.
pub proof fn lemma_fold_names_keeps_members(acc: Seq<RecView>, ns: Seq<Seq<char>>)
    ensures
        forall|v: RecView| acc.contains(v) ==> #[trigger] fold_names(acc, ns).contains(v),
    decreases ns.len(),
{
    if ns.len() > 0 {
        let acc2 = record::add_name_only(acc, ns[0]);
        lemma_fold_names_keeps_members(acc2, ns.drop_first());
        assert(fold_names(acc, ns) == fold_names(acc2, ns.drop_first()));
        assert forall|v: RecView| acc.contains(v) implies #[trigger] fold_names(
            acc,
            ns,
        ).contains(v) by {
            let k = choose|k: int| 0 <= k < acc.len() && acc[k] == v;
            assert(acc2[k] == v);
            assert(acc2.contains(v));
            assert(fold_names(acc2, ns.drop_first()).contains(v));
        }
    }
}

/// Any member the plain-list tier adds, beyond the accumulated set, is a
/// bare name-only record whose name no accumulated member carries.
pub proof fn lemma_fold_names_adds_only_fresh_names(acc: Seq<RecView>, ns: Seq<Seq<char>>)
    ensures
        forall|v: RecView| #[trigger] fold_names(acc, ns).contains(v) ==> acc.contains(v) || (
        v.comment is None && v.rating is None && !record::has_name(acc, v.name)),
    decreases ns.len(),
{
    if ns.len() > 0 {
        let acc2 = record::add_name_only(acc, ns[0]);
        lemma_fold_names_adds_only_fresh_names(acc2, ns.drop_first());
        assert(fold_names(acc, ns) == fold_names(acc2, ns.drop_first()));
        assert forall|v: RecView| #[trigger] fold_names(acc, ns).contains(v) implies acc.contains(
            v,
        ) || (v.comment is None && v.rating is None && !record::has_name(acc, v.name)) by {
            if acc2.contains(v) {
                let k = choose|k: int| 0 <= k < acc2.len() && acc2[k] == v;
                if k < acc.len() {
                    assert(acc[k] == v);
                } else {
                    assert(!record::has_name(acc, ns[0]));
                }
            } else {
                assert(!record::has_name(acc2, v.name));
                assert(!record::has_name(acc, v.name)) by {
                    if record::has_name(acc, v.name) {
                        let k = choose|k: int| 0 <= k < acc.len() && acc[k].name == v.name;
                        if record::has_name(acc, ns[0]) {
                            assert(acc2[k].name == v.name);
                        } else {
                            assert(acc2[k].name == v.name);
                        }
                    }
                }
            }
        }
    }
}

/// Markup without the section heading yields no records at all.
pub proof fn lemma_no_heading_empty_extraction(roots: Seq<DomView>)
    requires
        !dom::any_support_heading(roots),
    ensures
        extract_spec(roots) == Seq::<RecView>::empty(),
{
    dom::lemma_no_heading_no_section(roots);
}

/// The tier-one/tier-two candidates contributed by one section sibling.
fn sibling_candidates(n: &DomNode) -> (out: Vec<Record>)
    ensures
        record::rec_views(out@) == sibling_records(dom::node_view(*n)),
        forall|i: int| 0 <= i < out@.len() ==> record::valid_rec(#[trigger] out@[i]@),
{
    let mut texts: Vec<Vec<char>> = Vec::new();
    dom::collect_card_texts(n, &mut texts);
    let ghost tv = text::seq_views(texts@);
    proof {
        assert(tv =~= dom::card_texts_of(dom::node_view(*n)));
    }
    let mut out: Vec<Record> = Vec::new();
    if texts.len() > 0 {
        let m = texts.len();
        let mut i: usize = 0;
        while i < m
            invariant
                m == texts.len(),
                i <= m,
                tv == text::seq_views(texts@),
                tv.len() == m,
                record::rec_views(out@) =~= parse_cards(tv.take(i as int)),
                forall|k: int| 0 <= k < out@.len() ==> record::valid_rec(#[trigger] out@[k]@),
            decreases m - i,
        {
            proof {
                assert(tv.take(i as int + 1).drop_last() =~= tv.take(i as int));
                assert(tv.take(i as int + 1).last() == tv[i as int]);
                assert(texts@[i as int]@ == tv[i as int]);
            }
            match parse_card_exec(&texts[i], false) {
                Some(rec) => {
                    out.push(rec);
                },
                None => {},
            }
            i += 1;
            proof {
                assert(record::rec_views(out@) =~= parse_cards(tv.take(i as int)));
            }
        }
        proof {
            assert(tv.take(m as int) =~= tv);
        }
    } else {
        proof {
            assert(tv.len() == 0);
        }
        if dom::img_capped(n) >= 1 {
            let t = dom::node_text_exec(n);
            match parse_card_exec(&t, true) {
                Some(rec) => {
                    out.push(rec);
                },
                None => {},
            }
        }
        proof {
            assert(record::rec_views(out@) =~= sibling_records(dom::node_view(*n)));
        }
    }
    out
}

/// The tier-three names contributed by one section sibling.
fn sibling_names(n: &DomNode) -> (out: Vec<String>)
    ensures
        text::str_seq_views(out@) == names_after(dom::node_text(dom::node_view(*n))),
        forall|i: int| 0 <= i < out@.len() ==> record::valid_name(#[trigger] out@[i]@),
{
    let t = dom::node_text_exec(n);
    let found = text::find_sub_in(&t, "Support from");
    match found {
        None => {
            let out: Vec<String> = Vec::new();
            proof {
                assert(text::str_seq_views(out@) =~= Seq::<Seq<char>>::empty());
            }
            out
        },
        Some(i) => {
            proof {
                text::lemma_find_sub_props(t@, "Support from"@);
                reveal_strlit(" and ");
            }
            let plen = "Support from".unicode_len();
            let after = text::subvec(&t, i + plen, t.len());
            proof {
                assert(after@ =~= t@.skip(i + "Support from"@.len()));
            }
            let norm = text::replace_sub_in(&after, " and ", ", ");
            let pieces = text::split_char_in(&norm, ',');
            let ghost pv = text::seq_views(pieces@);
            let m = pieces.len();
            let mut out: Vec<String> = Vec::new();
            let mut k: usize = 0;
            proof {
                assert(text::str_seq_views(out@) =~= listed_names(pv.take(0)));
            }
            while k < m
                invariant
                    m == pieces.len(),
                    k <= m,
                    pv == text::seq_views(pieces@),
                    pv.len() == m,
                    text::str_seq_views(out@) =~= listed_names(pv.take(k as int)),
                    forall|j: int| 0 <= j < out@.len() ==> record::valid_name(#[trigger] out@[j]@),
                decreases m - k,
            {
                proof {
                    assert(pv.take(k as int + 1).drop_last() =~= pv.take(k as int));
                    assert(pv.take(k as int + 1).last() == pv[k as int]);
                    assert(pieces@[k as int]@ == pv[k as int]);
                }
                let tn = text::trim(&pieces[k]);
                let l = tn.len();
                let no_star = text::find_char_in(&tn, STAR) == l;
                proof {
                    text::lemma_find_char_props(tn@, STAR);
                    text::lemma_trim_spec_trimmed(pv[k as int]);
                }
                let good = l > 0 && l < 100 && !text::starts_with_at(&tn, "Get Mad", 0)
                    && !text::starts_with_at(&tn, "Currently subscribed", 0) && no_star;
                proof {
                    if !no_star {
                        assert(tn@[text::find_char(tn@, STAR)] == STAR);
                    }
                    assert(good == good_name(text::trim_spec(pv[k as int])));
                }
                if good {
                    out.push(text::string_of(&tn));
                }
                k += 1;
                proof {
                    assert(text::str_seq_views(out@) =~= listed_names(pv.take(k as int)));
                }
            }
            proof {
                assert(pv.take(m as int) =~= pv);
            }
            out
        },
    }
}

/// Extracts the supporter records from a parsed markup tree. The result is
/// exactly what the tiered specification describes; it is free of
/// structural duplicates, and every record meets the record invariant;
/// in particular, a candidate name of 100 or more characters is rejected at
/// every tier.
pub fn extract_from_dom(roots: &Vec<DomNode>) -> (r: RecordSet)
    ensures
        r@ == extract_spec(dom::nodes_view(roots@)),
        r.wf(),
        forall|i: int| 0 <= i < r@.len() ==> record::valid_rec(#[trigger] r@[i]),
{
    let sec_opt = dom::section_at_exec(roots);
    match sec_opt {
        None => {
            let r = RecordSet::new();
            r
        },
        Some((v, a, b)) => {
            let ghost sec = dom::nodes_view(v@.subrange(a as int, b as int));
            proof {
                dom::lemma_nodes_view(v@.subrange(a as int, b as int));
            }
            let mut rs = RecordSet::new();
            let mut i: usize = a;
            proof {
                assert(rs@ =~= fold_records(Seq::<RecView>::empty(), tier12(sec.take(0))));
            }
            while i < b
                invariant
                    a <= i <= b <= v.len(),
                    sec == dom::nodes_view(v@.subrange(a as int, b as int)),
                    sec.len() == b - a,
                    rs@ == fold_records(Seq::<RecView>::empty(), tier12(sec.take(i - a))),
                    rs.wf(),
                    forall|k: int| 0 <= k < rs@.len() ==> record::valid_rec(#[trigger] rs@[k]),
                decreases b - i,
            {
                proof {
                    dom::lemma_nodes_view(v@.subrange(a as int, b as int));
                    assert(sec[i - a] == dom::node_view(v@.subrange(a as int, b as int)[i - a]));
                    assert(v@.subrange(a as int, b as int)[i - a] == v@[i as int]);
                    assert(sec.take(i - a + 1).drop_last() =~= sec.take(i - a));
                    assert(sec.take(i - a + 1).last() == sec[i - a]);
                }
                let cands = sibling_candidates(&v[i]);
                let ghost cv = record::rec_views(cands@);
                let ghost acc0 = rs@;
                let cn = cands.len();
                let mut j: usize = 0;
                proof {
                    assert(cv.take(0) =~= Seq::<RecView>::empty());
                }
                while j < cn
                    invariant
                        cn == cands.len(),
                        j <= cn,
                        cv == record::rec_views(cands@),
                        cv.len() == cn,
                        forall|k: int| 0 <= k < cands@.len() ==> record::valid_rec(
                            #[trigger] cands@[k]@,
                        ),
                        rs@ == fold_records(acc0, cv.take(j as int)),
                        rs.wf(),
                        forall|k: int| 0 <= k < rs@.len() ==> record::valid_rec(#[trigger] rs@[k]),
                    decreases cn - j,
                {
                    let ghost pre = rs@;
                    let c = cands[j].clone();
                    proof {
                        assert(c@ == cv[j as int]);
                    }
                    rs.insert(c);
                    j += 1;
                    proof {
                        assert(cv.take(j as int).drop_last() =~= cv.take(j as int - 1));
                        lemma_fold_records_step(acc0, cv, j as int);
                        assert(rs@ == fold_records(acc0, cv.take(j as int)));
                    }
                }
                proof {
                    assert(cv.take(cn as int) =~= cv);
                    lemma_fold_records_concat(
                        Seq::<RecView>::empty(),
                        tier12(sec.take(i - a)),
                        cv,
                    );
                    assert(tier12(sec.take(i - a)) + sibling_records(sec[i - a]) == tier12(
                        sec.take(i - a + 1),
                    ));
                }
                i += 1;
            }
            proof {
                assert(sec.take(b - a) =~= sec);
            }
            let ghost acc_mid = rs@;
            let mut i2: usize = a;
            proof {
                assert(tier3(sec.take(0)) =~= Seq::<Seq<char>>::empty());
                assert(rs@ =~= fold_names(acc_mid, tier3(sec.take(0))));
            }
            while i2 < b
                invariant
                    a <= i2 <= b <= v.len(),
                    sec == dom::nodes_view(v@.subrange(a as int, b as int)),
                    sec.len() == b - a,
                    rs@ == fold_names(acc_mid, tier3(sec.take(i2 - a))),
                    rs.wf(),
                    forall|k: int| 0 <= k < rs@.len() ==> record::valid_rec(#[trigger] rs@[k]),
                decreases b - i2,
            {
                proof {
                    dom::lemma_nodes_view(v@.subrange(a as int, b as int));
                    assert(sec[i2 - a] == dom::node_view(v@.subrange(a as int, b as int)[i2 - a]));
                    assert(v@.subrange(a as int, b as int)[i2 - a] == v@[i2 as int]);
                    assert(sec.take(i2 - a + 1).drop_last() =~= sec.take(i2 - a));
                    assert(sec.take(i2 - a + 1).last() == sec[i2 - a]);
                }
                let names = sibling_names(&v[i2]);
                let ghost nv = text::str_seq_views(names@);
                let ghost acc1 = rs@;
                let nn = names.len();
                let mut j: usize = 0;
                while j < nn
                    invariant
                        nn == names.len(),
                        j <= nn,
                        nv == text::str_seq_views(names@),
                        nv.len() == nn,
                        forall|k: int| 0 <= k < names@.len() ==> record::valid_name(
                            #[trigger] names@[k]@,
                        ),
                        rs@ == fold_names(acc1, nv.take(j as int)),
                        rs.wf(),
                        forall|k: int| 0 <= k < rs@.len() ==> record::valid_rec(#[trigger] rs@[k]),
                    decreases nn - j,
                {
                    let ghost pre = rs@;
                    let name = names[j].clone();
                    proof {
                        assert(name@ == nv[j as int]);
                    }
                    rs.insert_name_only(name);
                    j += 1;
                    proof {
                        assert(nv.take(j as int).drop_last() =~= nv.take(j as int - 1));
                        lemma_fold_names_step(acc1, nv, j as int);
                        assert(rs@ == fold_names(acc1, nv.take(j as int)));
                    }
                }
                proof {
                    assert(nv.take(nn as int) =~= nv);
                    lemma_fold_names_concat(acc_mid, tier3(sec.take(i2 - a)), nv);
                    assert(tier3(sec.take(i2 - a)) + names_after(dom::node_text(sec[i2 - a]))
                        == tier3(sec.take(i2 - a + 1)));
                }
                i2 += 1;
            }
            proof {
                assert(sec.take(b - a) =~= sec);
            }
            rs
        },
    }
}

/// A usable page title: non-empty once trimmed, holding a dash (the
/// artist-title separator) and not the site's own name.
pub open spec fn good_title(t: Seq<char>) -> bool {
    let u = text::trim_spec(t);
    &&& u.len() > 0
    &&& text::find_char(u, '-') < u.len()
    &&& text::find_sub(u, "Inflyte"@) is None
}

/// The page title found inside one subtree: the first primary heading whose
/// text is usable, trimmed.
pub open spec fn title_in(d: DomView) -> Option<Seq<char>>
    decreases d,
{
    match d {
        DomView::Text(_) => Option::None,
        DomView::Elem { tag, children } => {
            if tag == "h1"@ && good_title(dom::node_text(d)) {
                Option::Some(text::trim_spec(dom::node_text(d)))
            } else {
                title_at(children)
            }
        },
    }
}

/// The page title found among these subtrees, in document order.
pub open spec fn title_at(cs: Seq<DomView>) -> Option<Seq<char>>
    decreases cs,
{
    if cs.len() == 0 {
        Option::None
    } else {
        match title_in(cs[0]) {
            Option::Some(t) => Option::Some(t),
            Option::None => title_at(cs.drop_first()),
        }
    }
}

/// Finds the page title inside one subtree.
pub fn title_in_exec(n: &DomNode) -> (r: Option<String>)
    ensures
        match r {
            Option::Some(s) => title_in(dom::node_view(*n)) == Option::Some(s@),
            Option::None => title_in(dom::node_view(*n)) is None,
        },
    decreases *n,
{
    match n {
        DomNode::Text(_) => None,
        DomNode::Element { tag, children } => {
            if text::str_eq(tag.as_str(), "h1") {
                let t = dom::node_text_exec(n);
                let u = text::trim(&t);
                let ul = u.len();
                let dash = text::find_char_in(&u, '-');
                let infl = text::find_sub_in(&u, "Inflyte");
                if ul > 0 && dash < ul && infl.is_none() {
                    return Some(text::string_of(&u));
                }
            }
            proof {
                assert(decreases_to!(*n => *children));
            }
            title_at_exec(children)
        },
    }
}

/// Finds the page title among these subtrees.
pub fn title_at_exec(cs: &Vec<DomNode>) -> (r: Option<String>)
    ensures
        match r {
            Option::Some(s) => title_at(dom::nodes_view(cs@)) == Option::Some(s@),
            Option::None => title_at(dom::nodes_view(cs@)) is None,
        },
    decreases cs,
{
    let ghost full = dom::nodes_view(cs@);
    proof {
        dom::lemma_nodes_view(cs@);
        assert(full.skip(0) =~= full);
    }
    let n = cs.len();
    let mut i: usize = 0;
    while i < n
        invariant
            n == cs.len(),
            i <= n,
            full == dom::nodes_view(cs@),
            full.len() == n,
            title_at(full) == title_at(full.skip(i as int)),
        decreases n - i,
    {
        proof {
            dom::lemma_nodes_view(cs@);
            assert(full.skip(i as int)[0] == full[i as int]);
            assert(full.skip(i as int).drop_first() =~= full.skip(i as int + 1));
            assert(decreases_to!(cs => cs@));
            assert(decreases_to!(cs@ => cs@[i as int]));
        }
        let inner = title_in_exec(&cs[i]);
        if inner.is_some() {
            return inner;
        }
        i += 1;
    }
    proof {
        assert(full.skip(n as int) =~= Seq::<DomView>::empty());
    }
    None
}

pub proof fn lemma_fold_records_step(acc: Seq<RecView>, rs: Seq<RecView>, j: int)
    requires
        0 < j <= rs.len(),
    ensures
        fold_records(acc, rs.take(j)) == record::add_unique(
            fold_records(acc, rs.take(j - 1)),
            rs[j - 1],
        ),
{
    lemma_fold_records_concat(acc, rs.take(j - 1), seq![rs[j - 1]]);
    assert(rs.take(j - 1) + seq![rs[j - 1]] =~= rs.take(j));
    let acc2 = fold_records(acc, rs.take(j - 1));
    let single = seq![rs[j - 1]];
    assert(single[0] == rs[j - 1]);
    assert(single.drop_first() =~= Seq::<RecView>::empty());
    assert(fold_records(acc2, single) == fold_records(
        record::add_unique(acc2, rs[j - 1]),
        single.drop_first(),
    ));
    assert(fold_records(record::add_unique(acc2, rs[j - 1]), single.drop_first())
        == record::add_unique(acc2, rs[j - 1]));
}

proof fn lemma_fold_names_step(acc: Seq<RecView>, ns: Seq<Seq<char>>, j: int)
    requires
        0 < j <= ns.len(),
    ensures
        fold_names(acc, ns.take(j)) == record::add_name_only(
            fold_names(acc, ns.take(j - 1)),
            ns[j - 1],
        ),
{
    lemma_fold_names_concat(acc, ns.take(j - 1), seq![ns[j - 1]]);
    assert(ns.take(j - 1) + seq![ns[j - 1]] =~= ns.take(j));
    let acc2 = fold_names(acc, ns.take(j - 1));
    let single = seq![ns[j - 1]];
    assert(single[0] == ns[j - 1]);
    assert(single.drop_first() =~= Seq::<Seq<char>>::empty());
    assert(fold_names(acc2, single) == fold_names(
        record::add_name_only(acc2, ns[j - 1]),
        single.drop_first(),
    ));
    assert(fold_names(record::add_name_only(acc2, ns[j - 1]), single.drop_first())
        == record::add_name_only(acc2, ns[j - 1]));
}

} // verus!
