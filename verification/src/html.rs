use dom_query::Document;

use vstd::prelude::*;

use crate::extract::{decimal_text, u32_text};

verus! {

/// An ASCII letter.
pub open spec fn is_ascii_letter(c: char) -> bool {
    ('a' <= c && c <= 'z') || ('A' <= c && c <= 'Z')
}

/// A tag name: an ASCII letter, then ASCII letters, digits and hyphens. A
/// selector made of such a name alone is valid CSS.
pub open spec fn is_tag_name(s: Seq<char>) -> bool {
    &&& s.len() > 0
    &&& is_ascii_letter(s[0])
    &&& forall|i: int|
        1 <= i < s.len() ==> is_ascii_letter(#[trigger] s[i]) || ('0' <= s[i] && s[i] <= '9') || s[i]
            == '-'
}

/// What dom_query reads from `html`: for each element with tag `tag`, in
/// document order, the values of its attributes `first` and `second`. It
/// depends on these four strings alone.
pub uninterp spec fn tagged_attributes(
    html: Seq<char>,
    tag: Seq<char>,
    first: Seq<char>,
    second: Seq<char>,
) -> Seq<(Option<Seq<char>>, Option<Seq<char>>)>;

/// The abstract value of an optional string.
pub open spec fn opt_view(s: Option<String>) -> Option<Seq<char>> {
    match s {
        Some(v) => Some(v@),
        None => None,
    }
}

/// The abstract value of a pair of optional strings.
pub open spec fn pair_view(p: (Option<String>, Option<String>)) -> (Option<Seq<char>>, Option<Seq<char>>) {
    (opt_view(p.0), opt_view(p.1))
}

/// dom_query's `Document::from`, `select` and `attr`: parses `html` and
/// reads, for each element with tag `tag` in document order, its attributes
/// `first` and `second`. The contract claims only that the result is the one
/// named by [`tagged_attributes`]; `select` panics on a selector that is not
/// valid CSS, which a tag name always is.
#[verifier::external_body]
pub(crate) fn attribute_pairs(html: &str, tag: &str, first: &str, second: &str) -> (r: Vec<
    (Option<String>, Option<String>),
>)
    requires
        is_tag_name(tag@),
    ensures
        r@.map_values(|p: (Option<String>, Option<String>)| pair_view(p)) == tagged_attributes(
            html@,
            tag@,
            first@,
            second@,
        ),
{
    let document = Document::from(html);
    let mut pairs = Vec::new();
    for e in document.select(tag).iter() {
        let a = match e.attr(first) { Some(v) => Some(v.to_string()), None => None };
        let b = match e.attr(second) { Some(v) => Some(v.to_string()), None => None };
        pairs.push((a, b));
    }
    pairs
}

/// What dom_query finds when it parses `html`: the number of elements with
/// tag `tag`. It depends on these two strings alone.
pub uninterp spec fn tag_count(html: Seq<char>, tag: Seq<char>) -> usize;

/// What dom_query finds when it parses `html`: the value of attribute
/// `attr` of the element at `index` among those with tag `tag` (none when
/// the element lacks it or there is no such element).
pub uninterp spec fn element_attribute(html: Seq<char>, tag: Seq<char>, index: usize, attr: Seq<char>) -> Option<Seq<char>>;

/// What dom_query finds when it parses `html`: for each element with tag
/// `inner` inside the element at `index` among those with tag `tag`, in
/// document order, its attributes `first` and `second`.
pub uninterp spec fn element_inner_pairs(
    html: Seq<char>,
    tag: Seq<char>,
    index: usize,
    inner: Seq<char>,
    first: Seq<char>,
    second: Seq<char>,
) -> Seq<(Option<Seq<char>>, Option<Seq<char>>)>;

/// What dom_query finds when it parses `html`: whether the first child
/// element of the element at `index` among those with tag `tag` has tag
/// `name`.
pub uninterp spec fn first_child_tagged(html: Seq<char>, tag: Seq<char>, index: usize, name: Seq<char>) -> bool;

/// What dom_query finds when it parses `html`: the HTML inside the first
/// child element of the element at `index` among those with tag `tag`.
pub uninterp spec fn first_child_html(html: Seq<char>, tag: Seq<char>, index: usize) -> Seq<char>;

/// What dom_query finds when it parses `html`: the text of the first child
/// element of the element at `index` among those with tag `tag`.
pub uninterp spec fn first_child_content(html: Seq<char>, tag: Seq<char>, index: usize) -> Seq<char>;

/// What dom_query finds when it parses `html`: the HTML inside the element
/// at `index` among those with tag `tag`.
pub uninterp spec fn element_html(html: Seq<char>, tag: Seq<char>, index: usize) -> Seq<char>;

/// The document that dom_query writes out after parsing `html` and taking
/// out the first child element of the element at `index` among those with
/// tag `tag`.
pub uninterp spec fn without_first_child(html: Seq<char>, tag: Seq<char>, index: usize) -> Seq<char>;

/// The document that dom_query writes out after parsing `html` and putting
/// the parsed `replacement` in place of the element at `index` among those
/// with tag `tag`.
pub uninterp spec fn with_element_replaced(
    html: Seq<char>,
    tag: Seq<char>,
    index: usize,
    replacement: Seq<char>,
) -> Seq<char>;

/// The document that dom_query writes out after parsing `html` and taking
/// out the element at `index` among those with tag `tag`.
pub uninterp spec fn without_element(html: Seq<char>, tag: Seq<char>, index: usize) -> Seq<char>;

/// The document that dom_query writes out after parsing `html`, giving
/// every element with tag `tag` the tag `name` and setting its attribute
/// `attr` to `value`.
pub uninterp spec fn renamed_and_marked(
    html: Seq<char>,
    tag: Seq<char>,
    name: Seq<char>,
    attr: Seq<char>,
    value: Seq<char>,
) -> Seq<char>;

/// dom_query's `Document::from`, `select` and `length`: the number of
/// elements with tag `tag` in `html`. The contract claims only that the
/// result is the one named by [`tag_count`]; `select` panics on a selector
/// that is not valid CSS, which a tag name always is.
#[verifier::external_body]
pub(crate) fn html_tag_count(html: &str, tag: &str) -> (n: usize)
    requires
        is_tag_name(tag@),
    ensures
        n == tag_count(html@, tag@),
{
    Document::from(html).select(tag).length()
}

/// dom_query's `Document::from`, `select` and `attr`: the attribute `attr`
/// of the element at `index` among those with tag `tag` in `html`. The
/// contract claims only that the result is the one named by
/// [`element_attribute`].
#[verifier::external_body]
pub(crate) fn html_attribute(html: &str, tag: &str, index: usize, attr: &str) -> (v: Option<String>)
    requires
        is_tag_name(tag@),
    ensures
        opt_view(v) == element_attribute(html@, tag@, index, attr@),
{
    match Document::from(html).select(tag).iter().nth(index) {
        Some(e) => match e.attr(attr) {
            Some(v) => Some(v.to_string()),
            None => None,
        },
        None => None,
    }
}

/// dom_query's `Document::from`, `select` and `attr`: for each element with
/// tag `inner` inside the element at `index` among those with tag `tag` in
/// `html`, its attributes `first` and `second`. The contract claims only
/// that the result is the one named by [`element_inner_pairs`].
#[verifier::external_body]
pub(crate) fn html_inner_pairs(
    html: &str,
    tag: &str,
    index: usize,
    inner: &str,
    first: &str,
    second: &str,
) -> (r: Vec<(Option<String>, Option<String>)>)
    requires
        is_tag_name(tag@),
        is_tag_name(inner@),
    ensures
        r@.map_values(|p: (Option<String>, Option<String>)| pair_view(p)) == element_inner_pairs(
            html@,
            tag@,
            index,
            inner@,
            first@,
            second@,
        ),
{
    let mut pairs = Vec::new();
    if let Some(e) = Document::from(html).select(tag).iter().nth(index) {
        for x in e.select(inner).iter() {
            let a = match x.attr(first) { Some(v) => Some(v.to_string()), None => None };
            let b = match x.attr(second) { Some(v) => Some(v.to_string()), None => None };
            pairs.push((a, b));
        }
    }
    pairs
}

/// dom_query's `Document::from`, `select`, `children`, `first` and
/// `has_name`: whether the first child element of the element at `index`
/// among those with tag `tag` in `html` has tag `name`. The contract claims
/// only that the result is the one named by [`first_child_tagged`].
#[verifier::external_body]
pub(crate) fn html_first_child_is(html: &str, tag: &str, index: usize, name: &str) -> (b: bool)
    requires
        is_tag_name(tag@),
    ensures
        b == first_child_tagged(html@, tag@, index, name@),
{
    match Document::from(html).select(tag).iter().nth(index) {
        Some(e) => match e.children().first().nodes().first() {
            Some(n) => n.has_name(name),
            None => false,
        },
        None => false,
    }
}

/// dom_query's `Document::from`, `select`, `children`, `first` and
/// `inner_html`: the HTML inside the first child element of the element at
/// `index` among those with tag `tag` in `html`. The contract claims only
/// that the result is the one named by [`first_child_html`].
#[verifier::external_body]
pub(crate) fn html_first_child_inner(html: &str, tag: &str, index: usize) -> (s: String)
    requires
        is_tag_name(tag@),
    ensures
        s@ == first_child_html(html@, tag@, index),
{
    match Document::from(html).select(tag).iter().nth(index) {
        Some(e) => e.children().first().inner_html().to_string(),
        None => String::new(),
    }
}

/// dom_query's `Document::from`, `select`, `children`, `first` and `text`:
/// the text of the first child element of the element at `index` among
/// those with tag `tag` in `html`. The contract claims only that the result
/// is the one named by [`first_child_content`].
#[verifier::external_body]
pub(crate) fn html_first_child_text(html: &str, tag: &str, index: usize) -> (s: String)
    requires
        is_tag_name(tag@),
    ensures
        s@ == first_child_content(html@, tag@, index),
{
    match Document::from(html).select(tag).iter().nth(index) {
        Some(e) => e.children().first().text().to_string(),
        None => String::new(),
    }
}

/// dom_query's `Document::from`, `select` and `inner_html`: the HTML inside
/// the element at `index` among those with tag `tag` in `html`. The
/// contract claims only that the result is the one named by
/// [`element_html`].
#[verifier::external_body]
pub(crate) fn html_inner(html: &str, tag: &str, index: usize) -> (s: String)
    requires
        is_tag_name(tag@),
    ensures
        s@ == element_html(html@, tag@, index),
{
    match Document::from(html).select(tag).iter().nth(index) {
        Some(e) => e.inner_html().to_string(),
        None => String::new(),
    }
}

/// dom_query's `Document::from`, `select`, `children`, `first`, `remove`
/// and `Document::html`: the document without the first child element of
/// the element at `index` among those with tag `tag`. The contract claims
/// only that the result is the one named by [`without_first_child`].
#[verifier::external_body]
pub(crate) fn html_remove_first_child(html: &str, tag: &str, index: usize) -> (r: String)
    requires
        is_tag_name(tag@),
    ensures
        r@ == without_first_child(html@, tag@, index),
{
    let document = Document::from(html);
    if let Some(e) = document.select(tag).iter().nth(index) {
        e.children().first().remove();
    }
    document.html().to_string()
}

/// dom_query's `Document::from`, `select`, `replace_with_html` and
/// `Document::html`: the document with the parsed `replacement` in place of
/// the element at `index` among those with tag `tag`. The contract claims
/// only that the result is the one named by [`with_element_replaced`].
#[verifier::external_body]
pub(crate) fn html_replace(html: &str, tag: &str, index: usize, replacement: &str) -> (r: String)
    requires
        is_tag_name(tag@),
    ensures
        r@ == with_element_replaced(html@, tag@, index, replacement@),
{
    let document = Document::from(html);
    if let Some(e) = document.select(tag).iter().nth(index) {
        e.replace_with_html(replacement);
    }
    document.html().to_string()
}

/// dom_query's `Document::from`, `select`, `remove` and `Document::html`:
/// the document without the element at `index` among those with tag `tag`.
/// The contract claims only that the result is the one named by
/// [`without_element`].
#[verifier::external_body]
pub(crate) fn html_remove(html: &str, tag: &str, index: usize) -> (r: String)
    requires
        is_tag_name(tag@),
    ensures
        r@ == without_element(html@, tag@, index),
{
    let document = Document::from(html);
    if let Some(e) = document.select(tag).iter().nth(index) {
        e.remove();
    }
    document.html().to_string()
}

/// dom_query's `Document::from`, `select`, `rename`, `set_attr` and
/// `Document::html`: the document in which every element with tag `tag`
/// has the tag `name` and its attribute `attr` set to `value`. The contract
/// claims only that the result is the one named by [`renamed_and_marked`].
#[verifier::external_body]
fn html_rename_marked(html: &str, tag: &str, name: &str, attr: &str, value: &str) -> (r: String)
    requires
        is_tag_name(tag@),
    ensures
        r@ == renamed_and_marked(html@, tag@, name@, attr@, value@),
{
    let document = Document::from(html);
    let selection = document.select(tag);
    selection.rename(name);
    selection.set_attr(attr, value);
    document.html().to_string()
}

/// The heading tag of level `n` (1 to 6).
pub open spec fn heading_tag(n: u8) -> Seq<char> {
    seq!['h', (('0' as u8) + n) as char]
}

fn heading_name(n: u8) -> (s: String)
    requires
        1 <= n <= 6,
    ensures
        s@ == heading_tag(n),
        is_tag_name(s@),
{
    let s = if n == 1 {
        String::from_str("h1")
    } else if n == 2 {
        String::from_str("h2")
    } else if n == 3 {
        String::from_str("h3")
    } else if n == 4 {
        String::from_str("h4")
    } else if n == 5 {
        String::from_str("h5")
    } else {
        String::from_str("h6")
    };
    proof {
        reveal_strlit("h1");
        reveal_strlit("h2");
        reveal_strlit("h3");
        reveal_strlit("h4");
        reveal_strlit("h5");
        reveal_strlit("h6");
        assert(s@ =~= heading_tag(n));
    }
    s
}

/// The level that heading level `n` takes when demoted by `levels`: the
/// sum, capped at 6.
pub open spec fn demoted_level(n: int, levels: u32) -> int {
    if n + levels <= 6 {
        n + levels
    } else {
        6
    }
}

/// The renames that demoting by `levels` makes, in order: from level 6 down
/// to level 1, each level that moves, with the level it moves to.
pub open spec fn demotion_plan(levels: u32) -> Seq<(u8, u8)> {
    Seq::new(6, |i: int| 6 - i).filter(|n: int| demoted_level(n, levels) != n).map_values(
        |n: int| (n as u8, demoted_level(n, levels) as u8),
    )
}

/// Demoting by one level or more renames every heading level but 6, in
/// order from level 5 down to level 1, each to its level plus `levels`
/// capped at 6; level 6 stays. Demoting by no level renames nothing.
pub proof fn lemma_demotion_plan_levels(levels: u32)
    ensures
        levels == 0 ==> demotion_plan(levels).len() == 0,
        levels >= 1 ==> demotion_plan(levels).len() == 5,
        levels >= 1 ==> forall|i: int|
            0 <= i < 5 ==> {
                let from = 5 - i;
                &&& (#[trigger] demotion_plan(levels)[i]).0 == from
                &&& demotion_plan(levels)[i].1 == (if from + levels <= 6 { from + levels } else { 6 })
            },
{
    let all = Seq::new(6, |i: int| 6 - i);
    let keep = |n: int| demoted_level(n, levels) != n;
    let step = |n: int| (n as u8, demoted_level(n, levels) as u8);
    reveal(Seq::filter);
    assert(all.take(0) =~= Seq::<int>::empty());
    assert(all.take(6) =~= all);
    let f1 = all.take(1).filter(keep);
    let f2 = all.take(2).filter(keep);
    let f3 = all.take(3).filter(keep);
    let f4 = all.take(4).filter(keep);
    let f5 = all.take(5).filter(keep);
    let f6 = all.take(6).filter(keep);
    assert(all.take(1).drop_last() =~= all.take(0));
    assert(all.take(2).drop_last() =~= all.take(1));
    assert(all.take(3).drop_last() =~= all.take(2));
    assert(all.take(4).drop_last() =~= all.take(3));
    assert(all.take(5).drop_last() =~= all.take(4));
    assert(all.take(6).drop_last() =~= all.take(5));
    assert(all.take(0).filter(keep) =~= Seq::<int>::empty());
    assert(all.take(1).last() == 6);
    assert(!keep(6));
    if levels == 0 {
        assert(f1 =~= Seq::<int>::empty());
        assert(f2 =~= Seq::<int>::empty());
        assert(f3 =~= Seq::<int>::empty());
        assert(f4 =~= Seq::<int>::empty());
        assert(f5 =~= Seq::<int>::empty());
        assert(f6 =~= Seq::<int>::empty());
    } else {
        assert(f1 =~= Seq::<int>::empty());
        assert(f2 =~= seq![5int]);
        assert(f3 =~= seq![5int, 4]);
        assert(f4 =~= seq![5int, 4, 3]);
        assert(f5 =~= seq![5int, 4, 3, 2]);
        assert(f6 =~= seq![5int, 4, 3, 2, 1]);
        assert(demotion_plan(levels) == f6.map_values(step));
    }
}

/// The renames that demoting headings by `levels` makes: from level 6 down
/// to level 1, each level whose demoted level (the sum, capped at 6)
/// differs, with that level.
pub fn demotion_steps(levels: u32) -> (steps: Vec<(u8, u8)>)
    ensures
        steps@ == demotion_plan(levels),
{
    let ghost all = Seq::new(6, |i: int| 6 - i);
    let ghost keep = |n: int| demoted_level(n, levels) != n;
    let ghost step = |n: int| (n as u8, demoted_level(n, levels) as u8);
    let mut steps: Vec<(u8, u8)> = Vec::new();
    let mut n: u8 = 6;
    proof {
        assert(all.take(0).filter(keep) =~= Seq::<int>::empty());
    }
    while n >= 1
        invariant
            0 <= n <= 6,
            all == Seq::new(6, |i: int| 6 - i),
            keep == (|n: int| demoted_level(n, levels) != n),
            step == (|n: int| (n as u8, demoted_level(n, levels) as u8)),
            steps@ == all.take(6 - n).filter(keep).map_values(step),
        decreases n,
    {
        let m: u8 = if (n as u64) + (levels as u64) <= 6 {
            n + (levels as u8)
        } else {
            6
        };
        let ghost i = 6 - n;
        proof {
            assert(all.take(i + 1).drop_last() =~= all.take(i));
            assert(all.take(i + 1).last() == n as int);
            reveal(Seq::filter);
        }
        if m != n {
            steps.push((n, m));
            proof {
                assert(all.take(i + 1).filter(keep) =~= all.take(i).filter(keep).push(n as int));
                assert(steps@ =~= all.take(i + 1).filter(keep).map_values(step));
            }
        } else {
            proof {
                assert(all.take(i + 1).filter(keep) =~= all.take(i).filter(keep));
            }
        }
        n = n - 1;
    }
    proof {
        assert(all.take(6) =~= all);
    }
    steps
}

/// The document after the renames `steps`, applied in order from `html`:
/// each moves the headings of its first level to its second and marks them
/// with a `data-demoted` attribute holding `marker`.
pub open spec fn renamed_headings(html: Seq<char>, steps: Seq<(u8, u8)>, marker: Seq<char>) -> Seq<char>
    decreases steps.len(),
{
    if steps.len() == 0 {
        html
    } else {
        renamed_and_marked(
            renamed_headings(html, steps.drop_last(), marker),
            heading_tag(steps.last().0),
            heading_tag(steps.last().1),
            "data-demoted"@,
            marker,
        )
    }
}

/// An HTML fragment with its headings demoted by `levels`: unchanged with
/// no levels to demote by; otherwise the HTML inside the body of the
/// document after the renames of [`demotion_plan`], each marking the
/// headings it moves with `levels` written in decimal.
pub open spec fn demoted_headings(html: Seq<char>, levels: u32) -> Seq<char> {
    if levels == 0 {
        html
    } else {
        element_html(renamed_headings(html, demotion_plan(levels), decimal_text(levels)), "body"@, 0)
    }
}

/// Demotes the headings of an HTML fragment by `levels`: each heading of
/// level `n` becomes one of level `n + levels`, capped at 6, and is marked
/// with a `data-demoted` attribute holding `levels`. With no levels to
/// demote by, the fragment is returned as it is.
pub fn demote_headings_html(html: String, levels: u32) -> (r: String)
    ensures
        r@ == demoted_headings(html@, levels),
{
    if levels == 0 {
        return html;
    }
    let steps = demotion_steps(levels);
    let marker = u32_text(levels);
    let attr = "data-demoted";
    proof {
        reveal_strlit("data-demoted");
    }
    let ghost source = html@;
    let mut current = html;
    let mut i: usize = 0;
    while i < steps.len()
        invariant
            steps@ == demotion_plan(levels),
            marker@ == decimal_text(levels),
            attr@ == "data-demoted"@,
            i <= steps@.len(),
            current@ == renamed_headings(source, steps@.take(i as int), marker@),
        decreases steps.len() - i,
    {
        let (n, m) = steps[i];
        proof {
            let all = Seq::new(6, |i: int| 6 - i);
            let keep = |n: int| demoted_level(n, levels) != n;
            let kept = all.filter(keep);
            assert(kept.len() == steps@.len());
            assert(kept.contains(kept[i as int]));
            all.lemma_filter_contains_rev(keep, kept[i as int]);
            assert(all.contains(kept[i as int]));
        }
        let from = heading_name(n);
        let to = heading_name(m);
        current = html_rename_marked(current.as_str(), from.as_str(), to.as_str(), attr, marker.as_str());
        proof {
            assert(steps@.take(i + 1).drop_last() =~= steps@.take(i as int));
            assert(steps@.take(i + 1).last() == steps@[i as int]);
        }
        i = i + 1;
    }
    proof {
        assert(steps@.take(steps@.len() as int) =~= steps@);
    }
    let body = "body";
    proof {
        reveal_strlit("body");
    }
    html_inner(current.as_str(), body, 0)
}

/// The template filter that demotes headings: by `levels`, or by one level
/// when none is given.
pub fn filter_demote_headings(html: String, levels: Option<u32>) -> (r: String)
    ensures
        r@ == demoted_headings(
            html@,
            match levels {
                Some(l) => l,
                None => 1,
            },
        ),
{
    let by = match levels {
        Some(l) => l,
        None => 1,
    };
    demote_headings_html(html, by)
}

} // verus!
