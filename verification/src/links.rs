//! What the local HTML index links to: the local PDF of each specification
//! and each of its pages.
use vstd::prelude::*;
use crate::model::{EntryModel, ReferenceModel, IndexHtmlVariant};
use crate::render::{
    join, decimal, index_html, reference_section, page_item, local_pdf_url, heading_text,
    source_title, links_text,
};
use crate::report::contains_text;
use crate::text::trim;

verus! {

/// A text holds whatever stands between its two ends.
proof fn lemma_contains_middle(a: Seq<char>, t: Seq<char>, b: Seq<char>)
    ensures
        contains_text(a + t + b, t),
{
    let s = a + t + b;
    assert(s.subrange(a.len() as int, (a.len() + t.len()) as int) =~= t);
}

/// What a part of a text holds, the text holds.
proof fn lemma_contains_trans(s: Seq<char>, u: Seq<char>, t: Seq<char>)
    requires
        contains_text(s, u),
        contains_text(u, t),
    ensures
        contains_text(s, t),
{
    let i = choose|i: int| 0 <= i && i + u.len() <= s.len() && #[trigger] s.subrange(i, i + u.len()) == u;
    let k = choose|k: int| 0 <= k && k + t.len() <= u.len() && #[trigger] u.subrange(k, k + t.len()) == t;
    assert(s.subrange(i + k, i + k + t.len()) =~= u.subrange(k, k + t.len()));
}

/// Joined items hold each item.
proof fn lemma_join_contains(items: Seq<Seq<char>>, sep: Seq<char>, k: int)
    requires
        0 <= k < items.len(),
    ensures
        contains_text(join(items, sep), items[k]),
    decreases items.len(),
{
    let e = Seq::<char>::empty();
    if items.len() == 1 {
        assert(join(items, sep) =~= e + items[k] + e);
        lemma_contains_middle(e, items[k], e);
    } else if k == items.len() - 1 {
        let a = join(items.drop_last(), sep) + sep;
        assert(join(items, sep) =~= a + items[k] + e);
        lemma_contains_middle(a, items[k], e);
    } else {
        let d = items.drop_last();
        assert(d[k] == items[k]);
        lemma_join_contains(d, sep, k);
        let u = join(d, sep);
        assert(join(items, sep) =~= e + u + (sep + items.last()));
        lemma_contains_middle(e, u, sep + items.last());
        lemma_contains_trans(join(items, sep), u, items[k]);
    }
}

/// The index of a flavour holds the section of each specification in
/// that flavour.
proof fn lemma_index_holds_section(refs: Seq<ReferenceModel>, variant: IndexHtmlVariant, i: int)
    requires
        0 <= i < refs.len(),
    ensures
        contains_text(index_html(refs, variant), reference_section(refs[i], variant)),
{
    let sections = refs.map_values(|r: ReferenceModel| reference_section(r, variant));
    let body = join(sections, "\n"@);
    lemma_join_contains(sections, "\n"@, i);
    let a = crate::render::html_head() + crate::render::variant_name(variant)
        + crate::render::html_middle();
    assert(index_html(refs, variant) =~= a + body + crate::render::html_tail());
    lemma_contains_middle(a, body, crate::render::html_tail());
    lemma_contains_trans(index_html(refs, variant), body, reference_section(refs[i], variant));
}

/// The local index links each page of each specification to that page of
/// its local PDF, `./spec/{id}.pdf#page={page}`, under the page number and
/// its description.
pub proof fn lemma_local_index_links_pages(refs: Seq<ReferenceModel>, i: int, j: int)
    requires
        0 <= i < refs.len(),
        0 <= j < refs[i].entries.len(),
    ensures
        contains_text(
            index_html(refs, IndexHtmlVariant::Local),
            "<li><a href=\"./spec/"@ + trim(refs[i].id) + ".pdf#page="@ + decimal(
                refs[i].entries[j].page as nat,
            ) + "\">p."@ + decimal(refs[i].entries[j].page as nat) + "</a>: "@
                + refs[i].entries[j].description + "</li>"@,
        ),
{
    let r = refs[i];
    let e = r.entries[j];
    let url = local_pdf_url(r.id);
    let item = page_item(IndexHtmlVariant::Local, url, e);
    reveal_strlit("<li><a href=\"./spec/");
    reveal_strlit("<li><a href=\"");
    reveal_strlit("./spec/");
    assert("<li><a href=\"./spec/"@ =~= "<li><a href=\""@ + "./spec/"@);
    assert(item =~= "<li><a href=\"./spec/"@ + trim(r.id) + ".pdf#page="@ + decimal(e.page as nat)
        + "\">p."@ + decimal(e.page as nat) + "</a>: "@ + e.description + "</li>"@) by {
        assert(item =~= "<li><a href=\""@ + ("./spec/"@ + trim(r.id) + ".pdf"@) + "#page="@
            + decimal(e.page as nat) + "\">p."@ + decimal(e.page as nat) + "</a>: "@
            + e.description + "</li>"@);
        reveal_strlit(".pdf#page=");
        reveal_strlit(".pdf");
        reveal_strlit("#page=");
        assert(".pdf#page="@ =~= ".pdf"@ + "#page="@);
    }
    let items = r.entries.map_values(|x: EntryModel| page_item(IndexHtmlVariant::Local, url, x));
    assert(items[j] == item);
    lemma_join_contains(items, "\n"@, j);
    let list = join(items, "\n"@);
    let a = "\n"@ + heading_text(
        IndexHtmlVariant::Local,
        r.id,
        url,
        source_title(r.source),
        links_text(r.source),
    ) + "\n<div>\n<ul>\n"@;
    let section = reference_section(r, IndexHtmlVariant::Local);
    assert(section =~= a + list + "\n</ul>\n</div>\n"@);
    lemma_contains_middle(a, list, "\n</ul>\n</div>\n"@);
    lemma_contains_trans(section, list, item);
    lemma_index_holds_section(refs, IndexHtmlVariant::Local, i);
    lemma_contains_trans(index_html(refs, IndexHtmlVariant::Local), section, item);
}

/// The local index links the title of each specification to its local
/// PDF, `./spec/{id}.pdf`.
pub proof fn lemma_local_index_links_pdfs(refs: Seq<ReferenceModel>, i: int)
    requires
        0 <= i < refs.len(),
    ensures
        contains_text(
            index_html(refs, IndexHtmlVariant::Local),
            "<a href=\"./spec/"@ + trim(refs[i].id) + ".pdf\" class=\"spec-link\">"@ + source_title(
                refs[i].source,
            ) + "</a>"@,
        ),
{
    let r = refs[i];
    let url = local_pdf_url(r.id);
    let title = source_title(r.source);
    let link = "<a href=\"./spec/"@ + trim(r.id) + ".pdf\" class=\"spec-link\">"@ + title + "</a>"@;
    reveal_strlit("]\n<a href=\"");
    reveal_strlit("]\n");
    reveal_strlit("<a href=\"");
    reveal_strlit("<a href=\"./spec/");
    reveal_strlit("./spec/");
    reveal_strlit(".pdf\" class=\"spec-link\">");
    reveal_strlit(".pdf");
    reveal_strlit("\" class=\"spec-link\">");
    reveal_strlit("</a>\n<br>\n<small>\n");
    reveal_strlit("</a>");
    reveal_strlit("\n<br>\n<small>\n");
    assert("]\n<a href=\""@ =~= "]\n"@ + "<a href=\""@);
    assert("<a href=\"./spec/"@ =~= "<a href=\""@ + "./spec/"@);
    assert(".pdf\" class=\"spec-link\">"@ =~= ".pdf"@ + "\" class=\"spec-link\">"@);
    assert("</a>\n<br>\n<small>\n"@ =~= "</a>"@ + "\n<br>\n<small>\n"@);
    let heading = heading_text(IndexHtmlVariant::Local, r.id, url, title, links_text(r.source));
    let a = "\n<h3>\n  ["@ + r.id + "]\n"@;
    let b = "\n<br>\n<small>\n"@ + links_text(r.source) + "\n</small>\n</h3>\n"@;
    assert(heading =~= a + link + b);
    lemma_contains_middle(a, link, b);
    let section = reference_section(r, IndexHtmlVariant::Local);
    let rest = "\n<div>\n<ul>\n"@ + join(
        r.entries.map_values(|x: EntryModel| page_item(IndexHtmlVariant::Local, url, x)),
        "\n"@,
    ) + "\n</ul>\n</div>\n"@;
    assert(section =~= "\n"@ + heading + rest);
    lemma_contains_middle("\n"@, heading, rest);
    lemma_contains_trans(section, heading, link);
    lemma_index_holds_section(refs, IndexHtmlVariant::Local, i);
    lemma_contains_trans(index_html(refs, IndexHtmlVariant::Local), section, link);
}

} // verus!
