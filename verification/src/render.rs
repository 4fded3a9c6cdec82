//! The texts generated from the index: `data.md` itself, the HTML index
//! and the download script.
use vstd::prelude::*;
use crate::model::{
    PdfPageEntry, Reference, ReferenceSourceInfo, IndexHtmlVariant, EntryModel, SourceModel,
    ReferenceModel, entry_views, reference_views,
};
use crate::parse::string_views;
use crate::text::{push_char, trim, chars_of, trim_chars, string_of};

verus! {

/// The decimal digit `d`.
pub open spec fn digit_char(d: nat) -> char {
    if d == 0 {
        '0'
    } else if d == 1 {
        '1'
    } else if d == 2 {
        '2'
    } else if d == 3 {
        '3'
    } else if d == 4 {
        '4'
    } else if d == 5 {
        '5'
    } else if d == 6 {
        '6'
    } else if d == 7 {
        '7'
    } else if d == 8 {
        '8'
    } else {
        '9'
    }
}

/// The decimal representation of `n`, as `Display` writes it.
pub open spec fn decimal(n: nat) -> Seq<char>
    decreases n,
{
    if n < 10 {
        seq![digit_char(n)]
    } else {
        decimal(n / 10).push(digit_char(n % 10))
    }
}

fn digit(d: u64) -> (c: char)
    requires
        d < 10,
    ensures
        c == digit_char(d as nat),
{
    if d == 0 {
        '0'
    } else if d == 1 {
        '1'
    } else if d == 2 {
        '2'
    } else if d == 3 {
        '3'
    } else if d == 4 {
        '4'
    } else if d == 5 {
        '5'
    } else if d == 6 {
        '6'
    } else if d == 7 {
        '7'
    } else if d == 8 {
        '8'
    } else {
        '9'
    }
}

/// Appends the decimal representation of `n`.
pub fn push_decimal(s: &mut String, n: u64)
    ensures
        final(s)@ == old(s)@ + decimal(n as nat),
    decreases n,
{
    if n >= 10 {
        push_decimal(s, n / 10);
    }
    push_char(s, digit(n % 10));
    proof {
        if n < 10 {
            assert(old(s)@ + decimal(n as nat) =~= old(s)@.push(digit_char(n as nat)));
        } else {
            assert(old(s)@ + decimal(n as nat) =~= (old(s)@ + decimal((n / 10) as nat)).push(
                digit_char((n % 10) as nat),
            ));
        }
    }
}

/// The members of `items` with `sep` between them, as `join` gives them.
pub open spec fn join(items: Seq<Seq<char>>, sep: Seq<char>) -> Seq<char>
    decreases items.len(),
{
    if items.len() == 0 {
        Seq::empty()
    } else if items.len() == 1 {
        items[0]
    } else {
        join(items.drop_last(), sep) + sep + items.last()
    }
}

/// Joins strings with a separator.
pub fn join_strings(items: &Vec<String>, sep: &str) -> (r: String)
    ensures
        r@ == join(string_views(items@), sep@),
{
    let ghost v = string_views(items@);
    let mut r = String::new();
    let mut i: usize = 0;
    proof {
        assert(v.take(0) =~= Seq::<Seq<char>>::empty());
    }
    while i < items.len()
        invariant
            i <= items@.len(),
            v == string_views(items@),
            r@ == join(v.take(i as int), sep@),
        decreases items@.len() - i,
    {
        proof {
            assert(v.take(i + 1).drop_last() =~= v.take(i as int));
            assert(v.take(i + 1).last() == items@[i as int]@);
        }
        if i > 0 {
            r.append(sep);
        } else {
            assert(r@ + items@[0]@ =~= items@[0]@);
        }
        r.append(items[i].as_str());
        i = i + 1;
    }
    proof {
        assert(v.take(items@.len() as int) =~= v);
    }
    r
}

/// The source block of `data.md` that describes a source.
pub open spec fn header_text(s: SourceModel) -> Seq<char> {
    match s {
        SourceModel::Pdf { title, url } => "\n```\n"@ + title + "\npdf\n"@ + url + "\n```\n"@,
        SourceModel::Zip { title, url, rel_path } => "\n```\n"@ + title + "\nzip\n"@ + url + "\n"@
            + rel_path + "\n```\n"@,
    }
}

/// The HTML links to a source.
pub open spec fn links_text(s: SourceModel) -> Seq<char> {
    match s {
        SourceModel::Pdf { url, .. } => "(<a href=\""@ + url + "\">source pdf</a>)"@,
        SourceModel::Zip { url, rel_path, .. } => "(<a href=\""@ + url + "\">zip</a> @ "@ + rel_path
            + ")"@,
    }
}

pub open spec fn source_title(s: SourceModel) -> Seq<char> {
    match s {
        SourceModel::Pdf { title, .. } => title,
        SourceModel::Zip { title, .. } => title,
    }
}

impl ReferenceSourceInfo {
    /// The source block of `data.md` for this source.
    pub fn gen_header(&self) -> (r: String)
        ensures
            r@ == header_text(self@),
    {
        let mut r = String::new();
        match self {
            ReferenceSourceInfo::Pdf { title, url } => {
                r.append("\n```\n");
                r.append(title.as_str());
                r.append("\npdf\n");
                r.append(url.as_str());
                r.append("\n```\n");
            },
            ReferenceSourceInfo::Zip { title, url, rel_path } => {
                r.append("\n```\n");
                r.append(title.as_str());
                r.append("\nzip\n");
                r.append(url.as_str());
                r.append("\n");
                r.append(rel_path.as_str());
                r.append("\n```\n");
            },
        }
        r
    }

    /// The HTML links to this source.
    pub fn gen_links(&self) -> (r: String)
        ensures
            r@ == links_text(self@),
    {
        let mut r = String::new();
        match self {
            ReferenceSourceInfo::Pdf { url, .. } => {
                r.append("(<a href=\"");
                r.append(url.as_str());
                r.append("\">source pdf</a>)");
            },
            ReferenceSourceInfo::Zip { url, rel_path, .. } => {
                r.append("(<a href=\"");
                r.append(url.as_str());
                r.append("\">zip</a> @ ");
                r.append(rel_path.as_str());
                r.append(")");
            },
        }
        r
    }

    /// The title of this source.
    pub fn title(&self) -> (r: &String)
        ensures
            r@ == source_title(self@),
    {
        match self {
            ReferenceSourceInfo::Pdf { title, .. } => title,
            ReferenceSourceInfo::Zip { title, .. } => title,
        }
    }
}

/// Where the index keeps the PDF of a specification.
pub open spec fn local_pdf_url(id: Seq<char>) -> Seq<char> {
    "./spec/"@ + trim(id) + ".pdf"@
}

/// The list item of one page in the HTML index.
pub open spec fn page_item(variant: IndexHtmlVariant, url: Seq<char>, e: EntryModel) -> Seq<char> {
    match variant {
        IndexHtmlVariant::Local => "<li><a href=\""@ + url + "#page="@ + decimal(e.page as nat)
            + "\">p."@ + decimal(e.page as nat) + "</a>: "@ + e.description + "</li>"@,
        IndexHtmlVariant::Public => "<li>p."@ + decimal(e.page as nat) + ": "@ + e.description
            + "</li>"@,
    }
}

/// The heading of one specification in the HTML index.
pub open spec fn heading_text(
    variant: IndexHtmlVariant,
    id: Seq<char>,
    url: Seq<char>,
    title: Seq<char>,
    links: Seq<char>,
) -> Seq<char> {
    match variant {
        IndexHtmlVariant::Local => "\n<h3>\n  ["@ + id + "]\n<a href=\""@ + url
            + "\" class=\"spec-link\">"@ + title + "</a>\n<br>\n<small>\n"@ + links
            + "\n</small>\n</h3>\n"@,
        IndexHtmlVariant::Public => "\n<h3>\n  ["@ + id + "]\n  "@ + title + "\n<br>\n<small>\n"@
            + links + "\n</small>\n</h3>\n"@,
    }
}

/// The section of one specification in the HTML index.
pub open spec fn reference_section(r: ReferenceModel, variant: IndexHtmlVariant) -> Seq<char> {
    let url = local_pdf_url(r.id);
    "\n"@ + heading_text(variant, r.id, url, source_title(r.source), links_text(r.source))
        + "\n<div>\n<ul>\n"@ + join(
        r.entries.map_values(|e: EntryModel| page_item(variant, url, e)),
        "\n"@,
    ) + "\n</ul>\n</div>\n"@
}

fn gen_page_item(variant: IndexHtmlVariant, url: &str, e: &PdfPageEntry) -> (r: String)
    ensures
        r@ == page_item(variant, url@, e@),
{
    let mut r = String::new();
    match variant {
        IndexHtmlVariant::Local => {
            r.append("<li><a href=\"");
            r.append(url);
            r.append("#page=");
            push_decimal(&mut r, e.page);
            r.append("\">p.");
            push_decimal(&mut r, e.page);
            r.append("</a>: ");
            r.append(e.description.as_str());
            r.append("</li>");
        },
        IndexHtmlVariant::Public => {
            r.append("<li>p.");
            push_decimal(&mut r, e.page);
            r.append(": ");
            r.append(e.description.as_str());
            r.append("</li>");
        },
    }
    r
}

fn gen_page_items(variant: IndexHtmlVariant, url: &str, entries: &Vec<PdfPageEntry>) -> (r: Vec<
    String,
>)
    ensures
        string_views(r@) == entry_views(entries@).map_values(
            |e: EntryModel| page_item(variant, url@, e),
        ),
{
    let ghost target = entry_views(entries@).map_values(|e: EntryModel| page_item(variant, url@, e));
    let mut r: Vec<String> = Vec::new();
    let mut i: usize = 0;
    while i < entries.len()
        invariant
            i <= entries@.len(),
            target == entry_views(entries@).map_values(|e: EntryModel| page_item(variant, url@, e)),
            string_views(r@) == target.take(i as int),
        decreases entries@.len() - i,
    {
        let item = gen_page_item(variant, url, &entries[i]);
        let ghost before = string_views(r@);
        r.push(item);
        proof {
            assert(string_views(r@) =~= before.push(item@));
            assert(target.take(i + 1) =~= target.take(i as int).push(target[i as int]));
        }
        i = i + 1;
    }
    proof {
        assert(target.take(entries@.len() as int) =~= target);
    }
    r
}

/// Adds the section of a specification to the body of the HTML index.
pub fn spec_file_add(body_contents: &mut Vec<String>, ref_info: &Reference, variant: IndexHtmlVariant)
    ensures
        string_views(final(body_contents)@) == string_views(old(body_contents)@).push(
            reference_section(ref_info@, variant),
        ),
{
    let id_chars = chars_of(ref_info.id.as_str());
    let mut url = String::new();
    url.append("./spec/");
    url.append(string_of(trim_chars(id_chars.as_slice()).as_slice()).as_str());
    url.append(".pdf");
    let source_links = ref_info.source.gen_links();
    let title = ref_info.source.title();
    let items = gen_page_items(variant, url.as_str(), &ref_info.entries);
    let list = join_strings(&items, "\n");
    let mut section = String::new();
    section.append("\n");
    match variant {
        IndexHtmlVariant::Local => {
            section.append("\n<h3>\n  [");
            section.append(ref_info.id.as_str());
            section.append("]\n<a href=\"");
            section.append(url.as_str());
            section.append("\" class=\"spec-link\">");
            section.append(title.as_str());
            section.append("</a>\n<br>\n<small>\n");
            section.append(source_links.as_str());
            section.append("\n</small>\n</h3>\n");
        },
        IndexHtmlVariant::Public => {
            section.append("\n<h3>\n  [");
            section.append(ref_info.id.as_str());
            section.append("]\n  ");
            section.append(title.as_str());
            section.append("\n<br>\n<small>\n");
            section.append(source_links.as_str());
            section.append("\n</small>\n</h3>\n");
        },
    }
    section.append("\n<div>\n<ul>\n");
    section.append(list.as_str());
    section.append("\n</ul>\n</div>\n");
    let ghost before = string_views(body_contents@);
    proof {
        let u = local_pdf_url(ref_info@.id);
        assert(url@ =~= u);
        let h = heading_text(variant, ref_info@.id, u, source_title(ref_info@.source), links_text(ref_info@.source));
        assert(section@ =~= "\n"@ + h + "\n<div>\n<ul>\n"@ + list@ + "\n</ul>\n</div>\n"@);
    }
    body_contents.push(section);
    proof {
        assert(string_views(body_contents@) =~= before.push(section@));
    }
}

/// The HTML index up to the name of its flavour.
pub open spec fn html_head() -> Seq<char> {
    r##"
<!DOCTYPE html>
<head>
  <meta charset="utf-8">
  <base target="_blank">
  <link href="https://fonts.googleapis.com/css2?family=Source+Code+Pro&amp;display=swap" rel="stylesheet">
  <style>
body {
    font-family: 'Source Code Pro', monospace;
    margin-left: 16px;
}
div {
    margin-left: 64px;
}
a {
    color: #1d68cd;
    text-decoration: none;
}
p {
    margin-bottom: 32px;
}
h3 {
    border-top: 1px dotted #9dc0f0;
    border-left: 8px solid #9dc0f0;
    padding: 8px;
    margin-top: 32px;
    margin-bottom: 8px;
}
small {
    color: #888888;
    text-decoration: none;
}
ul {
    list-style-type: none;
    margin-top: 8px;
    margin-bottom: 8px;
}
.spec {
    margin-top: 16px;
}
.spec-link {
    font-size: large;
}
</style>
</head>
<body>
  <h1>os_dev_specs <small>("##@
}

/// The HTML index between the name of its flavour and its body.
pub open spec fn html_middle() -> Seq<char> {
    r##")</small></h1>
  <p>source: <a href="https://github.com/hikalium/os_dev_specs">hikalium/os_dev_specs</a></p>
  "##@
}

/// The end of the HTML index.
pub open spec fn html_tail() -> Seq<char> {
    r##"
</body>"##@
}

fn push_html_head(s: &mut String)
    ensures
        final(s)@ == old(s)@ + html_head(),
{
    s.append(r##"
<!DOCTYPE html>
<head>
  <meta charset="utf-8">
  <base target="_blank">
  <link href="https://fonts.googleapis.com/css2?family=Source+Code+Pro&amp;display=swap" rel="stylesheet">
  <style>
body {
    font-family: 'Source Code Pro', monospace;
    margin-left: 16px;
}
div {
    margin-left: 64px;
}
a {
    color: #1d68cd;
    text-decoration: none;
}
p {
    margin-bottom: 32px;
}
h3 {
    border-top: 1px dotted #9dc0f0;
    border-left: 8px solid #9dc0f0;
    padding: 8px;
    margin-top: 32px;
    margin-bottom: 8px;
}
small {
    color: #888888;
    text-decoration: none;
}
ul {
    list-style-type: none;
    margin-top: 8px;
    margin-bottom: 8px;
}
.spec {
    margin-top: 16px;
}
.spec-link {
    font-size: large;
}
</style>
</head>
<body>
  <h1>os_dev_specs <small>("##);
}

fn push_html_middle(s: &mut String)
    ensures
        final(s)@ == old(s)@ + html_middle(),
{
    s.append(r##")</small></h1>
  <p>source: <a href="https://github.com/hikalium/os_dev_specs">hikalium/os_dev_specs</a></p>
  "##);
}

fn push_html_tail(s: &mut String)
    ensures
        final(s)@ == old(s)@ + html_tail(),
{
    s.append(r##"
</body>"##);
}

/// The page line of `data.md` for one page entry.
pub open spec fn data_md_item(e: EntryModel) -> Seq<char> {
    "- p."@ + decimal(e.page as nat) + ": "@ + e.description
}

/// The entry of `data.md` for one specification.
pub open spec fn data_md_entry(id: Seq<char>, source: SourceModel, entries: Seq<EntryModel>) -> Seq<
    char,
> {
    "\n# `"@ + id + "`\n"@ + header_text(source) + "\n"@ + join(
        entries.map_values(|e: EntryModel| data_md_item(e)),
        "\n"@,
    ) + "\n"@
}

/// Adds the entry of a specification to the body of `data.md`.
pub fn gen_data_md_entry(
    body_contents: &mut Vec<String>,
    id: &str,
    source: &ReferenceSourceInfo,
    indexes: &[PdfPageEntry],
)
    ensures
        string_views(final(body_contents)@) == string_views(old(body_contents)@).push(
            data_md_entry(id@, source@, entry_views(indexes@)),
        ),
{
    let ghost target = entry_views(indexes@).map_values(|e: EntryModel| data_md_item(e));
    let mut items: Vec<String> = Vec::new();
    let mut i: usize = 0;
    while i < indexes.len()
        invariant
            i <= indexes@.len(),
            target == entry_views(indexes@).map_values(|e: EntryModel| data_md_item(e)),
            string_views(items@) == target.take(i as int),
        decreases indexes@.len() - i,
    {
        let e = &indexes[i];
        let mut item = String::new();
        item.append("- p.");
        push_decimal(&mut item, e.page);
        item.append(": ");
        item.append(e.description.as_str());
        let ghost before = string_views(items@);
        items.push(item);
        proof {
            assert(string_views(items@) =~= before.push(item@));
            assert(target.take(i + 1) =~= target.take(i as int).push(target[i as int]));
        }
        i = i + 1;
    }
    proof {
        assert(target.take(indexes@.len() as int) =~= target);
    }
    let list = join_strings(&items, "\n");
    let header = source.gen_header();
    let mut entry = String::new();
    entry.append("\n# `");
    entry.append(id);
    entry.append("`\n");
    entry.append(header.as_str());
    entry.append("\n");
    entry.append(list.as_str());
    entry.append("\n");
    let ghost before = string_views(body_contents@);
    body_contents.push(entry);
    proof {
        assert(string_views(body_contents@) =~= before.push(entry@));
    }
}

/// The name of a flavour of the HTML index, as `Debug` writes it.
pub open spec fn variant_name(variant: IndexHtmlVariant) -> Seq<char> {
    match variant {
        IndexHtmlVariant::Local => "Local"@,
        IndexHtmlVariant::Public => "Public"@,
    }
}

/// The HTML index of the specifications in one of its flavours.
pub open spec fn index_html(refs: Seq<ReferenceModel>, variant: IndexHtmlVariant) -> Seq<char> {
    html_head() + variant_name(variant) + html_middle() + join(
        refs.map_values(|r: ReferenceModel| reference_section(r, variant)),
        "\n"@,
    ) + html_tail()
}

/// The HTML index of the specifications, as `index_html` states.
pub fn gen_html(ref_list: &Vec<Reference>, variant: IndexHtmlVariant) -> (r: String)
    ensures
        r@ == index_html(reference_views(ref_list@), variant),
{
    let ghost target = reference_views(ref_list@).map_values(
        |r: ReferenceModel| reference_section(r, variant),
    );
    let mut body_contents: Vec<String> = Vec::new();
    let mut i: usize = 0;
    while i < ref_list.len()
        invariant
            i <= ref_list@.len(),
            target == reference_views(ref_list@).map_values(
                |r: ReferenceModel| reference_section(r, variant),
            ),
            string_views(body_contents@) == target.take(i as int),
        decreases ref_list@.len() - i,
    {
        spec_file_add(&mut body_contents, &ref_list[i], variant);
        proof {
            assert(target.take(i + 1) =~= target.take(i as int).push(target[i as int]));
        }
        i = i + 1;
    }
    proof {
        assert(target.take(ref_list@.len() as int) =~= target);
    }
    let body = join_strings(&body_contents, "\n");
    let mut r = String::new();
    push_html_head(&mut r);
    match variant {
        IndexHtmlVariant::Local => r.append("Local"),
        IndexHtmlVariant::Public => r.append("Public"),
    }
    push_html_middle(&mut r);
    r.append(body.as_str());
    push_html_tail(&mut r);
    r
}

/// The command of the download script that fetches one specification.
pub open spec fn download_command(r: ReferenceModel) -> Seq<char> {
    match r.source {
        SourceModel::Pdf { url, .. } => "def_spec_pdf "@ + r.id + " "@ + url,
        SourceModel::Zip { url, rel_path, .. } => "def_spec_zip "@ + r.id + " "@ + url + " "@
            + rel_path,
    }
}

/// The download script: one command per specification.
pub open spec fn download_script(refs: Seq<ReferenceModel>) -> Seq<char> {
    join(refs.map_values(|r: ReferenceModel| download_command(r)), "\n"@)
}

/// The download script, as `download_script` states.
pub fn gen_download_script(ref_list: &Vec<Reference>) -> (r: String)
    ensures
        r@ == download_script(reference_views(ref_list@)),
{
    let ghost target = reference_views(ref_list@).map_values(|r: ReferenceModel| download_command(r));
    let mut cmds: Vec<String> = Vec::new();
    let mut i: usize = 0;
    while i < ref_list.len()
        invariant
            i <= ref_list@.len(),
            target == reference_views(ref_list@).map_values(|r: ReferenceModel| download_command(r)),
            string_views(cmds@) == target.take(i as int),
        decreases ref_list@.len() - i,
    {
        let ref_info = &ref_list[i];
        let mut cmd = String::new();
        match &ref_info.source {
            ReferenceSourceInfo::Pdf { url, .. } => {
                cmd.append("def_spec_pdf ");
                cmd.append(ref_info.id.as_str());
                cmd.append(" ");
                cmd.append(url.as_str());
            },
            ReferenceSourceInfo::Zip { url, rel_path, .. } => {
                cmd.append("def_spec_zip ");
                cmd.append(ref_info.id.as_str());
                cmd.append(" ");
                cmd.append(url.as_str());
                cmd.append(" ");
                cmd.append(rel_path.as_str());
            },
        }
        let ghost before = string_views(cmds@);
        cmds.push(cmd);
        proof {
            assert(string_views(cmds@) =~= before.push(cmd@));
            assert(target.take(i + 1) =~= target.take(i as int).push(target[i as int]));
        }
        i = i + 1;
    }
    proof {
        assert(target.take(ref_list@.len() as int) =~= target);
    }
    join_strings(&cmds, "\n")
}

/// `data.md` written anew from the specifications.
pub open spec fn data_md(refs: Seq<ReferenceModel>) -> Seq<char> {
    join(
        refs.map_values(|r: ReferenceModel| data_md_entry(r.id, r.source, r.entries)),
        "\n"@,
    )
}

/// `data.md` written anew, as `data_md` states.
pub fn gen_data_md(ref_list: &Vec<Reference>) -> (r: String)
    ensures
        r@ == data_md(reference_views(ref_list@)),
{
    let ghost target = reference_views(ref_list@).map_values(
        |r: ReferenceModel| data_md_entry(r.id, r.source, r.entries),
    );
    let mut body_contents: Vec<String> = Vec::new();
    let mut i: usize = 0;
    while i < ref_list.len()
        invariant
            i <= ref_list@.len(),
            target == reference_views(ref_list@).map_values(
                |r: ReferenceModel| data_md_entry(r.id, r.source, r.entries),
            ),
            string_views(body_contents@) == target.take(i as int),
        decreases ref_list@.len() - i,
    {
        let ref_info = &ref_list[i];
        gen_data_md_entry(
            &mut body_contents,
            ref_info.id.as_str(),
            &ref_info.source,
            ref_info.entries.as_slice(),
        );
        proof {
            assert(target.take(i + 1) =~= target.take(i as int).push(target[i as int]));
        }
        i = i + 1;
    }
    proof {
        assert(target.take(ref_list@.len() as int) =~= target);
    }
    join_strings(&body_contents, "\n")
}

/// `data.md` written anew, unless the file holds that text already.
pub fn update_data_md(ref_list: &Vec<Reference>, old_content: &str) -> (r: Option<String>)
    ensures
        match r {
            Some(x) => x@ == data_md(reference_views(ref_list@)) && x@ != old_content@,
            None => data_md(reference_views(ref_list@)) == old_content@,
        },
{
    let new_content = gen_data_md(ref_list);
    if crate::parse::str_equal(new_content.as_str(), old_content) {
        None
    } else {
        Some(new_content)
    }
}

/// Everything that building the index writes.
pub struct BuildOutput {
    /// `index.html`, linking to the local PDFs.
    pub local_index_html: String,
    /// `docs/index.html`, without local links.
    pub public_index_html: String,
    /// The download script.
    pub download_script: String,
    /// `data.md` written anew, unless it is unchanged.
    pub data_md: Option<String>,
}

/// Builds the index: both HTML flavours, the download script, and
/// `data.md` written anew when it changed.
pub fn build(ref_list: &Vec<Reference>, old_data_md: &str) -> (r: BuildOutput)
    ensures
        r.local_index_html@ == index_html(reference_views(ref_list@), IndexHtmlVariant::Local),
        r.public_index_html@ == index_html(reference_views(ref_list@), IndexHtmlVariant::Public),
        r.download_script@ == download_script(reference_views(ref_list@)),
        match r.data_md {
            Some(x) => x@ == data_md(reference_views(ref_list@)) && x@ != old_data_md@,
            None => data_md(reference_views(ref_list@)) == old_data_md@,
        },
{
    BuildOutput {
        local_index_html: gen_html(ref_list, IndexHtmlVariant::Local),
        public_index_html: gen_html(ref_list, IndexHtmlVariant::Public),
        download_script: gen_download_script(ref_list),
        data_md: update_data_md(ref_list, old_data_md),
    }
}

} // verus!
