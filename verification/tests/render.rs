use os_dev_specs::model::{IndexHtmlVariant, PdfPageEntry, Reference, ReferenceSourceInfo};
use os_dev_specs::render::{
    build, gen_data_md_entry, gen_download_script, gen_html, join_strings, push_decimal,
    spec_file_add,
};

fn sample() -> Vec<Reference> {
    vec![
        Reference {
            id: "intel_sdm".to_string(),
            source: ReferenceSourceInfo::Pdf {
                title: "Intel SDM".to_string(),
                url: "https://example.com/sdm.pdf".to_string(),
            },
            entries: vec![
                PdfPageEntry { page: 7, description: "CPUID".to_string() },
                PdfPageEntry { page: 1024, description: "MSRs".to_string() },
            ],
        },
        Reference {
            id: "uefi".to_string(),
            source: ReferenceSourceInfo::Zip {
                title: "UEFI".to_string(),
                url: "https://example.com/uefi.zip".to_string(),
                rel_path: "UEFI.pdf".to_string(),
            },
            entries: vec![],
        },
    ]
}

#[test]
fn header_and_links() {
    let refs = sample();
    assert_eq!(
        refs[0].source.gen_header(),
        "\n```\nIntel SDM\npdf\nhttps://example.com/sdm.pdf\n```\n"
    );
    assert_eq!(
        refs[1].source.gen_header(),
        "\n```\nUEFI\nzip\nhttps://example.com/uefi.zip\nUEFI.pdf\n```\n"
    );
    assert_eq!(
        refs[0].source.gen_links(),
        "(<a href=\"https://example.com/sdm.pdf\">source pdf</a>)"
    );
    assert_eq!(
        refs[1].source.gen_links(),
        "(<a href=\"https://example.com/uefi.zip\">zip</a> @ UEFI.pdf)"
    );
}

#[test]
fn html_sections() {
    let refs = sample();
    let mut body = vec!["before".to_string()];
    spec_file_add(&mut body, &refs[0], IndexHtmlVariant::Local);
    assert_eq!(body.len(), 2);
    assert_eq!(body[0], "before");
    assert_eq!(
        body[1],
        "\n\n<h3>\n  [intel_sdm]\n<a href=\"./spec/intel_sdm.pdf\" class=\"spec-link\">Intel SDM</a>\n<br>\n<small>\n(<a href=\"https://example.com/sdm.pdf\">source pdf</a>)\n</small>\n</h3>\n\n<div>\n<ul>\n<li><a href=\"./spec/intel_sdm.pdf#page=7\">p.7</a>: CPUID</li>\n<li><a href=\"./spec/intel_sdm.pdf#page=1024\">p.1024</a>: MSRs</li>\n</ul>\n</div>\n"
    );
    let mut body = Vec::new();
    spec_file_add(&mut body, &refs[1], IndexHtmlVariant::Public);
    assert_eq!(
        body[0],
        "\n\n<h3>\n  [uefi]\n  UEFI\n<br>\n<small>\n(<a href=\"https://example.com/uefi.zip\">zip</a> @ UEFI.pdf)\n</small>\n</h3>\n\n<div>\n<ul>\n\n</ul>\n</div>\n"
    );
}

#[test]
fn local_url_uses_the_trimmed_id() {
    let r = Reference {
        id: " x ".to_string(),
        source: ReferenceSourceInfo::Pdf { title: "T".to_string(), url: "u".to_string() },
        entries: vec![PdfPageEntry { page: 0, description: "d".to_string() }],
    };
    let mut body = Vec::new();
    spec_file_add(&mut body, &r, IndexHtmlVariant::Local);
    assert!(body[0].contains("  [ x ]\n<a href=\"./spec/x.pdf\""));
    assert!(body[0].contains("<li><a href=\"./spec/x.pdf#page=0\">p.0</a>: d</li>"));
}

#[test]
fn html_page() {
    let refs = sample();
    let page = gen_html(&refs, IndexHtmlVariant::Public);
    assert!(page.starts_with("\n<!DOCTYPE html>\n<head>\n"));
    assert!(page.contains("body {\n    font-family: 'Source Code Pro', monospace;"));
    assert!(page.contains("<h1>os_dev_specs <small>(Public)</small></h1>"));
    assert!(page.ends_with("</ul>\n</div>\n\n</body>"));
    assert!(gen_html(&refs, IndexHtmlVariant::Local).contains("<small>(Local)</small>"));
    let mut body = Vec::new();
    spec_file_add(&mut body, &refs[0], IndexHtmlVariant::Public);
    spec_file_add(&mut body, &refs[1], IndexHtmlVariant::Public);
    assert!(page.contains(&join_strings(&body, "\n")));
    let empty = gen_html(&Vec::new(), IndexHtmlVariant::Local);
    assert!(empty.ends_with("</a></p>\n  \n</body>"));
}

#[test]
fn download_script() {
    assert_eq!(
        gen_download_script(&sample()),
        "def_spec_pdf intel_sdm https://example.com/sdm.pdf\ndef_spec_zip uefi https://example.com/uefi.zip UEFI.pdf"
    );
    assert_eq!(gen_download_script(&Vec::new()), "");
}

#[test]
fn data_md_entries() {
    let refs = sample();
    let mut body = Vec::new();
    gen_data_md_entry(&mut body, &refs[0].id, &refs[0].source, &refs[0].entries);
    assert_eq!(
        body[0],
        "\n# `intel_sdm`\n\n```\nIntel SDM\npdf\nhttps://example.com/sdm.pdf\n```\n\n- p.7: CPUID\n- p.1024: MSRs\n"
    );
}

#[test]
fn build_outputs() {
    let refs = sample();
    let out = build(&refs, "");
    assert_eq!(out.local_index_html, gen_html(&refs, IndexHtmlVariant::Local));
    assert_eq!(out.public_index_html, gen_html(&refs, IndexHtmlVariant::Public));
    assert_eq!(out.download_script, gen_download_script(&refs));
    let written = out.data_md.unwrap();
    assert!(build(&refs, &written).data_md.is_none());
}

#[test]
fn decimals_and_joins() {
    let mut s = String::from("n=");
    push_decimal(&mut s, 0);
    assert_eq!(s, "n=0");
    let mut s = String::new();
    push_decimal(&mut s, u64::MAX);
    assert_eq!(s, "18446744073709551615");
    let items = vec!["a".to_string(), "".to_string(), "c".to_string()];
    assert_eq!(join_strings(&items, ", "), "a, , c");
    assert_eq!(join_strings(&Vec::new(), ", "), "");
}
