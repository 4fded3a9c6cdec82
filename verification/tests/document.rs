use os_dev_specs::index::{listed_files, missing_files};
use os_dev_specs::model::{PdfPageEntry, Reference, ReferenceSourceInfo};
use os_dev_specs::parse::{parse_document, parse_references, read_ids, DocumentParse, ParseError};
use os_dev_specs::render::{gen_data_md, update_data_md};
use std::collections::HashSet;

const SAMPLE: &str = "
# `zeta`
```
Zeta Manual
zip
https://example.com/z.zip
docs/zeta.pdf
```
- p.20: later
- p.3:  earlier

# `alpha`
```
  Alpha Spec  
pdf
https://example.com/a.pdf
```
";

#[test]
fn download_prioritizes_missing_file() {
    let mut data_md_content = "# `test_spec`\n".to_string();
    data_md_content.push_str("```\nTest Spec\npdf\nhttps://example.com/test.pdf\n```\n");
    let ref_list = parse_references(&data_md_content).unwrap();
    // the spec directory holds index.txt and no PDF
    let existing_ids: HashSet<String> = HashSet::new();
    let (missing_refs, _): (Vec<_>, Vec<_>) = ref_list
        .iter()
        .cloned()
        .partition(|r| !existing_ids.contains(&r.id));
    assert_eq!(missing_refs.len(), 1);
    let listed = listed_files("12345  test_spec.pdf\n");
    assert_eq!(listed.len(), 1);
    assert_eq!(listed[0].filename, "test_spec.pdf");
    assert_eq!(listed[0].hash, "12345");
    let found: Vec<String> = listed.iter().map(|e| e.filename.clone()).collect();
    assert!(missing_files(&ref_list, &found).is_empty());
    assert_eq!(missing_files(&ref_list, &Vec::new()), vec!["test_spec.pdf".to_string()]);
}

#[test]
fn document_is_sorted_by_id_and_page() {
    let refs = parse_references(SAMPLE).unwrap();
    assert_eq!(refs.len(), 2);
    assert_eq!(refs[0].id, "alpha");
    assert_eq!(
        refs[0].source,
        ReferenceSourceInfo::Pdf {
            title: "Alpha Spec".to_string(),
            url: "https://example.com/a.pdf".to_string()
        }
    );
    assert!(refs[0].entries.is_empty());
    assert_eq!(refs[1].id, "zeta");
    assert_eq!(
        refs[1].source,
        ReferenceSourceInfo::Zip {
            title: "Zeta Manual".to_string(),
            url: "https://example.com/z.zip".to_string(),
            rel_path: "docs/zeta.pdf".to_string()
        }
    );
    assert_eq!(
        refs[1].entries,
        vec![
            PdfPageEntry { page: 3, description: "earlier".to_string() },
            PdfPageEntry { page: 20, description: "later".to_string() },
        ]
    );
}

#[test]
fn document_errors() {
    assert_eq!(parse_references("").unwrap(), Vec::<Reference>::new());
    assert_eq!(
        parse_references("hello"),
        Err(ParseError::InvalidIdLine("hello".to_string()))
    );
    assert_eq!(parse_references("# `a`"), Err(ParseError::MissingOpeningFence));
    assert_eq!(parse_references("# `a`\nx"), Err(ParseError::MissingOpeningFence));
    assert_eq!(parse_references("# `a`\n```"), Err(ParseError::MissingTitle));
    assert_eq!(parse_references("# `a`\n```\nT"), Err(ParseError::MissingType));
    assert_eq!(parse_references("# `a`\n```\nT\npdf"), Err(ParseError::MissingUrl));
    assert_eq!(parse_references("# `a`\n```\nT\nzip\nu"), Err(ParseError::MissingUrl));
    assert_eq!(
        parse_references("# `a`\n```\nT\nhtml\nu\n```"),
        Err(ParseError::UnexpectedType("html".to_string()))
    );
    assert_eq!(
        parse_references("# `a`\n```\nT\npdf\nu\nv"),
        Err(ParseError::MissingClosingFence)
    );
    assert_eq!(
        parse_references("# `a`\n```\nT\npdf\nu\n```\n- page 3"),
        Err(ParseError::InvalidPageEntry("- page 3".to_string()))
    );
    assert_eq!(
        parse_references("# `a`\n```\nT\npdf\nu\n```\n- p.1: x\nnot an id"),
        Err(ParseError::InvalidIdLine("not an id".to_string()))
    );
}

#[test]
fn page_number_overflow_is_reported() {
    let text = "# `a`\n```\nT\npdf\nu\n```\n- p.18446744073709551616: too far";
    assert!(matches!(parse_document(text), DocumentParse::PageNumberOverflow));
    // an earlier error comes first
    let text = "# `a`\n```\nT\nhtml\nu\n```\n- p.18446744073709551616: too far";
    assert!(matches!(parse_document(text), DocumentParse::Failed(_)));
}

#[test]
fn error_messages() {
    assert_eq!(
        ParseError::InvalidIdLine("x".to_string()).message(),
        "failed to parse id line. line: x"
    );
    assert_eq!(
        ParseError::InvalidPageEntry("- y".to_string()).message(),
        "failed to parse page entry. line: - y"
    );
    assert_eq!(ParseError::MissingOpeningFence.message(), "Expected ``` after id");
    assert_eq!(ParseError::MissingTitle.message(), "title is needed in ref_info");
    assert_eq!(ParseError::MissingType.message(), "type is needed in ref_info");
    assert_eq!(ParseError::MissingUrl.message(), "url is needed in ref_info");
    assert_eq!(
        ParseError::UnexpectedType("html".to_string()).message(),
        "Unexpected ref_info type: html"
    );
    assert_eq!(ParseError::MissingClosingFence.message(), "Expected ``` after ref_info");
}

#[test]
fn data_md_round_trip() {
    let refs = parse_references(SAMPLE).unwrap();
    let written = gen_data_md(&refs);
    let again = parse_references(&written).unwrap();
    assert_eq!(again, refs);
    assert_eq!(gen_data_md(&again), written);
    assert_eq!(update_data_md(&again, &written), None);
    assert_eq!(update_data_md(&again, SAMPLE), Some(written.clone()));
}

#[test]
fn data_md_text() {
    let refs = parse_references(SAMPLE).unwrap();
    let expected = "
# `alpha`

```
Alpha Spec
pdf
https://example.com/a.pdf
```




# `zeta`

```
Zeta Manual
zip
https://example.com/z.zip
docs/zeta.pdf
```

- p.3: earlier
- p.20: later
";
    assert_eq!(gen_data_md(&refs), expected);
}

#[test]
fn rebuild_is_stable_for_distinct_sources() {
    let refs = parse_references(SAMPLE).unwrap();
    let once = gen_data_md(&refs);
    let twice = gen_data_md(&parse_references(&once).unwrap());
    assert_eq!(once, twice);
}

#[test]
fn rebuild_with_a_shared_id_and_source_can_reorder() {
    let text = "# `a`\n```\nT\npdf\nu\n```\n- p.9: x\n- p.3: y\n# `a`\n```\nT\npdf\nu\n```\n- p.5: z\n";
    let first = parse_references(text).unwrap();
    assert_eq!(first[0].entries[0].page, 5);
    assert_eq!(first[1].entries[0].page, 3);
    let second = parse_references(&gen_data_md(&first)).unwrap();
    assert_eq!(second[0].entries[0].page, 3);
    assert_eq!(second[1].entries[0].page, 5);
}

const BLOCK_A: &str = "# `alpha`\n```\nAlpha Spec\npdf\nhttps://example.com/a.pdf\n```\n- p.7: seven\n- p.2: two\n";
const BLOCK_B: &str = "# `beta`\n```\nBeta Manual\nzip\nhttps://example.com/b.zip\nb/beta.pdf\n```\n- p.1: one\n";

#[test]
fn blank_lines_and_padding_change_nothing() {
    let plain = format!("{}{}", BLOCK_A, BLOCK_B);
    let padded = "\n   \n  # `alpha`  \n\t```\nAlpha Spec   \n\n pdf\nhttps://example.com/a.pdf\r\n```\n\n- p.7: seven  \n   - p.2: two\n\n\n# `beta`\n```\n  Beta Manual\nzip\nhttps://example.com/b.zip\nb/beta.pdf\n```\n- p.1: one\n \t \n";
    assert_eq!(parse_references(padded).unwrap(), parse_references(&plain).unwrap());
}

#[test]
fn blank_document_gives_no_reference() {
    assert_eq!(parse_references("").unwrap(), Vec::<Reference>::new());
    assert_eq!(parse_references(" \n\t\r\n  \n").unwrap(), Vec::<Reference>::new());
}

#[test]
fn block_and_page_order_change_nothing() {
    let first = parse_references(&format!("{}{}", BLOCK_A, BLOCK_B)).unwrap();
    let swapped_a = BLOCK_A.replace("- p.7: seven\n- p.2: two\n", "- p.2: two\n- p.7: seven\n");
    let second = parse_references(&format!("{}{}", BLOCK_B, swapped_a)).unwrap();
    assert_eq!(first, second);
    assert_eq!(first[0].id, "alpha");
    assert_eq!(first[0].entries[0].page, 2);
    assert_eq!(first[1].id, "beta");
}

#[test]
fn page_order_matters_for_shared_ids() {
    let a = "# `x`\n```\nT\npdf\nU\n```\n";
    let first = parse_references(&format!("{}- p.9: a\n- p.3: b\n{}- p.5: c\n", a, a)).unwrap();
    let second = parse_references(&format!("{}- p.3: b\n- p.9: a\n{}- p.5: c\n", a, a)).unwrap();
    assert_eq!(first[0].entries[0].page, 5);
    assert_eq!(second[0].entries[0].page, 3);
}

#[test]
fn ids_come_in_document_order_up_to_the_failure() {
    assert_eq!(read_ids(&format!("{}{}", BLOCK_B, BLOCK_A)), vec!["beta", "alpha"]);
    let broken = format!("{}# `gamma`\n```\nG\npdf\n{}", BLOCK_B, BLOCK_A);
    assert_eq!(read_ids(&broken), vec!["beta", "gamma"]);
    assert_eq!(read_ids("not an id line\n"), Vec::<String>::new());
}

#[test]
fn reordering_keeps_the_first_failing_page_line() {
    let bad = "# `gamma`\n```\nGamma\npdf\nhttps://example.com/g.pdf\n```\n- page one\n- p.4: four\n";
    let first = parse_references(&format!("{}{}{}", BLOCK_A, bad, BLOCK_B));
    let second = parse_references(&format!("{}{}{}", bad, BLOCK_B, BLOCK_A));
    assert_eq!(first, second);
    assert_eq!(first, Err(ParseError::InvalidPageEntry("- page one".to_string())));
}
