use sitemap_resolver::classify::Classification;
use sitemap_resolver::classify::classify;
use sitemap_resolver::extract::extract;
use sitemap_resolver::output::render_output;
use sitemap_resolver::traversal::Traversal;

fn b(s: &str) -> Vec<u8> {
    s.as_bytes().to_vec()
}

/// Drives one traversal over a fixed set of documents: a reference that is
/// not a key fails to fetch and is skipped, as the unverified fetch loop
/// would skip it.
fn run(root: &str, docs: &[(&str, &str)]) -> Vec<Vec<u8>> {
    let mut t = Traversal::new(b(root));
    while let Some(reference) = t.next_reference() {
        let fetched = docs
            .iter()
            .find(|(u, _)| u.as_bytes() == reference.as_slice())
            .map(|(_, d)| b(d));
        if let Some(doc) = fetched {
            t.process_document(&doc);
        }
    }
    t.into_results()
}

#[test]
fn classify_nested_sitemap() {
    let c = classify(b("https://example.com/sub.xml"));
    assert!(matches!(c, Classification::NestedSitemap(u) if u == b("https://example.com/sub.xml")));
}

#[test]
fn classify_page_url() {
    let c = classify(b("https://example.com/page.html"));
    assert!(matches!(c, Classification::PageUrl(u) if u == b("https://example.com/page.html")));
}

#[test]
fn classify_xml_in_middle_is_page() {
    // suffix match, not substring match
    let c = classify(b("https://example.com/file.xml?x=1"));
    assert!(matches!(c, Classification::PageUrl(u) if u == b("https://example.com/file.xml?x=1")));
}

#[test]
fn classify_bare_suffix_and_short_strings() {
    assert!(matches!(classify(b(".xml")), Classification::NestedSitemap(_)));
    assert!(matches!(classify(b("xml")), Classification::PageUrl(_)));
    assert!(matches!(classify(b("")), Classification::PageUrl(_)));
    // case-sensitive: an upper-case suffix is not a sitemap reference
    assert!(matches!(classify(b("a.XML")), Classification::PageUrl(_)));
}

#[test]
fn extract_one_entry_per_loc_in_order() {
    let mut doc = b("<?xml version=\"1.0\" encoding=\"UTF-8\"?>");
    doc.extend_from_slice(b"<urlset><url><loc>https://example.com/a</loc></url>");
    doc.extend_from_slice(b"<url><loc>https://example.com/b</loc></url></urlset>");
    let got = extract(&doc);
    assert_eq!(got, vec![b("https://example.com/a"), b("https://example.com/b")]);
}

#[test]
fn extract_trims_whitespace() {
    let doc = b("<urlset><loc>\n   https://example.com/x \t\r\n</loc></urlset>");
    assert_eq!(extract(&doc), vec![b("https://example.com/x")]);
}

#[test]
fn extract_skips_empty_loc() {
    let doc = b("<urlset><loc>  \n </loc><loc>https://example.com/y</loc></urlset>");
    assert_eq!(extract(&doc), vec![b("https://example.com/y")]);
}

#[test]
fn extract_no_loc_yields_nothing() {
    assert_eq!(extract(&b("<urlset></urlset>")), Vec::<Vec<u8>>::new());
    assert_eq!(extract(&b("")), Vec::<Vec<u8>>::new());
}

#[test]
fn extract_truncated_keeps_partial_results() {
    // truncated mid-stream after two valid entries: exactly those two, no error
    let doc = b("<loc>https://example.com/1</loc><loc>https://example.com/2</loc><loc>https://exa");
    assert_eq!(extract(&doc), vec![b("https://example.com/1"), b("https://example.com/2")]);
}

#[test]
fn extract_malformed_stops_but_keeps_prefix() {
    // the second entry never closes with </loc>: the scan stops after the first
    let doc = b("<loc>https://example.com/1</loc><loc>https://example.com/2</oops>");
    assert_eq!(extract(&doc), vec![b("https://example.com/1")]);
}

#[test]
fn resolve_two_children_four_pages() {
    let root = "https://example.com/sitemap.xml";
    let docs = [
        (
            "https://example.com/sitemap.xml",
            "<sitemapindex><loc>https://example.com/a.xml</loc><loc>https://example.com/b.xml</loc></sitemapindex>",
        ),
        (
            "https://example.com/a.xml",
            "<urlset><loc>https://example.com/p1</loc><loc>https://example.com/p2</loc></urlset>",
        ),
        (
            "https://example.com/b.xml",
            "<urlset><loc>https://example.com/p3</loc><loc>https://example.com/p4</loc></urlset>",
        ),
    ];
    let urls = run(root, &docs);
    assert_eq!(urls.len(), 4);
    for u in &urls {
        assert!(!u.ends_with(b".xml"));
    }
    for i in 0..urls.len() {
        for j in 0..i {
            assert_ne!(urls[i], urls[j]);
        }
    }
}

#[test]
fn resolve_failed_fetch_keeps_rest_of_tree() {
    // a.xml cannot be fetched; b.xml's pages still appear
    let root = "https://example.com/sitemap.xml";
    let docs = [
        (
            "https://example.com/sitemap.xml",
            "<sitemapindex><loc>https://example.com/a.xml</loc><loc>https://example.com/b.xml</loc></sitemapindex>",
        ),
        (
            "https://example.com/b.xml",
            "<urlset><loc>https://example.com/p3</loc><loc>https://example.com/p4</loc></urlset>",
        ),
    ];
    let urls = run(root, &docs);
    assert_eq!(urls, vec![b("https://example.com/p3"), b("https://example.com/p4")]);
}

#[test]
fn resolve_breadth_first_left_to_right() {
    // root -> [A.xml, B.xml], A -> [p1], B -> [p2]: p1 before p2
    let root = "https://example.com/root.xml";
    let docs = [
        (
            "https://example.com/root.xml",
            "<sitemapindex><loc>https://example.com/A.xml</loc><loc>https://example.com/B.xml</loc></sitemapindex>",
        ),
        ("https://example.com/A.xml", "<urlset><loc>https://example.com/p1</loc></urlset>"),
        ("https://example.com/B.xml", "<urlset><loc>https://example.com/p2</loc></urlset>"),
    ];
    let urls = run(root, &docs);
    assert_eq!(urls, vec![b("https://example.com/p1"), b("https://example.com/p2")]);
}

#[test]
fn resolve_twice_gives_identical_output_bytes() {
    let root = "https://example.com/sitemap.xml";
    let docs = [
        (
            "https://example.com/sitemap.xml",
            "<sitemapindex><loc>https://example.com/a.xml</loc></sitemapindex>",
        ),
        (
            "https://example.com/a.xml",
            "<urlset><loc>https://example.com/p1</loc><loc>https://example.com/p2</loc></urlset>",
        ),
    ];
    let first = render_output(&run(root, &docs));
    let second = render_output(&run(root, &docs));
    assert_eq!(first, second);
}

#[test]
fn render_output_one_url_per_line() {
    let urls = vec![b("https://example.com/p1"), b("https://example.com/p2")];
    assert_eq!(render_output(&urls), b("https://example.com/p1\nhttps://example.com/p2\n"));
    assert_eq!(render_output(&Vec::new()), b(""));
}

#[test]
fn traversal_pops_front_and_reports_done() {
    let mut t = Traversal::new(b("https://example.com/root.xml"));
    assert!(!t.is_done());
    assert_eq!(t.next_reference(), Some(b("https://example.com/root.xml")));
    assert!(t.is_done());
    assert_eq!(t.next_reference(), None);
    assert_eq!(t.into_results(), Vec::<Vec<u8>>::new());
}
