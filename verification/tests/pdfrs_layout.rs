use pdfrs::layout::paragraph::{BreakOpportunity, Paragraph, TextChunk, TextNode};
use pdfrs::layout::style::Style;

fn paragraph(texts: &[&str]) -> Paragraph<usize> {
    Paragraph {
        children: texts
            .iter()
            .enumerate()
            .map(|(i, t)| TextNode { text: t.to_string(), style: i })
            .collect(),
    }
}

fn texts(p: &Paragraph<usize>, chunks: &[TextChunk]) -> Vec<(String, Option<BreakOpportunity>)> {
    chunks
        .iter()
        .map(|c| (p.children[c.node].text[c.start..c.end].to_string(), c.break_after))
        .collect()
}

#[test]
fn paragraph_chunks_optional_break() {
    let p = paragraph(&["foo-bar"]);
    assert_eq!(
        texts(&p, &p.chunks()),
        vec![
            ("foo-".to_string(), Some(BreakOpportunity::Allowed)),
            ("bar".to_string(), Some(BreakOpportunity::Mandatory)),
        ]
    );
}

#[test]
fn paragraph_chunks_mandatory_break() {
    let p = paragraph(&["foo\nbar"]);
    assert_eq!(
        texts(&p, &p.chunks()),
        vec![
            ("foo\n".to_string(), Some(BreakOpportunity::Mandatory)),
            ("bar".to_string(), Some(BreakOpportunity::Mandatory)),
        ]
    );
}

#[test]
fn paragraph_chunks_multiple_text_nodes() {
    let p = paragraph(&["This ", "works."]);
    assert_eq!(
        texts(&p, &p.chunks()),
        vec![
            ("This ".to_string(), Some(BreakOpportunity::Allowed)),
            ("works.".to_string(), Some(BreakOpportunity::Mandatory)),
        ]
    );
}

#[test]
fn paragraph_chunks_two_nodes_without_breaks() {
    let p = paragraph(&["foo", "bar"]);
    let chunks = p.chunks();
    assert_eq!(
        texts(&p, &chunks),
        vec![("foo".to_string(), None), ("bar".to_string(), Some(BreakOpportunity::Mandatory))]
    );
    assert_eq!(chunks[1].node, 1);
}

#[test]
fn paragraph_chunks_three_nodes_without_breaks() {
    let p = paragraph(&["fo", "ob", "ar is!"]);
    assert_eq!(
        texts(&p, &p.chunks()),
        vec![
            ("fo".to_string(), None),
            ("ob".to_string(), None),
            ("ar ".to_string(), Some(BreakOpportunity::Allowed)),
            ("is!".to_string(), Some(BreakOpportunity::Mandatory)),
        ]
    );
}

#[test]
fn styles_compare_by_font() {
    let a = Style { font: "Helvetica".to_string() };
    let b = Style { font: "Helvetica".to_string() };
    let c = Style { font: "Courier".to_string() };
    assert!(a.same_as(&b));
    assert!(!a.same_as(&c));
}

#[test]
fn paragraph_chunks_cover_the_text() {
    let p = paragraph(&["Hello wor", "", "ld!\nNext line", "ü"]);
    let chunks = p.chunks();
    let joined: String = texts(&p, &chunks).into_iter().map(|(t, _)| t).collect();
    assert_eq!(joined, "Hello world!\nNext lineü");
    // consecutive chunks continue where the previous one ended
    for w in chunks.windows(2) {
        if w[0].node == w[1].node {
            assert_eq!(w[0].end, w[1].start);
        } else {
            assert_eq!(w[0].end, p.children[w[0].node].text.len());
            assert_eq!(w[1].start, 0);
        }
    }
    assert_eq!(chunks.last().unwrap().break_after, Some(BreakOpportunity::Mandatory));
}

#[test]
fn paragraph_chunks_of_empty_text() {
    let p = paragraph(&["", ""]);
    assert!(p.chunks().is_empty());
}
