use oxidize_pdf::parser::{PdfDocument, PdfReader};
use oxidize_pdf::{Document, Font, Page};
use regex::Regex;
use rover::lpm::{lpm_report_rows, table_chunk_rows, table_chunk_rows_of};
use std::io::Cursor;

fn report_pdf(lines: &[&str]) -> Vec<u8> {
    let mut doc = Document::new();
    let mut page = Page::a4();
    let mut y = 750.0;
    for line in lines {
        page.text()
            .set_font(Font::Helvetica, 10.0)
            .at(50.0, y)
            .write(line)
            .unwrap();
        y -= 14.0;
    }
    doc.add_page(page);
    doc.to_bytes().unwrap()
}

fn page_texts(pdf: &[u8]) -> Vec<String> {
    let reader = PdfReader::new(Cursor::new(pdf.to_vec())).unwrap();
    let document = PdfDocument::new(reader);
    document
        .extract_text()
        .unwrap()
        .into_iter()
        .map(|p| p.text)
        .collect()
}

fn lpm_rows_by_regex(text: &str) -> Vec<(String, String)> {
    let re = Regex::new(
        r"(?m)^(\d+)\s+([\d.]+)\s+([\d.]+)\s+(\d+\.\d)(\d{2}\.\d+)\s+([\d.]+)\s+(\d+)",
    )
    .unwrap();
    re.captures_iter(text)
        .map(|c| (c.get(2).unwrap().as_str().to_string(), c.get(5).unwrap().as_str().to_string()))
        .collect()
}

fn bar_rows_by_regex(text: &str) -> Vec<(String, String)> {
    let re = Regex::new(r"^\s*(\d+)\s*\|\s*([0-9.]+)\s*\|\s*([0-9.]+)").unwrap();
    text.lines()
        .filter_map(|l| re.captures(l))
        .map(|c| (c.get(2).unwrap().as_str().to_string(), c.get(3).unwrap().as_str().to_string()))
        .collect()
}

#[test]
fn report_rows_match_the_extracted_text() {
    let pdf = report_pdf(&[
        "Corner Longitude X Combined Y N",
        "1 80.123456 12.5 1.216.549876 3.25 7",
        "2 80.223456 12.6 11.316.649876 3.35 8",
    ]);
    let rows = lpm_report_rows(&pdf).expect("the generated PDF reads");
    let expected: Vec<(String, String)> =
        page_texts(&pdf).iter().flat_map(|t| lpm_rows_by_regex(t)).collect();
    assert_eq!(rows, expected);
}

#[test]
fn report_of_garbage_is_none() {
    assert_eq!(lpm_report_rows(b"%PDF-garbage"), None);
    assert_eq!(table_chunk_rows(b"%PDF-garbage"), None);
}

#[test]
fn table_chunks_match_the_chunker() {
    let pdf = report_pdf(&["1 | 16.5 | 80.1", "2 | 16.6 | 80.2", "Plain paragraph text"]);
    let tables = table_chunk_rows(&pdf).expect("the generated PDF reads");
    let reader = PdfReader::new(Cursor::new(pdf.clone())).unwrap();
    let document = PdfDocument::new(reader);
    let expected: Vec<Vec<(String, String)>> = document
        .rag_chunks()
        .unwrap()
        .into_iter()
        .filter(|c| c.element_types.iter().any(|k| k == "table"))
        .map(|c| bar_rows_by_regex(&c.text))
        .collect();
    assert_eq!(tables, expected);
}

#[test]
fn table_chunks_are_picked_by_kind() {
    let chunks = vec![
        (vec!["paragraph".to_string()], "1 | 9.9 | 8.8".to_string()),
        (
            vec!["title".to_string(), "table".to_string()],
            "Corner | Lat | Lng\n1 | 16.5 | 80.1\r\n 2|16.6|80.2 extra\nx | 1 | 2".to_string(),
        ),
        (vec!["table".to_string()], "no rows here".to_string()),
    ];
    assert_eq!(
        table_chunk_rows_of(&chunks),
        vec![
            vec![
                ("16.5".to_string(), "80.1".to_string()),
                ("16.6".to_string(), "80.2".to_string()),
            ],
            vec![],
        ]
    );
}
