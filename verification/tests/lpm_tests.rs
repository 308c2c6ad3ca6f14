use regex::Regex;
use rover::lpm::{lpm_report_rows, lpm_table_rows, lpm_table_rows_of_pages};

fn by_regex(text: &str) -> Vec<(String, String)> {
    let re = Regex::new(
        r"(?m)^(\d+)\s+([\d.]+)\s+([\d.]+)\s+(\d+\.\d)(\d{2}\.\d+)\s+([\d.]+)\s+(\d+)",
    )
    .unwrap();
    re.captures_iter(text)
        .map(|c| (c.get(2).unwrap().as_str().to_string(), c.get(5).unwrap().as_str().to_string()))
        .collect()
}

const PAGE: &str = "Corner Longitude X Combined Y N\n\
1 80.123456 12.5 1.216.549876 3.25 7\n\
2 80.223456 12.6 11.316.649876 3.35 8\n\
not a row 3 80.1 1.1 1.116.1 1 1\n\
3\t80.3 12.7  9.916.749876 3.45 9 trailing\n";

#[test]
fn rows_of_a_report_page() {
    let rows = lpm_table_rows(PAGE);
    assert_eq!(
        rows,
        vec![
            ("80.123456".to_string(), "16.549876".to_string()),
            ("80.223456".to_string(), "16.649876".to_string()),
            ("80.3".to_string(), "16.749876".to_string()),
        ]
    );
    assert_eq!(rows, by_regex(PAGE));
}

#[test]
fn rows_agree_with_the_table_pattern() {
    let samples = [
        "",
        "1 2 3 4.567.8 9 10",
        "1 2 3 4.56.8 9 10",
        "1 2 3 4.5678.8 9 10",
        "1 2 3 4.567. 9 10",
        "1 2 3 4.567.8 9",
        "1\n2\n3\n4.567.8\n9\n10\n1 2 3 4.567.8 9 10",
        "x1 2 3 4.567.8 9 10\n1 2 3 4.567.8 9 10",
        "1 2 3 4.567.8 9 10 1 2 3 4.567.8 9 10",
        "1 2 3 4.567.8 9 10\n\n1 2 3 4.567.8 9 10\r\n1 2 3 4.567.8 9 10",
        "\u{0661} 2 3 4.567.8 9 10",
        "1\u{3000}..\u{a0}.. 44.567.89 .. 1",
        "1 2 3 4.567.8 9 10a\n5 6 7 8.123.4 5 6",
        "12 3.4 5.6 78.901.2345 6.7 89",
        "1 2 3 \u{0664}.\u{0665}67.8 9 10",
    ];
    for s in samples {
        assert_eq!(lpm_table_rows(s), by_regex(s), "sample {:?}", s);
    }
}

#[test]
fn rows_page_by_page() {
    let pages = vec![PAGE.to_string(), "9 1.5 2 3.456.7 8 9".to_string()];
    let rows = lpm_table_rows_of_pages(&pages);
    assert_eq!(rows.len(), 4);
    assert_eq!(rows[3], ("1.5".to_string(), "56.7".to_string()));
}

#[test]
fn unreadable_pdf_gives_none() {
    assert!(lpm_report_rows(b"this is not a pdf").is_none());
}

fn bar_rows_by_regex(text: &str) -> Vec<(String, String)> {
    let re = Regex::new(r"^\s*(\d+)\s*\|\s*([0-9.]+)\s*\|\s*([0-9.]+)").unwrap();
    text.lines()
        .filter_map(|line| {
            let c = re.captures(line)?;
            Some((c.get(2)?.as_str().to_string(), c.get(3)?.as_str().to_string()))
        })
        .collect()
}

#[test]
fn bar_table_rows_agree_with_the_line_pattern() {
    let samples = [
        "",
        "1 | 16.5 | 80.2",
        "  12|16.5|80.2 | 7\r\n3 |1.0| 2.0\n",
        "x 1 | 2 | 3\n4 | a | 5\n6 | 7 |\n8 | 9 | 1.2.3\r",
        "\r\n\n | 1 | 2\n1 || 2\n\u{0661} | 1 | 2",
        "1 | 2 | 3\r\r\n4\u{3000}|\u{2003}5 | 6",
    ];
    for s in samples {
        assert_eq!(rover::lpm::bar_table_rows(s), bar_rows_by_regex(s), "sample {:?}", s);
    }
}

#[test]
fn bar_table_single_line() {
    assert_eq!(
        rover::lpm::bar_table_row("  3 | 16.54 | 80.12 | extra"),
        Some(("16.54".to_string(), "80.12".to_string()))
    );
    assert_eq!(rover::lpm::bar_table_row("3 | 16.54"), None);
}
