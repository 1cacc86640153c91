use csv_extract::output::{output_file_name, push_decimal, render_lines, LineEnding};

fn strings(v: &[&str]) -> Vec<String> {
    v.iter().map(|s| s.to_string()).collect()
}

#[test]
fn render_with_lf() {
    let values = strings(&["a@x.com", "555-0100"]);
    assert_eq!(render_lines(&values, LineEnding::Lf), "a@x.com\n555-0100\n");
}

#[test]
fn render_with_crlf() {
    let values = strings(&["a@x.com", "555-0100"]);
    assert_eq!(render_lines(&values, LineEnding::CrLf), "a@x.com\r\n555-0100\r\n");
}

#[test]
fn render_nothing_is_empty() {
    assert_eq!(render_lines(&Vec::new(), LineEnding::Lf), "");
    assert_eq!(render_lines(&Vec::new(), LineEnding::CrLf), "");
}

#[test]
fn render_keeps_empty_values() {
    let values = strings(&["", "x", ""]);
    assert_eq!(render_lines(&values, LineEnding::Lf), "\nx\n\n");
}

#[test]
fn written_text_reads_back() {
    let values = strings(&["one", "two", "", "four"]);
    for ending in [LineEnding::Lf, LineEnding::CrLf] {
        let text = render_lines(&values, ending);
        let back: Vec<String> = text.lines().map(|l| l.to_string()).collect();
        assert_eq!(back, values);
    }
}

#[test]
fn line_endings() {
    assert_eq!(LineEnding::Lf.as_str(), "\n");
    assert_eq!(LineEnding::CrLf.as_str(), "\r\n");
    assert_eq!(LineEnding::for_host(true), LineEnding::Lf);
    assert_eq!(LineEnding::for_host(false), LineEnding::CrLf);
}

#[test]
fn file_name_layout() {
    assert_eq!(output_file_name("./Extracted", "EMails", 123456789), "./Extracted/EMails_123456789.txt");
    assert_eq!(output_file_name("./Extracted", "MobileNumbers", 0), "./Extracted/MobileNumbers_0.txt");
}

#[test]
fn decimal_notation() {
    let mut s = String::from("n=");
    push_decimal(&mut s, 4294967295);
    assert_eq!(s, "n=4294967295");
    let mut t = String::new();
    push_decimal(&mut t, 10);
    assert_eq!(t, "10");
    let mut u = String::new();
    push_decimal(&mut u, 7);
    assert_eq!(u, "7");
}

#[test]
fn distinct_times_give_distinct_names() {
    let a = output_file_name("./Extracted", "EMails", 1);
    let b = output_file_name("./Extracted", "EMails", 10);
    let c = output_file_name("./Extracted", "EMails", 100);
    assert_ne!(a, b);
    assert_ne!(b, c);
    assert_ne!(a, c);
}
