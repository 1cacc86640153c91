use csv_extract::extract::{extract_column, find_column, get_data_from, select_column, ExtractError};

fn strings(v: &[&str]) -> Vec<String> {
    v.iter().map(|s| s.to_string()).collect()
}

#[test]
fn test_get_emails_from() {
    let data = "name,gender,home_address,mob_or_email\n\
                Alice,F,Addr1,alice@example.com\n\
                Bob,M,Addr2,bob@example.com\n\
                Carol,F,Addr3,carol@example.com\n";
    let emails = get_data_from(data.as_bytes()).unwrap();
    println!("Emails {:#?}", emails);
    assert!(emails.len() > 1);
}

#[test]
fn test_get_mob_from() {
    let data = "name,gender,home_address,mob_or_email\n\
                Alice,F,Addr1,555-0100\n\
                Bob,M,Addr2,555-0101\n";
    let mob = get_data_from(data.as_bytes()).unwrap();
    println!("mob {:#?}", mob);
    assert!(mob.len() > 1);
}

#[test]
fn two_records_in_order() {
    let data = "name,gender,home_address,mob_or_email\nAlice,F,Addr1,a@x.com\nBob,M,Addr2,555-0100\n";
    assert_eq!(get_data_from(data.as_bytes()), Ok(strings(&["a@x.com", "555-0100"])));
}

#[test]
fn every_well_formed_row_in_order() {
    let data = "name,gender,home_address,mob_or_email\n\
                a,F,h1,v1\nb,M,h2,v2\nc,F,h3,v3\nd,M,h4,v4\ne,F,h5,v5\n";
    assert_eq!(get_data_from(data.as_bytes()), Ok(strings(&["v1", "v2", "v3", "v4", "v5"])));
}

#[test]
fn malformed_rows_are_skipped() {
    let data = "name,gender,home_address,mob_or_email\n\
                a,F,h1,v1\n\
                broken,row\n\
                b,M,h2,v2\n\
                too,many,fields,here,x\n\
                c,F,h3,v3\n";
    assert_eq!(get_data_from(data.as_bytes()), Ok(strings(&["v1", "v2", "v3"])));
}

#[test]
fn invalid_utf8_row_is_skipped() {
    let mut data = b"name,gender,home_address,mob_or_email\na,F,h1,v1\n".to_vec();
    data.extend_from_slice(b"b,M,h2,\xff\xfe\n");
    data.extend_from_slice(b"c,F,h3,v3\n");
    assert_eq!(get_data_from(&data), Ok(strings(&["v1", "v3"])));
}

#[test]
fn header_only_gives_no_values() {
    let data = "name,gender,home_address,mob_or_email\n";
    assert_eq!(get_data_from(data.as_bytes()), Ok(Vec::new()));
}

#[test]
fn no_valid_rows_gives_no_values() {
    let data = "name,gender,home_address,mob_or_email\nx,y\nz\n";
    assert_eq!(get_data_from(data.as_bytes()), Ok(Vec::new()));
}

#[test]
fn column_found_by_name_not_position() {
    let data = "mob_or_email,name\n555-0100,Alice\n555-0101,Bob\n";
    assert_eq!(get_data_from(data.as_bytes()), Ok(strings(&["555-0100", "555-0101"])));
}

#[test]
fn other_column_by_name() {
    let data = "name,gender,home_address,mob_or_email\nAlice,F,Addr1,a@x.com\nBob,M,Addr2,555-0100\n";
    assert_eq!(extract_column(data.as_bytes(), "name"), Ok(strings(&["Alice", "Bob"])));
}

#[test]
fn quoted_fields_are_unquoted() {
    let data = "name,mob_or_email\n\"Doe, Jane\",\"j@x.com\"\n";
    assert_eq!(get_data_from(data.as_bytes()), Ok(strings(&["j@x.com"])));
}

#[test]
fn missing_column_is_an_error() {
    let data = "name,gender,home_address\nAlice,F,Addr1\n";
    assert_eq!(get_data_from(data.as_bytes()), Err(ExtractError::MissingColumn));
}

#[test]
fn empty_document_has_no_column() {
    assert_eq!(get_data_from(b""), Err(ExtractError::MissingColumn));
}

#[test]
fn unreadable_header_is_a_parse_error() {
    let data = b"name,\xff\xfe\na,b\n";
    assert_eq!(get_data_from(data), Err(ExtractError::Parse));
}

#[test]
fn find_column_takes_first_match() {
    let header = strings(&["a", "b", "a"]);
    assert_eq!(find_column(&header, "a"), Some(0));
    assert_eq!(find_column(&header, "b"), Some(1));
    assert_eq!(find_column(&header, "c"), None);
    assert_eq!(find_column(&Vec::new(), "a"), None);
}

#[test]
fn select_column_skips_failed_and_short_rows() {
    let header = strings(&["name", "mob_or_email"]);
    let records: Vec<Result<Vec<String>, ()>> = vec![
        Ok(strings(&["a", "1"])),
        Err(()),
        Ok(strings(&["b"])),
        Ok(strings(&["c", "3"])),
    ];
    assert_eq!(select_column(&header, &records, "mob_or_email"), Ok(strings(&["1", "3"])));
    assert_eq!(select_column(&header, &records, "name"), Ok(strings(&["a", "b", "c"])));
    assert_eq!(select_column(&header, &records, "other"), Err(ExtractError::MissingColumn));
}
