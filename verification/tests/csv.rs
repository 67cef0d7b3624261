use knn_classifier::{CsvError, CsvRecord, KnnClassifier};

fn csv_records_of(c: &KnnClassifier) -> Vec<CsvRecord> {
    c.items
        .iter()
        .map(|it| CsvRecord {
            label: it.label.clone(),
            numerals: it.data.iter().map(|b| f64::from_bits(*b).to_string()).collect(),
        })
        .collect()
}

fn csv_export(c: &KnnClassifier, delimiter: char) -> String {
    KnnClassifier::to_csv(&csv_records_of(c), delimiter)
}

fn csv_import(c: &mut KnnClassifier, text: &str, delimiter: char, label_col: usize, skip_header: bool) {
    let records = KnnClassifier::from_csv(text, delimiter, label_col, skip_header).unwrap();
    for r in records.iter() {
        let data: Vec<u64> = r.numerals.iter().map(|n| n.parse::<f64>().unwrap().to_bits()).collect();
        c.fit_one(&data, &r.label);
    }
}

fn csv_fit_one(c: &mut KnnClassifier, data: &[f64], label: &str) {
    let patterns: Vec<u64> = data.iter().map(|x| x.to_bits()).collect();
    c.fit_one(&patterns, label);
}

fn record(label: &str, numerals: &[&str]) -> CsvRecord {
    CsvRecord { label: label.to_string(), numerals: numerals.iter().map(|n| n.to_string()).collect() }
}

#[test]
fn test_to_csv() {
    let mut c = KnnClassifier::new(5);
    csv_fit_one(&mut c, &[150.0, 80.0], "肥満");
    csv_fit_one(&mut c, &[153.0, 69.0], "肥満");
    csv_fit_one(&mut c, &[153.0, 94.0], "肥満");
    let s = csv_export(&c, ',');
    assert_eq!(s, "肥満,150,80\n肥満,153,69\n肥満,153,94\n");
    //
    let mut c = KnnClassifier::new(5);
    csv_import(&mut c, &s, ',', 0, false);
    assert_eq!(&csv_export(&c, ','), "肥満,150,80\n肥満,153,69\n肥満,153,94\n");
    //
    let mut c = KnnClassifier::new(5);
    csv_import(&mut c, "肥満, 150, 80\n肥満 , 153, 69.0\n 肥満, 153, 94.0\n", ',', 0, false);
    assert_eq!(&csv_export(&c, ','), "肥満,150,80\n肥満,153,69\n肥満,153,94\n");
}

#[test]
fn export_of_three_points() {
    let mut c = KnnClassifier::new(3);
    csv_fit_one(&mut c, &[150.0, 80.0], "Obesity");
    csv_fit_one(&mut c, &[153.0, 69.0], "Obesity");
    csv_fit_one(&mut c, &[153.0, 94.0], "Obesity");
    assert_eq!(csv_export(&c, ','), "Obesity,150,80\nObesity,153,69\nObesity,153,94\n");
}

#[test]
fn import_tolerates_white_space_and_export_is_canonical() {
    let mut c = KnnClassifier::new(3);
    csv_import(&mut c, "Obesity, 150, 80\nObesity , 153, 69.0\n Obesity, 153, 94.0\n", ',', 0, false);
    assert_eq!(c.items.len(), 3);
    assert_eq!(csv_export(&c, ','), "Obesity,150,80\nObesity,153,69\nObesity,153,94\n");
}

#[test]
fn import_adds_to_what_is_stored() {
    let mut c = KnnClassifier::new(3);
    csv_fit_one(&mut c, &[1.5], "a");
    csv_import(&mut c, "b,2.5\n", ',', 0, false);
    csv_import(&mut c, "c,3.5\n", ',', 0, false);
    assert_eq!(csv_export(&c, ';'), "a;1.5\nb;2.5\nc;3.5\n");
}

#[test]
fn written_text_is_exact() {
    assert_eq!(KnnClassifier::to_csv(&[], ','), "");
    assert_eq!(KnnClassifier::to_csv(&[record("a", &[])], ','), "a\n");
    assert_eq!(KnnClassifier::to_csv(&[record("", &["1"])], ','), ",1\n");
    assert_eq!(KnnClassifier::to_csv(&[record("", &[])], ','), "\n");
    assert_eq!(
        KnnClassifier::to_csv(&[record("x y", &["1", "-2.5", "1e3"]), record("z", &["0"])], '\t'),
        "x y\t1\t-2.5\t1e3\nz\t0\n"
    );
    assert_eq!(KnnClassifier::to_csv(&[record("a", &["", "b c"])], '|'), "a||b c\n");
}

#[test]
fn read_records_are_as_written() {
    let got = KnnClassifier::from_csv("Obesity , 153, 69.0\n", ',', 0, false);
    assert_eq!(got, Ok(vec![record("Obesity", &["153", "69.0"])]));
    let got = KnnClassifier::from_csv("5.1,3.5,1.4,0.2,Iris-setosa\n6.2,3.4,5.4,2.3,Iris-virginica", ',', 4, false);
    assert_eq!(
        got,
        Ok(vec![
            record("Iris-setosa", &["5.1", "3.5", "1.4", "0.2"]),
            record("Iris-virginica", &["6.2", "3.4", "5.4", "2.3"]),
        ])
    );
    let got = KnnClassifier::from_csv("1;b;2", ';', 1, false);
    assert_eq!(got, Ok(vec![record("b", &["1", "2"])]));
    let got = KnnClassifier::from_csv("only", ',', 0, false);
    assert_eq!(got, Ok(vec![record("only", &[])]));
    let got = KnnClassifier::from_csv(",1", ',', 0, false);
    assert_eq!(got, Ok(vec![record("", &["1"])]));
}

#[test]
fn header_is_skipped_by_position() {
    let text = "label,height,weight\nA,1,2\nB,3,4\n";
    assert_eq!(
        KnnClassifier::from_csv(text, ',', 0, true),
        Ok(vec![record("A", &["1", "2"]), record("B", &["3", "4"])])
    );
    assert_eq!(
        KnnClassifier::from_csv(text, ',', 0, false),
        Err(CsvError::Parse { line: 0, field: "height".to_string() })
    );
    assert_eq!(KnnClassifier::from_csv("A,1\nB,2\n", ',', 0, true), Ok(vec![record("B", &["2"])]));
    assert_eq!(
        KnnClassifier::from_csv("\nhead\nA,1\n", ',', 0, true),
        Ok(vec![record("head", &[]), record("A", &["1"])])
    );
    assert_eq!(KnnClassifier::from_csv("A,1", ',', 0, true), Ok(vec![]));
    assert_eq!(KnnClassifier::from_csv("", ',', 0, true), Ok(vec![]));
}

#[test]
fn blank_lines_are_skipped() {
    let text = "\n  \nA,1\n\t\n\nB,2\n   ";
    assert_eq!(
        KnnClassifier::from_csv(text, ',', 0, false),
        Ok(vec![record("A", &["1"]), record("B", &["2"])])
    );
    assert_eq!(KnnClassifier::from_csv("", ',', 0, false), Ok(vec![]));
    assert_eq!(KnnClassifier::from_csv("\n\n\n", ',', 0, false), Ok(vec![]));
    assert_eq!(KnnClassifier::from_csv(" \u{3000}\u{a0}\r\n", ',', 0, false), Ok(vec![]));
}

#[test]
fn carriage_returns_at_line_ends_are_white_space() {
    assert_eq!(
        KnnClassifier::from_csv("A,1\r\nB,2\r\n", ',', 0, false),
        Ok(vec![record("A", &["1"]), record("B", &["2"])])
    );
    assert_eq!(
        KnnClassifier::from_csv("1,A\r\n2,B\r", ',', 1, false),
        Ok(vec![record("A", &["1"]), record("B", &["2"])])
    );
}

#[test]
fn other_delimiters() {
    assert_eq!(
        KnnClassifier::from_csv("A\t1\t2\nB\t3\t4\n", '\t', 0, false),
        Ok(vec![record("A", &["1", "2"]), record("B", &["3", "4"])])
    );
    assert_eq!(KnnClassifier::from_csv("A 1 2", ' ', 0, false), Ok(vec![record("A", &["1", "2"])]));
    assert_eq!(
        KnnClassifier::from_csv("肥満、1、2", '、', 0, false),
        Ok(vec![record("肥満", &["1", "2"])])
    );
    assert_eq!(
        KnnClassifier::from_csv(" 1 2", ' ', 0, false),
        Ok(vec![record("1", &["2"])])
    );
}

#[test]
fn field_that_is_no_numeral_is_a_fault() {
    assert_eq!(
        KnnClassifier::from_csv("A,1,x\n", ',', 0, false),
        Err(CsvError::Parse { line: 0, field: "x".to_string() })
    );
    assert_eq!(
        KnnClassifier::from_csv("A,1\n\nB, 2 3 ,4\nC,y\n", ',', 0, false),
        Err(CsvError::Parse { line: 2, field: "2 3".to_string() })
    );
    assert_eq!(
        KnnClassifier::from_csv("A,,1\n", ',', 0, false),
        Err(CsvError::Parse { line: 0, field: "".to_string() })
    );
    assert_eq!(
        KnnClassifier::from_csv("h\nA,1,\n", ',', 0, true),
        Err(CsvError::Parse { line: 1, field: "".to_string() })
    );
    assert_eq!(
        KnnClassifier::from_csv("A,1\nB,1_000\n", ',', 0, false),
        Err(CsvError::Parse { line: 1, field: "1_000".to_string() })
    );
    assert_eq!(
        KnnClassifier::from_csv("A,q,r\n", ',', 0, false),
        Err(CsvError::Parse { line: 0, field: "q".to_string() })
    );
}

#[test]
fn row_too_short_for_the_label_is_a_fault() {
    assert_eq!(KnnClassifier::from_csv("1,2\n", ',', 2, false), Err(CsvError::MissingLabel { line: 0 }));
    assert_eq!(
        KnnClassifier::from_csv("1,2,A\n\n3\n", ',', 2, false),
        Err(CsvError::MissingLabel { line: 2 })
    );
    assert_eq!(
        KnnClassifier::from_csv("A,1\n", ',', 5, false),
        Err(CsvError::Parse { line: 0, field: "A".to_string() })
    );
    assert_eq!(KnnClassifier::from_csv("1,2\n", ',', usize::MAX, false), Err(CsvError::MissingLabel { line: 0 }));
}

#[test]
fn written_records_are_read_back() {
    let records = vec![
        record("Iris setosa", &["5.1", "-3.5e-2", ".5", "5.", "+inf", "NaN"]),
        record("x", &[]),
        record("", &["0"]),
        record("a\rb", &["1E5", "-Infinity"]),
    ];
    for delimiter in [',', ';', '|', '#'] {
        let text = KnnClassifier::to_csv(&records, delimiter);
        assert_eq!(KnnClassifier::from_csv(&text, delimiter, 0, false), Ok(records.clone()));
    }
    let labelled = vec![record("a", &["1", "2"]), record("b", &[]), record("c d", &["-.5e+3"])];
    for delimiter in ['\t', '\r', '\u{3000}'] {
        let text = KnnClassifier::to_csv(&labelled, delimiter);
        assert_eq!(KnnClassifier::from_csv(&text, delimiter, 0, false), Ok(labelled.clone()));
    }
    let bare = vec![record("a", &[]), record("b", &[])];
    let text = KnnClassifier::to_csv(&bare, '\n');
    assert_eq!(KnnClassifier::from_csv(&text, '\n', 0, false), Ok(bare));
    let spaced = vec![record("a b", &["1", "2"]), record("c", &["3"])];
    let text = KnnClassifier::to_csv(&spaced, '/');
    assert_eq!(text, "a b/1/2\nc/3\n");
    assert_eq!(KnnClassifier::from_csv(&text, '/', 0, false), Ok(spaced));
}

#[test]
fn records_that_are_not_portable_come_back_changed() {
    let text = KnnClassifier::to_csv(&[record("a,b", &["1"])], ',');
    assert_eq!(
        KnnClassifier::from_csv(&text, ',', 0, false),
        Err(CsvError::Parse { line: 0, field: "b".to_string() })
    );
    let text = KnnClassifier::to_csv(&[record(" a", &["1"])], ',');
    assert_eq!(KnnClassifier::from_csv(&text, ',', 0, false), Ok(vec![record("a", &["1"])]));
    let text = KnnClassifier::to_csv(&[record("", &[])], ',');
    assert_eq!(KnnClassifier::from_csv(&text, ',', 0, false), Ok(vec![]));
    let text = KnnClassifier::to_csv(&[record("", &["1", "2"])], ' ');
    assert_eq!(KnnClassifier::from_csv(&text, ' ', 0, false), Ok(vec![record("1", &["2"])]));
    let text = KnnClassifier::to_csv(&[record("a", &["1.5"])], '.');
    assert_eq!(KnnClassifier::from_csv(&text, '.', 0, false), Ok(vec![record("a", &["1", "5"])]));
}

#[test]
fn numbers_survive_export_and_import() {
    let values = [0.1, -2.5e-7, 1.0e21, 123456789.125, f64::MAX, f64::MIN_POSITIVE, 0.0, 5e-324];
    let mut c = KnnClassifier::new(1);
    csv_fit_one(&mut c, &values, "v");
    let text = csv_export(&c, ',');
    let mut d = KnnClassifier::new(1);
    csv_import(&mut d, &text, ',', 0, false);
    assert_eq!(d.items.len(), 1);
    assert_eq!(d.items[0].label, "v");
    assert_eq!(d.items[0].data, c.items[0].data);
    assert_eq!(d.k, c.k);
}

#[test]
fn imported_points_take_part_in_prediction() {
    let mut c = KnnClassifier::new(3);
    for (data, label) in [
        ([170., 60.], "Normal"),
        ([166., 58.], "Normal"),
        ([152., 99.], "Obesity"),
        ([163., 95.], "Obesity"),
        ([150., 90.], "Obesity"),
    ] {
        csv_fit_one(&mut c, &data, label);
    }
    let text = csv_export(&c, ',');
    assert_eq!(text, "Normal,170,60\nNormal,166,58\nObesity,152,99\nObesity,163,95\nObesity,150,90\n");
    let mut fresh = KnnClassifier::new(3);
    csv_import(&mut fresh, &text, ',', 0, false);
    assert_eq!(fresh.items.len(), 5);
    for (i, item) in fresh.items.iter().enumerate() {
        assert_eq!(item.label, c.items[i].label);
        assert_eq!(item.data, c.items[i].data);
    }
    let query = [150.0f64, 80.0];
    let distances: Vec<u64> = fresh
        .items
        .iter()
        .map(|it| {
            it.data
                .iter()
                .zip(query.iter())
                .map(|(b, q)| (f64::from_bits(*b) - q).powi(2))
                .sum::<f64>()
                .sqrt()
                .to_bits()
        })
        .collect();
    assert_eq!(fresh.predict_one(&distances), Ok("Obesity".to_string()));
}
