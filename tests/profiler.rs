use sort_bench::profiler::{Profiler, ProfilerError, Table};

fn labels(v: &[&str]) -> Vec<String> {
    v.iter().map(|s| s.to_string()).collect()
}

#[test]
fn average_of_two_recordings() {
    let mut p = Profiler::new();
    let t = p.create_table("T", labels(&["A", "B"]), labels(&["X", "Y"])).unwrap();
    p.record_cell_data_by_table_row_col_index(t, 0, 1, 10);
    p.record_cell_data_by_table_row_col_index(t, 0, 1, 20);
    assert_eq!(p.average(t, 0, 1), 15);
    assert_eq!(p.average(t, 1, 0), 0);
    assert_eq!(p.tables[t].cell(0, 1), (2, 30));
}

#[test]
fn average_rounds_down() {
    let mut t = Table::new(labels(&["X"]), labels(&["A"]));
    t.insert_value_in_cell_by_indices(0, 0, 10);
    t.insert_value_in_cell_by_indices(0, 0, 21);
    assert_eq!(t.average(0, 0), 15);
}

#[test]
fn record_by_labels() {
    let mut p = Profiler::new();
    p.create_table("first", labels(&["A"]), labels(&["X"])).unwrap();
    let t = p.create_table("second", labels(&["A", "B"]), labels(&["X", "Y"])).unwrap();
    assert_eq!(t, 1);
    p.record_cell_data("second", "B", "Y", 7);
    p.record_cell_data_by_table_index(t, "B", "X", 3);
    assert_eq!(p.tables[1].cell(1, 1), (1, 7));
    assert_eq!(p.tables[1].cell(1, 0), (1, 3));
    assert_eq!(p.tables[0].cell(0, 0), (0, 0));
}

#[test]
fn oversized_tables_are_refused() {
    let mut p = Profiler::new();
    let rows: Vec<String> = (0..11).map(|i| i.to_string()).collect();
    assert_eq!(p.create_table("T", rows, labels(&["X"])).err(), Some(ProfilerError::Capacity));
    let cols: Vec<String> = (0..201).map(|i| i.to_string()).collect();
    assert_eq!(p.create_table("T", labels(&["A"]), cols).err(), Some(ProfilerError::Capacity));
    let rows: Vec<String> = (0..10).map(|i| i.to_string()).collect();
    let cols: Vec<String> = (0..200).map(|i| i.to_string()).collect();
    assert_eq!(p.create_table("T", rows, cols), Ok(0));
}

#[test]
fn tables_are_found_by_name() {
    let mut p = Profiler::new();
    p.create_table("T", labels(&["A"]), labels(&["X", "Y"])).unwrap();
    assert!(p.get_table_ref("T").is_some());
    assert_eq!(p.get_table_ref("T").unwrap().columns, labels(&["X", "Y"]));
    assert!(p.get_table_ref("U").is_none());
}

#[test]
fn csv_of_a_one_by_two_table() {
    let mut p = Profiler::new();
    let t = p.create_table("T", labels(&["A"]), labels(&["X", "Y"])).unwrap();
    p.record_cell_data_by_table_row_col_index(t, 0, 0, 4);
    p.record_cell_data_by_table_row_col_index(t, 0, 1, 6);
    let table = p.get_table_ref("T").unwrap();
    let texts: Vec<Vec<String>> = vec![(0..2)
        .map(|c| {
            let (count, sum) = table.cell(0, c);
            format!("{}", sum as f64 / count as f64)
        })
        .collect()];
    assert_eq!(table.csv_text("T", &texts), "T,X,Y,\nA,4,6,\n");
}

#[test]
fn csv_of_a_table_without_rows() {
    let t = Table::new(labels(&["X"]), Vec::new());
    assert_eq!(t.csv_text("Empty", &Vec::new()), "Empty,X,\n");
}
