use rust_grep::content_check::{query_data_struct, QueryError};
use rust_grep::data_struct::{DataStatus, DataStruct, DataStructPackage};

fn package(path: &str, lines: &[&str]) -> DataStructPackage {
    DataStructPackage {
        data_status: DataStatus::SUCCESS,
        data_path: path.to_string(),
        data_struct: DataStruct { values: lines.iter().map(|l| l.to_string()).collect() },
    }
}

#[test]
fn test_query_data_struct() {
    let data_struct = DataStruct {
        values: vec![
            "This is a test line.".to_string(),
            "Another line with keyword.".to_string(),
            "No match here.".to_string(),
        ],
    };

    let path_obj = "D:/test";

    let data_struct_package = DataStructPackage {
        data_path: path_obj.to_string(),
        data_struct: data_struct,
        data_status: DataStatus::SUCCESS,
    };

    let mut dsp_vec = Vec::new();
    dsp_vec.push(data_struct_package);

    let result = query_data_struct(&dsp_vec, "keyword").unwrap();

    assert_eq!(result.search_hit_map.get(path_obj).unwrap().query_result.len(), 1);
    assert_eq!(
        result.search_hit_map.get(path_obj).unwrap().query_result[0].matched_lines,
        "Another line with keyword.".to_string()
    );

    // an empty query is refused
    let result = query_data_struct(&dsp_vec, "");
    assert!(matches!(result, Err(QueryError::EmptyQuery)));

    // no match
    let result = query_data_struct(&dsp_vec, "Python").unwrap();
    assert!(result.search_hit_map.get(path_obj).unwrap().query_result.is_empty());
}

#[test]
fn query_reports_line_numbers_and_byte_ranges() {
    let packages = vec![package("a.txt", &["abcabc", "none", "xabcx"])];
    let result = query_data_struct(&packages, "abc").unwrap();
    let hits = &result.search_hit_map.get("a.txt").unwrap().query_result;
    assert_eq!(hits.len(), 2);
    assert_eq!(hits[0].line_number, 1);
    assert_eq!(hits[0].hit_position_vec, vec![(0, 3), (3, 6)]);
    assert_eq!(hits[1].line_number, 3);
    assert_eq!(hits[1].hit_position_vec, vec![(1, 4)]);
    assert!(result.page_metadata.is_none());
}

#[test]
fn query_matches_do_not_overlap() {
    let packages = vec![package("a.txt", &["aaaaa"])];
    let result = query_data_struct(&packages, "aa").unwrap();
    let hits = &result.search_hit_map.get("a.txt").unwrap().query_result;
    assert_eq!(hits[0].hit_position_vec, vec![(0, 2), (2, 4)]);
}

#[test]
fn query_positions_are_byte_offsets() {
    let packages = vec![package("a.txt", &["中文关键字和关键字"])];
    let result = query_data_struct(&packages, "关键字").unwrap();
    let hits = &result.search_hit_map.get("a.txt").unwrap().query_result;
    assert_eq!(hits[0].hit_position_vec, vec![(6, 15), (18, 27)]);
    let line = &hits[0].matched_lines;
    assert_eq!(&line[6..15], "关键字");
}

#[test]
fn query_lists_every_file_in_order() {
    let packages = vec![package("b.txt", &["x"]), package("a.txt", &["y"]), package("c.txt", &["x x"])];
    let result = query_data_struct(&packages, "x").unwrap();
    let paths: Vec<&str> = result.get_file_metadata().iter().map(|m| m.file_path.as_str()).collect();
    assert_eq!(paths, vec!["b.txt", "a.txt", "c.txt"]);
    assert_eq!(result.search_hit_map.len(), 3);
    assert!(result.search_hit_map.get("a.txt").unwrap().query_result.is_empty());
    assert_eq!(result.search_hit_map.get("c.txt").unwrap().query_result[0].hit_position_vec, vec![(0, 1), (2, 3)]);
    assert!(result.search_hit_map.get("d.txt").is_none());
}

#[test]
fn query_later_package_with_same_path_wins() {
    let packages = vec![package("a.txt", &["x"]), package("a.txt", &["y", "x", "x"])];
    let result = query_data_struct(&packages, "x").unwrap();
    assert_eq!(result.get_file_metadata().len(), 2);
    assert_eq!(result.search_hit_map.len(), 1);
    let hits = &result.search_hit_map.get("a.txt").unwrap().query_result;
    assert_eq!(hits.len(), 2);
    assert_eq!(hits[0].line_number, 2);
}

#[test]
fn longer_query_matches_fewer_lines() {
    let packages = vec![package("a.txt", &["abc", "ab", "xbc", "zabcz"])];
    let short = query_data_struct(&packages, "ab").unwrap();
    let long = query_data_struct(&packages, "abc").unwrap();
    let numbers = |c: &rust_grep::data_struct::FilePageContainer| -> Vec<usize> {
        c.search_hit_map.get("a.txt").unwrap().query_result.iter().map(|h| h.line_number).collect()
    };
    assert_eq!(numbers(&short), vec![1, 2, 4]);
    assert_eq!(numbers(&long), vec![1, 4]);
    assert!(numbers(&long).iter().all(|n| numbers(&short).contains(n)));
}

#[test]
fn failed_packages_have_no_hits() {
    let packages = vec![DataStructPackage {
        data_status: DataStatus::ERROR("UnsupportedFormat".to_string()),
        data_path: "b.exe".to_string(),
        data_struct: DataStruct { values: Vec::new() },
    }];
    let result = query_data_struct(&packages, "x").unwrap();
    assert!(result.search_hit_map.get("b.exe").unwrap().query_result.is_empty());
}
