use rust_grep::config::{get_config, init, ConfigSlot, DEFAULT_PAGE_SIZE};
use rust_grep::data_struct::{
    count_pages, FileContentPage, FileMetadata, FilePageContainer, PageMetaData, PageMetaDataContainer,
    SearchHit, SearchHitMap,
};

fn page_of(n: usize) -> FileContentPage {
    FileContentPage {
        query_result: (0..n)
            .map(|i| SearchHit { matched_lines: format!("l{}", i), line_number: i + 1, hit_position_vec: vec![(0, 1)] })
            .collect(),
    }
}

#[test]
fn page_metadata_records() {
    let mut c = PageMetaDataContainer::new();
    assert!(c.get_page_metadata(3).is_none());
    let pmd = PageMetaData { current_page: 2, page_size: 20, total_pages: 4, total_lines: 70 };
    c.set_page_medatada(3, pmd);
    assert_eq!(c.get_page_metadata(3).unwrap().current_page, 2);
    c.set_page_medatada(3, PageMetaData { current_page: 4, ..pmd });
    assert_eq!(c.get_page_metadata(3).unwrap().current_page, 4);
    assert!(c.get_page_metadata(1).is_none());
}

#[test]
fn page_counts() {
    assert_eq!(count_pages(0, 20), 1);
    assert_eq!(count_pages(1, 20), 1);
    assert_eq!(count_pages(20, 20), 1);
    assert_eq!(count_pages(21, 20), 2);
    assert_eq!(count_pages(45, 20), 3);
}

#[test]
fn hit_map_insert_and_get() {
    let mut m = SearchHitMap::new();
    assert_eq!(m.len(), 0);
    m.insert("a".to_string(), page_of(1));
    m.insert("b".to_string(), page_of(2));
    m.insert("a".to_string(), page_of(3));
    assert_eq!(m.len(), 2);
    assert_eq!(m.get("a").unwrap().query_result.len(), 3);
    assert_eq!(m.get("b").unwrap().query_result.len(), 2);
    assert!(m.get("c").is_none());
}

#[test]
fn content_pages_split_the_hits() {
    let mut m = SearchHitMap::new();
    m.insert("f".to_string(), page_of(41));
    let mut c = FilePageContainer {
        file_metadata_vec: vec![FileMetadata { file_path: "f".to_string() }],
        page_metadata: None,
        search_hit_map: m,
    };
    assert!(c.get_file_content_page("f").is_none());
    let mut slot = ConfigSlot::new();
    init(&mut slot);
    assert_eq!(get_config(&slot).page_size, DEFAULT_PAGE_SIZE);
    c.new_content_page("f", get_config(&slot).page_size);
    let pmd = c.page_metadata.unwrap();
    assert_eq!((pmd.current_page, pmd.total_pages, pmd.total_lines), (1, 3, 41));
    let mut seen = Vec::new();
    for _ in 0..3 {
        for h in c.get_file_content_page("f").unwrap() {
            seen.push(h.line_number);
        }
        assert!(c.next_page().is_some());
    }
    assert_eq!(seen, (1..=41).collect::<Vec<usize>>());
    assert_eq!(c.page_metadata.unwrap().current_page, 1);
    assert_eq!(c.prev_page(), Some(3));
    assert_eq!(c.get_file_content_page("f").unwrap().len(), 1);
    assert!(c.get_file_content_page("g").is_none());
}

#[test]
fn file_list_paging() {
    let mut c = FilePageContainer {
        file_metadata_vec: (0..25).map(|i| FileMetadata { file_path: format!("f{}", i) }).collect(),
        page_metadata: None,
        search_hit_map: SearchHitMap::new(),
    };
    assert_eq!(c.next_page(), None);
    c.new_metadata_page(20);
    let pmd = c.page_metadata.unwrap();
    assert_eq!((pmd.current_page, pmd.total_pages, pmd.total_lines, pmd.page_size), (1, 2, 25, 20));
    assert_eq!(c.get_file_metadata().len(), 25);
}

#[test]
fn config_is_set_once() {
    let mut slot = ConfigSlot::new();
    assert!(!slot.is_initialized());
    init(&mut slot);
    assert!(slot.is_initialized());
    let c = get_config(&slot);
    assert_eq!(c.page_size, 20);
    assert!(c.on_test);
    init(&mut slot);
    assert_eq!(get_config(&slot).page_size, 20);
}
