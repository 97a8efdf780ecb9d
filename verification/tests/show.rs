use rust_grep::config::{get_config, init, ConfigSlot};
use rust_grep::data_struct::{
    FileContentPage, FileMetadata, FilePageContainer, PageMetaData, SearchHit, SearchHitMap,
};
use rust_grep::show::{AppState, AppView, KeyCode, KeyEvent, Visualizer};

fn hit(line: &str, line_number: usize, range: (usize, usize)) -> SearchHit {
    SearchHit { hit_position_vec: vec![range], line_number, matched_lines: line.to_string() }
}

fn raw_mock_fetch_detail() -> (FileContentPage, FileContentPage) {
    let test_page = FileContentPage {
        query_result: vec![hit("there is a test line", 1, (0, 5)), hit("A cat just in there", 2, (15, 20))],
    };
    let test_page_2 = FileContentPage {
        query_result: vec![hit("is a test line there", 1, (16, 21)), hit("there A cat just in", 2, (0, 5))],
    };
    (test_page, test_page_2)
}

fn create_mock_container() -> FilePageContainer {
    let page_meta = PageMetaData { current_page: 1, total_pages: 1, page_size: 20, total_lines: 3 };
    let meta1 = FileMetadata { file_path: "file1.txt".to_string() };
    let meta2 = FileMetadata { file_path: "file2.txt".to_string() };
    let (fcps_1, fcps_2) = raw_mock_fetch_detail();
    let mut shm = SearchHitMap::new();
    shm.insert("file1.txt".to_string(), fcps_1);
    shm.insert("file2.txt".to_string(), fcps_2);
    FilePageContainer { page_metadata: Some(page_meta), file_metadata_vec: vec![meta1, meta2], search_hit_map: shm }
}

#[test]
fn test_app_state_initialization() {
    let container = create_mock_container();
    let app = AppState::new(container);
    assert!(matches!(app.view, AppView::FileList));
    assert_eq!(app.list_state.selected(), Some(0));
    assert!(app.current_file_path.is_none());
}

#[test]
fn test_move_next() {
    let container = create_mock_container();
    let mut app = AppState::new(container);
    assert_eq!(app.list_state.selected(), Some(0));
    Visualizer::move_next(&mut app);
    assert_eq!(app.list_state.selected(), Some(1));
    Visualizer::move_next(&mut app);
    assert_eq!(app.list_state.selected(), Some(2));
    // past the last row comes the first
    Visualizer::move_next(&mut app);
    assert_eq!(app.list_state.selected(), Some(0));
}

#[test]
fn test_move_prev() {
    let container = create_mock_container();
    let mut app = AppState::new(container);
    assert_eq!(app.list_state.selected(), Some(0));
    // before the first row comes the last
    Visualizer::move_prev(&mut app);
    assert_eq!(app.list_state.selected(), Some(2));
    Visualizer::move_prev(&mut app);
    assert_eq!(app.list_state.selected(), Some(1));
}

#[test]
fn test_key_down_in_file_list() {
    let container = create_mock_container();
    let mut app = AppState::new(container);
    let mut slot = ConfigSlot::new();
    init(&mut slot);
    let config = get_config(&slot);

    Visualizer::handle_key_event(&mut app, KeyEvent::new(KeyCode::Down), config);
    assert_eq!(app.list_state.selected(), Some(1));

    Visualizer::handle_key_event(&mut app, KeyEvent::new(KeyCode::Enter), config);
    assert!(!app.current_file_path.is_none());
    assert_eq!(app.list_state.selected(), Some(0));
    assert_eq!(app.view, AppView::SearchDetail);
}

#[test]
fn enter_opens_selected_file_on_its_first_page() {
    let mut slot = ConfigSlot::new();
    init(&mut slot);
    let config = get_config(&slot);
    let mut app = Visualizer::start(create_mock_container(), config);
    let pmd = app.raw_data.page_metadata.unwrap();
    assert_eq!((pmd.current_page, pmd.total_pages, pmd.total_lines, pmd.page_size), (1, 1, 2, 20));
    Visualizer::handle_key_event(&mut app, KeyEvent::new(KeyCode::Down), config);
    Visualizer::handle_key_event(&mut app, KeyEvent::new(KeyCode::Enter), config);
    assert_eq!(app.current_file_path.as_deref(), Some("file2.txt"));
    let pmd = app.raw_data.page_metadata.unwrap();
    assert_eq!((pmd.current_page, pmd.total_pages, pmd.total_lines), (1, 1, 2));
    let page = app.raw_data.get_file_content_page("file2.txt").unwrap();
    assert_eq!(page.len(), 2);
    assert_eq!(page[0].matched_lines, "is a test line there");
}

#[test]
fn escape_returns_to_file_list_and_q_quits() {
    let mut slot = ConfigSlot::new();
    init(&mut slot);
    let config = get_config(&slot);
    let mut app = Visualizer::start(create_mock_container(), config);
    Visualizer::handle_key_event(&mut app, KeyEvent::new(KeyCode::Enter), config);
    assert_eq!(app.view, AppView::SearchDetail);
    assert_eq!(app.current_file_path.as_deref(), Some("file1.txt"));
    Visualizer::handle_key_event(&mut app, KeyEvent::new(KeyCode::Backspace), config);
    assert_eq!(app.view, AppView::FileList);
    assert_eq!(app.raw_data.page_metadata.unwrap().total_lines, 2);
    Visualizer::handle_key_event(&mut app, KeyEvent::new(KeyCode::Enter), config);
    Visualizer::handle_key_event(&mut app, KeyEvent::new(KeyCode::Esc), config);
    assert_eq!(app.view, AppView::FileList);
    assert!(!app.should_quit);
    Visualizer::handle_key_event(&mut app, KeyEvent::new(KeyCode::Char('x')), config);
    assert!(!app.should_quit);
    Visualizer::handle_key_event(&mut app, KeyEvent::new(KeyCode::Char('q')), config);
    assert!(app.should_quit);
}

#[test]
fn releases_change_nothing() {
    let mut slot = ConfigSlot::new();
    init(&mut slot);
    let config = get_config(&slot);
    let mut app = Visualizer::start(create_mock_container(), config);
    Visualizer::handle_key_event(&mut app, KeyEvent { code: KeyCode::Down, is_press: false }, config);
    assert_eq!(app.list_state.selected(), Some(0));
    Visualizer::handle_key_event(&mut app, KeyEvent { code: KeyCode::Char('q'), is_press: false }, config);
    assert!(!app.should_quit);
}

#[test]
fn detail_view_turns_pages_in_step_with_selection() {
    let mut page = FileContentPage { query_result: Vec::new() };
    for i in 0..45 {
        page.query_result.push(hit("x", i + 1, (0, 1)));
    }
    let mut shm = SearchHitMap::new();
    shm.insert("big.txt".to_string(), page);
    let container = FilePageContainer {
        file_metadata_vec: vec![FileMetadata { file_path: "big.txt".to_string() }],
        page_metadata: None,
        search_hit_map: shm,
    };
    let mut slot = ConfigSlot::new();
    init(&mut slot);
    let config = get_config(&slot);
    let mut app = Visualizer::start(container, config);
    Visualizer::handle_key_event(&mut app, KeyEvent::new(KeyCode::Enter), config);
    assert_eq!(app.raw_data.page_metadata.unwrap().total_pages, 3);
    Visualizer::handle_key_event(&mut app, KeyEvent::new(KeyCode::Down), config);
    assert_eq!(app.list_state.selected(), Some(1));
    assert_eq!(app.raw_data.page_metadata.unwrap().current_page, 2);
    let shown = app.raw_data.get_file_content_page("big.txt").unwrap();
    assert_eq!(shown.len(), 20);
    assert_eq!(shown[0].line_number, 21);
    Visualizer::handle_key_event(&mut app, KeyEvent::new(KeyCode::Down), config);
    let shown = app.raw_data.get_file_content_page("big.txt").unwrap();
    assert_eq!(shown.len(), 5);
    assert_eq!(shown[4].line_number, 45);
    // past the last page comes the first
    Visualizer::handle_key_event(&mut app, KeyEvent::new(KeyCode::Down), config);
    assert_eq!(app.list_state.selected(), Some(0));
    assert_eq!(app.raw_data.page_metadata.unwrap().current_page, 1);
    // before the first page comes the last
    Visualizer::handle_key_event(&mut app, KeyEvent::new(KeyCode::Up), config);
    assert_eq!(app.list_state.selected(), Some(2));
    assert_eq!(app.raw_data.page_metadata.unwrap().current_page, 3);
    Visualizer::handle_key_event(&mut app, KeyEvent::new(KeyCode::Up), config);
    Visualizer::handle_key_event(&mut app, KeyEvent::new(KeyCode::Down), config);
    assert_eq!(app.list_state.selected(), Some(2));
    assert_eq!(app.raw_data.page_metadata.unwrap().current_page, 3);
}

#[test]
fn help_text_follows_the_view() {
    assert_eq!(rust_grep::show::help_text(AppView::FileList), "↑/↓: 移动 | Enter: 查看详情 | q: 退出");
    assert_eq!(rust_grep::show::help_text(AppView::SearchDetail), "Esc: 返回列表 | q: 退出");
}
