use vstd::prelude::*;
use crate::config::Config;
use crate::data_struct::{first_page, lemma_page_turns_move, page_after, page_before, FilePageContainer, PageMetaData};

verus! {

/// Which screen the viewer shows.
#[derive(Clone, Copy, PartialEq, Eq, Debug, Structural)]
pub enum AppView {
    /// The list of searched files.
    FileList,
    /// The hits of one file.
    SearchDetail,
}

/// The keys the viewer tells apart.
#[derive(Clone, Copy, PartialEq, Eq, Debug, Structural)]
pub enum KeyCode {
    Char(char),
    Down,
    Up,
    Enter,
    Esc,
    Backspace,
    /// Any other key.
    Other,
}

/// A key event: which key, and whether it is a press (rather than a
/// repeat or a release).
#[derive(Clone, Copy, PartialEq, Eq, Debug, Structural)]
pub struct KeyEvent {
    pub code: KeyCode,
    pub is_press: bool,
}

impl KeyEvent {
    /// A press of `code`.
    pub fn new(code: KeyCode) -> (k: KeyEvent)
        ensures
            k.code == code,
            k.is_press,
    {
        KeyEvent { code, is_press: true }
    }

    /// Whether this event is a press.
    pub fn is_press(&self) -> (b: bool)
        ensures
            b == self.is_press,
    {
        self.is_press
    }
}

/// The selected row of the list on screen, if any.
#[derive(Clone, Copy, PartialEq, Eq, Debug, Structural)]
pub struct ListState {
    pub selected: Option<usize>,
}

impl ListState {
    /// The selected row.
    pub fn selected(&self) -> (r: Option<usize>)
        ensures
            r == self.selected,
    {
        self.selected
    }

    /// Selects `index` (or nothing).
    pub fn select(&mut self, index: Option<usize>)
        ensures
            final(self).selected == index,
    {
        self.selected = index;
    }
}

/// The state of the viewer.
pub struct AppState {
    pub view: AppView,
    pub raw_data: FilePageContainer,
    pub list_state: ListState,
    /// The file whose hits the detail screen shows.
    pub current_file_path: Option<String>,
    pub should_quit: bool,
}

impl AppState {
    /// The viewer on the file list, with the first row selected.
    pub fn new(data: FilePageContainer) -> (app: AppState)
        ensures
            app.view == AppView::FileList,
            app.raw_data == data,
            app.list_state.selected == Some(0usize),
            app.current_file_path is None,
            !app.should_quit,
    {
        AppState {
            view: AppView::FileList,
            raw_data: data,
            list_state: ListState { selected: Some(0) },
            current_file_path: None,
            should_quit: false,
        }
    }
}

/// `count - 1`, or 0 when `count` is 0.
pub open spec fn last_index(count: usize) -> usize {
    if count == 0 { 0 } else { (count - 1) as usize }
}

/// The row after `selected` in a list of `count` rows; after the last
/// comes the first, and with nothing selected the first.
pub open spec fn wrap_next(selected: Option<usize>, count: usize) -> usize {
    match selected {
        Some(i) => if i >= last_index(count) { 0 } else { (i + 1) as usize },
        None => 0,
    }
}

/// The row before `selected` in a list of `count` rows; before the first
/// comes the last, and with nothing selected the first.
pub open spec fn wrap_prev(selected: Option<usize>, count: usize) -> usize {
    match selected {
        Some(i) => if i == 0 { last_index(count) } else { (i - 1) as usize },
        None => 0,
    }
}

/// The paging in force; the viewer pages once it has started.
pub open spec fn paging(app: AppState) -> PageMetaData {
    app.raw_data.page_metadata.unwrap()
}

/// `new` is `old` after a step down: on the file list the next file row
/// is selected; on the detail screen the next page is selected and shown.
pub open spec fn moved_next(old: AppState, new: AppState) -> bool {
    &&& new.view == old.view
    &&& new.current_file_path == old.current_file_path
    &&& new.should_quit == old.should_quit
    &&& new.raw_data.file_metadata_vec == old.raw_data.file_metadata_vec
    &&& new.raw_data.search_hit_map == old.raw_data.search_hit_map
    &&& match old.view {
        AppView::FileList => {
            &&& new.list_state.selected == Some(wrap_next(old.list_state.selected, paging(old).total_lines))
            &&& new.raw_data.page_metadata == old.raw_data.page_metadata
        },
        AppView::SearchDetail => {
            &&& new.list_state.selected == Some(wrap_next(old.list_state.selected, paging(old).total_pages))
            &&& new.raw_data.page_metadata == Some(page_after(paging(old)))
        },
    }
}

/// `new` is `old` after a step up, the mirror of `moved_next`.
pub open spec fn moved_prev(old: AppState, new: AppState) -> bool {
    &&& new.view == old.view
    &&& new.current_file_path == old.current_file_path
    &&& new.should_quit == old.should_quit
    &&& new.raw_data.file_metadata_vec == old.raw_data.file_metadata_vec
    &&& new.raw_data.search_hit_map == old.raw_data.search_hit_map
    &&& match old.view {
        AppView::FileList => {
            &&& new.list_state.selected == Some(wrap_prev(old.list_state.selected, paging(old).total_lines))
            &&& new.raw_data.page_metadata == old.raw_data.page_metadata
        },
        AppView::SearchDetail => {
            &&& new.list_state.selected == Some(wrap_prev(old.list_state.selected, paging(old).total_pages))
            &&& new.raw_data.page_metadata == Some(page_before(paging(old)))
        },
    }
}

/// The file that Enter opens: the selected row of the file list, or, with
/// nothing selected, the file opened last.
pub open spec fn file_to_open(app: AppState) -> Option<String> {
    match app.list_state.selected {
        Some(i) => Some(app.raw_data.file_metadata_vec@[i as int].file_path),
        None => app.current_file_path,
    }
}

/// `new` is `old` after Enter on the file list: the detail screen of
/// `file_to_open(old)`, on its first page, with the first page selected.
pub open spec fn opened_file(old: AppState, new: AppState, page_size: usize) -> bool {
    let path = file_to_open(old).unwrap();
    &&& new.view == AppView::SearchDetail
    &&& new.current_file_path == Some(path)
    &&& new.should_quit == old.should_quit
    &&& new.list_state.selected == Some(0usize)
    &&& new.raw_data.file_metadata_vec == old.raw_data.file_metadata_vec
    &&& new.raw_data.search_hit_map == old.raw_data.search_hit_map
    &&& new.raw_data.page_metadata == Some(
        first_page(old.raw_data.search_hit_map@[path@].len() as int, page_size as int),
    )
}

/// `new` is `old` after Esc or Backspace on the detail screen: the file
/// list, paged from its first page; the selected row is kept.
pub open spec fn closed_file(old: AppState, new: AppState, page_size: usize) -> bool {
    &&& new.view == AppView::FileList
    &&& new.current_file_path == old.current_file_path
    &&& new.should_quit == old.should_quit
    &&& new.list_state == old.list_state
    &&& new.raw_data.file_metadata_vec == old.raw_data.file_metadata_vec
    &&& new.raw_data.search_hit_map == old.raw_data.search_hit_map
    &&& new.raw_data.page_metadata == Some(
        first_page(old.raw_data.file_metadata_vec@.len() as int, page_size as int),
    )
}

/// `new` is `old` with the request to quit.
pub open spec fn quit_requested(old: AppState, new: AppState) -> bool {
    &&& new.view == old.view
    &&& new.current_file_path == old.current_file_path
    &&& new.should_quit
    &&& new.list_state == old.list_state
    &&& new.raw_data == old.raw_data
}

/// The inputs on which handling `key` completes: a step needs the paging
/// in force, and Enter a file to open that has an entry among the hits.
pub open spec fn key_can_be_handled(app: AppState, key: KeyEvent) -> bool {
    key.is_press ==> match app.view {
        AppView::FileList => match key.code {
            KeyCode::Down | KeyCode::Up => app.raw_data.page_metadata is Some,
            KeyCode::Enter => {
                &&& (app.list_state.selected matches Some(i) ==> i < app.raw_data.file_metadata_vec@.len())
                &&& file_to_open(app) is Some
                &&& app.raw_data.search_hit_map@.contains_key(file_to_open(app).unwrap()@)
            },
            _ => true,
        },
        AppView::SearchDetail => match key.code {
            KeyCode::Down | KeyCode::Up => app.raw_data.page_metadata is Some,
            _ => true,
        },
    }
}

/// What handling `key` does to the viewer: presses of q quit; on the file
/// list Down and Up step, Enter opens a file; on the detail screen Esc and
/// Backspace go back, Down and Up turn pages. Everything else changes
/// nothing.
pub open spec fn key_handled(old: AppState, new: AppState, key: KeyEvent, page_size: usize) -> bool {
    if !key.is_press {
        new == old
    } else {
        match old.view {
            AppView::FileList => match key.code {
                KeyCode::Char('q') => quit_requested(old, new),
                KeyCode::Down => moved_next(old, new),
                KeyCode::Up => moved_prev(old, new),
                KeyCode::Enter => opened_file(old, new, page_size),
                _ => new == old,
            },
            AppView::SearchDetail => match key.code {
                KeyCode::Esc | KeyCode::Backspace => closed_file(old, new, page_size),
                KeyCode::Char('q') => quit_requested(old, new),
                KeyCode::Down => moved_next(old, new),
                KeyCode::Up => moved_prev(old, new),
                _ => new == old,
            },
        }
    }
}

/// The viewer's decisions: how keys move it between states.
pub struct Visualizer;

impl Visualizer {
    /// The viewer over `data` as it first appears: the file list, paged
    /// from its first page, with the first row selected.
    pub fn start(data: FilePageContainer, config: &Config) -> (app: AppState)
        requires
            config.page_size > 0,
        ensures
            app.view == AppView::FileList,
            app.list_state.selected == Some(0usize),
            app.current_file_path is None,
            !app.should_quit,
            app.raw_data.file_metadata_vec == data.file_metadata_vec,
            app.raw_data.search_hit_map == data.search_hit_map,
            app.raw_data.page_metadata == Some(first_page(data.file_metadata_vec@.len() as int, config.page_size as int)),
    {
        let mut app = AppState::new(data);
        Self::init_page_metadata(&mut app, config.page_size);
        app
    }

    /// Handles one key event; see `key_handled`.
    pub fn handle_key_event(app: &mut AppState, key: KeyEvent, config: &Config)
        requires
            config.page_size > 0,
            key_can_be_handled(*old(app), key),
        ensures
            key_handled(*old(app), *final(app), key, config.page_size),
    {
        if !key.is_press() {
            return;
        }
        match app.view {
            AppView::FileList => match key.code {
                KeyCode::Char('q') => {
                    app.should_quit = true;
                },
                KeyCode::Down => {
                    Self::move_next(app);
                },
                KeyCode::Up => {
                    Self::move_prev(app);
                },
                KeyCode::Enter => {
                    if let Some(index) = app.list_state.selected() {
                        let file_path = app.raw_data.file_metadata_vec[index].file_path.clone();
                        app.current_file_path = Some(file_path);
                    }
                    app.view = AppView::SearchDetail;
                    Self::init_page_metadata(app, config.page_size);
                    app.list_state.select(Some(0));
                },
                _ => {},
            },
            AppView::SearchDetail => match key.code {
                KeyCode::Esc | KeyCode::Backspace => {
                    app.view = AppView::FileList;
                    Self::init_page_metadata(app, config.page_size);
                },
                KeyCode::Char('q') => {
                    app.should_quit = true;
                },
                KeyCode::Down => {
                    Self::move_next(app);
                },
                KeyCode::Up => {
                    Self::move_prev(app);
                },
                _ => {},
            },
        }
    }

    /// Pages what the current screen lists from its first page: the file
    /// list, or the hits of the open file.
    pub fn init_page_metadata(app: &mut AppState, page_size: usize)
        requires
            page_size > 0,
            old(app).view == AppView::SearchDetail ==> {
                &&& old(app).current_file_path is Some
                &&& old(app).raw_data.search_hit_map@.contains_key(old(app).current_file_path.unwrap()@)
            },
        ensures
            final(app).view == old(app).view,
            final(app).current_file_path == old(app).current_file_path,
            final(app).should_quit == old(app).should_quit,
            final(app).list_state == old(app).list_state,
            final(app).raw_data.file_metadata_vec == old(app).raw_data.file_metadata_vec,
            final(app).raw_data.search_hit_map == old(app).raw_data.search_hit_map,
            final(app).raw_data.page_metadata == Some(match old(app).view {
                AppView::FileList => first_page(old(app).raw_data.file_metadata_vec@.len() as int, page_size as int),
                AppView::SearchDetail => first_page(
                    old(app).raw_data.search_hit_map@[old(app).current_file_path.unwrap()@].len() as int,
                    page_size as int,
                ),
            }),
    {
        match app.view {
            AppView::FileList => {
                app.raw_data.new_metadata_page(page_size);
            },
            AppView::SearchDetail => {
                match &app.current_file_path {
                    Some(path) => {
                        app.raw_data.new_content_page(path.as_str(), page_size);
                    },
                    None => {},
                }
            },
        }
    }

    /// Steps down; see `moved_next`.
    pub fn move_next(app: &mut AppState)
        requires
            old(app).raw_data.page_metadata is Some,
        ensures
            moved_next(*old(app), *final(app)),
    {
        let pmd = app.raw_data.page_metadata.unwrap();
        match app.view {
            AppView::FileList => {
                let i = match app.list_state.selected() {
                    Some(i) => if i >= pmd.total_lines.saturating_sub(1) { 0 } else { i + 1 },
                    None => 0,
                };
                app.list_state.select(Some(i));
            },
            AppView::SearchDetail => {
                let i = match app.list_state.selected() {
                    Some(i) => if i >= pmd.total_pages.saturating_sub(1) { 0 } else { i + 1 },
                    None => 0,
                };
                app.list_state.select(Some(i));
                let _ = app.raw_data.next_page();
            },
        }
    }

    /// Steps up; see `moved_prev`.
    pub fn move_prev(app: &mut AppState)
        requires
            old(app).raw_data.page_metadata is Some,
        ensures
            moved_prev(*old(app), *final(app)),
    {
        let pmd = app.raw_data.page_metadata.unwrap();
        match app.view {
            AppView::FileList => {
                let total = pmd.total_lines;
                let i = match app.list_state.selected() {
                    Some(i) => if i == 0 { total.saturating_sub(1) } else { i.saturating_sub(1) },
                    None => 0,
                };
                app.list_state.select(Some(i));
            },
            AppView::SearchDetail => {
                let total = pmd.total_pages;
                let i = match app.list_state.selected() {
                    Some(i) => if i == 0 { total.saturating_sub(1) } else { i.saturating_sub(1) },
                    None => 0,
                };
                app.list_state.select(Some(i));
                let _ = app.raw_data.prev_page();
            },
        }
    }
}

/// Every file of the list has an entry among the hits.
pub open spec fn lists_only_searched_files(data: FilePageContainer) -> bool {
    forall|i: int|
        0 <= i < data.file_metadata_vec@.len() ==> data.search_hit_map@.contains_key(
            #[trigger] data.file_metadata_vec@[i].file_path@,
        )
}

/// The selection lies in the list on screen: on the file list a row of
/// it, on the detail screen the row of the page shown (pages count from
/// 1, rows from 0).
pub open spec fn selection_in_range(app: AppState) -> bool {
    let pmd = paging(app);
    match app.view {
        AppView::FileList => app.list_state.selected matches Some(i) && i < pmd.total_lines,
        AppView::SearchDetail => {
            &&& 1 <= pmd.current_page <= pmd.total_pages
            &&& app.list_state.selected == Some((pmd.current_page - 1) as usize)
        },
    }
}

/// What holds of the viewer between keys: it pages, every listed file has
/// hits recorded, and the detail screen shows a recorded file with the
/// selected row equal to the page shown.
pub open spec fn viewer_consistent(app: AppState) -> bool {
    &&& app.raw_data.page_metadata is Some
    &&& lists_only_searched_files(app.raw_data)
    &&& app.view == AppView::SearchDetail ==> {
        &&& app.current_file_path is Some
        &&& app.raw_data.search_hit_map@.contains_key(app.current_file_path.unwrap()@)
        &&& selection_in_range(app)
    }
}

/// A list of rows, at a positive page size, has at least one page and no
/// more pages than rows (or one page when empty).
pub proof fn lemma_page_count_bounds(rows: int, page_size: int)
    requires
        rows >= 0,
        page_size > 0,
    ensures
        1 <= crate::data_struct::page_count(rows, page_size),
        crate::data_struct::page_count(rows, page_size) <= if rows == 0 { 1 } else { rows },
{
    if rows > 0 {
        assert(rows / page_size <= rows) by (nonlinear_arith)
            requires rows > 0, page_size > 0;
        if rows % page_size == 0 {
            assert(rows / page_size >= 1) by (nonlinear_arith)
                requires rows > 0, page_size > 0, rows % page_size == 0;
        } else {
            assert(rows / page_size < rows) by (nonlinear_arith)
                requires rows > 0, page_size > 0, rows % page_size != 0;
        }
    }
}

/// The viewer as it first appears is consistent when every listed file
/// has hits recorded.
pub proof fn lemma_start_consistent(data: FilePageContainer, app: AppState, page_size: usize)
    requires
        page_size > 0,
        lists_only_searched_files(data),
        app.view == AppView::FileList,
        app.raw_data.file_metadata_vec == data.file_metadata_vec,
        app.raw_data.search_hit_map == data.search_hit_map,
        app.raw_data.page_metadata == Some(first_page(data.file_metadata_vec@.len() as int, page_size as int)),
    ensures
        viewer_consistent(app),
{
}

/// Handling a key keeps the viewer consistent; and on a consistent viewer
/// every key can be handled, save Enter on the file list, which needs a
/// selected row of the list.
pub proof fn lemma_keys_keep_consistency(old: AppState, new: AppState, key: KeyEvent, page_size: usize)
    requires
        page_size > 0,
        viewer_consistent(old),
        key_handled(old, new, key, page_size),
        (key.is_press && old.view == AppView::FileList && key.code == KeyCode::Enter) ==>
            (old.list_state.selected matches Some(i) && i < old.raw_data.file_metadata_vec@.len()),
    ensures
        key_can_be_handled(old, key),
        viewer_consistent(new),
{
    if key.is_press {
        match old.view {
            AppView::FileList => {
                if key.code == KeyCode::Enter {
                    let i = old.list_state.selected.unwrap();
                    assert(old.raw_data.search_hit_map@.contains_key(
                        old.raw_data.file_metadata_vec@[i as int].file_path@,
                    ));
                    let path = file_to_open(old).unwrap();
                    old.raw_data.search_hit_map.lemma_hit_counts_fit();
                    lemma_page_count_bounds(old.raw_data.search_hit_map@[path@].len() as int, page_size as int);
                }
            },
            AppView::SearchDetail => {
                let pmd = paging(old);
                if key.code == KeyCode::Esc || key.code == KeyCode::Backspace {
                } else if key.code == KeyCode::Down {
                    assert(selection_in_range(new));
                } else if key.code == KeyCode::Up {
                    assert(selection_in_range(new));
                }
            },
        }
    }
}

/// A step down undone by a step up, on a selection in range, gives back
/// the viewer as it was.
pub proof fn lemma_next_then_prev(a: AppState, b: AppState, c: AppState)
    requires
        a.raw_data.page_metadata is Some,
        selection_in_range(a),
        moved_next(a, b),
        moved_prev(b, c),
    ensures
        c == a,
{
    assert(c.raw_data == a.raw_data);
    assert(c.list_state == a.list_state);
}

/// A step up undone by a step down, on a selection in range, gives back
/// the viewer as it was.
pub proof fn lemma_prev_then_next(a: AppState, b: AppState, c: AppState)
    requires
        a.raw_data.page_metadata is Some,
        selection_in_range(a),
        moved_prev(a, b),
        moved_next(b, c),
    ensures
        c == a,
{
    assert(c.raw_data == a.raw_data);
    assert(c.list_state == a.list_state);
}

/// The rows that Down and Up step through: the files on the file list, the
/// pages on the detail screen.
pub open spec fn step_rows(app: AppState) -> int {
    match app.view {
        AppView::FileList => paging(app).total_lines as int,
        AppView::SearchDetail => paging(app).total_pages as int,
    }
}

/// Down moves the selection from row `i` of the rows stepped through to
/// row `(i + 1) % rows`, the last to the first; on the detail screen the
/// page shown moves with it, from page `p` of `n` to page `p % n + 1`.
pub proof fn lemma_down_moves_forward(old: AppState, new: AppState, i: usize)
    requires
        old.raw_data.page_metadata is Some,
        moved_next(old, new),
        old.list_state.selected == Some(i),
        i < step_rows(old),
    ensures
        new.list_state.selected == Some(((i + 1) % step_rows(old)) as usize),
        old.view == AppView::SearchDetail && 1 <= paging(old).current_page <= paging(old).total_pages ==>
            paging(new).current_page == paging(old).current_page % paging(old).total_pages + 1,
        new.view == old.view,
        new.should_quit == old.should_quit,
{
    let n = step_rows(old);
    if i + 1 == n {
        vstd::arithmetic::div_mod::lemma_mod_self_0(n);
    } else {
        vstd::arithmetic::div_mod::lemma_small_mod((i + 1) as nat, n as nat);
    }
    if old.view == AppView::SearchDetail && 1 <= paging(old).current_page <= paging(old).total_pages {
        lemma_page_turns_move(paging(old));
    }
}

/// Up moves the selection from row `i` of the rows stepped through to
/// row `(i + rows - 1) % rows`, the first to the last; on the detail
/// screen the page shown moves with it, from page `p` of `n` to page
/// `(p + n - 2) % n + 1`.
pub proof fn lemma_up_moves_back(old: AppState, new: AppState, i: usize)
    requires
        old.raw_data.page_metadata is Some,
        moved_prev(old, new),
        old.list_state.selected == Some(i),
        i < step_rows(old),
    ensures
        new.list_state.selected == Some(((i + step_rows(old) - 1) % step_rows(old)) as usize),
        old.view == AppView::SearchDetail && 1 <= paging(old).current_page <= paging(old).total_pages ==>
            paging(new).current_page
                == (paging(old).current_page + paging(old).total_pages - 2) % (paging(old).total_pages as int) + 1,
        new.view == old.view,
        new.should_quit == old.should_quit,
{
    let n = step_rows(old);
    if i == 0 {
        vstd::arithmetic::div_mod::lemma_small_mod((n - 1) as nat, n as nat);
    } else {
        vstd::arithmetic::div_mod::lemma_mod_add_multiples_vanish(i - 1, n);
        vstd::arithmetic::div_mod::lemma_small_mod((i - 1) as nat, n as nat);
    }
    if old.view == AppView::SearchDetail && 1 <= paging(old).current_page <= paging(old).total_pages {
        lemma_page_turns_move(paging(old));
    }
}

/// Enter on the file list, with row `i` selected, opens the file of that
/// row: the detail screen shows its hits from the first page, with the
/// first page selected; the hits and the file list stay as they were.
pub proof fn lemma_enter_opens_selected_file(old: AppState, new: AppState, key: KeyEvent, page_size: usize, i: usize)
    requires
        key_handled(old, new, key, page_size),
        key.is_press,
        key.code == KeyCode::Enter,
        old.view == AppView::FileList,
        old.list_state.selected == Some(i),
        old.raw_data.search_hit_map@.contains_key(old.raw_data.file_metadata_vec@[i as int].file_path@),
    ensures
        new.view == AppView::SearchDetail,
        new.current_file_path == Some(old.raw_data.file_metadata_vec@[i as int].file_path),
        new.list_state.selected == Some(0usize),
        new.should_quit == old.should_quit,
        paging(new).current_page == 1,
        paging(new).page_size == page_size,
        paging(new).total_lines
            == old.raw_data.search_hit_map@[old.raw_data.file_metadata_vec@[i as int].file_path@].len(),
        new.raw_data.file_metadata_vec == old.raw_data.file_metadata_vec,
        new.raw_data.search_hit_map == old.raw_data.search_hit_map,
{
    old.raw_data.search_hit_map.lemma_hit_counts_fit();
}

/// Esc or Backspace on the detail screen goes back to the file list, shown
/// from its first page, with the selection kept; on the file list they
/// change nothing.
pub proof fn lemma_escape_returns_to_file_list(old: AppState, new: AppState, key: KeyEvent, page_size: usize)
    requires
        key_handled(old, new, key, page_size),
        key.is_press,
        key.code == KeyCode::Esc || key.code == KeyCode::Backspace,
    ensures
        new.view == AppView::FileList,
        new.list_state == old.list_state,
        new.current_file_path == old.current_file_path,
        new.should_quit == old.should_quit,
        new.raw_data.file_metadata_vec == old.raw_data.file_metadata_vec,
        new.raw_data.search_hit_map == old.raw_data.search_hit_map,
        old.view == AppView::SearchDetail ==> {
            &&& paging(new).current_page == 1
            &&& paging(new).page_size == page_size
            &&& paging(new).total_lines == old.raw_data.file_metadata_vec@.len()
        },
        old.view == AppView::FileList ==> new == old,
{
    assert(old.raw_data.file_metadata_vec@.len() == old.raw_data.file_metadata_vec.len());
}

/// Only presses act: any other key event, and a press of a key that the
/// current screen does not use, leaves the viewer as it was.
pub proof fn lemma_unused_keys_change_nothing(old: AppState, new: AppState, key: KeyEvent, page_size: usize)
    requires
        key_handled(old, new, key, page_size),
        !key.is_press
            || (key.code != KeyCode::Char('q') && key.code != KeyCode::Down && key.code != KeyCode::Up
                && key.code != KeyCode::Enter && key.code != KeyCode::Esc && key.code != KeyCode::Backspace)
            || (old.view == AppView::SearchDetail && key.code == KeyCode::Enter),
    ensures
        new == old,
{
}

/// In every view a press of q asks to quit and changes nothing else.
pub proof fn lemma_q_quits_everywhere(old: AppState, new: AppState, key: KeyEvent, page_size: usize)
    requires
        key_handled(old, new, key, page_size),
        key.is_press,
        key.code == KeyCode::Char('q'),
    ensures
        new.should_quit,
        new.view == old.view,
        new.list_state == old.list_state,
        new.current_file_path == old.current_file_path,
        new.raw_data == old.raw_data,
{
}

impl Visualizer {
    /// Whether `handle_key_event` can handle `key` now; see
    /// `key_can_be_handled`.
    pub fn can_handle_key(app: &AppState, key: KeyEvent) -> (b: bool)
        ensures
            b == key_can_be_handled(*app, key),
    {
        if !key.is_press() {
            return true;
        }
        match app.view {
            AppView::FileList => match key.code {
                KeyCode::Down | KeyCode::Up => app.raw_data.page_metadata.is_some(),
                KeyCode::Enter => {
                    match app.list_state.selected() {
                        Some(i) => {
                            if i >= app.raw_data.file_metadata_vec.len() {
                                return false;
                            }
                            app.raw_data.search_hit_map.get(
                                app.raw_data.file_metadata_vec[i].file_path.as_str(),
                            ).is_some()
                        },
                        None => match &app.current_file_path {
                            Some(path) => app.raw_data.search_hit_map.get(path.as_str()).is_some(),
                            None => false,
                        },
                    }
                },
                _ => true,
            },
            AppView::SearchDetail => match key.code {
                KeyCode::Down | KeyCode::Up => app.raw_data.page_metadata.is_some(),
                _ => true,
            },
        }
    }
}

/// Keys never change the search results: the file list and the hits
/// stay as they were; only the screen, the selection and the paging move.
pub proof fn lemma_keys_keep_results(old: AppState, new: AppState, key: KeyEvent, page_size: usize)
    requires
        key_handled(old, new, key, page_size),
    ensures
        new.raw_data.file_metadata_vec == old.raw_data.file_metadata_vec,
        new.raw_data.search_hit_map == old.raw_data.search_hit_map,
{
}

/// The key help shown under each screen.
pub fn help_text(view: AppView) -> (s: &'static str)
    ensures
        view == AppView::FileList ==> s@ == "↑/↓: 移动 | Enter: 查看详情 | q: 退出"@,
        view == AppView::SearchDetail ==> s@ == "Esc: 返回列表 | q: 退出"@,
{
    match view {
        AppView::FileList => "↑/↓: 移动 | Enter: 查看详情 | q: 退出",
        AppView::SearchDetail => "Esc: 返回列表 | q: 退出",
    }
}

} // verus!
