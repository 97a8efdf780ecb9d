use std::collections::HashMap;
use vstd::prelude::*;
use vstd::std_specs::hash::*;
use crate::search::same_text;

verus! {

broadcast use group_hash_axioms;

/// Whether a file was read.
#[derive(Debug)]
pub enum DataStatus {
    SUCCESS,
    /// The file could not be read; the text says why.
    ERROR(String),
}

/// The lines of one file.
pub struct DataStruct {
    pub values: Vec<String>,
}

impl DataStruct {
    /// The lines, as texts.
    pub open spec fn lines(&self) -> Seq<Seq<char>> {
        self.values@.map_values(|s: String| s@)
    }
}

/// One file: where it is, whether it was read, and its lines.
pub struct DataStructPackage {
    pub data_status: DataStatus,
    pub data_path: String,
    pub data_struct: DataStruct,
}

/// The files read from one directory.
pub struct DataStructVec {
    pub directory_path: String,
    pub data_structs: Vec<DataStructPackage>,
}

/// A line with the byte ranges in it that matched.
pub struct QueryLine {
    pub line_number: usize,
    pub content: String,
    pub match_range: Vec<(usize, usize)>,
}

/// What a search hit says, as mathematical values.
pub struct HitView {
    pub line: Seq<char>,
    pub line_number: int,
    pub positions: Seq<(int, int)>,
}

/// A line that holds the keyword: its text, its number (from 1) and the
/// half-open byte ranges of the occurrences.
pub struct SearchHit {
    pub matched_lines: String,
    pub line_number: usize,
    pub hit_position_vec: Vec<(usize, usize)>,
}

impl View for SearchHit {
    type V = HitView;

    open spec fn view(&self) -> HitView {
        HitView {
            line: self.matched_lines@,
            line_number: self.line_number as int,
            positions: self.hit_position_vec@.map_values(|p: (usize, usize)| (p.0 as int, p.1 as int)),
        }
    }
}

/// The path of a file in the result list.
pub struct FileMetadata {
    pub file_path: String,
}

/// The hits found in one file.
pub struct FileContentPage {
    pub query_result: Vec<SearchHit>,
}

impl View for FileContentPage {
    type V = Seq<HitView>;

    open spec fn view(&self) -> Seq<HitView> {
        self.query_result@.map_values(|h: SearchHit| h@)
    }
}

/// Paging of a list: the page shown (from 1), rows per page, number of
/// pages and number of rows.
#[derive(Clone, Copy, Debug)]
pub struct PageMetaData {
    pub current_page: usize,
    pub page_size: usize,
    pub total_pages: usize,
    pub total_lines: usize,
}

/// Paging records by page index.
pub struct PageMetaDataContainer {
    pub page_metadata_map: HashMap<usize, PageMetaData>,
}

impl PageMetaDataContainer {
    /// An empty set of records.
    pub fn new() -> (c: PageMetaDataContainer)
        ensures
            c.page_metadata_map@ == Map::<usize, PageMetaData>::empty(),
    {
        PageMetaDataContainer { page_metadata_map: HashMap::new() }
    }

    /// The record stored for `page_index`, if any.
    pub fn get_page_metadata(&self, page_index: usize) -> (r: Option<&PageMetaData>)
        ensures
            match r {
                Some(p) => self.page_metadata_map@.contains_key(page_index)
                    && *p == self.page_metadata_map@[page_index],
                None => !self.page_metadata_map@.contains_key(page_index),
            },
    {
        self.page_metadata_map.get(&page_index)
    }

    /// Stores `pmd` for `page_index`, replacing what was there.
    pub fn set_page_medatada(&mut self, page_index: usize, pmd: PageMetaData)
        ensures
            final(self).page_metadata_map@ == old(self).page_metadata_map@.insert(page_index, pmd),
    {
        self.page_metadata_map.insert(page_index, pmd);
    }
}

/// The hits of each file, by path. A path occurs at most once.
pub struct SearchHitMap {
    entries: Vec<(String, FileContentPage)>,
}

impl SearchHitMap {
    #[verifier::type_invariant]
    closed spec fn paths_distinct(self) -> bool {
        forall|i: int, j: int|
            0 <= i < j < self.entries@.len() ==> #[trigger] self.entries@[i].0@ != #[trigger] self.entries@[j].0@
    }

    closed spec fn holds_at(self, path: Seq<char>, i: int) -> bool {
        0 <= i < self.entries@.len() && self.entries@[i].0@ == path
    }
}

impl View for SearchHitMap {
    type V = Map<Seq<char>, Seq<HitView>>;

    closed spec fn view(&self) -> Map<Seq<char>, Seq<HitView>> {
        Map::new(
            |path: Seq<char>| exists|i: int| self.holds_at(path, i),
            |path: Seq<char>| self.entries@[choose|i: int| self.holds_at(path, i)].1@,
        )
    }
}

impl SearchHitMap {
    /// An empty map.
    pub fn new() -> (m: SearchHitMap)
        ensures
            m@ == Map::<Seq<char>, Seq<HitView>>::empty(),
    {
        let m = SearchHitMap { entries: Vec::new() };
        assert(m@ =~= Map::<Seq<char>, Seq<HitView>>::empty());
        m
    }

    /// The number of paths held.
    pub fn len(&self) -> (n: usize)
        ensures
            n == self@.len(),
    {
        proof {
            use_type_invariant(self);
            self.lemma_dom_is_paths();
        }
        self.entries.len()
    }

    proof fn lemma_dom_is_paths(&self)
        requires
            self.paths_distinct(),
        ensures
            self@.dom().finite(),
            self@.len() == self.entries@.len(),
    {
        let keys = self.entries@.map_values(|e: (String, FileContentPage)| e.0@);
        assert forall|k: Seq<char>| #[trigger] self@.dom().contains(k) == keys.to_set().contains(k) by {
            if self@.dom().contains(k) {
                let i = choose|i: int| self.holds_at(k, i);
                assert(keys[i] == k);
            }
            if keys.to_set().contains(k) {
                let i = choose|i: int| 0 <= i < keys.len() && keys[i] == k;
                assert(self.holds_at(k, i));
            }
        }
        assert(self@.dom() =~= keys.to_set());
        assert forall|i: int, j: int| 0 <= i < j < keys.len() implies keys[i] != keys[j] by {
            assert(self.entries@[i].0@ != self.entries@[j].0@);
        }
        assert(keys.no_duplicates());
        keys.unique_seq_to_set();
    }

    /// No file has more hits recorded than a machine index can count.
    pub proof fn lemma_hit_counts_fit(&self)
        ensures
            forall|path: Seq<char>| #[trigger] self@.contains_key(path) ==> self@[path].len() <= usize::MAX,
    {
        broadcast use vstd::std_specs::vec::group_vec_axioms;
        assert forall|path: Seq<char>| #[trigger] self@.contains_key(path) implies self@[path].len() <= usize::MAX by {
            let i = choose|i: int| self.holds_at(path, i);
            assert(self.entries@[i].1.query_result.len() == self.entries@[i].1.query_result@.len());
        }
    }

    /// Index of the entry for `path`, if there is one.
    fn find(&self, path: &str) -> (r: Option<usize>)
        ensures
            match r {
                Some(i) => self.holds_at(path@, i as int),
                None => forall|i: int| !self.holds_at(path@, i),
            },
    {
        let mut i: usize = 0;
        while i < self.entries.len()
            invariant
                i <= self.entries@.len(),
                forall|k: int| 0 <= k < i ==> !self.holds_at(path@, k),
            decreases self.entries@.len() - i,
        {
            if same_text(self.entries[i].0.as_str(), path) {
                return Some(i);
            }
            i = i + 1;
        }
        None
    }

    /// The hits stored for `path`, if any.
    pub fn get(&self, path: &str) -> (r: Option<&FileContentPage>)
        ensures
            match r {
                Some(p) => self@.contains_key(path@) && p@ == self@[path@],
                None => !self@.contains_key(path@),
            },
    {
        proof {
            use_type_invariant(self);
        }
        match self.find(path) {
            Some(i) => {
                proof {
                    let j = choose|j: int| self.holds_at(path@, j);
                    assert(self.holds_at(path@, i as int));
                    if j != i as int {
                        if j < i {
                            assert(self.entries@[j].0@ != self.entries@[i as int].0@);
                        } else {
                            assert(self.entries@[i as int].0@ != self.entries@[j].0@);
                        }
                    }
                }
                Some(&self.entries[i].1)
            },
            None => None,
        }
    }

    /// Stores `page` for `path`, replacing what was there.
    pub fn insert(&mut self, path: String, page: FileContentPage)
        ensures
            final(self)@ == old(self)@.insert(path@, page@),
    {
        proof {
            use_type_invariant(&*self);
        }
        let ghost orig = *self;
        let found = self.find(path.as_str());
        let mut entries: Vec<(String, FileContentPage)> = Vec::new();
        std::mem::swap(&mut entries, &mut self.entries);
        let ghost before = entries@;
        let ghost old_map = orig@;
        assert(before == orig.entries@);
        let ghost key = path@;
        let ghost value = page@;
        match found {
            Some(i) => {
                entries.set(i, (path, page));
                proof {
                    assert forall|a: int, b: int| 0 <= a < b < entries@.len() implies
                        #[trigger] entries@[a].0@ != #[trigger] entries@[b].0@ by {
                        assert(before[a].0@ != before[b].0@);
                    }
                }
                self.entries = entries;
                proof {
                    assert forall|k: Seq<char>| #[trigger] final(self)@.contains_key(k)
                        == old_map.insert(key, value).contains_key(k) by {
                        if k == key {
                            assert(self.holds_at(k, i as int));
                        } else if old_map.contains_key(k) {
                            let j = choose|j: int| orig.holds_at(k, j);
                            assert(self.holds_at(k, j));
                        } else {
                            if exists|j: int| self.holds_at(k, j) {
                                let j = choose|j: int| self.holds_at(k, j);
                                assert(orig.holds_at(k, j));
                            }
                        }
                    }
                    assert forall|k: Seq<char>| #[trigger] final(self)@.contains_key(k) implies
                        final(self)@[k] == old_map.insert(key, value)[k] by {
                        let j = choose|j: int| self.holds_at(k, j);
                        if k == key {
                            if j != i as int {
                                if j < i { assert(self.entries@[j].0@ != self.entries@[i as int].0@); }
                                else { assert(self.entries@[i as int].0@ != self.entries@[j].0@); }
                            }
                        } else {
                            assert(j != i as int);
                            assert(orig.holds_at(k, j));
                            let j0 = choose|j0: int| orig.holds_at(k, j0);
                            if j0 != j {
                                if j0 < j { assert(before[j0].0@ != before[j].0@); }
                                else { assert(before[j].0@ != before[j0].0@); }
                            }
                        }
                    }
                    assert(final(self)@ =~= old_map.insert(key, value));
                }
            },
            None => {
                entries.push((path, page));
                proof {
                    assert forall|a: int, b: int| 0 <= a < b < entries@.len() implies
                        #[trigger] entries@[a].0@ != #[trigger] entries@[b].0@ by {
                        if b < before.len() {
                            assert(before[a].0@ != before[b].0@);
                        } else {
                            assert(!orig.holds_at(key, a));
                        }
                    }
                }
                self.entries = entries;
                proof {
                    let n = before.len() as int;
                    assert forall|k: Seq<char>| #[trigger] final(self)@.contains_key(k)
                        == old_map.insert(key, value).contains_key(k) by {
                        if k == key {
                            assert(self.holds_at(k, n));
                        } else if old_map.contains_key(k) {
                            let j = choose|j: int| orig.holds_at(k, j);
                            assert(self.holds_at(k, j));
                        } else {
                            if exists|j: int| self.holds_at(k, j) {
                                let j = choose|j: int| self.holds_at(k, j);
                                assert(orig.holds_at(k, j));
                            }
                        }
                    }
                    assert forall|k: Seq<char>| #[trigger] final(self)@.contains_key(k) implies
                        final(self)@[k] == old_map.insert(key, value)[k] by {
                        let j = choose|j: int| self.holds_at(k, j);
                        if k == key {
                            if j != n {
                                assert(!orig.holds_at(key, j));
                            }
                        } else {
                            assert(j != n);
                            assert(orig.holds_at(k, j));
                            let j0 = choose|j0: int| orig.holds_at(k, j0);
                            if j0 != j {
                                if j0 < j { assert(before[j0].0@ != before[j].0@); }
                                else { assert(before[j].0@ != before[j0].0@); }
                            }
                        }
                    }
                    assert(final(self)@ =~= old_map.insert(key, value));
                }
            },
        }
    }
}

/// The number of pages of `page_size` rows that `rows` rows fill; a list
/// with no rows still has one (empty) page.
pub open spec fn page_count(rows: int, page_size: int) -> int {
    if rows == 0 {
        1
    } else if rows % page_size == 0 {
        rows / page_size
    } else {
        rows / page_size + 1
    }
}

/// Paging for `rows` rows at `page_size` rows per page, on the first page.
pub open spec fn first_page(rows: int, page_size: int) -> PageMetaData {
    PageMetaData {
        current_page: 1,
        page_size: page_size as usize,
        total_pages: page_count(rows, page_size) as usize,
        total_lines: rows as usize,
    }
}

/// The page after `pmd`; after the last page comes the first.
pub open spec fn page_after(pmd: PageMetaData) -> PageMetaData {
    PageMetaData {
        current_page: if pmd.current_page >= pmd.total_pages { 1 } else { (pmd.current_page + 1) as usize },
        ..pmd
    }
}

/// The page before `pmd`; before the first page comes the last.
pub open spec fn page_before(pmd: PageMetaData) -> PageMetaData {
    PageMetaData {
        current_page: if pmd.current_page <= 1 { pmd.total_pages } else { (pmd.current_page - 1) as usize },
        ..pmd
    }
}

/// Where the rows of the current page start, in a list of `rows` rows.
pub open spec fn page_start(pmd: PageMetaData, rows: int) -> int {
    let skipped = if pmd.current_page == 0 { 0 } else { pmd.current_page - 1 };
    if skipped * pmd.page_size >= rows { rows } else { skipped * pmd.page_size }
}

/// Where the rows of the current page end, in a list of `rows` rows.
pub open spec fn page_end(pmd: PageMetaData, rows: int) -> int {
    let start = page_start(pmd, rows);
    if start + pmd.page_size >= rows { rows } else { start + pmd.page_size }
}

/// Computes `page_count`.
pub fn count_pages(rows: usize, page_size: usize) -> (n: usize)
    requires
        page_size > 0,
    ensures
        n == page_count(rows as int, page_size as int),
        n >= 1,
{
    if rows == 0 {
        1
    } else if rows % page_size == 0 {
        proof {
            assert(rows / page_size >= 1) by (nonlinear_arith)
                requires rows > 0, page_size > 0, rows % page_size == 0;
        }
        rows / page_size
    } else {
        proof {
            assert(rows / page_size < rows) by (nonlinear_arith)
                requires rows > 0, page_size > 0, rows % page_size != 0;
        }
        rows / page_size + 1
    }
}

/// The result list: the files searched, in order, the paging of the
/// list shown, and the hits of each file.
pub struct FilePageContainer {
    pub file_metadata_vec: Vec<FileMetadata>,
    pub page_metadata: Option<PageMetaData>,
    pub search_hit_map: SearchHitMap,
}

impl FilePageContainer {
    /// The paths of the files, in order.
    pub open spec fn paths(&self) -> Seq<Seq<char>> {
        self.file_metadata_vec@.map_values(|m: FileMetadata| m.file_path@)
    }

    /// The file list.
    pub fn get_file_metadata(&self) -> (r: &Vec<FileMetadata>)
        ensures
            r == &self.file_metadata_vec,
    {
        &self.file_metadata_vec
    }

    /// Starts paging the file list, on its first page.
    pub fn new_metadata_page(&mut self, page_size: usize)
        requires
            page_size > 0,
        ensures
            final(self).page_metadata == Some(first_page(old(self).file_metadata_vec@.len() as int, page_size as int)),
            final(self).file_metadata_vec == old(self).file_metadata_vec,
            final(self).search_hit_map == old(self).search_hit_map,
    {
        let rows = self.file_metadata_vec.len();
        let total_pages = count_pages(rows, page_size);
        self.page_metadata = Some(PageMetaData { current_page: 1, page_size, total_pages, total_lines: rows });
    }

    /// Starts paging the hits of the file at `path`, on their first page.
    pub fn new_content_page(&mut self, path: &str, page_size: usize)
        requires
            page_size > 0,
            old(self).search_hit_map@.contains_key(path@),
        ensures
            final(self).page_metadata == Some(first_page(old(self).search_hit_map@[path@].len() as int, page_size as int)),
            final(self).file_metadata_vec == old(self).file_metadata_vec,
            final(self).search_hit_map == old(self).search_hit_map,
    {
        let rows = match self.search_hit_map.get(path) {
            Some(page) => page.query_result.len(),
            None => 0,
        };
        let total_pages = count_pages(rows, page_size);
        self.page_metadata = Some(PageMetaData { current_page: 1, page_size, total_pages, total_lines: rows });
    }

    /// Turns to the next page, after the last to the first. Returns the new
    /// page number, or `None` when nothing is paged.
    pub fn next_page(&mut self) -> (r: Option<usize>)
        ensures
            match old(self).page_metadata {
                Some(pmd) => final(self).page_metadata == Some(page_after(pmd))
                    && r == Some(page_after(pmd).current_page),
                None => final(self).page_metadata is None && r is None,
            },
            final(self).file_metadata_vec == old(self).file_metadata_vec,
            final(self).search_hit_map == old(self).search_hit_map,
    {
        match self.page_metadata {
            Some(pmd) => {
                let current_page = if pmd.current_page >= pmd.total_pages { 1 } else { pmd.current_page + 1 };
                self.page_metadata = Some(PageMetaData { current_page, ..pmd });
                Some(current_page)
            },
            None => None,
        }
    }

    /// Turns to the previous page, before the first to the last. Returns
    /// the new page number, or `None` when nothing is paged.
    pub fn prev_page(&mut self) -> (r: Option<usize>)
        ensures
            match old(self).page_metadata {
                Some(pmd) => final(self).page_metadata == Some(page_before(pmd))
                    && r == Some(page_before(pmd).current_page),
                None => final(self).page_metadata is None && r is None,
            },
            final(self).file_metadata_vec == old(self).file_metadata_vec,
            final(self).search_hit_map == old(self).search_hit_map,
    {
        match self.page_metadata {
            Some(pmd) => {
                let current_page = if pmd.current_page <= 1 { pmd.total_pages } else { pmd.current_page - 1 };
                self.page_metadata = Some(PageMetaData { current_page, ..pmd });
                Some(current_page)
            },
            None => None,
        }
    }

    /// The hits of the file at `path` that the current page shows, or
    /// `None` when that file has no entry or nothing is paged.
    pub fn get_file_content_page(&self, path: &str) -> (r: Option<&[SearchHit]>)
        ensures
            match r {
                Some(hits) => {
                    &&& self.search_hit_map@.contains_key(path@)
                    &&& self.page_metadata is Some
                    &&& {
                        let all = self.search_hit_map@[path@];
                        let pmd = self.page_metadata.unwrap();
                        hits@.map_values(|h: SearchHit| h@) == all.subrange(
                            page_start(pmd, all.len() as int),
                            page_end(pmd, all.len() as int),
                        )
                    }
                },
                None => !self.search_hit_map@.contains_key(path@) || self.page_metadata is None,
            },
    {
        let pmd = match self.page_metadata {
            Some(pmd) => pmd,
            None => return None,
        };
        let page = match self.search_hit_map.get(path) {
            Some(page) => page,
            None => return None,
        };
        let rows = page.query_result.len();
        let skipped = if pmd.current_page == 0 { 0 } else { pmd.current_page - 1 };
        let ps = pmd.page_size;
        let start = if ps == 0 {
            0
        } else if skipped > rows / ps {
            proof {
                assert(skipped * ps >= rows) by (nonlinear_arith)
                    requires skipped > rows / ps, ps > 0;
            }
            rows
        } else {
            proof {
                assert(skipped * ps <= rows) by (nonlinear_arith)
                    requires skipped <= rows / ps, ps > 0;
            }
            let p = skipped * ps;
            if p >= rows { rows } else { p }
        };
        let end = if rows - start <= ps { rows } else { start + ps };
        let all = page.query_result.as_slice();
        let hits = &all[start..end];
        proof {
            assert(start == page_start(pmd, rows as int));
            assert(end == page_end(pmd, rows as int));
            assert(hits@.map_values(|h: SearchHit| h@) =~= page@.subrange(start as int, end as int));
        }
        Some(hits)
    }
}

/// Turning a page forward and then back, or back and then forward, on a
/// page within the count, gives the paging as it was.
pub proof fn lemma_page_turns_undo(pmd: PageMetaData)
    requires
        1 <= pmd.current_page <= pmd.total_pages,
    ensures
        page_before(page_after(pmd)) == pmd,
        page_after(page_before(pmd)) == pmd,
{
}

/// A list takes the fewest pages that hold all its rows, and one page when
/// it is empty.
pub proof fn lemma_page_count_fits(rows: int, page_size: int)
    requires
        rows >= 0,
        page_size > 0,
    ensures
        page_count(rows, page_size) >= 1,
        rows <= page_count(rows, page_size) * page_size,
        rows > 0 ==> (page_count(rows, page_size) - 1) * page_size < rows,
{
    let q = rows / page_size;
    let r = rows % page_size;
    vstd::arithmetic::div_mod::lemma_fundamental_div_mod(rows, page_size);
    vstd::arithmetic::div_mod::lemma_mod_pos_bound(rows, page_size);
    let n = page_count(rows, page_size);
    if rows > 0 {
        if r == 0 {
            assert(n == q);
            assert(q >= 1 && rows == n * page_size) by (nonlinear_arith)
                requires rows == page_size * q + r, r == 0, rows > 0, page_size > 0, n == q;
            assert((n - 1) * page_size < rows) by (nonlinear_arith)
                requires rows == n * page_size, page_size > 0;
        } else {
            assert(n == q + 1);
            assert(q >= 0) by (nonlinear_arith)
                requires rows == page_size * q + r, 0 <= r < page_size, rows >= 0, page_size > 0;
            assert(rows <= n * page_size && (n - 1) * page_size < rows) by (nonlinear_arith)
                requires rows == page_size * q + r, 0 < r < page_size, n == q + 1;
        }
    }
}

/// Page `p` of a list shows the rows from `(p - 1) * page_size` up to
/// `p * page_size`, or to the end of the list when that comes first.
pub proof fn lemma_page_shows_its_rows(pmd: PageMetaData, rows: int)
    requires
        pmd.current_page >= 1,
        pmd.page_size > 0,
        0 <= (pmd.current_page - 1) * pmd.page_size <= rows,
    ensures
        page_start(pmd, rows) == (pmd.current_page - 1) * pmd.page_size,
        page_end(pmd, rows) == if pmd.current_page * pmd.page_size <= rows {
            pmd.current_page * pmd.page_size
        } else {
            rows
        },
{
    assert((pmd.current_page - 1) * pmd.page_size + pmd.page_size == pmd.current_page * pmd.page_size)
        by (nonlinear_arith);
}

/// Turning forward from page `p` of `n` pages shows page `p % n + 1`, and
/// turning back shows page `(p + n - 2) % n + 1`: with two pages or more a
/// turn always shows another page, and `n` turns forward from the first
/// page pass every page. Nothing but the page shown changes.
pub proof fn lemma_page_turns_move(pmd: PageMetaData)
    requires
        1 <= pmd.current_page <= pmd.total_pages,
    ensures
        page_after(pmd).current_page == pmd.current_page % pmd.total_pages + 1,
        page_before(pmd).current_page == (pmd.current_page + pmd.total_pages - 2) % (pmd.total_pages as int) + 1,
        pmd.total_pages >= 2 ==> page_after(pmd).current_page != pmd.current_page,
        pmd.total_pages >= 2 ==> page_before(pmd).current_page != pmd.current_page,
        page_after(pmd).page_size == pmd.page_size && page_before(pmd).page_size == pmd.page_size,
        page_after(pmd).total_pages == pmd.total_pages && page_before(pmd).total_pages == pmd.total_pages,
        page_after(pmd).total_lines == pmd.total_lines && page_before(pmd).total_lines == pmd.total_lines,
{
    let p = pmd.current_page as int;
    let n = pmd.total_pages as int;
    if p == n {
        vstd::arithmetic::div_mod::lemma_mod_self_0(n);
    } else {
        vstd::arithmetic::div_mod::lemma_small_mod(p as nat, n as nat);
    }
    if p == 1 {
        vstd::arithmetic::div_mod::lemma_small_mod((n - 1) as nat, n as nat);
    } else {
        vstd::arithmetic::div_mod::lemma_mod_add_multiples_vanish(p - 2, n);
        vstd::arithmetic::div_mod::lemma_small_mod((p - 2) as nat, n as nat);
    }
}

/// The pages of a list split it: the first page starts at the first row,
/// each page ends where the next starts, and the last page ends at the
/// last row; so turning through all pages shows every row once.
pub proof fn lemma_pages_split_rows(rows: usize, page_size: usize, page: usize)
    requires
        page_size > 0,
        1 <= page <= page_count(rows as int, page_size as int),
    ensures
        page == 1 ==> page_start(PageMetaData { current_page: page, ..first_page(rows as int, page_size as int) }, rows as int) == 0,
        page < page_count(rows as int, page_size as int) ==>
            page_end(PageMetaData { current_page: page, ..first_page(rows as int, page_size as int) }, rows as int)
            == page_start(PageMetaData { current_page: (page + 1) as usize, ..first_page(rows as int, page_size as int) }, rows as int),
        page == page_count(rows as int, page_size as int) ==>
            page_end(PageMetaData { current_page: page, ..first_page(rows as int, page_size as int) }, rows as int) == rows,
{
    let r = rows as int;
    let ps = page_size as int;
    let p = page as int;
    let n = page_count(r, ps);
    if p == 1 {
        assert(0 * ps == 0) by (nonlinear_arith);
    }
    if p < n {
        assert(r > 0);
        assert(p * ps < r) by (nonlinear_arith)
            requires
                r > 0, ps > 0, 1 <= p,
                n == if r % ps == 0 { r / ps } else { r / ps + 1 },
                p < n;
        assert((p - 1) * ps + ps == p * ps) by (nonlinear_arith);
        assert((p - 1) * ps < r) by (nonlinear_arith)
            requires p * ps < r, ps > 0;
        assert(p <= p * ps) by (nonlinear_arith)
            requires p >= 1, ps > 0;
        let a = PageMetaData { current_page: page, ..first_page(r, ps) };
        let b = PageMetaData { current_page: (page + 1) as usize, ..first_page(r, ps) };
        assert(b.current_page == p + 1);
        assert(a.page_size == ps);
        assert(page_start(a, r) == (p - 1) * ps);
        assert(page_start(b, r) == p * ps);
    }
    if p == n && r > 0 {
        assert((p - 1) * ps < r) by (nonlinear_arith)
            requires
                r > 0, ps > 0, 1 <= p,
                p == if r % ps == 0 { r / ps } else { r / ps + 1 };
        assert((p - 1) * ps + ps >= r) by (nonlinear_arith)
            requires
                r > 0, ps > 0,
                p == if r % ps == 0 { r / ps } else { r / ps + 1 };
    }
}

} // verus!
