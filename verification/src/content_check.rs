use vstd::prelude::*;
use vstd::string::*;
use crate::data_struct::{
    DataStruct, DataStructPackage, FileContentPage, FileMetadata, FilePageContainer, HitView,
    SearchHit, SearchHitMap,
};
use crate::show::lists_only_searched_files;
use crate::search::{
    empty_matches_from, find_occurrences, matches_at, occurrences, occurrences_from, starts_char, utf8_of,
};

verus! {

/// Why a query was refused.
#[derive(Debug)]
pub enum QueryError {
    EmptyQuery,
}

/// Matched lines of one file.
#[derive(Debug, PartialEq)]
pub struct QueryResultRef {
    pub matched_lines: Vec<String>,
    pub data_path: String,
}

/// The hits among the first `count` lines of `lines`: each line in which
/// `keyword` occurs, with its number (from 1) and the byte ranges of the
/// occurrences, in line order.
pub open spec fn hits_in_first(lines: Seq<Seq<char>>, keyword: Seq<char>, count: int) -> Seq<HitView>
    decreases count,
{
    if count <= 0 {
        seq![]
    } else {
        let before = hits_in_first(lines, keyword, count - 1);
        let found = occurrences(utf8_of(lines[count - 1]), utf8_of(keyword));
        if found.len() == 0 {
            before
        } else {
            before.push(HitView { line: lines[count - 1], line_number: count, positions: found })
        }
    }
}

/// The hits of `keyword` in `lines`.
pub open spec fn keyword_hits(lines: Seq<Seq<char>>, keyword: Seq<char>) -> Seq<HitView> {
    hits_in_first(lines, keyword, lines.len() as int)
}

/// The hits of each package, by path, entered in package order: a later
/// package with the same path replaces an earlier one.
pub open spec fn hit_map_of(packages: Seq<DataStructPackage>, keyword: Seq<char>) -> Map<Seq<char>, Seq<HitView>>
    decreases packages.len(),
{
    if packages.len() == 0 {
        Map::empty()
    } else {
        let last = packages.last();
        hit_map_of(packages.drop_last(), keyword).insert(
            last.data_path@,
            keyword_hits(last.data_struct.lines(), keyword),
        )
    }
}

/// The paths of the packages, in order.
pub open spec fn package_paths(packages: Seq<DataStructPackage>) -> Seq<Seq<char>> {
    packages.map_values(|p: DataStructPackage| p.data_path@)
}

/// The lines of `data_struct` in which `keyword` occurs.
fn keyword_match(data_struct: &DataStruct, keyword: &str) -> (res: Vec<SearchHit>)
    ensures
        res@.map_values(|h: SearchHit| h@) == keyword_hits(data_struct.lines(), keyword@),
{
    let mut res: Vec<SearchHit> = Vec::new();
    let needle = keyword.as_bytes();
    let n = data_struct.values.len();
    let ghost lines = data_struct.lines();
    let mut idx: usize = 0;
    while idx < n
        invariant
            n == data_struct.values@.len(),
            lines == data_struct.lines(),
            needle@ == utf8_of(keyword@),
            idx <= n,
            res@.map_values(|h: SearchHit| h@) == hits_in_first(lines, keyword@, idx as int),
        decreases n - idx,
    {
        let line = &data_struct.values[idx];
        let found = find_occurrences(line.as_str().as_bytes(), needle);
        let ghost before = res@;
        if found.len() > 0 {
            res.push(SearchHit { matched_lines: line.clone(), line_number: idx + 1, hit_position_vec: found });
            assert(res@.map_values(|h: SearchHit| h@) =~= before.map_values(|h: SearchHit| h@).push(res@[before.len() as int]@));
        }
        idx = idx + 1;
    }
    res
}

/// Searches every package for `query`. The result lists the packages'
/// paths in order, holds for each path the hits of its package (the last
/// one, where a path repeats), and is not paged yet. An empty query is
/// refused.
pub fn query_data_struct(data_struct_packages: &[DataStructPackage], query: &str) -> (res: Result<FilePageContainer, QueryError>)
    ensures
        query@.len() == 0 <==> res is Err,
        res matches Err(e) ==> e is EmptyQuery,
        res matches Ok(c) ==> {
            &&& c.paths() == package_paths(data_struct_packages@)
            &&& c.search_hit_map@ == hit_map_of(data_struct_packages@, query@)
            &&& c.page_metadata is None
        },
{
    if query.is_empty() {
        return Err(QueryError::EmptyQuery);
    }
    let mut metadata_vec: Vec<FileMetadata> = Vec::new();
    let mut search_hit_map = SearchHitMap::new();
    let n = data_struct_packages.len();
    let mut idx: usize = 0;
    while idx < n
        invariant
            n == data_struct_packages@.len(),
            idx <= n,
            metadata_vec@.len() == idx,
            metadata_vec@.map_values(|m: FileMetadata| m.file_path@)
                == package_paths(data_struct_packages@.subrange(0, idx as int)),
            search_hit_map@ == hit_map_of(data_struct_packages@.subrange(0, idx as int), query@),
        decreases n - idx,
    {
        let package = &data_struct_packages[idx];
        let ghost before_meta = metadata_vec@;
        metadata_vec.push(FileMetadata { file_path: package.data_path.clone() });
        let matched_lines = keyword_match(&package.data_struct, query);
        search_hit_map.insert(package.data_path.clone(), FileContentPage { query_result: matched_lines });
        proof {
            let done = data_struct_packages@.subrange(0, idx + 1);
            assert(done.drop_last() =~= data_struct_packages@.subrange(0, idx as int));
            assert(done.last() == *package);
            assert(metadata_vec@ == before_meta.push(metadata_vec@[idx as int]));
            assert(metadata_vec@[idx as int].file_path@ == package.data_path@);
            assert(before_meta.map_values(|m: FileMetadata| m.file_path@)
                =~= package_paths(done.drop_last()));
            assert forall|k: int| 0 <= k < idx + 1 implies
                #[trigger] metadata_vec@[k].file_path@ == done[k].data_path@ by {
                if k < idx {
                    assert(before_meta.map_values(|m: FileMetadata| m.file_path@)[k]
                        == package_paths(done.drop_last())[k]);
                }
            }
            assert(metadata_vec@.map_values(|m: FileMetadata| m.file_path@)
                =~= package_paths(done));
        }
        idx = idx + 1;
    }
    proof {
        assert(data_struct_packages@.subrange(0, n as int) =~= data_struct_packages@);
    }
    Ok(FilePageContainer { file_metadata_vec: metadata_vec, page_metadata: None, search_hit_map })
}

/// Every searched package has an entry in the hit map.
pub proof fn lemma_hit_map_covers_paths(packages: Seq<DataStructPackage>, keyword: Seq<char>)
    ensures
        forall|i: int|
            0 <= i < packages.len() ==> hit_map_of(packages, keyword).contains_key(
                #[trigger] packages[i].data_path@,
            ),
    decreases packages.len(),
{
    if packages.len() > 0 {
        lemma_hit_map_covers_paths(packages.drop_last(), keyword);
        assert forall|i: int| 0 <= i < packages.len() implies hit_map_of(packages, keyword).contains_key(
            #[trigger] packages[i].data_path@,
        ) by {
            if i < packages.len() - 1 {
                assert(packages.drop_last()[i] == packages[i]);
            }
        }
    }
}

/// In the result of a search every listed file has hits recorded, so the
/// viewer started on it is consistent.
pub proof fn lemma_query_result_lists_searched_files(
    packages: Seq<DataStructPackage>,
    keyword: Seq<char>,
    result: FilePageContainer,
)
    requires
        result.paths() == package_paths(packages),
        result.search_hit_map@ == hit_map_of(packages, keyword),
    ensures
        lists_only_searched_files(result),
{
    lemma_hit_map_covers_paths(packages, keyword);
    assert forall|i: int| 0 <= i < result.file_metadata_vec@.len() implies result.search_hit_map@.contains_key(
        #[trigger] result.file_metadata_vec@[i].file_path@,
    ) by {
        assert(result.paths()[i] == package_paths(packages)[i]);
        assert(result.paths().len() == packages.len());
        assert(result.paths()[i] == result.file_metadata_vec@[i].file_path@);
        assert(package_paths(packages)[i] == packages[i].data_path@);
    }
}

/// Somewhere at or after `from` (up to the end) an empty needle matches.
proof fn lemma_empty_matches_exist(hay: Seq<u8>, from: int)
    requires
        0 <= from <= hay.len(),
    ensures
        empty_matches_from(hay, from).len() > 0,
    decreases hay.len() - from,
{
    if !starts_char(hay, from) {
        lemma_empty_matches_exist(hay, from + 1);
    }
}

/// A needle that occurs at or after `from` is reported there or earlier.
proof fn lemma_occurrence_found(hay: Seq<u8>, needle: Seq<u8>, from: int, i: int)
    requires
        0 <= from <= i,
        matches_at(hay, needle, i),
    ensures
        occurrences_from(hay, needle, from).len() > 0,
    decreases hay.len() - from,
{
    if needle.len() == 0 {
        lemma_empty_matches_exist(hay, from);
    } else if matches_at(hay, needle, from) {
    } else {
        assert(from != i);
        lemma_occurrence_found(hay, needle, from + 1, i);
    }
}

/// The keyword occurs in the line.
pub open spec fn line_matches(line: Seq<char>, keyword: Seq<char>) -> bool {
    occurrences(utf8_of(line), utf8_of(keyword)).len() > 0
}

proof fn lemma_hit_has_match(lines: Seq<Seq<char>>, keyword: Seq<char>, count: int, t: int)
    requires
        0 <= count <= lines.len(),
        0 <= t < hits_in_first(lines, keyword, count).len(),
    ensures
        1 <= hits_in_first(lines, keyword, count)[t].line_number <= count,
        line_matches(lines[hits_in_first(lines, keyword, count)[t].line_number - 1], keyword),
    decreases count,
{
    let before = hits_in_first(lines, keyword, count - 1);
    let all = hits_in_first(lines, keyword, count);
    if t < before.len() {
        if line_matches(lines[count - 1], keyword) {
            assert(all[t] == before[t]);
        }
        lemma_hit_has_match(lines, keyword, count - 1, t);
    } else {
        assert(line_matches(lines[count - 1], keyword));
    }
}

proof fn lemma_match_has_hit(lines: Seq<Seq<char>>, keyword: Seq<char>, count: int, m: int) -> (t: int)
    requires
        1 <= m <= count <= lines.len(),
        line_matches(lines[m - 1], keyword),
    ensures
        0 <= t < hits_in_first(lines, keyword, count).len(),
        hits_in_first(lines, keyword, count)[t].line_number == m,
    decreases count,
{
    let before = hits_in_first(lines, keyword, count - 1);
    if m == count {
        before.len() as int
    } else {
        let t = lemma_match_has_hit(lines, keyword, count - 1, m);
        if line_matches(lines[count - 1], keyword) {
            assert(hits_in_first(lines, keyword, count)[t] == before[t]);
        }
        t
    }
}

/// A keyword that holds `shorter` occurs, in a line, only where `shorter`
/// occurs too.
proof fn lemma_line_matches_shorter(line: Seq<char>, longer: Seq<char>, shorter: Seq<char>)
    requires
        exists|j: int| matches_at(utf8_of(longer), utf8_of(shorter), j),
        line_matches(line, longer),
    ensures
        line_matches(line, shorter),
{
    let hay = utf8_of(line);
    let l = utf8_of(longer);
    let sh = utf8_of(shorter);
    let j = choose|j: int| matches_at(l, sh, j);
    crate::search::lemma_occurrences_sound(hay, l, 0);
    let i = occurrences(hay, l)[0].0;
    assert(matches_at(hay, l, i));
    assert(hay.subrange(i + j, i + j + sh.len()) =~= l.subrange(j, j + sh.len())) by {
        assert forall|x: int| 0 <= x < sh.len() implies
            #[trigger] hay.subrange(i + j, i + j + sh.len())[x] == l.subrange(j, j + sh.len())[x] by {
            assert(hay.subrange(i, i + l.len())[j + x] == l[j + x]);
        }
    }
    assert(matches_at(hay, sh, i + j));
    lemma_occurrence_found(hay, sh, 0, i + j);
}

/// Among the hits in the first `count` lines, each is a line under its
/// number with the ranges of every occurrence of the keyword in it, and
/// the line numbers increase.
proof fn lemma_hits_in_first_shape(lines: Seq<Seq<char>>, keyword: Seq<char>, count: int)
    requires
        0 <= count <= lines.len(),
    ensures
        forall|t: int| 0 <= t < hits_in_first(lines, keyword, count).len() ==> {
            let h = #[trigger] hits_in_first(lines, keyword, count)[t];
            &&& 1 <= h.line_number <= count
            &&& h.line == lines[h.line_number - 1]
            &&& h.positions == occurrences(utf8_of(h.line), utf8_of(keyword))
            &&& h.positions.len() > 0
        },
        forall|t: int, u: int| 0 <= t < u < hits_in_first(lines, keyword, count).len() ==>
            #[trigger] hits_in_first(lines, keyword, count)[t].line_number
                < #[trigger] hits_in_first(lines, keyword, count)[u].line_number,
    decreases count,
{
    if count > 0 {
        lemma_hits_in_first_shape(lines, keyword, count - 1);
        let before = hits_in_first(lines, keyword, count - 1);
        let all = hits_in_first(lines, keyword, count);
        if line_matches(lines[count - 1], keyword) {
            assert(all == before.push(all[before.len() as int]));
            assert forall|t: int| 0 <= t < all.len() implies {
                let h = #[trigger] all[t];
                &&& 1 <= h.line_number <= count
                &&& h.line == lines[h.line_number - 1]
                &&& h.positions == occurrences(utf8_of(h.line), utf8_of(keyword))
                &&& h.positions.len() > 0
            } by {
                if t < before.len() {
                    assert(all[t] == before[t]);
                }
            }
            assert forall|t: int, u: int| 0 <= t < u < all.len() implies
                #[trigger] all[t].line_number < #[trigger] all[u].line_number by {
                assert(all[t] == before[t]);
                if u < before.len() {
                    assert(all[u] == before[u]);
                }
            }
        }
    }
}

/// The hits of a keyword in the lines of a file: each is a line of the
/// file, under its number (from 1), with the byte ranges of all the
/// keyword's occurrences in it; they come in increasing line order; and
/// every line that holds the keyword has a hit.
pub proof fn lemma_hits_are_complete(lines: Seq<Seq<char>>, keyword: Seq<char>)
    ensures
        forall|t: int| 0 <= t < keyword_hits(lines, keyword).len() ==> {
            let h = #[trigger] keyword_hits(lines, keyword)[t];
            &&& 1 <= h.line_number <= lines.len()
            &&& h.line == lines[h.line_number - 1]
            &&& h.positions == occurrences(utf8_of(h.line), utf8_of(keyword))
            &&& h.positions.len() > 0
        },
        forall|t: int, u: int| 0 <= t < u < keyword_hits(lines, keyword).len() ==>
            #[trigger] keyword_hits(lines, keyword)[t].line_number
                < #[trigger] keyword_hits(lines, keyword)[u].line_number,
        forall|m: int| 1 <= m <= lines.len() && #[trigger] line_matches(lines[m - 1], keyword) ==>
            has_line_number(keyword_hits(lines, keyword), m),
{
    let n = lines.len() as int;
    lemma_hits_in_first_shape(lines, keyword, n);
    assert forall|m: int| 1 <= m <= lines.len() && #[trigger] line_matches(lines[m - 1], keyword) implies
        has_line_number(keyword_hits(lines, keyword), m) by {
        let u = lemma_match_has_hit(lines, keyword, n, m);
        assert(keyword_hits(lines, keyword)[u].line_number == m);
    }
}

/// Some hit among `hits` is on line `m`.
pub open spec fn has_line_number(hits: Seq<HitView>, m: int) -> bool {
    exists|u: int| 0 <= u < hits.len() && hits[u].line_number == m
}

/// Every line number among `hits` is also among `others`.
pub open spec fn line_numbers_among(hits: Seq<HitView>, others: Seq<HitView>) -> bool {
    forall|t: int| 0 <= t < hits.len() ==> has_line_number(others, #[trigger] hits[t].line_number)
}

/// The hits of every file for a query, by line number, are among its hits
/// for any text that the query holds: a longer query never matches more
/// lines.
pub proof fn lemma_longer_query_matches_fewer_lines(
    packages: Seq<DataStructPackage>,
    longer: Seq<char>,
    shorter: Seq<char>,
)
    requires
        exists|j: int| matches_at(utf8_of(longer), utf8_of(shorter), j),
    ensures
        forall|path: Seq<char>| #[trigger] hit_map_of(packages, longer).contains_key(path) ==> {
            &&& hit_map_of(packages, shorter).contains_key(path)
            &&& line_numbers_among(hit_map_of(packages, longer)[path], hit_map_of(packages, shorter)[path])
        },
    decreases packages.len(),
{
    if packages.len() > 0 {
        lemma_longer_query_matches_fewer_lines(packages.drop_last(), longer, shorter);
        let last = packages.last();
        let lines = last.data_struct.lines();
        let hl = keyword_hits(lines, longer);
        let hs = keyword_hits(lines, shorter);
        let n = lines.len() as int;
        assert(line_numbers_among(hl, hs)) by {
            assert forall|t: int| 0 <= t < hl.len() implies has_line_number(hs, #[trigger] hl[t].line_number) by {
                lemma_hit_has_match(lines, longer, n, t);
                let m = hl[t].line_number;
                lemma_line_matches_shorter(lines[m - 1], longer, shorter);
                let u = lemma_match_has_hit(lines, shorter, n, m);
                assert(hs[u].line_number == m);
            }
        }
        let before_l = hit_map_of(packages.drop_last(), longer);
        let before_s = hit_map_of(packages.drop_last(), shorter);
        assert forall|path: Seq<char>| #[trigger] hit_map_of(packages, longer).contains_key(path) implies {
            &&& hit_map_of(packages, shorter).contains_key(path)
            &&& line_numbers_among(hit_map_of(packages, longer)[path], hit_map_of(packages, shorter)[path])
        } by {
            if path == last.data_path@ {
                assert(hit_map_of(packages, longer)[path] == hl);
                assert(hit_map_of(packages, shorter)[path] == hs);
            } else {
                assert(before_l.contains_key(path));
                assert(hit_map_of(packages, longer)[path] == before_l[path]);
                assert(hit_map_of(packages, shorter)[path] == before_s[path]);
            }
        }
    }
}

} // verus!
