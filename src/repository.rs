use vstd::prelude::*;

use fuzzy_matcher::FuzzyMatcher;

use crate::ordering::{is_desc_order, is_text_order, order_by_key_desc, order_by_text, positions};
use crate::text::{lower_of, lowercase, opt_text, parse_tags, strings_of, tags_of};

verus! {

/// Abstract value of a repository description.
pub ghost struct RepoModel {
    pub name: Seq<char>,
    pub path: Seq<char>,
    pub tags: Seq<Seq<char>>,
    pub description: Seq<char>,
    pub last_modified: i64,
    pub language: Option<Seq<char>>,
}

/// `p` occurs in `s` as a contiguous piece.
pub open spec fn is_substring(p: Seq<char>, s: Seq<char>) -> bool {
    exists|i: int| 0 <= i && i + p.len() <= s.len() && #[trigger] s.subrange(i, i + p.len()) == p
}

/// What `str::split_whitespace` makes of a string.
pub uninterp spec fn whitespace_tokens(s: Seq<char>) -> Seq<Seq<char>>;

/// Relies on str::contains with a `&str` pattern: whether `p` occurs in `s`.
#[verifier::external_body]
fn contains_str(s: &str, p: &str) -> (r: bool)
    ensures
        r == is_substring(p@, s@),
{
    s.contains(p)
}

/// Relies on str::split_whitespace: the pieces of `s` between runs of whitespace.
#[verifier::external_body]
fn split_whitespace(s: &str) -> (r: Vec<String>)
    ensures
        r@.map_values(|t: String| t@) == whitespace_tokens(s@),
{
    s.split_whitespace().map(|t| t.to_owned()).collect()
}

/// The token occurs, ignoring case, in the name, the description, a tag or the language.
pub open spec fn token_hits(r: RepoModel, tok: Seq<char>) -> bool {
    ||| is_substring(tok, lower_of(r.name))
    ||| is_substring(tok, lower_of(r.description))
    ||| exists|j: int| 0 <= j < r.tags.len() && is_substring(tok, lower_of(r.tags[j]))
    ||| (r.language matches Some(l) && is_substring(tok, lower_of(l)))
}

/// An empty query matches everything; otherwise some whitespace-separated
/// token of the lowercased query must hit.
pub open spec fn query_matches(r: RepoModel, q: Seq<char>) -> bool {
    q.len() == 0 || exists|k: int|
        0 <= k < whitespace_tokens(lower_of(q)).len() && token_hits(r, whitespace_tokens(lower_of(q))[k])
}

/// Every wanted tag is among the repository's tags (exact comparison).
pub open spec fn has_all_tags(r: RepoModel, wanted: Seq<Seq<char>>) -> bool {
    forall|i: int| 0 <= i < wanted.len() ==> r.tags.contains(#[trigger] wanted[i])
}

/// Whether `token` occurs in one of the already lowercased fields: the name,
/// the description, one of the tags, or the language when there is one.
pub fn token_hits_folded(name: &str, description: &str, tags: &Vec<String>, language: &Option<String>, token: &str) -> (r: bool)
    ensures
        r == {
            ||| is_substring(token@, name@)
            ||| is_substring(token@, description@)
            ||| exists|j: int| 0 <= j < tags@.len() && is_substring(token@, tags@[j]@)
            ||| (*language matches Some(l) && is_substring(token@, l@))
        },
{
    if contains_str(name, token) {
        return true;
    }
    if contains_str(description, token) {
        return true;
    }
    let mut j: usize = 0;
    while j < tags.len()
        invariant
            j <= tags@.len(),
            forall|m: int| 0 <= m < j ==> !is_substring(token@, (#[trigger] tags@[m])@),
        decreases tags@.len() - j,
    {
        if contains_str(tags[j].as_str(), token) {
            return true;
        }
        j += 1;
    }
    match language {
        Some(l) => contains_str(l.as_str(), token),
        None => false,
    }
}

/// Number of marker files looked for.
pub const MARKER_COUNT: usize = 8;

/// The language revealed by which marker files exist, given in the order
/// Cargo.toml, package.json, go.mod, pom.xml, build.gradle, requirements.txt,
/// setup.py, CMakeLists.txt; the first language whose marker exists wins.
pub open spec fn language_for(found: Seq<bool>) -> Option<Seq<char>> {
    if found[0] {
        Some("Rust"@)
    } else if found[1] {
        Some("JavaScript/TypeScript"@)
    } else if found[2] {
        Some("Go"@)
    } else if found[3] || found[4] {
        Some("Java"@)
    } else if found[5] || found[6] {
        Some("Python"@)
    } else if found[7] {
        Some("C/C++"@)
    } else {
        None
    }
}

/// The language revealed by which marker files exist (see `language_for`).
pub fn language_from_markers(found: &Vec<bool>) -> (r: Option<String>)
    requires
        found@.len() == MARKER_COUNT,
    ensures
        opt_text(r) == language_for(found@),
{
    let name = if found[0] {
        "Rust"
    } else if found[1] {
        "JavaScript/TypeScript"
    } else if found[2] {
        "Go"
    } else if found[3] || found[4] {
        "Java"
    } else if found[5] || found[6] {
        "Python"
    } else if found[7] {
        "C/C++"
    } else {
        return None;
    };
    Some(name.to_owned())
}

/// Whether the file system holds `file` inside the directory `dir`.
fn marker_exists(dir: &str, file: &str) -> bool {
    let p = crate::paths::join_path(dir, file);
    crate::storage::path_exists(p.as_str())
}

/// A Git working copy described by name, tags, description and language.
#[derive(Debug)]
pub struct Repository {
    pub name: String,
    pub path: String,
    pub tags: Vec<String>,
    pub description: String,
    /// Microseconds since the Unix epoch.
    pub last_modified: i64,
    pub language: Option<String>,
}

impl View for Repository {
    type V = RepoModel;

    open spec fn view(&self) -> RepoModel {
        RepoModel {
            name: self.name@,
            path: self.path@,
            tags: strings_of(self.tags@),
            description: self.description@,
            last_modified: self.last_modified,
            language: match self.language {
                Some(l) => Some(l@),
                None => None,
            },
        }
    }
}

/// A copy of a list of strings.
pub fn copy_strings(v: &Vec<String>) -> (r: Vec<String>)
    ensures
        strings_of(r@) == strings_of(v@),
{
    let mut out: Vec<String> = Vec::new();
    let mut i: usize = 0;
    while i < v.len()
        invariant
            i <= v.len(),
            out@.len() == i,
            forall|k: int| 0 <= k < i ==> (#[trigger] out@[k])@ == v@[k]@,
        decreases v.len() - i,
    {
        out.push(v[i].clone());
        i += 1;
    }
    proof {
        assert(strings_of(out@) =~= strings_of(v@));
    }
    out
}

impl Repository {
    /// A repository with the given fields, modified now, language unknown.
    pub fn new(name: String, path: String, tags: Vec<String>, description: String) -> (r: Self)
        ensures
            r.name == name,
            r.path == path,
            r.tags == tags,
            r.description == description,
            r.language is None,
    {
        let now = crate::storage::current_time();
        Repository { name, path, tags, description, last_modified: now, language: None }
    }

    /// A field-by-field copy.
    pub fn copied(&self) -> (r: Self)
        ensures
            r@ == self@,
    {
        let language = match &self.language {
            Some(l) => Some(l.clone()),
            None => None,
        };
        Repository {
            name: self.name.clone(),
            path: self.path.clone(),
            tags: copy_strings(&self.tags),
            description: self.description.clone(),
            last_modified: self.last_modified,
            language,
        }
    }

    /// Whether the query matches: an empty query always does; otherwise some
    /// whitespace-separated token of it occurs, ignoring case, in the name,
    /// the description, a tag or the language.
    pub fn matches_query(&self, query: &str) -> (r: bool)
        ensures
            r == query_matches(self@, query@),
    {
        if query.is_empty() {
            return true;
        }
        let q = lowercase(query);
        let tokens = split_whitespace(q.as_str());
        let name = lowercase(self.name.as_str());
        let description = lowercase(self.description.as_str());
        let language = match &self.language {
            Some(l) => Some(lowercase(l.as_str())),
            None => None,
        };
        let mut tags: Vec<String> = Vec::new();
        let mut j: usize = 0;
        while j < self.tags.len()
            invariant
                j <= self.tags@.len(),
                tags@.len() == j,
                forall|m: int| 0 <= m < j ==> (#[trigger] tags@[m])@ == lower_of(self.tags@[m]@),
            decreases self.tags@.len() - j,
        {
            tags.push(lowercase(self.tags[j].as_str()));
            j += 1;
        }
        let ghost toks = whitespace_tokens(lower_of(query@));
        assert(tokens@.len() == toks.len());
        let mut k: usize = 0;
        while k < tokens.len()
            invariant
                k <= tokens@.len(),
                toks == whitespace_tokens(lower_of(query@)),
                tokens@.len() == toks.len(),
                forall|a: int| 0 <= a < toks.len() ==> (#[trigger] tokens@[a])@ == toks[a],
                forall|a: int| 0 <= a < k ==> !token_hits(self@, #[trigger] toks[a]),
                tags@.len() == self.tags@.len(),
                forall|m: int| 0 <= m < tags@.len() ==> (#[trigger] tags@[m])@ == lower_of(self.tags@[m]@),
                name@ == lower_of(self.name@),
                description@ == lower_of(self.description@),
                match self.language {
                    Some(l) => language matches Some(f) && f@ == lower_of(l@),
                    None => language is None,
                },
            decreases tokens@.len() - k,
        {
            proof {
                assert(tokens@.map_values(|t: String| t@)[k as int] == toks[k as int]);
            }
            let hit = token_hits_folded(name.as_str(), description.as_str(), &tags, &language, tokens[k].as_str());
            proof {
                let tok = toks[k as int];
                assert(tokens@[k as int]@ == tok);
                if hit {
                    if exists|j: int| 0 <= j < tags@.len() && is_substring(tok, tags@[j]@) {
                        let j = choose|j: int| 0 <= j < tags@.len() && is_substring(tok, tags@[j]@);
                        assert(is_substring(tok, lower_of(self@.tags[j])));
                    }
                    assert(token_hits(self@, tok));
                } else {
                    if exists|j: int| 0 <= j < self@.tags.len() && is_substring(tok, lower_of(self@.tags[j])) {
                        let j = choose|j: int| 0 <= j < self@.tags.len() && is_substring(tok, lower_of(self@.tags[j]));
                        assert(is_substring(tok, tags@[j]@));
                    }
                    assert(!token_hits(self@, tok));
                }
            }
            if hit {
                assert(token_hits(self@, whitespace_tokens(lower_of(query@))[k as int]));
                return true;
            }
            k += 1;
        }
        false
    }

    /// Looks for marker files in the working copy and sets the language they
    /// indicate (see `language_from_markers`). When none is found the language
    /// is left as it was.
    pub fn detect_language(&mut self)
        ensures
            final(self).name == old(self).name,
            final(self).path == old(self).path,
            final(self).tags == old(self).tags,
            final(self).description == old(self).description,
            final(self).last_modified == old(self).last_modified,
            exists|found: Seq<bool>| found.len() == MARKER_COUNT && opt_text(final(self).language) == match language_for(found) {
                Some(l) => Some(l),
                None => opt_text(old(self).language),
            },
    {
        let ghost before = opt_text(self.language);
        let p = self.path.as_str();
        let mut found: Vec<bool> = Vec::new();
        found.push(marker_exists(p, "Cargo.toml"));
        found.push(marker_exists(p, "package.json"));
        found.push(marker_exists(p, "go.mod"));
        found.push(marker_exists(p, "pom.xml"));
        found.push(marker_exists(p, "build.gradle"));
        found.push(marker_exists(p, "requirements.txt"));
        found.push(marker_exists(p, "setup.py"));
        found.push(marker_exists(p, "CMakeLists.txt"));
        match language_from_markers(&found) {
            Some(l) => {
                self.language = Some(l);
            },
            None => {},
        }
        assert(found@.len() == MARKER_COUNT && opt_text(self.language) == match language_for(found@) {
            Some(l) => Some(l),
            None => before,
        });
    }

    /// Whether every given tag is one of the repository's tags (exact match).
    pub fn matches_tags(&self, tags: &[String]) -> (r: bool)
        ensures
            r == has_all_tags(self@, tags@.map_values(|t: String| t@)),
    {
        let ghost wanted = tags@.map_values(|t: String| t@);
        let mut i: usize = 0;
        while i < tags.len()
            invariant
                i <= tags@.len(),
                wanted == tags@.map_values(|t: String| t@),
                forall|k: int| 0 <= k < i ==> self@.tags.contains(#[trigger] wanted[k]),
            decreases tags@.len() - i,
        {
            let mut found = false;
            let mut j: usize = 0;
            while j < self.tags.len()
                invariant
                    i < tags@.len(),
                    j <= self.tags@.len(),
                    found == exists|m: int| 0 <= m < j && self.tags@[m]@ == tags@[i as int]@,
                decreases self.tags@.len() - j,
            {
                if self.tags[j] == tags[i] {
                    found = true;
                }
                j += 1;
            }
            if !found {
                proof {
                    assert(!self@.tags.contains(wanted[i as int])) by {
                        if self@.tags.contains(wanted[i as int]) {
                            let m = choose|m: int| 0 <= m < self@.tags.len() && self@.tags[m] == wanted[i as int];
                            assert(self.tags@[m]@ == tags@[i as int]@);
                        }
                    }
                }
                return false;
            }
            proof {
                let m = choose|m: int| 0 <= m < j && self.tags@[m]@ == tags@[i as int]@;
                assert(self@.tags[m] == wanted[i as int]);
            }
            i += 1;
        }
        true
    }
}

/// What the Skim fuzzy matcher, with its default settings, scores for
/// `pattern` against `choice`; none when the pattern does not match.
pub uninterp spec fn fuzzy_score(choice: Seq<char>, pattern: Seq<char>) -> Option<i64>;

/// Relies on fuzzy_matcher's SkimMatcherV2::fuzzy_match with default
/// settings: the score depends on the two strings alone.
#[verifier::external_body]
fn fuzzy_match(choice: &str, pattern: &str) -> (r: Option<i64>)
    ensures
        r == fuzzy_score(choice@, pattern@),
{
    fuzzy_matcher::skim::SkimMatcherV2::default().fuzzy_match(choice, pattern)
}

/// The fuzzy score of the name, zero when it does not match.
pub open spec fn name_score(r: RepoModel, q: Seq<char>) -> i64 {
    match fuzzy_score(r.name, q) {
        Some(s) => s,
        None => 0,
    }
}

/// The abstract values of a list of repositories.
pub open spec fn repo_models(s: Seq<Repository>) -> Seq<RepoModel> {
    s.map_values(|r: Repository| r@)
}

/// The abstract values of a list of scored repositories.
pub open spec fn scored_models(s: Seq<(Repository, i64)>) -> Seq<(RepoModel, i64)> {
    s.map_values(|e: (Repository, i64)| (e.0@, e.1))
}

/// The scores of a list of scored repositories.
pub open spec fn scores_of(s: Seq<(RepoModel, i64)>) -> Seq<i64> {
    s.map_values(|e: (RepoModel, i64)| e.1)
}

/// The repositories that a query finds, in their order in the input, with their
/// scores: for an empty query every repository, scored zero; otherwise those
/// that match the query or whose name the fuzzy matcher scores above zero,
/// with that score.
pub open spec fn search_candidates(rs: Seq<RepoModel>, q: Seq<char>) -> Seq<(RepoModel, i64)>
    decreases rs.len(),
{
    if rs.len() == 0 {
        Seq::empty()
    } else {
        let rest = search_candidates(rs.drop_last(), q);
        if q.len() == 0 {
            rest.push((rs.last(), 0i64))
        } else if query_matches(rs.last(), q) || name_score(rs.last(), q) > 0 {
            rest.push((rs.last(), name_score(rs.last(), q)))
        } else {
            rest
        }
    }
}

/// The entries of `s` at the positions listed in `order`.
pub open spec fn pick<T>(s: Seq<T>, order: Seq<int>) -> Seq<T> {
    order.map_values(|i: int| s[i])
}

/// Searches the repositories: those found by the query (see
/// `search_candidates`), best score first; equal scores keep their order.
pub fn search_repositories(repositories: &[Repository], query: &str) -> (r: Vec<(Repository, i64)>)
    ensures
        exists|order: Seq<int>|
            #[trigger] is_desc_order(scores_of(search_candidates(repo_models(repositories@), query@)), order)
                && scored_models(r@) == pick(search_candidates(repo_models(repositories@), query@), order),
{
    let ghost all = repo_models(repositories@);
    let mut cands: Vec<(Repository, i64)> = Vec::new();
    let mut keys: Vec<i64> = Vec::new();
    let mut i: usize = 0;
    while i < repositories.len()
        invariant
            i <= repositories@.len(),
            all == repo_models(repositories@),
            scored_models(cands@) == search_candidates(all.subrange(0, i as int), query@),
            keys@ == scores_of(scored_models(cands@)),
        decreases repositories@.len() - i,
    {
        proof {
            assert(all.subrange(0, i + 1).drop_last() =~= all.subrange(0, i as int));
        }
        let repo = &repositories[i];
        let ghost before = cands@;
        if query.is_empty() {
            cands.push((repo.copied(), 0));
            keys.push(0);
            proof {
                assert(scored_models(cands@) =~= scored_models(before).push((all[i as int], 0i64)));
            }
        } else {
            let basic = repo.matches_query(query);
            let score = match fuzzy_match(repo.name.as_str(), query) {
                Some(s) => s,
                None => 0,
            };
            if basic || score > 0 {
                cands.push((repo.copied(), score));
                keys.push(score);
                proof {
                    assert(scored_models(cands@) =~= scored_models(before).push((all[i as int], score)));
                }
            }
        }
        proof {
            assert(keys@ =~= scores_of(scored_models(cands@)));
        }
        i += 1;
    }
    proof {
        assert(all.subrange(0, repositories@.len() as int) =~= all);
    }
    let order = order_by_key_desc(&keys);
    proof {
        assert(keys@.len() == cands@.len());
        assert forall|a: int| 0 <= a < order@.len() implies (#[trigger] order@[a]) < cands@.len() by {
            assert(positions(order@)[a] == order@[a] as int);
        }
    }
    let mut out: Vec<(Repository, i64)> = Vec::new();
    let mut k: usize = 0;
    while k < order.len()
        invariant
            k <= order@.len(),
            order@.len() == cands@.len(),
            forall|a: int| 0 <= a < order@.len() ==> (#[trigger] order@[a]) < cands@.len(),
            out@.len() == k,
            forall|a: int| 0 <= a < k ==> (#[trigger] out@[a]).0@ == cands@[order@[a] as int].0@
                && out@[a].1 == cands@[order@[a] as int].1,
        decreases order@.len() - k,
    {
        proof {
            assert(positions(order@)[k as int] == order@[k as int] as int);
        }
        let j = order[k];
        out.push((cands[j].0.copied(), cands[j].1));
        k += 1;
    }
    proof {
        let c = search_candidates(all, query@);
        assert(scored_models(out@) =~= pick(c, positions(order@)));
    }
    out
}

/// The repositories that carry every wanted tag, in their order in the input.
pub open spec fn tagged_only(rs: Seq<RepoModel>, wanted: Seq<Seq<char>>) -> Seq<RepoModel>
    decreases rs.len(),
{
    if rs.len() == 0 {
        rs
    } else if has_all_tags(rs.last(), wanted) {
        tagged_only(rs.drop_last(), wanted).push(rs.last())
    } else {
        tagged_only(rs.drop_last(), wanted)
    }
}

/// The repositories kept by an optional comma-separated tag filter.
pub open spec fn filter_stage(rs: Seq<RepoModel>, tags: Option<Seq<char>>) -> Seq<RepoModel> {
    match tags {
        Some(t) => tagged_only(rs, tags_of(t)),
        None => rs,
    }
}

/// The sort option asks for the most recently modified first.
pub open spec fn sorts_by_modified(sort: Option<Seq<char>>) -> bool {
    sort == Some("modified"@)
}

/// `order` sorts `rs` as the sort option asks: by modification time, newest
/// first, for `modified`; by lowercased name otherwise (also for an unknown
/// option). Equal keys keep their order.
pub open spec fn sorted_as(rs: Seq<RepoModel>, sort: Option<Seq<char>>, order: Seq<int>) -> bool {
    if sorts_by_modified(sort) {
        is_desc_order(rs.map_values(|r: RepoModel| r.last_modified), order)
    } else {
        is_text_order(rs.map_values(|r: RepoModel| lower_of(r.name)), order)
    }
}

/// The repositories carrying every tag of the comma-separated list (when
/// one is given), sorted as the sort option asks.
pub fn get_filtered_repositories(repositories: &[Repository], tags: &Option<String>, sort: &Option<String>) -> (r: Vec<Repository>)
    ensures
        exists|order: Seq<int>|
            #[trigger] sorted_as(filter_stage(repo_models(repositories@), opt_text(*tags)), opt_text(*sort), order)
                && repo_models(r@) == pick(filter_stage(repo_models(repositories@), opt_text(*tags)), order),
{
    let ghost all = repo_models(repositories@);
    let mut kept: Vec<Repository> = Vec::new();
    match tags {
        Some(t) => {
            let wanted = parse_tags(t.as_str());
            let mut i: usize = 0;
            while i < repositories.len()
                invariant
                    i <= repositories@.len(),
                    all == repo_models(repositories@),
                    strings_of(wanted@) == tags_of(t@),
                    repo_models(kept@) == tagged_only(all.subrange(0, i as int), tags_of(t@)),
                decreases repositories@.len() - i,
            {
                proof {
                    assert(all.subrange(0, i + 1).drop_last() =~= all.subrange(0, i as int));
                }
                let ghost before = kept@;
                if repositories[i].matches_tags(wanted.as_slice()) {
                    kept.push(repositories[i].copied());
                    proof {
                        assert(wanted@.map_values(|s: String| s@) == strings_of(wanted@));
                        assert(repo_models(kept@) =~= repo_models(before).push(all[i as int]));
                    }
                } else {
                    proof {
                        assert(wanted@.map_values(|s: String| s@) == strings_of(wanted@));
                    }
                }
                i += 1;
            }
            proof {
                assert(all.subrange(0, repositories@.len() as int) =~= all);
            }
        },
        None => {
            let mut i: usize = 0;
            while i < repositories.len()
                invariant
                    i <= repositories@.len(),
                    all == repo_models(repositories@),
                    repo_models(kept@) == all.subrange(0, i as int),
                decreases repositories@.len() - i,
            {
                let ghost before = kept@;
                kept.push(repositories[i].copied());
                proof {
                    assert(all[i as int] == repositories@[i as int]@);
                    assert(repo_models(kept@) =~= repo_models(before).push(all[i as int]));
                    assert(repo_models(kept@) =~= all.subrange(0, i + 1));
                }
                i += 1;
            }
            proof {
                assert(all.subrange(0, repositories@.len() as int) =~= all);
            }
        },
    }
    let ghost f = repo_models(kept@);
    assert(f == filter_stage(all, opt_text(*tags)));
    let by_modified = match sort {
        Some(s) => {
            let modified = "modified".to_owned();
            *s == modified
        },
        None => false,
    };
    assert(by_modified == sorts_by_modified(opt_text(*sort)));
    let order = if by_modified {
        let mut keys: Vec<i64> = Vec::new();
        let mut i: usize = 0;
        while i < kept.len()
            invariant
                i <= kept@.len(),
                keys@ == repo_models(kept@).map_values(|r: RepoModel| r.last_modified).subrange(0, i as int),
            decreases kept@.len() - i,
        {
            keys.push(kept[i].last_modified);
            proof {
                assert(keys@ =~= repo_models(kept@).map_values(|r: RepoModel| r.last_modified).subrange(0, i + 1));
            }
            i += 1;
        }
        proof {
            assert(keys@ =~= repo_models(kept@).map_values(|r: RepoModel| r.last_modified));
        }
        order_by_key_desc(&keys)
    } else {
        let mut keys: Vec<String> = Vec::new();
        let mut i: usize = 0;
        while i < kept.len()
            invariant
                i <= kept@.len(),
                keys@.map_values(|s: String| s@) == repo_models(kept@).map_values(|r: RepoModel| lower_of(r.name)).subrange(0, i as int),
            decreases kept@.len() - i,
        {
            let ghost before = keys@;
            keys.push(lowercase(kept[i].name.as_str()));
            proof {
                assert(keys@.map_values(|s: String| s@) =~= before.map_values(|s: String| s@).push(lower_of(kept@[i as int].name@)));
                assert(keys@.map_values(|s: String| s@) =~= repo_models(kept@).map_values(|r: RepoModel| lower_of(r.name)).subrange(0, i + 1));
            }
            i += 1;
        }
        proof {
            assert(keys@.map_values(|s: String| s@) =~= repo_models(kept@).map_values(|r: RepoModel| lower_of(r.name)));
        }
        order_by_text(&keys)
    };
    proof {
        assert(sorted_as(f, opt_text(*sort), positions(order@)));
        assert forall|a: int| 0 <= a < order@.len() implies (#[trigger] order@[a]) < kept@.len() by {
            assert(positions(order@)[a] == order@[a] as int);
        }
    }
    let mut out: Vec<Repository> = Vec::new();
    let mut k: usize = 0;
    while k < order.len()
        invariant
            k <= order@.len(),
            forall|a: int| 0 <= a < order@.len() ==> (#[trigger] order@[a]) < kept@.len(),
            out@.len() == k,
            forall|a: int| 0 <= a < k ==> (#[trigger] out@[a])@ == kept@[order@[a] as int]@,
        decreases order@.len() - k,
    {
        let j = order[k];
        out.push(kept[j].copied());
        k += 1;
    }
    proof {
        assert(repo_models(out@) =~= pick(f, positions(order@)));
    }
    out
}

} // verus!
