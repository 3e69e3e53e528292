//! Content records: the string-keyed metadata map, the `ContentItem` record,
//! and the parse routine that produces one from a content file's text.
//!
//! A content file is UTF-8 text that may begin with a metadata block: a first
//! line `---`, then `key: value` lines, then a line `---` or `...`.  The body
//! after the block is Markdown, converted to HTML by an outside library.

use vstd::prelude::*;
use crate::strutil::{
    concat2, find_char, is_ws, is_ws_char, lemma_split_chars_len, lemma_split_chars_two,
    spec_ends_with, spec_find_char, spec_strip_prefix, spec_strip_suffix, split_char, split_chars,
    str_ends_with, str_eq, strip_prefix_str, strip_suffix_str, trim_spec, trim_str, views_of,
};

verus! {

// ---------------------------------------------------------------------------
// StrMap: insertion-ordered string-to-string mapping
// ---------------------------------------------------------------------------

/// A string-to-string mapping stored as a list of pairs; a later insert for
/// the same key wins.  Viewed as a `Map<Seq<char>, Seq<char>>`.
#[derive(Debug, Clone, PartialEq)]
pub struct StrMap {
    pairs: Vec<(String, String)>,
}

/// The mapping that a pair list denotes: pairs applied left to right.
pub open spec fn map_of(pairs: Seq<(String, String)>) -> Map<Seq<char>, Seq<char>>
    decreases pairs.len(),
{
    if pairs.len() == 0 {
        Map::empty()
    } else {
        map_of(pairs.drop_last()).insert(pairs.last().0@, pairs.last().1@)
    }
}

impl View for StrMap {
    type V = Map<Seq<char>, Seq<char>>;

    closed spec fn view(&self) -> Map<Seq<char>, Seq<char>> {
        map_of(self.pairs@)
    }
}

proof fn lemma_map_of_last_match(pairs: Seq<(String, String)>, k: Seq<char>, j: int)
    requires
        0 <= j < pairs.len(),
        pairs[j].0@ == k,
        forall|l: int| j < l < pairs.len() ==> pairs[l].0@ != k,
    ensures
        map_of(pairs).contains_key(k),
        map_of(pairs)[k] == pairs[j].1@,
    decreases pairs.len(),
{
    if j == pairs.len() - 1 {
    } else {
        assert(pairs.last().0@ != k);
        lemma_map_of_last_match(pairs.drop_last(), k, j);
    }
}

proof fn lemma_map_of_none(pairs: Seq<(String, String)>, k: Seq<char>)
    requires
        forall|l: int| 0 <= l < pairs.len() ==> pairs[l].0@ != k,
    ensures
        !map_of(pairs).contains_key(k),
    decreases pairs.len(),
{
    if pairs.len() > 0 {
        lemma_map_of_none(pairs.drop_last(), k);
    }
}

impl StrMap {
    pub fn new() -> (r: StrMap)
        ensures
            r@ == Map::<Seq<char>, Seq<char>>::empty(),
    {
        StrMap { pairs: Vec::new() }
    }

    pub fn insert(&mut self, k: String, v: String)
        ensures
            final(self)@ == old(self)@.insert(k@, v@),
    {
        let ghost before = self.pairs@;
        self.pairs.push((k, v));
        proof {
            assert(self.pairs@.drop_last() =~= before);
        }
    }

    pub fn get(&self, k: &str) -> (r: Option<&String>)
        ensures
            r is Some <==> self@.contains_key(k@),
            r is Some ==> r->0@ == self@[k@],
    {
        let n = self.pairs.len();
        let mut i: usize = n;
        while i > 0
            invariant
                i <= n,
                n == self.pairs@.len(),
                forall|l: int| i <= l < n ==> self.pairs@[l].0@ != k@,
            decreases i,
        {
            i = i - 1;
            if str_eq(self.pairs[i].0.as_str(), k) {
                proof {
                    lemma_map_of_last_match(self.pairs@, k@, i as int);
                }
                return Some(&self.pairs[i].1);
            }
        }
        proof {
            lemma_map_of_none(self.pairs@, k@);
        }
        None
    }

    pub fn contains_key(&self, k: &str) -> (r: bool)
        ensures
            r == self@.contains_key(k@),
    {
        self.get(k).is_some()
    }

    /// The stored pairs, in insertion order; applied left to right they
    /// denote exactly this mapping.
    pub fn pairs(&self) -> (r: &Vec<(String, String)>)
        ensures
            map_of(r@) == self@,
    {
        &self.pairs
    }
}

// ---------------------------------------------------------------------------
// ContentItem
// ---------------------------------------------------------------------------

/// One parsed content file.
#[derive(Debug, Clone, PartialEq)]
pub struct ContentItem {
    /// Absolute source path.
    pub path: String,
    /// Path with the content root and the content-file suffix stripped.
    pub slug: String,
    /// Key-value pairs from the metadata block.
    pub meta: StrMap,
    /// HTML rendered from the Markdown body.
    pub entry: String,
    /// Reading-time estimate: words of `entry` divided by 225.
    pub time_to_read: usize,
}

// ---------------------------------------------------------------------------
// Markdown conversion (outside library)
// ---------------------------------------------------------------------------

/// The HTML that the Markdown converter produces for a given text.
pub uninterp spec fn html_of(s: Seq<char>) -> Seq<char>;

/// Relies on comrak::markdown_to_html: converts Markdown text to HTML.  With
/// fixed (default) options the result is a function of the input text alone.
#[verifier::external_body]
fn render_markdown(md: &str) -> (r: String)
    ensures
        r@ == html_of(md@),
{
    comrak::markdown_to_html(md, &comrak::Options::default())
}

// ---------------------------------------------------------------------------
// Word counting
// ---------------------------------------------------------------------------

pub open spec fn wc_from(s: Seq<char>, prev_ws: bool) -> nat
    decreases s.len(),
{
    if s.len() == 0 {
        0
    } else {
        (if prev_ws && !is_ws_char(s[0]) {
            1nat
        } else {
            0nat
        }) + wc_from(s.drop_first(), is_ws_char(s[0]))
    }
}

/// The number of maximal whitespace-separated runs in `s`.
pub open spec fn word_count(s: Seq<char>) -> nat {
    wc_from(s, true)
}

pub fn count_words(s: &str) -> (r: usize)
    ensures
        r == word_count(s@),
{
    let n = s.unicode_len();
    let mut i: usize = 0;
    let mut acc: usize = 0;
    let mut prev_ws = true;
    proof {
        assert(s@.skip(0) =~= s@);
    }
    while i < n
        invariant
            i <= n,
            n == s@.len(),
            acc <= i,
            word_count(s@) == acc + wc_from(s@.skip(i as int), prev_ws),
        decreases n - i,
    {
        let c = s.get_char(i);
        proof {
            let t = s@.skip(i as int);
            assert(t[0] == s@[i as int]);
            assert(t.drop_first() =~= s@.skip(i + 1));
        }
        if prev_ws && !is_ws(c) {
            acc = acc + 1;
        }
        prev_ws = is_ws(c);
        i = i + 1;
    }
    assert(s@.skip(n as int).len() == 0);
    acc
}

// ---------------------------------------------------------------------------
// The metadata-block grammar
// ---------------------------------------------------------------------------

/// A line that opens a metadata block.
pub open spec fn is_open_line(l: Seq<char>) -> bool {
    trim_spec(l) == "---"@
}

/// A line that closes a metadata block.
pub open spec fn is_term_line(l: Seq<char>) -> bool {
    trim_spec(l) == "---"@ || trim_spec(l) == "..."@
}

/// Index of the first block-closing line at or after `from`, or -1.
pub open spec fn find_term(lines: Seq<Seq<char>>, from: int) -> int
    decreases lines.len() - from,
        when 0 <= from
{
    if from >= lines.len() {
        -1
    } else if is_term_line(lines[from]) {
        from
    } else {
        find_term(lines, from + 1)
    }
}

/// A metadata line must contain a colon.
pub open spec fn line_ok(l: Seq<char>) -> bool {
    spec_find_char(l, ':') >= 0
}

pub open spec fn lines_parseable(lines: Seq<Seq<char>>, end: int) -> bool {
    forall|j: int| 1 <= j < end ==> line_ok(#[trigger] lines[j])
}

/// The key of a metadata line: the text before the first colon, trimmed.
pub open spec fn line_key(l: Seq<char>) -> Seq<char> {
    trim_spec(split_chars(l, ':')[0])
}

/// The value of a metadata line: the text between the first and second colon
/// (or the end), trimmed.
pub open spec fn line_val(l: Seq<char>) -> Seq<char> {
    trim_spec(split_chars(l, ':')[1])
}

/// The mapping of metadata lines 1 to `end` (exclusive), in order.
pub open spec fn meta_pairs(lines: Seq<Seq<char>>, end: int) -> Map<Seq<char>, Seq<char>>
    decreases end,
{
    if end <= 1 {
        Map::empty()
    } else {
        meta_pairs(lines, end - 1).insert(line_key(lines[end - 1]), line_val(lines[end - 1]))
    }
}

/// The metadata of a content file: empty unless the text starts with an
/// opening line, a closing line follows, and every line between carries a
/// colon; then the trimmed key-value pairs of the lines between, a later
/// duplicate key winning.
pub open spec fn meta_of(contents: Seq<char>) -> Map<Seq<char>, Seq<char>> {
    let lines = split_chars(contents, '\n');
    if !is_open_line(lines[0]) {
        Map::empty()
    } else {
        let t = find_term(lines, 1);
        if t < 0 {
            Map::empty()
        } else if !lines_parseable(lines, t) {
            Map::empty()
        } else {
            meta_pairs(lines, t)
        }
    }
}

/// Lines joined back with newlines.
pub open spec fn join_lines(ls: Seq<Seq<char>>) -> Seq<char>
    decreases ls.len(),
{
    if ls.len() == 0 {
        Seq::empty()
    } else if ls.len() == 1 {
        ls[0]
    } else {
        join_lines(ls.drop_last()) + seq!['\n'] + ls.last()
    }
}

/// The Markdown body of a content file: everything after the metadata
/// block's closing line, or the whole text when there is no block.
pub open spec fn entry_source(contents: Seq<char>) -> Seq<char> {
    let lines = split_chars(contents, '\n');
    if !is_open_line(lines[0]) {
        contents
    } else {
        let t = find_term(lines, 1);
        if t < 0 {
            contents
        } else {
            join_lines(lines.subrange(t + 1, lines.len() as int))
        }
    }
}

// ---------------------------------------------------------------------------
// Parsing (executable)
// ---------------------------------------------------------------------------

fn is_term_line_exec(l: &str) -> (r: bool)
    ensures
        r == is_term_line(l@),
{
    let t = trim_str(l);
    str_eq(t.as_str(), "---") || str_eq(t.as_str(), "...")
}

proof fn lemma_find_term_exact(lines: Seq<Seq<char>>, i: int)
    requires
        1 <= i <= lines.len(),
        forall|j: int| 1 <= j < i ==> !is_term_line(#[trigger] lines[j]),
        i < lines.len() ==> is_term_line(lines[i]),
    ensures
        find_term(lines, 1) == if i < lines.len() {
            i
        } else {
            -1
        },
{
    lemma_find_term_from(lines, 1, i);
}

proof fn lemma_find_term_from(lines: Seq<Seq<char>>, from: int, i: int)
    requires
        1 <= from <= i <= lines.len(),
        forall|j: int| from <= j < i ==> !is_term_line(#[trigger] lines[j]),
        i < lines.len() ==> is_term_line(lines[i]),
    ensures
        find_term(lines, from) == if i < lines.len() {
            i
        } else {
            -1
        },
    decreases i - from,
{
    if from < i {
        lemma_find_term_from(lines, from + 1, i);
    }
}

/// Finds the closing line of a metadata block: the index of the first
/// closing line at or after line 1, when the block opens at line 0.
fn find_term_exec(lines: &Vec<String>) -> (r: Option<usize>)
    ensures
        r is Some ==> r->0 == find_term(views_of(lines@), 1) && 1 <= r->0 < lines@.len(),
        r is None ==> find_term(views_of(lines@), 1) == -1,
{
    let n = lines.len();
    if n == 0 {
        return None;
    }
    let mut i: usize = 1;
    while i < n
        invariant
            1 <= i <= n,
            n == lines@.len(),
            forall|j: int| 1 <= j < i ==> !is_term_line(#[trigger] views_of(lines@)[j]),
        decreases n - i,
    {
        if is_term_line_exec(lines[i].as_str()) {
            proof {
                lemma_find_term_exact(views_of(lines@), i as int);
            }
            return Some(i);
        }
        i = i + 1;
    }
    proof {
        lemma_find_term_exact(views_of(lines@), n as int);
    }
    None
}

/// Parses a content file's text for the metadata block, returned as a
/// key-value mapping.  Absent or unparseable metadata yields an empty map.
pub fn parse_content_file_meta(contents: &str) -> (r: StrMap)
    ensures
        r@ == meta_of(contents@),
{
    let lines = split_char(contents, '\n');
    proof {
        lemma_split_chars_len(contents@, '\n');
    }
    let first_trimmed = trim_str(lines[0].as_str());
    if !(str_eq(first_trimmed.as_str(), "---")) {
        return StrMap::new();
    }
    let t = match find_term_exec(&lines) {
        None => {
            return StrMap::new();
        },
        Some(t) => t,
    };
    let mut map = StrMap::new();
    let mut j: usize = 1;
    while j < t
        invariant
            1 <= j <= t < lines@.len(),
            views_of(lines@) == split_chars(contents@, '\n'),
            is_open_line(views_of(lines@)[0]),
            find_term(views_of(lines@), 1) == t,
            forall|l: int| 1 <= l < j ==> line_ok(#[trigger] views_of(lines@)[l]),
            map@ == meta_pairs(views_of(lines@), j as int),
        decreases t - j,
    {
        let line = &lines[j];
        if find_char(line.as_str(), ':').is_none() {
            // an unparseable line invalidates the whole block
            proof {
                assert(views_of(lines@)[j as int] == lines@[j as int]@);
                assert(!line_ok(views_of(lines@)[j as int]));
                assert(!lines_parseable(views_of(lines@), t as int));
            }
            return StrMap::new();
        }
        proof {
            lemma_split_chars_two(line@, ':');
        }
        let segs = split_char(line.as_str(), ':');
        assert(views_of(segs@).len() >= 2);
        let key = trim_str(segs[0].as_str());
        let val = trim_str(segs[1].as_str());
        map.insert(key, val);
        j = j + 1;
    }
    map
}

fn join_with_newlines(lines: &Vec<String>, from: usize) -> (r: String)
    requires
        from <= lines@.len(),
    ensures
        r@ == join_lines(views_of(lines@).subrange(from as int, lines@.len() as int)),
{
    let n = lines.len();
    if from == n {
        assert(views_of(lines@).subrange(from as int, n as int) =~= Seq::<Seq<char>>::empty());
        return String::new();
    }
    let mut out = lines[from].clone();
    let mut i: usize = from + 1;
    proof {
        assert(views_of(lines@).subrange(from as int, from + 1) =~= seq![lines@[from as int]@]);
    }
    while i < n
        invariant
            from < i <= n,
            n == lines@.len(),
            out@ == join_lines(views_of(lines@).subrange(from as int, i as int)),
        decreases n - i,
    {
        let with_sep = concat2(out.as_str(), "\n");
        proof {
            reveal_strlit("\n");
        }
        let next = concat2(with_sep.as_str(), lines[i].as_str());
        proof {
            let pre = views_of(lines@).subrange(from as int, i as int);
            let cur = views_of(lines@).subrange(from as int, i + 1);
            assert(cur.drop_last() =~= pre);
            assert(cur.last() == lines@[i as int]@);
            assert("\n"@ =~= seq!['\n']);
            assert(next@ =~= join_lines(cur));
        }
        out = next;
        i = i + 1;
    }
    out
}

/// Extracts the Markdown body of a content file (metadata block stripped)
/// and converts it to HTML.
pub fn parse_content_file_entry(contents: &str) -> (r: String)
    ensures
        r@ == html_of(entry_source(contents@)),
{
    let lines = split_char(contents, '\n');
    proof {
        lemma_split_chars_len(contents@, '\n');
    }
    let first_trimmed = trim_str(lines[0].as_str());
    if !(str_eq(first_trimmed.as_str(), "---")) {
        return render_markdown(contents);
    }
    match find_term_exec(&lines) {
        None => render_markdown(contents),
        Some(t) => {
            let n = lines.len();
            assert(t < n);
            let body = join_with_newlines(&lines, t + 1);
            render_markdown(body.as_str())
        },
    }
}

// ---------------------------------------------------------------------------
// Whole-record parsing
// ---------------------------------------------------------------------------

/// The routing key of a content file: its path with the content root and the
/// `.md` / `.markdown` suffix stripped.
pub open spec fn slug_of(root: Seq<char>, path: Seq<char>) -> Seq<char> {
    let rel = spec_strip_prefix(path, root);
    if spec_ends_with(rel, ".md"@) {
        spec_strip_suffix(rel, ".md"@)
    } else {
        spec_strip_suffix(rel, ".markdown"@)
    }
}

pub fn slug_for_path(root: &str, path: &str) -> (r: String)
    ensures
        r@ == slug_of(root@, path@),
{
    let rel = strip_prefix_str(path, root);
    if str_ends_with(rel.as_str(), ".md") {
        strip_suffix_str(rel.as_str(), ".md")
    } else {
        strip_suffix_str(rel.as_str(), ".markdown")
    }
}

/// Parses one content file: metadata, rendered body, slug and reading time.
pub fn parse_content_file(root: &str, path: String, contents: &str) -> (r: ContentItem)
    ensures
        r.path == path,
        r.slug@ == slug_of(root@, path@),
        r.meta@ == meta_of(contents@),
        r.entry@ == html_of(entry_source(contents@)),
        r.time_to_read == word_count(html_of(entry_source(contents@))) / 225,
{
    let meta = parse_content_file_meta(contents);
    let entry = parse_content_file_entry(contents);
    let slug = slug_for_path(root, path.as_str());
    let words = count_words(entry.as_str());
    let time_to_read = words / 225;
    ContentItem { path, slug, meta, entry, time_to_read }
}

/// Parses a batch of content files, given for each its path and its text.
pub fn parse_content_files(root: &str, files: Vec<(String, String)>) -> (r: Vec<ContentItem>)
    ensures
        r@.len() == files@.len(),
        forall|i: int|
            0 <= i < files@.len() ==> {
                let item = #[trigger] r@[i];
                &&& item.path == files@[i].0
                &&& item.slug@ == slug_of(root@, files@[i].0@)
                &&& item.meta@ == meta_of(files@[i].1@)
                &&& item.entry@ == html_of(entry_source(files@[i].1@))
                &&& item.time_to_read == word_count(html_of(entry_source(files@[i].1@))) / 225
            },
{
    let mut out: Vec<ContentItem> = Vec::new();
    let mut files = files;
    let ghost all = files@;
    while files.len() > 0
        invariant
            out@.len() + files@.len() == all.len(),
            files@ =~= all.subrange(out@.len() as int, all.len() as int),
            forall|k: int|
                0 <= k < out@.len() ==> {
                    let item = #[trigger] out@[k];
                    &&& item.path == all[k].0
                    &&& item.slug@ == slug_of(root@, all[k].0@)
                    &&& item.meta@ == meta_of(all[k].1@)
                    &&& item.entry@ == html_of(entry_source(all[k].1@))
                    &&& item.time_to_read == word_count(html_of(entry_source(all[k].1@))) / 225
                },
        decreases files@.len(),
    {
        let ghost i = out@.len() as int;
        let (path, contents) = files.remove(0);
        assert(all[i].0 == path && all[i].1 == contents);
        let item = parse_content_file(root, path, contents.as_str());
        out.push(item);
        proof {
            assert(files@ =~= all.subrange(out@.len() as int, all.len() as int));
        }
    }
    out
}

} // verus!
