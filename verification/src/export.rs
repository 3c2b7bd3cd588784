//! Where checkpoints and corpora are fetched from, and how a corpus is put together
//! from the pages that a dataset server hands out.

use crate::text::{decimal, join3, push_decimal};
use vstd::prelude::*;
use vstd::string::StringExecFns;

verus! {

/// Rows asked for in one request.
pub const PAGE_ROWS: usize = 100;

/// A path below a directory: a relative name is put behind the directory and a
/// separator, an absolute one stands for itself.
pub open spec fn joined(dir: Seq<char>, name: Seq<char>) -> Seq<char> {
    if name.len() > 0 && name[0] == '/' {
        name
    } else if dir.len() == 0 || dir.last() == '/' {
        dir + name
    } else {
        dir.push('/') + name
    }
}

/// Puts a name behind a directory.
pub fn path_join(dir: &str, name: &str) -> (r: String)
    ensures
        r@ == joined(dir@, name@),
{
    let d: usize = dir.unicode_len();
    if name.unicode_len() > 0 && name.get_char(0) == '/' {
        return name.to_owned();
    }
    if d == 0 || dir.get_char(d - 1) == '/' {
        return dir.to_owned().concat(name);
    }
    let mut r: String = dir.to_owned();
    r.push('/');
    r.concat(name)
}

/// One file to fetch: where from, and what it is stored as.
#[derive(Debug)]
pub struct Fetch {
    pub url: String,
    pub dst: String,
}

/// The contents of a [`Fetch`].
pub struct FetchView {
    pub url: Seq<char>,
    pub dst: Seq<char>,
}

impl View for Fetch {
    type V = FetchView;

    open spec fn view(&self) -> FetchView {
        FetchView { url: self.url@, dst: self.dst@ }
    }
}

/// The contents of a list of fetches.
pub open spec fn fetch_views(v: Seq<Fetch>) -> Seq<FetchView> {
    Seq::new(v.len(), |i: int| v[i]@)
}

/// A file of a repository, stored under its own name in a directory.
pub open spec fn fetch_of(base: Seq<char>, dir: Seq<char>, file: Seq<char>) -> FetchView {
    FetchView { url: base.push('/') + file, dst: joined(dir, file) }
}

/// The repository of GPT-2.
pub open spec fn gpt2_base() -> Seq<char> {
    "https://huggingface.co/openai-community/gpt2/resolve/main"@
}

/// The repository of Qwen2.5-0.5B.
pub open spec fn qwen_base() -> Seq<char> {
    "https://huggingface.co/Qwen/Qwen2.5-0.5B/resolve/main"@
}

/// The repository of TinyLlama-1.1B.
pub open spec fn tinyllama_base() -> Seq<char> {
    "https://huggingface.co/TinyLlama/TinyLlama-1.1B-intermediate-step-1431k-3T/resolve/main"@
}

/// The weights, the vocabulary and the merge rules.
pub open spec fn bpe_files(base: Seq<char>, dir: Seq<char>) -> Seq<FetchView> {
    seq![
        fetch_of(base, dir, "model.safetensors"@),
        fetch_of(base, dir, "vocab.json"@),
        fetch_of(base, dir, "merges.txt"@),
    ]
}

/// The weights and a tokenizer that holds vocabulary and rules together.
pub open spec fn sentencepiece_files(base: Seq<char>, dir: Seq<char>) -> Seq<FetchView> {
    seq![fetch_of(base, dir, "model.safetensors"@), fetch_of(base, dir, "tokenizer.json"@)]
}

fn fetch_file(base: &str, dir: &str, file: &str) -> (f: Fetch)
    ensures
        f@ == fetch_of(base@, dir@, file@),
{
    let mut url: String = base.to_owned();
    url.push('/');
    Fetch { url: url.concat(file), dst: path_join(dir, file) }
}

fn fetch_bpe(base: &str, dir: &str) -> (v: Vec<Fetch>)
    ensures
        fetch_views(v@) == bpe_files(base@, dir@),
{
    let mut v: Vec<Fetch> = Vec::new();
    v.push(fetch_file(base, dir, "model.safetensors"));
    v.push(fetch_file(base, dir, "vocab.json"));
    v.push(fetch_file(base, dir, "merges.txt"));
    assert(fetch_views(v@) =~= bpe_files(base@, dir@));
    v
}

/// What has to lie in a directory for GPT-2, and where it comes from.
pub fn download(dir: &str) -> (v: Vec<Fetch>)
    ensures
        fetch_views(v@) == bpe_files(gpt2_base(), dir@),
{
    fetch_bpe("https://huggingface.co/openai-community/gpt2/resolve/main", dir)
}

/// What has to lie in a directory for Qwen2.5-0.5B, and where it comes from.
pub fn download_qwen(dir: &str) -> (v: Vec<Fetch>)
    ensures
        fetch_views(v@) == bpe_files(qwen_base(), dir@),
{
    fetch_bpe("https://huggingface.co/Qwen/Qwen2.5-0.5B/resolve/main", dir)
}

/// What has to lie in a directory for TinyLlama-1.1B, and where it comes from.
pub fn download_tinyllama(dir: &str) -> (v: Vec<Fetch>)
    ensures
        fetch_views(v@) == sentencepiece_files(tinyllama_base(), dir@),
{
    let base: &str = "https://huggingface.co/TinyLlama/TinyLlama-1.1B-intermediate-step-1431k-3T/resolve/main";
    let mut v: Vec<Fetch> = Vec::new();
    v.push(fetch_file(base, dir, "model.safetensors"));
    v.push(fetch_file(base, dir, "tokenizer.json"));
    assert(fetch_views(v@) =~= sentencepiece_files(tinyllama_base(), dir@));
    v
}

/// One page of rows as the server sent it. A list that is missing, a row without a
/// text and a missing total are `None`.
#[derive(Debug)]
pub struct Page {
    pub rows: Option<Vec<Option<String>>>,
    pub total: Option<u64>,
}

/// The contents of a [`Page`].
#[verifier::ext_equal]
pub struct PageView {
    pub rows: Option<Seq<Option<Seq<char>>>>,
    pub total: Option<u64>,
}

/// The contents of a list of optional texts.
pub open spec fn row_views(v: Seq<Option<String>>) -> Seq<Option<Seq<char>>> {
    Seq::new(
        v.len(),
        |i: int|
            match v[i] {
                Some(s) => Some(s@),
                None => None,
            },
    )
}

impl View for Page {
    type V = PageView;

    open spec fn view(&self) -> PageView {
        PageView {
            rows: match self.rows {
                Some(v) => Some(row_views(v@)),
                None => None,
            },
            total: self.total,
        }
    }
}

/// What `serde_json` finds in a document: under `rows` the list of the texts that stand
/// under `row` and then `text` of each item, and under `total` a number. `None` where the
/// bytes are no document.
pub uninterp spec fn json_page(
    bytes: Seq<u8>,
    rows: Seq<char>,
    row: Seq<char>,
    text: Seq<char>,
    total: Seq<char>,
) -> Option<PageView>;

/// Calls `serde_json::from_slice` and looks up the members named by the other arguments.
/// The claim is that the outcome depends on the bytes and the names alone; how a document
/// is read is not stated.
#[verifier::external_body]
fn parse_page(bytes: &[u8], rows: &str, row: &str, text: &str, total: &str) -> (r: Result<
    Page,
    serde_json::Error,
>)
    ensures
        match r {
            Ok(p) => json_page(bytes@, rows@, row@, text@, total@) == Some(p@),
            Err(e) => json_page(bytes@, rows@, row@, text@, total@) is None,
        },
{
    let v: serde_json::Value = serde_json::from_slice(bytes)?;
    let list = v[rows].as_array();
    Ok(Page {
        rows: list.map(|a| a.iter().map(|x| x[row][text].as_str().map(str::to_owned)).collect()),
        total: v[total].as_u64(),
    })
}

/// Why a page is refused.
#[derive(Debug, Clone, Copy, PartialEq, Eq, Structural)]
pub enum PageError {
    /// The bytes are no document.
    NotJson,
    /// There is no list of rows.
    NoRows,
    /// The row of this number has no text.
    RowNotText(usize),
    /// The number of rows of the whole split is missing.
    NoTotal,
    /// The rows together are more than can be counted.
    TooManyRows,
}

/// A text as a line: a newline is put behind it unless it ends with one.
pub open spec fn line(text: Seq<char>) -> Seq<char> {
    if text.len() > 0 && text.last() == '\n' {
        text
    } else {
        text.push('\n')
    }
}

/// Every row has a text.
pub open spec fn all_text(rows: Seq<Option<Seq<char>>>) -> bool {
    forall|i: int| 0 <= i < rows.len() ==> (#[trigger] rows[i]) is Some
}

/// The first row without a text.
pub open spec fn first_gap(rows: Seq<Option<Seq<char>>>, i: int) -> bool {
    0 <= i < rows.len() && rows[i] is None && all_text(rows.take(i))
}

/// The rows as lines, one behind the other.
pub open spec fn lines_of(rows: Seq<Option<Seq<char>>>) -> Seq<char>
    decreases rows.len(),
{
    if rows.len() == 0 {
        seq![]
    } else {
        lines_of(rows.drop_last()) + line(rows.last().unwrap())
    }
}

/// A corpus that is being fetched page by page.
#[derive(Debug)]
pub struct Corpus {
    /// The split of the dataset.
    pub split: String,
    /// The directory that the pages and the corpus are stored in.
    pub out_dir: String,
    /// The file that the corpus is stored as.
    pub out_file: String,
    /// The text so far.
    pub text: String,
    /// The rows taken so far: where the next page starts.
    pub offset: usize,
}

/// The contents of a [`Corpus`].
#[verifier::ext_equal]
pub struct CorpusView {
    pub split: Seq<char>,
    pub out_dir: Seq<char>,
    pub out_file: Seq<char>,
    pub text: Seq<char>,
    pub offset: int,
}

impl View for Corpus {
    type V = CorpusView;

    open spec fn view(&self) -> CorpusView {
        CorpusView {
            split: self.split@,
            out_dir: self.out_dir@,
            out_file: self.out_file@,
            text: self.text@,
            offset: self.offset as int,
        }
    }
}

/// A corpus of which nothing has been fetched.
pub open spec fn fresh(dir: Seq<char>, split: Seq<char>, file: Seq<char>) -> CorpusView {
    let out_dir = joined(dir, "wikitext-2-raw"@);
    CorpusView { split, out_dir, out_file: joined(out_dir, file), text: seq![], offset: 0 }
}

/// The corpus with the rows of a page taken.
pub open spec fn with_rows(c: CorpusView, rows: Seq<Option<Seq<char>>>) -> CorpusView {
    CorpusView { text: c.text + lines_of(rows), offset: c.offset + rows.len(), ..c }
}

/// The request for the page that starts at a row.
pub open spec fn page_request(split: Seq<char>, offset: int) -> Seq<char> {
    "https://datasets-server.huggingface.co/rows?dataset=Salesforce/wikitext&config=wikitext-2-raw-v1&split="@
        + split + "&offset="@ + decimal(offset) + "&length="@ + decimal(PAGE_ROWS as int)
}

/// The file that the page which starts at a row is stored in for the moment.
pub open spec fn page_name(split: Seq<char>, offset: int) -> Seq<char> {
    "page-"@ + split + "-"@ + decimal(offset) + ".json"@
}

/// What taking a page leads to: the corpus after it and whether it is complete.
pub open spec fn page_outcome(c: CorpusView, p: PageView) -> Result<(CorpusView, bool), PageError> {
    match p.rows {
        None => Err(PageError::NoRows),
        Some(rows) => if rows.len() == 0 {
            Ok((c, true))
        } else if !all_text(rows) {
            Err(PageError::RowNotText(choose|i: usize| first_gap(rows, i as int)))
        } else {
            match p.total {
                None => Err(PageError::NoTotal),
                Some(total) => if c.offset + rows.len() > usize::MAX {
                    Err(PageError::TooManyRows)
                } else {
                    Ok((with_rows(c, rows), c.offset + rows.len() >= total as usize))
                },
            }
        },
    }
}

proof fn lemma_first_gap_unique(rows: Seq<Option<Seq<char>>>, i: usize, j: usize)
    requires
        first_gap(rows, i as int),
        first_gap(rows, j as int),
    ensures
        i == j,
{
    if i < j {
        assert(rows.take(j as int)[i as int] is Some);
    }
    if j < i {
        assert(rows.take(i as int)[j as int] is Some);
    }
}

/// The perplexity corpus: the `test` split of WikiText-2.
pub fn download_wikitext2(dir: &str) -> (c: Corpus)
    ensures
        c@ == fresh(dir@, "test"@, "wiki.test.raw"@),
{
    start(dir, "test", "wiki.test.raw")
}

/// The calibration corpus: the `validation` split of WikiText-2, apart from the rows
/// that perplexity is measured on.
pub fn download_wikitext2_calib(dir: &str) -> (c: Corpus)
    ensures
        c@ == fresh(dir@, "validation"@, "wiki.calib.raw"@),
{
    start(dir, "validation", "wiki.calib.raw")
}

fn start(dir: &str, split: &str, file: &str) -> (c: Corpus)
    ensures
        c@ == fresh(dir@, split@, file@),
{
    let out_dir: String = path_join(dir, "wikitext-2-raw");
    let out_file: String = path_join(out_dir.as_str(), file);
    let c = Corpus { split: split.to_owned(), out_dir, out_file, text: String::new(), offset: 0 };
    assert(c@ =~= fresh(dir@, split@, file@));
    c
}

impl Corpus {
    /// The address of the next page.
    pub fn page_url(&self) -> (url: String)
        ensures
            url@ == page_request(self@.split, self@.offset),
    {
        let mut url: String = join3(
            "https://datasets-server.huggingface.co/rows?dataset=Salesforce/wikitext&config=wikitext-2-raw-v1&split=",
            self.split.as_str(),
            "&offset=",
        );
        push_decimal(&mut url, self.offset);
        let mut url: String = url.concat("&length=");
        push_decimal(&mut url, PAGE_ROWS);
        url
    }

    /// Where the next page is stored until it has been taken.
    pub fn page_path(&self) -> (path: String)
        ensures
            path@ == joined(self@.out_dir, page_name(self@.split, self@.offset)),
    {
        let mut name: String = join3("page-", self.split.as_str(), "-");
        push_decimal(&mut name, self.offset);
        let name: String = name.concat(".json");
        path_join(self.out_dir.as_str(), name.as_str())
    }

    /// Takes a page: true where the corpus is complete. A refused page leaves the corpus
    /// as it was.
    pub fn take_page(&mut self, page: &Page) -> (r: Result<bool, PageError>)
        ensures
            match page_outcome(old(self)@, page@) {
                Ok((c, done)) => r == Ok::<bool, PageError>(done) && final(self)@ == c,
                Err(e) => r == Err::<bool, PageError>(e) && final(self)@ == old(self)@,
            },
    {
        let rows: &Vec<Option<String>> = match &page.rows {
            None => {
                return Err(PageError::NoRows);
            },
            Some(rows) => rows,
        };
        let ghost views = row_views(rows@);
        if rows.len() == 0 {
            return Ok(true);
        }
        let mut text: String = String::new();
        let mut i: usize = 0;
        while i < rows.len()
            invariant
                i <= rows.len(),
                views == row_views(rows@),
                page@.rows == Some(views),
                self@ == old(self)@,
                all_text(views.take(i as int)),
                text@ == lines_of(views.take(i as int)),
            decreases rows.len() - i,
        {
            match &rows[i] {
                None => {
                    proof {
                        assert(first_gap(views, i as int));
                        assert(!all_text(views));
                        lemma_first_gap_unique(
                            views,
                            i,
                            choose|j: usize| first_gap(views, j as int),
                        );
                    }
                    return Err(PageError::RowNotText(i));
                },
                Some(s) => {
                    let n: usize = s.as_str().unicode_len();
                    let ends: bool = n > 0 && s.as_str().get_char(n - 1) == '\n';
                    let ghost before = text@;
                    text = text.concat(s.as_str());
                    if !ends {
                        text.push('\n');
                    }
                    proof {
                        let t = views.take(i + 1);
                        assert(views[i as int] == Some(s@));
                        assert(t.drop_last() =~= views.take(i as int));
                        assert(text@ =~= before + line(s@));
                        assert forall|j: int| 0 <= j < t.len() implies (#[trigger] t[j]) is Some by {
                            if j < i {
                                assert(t[j] == views.take(i as int)[j]);
                            }
                        }
                    }
                },
            }
            i = i + 1;
        }
        proof {
            assert(views.take(i as int) =~= views);
        }
        match page.total {
            None => Err(PageError::NoTotal),
            Some(total) => match self.offset.checked_add(rows.len()) {
                None => Err(PageError::TooManyRows),
                Some(next) => {
                    self.text = self.text.as_str().to_owned().concat(text.as_str());
                    self.offset = next;
                    Ok(next >= total as usize)
                },
            },
        }
    }

    /// Reads the bytes of a page and takes it.
    pub fn read_page(&mut self, bytes: &[u8]) -> (r: Result<bool, PageError>)
        ensures
            match json_page(bytes@, "rows"@, "row"@, "text"@, "num_rows_total"@) {
                None => {
                    &&& r == Err::<bool, PageError>(PageError::NotJson)
                    &&& final(self)@ == old(self)@
                },
                Some(p) => match page_outcome(old(self)@, p) {
                    Ok((c, done)) => r == Ok::<bool, PageError>(done) && final(self)@ == c,
                    Err(e) => r == Err::<bool, PageError>(e) && final(self)@ == old(self)@,
                },
            },
    {
        match parse_page(bytes, "rows", "row", "text", "num_rows_total") {
            Err(_) => Err(PageError::NotJson),
            Ok(page) => self.take_page(&page),
        }
    }
}

proof fn lemma_lines_add(a: Seq<Option<Seq<char>>>, b: Seq<Option<Seq<char>>>)
    ensures
        lines_of(a + b) == lines_of(a) + lines_of(b),
    decreases b.len(),
{
    if b.len() == 0 {
        assert(a + b =~= a);
        assert(lines_of(a) + lines_of(b) =~= lines_of(a));
    } else {
        assert((a + b).drop_last() =~= a + b.drop_last());
        lemma_lines_add(a, b.drop_last());
        assert(lines_of(a + b) =~= lines_of(a) + lines_of(b));
    }
}

/// How the rows are cut into pages makes no difference: two pages leave the corpus that
/// one page with the rows of both would.
pub proof fn paging_is_invisible(
    c: CorpusView,
    a: Seq<Option<Seq<char>>>,
    b: Seq<Option<Seq<char>>>,
)
    ensures
        with_rows(with_rows(c, a), b) == with_rows(c, a + b),
{
    lemma_lines_add(a, b);
    assert(c.text + lines_of(a) + lines_of(b) =~= c.text + (lines_of(a) + lines_of(b)));
}

/// The corpus ends with a newline wherever it holds a row.
pub proof fn corpus_lines_are_closed(rows: Seq<Option<Seq<char>>>)
    ensures
        rows.len() > 0 ==> lines_of(rows).len() > 0 && lines_of(rows).last() == '\n',
{
}

/// A page that is taken adds its rows behind those before it, and the corpus is complete once
/// as many rows are in as there are, or a page holds none. A page without rows, with a row that
/// is no text or without a total is refused.
pub proof fn pages_are_taken_until_the_total(c: CorpusView, p: PageView)
    requires
        p.rows is Some ==> c.offset + p.rows.unwrap().len() <= usize::MAX,
        p.total is Some ==> p.total.unwrap() <= usize::MAX,
    ensures
        ({
            let r = page_outcome(c, p);
            match p.rows {
                None => r is Err,
                Some(rows) => if rows.len() == 0 {
                    r == Ok::<(CorpusView, bool), PageError>((c, true))
                } else {
                    &&& r is Ok <==> p.total is Some && forall|i: int|
                        0 <= i < rows.len() ==> (#[trigger] rows[i]) is Some
                    &&& r is Ok ==> {
                        let (d, complete) = r->Ok_0;
                        &&& d.offset == c.offset + rows.len()
                        &&& c.text.is_prefix_of(d.text)
                        &&& complete <==> d.offset >= p.total.unwrap()
                        &&& d.split == c.split && d.out_dir == c.out_dir && d.out_file == c.out_file
                    }
                },
            }
        }),
{
}

/// A row is a line of its own: its text, and a newline behind it where it has none.
pub proof fn rows_are_lines(rows: Seq<Option<Seq<char>>>)
    requires
        rows.len() > 0,
        rows.last() is Some,
    ensures
        ({
            let (all, before, t) = (lines_of(rows), lines_of(rows.drop_last()), rows.last().unwrap());
            let close = if t.len() > 0 && t.last() == '\n' {
                0int
            } else {
                1
            };
            &&& all.len() == before.len() + t.len() + close
            &&& before.is_prefix_of(all)
            &&& forall|i: int| 0 <= i < t.len() ==> all[before.len() + i] == #[trigger] t[i]
            &&& all.last() == '\n'
        }),
{
}

} // verus!
