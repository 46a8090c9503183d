//! The blog of the site: the page that an address names, the posts that
//! the list of posts names, and the texts and addresses of a page.

use vstd::prelude::*;
use vstd::string::{StrSliceExecFns, StringExecFns};

verus! {

/// What `urlencoding::decode` makes of a text: the text with its percent
/// escapes undone, or nothing where the bytes that come of it are no text.
pub uninterp spec fn percent_decoded(text: Seq<char>) -> Option<Seq<char>>;

/// `urlencoding::decode`: the decoded text as `percent_decoded` names it;
/// nothing where the call fails.
#[verifier::external_body]
fn decode(text: &str) -> (decoded: Option<String>)
    ensures
        match decoded {
            Some(d) => percent_decoded(text@) == Some(d@),
            None => percent_decoded(text@) is None,
        },
{
    match urlencoding::decode(text) {
        Ok(d) => Some(d.into_owned()),
        Err(_) => None,
    }
}

/// The name of a page, from the text in the address and what decoding
/// made of it: the decoded text, or the text as it stands where there is
/// none.
pub open spec fn page_text(text: Seq<char>, decoded: Option<Seq<char>>) -> Seq<char> {
    match decoded {
        Some(d) => d,
        None => text,
    }
}

/// The text that an address gives for the page: none counts as empty.
pub open spec fn given_text(value: Option<&str>) -> Seq<char> {
    match value {
        Some(s) => s@,
        None => Seq::empty(),
    }
}

/// The view of a text that may be missing.
pub open spec fn text_view(text: Option<String>) -> Option<Seq<char>> {
    match text {
        Some(s) => Some(s@),
        None => None,
    }
}

/// The page that an address names.
#[derive(Debug, PartialEq, Eq)]
pub struct BlogParam(pub String);

/// What the address of the blog holds.
#[derive(Debug, PartialEq, Eq)]
pub struct BlogParams {
    pub page: BlogParam,
}

impl BlogParam {
    /// The page for the text in the address and what decoding made of it.
    pub fn from_decoded(text: &str, decoded: Option<String>) -> (param: BlogParam)
        ensures
            param.0@ == page_text(text@, text_view(decoded)),
    {
        match decoded {
            Some(d) => BlogParam(d),
            None => BlogParam(text.to_owned()),
        }
    }

    /// The page that the text in an address names: the text with its
    /// percent escapes undone, or as it stands where that gives no text.
    pub fn into_param(value: Option<&str>) -> (param: BlogParam)
        ensures
            param.0@ == page_text(given_text(value), percent_decoded(given_text(value))),
    {
        let text: &str = match value {
            Some(s) => s,
            None => {
                proof {
                    reveal_strlit("");
                    assert(""@ =~= Seq::<char>::empty());
                }
                ""
            },
        };
        let decoded = decode(text);
        BlogParam::from_decoded(text, decoded)
    }
}

/// What the blog shows.
#[derive(Debug, PartialEq, Eq)]
pub enum BlogView {
    /// The list of posts.
    Home,
    /// The post of this name.
    Page(String),
}

/// What the blog shows for what its address holds: the post that is
/// named, and the list of posts where the address holds nothing or names
/// no post.
pub fn blog_view(params: Option<BlogParams>) -> (view: BlogView)
    ensures
        match params {
            Some(p) => if p.page.0@.len() == 0 {
                view == BlogView::Home
            } else {
                view == BlogView::Page(p.page.0)
            },
            None => view == BlogView::Home,
        },
{
    match params {
        Some(p) => {
            if p.page.0.as_str().is_empty() {
                BlogView::Home
            } else {
                BlogView::Page(p.page.0)
            }
        },
        None => BlogView::Home,
    }
}

/// The first place from `from` on where `pat` stands in `s`, if any.
pub open spec fn found(s: Seq<char>, pat: Seq<char>, from: int) -> Option<int>
    decreases s.len() + 1 - from,
{
    if from < 0 || from + pat.len() > s.len() {
        None
    } else if s.subrange(from, from + pat.len()) == pat {
        Some(from)
    } else {
        found(s, pat, from + 1)
    }
}

/// A text cut in two at the first place where `pat` stands: what is
/// before it and what is after it; two empty texts where it stands
/// nowhere.
pub open spec fn cut(s: Seq<char>, pat: Seq<char>) -> (Seq<char>, Seq<char>) {
    match found(s, pat, 0) {
        Some(i) => (s.take(i), s.skip(i + pat.len())),
        None => (Seq::empty(), Seq::empty()),
    }
}

/// The place of the first line break from `from` on, or the length of the
/// text where there is none.
pub open spec fn line_end(text: Seq<char>, from: int) -> int
    decreases text.len() - from,
{
    if from < 0 || from >= text.len() {
        text.len() as int
    } else if text[from] == '\n' {
        from
    } else {
        line_end(text, from + 1)
    }
}

/// A line ends at or after the place where it begins, and within the
/// text.
pub proof fn lemma_line_end_bounds(text: Seq<char>, from: int)
    requires
        0 <= from <= text.len(),
    ensures
        from <= line_end(text, from) <= text.len(),
    decreases text.len() - from,
{
    if from < text.len() && text[from] != '\n' {
        lemma_line_end_bounds(text, from + 1);
    }
}

/// A line without the carriage return before its line break.
pub open spec fn trimmed(line: Seq<char>, broken: bool) -> Seq<char> {
    if broken && line.len() > 0 && line.last() == '\r' {
        line.drop_last()
    } else {
        line
    }
}

/// The lines of a text from the place `from` on: each ends before a line
/// break, the last one at the end of the text; a carriage return before a
/// line break belongs to the break.
pub open spec fn lines_from(text: Seq<char>, from: int) -> Seq<Seq<char>>
    decreases text.len() + 1 - from,
{
    if from < 0 || from >= text.len() {
        Seq::empty()
    } else {
        let end = line_end(text, from);
        proof {
            lemma_line_end_bounds(text, from);
        }
        seq![trimmed(text.subrange(from, end), end < text.len())] + lines_from(text, end + 1)
    }
}

/// A post as the list of posts names it.
#[derive(Debug, PartialEq, Eq)]
pub struct Post {
    /// The path of the post under the blog.
    pub path: String,
    /// The day of the post.
    pub date: String,
    /// The title of the post.
    pub name: String,
}

/// The mathematical value of a post.
pub struct PostView {
    pub path: Seq<char>,
    pub date: Seq<char>,
    pub name: Seq<char>,
}

impl View for Post {
    type V = PostView;

    open spec fn view(&self) -> PostView {
        PostView { path: self.path@, date: self.date@, name: self.name@ }
    }
}

/// Whether a line of the list names a post: it is not empty and no
/// comment.
pub open spec fn names_post(line: Seq<char>) -> bool {
    line.len() > 0 && line[0] != '#'
}

/// The post that a line names: the path stands before the first colon
/// and blank, and ends at its first opening bracket; the day and the
/// title stand after it, with blank, hyphen, blank between them.
pub open spec fn post_of(line: Seq<char>) -> PostView {
    let (front, back) = cut(line, ": "@);
    let (path, id) = cut(front, "("@);
    let (date, name) = cut(back, " - "@);
    PostView { path, date, name }
}

/// The posts that lines name, in their order.
pub open spec fn posts_of(lines: Seq<Seq<char>>) -> Seq<PostView>
    decreases lines.len(),
{
    if lines.len() == 0 {
        Seq::empty()
    } else if names_post(lines.last()) {
        posts_of(lines.drop_last()).push(post_of(lines.last()))
    } else {
        posts_of(lines.drop_last())
    }
}

/// The views of posts.
pub open spec fn post_views(posts: Seq<Post>) -> Seq<PostView> {
    posts.map_values(|p: Post| p@)
}

/// Whether `pat` stands in `s` at the place `at`.
fn stands_at(s: &str, pat: &str, at: usize) -> (yes: bool)
    requires
        at + pat@.len() <= s@.len(),
    ensures
        yes == (s@.subrange(at as int, at + pat@.len()) == pat@),
{
    let n: usize = s.unicode_len();
    let m: usize = pat.unicode_len();
    let mut j: usize = 0;
    while j < m
        invariant
            j <= m,
            m == pat@.len(),
            n == s@.len(),
            at + m <= n,
            forall|q: int| 0 <= q < j ==> s@[at + q] == pat@[q],
        decreases m - j,
    {
        if s.get_char(at + j) != pat.get_char(j) {
            assert(s@.subrange(at as int, at + pat@.len())[j as int] != pat@[j as int]);
            return false;
        }
        j += 1;
    }
    assert(s@.subrange(at as int, at + pat@.len()) =~= pat@);
    true
}

/// The first place where `pat` stands in `s`, if any.
pub fn find(s: &str, pat: &str) -> (at: Option<usize>)
    ensures
        match at {
            Some(i) => found(s@, pat@, 0) == Some(i as int) && i + pat@.len() <= s@.len(),
            None => found(s@, pat@, 0) is None,
        },
{
    let n: usize = s.unicode_len();
    let m: usize = pat.unicode_len();
    if m > n {
        return None;
    }
    let last: usize = n - m;
    let mut i: usize = 0;
    loop
        invariant
            i <= last,
            last == n - m,
            m <= n,
            n == s@.len(),
            m == pat@.len(),
            found(s@, pat@, 0) == found(s@, pat@, i as int),
        decreases last - i,
    {
        if stands_at(s, pat, i) {
            return Some(i);
        }
        if i == last {
            assert(found(s@, pat@, i + 1) is None);
            return None;
        }
        i += 1;
    }
}

/// Cuts a text in two at the first place where `pat` stands, as `cut`
/// says.
pub fn split_once<'a>(s: &'a str, pat: &str) -> (parts: (&'a str, &'a str))
    ensures
        (parts.0@, parts.1@) == cut(s@, pat@),
{
    match find(s, pat) {
        Some(i) => {
            let n: usize = s.unicode_len();
            let m: usize = pat.unicode_len();
            let before = s.substring_char(0, i);
            let after = s.substring_char(i + m, n);
            assert(before@ =~= s@.take(i as int));
            assert(after@ =~= s@.skip(i + m));
            (before, after)
        },
        None => {
            proof {
                reveal_strlit("");
                assert(""@ =~= Seq::<char>::empty());
            }
            let before = s.substring_char(0, 0);
            assert(before@ =~= Seq::<char>::empty());
            (before, before)
        },
    }
}

/// The post that a line of the list names.
pub fn post(line: &str) -> (p: Post)
    ensures
        p@ == post_of(line@),
{
    let (front, back) = split_once(line, ": ");
    let (path, _id) = split_once(front, "(");
    let (date, name) = split_once(back, " - ");
    Post { path: path.to_owned(), date: date.to_owned(), name: name.to_owned() }
}

/// The posts that the list of posts names: one for each line that is not
/// empty and no comment, in the order of the lines.
pub fn posts(list: &str) -> (all: Vec<Post>)
    ensures
        post_views(all@) == posts_of(lines_from(list@, 0)),
{
    let n: usize = list.unicode_len();
    let mut all: Vec<Post> = Vec::new();
    let mut from: usize = 0;
    let ghost mut seen: Seq<Seq<char>> = Seq::empty();
    assert(post_views(all@) =~= posts_of(seen));
    assert(seen + lines_from(list@, 0) =~= lines_from(list@, 0));
    while from < n
        invariant
            from <= n,
            n == list@.len(),
            lines_from(list@, 0) == seen + lines_from(list@, from as int),
            post_views(all@) == posts_of(seen),
        decreases n - from,
    {
        let mut end: usize = from;
        while end < n && list.get_char(end) != '\n'
            invariant
                from <= end <= n,
                n == list@.len(),
                line_end(list@, from as int) == line_end(list@, end as int),
            decreases n - end,
        {
            end += 1;
        }
        let broken: bool = end < n;
        let mut stop: usize = end;
        if broken && end > from && list.get_char(end - 1) == '\r' {
            stop = end - 1;
        }
        let line = list.substring_char(from, stop);
        proof {
            let whole = list@.subrange(from as int, end as int);
            assert(line@ =~= trimmed(whole, broken));
            let ghost grown = seen.push(line@);
            assert(seen + lines_from(list@, from as int) =~= grown + lines_from(list@, end + 1));
            assert(grown.drop_last() =~= seen);
            assert(grown.last() == line@);
            seen = grown;
        }
        if !line.is_empty() && line.get_char(0) != '#' {
            let ghost before = post_views(all@);
            let p = post(line);
            all.push(p);
            assert(post_views(all@) =~= before.push(p@));
        }
        if end == n {
            assert(lines_from(list@, end + 1) =~= Seq::<Seq<char>>::empty());
            assert(seen + Seq::<Seq<char>>::empty() =~= seen);
            return all;
        }
        from = end + 1;
    }
    assert(lines_from(list@, from as int) =~= Seq::<Seq<char>>::empty());
    assert(seen + Seq::<Seq<char>>::empty() =~= seen);
    all
}

/// The texts and addresses of the page of a post.
#[derive(Debug, PartialEq, Eq)]
pub struct PageLinks {
    /// The title of the page.
    pub title: String,
    /// Where the post stands as a plain page.
    pub html: String,
    /// Where the text of the post stands in the repository.
    pub markdown: String,
    /// Where the page takes the text of the post from.
    pub source: String,
}

/// The address of a post under the blog, by its path.
pub fn post_address(path: &str) -> (address: String)
    ensures
        address@ == "/blog/"@ + path@,
{
    let mut address = String::from_str("/blog/");
    address.append(path);
    address
}

/// The texts and addresses of the page of the post of a name.
pub fn page_links(name: &str) -> (links: PageLinks)
    ensures
        links.title@ == name@ + " - Uiua Blog"@,
        links.html@ == "https://uiua.org/blog/"@ + name@ + "-html.html"@,
        links.markdown@ == "https://github.com/uiua-lang/uiua/blob/main/site/blog/"@ + name@
            + "-text.md"@,
        links.source@ == "/blog/"@ + name@ + "-text.md"@,
{
    let mut title = String::from_str(name);
    title.append(" - Uiua Blog");
    let mut html = String::from_str("https://uiua.org/blog/");
    html.append(name);
    html.append("-html.html");
    let mut markdown = String::from_str("https://github.com/uiua-lang/uiua/blob/main/site/blog/");
    markdown.append(name);
    markdown.append("-text.md");
    let mut source = String::from_str("/blog/");
    source.append(name);
    source.append("-text.md");
    PageLinks { title, html, markdown, source }
}

} // verus!
