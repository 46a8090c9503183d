use uiua::blog::{
    blog_view, find, page_links, post, post_address, posts, split_once, BlogParam, BlogParams,
    BlogView, Post,
};

fn entry(path: &str, date: &str, name: &str) -> Post {
    Post { path: path.to_string(), date: date.to_string(), name: name.to_string() }
}

#[test]
fn percent_escapes_in_an_address_are_undone() {
    assert_eq!(BlogParam::into_param(Some("uiua-0.10.0")).0, "uiua-0.10.0");
    assert_eq!(BlogParam::into_param(Some("second%20system")).0, "second system");
    assert_eq!(BlogParam::into_param(Some("caf%C3%A9")).0, "café");
    assert_eq!(BlogParam::into_param(Some("a+b")).0, "a+b");
    assert_eq!(BlogParam::into_param(Some("100%")).0, "100%");
}

#[test]
fn an_address_that_decodes_to_no_text_stands_as_it_is() {
    assert_eq!(BlogParam::into_param(Some("%ff%fe")).0, "%ff%fe");
    assert_eq!(BlogParam::into_param(None).0, "");
    assert_eq!(BlogParam::from_decoded("x%20y", None).0, "x%20y");
    assert_eq!(BlogParam::from_decoded("x%20y", Some("x y".to_string())).0, "x y");
}

#[test]
fn the_blog_shows_the_post_that_is_named() {
    assert_eq!(blog_view(None), BlogView::Home);
    let empty = BlogParams { page: BlogParam(String::new()) };
    assert_eq!(blog_view(Some(empty)), BlogView::Home);
    let named = BlogParams { page: BlogParam::into_param(Some("what-will-1-look-like")) };
    assert_eq!(blog_view(Some(named)), BlogView::Page("what-will-1-look-like".to_string()));
}

#[test]
fn texts_are_found_and_cut() {
    assert_eq!(find("a: b: c", ": "), Some(1));
    assert_eq!(find("abc", "c"), Some(2));
    assert_eq!(find("abc", "abcd"), None);
    assert_eq!(find("abc", ""), Some(0));
    assert_eq!(find("", ""), Some(0));
    assert_eq!(find("aab", "ab"), Some(1));
    assert_eq!(find("é - x", " - "), Some(1));
    assert_eq!(split_once("a: b: c", ": "), ("a", "b: c"));
    assert_eq!(split_once("abc", ": "), ("", ""));
    assert_eq!(split_once("é - x", " - "), ("é", "x"));
    assert_eq!(split_once(": ", ": "), ("", ""));
}

#[test]
fn a_line_names_a_post() {
    assert_eq!(
        post("uiua-0.11.0(8a3b): 2024-04-21 - Announcing Uiua 0.11.0"),
        entry("uiua-0.11.0", "2024-04-21", "Announcing Uiua 0.11.0")
    );
    assert_eq!(post("no-id: 2024-01-01 - Title"), entry("", "2024-01-01", "Title"));
    assert_eq!(post("path(1): only a title"), entry("path", "", ""));
    assert_eq!(post("nothing"), entry("", "", ""));
    assert_eq!(post("a(b(c): d - e - f"), entry("a", "d", "e - f"));
}

#[test]
fn the_list_names_the_posts_line_by_line() {
    let list = "# Posts\n\nfirst(1): 2023-12-15 - One\r\nsecond(2): 2024-01-19 - Two\n#third(3): x - y\nfourth(4): 2024-04-04 - Four";
    assert_eq!(
        posts(list),
        vec![
            entry("first", "2023-12-15", "One"),
            entry("second", "2024-01-19", "Two"),
            entry("fourth", "2024-04-04", "Four"),
        ]
    );
    assert_eq!(posts(""), vec![]);
    assert_eq!(posts("\n\n"), vec![]);
    assert_eq!(posts("a(1): b - c\n"), vec![entry("a", "b", "c")]);
    assert_eq!(posts("a(1): b - c\r"), vec![entry("a", "b", "c\r")]);
    let lines: Vec<Post> =
        list.lines().filter(|l| !l.is_empty() && !l.starts_with('#')).map(post).collect();
    assert_eq!(posts(list), lines);
}

#[test]
fn a_page_has_its_texts_and_addresses() {
    let links = page_links("uiua-0.10.0");
    assert_eq!(links.title, "uiua-0.10.0 - Uiua Blog");
    assert_eq!(links.html, "https://uiua.org/blog/uiua-0.10.0-html.html");
    assert_eq!(
        links.markdown,
        "https://github.com/uiua-lang/uiua/blob/main/site/blog/uiua-0.10.0-text.md"
    );
    assert_eq!(links.source, "/blog/uiua-0.10.0-text.md");
    assert_eq!(post_address("uiua-0.10.0"), "/blog/uiua-0.10.0");
}
