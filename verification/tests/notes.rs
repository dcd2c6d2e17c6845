use mnesphere::note::{
    count_words, derive_title, extract_links, extract_tags, fm_items, fm_str, sanitize_title,
    split_frontmatter,
};

fn strs(v: &[&str]) -> Vec<String> {
    v.iter().map(|x| x.to_string()).collect()
}

#[test]
fn titles_lose_unsafe_characters() {
    assert_eq!(sanitize_title("  a<b>:c\"d/e\\f|g?h*i  "), "abcdefghi");
    assert_eq!(sanitize_title("报告..."), "报告");
    assert_eq!(sanitize_title(" x \n"), "x");
    assert_eq!(sanitize_title("..."), "");
    assert_eq!(sanitize_title(&"字".repeat(130)).chars().count(), 120);
}

#[test]
fn words_count_cjk_by_character() {
    assert_eq!(count_words("hello world"), 2);
    assert_eq!(count_words("你好世界"), 4);
    assert_eq!(count_words("今天 read 了 two books"), 6);
    assert_eq!(count_words("-- ** !!"), 0);
    assert_eq!(count_words(""), 0);
}

#[test]
fn links_skip_embedded_images() {
    let t = "see [[Alpha]] and [[beta|shown]] ![[pic.PNG]] ![[Gamma]] [[ ]] [[Alpha]]";
    assert_eq!(extract_links(t), strs(&["Alpha", "Gamma", "beta"]));
}

#[test]
fn tags_skip_headings_and_fences() {
    let t = "# 标题\n## sub #real\n正文 #读书 #a/b-c x#no\n```\n#code\n```\nend #tail";
    assert_eq!(extract_tags(t), strs(&["a/b-c", "real", "tail", "读书"]));
}

#[test]
fn frontmatter_is_split_off() {
    let (fm, body) = split_frontmatter("---\ntitle: T\n---\n# H\n");
    assert_eq!(fm, Some("title: T".to_string()));
    assert_eq!(body, "# H\n");
    let (fm2, body2) = split_frontmatter("\u{feff}---\r\na: 1\r\n---  \r\nbody");
    assert_eq!(fm2, Some("a: 1".to_string()));
    assert_eq!(body2, "body");
    let (fm3, body3) = split_frontmatter("no fm\n---\n");
    assert_eq!(fm3, None);
    assert_eq!(body3, "no fm\n---\n");
}

#[test]
fn frontmatter_fields_read_through_yaml() {
    let fm = Some("title: 早安\nn: 3\nok: true\ntags: [a, b]\n".to_string());
    assert_eq!(fm_str(&fm, "title"), "早安");
    assert_eq!(fm_str(&fm, "n"), "3");
    assert_eq!(fm_str(&fm, "ok"), "true");
    assert_eq!(fm_str(&fm, "tags"), "");
    assert_eq!(fm_str(&fm, "missing"), "");
    assert_eq!(fm_str(&None, "title"), "");
    assert_eq!(fm_items(&fm, "tags"), strs(&["a", "b"]));
    assert!(fm_items(&fm, "title").is_empty());
}

#[test]
fn title_comes_from_heading_then_frontmatter_then_name() {
    let fm = Some("title: 来自属性".to_string());
    assert_eq!(derive_title("text\n#  标题一 \n", &fm, "stem"), "标题一");
    assert_eq!(derive_title("#\n# \nplain", &fm, "stem"), "来自属性");
    assert_eq!(derive_title("plain", &None, "stem"), "stem");
    let late = format!("{}# late\n", "x\n".repeat(30));
    assert_eq!(derive_title(&late, &None, "stem"), "stem");
}
