use clipmunge::urlclean::{strip_params, DEFAULT_JUNK};


fn defaults() -> Vec<String> {
    DEFAULT_JUNK.iter().map(|s| s.to_string()).collect()
}

fn clean(url: &str) -> Option<String> {
    strip_params(url, &defaults()).map(|(u, _)| u)
}

#[test]
fn leaves_a_url_without_a_query_alone() {
    assert_eq!(clean("https://example.com/a"), None);
}

#[test]
fn leaves_a_clean_query_alone() {
    assert_eq!(clean("https://example.com/a?id=7&page=2"), None);
}

#[test]
fn drops_one_and_keeps_the_rest_in_order() {
    assert_eq!(
        clean("https://example.com/a?id=7&utm_source=news&page=2").as_deref(),
        Some("https://example.com/a?id=7&page=2")
    );
}

#[test]
fn removes_the_question_mark_when_nothing_survives() {
    assert_eq!(
        clean("https://example.com/a?utm_source=x&fbclid=y").as_deref(),
        Some("https://example.com/a")
    );
}

#[test]
fn a_trailing_star_matches_a_prefix() {
    assert_eq!(
        clean("https://e.com/?utm_content=a&utm_whatever=b&keep=1").as_deref(),
        Some("https://e.com/?keep=1")
    );
}

#[test]
fn keys_are_matched_case_insensitively() {
    assert_eq!(
        clean("https://e.com/?UTM_Source=a&FBCLID=b&keep=1").as_deref(),
        Some("https://e.com/?keep=1")
    );
}

#[test]
fn the_fragment_survives() {
    assert_eq!(
        clean("https://e.com/doc?utm_source=x&s=2#section-3").as_deref(),
        Some("https://e.com/doc?s=2#section-3")
    );
}

#[test]
fn a_fragment_with_no_query_left_still_survives() {
    assert_eq!(
        clean("https://e.com/doc?fbclid=x#top").as_deref(),
        Some("https://e.com/doc#top")
    );
}

#[test]
fn a_bare_key_with_no_value_is_still_a_parameter() {
    assert_eq!(
        clean("https://e.com/?fbclid&keep=1").as_deref(),
        Some("https://e.com/?keep=1")
    );
    assert_eq!(clean("https://e.com/?keep&other"), None);
}

#[test]
fn junk_inside_a_value_is_not_a_key() {
    // The tracker name appears as data, not as a parameter name.
    assert_eq!(clean("https://e.com/?q=utm_source&r=fbclid"), None);
}

#[test]
fn reports_what_it_dropped() {
    let (_, dropped) =
        strip_params("https://e.com/?si=a&utm_source=b&k=1", &defaults()).unwrap();
    assert_eq!(dropped, vec!["si", "utm_source"]);
}

#[test]
fn cleaning_twice_changes_nothing_the_second_time() {
    // An already cleaned URL should not trigger another rewrite.
    let once = clean("https://e.com/a?utm_source=x&id=1").unwrap();
    assert_eq!(clean(&once), None);
}

#[test]
fn empty_query_is_not_a_change() {
    assert_eq!(clean("https://e.com/a?"), None);
}

#[test]
fn a_question_mark_inside_the_fragment_is_not_a_query() {
    // Hash routing: the `?` belongs to the fragment, so there is no query
    // to clean and the URL must come back untouched.
    assert_eq!(clean("https://app.example.com/#/board?utm_source=x"), None);
}

#[test]
fn a_real_query_is_cleaned_even_with_a_question_mark_in_the_fragment() {
    assert_eq!(
        clean("https://e.com/p?utm_source=x&id=1#/tab?si=2").as_deref(),
        Some("https://e.com/p?id=1#/tab?si=2")
    );
}

#[test]
fn a_custom_list_replaces_the_default() {
    let mine = vec!["id".to_string()];
    assert_eq!(
        strip_params("https://e.com/?id=1&utm_source=x", &mine)
            .map(|(u, _)| u)
            .as_deref(),
        Some("https://e.com/?utm_source=x")
    );
}
