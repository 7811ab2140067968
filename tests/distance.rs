use myers::{histogram, lower_bound, myers_64, myers_unbounded, trim};

#[test]
fn small_ascii() {
    let query = String::from("kitten!");
    let text = String::from("sitting");
    assert_eq!(myers_64(&query, &text), 3);
}

#[test]
fn big_ascii() {
    let query =
        String::from("kitten!kitten!kitten!kitten!kitten!kitten!kitten!kitten!kitten!kitten!");
    let text =
        String::from("sittingsittingsittingsittingsittingsittingsittingsittingsittingsitting");
    assert_eq!(myers_unbounded(&query, &text), 30);
}

#[test]
fn trimmed_small_ascii() {
    let query = String::from("prE kitten! post");
    let text = String::from("pre sitting  Post");
    let (prefix, query_suffix, text_suffix) = trim(&query, &text);

    assert_eq!(prefix, 2);
    assert_eq!(query_suffix, 13);
    assert_eq!(text_suffix, 14);

    assert_eq!(
        myers_64(&query[prefix..query_suffix], &text[prefix..text_suffix]),
        6
    );
}

#[test]
fn trimmed_big_ascii() {
    let query = String::from(
        "prE kitten!kitten!kitten!kitten!kitten!kitten!kitten!kitten!kitten!kitten! post",
    );
    let text = String::from(
        "pre sittingsittingsittingsittingsittingsittingsittingsittingsittingsitting  Post",
    );
    let (prefix, query_suffix, text_suffix) = trim(&query, &text);
    assert_eq!(prefix, 2);
    assert_eq!(query_suffix, 76);
    assert_eq!(text_suffix, 77);
    assert_eq!(
        myers_unbounded(&query[prefix..query_suffix], &text[prefix..text_suffix]),
        33
    );
}

#[test]
fn same_histograms_lower_bound() {
    let query = String::from("abcdefghijklmnopqrstuvwxyz");
    let text = String::from("zyxwvutsrqponmlkjihgfedcba");
    assert_eq!(lower_bound(&query, &text), 0);
}

#[test]
fn different_histograms_lower_bound() {
    let query = String::from("abcdefghijklm");
    let text = String::from("nopqrstuvwxyznopqrstuvwxyznopqrstuvwxyz");
    assert_eq!(lower_bound(&query, &text), 39);
}

#[test]
fn random_histograms_lower_bound() {
    let query = String::from("abcdefghijklm");
    let text = String::from("anaocphqerfsgtdhuivjbwkxlym");
    assert_eq!(lower_bound(&query, &text), 14);
}

#[test]
fn trimmed_lower_bound() {
    let query = String::from("abcdefghijklm");
    let text = String::from("anaocphqerfsgtdhuivjbwkxlym");
    let (prefix, query_suffix, text_suffix) = trim(&query, &text);
    assert_eq!(prefix, 1);
    assert_eq!(query_suffix, 12);
    assert_eq!(text_suffix, 26);
    assert_eq!(
        lower_bound(&query[prefix..query_suffix], &text[prefix..text_suffix]),
        14
    );
}
