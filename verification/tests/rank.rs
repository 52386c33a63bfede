use pkgrank::pkg::Pkg;
use pkgrank::rank::{rank, short_name_of};
use std::cmp::Ordering;

fn names(top: &[Pkg]) -> Vec<&str> {
    top.iter().map(|p| p.full_name.as_str()).collect()
}

fn strings(items: &[&str]) -> Vec<String> {
    items.iter().map(|s| s.to_string()).collect()
}

#[test]
fn ranking_order() {
    let candidates = strings(&["foo", "fooo", "bar"]);
    let top = rank(&"foo".to_string(), &candidates, 1);
    assert_eq!(top.len(), 1);
    assert_eq!(top[0].full_name, "foo");
    assert_eq!(top[0].dist, 0);
}

#[test]
fn ranking_gives_all_in_ascending_order() {
    let candidates = strings(&["bar", "fooo", "foo"]);
    let top = rank(&"foo".to_string(), &candidates, 3);
    assert_eq!(names(&top), vec!["foo", "fooo", "bar"]);
    let dists: Vec<i32> = top.iter().map(|p| p.dist).collect();
    assert_eq!(dists, vec![0, 1, 3]);
}

#[test]
fn ranking_stops_at_the_number_of_candidates() {
    let candidates = strings(&["vim", "vi"]);
    let top = rank(&"vim".to_string(), &candidates, 5);
    assert_eq!(names(&top), vec!["vim", "vi"]);
}

#[test]
fn ranking_of_nothing_is_empty() {
    let top = rank(&"anything".to_string(), &Vec::new(), 5);
    assert!(top.is_empty());
}

#[test]
fn ranking_of_none_wanted_is_empty() {
    let candidates = strings(&["a", "b"]);
    assert!(rank(&"a".to_string(), &candidates, 0).is_empty());
}

#[test]
fn ranking_scores_the_short_name_and_shows_the_full_one() {
    let candidates = strings(&[
        "vim-tiny/stable 2:9.0 amd64",
        "vim/stable 2:9.0 amd64",
        "emacs/stable 1:28 all",
    ]);
    let top = rank(&"vim".to_string(), &candidates, 2);
    assert_eq!(top[0].full_name, "vim/stable 2:9.0 amd64");
    assert_eq!(top[0].dist, 0);
    assert_eq!(top[1].full_name, "vim-tiny/stable 2:9.0 amd64");
    assert_eq!(top[1].dist, 5);
}

#[test]
fn candidate_without_separator_is_its_own_short_name() {
    let candidates = strings(&["grep", "gre/p"]);
    let top = rank(&"grep".to_string(), &candidates, 2);
    assert_eq!(top[0].full_name, "grep");
    assert_eq!(top[0].dist, 0);
    assert_eq!(top[1].full_name, "gre/p");
    assert_eq!(top[1].dist, 1);
}

#[test]
fn repeated_candidates_are_kept() {
    let candidates = strings(&["sed", "awk", "sed"]);
    let top = rank(&"sed".to_string(), &candidates, 3);
    assert_eq!(names(&top), vec!["sed", "sed", "awk"]);
}

#[test]
fn short_names() {
    assert_eq!(short_name_of("vim/stable"), "vim");
    assert_eq!(short_name_of("vim"), "vim");
    assert_eq!(short_name_of(""), "");
    assert_eq!(short_name_of("/stable"), "");
    assert_eq!(short_name_of("a/b/c"), "a");
    assert_eq!(short_name_of("naïve/1.0"), "naïve");
    assert_eq!(short_name_of("日本語/x"), "日本語");
}

#[test]
fn scored_items_compare_by_distance_alone() {
    let near = Pkg { full_name: "zzz".to_string(), dist: 1 };
    let far = Pkg { full_name: "aaa".to_string(), dist: 2 };
    let tie = Pkg { full_name: "other".to_string(), dist: 1 };
    assert!(near < far);
    assert!(far > near);
    assert!(near == tie);
    assert!(near != far);
    assert_eq!(near.partial_cmp(&far), Some(Ordering::Less));
    assert_eq!(far.partial_cmp(&near), Some(Ordering::Greater));
    assert_eq!(near.partial_cmp(&tie), Some(Ordering::Equal));
    let copy = far.clone();
    assert_eq!(copy.full_name, "aaa");
    assert_eq!(copy.dist, 2);
}
