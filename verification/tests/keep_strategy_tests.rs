use fdupe::keep::{choose_survivor, path_len, pick_by_mtime, survivor_index};
use fdupe::model::KeepStrategy;

const SECOND: i128 = 1_000_000_000;

fn in_dir(name: &str) -> String {
    format!("/tmp/keep-test/{name}")
}

#[test]
fn first_strategy_picks_lexicographically_first_path() {
    let a = in_dir("b_second.txt");
    let b = in_dir("a_first.txt");

    let survivor = choose_survivor(&vec![a, b.clone()], &vec![], KeepStrategy::First);
    assert_eq!(survivor, b);
}

#[test]
fn shortest_path_strategy_picks_shortest_name() {
    let long = in_dir("a_much_longer_filename.txt");
    let short = in_dir("s.txt");

    let survivor = choose_survivor(&vec![long, short.clone()], &vec![], KeepStrategy::ShortestPath);
    assert_eq!(survivor, short);
}

#[test]
fn shortest_path_ties_break_lexicographically() {
    let a = in_dir("bbb.txt");
    let b = in_dir("aaa.txt");

    let survivor = choose_survivor(&vec![a, b.clone()], &vec![], KeepStrategy::ShortestPath);
    assert_eq!(survivor, b);
}

#[test]
fn oldest_strategy_picks_earliest_mtime() {
    let old = in_dir("old.txt");
    let new = in_dir("new.txt");

    // Modification times, in the order of the paths: new, then old.
    let mtimes = vec![2000 * SECOND, 1000 * SECOND];
    let survivor = choose_survivor(&vec![new, old.clone()], &mtimes, KeepStrategy::Oldest);
    assert_eq!(survivor, old);
}

#[test]
fn newest_strategy_picks_latest_mtime() {
    let old = in_dir("old.txt");
    let new = in_dir("new.txt");

    let mtimes = vec![1000 * SECOND, 2000 * SECOND];
    let survivor = choose_survivor(&vec![old, new.clone()], &mtimes, KeepStrategy::Newest);
    assert_eq!(survivor, new);
}

#[test]
fn oldest_strategy_with_three_files() {
    let a = in_dir("a.txt");
    let b = in_dir("b.txt");
    let c = in_dir("c.txt");

    let mtimes = vec![3000 * SECOND, 1000 * SECOND, 2000 * SECOND];
    let survivor = choose_survivor(&vec![a, b.clone(), c], &mtimes, KeepStrategy::Oldest);
    assert_eq!(survivor, b);
}

#[test]
fn equal_mtimes_fall_back_to_path_order() {
    let paths = vec![in_dir("z.txt"), in_dir("m.txt"), in_dir("q.txt")];
    let mtimes = vec![5 * SECOND, 5 * SECOND, 5 * SECOND];
    assert_eq!(choose_survivor(&paths, &mtimes, KeepStrategy::Oldest), in_dir("m.txt"));
    assert_eq!(choose_survivor(&paths, &mtimes, KeepStrategy::Newest), in_dir("m.txt"));
}

#[test]
fn missing_mtimes_count_as_the_epoch() {
    // Only the first path has a known time (after the epoch); the others
    // count as the epoch itself.
    let paths = vec![in_dir("a.txt"), in_dir("c.txt"), in_dir("b.txt")];
    let mtimes = vec![7 * SECOND];
    assert_eq!(choose_survivor(&paths, &mtimes, KeepStrategy::Oldest), in_dir("b.txt"));
    assert_eq!(choose_survivor(&paths, &mtimes, KeepStrategy::Newest), in_dir("a.txt"));
}

#[test]
fn times_before_the_epoch_are_older() {
    let paths = vec![in_dir("a.txt"), in_dir("b.txt")];
    let mtimes = vec![0, -3 * SECOND];
    assert_eq!(choose_survivor(&paths, &mtimes, KeepStrategy::Oldest), in_dir("b.txt"));
    assert_eq!(pick_by_mtime(&paths, &mtimes, false), in_dir("a.txt"));
}

#[test]
fn path_order_goes_by_components() {
    // As paths, "dir/a" comes before "dir-x/a" because the component "dir"
    // is a prefix of "dir-x", although '/' sorts after '-' as a character.
    let paths = vec!["/r/dir-x/a".to_string(), "/r/dir/a".to_string()];
    assert_eq!(choose_survivor(&paths, &vec![], KeepStrategy::First), "/r/dir/a");
    // Repeated and trailing separators and `.` components do not count.
    let same = vec!["/r//b/./c/".to_string(), "/r/b/c".to_string()];
    assert_eq!(survivor_index(&same, &vec![], KeepStrategy::First), 0);
}

#[test]
fn shortest_path_counts_bytes() {
    assert_eq!(path_len("s.txt"), 5);
    // 'é' takes two bytes in UTF-8: "éé" has fewer characters than "abc"
    // but more bytes.
    assert_eq!(path_len("éé"), 4);
    let paths = vec!["éé".to_string(), "abc".to_string()];
    assert_eq!(choose_survivor(&paths, &vec![], KeepStrategy::ShortestPath), "abc");
}

#[test]
fn single_path_survives_itself() {
    let only = vec![in_dir("only.txt")];
    for s in [KeepStrategy::First, KeepStrategy::Oldest, KeepStrategy::Newest, KeepStrategy::ShortestPath] {
        assert_eq!(survivor_index(&only, &vec![], s), 0);
    }
}
