use simcluster::cluster::{cluster, Cluster, ClusterAlgo, Levenshtein, OSA};

fn strings(v: &[&str]) -> Vec<String> {
    v.iter().map(|s| s.to_string()).collect()
}

/// The clusters as sorted lists of record texts, in sorted order.
fn as_sets(records: &Vec<String>, c: &Cluster) -> Vec<Vec<String>> {
    let mut out: Vec<Vec<String>> = c
        .groups()
        .iter()
        .map(|g| {
            let mut v: Vec<String> = g.iter().map(|&i| records[i].clone()).collect();
            v.sort();
            v
        })
        .collect();
    out.sort();
    out
}

#[test]
fn two_pairs_make_two_clusters() {
    let r = strings(&["hello", "world", "sweet", "home"]);
    let c = Cluster::pairwise(&r, &vec![(0, 1), (2, 3)]);
    assert_eq!(
        as_sets(&r, &c),
        vec![strings(&["hello", "world"]), strings(&["home", "sweet"])]
    );
}

#[test]
fn chained_pairs_make_one_cluster() {
    let r = strings(&["a", "b", "c"]);
    let c = Cluster::pairwise(&r, &vec![(0, 1), (1, 2)]);
    assert_eq!(as_sets(&r, &c), vec![strings(&["a", "b", "c"])]);
}

#[test]
fn no_pairs_make_singletons() {
    let r = strings(&["x", "y", "z"]);
    let c = Cluster::pairwise(&r, &vec![]);
    assert_eq!(
        as_sets(&r, &c),
        vec![strings(&["x"]), strings(&["y"]), strings(&["z"])]
    );
}

#[test]
fn untouched_record_stays_alone() {
    let r = strings(&["p", "q", "s", "t"]);
    let c = Cluster::pairwise(&r, &vec![(0, 3), (3, 1)]);
    assert_eq!(
        as_sets(&r, &c),
        vec![strings(&["p", "q", "t"]), strings(&["s"])]
    );
}

#[test]
fn duplicate_texts_stay_distinct_records() {
    let r = strings(&["same", "same", "other"]);
    let c = Cluster::pairwise(&r, &vec![]);
    assert_eq!(c.groups().len(), 3);
    let c = Cluster::pairwise(&r, &vec![(1, 2)]);
    assert_eq!(
        as_sets(&r, &c),
        vec![strings(&["other", "same"]), strings(&["same"])]
    );
}

#[test]
fn every_position_once() {
    let r = strings(&["a", "b", "c", "d", "e", "f", "g"]);
    let c = Cluster::pairwise(&r, &vec![(5, 1), (2, 4), (1, 3), (6, 6)]);
    let mut seen: Vec<usize> = c.groups().iter().flatten().copied().collect();
    seen.sort();
    assert_eq!(seen, vec![0, 1, 2, 3, 4, 5, 6]);
    assert!(c.groups().iter().all(|g| !g.is_empty()));
}

#[test]
fn empty_and_single_inputs() {
    let r: Vec<String> = vec![];
    assert!(Cluster::pairwise(&r, &vec![]).groups().is_empty());
    let r = strings(&["only"]);
    assert_eq!(Cluster::pairwise(&r, &vec![]).groups(), &vec![vec![0]]);
}

#[test]
fn same_input_same_clusters() {
    let r = strings(&["hello", "hallo", "hullo", "world", "word", "xyz"]);
    let algo = Levenshtein::new(2, false);
    let a = cluster(&algo, &r);
    let b = cluster(&algo, &r);
    assert_eq!(a.groups(), b.groups());
}

#[test]
fn levenshtein_threshold_is_strict() {
    let a = "kitten".to_string();
    let b = "sitting".to_string();
    assert!(!Levenshtein::new(3, false).accept(&a, &b));
    assert!(Levenshtein::new(4, false).accept(&a, &b));
}

#[test]
fn damerau_counts_a_swap_once() {
    let a = "ab".to_string();
    let b = "ba".to_string();
    assert!(Levenshtein::new(2, true).accept(&a, &b));
    assert!(!Levenshtein::new(2, false).accept(&a, &b));
}

#[test]
fn osa_distance_threshold() {
    let a = "ca".to_string();
    let b = "abc".to_string();
    assert!(!OSA::new(3).accept(&a, &b));
    assert!(OSA::new(4).accept(&a, &b));
    assert!(OSA::new(2).accept(&"ab".to_string(), &"ba".to_string()));
}

#[test]
fn levenshtein_clusters_close_words() {
    let r = strings(&["hello", "hallo", "world", "hullo"]);
    let c = cluster(&Levenshtein::new(2, false), &r);
    assert_eq!(
        as_sets(&r, &c),
        vec![strings(&["hallo", "hello", "hullo"]), strings(&["world"])]
    );
}
