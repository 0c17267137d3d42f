use simcluster::cluster::Cluster;
use simcluster::cluster_output::{ClusterOutput, FieldSeperator as FS, RecordSeperator as RS};
use simcluster::doc_reader::{DocReader, RecordSeperator};

fn run_output(records: &Vec<String>, pairs: &Vec<(usize, usize)>, fs: FS, rs: RS, rsep: &str) -> Vec<String> {
    let cluster = Cluster::pairwise(records, pairs);
    let out = ClusterOutput::new(fs, rs);
    let buf = out.output(&cluster);
    let result = String::from_utf8_lossy(&buf);
    result
        .trim_end_matches("\n")
        .split(rsep)
        .map(String::from)
        .collect::<Vec<String>>()
}

fn split_contains(s: &str, split: &str, elem: &String) {
    assert!(
        s.split(split).map(String::from).collect::<Vec<String>>().contains(elem),
        "{:?} was not in cluster {:?}",
        elem,
        s
    );
}

fn records() -> Vec<String> {
    vec![
        "hello".to_string(),
        "world".to_string(),
        "sweet".to_string(),
        "home".to_string(),
    ]
}

#[test]
fn default_line_dline() {
    let r = records();
    let lines = run_output(&r, &vec![(0, 1), (2, 3)], FS::Line, RS::DLine, "\n\n");

    split_contains(&lines[0], "\n", &r[0]);
    split_contains(&lines[0], "\n", &r[1]);

    split_contains(&lines[1], "\n", &r[2]);
    split_contains(&lines[1], "\n", &r[3]);
}

#[test]
fn colon_line() {
    let r = records();
    let lines = run_output(&r, &vec![(0, 1), (2, 3)], FS::Colon, RS::Line, "\n");

    split_contains(&lines[0], ":", &r[0]);
    split_contains(&lines[0], ":", &r[1]);

    split_contains(&lines[1], ":", &r[2]);
    split_contains(&lines[1], ":", &r[3]);
}

#[test]
fn null_line() {
    let r = records();
    let lines = run_output(&r, &vec![(0, 1), (2, 3)], FS::Null, RS::Line, "\n");

    split_contains(&lines[0], "\0", &r[0]);
    split_contains(&lines[0], "\0", &r[1]);

    split_contains(&lines[1], "\0", &r[2]);
    split_contains(&lines[1], "\0", &r[3]);
}

#[test]
fn colon_null() {
    let r = records();
    let lines = run_output(&r, &vec![(0, 1), (2, 3)], FS::Colon, RS::Null, "\0");

    split_contains(&lines[0], ":", &r[0]);
    split_contains(&lines[0], ":", &r[1]);

    split_contains(&lines[1], ":", &r[2]);
    split_contains(&lines[1], ":", &r[3]);
}

#[test]
fn exact_bytes_of_two_clusters() {
    let r = records();
    let cluster = Cluster::pairwise(&r, &vec![(0, 1), (2, 3)]);
    let buf = ClusterOutput::new(FS::Colon, RS::DLine).output(&cluster);
    assert_eq!(buf, b"hello:world\n\nsweet:home\n".to_vec());
}

#[test]
fn empty_partition_is_one_newline() {
    let r: Vec<String> = vec![];
    let cluster = Cluster::pairwise(&r, &vec![]);
    let buf = ClusterOutput::new(FS::Line, RS::Null).output(&cluster);
    assert_eq!(buf, b"\n".to_vec());
}

#[test]
fn multibyte_records_are_written_as_utf8() {
    let r = vec!["žluť".to_string(), "kůň".to_string()];
    let cluster = Cluster::pairwise(&r, &vec![(0, 1)]);
    let buf = ClusterOutput::new(FS::Null, RS::Line).output(&cluster);
    assert_eq!(buf, "žluť\0kůň\n".as_bytes().to_vec());
}

#[test]
fn written_lines_read_back_as_records() {
    let r = vec!["b".to_string(), "a".to_string(), "c".to_string()];
    let cluster = Cluster::pairwise(&r, &vec![(0, 2)]);
    let buf = ClusterOutput::new(FS::Line, RS::Line).output(&cluster);
    let back: Vec<String> = DocReader::new(&buf, RecordSeperator::Line).collect();
    let mut flat: Vec<String> = Vec::new();
    for g in cluster.groups() {
        for &i in g {
            flat.push(r[i].clone());
        }
    }
    assert_eq!(back, flat);
    let mut sorted = back.clone();
    sorted.sort();
    assert_eq!(sorted, vec!["a", "b", "c"]);
}
