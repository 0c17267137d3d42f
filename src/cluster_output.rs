use vstd::prelude::*;
use vstd::utf8::{encode_utf8, encode_utf8_decode_utf8, encode_utf8_valid_utf8};
use crate::cluster::{is_partition, Cluster};
use crate::doc_reader::{decoded, frames, lemma_first_sep, records_of, RecordSeperator as ReadMode};

verus! {

/// What stands between two records of one cluster.
pub enum FieldSeperator {
    Null,
    Colon,
    Line,
}

/// What stands between two clusters.
pub enum RecordSeperator {
    Null,
    Line,
    DLine,
}

impl FieldSeperator {
    pub open spec fn bytes(&self) -> Seq<u8> {
        match self {
            FieldSeperator::Null => seq![0u8],
            FieldSeperator::Colon => seq![58u8],
            FieldSeperator::Line => seq![10u8],
        }
    }

    fn repr(&self) -> (r: Vec<u8>)
        ensures
            r@ == self.bytes(),
    {
        let r = match self {
            FieldSeperator::Null => vec![0u8],
            FieldSeperator::Colon => vec![58u8],
            FieldSeperator::Line => vec![10u8],
        };
        proof {
            assert(r@ =~= self.bytes());
        }
        r
    }
}

impl RecordSeperator {
    pub open spec fn bytes(&self) -> Seq<u8> {
        match self {
            RecordSeperator::Null => seq![0u8],
            RecordSeperator::Line => seq![10u8],
            RecordSeperator::DLine => seq![10u8, 10u8],
        }
    }

    fn repr(&self) -> (r: Vec<u8>)
        ensures
            r@ == self.bytes(),
    {
        let r = match self {
            RecordSeperator::Null => vec![0u8],
            RecordSeperator::Line => vec![10u8],
            RecordSeperator::DLine => vec![10u8, 10u8],
        };
        proof {
            assert(r@ =~= self.bytes());
        }
        r
    }
}

/// `parts` with `sep` between each two consecutive ones.
pub open spec fn join(parts: Seq<Seq<u8>>, sep: Seq<u8>) -> Seq<u8>
    decreases parts.len(),
{
    if parts.len() == 0 {
        Seq::empty()
    } else if parts.len() == 1 {
        parts[0]
    } else {
        parts[0] + sep + join(parts.drop_first(), sep)
    }
}

/// The UTF-8 bytes of the records that a cluster names, `ofs` between them.
pub open spec fn cluster_bytes(records: Seq<String>, c: Seq<usize>, ofs: Seq<u8>) -> Seq<u8> {
    join(c.map_values(|i: usize| encode_utf8(records[i as int]@)), ofs)
}

/// The clusters, `ors` between them, and a final newline.
pub open spec fn render(records: Seq<String>, p: Seq<Seq<usize>>, ofs: Seq<u8>, ors: Seq<u8>) -> Seq<
    u8,
> {
    join(p.map_values(|c: Seq<usize>| cluster_bytes(records, c, ofs)), ors) + seq![10u8]
}

proof fn lemma_join_push(parts: Seq<Seq<u8>>, sep: Seq<u8>, x: Seq<u8>)
    requires
        parts.len() > 0,
    ensures
        join(parts.push(x), sep) == join(parts, sep) + sep + x,
    decreases parts.len(),
{
    if parts.len() == 1 {
        assert(parts.push(x).drop_first() =~= seq![x]);
        assert(join(seq![x], sep) == x);
    } else {
        lemma_join_push(parts.drop_first(), sep, x);
        assert(parts.push(x).drop_first() =~= parts.drop_first().push(x));
        assert(join(parts.push(x), sep) =~= join(parts, sep) + sep + x);
    }
}

fn extend_bytes(out: &mut Vec<u8>, b: &[u8])
    ensures
        final(out)@ == old(out)@ + b@,
{
    let mut i: usize = 0;
    while i < b.len()
        invariant
            i <= b@.len(),
            out@ == old(out)@ + b@.subrange(0, i as int),
        decreases b@.len() - i,
    {
        out.push(b[i]);
        i = i + 1;
        proof {
            assert(out@ =~= old(out)@ + b@.subrange(0, i as int));
        }
    }
    proof {
        assert(b@.subrange(0, b@.len() as int) =~= b@);
    }
}

/// Writes clusters of records with configurable separators.
pub struct ClusterOutput {
    ofs: FieldSeperator,
    ors: RecordSeperator,
}

impl ClusterOutput {
    pub closed spec fn field_sep(&self) -> Seq<u8> {
        self.ofs.bytes()
    }

    pub closed spec fn record_sep(&self) -> Seq<u8> {
        self.ors.bytes()
    }

    pub fn new(ofs: FieldSeperator, ors: RecordSeperator) -> (r: ClusterOutput)
        ensures
            r.field_sep() == ofs.bytes(),
            r.record_sep() == ors.bytes(),
    {
        ClusterOutput { ofs, ors }
    }

    /// The bytes of `cluster`: its clusters in order, the record separator
    /// between them, the records of each in order, the field separator
    /// between them, and one newline at the end.
    pub fn output(&self, cluster: &Cluster) -> (r: Vec<u8>)
        requires
            is_partition(cluster.parts(), cluster.records().len() as int),
        ensures
            r@ == render(cluster.records(), cluster.parts(), self.field_sep(), self.record_sep()),
    {
        let ofs = self.ofs.repr();
        let ors = self.ors.repr();
        let records = cluster.records;
        let parts = &cluster.clusters;
        let ghost p = cluster.parts();
        let ghost recs = cluster.records();
        proof {
            cluster.lemma_view();
        }
        let ghost all = p.map_values(|c: Seq<usize>| cluster_bytes(recs, c, ofs@));
        let mut out: Vec<u8> = Vec::new();
        let mut c: usize = 0;
        while c < parts.len()
            invariant
                c <= parts@.len(),
                p.len() == parts@.len(),
                forall|x: int| 0 <= x < p.len() ==> #[trigger] p[x] == parts@[x]@,
                recs == records@,
                is_partition(p, recs.len() as int),
                all == p.map_values(|c: Seq<usize>| cluster_bytes(recs, c, ofs@)),
                out@ == join(all.take(c as int), ors@),
            decreases parts@.len() - c,
        {
            if c > 0 {
                extend_bytes(&mut out, ors.as_slice());
            }
            let members = &parts[c];
            proof {
                assert(p[c as int] == members@);
                assert forall|j: int| 0 <= j < members@.len() implies #[trigger] members@[j] < recs.len() by {
                    assert(p[c as int][j] < recs.len());
                }
            }
            let ghost cb = members@.map_values(|i: usize| encode_utf8(recs[i as int]@));
            let ghost start = out@;
            let mut k: usize = 0;
            while k < members.len()
                invariant
                    k <= members@.len(),
                    recs == records@,
                    forall|j: int| 0 <= j < members@.len() ==> #[trigger] members@[j] < recs.len(),
                    cb == members@.map_values(|i: usize| encode_utf8(recs[i as int]@)),
                    out@ == start + join(cb.take(k as int), ofs@),
                decreases members@.len() - k,
            {
                if k > 0 {
                    extend_bytes(&mut out, ofs.as_slice());
                }
                let rec = &records[members[k]];
                extend_bytes(&mut out, rec.as_str().as_bytes());
                proof {
                    if k == 0 {
                        assert(cb.take(1) =~= seq![cb[0]]);
                    } else {
                        lemma_join_push(cb.take(k as int), ofs@, cb[k as int]);
                        assert(cb.take(k as int).push(cb[k as int]) =~= cb.take(k + 1));
                    }
                }
                k = k + 1;
            }
            proof {
                assert(cb.take(members@.len() as int) =~= cb);
                assert(all[c as int] == cluster_bytes(recs, p[c as int], ofs@));
                if c == 0 {
                    assert(all.take(1) =~= seq![all[0]]);
                } else {
                    lemma_join_push(all.take(c as int), ors@, all[c as int]);
                    assert(all.take(c as int).push(all[c as int]) =~= all.take(c + 1));
                }
            }
            c = c + 1;
        }
        extend_bytes(&mut out, &[10u8]);
        proof {
            assert(all.take(p.len() as int) =~= all);
        }
        out
    }
}

/// The positions of all clusters, cluster after cluster.
pub open spec fn flatten(p: Seq<Seq<usize>>) -> Seq<usize>
    decreases p.len(),
{
    if p.len() == 0 {
        Seq::empty()
    } else {
        p[0] + flatten(p.drop_first())
    }
}

proof fn lemma_join_append(a: Seq<Seq<u8>>, b: Seq<Seq<u8>>, sep: Seq<u8>)
    requires
        a.len() > 0,
        b.len() > 0,
    ensures
        join(a + b, sep) == join(a, sep) + sep + join(b, sep),
    decreases a.len(),
{
    assert((a + b)[0] == a[0]);
    if a.len() == 1 {
        assert((a + b).drop_first() =~= b);
    } else {
        lemma_join_append(a.drop_first(), b, sep);
        assert((a + b).drop_first() =~= a.drop_first() + b);
        assert(join(a + b, sep) =~= join(a, sep) + sep + join(b, sep));
    }
}

proof fn lemma_join_nested(records: Seq<String>, q: Seq<Seq<usize>>, sep: Seq<u8>)
    requires
        q.len() > 0,
        forall|c: int| 0 <= c < q.len() ==> #[trigger] q[c].len() > 0,
    ensures
        flatten(q).len() > 0,
        join(q.map_values(|c: Seq<usize>| cluster_bytes(records, c, sep)), sep) == join(
            flatten(q).map_values(|i: usize| encode_utf8(records[i as int]@)),
            sep,
        ),
    decreases q.len(),
{
    let f = |i: usize| encode_utf8(records[i as int]@);
    let outer = q.map_values(|c: Seq<usize>| cluster_bytes(records, c, sep));
    assert(q[0].len() > 0);
    if q.len() == 1 {
        assert(flatten(q.drop_first()) =~= Seq::<usize>::empty());
        assert(flatten(q) =~= q[0]);
    } else {
        let rest = q.drop_first();
        assert(rest[0] == q[1]);
        lemma_join_nested(records, rest, sep);
        assert(outer.drop_first() =~= rest.map_values(|c: Seq<usize>| cluster_bytes(records, c, sep)));
        assert(flatten(q).map_values(f) =~= q[0].map_values(f) + flatten(rest).map_values(f));
        lemma_join_append(q[0].map_values(f), flatten(rest).map_values(f), sep);
    }
}

proof fn lemma_frames_join(parts: Seq<Seq<u8>>, sep: u8)
    requires
        parts.len() > 0,
        forall|k: int| 0 <= k < parts.len() ==> !(#[trigger] parts[k]).contains(sep),
    ensures
        frames(join(parts, seq![sep]) + seq![sep], sep) == parts,
    decreases parts.len(),
{
    let b = join(parts, seq![sep]) + seq![sep];
    let first = parts[0];
    let i = first.len() as int;
    let tail = if parts.len() == 1 {
        Seq::<u8>::empty()
    } else {
        join(parts.drop_first(), seq![sep]) + seq![sep]
    };
    assert(b =~= first + seq![sep] + tail);
    assert forall|j: int| 0 <= j < i implies b[j] != sep by {
        assert(b[j] == first[j]);
        if first[j] == sep {
            assert(first.contains(sep));
        }
    }
    lemma_first_sep(b, sep, i);
    assert(b.subrange(0, i) =~= first);
    assert(b.subrange(i + 1, b.len() as int) =~= tail);
    if parts.len() == 1 {
        assert(frames(tail, sep) =~= Seq::<Seq<u8>>::empty());
        assert(frames(b, sep) =~= parts);
    } else {
        let rest = parts.drop_first();
        assert forall|k: int| 0 <= k < rest.len() implies !(#[trigger] rest[k]).contains(sep) by {
            assert(rest[k] == parts[k + 1]);
        }
        lemma_frames_join(rest, sep);
        assert(frames(b, sep) =~= parts);
    }
}

/// Records written with newlines as both the field and the record separator,
/// and read back a line at a time, are the records of the clusters in the
/// order written, provided that there is at least one record and that the
/// UTF-8 bytes of none hold a newline.
pub proof fn lemma_line_round_trip(records: Seq<String>, p: Seq<Seq<usize>>)
    requires
        is_partition(p, records.len() as int),
        records.len() > 0,
        forall|i: int| 0 <= i < records.len() ==> !encode_utf8(#[trigger] records[i]@).contains(10u8),
    ensures
        records_of(render(records, p, seq![10u8], seq![10u8]), ReadMode::Line) == flatten(
            p,
        ).map_values(|i: usize| records[i as int]@),
{
    broadcast use encode_utf8_decode_utf8, encode_utf8_valid_utf8;

    assert(p.len() > 0) by {
        assert(crate::cluster::in_some_cluster(p, 0));
    }
    lemma_join_nested(records, p, seq![10u8]);
    let flat = flatten(p);
    lemma_flatten_within(p, records.len() as int);
    let parts = flat.map_values(|i: usize| encode_utf8(records[i as int]@));
    assert forall|k: int| 0 <= k < parts.len() implies !(#[trigger] parts[k]).contains(10u8) by {
        assert(flat[k] < records.len());
        assert(parts[k] == encode_utf8(records[flat[k] as int]@));
    }
    lemma_frames_join(parts, 10u8);
    let out = records_of(render(records, p, seq![10u8], seq![10u8]), ReadMode::Line);
    assert(out =~= parts.map_values(|f: Seq<u8>| decoded(f)));
    assert forall|k: int| 0 <= k < out.len() implies out[k] == records[flat[k] as int]@ by {
        assert(decoded(parts[k]) == records[flat[k] as int]@);
    }
    assert(out =~= flat.map_values(|i: usize| records[i as int]@));
}

proof fn lemma_flatten_within(p: Seq<Seq<usize>>, n: int)
    requires
        forall|c: int, k: int| 0 <= c < p.len() && 0 <= k < p[c].len() ==> #[trigger] p[c][k] < n,
    ensures
        forall|k: int| 0 <= k < flatten(p).len() ==> #[trigger] flatten(p)[k] < n,
    decreases p.len(),
{
    if p.len() > 0 {
        let rest = p.drop_first();
        assert forall|c: int, k: int| 0 <= c < rest.len() && 0 <= k < rest[c].len() implies #[trigger] rest[c][k] < n by {
            assert(rest[c] == p[c + 1]);
        }
        lemma_flatten_within(rest, n);
        assert forall|k: int| 0 <= k < flatten(p).len() implies #[trigger] flatten(p)[k] < n by {
            if k < p[0].len() {
                assert(flatten(p)[k] == p[0][k]);
            } else {
                assert(flatten(p)[k] == flatten(rest)[k - p[0].len()]);
            }
        }
    }
}

} // verus!
