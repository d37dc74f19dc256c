use vstd::prelude::*;

use crate::errors::PipelineError;
use crate::node_type::NodeType;

verus! {

use vstd::multiset::Multiset;

/// One published artifact, as recorded in the catalog.
///
/// `created_at` is the publication instant in whole seconds since the Unix
/// epoch; `upload_time` is the same instant as the RFC 3339 text that the
/// catalog document carries. A well-formed record keeps the two consistent
/// (see `crate::clock::rfc3339_val`).
#[derive(Clone, Debug)]
pub struct Snapshot {
    pub file_name: String,
    pub sha256: String,
    pub node_type: NodeType,
    pub created_at: i64,
    pub upload_time: String,
}

/// The mathematical image of a `Snapshot`: every text field as a sequence of
/// characters, the timestamp as an unbounded integer.
#[verifier::ext_equal]
pub struct SnapView {
    pub file_name: Seq<char>,
    pub sha256: Seq<char>,
    pub node_type: NodeType,
    pub created_at: int,
    pub upload_time: Seq<char>,
}

impl View for Snapshot {
    type V = SnapView;

    open spec fn view(&self) -> SnapView {
        SnapView {
            file_name: self.file_name@,
            sha256: self.sha256@,
            node_type: self.node_type,
            created_at: self.created_at as int,
            upload_time: self.upload_time@,
        }
    }
}

impl Snapshot {
    /// A field-exact copy, usable where verified code needs one.
    pub fn duplicate(&self) -> (r: Snapshot)
        ensures
            r == *self,
    {
        Snapshot {
            file_name: self.file_name.clone(),
            sha256: self.sha256.clone(),
            node_type: self.node_type,
            created_at: self.created_at,
            upload_time: self.upload_time.clone(),
        }
    }
}

/// The ordered manifest of currently retained artifacts.
#[derive(Clone, Debug)]
pub struct Metadata {
    pub snapshots: Vec<Snapshot>,
}

/// The views of a sequence of records.
pub open spec fn views(s: Seq<Snapshot>) -> Seq<SnapView> {
    s.map_values(|x: Snapshot| x@)
}

impl View for Metadata {
    type V = Seq<SnapView>;

    open spec fn view(&self) -> Seq<SnapView> {
        views(self.snapshots@)
    }
}

impl Metadata {
    /// A catalog with no entries, the fallback for a missing or corrupt
    /// catalog document.
    pub fn empty() -> (r: Metadata)
        ensures
            r@ == Seq::<SnapView>::empty(),
    {
        let r = Metadata { snapshots: Vec::new() };
        proof {
            assert(r@ =~= Seq::<SnapView>::empty());
        }
        r
    }
}

/// Entries ordered by `created_at`, newest first.
pub open spec fn sorted_desc(s: Seq<SnapView>) -> bool {
    forall|i: int, j: int| 0 <= i < j < s.len() ==> s[i].created_at >= s[j].created_at
}

/// How many entries of category `c` the sequence holds.
pub open spec fn cat_count(s: Seq<SnapView>, c: NodeType) -> int
    decreases s.len(),
{
    if s.len() == 0 {
        0
    } else {
        cat_count(s.drop_last(), c) + if s.last().node_type == c {
            1int
        } else {
            0int
        }
    }
}

/// Insertion of `x` into a descending sequence: `x` goes after every entry
/// whose `created_at` is at least its own, so equal timestamps keep their
/// existing order and the newcomer comes last among them — the stable
/// tie-break the catalog promises.
pub open spec fn insert_desc(s: Seq<SnapView>, x: SnapView) -> Seq<SnapView>
    decreases s.len(),
{
    if s.len() == 0 {
        seq![x]
    } else if s.first().created_at >= x.created_at {
        seq![s.first()] + insert_desc(s.drop_first(), x)
    } else {
        seq![x] + s
    }
}

/// Stable sort of the whole entry set by `created_at` descending.
pub open spec fn sort_desc(s: Seq<SnapView>) -> Seq<SnapView>
    decreases s.len(),
{
    if s.len() == 0 {
        Seq::<SnapView>::empty()
    } else {
        insert_desc(sort_desc(s.drop_last()), s.last())
    }
}

/// The retention fold: walking the (sorted) entries front to back, an entry
/// is retained exactly when fewer than `keep` entries of its category came
/// before it; every other entry is evicted. The first component is the
/// retained sequence, the second the evicted one, both in walk order.
pub open spec fn keep_partition(s: Seq<SnapView>, keep: int) -> (Seq<SnapView>, Seq<SnapView>)
    decreases s.len(),
{
    if s.len() == 0 {
        (Seq::<SnapView>::empty(), Seq::<SnapView>::empty())
    } else {
        let (k, e) = keep_partition(s.drop_last(), keep);
        let x = s.last();
        if cat_count(s.drop_last(), x.node_type) < keep {
            (k.push(x), e)
        } else {
            (k, e.push(x))
        }
    }
}

/// `insert_desc` places `x` exactly at the first position whose entry is
/// strictly older, written with subranges so that the executable insertion
/// can be matched against it.
pub proof fn lemma_insert_desc_at(s: Seq<SnapView>, x: SnapView, j: int)
    requires
        0 <= j <= s.len(),
        forall|k: int| 0 <= k < j ==> s[k].created_at >= x.created_at,
        j < s.len() ==> s[j].created_at < x.created_at,
    ensures
        insert_desc(s, x) == s.subrange(0, j) + seq![x] + s.subrange(j, s.len() as int),
    decreases s.len(),
{
    if s.len() == 0 {
        assert(insert_desc(s, x) =~= s.subrange(0, j) + seq![x] + s.subrange(j, s.len() as int));
    } else if j == 0 {
        assert(s[0].created_at < x.created_at);
        assert(insert_desc(s, x) == seq![x] + s);
        assert(seq![x] + s =~= s.subrange(0, 0) + seq![x] + s.subrange(0, s.len() as int));
    } else {
        assert(s.first().created_at >= x.created_at);
        let t = s.drop_first();
        assert(forall|k: int| 0 <= k < j - 1 ==> t[k].created_at >= x.created_at);
        lemma_insert_desc_at(t, x, j - 1);
        assert(insert_desc(s, x) == seq![s.first()] + (t.subrange(0, j - 1) + seq![x]
            + t.subrange(j - 1, t.len() as int)));
        assert(seq![s.first()] + (t.subrange(0, j - 1) + seq![x] + t.subrange(
            j - 1,
            t.len() as int,
        )) =~= s.subrange(0, j) + seq![x] + s.subrange(j, s.len() as int));
    }
}

/// Inserting into a descending sequence keeps it descending.
pub proof fn lemma_insert_desc_sorted(s: Seq<SnapView>, x: SnapView)
    requires
        sorted_desc(s),
    ensures
        sorted_desc(insert_desc(s, x)),
    decreases s.len(),
{
    if s.len() == 0 {
    } else if s.first().created_at >= x.created_at {
        let t = s.drop_first();
        assert(sorted_desc(t));
        lemma_insert_desc_sorted(t, x);
        let r = seq![s.first()] + insert_desc(t, x);
        assert forall|i: int, j: int| 0 <= i < j < r.len() implies r[i].created_at
            >= r[j].created_at by {
            if i == 0 {
                if j < r.len() {
                    lemma_insert_desc_members(t, x, j - 1);
                }
            }
        }
    } else {
    }
}

/// Every entry of `insert_desc(s, x)` is `x` or an entry of `s`.
pub proof fn lemma_insert_desc_members(s: Seq<SnapView>, x: SnapView, i: int)
    requires
        0 <= i < insert_desc(s, x).len(),
    ensures
        insert_desc(s, x)[i] == x || exists|k: int|
            0 <= k < s.len() && insert_desc(s, x)[i] == s[k],
    decreases s.len(),
{
    if s.len() == 0 {
    } else if s.first().created_at >= x.created_at {
        if i == 0 {
            assert(insert_desc(s, x)[0] == s[0]);
        } else {
            lemma_insert_desc_members(s.drop_first(), x, i - 1);
            assert(insert_desc(s, x)[i] == insert_desc(s.drop_first(), x)[i - 1]);
            if insert_desc(s.drop_first(), x)[i - 1] != x {
                let k = choose|k: int|
                    0 <= k < s.drop_first().len() && insert_desc(s.drop_first(), x)[i - 1]
                        == s.drop_first()[k];
                assert(s.drop_first()[k] == s[k + 1]);
            }
        }
    } else {
        if i == 0 {
        } else {
            assert(insert_desc(s, x)[i] == s[i - 1]);
        }
    }
}

/// Sorting yields a descending sequence of the same length.
pub proof fn lemma_sort_desc_sorted(s: Seq<SnapView>)
    ensures
        sorted_desc(sort_desc(s)),
        sort_desc(s).len() == s.len(),
    decreases s.len(),
{
    if s.len() == 0 {
    } else {
        lemma_sort_desc_sorted(s.drop_last());
        lemma_insert_desc_sorted(sort_desc(s.drop_last()), s.last());
        lemma_insert_desc_len(sort_desc(s.drop_last()), s.last());
    }
}

/// `insert_desc` grows the sequence by one.
pub proof fn lemma_insert_desc_len(s: Seq<SnapView>, x: SnapView)
    ensures
        insert_desc(s, x).len() == s.len() + 1,
    decreases s.len(),
{
    if s.len() == 0 {
    } else if s.first().created_at >= x.created_at {
        lemma_insert_desc_len(s.drop_first(), x);
    } else {
    }
}

/// After the retention fold, each category holds the smaller of `keep` and
/// its full count — so never more than `keep` live entries per category.
pub proof fn lemma_keep_partition_count(s: Seq<SnapView>, keep: int, c: NodeType)
    requires
        keep >= 0,
    ensures
        cat_count(keep_partition(s, keep).0, c) == if cat_count(s, c) < keep {
            cat_count(s, c)
        } else {
            keep
        },
        cat_count(keep_partition(s, keep).0, c) <= keep,
    decreases s.len(),
{
    lemma_cat_count_nonneg(s, c);
    if s.len() == 0 {
    } else {
        let t = s.drop_last();
        let x = s.last();
        lemma_keep_partition_count(t, keep, c);
        lemma_cat_count_nonneg(t, c);
        let (k, e) = keep_partition(t, keep);
        if cat_count(t, x.node_type) < keep {
            assert(keep_partition(s, keep).0 == k.push(x));
            assert(k.push(x).drop_last() =~= k);
            assert(k.push(x).last() == x);
        } else {
            assert(keep_partition(s, keep).0 == k);
        }
    }
}

/// Category counts are never negative.
pub proof fn lemma_cat_count_nonneg(s: Seq<SnapView>, c: NodeType)
    ensures
        cat_count(s, c) >= 0,
        cat_count(s, c) <= s.len(),
    decreases s.len(),
{
    if s.len() == 0 {
    } else {
        lemma_cat_count_nonneg(s.drop_last(), c);
    }
}

/// Whether some entry already carries this file name.
pub open spec fn has_name(s: Seq<SnapView>, name: Seq<char>) -> bool {
    exists|i: int| 0 <= i < s.len() && s[i].file_name == name
}

/// Record a fresh publication in the catalog: append the entry, re-sort the
/// whole set newest first (stable, so equal timestamps keep their insertion
/// order), then retain at most `keep` entries per category. Returns the
/// updated catalog together with the evicted records, both in the sorted
/// walk order; the caller deletes the evicted artifacts only after
/// persisting the updated catalog, so the catalog never points at a deleted
/// object. A name collision reports `DuplicateEntry` and leaves the catalog
/// untouched.
pub fn record_publication(catalog: &Metadata, entry: Snapshot, keep: usize) -> (r: Result<
    (Metadata, Vec<Snapshot>),
    PipelineError,
>)
    ensures
        r is Err <==> has_name(catalog@, entry@.file_name),
        match r {
            Err(e) => e == PipelineError::DuplicateEntry,
            Ok((updated, evicted)) => {
                &&& updated@ == keep_partition(sort_desc(catalog@.push(entry@)), keep as int).0
                &&& views(evicted@) == keep_partition(
                    sort_desc(catalog@.push(entry@)),
                    keep as int,
                ).1
                &&& sorted_desc(updated@)
                &&& sorted_desc(views(evicted@))
                &&& forall|c: NodeType| cat_count(updated@, c) <= keep as int
                &&& names_unique(catalog@) ==> names_unique(updated@) && names_unique(
                    views(evicted@),
                )
            },
        },
{
    let n = catalog.snapshots.len();
    let mut i: usize = 0;
    while i < n
        invariant
            n == catalog.snapshots.len(),
            0 <= i <= n,
            forall|k: int| 0 <= k < i ==> catalog@[k].file_name != entry@.file_name,
        decreases n - i,
    {
        if catalog.snapshots[i].file_name == entry.file_name {
            proof {
                assert(catalog@[i as int].file_name == entry@.file_name);
            }
            return Err(PipelineError::DuplicateEntry);
        }
        i += 1;
    }
    proof {
        assert(!has_name(catalog@, entry@.file_name));
    }

    // Stable insertion sort of the full entry set, newest first.
    let ghost all: Seq<SnapView> = catalog@.push(entry@);
    let mut sorted: Vec<Snapshot> = Vec::new();
    let mut i: usize = 0;
    while i < n
        invariant
            n == catalog.snapshots.len(),
            0 <= i <= n,
            views(sorted@) == sort_desc(catalog@.take(i as int)),
            sorted_desc(views(sorted@)),
        decreases n - i,
    {
        let x = catalog.snapshots[i].duplicate();
        insert_sorted(&mut sorted, x);
        proof {
            assert(catalog@.take(i + 1).drop_last() =~= catalog@.take(i as int));
            assert(catalog@.take(i + 1).last() == catalog@[i as int]);
        }
        i += 1;
    }
    proof {
        assert(catalog@.take(n as int) =~= catalog@);
    }
    insert_sorted(&mut sorted, entry);
    proof {
        assert(all.drop_last() =~= catalog@);
        assert(all.last() == entry@);
        assert(views(sorted@) == sort_desc(all));
        lemma_sort_desc_sorted(all);
    }

    // Retention fold: keep the first `keep` entries of each category.
    let ghost sv: Seq<SnapView> = views(sorted@);
    let mut kept: Vec<Snapshot> = Vec::new();
    let mut evicted: Vec<Snapshot> = Vec::new();
    let mut b_count: usize = 0;
    let mut r_count: usize = 0;
    let mut i: usize = 0;
    while i < sorted.len()
        invariant
            sv == views(sorted@),
            0 <= i <= sorted.len(),
            b_count <= i,
            r_count <= i,
            b_count as int == cat_count(sv.take(i as int), NodeType::Beacond),
            r_count as int == cat_count(sv.take(i as int), NodeType::Reth),
            views(kept@) == keep_partition(sv.take(i as int), keep as int).0,
            views(evicted@) == keep_partition(sv.take(i as int), keep as int).1,
        decreases sorted.len() - i,
    {
        let x = sorted[i].duplicate();
        proof {
            assert(x@ == sv[i as int]);
            assert(sv.take(i + 1).drop_last() =~= sv.take(i as int));
            assert(sv.take(i + 1).last() == sv[i as int]);
            assert(x.node_type is Beacond || x.node_type is Reth);
        }
        let cnt = if x.node_type == NodeType::Beacond {
            b_count
        } else {
            r_count
        };
        proof {
            assert(cnt as int == cat_count(sv.take(i as int), x@.node_type));
        }
        let is_beacond = x.node_type == NodeType::Beacond;
        if cnt < keep {
            let ghost old_kept = views(kept@);
            kept.push(x);
            proof {
                assert(views(kept@) =~= old_kept.push(sv[i as int]));
            }
        } else {
            let ghost old_evicted = views(evicted@);
            evicted.push(x);
            proof {
                assert(views(evicted@) =~= old_evicted.push(sv[i as int]));
            }
        }
        if is_beacond {
            b_count += 1;
        } else {
            r_count += 1;
        }
        i += 1;
    }
    proof {
        assert(sv.take(sorted.len() as int) =~= sv);
    }
    let updated = Metadata { snapshots: kept };
    proof {
        lemma_keep_partition_sorted(sv, keep as int);
        assert forall|c: NodeType| cat_count(updated@, c) <= keep as int by {
            lemma_keep_partition_count(sv, keep as int, c);
        }
        if names_unique(catalog@) {
            lemma_record_publication_unique_names(catalog@, entry@, keep as int);
        }
    }
    Ok((updated, evicted))
}

/// The retained part of a descending sequence is itself descending.
pub proof fn lemma_keep_partition_sorted(s: Seq<SnapView>, keep: int)
    requires
        sorted_desc(s),
    ensures
        sorted_desc(keep_partition(s, keep).0),
        sorted_desc(keep_partition(s, keep).1),
    decreases s.len(),
{
    if s.len() == 0 {
    } else {
        let t = s.drop_last();
        assert(sorted_desc(t));
        lemma_keep_partition_sorted(t, keep);
        lemma_keep_partition_members(t, keep);
        let (k, e) = keep_partition(t, keep);
        let x = s.last();
        assert(forall|i: int| 0 <= i < t.len() ==> t[i].created_at >= x.created_at);
        if cat_count(t, x.node_type) < keep {
            assert forall|i: int, j: int|
                0 <= i < j < k.push(x).len() implies k.push(x)[i].created_at
                >= k.push(x)[j].created_at by {
                if j < k.len() {
                } else {
                    assert(k.push(x)[j] == x);
                }
            }
        } else {
            assert forall|i: int, j: int|
                0 <= i < j < e.push(x).len() implies e.push(x)[i].created_at
                >= e.push(x)[j].created_at by {
                if j < e.len() {
                } else {
                    assert(e.push(x)[j] == x);
                }
            }
        }
    }
}

/// Every entry of either partition comes from the input sequence.
pub proof fn lemma_keep_partition_members(s: Seq<SnapView>, keep: int)
    ensures
        forall|i: int|
            0 <= i < keep_partition(s, keep).0.len() ==> exists|j: int|
                0 <= j < s.len() && #[trigger] keep_partition(s, keep).0[i] == s[j],
        forall|i: int|
            0 <= i < keep_partition(s, keep).1.len() ==> exists|j: int|
                0 <= j < s.len() && #[trigger] keep_partition(s, keep).1[i] == s[j],
    decreases s.len(),
{
    if s.len() == 0 {
    } else {
        let t = s.drop_last();
        lemma_keep_partition_members(t, keep);
        assert(forall|j: int| 0 <= j < t.len() ==> t[j] == s[j]);
        let (k, e) = keep_partition(t, keep);
        let x = s.last();
        if cat_count(t, x.node_type) < keep {
            assert forall|i: int| 0 <= i < k.push(x).len() implies exists|j: int|
                0 <= j < s.len() && #[trigger] k.push(x)[i] == s[j] by {
                if i < k.len() {
                    let j = choose|j: int| 0 <= j < t.len() && k[i] == t[j];
                    assert(k.push(x)[i] == s[j]);
                } else {
                    assert(k.push(x)[i] == s[s.len() - 1]);
                }
            }
        } else {
            assert forall|i: int| 0 <= i < e.push(x).len() implies exists|j: int|
                0 <= j < s.len() && #[trigger] e.push(x)[i] == s[j] by {
                if i < e.len() {
                    let j = choose|j: int| 0 <= j < t.len() && e[i] == t[j];
                    assert(e.push(x)[i] == s[j]);
                } else {
                    assert(e.push(x)[i] == s[s.len() - 1]);
                }
            }
        }
    }
}

/// Insert a record into a descending vector, after every entry at least as
/// new, so that the result is the stable insertion `insert_desc`.
fn insert_sorted(v: &mut Vec<Snapshot>, x: Snapshot)
    requires
        sorted_desc(views(old(v)@)),
    ensures
        views(final(v)@) == insert_desc(views(old(v)@), x@),
        sorted_desc(views(final(v)@)),
{
    let n = v.len();
    let mut j: usize = 0;
    while j < n && v[j].created_at >= x.created_at
        invariant
            n == v.len(),
            0 <= j <= n,
            *v == *old(v),
            forall|k: int| 0 <= k < j ==> (#[trigger] v@[k])@.created_at >= x@.created_at,
        decreases n - j,
    {
        j += 1;
    }
    proof {
        let s = views(v@);
        lemma_insert_desc_at(s, x@, j as int);
        lemma_insert_desc_sorted(s, x@);
    }
    v.insert(j, x);
    proof {
        assert(views(v@) =~= views(old(v)@).subrange(0, j as int) + seq![x@] + views(
            old(v)@,
        ).subrange(j as int, views(old(v)@).len() as int));
    }
}

/// Stable insertion adds exactly the new record to the catalog's contents.
pub proof fn lemma_insert_desc_multiset(s: Seq<SnapView>, x: SnapView)
    ensures
        insert_desc(s, x).to_multiset() == s.to_multiset().insert(x),
    decreases s.len(),
{
    broadcast use vstd::seq_lib::group_to_multiset_ensures;
    broadcast use vstd::multiset::group_multiset_axioms;

    if s.len() == 0 {
        assert(seq![x] =~= Seq::<SnapView>::empty().push(x));
        assert(Seq::<SnapView>::empty().to_multiset() =~= Multiset::<SnapView>::empty());
        assert(insert_desc(s, x).to_multiset() =~= s.to_multiset().insert(x));
    } else if s.first().created_at >= x.created_at {
        lemma_insert_desc_multiset(s.drop_first(), x);
        vstd::seq_lib::lemma_multiset_commutative(seq![s.first()], insert_desc(s.drop_first(), x));
        assert(s =~= seq![s.first()] + s.drop_first());
        vstd::seq_lib::lemma_multiset_commutative(seq![s.first()], s.drop_first());
        assert(insert_desc(s, x).to_multiset() =~= s.to_multiset().insert(x));
    } else {
        assert(insert_desc(s, x) == seq![x] + s);
        vstd::seq_lib::lemma_multiset_commutative(seq![x], s);
        assert(seq![x] =~= Seq::<SnapView>::empty().push(x));
        assert(insert_desc(s, x).to_multiset() =~= s.to_multiset().insert(x));
    }
}

/// Sorting permutes: the sorted catalog holds exactly the input records.
pub proof fn lemma_sort_desc_multiset(s: Seq<SnapView>)
    ensures
        sort_desc(s).to_multiset() == s.to_multiset(),
    decreases s.len(),
{
    broadcast use vstd::seq_lib::group_to_multiset_ensures;
    broadcast use vstd::multiset::group_multiset_axioms;

    if s.len() == 0 {
    } else {
        lemma_sort_desc_multiset(s.drop_last());
        lemma_insert_desc_multiset(sort_desc(s.drop_last()), s.last());
        assert(s =~= s.drop_last().push(s.last()));
        assert(sort_desc(s).to_multiset() =~= s.to_multiset());
    }
}

/// The retention fold splits and loses nothing: retained and evicted
/// records together are exactly the input.
pub proof fn lemma_keep_partition_multiset(s: Seq<SnapView>, keep: int)
    ensures
        keep_partition(s, keep).0.to_multiset().add(keep_partition(s, keep).1.to_multiset())
            == s.to_multiset(),
    decreases s.len(),
{
    broadcast use vstd::seq_lib::group_to_multiset_ensures;
    broadcast use vstd::multiset::group_multiset_axioms;

    if s.len() == 0 {
        assert(Seq::<SnapView>::empty().to_multiset() =~= Multiset::<SnapView>::empty());
        assert(keep_partition(s, keep).0.to_multiset().add(
            keep_partition(s, keep).1.to_multiset(),
        ) =~= s.to_multiset());
    } else {
        lemma_keep_partition_multiset(s.drop_last(), keep);
        assert(s =~= s.drop_last().push(s.last()));
        assert(keep_partition(s, keep).0.to_multiset().add(
            keep_partition(s, keep).1.to_multiset(),
        ) =~= s.to_multiset());
    }
}

/// What `record_publication` promises of its two results, taken together:
/// the updated catalog and the evicted records are, between them, exactly
/// the previous catalog plus the new entry — nothing is invented, lost, or
/// duplicated by sorting and retention.
pub proof fn lemma_record_publication_permutation(s: Seq<SnapView>, entry: SnapView, keep: int)
    ensures
        keep_partition(sort_desc(s.push(entry)), keep).0.to_multiset().add(
            keep_partition(sort_desc(s.push(entry)), keep).1.to_multiset(),
        ) == s.push(entry).to_multiset(),
{
    lemma_sort_desc_multiset(s.push(entry));
    lemma_keep_partition_multiset(sort_desc(s.push(entry)), keep);
}


/// How many entries carry this file name.
pub open spec fn name_count(s: Seq<SnapView>, name: Seq<char>) -> int
    decreases s.len(),
{
    if s.len() == 0 {
        0
    } else {
        name_count(s.drop_last(), name) + if s.last().file_name == name {
            1int
        } else {
            0int
        }
    }
}

/// Pairwise distinct file names: the catalog invariant.
pub open spec fn names_unique(s: Seq<SnapView>) -> bool {
    forall|i: int, j: int| 0 <= i < j < s.len() ==> s[i].file_name != s[j].file_name
}

pub proof fn lemma_name_count_nonneg(s: Seq<SnapView>, name: Seq<char>)
    ensures
        0 <= name_count(s, name) <= s.len(),
    decreases s.len(),
{
    if s.len() == 0 {
    } else {
        lemma_name_count_nonneg(s.drop_last(), name);
    }
}

pub proof fn lemma_name_count_concat(a: Seq<SnapView>, b: Seq<SnapView>, name: Seq<char>)
    ensures
        name_count(a + b, name) == name_count(a, name) + name_count(b, name),
    decreases b.len(),
{
    if b.len() == 0 {
        assert(a + b =~= a);
    } else {
        lemma_name_count_concat(a, b.drop_last(), name);
        assert((a + b).drop_last() =~= a + b.drop_last());
        assert((a + b).last() == b.last());
    }
}

/// An entry at some index makes its name's count positive.
pub proof fn lemma_index_count_ge_one(s: Seq<SnapView>, i: int, name: Seq<char>)
    requires
        0 <= i < s.len(),
        s[i].file_name == name,
    ensures
        name_count(s, name) >= 1,
    decreases s.len(),
{
    lemma_name_count_nonneg(s.drop_last(), name);
    if i < s.len() - 1 {
        lemma_index_count_ge_one(s.drop_last(), i, name);
    }
}

/// Two entries of one name make its count at least two.
pub proof fn lemma_two_indices_count_ge_two(s: Seq<SnapView>, i: int, j: int, name: Seq<char>)
    requires
        0 <= i < j < s.len(),
        s[i].file_name == name,
        s[j].file_name == name,
    ensures
        name_count(s, name) >= 2,
    decreases s.len(),
{
    if j == s.len() - 1 {
        lemma_index_count_ge_one(s.drop_last(), i, name);
    } else {
        lemma_two_indices_count_ge_two(s.drop_last(), i, j, name);
        lemma_name_count_nonneg(s, name);
    }
}

/// A name no entry carries has count zero.
pub proof fn lemma_no_match_count_zero(s: Seq<SnapView>, name: Seq<char>)
    requires
        forall|i: int| 0 <= i < s.len() ==> (#[trigger] s[i]).file_name != name,
    ensures
        name_count(s, name) == 0,
    decreases s.len(),
{
    if s.len() == 0 {
    } else {
        assert(forall|i: int|
            0 <= i < s.drop_last().len() ==> (#[trigger] s.drop_last()[i]).file_name != name);
        lemma_no_match_count_zero(s.drop_last(), name);
    }
}

/// Under the uniqueness invariant every name's count is at most one.
pub proof fn lemma_unique_count_le_one(s: Seq<SnapView>, name: Seq<char>)
    requires
        names_unique(s),
    ensures
        name_count(s, name) <= 1,
    decreases s.len(),
{
    if s.len() == 0 {
    } else {
        let t = s.drop_last();
        assert(names_unique(t));
        lemma_unique_count_le_one(t, name);
        if s.last().file_name == name {
            assert(forall|i: int| 0 <= i < t.len() ==> (#[trigger] t[i]).file_name != name);
            lemma_no_match_count_zero(t, name);
        }
    }
}

/// Counts at most one everywhere mean pairwise distinct names.
pub proof fn lemma_count_le_one_unique(s: Seq<SnapView>)
    requires
        forall|name: Seq<char>| #[trigger] name_count(s, name) <= 1,
    ensures
        names_unique(s),
{
    assert forall|i: int, j: int| 0 <= i < j < s.len() implies s[i].file_name
        != s[j].file_name by {
        if s[i].file_name == s[j].file_name {
            lemma_two_indices_count_ge_two(s, i, j, s[i].file_name);
        }
    }
}

/// Stable insertion adds exactly one entry of the new record's name.
pub proof fn lemma_insert_desc_name_count(s: Seq<SnapView>, x: SnapView, name: Seq<char>)
    ensures
        name_count(insert_desc(s, x), name) == name_count(s, name) + if x.file_name == name {
            1int
        } else {
            0int
        },
    decreases s.len(),
{
    reveal_with_fuel(name_count, 3);
    if s.len() == 0 {
        assert(seq![x].drop_last() =~= Seq::<SnapView>::empty());
    } else if s.first().created_at >= x.created_at {
        lemma_insert_desc_name_count(s.drop_first(), x, name);
        lemma_name_count_concat(seq![s.first()], insert_desc(s.drop_first(), x), name);
        assert(s =~= seq![s.first()] + s.drop_first());
        lemma_name_count_concat(seq![s.first()], s.drop_first(), name);
        assert(seq![s.first()].drop_last() =~= Seq::<SnapView>::empty());
    } else {
        assert(insert_desc(s, x) == seq![x] + s);
        lemma_name_count_concat(seq![x], s, name);
        assert(seq![x].drop_last() =~= Seq::<SnapView>::empty());
    }
}

/// Sorting never changes a name's count.
pub proof fn lemma_sort_desc_name_count(s: Seq<SnapView>, name: Seq<char>)
    ensures
        name_count(sort_desc(s), name) == name_count(s, name),
    decreases s.len(),
{
    if s.len() == 0 {
    } else {
        lemma_sort_desc_name_count(s.drop_last(), name);
        lemma_insert_desc_name_count(sort_desc(s.drop_last()), s.last(), name);
    }
}

/// The retention fold splits each name's count between its two parts.
pub proof fn lemma_keep_partition_name_count(s: Seq<SnapView>, keep: int, name: Seq<char>)
    ensures
        name_count(keep_partition(s, keep).0, name) + name_count(keep_partition(s, keep).1, name)
            == name_count(s, name),
    decreases s.len(),
{
    if s.len() == 0 {
    } else {
        lemma_keep_partition_name_count(s.drop_last(), keep, name);
        let (k, e) = keep_partition(s.drop_last(), keep);
        let x = s.last();
        if cat_count(s.drop_last(), x.node_type) < keep {
            assert(k.push(x).drop_last() =~= k);
            assert(k.push(x).last() == x);
        } else {
            assert(e.push(x).drop_last() =~= e);
            assert(e.push(x).last() == x);
        }
    }
}

/// The catalog invariant is preserved: recording an entry whose name is
/// fresh in a catalog of pairwise distinct names leaves both the retained
/// and the evicted records pairwise distinct.
pub proof fn lemma_record_publication_unique_names(s: Seq<SnapView>, entry: SnapView, keep: int)
    requires
        names_unique(s),
        !has_name(s, entry.file_name),
    ensures
        names_unique(keep_partition(sort_desc(s.push(entry)), keep).0),
        names_unique(keep_partition(sort_desc(s.push(entry)), keep).1),
{
    let all = s.push(entry);
    let sorted = sort_desc(all);
    let kept = keep_partition(sorted, keep).0;
    let evicted = keep_partition(sorted, keep).1;
    assert forall|name: Seq<char>| #[trigger] name_count(kept, name) <= 1 by {
        lemma_all_count_le_one(s, entry, name);
        lemma_sort_desc_name_count(all, name);
        lemma_keep_partition_name_count(sorted, keep, name);
        lemma_name_count_nonneg(kept, name);
        lemma_name_count_nonneg(evicted, name);
    }
    assert forall|name: Seq<char>| #[trigger] name_count(evicted, name) <= 1 by {
        lemma_all_count_le_one(s, entry, name);
        lemma_sort_desc_name_count(all, name);
        lemma_keep_partition_name_count(sorted, keep, name);
        lemma_name_count_nonneg(kept, name);
        lemma_name_count_nonneg(evicted, name);
    }
    lemma_count_le_one_unique(kept);
    lemma_count_le_one_unique(evicted);
}

/// With the new entry's name fresh, the appended sequence still has no
/// name counted twice.
pub proof fn lemma_all_count_le_one(s: Seq<SnapView>, entry: SnapView, name: Seq<char>)
    requires
        names_unique(s),
        !has_name(s, entry.file_name),
    ensures
        name_count(s.push(entry), name) <= 1,
{
    let all = s.push(entry);
    assert(all.drop_last() =~= s);
    assert(all.last() == entry);
    lemma_unique_count_le_one(s, name);
    if entry.file_name == name {
        assert(forall|i: int| 0 <= i < s.len() ==> (#[trigger] s[i]).file_name != name);
        lemma_no_match_count_zero(s, name);
    }
}


/// One category's entries, in sequence order.
pub open spec fn of_category(s: Seq<SnapView>, c: NodeType) -> Seq<SnapView> {
    s.filter(|v: SnapView| v.node_type == c)
}

/// `cat_count` counts exactly the category's subsequence.
pub proof fn lemma_cat_count_is_filter_len(s: Seq<SnapView>, c: NodeType)
    ensures
        cat_count(s, c) == of_category(s, c).len(),
    decreases s.len(),
{
    reveal(Seq::filter);
    if s.len() == 0 {
    } else {
        lemma_cat_count_is_filter_len(s.drop_last(), c);
    }
}

/// Retention keeps, for each category, exactly the first `keep` of that
/// category's entries in sequence order — on a descending sequence, the
/// `keep` most recent, ties resolved by the stable order.
pub proof fn lemma_keep_partition_exact(s: Seq<SnapView>, keep: int, c: NodeType)
    requires
        keep >= 0,
    ensures
        of_category(keep_partition(s, keep).0, c) == of_category(s, c).take(
            if cat_count(s, c) < keep {
                cat_count(s, c)
            } else {
                keep
            },
        ),
    decreases s.len(),
{
    reveal(Seq::filter);
    lemma_cat_count_nonneg(s, c);
    lemma_cat_count_is_filter_len(s, c);
    if s.len() == 0 {
        assert(of_category(s, c).take(0) =~= of_category(s, c));
    } else {
        let t = s.drop_last();
        let x = s.last();
        lemma_keep_partition_exact(t, keep, c);
        lemma_cat_count_nonneg(t, c);
        lemma_cat_count_nonneg(t, x.node_type);
        lemma_cat_count_is_filter_len(t, c);
        let kt = keep_partition(t, keep).0;
        let cnt_t = cat_count(t, c);
        if cat_count(t, x.node_type) < keep {
            assert(keep_partition(s, keep).0 == kt.push(x));
            assert(kt.push(x).drop_last() =~= kt);
            assert(kt.push(x).last() == x);
            if x.node_type == c {
                assert(of_category(kt.push(x), c) == of_category(kt, c).push(x));
                assert(of_category(s, c) == of_category(t, c).push(x));
                assert(cnt_t < keep);
                assert(of_category(t, c).take(cnt_t) =~= of_category(t, c));
                assert(of_category(t, c).push(x).take(cnt_t + 1) =~= of_category(t, c).push(x));
            } else {
                assert(of_category(kt.push(x), c) == of_category(kt, c));
                assert(of_category(s, c) == of_category(t, c));
            }
        } else {
            assert(keep_partition(s, keep).0 == kt);
            if x.node_type == c {
                assert(cnt_t >= keep);
                assert(of_category(s, c) == of_category(t, c).push(x));
                assert(of_category(t, c).push(x).take(keep) =~= of_category(t, c).take(keep));
            } else {
                assert(of_category(s, c) == of_category(t, c));
            }
        }
    }
}

} // verus!
