use vstd::prelude::*;

use crate::catalog::Metadata;
use crate::catalog::SnapView;
use crate::catalog::Snapshot;
use crate::catalog::views;
use crate::clock::parse_rfc3339;
use crate::clock::rfc3339_val;
use crate::node_type::NodeType;
use crate::text::dec_str;
use crate::text::dec_val;
use crate::text::digit_val;
use crate::text::is_digit;
use crate::text::lemma_dec_canonical;
use crate::text::lemma_dec_prefix_bound;
use crate::text::lemma_dec_str_digits;
use crate::text::lemma_digit_codepoints;
use crate::text::is_json_plain;
use crate::text::plain_char;
use crate::text::json_plain;
use crate::text::u64_to_dec;
use crate::uploader::UploadSession;

verus! {

use vstd::string::StrSliceExecFns;
use vstd::string::StringExecFns;

/// A record that can stand in a catalog document: its texts need no JSON
/// escaping, and its timestamp text denotes exactly its `created_at`.
pub open spec fn wf_record(v: SnapView) -> bool {
    &&& json_plain(v.file_name)
    &&& json_plain(v.sha256)
    &&& json_plain(v.upload_time)
    &&& match rfc3339_val(v.upload_time) {
        Some(t) => v.created_at == t as int,
        None => false,
    }
}

/// Every record of the catalog can stand in a document.
pub open spec fn wf_catalog(s: Seq<SnapView>) -> bool {
    forall|i: int| 0 <= i < s.len() ==> wf_record(#[trigger] s[i])
}

/// The canonical document text of one record.
pub open spec fn spec_encode_record(v: SnapView) -> Seq<char> {
    "{\"fileName\":\""@ + v.file_name + "\",\"sha256\":\""@ + v.sha256 + "\",\"category\":\""@
        + v.node_type.spec_tag() + "\",\"uploadTime\":\""@ + v.upload_time + "\"}"@
}

/// The canonical document text of a record sequence, comma-separated.
pub open spec fn spec_encode_records(s: Seq<SnapView>) -> Seq<char>
    decreases s.len(),
{
    if s.len() == 0 {
        Seq::<char>::empty()
    } else if s.len() == 1 {
        spec_encode_record(s[0])
    } else {
        spec_encode_records(s.drop_last()) + ","@ + spec_encode_record(s.last())
    }
}

/// The canonical catalog document: the whole-file text the store persists
/// and reads back. Read-modify-write cycles round-trip it exactly.
pub open spec fn spec_encode_catalog(s: Seq<SnapView>) -> Seq<char> {
    "{\"entries\":["@ + spec_encode_records(s) + "]}"@
}

/// The canonical document text of a persisted upload session.
pub open spec fn spec_encode_session(url: Seq<char>, off: int) -> Seq<char> {
    "{\"url\":\""@ + url + "\",\"committedOffset\":"@ + dec_str(off) + "}"@
}

fn append_record(out: &mut String, snap: &Snapshot)
    ensures
        final (out)@ == old(out)@ + spec_encode_record(snap@),
{
    out.append("{\"fileName\":\"");
    out.append(snap.file_name.as_str());
    out.append("\",\"sha256\":\"");
    out.append(snap.sha256.as_str());
    out.append("\",\"category\":\"");
    out.append(snap.node_type.as_str());
    out.append("\",\"uploadTime\":\"");
    out.append(snap.upload_time.as_str());
    out.append("\"}");
    proof {
        assert(out@ =~= old(out)@ + spec_encode_record(snap@));
    }
}

/// Write the catalog as its canonical document text.
pub fn encode_catalog(md: &Metadata) -> (r: String)
    ensures
        r@ == spec_encode_catalog(md@),
{
    let mut out = String::from_str("{\"entries\":[");
    let ghost views: Seq<SnapView> = md@;
    let mut i: usize = 0;
    while i < md.snapshots.len()
        invariant
            views == md@,
            0 <= i <= md.snapshots@.len(),
            views.len() == md.snapshots@.len(),
            out@ == "{\"entries\":["@ + spec_encode_records(views.take(i as int)),
        decreases md.snapshots@.len() - i,
    {
        if i > 0 {
            out.append(",");
        }
        append_record(&mut out, &md.snapshots[i]);
        proof {
            assert(views.take(i + 1).drop_last() =~= views.take(i as int));
            assert(views.take(i + 1).last() == views[i as int]);
            assert(views.take(i + 1)[0] == views[0]);
            if i == 0 {
                assert(out@ =~= "{\"entries\":["@ + spec_encode_records(views.take(1)));
            } else {
                assert(out@ =~= "{\"entries\":["@ + spec_encode_records(views.take(i + 1)));
            }
        }
        i += 1;
    }
    proof {
        assert(views.take(views.len() as int) =~= views);
    }
    out.append("]}");
    proof {
        assert(out@ =~= spec_encode_catalog(md@));
    }
    out
}

/// Write an upload session as its canonical document text.
pub fn encode_session(sess: &UploadSession) -> (r: String)
    ensures
        r@ == spec_encode_session(sess.url@, sess.committed_offset as int),
{
    let mut out = String::from_str("{\"url\":\"");
    out.append(sess.url.as_str());
    out.append("\",\"committedOffset\":");
    let dec = u64_to_dec(sess.committed_offset);
    out.append(dec.as_str());
    out.append("}");
    proof {
        assert(out@ =~= spec_encode_session(sess.url@, sess.committed_offset as int));
    }
    out
}

/// Strip the exact text of `lit` from the front of `s`: the remainder when
/// it stands there, nothing otherwise — and never nothing when it does.
fn strip_lit<'a>(s: &'a str, lit: &str) -> (r: Option<&'a str>)
    ensures
        r matches Some(t) ==> s@ == lit@ + t@,
        forall|rest: Seq<char>| s@ == lit@ + rest ==> (r matches Some(t) && t@ == rest),
{
    let n = lit.unicode_len();
    let sn = s.unicode_len();
    if sn < n {
        proof {
            assert forall|rest: Seq<char>| s@ != lit@ + rest by {
                assert((lit@ + rest).len() == lit@.len() + rest.len());
            }
        }
        return None;
    }
    let mut i: usize = 0;
    while i < n
        invariant
            n == lit@.len(),
            sn == s@.len(),
            0 <= i <= n,
            n <= sn,
            forall|k: int| 0 <= k < i ==> s@[k] == lit@[k],
        decreases n - i,
    {
        if s.get_char(i) != lit.get_char(i) {
            proof {
                assert forall|rest: Seq<char>| s@ != lit@ + rest by {
                    if s@ == lit@ + rest {
                        assert((lit@ + rest)[i as int] == lit@[i as int]);
                    }
                }
            }
            return None;
        }
        i += 1;
    }
    let t = s.substring_char(n, sn);
    proof {
        assert(s@ =~= lit@ + t@);
        assert forall|rest: Seq<char>| s@ == lit@ + rest implies t@ == rest by {
            assert((lit@ + t@).len() == lit@.len() + t@.len());
            assert((lit@ + rest).len() == lit@.len() + rest.len());
            assert(t@ =~= rest) by {
                assert forall|k: int| 0 <= k < t@.len() implies t@[k] == rest[k] by {
                    assert((lit@ + t@)[lit@.len() + k] == t@[k]);
                    assert((lit@ + rest)[lit@.len() + k] == rest[k]);
                }
            }
        }
    }
    Some(t)
}

/// Strip a string body and its closing quote from the front of `s`; the
/// body must need no JSON escaping. Exactly the texts of the form
/// `body + '"' + rest` with a plain body are accepted, and split uniquely.
fn strip_string<'a>(s: &'a str) -> (r: Option<(String, &'a str)>)
    ensures
        r matches Some(p) ==> json_plain(p.0@) && s@ == p.0@ + seq!['"'] + p.1@,
        forall|body: Seq<char>, rest: Seq<char>|
            (json_plain(body) && s@ == body + seq!['"'] + rest) ==> (r matches Some(p) && p.0@
                == body && p.1@ == rest),
{
    let sn = s.unicode_len();
    let mut j: usize = 0;
    while j < sn && s.get_char(j) != '"'
        invariant
            sn == s@.len(),
            0 <= j <= sn,
            forall|k: int| 0 <= k < j ==> s@[k] != '"',
        decreases sn - j,
    {
        j += 1;
    }
    proof {
        assert forall|body: Seq<char>, rest: Seq<char>|
            (json_plain(body) && s@ == body + seq!['"'] + rest) implies body.len() == j
            && j < sn by {
            assert(((body + seq!['"']) + rest).len() == (body + seq!['"']).len() + rest.len());
            assert((body + seq!['"']).len() == body.len() + 1);
            assert(s@[body.len() as int] == ((body + seq!['"']) + rest)[body.len() as int]);
            assert(s@[body.len() as int] == '"');
            if body.len() < j {
                assert(s@[body.len() as int] != '"');
            }
            if body.len() > j {
                assert(j < s@.len());
                assert(s@[j as int] == ((body + seq!['"']) + rest)[j as int]);
                assert(s@[j as int] == body[j as int]);
                assert(plain_char(body[j as int]));
            }
        }
    }
    if j == sn {
        return None;
    }
    let body = s.substring_char(0, j);
    if !is_json_plain(body) {
        proof {
            assert forall|b: Seq<char>, rest: Seq<char>|
                !(json_plain(b) && s@ == b + seq!['"'] + rest) by {
                if json_plain(b) && s@ == b + seq!['"'] + rest {
                    assert(b =~= body@) by {
                        assert forall|k: int| 0 <= k < j implies b[k] == body@[k] by {
                            assert(((b + seq!['"']) + rest)[k] == b[k]);
                        }
                    }
                }
            }
        }
        return None;
    }
    let rest = s.substring_char(j + 1, sn);
    proof {
        assert(s@ =~= body@ + seq!['"'] + rest@);
        assert forall|b: Seq<char>, r2: Seq<char>|
            (json_plain(b) && s@ == b + seq!['"'] + r2) implies b == body@ && r2 == rest@ by {
            assert(b =~= body@) by {
                assert forall|k: int| 0 <= k < j implies b[k] == body@[k] by {
                    assert(((b + seq!['"']) + r2)[k] == b[k]);
                    assert(((body@ + seq!['"']) + rest@)[k] == body@[k]);
                }
            }
            assert(r2 =~= rest@) by {
                assert(((b + seq!['"']) + r2).len() == b.len() + 1 + r2.len());
                assert(((body@ + seq!['"']) + rest@).len() == body@.len() + 1 + rest@.len());
                assert forall|k: int| 0 <= k < r2.len() implies r2[k] == rest@[k] by {
                    assert(((b + seq!['"']) + r2)[j + 1 + k] == r2[k]);
                    assert(((body@ + seq!['"']) + rest@)[j + 1 + k] == rest@[k]);
                }
            }
        }
    }
    Some((String::from_str(body), rest))
}

/// Category tags are plain text.
pub proof fn lemma_tag_plain(c: NodeType)
    ensures
        json_plain(c.spec_tag()),
{
    reveal_strlit("beacond");
    reveal_strlit("reth");
    assert(c is Beacond || c is Reth);
    assert(json_plain("beacond"@)) by {
        assert forall|i: int| 0 <= i < ("beacond"@).len() implies plain_char(("beacond"@)[i]) by {
            assert(("beacond"@).len() == 7);
        }
    }
    assert(json_plain("reth"@)) by {
        assert forall|i: int| 0 <= i < ("reth"@).len() implies plain_char(("reth"@)[i]) by {
            assert(("reth"@).len() == 4);
        }
    }
}

/// A record's text followed by a remainder, regrouped field by field: each
/// string, its closing quote, then the next fixed key text.
pub proof fn lemma_record_decompose(v: SnapView, rest: Seq<char>)
    ensures
        spec_encode_record(v) + rest == "{\"fileName\":\""@ + (v.file_name + seq!['"']
            + (",\"sha256\":\""@ + (v.sha256 + seq!['"'] + (",\"category\":\""@
            + (v.node_type.spec_tag() + seq!['"'] + (",\"uploadTime\":\""@ + (v.upload_time
            + seq!['"'] + ("}"@ + rest)))))))),
{
    assert("\",\"sha256\":\""@ =~= seq!['"'] + ",\"sha256\":\""@) by {
        reveal_strlit("\",\"sha256\":\"");
        reveal_strlit(",\"sha256\":\"");
    }
    assert("\",\"category\":\""@ =~= seq!['"'] + ",\"category\":\""@) by {
        reveal_strlit("\",\"category\":\"");
        reveal_strlit(",\"category\":\"");
    }
    assert("\",\"uploadTime\":\""@ =~= seq!['"'] + ",\"uploadTime\":\""@) by {
        reveal_strlit("\",\"uploadTime\":\"");
        reveal_strlit(",\"uploadTime\":\"");
    }
    assert("\"}"@ =~= seq!['"'] + "}"@) by {
        reveal_strlit("\"}");
        reveal_strlit("}");
    }
    assert(spec_encode_record(v) + rest =~= "{\"fileName\":\""@ + (v.file_name + seq!['"']
        + (",\"sha256\":\""@ + (v.sha256 + seq!['"'] + (",\"category\":\""@
        + (v.node_type.spec_tag() + seq!['"'] + (",\"uploadTime\":\""@ + (v.upload_time
        + seq!['"'] + ("}"@ + rest)))))))));
}

/// Strip one record's canonical text from the front of `s`. Exactly the
/// texts that open with a well-formed record's encoding are accepted, and
/// the record and remainder they split into are unique.
#[verifier::rlimit(100)]
fn strip_record<'a>(s: &'a str) -> (r: Option<(Snapshot, &'a str)>)
    ensures
        r matches Some(p) ==> wf_record(p.0@) && s@ == spec_encode_record(p.0@) + p.1@,
        forall|v: SnapView, rest: Seq<char>|
            (wf_record(v) && s@ == spec_encode_record(v) + rest) ==> (r matches Some(p) && p.0@
                == v && p.1@ == rest),
{
    let t0 = match strip_lit(s, "{\"fileName\":\"") {
        Some(t) => t,
        None => {
            proof {
                assert forall|v: SnapView, rest: Seq<char>|
                    !(wf_record(v) && s@ == spec_encode_record(v) + rest) by {
                    if wf_record(v) && s@ == spec_encode_record(v) + rest {
                        lemma_record_decompose(v, rest);
                        lemma_tag_plain(v.node_type);
                    }
                }
            }
            return None;
        },
    };
    let (file_name, t1) = match strip_string(t0) {
        Some(p) => p,
        None => {
            proof {
                assert forall|v: SnapView, rest: Seq<char>|
                    !(wf_record(v) && s@ == spec_encode_record(v) + rest) by {
                    if wf_record(v) && s@ == spec_encode_record(v) + rest {
                        lemma_record_decompose(v, rest);
                        lemma_tag_plain(v.node_type);
                    }
                }
            }
            return None;
        },
    };
    let t2 = match strip_lit(t1, ",\"sha256\":\"") {
        Some(t) => t,
        None => {
            proof {
                assert forall|v: SnapView, rest: Seq<char>|
                    !(wf_record(v) && s@ == spec_encode_record(v) + rest) by {
                    if wf_record(v) && s@ == spec_encode_record(v) + rest {
                        lemma_record_decompose(v, rest);
                        lemma_tag_plain(v.node_type);
                    }
                }
            }
            return None;
        },
    };
    let (sha256, t3) = match strip_string(t2) {
        Some(p) => p,
        None => {
            proof {
                assert forall|v: SnapView, rest: Seq<char>|
                    !(wf_record(v) && s@ == spec_encode_record(v) + rest) by {
                    if wf_record(v) && s@ == spec_encode_record(v) + rest {
                        lemma_record_decompose(v, rest);
                        lemma_tag_plain(v.node_type);
                    }
                }
            }
            return None;
        },
    };
    let t4 = match strip_lit(t3, ",\"category\":\"") {
        Some(t) => t,
        None => {
            proof {
                assert forall|v: SnapView, rest: Seq<char>|
                    !(wf_record(v) && s@ == spec_encode_record(v) + rest) by {
                    if wf_record(v) && s@ == spec_encode_record(v) + rest {
                        lemma_record_decompose(v, rest);
                        lemma_tag_plain(v.node_type);
                    }
                }
            }
            return None;
        },
    };
    let (tag, t5) = match strip_string(t4) {
        Some(p) => p,
        None => {
            proof {
                assert forall|v: SnapView, rest: Seq<char>|
                    !(wf_record(v) && s@ == spec_encode_record(v) + rest) by {
                    if wf_record(v) && s@ == spec_encode_record(v) + rest {
                        lemma_record_decompose(v, rest);
                        lemma_tag_plain(v.node_type);
                    }
                }
            }
            return None;
        },
    };
    let node_type = match NodeType::from_tag(&tag) {
        Some(c) => c,
        None => {
            proof {
                assert forall|v: SnapView, rest: Seq<char>|
                    !(wf_record(v) && s@ == spec_encode_record(v) + rest) by {
                    if wf_record(v) && s@ == spec_encode_record(v) + rest {
                        lemma_record_decompose(v, rest);
                        lemma_tag_plain(v.node_type);
                    }
                }
            }
            return None;
        },
    };
    let t6 = match strip_lit(t5, ",\"uploadTime\":\"") {
        Some(t) => t,
        None => {
            proof {
                assert forall|v: SnapView, rest: Seq<char>|
                    !(wf_record(v) && s@ == spec_encode_record(v) + rest) by {
                    if wf_record(v) && s@ == spec_encode_record(v) + rest {
                        lemma_record_decompose(v, rest);
                        lemma_tag_plain(v.node_type);
                    }
                }
            }
            return None;
        },
    };
    let (upload_time, t7) = match strip_string(t6) {
        Some(p) => p,
        None => {
            proof {
                assert forall|v: SnapView, rest: Seq<char>|
                    !(wf_record(v) && s@ == spec_encode_record(v) + rest) by {
                    if wf_record(v) && s@ == spec_encode_record(v) + rest {
                        lemma_record_decompose(v, rest);
                        lemma_tag_plain(v.node_type);
                    }
                }
            }
            return None;
        },
    };
    let created_at = match parse_rfc3339(upload_time.as_str()) {
        Some(t) => t,
        None => {
            proof {
                assert forall|v: SnapView, rest: Seq<char>|
                    !(wf_record(v) && s@ == spec_encode_record(v) + rest) by {
                    if wf_record(v) && s@ == spec_encode_record(v) + rest {
                        lemma_record_decompose(v, rest);
                        lemma_tag_plain(v.node_type);
                    }
                }
            }
            return None;
        },
    };
    let rest = match strip_lit(t7, "}") {
        Some(t) => t,
        None => {
            proof {
                assert forall|v: SnapView, rest: Seq<char>|
                    !(wf_record(v) && s@ == spec_encode_record(v) + rest) by {
                    if wf_record(v) && s@ == spec_encode_record(v) + rest {
                        lemma_record_decompose(v, rest);
                        lemma_tag_plain(v.node_type);
                    }
                }
            }
            return None;
        },
    };
    let snap = Snapshot { file_name, sha256, node_type, created_at, upload_time };
    proof {
        lemma_record_decompose(snap@, rest@);
        assert(s@ == spec_encode_record(snap@) + rest@);
        assert forall|v: SnapView, r2: Seq<char>|
            (wf_record(v) && s@ == spec_encode_record(v) + r2) implies snap@ == v && rest@
            == r2 by {
            lemma_record_decompose(v, r2);
            lemma_tag_plain(v.node_type);
            NodeType::lemma_tag_injective(v.node_type, snap@.node_type);
            assert(snap@ =~= v);
        }
    }
    Some((snap, rest))
}

/// Strip a non-empty, comma-separated record list from the front of `s`,
/// as many records as the commas carry. Exactly the texts of the form
/// `records + rest` with `rest` not opening with a comma are accepted, and
/// split uniquely.
#[verifier::rlimit(100)]
fn strip_records<'a>(s: &'a str) -> (r: Option<(Vec<Snapshot>, &'a str)>)
    ensures
        r matches Some(p) ==> {
            &&& wf_catalog(views(p.0@))
            &&& p.0@.len() >= 1
            &&& s@ == spec_encode_records(views(p.0@)) + p.1@
            &&& (p.1@.len() == 0 || p.1@[0] != ',')
        },
        forall|vs: Seq<SnapView>, rest: Seq<char>|
            (vs.len() >= 1 && wf_catalog(vs) && s@ == spec_encode_records(vs) + rest && (rest.len()
                == 0 || rest[0] != ',')) ==> (r matches Some(p) && views(p.0@) == vs && p.1@
                == rest),
    decreases s@.len(),
{
    let first = match strip_record(s) {
        Some(p) => p,
        None => {
            proof {
                assert forall|vs: Seq<SnapView>, rest: Seq<char>|
                    !(vs.len() >= 1 && wf_catalog(vs) && s@ == spec_encode_records(vs) + rest && (
                    rest.len() == 0 || rest[0] != ',')) by {
                    if vs.len() >= 1 && wf_catalog(vs) && s@ == spec_encode_records(vs) + rest {
                        lemma_records_head(vs, rest, s@);
                    }
                }
            }
            return None;
        },
    };
    let snap = first.0;
    let t = first.1;
    let tn = t.unicode_len();
    if tn > 0 && t.get_char(0) == ',' {
        let t2 = t.substring_char(1, tn);
        proof {
            reveal_strlit(",");
            assert(t@ =~= ","@ + t2@);
            lemma_encode_record_opens(snap@);
            assert(s@.len() == spec_encode_record(snap@).len() + t@.len());
        }
        let more = match strip_records(t2) {
            Some(p) => p,
            None => {
                proof {
                    assert forall|vs: Seq<SnapView>, rest: Seq<char>|
                        !(vs.len() >= 1 && wf_catalog(vs) && s@ == spec_encode_records(vs) + rest
                            && (rest.len() == 0 || rest[0] != ',')) by {
                        if vs.len() >= 1 && wf_catalog(vs) && s@ == spec_encode_records(vs) + rest
                            && (rest.len() == 0 || rest[0] != ',') {
                            lemma_records_head(vs, rest, s@);
                            lemma_records_head(vs, rest, s@);
                assert(snap@ == vs[0] && t@ == records_tail(vs, rest));
                            if vs.len() == 1 {
                                assert(t@ == rest);
                                assert(t@[0] == ',');
                                assert(false);
                            }
                            assert(t@ == ","@ + (spec_encode_records(vs.drop_first()) + rest));
                            lemma_strip_prefix(
                                ","@,
                                t2@,
                                spec_encode_records(vs.drop_first()) + rest,
                            );
                            assert(wf_catalog(vs.drop_first()));
                        }
                    }
                }
                return None;
            },
        };
        let mut records = more.0;
        let rem = more.1;
        records.insert(0, snap);
        proof {
            assert(views(records@) =~= seq![snap@] + views(records@.subrange(
                1,
                records@.len() as int,
            )));
            assert(records@.subrange(1, records@.len() as int) =~= more.0@);
            let vs2 = views(records@);
            assert(vs2[0] == snap@);
            assert(vs2.drop_first() =~= views(more.0@));
            lemma_encode_records_front(vs2);
            assert(s@ =~= spec_encode_records(vs2) + rem@) by {
                assert(s@ == spec_encode_record(snap@) + (","@ + (spec_encode_records(
                    views(more.0@),
                ) + rem@)));
                assert((spec_encode_record(vs2[0]) + ","@ + spec_encode_records(
                    vs2.drop_first(),
                )) + rem@ =~= spec_encode_record(snap@) + (","@ + (spec_encode_records(
                    views(more.0@),
                ) + rem@)));
            }
            assert forall|vs: Seq<SnapView>, rest: Seq<char>|
                (vs.len() >= 1 && wf_catalog(vs) && s@ == spec_encode_records(vs) + rest && (
                rest.len() == 0 || rest[0] != ',')) implies views(records@) == vs && rem@
                == rest by {
                lemma_records_head(vs, rest, s@);
                assert(snap@ == vs[0] && t@ == records_tail(vs, rest));
                if vs.len() == 1 {
                    assert(t@ == rest);
                    assert(t@[0] == ',');
                    assert(false);
                }
                assert(t@ == ","@ + (spec_encode_records(vs.drop_first()) + rest));
                lemma_strip_prefix(","@, t2@, spec_encode_records(vs.drop_first()) + rest);
                assert(wf_catalog(vs.drop_first()));
                assert(views(more.0@) == vs.drop_first() && rem@ == rest);
                assert(views(records@) =~= vs);
            }
        }
        Some((records, rem))
    } else {
        let mut records: Vec<Snapshot> = Vec::new();
        records.push(snap);
        proof {
            assert(views(records@) =~= seq![snap@]);
            assert(views(records@).len() == 1);
            assert(views(records@)[0] == snap@);
            assert(spec_encode_records(views(records@)) == spec_encode_record(snap@));
            assert(wf_catalog(views(records@)));
            assert forall|vs: Seq<SnapView>, rest: Seq<char>|
                (vs.len() >= 1 && wf_catalog(vs) && s@ == spec_encode_records(vs) + rest && (
                rest.len() == 0 || rest[0] != ',')) implies views(records@) == vs && t@ == rest by {
                lemma_records_head(vs, rest, s@);
                assert(snap@ == vs[0] && t@ == records_tail(vs, rest));
                if vs.len() > 1 {
                    reveal_strlit(",");
                    assert(t@ == ","@ + (spec_encode_records(vs.drop_first()) + rest));
                    assert(t@[0] == ',');
                    assert(t@.len() > 0);
                    assert(false);
                }
                assert(views(records@) =~= vs);
            }
        }
        Some((records, t))
    }
}

/// The head view of a non-empty record list's text: the first record's
/// encoding, then the list's tail text.
pub proof fn lemma_records_head(vs: Seq<SnapView>, rest: Seq<char>, s: Seq<char>)
    requires
        vs.len() >= 1,
        wf_catalog(vs),
        s == spec_encode_records(vs) + rest,
    ensures
        wf_record(vs[0]),
        s == spec_encode_record(vs[0]) + records_tail(vs, rest),
{
    lemma_encode_records_front(vs);
    if vs.len() > 1 {
        assert((spec_encode_record(vs[0]) + ","@ + spec_encode_records(vs.drop_first())) + rest
            =~= spec_encode_record(vs[0]) + (","@ + (spec_encode_records(vs.drop_first())
            + rest)));
    }
}

/// What follows the first record of a non-empty record list: either the
/// remainder itself, or a comma and the remaining records.
pub open spec fn records_tail(vs: Seq<SnapView>, rest: Seq<char>) -> Seq<char> {
    if vs.len() == 1 {
        rest
    } else {
        ","@ + (spec_encode_records(vs.drop_first()) + rest)
    }
}

/// Read a catalog document. Exactly the canonical texts are accepted: the
/// result is the well-formed catalog whose canonical text the input is —
/// there is only one, and it is never missed — while every other text,
/// malformed, foreign or non-canonical, comes back as `None`, never as an
/// error. A document written by another serializer (pretty-printed, keys
/// reordered) is not canonical and therefore reads as the empty catalog:
/// the same degrade-to-fresh policy that covers corrupt documents. Only
/// documents this crate's encoder wrote round-trip.
#[verifier::rlimit(100)]
pub fn parse_catalog(s: &str) -> (r: Option<Metadata>)
    ensures
        r matches Some(md) ==> wf_catalog(md@) && s@ == spec_encode_catalog(md@),
        forall|vs: Seq<SnapView>|
            (wf_catalog(vs) && s@ == spec_encode_catalog(vs)) ==> (r matches Some(md) && md@
                == vs),
{
    proof {
        assert forall|vs: Seq<SnapView>|
            (wf_catalog(vs) && s@ == spec_encode_catalog(vs)) implies s@ == "{\"entries\":["@ + (
        spec_encode_records(vs) + "]}"@) by {
            assert("{\"entries\":["@ + spec_encode_records(vs) + "]}"@ =~= "{\"entries\":["@ + (
            spec_encode_records(vs) + "]}"@));
        }
    }
    let t = match strip_lit(s, "{\"entries\":[") {
        Some(t) => t,
        None => {
            proof {
                assert forall|vs: Seq<SnapView>|
                    !(wf_catalog(vs) && s@ == spec_encode_catalog(vs)) by {}
            }
            return None;
        },
    };
    let tn = t.unicode_len();
    if tn > 0 && t.get_char(0) == ']' {
        proof {
            reveal_strlit("]}");
        }
        let q = match strip_lit(t, "]}") {
            Some(q) => q,
            None => {
                proof {
                    assert forall|vs: Seq<SnapView>|
                        !(wf_catalog(vs) && s@ == spec_encode_catalog(vs)) by {
                        if wf_catalog(vs) && s@ == spec_encode_catalog(vs) {
                            lemma_nonempty_records_open(vs, t@);
                            assert(t@ =~= "]}"@ + Seq::<char>::empty());
                        }
                    }
                }
                return None;
            },
        };
        if q.unicode_len() != 0 {
            proof {
                assert forall|vs: Seq<SnapView>|
                    !(wf_catalog(vs) && s@ == spec_encode_catalog(vs)) by {
                    if wf_catalog(vs) && s@ == spec_encode_catalog(vs) {
                        lemma_nonempty_records_open(vs, t@);
                        assert(t@ =~= "]}"@ + Seq::<char>::empty());
                    }
                }
            }
            return None;
        }
        let md = Metadata { snapshots: Vec::new() };
        proof {
            assert(md@ =~= Seq::<SnapView>::empty());
            assert(t@ =~= "]}"@ + q@);
            assert(t@ =~= "]}"@);
            assert(spec_encode_records(md@) + "]}"@ =~= "]}"@);
            assert(s@ =~= spec_encode_catalog(md@));
            assert forall|vs: Seq<SnapView>|
                (wf_catalog(vs) && s@ == spec_encode_catalog(vs)) implies md@ == vs by {
                lemma_nonempty_records_open(vs, t@);
                assert(vs =~= md@);
            }
        }
        return Some(md);
    }
    proof {
        reveal_strlit("]}");
        assert forall|vs: Seq<SnapView>|
            (wf_catalog(vs) && s@ == spec_encode_catalog(vs)) implies vs.len() >= 1 by {
            if vs.len() == 0 {
                assert(t@ == spec_encode_records(vs) + "]}"@);
                assert(t@ =~= "]}"@);
                assert(t@[0] == ']');
            }
        }
    }
    let body = match strip_records(t) {
        Some(p) => p,
        None => {
            proof {
                reveal_strlit("]}");
                assert forall|vs: Seq<SnapView>|
                    !(wf_catalog(vs) && s@ == spec_encode_catalog(vs)) by {
                    if wf_catalog(vs) && s@ == spec_encode_catalog(vs) {
                        assert(t@ == spec_encode_records(vs) + "]}"@);
                        assert(("]}"@)[0] == ']');
                    }
                }
            }
            return None;
        },
    };
    let snapshots = body.0;
    let rem = body.1;
    let q = match strip_lit(rem, "]}") {
        Some(q) => q,
        None => {
            proof {
                reveal_strlit("]}");
                assert forall|vs: Seq<SnapView>|
                    !(wf_catalog(vs) && s@ == spec_encode_catalog(vs)) by {
                    if wf_catalog(vs) && s@ == spec_encode_catalog(vs) {
                        assert(t@ == spec_encode_records(vs) + "]}"@);
                        assert(("]}"@)[0] == ']');
                        assert(rem@ == "]}"@);
                        assert(rem@ =~= "]}"@ + Seq::<char>::empty());
                    }
                }
            }
            return None;
        },
    };
    if q.unicode_len() != 0 {
        proof {
            reveal_strlit("]}");
            assert forall|vs: Seq<SnapView>|
                !(wf_catalog(vs) && s@ == spec_encode_catalog(vs)) by {
                if wf_catalog(vs) && s@ == spec_encode_catalog(vs) {
                    assert(t@ == spec_encode_records(vs) + "]}"@);
                    assert(("]}"@)[0] == ']');
                    assert(rem@ == "]}"@);
                    assert(("]}"@ + q@).len() == ("]}"@).len() + q@.len());
                }
            }
        }
        return None;
    }
    let md = Metadata { snapshots };
    proof {
        assert(rem@ =~= "]}"@ + q@);
        assert(rem@ =~= "]}"@);
        assert(s@ =~= spec_encode_catalog(md@)) by {
            assert(t@ == spec_encode_records(md@) + rem@);
            assert("{\"entries\":["@ + (spec_encode_records(md@) + "]}"@) =~= spec_encode_catalog(
                md@,
            ));
        }
        assert forall|vs: Seq<SnapView>|
            (wf_catalog(vs) && s@ == spec_encode_catalog(vs)) implies md@ == vs by {
            reveal_strlit("]}");
            assert(t@ == spec_encode_records(vs) + "]}"@);
            assert(("]}"@)[0] == ']');
            assert(md@ == vs);
        }
    }
    Some(md)
}

/// A non-empty record list's text opens with a brace, so an empty-list
/// document whose body opens with the closing bracket carries no records.
pub proof fn lemma_nonempty_records_open(vs: Seq<SnapView>, t: Seq<char>)
    requires
        t == spec_encode_records(vs) + "]}"@,
        t.len() > 0,
        t[0] == ']',
    ensures
        vs.len() == 0,
        t == "]}"@,
{
    reveal_strlit("]}");
    if vs.len() > 0 {
        lemma_encode_records_front(vs);
        lemma_encode_record_opens(vs[0]);
        assert(t[0] == spec_encode_records(vs)[0]);
        if vs.len() == 1 {
            assert(spec_encode_records(vs)[0] == spec_encode_record(vs[0])[0]);
        } else {
            assert(spec_encode_records(vs)[0] == (spec_encode_record(vs[0]) + ","@
                + spec_encode_records(vs.drop_first()))[0]);
            assert(spec_encode_records(vs)[0] == spec_encode_record(vs[0])[0]);
        }
        assert(false);
    }
    assert(t =~= "]}"@);
}

/// A session document's text regrouped: the url, its closing quote, the
/// offset key, the digits, the closing brace.
pub proof fn lemma_session_decompose(url: Seq<char>, off: int)
    ensures
        spec_encode_session(url, off) == "{\"url\":\""@ + (url + seq!['"']
            + (",\"committedOffset\":"@ + (dec_str(off) + "}"@))),
{
    assert("\",\"committedOffset\":"@ =~= seq!['"'] + ",\"committedOffset\":"@) by {
        reveal_strlit("\",\"committedOffset\":");
        reveal_strlit(",\"committedOffset\":");
    }
    assert(spec_encode_session(url, off) =~= "{\"url\":\""@ + (url + seq!['"']
        + (",\"committedOffset\":"@ + (dec_str(off) + "}"@))));
}

/// Strip a canonical decimal number from the front of `s`: digits up to
/// the first non-digit, no leading zero, value within `u64`. Exactly the
/// texts of the form `dec_str(n) + rest` with `rest` not opening with a
/// digit are accepted, and split uniquely.
#[verifier::rlimit(100)]
fn strip_u64<'a>(s: &'a str) -> (r: Option<(u64, &'a str)>)
    ensures
        r matches Some(p) ==> s@ == dec_str(p.0 as int) + p.1@ && (p.1@.len() == 0 || !is_digit(
            p.1@[0],
        )),
        forall|n: u64, rest: Seq<char>|
            (s@ == dec_str(n as int) + rest && (rest.len() == 0 || !is_digit(rest[0]))) ==> (
            r matches Some(p) && p.0 == n && p.1@ == rest),
{
    let sn = s.unicode_len();
    let mut j: usize = 0;
    while j < sn && '0' <= s.get_char(j) && s.get_char(j) <= '9'
        invariant
            sn == s@.len(),
            0 <= j <= sn,
            forall|k: int| 0 <= k < j ==> is_digit(#[trigger] s@[k]),
        decreases sn - j,
    {
        proof {
            lemma_digit_codepoints();
        }
        j += 1;
    }
    proof {
        lemma_digit_codepoints();
        assert(j < sn ==> !is_digit(s@[j as int]));
        assert forall|n: u64, rest: Seq<char>|
            (s@ == dec_str(n as int) + rest && (rest.len() == 0 || !is_digit(rest[0]))) implies (
        dec_str(n as int).len() == j && s@.subrange(0, j as int) == dec_str(n as int) && rest
            == s@.skip(j as int)) by {
            lemma_dec_str_digits(n as int);
            let d = dec_str(n as int);
            assert((d + rest).len() == d.len() + rest.len());
            assert(forall|k: int| 0 <= k < d.len() ==> s@[k] == (d + rest)[k] && s@[k] == d[k]);
            if d.len() > j {
                assert(j < sn);
                assert(is_digit(d[j as int]));
                assert(is_digit(s@[j as int]));
            }
            if d.len() < j {
                assert(s@[d.len() as int] == rest[0]);
                assert(is_digit(s@[d.len() as int]));
                assert(rest.len() > 0);
            }
            assert(d.len() == j);
            assert(s@.subrange(0, j as int) =~= d);
            assert(rest =~= s@.skip(j as int)) by {
                assert forall|k: int| 0 <= k < rest.len() implies rest[k] == s@.skip(j as int)[k]
                    by {
                    assert((d + rest)[d.len() + k] == rest[k]);
                }
            }
        }
    }
    if j == 0 {
        proof {
            assert forall|n: u64, rest: Seq<char>|
                !(s@ == dec_str(n as int) + rest && (rest.len() == 0 || !is_digit(rest[0]))) by {
                if s@ == dec_str(n as int) + rest && (rest.len() == 0 || !is_digit(rest[0])) {
                    lemma_dec_str_digits(n as int);
                }
            }
        }
        return None;
    }
    if j > 1 && s.get_char(0) == '0' {
        proof {
            assert forall|n: u64, rest: Seq<char>|
                !(s@ == dec_str(n as int) + rest && (rest.len() == 0 || !is_digit(rest[0]))) by {
                if s@ == dec_str(n as int) + rest && (rest.len() == 0 || !is_digit(rest[0])) {
                    lemma_dec_str_digits(n as int);
                    assert(dec_str(n as int)[0] == s@[0]);
                    assert(n as int == 0);
                    assert(dec_str(0).len() == 1);
                }
            }
        }
        return None;
    }
    let mut v: u64 = 0;
    let mut i: usize = 0;
    while i < j
        invariant
            sn == s@.len(),
            0 <= i <= j,
            1 <= j <= sn,
            forall|k: int| 0 <= k < j ==> is_digit(#[trigger] s@[k]),
            j > 1 ==> s@[0] != '0',
            v as int == dec_val(s@.subrange(0, i as int)),
            forall|n: u64, rest: Seq<char>|
                (s@ == dec_str(n as int) + rest && (rest.len() == 0 || !is_digit(rest[0]))) ==> (
                dec_str(n as int).len() == j && s@.subrange(0, j as int) == dec_str(n as int)
                    && rest == s@.skip(j as int)),
        decreases j - i,
    {
        let c = s.get_char(i);
        let d = (c as u32 - '0' as u32) as u64;
        proof {
            lemma_digit_codepoints();
            assert(is_digit(s@[i as int]));
            assert(d as int == digit_val(s@[i as int]));
            assert(s@.subrange(0, i + 1).drop_last() =~= s@.subrange(0, i as int));
            assert(s@.subrange(0, i + 1).last() == s@[i as int]);
            assert(dec_val(s@.subrange(0, i + 1)) == (v as int) * 10 + d as int);
        }
        if v > (u64::MAX - d) / 10 {
            proof {
                let vi = v as int;
                let di = d as int;
                let mi = u64::MAX as int;
                assert(vi * 10 + di > mi) by (nonlinear_arith)
                    requires
                        vi > (mi - di) / 10,
                        0 <= di < 10,
                        vi >= 0,
                        mi >= 10,
                ;
                assert forall|n: u64, rest: Seq<char>|
                    !(s@ == dec_str(n as int) + rest && (rest.len() == 0 || !is_digit(rest[0])))
                    by {
                    if s@ == dec_str(n as int) + rest && (rest.len() == 0 || !is_digit(rest[0])) {
                        lemma_dec_prefix_bound(n as int, i + 1);
                        assert(dec_val(dec_str(n as int).take(i + 1)) <= n as int);
                        assert(dec_str(n as int).take(i + 1) =~= s@.subrange(0, i + 1));
                    }
                }
            }
            return None;
        }
        v = v * 10 + d;
        i += 1;
    }
    let rest = s.substring_char(j, sn);
    proof {
        let scanned = s@.subrange(0, j as int);
        assert(forall|k: int| 0 <= k < scanned.len() ==> is_digit(#[trigger] scanned[k]));
        lemma_dec_canonical(scanned);
        assert(scanned == dec_str(v as int));
        assert(s@ =~= scanned + rest@);
        lemma_dec_str_digits(v as int);
        assert(rest@.len() == 0 || !is_digit(rest@[0])) by {
            if j < sn {
                assert(rest@[0] == s@[j as int]);
            }
        }
        assert forall|n: u64, rest2: Seq<char>|
            (s@ == dec_str(n as int) + rest2 && (rest2.len() == 0 || !is_digit(rest2[0])))
            implies v == n && rest@ == rest2 by {
            assert(dec_str(n as int) == s@.subrange(0, j as int));
            lemma_dec_str_digits(n as int);
            assert(dec_val(dec_str(n as int)) == n as int);
            assert(dec_val(dec_str(v as int)) == v as int);
            assert(rest2 == s@.skip(j as int));
            assert(rest@ =~= s@.skip(j as int));
        }
    }
    Some((v, rest))
}

/// Read a persisted upload-session document. Exactly the canonical texts
/// are accepted — the session they denote is unique and never missed —
/// while anything else is `None`, the signal to start the transfer afresh.
#[verifier::rlimit(100)]
pub fn parse_session(s: &str) -> (r: Option<UploadSession>)
    ensures
        r matches Some(sess) ==> json_plain(sess.url@) && s@ == spec_encode_session(
            sess.url@,
            sess.committed_offset as int,
        ),
        forall|url: Seq<char>, off: u64|
            (json_plain(url) && s@ == spec_encode_session(url, off as int)) ==> (r matches Some(
                sess,
            ) && sess.url@ == url && sess.committed_offset == off),
{
    proof {
        assert forall|url: Seq<char>, off: u64|
            (json_plain(url) && s@ == spec_encode_session(url, off as int)) implies s@
            == "{\"url\":\""@ + (url + seq!['"'] + (",\"committedOffset\":"@ + (dec_str(
            off as int,
        ) + "}"@))) by {
            lemma_session_decompose(url, off as int);
        }
    }
    let t0 = match strip_lit(s, "{\"url\":\"") {
        Some(t) => t,
        None => {
            proof {
                assert forall|url: Seq<char>, off: u64|
                    !(json_plain(url) && s@ == spec_encode_session(url, off as int)) by {}
            }
            return None;
        },
    };
    let (url, t1) = match strip_string(t0) {
        Some(p) => p,
        None => {
            proof {
                assert forall|url: Seq<char>, off: u64|
                    !(json_plain(url) && s@ == spec_encode_session(url, off as int)) by {}
            }
            return None;
        },
    };
    let t2 = match strip_lit(t1, ",\"committedOffset\":") {
        Some(t) => t,
        None => {
            proof {
                assert forall|url: Seq<char>, off: u64|
                    !(json_plain(url) && s@ == spec_encode_session(url, off as int)) by {}
            }
            return None;
        },
    };
    let (committed_offset, t3) = match strip_u64(t2) {
        Some(p) => p,
        None => {
            proof {
                lemma_digit_codepoints();
                reveal_strlit("}");
                assert forall|url: Seq<char>, off: u64|
                    !(json_plain(url) && s@ == spec_encode_session(url, off as int)) by {
                    if json_plain(url) && s@ == spec_encode_session(url, off as int) {
                        assert(("}"@)[0] == '}');
                        assert(!is_digit('}'));
                    }
                }
            }
            return None;
        },
    };
    let t4 = match strip_lit(t3, "}") {
        Some(t) => t,
        None => {
            proof {
                lemma_digit_codepoints();
                reveal_strlit("}");
                assert forall|url: Seq<char>, off: u64|
                    !(json_plain(url) && s@ == spec_encode_session(url, off as int)) by {
                    if json_plain(url) && s@ == spec_encode_session(url, off as int) {
                        assert(("}"@)[0] == '}');
                        assert(!is_digit('}'));
                        assert(t3@ == "}"@);
                        assert(t3@ =~= "}"@ + Seq::<char>::empty());
                    }
                }
            }
            return None;
        },
    };
    if t4.unicode_len() != 0 {
        proof {
            lemma_digit_codepoints();
            reveal_strlit("}");
            assert forall|url: Seq<char>, off: u64|
                !(json_plain(url) && s@ == spec_encode_session(url, off as int)) by {
                if json_plain(url) && s@ == spec_encode_session(url, off as int) {
                    assert(("}"@)[0] == '}');
                    assert(!is_digit('}'));
                    assert(t3@ == "}"@);
                    assert(("}"@ + t4@).len() == ("}"@).len() + t4@.len());
                    assert(t3@.len() == ("}"@).len());
                }
            }
        }
        return None;
    }
    let sess = UploadSession { url, committed_offset };
    proof {
        lemma_session_decompose(sess.url@, sess.committed_offset as int);
        assert(t3@ =~= "}"@ + t4@);
        assert(t3@ =~= "}"@);
        assert(s@ == spec_encode_session(sess.url@, sess.committed_offset as int)) by {
            assert(t2@ == dec_str(sess.committed_offset as int) + t3@);
        }
        lemma_digit_codepoints();
        reveal_strlit("}");
        assert forall|url2: Seq<char>, off2: u64|
            (json_plain(url2) && s@ == spec_encode_session(url2, off2 as int)) implies sess.url@
            == url2 && sess.committed_offset == off2 by {
            assert(("}"@)[0] == '}');
            assert(!is_digit('}'));
        }
    }
    Some(sess)
}

/// No character of `s` is a quote.
pub open spec fn quote_free(s: Seq<char>) -> bool {
    forall|i: int| 0 <= i < s.len() ==> (#[trigger] s[i]) != '"'
}

/// Plain text never holds a quote.
pub proof fn lemma_plain_quote_free(s: Seq<char>)
    requires
        json_plain(s),
    ensures
        quote_free(s),
{
}

/// A quote-delimited split is unique: equal texts that each consist of a
/// quote-free part, a quote, and a remainder agree on both parts.
pub proof fn lemma_quote_split(a1: Seq<char>, b1: Seq<char>, a2: Seq<char>, b2: Seq<char>)
    requires
        quote_free(a1),
        quote_free(a2),
        a1 + seq!['"'] + b1 == a2 + seq!['"'] + b2,
    ensures
        a1 == a2,
        b1 == b2,
{
    let s = a1 + seq!['"'] + b1;
    if a1.len() < a2.len() {
        assert(s[a1.len() as int] == '"');
        assert((a2 + seq!['"'] + b2)[a1.len() as int] == a2[a1.len() as int]);
        assert(false);
    }
    if a2.len() < a1.len() {
        assert(s[a2.len() as int] == a1[a2.len() as int]);
        assert((a2 + seq!['"'] + b2)[a2.len() as int] == '"');
        assert(false);
    }
    assert(a1 =~= a2) by {
        assert forall|i: int| 0 <= i < a1.len() implies a1[i] == a2[i] by {
            assert(s[i] == a1[i]);
            assert((a2 + seq!['"'] + b2)[i] == a2[i]);
        }
    }
    let t1 = a1 + seq!['"'];
    let t2 = a2 + seq!['"'];
    assert(t1.len() == a1.len() + 1);
    assert(t2.len() == a2.len() + 1);
    assert((t1 + b1).len() == t1.len() + b1.len());
    assert((t2 + b2).len() == t2.len() + b2.len());
    assert(t1 + b1 == t2 + b2);
    assert(b1.len() == b2.len());
    assert(b1 =~= b2) by {
        assert forall|i: int| 0 <= i < b1.len() implies b1[i] == b2[i] by {
            assert(t1 + b1 == t2 + b2);
            assert((t1 + b1)[t1.len() + i] == b1[i]);
            assert((t2 + b2)[t2.len() + i] == b2[i]);
        }
    }
}

/// Equal texts with one fixed opening stay equal after it.
pub proof fn lemma_strip_prefix(p: Seq<char>, r1: Seq<char>, r2: Seq<char>)
    requires
        p + r1 == p + r2,
    ensures
        r1 == r2,
{
    assert((p + r1).len() == p.len() + r1.len());
    assert((p + r2).len() == p.len() + r2.len());
    assert(r1.len() == r2.len());
    assert(r1 =~= r2) by {
        assert forall|i: int| 0 <= i < r1.len() implies r1[i] == r2[i] by {
            assert((p + r1)[p.len() + i] == r1[i]);
            assert((p + r2)[p.len() + i] == r2[i]);
        }
    }
}

/// A record's canonical text determines the record: equal texts that both
/// start with a well-formed record's encoding carry the same record and
/// the same remainder.
#[verifier::rlimit(100)]
pub proof fn lemma_encode_record_injective(
    v1: SnapView,
    rest1: Seq<char>,
    v2: SnapView,
    rest2: Seq<char>,
)
    requires
        wf_record(v1),
        wf_record(v2),
        spec_encode_record(v1) + rest1 == spec_encode_record(v2) + rest2,
    ensures
        v1 == v2,
        rest1 == rest2,
{
    let l1 = "{\"fileName\":\""@;
    let m2 = ",\"sha256\":\""@;
    let m3 = ",\"category\":\""@;
    let m4 = ",\"uploadTime\":\""@;
    let m5 = "}"@;
    assert("\",\"sha256\":\""@ =~= seq!['"'] + m2) by {
        reveal_strlit("\",\"sha256\":\"");
        reveal_strlit(",\"sha256\":\"");
    }
    assert("\",\"category\":\""@ =~= seq!['"'] + m3) by {
        reveal_strlit("\",\"category\":\"");
        reveal_strlit(",\"category\":\"");
    }
    assert("\",\"uploadTime\":\""@ =~= seq!['"'] + m4) by {
        reveal_strlit("\",\"uploadTime\":\"");
        reveal_strlit(",\"uploadTime\":\"");
    }
    assert("\"}"@ =~= seq!['"'] + m5) by {
        reveal_strlit("\"}");
        reveal_strlit("}");
    }
    let w1 = m5 + rest1;
    let u1 = m4 + v1.upload_time + seq!['"'] + w1;
    let z1 = m3 + v1.node_type.spec_tag() + seq!['"'] + u1;
    let y1 = m2 + v1.sha256 + seq!['"'] + z1;
    let x1 = v1.file_name + seq!['"'] + y1;
    let w2 = m5 + rest2;
    let u2 = m4 + v2.upload_time + seq!['"'] + w2;
    let z2 = m3 + v2.node_type.spec_tag() + seq!['"'] + u2;
    let y2 = m2 + v2.sha256 + seq!['"'] + z2;
    let x2 = v2.file_name + seq!['"'] + y2;
    assert(spec_encode_record(v1) + rest1 =~= l1 + x1);
    assert(spec_encode_record(v2) + rest2 =~= l1 + x2);
    lemma_strip_prefix(l1, x1, x2);
    lemma_plain_quote_free(v1.file_name);
    lemma_plain_quote_free(v2.file_name);
    lemma_quote_split(v1.file_name, y1, v2.file_name, y2);
    assert(y1 =~= m2 + (v1.sha256 + seq!['"'] + z1));
    assert(y2 =~= m2 + (v2.sha256 + seq!['"'] + z2));
    lemma_strip_prefix(m2, v1.sha256 + seq!['"'] + z1, v2.sha256 + seq!['"'] + z2);
    lemma_plain_quote_free(v1.sha256);
    lemma_plain_quote_free(v2.sha256);
    lemma_quote_split(v1.sha256, z1, v2.sha256, z2);
    assert(z1 =~= m3 + (v1.node_type.spec_tag() + seq!['"'] + u1));
    assert(z2 =~= m3 + (v2.node_type.spec_tag() + seq!['"'] + u2));
    lemma_strip_prefix(
        m3,
        v1.node_type.spec_tag() + seq!['"'] + u1,
        v2.node_type.spec_tag() + seq!['"'] + u2,
    );
    lemma_tag_plain(v1.node_type);
    lemma_tag_plain(v2.node_type);
    lemma_plain_quote_free(v1.node_type.spec_tag());
    lemma_plain_quote_free(v2.node_type.spec_tag());
    lemma_quote_split(v1.node_type.spec_tag(), u1, v2.node_type.spec_tag(), u2);
    NodeType::lemma_tag_injective(v1.node_type, v2.node_type);
    assert(u1 =~= m4 + (v1.upload_time + seq!['"'] + w1));
    assert(u2 =~= m4 + (v2.upload_time + seq!['"'] + w2));
    lemma_strip_prefix(m4, v1.upload_time + seq!['"'] + w1, v2.upload_time + seq!['"'] + w2);
    lemma_plain_quote_free(v1.upload_time);
    lemma_plain_quote_free(v2.upload_time);
    lemma_quote_split(v1.upload_time, w1, v2.upload_time, w2);
    lemma_strip_prefix(m5, rest1, rest2);
    assert(v1.created_at == v2.created_at);
    assert(v1 =~= v2);
}

/// `spec_encode_records` unfolded from the front: the first record's text,
/// then a comma and the rest.
pub proof fn lemma_encode_records_front(s: Seq<SnapView>)
    requires
        s.len() >= 1,
    ensures
        s.len() == 1 ==> spec_encode_records(s) == spec_encode_record(s[0]),
        s.len() > 1 ==> spec_encode_records(s) == spec_encode_record(s[0]) + ","@
            + spec_encode_records(s.drop_first()),
    decreases s.len(),
{
    if s.len() == 1 {
    } else if s.len() == 2 {
        let t = s.drop_last();
        assert(t.len() == 1);
        assert(spec_encode_records(t) == spec_encode_record(t[0]));
        assert(t[0] == s[0]);
        assert(s.drop_first().len() == 1);
        assert(s.drop_first()[0] == s[1]);
        assert(spec_encode_records(s.drop_first()) == spec_encode_record(s.drop_first()[0]));
        assert(s.last() == s[1]);
        assert(spec_encode_records(s) == spec_encode_records(t) + ","@ + spec_encode_record(
            s.last(),
        ));
        assert(spec_encode_record(s[0]) + ","@ + spec_encode_record(s[1]) =~= spec_encode_record(
            s[0],
        ) + ","@ + spec_encode_records(s.drop_first()));
    } else {
        let t = s.drop_last();
        lemma_encode_records_front(t);
        assert(t[0] == s[0]);
        assert(t.len() > 1);
        let df = s.drop_first();
        assert(df.len() > 1);
        assert(t.drop_first() =~= df.drop_last());
        assert(df.last() == s.last());
        assert(spec_encode_records(s) == spec_encode_records(t) + ","@ + spec_encode_record(
            s.last(),
        ));
        assert(spec_encode_records(df) == spec_encode_records(df.drop_last()) + ","@
            + spec_encode_record(df.last()));
        assert(spec_encode_records(t) == spec_encode_record(s[0]) + ","@ + spec_encode_records(
            t.drop_first(),
        ));
        assert((spec_encode_record(s[0]) + ","@ + spec_encode_records(t.drop_first())) + ","@
            + spec_encode_record(s.last()) =~= spec_encode_record(s[0]) + ","@ + (
        spec_encode_records(df.drop_last()) + ","@ + spec_encode_record(df.last())));
    }
}

/// A record's text is never empty and opens with a brace.
pub proof fn lemma_encode_record_opens(v: SnapView)
    ensures
        spec_encode_record(v).len() > 12,
        spec_encode_record(v)[0] == '{',
{
    reveal_strlit("{\"fileName\":\"");
    assert(("{\"fileName\":\""@).len() == 13);
    assert(spec_encode_record(v)[0] == ("{\"fileName\":\""@)[0]);
}

/// The record list's canonical text determines the list.
pub proof fn lemma_encode_records_injective(a: Seq<SnapView>, b: Seq<SnapView>)
    requires
        wf_catalog(a),
        wf_catalog(b),
        spec_encode_records(a) == spec_encode_records(b),
    ensures
        a == b,
    decreases a.len(),
{
    reveal_strlit(",");
    assert((","@).len() == 1);
    if a.len() == 0 || b.len() == 0 {
        if a.len() > 0 {
            lemma_encode_records_front(a);
            lemma_encode_record_opens(a[0]);
            if a.len() > 1 {
                assert(spec_encode_records(a).len() > 0);
            }
            assert(spec_encode_records(a).len() > 0);
        }
        if b.len() > 0 {
            lemma_encode_records_front(b);
            lemma_encode_record_opens(b[0]);
            if b.len() > 1 {
                assert(spec_encode_records(b).len() > 0);
            }
            assert(spec_encode_records(b).len() > 0);
        }
        assert(a.len() == 0 && b.len() == 0);
        assert(a =~= b);
    } else {
        lemma_encode_records_front(a);
        lemma_encode_records_front(b);
        let ra = if a.len() == 1 {
            Seq::<char>::empty()
        } else {
            ","@ + spec_encode_records(a.drop_first())
        };
        let rb = if b.len() == 1 {
            Seq::<char>::empty()
        } else {
            ","@ + spec_encode_records(b.drop_first())
        };
        assert(spec_encode_records(a) =~= spec_encode_record(a[0]) + ra);
        assert(spec_encode_records(b) =~= spec_encode_record(b[0]) + rb);
        assert(spec_encode_record(a[0]) + ra == spec_encode_record(b[0]) + rb);
        lemma_encode_record_injective(a[0], ra, b[0], rb);
        if a.len() == 1 && b.len() == 1 {
            assert(a =~= b);
        } else if a.len() == 1 {
            assert(ra.len() == 0);
            assert(rb.len() == 1 + spec_encode_records(b.drop_first()).len());
            assert(false);
        } else if b.len() == 1 {
            assert(rb.len() == 0);
            assert(ra.len() == 1 + spec_encode_records(a.drop_first()).len());
            assert(false);
        } else {
            lemma_strip_prefix(
                ","@,
                spec_encode_records(a.drop_first()),
                spec_encode_records(b.drop_first()),
            );
            assert(wf_catalog(a.drop_first()));
            assert(wf_catalog(b.drop_first()));
            lemma_encode_records_injective(a.drop_first(), b.drop_first());
            assert(a.len() == b.len());
            assert forall|i: int| 0 <= i < a.len() implies a[i] == b[i] by {
                if i > 0 {
                    assert(a.drop_first()[i - 1] == b.drop_first()[i - 1]);
                }
            }
            assert(a =~= b);
        }
    }
}


/// The canonical catalog document determines the catalog: two well-formed
/// catalogs with the same document text are the same catalog. Together
/// with `parse_catalog`'s contract, a successfully parsed document denotes
/// exactly one catalog — the one returned — so read-modify-write cycles
/// round-trip the document exactly.
pub proof fn lemma_encode_catalog_injective(a: Seq<SnapView>, b: Seq<SnapView>)
    requires
        wf_catalog(a),
        wf_catalog(b),
        spec_encode_catalog(a) == spec_encode_catalog(b),
    ensures
        a == b,
{
    let p = "{\"entries\":["@;
    let s = "]}"@;
    assert(p + (spec_encode_records(a) + s) =~= spec_encode_catalog(a));
    assert(p + (spec_encode_records(b) + s) =~= spec_encode_catalog(b));
    lemma_strip_prefix(p, spec_encode_records(a) + s, spec_encode_records(b) + s);
    let ea = spec_encode_records(a);
    let eb = spec_encode_records(b);
    assert(ea.len() == eb.len());
    assert(ea =~= eb) by {
        assert forall|i: int| 0 <= i < ea.len() implies ea[i] == eb[i] by {
            assert((ea + s)[i] == ea[i]);
            assert((eb + s)[i] == eb[i]);
        }
    }
    lemma_encode_records_injective(a, b);
}

} // verus!
