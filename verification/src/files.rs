//! Names of trace files: the list of files a request names, and which kind
//! of trace each file holds.

use vstd::prelude::*;
use vstd::string::StringSliceAdditionalSpecFns;
use vstd::utf8::encode_utf8;
use crate::text::{str_trim, trim_spec, string_push, str_contains, contains_bytes, str_eq, concat2};

verus! {

/// The pieces of `s` between commas, in order (one piece when there is no
/// comma).
pub open spec fn comma_pieces(s: Seq<char>) -> Seq<Seq<char>>
    decreases s.len(),
{
    if s.len() == 0 {
        seq![Seq::empty()]
    } else {
        let p = comma_pieces(s.drop_last());
        if s.last() == ',' {
            p.push(Seq::empty())
        } else {
            p.update(p.len() - 1, p.last().push(s.last()))
        }
    }
}

proof fn lemma_comma_pieces_len(s: Seq<char>)
    ensures
        comma_pieces(s).len() >= 1,
    decreases s.len(),
{
    if s.len() > 0 {
        lemma_comma_pieces_len(s.drop_last());
    }
}

/// The files a request names: the trimmed pieces between commas when there
/// is a comma, else the whole name as it is.
pub open spec fn log_names_spec(s: Seq<char>) -> Seq<Seq<char>> {
    if s.contains(',') {
        comma_pieces(s).map_values(|p: Seq<char>| trim_spec(p))
    } else {
        seq![s]
    }
}

/// The files named by `logname`, a single path or paths separated by
/// commas.
pub fn split_log_names(logname: &str) -> (r: Vec<String>)
    ensures
        r.deep_view() == log_names_spec(logname@),
{
    let ghost s = logname@;
    let mut pieces: Vec<String> = Vec::new();
    let mut cur = String::new();
    let mut has_comma = false;
    assert(s.take(0) =~= Seq::<char>::empty());
    for c in it: logname.chars()
        invariant
            it.seq() == s,
            comma_pieces(s.take(it.index())).len() == pieces.len() + 1,
            pieces.deep_view() == comma_pieces(s.take(it.index())).take(pieces.len() as int),
            cur@ == comma_pieces(s.take(it.index())).last(),
            has_comma == s.take(it.index()).contains(','),
    {
        proof {
            let t = s.take(it.index());
            let t1 = s.take(it.index() + 1);
            assert(t1 =~= t.push(c));
            assert(t1.drop_last() =~= t);
            lemma_comma_pieces_len(t);
            crate::stats::lemma_contains_last(t1, ',');
        }
        if c == ',' {
            let ghost before = pieces.deep_view();
            let ghost p = comma_pieces(s.take(it.index()));
            let done = cur;
            pieces.push(done);
            cur = String::new();
            has_comma = true;
            proof {
                let t = s.take(it.index());
                let t1 = s.take(it.index() + 1);
                assert(pieces.deep_view() =~= before.push(p.last()));
                assert(p.take(p.len() - 1).push(p.last()) =~= p);
                assert(comma_pieces(t1) == p.push(Seq::<char>::empty()));
                assert(comma_pieces(t1).take(pieces.len() as int) =~= p);
                assert(pieces.deep_view() =~= comma_pieces(t1).take(pieces.len() as int));
            }
        } else {
            string_push(&mut cur, c);
            proof {
                let t = s.take(it.index());
                let t1 = s.take(it.index() + 1);
                let p = comma_pieces(t);
                assert(comma_pieces(t1) == p.update(p.len() - 1, p.last().push(c)));
                assert(pieces.deep_view() =~= comma_pieces(t1).take(pieces.len() as int));
            }
        }
    }
    assert(s.take(s.len() as int) =~= s);
    if !has_comma {
        let mut r: Vec<String> = Vec::new();
        r.push(logname.to_owned());
        assert(r.deep_view() =~= seq![s]);
        return r;
    }
    let ghost all = comma_pieces(s);
    let ghost before = pieces.deep_view();
    pieces.push(cur);
    assert(pieces.deep_view() =~= before.push(all.last()));
    assert(all.take(all.len() - 1).push(all.last()) =~= all);
    assert(pieces.deep_view() =~= all);
    let mut r: Vec<String> = Vec::new();
    let mut i: usize = 0;
    while i < pieces.len()
        invariant
            all == comma_pieces(s),
            pieces.deep_view() == all,
            0 <= i <= pieces.len(),
            r.deep_view() == all.map_values(|p: Seq<char>| trim_spec(p)).take(i as int),
        decreases pieces.len() - i,
    {
        let ghost before = r.deep_view();
        assert(pieces@[i as int]@ == all[i as int]);
        let t = str_trim(pieces[i].as_str());
        r.push(t.to_owned());
        assert(r.deep_view() =~= before.push(trim_spec(all[i as int])));
        i = i + 1;
        assert(r.deep_view() =~= all.map_values(|p: Seq<char>| trim_spec(p)).take(i as int));
    }
    assert(all.map_values(|p: Seq<char>| trim_spec(p)).take(i as int) =~= all.map_values(|p: Seq<char>| trim_spec(p)));
    r
}

/// `name` is among the files the cache key `k` names (one path, or paths
/// separated by commas).
pub open spec fn key_names(k: Seq<char>, name: Seq<char>) -> bool {
    log_names_spec(k).contains(name)
}

/// The cache entry that holds the trace `name`, given the keys of the
/// entries: the first key equal to `name`; failing that, the first key
/// that names it among several files; `None` when no key does.
pub fn cache_entry_for(keys: &Vec<String>, name: &str) -> (r: Option<usize>)
    ensures
        match r {
            Some(i) => i < keys.len() && if exists|j: int| 0 <= j < keys.len() && #[trigger] keys@[j]@ == name@ {
                &&& keys@[i as int]@ == name@
                &&& forall|j: int| 0 <= j < i ==> #[trigger] keys@[j]@ != name@
            } else {
                &&& key_names(keys@[i as int]@, name@)
                &&& forall|j: int| 0 <= j < i ==> !key_names(#[trigger] keys@[j]@, name@)
            },
            None => forall|j: int| 0 <= j < keys.len() ==> #[trigger] keys@[j]@ != name@ && !key_names(keys@[j]@, name@),
        },
{
    let mut i: usize = 0;
    while i < keys.len()
        invariant
            0 <= i <= keys.len(),
            forall|j: int| 0 <= j < i ==> #[trigger] keys@[j]@ != name@,
        decreases keys.len() - i,
    {
        if str_eq(keys[i].as_str(), name) {
            return Some(i);
        }
        i = i + 1;
    }
    let mut k: usize = 0;
    while k < keys.len()
        invariant
            0 <= k <= keys.len(),
            forall|j: int| 0 <= j < keys.len() ==> #[trigger] keys@[j]@ != name@,
            forall|j: int| 0 <= j < k ==> !key_names(#[trigger] keys@[j]@, name@),
        decreases keys.len() - k,
    {
        let names = split_log_names(keys[k].as_str());
        let mut m: usize = 0;
        while m < names.len()
            invariant
                0 <= m <= names.len(),
                k < keys.len(),
                forall|j: int| 0 <= j < keys.len() ==> #[trigger] keys@[j]@ != name@,
                forall|j: int| 0 <= j < k ==> !key_names(#[trigger] keys@[j]@, name@),
                names.deep_view() == log_names_spec(keys@[k as int]@),
                forall|q: int| 0 <= q < m ==> names.deep_view()[q] != name@,
            decreases names.len() - m,
        {
            if str_eq(names[m].as_str(), name) {
                assert(names.deep_view()[m as int] == name@);
                assert(key_names(keys@[k as int]@, name@));
                return Some(k);
            }
            m = m + 1;
        }
        assert(!key_names(keys@[k as int]@, name@)) by {
            if log_names_spec(keys@[k as int]@).contains(name@) {
                let q = choose|q: int| 0 <= q < names.deep_view().len() && names.deep_view()[q] == name@;
                assert(names.deep_view()[q] == name@);
            }
        }
        k = k + 1;
    }
    None
}

/// `s` ends with `suffix`.
pub open spec fn ends_with_bytes(s: Seq<u8>, suffix: Seq<u8>) -> bool {
    s.len() >= suffix.len() && s.subrange(s.len() - suffix.len(), s.len() as int) == suffix
}

/// `true` when the text `s` ends with `suffix`.
pub fn str_ends_with(s: &str, suffix: &str) -> (r: bool)
    ensures
        r == ends_with_bytes(s.spec_bytes(), suffix.spec_bytes()),
{
    let a = s.as_bytes();
    let b = suffix.as_bytes();
    if b.len() > a.len() {
        return false;
    }
    let off = a.len() - b.len();
    let mut i: usize = 0;
    while i < b.len()
        invariant
            a@ == s.spec_bytes(),
            b@ == suffix.spec_bytes(),
            off + b.len() == a.len(),
            0 <= i <= b.len(),
            forall|k: int| 0 <= k < i ==> a@[off + k] == b@[k],
        decreases b.len() - i,
    {
        if a[off + i] != b[i] {
            assert(a@.subrange(off as int, a.len() as int)[i as int] == a@[off + i]);
            assert(a@.subrange(off as int, a.len() as int) != b@);
            return false;
        }
        i = i + 1;
    }
    assert(a@.subrange(off as int, a.len() as int) =~= b@);
    true
}

/// The kinds of trace data a file holds.
#[derive(Debug, Clone, Copy, PartialEq, Eq, Structural)]
pub enum TraceFileKind {
    Ufs,
    Block,
    UfsCustom,
    Other,
}

/// The kind of a Parquet file read back for display, by its name: custom
/// UFS when the name mentions `ufscustom` (checked first, as its name also
/// mentions `ufs`), then UFS, then block.
pub open spec fn parquet_kind_spec(name: Seq<u8>) -> TraceFileKind {
    let pq = ends_with_bytes(name, encode_utf8(".parquet"@));
    if contains_bytes(name, encode_utf8("ufscustom"@)) && pq {
        TraceFileKind::UfsCustom
    } else if contains_bytes(name, encode_utf8("ufs"@)) && pq {
        TraceFileKind::Ufs
    } else if contains_bytes(name, encode_utf8("block"@)) && pq {
        TraceFileKind::Block
    } else {
        TraceFileKind::Other
    }
}

/// The kind of a Parquet file read back for display.
pub fn parquet_kind(fname: &str) -> (r: TraceFileKind)
    ensures
        r == parquet_kind_spec(fname.spec_bytes()),
{
    let pq = str_ends_with(fname, ".parquet");
    if str_contains(fname, "ufscustom") && pq {
        TraceFileKind::UfsCustom
    } else if str_contains(fname, "ufs") && pq {
        TraceFileKind::Ufs
    } else if str_contains(fname, "block") && pq {
        TraceFileKind::Block
    } else {
        TraceFileKind::Other
    }
}

/// The kind of a saved trace file by the suffix its name carries:
/// `_ufs.parquet`, `_block.parquet` or `_ufscustom.parquet`, tried in that
/// order.
pub open spec fn saved_kind_spec(name: Seq<u8>) -> TraceFileKind {
    if contains_bytes(name, encode_utf8("_ufs.parquet"@)) {
        TraceFileKind::Ufs
    } else if contains_bytes(name, encode_utf8("_block.parquet"@)) {
        TraceFileKind::Block
    } else if contains_bytes(name, encode_utf8("_ufscustom.parquet"@)) {
        TraceFileKind::UfsCustom
    } else {
        TraceFileKind::Other
    }
}

/// The kind of a saved trace file by the suffix its name carries.
pub fn saved_kind(fname: &str) -> (r: TraceFileKind)
    ensures
        r == saved_kind_spec(fname.spec_bytes()),
{
    if str_contains(fname, "_ufs.parquet") {
        TraceFileKind::Ufs
    } else if str_contains(fname, "_block.parquet") {
        TraceFileKind::Block
    } else if str_contains(fname, "_ufscustom.parquet") {
        TraceFileKind::UfsCustom
    } else {
        TraceFileKind::Other
    }
}

/// `s` begins with `prefix`.
pub open spec fn starts_with_bytes(s: Seq<u8>, prefix: Seq<u8>) -> bool {
    s.len() >= prefix.len() && s.take(prefix.len() as int) == prefix
}

/// `true` when the text `s` begins with `prefix`.
pub fn str_starts_with(s: &str, prefix: &str) -> (r: bool)
    ensures
        r == starts_with_bytes(s.spec_bytes(), prefix.spec_bytes()),
{
    let a = s.as_bytes();
    let b = prefix.as_bytes();
    if b.len() > a.len() {
        return false;
    }
    let mut i: usize = 0;
    while i < b.len()
        invariant
            a@ == s.spec_bytes(),
            b@ == prefix.spec_bytes(),
            b.len() <= a.len(),
            0 <= i <= b.len(),
            forall|k: int| 0 <= k < i ==> a@[k] == b@[k],
        decreases b.len() - i,
    {
        if a[i] != b[i] {
            assert(a@.take(b.len() as int)[i as int] == a@[i as int]);
            assert(a@.take(b.len() as int) != b@);
            return false;
        }
        i = i + 1;
    }
    assert(a@.take(b.len() as int) =~= b@);
    true
}

/// A temporary Arrow file that the viewer leaves behind is removed once it
/// is older than `max_age_secs`: its name is `estrace_temp_*.arrow` and the
/// time since it was modified (0 when the clock is behind) exceeds the age.
pub open spec fn temp_file_due_spec(name: Seq<u8>, now: u64, modified: u64, max_age_secs: u64) -> bool {
    &&& starts_with_bytes(name, encode_utf8("estrace_temp_"@))
    &&& ends_with_bytes(name, encode_utf8(".arrow"@))
    &&& (if now >= modified { now - modified } else { 0 }) > max_age_secs
}

/// Whether the file `filename`, last modified at `modified` (seconds since
/// the epoch), is a temporary Arrow file to remove at `now`.
pub fn temp_file_due(filename: &str, now: u64, modified: u64, max_age_secs: u64) -> (r: bool)
    ensures
        r == temp_file_due_spec(filename.spec_bytes(), now, modified, max_age_secs),
{
    if str_starts_with(filename, "estrace_temp_") && str_ends_with(filename, ".arrow") {
        let age: u64 = if now >= modified { now - modified } else { 0 };
        age > max_age_secs
    } else {
        false
    }
}

/// The trace kind a filter request names: `block`, `ufs` or `ufscustom`.
pub fn trace_type_of(tracetype: &str) -> (r: Result<TraceFileKind, String>)
    ensures
        tracetype@ == "block"@ ==> r == Ok::<TraceFileKind, String>(TraceFileKind::Block),
        tracetype@ == "ufs"@ ==> r == Ok::<TraceFileKind, String>(TraceFileKind::Ufs),
        tracetype@ == "ufscustom"@ ==> r == Ok::<TraceFileKind, String>(TraceFileKind::UfsCustom),
        !(tracetype@ == "block"@ || tracetype@ == "ufs"@ || tracetype@ == "ufscustom"@) ==>
            (r matches Err(m) && m@ == "Unknown trace type: "@ + tracetype@),
{
    proof {
        reveal_strlit("block");
        reveal_strlit("ufs");
        reveal_strlit("ufscustom");
        assert("block"@[0] != "ufs"@[0]);
        assert("block"@[0] != "ufscustom"@[0]);
        assert("ufs"@.len() != "ufscustom"@.len());
    }
    if str_eq(tracetype, "block") {
        Ok(TraceFileKind::Block)
    } else if str_eq(tracetype, "ufs") {
        Ok(TraceFileKind::Ufs)
    } else if str_eq(tracetype, "ufscustom") {
        Ok(TraceFileKind::UfsCustom)
    } else {
        Err(concat2("Unknown trace type: ", tracetype))
    }
}

} // verus!
