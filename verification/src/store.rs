//! The registry store: a directory of record files, one per workspace,
//! modelled as the sequence of entries the filesystem holds.
//!
//! The store works on a [`Registry`] value that mirrors the registry
//! directory: each entry is one directory item with its name, whether it
//! is a regular file, and its bytes (or nothing, where it cannot be
//! read). Every operation is specified against this model, so the laws
//! that relate operations — write then read, delete then read — are
//! proved once over the model and hold of any directory state.

use vstd::prelude::*;
use vstd::string::*;

use crate::codec;
use crate::codec::{decode_spec, encode_spec};
use crate::record::{Error, Workspace};

verus! {

/// One item of the registry directory, as enumeration sees it: its file
/// name, whether it is a regular file, and its bytes (`None` where the
/// item cannot be read).
pub struct RawEntry {
    pub name: String,
    pub is_file: bool,
    pub content: Option<Vec<u8>>,
}

/// The mathematical shadow of a [`RawEntry`].
pub struct EntryV {
    pub name: Seq<char>,
    pub is_file: bool,
    pub content: Option<Seq<u8>>,
}

impl View for RawEntry {
    type V = EntryV;

    open spec fn view(&self) -> EntryV {
        EntryV {
            name: self.name@,
            is_file: self.is_file,
            content: match self.content {
                Some(c) => Some(c@),
                None => None,
            },
        }
    }
}

/// The registry directory: the entries it currently holds, in the order
/// enumeration yields them.
pub struct Registry {
    pub entries: Vec<RawEntry>,
}

impl View for Registry {
    type V = Seq<EntryV>;

    open spec fn view(&self) -> Seq<EntryV> {
        self.entries@.map_values(|e: RawEntry| e@)
    }
}

impl Registry {
    /// An empty registry directory.
    pub fn new() -> (reg: Registry)
        ensures
            reg@.len() == 0,
            wf(reg@),
    {
        Registry { entries: Vec::new() }
    }
}

/// The fixed extension of a record file.
pub open spec fn record_ext() -> Seq<char> {
    seq!['.', 't', 'o', 'm', 'l']
}

/// The file name a workspace name is stored under: the name with the
/// record extension behind it.
pub open spec fn record_file_name(name: Seq<char>) -> Seq<char> {
    name + record_ext()
}

/// A workspace name is a single filename component: non-empty and free of
/// path separators.
pub open spec fn valid_name(name: Seq<char>) -> bool {
    name.len() > 0 && forall|i: int| 0 <= i < name.len() ==> name[i] != '/'
}

/// A directory cannot hold two items of one name.
pub open spec fn wf(m: Seq<EntryV>) -> bool {
    forall|i: int, j: int| 0 <= i < j < m.len() ==> m[i].name != m[j].name
}

/// The first entry of the given file name, if there is one.
pub open spec fn lookup(m: Seq<EntryV>, f: Seq<char>) -> Option<EntryV>
    decreases m.len(),
{
    if m.len() == 0 {
        None
    } else if m[0].name == f {
        Some(m[0])
    } else {
        lookup(m.skip(1), f)
    }
}

/// The directory after a record file is written: the entry of that name
/// overwritten in place, or a fresh entry behind the others.
pub open spec fn write_model(m: Seq<EntryV>, f: Seq<char>, c: Seq<u8>) -> Seq<EntryV>
    decreases m.len(),
{
    let e = EntryV { name: f, is_file: true, content: Some(c) };
    if m.len() == 0 {
        seq![e]
    } else if m[0].name == f {
        seq![e] + m.skip(1)
    } else {
        seq![m[0]] + write_model(m.skip(1), f, c)
    }
}

/// The directory after the first entry of the given name is removed.
pub open spec fn remove_model(m: Seq<EntryV>, f: Seq<char>) -> Seq<EntryV>
    decreases m.len(),
{
    if m.len() == 0 {
        m
    } else if m[0].name == f {
        m.skip(1)
    } else {
        seq![m[0]] + remove_model(m.skip(1), f)
    }
}

/// What one record file's bytes come to: the decoded path, or the error
/// this entry earns — unreadable, or undecodable.
pub open spec fn decode_result(content: Option<Seq<u8>>) -> Result<Seq<u8>, Error> {
    match content {
        None => Err(Error::Read),
        Some(c) => match decode_spec(c) {
            Some(p) => Ok(p),
            None => Err(Error::Parse),
        },
    }
}

/// What reading one workspace yields: nothing where no record file of
/// that name exists, otherwise the decoded path or the per-entry error.
pub open spec fn get_model(m: Seq<EntryV>, name: Seq<char>) -> Option<Result<Seq<u8>, Error>> {
    match lookup(m, record_file_name(name)) {
        None => None,
        Some(e) => Some(decode_result(e.content)),
    }
}

/// A file name with the record extension behind a non-empty stem.
pub open spec fn is_record_name(n: Seq<char>) -> bool {
    n.len() > 5 && n[n.len() - 5] == '.' && n[n.len() - 4] == 't' && n[n.len() - 3] == 'o'
        && n[n.len() - 2] == 'm' && n[n.len() - 1] == 'l'
}

/// The workspace name a record file name stands for: the file name with
/// the extension stripped.
pub open spec fn stem_of(n: Seq<char>) -> Seq<char> {
    n.take(n.len() - 5)
}

/// Whether enumeration reports this entry: a regular file whose name
/// carries the record extension. Anything else is silently skipped.
pub open spec fn is_record_entry(e: EntryV) -> bool {
    e.is_file && is_record_name(e.name)
}

/// The entries enumeration reports, in directory order.
pub open spec fn record_entries(m: Seq<EntryV>) -> Seq<EntryV>
    decreases m.len(),
{
    if m.len() == 0 {
        m
    } else {
        (if is_record_entry(m[0]) {
            seq![m[0]]
        } else {
            Seq::<EntryV>::empty()
        }) + record_entries(m.skip(1))
    }
}

/// One more entry at the back extends the reported entries by that entry,
/// or by nothing.
proof fn lemma_record_entries_push(m: Seq<EntryV>, e: EntryV)
    ensures
        record_entries(m.push(e)) == record_entries(m) + (if is_record_entry(e) {
            seq![e]
        } else {
            Seq::<EntryV>::empty()
        }),
    decreases m.len(),
{
    let tail: Seq<EntryV> = if is_record_entry(e) {
        seq![e]
    } else {
        Seq::<EntryV>::empty()
    };
    if m.len() == 0 {
        assert(m.push(e)[0] == e);
        assert(m.push(e).skip(1) =~= Seq::<EntryV>::empty());
        assert(record_entries(m.push(e)) == tail + record_entries(Seq::<EntryV>::empty()));
        assert(tail + Seq::<EntryV>::empty() =~= tail);
        assert(record_entries(m) + tail =~= tail);
    } else {
        lemma_record_entries_push(m.skip(1), e);
        assert(m.push(e).skip(1) =~= m.skip(1).push(e));
        assert(m.push(e)[0] == m[0]);
        let head: Seq<EntryV> = if is_record_entry(m[0]) {
            seq![m[0]]
        } else {
            Seq::<EntryV>::empty()
        };
        assert(record_entries(m.push(e)) == head + (record_entries(m.skip(1)) + tail));
        assert(head + (record_entries(m.skip(1)) + tail) =~= (head + record_entries(m.skip(1)))
            + tail);
    }
}

/// The listing row one reported entry produces: the stem of its file
/// name, with the decoded record or this entry's own failure.
pub open spec fn row_for(e: EntryV) -> (Seq<char>, Result<Seq<u8>, Error>) {
    (stem_of(e.name), decode_result(e.content))
}

/// Everything a listing of the directory yields, in directory order:
/// one row per record file, each row standing on its own entry alone.
pub open spec fn rows_model(m: Seq<EntryV>) -> Seq<(Seq<char>, Result<Seq<u8>, Error>)> {
    record_entries(m).map_values(|e: EntryV| row_for(e))
}

/// How an executable listing row realises a model row.
pub open spec fn row_matches(
    row: (Option<String>, Result<Workspace, Error>),
    mrow: (Seq<char>, Result<Seq<u8>, Error>),
) -> bool {
    (match row.0 {
        Some(n) => n@ == mrow.0,
        None => false,
    }) && (match row.1 {
        Ok(ws) => mrow.1 == Ok::<Seq<u8>, Error>(ws.path@),
        Err(e) => mrow.1 == Err::<Seq<u8>, Error>(e),
    })
}

/// `lookup` finds the entry at `idx` when no earlier entry has the name.
proof fn lemma_lookup_at(m: Seq<EntryV>, f: Seq<char>, idx: int)
    requires
        0 <= idx < m.len(),
        m[idx].name == f,
        forall|k: int| 0 <= k < idx ==> m[k].name != f,
    ensures
        lookup(m, f) == Some(m[idx]),
    decreases m.len(),
{
    if idx > 0 {
        assert(forall|k: int| 0 <= k < idx - 1 ==> m.skip(1)[k] == m[k + 1]);
        lemma_lookup_at(m.skip(1), f, idx - 1);
    }
}

/// `lookup` finds nothing when no entry has the name.
pub proof fn lemma_lookup_none(m: Seq<EntryV>, f: Seq<char>)
    requires
        forall|k: int| 0 <= k < m.len() ==> m[k].name != f,
    ensures
        lookup(m, f) is None,
    decreases m.len(),
{
    if m.len() > 0 {
        assert(forall|k: int| 0 <= k < m.skip(1).len() ==> m.skip(1)[k] == m[k + 1]);
        lemma_lookup_none(m.skip(1), f);
    }
}

/// When `lookup` finds nothing, no entry has the name.
proof fn lemma_lookup_none_all(m: Seq<EntryV>, f: Seq<char>)
    requires
        lookup(m, f) is None,
    ensures
        forall|k: int| 0 <= k < m.len() ==> m[k].name != f,
    decreases m.len(),
{
    if m.len() > 0 {
        lemma_lookup_none_all(m.skip(1), f);
        assert(forall|k: int| 1 <= k < m.len() ==> m[k] == m.skip(1)[k - 1]);
    }
}

/// Overwriting the entry at `idx` is updating it in place.
proof fn lemma_write_model_at(m: Seq<EntryV>, f: Seq<char>, c: Seq<u8>, idx: int)
    requires
        0 <= idx < m.len(),
        m[idx].name == f,
        forall|k: int| 0 <= k < idx ==> m[k].name != f,
    ensures
        write_model(m, f, c) == m.update(
            idx,
            EntryV { name: f, is_file: true, content: Some(c) },
        ),
    decreases m.len(),
{
    let e = EntryV { name: f, is_file: true, content: Some(c) };
    if idx == 0 {
        assert(seq![e] + m.skip(1) =~= m.update(0, e));
    } else {
        assert(forall|k: int| 0 <= k < idx - 1 ==> m.skip(1)[k] == m[k + 1]);
        lemma_write_model_at(m.skip(1), f, c, idx - 1);
        assert(seq![m[0]] + m.skip(1).update(idx - 1, e) =~= m.update(idx, e));
    }
}

/// Writing a name no entry has appends a fresh entry.
proof fn lemma_write_model_absent(m: Seq<EntryV>, f: Seq<char>, c: Seq<u8>)
    requires
        forall|k: int| 0 <= k < m.len() ==> m[k].name != f,
    ensures
        write_model(m, f, c) == m.push(EntryV { name: f, is_file: true, content: Some(c) }),
    decreases m.len(),
{
    let e = EntryV { name: f, is_file: true, content: Some(c) };
    if m.len() == 0 {
        assert(seq![e] =~= m.push(e));
    } else {
        assert(forall|k: int| 0 <= k < m.skip(1).len() ==> m.skip(1)[k] == m[k + 1]);
        lemma_write_model_absent(m.skip(1), f, c);
        assert(seq![m[0]] + m.skip(1).push(e) =~= m.push(e));
    }
}

/// Removing the entry at `idx` deletes exactly that position.
proof fn lemma_remove_model_at(m: Seq<EntryV>, f: Seq<char>, idx: int)
    requires
        0 <= idx < m.len(),
        m[idx].name == f,
        forall|k: int| 0 <= k < idx ==> m[k].name != f,
    ensures
        remove_model(m, f) == m.remove(idx),
    decreases m.len(),
{
    if idx == 0 {
        assert(m.skip(1) =~= m.remove(0));
    } else {
        assert(forall|k: int| 0 <= k < idx - 1 ==> m.skip(1)[k] == m[k + 1]);
        lemma_remove_model_at(m.skip(1), f, idx - 1);
        assert(seq![m[0]] + m.skip(1).remove(idx - 1) =~= m.remove(idx));
    }
}

/// Runtime check for [`valid_name`]: whether `name` can serve as a
/// workspace name.
pub fn is_valid_name(name: &str) -> (r: bool)
    ensures
        r == valid_name(name@),
{
    let n = name.unicode_len();
    if n == 0 {
        return false;
    }
    let mut i: usize = 0;
    while i < n
        invariant
            i <= n,
            n == name@.len(),
            forall|k: int| 0 <= k < i ==> name@[k] != '/',
        decreases n - i,
    {
        if name.get_char(i) == '/' {
            return false;
        }
        i = i + 1;
    }
    true
}

/// The record file name of `name`, `name.toml`.
pub fn file_name(name: &str) -> (r: String)
    ensures
        r@ == record_file_name(name@),
{
    let mut r = name.to_owned();
    r.append(".toml");
    proof {
        reveal_strlit(".toml");
        assert(".toml"@ =~= record_ext());
    }
    r
}

/// Where the record of `name` lives under the registry directory `dir`:
/// `dir/name.toml`. A pure mapping; nothing is touched.
pub fn file_path(dir: &str, name: &str) -> (r: String)
    ensures
        r@ == dir@ + seq!['/'] + record_file_name(name@),
{
    let mut r = dir.to_owned();
    r.append("/");
    r.append(name);
    r.append(".toml");
    proof {
        reveal_strlit("/");
        reveal_strlit(".toml");
        assert("/"@ =~= seq!['/']);
        assert(".toml"@ =~= record_ext());
        assert(r@ =~= dir@ + seq!['/'] + record_file_name(name@));
    }
    r
}

/// The position of the entry named `fname`, with everything `lookup`
/// knows about it.
fn find_entry(reg: &Registry, fname: &String) -> (r: Option<usize>)
    ensures
        match r {
            Some(idx) => idx < reg@.len() && reg@[idx as int].name == fname@ && lookup(
                reg@,
                fname@,
            ) == Some(reg@[idx as int]) && forall|k: int|
                0 <= k < idx ==> reg@[k].name != fname@,
            None => lookup(reg@, fname@) is None,
        },
{
    let n = reg.entries.len();
    let mut i: usize = 0;
    while i < n
        invariant
            i <= n,
            n == reg.entries@.len(),
            reg@.len() == n,
            forall|k: int| 0 <= k < i ==> reg@[k].name != fname@,
        decreases n - i,
    {
        if reg.entries[i].name == *fname {
            proof {
                assert(reg@[i as int].name == fname@);
                lemma_lookup_at(reg@, fname@, i as int);
            }
            return Some(i);
        }
        proof {
            assert(reg@[i as int] == reg.entries@[i as int]@);
        }
        i = i + 1;
    }
    proof {
        lemma_lookup_none(reg@, fname@);
    }
    None
}

/// Whether a record file of this name exists in the registry.
pub fn record_exists(reg: &Registry, name: &str) -> (r: bool)
    ensures
        r == (lookup(reg@, record_file_name(name@)) is Some),
{
    let fname = file_name(name);
    match find_entry(reg, &fname) {
        Some(_) => true,
        None => false,
    }
}

/// Serializes `ws` and writes it under `name`, creating the record file
/// or truncating the one that exists — overwrite, never merge.
pub fn write(reg: &mut Registry, ws: &Workspace, name: &str)
    requires
        valid_name(name@),
        wf(old(reg)@),
    ensures
        final(reg)@ == write_model(old(reg)@, record_file_name(name@), encode_spec(ws.path@)),
        wf(final(reg)@),
{
    let fname = file_name(name);
    let content = codec::encode(ws);
    let ghost f = record_file_name(name@);
    let ghost m0 = reg@;
    let found = find_entry(reg, &fname);
    let entry = RawEntry { name: fname, is_file: true, content: Some(content) };
    match found {
        Some(idx) => {
            reg.entries.remove(idx);
            reg.entries.insert(idx, entry);
            proof {
                lemma_write_model_at(m0, f, encode_spec(ws.path@), idx as int);
                assert(reg@ =~= m0.update(
                    idx as int,
                    EntryV { name: f, is_file: true, content: Some(encode_spec(ws.path@)) },
                ));
                assert forall|i: int, j: int| 0 <= i < j < reg@.len() implies reg@[i].name
                    != reg@[j].name by {
                    assert(reg@[i].name == if i == idx { f } else { m0[i].name });
                    assert(reg@[j].name == if j == idx { f } else { m0[j].name });
                }
            }
        },
        None => {
            reg.entries.push(entry);
            proof {
                lemma_lookup_none_all(m0, f);
                lemma_write_model_absent(m0, f, encode_spec(ws.path@));
                assert(reg@ =~= m0.push(
                    EntryV { name: f, is_file: true, content: Some(encode_spec(ws.path@)) },
                ));
                assert forall|i: int, j: int| 0 <= i < j < reg@.len() implies reg@[i].name
                    != reg@[j].name by {
                    if j < m0.len() {
                        assert(m0[i].name != m0[j].name);
                    } else {
                        assert(m0[i].name != f);
                    }
                }
            }
        },
    }
}

/// Removes the record of `name`; [`Error::NotFound`] when there is none,
/// and then the registry stands unchanged.
pub fn delete(reg: &mut Registry, name: &str) -> (r: Result<(), Error>)
    requires
        wf(old(reg)@),
    ensures
        wf(final(reg)@),
        match r {
            Ok(()) => lookup(old(reg)@, record_file_name(name@)) is Some && final(reg)@
                == remove_model(old(reg)@, record_file_name(name@)),
            Err(e) => e == Error::NotFound && lookup(old(reg)@, record_file_name(name@)) is None
                && final(reg)@ == old(reg)@,
        },
{
    let fname = file_name(name);
    let ghost f = record_file_name(name@);
    let ghost m0 = reg@;
    match find_entry(reg, &fname) {
        Some(idx) => {
            reg.entries.remove(idx);
            proof {
                lemma_remove_model_at(m0, f, idx as int);
                assert(reg@ =~= m0.remove(idx as int));
                assert forall|i: int, j: int| 0 <= i < j < reg@.len() implies reg@[i].name
                    != reg@[j].name by {
                    let i0 = if i < idx { i } else { i + 1 };
                    let j0 = if j < idx { j } else { j + 1 };
                    assert(reg@[i].name == m0[i0].name);
                    assert(reg@[j].name == m0[j0].name);
                }
            }
            Ok(())
        },
        None => Err(Error::NotFound),
    }
}

/// Reads one workspace: `None` where no record file exists, otherwise the
/// decoded record or the error the record file earns. Never panics on
/// malformed content.
pub fn get(reg: &Registry, name: &str) -> (r: Option<Result<Workspace, Error>>)
    ensures
        match r {
            None => get_model(reg@, name@) is None,
            Some(inner) => match inner {
                Ok(ws) => get_model(reg@, name@) == Some(Ok::<Seq<u8>, Error>(ws.path@)),
                Err(e) => get_model(reg@, name@) == Some(Err::<Seq<u8>, Error>(e)),
            },
        },
{
    let fname = file_name(name);
    match find_entry(reg, &fname) {
        None => None,
        Some(idx) => {
            let e = &reg.entries[idx];
            proof {
                assert(reg@[idx as int] == e@);
            }
            match &e.content {
                None => Some(Err(Error::Read)),
                Some(c) => match codec::decode(c) {
                    Ok(ws) => Some(Ok(ws)),
                    Err(err) => Some(Err(err)),
                },
            }
        },
    }
}

/// Whether a file name carries the record extension.
fn has_record_ext(name: &str) -> (r: bool)
    ensures
        r == is_record_name(name@),
{
    let n = name.unicode_len();
    if n <= 5 {
        return false;
    }
    name.get_char(n - 5) == '.' && name.get_char(n - 4) == 't' && name.get_char(n - 3) == 'o'
        && name.get_char(n - 2) == 'm' && name.get_char(n - 1) == 'l'
}

/// The stem of a record file name.
fn stem_string(name: &str) -> (r: String)
    requires
        is_record_name(name@),
    ensures
        r@ == stem_of(name@),
{
    let n = name.unicode_len();
    let s = name.substring_char(0, n - 5);
    proof {
        assert(name@.subrange(0, name@.len() - 5) =~= stem_of(name@));
    }
    s.to_owned()
}

/// Enumerates every record file of the registry, pairing the workspace
/// name it stands for with its decoded record or its own failure.
///
/// Fault isolation: each row is a function of its own directory entry, so
/// one unreadable or corrupt record file can neither suppress nor reorder
/// the rows of the others, and rows come in directory order.
pub fn all(reg: &Registry) -> (r: Vec<(Option<String>, Result<Workspace, Error>)>)
    ensures
        r@.len() == rows_model(reg@).len(),
        forall|j: int| 0 <= j < r@.len() ==> row_matches(r@[j], rows_model(reg@)[j]),
{
    let n = reg.entries.len();
    let mut out: Vec<(Option<String>, Result<Workspace, Error>)> = Vec::new();
    let mut i: usize = 0;
    proof {
        assert(reg@.take(0) =~= Seq::<EntryV>::empty());
    }
    while i < n
        invariant
            i <= n,
            n == reg.entries@.len(),
            reg@.len() == n,
            out@.len() == rows_model(reg@.take(i as int)).len(),
            forall|j: int|
                0 <= j < out@.len() ==> row_matches(out@[j], rows_model(reg@.take(i as int))[j]),
        decreases n - i,
    {
        let ghost prefix = reg@.take(i as int);
        let e = &reg.entries[i];
        proof {
            assert(e@ == reg@[i as int]);
        }
        if e.is_file && has_record_ext(&e.name) {
            let stem = stem_string(&e.name);
            let res: Result<Workspace, Error> = match &e.content {
                None => Err(Error::Read),
                Some(c) => codec::decode(c),
            };
            out.push((Some(stem), res));
            proof {
                assert(is_record_entry(e@));
                assert(row_matches((Some(stem), res), row_for(e@)));
            }
        } else {
            proof {
                assert(!is_record_entry(e@));
            }
        }
        proof {
            lemma_record_entries_push(prefix, reg@[i as int]);
            assert(prefix.push(reg@[i as int]) =~= reg@.take(i + 1));
            if is_record_entry(reg@[i as int]) {
                assert(record_entries(reg@.take(i + 1)) == record_entries(prefix) + seq![
                    reg@[i as int],
                ]);
            } else {
                assert(record_entries(reg@.take(i + 1)) == record_entries(prefix)
                    + Seq::<EntryV>::empty());
                assert(record_entries(prefix) + Seq::<EntryV>::empty() =~= record_entries(
                    prefix,
                ));
            }
        }
        i = i + 1;
    }
    proof {
        assert(reg@.take(n as int) =~= reg@);
    }
    out
}

/// An empty registry directory lists nothing.
pub proof fn lemma_empty_lists_nothing(m: Seq<EntryV>)
    requires
        m.len() == 0,
    ensures
        rows_model(m).len() == 0,
{
}

/// Fault isolation of enumeration: when two directory states agree on
/// every entry's name and kind, and on every entry's bytes but one, their
/// listings have the same rows under the same names in the same order,
/// and only the row named by the differing entry can differ.
pub proof fn lemma_fault_isolation(m1: Seq<EntryV>, m2: Seq<EntryV>, k: int)
    requires
        m1.len() == m2.len(),
        0 <= k < m1.len(),
        forall|i: int|
            0 <= i < m1.len() ==> m1[i].name == m2[i].name && m1[i].is_file == m2[i].is_file,
        forall|i: int| 0 <= i < m1.len() && i != k ==> m1[i] == m2[i],
    ensures
        rows_model(m1).len() == rows_model(m2).len(),
        forall|j: int| 0 <= j < rows_model(m1).len() ==> rows_model(m1)[j].0 == rows_model(m2)[j].0,
        forall|j: int|
            0 <= j < rows_model(m1).len() && rows_model(m1)[j] != rows_model(m2)[j] ==> rows_model(
                m1,
            )[j].0 == stem_of(m1[k].name),
    decreases m1.len(),
{
    assert(is_record_entry(m1[0]) == is_record_entry(m2[0]));
    if k == 0 {
        assert(m1.skip(1) =~= m2.skip(1));
        assert(record_entries(m1.skip(1)) == record_entries(m2.skip(1)));
        if is_record_entry(m1[0]) {
            assert(forall|j: int|
                0 <= j < rows_model(m1).len() ==> rows_model(m1)[j] == (if j == 0 {
                    row_for(m1[0])
                } else {
                    rows_model(m1.skip(1))[j - 1]
                }));
            assert(forall|j: int|
                0 <= j < rows_model(m2).len() ==> rows_model(m2)[j] == (if j == 0 {
                    row_for(m2[0])
                } else {
                    rows_model(m2.skip(1))[j - 1]
                }));
            assert(row_for(m1[0]).0 == row_for(m2[0]).0);
        } else {
            assert(record_entries(m1) == Seq::<EntryV>::empty() + record_entries(m1.skip(1)));
            assert(Seq::<EntryV>::empty() + record_entries(m1.skip(1)) =~= record_entries(
                m1.skip(1),
            ));
            assert(record_entries(m2) == Seq::<EntryV>::empty() + record_entries(m2.skip(1)));
            assert(Seq::<EntryV>::empty() + record_entries(m2.skip(1)) =~= record_entries(
                m2.skip(1),
            ));
        }
    } else {
        assert(m1[0] == m2[0]);
        assert(forall|i: int| 0 <= i < m1.skip(1).len() ==> m1.skip(1)[i] == m1[i + 1]);
        assert(forall|i: int| 0 <= i < m2.skip(1).len() ==> m2.skip(1)[i] == m2[i + 1]);
        lemma_fault_isolation(m1.skip(1), m2.skip(1), k - 1);
        if is_record_entry(m1[0]) {
            assert(forall|j: int|
                0 <= j < rows_model(m1).len() ==> rows_model(m1)[j] == (if j == 0 {
                    row_for(m1[0])
                } else {
                    rows_model(m1.skip(1))[j - 1]
                }));
            assert(forall|j: int|
                0 <= j < rows_model(m2).len() ==> rows_model(m2)[j] == (if j == 0 {
                    row_for(m2[0])
                } else {
                    rows_model(m2.skip(1))[j - 1]
                }));
            assert(m1.skip(1)[k - 1] == m1[k]);
        } else {
            assert(record_entries(m1) == Seq::<EntryV>::empty() + record_entries(m1.skip(1)));
            assert(Seq::<EntryV>::empty() + record_entries(m1.skip(1)) =~= record_entries(
                m1.skip(1),
            ));
            assert(record_entries(m2) == Seq::<EntryV>::empty() + record_entries(m2.skip(1)));
            assert(Seq::<EntryV>::empty() + record_entries(m2.skip(1)) =~= record_entries(
                m2.skip(1),
            ));
            assert(m1.skip(1)[k - 1] == m1[k]);
        }
    }
}

} // verus!
